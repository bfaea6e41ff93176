use assembler::bucket_set::read_records;
use assembler::results_bucket::ResultsBucket;

#[test]
fn reads_get_consecutive_indices() {
    let mut bucket = ResultsBucket::new(5);
    assert_eq!(bucket.add_read(b"ACGT"), 0);
    assert_eq!(bucket.add_read(b"GG"), 1);
    assert_eq!(bucket.add_read(b""), 2);
    assert_eq!(bucket.get_bucket_index(), 5);
    let bytes = bucket.finalize();
    assert_eq!(bytes, vec![4, b'A', b'C', b'G', b'T', 2, b'G', b'G', 0]);
    assert_eq!(
        read_records(&bytes).unwrap(),
        vec![b"ACGT".to_vec(), b"GG".to_vec(), vec![]]
    );
}
