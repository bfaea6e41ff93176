use assembler::bucket_set::{read_records, BucketSet};

fn text(v: &[u8]) -> String {
    String::from_utf8(v.to_vec()).unwrap()
}

#[test]
fn records_replay_in_written_order() {
    let mut set = BucketSet::new(b"tmp/links0", 3, 8);
    let written: Vec<(usize, &[u8])> = vec![
        (0, b"alpha"),
        (2, b""),
        (0, b"beta-gamma-delta"),
        (1, b"x"),
        (0, b"z"),
    ];
    for (b, r) in &written {
        set.add_record(*b, r);
    }
    let out = set.finalize();
    assert_eq!(out.records, vec![3, 1, 1]);
    let names: Vec<String> = out.files.iter().map(|n| text(n)).collect();
    assert_eq!(names, vec!["tmp/links0.0", "tmp/links0.1", "tmp/links0.2"]);
    for b in 0..3 {
        let replayed = read_records(set.partition_data(b)).unwrap();
        let expected: Vec<Vec<u8>> = written
            .iter()
            .filter(|(p, _)| *p == b)
            .map(|(_, r)| r.to_vec())
            .collect();
        assert_eq!(replayed, expected);
        assert_eq!(out.bytes[b] as usize, set.partition_data(b).len());
    }
    assert_eq!(out.bytes, vec![1 + 5 + 1 + 16 + 1 + 1, 2, 1]);
}

#[test]
fn finalize_twice_gives_the_same() {
    let mut set = BucketSet::new(b"results_map", 2, 1024);
    set.add_record(1, b"abc");
    set.add_record(0, b"de");
    let first = set.finalize();
    let second = set.finalize();
    assert_eq!(first.files, second.files);
    assert_eq!(first.bytes, second.bytes);
    assert_eq!(first.records, second.records);
    assert_eq!(first.records, vec![1, 1]);
    assert_eq!(set.partition_count(), 2);
}

#[test]
fn truncated_data_does_not_replay() {
    let mut set = BucketSet::new(b"b", 1, 0);
    set.add_record(0, b"hello");
    set.finalize();
    let data = set.partition_data(0).clone();
    assert!(read_records(&data[..data.len() - 1]).is_none());
    assert_eq!(read_records(&[]).unwrap().len(), 0);
}
