use assembler::debug_bucket_stats::{count_sub_buckets, format_stats, BucketStats, ReadHashes};

#[test]
fn sub_buckets_count_all_and_distinct_hashes() {
    let reads = vec![
        ReadHashes { sub_bucket: 0, hashes: vec![5, 6, 5] },
        ReadHashes { sub_bucket: 2, hashes: vec![1] },
        ReadHashes { sub_bucket: 0, hashes: vec![6, 7] },
    ];
    let stats = count_sub_buckets(&reads, 3);
    assert_eq!(stats.totals, vec![5, 0, 1]);
    assert_eq!(stats.uniques, vec![3, 0, 1]);
    assert_eq!(String::from_utf8(format_stats(&stats)).unwrap(), "(3/5);(0/0);(1/1)");
}

#[test]
fn same_hash_in_two_sub_buckets_counts_in_each() {
    let reads = vec![
        ReadHashes { sub_bucket: 1, hashes: vec![9] },
        ReadHashes { sub_bucket: 0, hashes: vec![9, 9] },
    ];
    let stats = count_sub_buckets(&reads, 2);
    assert_eq!(stats.totals, vec![2, 1]);
    assert_eq!(stats.uniques, vec![1, 1]);
}

#[test]
fn no_reads_give_zero_counts() {
    let stats = count_sub_buckets(&vec![], 2);
    assert_eq!(stats.totals, vec![0, 0]);
    let empty = BucketStats { totals: vec![], uniques: vec![] };
    assert!(format_stats(&empty).is_empty());
}
