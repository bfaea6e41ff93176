use assembler::counters_analyzer::{BucketCounter, CountersAnalyzer};

#[test]
fn median_of_nonzero_counts_descending() {
    let a = CountersAnalyzer::new(vec![vec![0, 0, 5, 7, 9]]);
    assert_eq!(a.median(), 7);
}

#[test]
fn median_without_data_is_zero() {
    assert_eq!(CountersAnalyzer::new(vec![]).median(), 0);
    assert_eq!(CountersAnalyzer::new(vec![vec![0, 0], vec![]]).median(), 0);
}

#[test]
fn median_over_several_partitions() {
    let a = CountersAnalyzer::new(vec![vec![4, 0, 1], vec![8], vec![2, 6]]);
    // descending: 8 6 4 2 1, middle at index 2
    assert_eq!(a.median(), 4);
    let b = CountersAnalyzer::new(vec![vec![3, 1], vec![2, 4]]);
    // descending: 4 3 2 1, index 2
    assert_eq!(b.median(), 2);
}

#[test]
fn counters_kept_per_partition() {
    let a = CountersAnalyzer::new(vec![vec![4, 0, 1], vec![8]]);
    assert_eq!(
        a.get_counters_for_bucket(0),
        &vec![BucketCounter { count: 4 }, BucketCounter { count: 0 }, BucketCounter { count: 1 }]
    );
    assert_eq!(a.get_counters_for_bucket(1), &vec![BucketCounter { count: 8 }]);
    assert_eq!(a.maximum_count(), 8);
    assert_eq!(a.get_bucket_maximum(0), 4);
    assert_eq!(a.get_bucket_maximum(1), 8);
    assert_eq!(CountersAnalyzer::new(vec![vec![]]).maximum_count(), 0);
}

#[test]
fn snapshot_parts_rebuild_the_analyzer() {
    let a = CountersAnalyzer::new(vec![vec![3, 9]]);
    let b = CountersAnalyzer::from_parts(a.counters().clone(), a.median());
    assert_eq!(b.median(), 3);
    assert_eq!(b.counters(), a.counters());
}
