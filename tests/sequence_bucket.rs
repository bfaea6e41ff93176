use assembler::sequence_bucket::{first_min_index, minimizer_range, READ_FLAG_INCL_END};

#[test]
fn minimizer_window_drops_one_end() {
    assert_eq!(minimizer_range(31, 31, 0), (0, 30));
    assert_eq!(minimizer_range(31, 31, READ_FLAG_INCL_END), (1, 31));
    assert_eq!(minimizer_range(40, 31, 0), (1, 31));
}

#[test]
fn first_minimum_wins_ties() {
    assert_eq!(first_min_index(&vec![]), None);
    assert_eq!(first_min_index(&vec![4, 2, 7, 2]), Some(1));
    assert_eq!(first_min_index(&vec![9]), Some(0));
}
