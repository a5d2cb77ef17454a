use atlas_txn_sender::metrics::{bin_counter_to_tag, MAX_RETRIES_BINS, RETRY_COUNT_BINS};

#[test]
fn test_bin_counter() {
    let bins = vec![0, 1, 2, 5, 10, 25];
    assert_eq!(bin_counter_to_tag(None, &bins), "none");
    assert_eq!(bin_counter_to_tag(Some(-100), &bins), "-inf_0");
    assert_eq!(bin_counter_to_tag(Some(0), &bins), "0_1");
    assert_eq!(bin_counter_to_tag(Some(1), &bins), "1_2");
    assert_eq!(bin_counter_to_tag(Some(2), &bins), "2_5");
    assert_eq!(bin_counter_to_tag(Some(3), &bins), "2_5");
    assert_eq!(bin_counter_to_tag(Some(17), &bins), "10_25");
    assert_eq!(bin_counter_to_tag(Some(34), &bins), "25_inf");
}

#[test]
fn tags_of_negative_and_large_bins() {
    let bins = vec![i32::MIN, -10, 0, i32::MAX];
    assert_eq!(bin_counter_to_tag(Some(i32::MIN), &bins), "-2147483648_-10");
    assert_eq!(bin_counter_to_tag(Some(-10), &bins), "-10_0");
    assert_eq!(bin_counter_to_tag(Some(7), &bins), "0_2147483647");
    assert_eq!(bin_counter_to_tag(Some(i32::MAX), &bins), "2147483647_inf");
}

#[test]
fn tag_without_bins() {
    assert_eq!(bin_counter_to_tag(Some(3), &vec![]), "-inf_inf");
    assert_eq!(bin_counter_to_tag(None, &vec![]), "none");
}

#[test]
fn last_reached_bin_counts_where_bins_do_not_ascend() {
    assert_eq!(bin_counter_to_tag(Some(4), &vec![5, 3, 7, 1, 9]), "1_9");
    assert_eq!(bin_counter_to_tag(Some(0), &vec![5, 3]), "-inf_5");
}

#[test]
fn same_tag_exactly_in_the_same_bin() {
    let bins = RETRY_COUNT_BINS.to_vec();
    assert_eq!(bin_counter_to_tag(Some(5), &bins), bin_counter_to_tag(Some(9), &bins));
    assert_ne!(bin_counter_to_tag(Some(9), &bins), bin_counter_to_tag(Some(10), &bins));
}

#[test]
fn bins_of_the_sender() {
    assert_eq!(RETRY_COUNT_BINS, [0, 1, 2, 5, 10, 25]);
    assert_eq!(MAX_RETRIES_BINS, [0, 1, 5, 10, 30]);
}
