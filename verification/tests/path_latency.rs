use mpconn::path_latency::{clock_nanos, PathLatency};

#[test]
fn test_insert_new_timestamp_empty() {
    let mut path_latency = PathLatency::new();
    path_latency.insert_new_timestamp(1);
    assert_eq!(path_latency.len(), 1);
}

#[test]
fn test_insert_new_timestamp_not_empty() {
    let mut path_latency = PathLatency::new();
    path_latency.insert_new_timestamp(1);
    path_latency.insert_new_timestamp(2);
    assert_eq!(path_latency.len(), 2);
}

#[test]
fn test_insert_new_timestamp_max_size() {
    let mut path_latency = PathLatency::new();
    for i in 1..=101 {
        path_latency.insert_new_timestamp(i);
    }
    assert_eq!(path_latency.len(), 100);
}

#[test]
fn test_insert_new_timestamp_after_max_size() {
    let mut path_latency = PathLatency::new();
    for i in 1..=101 {
        path_latency.insert_new_timestamp(i);
    }
    path_latency.insert_new_timestamp(102);
    assert_eq!(path_latency.len(), 100);
    assert_eq!(path_latency.last_seq().unwrap(), 102);
}

#[test]
fn repeated_arrivals_share_one_entry() {
    let mut path_latency = PathLatency::new();
    path_latency.insert_timestamp_at(7, 1_000);
    path_latency.insert_timestamp_at(7, 1_500);
    path_latency.insert_timestamp_at(3, 2_000);
    assert_eq!(path_latency.len(), 2);
    assert_eq!(path_latency.last_seq(), Some(7));
}

#[test]
fn full_table_evicts_the_smallest_sequence_number() {
    let mut path_latency = PathLatency::new();
    for i in 1..=100u64 {
        path_latency.insert_timestamp_at(i, i * 10);
    }
    assert_eq!(path_latency.len(), 100);
    path_latency.insert_timestamp_at(500, 5_000);
    assert_eq!(path_latency.len(), 100);
    assert_eq!(path_latency.last_seq(), Some(500));
}

#[test]
fn estimate_of_empty_table_is_zero() {
    let path_latency = PathLatency::new();
    assert!(path_latency.timestamps_in_order());
    assert_eq!(path_latency.estimate_path_delay_difference(), 0);
}

#[test]
fn estimate_weights_the_spread_of_each_sequence_number() {
    // Two copies of seq 1, 300 ns apart, and two of seq 2, 100 ns apart:
    // 2 * (300 + 100) / (2 + 2) = 200.
    let mut path_latency = PathLatency::new();
    path_latency.insert_timestamp_at(1, 1_000);
    path_latency.insert_timestamp_at(1, 1_300);
    path_latency.insert_timestamp_at(2, 2_000);
    path_latency.insert_timestamp_at(2, 2_100);
    assert!(path_latency.timestamps_in_order());
    assert_eq!(path_latency.estimate_path_delay_difference(), 200);
}

#[test]
fn estimate_with_single_copies_is_zero() {
    let mut path_latency = PathLatency::new();
    path_latency.insert_timestamp_at(1, 1_000);
    path_latency.insert_timestamp_at(2, 5_000);
    assert_eq!(path_latency.estimate_path_delay_difference(), 0);
}

#[test]
fn clock_reading_is_kept_or_saturated() {
    assert_eq!(clock_nanos(Some(42)), 42);
    assert_eq!(clock_nanos(Some(u128::MAX)), u64::MAX);
    assert_eq!(clock_nanos(None), 0);
}

#[test]
fn full_table_evicts_even_when_the_sequence_number_is_known() {
    let mut path_latency = PathLatency::new();
    for i in 1..=100u64 {
        path_latency.insert_timestamp_at(i, i);
    }
    path_latency.insert_timestamp_at(50, 1_000);
    assert_eq!(path_latency.len(), 99);
    assert_eq!(path_latency.last_seq(), Some(100));
}
