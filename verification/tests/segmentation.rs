use mpconn::segmentation::{split_datagrams, vec_to_transmit, TransmitBatch, MAX_BATCH};

#[test]
fn transmit_glues_datagrams_in_order() {
    let t = vec_to_transmit(vec![vec![1, 2], vec![3], vec![], vec![4, 5, 6]], 2);
    assert_eq!(t.contents, vec![1, 2, 3, 4, 5, 6]);
    assert_eq!(t.segment_size, Some(2));
}

#[test]
fn transmit_of_size_zero_is_not_segmented() {
    let t = vec_to_transmit(vec![vec![]], 0);
    assert!(t.contents.is_empty());
    assert_eq!(t.segment_size, None);
}

#[test]
fn batch_of_equal_datagrams_makes_one_send() {
    let mut batch = TransmitBatch::new(vec![1, 1]);
    assert!(batch.offer(vec![2, 2]));
    assert!(batch.offer(vec![3, 3]));
    let sends = batch.finish();
    assert_eq!(sends.len(), 1);
    assert_eq!(sends[0].contents, vec![1, 1, 2, 2, 3, 3]);
    assert_eq!(sends[0].segment_size, Some(2));
}

#[test]
fn shorter_datagram_closes_the_send() {
    let mut batch = TransmitBatch::new(vec![1, 1, 1]);
    assert!(!batch.offer(vec![2]));
    let sends = batch.finish();
    assert_eq!(sends.len(), 1);
    assert_eq!(sends[0].contents, vec![1, 1, 1, 2]);
    assert_eq!(sends[0].segment_size, Some(3));
}

#[test]
fn longer_datagram_goes_out_alone() {
    let mut batch = TransmitBatch::new(vec![1]);
    assert!(batch.offer(vec![2]));
    assert!(!batch.offer(vec![3, 3, 3]));
    let sends = batch.finish();
    assert_eq!(sends.len(), 2);
    assert_eq!(sends[0].contents, vec![1, 2]);
    assert_eq!(sends[1].contents, vec![3, 3, 3]);
    assert_eq!(sends[1].segment_size, Some(1));
}

#[test]
fn batch_closes_at_the_limit() {
    let mut batch = TransmitBatch::new(vec![0]);
    for n in 1..MAX_BATCH - 1 {
        assert!(batch.offer(vec![n as u8]));
    }
    assert!(!batch.offer(vec![99]));
    let sends = batch.finish();
    assert_eq!(sends.len(), 1);
    assert_eq!(sends[0].contents.len(), MAX_BATCH);
}

#[test]
fn single_datagram_receive() {
    let buffer = [9u8, 8, 7, 6, 5];
    assert_eq!(split_datagrams(&buffer, 3, 3), vec![vec![9, 8, 7]]);
}

#[test]
fn segmented_receive_splits_by_stride() {
    let buffer = [1u8, 2, 3, 4, 5, 6, 7, 0, 0];
    assert_eq!(split_datagrams(&buffer, 7, 3), vec![vec![1, 2, 3], vec![4, 5, 6], vec![7]]);
    assert_eq!(split_datagrams(&buffer, 6, 2), vec![vec![1, 2], vec![3, 4], vec![5, 6]]);
}

#[test]
fn empty_receive_yields_one_empty_datagram() {
    let buffer = [0u8; 4];
    assert_eq!(split_datagrams(&buffer, 0, 0), vec![Vec::<u8>::new()]);
    assert_eq!(split_datagrams(&buffer, 0, 5), Vec::<Vec<u8>>::new());
}

#[test]
fn receive_splits_what_a_send_glued() {
    let packets = vec![vec![1u8, 2, 3], vec![4, 5, 6], vec![7, 8]];
    let t = vec_to_transmit(packets.clone(), 3);
    let len = t.contents.len();
    assert_eq!(split_datagrams(&t.contents, len, t.segment_size.unwrap()), packets);
    let single = vec![vec![5u8, 6, 7]];
    let t = vec_to_transmit(single.clone(), 3);
    assert_eq!(split_datagrams(&t.contents, 3, 3), single);
}
