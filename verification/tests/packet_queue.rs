use mpconn::messages::Packet;
use mpconn::packet_queue::PacketQueue;

fn packet(seq: u64) -> Packet {
    Packet { seq, id: 0, bytes: vec![] }
}

#[test]
fn insert_ordering() {
    let mut queue = PacketQueue::new();
    let packet0 = packet(0);
    let packet1 = packet(1);
    let packet2 = packet(2);

    queue.insert(packet1.clone(), 10);
    queue.insert(packet2.clone(), 20);
    queue.insert(packet0.clone(), 30);

    let expected_seq_order = vec![packet0.seq, packet1.seq, packet2.seq];
    let expected_insert_order = vec![packet1.seq, packet2.seq, packet0.seq];

    assert_eq!(expected_seq_order, queue.seq_order());
    assert_eq!(expected_insert_order, queue.insert_order());
}

#[test]
fn get_oldest_timestamp() {
    let mut queue = PacketQueue::new();
    // Packet 1 is queued first and has therefore waited longest.
    queue.insert(packet(1), 100);
    queue.insert(packet(2), 200);
    queue.insert(packet(0), 300);

    let oldest_timestamp = queue.get_oldest_timestamp().unwrap();
    assert_eq!(oldest_timestamp, 100);
}

#[test]
fn empty_queue_has_nothing() {
    let mut queue = PacketQueue::new();
    assert_eq!(queue.get_oldest_timestamp(), None);
    assert!(queue.first_entry().is_none());
    assert!(queue.last_entry().is_none());
    assert_eq!(queue.pop_first(), None);
    assert_eq!(queue.delete(3), None);
}

#[test]
fn first_and_last_entries_go_by_sequence_number() {
    let mut queue = PacketQueue::new();
    queue.insert(packet(5), 1);
    queue.insert(packet(2), 2);
    queue.insert(packet(9), 3);
    let (first_seq, first) = queue.first_entry().unwrap();
    assert_eq!(first_seq, 2);
    assert_eq!(first.seq, 2);
    let (last_seq, last) = queue.last_entry().unwrap();
    assert_eq!(last_seq, 9);
    assert_eq!(last.seq, 9);
}

#[test]
fn pop_first_forgets_the_insertion_record() {
    let mut queue = PacketQueue::new();
    queue.insert(packet(5), 1);
    queue.insert(packet(2), 2);
    assert_eq!(queue.pop_first(), Some(packet(2)));
    assert_eq!(queue.seq_order(), vec![5]);
    assert_eq!(queue.insert_order(), vec![5]);
    assert_eq!(queue.get_oldest_timestamp(), Some(1));
}

#[test]
fn delete_removes_one_packet() {
    let mut queue = PacketQueue::new();
    queue.insert(packet(5), 1);
    queue.insert(packet(2), 2);
    queue.insert(packet(7), 3);
    assert_eq!(queue.delete(5), Some(packet(5)));
    assert_eq!(queue.seq_order(), vec![2, 7]);
    assert_eq!(queue.insert_order(), vec![2, 7]);
    assert_eq!(queue.get_oldest_timestamp(), Some(2));
}
