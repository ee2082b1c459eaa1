use mpconn::messages::Packet;
use mpconn::packet_sorter::{DeadlineTimer, PacketSorter, YEAR_NANOS};
use mpconn::sequencer::Sequencer;

const SECOND: u128 = 1_000_000_000;

fn packet(seq: u64) -> Packet {
    Packet { seq, id: 0, bytes: Vec::new() }
}

#[test]
fn sorter_handles_out_of_order_packets() {
    let mut sorter = PacketSorter::new(SECOND, 0);
    let packet1 = packet(0);
    let packet2 = packet(1);

    let mut sorted = sorter.insert_packet(packet2.clone(), 10);
    sorted.extend(sorter.insert_packet(packet1.clone(), 20));

    assert_eq!(sorted.len(), 2);
    assert_eq!(sorted[0], packet1);
    assert_eq!(sorted[1], packet2);
}

#[test]
fn sorter_clears_queue_on_large_sequence_jump() {
    let mut sorter = PacketSorter::new(SECOND, 0);
    let packet1 = packet(0);
    let packet11 = packet(11);

    let first = sorter.insert_packet(packet1.clone(), 10);
    let none_yet = sorter.insert_packet(packet11.clone(), 20);
    assert_eq!(first, vec![packet1]);
    assert!(none_yet.is_empty());

    // seq 11 is queued but not yet in line.
    let should_be_false = sorter.have_next_packet();
    assert_eq!(should_be_false, false);

    // The deadline passes and the sorter gives up on the missing packets.
    let released = sorter.advance_queue(20 + SECOND as u64);
    assert_eq!(released, vec![packet11]);
}

#[test]
fn sorter_drops_old_and_duplicate_packets() {
    let mut sorter = PacketSorter::new(SECOND, 0);
    assert_eq!(sorter.insert_packet(packet(0), 1), vec![packet(0)]);
    assert!(sorter.insert_packet(packet(0), 2).is_empty());
    assert!(sorter.insert_packet(packet(3), 3).is_empty());
    assert!(sorter.insert_packet(packet(3), 4).is_empty());
    assert_eq!(sorter.get_queue_length(), 1);
    assert_eq!(sorter.next_seq(), 1);
}

#[test]
fn sorter_gives_up_at_once_on_a_jump_past_the_limit() {
    let mut sorter = PacketSorter::new(SECOND, 0);
    assert!(sorter.insert_packet(packet(5), 1).is_empty());
    // 106 is more than 100 past the newest waiting packet (5).
    let released = sorter.insert_packet(packet(106), 2);
    assert_eq!(released, vec![packet(5)]);
    assert_eq!(sorter.next_seq(), 6);
    assert_eq!(sorter.get_queue_length(), 1);
}

#[test]
fn sorter_get_next_packet_hands_out_in_line() {
    let mut sorter = PacketSorter::new(SECOND, 0);
    assert!(sorter.insert_packet(packet(1), 1).is_empty());
    assert_eq!(sorter.get_next_packet(2), None);
    let _ = sorter.advance_queue(3);
    assert_eq!(sorter.next_seq(), 2);
}

#[test]
fn sorter_timer_is_pushed_out_when_nothing_waits() {
    let mut sorter = PacketSorter::new(SECOND, 0);
    assert_eq!(sorter.deadline_timer(), DeadlineTimer { first_tick: SECOND, period: SECOND });
    let released = sorter.advance_queue(500);
    assert!(released.is_empty());
    assert_eq!(sorter.deadline_timer().first_tick, 500 + YEAR_NANOS);
}

#[test]
fn sorter_deadline_can_be_changed() {
    let mut sorter = PacketSorter::new(SECOND, 0);
    sorter.set_deadline(5);
    assert_eq!(sorter.deadline(), 5);
    assert!(sorter.deadline_active());
}

#[test]
fn sequencer_orders_packets() {
    let mut sequencer = Sequencer::new(SECOND, 0);
    assert!(sequencer.insert_packet(packet(1), 1).is_empty());
    assert!(sequencer.have_next_packet() == false);
    assert_eq!(sequencer.insert_packet(packet(0), 2), vec![packet(0), packet(1)]);
    assert_eq!(sequencer.next_seq(), 2);
    assert_eq!(sequencer.get_queue_length(), 0);
}

#[test]
fn sequencer_starts_over_on_a_jump() {
    let mut sequencer = Sequencer::new(SECOND, 0);
    assert!(sequencer.insert_packet(packet(2), 1).is_empty());
    // 13 is more than 10 past the newest waiting packet (2): 2 is dropped.
    assert_eq!(sequencer.insert_packet(packet(13), 2), vec![packet(13)]);
    assert_eq!(sequencer.next_seq(), 14);
    assert_eq!(sequencer.get_queue_length(), 0);
}

#[test]
fn sequencer_advance_skips_the_gap() {
    let mut sequencer = Sequencer::new(SECOND, 0);
    assert!(sequencer.insert_packet(packet(4), 1).is_empty());
    assert!(sequencer.insert_packet(packet(5), 2).is_empty());
    assert_eq!(sequencer.advance_queue(3), vec![packet(4), packet(5)]);
    assert_eq!(sequencer.next_seq(), 6);
}

#[test]
fn sorter_output_never_goes_back() {
    let mut sorter = PacketSorter::new(SECOND, 0);
    let arrivals = [3u64, 1, 0, 2, 2, 7, 5, 4, 1, 9, 6];
    let mut handed_out = Vec::new();
    for (n, seq) in arrivals.iter().enumerate() {
        handed_out.extend(sorter.insert_packet(packet(*seq), n as u64).into_iter().map(|p| p.seq));
    }
    handed_out.extend(sorter.advance_queue(100).into_iter().map(|p| p.seq));
    handed_out.extend(sorter.advance_queue(200).into_iter().map(|p| p.seq));
    assert_eq!(handed_out, vec![0, 1, 2, 3, 4, 5, 6, 7, 9]);
    for w in handed_out.windows(2) {
        assert!(w[0] < w[1]);
    }
}
