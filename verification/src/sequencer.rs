use vstd::prelude::*;
use std::collections::BTreeMap;
use crate::messages::Packet;
use crate::btree_ext::{first_key, last_key, pop_first};
use crate::packet_sorter::{is_max_key, is_min_key, key_range, MAX_DURATION_NANOS};

verus! {

/// A packet more than this far ahead of the newest queued one is a jump in
/// the sequence: the sequencer then drops what it holds and starts over
/// from that packet.
pub const SEQUENCER_JUMP: u64 = 10;

/// From the queue `m`, the packets `from`, ..., `to - 1` were all there and
/// were handed out as `out`, in that order; `to` was not there; `rest` is what
/// stays queued.
pub open spec fn released_packets(
    m: Map<u64, Packet>,
    from: int,
    to: int,
    out: Seq<Packet>,
    rest: Map<u64, Packet>,
) -> bool {
    &&& 0 <= from <= to <= u64::MAX
    &&& forall|k: u64| from <= k < to ==> #[trigger] m.contains_key(k)
    &&& !m.contains_key(to as u64)
    &&& out.len() == to - from
    &&& forall|i: int| 0 <= i < out.len() ==> #[trigger] out[i] == m[(from + i) as u64]
    &&& rest == m.remove_keys(key_range(from, to))
}

/// The deadline timer set to fire `deadline` after `now`.
pub open spec fn due_after(now: u64, deadline: u128) -> Option<u128> {
    Some((now + deadline) as u128)
}

/// The older reordering queue: like the packet sorter, but on a jump in the
/// sequence it drops what it holds, and its deadline timer is either set to
/// a time or never fires.
#[derive(Debug)]
pub struct Sequencer {
    packet_queue: BTreeMap<u64, Packet>,
    next_seq: u64,
    deadline: u128,
    deadline_timer: Option<u128>,
}

impl Sequencer {
    /// The packets waiting, by sequence number.
    pub closed spec fn queue(&self) -> Map<u64, Packet> {
        self.packet_queue@
    }

    /// The sequence number handed out next.
    pub closed spec fn spec_next_seq(&self) -> u64 {
        self.next_seq
    }

    /// How long a missing packet is waited for, in nanoseconds.
    pub closed spec fn spec_deadline(&self) -> u128 {
        self.deadline
    }

    /// When the deadline timer fires next (`None`: never).
    pub closed spec fn timer(&self) -> Option<u128> {
        self.deadline_timer
    }

    /// Every waiting packet is filed under its own sequence number, which is
    /// not behind the next one handed out and below `u64::MAX`.
    pub open spec fn wf(&self) -> bool {
        &&& forall|k: u64| #[trigger] self.queue().contains_key(k) ==> {
            &&& self.spec_next_seq() <= k < u64::MAX
            &&& self.queue()[k].seq == k
        }
        &&& self.spec_deadline() <= MAX_DURATION_NANOS
    }

    /// An empty sequencer that waits `deadline` nanoseconds for a missing
    /// packet; its timer fires `deadline` after `now`.
    pub fn new(deadline: u128, now: u64) -> (r: Sequencer)
        requires
            deadline <= MAX_DURATION_NANOS,
        ensures
            r.wf(),
            r.queue() == Map::<u64, Packet>::empty(),
            r.spec_next_seq() == 0,
            r.spec_deadline() == deadline,
            r.timer() == due_after(now, deadline),
    {
        Sequencer {
            packet_queue: BTreeMap::new(),
            next_seq: 0,
            deadline,
            deadline_timer: Some(now as u128 + deadline),
        }
    }

    /// The sequence number handed out next.
    pub fn next_seq(&self) -> (r: u64)
        ensures
            r == self.spec_next_seq(),
    {
        self.next_seq
    }

    /// When the deadline timer fires next (`None`: never).
    pub fn deadline_timer(&self) -> (r: Option<u128>)
        ensures
            r == self.timer(),
    {
        self.deadline_timer
    }

    /// Hands out the next packet in sequence if it has arrived, and then sets
    /// the deadline timer to fire `deadline` from now.
    pub fn get_next_packet(&mut self, now: u64) -> (r: Option<Packet>)
        requires
            old(self).wf(),
        ensures
            final(self).wf(),
            final(self).spec_deadline() == old(self).spec_deadline(),
            old(self).queue().contains_key(old(self).spec_next_seq()) ==> {
                &&& r == Some(old(self).queue()[old(self).spec_next_seq()])
                &&& final(self).queue() == old(self).queue().remove(old(self).spec_next_seq())
                &&& final(self).spec_next_seq() == old(self).spec_next_seq() + 1
                &&& final(self).timer() == due_after(now, old(self).spec_deadline())
            },
            !old(self).queue().contains_key(old(self).spec_next_seq()) ==> {
                &&& r is None
                &&& final(self).queue() == old(self).queue()
                &&& final(self).spec_next_seq() == old(self).spec_next_seq()
                &&& final(self).timer() == old(self).timer()
            },
    {
        match first_key(&self.packet_queue) {
            Some(k) => {
                if k == self.next_seq {
                    assert(self.queue().contains_key(k));
                    let ghost q_before = self.queue();
                    match pop_first(&mut self.packet_queue) {
                        Some((_, pkt)) => {
                            self.next_seq = self.next_seq + 1;
                            self.deadline_timer = Some(now as u128 + self.deadline);
                            proof {
                                assert forall|j: u64| #[trigger] self.queue().contains_key(j) implies {
                                    &&& self.spec_next_seq() <= j < u64::MAX
                                    &&& self.queue()[j].seq == j
                                } by {
                                    assert(q_before.contains_key(j));
                                }
                            }
                            return Some(pkt);
                        },
                        None => {
                            return None;
                        },
                    }
                }
                assert(!self.queue().contains_key(self.next_seq)) by {
                    if self.queue().contains_key(self.next_seq) {
                        assert(k <= self.next_seq);
                        assert(self.next_seq <= k);
                    }
                }
                None
            },
            None => {
                assert(!self.queue().contains_key(self.next_seq));
                None
            },
        }
    }

    /// Hands out, in order, every packet that is next in line.
    fn enqueue_sorted_packets(&mut self, now: u64) -> (r: Vec<Packet>)
        requires
            old(self).wf(),
        ensures
            final(self).wf(),
            final(self).spec_deadline() == old(self).spec_deadline(),
            released_packets(
                old(self).queue(),
                old(self).spec_next_seq() as int,
                final(self).spec_next_seq() as int,
                r@,
                final(self).queue(),
            ),
            r@.len() > 0 ==> final(self).timer() == due_after(now, old(self).spec_deadline()),
            r@.len() == 0 ==> final(self).timer() == old(self).timer(),
    {
        let ghost q0 = self.queue();
        let ghost n0 = self.next_seq;
        let mut out: Vec<Packet> = Vec::new();
        assert(q0.remove_keys(key_range(n0 as int, n0 as int)) =~= q0);
        loop
            invariant
                self.wf(),
                self.spec_deadline() == old(self).spec_deadline(),
                n0 <= self.next_seq,
                out@.len() == self.next_seq - n0,
                forall|k: u64| n0 <= k < self.next_seq ==> #[trigger] q0.contains_key(k),
                forall|i: int| 0 <= i < out@.len() ==> #[trigger] out@[i] == q0[(n0 + i) as u64],
                self.queue() == q0.remove_keys(key_range(n0 as int, self.next_seq as int)),
                out@.len() > 0 ==> self.timer() == due_after(now, self.deadline),
                out@.len() == 0 ==> self.timer() == old(self).timer(),
                n0 == old(self).spec_next_seq(),
                q0 == old(self).queue(),
            ensures
                released_packets(q0, n0 as int, self.next_seq as int, out@, self.queue()),
                self.wf(),
                self.spec_deadline() == old(self).spec_deadline(),
                out@.len() > 0 ==> self.timer() == due_after(now, self.deadline),
                out@.len() == 0 ==> self.timer() == old(self).timer(),
            decreases self.queue().dom().len(),
        {
            let ghost before = self.queue();
            let ghost k = self.next_seq;
            match self.get_next_packet(now) {
                Some(p) => {
                    proof {
                        assert(before.contains_key(k));
                        assert(q0.contains_key(k)) by {
                            assert(before.dom().subset_of(q0.dom()));
                        }
                        assert(before[k] == q0[k]);
                        assert(self.queue() =~= q0.remove_keys(key_range(n0 as int, self.next_seq as int)));
                        assert(before.dom().finite());
                    }
                    out.push(p);
                    proof {
                        assert forall|i: int| 0 <= i < out@.len() implies #[trigger] out@[i] == q0[(n0 + i) as u64] by {
                            if i == out@.len() - 1 {
                                assert((n0 + i) as u64 == k);
                            }
                        }
                    }
                },
                None => {
                    proof {
                        assert(!q0.contains_key(k)) by {
                            if q0.contains_key(k) {
                                assert(!key_range(n0 as int, k as int).contains(k));
                                assert(before.contains_key(k));
                            }
                        }
                    }
                    break;
                },
            }
        }
        out
    }

    /// Gives up on the missing packets: moves on to the oldest packet held,
    /// hands out everything that is then in line, and stops the deadline
    /// timer.
    pub fn advance_queue(&mut self, now: u64) -> (r: Vec<Packet>)
        requires
            old(self).wf(),
        ensures
            final(self).wf(),
            final(self).spec_deadline() == old(self).spec_deadline(),
            final(self).spec_next_seq() >= old(self).spec_next_seq(),
            final(self).timer() is None,
            old(self).queue().dom().len() > 0 ==> exists|first: u64| {
                &&& is_min_key(old(self).queue(), first)
                &&& released_packets(old(self).queue(), first as int, final(self).spec_next_seq() as int, r@, final(self).queue())
            },
            old(self).queue().dom().len() == 0 ==> {
                &&& r@.len() == 0
                &&& final(self).queue() == old(self).queue()
                &&& final(self).spec_next_seq() == old(self).spec_next_seq()
            },
    {
        match first_key(&self.packet_queue) {
            Some(first) => {
                assert(is_min_key(self.queue(), first));
                self.next_seq = first;
                let out = self.enqueue_sorted_packets(now);
                self.deadline_timer = None;
                out
            },
            None => {
                self.deadline_timer = None;
                Vec::new()
            },
        }
    }

    /// Takes in a packet of this peer. A packet behind the next one in line is
    /// dropped, and so is a second copy of a waiting one. A packet more than
    /// `SEQUENCER_JUMP` ahead of the newest waiting one makes the sequencer
    /// drop what it holds and start over from that packet. Returns the
    /// packets handed out, in order; a stopped deadline timer is restarted.
    pub fn insert_packet(&mut self, pkt: Packet, now: u64) -> (r: Vec<Packet>)
        requires
            old(self).wf(),
            pkt.seq < u64::MAX,
        ensures
            final(self).wf(),
            final(self).spec_deadline() == old(self).spec_deadline(),
            final(self).spec_next_seq() >= old(self).spec_next_seq(),
            pkt.seq < old(self).spec_next_seq() ==> {
                &&& r@.len() == 0
                &&& final(self).queue() == old(self).queue()
                &&& final(self).spec_next_seq() == old(self).spec_next_seq()
                &&& final(self).timer() == old(self).timer()
            },
            pkt.seq >= old(self).spec_next_seq() ==> {
                let q0 = old(self).queue();
                let jump = exists|tail: u64| is_max_key(q0, tail) && pkt.seq > tail + SEQUENCER_JUMP;
                let d = old(self).spec_deadline();
                &&& jump ==> {
                    &&& r@ == seq![pkt]
                    &&& final(self).queue() == Map::<u64, Packet>::empty()
                    &&& final(self).spec_next_seq() == pkt.seq + 1
                    &&& final(self).timer() == due_after(now, d)
                }
                &&& !jump ==> {
                    let q1 = if q0.contains_key(pkt.seq) { q0 } else { q0.insert(pkt.seq, pkt) };
                    &&& released_packets(q1, old(self).spec_next_seq() as int, final(self).spec_next_seq() as int, r@, final(self).queue())
                    &&& final(self).timer() == (if r@.len() > 0 || old(self).timer() is None {
                        due_after(now, d)
                    } else {
                        old(self).timer()
                    })
                }
            },
    {
        let seq = pkt.seq;
        if seq >= self.next_seq {
            let ghost q0 = self.queue();
            let ghost p0 = pkt;
            let tail = last_key(&self.packet_queue);
            let is_jump = match tail {
                Some(t) => seq >= t && seq - t > SEQUENCER_JUMP,
                None => false,
            };
            proof {
                let jump = exists|tl: u64| is_max_key(q0, tl) && seq > tl + SEQUENCER_JUMP;
                if is_jump {
                    let t = tail.unwrap();
                    assert(is_max_key(q0, t));
                } else {
                    if jump {
                        let tl = choose|tl: u64| is_max_key(q0, tl) && seq > tl + SEQUENCER_JUMP;
                        match tail {
                            Some(t) => {
                                assert(t <= tl && tl <= t);
                            },
                            None => {
                                assert(q0.contains_key(tl));
                                assert(!q0.dom().contains(tl));
                            },
                        }
                    }
                }
                assert(is_jump == jump);
            }
            let mut out: Vec<Packet>;
            if is_jump {
                self.packet_queue.clear();
                self.packet_queue.insert(seq, pkt);
                proof {
                    assert(self.queue() =~= Map::<u64, Packet>::empty().insert(seq, p0));
                    assert forall|j: u64| #[trigger] self.queue().contains_key(j) implies {
                        &&& self.spec_next_seq() <= j < u64::MAX
                        &&& self.queue()[j].seq == j
                    } by {}
                }
                let ghost q1 = self.queue();
                out = self.advance_queue(now);
                proof {
                    let first = choose|first: u64| {
                        &&& is_min_key(q1, first)
                        &&& released_packets(q1, first as int, self.spec_next_seq() as int, out@, self.queue())
                    };
                    assert(q1.dom() =~= set![seq]);
                    assert(q1.dom().len() == 1);
                    assert(first == seq);
                    assert(!q1.contains_key((seq + 1) as u64));
                    assert(self.spec_next_seq() == seq + 1) by {
                        if self.spec_next_seq() > seq + 1 {
                            assert(q1.contains_key((seq + 1) as u64));
                        }
                    }
                    assert(out@ =~= seq![p0]);
                    assert(self.queue() =~= Map::<u64, Packet>::empty());
                }
            } else {
                if !self.packet_queue.contains_key(&seq) {
                    self.packet_queue.insert(seq, pkt);
                }
                proof {
                    assert forall|j: u64| #[trigger] self.queue().contains_key(j) implies {
                        &&& self.spec_next_seq() <= j < u64::MAX
                        &&& self.queue()[j].seq == j
                    } by {
                        if j != seq {
                            assert(q0.contains_key(j));
                        }
                    }
                }
                out = self.enqueue_sorted_packets(now);
            }
            let ghost mid_queue = self.queue();
            let ghost mid_next = self.next_seq;
            let mut more = self.enqueue_sorted_packets(now);
            proof {
                if is_jump {
                    assert(!mid_queue.contains_key(mid_next));
                } else {
                    assert(!mid_queue.contains_key(mid_next));
                }
                assert(more@.len() == 0);
                assert(self.queue() =~= mid_queue);
            }
            let ghost out_before = out@;
            out.append(&mut more);
            assert(out@ =~= out_before);
            if self.deadline_timer.is_none() {
                self.deadline_timer = Some(now as u128 + self.deadline);
            }
            out
        } else {
            Vec::new()
        }
    }

    /// The number of packets waiting.
    pub fn get_queue_length(&self) -> (r: usize)
        ensures
            r == self.queue().dom().len(),
    {
        self.packet_queue.len()
    }

    /// Whether the next packet in line has arrived.
    pub fn have_next_packet(&self) -> (r: bool)
        requires
            self.wf(),
        ensures
            r == self.queue().contains_key(self.spec_next_seq()),
    {
        match first_key(&self.packet_queue) {
            Some(k) => {
                proof {
                    if self.queue().contains_key(self.next_seq) {
                        assert(k <= self.next_seq);
                    }
                }
                k == self.next_seq
            },
            None => {
                assert(!self.queue().dom().contains(self.next_seq));
                false
            },
        }
    }
}

} // verus!
