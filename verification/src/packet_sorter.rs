use vstd::prelude::*;
use std::collections::BTreeMap;
use crate::messages::Packet;
use crate::btree_ext::{first_key, last_key, pop_first};

verus! {

/// One year, in nanoseconds: how far out the deadline timer is pushed while
/// nothing waits.
pub const YEAR_NANOS: u128 = 31536000000000000;

/// The longest `std::time::Duration`, in nanoseconds.
pub const MAX_DURATION_NANOS: u128 = 18446744073709551615999999999;

/// A packet more than this far ahead of the newest queued one is a jump in
/// the sequence: the sorter then stops waiting for the missing packets.
pub const LARGE_JUMP: u64 = 100;

/// A packet waiting to be put in order, with the (monotonic) time in
/// nanoseconds at which it arrived.
#[derive(Debug)]
pub struct QueuedPacket {
    pub packet: Packet,
    pub timestamp: u64,
}

/// The setting of the deadline timer: it ticks first at `first_tick` and then
/// every `period` (both in nanoseconds of the monotonic clock).
#[derive(Debug, Clone, Copy, PartialEq, Eq, Structural)]
pub struct DeadlineTimer {
    pub first_tick: u128,
    pub period: u128,
}

/// A timer that ticks first `delay` after `now`, then every `period`.
pub open spec fn timer_after(now: u64, delay: int, period: u128) -> DeadlineTimer {
    DeadlineTimer { first_tick: (now + delay) as u128, period }
}

/// `k` is the smallest key of `m`.
pub open spec fn is_min_key<V>(m: Map<u64, V>, k: u64) -> bool {
    m.contains_key(k) && forall|j: u64| #[trigger] m.contains_key(j) ==> k <= j
}

/// `k` is the largest key of `m`.
pub open spec fn is_max_key<V>(m: Map<u64, V>, k: u64) -> bool {
    m.contains_key(k) && forall|j: u64| #[trigger] m.contains_key(j) ==> j <= k
}

/// The smallest key of a non-empty map.
pub open spec fn min_key<V>(m: Map<u64, V>) -> u64 {
    choose|k: u64| is_min_key(m, k)
}

/// The keys from `from` up to, not including, `to`.
pub open spec fn key_range(from: int, to: int) -> Set<u64> {
    Set::new(|k: u64| from <= k < to)
}

/// From the queue `m`, the packets `from`, `from + 1`, ..., `to - 1` were all
/// there and were handed out as `out`, in that order; `to` was not there;
/// `rest` is what stays queued.
pub open spec fn released_run(
    m: Map<u64, QueuedPacket>,
    from: int,
    to: int,
    out: Seq<Packet>,
    rest: Map<u64, QueuedPacket>,
) -> bool {
    &&& 0 <= from <= to <= u64::MAX
    &&& forall|k: u64| from <= k < to ==> #[trigger] m.contains_key(k)
    &&& !m.contains_key(to as u64)
    &&& out.len() == to - from
    &&& forall|i: int| 0 <= i < out.len() ==> #[trigger] out[i] == m[(from + i) as u64].packet
    &&& rest == m.remove_keys(key_range(from, to))
}

/// The timer set when the oldest waiting packet arrived at `arrived`: at once
/// if it has waited a whole `deadline`, else when it will have.
pub open spec fn timer_for_waiting(now: u64, arrived: u64, deadline: u128) -> DeadlineTimer {
    let waited: int = if now >= arrived { now - arrived } else { 0 };
    if waited >= deadline {
        timer_after(now, 0, deadline)
    } else {
        timer_after(now, deadline - waited, deadline)
    }
}


/// What a run hands out: packets filed under their own sequence numbers come
/// out as `from`, `from + 1`, ..., `to - 1`, and none of them stays queued.
pub proof fn lemma_released_in_sequence(
    m: Map<u64, QueuedPacket>,
    from: int,
    to: int,
    out: Seq<Packet>,
    rest: Map<u64, QueuedPacket>,
)
    requires
        released_run(m, from, to, out, rest),
        forall|k: u64| #[trigger] m.contains_key(k) ==> m[k].packet.seq == k,
    ensures
        forall|i: int| 0 <= i < out.len() ==> #[trigger] out[i].seq == from + i,
        forall|k: u64| from <= k < to ==> !#[trigger] rest.contains_key(k),
{
    assert forall|i: int| 0 <= i < out.len() implies #[trigger] out[i].seq == from + i by {
        let k = (from + i) as u64;
        assert(m.contains_key(k));
    }
    assert forall|k: u64| from <= k < to implies !#[trigger] rest.contains_key(k) by {
        assert(key_range(from, to).contains(k));
    }
}

/// Puts the packets of one peer back in sequence order. Packets are handed
/// out as soon as they are next in line; when the deadline timer fires the
/// sorter gives up on the missing ones and moves on to the oldest it holds.
#[derive(Debug)]
pub struct PacketSorter {
    packet_queue: BTreeMap<u64, QueuedPacket>,
    next_seq: u64,
    deadline: u128,
    deadline_timer: DeadlineTimer,
    deadline_active: bool,
}


/// `post` is `pre` after `advance_queue` at `now` handed out `out`: the
/// sorter moved on to its oldest packet and handed out the run from there,
/// then re-armed the timer for the packet waiting next, or pushed it a year
/// out when none waits. An empty sorter only has its timer pushed out.
pub open spec fn spec_advanced(pre: PacketSorter, post: PacketSorter, now: u64, out: Seq<Packet>) -> bool {
    &&& post.spec_deadline() == pre.spec_deadline()
    &&& post.spec_next_seq() >= pre.spec_next_seq()
    &&& pre.queue().dom().len() > 0 ==> {
        &&& released_run(pre.queue(), min_key(pre.queue()) as int, post.spec_next_seq() as int, out, post.queue())
        &&& out.len() > 0
        &&& post.queue().dom().len() == 0 ==> {
            &&& post.timer() == timer_after(now, YEAR_NANOS as int, pre.spec_deadline())
            &&& !post.active()
        }
        &&& post.queue().dom().len() > 0 ==> {
            &&& post.timer() == timer_for_waiting(now, post.queue()[min_key(post.queue())].timestamp, pre.spec_deadline())
            &&& post.active()
        }
    }
    &&& pre.queue().dom().len() == 0 ==> {
        &&& out.len() == 0
        &&& post.queue() == pre.queue()
        &&& post.spec_next_seq() == pre.spec_next_seq()
        &&& post.timer() == timer_after(now, YEAR_NANOS as int, pre.spec_deadline())
        &&& post.active() == pre.active()
    }
}

/// `post` is `pre` after `insert_packet(pkt, now)` handed out `out`.
/// A packet behind the next one in line changes nothing. Otherwise it is
/// queued (unless a copy waits already); on a jump of more than
/// `LARGE_JUMP` past the newest waiting packet the sorter moves on to its
/// oldest packet, else it hands out the run from the next one in line; the
/// timer is re-armed as those steps say, and armed if it was not.
pub open spec fn spec_inserted(pre: PacketSorter, post: PacketSorter, pkt: Packet, now: u64, out: Seq<Packet>) -> bool {
    &&& post.spec_deadline() == pre.spec_deadline()
    &&& post.spec_next_seq() >= pre.spec_next_seq()
    &&& pkt.seq < pre.spec_next_seq() ==> {
        &&& out.len() == 0
        &&& post.queue() == pre.queue()
        &&& post.spec_next_seq() == pre.spec_next_seq()
        &&& post.timer() == pre.timer()
        &&& post.active() == pre.active()
    }
    &&& pkt.seq >= pre.spec_next_seq() ==> {
        let q0 = pre.queue();
        let q1 = if q0.contains_key(pkt.seq) {
            q0
        } else {
            q0.insert(pkt.seq, QueuedPacket { packet: pkt, timestamp: now })
        };
        let jump = exists|tail: u64| is_max_key(q0, tail) && pkt.seq > tail + LARGE_JUMP;
        let d = pre.spec_deadline();
        &&& post.active()
        &&& jump ==> {
            &&& released_run(q1, min_key(q1) as int, post.spec_next_seq() as int, out, post.queue())
            &&& post.timer() == (if post.queue().dom().len() == 0 {
                timer_after(now, d as int, d)
            } else {
                timer_for_waiting(now, post.queue()[min_key(post.queue())].timestamp, d)
            })
        }
        &&& !jump ==> {
            &&& released_run(q1, pre.spec_next_seq() as int, post.spec_next_seq() as int, out, post.queue())
            &&& post.timer() == (if out.len() > 0 || !pre.active() {
                timer_after(now, d as int, d)
            } else {
                pre.timer()
            })
        }
    }
}

/// A run handed out of a well-formed queue starts at or after `next` and
/// comes in strictly increasing sequence order, ending before `to`.
proof fn lemma_run_in_order(m: Map<u64, QueuedPacket>, next: u64, from: int, to: int, out: Seq<Packet>, rest: Map<u64, QueuedPacket>)
    requires
        released_run(m, from, to, out, rest),
        forall|k: u64| #[trigger] m.contains_key(k) ==> m[k].packet.seq == k && next <= k,
    ensures
        forall|i: int| 0 <= i < out.len() ==> next <= #[trigger] out[i].seq < to,
        forall|i: int, j: int| 0 <= i < j < out.len() ==> #[trigger] out[i].seq < #[trigger] out[j].seq,
{
    lemma_released_in_sequence(m, from, to, out, rest);
    if out.len() > 0 {
        assert(m.contains_key(from as u64));
    }
}

/// Taking in a packet hands out packets in strictly increasing sequence
/// order, none behind the one that was next in line and all before the one
/// next in line afterwards; so what successive calls hand out never goes
/// back.
pub proof fn lemma_inserted_in_order(pre: PacketSorter, post: PacketSorter, pkt: Packet, now: u64, out: Seq<Packet>)
    requires
        pre.wf(),
        pkt.seq < u64::MAX,
        spec_inserted(pre, post, pkt, now, out),
    ensures
        forall|i: int| 0 <= i < out.len() ==> pre.spec_next_seq() <= #[trigger] out[i].seq < post.spec_next_seq(),
        forall|i: int, j: int| 0 <= i < j < out.len() ==> #[trigger] out[i].seq < #[trigger] out[j].seq,
{
    if pkt.seq >= pre.spec_next_seq() {
        let q0 = pre.queue();
        let q1 = if q0.contains_key(pkt.seq) {
            q0
        } else {
            q0.insert(pkt.seq, QueuedPacket { packet: pkt, timestamp: now })
        };
        assert forall|k: u64| #[trigger] q1.contains_key(k) implies q1[k].packet.seq == k && pre.spec_next_seq() <= k by {
            if k != pkt.seq {
                assert(q0.contains_key(k));
            }
        }
        let jump = exists|tail: u64| is_max_key(q0, tail) && pkt.seq > tail + LARGE_JUMP;
        if jump {
            lemma_run_in_order(q1, pre.spec_next_seq(), min_key(q1) as int, post.spec_next_seq() as int, out, post.queue());
        } else {
            lemma_run_in_order(q1, pre.spec_next_seq(), pre.spec_next_seq() as int, post.spec_next_seq() as int, out, post.queue());
        }
    }
}

/// Giving up on missing packets hands out packets in strictly increasing
/// sequence order, none behind the one that was next in line and all before
/// the one next in line afterwards.
pub proof fn lemma_advanced_in_order(pre: PacketSorter, post: PacketSorter, now: u64, out: Seq<Packet>)
    requires
        pre.wf(),
        spec_advanced(pre, post, now, out),
    ensures
        forall|i: int| 0 <= i < out.len() ==> pre.spec_next_seq() <= #[trigger] out[i].seq < post.spec_next_seq(),
        forall|i: int, j: int| 0 <= i < j < out.len() ==> #[trigger] out[i].seq < #[trigger] out[j].seq,
{
    if pre.queue().dom().len() > 0 {
        lemma_run_in_order(pre.queue(), pre.spec_next_seq(), min_key(pre.queue()) as int, post.spec_next_seq() as int, out, post.queue());
    }
}

impl PacketSorter {
    /// The packets waiting, by sequence number.
    pub closed spec fn queue(&self) -> Map<u64, QueuedPacket> {
        self.packet_queue@
    }

    /// The sequence number handed out next.
    pub closed spec fn spec_next_seq(&self) -> u64 {
        self.next_seq
    }

    /// How long a missing packet is waited for, in nanoseconds.
    pub closed spec fn spec_deadline(&self) -> u128 {
        self.deadline
    }

    /// The current setting of the deadline timer.
    pub closed spec fn timer(&self) -> DeadlineTimer {
        self.deadline_timer
    }

    /// Whether the deadline timer is armed.
    pub closed spec fn active(&self) -> bool {
        self.deadline_active
    }

    /// Every waiting packet is filed under its own sequence number, which is
    /// not behind the next one handed out and below `u64::MAX`.
    pub open spec fn wf(&self) -> bool {
        &&& forall|k: u64| #[trigger] self.queue().contains_key(k) ==> {
            &&& self.spec_next_seq() <= k < u64::MAX
            &&& self.queue()[k].packet.seq == k
        }
        &&& self.spec_deadline() <= MAX_DURATION_NANOS
    }

    /// An empty sorter that waits `deadline` nanoseconds for a missing
    /// packet; its timer first ticks `deadline` after `now`.
    pub fn new(deadline: u128, now: u64) -> (r: PacketSorter)
        requires
            deadline <= MAX_DURATION_NANOS,
        ensures
            r.wf(),
            r.queue() == Map::<u64, QueuedPacket>::empty(),
            r.spec_next_seq() == 0,
            r.spec_deadline() == deadline,
            r.timer() == timer_after(now, deadline as int, deadline),
            r.active(),
    {
        PacketSorter {
            packet_queue: BTreeMap::new(),
            next_seq: 0,
            deadline,
            deadline_timer: DeadlineTimer { first_tick: now as u128 + deadline, period: deadline },
            deadline_active: true,
        }
    }

    /// The sequence number handed out next.
    pub fn next_seq(&self) -> (r: u64)
        ensures
            r == self.spec_next_seq(),
    {
        self.next_seq
    }

    /// How long a missing packet is waited for, in nanoseconds.
    pub fn deadline(&self) -> (r: u128)
        ensures
            r == self.spec_deadline(),
    {
        self.deadline
    }

    /// The current setting of the deadline timer.
    pub fn deadline_timer(&self) -> (r: DeadlineTimer)
        ensures
            r == self.timer(),
    {
        self.deadline_timer
    }

    /// Whether the deadline timer is armed.
    pub fn deadline_active(&self) -> (r: bool)
        ensures
            r == self.active(),
    {
        self.deadline_active
    }

    /// Hands out the next packet in sequence if it has arrived, and then
    /// restarts the deadline timer.
    pub fn get_next_packet(&mut self, now: u64) -> (r: Option<Packet>)
        requires
            old(self).wf(),
        ensures
            final(self).wf(),
            final(self).spec_deadline() == old(self).spec_deadline(),
            old(self).queue().contains_key(old(self).spec_next_seq()) ==> {
                &&& r == Some(old(self).queue()[old(self).spec_next_seq()].packet)
                &&& final(self).queue() == old(self).queue().remove(old(self).spec_next_seq())
                &&& final(self).spec_next_seq() == old(self).spec_next_seq() + 1
                &&& final(self).timer() == timer_after(now, old(self).spec_deadline() as int, old(self).spec_deadline())
                &&& final(self).active()
            },
            !old(self).queue().contains_key(old(self).spec_next_seq()) ==> {
                &&& r is None
                &&& final(self).queue() == old(self).queue()
                &&& final(self).spec_next_seq() == old(self).spec_next_seq()
                &&& final(self).timer() == old(self).timer()
                &&& final(self).active() == old(self).active()
            },
    {
        match first_key(&self.packet_queue) {
            Some(k) => {
                if k == self.next_seq {
                    assert(self.queue().contains_key(k));
                    let ghost q_before = self.queue();
                    match pop_first(&mut self.packet_queue) {
                        Some((_, queued)) => {
                            self.next_seq = self.next_seq + 1;
                            self.deadline_timer = DeadlineTimer {
                                first_tick: now as u128 + self.deadline,
                                period: self.deadline,
                            };
                            self.deadline_active = true;
                            proof {
                                assert(self.queue() == q_before.remove(k));
                                assert forall|j: u64| #[trigger] self.queue().contains_key(j) implies {
                                    &&& self.spec_next_seq() <= j < u64::MAX
                                    &&& self.queue()[j].packet.seq == j
                                } by {
                                    assert(q_before.contains_key(j));
                                }
                            }
                            return Some(queued.packet);
                        },
                        None => {
                            return None;
                        },
                    }
                }
                assert(!self.queue().contains_key(self.next_seq)) by {
                    if self.queue().contains_key(self.next_seq) {
                        assert(k <= self.next_seq);
                        assert(self.next_seq <= k);
                    }
                }
                None
            },
            None => {
                assert(!self.queue().contains_key(self.next_seq));
                None
            },
        }
    }

    /// Hands out, in order, every packet that is next in line.
    fn enqueue_sorted_packets(&mut self, now: u64) -> (r: Vec<Packet>)
        requires
            old(self).wf(),
        ensures
            final(self).wf(),
            final(self).spec_deadline() == old(self).spec_deadline(),
            released_run(
                old(self).queue(),
                old(self).spec_next_seq() as int,
                final(self).spec_next_seq() as int,
                r@,
                final(self).queue(),
            ),
            r@.len() > 0 ==> final(self).timer() == timer_after(now, old(self).spec_deadline() as int, old(self).spec_deadline()) && final(self).active(),
            r@.len() == 0 ==> final(self).timer() == old(self).timer() && final(self).active() == old(self).active(),
    {
        let ghost q0 = self.queue();
        let ghost n0 = self.next_seq;
        let mut out: Vec<Packet> = Vec::new();
        assert(q0.remove_keys(key_range(n0 as int, n0 as int)) =~= q0);
        loop
            invariant
                self.wf(),
                self.spec_deadline() == old(self).spec_deadline(),
                n0 <= self.next_seq,
                out@.len() == self.next_seq - n0,
                forall|k: u64| n0 <= k < self.next_seq ==> #[trigger] q0.contains_key(k),
                forall|i: int| 0 <= i < out@.len() ==> #[trigger] out@[i] == q0[(n0 + i) as u64].packet,
                self.queue() == q0.remove_keys(key_range(n0 as int, self.next_seq as int)),
                out@.len() > 0 ==> self.timer() == timer_after(now, self.deadline as int, self.deadline) && self.active(),
                out@.len() == 0 ==> self.timer() == old(self).timer() && self.active() == old(self).active(),
                n0 == old(self).spec_next_seq(),
                q0 == old(self).queue(),
            ensures
                released_run(q0, n0 as int, self.next_seq as int, out@, self.queue()),
                self.wf(),
                self.spec_deadline() == old(self).spec_deadline(),
                out@.len() > 0 ==> self.timer() == timer_after(now, self.deadline as int, self.deadline) && self.active(),
                out@.len() == 0 ==> self.timer() == old(self).timer() && self.active() == old(self).active(),
            decreases self.queue().dom().len(),
        {
            let ghost before = self.queue();
            let ghost k = self.next_seq;
            match self.get_next_packet(now) {
                Some(p) => {
                    proof {
                        assert(before.contains_key(k));
                        assert(q0.contains_key(k)) by {
                            assert(before.dom().subset_of(q0.dom()));
                        }
                        assert(before[k] == q0[k]);
                        assert(self.queue() =~= q0.remove_keys(key_range(n0 as int, self.next_seq as int)));
                        assert(before.dom().finite());
                    }
                    out.push(p);
                    proof {
                        assert forall|i: int| 0 <= i < out@.len() implies #[trigger] out@[i] == q0[(n0 + i) as u64].packet by {
                            if i == out@.len() - 1 {
                                assert((n0 + i) as u64 == k);
                            }
                        }
                    }
                },
                None => {
                    proof {
                        assert(!q0.contains_key(k)) by {
                            if q0.contains_key(k) {
                                assert(!key_range(n0 as int, k as int).contains(k));
                                assert(before.contains_key(k));
                            }
                        }
                    }
                    break;
                },
            }
        }
        out
    }

    /// Gives up on the missing packets: moves on to the oldest packet held,
    /// hands out everything that is then in line, and re-arms the deadline
    /// timer for the packet that waits next (or pushes it a year out when
    /// none waits).
    pub fn advance_queue(&mut self, now: u64) -> (r: Vec<Packet>)
        requires
            old(self).wf(),
        ensures
            final(self).wf(),
            spec_advanced(*old(self), *final(self), now, r@),
    {
        match first_key(&self.packet_queue) {
            Some(first) => {
                proof {
                    assert(is_min_key(self.queue(), first));
                    let c = min_key(self.queue());
                    assert(is_min_key(self.queue(), c));
                    assert(c == first) by {
                        assert(c <= first);
                        assert(first <= c);
                    }
                }
                self.next_seq = first;
                let out = self.enqueue_sorted_packets(now);
                assert(out@.len() > 0) by {
                    assert(old(self).queue().contains_key(first));
                }
                match first_key(&self.packet_queue) {
                    None => {
                        self.deadline_timer = DeadlineTimer {
                            first_tick: now as u128 + YEAR_NANOS,
                            period: self.deadline,
                        };
                        self.deadline_active = false;
                    },
                    Some(k) => {
                        proof {
                            assert(is_min_key(self.queue(), k));
                            let c = min_key(self.queue());
                            assert(is_min_key(self.queue(), c));
                            assert(c == k) by {
                                assert(c <= k);
                                assert(k <= c);
                            }
                        }
                        let arrived = match self.packet_queue.get(&k) {
                            Some(q) => q.timestamp,
                            None => now,
                        };
                        let waited: u64 = now.saturating_sub(arrived);
                        if waited as u128 >= self.deadline {
                            self.deadline_timer = DeadlineTimer {
                                first_tick: now as u128,
                                period: self.deadline,
                            };
                        } else {
                            self.deadline_timer = DeadlineTimer {
                                first_tick: now as u128 + self.deadline - waited as u128,
                                period: self.deadline,
                            };
                        }
                        self.deadline_active = true;
                    },
                }
                out
            },
            None => {
                self.deadline_timer = DeadlineTimer {
                    first_tick: now as u128 + YEAR_NANOS,
                    period: self.deadline,
                };
                Vec::new()
            },
        }
    }

    fn insert_if_absent(&mut self, queued: QueuedPacket)
        requires
            old(self).wf(),
            old(self).spec_next_seq() <= queued.packet.seq < u64::MAX,
        ensures
            final(self).wf(),
            final(self).queue() == (if old(self).queue().contains_key(queued.packet.seq) {
                old(self).queue()
            } else {
                old(self).queue().insert(queued.packet.seq, queued)
            }),
            final(self).spec_next_seq() == old(self).spec_next_seq(),
            final(self).spec_deadline() == old(self).spec_deadline(),
            final(self).timer() == old(self).timer(),
            final(self).active() == old(self).active(),
    {
        let seq = queued.packet.seq;
        let ghost q0 = self.queue();
        if !self.packet_queue.contains_key(&seq) {
            self.packet_queue.insert(seq, queued);
        }
        proof {
            assert forall|j: u64| #[trigger] self.queue().contains_key(j) implies {
                &&& self.spec_next_seq() <= j < u64::MAX
                &&& self.queue()[j].packet.seq == j
            } by {
                if j != seq {
                    assert(q0.contains_key(j));
                }
            }
        }
    }

    /// Takes in a packet of this peer. A packet behind the next one in line
    /// (already handed out or given up on) is dropped, and so is a second
    /// copy of a waiting one. A packet more than `LARGE_JUMP` ahead of the
    /// newest waiting one makes the sorter give up on the missing packets at
    /// once (as `advance_queue` does). Returns the packets handed out, in
    /// order; the deadline timer is armed whenever a packet is taken in.
    pub fn insert_packet(&mut self, pkt: Packet, now: u64) -> (r: Vec<Packet>)
        requires
            old(self).wf(),
            pkt.seq < u64::MAX,
        ensures
            final(self).wf(),
            spec_inserted(*old(self), *final(self), pkt, now, r@),
    {
        let sequence_number = pkt.seq;
        if sequence_number >= self.next_seq {
            let ghost q0 = self.queue();
            let queued = QueuedPacket { packet: pkt, timestamp: now };
            let mut out: Vec<Packet>;
            let tail = last_key(&self.packet_queue);
            let is_jump = match tail {
                Some(t) => sequence_number >= t && sequence_number - t > LARGE_JUMP,
                None => false,
            };
            proof {
                let jump = exists|tl: u64| is_max_key(q0, tl) && sequence_number > tl + LARGE_JUMP;
                if is_jump {
                    let t = tail.unwrap();
                    assert(is_max_key(q0, t));
                } else {
                    if jump {
                        let tl = choose|tl: u64| is_max_key(q0, tl) && sequence_number > tl + LARGE_JUMP;
                        match tail {
                            Some(t) => {
                                assert(t <= tl && tl <= t);
                            },
                            None => {
                                assert(q0.contains_key(tl));
                                assert(!q0.dom().contains(tl));
                            },
                        }
                    }
                }
                assert(is_jump == jump);
            }
            self.insert_if_absent(queued);
            let ghost q1 = self.queue();
            if is_jump {
                out = self.advance_queue(now);
                proof {
                    assert(q1.dom().len() > 0) by {
                        assert(q1.contains_key(sequence_number));
                        assert(q1.dom().finite());
                        assert(q1.dom().contains(sequence_number));
                    }
                }
            } else {
                out = self.enqueue_sorted_packets(now);
            }
            let ghost mid_next = self.next_seq;
            let ghost mid_queue = self.queue();
            let ghost mid_timer = self.timer();
            let mut more = self.enqueue_sorted_packets(now);
            proof {
                if is_jump {
                    assert(!mid_queue.contains_key(mid_next)) by {
                        assert(!q1.contains_key(mid_next));
                        assert(mid_queue.dom().subset_of(q1.dom()));
                    }
                } else {
                    assert(!mid_queue.contains_key(mid_next));
                }
                assert(more@.len() == 0);
                assert(self.queue() =~= mid_queue);
            }
            out.append(&mut more);
            if !self.deadline_active {
                self.deadline_timer = DeadlineTimer {
                    first_tick: now as u128 + self.deadline,
                    period: self.deadline,
                };
                self.deadline_active = true;
            }
            proof {
                if is_jump {
                    if self.queue().dom().len() == 0 {
                    } else {
                        assert(mid_timer == self.timer());
                    }
                }
            }
            out
        } else {
            Vec::new()
        }
    }

    /// The number of packets waiting.
    pub fn get_queue_length(&self) -> (r: usize)
        ensures
            r == self.queue().dom().len(),
    {
        self.packet_queue.len()
    }

    /// Whether the next packet in line has arrived.
    pub fn have_next_packet(&self) -> (r: bool)
        requires
            self.wf(),
        ensures
            r == self.queue().contains_key(self.spec_next_seq()),
    {
        match first_key(&self.packet_queue) {
            Some(k) => {
                proof {
                    if self.queue().contains_key(self.next_seq) {
                        assert(k <= self.next_seq);
                    }
                }
                k == self.next_seq
            },
            None => {
                assert(!self.queue().dom().contains(self.next_seq));
                false
            },
        }
    }

    /// Sets how long a missing packet is waited for, in nanoseconds.
    pub fn set_deadline(&mut self, new_deadline: u128)
        requires
            old(self).wf(),
            new_deadline <= MAX_DURATION_NANOS,
        ensures
            final(self).wf(),
            final(self).spec_deadline() == new_deadline,
            final(self).queue() == old(self).queue(),
            final(self).spec_next_seq() == old(self).spec_next_seq(),
            final(self).timer() == old(self).timer(),
            final(self).active() == old(self).active(),
    {
        let ghost q0 = self.queue();
        self.deadline = new_deadline;
        assert(self.queue() == q0);
        assert forall|j: u64| #[trigger] self.queue().contains_key(j) implies {
            &&& self.spec_next_seq() <= j < u64::MAX
            &&& self.queue()[j].packet.seq == j
        } by {
            assert(q0.contains_key(j));
        }
    }
}

} // verus!
