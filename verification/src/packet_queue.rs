use vstd::prelude::*;
use std::collections::{BTreeMap, VecDeque};
use crate::messages::Packet;
use crate::btree_ext::{first_key, last_key, pop_first};
use vstd::std_specs::iter::IteratorSpec;

verus! {

/// When (monotonic nanoseconds) the packet with sequence number `seq` was
/// queued.
#[derive(Debug, Clone, Copy, PartialEq, Eq, Structural)]
pub struct OrderInfo {
    pub seq: u64,
    pub timestamp: u64,
}

/// The insertion records of `s` that are not about `seq`, in their order.
pub open spec fn without_seq(s: Seq<OrderInfo>, seq: u64) -> Seq<OrderInfo>
    decreases s.len(),
{
    if s.len() == 0 {
        Seq::empty()
    } else {
        let prev = without_seq(s.drop_last(), seq);
        if s.last().seq != seq {
            prev.push(s.last())
        } else {
            prev
        }
    }
}

/// The keys a `BTreeMap` iterator yields come in increasing order.
proof fn lemma_increasing_keys(ks: Seq<&u64>)
    requires
        vstd::std_specs::btree::increasing_seq(ks),
    ensures
        forall|i: int, j: int| 0 <= i < j < ks.len() ==> *ks[i] < *ks[j],
{
    assert forall|i: int, j: int| 0 <= i < j < ks.len() implies *ks[i] < *ks[j] by {
        assert(vstd::std_specs::cmp::OrdSpec::cmp_spec(&ks[i], &ks[j]) is Less);
    }
}

/// A queue of packets that is read both by sequence number and by the
/// order in which packets were queued.
#[derive(Debug)]
pub struct PacketQueue {
    seq_ordered: BTreeMap<u64, Packet>,
    insert_order: VecDeque<OrderInfo>,
}

impl PacketQueue {
    /// The packets held, by sequence number.
    pub closed spec fn packets(&self) -> Map<u64, Packet> {
        self.seq_ordered@
    }

    /// The insertion records, oldest first.
    pub closed spec fn order(&self) -> Seq<OrderInfo> {
        self.insert_order@
    }

    /// An empty queue.
    pub fn new() -> (r: PacketQueue)
        ensures
            r.packets() == Map::<u64, Packet>::empty(),
            r.order() == Seq::<OrderInfo>::empty(),
    {
        PacketQueue { seq_ordered: BTreeMap::new(), insert_order: VecDeque::new() }
    }

    /// Queues `packet` (replacing a packet with the same sequence number)
    /// and records that it was queued at `now`.
    pub fn insert(&mut self, packet: Packet, now: u64)
        ensures
            final(self).packets() == old(self).packets().insert(packet.seq, packet),
            final(self).order() == old(self).order().push(OrderInfo { seq: packet.seq, timestamp: now }),
    {
        let seq = packet.seq;
        self.seq_ordered.insert(seq, packet);
        self.insert_order.push_back(OrderInfo { seq, timestamp: now });
    }

    /// When the packet that has waited longest was queued.
    pub fn get_oldest_timestamp(&self) -> (r: Option<u64>)
        ensures
            match r {
                None => self.order().len() == 0,
                Some(t) => self.order().len() > 0 && t == self.order()[0].timestamp,
            },
    {
        if self.insert_order.len() == 0 {
            None
        } else {
            Some(self.insert_order[0].timestamp)
        }
    }

    /// The packet with the smallest sequence number, with that number.
    pub fn first_entry(&self) -> (r: Option<(u64, &Packet)>)
        ensures
            match r {
                None => self.packets().dom() =~= Set::<u64>::empty(),
                Some((k, p)) => {
                    &&& self.packets().contains_key(k)
                    &&& forall|j: u64| #[trigger] self.packets().contains_key(j) ==> k <= j
                    &&& *p == self.packets()[k]
                },
            },
    {
        match first_key(&self.seq_ordered) {
            None => None,
            Some(k) => match self.seq_ordered.get(&k) {
                Some(p) => Some((k, p)),
                None => None,
            },
        }
    }

    /// The packet with the largest sequence number, with that number.
    pub fn last_entry(&self) -> (r: Option<(u64, &Packet)>)
        ensures
            match r {
                None => self.packets().dom() =~= Set::<u64>::empty(),
                Some((k, p)) => {
                    &&& self.packets().contains_key(k)
                    &&& forall|j: u64| #[trigger] self.packets().contains_key(j) ==> j <= k
                    &&& *p == self.packets()[k]
                },
            },
    {
        match last_key(&self.seq_ordered) {
            None => None,
            Some(k) => match self.seq_ordered.get(&k) {
                Some(p) => Some((k, p)),
                None => None,
            },
        }
    }

    /// Drops every insertion record about `seq`.
    fn forget_order_of(&mut self, seq: u64)
        ensures
            final(self).order() == without_seq(old(self).order(), seq),
            final(self).packets() == old(self).packets(),
    {
        let mut kept: VecDeque<OrderInfo> = VecDeque::new();
        let mut i: usize = 0;
        while i < self.insert_order.len()
            invariant
                i <= self.insert_order@.len(),
                self.insert_order@ == old(self).order(),
                self.seq_ordered@ == old(self).packets(),
                kept@ == without_seq(self.insert_order@.take(i as int), seq),
            decreases self.insert_order@.len() - i,
        {
            let info = self.insert_order[i];
            assert(self.insert_order@.take(i as int + 1).drop_last() =~= self.insert_order@.take(i as int));
            if info.seq != seq {
                kept.push_back(info);
            }
            i = i + 1;
        }
        assert(self.insert_order@.take(self.insert_order@.len() as int) =~= self.insert_order@);
        self.insert_order = kept;
    }

    /// Removes the packet with sequence number `seq`, and every insertion
    /// record about it; nothing changes when no such packet is held.
    pub fn delete(&mut self, seq: u64) -> (r: Option<Packet>)
        ensures
            old(self).packets().contains_key(seq) ==> {
                &&& r == Some(old(self).packets()[seq])
                &&& final(self).packets() == old(self).packets().remove(seq)
                &&& final(self).order() == without_seq(old(self).order(), seq)
            },
            !old(self).packets().contains_key(seq) ==> {
                &&& r is None
                &&& final(self).packets() == old(self).packets()
                &&& final(self).order() == old(self).order()
            },
    {
        match self.seq_ordered.remove(&seq) {
            Some(packet) => {
                self.forget_order_of(seq);
                Some(packet)
            },
            None => None,
        }
    }

    /// Removes the packet with the smallest sequence number, and every
    /// insertion record about it.
    pub fn pop_first(&mut self) -> (r: Option<Packet>)
        ensures
            old(self).packets().dom().len() == 0 ==> {
                &&& r is None
                &&& final(self).packets() == old(self).packets()
                &&& final(self).order() == old(self).order()
            },
            old(self).packets().dom().len() > 0 ==> exists|k: u64| {
                &&& old(self).packets().contains_key(k)
                &&& (forall|j: u64| #[trigger] old(self).packets().contains_key(j) ==> k <= j)
                &&& r == Some(old(self).packets()[k])
                &&& final(self).packets() == old(self).packets().remove(k)
                &&& final(self).order() == without_seq(old(self).order(), k)
            },
    {
        match pop_first(&mut self.seq_ordered) {
            Some((k, packet)) => {
                self.forget_order_of(k);
                Some(packet)
            },
            None => {
                assert(self.packets().dom().len() == 0);
                None
            },
        }
    }

    /// The sequence numbers of the packets held, in increasing order.
    pub fn seq_order(&self) -> (r: Vec<u64>)
        ensures
            r@.to_set() == self.packets().dom(),
            forall|i: int, j: int| 0 <= i < j < r@.len() ==> r@[i] < r@[j],
    {
        let mut r: Vec<u64> = Vec::new();
        let ghost ks = vstd::std_specs::btree::spec_keys_iter(&self.seq_ordered).remaining();
        for k in it: self.seq_ordered.keys()
            invariant
                it.seq() == ks,
                r@ == ks.take(it.index() as int).map_values(|x: &u64| *x),
        {
            r.push(*k);
            assert(ks.take(it.index() as int + 1).map_values(|x: &u64| *x) =~= r@);
        }
        assert(ks.take(ks.len() as int) =~= ks);
        assert(r@ =~= ks.map_values(|x: &u64| *x));
        proof {
            vstd::std_specs::btree::axiom_spec_keys_iter(&self.seq_ordered);
            assert(r@ =~= ks.unref());
            lemma_increasing_keys(ks);
        }
        r
    }

    /// The sequence numbers of the insertion records, oldest first.
    pub fn insert_order(&self) -> (r: Vec<u64>)
        ensures
            r@ == self.order().map_values(|o: OrderInfo| o.seq),
    {
        let mut r: Vec<u64> = Vec::new();
        let mut i: usize = 0;
        while i < self.insert_order.len()
            invariant
                i <= self.insert_order@.len(),
                r@ == self.insert_order@.take(i as int).map_values(|o: OrderInfo| o.seq),
            decreases self.insert_order@.len() - i,
        {
            r.push(self.insert_order[i].seq);
            assert(self.insert_order@.take(i as int + 1).map_values(|o: OrderInfo| o.seq) =~= r@);
            i = i + 1;
        }
        assert(self.insert_order@.take(self.insert_order@.len() as int) =~= self.insert_order@);
        r
    }
}

} // verus!
