use vstd::prelude::*;

verus! {

/// The most sequence numbers whose acknowledgement times are remembered.
pub const MAX_TIMESTAMPS: usize = 100;

/// The times (nanoseconds since the Unix epoch) at which the copies of one
/// acknowledged sequence number arrived, keyed by that sequence number.
pub type AckEntries = Seq<(u64, Seq<u64>)>;

/// Entries are ordered by strictly increasing sequence number.
pub open spec fn keys_increasing(s: AckEntries) -> bool {
    forall|i: int, j: int| 0 <= i < j < s.len() ==> s[i].0 < s[j].0
}

/// The table is ordered, holds at most `MAX_TIMESTAMPS` sequence numbers, and
/// every sequence number has at least one arrival time.
pub open spec fn ack_entries_wf(s: AckEntries) -> bool {
    &&& keys_increasing(s)
    &&& s.len() <= MAX_TIMESTAMPS
    &&& forall|i: int| 0 <= i < s.len() ==> #[trigger] s[i].1.len() > 0
}

/// `p` is the place where `seq` belongs in the ordered table `s` (which
/// does not hold it).
pub open spec fn is_insert_position(s: AckEntries, seq: u64, p: int) -> bool {
    &&& 0 <= p <= s.len()
    &&& forall|j: int| 0 <= j < p ==> #[trigger] s[j].0 < seq
    &&& forall|j: int| p <= j < s.len() ==> #[trigger] s[j].0 > seq
}

/// `i` is the position of `seq` in `s`.
pub open spec fn is_position_of(s: AckEntries, seq: u64, i: int) -> bool {
    0 <= i < s.len() && s[i].0 == seq
}

/// The table after forgetting its smallest sequence number when it is full.
pub open spec fn evict_if_full(s: AckEntries) -> AckEntries {
    if s.len() < MAX_TIMESTAMPS {
        s
    } else {
        s.drop_first()
    }
}

/// The table `s` after appending `now` to the times of `seq`, which is added
/// at its ordered place if it was not there.
pub open spec fn record_arrival(s: AckEntries, seq: u64, now: u64) -> AckEntries {
    if exists|i: int| is_position_of(s, seq, i) {
        let i = choose|i: int| is_position_of(s, seq, i);
        s.update(i, (seq, s[i].1.push(now)))
    } else {
        let p = choose|p: int| is_insert_position(s, seq, p);
        s.insert(p, (seq, seq![now]))
    }
}

/// The table after recording that a copy of `seq` arrived at `now`: when the
/// table is full, the smallest sequence number is forgotten first.
pub open spec fn spec_insert_timestamp(s: AckEntries, seq: u64, now: u64) -> AckEntries {
    record_arrival(evict_if_full(s), seq, now)
}

/// The time between the first and the last copy of one sequence number,
/// counted where at least two copies arrived.
pub open spec fn spread(ts: Seq<u64>) -> int {
    if ts.len() >= 2 {
        ts.last() - ts.first()
    } else {
        0
    }
}

/// The sum of the spreads of all entries.
pub open spec fn spread_sum(s: AckEntries) -> int
    decreases s.len(),
{
    if s.len() == 0 {
        0
    } else {
        spread_sum(s.drop_last()) + spread(s.last().1)
    }
}

/// The number of entries with at least two arrival times.
pub open spec fn spread_count(s: AckEntries) -> int
    decreases s.len(),
{
    if s.len() == 0 {
        0
    } else {
        spread_count(s.drop_last()) + if s.last().1.len() >= 2 {
            1int
        } else {
            0int
        }
    }
}

/// The estimated difference in delay between the paths, in nanoseconds: the
/// sum of the spreads weighted by `2 / (count + 2)`, rounded down, or zero
/// when no sequence number arrived twice.
pub open spec fn spec_estimate(s: AckEntries) -> int {
    let count = spread_count(s);
    if count == 0 {
        0
    } else {
        (2 * spread_sum(s)) / (count + 2)
    }
}

/// No list of arrival times ends before it starts.
pub open spec fn times_in_order(s: AckEntries) -> bool {
    forall|i: int| 0 <= i < s.len() && #[trigger] s[i].1.len() >= 2 ==> s[i].1.first() <= s[i].1.last()
}


/// The sequence numbers a table remembers.
pub open spec fn remembered(s: AckEntries, seq: u64) -> bool {
    exists|i: int| is_position_of(s, seq, i)
}

/// An ordered table that does not hold `seq` has a place for it.
proof fn lemma_insert_position_exists(s: AckEntries, seq: u64)
    requires
        keys_increasing(s),
        !exists|i: int| is_position_of(s, seq, i),
    ensures
        exists|p: int| is_insert_position(s, seq, p),
    decreases s.len(),
{
    if s.len() == 0 {
        assert(is_insert_position(s, seq, 0));
    } else {
        let d = s.drop_last();
        assert forall|i: int| !is_position_of(d, seq, i) by {
            if is_position_of(d, seq, i) {
                assert(is_position_of(s, seq, i));
            }
        }
        lemma_insert_position_exists(d, seq);
        let q = choose|p: int| is_insert_position(d, seq, p);
        assert(!is_position_of(s, seq, s.len() - 1));
        if s.last().0 < seq {
            assert(is_insert_position(s, seq, s.len() as int)) by {
                assert forall|j: int| 0 <= j < s.len() implies #[trigger] s[j].0 < seq by {
                    if j < s.len() - 1 {
                        assert(s[j].0 < s[s.len() - 1].0);
                    }
                }
            }
        } else {
            assert(is_insert_position(s, seq, q)) by {
                assert forall|j: int| 0 <= j < q implies #[trigger] s[j].0 < seq by {
                    assert(d[j] == s[j]);
                }
                assert forall|j: int| q <= j < s.len() implies #[trigger] s[j].0 > seq by {
                    if j < s.len() - 1 {
                        assert(d[j] == s[j]);
                    }
                }
            }
        }
    }
}

/// Recording an arrival of `seq` at `now`: afterwards `seq` is remembered with
/// `now` as its latest arrival time, every other sequence number is
/// remembered exactly when it was before (the smallest one is forgotten
/// first when the table was full), and the table never holds more than
/// `MAX_TIMESTAMPS` sequence numbers.
pub proof fn lemma_insert_timestamp_records(s: AckEntries, seq: u64, now: u64)
    requires
        ack_entries_wf(s),
    ensures
        ({
            let t = spec_insert_timestamp(s, seq, now);
            &&& t.len() <= MAX_TIMESTAMPS
            &&& exists|i: int| is_position_of(t, seq, i) && t[i].1.last() == now
            &&& forall|k: u64| k != seq ==> (remembered(t, k) <==> remembered(evict_if_full(s), k))
        }),
{
    let s1 = evict_if_full(s);
    let t = spec_insert_timestamp(s, seq, now);
    if exists|i: int| is_position_of(s1, seq, i) {
        let i = choose|i: int| is_position_of(s1, seq, i);
        assert(is_position_of(t, seq, i) && t[i].1.last() == now);
        assert forall|k: u64| k != seq implies (remembered(t, k) <==> remembered(s1, k)) by {
            if remembered(t, k) {
                let j = choose|j: int| is_position_of(t, k, j);
                assert(is_position_of(s1, k, j));
            }
            if remembered(s1, k) {
                let j = choose|j: int| is_position_of(s1, k, j);
                assert(is_position_of(t, k, j));
            }
        }
    } else {
        let p = choose|p: int| is_insert_position(s1, seq, p);
        assert(keys_increasing(s1)) by {
            if s.len() >= MAX_TIMESTAMPS {
                assert forall|a: int, b: int| 0 <= a < b < s1.len() implies s1[a].0 < s1[b].0 by {
                    assert(s1[a] == s[a + 1]);
                    assert(s1[b] == s[b + 1]);
                }
            }
        }
        lemma_insert_position_exists(s1, seq);
        assert(is_insert_position(s1, seq, p));
        assert(is_position_of(t, seq, p) && t[p].1.last() == now);
        assert forall|k: u64| k != seq implies (remembered(t, k) <==> remembered(s1, k)) by {
            if remembered(t, k) {
                let j = choose|j: int| is_position_of(t, k, j);
                if j < p {
                    assert(is_position_of(s1, k, j));
                } else {
                    assert(is_position_of(s1, k, j - 1));
                }
            }
            if remembered(s1, k) {
                let j = choose|j: int| is_position_of(s1, k, j);
                if j < p {
                    assert(is_position_of(t, k, j));
                } else {
                    assert(is_position_of(t, k, j + 1));
                }
            }
        }
    }
}

/// The estimate weights the summed spreads by `2 / (count + 2)`, where
/// `count` is the number of sequence numbers that arrived at least twice,
/// and rounds down: it is the largest `e` with `e * (count + 2)` at most
/// twice the sum of the spreads; with no such sequence number it is zero.
pub proof fn lemma_estimate_weighting(s: AckEntries)
    ensures
        spread_count(s) == 0 ==> spec_estimate(s) == 0,
        spread_count(s) > 0 ==> {
            &&& spec_estimate(s) * (spread_count(s) + 2) <= 2 * spread_sum(s)
            &&& 2 * spread_sum(s) < (spec_estimate(s) + 1) * (spread_count(s) + 2)
        },
{
    lemma_spread_count_nonneg(s);
    let c = spread_count(s);
    if c > 0 {
        let e = spec_estimate(s);
        let t = 2 * spread_sum(s);
        assert(e == t / (c + 2));
        assert(e * (c + 2) <= t && t < (e + 1) * (c + 2)) by (nonlinear_arith)
            requires
                e == t / (c + 2),
                c + 2 > 0,
        {
            assert(t == (c + 2) * (t / (c + 2)) + t % (c + 2));
            assert(0 <= t % (c + 2) < c + 2);
        }
    }
}

proof fn lemma_spread_count_nonneg(s: AckEntries)
    ensures
        spread_count(s) >= 0,
    decreases s.len(),
{
    if s.len() > 0 {
        lemma_spread_count_nonneg(s.drop_last());
    }
}

/// A table in which only the sequence number `k` arrived more than once,
/// first at `first` and last at `last` (any number of other sequence
/// numbers having arrived once each), estimates two thirds of `last - first`,
/// rounded down.
pub proof fn lemma_estimate_of_one_spread(s: AckEntries, k: int, first: u64, last: u64)
    requires
        0 <= k < s.len(),
        s[k].1.len() >= 2,
        s[k].1.first() == first,
        s[k].1.last() == last,
        first <= last,
        forall|j: int| 0 <= j < s.len() && j != k ==> #[trigger] s[j].1.len() < 2,
    ensures
        spec_estimate(s) == (2 * (last - first)) / 3,
{
    lemma_one_spread_sums(s, k);
}

proof fn lemma_one_spread_sums(s: AckEntries, k: int)
    requires
        0 <= k < s.len(),
        s[k].1.len() >= 2,
        forall|j: int| 0 <= j < s.len() && j != k ==> #[trigger] s[j].1.len() < 2,
    ensures
        spread_count(s) == 1,
        spread_sum(s) == s[k].1.last() - s[k].1.first(),
    decreases s.len(),
{
    let p = s.drop_last();
    if k == s.len() - 1 {
        lemma_no_spread(p);
    } else {
        assert forall|j: int| 0 <= j < p.len() && j != k implies #[trigger] p[j].1.len() < 2 by {
            assert(p[j] == s[j]);
        }
        assert(p[k] == s[k]);
        lemma_one_spread_sums(p, k);
        assert(s.last().1.len() < 2) by {
            assert(s[s.len() - 1] == s.last());
        }
    }
}

proof fn lemma_no_spread(s: AckEntries)
    requires
        forall|j: int| 0 <= j < s.len() ==> #[trigger] s[j].1.len() < 2,
    ensures
        spread_count(s) == 0,
        spread_sum(s) == 0,
    decreases s.len(),
{
    if s.len() > 0 {
        let p = s.drop_last();
        assert forall|j: int| 0 <= j < p.len() implies #[trigger] p[j].1.len() < 2 by {
            assert(p[j] == s[j]);
        }
        lemma_no_spread(p);
        assert(s[s.len() - 1] == s.last());
    }
}

/// The arrival times of the copies of acknowledged sequence numbers, from
/// which the difference in delay between the paths is estimated.
#[derive(Debug)]
pub struct PathLatency {
    ack_timestamps: Vec<(u64, Vec<u64>)>,
}

impl View for PathLatency {
    type V = AckEntries;

    closed spec fn view(&self) -> AckEntries {
        self.ack_timestamps@.map_values(|e: (u64, Vec<u64>)| (e.0, e.1@))
    }
}

/// The clock reading in nanoseconds, saturated to what a `u64` holds, and 0
/// for a clock that stands before the Unix epoch.
pub open spec fn spec_clock_nanos(reading: Option<u128>) -> u64 {
    match reading {
        None => 0,
        Some(n) => if n > u64::MAX { u64::MAX } else { n as u64 },
    }
}

/// Reads the system clock through `std::time::SystemTime::elapsed` on the
/// Unix epoch: the nanoseconds elapsed since the epoch, or `None` when the
/// clock stands before it. Nothing is promised of the value, which is the
/// time.
#[verifier::external_body]
fn nanos_since_unix_epoch() -> (r: Option<u128>) {
    match std::time::UNIX_EPOCH.elapsed() {
        Ok(elapsed) => Some(elapsed.as_nanos()),
        Err(_) => None,
    }
}

/// Converts a clock reading into the nanosecond timestamps the table keeps.
pub fn clock_nanos(reading: Option<u128>) -> (r: u64)
    ensures
        r == spec_clock_nanos(reading),
{
    match reading {
        None => 0,
        Some(n) => if n > 18446744073709551615u128 {
            18446744073709551615u64
        } else {
            n as u64
        },
    }
}

impl PathLatency {
    /// The table is well formed.
    pub open spec fn wf(&self) -> bool {
        ack_entries_wf(self@)
    }

    /// An empty table.
    pub fn new() -> (r: PathLatency)
        ensures
            r@ == Seq::<(u64, Seq<u64>)>::empty(),
            r.wf(),
    {
        PathLatency { ack_timestamps: Vec::new() }
    }

    /// The number of sequence numbers remembered.
    pub fn len(&self) -> (r: usize)
        ensures
            r == self@.len(),
    {
        self.ack_timestamps.len()
    }

    /// The largest sequence number remembered, if any.
    pub fn last_seq(&self) -> (r: Option<u64>)
        ensures
            match r {
                None => self@.len() == 0,
                Some(k) => self@.len() > 0 && k == self@.last().0,
            },
    {
        let n = self.ack_timestamps.len();
        if n == 0 {
            None
        } else {
            Some(self.ack_timestamps[n - 1].0)
        }
    }

    /// Records that a copy of `seq` arrived now, by the system clock.
    pub fn insert_new_timestamp(&mut self, seq: u64)
        requires
            old(self).wf(),
        ensures
            final(self).wf(),
            exists|now: u64| final(self)@ == spec_insert_timestamp(old(self)@, seq, now),
    {
        let now = clock_nanos(nanos_since_unix_epoch());
        self.insert_timestamp_at(seq, now);
    }

    /// Records that a copy of `seq` arrived at `now` (nanoseconds since the
    /// Unix epoch).
    pub fn insert_timestamp_at(&mut self, seq: u64, now: u64)
        requires
            old(self).wf(),
        ensures
            final(self).wf(),
            final(self)@ == spec_insert_timestamp(old(self)@, seq, now),
    {
        let ghost s0 = self@;
        if self.ack_timestamps.len() >= MAX_TIMESTAMPS {
            self.ack_timestamps.remove(0);
            assert(self@ =~= s0.drop_first());
        }
        let ghost s1 = self@;
        assert(s1 == evict_if_full(s0));
        assert(ack_entries_wf(s1)) by {
            if s0.len() >= MAX_TIMESTAMPS {
                assert forall|i: int| 0 <= i < s1.len() implies #[trigger] s1[i].1.len() > 0 by {
                    assert(s1[i] == s0[i + 1]);
                }
                assert forall|i: int, j: int| 0 <= i < j < s1.len() implies s1[i].0 < s1[j].0 by {
                    assert(s1[i] == s0[i + 1]);
                    assert(s1[j] == s0[j + 1]);
                }
            }
        }
        let n = self.ack_timestamps.len();
        let mut p: usize = 0;
        while p < n && self.ack_timestamps[p].0 < seq
            invariant
                n == self.ack_timestamps.len(),
                self@ == s1,
                s1 == evict_if_full(s0),
                ack_entries_wf(s1),
                ack_entries_wf(s0),
                p <= n,
                forall|j: int| 0 <= j < p ==> #[trigger] s1[j].0 < seq,
            decreases n - p,
        {
            assert(s1[p as int].0 == self.ack_timestamps@[p as int].0);
            p = p + 1;
        }
        if p < n && self.ack_timestamps[p].0 == seq {
            let (k, mut ts) = self.ack_timestamps.remove(p);
            ts.push(now);
            self.ack_timestamps.insert(p, (k, ts));
            proof {
                assert(is_position_of(s1, seq, p as int));
                let c = choose|i: int| is_position_of(s1, seq, i);
                assert(c == p as int) by {
                    if c < p {
                        assert(s1[c].0 < s1[p as int].0);
                    }
                    if c > p {
                        assert(s1[p as int].0 < s1[c].0);
                    }
                }
                assert(self@ =~= s1.update(p as int, (seq, s1[p as int].1.push(now))));
                assert(self@ == spec_insert_timestamp(s0, seq, now));
                let s2 = self@;
                assert forall|i: int| 0 <= i < s2.len() implies #[trigger] s2[i].1.len() > 0 by {
                    if i != p {
                        assert(s2[i] == s1[i]);
                    }
                }
                assert forall|i: int, j: int| 0 <= i < j < s2.len() implies s2[i].0 < s2[j].0 by {
                    assert(s2[i].0 == s1[i].0);
                    assert(s2[j].0 == s1[j].0);
                }
            }
        } else {
            let mut ts: Vec<u64> = Vec::new();
            ts.push(now);
            self.ack_timestamps.insert(p, (seq, ts));
            proof {
                assert forall|j: int| p <= j < s1.len() implies #[trigger] s1[j].0 > seq by {
                    if j > p {
                        assert(s1[p as int].0 < s1[j].0);
                    }
                }
                assert(is_insert_position(s1, seq, p as int));
                assert forall|i: int| !is_position_of(s1, seq, i) by {
                    if 0 <= i < s1.len() {
                        if i < p {
                            assert(s1[i].0 < seq);
                        } else {
                            assert(s1[i].0 > seq);
                        }
                    }
                }
                let c = choose|q: int| is_insert_position(s1, seq, q);
                assert(c == p as int) by {
                    if c < p {
                        assert(s1[c].0 > seq);
                        assert(s1[c].0 < seq);
                    }
                    if c > p {
                        assert(s1[p as int].0 < seq);
                        assert(s1[p as int].0 > seq);
                    }
                }
                assert(ts@ =~= seq![now]);
                assert(self@ =~= s1.insert(p as int, (seq, seq![now])));
                assert(self@ == spec_insert_timestamp(s0, seq, now));
                let s2 = self@;
                assert(s1.len() < MAX_TIMESTAMPS) by {
                    if s0.len() < MAX_TIMESTAMPS {
                    } else {
                        assert(s1.len() == s0.len() - 1);
                    }
                }
                assert forall|i: int| 0 <= i < s2.len() implies #[trigger] s2[i].1.len() > 0 by {
                    if i < p {
                        assert(s2[i] == s1[i]);
                    } else if i > p {
                        assert(s2[i] == s1[i - 1]);
                    }
                }
                assert forall|i: int, j: int| 0 <= i < j < s2.len() implies s2[i].0 < s2[j].0 by {
                    if i < p {
                        assert(s2[i] == s1[i]);
                    } else if i > p {
                        assert(s2[i] == s1[i - 1]);
                    }
                    if j < p {
                        assert(s2[j] == s1[j]);
                    } else if j > p {
                        assert(s2[j] == s1[j - 1]);
                    }
                }
            }
        }
    }

    /// Whether every list of arrival times ends no earlier than it starts
    /// (which a system clock that was set back can break).
    pub fn timestamps_in_order(&self) -> (r: bool)
        ensures
            r == times_in_order(self@),
    {
        let mut i: usize = 0;
        while i < self.ack_timestamps.len()
            invariant
                i <= self.ack_timestamps.len(),
                forall|j: int| 0 <= j < i && #[trigger] self@[j].1.len() >= 2 ==> self@[j].1.first() <= self@[j].1.last(),
            decreases self.ack_timestamps.len() - i,
        {
            let ts = &self.ack_timestamps[i].1;
            assert(self@[i as int].1 == ts@);
            if ts.len() >= 2 && ts[0] > ts[ts.len() - 1] {
                assert(!(self@[i as int].1.first() <= self@[i as int].1.last()));
                return false;
            }
            i = i + 1;
        }
        true
    }

    /// The estimated difference in delay between the paths, in nanoseconds:
    /// over the sequence numbers of which at least two copies arrived, the
    /// sum of the times between first and last copy, weighted by
    /// `2 / (count + 2)`; zero when no sequence number arrived twice.
    pub fn estimate_path_delay_difference(&self) -> (r: u128)
        requires
            self.wf(),
            times_in_order(self@),
        ensures
            r == spec_estimate(self@),
            r <= 100 * 18446744073709551615u128,
    {
        let mut sum: u128 = 0;
        let mut count: u128 = 0;
        let n = self.ack_timestamps.len();
        let mut i: usize = 0;
        while i < n
            invariant
                n == self.ack_timestamps.len(),
                n <= MAX_TIMESTAMPS,
                times_in_order(self@),
                i <= n,
                sum == spread_sum(self@.take(i as int)),
                count == spread_count(self@.take(i as int)),
                0 <= sum <= i * 18446744073709551615u128,
                0 <= count <= i,
            decreases n - i,
        {
            assert(self@.take(i as int + 1).drop_last() =~= self@.take(i as int));
            let ts = &self.ack_timestamps[i].1;
            assert(self@[i as int].1 == ts@);
            assert(self@.take(i as int + 1).last() == self@[i as int]);
            if ts.len() >= 2 {
                let first = ts[0];
                let last = ts[ts.len() - 1];
                assert(self@[i as int].1.len() >= 2);
                assert(self@[i as int].1.first() <= self@[i as int].1.last());
                let difference = last - first;
                sum = sum + difference as u128;
                count = count + 1;
            }
            i = i + 1;
        }
        assert(self@.take(n as int) =~= self@);
        if count == 0 {
            return 0;
        }
        let r = (2 * sum) / (count + 2);
        assert(r <= sum) by (nonlinear_arith)
            requires
                r == (2 * sum) / (count + 2),
                count >= 1,
        ;
        r
    }
}

} // verus!
