use vstd::prelude::*;

verus! {

/// The most datagrams one batch of sends carries.
pub const MAX_BATCH: usize = 32;

/// The bytes of `parts`, one after the other.
pub open spec fn concat(parts: Seq<Seq<u8>>) -> Seq<u8>
    decreases parts.len(),
{
    if parts.len() == 0 {
        Seq::empty()
    } else {
        concat(parts.drop_last()) + parts.last()
    }
}

/// Datagrams glued into one buffer for a segmented (GSO) send: every
/// `segment_size` bytes are one datagram; no size means one datagram.
#[derive(Debug)]
pub struct SegmentedTransmit {
    pub contents: Vec<u8>,
    pub segment_size: Option<usize>,
}

/// The segment size as a send gives it: none for zero.
pub open spec fn spec_segment_size(segment_size: usize) -> Option<usize> {
    if segment_size == 0 { None } else { Some(segment_size) }
}

/// Glues `packets_to_send` into one buffer, to be sent as datagrams of
/// `segment_size` bytes (a size of zero means no segmentation).
pub fn vec_to_transmit(packets_to_send: Vec<Vec<u8>>, segment_size: usize) -> (r: SegmentedTransmit)
    ensures
        r.contents@ == concat(packets_to_send@.map_values(|p: Vec<u8>| p@)),
        r.segment_size == spec_segment_size(segment_size),
{
    let segment_size = if segment_size == 0 { None } else { Some(segment_size) };
    let mut flattened: Vec<u8> = Vec::new();
    let ghost parts = packets_to_send@.map_values(|p: Vec<u8>| p@);
    let mut i: usize = 0;
    while i < packets_to_send.len()
        invariant
            i <= packets_to_send@.len(),
            parts == packets_to_send@.map_values(|p: Vec<u8>| p@),
            flattened@ == concat(parts.take(i as int)),
        decreases packets_to_send@.len() - i,
    {
        let packet = &packets_to_send[i];
        assert(parts.take(i as int + 1).drop_last() =~= parts.take(i as int));
        let mut j: usize = 0;
        let ghost base = flattened@;
        while j < packet.len()
            invariant
                j <= packet@.len(),
                flattened@ == base + packet@.take(j as int),
            decreases packet@.len() - j,
        {
            flattened.push(packet[j]);
            assert(flattened@ =~= base + packet@.take(j as int + 1));
            j = j + 1;
        }
        assert(packet@.take(packet@.len() as int) =~= packet@);
        i = i + 1;
    }
    assert(parts.take(parts.len() as int) =~= parts);
    SegmentedTransmit { contents: flattened, segment_size }
}

/// Gathers the datagrams queued for one socket into segmented sends. All
/// datagrams of a send have the size of the first; a shorter datagram
/// closes a send, a longer one goes out in a send of its own, and a send
/// carries at most `MAX_BATCH` datagrams.
#[derive(Debug)]
pub struct TransmitBatch {
    segment_size: usize,
    packets: Vec<Vec<u8>>,
    transmits: Vec<SegmentedTransmit>,
    closed: bool,
}

/// `t` glues `packets` for sends of `segment_size`.
pub open spec fn transmit_of(t: SegmentedTransmit, packets: Seq<Seq<u8>>, segment_size: usize) -> bool {
    &&& t.contents@ == concat(packets)
    &&& t.segment_size == spec_segment_size(segment_size)
}

impl TransmitBatch {
    /// The segment size (the length of the first datagram).
    pub closed spec fn spec_segment_size_of(&self) -> usize {
        self.segment_size
    }

    /// The datagrams gathered for the current send.
    pub closed spec fn gathered(&self) -> Seq<Seq<u8>> {
        self.packets@.map_values(|p: Vec<u8>| p@)
    }

    /// The sends completed so far.
    pub closed spec fn completed(&self) -> Seq<SegmentedTransmit> {
        self.transmits@
    }

    /// Whether no more datagrams are taken.
    pub closed spec fn is_closed(&self) -> bool {
        self.closed
    }

    /// A batch started with the datagram `first`, whose length is the
    /// segment size.
    pub fn new(first: Vec<u8>) -> (r: TransmitBatch)
        ensures
            r.spec_segment_size_of() == first@.len(),
            r.gathered() == seq![first@],
            r.completed().len() == 0,
            !r.is_closed(),
    {
        let segment_size = first.len();
        let mut packets: Vec<Vec<u8>> = Vec::new();
        packets.push(first);
        let r = TransmitBatch { segment_size, packets, transmits: Vec::new(), closed: false };
        assert(r.gathered() =~= seq![first@]);
        r
    }

    /// Offers the next queued datagram. A longer one than the segment size
    /// closes the batch: the gathered datagrams make one send and `more`
    /// another. A shorter one, or one that makes `MAX_BATCH` datagrams,
    /// joins the gathered ones, which then make a send, and closes the
    /// batch. Otherwise it joins the gathered datagrams. Returns whether the
    /// batch takes more.
    pub fn offer(&mut self, more: Vec<u8>) -> (r: bool)
        requires
            !old(self).is_closed(),
            old(self).gathered().len() < MAX_BATCH,
        ensures
            r == !final(self).is_closed(),
            final(self).spec_segment_size_of() == old(self).spec_segment_size_of(),
            final(self).gathered().len() <= MAX_BATCH,
            more@.len() > old(self).spec_segment_size_of() ==> {
                &&& final(self).is_closed()
                &&& final(self).completed().len() == old(self).completed().len() + 2
                &&& final(self).completed().take(old(self).completed().len() as int) == old(self).completed()
                &&& transmit_of(final(self).completed()[old(self).completed().len() as int], old(self).gathered(), old(self).spec_segment_size_of())
                &&& transmit_of(final(self).completed()[(old(self).completed().len() + 1) as int], seq![more@], old(self).spec_segment_size_of())
            },
            more@.len() <= old(self).spec_segment_size_of() && (more@.len() < old(self).spec_segment_size_of() || old(self).gathered().len() == MAX_BATCH - 1) ==> {
                &&& final(self).is_closed()
                &&& final(self).gathered() == old(self).gathered().push(more@)
                &&& final(self).completed().len() == old(self).completed().len() + 1
                &&& final(self).completed().take(old(self).completed().len() as int) == old(self).completed()
                &&& transmit_of(final(self).completed()[old(self).completed().len() as int], old(self).gathered().push(more@), old(self).spec_segment_size_of())
            },
            more@.len() == old(self).spec_segment_size_of() && old(self).gathered().len() < MAX_BATCH - 1 ==> {
                &&& !final(self).is_closed()
                &&& final(self).gathered() == old(self).gathered().push(more@)
                &&& final(self).completed() == old(self).completed()
            },
    {
        let ghost before = self.transmits@;
        let more_len = more.len();
        if more_len > self.segment_size {
            let gathered = self.take_gathered();
            let t1 = vec_to_transmit(gathered, self.segment_size);
            self.transmits.push(t1);
            let mut single: Vec<Vec<u8>> = Vec::new();
            let ghost more_view = more@;
            single.push(more);
            assert(single@.map_values(|p: Vec<u8>| p@) =~= seq![more_view]);
            let t2 = vec_to_transmit(single, self.segment_size);
            self.transmits.push(t2);
            self.closed = true;
            assert(self.transmits@.take(before.len() as int) =~= before);
            false
        } else if more_len < self.segment_size || self.packets.len() == MAX_BATCH - 1 {
            self.packets.push(more);
            assert(self.gathered() =~= old(self).gathered().push(more@));
            let gathered = self.copy_gathered();
            let t = vec_to_transmit(gathered, self.segment_size);
            self.transmits.push(t);
            self.closed = true;
            assert(self.transmits@.take(before.len() as int) =~= before);
            false
        } else {
            self.packets.push(more);
            assert(self.gathered() =~= old(self).gathered().push(more@));
            true
        }
    }

    fn take_gathered(&mut self) -> (r: Vec<Vec<u8>>)
        ensures
            r@.map_values(|p: Vec<u8>| p@) == old(self).gathered(),
            final(self).gathered() == old(self).gathered(),
            final(self).completed() == old(self).completed(),
            final(self).spec_segment_size_of() == old(self).spec_segment_size_of(),
            final(self).is_closed() == old(self).is_closed(),
    {
        self.copy_gathered()
    }

    fn copy_gathered(&self) -> (r: Vec<Vec<u8>>)
        ensures
            r@.map_values(|p: Vec<u8>| p@) == self.gathered(),
    {
        let mut out: Vec<Vec<u8>> = Vec::new();
        let mut i: usize = 0;
        while i < self.packets.len()
            invariant
                i <= self.packets@.len(),
                out@.len() == i,
                forall|k: int| 0 <= k < i ==> #[trigger] out@[k]@ == self.packets@[k]@,
            decreases self.packets@.len() - i,
        {
            let p = &self.packets[i];
            let mut copy: Vec<u8> = Vec::new();
            let mut j: usize = 0;
            while j < p.len()
                invariant
                    j <= p@.len(),
                    copy@ == p@.take(j as int),
                decreases p@.len() - j,
            {
                copy.push(p[j]);
                assert(copy@ =~= p@.take(j as int + 1));
                j = j + 1;
            }
            assert(copy@ =~= p@);
            out.push(copy);
            i = i + 1;
        }
        assert(out@.map_values(|p: Vec<u8>| p@) =~= self.gathered());
        out
    }

    /// The sends of the batch: those completed, and, if the batch is still
    /// open, one more of the gathered datagrams.
    pub fn finish(self) -> (r: Vec<SegmentedTransmit>)
        ensures
            self.is_closed() ==> r@ == self.completed(),
            !self.is_closed() ==> {
                &&& r@.len() == self.completed().len() + 1
                &&& r@.take(self.completed().len() as int) == self.completed()
                &&& transmit_of(r@[self.completed().len() as int], self.gathered(), self.spec_segment_size_of())
            },
    {
        let TransmitBatch { segment_size, packets, mut transmits, closed } = self;
        if !closed {
            let ghost before = transmits@;
            let t = vec_to_transmit(packets, segment_size);
            transmits.push(t);
            assert(transmits@.take(before.len() as int) =~= before);
        }
        transmits
    }
}

/// The number of `stride`-byte datagrams (the last possibly shorter) in
/// `len` bytes: `len / stride` rounded up.
pub open spec fn segment_count(len: int, stride: int) -> int {
    if len % stride == 0 { len / stride } else { len / stride + 1 }
}

/// The end of the datagram that starts at `from`: `stride` bytes on, or the
/// end of the received bytes, whichever comes first.
pub open spec fn segment_end(from: int, stride: int, len: int) -> int {
    if from + stride > len { len } else { from + stride }
}

/// The datagrams in the first `len` bytes of a receive buffer that holds
/// datagrams of `stride` bytes (the last possibly shorter); a single
/// datagram when the stride is the whole length.
pub open spec fn spec_split_datagrams(buffer: Seq<u8>, len: int, stride: int) -> Seq<Seq<u8>> {
    if stride == len {
        seq![buffer.take(len)]
    } else {
        Seq::new(segment_count(len, stride) as nat, |n: int| buffer.subrange(n * stride, segment_end(n * stride, stride, len)))
    }
}

/// Splits what one receive call put in `buffer` (`len` bytes holding
/// datagrams of `stride` bytes) into the datagrams.
pub fn split_datagrams(buffer: &[u8], len: usize, stride: usize) -> (r: Vec<Vec<u8>>)
    requires
        len <= buffer@.len(),
        stride > 0 || len == 0,
    ensures
        r@.map_values(|p: Vec<u8>| p@) == spec_split_datagrams(buffer@, len as int, stride as int),
{
    let mut out: Vec<Vec<u8>> = Vec::new();
    if stride == len {
        let packet = copy_range(buffer, 0, len);
        out.push(packet);
        assert(out@.map_values(|p: Vec<u8>| p@) =~= seq![buffer@.take(len as int)]);
        return out;
    }
    assert(len % stride != 0 ==> len / stride < usize::MAX) by (nonlinear_arith)
        requires
            stride > 0,
            len <= usize::MAX,
    {
        if len % stride != 0 {
            assert(stride >= 2);
            assert(len / stride <= len / 2);
        }
    }
    let packet_count = if len % stride == 0 { len / stride } else { len / stride + 1 };
    let mut packet_number: usize = 0;
    while packet_number < packet_count
        invariant
            stride > 0,
            len <= buffer@.len(),
            packet_count == segment_count(len as int, stride as int),
            packet_number <= packet_count,
            out@.len() == packet_number,
            forall|k: int| 0 <= k < packet_number ==> #[trigger] out@[k]@ == buffer@.subrange(k * stride, segment_end(k * stride, stride as int, len as int)),
        decreases packet_count - packet_number,
    {
        assert(packet_number * stride < len) by (nonlinear_arith)
            requires
                packet_number < packet_count,
                packet_count == (if len % stride == 0 { (len / stride) as int } else { len / stride + 1 }),
                stride > 0,
        {
            assert(len == stride * (len / stride) + len % stride);
            if packet_number < len / stride {
                assert(packet_number * stride <= (len / stride - 1) * stride);
            }
        }
        let from = packet_number * stride;
        let to = if len - from > stride { from + stride } else { len };
        let packet = copy_range(buffer, from, to);
        assert(to == segment_end(packet_number * stride, stride as int, len as int));
        out.push(packet);
        packet_number = packet_number + 1;
    }
    assert(out@.map_values(|p: Vec<u8>| p@) =~= spec_split_datagrams(buffer@, len as int, stride as int));
    out
}

/// Datagrams of `s` bytes each glue into `len * s` bytes, the `i`-th
/// datagram standing at `i * s`.
proof fn lemma_concat_of_equal_sizes(parts: Seq<Seq<u8>>, s: int)
    requires
        s >= 0,
        forall|i: int| 0 <= i < parts.len() ==> #[trigger] parts[i].len() == s,
    ensures
        concat(parts).len() == parts.len() * s,
        forall|i: int| 0 <= i < parts.len() ==> #[trigger] concat(parts).subrange(i * s, i * s + s) == parts[i],
    decreases parts.len(),
{
    if parts.len() > 0 {
        let n = parts.len() as int;
        let pre = parts.drop_last();
        lemma_concat_of_equal_sizes(pre, s);
        assert((n - 1) * s + s == n * s) by (nonlinear_arith);
        assert forall|i: int| 0 <= i < n implies #[trigger] concat(parts).subrange(i * s, i * s + s) == parts[i] by {
            assert(0 <= i * s) by (nonlinear_arith)
                requires
                    0 <= i,
                    0 <= s,
            ;
            if i < n - 1 {
                assert(i * s + s <= (n - 1) * s) by (nonlinear_arith)
                    requires
                        i < n - 1,
                        0 <= s,
                ;
                assert(pre[i] == parts[i]);
                assert(concat(parts).subrange(i * s, i * s + s) =~= concat(pre).subrange(i * s, i * s + s));
            } else {
                assert(concat(parts).subrange(i * s, i * s + s) =~= parts.last());
            }
        }
    }
}

/// What a segmented send glues together, a receive that splits by the
/// segment size gives back: for datagrams of `s` bytes each, the last of
/// which may be shorter but not empty, splitting the glued bytes by `s`
/// yields the same datagrams.
pub proof fn lemma_split_undoes_glue(packets: Seq<Seq<u8>>, s: int)
    requires
        s > 0,
        packets.len() > 0,
        forall|i: int| 0 <= i < packets.len() - 1 ==> #[trigger] packets[i].len() == s,
        0 < packets.last().len() <= s,
    ensures
        spec_split_datagrams(concat(packets), concat(packets).len() as int, s) == packets,
{
    let n = packets.len() as int;
    let pre = packets.drop_last();
    let last = packets.last();
    let m = last.len() as int;
    lemma_concat_of_equal_sizes(pre, s);
    let buf = concat(packets);
    let len = buf.len() as int;
    assert(buf == concat(pre) + last);
    assert(len == (n - 1) * s + m);
    assert(0 <= (n - 1) * s) by (nonlinear_arith)
        requires
            n >= 1,
            s > 0,
    ;
    if s == len {
        assert(n == 1) by {
            if n >= 2 {
                assert((n - 1) * s >= s) by (nonlinear_arith)
                    requires
                        n >= 2,
                        s > 0,
                ;
            }
        }
        assert(pre.len() == 0);
        assert(concat(pre) =~= Seq::<u8>::empty());
        assert(buf.take(len) =~= last);
        assert(spec_split_datagrams(buf, len, s) =~= packets);
    } else {
        if m == s {
            assert(len == n * s + 0) by (nonlinear_arith)
                requires
                    len == (n - 1) * s + m,
                    m == s,
            ;
            vstd::arithmetic::div_mod::lemma_fundamental_div_mod_converse(len, s, n, 0);
        } else {
            vstd::arithmetic::div_mod::lemma_fundamental_div_mod_converse(len, s, n - 1, m);
        }
        assert(segment_count(len, s) == n);
        let split = spec_split_datagrams(buf, len, s);
        assert forall|k: int| 0 <= k < n implies #[trigger] split[k] == packets[k] by {
            assert(0 <= k * s) by (nonlinear_arith)
                requires
                    0 <= k,
                    0 < s,
            ;
            if k < n - 1 {
                assert(k * s + s <= (n - 1) * s) by (nonlinear_arith)
                    requires
                        k < n - 1,
                        0 < s,
                ;
                assert(segment_end(k * s, s, len) == k * s + s);
                assert(pre[k] == packets[k]);
                assert(buf.subrange(k * s, k * s + s) =~= concat(pre).subrange(k * s, k * s + s));
            } else {
                assert(k * s == (n - 1) * s);
                assert(segment_end(k * s, s, len) == len);
                assert(buf.subrange(k * s, len) =~= last);
            }
        }
        assert(split =~= packets);
    }
}

/// A copy of the bytes `from..to` of `buffer`.
fn copy_range(buffer: &[u8], from: usize, to: usize) -> (r: Vec<u8>)
    requires
        from <= to <= buffer@.len(),
    ensures
        r@ == buffer@.subrange(from as int, to as int),
{
    let mut out: Vec<u8> = Vec::new();
    let mut i: usize = from;
    while i < to
        invariant
            from <= i <= to,
            to <= buffer@.len(),
            out@ == buffer@.subrange(from as int, i as int),
        decreases to - i,
    {
        out.push(buffer[i]);
        assert(out@ =~= buffer@.subrange(from as int, i as int + 1));
        i = i + 1;
    }
    out
}

} // verus!
