//! Splitting a buffer into frame slots and decoding each one on its own.
use vstd::prelude::*;
use crate::packet::{AxlPacket, DecodeError, EncodeError, PacketModel, AXL_POSTCARD_SZ, encodable, frame_packet, padded};

verus! {

/// A frame slot that did not decode, and why.
#[derive(Clone, Copy, Debug, PartialEq, Eq, Structural)]
pub struct FrameError {
    /// Position of the slot in the buffer.
    pub index: usize,
    pub reason: DecodeError,
}

/// The packets recovered from one buffer, in slot order, and the slots that
/// were dropped.
#[derive(Debug)]
pub struct Collection {
    pub pcks: Vec<AxlPacket>,
    /// One entry per dropped slot, in slot order.
    pub failures: Vec<FrameError>,
    /// Bytes after the last whole slot, which are ignored; not zero means the
    /// buffer does not hold a whole number of frames.
    pub trailing: usize,
}

/// Number of whole frame slots in a buffer of `len` bytes.
pub open spec fn frame_count(len: int) -> int {
    len / (AXL_POSTCARD_SZ as int)
}

/// Slot `i` of a buffer.
pub open spec fn frame_at(buf: Seq<u8>, i: int) -> Seq<u8> {
    buf.subrange(i * AXL_POSTCARD_SZ, i * AXL_POSTCARD_SZ + AXL_POSTCARD_SZ)
}

/// The packets of the first `k` slots, in order, the broken slots left out.
pub open spec fn decoded_upto(buf: Seq<u8>, k: nat) -> Seq<PacketModel>
    decreases k,
{
    if k == 0 {
        Seq::empty()
    } else {
        let prev = decoded_upto(buf, (k - 1) as nat);
        match frame_packet(frame_at(buf, k - 1)) {
            Some(p) => prev.push(p),
            None => prev,
        }
    }
}

/// The indices of the broken slots among the first `k`, in order.
pub open spec fn failed_upto(buf: Seq<u8>, k: nat) -> Seq<int>
    decreases k,
{
    if k == 0 {
        Seq::empty()
    } else {
        let prev = failed_upto(buf, (k - 1) as nat);
        match frame_packet(frame_at(buf, k - 1)) {
            Some(_) => prev,
            None => prev.push(k - 1),
        }
    }
}

/// The packets of all whole slots of a buffer.
pub open spec fn decoded_frames(buf: Seq<u8>) -> Seq<PacketModel> {
    decoded_upto(buf, frame_count(buf.len() as int) as nat)
}

/// The indices of all broken whole slots of a buffer.
pub open spec fn failed_frames(buf: Seq<u8>) -> Seq<int> {
    failed_upto(buf, frame_count(buf.len() as int) as nat)
}

pub open spec fn models(pcks: Seq<AxlPacket>) -> Seq<PacketModel> {
    pcks.map_values(|p: AxlPacket| p@)
}

pub open spec fn indices(failures: Seq<FrameError>) -> Seq<int> {
    failures.map_values(|e: FrameError| e.index as int)
}

proof fn lemma_slot_in_bounds(i: int, n: int, len: int)
    requires
        0 <= i < n,
        n == frame_count(len),
        0 <= len,
    ensures
        0 <= i * AXL_POSTCARD_SZ,
        i * AXL_POSTCARD_SZ + AXL_POSTCARD_SZ <= len,
{
    assert(0 <= i * 8192 && i * 8192 + 8192 <= len) by (nonlinear_arith)
        requires 0 <= i < n, n == len / 8192, 0 <= len;
}

/// Buffers whose first `k` slots are the same decode the same up to there.
proof fn lemma_same_slots(a: Seq<u8>, b: Seq<u8>, k: nat)
    requires
        forall|i: int| 0 <= i < k ==> frame_at(a, i) == frame_at(b, i),
    ensures
        decoded_upto(a, k) == decoded_upto(b, k),
        failed_upto(a, k) == failed_upto(b, k),
    decreases k,
{
    if k > 0 {
        lemma_same_slots(a, b, (k - 1) as nat);
        assert(frame_at(a, k - 1) == frame_at(b, k - 1));
    }
}

/// Where each of the first `k` slots holds packet `rs[i]`, they decode to
/// `rs` up to there, with no failure.
proof fn lemma_all_valid(buf: Seq<u8>, rs: Seq<PacketModel>, k: nat)
    requires
        k <= rs.len(),
        forall|i: int| 0 <= i < k ==> frame_packet(#[trigger] frame_at(buf, i)) == Some(rs[i]),
    ensures
        decoded_upto(buf, k) == rs.subrange(0, k as int),
        failed_upto(buf, k) == Seq::<int>::empty(),
    decreases k,
{
    if k > 0 {
        lemma_all_valid(buf, rs, (k - 1) as nat);
        assert(frame_packet(frame_at(buf, k - 1)) == Some(rs[k - 1]));
        assert(rs.subrange(0, k - 1).push(rs[k - 1]) =~= rs.subrange(0, k as int));
    }
}

proof fn lemma_without_one(good: Seq<u8>, bad: Seq<u8>, j: int, k: nat)
    requires
        0 <= j < k,
        forall|i: int| 0 <= i < k && i != j ==> frame_at(good, i) == frame_at(bad, i),
        forall|i: int| 0 <= i < k ==> (#[trigger] frame_packet(frame_at(good, i))) is Some,
        frame_packet(frame_at(bad, j)) is None,
    ensures
        decoded_upto(bad, k) == decoded_upto(good, k).remove(j),
        failed_upto(bad, k) == seq![j],
        decoded_upto(good, k).len() == k,
    decreases k,
{
    let km = (k - 1) as nat;
    let p = frame_packet(frame_at(good, km as int));
    assert(p is Some);
    if km == j {
        lemma_same_slots(good, bad, km);
        lemma_count_valid(good, km);
        assert(decoded_upto(good, k) == decoded_upto(good, km).push(p.unwrap()));
        assert(decoded_upto(good, k).remove(j) =~= decoded_upto(good, km));
        assert(failed_upto(good, km) =~= Seq::<int>::empty());
        assert(seq![j] =~= Seq::<int>::empty().push(j));
    } else {
        lemma_without_one(good, bad, j, km);
        assert(frame_at(good, km as int) == frame_at(bad, km as int));
        assert(decoded_upto(good, k).remove(j) =~= decoded_upto(good, km).remove(j).push(p.unwrap()));
    }
}

/// Where each of the first `k` slots decodes, the first `k` slots give `k`
/// packets and no failure.
proof fn lemma_count_valid(buf: Seq<u8>, k: nat)
    requires
        forall|i: int| 0 <= i < k ==> (#[trigger] frame_packet(frame_at(buf, i))) is Some,
    ensures
        decoded_upto(buf, k).len() == k,
        failed_upto(buf, k) == Seq::<int>::empty(),
    decreases k,
{
    if k > 0 {
        lemma_count_valid(buf, (k - 1) as nat);
        assert(frame_packet(frame_at(buf, k - 1)) is Some);
    }
}

/// An empty buffer decodes to no packet and no failure.
pub proof fn lemma_empty_buffer()
    ensures
        decoded_frames(Seq::empty()) == Seq::<PacketModel>::empty(),
        failed_frames(Seq::empty()) == Seq::<int>::empty(),
{
}

/// Bytes after the last whole slot change nothing: a buffer of `k` slots and
/// `r` more bytes decodes as the same buffer cut to its `k` slots.
pub proof fn lemma_trailing_ignored(buf: Seq<u8>, k: nat, r: nat)
    requires
        buf.len() == k * AXL_POSTCARD_SZ + r,
        0 < r < AXL_POSTCARD_SZ,
    ensures
        decoded_frames(buf) == decoded_frames(buf.subrange(0, k * AXL_POSTCARD_SZ)),
        failed_frames(buf) == failed_frames(buf.subrange(0, k * AXL_POSTCARD_SZ)),
        buf.len() % (AXL_POSTCARD_SZ as nat) == r,
{
    let cut = buf.subrange(0, k * AXL_POSTCARD_SZ);
    assert((k * 8192 + r) / 8192 == k && (k * 8192 + r) % 8192 == r) by (nonlinear_arith)
        requires 0 < r < 8192;
    assert((k * 8192) / 8192 == k) by (nonlinear_arith);
    assert forall|i: int| 0 <= i < k implies frame_at(buf, i) == frame_at(cut, i) by {
        assert(i * 8192 + 8192 <= k * 8192) by (nonlinear_arith)
            requires 0 <= i < k;
        assert(0 <= i * 8192) by (nonlinear_arith)
            requires 0 <= i;
        assert(frame_at(buf, i) =~= frame_at(cut, i));
    }
    lemma_same_slots(buf, cut, k);
}

/// Slots that each hold a packet decode to those packets, index for index,
/// with no failure.
pub proof fn lemma_order_preserved(buf: Seq<u8>, rs: Seq<PacketModel>)
    requires
        buf.len() == rs.len() * AXL_POSTCARD_SZ,
        forall|i: int| 0 <= i < rs.len() ==> frame_packet(#[trigger] frame_at(buf, i)) == Some(rs[i]),
    ensures
        decoded_frames(buf) == rs,
        failed_frames(buf) == Seq::<int>::empty(),
{
    assert((rs.len() * 8192) / 8192 == rs.len()) by (nonlinear_arith);
    lemma_all_valid(buf, rs, rs.len());
    assert(rs.subrange(0, rs.len() as int) =~= rs);
}

/// Damage confined to one slot `j` of a buffer of `n` slots that all decode
/// drops that slot alone: the other `n - 1` packets come out in their order,
/// and `j` is the one failure.
pub proof fn lemma_frame_independence(good: Seq<u8>, bad: Seq<u8>, n: nat, j: int)
    requires
        good.len() == n * AXL_POSTCARD_SZ,
        bad.len() == good.len(),
        0 <= j < n,
        forall|x: int| 0 <= x < good.len() && !(j * AXL_POSTCARD_SZ <= x < j * AXL_POSTCARD_SZ + AXL_POSTCARD_SZ)
            ==> good[x] == bad[x],
        forall|i: int| 0 <= i < n ==> (#[trigger] frame_packet(frame_at(good, i))) is Some,
        frame_packet(frame_at(bad, j)) is None,
    ensures
        decoded_frames(bad) == decoded_frames(good).remove(j),
        decoded_frames(bad).len() == n - 1,
        failed_frames(bad) == seq![j],
{
    assert((n * 8192) / 8192 == n) by (nonlinear_arith);
    assert forall|i: int| 0 <= i < n && i != j implies frame_at(good, i) == frame_at(bad, i) by {
        assert(i * 8192 + 8192 <= n * 8192) by (nonlinear_arith)
            requires 0 <= i < n;
        assert(0 <= i * 8192) by (nonlinear_arith)
            requires 0 <= i;
        assert forall|x: int| i * 8192 <= x < i * 8192 + 8192 implies
            #[trigger] good[x] == bad[x] by {
            if i < j {
                assert(i * 8192 + 8192 <= j * 8192) by (nonlinear_arith)
                    requires i < j;
            } else {
                assert(j * 8192 + 8192 <= i * 8192) by (nonlinear_arith)
                    requires j < i;
            }
        }
        assert(frame_at(good, i) =~= frame_at(bad, i));
    }
    lemma_without_one(good, bad, j, n);
}

/// The slots of a buffer of `n` frames written by `write_frames` are left
/// where they stand when more frames follow.
proof fn lemma_slots_kept(old_buf: Seq<u8>, f: Seq<u8>, n: int)
    requires
        0 <= n,
        old_buf.len() == n * AXL_POSTCARD_SZ,
        f.len() == AXL_POSTCARD_SZ,
    ensures
        forall|k: int| 0 <= k < n ==> #[trigger] frame_at(old_buf + f, k) == frame_at(old_buf, k),
        frame_at(old_buf + f, n) == f,
{
    assert forall|k: int| 0 <= k < n implies #[trigger] frame_at(old_buf + f, k) == frame_at(old_buf, k) by {
        assert(0 <= k * 8192 && k * 8192 + 8192 <= n * 8192) by (nonlinear_arith)
            requires 0 <= k < n;
        assert(frame_at(old_buf + f, k) =~= frame_at(old_buf, k));
    }
    assert(frame_at(old_buf + f, n) =~= f);
}

/// The buffer that holds one frame slot per packet, in order: each packet
/// encoded and padded with zeros to `AXL_POSTCARD_SZ` bytes. It decodes back
/// to the same packets, in the same order, with no failure. Refused at the
/// first packet that cannot be encoded, with its index and the reason.
pub fn write_frames(pcks: &[AxlPacket]) -> (r: Result<Vec<u8>, (usize, EncodeError)>)
    ensures
        r is Ok <==> forall|i: int| 0 <= i < pcks@.len() ==> encodable(#[trigger] pcks@[i]@),
        r matches Ok(buf) ==> buf@.len() == pcks@.len() * AXL_POSTCARD_SZ
            && (forall|i: int| 0 <= i < pcks@.len()
                ==> #[trigger] frame_at(buf@, i) == padded(crate::packet::postcard_frame(pcks@[i]@)))
            && (forall|i: int| 0 <= i < pcks@.len() ==> frame_packet(#[trigger] frame_at(buf@, i)) == Some(pcks@[i]@))
            && decoded_frames(buf@) == models(pcks@)
            && failed_frames(buf@) == Seq::<int>::empty(),
        r matches Err((i, e)) ==> i < pcks@.len()
            && !encodable(pcks@[i as int]@)
            && (forall|j: int| 0 <= j < i ==> encodable(#[trigger] pcks@[j]@))
            && e == EncodeError::FrameTooLarge,
{
    let mut buf: Vec<u8> = Vec::new();
    let mut i: usize = 0;
    while i < pcks.len()
        invariant
            i <= pcks@.len(),
            buf@.len() == i * AXL_POSTCARD_SZ,
            forall|j: int| 0 <= j < i ==> encodable(#[trigger] pcks@[j]@),
            forall|j: int| 0 <= j < i ==> #[trigger] frame_at(buf@, j)
                == padded(crate::packet::postcard_frame(pcks@[j]@)),
            forall|j: int| 0 <= j < i ==> frame_packet(#[trigger] frame_at(buf@, j)) == Some(pcks@[j]@),
        decreases pcks@.len() - i,
    {
        let mut f = match pcks[i].to_frame() {
            Ok(f) => f,
            Err(e) => return Err((i, e)),
        };
        proof {
            lemma_slots_kept(buf@, f@, i as int);
            assert((i + 1) * 8192 == i * 8192 + 8192) by (nonlinear_arith);
        }
        buf.append(&mut f);
        i += 1;
    }
    proof {
        lemma_order_preserved(buf@, models(pcks@));
    }
    Ok(buf)
}

impl Collection {
    /// Adds the outcome of decoding slot `index`: the packet, or a failure
    /// entry naming the slot.
    pub fn push_frame(&mut self, index: usize, r: Result<AxlPacket, DecodeError>)
        ensures
            final(self).trailing == old(self).trailing,
            match r {
                Ok(p) => final(self).pcks@ == old(self).pcks@.push(p)
                    && final(self).failures@ == old(self).failures@,
                Err(reason) => final(self).pcks@ == old(self).pcks@
                    && final(self).failures@ == old(self).failures@.push(FrameError { index, reason }),
            },
    {
        match r {
            Ok(p) => self.pcks.push(p),
            Err(reason) => self.failures.push(FrameError { index, reason }),
        }
    }

    /// Decodes every whole `AXL_POSTCARD_SZ`-byte slot of `buf` on its own,
    /// keeping the packets in slot order and recording the slots that fail.
    /// Bytes after the last whole slot are ignored.
    pub fn from_bytes(buf: &[u8]) -> (c: Collection)
        ensures
            models(c.pcks@) == decoded_frames(buf@),
            indices(c.failures@) == failed_frames(buf@),
            c.trailing == buf@.len() % (AXL_POSTCARD_SZ as nat),
            forall|i: int| 0 <= i < c.pcks@.len() ==> #[trigger] c.pcks@[i].wf(),
    {
        let n: usize = buf.len() / AXL_POSTCARD_SZ;
        let mut c = Collection { pcks: Vec::new(), failures: Vec::new(), trailing: buf.len() % AXL_POSTCARD_SZ };
        let mut i: usize = 0;
        while i < n
            invariant
                i <= n,
                n == frame_count(buf@.len() as int),
                models(c.pcks@) == decoded_upto(buf@, i as nat),
                indices(c.failures@) == failed_upto(buf@, i as nat),
                c.trailing == buf@.len() % (AXL_POSTCARD_SZ as nat),
                forall|j: int| 0 <= j < c.pcks@.len() ==> #[trigger] c.pcks@[j].wf(),
            decreases n - i,
        {
            proof {
                lemma_slot_in_bounds(i as int, n as int, buf@.len() as int);
                assert(buf@.len() == buf.len());
            }
            let start: usize = i * AXL_POSTCARD_SZ;
            let frame = vstd::slice::slice_subrange(buf, start, start + AXL_POSTCARD_SZ);
            let r = AxlPacket::decode(frame);
            c.push_frame(i, r);
            assert(models(c.pcks@) =~= decoded_upto(buf@, (i + 1) as nat));
            assert(indices(c.failures@) =~= failed_upto(buf@, (i + 1) as nat));
            i += 1;
        }
        c
    }
}

} // verus!
