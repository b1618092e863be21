//! One accelerometer burst, its capacity rule and its frame codec.
//!
//! Floating-point values are held as their IEEE bit patterns: `lon` and `lat`
//! are the bits of an `f64`, `freq` those of an `f32`, each sample those of an
//! `f16`. The wire bytes are the same as for the floating-point values.
use vstd::prelude::*;

verus! {

/// Samples per IMU reading.
pub const SAMPLE_SZ: usize = 3;

/// Capacity of a packet's sample buffer.
pub const AXL_SZ: usize = SAMPLE_SZ * 1024;

/// Size of one frame slot in a buffer of packets; an encoded packet never
/// exceeds it.
pub const AXL_POSTCARD_SZ: usize = 1024 * 8;

/// What a packet holds, as plain values.
pub struct PacketModel {
    pub timestamp: i64,
    pub offset: u16,
    pub storage_id: Option<u32>,
    pub position_time: u32,
    pub lon: u64,
    pub lat: u64,
    pub freq: u32,
    pub data: Seq<u16>,
}

/// One IMU burst sample with its acquisition-time metadata.
#[derive(Debug)]
pub struct AxlPacket {
    /// Timestamp of the sample at `offset`, in ms.
    pub timestamp: i64,
    /// Offset in the IMU FIFO at the time of `timestamp`.
    pub offset: u16,
    /// Identifier on durable storage; absent until the packet is stored.
    pub storage_id: Option<u32>,
    /// Time of the last position fix, in s.
    pub position_time: u32,
    /// Longitude, bits of an `f64`.
    pub lon: u64,
    /// Latitude, bits of an `f64`.
    pub lat: u64,
    /// Sampling frequency, bits of an `f32`.
    pub freq: u32,
    /// Samples, each the bits of an `f16`; at most `AXL_SZ` of them.
    pub data: heapless::Vec<u16, AXL_SZ>,
}

/// Constructing a packet from more samples than `AXL_SZ`.
#[derive(Clone, Copy, Debug, PartialEq, Eq, Structural)]
pub struct CapacityError {
    pub len: usize,
}

/// Why a packet could not be encoded.
#[derive(Clone, Copy, Debug, PartialEq, Eq, Structural)]
pub enum EncodeError {
    /// The encoded frame is longer than `AXL_POSTCARD_SZ`.
    FrameTooLarge,
}

/// Why a frame could not be decoded.
#[derive(Clone, Copy, Debug, PartialEq, Eq, Structural)]
pub enum DecodeError {
    /// The byte stuffing is broken.
    Framing,
    /// The bytes end before the packet does.
    Truncated,
    /// A field cannot be read, or there are more samples than `AXL_SZ`.
    Malformed,
    /// Bytes are left over after the packet, before the frame's terminator.
    TrailingBytes,
}

impl View for AxlPacket {
    type V = PacketModel;

    open spec fn view(&self) -> PacketModel {
        PacketModel {
            timestamp: self.timestamp,
            offset: self.offset,
            storage_id: self.storage_id,
            position_time: self.position_time,
            lon: self.lon,
            lat: self.lat,
            freq: self.freq,
            data: heapless_samples(self.data),
        }
    }
}

/// The sample buffer's type: a vector of capacity `N`.
#[verifier::external_type_specification]
#[verifier::external_body]
#[verifier::reject_recursive_types(T)]
pub struct ExHeaplessVec<T, const N: usize>(heapless::Vec<T, N>);

/// The samples that a sample buffer holds, in order.
pub uninterp spec fn heapless_samples(v: heapless::Vec<u16, AXL_SZ>) -> Seq<u16>;

/// Relies on heapless::Vec::as_slice: the items in order, of which there are
/// never more than the capacity.
#[verifier::external_body]
fn samples_of(v: &heapless::Vec<u16, AXL_SZ>) -> (r: &[u16])
    ensures
        r@ == heapless_samples(*v),
        r@.len() <= AXL_SZ,
{
    v.as_slice()
}

/// Relies on heapless::Vec::from_slice: a copy of the slice, refused where it
/// is longer than the capacity.
#[verifier::external_body]
fn samples_from(s: &[u16]) -> (r: Option<heapless::Vec<u16, AXL_SZ>>)
    ensures
        s@.len() <= AXL_SZ <==> r is Some,
        r matches Some(v) ==> heapless_samples(v) == s@,
{
    heapless::Vec::from_slice(s).ok()
}

/// The bytes that cobs recovers from a frame, up to its first zero byte;
/// `None` where the byte stuffing is broken.
pub uninterp spec fn cobs_unstuffed(frame: Seq<u8>) -> Option<Seq<u8>>;

/// The packet that postcard reads from the start of `bytes`, its fields in
/// declaration order, with the number of bytes left after it; `None` where it
/// fails.
pub uninterp spec fn postcard_packet(bytes: Seq<u8>) -> Option<(PacketModel, nat)>;

/// The COBS frame, terminator included, that postcard writes for a packet.
pub uninterp spec fn postcard_frame(p: PacketModel) -> Seq<u8>;

/// The packet held by one frame: the unstuffed bytes hold exactly one packet
/// within this library's capacity.
pub open spec fn frame_packet(frame: Seq<u8>) -> Option<PacketModel> {
    match cobs_unstuffed(frame) {
        Some(bytes) => match postcard_packet(bytes) {
            Some((p, left)) => if left == 0 {
                Some(p)
            } else {
                None
            },
            None => None,
        },
        None => None,
    }
}

/// Whether a packet fits its capacity and its frame fits one slot.
pub open spec fn encodable(p: PacketModel) -> bool {
    p.data.len() <= AXL_SZ && postcard_frame(p).len() <= AXL_POSTCARD_SZ
}

/// A frame slot: the encoded packet followed by zeros up to `AXL_POSTCARD_SZ`.
pub open spec fn padded(enc: Seq<u8>) -> Seq<u8> {
    enc + Seq::new((AXL_POSTCARD_SZ - enc.len()) as nat, |i: int| 0u8)
}

/// Relies on cobs::decode_in_place (on a copy of `frame`): it undoes the
/// byte stuffing up to the first zero byte.
#[verifier::external_body]
fn cobs_decode(frame: &[u8]) -> (r: Option<Vec<u8>>)
    ensures
        match r {
            Some(b) => cobs_unstuffed(frame@) == Some(b@),
            None => cobs_unstuffed(frame@) is None,
        },
{
    let mut bytes = frame.to_vec();
    match cobs::decode_in_place(&mut bytes) {
        Ok(n) => {
            bytes.truncate(n);
            Some(bytes)
        },
        Err(_) => None,
    }
}

/// Relies on postcard::take_from_bytes: it reads the fields from the start
/// of `bytes`, the samples into the packet's heapless::Vec, whose deserializer
/// refuses more than its capacity, and hands back the bytes that follow.
#[verifier::external_body]
fn postcard_take(bytes: &[u8]) -> (r: Result<(AxlPacket, usize), DecodeError>)
    ensures
        match r {
            Ok((p, left)) => postcard_packet(bytes@) == Some((p@, left as nat)),
            Err(e) => postcard_packet(bytes@) is None && e != DecodeError::Framing
                && e != DecodeError::TrailingBytes,
        },
{
    match postcard::take_from_bytes::<(i64, u16, Option<u32>, u32, [u8; 8], [u8; 8], [u8; 4], _)>(bytes) {
        Ok(((timestamp, offset, storage_id, position_time, lon, lat, freq, data), rest)) => Ok((AxlPacket {
            timestamp, offset, storage_id, position_time,
            lon: u64::from_le_bytes(lon), lat: u64::from_le_bytes(lat), freq: u32::from_le_bytes(freq),
            data,
        }, rest.len())),
        Err(postcard::Error::DeserializeUnexpectedEnd) => Err(DecodeError::Truncated),
        Err(_) => Err(DecodeError::Malformed),
    }
}

/// Relies on postcard::to_allocvec_cobs: it writes the fields in declaration
/// order and stuffs the bytes into one zero-terminated COBS frame. Writing to
/// a growable vector never fails, and a slice always gives its length. The
/// frame has no zero before its terminator, where cobs::decode_in_place
/// stops, so whatever follows it, unstuffing gives back exactly the written
/// fields, and postcard::take_from_bytes reads them with nothing left over.
#[verifier::external_body]
fn postcard_encode(p: &AxlPacket) -> (r: Option<Vec<u8>>)
    ensures
        r is Some,
        r matches Some(v) ==> v@ == postcard_frame(p@),
        r matches Some(v) ==> cobs_unstuffed(v@) is Some,
        r matches Some(v) ==> forall|rest: Seq<u8>| #[trigger] cobs_unstuffed(v@ + rest) == cobs_unstuffed(v@),
        r matches Some(v) ==> postcard_packet(cobs_unstuffed(v@).unwrap()) == Some((p@, 0nat)),
{
    let fields = (p.timestamp, p.offset, p.storage_id, p.position_time,
        p.lon.to_le_bytes(), p.lat.to_le_bytes(), p.freq.to_le_bytes(), &p.data);
    postcard::to_allocvec_cobs(&fields).ok()
}

impl AxlPacket {
    /// Whether the sample buffer is within its capacity.
    pub open spec fn wf(&self) -> bool {
        heapless_samples(self.data).len() <= AXL_SZ
    }

    /// A packet not yet stored, from its fields and its samples; refused when
    /// there are more samples than `AXL_SZ`.
    pub fn new(
        timestamp: i64,
        offset: u16,
        position_time: u32,
        lon: u64,
        lat: u64,
        freq: u32,
        data: &[u16],
    ) -> (r: Result<AxlPacket, CapacityError>)
        ensures
            data@.len() <= AXL_SZ <==> r is Ok,
            r matches Ok(p) ==> p@ == (PacketModel {
                timestamp,
                offset,
                storage_id: None,
                position_time,
                lon,
                lat,
                freq,
                data: data@,
            }),
            r matches Err(e) ==> e.len == data@.len(),
    {
        let samples = match samples_from(data) {
            Some(v) => v,
            None => return Err(CapacityError { len: data.len() }),
        };
        Ok(AxlPacket {
            timestamp,
            offset,
            storage_id: None,
            position_time,
            lon,
            lat,
            freq,
            data: samples,
        })
    }

    /// Records the identifier given by storage. It is set once: a packet
    /// that already has one keeps it, and the call returns that one.
    pub fn set_storage_id(&mut self, id: u32) -> (r: Result<(), u32>)
        ensures
            match old(self).storage_id {
                None => r is Ok && final(self)@ == (PacketModel { storage_id: Some(id), ..old(self)@ }),
                Some(prev) => r == Err::<(), u32>(prev) && final(self)@ == old(self)@,
            },
    {
        match self.storage_id {
            Some(prev) => Err(prev),
            None => {
                self.storage_id = Some(id);
                Ok(())
            },
        }
    }

    /// The packet as one COBS frame of at most `AXL_POSTCARD_SZ` bytes, its
    /// zero terminator included. Whatever follows the frame, it decodes back
    /// to this packet.
    pub fn encode(&self) -> (r: Result<Vec<u8>, EncodeError>)
        ensures
            match r {
                Ok(v) => v@ == postcard_frame(self@) && v@.len() <= AXL_POSTCARD_SZ,
                Err(e) => e == EncodeError::FrameTooLarge && postcard_frame(self@).len() > AXL_POSTCARD_SZ,
            },
            r is Ok <==> encodable(self@),
            r matches Ok(v) ==> frame_packet(v@) == Some(self@),
            r matches Ok(v) ==> forall|rest: Seq<u8>| #[trigger] frame_packet(v@ + rest) == Some(self@),
    {
        // the sample buffer never holds more than its capacity
        let _ = samples_of(&self.data);
        let v = postcard_encode(self).unwrap();
        if v.len() > AXL_POSTCARD_SZ {
            return Err(EncodeError::FrameTooLarge);
        }
        assert forall|rest: Seq<u8>| #[trigger] frame_packet(v@ + rest) == Some(self@) by {
            assert(cobs_unstuffed(v@ + rest) == cobs_unstuffed(v@));
        }
        assert(v@ + Seq::<u8>::empty() =~= v@);
        assert(frame_packet(v@ + Seq::<u8>::empty()) == Some(self@));
        Ok(v)
    }

    /// The packet as a frame slot: `encode` followed by zeros up to exactly
    /// `AXL_POSTCARD_SZ` bytes.
    pub fn to_frame(&self) -> (r: Result<Vec<u8>, EncodeError>)
        ensures
            match r {
                Ok(v) => postcard_frame(self@).len() <= AXL_POSTCARD_SZ
                    && v@ == padded(postcard_frame(self@)),
                Err(e) => e == EncodeError::FrameTooLarge && postcard_frame(self@).len() > AXL_POSTCARD_SZ,
            },
            r is Ok <==> encodable(self@),
            r matches Ok(v) ==> v@.len() == AXL_POSTCARD_SZ && frame_packet(v@) == Some(self@),
    {
        let mut v = self.encode()?;
        let ghost enc = v@;
        while v.len() < AXL_POSTCARD_SZ
            invariant
                enc.len() <= v@.len() <= AXL_POSTCARD_SZ,
                v@ == enc + Seq::new((v@.len() - enc.len()) as nat, |i: int| 0u8),
            decreases AXL_POSTCARD_SZ - v@.len(),
        {
            v.push(0u8);
            assert(v@ == enc + Seq::new((v@.len() - enc.len()) as nat, |i: int| 0u8));
        }
        assert(frame_packet(enc + Seq::new((v@.len() - enc.len()) as nat, |i: int| 0u8)) == Some(self@));
        Ok(v)
    }

    /// The packet held by a frame slot; an error where the byte stuffing or
    /// the fields are broken, where it holds more than `AXL_SZ` samples, or
    /// where bytes are left over after the packet.
    pub fn decode(frame: &[u8]) -> (r: Result<AxlPacket, DecodeError>)
        ensures
            match r {
                Ok(p) => frame_packet(frame@) == Some(p@) && p.wf(),
                Err(_) => frame_packet(frame@) is None,
            },
            r == Err::<AxlPacket, DecodeError>(DecodeError::Framing) <==> cobs_unstuffed(frame@) is None,
            r == Err::<AxlPacket, DecodeError>(DecodeError::TrailingBytes) <==> (
                cobs_unstuffed(frame@) matches Some(b)
                && postcard_packet(b) matches Some((_, left)) && left > 0),
    {
        let bytes = match cobs_decode(frame) {
            Some(b) => b,
            None => return Err(DecodeError::Framing),
        };
        let (p, left) = postcard_take(bytes.as_slice())?;
        if left != 0 {
            return Err(DecodeError::TrailingBytes);
        }
        let _ = samples_of(&p.data);
        Ok(p)
    }
}

impl PartialEq for AxlPacket {
    fn eq(&self, o: &AxlPacket) -> (r: bool)
        ensures
            r == (self@ == o@),
    {
        let same_id = match (self.storage_id, o.storage_id) {
            (None, None) => true,
            (Some(a), Some(b)) => a == b,
            _ => false,
        };
        if !(same_id && self.timestamp == o.timestamp && self.offset == o.offset
            && self.position_time == o.position_time && self.lon == o.lon && self.lat == o.lat
            && self.freq == o.freq) {
            return false;
        }
        let a = samples_of(&self.data);
        let b = samples_of(&o.data);
        if a.len() != b.len() {
            return false;
        }
        let mut i: usize = 0;
        while i < a.len()
            invariant
                i <= a@.len() == b@.len(),
                a@ == self@.data,
                b@ == o@.data,
                forall|j: int| 0 <= j < i ==> a@[j] == b@[j],
            decreases a@.len() - i,
        {
            if a[i] != b[i] {
                assert(self@.data[i as int] != o@.data[i as int]);
                return false;
            }
            i += 1;
        }
        assert(a@ == b@);
        true
    }
}

impl vstd::std_specs::cmp::PartialEqSpecImpl for AxlPacket {
    open spec fn obeys_eq_spec() -> bool {
        true
    }

    open spec fn eq_spec(&self, o: &AxlPacket) -> bool {
        self@ == o@
    }
}

} // verus!
