use axl_packet::packet::{AxlPacket, CapacityError, DecodeError, EncodeError, AXL_POSTCARD_SZ, AXL_SZ};
use half::f16;

fn bits(v: &[f32]) -> Vec<u16> {
    v.iter().map(|x| f16::from_f32(*x).to_bits()).collect()
}

fn sample(timestamp: i64, data: &[f32]) -> AxlPacket {
    AxlPacket::new(timestamp, 5, 42, 10.0f64.to_bits(), 60.0f64.to_bits(), 100.0f32.to_bits(), &bits(data)).unwrap()
}

#[test]
fn new_sets_fields_and_leaves_storage_id_unset() {
    let p = sample(1000, &[1.5, 2.5, 3.5]);
    assert_eq!(p.timestamp, 1000);
    assert_eq!(p.offset, 5);
    assert_eq!(p.storage_id, None);
    assert_eq!(p.position_time, 42);
    assert_eq!(f64::from_bits(p.lon), 10.0);
    assert_eq!(f64::from_bits(p.lat), 60.0);
    assert_eq!(f32::from_bits(p.freq), 100.0);
    assert_eq!(p.data.as_slice(), bits(&[1.5, 2.5, 3.5]).as_slice());
}

#[test]
fn round_trip_keeps_every_field() {
    let mut p = sample(-123456789, &[0.0, -1.0, 65504.0, 1e-3]);
    p.offset = u16::MAX;
    p.position_time = u32::MAX;
    p.lon = (-179.5f64).to_bits();
    p.lat = (-89.25f64).to_bits();
    p.storage_id = Some(u32::MAX);
    let enc = p.encode().unwrap();
    assert_eq!(*enc.last().unwrap(), 0);
    assert!(enc[..enc.len() - 1].iter().all(|b| *b != 0));
    let back = AxlPacket::decode(&enc).unwrap();
    assert!(back == p);
    let framed = p.to_frame().unwrap();
    assert_eq!(framed.len(), AXL_POSTCARD_SZ);
    assert!(AxlPacket::decode(&framed).unwrap() == p);
}

#[test]
fn round_trip_empty_and_full_samples() {
    let empty = sample(i64::MIN, &[]);
    assert!(AxlPacket::decode(&empty.to_frame().unwrap()).unwrap() == empty);
    let full = AxlPacket::new(i64::MAX, 0, 0, 0, 0, 0, &vec![0u16; AXL_SZ]).unwrap();
    let framed = full.to_frame().unwrap();
    assert_eq!(framed.len(), AXL_POSTCARD_SZ);
    assert!(AxlPacket::decode(&framed).unwrap() == full);
}

#[test]
fn capacity_is_a_hard_limit() {
    let too_many = vec![0u16; AXL_SZ + 1];
    assert_eq!(AxlPacket::new(0, 0, 0, 0, 0, 0, &too_many).unwrap_err(), CapacityError { len: AXL_SZ + 1 });
    assert!(AxlPacket::new(0, 0, 0, 0, 0, 0, &vec![0u16; AXL_SZ]).is_ok());
    let full = AxlPacket::new(0, 0, 0, 0, 0, 0, &too_many[..AXL_SZ]).unwrap();
    assert_eq!(full.data.len(), AXL_SZ);
    assert!(full.encode().is_ok());
    assert_eq!(full.to_frame().unwrap().len(), AXL_POSTCARD_SZ);
}

#[test]
fn full_buffer_of_wide_samples_overflows_the_frame() {
    // the bits of 2.0 take three bytes as a varint: 3072 * 3 bytes exceed one slot
    let p = AxlPacket::new(0, 0, 0, 0, 0, 0, &vec![f16::from_f32(2.0).to_bits(); AXL_SZ]).unwrap();
    assert_eq!(p.encode().unwrap_err(), EncodeError::FrameTooLarge);
}

#[test]
fn encoding_matches_postcard_on_the_float_fields() {
    let p = sample(1000, &[1.5, 2.5, 3.5]);
    let mut data: heapless::Vec<f16, 3072> = heapless::Vec::new();
    for x in [1.5f32, 2.5, 3.5] {
        data.push(f16::from_f32(x)).unwrap();
    }
    let fields = (1000i64, 5u16, None::<u32>, 42u32, 10.0f64, 60.0f64, 100.0f32, data);
    let expected = postcard::to_allocvec_cobs(&fields).unwrap();
    assert_eq!(p.encode().unwrap(), expected);
}

#[test]
fn storage_id_is_set_once() {
    let mut p = sample(0, &[1.0]);
    assert_eq!(p.set_storage_id(7), Ok(()));
    assert_eq!(p.storage_id, Some(7));
    assert_eq!(p.set_storage_id(9), Err(7));
    assert_eq!(p.storage_id, Some(7));
    let back = AxlPacket::decode(&p.encode().unwrap()).unwrap();
    assert_eq!(back.storage_id, Some(7));
}

#[test]
fn decode_reports_broken_stuffing() {
    assert_eq!(AxlPacket::decode(&[0x05, 0x01, 0x00]).unwrap_err(), DecodeError::Framing);
}

#[test]
fn decode_reports_truncated_payload() {
    assert_eq!(AxlPacket::decode(&[0x02, 0x05, 0x00]).unwrap_err(), DecodeError::Truncated);
    assert_eq!(AxlPacket::decode(&vec![0u8; AXL_POSTCARD_SZ]).unwrap_err(), DecodeError::Truncated);
}

#[test]
fn decode_reports_malformed_field() {
    // timestamp 0, offset 0, then an option tag of 2
    assert_eq!(AxlPacket::decode(&[0x01, 0x01, 0x02, 0x02, 0x00]).unwrap_err(), DecodeError::Malformed);
}

#[test]
fn decode_refuses_too_many_samples() {
    let p = sample(0, &[]);
    let data = vec![0u16; AXL_SZ + 1];
    let fields = (p.timestamp, p.offset, p.storage_id, p.position_time,
        p.lon.to_le_bytes(), p.lat.to_le_bytes(), p.freq.to_le_bytes(), data.as_slice());
    let enc = postcard::to_allocvec_cobs(&fields).unwrap();
    assert!(enc.len() <= AXL_POSTCARD_SZ);
    assert_eq!(AxlPacket::decode(&enc).unwrap_err(), DecodeError::Malformed);
}

#[test]
fn decode_refuses_bytes_after_the_packet() {
    let p = sample(1000, &[1.5, 2.5, 3.5]);
    let fields = (p.timestamp, p.offset, p.storage_id, p.position_time,
        p.lon.to_le_bytes(), p.lat.to_le_bytes(), p.freq.to_le_bytes(), p.data.as_slice());
    let mut payload = postcard::to_allocvec(&fields).unwrap();
    let mut frame = vec![0u8; payload.len() + 8];
    let n = cobs::encode(&payload, &mut frame);
    frame.truncate(n);
    frame.push(0);
    assert!(AxlPacket::decode(&frame).unwrap() == p);
    payload.push(7);
    let mut longer = vec![0u8; payload.len() + 8];
    let n = cobs::encode(&payload, &mut longer);
    longer.truncate(n);
    longer.push(0);
    assert_eq!(AxlPacket::decode(&longer).unwrap_err(), DecodeError::TrailingBytes);
}
