//! Fixed-size binary frames of accelerometer bursts, and the decoder that
//! recovers every intact packet from a buffer of concatenated frames.

pub mod collection;
pub mod packet;
