//! A compact binary wire format: fixed-width big-endian integers, LEB128
//! varints, length-prefixed text and sequences, optional values, records and
//! tagged unions, each driven by a shape descriptor.

pub mod bytes;
pub mod codec;
pub mod discriminant;
pub mod error;
pub mod format;
pub mod laws;
pub mod packet;
pub mod shape;
pub mod varint;
