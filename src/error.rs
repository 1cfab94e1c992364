//! The error kinds of encoding and decoding.

use vstd::prelude::*;

verus! {

/// The ways an encode or decode call can fail.
#[derive(Debug, Clone, Copy, PartialEq, Eq, Structural)]
pub enum Error {
    /// The buffer ran out before the value was complete.
    Io,
    /// A union discriminant that no variant carries.
    InvalidPacketData(u16),
    /// Text bytes that are not valid UTF-8.
    FromUtf8Error,
    /// A number too large for the width it must be written in or read into.
    TryFromInt,
    /// A fixed-size array whose decoded length is not its declared size.
    ArrayLength(u32),
    /// Two variants of one union with the same discriminant.
    DuplicateDiscriminant(u16),
}

} // verus!
