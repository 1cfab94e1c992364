//! Packet framing: a header identifying the message type, written before a
//! record's fields.

use crate::bytes::{be_bytes, be_value, lemma_be_value_bound, lemma_pow256_values, pow256, read_uint, write_uint};
use crate::codec::{encoded, lemma_encoded_then, Codec, LengthPrefix};
use crate::error::Error;
use crate::format::{encode_spec, fits, then};
use crate::shape::{Shape, Value, Width};
use crate::varint::{lemma_varint_scan_ok, varint_bytes, varint_decode, Variable};
use vstd::prelude::*;

verus! {

/// The wire form of a packet header: two bytes big-endian with a fixed-width
/// length prefix, a varint otherwise. A header that does not fit two bytes is
/// refused in the fixed-width layout rather than cut short.
pub open spec fn header_bytes(p: LengthPrefix, header: u64) -> Result<Seq<u8>, Error> {
    match p {
        LengthPrefix::Fixed32 => if header > u16::MAX {
            Err(Error::TryFromInt)
        } else {
            Ok(be_bytes(header as nat, 2))
        },
        LengthPrefix::Varint => Ok(varint_bytes(header as nat)),
    }
}

/// The header at the start of `s`: its value and the bytes it took.
pub open spec fn header_decode(p: LengthPrefix, s: Seq<u8>) -> Result<(nat, nat), Error> {
    match p {
        LengthPrefix::Fixed32 => if s.len() < 2 {
            Err(Error::Io)
        } else {
            Ok((be_value(s.subrange(0, 2)), 2))
        },
        LengthPrefix::Varint => varint_decode(s, Width::W64),
    }
}

impl Codec {
    /// Appends a packet: its header, then the record `value` of shape `shape`.
    pub fn encode_packet(&self, header: u64, shape: &Shape, value: &Value, buf: &mut Vec<u8>) -> (r: Result<(), Error>)
        requires
            shape is Record,
            fits(*shape, *value),
        ensures
            encoded(
                r,
                then(header_bytes(self.prefix, header), encode_spec(self.prefix, *shape, value.model())),
                old(buf)@,
                final(buf)@,
            ),
    {
        match self.prefix {
            LengthPrefix::Fixed32 => {
                if header > u16::MAX as u64 {
                    return Err(Error::TryFromInt);
                }
                proof {
                    lemma_pow256_values();
                }
                write_uint(buf, header as u128, Width::W16);
            },
            LengthPrefix::Varint => Variable(header as u128).serialize(buf),
        }
        let ghost mid = buf@;
        let r = self.encode(shape, value, buf);
        proof {
            lemma_encoded_then(r, header_bytes(self.prefix, header), encode_spec(self.prefix, *shape, value.model()), old(buf)@, mid, buf@);
        }
        r
    }

    /// Reads a packet header at `pos`, so that a caller can pick the record
    /// shape to decode the rest with: the header and the position after it.
    pub fn read_header(&self, data: &[u8], pos: usize) -> (r: Result<(u64, usize), Error>)
        requires
            pos <= data@.len(),
        ensures
            match header_decode(self.prefix, data@.subrange(pos as int, data@.len() as int)) {
                Ok((h, k)) => r == Ok::<(u64, usize), Error>((h as u64, (pos + k) as usize)),
                Err(e) => r == Err::<(u64, usize), Error>(e),
            },
    {
        let ghost sfx = data@.subrange(pos as int, data@.len() as int);
        let _len = data.len();
        proof {
            lemma_pow256_values();
        }
        match self.prefix {
            LengthPrefix::Fixed32 => {
                let r = read_uint(data, pos, Width::W16);
                proof {
                    if pos + 2 <= data@.len() {
                        assert(sfx.subrange(0, 2) =~= data@.subrange(pos as int, pos + 2));
                        lemma_be_value_bound(sfx.subrange(0, 2));
                    }
                }
                match r {
                    Ok(h) => Ok((h as u64, pos + 2)),
                    Err(e) => Err(e),
                }
            },
            LengthPrefix::Varint => {
                proof {
                    lemma_varint_scan_ok(sfx, 0, 0, 10, pow256(8));
                }
                match Variable::<u128>::deserialize(data, pos, Width::W64) {
                    Ok((h, next)) => Ok((h.0 as u64, next)),
                    Err(e) => Err(e),
                }
            },
        }
    }
}

} // verus!
