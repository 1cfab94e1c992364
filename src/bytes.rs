//! Fixed-width big-endian integers, read and written through lbytes.

use crate::error::Error;
use crate::shape::Width;
use lbytes::{BytesReadExt, BytesWriteExt};
use lbytes::Error as LbytesError;
use vstd::prelude::*;

verus! {

/// `256` raised to `n`.
pub open spec fn pow256(n: nat) -> nat
    decreases n,
{
    if n == 0 {
        1
    } else {
        256 * pow256((n - 1) as nat)
    }
}

/// The low `n` bytes of `v`, most significant first.
pub open spec fn be_bytes(v: nat, n: nat) -> Seq<u8>
    decreases n,
{
    if n == 0 {
        Seq::empty()
    } else {
        be_bytes(v / 256, (n - 1) as nat).push((v % 256) as u8)
    }
}

/// The number that `s` spells, most significant byte first.
pub open spec fn be_value(s: Seq<u8>) -> nat
    decreases s.len(),
{
    if s.len() == 0 {
        0
    } else {
        be_value(s.drop_last()) * 256 + (s.last() as nat)
    }
}

pub proof fn lemma_pow256_values()
    ensures
        pow256(1) == 0x100,
        pow256(2) == 0x1_0000,
        pow256(4) == 0x1_0000_0000,
        pow256(8) == 0x1_0000_0000_0000_0000,
        pow256(16) == 0x1_0000_0000_0000_0000_0000_0000_0000_0000,
{
    reveal_with_fuel(pow256, 17);
}

pub proof fn lemma_pow256_positive(n: nat)
    ensures
        pow256(n) > 0,
    decreases n,
{
    if n > 0 {
        lemma_pow256_positive((n - 1) as nat);
    }
}

/// Writing the low `n` bytes of `v` and reading them back gives `v` modulo `256^n`.
pub proof fn lemma_be_round_trip(v: nat, n: nat)
    ensures
        be_bytes(v, n).len() == n,
        be_value(be_bytes(v, n)) == v % pow256(n),
    decreases n,
{
    if n == 0 {
    } else {
        let m = (n - 1) as nat;
        lemma_be_round_trip(v / 256, m);
        lemma_pow256_positive(m);
        let s = be_bytes(v, n);
        assert(s.drop_last() == be_bytes(v / 256, m));
        vstd::arithmetic::div_mod::lemma_mod_breakdown(v as int, 256, pow256(m) as int);
    }
}

/// A run of `n` bytes spells a number below `256^n`.
pub proof fn lemma_be_value_bound(s: Seq<u8>)
    ensures
        be_value(s) < pow256(s.len()),
    decreases s.len(),
{
    if s.len() > 0 {
        lemma_be_value_bound(s.drop_last());
        let a = be_value(s.drop_last());
        let p = pow256((s.len() - 1) as nat);
        assert(a * 256 + (s.last() as nat) < 256 * p) by (nonlinear_arith)
            requires
                a < p,
                s.last() < 256,
        ;
    }
}

#[verifier::external_type_specification]
#[verifier::external_body]
pub struct ExLbytesError(LbytesError);

/// Relies on lbytes' `BytesWriteExt::write_u8`: on a `Vec<u8>` it appends
/// the 1-byte big-endian form (std's `Write` for `Vec<u8>` appends and never fails).
#[verifier::external_body]
pub(crate) fn write_u8(buf: &mut Vec<u8>, v: u8) -> (r: Result<(), LbytesError>)
    ensures
        r is Ok,
        final(buf)@ == old(buf)@ + be_bytes(v as nat, 1),
{
    buf.write_u8(v)
}

/// Relies on lbytes' `BytesReadExt::read_u8`: it reads 1 bytes as a big-endian
/// number, and fails where fewer than 1 are left.
#[verifier::external_body]
fn read_u8(data: &[u8], pos: usize) -> (r: Result<u8, LbytesError>)
    requires
        pos <= data@.len(),
    ensures
        match r {
            Ok(v) => pos + 1 <= data@.len() && v as nat == be_value(data@.subrange(pos as int, pos + 1)),
            Err(_) => pos + 1 > data@.len(),
        },
{
    std::io::Cursor::new(&data[pos..]).read_u8()
}

/// Relies on lbytes' `BytesWriteExt::write_u16`: on a `Vec<u8>` it appends
/// the 2-byte big-endian form (std's `Write` for `Vec<u8>` appends and never fails).
#[verifier::external_body]
fn write_u16(buf: &mut Vec<u8>, v: u16) -> (r: Result<(), LbytesError>)
    ensures
        r is Ok,
        final(buf)@ == old(buf)@ + be_bytes(v as nat, 2),
{
    buf.write_u16(v)
}

/// Relies on lbytes' `BytesReadExt::read_u16`: it reads 2 bytes as a big-endian
/// number, and fails where fewer than 2 are left.
#[verifier::external_body]
fn read_u16(data: &[u8], pos: usize) -> (r: Result<u16, LbytesError>)
    requires
        pos <= data@.len(),
    ensures
        match r {
            Ok(v) => pos + 2 <= data@.len() && v as nat == be_value(data@.subrange(pos as int, pos + 2)),
            Err(_) => pos + 2 > data@.len(),
        },
{
    std::io::Cursor::new(&data[pos..]).read_u16()
}

/// Relies on lbytes' `BytesWriteExt::write_u32`: on a `Vec<u8>` it appends
/// the 4-byte big-endian form (std's `Write` for `Vec<u8>` appends and never fails).
#[verifier::external_body]
fn write_u32(buf: &mut Vec<u8>, v: u32) -> (r: Result<(), LbytesError>)
    ensures
        r is Ok,
        final(buf)@ == old(buf)@ + be_bytes(v as nat, 4),
{
    buf.write_u32(v)
}

/// Relies on lbytes' `BytesReadExt::read_u32`: it reads 4 bytes as a big-endian
/// number, and fails where fewer than 4 are left.
#[verifier::external_body]
fn read_u32(data: &[u8], pos: usize) -> (r: Result<u32, LbytesError>)
    requires
        pos <= data@.len(),
    ensures
        match r {
            Ok(v) => pos + 4 <= data@.len() && v as nat == be_value(data@.subrange(pos as int, pos + 4)),
            Err(_) => pos + 4 > data@.len(),
        },
{
    std::io::Cursor::new(&data[pos..]).read_u32()
}

/// Relies on lbytes' `BytesWriteExt::write_u64`: on a `Vec<u8>` it appends
/// the 8-byte big-endian form (std's `Write` for `Vec<u8>` appends and never fails).
#[verifier::external_body]
fn write_u64(buf: &mut Vec<u8>, v: u64) -> (r: Result<(), LbytesError>)
    ensures
        r is Ok,
        final(buf)@ == old(buf)@ + be_bytes(v as nat, 8),
{
    buf.write_u64(v)
}

/// Relies on lbytes' `BytesReadExt::read_u64`: it reads 8 bytes as a big-endian
/// number, and fails where fewer than 8 are left.
#[verifier::external_body]
fn read_u64(data: &[u8], pos: usize) -> (r: Result<u64, LbytesError>)
    requires
        pos <= data@.len(),
    ensures
        match r {
            Ok(v) => pos + 8 <= data@.len() && v as nat == be_value(data@.subrange(pos as int, pos + 8)),
            Err(_) => pos + 8 > data@.len(),
        },
{
    std::io::Cursor::new(&data[pos..]).read_u64()
}

/// Relies on lbytes' `BytesWriteExt::write_u128`: on a `Vec<u8>` it appends
/// the 16-byte big-endian form (std's `Write` for `Vec<u8>` appends and never fails).
#[verifier::external_body]
fn write_u128(buf: &mut Vec<u8>, v: u128) -> (r: Result<(), LbytesError>)
    ensures
        r is Ok,
        final(buf)@ == old(buf)@ + be_bytes(v as nat, 16),
{
    buf.write_u128(v)
}

/// Relies on lbytes' `BytesReadExt::read_u128`: it reads 16 bytes as a big-endian
/// number, and fails where fewer than 16 are left.
#[verifier::external_body]
fn read_u128(data: &[u8], pos: usize) -> (r: Result<u128, LbytesError>)
    requires
        pos <= data@.len(),
    ensures
        match r {
            Ok(v) => pos + 16 <= data@.len() && v as nat == be_value(data@.subrange(pos as int, pos + 16)),
            Err(_) => pos + 16 > data@.len(),
        },
{
    std::io::Cursor::new(&data[pos..]).read_u128()
}

/// Appends the big-endian form of `v` in `w.bytes()` bytes.
pub fn write_uint(buf: &mut Vec<u8>, v: u128, w: Width)
    requires
        v < pow256(w.bytes()),
    ensures
        final(buf)@ == old(buf)@ + be_bytes(v as nat, w.bytes()),
{
    proof {
        lemma_pow256_values();
    }
    let _ = match w {
        Width::W8 => write_u8(buf, v as u8),
        Width::W16 => write_u16(buf, v as u16),
        Width::W32 => write_u32(buf, v as u32),
        Width::W64 => write_u64(buf, v as u64),
        Width::W128 => write_u128(buf, v),
    };
}

/// Reads a big-endian number of `w.bytes()` bytes at `pos`.
pub fn read_uint(data: &[u8], pos: usize, w: Width) -> (r: Result<u128, Error>)
    requires
        pos <= data@.len(),
    ensures
        pos + w.bytes() <= data@.len() ==> r == Ok::<u128, Error>(
            be_value(data@.subrange(pos as int, pos + w.bytes())) as u128,
        ),
        pos + w.bytes() > data@.len() ==> r == Err::<u128, Error>(Error::Io),
{
    let r = match w {
        Width::W8 => match read_u8(data, pos) {
            Ok(v) => Ok(v as u128),
            Err(_) => Err(Error::Io),
        },
        Width::W16 => match read_u16(data, pos) {
            Ok(v) => Ok(v as u128),
            Err(_) => Err(Error::Io),
        },
        Width::W32 => match read_u32(data, pos) {
            Ok(v) => Ok(v as u128),
            Err(_) => Err(Error::Io),
        },
        Width::W64 => match read_u64(data, pos) {
            Ok(v) => Ok(v as u128),
            Err(_) => Err(Error::Io),
        },
        Width::W128 => match read_u128(data, pos) {
            Ok(v) => Ok(v),
            Err(_) => Err(Error::Io),
        },
    };
    r
}

} // verus!
