//! Variable-length integers: seven bits per byte, least significant group
//! first, and zigzag folding for signed values.

use crate::bytes::{be_bytes, lemma_pow256_values, pow256, write_u8};
use crate::error::Error;
use crate::shape::Width;
use vstd::prelude::*;
use zigzag::ZigZag;

verus! {

/// Marks an integer that goes on the wire as a varint rather than in its fixed width.
#[derive(Debug, Clone, Copy)]
pub struct Variable<T>(pub T);

/// `128` raised to `n`.
pub open spec fn pow128(n: nat) -> nat
    decreases n,
{
    if n == 0 {
        1
    } else {
        128 * pow128((n - 1) as nat)
    }
}

/// The varint form of `v`: seven bits per byte, least significant group first,
/// the high bit set on every byte but the last.
pub open spec fn varint_bytes(v: nat) -> Seq<u8>
    decreases v,
{
    if v < 128 {
        seq![v as u8]
    } else {
        seq![(v % 128 + 128) as u8] + varint_bytes(v / 128)
    }
}

/// Reading a varint from byte `i` of `s` on, with `acc` gathered from the bytes
/// before it: at most `max` bytes in all, and the value must stay below `bound`.
/// Gives the value and the number of bytes read.
pub open spec fn varint_scan(s: Seq<u8>, i: nat, acc: nat, max: nat, bound: nat) -> Result<(nat, nat), Error>
    decreases max - i,
{
    if i >= s.len() {
        Err(Error::Io)
    } else {
        let acc2 = acc + (s[i as int] % 128) as nat * pow128(i);
        if acc2 >= bound {
            Err(Error::TryFromInt)
        } else if s[i as int] < 128 {
            Ok((acc2, i + 1))
        } else if i + 1 >= max {
            Err(Error::TryFromInt)
        } else {
            varint_scan(s, i + 1, acc2, max, bound)
        }
    }
}

/// The varint at the start of `s`, read into an unsigned integer of width `w`.
pub open spec fn varint_decode(s: Seq<u8>, w: Width) -> Result<(nat, nat), Error> {
    varint_scan(s, 0, 0, w.varint_max(), pow256(w.bytes()))
}

/// Zigzag folding: 0, -1, 1, -2, 2, ... to 0, 1, 2, 3, 4, ...
pub open spec fn zigzag(v: int) -> nat {
    if v >= 0 {
        (2 * v) as nat
    } else {
        (-2 * v - 1) as nat
    }
}

/// The inverse of [`zigzag`].
pub open spec fn unzigzag(u: nat) -> int {
    if u % 2 == 0 {
        (u / 2) as int
    } else {
        -((u + 1) / 2)
    }
}

/// Relies on zigzag's `ZigZag::encode` for `i128`: `(v << 1) ^ (v >> 127)`,
/// which is `2v` for `v >= 0` and `-2v - 1` below.
#[verifier::external_body]
fn zigzag_encode(v: i128) -> (r: u128)
    ensures
        r as nat == zigzag(v as int),
{
    <i128 as ZigZag>::encode(v)
}

/// Relies on zigzag's `ZigZag::decode` for `i128`: `(u >> 1) ^ -(u & 1)`,
/// which is `u / 2` for even `u` and `-(u + 1) / 2` for odd.
#[verifier::external_body]
fn zigzag_decode(u: u128) -> (r: i128)
    ensures
        r as int == unzigzag(u as nat),
{
    <i128 as ZigZag>::decode(u)
}

pub proof fn lemma_unzigzag_zigzag(v: int)
    ensures
        unzigzag(zigzag(v)) == v,
{
}

pub proof fn lemma_pow128_values()
    ensures
        pow128(2) == 0x4000,
        pow128(3) == 0x20_0000,
        pow128(5) == 0x8_0000_0000,
        pow128(10) == 0x40_0000_0000_0000_0000,
        pow128(18) == 0x4000_0000_0000_0000_0000_0000_0000_0000,
        pow128(19) == 0x20_0000_0000_0000_0000_0000_0000_0000_0000,
{
    reveal_with_fuel(pow128, 20);
}

pub proof fn lemma_pow128_monotone(a: nat, b: nat)
    requires
        a <= b,
    ensures
        1 <= pow128(a) <= pow128(b),
    decreases b,
{
    if b > a {
        lemma_pow128_monotone(a, (b - 1) as nat);
    } else if b > 0 {
        lemma_pow128_monotone(0, (b - 1) as nat);
    }
}

/// The varint form of a number below `128^k` takes at most `k` bytes.
pub proof fn lemma_varint_len(v: nat, k: nat)
    requires
        v < pow128(k),
        k >= 1,
    ensures
        1 <= varint_bytes(v).len() <= k,
    decreases v,
{
    if v >= 128 {
        assert(k >= 2) by {
            if k < 2 {
                reveal_with_fuel(pow128, 2);
            }
        }
        assert(v / 128 < pow128((k - 1) as nat)) by {
            assert(pow128(k) == 128 * pow128((k - 1) as nat));
        }
        lemma_varint_len(v / 128, (k - 1) as nat);
    }
}

/// A well-formed varint, read from byte `i` on, gives its value back.
pub proof fn lemma_varint_scan(s: Seq<u8>, i: nat, acc: nat, v: nat, max: nat, bound: nat)
    requires
        i + varint_bytes(v).len() <= s.len(),
        s.subrange(i as int, (i + varint_bytes(v).len()) as int) == varint_bytes(v),
        acc + v * pow128(i) < bound,
        i + varint_bytes(v).len() <= max,
    ensures
        varint_scan(s, i, acc, max, bound) == Ok::<(nat, nat), Error>((acc + v * pow128(i), i + varint_bytes(v).len())),
    decreases v,
{
    let vb = varint_bytes(v);
    assert(s[i as int] == vb[0]);
    if v < 128 {
        assert((s[i as int] % 128) as nat == v);
    } else {
        let rest = varint_bytes(v / 128);
        assert(vb == seq![(v % 128 + 128) as u8] + rest);
        assert((s[i as int] % 128) as nat == v % 128);
        let acc2 = acc + (v % 128) * pow128(i);
        assert(acc2 + (v / 128) * pow128(i + 1) == acc + v * pow128(i)) by (nonlinear_arith)
            requires
                pow128(i + 1) == 128 * pow128(i),
                v == 128 * (v / 128) + v % 128,
                acc2 == acc + (v % 128) * pow128(i),
        ;
        assert((v / 128) * pow128(i + 1) >= 0) by (nonlinear_arith);
        assert(s.subrange((i + 1) as int, (i + 1 + rest.len()) as int) == rest) by {
            assert forall|j: int| 0 <= j < rest.len() implies s.subrange((i + 1) as int, (i + 1 + rest.len()) as int)[j] == rest[j] by {
                assert(s[i + 1 + j] == vb[1 + j]);
            }
        }
        lemma_varint_scan(s, i + 1, acc2, v / 128, max, bound);
    }
}

/// A varint cut short, read from byte `i` on, fails for want of bytes.
pub proof fn lemma_varint_scan_truncated(s: Seq<u8>, i: nat, acc: nat, v: nat, max: nat, bound: nat)
    requires
        i <= s.len() < i + varint_bytes(v).len(),
        s.subrange(i as int, s.len() as int) == varint_bytes(v).subrange(0, s.len() - i),
        acc + v * pow128(i) < bound,
        i + varint_bytes(v).len() <= max,
    ensures
        varint_scan(s, i, acc, max, bound) == Err::<(nat, nat), Error>(Error::Io),
    decreases v,
{
    if i < s.len() {
        let vb = varint_bytes(v);
        assert(s[i as int] == s.subrange(i as int, s.len() as int)[0]);
        assert(s[i as int] == vb[0]);
        assert(v >= 128);
        let rest = varint_bytes(v / 128);
        assert(vb == seq![(v % 128 + 128) as u8] + rest);
        let acc2 = acc + (v % 128) * pow128(i);
        assert(acc2 + (v / 128) * pow128(i + 1) == acc + v * pow128(i)) by (nonlinear_arith)
            requires
                pow128(i + 1) == 128 * pow128(i),
                v == 128 * (v / 128) + v % 128,
                acc2 == acc + (v % 128) * pow128(i),
        ;
        assert((v / 128) * pow128(i + 1) >= 0) by (nonlinear_arith);
        assert((s[i as int] % 128) as nat == v % 128);
        assert(s.subrange((i + 1) as int, s.len() as int) =~= rest.subrange(0, s.len() - i - 1)) by {
            assert forall|j: int| 0 <= j < s.len() - i - 1 implies #[trigger] s.subrange((i + 1) as int, s.len() as int)[j]
                == rest.subrange(0, s.len() - i - 1)[j] by {
                assert(s[i + 1 + j] == s.subrange(i as int, s.len() as int)[1 + j]);
                assert(vb[1 + j] == rest[j]);
            }
        }
        lemma_varint_scan_truncated(s, i + 1, acc2, v / 128, max, bound);
    }
}

/// The first `k` bytes of the varint form of a value of width `w`, fewer than
/// all of them, fail to read for want of bytes.
pub proof fn lemma_varint_truncated(v: nat, w: Width, k: int)
    requires
        v < pow256(w.bytes()),
        0 <= k < varint_bytes(v).len(),
    ensures
        varint_decode(varint_bytes(v).subrange(0, k), w) == Err::<(nat, nat), Error>(Error::Io),
{
    lemma_width_fits_varint(w);
    lemma_varint_len(v, w.varint_max());
    let s = varint_bytes(v).subrange(0, k);
    assert(s.subrange(0, k) =~= varint_bytes(v).subrange(0, k));
    assert(pow128(0) == 1);
    lemma_varint_scan_truncated(s, 0, 0, v, w.varint_max(), pow256(w.bytes()));
}

/// Width `w`'s values fit the varint byte limit of `w`.
pub proof fn lemma_width_fits_varint(w: Width)
    ensures
        pow256(w.bytes()) <= pow128(w.varint_max()),
{
    lemma_pow256_values();
    lemma_pow128_values();
}

/// Reading back the varint form of a value of width `w` gives the value.
pub proof fn lemma_varint_round_trip(v: nat, w: Width, rest: Seq<u8>)
    requires
        v < pow256(w.bytes()),
    ensures
        varint_decode(varint_bytes(v) + rest, w) == Ok::<(nat, nat), Error>((v, varint_bytes(v).len())),
{
    lemma_width_fits_varint(w);
    lemma_varint_len(v, w.varint_max());
    let s = varint_bytes(v) + rest;
    assert(s.subrange(0, varint_bytes(v).len() as int) == varint_bytes(v));
    assert(pow128(0) == 1);
    lemma_varint_scan(s, 0, 0, v, w.varint_max(), pow256(w.bytes()));
}

/// The largest value of width `w`.
pub fn width_max(w: Width) -> (r: u128)
    ensures
        r as nat == pow256(w.bytes()) - 1,
{
    proof {
        lemma_pow256_values();
    }
    match w {
        Width::W8 => 0xff,
        Width::W16 => 0xffff,
        Width::W32 => 0xffff_ffff,
        Width::W64 => 0xffff_ffff_ffff_ffff,
        Width::W128 => 0xffff_ffff_ffff_ffff_ffff_ffff_ffff_ffff,
    }
}

/// A varint that reads without error stays below the bound and within the bytes.
pub proof fn lemma_varint_scan_ok(s: Seq<u8>, i: nat, acc: nat, max: nat, bound: nat)
    ensures
        match varint_scan(s, i, acc, max, bound) {
            Ok((v, n)) => v < bound && i < n <= s.len(),
            Err(_) => true,
        },
    decreases max - i,
{
    if i < s.len() {
        let acc2 = acc + (s[i as int] % 128) as nat * pow128(i);
        if acc2 < bound && s[i as int] >= 128 && i + 1 < max {
            lemma_varint_scan_ok(s, i + 1, acc2, max, bound);
        }
    }
}

impl Variable<u128> {
    /// Appends the varint form of the value.
    pub fn serialize(&self, buf: &mut Vec<u8>)
        ensures
            final(buf)@ == old(buf)@ + varint_bytes(self.0 as nat),
    {
        let v = self.0;
        let mut x: u128 = v;
        while x >= 128
            invariant
                buf@ + varint_bytes(x as nat) == old(buf)@ + varint_bytes(v as nat),
            decreases x,
        {
            let b: u8 = (x % 128 + 128) as u8;
            let ghost before = buf@;
            let _ = write_u8(buf, b);
            proof {
                reveal_with_fuel(be_bytes, 2);
                assert(varint_bytes(x as nat) == seq![b] + varint_bytes((x / 128) as nat));
                assert(before + varint_bytes(x as nat) == buf@ + varint_bytes((x / 128) as nat));
            }
            x = x / 128;
        }
        let ghost before = buf@;
        let _ = write_u8(buf, x as u8);
        proof {
            reveal_with_fuel(be_bytes, 2);
            assert(buf@ == before + varint_bytes(x as nat));
        }
    }

    /// Reads a varint of width `w` at `pos`: the value and the position after it.
    pub fn deserialize(data: &[u8], pos: usize, w: Width) -> (r: Result<(Variable<u128>, usize), Error>)
        requires
            pos <= data@.len(),
        ensures
            r == match varint_decode(data@.subrange(pos as int, data@.len() as int), w) {
                Ok((v, n)) => Ok::<(Variable<u128>, usize), Error>((Variable(v as u128), (pos + n) as usize)),
                Err(e) => Err(e),
            },
    {
        let ghost s = data@.subrange(pos as int, data@.len() as int);
        let ghost bound = pow256(w.bytes());
        let max = w.varint_limit();
        let top = width_max(w);
        let mut acc: u128 = 0;
        let mut p: u128 = 1;
        let mut i: usize = 0;
        proof {
            lemma_pow128_values();
            lemma_pow256_values();
            assert(pow128(0) == 1);
        }
        loop
            invariant
                pos <= data@.len(),
                s == data@.subrange(pos as int, data@.len() as int),
                bound == pow256(w.bytes()),
                top as nat == bound - 1,
                max == w.varint_max(),
                max <= 19,
                i < max,
                acc < bound,
                p as nat == pow128(i as nat),
                pow128(18) == 0x4000_0000_0000_0000_0000_0000_0000_0000,
                varint_decode(s, w) == varint_scan(s, i as nat, acc as nat, max as nat, bound),
            decreases max - i,
        {
            if i >= data.len() - pos {
                return Err(Error::Io);
            }
            let b = data[pos + i];
            assert(s[i as int] == b);
            let d: u128 = (b % 128) as u128;
            let room: u128 = top - acc;
            if d != 0 && room / d < p {
                proof {
                    assert(d * p > room) by (nonlinear_arith)
                        requires
                            d > 0,
                            room / d < p,
                    ;
                }
                return Err(Error::TryFromInt);
            }
            proof {
                assert(d * p <= room) by (nonlinear_arith)
                    requires
                        d == 0 || room / d >= p,
                        room >= 0,
                ;
            }
            acc = acc + d * p;
            if b < 128 {
                return Ok((Variable(acc), pos + i + 1));
            }
            if i + 1 >= max {
                return Err(Error::TryFromInt);
            }
            proof {
                lemma_pow128_monotone((i + 1) as nat, 18);
            }
            i = i + 1;
            p = p * 128;
        }
    }
}

impl Variable<i128> {
    /// Appends the varint form of the value folded by zigzag.
    pub fn serialize(&self, buf: &mut Vec<u8>)
        ensures
            final(buf)@ == old(buf)@ + varint_bytes(zigzag(self.0 as int)),
    {
        Variable(zigzag_encode(self.0)).serialize(buf);
    }

    /// Reads a zigzag-folded varint of width `w` at `pos`: the value and the position after it.
    pub fn deserialize(data: &[u8], pos: usize, w: Width) -> (r: Result<(Variable<i128>, usize), Error>)
        requires
            pos <= data@.len(),
        ensures
            r == match varint_decode(data@.subrange(pos as int, data@.len() as int), w) {
                Ok((v, n)) => Ok::<(Variable<i128>, usize), Error>((Variable(unzigzag(v) as i128), (pos + n) as usize)),
                Err(e) => Err(e),
            },
    {
        proof {
            let sfx = data@.subrange(pos as int, data@.len() as int);
            lemma_varint_scan_ok(sfx, 0, 0, w.varint_max(), pow256(w.bytes()));
            lemma_pow256_values();
        }
        match Variable::<u128>::deserialize(data, pos, w) {
            Ok((u, next)) => Ok((Variable(zigzag_decode(u.0)), next)),
            Err(e) => Err(e),
        }
    }
}

} // verus!
