//! The wire format as mathematics: which values fit which shapes, the bytes
//! each value encodes to, and what decoding a byte sequence gives.

use crate::bytes::{be_bytes, be_value, pow256};
use crate::codec::LengthPrefix;
use crate::error::Error;
use crate::shape::{Model, Shape, Value, VariantShape, Width};
use crate::varint::{unzigzag, varint_bytes, varint_decode, zigzag};
use vstd::prelude::*;
use vstd::utf8::{decode_utf8, encode_utf8, valid_utf8};

verus! {

/// Half the range of a signed integer of width `w`: values lie in `[-half, half)`.
pub open spec fn half(w: Width) -> nat {
    pow256(w.bytes()) / 2
}

/// The two's-complement form of `v` in width `w`.
pub open spec fn twos(v: int, w: Width) -> nat {
    if v >= 0 {
        v as nat
    } else {
        (v + pow256(w.bytes())) as nat
    }
}

/// The signed number whose two's-complement form in width `w` is `u`.
pub open spec fn from_twos(u: nat, w: Width) -> int {
    if u < half(w) {
        u as int
    } else {
        u - pow256(w.bytes())
    }
}

/// Whether `v` is a value of `shape`: of the right kind, in range, with the
/// right number of fields, elements or a variant that the union has.
pub open spec fn fits(shape: Shape, v: Value) -> bool
    decreases v,
{
    match (shape, v) {
        (Shape::Unsigned(w), Value::Unsigned(x)) => x < pow256(w.bytes()),
        (Shape::VarUnsigned(w), Value::Unsigned(x)) => x < pow256(w.bytes()),
        (Shape::Signed(w), Value::Signed(x)) => -half(w) <= x < half(w),
        (Shape::VarSigned(w), Value::Signed(x)) => -half(w) <= x < half(w),
        (Shape::Bool, Value::Bool(_)) => true,
        (Shape::Text, Value::Text(_)) => true,
        (Shape::Optional(e), Value::Optional(o)) => match o {
            None => true,
            Some(x) => fits(*e, *x),
        },
        (Shape::Sequence(e), Value::List(vs)) => forall|i: int|
            0 <= i < vs@.len() ==> fits(*e, #[trigger] vs@[i]),
        (Shape::Array(e, n), Value::List(vs)) => vs@.len() == n && forall|i: int|
            0 <= i < vs@.len() ==> fits(*e, #[trigger] vs@[i]),
        (Shape::Record(fs), Value::Record(vs)) => vs@.len() == fs@.len() && forall|i: int|
            0 <= i < vs@.len() ==> fits(fs@[i], #[trigger] vs@[i]),
        (Shape::Union(vars), Value::Variant(k, vs)) => k < vars@.len() && vs@.len()
            == vars@[k as int].fields@.len() && forall|i: int|
            0 <= i < vs@.len() ==> fits(vars@[k as int].fields@[i], #[trigger] vs@[i]),
        _ => false,
    }
}

/// Whether every union inside `shape` gives each variant its own discriminant.
pub open spec fn wf(shape: Shape) -> bool
    decreases shape,
{
    match shape {
        Shape::Optional(e) => wf(*e),
        Shape::Sequence(e) => wf(*e),
        Shape::Array(e, _) => wf(*e),
        Shape::Record(fs) => forall|i: int| 0 <= i < fs@.len() ==> wf(#[trigger] fs@[i]),
        Shape::Union(vars) => distinct_discriminants(vars@) && forall|i: int, j: int|
            0 <= i < vars@.len() && 0 <= j < vars@[i].fields@.len() ==> wf(
                #[trigger] vars@[i].fields@[j],
            ),
        _ => true,
    }
}

/// No two variants share a discriminant.
pub open spec fn distinct_discriminants(vars: Seq<VariantShape>) -> bool {
    forall|i: int, j: int|
        0 <= i < j < vars.len() ==> #[trigger] vars[i].discriminant != #[trigger] vars[j].discriminant
}

/// The index of the first variant with discriminant `d`, searching from `i`.
pub open spec fn find_variant(vars: Seq<VariantShape>, d: u16, i: nat) -> Option<nat>
    decreases vars.len() - i,
{
    if i >= vars.len() {
        None
    } else if vars[i as int].discriminant == d {
        Some(i)
    } else {
        find_variant(vars, d, i + 1)
    }
}

/// A variant that the search finds is one of the union's.
pub proof fn lemma_find_variant(vars: Seq<VariantShape>, d: u16, i: nat)
    ensures
        match find_variant(vars, d, i) {
            Some(k) => i <= k < vars.len() && vars[k as int].discriminant == d && forall|j: int|
                i <= j < k ==> #[trigger] vars[j].discriminant != d,
            None => forall|j: int| i <= j < vars.len() ==> #[trigger] vars[j].discriminant != d,
        },
    decreases vars.len() - i,
{
    if i < vars.len() && vars[i as int].discriminant != d {
        lemma_find_variant(vars, d, i + 1);
    }
}

/// The length prefix for a length of `n`.
pub open spec fn prefix_bytes(p: LengthPrefix, n: nat) -> Result<Seq<u8>, Error> {
    if n > u32::MAX {
        Err(Error::TryFromInt)
    } else {
        match p {
            LengthPrefix::Fixed32 => Ok(be_bytes(n, 4)),
            LengthPrefix::Varint => Ok(varint_bytes(n)),
        }
    }
}

/// The length prefix at the start of `s`: the length and the bytes it took.
pub open spec fn prefix_decode(p: LengthPrefix, s: Seq<u8>) -> Result<(nat, nat), Error> {
    match p {
        LengthPrefix::Fixed32 => if s.len() < 4 {
            Err(Error::Io)
        } else {
            Ok((be_value(s.subrange(0, 4)), 4))
        },
        LengthPrefix::Varint => varint_decode(s, Width::W32),
    }
}

/// `a` followed by `b`, or the first error.
pub open spec fn then(a: Result<Seq<u8>, Error>, b: Result<Seq<u8>, Error>) -> Result<Seq<u8>, Error> {
    match a {
        Err(e) => Err(e),
        Ok(x) => match b {
            Err(e) => Err(e),
            Ok(y) => Ok(x + y),
        },
    }
}

/// The wire form of a value whose model is `m` and whose shape is `shape`.
pub open spec fn encode_spec(p: LengthPrefix, shape: Shape, m: Model) -> Result<Seq<u8>, Error>
    decreases m,
{
    match (shape, m) {
        (Shape::Unsigned(w), Model::Int(x)) => Ok(be_bytes(x as nat, w.bytes())),
        (Shape::Signed(w), Model::Int(x)) => Ok(be_bytes(twos(x, w), w.bytes())),
        (Shape::VarUnsigned(_), Model::Int(x)) => Ok(varint_bytes(x as nat)),
        (Shape::VarSigned(_), Model::Int(x)) => Ok(varint_bytes(zigzag(x))),
        (Shape::Bool, Model::Bool(b)) => Ok(seq![if b { 1u8 } else { 0u8 }]),
        (Shape::Text, Model::Text(cs)) => then(
            prefix_bytes(p, encode_utf8(cs).len()),
            Ok(encode_utf8(cs)),
        ),
        (Shape::Optional(_), Model::Absent) => Ok(seq![0u8]),
        (Shape::Optional(e), Model::Present(x)) => then(Ok(seq![1u8]), encode_spec(p, *e, *x)),
        (Shape::Sequence(e), Model::List(ms)) => then(
            prefix_bytes(p, ms.len()),
            encode_all(p, Seq::new(ms.len(), |i: int| *e), ms),
        ),
        (Shape::Array(e, _), Model::List(ms)) => then(
            prefix_bytes(p, ms.len()),
            encode_all(p, Seq::new(ms.len(), |i: int| *e), ms),
        ),
        (Shape::Record(fs), Model::Record(ms)) => encode_all(p, fs@, ms),
        (Shape::Union(vars), Model::Variant(k, ms)) => then(
            Ok(be_bytes(vars@[k as int].discriminant as nat, 2)),
            encode_all(p, vars@[k as int].fields@, ms),
        ),
        // A model of another kind is no value of the shape; `fits` rules it out.
        _ => Err(Error::Io),
    }
}

/// The wire forms of `ms`, each in the shape at the same place of `fs`, one after another.
pub open spec fn encode_all(p: LengthPrefix, fs: Seq<Shape>, ms: Seq<Model>) -> Result<Seq<u8>, Error>
    decreases ms,
{
    if ms.len() == 0 {
        Ok(Seq::empty())
    } else {
        then(
            encode_all(p, fs.subrange(0, ms.len() - 1), ms.drop_last()),
            encode_spec(p, fs[ms.len() - 1], ms.last()),
        )
    }
}

/// Decoding a value of `shape` from the start of `s`: its model and the bytes taken.
pub open spec fn decode_spec(p: LengthPrefix, shape: Shape, s: Seq<u8>) -> Result<(Model, nat), Error>
    decreases shape, 0nat,
    via decode_spec_decreases
{
    match shape {
        Shape::Unsigned(w) => if s.len() < w.bytes() {
            Err(Error::Io)
        } else {
            Ok((Model::Int(be_value(s.subrange(0, w.bytes() as int)) as int), w.bytes()))
        },
        Shape::Signed(w) => if s.len() < w.bytes() {
            Err(Error::Io)
        } else {
            Ok(
                (
                    Model::Int(from_twos(be_value(s.subrange(0, w.bytes() as int)), w)),
                    w.bytes(),
                ),
            )
        },
        Shape::VarUnsigned(w) => match varint_decode(s, w) {
            Ok((x, n)) => Ok((Model::Int(x as int), n)),
            Err(e) => Err(e),
        },
        Shape::VarSigned(w) => match varint_decode(s, w) {
            Ok((x, n)) => Ok((Model::Int(unzigzag(x)), n)),
            Err(e) => Err(e),
        },
        Shape::Bool => if s.len() < 1 {
            Err(Error::Io)
        } else {
            Ok((Model::Bool(s[0] != 0), 1))
        },
        Shape::Text => match prefix_decode(p, s) {
            Err(e) => Err(e),
            Ok((len, k)) => if s.len() < k + len {
                Err(Error::Io)
            } else if !valid_utf8(s.subrange(k as int, (k + len) as int)) {
                Err(Error::FromUtf8Error)
            } else {
                Ok((Model::Text(decode_utf8(s.subrange(k as int, (k + len) as int))), k + len))
            },
        },
        Shape::Optional(e) => if s.len() < 1 {
            Err(Error::Io)
        } else if s[0] == 0 {
            Ok((Model::Absent, 1))
        } else {
            match decode_spec(p, *e, s.subrange(1, s.len() as int)) {
                Ok((x, n)) => Ok((Model::Present(Box::new(x)), n + 1)),
                Err(e) => Err(e),
            }
        },
        Shape::Sequence(e) => match prefix_decode(p, s) {
            Err(e) => Err(e),
            Ok((len, k)) => match decode_repeat(p, *e, s.subrange(k as int, s.len() as int), len) {
                Ok((ms, n)) => Ok((Model::List(ms), k + n)),
                Err(e) => Err(e),
            },
        },
        Shape::Array(e, size) => match prefix_decode(p, s) {
            Err(e) => Err(e),
            Ok((len, k)) => if len != size {
                Err(Error::ArrayLength(len as u32))
            } else {
                match decode_repeat(p, *e, s.subrange(k as int, s.len() as int), len) {
                    Ok((ms, n)) => Ok((Model::List(ms), k + n)),
                    Err(e) => Err(e),
                }
            },
        },
        Shape::Record(fs) => match decode_all(p, fs@, s) {
            Ok((ms, n)) => Ok((Model::Record(ms), n)),
            Err(e) => Err(e),
        },
        Shape::Union(vars) => if s.len() < 2 {
            Err(Error::Io)
        } else {
            let d = be_value(s.subrange(0, 2)) as u16;
            match find_variant(vars@, d, 0) {
                None => Err(Error::InvalidPacketData(d)),
                Some(k) => match decode_all(
                    p,
                    vars@[k as int].fields@,
                    s.subrange(2, s.len() as int),
                ) {
                    Ok((ms, n)) => Ok((Model::Variant(k, ms), n + 2)),
                    Err(e) => Err(e),
                },
            }
        },
    }
}

#[via_fn]
proof fn decode_spec_decreases(p: LengthPrefix, shape: Shape, s: Seq<u8>) {
    match shape {
        Shape::Union(vars) => {
            if s.len() >= 2 {
                lemma_find_variant(vars@, be_value(s.subrange(0, 2)) as u16, 0);
            }
        },
        _ => {},
    }
}

/// Decoding one value of each shape in `fs`, one after another, from the start of `s`.
pub open spec fn decode_all(p: LengthPrefix, fs: Seq<Shape>, s: Seq<u8>) -> Result<(Seq<Model>, nat), Error>
    decreases fs, 0nat,
{
    if fs.len() == 0 {
        Ok((Seq::empty(), 0))
    } else {
        match decode_all(p, fs.drop_last(), s) {
            Err(e) => Err(e),
            Ok((ms, n)) => if n > s.len() {
                Err(Error::Io)
            } else {
                match decode_spec(p, fs.last(), s.subrange(n as int, s.len() as int)) {
                    Err(e) => Err(e),
                    Ok((m, k)) => Ok((ms.push(m), n + k)),
                }
            },
        }
    }
}

/// Decoding `count` values of shape `e`, one after another, from the start of `s`.
pub open spec fn decode_repeat(p: LengthPrefix, e: Shape, s: Seq<u8>, count: nat) -> Result<(Seq<Model>, nat), Error>
    decreases e, count + 1,
{
    if count == 0 {
        Ok((Seq::empty(), 0))
    } else {
        match decode_repeat(p, e, s, (count - 1) as nat) {
            Err(err) => Err(err),
            Ok((ms, n)) => if n > s.len() {
                Err(Error::Io)
            } else {
                match decode_spec(p, e, s.subrange(n as int, s.len() as int)) {
                    Err(err) => Err(err),
                    Ok((m, k)) => Ok((ms.push(m), n + k)),
                }
            },
        }
    }
}

} // verus!
