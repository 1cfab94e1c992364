//! Properties of the wire format: values read back as written, a cut-short
//! input fails with the I/O error, an unknown discriminant gets its own error, and
//! encoding is deterministic.

use crate::bytes::{be_bytes, be_value, lemma_be_round_trip, lemma_pow256_positive, lemma_pow256_values, pow256};
use crate::codec::{encoded, LengthPrefix};
use crate::format::{
    decode_all, decode_repeat, decode_spec, distinct_discriminants, encode_all, encode_spec, find_variant, fits,
    from_twos, lemma_find_variant, prefix_bytes, prefix_decode, twos, wf,
};
use crate::packet::{header_bytes, header_decode};
use crate::error::Error;
use crate::shape::{models, Model, Shape, Value, VariantShape, Width};
use crate::varint::{lemma_unzigzag_zigzag, lemma_varint_round_trip, lemma_varint_truncated, zigzag};
use vstd::prelude::*;
use vstd::utf8::{encode_utf8, encode_utf8_decode_utf8, encode_utf8_valid_utf8};

verus! {

/// Decoding the wire form of `v`, followed by `rest`, gives back the model of
/// `v` and stops where the wire form ends.
pub open spec fn reads_back(p: LengthPrefix, shape: Shape, v: Value, rest: Seq<u8>) -> bool {
    decode_spec(p, shape, encode_spec(p, shape, v.model())->Ok_0 + rest) == Ok::<(Model, nat), Error>(
        (v.model(), encode_spec(p, shape, v.model())->Ok_0.len()),
    )
}

/// A length prefix reads back as the length it was written for.
pub proof fn lemma_prefix_round_trip(p: LengthPrefix, n: nat, rest: Seq<u8>)
    requires
        n <= u32::MAX,
    ensures
        prefix_bytes(p, n) is Ok,
        prefix_decode(p, prefix_bytes(p, n)->Ok_0 + rest) == Ok::<(nat, nat), Error>(
            (n, prefix_bytes(p, n)->Ok_0.len()),
        ),
{
    lemma_pow256_values();
    match p {
        LengthPrefix::Fixed32 => {
            let b = be_bytes(n, 4);
            lemma_be_round_trip(n, 4);
            assert((b + rest).subrange(0, 4) =~= b);
            vstd::arithmetic::div_mod::lemma_small_mod(n, pow256(4));
        },
        LengthPrefix::Varint => {
            lemma_varint_round_trip(n, Width::W32, rest);
        },
    }
}

/// A fixed-width integer reads back as the number it was written for.
proof fn lemma_fixed_round_trip(x: nat, w: Width, rest: Seq<u8>)
    requires
        x < pow256(w.bytes()),
    ensures
        be_bytes(x, w.bytes()).len() == w.bytes(),
        (be_bytes(x, w.bytes()) + rest).len() >= w.bytes(),
        be_value((be_bytes(x, w.bytes()) + rest).subrange(0, w.bytes() as int)) == x,
{
    let b = be_bytes(x, w.bytes());
    lemma_be_round_trip(x, w.bytes());
    assert((b + rest).subrange(0, w.bytes() as int) =~= b);
    vstd::arithmetic::div_mod::lemma_small_mod(x, pow256(w.bytes()));
}

/// The first variant with the discriminant of variant `k` is `k` itself, where
/// discriminants are distinct.
proof fn lemma_find_distinct(vars: Seq<VariantShape>, k: int)
    requires
        0 <= k < vars.len(),
        distinct_discriminants(vars),
    ensures
        find_variant(vars, vars[k].discriminant, 0) == Some(k as nat),
{
    lemma_find_variant(vars, vars[k].discriminant, 0);
}

/// Decoding the wire form of a value of a well-formed shape, followed by any
/// bytes, gives back the value's model and stops where its wire form ends.
pub proof fn lemma_round_trip(p: LengthPrefix, shape: Shape, v: Value, rest: Seq<u8>)
    requires
        wf(shape),
        fits(shape, v),
        encode_spec(p, shape, v.model()) is Ok,
    ensures
        reads_back(p, shape, v, rest),
    decreases v, 1nat,
{
    match shape {
        Shape::Text => lemma_round_trip_text(p, v, rest),
        Shape::Optional(_) => lemma_round_trip_optional(p, shape, v, rest),
        Shape::Sequence(_) => lemma_round_trip_list(p, shape, v, rest),
        Shape::Array(_, _) => lemma_round_trip_list(p, shape, v, rest),
        Shape::Record(fs) => match v {
            Value::Record(vs) => lemma_round_trip_all(p, fs@, vs@, rest),
            _ => {},
        },
        Shape::Union(_) => lemma_round_trip_union(p, shape, v, rest),
        _ => lemma_round_trip_scalar(p, shape, v, rest),
    }
}

proof fn lemma_round_trip_scalar(p: LengthPrefix, shape: Shape, v: Value, rest: Seq<u8>)
    requires
        fits(shape, v),
        shape is Unsigned || shape is Signed || shape is VarUnsigned || shape is VarSigned || shape is Bool,
    ensures
        encode_spec(p, shape, v.model()) is Ok,
        reads_back(p, shape, v, rest),
{
    lemma_pow256_values();
    match (shape, v) {
        (Shape::Unsigned(w), Value::Unsigned(x)) => {
            lemma_fixed_round_trip(x as nat, w, rest);
            assert(reads_back(p, shape, v, rest));
        },
        (Shape::Signed(w), Value::Signed(x)) => {
            lemma_pow256_positive(w.bytes());
            let u = twos(x as int, w);
            assert(u < pow256(w.bytes()));
            lemma_fixed_round_trip(u, w, rest);
            assert(from_twos(u, w) == x);
            assert(reads_back(p, shape, v, rest));
        },
        (Shape::VarUnsigned(w), Value::Unsigned(x)) => {
            lemma_varint_round_trip(x as nat, w, rest);
            assert(reads_back(p, shape, v, rest));
        },
        (Shape::VarSigned(w), Value::Signed(x)) => {
            lemma_pow256_positive(w.bytes());
            assert(zigzag(x as int) < pow256(w.bytes()));
            lemma_varint_round_trip(zigzag(x as int), w, rest);
            lemma_unzigzag_zigzag(x as int);
            assert(reads_back(p, shape, v, rest));
        },
        _ => {},
    }
}

proof fn lemma_round_trip_text(p: LengthPrefix, v: Value, rest: Seq<u8>)
    requires
        fits(Shape::Text, v),
        encode_spec(p, Shape::Text, v.model()) is Ok,
    ensures
        reads_back(p, Shape::Text, v, rest),
{
    match v {
        Value::Text(t) => {
            let s = encode_spec(p, Shape::Text, v.model())->Ok_0 + rest;
            let cs = t@;
            let eb = encode_utf8(cs);
            let pb = prefix_bytes(p, eb.len())->Ok_0;
            lemma_prefix_round_trip(p, eb.len(), eb + rest);
            assert(s =~= pb + (eb + rest));
            assert(s.subrange(pb.len() as int, (pb.len() + eb.len()) as int) =~= eb);
            encode_utf8_valid_utf8(cs);
            encode_utf8_decode_utf8(cs);
        },
        _ => {},
    }
}

proof fn lemma_round_trip_optional(p: LengthPrefix, shape: Shape, v: Value, rest: Seq<u8>)
    requires
        shape is Optional,
        wf(shape),
        fits(shape, v),
        encode_spec(p, shape, v.model()) is Ok,
    ensures
        reads_back(p, shape, v, rest),
    decreases v, 0nat,
{
    let s = encode_spec(p, shape, v.model())->Ok_0 + rest;
    match (shape, v) {
        (Shape::Optional(e), Value::Optional(Some(x))) => {
            let inner = encode_spec(p, *e, x.model())->Ok_0;
            lemma_round_trip(p, *e, *x, rest);
            assert(s.subrange(1, s.len() as int) =~= inner + rest);
        },
        _ => {},
    }
}

proof fn lemma_round_trip_list(p: LengthPrefix, shape: Shape, v: Value, rest: Seq<u8>)
    requires
        shape is Sequence || shape is Array,
        wf(shape),
        fits(shape, v),
        encode_spec(p, shape, v.model()) is Ok,
    ensures
        reads_back(p, shape, v, rest),
    decreases v, 0nat,
{
    let s = encode_spec(p, shape, v.model())->Ok_0 + rest;
    let e = match shape {
        Shape::Sequence(e) => *e,
        Shape::Array(e, _) => *e,
        _ => shape,
    };
    match v {
        Value::List(vs) => {
            let ms = models(vs@);
            lemma_list_lengths(vs@);
            let pb = prefix_bytes(p, ms.len())->Ok_0;
            let body = encode_all(p, Seq::new(ms.len(), |i: int| e), ms)->Ok_0;
            lemma_prefix_round_trip(p, ms.len(), body + rest);
            assert(s =~= pb + (body + rest));
            assert(s.subrange(pb.len() as int, s.len() as int) =~= body + rest);
            lemma_round_trip_repeat(p, e, vs@, rest);
        },
        _ => {},
    }
}

proof fn lemma_round_trip_union(p: LengthPrefix, shape: Shape, v: Value, rest: Seq<u8>)
    requires
        shape is Union,
        wf(shape),
        fits(shape, v),
        encode_spec(p, shape, v.model()) is Ok,
    ensures
        reads_back(p, shape, v, rest),
    decreases v, 0nat,
{
    lemma_pow256_values();
    let s = encode_spec(p, shape, v.model())->Ok_0 + rest;
    match (shape, v) {
        (Shape::Union(vars), Value::Variant(k, vs)) => {
            let var = vars@[k as int];
            let d = var.discriminant;
            let body = encode_all(p, var.fields@, models(vs@))->Ok_0;
            lemma_fixed_round_trip(d as nat, Width::W16, body + rest);
            assert(s =~= be_bytes(d as nat, 2) + (body + rest));
            lemma_find_distinct(vars@, k as int);
            assert(s.subrange(2, s.len() as int) =~= body + rest);
            assert forall|i: int| 0 <= i < var.fields@.len() implies wf(#[trigger] var.fields@[i]) by {
                assert(wf(vars@[k as int].fields@[i]));
            }
            lemma_round_trip_all(p, var.fields@, vs@, rest);
        },
        _ => {},
    }
}

proof fn lemma_list_lengths(vs: Seq<Value>)
    ensures
        models(vs).len() == vs.len(),
    decreases vs.len(),
{
    if vs.len() > 0 {
        lemma_list_lengths(vs.drop_last());
    }
}

/// Decoding the wire forms of values of well-formed shapes, one after another,
/// gives back their models.
pub proof fn lemma_round_trip_all(p: LengthPrefix, fs: Seq<Shape>, vs: Seq<Value>, rest: Seq<u8>)
    requires
        fs.len() == vs.len(),
        forall|i: int| 0 <= i < vs.len() ==> fits(fs[i], #[trigger] vs[i]),
        forall|i: int| 0 <= i < fs.len() ==> wf(#[trigger] fs[i]),
        encode_all(p, fs, models(vs)) is Ok,
    ensures
        decode_all(p, fs, encode_all(p, fs, models(vs))->Ok_0 + rest) == Ok::<(Seq<Model>, nat), Error>(
            (models(vs), encode_all(p, fs, models(vs))->Ok_0.len()),
        ),
    decreases vs, 0nat,
{
    lemma_list_lengths(vs);
    if vs.len() > 0 {
        let n = vs.len() - 1;
        let ms = models(vs);
        let fs0 = fs.subrange(0, n);
        let vs0 = vs.drop_last();
        assert(fs.drop_last() =~= fs0);
        assert(ms.drop_last() == models(vs0));
        let b1 = encode_all(p, fs0, models(vs0))->Ok_0;
        let b2 = encode_spec(p, fs[n], vs.last().model())->Ok_0;
        assert(fits(fs[n], vs[n]));
        assert(wf(fs[n]));
        lemma_round_trip_all(p, fs0, vs0, b2 + rest);
        assert(b1 + b2 + rest =~= b1 + (b2 + rest));
        assert((b1 + b2 + rest).subrange(b1.len() as int, (b1 + b2 + rest).len() as int) =~= b2 + rest);
        lemma_round_trip(p, fs[n], vs.last(), rest);
    }
}

/// Decoding the wire forms of values of one well-formed shape, one after
/// another, gives back their models.
pub proof fn lemma_round_trip_repeat(p: LengthPrefix, e: Shape, vs: Seq<Value>, rest: Seq<u8>)
    requires
        forall|i: int| 0 <= i < vs.len() ==> fits(e, #[trigger] vs[i]),
        wf(e),
        encode_all(p, Seq::new(vs.len(), |i: int| e), models(vs)) is Ok,
    ensures
        decode_repeat(p, e, encode_all(p, Seq::new(vs.len(), |i: int| e), models(vs))->Ok_0 + rest, vs.len())
            == Ok::<(Seq<Model>, nat), Error>(
            (models(vs), encode_all(p, Seq::new(vs.len(), |i: int| e), models(vs))->Ok_0.len()),
        ),
    decreases vs, 0nat,
{
    lemma_list_lengths(vs);
    if vs.len() > 0 {
        let n = vs.len() - 1;
        let ms = models(vs);
        let vs0 = vs.drop_last();
        let fs = Seq::new(vs.len(), |i: int| e);
        assert(fs.subrange(0, n) =~= Seq::new(vs0.len(), |i: int| e));
        assert(ms.drop_last() == models(vs0));
        let b1 = encode_all(p, Seq::new(vs0.len(), |i: int| e), models(vs0))->Ok_0;
        let b2 = encode_spec(p, e, vs.last().model())->Ok_0;
        assert(fits(e, vs[n]));
        lemma_round_trip_repeat(p, e, vs0, b2 + rest);
        assert(b1 + b2 + rest =~= b1 + (b2 + rest));
        assert((b1 + b2 + rest).subrange(b1.len() as int, (b1 + b2 + rest).len() as int) =~= b2 + rest);
        lemma_round_trip(p, e, vs.last(), rest);
    }
}

/// A union discriminant that no variant carries fails the decode with that
/// discriminant, before any payload is read.
pub proof fn lemma_unknown_discriminant(p: LengthPrefix, vars: Seq<VariantShape>, shape: Shape, s: Seq<u8>)
    requires
        shape is Union,
        vars == shape->Union_0@,
        s.len() >= 2,
        forall|i: int| 0 <= i < vars.len() ==> #[trigger] vars[i].discriminant != be_value(s.subrange(0, 2)),
    ensures
        decode_spec(p, shape, s) == Err::<(Model, nat), Error>(
            Error::InvalidPacketData(be_value(s.subrange(0, 2)) as u16),
        ),
{
    let d = be_value(s.subrange(0, 2));
    crate::bytes::lemma_be_value_bound(s.subrange(0, 2));
    lemma_pow256_values();
    lemma_find_variant(vars, d as u16, 0);
}

/// Encoding one value into two empty buffers gives the same outcome and, on
/// success, the same bytes.
pub proof fn lemma_encode_idempotent(
    p: LengthPrefix,
    shape: Shape,
    v: Value,
    r1: Result<(), Error>,
    b1: Seq<u8>,
    r2: Result<(), Error>,
    b2: Seq<u8>,
)
    requires
        encoded(r1, encode_spec(p, shape, v.model()), Seq::empty(), b1),
        encoded(r2, encode_spec(p, shape, v.model()), Seq::empty(), b2),
    ensures
        r1 == r2,
        r1 is Ok ==> b1 == b2,
{
    if encode_spec(p, shape, v.model()) is Ok {
        assert(b1 =~= b2);
        let u1: () = r1->Ok_0;
        let u2: () = r2->Ok_0;
        assert(u1 == u2);
        assert(r1 == Ok::<(), Error>(u1));
        assert(r2 == Ok::<(), Error>(u2));
    }
}

/// A packet header reads back as the header it was written for.
pub proof fn lemma_header_round_trip(p: LengthPrefix, header: u64, rest: Seq<u8>)
    requires
        header_bytes(p, header) is Ok,
    ensures
        header_decode(p, header_bytes(p, header)->Ok_0 + rest) == Ok::<(nat, nat), Error>(
            (header as nat, header_bytes(p, header)->Ok_0.len()),
        ),
{
    lemma_pow256_values();
    match p {
        LengthPrefix::Fixed32 => lemma_fixed_round_trip(header as nat, Width::W16, rest),
        LengthPrefix::Varint => lemma_varint_round_trip(header as nat, Width::W64, rest),
    }
}

/// A length prefix cut short fails to read for want of bytes.
proof fn lemma_prefix_truncated(p: LengthPrefix, n: nat, k: int)
    requires
        n <= u32::MAX,
        prefix_bytes(p, n) is Ok,
        0 <= k < prefix_bytes(p, n)->Ok_0.len(),
    ensures
        prefix_decode(p, prefix_bytes(p, n)->Ok_0.subrange(0, k)) == Err::<(nat, nat), Error>(Error::Io),
{
    lemma_pow256_values();
    match p {
        LengthPrefix::Fixed32 => lemma_be_round_trip(n, 4),
        LengthPrefix::Varint => lemma_varint_truncated(n, Width::W32, k),
    }
}

/// Decoding the first `k` bytes of the wire form of a value of a well-formed
/// shape, fewer than all of them, fails with the I/O error.
pub proof fn lemma_truncated(p: LengthPrefix, shape: Shape, v: Value, k: int)
    requires
        wf(shape),
        fits(shape, v),
        encode_spec(p, shape, v.model()) is Ok,
        0 <= k < encode_spec(p, shape, v.model())->Ok_0.len(),
    ensures
        decode_spec(p, shape, encode_spec(p, shape, v.model())->Ok_0.subrange(0, k)) == Err::<(Model, nat), Error>(
            Error::Io,
        ),
    decreases v, 1nat,
{
    match shape {
        Shape::Text => lemma_truncated_text(p, v, k),
        Shape::Optional(_) => lemma_truncated_optional(p, shape, v, k),
        Shape::Sequence(_) => lemma_truncated_list(p, shape, v, k),
        Shape::Array(_, _) => lemma_truncated_list(p, shape, v, k),
        Shape::Record(fs) => match v {
            Value::Record(vs) => lemma_truncated_all(p, fs@, vs@, k),
            _ => {},
        },
        Shape::Union(_) => lemma_truncated_union(p, shape, v, k),
        _ => lemma_truncated_scalar(p, shape, v, k),
    }
}

proof fn lemma_truncated_scalar(p: LengthPrefix, shape: Shape, v: Value, k: int)
    requires
        fits(shape, v),
        shape is Unsigned || shape is Signed || shape is VarUnsigned || shape is VarSigned || shape is Bool,
        encode_spec(p, shape, v.model()) is Ok,
        0 <= k < encode_spec(p, shape, v.model())->Ok_0.len(),
    ensures
        decode_spec(p, shape, encode_spec(p, shape, v.model())->Ok_0.subrange(0, k)) == Err::<(Model, nat), Error>(
            Error::Io,
        ),
{
    lemma_pow256_values();
    match (shape, v) {
        (Shape::Unsigned(w), Value::Unsigned(x)) => {
            lemma_be_round_trip(x as nat, w.bytes());
        },
        (Shape::Signed(w), Value::Signed(x)) => {
            lemma_be_round_trip(twos(x as int, w), w.bytes());
        },
        (Shape::VarUnsigned(w), Value::Unsigned(x)) => {
            lemma_varint_truncated(x as nat, w, k);
        },
        (Shape::VarSigned(w), Value::Signed(x)) => {
            lemma_pow256_positive(w.bytes());
            assert(zigzag(x as int) < pow256(w.bytes()));
            lemma_varint_truncated(zigzag(x as int), w, k);
        },
        _ => {},
    }
}

proof fn lemma_truncated_text(p: LengthPrefix, v: Value, k: int)
    requires
        fits(Shape::Text, v),
        encode_spec(p, Shape::Text, v.model()) is Ok,
        0 <= k < encode_spec(p, Shape::Text, v.model())->Ok_0.len(),
    ensures
        decode_spec(p, Shape::Text, encode_spec(p, Shape::Text, v.model())->Ok_0.subrange(0, k)) == Err::<
            (Model, nat),
            Error,
        >(Error::Io),
{
    match v {
        Value::Text(t) => {
            let b = encode_spec(p, Shape::Text, v.model())->Ok_0;
            let s = b.subrange(0, k);
            let eb = encode_utf8(t@);
            let pb = prefix_bytes(p, eb.len())->Ok_0;
            if k < pb.len() {
                assert(s =~= pb.subrange(0, k));
                lemma_prefix_truncated(p, eb.len(), k);
            } else {
                let tail = eb.subrange(0, k - pb.len());
                assert(s =~= pb + tail);
                lemma_prefix_round_trip(p, eb.len(), tail);
            }
        },
        _ => {},
    }
}

proof fn lemma_truncated_optional(p: LengthPrefix, shape: Shape, v: Value, k: int)
    requires
        shape is Optional,
        wf(shape),
        fits(shape, v),
        encode_spec(p, shape, v.model()) is Ok,
        0 <= k < encode_spec(p, shape, v.model())->Ok_0.len(),
    ensures
        decode_spec(p, shape, encode_spec(p, shape, v.model())->Ok_0.subrange(0, k)) == Err::<(Model, nat), Error>(
            Error::Io,
        ),
    decreases v, 0nat,
{
    let b = encode_spec(p, shape, v.model())->Ok_0;
    let s = b.subrange(0, k);
    match (shape, v) {
        (Shape::Optional(e), Value::Optional(Some(x))) => {
            if k > 0 {
                let inner = encode_spec(p, *e, x.model())->Ok_0;
                lemma_truncated(p, *e, *x, k - 1);
                assert(s.subrange(1, s.len() as int) =~= inner.subrange(0, k - 1));
            }
        },
        _ => {},
    }
}

proof fn lemma_truncated_list(p: LengthPrefix, shape: Shape, v: Value, k: int)
    requires
        shape is Sequence || shape is Array,
        wf(shape),
        fits(shape, v),
        encode_spec(p, shape, v.model()) is Ok,
        0 <= k < encode_spec(p, shape, v.model())->Ok_0.len(),
    ensures
        decode_spec(p, shape, encode_spec(p, shape, v.model())->Ok_0.subrange(0, k)) == Err::<(Model, nat), Error>(
            Error::Io,
        ),
    decreases v, 0nat,
{
    let b = encode_spec(p, shape, v.model())->Ok_0;
    let s = b.subrange(0, k);
    let e = match shape {
        Shape::Sequence(e) => *e,
        Shape::Array(e, _) => *e,
        _ => shape,
    };
    match v {
        Value::List(vs) => {
            let ms = models(vs@);
            lemma_list_lengths(vs@);
            let pb = prefix_bytes(p, ms.len())->Ok_0;
            let body = encode_all(p, Seq::new(ms.len(), |i: int| e), ms)->Ok_0;
            if k < pb.len() {
                assert(s =~= pb.subrange(0, k));
                lemma_prefix_truncated(p, ms.len(), k);
            } else {
                let tail = body.subrange(0, k - pb.len());
                assert(s =~= pb + tail);
                lemma_prefix_round_trip(p, ms.len(), tail);
                assert(s.subrange(pb.len() as int, s.len() as int) =~= tail);
                lemma_truncated_repeat(p, e, vs@, k - pb.len());
            }
        },
        _ => {},
    }
}

proof fn lemma_truncated_union(p: LengthPrefix, shape: Shape, v: Value, k: int)
    requires
        shape is Union,
        wf(shape),
        fits(shape, v),
        encode_spec(p, shape, v.model()) is Ok,
        0 <= k < encode_spec(p, shape, v.model())->Ok_0.len(),
    ensures
        decode_spec(p, shape, encode_spec(p, shape, v.model())->Ok_0.subrange(0, k)) == Err::<(Model, nat), Error>(
            Error::Io,
        ),
    decreases v, 0nat,
{
    lemma_pow256_values();
    let b = encode_spec(p, shape, v.model())->Ok_0;
    let s = b.subrange(0, k);
    match (shape, v) {
        (Shape::Union(vars), Value::Variant(kv, vs)) => {
            let var = vars@[kv as int];
            let d = var.discriminant;
            let body = encode_all(p, var.fields@, models(vs@))->Ok_0;
            let tail = body.subrange(0, k - 2);
            lemma_fixed_round_trip(d as nat, Width::W16, tail);
            if k >= 2 {
                assert(s =~= be_bytes(d as nat, 2) + tail);
                lemma_find_distinct(vars@, kv as int);
                assert(s.subrange(2, s.len() as int) =~= tail);
                assert forall|i: int| 0 <= i < var.fields@.len() implies wf(#[trigger] var.fields@[i]) by {
                    assert(wf(vars@[kv as int].fields@[i]));
                }
                lemma_truncated_all(p, var.fields@, vs@, k - 2);
            }
        },
        _ => {},
    }
}

/// Decoding the first `k` bytes of the wire forms of a run of values, fewer
/// than all of them, fails with the I/O error.
pub proof fn lemma_truncated_all(p: LengthPrefix, fs: Seq<Shape>, vs: Seq<Value>, k: int)
    requires
        fs.len() == vs.len(),
        forall|i: int| 0 <= i < vs.len() ==> fits(fs[i], #[trigger] vs[i]),
        forall|i: int| 0 <= i < fs.len() ==> wf(#[trigger] fs[i]),
        encode_all(p, fs, models(vs)) is Ok,
        0 <= k < encode_all(p, fs, models(vs))->Ok_0.len(),
    ensures
        decode_all(p, fs, encode_all(p, fs, models(vs))->Ok_0.subrange(0, k)) == Err::<(Seq<Model>, nat), Error>(
            Error::Io,
        ),
    decreases vs, 0nat,
{
    lemma_list_lengths(vs);
    let n = vs.len() - 1;
    let ms = models(vs);
    let fs0 = fs.subrange(0, n);
    let vs0 = vs.drop_last();
    assert(fs.drop_last() =~= fs0);
    assert(ms.drop_last() == models(vs0));
    let b1 = encode_all(p, fs0, models(vs0))->Ok_0;
    let b2 = encode_spec(p, fs[n], vs.last().model())->Ok_0;
    let t = (b1 + b2).subrange(0, k);
    assert(fits(fs[n], vs[n]));
    assert(wf(fs[n]));
    if k < b1.len() {
        assert(t =~= b1.subrange(0, k));
        lemma_truncated_all(p, fs0, vs0, k);
    } else {
        let tail = b2.subrange(0, k - b1.len());
        assert(t =~= b1 + tail);
        lemma_round_trip_all(p, fs0, vs0, tail);
        assert(t.subrange(b1.len() as int, t.len() as int) =~= tail);
        lemma_truncated(p, fs[n], vs.last(), k - b1.len());
    }
}

/// Decoding the first `k` bytes of the wire forms of values of one shape,
/// fewer than all of them, fails with the I/O error.
pub proof fn lemma_truncated_repeat(p: LengthPrefix, e: Shape, vs: Seq<Value>, k: int)
    requires
        forall|i: int| 0 <= i < vs.len() ==> fits(e, #[trigger] vs[i]),
        wf(e),
        encode_all(p, Seq::new(vs.len(), |i: int| e), models(vs)) is Ok,
        0 <= k < encode_all(p, Seq::new(vs.len(), |i: int| e), models(vs))->Ok_0.len(),
    ensures
        decode_repeat(p, e, encode_all(p, Seq::new(vs.len(), |i: int| e), models(vs))->Ok_0.subrange(0, k), vs.len())
            == Err::<(Seq<Model>, nat), Error>(Error::Io),
    decreases vs, 0nat,
{
    lemma_list_lengths(vs);
    let n = vs.len() - 1;
    let ms = models(vs);
    let vs0 = vs.drop_last();
    let fs = Seq::new(vs.len(), |i: int| e);
    assert(fs.subrange(0, n) =~= Seq::new(vs0.len(), |i: int| e));
    assert(ms.drop_last() == models(vs0));
    let b1 = encode_all(p, Seq::new(vs0.len(), |i: int| e), models(vs0))->Ok_0;
    let b2 = encode_spec(p, e, vs.last().model())->Ok_0;
    let t = (b1 + b2).subrange(0, k);
    assert(fits(e, vs[n]));
    if k < b1.len() {
        assert(t =~= b1.subrange(0, k));
        lemma_truncated_repeat(p, e, vs0, k);
    } else {
        let tail = b2.subrange(0, k - b1.len());
        assert(t =~= b1 + tail);
        lemma_round_trip_repeat(p, e, vs0, tail);
        assert(t.subrange(b1.len() as int, t.len() as int) =~= tail);
        lemma_truncated(p, e, vs.last(), k - b1.len());
    }
}

} // verus!
