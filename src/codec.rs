//! Encoding values into a byte buffer and decoding them back, proved to
//! follow the wire format in `format`.

use crate::bytes::{be_bytes, lemma_be_value_bound, lemma_pow256_values, pow256, read_uint, write_u8, write_uint};
use crate::error::Error;
use crate::format::{
    decode_all, decode_repeat, decode_spec, encode_all, encode_spec, find_variant, fits, from_twos, half,
    lemma_find_variant, prefix_bytes, prefix_decode, then, twos,
};
use crate::shape::{models, Model, Shape, Value, VariantShape, Width};
use crate::varint::{lemma_varint_scan_ok, Variable};
use vstd::prelude::*;
use vstd::slice::{slice_subrange, slice_to_vec};
use vstd::utf8::{decode_utf8, encode_utf8, valid_utf8};

verus! {

/// How the length of text, sequences and arrays is written: one choice for a
/// whole codec.
#[derive(Debug, Clone, Copy, PartialEq, Eq, Structural)]
pub enum LengthPrefix {
    /// A 4-byte big-endian unsigned integer.
    Fixed32,
    /// A varint of at most 32 bits.
    Varint,
}

/// A codec: the build-wide configuration that every encode and decode call uses.
#[derive(Debug, Clone, Copy, PartialEq, Eq, Structural)]
pub struct Codec {
    pub prefix: LengthPrefix,
}

/// The models of a list are the models of its items, place by place.
pub proof fn lemma_models(s: Seq<Value>)
    ensures
        models(s).len() == s.len(),
        forall|i: int| 0 <= i < s.len() ==> #[trigger] models(s)[i] == s[i].model(),
    decreases s.len(),
{
    if s.len() > 0 {
        lemma_models(s.drop_last());
    }
}

/// Encoding one more item of a run appends its wire form.
pub proof fn lemma_encode_all_step(p: LengthPrefix, fs: Seq<Shape>, ms: Seq<Model>, i: int)
    requires
        0 <= i < ms.len(),
        i < fs.len(),
    ensures
        encode_all(p, fs.subrange(0, i + 1), ms.subrange(0, i + 1)) == then(
            encode_all(p, fs.subrange(0, i), ms.subrange(0, i)),
            encode_spec(p, fs[i], ms[i]),
        ),
{
    let f1 = fs.subrange(0, i + 1);
    let m1 = ms.subrange(0, i + 1);
    assert(f1.subrange(0, i) =~= fs.subrange(0, i));
    assert(m1.drop_last() =~= ms.subrange(0, i));
}

/// Once a run fails, encoding more of it gives the same error.
pub proof fn lemma_encode_all_err(p: LengthPrefix, fs: Seq<Shape>, ms: Seq<Model>, i: int, j: int)
    requires
        0 <= i <= j <= ms.len(),
        j <= fs.len(),
        encode_all(p, fs.subrange(0, i), ms.subrange(0, i)) is Err,
    ensures
        encode_all(p, fs.subrange(0, j), ms.subrange(0, j)) == encode_all(
            p,
            fs.subrange(0, i),
            ms.subrange(0, i),
        ),
    decreases j - i,
{
    if j > i {
        lemma_encode_all_err(p, fs, ms, i, j - 1);
        lemma_encode_all_step(p, fs, ms, j - 1);
    }
}

/// What an encode call into `before` must leave: the buffer extended by the
/// wire form and `Ok`, or the error of the specification.
pub open spec fn encoded(r: Result<(), Error>, want: Result<Seq<u8>, Error>, before: Seq<u8>, after: Seq<u8>) -> bool {
    match want {
        Ok(b) => r is Ok && after == before + b,
        Err(e) => r == Err::<(), Error>(e),
    }
}

/// Writing `a` and then what `b` asks for is writing what `then(a, b)` asks for.
pub proof fn lemma_encoded_then(
    r: Result<(), Error>,
    a: Result<Seq<u8>, Error>,
    b: Result<Seq<u8>, Error>,
    before: Seq<u8>,
    mid: Seq<u8>,
    after: Seq<u8>,
)
    requires
        a is Ok,
        mid == before + a->Ok_0,
        encoded(r, b, mid, after),
    ensures
        encoded(r, then(a, b), before, after),
{
    if b is Ok {
        assert(after =~= before + (a->Ok_0 + b->Ok_0));
    }
}

impl Codec {
    /// Appends the length prefix for `n`.
    pub fn write_prefix(&self, buf: &mut Vec<u8>, n: usize) -> (r: Result<(), Error>)
        ensures
            encoded(r, prefix_bytes(self.prefix, n as nat), old(buf)@, final(buf)@),
    {
        if n > u32::MAX as usize {
            return Err(Error::TryFromInt);
        }
        match self.prefix {
            LengthPrefix::Fixed32 => {
                proof {
                    lemma_pow256_values();
                }
                write_uint(buf, n as u128, Width::W32);
            },
            LengthPrefix::Varint => Variable(n as u128).serialize(buf),
        }
        Ok(())
    }

    /// Appends the wire form of `value`, a value of `shape`.
    pub fn encode(&self, shape: &Shape, value: &Value, buf: &mut Vec<u8>) -> (r: Result<(), Error>)
        requires
            fits(*shape, *value),
        ensures
            encoded(r, encode_spec(self.prefix, *shape, value.model()), old(buf)@, final(buf)@),
        decreases value,
    {
        proof {
            lemma_pow256_values();
            reveal_with_fuel(be_bytes, 3);
            match value {
                Value::List(vs) => lemma_models(vs@),
                Value::Record(vs) => lemma_models(vs@),
                Value::Variant(_, vs) => lemma_models(vs@),
                _ => {},
            }
        }
        match (shape, value) {
            (Shape::Unsigned(w), Value::Unsigned(x)) => {
                write_uint(buf, *x, *w);
                Ok(())
            },
            (Shape::Signed(w), Value::Signed(x)) => {
                let u = to_twos(*x, *w);
                write_uint(buf, u, *w);
                Ok(())
            },
            (Shape::VarUnsigned(_), Value::Unsigned(x)) => {
                Variable(*x).serialize(buf);
                Ok(())
            },
            (Shape::VarSigned(_), Value::Signed(x)) => {
                Variable(*x).serialize(buf);
                Ok(())
            },
            (Shape::Bool, Value::Bool(b)) => {
                let _ = write_u8(buf, if *b { 1 } else { 0 });
                Ok(())
            },
            (Shape::Text, Value::Text(t)) => {
                let bytes = t.as_str().as_bytes();
                match self.write_prefix(buf, bytes.len()) {
                    Err(e) => return Err(e),
                    Ok(()) => {},
                }
                let mut i: usize = 0;
                let ghost start = buf@;
                while i < bytes.len()
                    invariant
                        i <= bytes@.len(),
                        buf@ == start + bytes@.subrange(0, i as int),
                    decreases bytes@.len() - i,
                {
                    buf.push(bytes[i]);
                    i = i + 1;
                    assert(buf@ =~= start + bytes@.subrange(0, i as int));
                }
                assert(bytes@.subrange(0, i as int) =~= bytes@);
                assert(bytes@ == encode_utf8(t@));
                proof {
                    lemma_encoded_then(
                        Ok(()),
                        prefix_bytes(self.prefix, bytes@.len()),
                        Ok(bytes@),
                        old(buf)@,
                        start,
                        buf@,
                    );
                }
                Ok(())
            },
            (Shape::Optional(e), Value::Optional(o)) => match o {
                None => {
                    let _ = write_u8(buf, 0);
                    Ok(())
                },
                Some(x) => {
                    let _ = write_u8(buf, 1);
                    let ghost mid = buf@;
                    assert(mid =~= old(buf)@ + seq![1u8]);
                    let r = self.encode(e, x, buf);
                    proof {
                        lemma_encoded_then(
                            r,
                            Ok(seq![1u8]),
                            encode_spec(self.prefix, **e, (**x).model()),
                            old(buf)@,
                            mid,
                            buf@,
                        );
                        assert(value.model() == Model::Present(Box::new((**x).model())));
                    }
                    r
                },
            },
            (Shape::Sequence(e), Value::List(vs)) => {
                match self.write_prefix(buf, vs.len()) {
                    Err(e) => return Err(e),
                    Ok(()) => {},
                }
                let ghost mid = buf@;
                let ghost head = prefix_bytes(self.prefix, vs@.len() as nat);
                let ghost tail = encode_all(self.prefix, Seq::new(vs@.len(), |i: int| **e), models(vs@));
                let r = self.encode_repeat(e, vs, buf);
                proof {
                    lemma_encoded_then(r, head, tail, old(buf)@, mid, buf@);
                }
                r
            },
            (Shape::Array(e, _), Value::List(vs)) => {
                match self.write_prefix(buf, vs.len()) {
                    Err(e) => return Err(e),
                    Ok(()) => {},
                }
                let ghost mid = buf@;
                let ghost head = prefix_bytes(self.prefix, vs@.len() as nat);
                let ghost tail = encode_all(self.prefix, Seq::new(vs@.len(), |i: int| **e), models(vs@));
                let r = self.encode_repeat(e, vs, buf);
                proof {
                    lemma_encoded_then(r, head, tail, old(buf)@, mid, buf@);
                }
                r
            },
            (Shape::Record(fs), Value::Record(vs)) => self.encode_each(fs, vs, buf),
            (Shape::Union(vars), Value::Variant(k, vs)) => {
                let d = vars[*k].discriminant;
                write_uint(buf, d as u128, Width::W16);
                let ghost mid = buf@;
                let ghost head = Ok::<Seq<u8>, Error>(be_bytes(d as nat, 2));
                let ghost tail = encode_all(self.prefix, vars@[*k as int].fields@, models(vs@));
                let r = self.encode_each(&vars[*k].fields, vs, buf);
                proof {
                    lemma_encoded_then(r, head, tail, old(buf)@, mid, buf@);
                }
                r
            },
            _ => {
                // `fits` rules out every other pairing.
                assert(false);
                Err(Error::Io)
            },
        }
    }

    /// Appends the wire form of each of `vs` in the shape at the same place of `fs`.
    fn encode_each(&self, fs: &Vec<Shape>, vs: &Vec<Value>, buf: &mut Vec<u8>) -> (r: Result<(), Error>)
        requires
            fs@.len() == vs@.len(),
            forall|i: int| 0 <= i < vs@.len() ==> fits(fs@[i], #[trigger] vs@[i]),
        ensures
            encoded(r, encode_all(self.prefix, fs@, models(vs@)), old(buf)@, final(buf)@),
        decreases vs,
    {
        let ghost ms = models(vs@);
        let ghost start = buf@;
        proof {
            lemma_models(vs@);
            assert(fs@.subrange(0, 0) =~= Seq::<Shape>::empty());
            assert(ms.subrange(0, 0) =~= Seq::<Model>::empty());
            assert(buf@.subrange(start.len() as int, buf@.len() as int) =~= Seq::<u8>::empty());
            assert(buf@.subrange(0, start.len() as int) =~= start);
        }
        let mut i: usize = 0;
        while i < vs.len()
            invariant
                i <= vs@.len(),
                fs@.len() == vs@.len(),
                ms == models(vs@),
                ms.len() == vs@.len(),
                forall|j: int| 0 <= j < vs@.len() ==> #[trigger] ms[j] == vs@[j].model(),
                forall|j: int| 0 <= j < vs@.len() ==> fits(fs@[j], #[trigger] vs@[j]),
                encode_all(self.prefix, fs@.subrange(0, i as int), ms.subrange(0, i as int)) == Ok::<Seq<u8>, Error>(
                    buf@.subrange(start.len() as int, buf@.len() as int),
                ),
                buf@.len() >= start.len(),
                buf@.subrange(0, start.len() as int) == start,
            decreases vs@.len() - i,
        {
            let ghost mid = buf@;
            let r = self.encode(&fs[i], &vs[i], buf);
            proof {
                lemma_encode_all_step(self.prefix, fs@, ms, i as int);
            }
            match r {
                Err(e) => {
                    proof {
                        lemma_encode_all_err(self.prefix, fs@, ms, i + 1, vs@.len() as int);
                        assert(fs@.subrange(0, vs@.len() as int) =~= fs@);
                        assert(ms.subrange(0, vs@.len() as int) =~= ms);
                    }
                    return Err(e);
                },
                Ok(()) => {
                    proof {
                        let want = encode_spec(self.prefix, fs@[i as int], vs@[i as int].model());
                        assert(want is Ok);
                        let b = want->Ok_0;
                        assert(buf@.subrange(mid.len() as int, buf@.len() as int) =~= b);
                        assert(buf@.subrange(start.len() as int, buf@.len() as int) =~= mid.subrange(
                            start.len() as int,
                            mid.len() as int,
                        ) + buf@.subrange(mid.len() as int, buf@.len() as int));
                        assert(buf@.subrange(0, start.len() as int) =~= start);
                    }
                },
            }
            i = i + 1;
        }
        proof {
            assert(fs@.subrange(0, i as int) =~= fs@);
            assert(ms.subrange(0, i as int) =~= ms);
            assert(buf@ =~= start + buf@.subrange(start.len() as int, buf@.len() as int));
        }
        Ok(())
    }

    /// Appends the wire form of each of `vs`, all of shape `e`.
    fn encode_repeat(&self, e: &Shape, vs: &Vec<Value>, buf: &mut Vec<u8>) -> (r: Result<(), Error>)
        requires
            forall|i: int| 0 <= i < vs@.len() ==> fits(*e, #[trigger] vs@[i]),
        ensures
            encoded(
                r,
                encode_all(self.prefix, Seq::new(vs@.len(), |i: int| *e), models(vs@)),
                old(buf)@,
                final(buf)@,
            ),
        decreases vs,
    {
        let ghost fs = Seq::new(vs@.len(), |i: int| *e);
        let ghost ms = models(vs@);
        let ghost start = buf@;
        proof {
            lemma_models(vs@);
            assert(fs.subrange(0, 0) =~= Seq::<Shape>::empty());
            assert(ms.subrange(0, 0) =~= Seq::<Model>::empty());
            assert(buf@.subrange(start.len() as int, buf@.len() as int) =~= Seq::<u8>::empty());
            assert(buf@.subrange(0, start.len() as int) =~= start);
        }
        let mut i: usize = 0;
        while i < vs.len()
            invariant
                i <= vs@.len(),
                fs == Seq::new(vs@.len(), |i: int| *e),
                ms == models(vs@),
                ms.len() == vs@.len(),
                forall|j: int| 0 <= j < vs@.len() ==> #[trigger] ms[j] == vs@[j].model(),
                forall|j: int| 0 <= j < vs@.len() ==> fits(*e, #[trigger] vs@[j]),
                encode_all(self.prefix, fs.subrange(0, i as int), ms.subrange(0, i as int)) == Ok::<Seq<u8>, Error>(
                    buf@.subrange(start.len() as int, buf@.len() as int),
                ),
                buf@.len() >= start.len(),
                buf@.subrange(0, start.len() as int) == start,
            decreases vs@.len() - i,
        {
            let ghost mid = buf@;
            let r = self.encode(e, &vs[i], buf);
            proof {
                lemma_encode_all_step(self.prefix, fs, ms, i as int);
            }
            match r {
                Err(err) => {
                    proof {
                        lemma_encode_all_err(self.prefix, fs, ms, i + 1, vs@.len() as int);
                        assert(fs.subrange(0, vs@.len() as int) =~= fs);
                        assert(ms.subrange(0, vs@.len() as int) =~= ms);
                    }
                    return Err(err);
                },
                Ok(()) => {
                    proof {
                        let want = encode_spec(self.prefix, *e, vs@[i as int].model());
                        assert(want is Ok);
                        let b = want->Ok_0;
                        assert(buf@.subrange(mid.len() as int, buf@.len() as int) =~= b);
                        assert(buf@.subrange(start.len() as int, buf@.len() as int) =~= mid.subrange(
                            start.len() as int,
                            mid.len() as int,
                        ) + buf@.subrange(mid.len() as int, buf@.len() as int));
                        assert(buf@.subrange(0, start.len() as int) =~= start);
                    }
                },
            }
            i = i + 1;
        }
        proof {
            assert(fs.subrange(0, i as int) =~= fs);
            assert(ms.subrange(0, i as int) =~= ms);
            assert(buf@ =~= start + buf@.subrange(start.len() as int, buf@.len() as int));
        }
        Ok(())
    }
}

/// The two's-complement form of `v` in width `w`.
pub fn to_twos(v: i128, w: Width) -> (r: u128)
    requires
        -half(w) <= v < half(w),
    ensures
        r as nat == twos(v as int, w),
        r < pow256(w.bytes()),
{
    proof {
        lemma_pow256_values();
    }
    let top = crate::varint::width_max(w);
    if v >= 0 {
        v as u128
    } else {
        top - ((-(v + 1)) as u128)
    }
}

/// What a decode call at `pos` must give: the value, of `shape`, whose model the
/// specification gives and the position after it, or the error of the specification.
pub open spec fn decoded(
    r: Result<(Value, usize), Error>,
    want: Result<(Model, nat), Error>,
    shape: Shape,
    pos: usize,
    len: nat,
) -> bool {
    match want {
        Ok((m, n)) => r is Ok && r->Ok_0.0.model() == m && fits(shape, r->Ok_0.0) && r->Ok_0.1 == pos + n
            && pos + n <= len,
        Err(e) => r == Err::<(Value, usize), Error>(e),
    }
}

/// What decoding a run of values at `pos` must give.
pub open spec fn decoded_run(
    r: Result<(Vec<Value>, usize), Error>,
    want: Result<(Seq<Model>, nat), Error>,
    fs: Seq<Shape>,
    pos: usize,
    len: nat,
) -> bool {
    match want {
        Ok((ms, n)) => r is Ok && models(r->Ok_0.0@) == ms && r->Ok_0.0@.len() == fs.len() && (forall|i: int|
            0 <= i < fs.len() ==> fits(fs[i], #[trigger] r->Ok_0.0@[i])) && r->Ok_0.1 == pos + n && pos + n
            <= len,
        Err(e) => r == Err::<(Vec<Value>, usize), Error>(e),
    }
}

/// Once decoding a run fails, decoding more of it gives the same error.
pub proof fn lemma_decode_all_err(p: LengthPrefix, fs: Seq<Shape>, s: Seq<u8>, i: int, j: int)
    requires
        0 <= i <= j <= fs.len(),
        decode_all(p, fs.subrange(0, i), s) is Err,
    ensures
        decode_all(p, fs.subrange(0, j), s) == decode_all(p, fs.subrange(0, i), s),
    decreases j - i,
{
    if j > i {
        lemma_decode_all_err(p, fs, s, i, j - 1);
        assert(fs.subrange(0, j).drop_last() =~= fs.subrange(0, j - 1));
    }
}

/// Once decoding repeated values fails, decoding more of them gives the same error.
pub proof fn lemma_decode_repeat_err(p: LengthPrefix, e: Shape, s: Seq<u8>, i: nat, j: nat)
    requires
        i <= j,
        decode_repeat(p, e, s, i) is Err,
    ensures
        decode_repeat(p, e, s, j) == decode_repeat(p, e, s, i),
    decreases j - i,
{
    if j > i {
        lemma_decode_repeat_err(p, e, s, i, (j - 1) as nat);
    }
}

/// The models of a list with one more item.
pub proof fn lemma_models_push(s: Seq<Value>, v: Value)
    ensures
        models(s.push(v)) == models(s).push(v.model()),
{
    assert(s.push(v).drop_last() =~= s);
}

/// The index of the first variant with discriminant `d`.
fn find_variant_exec(vars: &Vec<VariantShape>, d: u16) -> (r: Option<usize>)
    ensures
        match find_variant(vars@, d, 0) {
            Some(k) => r == Some(k as usize),
            None => r is None,
        },
{
    let mut i: usize = 0;
    while i < vars.len()
        invariant
            i <= vars@.len(),
            find_variant(vars@, d, 0) == find_variant(vars@, d, i as nat),
        decreases vars@.len() - i,
    {
        if vars[i].discriminant == d {
            return Some(i);
        }
        i = i + 1;
    }
    None
}

/// Relies on std's `String::from_utf8`: it gives the string that the bytes
/// spell where they are valid UTF-8, and fails where they are not.
#[verifier::external_body]
fn string_from_utf8(bytes: Vec<u8>) -> (r: Option<String>)
    ensures
        r is Some <==> valid_utf8(bytes@),
        r is Some ==> r->0@ == decode_utf8(bytes@),
{
    String::from_utf8(bytes).ok()
}

impl Codec {
    /// Reads a length prefix at `pos`: the length and the position after it.
    pub fn read_prefix(&self, data: &[u8], pos: usize) -> (r: Result<(u32, usize), Error>)
        requires
            pos <= data@.len(),
        ensures
            match prefix_decode(self.prefix, data@.subrange(pos as int, data@.len() as int)) {
                Ok((n, k)) => r == Ok::<(u32, usize), Error>((n as u32, (pos + k) as usize)) && n <= u32::MAX
                    && pos + k <= data@.len(),
                Err(e) => r == Err::<(u32, usize), Error>(e),
            },
    {
        let ghost sfx = data@.subrange(pos as int, data@.len() as int);
        let _len = data.len();
        proof {
            lemma_pow256_values();
        }
        match self.prefix {
            LengthPrefix::Fixed32 => {
                let r = read_uint(data, pos, Width::W32);
                proof {
                    if pos + 4 <= data@.len() {
                        assert(sfx.subrange(0, 4) =~= data@.subrange(pos as int, pos + 4));
                        lemma_be_value_bound(sfx.subrange(0, 4));
                    }
                }
                match r {
                    Ok(n) => Ok((n as u32, pos + 4)),
                    Err(e) => Err(e),
                }
            },
            LengthPrefix::Varint => {
                proof {
                    lemma_varint_scan_ok(sfx, 0, 0, 5, pow256(4));
                }
                match Variable::<u128>::deserialize(data, pos, Width::W32) {
                    Ok((n, next)) => Ok((n.0 as u32, next)),
                    Err(e) => Err(e),
                }
            },
        }
    }

    /// Reads a value of `shape` at `pos`: the value and the position after it.
    pub fn decode(&self, shape: &Shape, data: &[u8], pos: usize) -> (r: Result<(Value, usize), Error>)
        requires
            pos <= data@.len(),
        ensures
            decoded(r, decode_spec(self.prefix, *shape, data@.subrange(pos as int, data@.len() as int)), *shape, pos, data@.len()),
        decreases shape, 1nat,
    {
        let ghost sfx = data@.subrange(pos as int, data@.len() as int);
        let _len = data.len();
        proof {
            lemma_pow256_values();
        }
        match shape {
            Shape::Unsigned(_) => decode_int(shape, data, pos),
            Shape::Signed(_) => decode_int(shape, data, pos),
            Shape::VarUnsigned(_) => decode_int(shape, data, pos),
            Shape::VarSigned(_) => decode_int(shape, data, pos),
            Shape::Bool => {
                if pos >= data.len() {
                    return Err(Error::Io);
                }
                Ok((Value::Bool(data[pos] != 0), pos + 1))
            },
            Shape::Text => self.decode_text(data, pos),
            Shape::Optional(e) => {
                if pos >= data.len() {
                    return Err(Error::Io);
                }
                if data[pos] == 0 {
                    return Ok((Value::Optional(None), pos + 1));
                }
                let r = self.decode(e, data, pos + 1);
                assert(sfx.subrange(1, sfx.len() as int) =~= data@.subrange(pos + 1, data@.len() as int));
                match r {
                    Ok((x, next)) => Ok((Value::Optional(Some(Box::new(x))), next)),
                    Err(err) => Err(err),
                }
            },
            Shape::Sequence(_) => self.decode_list(shape, data, pos),
            Shape::Array(_, _) => self.decode_list(shape, data, pos),
            Shape::Record(fs) => match self.decode_each(fs, data, pos) {
                Ok((vs, end)) => Ok((Value::Record(vs), end)),
                Err(err) => Err(err),
            },
            Shape::Union(_) => self.decode_union(shape, data, pos),
        }
    }

    fn decode_text(&self, data: &[u8], pos: usize) -> (r: Result<(Value, usize), Error>)
        requires
            pos <= data@.len(),
        ensures
            decoded(r, decode_spec(self.prefix, Shape::Text, data@.subrange(pos as int, data@.len() as int)), Shape::Text, pos, data@.len()),
    {
        let ghost sfx = data@.subrange(pos as int, data@.len() as int);
        let (n, next) = match self.read_prefix(data, pos) {
            Ok(x) => x,
            Err(e) => return Err(e),
        };
        let ghost k = (next - pos) as nat;
        if n as usize > data.len() - next {
            return Err(Error::Io);
        }
        let end = next + n as usize;
        let bytes = slice_to_vec(slice_subrange(data, next, end));
        assert(bytes@ =~= sfx.subrange(k as int, k + n));
        match string_from_utf8(bytes) {
            Some(t) => Ok((Value::Text(t), end)),
            None => Err(Error::FromUtf8Error),
        }
    }

    fn decode_list(&self, shape: &Shape, data: &[u8], pos: usize) -> (r: Result<(Value, usize), Error>)
        requires
            pos <= data@.len(),
            shape is Sequence || shape is Array,
        ensures
            decoded(r, decode_spec(self.prefix, *shape, data@.subrange(pos as int, data@.len() as int)), *shape, pos, data@.len()),
        decreases shape, 0nat,
    {
        let ghost sfx = data@.subrange(pos as int, data@.len() as int);
        let _len = data.len();
        let (n, next) = match self.read_prefix(data, pos) {
            Ok(x) => x,
            Err(err) => return Err(err),
        };
        let e = match shape {
            Shape::Array(e, size) => {
                if n != *size {
                    return Err(Error::ArrayLength(n));
                }
                e
            },
            Shape::Sequence(e) => e,
            _ => {
                assert(false);
                return Err(Error::Io);
            },
        };
        let ghost k = (next - pos) as nat;
        assert(sfx.subrange(k as int, sfx.len() as int) =~= data@.subrange(next as int, data@.len() as int));
        match self.decode_repeat(e, data, next, n) {
            Ok((vs, end)) => Ok((Value::List(vs), end)),
            Err(err) => Err(err),
        }
    }

    fn decode_union(&self, shape: &Shape, data: &[u8], pos: usize) -> (r: Result<(Value, usize), Error>)
        requires
            pos <= data@.len(),
            shape is Union,
        ensures
            decoded(r, decode_spec(self.prefix, *shape, data@.subrange(pos as int, data@.len() as int)), *shape, pos, data@.len()),
        decreases shape, 0nat,
    {
        let ghost sfx = data@.subrange(pos as int, data@.len() as int);
        let vars = match shape {
            Shape::Union(vars) => vars,
            _ => {
                assert(false);
                return Err(Error::Io);
            },
        };
        let _len = data.len();
        let x = match read_uint(data, pos, Width::W16) {
            Ok(x) => x,
            Err(err) => return Err(err),
        };
        proof {
            lemma_pow256_values();
            assert(sfx.subrange(0, 2) =~= data@.subrange(pos as int, pos + 2));
            lemma_be_value_bound(sfx.subrange(0, 2));
            lemma_find_variant(vars@, x as u16, 0);
        }
        let d = x as u16;
        let k = match find_variant_exec(vars, d) {
            Some(k) => k,
            None => return Err(Error::InvalidPacketData(d)),
        };
        assert(sfx.subrange(2, sfx.len() as int) =~= data@.subrange(pos + 2, data@.len() as int));
        match self.decode_each(&vars[k].fields, data, pos + 2) {
            Ok((vs, end)) => Ok((Value::Variant(k, vs), end)),
            Err(err) => Err(err),
        }
    }

    /// Reads one value of each shape in `fs`, one after another, at `pos`.
    fn decode_each(&self, fs: &Vec<Shape>, data: &[u8], pos: usize) -> (r: Result<(Vec<Value>, usize), Error>)
        requires
            pos <= data@.len(),
        ensures
            decoded_run(r, decode_all(self.prefix, fs@, data@.subrange(pos as int, data@.len() as int)), fs@, pos, data@.len()),
        decreases fs, 2nat,
    {
        let ghost sfx = data@.subrange(pos as int, data@.len() as int);
        let mut out: Vec<Value> = Vec::new();
        let mut cur: usize = pos;
        let mut i: usize = 0;
        proof {
            assert(fs@.subrange(0, 0) =~= Seq::<Shape>::empty());
            assert(out@ =~= Seq::<Value>::empty());
        }
        while i < fs.len()
            invariant
                pos <= cur <= data@.len(),
                i <= fs@.len(),
                out@.len() == i,
                sfx == data@.subrange(pos as int, data@.len() as int),
                decode_all(self.prefix, fs@.subrange(0, i as int), sfx) == Ok::<(Seq<Model>, nat), Error>(
                    (models(out@), (cur - pos) as nat),
                ),
                forall|j: int| 0 <= j < i ==> fits(fs@[j], #[trigger] out@[j]),
            decreases fs@.len() - i,
        {
            let ghost sub = fs@.subrange(0, i + 1);
            assert(sub.drop_last() =~= fs@.subrange(0, i as int));
            assert(sfx.subrange((cur - pos) as int, sfx.len() as int) =~= data@.subrange(cur as int, data@.len() as int));
            match self.decode(&fs[i], data, cur) {
                Ok((v, next)) => {
                    proof {
                        lemma_models_push(out@, v);
                    }
                    out.push(v);
                    cur = next;
                },
                Err(e) => {
                    proof {
                        lemma_decode_all_err(self.prefix, fs@, sfx, i + 1, fs@.len() as int);
                        assert(fs@.subrange(0, fs@.len() as int) =~= fs@);
                    }
                    return Err(e);
                },
            }
            i = i + 1;
        }
        assert(fs@.subrange(0, i as int) =~= fs@);
        Ok((out, cur))
    }

    /// Reads `count` values of shape `e`, one after another, at `pos`.
    fn decode_repeat(&self, e: &Shape, data: &[u8], pos: usize, count: u32) -> (r: Result<(Vec<Value>, usize), Error>)
        requires
            pos <= data@.len(),
        ensures
            decoded_run(
                r,
                decode_repeat(self.prefix, *e, data@.subrange(pos as int, data@.len() as int), count as nat),
                Seq::new(count as nat, |i: int| *e),
                pos,
                data@.len(),
            ),
        decreases e, 2nat,
    {
        let ghost sfx = data@.subrange(pos as int, data@.len() as int);
        let mut out: Vec<Value> = Vec::new();
        let mut cur: usize = pos;
        let mut i: u32 = 0;
        proof {
            assert(out@ =~= Seq::<Value>::empty());
        }
        while i < count
            invariant
                pos <= cur <= data@.len(),
                i <= count,
                out@.len() == i,
                sfx == data@.subrange(pos as int, data@.len() as int),
                decode_repeat(self.prefix, *e, sfx, i as nat) == Ok::<(Seq<Model>, nat), Error>(
                    (models(out@), (cur - pos) as nat),
                ),
                forall|j: int| 0 <= j < i ==> fits(*e, #[trigger] out@[j]),
            decreases count - i,
        {
            assert(sfx.subrange((cur - pos) as int, sfx.len() as int) =~= data@.subrange(cur as int, data@.len() as int));
            match self.decode(e, data, cur) {
                Ok((v, next)) => {
                    proof {
                        lemma_models_push(out@, v);
                    }
                    out.push(v);
                    cur = next;
                },
                Err(err) => {
                    proof {
                        lemma_decode_repeat_err(self.prefix, *e, sfx, (i + 1) as nat, count as nat);
                    }
                    return Err(err);
                },
            }
            i = i + 1;
        }
        Ok((out, cur))
    }
}

/// Reads an integer of `shape` at `pos`.
fn decode_int(shape: &Shape, data: &[u8], pos: usize) -> (r: Result<(Value, usize), Error>)
    requires
        pos <= data@.len(),
        shape is Unsigned || shape is Signed || shape is VarUnsigned || shape is VarSigned,
    ensures
        forall|p: LengthPrefix|
            decoded(
                r,
                #[trigger] decode_spec(p, *shape, data@.subrange(pos as int, data@.len() as int)),
                *shape,
                pos,
                data@.len(),
            ),
{
    let ghost sfx = data@.subrange(pos as int, data@.len() as int);
    let _len = data.len();
    proof {
        lemma_pow256_values();
    }
    match shape {
        Shape::Unsigned(w) => {
            let r = read_uint(data, pos, *w);
            proof {
                if pos + w.bytes() <= data@.len() {
                    assert(sfx.subrange(0, w.bytes() as int) =~= data@.subrange(pos as int, pos + w.bytes()));
                    lemma_be_value_bound(sfx.subrange(0, w.bytes() as int));
                }
            }
            match r {
                Ok(x) => Ok((Value::Unsigned(x), pos + w.byte_count())),
                Err(e) => Err(e),
            }
        },
        Shape::Signed(w) => {
            let r = read_uint(data, pos, *w);
            proof {
                if pos + w.bytes() <= data@.len() {
                    assert(sfx.subrange(0, w.bytes() as int) =~= data@.subrange(pos as int, pos + w.bytes()));
                    lemma_be_value_bound(sfx.subrange(0, w.bytes() as int));
                }
            }
            match r {
                Ok(u) => Ok((Value::Signed(from_twos_exec(u, *w)), pos + w.byte_count())),
                Err(e) => Err(e),
            }
        },
        Shape::VarUnsigned(w) => {
            proof {
                lemma_varint_scan_ok(sfx, 0, 0, w.varint_max(), pow256(w.bytes()));
            }
            match Variable::<u128>::deserialize(data, pos, *w) {
                Ok((x, next)) => Ok((Value::Unsigned(x.0), next)),
                Err(e) => Err(e),
            }
        },
        Shape::VarSigned(w) => {
            proof {
                lemma_varint_scan_ok(sfx, 0, 0, w.varint_max(), pow256(w.bytes()));
            }
            match Variable::<i128>::deserialize(data, pos, *w) {
                Ok((x, next)) => Ok((Value::Signed(x.0), next)),
                Err(e) => Err(e),
            }
        },
        _ => {
            assert(false);
            Err(Error::Io)
        },
    }
}

/// The signed number whose two's-complement form in width `w` is `u`.
pub fn from_twos_exec(u: u128, w: Width) -> (r: i128)
    requires
        u < pow256(w.bytes()),
    ensures
        r as int == from_twos(u as nat, w),
        -half(w) <= r < half(w),
{
    proof {
        lemma_pow256_values();
    }
    let top = crate::varint::width_max(w);
    let h = top / 2 + 1;
    if u < h {
        u as i128
    } else {
        -((top - u) as i128) - 1
    }
}

/// Whether `value` is a value of `shape`; a caller checks this before [`Codec::encode`].
pub fn conforms(shape: &Shape, value: &Value) -> (r: bool)
    ensures
        r == fits(*shape, *value),
    decreases value,
{
    proof {
        lemma_pow256_values();
    }
    match (shape, value) {
        (Shape::Unsigned(w), Value::Unsigned(x)) => *x <= crate::varint::width_max(*w),
        (Shape::VarUnsigned(w), Value::Unsigned(x)) => *x <= crate::varint::width_max(*w),
        (Shape::Signed(w), Value::Signed(x)) => signed_in_range(*x, *w),
        (Shape::VarSigned(w), Value::Signed(x)) => signed_in_range(*x, *w),
        (Shape::Bool, Value::Bool(_)) => true,
        (Shape::Text, Value::Text(_)) => true,
        (Shape::Optional(e), Value::Optional(o)) => match o {
            None => true,
            Some(x) => conforms(e, x),
        },
        (Shape::Sequence(e), Value::List(vs)) => all_conform(e, vs),
        (Shape::Array(e, n), Value::List(vs)) => vs.len() == *n as usize && all_conform(e, vs),
        (Shape::Record(fs), Value::Record(vs)) => fs.len() == vs.len() && each_conforms(fs, vs),
        (Shape::Union(vars), Value::Variant(k, vs)) => *k < vars.len() && vars[*k].fields.len() == vs.len()
            && each_conforms(&vars[*k].fields, vs),
        _ => false,
    }
}

fn signed_in_range(x: i128, w: Width) -> (r: bool)
    ensures
        r == (-half(w) <= x < half(w)),
{
    proof {
        lemma_pow256_values();
    }
    let top = crate::varint::width_max(w);
    let h = top / 2;
    if x >= 0 {
        (x as u128) <= h
    } else {
        ((-(x + 1)) as u128) <= h
    }
}

fn all_conform(e: &Shape, vs: &Vec<Value>) -> (r: bool)
    ensures
        r == forall|i: int| 0 <= i < vs@.len() ==> fits(*e, #[trigger] vs@[i]),
    decreases vs,
{
    let mut i: usize = 0;
    while i < vs.len()
        invariant
            i <= vs@.len(),
            forall|j: int| 0 <= j < i ==> fits(*e, #[trigger] vs@[j]),
        decreases vs@.len() - i,
    {
        if !conforms(e, &vs[i]) {
            return false;
        }
        i = i + 1;
    }
    true
}

fn each_conforms(fs: &Vec<Shape>, vs: &Vec<Value>) -> (r: bool)
    requires
        fs@.len() == vs@.len(),
    ensures
        r == forall|i: int| 0 <= i < vs@.len() ==> fits(fs@[i], #[trigger] vs@[i]),
    decreases vs,
{
    let mut i: usize = 0;
    while i < vs.len()
        invariant
            i <= vs@.len(),
            fs@.len() == vs@.len(),
            forall|j: int| 0 <= j < i ==> fits(fs@[j], #[trigger] vs@[j]),
        decreases vs@.len() - i,
    {
        if !conforms(&fs[i], &vs[i]) {
            return false;
        }
        i = i + 1;
    }
    true
}

} // verus!
