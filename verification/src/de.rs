use vstd::prelude::*;

use crate::error::{is_decode_error, Error};
use crate::value::{
    fits, fits_elems, le_val, lemma_le_bytes_le_val, lemma_le_bytes_len,
    lemma_wire_elems_snoc, lemma_wire_pairs_snoc, pow256, veq, veq_elems, wire, wire_elems,
    wire_pairs, Shape, Value,
};
use crate::varint::{try_take_varint, varint_enc};
use vstd::utf8::{is_scalar, valid_utf8};

verus! {

broadcast use vstd::std_specs::vec::group_vec_axioms;

/// Relies on `core::str::from_utf8`: it accepts a byte run exactly when the
/// run is valid UTF-8, a function of the bytes alone.
#[verifier::external_body]
fn utf8_check(b: &[u8]) -> (r: bool)
    ensures
        r == valid_utf8(b@),
{
    core::str::from_utf8(b).is_ok()
}

/// Relies on `char::from_u32`: it returns the scalar with the given numeric
/// value exactly when that value is a Unicode scalar value.
#[verifier::external_body]
fn char_from_u32(x: u32) -> (r: Option<char>)
    ensures
        r is Some <==> is_scalar(x),
        r matches Some(c) ==> c as u32 == x,
{
    char::from_u32(x)
}

/// A run that splits in two sits in the input as its two parts in turn.
proof fn lemma_prefix_parts(input: Seq<u8>, pos: int, a: Seq<u8>, b: Seq<u8>)
    requires
        0 <= pos <= input.len(),
        (a + b).is_prefix_of(input.skip(pos)),
    ensures
        pos + a.len() + b.len() <= input.len(),
        a.is_prefix_of(input.skip(pos)),
        b.is_prefix_of(input.skip(pos + a.len())),
        input.subrange(pos, pos + a.len()) == a,
{
    let s = input.skip(pos);
    assert((a + b).len() == a.len() + b.len());
    assert forall|i: int| 0 <= i < a.len() implies a[i] == s[i] by {
        assert((a + b)[i] == s.subrange(0, (a + b).len() as int)[i]);
    }
    assert(a =~= s.subrange(0, a.len() as int));
    assert(a.is_prefix_of(s));
    let s2 = input.skip(pos + a.len());
    assert forall|i: int| 0 <= i < b.len() implies b[i] == s2[i] by {
        assert((a + b)[a.len() + i] == s.subrange(0, (a + b).len() as int)[a.len() + i]);
        assert((a + b)[a.len() + i] == b[i]);
        assert(s[a.len() + i] == s2[i]);
    }
    assert(b =~= s2.subrange(0, b.len() as int));
    assert(input.subrange(pos, pos + a.len()) =~= a);
}

/// Values of the small powers of 256 that fixed-width shapes use.
proof fn lemma_pow256_vals()
    ensures
        pow256(1) == 0x100,
        pow256(2) == 0x1_0000,
        pow256(4) == 0x1_0000_0000,
        pow256(8) == 0x1_0000_0000_0000_0000,
{
    reveal_with_fuel(pow256, 9);
}

/// A byte run names a value below the weight of its own length.
proof fn lemma_le_val_bound(b: Seq<u8>)
    ensures
        le_val(b) < pow256(b.len()),
    decreases b.len(),
{
    if b.len() == 0 {
    } else {
        lemma_le_val_bound(b.drop_first());
        assert(pow256(b.len()) == 256 * pow256((b.len() - 1) as nat));
        assert(b[0] as nat + 256 * le_val(b.drop_first()) < 256 * pow256((b.len() - 1) as nat))
            by (nonlinear_arith)
            requires
                b[0] < 256,
                le_val(b.drop_first()) < pow256((b.len() - 1) as nat),
        ;
    }
}

/// Reads one byte, or reports the end of the input.
fn take_byte(input: &[u8], pos: usize) -> (r: Result<(u8, usize), Error>)
    requires
        pos <= input@.len(),
    ensures
        match r {
            Ok(p) => pos < input@.len() && p.0 == input@[pos as int] && p.1 == pos + 1,
            Err(e) => e == Error::DeserializeUnexpectedEnd && pos == input@.len(),
        },
{
    if pos >= input.len() {
        return Err(Error::DeserializeUnexpectedEnd);
    }
    let b: u8 = *vstd::slice::slice_index_get(input, pos);
    Ok((b, pos + 1))
}

/// Reads a `width`-byte little-endian integer, or reports the end of the
/// input where fewer bytes remain.
fn take_le(input: &[u8], pos: usize, width: usize) -> (r: Result<(u64, usize), Error>)
    requires
        pos <= input@.len(),
        1 <= width <= 8,
    ensures
        match r {
            Ok(p) => {
                &&& pos + width <= input@.len()
                &&& p.0 == le_val(input@.subrange(pos as int, pos + width))
                &&& p.1 == pos + width
            },
            Err(e) => e == Error::DeserializeUnexpectedEnd && pos + width > input@.len(),
        },
{
    let n: usize = input.len();
    if width > n - pos {
        return Err(Error::DeserializeUnexpectedEnd);
    }
    let ghost sub = input@.subrange(pos as int, pos + width);
    let mut acc: u64 = 0;
    let mut j: usize = width;
    proof {
        lemma_pow256_vals();
    }
    while j > 0
        invariant
            j <= width,
            1 <= width <= 8,
            pos + width <= input@.len(),
            input@.len() <= usize::MAX,
            sub == input@.subrange(pos as int, pos + width),
            acc == le_val(sub.skip(j as int)),
            acc < pow256((width - j) as nat),
            pow256(2) == 0x1_0000,
            pow256(4) == 0x1_0000_0000,
            pow256(8) == 0x1_0000_0000_0000_0000,
        decreases j,
    {
        let b: u8 = *vstd::slice::slice_index_get(input, pos + (j - 1));
        proof {
            lemma_pow256_mono((width - j + 1) as nat, 8);
            assert(acc * 256 + b < 256 * pow256((width - j) as nat)) by (nonlinear_arith)
                requires
                    acc < pow256((width - j) as nat),
                    b < 256,
            ;
            assert(256 * pow256((width - j) as nat) == pow256((width - j + 1) as nat));
            assert(sub.skip(j - 1)[0] == b);
            assert(sub.skip(j - 1).drop_first() =~= sub.skip(j as int));
        }
        acc = acc * 256 + (b as u64);
        j = j - 1;
    }
    proof {
        assert(sub.skip(0) =~= sub);
    }
    Ok((acc, pos + width))
}

/// A prefix occupies the input right at its position.
proof fn lemma_prefix_sub(input: Seq<u8>, pos: int, a: Seq<u8>)
    requires
        0 <= pos <= input.len(),
        a.is_prefix_of(input.skip(pos)),
    ensures
        pos + a.len() <= input.len(),
        input.subrange(pos, pos + a.len()) == a,
{
    let s = input.skip(pos);
    assert forall|i: int| 0 <= i < a.len() implies a[i] == input[pos + i] by {
        assert(a[i] == s.subrange(0, a.len() as int)[i]);
    }
    assert(input.subrange(pos, pos + a.len()) =~= a);
}

/// The key shape of a mapping shape.
pub open spec fn mkey(ms: Shape) -> Shape {
    match ms {
        Shape::Mapping(k, _) => *k,
        _ => Shape::Unit,
    }
}

/// The value shape of a mapping shape.
pub open spec fn mval(ms: Shape) -> Shape {
    match ms {
        Shape::Mapping(_, w) => *w,
        _ => Shape::Unit,
    }
}

/// Composes a prefix length with what the continuation reports: a failure
/// stands, a success grows by the prefix.
pub open spec fn dadd(k: nat, r: Result<nat, Error>) -> Result<nat, Error> {
    match r {
        Ok(u) => Ok(k + u),
        Err(e) => Err(e),
    }
}

/// What decoding `b` as shape `s` comes to: how many bytes one value of
/// the shape occupies at the front, or the exact failure, mirroring the
/// per-shape rules byte for byte. Varint counts are read liberally: any
/// terminated group run that fits a `usize` is accepted.
pub open spec fn dlen(s: Shape, b: Seq<u8>) -> Result<nat, Error>
    decreases s, 1int, 0int,
{
    match s {
        Shape::Unit => Ok(0),
        Shape::Bool => if b.len() < 1 {
            Err(Error::DeserializeUnexpectedEnd)
        } else if b[0] == 0 || b[0] == 1 {
            Ok(1)
        } else {
            Err(Error::DeserializeBadBool)
        },
        Shape::U8 => if b.len() < 1 {
            Err(Error::DeserializeUnexpectedEnd)
        } else {
            Ok(1)
        },
        Shape::I8 => if b.len() < 1 {
            Err(Error::DeserializeUnexpectedEnd)
        } else {
            Ok(1)
        },
        Shape::U16 => if b.len() < 2 {
            Err(Error::DeserializeUnexpectedEnd)
        } else {
            Ok(2)
        },
        Shape::I16 => if b.len() < 2 {
            Err(Error::DeserializeUnexpectedEnd)
        } else {
            Ok(2)
        },
        Shape::U32 => if b.len() < 4 {
            Err(Error::DeserializeUnexpectedEnd)
        } else {
            Ok(4)
        },
        Shape::I32 => if b.len() < 4 {
            Err(Error::DeserializeUnexpectedEnd)
        } else {
            Ok(4)
        },
        Shape::U64 => if b.len() < 8 {
            Err(Error::DeserializeUnexpectedEnd)
        } else {
            Ok(8)
        },
        Shape::I64 => if b.len() < 8 {
            Err(Error::DeserializeUnexpectedEnd)
        } else {
            Ok(8)
        },
        Shape::Char => if b.len() < 4 {
            Err(Error::DeserializeUnexpectedEnd)
        } else if is_scalar(le_val(b.subrange(0, 4)) as u32) {
            Ok(4)
        } else {
            Err(Error::DeserializeBadChar)
        },
        Shape::Str => match crate::varint::vparse(b) {
            Err(e) => Err(e),
            Ok((n, u)) => if u + n > b.len() {
                Err(Error::DeserializeUnexpectedEnd)
            } else if valid_utf8(b.subrange(u as int, (u + n) as int)) {
                Ok(u + n)
            } else {
                Err(Error::DeserializeBadUtf8)
            },
        },
        Shape::Bytes => match crate::varint::vparse(b) {
            Err(e) => Err(e),
            Ok((n, u)) => if u + n > b.len() {
                Err(Error::DeserializeUnexpectedEnd)
            } else {
                Ok(u + n)
            },
        },
        Shape::Opt(inner) => if b.len() < 1 {
            Err(Error::DeserializeUnexpectedEnd)
        } else if b[0] == 0 {
            Ok(1)
        } else if b[0] == 1 {
            dadd(1, dlen(*inner, b.skip(1)))
        } else {
            Err(Error::DeserializeBadOption)
        },
        Shape::List(es) => match crate::varint::vparse(b) {
            Err(e) => Err(e),
            Ok((n, u)) => dadd(u, dlen_count(*es, n, b.skip(u as int))),
        },
        Shape::Tup(ss) => dlen_fields(ss@, b),
        Shape::Mapping(_, _) => match crate::varint::vparse(b) {
            Err(e) => Err(e),
            Ok((n, u)) => dadd(u, dlen_pairs(s, n, b.skip(u as int))),
        },
        Shape::Record(ss) => dlen_fields(ss@, b),
        Shape::Newtype(inner) => dlen(*inner, b),
        Shape::TupleRecord(ss) => dlen_fields(ss@, b),
        Shape::Enum(vars) => match crate::varint::vparse(b) {
            Err(e) => Err(e),
            Ok((d, u)) => if d > u32::MAX || d >= vars@.len() {
                Err(Error::DeserializeBadEnum)
            } else {
                dadd(u, dlen_fields(vars@[d as int]@, b.skip(u as int)))
            },
        },
    }
}

/// The outcome over a run of expected field shapes, decoded in order.
pub open spec fn dlen_fields(ss: Seq<Shape>, b: Seq<u8>) -> Result<nat, Error>
    decreases ss, 1int, 0int,
{
    if ss.len() == 0 {
        Ok(0)
    } else {
        match dlen(ss[0], b) {
            Err(e) => Err(e),
            Ok(u) => dadd(u, dlen_fields(ss.drop_first(), b.skip(u as int))),
        }
    }
}

/// The outcome over `n` successive elements of one shape.
pub open spec fn dlen_count(es: Shape, n: nat, b: Seq<u8>) -> Result<nat, Error>
    decreases es, 2int, n,
{
    if n == 0 {
        Ok(0)
    } else {
        match dlen(es, b) {
            Err(e) => Err(e),
            Ok(u) => dadd(u, dlen_count(es, (n - 1) as nat, b.skip(u as int))),
        }
    }
}

/// The outcome over `n` key/value entries of a mapping shape.
pub open spec fn dlen_pairs(ms: Shape, n: nat, b: Seq<u8>) -> Result<nat, Error>
    decreases ms, 0int, n,
{
    match ms {
        Shape::Mapping(k, w) => if n == 0 {
            Ok(0)
        } else {
            match dlen(*k, b) {
                Err(e) => Err(e),
                Ok(u1) => match dlen(*w, b.skip(u1 as int)) {
                    Err(e) => Err(e),
                    Ok(u2) => dadd(
                        u1 + u2,
                        dlen_pairs(ms, (n - 1) as nat, b.skip((u1 + u2) as int)),
                    ),
                },
            }
        },
        _ => Err(Error::DeserializeBadEncoding),
    }
}

/// A varint run at the front of `b` that occupies `u` bytes and names `n`:
/// terminated, within the platform group bound, in any (possibly overlong)
/// form.
pub open spec fn vhead(b: Seq<u8>, u: int, n: nat) -> bool {
    &&& 1 <= u <= b.len()
    &&& u <= crate::varint::vmax_groups()
    &&& crate::varint::vterm(b.subrange(0, u))
    &&& crate::varint::vval(b.subrange(0, u)) == n
}

/// `b` is exactly one wire encoding of `v`: the canonical bytes for every
/// fixed-width part, with each count carried by any terminated varint run
/// that names it — the liberal form the decoder accepts.
pub open spec fn lwire(v: Value, b: Seq<u8>) -> bool
    decreases v,
{
    match v {
        Value::Unit => b.len() == 0,
        Value::Bool(_) => b == wire(v),
        Value::U8(_) => b == wire(v),
        Value::U16(_) => b == wire(v),
        Value::U32(_) => b == wire(v),
        Value::U64(_) => b == wire(v),
        Value::I8(_) => b == wire(v),
        Value::I16(_) => b == wire(v),
        Value::I32(_) => b == wire(v),
        Value::I64(_) => b == wire(v),
        Value::Char(_) => b == wire(v),
        Value::Str(bb) => exists|u: int|
            (#[trigger] vhead(b, u, bb@.len())) && b.skip(u) == bb@,
        Value::Bytes(bb) => exists|u: int|
            (#[trigger] vhead(b, u, bb@.len())) && b.skip(u) == bb@,
        Value::Opt(o) => match o {
            Option::None => b == seq![0u8],
            Option::Some(inner) => b.len() >= 1 && b[0] == 1 && lwire(*inner, b.skip(1)),
        },
        Value::List(xs) => exists|u: int|
            (#[trigger] vhead(b, u, xs@.len())) && lwire_elems(xs@, b.skip(u)),
        Value::Tup(xs) => lwire_elems(xs@, b),
        Value::Mapping(ps) => exists|u: int|
            (#[trigger] vhead(b, u, ps@.len())) && lwire_pairs(ps@, b.skip(u)),
        Value::Record(xs) => lwire_elems(xs@, b),
        Value::Newtype(inner) => lwire(*inner, b),
        Value::TupleRecord(xs) => lwire_elems(xs@, b),
        Value::Enum(d, fs) => exists|u: int|
            (#[trigger] vhead(b, u, d as nat)) && lwire_elems(fs@, b.skip(u)),
    }
}

/// A run of values encoded back to back, each in liberal form.
pub open spec fn lwire_elems(xs: Seq<Value>, b: Seq<u8>) -> bool
    decreases xs,
{
    if xs.len() == 0 {
        b.len() == 0
    } else {
        exists|u: int|
            0 <= u <= b.len() && lwire(xs[0], #[trigger] b.subrange(0, u)) && lwire_elems(
                xs.drop_first(),
                b.skip(u),
            )
    }
}

/// Key/value entries encoded back to back: each key, then its value.
pub open spec fn lwire_pairs(ps: Seq<(Value, Value)>, b: Seq<u8>) -> bool
    decreases ps,
{
    if ps.len() == 0 {
        b.len() == 0
    } else {
        exists|u1: int, u2: int|
            {
                &&& 0 <= u1
                &&& 0 <= u2
                &&& u1 + u2 <= b.len()
                &&& lwire(ps[0].0, #[trigger] b.subrange(0, u1))
                &&& lwire(ps[0].1, #[trigger] b.subrange(u1, u1 + u2))
                &&& lwire_pairs(ps.drop_first(), b.skip(u1 + u2))
            }
    }
}

/// Composing length prefixes one after the other adds them.
proof fn lemma_dadd_assoc(a: nat, b: nat, r: Result<nat, Error>)
    ensures
        dadd(a, dadd(b, r)) == dadd(a + b, r),
{
}

/// A varint head naming the byte count, then those bytes, is the liberal
/// wire form of a string or byte string.
proof fn lemma_lwire_blob(v: Value, c: Seq<u8>, u: int)
    requires
        match v {
            Value::Str(bb) => vhead(c, u, bb@.len()) && c.skip(u) == bb@,
            Value::Bytes(bb) => vhead(c, u, bb@.len()) && c.skip(u) == bb@,
            _ => false,
        },
    ensures
        lwire(v, c),
{
}

/// Field runs carried without framing are the liberal wire form of tuples,
/// records, tuple structs, and newtypes.
proof fn lemma_lwire_framed(v: Value, c: Seq<u8>)
    requires
        match v {
            Value::Tup(xs) => lwire_elems(xs@, c),
            Value::Record(xs) => lwire_elems(xs@, c),
            Value::TupleRecord(xs) => lwire_elems(xs@, c),
            Value::Newtype(inner) => lwire(*inner, c),
            _ => false,
        },
    ensures
        lwire(v, c),
{
}

/// A varint head naming the count, then the payload run, is the liberal
/// wire form of sequences, mappings, and enums.
proof fn lemma_lwire_counted(v: Value, c: Seq<u8>, u: int)
    requires
        match v {
            Value::List(xs) => vhead(c, u, xs@.len()) && lwire_elems(xs@, c.skip(u)),
            Value::Mapping(ps) => vhead(c, u, ps@.len()) && lwire_pairs(ps@, c.skip(u)),
            Value::Enum(d, fs) => vhead(c, u, d as nat) && lwire_elems(fs@, c.skip(u)),
            _ => false,
        },
    ensures
        lwire(v, c),
{
}

/// A tag byte of one, then the inner encoding, is the liberal wire form of
/// a present option.
proof fn lemma_lwire_some(v: Value, c: Seq<u8>)
    requires
        match v {
            Value::Opt(o) => match o {
                Option::Some(inner) => c.len() >= 1 && c[0] == 1 && lwire(*inner, c.skip(1)),
                Option::None => false,
            },
            _ => false,
        },
    ensures
        lwire(v, c),
{
}

/// Four bytes naming a character's codepoint are its wire form.
proof fn lemma_char_bytes(c: char, b: Seq<u8>)
    requires
        b.len() == 4,
        le_val(b) == (c as u32) as nat,
    ensures
        wire(Value::Char(c)) == b,
        lwire(Value::Char(c), b),
{
    crate::value::lemma_le_val_le_bytes(b);
}

/// Extending an encoded run by one more encoded value keeps it a run.
proof fn lemma_lwire_elems_snoc(xs: Seq<Value>, b1: Seq<u8>, x: Value, b2: Seq<u8>)
    requires
        lwire_elems(xs, b1),
        lwire(x, b2),
    ensures
        lwire_elems(xs.push(x), b1 + b2),
    decreases xs.len(),
{
    if xs.len() == 0 {
        assert(b1.len() == 0);
        let c = b1 + b2;
        assert(c.subrange(0, b2.len() as int) =~= b2);
        assert(c.skip(b2.len() as int) =~= Seq::<u8>::empty());
        assert(xs.push(x)[0] == x);
        assert(xs.push(x).drop_first() =~= Seq::<Value>::empty());
        assert(lwire_elems(Seq::<Value>::empty(), Seq::<u8>::empty()));
        assert(0 <= b2.len() <= c.len() && lwire(xs.push(x)[0], c.subrange(0, b2.len() as int))
            && lwire_elems(xs.push(x).drop_first(), c.skip(b2.len() as int)));
    } else {
        let u = choose|u: int|
            0 <= u <= b1.len() && lwire(xs[0], #[trigger] b1.subrange(0, u)) && lwire_elems(
                xs.drop_first(),
                b1.skip(u),
            );
        lemma_lwire_elems_snoc(xs.drop_first(), b1.skip(u), x, b2);
        let c = b1 + b2;
        assert(c.subrange(0, u) =~= b1.subrange(0, u));
        assert(c.skip(u) =~= b1.skip(u) + b2);
        assert(xs.push(x)[0] == xs[0]);
        assert(xs.push(x).drop_first() =~= xs.drop_first().push(x));
        assert(0 <= u <= c.len() && lwire(xs.push(x)[0], c.subrange(0, u)) && lwire_elems(
            xs.push(x).drop_first(),
            c.skip(u),
        ));
    }
}

/// Extending an encoded entry run by one more key/value entry keeps it a run.
proof fn lemma_lwire_pairs_snoc(
    ps: Seq<(Value, Value)>,
    b1: Seq<u8>,
    kv: (Value, Value),
    bk: Seq<u8>,
    bw: Seq<u8>,
)
    requires
        lwire_pairs(ps, b1),
        lwire(kv.0, bk),
        lwire(kv.1, bw),
    ensures
        lwire_pairs(ps.push(kv), b1 + bk + bw),
    decreases ps.len(),
{
    if ps.len() == 0 {
        assert(b1.len() == 0);
        let c = b1 + bk + bw;
        assert(c.subrange(0, bk.len() as int) =~= bk);
        assert(c.subrange(bk.len() as int, (bk.len() + bw.len()) as int) =~= bw);
        assert(c.skip((bk.len() + bw.len()) as int) =~= Seq::<u8>::empty());
        assert(ps.push(kv)[0] == kv);
        assert(ps.push(kv).drop_first() =~= Seq::<(Value, Value)>::empty());
        assert(lwire_pairs(Seq::<(Value, Value)>::empty(), Seq::<u8>::empty()));
        let u1 = bk.len() as int;
        let u2 = bw.len() as int;
        assert(0 <= u1 && 0 <= u2 && u1 + u2 <= c.len() && lwire(
            ps.push(kv)[0].0,
            c.subrange(0, u1),
        ) && lwire(ps.push(kv)[0].1, c.subrange(u1, u1 + u2)) && lwire_pairs(
            ps.push(kv).drop_first(),
            c.skip(u1 + u2),
        ));
    } else {
        let (u1, u2) = choose|u1: int, u2: int|
            {
                &&& 0 <= u1
                &&& 0 <= u2
                &&& u1 + u2 <= b1.len()
                &&& lwire(ps[0].0, #[trigger] b1.subrange(0, u1))
                &&& lwire(ps[0].1, #[trigger] b1.subrange(u1, u1 + u2))
                &&& lwire_pairs(ps.drop_first(), b1.skip(u1 + u2))
            };
        lemma_lwire_pairs_snoc(ps.drop_first(), b1.skip(u1 + u2), kv, bk, bw);
        let c = b1 + bk + bw;
        assert(c.subrange(0, u1) =~= b1.subrange(0, u1));
        assert(c.subrange(u1, u1 + u2) =~= b1.subrange(u1, u1 + u2));
        assert(c.skip(u1 + u2) =~= b1.skip(u1 + u2) + bk + bw);
        assert(ps.push(kv)[0] == ps[0]);
        assert(ps.push(kv).drop_first() =~= ps.drop_first().push(kv));
        assert(0 <= u1 && 0 <= u2 && u1 + u2 <= c.len() && lwire(
            ps.push(kv)[0].0,
            c.subrange(0, u1),
        ) && lwire(ps.push(kv)[0].1, c.subrange(u1, u1 + u2)) && lwire_pairs(
            ps.push(kv).drop_first(),
            c.skip(u1 + u2),
        ));
    }
}

/// Materializes a value of the expected shape from `input` at `pos`.
///
/// On success the value inhabits the shape and the cursor lands inside the
/// input. Whenever the remaining input begins with the encoding of some
/// well-formed value of this shape, decoding succeeds with exactly that
/// value and consumes exactly its encoding: together with the encoder this
/// is the round trip.
#[verifier::rlimit(100)]
pub fn decode_value(s: &Shape, input: &[u8], pos: usize) -> (r: Result<(Value, usize), Error>)
    requires
        pos <= input@.len(),
    ensures
        match r {
            Ok(p) => pos <= p.1 <= input@.len() && fits(p.0, *s),
            Err(e) => is_decode_error(e),
        },
        forall|v0: Value|
            fits(v0, *s) && (#[trigger] wire(v0)).is_prefix_of(input@.skip(pos as int)) ==> (
            r matches Ok(p) && veq(p.0, v0) && p.1 == pos + wire(v0).len()),
        match r {
            Ok(p) => dlen(*s, input@.skip(pos as int)) == Ok::<nat, Error>((p.1 - pos) as nat)
                && lwire(p.0, input@.subrange(pos as int, p.1 as int)),
            Err(e) => dlen(*s, input@.skip(pos as int)) == Err::<nat, Error>(e),
        },
    decreases *s, 1int,
{
    let ghost s0 = input@.skip(pos as int);
    match s {
        Shape::Unit => {
            proof {
                assert forall|v0: Value|
                    fits(v0, *s) && (#[trigger] wire(v0)).is_prefix_of(s0) implies veq(
                    Value::Unit,
                    v0,
                ) && pos == pos + wire(v0).len() by {
                    assert(v0 matches Value::Unit);
                }
                assert(fits(Value::Unit, *s));
                assert(input@.subrange(pos as int, pos as int) =~= Seq::<u8>::empty());
                assert(lwire(Value::Unit, input@.subrange(pos as int, pos as int)));
                assert(dlen(*s, s0) == Ok::<nat, Error>(0));
            }
            Ok((Value::Unit, pos))
        },
        Shape::Bool => {
            match take_byte(input, pos) {
                Err(e) => {
                    proof {
                        assert forall|v0: Value|
                            fits(v0, *s) && (#[trigger] wire(v0)).is_prefix_of(s0) implies false by {
                            assert(s0.len() == 0);
                            assert(wire(v0).len() == 1);
                        }
                    }
                    Err(e)
                },
                Ok((b, p2)) => {
                    proof {
                        assert forall|v0: Value|
                            fits(v0, *s) && (#[trigger] wire(v0)).is_prefix_of(s0) implies (
                        v0 matches Value::Bool(x) && (if x {
                            1u8
                        } else {
                            0u8
                        }) == b) by {
                            assert(wire(v0)[0] == s0[0]);
                            assert(s0[0] == input@[pos as int]);
                        }
                        assert(s0[0] == b);
                        assert(input@.subrange(pos as int, pos + 1) =~= seq![b]);
                    }
                    if b == 0 {
                        proof {
                            assert(fits(Value::Bool(false), *s));
                            assert(dlen(*s, s0) == Ok::<nat, Error>(1));
                            assert(lwire(Value::Bool(false), input@.subrange(pos as int, pos + 1)));
                        }
                        Ok((Value::Bool(false), p2))
                    } else if b == 1 {
                        proof {
                            assert(fits(Value::Bool(true), *s));
                            assert(dlen(*s, s0) == Ok::<nat, Error>(1));
                            assert(lwire(Value::Bool(true), input@.subrange(pos as int, pos + 1)));
                        }
                        Ok((Value::Bool(true), p2))
                    } else {
                        proof {
                            assert(dlen(*s, s0) == Err::<nat, Error>(Error::DeserializeBadBool));
                        }
                        Err(Error::DeserializeBadBool)
                    }
                },
            }
        },
        Shape::U8 => {
            match take_byte(input, pos) {
                Err(e) => {
                    proof {
                        assert forall|v0: Value|
                            fits(v0, *s) && (#[trigger] wire(v0)).is_prefix_of(s0) implies false by {
                            assert(s0.len() == 0);
                            assert(wire(v0).len() == 1);
                        }
                    }
                    Err(e)
                },
                Ok((b, p2)) => {
                    proof {
                        assert forall|v0: Value|
                            fits(v0, *s) && (#[trigger] wire(v0)).is_prefix_of(s0) implies veq(
                            Value::U8(b),
                            v0,
                        ) && p2 == pos + wire(v0).len() by {
                            assert(wire(v0)[0] == s0[0]);
                        }
                        assert(fits(Value::U8(b), *s));
                        assert(s0[0] == b);
                        assert(dlen(*s, s0) == Ok::<nat, Error>(1));
                        assert(input@.subrange(pos as int, pos + 1) =~= seq![b]);
                        assert(lwire(Value::U8(b), input@.subrange(pos as int, pos + 1)));
                    }
                    Ok((Value::U8(b), p2))
                },
            }
        },
        Shape::I8 => {
            match take_byte(input, pos) {
                Err(e) => {
                    proof {
                        assert forall|v0: Value|
                            fits(v0, *s) && (#[trigger] wire(v0)).is_prefix_of(s0) implies false by {
                            assert(s0.len() == 0);
                            assert(wire(v0).len() == 1);
                        }
                    }
                    Err(e)
                },
                Ok((b, p2)) => {
                    let y = crate::value::u8_to_i8(b);
                    proof {
                        assert forall|v0: Value|
                            fits(v0, *s) && (#[trigger] wire(v0)).is_prefix_of(s0) implies veq(
                            Value::I8(y),
                            v0,
                        ) && p2 == pos + wire(v0).len() by {
                            assert(wire(v0)[0] == s0[0]);
                            match v0 {
                                Value::I8(y0) => {
                                    assert(crate::value::u8_of_i8(y0) == b);
                                    crate::value::lemma_two_complement_inj(y, y0, 0, 0, 0, 0, 0, 0);
                                },
                                _ => {},
                            }
                        }
                        assert(fits(Value::I8(y), *s));
                        assert(s0[0] == b);
                        assert(dlen(*s, s0) == Ok::<nat, Error>(1));
                        assert(input@.subrange(pos as int, pos + 1) =~= seq![b]);
                        assert(wire(Value::I8(y)) == seq![b]);
                        assert(lwire(Value::I8(y), input@.subrange(pos as int, pos + 1)));
                    }
                    Ok((Value::I8(y), p2))
                },
            }
        },
        Shape::U16 => decode_u(s, input, pos, 2),
        Shape::U32 => decode_u(s, input, pos, 4),
        Shape::U64 => decode_u(s, input, pos, 8),
        Shape::I16 => decode_u(s, input, pos, 2),
        Shape::I32 => decode_u(s, input, pos, 4),
        Shape::I64 => decode_u(s, input, pos, 8),
        Shape::Char => decode_char(s, input, pos),
        Shape::Str => decode_len_bytes(s, input, pos),
        Shape::Bytes => decode_len_bytes(s, input, pos),
        Shape::Opt(inner) => {
            match take_byte(input, pos) {
                Err(e) => {
                    proof {
                        assert forall|v0: Value|
                            fits(v0, *s) && (#[trigger] wire(v0)).is_prefix_of(s0) implies false by {
                            assert(s0.len() == 0);
                            match v0 {
                                Value::Opt(o0) => {
                                    assert(wire(v0).len() >= 1);
                                },
                                _ => {},
                            }
                        }
                    }
                    Err(e)
                },
                Ok((b, p2)) => {
                    proof {
                        assert forall|v0: Value|
                            fits(v0, *s) && (#[trigger] wire(v0)).is_prefix_of(s0) implies (
                        v0 matches Value::Opt(o0) && (o0 matches Option::None ==> b == 0) && (
                        o0 matches Option::Some(_) ==> b == 1)) by {
                            assert(wire(v0)[0] == s0[0]);
                        }
                        assert(s0[0] == b);
                    }
                    if b == 0 {
                        proof {
                            assert(fits(Value::Opt(Option::None), *s));
                            assert(dlen(*s, s0) == Ok::<nat, Error>(1));
                            assert(input@.subrange(pos as int, pos + 1) =~= seq![0u8]);
                            assert(lwire(Value::Opt(Option::None), input@.subrange(
                                pos as int,
                                pos + 1,
                            )));
                        }
                        Ok((Value::Opt(Option::None), p2))
                    } else if b == 1 {
                        match decode_value(inner, input, p2) {
                            Err(e) => {
                                proof {
                                    assert forall|v0: Value|
                                        fits(v0, *s) && (#[trigger] wire(v0)).is_prefix_of(s0)
                                        implies false by {
                                        match v0 {
                                            Value::Opt(o0) => match o0 {
                                                Option::Some(i0) => {
                                                    lemma_prefix_parts(
                                                        input@,
                                                        pos as int,
                                                        seq![1u8],
                                                        wire(*i0),
                                                    );
                                                },
                                                Option::None => {},
                                            },
                                            _ => {},
                                        }
                                    }
                                    assert(s0.skip(1) =~= input@.skip(p2 as int));
                                    assert(dlen(*s, s0) == Err::<nat, Error>(e));
                                }
                                Err(e)
                            },
                            Ok((vi, end)) => {
                                let out = Value::Opt(Option::Some(Box::new(vi)));
                                proof {
                                    assert forall|v0: Value|
                                        fits(v0, *s) && (#[trigger] wire(v0)).is_prefix_of(s0)
                                        implies veq(out, v0) && end == pos + wire(v0).len() by {
                                        match v0 {
                                            Value::Opt(o0) => match o0 {
                                                Option::Some(i0) => {
                                                    lemma_prefix_parts(
                                                        input@,
                                                        pos as int,
                                                        seq![1u8],
                                                        wire(*i0),
                                                    );
                                                },
                                                Option::None => {},
                                            },
                                            _ => {},
                                        }
                                    }
                                    assert(fits(out, *s));
                                    assert(s0.skip(1) =~= input@.skip(p2 as int));
                                    assert(dlen(*s, s0) == dadd(
                                        1,
                                        dlen(**inner, input@.skip(p2 as int)),
                                    ));
                                    assert(dlen(*s, s0) == Ok::<nat, Error>((end - pos) as nat));
                                    let c = input@.subrange(pos as int, end as int);
                                    assert(c.skip(1) =~= input@.subrange(p2 as int, end as int));
                                    assert(c[0] == 1u8);
                                    lemma_lwire_some(out, c);
                                }
                                Ok((out, end))
                            },
                        }
                    } else {
                        proof {
                            assert(dlen(*s, s0) == Err::<nat, Error>(
                                Error::DeserializeBadOption,
                            ));
                        }
                        Err(Error::DeserializeBadOption)
                    }
                },
            }
        },
        Shape::List(es) => {
            match try_take_varint(input, pos) {
                Err(e) => {
                    proof {
                        assert forall|v0: Value|
                            fits(v0, *s) && (#[trigger] wire(v0)).is_prefix_of(s0) implies false by {
                            match v0 {
                                Value::List(xs0) => {
                                    assert(xs0.len() == xs0@.len());
                                    lemma_prefix_parts(
                                        input@,
                                        pos as int,
                                        varint_enc(xs0@.len()),
                                        wire_elems(xs0@),
                                    );
                                },
                                _ => {},
                            }
                        }
                        assert(dlen(*s, s0) == Err::<nat, Error>(e));
                    }
                    Err(e)
                },
                Ok((n, p2)) => {
                    let r2 = decode_count_elems(es, n, input, p2);
                    proof {
                        assert(s0.skip((p2 - pos) as int) =~= input@.skip(p2 as int));
                        assert(dlen(*s, s0) == dadd(
                            (p2 - pos) as nat,
                            dlen_count(**es, n as nat, input@.skip(p2 as int)),
                        ));
                    }
                    proof {
                        assert forall|v0: Value|
                            fits(v0, *s) && (#[trigger] wire(v0)).is_prefix_of(s0) implies (
                        v0 matches Value::List(xs0) && xs0@.len() == n && wire_elems(
                            xs0@,
                        ).is_prefix_of(input@.skip(p2 as int)) && p2 == pos + varint_enc(
                            xs0@.len(),
                        ).len()) by {
                            match v0 {
                                Value::List(xs0) => {
                                    assert(xs0.len() == xs0@.len());
                                    lemma_prefix_parts(
                                        input@,
                                        pos as int,
                                        varint_enc(xs0@.len()),
                                        wire_elems(xs0@),
                                    );
                                },
                                _ => {},
                            }
                        }
                    }
                    proof {
                        assert forall|v0: Value|
                            fits(v0, *s) && (#[trigger] wire(v0)).is_prefix_of(s0) implies (
                        r2 matches Ok(p) && (v0 matches Value::List(xs0) && veq_elems(p.0@, xs0@)
                            && p.1 == pos + wire(v0).len())) by {
                            match v0 {
                                Value::List(xs0) => {
                                    assert(wire_elems(xs0@).is_prefix_of(input@.skip(p2 as int)));
                                    assert(forall|k: int|
                                        0 <= k < n ==> fits(#[trigger] xs0@[k], **es));
                                },
                                _ => {},
                            }
                        }
                    }
                    match r2 {
                        Err(e) => Err(e),
                        Ok((vs, end)) => {
                            proof {
                                assert(fits(Value::List(vs), *s));
                                assert(dlen(*s, s0) == Ok::<nat, Error>((end - pos) as nat));
                                let c = input@.subrange(pos as int, end as int);
                                assert(c.subrange(0, (p2 - pos) as int) =~= input@.subrange(
                                    pos as int,
                                    p2 as int,
                                ));
                                assert(c.skip((p2 - pos) as int) =~= input@.subrange(
                                    p2 as int,
                                    end as int,
                                ));
                                assert(vhead(c, (p2 - pos) as int, vs@.len()));
                                lemma_lwire_counted(Value::List(vs), c, (p2 - pos) as int);
                            }
                            Ok((Value::List(vs), end))
                        },
                    }
                },
            }
        },
        Shape::Tup(ss) => {
            let r2 = decode_fields(ss, input, pos);
            proof {
                assert forall|v0: Value|
                    fits(v0, *s) && (#[trigger] wire(v0)).is_prefix_of(s0) implies (
                r2 matches Ok(p) && (v0 matches Value::Tup(xs0) && veq_elems(p.0@, xs0@) && p.1
                    == pos + wire_elems(xs0@).len())) by {
                    match v0 {
                        Value::Tup(xs0) => {
                            assert(wire(v0) == wire_elems(xs0@));
                            assert(fits_elems(xs0@, ss@));
                        },
                        _ => {},
                    }
                }
            }
            match r2 {
                Err(e) => {
                    proof {
                        assert(dlen(*s, s0) == Err::<nat, Error>(e));
                    }
                    Err(e)
                },
                Ok((vs, end)) => {
                    proof {
                        assert(fits(Value::Tup(vs), *s));
                        assert(dlen(*s, s0) == Ok::<nat, Error>((end - pos) as nat));
                        lemma_lwire_framed(
                            Value::Tup(vs),
                            input@.subrange(pos as int, end as int),
                        );
                    }
                    Ok((Value::Tup(vs), end))
                },
            }
        },
        Shape::Record(ss) => {
            let r2 = decode_fields(ss, input, pos);
            proof {
                assert forall|v0: Value|
                    fits(v0, *s) && (#[trigger] wire(v0)).is_prefix_of(s0) implies (
                r2 matches Ok(p) && (v0 matches Value::Record(xs0) && veq_elems(p.0@, xs0@) && p.1
                    == pos + wire_elems(xs0@).len())) by {
                    match v0 {
                        Value::Record(xs0) => {
                            assert(wire(v0) == wire_elems(xs0@));
                            assert(fits_elems(xs0@, ss@));
                        },
                        _ => {},
                    }
                }
            }
            match r2 {
                Err(e) => {
                    proof {
                        assert(dlen(*s, s0) == Err::<nat, Error>(e));
                    }
                    Err(e)
                },
                Ok((vs, end)) => {
                    proof {
                        assert(fits(Value::Record(vs), *s));
                        assert(dlen(*s, s0) == Ok::<nat, Error>((end - pos) as nat));
                        lemma_lwire_framed(
                            Value::Record(vs),
                            input@.subrange(pos as int, end as int),
                        );
                    }
                    Ok((Value::Record(vs), end))
                },
            }
        },
        Shape::TupleRecord(ss) => {
            let r2 = decode_fields(ss, input, pos);
            proof {
                assert forall|v0: Value|
                    fits(v0, *s) && (#[trigger] wire(v0)).is_prefix_of(s0) implies (
                r2 matches Ok(p) && (v0 matches Value::TupleRecord(xs0) && veq_elems(p.0@, xs0@) && p.1
                    == pos + wire_elems(xs0@).len())) by {
                    match v0 {
                        Value::TupleRecord(xs0) => {
                            assert(wire(v0) == wire_elems(xs0@));
                            assert(fits_elems(xs0@, ss@));
                        },
                        _ => {},
                    }
                }
            }
            match r2 {
                Err(e) => {
                    proof {
                        assert(dlen(*s, s0) == Err::<nat, Error>(e));
                    }
                    Err(e)
                },
                Ok((vs, end)) => {
                    proof {
                        assert(fits(Value::TupleRecord(vs), *s));
                        assert(dlen(*s, s0) == Ok::<nat, Error>((end - pos) as nat));
                        lemma_lwire_framed(
                            Value::TupleRecord(vs),
                            input@.subrange(pos as int, end as int),
                        );
                    }
                    Ok((Value::TupleRecord(vs), end))
                },
            }
        },
        Shape::Newtype(inner) => {
            let r2 = decode_value(inner, input, pos);
            proof {
                assert forall|v0: Value|
                    fits(v0, *s) && (#[trigger] wire(v0)).is_prefix_of(s0) implies (
                r2 matches Ok(p) && (v0 matches Value::Newtype(i0) && veq(p.0, *i0) && p.1 == pos
                    + wire(*i0).len())) by {
                    match v0 {
                        Value::Newtype(i0) => {
                            assert(wire(v0) == wire(*i0));
                            assert(fits(*i0, **inner));
                        },
                        _ => {},
                    }
                }
            }
            match r2 {
                Err(e) => {
                    proof {
                        assert(dlen(*s, s0) == Err::<nat, Error>(e));
                    }
                    Err(e)
                },
                Ok((vi, end)) => {
                    proof {
                        assert(fits(Value::Newtype(Box::new(vi)), *s));
                        assert(dlen(*s, s0) == Ok::<nat, Error>((end - pos) as nat));
                        lemma_lwire_framed(
                            Value::Newtype(Box::new(vi)),
                            input@.subrange(pos as int, end as int),
                        );
                    }
                    Ok((Value::Newtype(Box::new(vi)), end))
                },
            }
        },
        Shape::Mapping(_, _) => {
            match try_take_varint(input, pos) {
                Err(e) => {
                    proof {
                        assert forall|v0: Value|
                            fits(v0, *s) && (#[trigger] wire(v0)).is_prefix_of(s0) implies false by {
                            match v0 {
                                Value::Mapping(ps0) => {
                                    assert(ps0.len() == ps0@.len());
                                    lemma_prefix_parts(
                                        input@,
                                        pos as int,
                                        varint_enc(ps0@.len()),
                                        wire_pairs(ps0@),
                                    );
                                },
                                _ => {},
                            }
                        }
                        assert(dlen(*s, s0) == Err::<nat, Error>(e));
                    }
                    Err(e)
                },
                Ok((n, p2)) => {
                    let r2 = decode_count_pairs(s, n, input, p2);
                    proof {
                        assert(s0.skip((p2 - pos) as int) =~= input@.skip(p2 as int));
                        assert(dlen(*s, s0) == dadd(
                            (p2 - pos) as nat,
                            dlen_pairs(*s, n as nat, input@.skip(p2 as int)),
                        ));
                    }
                    proof {
                        assert forall|v0: Value|
                            fits(v0, *s) && (#[trigger] wire(v0)).is_prefix_of(s0) implies (
                        v0 matches Value::Mapping(ps0) && ps0@.len() == n && wire_pairs(
                            ps0@,
                        ).is_prefix_of(input@.skip(p2 as int)) && p2 == pos + varint_enc(
                            ps0@.len(),
                        ).len()) by {
                            match v0 {
                                Value::Mapping(ps0) => {
                                    assert(ps0.len() == ps0@.len());
                                    lemma_prefix_parts(
                                        input@,
                                        pos as int,
                                        varint_enc(ps0@.len()),
                                        wire_pairs(ps0@),
                                    );
                                },
                                _ => {},
                            }
                        }
                    }
                    proof {
                        assert forall|v0: Value|
                            fits(v0, *s) && (#[trigger] wire(v0)).is_prefix_of(s0) implies (
                        r2 matches Ok(p) && (v0 matches Value::Mapping(ps0) && p.0@.len()
                            == ps0@.len() && (forall|j: int|
                            0 <= j < ps0@.len() ==> veq((#[trigger] p.0@[j]).0, ps0@[j].0) && veq(
                                p.0@[j].1,
                                ps0@[j].1,
                            )) && p.1 == pos + wire(v0).len())) by {
                            match v0 {
                                Value::Mapping(ps0) => {
                                    assert(wire_pairs(ps0@).is_prefix_of(input@.skip(p2 as int)));
                                    assert(forall|k: int|
                                        0 <= k < n ==> fits((#[trigger] ps0@[k]).0, mkey(*s))
                                            && fits(ps0@[k].1, mval(*s)));
                                },
                                _ => {},
                            }
                        }
                    }
                    match r2 {
                        Err(e) => Err(e),
                        Ok((ps, end)) => {
                            proof {
                                assert(fits(Value::Mapping(ps), *s));
                                assert(dlen(*s, s0) == Ok::<nat, Error>((end - pos) as nat));
                                let c = input@.subrange(pos as int, end as int);
                                assert(c.subrange(0, (p2 - pos) as int) =~= input@.subrange(
                                    pos as int,
                                    p2 as int,
                                ));
                                assert(c.skip((p2 - pos) as int) =~= input@.subrange(
                                    p2 as int,
                                    end as int,
                                ));
                                assert(vhead(c, (p2 - pos) as int, ps@.len()));
                                lemma_lwire_counted(Value::Mapping(ps), c, (p2 - pos) as int);
                            }
                            Ok((Value::Mapping(ps), end))
                        },
                    }
                },
            }
        },
        Shape::Enum(vars) => {
            match try_take_varint(input, pos) {
                Err(e) => {
                    proof {
                        assert forall|v0: Value|
                            fits(v0, *s) && (#[trigger] wire(v0)).is_prefix_of(s0) implies false by {
                            match v0 {
                                Value::Enum(d0, fs0) => {
                                    lemma_prefix_parts(
                                        input@,
                                        pos as int,
                                        varint_enc(d0 as nat),
                                        wire_elems(fs0@),
                                    );
                                },
                                _ => {},
                            }
                        }
                        assert(dlen(*s, s0) == Err::<nat, Error>(e));
                    }
                    Err(e)
                },
                Ok((d, p2)) => {
                    proof {
                        assert forall|v0: Value|
                            fits(v0, *s) && (#[trigger] wire(v0)).is_prefix_of(s0) implies (
                        v0 matches Value::Enum(d0, fs0) && d0 == d && wire_elems(
                            fs0@,
                        ).is_prefix_of(input@.skip(p2 as int)) && p2 == pos + varint_enc(
                            d0 as nat,
                        ).len()) by {
                            match v0 {
                                Value::Enum(d0, fs0) => {
                                    lemma_prefix_parts(
                                        input@,
                                        pos as int,
                                        varint_enc(d0 as nat),
                                        wire_elems(fs0@),
                                    );
                                },
                                _ => {},
                            }
                        }
                    }
                    let umax: usize = 0xFFFF_FFFF;
                    if d > umax || d >= vars.len() {
                        proof {
                            assert forall|v0: Value|
                                fits(v0, *s) && (#[trigger] wire(v0)).is_prefix_of(s0) implies
                                false by {
                                match v0 {
                                    Value::Enum(d0, fs0) => {
                                        assert(d0 == d && d0 < vars@.len() && d0 <= u32::MAX);
                                    },
                                    _ => {},
                                }
                            }
                        }
                        proof {
                            assert(dlen(*s, s0) == Err::<nat, Error>(Error::DeserializeBadEnum));
                        }
                        Err(Error::DeserializeBadEnum)
                    } else {
                        let r2 = decode_fields(&vars[d], input, p2);
                        proof {
                            assert(s0.skip((p2 - pos) as int) =~= input@.skip(p2 as int));
                            assert(dlen(*s, s0) == dadd(
                                (p2 - pos) as nat,
                                dlen_fields(vars@[d as int]@, input@.skip(p2 as int)),
                            ));
                        }
                        proof {
                            assert forall|v0: Value|
                                fits(v0, *s) && (#[trigger] wire(v0)).is_prefix_of(s0) implies (
                            r2 matches Ok(p) && (v0 matches Value::Enum(d0, fs0) && d0 == d
                                && veq_elems(p.0@, fs0@) && p.1 == pos + wire(v0).len())) by {
                                match v0 {
                                    Value::Enum(d0, fs0) => {
                                        assert(wire_elems(fs0@).is_prefix_of(
                                            input@.skip(p2 as int),
                                        ));
                                        assert(fits_elems(fs0@, vars@[d as int]@));
                                    },
                                    _ => {},
                                }
                            }
                        }
                        match r2 {
                            Err(e) => Err(e),
                            Ok((vs, end)) => {
                                proof {
                                    assert(fits(Value::Enum(d, vs), *s));
                                    assert(dlen(*s, s0) == Ok::<nat, Error>((end - pos) as nat));
                                    let c = input@.subrange(pos as int, end as int);
                                    assert(c.subrange(0, (p2 - pos) as int) =~= input@.subrange(
                                        pos as int,
                                        p2 as int,
                                    ));
                                    assert(c.skip((p2 - pos) as int) =~= input@.subrange(
                                        p2 as int,
                                        end as int,
                                    ));
                                    assert(vhead(c, (p2 - pos) as int, d as nat));
                                    lemma_lwire_counted(Value::Enum(d, vs), c, (p2 - pos) as int);
                                }
                                Ok((Value::Enum(d, vs), end))
                            },
                        }
                    }
                },
            }
        },
    }
}

/// Decodes one unsigned little-endian field of the given width and wraps it
/// in the numeric constructor the shape asks for.
fn decode_u(s: &Shape, input: &[u8], pos: usize, width: usize) -> (r: Result<(Value, usize), Error>)
    requires
        pos <= input@.len(),
        (*s matches Shape::U16 && width == 2) || (*s matches Shape::U32 && width == 4) || (
        *s matches Shape::U64 && width == 8) || (*s matches Shape::I16 && width == 2) || (
        *s matches Shape::I32 && width == 4) || (*s matches Shape::I64 && width == 8),
    ensures
        match r {
            Ok(p) => pos <= p.1 <= input@.len() && fits(p.0, *s),
            Err(e) => is_decode_error(e),
        },
        forall|v0: Value|
            fits(v0, *s) && (#[trigger] wire(v0)).is_prefix_of(input@.skip(pos as int)) ==> (
            r matches Ok(p) && veq(p.0, v0) && p.1 == pos + wire(v0).len()),
        match r {
            Ok(p) => dlen(*s, input@.skip(pos as int)) == Ok::<nat, Error>((p.1 - pos) as nat)
                && lwire(p.0, input@.subrange(pos as int, p.1 as int)),
            Err(e) => dlen(*s, input@.skip(pos as int)) == Err::<nat, Error>(e),
        },
{
    let ghost s0 = input@.skip(pos as int);
    proof {
        lemma_pow256_vals();
    }
    match take_le(input, pos, width) {
        Err(e) => {
            proof {
                assert forall|v0: Value|
                    fits(v0, *s) && (#[trigger] wire(v0)).is_prefix_of(s0) implies false by {
                    lemma_widths(v0, *s, width);
                    lemma_prefix_sub(input@, pos as int, wire(v0));
                }
            }
            Err(e)
        },
        Ok((x, p2)) => {
            let ghost sub = input@.subrange(pos as int, pos + width);
            proof {
                lemma_le_val_bound(sub);
                lemma_le_bytes_len(0, width as nat);
                assert(sub.len() == width);
            }
            let out: Value = match s {
                Shape::U16 => Value::U16(x as u16),
                Shape::U32 => Value::U32(x as u32),
                Shape::U64 => Value::U64(x),
                Shape::I16 => Value::I16(crate::value::u16_to_i16(x as u16)),
                Shape::I32 => Value::I32(crate::value::u32_to_i32(x as u32)),
                _ => Value::I64(crate::value::u64_to_i64(x)),
            };
            proof {
                assert forall|v0: Value|
                    fits(v0, *s) && (#[trigger] wire(v0)).is_prefix_of(s0) implies veq(out, v0)
                    && p2 == pos + wire(v0).len() by {
                    lemma_widths(v0, *s, width);
                    lemma_prefix_sub(input@, pos as int, wire(v0));
                    match (v0, out) {
                        (Value::U16(y), _) => {
                            lemma_le_bytes_le_val(y as nat, 2);
                            assert(x == y);
                        },
                        (Value::U32(y), _) => {
                            lemma_le_bytes_le_val(y as nat, 4);
                            assert(x == y);
                        },
                        (Value::U64(y), _) => {
                            lemma_le_bytes_le_val(y as nat, 8);
                            assert(x == y);
                        },
                        (Value::I16(y), Value::I16(z)) => {
                            lemma_le_bytes_le_val(crate::value::u16_of_i16(y) as nat, 2);
                            assert(x == crate::value::u16_of_i16(y));
                            crate::value::lemma_two_complement_inj(0, 0, z, y, 0, 0, 0, 0);
                        },
                        (Value::I32(y), Value::I32(z)) => {
                            lemma_le_bytes_le_val(crate::value::u32_of_i32(y) as nat, 4);
                            assert(x == crate::value::u32_of_i32(y));
                            crate::value::lemma_two_complement_inj(0, 0, 0, 0, z, y, 0, 0);
                        },
                        (Value::I64(y), Value::I64(z)) => {
                            lemma_le_bytes_le_val(crate::value::u64_of_i64(y) as nat, 8);
                            assert(x == crate::value::u64_of_i64(y));
                            crate::value::lemma_two_complement_inj(0, 0, 0, 0, 0, 0, z, y);
                        },
                        _ => {},
                    }
                }
                assert(dlen(*s, s0) == Ok::<nat, Error>(width as nat));
                crate::value::lemma_le_val_le_bytes(sub);
                assert(wire(out) == sub) by {
                    match out {
                        Value::U16(z) => {
                            assert(z as nat == x as nat);
                        },
                        Value::U32(z) => {
                            assert(z as nat == x as nat);
                        },
                        Value::U64(z) => {
                            assert(z as nat == x as nat);
                        },
                        Value::I16(z) => {
                            assert(crate::value::u16_of_i16(z) as nat == x as nat);
                        },
                        Value::I32(z) => {
                            assert(crate::value::u32_of_i32(z) as nat == x as nat);
                        },
                        Value::I64(z) => {
                            assert(crate::value::u64_of_i64(z) as nat == x as nat);
                        },
                        _ => {},
                    }
                }
                assert(lwire(out, sub));
            }
            Ok((out, p2))
        },
    }
}


/// Decodes a character: a 4-byte little-endian codepoint that has to be a
/// Unicode scalar value.
fn decode_char(s: &Shape, input: &[u8], pos: usize) -> (r: Result<(Value, usize), Error>)
    requires
        pos <= input@.len(),
        *s matches Shape::Char,
    ensures
        match r {
            Ok(p) => pos <= p.1 <= input@.len() && fits(p.0, *s),
            Err(e) => is_decode_error(e),
        },
        forall|v0: Value|
            fits(v0, *s) && (#[trigger] wire(v0)).is_prefix_of(input@.skip(pos as int)) ==> (
            r matches Ok(p) && veq(p.0, v0) && p.1 == pos + wire(v0).len()),
        match r {
            Ok(p) => dlen(*s, input@.skip(pos as int)) == Ok::<nat, Error>((p.1 - pos) as nat)
                && lwire(p.0, input@.subrange(pos as int, p.1 as int)),
            Err(e) => dlen(*s, input@.skip(pos as int)) == Err::<nat, Error>(e),
        },
{
    let ghost s0 = input@.skip(pos as int);

    match take_le(input, pos, 4) {
        Err(e) => {
            proof {
                lemma_pow256_vals();
                assert forall|v0: Value|
                    fits(v0, *s) && (#[trigger] wire(v0)).is_prefix_of(s0) implies false by {
                    match v0 {
                        Value::Char(c0) => {
                            lemma_le_bytes_len((c0 as u32) as nat, 4);
                            lemma_prefix_sub(input@, pos as int, wire(v0));
                        },
                        _ => {},
                    }
                }
                assert(s0.len() < 4);
            }
            Err(e)
        },
        Ok((x, p2)) => {
            let ghost sub = input@.subrange(pos as int, pos + 4);
            proof {
                lemma_pow256_vals();
                lemma_le_val_bound(sub);
                assert(s0.subrange(0, 4) =~= sub);
            }
            match char_from_u32(x as u32) {
                Option::Some(c) => {
                    proof {
                        crate::value::lemma_fits_char(c);
                        assert(sub.len() == 4);
                        assert(x < 0x1_0000_0000);
                        assert(le_val(s0.subrange(0, 4)) as u32 == x as u32);
                        assert(dlen(*s, s0) == Ok::<nat, Error>(4));
                        assert(c as u32 == x as u32);
                        assert((c as u32) as nat == x as nat);
                        lemma_char_bytes(c, sub);
                        assert forall|v0: Value|
                            fits(v0, *s) && (#[trigger] wire(v0)).is_prefix_of(s0) implies
                            veq(Value::Char(c), v0) && p2 == pos + wire(v0).len() by {
                            match v0 {
                                Value::Char(c0) => {
                                    vstd::utf8::char_is_scalar(c0);
                                    lemma_le_bytes_len((c0 as u32) as nat, 4);
                                    lemma_prefix_sub(input@, pos as int, wire(v0));
                                    lemma_le_bytes_le_val((c0 as u32) as nat, 4);
                                    assert(x == c0 as u32);
                                    vstd::utf8::char_u32_cast(c, x as u32);
                                    vstd::utf8::char_u32_cast(c0, x as u32);
                                },
                                _ => {},
                            }
                        }
                    }
                    Ok((Value::Char(c), p2))
                },
                Option::None => {
                    proof {
                        assert forall|v0: Value|
                            fits(v0, *s) && (#[trigger] wire(v0)).is_prefix_of(s0) implies
                            false by {
                            match v0 {
                                Value::Char(c0) => {
                                    vstd::utf8::char_is_scalar(c0);
                                    lemma_le_bytes_len((c0 as u32) as nat, 4);
                                    lemma_prefix_sub(input@, pos as int, wire(v0));
                                    lemma_le_bytes_le_val((c0 as u32) as nat, 4);
                                    assert(x == c0 as u32);
                                    assert(is_scalar(x as u32));
                                },
                                _ => {},
                            }
                        }
                        assert(le_val(s0.subrange(0, 4)) as u32 == x as u32);
                        assert(dlen(*s, s0) == Err::<nat, Error>(
                            Error::DeserializeBadChar,
                        ));
                    }
                    Err(Error::DeserializeBadChar)
                },
            }
        },
    }
}

/// The encoding width of each fixed-width numeric value.
proof fn lemma_widths(v0: Value, s: Shape, width: usize)
    requires
fits(v0, s),
(s matches Shape::U16 && width == 2) || (s matches Shape::U32 && width == 4) || (
s matches Shape::U64 && width == 8) || (s matches Shape::I16 && width == 2) || (
s matches Shape::I32 && width == 4) || (s matches Shape::I64 && width == 8),
    ensures
wire(v0).len() == width,
{
    match v0 {
Value::U16(y) => lemma_le_bytes_len(y as nat, 2),
Value::U32(y) => lemma_le_bytes_len(y as nat, 4),
Value::U64(y) => lemma_le_bytes_len(y as nat, 8),
Value::I16(y) => lemma_le_bytes_len(crate::value::u16_of_i16(y) as nat, 2),
Value::I32(y) => lemma_le_bytes_len(crate::value::u32_of_i32(y) as nat, 4),
Value::I64(y) => lemma_le_bytes_len(crate::value::u64_of_i64(y) as nat, 8),
_ => (),
    }
}

/// Decodes the varint byte count and then the raw byte range, the rule
/// shared by strings and byte strings; a string additionally has to be
/// valid UTF-8.
fn decode_len_bytes(s: &Shape, input: &[u8], pos: usize) -> (r: Result<(Value, usize), Error>)
    requires
        pos <= input@.len(),
        (*s matches Shape::Str) || (*s matches Shape::Bytes),
    ensures
        match r {
            Ok(p) => pos <= p.1 <= input@.len() && fits(p.0, *s),
            Err(e) => is_decode_error(e),
        },
        forall|v0: Value|
            fits(v0, *s) && (#[trigger] wire(v0)).is_prefix_of(input@.skip(pos as int)) ==> (
            r matches Ok(p) && veq(p.0, v0) && p.1 == pos + wire(v0).len()),
        match r {
            Ok(p) => dlen(*s, input@.skip(pos as int)) == Ok::<nat, Error>((p.1 - pos) as nat)
                && lwire(p.0, input@.subrange(pos as int, p.1 as int)),
            Err(e) => dlen(*s, input@.skip(pos as int)) == Err::<nat, Error>(e),
        },
{
    let ghost s0 = input@.skip(pos as int);
    match try_take_varint(input, pos) {
        Err(e) => {
            proof {
                assert forall|v0: Value|
                    fits(v0, *s) && (#[trigger] wire(v0)).is_prefix_of(s0) implies false by {
                    match v0 {
                        Value::Str(b0) => {
                            assert(b0.len() == b0@.len());
                            lemma_prefix_parts(input@, pos as int, varint_enc(b0@.len()), b0@);
                        },
                        Value::Bytes(b0) => {
                            assert(b0.len() == b0@.len());
                            lemma_prefix_parts(input@, pos as int, varint_enc(b0@.len()), b0@);
                        },
                        _ => {},
                    }
                }
            }
            Err(e)
        },
        Ok((len, p2)) => {
            proof {
                assert forall|v0: Value|
                    fits(v0, *s) && (#[trigger] wire(v0)).is_prefix_of(s0) implies (match v0 {
                    Value::Str(b0) => b0@.len() == len && p2 + len <= input@.len() && input@.subrange(
                        p2 as int,
                        p2 + len,
                    ) == b0@ && pos + wire(v0).len() == p2 + len,
                    Value::Bytes(b0) => b0@.len() == len && p2 + len <= input@.len()
                        && input@.subrange(p2 as int, p2 + len) == b0@ && pos + wire(v0).len()
                        == p2 + len,
                    _ => false,
                }) by {
                    match v0 {
                        Value::Str(b0) => {
                            assert(b0.len() == b0@.len());
                            lemma_prefix_parts(input@, pos as int, varint_enc(b0@.len()), b0@);
                            lemma_prefix_sub(input@, p2 as int, b0@);
                        },
                        Value::Bytes(b0) => {
                            assert(b0.len() == b0@.len());
                            lemma_prefix_parts(input@, pos as int, varint_enc(b0@.len()), b0@);
                            lemma_prefix_sub(input@, p2 as int, b0@);
                        },
                        _ => {},
                    }
                }
            }
            let n: usize = input.len();
            proof {
                assert(crate::varint::vparse(s0) == Ok::<(nat, nat), Error>(
                    (len as nat, (p2 - pos) as nat),
                ));
            }
            if len > n - p2 {
                proof {
                    assert((p2 - pos) + len > s0.len());
                    assert(dlen(*s, s0) == Err::<nat, Error>(Error::DeserializeUnexpectedEnd));
                }
                return Err(Error::DeserializeUnexpectedEnd);
            }
            let end: usize = p2 + len;
            let sl: &[u8] = vstd::slice::slice_subrange(input, p2, end);
            let bytes: Vec<u8> = vstd::slice::slice_to_vec(sl);
            proof {
                let ghost u = p2 - pos;
                assert(s0.subrange(u as int, (u + len) as int) =~= bytes@);
                assert(input@.subrange(pos as int, end as int).subrange(0, u as int)
                    =~= input@.subrange(pos as int, p2 as int));
                assert(input@.subrange(pos as int, end as int).skip(u as int) =~= bytes@);
                assert(vhead(input@.subrange(pos as int, end as int), u as int, bytes@.len()));
            }
            match s {
                Shape::Str => {
                    if utf8_check(bytes.as_slice()) {
                        proof {
                            let ghost u = (p2 - pos) as nat;
                            assert(u + len as nat <= s0.len());
                            assert(valid_utf8(s0.subrange(u as int, u as int + len as int)));
                            assert(dlen(*s, s0) == Ok::<nat, Error>(u + len as nat));
                            assert(dlen(*s, s0) == Ok::<nat, Error>((end - pos) as nat));
                            let c = input@.subrange(pos as int, end as int);
                            assert(vhead(c, p2 - pos, bytes@.len()) && c.skip(p2 - pos)
                                == bytes@);
                            lemma_lwire_blob(Value::Str(bytes), c, p2 - pos);
                        }
                        Ok((Value::Str(bytes), end))
                    } else {
                        proof {
                            assert(dlen(*s, s0) == Err::<nat, Error>(Error::DeserializeBadUtf8));
                        }
                        Err(Error::DeserializeBadUtf8)
                    }
                },
                _ => {
                    proof {
                        let ghost u = (p2 - pos) as nat;
                        assert(u + len as nat <= s0.len());
                        assert(dlen(*s, s0) == Ok::<nat, Error>(u + len as nat));
                        assert(dlen(*s, s0) == Ok::<nat, Error>((end - pos) as nat));
                        let c = input@.subrange(pos as int, end as int);
                        assert(vhead(c, p2 - pos, bytes@.len()) && c.skip(p2 - pos) == bytes@);
                        lemma_lwire_blob(Value::Bytes(bytes), c, p2 - pos);
                    }
                    Ok((Value::Bytes(bytes), end))
                },
            }
        },
    }
}

/// Decodes `n` successive elements of one shape, the payload rule of a
/// sequence after its count.
fn decode_count_elems(es: &Shape, n: usize, input: &[u8], pos: usize) -> (r: Result<
    (Vec<Value>, usize),
    Error,
>)
    requires
        pos <= input@.len(),
    ensures
        match r {
            Ok(p) => pos <= p.1 <= input@.len() && p.0@.len() == n && (forall|i: int|
                0 <= i < n ==> fits(#[trigger] p.0@[i], *es)),
            Err(e) => is_decode_error(e),
        },
        forall|vs0: Seq<Value>|
            vs0.len() == n && (forall|k: int| 0 <= k < n ==> fits(vs0[k], *es)) && (
            #[trigger] wire_elems(vs0)).is_prefix_of(input@.skip(pos as int)) ==> (
            r matches Ok(p) && veq_elems(p.0@, vs0) && p.1 == pos + wire_elems(vs0).len()),
        match r {
            Ok(p) => dlen_count(*es, n as nat, input@.skip(pos as int)) == Ok::<nat, Error>(
                (p.1 - pos) as nat,
            ) && lwire_elems(p.0@, input@.subrange(pos as int, p.1 as int)),
            Err(e) => dlen_count(*es, n as nat, input@.skip(pos as int)) == Err::<nat, Error>(e),
        },
    decreases *es, 2int,
{
    let mut out: Vec<Value> = Vec::new();
    let mut cur: usize = pos;
    let mut i: usize = 0;
    proof {
        assert(dadd(0, dlen_count(*es, n as nat, input@.skip(pos as int))) == dlen_count(
            *es,
            n as nat,
            input@.skip(pos as int),
        ));
        assert(input@.subrange(pos as int, pos as int) =~= Seq::<u8>::empty());
        assert(lwire_elems(Seq::<Value>::empty(), Seq::<u8>::empty()));
    }
    while i < n
        invariant
            pos <= cur <= input@.len(),
            i <= n,
            out@.len() == i,
            dlen_count(*es, n as nat, input@.skip(pos as int)) == dadd(
                (cur - pos) as nat,
                dlen_count(*es, (n - i) as nat, input@.skip(cur as int)),
            ),
            lwire_elems(out@, input@.subrange(pos as int, cur as int)),
            forall|j: int| 0 <= j < i ==> fits(#[trigger] out@[j], *es),
            forall|vs0: Seq<Value>|
                vs0.len() == n && (forall|k: int| 0 <= k < n ==> fits(vs0[k], *es)) && (
                #[trigger] wire_elems(vs0)).is_prefix_of(input@.skip(pos as int)) ==> veq_elems(
                    out@,
                    vs0.subrange(0, i as int),
                ) && cur == pos + wire_elems(vs0.subrange(0, i as int)).len(),
        decreases n - i,
    {
        let r0 = decode_value(es, input, cur);
        proof {
            assert forall|vs0: Seq<Value>|
                vs0.len() == n && (forall|k: int| 0 <= k < n ==> fits(vs0[k], *es)) && (
                #[trigger] wire_elems(vs0)).is_prefix_of(input@.skip(pos as int)) implies (
            r0 matches Ok(p) && veq(p.0, vs0[i as int]) && p.1 == cur + wire(vs0[i as int]).len())
                by {
                crate::ser::lemma_wire_elems_split(vs0, i as int);
                lemma_prefix_parts(
                    input@,
                    pos as int,
                    wire_elems(vs0.subrange(0, i as int)),
                    wire_elems(vs0.skip(i as int)),
                );
                assert(vs0.skip(i as int)[0] == vs0[i as int]);
                assert(vs0.skip(i as int).drop_first() =~= vs0.skip(i + 1));
                assert(wire_elems(vs0.skip(i as int)) == wire(vs0[i as int]) + wire_elems(
                    vs0.skip(i + 1),
                ));
                lemma_prefix_parts(
                    input@,
                    cur as int,
                    wire(vs0[i as int]),
                    wire_elems(vs0.skip(i + 1)),
                );
                assert(fits(vs0[i as int], *es));
            }
        }
        match r0 {
            Err(e) => {
                proof {
                    assert(dlen_count(*es, (n - i) as nat, input@.skip(cur as int))
                        == Err::<nat, Error>(e));
                }
                return Err(e);
            },
            Ok((v, end2)) => {
                proof {
                    assert forall|vs0: Seq<Value>|
                        vs0.len() == n && (forall|k: int| 0 <= k < n ==> fits(vs0[k], *es)) && (
                        #[trigger] wire_elems(vs0)).is_prefix_of(input@.skip(pos as int)) implies
                        veq_elems(out@.push(v), vs0.subrange(0, i + 1)) && end2 == pos
                        + wire_elems(vs0.subrange(0, i + 1)).len() by {
                        lemma_wire_elems_snoc(vs0.subrange(0, i as int), vs0[i as int]);
                        assert(vs0.subrange(0, i as int).push(vs0[i as int]) =~= vs0.subrange(
                            0,
                            i + 1,
                        ));
                        assert(veq_elems(out@, vs0.subrange(0, i as int)));
                        assert forall|j: int| 0 <= j < i + 1 implies veq(
                            #[trigger] out@.push(v)[j],
                            vs0.subrange(0, i + 1)[j],
                        ) by {
                            if j < i {
                                assert(out@.push(v)[j] == out@[j]);
                                assert(vs0.subrange(0, i + 1)[j] == vs0.subrange(0, i as int)[j]);
                            } else {
                                assert(out@.push(v)[j] == v);
                                assert(vs0.subrange(0, i + 1)[j] == vs0[i as int]);
                            }
                        }
                    }
                    assert(input@.skip(cur as int).skip((end2 - cur) as int) =~= input@.skip(
                        end2 as int,
                    ));
                    assert(dlen_count(*es, (n - i) as nat, input@.skip(cur as int)) == dadd(
                        (end2 - cur) as nat,
                        dlen_count(*es, (n - i - 1) as nat, input@.skip(end2 as int)),
                    ));
                    lemma_dadd_assoc(
                        (cur - pos) as nat,
                        (end2 - cur) as nat,
                        dlen_count(*es, (n - i - 1) as nat, input@.skip(end2 as int)),
                    );
                    lemma_lwire_elems_snoc(
                        out@,
                        input@.subrange(pos as int, cur as int),
                        v,
                        input@.subrange(cur as int, end2 as int),
                    );
                    assert(input@.subrange(pos as int, cur as int) + input@.subrange(
                        cur as int,
                        end2 as int,
                    ) =~= input@.subrange(pos as int, end2 as int));
                }
                out.push(v);
                cur = end2;
                i = i + 1;
            },
        }
    }
    proof {
        assert forall|vs0: Seq<Value>|
            vs0.len() == n && (forall|k: int| 0 <= k < n ==> fits(vs0[k], *es)) && (
            #[trigger] wire_elems(vs0)).is_prefix_of(input@.skip(pos as int)) implies veq_elems(
            out@,
            vs0,
        ) && cur == pos + wire_elems(vs0).len() by {
            assert(vs0.subrange(0, n as int) =~= vs0);
        }
        assert(dlen_count(*es, 0, input@.skip(cur as int)) == Ok::<nat, Error>(0));
        assert(dlen_count(*es, n as nat, input@.skip(pos as int)) == Ok::<nat, Error>(
            (cur - pos) as nat,
        ));
    }
    Ok((out, cur))
}

/// Decodes one value per expected field shape, in order: the rule for
/// tuples, records, tuple structs and enum payloads.
fn decode_fields(ss: &Vec<Shape>, input: &[u8], pos: usize) -> (r: Result<
    (Vec<Value>, usize),
    Error,
>)
    requires
        pos <= input@.len(),
    ensures
        match r {
            Ok(p) => pos <= p.1 <= input@.len() && fits_elems(p.0@, ss@),
            Err(e) => is_decode_error(e),
        },
        forall|vs0: Seq<Value>|
            fits_elems(vs0, ss@) && (#[trigger] wire_elems(vs0)).is_prefix_of(
                input@.skip(pos as int),
            ) ==> (r matches Ok(p) && veq_elems(p.0@, vs0) && p.1 == pos + wire_elems(vs0).len()),
        match r {
            Ok(p) => dlen_fields(ss@, input@.skip(pos as int)) == Ok::<nat, Error>(
                (p.1 - pos) as nat,
            ) && lwire_elems(p.0@, input@.subrange(pos as int, p.1 as int)),
            Err(e) => dlen_fields(ss@, input@.skip(pos as int)) == Err::<nat, Error>(e),
        },
    decreases ss@, 0int,
{
    let n: usize = ss.len();
    let mut out: Vec<Value> = Vec::new();
    let mut cur: usize = pos;
    let mut i: usize = 0;
    proof {
        assert(ss@.skip(0) =~= ss@);
        assert(dadd(0, dlen_fields(ss@, input@.skip(pos as int))) == dlen_fields(
            ss@,
            input@.skip(pos as int),
        ));
        assert(input@.subrange(pos as int, pos as int) =~= Seq::<u8>::empty());
        assert(lwire_elems(Seq::<Value>::empty(), Seq::<u8>::empty()));
    }
    while i < n
        invariant
            pos <= cur <= input@.len(),
            i <= n,
            n == ss@.len(),
            out@.len() == i,
            dlen_fields(ss@, input@.skip(pos as int)) == dadd(
                (cur - pos) as nat,
                dlen_fields(ss@.skip(i as int), input@.skip(cur as int)),
            ),
            lwire_elems(out@, input@.subrange(pos as int, cur as int)),
            forall|j: int| 0 <= j < i ==> fits(#[trigger] out@[j], ss@[j]),
            forall|vs0: Seq<Value>|
                fits_elems(vs0, ss@) && (#[trigger] wire_elems(vs0)).is_prefix_of(
                    input@.skip(pos as int),
                ) ==> veq_elems(out@, vs0.subrange(0, i as int)) && cur == pos + wire_elems(
                    vs0.subrange(0, i as int),
                ).len(),
        decreases n - i,
    {
        let r0 = decode_value(&ss[i], input, cur);
        proof {
            assert forall|vs0: Seq<Value>|
                fits_elems(vs0, ss@) && (#[trigger] wire_elems(vs0)).is_prefix_of(
                    input@.skip(pos as int),
                ) implies (r0 matches Ok(p) && veq(p.0, vs0[i as int]) && p.1 == cur + wire(
                vs0[i as int],
            ).len()) by {
                crate::ser::lemma_wire_elems_split(vs0, i as int);
                lemma_prefix_parts(
                    input@,
                    pos as int,
                    wire_elems(vs0.subrange(0, i as int)),
                    wire_elems(vs0.skip(i as int)),
                );
                assert(vs0.skip(i as int)[0] == vs0[i as int]);
                assert(vs0.skip(i as int).drop_first() =~= vs0.skip(i + 1));
                assert(wire_elems(vs0.skip(i as int)) == wire(vs0[i as int]) + wire_elems(
                    vs0.skip(i + 1),
                ));
                lemma_prefix_parts(
                    input@,
                    cur as int,
                    wire(vs0[i as int]),
                    wire_elems(vs0.skip(i + 1)),
                );
                assert(fits(vs0[i as int], ss@[i as int]));
            }
        }
        proof {
            assert(ss@.skip(i as int)[0] == ss@[i as int]);
            assert(ss@.skip(i as int).drop_first() =~= ss@.skip(i + 1));
        }
        match r0 {
            Err(e) => {
                proof {
                    assert(dlen_fields(ss@.skip(i as int), input@.skip(cur as int))
                        == Err::<nat, Error>(e));
                }
                return Err(e);
            },
            Ok((v, end2)) => {
                proof {
                    assert forall|vs0: Seq<Value>|
                        fits_elems(vs0, ss@) && (#[trigger] wire_elems(vs0)).is_prefix_of(
                            input@.skip(pos as int),
                        ) implies veq_elems(out@.push(v), vs0.subrange(0, i + 1)) && end2 == pos
                        + wire_elems(vs0.subrange(0, i + 1)).len() by {
                        lemma_wire_elems_snoc(vs0.subrange(0, i as int), vs0[i as int]);
                        assert(vs0.subrange(0, i as int).push(vs0[i as int]) =~= vs0.subrange(
                            0,
                            i + 1,
                        ));
                        assert(veq_elems(out@, vs0.subrange(0, i as int)));
                        assert forall|j: int| 0 <= j < i + 1 implies veq(
                            #[trigger] out@.push(v)[j],
                            vs0.subrange(0, i + 1)[j],
                        ) by {
                            if j < i {
                                assert(out@.push(v)[j] == out@[j]);
                                assert(vs0.subrange(0, i + 1)[j] == vs0.subrange(0, i as int)[j]);
                            } else {
                                assert(out@.push(v)[j] == v);
                                assert(vs0.subrange(0, i + 1)[j] == vs0[i as int]);
                            }
                        }
                    }
                    assert(input@.skip(cur as int).skip((end2 - cur) as int) =~= input@.skip(
                        end2 as int,
                    ));
                    assert(dlen_fields(ss@.skip(i as int), input@.skip(cur as int)) == dadd(
                        (end2 - cur) as nat,
                        dlen_fields(ss@.skip(i + 1), input@.skip(end2 as int)),
                    ));
                    lemma_dadd_assoc(
                        (cur - pos) as nat,
                        (end2 - cur) as nat,
                        dlen_fields(ss@.skip(i + 1), input@.skip(end2 as int)),
                    );
                    lemma_lwire_elems_snoc(
                        out@,
                        input@.subrange(pos as int, cur as int),
                        v,
                        input@.subrange(cur as int, end2 as int),
                    );
                    assert(input@.subrange(pos as int, cur as int) + input@.subrange(
                        cur as int,
                        end2 as int,
                    ) =~= input@.subrange(pos as int, end2 as int));
                }
                out.push(v);
                cur = end2;
                i = i + 1;
            },
        }
    }
    proof {
        assert forall|vs0: Seq<Value>|
            fits_elems(vs0, ss@) && (#[trigger] wire_elems(vs0)).is_prefix_of(
                input@.skip(pos as int),
            ) implies veq_elems(out@, vs0) && cur == pos + wire_elems(vs0).len() by {
            assert(vs0.subrange(0, n as int) =~= vs0);
        }
        assert(fits_elems(out@, ss@));
        assert(ss@.skip(n as int) =~= Seq::<Shape>::empty());
        assert(dlen_fields(Seq::<Shape>::empty(), input@.skip(cur as int)) == Ok::<nat, Error>(
            0,
        ));
        assert(dlen_fields(ss@, input@.skip(pos as int)) == Ok::<nat, Error>((cur - pos) as nat));
    }
    Ok((out, cur))
}

/// Decodes `n` key/value entries, the payload rule of a mapping after its
/// count: each key of the mapping's key shape, then its value.
#[verifier::rlimit(100)]
fn decode_count_pairs(ms: &Shape, n: usize, input: &[u8], pos: usize) -> (r: Result<
    (Vec<(Value, Value)>, usize),
    Error,
>)
    requires
        pos <= input@.len(),
        *ms matches Shape::Mapping(_, _),
    ensures
        match r {
            Ok(p) => pos <= p.1 <= input@.len() && p.0@.len() == n && (forall|i: int|
                0 <= i < n ==> fits((#[trigger] p.0@[i]).0, mkey(*ms)) && fits(
                    p.0@[i].1,
                    mval(*ms),
                )),
            Err(e) => is_decode_error(e),
        },
        forall|ps0: Seq<(Value, Value)>|
            ps0.len() == n && (forall|k: int|
                0 <= k < n ==> fits((#[trigger] ps0[k]).0, mkey(*ms)) && fits(
                    ps0[k].1,
                    mval(*ms),
                )) && (#[trigger] wire_pairs(ps0)).is_prefix_of(input@.skip(pos as int)) ==> (
            r matches Ok(p) && p.0@.len() == ps0.len() && (forall|j: int|
                0 <= j < n ==> veq((#[trigger] p.0@[j]).0, ps0[j].0) && veq(p.0@[j].1, ps0[j].1))
                && p.1 == pos + wire_pairs(ps0).len()),
        match r {
            Ok(p) => dlen_pairs(*ms, n as nat, input@.skip(pos as int)) == Ok::<nat, Error>(
                (p.1 - pos) as nat,
            ) && lwire_pairs(p.0@, input@.subrange(pos as int, p.1 as int)),
            Err(e) => dlen_pairs(*ms, n as nat, input@.skip(pos as int)) == Err::<nat, Error>(e),
        },
    decreases *ms, 0int,
{
    let (kshape, wshape): (&Shape, &Shape) = match ms {
        Shape::Mapping(k, w) => (&**k, &**w),
        _ => {
            proof {
                assert(false);
            }
            (ms, ms)
        },
    };
    let mut out: Vec<(Value, Value)> = Vec::new();
    let mut cur: usize = pos;
    let mut i: usize = 0;
    proof {
        assert(dadd(0, dlen_pairs(*ms, n as nat, input@.skip(pos as int))) == dlen_pairs(
            *ms,
            n as nat,
            input@.skip(pos as int),
        ));
        assert(input@.subrange(pos as int, pos as int) =~= Seq::<u8>::empty());
        assert(lwire_pairs(Seq::<(Value, Value)>::empty(), Seq::<u8>::empty()));
    }
    while i < n
        invariant
            pos <= cur <= input@.len(),
            i <= n,
            out@.len() == i,
            *ms matches Shape::Mapping(_, _),
            *kshape == mkey(*ms),
            *wshape == mval(*ms),
            dlen_pairs(*ms, n as nat, input@.skip(pos as int)) == dadd(
                (cur - pos) as nat,
                dlen_pairs(*ms, (n - i) as nat, input@.skip(cur as int)),
            ),
            lwire_pairs(out@, input@.subrange(pos as int, cur as int)),
            forall|j: int|
                0 <= j < i ==> fits((#[trigger] out@[j]).0, mkey(*ms)) && fits(
                    out@[j].1,
                    mval(*ms),
                ),
            forall|ps0: Seq<(Value, Value)>|
                ps0.len() == n && (forall|k: int|
                    0 <= k < n ==> fits((#[trigger] ps0[k]).0, mkey(*ms)) && fits(
                        ps0[k].1,
                        mval(*ms),
                    )) && (#[trigger] wire_pairs(ps0)).is_prefix_of(input@.skip(pos as int))
                    ==> (forall|j: int|
                    0 <= j < i ==> veq((#[trigger] out@[j]).0, ps0[j].0) && veq(
                        out@[j].1,
                        ps0[j].1,
                    )) && cur == pos + wire_pairs(ps0.subrange(0, i as int)).len(),
        decreases n - i,
    {
        let ghost prev = out@;
        let rk = decode_value(kshape, input, cur);
        proof {
            assert forall|ps0: Seq<(Value, Value)>|
                ps0.len() == n && (forall|k: int|
                    0 <= k < n ==> fits((#[trigger] ps0[k]).0, mkey(*ms)) && fits(
                        ps0[k].1,
                        mval(*ms),
                    )) && (#[trigger] wire_pairs(ps0)).is_prefix_of(input@.skip(pos as int))
                implies (rk matches Ok(p) && veq(p.0, ps0[i as int].0) && p.1 == cur + wire(
                ps0[i as int].0,
            ).len()) by {
                lemma_pairs_step(input@, pos as int, cur as int, ps0, i as int);
                assert(fits(ps0[i as int].0, mkey(*ms)));
            }
        }
        let kv: Value;
        let kend: usize;
        match rk {
            Err(e) => {
                proof {
                    assert(dlen_pairs(*ms, (n - i) as nat, input@.skip(cur as int))
                        == Err::<nat, Error>(e));
                }
                return Err(e);
            },
            Ok((v, e2)) => {
                kv = v;
                kend = e2;
            },
        }
        let rw = decode_value(wshape, input, kend);
        proof {
            assert forall|ps0: Seq<(Value, Value)>|
                ps0.len() == n && (forall|k: int|
                    0 <= k < n ==> fits((#[trigger] ps0[k]).0, mkey(*ms)) && fits(
                        ps0[k].1,
                        mval(*ms),
                    )) && (#[trigger] wire_pairs(ps0)).is_prefix_of(input@.skip(pos as int))
                implies (rw matches Ok(p) && veq(p.0, ps0[i as int].1) && p.1 == kend + wire(
                ps0[i as int].1,
            ).len()) by {
                lemma_pairs_step(input@, pos as int, cur as int, ps0, i as int);
                assert(fits(ps0[i as int].1, mval(*ms)));
            }
        }
        match rw {
            Err(e) => {
                proof {
                    assert(input@.skip(cur as int).skip((kend - cur) as int) =~= input@.skip(
                        kend as int,
                    ));
                    assert(dlen_pairs(*ms, (n - i) as nat, input@.skip(cur as int))
                        == Err::<nat, Error>(e));
                }
                return Err(e);
            },
            Ok((wv, wend)) => {
                proof {
                    assert forall|ps0: Seq<(Value, Value)>|
                        ps0.len() == n && (forall|k: int|
                            0 <= k < n ==> fits((#[trigger] ps0[k]).0, mkey(*ms)) && fits(
                                ps0[k].1,
                                mval(*ms),
                            )) && (#[trigger] wire_pairs(ps0)).is_prefix_of(input@.skip(pos as int))
                        implies (forall|j: int|
                        0 <= j < i + 1 ==> veq((#[trigger] prev.push((kv, wv))[j]).0, ps0[j].0)
                            && veq(prev.push((kv, wv))[j].1, ps0[j].1)) && wend == pos
                        + wire_pairs(ps0.subrange(0, i + 1)).len() by {
                        lemma_pairs_step(input@, pos as int, cur as int, ps0, i as int);
                        lemma_wire_pairs_snoc(ps0.subrange(0, i as int), ps0[i as int]);
                        assert(ps0.subrange(0, i as int).push(ps0[i as int]) =~= ps0.subrange(
                            0,
                            i + 1,
                        ));
                        assert forall|j: int| 0 <= j < i + 1 implies veq(
                            (#[trigger] prev.push((kv, wv))[j]).0,
                            ps0[j].0,
                        ) && veq(prev.push((kv, wv))[j].1, ps0[j].1) by {
                            if j < i {
                                assert(prev.push((kv, wv))[j] == prev[j]);
                            } else {
                                assert(prev.push((kv, wv))[j] == (kv, wv));
                            }
                        }
                    }
                    assert(input@.skip(cur as int).skip((kend - cur) as int) =~= input@.skip(
                        kend as int,
                    ));
                    assert(input@.skip(cur as int).skip((wend - cur) as int) =~= input@.skip(
                        wend as int,
                    ));
                    assert(dlen_pairs(*ms, (n - i) as nat, input@.skip(cur as int)) == dadd(
                        ((kend - cur) + (wend - kend)) as nat,
                        dlen_pairs(*ms, (n - i - 1) as nat, input@.skip(wend as int)),
                    ));
                    lemma_dadd_assoc(
                        (cur - pos) as nat,
                        (wend - cur) as nat,
                        dlen_pairs(*ms, (n - i - 1) as nat, input@.skip(wend as int)),
                    );
                    lemma_lwire_pairs_snoc(
                        out@,
                        input@.subrange(pos as int, cur as int),
                        (kv, wv),
                        input@.subrange(cur as int, kend as int),
                        input@.subrange(kend as int, wend as int),
                    );
                    assert(input@.subrange(pos as int, cur as int) + input@.subrange(
                        cur as int,
                        kend as int,
                    ) + input@.subrange(kend as int, wend as int) =~= input@.subrange(
                        pos as int,
                        wend as int,
                    ));
                }
                out.push((kv, wv));
                cur = wend;
                i = i + 1;
            },
        }
    }
    proof {
        assert forall|ps0: Seq<(Value, Value)>|
            ps0.len() == n && (forall|k: int|
                0 <= k < n ==> fits((#[trigger] ps0[k]).0, mkey(*ms)) && fits(
                    ps0[k].1,
                    mval(*ms),
                )) && (#[trigger] wire_pairs(ps0)).is_prefix_of(input@.skip(pos as int)) implies
            cur == pos + wire_pairs(ps0).len() by {
            assert(ps0.subrange(0, n as int) =~= ps0);
        }
        assert(dlen_pairs(*ms, 0, input@.skip(cur as int)) == Ok::<nat, Error>(0));
        assert(dlen_pairs(*ms, n as nat, input@.skip(pos as int)) == Ok::<nat, Error>(
            (cur - pos) as nat,
        ));
    }
    Ok((out, cur))
}

/// In a run of encoded entries whose first `i` entries occupy the input up
/// to `cur`, the `i`-th key and value sit next, each a prefix in turn.
proof fn lemma_pairs_step(input: Seq<u8>, pos: int, cur: int, ps0: Seq<(Value, Value)>, i: int)
    requires
        0 <= pos <= input.len(),
        0 <= i < ps0.len(),
        wire_pairs(ps0).is_prefix_of(input.skip(pos)),
        cur == pos + wire_pairs(ps0.subrange(0, i)).len(),
    ensures
        cur <= input.len(),
        wire(ps0[i].0).is_prefix_of(input.skip(cur)),
        wire(ps0[i].1).is_prefix_of(
            input.skip(cur + wire(ps0[i].0).len()),
        ),
        cur + wire(ps0[i].0).len() + wire(ps0[i].1).len() == pos + wire_pairs(
            ps0.subrange(0, i + 1),
        ).len(),
{
    crate::ser::lemma_wire_pairs_split(ps0, i);
    lemma_prefix_parts(input, pos, wire_pairs(ps0.subrange(0, i)), wire_pairs(ps0.skip(i)));
    assert(ps0.skip(i)[0] == ps0[i]);
    assert(ps0.skip(i).drop_first() =~= ps0.skip(i + 1));
    assert(wire_pairs(ps0.skip(i)) == wire(ps0[i].0) + wire(ps0[i].1) + wire_pairs(
        ps0.skip(i + 1),
    ));
    assert(wire(ps0[i].0) + wire(ps0[i].1) + wire_pairs(ps0.skip(i + 1)) =~= wire(ps0[i].0) + (
    wire(ps0[i].1) + wire_pairs(ps0.skip(i + 1))));
    lemma_prefix_parts(
        input,
        cur,
        wire(ps0[i].0),
        wire(ps0[i].1) + wire_pairs(ps0.skip(i + 1)),
    );
    lemma_prefix_parts(
        input,
        cur + wire(ps0[i].0).len(),
        wire(ps0[i].1),
        wire_pairs(ps0.skip(i + 1)),
    );
    lemma_wire_pairs_snoc(ps0.subrange(0, i), ps0[i]);
    assert(ps0.subrange(0, i).push(ps0[i]) =~= ps0.subrange(0, i + 1));
}

/// Deserializes a value of the expected shape from a byte slice. The unused
/// portion (if any) of the byte slice is silently discarded.
///
/// The outcome on every input is fixed by [`dlen`]: decoding fails with
/// exactly the error `dlen` names, and succeeds consuming exactly the bytes
/// it counts, which are one [`lwire`] encoding of the returned value.
/// Whenever the slice begins with the canonical encoding of a well-formed
/// value of the shape, that value comes back: decoding what
/// [`crate::ser::to_vec`] wrote returns the value that was encoded.
pub fn from_bytes(shape: &Shape, bytes: &[u8]) -> (r: Result<Value, Error>)
    ensures
        match r {
            Ok(v) => fits(v, *shape) && (dlen(*shape, bytes@) matches Ok(u) && lwire(
                v,
                bytes@.subrange(0, u as int),
            )),
            Err(e) => is_decode_error(e) && dlen(*shape, bytes@) == Err::<nat, Error>(e),
        },
        forall|v0: Value|
            fits(v0, *shape) && (#[trigger] wire(v0)).is_prefix_of(bytes@) ==> (r matches Ok(v)
                && veq(v, v0)),
{
    proof {
        assert(bytes@.skip(0) =~= bytes@);
    }
    match decode_value(shape, bytes, 0) {
        Err(e) => Err(e),
        Ok((v, _)) => Ok(v),
    }
}

/// Deserializes a value of the expected shape from a byte slice. The unused
/// portion (if any) of the byte slice is returned for further usage.
///
/// The consumed prefix is exactly what [`dlen`] counts and is one [`lwire`]
/// encoding of the returned value; the remainder is the untouched suffix.
/// On a slice that holds one canonically encoded well-formed value followed
/// by arbitrary extra bytes, this returns that value together with exactly
/// those extra bytes.
pub fn take_from_bytes<'a>(shape: &Shape, bytes: &'a [u8]) -> (r: Result<
    (Value, &'a [u8]),
    Error,
>)
    ensures
        match r {
            Ok(p) => {
                &&& fits(p.0, *shape)
                &&& p.1@.len() <= bytes@.len()
                &&& p.1@ == bytes@.skip(bytes@.len() - p.1@.len())
                &&& dlen(*shape, bytes@) == Ok::<nat, Error>(
                    (bytes@.len() - p.1@.len()) as nat,
                )
                &&& lwire(p.0, bytes@.subrange(0, bytes@.len() - p.1@.len()))
            },
            Err(e) => is_decode_error(e) && dlen(*shape, bytes@) == Err::<nat, Error>(e),
        },
        forall|v0: Value|
            fits(v0, *shape) && (#[trigger] wire(v0)).is_prefix_of(bytes@) ==> (r matches Ok(p)
                && veq(p.0, v0) && p.1@ == bytes@.skip(wire(v0).len() as int)),
{
    proof {
        assert(bytes@.skip(0) =~= bytes@);
    }
    match decode_value(shape, bytes, 0) {
        Err(e) => Err(e),
        Ok((v, end)) => {
            let rest: &[u8] = vstd::slice::slice_subrange(bytes, end, bytes.len());
            proof {
                assert(rest@ =~= bytes@.skip(end as int));
                assert(bytes@.skip(bytes@.len() - rest@.len()) =~= rest@);
            }
            Ok((v, rest))
        },
    }
}

/// `pow256` grows with its exponent.
proof fn lemma_pow256_mono(j: nat, k: nat)
    requires
        j <= k,
    ensures
        pow256(j) <= pow256(k),
    decreases k,
{
    if j < k {
        lemma_pow256_mono(j, (k - 1) as nat);
        assert(pow256((k - 1) as nat) <= 256 * pow256((k - 1) as nat)) by (nonlinear_arith)
            requires
                pow256((k - 1) as nat) >= 0,
        ;
    }
}

} // verus!
