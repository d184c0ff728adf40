use vstd::prelude::*;

use crate::varint::varint_enc;
use vstd::utf8::valid_utf8;

verus! {

broadcast use vstd::std_specs::vec::group_vec_axioms;

/// A structured value, as the wire format sees it: one constructor per wire
/// shape. Strings are carried as their UTF-8 bytes; sequences, tuples,
/// records and enum payloads carry their parts in wire order.
#[derive(Debug, PartialEq, Eq)]
pub enum Value {
    /// The unit value, a unit-like struct, or a bare unit enum payload.
    Unit,
    /// A boolean.
    Bool(bool),
    /// Unsigned integers of fixed width.
    U8(u8),
    U16(u16),
    U32(u32),
    U64(u64),
    /// Signed integers of fixed width, carried as two's complement.
    I8(i8),
    I16(i16),
    I32(i32),
    I64(i64),
    /// A Unicode scalar value.
    Char(char),
    /// A string, held as its UTF-8 bytes.
    Str(Vec<u8>),
    /// A raw byte string.
    Bytes(Vec<u8>),
    /// An optional value.
    Opt(Option<Box<Value>>),
    /// A variable-length sequence of like-shaped elements.
    List(Vec<Value>),
    /// A fixed-arity tuple.
    Tup(Vec<Value>),
    /// A key/value mapping with its entries in iteration order.
    Mapping(Vec<(Value, Value)>),
    /// A named struct: its fields in declaration order, names erased.
    Record(Vec<Value>),
    /// A newtype struct: exactly its single inner value.
    Newtype(Box<Value>),
    /// A tuple struct: its fields in declaration order.
    TupleRecord(Vec<Value>),
    /// An enum value: zero-based variant index and the variant's fields.
    Enum(usize, Vec<Value>),
}

/// The statically expected shape a decoder materializes: one constructor per
/// wire shape, carrying the shapes of any nested parts.
#[derive(Debug, PartialEq, Eq)]
pub enum Shape {
    Unit,
    Bool,
    U8,
    U16,
    U32,
    U64,
    I8,
    I16,
    I32,
    I64,
    Char,
    Str,
    Bytes,
    /// An option of the inner shape.
    Opt(Box<Shape>),
    /// A sequence of elements of one shape.
    List(Box<Shape>),
    /// A tuple of the given field shapes, in order.
    Tup(Vec<Shape>),
    /// A mapping from keys of the first shape to values of the second.
    Mapping(Box<Shape>, Box<Shape>),
    /// A named struct with the given field shapes, in declaration order.
    Record(Vec<Shape>),
    /// A newtype struct around the inner shape.
    Newtype(Box<Shape>),
    /// A tuple struct with the given field shapes.
    TupleRecord(Vec<Shape>),
    /// An enum: one field-shape list per variant, in variant order.
    Enum(Vec<Vec<Shape>>),
}

/// The two's complement reading of a signed byte.
pub open spec fn u8_of_i8(x: i8) -> u8 {
    ((x as int) % 0x100) as u8
}

/// The two's complement reading of a signed 16-bit integer.
pub open spec fn u16_of_i16(x: i16) -> u16 {
    ((x as int) % 0x1_0000) as u16
}

/// The two's complement reading of a signed 32-bit integer.
pub open spec fn u32_of_i32(x: i32) -> u32 {
    ((x as int) % 0x1_0000_0000) as u32
}

/// The two's complement reading of a signed 64-bit integer.
pub open spec fn u64_of_i64(x: i64) -> u64 {
    ((x as int) % 0x1_0000_0000_0000_0000) as u64
}

/// 256 raised to `k`: the weight of the `k`-th byte of a little-endian
/// fixed-width integer.
pub open spec fn pow256(k: nat) -> nat
    decreases k,
{
    if k == 0 {
        1nat
    } else {
        256 * pow256((k - 1) as nat)
    }
}

/// The `n`-byte little-endian encoding of `x`.
pub open spec fn le_bytes(x: nat, n: nat) -> Seq<u8>
    decreases n,
{
    if n == 0 {
        Seq::empty()
    } else {
        seq![(x % 256) as u8] + le_bytes(x / 256, (n - 1) as nat)
    }
}

/// The integer named by little-endian bytes.
pub open spec fn le_val(b: Seq<u8>) -> nat
    decreases b.len(),
{
    if b.len() == 0 {
        0nat
    } else {
        b[0] as nat + 256 * le_val(b.drop_first())
    }
}

/// The exact bytes the wire format assigns to `v`.
///
/// Fixed-width shapes spend their static width and nothing else; every
/// variable-length shape is preceded by its count as a varint; tuples,
/// records and newtypes spend no framing at all; an enum spends a varint of
/// its variant index before its payload.
pub open spec fn wire(v: Value) -> Seq<u8>
    decreases v,
{
    match v {
        Value::Unit => Seq::empty(),
        Value::Bool(b) => seq![if b {
            1u8
        } else {
            0u8
        }],
        Value::U8(x) => seq![x],
        Value::U16(x) => le_bytes(x as nat, 2),
        Value::U32(x) => le_bytes(x as nat, 4),
        Value::U64(x) => le_bytes(x as nat, 8),
        Value::I8(x) => seq![u8_of_i8(x)],
        Value::I16(x) => le_bytes(u16_of_i16(x) as nat, 2),
        Value::I32(x) => le_bytes(u32_of_i32(x) as nat, 4),
        Value::I64(x) => le_bytes(u64_of_i64(x) as nat, 8),
        Value::Char(c) => le_bytes((c as u32) as nat, 4),
        Value::Str(b) => varint_enc(b@.len()) + b@,
        Value::Bytes(b) => varint_enc(b@.len()) + b@,
        Value::Opt(o) => match o {
            Option::None => seq![0u8],
            Option::Some(inner) => seq![1u8] + wire(*inner),
        },
        Value::List(xs) => varint_enc(xs@.len()) + wire_elems(xs@),
        Value::Tup(xs) => wire_elems(xs@),
        Value::Mapping(ps) => varint_enc(ps@.len()) + wire_pairs(ps@),
        Value::Record(xs) => wire_elems(xs@),
        Value::Newtype(inner) => wire(*inner),
        Value::TupleRecord(xs) => wire_elems(xs@),
        Value::Enum(d, fs) => varint_enc(d as nat) + wire_elems(fs@),
    }
}

/// The concatenated encodings of a run of values.
pub open spec fn wire_elems(s: Seq<Value>) -> Seq<u8>
    decreases s,
{
    if s.len() == 0 {
        Seq::empty()
    } else {
        wire(s[0]) + wire_elems(s.drop_first())
    }
}

/// The concatenated encodings of key/value entries: key, then value.
pub open spec fn wire_pairs(s: Seq<(Value, Value)>) -> Seq<u8>
    decreases s,
{
    if s.len() == 0 {
        Seq::empty()
    } else {
        wire(s[0].0) + wire(s[0].1) + wire_pairs(s.drop_first())
    }
}

/// `v` is a well-formed inhabitant of shape `s`: the decoder can give back
/// exactly such values, and only on such values is the round trip promised.
pub open spec fn fits(v: Value, s: Shape) -> bool
    decreases v,
{
    match (v, s) {
        (Value::Unit, Shape::Unit) => true,
        (Value::Bool(_), Shape::Bool) => true,
        (Value::U8(_), Shape::U8) => true,
        (Value::U16(_), Shape::U16) => true,
        (Value::U32(_), Shape::U32) => true,
        (Value::U64(_), Shape::U64) => true,
        (Value::I8(_), Shape::I8) => true,
        (Value::I16(_), Shape::I16) => true,
        (Value::I32(_), Shape::I32) => true,
        (Value::I64(_), Shape::I64) => true,
        (Value::Char(_), Shape::Char) => true,
        (Value::Str(b), Shape::Str) => valid_utf8(b@),
        (Value::Bytes(_), Shape::Bytes) => true,
        (Value::Opt(o), Shape::Opt(inner)) => match o {
            Option::None => true,
            Option::Some(bx) => fits(*bx, *inner),
        },
        (Value::List(xs), Shape::List(e)) => forall|i: int|
            0 <= i < xs@.len() ==> fits(#[trigger] xs@[i], *e),
        (Value::Tup(xs), Shape::Tup(ss)) => fits_elems(xs@, ss@),
        (Value::Mapping(ps), Shape::Mapping(k, w)) => forall|i: int|
            0 <= i < ps@.len() ==> fits((#[trigger] ps@[i]).0, *k) && fits(ps@[i].1, *w),
        (Value::Record(xs), Shape::Record(ss)) => fits_elems(xs@, ss@),
        (Value::Newtype(bx), Shape::Newtype(inner)) => fits(*bx, *inner),
        (Value::TupleRecord(xs), Shape::TupleRecord(ss)) => fits_elems(xs@, ss@),
        (Value::Enum(d, fs), Shape::Enum(vs)) => d < vs@.len() && d <= u32::MAX && fits_elems(
            fs@,
            vs@[d as int]@,
        ),
        _ => false,
    }
}

/// Field lists match shape lists pointwise.
pub open spec fn fits_elems(xs: Seq<Value>, ss: Seq<Shape>) -> bool
    decreases xs,
{
    xs.len() == ss.len() && forall|i: int| 0 <= i < xs.len() ==> fits(#[trigger] xs[i], ss[i])
}

/// Structural equality of values, with byte buffers compared by contents.
/// This is the equality the round trip promises, and the one `==` on
/// materialized values observes.
pub open spec fn veq(a: Value, b: Value) -> bool
    decreases a,
{
    match (a, b) {
        (Value::Unit, Value::Unit) => true,
        (Value::Bool(x), Value::Bool(y)) => x == y,
        (Value::U8(x), Value::U8(y)) => x == y,
        (Value::U16(x), Value::U16(y)) => x == y,
        (Value::U32(x), Value::U32(y)) => x == y,
        (Value::U64(x), Value::U64(y)) => x == y,
        (Value::I8(x), Value::I8(y)) => x == y,
        (Value::I16(x), Value::I16(y)) => x == y,
        (Value::I32(x), Value::I32(y)) => x == y,
        (Value::I64(x), Value::I64(y)) => x == y,
        (Value::Char(x), Value::Char(y)) => x == y,
        (Value::Str(x), Value::Str(y)) => x@ == y@,
        (Value::Bytes(x), Value::Bytes(y)) => x@ == y@,
        (Value::Opt(x), Value::Opt(y)) => match (x, y) {
            (Option::None, Option::None) => true,
            (Option::Some(xi), Option::Some(yi)) => veq(*xi, *yi),
            _ => false,
        },
        (Value::List(xs), Value::List(ys)) => veq_elems(xs@, ys@),
        (Value::Tup(xs), Value::Tup(ys)) => veq_elems(xs@, ys@),
        (Value::Mapping(xs), Value::Mapping(ys)) => xs@.len() == ys@.len() && forall|i: int|
            0 <= i < xs@.len() ==> veq((#[trigger] xs@[i]).0, ys@[i].0) && veq(
                xs@[i].1,
                ys@[i].1,
            ),
        (Value::Record(xs), Value::Record(ys)) => veq_elems(xs@, ys@),
        (Value::Newtype(x), Value::Newtype(y)) => veq(*x, *y),
        (Value::TupleRecord(xs), Value::TupleRecord(ys)) => veq_elems(xs@, ys@),
        (Value::Enum(d, fs), Value::Enum(e, gs)) => d == e && veq_elems(fs@, gs@),
        _ => false,
    }
}

/// Pointwise structural equality of value runs.
pub open spec fn veq_elems(xs: Seq<Value>, ys: Seq<Value>) -> bool
    decreases xs,
{
    xs.len() == ys.len() && forall|i: int| 0 <= i < xs.len() ==> veq(#[trigger] xs[i], ys[i])
}

/// The wire byte of a signed byte.
pub fn i8_to_u8(x: i8) -> (r: u8)
    ensures
        r == u8_of_i8(x),
{
    if x >= 0 {
        x as u8
    } else {
        ((x as i16) + 0x100) as u8
    }
}

/// The signed byte a wire byte names; inverts [`u8_of_i8`].
pub fn u8_to_i8(b: u8) -> (r: i8)
    ensures
        u8_of_i8(r) == b,
{
    if b < 0x80 {
        b as i8
    } else {
        ((b as i16) - 0x100) as i8
    }
}

/// The wire reading of a signed 16-bit integer.
pub fn i16_to_u16(x: i16) -> (r: u16)
    ensures
        r == u16_of_i16(x),
{
    if x >= 0 {
        x as u16
    } else {
        ((x as i32) + 0x1_0000) as u16
    }
}

/// The signed integer a wire reading names; inverts [`u16_of_i16`].
pub fn u16_to_i16(b: u16) -> (r: i16)
    ensures
        u16_of_i16(r) == b,
{
    if b < 0x8000 {
        b as i16
    } else {
        ((b as i32) - 0x1_0000) as i16
    }
}

/// The wire reading of a signed 32-bit integer.
pub fn i32_to_u32(x: i32) -> (r: u32)
    ensures
        r == u32_of_i32(x),
{
    if x >= 0 {
        x as u32
    } else {
        ((x as i64) + 0x1_0000_0000) as u32
    }
}

/// The signed integer a wire reading names; inverts [`u32_of_i32`].
pub fn u32_to_i32(b: u32) -> (r: i32)
    ensures
        u32_of_i32(r) == b,
{
    if b < 0x8000_0000 {
        b as i32
    } else {
        ((b as i64) - 0x1_0000_0000) as i32
    }
}

/// The wire reading of a signed 64-bit integer.
pub fn i64_to_u64(x: i64) -> (r: u64)
    ensures
        r == u64_of_i64(x),
{
    if x >= 0 {
        x as u64
    } else {
        ((x as i128) + 0x1_0000_0000_0000_0000) as u64
    }
}

/// The signed integer a wire reading names; inverts [`u64_of_i64`].
pub fn u64_to_i64(b: u64) -> (r: i64)
    ensures
        u64_of_i64(r) == b,
{
    if b < 0x8000_0000_0000_0000 {
        b as i64
    } else {
        ((b as i128) - 0x1_0000_0000_0000_0000) as i64
    }
}

/// The two's complement readings tell signed values apart.
pub proof fn lemma_two_complement_inj(a8: i8, b8: i8, a16: i16, b16: i16, a32: i32, b32: i32, a64: i64, b64: i64)
    ensures
        u8_of_i8(a8) == u8_of_i8(b8) ==> a8 == b8,
        u16_of_i16(a16) == u16_of_i16(b16) ==> a16 == b16,
        u32_of_i32(a32) == u32_of_i32(b32) ==> a32 == b32,
        u64_of_i64(a64) == u64_of_i64(b64) ==> a64 == b64,
{
}

/// A character value inhabits the character shape.
pub proof fn lemma_fits_char(c: char)
    ensures
        fits(Value::Char(c), Shape::Char),
{
}

/// A fixed-width encoding spends exactly its width.
pub proof fn lemma_le_bytes_len(x: nat, n: nat)
    ensures
        le_bytes(x, n).len() == n,
    decreases n,
{
    if n > 0 {
        lemma_le_bytes_len(x / 256, (n - 1) as nat);
    }
}

/// Reading a fixed-width encoding gives back the encoded value.
pub proof fn lemma_le_bytes_le_val(x: nat, n: nat)
    requires
        x < pow256(n),
    ensures
        le_val(le_bytes(x, n)) == x,
    decreases n,
{
    if n == 0 {
    } else {
        assert(x / 256 < pow256((n - 1) as nat)) by (nonlinear_arith)
            requires
                x < 256 * pow256((n - 1) as nat),
        ;
        lemma_le_bytes_le_val(x / 256, (n - 1) as nat);
        let b = le_bytes(x, n);
        assert(b.drop_first() =~= le_bytes(x / 256, (n - 1) as nat));
        assert(b[0] == (x % 256) as u8);
        assert(x % 256 + 256 * (x / 256) == x) by (nonlinear_arith);
    }
}

/// A byte run is the encoding of the value it names.
pub proof fn lemma_le_val_le_bytes(b: Seq<u8>)
    ensures
        le_bytes(le_val(b), b.len()) == b,
    decreases b.len(),
{
    if b.len() == 0 {
        assert(le_bytes(le_val(b), 0) =~= b);
    } else {
        lemma_le_val_le_bytes(b.drop_first());
        let v = le_val(b);
        assert(v == b[0] as nat + 256 * le_val(b.drop_first()));
        assert(v % 256 == b[0] && v / 256 == le_val(b.drop_first())) by (nonlinear_arith)
            requires
                v == b[0] as nat + 256 * le_val(b.drop_first()),
                b[0] < 256,
        ;
        assert(le_bytes(v, b.len()) == seq![(v % 256) as u8] + le_bytes(
            v / 256,
            (b.len() - 1) as nat,
        ));
        assert(seq![b[0]] + b.drop_first() =~= b);
    }
}

/// Appending one value to a run appends its encoding.
pub proof fn lemma_wire_elems_snoc(s: Seq<Value>, x: Value)
    ensures
        wire_elems(s.push(x)) == wire_elems(s) + wire(x),
    decreases s.len(),
{
    if s.len() == 0 {
        assert(s.push(x)[0] == x);
        assert(s.push(x).drop_first() =~= Seq::<Value>::empty());
        assert(wire_elems(Seq::<Value>::empty()) == Seq::<u8>::empty());
        assert(wire_elems(s) == Seq::<u8>::empty());
        assert(wire_elems(s.push(x)) =~= wire_elems(s) + wire(x));
    } else {
        lemma_wire_elems_snoc(s.drop_first(), x);
        assert(s.push(x).drop_first() =~= s.drop_first().push(x));
        assert(s.push(x)[0] == s[0]);
        assert(wire(s[0]) + (wire_elems(s.drop_first()) + wire(x)) =~= (wire(s[0]) + wire_elems(
            s.drop_first(),
        )) + wire(x));
    }
}

/// Appending one entry to a mapping run appends its two encodings.
pub proof fn lemma_wire_pairs_snoc(s: Seq<(Value, Value)>, p: (Value, Value))
    ensures
        wire_pairs(s.push(p)) == wire_pairs(s) + wire(p.0) + wire(p.1),
    decreases s.len(),
{
    if s.len() == 0 {
        assert(s.push(p)[0] == p);
        assert(s.push(p).drop_first() =~= Seq::<(Value, Value)>::empty());
        assert(wire_pairs(Seq::<(Value, Value)>::empty()) == Seq::<u8>::empty());
        assert(wire_pairs(s) == Seq::<u8>::empty());
        assert(wire_pairs(s.push(p)) =~= wire_pairs(s) + wire(p.0) + wire(p.1));
    } else {
        lemma_wire_pairs_snoc(s.drop_first(), p);
        assert(s.push(p).drop_first() =~= s.drop_first().push(p));
        assert(s.push(p)[0] == s[0]);
        assert(wire(s[0].0) + wire(s[0].1) + (wire_pairs(s.drop_first()) + wire(p.0) + wire(p.1))
            =~= (wire(s[0].0) + wire(s[0].1) + wire_pairs(s.drop_first())) + wire(p.0) + wire(
            p.1,
        ));
    }
}

/// Encoding a numeric or boolean value spends a byte count fixed by its
/// shape alone, never by the value: the same value always yields the same
/// fixed-length byte run.
pub proof fn lemma_fixed_width(v: Value)
    ensures
        v matches Value::Bool(_) ==> wire(v).len() == 1,
        v matches Value::U8(_) ==> wire(v).len() == 1,
        v matches Value::U16(_) ==> wire(v).len() == 2,
        v matches Value::U32(_) ==> wire(v).len() == 4,
        v matches Value::U64(_) ==> wire(v).len() == 8,
        v matches Value::I8(_) ==> wire(v).len() == 1,
        v matches Value::I16(_) ==> wire(v).len() == 2,
        v matches Value::I32(_) ==> wire(v).len() == 4,
        v matches Value::I64(_) ==> wire(v).len() == 8,
        v matches Value::Char(_) ==> wire(v).len() == 4,
{
    match v {
        Value::U16(x) => lemma_le_bytes_len(x as nat, 2),
        Value::U32(x) => lemma_le_bytes_len(x as nat, 4),
        Value::U64(x) => lemma_le_bytes_len(x as nat, 8),
        Value::I16(x) => lemma_le_bytes_len(u16_of_i16(x) as nat, 2),
        Value::I32(x) => lemma_le_bytes_len(u32_of_i32(x) as nat, 4),
        Value::I64(x) => lemma_le_bytes_len(u64_of_i64(x) as nat, 8),
        Value::Char(c) => lemma_le_bytes_len((c as u32) as nat, 4),
        _ => (),
    }
}

/// Every variable-length shape opens with a varint that names exactly the
/// count of what follows: the byte length for strings and byte strings, the
/// element count for sequences, the entry count for mappings. Reading that
/// leading varint back gives the count.
pub proof fn lemma_length_prefix(v: Value)
    ensures
        v matches Value::Str(b) ==> wire(v) == varint_enc(b@.len()) + b@ && crate::varint::vval(
            varint_enc(b@.len()),
        ) == b@.len(),
        v matches Value::Bytes(b) ==> wire(v) == varint_enc(b@.len()) + b@ && crate::varint::vval(
            varint_enc(b@.len()),
        ) == b@.len(),
        v matches Value::List(xs) ==> wire(v) == varint_enc(xs@.len()) + wire_elems(xs@)
            && crate::varint::vval(varint_enc(xs@.len())) == xs@.len(),
        v matches Value::Mapping(ps) ==> wire(v) == varint_enc(ps@.len()) + wire_pairs(ps@)
            && crate::varint::vval(varint_enc(ps@.len())) == ps@.len(),
{
    match v {
        Value::Str(b) => crate::varint::lemma_varint_enc_term(b@.len()),
        Value::Bytes(b) => crate::varint::lemma_varint_enc_term(b@.len()),
        Value::List(xs) => crate::varint::lemma_varint_enc_term(xs@.len()),
        Value::Mapping(ps) => crate::varint::lemma_varint_enc_term(ps@.len()),
        _ => (),
    }
}

/// An enum variant with index below 128 spends exactly one byte on its
/// discriminant; so a format whose enums have at most 128 variants pays one
/// byte per discriminant.
pub proof fn lemma_enum_discriminant_minimal(v: Value)
    ensures
        v matches Value::Enum(d, fs) ==> (d < 128 ==> wire(v) == seq![d as u8] + wire_elems(fs@)
            && varint_enc(d as nat).len() == 1),
{
    if let Value::Enum(d, fs) = v {
        if d < 128 {
            crate::varint::lemma_varint_enc_term(d as nat);
            assert(varint_enc(d as nat) =~= seq![d as u8]);
        }
    }
}

} // verus!
