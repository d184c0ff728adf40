use vstd::prelude::*;

use crate::error::Error;
use crate::output::{can_hold, SerOutput, SliceOutput, VecOutput};
use crate::value::{
    le_bytes, lemma_wire_elems_snoc, lemma_wire_pairs_snoc, wire, wire_elems, wire_pairs, Value,
};
use crate::varint::varint_to_vec;

verus! {

broadcast use vstd::std_specs::vec::group_vec_axioms;

/// The `width`-byte little-endian encoding of `x`, as a fresh byte vector.
fn le_to_vec(x: u64, width: usize) -> (r: Vec<u8>)
    ensures
        r@ == le_bytes(x as nat, width as nat),
{
    let mut v: u64 = x;
    let mut i: usize = 0;
    let mut r: Vec<u8> = Vec::new();
    proof {
        assert(r@ + le_bytes(v as nat, (width - i) as nat) =~= le_bytes(x as nat, width as nat));
    }
    while i < width
        invariant
            i <= width,
            r@ + le_bytes(v as nat, (width - i) as nat) == le_bytes(x as nat, width as nat),
        decreases width - i,
    {
        let byte: u8 = (v % 256) as u8;
        proof {
            assert(le_bytes(v as nat, (width - i) as nat) == seq![byte] + le_bytes(
                v as nat / 256,
                (width - i - 1) as nat,
            ));
            assert(r@.push(byte) + le_bytes(v as nat / 256, (width - i - 1) as nat) =~= r@
                + le_bytes(v as nat, (width - i) as nat));
        }
        r.push(byte);
        v = v / 256;
        i = i + 1;
    }
    proof {
        assert(le_bytes(v as nat, 0) =~= Seq::<u8>::empty());
        assert(r@ + Seq::<u8>::empty() =~= r@);
    }
    r
}

/// Appends one byte, mapping a full sink to `SerializeBufferFull`.
fn push_byte<S: SerOutput>(out: &mut S, b: u8) -> (r: Result<(), Error>)
    requires
        old(out).inv(),
    ensures
        final(out).inv(),
        final(out).bound() == old(out).bound(),
        r matches Ok(()) ==> final(out).contents() == old(out).contents() + seq![b],
        r matches Err(e) ==> e == Error::SerializeBufferFull && final(out).contents() == old(
            out,
        ).contents() && !can_hold(old(out).bound(), old(out).contents().len() + 1),
        can_hold(old(out).bound(), old(out).contents().len() + 1) ==> r matches Ok(()),
{
    match out.try_push(b) {
        Ok(()) => {
            proof {
                assert(old(out).contents().push(b) =~= old(out).contents() + seq![b]);
            }
            Ok(())
        },
        Err(()) => Err(Error::SerializeBufferFull),
    }
}

/// Appends a whole chunk, mapping a full sink to `SerializeBufferFull`.
fn push_chunk<S: SerOutput>(out: &mut S, data: &Vec<u8>) -> (r: Result<(), Error>)
    requires
        old(out).inv(),
    ensures
        final(out).inv(),
        final(out).bound() == old(out).bound(),
        r matches Ok(()) ==> final(out).contents() == old(out).contents() + data@,
        r matches Err(e) ==> e == Error::SerializeBufferFull && final(out).contents() == old(
            out,
        ).contents() && !can_hold(old(out).bound(), old(out).contents().len() + data@.len()),
        can_hold(old(out).bound(), old(out).contents().len() + data@.len()) ==> r matches Ok(()),
{
    match out.try_extend(data.as_slice()) {
        Ok(()) => Ok(()),
        Err(()) => Err(Error::SerializeBufferFull),
    }
}

/// Drives one value through the per-shape wire rules, appending exactly
/// `wire(*v)` to the sink.
///
/// Succeeds if and only if the sink can hold the whole encoding on top of
/// what it already carries; the only failure is `SerializeBufferFull`, and a
/// sink without a bound never fails.
pub fn encode_value<S: SerOutput>(v: &Value, out: &mut S) -> (r: Result<(), Error>)
    requires
        old(out).inv(),
    ensures
        final(out).inv(),
        final(out).bound() == old(out).bound(),
        r matches Ok(()) ==> final(out).contents() == old(out).contents() + wire(*v),
        r matches Err(e) ==> e == Error::SerializeBufferFull && !can_hold(
            old(out).bound(),
            old(out).contents().len() + wire(*v).len(),
        ),
        can_hold(old(out).bound(), old(out).contents().len() + wire(*v).len()) ==> r matches Ok(
            (),
        ),
    decreases *v,
{
    match v {
        Value::Unit => {
            proof {
                assert(out.contents() =~= old(out).contents() + wire(*v));
            }
            Ok(())
        },
        Value::Bool(b) => push_byte(out, if *b {
            1u8
        } else {
            0u8
        }),
        Value::U8(x) => push_byte(out, *x),
        Value::U16(x) => {
            let chunk = le_to_vec(*x as u64, 2);
            push_chunk(out, &chunk)
        },
        Value::U32(x) => {
            let chunk = le_to_vec(*x as u64, 4);
            push_chunk(out, &chunk)
        },
        Value::U64(x) => {
            let chunk = le_to_vec(*x, 8);
            push_chunk(out, &chunk)
        },
        Value::I8(x) => push_byte(out, crate::value::i8_to_u8(*x)),
        Value::I16(x) => {
            let chunk = le_to_vec(crate::value::i16_to_u16(*x) as u64, 2);
            push_chunk(out, &chunk)
        },
        Value::I32(x) => {
            let chunk = le_to_vec(crate::value::i32_to_u32(*x) as u64, 4);
            push_chunk(out, &chunk)
        },
        Value::I64(x) => {
            let chunk = le_to_vec(crate::value::i64_to_u64(*x), 8);
            push_chunk(out, &chunk)
        },
        Value::Char(c) => {
            let chunk = le_to_vec((*c as u32) as u64, 4);
            push_chunk(out, &chunk)
        },
        Value::Str(b) => encode_len_bytes(b, out),
        Value::Bytes(b) => encode_len_bytes(b, out),
        Value::Opt(o) => {
            match o {
                Option::None => push_byte(out, 0u8),
                Option::Some(inner) => {
                    let ghost total = wire(*v);
                    match push_byte(out, 1u8) {
                        Err(e) => Err(e),
                        Ok(()) => {
                            let r = encode_value(&**inner, out);
                            proof {
                                if r is Ok {
                                    assert(out.contents() =~= old(out).contents() + total);
                                }
                            }
                            r
                        },
                    }
                },
            }
        },
        Value::List(xs) => {
            let chunk = varint_to_vec(xs.len());
            match push_chunk(out, &chunk) {
                Err(e) => Err(e),
                Ok(()) => {
                    let r = encode_elems(xs, out);
                    proof {
                        if r is Ok {
                            assert(out.contents() =~= old(out).contents() + wire(*v));
                        }
                    }
                    r
                },
            }
        },
        Value::Tup(xs) => encode_elems(xs, out),
        Value::Mapping(ps) => {
            let chunk = varint_to_vec(ps.len());
            match push_chunk(out, &chunk) {
                Err(e) => Err(e),
                Ok(()) => {
                    let r = encode_pairs(ps, out);
                    proof {
                        if r is Ok {
                            assert(out.contents() =~= old(out).contents() + wire(*v));
                        }
                    }
                    r
                },
            }
        },
        Value::Record(xs) => encode_elems(xs, out),
        Value::Newtype(inner) => encode_value(&**inner, out),
        Value::TupleRecord(xs) => encode_elems(xs, out),
        Value::Enum(d, fs) => {
            let chunk = varint_to_vec(*d);
            match push_chunk(out, &chunk) {
                Err(e) => Err(e),
                Ok(()) => {
                    let r = encode_elems(fs, out);
                    proof {
                        if r is Ok {
                            assert(out.contents() =~= old(out).contents() + wire(*v));
                        }
                    }
                    r
                },
            }
        },
    }
}

/// Appends a varint byte count and then the raw bytes, the rule shared by
/// strings and byte strings.
fn encode_len_bytes<S: SerOutput>(b: &Vec<u8>, out: &mut S) -> (r: Result<(), Error>)
    requires
        old(out).inv(),
    ensures
        final(out).inv(),
        final(out).bound() == old(out).bound(),
        r matches Ok(()) ==> final(out).contents() == old(out).contents() + (crate::varint::varint_enc(b@.len()) + b@),
        r matches Err(e) ==> e == Error::SerializeBufferFull && !can_hold(
            old(out).bound(),
            old(out).contents().len() + (crate::varint::varint_enc(b@.len()) + b@).len(),
        ),
        can_hold(
            old(out).bound(),
            old(out).contents().len() + (crate::varint::varint_enc(b@.len()) + b@).len(),
        ) ==> r matches Ok(()),
{
    let chunk = varint_to_vec(b.len());
    match push_chunk(out, &chunk) {
        Err(e) => Err(e),
        Ok(()) => {
            let r = push_chunk(out, b);
            proof {
                if r is Ok {
                    assert(out.contents() =~= old(out).contents() + (crate::varint::varint_enc(
                        b@.len(),
                    ) + b@));
                }
            }
            r
        },
    }
}

/// Appends the encodings of a run of fields or elements, in order.
fn encode_elems<S: SerOutput>(xs: &Vec<Value>, out: &mut S) -> (r: Result<(), Error>)
    requires
        old(out).inv(),
    ensures
        final(out).inv(),
        final(out).bound() == old(out).bound(),
        r matches Ok(()) ==> final(out).contents() == old(out).contents() + wire_elems(xs@),
        r matches Err(e) ==> e == Error::SerializeBufferFull && !can_hold(
            old(out).bound(),
            old(out).contents().len() + wire_elems(xs@).len(),
        ),
        can_hold(old(out).bound(), old(out).contents().len() + wire_elems(xs@).len())
            ==> r matches Ok(()),
    decreases xs@,
{
    let n: usize = xs.len();
    let mut i: usize = 0;
    proof {
        assert(xs@.subrange(0, 0) =~= Seq::<Value>::empty());
        assert(wire_elems(Seq::<Value>::empty()) == Seq::<u8>::empty());
        assert(out.contents() =~= old(out).contents() + wire_elems(xs@.subrange(0, 0)));
    }
    while i < n
        invariant
            i <= n,
            n == xs@.len(),
            out.inv(),
            out.bound() == old(out).bound(),
            out.contents() == old(out).contents() + wire_elems(xs@.subrange(0, i as int)),
        decreases n - i,
    {
        proof {
            lemma_wire_elems_prefix_len(xs@, i as int);
        }
        let r = encode_value(&xs[i], out);
        match r {
            Err(e) => {
                proof {
                    lemma_wire_elems_split(xs@, i as int);
                }
                return Err(e);
            },
            Ok(()) => {
                proof {
                    lemma_wire_elems_snoc(xs@.subrange(0, i as int), xs@[i as int]);
                    assert(xs@.subrange(0, i as int).push(xs@[i as int]) =~= xs@.subrange(
                        0,
                        i + 1,
                    ));
                    assert(out.contents() =~= old(out).contents() + wire_elems(
                        xs@.subrange(0, i + 1),
                    ));
                }
            },
        }
        i = i + 1;
    }
    proof {
        assert(xs@.subrange(0, n as int) =~= xs@);
    }
    Ok(())
}

/// Appends the encodings of mapping entries: each key, then its value.
fn encode_pairs<S: SerOutput>(ps: &Vec<(Value, Value)>, out: &mut S) -> (r: Result<(), Error>)
    requires
        old(out).inv(),
    ensures
        final(out).inv(),
        final(out).bound() == old(out).bound(),
        r matches Ok(()) ==> final(out).contents() == old(out).contents() + wire_pairs(ps@),
        r matches Err(e) ==> e == Error::SerializeBufferFull && !can_hold(
            old(out).bound(),
            old(out).contents().len() + wire_pairs(ps@).len(),
        ),
        can_hold(old(out).bound(), old(out).contents().len() + wire_pairs(ps@).len())
            ==> r matches Ok(()),
    decreases ps@,
{
    let n: usize = ps.len();
    let mut i: usize = 0;
    proof {
        assert(ps@.subrange(0, 0) =~= Seq::<(Value, Value)>::empty());
        assert(wire_pairs(Seq::<(Value, Value)>::empty()) == Seq::<u8>::empty());
        assert(out.contents() =~= old(out).contents() + wire_pairs(ps@.subrange(0, 0)));
    }
    while i < n
        invariant
            i <= n,
            n == ps@.len(),
            out.inv(),
            out.bound() == old(out).bound(),
            out.contents() == old(out).contents() + wire_pairs(ps@.subrange(0, i as int)),
        decreases n - i,
    {
        proof {
            lemma_wire_pairs_prefix_len(ps@, i as int);
        }
        let rk = encode_value(&ps[i].0, out);
        match rk {
            Err(e) => {
                proof {
                    lemma_wire_pairs_split(ps@, i as int);
                }
                return Err(e);
            },
            Ok(()) => (),
        }
        let rv = encode_value(&ps[i].1, out);
        match rv {
            Err(e) => {
                proof {
                    lemma_wire_pairs_split(ps@, i as int);
                }
                return Err(e);
            },
            Ok(()) => {
                proof {
                    lemma_wire_pairs_snoc(ps@.subrange(0, i as int), ps@[i as int]);
                    assert(ps@.subrange(0, i as int).push(ps@[i as int]) =~= ps@.subrange(
                        0,
                        i + 1,
                    ));
                    assert(out.contents() =~= old(out).contents() + wire_pairs(
                        ps@.subrange(0, i + 1),
                    ));
                }
            },
        }
        i = i + 1;
    }
    proof {
        assert(ps@.subrange(0, n as int) =~= ps@);
    }
    Ok(())
}

/// A consumed element run splits as its first `i` elements and the rest.
pub proof fn lemma_wire_elems_split(s: Seq<Value>, i: int)
    requires
        0 <= i <= s.len(),
    ensures
        wire_elems(s) == wire_elems(s.subrange(0, i)) + wire_elems(s.skip(i)),
    decreases i,
{
    if i == 0 {
        assert(s.subrange(0, 0) =~= Seq::<Value>::empty());
        assert(s.skip(0) =~= s);
        assert(wire_elems(Seq::<Value>::empty()) == Seq::<u8>::empty());
        assert(wire_elems(s) =~= wire_elems(s.subrange(0, 0)) + wire_elems(s.skip(0)));
    } else {
        lemma_wire_elems_split(s.drop_first(), i - 1);
        assert(s.drop_first().subrange(0, i - 1) =~= s.subrange(0, i).drop_first());
        assert(s.drop_first().skip(i - 1) =~= s.skip(i));
        assert(s.subrange(0, i)[0] == s[0]);
        assert(s.len() >= 1 && s.subrange(0, i).len() >= 1);
        assert(wire_elems(s.subrange(0, i)) == wire(s[0]) + wire_elems(
            s.subrange(0, i).drop_first(),
        ));
        assert(wire(s[0]) + (wire_elems(s.subrange(0, i).drop_first()) + wire_elems(s.skip(i)))
            =~= (wire(s[0]) + wire_elems(s.subrange(0, i).drop_first())) + wire_elems(s.skip(i)));
    }
}

/// A consumed entry run splits the same way.
pub proof fn lemma_wire_pairs_split(s: Seq<(Value, Value)>, i: int)
    requires
        0 <= i <= s.len(),
    ensures
        wire_pairs(s) == wire_pairs(s.subrange(0, i)) + wire_pairs(s.skip(i)),
    decreases i,
{
    if i == 0 {
        assert(s.subrange(0, 0) =~= Seq::<(Value, Value)>::empty());
        assert(s.skip(0) =~= s);
        assert(wire_pairs(Seq::<(Value, Value)>::empty()) == Seq::<u8>::empty());
        assert(wire_pairs(s) =~= wire_pairs(s.subrange(0, 0)) + wire_pairs(s.skip(0)));
    } else {
        lemma_wire_pairs_split(s.drop_first(), i - 1);
        assert(s.drop_first().subrange(0, i - 1) =~= s.subrange(0, i).drop_first());
        assert(s.drop_first().skip(i - 1) =~= s.skip(i));
        assert(s.subrange(0, i)[0] == s[0]);
        assert(wire_pairs(s.subrange(0, i)) == wire(s[0].0) + wire(s[0].1) + wire_pairs(
            s.subrange(0, i).drop_first(),
        ));
        assert((wire(s[0].0) + wire(s[0].1)) + (wire_pairs(s.subrange(0, i).drop_first())
            + wire_pairs(s.skip(i))) =~= ((wire(s[0].0) + wire(s[0].1)) + wire_pairs(
            s.subrange(0, i).drop_first(),
        )) + wire_pairs(s.skip(i)));
    }
}

/// The encoding of a prefix run, extended by the next element's encoding,
/// still fits within the whole run's encoding.
proof fn lemma_wire_elems_prefix_len(s: Seq<Value>, i: int)
    requires
        0 <= i < s.len(),
    ensures
        wire_elems(s.subrange(0, i)).len() + wire(s[i]).len() <= wire_elems(s).len(),
{
    lemma_wire_elems_split(s, i);
    assert(s.skip(i)[0] == s[i]);
    assert(wire_elems(s.skip(i)) == wire(s[i]) + wire_elems(s.skip(i).drop_first()));
}

/// The same bound for mapping entries, counting the key and the value.
proof fn lemma_wire_pairs_prefix_len(s: Seq<(Value, Value)>, i: int)
    requires
        0 <= i < s.len(),
    ensures
        wire_pairs(s.subrange(0, i)).len() + wire(s[i].0).len() <= wire_pairs(s).len(),
        wire_pairs(s.subrange(0, i)).len() + wire(s[i].0).len() + wire(s[i].1).len()
            <= wire_pairs(s).len(),
{
    lemma_wire_pairs_split(s, i);
    assert(s.skip(i)[0] == s[i]);
    assert(wire_pairs(s.skip(i)) == wire(s[i].0) + wire(s[i].1) + wire_pairs(
        s.skip(i).drop_first(),
    ));
}

/// Serializes a value into the given buffer through a bounded sink. On
/// success the returned vector holds exactly the encoded bytes; when the
/// buffer is too small for the whole encoding, fails with
/// `SerializeBufferFull` instead, never panicking or truncating.
pub fn to_slice(value: &Value, buf: Vec<u8>) -> (r: Result<Vec<u8>, Error>)
    ensures
        r matches Ok(out) ==> out@ == wire(*value) && wire(*value).len() <= buf@.len(),
        r matches Err(e) ==> e == Error::SerializeBufferFull && wire(*value).len() > buf@.len(),
{
    let mut sink = SliceOutput::new(buf);
    match encode_value(value, &mut sink) {
        Err(e) => Err(e),
        Ok(()) => {
            proof {
                sink.contents_bounded();
                assert(sink.contents() =~= wire(*value));
            }
            match sink.release() {
                Ok(out) => Ok(out),
                Err(()) => Err(Error::SerializeBufferFull),
            }
        },
    }
}

/// Serializes a value into a fresh growable buffer. The growable sink has no
/// capacity bound, so this always succeeds with exactly the encoded bytes.
pub fn to_vec(value: &Value) -> (r: Result<Vec<u8>, Error>)
    ensures
        r matches Ok(out) && out@ == wire(*value),
{
    let mut sink = VecOutput::new();
    match encode_value(value, &mut sink) {
        Err(e) => {
            proof {
                assert(false);
            }
            Err(e)
        },
        Ok(()) => {
            proof {
                assert(sink.contents() =~= wire(*value));
            }
            match sink.release() {
                Ok(out) => Ok(out),
                Err(()) => {
                    proof {
                        assert(false);
                    }
                    Err(Error::SerializeBufferFull)
                },
            }
        },
    }
}

} // verus!
