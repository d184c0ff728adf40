use pinecone::error::Error;
use pinecone::value::Shape;
use pinecone::value::Value;
use pinecone::output::{SerOutput, SliceOutput, VecOutput};
use pinecone::{from_bytes, take_from_bytes, to_slice, to_vec};

#[test]
fn scenario_u16_fixed_width() {
    let bytes = to_vec(&Value::U16(0xA5C7)).unwrap();
    assert_eq!(bytes, [0xC7, 0xA5]);
    let back = from_bytes(&Shape::U16, &[0xC7, 0xA5]).unwrap();
    assert_eq!(back, Value::U16(0xA5C7));
}

#[test]
fn scenario_str_prefixed() {
    let bytes = to_vec(&Value::Str(b"hi!".to_vec())).unwrap();
    assert_eq!(bytes, [0x03, b'h', b'i', b'!']);
}

#[test]
fn scenario_enum_second_variant() {
    let shape = Shape::Enum(vec![vec![Shape::U8], vec![Shape::U64], vec![]]);
    let value = Value::Enum(1, vec![Value::U64(u64::MAX)]);
    let bytes = to_vec(&value).unwrap();
    assert_eq!(
        bytes,
        [0x01, 0xFF, 0xFF, 0xFF, 0xFF, 0xFF, 0xFF, 0xFF, 0xFF]
    );
    let back = from_bytes(&shape, &bytes).unwrap();
    assert_eq!(back, Value::Enum(1, vec![Value::U64(u64::MAX)]));
}

#[test]
fn scenario_struct_concatenation() {
    let value = Value::Record(vec![
        Value::U16(0x0102),
        Value::U8(0x03),
        Value::U64(0x0405_0607_0809_0A0B),
        Value::U32(0x0C0D_0E0F),
    ]);
    let bytes = to_vec(&value).unwrap();
    let mut expected: Vec<u8> = Vec::new();
    expected.extend_from_slice(&to_vec(&Value::U16(0x0102)).unwrap());
    expected.extend_from_slice(&to_vec(&Value::U8(0x03)).unwrap());
    expected.extend_from_slice(&to_vec(&Value::U64(0x0405_0607_0809_0A0B)).unwrap());
    expected.extend_from_slice(&to_vec(&Value::U32(0x0C0D_0E0F)).unwrap());
    assert_eq!(bytes, expected);
}

#[test]
fn scenario_empty_map() {
    let shape = Shape::Mapping(Box::new(Shape::U8), Box::new(Shape::U8));
    let back = from_bytes(&shape, &[0x00]).unwrap();
    assert_eq!(back, Value::Mapping(vec![]));
}

#[test]
fn scenario_truncated_varint() {
    let shape = Shape::Bytes;
    let err = from_bytes(&shape, &[0x80, 0x80, 0x80]).unwrap_err();
    assert_eq!(err, Error::DeserializeBadVarint);
}

#[test]
fn fixed_width_same_for_both_sinks() {
    let samples = [
        Value::U16(0xA5C7),
        Value::U32(7),
        Value::U64(u64::MAX),
        Value::I16(-2),
        Value::I32(-1),
        Value::I64(i64::MIN),
        Value::Bool(true),
        Value::Char('\u{20AC}'),
    ];
    for v in samples {
        let grown = to_vec(&v).unwrap();
        let bounded = to_slice(&v, vec![0u8; 64]).unwrap();
        assert_eq!(grown, bounded);
    }
}

#[test]
fn signed_two_complement_bytes() {
    assert_eq!(to_vec(&Value::I8(-1)).unwrap(), [0xFF]);
    assert_eq!(to_vec(&Value::I16(-2)).unwrap(), [0xFE, 0xFF]);
    assert_eq!(to_vec(&Value::I32(-2)).unwrap(), [0xFE, 0xFF, 0xFF, 0xFF]);
    assert_eq!(
        to_vec(&Value::I64(-2)).unwrap(),
        [0xFE, 0xFF, 0xFF, 0xFF, 0xFF, 0xFF, 0xFF, 0xFF]
    );
    assert_eq!(from_bytes(&Shape::I8, &[0xFF]).unwrap(), Value::I8(-1));
    assert_eq!(from_bytes(&Shape::I16, &[0xFE, 0xFF]).unwrap(), Value::I16(-2));
    assert_eq!(
        from_bytes(&Shape::I64, &[0xFE, 0xFF, 0xFF, 0xFF, 0xFF, 0xFF, 0xFF, 0xFF]).unwrap(),
        Value::I64(-2)
    );
}

#[test]
fn length_prefix_counts_contents() {
    let bytes = to_vec(&Value::Bytes(vec![9u8; 5])).unwrap();
    assert_eq!(bytes[0], 5);
    assert_eq!(bytes.len(), 6);

    let list: Vec<Value> = (0..300).map(|_| Value::U8(1)).collect();
    let bytes = to_vec(&Value::List(list)).unwrap();
    // 300 = 0b10_0101100: varint [0xAC, 0x02], then one byte per element.
    assert_eq!(&bytes[..2], &[0xAC, 0x02]);
    assert_eq!(bytes.len(), 302);
}

#[test]
fn enum_discriminant_minimal() {
    let variants: Vec<Vec<Shape>> = (0..129).map(|_| vec![]).collect();
    let shape = Shape::Enum(variants);

    let bytes = to_vec(&Value::Enum(127, vec![])).unwrap();
    assert_eq!(bytes, [0x7F]);
    assert_eq!(from_bytes(&shape, &bytes).unwrap(), Value::Enum(127, vec![]));

    let bytes = to_vec(&Value::Enum(128, vec![])).unwrap();
    assert_eq!(bytes, [0x80, 0x01]);
    assert_eq!(from_bytes(&shape, &bytes).unwrap(), Value::Enum(128, vec![]));
}

#[test]
fn bounded_sink_overflow() {
    let value = Value::Str(b"hello, world".to_vec());
    let needed = to_vec(&value).unwrap().len();

    let err = to_slice(&value, vec![0u8; needed - 1]).unwrap_err();
    assert_eq!(err, Error::SerializeBufferFull);

    let exact = to_slice(&value, vec![0u8; needed]).unwrap();
    assert_eq!(exact, to_vec(&value).unwrap());

    let roomy = to_slice(&value, vec![0u8; needed + 10]).unwrap();
    assert_eq!(roomy, to_vec(&value).unwrap());
}

#[test]
fn prefix_decode_returns_remainder() {
    let value = Value::Tup(vec![Value::U8(7), Value::Str(b"ab".to_vec())]);
    let shape = Shape::Tup(vec![Shape::U8, Shape::Str]);
    let mut buffer = to_vec(&value).unwrap();
    let extra = [0xDE, 0xAD, 0xBE, 0xEF];
    buffer.extend_from_slice(&extra);

    let (back, rest) = take_from_bytes(&shape, &buffer).unwrap();
    assert_eq!(back, value);
    assert_eq!(rest, &extra);

    // `from_bytes` silently discards the same trailing bytes.
    let back = from_bytes(&shape, &buffer).unwrap();
    assert_eq!(back, value);
}

#[test]
fn option_tags() {
    let shape = Shape::Opt(Box::new(Shape::U16));
    let none = Value::Opt(None);
    let bytes = to_vec(&none).unwrap();
    assert_eq!(bytes, [0x00]);
    assert_eq!(from_bytes(&shape, &bytes).unwrap(), Value::Opt(None));

    let some = Value::Opt(Some(Box::new(Value::U16(0xA5C7))));
    let bytes = to_vec(&some).unwrap();
    assert_eq!(bytes, [0x01, 0xC7, 0xA5]);
    let back = from_bytes(&shape, &bytes).unwrap();
    assert_eq!(back, Value::Opt(Some(Box::new(Value::U16(0xA5C7)))));
}

#[test]
fn bad_bool() {
    let err = from_bytes(&Shape::Bool, &[0x02]).unwrap_err();
    assert_eq!(err, Error::DeserializeBadBool);
}

#[test]
fn bad_option() {
    let shape = Shape::Opt(Box::new(Shape::U8));
    let err = from_bytes(&shape, &[0x05, 0x01]).unwrap_err();
    assert_eq!(err, Error::DeserializeBadOption);
}

#[test]
fn bad_char() {
    // 0xD800 is a surrogate, not a Unicode scalar value.
    let err = from_bytes(&Shape::Char, &[0x00, 0xD8, 0x00, 0x00]).unwrap_err();
    assert_eq!(err, Error::DeserializeBadChar);

    let ok = from_bytes(&Shape::Char, &[0x48, 0x03, 0x01, 0x00]).unwrap();
    assert_eq!(ok, Value::Char('\u{10348}'));
}

#[test]
fn bad_utf8() {
    let err = from_bytes(&Shape::Str, &[0x01, 0xFF]).unwrap_err();
    assert_eq!(err, Error::DeserializeBadUtf8);

    let ok = from_bytes(&Shape::Bytes, &[0x01, 0xFF]).unwrap();
    assert_eq!(ok, Value::Bytes(vec![0xFF]));
}

#[test]
fn bad_enum() {
    let shape = Shape::Enum(vec![vec![], vec![]]);
    let err = from_bytes(&shape, &[0x02]).unwrap_err();
    assert_eq!(err, Error::DeserializeBadEnum);

    // A discriminant beyond the 32-bit bound: 2^33.
    let err = from_bytes(&shape, &[0x80, 0x80, 0x80, 0x80, 0x20]).unwrap_err();
    assert_eq!(err, Error::DeserializeBadEnum);
}

#[test]
fn unexpected_end() {
    let err = from_bytes(&Shape::U16, &[0x01]).unwrap_err();
    assert_eq!(err, Error::DeserializeUnexpectedEnd);

    let err = from_bytes(&Shape::Bytes, &[0x05, 0x01]).unwrap_err();
    assert_eq!(err, Error::DeserializeUnexpectedEnd);
}

#[test]
fn bad_varint_rejects_overflow() {
    // Eleven continuation groups can never fit a pointer-width integer.
    let long = [0x80u8, 0x80, 0x80, 0x80, 0x80, 0x80, 0x80, 0x80, 0x80, 0x80, 0x00];
    let err = from_bytes(&Shape::Bytes, &long).unwrap_err();
    assert_eq!(err, Error::DeserializeBadVarint);

    if usize::BITS == 64 {
        // Ten groups whose value would exceed usize::MAX.
        let over = [0xFFu8, 0xFF, 0xFF, 0xFF, 0xFF, 0xFF, 0xFF, 0xFF, 0xFF, 0x7F];
        let err = from_bytes(&Shape::Bytes, &over).unwrap_err();
        assert_eq!(err, Error::DeserializeBadVarint);
    }
}

#[test]
fn sinks_direct() {
    let mut v = VecOutput::new();
    assert!(v.try_push(1).is_ok());
    assert!(v.try_extend(&[2, 3]).is_ok());
    assert_eq!(v.byte_at(2), 3);
    assert_eq!(v.release().unwrap(), vec![1, 2, 3]);

    let mut s = SliceOutput::new(vec![0u8; 2]);
    assert!(s.try_push(9).is_ok());
    assert!(s.try_extend(&[8, 7]).is_err());
    assert!(s.try_push(8).is_ok());
    assert!(s.try_push(7).is_err());
    assert_eq!(s.byte_at(0), 9);
    assert_eq!(s.release().unwrap(), vec![9, 8]);
}

#[test]
fn nested_round_trip() {
    let value = Value::Record(vec![
        Value::List(vec![
            Value::Opt(Some(Box::new(Value::I32(-5)))),
            Value::Opt(None),
        ]),
        Value::Mapping(vec![
            (Value::Str(b"k".to_vec()), Value::Enum(0, vec![Value::Unit])),
        ]),
        Value::Newtype(Box::new(Value::Char('\u{E4}'))),
    ]);
    let shape = Shape::Record(vec![
        Shape::List(Box::new(Shape::Opt(Box::new(Shape::I32)))),
        Shape::Mapping(Box::new(Shape::Str), Box::new(Shape::Enum(vec![vec![Shape::Unit]]))),
        Shape::Newtype(Box::new(Shape::Char)),
    ]);
    let bytes = to_vec(&value).unwrap();
    let back = from_bytes(&shape, &bytes).unwrap();
    assert_eq!(back, value);
}
