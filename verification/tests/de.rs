use core::ops::Deref;

use pinecone::value::Shape;
use pinecone::value::Value;
use pinecone::{from_bytes, to_vec};

#[test]
fn de_u8() {
    let output: Vec<u8> = to_vec(&Value::U8(0x05)).unwrap();
    assert!([5] == output.deref());

    let out: Value = from_bytes(&Shape::U8, &output).unwrap();
    assert_eq!(out, Value::U8(0x05));
}

#[test]
fn de_u16() {
    let output: Vec<u8> = to_vec(&Value::U16(0xA5C7)).unwrap();
    assert!([0xC7, 0xA5] == output.deref());

    let out: Value = from_bytes(&Shape::U16, &output).unwrap();
    assert_eq!(out, Value::U16(0xA5C7));
}

#[test]
fn de_u32() {
    let output: Vec<u8> = to_vec(&Value::U32(0xCDAB3412)).unwrap();
    assert!([0x12, 0x34, 0xAB, 0xCD] == output.deref());

    let out: Value = from_bytes(&Shape::U32, &output).unwrap();
    assert_eq!(out, Value::U32(0xCDAB3412));
}

#[test]
fn de_u64() {
    let output: Vec<u8> = to_vec(&Value::U64(0x1234_5678_90AB_CDEF)).unwrap();
    assert!([0xEF, 0xCD, 0xAB, 0x90, 0x78, 0x56, 0x34, 0x12] == output.deref());

    let out: Value = from_bytes(&Shape::U64, &output).unwrap();
    assert_eq!(out, Value::U64(0x1234_5678_90AB_CDEF));
}

fn basic_u8s(st: u16, ei: u8, sf: u64, tt: u32) -> Value {
    Value::Record(vec![Value::U16(st), Value::U8(ei), Value::U64(sf), Value::U32(tt)])
}

fn basic_u8s_shape() -> Shape {
    Shape::Record(vec![Shape::U16, Shape::U8, Shape::U64, Shape::U32])
}

#[test]
fn de_struct_unsigned() {
    let data = basic_u8s(0xABCD, 0xFE, 0x1234_4321_ABCD_DCBA, 0xACAC_ACAC);

    let output: Vec<u8> = to_vec(&data).unwrap();

    assert!(
        [
            0xCD, 0xAB, 0xFE, 0xBA, 0xDC, 0xCD, 0xAB, 0x21, 0x43, 0x34, 0x12, 0xAC, 0xAC, 0xAC,
            0xAC
        ] == output.deref()
    );

    let out: Value = from_bytes(&basic_u8s_shape(), &output).unwrap();
    assert_eq!(out, data);
}

#[test]
fn de_byte_slice() {
    let input: &[u8] = &[1u8, 2, 3, 4, 5, 6, 7, 8];
    let output: Vec<u8> = to_vec(&Value::Bytes(input.to_vec())).unwrap();
    assert_eq!(
        [0x08, 0x01, 0x02, 0x03, 0x04, 0x05, 0x06, 0x07, 0x08],
        output.deref()
    );

    let out: Value = from_bytes(&Shape::Bytes, &output).unwrap();
    assert_eq!(Value::Bytes(input.to_vec()), out);

    let mut input: Vec<u8> = Vec::new();
    for i in 0..1024 {
        input.push((i & 0xFF) as u8);
    }
    let output: Vec<u8> = to_vec(&Value::Bytes(input.clone())).unwrap();
    assert_eq!(&[0x80, 0x08], &output.deref()[..2]);

    assert_eq!(output.len(), 1026);
    for (i, val) in output.deref()[2..].iter().enumerate() {
        assert_eq!((i & 0xFF) as u8, *val);
    }

    let de: Value = from_bytes(&Shape::Bytes, &output).unwrap();
    assert_eq!(Value::Bytes(input), de);
}

#[test]
fn de_str() {
    let input: &str = "hello, pinecone!";
    let output: Vec<u8> = to_vec(&Value::Str(input.as_bytes().to_vec())).unwrap();
    assert_eq!(0x10, output.deref()[0]);
    assert_eq!(input.as_bytes(), &output.deref()[1..]);

    let mut input: String = String::new();
    for _ in 0..256 {
        input.push_str("abcd");
    }
    let output: Vec<u8> = to_vec(&Value::Str(input.as_bytes().to_vec())).unwrap();
    assert_eq!(&[0x80, 0x08], &output.deref()[..2]);

    assert_eq!(output.len(), 1026);
    for ch in output.deref()[2..].chunks(4) {
        assert_eq!("abcd", core::str::from_utf8(ch).unwrap());
    }

    let de: Value = from_bytes(&Shape::Str, &output).unwrap();
    assert_eq!(Value::Str(input.into_bytes()), de);
}

fn data_enum_shape() -> Shape {
    Shape::Enum(vec![
        vec![Shape::U16],
        vec![Shape::U64],
        vec![Shape::U8],
        vec![Shape::Record(vec![Shape::U8, Shape::U16])],
        vec![Shape::U8, Shape::U32],
        vec![Shape::U16, Shape::U8],
    ])
}

#[test]
fn mod_enums() {
    let basic_shape = Shape::Enum(vec![vec![], vec![], vec![]]);
    let output: Vec<u8> = to_vec(&Value::Enum(1, vec![])).unwrap();
    assert_eq!(&[0x01], output.deref());
    let out: Value = from_bytes(&basic_shape, &output).unwrap();
    assert_eq!(out, Value::Enum(1, vec![]));

    let output: Vec<u8> = to_vec(&Value::Enum(1, vec![Value::U64(u64::MAX)])).unwrap();
    assert_eq!(
        &[0x01, 0xFF, 0xFF, 0xFF, 0xFF, 0xFF, 0xFF, 0xFF, 0xFF],
        output.deref()
    );

    let output: Vec<u8> = to_vec(&Value::Enum(0, vec![Value::U16(u16::MAX)])).unwrap();
    assert_eq!(&[0x00, 0xFF, 0xFF], output.deref());
    let out: Value = from_bytes(&data_enum_shape(), &output).unwrap();
    assert_eq!(out, Value::Enum(0, vec![Value::U16(u16::MAX)]));

    let output: Vec<u8> = to_vec(&Value::Enum(2, vec![Value::U8(u8::MAX)])).unwrap();
    assert_eq!(&[0x02, 0xFF], output.deref());
    let out: Value = from_bytes(&data_enum_shape(), &output).unwrap();
    assert_eq!(out, Value::Enum(2, vec![Value::U8(u8::MAX)]));

    let kim = Value::Enum(3, vec![Value::Record(vec![Value::U8(0xF0), Value::U16(0xACAC)])]);
    let output: Vec<u8> = to_vec(&kim).unwrap();
    assert_eq!(&[0x03, 0xF0, 0xAC, 0xAC,], output.deref());
    let out: Value = from_bytes(&data_enum_shape(), &output).unwrap();
    assert_eq!(
        out,
        Value::Enum(3, vec![Value::Record(vec![Value::U8(0xF0), Value::U16(0xACAC)])])
    );

    let chi = Value::Enum(4, vec![Value::U8(0x0F), Value::U32(0xC7C7C7C7)]);
    let output: Vec<u8> = to_vec(&chi).unwrap();
    assert_eq!(&[0x04, 0x0F, 0xC7, 0xC7, 0xC7, 0xC7], output.deref());
    let out: Value = from_bytes(&data_enum_shape(), &output).unwrap();
    assert_eq!(out, Value::Enum(4, vec![Value::U8(0x0F), Value::U32(0xC7C7C7C7)]));

    let sho = Value::Enum(5, vec![Value::U16(0x6969), Value::U8(0x07)]);
    let output: Vec<u8> = to_vec(&sho).unwrap();
    assert_eq!(&[0x05, 0x69, 0x69, 0x07], output.deref());
    let out: Value = from_bytes(&data_enum_shape(), &output).unwrap();
    assert_eq!(out, Value::Enum(5, vec![Value::U16(0x6969), Value::U8(0x07)]));
}

#[test]
fn mod_tuples() {
    let data = Value::Tup(vec![
        Value::U8(1),
        Value::U32(10),
        Value::Str(b"Hello!".to_vec()),
    ]);
    let output: Vec<u8> = to_vec(&data).unwrap();
    assert_eq!(
        &[1u8, 0x0A, 0x00, 0x00, 0x00, 0x06, b'H', b'e', b'l', b'l', b'o', b'!'],
        output.deref()
    );
    let shape = Shape::Tup(vec![Shape::U8, Shape::U32, Shape::Str]);
    let out: Value = from_bytes(&shape, &output).unwrap();
    assert_eq!(out, data);
}

#[test]
fn mod_bytes() {
    let fields: Vec<Value> = (0..32).map(|_| Value::U8(0)).collect();
    let output: Vec<u8> = to_vec(&Value::Tup(fields)).unwrap();
    assert_eq!(output.len(), 32);
    let shape = Shape::Tup((0..32).map(|_| Shape::U8).collect());
    let out: Value = from_bytes(&shape, &output).unwrap();
    let expected: Vec<Value> = (0..32).map(|_| Value::U8(0)).collect();
    assert_eq!(out, Value::Tup(expected));
}

#[test]
fn mod_structs() {
    let output: Vec<u8> = to_vec(&Value::Newtype(Box::new(Value::U32(5)))).unwrap();
    assert_eq!(&[0x05, 0x00, 0x00, 0x00], output.deref());
    let out: Value = from_bytes(&Shape::Newtype(Box::new(Shape::U32)), &output).unwrap();
    assert_eq!(out, Value::Newtype(Box::new(Value::U32(5))));

    let pair = Value::TupleRecord(vec![Value::U8(0xA0), Value::U16(0x1234)]);
    let output: Vec<u8> = to_vec(&pair).unwrap();
    assert_eq!(&[0xA0, 0x34, 0x12], output.deref());
    let pair_shape = Shape::TupleRecord(vec![Shape::U8, Shape::U16]);
    let out: Value = from_bytes(&pair_shape, &output).unwrap();
    assert_eq!(out, Value::TupleRecord(vec![Value::U8(0xA0), Value::U16(0x1234)]));

    let nested = Value::TupleRecord(vec![Value::Tup(vec![Value::U8(0xA0), Value::U16(0x1234)])]);
    let output: Vec<u8> = to_vec(&nested).unwrap();
    assert_eq!(&[0xA0, 0x34, 0x12], output.deref());
    let nested_shape = Shape::TupleRecord(vec![Shape::Tup(vec![Shape::U8, Shape::U16])]);
    let out: Value = from_bytes(&nested_shape, &output).unwrap();
    assert_eq!(
        out,
        Value::TupleRecord(vec![Value::Tup(vec![Value::U8(0xA0), Value::U16(0x1234)])])
    );
}

#[test]
fn mod_ref_struct() {
    let message = "hElLo";
    let bytes = [0x01, 0x10, 0x02, 0x20];
    let data = Value::Record(vec![
        Value::Bytes(bytes.to_vec()),
        Value::Str(message.as_bytes().to_vec()),
    ]);
    let output: Vec<u8> = to_vec(&data).unwrap();

    assert_eq!(
        &[0x04, 0x01, 0x10, 0x02, 0x20, 0x05, b'h', b'E', b'l', b'L', b'o',],
        output.deref()
    );

    let shape = Shape::Record(vec![Shape::Bytes, Shape::Str]);
    let out: Value = from_bytes(&shape, &output).unwrap();
    assert_eq!(out, data);
}

#[test]
fn mod_unit() {
    let output: Vec<u8> = to_vec(&Value::Unit).unwrap();
    assert_eq!(output.len(), 0);
    let out: Value = from_bytes(&Shape::Unit, &output).unwrap();
    assert_eq!(out, Value::Unit);
}

#[test]
fn vec() {
    let mut input: Vec<u8> = Vec::new();
    input.extend_from_slice(&[0x01, 0x02, 0x03, 0x04]);
    let output: Vec<u8> = to_vec(&Value::Bytes(input.clone())).unwrap();
    assert_eq!(&[0x04, 0x01, 0x02, 0x03, 0x04], output.deref());
    let out: Value = from_bytes(&Shape::Bytes, &output).unwrap();
    assert_eq!(out, Value::Bytes(input));

    let input: String = String::from("helLO!");
    let output: Vec<u8> = to_vec(&Value::Str(input.as_bytes().to_vec())).unwrap();
    assert_eq!(&[0x06, b'h', b'e', b'l', b'L', b'O', b'!'], output.deref());
    let out: Value = from_bytes(&Shape::Str, &output).unwrap();
    assert_eq!(out, Value::Str(input.into_bytes()));
}

#[test]
fn hashmap() {
    let map_shape = Shape::Mapping(Box::new(Shape::U8), Box::new(Shape::U8));
    let result: Value = from_bytes(&map_shape, &[0]).unwrap();
    assert_eq!(result, Value::Mapping(vec![]));

    let result: Value = from_bytes(&map_shape, &[3, 1, 2, 3, 4, 5, 6]).unwrap();
    assert_eq!(
        result,
        Value::Mapping(vec![
            (Value::U8(1), Value::U8(2)),
            (Value::U8(3), Value::U8(4)),
            (Value::U8(5), Value::U8(6)),
        ])
    );
}
