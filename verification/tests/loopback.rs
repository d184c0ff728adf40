use core::ops::Deref;

use pinecone::value::Shape;
use pinecone::value::Value;
use pinecone::{from_bytes, to_vec};

fn basic_u8s(st: u16, ei: u8, sf: u64, tt: u32) -> Value {
    Value::Record(vec![Value::U16(st), Value::U8(ei), Value::U64(sf), Value::U32(tt)])
}

fn basic_u8s_shape() -> Shape {
    Shape::Record(vec![Shape::U16, Shape::U8, Shape::U64, Shape::U32])
}

fn data_enum_shape() -> Shape {
    Shape::Enum(vec![
        vec![Shape::U16],
        vec![Shape::U64],
        vec![Shape::U8],
        vec![Shape::Record(vec![Shape::U8, Shape::U16])],
        vec![Shape::U8, Shape::U32],
        vec![Shape::U16, Shape::U8],
    ])
}

#[test]
fn loopback() {
    // Basic types
    test_one(Value::Unit, Shape::Unit, &[]);
    test_one(Value::Bool(false), Shape::Bool, &[0x00]);
    test_one(Value::Bool(true), Shape::Bool, &[0x01]);
    test_one(Value::U8(5), Shape::U8, &[0x05]);
    test_one(Value::U16(0xA5C7), Shape::U16, &[0xC7, 0xA5]);
    test_one(Value::U32(0xCDAB3412), Shape::U32, &[0x12, 0x34, 0xAB, 0xCD]);
    test_one(
        Value::U64(0x1234_5678_90AB_CDEF),
        Shape::U64,
        &[0xEF, 0xCD, 0xAB, 0x90, 0x78, 0x56, 0x34, 0x12],
    );

    // Structs
    test_one(
        basic_u8s(0xABCD, 0xFE, 0x1234_4321_ABCD_DCBA, 0xACAC_ACAC),
        basic_u8s_shape(),
        &[
            0xCD, 0xAB, 0xFE, 0xBA, 0xDC, 0xCD, 0xAB, 0x21, 0x43, 0x34, 0x12, 0xAC, 0xAC, 0xAC,
            0xAC,
        ],
    );

    // Enums
    test_one(Value::Enum(1, vec![]), Shape::Enum(vec![vec![], vec![], vec![]]), &[0x01]);
    test_one(
        Value::Enum(1, vec![Value::U64(u64::MAX)]),
        data_enum_shape(),
        &[0x01, 0xFF, 0xFF, 0xFF, 0xFF, 0xFF, 0xFF, 0xFF, 0xFF],
    );
    test_one(
        Value::Enum(0, vec![Value::U16(u16::MAX)]),
        data_enum_shape(),
        &[0x00, 0xFF, 0xFF],
    );
    test_one(
        Value::Enum(2, vec![Value::U8(u8::MAX)]),
        data_enum_shape(),
        &[0x02, 0xFF],
    );
    test_one(
        Value::Enum(3, vec![Value::Record(vec![Value::U8(0xF0), Value::U16(0xACAC)])]),
        data_enum_shape(),
        &[0x03, 0xF0, 0xAC, 0xAC],
    );
    test_one(
        Value::Enum(4, vec![Value::U8(0x0F), Value::U32(0xC7C7C7C7)]),
        data_enum_shape(),
        &[0x04, 0x0F, 0xC7, 0xC7, 0xC7, 0xC7],
    );
    test_one(
        Value::Enum(5, vec![Value::U16(0x6969), Value::U8(0x07)]),
        data_enum_shape(),
        &[0x05, 0x69, 0x69, 0x07],
    );

    // Tuples
    test_one(
        Value::Tup(vec![Value::U8(0x12), Value::U16(0xC7A5)]),
        Shape::Tup(vec![Shape::U8, Shape::U16]),
        &[0x12, 0xA5, 0xC7],
    );

    // Structs
    test_one(
        Value::Newtype(Box::new(Value::U32(5))),
        Shape::Newtype(Box::new(Shape::U32)),
        &[0x05, 0x00, 0x00, 0x00],
    );
    test_one(
        Value::TupleRecord(vec![Value::U8(0xA0), Value::U16(0x1234)]),
        Shape::TupleRecord(vec![Shape::U8, Shape::U16]),
        &[0xA0, 0x34, 0x12],
    );
    test_one(
        Value::TupleRecord(vec![Value::Tup(vec![Value::U8(0xA0), Value::U16(0x1234)])]),
        Shape::TupleRecord(vec![Shape::Tup(vec![Shape::U8, Shape::U16])]),
        &[0xA0, 0x34, 0x12],
    );

    let mut input: Vec<u8> = Vec::new();
    input.extend_from_slice(&[0x01, 0x02, 0x03, 0x04]);
    test_one(Value::Bytes(input), Shape::Bytes, &[0x04, 0x01, 0x02, 0x03, 0x04]);

    let input: String = String::from("helLO!");
    test_one(
        Value::Str(input.into_bytes()),
        Shape::Str,
        &[0x06, b'h', b'e', b'l', b'L', b'O', b'!'],
    );

    test_one(
        Value::List(vec![
            Value::Str(vec![]),
            Value::Str(b"a".to_vec()),
            Value::Str(b"bc".to_vec()),
        ]),
        Shape::List(Box::new(Shape::Str)),
        &[3, 0, 1, b'a', 2, b'b', b'c'],
    );

    // Chars
    test_opaque(Value::Char('a'), Shape::Char);
    test_opaque(Value::Char('\u{E4}'), Shape::Char);
    test_opaque(Value::Char('\u{939}'), Shape::Char);
    test_opaque(Value::Char('\u{20AC}'), Shape::Char);
    test_opaque(Value::Char('\u{D55C}'), Shape::Char);
    test_opaque(Value::Char('\u{10348}'), Shape::Char);

    // Data containers
    test_opaque(
        Value::Newtype(Box::new(Value::Mapping(vec![]))),
        Shape::Newtype(Box::new(Shape::Mapping(Box::new(Shape::U8), Box::new(Shape::U8)))),
    );
    test_opaque(
        Value::Newtype(Box::new(Value::Mapping(vec![]))),
        Shape::Newtype(Box::new(Shape::Mapping(Box::new(Shape::Str), Box::new(Shape::Str)))),
    );
}

fn test_one(data: Value, shape: Shape, ser_rep: &[u8]) {
    let serialized: Vec<u8> = to_vec(&data).unwrap();
    assert_eq!(serialized.len(), ser_rep.len());
    let mut x: Vec<u8> = vec![];
    x.extend(serialized.deref().iter().cloned());
    assert_eq!(x, ser_rep);
    {
        let deserialized: Value = from_bytes(&shape, &x).unwrap();
        assert_eq!(data, deserialized);
    }
}

fn test_opaque(data: Value, shape: Shape) {
    let serialized: Vec<u8> = to_vec(&data).unwrap();
    let mut x: Vec<u8> = vec![];
    x.extend(serialized.deref().iter().cloned());
    println!("SER {:?}", x);
    {
        let deserialized: Value = from_bytes(&shape, &x).unwrap();
        assert_eq!(data, deserialized);
    }
}
