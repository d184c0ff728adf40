use core::ops::Deref;

use pinecone::to_vec;
use pinecone::value::Value;
use pinecone::varint::VarintUsize;

#[test]
fn ser_u8() {
    let output: Vec<u8> = to_vec(&Value::U8(0x05)).unwrap();
    assert!([5] == output.deref());
}

#[test]
fn ser_u16() {
    let output: Vec<u8> = to_vec(&Value::U16(0xA5C7)).unwrap();
    assert!([0xC7, 0xA5] == output.deref());
}

#[test]
fn ser_u32() {
    let output: Vec<u8> = to_vec(&Value::U32(0xCDAB3412)).unwrap();
    assert!([0x12, 0x34, 0xAB, 0xCD] == output.deref());
}

#[test]
fn ser_u64() {
    let output: Vec<u8> = to_vec(&Value::U64(0x1234_5678_90AB_CDEF)).unwrap();
    assert!([0xEF, 0xCD, 0xAB, 0x90, 0x78, 0x56, 0x34, 0x12] == output.deref());
}

fn basic_u8s(st: u16, ei: u8, sf: u64, tt: u32) -> Value {
    Value::Record(vec![Value::U16(st), Value::U8(ei), Value::U64(sf), Value::U32(tt)])
}

#[test]
fn ser_struct_unsigned() {
    let output: Vec<u8> =
        to_vec(&basic_u8s(0xABCD, 0xFE, 0x1234_4321_ABCD_DCBA, 0xACAC_ACAC)).unwrap();

    assert!(
        [
            0xCD, 0xAB, 0xFE, 0xBA, 0xDC, 0xCD, 0xAB, 0x21, 0x43, 0x34, 0x12, 0xAC, 0xAC, 0xAC,
            0xAC
        ] == output.deref()
    );
}

#[test]
fn ser_byte_slice() {
    let input: &[u8] = &[1u8, 2, 3, 4, 5, 6, 7, 8];
    let output: Vec<u8> = to_vec(&Value::Bytes(input.to_vec())).unwrap();
    assert_eq!(
        [0x08, 0x01, 0x02, 0x03, 0x04, 0x05, 0x06, 0x07, 0x08],
        output.deref()
    );

    let mut input: Vec<u8> = Vec::new();
    for i in 0..1024 {
        input.push((i & 0xFF) as u8);
    }
    let output: Vec<u8> = to_vec(&Value::Bytes(input)).unwrap();
    assert_eq!(&[0x80, 0x08], &output.deref()[..2]);

    assert_eq!(output.len(), 1026);
    for (i, val) in output.deref()[2..].iter().enumerate() {
        assert_eq!((i & 0xFF) as u8, *val);
    }
}

#[test]
fn ser_str() {
    let input: &str = "hello, pinecone!";
    let output: Vec<u8> = to_vec(&Value::Str(input.as_bytes().to_vec())).unwrap();
    assert_eq!(0x10, output.deref()[0]);
    assert_eq!(input.as_bytes(), &output.deref()[1..]);

    let mut input: String = String::new();
    for _ in 0..256 {
        input.push_str("abcd");
    }
    let output: Vec<u8> = to_vec(&Value::Str(input.as_bytes().to_vec())).unwrap();
    assert_eq!(&[0x80, 0x08], &output.deref()[..2]);

    assert_eq!(output.len(), 1026);
    for ch in output.deref()[2..].chunks(4) {
        assert_eq!("abcd", core::str::from_utf8(ch).unwrap());
    }
}

#[test]
fn usize_varint_encode() {
    let mut buf = VarintUsize::new_buf();
    let res = VarintUsize(1).to_buf(&mut buf);

    assert!(res == [1]);

    let res = VarintUsize(usize::MAX).to_buf(&mut buf);

    if VarintUsize::varint_usize_max() == 5 {
        assert_eq!(res, [0xFF, 0xFF, 0xFF, 0xFF, 0x0F]);
    } else {
        assert_eq!(
            res,
            [0xFF, 0xFF, 0xFF, 0xFF, 0xFF, 0xFF, 0xFF, 0xFF, 0xFF, 0x01]
        );
    }
}

#[test]
fn enums() {
    let output: Vec<u8> = to_vec(&Value::Enum(1, vec![])).unwrap();
    assert_eq!(&[0x01], output.deref());

    let output: Vec<u8> = to_vec(&Value::Enum(1, vec![Value::U64(u64::MAX)])).unwrap();
    assert_eq!(
        &[0x01, 0xFF, 0xFF, 0xFF, 0xFF, 0xFF, 0xFF, 0xFF, 0xFF],
        output.deref()
    );

    let output: Vec<u8> = to_vec(&Value::Enum(0, vec![Value::U16(u16::MAX)])).unwrap();
    assert_eq!(&[0x00, 0xFF, 0xFF], output.deref());

    let output: Vec<u8> = to_vec(&Value::Enum(2, vec![Value::U8(u8::MAX)])).unwrap();
    assert_eq!(&[0x02, 0xFF], output.deref());

    let output: Vec<u8> = to_vec(&Value::Enum(
        3,
        vec![Value::Record(vec![Value::U8(0xF0), Value::U16(0xACAC)])],
    ))
    .unwrap();
    assert_eq!(&[0x03, 0xF0, 0xAC, 0xAC,], output.deref());

    let output: Vec<u8> = to_vec(&Value::Enum(
        4,
        vec![Value::U8(0x0F), Value::U32(0xC7C7C7C7)],
    ))
    .unwrap();
    assert_eq!(&[0x04, 0x0F, 0xC7, 0xC7, 0xC7, 0xC7], output.deref());

    let output: Vec<u8> = to_vec(&Value::Enum(5, vec![Value::U16(0x6969), Value::U8(0x07)]))
        .unwrap();
    assert_eq!(&[0x05, 0x69, 0x69, 0x07], output.deref());
}

#[test]
fn tuples() {
    let output: Vec<u8> = to_vec(&Value::Tup(vec![
        Value::U8(1),
        Value::U32(10),
        Value::Str(b"Hello!".to_vec()),
    ]))
    .unwrap();
    assert_eq!(
        &[1u8, 0x0A, 0x00, 0x00, 0x00, 0x06, b'H', b'e', b'l', b'l', b'o', b'!'],
        output.deref()
    )
}

#[test]
fn bytes() {
    let fields: Vec<Value> = (0..32).map(|_| Value::U8(0)).collect();
    let output: Vec<u8> = to_vec(&Value::Tup(fields)).unwrap();
    assert_eq!(output.len(), 32);
}

#[test]
fn structs() {
    let output: Vec<u8> = to_vec(&Value::Newtype(Box::new(Value::U32(5)))).unwrap();
    assert_eq!(&[0x05, 0x00, 0x00, 0x00], output.deref());

    let output: Vec<u8> = to_vec(&Value::TupleRecord(vec![Value::Tup(vec![
        Value::U8(0xA0),
        Value::U16(0x1234),
    ])]))
    .unwrap();
    assert_eq!(&[0xA0, 0x34, 0x12], output.deref());

    let mut buf = VarintUsize::new_buf();
    let mut output: Vec<u8> = Vec::new();
    output.extend_from_slice(&VarintUsize(0x01).to_buf(&mut buf));
    output.extend_from_slice(&VarintUsize(0xFFFF_FFFF).to_buf(&mut buf));
    output.extend_from_slice(&VarintUsize(0x07CD).to_buf(&mut buf));

    assert_eq!(
        &[0x01, 0xFF, 0xFF, 0xFF, 0xFF, 0x0F, 0xCD, 0x0F,],
        output.deref()
    );
}

#[test]
fn ref_struct() {
    let message = "hElLo";
    let bytes = [0x01, 0x10, 0x02, 0x20];
    let output: Vec<u8> = to_vec(&Value::Record(vec![
        Value::Bytes(bytes.to_vec()),
        Value::Str(message.as_bytes().to_vec()),
    ]))
    .unwrap();

    assert_eq!(
        &[0x04, 0x01, 0x10, 0x02, 0x20, 0x05, b'h', b'E', b'l', b'L', b'o',],
        output.deref()
    );
}

#[test]
fn unit() {
    let output: Vec<u8> = to_vec(&Value::Unit).unwrap();
    assert_eq!(output.len(), 0);
}

#[test]
fn heapless_data() {
    let mut input: Vec<u8> = Vec::new();
    input.extend_from_slice(&[0x01, 0x02, 0x03, 0x04]);
    let output: Vec<u8> = to_vec(&Value::Bytes(input)).unwrap();
    assert_eq!(&[0x04, 0x01, 0x02, 0x03, 0x04], output.deref());

    let input: String = String::from("helLO!");
    let output: Vec<u8> = to_vec(&Value::Str(input.into_bytes())).unwrap();
    assert_eq!(&[0x06, b'h', b'e', b'l', b'L', b'O', b'!'], output.deref());
}
