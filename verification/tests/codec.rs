use shaft::{Error, Shape, SliceReader, Value, VecWriter};

fn round_trip(value: Value, shape: &Shape) {
    let bytes = shaft::to_bytes(&value).unwrap();
    let back = shaft::from_bytes(&bytes, shape).unwrap();
    assert_eq!(back, value);
}

#[test]
fn round_trip_scalars() {
    round_trip(Value::Bool(true), &Shape::Bool);
    round_trip(Value::I8(-7), &Shape::I8);
    round_trip(Value::I16(-300), &Shape::I16);
    round_trip(Value::I32(123456), &Shape::I32);
    round_trip(Value::I64(i64::MIN), &Shape::I64);
    round_trip(Value::U8(200), &Shape::U8);
    round_trip(Value::U16(40000), &Shape::U16);
    round_trip(Value::U32(u32::MAX), &Shape::U32);
    round_trip(Value::U64(u64::MAX), &Shape::U64);
    round_trip(Value::F32(std::f32::consts::E.to_bits()), &Shape::F32);
    round_trip(Value::F64(f64::NAN.to_bits()), &Shape::F64);
    round_trip(Value::Char('z'), &Shape::Char);
    round_trip(Value::Unit, &Shape::Unit);
}

#[test]
fn round_trip_multibyte_text() {
    let text = "a\u{df}\u{1401}\u{1f4a3}";
    round_trip(Value::Text(text.to_owned()), &Shape::Text);
}

#[test]
fn round_trip_empty_text() {
    round_trip(Value::Text(String::new()), &Shape::Text);
}

#[test]
fn round_trip_empty_sequence() {
    round_trip(Value::Sequence(vec![]), &Shape::Sequence(Box::new(Shape::U32)));
}

#[test]
fn round_trip_sequence() {
    let shape = Shape::Sequence(Box::new(Shape::I16));
    round_trip(
        Value::Sequence(vec![Value::I16(-1), Value::I16(0), Value::I16(999)]),
        &shape,
    );
}

#[test]
fn round_trip_empty_mapping() {
    let shape = Shape::Mapping(Box::new(Shape::Text), Box::new(Shape::U64));
    round_trip(Value::Mapping(vec![]), &shape);
}

#[test]
fn round_trip_mapping() {
    let shape = Shape::Mapping(Box::new(Shape::Text), Box::new(Shape::U64));
    round_trip(
        Value::Mapping(vec![
            (Value::Text("one".to_owned()), Value::U64(1)),
            (Value::Text("two".to_owned()), Value::U64(2)),
        ]),
        &shape,
    );
}

#[test]
fn round_trip_nested_union() {
    // a union whose second variant carries an optional sequence of unions
    let inner_union = Shape::Union(vec![vec![], vec![Shape::U8]]);
    let shape = Shape::Union(vec![
        vec![],
        vec![Shape::Optional(Box::new(Shape::Sequence(Box::new(inner_union))))],
    ]);
    let value = Value::Variant(
        1,
        vec![Value::Optional(Some(Box::new(Value::Sequence(vec![
            Value::Variant(0, vec![]),
            Value::Variant(1, vec![Value::U8(9)]),
        ]))))],
    );
    round_trip(value, &shape);
}

#[test]
fn round_trip_product_of_mixed_fields() {
    let shape = Shape::Product(vec![
        Shape::Bool,
        Shape::Text,
        Shape::Bytes,
        Shape::Optional(Box::new(Shape::Char)),
    ]);
    let value = Value::Product(vec![
        Value::Bool(false),
        Value::Text("mixed".to_owned()),
        Value::Bytes(vec![0, 255, 3]),
        Value::Optional(Some(Box::new(Value::Char('\u{1f4a3}')))),
    ]);
    round_trip(value, &shape);
}

#[test]
fn mapping_keeps_order_and_duplicate_keys() {
    // pairs go out in iteration order: no sorting, no key deduplication
    let value = Value::Mapping(vec![
        (Value::U8(2), Value::U8(20)),
        (Value::U8(1), Value::U8(10)),
        (Value::U8(2), Value::U8(30)),
    ]);
    let bytes = shaft::to_bytes(&value).unwrap();
    assert_eq!(bytes, [3, 0, 0, 0, 0, 0, 0, 0, 2, 20, 1, 10, 2, 30]);
    let shape = Shape::Mapping(Box::new(Shape::U8), Box::new(Shape::U8));
    assert_eq!(shaft::from_bytes(&bytes, &shape).unwrap(), value);
}

#[test]
fn truncated_scalar_is_out_of_data() {
    assert_eq!(shaft::from_bytes(&[], &Shape::Bool), Err(Error::OutOfData));
    assert_eq!(shaft::from_bytes(&[1, 0], &Shape::U32), Err(Error::OutOfData));
    assert_eq!(
        shaft::from_bytes(&[1, 2, 3, 4, 5, 6, 7], &Shape::U64),
        Err(Error::OutOfData)
    );
}

#[test]
fn truncated_everywhere_is_out_of_data() {
    // every strict prefix of a valid encoding fails with out-of-data
    let shape = Shape::Product(vec![
        Shape::Text,
        Shape::Sequence(Box::new(Shape::U16)),
        Shape::Union(vec![vec![Shape::Bytes]]),
    ]);
    let value = Value::Product(vec![
        Value::Text("hi".to_owned()),
        Value::Sequence(vec![Value::U16(1), Value::U16(2)]),
        Value::Variant(0, vec![Value::Bytes(vec![9, 8, 7])]),
    ]);
    let bytes = shaft::to_bytes(&value).unwrap();
    for cut in 0..bytes.len() {
        assert_eq!(shaft::from_bytes(&bytes[..cut], &shape), Err(Error::OutOfData));
    }
}

#[test]
fn truncated_text_payload_is_out_of_data() {
    // the length prefix promises five bytes and only three follow
    let bytes = [5, 0, 0, 0, 0, 0, 0, 0, b'a', b'b', b'c'];
    assert_eq!(shaft::from_bytes(&bytes, &Shape::Text), Err(Error::OutOfData));
}

#[test]
fn bool_byte_two_is_invalid_scalar() {
    assert_eq!(shaft::from_bytes(&[2], &Shape::Bool), Err(Error::InvalidScalar));
}

#[test]
fn optional_flag_two_is_invalid_scalar() {
    // the optional flag is held to the same rule as a plain boolean
    let shape = Shape::Optional(Box::new(Shape::U8));
    assert_eq!(shaft::from_bytes(&[2, 1], &shape), Err(Error::InvalidScalar));
}

#[test]
fn surrogate_code_point_is_invalid_scalar() {
    // 0xD800 is a surrogate, not a Unicode scalar
    let bytes = [0x00, 0xd8, 0, 0];
    assert_eq!(shaft::from_bytes(&bytes, &Shape::Char), Err(Error::InvalidScalar));
}

#[test]
fn out_of_range_code_point_is_invalid_scalar() {
    let bytes = 0x110000u32.to_le_bytes();
    assert_eq!(shaft::from_bytes(&bytes, &Shape::Char), Err(Error::InvalidScalar));
}

#[test]
fn unknown_variant_index_is_invalid_scalar() {
    let shape = Shape::Union(vec![vec![], vec![Shape::U8]]);
    let bytes = [2, 0, 0, 0];
    assert_eq!(shaft::from_bytes(&bytes, &shape), Err(Error::InvalidScalar));
}

#[test]
fn non_utf8_text_is_invalid_text() {
    // a satisfiable length prefix over bytes that are not UTF-8
    let bytes = [2, 0, 0, 0, 0, 0, 0, 0, 0xff, 0xfe];
    assert_eq!(shaft::from_bytes(&bytes, &Shape::Text), Err(Error::InvalidText));
}

#[test]
fn optional_absent_and_present() {
    let shape = Shape::Optional(Box::new(Shape::U8));
    assert_eq!(shaft::from_bytes(&[0], &shape).unwrap(), Value::Optional(None));
    assert_eq!(
        shaft::from_bytes(&[1, 1], &shape).unwrap(),
        Value::Optional(Some(Box::new(Value::U8(1))))
    );
}

#[test]
fn trailing_bytes_are_ignored() {
    let bytes = [7, 99, 99];
    assert_eq!(shaft::from_bytes(&bytes, &Shape::U8).unwrap(), Value::U8(7));
}

#[test]
fn writer_appends_primitives_little_endian() {
    let mut w = VecWriter::new();
    w.write_bool(true).unwrap();
    w.write_u8(0xab).unwrap();
    w.write_i8(-2).unwrap();
    w.write_u16(0x0102).unwrap();
    w.write_i16(-1).unwrap();
    w.write_u32(0x01020304).unwrap();
    w.write_i32(-1).unwrap();
    w.write_u64(0x0102030405060708).unwrap();
    w.write_i64(-1).unwrap();
    w.write_f32((1.0f32).to_bits()).unwrap();
    w.write_f64((1.0f64).to_bits()).unwrap();
    w.write_bytes(&[10, 11]).unwrap();
    let out = w.into_vec();
    let expected: Vec<u8> = vec![
        1, 0xab, 0xfe, 0x02, 0x01, 0xff, 0xff, 0x04, 0x03, 0x02, 0x01, 0xff, 0xff, 0xff, 0xff,
        0x08, 0x07, 0x06, 0x05, 0x04, 0x03, 0x02, 0x01, 0xff, 0xff, 0xff, 0xff, 0xff, 0xff, 0xff,
        0xff, 0, 0, 0x80, 0x3f, 0, 0, 0, 0, 0, 0, 0xf0, 0x3f, 10, 11,
    ];
    assert_eq!(out, expected);
}

#[test]
fn reader_reads_primitives_and_stops_at_end() {
    let data = [1u8, 0x22, 0x11, 0x44, 0x33, 0x22, 0x11];
    let mut r = SliceReader::new(&data);
    assert_eq!(r.read_bool(), Ok(true));
    assert_eq!(r.read_u16(), Ok(0x1122));
    assert_eq!(r.read_u32(), Ok(0x11223344));
    assert_eq!(r.read_u8(), Err(Error::OutOfData));
}

#[test]
fn reader_does_not_advance_on_failure() {
    let data = [3u8, 1];
    let mut r = SliceReader::new(&data);
    // a four-byte read cannot be served; the two bytes are still there
    assert_eq!(r.read_u32(), Err(Error::OutOfData));
    assert_eq!(r.read_u8(), Ok(3));
    assert_eq!(r.read_u8(), Ok(1));
}

#[test]
fn reader_rejects_bad_bool_without_advancing() {
    let data = [9u8];
    let mut r = SliceReader::new(&data);
    assert_eq!(r.read_bool(), Err(Error::InvalidScalar));
    assert_eq!(r.read_u8(), Ok(9));
}

#[test]
fn reader_borrows_bytes_from_input() {
    let data = [5u8, 6, 7, 8];
    let mut r = SliceReader::new(&data);
    let run = r.read_bytes(3).unwrap();
    assert_eq!(run, &data[..3]);
    assert_eq!(r.read_u8(), Ok(8));
}

#[test]
fn signed_reads_follow_twos_complement() {
    let data = [0xff, 0x80, 0xff, 0xff, 0xff, 0x7f];
    let mut r = SliceReader::new(&data);
    assert_eq!(r.read_i8(), Ok(-1));
    assert_eq!(r.read_i8(), Ok(i8::MIN));
    assert_eq!(r.read_i32(), Ok(0x7fffffff));
}

#[test]
fn read_str_borrows_from_input() {
    let mut bytes = vec![5u8, 0, 0, 0, 0, 0, 0, 0];
    bytes.extend(b"hello");
    bytes.push(42);
    let mut r = shaft::SliceReader::new(&bytes);
    let text = shaft::read_str(&mut r).unwrap();
    assert_eq!(text, "hello");
    assert!(std::ptr::eq(text.as_bytes().as_ptr(), &bytes[8]));
    assert_eq!(r.read_u8(), Ok(42));
}

#[test]
fn read_char_validates_code_points() {
    let good = 0x1f4a3u32.to_le_bytes();
    let mut r = shaft::SliceReader::new(&good);
    assert_eq!(shaft::read_char(&mut r), Ok(char::from_u32(0x1f4a3).unwrap()));
    let bad = 0xdfffu32.to_le_bytes();
    let mut r = shaft::SliceReader::new(&bad);
    assert_eq!(shaft::read_char(&mut r), Err(Error::InvalidScalar));
}

#[test]
fn read_byte_run_borrows_from_input() {
    let bytes = [2u8, 0, 0, 0, 0, 0, 0, 0, 7, 9];
    let mut r = shaft::SliceReader::new(&bytes);
    let run = shaft::read_byte_run(&mut r).unwrap();
    assert_eq!(run, &[7, 9]);
    assert!(std::ptr::eq(run.as_ptr(), &bytes[8]));
}
