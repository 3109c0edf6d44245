use shaft::Value;

#[test]
fn serialize_bool_false() {
    let value = Value::Bool(false);
    let bytes = shaft::to_bytes(&value).unwrap();
    assert_eq!(bytes, [0]);
}

#[test]
fn serialize_bool_true() {
    let value = Value::Bool(true);
    let bytes = shaft::to_bytes(&value).unwrap();
    assert_eq!(bytes, [1]);
}

#[test]
fn serialize_i8_zero() {
    let value = Value::I8(0i8);
    let bytes = shaft::to_bytes(&value).unwrap();
    assert_eq!(bytes, [0]);
}

#[test]
fn serialize_i8_one() {
    let value = Value::I8(1i8);
    let bytes = shaft::to_bytes(&value).unwrap();
    assert_eq!(bytes, [1]);
}

#[test]
fn serialize_i8_neg() {
    let value = Value::I8(-1i8);
    let bytes = shaft::to_bytes(&value).unwrap();
    assert_eq!(bytes, [255]);
}

#[test]
fn serialize_i8_min() {
    let value = Value::I8(i8::MIN);
    let bytes = shaft::to_bytes(&value).unwrap();
    assert_eq!(bytes, [128]);
}

#[test]
fn serialize_i8_max() {
    let value = Value::I8(i8::MAX);
    let bytes = shaft::to_bytes(&value).unwrap();
    assert_eq!(bytes, [127]);
}

#[test]
fn serialize_i16_zero() {
    let value = Value::I16(0i16);
    let bytes = shaft::to_bytes(&value).unwrap();
    assert_eq!(bytes, [0, 0]);
}

#[test]
fn serialize_i16_one() {
    let value = Value::I16(1i16);
    let bytes = shaft::to_bytes(&value).unwrap();
    assert_eq!(bytes, [1, 0]);
}

#[test]
fn serialize_i16_neg() {
    let value = Value::I16(-1i16);
    let bytes = shaft::to_bytes(&value).unwrap();
    assert_eq!(bytes, [255, 255]);
}

#[test]
fn serialize_i16_min() {
    let value = Value::I16(i16::MIN);
    let bytes = shaft::to_bytes(&value).unwrap();
    assert_eq!(bytes, [0, 128]);
}

#[test]
fn serialize_i16_max() {
    let value = Value::I16(i16::MAX);
    let bytes = shaft::to_bytes(&value).unwrap();
    assert_eq!(bytes, [255, 127]);
}

#[test]
fn serialize_i32_zero() {
    let value = Value::I32(0i32);
    let bytes = shaft::to_bytes(&value).unwrap();
    assert_eq!(bytes, [0, 0, 0, 0]);
}

#[test]
fn serialize_i32_one() {
    let value = Value::I32(1i32);
    let bytes = shaft::to_bytes(&value).unwrap();
    assert_eq!(bytes, [1, 0, 0, 0]);
}

#[test]
fn serialize_i32_neg() {
    let value = Value::I32(-1i32);
    let bytes = shaft::to_bytes(&value).unwrap();
    assert_eq!(bytes, [255, 255, 255, 255]);
}

#[test]
fn serialize_i32_min() {
    let value = Value::I32(i32::MIN);
    let bytes = shaft::to_bytes(&value).unwrap();
    assert_eq!(bytes, [0, 0, 0, 128]);
}

#[test]
fn serialize_i32_max() {
    let value = Value::I32(i32::MAX);
    let bytes = shaft::to_bytes(&value).unwrap();
    assert_eq!(bytes, [255, 255, 255, 127]);
}

#[test]
fn serialize_i64_zero() {
    let value = Value::I64(0i64);
    let bytes = shaft::to_bytes(&value).unwrap();
    assert_eq!(bytes, [0, 0, 0, 0, 0, 0, 0, 0]);
}

#[test]
fn serialize_i64_one() {
    let value = Value::I64(1i64);
    let bytes = shaft::to_bytes(&value).unwrap();
    assert_eq!(bytes, [1, 0, 0, 0, 0, 0, 0, 0]);
}

#[test]
fn serialize_i64_neg() {
    let value = Value::I64(-1i64);
    let bytes = shaft::to_bytes(&value).unwrap();
    assert_eq!(bytes, [255, 255, 255, 255, 255, 255, 255, 255]);
}

#[test]
fn serialize_i64_min() {
    let value = Value::I64(i64::MIN);
    let bytes = shaft::to_bytes(&value).unwrap();
    assert_eq!(bytes, [0, 0, 0, 0, 0, 0, 0, 128]);
}

#[test]
fn serialize_i64_max() {
    let value = Value::I64(i64::MAX);
    let bytes = shaft::to_bytes(&value).unwrap();
    assert_eq!(bytes, [255, 255, 255, 255, 255, 255, 255, 127]);
}

#[test]
fn serialize_u8_zero() {
    let value = Value::U8(0u8);
    let bytes = shaft::to_bytes(&value).unwrap();
    assert_eq!(bytes, [0]);
}

#[test]
fn serialize_u8_one() {
    let value = Value::U8(1u8);
    let bytes = shaft::to_bytes(&value).unwrap();
    assert_eq!(bytes, [1]);
}

#[test]
fn serialize_u8_max() {
    let value = Value::U8(u8::MAX);
    let bytes = shaft::to_bytes(&value).unwrap();
    assert_eq!(bytes, [255]);
}

#[test]
fn serialize_u16_zero() {
    let value = Value::U16(0u16);
    let bytes = shaft::to_bytes(&value).unwrap();
    assert_eq!(bytes, [0, 0]);
}

#[test]
fn serialize_u16_one() {
    let value = Value::U16(1u16);
    let bytes = shaft::to_bytes(&value).unwrap();
    assert_eq!(bytes, [1, 0]);
}

#[test]
fn serialize_u16_max() {
    let value = Value::U16(u16::MAX);
    let bytes = shaft::to_bytes(&value).unwrap();
    assert_eq!(bytes, [255, 255]);
}

#[test]
fn serialize_u32_zero() {
    let value = Value::U32(0u32);
    let bytes = shaft::to_bytes(&value).unwrap();
    assert_eq!(bytes, [0, 0, 0, 0]);
}

#[test]
fn serialize_u32_one() {
    let value = Value::U32(1u32);
    let bytes = shaft::to_bytes(&value).unwrap();
    assert_eq!(bytes, [1, 0, 0, 0]);
}

#[test]
fn serialize_u32_max() {
    let value = Value::U32(u32::MAX);
    let bytes = shaft::to_bytes(&value).unwrap();
    assert_eq!(bytes, [255, 255, 255, 255]);
}

#[test]
fn serialize_u64_zero() {
    let value = Value::U64(0u64);
    let bytes = shaft::to_bytes(&value).unwrap();
    assert_eq!(bytes, [0, 0, 0, 0, 0, 0, 0, 0]);
}

#[test]
fn serialize_u64_one() {
    let value = Value::U64(1u64);
    let bytes = shaft::to_bytes(&value).unwrap();
    assert_eq!(bytes, [1, 0, 0, 0, 0, 0, 0, 0]);
}

#[test]
fn serialize_u64_max() {
    let value = Value::U64(u64::MAX);
    let bytes = shaft::to_bytes(&value).unwrap();
    assert_eq!(bytes, [255, 255, 255, 255, 255, 255, 255, 255]);
}

#[test]
fn serialize_f32_zero() {
    let value = Value::F32((0.0f32).to_bits());
    let bytes = shaft::to_bytes(&value).unwrap();
    assert_eq!(bytes, [0, 0, 0, 0]);
}

#[test]
fn serialize_f32_one() {
    let value = Value::F32((1.0f32).to_bits());
    let bytes = shaft::to_bytes(&value).unwrap();
    assert_eq!(bytes, [0, 0, 0x80, 0x3f]);
}

#[test]
fn serialize_f32_pi() {
    let value = Value::F32(std::f32::consts::PI.to_bits());
    let bytes = shaft::to_bytes(&value).unwrap();
    assert_eq!(bytes, [0xdb, 0x0f, 0x49, 0x40]);
}

#[test]
fn serialize_f32_inf() {
    let value = Value::F32(f32::INFINITY.to_bits());
    let bytes = shaft::to_bytes(&value).unwrap();
    assert_eq!(bytes, [0, 0, 0x80, 0x7f]);
}

#[test]
fn serialize_f32_neg() {
    let value = Value::F32((-f32::INFINITY).to_bits());
    let bytes = shaft::to_bytes(&value).unwrap();
    assert_eq!(bytes, [0, 0, 0x80, 0xff]);
}

#[test]
fn serialize_f32_nan() {
    let value = Value::F32(f32::NAN.to_bits());
    let bytes = shaft::to_bytes(&value).unwrap();
    assert_eq!(bytes, [0, 0, 0xc0, 0x7f]);
}

#[test]
fn serialize_f64_zero() {
    let value = Value::F64((0.0f64).to_bits());
    let bytes = shaft::to_bytes(&value).unwrap();
    assert_eq!(bytes, [0, 0, 0, 0, 0, 0, 0, 0]);
}

#[test]
fn serialize_f64_one() {
    let value = Value::F64((1.0f64).to_bits());
    let bytes = shaft::to_bytes(&value).unwrap();
    assert_eq!(bytes, [0, 0, 0, 0, 0, 0, 0xf0, 0x3f]);
}

#[test]
fn serialize_f64_pi() {
    let value = Value::F64(std::f64::consts::PI.to_bits());
    let bytes = shaft::to_bytes(&value).unwrap();
    assert_eq!(bytes, [0x18, 0x2d, 0x44, 0x54, 0x0fb, 0x21, 0x09, 0x40]);
}

#[test]
fn serialize_f64_inf() {
    let value = Value::F64(f64::INFINITY.to_bits());
    let bytes = shaft::to_bytes(&value).unwrap();
    assert_eq!(bytes, [0, 0, 0, 0, 0, 0, 0xf0, 0x7f]);
}

#[test]
fn serialize_f64_neg() {
    let value = Value::F64((-f64::INFINITY).to_bits());
    let bytes = shaft::to_bytes(&value).unwrap();
    assert_eq!(bytes, [0, 0, 0, 0, 0, 0, 0xf0, 0xff]);
}

#[test]
fn serialize_f64_nan() {
    let value = Value::F64(f64::NAN.to_bits());
    let bytes = shaft::to_bytes(&value).unwrap();
    assert_eq!(bytes, [0, 0, 0, 0, 0, 0, 0xf8, 0x7f]);
}

#[test]
fn serialize_char_one_byte() {
    let value = Value::Char('A');
    let bytes = shaft::to_bytes(&value).unwrap();
    assert_eq!(bytes, [0x41, 0, 0, 0]);
}

#[test]
fn serialize_char_two_bytes() {
    let value = Value::Char(char::from_u32(0xdf).unwrap());
    let bytes = shaft::to_bytes(&value).unwrap();
    assert_eq!(bytes, [0xdf, 0, 0, 0]);
}

#[test]
fn serialize_char_three_bytes() {
    let value = Value::Char(char::from_u32(0x1401).unwrap());
    let bytes = shaft::to_bytes(&value).unwrap();
    assert_eq!(bytes, [0x01, 0x14, 0, 0]);
}

#[test]
fn serialize_char_four_bytes() {
    let value = Value::Char(char::from_u32(0x1f4a3).unwrap());
    let bytes = shaft::to_bytes(&value).unwrap();
    assert_eq!(bytes, [0xa3, 0xf4, 0x01, 0]);
}

#[test]
fn serialize_string() {
    let text = "Hello world!";
    let value = Value::Text(text.to_owned());
    let bytes = shaft::to_bytes(&value).unwrap();
    let mut vec = vec![0u8; 8];
    vec[0] = text.len() as u8;
    vec.extend(b"Hello world!");
    assert_eq!(bytes, vec);
}

#[test]
fn serialize_bytes() {
    let payload = b"Hello world!".as_slice();
    let value = Value::Bytes(payload.to_vec());
    let bytes = shaft::to_bytes(&value).unwrap();
    let mut vec = vec![0u8; 8];
    vec[0] = payload.len() as u8;
    vec.extend(b"Hello world!");
    assert_eq!(bytes, vec);
}

#[test]
fn serialize_none() {
    let value = Value::Optional(None);
    let bytes = shaft::to_bytes(&value).unwrap();
    assert_eq!(bytes, [0]);
}

#[test]
fn serialize_some() {
    let value = Value::Optional(Some(Box::new(Value::U8(1))));
    let bytes = shaft::to_bytes(&value).unwrap();
    assert_eq!(bytes, [1, 1]);
}

#[test]
fn serialize_unit() {
    let value = Value::Unit;
    let bytes = shaft::to_bytes(&value).unwrap();
    assert_eq!(bytes, []);
}

#[test]
fn serialize_unit_struct() {
    // a unit struct carries no data and emits no bytes
    let value = Value::Unit;
    let bytes = shaft::to_bytes(&value).unwrap();
    assert_eq!(bytes, []);
}

#[test]
fn serialize_unit_variant() {
    // enum Enum { Variant } at index 0, no payload
    let value = Value::Variant(0, vec![]);
    let bytes = shaft::to_bytes(&value).unwrap();
    assert_eq!(bytes, [0, 0, 0, 0]);
}

#[test]
fn serialize_newtype_struct() {
    // struct NewType(u8): the single field, no header
    let value = Value::Product(vec![Value::U8(1)]);
    let bytes = shaft::to_bytes(&value).unwrap();
    assert_eq!(bytes, [1]);
}

#[test]
fn serialize_newtype_variant() {
    // enum Enum { Variant(u8) } at index 0 carrying 1
    let value = Value::Variant(0, vec![Value::U8(1)]);
    let bytes = shaft::to_bytes(&value).unwrap();
    assert_eq!(bytes, [0, 0, 0, 0, 1]);
}

#[test]
fn serialize_seq() {
    let value = Value::Sequence(vec![Value::U8(1), Value::U8(2), Value::U8(3)]);
    let bytes = shaft::to_bytes(&value).unwrap();
    assert_eq!(bytes, [3, 0, 0, 0, 0, 0, 0, 0, 1, 2, 3]);
}

#[test]
fn serialize_tuple() {
    let value = Value::Product(vec![Value::U8(1), Value::U8(2), Value::U8(3)]);
    let bytes = shaft::to_bytes(&value).unwrap();
    assert_eq!(bytes, [1, 2, 3]);
}

#[test]
fn serialize_tuple_struct() {
    // struct Struct(u8, u8, u8): fields in declaration order, no header
    let value = Value::Product(vec![Value::U8(1), Value::U8(2), Value::U8(3)]);
    let bytes = shaft::to_bytes(&value).unwrap();
    assert_eq!(bytes, [1, 2, 3]);
}

#[test]
fn serialize_tuple_variant() {
    // enum Enum { Variant(u8, u8, u8) } at index 0
    let value = Value::Variant(0, vec![Value::U8(1), Value::U8(2), Value::U8(3)]);
    let bytes = shaft::to_bytes(&value).unwrap();
    assert_eq!(bytes, [0, 0, 0, 0, 1, 2, 3]);
}

#[test]
fn serialize_map() {
    let value = Value::Mapping(vec![(Value::U8(1), Value::U8(2))]);
    let bytes = shaft::to_bytes(&value).unwrap();
    assert_eq!(bytes, [1, 0, 0, 0, 0, 0, 0, 0, 1, 2]);
}

#[test]
fn serialize_struct() {
    // struct Struct { a: u8, b: u8, c: u8 }: fields in declaration order
    let value = Value::Product(vec![Value::U8(1), Value::U8(2), Value::U8(3)]);
    let bytes = shaft::to_bytes(&value).unwrap();
    assert_eq!(bytes, [1, 2, 3]);
}

#[test]
fn serialize_struct_variant() {
    // enum Enum { Variant { a: u8, b: u8, c: u8 } } at index 0
    let value = Value::Variant(0, vec![Value::U8(1), Value::U8(2), Value::U8(3)]);
    let bytes = shaft::to_bytes(&value).unwrap();
    assert_eq!(bytes, [0, 0, 0, 0, 1, 2, 3]);
}

#[test]
fn serialize_to_writer_appends() {
    let mut writer = shaft::VecWriter::new();
    shaft::to_writer(&mut writer, &Value::U8(7)).unwrap();
    shaft::to_writer(&mut writer, &Value::U16(1)).unwrap();
    assert_eq!(writer.into_vec(), vec![7, 1, 0]);
}
