use packstream::{
    pack, unpack, Dehydrate, Hydrate, Limit, PackError, PackStreamEncoder, Structure, Value,
};

fn encode(value: &Value) -> Vec<u8> {
    pack::<Dehydrate>(value, None).unwrap()
}

fn decode(bytes: &[u8]) -> (Value, usize) {
    unpack::<Hydrate>(bytes, 0, None).unwrap()
}

fn text(len: usize) -> Value {
    Value::Str("a".repeat(len))
}

fn list(len: usize) -> Value {
    Value::List(vec![Value::Null; len])
}

fn dict(len: usize) -> Value {
    Value::Dict((0..len).map(|i| (Value::Str(format!("{i}")), Value::Null)).collect())
}

#[test]
fn string_of_15_bytes_is_tiny() {
    let bytes = encode(&text(15));
    assert_eq!(bytes[0], 0x8F);
    assert_eq!(bytes.len(), 1 + 15);
}

#[test]
fn string_of_16_bytes_has_an_8_bit_length() {
    let bytes = encode(&text(16));
    assert_eq!(&bytes[..2], &[0xD0, 16]);
    assert_eq!(bytes.len(), 2 + 16);
}

#[test]
fn string_of_255_bytes_has_an_8_bit_length() {
    let bytes = encode(&text(255));
    assert_eq!(&bytes[..2], &[0xD0, 0xFF]);
    assert_eq!(bytes.len(), 2 + 255);
}

#[test]
fn string_of_256_bytes_has_a_16_bit_length() {
    let bytes = encode(&text(256));
    assert_eq!(&bytes[..3], &[0xD1, 0x01, 0x00]);
    assert_eq!(bytes.len(), 3 + 256);
}

#[test]
fn string_of_65535_bytes_has_a_16_bit_length() {
    let bytes = encode(&text(65535));
    assert_eq!(&bytes[..3], &[0xD1, 0xFF, 0xFF]);
    assert_eq!(bytes.len(), 3 + 65535);
}

#[test]
fn string_of_65536_bytes_has_a_32_bit_length() {
    let bytes = encode(&text(65536));
    assert_eq!(&bytes[..5], &[0xD2, 0x00, 0x01, 0x00, 0x00]);
    assert_eq!(bytes.len(), 5 + 65536);
}

#[test]
fn string_length_counts_bytes_not_characters() {
    // five characters of three bytes each
    let bytes = encode(&Value::Str("\u{20AC}".repeat(5)));
    assert_eq!(bytes[0], 0x8F);
    let bytes = encode(&Value::Str("\u{20AC}".repeat(6)));
    assert_eq!(&bytes[..2], &[0xD0, 18]);
}

#[test]
fn bytes_have_no_tiny_form() {
    assert_eq!(encode(&Value::Bytes(vec![])), vec![0xCC, 0x00]);
    assert_eq!(encode(&Value::Bytes(vec![1, 2, 3])), vec![0xCC, 0x03, 1, 2, 3]);
}

#[test]
fn bytes_at_the_size_class_boundaries() {
    assert_eq!(&encode(&Value::Bytes(vec![7; 255]))[..2], &[0xCC, 0xFF]);
    assert_eq!(&encode(&Value::Bytes(vec![7; 256]))[..3], &[0xCD, 0x01, 0x00]);
    assert_eq!(&encode(&Value::Bytes(vec![7; 65535]))[..3], &[0xCD, 0xFF, 0xFF]);
    assert_eq!(&encode(&Value::Bytes(vec![7; 65536]))[..5], &[0xCE, 0x00, 0x01, 0x00, 0x00]);
}

#[test]
fn lists_at_the_size_class_boundaries() {
    assert_eq!(encode(&list(0)), vec![0x90]);
    assert_eq!(encode(&list(15))[0], 0x9F);
    assert_eq!(&encode(&list(16))[..2], &[0xD4, 16]);
    assert_eq!(&encode(&list(255))[..2], &[0xD4, 0xFF]);
    assert_eq!(&encode(&list(256))[..3], &[0xD5, 0x01, 0x00]);
    assert_eq!(&encode(&list(65535))[..3], &[0xD5, 0xFF, 0xFF]);
    assert_eq!(&encode(&list(65536))[..5], &[0xD6, 0x00, 0x01, 0x00, 0x00]);
    assert_eq!(encode(&list(65536)).len(), 5 + 65536);
}

#[test]
fn dictionaries_at_the_size_class_boundaries() {
    assert_eq!(encode(&dict(0)), vec![0xA0]);
    assert_eq!(encode(&dict(15))[0], 0xAF);
    assert_eq!(&encode(&dict(16))[..2], &[0xD8, 16]);
    assert_eq!(&encode(&dict(255))[..2], &[0xD8, 0xFF]);
    assert_eq!(&encode(&dict(256))[..3], &[0xD9, 0x01, 0x00]);
    assert_eq!(&encode(&dict(65535))[..3], &[0xD9, 0xFF, 0xFF]);
    assert_eq!(&encode(&dict(65536))[..5], &[0xDA, 0x00, 0x01, 0x00, 0x00]);
}

#[test]
fn tiny_integers() {
    assert_eq!(encode(&Value::Int(0)), vec![0x00]);
    assert_eq!(encode(&Value::Int(1)), vec![0x01]);
    assert_eq!(encode(&Value::Int(127)), vec![0x7F]);
    assert_eq!(encode(&Value::Int(-1)), vec![0xFF]);
    assert_eq!(encode(&Value::Int(-16)), vec![0xF0]);
}

#[test]
fn integers_of_8_bits() {
    assert_eq!(encode(&Value::Int(-17)), vec![0xC8, 0xEF]);
    assert_eq!(encode(&Value::Int(-128)), vec![0xC8, 0x80]);
}

#[test]
fn integers_of_16_bits() {
    assert_eq!(encode(&Value::Int(128)), vec![0xC9, 0x00, 0x80]);
    assert_eq!(encode(&Value::Int(-129)), vec![0xC9, 0xFF, 0x7F]);
    assert_eq!(encode(&Value::Int(32767)), vec![0xC9, 0x7F, 0xFF]);
    assert_eq!(encode(&Value::Int(-32768)), vec![0xC9, 0x80, 0x00]);
}

#[test]
fn integers_of_32_bits() {
    assert_eq!(encode(&Value::Int(32768)), vec![0xCA, 0x00, 0x00, 0x80, 0x00]);
    assert_eq!(encode(&Value::Int(-32769)), vec![0xCA, 0xFF, 0xFF, 0x7F, 0xFF]);
    assert_eq!(encode(&Value::Int(2147483647)), vec![0xCA, 0x7F, 0xFF, 0xFF, 0xFF]);
    assert_eq!(encode(&Value::Int(-2147483648)), vec![0xCA, 0x80, 0x00, 0x00, 0x00]);
}

#[test]
fn integers_of_64_bits() {
    assert_eq!(
        encode(&Value::Int(2147483648)),
        vec![0xCB, 0x00, 0x00, 0x00, 0x00, 0x80, 0x00, 0x00, 0x00]
    );
    assert_eq!(
        encode(&Value::Int(-2147483649)),
        vec![0xCB, 0xFF, 0xFF, 0xFF, 0xFF, 0x7F, 0xFF, 0xFF, 0xFF]
    );
    assert_eq!(
        encode(&Value::Int(i64::MAX)),
        vec![0xCB, 0x7F, 0xFF, 0xFF, 0xFF, 0xFF, 0xFF, 0xFF, 0xFF]
    );
    assert_eq!(
        encode(&Value::Int(i64::MIN)),
        vec![0xCB, 0x80, 0x00, 0x00, 0x00, 0x00, 0x00, 0x00, 0x00]
    );
}

#[test]
fn integers_read_back_at_every_boundary() {
    for i in [
        0,
        1,
        -1,
        -16,
        -17,
        127,
        128,
        -128,
        -129,
        32767,
        32768,
        -32768,
        -32769,
        2147483647,
        2147483648,
        -2147483648,
        -2147483649,
        i64::MAX,
        i64::MIN,
    ] {
        let bytes = encode(&Value::Int(i));
        let (value, end) = decode(&bytes);
        assert_eq!(value, Value::Int(i));
        assert_eq!(end, bytes.len());
    }
}

#[test]
fn wider_integer_forms_are_read_too() {
    assert_eq!(decode(&[0xC8, 0x01]).0, Value::Int(1));
    assert_eq!(decode(&[0xC9, 0x00, 0x01]).0, Value::Int(1));
    assert_eq!(decode(&[0xCA, 0x00, 0x00, 0x00, 0x01]).0, Value::Int(1));
    assert_eq!(decode(&[0xCB, 0, 0, 0, 0, 0, 0, 0, 1]).0, Value::Int(1));
    assert_eq!(decode(&[0xCB, 0xFF, 0xFF, 0xFF, 0xFF, 0xFF, 0xFF, 0xFF, 0xFE]).0, Value::Int(-2));
}

#[test]
fn wider_string_forms_are_read_too() {
    assert_eq!(decode(&[0xD0, 0x01, 0x61]).0, Value::Str("a".to_string()));
    assert_eq!(decode(&[0xD1, 0x00, 0x01, 0x61]).0, Value::Str("a".to_string()));
    assert_eq!(decode(&[0xD2, 0x00, 0x00, 0x00, 0x01, 0x61]).0, Value::Str("a".to_string()));
}

#[test]
fn float_is_eight_bytes_big_endian() {
    assert_eq!(
        encode(&Value::Float(1.5f64.to_bits())),
        vec![0xC1, 0x3F, 0xF8, 0x00, 0x00, 0x00, 0x00, 0x00, 0x00]
    );
    let (value, end) = decode(&[0xC1, 0xC0, 0x09, 0x21, 0xFB, 0x54, 0x44, 0x2D, 0x18]);
    assert_eq!(end, 9);
    match value {
        Value::Float(bits) => assert_eq!(f64::from_bits(bits), -3.141592653589793),
        other => panic!("not a float: {other:?}"),
    }
}

#[test]
fn booleans() {
    assert_eq!(encode(&Value::Bool(true)), vec![0xC3]);
    assert_eq!(encode(&Value::Bool(false)), vec![0xC2]);
    assert_eq!(decode(&[0xC3]), (Value::Bool(true), 1));
    assert_eq!(decode(&[0xC2]), (Value::Bool(false), 1));
}

fn structure(fields: usize) -> Value {
    Value::Structure(Structure { tag: 0x41, fields: vec![Value::Int(1); fields] })
}

#[test]
fn structure_of_15_fields_is_encoded() {
    let bytes = encode(&structure(15));
    assert_eq!(&bytes[..2], &[0xBF, 0x41]);
    assert_eq!(bytes.len(), 2 + 15);
    assert_eq!(decode(&bytes), (structure(15), 17));
}

#[test]
fn structure_of_16_fields_overflows() {
    assert_eq!(
        pack::<Dehydrate>(&structure(16), None),
        Err(PackError::SizeOverflow(Limit::Structure))
    );
    assert_eq!(
        pack::<Dehydrate>(&structure(300), None),
        Err(PackError::SizeOverflow(Limit::Structure))
    );
}

#[test]
fn structure_with_an_8_bit_field_count_is_decoded() {
    let mut bytes = vec![0xDC, 16, 0x41];
    bytes.extend(std::iter::repeat(0x01).take(16));
    assert_eq!(decode(&bytes), (structure(16), 19));
}

#[test]
fn structure_with_a_16_bit_field_count_is_decoded() {
    let mut bytes = vec![0xDD, 0x01, 0x2C, 0x41];
    bytes.extend(std::iter::repeat(0x01).take(300));
    assert_eq!(decode(&bytes), (structure(300), 304));
}

#[test]
fn list_header_at_the_limit() {
    let mut encoder = PackStreamEncoder::<Dehydrate>::new(None);
    assert_eq!(encoder.write_list_header(2_147_483_647), Ok(()));
    assert_eq!(encoder.buffer, vec![0xD6, 0x7F, 0xFF, 0xFF, 0xFF]);
    assert_eq!(
        encoder.write_list_header(2_147_483_648),
        Err(PackError::SizeOverflow(Limit::List))
    );
    assert_eq!(encoder.buffer.len(), 5);
}

#[test]
fn dict_header_at_the_limit() {
    let mut encoder = PackStreamEncoder::<Dehydrate>::new(None);
    assert_eq!(encoder.write_dict_header(2_147_483_647), Ok(()));
    assert_eq!(encoder.buffer, vec![0xDA, 0x7F, 0xFF, 0xFF, 0xFF]);
    assert_eq!(
        encoder.write_dict_header(u64::MAX),
        Err(PackError::SizeOverflow(Limit::Dict))
    );
}

#[test]
fn struct_header_at_the_limit() {
    let mut encoder = PackStreamEncoder::<Dehydrate>::new(None);
    assert_eq!(encoder.write_struct_header(0x4E, 15), Ok(()));
    assert_eq!(encoder.buffer, vec![0xBF, 0x4E]);
    assert_eq!(
        encoder.write_struct_header(0x4E, 16),
        Err(PackError::SizeOverflow(Limit::Structure))
    );
    assert_eq!(encoder.buffer, vec![0xBF, 0x4E]);
}
