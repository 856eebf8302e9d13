use packstream::{pack, unpack, Dehydrate, Hydrate, Structure, Value};

fn encode(value: &Value) -> Vec<u8> {
    pack::<Dehydrate>(value, None).unwrap()
}

#[test]
fn null_is_one_byte() {
    assert_eq!(encode(&Value::Null), vec![0xC0]);
    let (value, end) = unpack::<Hydrate>(&[0xC0], 0, None).unwrap();
    assert!(matches!(value, Value::Null));
    assert_eq!(end, 1);
}

#[test]
fn thousand_is_a_16_bit_integer() {
    assert_eq!(encode(&Value::Int(1000)), vec![0xC9, 0x03, 0xE8]);
}

#[test]
fn short_string_is_tiny() {
    assert_eq!(encode(&Value::Str("abc".to_string())), vec![0x83, 0x61, 0x62, 0x63]);
}

#[test]
fn short_list_is_tiny() {
    let list = Value::List(vec![Value::Int(1), Value::Int(2), Value::Int(3)]);
    assert_eq!(encode(&list), vec![0x93, 0x01, 0x02, 0x03]);
}

#[test]
fn one_entry_dictionary() {
    let dict = Value::Dict(vec![(Value::Str("a".to_string()), Value::Int(1))]);
    assert_eq!(encode(&dict), vec![0xA1, 0x81, 0x61, 0x01]);
}

#[test]
fn structure_with_one_field() {
    let structure = Value::Structure(Structure { tag: 0x4E, fields: vec![Value::Str("x".to_string())] });
    assert_eq!(encode(&structure), vec![0xB1, 0x4E, 0x81, 0x78]);
}
