use packstream::{pack, unpack, Dehydrate, Hydrate, Structure, Value};

fn round_trip(value: Value) {
    let bytes = pack::<Dehydrate>(&value, None).unwrap();
    let (back, end) = unpack::<Hydrate>(&bytes, 0, None).unwrap();
    assert_eq!(back, value);
    assert_eq!(end, bytes.len());
}

fn text(s: &str) -> Value {
    Value::Str(s.to_string())
}

#[test]
fn scalars_round_trip() {
    round_trip(Value::Null);
    round_trip(Value::Bool(true));
    round_trip(Value::Bool(false));
    round_trip(Value::Int(0));
    round_trip(Value::Int(-1));
    round_trip(Value::Int(1234567890123));
    round_trip(Value::Float(0.0f64.to_bits()));
    round_trip(Value::Float((-0.0f64).to_bits()));
    round_trip(Value::Float(f64::NAN.to_bits()));
    round_trip(Value::Float(f64::INFINITY.to_bits()));
    round_trip(Value::Float(6.02214076e23f64.to_bits()));
}

#[test]
fn strings_round_trip() {
    round_trip(text(""));
    round_trip(text("abc"));
    round_trip(text("Gr\u{00FC}\u{00DF}e, \u{4E16}\u{754C} \u{1F600}"));
    round_trip(Value::Str("x".repeat(70000)));
}

#[test]
fn bytes_round_trip() {
    round_trip(Value::Bytes(vec![]));
    round_trip(Value::Bytes(vec![0, 255, 128, 0xC0, 0x80]));
    round_trip(Value::Bytes((0..70000).map(|i| (i % 251) as u8).collect()));
}

#[test]
fn nested_values_round_trip() {
    round_trip(Value::List(vec![]));
    round_trip(Value::Dict(vec![]));
    round_trip(Value::Structure(Structure { tag: 0, fields: vec![] }));
    round_trip(Value::List(vec![
        Value::Int(1),
        text("two"),
        Value::List(vec![Value::Float(3.0f64.to_bits()), Value::Null]),
        Value::Dict(vec![
            (text("k"), Value::Bytes(vec![1, 2])),
            (text(""), Value::Dict(vec![(text("inner"), Value::Bool(true))])),
        ]),
        Value::Structure(Structure {
            tag: 0x4E,
            fields: vec![Value::Int(7), Value::List(vec![text("Person")]), Value::Dict(vec![])],
        }),
    ]));
}

#[test]
fn dictionary_keeps_the_order_of_its_entries() {
    let dict = Value::Dict(vec![
        (text("z"), Value::Int(1)),
        (text("a"), Value::Int(2)),
        (text("m"), Value::Int(3)),
    ]);
    let bytes = pack::<Dehydrate>(&dict, None).unwrap();
    assert_eq!(bytes, vec![0xA3, 0x81, 0x7A, 0x01, 0x81, 0x61, 0x02, 0x81, 0x6D, 0x03]);
    round_trip(dict);
}

#[test]
fn a_repeated_key_keeps_its_place_and_takes_the_last_value() {
    let bytes = [0xA3, 0x81, 0x61, 0x01, 0x81, 0x62, 0x02, 0x81, 0x61, 0x03];
    let (value, end) = unpack::<Hydrate>(&bytes, 0, None).unwrap();
    assert_eq!(end, bytes.len());
    assert_eq!(
        value,
        Value::Dict(vec![(text("a"), Value::Int(3)), (text("b"), Value::Int(2))])
    );
}

#[test]
fn values_in_one_buffer_are_read_one_after_the_other() {
    let mut buffer = Vec::new();
    let values =
        vec![Value::Int(1000), text("abc"), Value::List(vec![Value::Null]), Value::Bool(true)];
    for value in &values {
        buffer.extend(pack::<Dehydrate>(value, None).unwrap());
    }
    let mut offset = 0;
    for value in &values {
        let (back, end) = unpack::<Hydrate>(&buffer, offset, None).unwrap();
        assert_eq!(&back, value);
        assert!(end > offset);
        offset = end;
    }
    assert_eq!(offset, buffer.len());
}

#[test]
fn decoding_stops_behind_the_value() {
    let (value, end) = unpack::<Hydrate>(&[0x01, 0x02, 0x03], 1, None).unwrap();
    assert_eq!(value, Value::Int(2));
    assert_eq!(end, 2);
}

#[test]
fn nesting_up_to_the_limit_round_trips() {
    let mut value = Value::Int(1);
    for _ in 0..128 {
        value = Value::List(vec![value]);
    }
    round_trip(value);
}

#[test]
fn decoded_text_is_a_copy() {
    let bytes = vec![0x83, 0x61, 0x62, 0x63];
    let (value, _) = unpack::<Hydrate>(&bytes, 0, None).unwrap();
    drop(bytes);
    assert_eq!(value, text("abc"));
}
