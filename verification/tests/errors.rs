use packstream::{
    pack, unpack, Dehydrate, Foreign, Hydrate, Kind, Limit, PackError, Structure, UnpackError,
    Value,
};

fn text(s: &str) -> Value {
    Value::Str(s.to_string())
}

fn decode(bytes: &[u8]) -> Result<(Value, usize), UnpackError> {
    unpack::<Hydrate>(bytes, 0, None)
}

#[test]
fn empty_input_is_truncated() {
    assert_eq!(decode(&[]), Err(UnpackError::Truncated { offset: 0 }));
}

#[test]
fn offset_behind_the_input_is_truncated() {
    assert_eq!(
        unpack::<Hydrate>(&[0x01], 1, None),
        Err(UnpackError::Truncated { offset: 1 })
    );
    assert_eq!(
        unpack::<Hydrate>(&[0x01], 7, None),
        Err(UnpackError::Truncated { offset: 7 })
    );
}

#[test]
fn truncated_payloads() {
    assert_eq!(decode(&[0x83, 0x61, 0x62]), Err(UnpackError::Truncated { offset: 1 }));
    assert_eq!(decode(&[0xC9, 0x03]), Err(UnpackError::Truncated { offset: 1 }));
    assert_eq!(decode(&[0xC1, 0, 0, 0, 0, 0, 0, 0]), Err(UnpackError::Truncated { offset: 1 }));
    assert_eq!(decode(&[0xD1, 0x01]), Err(UnpackError::Truncated { offset: 1 }));
    assert_eq!(decode(&[0xCC, 0x02, 0x00]), Err(UnpackError::Truncated { offset: 2 }));
    assert_eq!(decode(&[0x92, 0x01]), Err(UnpackError::Truncated { offset: 2 }));
    assert_eq!(decode(&[0xA1, 0x81, 0x61]), Err(UnpackError::Truncated { offset: 3 }));
    assert_eq!(decode(&[0xA1]), Err(UnpackError::Truncated { offset: 1 }));
    assert_eq!(decode(&[0xB1]), Err(UnpackError::Truncated { offset: 1 }));
    assert_eq!(decode(&[0xB1, 0x4E]), Err(UnpackError::Truncated { offset: 2 }));
    assert_eq!(decode(&[0xDD, 0x00]), Err(UnpackError::Truncated { offset: 1 }));
}

#[test]
fn a_length_that_the_input_cannot_hold_is_truncated() {
    assert_eq!(
        decode(&[0xD2, 0xFF, 0xFF, 0xFF, 0xFF, 0x61]),
        Err(UnpackError::Truncated { offset: 5 })
    );
    assert_eq!(
        decode(&[0xD6, 0xFF, 0xFF, 0xFF, 0xFF, 0x01]),
        Err(UnpackError::Truncated { offset: 6 })
    );
}

#[test]
fn every_proper_prefix_of_an_encoding_is_truncated() {
    let value = Value::List(vec![
        Value::Int(100000),
        text("hello, world, hello, world"),
        Value::Dict(vec![(text("key"), Value::Float(2.5f64.to_bits()))]),
        Value::Structure(Structure { tag: 1, fields: vec![Value::Bytes(vec![1, 2, 3])] }),
    ]);
    let bytes = pack::<Dehydrate>(&value, None).unwrap();
    for cut in 0..bytes.len() {
        match decode(&bytes[..cut]) {
            Err(UnpackError::Truncated { .. }) => {}
            other => panic!("prefix of {cut} bytes gave {other:?}"),
        }
    }
    assert_eq!(decode(&bytes), Ok((value, bytes.len())));
}

#[test]
fn reserved_bytes_are_unknown_markers() {
    let reserved: Vec<u8> = (0xC4..=0xC7)
        .chain([0xCF, 0xD3, 0xD7, 0xDB])
        .chain(0xDE..=0xEF)
        .collect();
    assert_eq!(reserved.len(), 26);
    for marker in reserved {
        assert_eq!(decode(&[marker, 0, 0, 0, 0]), Err(UnpackError::UnknownMarker { marker }));
    }
}

#[test]
fn every_other_byte_is_a_marker() {
    let mut input = vec![0u8; 16];
    for marker in 0..=255u8 {
        input[0] = marker;
        match decode(&input) {
            Err(UnpackError::UnknownMarker { marker: reported }) => {
                assert_eq!(reported, marker);
                assert!(
                    (0xC4..=0xC7).contains(&marker)
                        || [0xCF, 0xD3, 0xD7, 0xDB].contains(&marker)
                        || (0xDE..=0xEF).contains(&marker)
                );
            }
            _ => {}
        }
    }
}

#[test]
fn unknown_marker_inside_a_list() {
    assert_eq!(decode(&[0x92, 0x01, 0xC4]), Err(UnpackError::UnknownMarker { marker: 0xC4 }));
}

#[test]
fn invalid_text_is_rejected() {
    assert_eq!(decode(&[0x82, 0xC3, 0x28]), Err(UnpackError::InvalidUtf8 { offset: 1 }));
    assert_eq!(decode(&[0x81, 0xFF]), Err(UnpackError::InvalidUtf8 { offset: 1 }));
    // a surrogate, and an overlong form
    assert_eq!(decode(&[0x83, 0xED, 0xA0, 0x80]), Err(UnpackError::InvalidUtf8 { offset: 1 }));
    assert_eq!(decode(&[0x82, 0xC0, 0x80]), Err(UnpackError::InvalidUtf8 { offset: 1 }));
    assert_eq!(
        decode(&[0xD0, 0x02, 0xC3, 0x28]),
        Err(UnpackError::InvalidUtf8 { offset: 2 })
    );
}

#[test]
fn invalid_text_in_a_key_is_rejected() {
    assert_eq!(decode(&[0xA1, 0x81, 0xFF, 0x01]), Err(UnpackError::InvalidUtf8 { offset: 2 }));
}

#[test]
fn a_key_must_be_a_string_when_decoding() {
    assert_eq!(decode(&[0xA1, 0x01, 0x01]), Err(UnpackError::InvalidMapKey { marker: 0x01 }));
    assert_eq!(decode(&[0xA1, 0xC0, 0x01]), Err(UnpackError::InvalidMapKey { marker: 0xC0 }));
    assert_eq!(decode(&[0xA1, 0x90, 0x01]), Err(UnpackError::InvalidMapKey { marker: 0x90 }));
    // the other markers of the 0xD0 row are no string markers
    assert_eq!(
        decode(&[0xA1, 0xD4, 0x01, 0x61, 0x01]),
        Err(UnpackError::InvalidMapKey { marker: 0xD4 })
    );
    assert_eq!(
        decode(&[0xA1, 0xD3, 0x01, 0x61, 0x01]),
        Err(UnpackError::InvalidMapKey { marker: 0xD3 })
    );
}

#[test]
fn keys_in_every_string_form_are_read() {
    let expected = Value::Dict(vec![(text("a"), Value::Int(1))]);
    assert_eq!(decode(&[0xA1, 0x81, 0x61, 0x01]), Ok((expected.clone(), 4)));
    assert_eq!(decode(&[0xA1, 0xD0, 0x01, 0x61, 0x01]), Ok((expected.clone(), 5)));
    assert_eq!(decode(&[0xA1, 0xD1, 0x00, 0x01, 0x61, 0x01]), Ok((expected.clone(), 6)));
    assert_eq!(decode(&[0xA1, 0xD2, 0x00, 0x00, 0x00, 0x01, 0x61, 0x01]), Ok((expected, 8)));
}

#[test]
fn a_key_must_be_a_string_when_encoding() {
    let encode = |key: Value| pack::<Dehydrate>(&Value::Dict(vec![(key, Value::Null)]), None);
    assert_eq!(encode(Value::Int(1)), Err(PackError::InvalidMapKey(Kind::Int)));
    assert_eq!(encode(Value::Null), Err(PackError::InvalidMapKey(Kind::Null)));
    assert_eq!(encode(Value::Bool(true)), Err(PackError::InvalidMapKey(Kind::Bool)));
    assert_eq!(encode(Value::Float(0)), Err(PackError::InvalidMapKey(Kind::Float)));
    assert_eq!(encode(Value::Bytes(vec![0x61])), Err(PackError::InvalidMapKey(Kind::Bytes)));
    assert_eq!(encode(Value::List(vec![])), Err(PackError::InvalidMapKey(Kind::List)));
    assert_eq!(encode(Value::Dict(vec![])), Err(PackError::InvalidMapKey(Kind::Dict)));
    assert_eq!(
        encode(Value::Structure(Structure { tag: 1, fields: vec![] })),
        Err(PackError::InvalidMapKey(Kind::Structure))
    );
    assert_eq!(
        encode(Value::Foreign(Foreign { kind: 9, handle: 0 })),
        Err(PackError::InvalidMapKey(Kind::Foreign(9)))
    );
}

#[test]
fn the_first_bad_key_is_reported() {
    let dict = Value::Dict(vec![
        (text("fine"), Value::Int(1)),
        (Value::Int(2), Value::Int(2)),
        (Value::Null, Value::Int(3)),
    ]);
    assert_eq!(pack::<Dehydrate>(&dict, None), Err(PackError::InvalidMapKey(Kind::Int)));
}

#[test]
fn an_application_object_without_a_hook_is_unsupported() {
    let object = Value::Foreign(Foreign { kind: 42, handle: 7 });
    assert_eq!(
        pack::<Dehydrate>(&object, None),
        Err(PackError::Unsupported(Kind::Foreign(42)))
    );
    assert_eq!(
        pack::<Dehydrate>(&Value::List(vec![Value::Int(1), object]), None),
        Err(PackError::Unsupported(Kind::Foreign(42)))
    );
}

fn nested(levels: usize) -> Value {
    let mut value = Value::Null;
    for _ in 0..levels {
        value = Value::List(vec![value]);
    }
    value
}

#[test]
fn nesting_beyond_the_limit_is_not_encoded() {
    assert!(pack::<Dehydrate>(&nested(128), None).is_ok());
    assert_eq!(
        pack::<Dehydrate>(&nested(129), None),
        Err(PackError::SizeOverflow(Limit::Depth))
    );
}

#[test]
fn nesting_beyond_the_limit_is_not_decoded() {
    let mut bytes = vec![0x91; 128];
    bytes.push(0xC0);
    assert_eq!(decode(&bytes), Ok((nested(128), 129)));
    let mut bytes = vec![0x91; 129];
    bytes.push(0xC0);
    assert_eq!(decode(&bytes), Err(UnpackError::SizeOverflow));
    let bytes = vec![0x91; 100_000];
    assert_eq!(decode(&bytes), Err(UnpackError::SizeOverflow));
}

#[test]
fn dictionaries_and_structures_count_as_levels() {
    let mut bytes = Vec::new();
    for _ in 0..64 {
        bytes.extend([0xA1, 0x81, 0x6B]);
        bytes.extend([0xB1, 0x01]);
    }
    bytes.push(0xC0);
    assert!(decode(&bytes).is_ok());
    let mut deeper = vec![0x91];
    deeper.extend(&bytes);
    assert_eq!(decode(&deeper), Err(UnpackError::SizeOverflow));
}
