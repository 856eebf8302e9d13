use packstream::{CompareOp, Foreign, InvalidTag, Kind, Structure, Value};

fn text(s: &str) -> Value {
    Value::Str(s.to_string())
}

#[test]
fn a_tag_is_one_byte() {
    let structure = Structure::new(&[0x4E], vec![Value::Int(1)]).unwrap();
    assert_eq!(structure.read_tag(), 0x4E);
    assert_eq!(structure.read_fields(), &vec![Value::Int(1)]);
    assert_eq!(structure.tag, 0x4E);
    assert_eq!(Structure::new(&[], vec![]), Err(InvalidTag { len: 0 }));
    assert_eq!(Structure::new(&[0x4E, 0x4F], vec![Value::Null]), Err(InvalidTag { len: 2 }));
}

#[test]
fn structures_are_equal_by_tag_and_fields_in_order() {
    let a = Structure { tag: 1, fields: vec![Value::Int(1), text("x")] };
    let b = Structure { tag: 1, fields: vec![Value::Int(1), text("x")] };
    let other_tag = Structure { tag: 2, fields: vec![Value::Int(1), text("x")] };
    let other_order = Structure { tag: 1, fields: vec![text("x"), Value::Int(1)] };
    let shorter = Structure { tag: 1, fields: vec![Value::Int(1)] };
    assert!(a == b);
    assert!(a != other_tag);
    assert!(a != other_order);
    assert!(a != shorter);
    assert!(shorter != a);
}

#[test]
fn equality_looks_into_nested_fields() {
    let nested = |i: i64| Structure {
        tag: 1,
        fields: vec![Value::List(vec![Value::Dict(vec![(text("k"), Value::Int(i))])])],
    };
    assert!(nested(1) == nested(1));
    assert!(nested(1) != nested(2));
}

#[test]
fn structures_can_be_asked_for_equality_only() {
    let a = Structure { tag: 1, fields: vec![Value::Int(1)] };
    let b = Structure { tag: 1, fields: vec![Value::Int(2)] };
    assert_eq!(a.rich_compare(&a, CompareOp::Eq), Some(true));
    assert_eq!(a.rich_compare(&b, CompareOp::Eq), Some(false));
    assert_eq!(a.rich_compare(&a, CompareOp::Ne), Some(false));
    assert_eq!(a.rich_compare(&b, CompareOp::Ne), Some(true));
    assert_eq!(a.rich_compare(&b, CompareOp::Lt), None);
    assert_eq!(a.rich_compare(&b, CompareOp::Le), None);
    assert_eq!(a.rich_compare(&b, CompareOp::Gt), None);
    assert_eq!(a.rich_compare(&b, CompareOp::Ge), None);
}

#[test]
fn the_hash_combines_the_tag_with_the_fields() {
    assert_eq!(Structure { tag: 1, fields: vec![] }.hash(), 1);
    assert_eq!(Structure { tag: 0x4E, fields: vec![] }.hash(), 78);
    // the hash of the integer 1 is 2 * 31 + 1
    assert_eq!(Value::Int(1).hash(), 63);
    assert_eq!(Structure { tag: 0x4E, fields: vec![Value::Int(1)] }.hash(), 63 + 78);
    // two fields: (63 * 31 + (2 * 31 + 2)) + 78
    assert_eq!(
        Structure { tag: 0x4E, fields: vec![Value::Int(1), Value::Int(2)] }.hash(),
        63 * 31 + 64 + 78
    );
}

#[test]
fn the_hash_of_each_kind() {
    assert_eq!(Value::Null.hash(), 0);
    assert_eq!(Value::Bool(false).hash(), 31);
    assert_eq!(Value::Bool(true).hash(), 32);
    assert_eq!(Value::Int(0).hash(), 62);
    assert_eq!(Value::Int(-1).hash(), 61);
    assert_eq!(Value::Float(5).hash(), 3 * 31 + 5);
    assert_eq!(text("").hash(), 4);
    assert_eq!(text("a").hash(), 4 * 31 + 97);
    assert_eq!(text("ab").hash(), (4 * 31 + 97) * 31 + 98);
    assert_eq!(Value::Bytes(vec![]).hash(), 5);
    assert_eq!(Value::Bytes(vec![97]).hash(), 5 * 31 + 97);
    assert_eq!(Value::List(vec![]).hash(), 6);
    assert_eq!(Value::List(vec![Value::Null]).hash(), 6 * 31);
    assert_eq!(Value::Dict(vec![]).hash(), 7);
    assert_eq!(Value::Dict(vec![(text(""), Value::Null)]).hash(), (7 * 31 + 4) * 31);
    assert_eq!(Value::Foreign(Foreign { kind: 2, handle: 3 }).hash(), (9 * 31 + 2) * 31 + 3);
    assert_eq!(
        Value::Structure(Structure { tag: 7, fields: vec![] }).hash(),
        Structure { tag: 7, fields: vec![] }.hash()
    );
}

#[test]
fn the_hash_wraps_around() {
    let long = Value::Bytes(vec![0xFF; 64]);
    let mut expected: u64 = 5;
    for _ in 0..64 {
        expected = expected.wrapping_mul(31).wrapping_add(0xFF);
    }
    assert_eq!(long.hash(), expected);
    assert_eq!(Value::Int(i64::MIN).hash(), 62 + (1u64 << 63));
}

#[test]
fn equal_structures_have_equal_hashes() {
    let make = || Structure {
        tag: 9,
        fields: vec![text("name"), Value::List(vec![Value::Int(1), Value::Float(7)])],
    };
    assert!(make() == make());
    assert_eq!(make().hash(), make().hash());
}

#[test]
fn the_hash_depends_on_the_order_of_the_fields() {
    let a = Structure { tag: 1, fields: vec![Value::Int(1), Value::Int(2)] };
    let b = Structure { tag: 1, fields: vec![Value::Int(2), Value::Int(1)] };
    assert_ne!(a.hash(), b.hash());
}

#[test]
fn values_are_equal_kind_by_kind() {
    assert!(Value::Null == Value::Null);
    assert!(Value::Int(1) == Value::Int(1));
    assert!(Value::Int(1) != Value::Int(2));
    assert!(Value::Int(1) != Value::Float(1));
    assert!(Value::Int(1) != Value::Bool(true));
    assert!(text("a") == text("a"));
    assert!(text("a") != text("b"));
    assert!(text("a") != Value::Bytes(vec![0x61]));
    assert!(Value::Bytes(vec![1, 2]) == Value::Bytes(vec![1, 2]));
    assert!(Value::Bytes(vec![1, 2]) != Value::Bytes(vec![1, 3]));
    assert!(Value::Bytes(vec![1, 2]) != Value::Bytes(vec![1]));
    assert!(Value::List(vec![]) != Value::Dict(vec![]));
    assert!(Value::Dict(vec![(text("a"), Value::Int(1))]) == Value::Dict(vec![(text("a"), Value::Int(1))]));
    assert!(Value::Dict(vec![(text("a"), Value::Int(1))]) != Value::Dict(vec![(text("a"), Value::Int(2))]));
    assert!(Value::Dict(vec![(text("a"), Value::Int(1))]) != Value::Dict(vec![(text("b"), Value::Int(1))]));
    assert!(
        Value::Foreign(Foreign { kind: 1, handle: 2 }) == Value::Foreign(Foreign { kind: 1, handle: 2 })
    );
    assert!(
        Value::Foreign(Foreign { kind: 1, handle: 2 }) != Value::Foreign(Foreign { kind: 1, handle: 3 })
    );
    assert!(Value::Int(1).same(&Value::Int(1)));
    assert!(!Value::Int(1).same(&Value::Null));
}

#[test]
fn floats_are_equal_bit_by_bit() {
    assert!(Value::Float(f64::NAN.to_bits()) == Value::Float(f64::NAN.to_bits()));
    assert!(Value::Float(0.0f64.to_bits()) != Value::Float((-0.0f64).to_bits()));
}

#[test]
fn a_clone_is_equal_to_the_value_it_was_made_from() {
    let value = Value::List(vec![
        Value::Null,
        Value::Bool(true),
        Value::Int(-5),
        Value::Float(1.25f64.to_bits()),
        text("text"),
        Value::Bytes(vec![1, 2, 3]),
        Value::Dict(vec![(text("k"), Value::List(vec![]))]),
        Value::Structure(Structure { tag: 3, fields: vec![Value::Int(1)] }),
        Value::Foreign(Foreign { kind: 1, handle: 2 }),
    ]);
    let copy = value.clone();
    assert_eq!(copy, value);
    let structure = Structure { tag: 3, fields: vec![value] };
    assert_eq!(structure.clone(), structure);
}

#[test]
fn every_value_has_its_kind() {
    assert_eq!(Value::Null.kind(), Kind::Null);
    assert_eq!(Value::Bool(true).kind(), Kind::Bool);
    assert_eq!(Value::Int(1).kind(), Kind::Int);
    assert_eq!(Value::Float(1).kind(), Kind::Float);
    assert_eq!(text("").kind(), Kind::Str);
    assert_eq!(Value::Bytes(vec![]).kind(), Kind::Bytes);
    assert_eq!(Value::List(vec![]).kind(), Kind::List);
    assert_eq!(Value::Dict(vec![]).kind(), Kind::Dict);
    assert_eq!(Value::Structure(Structure { tag: 0, fields: vec![] }).kind(), Kind::Structure);
    assert_eq!(Value::Foreign(Foreign { kind: 77, handle: 0 }).kind(), Kind::Foreign(77));
}
