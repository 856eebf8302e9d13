use packstream::{
    hydrated, pack, unpack, Dehydrate, DehydrationHooks, Foreign, HookError, Hydrate,
    HydrationHooks, Kind, Limit, PackError, PackStreamEncoder, Structure, UnpackError, Value,
};
use std::cell::Cell;
use std::cell::RefCell;

const POINT: u64 = 1;
const SEGMENT: u64 = 2;

#[derive(Debug, Clone, PartialEq)]
struct Point {
    x: i64,
    y: i64,
}

fn failure(message: &str) -> HookError {
    HookError { message: message.to_string() }
}

#[test]
fn an_application_object_round_trips_through_its_hooks() {
    let points = vec![Point { x: 1, y: 2 }, Point { x: -300, y: 70000 }];
    let mut dehydration = DehydrationHooks::new();
    dehydration.register(POINT, |object: Foreign| -> Result<Value, HookError> {
        let point = &points[object.handle as usize];
        Ok(Value::Structure(Structure {
            tag: 0x58,
            fields: vec![Value::Int(point.x), Value::Int(point.y)],
        }))
    });
    let restored: RefCell<Vec<Point>> = RefCell::new(Vec::new());
    let mut hydration = HydrationHooks::new();
    hydration.register(0x58, |structure: Structure| -> Result<Value, HookError> {
        match (&structure.fields[0], &structure.fields[1]) {
            (Value::Int(x), Value::Int(y)) => {
                restored.borrow_mut().push(Point { x: *x, y: *y });
                Ok(Value::Foreign(Foreign {
                    kind: POINT,
                    handle: (restored.borrow().len() - 1) as u64,
                }))
            }
            _ => Err(failure("not a point")),
        }
    });
    for handle in 0..points.len() {
        let object = Value::Foreign(Foreign { kind: POINT, handle: handle as u64 });
        let bytes = pack(&object, Some(&dehydration)).unwrap();
        let (value, end) = unpack(&bytes, 0, Some(&hydration)).unwrap();
        assert_eq!(end, bytes.len());
        match value {
            Value::Foreign(Foreign { kind: POINT, handle: at }) => {
                assert_eq!(restored.borrow()[at as usize], points[handle]);
            }
            other => panic!("not a point: {other:?}"),
        }
    }
}

#[test]
fn a_dehydrated_object_is_encoded_as_its_replacement() {
    let mut hooks = DehydrationHooks::new();
    hooks.register(POINT, |object: Foreign| -> Result<Value, HookError> {
        Ok(Value::Structure(Structure { tag: 0x58, fields: vec![Value::Int(object.handle as i64)] }))
    });
    let value = Value::List(vec![
        Value::Int(1),
        Value::Foreign(Foreign { kind: POINT, handle: 5 }),
        Value::Str("z".to_string()),
    ]);
    assert_eq!(
        pack(&value, Some(&hooks)),
        Ok(vec![0x93, 0x01, 0xB1, 0x58, 0x05, 0x81, 0x7A])
    );
}

#[test]
fn a_kind_without_a_hook_is_unsupported_even_with_a_table() {
    let mut hooks = DehydrationHooks::new();
    hooks.register(POINT, |_object: Foreign| -> Result<Value, HookError> { Ok(Value::Null) });
    assert_eq!(
        pack(&Value::Foreign(Foreign { kind: SEGMENT, handle: 0 }), Some(&hooks)),
        Err(PackError::Unsupported(Kind::Foreign(SEGMENT)))
    );
    assert_eq!(pack(&Value::Foreign(Foreign { kind: POINT, handle: 0 }), Some(&hooks)), Ok(vec![0xC0]));
}

#[test]
fn an_empty_table_changes_nothing() {
    let hooks: DehydrationHooks<Dehydrate> = DehydrationHooks::new();
    assert_eq!(pack(&Value::Int(1000), Some(&hooks)), Ok(vec![0xC9, 0x03, 0xE8]));
    assert_eq!(
        pack(&Value::Foreign(Foreign { kind: POINT, handle: 0 }), Some(&hooks)),
        Err(PackError::Unsupported(Kind::Foreign(POINT)))
    );
    let hooks: HydrationHooks<Hydrate> = HydrationHooks::new();
    assert_eq!(
        unpack(&[0xB1, 0x58, 0x01], 0, Some(&hooks)),
        Ok((Value::Structure(Structure { tag: 0x58, fields: vec![Value::Int(1)] }), 3))
    );
}

#[test]
fn the_error_of_a_dehydration_hook_comes_back_unchanged() {
    let mut hooks = DehydrationHooks::new();
    hooks.register(POINT, |object: Foreign| -> Result<Value, HookError> {
        Err(failure(&format!("no point {}", object.handle)))
    });
    assert_eq!(
        pack(&Value::List(vec![Value::Foreign(Foreign { kind: POINT, handle: 3 })]), Some(&hooks)),
        Err(PackError::Hook(failure("no point 3")))
    );
}

#[test]
fn the_error_of_a_hydration_hook_comes_back_unchanged() {
    let mut hooks = HydrationHooks::new();
    hooks.register(0x58, |structure: Structure| -> Result<Value, HookError> {
        Err(failure(&format!("{} fields", structure.fields.len())))
    });
    assert_eq!(
        unpack(&[0x91, 0xB2, 0x58, 0x01, 0x02], 0, Some(&hooks)),
        Err(UnpackError::Hook(failure("2 fields")))
    );
}

#[test]
fn a_hook_that_failed_hides_what_comes_behind_it() {
    let mut hooks = HydrationHooks::new();
    hooks.register(0x58, |_structure: Structure| -> Result<Value, HookError> {
        Err(failure("failed"))
    });
    // the list ends too early, but the hook fails before the decoder gets there
    assert_eq!(
        unpack(&[0x92, 0xB0, 0x58], 0, Some(&hooks)),
        Err(UnpackError::Hook(failure("failed")))
    );
    // without hooks the input is plainly truncated
    assert_eq!(
        unpack::<Hydrate>(&[0x92, 0xB0, 0x58], 0, None),
        Err(UnpackError::Truncated { offset: 3 })
    );
}

#[test]
fn the_hook_registered_last_for_a_key_is_the_one() {
    let first = |_object: Foreign| -> Result<Value, HookError> { Ok(Value::Int(1)) };
    let second = |_object: Foreign| -> Result<Value, HookError> { Ok(Value::Int(2)) };
    let mut hooks: DehydrationHooks<Dehydrate> = DehydrationHooks::new();
    hooks.register(POINT, first);
    hooks.register(SEGMENT, first);
    hooks.register(POINT, second);
    assert_eq!(pack(&Value::Foreign(Foreign { kind: POINT, handle: 0 }), Some(&hooks)), Ok(vec![0x02]));
    assert_eq!(
        pack(&Value::Foreign(Foreign { kind: SEGMENT, handle: 0 }), Some(&hooks)),
        Ok(vec![0x01])
    );
    assert!(hooks.get_transformer(3).is_none());

    let first = |_structure: Structure| -> Result<Value, HookError> { Ok(Value::Int(1)) };
    let second = |_structure: Structure| -> Result<Value, HookError> { Ok(Value::Int(2)) };
    let mut hooks: HydrationHooks<Hydrate> = HydrationHooks::new();
    hooks.register(0x58, first);
    hooks.register(0x59, first);
    hooks.register(0x58, second);
    assert_eq!(unpack(&[0xB0, 0x58], 0, Some(&hooks)), Ok((Value::Int(2), 2)));
    assert_eq!(unpack(&[0xB0, 0x59], 0, Some(&hooks)), Ok((Value::Int(1), 2)));
    assert!(hooks.get_transformer(0x5A).is_none());
}

#[test]
fn hydration_goes_by_the_tag() {
    let mut hooks = HydrationHooks::new();
    hooks.register(0x58, |structure: Structure| -> Result<Value, HookError> {
        Ok(Value::Int(structure.fields.len() as i64))
    });
    let (value, end) = unpack(&[0x93, 0xB1, 0x58, 0xC0, 0xB1, 0x59, 0xC0, 0xB0, 0x58], 0, Some(&hooks))
        .unwrap();
    assert_eq!(end, 9);
    assert_eq!(
        value,
        Value::List(vec![
            Value::Int(1),
            Value::Structure(Structure { tag: 0x59, fields: vec![Value::Null] }),
            Value::Int(0),
        ])
    );
}

#[test]
fn each_structure_is_hydrated_once_and_the_inner_ones_first() {
    let calls = Cell::new(0);
    let mut hooks = HydrationHooks::new();
    hooks.register(0x58, |structure: Structure| -> Result<Value, HookError> {
        calls.set(calls.get() + 1);
        // what the hook gives is itself a structure with a hooked tag
        Ok(Value::Structure(Structure { tag: 0x58, fields: vec![Value::List(structure.fields)] }))
    });
    // an outer structure that holds an inner one
    let (value, _) = unpack(&[0xB1, 0x58, 0xB1, 0x58, 0x07], 0, Some(&hooks)).unwrap();
    assert_eq!(calls.get(), 2);
    let inner = Value::Structure(Structure {
        tag: 0x58,
        fields: vec![Value::List(vec![Value::Int(7)])],
    });
    assert_eq!(
        value,
        Value::Structure(Structure { tag: 0x58, fields: vec![Value::List(vec![inner])] })
    );
}

#[test]
fn wide_structures_are_hydrated_too() {
    let mut hooks = HydrationHooks::new();
    hooks.register(0x58, |structure: Structure| -> Result<Value, HookError> {
        Ok(Value::Int(structure.fields.len() as i64))
    });
    let mut bytes = vec![0xDC, 20, 0x58];
    bytes.extend(std::iter::repeat(0xC0).take(20));
    assert_eq!(unpack(&bytes, 0, Some(&hooks)), Ok((Value::Int(20), 23)));
}

#[test]
fn a_replacement_is_dehydrated_in_its_turn() {
    let mut hooks: DehydrationHooks<Dehydrate> = DehydrationHooks::new();
    hooks.register(SEGMENT, |object: Foreign| -> Result<Value, HookError> {
        Ok(Value::Structure(Structure {
            tag: 0x53,
            fields: vec![
                Value::Foreign(Foreign { kind: POINT, handle: object.handle }),
                Value::Foreign(Foreign { kind: POINT, handle: object.handle + 1 }),
            ],
        }))
    });
    hooks.register(POINT, |object: Foreign| -> Result<Value, HookError> {
        Ok(Value::Int(object.handle as i64))
    });
    assert_eq!(
        pack(&Value::Foreign(Foreign { kind: SEGMENT, handle: 4 }), Some(&hooks)),
        Ok(vec![0xB2, 0x53, 0x04, 0x05])
    );
}

#[test]
fn a_hook_that_never_settles_runs_into_the_depth_limit() {
    let mut hooks = DehydrationHooks::new();
    hooks.register(POINT, |object: Foreign| -> Result<Value, HookError> {
        Ok(Value::Foreign(object))
    });
    assert_eq!(
        pack(&Value::Foreign(Foreign { kind: POINT, handle: 0 }), Some(&hooks)),
        Err(PackError::SizeOverflow(Limit::Depth))
    );
}

#[test]
fn a_key_is_not_dehydrated() {
    let mut hooks = DehydrationHooks::new();
    hooks.register(POINT, |_object: Foreign| -> Result<Value, HookError> {
        Ok(Value::Str("key".to_string()))
    });
    let dict =
        Value::Dict(vec![(Value::Foreign(Foreign { kind: POINT, handle: 0 }), Value::Int(1))]);
    assert_eq!(pack(&dict, Some(&hooks)), Err(PackError::InvalidMapKey(Kind::Foreign(POINT))));
}

#[test]
fn what_a_hydration_hook_made_is_what_is_used() {
    assert_eq!(hydrated(Ok(Value::Int(1))), Ok(Value::Int(1)));
    assert_eq!(hydrated(Err(failure("h"))), Err(UnpackError::Hook(failure("h"))));
}

#[test]
fn what_a_dehydration_hook_made_is_what_is_written() {
    let mut encoder = PackStreamEncoder::<Dehydrate>::new(None);
    assert_eq!(encoder.write_dehydrated(Ok(Value::Int(1000)), 3), Ok(()));
    assert_eq!(encoder.buffer, vec![0xC9, 0x03, 0xE8]);
    assert_eq!(
        encoder.write_dehydrated(Err(failure("d")), 3),
        Err(PackError::Hook(failure("d")))
    );
    assert_eq!(encoder.buffer, vec![0xC9, 0x03, 0xE8]);
    // what the hook gave is written with the levels that are left
    let list = Value::List(vec![Value::Null]);
    assert_eq!(encoder.write_dehydrated(Ok(list.clone()), 1), Ok(()));
    assert_eq!(
        encoder.write_dehydrated(Ok(list), 0),
        Err(PackError::SizeOverflow(Limit::Depth))
    );
    assert_eq!(encoder.buffer, vec![0xC9, 0x03, 0xE8, 0x91, 0xC0, 0x91]);
}

#[test]
fn a_bad_key_before_a_hooked_object_is_reported_and_no_hook_is_asked() {
    let calls = Cell::new(0);
    let mut hooks = DehydrationHooks::new();
    hooks.register(POINT, |_object: Foreign| -> Result<Value, HookError> {
        calls.set(calls.get() + 1);
        Ok(Value::Null)
    });
    let dict = Value::Dict(vec![
        (Value::Int(1), Value::Null),
        (Value::Str("p".to_string()), Value::Foreign(Foreign { kind: POINT, handle: 0 })),
    ]);
    assert_eq!(pack(&dict, Some(&hooks)), Err(PackError::InvalidMapKey(Kind::Int)));
    assert_eq!(calls.get(), 0);
    // behind the hooked object the bad key is reported as well, after the hook was asked
    let dict = Value::Dict(vec![
        (Value::Str("p".to_string()), Value::Foreign(Foreign { kind: POINT, handle: 0 })),
        (Value::Int(1), Value::Null),
    ]);
    assert_eq!(pack(&dict, Some(&hooks)), Err(PackError::InvalidMapKey(Kind::Int)));
    assert_eq!(calls.get(), 1);
}

#[test]
fn a_hook_is_asked_once_for_each_object_and_in_order() {
    let asked: RefCell<Vec<u64>> = RefCell::new(Vec::new());
    let mut hooks = DehydrationHooks::new();
    hooks.register(POINT, |object: Foreign| -> Result<Value, HookError> {
        asked.borrow_mut().push(object.handle);
        Ok(Value::Int(object.handle as i64))
    });
    let value = Value::List(vec![
        Value::Foreign(Foreign { kind: POINT, handle: 3 }),
        Value::Int(9),
        Value::Structure(Structure {
            tag: 1,
            fields: vec![Value::Foreign(Foreign { kind: POINT, handle: 4 })],
        }),
    ]);
    assert_eq!(pack(&value, Some(&hooks)), Ok(vec![0x93, 0x03, 0x09, 0xB1, 0x01, 0x04]));
    assert_eq!(*asked.borrow(), vec![3, 4]);
}

#[test]
fn a_hooked_object_is_never_unsupported() {
    let mut hooks = DehydrationHooks::new();
    hooks.register(POINT, |object: Foreign| -> Result<Value, HookError> {
        // what the hook gives is an object of a kind without a hook
        Ok(Value::Foreign(Foreign { kind: SEGMENT, handle: object.handle }))
    });
    assert_eq!(
        pack(&Value::Foreign(Foreign { kind: POINT, handle: 0 }), Some(&hooks)),
        Err(PackError::Unsupported(Kind::Foreign(SEGMENT)))
    );
}

#[test]
fn the_value_of_a_repeated_key_is_hydrated_before_it_is_replaced() {
    let calls = Cell::new(0);
    let mut hooks = HydrationHooks::new();
    hooks.register(0x58, |_structure: Structure| -> Result<Value, HookError> {
        calls.set(calls.get() + 1);
        Ok(Value::Int(9))
    });
    let bytes = [0xA2, 0x81, 0x61, 0xB0, 0x58, 0x81, 0x61, 0x01];
    assert_eq!(
        unpack(&bytes, 0, Some(&hooks)),
        Ok((Value::Dict(vec![(Value::Str("a".to_string()), Value::Int(1))]), 8))
    );
    assert_eq!(calls.get(), 1);
}

#[test]
fn a_hydration_hook_that_failed_leaves_the_cursor_where_it_was() {
    let mut hooks = HydrationHooks::new();
    hooks.register(0x58, |_structure: Structure| -> Result<Value, HookError> {
        Err(failure("failed"))
    });
    let bytes = [0x01, 0x91, 0xB1, 0x58, 0x02];
    let mut decoder = packstream::PackStreamDecoder::new(&bytes, 0, Some(&hooks));
    assert_eq!(decoder.read(), Ok(Value::Int(1)));
    assert_eq!(decoder.read(), Err(UnpackError::Hook(failure("failed"))));
    assert_eq!(decoder.index, 1);
}
