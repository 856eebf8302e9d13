//! What value bytes hold.
//!
//! [`decode_value`] is the definition of the format on the decoder's side:
//! the contract of [`unpack`](crate::v1::unpack::unpack) refers to it, and so
//! do the laws. [`hydration`] says what the hydration hooks can make of a
//! decoded value, [`agrees`] how a read with hooks relates to what the bytes
//! hold, and [`fails_value`] for which structure of the input a hook gave
//! the error with which a read failed.

use crate::hooks::{HookError, HydrationHooks};
use crate::v1::unpack::UnpackError;
use crate::v1::wire::{be_value, to_signed};
use crate::v1::{classify, width_of, Family, Marker, SizeClass};
use crate::value::{Record, Structure, Term, Value};
use vstd::prelude::*;
use vstd::utf8::{decode_utf8, valid_utf8};

verus! {

/// The byte at an offset.
pub open spec fn byte_at(bytes: Seq<u8>, pos: int) -> Result<u8, UnpackError> {
    if 0 <= pos < bytes.len() {
        Ok(bytes[pos])
    } else {
        Err(UnpackError::Truncated { offset: pos as usize })
    }
}

/// The `n` bytes from an offset on.
pub open spec fn chunk(bytes: Seq<u8>, pos: int, n: nat) -> Result<Seq<u8>, UnpackError> {
    if 0 <= pos && pos + n <= bytes.len() {
        Ok(bytes.subrange(pos, pos + n))
    } else {
        Err(UnpackError::Truncated { offset: pos as usize })
    }
}

/// The big-endian number in the `width` bytes from an offset on, and where
/// it ends.
pub open spec fn decode_uint(bytes: Seq<u8>, pos: int, width: nat) -> Result<
    (nat, int),
    UnpackError,
> {
    match chunk(bytes, pos, width) {
        Ok(digits) => Ok((be_value(digits), pos + width)),
        Err(e) => Err(e),
    }
}

/// The length that a marker announces, and where the payload starts: the
/// low nibble of the marker itself, or the number behind it.
pub open spec fn decode_size(bytes: Seq<u8>, pos: int, marker: u8, class: SizeClass) -> Result<
    (nat, int),
    UnpackError,
> {
    match class {
        SizeClass::Tiny => Ok(((marker % 16) as nat, pos)),
        _ => decode_uint(bytes, pos, width_of(class)),
    }
}

/// The text in the `n` bytes from an offset on, and where it ends.
pub open spec fn decode_text(bytes: Seq<u8>, pos: int, n: nat) -> Result<
    (Seq<char>, int),
    UnpackError,
> {
    match chunk(bytes, pos, n) {
        Err(e) => Err(e),
        Ok(payload) => if valid_utf8(payload) {
            Ok((decode_utf8(payload), pos + n))
        } else {
            Err(UnpackError::InvalidUtf8 { offset: pos as usize })
        },
    }
}

/// The length of the key of a dictionary entry, and where its text
/// starts. A key is a string, and nothing else.
pub open spec fn decode_key_size(bytes: Seq<u8>, pos: int) -> Result<(nat, int), UnpackError> {
    match byte_at(bytes, pos) {
        Err(e) => Err(e),
        Ok(marker) => match classify(marker) {
            Marker::Sized(Family::Str, class) => decode_size(bytes, pos + 1, marker, class),
            _ => Err(UnpackError::InvalidMapKey { marker }),
        },
    }
}

/// The key of a dictionary entry, and where it ends.
pub open spec fn decode_key(bytes: Seq<u8>, pos: int) -> Result<(Seq<char>, int), UnpackError> {
    match decode_key_size(bytes, pos) {
        Err(e) => Err(e),
        Ok((n, start)) => decode_text(bytes, start, n),
    }
}

/// The keys of entries, in order.
pub open spec fn keys_of(entries: Seq<(Term, Term)>) -> Seq<Term> {
    Seq::new(entries.len(), |i: int| entries[i].0)
}

/// The entries of a dictionary after `key` was set to `value`: the first
/// entry with that key holds the new value, or a new entry stands at the
/// end.
pub open spec fn put(entries: Seq<(Term, Term)>, key: Term, value: Term) -> Seq<(Term, Term)> {
    let i = keys_of(entries).index_of_first(key);
    match i {
        Some(i) => entries.update(i, (key, value)),
        None => entries.push((key, value)),
    }
}

/// The value that starts at an offset, and where it ends; or the first
/// reason why there is none.
///
/// `depth` is how many more levels of lists, dictionaries and structures
/// may open.
pub open spec fn decode_value(bytes: Seq<u8>, pos: int, depth: nat) -> Result<
    (Term, int),
    UnpackError,
>
    decreases depth, 3nat,
{
    match byte_at(bytes, pos) {
        Err(e) => Err(e),
        Ok(marker) => decode_body(bytes, pos + 1, marker, depth),
    }
}

/// The value that a marker announces, where `pos` is the offset behind the
/// marker.
pub open spec fn decode_body(bytes: Seq<u8>, pos: int, marker: u8, depth: nat) -> Result<
    (Term, int),
    UnpackError,
>
    decreases depth, 2nat,
{
    match classify(marker) {
        Marker::TinyInt => Ok((Term::Int(to_signed(marker as nat, 1) as i64), pos)),
        Marker::Null => Ok((Term::Null, pos)),
        Marker::False => Ok((Term::Bool(false), pos)),
        Marker::True => Ok((Term::Bool(true), pos)),
        Marker::Float => match decode_uint(bytes, pos, 8) {
            Err(e) => Err(e),
            Ok((bits, end)) => Ok((Term::Float(bits as u64), end)),
        },
        Marker::Int(width) => match decode_uint(bytes, pos, width) {
            Err(e) => Err(e),
            Ok((u, end)) => Ok((Term::Int(to_signed(u, width) as i64), end)),
        },
        Marker::Sized(family, class) => match decode_size(bytes, pos, marker, class) {
            Err(e) => Err(e),
            Ok((n, start)) => match family {
                Family::Str => match decode_text(bytes, start, n) {
                    Err(e) => Err(e),
                    Ok((text, end)) => Ok((Term::Str(text), end)),
                },
                Family::Bytes => match chunk(bytes, start, n) {
                    Err(e) => Err(e),
                    Ok(payload) => Ok((Term::Bytes(payload), start + n)),
                },
                Family::List => decode_list(bytes, start, n, depth),
                Family::Dict => decode_dict(bytes, start, n, depth),
            },
        },
        Marker::Structure(class) => match decode_size(bytes, pos, marker, class) {
            Err(e) => Err(e),
            Ok((n, start)) => decode_struct(bytes, start, n, depth),
        },
        Marker::Reserved => Err(UnpackError::UnknownMarker { marker }),
    }
}

/// The list of the `n` values from an offset on.
pub open spec fn decode_list(bytes: Seq<u8>, pos: int, n: nat, depth: nat) -> Result<
    (Term, int),
    UnpackError,
>
    decreases depth, 1nat,
{
    if depth == 0 {
        Err(UnpackError::SizeOverflow)
    } else {
        match decode_items(bytes, pos, n, (depth - 1) as nat, Seq::empty()) {
            Err(e) => Err(e),
            Ok((items, end)) => Ok((Term::List(items), end)),
        }
    }
}

/// The dictionary of the `n` entries from an offset on.
pub open spec fn decode_dict(bytes: Seq<u8>, pos: int, n: nat, depth: nat) -> Result<
    (Term, int),
    UnpackError,
>
    decreases depth, 1nat,
{
    if depth == 0 {
        Err(UnpackError::SizeOverflow)
    } else {
        match decode_entries(bytes, pos, n, (depth - 1) as nat, Seq::empty()) {
            Err(e) => Err(e),
            Ok((entries, end)) => Ok((Term::Dict(entries), end)),
        }
    }
}

/// The structure of the tag at an offset and the `n` fields behind it.
pub open spec fn decode_struct(bytes: Seq<u8>, pos: int, n: nat, depth: nat) -> Result<
    (Term, int),
    UnpackError,
>
    decreases depth, 1nat,
{
    if depth == 0 {
        Err(UnpackError::SizeOverflow)
    } else {
        match byte_at(bytes, pos) {
            Err(e) => Err(e),
            Ok(tag) => match decode_items(bytes, pos + 1, n, (depth - 1) as nat, Seq::empty()) {
                Err(e) => Err(e),
                Ok((fields, end)) => Ok((Term::Structure(Record { tag, fields }), end)),
            },
        }
    }
}

/// `items`, then the `n` values from an offset on; and where they end.
pub open spec fn decode_items(
    bytes: Seq<u8>,
    pos: int,
    n: nat,
    depth: nat,
    items: Seq<Term>,
) -> Result<(Seq<Term>, int), UnpackError>
    decreases depth, n + 4,
{
    if n == 0 {
        Ok((items, pos))
    } else {
        match decode_value(bytes, pos, depth) {
            Err(e) => Err(e),
            Ok((item, next)) => decode_items(bytes, next, (n - 1) as nat, depth, items.push(item)),
        }
    }
}

/// `entries`, with the `n` entries from an offset on put into them one
/// after the other; and where they end.
pub open spec fn decode_entries(
    bytes: Seq<u8>,
    pos: int,
    n: nat,
    depth: nat,
    entries: Seq<(Term, Term)>,
) -> Result<(Seq<(Term, Term)>, int), UnpackError>
    decreases depth, n + 4,
{
    if n == 0 {
        Ok((entries, pos))
    } else {
        match decode_key(bytes, pos) {
            Err(e) => Err(e),
            Ok((key, start)) => match decode_value(bytes, start, depth) {
                Err(e) => Err(e),
                Ok((value, next)) => decode_entries(
                    bytes,
                    next,
                    (n - 1) as nat,
                    depth,
                    put(entries, Term::Str(key), value),
                ),
            },
        }
    }
}

/// The tags of the structures that the decoder reads on its way through
/// the value at an offset, as far as it gets.
pub open spec fn seen_value(bytes: Seq<u8>, pos: int, depth: nat) -> Set<u8>
    decreases depth, 3nat,
{
    match byte_at(bytes, pos) {
        Err(_) => Set::empty(),
        Ok(marker) => seen_body(bytes, pos + 1, marker, depth),
    }
}

/// The tags of the structures that the decoder reads on its way through
/// what a marker announces.
pub open spec fn seen_body(bytes: Seq<u8>, pos: int, marker: u8, depth: nat) -> Set<u8>
    decreases depth, 2nat,
{
    match classify(marker) {
        Marker::Sized(Family::List, class) => match decode_size(bytes, pos, marker, class) {
            Err(_) => Set::empty(),
            Ok((n, start)) => seen_list(bytes, start, n, depth),
        },
        Marker::Sized(Family::Dict, class) => match decode_size(bytes, pos, marker, class) {
            Err(_) => Set::empty(),
            Ok((n, start)) => seen_dict(bytes, start, n, depth),
        },
        Marker::Structure(class) => match decode_size(bytes, pos, marker, class) {
            Err(_) => Set::empty(),
            Ok((n, start)) => seen_struct(bytes, start, n, depth),
        },
        _ => Set::empty(),
    }
}

/// The tags of the structures in a list of `n` items.
pub open spec fn seen_list(bytes: Seq<u8>, pos: int, n: nat, depth: nat) -> Set<u8>
    decreases depth, 1nat,
{
    if depth == 0 {
        Set::empty()
    } else {
        seen_items(bytes, pos, n, (depth - 1) as nat)
    }
}

/// The tags of the structures in a dictionary of `n` entries.
pub open spec fn seen_dict(bytes: Seq<u8>, pos: int, n: nat, depth: nat) -> Set<u8>
    decreases depth, 1nat,
{
    if depth == 0 {
        Set::empty()
    } else {
        seen_entries(bytes, pos, n, (depth - 1) as nat)
    }
}

/// The tag of a structure of `n` fields, and the tags of the structures in
/// its fields.
pub open spec fn seen_struct(bytes: Seq<u8>, pos: int, n: nat, depth: nat) -> Set<u8>
    decreases depth, 1nat,
{
    if depth == 0 {
        Set::empty()
    } else {
        match byte_at(bytes, pos) {
            Err(_) => Set::empty(),
            Ok(tag) => seen_items(bytes, pos + 1, n, (depth - 1) as nat).insert(tag),
        }
    }
}

/// The tags of the structures in a run of `n` values.
pub open spec fn seen_items(bytes: Seq<u8>, pos: int, n: nat, depth: nat) -> Set<u8>
    decreases depth, n + 4,
{
    if n == 0 {
        Set::empty()
    } else {
        seen_value(bytes, pos, depth).union(
            match decode_value(bytes, pos, depth) {
                Err(_) => Set::empty(),
                Ok((_, next)) => seen_items(bytes, next, (n - 1) as nat, depth),
            },
        )
    }
}

/// The tags of the structures in the values of a run of `n` entries.
pub open spec fn seen_entries(bytes: Seq<u8>, pos: int, n: nat, depth: nat) -> Set<u8>
    decreases depth, n + 4,
{
    if n == 0 {
        Set::empty()
    } else {
        match decode_key(bytes, pos) {
            Err(_) => Set::empty(),
            Ok((_, start)) => seen_value(bytes, start, depth).union(
                match decode_value(bytes, start, depth) {
                    Err(_) => Set::empty(),
                    Ok((_, next)) => seen_entries(bytes, next, (n - 1) as nat, depth),
                },
            ),
        }
    }
}

/// Whether one of the tags that the decoder sees has a hook.
pub open spec fn meets(seen: Set<u8>, tags: Set<u8>) -> bool {
    exists|tag: u8| #[trigger] seen.contains(tag) && tags.contains(tag)
}

/// Whether `value` is something that the hooks can make of `raw`: `raw`
/// itself, but that in place of every structure in it whose tag has a hook
/// stands what the hook gave for that structure, after its fields were
/// treated in the same way.
pub open spec fn hydration<F: Fn(Structure) -> Result<Value, HookError>>(
    hooks: Option<&HydrationHooks<F>>,
    raw: Term,
    value: Term,
) -> bool
    decreases raw,
{
    match raw {
        Term::List(items) => value is List && hydration_of_items(hooks, items, value->List_0),
        Term::Dict(entries) => value is Dict && hydration_of_entries(
            hooks,
            entries,
            value->Dict_0,
        ),
        Term::Structure(record) => if hooks is Some && hooks->Some_0.tags().contains(
            record.tag,
        ) {
            exists|structure: Structure, made: Value| #[trigger]
                call_ensures(
                    hooks->Some_0.transform(record.tag),
                    (structure,),
                    Ok::<Value, HookError>(made),
                ) && structure.tag == record.tag && made@ == value && hydration_of_items(
                    hooks,
                    record.fields,
                    structure@.fields,
                )
        } else {
            value is Structure && value->Structure_0.tag == record.tag && hydration_of_items(
                hooks,
                record.fields,
                value->Structure_0.fields,
            )
        },
        _ => value == raw,
    }
}

/// Whether each item is something that the hooks can make of the raw item
/// at its place.
pub open spec fn hydration_of_items<F: Fn(Structure) -> Result<Value, HookError>>(
    hooks: Option<&HydrationHooks<F>>,
    raw: Seq<Term>,
    items: Seq<Term>,
) -> bool
    decreases raw,
{
    &&& items.len() == raw.len()
    &&& forall|i: int| 0 <= i < raw.len() ==> hydration(hooks, #[trigger] raw[i], items[i])
}

/// Whether each entry has the key of the raw entry at its place, and a
/// value that the hooks can make of the raw value.
pub open spec fn hydration_of_entries<F: Fn(Structure) -> Result<Value, HookError>>(
    hooks: Option<&HydrationHooks<F>>,
    raw: Seq<(Term, Term)>,
    entries: Seq<(Term, Term)>,
) -> bool
    decreases raw,
{
    &&& entries.len() == raw.len()
    &&& forall|i: int|
        0 <= i < raw.len() ==> entries[i].0 == (#[trigger] raw[i]).0 && hydration(
            hooks,
            raw[i].1,
            entries[i].1,
        )
}

/// Whether `error` is the error of a hook for a structure of the value at
/// an offset: the value holds a structure whose tag has a hook, the fields
/// of the structure are there, and the hook gave that error for the
/// structure with what the hooks made of its fields.
pub open spec fn fails_value<F: Fn(Structure) -> Result<Value, HookError>>(
    hooks: Option<&HydrationHooks<F>>,
    bytes: Seq<u8>,
    pos: int,
    depth: nat,
    error: HookError,
) -> bool
    decreases depth, 3nat,
{
    match byte_at(bytes, pos) {
        Err(_) => false,
        Ok(marker) => fails_body(hooks, bytes, pos + 1, marker, depth, error),
    }
}

/// Whether `error` is the error of a hook for a structure of what a marker
/// announces.
pub open spec fn fails_body<F: Fn(Structure) -> Result<Value, HookError>>(
    hooks: Option<&HydrationHooks<F>>,
    bytes: Seq<u8>,
    pos: int,
    marker: u8,
    depth: nat,
    error: HookError,
) -> bool
    decreases depth, 2nat,
{
    match classify(marker) {
        Marker::Sized(Family::List, class) => match decode_size(bytes, pos, marker, class) {
            Err(_) => false,
            Ok((n, start)) => fails_list(hooks, bytes, start, n, depth, error),
        },
        Marker::Sized(Family::Dict, class) => match decode_size(bytes, pos, marker, class) {
            Err(_) => false,
            Ok((n, start)) => fails_dict(hooks, bytes, start, n, depth, error),
        },
        Marker::Structure(class) => match decode_size(bytes, pos, marker, class) {
            Err(_) => false,
            Ok((n, start)) => fails_struct(hooks, bytes, start, n, depth, error),
        },
        _ => false,
    }
}

/// Whether `error` is the error of a hook for a structure in a list of `n`
/// items.
pub open spec fn fails_list<F: Fn(Structure) -> Result<Value, HookError>>(
    hooks: Option<&HydrationHooks<F>>,
    bytes: Seq<u8>,
    pos: int,
    n: nat,
    depth: nat,
    error: HookError,
) -> bool
    decreases depth, 1nat,
{
    depth > 0 && fails_items(hooks, bytes, pos, n, (depth - 1) as nat, error)
}

/// Whether `error` is the error of a hook for a structure in a dictionary
/// of `n` entries.
pub open spec fn fails_dict<F: Fn(Structure) -> Result<Value, HookError>>(
    hooks: Option<&HydrationHooks<F>>,
    bytes: Seq<u8>,
    pos: int,
    n: nat,
    depth: nat,
    error: HookError,
) -> bool
    decreases depth, 1nat,
{
    depth > 0 && fails_entries(hooks, bytes, pos, n, (depth - 1) as nat, error)
}

/// Whether `error` is the error of a hook for a structure of `n` fields or
/// for a structure in its fields.
pub open spec fn fails_struct<F: Fn(Structure) -> Result<Value, HookError>>(
    hooks: Option<&HydrationHooks<F>>,
    bytes: Seq<u8>,
    pos: int,
    n: nat,
    depth: nat,
    error: HookError,
) -> bool
    decreases depth, 1nat,
{
    depth > 0 && match byte_at(bytes, pos) {
        Err(_) => false,
        Ok(tag) => {
            ||| fails_items(hooks, bytes, pos + 1, n, (depth - 1) as nat, error)
            ||| {
                &&& decode_items(bytes, pos + 1, n, (depth - 1) as nat, Seq::empty()) is Ok
                &&& hooks is Some
                &&& hooks->Some_0.tags().contains(tag)
                &&& exists|structure: Structure| #[trigger]
                    call_ensures(
                        hooks->Some_0.transform(tag),
                        (structure,),
                        Err::<Value, HookError>(error),
                    ) && structure.tag == tag && hydration_of_items(
                        hooks,
                        decode_items(
                            bytes,
                            pos + 1,
                            n,
                            (depth - 1) as nat,
                            Seq::empty(),
                        )->Ok_0.0,
                        structure@.fields,
                    )
            }
        },
    }
}

/// Whether `error` is the error of a hook for a structure in a run of `n`
/// values.
pub open spec fn fails_items<F: Fn(Structure) -> Result<Value, HookError>>(
    hooks: Option<&HydrationHooks<F>>,
    bytes: Seq<u8>,
    pos: int,
    n: nat,
    depth: nat,
    error: HookError,
) -> bool
    decreases depth, n + 4,
{
    n > 0 && {
        ||| fails_value(hooks, bytes, pos, depth, error)
        ||| decode_value(bytes, pos, depth) is Ok && fails_items(
            hooks,
            bytes,
            decode_value(bytes, pos, depth)->Ok_0.1,
            (n - 1) as nat,
            depth,
            error,
        )
    }
}

/// Whether `error` is the error of a hook for a structure in the values of
/// a run of `n` entries.
pub open spec fn fails_entries<F: Fn(Structure) -> Result<Value, HookError>>(
    hooks: Option<&HydrationHooks<F>>,
    bytes: Seq<u8>,
    pos: int,
    n: nat,
    depth: nat,
    error: HookError,
) -> bool
    decreases depth, n + 4,
{
    n > 0 && decode_key(bytes, pos) is Ok && {
        let start = decode_key(bytes, pos)->Ok_0.1;
        ||| fails_value(hooks, bytes, start, depth, error)
        ||| decode_value(bytes, start, depth) is Ok && fails_entries(
            hooks,
            bytes,
            decode_value(bytes, start, depth)->Ok_0.1,
            (n - 1) as nat,
            depth,
            error,
        )
    }
}

/// What a read has produced, as a term.
pub open spec fn outcome(r: Result<Value, UnpackError>) -> Result<Term, UnpackError> {
    match r {
        Ok(value) => Ok(value@),
        Err(e) => Err(e),
    }
}

/// How a read relates to what the bytes hold, where `touched` says
/// whether a hook is registered for the tag of a structure on the way.
///
/// Where no hook is touched, the read is what the bytes hold: the value and
/// the offset behind it, or the reason why they hold none. Where one is,
/// the read still ends where the value ends, but the value is what the
/// hooks made of it; and the read may fail with the error of a hook.
pub open spec fn agrees<T>(
    held: Result<(T, int), UnpackError>,
    touched: bool,
    r: Result<T, UnpackError>,
    index: int,
) -> bool {
    match held {
        Ok((raw, end)) => match r {
            Ok(value) => index == end && (!touched ==> value == raw),
            Err(e) => touched && e is Hook,
        },
        Err(expected) => match r {
            Ok(_) => false,
            Err(e) => e == expected || (touched && e is Hook),
        },
    }
}

} // verus!
