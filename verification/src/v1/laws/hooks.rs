//! The hooks: what the dehydration hooks have a say in when a value is
//! written and what they have not, and the round trip through both hook
//! tables.

use crate::hooks::{DehydrationHooks, HookError, HydrationHooks};
use crate::v1::decoding::{
    agrees, decode_items, decode_value, fails_items, fails_struct, fails_value, hydration,
    hydration_of_items, meets, seen_value,
};
use crate::v1::laws::round_trip::{lemma_items_encoding_extends, lemma_round_trip};
use crate::v1::unpack::UnpackError;
use crate::v1::encoding::{
    encoding, entries_encoding, entries_written_with, entry_encoding, entry_written_with,
    follows, items_encoding, items_written_with, parts_of, size_header, struct_header, touches,
    written_with, Trace,
};
use crate::v1::pack::{Limit, PackError};
use crate::v1::{Family, MAX_SIZE};
use crate::value::{all_well_formed, Foreign, Kind, Record, Structure, Term, Value};
use vstd::prelude::*;

verus! {

/// Hooks have no say in a value that holds no application object whose
/// kind has a hook: whatever the trace, the encoder writes the encoding of
/// the value, or stops with the error that the value has in place of one.
pub proof fn lemma_written_untouched(kinds: Set<u64>, t: Term, depth: nat, trace: Trace)
    requires
        !touches(t, kinds),
    ensures
        written_with(kinds, t, depth, trace) == encoding(t, depth),
    decreases depth, 0nat,
{
    match t {
        Term::List(items) => {
            if items.len() <= MAX_SIZE && depth > 0 {
                lemma_items_written_untouched(
                    kinds,
                    items,
                    0,
                    (depth - 1) as nat,
                    parts_of(trace),
                    size_header(Family::List, items.len()),
                );
            }
        },
        Term::Dict(entries) => {
            if entries.len() <= MAX_SIZE && depth > 0 {
                lemma_entries_written_untouched(
                    kinds,
                    entries,
                    0,
                    (depth - 1) as nat,
                    parts_of(trace),
                    size_header(Family::Dict, entries.len()),
                );
            }
        },
        Term::Structure(record) => {
            if depth > 0 {
                lemma_items_written_untouched(
                    kinds,
                    record.fields,
                    0,
                    (depth - 1) as nat,
                    parts_of(trace),
                    struct_header(record.tag, record.fields.len()),
                );
            }
        },
        _ => {},
    }
}

/// Hooks have no say in items that hold no application object whose kind
/// has a hook.
pub proof fn lemma_items_written_untouched(
    kinds: Set<u64>,
    items: Seq<Term>,
    from: int,
    depth: nat,
    traces: Seq<Trace>,
    written: Seq<u8>,
)
    requires
        forall|i: int| 0 <= i < items.len() ==> !touches(#[trigger] items[i], kinds),
    ensures
        items_written_with(kinds, items, from, depth, traces, written) == items_encoding(
            items,
            from,
            depth,
            written,
        ),
    decreases depth, items.len() - from + 1,
{
    if 0 <= from < items.len() {
        lemma_written_untouched(kinds, items[from], depth, traces[from]);
        if encoding(items[from], depth) is Ok {
            lemma_items_written_untouched(
                kinds,
                items,
                from + 1,
                depth,
                traces,
                written + encoding(items[from], depth)->Ok_0,
            );
        }
    }
}

/// Hooks have no say in entries that hold no application object whose kind
/// has a hook.
pub proof fn lemma_entries_written_untouched(
    kinds: Set<u64>,
    entries: Seq<(Term, Term)>,
    from: int,
    depth: nat,
    traces: Seq<Trace>,
    written: Seq<u8>,
)
    requires
        forall|i: int|
            0 <= i < entries.len() ==> !touches((#[trigger] entries[i]).0, kinds) && !touches(
                entries[i].1,
                kinds,
            ),
    ensures
        entries_written_with(kinds, entries, from, depth, traces, written) == entries_encoding(
            entries,
            from,
            depth,
            written,
        ),
    decreases depth, entries.len() - from + 1,
{
    if 0 <= from < entries.len() {
        lemma_written_untouched(kinds, entries[from].1, depth, traces[from]);
        assert(entry_written_with(kinds, entries[from], depth, traces[from]) == entry_encoding(
            entries[from],
            depth,
        ));
        if entry_encoding(entries[from], depth) is Ok {
            lemma_entries_written_untouched(
                kinds,
                entries,
                from + 1,
                depth,
                traces,
                written + entry_encoding(entries[from], depth)->Ok_0,
            );
        }
    }
}

/// Unsupported kind if and only if no transform, for the value itself: an
/// application object whose kind has no hook is not supported, and the
/// error names its kind; one whose kind has a hook is never reported as
/// not supported.
pub proof fn lemma_unsupported_object(kinds: Set<u64>, object: Foreign, depth: nat, trace: Trace)
    ensures
        !kinds.contains(object.kind) ==> written_with(kinds, Term::Foreign(object), depth, trace)
            == Err::<Seq<u8>, PackError>(PackError::Unsupported(Kind::Foreign(object.kind))),
        kinds.contains(object.kind) ==> written_with(kinds, Term::Foreign(object), depth, trace)
            != Err::<Seq<u8>, PackError>(PackError::Unsupported(Kind::Foreign(object.kind))),
{
    if kinds.contains(object.kind) {
        lemma_unsupported_has_no_transform(kinds, Term::Foreign(object), depth, trace);
    }
}

/// Whatever the encoder reports as not supported is an application object
/// whose kind has no hook.
pub proof fn lemma_unsupported_has_no_transform(
    kinds: Set<u64>,
    t: Term,
    depth: nat,
    trace: Trace,
)
    ensures
        written_with(kinds, t, depth, trace) matches Err(PackError::Unsupported(kind))
            ==> kind is Foreign && !kinds.contains(kind->Foreign_0),
    decreases depth, 0nat,
{
    match t {
        Term::Foreign(object) => {
            if kinds.contains(object.kind) && depth > 0 {
                if let Trace::Hooked { made: Ok(replacement), then } = trace {
                    lemma_unsupported_has_no_transform(
                        kinds,
                        replacement@,
                        (depth - 1) as nat,
                        *then,
                    );
                }
            }
        },
        Term::List(items) => {
            if items.len() <= MAX_SIZE && depth > 0 {
                lemma_items_unsupported(
                    kinds,
                    items,
                    0,
                    (depth - 1) as nat,
                    parts_of(trace),
                    size_header(Family::List, items.len()),
                );
            }
        },
        Term::Dict(entries) => {
            if entries.len() <= MAX_SIZE && depth > 0 {
                lemma_entries_unsupported(
                    kinds,
                    entries,
                    0,
                    (depth - 1) as nat,
                    parts_of(trace),
                    size_header(Family::Dict, entries.len()),
                );
            }
        },
        Term::Structure(record) => {
            if depth > 0 {
                lemma_items_unsupported(
                    kinds,
                    record.fields,
                    0,
                    (depth - 1) as nat,
                    parts_of(trace),
                    struct_header(record.tag, record.fields.len()),
                );
            }
        },
        _ => {},
    }
}

/// Whatever the encoder reports as not supported among items is an
/// application object whose kind has no hook.
pub proof fn lemma_items_unsupported(
    kinds: Set<u64>,
    items: Seq<Term>,
    from: int,
    depth: nat,
    traces: Seq<Trace>,
    written: Seq<u8>,
)
    ensures
        items_written_with(kinds, items, from, depth, traces, written) matches Err(
            PackError::Unsupported(kind),
        ) ==> kind is Foreign && !kinds.contains(kind->Foreign_0),
    decreases depth, items.len() - from + 1,
{
    if 0 <= from < items.len() {
        lemma_unsupported_has_no_transform(kinds, items[from], depth, traces[from]);
        if written_with(kinds, items[from], depth, traces[from]) is Ok {
            lemma_items_unsupported(
                kinds,
                items,
                from + 1,
                depth,
                traces,
                written + written_with(kinds, items[from], depth, traces[from])->Ok_0,
            );
        }
    }
}

/// Whatever the encoder reports as not supported among entries is an
/// application object whose kind has no hook.
pub proof fn lemma_entries_unsupported(
    kinds: Set<u64>,
    entries: Seq<(Term, Term)>,
    from: int,
    depth: nat,
    traces: Seq<Trace>,
    written: Seq<u8>,
)
    ensures
        entries_written_with(kinds, entries, from, depth, traces, written) matches Err(
            PackError::Unsupported(kind),
        ) ==> kind is Foreign && !kinds.contains(kind->Foreign_0),
    decreases depth, entries.len() - from + 1,
{
    if 0 <= from < entries.len() {
        lemma_unsupported_has_no_transform(kinds, entries[from].1, depth, traces[from]);
        if entry_written_with(kinds, entries[from], depth, traces[from]) is Ok {
            lemma_entries_unsupported(
                kinds,
                entries,
                from + 1,
                depth,
                traces,
                written + entry_written_with(kinds, entries[from], depth, traces[from])->Ok_0,
            );
        }
    }
}

/// The replacement is written: for an application object whose kind has a
/// hook, with a level left, the encoder writes what it writes for the value
/// that the hook gave, one level further down; and if the hook gave an
/// error, that error comes back unchanged.
pub proof fn lemma_replacement_is_written(
    kinds: Set<u64>,
    object: Foreign,
    depth: nat,
    made: Result<Value, HookError>,
    then: Trace,
)
    requires
        kinds.contains(object.kind),
        depth > 0,
    ensures
        written_with(
            kinds,
            Term::Foreign(object),
            depth,
            Trace::Hooked { made, then: Box::new(then) },
        ) == match made {
            Ok(replacement) => written_with(kinds, replacement@, (depth - 1) as nat, then),
            Err(e) => Err::<Seq<u8>, PackError>(PackError::Hook(e)),
        },
{
}

/// The depth limit comes before the hook: an application object whose kind
/// has a hook and below which no level is left is refused, and no hook is
/// asked.
pub proof fn lemma_hooked_object_too_deep(kinds: Set<u64>, object: Foreign, trace: Trace)
    requires
        kinds.contains(object.kind),
    ensures
        written_with(kinds, Term::Foreign(object), 0, trace) == Err::<Seq<u8>, PackError>(
            PackError::SizeOverflow(Limit::Depth),
        ),
{
}

/// Map key typing, with hooks: a dictionary whose first entries are
/// written and whose next entry has a key that is not a string fails with
/// the error that names the kind of that key, whatever the hooks gave
/// before and whatever stands behind that key.
pub proof fn lemma_dict_key_kind_with_hooks(
    kinds: Set<u64>,
    entries: Seq<(Term, Term)>,
    at: int,
    depth: nat,
    traces: Seq<Trace>,
)
    requires
        depth > 0,
        entries.len() <= MAX_SIZE,
        0 <= at < entries.len(),
        forall|i: int|
            0 <= i < at ==> entry_written_with(
                kinds,
                #[trigger] entries[i],
                (depth - 1) as nat,
                traces[i],
            ) is Ok,
        !(entries[at].0 is Str),
    ensures
        written_with(kinds, Term::Dict(entries), depth, Trace::Parts(traces)) == Err::<
            Seq<u8>,
            PackError,
        >(PackError::InvalidMapKey(entries[at].0.kind())),
{
    lemma_entries_stop_at(
        kinds,
        entries,
        0,
        at,
        (depth - 1) as nat,
        traces,
        size_header(Family::Dict, entries.len()),
    );
}

/// The entries from `from` on are not written if those before the entry
/// `at` are and that entry is not; the error is that entry's.
pub proof fn lemma_entries_stop_at(
    kinds: Set<u64>,
    entries: Seq<(Term, Term)>,
    from: int,
    at: int,
    depth: nat,
    traces: Seq<Trace>,
    written: Seq<u8>,
)
    requires
        0 <= from <= at < entries.len(),
        forall|i: int|
            from <= i < at ==> entry_written_with(kinds, #[trigger] entries[i], depth, traces[i])
                is Ok,
        entry_written_with(kinds, entries[at], depth, traces[at]) is Err,
    ensures
        entries_written_with(kinds, entries, from, depth, traces, written) == Err::<
            Seq<u8>,
            PackError,
        >(entry_written_with(kinds, entries[at], depth, traces[at])->Err_0),
    decreases at - from,
{
    if from < at {
        let entry = entry_written_with(kinds, entries[from], depth, traces[from])->Ok_0;
        lemma_entries_stop_at(kinds, entries, from + 1, at, depth, traces, written + entry);
    }
}

/// Whether every item is a scalar.
pub open spec fn scalars(items: Seq<Term>) -> bool {
    forall|i: int| 0 <= i < items.len() ==> (#[trigger] items[i]).scalar()
}

/// Scalars have the same encoding at every depth.
pub proof fn lemma_scalars_at_any_depth(
    items: Seq<Term>,
    from: int,
    depth: nat,
    other: nat,
    written: Seq<u8>,
)
    requires
        scalars(items),
    ensures
        items_encoding(items, from, depth, written) == items_encoding(items, from, other, written),
    decreases items.len() - from,
{
    if 0 <= from < items.len() {
        assert(items[from].scalar());
        assert(encoding(items[from], depth) == encoding(items[from], other));
        if encoding(items[from], depth) is Ok {
            lemma_scalars_at_any_depth(
                items,
                from + 1,
                depth,
                other,
                written + encoding(items[from], depth)->Ok_0,
            );
        }
    }
}

/// What the decoder reads behind items stands behind them: the items that
/// were there stay, and the first value read comes next.
pub proof fn lemma_decoded_items_append(
    bytes: Seq<u8>,
    pos: int,
    n: nat,
    depth: nat,
    items: Seq<Term>,
)
    requires
        decode_items(bytes, pos, n, depth, items) is Ok,
    ensures
        decode_items(bytes, pos, n, depth, items)->Ok_0.0.len() == items.len() + n,
        forall|j: int|
            0 <= j < items.len() ==> decode_items(bytes, pos, n, depth, items)->Ok_0.0[j]
                == items[j],
        n > 0 ==> decode_items(bytes, pos, n, depth, items)->Ok_0.0[items.len() as int]
            == decode_value(bytes, pos, depth)->Ok_0.0,
    decreases n,
{
    if n > 0 {
        let (item, next) = decode_value(bytes, pos, depth)->Ok_0;
        lemma_decoded_items_append(bytes, next, (n - 1) as nat, depth, items.push(item));
        let all = decode_items(bytes, pos, n, depth, items)->Ok_0.0;
        assert forall|j: int| 0 <= j < items.len() implies all[j] == items[j] by {
            assert(items.push(item)[j] == items[j]);
        }
        assert(items.push(item)[items.len() as int] == item);
    }
}

/// No hook fails for a scalar: the decoder asks none.
pub proof fn lemma_scalar_asks_no_hook<H: Fn(Structure) -> Result<Value, HookError>>(
    hooks: Option<&HydrationHooks<H>>,
    bytes: Seq<u8>,
    pos: int,
    depth: nat,
    error: HookError,
)
    requires
        decode_value(bytes, pos, depth) is Ok,
        decode_value(bytes, pos, depth)->Ok_0.0.scalar(),
    ensures
        !fails_value(hooks, bytes, pos, depth, error),
{
}

/// No hook fails in a run of scalars.
pub proof fn lemma_scalars_ask_no_hook<H: Fn(Structure) -> Result<Value, HookError>>(
    hooks: Option<&HydrationHooks<H>>,
    bytes: Seq<u8>,
    pos: int,
    n: nat,
    depth: nat,
    items: Seq<Term>,
    error: HookError,
)
    requires
        decode_items(bytes, pos, n, depth, items) is Ok,
        forall|j: int|
            items.len() <= j < items.len() + n ==> (#[trigger] decode_items(
                bytes,
                pos,
                n,
                depth,
                items,
            )->Ok_0.0[j]).scalar(),
    ensures
        !fails_items(hooks, bytes, pos, n, depth, error),
    decreases n,
{
    if n > 0 {
        let (item, next) = decode_value(bytes, pos, depth)->Ok_0;
        let all = decode_items(bytes, pos, n, depth, items)->Ok_0.0;
        lemma_decoded_items_append(bytes, pos, n, depth, items);
        assert(all[items.len() as int].scalar());
        lemma_scalar_asks_no_hook(hooks, bytes, pos, depth, error);
        lemma_scalars_ask_no_hook(
            hooks,
            bytes,
            next,
            (n - 1) as nat,
            depth,
            items.push(item),
            error,
        );
    }
}

/// Hook round trip. Take a dehydration hook that gives, for an application
/// object, a structure of scalar fields and nothing else, and a hydration
/// hook for the tag of that structure that gives, for such a structure, the
/// object and nothing else. Then the encoder writes the encoding of the
/// structure for the object, and whatever a read of these bytes gives
/// within the contract of the decoder, it gives the object back and ends
/// behind the bytes.
pub proof fn lemma_hook_round_trip<
    D: Fn(Foreign) -> Result<Value, HookError>,
    H: Fn(Structure) -> Result<Value, HookError>,
>(
    dehydration: &DehydrationHooks<D>,
    hydration_hooks: &HydrationHooks<H>,
    object: Foreign,
    record: Record,
    depth: nat,
    limit: nat,
    trace: Trace,
    r: Result<Term, UnpackError>,
    end: int,
)
    requires
        depth >= 2,
        limit >= 1,
        scalars(record.fields),
        encoding(Term::Structure(record), limit) is Ok,
        dehydration.kinds().contains(object.kind),
        forall|made: Result<Value, HookError>| #[trigger]
            call_ensures(dehydration.transform(object.kind), (object,), made) ==> made is Ok
                && made->Ok_0@ == Term::Structure(record),
        hydration_hooks.tags().contains(record.tag),
        forall|structure: Structure, made: Result<Value, HookError>| #[trigger]
            call_ensures(hydration_hooks.transform(record.tag), (structure,), made) && structure@
                == record ==> made is Ok && made->Ok_0@ == Term::Foreign(object),
        follows(Some(dehydration), Term::Foreign(object), depth, trace),
        ({
            let bytes = encoding(Term::Structure(record), limit)->Ok_0;
            let held = decode_value(bytes, 0, limit);
            &&& agrees(
                held,
                meets(seen_value(bytes, 0, limit), hydration_hooks.tags()),
                r,
                end,
            )
            &&& held is Ok && r is Ok ==> hydration(Some(hydration_hooks), held->Ok_0.0, r->Ok_0)
            &&& r matches Err(UnpackError::Hook(e)) ==> fails_value(
                Some(hydration_hooks),
                bytes,
                0,
                limit,
                e,
            )
        }),
    ensures
        written_with(dehydration.kinds(), Term::Foreign(object), depth, trace) == encoding(
            Term::Structure(record),
            limit,
        ),
        r == Ok::<Term, UnpackError>(Term::Foreign(object)),
        end == encoding(Term::Structure(record), limit)->Ok_0.len(),
{
    let kinds = dehydration.kinds();
    let whole = Term::Structure(record);
    let bytes = encoding(whole, limit)->Ok_0;
    let header = struct_header(record.tag, record.fields.len());
    // what the encoder writes
    assert(!touches(whole, kinds)) by {
        assert forall|i: int| 0 <= i < record.fields.len() implies !touches(
            #[trigger] record.fields[i],
            kinds,
        ) by {
            assert(record.fields[i].scalar());
        }
    }
    lemma_written_untouched(kinds, whole, (depth - 1) as nat, *trace->then);
    lemma_scalars_at_any_depth(record.fields, 0, (depth - 2) as nat, (limit - 1) as nat, header);
    // what the bytes hold
    assert(all_well_formed(record.fields)) by {
        assert forall|i: int| 0 <= i < record.fields.len() implies (
        #[trigger] record.fields[i]).well_formed() by {
            assert(record.fields[i].scalar());
        }
    }
    assert(whole.well_formed());
    lemma_round_trip(whole, limit);
    lemma_items_encoding_extends(record.fields, 0, (limit - 1) as nat, header);
    assert(header.len() == 2);
    assert(bytes.subrange(0, 2) == header);
    assert(bytes[0] == header[0] && bytes[1] == record.tag) by {
        assert(bytes.subrange(0, 2)[0] == bytes[0]);
        assert(bytes.subrange(0, 2)[1] == bytes[1]);
    }
    let raw = decode_items(bytes, 2, record.fields.len(), (limit - 1) as nat, Seq::empty());
    assert(raw is Ok && raw->Ok_0.0 == record.fields);
    // no hook fails
    if r is Err {
        let e = r->Err_0->Hook_0;
        lemma_scalars_ask_no_hook(
            Some(hydration_hooks),
            bytes,
            2,
            record.fields.len(),
            (limit - 1) as nat,
            Seq::empty(),
            e,
        );
        assert(fails_struct(
            Some(hydration_hooks),
            bytes,
            1,
            record.fields.len(),
            limit,
            e,
        ));
        let structure = choose|structure: Structure| #[trigger]
            call_ensures(
                hydration_hooks.transform(record.tag),
                (structure,),
                Err::<Value, HookError>(e),
            ) && structure.tag == record.tag && hydration_of_items(
                Some(hydration_hooks),
                record.fields,
                structure@.fields,
            );
        lemma_scalars_stay(Some(hydration_hooks), record.fields, structure@.fields);
        assert(structure@ == record);
        assert(false);
    }
    // the hook gives the object back
    let (structure, made) = choose|structure: Structure, made: Value| #[trigger]
        call_ensures(
            hydration_hooks.transform(record.tag),
            (structure,),
            Ok::<Value, HookError>(made),
        ) && structure.tag == record.tag && made@ == r->Ok_0 && hydration_of_items(
            Some(hydration_hooks),
            record.fields,
            structure@.fields,
        );
    lemma_scalars_stay(Some(hydration_hooks), record.fields, structure@.fields);
    assert(structure@ == record);
}

/// Hooks leave scalars as they are.
pub proof fn lemma_scalars_stay<H: Fn(Structure) -> Result<Value, HookError>>(
    hooks: Option<&HydrationHooks<H>>,
    raw: Seq<Term>,
    items: Seq<Term>,
)
    requires
        scalars(raw),
        hydration_of_items(hooks, raw, items),
    ensures
        items == raw,
{
    assert forall|i: int| 0 <= i < raw.len() implies items[i] == raw[i] by {
        assert(raw[i].scalar());
        assert(hydration(hooks, raw[i], items[i]));
    }
    assert(items =~= raw);
}

} // verus!
