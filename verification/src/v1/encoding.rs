//! What the bytes of a value are.
//!
//! [`encoding`] is the definition of the format on the encoder's side: the
//! contract of [`pack`](crate::v1::pack::pack) refers to it, and so do the
//! laws. [`written_with`] says what the encoder does where dehydration hooks
//! have a say: what it writes, or the error with which it stops, given what
//! the hooks gave; and [`follows`] says when a [`Trace`] holds what the
//! hooks gave.

use crate::hooks::{DehydrationHooks, HookError};
use crate::v1::pack::{Limit, PackError};
use crate::v1::wire::{be_bytes, to_unsigned};
use crate::v1::{
    marker_of, size_class_for, width_of, Family, SizeClass, FALSE, FLOAT_64, INT_16, INT_32,
    INT_64, INT_8, MAX_FIELDS, MAX_SIZE, NULL, TINY_STRUCT, TRUE,
};
use crate::value::{Foreign, Kind, Term, Value};
use vstd::prelude::*;
use vstd::utf8::encode_utf8;

verus! {

/// The limit on the length of a family.
pub open spec fn limit_of(family: Family) -> Limit {
    match family {
        Family::Str => Limit::Str,
        Family::Bytes => Limit::Bytes,
        Family::List => Limit::List,
        Family::Dict => Limit::Dict,
    }
}

/// The marker and length of a value of a family: the smallest form that
/// holds the length.
pub open spec fn size_header(family: Family, n: nat) -> Seq<u8>
    recommends
        n <= MAX_SIZE,
{
    match size_class_for(family, n) {
        SizeClass::Tiny => seq![(marker_of(family, SizeClass::Tiny) + n) as u8],
        class => seq![marker_of(family, class)] + be_bytes(n, width_of(class)),
    }
}

/// The header for a length, or the overflow of the family's limit.
pub open spec fn counted(family: Family, n: nat) -> Result<Seq<u8>, PackError> {
    if n > MAX_SIZE {
        Err(PackError::SizeOverflow(limit_of(family)))
    } else {
        Ok(size_header(family, n))
    }
}

/// A payload behind the header for its length.
pub open spec fn framed(family: Family, payload: Seq<u8>) -> Result<Seq<u8>, PackError> {
    match counted(family, payload.len()) {
        Ok(header) => Ok(header + payload),
        Err(e) => Err(e),
    }
}

/// The bytes of an integer: the smallest of the five forms that holds it.
pub open spec fn int_encoding(i: i64) -> Seq<u8> {
    if -16 <= i <= 127 {
        seq![to_unsigned(i as int, 1) as u8]
    } else if -0x80 <= i <= 0x7F {
        seq![INT_8] + be_bytes(to_unsigned(i as int, 1), 1)
    } else if -0x8000 <= i <= 0x7FFF {
        seq![INT_16] + be_bytes(to_unsigned(i as int, 2), 2)
    } else if -0x8000_0000 <= i <= 0x7FFF_FFFF {
        seq![INT_32] + be_bytes(to_unsigned(i as int, 4), 4)
    } else {
        seq![INT_64] + be_bytes(to_unsigned(i as int, 8), 8)
    }
}

/// The marker and tag of a structure with `n` fields.
pub open spec fn struct_header(tag: u8, n: nat) -> Seq<u8>
    recommends
        n <= MAX_FIELDS,
{
    seq![(TINY_STRUCT + n) as u8, tag]
}

/// The bytes of a value, or the first reason why it has none.
///
/// `depth` is how many more levels of lists, dictionaries and structures
/// may open.
pub open spec fn encoding(t: Term, depth: nat) -> Result<Seq<u8>, PackError>
    decreases depth, 0nat,
{
    match t {
        Term::Null => Ok(seq![NULL]),
        Term::Bool(b) => Ok(
            seq![if b {
                TRUE
            } else {
                FALSE
            }],
        ),
        Term::Int(i) => Ok(int_encoding(i)),
        Term::Float(bits) => Ok(seq![FLOAT_64] + be_bytes(bits as nat, 8)),
        Term::Str(s) => framed(Family::Str, encode_utf8(s)),
        Term::Bytes(b) => framed(Family::Bytes, b),
        Term::List(items) => match counted(Family::List, items.len()) {
            Err(e) => Err(e),
            Ok(header) => if depth == 0 {
                Err(PackError::SizeOverflow(Limit::Depth))
            } else {
                items_encoding(items, 0, (depth - 1) as nat, header)
            },
        },
        Term::Dict(entries) => match counted(Family::Dict, entries.len()) {
            Err(e) => Err(e),
            Ok(header) => if depth == 0 {
                Err(PackError::SizeOverflow(Limit::Depth))
            } else {
                entries_encoding(entries, 0, (depth - 1) as nat, header)
            },
        },
        Term::Structure(record) => if record.fields.len() > MAX_FIELDS {
            Err(PackError::SizeOverflow(Limit::Structure))
        } else if depth == 0 {
            Err(PackError::SizeOverflow(Limit::Depth))
        } else {
            items_encoding(
                record.fields,
                0,
                (depth - 1) as nat,
                struct_header(record.tag, record.fields.len()),
            )
        },
        Term::Foreign(f) => Err(PackError::Unsupported(Kind::Foreign(f.kind))),
    }
}

/// `written`, then the bytes of the items from index `from` on, in order;
/// or the first reason why one of them has none.
pub open spec fn items_encoding(
    items: Seq<Term>,
    from: int,
    depth: nat,
    written: Seq<u8>,
) -> Result<Seq<u8>, PackError>
    decreases depth, items.len() - from + 1,
{
    if from < 0 || from >= items.len() {
        Ok(written)
    } else {
        match encoding(items[from], depth) {
            Err(e) => Err(e),
            Ok(bytes) => items_encoding(items, from + 1, depth, written + bytes),
        }
    }
}

/// The bytes of one entry of a dictionary: its key as a string, then its
/// value.
pub open spec fn entry_encoding(entry: (Term, Term), depth: nat) -> Result<Seq<u8>, PackError>
    decreases depth, 1nat,
{
    match entry.0 {
        Term::Str(s) => match framed(Family::Str, encode_utf8(s)) {
            Err(e) => Err(e),
            Ok(key) => match encoding(entry.1, depth) {
                Err(e) => Err(e),
                Ok(value) => Ok(key + value),
            },
        },
        key => Err(PackError::InvalidMapKey(key.kind())),
    }
}

/// `written`, then the bytes of the entries from index `from` on, in order;
/// or the first reason why one of them has none.
pub open spec fn entries_encoding(
    entries: Seq<(Term, Term)>,
    from: int,
    depth: nat,
    written: Seq<u8>,
) -> Result<Seq<u8>, PackError>
    decreases depth, entries.len() - from + 2,
{
    if from < 0 || from >= entries.len() {
        Ok(written)
    } else {
        match entry_encoding(entries[from], depth) {
            Err(e) => Err(e),
            Ok(bytes) => entries_encoding(entries, from + 1, depth, written + bytes),
        }
    }
}

/// Whether one sequence starts with another.
pub open spec fn extends(longer: Seq<u8>, shorter: Seq<u8>) -> bool {
    shorter.len() <= longer.len() && longer.subrange(0, shorter.len() as int) =~= shorter
}

/// Starting with a sequence is reflexive and transitive, and what was
/// appended to starts with what it was appended to.
pub proof fn lemma_extends(a: Seq<u8>, b: Seq<u8>, c: Seq<u8>)
    ensures
        extends(a, a),
        extends(a + b, a),
        extends(b, a) && extends(c, b) ==> extends(c, a),
{
    if extends(b, a) && extends(c, b) {
        assert forall|i: int| 0 <= i < a.len() implies c[i] == a[i] by {
            assert(b.subrange(0, a.len() as int)[i] == a[i]);
            assert(c.subrange(0, b.len() as int)[i] == b[i]);
        }
    }
}

/// Whether a value holds an application object of one of the kinds.
pub open spec fn touches(t: Term, kinds: Set<u64>) -> bool
    decreases t,
{
    match t {
        Term::List(items) => touches_any(items, kinds),
        Term::Dict(entries) => touches_any_entry(entries, kinds),
        Term::Structure(record) => touches_any(record.fields, kinds),
        Term::Foreign(f) => kinds.contains(f.kind),
        _ => false,
    }
}

/// Whether one of the items holds an application object of one of the
/// kinds.
pub open spec fn touches_any(items: Seq<Term>, kinds: Set<u64>) -> bool
    decreases items,
{
    exists|i: int| 0 <= i < items.len() && touches(#[trigger] items[i], kinds)
}

/// Whether a key or a value of one of the entries holds an application
/// object of one of the kinds.
pub open spec fn touches_any_entry(entries: Seq<(Term, Term)>, kinds: Set<u64>) -> bool
    decreases entries,
{
    exists|i: int|
        0 <= i < entries.len() && (touches((#[trigger] entries[i]).0, kinds) || touches(
            entries[i].1,
            kinds,
        ))
}

/// What a write leaves behind, where `expected` is what had to be written:
/// the buffer has grown by it, or the error is the expected one.
pub open spec fn wrote(
    before: Seq<u8>,
    after: Seq<u8>,
    r: Result<(), PackError>,
    expected: Result<Seq<u8>, PackError>,
) -> bool {
    match expected {
        Ok(bytes) => r is Ok && after == before + bytes,
        Err(e) => r == Err::<(), PackError>(e),
    }
}

/// What stands in front of what was written stays in front of the
/// encoding of the items.
pub proof fn lemma_items_encoding_shift(
    items: Seq<Term>,
    from: int,
    depth: nat,
    before: Seq<u8>,
    written: Seq<u8>,
)
    ensures
        match items_encoding(items, from, depth, written) {
            Ok(bytes) => items_encoding(items, from, depth, before + written) == Ok::<
                Seq<u8>,
                PackError,
            >(before + bytes),
            Err(e) => items_encoding(items, from, depth, before + written) == Err::<
                Seq<u8>,
                PackError,
            >(e),
        },
    decreases items.len() - from,
{
    if 0 <= from < items.len() {
        match encoding(items[from], depth) {
            Err(e) => {},
            Ok(bytes) => {
                lemma_items_encoding_shift(items, from + 1, depth, before, written + bytes);
                assert(before + (written + bytes) =~= (before + written) + bytes);
            },
        }
    }
}

/// What stands in front of what was written stays in front of the
/// encoding of the entries.
pub proof fn lemma_entries_encoding_shift(
    entries: Seq<(Term, Term)>,
    from: int,
    depth: nat,
    before: Seq<u8>,
    written: Seq<u8>,
)
    ensures
        match entries_encoding(entries, from, depth, written) {
            Ok(bytes) => entries_encoding(entries, from, depth, before + written) == Ok::<
                Seq<u8>,
                PackError,
            >(before + bytes),
            Err(e) => entries_encoding(entries, from, depth, before + written) == Err::<
                Seq<u8>,
                PackError,
            >(e),
        },
    decreases entries.len() - from,
{
    if 0 <= from < entries.len() {
        match entry_encoding(entries[from], depth) {
            Err(e) => {},
            Ok(bytes) => {
                lemma_entries_encoding_shift(entries, from + 1, depth, before, written + bytes);
                assert(before + (written + bytes) =~= (before + written) + bytes);
            },
        }
    }
}

/// What the hooks gave while a value was written: for each application
/// object that has a hook, what the hook gave for it, at the place of the
/// object in the value.
pub ghost enum Trace {
    /// No hook was asked.
    Plain,
    /// The hook for an application object gave `made`; `then` is the trace
    /// of writing what it gave.
    Hooked { made: Result<Value, HookError>, then: Box<Trace> },
    /// The traces of the items of a list, of the values of a dictionary or
    /// of the fields of a structure, one for each.
    Parts(Seq<Trace>),
}

/// The traces of the parts of a value.
pub open spec fn parts_of(trace: Trace) -> Seq<Trace> {
    match trace {
        Trace::Parts(parts) => parts,
        _ => Seq::empty(),
    }
}

/// The kinds that have a hook.
pub open spec fn kinds_of<F>(hooks: Option<&DehydrationHooks<F>>) -> Set<u64> {
    match hooks {
        Some(hooks) => hooks.kinds(),
        None => Set::empty(),
    }
}

/// What the encoder writes for a value, or the error with which it stops,
/// given what the hooks gave.
///
/// A value without a hooked application object is written as
/// [`encoding`] says. An application object whose kind has no hook is not
/// supported. One whose kind has a hook is written as what the hook gave
/// for it, one level further down; if the hook gave an error, that error
/// comes back unchanged. Errors come in the order of the value: the first
/// part that cannot be written decides, and no hook is asked behind it.
pub open spec fn written_with(kinds: Set<u64>, t: Term, depth: nat, trace: Trace) -> Result<
    Seq<u8>,
    PackError,
>
    decreases depth, 0nat,
{
    match t {
        Term::Foreign(object) => if !kinds.contains(object.kind) {
            Err(PackError::Unsupported(Kind::Foreign(object.kind)))
        } else if depth == 0 {
            Err(PackError::SizeOverflow(Limit::Depth))
        } else {
            match trace {
                Trace::Hooked { made: Ok(replacement), then } => written_with(
                    kinds,
                    replacement@,
                    (depth - 1) as nat,
                    *then,
                ),
                Trace::Hooked { made: Err(e), .. } => Err(PackError::Hook(e)),
                // no trace that holds what the hooks gave comes here
                _ => Err(PackError::SizeOverflow(Limit::Depth)),
            }
        },
        Term::List(items) => match counted(Family::List, items.len()) {
            Err(e) => Err(e),
            Ok(header) => if depth == 0 {
                Err(PackError::SizeOverflow(Limit::Depth))
            } else {
                items_written_with(kinds, items, 0, (depth - 1) as nat, parts_of(trace), header)
            },
        },
        Term::Dict(entries) => match counted(Family::Dict, entries.len()) {
            Err(e) => Err(e),
            Ok(header) => if depth == 0 {
                Err(PackError::SizeOverflow(Limit::Depth))
            } else {
                entries_written_with(
                    kinds,
                    entries,
                    0,
                    (depth - 1) as nat,
                    parts_of(trace),
                    header,
                )
            },
        },
        Term::Structure(record) => if record.fields.len() > MAX_FIELDS {
            Err(PackError::SizeOverflow(Limit::Structure))
        } else if depth == 0 {
            Err(PackError::SizeOverflow(Limit::Depth))
        } else {
            items_written_with(
                kinds,
                record.fields,
                0,
                (depth - 1) as nat,
                parts_of(trace),
                struct_header(record.tag, record.fields.len()),
            )
        },
        _ => encoding(t, depth),
    }
}

/// `written`, then what the encoder writes for the items from index `from`
/// on; or the error of the first item that cannot be written.
pub open spec fn items_written_with(
    kinds: Set<u64>,
    items: Seq<Term>,
    from: int,
    depth: nat,
    traces: Seq<Trace>,
    written: Seq<u8>,
) -> Result<Seq<u8>, PackError>
    decreases depth, items.len() - from + 1,
{
    if from < 0 || from >= items.len() {
        Ok(written)
    } else {
        match written_with(kinds, items[from], depth, traces[from]) {
            Err(e) => Err(e),
            Ok(bytes) => items_written_with(kinds, items, from + 1, depth, traces, written + bytes),
        }
    }
}

/// What the encoder writes for one entry of a dictionary: its key, which
/// has to be a string and is never handed to a hook, then its value.
pub open spec fn entry_written_with(
    kinds: Set<u64>,
    entry: (Term, Term),
    depth: nat,
    trace: Trace,
) -> Result<Seq<u8>, PackError>
    decreases depth, 1nat,
{
    match entry.0 {
        Term::Str(s) => match framed(Family::Str, encode_utf8(s)) {
            Err(e) => Err(e),
            Ok(key) => match written_with(kinds, entry.1, depth, trace) {
                Err(e) => Err(e),
                Ok(value) => Ok(key + value),
            },
        },
        key => Err(PackError::InvalidMapKey(key.kind())),
    }
}

/// `written`, then what the encoder writes for the entries from index
/// `from` on; or the error of the first entry that cannot be written.
pub open spec fn entries_written_with(
    kinds: Set<u64>,
    entries: Seq<(Term, Term)>,
    from: int,
    depth: nat,
    traces: Seq<Trace>,
    written: Seq<u8>,
) -> Result<Seq<u8>, PackError>
    decreases depth, entries.len() - from + 2,
{
    if from < 0 || from >= entries.len() {
        Ok(written)
    } else {
        match entry_written_with(kinds, entries[from], depth, traces[from]) {
            Err(e) => Err(e),
            Ok(bytes) => entries_written_with(
                kinds,
                entries,
                from + 1,
                depth,
                traces,
                written + bytes,
            ),
        }
    }
}

/// Whether a trace holds what the hooks gave: at each application object
/// that the encoder comes to and whose kind has a hook, `made` is an
/// outcome of that hook for that object.
pub open spec fn follows<F: Fn(Foreign) -> Result<Value, HookError>>(
    hooks: Option<&DehydrationHooks<F>>,
    t: Term,
    depth: nat,
    trace: Trace,
) -> bool
    decreases depth, 0nat,
{
    match t {
        Term::Foreign(object) => kinds_of(hooks).contains(object.kind) && depth > 0 ==> {
            &&& trace is Hooked
            &&& call_ensures(hooks->Some_0.transform(object.kind), (object,), trace->made)
            &&& trace->made is Ok ==> follows(
                hooks,
                trace->made->Ok_0@,
                (depth - 1) as nat,
                *trace->then,
            )
        },
        Term::List(items) => items.len() <= MAX_SIZE && depth > 0 ==> items_follow(
            hooks,
            items,
            0,
            (depth - 1) as nat,
            parts_of(trace),
        ),
        Term::Dict(entries) => entries.len() <= MAX_SIZE && depth > 0 ==> entries_follow(
            hooks,
            entries,
            0,
            (depth - 1) as nat,
            parts_of(trace),
        ),
        Term::Structure(record) => record.fields.len() <= MAX_FIELDS && depth > 0
            ==> items_follow(hooks, record.fields, 0, (depth - 1) as nat, parts_of(trace)),
        _ => true,
    }
}

/// Whether the traces hold what the hooks gave for the items from index
/// `from` on, as far as the encoder comes.
pub open spec fn items_follow<F: Fn(Foreign) -> Result<Value, HookError>>(
    hooks: Option<&DehydrationHooks<F>>,
    items: Seq<Term>,
    from: int,
    depth: nat,
    traces: Seq<Trace>,
) -> bool
    decreases depth, items.len() - from + 1,
{
    if from < 0 || from >= items.len() {
        true
    } else {
        &&& follows(hooks, items[from], depth, traces[from])
        &&& written_with(kinds_of(hooks), items[from], depth, traces[from]) is Ok
            ==> items_follow(hooks, items, from + 1, depth, traces)
    }
}

/// Whether the traces hold what the hooks gave for the values of the
/// entries from index `from` on, as far as the encoder comes.
pub open spec fn entries_follow<F: Fn(Foreign) -> Result<Value, HookError>>(
    hooks: Option<&DehydrationHooks<F>>,
    entries: Seq<(Term, Term)>,
    from: int,
    depth: nat,
    traces: Seq<Trace>,
) -> bool
    decreases depth, entries.len() - from + 1,
{
    if from < 0 || from >= entries.len() {
        true
    } else {
        &&& entries[from].0 is Str && framed(
            Family::Str,
            encode_utf8(entries[from].0->Str_0),
        ) is Ok ==> follows(hooks, entries[from].1, depth, traces[from])
        &&& entry_written_with(kinds_of(hooks), entries[from], depth, traces[from]) is Ok
            ==> entries_follow(hooks, entries, from + 1, depth, traces)
    }
}

/// What a write has done, given the hooks: there is a trace of what the
/// hooks gave, and the write has done what [`written_with`] says for it.
pub open spec fn wrote_with<F: Fn(Foreign) -> Result<Value, HookError>>(
    hooks: Option<&DehydrationHooks<F>>,
    t: Term,
    depth: nat,
    before: Seq<u8>,
    after: Seq<u8>,
    r: Result<(), PackError>,
) -> bool {
    exists|trace: Trace| #[trigger]
        follows(hooks, t, depth, trace) && wrote(
            before,
            after,
            r,
            written_with(kinds_of(hooks), t, depth, trace),
        )
}

/// What a call has given, where `expected` is what it had to give: the
/// bytes, or the error.
pub open spec fn packed(
    r: Result<Vec<u8>, PackError>,
    expected: Result<Seq<u8>, PackError>,
) -> bool {
    match expected {
        Ok(bytes) => r is Ok && r->Ok_0@ == bytes,
        Err(e) => r == Err::<Vec<u8>, PackError>(e),
    }
}

/// Without hooks, no value holds an application object that has a hook.
pub proof fn lemma_untouched_without_hooks(t: Term)
    ensures
        !touches(t, Set::<u64>::empty()),
    decreases t,
{
    match t {
        Term::List(items) => {
            assert forall|i: int| 0 <= i < items.len() implies !touches(
                #[trigger] items[i],
                Set::<u64>::empty(),
            ) by {
                lemma_untouched_without_hooks(items[i]);
            }
        },
        Term::Dict(entries) => {
            assert forall|i: int| 0 <= i < entries.len() implies !touches(
                (#[trigger] entries[i]).0,
                Set::<u64>::empty(),
            ) && !touches(entries[i].1, Set::<u64>::empty()) by {
                lemma_untouched_without_hooks(entries[i].0);
                lemma_untouched_without_hooks(entries[i].1);
            }
        },
        Term::Structure(record) => {
            assert forall|i: int| 0 <= i < record.fields.len() implies !touches(
                #[trigger] record.fields[i],
                Set::<u64>::empty(),
            ) by {
                lemma_untouched_without_hooks(record.fields[i]);
            }
        },
        _ => {},
    }
}

/// What a write of items has done, given the hooks: as [`wrote_with`], with
/// the buffer as a whole in place of what was added to it.
pub open spec fn wrote_items_with<F: Fn(Foreign) -> Result<Value, HookError>>(
    hooks: Option<&DehydrationHooks<F>>,
    items: Seq<Term>,
    depth: nat,
    before: Seq<u8>,
    after: Seq<u8>,
    r: Result<(), PackError>,
) -> bool {
    exists|traces: Seq<Trace>| #[trigger]
        items_follow(hooks, items, 0, depth, traces) && (match items_written_with(
            kinds_of(hooks),
            items,
            0,
            depth,
            traces,
            before,
        ) {
            Ok(bytes) => r is Ok && after == bytes,
            Err(e) => r == Err::<(), PackError>(e),
        })
}

/// What a write of entries has done, given the hooks: as
/// [`wrote_items_with`].
pub open spec fn wrote_entries_with<F: Fn(Foreign) -> Result<Value, HookError>>(
    hooks: Option<&DehydrationHooks<F>>,
    entries: Seq<(Term, Term)>,
    depth: nat,
    before: Seq<u8>,
    after: Seq<u8>,
    r: Result<(), PackError>,
) -> bool {
    exists|traces: Seq<Trace>| #[trigger]
        entries_follow(hooks, entries, 0, depth, traces) && (match entries_written_with(
            kinds_of(hooks),
            entries,
            0,
            depth,
            traces,
            before,
        ) {
            Ok(bytes) => r is Ok && after == bytes,
            Err(e) => r == Err::<(), PackError>(e),
        })
}

/// What stands in front of what was written stays in front of what the
/// encoder writes for the items.
pub proof fn lemma_items_written_shift(
    kinds: Set<u64>,
    items: Seq<Term>,
    from: int,
    depth: nat,
    traces: Seq<Trace>,
    before: Seq<u8>,
    written: Seq<u8>,
)
    ensures
        match items_written_with(kinds, items, from, depth, traces, written) {
            Ok(bytes) => items_written_with(kinds, items, from, depth, traces, before + written)
                == Ok::<Seq<u8>, PackError>(before + bytes),
            Err(e) => items_written_with(kinds, items, from, depth, traces, before + written)
                == Err::<Seq<u8>, PackError>(e),
        },
    decreases items.len() - from,
{
    if 0 <= from < items.len() {
        match written_with(kinds, items[from], depth, traces[from]) {
            Err(e) => {},
            Ok(bytes) => {
                lemma_items_written_shift(
                    kinds,
                    items,
                    from + 1,
                    depth,
                    traces,
                    before,
                    written + bytes,
                );
                assert(before + (written + bytes) =~= (before + written) + bytes);
            },
        }
    }
}

/// What stands in front of what was written stays in front of what the
/// encoder writes for the entries.
pub proof fn lemma_entries_written_shift(
    kinds: Set<u64>,
    entries: Seq<(Term, Term)>,
    from: int,
    depth: nat,
    traces: Seq<Trace>,
    before: Seq<u8>,
    written: Seq<u8>,
)
    ensures
        match entries_written_with(kinds, entries, from, depth, traces, written) {
            Ok(bytes) => entries_written_with(
                kinds,
                entries,
                from,
                depth,
                traces,
                before + written,
            ) == Ok::<Seq<u8>, PackError>(before + bytes),
            Err(e) => entries_written_with(
                kinds,
                entries,
                from,
                depth,
                traces,
                before + written,
            ) == Err::<Seq<u8>, PackError>(e),
        },
    decreases entries.len() - from,
{
    if 0 <= from < entries.len() {
        match entry_written_with(kinds, entries[from], depth, traces[from]) {
            Err(e) => {},
            Ok(bytes) => {
                lemma_entries_written_shift(
                    kinds,
                    entries,
                    from + 1,
                    depth,
                    traces,
                    before,
                    written + bytes,
                );
                assert(before + (written + bytes) =~= (before + written) + bytes);
            },
        }
    }
}

/// Items that were written one after the other: what the encoder writes
/// for all the items is what it writes for those that are left, behind
/// what it wrote for the others; and their traces hold what the hooks gave
/// if those of the items that are left do.
pub proof fn lemma_items_written_so_far<F: Fn(Foreign) -> Result<Value, HookError>>(
    hooks: Option<&DehydrationHooks<F>>,
    items: Seq<Term>,
    depth: nat,
    traces: Seq<Trace>,
    buffers: Seq<Seq<u8>>,
    from: int,
    to: int,
)
    requires
        0 <= from <= to <= items.len(),
        to < buffers.len(),
        forall|j: int|
            from <= j < to ==> {
                &&& follows(hooks, #[trigger] items[j], depth, traces[j])
                &&& written_with(kinds_of(hooks), items[j], depth, traces[j]) is Ok
                &&& buffers[j + 1] == buffers[j] + written_with(
                    kinds_of(hooks),
                    items[j],
                    depth,
                    traces[j],
                )->Ok_0
            },
    ensures
        items_written_with(kinds_of(hooks), items, from, depth, traces, buffers[from])
            == items_written_with(kinds_of(hooks), items, to, depth, traces, buffers[to]),
        items_follow(hooks, items, to, depth, traces) ==> items_follow(
            hooks,
            items,
            from,
            depth,
            traces,
        ),
    decreases to - from,
{
    if from < to {
        assert(follows(hooks, items[from], depth, traces[from]));
        lemma_items_written_so_far(hooks, items, depth, traces, buffers, from + 1, to);
    }
}

/// Entries that were written one after the other: as
/// [`lemma_items_written_so_far`].
pub proof fn lemma_entries_written_so_far<F: Fn(Foreign) -> Result<Value, HookError>>(
    hooks: Option<&DehydrationHooks<F>>,
    entries: Seq<(Term, Term)>,
    depth: nat,
    traces: Seq<Trace>,
    buffers: Seq<Seq<u8>>,
    from: int,
    to: int,
)
    requires
        0 <= from <= to <= entries.len(),
        to < buffers.len(),
        forall|j: int|
            from <= j < to ==> {
                &&& follows(hooks, (#[trigger] entries[j]).1, depth, traces[j])
                &&& entry_written_with(kinds_of(hooks), entries[j], depth, traces[j]) is Ok
                &&& buffers[j + 1] == buffers[j] + entry_written_with(
                    kinds_of(hooks),
                    entries[j],
                    depth,
                    traces[j],
                )->Ok_0
            },
    ensures
        entries_written_with(kinds_of(hooks), entries, from, depth, traces, buffers[from])
            == entries_written_with(kinds_of(hooks), entries, to, depth, traces, buffers[to]),
        entries_follow(hooks, entries, to, depth, traces) ==> entries_follow(
            hooks,
            entries,
            from,
            depth,
            traces,
        ),
    decreases to - from,
{
    if from < to {
        assert(follows(hooks, entries[from].1, depth, traces[from]));
        lemma_entries_written_so_far(hooks, entries, depth, traces, buffers, from + 1, to);
    }
}

} // verus!
