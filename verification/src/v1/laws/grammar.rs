//! The marker grammar and the limits of the format, on both sides.

use crate::v1::decoding::{
    byte_at, decode_entries, decode_items, decode_key, decode_size, decode_uint, decode_value,
    keys_of, put,
};
use crate::v1::encoding::{
    encoding, entries_encoding, entry_encoding, items_encoding, size_header, struct_header,
};
use crate::v1::pack::{Limit, PackError};
use crate::v1::unpack::UnpackError;
use crate::v1::{classify, Family, Marker, MAX_FIELDS, MAX_SIZE, STRUCT_16, STRUCT_8};
use crate::value::{all_well_formed, Record, Term};
use vstd::prelude::*;

verus! {

/// The bytes that the format does not use as markers.
pub open spec fn reserved(marker: u8) -> bool {
    ||| 0xC4 <= marker <= 0xC7
    ||| marker == 0xCF
    ||| marker == 0xD3
    ||| marker == 0xD7
    ||| marker == 0xDB
    ||| 0xDE <= marker <= 0xEF
}

/// Unknown marker: where a value is due and the byte there is one that the
/// format does not use, the decoder reports that byte as an unknown
/// marker, whatever follows and however deep it stands.
pub proof fn lemma_unknown_marker(bytes: Seq<u8>, pos: int, depth: nat)
    requires
        0 <= pos < bytes.len(),
        reserved(bytes[pos]),
    ensures
        decode_value(bytes, pos, depth) == Err::<(Term, int), UnpackError>(
            UnpackError::UnknownMarker { marker: bytes[pos] },
        ),
{
}

/// Every byte is a marker of the format or one of the reserved bytes.
pub proof fn lemma_reserved_bytes(marker: u8)
    ensures
        classify(marker) is Reserved <==> reserved(marker),
{
}

/// Map key typing, on the decoder's side: where the key of a dictionary
/// entry is due and the marker there is not that of a string, the decoder
/// reports that marker as an invalid key.
pub proof fn lemma_key_must_be_string(bytes: Seq<u8>, pos: int)
    requires
        0 <= pos < bytes.len(),
        !(classify(bytes[pos]) matches Marker::Sized(Family::Str, _)),
    ensures
        decode_key(bytes, pos) == Err::<(Seq<char>, int), UnpackError>(
            UnpackError::InvalidMapKey { marker: bytes[pos] },
        ),
{
}

/// Map key typing, on the encoder's side: a dictionary entry whose key is
/// not a string has no encoding, and the reason names the kind of the key.
pub proof fn lemma_key_kind(entry: (Term, Term), depth: nat)
    requires
        !(entry.0 is Str),
    ensures
        entry_encoding(entry, depth) == Err::<Seq<u8>, PackError>(
            PackError::InvalidMapKey(entry.0.kind()),
        ),
{
}

/// A dictionary whose first entries have encodings and whose next entry
/// has a key that is not a string has no encoding, and the reason names the
/// kind of that key.
pub proof fn lemma_dict_key_kind(entries: Seq<(Term, Term)>, at: int, depth: nat)
    requires
        depth > 0,
        entries.len() <= MAX_SIZE,
        0 <= at < entries.len(),
        forall|i: int|
            0 <= i < at ==> entry_encoding(#[trigger] entries[i], (depth - 1) as nat) is Ok,
        !(entries[at].0 is Str),
    ensures
        encoding(Term::Dict(entries), depth) == Err::<Seq<u8>, PackError>(
            PackError::InvalidMapKey(entries[at].0.kind()),
        ),
{
    lemma_entries_fail_at(
        entries,
        0,
        at,
        (depth - 1) as nat,
        size_header(Family::Dict, entries.len()),
    );
}

/// The entries from `from` on have no encoding if those before the entry
/// `at` have one and that entry has none; the reason is that entry's.
pub proof fn lemma_entries_fail_at(
    entries: Seq<(Term, Term)>,
    from: int,
    at: int,
    depth: nat,
    written: Seq<u8>,
)
    requires
        0 <= from <= at < entries.len(),
        forall|i: int| from <= i < at ==> entry_encoding(#[trigger] entries[i], depth) is Ok,
        entry_encoding(entries[at], depth) is Err,
    ensures
        entries_encoding(entries, from, depth, written) == Err::<Seq<u8>, PackError>(
            entry_encoding(entries[at], depth)->Err_0,
        ),
    decreases at - from,
{
    if from < at {
        let entry = entry_encoding(entries[from], depth)->Ok_0;
        lemma_entries_fail_at(entries, from + 1, at, depth, written + entry);
    }
}

/// Structure field-count boundary, on the encoder's side: a structure of
/// more than fifteen fields has no encoding, whatever its fields are; one
/// of at most fifteen fields has one if its fields have.
pub proof fn lemma_structure_limit(record: Record, depth: nat)
    ensures
        record.fields.len() > MAX_FIELDS ==> encoding(Term::Structure(record), depth) == Err::<
            Seq<u8>,
            PackError,
        >(PackError::SizeOverflow(Limit::Structure)),
        record.fields.len() <= MAX_FIELDS && depth > 0 && (forall|i: int|
            0 <= i < record.fields.len() ==> encoding(
                #[trigger] record.fields[i],
                (depth - 1) as nat,
            ) is Ok) ==> encoding(Term::Structure(record), depth) is Ok,
{
    if record.fields.len() <= MAX_FIELDS && depth > 0 && (forall|i: int|
        0 <= i < record.fields.len() ==> encoding(
            #[trigger] record.fields[i],
            (depth - 1) as nat,
        ) is Ok) {
        lemma_items_succeed(
            record.fields,
            0,
            (depth - 1) as nat,
            struct_header(record.tag, record.fields.len()),
        );
    }
}

/// Items that have encodings have one together.
pub proof fn lemma_items_succeed(items: Seq<Term>, from: int, depth: nat, written: Seq<u8>)
    requires
        0 <= from <= items.len(),
        forall|i: int| from <= i < items.len() ==> encoding(#[trigger] items[i], depth) is Ok,
    ensures
        items_encoding(items, from, depth, written) is Ok,
    decreases items.len() - from,
{
    if from < items.len() {
        lemma_items_succeed(items, from + 1, depth, written + encoding(items[from], depth)->Ok_0);
    }
}

/// Structure field-count boundary, on the decoder's side: behind the
/// marker of a wide structure, its field count in one or two bytes and its
/// tag, the decoder reads as many fields as the count says, more than
/// fifteen too, and gives the structure.
pub proof fn lemma_wide_structure(bytes: Seq<u8>, pos: int, depth: nat, record: Record, end: int)
    requires
        depth > 0,
        0 <= pos,
        byte_at(bytes, pos) == Ok::<u8, UnpackError>(STRUCT_8) || byte_at(bytes, pos) == Ok::<
            u8,
            UnpackError,
        >(STRUCT_16),
        ({
            let width: nat = if bytes[pos] == STRUCT_8 { 1 } else { 2 };
            &&& decode_uint(bytes, pos + 1, width) == Ok::<(nat, int), UnpackError>(
                (record.fields.len(), pos + 1 + width),
            )
            &&& byte_at(bytes, pos + 1 + width) == Ok::<u8, UnpackError>(record.tag)
            &&& decode_items(
                bytes,
                pos + 2 + width,
                record.fields.len(),
                (depth - 1) as nat,
                Seq::empty(),
            ) == Ok::<(Seq<Term>, int), UnpackError>((record.fields, end))
        }),
    ensures
        decode_value(bytes, pos, depth) == Ok::<(Term, int), UnpackError>(
            (Term::Structure(record), end),
        ),
{
}

/// What the decoder gives is well formed: the keys of every dictionary in
/// it are strings, and no two entries of a dictionary have the same key.
pub proof fn lemma_decoded_well_formed(bytes: Seq<u8>, pos: int, depth: nat)
    requires
        decode_value(bytes, pos, depth) is Ok,
    ensures
        decode_value(bytes, pos, depth)->Ok_0.0.well_formed(),
    decreases depth, 3nat,
{
    let marker = bytes[pos];
    match classify(marker) {
        Marker::Sized(Family::List, class) => {
            let (n, start) = decode_size(bytes, pos + 1, marker, class)->Ok_0;
            lemma_items_well_formed(bytes, start, n, (depth - 1) as nat, Seq::empty());
        },
        Marker::Sized(Family::Dict, class) => {
            let (n, start) = decode_size(bytes, pos + 1, marker, class)->Ok_0;
            lemma_entries_well_formed(bytes, start, n, (depth - 1) as nat, Seq::empty());
        },
        Marker::Structure(class) => {
            let (n, start) = decode_size(bytes, pos + 1, marker, class)->Ok_0;
            lemma_items_well_formed(bytes, start + 1, n, (depth - 1) as nat, Seq::empty());
        },
        _ => {},
    }
}

/// Behind well-formed values, the decoder reads well-formed values.
pub proof fn lemma_items_well_formed(
    bytes: Seq<u8>,
    pos: int,
    n: nat,
    depth: nat,
    items: Seq<Term>,
)
    requires
        all_well_formed(items),
        decode_items(bytes, pos, n, depth, items) is Ok,
    ensures
        all_well_formed(decode_items(bytes, pos, n, depth, items)->Ok_0.0),
    decreases depth, n + 4,
{
    if n > 0 {
        let (item, next) = decode_value(bytes, pos, depth)->Ok_0;
        lemma_decoded_well_formed(bytes, pos, depth);
        lemma_items_well_formed(bytes, next, (n - 1) as nat, depth, items.push(item));
    }
}

/// Into a well-formed dictionary, the decoder puts entries so that it
/// stays well formed.
pub proof fn lemma_entries_well_formed(
    bytes: Seq<u8>,
    pos: int,
    n: nat,
    depth: nat,
    entries: Seq<(Term, Term)>,
)
    requires
        Term::Dict(entries).well_formed(),
        decode_entries(bytes, pos, n, depth, entries) is Ok,
    ensures
        Term::Dict(decode_entries(bytes, pos, n, depth, entries)->Ok_0.0).well_formed(),
    decreases depth, n + 4,
{
    if n > 0 {
        let (key, start) = decode_key(bytes, pos)->Ok_0;
        let (value, next) = decode_value(bytes, start, depth)->Ok_0;
        lemma_decoded_well_formed(bytes, start, depth);
        lemma_put_well_formed(entries, key, value);
        lemma_entries_well_formed(
            bytes,
            next,
            (n - 1) as nat,
            depth,
            put(entries, Term::Str(key), value),
        );
    }
}

/// Setting a string key of a well-formed dictionary to a well-formed
/// value leaves it well formed.
pub proof fn lemma_put_well_formed(entries: Seq<(Term, Term)>, key: Seq<char>, value: Term)
    requires
        Term::Dict(entries).well_formed(),
        value.well_formed(),
    ensures
        Term::Dict(put(entries, Term::Str(key), value)).well_formed(),
{
    let after = put(entries, Term::Str(key), value);
    keys_of(entries).index_of_first_ensures(Term::Str(key));
    match keys_of(entries).index_of_first(Term::Str(key)) {
        Some(place) => {
            assert(keys_of(entries)[place] == entries[place].0);
            assert forall|i: int, j: int| 0 <= i < j < after.len() implies (#[trigger] after[i]).0
                != (#[trigger] after[j]).0 by {
                assert(entries[i].0 != entries[j].0);
            }
        },
        None => {
            assert forall|i: int, j: int| 0 <= i < j < after.len() implies (#[trigger] after[i]).0
                != (#[trigger] after[j]).0 by {
                if j == entries.len() {
                    assert(keys_of(entries)[i] == entries[i].0);
                } else {
                    assert(entries[i].0 != entries[j].0);
                }
            }
        },
    }
}

} // verus!
