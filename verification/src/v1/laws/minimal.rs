//! Minimal encoding: nothing that the decoder reads as a value is shorter
//! than what the encoder writes for it.

use crate::v1::decoding::{
    byte_at, decode_entries, decode_items, decode_key, decode_size, decode_value, keys_of, put,
};
use crate::v1::encoding::{
    encoding, entries_encoding, entry_encoding, int_encoding, items_encoding, size_header,
    struct_header,
};
use crate::v1::wire::{
    be_value, lemma_be_bytes_len, lemma_be_value_bytes, lemma_radix, lemma_unsigned_round_trip,
    to_unsigned,
};
use crate::v1::{
    capacity_of, classify, size_class_for, width_of, Family, Marker, SizeClass, MAX_SIZE,
};
use crate::value::Term;
use vstd::prelude::*;
use vstd::utf8::encode_utf8;

verus! {

/// Minimal encoding: the encoder writes no more bytes for a value than
/// any bytes have from which the decoder reads that value.
pub proof fn lemma_minimal_encoding(bytes: Seq<u8>, pos: int, depth: nat, limit: nat)
    requires
        decode_value(bytes, pos, depth) is Ok,
        encoding(decode_value(bytes, pos, depth)->Ok_0.0, limit) is Ok,
    ensures
        pos + encoding(decode_value(bytes, pos, depth)->Ok_0.0, limit)->Ok_0.len()
            <= decode_value(bytes, pos, depth)->Ok_0.1,
{
    lemma_decoded_len(bytes, pos, depth);
    lemma_encoded_len(decode_value(bytes, pos, depth)->Ok_0.0, limit);
}

/// Minimal encoding of lengths: the encoder's header for a length is no
/// longer than any header that the decoder reads as the same family and
/// length.
pub proof fn lemma_header_minimal(bytes: Seq<u8>, pos: int, family: Family, n: nat)
    requires
        n <= MAX_SIZE,
        byte_at(bytes, pos) is Ok,
        classify(bytes[pos]) matches Marker::Sized(f, class) && f == family && decode_size(
            bytes,
            pos + 1,
            bytes[pos],
            class,
        ) is Ok && decode_size(bytes, pos + 1, bytes[pos], class)->Ok_0.0 == n,
    ensures
        pos + size_header(family, n).len() <= decode_size(
            bytes,
            pos + 1,
            bytes[pos],
            classify(bytes[pos])->Sized_1,
        )->Ok_0.1,
{
    let class = classify(bytes[pos])->Sized_1;
    lemma_be_bytes_len(n, width_of(size_class_for(family, n)));
    lemma_radix();
    if class != SizeClass::Tiny {
        let digits = bytes.subrange(pos + 1, pos + 1 + width_of(class));
        lemma_be_value_bytes(digits);
    }
}

/// Minimal encoding of integers: the encoder's bytes for an integer are no
/// more than those of any form that the decoder reads as that integer.
pub proof fn lemma_int_minimal(bytes: Seq<u8>, pos: int, depth: nat, i: i64)
    requires
        decode_value(bytes, pos, depth) is Ok,
        decode_value(bytes, pos, depth)->Ok_0.0 == Term::Int(i),
    ensures
        pos + int_encoding(i).len() <= decode_value(bytes, pos, depth)->Ok_0.1,
{
    let marker = bytes[pos];
    lemma_radix();
    match classify(marker) {
        Marker::Int(width) => {
            lemma_be_bytes_len(to_unsigned(i as int, 1), 1);
            lemma_be_bytes_len(to_unsigned(i as int, 2), 2);
            lemma_be_bytes_len(to_unsigned(i as int, 4), 4);
            lemma_be_bytes_len(to_unsigned(i as int, 8), 8);
            let digits = bytes.subrange(pos + 1, pos + 1 + width);
            lemma_be_value_bytes(digits);
            lemma_unsigned_round_trip(be_value(digits), width);
        },
        _ => {},
    }
}

/// The size class that the encoder chooses holds the length, and no
/// smaller class of the family does.
pub proof fn lemma_size_class_smallest(family: Family, n: nat, class: SizeClass)
    requires
        n <= capacity_of(class),
        !(family == Family::Bytes && class == SizeClass::Tiny),
    ensures
        n <= capacity_of(size_class_for(family, n)),
        width_of(size_class_for(family, n)) <= width_of(class),
        family == Family::Bytes ==> size_class_for(family, n) != SizeClass::Tiny,
{
}

/// How long the encoder's header for a length is.
pub open spec fn header_len(family: Family, n: nat) -> nat {
    1 + width_of(size_class_for(family, n))
}

/// How many bytes the encoder writes for a value that it can write.
pub open spec fn encoded_len(t: Term) -> nat
    decreases t, 0nat,
{
    match t {
        Term::Null => 1,
        Term::Bool(_) => 1,
        Term::Int(i) => int_encoding(i).len(),
        Term::Float(_) => 9,
        Term::Str(text) => header_len(Family::Str, encode_utf8(text).len()) + encode_utf8(
            text,
        ).len(),
        Term::Bytes(payload) => header_len(Family::Bytes, payload.len()) + payload.len(),
        Term::List(items) => header_len(Family::List, items.len()) + items_len(items),
        Term::Dict(entries) => header_len(Family::Dict, entries.len()) + entries_len(entries),
        Term::Structure(record) => 2 + items_len(record.fields),
        Term::Foreign(_) => 0,
    }
}

/// How many bytes the encoder writes for items.
pub open spec fn items_len(items: Seq<Term>) -> nat
    decreases items, items.len(),
{
    if items.len() == 0 {
        0
    } else {
        items_len(items.drop_last()) + encoded_len(items.last())
    }
}

/// How many bytes the encoder writes for one entry of a dictionary.
pub open spec fn entry_len(entry: (Term, Term)) -> nat
    decreases entry, 0nat,
{
    encoded_len(entry.0) + encoded_len(entry.1)
}

/// How many bytes the encoder writes for the entries of a dictionary.
pub open spec fn entries_len(entries: Seq<(Term, Term)>) -> nat
    decreases entries, entries.len(),
{
    if entries.len() == 0 {
        0
    } else {
        entries_len(entries.drop_last()) + entry_len(entries.last())
    }
}

/// The encoding of a value is as long as [`encoded_len`] says.
pub proof fn lemma_encoded_len(t: Term, depth: nat)
    requires
        encoding(t, depth) is Ok,
    ensures
        encoding(t, depth)->Ok_0.len() == encoded_len(t),
    decreases depth, 0nat,
{
    match t {
        Term::Float(bits) => {
            lemma_be_bytes_len(bits as nat, 8);
        },
        Term::Str(text) => {
            lemma_header_len(Family::Str, encode_utf8(text).len());
        },
        Term::Bytes(payload) => {
            lemma_header_len(Family::Bytes, payload.len());
        },
        Term::List(items) => {
            let header = size_header(Family::List, items.len());
            lemma_header_len(Family::List, items.len());
            lemma_items_encoded_len(items, 0, (depth - 1) as nat, header);
            assert(items.take(0) =~= Seq::empty());
        },
        Term::Dict(entries) => {
            let header = size_header(Family::Dict, entries.len());
            lemma_header_len(Family::Dict, entries.len());
            lemma_entries_encoded_len(entries, 0, (depth - 1) as nat, header);
            assert(entries.take(0) =~= Seq::empty());
        },
        Term::Structure(record) => {
            let header = struct_header(record.tag, record.fields.len());
            lemma_items_encoded_len(record.fields, 0, (depth - 1) as nat, header);
            assert(record.fields.take(0) =~= Seq::empty());
        },
        _ => {},
    }
}

/// The encoding of items is as long as [`items_len`] says.
pub proof fn lemma_items_encoded_len(items: Seq<Term>, from: int, depth: nat, written: Seq<u8>)
    requires
        0 <= from <= items.len(),
        items_encoding(items, from, depth, written) is Ok,
    ensures
        items_encoding(items, from, depth, written)->Ok_0.len() + items_len(items.take(from))
            == written.len() + items_len(items),
    decreases depth, items.len() - from + 1,
{
    if from < items.len() {
        let item = encoding(items[from], depth)->Ok_0;
        lemma_encoded_len(items[from], depth);
        lemma_items_encoded_len(items, from + 1, depth, written + item);
        lemma_items_len_push(items.take(from), items[from]);
        assert(items.take(from).push(items[from]) =~= items.take(from + 1));
    } else {
        assert(items.take(from) =~= items);
    }
}

/// The encoding of entries is as long as [`entries_len`] says.
pub proof fn lemma_entries_encoded_len(
    entries: Seq<(Term, Term)>,
    from: int,
    depth: nat,
    written: Seq<u8>,
)
    requires
        0 <= from <= entries.len(),
        entries_encoding(entries, from, depth, written) is Ok,
    ensures
        entries_encoding(entries, from, depth, written)->Ok_0.len() + entries_len(
            entries.take(from),
        ) == written.len() + entries_len(entries),
    decreases depth, entries.len() - from + 1,
{
    if from < entries.len() {
        let entry = entry_encoding(entries[from], depth)->Ok_0;
        let text = entries[from].0->Str_0;
        lemma_header_len(Family::Str, encode_utf8(text).len());
        lemma_encoded_len(entries[from].1, depth);
        lemma_entries_encoded_len(entries, from + 1, depth, written + entry);
        lemma_entries_len_push(entries.take(from), entries[from]);
        assert(entries.take(from).push(entries[from]) =~= entries.take(from + 1));
    } else {
        assert(entries.take(from) =~= entries);
    }
}

/// The encoder needs no more bytes for a value than the decoder read for
/// it.
pub proof fn lemma_decoded_len(bytes: Seq<u8>, pos: int, depth: nat)
    requires
        decode_value(bytes, pos, depth) is Ok,
    ensures
        pos + encoded_len(decode_value(bytes, pos, depth)->Ok_0.0) <= decode_value(
            bytes,
            pos,
            depth,
        )->Ok_0.1,
    decreases depth, 3nat,
{
    let marker = bytes[pos];
    let (t, end) = decode_value(bytes, pos, depth)->Ok_0;
    match classify(marker) {
        Marker::TinyInt => {
            lemma_int_minimal(bytes, pos, depth, t->Int_0);
        },
        Marker::Int(_) => {
            lemma_int_minimal(bytes, pos, depth, t->Int_0);
        },
        Marker::Sized(Family::List, class) => {
            let (n, start) = decode_size(bytes, pos + 1, marker, class)->Ok_0;
            lemma_size_bound(bytes, pos + 1, marker, class);
            lemma_header_fits(Family::List, n, class);
            lemma_items_decoded_len(bytes, start, n, (depth - 1) as nat, Seq::empty());
        },
        Marker::Sized(Family::Dict, class) => {
            let (n, start) = decode_size(bytes, pos + 1, marker, class)->Ok_0;
            lemma_size_bound(bytes, pos + 1, marker, class);
            lemma_header_fits(Family::Dict, n, class);
            lemma_entries_decoded_len(bytes, start, n, (depth - 1) as nat, Seq::empty());
            lemma_header_len_grows(Family::Dict, t->Dict_0.len(), n);
        },
        Marker::Sized(_, _) => {
            lemma_payload_len(bytes, pos, depth);
        },
        Marker::Structure(class) => {
            let (n, start) = decode_size(bytes, pos + 1, marker, class)->Ok_0;
            lemma_size_bound(bytes, pos + 1, marker, class);
            lemma_items_decoded_len(bytes, start + 1, n, (depth - 1) as nat, Seq::empty());
        },
        _ => {},
    }
}

/// The encoder needs no more bytes for a run of values than the decoder
/// read for them.
pub proof fn lemma_items_decoded_len(
    bytes: Seq<u8>,
    pos: int,
    n: nat,
    depth: nat,
    items: Seq<Term>,
)
    requires
        decode_items(bytes, pos, n, depth, items) is Ok,
    ensures
        decode_items(bytes, pos, n, depth, items)->Ok_0.0.len() == items.len() + n,
        pos + items_len(decode_items(bytes, pos, n, depth, items)->Ok_0.0) <= decode_items(
            bytes,
            pos,
            n,
            depth,
            items,
        )->Ok_0.1 + items_len(items),
    decreases depth, n + 4,
{
    if n > 0 {
        let (item, next) = decode_value(bytes, pos, depth)->Ok_0;
        lemma_decoded_len(bytes, pos, depth);
        lemma_items_len_push(items, item);
        lemma_items_decoded_len(bytes, next, (n - 1) as nat, depth, items.push(item));
    }
}

/// The encoder needs no more bytes for the entries of a dictionary than
/// the decoder read for them, repeated keys included.
pub proof fn lemma_entries_decoded_len(
    bytes: Seq<u8>,
    pos: int,
    n: nat,
    depth: nat,
    entries: Seq<(Term, Term)>,
)
    requires
        decode_entries(bytes, pos, n, depth, entries) is Ok,
    ensures
        decode_entries(bytes, pos, n, depth, entries)->Ok_0.0.len() <= entries.len() + n,
        pos + entries_len(decode_entries(bytes, pos, n, depth, entries)->Ok_0.0)
            <= decode_entries(bytes, pos, n, depth, entries)->Ok_0.1 + entries_len(entries),
    decreases depth, n + 4,
{
    if n > 0 {
        let (key, start) = decode_key(bytes, pos)->Ok_0;
        let (value, next) = decode_value(bytes, start, depth)->Ok_0;
        let entry = (Term::Str(key), value);
        lemma_key_len(bytes, pos);
        lemma_decoded_len(bytes, start, depth);
        keys_of(entries).index_of_first_ensures(Term::Str(key));
        match keys_of(entries).index_of_first(Term::Str(key)) {
            Some(at) => {
                lemma_entries_len_update(entries, at, entry);
            },
            None => {
                lemma_entries_len_push(entries, entry);
            },
        }
        lemma_entries_decoded_len(
            bytes,
            next,
            (n - 1) as nat,
            depth,
            put(entries, Term::Str(key), value),
        );
    }
}

/// The encoder needs no more bytes for a key than the decoder read for it.
pub proof fn lemma_key_len(bytes: Seq<u8>, pos: int)
    requires
        decode_key(bytes, pos) is Ok,
    ensures
        pos + encoded_len(Term::Str(decode_key(bytes, pos)->Ok_0.0)) <= decode_key(
            bytes,
            pos,
        )->Ok_0.1,
{
    let marker = bytes[pos];
    let class = classify(marker)->Sized_1;
    let (n, start) = decode_size(bytes, pos + 1, marker, class)->Ok_0;
    lemma_size_bound(bytes, pos + 1, marker, class);
    lemma_header_fits(Family::Str, n, class);
    vstd::utf8::decode_utf8_encode_utf8(bytes.subrange(start, start + n));
}

/// The encoder needs no more bytes for a string or a byte sequence than
/// the decoder read for it.
pub proof fn lemma_payload_len(bytes: Seq<u8>, pos: int, depth: nat)
    requires
        decode_value(bytes, pos, depth) is Ok,
        classify(bytes[pos]) matches Marker::Sized(family, _) && (family == Family::Str || family
            == Family::Bytes),
    ensures
        pos + encoded_len(decode_value(bytes, pos, depth)->Ok_0.0) <= decode_value(
            bytes,
            pos,
            depth,
        )->Ok_0.1,
{
    let marker = bytes[pos];
    let family = classify(marker)->Sized_0;
    let class = classify(marker)->Sized_1;
    let (n, start) = decode_size(bytes, pos + 1, marker, class)->Ok_0;
    lemma_size_bound(bytes, pos + 1, marker, class);
    lemma_header_fits(family, n, class);
    if family == Family::Str {
        vstd::utf8::decode_utf8_encode_utf8(bytes.subrange(start, start + n));
    }
}

/// The length that a marker announces fits its size class, and stands in as
/// many bytes as the class has.
pub proof fn lemma_size_bound(bytes: Seq<u8>, pos: int, marker: u8, class: SizeClass)
    requires
        decode_size(bytes, pos, marker, class) is Ok,
    ensures
        decode_size(bytes, pos, marker, class)->Ok_0.0 <= capacity_of(class),
        decode_size(bytes, pos, marker, class)->Ok_0.1 == pos + width_of(class),
{
    lemma_radix();
    if class != SizeClass::Tiny {
        lemma_be_value_bytes(bytes.subrange(pos, pos + width_of(class)));
    }
}

/// A length that a size class holds needs no longer header than that of
/// the class.
pub proof fn lemma_header_fits(family: Family, n: nat, class: SizeClass)
    requires
        n <= capacity_of(class),
        !(family == Family::Bytes && class == SizeClass::Tiny),
    ensures
        header_len(family, n) <= 1 + width_of(class),
{
}

/// A smaller length needs no longer header.
pub proof fn lemma_header_len_grows(family: Family, smaller: nat, larger: nat)
    requires
        smaller <= larger,
    ensures
        header_len(family, smaller) <= header_len(family, larger),
{
}

/// The header that the encoder writes for a length is as long as
/// [`header_len`] says.
pub proof fn lemma_header_len(family: Family, n: nat)
    ensures
        size_header(family, n).len() == header_len(family, n),
{
    lemma_be_bytes_len(n, width_of(size_class_for(family, n)));
}

/// One more item adds its length.
pub proof fn lemma_items_len_push(items: Seq<Term>, item: Term)
    ensures
        items_len(items.push(item)) == items_len(items) + encoded_len(item),
{
    assert(items.push(item).drop_last() =~= items);
}

/// One more entry adds its length.
pub proof fn lemma_entries_len_push(entries: Seq<(Term, Term)>, entry: (Term, Term))
    ensures
        entries_len(entries.push(entry)) == entries_len(entries) + entry_len(entry),
{
    assert(entries.push(entry).drop_last() =~= entries);
}

/// An entry that takes the place of another adds its length and takes
/// away the length of the other.
pub proof fn lemma_entries_len_update(entries: Seq<(Term, Term)>, at: int, entry: (Term, Term))
    requires
        0 <= at < entries.len(),
    ensures
        entries_len(entries.update(at, entry)) + entry_len(entries[at]) == entries_len(entries)
            + entry_len(entry),
    decreases entries.len(),
{
    if at == entries.len() - 1 {
        assert(entries.update(at, entry).drop_last() =~= entries.drop_last());
    } else {
        lemma_entries_len_update(entries.drop_last(), at, entry);
        assert(entries.update(at, entry).drop_last() =~= entries.drop_last().update(at, entry));
    }
}

} // verus!
