//! Round trip: what the encoder writes, the decoder reads back.

use crate::v1::decoding::{
    byte_at, decode_entries, decode_items, decode_key, decode_size, decode_text, decode_value,
    keys_of, put,
};
use crate::v1::encoding::{
    encoding, entries_encoding, entry_encoding, framed, int_encoding, items_encoding, size_header,
    struct_header,
};
use crate::v1::unpack::UnpackError;
use crate::v1::wire::{
    be_bytes, lemma_be_bytes_len, lemma_be_round_trip, lemma_radix, lemma_signed_round_trip,
    to_unsigned,
};
use crate::v1::{
    classify, marker_of, size_class_for, width_of, Family, Marker, SizeClass, FLOAT_64, MAX_FIELDS,
    MAX_SIZE,
};
use crate::value::{all_well_formed, Record, Term};
use vstd::prelude::*;
use vstd::utf8::encode_utf8;

verus! {

/// Round trip: for every well-formed value that has an encoding, decoding
/// the encoding gives the value back, and the offset that comes with it is
/// the length of the encoding.
pub proof fn lemma_round_trip(t: Term, depth: nat)
    requires
        t.well_formed(),
        encoding(t, depth) is Ok,
    ensures
        decode_value(encoding(t, depth)->Ok_0, 0, depth) == Ok::<(Term, int), UnpackError>(
            (t, encoding(t, depth)->Ok_0.len() as int),
        ),
{
    let e = encoding(t, depth)->Ok_0;
    assert(e.subrange(0, e.len() as int) =~= e);
    lemma_value_round_trip(e, 0, t, depth);
}

/// No two values share an encoding: well-formed values with the same
/// encoding are the same value.
pub proof fn lemma_encoding_injective(a: Term, b: Term, depth: nat)
    requires
        a.well_formed(),
        b.well_formed(),
        encoding(a, depth) is Ok,
        encoding(a, depth) == encoding(b, depth),
    ensures
        a == b,
{
    lemma_round_trip(a, depth);
    lemma_round_trip(b, depth);
}

/// Whether `part` stands in `bytes` at the offset `pos`.
pub open spec fn occurs_at(bytes: Seq<u8>, pos: int, part: Seq<u8>) -> bool {
    0 <= pos && pos + part.len() <= bytes.len() && bytes.subrange(pos, pos + part.len()) =~= part
}

/// A value reads back from its bytes, wherever they stand: the decoder
/// gives the value and the offset behind its bytes.
pub proof fn lemma_value_round_trip(bytes: Seq<u8>, pos: int, t: Term, depth: nat)
    requires
        t.well_formed(),
        encoding(t, depth) is Ok,
        occurs_at(bytes, pos, encoding(t, depth)->Ok_0),
    ensures
        decode_value(bytes, pos, depth) == Ok::<(Term, int), UnpackError>(
            (t, pos + encoding(t, depth)->Ok_0.len()),
        ),
    decreases depth, 0nat,
{
    let e = encoding(t, depth)->Ok_0;
    match t {
        Term::Null => {
            lemma_plain_round_trip(bytes, pos, t, depth);
        },
        Term::Bool(_) => {
            lemma_plain_round_trip(bytes, pos, t, depth);
        },
        Term::Float(_) => {
            lemma_plain_round_trip(bytes, pos, t, depth);
        },
        Term::Int(i) => {
            lemma_int_round_trip(bytes, pos, i, depth);
        },
        Term::Str(text) => {
            lemma_text_round_trip(bytes, pos, text);
        },
        Term::Bytes(payload) => {
            lemma_bytes_round_trip(bytes, pos, payload, depth);
        },
        Term::List(items) => {
            let header = size_header(Family::List, items.len());
            let below = (depth - 1) as nat;
            lemma_items_encoding_extends(items, 0, below, header);
            lemma_occurs_part(bytes, pos, e, 0, header.len() as int);
            lemma_items_round_trip(bytes, pos, items, 0, below, header, Seq::empty());
            assert(Seq::<Term>::empty() + items.skip(0) =~= items);
            lemma_list_round_trip(bytes, pos, items, depth, pos + e.len());
        },
        Term::Dict(entries) => {
            let header = size_header(Family::Dict, entries.len());
            let below = (depth - 1) as nat;
            lemma_entries_encoding_extends(entries, 0, below, header);
            lemma_occurs_part(bytes, pos, e, 0, header.len() as int);
            lemma_entries_round_trip(bytes, pos, entries, 0, below, header);
            assert(entries.take(0) =~= Seq::empty());
            lemma_dict_round_trip(bytes, pos, entries, depth, pos + e.len());
        },
        Term::Structure(record) => {
            let header = struct_header(record.tag, record.fields.len());
            let below = (depth - 1) as nat;
            lemma_items_encoding_extends(record.fields, 0, below, header);
            lemma_occurs_part(bytes, pos, e, 0, header.len() as int);
            lemma_items_round_trip(bytes, pos, record.fields, 0, below, header, Seq::empty());
            assert(Seq::<Term>::empty() + record.fields.skip(0) =~= record.fields);
            lemma_struct_round_trip(bytes, pos, record, depth, pos + e.len());
        },
        Term::Foreign(_) => {},
    }
}

/// Items read back from their bytes, one after the other: behind what was
/// written before them, the decoder finds the items from `from` on.
pub proof fn lemma_items_round_trip(
    bytes: Seq<u8>,
    pos: int,
    items: Seq<Term>,
    from: int,
    depth: nat,
    written: Seq<u8>,
    read: Seq<Term>,
)
    requires
        0 <= from <= items.len(),
        all_well_formed(items),
        items_encoding(items, from, depth, written) is Ok,
        occurs_at(bytes, pos, items_encoding(items, from, depth, written)->Ok_0),
    ensures
        decode_items(bytes, pos + written.len(), (items.len() - from) as nat, depth, read) == Ok::<
            (Seq<Term>, int),
            UnpackError,
        >(
            (
                read + items.skip(from),
                pos + items_encoding(items, from, depth, written)->Ok_0.len(),
            ),
        ),
    decreases depth, items.len() - from + 1,
{
    let all = items_encoding(items, from, depth, written)->Ok_0;
    if from < items.len() {
        let item = encoding(items[from], depth)->Ok_0;
        lemma_items_encoding_extends(items, from + 1, depth, written + item);
        lemma_occurs_part(bytes, pos, all, written.len() as int, (written + item).len() as int);
        assert(all.subrange(written.len() as int, (written + item).len() as int) =~= item) by {
            assert(all.subrange(0, (written + item).len() as int) == written + item);
            assert forall|i: int| 0 <= i < item.len() implies all[written.len() + i]
                == item[i] by {
                assert(all.subrange(0, (written + item).len() as int)[written.len() + i] == (
                written + item)[written.len() + i]);
            }
        }
        lemma_value_round_trip(bytes, pos + written.len(), items[from], depth);
        lemma_items_round_trip(
            bytes,
            pos,
            items,
            from + 1,
            depth,
            written + item,
            read.push(items[from]),
        );
        assert(read.push(items[from]) + items.skip(from + 1) =~= read + items.skip(from));
    } else {
        assert(read + items.skip(from) =~= read);
    }
}

/// The entries of a dictionary read back from their bytes, one after the
/// other.
pub proof fn lemma_entries_round_trip(
    bytes: Seq<u8>,
    pos: int,
    entries: Seq<(Term, Term)>,
    from: int,
    depth: nat,
    written: Seq<u8>,
)
    requires
        0 <= from <= entries.len(),
        Term::Dict(entries).well_formed(),
        entries_encoding(entries, from, depth, written) is Ok,
        occurs_at(bytes, pos, entries_encoding(entries, from, depth, written)->Ok_0),
    ensures
        decode_entries(
            bytes,
            pos + written.len(),
            (entries.len() - from) as nat,
            depth,
            entries.take(from),
        ) == Ok::<(Seq<(Term, Term)>, int), UnpackError>(
            (entries, pos + entries_encoding(entries, from, depth, written)->Ok_0.len()),
        ),
    decreases depth, entries.len() - from + 1,
{
    let all = entries_encoding(entries, from, depth, written)->Ok_0;
    if from < entries.len() {
        let entry = entry_encoding(entries[from], depth)->Ok_0;
        let text = entries[from].0->Str_0;
        let payload = encode_utf8(text);
        let header = size_header(Family::Str, payload.len());
        let key = header + payload;
        let value = encoding(entries[from].1, depth)->Ok_0;
        let start = pos + written.len();
        lemma_entries_encoding_extends(entries, from + 1, depth, written + entry);
        lemma_occurs_part(bytes, pos, all, written.len() as int, (written + entry).len() as int);
        assert(all.subrange(written.len() as int, (written + entry).len() as int) =~= entry) by {
            assert(all.subrange(0, (written + entry).len() as int) == written + entry);
            assert forall|i: int| 0 <= i < entry.len() implies all[written.len() + i]
                == entry[i] by {
                assert(all.subrange(0, (written + entry).len() as int)[written.len() + i] == (
                written + entry)[written.len() + i]);
            }
        }
        assert(entry == key + value);
        lemma_occurs_split(bytes, start, key, value);
        lemma_text_round_trip(bytes, start, text);
        lemma_value_round_trip(bytes, start + key.len(), entries[from].1, depth);
        let before = entries.take(from);
        assert(put(before, Term::Str(text), entries[from].1) =~= entries.take(from + 1)) by {
            keys_of(before).index_of_first_ensures(Term::Str(text));
            if keys_of(before).index_of_first(Term::Str(text)) is Some {
                let i = keys_of(before).index_of_first(Term::Str(text))->Some_0;
                assert(keys_of(before)[i] == entries[i].0);
                assert(entries[i].0 != entries[from].0);
            }
            assert(entries[from] == (Term::Str(text), entries[from].1));
        }
        lemma_entries_round_trip(bytes, pos, entries, from + 1, depth, written + entry);
    } else {
        assert(entries.take(from) =~= entries);
    }
}

/// A null, a boolean or a float reads back from its bytes.
pub proof fn lemma_plain_round_trip(bytes: Seq<u8>, pos: int, t: Term, depth: nat)
    requires
        t is Null || t is Bool || t is Float,
        occurs_at(bytes, pos, encoding(t, depth)->Ok_0),
    ensures
        decode_value(bytes, pos, depth) == Ok::<(Term, int), UnpackError>(
            (t, pos + encoding(t, depth)->Ok_0.len()),
        ),
{
    let e = encoding(t, depth)->Ok_0;
    assert(bytes.subrange(pos, pos + e.len())[0] == e[0]);
    if let Term::Float(bits) = t {
        lemma_radix();
        lemma_be_bytes_len(bits as nat, 8);
        lemma_be_round_trip(bits as nat, 8);
        lemma_occurs_split(bytes, pos, seq![FLOAT_64], be_bytes(bits as nat, 8));
    }
}

/// An integer reads back from its bytes.
pub proof fn lemma_int_round_trip(bytes: Seq<u8>, pos: int, i: i64, depth: nat)
    requires
        occurs_at(bytes, pos, int_encoding(i)),
    ensures
        decode_value(bytes, pos, depth) == Ok::<(Term, int), UnpackError>(
            (Term::Int(i), pos + int_encoding(i).len()),
        ),
{
    let e = int_encoding(i);
    lemma_radix();
    assert(bytes.subrange(pos, pos + e.len())[0] == e[0]);
    if -16 <= i <= 127 {
        lemma_signed_round_trip(i as int, 1);
    } else {
        let width: nat = if -0x80 <= i <= 0x7F {
            1
        } else if -0x8000 <= i <= 0x7FFF {
            2
        } else if -0x8000_0000 <= i <= 0x7FFF_FFFF {
            4
        } else {
            8
        };
        let u = to_unsigned(i as int, width);
        lemma_signed_round_trip(i as int, width);
        lemma_be_bytes_len(u, width);
        lemma_be_round_trip(u, width);
        lemma_occurs_split(bytes, pos, seq![e[0]], be_bytes(u, width));
    }
}

/// A string reads back from its bytes.
pub proof fn lemma_text_round_trip(bytes: Seq<u8>, pos: int, text: Seq<char>)
    requires
        framed(Family::Str, encode_utf8(text)) is Ok,
        occurs_at(bytes, pos, framed(Family::Str, encode_utf8(text))->Ok_0),
    ensures
        decode_key(bytes, pos) == Ok::<(Seq<char>, int), UnpackError>(
            (text, pos + framed(Family::Str, encode_utf8(text))->Ok_0.len()),
        ),
        forall|depth: nat| #[trigger]
            decode_value(bytes, pos, depth) == Ok::<(Term, int), UnpackError>(
                (Term::Str(text), pos + framed(Family::Str, encode_utf8(text))->Ok_0.len()),
            ),
{
    let payload = encode_utf8(text);
    let header = size_header(Family::Str, payload.len());
    lemma_occurs_split(bytes, pos, header, payload);
    lemma_header_round_trip(bytes, pos, Family::Str, payload.len());
    vstd::utf8::encode_utf8_valid_utf8(text);
    vstd::utf8::encode_utf8_decode_utf8(text);
    assert(decode_text(bytes, pos + header.len(), payload.len()) == Ok::<
        (Seq<char>, int),
        UnpackError,
    >((text, pos + header.len() + payload.len())));
}

/// A byte sequence reads back from its bytes.
pub proof fn lemma_bytes_round_trip(bytes: Seq<u8>, pos: int, payload: Seq<u8>, depth: nat)
    requires
        framed(Family::Bytes, payload) is Ok,
        occurs_at(bytes, pos, framed(Family::Bytes, payload)->Ok_0),
    ensures
        decode_value(bytes, pos, depth) == Ok::<(Term, int), UnpackError>(
            (Term::Bytes(payload), pos + framed(Family::Bytes, payload)->Ok_0.len()),
        ),
{
    let header = size_header(Family::Bytes, payload.len());
    lemma_occurs_split(bytes, pos, header, payload);
    lemma_header_round_trip(bytes, pos, Family::Bytes, payload.len());
}

/// A list reads back where its header stands and its items read back
/// behind it.
pub proof fn lemma_list_round_trip(
    bytes: Seq<u8>,
    pos: int,
    items: Seq<Term>,
    depth: nat,
    end: int,
)
    requires
        depth > 0,
        items.len() <= MAX_SIZE,
        occurs_at(bytes, pos, size_header(Family::List, items.len())),
        decode_items(
            bytes,
            pos + size_header(Family::List, items.len()).len(),
            items.len(),
            (depth - 1) as nat,
            Seq::empty(),
        ) == Ok::<(Seq<Term>, int), UnpackError>((items, end)),
    ensures
        decode_value(bytes, pos, depth) == Ok::<(Term, int), UnpackError>(
            (Term::List(items), end),
        ),
{
    lemma_header_round_trip(bytes, pos, Family::List, items.len());
}

/// A dictionary reads back where its header stands and its entries read
/// back behind it.
pub proof fn lemma_dict_round_trip(
    bytes: Seq<u8>,
    pos: int,
    entries: Seq<(Term, Term)>,
    depth: nat,
    end: int,
)
    requires
        depth > 0,
        entries.len() <= MAX_SIZE,
        occurs_at(bytes, pos, size_header(Family::Dict, entries.len())),
        decode_entries(
            bytes,
            pos + size_header(Family::Dict, entries.len()).len(),
            entries.len(),
            (depth - 1) as nat,
            Seq::empty(),
        ) == Ok::<(Seq<(Term, Term)>, int), UnpackError>((entries, end)),
    ensures
        decode_value(bytes, pos, depth) == Ok::<(Term, int), UnpackError>(
            (Term::Dict(entries), end),
        ),
{
    lemma_header_round_trip(bytes, pos, Family::Dict, entries.len());
}

/// A structure reads back where its header stands and its fields read back
/// behind it.
pub proof fn lemma_struct_round_trip(
    bytes: Seq<u8>,
    pos: int,
    record: Record,
    depth: nat,
    end: int,
)
    requires
        depth > 0,
        record.fields.len() <= MAX_FIELDS,
        occurs_at(bytes, pos, struct_header(record.tag, record.fields.len())),
        decode_items(bytes, pos + 2, record.fields.len(), (depth - 1) as nat, Seq::empty())
            == Ok::<(Seq<Term>, int), UnpackError>((record.fields, end)),
    ensures
        decode_value(bytes, pos, depth) == Ok::<(Term, int), UnpackError>(
            (Term::Structure(record), end),
        ),
{
    let header = struct_header(record.tag, record.fields.len());
    assert(bytes.subrange(pos, pos + header.len())[0] == header[0]);
    assert(bytes.subrange(pos, pos + header.len())[1] == header[1]);
}

/// The header of a length reads back as the family, the size class and the
/// length.
pub proof fn lemma_header_round_trip(bytes: Seq<u8>, pos: int, family: Family, n: nat)
    requires
        n <= MAX_SIZE,
        occurs_at(bytes, pos, size_header(family, n)),
    ensures
        byte_at(bytes, pos) == Ok::<u8, UnpackError>(size_header(family, n)[0]),
        classify(size_header(family, n)[0]) == Marker::Sized(family, size_class_for(family, n)),
        decode_size(
            bytes,
            pos + 1,
            size_header(family, n)[0],
            size_class_for(family, n),
        ) == Ok::<(nat, int), UnpackError>((n, pos + size_header(family, n).len())),
{
    let class = size_class_for(family, n);
    let header = size_header(family, n);
    let width = width_of(class);
    lemma_radix();
    lemma_be_bytes_len(n, width);
    assert(bytes.subrange(pos, pos + header.len())[0] == header[0]);
    if class != SizeClass::Tiny {
        lemma_occurs_split(bytes, pos, seq![marker_of(family, class)], be_bytes(n, width));
        lemma_be_round_trip(n, width);
    }
}

/// What was written before the items stays in front of them.
pub proof fn lemma_items_encoding_extends(
    items: Seq<Term>,
    from: int,
    depth: nat,
    written: Seq<u8>,
)
    requires
        items_encoding(items, from, depth, written) is Ok,
    ensures
        written.len() <= items_encoding(items, from, depth, written)->Ok_0.len(),
        items_encoding(items, from, depth, written)->Ok_0.subrange(0, written.len() as int)
            == written,
    decreases items.len() - from,
{
    let all = items_encoding(items, from, depth, written)->Ok_0;
    if 0 <= from < items.len() {
        let item = encoding(items[from], depth)->Ok_0;
        lemma_items_encoding_extends(items, from + 1, depth, written + item);
        assert(all.subrange(0, written.len() as int) =~= all.subrange(
            0,
            (written + item).len() as int,
        ).subrange(0, written.len() as int));
    }
    assert(all.subrange(0, written.len() as int) =~= written);
}

/// What was written before the entries stays in front of them.
pub proof fn lemma_entries_encoding_extends(
    entries: Seq<(Term, Term)>,
    from: int,
    depth: nat,
    written: Seq<u8>,
)
    requires
        entries_encoding(entries, from, depth, written) is Ok,
    ensures
        written.len() <= entries_encoding(entries, from, depth, written)->Ok_0.len(),
        entries_encoding(entries, from, depth, written)->Ok_0.subrange(0, written.len() as int)
            == written,
    decreases entries.len() - from,
{
    let all = entries_encoding(entries, from, depth, written)->Ok_0;
    if 0 <= from < entries.len() {
        let entry = entry_encoding(entries[from], depth)->Ok_0;
        lemma_entries_encoding_extends(entries, from + 1, depth, written + entry);
        assert(all.subrange(0, written.len() as int) =~= all.subrange(
            0,
            (written + entry).len() as int,
        ).subrange(0, written.len() as int));
    }
    assert(all.subrange(0, written.len() as int) =~= written);
}

/// Where two parts stand one behind the other, each of them stands.
pub proof fn lemma_occurs_split(bytes: Seq<u8>, pos: int, first: Seq<u8>, second: Seq<u8>)
    requires
        occurs_at(bytes, pos, first + second),
    ensures
        occurs_at(bytes, pos, first),
        occurs_at(bytes, pos + first.len(), second),
{
    let whole = first + second;
    assert forall|i: int| 0 <= i < first.len() implies bytes[pos + i] == first[i] by {
        assert(bytes.subrange(pos, pos + whole.len())[i] == whole[i]);
    }
    assert forall|i: int| 0 <= i < second.len() implies bytes[pos + first.len() + i]
        == second[i] by {
        assert(bytes.subrange(pos, pos + whole.len())[first.len() + i] == whole[first.len() + i]);
    }
}

/// A part of what stands in `bytes` stands there too.
pub proof fn lemma_occurs_part(bytes: Seq<u8>, pos: int, whole: Seq<u8>, from: int, to: int)
    requires
        occurs_at(bytes, pos, whole),
        0 <= from <= to <= whole.len(),
    ensures
        occurs_at(bytes, pos + from, whole.subrange(from, to)),
{
    let part = whole.subrange(from, to);
    assert forall|i: int| 0 <= i < part.len() implies bytes.subrange(
        pos + from,
        pos + from + part.len(),
    )[i] == #[trigger] part[i] by {
        assert(bytes.subrange(pos, pos + whole.len())[from + i] == whole[from + i]);
    }
}

} // verus!
