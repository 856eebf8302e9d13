//! Truncation: what the decoder makes of an input that ends too early.

use crate::v1::decoding::{
    chunk, decode_body, decode_entries, decode_items, decode_key, decode_key_size, decode_size,
    decode_text, decode_uint, decode_value, put,
};
use crate::v1::unpack::UnpackError;
use crate::v1::{classify, width_of, Family, Marker, SizeClass};
use crate::value::Term;
use vstd::prelude::*;

verus! {

/// Whether a read failed because the input ended too early.
pub open spec fn truncated<T>(r: Result<T, UnpackError>) -> bool {
    r is Err && r->Err_0 is Truncated
}

/// Truncation safety: where the bytes from an offset on hold a value,
/// every prefix of the input that ends before the value does holds none
/// there, and the reason is that the input is truncated.
pub proof fn lemma_truncation(bytes: Seq<u8>, pos: int, depth: nat, cut: int)
    requires
        decode_value(bytes, pos, depth) is Ok,
        0 <= cut < decode_value(bytes, pos, depth)->Ok_0.1,
    ensures
        truncated(decode_value(bytes.take(cut), pos, depth)),
{
    lemma_value_within(bytes, pos, depth);
    lemma_value_prefix(bytes, pos, depth, cut);
}

/// What stands behind a value has no say in it: the value reads the same
/// from every prefix of the input that holds all its bytes.
pub proof fn lemma_prefix_suffices(bytes: Seq<u8>, pos: int, depth: nat, cut: int)
    requires
        decode_value(bytes, pos, depth) is Ok,
        decode_value(bytes, pos, depth)->Ok_0.1 <= cut <= bytes.len(),
    ensures
        decode_value(bytes.take(cut), pos, depth) == decode_value(bytes, pos, depth),
{
    lemma_value_within(bytes, pos, depth);
    lemma_value_prefix(bytes, pos, depth, cut);
}

/// A value ends within the input.
pub proof fn lemma_value_within(bytes: Seq<u8>, pos: int, depth: nat)
    requires
        decode_value(bytes, pos, depth) is Ok,
    ensures
        0 <= pos,
        pos < decode_value(bytes, pos, depth)->Ok_0.1,
        decode_value(bytes, pos, depth)->Ok_0.1 <= bytes.len(),
{
    let end = decode_value(bytes, pos, depth)->Ok_0.1;
    lemma_value_prefix(bytes, pos, depth, bytes.len() as int);
    if end > bytes.len() {
        assert(bytes.take(bytes.len() as int) =~= bytes);
    }
}

/// How a read from the first `cut` bytes relates to the same read from all
/// the bytes, where that one succeeds and starts within the first `cut`
/// bytes: it is the same read if it ends within them, and fails for want of
/// input if it does not.
pub open spec fn prefix_reads<T>(
    whole: Result<(T, int), UnpackError>,
    part: Result<(T, int), UnpackError>,
    pos: int,
    cut: int,
) -> bool {
    whole is Ok ==> {
        &&& pos <= whole->Ok_0.1
        &&& (pos <= cut && whole->Ok_0.1 <= cut ==> part == whole)
        &&& (pos <= cut < whole->Ok_0.1 ==> truncated(part))
    }
}

/// The prefix law for one value: reading it from the first `cut` bytes
/// gives the same value if it ends within them, and fails for want of
/// input if it does not.
pub proof fn lemma_value_prefix(bytes: Seq<u8>, pos: int, depth: nat, cut: int)
    requires
        0 <= cut <= bytes.len(),
        decode_value(bytes, pos, depth) is Ok,
    ensures
        pos < decode_value(bytes, pos, depth)->Ok_0.1,
        decode_value(bytes, pos, depth)->Ok_0.1 <= cut ==> decode_value(
            bytes.take(cut),
            pos,
            depth,
        ) == decode_value(bytes, pos, depth),
        cut < decode_value(bytes, pos, depth)->Ok_0.1 ==> truncated(
            decode_value(bytes.take(cut), pos, depth),
        ),
    decreases depth, 3nat,
{
    let marker = bytes[pos];
    lemma_body_prefix(bytes, pos + 1, marker, depth, cut);
}

/// The prefix law for what a marker announces.
#[verifier::rlimit(40)]
pub proof fn lemma_body_prefix(bytes: Seq<u8>, pos: int, marker: u8, depth: nat, cut: int)
    requires
        0 <= cut <= bytes.len(),
    ensures
        prefix_reads(
            decode_body(bytes, pos, marker, depth),
            decode_body(bytes.take(cut), pos, marker, depth),
            pos,
            cut,
        ),
    decreases depth, 2nat,
{
    match classify(marker) {
        Marker::Sized(Family::List, class) => {
            lemma_size_prefix(bytes, pos, marker, class, cut);
            if decode_size(bytes, pos, marker, class) is Ok && depth > 0 {
                let (n, start) = decode_size(bytes, pos, marker, class)->Ok_0;
                lemma_items_prefix(bytes, start, n, (depth - 1) as nat, Seq::empty(), cut);
            }
        },
        Marker::Sized(Family::Dict, class) => {
            lemma_size_prefix(bytes, pos, marker, class, cut);
            if decode_size(bytes, pos, marker, class) is Ok && depth > 0 {
                let (n, start) = decode_size(bytes, pos, marker, class)->Ok_0;
                lemma_entries_prefix(bytes, start, n, (depth - 1) as nat, Seq::empty(), cut);
            }
        },
        Marker::Structure(class) => {
            lemma_size_prefix(bytes, pos, marker, class, cut);
            if decode_size(bytes, pos, marker, class) is Ok && depth > 0 {
                let (n, start) = decode_size(bytes, pos, marker, class)->Ok_0;
                lemma_items_prefix(bytes, start + 1, n, (depth - 1) as nat, Seq::empty(), cut);
            }
        },
        _ => {
            lemma_leaf_prefix(bytes, pos, marker, depth, cut);
        },
    }
}

/// The prefix law for a run of values.
pub proof fn lemma_items_prefix(
    bytes: Seq<u8>,
    pos: int,
    n: nat,
    depth: nat,
    items: Seq<Term>,
    cut: int,
)
    requires
        0 <= cut <= bytes.len(),
    ensures
        prefix_reads(
            decode_items(bytes, pos, n, depth, items),
            decode_items(bytes.take(cut), pos, n, depth, items),
            pos,
            cut,
        ),
    decreases depth, n + 4,
{
    if n > 0 && decode_items(bytes, pos, n, depth, items) is Ok {
        let (item, next) = decode_value(bytes, pos, depth)->Ok_0;
        lemma_value_prefix(bytes, pos, depth, cut);
        lemma_items_prefix(bytes, next, (n - 1) as nat, depth, items.push(item), cut);
    }
}

/// The prefix law for a run of dictionary entries.
pub proof fn lemma_entries_prefix(
    bytes: Seq<u8>,
    pos: int,
    n: nat,
    depth: nat,
    entries: Seq<(Term, Term)>,
    cut: int,
)
    requires
        0 <= cut <= bytes.len(),
    ensures
        prefix_reads(
            decode_entries(bytes, pos, n, depth, entries),
            decode_entries(bytes.take(cut), pos, n, depth, entries),
            pos,
            cut,
        ),
    decreases depth, n + 4,
{
    if n > 0 && decode_entries(bytes, pos, n, depth, entries) is Ok {
        let (key, start) = decode_key(bytes, pos)->Ok_0;
        let (value, next) = decode_value(bytes, start, depth)->Ok_0;
        lemma_key_prefix(bytes, pos, cut);
        lemma_value_prefix(bytes, start, depth, cut);
        lemma_entries_prefix(
            bytes,
            next,
            (n - 1) as nat,
            depth,
            put(entries, Term::Str(key), value),
            cut,
        );
    }
}

/// The prefix law for the values that hold no other values.
pub proof fn lemma_leaf_prefix(bytes: Seq<u8>, pos: int, marker: u8, depth: nat, cut: int)
    requires
        0 <= cut <= bytes.len(),
        !(classify(marker) is Structure),
        classify(marker) matches Marker::Sized(family, _) ==> family == Family::Str || family
            == Family::Bytes,
    ensures
        prefix_reads(
            decode_body(bytes, pos, marker, depth),
            decode_body(bytes.take(cut), pos, marker, depth),
            pos,
            cut,
        ),
{
    match classify(marker) {
        Marker::Float => {
            lemma_uint_prefix(bytes, pos, 8, cut);
        },
        Marker::Int(width) => {
            lemma_uint_prefix(bytes, pos, width, cut);
        },
        Marker::Sized(family, class) => {
            lemma_size_prefix(bytes, pos, marker, class, cut);
            if decode_size(bytes, pos, marker, class) is Ok {
                let (n, start) = decode_size(bytes, pos, marker, class)->Ok_0;
                lemma_text_prefix(bytes, start, n, cut);
                if chunk(bytes, start, n) is Ok {
                    lemma_chunk_prefix(bytes, start, n, cut);
                }
            }
        },
        _ => {},
    }
}

/// The prefix law for the key of a dictionary entry.
pub proof fn lemma_key_prefix(bytes: Seq<u8>, pos: int, cut: int)
    requires
        0 <= cut <= bytes.len(),
    ensures
        prefix_reads(decode_key(bytes, pos), decode_key(bytes.take(cut), pos), pos, cut),
{
    if decode_key(bytes, pos) is Ok && pos <= cut {
        let marker = bytes[pos];
        let class = classify(marker)->Sized_1;
        let (n, start) = decode_key_size(bytes, pos)->Ok_0;
        lemma_size_prefix(bytes, pos + 1, marker, class, cut);
        lemma_text_prefix(bytes, start, n, cut);
    } else if decode_key(bytes, pos) is Ok {
        let marker = bytes[pos];
        let class = classify(marker)->Sized_1;
        let (n, start) = decode_key_size(bytes, pos)->Ok_0;
        lemma_size_prefix(bytes, pos + 1, marker, class, cut);
        lemma_text_prefix(bytes, start, n, cut);
    }
}

/// The prefix law for the text of a string.
pub proof fn lemma_text_prefix(bytes: Seq<u8>, pos: int, n: nat, cut: int)
    requires
        0 <= cut <= bytes.len(),
    ensures
        prefix_reads(
            decode_text(bytes, pos, n),
            decode_text(bytes.take(cut), pos, n),
            pos,
            cut,
        ),
{
    if chunk(bytes, pos, n) is Ok {
        lemma_chunk_prefix(bytes, pos, n, cut);
    }
}

/// The prefix law for the length that a marker announces.
pub proof fn lemma_size_prefix(bytes: Seq<u8>, pos: int, marker: u8, class: SizeClass, cut: int)
    requires
        0 <= cut <= bytes.len(),
    ensures
        prefix_reads(
            decode_size(bytes, pos, marker, class),
            decode_size(bytes.take(cut), pos, marker, class),
            pos,
            cut,
        ),
{
    lemma_uint_prefix(bytes, pos, width_of(class), cut);
}

/// The prefix law for a big-endian number.
pub proof fn lemma_uint_prefix(bytes: Seq<u8>, pos: int, width: nat, cut: int)
    requires
        0 <= cut <= bytes.len(),
    ensures
        prefix_reads(
            decode_uint(bytes, pos, width),
            decode_uint(bytes.take(cut), pos, width),
            pos,
            cut,
        ),
{
    if chunk(bytes, pos, width) is Ok {
        lemma_chunk_prefix(bytes, pos, width, cut);
    }
}

/// Bytes that the input holds are the same in every prefix that holds
/// them all, and missing from every prefix that does not.
pub proof fn lemma_chunk_prefix(bytes: Seq<u8>, pos: int, n: nat, cut: int)
    requires
        0 <= cut <= bytes.len(),
        chunk(bytes, pos, n) is Ok,
    ensures
        pos + n <= cut ==> chunk(bytes.take(cut), pos, n) == chunk(bytes, pos, n),
        pos + n > cut ==> truncated(chunk(bytes.take(cut), pos, n)),
{
    if pos + n <= cut {
        assert(bytes.take(cut).subrange(pos, pos + n) =~= bytes.subrange(pos, pos + n));
    }
}

} // verus!
