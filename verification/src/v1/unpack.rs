//! The decoder: from bytes to a value.
//!
//! [`PackStreamDecoder`] reads what [`decode_value`] says the bytes at an
//! offset hold, and [`unpack`] is the one call that most callers need.

use crate::hooks::{HookError, HydrationHooks};
use crate::v1::decoding::{
    agrees, fails_body, fails_dict, fails_entries, fails_items, fails_list, fails_struct,
    fails_value, byte_at, chunk, decode_body, decode_dict, decode_entries, decode_items,
    decode_key_size, decode_list, decode_struct, decode_text, decode_uint, decode_value,
    hydration, hydration_of_entries, hydration_of_items, keys_of, meets, outcome, put,
    seen_body, seen_dict, seen_entries, seen_items, seen_list, seen_struct, seen_value,
};
use crate::v1::wire::{i64_from_unsigned, lemma_radix, to_signed, u64_from_be_bytes};
use crate::v1::{
    BYTES_16, BYTES_32, BYTES_8, FALSE, FLOAT_64, INT_16, INT_32, INT_64, INT_8, LIST_16,
    LIST_32, LIST_8, MAP_16, MAP_32, MAP_8, MAX_DEPTH, NULL, STRING_16, STRING_32, STRING_8,
    STRUCT_16, STRUCT_8, TINY_LIST, TINY_MAP, TINY_STRING, TINY_STRUCT, TRUE,
};
use crate::value::{entry_views, lemma_view_unfold, views, Structure, Term, Value};
use vstd::prelude::*;
use vstd::slice::{slice_subrange, slice_to_vec};
use vstd::utf8::{encode_utf8, valid_utf8};

verus! {

/// Why bytes hold no value.
#[derive(Debug, PartialEq, Eq)]
pub enum UnpackError {
    /// The input ends before the value does. `offset` is where the missing
    /// bytes were to start.
    Truncated { offset: usize },
    /// The byte is no marker of the format.
    UnknownMarker { marker: u8 },
    /// The bytes of a string, which start at `offset`, are not valid UTF-8.
    InvalidUtf8 { offset: usize },
    /// Where the key of a dictionary entry was due, the marker is not that
    /// of a string.
    InvalidMapKey { marker: u8 },
    /// Lists, dictionaries and structures nest more than [`MAX_DEPTH`] deep.
    SizeOverflow,
    /// A hydration hook failed.
    Hook(HookError),
}

/// The text that bytes encode: `String::from_utf8` of std.
///
/// The contract is taken from the documentation of std and not proved
/// here: the call succeeds if and only if the bytes are valid UTF-8, and
/// the string that it gives is the one whose UTF-8 encoding the bytes are.
#[verifier::external_body]
fn string_from_utf8(bytes: Vec<u8>) -> (text: Option<String>)
    ensures
        text is Some <==> valid_utf8(bytes@),
        text matches Some(s) ==> encode_utf8(s@) == bytes@,
{
    match String::from_utf8(bytes) {
        Ok(s) => Some(s),
        Err(_) => None,
    }
}

/// A cursor over a buffer that the caller owns.
pub struct PackStreamDecoder<'a, F> {
    pub bytes: &'a [u8],
    pub index: usize,
    pub hydration_hooks: Option<&'a HydrationHooks<F>>,
}

impl<'a, F: Fn(Structure) -> Result<Value, HookError>> PackStreamDecoder<'a, F> {
    /// The tags of the structures that the decoder hydrates.
    pub open spec fn tags(&self) -> Set<u8> {
        match self.hydration_hooks {
            Some(hooks) => hooks.tags(),
            None => Set::empty(),
        }
    }

    /// Every hook of the table accepts every structure.
    pub open spec fn hooks_total(&self) -> bool {
        match self.hydration_hooks {
            Some(hooks) => forall|i: int, structure: Structure|
                0 <= i < hooks.entries@.len() ==> #[trigger] call_requires(
                    hooks.entries@[i].1,
                    (structure,),
                ),
            None => true,
        }
    }

    /// Where the bytes hold a value and the read gave one: the value that
    /// the read gave is something that the hooks can make of the value that
    /// the bytes hold.
    pub open spec fn hydrates(
        &self,
        held: Result<(Term, int), UnpackError>,
        r: Result<Value, UnpackError>,
    ) -> bool {
        held is Ok && r is Ok ==> hydration(self.hydration_hooks, held->Ok_0.0, r->Ok_0@)
    }

    /// The same buffer and hooks, whatever the offset.
    pub open spec fn same_input(&self, other: &Self) -> bool {
        &&& self.bytes@ == other.bytes@
        &&& self.hydration_hooks == other.hydration_hooks
    }

    /// A decoder that starts at the offset `idx` of `bytes`.
    pub fn new(
        bytes: &'a [u8],
        idx: usize,
        hydration_hooks: Option<&'a HydrationHooks<F>>,
    ) -> (decoder: Self)
        ensures
            decoder.bytes@ == bytes@,
            decoder.index == idx,
            decoder.hydration_hooks == hydration_hooks,
    {
        PackStreamDecoder { bytes, index: idx, hydration_hooks }
    }

    /// Moves the cursor back to `start` if a read has failed, and gives
    /// what the read gave.
    fn rewound<T>(&mut self, start: usize, r: Result<T, UnpackError>) -> (out: Result<
        T,
        UnpackError,
    >)
        ensures
            final(self).same_input(old(self)),
            out == r,
            r is Err ==> final(self).index == start,
            r is Ok ==> final(self).index == old(self).index,
    {
        if r.is_err() {
            self.index = start;
        }
        r
    }

    /// Reads one byte.
    pub fn read_byte(&mut self) -> (r: Result<u8, UnpackError>)
        ensures
            final(self).same_input(old(self)),
            r == byte_at(old(self).bytes@, old(self).index as int),
            final(self).index == old(self).index + (if r is Ok { 1int } else { 0int }),
    {
        if self.index >= self.bytes.len() {
            return Err(UnpackError::Truncated { offset: self.index });
        }
        let byte = self.bytes[self.index];
        self.index += 1;
        Ok(byte)
    }

    /// Reads `n` bytes.
    pub fn read_n_bytes(&mut self, n: usize) -> (r: Result<&'a [u8], UnpackError>)
        ensures
            final(self).same_input(old(self)),
            match chunk(old(self).bytes@, old(self).index as int, n as nat) {
                Ok(payload) => r matches Ok(data) && data@ == payload && final(self).index
                    == old(self).index + n,
                Err(e) => r == Err::<&[u8], UnpackError>(e) && final(self).index == old(self).index,
            },
    {
        if self.index > self.bytes.len() || n > self.bytes.len() - self.index {
            return Err(UnpackError::Truncated { offset: self.index });
        }
        let bytes: &'a [u8] = self.bytes;
        let data = slice_subrange(bytes, self.index, self.index + n);
        self.index += n;
        Ok(data)
    }

    /// Reads a length of one byte.
    pub fn read_u8(&mut self) -> (r: Result<usize, UnpackError>)
        ensures
            final(self).same_input(old(self)),
            match decode_uint(old(self).bytes@, old(self).index as int, 1) {
                Ok((n, end)) => r == Ok::<usize, UnpackError>(n as usize) && n <= usize::MAX
                    && final(self).index == end,
                Err(e) => r == Err::<usize, UnpackError>(e) && final(self).index == old(self).index,
            },
    {
        let data = self.read_n_bytes(1)?;
        proof {
            lemma_radix();
        }
        Ok(u64_from_be_bytes(data) as usize)
    }

    /// Reads a length of two bytes.
    pub fn read_u16(&mut self) -> (r: Result<usize, UnpackError>)
        ensures
            final(self).same_input(old(self)),
            match decode_uint(old(self).bytes@, old(self).index as int, 2) {
                Ok((n, end)) => r == Ok::<usize, UnpackError>(n as usize) && n <= usize::MAX
                    && final(self).index == end,
                Err(e) => r == Err::<usize, UnpackError>(e) && final(self).index == old(self).index,
            },
    {
        let data = self.read_n_bytes(2)?;
        proof {
            lemma_radix();
        }
        Ok(u64_from_be_bytes(data) as usize)
    }

    /// Reads a length of four bytes.
    pub fn read_u32(&mut self) -> (r: Result<usize, UnpackError>)
        ensures
            final(self).same_input(old(self)),
            match decode_uint(old(self).bytes@, old(self).index as int, 4) {
                Ok((n, end)) => r == Ok::<usize, UnpackError>(n as usize) && n <= usize::MAX
                    && final(self).index == end,
                Err(e) => r == Err::<usize, UnpackError>(e) && final(self).index == old(self).index,
            },
    {
        let data = self.read_n_bytes(4)?;
        proof {
            lemma_radix();
        }
        Ok(u64_from_be_bytes(data) as usize)
    }

    /// Reads a signed integer of one byte.
    pub fn read_i8(&mut self) -> (r: Result<i8, UnpackError>)
        ensures
            final(self).same_input(old(self)),
            match decode_uint(old(self).bytes@, old(self).index as int, 1) {
                Ok((u, end)) => r == Ok::<i8, UnpackError>(to_signed(u, 1) as i8)
                    && i8::MIN <= to_signed(u, 1) <= i8::MAX && final(self).index == end,
                Err(e) => r == Err::<i8, UnpackError>(e) && final(self).index == old(self).index,
            },
    {
        let data = self.read_n_bytes(1)?;
        proof {
            lemma_radix();
        }
        Ok(i64_from_unsigned(u64_from_be_bytes(data), 1) as i8)
    }

    /// Reads a signed integer of two bytes.
    pub fn read_i16(&mut self) -> (r: Result<i16, UnpackError>)
        ensures
            final(self).same_input(old(self)),
            match decode_uint(old(self).bytes@, old(self).index as int, 2) {
                Ok((u, end)) => r == Ok::<i16, UnpackError>(to_signed(u, 2) as i16)
                    && i16::MIN <= to_signed(u, 2) <= i16::MAX && final(self).index == end,
                Err(e) => r == Err::<i16, UnpackError>(e) && final(self).index == old(self).index,
            },
    {
        let data = self.read_n_bytes(2)?;
        proof {
            lemma_radix();
        }
        Ok(i64_from_unsigned(u64_from_be_bytes(data), 2) as i16)
    }

    /// Reads a signed integer of four bytes.
    pub fn read_i32(&mut self) -> (r: Result<i32, UnpackError>)
        ensures
            final(self).same_input(old(self)),
            match decode_uint(old(self).bytes@, old(self).index as int, 4) {
                Ok((u, end)) => r == Ok::<i32, UnpackError>(to_signed(u, 4) as i32)
                    && i32::MIN <= to_signed(u, 4) <= i32::MAX && final(self).index == end,
                Err(e) => r == Err::<i32, UnpackError>(e) && final(self).index == old(self).index,
            },
    {
        let data = self.read_n_bytes(4)?;
        proof {
            lemma_radix();
        }
        Ok(i64_from_unsigned(u64_from_be_bytes(data), 4) as i32)
    }

    /// Reads a signed integer of eight bytes.
    pub fn read_i64(&mut self) -> (r: Result<i64, UnpackError>)
        ensures
            final(self).same_input(old(self)),
            match decode_uint(old(self).bytes@, old(self).index as int, 8) {
                Ok((u, end)) => r == Ok::<i64, UnpackError>(to_signed(u, 8) as i64)
                    && i64::MIN <= to_signed(u, 8) <= i64::MAX && final(self).index == end,
                Err(e) => r == Err::<i64, UnpackError>(e) && final(self).index == old(self).index,
            },
    {
        let data = self.read_n_bytes(8)?;
        proof {
            lemma_radix();
        }
        Ok(i64_from_unsigned(u64_from_be_bytes(data), 8))
    }

    /// Reads the eight bytes of a float and gives its IEEE-754 binary64
    /// bits.
    pub fn read_f64(&mut self) -> (r: Result<u64, UnpackError>)
        ensures
            final(self).same_input(old(self)),
            match decode_uint(old(self).bytes@, old(self).index as int, 8) {
                Ok((bits, end)) => r == Ok::<u64, UnpackError>(bits as u64) && bits <= u64::MAX
                    && final(self).index == end,
                Err(e) => r == Err::<u64, UnpackError>(e) && final(self).index == old(self).index,
            },
    {
        let data = self.read_n_bytes(8)?;
        proof {
            lemma_radix();
        }
        Ok(u64_from_be_bytes(data))
    }

    /// Reads a string of `length` bytes. The text is copied out of the
    /// buffer.
    pub fn read_string(&mut self, length: usize) -> (r: Result<String, UnpackError>)
        ensures
            final(self).same_input(old(self)),
            match decode_text(old(self).bytes@, old(self).index as int, length as nat) {
                Ok((text, end)) => r matches Ok(s) && s@ == text && final(self).index == end,
                Err(e) => r == Err::<String, UnpackError>(e) && final(self).index == old(
                    self
                ).index,
            },
    {
        let start = self.index;
        let data = self.read_n_bytes(length)?;
        match string_from_utf8(slice_to_vec(data)) {
            Some(text) => {
                proof {
                    vstd::utf8::encode_utf8_decode_utf8(text@);
                }
                Ok(text)
            },
            None => {
                self.index = start;
                Err(UnpackError::InvalidUtf8 { offset: start })
            },
        }
    }

    /// Reads a byte sequence of `length` bytes. The bytes are copied out of
    /// the buffer.
    pub fn read_bytes(&mut self, length: usize) -> (r: Result<Vec<u8>, UnpackError>)
        ensures
            final(self).same_input(old(self)),
            match chunk(old(self).bytes@, old(self).index as int, length as nat) {
                Ok(payload) => r matches Ok(b) && b@ == payload && final(self).index
                    == old(self).index + length,
                Err(e) => r == Err::<Vec<u8>, UnpackError>(e) && final(self).index
                    == old(self).index,
            },
    {
        let data = self.read_n_bytes(length)?;
        Ok(slice_to_vec(data))
    }

    /// Reads the marker of a dictionary key and the length that it
    /// announces.
    pub fn read_string_length(&mut self) -> (r: Result<usize, UnpackError>)
        ensures
            final(self).same_input(old(self)),
            old(self).index <= final(self).index,
            r is Err ==> final(self).index == old(self).index,
            match decode_key_size(old(self).bytes@, old(self).index as int) {
                Ok((n, start)) => r == Ok::<usize, UnpackError>(n as usize) && n <= usize::MAX
                    && final(self).index == start,
                Err(e) => r == Err::<usize, UnpackError>(e),
            },
    {
        let start = self.index;
        let marker = self.read_byte()?;
        let high_nibble = marker & 0xF0;
        proof {
            lemma_nibbles(marker);
        }
        if high_nibble == TINY_STRING {
            Ok((marker & 0x0F) as usize)
        } else if marker == STRING_8 {
            let r = self.read_u8();
            self.rewound(start, r)
        } else if marker == STRING_16 {
            let r = self.read_u16();
            self.rewound(start, r)
        } else if marker == STRING_32 {
            let r = self.read_u32();
            self.rewound(start, r)
        } else {
            self.index = start;
            Err(UnpackError::InvalidMapKey { marker })
        }
    }

    /// Reads one value and moves the cursor behind it. A read that fails
    /// leaves the cursor where it was.
    ///
    /// A structure whose tag has a hydration hook is given as what the hook
    /// makes of it. Without hooks the result is exactly [`decode_value`].
    pub fn read(&mut self) -> (r: Result<Value, UnpackError>)
        requires
            old(self).hooks_total(),
        ensures
            final(self).same_input(old(self)),
            old(self).index <= final(self).index,
            r is Err ==> final(self).index == old(self).index,
            agrees(
                decode_value(old(self).bytes@, old(self).index as int, MAX_DEPTH as nat),
                meets(
                    seen_value(old(self).bytes@, old(self).index as int, MAX_DEPTH as nat),
                    old(self).tags(),
                ),
                outcome(r),
                final(self).index as int,
            ),
            old(self).hydrates(
                decode_value(old(self).bytes@, old(self).index as int, MAX_DEPTH as nat),
                r,
            ),
            r matches Err(UnpackError::Hook(e)) ==> fails_value(
                old(self).hydration_hooks,
                old(self).bytes@,
                old(self).index as int,
                MAX_DEPTH as nat,
                e,
            ),
    {
        self.read_nested(MAX_DEPTH)
    }

    /// Reads one value below which `depth` more levels may open.
    fn read_nested(&mut self, depth: usize) -> (r: Result<Value, UnpackError>)
        requires
            old(self).hooks_total(),
        ensures
            final(self).same_input(old(self)),
            old(self).index <= final(self).index,
            r is Err ==> final(self).index == old(self).index,
            agrees(
                decode_value(old(self).bytes@, old(self).index as int, depth as nat),
                meets(
                    seen_value(old(self).bytes@, old(self).index as int, depth as nat),
                    old(self).tags(),
                ),
                outcome(r),
                final(self).index as int,
            ),
            old(self).hydrates(
                decode_value(old(self).bytes@, old(self).index as int, depth as nat),
                r,
            ),
            r matches Err(UnpackError::Hook(e)) ==> fails_value(
                old(self).hydration_hooks,
                old(self).bytes@,
                old(self).index as int,
                depth as nat,
                e,
            ),
        decreases depth, 3nat,
    {
        let start = self.index;
        let marker = self.read_byte()?;
        let r = self.read_value(marker, depth);
        self.rewound(start, r)
    }

    /// Reads what a marker announces; the cursor stands behind the marker.
    #[verifier::rlimit(40)]
    fn read_value(&mut self, marker: u8, depth: usize) -> (r: Result<Value, UnpackError>)
        requires
            old(self).hooks_total(),
        ensures
            final(self).same_input(old(self)),
            old(self).index <= final(self).index,
            r is Err ==> final(self).index == old(self).index,
            agrees(
                decode_body(old(self).bytes@, old(self).index as int, marker, depth as nat),
                meets(
                    seen_body(old(self).bytes@, old(self).index as int, marker, depth as nat),
                    old(self).tags(),
                ),
                outcome(r),
                final(self).index as int,
            ),
            old(self).hydrates(
                decode_body(old(self).bytes@, old(self).index as int, marker, depth as nat),
                r,
            ),
            r matches Err(UnpackError::Hook(e)) ==> fails_body(
                old(self).hydration_hooks,
                old(self).bytes@,
                old(self).index as int,
                marker,
                depth as nat,
                e,
            ),
        decreases depth, 2nat,
    {
        let start = self.index;
        let high_nibble = marker & 0xF0;
        proof {
            lemma_nibbles(marker);
            lemma_radix();
        }
        if high_nibble == TINY_STRING {
            let text = self.read_string((marker & 0x0F) as usize)?;
            Ok(Value::Str(text))
        } else if high_nibble == TINY_LIST {
            self.read_list((marker & 0x0F) as usize, depth)
        } else if high_nibble == TINY_MAP {
            self.read_map((marker & 0x0F) as usize, depth)
        } else if high_nibble == TINY_STRUCT {
            self.read_struct((marker & 0x0F) as usize, depth)
        } else if marker <= 0x7F || marker >= 0xF0 {
            Ok(Value::Int(i64_from_unsigned(marker as u64, 1)))
        } else if marker == NULL {
            Ok(Value::Null)
        } else if marker == FLOAT_64 {
            let bits = self.read_f64()?;
            Ok(Value::Float(bits))
        } else if marker == FALSE {
            Ok(Value::Bool(false))
        } else if marker == TRUE {
            Ok(Value::Bool(true))
        } else if marker == INT_8 {
            let i = self.read_i8()?;
            Ok(Value::Int(i as i64))
        } else if marker == INT_16 {
            let i = self.read_i16()?;
            Ok(Value::Int(i as i64))
        } else if marker == INT_32 {
            let i = self.read_i32()?;
            Ok(Value::Int(i as i64))
        } else if marker == INT_64 {
            let i = self.read_i64()?;
            Ok(Value::Int(i))
        } else if marker == BYTES_8 {
            let len = self.read_u8()?;
            let r = self.read_bytes(len);
            let payload = self.rewound(start, r)?;
            Ok(Value::Bytes(payload))
        } else if marker == BYTES_16 {
            let len = self.read_u16()?;
            let r = self.read_bytes(len);
            let payload = self.rewound(start, r)?;
            Ok(Value::Bytes(payload))
        } else if marker == BYTES_32 {
            let len = self.read_u32()?;
            let r = self.read_bytes(len);
            let payload = self.rewound(start, r)?;
            Ok(Value::Bytes(payload))
        } else if marker == STRING_8 {
            let len = self.read_u8()?;
            let r = self.read_string(len);
            let text = self.rewound(start, r)?;
            Ok(Value::Str(text))
        } else if marker == STRING_16 {
            let len = self.read_u16()?;
            let r = self.read_string(len);
            let text = self.rewound(start, r)?;
            Ok(Value::Str(text))
        } else if marker == STRING_32 {
            let len = self.read_u32()?;
            let r = self.read_string(len);
            let text = self.rewound(start, r)?;
            Ok(Value::Str(text))
        } else if marker == LIST_8 {
            let len = self.read_u8()?;
            let r = self.read_list(len, depth);
            self.rewound(start, r)
        } else if marker == LIST_16 {
            let len = self.read_u16()?;
            let r = self.read_list(len, depth);
            self.rewound(start, r)
        } else if marker == LIST_32 {
            let len = self.read_u32()?;
            let r = self.read_list(len, depth);
            self.rewound(start, r)
        } else if marker == MAP_8 {
            let len = self.read_u8()?;
            let r = self.read_map(len, depth);
            self.rewound(start, r)
        } else if marker == MAP_16 {
            let len = self.read_u16()?;
            let r = self.read_map(len, depth);
            self.rewound(start, r)
        } else if marker == MAP_32 {
            let len = self.read_u32()?;
            let r = self.read_map(len, depth);
            self.rewound(start, r)
        } else if marker == STRUCT_8 {
            let len = self.read_u8()?;
            let r = self.read_struct(len, depth);
            self.rewound(start, r)
        } else if marker == STRUCT_16 {
            let len = self.read_u16()?;
            let r = self.read_struct(len, depth);
            self.rewound(start, r)
        } else {
            Err(UnpackError::UnknownMarker { marker })
        }
    }

    /// Reads `length` values, one after the other.
    fn read_items(&mut self, length: usize, depth: usize) -> (r: Result<Vec<Value>, UnpackError>)
        requires
            old(self).hooks_total(),
        ensures
            final(self).same_input(old(self)),
            old(self).index <= final(self).index,
            r is Err ==> final(self).index == old(self).index,
            agrees(
                decode_items(
                    old(self).bytes@,
                    old(self).index as int,
                    length as nat,
                    depth as nat,
                    Seq::empty(),
                ),
                meets(
                    seen_items(
                        old(self).bytes@,
                        old(self).index as int,
                        length as nat,
                        depth as nat,
                    ),
                    old(self).tags(),
                ),
                match r {
                    Ok(items) => Ok(views(items@)),
                    Err(e) => Err(e),
                },
                final(self).index as int,
            ),
            r matches Ok(items) ==> hydration_of_items(
                old(self).hydration_hooks,
                decode_items(
                    old(self).bytes@,
                    old(self).index as int,
                    length as nat,
                    depth as nat,
                    Seq::empty(),
                )->Ok_0.0,
                views(items@),
            ),
            r matches Err(UnpackError::Hook(e)) ==> fails_items(
                old(self).hydration_hooks,
                old(self).bytes@,
                old(self).index as int,
                length as nat,
                depth as nat,
                e,
            ),
        decreases depth, length + 4,
    {
        let first = self.index;
        let ghost start = self.index as int;
        let ghost tags = self.tags();
        let ghost seen = seen_items(self.bytes@, start, length as nat, depth as nat);
        let ghost mut raw: Seq<Term> = Seq::empty();
        let mut items: Vec<Value> = Vec::new();
        let mut i: usize = 0;
        assert(views(items@) =~= raw);
        while i < length
            invariant
                i <= length,
                self.same_input(old(self)),
                self.hooks_total(),
                tags == self.tags(),
                old(self).index <= self.index,
                start == old(self).index,
                first == old(self).index,
                seen == seen_items(self.bytes@, start, length as nat, depth as nat),
                seen_items(
                    self.bytes@,
                    self.index as int,
                    (length - i) as nat,
                    depth as nat,
                ).subset_of(seen),
                decode_items(self.bytes@, start, length as nat, depth as nat, Seq::empty())
                    == decode_items(
                    self.bytes@,
                    self.index as int,
                    (length - i) as nat,
                    depth as nat,
                    raw,
                ),
                !meets(seen, tags) ==> views(items@) == raw,
                hydration_of_items(self.hydration_hooks, raw, views(items@)),
                forall|e: HookError| #[trigger]
                    fails_items(
                        self.hydration_hooks,
                        self.bytes@,
                        self.index as int,
                        (length - i) as nat,
                        depth as nat,
                        e,
                    ) ==> fails_items(
                        self.hydration_hooks,
                        self.bytes@,
                        start,
                        length as nat,
                        depth as nat,
                        e,
                    ),
            decreases length - i,
        {
            let ghost held = decode_value(self.bytes@, self.index as int, depth as nat);
            let ghost here = seen_value(self.bytes@, self.index as int, depth as nat);
            let ghost before = items@;
            proof {
                assert(here.subset_of(seen));
                if meets(here, tags) {
                    let tag = choose|tag: u8| #[trigger] here.contains(tag) && tags.contains(tag);
                    assert(seen.contains(tag));
                }
            }
            let ghost at = self.index as int;
            let r = self.read_nested(depth);
            proof {
                if r is Err && r->Err_0 is Hook {
                    let e = r->Err_0->Hook_0;
                    assert(fails_items(
                        self.hydration_hooks,
                        self.bytes@,
                        at,
                        (length - i) as nat,
                        depth as nat,
                        e,
                    ));
                }
            }
            let item = self.rewound(first, r)?;
            items.push(item);
            proof {
                assert(views(items@) =~= views(before).push(item@));
                raw = raw.push(held->Ok_0.0);
                assert forall|e: HookError| #[trigger]
                    fails_items(
                        self.hydration_hooks,
                        self.bytes@,
                        self.index as int,
                        (length - i - 1) as nat,
                        depth as nat,
                        e,
                    ) implies fails_items(
                    self.hydration_hooks,
                    self.bytes@,
                    start,
                    length as nat,
                    depth as nat,
                    e,
                ) by {
                    assert(fails_items(
                        self.hydration_hooks,
                        self.bytes@,
                        at,
                        (length - i) as nat,
                        depth as nat,
                        e,
                    ));
                }
            }
            i = i + 1;
        }
        Ok(items)
    }

    /// Reads a list of `length` items.
    fn read_list(&mut self, length: usize, depth: usize) -> (r: Result<Value, UnpackError>)
        requires
            old(self).hooks_total(),
        ensures
            final(self).same_input(old(self)),
            old(self).index <= final(self).index,
            r is Err ==> final(self).index == old(self).index,
            agrees(
                decode_list(
                    old(self).bytes@,
                    old(self).index as int,
                    length as nat,
                    depth as nat,
                ),
                meets(
                    seen_list(
                        old(self).bytes@,
                        old(self).index as int,
                        length as nat,
                        depth as nat,
                    ),
                    old(self).tags(),
                ),
                outcome(r),
                final(self).index as int,
            ),
            old(self).hydrates(
                decode_list(
                    old(self).bytes@,
                    old(self).index as int,
                    length as nat,
                    depth as nat,
                ),
                r,
            ),
            r matches Err(UnpackError::Hook(e)) ==> fails_list(
                old(self).hydration_hooks,
                old(self).bytes@,
                old(self).index as int,
                length as nat,
                depth as nat,
                e,
            ),
        decreases depth, 1nat,
    {
        if depth == 0 {
            return Err(UnpackError::SizeOverflow);
        }
        let items = self.read_items(length, depth - 1)?;
        let value = Value::List(items);
        proof {
            lemma_view_unfold(value);
        }
        Ok(value)
    }

    /// Reads a dictionary of `length` entries: for each its key, a string,
    /// then its value. An entry whose key was read before gives that key a
    /// new value.
    fn read_map(&mut self, length: usize, depth: usize) -> (r: Result<Value, UnpackError>)
        requires
            old(self).hooks_total(),
        ensures
            final(self).same_input(old(self)),
            old(self).index <= final(self).index,
            r is Err ==> final(self).index == old(self).index,
            agrees(
                decode_dict(
                    old(self).bytes@,
                    old(self).index as int,
                    length as nat,
                    depth as nat,
                ),
                meets(
                    seen_dict(
                        old(self).bytes@,
                        old(self).index as int,
                        length as nat,
                        depth as nat,
                    ),
                    old(self).tags(),
                ),
                outcome(r),
                final(self).index as int,
            ),
            old(self).hydrates(
                decode_dict(
                    old(self).bytes@,
                    old(self).index as int,
                    length as nat,
                    depth as nat,
                ),
                r,
            ),
            r matches Err(UnpackError::Hook(e)) ==> fails_dict(
                old(self).hydration_hooks,
                old(self).bytes@,
                old(self).index as int,
                length as nat,
                depth as nat,
                e,
            ),
        decreases depth, 1nat,
    {
        if depth == 0 {
            return Err(UnpackError::SizeOverflow);
        }
        let first = self.index;
        let ghost start = self.index as int;
        let ghost tags = self.tags();
        let ghost below = (depth - 1) as nat;
        let ghost seen = seen_entries(self.bytes@, start, length as nat, below);
        let ghost mut raw: Seq<(Term, Term)> = Seq::empty();
        let mut entries: Vec<(Value, Value)> = Vec::new();
        let mut i: usize = 0;
        assert(entry_views(entries@) =~= raw);
        while i < length
            invariant
                i <= length,
                depth > 0,
                below == depth - 1,
                self.same_input(old(self)),
                self.hooks_total(),
                tags == self.tags(),
                old(self).index <= self.index,
                start == old(self).index,
                first == old(self).index,
                seen == seen_entries(self.bytes@, start, length as nat, below),
                seen_entries(self.bytes@, self.index as int, (length - i) as nat, below).subset_of(
                    seen,
                ),
                entries@.len() == raw.len(),
                keys_of(entry_views(entries@)) == keys_of(raw),
                decode_entries(self.bytes@, start, length as nat, below, Seq::empty())
                    == decode_entries(
                    self.bytes@,
                    self.index as int,
                    (length - i) as nat,
                    below,
                    raw,
                ),
                !meets(seen, tags) ==> entry_views(entries@) == raw,
                hydration_of_entries(self.hydration_hooks, raw, entry_views(entries@)),
                forall|e: HookError| #[trigger]
                    fails_entries(
                        self.hydration_hooks,
                        self.bytes@,
                        self.index as int,
                        (length - i) as nat,
                        below,
                        e,
                    ) ==> fails_entries(
                        self.hydration_hooks,
                        self.bytes@,
                        start,
                        length as nat,
                        below,
                        e,
                    ),
            decreases length - i,
        {
            let ghost at = self.index as int;
            let r = self.read_string_length();
            let len = self.rewound(first, r)?;
            let r = self.read_string(len);
            let key = self.rewound(first, r)?;
            let ghost held = decode_value(self.bytes@, self.index as int, below);
            let ghost here = seen_value(self.bytes@, self.index as int, below);
            proof {
                assert(here.subset_of(seen));
                if meets(here, tags) {
                    let tag = choose|tag: u8| #[trigger] here.contains(tag) && tags.contains(tag);
                    assert(seen.contains(tag));
                }
            }
            let r = self.read_nested(depth - 1);
            proof {
                if r is Err && r->Err_0 is Hook {
                    let e = r->Err_0->Hook_0;
                    assert(fails_entries(
                        self.hydration_hooks,
                        self.bytes@,
                        at,
                        (length - i) as nat,
                        below,
                        e,
                    ));
                }
            }
            let value = self.rewound(first, r)?;
            proof {
                assert forall|e: HookError| #[trigger]
                    fails_entries(
                        self.hydration_hooks,
                        self.bytes@,
                        self.index as int,
                        (length - i - 1) as nat,
                        below,
                        e,
                    ) implies fails_entries(
                    self.hydration_hooks,
                    self.bytes@,
                    start,
                    length as nat,
                    below,
                    e,
                ) by {
                    assert(fails_entries(
                        self.hydration_hooks,
                        self.bytes@,
                        at,
                        (length - i) as nat,
                        below,
                        e,
                    ));
                }
            }
            let ghost before = entries@;
            let ghost raw_before = raw;
            proof {
                keys_of(raw).index_of_first_ensures(Term::Str(key@));
                raw = put(raw, Term::Str(key@), held->Ok_0.0);
            }
            put_entry(&mut entries, key, value);
            proof {
                let place = keys_of(raw_before).index_of_first(Term::Str(key@));
                assert(entries@.len() == raw.len());
                assert forall|j: int| 0 <= j < raw.len() implies keys_of(entry_views(entries@))[j]
                    == keys_of(raw)[j] by {
                    if j < raw_before.len() && place != Some(j) {
                        assert(keys_of(entry_views(before))[j] == keys_of(raw_before)[j]);
                    }
                }
                assert(keys_of(entry_views(entries@)) =~= keys_of(raw));
                if !meets(seen, tags) {
                    assert forall|j: int| 0 <= j < raw.len() implies entry_views(entries@)[j]
                        == raw[j] by {
                        if j < raw_before.len() && place != Some(j) {
                            assert(entry_views(before)[j] == raw_before[j]);
                        }
                    }
                    assert(entry_views(entries@) =~= raw);
                }
                assert forall|j: int| 0 <= j < raw.len() implies entry_views(entries@)[j].0 == (
                #[trigger] raw[j]).0 && hydration(
                    self.hydration_hooks,
                    raw[j].1,
                    entry_views(entries@)[j].1,
                ) by {
                    assert(keys_of(entry_views(entries@))[j] == keys_of(raw)[j]);
                    if j < raw_before.len() && place != Some(j) {
                        assert(hydration(
                            self.hydration_hooks,
                            raw_before[j].1,
                            entry_views(before)[j].1,
                        ));
                    }
                }
            }
            i = i + 1;
        }
        let value = Value::Dict(entries);
        proof {
            lemma_view_unfold(value);
        }
        Ok(value)
    }

    /// Reads a structure of `length` fields: its tag, then the fields. If
    /// the tag has a hydration hook, the result is what the hook makes of
    /// the structure.
    fn read_struct(&mut self, length: usize, depth: usize) -> (r: Result<Value, UnpackError>)
        requires
            old(self).hooks_total(),
        ensures
            final(self).same_input(old(self)),
            old(self).index <= final(self).index,
            r is Err ==> final(self).index == old(self).index,
            agrees(
                decode_struct(
                    old(self).bytes@,
                    old(self).index as int,
                    length as nat,
                    depth as nat,
                ),
                meets(
                    seen_struct(
                        old(self).bytes@,
                        old(self).index as int,
                        length as nat,
                        depth as nat,
                    ),
                    old(self).tags(),
                ),
                outcome(r),
                final(self).index as int,
            ),
            old(self).hydrates(
                decode_struct(
                    old(self).bytes@,
                    old(self).index as int,
                    length as nat,
                    depth as nat,
                ),
                r,
            ),
            r matches Err(UnpackError::Hook(e)) ==> fails_struct(
                old(self).hydration_hooks,
                old(self).bytes@,
                old(self).index as int,
                length as nat,
                depth as nat,
                e,
            ),
        decreases depth, 1nat,
    {
        if depth == 0 {
            return Err(UnpackError::SizeOverflow);
        }
        let ghost tags = self.tags();
        let ghost seen = seen_struct(
            self.bytes@,
            self.index as int,
            length as nat,
            depth as nat,
        );
        let start = self.index;
        let tag = self.read_byte()?;
        let ghost below = seen_items(
            self.bytes@,
            self.index as int,
            length as nat,
            (depth - 1) as nat,
        );
        proof {
            assert(seen == below.insert(tag));
            if meets(below, tags) {
                let inner = choose|inner: u8|
                    #[trigger] below.contains(inner) && tags.contains(inner);
                assert(seen.contains(inner));
            }
        }
        let r = self.read_items(length, depth - 1);
        let fields = self.rewound(start, r)?;
        let structure = Structure { tag, fields };
        let transformer = match self.hydration_hooks {
            Some(hooks) => hooks.get_transformer(tag),
            None => None,
        };
        match transformer {
            None => {
                let value = Value::Structure(structure);
                proof {
                    lemma_view_unfold(value);
                }
                Ok(value)
            },
            Some(transform) => {
                proof {
                    assert(seen.contains(tag) && tags.contains(tag));
                }
                let made = transform(structure);
                proof {
                    if made is Ok {
                        let value = made->Ok_0;
                        assert(call_ensures(
                            self.hydration_hooks->Some_0.transform(tag),
                            (structure,),
                            Ok::<Value, HookError>(value),
                        ));
                    }
                }
                let r = hydrated(made);
                self.rewound(start, r)
            },
        }
    }
}

/// The index of the first entry with the key, if there is one.
fn find_key(entries: &Vec<(Value, Value)>, key: &String) -> (found: Option<usize>)
    ensures
        match keys_of(entry_views(entries@)).index_of_first(Term::Str(key@)) {
            Some(i) => found == Some(i as usize) && 0 <= i < entries@.len() <= usize::MAX,
            None => found is None,
        },
{
    let ghost keys = keys_of(entry_views(entries@));
    proof {
        keys.index_of_first_ensures(Term::Str(key@));
    }
    let mut i: usize = 0;
    while i < entries.len()
        invariant
            i <= entries@.len(),
            keys == keys_of(entry_views(entries@)),
            forall|j: int| 0 <= j < i ==> keys[j] != Term::Str(key@),
        decreases entries@.len() - i,
    {
        let same = match &entries[i].0 {
            Value::Str(text) => *text == *key,
            _ => false,
        };
        assert(same <==> keys[i as int] == Term::Str(key@));
        if same {
            proof {
                assert(keys.contains(Term::Str(key@)));
                keys.index_of_first_ensures(Term::Str(key@));
                let first = keys.index_of_first(Term::Str(key@))->Some_0;
                if first < i {
                    assert(keys[first] != Term::Str(key@));
                }
                if first > i {
                    assert(keys[i as int] != Term::Str(key@));
                }
            }
            return Some(i);
        }
        i = i + 1;
    }
    proof {
        if keys.contains(Term::Str(key@)) {
            let j = choose|j: int| 0 <= j < keys.len() && keys[j] == Term::Str(key@);
            assert(keys[j] != Term::Str(key@));
        }
    }
    None
}

/// Sets a key of a dictionary under construction: the first entry with that
/// key gets the new value, or a new entry stands at the end.
fn put_entry(entries: &mut Vec<(Value, Value)>, key: String, value: Value)
    ensures
        final(entries)@ == match keys_of(entry_views(old(entries)@)).index_of_first(
            Term::Str(key@),
        ) {
            Some(i) => old(entries)@.update(i, (Value::Str(key), value)),
            None => old(entries)@.push((Value::Str(key), value)),
        },
{
    match find_key(entries, &key) {
        Some(i) => {
            entries.set(i, (Value::Str(key), value));
        },
        None => {
            entries.push((Value::Str(key), value));
        },
    }
}

/// What a read gives for a structure whose tag has a hook: what the hook
/// made of the structure, or the hook's own error, unchanged.
pub fn hydrated(made: Result<Value, HookError>) -> (r: Result<Value, UnpackError>)
    ensures
        r == match made {
            Ok(value) => Ok::<Value, UnpackError>(value),
            Err(e) => Err::<Value, UnpackError>(UnpackError::Hook(e)),
        },
{
    match made {
        Ok(value) => Ok(value),
        Err(e) => Err(UnpackError::Hook(e)),
    }
}

/// Decodes the value that starts at the offset `idx` of `bytes`, and gives
/// it with the offset at which it ends.
///
/// A structure whose tag has a hydration hook is given as what the hook
/// makes of it. Without hooks the result is exactly [`decode_value`].
pub fn unpack<F: Fn(Structure) -> Result<Value, HookError>>(
    bytes: &[u8],
    idx: usize,
    hydration_hooks: Option<&HydrationHooks<F>>,
) -> (r: Result<(Value, usize), UnpackError>)
    requires
        hydration_hooks matches Some(hooks) ==> forall|i: int, structure: Structure|
            0 <= i < hooks.entries@.len() ==> #[trigger] call_requires(
                hooks.entries@[i].1,
                (structure,),
            ),
    ensures
        agrees(
            decode_value(bytes@, idx as int, MAX_DEPTH as nat),
            meets(
                seen_value(bytes@, idx as int, MAX_DEPTH as nat),
                match hydration_hooks {
                    Some(hooks) => hooks.tags(),
                    None => Set::empty(),
                },
            ),
            match r {
                Ok((value, _)) => Ok(value@),
                Err(e) => Err(e),
            },
            match r {
                Ok((_, end)) => end as int,
                Err(_) => idx as int,
            },
        ),
        decode_value(bytes@, idx as int, MAX_DEPTH as nat) is Ok && r is Ok ==> hydration(
            hydration_hooks,
            decode_value(bytes@, idx as int, MAX_DEPTH as nat)->Ok_0.0,
            r->Ok_0.0@,
        ),
        r matches Err(UnpackError::Hook(e)) ==> fails_value(
            hydration_hooks,
            bytes@,
            idx as int,
            MAX_DEPTH as nat,
            e,
        ),
{
    let mut decoder = PackStreamDecoder::new(bytes, idx, hydration_hooks);
    let result = decoder.read()?;
    Ok((result, decoder.index))
}

/// The nibbles of a marker, in terms of its value.
pub proof fn lemma_nibbles(marker: u8)
    ensures
        marker & 0xF0 == 0x80 <==> 0x80 <= marker < 0x90,
        marker & 0xF0 == 0x90 <==> 0x90 <= marker < 0xA0,
        marker & 0xF0 == 0xA0 <==> 0xA0 <= marker < 0xB0,
        marker & 0xF0 == 0xB0 <==> 0xB0 <= marker < 0xC0,
        marker & 0x0F == marker % 16,
{
    assert(marker & 0xF0 == 0x80 <==> 0x80 <= marker < 0x90) by (bit_vector);
    assert(marker & 0xF0 == 0x90 <==> 0x90 <= marker < 0xA0) by (bit_vector);
    assert(marker & 0xF0 == 0xA0 <==> 0xA0 <= marker < 0xB0) by (bit_vector);
    assert(marker & 0xF0 == 0xB0 <==> 0xB0 <= marker < 0xC0) by (bit_vector);
    assert(marker & 0x0F == marker % 16) by (bit_vector);
}

} // verus!
