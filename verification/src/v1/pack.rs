//! The encoder: from a value to its bytes.
//!
//! [`PackStreamEncoder`] writes what [`encoding`] says the bytes of a value
//! are, and [`pack`] is the one call that most callers need.

use crate::hooks::{DehydrationHooks, HookError};
use crate::v1::encoding::{
    counted, encoding, entries_encoding, entries_follow, entries_written_with, entry_encoding,
    entry_written_with, extends, follows, framed, int_encoding, items_encoding, items_follow,
    items_written_with, kinds_of, lemma_entries_encoding_shift, lemma_entries_written_shift,
    lemma_entries_written_so_far, lemma_extends, lemma_items_encoding_shift,
    lemma_items_written_shift, lemma_items_written_so_far, size_header, struct_header,
    lemma_untouched_without_hooks, packed, touches, touches_any,
    touches_any_entry, written_with, wrote, wrote_entries_with, wrote_items_with, wrote_with,
    Trace,
};
use crate::v1::wire::{
    be_bytes, i64_to_unsigned, lemma_radix, to_unsigned, u16_to_be_bytes, u32_to_be_bytes,
    u64_to_be_bytes,
};
use crate::v1::{
    Family, BYTES_16, BYTES_32, BYTES_8, FALSE, FLOAT_64, INT_16, INT_32, INT_64, INT_8,
    LIST_16, LIST_32, LIST_8, MAP_16, MAP_32, MAP_8, MAX_DEPTH, MAX_FIELDS, MAX_SIZE, NULL,
    STRING_16, STRING_32, STRING_8, TINY_LIST, TINY_MAP, TINY_STRING, TINY_STRUCT, TRUE,
};
use crate::value::{entry_views, lemma_view_unfold, views, Foreign, Kind, Term, Value};
use vstd::prelude::*;
use vstd::utf8::encode_utf8;

verus! {

/// The limits of the format that a value can exceed.
#[derive(Clone, Copy, Debug, PartialEq, Eq, Structural)]
pub enum Limit {
    /// A string of more than [`MAX_SIZE`] bytes.
    Str,
    /// A byte sequence of more than [`MAX_SIZE`] bytes.
    Bytes,
    /// A list of more than [`MAX_SIZE`] items.
    List,
    /// A dictionary of more than [`MAX_SIZE`] entries.
    Dict,
    /// A structure of more than [`MAX_FIELDS`] fields.
    Structure,
    /// Lists, dictionaries and structures nested more than [`MAX_DEPTH`]
    /// deep.
    Depth,
}

/// Why a value has no encoding.
#[derive(Debug, PartialEq, Eq)]
pub enum PackError {
    /// A dictionary has a key of this kind; only strings can be keys.
    InvalidMapKey(Kind),
    /// The value exceeds a limit of the format.
    SizeOverflow(Limit),
    /// Values of this kind are not supported: the value is an application
    /// object and no dehydration hook is registered for its kind.
    Unsupported(Kind),
    /// A dehydration hook failed.
    Hook(HookError),
}

/// Appends bytes to a buffer.
fn extend(buffer: &mut Vec<u8>, bytes: &[u8])
    ensures
        final(buffer)@ == old(buffer)@ + bytes@,
{
    buffer.extend_from_slice(bytes);
    assert(buffer@ =~= old(buffer)@ + bytes@);
}

/// Writes values into a buffer that only grows.
pub struct PackStreamEncoder<'a, F> {
    pub dehydration_hooks: Option<&'a DehydrationHooks<F>>,
    pub buffer: Vec<u8>,
}

impl<'a, F: Fn(Foreign) -> Result<Value, HookError>> PackStreamEncoder<'a, F> {
    /// The kinds of application objects that the encoder can dehydrate.
    pub open spec fn kinds(&self) -> Set<u64> {
        match self.dehydration_hooks {
            Some(hooks) => hooks.kinds(),
            None => Set::empty(),
        }
    }

    /// Every hook of the table accepts every application object.
    pub open spec fn hooks_total(&self) -> bool {
        match self.dehydration_hooks {
            Some(hooks) => forall|i: int, object: Foreign|
                0 <= i < hooks.entries@.len() ==> #[trigger] call_requires(
                    hooks.entries@[i].1,
                    (object,),
                ),
            None => true,
        }
    }

    /// An encoder with an empty buffer.
    pub fn new(dehydration_hooks: Option<&'a DehydrationHooks<F>>) -> (encoder: Self)
        ensures
            encoder.dehydration_hooks == dehydration_hooks,
            encoder.buffer@.len() == 0,
    {
        PackStreamEncoder { dehydration_hooks, buffer: Vec::new() }
    }

    /// Writes an integer in the smallest form that holds it.
    pub fn write_int(&mut self, i: i64) -> (r: Result<(), PackError>)
        ensures
            r is Ok,
            final(self).buffer@ == old(self).buffer@ + int_encoding(i),
            final(self).dehydration_hooks == old(self).dehydration_hooks,
    {
        proof {
            lemma_radix();
            reveal_with_fuel(be_bytes, 2);
        }
        if -16 <= i && i <= 127 {
            self.buffer.push(i64_to_unsigned(i, 1) as u8);
        } else if -0x80 <= i && i <= 0x7F {
            let byte = i64_to_unsigned(i, 1) as u8;
            self.buffer.push(INT_8);
            self.buffer.push(byte);
            assert(seq![byte] =~= be_bytes(to_unsigned(i as int, 1), 1));
        } else if -0x8000 <= i && i <= 0x7FFF {
            self.buffer.push(INT_16);
            let bytes = u16_to_be_bytes(i64_to_unsigned(i, 2) as u16);
            extend(&mut self.buffer, bytes.as_slice());
        } else if -0x8000_0000 <= i && i <= 0x7FFF_FFFF {
            self.buffer.push(INT_32);
            let bytes = u32_to_be_bytes(i64_to_unsigned(i, 4) as u32);
            extend(&mut self.buffer, bytes.as_slice());
        } else {
            self.buffer.push(INT_64);
            let bytes = u64_to_be_bytes(i64_to_unsigned(i, 8));
            extend(&mut self.buffer, bytes.as_slice());
        }
        assert(self.buffer@ =~= old(self).buffer@ + int_encoding(i));
        Ok(())
    }

    /// Writes a float, given by its IEEE-754 binary64 bits.
    pub fn write_float(&mut self, bits: u64) -> (r: Result<(), PackError>)
        ensures
            r is Ok,
            final(self).buffer@ == old(self).buffer@ + (seq![FLOAT_64] + be_bytes(bits as nat, 8)),
            final(self).dehydration_hooks == old(self).dehydration_hooks,
    {
        self.buffer.push(FLOAT_64);
        let bytes = u64_to_be_bytes(bits);
        extend(&mut self.buffer, bytes.as_slice());
        assert(self.buffer@ =~= old(self).buffer@ + (seq![FLOAT_64] + be_bytes(bits as nat, 8)));
        Ok(())
    }

    /// Writes the header of a byte sequence, then the bytes.
    pub fn write_bytes(&mut self, b: &[u8]) -> (r: Result<(), PackError>)
        ensures
            final(self).dehydration_hooks == old(self).dehydration_hooks,
            match framed(Family::Bytes, b@) {
                Ok(bytes) => r is Ok && final(self).buffer@ == old(self).buffer@ + bytes,
                Err(e) => r == Err::<(), PackError>(e) && final(self).buffer@ == old(self).buffer@,
            },
    {
        let size = b.len();
        proof {
            reveal_with_fuel(be_bytes, 2);
        }
        if size <= 255 {
            self.buffer.push(BYTES_8);
            self.buffer.push(size as u8);
            assert(seq![size as u8] =~= be_bytes(size as nat, 1));
        } else if size <= 65_535 {
            self.buffer.push(BYTES_16);
            let bytes = u16_to_be_bytes(size as u16);
            extend(&mut self.buffer, bytes.as_slice());
        } else if size <= MAX_SIZE {
            self.buffer.push(BYTES_32);
            let bytes = u32_to_be_bytes(size as u32);
            extend(&mut self.buffer, bytes.as_slice());
        } else {
            return Err(PackError::SizeOverflow(Limit::Bytes));
        }
        assert(self.buffer@ =~= old(self).buffer@ + size_header(Family::Bytes, size as nat));
        extend(&mut self.buffer, b);
        assert(self.buffer@ =~= old(self).buffer@ + (size_header(Family::Bytes, size as nat) + b@));
        Ok(())
    }

    /// Writes the header of a string, then its UTF-8 bytes.
    pub fn write_string(&mut self, s: &str) -> (r: Result<(), PackError>)
        ensures
            final(self).dehydration_hooks == old(self).dehydration_hooks,
            match framed(Family::Str, encode_utf8(s@)) {
                Ok(bytes) => r is Ok && final(self).buffer@ == old(self).buffer@ + bytes,
                Err(e) => r == Err::<(), PackError>(e) && final(self).buffer@ == old(self).buffer@,
            },
    {
        let bytes = s.as_bytes();
        let size = bytes.len();
        proof {
            reveal_with_fuel(be_bytes, 2);
        }
        if size <= 15 {
            self.buffer.push(TINY_STRING + size as u8);
        } else if size <= 255 {
            self.buffer.push(STRING_8);
            self.buffer.push(size as u8);
            assert(seq![size as u8] =~= be_bytes(size as nat, 1));
        } else if size <= 65_535 {
            self.buffer.push(STRING_16);
            let header = u16_to_be_bytes(size as u16);
            extend(&mut self.buffer, header.as_slice());
        } else if size <= MAX_SIZE {
            self.buffer.push(STRING_32);
            let header = u32_to_be_bytes(size as u32);
            extend(&mut self.buffer, header.as_slice());
        } else {
            return Err(PackError::SizeOverflow(Limit::Str));
        }
        assert(self.buffer@ =~= old(self).buffer@ + size_header(Family::Str, size as nat));
        extend(&mut self.buffer, bytes);
        assert(self.buffer@ =~= old(self).buffer@ + (size_header(Family::Str, size as nat)
            + bytes@));
        Ok(())
    }

    /// Writes the header of a list of `size` items.
    pub fn write_list_header(&mut self, size: u64) -> (r: Result<(), PackError>)
        ensures
            final(self).dehydration_hooks == old(self).dehydration_hooks,
            match counted(Family::List, size as nat) {
                Ok(bytes) => r is Ok && final(self).buffer@ == old(self).buffer@ + bytes,
                Err(e) => r == Err::<(), PackError>(e) && final(self).buffer@ == old(self).buffer@,
            },
    {
        proof {
            reveal_with_fuel(be_bytes, 2);
        }
        if size <= 15 {
            self.buffer.push(TINY_LIST + size as u8);
        } else if size <= 255 {
            self.buffer.push(LIST_8);
            self.buffer.push(size as u8);
            assert(seq![size as u8] =~= be_bytes(size as nat, 1));
        } else if size <= 65_535 {
            self.buffer.push(LIST_16);
            let header = u16_to_be_bytes(size as u16);
            extend(&mut self.buffer, header.as_slice());
        } else if size <= 2_147_483_647 {
            self.buffer.push(LIST_32);
            let header = u32_to_be_bytes(size as u32);
            extend(&mut self.buffer, header.as_slice());
        } else {
            return Err(PackError::SizeOverflow(Limit::List));
        }
        assert(self.buffer@ =~= old(self).buffer@ + size_header(Family::List, size as nat));
        Ok(())
    }

    /// Writes the header of a dictionary of `size` entries.
    pub fn write_dict_header(&mut self, size: u64) -> (r: Result<(), PackError>)
        ensures
            final(self).dehydration_hooks == old(self).dehydration_hooks,
            match counted(Family::Dict, size as nat) {
                Ok(bytes) => r is Ok && final(self).buffer@ == old(self).buffer@ + bytes,
                Err(e) => r == Err::<(), PackError>(e) && final(self).buffer@ == old(self).buffer@,
            },
    {
        proof {
            reveal_with_fuel(be_bytes, 2);
        }
        if size <= 15 {
            self.buffer.push(TINY_MAP + size as u8);
        } else if size <= 255 {
            self.buffer.push(MAP_8);
            self.buffer.push(size as u8);
            assert(seq![size as u8] =~= be_bytes(size as nat, 1));
        } else if size <= 65_535 {
            self.buffer.push(MAP_16);
            let header = u16_to_be_bytes(size as u16);
            extend(&mut self.buffer, header.as_slice());
        } else if size <= 2_147_483_647 {
            self.buffer.push(MAP_32);
            let header = u32_to_be_bytes(size as u32);
            extend(&mut self.buffer, header.as_slice());
        } else {
            return Err(PackError::SizeOverflow(Limit::Dict));
        }
        assert(self.buffer@ =~= old(self).buffer@ + size_header(Family::Dict, size as nat));
        Ok(())
    }

    /// Writes the header of a structure: the marker with the number of
    /// fields, then the tag.
    pub fn write_struct_header(&mut self, tag: u8, size: u8) -> (r: Result<(), PackError>)
        ensures
            final(self).dehydration_hooks == old(self).dehydration_hooks,
            size <= MAX_FIELDS ==> r is Ok && final(self).buffer@ == old(self).buffer@
                + struct_header(tag, size as nat),
            size > MAX_FIELDS ==> r == Err::<(), PackError>(
                PackError::SizeOverflow(Limit::Structure),
            ) && final(self).buffer@ == old(self).buffer@,
    {
        if size > 15 {
            return Err(PackError::SizeOverflow(Limit::Structure));
        }
        self.buffer.push(TINY_STRUCT + size);
        self.buffer.push(tag);
        assert(self.buffer@ =~= old(self).buffer@ + struct_header(tag, size as nat));
        Ok(())
    }

    /// Writes a value: its marker, then what the marker announces.
    ///
    /// An application object is written as what its dehydration hook makes
    /// of it. What is written, or the error with which the write stops, is
    /// what [`written_with`] says, given what the hooks gave; where the
    /// value holds no application object that has a hook, that is exactly
    /// [`encoding`].
    pub fn write(&mut self, value: &Value) -> (r: Result<(), PackError>)
        requires
            old(self).hooks_total(),
        ensures
            final(self).dehydration_hooks == old(self).dehydration_hooks,
            extends(final(self).buffer@, old(self).buffer@),
            wrote_with(
                old(self).dehydration_hooks,
                value@,
                MAX_DEPTH as nat,
                old(self).buffer@,
                final(self).buffer@,
                r,
            ),
            old(self).dehydration_hooks is None || !touches(value@, old(self).kinds()) ==> wrote(
                old(self).buffer@,
                final(self).buffer@,
                r,
                encoding(value@, MAX_DEPTH as nat),
            ),
    {
        proof {
            lemma_untouched_without_hooks(value@);
        }
        self.write_nested(value, MAX_DEPTH)
    }

    /// Writes what a dehydration hook gave for an application object, with
    /// `depth` levels left below: the value that the hook made of the
    /// object, as [`write`](Self::write) writes it; or nothing, if the hook
    /// gave an error, which then comes back unchanged.
    pub fn write_dehydrated(&mut self, made: Result<Value, HookError>, depth: usize) -> (r: Result<
        (),
        PackError,
    >)
        requires
            old(self).hooks_total(),
        ensures
            final(self).dehydration_hooks == old(self).dehydration_hooks,
            extends(final(self).buffer@, old(self).buffer@),
            match made {
                Ok(replacement) => wrote_with(
                    old(self).dehydration_hooks,
                    replacement@,
                    depth as nat,
                    old(self).buffer@,
                    final(self).buffer@,
                    r,
                ),
                Err(e) => r == Err::<(), PackError>(PackError::Hook(e)) && final(self).buffer@
                    == old(self).buffer@,
            },
        decreases depth, 1nat,
    {
        proof {
            lemma_extends(self.buffer@, Seq::empty(), Seq::empty());
        }
        match made {
            Ok(replacement) => self.write_nested(&replacement, depth),
            Err(e) => Err(PackError::Hook(e)),
        }
    }

    /// Writes a value below which `depth` more levels may open.
    fn write_nested(&mut self, value: &Value, depth: usize) -> (r: Result<(), PackError>)
        requires
            old(self).hooks_total(),
        ensures
            final(self).dehydration_hooks == old(self).dehydration_hooks,
            extends(final(self).buffer@, old(self).buffer@),
            wrote_with(
                old(self).dehydration_hooks,
                value@,
                depth as nat,
                old(self).buffer@,
                final(self).buffer@,
                r,
            ),
            !touches(value@, old(self).kinds()) ==> wrote(
                old(self).buffer@,
                final(self).buffer@,
                r,
                encoding(value@, depth as nat),
            ),
        decreases depth, 0nat,
    {
        proof {
            lemma_view_unfold(*value);
            lemma_extends(self.buffer@, Seq::empty(), Seq::empty());
        }
        let ghost before = self.buffer@;
        let ghost hooks = self.dehydration_hooks;
        let ghost kinds = kinds_of(hooks);
        match value {
            Value::Null => {
                self.buffer.push(NULL);
                assert(self.buffer@ =~= before + seq![NULL]);
                assert(follows(hooks, value@, depth as nat, Trace::Plain));
                Ok(())
            },
            Value::Bool(b) => {
                self.buffer.push(if *b { TRUE } else { FALSE });
                assert(self.buffer@ =~= before + seq![if *b { TRUE } else { FALSE }]);
                assert(follows(hooks, value@, depth as nat, Trace::Plain));
                Ok(())
            },
            Value::Float(bits) => {
                let r = self.write_float(*bits);
                proof {
                    lemma_extends(before, seq![FLOAT_64] + be_bytes(*bits as nat, 8), before);
                    assert(follows(hooks, value@, depth as nat, Trace::Plain));
                }
                r
            },
            Value::Int(i) => {
                let r = self.write_int(*i);
                proof {
                    lemma_extends(before, int_encoding(*i), before);
                    assert(follows(hooks, value@, depth as nat, Trace::Plain));
                }
                r
            },
            Value::Str(s) => {
                let r = self.write_string(s.as_str());
                proof {
                    if r is Ok {
                        lemma_extends(
                            before,
                            framed(Family::Str, encode_utf8(s@))->Ok_0,
                            before,
                        );
                    }
                    assert(follows(hooks, value@, depth as nat, Trace::Plain));
                }
                r
            },
            Value::Bytes(b) => {
                let r = self.write_bytes(b.as_slice());
                proof {
                    if r is Ok {
                        lemma_extends(before, framed(Family::Bytes, b@)->Ok_0, before);
                    }
                    assert(follows(hooks, value@, depth as nat, Trace::Plain));
                }
                r
            },
            Value::List(items) => {
                match self.write_list_header(items.len() as u64) {
                    Err(e) => {
                        assert(follows(hooks, value@, depth as nat, Trace::Plain));
                        return Err(e);
                    },
                    Ok(_) => {},
                }
                let ghost header = size_header(Family::List, items@.len());
                proof {
                    lemma_extends(before, header, before);
                }
                if depth == 0 {
                    assert(follows(hooks, value@, depth as nat, Trace::Plain));
                    return Err(PackError::SizeOverflow(Limit::Depth));
                }
                let ghost with_header = self.buffer@;
                let ghost below = (depth - 1) as nat;
                proof {
                    lemma_items_encoding_shift(views(items@), 0, below, before, header);
                }
                let r = self.write_items(items, depth - 1);
                proof {
                    lemma_extends(before, with_header, self.buffer@);
                    let traces = choose|traces: Seq<Trace>| #[trigger]
                        items_follow(hooks, views(items@), 0, below, traces)
                            && (match items_written_with(
                            kinds,
                            views(items@),
                            0,
                            below,
                            traces,
                            with_header,
                        ) {
                            Ok(bytes) => r is Ok && self.buffer@ == bytes,
                            Err(e) => r == Err::<(), PackError>(e),
                        });
                    lemma_items_written_shift(
                        kinds,
                        views(items@),
                        0,
                        below,
                        traces,
                        before,
                        header,
                    );
                    assert(follows(hooks, value@, depth as nat, Trace::Parts(traces)));
                }
                r
            },
            Value::Dict(entries) => {
                match self.write_dict_header(entries.len() as u64) {
                    Err(e) => {
                        assert(follows(hooks, value@, depth as nat, Trace::Plain));
                        return Err(e);
                    },
                    Ok(_) => {},
                }
                let ghost header = size_header(Family::Dict, entries@.len());
                proof {
                    lemma_extends(before, header, before);
                }
                if depth == 0 {
                    assert(follows(hooks, value@, depth as nat, Trace::Plain));
                    return Err(PackError::SizeOverflow(Limit::Depth));
                }
                let ghost with_header = self.buffer@;
                let ghost below = (depth - 1) as nat;
                proof {
                    lemma_entries_encoding_shift(entry_views(entries@), 0, below, before, header);
                }
                let r = self.write_entries(entries, depth - 1);
                proof {
                    lemma_extends(before, with_header, self.buffer@);
                    let traces = choose|traces: Seq<Trace>| #[trigger]
                        entries_follow(hooks, entry_views(entries@), 0, below, traces)
                            && (match entries_written_with(
                            kinds,
                            entry_views(entries@),
                            0,
                            below,
                            traces,
                            with_header,
                        ) {
                            Ok(bytes) => r is Ok && self.buffer@ == bytes,
                            Err(e) => r == Err::<(), PackError>(e),
                        });
                    lemma_entries_written_shift(
                        kinds,
                        entry_views(entries@),
                        0,
                        below,
                        traces,
                        before,
                        header,
                    );
                    assert(follows(hooks, value@, depth as nat, Trace::Parts(traces)));
                }
                r
            },
            Value::Structure(s) => {
                let size = s.fields.len();
                if size > 255 {
                    assert(follows(hooks, value@, depth as nat, Trace::Plain));
                    return Err(PackError::SizeOverflow(Limit::Structure));
                }
                match self.write_struct_header(s.tag, size as u8) {
                    Err(e) => {
                        assert(follows(hooks, value@, depth as nat, Trace::Plain));
                        return Err(e);
                    },
                    Ok(_) => {},
                }
                let ghost header = struct_header(s.tag, size as nat);
                proof {
                    lemma_extends(before, header, before);
                }
                if depth == 0 {
                    assert(follows(hooks, value@, depth as nat, Trace::Plain));
                    return Err(PackError::SizeOverflow(Limit::Depth));
                }
                let ghost with_header = self.buffer@;
                let ghost below = (depth - 1) as nat;
                proof {
                    lemma_items_encoding_shift(views(s.fields@), 0, below, before, header);
                }
                let r = self.write_items(&s.fields, depth - 1);
                proof {
                    lemma_extends(before, with_header, self.buffer@);
                    let traces = choose|traces: Seq<Trace>| #[trigger]
                        items_follow(hooks, views(s.fields@), 0, below, traces)
                            && (match items_written_with(
                            kinds,
                            views(s.fields@),
                            0,
                            below,
                            traces,
                            with_header,
                        ) {
                            Ok(bytes) => r is Ok && self.buffer@ == bytes,
                            Err(e) => r == Err::<(), PackError>(e),
                        });
                    lemma_items_written_shift(
                        kinds,
                        views(s.fields@),
                        0,
                        below,
                        traces,
                        before,
                        header,
                    );
                    assert(follows(hooks, value@, depth as nat, Trace::Parts(traces)));
                }
                r
            },
            Value::Foreign(object) => {
                let transformer = match self.dehydration_hooks {
                    Some(hooks) => hooks.get_transformer(object.kind),
                    None => None,
                };
                match transformer {
                    None => {
                        assert(follows(hooks, value@, depth as nat, Trace::Plain));
                        Err(PackError::Unsupported(Kind::Foreign(object.kind)))
                    },
                    Some(transform) => {
                        if depth == 0 {
                            assert(follows(hooks, value@, depth as nat, Trace::Plain));
                            return Err(PackError::SizeOverflow(Limit::Depth));
                        }
                        let made = transform(*object);
                        let ghost outcome = made;
                        let ghost below = (depth - 1) as nat;
                        let r = self.write_dehydrated(made, depth - 1);
                        proof {
                            assert(call_ensures(
                                hooks->Some_0.transform(object.kind),
                                (*object,),
                                outcome,
                            ));
                            let then = if outcome is Ok {
                                choose|then: Trace| #[trigger]
                                    follows(hooks, outcome->Ok_0@, below, then) && wrote(
                                        before,
                                        self.buffer@,
                                        r,
                                        written_with(kinds, outcome->Ok_0@, below, then),
                                    )
                            } else {
                                Trace::Plain
                            };
                            let trace = Trace::Hooked { made: outcome, then: Box::new(then) };
                            assert(follows(hooks, value@, depth as nat, trace));
                        }
                        r
                    },
                }
            },
        }
    }

    /// Writes the items of a list or the fields of a structure, in order.
    fn write_items(&mut self, items: &Vec<Value>, depth: usize) -> (r: Result<(), PackError>)
        requires
            old(self).hooks_total(),
        ensures
            final(self).dehydration_hooks == old(self).dehydration_hooks,
            extends(final(self).buffer@, old(self).buffer@),
            wrote_items_with(
                old(self).dehydration_hooks,
                views(items@),
                depth as nat,
                old(self).buffer@,
                final(self).buffer@,
                r,
            ),
            !touches_any(views(items@), old(self).kinds()) ==> match items_encoding(
                views(items@),
                0,
                depth as nat,
                old(self).buffer@,
            ) {
                Ok(bytes) => r is Ok && final(self).buffer@ == bytes,
                Err(e) => r == Err::<(), PackError>(e),
            },
        decreases depth, 2nat,
    {
        let ghost terms = views(items@);
        let ghost kinds = self.kinds();
        let ghost hooks = self.dehydration_hooks;
        let ghost below = depth as nat;
        let ghost mut traces: Seq<Trace> = Seq::empty();
        let ghost mut buffers: Seq<Seq<u8>> = seq![self.buffer@];
        proof {
            lemma_extends(self.buffer@, Seq::empty(), Seq::empty());
        }
        let mut i: usize = 0;
        while i < items.len()
            invariant
                i <= items@.len(),
                terms == views(items@),
                kinds == self.kinds(),
                kinds == kinds_of(hooks),
                hooks == self.dehydration_hooks,
                below == depth,
                self.hooks_total(),
                self.dehydration_hooks == old(self).dehydration_hooks,
                extends(self.buffer@, old(self).buffer@),
                !touches_any(terms, kinds) ==> items_encoding(
                    terms,
                    0,
                    depth as nat,
                    old(self).buffer@,
                ) == items_encoding(terms, i as int, depth as nat, self.buffer@),
                traces.len() == i,
                buffers.len() == i + 1,
                buffers[0] == old(self).buffer@,
                buffers[i as int] == self.buffer@,
                forall|j: int|
                    0 <= j < i ==> {
                        &&& follows(hooks, #[trigger] terms[j], below, traces[j])
                        &&& written_with(kinds, terms[j], below, traces[j]) is Ok
                        &&& buffers[j + 1] == buffers[j] + written_with(
                            kinds,
                            terms[j],
                            below,
                            traces[j],
                        )->Ok_0
                    },
            decreases items@.len() - i,
        {
            let ghost written = self.buffer@;
            assert(terms[i as int] == items@[i as int]@);
            let r = self.write_nested(&items[i], depth);
            proof {
                lemma_extends(old(self).buffer@, written, self.buffer@);
            }
            let ghost trace = choose|trace: Trace| #[trigger]
                follows(hooks, terms[i as int], below, trace) && wrote(
                    written,
                    self.buffer@,
                    r,
                    written_with(kinds, terms[i as int], below, trace),
                );
            proof {
                traces = traces.push(trace);
            }
            match r {
                Err(e) => {
                    proof {
                        lemma_items_written_so_far(
                            hooks,
                            terms,
                            below,
                            traces,
                            buffers,
                            0,
                            i as int,
                        );
                        assert(items_follow(hooks, terms, i as int, below, traces));
                    }
                    return Err(e);
                },
                Ok(_) => {},
            }
            proof {
                buffers = buffers.push(self.buffer@);
            }
            i = i + 1;
        }
        proof {
            lemma_items_written_so_far(hooks, terms, below, traces, buffers, 0, i as int);
        }
        Ok(())
    }

    /// Writes the entries of a dictionary, in order: each key as a string,
    /// then its value.
    fn write_entries(&mut self, entries: &Vec<(Value, Value)>, depth: usize) -> (r: Result<
        (),
        PackError,
    >)
        requires
            old(self).hooks_total(),
        ensures
            final(self).dehydration_hooks == old(self).dehydration_hooks,
            extends(final(self).buffer@, old(self).buffer@),
            wrote_entries_with(
                old(self).dehydration_hooks,
                entry_views(entries@),
                depth as nat,
                old(self).buffer@,
                final(self).buffer@,
                r,
            ),
            !touches_any_entry(entry_views(entries@), old(self).kinds()) ==> match entries_encoding(
                entry_views(entries@),
                0,
                depth as nat,
                old(self).buffer@,
            ) {
                Ok(bytes) => r is Ok && final(self).buffer@ == bytes,
                Err(e) => r == Err::<(), PackError>(e),
            },
        decreases depth, 2nat,
    {
        let ghost terms = entry_views(entries@);
        let ghost kinds = self.kinds();
        let ghost hooks = self.dehydration_hooks;
        let ghost below = depth as nat;
        let ghost mut traces: Seq<Trace> = Seq::empty();
        let ghost mut buffers: Seq<Seq<u8>> = seq![self.buffer@];
        proof {
            lemma_extends(self.buffer@, Seq::empty(), Seq::empty());
        }
        let mut i: usize = 0;
        while i < entries.len()
            invariant
                i <= entries@.len(),
                terms == entry_views(entries@),
                kinds == self.kinds(),
                kinds == kinds_of(hooks),
                hooks == self.dehydration_hooks,
                below == depth,
                self.hooks_total(),
                self.dehydration_hooks == old(self).dehydration_hooks,
                extends(self.buffer@, old(self).buffer@),
                !touches_any_entry(terms, kinds) ==> entries_encoding(
                    terms,
                    0,
                    depth as nat,
                    old(self).buffer@,
                ) == entries_encoding(terms, i as int, depth as nat, self.buffer@),
                traces.len() == i,
                buffers.len() == i + 1,
                buffers[0] == old(self).buffer@,
                buffers[i as int] == self.buffer@,
                forall|j: int|
                    0 <= j < i ==> {
                        &&& follows(hooks, (#[trigger] terms[j]).1, below, traces[j])
                        &&& entry_written_with(kinds, terms[j], below, traces[j]) is Ok
                        &&& buffers[j + 1] == buffers[j] + entry_written_with(
                            kinds,
                            terms[j],
                            below,
                            traces[j],
                        )->Ok_0
                    },
            decreases entries@.len() - i,
        {
            let ghost written = self.buffer@;
            assert(terms[i as int] == (entries@[i as int].0@, entries@[i as int].1@));
            match &entries[i].0 {
                Value::Str(key) => {
                    assert(terms[i as int].0 == Term::Str(key@));
                    match self.write_string(key.as_str()) {
                        Err(e) => {
                            proof {
                                assert(entry_encoding(terms[i as int], below) == Err::<
                                    Seq<u8>,
                                    PackError,
                                >(e));
                                traces = traces.push(Trace::Plain);
                                assert(entry_written_with(
                                    kinds,
                                    terms[i as int],
                                    below,
                                    Trace::Plain,
                                ) == Err::<Seq<u8>, PackError>(e));
                                lemma_entries_written_so_far(
                                    hooks,
                                    terms,
                                    below,
                                    traces,
                                    buffers,
                                    0,
                                    i as int,
                                );
                                assert(entries_follow(hooks, terms, i as int, below, traces));
                            }
                            return Err(e);
                        },
                        Ok(_) => {},
                    }
                    proof {
                        lemma_extends(
                            written,
                            framed(Family::Str, encode_utf8(key@))->Ok_0,
                            written,
                        );
                    }
                },
                key => {
                    proof {
                        assert(terms[i as int].0 == key@);
                        assert(entry_encoding(terms[i as int], below) == Err::<
                            Seq<u8>,
                            PackError,
                        >(PackError::InvalidMapKey(key@.kind())));
                        traces = traces.push(Trace::Plain);
                        assert(entry_written_with(kinds, terms[i as int], below, Trace::Plain)
                            == Err::<Seq<u8>, PackError>(PackError::InvalidMapKey(key@.kind())));
                        lemma_entries_written_so_far(
                            hooks,
                            terms,
                            below,
                            traces,
                            buffers,
                            0,
                            i as int,
                        );
                        assert(entries_follow(hooks, terms, i as int, below, traces));
                    }
                    return Err(PackError::InvalidMapKey(key.kind()));
                },
            }
            let ghost with_key = self.buffer@;
            let r = self.write_nested(&entries[i].1, depth);
            proof {
                lemma_extends(written, with_key, self.buffer@);
                lemma_extends(old(self).buffer@, written, self.buffer@);
            }
            let ghost text = terms[i as int].0->Str_0;
            let ghost framed_key = framed(Family::Str, encode_utf8(text))->Ok_0;
            let ghost trace = choose|trace: Trace| #[trigger]
                follows(hooks, terms[i as int].1, below, trace) && wrote(
                    with_key,
                    self.buffer@,
                    r,
                    written_with(kinds, terms[i as int].1, below, trace),
                );
            proof {
                traces = traces.push(trace);
            }
            match r {
                Err(e) => {
                    proof {
                        lemma_entries_written_so_far(
                            hooks,
                            terms,
                            below,
                            traces,
                            buffers,
                            0,
                            i as int,
                        );
                        assert(entries_follow(hooks, terms, i as int, below, traces));
                    }
                    return Err(e);
                },
                Ok(_) => {},
            }
            proof {
                if !touches_any_entry(terms, kinds) {
                    let value = encoding(terms[i as int].1, depth as nat)->Ok_0;
                    assert(self.buffer@ =~= written + (framed_key + value));
                }
                let value = written_with(kinds, terms[i as int].1, below, trace)->Ok_0;
                assert(self.buffer@ =~= written + (framed_key + value));
                buffers = buffers.push(self.buffer@);
            }
            i = i + 1;
        }
        proof {
            lemma_entries_written_so_far(hooks, terms, below, traces, buffers, 0, i as int);
        }
        Ok(())
    }
}

/// Encodes a value.
///
/// An application object in the value is encoded as what its dehydration
/// hook makes of it. The result is what [`written_with`] says, given what
/// the hooks gave: the bytes, or the error with which the encoder stopped.
/// Without hooks, and wherever the value holds no application object that
/// has a hook, that is exactly [`encoding`].
pub fn pack<F: Fn(Foreign) -> Result<Value, HookError>>(
    value: &Value,
    dehydration_hooks: Option<&DehydrationHooks<F>>,
) -> (r: Result<Vec<u8>, PackError>)
    requires
        dehydration_hooks matches Some(hooks) ==> forall|i: int, object: Foreign|
            0 <= i < hooks.entries@.len() ==> #[trigger] call_requires(
                hooks.entries@[i].1,
                (object,),
            ),
    ensures
        exists|trace: Trace| #[trigger]
            follows(dehydration_hooks, value@, MAX_DEPTH as nat, trace) && packed(
                r,
                written_with(kinds_of(dehydration_hooks), value@, MAX_DEPTH as nat, trace),
            ),
        dehydration_hooks is None || !touches(value@, kinds_of(dehydration_hooks)) ==> packed(
            r,
            encoding(value@, MAX_DEPTH as nat),
        ),
{
    let mut encoder = PackStreamEncoder::new(dehydration_hooks);
    let written = encoder.write(value);
    proof {
        lemma_untouched_without_hooks(value@);
        let trace = choose|trace: Trace| #[trigger]
            follows(dehydration_hooks, value@, MAX_DEPTH as nat, trace) && wrote(
                Seq::empty(),
                encoder.buffer@,
                written,
                written_with(kinds_of(dehydration_hooks), value@, MAX_DEPTH as nat, trace),
            );
        assert(Seq::<u8>::empty() + encoder.buffer@ =~= encoder.buffer@);
        if written is Ok {
            let bytes = written_with(
                kinds_of(dehydration_hooks),
                value@,
                MAX_DEPTH as nat,
                trace,
            )->Ok_0;
            assert(Seq::<u8>::empty() + bytes =~= bytes);
            if !touches(value@, kinds_of(dehydration_hooks)) {
                let exact = encoding(value@, MAX_DEPTH as nat)->Ok_0;
                assert(Seq::<u8>::empty() + exact =~= exact);
            }
        }
    }
    match written {
        Err(e) => Err(e),
        Ok(_) => Ok(encoder.buffer),
    }
}

} // verus!
