//! Version 1 of the wire format.
//!
//! Every value starts with a marker byte. The marker names the type of the
//! value and, for small values, holds the value or its length itself. This
//! module holds the marker bytes and the limits of the format. [`wire`] says
//! how numbers are laid out; [`encoding`] says what the bytes of a value
//! are, and [`pack`] writes them; [`decoding`] says what value bytes hold,
//! and [`unpack`] reads it; [`laws`] relates the two; and [`types`] holds
//! the order in which the encoder classifies a value of a host language.

use vstd::prelude::*;

pub mod decoding;
pub mod encoding;
pub mod laws;
pub mod pack;
pub mod types;
pub mod unpack;
pub mod wire;

verus! {

/// The first of the sixteen markers of a string of at most 15 bytes; the low
/// nibble is the length.
pub const TINY_STRING: u8 = 0x80;

/// The first of the sixteen markers of a list of at most 15 items.
pub const TINY_LIST: u8 = 0x90;

/// The first of the sixteen markers of a dictionary of at most 15 entries.
pub const TINY_MAP: u8 = 0xA0;

/// The first of the sixteen markers of a structure of at most 15 fields; the
/// tag follows.
pub const TINY_STRUCT: u8 = 0xB0;

/// The null value.
pub const NULL: u8 = 0xC0;

/// A float: eight bytes follow.
pub const FLOAT_64: u8 = 0xC1;

/// The boolean false.
pub const FALSE: u8 = 0xC2;

/// The boolean true.
pub const TRUE: u8 = 0xC3;

/// An integer in one byte.
pub const INT_8: u8 = 0xC8;

/// An integer in two bytes.
pub const INT_16: u8 = 0xC9;

/// An integer in four bytes.
pub const INT_32: u8 = 0xCA;

/// An integer in eight bytes.
pub const INT_64: u8 = 0xCB;

/// A byte sequence with an 8-bit length.
pub const BYTES_8: u8 = 0xCC;

/// A byte sequence with a 16-bit length.
pub const BYTES_16: u8 = 0xCD;

/// A byte sequence with a 32-bit length.
pub const BYTES_32: u8 = 0xCE;

/// A string with an 8-bit length.
pub const STRING_8: u8 = 0xD0;

/// A string with a 16-bit length.
pub const STRING_16: u8 = 0xD1;

/// A string with a 32-bit length.
pub const STRING_32: u8 = 0xD2;

/// A list with an 8-bit length.
pub const LIST_8: u8 = 0xD4;

/// A list with a 16-bit length.
pub const LIST_16: u8 = 0xD5;

/// A list with a 32-bit length.
pub const LIST_32: u8 = 0xD6;

/// A dictionary with an 8-bit length.
pub const MAP_8: u8 = 0xD8;

/// A dictionary with a 16-bit length.
pub const MAP_16: u8 = 0xD9;

/// A dictionary with a 32-bit length.
pub const MAP_32: u8 = 0xDA;

/// A structure with an 8-bit field count. The decoder reads it; the encoder
/// never writes it.
pub const STRUCT_8: u8 = 0xDC;

/// A structure with a 16-bit field count. The decoder reads it; the encoder
/// never writes it.
pub const STRUCT_16: u8 = 0xDD;

/// The longest string, byte sequence, list or dictionary that the encoder
/// writes.
pub const MAX_SIZE: usize = 0x7FFF_FFFF;

/// The most fields of a structure that the encoder writes.
pub const MAX_FIELDS: usize = 15;

/// How deep lists, dictionaries and structures may nest.
pub const MAX_DEPTH: usize = 128;

/// The four families of values that carry a length.
#[derive(Clone, Copy, Debug, PartialEq, Eq, Structural)]
pub enum Family {
    Str,
    Bytes,
    List,
    Dict,
}

/// Where a marker keeps a length: in its own low nibble, or in the one, two
/// or four bytes that follow it.
#[derive(Clone, Copy, Debug, PartialEq, Eq, Structural)]
pub enum SizeClass {
    Tiny,
    Bits8,
    Bits16,
    Bits32,
}

/// What a marker byte announces.
pub ghost enum Marker {
    /// The marker is itself an integer in `-16..=127`.
    TinyInt,
    Null,
    False,
    True,
    Float,
    /// A signed integer of that many bytes.
    Int(nat),
    Sized(Family, SizeClass),
    Structure(SizeClass),
    /// A byte that the format does not use.
    Reserved,
}

/// The marker grammar, byte by byte.
pub open spec fn classify(marker: u8) -> Marker {
    if marker < 0x80 || marker >= 0xF0 {
        Marker::TinyInt
    } else if marker < 0x90 {
        Marker::Sized(Family::Str, SizeClass::Tiny)
    } else if marker < 0xA0 {
        Marker::Sized(Family::List, SizeClass::Tiny)
    } else if marker < 0xB0 {
        Marker::Sized(Family::Dict, SizeClass::Tiny)
    } else if marker < 0xC0 {
        Marker::Structure(SizeClass::Tiny)
    } else if marker == NULL {
        Marker::Null
    } else if marker == FLOAT_64 {
        Marker::Float
    } else if marker == FALSE {
        Marker::False
    } else if marker == TRUE {
        Marker::True
    } else if marker == INT_8 {
        Marker::Int(1)
    } else if marker == INT_16 {
        Marker::Int(2)
    } else if marker == INT_32 {
        Marker::Int(4)
    } else if marker == INT_64 {
        Marker::Int(8)
    } else if marker == BYTES_8 {
        Marker::Sized(Family::Bytes, SizeClass::Bits8)
    } else if marker == BYTES_16 {
        Marker::Sized(Family::Bytes, SizeClass::Bits16)
    } else if marker == BYTES_32 {
        Marker::Sized(Family::Bytes, SizeClass::Bits32)
    } else if marker == STRING_8 {
        Marker::Sized(Family::Str, SizeClass::Bits8)
    } else if marker == STRING_16 {
        Marker::Sized(Family::Str, SizeClass::Bits16)
    } else if marker == STRING_32 {
        Marker::Sized(Family::Str, SizeClass::Bits32)
    } else if marker == LIST_8 {
        Marker::Sized(Family::List, SizeClass::Bits8)
    } else if marker == LIST_16 {
        Marker::Sized(Family::List, SizeClass::Bits16)
    } else if marker == LIST_32 {
        Marker::Sized(Family::List, SizeClass::Bits32)
    } else if marker == MAP_8 {
        Marker::Sized(Family::Dict, SizeClass::Bits8)
    } else if marker == MAP_16 {
        Marker::Sized(Family::Dict, SizeClass::Bits16)
    } else if marker == MAP_32 {
        Marker::Sized(Family::Dict, SizeClass::Bits32)
    } else if marker == STRUCT_8 {
        Marker::Structure(SizeClass::Bits8)
    } else if marker == STRUCT_16 {
        Marker::Structure(SizeClass::Bits16)
    } else {
        Marker::Reserved
    }
}

/// The marker of a family in a size class. `Bytes` has no tiny form.
pub open spec fn marker_of(family: Family, class: SizeClass) -> u8
    recommends
        !(family == Family::Bytes && class == SizeClass::Tiny),
{
    match (family, class) {
        (Family::Str, SizeClass::Tiny) => TINY_STRING,
        (Family::Str, SizeClass::Bits8) => STRING_8,
        (Family::Str, SizeClass::Bits16) => STRING_16,
        (Family::Str, SizeClass::Bits32) => STRING_32,
        (Family::List, SizeClass::Tiny) => TINY_LIST,
        (Family::List, SizeClass::Bits8) => LIST_8,
        (Family::List, SizeClass::Bits16) => LIST_16,
        (Family::List, SizeClass::Bits32) => LIST_32,
        (Family::Dict, SizeClass::Tiny) => TINY_MAP,
        (Family::Dict, SizeClass::Bits8) => MAP_8,
        (Family::Dict, SizeClass::Bits16) => MAP_16,
        (Family::Dict, SizeClass::Bits32) => MAP_32,
        (Family::Bytes, SizeClass::Tiny) => BYTES_8,
        (Family::Bytes, SizeClass::Bits8) => BYTES_8,
        (Family::Bytes, SizeClass::Bits16) => BYTES_16,
        (Family::Bytes, SizeClass::Bits32) => BYTES_32,
    }
}

/// How many bytes after the marker hold the length.
pub open spec fn width_of(class: SizeClass) -> nat {
    match class {
        SizeClass::Tiny => 0,
        SizeClass::Bits8 => 1,
        SizeClass::Bits16 => 2,
        SizeClass::Bits32 => 4,
    }
}

/// The largest length that a size class can hold.
pub open spec fn capacity_of(class: SizeClass) -> nat {
    match class {
        SizeClass::Tiny => 15,
        SizeClass::Bits8 => 0xFF,
        SizeClass::Bits16 => 0xFFFF,
        SizeClass::Bits32 => 0xFFFF_FFFF,
    }
}

/// The smallest size class of a family that holds a length.
pub open spec fn size_class_for(family: Family, n: nat) -> SizeClass {
    if n <= 15 && family != Family::Bytes {
        SizeClass::Tiny
    } else if n <= 0xFF {
        SizeClass::Bits8
    } else if n <= 0xFFFF {
        SizeClass::Bits16
    } else {
        SizeClass::Bits32
    }
}

} // verus!
