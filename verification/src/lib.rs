//! PackStream: a compact, self-describing binary format for structured values.
//!
//! Two operations make up the codec. [`pack`] turns a [`Value`] into bytes,
//! and [`unpack`] turns the bytes at an offset of a buffer back into a value
//! and gives the offset behind it, so that a caller can read value after
//! value from one buffer.
//!
//! - [`value`] holds the value model: [`Value`], [`Structure`], and the
//!   mathematical terms that they stand for.
//! - [`hooks`] holds the hook tables through which an application plugs in
//!   types of its own: dehydration turns an application object into a value
//!   before it is encoded, hydration turns a decoded structure into an
//!   application value.
//! - [`v1`] holds version 1 of the wire format: the marker grammar, the
//!   encoder, the decoder, and the laws that hold of them.
//!
//! What the bytes of a value are is written down once, as
//! [`encoding`](v1::encoding::encoding), and what value bytes hold once, as
//! [`decode_value`](v1::decoding::decode_value). The contracts of [`pack`] and
//! [`unpack`] say that this is what they compute; the laws in
//! [`v1::laws`] say how the two fit together: what was encoded is decoded
//! to the same value, nothing shorter decodes to it, and an input that ends
//! too early is recognised as such.

pub mod hooks;
pub mod v1;
pub mod value;

pub use crate::hooks::{Dehydrate, DehydrationHooks, HookError, Hydrate, HydrationHooks};
pub use crate::v1::pack::{pack, Limit, PackError, PackStreamEncoder};
pub use crate::v1::unpack::{hydrated, unpack, PackStreamDecoder, UnpackError};
pub use crate::value::{CompareOp, Foreign, InvalidTag, Kind, Structure, Value};
