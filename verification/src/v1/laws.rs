//! What holds of the encoder and the decoder, each for itself and the two
//! together.
//!
//! The laws are stated over [`encoding`](crate::v1::encoding::encoding),
//! [`written_with`](crate::v1::encoding::written_with) and
//! [`decode_value`](crate::v1::decoding::decode_value), of which the
//! contracts of [`pack`](crate::v1::pack::pack) and
//! [`unpack`](crate::v1::unpack::unpack) say that they are what the two
//! compute.
//!
//! - [`round_trip`]: what the encoder writes, the decoder reads back.
//! - [`minimal`]: nothing that the decoder reads as a value is shorter than
//!   what the encoder writes for it.
//! - [`prefix`]: an input that ends too early is recognised as such.
//! - [`grammar`]: unknown markers, dictionary keys, the limits of
//!   structures, and the shape of what the decoder gives.
//! - [`hooks`]: what the hooks have a say in and what they have not, and the
//!   round trip through both hook tables.

pub mod grammar;
pub mod hooks;
pub mod minimal;
pub mod prefix;
pub mod round_trip;
