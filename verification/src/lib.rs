//! Encoding and decoding of data in the z-base-32 format: a base-32 variant
//! with a human-friendly alphabet ("ybndrfg8ejkmcpqxot1uwisza345h769"), data
//! lengths given in bits rather than bytes, and no padding characters.
//!
//! Because lengths are counted in bits, a value of any bit length encodes
//! compactly: a single bit becomes one character. The two parties must agree
//! on the length out of band; in exchange, the format has no padding, and any
//! nonzero bit past the declared length is rejected as corruption.
//!
//! The heart of the library is a pair of mirror-image bit-regrouping state
//! machines ([`stateful_decoder`] and [`stateful_encoder`]): one turns 5-bit
//! quintets into 8-bit octets, the other octets into quintets. Both
//! accumulate input symbols into a 40-bit register (the least common multiple
//! of the two widths) and slice it back up at the other width. The
//! slice-level entry points ([`decode_slices`](decode_impl::decode_slices),
//! [`encode_slices`](encode_impl::encode_slices) and their two-step variants)
//! check the buffer lengths against the declared bit length and drive a
//! machine over the whole input; [`decode`] and [`encode`] append their
//! result to a growable container.
//!
//! Every operation is specified against the model in [`model`]: a symbol
//! sequence of width `w` holding `bits` live bits denotes a natural number,
//! and a conversion is correct when both sides carry the same `bits`-bit
//! payload, left-justified in their own symbol width. [`roundtrip`] proves
//! that decoding an encoded stream returns the original octets.

pub mod decode_impl;
pub mod encode_impl;
pub mod error;
pub mod model;
pub mod roundtrip;
pub mod stateful_decoder;
pub mod stateful_encoder;
pub mod util;

pub mod low_level_decode;
pub mod low_level_encode;

pub use error::{InputError, InputErrorCause, UsageError, UsageErrorCause};

pub use decode_impl::decode;
pub use encode_impl::encode;
