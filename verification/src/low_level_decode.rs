//! Low-level decoding functionality.

pub use crate::decode_impl::{
    character_to_quintet, decode_slices, is_last_quintet_valid, quintets_to_octets,
};
pub use crate::util::required_octets_buffer_len;
