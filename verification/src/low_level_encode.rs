//! Low-level encoding functionality.

pub use crate::encode_impl::{
    encode_slices, is_last_octet_valid, octets_to_quintets, quintet_to_character,
};
pub use crate::util::required_quintets_buffer_len;
