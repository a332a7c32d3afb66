//! Length arithmetic: how many symbols of each width a declared bit length
//! needs, computed in 64-bit arithmetic and only narrowed to `usize` after
//! confirming the result fits.

use vstd::prelude::*;
use crate::error::{bits_overflow, bits_overflow_error, UsageError};
use crate::model::required_len;

verus! {

/// Narrows a `u64` to `usize`, refusing values that do not fit.
fn u64_to_usize(val: u64) -> (r: Option<usize>)
    ensures
        val <= usize::MAX ==> r == Some(val as usize),
        val > usize::MAX ==> r is None,
{
    if val <= usize::MAX as u64 {
        Some(val as usize)
    } else {
        None
    }
}

/// Calculate the number of octets that are required to hold the specified
/// number of bits.
///
/// Returns `Err` if the specified number of bits would need more than
/// [`usize::MAX`] octets.
pub fn required_octets_buffer_len(bits: u64) -> (r: Result<usize, UsageError>)
    ensures
        required_len(bits as nat, 8) <= usize::MAX ==> (r matches Ok(n) && n == required_len(
            bits as nat,
            8,
        )),
        required_len(bits as nat, 8) > usize::MAX ==> r == Err::<usize, _>(bits_overflow_error()),
{
    let remainder = bits % 8;
    let needed_octets = bits / 8 + if remainder == 0 {
        0
    } else {
        1
    };
    if let Some(result) = u64_to_usize(needed_octets) {
        Ok(result)
    } else {
        Err(bits_overflow())
    }
}

/// Calculate the number of quintets that are required to hold the specified
/// number of bits.
///
/// Returns `Err` if the specified number of bits would need more than
/// [`usize::MAX`] quintets.
pub fn required_quintets_buffer_len(bits: u64) -> (r: Result<usize, UsageError>)
    ensures
        required_len(bits as nat, 5) <= usize::MAX ==> (r matches Ok(n) && n == required_len(
            bits as nat,
            5,
        )),
        required_len(bits as nat, 5) > usize::MAX ==> r == Err::<usize, _>(bits_overflow_error()),
{
    let remainder = bits % 5;
    let needed_quintets = bits / 5 + if remainder == 0 {
        0
    } else {
        1
    };
    if let Some(result) = u64_to_usize(needed_quintets) {
        Ok(result)
    } else {
        Err(bits_overflow())
    }
}

} // verus!
