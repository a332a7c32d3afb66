//! Error types shared by all fallible operations.
//!
//! Errors come in two kinds, split by who is at fault. An input-data error
//! ([`InputErrorCause`]) means the data being decoded is bad: a byte outside
//! the z-base-32 alphabet, or nonzero bits past the declared bit length. A
//! usage error ([`UsageErrorCause`]) means the caller misused the API: a
//! buffer whose length disagrees with the declared bit length, a bit length
//! too large for the platform, a quintet out of range, or nonzero trailing
//! bits in data handed to the encoder.

use vstd::prelude::*;

verus! {

/// The specific input-data faults.
#[derive(Clone, Copy, Debug, PartialEq, Eq, Structural)]
pub enum InputErrorType {
    InvalidCharacter,
    DecodingTrailingNonzeroBits,
}

/// The cause of an input-data error: the data being decoded is bad.
#[derive(Clone, Copy, Debug, PartialEq, Eq, Structural)]
pub struct InputErrorCause {
    pub typ: InputErrorType,
}

/// The specific usage faults.
#[derive(Clone, Copy, Debug, PartialEq, Eq, Structural)]
pub enum UsageErrorType {
    InputBufferDoesntMatchBits,
    OutputBufferDoesntMatchBits,
    BitsOverflow,
    InvalidQuintet,
    EncodingTrailingNonzeroBits,
}

/// The cause of a usage error: the caller misused the API.
#[derive(Clone, Copy, Debug, PartialEq, Eq, Structural)]
pub struct UsageErrorCause {
    pub typ: UsageErrorType,
}

/// Common error type used by all fallible operations where bad input data
/// could be the cause. It distinguishes errors in the input data from errors
/// in how the interfaces were used.
#[derive(Clone, Copy, Debug, PartialEq, Eq, Structural)]
pub enum InputError {
    /// The input data contained an invalid value, for example a byte that is
    /// not a z-base-32 character.
    InputError(InputErrorCause),
    /// The caller misused the API; the input data itself is not to blame.
    UsageError(UsageErrorCause),
}

/// An error outside of an invalid input value: the caller misused the API.
#[derive(Clone, Copy, Debug, PartialEq, Eq, Structural)]
pub struct UsageError(pub UsageErrorCause);

/// The error returned when a byte outside the z-base-32 alphabet is decoded.
pub open spec fn invalid_character_error() -> InputError {
    InputError::InputError(InputErrorCause { typ: InputErrorType::InvalidCharacter })
}

/// The error returned when a quintet value above 31 is supplied.
pub open spec fn invalid_quintet_error() -> UsageError {
    UsageError(UsageErrorCause { typ: UsageErrorType::InvalidQuintet })
}

/// The error returned when decode input carries nonzero bits past the
/// declared bit length.
pub open spec fn decoding_trailing_nonzero_bits_error() -> InputError {
    InputError::InputError(InputErrorCause { typ: InputErrorType::DecodingTrailingNonzeroBits })
}

/// The error returned when an input buffer's length disagrees with the
/// declared bit length.
pub open spec fn input_buffer_doesnt_match_bits_error() -> UsageError {
    UsageError(UsageErrorCause { typ: UsageErrorType::InputBufferDoesntMatchBits })
}

/// The error returned when an output buffer's length disagrees with the
/// declared bit length.
pub open spec fn output_buffer_doesnt_match_bits_error() -> UsageError {
    UsageError(UsageErrorCause { typ: UsageErrorType::OutputBufferDoesntMatchBits })
}

/// The error returned when a bit length needs more symbols than a `usize`
/// can count.
pub open spec fn bits_overflow_error() -> UsageError {
    UsageError(UsageErrorCause { typ: UsageErrorType::BitsOverflow })
}

/// The error returned when encode input carries nonzero bits past the
/// declared bit length.
pub open spec fn encoding_trailing_nonzero_bits_error() -> UsageError {
    UsageError(UsageErrorCause { typ: UsageErrorType::EncodingTrailingNonzeroBits })
}

/// Wraps a usage error in the common error type.
pub open spec fn usage_to_input_error(e: UsageError) -> InputError {
    InputError::UsageError(e.0)
}

pub fn invalid_character() -> (r: InputError)
    ensures
        r == invalid_character_error(),
{
    InputError::InputError(InputErrorCause { typ: InputErrorType::InvalidCharacter })
}

pub fn invalid_quintet() -> (r: UsageError)
    ensures
        r == invalid_quintet_error(),
{
    UsageError(UsageErrorCause { typ: UsageErrorType::InvalidQuintet })
}

pub fn decoding_trailing_nonzero_bits() -> (r: InputError)
    ensures
        r == decoding_trailing_nonzero_bits_error(),
{
    InputError::InputError(InputErrorCause { typ: InputErrorType::DecodingTrailingNonzeroBits })
}

pub fn input_buffer_doesnt_match_bits() -> (r: UsageError)
    ensures
        r == input_buffer_doesnt_match_bits_error(),
{
    UsageError(UsageErrorCause { typ: UsageErrorType::InputBufferDoesntMatchBits })
}

pub fn output_buffer_doesnt_match_bits() -> (r: UsageError)
    ensures
        r == output_buffer_doesnt_match_bits_error(),
{
    UsageError(UsageErrorCause { typ: UsageErrorType::OutputBufferDoesntMatchBits })
}

pub fn bits_overflow() -> (r: UsageError)
    ensures
        r == bits_overflow_error(),
{
    UsageError(UsageErrorCause { typ: UsageErrorType::BitsOverflow })
}

pub fn encoding_trailing_nonzero_bits() -> (r: UsageError)
    ensures
        r == encoding_trailing_nonzero_bits_error(),
{
    UsageError(UsageErrorCause { typ: UsageErrorType::EncodingTrailingNonzeroBits })
}

impl UsageError {
    /// Wraps this usage error in the common error type.
    pub fn into_input_error(self) -> (r: InputError)
        ensures
            r == usage_to_input_error(self),
    {
        InputError::UsageError(self.0)
    }
}

impl InputErrorCause {
    /// A human-readable description of the fault.
    pub fn message(&self) -> (r: &'static str)
        ensures
            self.typ == InputErrorType::InvalidCharacter ==> r@ == "Invalid character found in input."@,
            self.typ == InputErrorType::DecodingTrailingNonzeroBits ==> r@
                == "Trailing non-zero bits found in decode input."@,
    {
        match self.typ {
            InputErrorType::InvalidCharacter => "Invalid character found in input.",
            InputErrorType::DecodingTrailingNonzeroBits => "Trailing non-zero bits found in decode input.",
        }
    }
}

impl UsageErrorCause {
    /// A human-readable description of the fault.
    pub fn message(&self) -> (r: &'static str)
        ensures
            self.typ == UsageErrorType::InputBufferDoesntMatchBits ==> r@
                == "The input buffer size doesn't agree with the provided bits value"@,
            self.typ == UsageErrorType::OutputBufferDoesntMatchBits ==> r@
                == "The output buffer size doesn't agree with the provided bits value"@,
            self.typ == UsageErrorType::BitsOverflow ==> r@
                == "The value for bits was too large for the platform usize"@,
            self.typ == UsageErrorType::InvalidQuintet ==> r@
                == "Invalid quintet value found in input."@,
            self.typ == UsageErrorType::EncodingTrailingNonzeroBits ==> r@
                == "Trailing non-zero bits found in data to encode. Check that the value of the 'bits' parameter matches the data to be encoded."@,
    {
        match self.typ {
            UsageErrorType::InputBufferDoesntMatchBits => "The input buffer size doesn't agree with the provided bits value",
            UsageErrorType::OutputBufferDoesntMatchBits => "The output buffer size doesn't agree with the provided bits value",
            UsageErrorType::BitsOverflow => "The value for bits was too large for the platform usize",
            UsageErrorType::InvalidQuintet => "Invalid quintet value found in input.",
            UsageErrorType::EncodingTrailingNonzeroBits => "Trailing non-zero bits found in data to encode. Check that the value of the 'bits' parameter matches the data to be encoded.",
        }
    }
}

} // verus!
