//! One parser per build tool: native profiling artifact in, spans relative to
//! the tool's own start out. Each is a pure function of its input bytes.
pub mod cargo;
pub mod ninja;

use crate::text::{utf8_error_len, valid_up_to, NumberError};
use vstd::prelude::*;

verus! {

/// Why an artifact could not be read.
#[derive(Debug, Clone, Copy, PartialEq, Eq, Structural)]
pub enum ParseError {
    /// The artifact is not UTF-8 text: it is valid up to byte `valid_up_to`,
    /// where an invalid sequence of `error_len` bytes starts, or, with no
    /// length, where the input ends in the middle of a character.
    InvalidUtf8 { valid_up_to: usize, error_len: Option<usize> },
    /// A `.ninja_log` record has a start or end time that is not an `i64`;
    /// the error says why, as `str::parse` reports it.
    InvalidNumber(NumberError),
    /// The cargo timing report holds no `const UNIT_DATA = ` marker.
    NoUnitData,
    /// The array after the marker never closes.
    MalformedUnitData,
}

/// The error for an artifact `input` that is not UTF-8.
pub open spec fn utf8_error(input: Seq<u8>) -> ParseError {
    ParseError::InvalidUtf8 { valid_up_to: valid_up_to(input), error_len: utf8_error_len(input) }
}

} // verus!
