//! The ways an operation of this crate can fail.

use vstd::prelude::*;

verus! {

/// Why an operation gave no result. Every error ends the operation that
/// raised it; nothing is retried and no partial result is handed out.
#[derive(Clone, Copy, Debug, PartialEq, Eq, Structural)]
pub enum CodecError {
    /// A byte source ended before a complete value had been read from it.
    IoError,
    /// A byte source with no bytes was given where at least one symbol is needed.
    EmptyInput,
    /// A fraction with denominator zero was asked for.
    DivisionByZero,
    /// A subtraction would have gone below zero.
    Underflow,
}

} // verus!
