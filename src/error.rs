//! Errors of the notation, each with the place in the input that caused it.
use vstd::prelude::*;

verus! {

/// A range of character positions in the input, `start` inclusive and `end`
/// exclusive.
#[derive(Clone, Copy, PartialEq, Eq, Structural, Debug)]
pub struct Span {
    pub start: usize,
    pub end: usize,
}

/// What went wrong.
#[derive(Clone, Copy, PartialEq, Eq, Structural, Debug)]
pub enum ErrorKind {
    /// The input could not be split into tokens.
    MalformedInput,
    /// A token stands where a modifier name and a join marker were expected,
    /// or after the one chord that was asked for.
    UnexpectedToken,
    /// Modifiers out of canonical order, where that order is enforced.
    ModifierOrderError,
    /// The tokens ended before the key of a chord.
    NoKeyToken,
    /// A lowercase letter names a physical key.
    LowercaseKeyName,
    /// A literal that names no key.
    UnsupportedLiteral,
    /// A symbol typed with Shift: write Shift and the key that carries it.
    UseShiftModifierInstead,
    /// No chord at all.
    EmptyInput,
}

/// An error and the place of the token that caused it.
#[derive(Clone, Copy, PartialEq, Eq, Structural, Debug)]
pub struct ParseError {
    pub kind: ErrorKind,
    pub span: Span,
}

} // verus!
