//! Errors reported when a pattern cannot be compiled.

use vstd::prelude::*;
use vstd::string::StringExecFns;

verus! {

/// Why a pattern was rejected.
///
/// The first six variants describe faults in the pattern itself; `Internal`
/// signals a malformed postfix stream reaching the NFA builder, which a
/// well-formed pattern can never produce.
#[derive(Debug, Clone, PartialEq, Eq)]
pub enum CompileError {
    /// A `[` class was opened but never closed.
    UnterminatedClass,
    /// A `[]` or `[^]` class with no member characters.
    EmptyClass,
    /// The pattern ends in a lone `\`.
    TrailingEscape,
    /// A `)` with no matching `(`.
    UnmatchedBracket,
    /// A class range `a-b` whose start lies above its end.
    InvalidRange(char, char),
    /// A class specifier the dialect recognises but does not support (`\s`).
    UnsupportedClass,
    /// The token stream was malformed when the builder consumed it.
    Internal,
}

impl CompileError {
    /// A human-readable reason for the failure.
    pub fn message(&self) -> (r: String)
        ensures
            r@ == spec_message(*self),
    {
        match self {
            CompileError::UnterminatedClass => String::from_str("unterminated character class"),
            CompileError::EmptyClass => String::from_str("empty character class"),
            CompileError::TrailingEscape => String::from_str("trailing escape character"),
            CompileError::UnmatchedBracket => String::from_str("unmatched grouping bracket"),
            CompileError::InvalidRange(_, _) => String::from_str(
                "invalid descending range in character class",
            ),
            CompileError::UnsupportedClass => String::from_str("unsupported class specifier"),
            CompileError::Internal => String::from_str("internal error: malformed token stream"),
        }
    }
}

/// The text `message` returns for each error.
pub open spec fn spec_message(e: CompileError) -> Seq<char> {
    match e {
        CompileError::UnterminatedClass => "unterminated character class"@,
        CompileError::EmptyClass => "empty character class"@,
        CompileError::TrailingEscape => "trailing escape character"@,
        CompileError::UnmatchedBracket => "unmatched grouping bracket"@,
        CompileError::InvalidRange(_, _) => "invalid descending range in character class"@,
        CompileError::UnsupportedClass => "unsupported class specifier"@,
        CompileError::Internal => "internal error: malformed token stream"@,
    }
}

} // verus!
