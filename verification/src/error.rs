//! The error type surfaced to callers of the parser and the encoder bridge.

use vstd::prelude::*;

verus! {

/// Why a parse or an encoding failed.
///
/// `Syntax` carries the character position at which the input stopped
/// conforming to the grammar. The remaining variants name the semantic
/// failure: a value that cannot serve as a map key, malformed unique-id or
/// timestamp text inside a tagged literal, a data shape the encoder bridge
/// cannot represent, bytes that are not UTF-8, and an I/O failure in the
/// surrounding application (never produced by this library itself).
#[derive(Debug, Clone, PartialEq, Eq)]
pub enum Error {
    Syntax { position: usize },
    InvalidKey,
    InvalidUuid,
    InvalidInstant,
    UnsupportedType,
    Utf8,
    Io,
}

impl Error {
    /// A short fixed description of the error's kind.
    pub fn describe(&self) -> (r: &'static str)
        ensures
            r@.len() > 0,
    {
        proof {
            reveal_strlit("syntax error");
            reveal_strlit("invalid key");
            reveal_strlit("invalid uuid literal");
            reveal_strlit("invalid instant literal");
            reveal_strlit("unsupported type");
            reveal_strlit("invalid utf-8");
            reveal_strlit("io error");
        }
        match self {
            Error::Syntax { .. } => "syntax error",
            Error::InvalidKey => "invalid key",
            Error::InvalidUuid => "invalid uuid literal",
            Error::InvalidInstant => "invalid instant literal",
            Error::UnsupportedType => "unsupported type",
            Error::Utf8 => "invalid utf-8",
            Error::Io => "io error",
        }
    }
}

} // verus!
