//! Error kinds surfaced by the read-name tokenization layer.

use vstd::prelude::*;

verus! {

/// A failure inside a general-purpose codec or the DEFLATE stage of the
/// post-tokenization pipeline.
#[derive(Debug, Clone, PartialEq, Eq, Structural)]
pub struct CodecError;

/// A recoverable failure inside the tokenization layer.  Each kind carries a
/// human-readable message.
#[derive(Debug)]
pub enum TokenizationError {
    InvalidFormat(String),
    ParseError(String),
    InvalidDictionary(String),
    UnsupportedPattern(String),
}

impl TokenizationError {
    /// The message carried by the error, whatever its kind.
    pub open spec fn spec_message(&self) -> Seq<char> {
        match self {
            TokenizationError::InvalidFormat(m) => m@,
            TokenizationError::ParseError(m) => m@,
            TokenizationError::InvalidDictionary(m) => m@,
            TokenizationError::UnsupportedPattern(m) => m@,
        }
    }

    /// Borrow of the carried message, for display by callers.
    pub fn message(&self) -> (m: &str)
        ensures
            m@ == self.spec_message(),
    {
        match self {
            TokenizationError::InvalidFormat(m) => m.as_str(),
            TokenizationError::ParseError(m) => m.as_str(),
            TokenizationError::InvalidDictionary(m) => m.as_str(),
            TokenizationError::UnsupportedPattern(m) => m.as_str(),
        }
    }
}

} // verus!
