//! The error reported when a cell's text cannot be decoded.

use vstd::prelude::*;

verus! {

/// Why decoding a cell failed.
///
/// Decoding aborts on the first failure; no partial value is returned.
#[derive(Debug)]
pub enum DecodeError {
    /// A substring that should have been a number did not parse.
    /// `token` is the offending substring, exactly as it stood in the cell.
    Token {
        /// The substring that failed to parse.
        token: String,
    },
    /// A non-empty optional-pair cell lacked its required separator.
    Format,
}

impl DecodeError {
    /// A human-readable description of the failure.
    pub fn message(&self) -> (r: String)
        ensures
            match self {
                DecodeError::Token { token } => r@ == "invalid number: "@ + token@,
                DecodeError::Format => r@ == "bad image size format"@,
            },
    {
        match self {
            DecodeError::Token { token } => {
                let mut r = String::new();
                r.append("invalid number: ");
                r.append(token.as_str());
                r
            },
            DecodeError::Format => {
                let mut r = String::new();
                r.append("bad image size format");
                r
            },
        }
    }
}

} // verus!
