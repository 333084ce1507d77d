use vstd::prelude::*;

verus! {

/// The ways a selector can fail to parse.  Every variant but
/// `EmptySelector` carries the byte offset into the selector text at which
/// the failure was detected.
#[derive(Debug)]
pub enum ParseError {
    /// A selector must not be the empty string.
    EmptySelector,
    /// The key at the offset holds no characters that are allowed in a key.
    InvalidKey(usize),
    /// The token at the offset is none of `=`, `==`, `!=`, `in`, `notin`.
    InvalidOperator(usize),
    /// Inside a set literal, something other than `)` or `,` follows a value.
    ExpectingEndOrComma(usize),
    /// A value was required at the offset but no value character was there.
    ExpectingValue(usize),
    /// `in` or `notin` must be followed by `(`.
    ExpectingLeftParenthesis(usize),
}

} // verus!
