//! A classified token.

use crate::token_kind::TokenKind;
use vstd::prelude::*;

verus! {

/// Parsed token.
/// It doesn't contain information about the data that has been parsed,
/// only the kind of the token and its size in bytes.
#[derive(Clone, Copy, Debug, PartialEq, Eq)]
pub struct Token {
    pub kind: TokenKind,
    pub len: usize,
}

impl Token {
    pub fn new(kind: TokenKind, len: usize) -> (t: Token)
        ensures
            t == (Token { kind, len }),
    {
        Token { kind, len }
    }
}

} // verus!
