//! The closed set of literal shapes the scanner can produce, and the
//! validation step that turns a provisional raw-string scan into either a
//! confirmed literal or a structured error.

use crate::errors::LexRawStrError;
use vstd::prelude::*;

verus! {

/// Base of a numeric literal, selected by its prefix.
#[derive(Clone, Copy, Debug, PartialEq, Eq, PartialOrd, Ord)]
pub enum NumericBase {
    /// Literal starts with "0b".
    Binary,
    /// Literal starts with "0o".
    Octal,
    /// Literal starts with "0x".
    Hexadecimal,
    /// Literal doesn't contain a prefix.
    Decimal,
}

/// Represents something that looks like a raw string, but may have some
/// problems. Use `.validate()` to convert it into something usable.
#[derive(Clone, Copy, Debug, PartialEq, Eq, PartialOrd, Ord)]
pub struct UnvalidatedRawStr {
    /// The prefix (`r###"`) is valid.
    pub valid_start: bool,
    /// The postfix (`"###`) is valid.
    pub valid_end: bool,
    /// The number of leading `#`.
    pub n_start_hashes: usize,
    /// The number of trailing `#`. `n_end_hashes` <= `n_start_hashes`.
    pub n_end_hashes: usize,
    /// The offset starting at `r` or `br` where the writer may have intended
    /// to end the string, as a byte count. Currently, it is the longest
    /// sequence of the pattern `"#+`.
    pub possible_terminator_offset: Option<usize>,
}

/// Raw string with a valid prefix (`#+"`) and postfix (`"#+`) framed by a
/// matching number of `#` characters. Note that the scan does not consume
/// extra trailing `#` characters: `r###"abcde"####` is lexed as a
/// `ValidatedRawStr { n_hashes: 3 }` followed by a `#` token.
#[derive(Clone, Copy, Debug, PartialEq, Eq)]
pub struct ValidatedRawStr {
    pub n_hashes: u16,
}

/// The kind of a literal token.
#[derive(Clone, Copy, Debug, PartialEq, Eq, PartialOrd, Ord)]
pub enum LiteralKind {
    /// "12_u8", "0o100", "0b120i99"
    Int { base: NumericBase, empty_int: bool },
    /// "12.34f32", "0b100.100"
    Float { base: NumericBase, empty_exponent: bool },
    /// "'a'", "'\\'", "'''", "';"
    Char { terminated: bool },
    /// "b'a'", "b'\\'", "b'''", "b';"
    Byte { terminated: bool },
    /// ""abc"", ""abc"
    Str { terminated: bool },
    /// "b"abc"", "b"abc"
    ByteStr { terminated: bool },
    /// "r"abc"", "r#"abc"#", "r####"ab"###"c"####", "r#"a"
    RawStr(UnvalidatedRawStr),
    /// "br"abc"", "br#"abc"#", "br####"ab"###"c"####", "br#"a"
    RawByteStr(UnvalidatedRawStr),
}

/// The outcome of validating `u`: exactly one of a `ValidatedRawStr` or a
/// `LexRawStrError`, checked in the priority order invalid starter, too many
/// delimiters, missing terminator.
pub open spec fn spec_validate(u: UnvalidatedRawStr) -> Result<ValidatedRawStr, LexRawStrError> {
    if !u.valid_start {
        Err(LexRawStrError::InvalidStarter)
    } else if u.n_start_hashes > 65535 {
        Err(LexRawStrError::TooManyDelimiters)
    } else if u.n_start_hashes > u.n_end_hashes || !u.valid_end {
        Err(
            LexRawStrError::NoTerminator {
                expected: u.n_start_hashes,
                found: u.n_end_hashes,
                possible_terminator_offset: u.possible_terminator_offset,
            },
        )
    } else {
        Ok(ValidatedRawStr { n_hashes: u.n_start_hashes as u16 })
    }
}

impl UnvalidatedRawStr {
    /// Resolves a provisional raw-string scan: succeeds exactly when the
    /// prefix and postfix are both well-formed, the hash counts allow it
    /// (`n_start_hashes` fits in 16 bits), and at least `n_start_hashes`
    /// closing hashes were found.
    pub fn validate(self) -> (r: Result<ValidatedRawStr, LexRawStrError>)
        ensures
            r == spec_validate(self),
            r is Ok <==> (self.valid_start && self.n_start_hashes <= 65535
                && self.n_start_hashes <= self.n_end_hashes && self.valid_end),
    {
        if !self.valid_start {
            return Err(LexRawStrError::InvalidStarter);
        }
        // Only up to 65535 `#`s are allowed in raw strings.
        if self.n_start_hashes > 65535 {
            return Err(LexRawStrError::TooManyDelimiters);
        }
        let n_start_safe: u16 = self.n_start_hashes as u16;

        if self.n_start_hashes > self.n_end_hashes || !self.valid_end {
            Err(
                LexRawStrError::NoTerminator {
                    expected: self.n_start_hashes,
                    found: self.n_end_hashes,
                    possible_terminator_offset: self.possible_terminator_offset,
                },
            )
        } else {
            Ok(ValidatedRawStr { n_hashes: n_start_safe })
        }
    }
}

} // verus!
