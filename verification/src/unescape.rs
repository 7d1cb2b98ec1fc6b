//! Utilities for validating string and char literals and turning them into
//! the values they represent.
//!
//! Each decoder takes the body of a literal (without its quotes) and yields
//! represented scalar values, or one structured error per malformed unit.
//! The decode is specified by a functional model over the characters of the
//! body; reported offsets are byte offsets into its UTF-8 form.

use crate::text::{bytes_upto, lemma_bytes_upto_mono, prefix_bytes, str_to_chars, text_bytes};
use vstd::prelude::*;

verus! {

/// Errors that can occur during string unescaping.
#[derive(Clone, Copy, Debug, PartialEq, Eq)]
pub enum EscapeError {
    /// Expected 1 char, but 0 were found.
    ZeroChars,
    /// Expected 1 char, but more than 1 were found.
    MoreThanOneChar,
    /// Escaped '\' character without continuation.
    LoneSlash,
    /// Invalid escape character (e.g. '\z').
    InvalidEscape,
    /// Raw '\r' encountered.
    BareCarriageReturn,
    /// Raw '\r' encountered in raw string.
    BareCarriageReturnInRawString,
    /// Unescaped character that was expected to be escaped (e.g. raw '\t').
    EscapeOnlyChar,
    /// Numeric character escape is too short (e.g. '\x1').
    TooShortHexEscape,
    /// Invalid character in numeric escape (e.g. '\xz')
    InvalidCharInHexEscape,
    /// Character code in numeric escape is non-ascii (e.g. '\xFF').
    OutOfRangeHexEscape,
    /// '\u' not followed by '{'.
    NoBraceInUnicodeEscape,
    /// Non-hexadecimal value in '\u{..}'.
    InvalidCharInUnicodeEscape,
    /// '\u{}'
    EmptyUnicodeEscape,
    /// No closing brace in '\u{..}', e.g. '\u{12'.
    UnclosedUnicodeEscape,
    /// '\u{_12}'
    LeadingUnderscoreUnicodeEscape,
    /// More than 6 characters in '\u{..}', e.g. '\u{10FFFF_FF}'
    OverlongUnicodeEscape,
    /// Invalid in-bound unicode character code, e.g. '\u{DFFF}'.
    LoneSurrogateUnicodeEscape,
    /// Out of bounds unicode character code, e.g. '\u{FFFFFF}'.
    OutOfRangeUnicodeEscape,
    /// Unicode escape code in byte literal.
    UnicodeEscapeInByte,
    /// Non-ascii character in byte literal.
    NonAsciiCharInByte,
    /// Non-ascii character in byte string literal.
    NonAsciiCharInByteString,
}

/// What kind of literal we decode: it fixes whether single or double
/// quoting rules apply and whether values are restricted to bytes.
#[derive(Debug, Clone, Copy, PartialEq, Eq)]
pub enum Mode {
    Char,
    Str,
    Byte,
    ByteStr,
}

impl Mode {
    pub open spec fn spec_in_single_quotes(self) -> bool {
        self == Mode::Char || self == Mode::Byte
    }

    pub open spec fn spec_is_bytes(self) -> bool {
        self == Mode::Byte || self == Mode::ByteStr
    }

    pub fn in_single_quotes(self) -> (r: bool)
        ensures
            r == self.spec_in_single_quotes(),
    {
        match self {
            Mode::Char | Mode::Byte => true,
            Mode::Str | Mode::ByteStr => false,
        }
    }

    pub fn in_double_quotes(self) -> (r: bool)
        ensures
            r == !self.spec_in_single_quotes(),
    {
        !self.in_single_quotes()
    }

    pub fn is_bytes(self) -> (r: bool)
        ensures
            r == self.spec_is_bytes(),
    {
        match self {
            Mode::Byte | Mode::ByteStr => true,
            Mode::Char | Mode::Str => false,
        }
    }
}

/// The value of `c` as a hexadecimal digit, if it is one.
pub open spec fn hex_digit_val(c: char) -> Option<u32> {
    if '0' <= c && c <= '9' {
        Some((c as u32 - '0' as u32) as u32)
    } else if 'a' <= c && c <= 'f' {
        Some((c as u32 - 'a' as u32 + 10) as u32)
    } else if 'A' <= c && c <= 'F' {
        Some((c as u32 - 'A' as u32 + 10) as u32)
    } else {
        None
    }
}

/// The hexadecimal digit value of `c`, if any.
fn to_hex_digit(c: char) -> (r: Option<u32>)
    ensures
        r == hex_digit_val(c),
{
    if c >= '0' && c <= '9' {
        Some(c as u32 - '0' as u32)
    } else if c >= 'a' && c <= 'f' {
        Some(c as u32 - 'a' as u32 + 10)
    } else if c >= 'A' && c <= 'F' {
        Some(c as u32 - 'A' as u32 + 10)
    } else {
        None
    }
}

/// Whether the code `x` lies in the ASCII range.
pub open spec fn spec_is_ascii(x: u32) -> bool {
    x <= 0x7F
}

pub fn is_ascii(x: u32) -> (r: bool)
    ensures
        r == spec_is_ascii(x),
{
    x <= 0x7F
}

/// Relies on `char::from_u32`: it returns `Some` exactly for Unicode scalar
/// values (at most 0x10FFFF and not a surrogate), and the returned
/// character has the given value.
pub assume_specification[ char::from_u32 ](v: u32) -> (r: Option<char>)
    ensures
        match r {
            Some(c) => vstd::utf8::is_scalar(v) && c as u32 == v,
            None => !vstd::utf8::is_scalar(v),
        },
;

/// The character `i` positions into `s`, or NUL past the end.
pub open spec fn pk(s: Seq<char>, i: int) -> char {
    if 0 <= i < s.len() {
        s[i]
    } else {
        '\0'
    }
}

/// The decode of a `\x` escape whose `x` stands just before `i`: two hex
/// digits, rejected beyond the ASCII range unless in a byte mode.
pub open spec fn spec_hex_escape(s: Seq<char>, i: int, mode: Mode) -> (int, Result<
    char,
    EscapeError,
>) {
    if i >= s.len() {
        (i, Err(EscapeError::TooShortHexEscape))
    } else if hex_digit_val(s[i]) is None {
        (i + 1, Err(EscapeError::InvalidCharInHexEscape))
    } else if i + 1 >= s.len() {
        (i + 1, Err(EscapeError::TooShortHexEscape))
    } else if hex_digit_val(s[i + 1]) is None {
        (i + 2, Err(EscapeError::InvalidCharInHexEscape))
    } else {
        let value = hex_digit_val(s[i]).unwrap() * 16 + hex_digit_val(s[i + 1]).unwrap();
        if !mode.spec_is_bytes() && value > 0x7F {
            (i + 2, Err(EscapeError::OutOfRangeHexEscape))
        } else {
            (i + 2, Ok(value as char))
        }
    }
}

/// The decode of the digits of a `\u{...}` escape from `i`, with `n_digits`
/// digits already seen and partial value `value`.  Underscore separators
/// are skipped; at the closing brace, shape errors (too many digits, byte
/// mode) take priority over value-range errors.
pub open spec fn spec_unicode_loop(s: Seq<char>, i: int, n_digits: int, value: int, mode: Mode) -> (
    int,
    Result<char, EscapeError>,
)
    decreases s.len() - i,
{
    if i < 0 || i >= s.len() {
        (i, Err(EscapeError::UnclosedUnicodeEscape))
    } else if s[i] == '_' {
        spec_unicode_loop(s, i + 1, n_digits, value, mode)
    } else if s[i] == '}' {
        if n_digits > 6 {
            (i + 1, Err(EscapeError::OverlongUnicodeEscape))
        } else if mode.spec_is_bytes() {
            (i + 1, Err(EscapeError::UnicodeEscapeInByte))
        } else if value > 0x10FFFF {
            (i + 1, Err(EscapeError::OutOfRangeUnicodeEscape))
        } else if 0xD800 <= value <= 0xDFFF {
            (i + 1, Err(EscapeError::LoneSurrogateUnicodeEscape))
        } else {
            (i + 1, Ok(value as char))
        }
    } else if hex_digit_val(s[i]) is None {
        (i + 1, Err(EscapeError::InvalidCharInUnicodeEscape))
    } else if n_digits + 1 > 6 {
        // The value is certainly incorrect already; stop updating it.
        spec_unicode_loop(s, i + 1, n_digits + 1, value, mode)
    } else {
        spec_unicode_loop(s, i + 1, n_digits + 1, value * 16 + hex_digit_val(s[i]).unwrap(), mode)
    }
}

/// The decode of a `\u` escape whose `u` stands just before `i`: a brace,
/// then one to six hex digits with underscore separators, then a closing
/// brace.
pub open spec fn spec_unicode_escape(s: Seq<char>, i: int, mode: Mode) -> (int, Result<
    char,
    EscapeError,
>) {
    if i >= s.len() {
        (i, Err(EscapeError::NoBraceInUnicodeEscape))
    } else if s[i] != '{' {
        (i + 1, Err(EscapeError::NoBraceInUnicodeEscape))
    } else if i + 1 >= s.len() {
        (i + 1, Err(EscapeError::UnclosedUnicodeEscape))
    } else if s[i + 1] == '_' {
        (i + 2, Err(EscapeError::LeadingUnderscoreUnicodeEscape))
    } else if s[i + 1] == '}' {
        (i + 2, Err(EscapeError::EmptyUnicodeEscape))
    } else if hex_digit_val(s[i + 1]) is None {
        (i + 2, Err(EscapeError::InvalidCharInUnicodeEscape))
    } else {
        spec_unicode_loop(s, i + 2, 1, hex_digit_val(s[i + 1]).unwrap() as int, mode)
    }
}

/// The decode of one unit whose first character `first_char` stands just
/// before `i`.  An unescaped character maps to itself, subject to the
/// mode's quoting and byte-range rules; a backslash opens an escape.
pub open spec fn spec_scan_escape(s: Seq<char>, i: int, first_char: char, mode: Mode) -> (int,
    Result<char, EscapeError>) {
    if first_char != '\\' {
        let r: Result<char, EscapeError> = if first_char == '\t' || first_char == '\n' {
            Err(EscapeError::EscapeOnlyChar)
        } else if first_char == '\r' {
            Err(EscapeError::BareCarriageReturn)
        } else if first_char == '\'' && mode.spec_in_single_quotes() {
            Err(EscapeError::EscapeOnlyChar)
        } else if first_char == '"' && !mode.spec_in_single_quotes() {
            Err(EscapeError::EscapeOnlyChar)
        } else if mode.spec_is_bytes() && !spec_is_ascii(first_char as u32) {
            Err(EscapeError::NonAsciiCharInByte)
        } else {
            Ok(first_char)
        };
        (i, r)
    } else if i >= s.len() {
        (i, Err(EscapeError::LoneSlash))
    } else {
        let c2 = s[i];
        if c2 == '"' {
            (i + 1, Ok('"'))
        } else if c2 == 'n' {
            (i + 1, Ok('\n'))
        } else if c2 == 'r' {
            (i + 1, Ok('\r'))
        } else if c2 == 't' {
            (i + 1, Ok('\t'))
        } else if c2 == '\\' {
            (i + 1, Ok('\\'))
        } else if c2 == '\'' {
            (i + 1, Ok('\''))
        } else if c2 == '0' {
            (i + 1, Ok('\0'))
        } else if c2 == 'x' {
            spec_hex_escape(s, i + 1, mode)
        } else if c2 == 'u' {
            spec_unicode_escape(s, i + 1, mode)
        } else {
            (i + 1, Err(EscapeError::InvalidEscape))
        }
    }
}

pub proof fn lemma_spec_unicode_loop_bounds(
    s: Seq<char>,
    i: int,
    n_digits: int,
    value: int,
    mode: Mode,
)
    requires
        0 <= i <= s.len(),
    ensures
        i <= spec_unicode_loop(s, i, n_digits, value, mode).0 <= s.len(),
    decreases s.len() - i,
{
    if i < s.len() {
        if s[i] == '_' {
            lemma_spec_unicode_loop_bounds(s, i + 1, n_digits, value, mode);
        } else if s[i] == '}' {
        } else if hex_digit_val(s[i]) is None {
        } else if n_digits + 1 > 6 {
            lemma_spec_unicode_loop_bounds(s, i + 1, n_digits + 1, value, mode);
        } else {
            lemma_spec_unicode_loop_bounds(s, i + 1, n_digits + 1, value * 16 + hex_digit_val(
                s[i],
            ).unwrap(), mode);
        }
    }
}

pub proof fn lemma_spec_scan_escape_bounds(s: Seq<char>, i: int, first_char: char, mode: Mode)
    requires
        0 <= i <= s.len(),
    ensures
        i <= spec_scan_escape(s, i, first_char, mode).0 <= s.len(),
{
    if first_char == '\\' && i < s.len() && s[i] == 'u' {
        if i + 1 < s.len() && s[i + 1] == '{' && i + 2 <= s.len() && !(s[i + 2 - 1] == '_')
            && hex_digit_val(s[i + 2 - 1]) is Some {
        }
        if i + 1 < s.len() && s[i + 1] == '{' && i + 2 < s.len() && s[i + 2] != '_' && s[i + 2]
            != '}' && hex_digit_val(s[i + 2]) is Some {
            lemma_spec_unicode_loop_bounds(s, i + 3, 1, hex_digit_val(s[i + 2]).unwrap() as int,
                mode);
        }
    }
}

/// Consumes and decodes one escape unit whose first character stands just
/// before `i`.
fn scan_escape(text: &Vec<char>, i: usize, first_char: char, mode: Mode) -> (r: (usize, Result<
    char,
    EscapeError,
>))
    requires
        i <= text@.len(),
    ensures
        (r.0 as int, r.1) == spec_scan_escape(text@, i as int, first_char, mode),
        i <= r.0 <= text@.len(),
{
    proof {
        vstd::std_specs::vec::axiom_spec_len(text);
    }
    if first_char != '\\' {
        // The previous character was not a slash, and we don't expect it to
        // be an escape-only character.
        let r: Result<char, EscapeError> = if first_char == '\t' || first_char == '\n' {
            Err(EscapeError::EscapeOnlyChar)
        } else if first_char == '\r' {
            Err(EscapeError::BareCarriageReturn)
        } else if first_char == '\'' && mode.in_single_quotes() {
            Err(EscapeError::EscapeOnlyChar)
        } else if first_char == '"' && mode.in_double_quotes() {
            Err(EscapeError::EscapeOnlyChar)
        } else if mode.is_bytes() && !is_ascii(first_char as u32) {
            // A byte literal can't hold a non-ascii character.
            Err(EscapeError::NonAsciiCharInByte)
        } else {
            Ok(first_char)
        };
        return (i, r);
    }
    // The previous character is '\\'; try to unescape it.
    if i >= text.len() {
        return (i, Err(EscapeError::LoneSlash));
    }
    let c2 = text[i];
    if c2 == '"' {
        (i + 1, Ok('"'))
    } else if c2 == 'n' {
        (i + 1, Ok('\n'))
    } else if c2 == 'r' {
        (i + 1, Ok('\r'))
    } else if c2 == 't' {
        (i + 1, Ok('\t'))
    } else if c2 == '\\' {
        (i + 1, Ok('\\'))
    } else if c2 == '\'' {
        (i + 1, Ok('\''))
    } else if c2 == '0' {
        (i + 1, Ok('\0'))
    } else if c2 == 'x' {
        hex_escape(text, i + 1, mode)
    } else if c2 == 'u' {
        unicode_escape(text, i + 1, mode)
    } else {
        (i + 1, Err(EscapeError::InvalidEscape))
    }
}

/// Parses a hexadecimal character code of exactly two digits.
fn hex_escape(text: &Vec<char>, i: usize, mode: Mode) -> (r: (usize, Result<char, EscapeError>))
    requires
        i <= text@.len(),
    ensures
        (r.0 as int, r.1) == spec_hex_escape(text@, i as int, mode),
        i <= r.0 <= text@.len(),
{
    proof {
        vstd::std_specs::vec::axiom_spec_len(text);
    }
    if i >= text.len() {
        return (i, Err(EscapeError::TooShortHexEscape));
    }
    let hi = match to_hex_digit(text[i]) {
        Some(d) => d,
        None => {
            return (i + 1, Err(EscapeError::InvalidCharInHexEscape));
        },
    };
    if i + 1 >= text.len() {
        return (i + 1, Err(EscapeError::TooShortHexEscape));
    }
    let lo = match to_hex_digit(text[i + 1]) {
        Some(d) => d,
        None => {
            return (i + 2, Err(EscapeError::InvalidCharInHexEscape));
        },
    };
    let value = hi * 16 + lo;
    // For anything but a byte literal, verify that the code is in the
    // ASCII range.
    if !mode.is_bytes() && !is_ascii(value) {
        return (i + 2, Err(EscapeError::OutOfRangeHexEscape));
    }
    match char::from_u32(value) {
        Some(c) => {
            proof {
                vstd::utf8::char_u32_cast(c, value);
            }
            (i + 2, Ok(c))
        },
        None => {
            proof {
                assert(vstd::utf8::is_scalar(value));
                assert(false);
            }
            (i + 2, Err(EscapeError::OutOfRangeHexEscape))
        },
    }
}

/// Parses a brace-delimited unicode character code.
fn unicode_escape(text: &Vec<char>, i: usize, mode: Mode) -> (r: (usize, Result<char, EscapeError>))
    requires
        i <= text@.len(),
    ensures
        (r.0 as int, r.1) == spec_unicode_escape(text@, i as int, mode),
        i <= r.0 <= text@.len(),
{
    proof {
        vstd::std_specs::vec::axiom_spec_len(text);
    }
    if i >= text.len() {
        return (i, Err(EscapeError::NoBraceInUnicodeEscape));
    }
    if text[i] != '{' {
        return (i + 1, Err(EscapeError::NoBraceInUnicodeEscape));
    }
    // The first character must be a hexadecimal digit.
    if i + 1 >= text.len() {
        return (i + 1, Err(EscapeError::UnclosedUnicodeEscape));
    }
    if text[i + 1] == '_' {
        return (i + 2, Err(EscapeError::LeadingUnderscoreUnicodeEscape));
    }
    if text[i + 1] == '}' {
        return (i + 2, Err(EscapeError::EmptyUnicodeEscape));
    }
    let first = match to_hex_digit(text[i + 1]) {
        Some(d) => d,
        None => {
            return (i + 2, Err(EscapeError::InvalidCharInUnicodeEscape));
        },
    };
    // The first character is valid; parse the rest of the number and the
    // closing brace.
    let mut k = i + 2;
    let mut n_digits: usize = 1;
    let mut value: u32 = first;
    loop
        invariant
            i + 2 <= k <= text@.len(),
            n_digits >= 1,
            n_digits - 1 <= k - (i + 2),
            value < 0x1000000,
            n_digits == 1 ==> value < 0x10,
            n_digits == 2 ==> value < 0x100,
            n_digits == 3 ==> value < 0x1000,
            n_digits == 4 ==> value < 0x10000,
            n_digits == 5 ==> value < 0x100000,
            spec_unicode_escape(text@, i as int, mode) == spec_unicode_loop(
                text@,
                k as int,
                n_digits as int,
                value as int,
                mode,
            ),
        decreases text@.len() - k,
    {
        if k >= text.len() {
            return (k, Err(EscapeError::UnclosedUnicodeEscape));
        }
        let c = text[k];
        if c == '_' {
            k = k + 1;
        } else if c == '}' {
            if n_digits > 6 {
                return (k + 1, Err(EscapeError::OverlongUnicodeEscape));
            }
            // Incorrect syntax has higher priority for error reporting
            // than a disallowed value for a literal.
            if mode.is_bytes() {
                return (k + 1, Err(EscapeError::UnicodeEscapeInByte));
            }
            match char::from_u32(value) {
                Some(c) => {
                    proof {
                        vstd::utf8::char_u32_cast(c, value);
                    }
                    return (k + 1, Ok(c));
                },
                None => {
                    if value > 0x10FFFF {
                        return (k + 1, Err(EscapeError::OutOfRangeUnicodeEscape));
                    }
                    return (k + 1, Err(EscapeError::LoneSurrogateUnicodeEscape));
                },
            }
        } else {
            let d = match to_hex_digit(c) {
                Some(d) => d,
                None => {
                    return (k + 1, Err(EscapeError::InvalidCharInUnicodeEscape));
                },
            };
            if n_digits + 1 > 6 {
                // The value is certainly incorrect already; stop updating it.
                n_digits = n_digits + 1;
                k = k + 1;
            } else {
                n_digits = n_digits + 1;
                value = value * 16 + d;
                k = k + 1;
            }
        }
    }
}

// ----------------------------------------------------------------------
// Single-unit decoding: char and byte literals.
// ----------------------------------------------------------------------
/// The decode of a whole single-unit literal body: exactly one unit must
/// decode, with no character left over.
pub open spec fn spec_char_or_byte(s: Seq<char>, mode: Mode) -> (int, Result<char, EscapeError>) {
    if s.len() == 0 {
        (0, Err(EscapeError::ZeroChars))
    } else {
        let (j, res) = spec_scan_escape(s, 1, s[0], mode);
        if res is Err {
            (j, res)
        } else if j < s.len() {
            (j + 1, Err(EscapeError::MoreThanOneChar))
        } else {
            (j, res)
        }
    }
}

/// What `unescape_char` returns: the represented character, or the byte
/// offset consumed so far paired with the error.
pub open spec fn spec_unescape_char(s: Seq<char>) -> Result<char, (usize, EscapeError)> {
    let (j, res) = spec_char_or_byte(s, Mode::Char);
    match res {
        Ok(c) => Ok(c),
        Err(e) => Err((bytes_upto(s, j) as usize, e)),
    }
}

/// What `unescape_byte` returns: the represented byte, or the byte offset
/// consumed so far paired with the error.
pub open spec fn spec_unescape_byte(s: Seq<char>) -> Result<u8, (usize, EscapeError)> {
    let (j, res) = spec_char_or_byte(s, Mode::Byte);
    match res {
        Ok(c) => Ok((c as u32) as u8),
        Err(e) => Err((bytes_upto(s, j) as usize, e)),
    }
}

/// In a byte mode the unicode-escape loop never produces a value: the
/// closing brace reports `UnicodeEscapeInByte` first.
proof fn lemma_unicode_loop_bytes_err(s: Seq<char>, i: int, n_digits: int, value: int, mode: Mode)
    requires
        mode.spec_is_bytes(),
    ensures
        spec_unicode_loop(s, i, n_digits, value, mode).1 is Err,
    decreases s.len() - i,
{
    if 0 <= i < s.len() {
        if s[i] == '_' {
            lemma_unicode_loop_bytes_err(s, i + 1, n_digits, value, mode);
        } else if s[i] == '}' {
        } else if hex_digit_val(s[i]) is None {
        } else if n_digits + 1 > 6 {
            lemma_unicode_loop_bytes_err(s, i + 1, n_digits + 1, value, mode);
        } else {
            lemma_unicode_loop_bytes_err(s, i + 1, n_digits + 1, value * 16 + hex_digit_val(
                s[i],
            ).unwrap(), mode);
        }
    }
}

/// In a byte mode every decoded unit fits in a byte.
pub proof fn lemma_scan_escape_byte_range(s: Seq<char>, i: int, first_char: char, mode: Mode)
    requires
        0 <= i <= s.len(),
        mode.spec_is_bytes(),
    ensures
        spec_scan_escape(s, i, first_char, mode).1 is Ok ==> (spec_scan_escape(
            s,
            i,
            first_char,
            mode,
        ).1.unwrap() as u32) <= 255,
{
    if first_char == '\\' && 0 <= i < s.len() && s[i] == 'u' {
        if i + 1 < s.len() && s[i + 1] == '{' && i + 2 < s.len() && s[i + 2] != '_' && s[i + 2]
            != '}' && hex_digit_val(s[i + 2]) is Some {
            lemma_unicode_loop_bytes_err(s, i + 3, 1, hex_digit_val(s[i + 2]).unwrap() as int,
                mode);
        }
    }
    if first_char == '\\' && 0 <= i < s.len() && s[i] == 'x' {
        let r = spec_hex_escape(s, i + 1, mode);
        if r.1 is Ok {
            let value = hex_digit_val(s[i + 1]).unwrap() * 16 + hex_digit_val(s[i + 2]).unwrap();
            assert(0 <= value <= 255);
            assert((value as char) as u32 == value);
        }
    }
}

/// Decodes the body of a single-unit literal, reporting the end position.
fn unescape_char_or_byte(text: &Vec<char>, mode: Mode) -> (r: (usize, Result<char, EscapeError>))
    ensures
        (r.0 as int, r.1) == spec_char_or_byte(text@, mode),
        r.0 <= text@.len(),
{
    proof {
        vstd::std_specs::vec::axiom_spec_len(text);
    }
    if text.len() == 0 {
        return (0, Err(EscapeError::ZeroChars));
    }
    let first_char = text[0];
    let (j, res) = scan_escape(text, 1, first_char, mode);
    match res {
        Err(e) => (j, Err(e)),
        Ok(c) => {
            if j < text.len() {
                (j + 1, Err(EscapeError::MoreThanOneChar))
            } else {
                (j, Ok(c))
            }
        },
    }
}

/// The byte a character stands for in a byte or byte-string literal.
pub fn byte_from_char(c: char) -> (b: u8)
    requires
        c as u32 <= 255,
    ensures
        b == (c as u32) as u8,
{
    (c as u32) as u8
}

/// Takes the contents of a char literal (without quotes) and returns the
/// unescaped char or an error with the byte offset consumed before it.
pub fn unescape_char(literal_text: &str) -> (r: Result<char, (usize, EscapeError)>)
    ensures
        r == spec_unescape_char(literal_text@),
{
    let text = str_to_chars(literal_text);
    let (j, res) = unescape_char_or_byte(&text, Mode::Char);
    match res {
        Ok(c) => Ok(c),
        Err(e) => {
            let b = prefix_bytes(&text, j);
            Err((b, e))
        },
    }
}

/// Takes the contents of a byte literal (without quotes) and returns the
/// unescaped byte or an error with the byte offset consumed before it.
pub fn unescape_byte(literal_text: &str) -> (r: Result<u8, (usize, EscapeError)>)
    ensures
        r == spec_unescape_byte(literal_text@),
{
    let text = str_to_chars(literal_text);
    let (j, res) = unescape_char_or_byte(&text, Mode::Byte);
    match res {
        Ok(c) => {
            proof {
                if text@.len() > 0 {
                    lemma_scan_escape_byte_range(text@, 1, text@[0], Mode::Byte);
                }
            }
            Ok(byte_from_char(c))
        },
        Err(e) => {
            let b = prefix_bytes(&text, j);
            Err((b, e))
        },
    }
}

// ----------------------------------------------------------------------
// Multi-unit decoding: string and byte-string literals.
// ----------------------------------------------------------------------
/// First position at or after `i` not holding an ASCII space, tab,
/// newline or carriage return.
pub open spec fn scan_space(s: Seq<char>, i: int) -> int
    decreases s.len() - i,
{
    if 0 <= i < s.len() && (s[i] == ' ' || s[i] == '\t' || s[i] == '\n' || s[i] == '\r') {
        scan_space(s, i + 1)
    } else {
        i
    }
}

pub proof fn lemma_scan_space_bounds(s: Seq<char>, i: int)
    requires
        0 <= i <= s.len(),
    ensures
        i <= scan_space(s, i) <= s.len(),
    decreases s.len() - i,
{
    if i < s.len() && (s[i] == ' ' || s[i] == '\t' || s[i] == '\n' || s[i] == '\r') {
        lemma_scan_space_bounds(s, i + 1);
    }
}

/// The decoded units of a string or byte-string body from `i` on: each
/// unit's byte range and its value or error.  A backslash directly before
/// a newline is a line continuation: it and the following ASCII whitespace
/// are discarded and produce no unit.  Unescaped newlines and tabs pass
/// through; everything else goes through the escape decode.
pub open spec fn spec_str_units(s: Seq<char>, i: int, mode: Mode) -> Seq<
    (usize, usize, Result<char, EscapeError>),
>
    decreases s.len() - i,
    when 0 <= i <= s.len()
    via spec_str_units_decreases
{
    if i >= s.len() {
        Seq::empty()
    } else {
        let c = s[i];
        if c == '\\' && pk(s, i + 1) == '\n' {
            spec_str_units(s, scan_space(s, i + 1), mode)
        } else {
            let (j, res) = if c == '\n' {
                (i + 1, Ok('\n'))
            } else if c == '\t' {
                (i + 1, Ok('\t'))
            } else {
                spec_scan_escape(s, i + 1, c, mode)
            };
            seq![(bytes_upto(s, i) as usize, bytes_upto(s, j) as usize, res)] + spec_str_units(
                s,
                j,
                mode,
            )
        }
    }
}

#[via_fn]
proof fn spec_str_units_decreases(s: Seq<char>, i: int, mode: Mode) {
    if 0 <= i < s.len() {
        let c = s[i];
        if c == '\\' && pk(s, i + 1) == '\n' {
            lemma_scan_space_bounds(s, i + 1);
        } else if c != '\n' && c != '\t' {
            lemma_spec_scan_escape_bounds(s, i + 1, c, mode);
        }
    }
}

/// In a byte mode every unit's value fits in a byte.
pub proof fn lemma_str_units_byte_range(s: Seq<char>, i: int, mode: Mode)
    requires
        0 <= i <= s.len(),
        mode.spec_is_bytes(),
    ensures
        forall|k: int|
            0 <= k < spec_str_units(s, i, mode).len() ==> (#[trigger] spec_str_units(s, i, mode)[k]).2
                is Ok ==> (spec_str_units(s, i, mode)[k].2.unwrap() as u32) <= 255,
    decreases s.len() - i,
{
    if i < s.len() {
        let c = s[i];
        if c == '\\' && pk(s, i + 1) == '\n' {
            lemma_scan_space_bounds(s, i + 1);
            lemma_str_units_byte_range(s, scan_space(s, i + 1), mode);
        } else {
            let (j, res) = if c == '\n' {
                (i + 1, Ok::<char, EscapeError>('\n'))
            } else if c == '\t' {
                (i + 1, Ok::<char, EscapeError>('\t'))
            } else {
                spec_scan_escape(s, i + 1, c, mode)
            };
            lemma_spec_scan_escape_bounds(s, i + 1, c, mode);
            lemma_scan_escape_byte_range(s, i + 1, c, mode);
            lemma_str_units_byte_range(s, j, mode);
            let us = spec_str_units(s, i, mode);
            let rest = spec_str_units(s, j, mode);
            assert(us[0].2 == res);
            assert forall|k: int| 0 <= k < us.len() implies (#[trigger] us[k]).2 is Ok ==> (
            us[k].2.unwrap() as u32) <= 255 by {
                if k > 0 {
                    assert(us[k] == rest[k - 1]);
                }
            }
        }
    }
}

/// Decodes every unit of a string or byte-string body, continuing past
/// errors so that all problems are reported.
fn unescape_str_or_byte_str(text: &Vec<char>, mode: Mode) -> (r: Vec<
    (usize, usize, Result<char, EscapeError>),
>)
    requires
        text_bytes(text@) <= usize::MAX,
    ensures
        r@ == spec_str_units(text@, 0, mode),
{
    proof {
        vstd::std_specs::vec::axiom_spec_len(text);
    }
    let mut out: Vec<(usize, usize, Result<char, EscapeError>)> = Vec::new();
    let mut i: usize = 0;
    proof {
        assert(out@ + spec_str_units(text@, 0, mode) =~= spec_str_units(text@, 0, mode));
    }
    while i < text.len()
        invariant
            i <= text@.len(),
            text_bytes(text@) <= usize::MAX,
            spec_str_units(text@, 0, mode) == out@ + spec_str_units(text@, i as int, mode),
        decreases text@.len() - i,
    {
        let c = text[i];
        if c == '\\' && i + 1 < text.len() && text[i + 1] == '\n' {
            // The language requires us to skip ASCII whitespace when an
            // unescaped backslash is directly followed by a newline.
            let mut k = i + 1;
            while k < text.len() && (text[k] == ' ' || text[k] == '\t' || text[k] == '\n'
                || text[k] == '\r')
                invariant
                    i + 1 <= k <= text@.len(),
                    scan_space(text@, i + 1) == scan_space(text@, k as int),
                decreases text@.len() - k,
            {
                k = k + 1;
            }
            proof {
                lemma_scan_space_bounds(text@, i + 1);
            }
            i = k;
        } else {
            let (j, res) = if c == '\n' {
                (i + 1, Ok('\n'))
            } else if c == '\t' {
                (i + 1, Ok('\t'))
            } else {
                scan_escape(text, i + 1, c, mode)
            };
            let start = prefix_bytes(text, i);
            let end = prefix_bytes(text, j);
            let ghost prev_out = out@;
            out.push((start, end, res));
            proof {
                lemma_bytes_upto_mono(text@, i as int, text@.len() as int);
                lemma_bytes_upto_mono(text@, j as int, text@.len() as int);
                assert(out@ =~= prev_out + seq![(start, end, res)]);
                assert((prev_out + seq![(start, end, res)]) + spec_str_units(text@, j as int, mode)
                    =~= prev_out + (seq![(start, end, res)] + spec_str_units(
                    text@,
                    j as int,
                    mode,
                )));
            }
            i = j;
        }
    }
    out
}

/// Takes the contents of a string literal (without quotes) and returns the
/// decoded units: each unit's byte range with its character or error.
pub fn unescape_str(literal_text: &str) -> (r: Vec<(usize, usize, Result<char, EscapeError>)>)
    ensures
        r@ == spec_str_units(literal_text@, 0, Mode::Str),
{
    let text = str_to_chars(literal_text);
    unescape_str_or_byte_str(&text, Mode::Str)
}

/// The decoded units of a byte-string body: the string decode with each
/// value narrowed to its byte.
pub open spec fn spec_byte_str_units(s: Seq<char>) -> Seq<(usize, usize, Result<u8, EscapeError>)> {
    spec_str_units(s, 0, Mode::ByteStr).map(
        |_k: int, u: (usize, usize, Result<char, EscapeError>)|
            (
                u.0,
                u.1,
                match u.2 {
                    Ok(c) => Ok((c as u32) as u8),
                    Err(e) => Err(e),
                },
            ),
    )
}

/// Takes the contents of a byte string literal (without quotes) and
/// returns the decoded units: each unit's byte range with its byte or
/// error.
pub fn unescape_byte_str(literal_text: &str) -> (r: Vec<(usize, usize, Result<u8, EscapeError>)>)
    ensures
        r@ == spec_byte_str_units(literal_text@),
{
    let text = str_to_chars(literal_text);
    let units = unescape_str_or_byte_str(&text, Mode::ByteStr);
    proof {
        lemma_str_units_byte_range(text@, 0, Mode::ByteStr);
    }
    let mut out: Vec<(usize, usize, Result<u8, EscapeError>)> = Vec::new();
    let mut i: usize = 0;
    while i < units.len()
        invariant
            i <= units@.len(),
            units@ == spec_str_units(text@, 0, Mode::ByteStr),
            forall|k: int|
                0 <= k < units@.len() ==> (#[trigger] units@[k]).2 is Ok ==> (
                units@[k].2.unwrap() as u32) <= 255,
            out@.len() == i,
            forall|k: int|
                0 <= k < i ==> out@[k] == spec_byte_str_units(text@)[k],
        decreases units@.len() - i,
    {
        let (start, end, res) = units[i];
        let b: Result<u8, EscapeError> = match res {
            Ok(c) => Ok(byte_from_char(c)),
            Err(e) => Err(e),
        };
        out.push((start, end, b));
        i = i + 1;
    }
    proof {
        assert(out@ =~= spec_byte_str_units(text@));
    }
    out
}

// ----------------------------------------------------------------------
// Raw variants: no escape processing at all.
// ----------------------------------------------------------------------
/// The decoded units of a raw string or raw byte-string body from `i` on:
/// every character passes through verbatim, except that a bare carriage
/// return is an error, and in a byte mode so is any non-ASCII character.
pub open spec fn spec_raw_units(s: Seq<char>, i: int, mode: Mode) -> Seq<
    (usize, usize, Result<char, EscapeError>),
>
    decreases s.len() - i,
{
    if i < 0 || i >= s.len() {
        Seq::empty()
    } else {
        let res: Result<char, EscapeError> = if s[i] == '\r' {
            Err(EscapeError::BareCarriageReturnInRawString)
        } else if mode.spec_is_bytes() && !spec_is_ascii(s[i] as u32) {
            Err(EscapeError::NonAsciiCharInByteString)
        } else {
            Ok(s[i])
        };
        seq![(bytes_upto(s, i) as usize, bytes_upto(s, i + 1) as usize, res)] + spec_raw_units(
            s,
            i + 1,
            mode,
        )
    }
}

/// Decodes a raw body: reports errors but performs no escape processing.
fn unescape_raw_str_or_byte_str(text: &Vec<char>, mode: Mode) -> (r: Vec<
    (usize, usize, Result<char, EscapeError>),
>)
    requires
        text_bytes(text@) <= usize::MAX,
    ensures
        r@ == spec_raw_units(text@, 0, mode),
{
    proof {
        vstd::std_specs::vec::axiom_spec_len(text);
    }
    let mut out: Vec<(usize, usize, Result<char, EscapeError>)> = Vec::new();
    let mut i: usize = 0;
    proof {
        assert(out@ + spec_raw_units(text@, 0, mode) =~= spec_raw_units(text@, 0, mode));
    }
    while i < text.len()
        invariant
            i <= text@.len(),
            text_bytes(text@) <= usize::MAX,
            spec_raw_units(text@, 0, mode) == out@ + spec_raw_units(text@, i as int, mode),
        decreases text@.len() - i,
    {
        let c = text[i];
        let res: Result<char, EscapeError> = if c == '\r' {
            Err(EscapeError::BareCarriageReturnInRawString)
        } else if mode.is_bytes() && !is_ascii(c as u32) {
            Err(EscapeError::NonAsciiCharInByteString)
        } else {
            Ok(c)
        };
        let start = prefix_bytes(text, i);
        let end = prefix_bytes(text, i + 1);
        let ghost prev_out = out@;
        out.push((start, end, res));
        proof {
            lemma_bytes_upto_mono(text@, i as int, text@.len() as int);
            lemma_bytes_upto_mono(text@, i + 1, text@.len() as int);
            assert(out@ =~= prev_out + seq![(start, end, res)]);
            assert((prev_out + seq![(start, end, res)]) + spec_raw_units(text@, i + 1, mode) =~=
                prev_out + (seq![(start, end, res)] + spec_raw_units(text@, i + 1, mode)));
        }
        i = i + 1;
    }
    out
}

/// Takes the contents of a raw string literal (without quotes) and returns
/// the decoded units.  Raw strings perform no escape processing; only a
/// bare carriage return is reported as an error.
pub fn unescape_raw_str(literal_text: &str) -> (r: Vec<(usize, usize, Result<char, EscapeError>)>)
    ensures
        r@ == spec_raw_units(literal_text@, 0, Mode::Str),
{
    let text = str_to_chars(literal_text);
    unescape_raw_str_or_byte_str(&text, Mode::Str)
}

/// The decoded units of a raw byte-string body: the raw decode with each
/// value narrowed to its byte.
pub open spec fn spec_raw_byte_str_units(s: Seq<char>) -> Seq<
    (usize, usize, Result<u8, EscapeError>),
> {
    spec_raw_units(s, 0, Mode::ByteStr).map(
        |_k: int, u: (usize, usize, Result<char, EscapeError>)|
            (
                u.0,
                u.1,
                match u.2 {
                    Ok(c) => Ok((c as u32) as u8),
                    Err(e) => Err(e),
                },
            ),
    )
}

/// Takes the contents of a raw byte string literal (without quotes) and
/// returns the decoded units.  Besides a bare carriage return, any
/// non-ASCII character is reported as an error.
pub fn unescape_raw_byte_str(literal_text: &str) -> (r: Vec<
    (usize, usize, Result<u8, EscapeError>),
>)
    ensures
        r@ == spec_raw_byte_str_units(literal_text@),
{
    let text = str_to_chars(literal_text);
    let units = unescape_raw_str_or_byte_str(&text, Mode::ByteStr);
    let mut out: Vec<(usize, usize, Result<u8, EscapeError>)> = Vec::new();
    let mut i: usize = 0;
    while i < units.len()
        invariant
            i <= units@.len(),
            units@ == spec_raw_units(text@, 0, Mode::ByteStr),
            out@.len() == i,
            forall|k: int|
                0 <= k < i ==> out@[k] == spec_raw_byte_str_units(text@)[k],
        decreases units@.len() - i,
    {
        let (start, end, res) = units[i];
        let b: Result<u8, EscapeError> = match res {
            Ok(c) => {
                proof {
                    lemma_raw_units_ascii(text@, 0, Mode::ByteStr, i as int);
                }
                Ok(byte_from_char(c))
            },
            Err(e) => Err(e),
        };
        out.push((start, end, b));
        i = i + 1;
    }
    proof {
        assert(out@ =~= spec_raw_byte_str_units(text@));
    }
    out
}

/// In a byte mode every raw unit's value is ASCII.
proof fn lemma_raw_units_ascii(s: Seq<char>, i: int, mode: Mode, k: int)
    requires
        0 <= i <= s.len(),
        mode.spec_is_bytes(),
        0 <= k < spec_raw_units(s, i, mode).len(),
        spec_raw_units(s, i, mode)[k].2 is Ok,
    ensures
        (spec_raw_units(s, i, mode)[k].2.unwrap() as u32) <= 255,
    decreases k,
{
    if k > 0 {
        lemma_raw_units_ascii(s, i + 1, mode, k - 1);
        assert(spec_raw_units(s, i, mode)[k] == spec_raw_units(s, i + 1, mode)[k - 1]);
    }
}

// ----------------------------------------------------------------------
// Laws of the decode.
// ----------------------------------------------------------------------
/// A raw decode yields one unit per character, and every unit that carries
/// a value carries exactly the character at its position.
pub proof fn lemma_raw_units_identity(s: Seq<char>, i: int, mode: Mode)
    requires
        0 <= i <= s.len(),
    ensures
        spec_raw_units(s, i, mode).len() == s.len() - i,
        forall|k: int|
            0 <= k < s.len() - i ==> ((#[trigger] spec_raw_units(s, i, mode)[k]).2 is Ok
                ==> spec_raw_units(s, i, mode)[k].2 == Ok::<char, EscapeError>(s[i + k])),
    decreases s.len() - i,
{
    if i < s.len() {
        lemma_raw_units_identity(s, i + 1, mode);
        let us = spec_raw_units(s, i, mode);
        let rest = spec_raw_units(s, i + 1, mode);
        assert forall|k: int|
            0 <= k < s.len() - i implies ((#[trigger] us[k]).2 is Ok ==> us[k].2 == Ok::<
            char,
            EscapeError,
        >(s[i + k])) by {
            if k > 0 {
                assert(us[k] == rest[k - 1]);
            }
        }
    }
}

/// Law: when a raw string body decodes with zero errors, the decoded
/// characters, in the order of their ranges, are exactly the characters of
/// the body: concatenating them reproduces the represented string.
pub proof fn lemma_raw_str_round_trip(s: Seq<char>, mode: Mode)
    requires
        forall|k: int|
            0 <= k < spec_raw_units(s, 0, mode).len() ==> (#[trigger] spec_raw_units(
                s,
                0,
                mode,
            )[k]).2 is Ok,
    ensures
        spec_raw_units(s, 0, mode).len() == s.len(),
        forall|k: int|
            0 <= k < s.len() ==> (#[trigger] spec_raw_units(s, 0, mode)[k]).2 == Ok::<
                char,
                EscapeError,
            >(s[k]),
{
    lemma_raw_units_identity(s, 0, mode);
}

/// An escape-free decode yields one unit per character, and every unit
/// that carries a value carries exactly the character at its position.
proof fn lemma_str_units_plain(s: Seq<char>, i: int, mode: Mode)
    requires
        0 <= i <= s.len(),
        forall|k: int| i <= k < s.len() ==> s[k] != '\\',
    ensures
        spec_str_units(s, i, mode).len() == s.len() - i,
        forall|k: int|
            0 <= k < s.len() - i ==> ((#[trigger] spec_str_units(s, i, mode)[k]).2 is Ok
                ==> spec_str_units(s, i, mode)[k].2 == Ok::<char, EscapeError>(s[i + k])),
    decreases s.len() - i,
{
    if i < s.len() {
        lemma_str_units_plain(s, i + 1, mode);
        let us = spec_str_units(s, i, mode);
        let rest = spec_str_units(s, i + 1, mode);
        assert(spec_scan_escape(s, i + 1, s[i], mode).0 == i + 1);
        assert forall|k: int|
            0 <= k < s.len() - i implies ((#[trigger] us[k]).2 is Ok ==> us[k].2 == Ok::<
            char,
            EscapeError,
        >(s[i + k])) by {
            if k > 0 {
                assert(us[k] == rest[k - 1]);
            }
        }
    }
}

/// Law: when a string body containing no backslash decodes with zero
/// errors, the decoded characters, in the order of their ranges, are
/// exactly the characters of the body: concatenating them reproduces the
/// represented string.
pub proof fn lemma_str_plain_round_trip(s: Seq<char>, mode: Mode)
    requires
        forall|k: int| 0 <= k < s.len() ==> s[k] != '\\',
        forall|k: int|
            0 <= k < spec_str_units(s, 0, mode).len() ==> (#[trigger] spec_str_units(
                s,
                0,
                mode,
            )[k]).2 is Ok,
    ensures
        spec_str_units(s, 0, mode).len() == s.len(),
        forall|k: int|
            0 <= k < s.len() ==> (#[trigger] spec_str_units(s, 0, mode)[k]).2 == Ok::<
                char,
                EscapeError,
            >(s[k]),
{
    lemma_str_units_plain(s, 0, mode);
}

} // verus!
