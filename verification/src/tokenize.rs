//! Token classification.
//!
//! `tokenize` turns a text into the sequence of tokens that exactly covers
//! it; `first_token` classifies the first token.  The scan is specified by a
//! functional model: each scan routine's contract says it computes the model
//! function of the same name, and the laws at the bottom are proved of the
//! model.

use crate::cursor::{Cursor, EOF_CHAR};
use crate::literal_kind::{LiteralKind, NumericBase, UnvalidatedRawStr};
use crate::text::{bytes_upto, char_bytes, chars_from, lemma_bytes_upto_mono, lemma_bytes_upto_skip,
    prefix_bytes, str_to_chars, text_bytes};
use crate::token::Token;
use crate::token_kind::TokenKind;
use crate::unicode::{is_xid_continue, is_xid_start, xid_continue, xid_start};
use vstd::prelude::*;

verus! {

/// The character `i` positions into `s`, or `EOF_CHAR` past the end.
pub open spec fn pk(s: Seq<char>, i: int) -> char {
    if 0 <= i < s.len() {
        s[i]
    } else {
        EOF_CHAR
    }
}

/// Whether `c` is whitespace: the Unicode `Pattern_White_Space` class.
pub open spec fn spec_is_whitespace(c: char) -> bool {
    ||| c == '\u{0009}'  // \t
    ||| c == '\u{000A}'  // \n
    ||| c == '\u{000B}'  // vertical tab
    ||| c == '\u{000C}'  // form feed
    ||| c == '\u{000D}'  // \r
    ||| c == '\u{0020}'  // space
    ||| c == '\u{0085}'  // NEXT LINE from latin1
    ||| c == '\u{200E}'  // LEFT-TO-RIGHT MARK
    ||| c == '\u{200F}'  // RIGHT-TO-LEFT MARK
    ||| c == '\u{2028}'  // LINE SEPARATOR
    ||| c == '\u{2029}'  // PARAGRAPH SEPARATOR
}

/// Whether `c` may begin an identifier: `XID_Start`, an ASCII letter, or `_`.
pub open spec fn spec_is_id_start(c: char) -> bool {
    ||| ('a' <= c && c <= 'z')
    ||| ('A' <= c && c <= 'Z')
    ||| c == '_'
    ||| (c > '\x7f' && xid_start(c))
}

/// Whether `c` may continue an identifier: `XID_Continue`, an ASCII
/// alphanumeric, or `_`.
pub open spec fn spec_is_id_continue(c: char) -> bool {
    ||| ('a' <= c && c <= 'z')
    ||| ('A' <= c && c <= 'Z')
    ||| ('0' <= c && c <= '9')
    ||| c == '_'
    ||| (c > '\x7f' && xid_continue(c))
}

pub open spec fn spec_is_digit(c: char) -> bool {
    '0' <= c && c <= '9'
}

pub open spec fn spec_is_hex_digit(c: char) -> bool {
    ||| spec_is_digit(c)
    ||| ('a' <= c && c <= 'f')
    ||| ('A' <= c && c <= 'F')
}

/// True if `c` is considered whitespace.  This is `Pattern_White_Space`,
/// a stable class that does not change between Unicode versions.
pub fn is_whitespace(c: char) -> (r: bool)
    ensures
        r == spec_is_whitespace(c),
{
    c == '\u{0009}' || c == '\u{000A}' || c == '\u{000B}' || c == '\u{000C}' || c == '\u{000D}'
        || c == '\u{0020}' || c == '\u{0085}' || c == '\u{200E}' || c == '\u{200F}' || c
        == '\u{2028}' || c == '\u{2029}'
}

/// True if `c` is valid as a first character of an identifier:
/// `XID_Start`, with `_` added and a fast path for ASCII.
pub fn is_id_start(c: char) -> (r: bool)
    ensures
        r == spec_is_id_start(c),
{
    ('a' <= c && c <= 'z') || ('A' <= c && c <= 'Z') || c == '_' || (c > '\x7f' && is_xid_start(c))
}

/// True if `c` is valid as a non-first character of an identifier:
/// exactly `XID_Continue`, with a fast path for ASCII.
pub fn is_id_continue(c: char) -> (r: bool)
    ensures
        r == spec_is_id_continue(c),
{
    ('a' <= c && c <= 'z') || ('A' <= c && c <= 'Z') || ('0' <= c && c <= '9') || c == '_' || (c
        > '\x7f' && is_xid_continue(c))
}

// ----------------------------------------------------------------------
// Leaf scan routines.  Each walks forward from a position and returns the
// first position where its condition stops holding.
// ----------------------------------------------------------------------
/// First position at or after `i` holding `stop`, or the end of `s`.
pub open spec fn scan_while_not(s: Seq<char>, i: int, stop: char) -> int
    decreases s.len() - i,
{
    if i < 0 || i >= s.len() || s[i] == stop {
        i
    } else {
        scan_while_not(s, i + 1, stop)
    }
}

pub proof fn lemma_scan_while_not_bounds(s: Seq<char>, i: int, stop: char)
    requires
        0 <= i <= s.len(),
    ensures
        i <= scan_while_not(s, i, stop) <= s.len(),
    decreases s.len() - i,
{
    if i < s.len() && s[i] != stop {
        lemma_scan_while_not_bounds(s, i + 1, stop);
    }
}

/// First position at or after `i` not holding whitespace, or the end of `s`.
pub open spec fn scan_whitespace(s: Seq<char>, i: int) -> int
    decreases s.len() - i,
{
    if 0 <= i < s.len() && spec_is_whitespace(s[i]) {
        scan_whitespace(s, i + 1)
    } else {
        i
    }
}

pub proof fn lemma_scan_whitespace_bounds(s: Seq<char>, i: int)
    requires
        0 <= i <= s.len(),
    ensures
        i <= scan_whitespace(s, i) <= s.len(),
    decreases s.len() - i,
{
    if i < s.len() && spec_is_whitespace(s[i]) {
        lemma_scan_whitespace_bounds(s, i + 1);
    }
}

/// First position at or after `i` not holding an identifier-continue
/// character, or the end of `s`.
pub open spec fn scan_id_continue(s: Seq<char>, i: int) -> int
    decreases s.len() - i,
{
    if 0 <= i < s.len() && spec_is_id_continue(s[i]) {
        scan_id_continue(s, i + 1)
    } else {
        i
    }
}

pub proof fn lemma_scan_id_continue_bounds(s: Seq<char>, i: int)
    requires
        0 <= i <= s.len(),
    ensures
        i <= scan_id_continue(s, i) <= s.len(),
    decreases s.len() - i,
{
    if i < s.len() && spec_is_id_continue(s[i]) {
        lemma_scan_id_continue_bounds(s, i + 1);
    }
}

/// First position at or after `i` not holding `#`, or the end of `s`.
pub open spec fn scan_hashes(s: Seq<char>, i: int) -> int
    decreases s.len() - i,
{
    if 0 <= i < s.len() && s[i] == '#' {
        scan_hashes(s, i + 1)
    } else {
        i
    }
}

pub proof fn lemma_scan_hashes_bounds(s: Seq<char>, i: int)
    requires
        0 <= i <= s.len(),
    ensures
        i <= scan_hashes(s, i) <= s.len(),
    decreases s.len() - i,
{
    if i < s.len() && s[i] == '#' {
        lemma_scan_hashes_bounds(s, i + 1);
    }
}

/// Position after consuming at most `left` characters holding `#` from `i`.
pub open spec fn scan_limited_hashes(s: Seq<char>, i: int, left: int) -> int
    decreases s.len() - i,
{
    if left > 0 && 0 <= i < s.len() && s[i] == '#' {
        scan_limited_hashes(s, i + 1, left - 1)
    } else {
        i
    }
}

pub proof fn lemma_scan_limited_hashes_bounds(s: Seq<char>, i: int, left: int)
    requires
        0 <= i <= s.len(),
    ensures
        i <= scan_limited_hashes(s, i, left) <= s.len(),
        scan_limited_hashes(s, i, left) - i <= if left >= 0 {
            left
        } else {
            0
        },
    decreases s.len() - i,
{
    if left > 0 && i < s.len() && s[i] == '#' {
        lemma_scan_limited_hashes_bounds(s, i + 1, left - 1);
    }
}

/// Position and has-digits flag after consuming decimal digits and `_`
/// separators from `i`.
pub open spec fn scan_digits(s: Seq<char>, i: int) -> (int, bool)
    decreases s.len() - i,
{
    if 0 <= i < s.len() && s[i] == '_' {
        scan_digits(s, i + 1)
    } else if 0 <= i < s.len() && spec_is_digit(s[i]) {
        let (j, _has) = scan_digits(s, i + 1);
        (j, true)
    } else {
        (i, false)
    }
}

pub proof fn lemma_scan_digits_bounds(s: Seq<char>, i: int)
    requires
        0 <= i <= s.len(),
    ensures
        i <= scan_digits(s, i).0 <= s.len(),
    decreases s.len() - i,
{
    if i < s.len() && (s[i] == '_' || spec_is_digit(s[i])) {
        lemma_scan_digits_bounds(s, i + 1);
    }
}

/// Position and has-digits flag after consuming hexadecimal digits and `_`
/// separators from `i`.
pub open spec fn scan_hex_digits(s: Seq<char>, i: int) -> (int, bool)
    decreases s.len() - i,
{
    if 0 <= i < s.len() && s[i] == '_' {
        scan_hex_digits(s, i + 1)
    } else if 0 <= i < s.len() && spec_is_hex_digit(s[i]) {
        let (j, _has) = scan_hex_digits(s, i + 1);
        (j, true)
    } else {
        (i, false)
    }
}

pub proof fn lemma_scan_hex_digits_bounds(s: Seq<char>, i: int)
    requires
        0 <= i <= s.len(),
    ensures
        i <= scan_hex_digits(s, i).0 <= s.len(),
    decreases s.len() - i,
{
    if i < s.len() && (s[i] == '_' || spec_is_hex_digit(s[i])) {
        lemma_scan_hex_digits_bounds(s, i + 1);
    }
}

/// Position and digits-seen flag of a float exponent starting at `i`: an
/// optional sign, then decimal digits.
pub open spec fn scan_float_exponent(s: Seq<char>, i: int) -> (int, bool) {
    if pk(s, i) == '-' || pk(s, i) == '+' {
        scan_digits(s, i + 1)
    } else {
        scan_digits(s, i)
    }
}

pub proof fn lemma_scan_float_exponent_bounds(s: Seq<char>, i: int)
    requires
        0 <= i <= s.len(),
    ensures
        i <= scan_float_exponent(s, i).0 <= s.len(),
{
    if pk(s, i) == '-' || pk(s, i) == '+' {
        lemma_scan_digits_bounds(s, i + 1);
    } else {
        lemma_scan_digits_bounds(s, i);
    }
}

/// Position after an identifier-shaped run at `i`: nothing unless an
/// identifier-start character stands there, else it and all
/// identifier-continue characters after it.  This consumes both literal
/// suffixes and the body of a raw identifier.
pub open spec fn scan_suffix(s: Seq<char>, i: int) -> int {
    if 0 <= i < s.len() && spec_is_id_start(s[i]) {
        scan_id_continue(s, i + 1)
    } else {
        i
    }
}

pub proof fn lemma_scan_suffix_bounds(s: Seq<char>, i: int)
    requires
        0 <= i <= s.len(),
    ensures
        i <= scan_suffix(s, i) <= s.len(),
{
    if i < s.len() && spec_is_id_start(s[i]) {
        lemma_scan_id_continue_bounds(s, i + 1);
    }
}

// ----------------------------------------------------------------------
// Executable leaf scanners.
// ----------------------------------------------------------------------
fn eat_while_not(text: &Vec<char>, i: usize, stop: char) -> (j: usize)
    requires
        i <= text@.len(),
    ensures
        i <= j <= text@.len(),
        j == scan_while_not(text@, i as int, stop),
{
    let mut k = i;
    while k < text.len() && text[k] != stop
        invariant
            i <= k <= text@.len(),
            scan_while_not(text@, i as int, stop) == scan_while_not(text@, k as int, stop),
        decreases text@.len() - k,
    {
        k = k + 1;
    }
    k
}

fn eat_whitespace(text: &Vec<char>, i: usize) -> (j: usize)
    requires
        i <= text@.len(),
    ensures
        i <= j <= text@.len(),
        j == scan_whitespace(text@, i as int),
{
    let mut k = i;
    while k < text.len() && is_whitespace(text[k])
        invariant
            i <= k <= text@.len(),
            scan_whitespace(text@, i as int) == scan_whitespace(text@, k as int),
        decreases text@.len() - k,
    {
        k = k + 1;
    }
    k
}

pub(crate) fn eat_id_continue(text: &Vec<char>, i: usize) -> (j: usize)
    requires
        i <= text@.len(),
    ensures
        i <= j <= text@.len(),
        j == scan_id_continue(text@, i as int),
{
    let mut k = i;
    while k < text.len() && is_id_continue(text[k])
        invariant
            i <= k <= text@.len(),
            scan_id_continue(text@, i as int) == scan_id_continue(text@, k as int),
        decreases text@.len() - k,
    {
        k = k + 1;
    }
    k
}

fn eat_hashes(text: &Vec<char>, i: usize) -> (j: usize)
    requires
        i <= text@.len(),
    ensures
        i <= j <= text@.len(),
        j == scan_hashes(text@, i as int),
{
    let mut k = i;
    while k < text.len() && text[k] == '#'
        invariant
            i <= k <= text@.len(),
            scan_hashes(text@, i as int) == scan_hashes(text@, k as int),
        decreases text@.len() - k,
    {
        k = k + 1;
    }
    k
}

fn eat_limited_hashes(text: &Vec<char>, i: usize, left: usize) -> (j: usize)
    requires
        i <= text@.len(),
    ensures
        i <= j <= text@.len(),
        j == scan_limited_hashes(text@, i as int, left as int),
        j - i <= left,
{
    let mut k = i;
    let mut l = left;
    while l > 0 && k < text.len() && text[k] == '#'
        invariant
            i <= k <= text@.len(),
            l <= left,
            k - i == left - l,
            scan_limited_hashes(text@, i as int, left as int) == scan_limited_hashes(
                text@,
                k as int,
                l as int,
            ),
        decreases text@.len() - k,
    {
        k = k + 1;
        l = l - 1;
    }
    k
}

fn eat_decimal_digits(text: &Vec<char>, i: usize) -> (r: (usize, bool))
    requires
        i <= text@.len(),
    ensures
        i <= r.0 <= text@.len(),
        (r.0 as int, r.1) == scan_digits(text@, i as int),
{
    let mut k = i;
    let mut has_digits = false;
    while k < text.len() && (text[k] == '_' || ('0' <= text[k] && text[k] <= '9'))
        invariant
            i <= k <= text@.len(),
            scan_digits(text@, i as int) == if has_digits {
                (scan_digits(text@, k as int).0, true)
            } else {
                scan_digits(text@, k as int)
            },
        decreases text@.len() - k,
    {
        if text[k] != '_' {
            has_digits = true;
        }
        k = k + 1;
    }
    (k, has_digits)
}

fn eat_hexadecimal_digits(text: &Vec<char>, i: usize) -> (r: (usize, bool))
    requires
        i <= text@.len(),
    ensures
        i <= r.0 <= text@.len(),
        (r.0 as int, r.1) == scan_hex_digits(text@, i as int),
{
    let mut k = i;
    let mut has_digits = false;
    while k < text.len() && (text[k] == '_' || ('0' <= text[k] && text[k] <= '9') || ('a' <= text[k]
        && text[k] <= 'f') || ('A' <= text[k] && text[k] <= 'F'))
        invariant
            i <= k <= text@.len(),
            scan_hex_digits(text@, i as int) == if has_digits {
                (scan_hex_digits(text@, k as int).0, true)
            } else {
                scan_hex_digits(text@, k as int)
            },
        decreases text@.len() - k,
    {
        if text[k] != '_' {
            has_digits = true;
        }
        k = k + 1;
    }
    (k, has_digits)
}

/// Consumes a float exponent: an optional sign, then decimal digits.
/// The flag reports whether at least one digit was met.
fn eat_float_exponent(text: &Vec<char>, i: usize) -> (r: (usize, bool))
    requires
        i <= text@.len(),
    ensures
        i <= r.0 <= text@.len(),
        (r.0 as int, r.1) == scan_float_exponent(text@, i as int),
{
    if i < text.len() && (text[i] == '-' || text[i] == '+') {
        eat_decimal_digits(text, i + 1)
    } else {
        eat_decimal_digits(text, i)
    }
}

/// Consumes an identifier-shaped run (a literal suffix such as `_u8`, or the
/// body of a raw identifier).
fn eat_identifier(text: &Vec<char>, i: usize) -> (j: usize)
    requires
        i <= text@.len(),
    ensures
        i <= j <= text@.len(),
        j == scan_suffix(text@, i as int),
{
    if i < text.len() && is_id_start(text[i]) {
        eat_id_continue(text, i + 1)
    } else {
        i
    }
}

// ----------------------------------------------------------------------
// Block comments, quoted strings, numbers.
// ----------------------------------------------------------------------
/// End position and termination flag of a block comment whose body starts at
/// `i` (just after `/*`) at nesting depth `depth`.  A nested `/*` increments
/// the depth, `*/` decrements it; the comment ends when the depth returns to
/// zero, and reaching the end of input first leaves it unterminated.
pub open spec fn scan_block_comment(s: Seq<char>, i: int, depth: int) -> (int, bool)
    decreases s.len() - i,
{
    if i < 0 || i >= s.len() {
        (i, false)
    } else if s[i] == '/' && pk(s, i + 1) == '*' {
        scan_block_comment(s, i + 2, depth + 1)
    } else if s[i] == '*' && pk(s, i + 1) == '/' {
        if depth == 1 {
            (i + 2, true)
        } else {
            scan_block_comment(s, i + 2, depth - 1)
        }
    } else {
        scan_block_comment(s, i + 1, depth)
    }
}

pub proof fn lemma_scan_block_comment_bounds(s: Seq<char>, i: int, depth: int)
    requires
        0 <= i <= s.len(),
    ensures
        i <= scan_block_comment(s, i, depth).0 <= s.len(),
    decreases s.len() - i,
{
    if i < s.len() {
        if s[i] == '/' && pk(s, i + 1) == '*' {
            lemma_scan_block_comment_bounds(s, i + 2, depth + 1);
        } else if s[i] == '*' && pk(s, i + 1) == '/' {
            if depth != 1 {
                lemma_scan_block_comment_bounds(s, i + 2, depth - 1);
            }
        } else {
            lemma_scan_block_comment_bounds(s, i + 1, depth);
        }
    }
}

/// End position and termination flag of a single-quoted literal body
/// starting at `i` (just after the opening `'`): the helper loop, entered
/// unless the two-character lookahead recognises a one-symbol literal.
pub open spec fn scan_single_quoted_loop(s: Seq<char>, i: int) -> (int, bool)
    decreases s.len() - i,
{
    if i < 0 || i >= s.len() {
        (i, false)
    } else if s[i] == '\'' {
        (i + 1, true)
    } else if s[i] == '/' {
        (i, false)
    } else if s[i] == '\n' && pk(s, i + 1) != '\'' {
        (i, false)
    } else if s[i] == '\\' {
        if i + 2 <= s.len() {
            scan_single_quoted_loop(s, i + 2)
        } else {
            scan_single_quoted_loop(s, s.len() as int)
        }
    } else {
        scan_single_quoted_loop(s, i + 1)
    }
}

/// End position and termination flag of a single-quoted literal body
/// starting at `i` (just after the opening `'`).
pub open spec fn scan_single_quoted(s: Seq<char>, i: int) -> (int, bool) {
    if pk(s, i + 1) == '\'' && pk(s, i) != '\\' {
        (i + 2, true)
    } else {
        scan_single_quoted_loop(s, i)
    }
}

pub proof fn lemma_scan_single_quoted_bounds(s: Seq<char>, i: int)
    requires
        0 <= i <= s.len(),
    ensures
        i <= scan_single_quoted(s, i).0 <= s.len(),
{
    lemma_scan_single_quoted_loop_bounds(s, i);
}

pub proof fn lemma_scan_single_quoted_loop_bounds(s: Seq<char>, i: int)
    requires
        0 <= i <= s.len(),
    ensures
        i <= scan_single_quoted_loop(s, i).0 <= s.len(),
    decreases s.len() - i,
{
    if i < s.len() && s[i] != '\'' && s[i] != '/' && !(s[i] == '\n' && pk(s, i + 1) != '\'') {
        if s[i] == '\\' {
            if i + 2 <= s.len() {
                lemma_scan_single_quoted_loop_bounds(s, i + 2);
            } else {
                lemma_scan_single_quoted_loop_bounds(s, s.len() as int);
            }
        } else {
            lemma_scan_single_quoted_loop_bounds(s, i + 1);
        }
    }
}

/// End position and termination flag of a double-quoted literal body
/// starting at `i` (just after the opening `"`).  `\\` and `\"` are
/// consumed as escaped pairs.
pub open spec fn scan_double_quoted(s: Seq<char>, i: int) -> (int, bool)
    decreases s.len() - i,
{
    if i < 0 || i >= s.len() {
        (i, false)
    } else if s[i] == '"' {
        (i + 1, true)
    } else if s[i] == '\\' && (pk(s, i + 1) == '\\' || pk(s, i + 1) == '"') {
        scan_double_quoted(s, i + 2)
    } else {
        scan_double_quoted(s, i + 1)
    }
}

pub proof fn lemma_scan_double_quoted_bounds(s: Seq<char>, i: int)
    requires
        0 <= i <= s.len(),
    ensures
        i <= scan_double_quoted(s, i).0 <= s.len(),
    decreases s.len() - i,
{
    if i < s.len() && s[i] != '"' {
        if s[i] == '\\' && (pk(s, i + 1) == '\\' || pk(s, i + 1) == '"') {
            lemma_scan_double_quoted_bounds(s, i + 2);
        } else {
            lemma_scan_double_quoted_bounds(s, i + 1);
        }
    }
}

/// The literal kind and end position of the rest of a numeric literal whose
/// integer part ends at `i`: a fractional part is taken only when the `.` is
/// not followed by another `.` or an identifier start, and an `e`/`E`
/// exponent may follow; an exponent without digits is flagged, not rejected.
pub open spec fn scan_number_tail(s: Seq<char>, i: int, base: NumericBase) -> (int, LiteralKind) {
    if pk(s, i) == '.' && pk(s, i + 1) != '.' && !spec_is_id_start(pk(s, i + 1)) {
        if spec_is_digit(pk(s, i + 1)) {
            let (j, _has) = scan_digits(s, i + 1);
            if pk(s, j) == 'e' || pk(s, j) == 'E' {
                let (k, has_exp) = scan_float_exponent(s, j + 1);
                (k, LiteralKind::Float { base, empty_exponent: !has_exp })
            } else {
                (j, LiteralKind::Float { base, empty_exponent: false })
            }
        } else {
            (i + 1, LiteralKind::Float { base, empty_exponent: false })
        }
    } else if pk(s, i) == 'e' || pk(s, i) == 'E' {
        let (k, has_exp) = scan_float_exponent(s, i + 1);
        (k, LiteralKind::Float { base, empty_exponent: !has_exp })
    } else {
        (i, LiteralKind::Int { base, empty_int: false })
    }
}

/// The literal kind and end position of a numeric literal whose first digit
/// `first_digit` stands just before `i`.  A leading `0` selects a base by
/// its following character; a base prefix with no digits after it is
/// flagged as an empty literal.
pub open spec fn scan_number(s: Seq<char>, i: int, first_digit: char) -> (int, LiteralKind) {
    if first_digit == '0' {
        let c = pk(s, i);
        if c == 'b' {
            let (j, got) = scan_digits(s, i + 1);
            if !got {
                (j, LiteralKind::Int { base: NumericBase::Binary, empty_int: true })
            } else {
                scan_number_tail(s, j, NumericBase::Binary)
            }
        } else if c == 'o' {
            let (j, got) = scan_digits(s, i + 1);
            if !got {
                (j, LiteralKind::Int { base: NumericBase::Octal, empty_int: true })
            } else {
                scan_number_tail(s, j, NumericBase::Octal)
            }
        } else if c == 'x' {
            let (j, got) = scan_hex_digits(s, i + 1);
            if !got {
                (j, LiteralKind::Int { base: NumericBase::Hexadecimal, empty_int: true })
            } else {
                scan_number_tail(s, j, NumericBase::Hexadecimal)
            }
        } else if spec_is_digit(c) || c == '_' || c == '.' || c == 'e' || c == 'E' {
            let (j, _has) = scan_digits(s, i);
            scan_number_tail(s, j, NumericBase::Decimal)
        } else {
            (i, LiteralKind::Int { base: NumericBase::Decimal, empty_int: false })
        }
    } else {
        let (j, _has) = scan_digits(s, i);
        scan_number_tail(s, j, NumericBase::Decimal)
    }
}

pub proof fn lemma_scan_number_tail_bounds(s: Seq<char>, i: int, base: NumericBase)
    requires
        0 <= i <= s.len(),
    ensures
        i <= scan_number_tail(s, i, base).0 <= s.len(),
{
    if pk(s, i) == '.' && pk(s, i + 1) != '.' && !spec_is_id_start(pk(s, i + 1)) {
        if spec_is_digit(pk(s, i + 1)) {
            lemma_scan_digits_bounds(s, i + 1);
            let (j, _has) = scan_digits(s, i + 1);
            if pk(s, j) == 'e' || pk(s, j) == 'E' {
                lemma_scan_float_exponent_bounds(s, j + 1);
            }
        }
    } else if pk(s, i) == 'e' || pk(s, i) == 'E' {
        lemma_scan_float_exponent_bounds(s, i + 1);
    }
}

pub proof fn lemma_scan_number_bounds(s: Seq<char>, i: int, first_digit: char)
    requires
        0 <= i <= s.len(),
    ensures
        i <= scan_number(s, i, first_digit).0 <= s.len(),
{
    if first_digit == '0' {
        let c = pk(s, i);
        if c == 'b' || c == 'o' {
            lemma_scan_digits_bounds(s, i + 1);
            let (j, _has) = scan_digits(s, i + 1);
            lemma_scan_number_tail_bounds(s, j, NumericBase::Binary);
            lemma_scan_number_tail_bounds(s, j, NumericBase::Octal);
        } else if c == 'x' {
            lemma_scan_hex_digits_bounds(s, i + 1);
            let (j, _has) = scan_hex_digits(s, i + 1);
            lemma_scan_number_tail_bounds(s, j, NumericBase::Hexadecimal);
        } else if spec_is_digit(c) || c == '_' || c == '.' || c == 'e' || c == 'E' {
            lemma_scan_digits_bounds(s, i);
            let (j, _has) = scan_digits(s, i);
            lemma_scan_number_tail_bounds(s, j, NumericBase::Decimal);
        }
    } else {
        lemma_scan_digits_bounds(s, i);
        let (j, _has) = scan_digits(s, i);
        lemma_scan_number_tail_bounds(s, j, NumericBase::Decimal);
    }
}

/// Lookahead without consuming: the character `n` positions past `i`, or
/// `EOF_CHAR` past the end of `text`.
fn peek_at(text: &Vec<char>, i: usize, n: usize) -> (c: char)
    requires
        i <= text@.len(),
    ensures
        c == pk(text@, i + n),
{
    if n < text.len() - i {
        text[i + n]
    } else {
        EOF_CHAR
    }
}

/// Consumes a block comment body from `i` (just after `/*`), tracking the
/// nesting depth.
fn block_comment_body(text: &Vec<char>, i: usize) -> (r: (usize, bool))
    requires
        i <= text@.len(),
    ensures
        i <= r.0 <= text@.len(),
        (r.0 as int, r.1) == scan_block_comment(text@, i as int, 1),
{
    proof {
        vstd::std_specs::vec::axiom_spec_len(text);
    }
    let mut k = i;
    let mut depth: usize = 1;
    loop
        invariant
            i <= k <= text@.len(),
            depth >= 1,
            2 * (depth - 1) <= k - i,
            scan_block_comment(text@, i as int, 1) == scan_block_comment(
                text@,
                k as int,
                depth as int,
            ),
        decreases text@.len() - k,
    {
        if k >= text.len() {
            return (k, false);
        }
        let c = text[k];
        if c == '/' && peek_at(text, k, 1) == '*' {
            k = k + 2;
            depth = depth + 1;
        } else if c == '*' && peek_at(text, k, 1) == '/' {
            if depth == 1 {
                return (k + 2, true);
            }
            k = k + 2;
            depth = depth - 1;
        } else {
            k = k + 1;
        }
    }
}

/// Consumes a single-quoted literal body from `i` (just after the opening
/// `'`); true means the closing quote was found.
fn single_quoted_string(text: &Vec<char>, i: usize) -> (r: (usize, bool))
    requires
        i <= text@.len(),
    ensures
        i <= r.0 <= text@.len(),
        (r.0 as int, r.1) == scan_single_quoted(text@, i as int),
{
    proof {
        vstd::std_specs::vec::axiom_spec_len(text);
    }
    // Check if it's a one-symbol literal.
    if peek_at(text, i, 1) == '\'' && peek_at(text, i, 0) != '\\' {
        proof {
            assert(i + 1 < text@.len());
        }
        return (i + 2, true);
    }
    // The literal has more than one symbol; parse until the quotes are
    // terminated or a problem is detected.
    let mut k = i;
    loop
        invariant
            i <= k <= text@.len(),
            scan_single_quoted(text@, i as int) == scan_single_quoted_loop(text@, k as int),
        decreases text@.len() - k,
    {
        if k >= text.len() {
            // End of file, stop parsing.
            return (k, false);
        }
        let c = text[k];
        if c == '\'' {
            // Quotes are terminated, finish parsing.
            return (k + 1, true);
        } else if c == '/' {
            // Probably the beginning of a comment, which we don't want to
            // include in an error report.
            return (k, false);
        } else if c == '\n' && peek_at(text, k, 1) != '\'' {
            // Newline without a following `'` means an unclosed quote.
            return (k, false);
        } else if c == '\\' {
            // An escaped character counts as one unit, so step twice.
            if text.len() - k >= 2 {
                k = k + 2;
            } else {
                k = text.len();
            }
        } else {
            k = k + 1;
        }
    }
}

/// Consumes a double-quoted literal body from `i` (just after the opening
/// `"`); true means the closing quote was found.
fn double_quoted_string(text: &Vec<char>, i: usize) -> (r: (usize, bool))
    requires
        i <= text@.len(),
    ensures
        i <= r.0 <= text@.len(),
        (r.0 as int, r.1) == scan_double_quoted(text@, i as int),
{
    proof {
        vstd::std_specs::vec::axiom_spec_len(text);
    }
    let mut k = i;
    loop
        invariant
            i <= k <= text@.len(),
            scan_double_quoted(text@, i as int) == scan_double_quoted(text@, k as int),
        decreases text@.len() - k,
    {
        if k >= text.len() {
            return (k, false);
        }
        let c = text[k];
        if c == '"' {
            return (k + 1, true);
        } else if c == '\\' && (peek_at(text, k, 1) == '\\' || peek_at(text, k, 1) == '"') {
            // Step again to skip the escaped character.
            k = k + 2;
        } else {
            k = k + 1;
        }
    }
}

/// Consumes a numeric literal from `i`, whose first digit stands just
/// before `i`.
fn number(text: &Vec<char>, i: usize, first_digit: char) -> (r: (usize, LiteralKind))
    requires
        1 <= i <= text@.len(),
    ensures
        i <= r.0 <= text@.len(),
        (r.0 as int, r.1) == scan_number(text@, i as int, first_digit),
{
    proof {
        vstd::std_specs::vec::axiom_spec_len(text);
    }
    if first_digit == '0' {
        // Attempt to parse an encoding base.
        let c = peek_at(text, i, 0);
        if c == 'b' {
            let (j, got) = eat_decimal_digits(text, i + 1);
            if !got {
                return (j, LiteralKind::Int { base: NumericBase::Binary, empty_int: true });
            }
            number_tail(text, j, NumericBase::Binary)
        } else if c == 'o' {
            let (j, got) = eat_decimal_digits(text, i + 1);
            if !got {
                return (j, LiteralKind::Int { base: NumericBase::Octal, empty_int: true });
            }
            number_tail(text, j, NumericBase::Octal)
        } else if c == 'x' {
            let (j, got) = eat_hexadecimal_digits(text, i + 1);
            if !got {
                return (j, LiteralKind::Int { base: NumericBase::Hexadecimal, empty_int: true });
            }
            number_tail(text, j, NumericBase::Hexadecimal)
        } else if ('0' <= c && c <= '9') || c == '_' || c == '.' || c == 'e' || c == 'E' {
            // Not a base prefix.
            let (j, _has) = eat_decimal_digits(text, i);
            number_tail(text, j, NumericBase::Decimal)
        } else {
            // Just a 0.
            (i, LiteralKind::Int { base: NumericBase::Decimal, empty_int: false })
        }
    } else {
        // No base prefix: parse the number in the usual way.
        let (j, _has) = eat_decimal_digits(text, i);
        number_tail(text, j, NumericBase::Decimal)
    }
}

/// Consumes the optional fractional part and exponent after the integer
/// part of a numeric literal.
fn number_tail(text: &Vec<char>, i: usize, base: NumericBase) -> (r: (usize, LiteralKind))
    requires
        i <= text@.len(),
    ensures
        i <= r.0 <= text@.len(),
        (r.0 as int, r.1) == scan_number_tail(text@, i as int, base),
{
    proof {
        vstd::std_specs::vec::axiom_spec_len(text);
    }
    let c = peek_at(text, i, 0);
    // Don't be greedy if this is actually an integer literal followed by a
    // field or method access or a range pattern (`0..2`, `12.foo()`).
    if c == '.' && peek_at(text, i, 1) != '.' && !is_id_start(peek_at(text, i, 1)) {
        // There may be a fractional part, and if so it has to start with a
        // digit.
        if i < text.len() && peek_at(text, i, 1) >= '0' && peek_at(text, i, 1) <= '9' {
            let (j, _has) = eat_decimal_digits(text, i + 1);
            let e = peek_at(text, j, 0);
            if e == 'e' || e == 'E' {
                let (k, has_exp) = eat_float_exponent(text, j + 1);
                (k, LiteralKind::Float { base, empty_exponent: !has_exp })
            } else {
                (j, LiteralKind::Float { base, empty_exponent: false })
            }
        } else {
            (i + 1, LiteralKind::Float { base, empty_exponent: false })
        }
    } else if c == 'e' || c == 'E' {
        let (k, has_exp) = eat_float_exponent(text, i + 1);
        (k, LiteralKind::Float { base, empty_exponent: !has_exp })
    } else {
        (i, LiteralKind::Int { base, empty_int: false })
    }
}

// ----------------------------------------------------------------------
// Raw string scanning.
// ----------------------------------------------------------------------
/// The terminator search of a raw-string scan, entered just after the
/// opening quote.  Repeatedly skips to a `"`, counts the `#` characters
/// after it up to `n_start`, and stops when their count matches
/// `n_start`; `max_hashes` and `pto` carry the best partial terminator
/// seen so far, as a hint for error reports.  `start` is the position where
/// the whole raw-string scan began and `prefix_len` the byte length of the
/// literal prefix before it; both only affect the reported byte offsets.
pub open spec fn scan_raw_loop(
    s: Seq<char>,
    i: int,
    start: int,
    n_start: int,
    max_hashes: int,
    pto: Option<usize>,
    prefix_len: int,
) -> (int, UnvalidatedRawStr)
    decreases s.len() - i,
    when 0 <= i <= s.len()
    via scan_raw_loop_decreases
{
    let j = scan_while_not(s, i, '"');
    if j >= s.len() {
        (
            j,
            UnvalidatedRawStr {
                valid_start: true,
                valid_end: false,
                n_start_hashes: n_start as usize,
                n_end_hashes: max_hashes as usize,
                possible_terminator_offset: pto,
            },
        )
    } else {
        let k = scan_limited_hashes(s, j + 1, n_start);
        let n_end = k - (j + 1);
        if n_end == n_start {
            (
                k,
                UnvalidatedRawStr {
                    valid_start: true,
                    valid_end: true,
                    n_start_hashes: n_start as usize,
                    n_end_hashes: n_end as usize,
                    possible_terminator_offset: None,
                },
            )
        } else if n_end > max_hashes {
            let new_pto = bytes_upto(s, k) - bytes_upto(s, start) - n_end + prefix_len;
            scan_raw_loop(s, k, start, n_start, n_end, Some(new_pto as usize), prefix_len)
        } else {
            scan_raw_loop(s, k, start, n_start, max_hashes, pto, prefix_len)
        }
    }
}

#[via_fn]
proof fn scan_raw_loop_decreases(
    s: Seq<char>,
    i: int,
    start: int,
    n_start: int,
    max_hashes: int,
    pto: Option<usize>,
    prefix_len: int,
) {
    if 0 <= i <= s.len() {
        lemma_scan_while_not_bounds(s, i, '"');
        let j = scan_while_not(s, i, '"');
        if j < s.len() {
            lemma_scan_limited_hashes_bounds(s, j + 1, n_start);
        }
    }
}

/// The raw-string scan from `i` (just after the `r`): counts the leading
/// `#`s, demands an opening quote, then searches for the matching
/// terminator.  The consumed span and a provisional `UnvalidatedRawStr`
/// result, whether or not the literal is well formed.
pub open spec fn scan_raw_string(s: Seq<char>, i: int, prefix_len: int) -> (int, UnvalidatedRawStr) {
    let h = scan_hashes(s, i);
    let n_start = h - i;
    if 0 <= h < s.len() && s[h] == '"' {
        scan_raw_loop(s, h + 1, i, n_start, 0, None, prefix_len)
    } else if 0 <= h < s.len() {
        // A character other than `"` follows the hashes; it is consumed.
        (
            h + 1,
            UnvalidatedRawStr {
                valid_start: false,
                valid_end: false,
                n_start_hashes: n_start as usize,
                n_end_hashes: 0,
                possible_terminator_offset: None,
            },
        )
    } else {
        (
            h,
            UnvalidatedRawStr {
                valid_start: false,
                valid_end: false,
                n_start_hashes: n_start as usize,
                n_end_hashes: 0,
                possible_terminator_offset: None,
            },
        )
    }
}

pub proof fn lemma_scan_raw_loop_bounds(
    s: Seq<char>,
    i: int,
    start: int,
    n_start: int,
    max_hashes: int,
    pto: Option<usize>,
    prefix_len: int,
)
    requires
        0 <= i <= s.len(),
    ensures
        i <= scan_raw_loop(s, i, start, n_start, max_hashes, pto, prefix_len).0 <= s.len(),
    decreases s.len() - i,
{
    lemma_scan_while_not_bounds(s, i, '"');
    let j = scan_while_not(s, i, '"');
    if j < s.len() {
        lemma_scan_limited_hashes_bounds(s, j + 1, n_start);
        let k = scan_limited_hashes(s, j + 1, n_start);
        let n_end = k - (j + 1);
        if n_end == n_start {
        } else if n_end > max_hashes {
            let new_pto = bytes_upto(s, k) - bytes_upto(s, start) - n_end + prefix_len;
            lemma_scan_raw_loop_bounds(s, k, start, n_start, n_end, Some(new_pto as usize),
                prefix_len);
        } else {
            lemma_scan_raw_loop_bounds(s, k, start, n_start, max_hashes, pto, prefix_len);
        }
    }
}

pub proof fn lemma_scan_raw_string_bounds(s: Seq<char>, i: int, prefix_len: int)
    requires
        0 <= i <= s.len(),
    ensures
        i <= scan_raw_string(s, i, prefix_len).0 <= s.len(),
{
    lemma_scan_hashes_bounds(s, i);
    let h = scan_hashes(s, i);
    if h < s.len() && s[h] == '"' {
        lemma_scan_raw_loop_bounds(s, h + 1, i, h - i, 0, None, prefix_len);
    }
}

/// Consumes a raw-string body from `i` (just after the `r`).  `prefix_len`
/// is the byte length of the already-consumed literal prefix (`r` or `br`),
/// which only affects the reported terminator-offset hint.
fn raw_string_scan(text: &Vec<char>, i: usize, prefix_len: usize) -> (r: (usize, UnvalidatedRawStr))
    requires
        i <= text@.len(),
        text_bytes(text@) <= usize::MAX,
        prefix_len <= bytes_upto(text@, i as int),
    ensures
        i <= r.0 <= text@.len(),
        (r.0 as int, r.1) == scan_raw_string(text@, i as int, prefix_len as int),
{
    proof {
        vstd::std_specs::vec::axiom_spec_len(text);
    }
    // Count the opening `#` symbols.
    let h = eat_hashes(text, i);
    let n_start = h - i;
    // Check that the string is started.
    if h < text.len() && text[h] == '"' {
        // Skip the string contents; on each `"` met, check whether this is
        // the raw string's termination.
        let mut k = h + 1;
        let mut max_hashes: usize = 0;
        let mut pto: Option<usize> = None;
        loop
            invariant
                i <= h < text@.len(),
                h == scan_hashes(text@, i as int),
                text@[h as int] == '"',
                h + 1 <= k <= text@.len(),
                n_start == h - i,
                max_hashes <= n_start,
                text_bytes(text@) <= usize::MAX,
                prefix_len <= bytes_upto(text@, i as int),
                scan_raw_loop(
                    text@,
                    h + 1,
                    i as int,
                    n_start as int,
                    0,
                    None,
                    prefix_len as int,
                ) == scan_raw_loop(
                    text@,
                    k as int,
                    i as int,
                    n_start as int,
                    max_hashes as int,
                    pto,
                    prefix_len as int,
                ),
            decreases text@.len() - k,
        {
            let j = eat_while_not(text, k, '"');
            if j >= text.len() {
                return (
                    j,
                    UnvalidatedRawStr {
                        valid_start: true,
                        valid_end: false,
                        n_start_hashes: n_start,
                        n_end_hashes: max_hashes,
                        possible_terminator_offset: pto,
                    },
                );
            }
            // Eat the closing double quote, then check that the amount of
            // closing `#` symbols is equal to the amount of opening ones.
            let kk = eat_limited_hashes(text, j + 1, n_start);
            let n_end = kk - (j + 1);
            if n_end == n_start {
                return (
                    kk,
                    UnvalidatedRawStr {
                        valid_start: true,
                        valid_end: true,
                        n_start_hashes: n_start,
                        n_end_hashes: n_end,
                        possible_terminator_offset: None,
                    },
                );
            } else if n_end > max_hashes {
                // Keep track of possible terminators, to give a hint about
                // where there might be a missing terminator.
                let bk = prefix_bytes(text, kk);
                let bs = prefix_bytes(text, i);
                proof {
                    lemma_bytes_upto_mono(text@, i as int, kk as int);
                    lemma_bytes_upto_mono(text@, kk as int, text@.len() as int);
                }
                let p = bk - bs - n_end + prefix_len;
                pto = Some(p);
                max_hashes = n_end;
                k = kk;
            } else {
                k = kk;
            }
        }
    } else if h < text.len() {
        // The next character is consumed even though it is not a quote.
        (
            h + 1,
            UnvalidatedRawStr {
                valid_start: false,
                valid_end: false,
                n_start_hashes: n_start,
                n_end_hashes: 0,
                possible_terminator_offset: None,
            },
        )
    } else {
        (
            h,
            UnvalidatedRawStr {
                valid_start: false,
                valid_end: false,
                n_start_hashes: n_start,
                n_end_hashes: 0,
                possible_terminator_offset: None,
            },
        )
    }
}

impl Cursor {
    /// Consumes a raw-string body (hashes, quote, contents, terminator) and
    /// returns the provisional scan result.  `prefix_len` is the byte length
    /// of the literal prefix already consumed before the call.
    pub fn raw_double_quoted_string(&mut self, prefix_len: usize) -> (u: UnvalidatedRawStr)
        requires
            old(self).wf(),
            prefix_len <= bytes_upto(old(self).text@, old(self).pos as int),
        ensures
            final(self).wf(),
            final(self).text@ == old(self).text@,
            u == scan_raw_string(old(self).text@, old(self).pos as int, prefix_len as int).1,
            final(self).pos == scan_raw_string(
                old(self).text@,
                old(self).pos as int,
                prefix_len as int,
            ).0,
    {
        let (end, u) = raw_string_scan(&self.text, self.pos, prefix_len);
        let b = prefix_bytes(&self.text, end);
        self.pos = end;
        self.consumed_bytes = b;
        u
    }
}

// ----------------------------------------------------------------------
// Lifetimes and character literals.
// ----------------------------------------------------------------------
/// The token after a leading `'` at position `i - 1`: a character literal
/// when the next characters cannot be a lifetime; otherwise a tentative
/// lifetime scan that is reclassified as a character literal only when a
/// closing `'` immediately follows the scanned name.
pub open spec fn scan_lifetime_or_char(s: Seq<char>, i: int) -> (TokenKind, int) {
    let can_be_lifetime = if pk(s, i + 1) == '\'' {
        // It's surely not a lifetime.
        false
    } else {
        // If the first symbol is valid for an identifier, it can be a
        // lifetime.  Also a digit can, for better error reporting of
        // invalid lifetimes such as `'0`.
        spec_is_id_start(pk(s, i)) || spec_is_digit(pk(s, i))
    };
    if !can_be_lifetime {
        let (j, terminated) = scan_single_quoted(s, i);
        let end = if terminated {
            scan_suffix(s, j)
        } else {
            j
        };
        (
            TokenKind::Literal {
                kind: LiteralKind::Char { terminated },
                suffix_start: bytes_upto(s, j) as usize,
            },
            end,
        )
    } else {
        let starts_with_number = spec_is_digit(pk(s, i));
        // The first symbol is skipped without checks: it may be a digit,
        // which is not a valid identifier start.
        let j = scan_id_continue(s, i + 1);
        if pk(s, j) == '\'' {
            // A closing single quote follows the scanned contents: the
            // writer attempted a string with single quotes.
            (
                TokenKind::Literal {
                    kind: LiteralKind::Char { terminated: true },
                    suffix_start: bytes_upto(s, j + 1) as usize,
                },
                j + 1,
            )
        } else {
            (TokenKind::Lifetime { starts_with_number }, j)
        }
    }
}

pub proof fn lemma_scan_lifetime_or_char_bounds(s: Seq<char>, i: int)
    requires
        0 <= i <= s.len(),
    ensures
        i <= scan_lifetime_or_char(s, i).1 <= s.len(),
{
    lemma_scan_single_quoted_bounds(s, i);
    let (j, terminated) = scan_single_quoted(s, i);
    if terminated {
        lemma_scan_suffix_bounds(s, j);
    }
    if i + 1 <= s.len() {
        lemma_scan_id_continue_bounds(s, i + 1);
    }
}

/// Consumes a lifetime or a character literal from `i` (just after the
/// opening `'`).
fn lifetime_or_char(text: &Vec<char>, i: usize) -> (r: (TokenKind, usize))
    requires
        i <= text@.len(),
        text_bytes(text@) <= usize::MAX,
    ensures
        (r.0, r.1 as int) == scan_lifetime_or_char(text@, i as int),
        i <= r.1 <= text@.len(),
    {
    proof {
        vstd::std_specs::vec::axiom_spec_len(text);
    }
    let can_be_lifetime = if peek_at(text, i, 1) == '\'' {
        false
    } else {
        is_id_start(peek_at(text, i, 0)) || (peek_at(text, i, 0) >= '0' && peek_at(text, i, 0)
            <= '9')
    };
    if !can_be_lifetime {
        let (j, terminated) = single_quoted_string(text, i);
        let suffix_start = prefix_bytes(text, j);
        proof {
            lemma_bytes_upto_mono(text@, j as int, text@.len() as int);
        }
        let end = if terminated {
            eat_identifier(text, j)
        } else {
            j
        };
        (
            TokenKind::Literal {
                kind: LiteralKind::Char { terminated },
                suffix_start,
            },
            end,
        )
    } else {
        let starts_with_number = peek_at(text, i, 0) >= '0' && peek_at(text, i, 0) <= '9';
        proof {
            assert(i < text@.len());
        }
        let j = eat_id_continue(text, i + 1);
        if peek_at(text, j, 0) == '\'' {
            let suffix_start = prefix_bytes(text, j + 1);
            proof {
                lemma_bytes_upto_mono(text@, j + 1, text@.len() as int);
            }
            (
                TokenKind::Literal {
                    kind: LiteralKind::Char { terminated: true },
                    suffix_start,
                },
                j + 1,
            )
        } else {
            (TokenKind::Lifetime { starts_with_number }, j)
        }
    }
}

// ----------------------------------------------------------------------
// The dispatcher: one token from the front of the text.
// ----------------------------------------------------------------------
/// The kind and end position of the first token of `s`.  Dispatch is by the
/// leading character; every literal branch then consumes a trailing
/// identifier-shaped suffix when its body is terminated.
pub open spec fn scan_token(s: Seq<char>) -> (TokenKind, int)
    recommends
        s.len() > 0,
{
    let c = s[0];
    if c == '/' {
        if pk(s, 1) == '/' {
            (TokenKind::LineComment, scan_while_not(s, 2, '\n'))
        } else if pk(s, 1) == '*' {
            let (e, term) = scan_block_comment(s, 2, 1);
            (TokenKind::BlockComment { terminated: term }, e)
        } else {
            (TokenKind::Slash, 1)
        }
    } else if spec_is_whitespace(c) {
        (TokenKind::Whitespace, scan_whitespace(s, 1))
    } else if c == 'r' {
        if pk(s, 1) == '#' && spec_is_id_start(pk(s, 2)) {
            (TokenKind::RawIdent, scan_suffix(s, 2))
        } else if pk(s, 1) == '#' || pk(s, 1) == '"' {
            let (e0, u) = scan_raw_string(s, 1, 1);
            let end = if u.n_end_hashes == u.n_start_hashes {
                scan_suffix(s, e0)
            } else {
                e0
            };
            (
                TokenKind::Literal {
                    kind: LiteralKind::RawStr(u),
                    suffix_start: bytes_upto(s, e0) as usize,
                },
                end,
            )
        } else {
            (TokenKind::Ident, scan_id_continue(s, 1))
        }
    } else if c == 'b' {
        if pk(s, 1) == '\'' {
            let (j, term) = scan_single_quoted(s, 2);
            let end = if term {
                scan_suffix(s, j)
            } else {
                j
            };
            (
                TokenKind::Literal {
                    kind: LiteralKind::Byte { terminated: term },
                    suffix_start: bytes_upto(s, j) as usize,
                },
                end,
            )
        } else if pk(s, 1) == '"' {
            let (j, term) = scan_double_quoted(s, 2);
            let end = if term {
                scan_suffix(s, j)
            } else {
                j
            };
            (
                TokenKind::Literal {
                    kind: LiteralKind::ByteStr { terminated: term },
                    suffix_start: bytes_upto(s, j) as usize,
                },
                end,
            )
        } else if pk(s, 1) == 'r' && (pk(s, 2) == '"' || pk(s, 2) == '#') {
            let (e0, u) = scan_raw_string(s, 2, 2);
            let end = if u.n_start_hashes == u.n_end_hashes {
                scan_suffix(s, e0)
            } else {
                e0
            };
            (
                TokenKind::Literal {
                    kind: LiteralKind::RawByteStr(u),
                    suffix_start: bytes_upto(s, e0) as usize,
                },
                end,
            )
        } else {
            (TokenKind::Ident, scan_id_continue(s, 1))
        }
    } else if spec_is_id_start(c) {
        (TokenKind::Ident, scan_id_continue(s, 1))
    } else if spec_is_digit(c) {
        let (j, kind) = scan_number(s, 1, c);
        (
            TokenKind::Literal { kind, suffix_start: bytes_upto(s, j) as usize },
            scan_suffix(s, j),
        )
    } else if c == ';' {
        (TokenKind::Semi, 1)
    } else if c == ',' {
        (TokenKind::Comma, 1)
    } else if c == '.' {
        (TokenKind::Dot, 1)
    } else if c == '(' {
        (TokenKind::OpenParen, 1)
    } else if c == ')' {
        (TokenKind::CloseParen, 1)
    } else if c == '{' {
        (TokenKind::OpenBrace, 1)
    } else if c == '}' {
        (TokenKind::CloseBrace, 1)
    } else if c == '[' {
        (TokenKind::OpenBracket, 1)
    } else if c == ']' {
        (TokenKind::CloseBracket, 1)
    } else if c == '@' {
        (TokenKind::At, 1)
    } else if c == '#' {
        (TokenKind::Pound, 1)
    } else if c == '~' {
        (TokenKind::Tilde, 1)
    } else if c == '?' {
        (TokenKind::Question, 1)
    } else if c == ':' {
        (TokenKind::Colon, 1)
    } else if c == '$' {
        (TokenKind::Dollar, 1)
    } else if c == '=' {
        (TokenKind::Eq, 1)
    } else if c == '!' {
        (TokenKind::Not, 1)
    } else if c == '<' {
        (TokenKind::Lt, 1)
    } else if c == '>' {
        (TokenKind::Gt, 1)
    } else if c == '-' {
        (TokenKind::Minus, 1)
    } else if c == '&' {
        (TokenKind::And, 1)
    } else if c == '|' {
        (TokenKind::Or, 1)
    } else if c == '+' {
        (TokenKind::Plus, 1)
    } else if c == '*' {
        (TokenKind::Star, 1)
    } else if c == '^' {
        (TokenKind::Caret, 1)
    } else if c == '%' {
        (TokenKind::Percent, 1)
    } else if c == '\'' {
        scan_lifetime_or_char(s, 1)
    } else if c == '"' {
        let (j, term) = scan_double_quoted(s, 1);
        let end = if term {
            scan_suffix(s, j)
        } else {
            j
        };
        (
            TokenKind::Literal {
                kind: LiteralKind::Str { terminated: term },
                suffix_start: bytes_upto(s, j) as usize,
            },
            end,
        )
    } else {
        (TokenKind::Unknown, 1)
    }
}

/// The first token of `s` and its end position.  The token's length is the
/// UTF-8 byte length of the consumed characters.
pub open spec fn spec_first_token(s: Seq<char>) -> (Token, int)
    recommends
        s.len() > 0,
{
    let (kind, end) = scan_token(s);
    (Token { kind, len: bytes_upto(s, end) as usize }, end)
}

/// The first token always consumes at least one character and never more
/// than the text.
pub proof fn lemma_scan_token_bounds(s: Seq<char>)
    requires
        s.len() > 0,
    ensures
        1 <= scan_token(s).1 <= s.len(),
{
    let c = s[0];
    if c == '/' {
        if pk(s, 1) == '/' {
            lemma_scan_while_not_bounds(s, 2, '\n');
        } else if pk(s, 1) == '*' {
            lemma_scan_block_comment_bounds(s, 2, 1);
        }
    } else if spec_is_whitespace(c) {
        lemma_scan_whitespace_bounds(s, 1);
    } else if c == 'r' {
        if pk(s, 1) == '#' && spec_is_id_start(pk(s, 2)) {
            lemma_scan_suffix_bounds(s, 2);
        } else if pk(s, 1) == '#' || pk(s, 1) == '"' {
            lemma_scan_raw_string_bounds(s, 1, 1);
            let (e0, u) = scan_raw_string(s, 1, 1);
            lemma_scan_suffix_bounds(s, e0);
        } else {
            lemma_scan_id_continue_bounds(s, 1);
        }
    } else if c == 'b' {
        if pk(s, 1) == '\'' {
            lemma_scan_single_quoted_bounds(s, 2);
            let (j, term) = scan_single_quoted(s, 2);
            lemma_scan_suffix_bounds(s, j);
        } else if pk(s, 1) == '"' {
            lemma_scan_double_quoted_bounds(s, 2);
            let (j, term) = scan_double_quoted(s, 2);
            lemma_scan_suffix_bounds(s, j);
        } else if pk(s, 1) == 'r' && (pk(s, 2) == '"' || pk(s, 2) == '#') {
            lemma_scan_raw_string_bounds(s, 2, 2);
            let (e0, u) = scan_raw_string(s, 2, 2);
            lemma_scan_suffix_bounds(s, e0);
        } else {
            lemma_scan_id_continue_bounds(s, 1);
        }
    } else if spec_is_id_start(c) {
        lemma_scan_id_continue_bounds(s, 1);
    } else if spec_is_digit(c) {
        lemma_scan_number_bounds(s, 1, c);
        let (j, kind) = scan_number(s, 1, c);
        lemma_scan_suffix_bounds(s, j);
    } else if c == '\'' {
        lemma_scan_lifetime_or_char_bounds(s, 1);
    } else if c == '"' {
        lemma_scan_double_quoted_bounds(s, 1);
        let (j, term) = scan_double_quoted(s, 1);
        lemma_scan_suffix_bounds(s, j);
    }
}

/// Classifies the first token of `text` and reports the number of
/// characters it spans.
fn first_token_chars(text: &Vec<char>) -> (r: (Token, usize))
    requires
        text@.len() > 0,
        text_bytes(text@) <= usize::MAX,
    ensures
        r.0 == spec_first_token(text@).0,
        r.1 as int == spec_first_token(text@).1,
        1 <= r.1 <= text@.len(),
{
    proof {
        vstd::std_specs::vec::axiom_spec_len(text);
        lemma_scan_token_bounds(text@);
    }
    let c = text[0];
    let (kind, end): (TokenKind, usize) = if c == '/' {
        if peek_at(text, 0, 1) == '/' {
            (TokenKind::LineComment, eat_while_not(text, 2, '\n'))
        } else if peek_at(text, 0, 1) == '*' {
            let (e, term) = block_comment_body(text, 2);
            (TokenKind::BlockComment { terminated: term }, e)
        } else {
            (TokenKind::Slash, 1)
        }
    } else if is_whitespace(c) {
        (TokenKind::Whitespace, eat_whitespace(text, 1))
    } else if c == 'r' {
        if peek_at(text, 0, 1) == '#' && is_id_start(peek_at(text, 0, 2)) {
            (TokenKind::RawIdent, eat_identifier(text, 2))
        } else if peek_at(text, 0, 1) == '#' || peek_at(text, 0, 1) == '"' {
            proof {
                reveal_with_fuel(bytes_upto, 2);
                assert(bytes_upto(text@, 1) == char_bytes(text@[0]));
                assert(char_bytes('r') == 1);
            }
            let (e0, u) = raw_string_scan(text, 1, 1);
            let suffix_start = prefix_bytes(text, e0);
            proof {
                lemma_bytes_upto_mono(text@, e0 as int, text@.len() as int);
            }
            let end = if u.n_end_hashes == u.n_start_hashes {
                eat_identifier(text, e0)
            } else {
                e0
            };
            (TokenKind::Literal { kind: LiteralKind::RawStr(u), suffix_start }, end)
        } else {
            (TokenKind::Ident, eat_id_continue(text, 1))
        }
    } else if c == 'b' {
        if peek_at(text, 0, 1) == '\'' {
            let (j, term) = single_quoted_string(text, 2);
            let suffix_start = prefix_bytes(text, j);
            proof {
                lemma_bytes_upto_mono(text@, j as int, text@.len() as int);
            }
            let end = if term {
                eat_identifier(text, j)
            } else {
                j
            };
            (TokenKind::Literal { kind: LiteralKind::Byte { terminated: term }, suffix_start }, end)
        } else if peek_at(text, 0, 1) == '"' {
            let (j, term) = double_quoted_string(text, 2);
            let suffix_start = prefix_bytes(text, j);
            proof {
                lemma_bytes_upto_mono(text@, j as int, text@.len() as int);
            }
            let end = if term {
                eat_identifier(text, j)
            } else {
                j
            };
            (
                TokenKind::Literal { kind: LiteralKind::ByteStr { terminated: term }, suffix_start },
                end,
            )
        } else if peek_at(text, 0, 1) == 'r' && (peek_at(text, 0, 2) == '"' || peek_at(text, 0, 2)
            == '#') {
            proof {
                reveal_with_fuel(bytes_upto, 3);
                assert(text@.len() >= 2);
                assert(bytes_upto(text@, 2) == char_bytes(text@[0]) + char_bytes(text@[1]));
                assert(char_bytes('b') == 1 && char_bytes('r') == 1);
            }
            let (e0, u) = raw_string_scan(text, 2, 2);
            let suffix_start = prefix_bytes(text, e0);
            proof {
                lemma_bytes_upto_mono(text@, e0 as int, text@.len() as int);
            }
            let end = if u.n_start_hashes == u.n_end_hashes {
                eat_identifier(text, e0)
            } else {
                e0
            };
            (TokenKind::Literal { kind: LiteralKind::RawByteStr(u), suffix_start }, end)
        } else {
            (TokenKind::Ident, eat_id_continue(text, 1))
        }
    } else if is_id_start(c) {
        (TokenKind::Ident, eat_id_continue(text, 1))
    } else if c >= '0' && c <= '9' {
        let (j, kind) = number(text, 1, c);
        let suffix_start = prefix_bytes(text, j);
        proof {
            lemma_bytes_upto_mono(text@, j as int, text@.len() as int);
        }
        (TokenKind::Literal { kind, suffix_start }, eat_identifier(text, j))
    } else if c == ';' {
        (TokenKind::Semi, 1)
    } else if c == ',' {
        (TokenKind::Comma, 1)
    } else if c == '.' {
        (TokenKind::Dot, 1)
    } else if c == '(' {
        (TokenKind::OpenParen, 1)
    } else if c == ')' {
        (TokenKind::CloseParen, 1)
    } else if c == '{' {
        (TokenKind::OpenBrace, 1)
    } else if c == '}' {
        (TokenKind::CloseBrace, 1)
    } else if c == '[' {
        (TokenKind::OpenBracket, 1)
    } else if c == ']' {
        (TokenKind::CloseBracket, 1)
    } else if c == '@' {
        (TokenKind::At, 1)
    } else if c == '#' {
        (TokenKind::Pound, 1)
    } else if c == '~' {
        (TokenKind::Tilde, 1)
    } else if c == '?' {
        (TokenKind::Question, 1)
    } else if c == ':' {
        (TokenKind::Colon, 1)
    } else if c == '$' {
        (TokenKind::Dollar, 1)
    } else if c == '=' {
        (TokenKind::Eq, 1)
    } else if c == '!' {
        (TokenKind::Not, 1)
    } else if c == '<' {
        (TokenKind::Lt, 1)
    } else if c == '>' {
        (TokenKind::Gt, 1)
    } else if c == '-' {
        (TokenKind::Minus, 1)
    } else if c == '&' {
        (TokenKind::And, 1)
    } else if c == '|' {
        (TokenKind::Or, 1)
    } else if c == '+' {
        (TokenKind::Plus, 1)
    } else if c == '*' {
        (TokenKind::Star, 1)
    } else if c == '^' {
        (TokenKind::Caret, 1)
    } else if c == '%' {
        (TokenKind::Percent, 1)
    } else if c == '\'' {
        lifetime_or_char(text, 1)
    } else if c == '"' {
        let (j, term) = double_quoted_string(text, 1);
        let suffix_start = prefix_bytes(text, j);
        proof {
            lemma_bytes_upto_mono(text@, j as int, text@.len() as int);
        }
        let end = if term {
            eat_identifier(text, j)
        } else {
            j
        };
        (TokenKind::Literal { kind: LiteralKind::Str { terminated: term }, suffix_start }, end)
    } else {
        (TokenKind::Unknown, 1)
    };
    let len = prefix_bytes(text, end);
    proof {
        lemma_bytes_upto_mono(text@, end as int, text@.len() as int);
    }
    (Token::new(kind, len), end)
}

/// Parses the first token from the provided input string.
pub fn first_token(input: &str) -> (t: Token)
    requires
        input@.len() > 0,
    ensures
        t == spec_first_token(input@).0,
{
    let text = str_to_chars(input);
    let (t, _end) = first_token_chars(&text);
    t
}

/// The token sequence that exactly covers `s`: the first token, then the
/// tokens of the rest.  (The guard on the step is never taken; it only
/// makes the recursion manifestly well founded.)
pub open spec fn spec_tokenize(s: Seq<char>) -> Seq<Token>
    decreases s.len(),
{
    if s.len() == 0 {
        Seq::<Token>::empty()
    } else {
        let (t, end) = spec_first_token(s);
        let step = if 1 <= end <= s.len() {
            end
        } else {
            1
        };
        seq![t] + spec_tokenize(s.skip(step))
    }
}

/// Splits the whole input into its token sequence.
pub fn tokenize(input: &str) -> (r: Vec<Token>)
    ensures
        r@ == spec_tokenize(input@),
{
    let text = str_to_chars(input);
    let mut out: Vec<Token> = Vec::new();
    let mut start: usize = 0;
    proof {
        assert(text@.skip(0) =~= text@);
        assert(out@ + spec_tokenize(text@) =~= spec_tokenize(text@));
    }
    while start < text.len()
        invariant
            start <= text@.len(),
            text@ == input@,
            text_bytes(text@) <= usize::MAX,
            spec_tokenize(text@) == out@ + spec_tokenize(text@.skip(start as int)),
        decreases text@.len() - start,
    {
        let suffix = chars_from(&text, start);
        proof {
            lemma_bytes_upto_skip(text@, start as int, text@.len() - start);
            crate::text::lemma_bytes_upto_bounds(text@, start as int);
            assert(text_bytes(suffix@) <= usize::MAX);
        }
        let (t, consumed) = first_token_chars(&suffix);
        let ghost prev_out = out@;
        out.push(t);
        proof {
            lemma_scan_token_bounds(suffix@);
            assert(suffix@.skip(consumed as int) =~= text@.skip(start + consumed));
            assert(spec_tokenize(suffix@) == seq![t] + spec_tokenize(text@.skip(start + consumed)));
            assert(out@ =~= prev_out + seq![t]);
            assert((prev_out + seq![t]) + spec_tokenize(text@.skip(start + consumed)) =~= prev_out
                + (seq![t] + spec_tokenize(text@.skip(start + consumed))));
        }
        start = start + consumed;
    }
    proof {
        assert(text@.skip(start as int) =~= Seq::<char>::empty());
        assert(spec_tokenize(text@.skip(start as int)) =~= Seq::<Token>::empty());
        assert(out@ =~= out@ + Seq::<Token>::empty());
    }
    out
}

/// The byte length of a leading shebang line (`#!...`), which is not part
/// of the language's own syntax: the line up to but excluding its newline.
/// A text that instead begins with `#![` opens an attribute, and no length
/// is reported.
pub open spec fn spec_strip_shebang(s: Seq<char>) -> Option<usize> {
    if s.len() >= 2 && s[0] == '#' && s[1] == '!' && !(s.len() >= 3 && s[2] == '[') {
        Some(bytes_upto(s, scan_while_not(s, 0, '\n')) as usize)
    } else {
        None
    }
}

/// Skips a leading shebang line (`#!...`), returning its byte length, but
/// not when the text begins with `#![`: that is an attribute, a valid
/// construct of the language.
pub fn strip_shebang(input: &str) -> (r: Option<usize>)
    ensures
        r == spec_strip_shebang(input@),
{
    let text = str_to_chars(input);
    if text.len() >= 2 && text[0] == '#' && text[1] == '!' && !(text.len() >= 3 && text[2] == '[') {
        let j = eat_while_not(&text, 0, '\n');
        let b = prefix_bytes(&text, j);
        proof {
            lemma_bytes_upto_mono(text@, j as int, text@.len() as int);
        }
        Some(b)
    } else {
        None
    }
}

// ----------------------------------------------------------------------
// Laws of the scan.
// ----------------------------------------------------------------------
proof fn lemma_scan_raw_loop_hashes(
    s: Seq<char>,
    i: int,
    start: int,
    n_start: int,
    max_hashes: int,
    pto: Option<usize>,
    prefix_len: int,
)
    requires
        0 <= i <= s.len(),
        0 <= max_hashes <= n_start <= usize::MAX,
    ensures
        ({
            let (e, u) = scan_raw_loop(s, i, start, n_start, max_hashes, pto, prefix_len);
            u.n_start_hashes == n_start as usize && u.n_end_hashes <= u.n_start_hashes
        }),
    decreases s.len() - i,
{
    lemma_scan_while_not_bounds(s, i, '"');
    let j = scan_while_not(s, i, '"');
    if j < s.len() {
        lemma_scan_limited_hashes_bounds(s, j + 1, n_start);
        let k = scan_limited_hashes(s, j + 1, n_start);
        let n_end = k - (j + 1);
        if n_end == n_start {
        } else if n_end > max_hashes {
            let new_pto = bytes_upto(s, k) - bytes_upto(s, start) - n_end + prefix_len;
            lemma_scan_raw_loop_hashes(s, k, start, n_start, n_end, Some(new_pto as usize),
                prefix_len);
        } else {
            lemma_scan_raw_loop_hashes(s, k, start, n_start, max_hashes, pto, prefix_len);
        }
    }
}

/// Law: a raw-string scan never reports more closing hashes than opening
/// ones, and validating its result succeeds exactly when the scan found a
/// well-formed prefix and postfix with equal hash counts that fit in 16
/// bits.
pub proof fn lemma_raw_scan_validates(s: Seq<char>, i: int, prefix_len: int)
    requires
        0 <= i <= s.len(),
        s.len() <= usize::MAX,
    ensures
        ({
            let u = scan_raw_string(s, i, prefix_len).1;
            &&& u.n_end_hashes <= u.n_start_hashes
            &&& (crate::literal_kind::spec_validate(u) is Ok <==> (u.valid_start && u.valid_end
                && u.n_start_hashes == u.n_end_hashes && u.n_start_hashes <= 65535))
        }),
{
    lemma_scan_hashes_bounds(s, i);
    let h = scan_hashes(s, i);
    if h < s.len() && s[h] == '"' {
        lemma_scan_raw_loop_hashes(s, h + 1, i, h - i, 0, None, prefix_len);
    }
}

/// The total byte length claimed by a token sequence.
pub open spec fn tokens_len_sum(toks: Seq<Token>) -> int
    decreases toks.len(),
{
    if toks.len() == 0 {
        0
    } else {
        toks[0].len + tokens_len_sum(toks.drop_first())
    }
}

/// Law: concatenating the lengths of `tokenize(text)` in order reconstructs
/// the byte length of `text` exactly — the length of its UTF-8 encoding,
/// which is what `str::len` reports — with no gap or overlap.
pub proof fn lemma_tokenize_covers(s: Seq<char>)
    requires
        text_bytes(s) <= usize::MAX,
    ensures
        tokens_len_sum(spec_tokenize(s)) == text_bytes(s),
        tokens_len_sum(spec_tokenize(s)) == vstd::utf8::encode_utf8(s).len(),
    decreases s.len(),
{
    crate::text::lemma_text_bytes_is_utf8_len(s);
    if s.len() == 0 {
    } else {
        lemma_scan_token_bounds(s);
        let (t, end) = spec_first_token(s);
        crate::text::lemma_bytes_upto_bounds(s, end);
        lemma_bytes_upto_mono(s, end, s.len() as int);
        lemma_bytes_upto_skip(s, end, s.len() - end);
        lemma_tokenize_covers(s.skip(end));
        let rest = spec_tokenize(s.skip(end));
        assert((seq![t] + rest).drop_first() =~= rest);
        assert((seq![t] + rest)[0] == t);
        assert(t.len == bytes_upto(s, end));
        assert(text_bytes(s.skip(end)) == text_bytes(s) - bytes_upto(s, end));
    }
}

// ----------------------------------------------------------------------
// Idempotence: a token re-scanned in isolation.
//
// Each lemma below shows that a scan routine computes the same answer on
// a prefix of the text, provided the prefix reaches at least to where the
// scan stopped: whatever the routine read past its own end was only ever
// compared against characters that the end-of-input sentinel rejects the
// same way.
// ----------------------------------------------------------------------
proof fn lemma_scan_while_not_take(s: Seq<char>, i: int, stop: char, m: int)
    requires
        0 <= i <= s.len(),
        scan_while_not(s, i, stop) <= m <= s.len(),
        i <= m,
    ensures
        scan_while_not(s.take(m), i, stop) == scan_while_not(s, i, stop),
    decreases s.len() - i,
{
    if i < s.len() && s[i] != stop {
        lemma_scan_while_not_bounds(s, i + 1, stop);
        lemma_scan_while_not_take(s, i + 1, stop, m);
        assert(s.take(m)[i] == s[i]);
    } else {
        if i < m {
            assert(s.take(m)[i] == s[i]);
        }
    }
}

proof fn lemma_scan_whitespace_take(s: Seq<char>, i: int, m: int)
    requires
        0 <= i <= s.len(),
        scan_whitespace(s, i) <= m <= s.len(),
        i <= m,
    ensures
        scan_whitespace(s.take(m), i) == scan_whitespace(s, i),
    decreases s.len() - i,
{
    if i < s.len() && spec_is_whitespace(s[i]) {
        lemma_scan_whitespace_bounds(s, i + 1);
        lemma_scan_whitespace_take(s, i + 1, m);
        assert(s.take(m)[i] == s[i]);
    } else {
        if i < m {
            assert(s.take(m)[i] == s[i]);
        }
    }
}

proof fn lemma_scan_id_continue_take(s: Seq<char>, i: int, m: int)
    requires
        0 <= i <= s.len(),
        scan_id_continue(s, i) <= m <= s.len(),
        i <= m,
    ensures
        scan_id_continue(s.take(m), i) == scan_id_continue(s, i),
    decreases s.len() - i,
{
    if i < s.len() && spec_is_id_continue(s[i]) {
        lemma_scan_id_continue_bounds(s, i + 1);
        lemma_scan_id_continue_take(s, i + 1, m);
        assert(s.take(m)[i] == s[i]);
    } else {
        if i < m {
            assert(s.take(m)[i] == s[i]);
        }
    }
}

proof fn lemma_scan_id_continue_run(s: Seq<char>, i: int)
    requires
        0 <= i <= s.len(),
    ensures
        forall|k: int|
            i <= k < scan_id_continue(s, i) ==> spec_is_id_continue(#[trigger] s[k]),
    decreases s.len() - i,
{
    if i < s.len() && spec_is_id_continue(s[i]) {
        lemma_scan_id_continue_run(s, i + 1);
    }
}

proof fn lemma_scan_hashes_take(s: Seq<char>, i: int, m: int)
    requires
        0 <= i <= s.len(),
        scan_hashes(s, i) <= m <= s.len(),
        i <= m,
    ensures
        scan_hashes(s.take(m), i) == scan_hashes(s, i),
    decreases s.len() - i,
{
    if i < s.len() && s[i] == '#' {
        lemma_scan_hashes_bounds(s, i + 1);
        lemma_scan_hashes_take(s, i + 1, m);
        assert(s.take(m)[i] == s[i]);
    } else {
        if i < m {
            assert(s.take(m)[i] == s[i]);
        }
    }
}

proof fn lemma_scan_limited_hashes_take(s: Seq<char>, i: int, left: int, m: int)
    requires
        0 <= i <= s.len(),
        scan_limited_hashes(s, i, left) <= m <= s.len(),
        i <= m,
    ensures
        scan_limited_hashes(s.take(m), i, left) == scan_limited_hashes(s, i, left),
    decreases s.len() - i,
{
    if left > 0 && i < s.len() && s[i] == '#' {
        lemma_scan_limited_hashes_bounds(s, i + 1, left - 1);
        lemma_scan_limited_hashes_take(s, i + 1, left - 1, m);
        assert(s.take(m)[i] == s[i]);
    } else {
        if i < m {
            assert(s.take(m)[i] == s[i]);
        }
    }
}

proof fn lemma_scan_digits_take(s: Seq<char>, i: int, m: int)
    requires
        0 <= i <= s.len(),
        scan_digits(s, i).0 <= m <= s.len(),
        i <= m,
    ensures
        scan_digits(s.take(m), i) == scan_digits(s, i),
    decreases s.len() - i,
{
    if i < s.len() && (s[i] == '_' || spec_is_digit(s[i])) {
        lemma_scan_digits_bounds(s, i + 1);
        lemma_scan_digits_take(s, i + 1, m);
        assert(s.take(m)[i] == s[i]);
    } else {
        if i < m {
            assert(s.take(m)[i] == s[i]);
        }
    }
}

proof fn lemma_scan_hex_digits_take(s: Seq<char>, i: int, m: int)
    requires
        0 <= i <= s.len(),
        scan_hex_digits(s, i).0 <= m <= s.len(),
        i <= m,
    ensures
        scan_hex_digits(s.take(m), i) == scan_hex_digits(s, i),
    decreases s.len() - i,
{
    if i < s.len() && (s[i] == '_' || spec_is_hex_digit(s[i])) {
        lemma_scan_hex_digits_bounds(s, i + 1);
        lemma_scan_hex_digits_take(s, i + 1, m);
        assert(s.take(m)[i] == s[i]);
    } else {
        if i < m {
            assert(s.take(m)[i] == s[i]);
        }
    }
}

proof fn lemma_scan_float_exponent_take(s: Seq<char>, i: int, m: int)
    requires
        0 <= i <= s.len(),
        scan_float_exponent(s, i).0 <= m <= s.len(),
        i <= m,
    ensures
        scan_float_exponent(s.take(m), i) == scan_float_exponent(s, i),
{
    if pk(s, i) == '-' || pk(s, i) == '+' {
        lemma_scan_digits_bounds(s, i + 1);
        assert(i < m);
        assert(pk(s.take(m), i) == s[i]);
        lemma_scan_digits_take(s, i + 1, m);
    } else {
        if i < m {
            assert(pk(s.take(m), i) == s[i]);
        } else {
            assert(pk(s.take(m), i) == '\0');
        }
        lemma_scan_digits_take(s, i, m);
    }
}

proof fn lemma_scan_suffix_take(s: Seq<char>, i: int, m: int)
    requires
        0 <= i <= s.len(),
        scan_suffix(s, i) <= m <= s.len(),
        i <= m,
    ensures
        scan_suffix(s.take(m), i) == scan_suffix(s, i),
{
    if i < s.len() && spec_is_id_start(s[i]) {
        lemma_scan_id_continue_bounds(s, i + 1);
        assert(i < m);
        assert(s.take(m)[i] == s[i]);
        lemma_scan_id_continue_take(s, i + 1, m);
    } else {
        if i < m {
            assert(s.take(m)[i] == s[i]);
        }
    }
}

proof fn lemma_scan_block_comment_take(s: Seq<char>, i: int, depth: int)
    requires
        0 <= i <= s.len(),
    ensures
        scan_block_comment(s.take(scan_block_comment(s, i, depth).0), i, depth)
            == scan_block_comment(s, i, depth),
    decreases s.len() - i,
{
    lemma_scan_block_comment_bounds(s, i, depth);
    let (e, t) = scan_block_comment(s, i, depth);
    if i >= s.len() {
    } else if s[i] == '/' && pk(s, i + 1) == '*' {
        lemma_scan_block_comment_bounds(s, i + 2, depth + 1);
        lemma_scan_block_comment_take(s, i + 2, depth + 1);
        assert(s.take(e)[i] == s[i]);
        assert(s.take(e)[i + 1] == s[i + 1]);
    } else if s[i] == '*' && pk(s, i + 1) == '/' {
        if depth == 1 {
            assert(s.take(e)[i] == s[i]);
            assert(s.take(e)[i + 1] == s[i + 1]);
        } else {
            lemma_scan_block_comment_bounds(s, i + 2, depth - 1);
            lemma_scan_block_comment_take(s, i + 2, depth - 1);
            assert(s.take(e)[i] == s[i]);
            assert(s.take(e)[i + 1] == s[i + 1]);
        }
    } else {
        lemma_scan_block_comment_bounds(s, i + 1, depth);
        lemma_scan_block_comment_take(s, i + 1, depth);
        assert(s.take(e)[i] == s[i]);
        if i + 1 < e {
            assert(pk(s.take(e), i + 1) == pk(s, i + 1));
        } else {
            assert(pk(s.take(e), i + 1) == '\0');
        }
    }
}

proof fn lemma_scan_single_quoted_loop_take(s: Seq<char>, i: int, m: int)
    requires
        0 <= i <= s.len(),
        i <= m <= s.len(),
        scan_single_quoted_loop(s, i).0 <= m,
    ensures
        scan_single_quoted_loop(s.take(m), i) == scan_single_quoted_loop(s, i),
    decreases s.len() - i,
{
    lemma_scan_single_quoted_loop_bounds(s, i);
    let (e, t) = scan_single_quoted_loop(s, i);
    let sub = s.take(m);
    if m == s.len() {
        assert(sub =~= s);
    } else {
        // With the end strictly inside the text, the scan cannot have
        // stopped at end of input.
        if i >= s.len() {
        } else {
            let c = s[i];
            if c == '\'' {
                assert(sub[i] == s[i]);
            } else if c == '/' {
                if i < m {
                    assert(sub[i] == s[i]);
                }
            } else if c == '\n' && pk(s, i + 1) != '\'' {
                if i < m {
                    assert(sub[i] == s[i]);
                    if i + 1 < m {
                        assert(pk(sub, i + 1) == s[i + 1]);
                    } else {
                        assert(pk(sub, i + 1) == '\0');
                    }
                }
            } else if c == '\\' {
                if i + 2 <= s.len() {
                    lemma_scan_single_quoted_loop_bounds(s, i + 2);
                    lemma_scan_single_quoted_loop_take(s, i + 2, m);
                    assert(sub[i] == s[i]);
                } else {
                    // The scan ran to the end of input, contradicting the
                    // strict bound on `m`.
                    lemma_scan_single_quoted_loop_bounds(s, s.len() as int);
                    assert(e == s.len());
                }
            } else {
                lemma_scan_single_quoted_loop_bounds(s, i + 1);
                lemma_scan_single_quoted_loop_take(s, i + 1, m);
                assert(sub[i] == s[i]);
                if c == '\n' {
                    // The arm that breaks at a newline was skipped, so the
                    // next character is a quote; it is consumed right after,
                    // so it lies inside the prefix.
                    assert(pk(s, i + 1) == '\'');
                    assert(scan_single_quoted_loop(s, i + 1).0 == i + 2);
                    assert(i + 1 < m);
                    assert(pk(sub, i + 1) == s[i + 1]);
                }
            }
        }
    }
}

proof fn lemma_scan_single_quoted_take(s: Seq<char>, i: int, m: int)
    requires
        0 <= i <= s.len(),
        i <= m <= s.len(),
        scan_single_quoted(s, i).0 <= m,
    ensures
        scan_single_quoted(s.take(m), i) == scan_single_quoted(s, i),
{
    let sub = s.take(m);
    if m == s.len() {
        assert(sub =~= s);
    } else {
        lemma_scan_single_quoted_loop_bounds(s, i);
        if pk(s, i + 1) == '\'' && pk(s, i) != '\\' {
            // The fast path consumes both characters it looked at.
            assert(i + 1 < s.len());
            assert(i + 2 <= m);
            assert(pk(sub, i + 1) == s[i + 1]);
            assert(pk(sub, i) == s[i]);
        } else {
            lemma_scan_single_quoted_loop_take(s, i, m);
            // The fast-path test fails on the prefix as well: a real quote
            // two ahead stays visible, and the sentinel is not a quote.
            if pk(s, i + 1) == '\'' {
                // Then the first character is a backslash, which the loop
                // consumes, so it lies inside the prefix.
                assert(pk(s, i) == '\\');
                assert(0 <= i < s.len());
                if i + 2 <= s.len() {
                    lemma_scan_single_quoted_loop_bounds(s, i + 2);
                } else {
                    lemma_scan_single_quoted_loop_bounds(s, s.len() as int);
                }
                assert(scan_single_quoted_loop(s, i).0 > i);
                assert(i < m);
                assert(pk(sub, i) == s[i]);
            } else {
                if i + 1 < m {
                    assert(pk(sub, i + 1) == s[i + 1]);
                } else {
                    assert(pk(sub, i + 1) == '\0');
                }
            }
        }
    }
}

proof fn lemma_scan_double_quoted_unterminated(s: Seq<char>, i: int)
    requires
        0 <= i <= s.len(),
    ensures
        !scan_double_quoted(s, i).1 ==> scan_double_quoted(s, i).0 == s.len(),
    decreases s.len() - i,
{
    if i < s.len() && s[i] != '"' {
        if s[i] == '\\' && (pk(s, i + 1) == '\\' || pk(s, i + 1) == '"') {
            lemma_scan_double_quoted_unterminated(s, i + 2);
        } else {
            lemma_scan_double_quoted_unterminated(s, i + 1);
        }
    }
}

proof fn lemma_scan_double_quoted_take(s: Seq<char>, i: int, m: int)
    requires
        0 <= i <= s.len(),
        i <= m <= s.len(),
        scan_double_quoted(s, i).0 <= m,
    ensures
        scan_double_quoted(s.take(m), i) == scan_double_quoted(s, i),
    decreases s.len() - i,
{
    lemma_scan_double_quoted_bounds(s, i);
    let sub = s.take(m);
    if m == s.len() {
        assert(sub =~= s);
    } else {
        if i >= s.len() {
        } else {
            let c = s[i];
            if c == '"' {
                assert(sub[i] == s[i]);
            } else if c == '\\' && (pk(s, i + 1) == '\\' || pk(s, i + 1) == '"') {
                lemma_scan_double_quoted_bounds(s, i + 2);
                lemma_scan_double_quoted_take(s, i + 2, m);
                assert(sub[i] == s[i]);
                assert(pk(sub, i + 1) == s[i + 1]);
            } else {
                lemma_scan_double_quoted_bounds(s, i + 1);
                lemma_scan_double_quoted_take(s, i + 1, m);
                assert(sub[i] == s[i]);
                if c == '\\' {
                    if i + 1 < m {
                        assert(pk(sub, i + 1) == s[i + 1]);
                    } else {
                        assert(pk(sub, i + 1) == '\0');
                    }
                }
            }
        }
    }
}

proof fn lemma_scan_number_tail_take(s: Seq<char>, i: int, base: NumericBase, m: int)
    requires
        0 <= i <= s.len(),
        i <= m <= s.len(),
        scan_number_tail(s, i, base).0 <= m,
        scan_number_tail(s, i, base).0 < m ==> spec_is_id_start(s[scan_number_tail(s, i, base).0]),
    ensures
        scan_number_tail(s.take(m), i, base) == scan_number_tail(s, i, base),
{
    lemma_scan_number_tail_bounds(s, i, base);
    let sub = s.take(m);
    let (j, kind) = scan_number_tail(s, i, base);
    if pk(s, i) == '.' && pk(s, i + 1) != '.' && !spec_is_id_start(pk(s, i + 1)) {
        if spec_is_digit(pk(s, i + 1)) {
            lemma_scan_digits_bounds(s, i + 1);
            lemma_scan_digits_bounds(s, i + 2);
            let (j0, _g) = scan_digits(s, i + 1);
            assert(j0 >= i + 2);
            if pk(s, j0) == 'e' || pk(s, j0) == 'E' {
                lemma_scan_float_exponent_bounds(s, j0 + 1);
                assert(j >= j0 + 1);
                assert(pk(sub, i) == s[i]);
                assert(pk(sub, i + 1) == s[i + 1]);
                lemma_scan_digits_take(s, i + 1, m);
                assert(j0 < m);
                assert(pk(sub, j0) == s[j0]);
                lemma_scan_float_exponent_take(s, j0 + 1, m);
            } else {
                assert(j == j0);
                assert(pk(sub, i) == s[i]);
                assert(pk(sub, i + 1) == s[i + 1]);
                lemma_scan_digits_take(s, i + 1, m);
                // The digits stopped before a character that is neither an
                // exponent marker on either view.
                if j0 < m {
                    assert(pk(sub, j0) == s[j0]);
                } else {
                    assert(pk(sub, j0) == '\0');
                }
            }
        } else {
            // A lone dot with nothing numeric after it.  Whatever stopped
            // the fraction is not an identifier start, so the prefix ends
            // exactly there and the sentinel repeats the decision.
            assert(j == i + 1);
            assert(pk(sub, i) == s[i]);
            if i + 1 < m {
                assert(pk(sub, i + 1) == s[i + 1]);
            } else {
                assert(pk(sub, i + 1) == '\0');
            }
        }
    } else if pk(s, i) == 'e' || pk(s, i) == 'E' {
        lemma_scan_float_exponent_bounds(s, i + 1);
        assert(i < m);
        assert(pk(sub, i) == s[i]);
        lemma_scan_float_exponent_take(s, i + 1, m);
    } else {
        // An integer: the token ends right here unless a suffix follows,
        // and a suffix's first character is an identifier start, which
        // neither a dot nor an exponent marker is.
        assert(j == i);
        if i < m {
            assert(pk(sub, i) == s[i]);
            assert(spec_is_id_start(s[i]));
            assert(s[i] != '.' && s[i] != 'e' && s[i] != 'E');
        } else {
            assert(pk(sub, i) == '\0');
        }
    }
}

proof fn lemma_scan_number_take(s: Seq<char>, i: int, first_digit: char, m: int)
    requires
        0 <= i <= s.len(),
        i <= m <= s.len(),
        scan_number(s, i, first_digit).0 <= m,
        scan_number(s, i, first_digit).0 < m ==> spec_is_id_start(
            s[scan_number(s, i, first_digit).0],
        ),
    ensures
        scan_number(s.take(m), i, first_digit) == scan_number(s, i, first_digit),
{
    lemma_scan_number_bounds(s, i, first_digit);
    let sub = s.take(m);
    if first_digit == '0' {
        let c = pk(s, i);
        if c == 'b' {
            lemma_scan_digits_bounds(s, i + 1);
            let (j0, got) = scan_digits(s, i + 1);
            lemma_scan_number_tail_bounds(s, j0, NumericBase::Binary);
            assert(i < m);
            assert(pk(sub, i) == s[i]);
            lemma_scan_digits_take(s, i + 1, m);
            if got {
                lemma_scan_number_tail_take(s, j0, NumericBase::Binary, m);
            }
        } else if c == 'o' {
            lemma_scan_digits_bounds(s, i + 1);
            let (j0, got) = scan_digits(s, i + 1);
            lemma_scan_number_tail_bounds(s, j0, NumericBase::Octal);
            assert(i < m);
            assert(pk(sub, i) == s[i]);
            lemma_scan_digits_take(s, i + 1, m);
            if got {
                lemma_scan_number_tail_take(s, j0, NumericBase::Octal, m);
            }
        } else if c == 'x' {
            lemma_scan_hex_digits_bounds(s, i + 1);
            let (j0, got) = scan_hex_digits(s, i + 1);
            lemma_scan_number_tail_bounds(s, j0, NumericBase::Hexadecimal);
            assert(i < m);
            assert(pk(sub, i) == s[i]);
            lemma_scan_hex_digits_take(s, i + 1, m);
            if got {
                lemma_scan_number_tail_take(s, j0, NumericBase::Hexadecimal, m);
            }
        } else if spec_is_digit(c) || c == '_' || c == '.' || c == 'e' || c == 'E' {
            lemma_scan_digits_bounds(s, i);
            let (j0, _g) = scan_digits(s, i);
            lemma_scan_number_tail_bounds(s, j0, NumericBase::Decimal);
            if i < m {
                assert(pk(sub, i) == s[i]);
                lemma_scan_digits_take(s, i, m);
                lemma_scan_number_tail_take(s, j0, NumericBase::Decimal, m);
            } else {
                // The whole number is the bare `0`, and the dot right after
                // it was not taken; past the prefix the sentinel is not a
                // dot either, and both views yield the same bare integer.
                assert(scan_number(s, i, first_digit).0 == i);
                if spec_is_digit(c) || c == '_' {
                    lemma_scan_digits_bounds(s, i + 1);
                    assert(false);
                } else if c == 'e' || c == 'E' {
                    assert(j0 == i);
                    lemma_scan_float_exponent_bounds(s, i + 1);
                    assert(false);
                } else {
                    assert(j0 == i);
                    if pk(s, i) == '.' && pk(s, i + 1) != '.' && !spec_is_id_start(pk(s, i + 1)) {
                        if spec_is_digit(pk(s, i + 1)) {
                            lemma_scan_digits_bounds(s, i + 1);
                            lemma_scan_digits_bounds(s, i + 2);
                            let (jd, _gg) = scan_digits(s, i + 1);
                            assert(jd >= i + 2);
                            if pk(s, jd) == 'e' || pk(s, jd) == 'E' {
                                lemma_scan_float_exponent_bounds(s, jd + 1);
                            }
                        }
                        assert(scan_number_tail(s, i, NumericBase::Decimal).0 >= i + 1);
                        assert(false);
                    }
                    assert(scan_number_tail(s, i, NumericBase::Decimal) == (
                        i,
                        LiteralKind::Int { base: NumericBase::Decimal, empty_int: false },
                    ));
                    assert(pk(sub, i) == '\0');
                }
            }
        } else {
            // Just a 0.
            if i < m {
                assert(pk(sub, i) == s[i]);
                assert(spec_is_id_start(s[i]));
            } else {
                assert(pk(sub, i) == '\0');
            }
        }
    } else {
        lemma_scan_digits_bounds(s, i);
        let (j0, _g) = scan_digits(s, i);
        lemma_scan_number_tail_bounds(s, j0, NumericBase::Decimal);
        lemma_scan_digits_take(s, i, m);
        lemma_scan_number_tail_take(s, j0, NumericBase::Decimal, m);
    }
}

proof fn lemma_scan_raw_loop_take(
    s: Seq<char>,
    i: int,
    start: int,
    n_start: int,
    max_hashes: int,
    pto: Option<usize>,
    prefix_len: int,
    m: int,
)
    requires
        0 <= start <= i <= s.len(),
        i <= m <= s.len(),
        scan_raw_loop(s, i, start, n_start, max_hashes, pto, prefix_len).0 <= m,
    ensures
        scan_raw_loop(s.take(m), i, start, n_start, max_hashes, pto, prefix_len) == scan_raw_loop(
            s,
            i,
            start,
            n_start,
            max_hashes,
            pto,
            prefix_len,
        ),
    decreases s.len() - i,
{
    lemma_scan_raw_loop_bounds(s, i, start, n_start, max_hashes, pto, prefix_len);
    let sub = s.take(m);
    if m == s.len() {
        assert(sub =~= s);
    } else {
        let (e, u) = scan_raw_loop(s, i, start, n_start, max_hashes, pto, prefix_len);
        lemma_scan_while_not_bounds(s, i, '"');
        let j = scan_while_not(s, i, '"');
        if j >= s.len() {
            // The scan ran to the end of input, contradicting the strict
            // bound on `m`.
            assert(e == j);
        } else {
            lemma_scan_limited_hashes_bounds(s, j + 1, n_start);
            let k = scan_limited_hashes(s, j + 1, n_start);
            let n_end = k - (j + 1);
            let new_pto = bytes_upto(s, k) - bytes_upto(s, start) - n_end + prefix_len;
            if n_end != n_start {
                lemma_scan_raw_loop_bounds(s, k, start, n_start, n_end, Some(new_pto as usize),
                    prefix_len);
                lemma_scan_raw_loop_bounds(s, k, start, n_start, max_hashes, pto, prefix_len);
            }
            assert(e >= k);
            assert(j < e);
            lemma_scan_while_not_take(s, i, '"', m);
            lemma_scan_limited_hashes_take(s, j + 1, n_start, m);
            assert(sub.len() == m);
            if n_end == n_start {
            } else {
                crate::text::lemma_bytes_upto_agree(sub, s, k);
                crate::text::lemma_bytes_upto_agree(sub, s, start);
                if n_end > max_hashes {
                    lemma_scan_raw_loop_take(s, k, start, n_start, n_end, Some(new_pto as usize),
                        prefix_len, m);
                } else {
                    lemma_scan_raw_loop_take(s, k, start, n_start, max_hashes, pto, prefix_len, m);
                }
            }
        }
    }
}

proof fn lemma_scan_raw_string_take(s: Seq<char>, i: int, prefix_len: int, m: int)
    requires
        0 <= i <= s.len(),
        i <= m <= s.len(),
        scan_raw_string(s, i, prefix_len).0 <= m,
    ensures
        scan_raw_string(s.take(m), i, prefix_len) == scan_raw_string(s, i, prefix_len),
{
    let sub = s.take(m);
    if m == s.len() {
        assert(sub =~= s);
    } else {
        lemma_scan_hashes_bounds(s, i);
        let h = scan_hashes(s, i);
        if h < s.len() && s[h] == '"' {
            lemma_scan_raw_loop_bounds(s, h + 1, i, h - i, 0, None, prefix_len);
        }
        assert(scan_raw_string(s, i, prefix_len).0 >= h);
        lemma_scan_hashes_take(s, i, m);
        if h < s.len() && s[h] == '"' {
            lemma_scan_raw_loop_bounds(s, h + 1, i, h - i, 0, None, prefix_len);
            assert(scan_raw_loop(s, h + 1, i, h - i, 0, None, prefix_len) == scan_raw_string(
                s,
                i,
                prefix_len,
            ));
            assert(h < m);
            assert(sub[h] == s[h]);
            lemma_scan_raw_loop_take(s, h + 1, i, h - i, 0, None, prefix_len, m);
        } else if h < s.len() {
            assert(h < m);
            assert(sub[h] == s[h]);
        } else {
            // The hashes ran to the end of input, contradicting the strict
            // bound on `m`.
        }
    }
}

/// Law (idempotence of classification): re-scanning the exact substring of
/// the first token yields the same kind and the same end.  Wherever the
/// scan peeked past the token, the decision it took is repeated by the
/// end-of-input sentinel.
pub proof fn lemma_scan_token_idempotent(s: Seq<char>)
    requires
        s.len() > 0,
    ensures
        scan_token(s.take(scan_token(s).1)) == scan_token(s),
{
    lemma_scan_token_bounds(s);
    let (kind, end) = scan_token(s);
    let sub = s.take(end);
    if end == s.len() {
        assert(sub =~= s);
    } else {
        assert(sub[0] == s[0]);
        let c = s[0];
        if c == '/' {
            if pk(s, 1) == '/' {
                lemma_scan_while_not_bounds(s, 2, '\n');
                lemma_scan_while_not_take(s, 2, '\n', end);
                assert(end >= 2);
                assert(sub[1] == s[1]);
            } else if pk(s, 1) == '*' {
                lemma_scan_block_comment_bounds(s, 2, 1);
                lemma_scan_block_comment_take(s, 2, 1);
                assert(end >= 2);
                assert(sub[1] == s[1]);
            } else {
                assert(pk(sub, 1) == '\0');
            }
        } else if spec_is_whitespace(c) {
            lemma_scan_whitespace_bounds(s, 1);
            lemma_scan_whitespace_take(s, 1, end);
        } else if c == 'r' {
            if pk(s, 1) == '#' && spec_is_id_start(pk(s, 2)) {
                lemma_scan_id_continue_bounds(s, 3);
                assert(end >= 3);
                assert(sub[1] == s[1]);
                assert(sub[2] == s[2]);
                lemma_scan_suffix_take(s, 2, end);
            } else if pk(s, 1) == '#' || pk(s, 1) == '"' {
                lemma_scan_raw_string_bounds(s, 1, 1);
                let (e0, u) = scan_raw_string(s, 1, 1);
                lemma_scan_suffix_bounds(s, e0);
                lemma_raw_string_consumes_lookahead(s, 1, 1);
                assert(e0 >= 2);
                assert(sub[1] == s[1]);
                if pk(s, 1) == '#' {
                    // The hash is consumed, and whatever follows it is read
                    // within the scan as well.
                    if 2 < end {
                        assert(sub[2] == s[2]);
                    } else {
                        assert(pk(sub, 2) == '\0');
                    }
                }
                lemma_scan_raw_string_take(s, 1, 1, end);
                if u.n_end_hashes == u.n_start_hashes {
                    lemma_scan_suffix_take(s, e0, end);
                }
                crate::text::lemma_bytes_upto_agree(sub, s, e0);
            } else {
                lemma_scan_id_continue_bounds(s, 1);
                lemma_scan_id_continue_run(s, 1);
                lemma_scan_id_continue_take(s, 1, end);
                if 1 < end {
                    assert(pk(sub, 1) == s[1]);
                } else {
                    assert(pk(sub, 1) == '\0');
                }
            }
        } else if c == 'b' {
            if pk(s, 1) == '\'' {
                lemma_scan_single_quoted_bounds(s, 2);
                let (j, term) = scan_single_quoted(s, 2);
                lemma_scan_suffix_bounds(s, j);
                assert(end >= 2);
                assert(sub[1] == s[1]);
                lemma_scan_single_quoted_take(s, 2, end);
                if term {
                    lemma_scan_suffix_take(s, j, end);
                }
                crate::text::lemma_bytes_upto_agree(sub, s, j);
            } else if pk(s, 1) == '"' {
                lemma_scan_double_quoted_bounds(s, 2);
                let (j, term) = scan_double_quoted(s, 2);
                lemma_scan_suffix_bounds(s, j);
                assert(end >= 2);
                assert(sub[1] == s[1]);
                lemma_scan_double_quoted_take(s, 2, end);
                if term {
                    lemma_scan_suffix_take(s, j, end);
                }
                crate::text::lemma_bytes_upto_agree(sub, s, j);
            } else if pk(s, 1) == 'r' && (pk(s, 2) == '"' || pk(s, 2) == '#') {
                lemma_scan_raw_string_bounds(s, 2, 2);
                let (e0, u) = scan_raw_string(s, 2, 2);
                lemma_scan_suffix_bounds(s, e0);
                lemma_raw_string_consumes_lookahead(s, 2, 2);
                assert(e0 >= 3);
                assert(sub[1] == s[1]);
                assert(sub[2] == s[2]);
                lemma_scan_raw_string_take(s, 2, 2, end);
                if u.n_start_hashes == u.n_end_hashes {
                    lemma_scan_suffix_take(s, e0, end);
                }
                crate::text::lemma_bytes_upto_agree(sub, s, e0);
            } else {
                lemma_scan_id_continue_bounds(s, 1);
                lemma_scan_id_continue_run(s, 1);
                lemma_scan_id_continue_take(s, 1, end);
                if 1 < end {
                    assert(pk(sub, 1) == s[1]);
                } else {
                    assert(pk(sub, 1) == '\0');
                }
                if 2 < end {
                    assert(pk(sub, 2) == s[2]);
                    assert(spec_is_id_continue(s[2]));
                } else {
                    assert(pk(sub, 2) == '\0');
                }
            }
        } else if spec_is_id_start(c) {
            lemma_scan_id_continue_bounds(s, 1);
            lemma_scan_id_continue_take(s, 1, end);
        } else if spec_is_digit(c) {
            lemma_scan_number_bounds(s, 1, c);
            let (j, nk) = scan_number(s, 1, c);
            lemma_scan_suffix_bounds(s, j);
            lemma_scan_number_take(s, 1, c, end);
            lemma_scan_suffix_take(s, j, end);
            crate::text::lemma_bytes_upto_agree(sub, s, j);
        } else if c == '\'' {
            lemma_scan_lifetime_or_char_bounds(s, 1);
            if pk(s, 2) == '\'' || !(spec_is_id_start(pk(s, 1)) || spec_is_digit(pk(s, 1))) {
                // A character literal.
                lemma_scan_single_quoted_bounds(s, 1);
                let (j, term) = scan_single_quoted(s, 1);
                lemma_scan_suffix_bounds(s, j);
                lemma_scan_single_quoted_take(s, 1, end);
                if term {
                    lemma_scan_suffix_take(s, j, end);
                }
                crate::text::lemma_bytes_upto_agree(sub, s, j);
                // The cannot-be-a-lifetime decision is repeated on the
                // prefix.
                if pk(s, 2) == '\'' && (spec_is_id_start(pk(s, 1)) || spec_is_digit(pk(s, 1))) {
                    // The quote two ahead is what the one-symbol fast path
                    // or the closing of the literal consumes, so it lies
                    // inside the token.
                    if pk(s, 1) == '\\' {
                        assert(scan_single_quoted_loop(s, 1).0 > 1) by {
                            lemma_scan_single_quoted_loop_bounds(s, 3);
                            lemma_scan_single_quoted_loop_bounds(
                                s,
                                if 3 <= s.len() {
                                    3
                                } else {
                                    s.len() as int
                                },
                            );
                        }
                        assert(1 < end);
                        assert(pk(sub, 1) == s[1]);
                    } else {
                        assert(j == 3);
                        assert(2 < end);
                        assert(pk(sub, 2) == s[2]);
                    }
                } else {
                    if 1 < end {
                        assert(pk(sub, 1) == s[1]);
                    } else {
                        assert(pk(sub, 1) == '\0');
                    }
                    if 2 < end {
                        assert(pk(sub, 2) == s[2]);
                    } else {
                        assert(pk(sub, 2) == '\0');
                    }
                }
            } else {
                // A tentative lifetime.
                lemma_scan_id_continue_bounds(s, 2);
                let j = scan_id_continue(s, 2);
                assert(sub[1] == s[1]);
                lemma_scan_id_continue_take(s, 2, end);
                lemma_scan_id_continue_run(s, 2);
                if pk(s, j) == '\'' {
                    // Reclassified as a character literal: the closing quote
                    // is consumed.
                    assert(end == j + 1);
                    assert(pk(sub, j) == s[j]);
                    if 2 < end {
                        assert(pk(sub, 2) == s[2]);
                        assert(spec_is_id_continue(s[2]));
                    } else {
                        assert(pk(sub, 2) == '\0');
                    }
                    crate::text::lemma_bytes_upto_agree(sub, s, j + 1);
                } else {
                    assert(end == j);
                    assert(pk(sub, j) == '\0');
                    if 2 < end {
                        assert(pk(sub, 2) == s[2]);
                        assert(spec_is_id_continue(s[2]));
                    } else {
                        assert(pk(sub, 2) == '\0');
                    }
                }
            }
        } else if c == '"' {
            lemma_scan_double_quoted_bounds(s, 1);
            let (j, term) = scan_double_quoted(s, 1);
            lemma_scan_suffix_bounds(s, j);
            lemma_scan_double_quoted_take(s, 1, end);
            if term {
                lemma_scan_suffix_take(s, j, end);
            }
            crate::text::lemma_bytes_upto_agree(sub, s, j);
        } else {
        }
    }
}

/// A raw-string scan entered on a hash or quote consumes at least that
/// character.
proof fn lemma_raw_string_consumes_lookahead(s: Seq<char>, i: int, prefix_len: int)
    requires
        0 <= i < s.len(),
        s[i] == '#' || s[i] == '"',
    ensures
        scan_raw_string(s, i, prefix_len).0 >= i + 1,
{
    lemma_scan_hashes_bounds(s, i);
    let h = scan_hashes(s, i);
    if s[i] == '#' {
        lemma_scan_hashes_bounds(s, i + 1);
        assert(h >= i + 1);
    }
    if h < s.len() && s[h] == '"' {
        lemma_scan_raw_loop_bounds(s, h + 1, i, h - i, 0, None, prefix_len);
    }
}

/// Law (idempotence): re-tokenizing the exact substring of the first token
/// of `s` yields that one token and nothing else.
pub proof fn lemma_tokenize_idempotent(s: Seq<char>)
    requires
        s.len() > 0,
    ensures
        ({
            let (t, end) = spec_first_token(s);
            spec_tokenize(s.take(end)) == seq![t]
        }),
{
    lemma_scan_token_bounds(s);
    lemma_scan_token_idempotent(s);
    let (t, end) = spec_first_token(s);
    let sub = s.take(end);
    crate::text::lemma_bytes_upto_agree(sub, s, end);
    assert(spec_first_token(sub).0 == t);
    assert(spec_first_token(sub).1 == end);
    assert(sub.skip(end) =~= Seq::<char>::empty());
    assert(spec_tokenize(sub.skip(end)) =~= Seq::<Token>::empty());
    assert(seq![t] + Seq::<Token>::empty() =~= seq![t]);
}

} // verus!
