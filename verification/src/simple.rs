//! A reduced scanner that classifies only whitespace, identifiers and
//! unknown characters, over the same cursor discipline as the full one.
//! Token lengths are UTF-8 byte lengths, and the token sequence covers the
//! input exactly.

use crate::text::{bytes_upto, chars_from, lemma_bytes_upto_mono, lemma_bytes_upto_skip,
    prefix_bytes, str_to_chars, text_bytes};
use crate::tokenize::{lemma_scan_id_continue_bounds, scan_id_continue, spec_is_id_continue,
    spec_is_id_start, spec_is_whitespace};
use vstd::prelude::*;

verus! {

pub const EOF_CHAR: char = '\0';

/// Forward-only cursor over a character sequence.
pub struct Cursor {
    /// All characters the cursor was created over.
    pub text: Vec<char>,
    /// Index of the next unconsumed character.
    pub pos: usize,
    /// UTF-8 byte length of `text[..pos]`.
    pub consumed_bytes: usize,
}

impl Cursor {
    pub open spec fn wf(self) -> bool {
        &&& self.pos <= self.text@.len()
        &&& text_bytes(self.text@) <= usize::MAX
        &&& self.consumed_bytes == bytes_upto(self.text@, self.pos as int)
    }

    /// The characters not yet consumed.
    pub open spec fn remaining(self) -> Seq<char> {
        self.text@.skip(self.pos as int)
    }

    pub fn new(input: &str) -> (c: Cursor)
        ensures
            c.wf(),
            c.text@ == input@,
            c.pos == 0,
    {
        Cursor { text: str_to_chars(input), pos: 0, consumed_bytes: 0 }
    }

    /// Moves to the next character.
    pub fn bump(&mut self) -> (r: Option<char>)
        requires
            old(self).wf(),
        ensures
            final(self).wf(),
            final(self).text@ == old(self).text@,
            if old(self).pos < old(self).text@.len() {
                r == Some(old(self).text@[old(self).pos as int]) && final(self).pos == old(
                    self,
                ).pos + 1
            } else {
                r == Option::<char>::None && final(self).pos == old(self).pos
            },
    {
        if self.pos < self.text.len() {
            let c = self.text[self.pos];
            proof {
                lemma_bytes_upto_mono(self.text@, self.pos + 1, self.text@.len() as int);
            }
            self.consumed_bytes = self.consumed_bytes + crate::text::char_utf8_len(c);
            self.pos = self.pos + 1;
            Some(c)
        } else {
            None
        }
    }

    /// Peeks the next character from the input stream without consuming it,
    /// or `EOF_CHAR` at the end of input.
    pub fn first(&self) -> (r: char)
        requires
            self.wf(),
        ensures
            r == if self.pos < self.text@.len() {
                self.text@[self.pos as int]
            } else {
                EOF_CHAR
            },
    {
        if self.pos < self.text.len() {
            self.text[self.pos]
        } else {
            EOF_CHAR
        }
    }

    /// Checks if there is nothing more to consume.
    pub fn is_eof(&self) -> (r: bool)
        requires
            self.wf(),
        ensures
            r == (self.remaining().len() == 0),
    {
        self.pos == self.text.len()
    }

    /// Returns the UTF-8 byte length of the already consumed characters.
    pub fn len_consumed(&self) -> (r: usize)
        requires
            self.wf(),
        ensures
            r == bytes_upto(self.text@, self.pos as int),
    {
        self.consumed_bytes
    }
}

/// Enum representing the lexeme types of the reduced scanner.
#[derive(Clone, Copy, Debug, PartialEq, Eq, PartialOrd, Ord)]
pub enum TokenKind {
    /// Any whitespace character.
    Whitespace,
    /// Identifier, including keywords.
    Identifier,
    /// Unknown token, not expected by the scanner.
    Unknown,
}

/// Parsed token: only the kind of the token and its size in bytes.
#[derive(Clone, Copy, Debug, PartialEq, Eq)]
pub struct Token {
    pub kind: TokenKind,
    pub len: usize,
}

/// The kind and end position of the first token of `s`: one whitespace
/// character, a full identifier, or one unknown character.
pub open spec fn spec_token(s: Seq<char>) -> (TokenKind, int)
    recommends
        s.len() > 0,
{
    if spec_is_whitespace(s[0]) {
        (TokenKind::Whitespace, 1)
    } else if spec_is_id_start(s[0]) {
        (TokenKind::Identifier, scan_id_continue(s, 1))
    } else {
        (TokenKind::Unknown, 1)
    }
}

pub proof fn lemma_spec_token_bounds(s: Seq<char>)
    requires
        s.len() > 0,
    ensures
        1 <= spec_token(s).1 <= s.len(),
{
    if !spec_is_whitespace(s[0]) && spec_is_id_start(s[0]) {
        lemma_scan_id_continue_bounds(s, 1);
    }
}

/// The token sequence that exactly covers `s`.
pub open spec fn spec_tokens(s: Seq<char>) -> Seq<Token>
    decreases s.len(),
{
    if s.len() == 0 {
        Seq::<Token>::empty()
    } else {
        let (kind, end) = spec_token(s);
        let step = if 1 <= end <= s.len() {
            end
        } else {
            1
        };
        seq![Token { kind, len: bytes_upto(s, step) as usize }] + spec_tokens(s.skip(step))
    }
}

/// Classifies the first token of `text` and reports the characters spanned.
fn token_at(text: &Vec<char>) -> (r: (Token, usize))
    requires
        text@.len() > 0,
        text_bytes(text@) <= usize::MAX,
    ensures
        r.0.kind == spec_token(text@).0,
        r.1 as int == spec_token(text@).1,
        r.0.len == bytes_upto(text@, r.1 as int),
        1 <= r.1 <= text@.len(),
{
    proof {
        vstd::std_specs::vec::axiom_spec_len(text);
        lemma_spec_token_bounds(text@);
    }
    let c = text[0];
    let (kind, end): (TokenKind, usize) = if is_whitespace(c) {
        (TokenKind::Whitespace, 1)
    } else if is_id_start(c) {
        (TokenKind::Identifier, crate::tokenize::eat_id_continue(text, 1))
    } else {
        (TokenKind::Unknown, 1)
    };
    let len = prefix_bytes(text, end);
    (Token { kind, len }, end)
}

/// Splits the whole input into its token sequence.
pub fn tokenize(input: &str) -> (r: Vec<Token>)
    ensures
        r@ == spec_tokens(input@),
{
    let text = str_to_chars(input);
    let mut out: Vec<Token> = Vec::new();
    let mut start: usize = 0;
    proof {
        assert(text@.skip(0) =~= text@);
        assert(out@ + spec_tokens(text@) =~= spec_tokens(text@));
    }
    while start < text.len()
        invariant
            start <= text@.len(),
            text@ == input@,
            text_bytes(text@) <= usize::MAX,
            spec_tokens(text@) == out@ + spec_tokens(text@.skip(start as int)),
        decreases text@.len() - start,
    {
        let suffix = chars_from(&text, start);
        proof {
            lemma_bytes_upto_skip(text@, start as int, text@.len() - start);
            crate::text::lemma_bytes_upto_bounds(text@, start as int);
        }
        let (t, consumed) = token_at(&suffix);
        let ghost prev_out = out@;
        out.push(t);
        proof {
            lemma_spec_token_bounds(suffix@);
            assert(suffix@.skip(consumed as int) =~= text@.skip(start + consumed));
            assert(out@ =~= prev_out + seq![t]);
            assert((prev_out + seq![t]) + spec_tokens(text@.skip(start + consumed)) =~= prev_out + (
            seq![t] + spec_tokens(text@.skip(start + consumed))));
        }
        start = start + consumed;
    }
    proof {
        assert(text@.skip(start as int) =~= Seq::<char>::empty());
        assert(out@ =~= out@ + Seq::<Token>::empty());
    }
    out
}

/// True if `c` is considered whitespace (the `Pattern_White_Space` class).
pub fn is_whitespace(c: char) -> (r: bool)
    ensures
        r == spec_is_whitespace(c),
{
    crate::tokenize::is_whitespace(c)
}

/// True if `c` is valid as a first character of an identifier.
pub fn is_id_start(c: char) -> (r: bool)
    ensures
        r == spec_is_id_start(c),
{
    crate::tokenize::is_id_start(c)
}

/// True if `c` is valid as a non-first character of an identifier.
pub fn is_id_continue(c: char) -> (r: bool)
    ensures
        r == spec_is_id_continue(c),
{
    crate::tokenize::is_id_continue(c)
}

} // verus!
