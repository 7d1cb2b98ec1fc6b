//! A forward-only cursor over a character sequence.
//!
//! The cursor owns the characters it was created over and exposes only
//! forward motion: `bump` consumes one character, `peek`/`peek_nth` look
//! ahead without consuming, and `fork` yields an independent cursor over the
//! remaining text.  `len_consumed` reports the UTF-8 byte length of what has
//! been consumed since construction; every token's length is derived from it.

use crate::text::{bytes_upto, char_utf8_len, chars_from, char_bytes, lemma_bytes_upto_mono,
    lemma_bytes_upto_skip, str_to_chars, text_bytes};
use vstd::prelude::*;

verus! {

/// Sentinel returned by lookahead past the end of input.  A literal NUL in
/// the input is indistinguishable from it, so end of input must be checked
/// with `is_eof`.
pub const EOF_CHAR: char = '\0';

/// Peekable forward-only cursor over a character sequence.
pub struct Cursor {
    /// All characters the cursor was created over.
    pub text: Vec<char>,
    /// Index of the next unconsumed character.
    pub pos: usize,
    /// UTF-8 byte length of `text[..pos]`.
    pub consumed_bytes: usize,
}

impl Cursor {
    /// Invariant tying the byte counter to the position: every constructor
    /// establishes it and every method preserves it.
    pub open spec fn wf(self) -> bool {
        &&& self.pos <= self.text@.len()
        &&& text_bytes(self.text@) <= usize::MAX
        &&& self.consumed_bytes == bytes_upto(self.text@, self.pos as int)
    }

    /// The characters not yet consumed.
    pub open spec fn remaining(self) -> Seq<char> {
        self.text@.skip(self.pos as int)
    }

    /// The character `spec_peek_nth` reports at `n` positions ahead:
    /// `EOF_CHAR` past the end of input.
    pub open spec fn spec_peek_nth(self, n: int) -> char {
        if self.pos + n < self.text@.len() {
            self.text@[self.pos + n]
        } else {
            EOF_CHAR
        }
    }

    pub fn new(input: &str) -> (c: Cursor)
        ensures
            c.wf(),
            c.text@ == input@,
            c.pos == 0,
    {
        let text = str_to_chars(input);
        Cursor { text, pos: 0, consumed_bytes: 0 }
    }

    /// Builds a cursor over an already-converted character sequence.
    pub(crate) fn new_from_chars(text: Vec<char>) -> (c: Cursor)
        requires
            text_bytes(text@) <= usize::MAX,
        ensures
            c.wf(),
            c.text@ == text@,
            c.pos == 0,
    {
        Cursor { text, pos: 0, consumed_bytes: 0 }
    }

    /// Returns the last consumed character (or `EOF_CHAR` if none was).
    pub fn prev(&self) -> (r: char)
        requires
            self.wf(),
        ensures
            r == if self.pos == 0 {
                EOF_CHAR
            } else {
                self.text@[self.pos - 1]
            },
    {
        if self.pos == 0 {
            EOF_CHAR
        } else {
            self.text[self.pos - 1]
        }
    }

    /// Peeks the next character without consuming it.
    pub fn peek(&self) -> (r: char)
        requires
            self.wf(),
        ensures
            r == self.spec_peek_nth(0),
    {
        self.peek_nth(0)
    }

    /// Peeks the next character without consuming it.
    pub fn first(&self) -> (r: char)
        requires
            self.wf(),
        ensures
            r == self.spec_peek_nth(0),
    {
        self.peek_nth(0)
    }

    /// Returns the character `n` positions ahead of the current position.
    /// If the requested position doesn't exist, `EOF_CHAR` is returned.
    /// However, getting `EOF_CHAR` doesn't always mean actual end of file:
    /// it should be checked with the `is_eof` method.
    pub fn peek_nth(&self, n: usize) -> (r: char)
        requires
            self.wf(),
        ensures
            r == self.spec_peek_nth(n as int),
    {
        if n < self.text.len() - self.pos {
            self.text[self.pos + n]
        } else {
            EOF_CHAR
        }
    }

    /// Checks if there is nothing more to consume.
    pub fn is_eof(&self) -> (r: bool)
        requires
            self.wf(),
        ensures
            r == (self.remaining().len() == 0),
    {
        self.pos == self.text.len()
    }

    /// Returns the UTF-8 byte length of the already consumed characters.
    pub fn len_consumed(&self) -> (r: usize)
        requires
            self.wf(),
        ensures
            r == bytes_upto(self.text@, self.pos as int),
    {
        self.consumed_bytes
    }

    /// Creates an independent cursor over the remaining text.
    pub fn fork(&self) -> (c: Cursor)
        requires
            self.wf(),
        ensures
            c.wf(),
            c.text@ == self.remaining(),
            c.pos == 0,
    {
        proof {
            lemma_bytes_upto_skip(self.text@, self.pos as int, self.remaining().len() as int);
            lemma_bytes_upto_mono(self.text@, self.pos as int, self.text@.len() as int);
        }
        let text = chars_from(&self.text, self.pos);
        Cursor { text, pos: 0, consumed_bytes: 0 }
    }

    /// Moves to the next character.
    pub fn bump(&mut self) -> (r: Option<char>)
        requires
            old(self).wf(),
        ensures
            final(self).wf(),
            final(self).text@ == old(self).text@,
            if old(self).pos < old(self).text@.len() {
                r == Some(old(self).text@[old(self).pos as int]) && final(self).pos == old(
                    self,
                ).pos + 1
            } else {
                r == Option::<char>::None && final(self).pos == old(self).pos
            },
    {
        if self.pos < self.text.len() {
            let c = self.text[self.pos];
            proof {
                lemma_bytes_upto_mono(self.text@, self.pos + 1, self.text@.len() as int);
            }
            self.consumed_bytes = self.consumed_bytes + char_utf8_len(c);
            self.pos = self.pos + 1;
            Some(c)
        } else {
            None
        }
    }

    /// Moves `n` characters forward, returning the last one consumed, or
    /// `None` if `n` is zero or fewer than `n` characters remain.
    pub fn bump_n(&mut self, n: usize) -> (r: Option<char>)
        requires
            old(self).wf(),
        ensures
            final(self).wf(),
            final(self).text@ == old(self).text@,
            if n == 0 {
                r == Option::<char>::None && final(self).pos == old(self).pos
            } else if old(self).remaining().len() >= n {
                r == Some(old(self).text@[old(self).pos + n - 1]) && final(self).pos == old(
                    self,
                ).pos + n
            } else {
                r == Option::<char>::None && final(self).pos == old(self).text@.len()
            },
        decreases n,
    {
        if n == 0 {
            return None;
        }
        let c = match self.bump() {
            Some(c) => c,
            None => {
                return None;
            },
        };
        if n == 1 {
            return Some(c);
        }
        self.bump_n(n - 1)
    }
}

} // verus!
