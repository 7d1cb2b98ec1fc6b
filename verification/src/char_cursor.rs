//! A bare forward cursor over a character sequence: construction and
//! single-character consumption only.

use crate::text::str_to_chars;
use vstd::prelude::*;

verus! {

/// Forward iterator over a character sequence.
pub struct Cursor {
    /// All characters the cursor was created over.
    pub text: Vec<char>,
    /// Index of the next unconsumed character.
    pub pos: usize,
}

impl Cursor {
    pub open spec fn wf(self) -> bool {
        self.pos <= self.text@.len()
    }

    pub fn new(input: &str) -> (c: Cursor)
        ensures
            c.wf(),
            c.text@ == input@,
            c.pos == 0,
    {
        Cursor { text: str_to_chars(input), pos: 0 }
    }

    /// Moves to the next character.
    pub fn bump(&mut self) -> (r: Option<char>)
        requires
            old(self).wf(),
        ensures
            final(self).wf(),
            final(self).text@ == old(self).text@,
            if old(self).pos < old(self).text@.len() {
                r == Some(old(self).text@[old(self).pos as int]) && final(self).pos == old(
                    self,
                ).pos + 1
            } else {
                r == Option::<char>::None && final(self).pos == old(self).pos
            },
    {
        if self.pos < self.text.len() {
            let c = self.text[self.pos];
            self.pos = self.pos + 1;
            Some(c)
        } else {
            None
        }
    }
}

} // verus!
