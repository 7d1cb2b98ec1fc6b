//! The byte-length model of UTF-8 text.
//!
//! Token lengths and escape-decoder offsets are byte offsets into the UTF-8
//! encoding of the input, while the scanner itself walks characters.  This
//! module defines the byte-length measure of a character sequence, proves it
//! equal to the length of vstd's UTF-8 encoding, and converts a `&str` into
//! the `Vec<char>` form the scanner works on.

use vstd::prelude::*;
use vstd::string::StrSliceExecFns;
use vstd::string::StringSliceAdditionalSpecFns;

verus! {

/// Number of bytes in the UTF-8 encoding of `c`.
pub open spec fn char_bytes(c: char) -> int {
    if (c as u32) < 0x80 {
        1
    } else if (c as u32) < 0x800 {
        2
    } else if (c as u32) < 0x10000 {
        3
    } else {
        4
    }
}

/// Number of bytes in the UTF-8 encoding of the first `i` characters of `s`.
pub open spec fn bytes_upto(s: Seq<char>, i: int) -> int
    decreases i,
{
    if i <= 0 {
        0
    } else {
        bytes_upto(s, i - 1) + char_bytes(s[i - 1])
    }
}

/// Number of bytes in the UTF-8 encoding of all of `s`.
pub open spec fn text_bytes(s: Seq<char>) -> int {
    bytes_upto(s, s.len() as int)
}

pub proof fn lemma_bytes_upto_bounds(s: Seq<char>, i: int)
    requires
        0 <= i <= s.len(),
    ensures
        i <= bytes_upto(s, i) <= 4 * i,
    decreases i,
{
    if i > 0 {
        lemma_bytes_upto_bounds(s, i - 1);
    }
}

pub proof fn lemma_bytes_upto_mono(s: Seq<char>, i: int, j: int)
    requires
        0 <= i <= j <= s.len(),
    ensures
        bytes_upto(s, i) + (j - i) <= bytes_upto(s, j),
    decreases j,
{
    if i < j {
        lemma_bytes_upto_mono(s, i, j - 1);
    }
}

/// `bytes_upto` only looks at the first `i` characters.
pub proof fn lemma_bytes_upto_agree(s: Seq<char>, t: Seq<char>, i: int)
    requires
        0 <= i <= s.len(),
        i <= t.len(),
        forall|k: int| 0 <= k < i ==> s[k] == t[k],
    ensures
        bytes_upto(s, i) == bytes_upto(t, i),
    decreases i,
{
    if i > 0 {
        lemma_bytes_upto_agree(s, t, i - 1);
    }
}

/// Dropping the first character shifts the byte measure by that character.
pub proof fn lemma_bytes_upto_drop_first(s: Seq<char>, i: int)
    requires
        1 <= i <= s.len(),
    ensures
        bytes_upto(s, i) == char_bytes(s[0]) + bytes_upto(s.drop_first(), i - 1),
    decreases i,
{
    let d = s.drop_first();
    if i == 1 {
        assert(bytes_upto(s, 1) == bytes_upto(s, 0) + char_bytes(s[0]));
        assert(bytes_upto(d, 0) == 0);
    } else {
        lemma_bytes_upto_drop_first(s, i - 1);
        assert(d[i - 2] == s[i - 1]);
        assert(bytes_upto(s, i) == bytes_upto(s, i - 1) + char_bytes(s[i - 1]));
        assert(bytes_upto(d, i - 1) == bytes_upto(d, i - 2) + char_bytes(d[i - 2]));
    }
}

/// The byte measure of a suffix is the difference of the byte measures of
/// two prefixes of the whole.
pub proof fn lemma_bytes_upto_skip(s: Seq<char>, p: int, i: int)
    requires
        0 <= p <= s.len(),
        0 <= i <= s.len() - p,
    ensures
        bytes_upto(s.skip(p), i) == bytes_upto(s, p + i) - bytes_upto(s, p),
    decreases i,
{
    if i > 0 {
        lemma_bytes_upto_skip(s, p, i - 1);
        assert(s.skip(p)[i - 1] == s[p + i - 1]);
        assert(bytes_upto(s.skip(p), i) == bytes_upto(s.skip(p), i - 1) + char_bytes(
            s.skip(p)[i - 1],
        ));
        assert(bytes_upto(s, p + i) == bytes_upto(s, p + i - 1) + char_bytes(s[p + i - 1]));
    }
}

/// The byte measure agrees with the length of vstd's UTF-8 encoding, and so
/// with the byte length of any `&str` whose view is `s`.
pub proof fn lemma_text_bytes_is_utf8_len(s: Seq<char>)
    ensures
        text_bytes(s) == vstd::utf8::encode_utf8(s).len(),
    decreases s.len(),
{
    broadcast use vstd::utf8::char_is_scalar;

    if s.len() == 0 {
    } else {
        lemma_text_bytes_is_utf8_len(s.drop_first());
        lemma_bytes_upto_drop_first(s, s.len() as int);
        vstd::utf8::char_is_scalar(s[0]);
        let v = s[0] as u32;
        assert(vstd::utf8::is_scalar(v));
        if vstd::utf8::has_width_1_encoding(v) {
            assert(vstd::utf8::encode_scalar(v).len() == 1);
        } else if vstd::utf8::has_width_2_encoding(v) {
            assert(vstd::utf8::encode_scalar(v).len() == 2);
        } else if vstd::utf8::has_width_3_encoding(v) {
            assert(vstd::utf8::encode_scalar(v).len() == 3);
        } else {
            assert(vstd::utf8::encode_scalar(v).len() == 4);
        }
        assert(vstd::utf8::encode_scalar(v).len() == char_bytes(s[0]));
    }
}

/// Number of bytes `c` occupies in UTF-8.
pub fn char_utf8_len(c: char) -> (n: usize)
    ensures
        n == char_bytes(c),
{
    let v = c as u32;
    if v < 0x80 {
        1
    } else if v < 0x800 {
        2
    } else if v < 0x10000 {
        3
    } else {
        4
    }
}

/// A copy of the characters of `text` from position `start` on.
pub fn chars_from(text: &Vec<char>, start: usize) -> (v: Vec<char>)
    requires
        start <= text@.len(),
    ensures
        v@ == text@.skip(start as int),
{
    let mut v: Vec<char> = Vec::new();
    let mut i: usize = start;
    while i < text.len()
        invariant
            start <= i <= text@.len(),
            v@ == text@.subrange(start as int, i as int),
        decreases text@.len() - i,
    {
        v.push(text[i]);
        i = i + 1;
        proof {
            assert(v@ =~= text@.subrange(start as int, i as int));
        }
    }
    proof {
        assert(v@ =~= text@.skip(start as int));
    }
    v
}

/// The total UTF-8 byte length of the first `end` characters of `text`,
/// computed exactly.
pub fn prefix_bytes(text: &Vec<char>, end: usize) -> (n: usize)
    requires
        end <= text@.len(),
        text_bytes(text@) <= usize::MAX,
    ensures
        n == bytes_upto(text@, end as int),
{
    let mut n: usize = 0;
    let mut i: usize = 0;
    while i < end
        invariant
            i <= end <= text@.len(),
            text_bytes(text@) <= usize::MAX,
            n == bytes_upto(text@, i as int),
        decreases end - i,
    {
        proof {
            lemma_bytes_upto_mono(text@, i + 1, text@.len() as int);
            lemma_bytes_upto_bounds(text@, i + 1);
        }
        n = n + char_utf8_len(text[i]);
        i = i + 1;
    }
    n
}

/// The characters of `s`, together with the fact that their total UTF-8 byte
/// length is the byte length of `s` and hence fits in `usize`.
pub fn str_to_chars(s: &str) -> (v: Vec<char>)
    ensures
        v@ == s@,
        text_bytes(v@) <= usize::MAX,
{
    proof {
        broadcast use vstd::string::group_string_axioms;
        broadcast use vstd::slice::axiom_spec_len;

        lemma_text_bytes_is_utf8_len(s@);
    }
    // The byte slice's length is a `usize` equal to the UTF-8 length of
    // `s`, which bounds the byte measure.
    let bytes = s.as_bytes();
    let nb = bytes.len();
    proof {
        assert(nb == vstd::utf8::encode_utf8(s@).len());
        assert(text_bytes(s@) <= usize::MAX);
    }
    let n = s.unicode_len();
    let mut v: Vec<char> = Vec::new();
    let mut i: usize = 0;
    while i < n
        invariant
            n == s@.len(),
            i <= n,
            v@ == s@.subrange(0, i as int),
        decreases n - i,
    {
        v.push(s.get_char(i));
        i = i + 1;
        proof {
            assert(v@ =~= s@.subrange(0, i as int));
        }
    }
    proof {
        assert(v@ =~= s@);
    }
    v
}

} // verus!
