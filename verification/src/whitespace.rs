//! Unicode whitespace over raw bytes, as the byte-string helpers compute
//! it: text is decoded as UTF-8, a character counts as whitespace exactly
//! when it has the Unicode `White_Space` property, and invalid sequences
//! decode to the replacement character, which is not whitespace.  Every
//! `White_Space` character's UTF-8 encoding begins with an ASCII byte or
//! a lead byte — never a continuation byte — so matching the encodings
//! byte for byte, greedily from the left, lands exactly on the decoder's
//! character boundaries.

use vstd::prelude::*;

verus! {

/// The length of the leading `White_Space` character's UTF-8 encoding,
/// or 0 when the text does not begin with one.  The encodings are:
/// tab through carriage return and space (one byte); next line U+0085 and
/// no-break space U+00A0 (two bytes, lead 0xC2); ogham space mark U+1680,
/// the U+2000..U+200A spaces, line separator U+2028, paragraph separator
/// U+2029, narrow no-break space U+202F, medium mathematical space
/// U+205F, and ideographic space U+3000 (three bytes).
pub open spec fn ws_char_len(s: Seq<u8>) -> int {
    if s.len() >= 1 && (9 <= s[0] <= 13 || s[0] == 32) {
        1
    } else if s.len() >= 2 && s[0] == 0xC2 && (s[1] == 0x85 || s[1] == 0xA0) {
        2
    } else if s.len() >= 3 && s[0] == 0xE1 && s[1] == 0x9A && s[2] == 0x80 {
        3
    } else if s.len() >= 3 && s[0] == 0xE2 && s[1] == 0x80 && (0x80 <= s[2] <= 0x8A || s[2]
        == 0xA8 || s[2] == 0xA9 || s[2] == 0xAF) {
        3
    } else if s.len() >= 3 && s[0] == 0xE2 && s[1] == 0x81 && s[2] == 0x9F {
        3
    } else if s.len() >= 3 && s[0] == 0xE3 && s[1] == 0x80 && s[2] == 0x80 {
        3
    } else {
        0
    }
}

/// Blank text: nothing but `White_Space` characters (so in particular
/// valid UTF-8).  Empty text is blank.
pub open spec fn is_blank_spec(s: Seq<u8>) -> bool
    decreases s.len(),
{
    if s.len() == 0 {
        true
    } else {
        let k = ws_char_len(s);
        if 1 <= k <= s.len() {
            is_blank_spec(s.skip(k))
        } else {
            false
        }
    }
}

/// The leading whitespace character's encoded length at offset `i`.
pub(crate) fn ws_len_at(s: &[u8], i: usize) -> (k: usize)
    requires
        i <= s@.len(),
    ensures
        k == ws_char_len(s@.skip(i as int)),
        i + k <= s@.len(),
{
    let ghost t = s@.skip(i as int);
    proof {
        assert(forall|m: int| 0 <= m < t.len() ==> #[trigger] t[m] == s@[i + m]);
    }
    let n = s.len();
    if i < n && (9 <= s[i] && s[i] <= 13 || s[i] == 32) {
        1
    } else if n - i >= 2 && s[i] == 0xC2 && (s[i + 1] == 0x85 || s[i + 1] == 0xA0) {
        2
    } else if n - i >= 3 && s[i] == 0xE1 && s[i + 1] == 0x9A && s[i + 2] == 0x80 {
        3
    } else if n - i >= 3 && s[i] == 0xE2 && s[i + 1] == 0x80 && (0x80 <= s[i + 2] && s[i + 2]
        <= 0x8A || s[i + 2] == 0xA8 || s[i + 2] == 0xA9 || s[i + 2] == 0xAF) {
        3
    } else if n - i >= 3 && s[i] == 0xE2 && s[i + 1] == 0x81 && s[i + 2] == 0x9F {
        3
    } else if n - i >= 3 && s[i] == 0xE3 && s[i + 1] == 0x80 && s[i + 2] == 0x80 {
        3
    } else {
        0
    }
}

/// Blank text: nothing but Unicode whitespace.
pub fn is_blank(s: &[u8]) -> (r: bool)
    ensures
        r == is_blank_spec(s@),
{
    let mut pos: usize = 0;
    proof {
        assert(s@.skip(0) =~= s@);
    }
    while pos < s.len()
        invariant
            0 <= pos <= s@.len(),
            is_blank_spec(s@) == is_blank_spec(s@.skip(pos as int)),
        decreases s@.len() - pos,
    {
        let k = ws_len_at(s, pos);
        if k == 0 {
            proof {
                assert(!is_blank_spec(s@.skip(pos as int)));
            }
            return false;
        }
        proof {
            assert(s@.skip(pos as int).skip(k as int) =~= s@.skip(pos + k));
        }
        pos = pos + k;
    }
    proof {
        assert(s@.skip(pos as int) =~= Seq::<u8>::empty());
    }
    true
}

/// How many bytes the leading word covers: everything up to the first
/// position where a whitespace character begins, which is a character
/// boundary since no whitespace encoding starts with a continuation byte.
pub open spec fn word_len(s: Seq<u8>) -> int
    decreases s.len(),
{
    if s.len() == 0 {
        0
    } else if ws_char_len(s) > 0 {
        0
    } else {
        1 + word_len(s.skip(1))
    }
}

pub proof fn lemma_word_len(s: Seq<u8>)
    ensures
        0 <= word_len(s) <= s.len(),
        word_len(s) < s.len() ==> ws_char_len(s.skip(word_len(s))) > 0,
        forall|p: int| 0 <= p < word_len(s) ==> ws_char_len(s.skip(p)) == 0,
        s.len() > 0 && ws_char_len(s) == 0 ==> word_len(s) >= 1,
    decreases s.len(),
{
    if s.len() > 0 && ws_char_len(s) == 0 {
        lemma_word_len(s.skip(1));
        let w = word_len(s);
        assert(s.skip(1).skip(w - 1) =~= s.skip(w));
        assert forall|p: int| 0 <= p < w implies ws_char_len(s.skip(p)) == 0 by {
            if p > 0 {
                assert(s.skip(1).skip(p - 1) =~= s.skip(p));
            }
        }
        if w < s.len() {
            assert(ws_char_len(s.skip(1).skip(w - 1)) > 0);
        }
    }
}

} // verus!
