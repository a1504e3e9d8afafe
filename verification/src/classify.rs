//! Character classification: which code points count as CJK, and how many
//! width units each code point occupies on a fixed-width display.

use vstd::prelude::*;
use vstd::string::StrSliceExecFns;

verus! {

/// A code point is CJK when it lies in one of five fixed inclusive ranges:
/// Han (U+4E00..U+9FFF), Hiragana (U+3040..U+309F), Katakana (U+30A0..U+30FF),
/// CJK Extension A (U+3400..U+4DBF), or CJK Extension B (U+20000..U+2A6DF).
pub open spec fn spec_is_cjk_char(c: char) -> bool {
    let u = c as u32;
    (0x4E00 <= u && u <= 0x9FFF) || (0x3040 <= u && u <= 0x309F) || (0x30A0 <= u && u
        <= 0x30FF) || (0x3400 <= u && u <= 0x4DBF) || (0x20000 <= u && u <= 0x2A6DF)
}

/// Display width of a single code point: 1 for the Latin-1 range (up to
/// U+00FF), 2 for everything above it. Deliberately coarser than
/// [`spec_is_cjk_char`]: every non-Latin-1 code point is laid out as wide.
pub open spec fn spec_char_width(c: char) -> u32 {
    if c as u32 <= 0xFF {
        1
    } else {
        2
    }
}

/// Sum of display widths over a character sequence.
pub open spec fn display_width(s: Seq<char>) -> int
    decreases s.len(),
{
    if s.len() == 0 {
        0
    } else {
        display_width(s.drop_last()) + spec_char_width(s.last())
    }
}

/// Whether any character of the sequence is CJK.
pub open spec fn has_cjk(s: Seq<char>) -> bool {
    exists|i: int| 0 <= i < s.len() && spec_is_cjk_char(s[i])
}

/// The display width of a sequence is between its length and twice its length.
pub proof fn lemma_display_width_bounds(s: Seq<char>)
    ensures
        s.len() <= display_width(s) <= 2 * s.len(),
    decreases s.len(),
{
    if s.len() > 0 {
        lemma_display_width_bounds(s.drop_last());
    }
}

/// True exactly for the code points in the five CJK ranges.
pub fn is_cjk_char(c: char) -> (r: bool)
    ensures
        r == spec_is_cjk_char(c),
{
    let u = c as u32;
    (u >= 0x4E00 && u <= 0x9FFF) || (u >= 0x3040 && u <= 0x309F) || (u >= 0x30A0 && u
        <= 0x30FF) || (u >= 0x3400 && u <= 0x4DBF) || (u >= 0x20000 && u <= 0x2A6DF)
}

/// Width units the code point occupies: 1 up to U+00FF, else 2.
pub fn get_char_width(c: char) -> (r: u32)
    ensures
        r == spec_char_width(c),
{
    if c as u32 <= 0xFF {
        1
    } else {
        2
    }
}

/// Whether the text contains any CJK character; stops at the first match.
pub fn is_cjk(text: &str) -> (r: bool)
    ensures
        r == has_cjk(text@),
{
    let n = text.unicode_len();
    let mut i: usize = 0;
    while i < n
        invariant
            i <= n,
            n == text@.len(),
            forall|j: int| 0 <= j < i ==> !spec_is_cjk_char(text@[j]),
        decreases n - i,
    {
        if is_cjk_char(text.get_char(i)) {
            assert(spec_is_cjk_char(text@[i as int]));
            return true;
        }
        i = i + 1;
    }
    false
}

/// Total display width of the text: the sum of [`spec_char_width`] over its
/// characters.
pub fn calculate_text_width(text: &str) -> (r: u32)
    requires
        text@.len() <= 0x7FFF_FFFF,
    ensures
        r == display_width(text@),
{
    let n = text.unicode_len();
    let mut i: usize = 0;
    let mut total: u32 = 0;
    while i < n
        invariant
            i <= n,
            n == text@.len(),
            n <= 0x7FFF_FFFF,
            total == display_width(text@.take(i as int)),
        decreases n - i,
    {
        let c = text.get_char(i);
        proof {
            lemma_display_width_bounds(text@.take(i as int));
            assert(text@.take(i as int + 1).drop_last() =~= text@.take(i as int));
            assert(text@.take(i as int + 1).last() == text@[i as int]);
        }
        total = total + get_char_width(c);
        i = i + 1;
    }
    proof {
        assert(text@.take(n as int) =~= text@);
    }
    total
}

} // verus!
