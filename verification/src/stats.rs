//! Text statistics: character, byte, line and script counts, total display
//! width, and the fixed-shape JSON report built from them.

use vstd::prelude::*;
use vstd::string::{StrSliceExecFns, StringExecFns};

use crate::chars::{blen, str_byte_len};
use crate::classify::{
    calculate_text_width, display_width, has_cjk, is_cjk, is_cjk_char, spec_is_cjk_char,
};
use crate::justify::{split_nl, split_nl_rec};

verus! {

/// How many characters of the sequence are CJK.
pub open spec fn cjk_count(s: Seq<char>) -> int
    decreases s.len(),
{
    if s.len() == 0 {
        0
    } else {
        cjk_count(s.drop_last()) + if spec_is_cjk_char(s.last()) {
            1int
        } else {
            0int
        }
    }
}

/// How many characters of the sequence lie in the Latin-1 range (up to
/// U+00FF).
pub open spec fn ascii_count(s: Seq<char>) -> int
    decreases s.len(),
{
    if s.len() == 0 {
        0
    } else {
        ascii_count(s.drop_last()) + if s.last() as u32 <= 0xFF {
            1int
        } else {
            0int
        }
    }
}

/// How many `'\n'` characters the sequence holds.
pub open spec fn nl_count(s: Seq<char>) -> int
    decreases s.len(),
{
    if s.len() == 0 {
        0
    } else {
        (if s[0] == '\n' {
            1int
        } else {
            0int
        }) + nl_count(s.drop_first())
    }
}

/// The number of logical lines is the number of terminators plus one.
pub proof fn lemma_split_nl_len(s: Seq<char>, cur: Seq<char>)
    ensures
        split_nl_rec(s, cur).len() == nl_count(s) + 1,
    decreases s.len(),
{
    if s.len() == 0 {
    } else if s[0] == '\n' {
        lemma_split_nl_len(s.drop_first(), Seq::empty());
    } else {
        lemma_split_nl_len(s.drop_first(), cur.push(s[0]));
    }
}

/// The CJK count lies between zero and the sequence's length.
pub proof fn lemma_cjk_count_bounds(s: Seq<char>)
    ensures
        0 <= cjk_count(s) <= s.len(),
    decreases s.len(),
{
    if s.len() > 0 {
        lemma_cjk_count_bounds(s.drop_last());
    }
}

/// The text has a CJK character exactly when its CJK count is positive.
pub proof fn lemma_has_cjk_iff_count(s: Seq<char>)
    ensures
        has_cjk(s) <==> cjk_count(s) > 0,
    decreases s.len(),
{
    if s.len() == 0 {
        assert(!has_cjk(s));
    } else {
        lemma_has_cjk_iff_count(s.drop_last());
        lemma_cjk_count_bounds(s.drop_last());
        if spec_is_cjk_char(s.last()) {
            assert(spec_is_cjk_char(s[s.len() - 1]));
            assert(has_cjk(s));
        } else {
            if has_cjk(s) {
                let i = choose|i: int| 0 <= i < s.len() && spec_is_cjk_char(s[i]);
                assert(i < s.len() - 1);
                assert(s.drop_last()[i] == s[i]);
                assert(has_cjk(s.drop_last()));
            }
            if cjk_count(s) > 0 {
                assert(cjk_count(s.drop_last()) > 0);
                let j = choose|j: int|
                    0 <= j < s.drop_last().len() && spec_is_cjk_char(s.drop_last()[j]);
                assert(s[j] == s.drop_last()[j]);
                assert(has_cjk(s));
            }
        }
    }
}

/// A read-only snapshot of one text's statistics.
#[derive(Clone, Copy, PartialEq, Eq, Structural, Debug)]
pub struct TextStats {
    /// Number of characters (Unicode scalar values).
    pub char_count: usize,
    /// Length in bytes of the UTF-8 encoding.
    pub byte_count: usize,
    /// Number of logical lines: `'\n'` terminators plus one.
    pub line_count: usize,
    /// Number of CJK characters.
    pub cjk_count: usize,
    /// Number of characters in the Latin-1 range.
    pub ascii_count: usize,
    /// Sum of display widths over all characters.
    pub display_width: u32,
    /// Whether any character is CJK.
    pub has_cjk: bool,
}

/// Computes every statistic of the text in a bounded number of passes.
pub fn compute_text_stats(text: &str) -> (st: TextStats)
    requires
        text@.len() <= 0x7FFF_FFFF,
    ensures
        st.char_count == text@.len(),
        st.byte_count == blen(text@),
        st.line_count == split_nl(text@).len(),
        st.cjk_count == cjk_count(text@),
        st.ascii_count == ascii_count(text@),
        st.display_width == display_width(text@),
        st.has_cjk == has_cjk(text@),
{
    let n = text.unicode_len();
    let mut i: usize = 0;
    let mut cjkc: usize = 0;
    let mut asc: usize = 0;
    let mut nls: usize = 0;
    proof {
        assert(text@.take(0) =~= Seq::<char>::empty());
        assert(text@.skip(0) =~= text@);
    }
    while i < n
        invariant
            i <= n,
            n == text@.len(),
            cjkc <= i,
            asc <= i,
            nls <= i,
            cjkc == cjk_count(text@.take(i as int)),
            asc == ascii_count(text@.take(i as int)),
            nl_count(text@) == nls + nl_count(text@.skip(i as int)),
        decreases n - i,
    {
        let c = text.get_char(i);
        proof {
            assert(text@.take(i as int + 1).drop_last() =~= text@.take(i as int));
            assert(text@.take(i as int + 1).last() == text@[i as int]);
            assert(text@.skip(i as int)[0] == text@[i as int]);
            assert(text@.skip(i as int).drop_first() =~= text@.skip(i as int + 1));
        }
        if is_cjk_char(c) {
            cjkc = cjkc + 1;
        }
        if c as u32 <= 0xFF {
            asc = asc + 1;
        }
        if c == '\n' {
            nls = nls + 1;
        }
        i = i + 1;
    }
    proof {
        assert(text@.take(n as int) =~= text@);
        assert(text@.skip(n as int) =~= Seq::<char>::empty());
        lemma_split_nl_len(text@, Seq::empty());
    }
    TextStats {
        char_count: n,
        byte_count: str_byte_len(text),
        line_count: nls + 1,
        cjk_count: cjkc,
        ascii_count: asc,
        display_width: calculate_text_width(text),
        has_cjk: is_cjk(text),
    }
}

/// The decimal digit character for a value below ten.
pub open spec fn dec_digit(d: int) -> char {
    if d == 0 {
        '0'
    } else if d == 1 {
        '1'
    } else if d == 2 {
        '2'
    } else if d == 3 {
        '3'
    } else if d == 4 {
        '4'
    } else if d == 5 {
        '5'
    } else if d == 6 {
        '6'
    } else if d == 7 {
        '7'
    } else if d == 8 {
        '8'
    } else {
        '9'
    }
}

/// The decimal representation of a non-negative number, most significant
/// digit first, without leading zeroes (except for zero itself).
pub open spec fn dec_str(n: int) -> Seq<char>
    recommends
        n >= 0,
    decreases n,
{
    if n < 10 {
        seq![dec_digit(n)]
    } else {
        dec_str(n / 10).push(dec_digit(n % 10))
    }
}

/// The one-character string for a decimal digit.
fn digit_str(d: u64) -> (r: &'static str)
    requires
        d < 10,
    ensures
        r@ == seq![dec_digit(d as int)],
{
    let r: &'static str = if d == 0 {
        "0"
    } else if d == 1 {
        "1"
    } else if d == 2 {
        "2"
    } else if d == 3 {
        "3"
    } else if d == 4 {
        "4"
    } else if d == 5 {
        "5"
    } else if d == 6 {
        "6"
    } else if d == 7 {
        "7"
    } else if d == 8 {
        "8"
    } else {
        "9"
    };
    proof {
        reveal_strlit("0");
        reveal_strlit("1");
        reveal_strlit("2");
        reveal_strlit("3");
        reveal_strlit("4");
        reveal_strlit("5");
        reveal_strlit("6");
        reveal_strlit("7");
        reveal_strlit("8");
        reveal_strlit("9");
        assert(r@ =~= seq![dec_digit(d as int)]);
    }
    r
}

/// The number in decimal notation.
pub fn dec_of(n: u64) -> (s: String)
    ensures
        s@ == dec_str(n as int),
    decreases n,
{
    if n < 10 {
        String::from_str(digit_str(n))
    } else {
        let mut s = dec_of(n / 10);
        s.append(digit_str(n % 10));
        proof {
            assert(dec_str((n / 10) as int) + seq![dec_digit((n % 10) as int)] =~= dec_str(
                (n / 10) as int,
            ).push(dec_digit((n % 10) as int)));
        }
        s
    }
}

/// The fixed-shape JSON report of the text's statistics.
pub open spec fn stats_json(s: Seq<char>) -> Seq<char> {
    "{\"charCount\":"@ + dec_str(s.len() as int) + ",\"byteCount\":"@ + dec_str(blen(s))
        + ",\"lineCount\":"@ + dec_str(split_nl(s).len() as int) + ",\"cjkCount\":"@ + dec_str(
        cjk_count(s),
    ) + ",\"asciiCount\":"@ + dec_str(ascii_count(s)) + ",\"displayWidth\":"@ + dec_str(
        display_width(s),
    ) + ",\"hasCjk\":"@ + (if has_cjk(s) {
        "true"@
    } else {
        "false"@
    }) + "}"@
}

/// The text's statistics as a fixed-shape JSON object.
pub fn get_text_stats(text: &str) -> (r: String)
    requires
        text@.len() <= 0x7FFF_FFFF,
    ensures
        r@ == stats_json(text@),
{
    let st = compute_text_stats(text);
    let mut r = String::from_str("{\"charCount\":");
    r.append(dec_of(st.char_count as u64).as_str());
    r.append(",\"byteCount\":");
    r.append(dec_of(st.byte_count as u64).as_str());
    r.append(",\"lineCount\":");
    r.append(dec_of(st.line_count as u64).as_str());
    r.append(",\"cjkCount\":");
    r.append(dec_of(st.cjk_count as u64).as_str());
    r.append(",\"asciiCount\":");
    r.append(dec_of(st.ascii_count as u64).as_str());
    r.append(",\"displayWidth\":");
    r.append(dec_of(st.display_width as u64).as_str());
    r.append(",\"hasCjk\":");
    if st.has_cjk {
        r.append("true");
    } else {
        r.append("false");
    }
    r.append("}");
    r
}

} // verus!
