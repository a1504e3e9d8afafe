//! The justifier: splits input into logical lines, trims each, detects the
//! script per line, dispatches to the matching line breaker, and joins every
//! produced line with the canonical CRLF terminator. Also the input
//! validation rule callers are expected to apply before wrapping.

use vstd::prelude::*;
use vstd::string::{StrSliceExecFns, StringExecFns};

use crate::chars::{is_ws_char, is_whitespace_char, join_crlf, join_lines};
use crate::classify::{has_cjk, is_cjk};
use crate::wrap::{
    cjk_wrap_lines, justify_text_cjk, justify_text_english, split_ws, word_wrap_lines,
};

verus! {

/// The logical lines of `s`: maximal runs between `'\n'` characters, with
/// `cur` the run accumulated so far. Empty runs are kept.
pub open spec fn split_nl_rec(s: Seq<char>, cur: Seq<char>) -> Seq<Seq<char>>
    decreases s.len(),
{
    if s.len() == 0 {
        seq![cur]
    } else if s[0] == '\n' {
        seq![cur] + split_nl_rec(s.drop_first(), Seq::empty())
    } else {
        split_nl_rec(s.drop_first(), cur.push(s[0]))
    }
}

/// The logical lines of `s`, split on `'\n'`.
pub open spec fn split_nl(s: Seq<char>) -> Seq<Seq<char>> {
    split_nl_rec(s, Seq::empty())
}

/// `s` without leading whitespace.
pub open spec fn trim_start(s: Seq<char>) -> Seq<char>
    decreases s.len(),
{
    if s.len() > 0 && is_ws_char(s[0]) {
        trim_start(s.drop_first())
    } else {
        s
    }
}

/// `s` without trailing whitespace.
pub open spec fn trim_end(s: Seq<char>) -> Seq<char>
    decreases s.len(),
{
    if s.len() > 0 && is_ws_char(s.last()) {
        trim_end(s.drop_last())
    } else {
        s
    }
}

/// `s` without leading and trailing whitespace.
pub open spec fn trim_spec(s: Seq<char>) -> Seq<char> {
    trim_end(trim_start(s))
}

/// What the justifier emits for one logical line: nothing for a blank line,
/// character-granular wrapping when the trimmed line holds a CJK character,
/// word-granular wrapping otherwise.
pub open spec fn line_out(l: Seq<char>, max: u32) -> Seq<char> {
    let t = trim_spec(l);
    if t.len() == 0 {
        Seq::empty()
    } else if has_cjk(t) {
        join_crlf(cjk_wrap_lines(t, max, Seq::empty()))
    } else {
        join_crlf(word_wrap_lines(split_ws(t), max, Seq::empty()))
    }
}

/// The whole justified text: every logical line's output, joined with CRLF.
pub open spec fn justify_spec(s: Seq<char>, max: u32) -> Seq<char> {
    join_crlf(split_nl(s).map_values(|l: Seq<char>| line_out(l, max)))
}

/// Dropping a fully whitespace prefix is exactly `trim_start`.
proof fn lemma_trim_start_skip(s: Seq<char>, a: int)
    requires
        0 <= a <= s.len(),
        forall|j: int| 0 <= j < a ==> is_ws_char(s[j]),
        a < s.len() ==> !is_ws_char(s[a]),
    ensures
        trim_start(s) == s.skip(a),
    decreases a,
{
    if a == 0 {
        assert(s.skip(0) =~= s);
    } else {
        assert(is_ws_char(s[0]));
        lemma_trim_start_skip(s.drop_first(), a - 1);
        assert(s.drop_first().skip(a - 1) =~= s.skip(a));
    }
}

/// Dropping a fully whitespace suffix is exactly `trim_end`.
proof fn lemma_trim_end_take(s: Seq<char>, b: int)
    requires
        0 <= b <= s.len(),
        forall|j: int| b <= j < s.len() ==> is_ws_char(s[j]),
        b > 0 ==> !is_ws_char(s[b - 1]),
    ensures
        trim_end(s) == s.take(b),
    decreases s.len(),
{
    if b == s.len() {
        assert(s.take(b) =~= s);
    } else {
        assert(is_ws_char(s.last()));
        lemma_trim_end_take(s.drop_last(), b);
        assert(s.drop_last().take(b) =~= s.take(b));
    }
}

/// The text with leading and trailing whitespace removed.
pub fn trim_str<'a>(text: &'a str) -> (t: &'a str)
    ensures
        t@ == trim_spec(text@),
{
    let n = text.unicode_len();
    let mut a: usize = 0;
    while a < n && is_whitespace_char(text.get_char(a))
        invariant
            a <= n,
            n == text@.len(),
            forall|j: int| 0 <= j < a ==> is_ws_char(text@[j]),
        decreases n - a,
    {
        a = a + 1;
    }
    let mut b: usize = n;
    while b > a && is_whitespace_char(text.get_char(b - 1))
        invariant
            a <= b <= n,
            n == text@.len(),
            forall|j: int| b <= j < n ==> is_ws_char(text@[j]),
        decreases b,
    {
        b = b - 1;
    }
    proof {
        lemma_trim_start_skip(text@, a as int);
        lemma_trim_end_take(text@.skip(a as int), b - a);
        assert(text@.skip(a as int).take(b - a) =~= text@.subrange(a as int, b as int));
    }
    text.substring_char(a, b)
}

/// The logical lines of the text, split on `'\n'`; empty lines are kept.
pub fn split_logical_lines<'a>(text: &'a str) -> (segs: Vec<&'a str>)
    ensures
        segs.deep_view() == split_nl(text@),
{
    let n = text.unicode_len();
    let mut segs: Vec<&'a str> = Vec::new();
    let mut start: usize = 0;
    let mut i: usize = 0;
    proof {
        assert(text@.skip(0) =~= text@);
        assert(text@.subrange(0, 0) =~= Seq::<char>::empty());
        assert(segs.deep_view() =~= Seq::<Seq<char>>::empty());
        assert(Seq::<Seq<char>>::empty() + split_nl(text@) =~= split_nl(text@));
    }
    while i < n
        invariant
            start <= i <= n,
            n == text@.len(),
            split_nl(text@) == segs.deep_view() + split_nl_rec(
                text@.skip(i as int),
                text@.subrange(start as int, i as int),
            ),
        decreases n - i,
    {
        let ghost rest = text@.skip(i as int);
        let ghost cur = text@.subrange(start as int, i as int);
        let c = text.get_char(i);
        proof {
            assert(rest.drop_first() =~= text@.skip(i as int + 1));
            assert(rest[0] == text@[i as int]);
        }
        if c == '\n' {
            let ghost old_segs = segs.deep_view();
            let seg = text.substring_char(start, i);
            segs.push(seg);
            proof {
                assert(seg@ == cur);
                assert(segs.deep_view() =~= old_segs.push(cur));
                assert(old_segs.push(cur) + split_nl_rec(text@.skip(i as int + 1), Seq::empty())
                    =~= old_segs + (seq![cur] + split_nl_rec(
                    text@.skip(i as int + 1),
                    Seq::empty(),
                )));
                assert(text@.subrange(i as int + 1, i as int + 1) =~= Seq::<char>::empty());
            }
            start = i + 1;
        } else {
            proof {
                assert(text@.subrange(start as int, i as int + 1) =~= cur.push(text@[i as int]));
            }
        }
        i = i + 1;
    }
    let ghost old_segs = segs.deep_view();
    let ghost cur = text@.subrange(start as int, n as int);
    let seg = text.substring_char(start, n);
    segs.push(seg);
    proof {
        assert(text@.skip(n as int) =~= Seq::<char>::empty());
        assert(segs.deep_view() =~= old_segs.push(cur));
        assert(old_segs.push(cur) =~= old_segs + seq![cur]);
    }
    segs
}

/// Justifies the text: each logical line is trimmed, blank lines stay blank,
/// lines holding a CJK character are wrapped character by character, all
/// other lines word by word, and everything is joined with CRLF.
pub fn justify_text(text: &str, max_chars_per_line: u32) -> (r: String)
    ensures
        r@ == justify_spec(text@, max_chars_per_line),
{
    let max = max_chars_per_line;
    let segs = split_logical_lines(text);
    let mut outs: Vec<String> = Vec::new();
    let mut k: usize = 0;
    let ghost mapped = split_nl(text@).map_values(|l: Seq<char>| line_out(l, max));
    proof {
        assert(outs.deep_view() =~= mapped.take(0));
    }
    while k < segs.len()
        invariant
            k <= segs@.len(),
            segs.deep_view() == split_nl(text@),
            mapped == split_nl(text@).map_values(|l: Seq<char>| line_out(l, max)),
            outs.deep_view() == mapped.take(k as int),
        decreases segs@.len() - k,
    {
        let seg = segs[k];
        let t = trim_str(seg);
        let piece: String = if t.unicode_len() == 0 {
            String::new()
        } else if is_cjk(t) {
            justify_text_cjk(t, max)
        } else {
            justify_text_english(t, max)
        };
        proof {
            assert(segs.deep_view()[k as int] == seg@);
            assert(piece@ == line_out(seg@, max));
        }
        let ghost old_outs = outs.deep_view();
        outs.push(piece);
        proof {
            assert(outs.deep_view() =~= old_outs.push(piece@));
            assert(mapped.take(k as int + 1) =~= mapped.take(k as int).push(
                mapped[k as int],
            ));
            assert(mapped[k as int] == line_out(segs.deep_view()[k as int], max));
        }
        k = k + 1;
    }
    proof {
        assert(mapped.take(segs@.len() as int) =~= mapped);
    }
    join_lines(&outs)
}

/// The validation message for the text: empty when the text is acceptable.
pub open spec fn validate_msg(s: Seq<char>) -> Seq<char> {
    if s.len() == 0 {
        "Text cannot be empty"@
    } else if s.len() > 500000 {
        "Text too large: maximum 500,000 characters supported"@
    } else {
        Seq::empty()
    }
}

/// Validates text for processing: empty input and input over 500,000
/// characters are rejected with a human-readable reason; anything else gets
/// the empty string.
pub fn validate_text_input(text: &str) -> (r: String)
    ensures
        r@ == validate_msg(text@),
{
    let n = text.unicode_len();
    if n == 0 {
        String::from_str("Text cannot be empty")
    } else if n > 500000 {
        String::from_str("Text too large: maximum 500,000 characters supported")
    } else {
        String::new()
    }
}

} // verus!
