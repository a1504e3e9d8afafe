//! The two line-breaking algorithms: character-granular wrapping for lines
//! holding CJK text, and word-granular wrapping for everything else. Both are
//! greedy single passes that never split what they treat as atomic (one
//! character, or one whitespace-delimited word).

use vstd::prelude::*;
use vstd::string::{StrSliceExecFns, StringExecFns};

use crate::chars::{
    blen, is_ws_char, is_whitespace_char, join_crlf, join_lines, lemma_blen_bounds,
    lemma_encode_utf8_concat, str_byte_len,
};
use crate::classify::{display_width, get_char_width, spec_char_width};

verus! {

/// The lines of character-granular wrapping of `s` under width budget `max`,
/// with `cur` the line accumulated so far. A terminator closes the current
/// line, and a CRLF pair counts as one terminator, so terminators already in
/// the input are normalized, never duplicated; a character that would push
/// the line past the budget closes it and opens a new line with that
/// character; anything else is appended.
pub open spec fn cjk_wrap_lines(s: Seq<char>, max: u32, cur: Seq<char>) -> Seq<Seq<char>>
    decreases s.len(),
{
    if s.len() == 0 {
        seq![cur]
    } else {
        let c = s[0];
        if c == '\r' || c == '\n' {
            let rest = if c == '\r' && s.len() >= 2 && s[1] == '\n' {
                s.skip(2)
            } else {
                s.drop_first()
            };
            seq![cur] + cjk_wrap_lines(rest, max, Seq::empty())
        } else if display_width(cur) + spec_char_width(c) > max {
            seq![cur] + cjk_wrap_lines(s.drop_first(), max, seq![c])
        } else {
            cjk_wrap_lines(s.drop_first(), max, cur.push(c))
        }
    }
}

/// The whitespace-delimited words of `s`, with `cur` the word accumulated so
/// far: runs of whitespace separate words, and empty words are dropped.
pub open spec fn split_ws_rec(s: Seq<char>, cur: Seq<char>) -> Seq<Seq<char>>
    decreases s.len(),
{
    if s.len() == 0 {
        if cur.len() == 0 {
            seq![]
        } else {
            seq![cur]
        }
    } else if is_ws_char(s[0]) {
        (if cur.len() == 0 {
            seq![]
        } else {
            seq![cur]
        }) + split_ws_rec(s.drop_first(), Seq::empty())
    } else {
        split_ws_rec(s.drop_first(), cur.push(s[0]))
    }
}

/// The whitespace-delimited words of `s`.
pub open spec fn split_ws(s: Seq<char>) -> Seq<Seq<char>> {
    split_ws_rec(s, Seq::empty())
}

/// The lines of word-granular wrapping of the words `ws` under byte budget
/// `max`, with `cur` the line accumulated so far. A word that fits (with a
/// separating space when the line is not empty) is appended; otherwise the
/// line is flushed and the word opens the next line, however long it is.
pub open spec fn word_wrap_lines(ws: Seq<Seq<char>>, max: u32, cur: Seq<char>) -> Seq<Seq<char>>
    decreases ws.len(),
{
    if ws.len() == 0 {
        if cur.len() == 0 {
            seq![]
        } else {
            seq![cur]
        }
    } else {
        let w = ws[0];
        let sep: int = if cur.len() == 0 {
            0
        } else {
            1
        };
        if blen(cur) + sep + blen(w) <= max {
            word_wrap_lines(
                ws.drop_first(),
                max,
                if cur.len() == 0 {
                    w
                } else {
                    cur + seq![' '] + w
                },
            )
        } else if cur.len() == 0 {
            word_wrap_lines(ws.drop_first(), max, w)
        } else {
            seq![cur] + word_wrap_lines(ws.drop_first(), max, w)
        }
    }
}

/// A word: non-empty and free of whitespace.
pub open spec fn is_word(w: Seq<char>) -> bool {
    w.len() > 0 && forall|i: int| 0 <= i < w.len() ==> !is_ws_char(w[i])
}

/// Whether the line holds a space; a wrapped line holds one exactly when it
/// holds two or more words.
pub open spec fn has_space(l: Seq<char>) -> bool {
    exists|i: int| 0 <= i < l.len() && l[i] == ' '
}

proof fn lemma_cjk_lines_budget_rec(s: Seq<char>, max: u32, cur: Seq<char>)
    requires
        cur.len() >= 2 ==> display_width(cur) <= max,
    ensures
        forall|k: int|
            0 <= k < cjk_wrap_lines(s, max, cur).len() ==> ((#[trigger] cjk_wrap_lines(
                s,
                max,
                cur,
            )[k]).len() >= 2 ==> display_width(cjk_wrap_lines(s, max, cur)[k]) <= max),
    decreases s.len(),
{
    if s.len() == 0 {
        assert(cjk_wrap_lines(s, max, cur)[0] == cur);
    } else {
        let c = s[0];
        let all = cjk_wrap_lines(s, max, cur);
        if c == '\r' || c == '\n' {
            let rest_s: Seq<char> = if c == '\r' && s.len() >= 2 && s[1] == '\n' {
                s.skip(2)
            } else {
                s.drop_first()
            };
            lemma_cjk_lines_budget_rec(rest_s, max, Seq::empty());
            let rest = cjk_wrap_lines(rest_s, max, Seq::empty());
            assert forall|k: int|
                0 <= k < all.len() && (#[trigger] all[k]).len() >= 2 implies display_width(
                all[k],
            ) <= max by {
                if k == 0 {
                    assert(all[0] == cur);
                } else {
                    assert(all[k] == rest[k - 1]);
                }
            }
        } else if display_width(cur) + spec_char_width(c) > max {
            lemma_cjk_lines_budget_rec(s.drop_first(), max, seq![c]);
            let rest = cjk_wrap_lines(s.drop_first(), max, seq![c]);
            assert forall|k: int|
                0 <= k < all.len() && (#[trigger] all[k]).len() >= 2 implies display_width(
                all[k],
            ) <= max by {
                if k == 0 {
                    assert(all[0] == cur);
                } else {
                    assert(all[k] == rest[k - 1]);
                }
            }
        } else {
            assert(cur.push(c).drop_last() =~= cur);
            assert(display_width(cur.push(c)) == display_width(cur) + spec_char_width(c));
            lemma_cjk_lines_budget_rec(s.drop_first(), max, cur.push(c));
            let rest = cjk_wrap_lines(s.drop_first(), max, cur.push(c));
            assert forall|k: int|
                0 <= k < all.len() && (#[trigger] all[k]).len() >= 2 implies display_width(
                all[k],
            ) <= max by {
                assert(all[k] == rest[k]);
            }
        }
    }
}

/// Law: every line of character-granular wrapping that holds at least two
/// characters has total display width within the budget; only a line made of
/// one oversized unit may exceed it.
pub proof fn lemma_cjk_wrap_within_budget(s: Seq<char>, max: u32)
    ensures
        forall|k: int|
            0 <= k < cjk_wrap_lines(s, max, Seq::empty()).len() ==> ((#[trigger] cjk_wrap_lines(
                s,
                max,
                Seq::empty(),
            )[k]).len() >= 2 ==> display_width(cjk_wrap_lines(s, max, Seq::empty())[k]) <= max),
{
    lemma_cjk_lines_budget_rec(s, max, Seq::empty());
}

/// Every word the splitter yields is non-empty and free of whitespace.
pub proof fn lemma_split_ws_words(s: Seq<char>, cur: Seq<char>)
    requires
        forall|i: int| 0 <= i < cur.len() ==> !is_ws_char(cur[i]),
    ensures
        forall|k: int|
            0 <= k < split_ws_rec(s, cur).len() ==> is_word(#[trigger] split_ws_rec(s, cur)[k]),
    decreases s.len(),
{
    let all = split_ws_rec(s, cur);
    if s.len() == 0 {
        if cur.len() > 0 {
            assert(all[0] == cur);
        }
    } else if is_ws_char(s[0]) {
        lemma_split_ws_words(s.drop_first(), Seq::empty());
        let rest = split_ws_rec(s.drop_first(), Seq::empty());
        let head: Seq<Seq<char>> = if cur.len() == 0 {
            seq![]
        } else {
            seq![cur]
        };
        assert forall|k: int| 0 <= k < all.len() implies is_word(#[trigger] all[k]) by {
            if k < head.len() {
                assert(all[k] == cur);
            } else {
                assert(all[k] == rest[k - head.len()]);
            }
        }
    } else {
        assert forall|i: int| 0 <= i < cur.push(s[0]).len() implies !is_ws_char(
            cur.push(s[0])[i],
        ) by {
            if i < cur.len() {
                assert(cur.push(s[0])[i] == cur[i]);
            }
        }
        lemma_split_ws_words(s.drop_first(), cur.push(s[0]));
        let rest = split_ws_rec(s.drop_first(), cur.push(s[0]));
        assert forall|k: int| 0 <= k < all.len() implies is_word(#[trigger] all[k]) by {
            assert(all[k] == rest[k]);
        }
    }
}

/// A space is one byte.
proof fn lemma_space_blen()
    ensures
        blen(seq![' ']) == 1,
{
    assert(seq![' '].drop_first() =~= Seq::<char>::empty());
    assert(vstd::utf8::encode_utf8(seq![' ']) == vstd::utf8::encode_scalar(' ' as u32)
        + vstd::utf8::encode_utf8(Seq::<char>::empty()));
    assert(vstd::utf8::encode_scalar(' ' as u32).len() == 1);
    assert(vstd::utf8::encode_utf8(seq![' ']).len() == 1);
}

proof fn lemma_word_wrap_budget_rec(ws: Seq<Seq<char>>, max: u32, cur: Seq<char>)
    requires
        forall|k: int| 0 <= k < ws.len() ==> is_word(#[trigger] ws[k]),
        cur.len() == 0 || blen(cur) <= max || !has_space(cur),
    ensures
        forall|k: int|
            0 <= k < word_wrap_lines(ws, max, cur).len() ==> (has_space(
                #[trigger] word_wrap_lines(ws, max, cur)[k],
            ) ==> blen(word_wrap_lines(ws, max, cur)[k]) <= max),
    decreases ws.len(),
{
    let all = word_wrap_lines(ws, max, cur);
    if ws.len() == 0 {
        if cur.len() > 0 {
            assert(all[0] == cur);
        }
    } else {
        let w = ws[0];
        assert(is_word(w));
        assert(!has_space(w)) by {
            if has_space(w) {
                let i = choose|i: int| 0 <= i < w.len() && w[i] == ' ';
                assert(is_ws_char(' '));
                assert(!is_ws_char(w[i]));
            }
        }
        assert(forall|k: int| 0 <= k < ws.drop_first().len() ==> is_word(
            #[trigger] ws.drop_first()[k],
        )) by {
            assert(forall|k: int|
                0 <= k < ws.drop_first().len() ==> ws.drop_first()[k] == ws[k + 1]);
        }
        let sep: int = if cur.len() == 0 {
            0
        } else {
            1
        };
        if blen(cur) + sep + blen(w) <= max {
            let joined: Seq<char> = if cur.len() == 0 {
                w
            } else {
                cur + seq![' '] + w
            };
            assert(blen(joined) <= max) by {
                if cur.len() == 0 {
                } else {
                    lemma_encode_utf8_concat(cur + seq![' '], w);
                    lemma_encode_utf8_concat(cur, seq![' ']);
                    lemma_space_blen();
                }
            }
            lemma_word_wrap_budget_rec(ws.drop_first(), max, joined);
            let rest = word_wrap_lines(ws.drop_first(), max, joined);
            assert forall|k: int| 0 <= k < all.len() && has_space(#[trigger] all[k]) implies blen(
                all[k],
            ) <= max by {
                assert(all[k] == rest[k]);
            }
        } else if cur.len() == 0 {
            lemma_word_wrap_budget_rec(ws.drop_first(), max, w);
            let rest = word_wrap_lines(ws.drop_first(), max, w);
            assert forall|k: int| 0 <= k < all.len() && has_space(#[trigger] all[k]) implies blen(
                all[k],
            ) <= max by {
                assert(all[k] == rest[k]);
            }
        } else {
            lemma_word_wrap_budget_rec(ws.drop_first(), max, w);
            let rest = word_wrap_lines(ws.drop_first(), max, w);
            assert forall|k: int| 0 <= k < all.len() && has_space(#[trigger] all[k]) implies blen(
                all[k],
            ) <= max by {
                if k == 0 {
                    assert(all[0] == cur);
                } else {
                    assert(all[k] == rest[k - 1]);
                }
            }
        }
    }
}

/// Law: every line of word-granular wrapping that holds two or more words
/// (and so a separating space) has byte length within the budget; only a
/// line holding a single oversized word may exceed it.
pub proof fn lemma_word_wrap_within_budget(s: Seq<char>, max: u32)
    ensures
        forall|k: int|
            0 <= k < word_wrap_lines(split_ws(s), max, Seq::empty()).len() ==> (has_space(
                #[trigger] word_wrap_lines(split_ws(s), max, Seq::empty())[k],
            ) ==> blen(word_wrap_lines(split_ws(s), max, Seq::empty())[k]) <= max),
{
    lemma_split_ws_words(s, Seq::empty());
    lemma_word_wrap_budget_rec(split_ws(s), max, Seq::empty());
}

/// Character-granular wrapping: greedy, one pass, each character placed once.
/// Existing line terminators reset the line and reappear as canonical CRLF.
pub fn justify_text_cjk(text: &str, max_chars_per_line: u32) -> (r: String)
    ensures
        r@ == join_crlf(cjk_wrap_lines(text@, max_chars_per_line, Seq::empty())),
{
    let max = max_chars_per_line;
    let n = text.unicode_len();
    let mut lines: Vec<String> = Vec::new();
    let mut cur = String::new();
    let mut curw: u64 = 0;
    let mut i: usize = 0;
    proof {
        assert(text@.skip(0) =~= text@);
        assert(lines.deep_view() =~= Seq::<Seq<char>>::empty());
        assert(Seq::<Seq<char>>::empty() + cjk_wrap_lines(text@, max, Seq::empty())
            =~= cjk_wrap_lines(text@, max, Seq::empty()));
        assert(cur@ =~= Seq::<char>::empty());
    }
    while i < n
        invariant
            i <= n,
            n == text@.len(),
            curw == display_width(cur@),
            curw <= 0xFFFF_FFFFu64,
            cjk_wrap_lines(text@, max, Seq::empty()) == lines.deep_view() + cjk_wrap_lines(
                text@.skip(i as int),
                max,
                cur@,
            ),
        decreases n - i,
    {
        let ghost rest = text@.skip(i as int);
        let c = text.get_char(i);
        proof {
            assert(rest.drop_first() =~= text@.skip(i as int + 1));
            assert(rest[0] == text@[i as int]);
        }
        if c == '\r' || c == '\n' {
            // A CRLF pair is one terminator; any lone terminator counts once.
            let pair = c == '\r' && i + 1 < n && text.get_char(i + 1) == '\n';
            let step: usize = if pair {
                2
            } else {
                1
            };
            let ghost old_lines = lines.deep_view();
            let ghost old_cur = cur@;
            lines.push(cur);
            cur = String::new();
            curw = 0;
            proof {
                if pair {
                    assert(rest.len() >= 2);
                    assert(rest[1] == text@[i as int + 1]);
                    assert(rest.skip(2) =~= text@.skip(i as int + 2));
                } else {
                    if c == '\r' && i + 1 < n {
                        assert(rest[1] == text@[i as int + 1]);
                    }
                }
                assert(lines.deep_view() =~= old_lines.push(old_cur));
                assert(old_lines.push(old_cur) + cjk_wrap_lines(
                    text@.skip(i as int + step as int),
                    max,
                    cur@,
                ) =~= old_lines + (seq![old_cur] + cjk_wrap_lines(
                    text@.skip(i as int + step as int),
                    max,
                    cur@,
                )));
            }
            i = i + step;
        } else {
            let w = get_char_width(c);
            let piece = text.substring_char(i, i + 1);
            proof {
                assert(piece@ =~= seq![c]);
            }
            if curw + (w as u64) > (max as u64) {
                let ghost old_lines = lines.deep_view();
                let ghost old_cur = cur@;
                lines.push(cur);
                cur = String::new();
                cur.append(piece);
                curw = w as u64;
                proof {
                    assert(cur@ =~= seq![c]);
                    assert(display_width(seq![c]) == spec_char_width(c)) by {
                        assert(seq![c].drop_last() =~= Seq::<char>::empty());
                    }
                    assert(lines.deep_view() =~= old_lines.push(old_cur));
                    assert(old_lines.push(old_cur) + cjk_wrap_lines(
                        text@.skip(i as int + 1),
                        max,
                        seq![c],
                    ) =~= old_lines + (seq![old_cur] + cjk_wrap_lines(
                        text@.skip(i as int + 1),
                        max,
                        seq![c],
                    )));
                }
            } else {
                let ghost old_cur = cur@;
                cur.append(piece);
                curw = curw + (w as u64);
                proof {
                    assert(cur@ =~= old_cur.push(c));
                    assert(display_width(old_cur.push(c)) == display_width(old_cur)
                        + spec_char_width(c)) by {
                        assert(old_cur.push(c).drop_last() =~= old_cur);
                    }
                }
            }
            i = i + 1;
        }
    }
    proof {
        assert(text@.skip(n as int) =~= Seq::<char>::empty());
    }
    let ghost old_lines = lines.deep_view();
    let ghost old_cur = cur@;
    lines.push(cur);
    proof {
        assert(lines.deep_view() =~= old_lines.push(old_cur));
        assert(old_lines.push(old_cur) =~= old_lines + seq![old_cur]);
    }
    join_lines(&lines)
}

/// The whitespace-delimited words of the text, in order.
pub fn split_words<'a>(text: &'a str) -> (words: Vec<&'a str>)
    ensures
        words.deep_view() == split_ws(text@),
{
    let n = text.unicode_len();
    let mut words: Vec<&'a str> = Vec::new();
    let mut start: usize = 0;
    let mut i: usize = 0;
    proof {
        assert(text@.skip(0) =~= text@);
        assert(text@.subrange(0, 0) =~= Seq::<char>::empty());
        assert(words.deep_view() =~= Seq::<Seq<char>>::empty());
        assert(Seq::<Seq<char>>::empty() + split_ws(text@) =~= split_ws(text@));
    }
    while i < n
        invariant
            start <= i <= n,
            n == text@.len(),
            split_ws(text@) == words.deep_view() + split_ws_rec(
                text@.skip(i as int),
                text@.subrange(start as int, i as int),
            ),
        decreases n - i,
    {
        let ghost rest = text@.skip(i as int);
        let ghost cur = text@.subrange(start as int, i as int);
        let c = text.get_char(i);
        proof {
            assert(rest.drop_first() =~= text@.skip(i as int + 1));
            assert(rest[0] == text@[i as int]);
        }
        if is_whitespace_char(c) {
            if i > start {
                let ghost old_words = words.deep_view();
                let word = text.substring_char(start, i);
                words.push(word);
                proof {
                    assert(word@ == cur);
                    assert(words.deep_view() =~= old_words.push(cur));
                    assert(old_words.push(cur) + split_ws_rec(
                        text@.skip(i as int + 1),
                        Seq::empty(),
                    ) =~= old_words + (seq![cur] + split_ws_rec(
                        text@.skip(i as int + 1),
                        Seq::empty(),
                    )));
                }
            } else {
                proof {
                    assert(cur.len() == 0);
                    assert(seq![] + split_ws_rec(text@.skip(i as int + 1), Seq::empty())
                        =~= split_ws_rec(text@.skip(i as int + 1), Seq::empty()));
                    assert(text@.subrange(i as int + 1, i as int + 1) =~= Seq::<char>::empty());
                }
            }
            start = i + 1;
        } else {
            proof {
                assert(text@.subrange(start as int, i as int + 1) =~= cur.push(text@[i as int]));
            }
        }
        i = i + 1;
        proof {
            assert(text@.subrange(start as int, start as int) =~= Seq::<char>::empty());
        }
    }
    if start < n {
        let ghost old_words = words.deep_view();
        let ghost cur = text@.subrange(start as int, n as int);
        let word = text.substring_char(start, n);
        words.push(word);
        proof {
            assert(text@.skip(n as int) =~= Seq::<char>::empty());
            assert(words.deep_view() =~= old_words.push(cur));
            assert(old_words.push(cur) =~= old_words + seq![cur]);
        }
    } else {
        proof {
            assert(text@.skip(n as int) =~= Seq::<char>::empty());
            assert(text@.subrange(start as int, n as int).len() == 0);
            assert(words.deep_view() + seq![] =~= words.deep_view());
        }
    }
    words
}

/// Word-granular wrapping: words are packed greedily with single separating
/// spaces; a word that does not fit starts a new line, and an oversized word
/// stands alone on its line rather than being split.
pub fn justify_text_english(text: &str, max_chars_per_line: u32) -> (r: String)
    ensures
        r@ == join_crlf(word_wrap_lines(split_ws(text@), max_chars_per_line, Seq::empty())),
{
    let max = max_chars_per_line;
    let words = split_words(text);
    let m = words.len();
    let mut lines: Vec<String> = Vec::new();
    let mut cur = String::new();
    let mut j: usize = 0;
    proof {
        assert(words.deep_view().skip(0) =~= words.deep_view());
        assert(lines.deep_view() =~= Seq::<Seq<char>>::empty());
        assert(Seq::<Seq<char>>::empty() + word_wrap_lines(split_ws(text@), max, Seq::empty())
            =~= word_wrap_lines(split_ws(text@), max, Seq::empty()));
        assert(cur@ =~= Seq::<char>::empty());
    }
    while j < m
        invariant
            j <= m,
            m == words@.len(),
            words.deep_view() == split_ws(text@),
            word_wrap_lines(split_ws(text@), max, Seq::empty()) == lines.deep_view()
                + word_wrap_lines(words.deep_view().skip(j as int), max, cur@),
        decreases m - j,
    {
        let ghost rest = words.deep_view().skip(j as int);
        let word = words[j];
        proof {
            assert(rest.drop_first() =~= words.deep_view().skip(j as int + 1));
            assert(rest[0] == words.deep_view()[j as int]);
            assert(words.deep_view()[j as int] == word@);
        }
        let cur_len = str_byte_len(cur.as_str());
        let word_len = str_byte_len(word);
        let sep: u128 = if cur_len == 0 {
            0
        } else {
            1
        };
        proof {
            lemma_blen_bounds(cur@);
        }
        if (cur_len as u128) + sep + (word_len as u128) <= (max as u128) {
            let ghost old_cur = cur@;
            if cur_len > 0 {
                cur.append(" ");
            }
            cur.append(word);
            proof {
                reveal_strlit(" ");
                if old_cur.len() == 0 {
                    assert(cur@ =~= word@);
                } else {
                    assert(" "@ =~= seq![' ']);
                    assert(cur@ =~= old_cur + seq![' '] + word@);
                }
            }
        } else if cur_len == 0 {
            let ghost old_cur = cur@;
            cur.append(word);
            proof {
                assert(old_cur.len() == 0);
                assert(cur@ =~= word@);
            }
        } else {
            let ghost old_lines = lines.deep_view();
            let ghost old_cur = cur@;
            lines.push(cur);
            cur = String::new();
            cur.append(word);
            proof {
                assert(cur@ =~= word@);
                assert(lines.deep_view() =~= old_lines.push(old_cur));
                assert(old_lines.push(old_cur) + word_wrap_lines(
                    words.deep_view().skip(j as int + 1),
                    max,
                    word@,
                ) =~= old_lines + (seq![old_cur] + word_wrap_lines(
                    words.deep_view().skip(j as int + 1),
                    max,
                    word@,
                )));
            }
        }
        j = j + 1;
    }
    proof {
        assert(words.deep_view().skip(m as int) =~= Seq::<Seq<char>>::empty());
        lemma_blen_bounds(cur@);
    }
    if str_byte_len(cur.as_str()) > 0 {
        let ghost old_lines = lines.deep_view();
        let ghost old_cur = cur@;
        lines.push(cur);
        proof {
            assert(lines.deep_view() =~= old_lines.push(old_cur));
            assert(old_lines.push(old_cur) =~= old_lines + seq![old_cur]);
        }
    } else {
        proof {
            assert(lines.deep_view() + seq![] =~= lines.deep_view());
        }
    }
    join_lines(&lines)
}

} // verus!
