//! Idempotence of justification. Re-justifying already wrapped text keeps
//! the same line breaks, for a logical line without CJK characters: once a
//! line mixes scripts, character-granular output can re-dispatch to the
//! word-granular breaker, whose byte measure may break elsewhere.

use vstd::prelude::*;

use crate::chars::{blen, crlf, is_ws_char, join_crlf, lemma_blen_bounds, lemma_encode_utf8_concat};
use crate::classify::{has_cjk, spec_is_cjk_char};
use crate::justify::{
    justify_spec, line_out, split_nl, split_nl_rec, trim_end, trim_spec, trim_start,
};
use crate::wrap::{is_word, split_ws, split_ws_rec, word_wrap_lines};

verus! {

/// A character that is neither CJK nor a line terminator.
spec fn plain_char(c: char) -> bool {
    !spec_is_cjk_char(c) && c != '\n' && c != '\r'
}

/// Every character of the sequence is plain.
spec fn all_plain(s: Seq<char>) -> bool {
    forall|i: int| 0 <= i < s.len() ==> plain_char(#[trigger] s[i])
}

/// A word of plain characters.
spec fn clean_word(w: Seq<char>) -> bool {
    is_word(w) && all_plain(w)
}

/// All entries of the list are clean words.
spec fn all_clean(ws: Seq<Seq<char>>) -> bool {
    forall|k: int| 0 <= k < ws.len() ==> clean_word(#[trigger] ws[k])
}

/// The words joined with single spaces.
spec fn joinsp(ws: Seq<Seq<char>>) -> Seq<char>
    recommends
        ws.len() > 0,
    decreases ws.len(),
{
    if ws.len() <= 1 {
        ws[0]
    } else {
        ws[0] + seq![' '] + joinsp(ws.drop_first())
    }
}

/// A line that re-justifies to itself: non-empty, word characters at both
/// ends, plain or space throughout, and wrapping it again yields it alone.
spec fn line_good(l: Seq<char>, max: u32) -> bool {
    &&& l.len() > 0
    &&& !is_ws_char(l[0])
    &&& !is_ws_char(l.last())
    &&& (forall|i: int| 0 <= i < l.len() ==> (plain_char(#[trigger] l[i]) || l[i] == ' '))
    &&& !has_cjk(l)
    &&& word_wrap_lines(split_ws(l), max, Seq::empty()) == seq![l]
}

/// Joining distributes: the join of two non-empty lists is the two joins
/// around one space.
proof fn lemma_joinsp_append(a: Seq<Seq<char>>, b: Seq<Seq<char>>)
    requires
        a.len() > 0,
        b.len() > 0,
    ensures
        joinsp(a + b) == joinsp(a) + seq![' '] + joinsp(b),
    decreases a.len(),
{
    if a.len() == 1 {
        assert((a + b)[0] == a[0]);
        assert((a + b).drop_first() =~= b);
        if b.len() == 0 {
        }
        assert(joinsp(a + b) == a[0] + seq![' '] + joinsp(b));
        assert(joinsp(a) == a[0]);
    } else {
        assert((a + b)[0] == a[0]);
        assert((a + b).drop_first() =~= a.drop_first() + b);
        lemma_joinsp_append(a.drop_first(), b);
        assert(a[0] + seq![' '] + (joinsp(a.drop_first()) + seq![' '] + joinsp(b)) =~= (a[0]
            + seq![' '] + joinsp(a.drop_first())) + seq![' '] + joinsp(b));
    }
}

/// Properties of a join of clean words: ends are word characters, every
/// character is plain or a space, and it is free of CJK.
proof fn lemma_joinsp_props(ws: Seq<Seq<char>>)
    requires
        all_clean(ws),
        ws.len() > 0,
    ensures
        joinsp(ws).len() > 0,
        !is_ws_char(joinsp(ws)[0]),
        !is_ws_char(joinsp(ws).last()),
        forall|i: int|
            0 <= i < joinsp(ws).len() ==> (plain_char(#[trigger] joinsp(ws)[i]) || joinsp(ws)[i]
                == ' '),
        !has_cjk(joinsp(ws)),
    decreases ws.len(),
{
    assert(clean_word(ws[0]));
    let j = joinsp(ws);
    if ws.len() == 1 {
        assert(j == ws[0]);
        assert(!is_ws_char(j[0]));
        assert(!is_ws_char(j.last()));
        if has_cjk(j) {
            let i = choose|i: int| 0 <= i < j.len() && spec_is_cjk_char(j[i]);
            assert(plain_char(j[i]));
        }
    } else {
        lemma_joinsp_props(ws.drop_first());
        let rest = joinsp(ws.drop_first());
        assert(j == ws[0] + seq![' '] + rest);
        assert(j[0] == ws[0][0]);
        assert(j.last() == rest.last());
        assert forall|i: int|
            0 <= i < j.len() implies (plain_char(#[trigger] j[i]) || j[i] == ' ') by {
            if i < ws[0].len() {
                assert(j[i] == ws[0][i]);
            } else if i == ws[0].len() {
                assert(j[i] == ' ');
            } else {
                assert(j[i] == rest[i - ws[0].len() - 1]);
            }
        }
        if has_cjk(j) {
            let i = choose|i: int| 0 <= i < j.len() && spec_is_cjk_char(j[i]);
            assert(!plain_char(j[i]) && j[i] != ' ');
        }
    }
}

/// The splitter walks straight through word characters, accumulating them.
proof fn lemma_split_ws_consume(x: Seq<char>, y: Seq<char>, cur: Seq<char>)
    requires
        forall|i: int| 0 <= i < x.len() ==> !is_ws_char(#[trigger] x[i]),
    ensures
        split_ws_rec(x + y, cur) == split_ws_rec(y, cur + x),
    decreases x.len(),
{
    if x.len() == 0 {
        assert(x + y =~= y);
        assert(cur + x =~= cur);
    } else {
        assert((x + y)[0] == x[0]);
        assert((x + y).drop_first() =~= x.drop_first() + y);
        lemma_split_ws_consume(x.drop_first(), y, cur.push(x[0]));
        assert(cur.push(x[0]) + x.drop_first() =~= cur + x);
    }
}

/// Splitting a join of clean words recovers exactly those words.
proof fn lemma_split_joinsp(ws: Seq<Seq<char>>)
    requires
        all_clean(ws),
        ws.len() > 0,
    ensures
        split_ws(joinsp(ws)) == ws,
    decreases ws.len(),
{
    assert(clean_word(ws[0]));
    if ws.len() == 1 {
        assert(joinsp(ws) =~= ws[0] + Seq::<char>::empty());
        lemma_split_ws_consume(ws[0], Seq::empty(), Seq::empty());
        assert(split_ws_rec(Seq::empty(), Seq::<char>::empty() + ws[0]) == seq![
            Seq::<char>::empty() + ws[0],
        ]);
        assert(Seq::<char>::empty() + ws[0] =~= ws[0]);
        assert(split_ws(joinsp(ws)) =~= ws);
    } else {
        lemma_split_joinsp(ws.drop_first());
        let rest = joinsp(ws.drop_first());
        assert(joinsp(ws) == ws[0] + seq![' '] + rest);
        assert(ws[0] + seq![' '] + rest =~= ws[0] + (seq![' '] + rest));
        lemma_split_ws_consume(ws[0], seq![' '] + rest, Seq::empty());
        assert(Seq::<char>::empty() + ws[0] =~= ws[0]);
        assert(split_ws(joinsp(ws)) == split_ws_rec(seq![' '] + rest, ws[0]));
        assert((seq![' '] + rest)[0] == ' ');
        assert(is_ws_char(' '));
        assert((seq![' '] + rest).drop_first() =~= rest);
        assert(split_ws_rec(seq![' '] + rest, ws[0]) == seq![ws[0]] + split_ws_rec(
            rest,
            Seq::empty(),
        ));
        assert(seq![ws[0]] + ws.drop_first() =~= ws);
    }
}

/// Refitting: words that joined within the budget are re-packed greedily
/// onto the very same line.
proof fn lemma_refit(us: Seq<Seq<char>>, max: u32, acc: Seq<Seq<char>>)
    requires
        all_clean(acc + us),
        acc.len() > 0,
        us.len() > 0 ==> blen(joinsp(acc + us)) <= max,
    ensures
        word_wrap_lines(us, max, joinsp(acc)) == seq![joinsp(acc + us)],
    decreases us.len(),
{
    assert(all_clean(acc)) by {
        assert forall|k: int| 0 <= k < acc.len() implies clean_word(#[trigger] acc[k]) by {
            assert(acc[k] == (acc + us)[k]);
        }
    }
    lemma_joinsp_props(acc);
    if us.len() == 0 {
        assert(acc + us =~= acc);
        assert(joinsp(acc).len() > 0);
    } else {
        let w = us[0];
        assert(clean_word(w)) by {
            assert((acc + us)[acc.len() as int] == us[0]);
        }
        assert(all_clean(us)) by {
            assert forall|k: int| 0 <= k < us.len() implies clean_word(#[trigger] us[k]) by {
                assert(us[k] == (acc + us)[acc.len() + k]);
            }
        }
        let cur = joinsp(acc);
        lemma_joinsp_append(acc, us);
        lemma_encode_utf8_concat(cur + seq![' '], joinsp(us));
        lemma_encode_utf8_concat(cur, seq![' ']);
        assert(blen(seq![' ']) == 1) by {
            assert(seq![' '].drop_first() =~= Seq::<char>::empty());
            assert(vstd::utf8::encode_utf8(seq![' ']) == vstd::utf8::encode_scalar(' ' as u32)
                + vstd::utf8::encode_utf8(Seq::<char>::empty()));
        }
        if us.len() == 1 {
            assert(joinsp(us) == w);
            assert(blen(cur) + 1 + blen(w) <= max);
        } else {
            assert(joinsp(us) == w + seq![' '] + joinsp(us.drop_first()));
            lemma_encode_utf8_concat(w + seq![' '], joinsp(us.drop_first()));
            lemma_encode_utf8_concat(w, seq![' ']);
            lemma_blen_bounds(joinsp(us.drop_first()));
            lemma_blen_bounds(w);
            assert(blen(cur) + 1 + blen(w) <= max);
        }
        let acc2 = acc.push(w);
        assert(acc2 =~= acc + seq![w]);
        lemma_joinsp_append(acc, seq![w]);
        assert(joinsp(seq![w]) == w);
        assert(cur + seq![' '] + w == joinsp(acc2));
        assert(acc2 + us.drop_first() =~= acc + us);
        assert(all_clean(acc2 + us.drop_first()));
        assert(acc2.len() > 0);
        lemma_refit(us.drop_first(), max, acc2);
        assert(word_wrap_lines(us, max, cur) == word_wrap_lines(
            us.drop_first(),
            max,
            joinsp(acc2),
        ));
    }
}

/// A single word re-wraps to itself alone, oversized or not.
proof fn lemma_single_word(w: Seq<char>, max: u32)
    requires
        w.len() > 0,
    ensures
        word_wrap_lines(seq![w], max, Seq::empty()) == seq![w],
{
    assert(seq![w][0] == w);
    assert(seq![w].drop_first() =~= Seq::<Seq<char>>::empty());
    assert(blen(Seq::<char>::empty()) == 0);
    if blen(Seq::<char>::empty()) + 0 + blen(w) <= max {
        assert(word_wrap_lines(seq![w], max, Seq::empty()) == word_wrap_lines(
            Seq::<Seq<char>>::empty(),
            max,
            w,
        ));
    } else {
        assert(word_wrap_lines(seq![w], max, Seq::empty()) == word_wrap_lines(
            Seq::<Seq<char>>::empty(),
            max,
            w,
        ));
    }
    assert(word_wrap_lines(Seq::<Seq<char>>::empty(), max, w) =~= seq![w]);
}

/// A join of clean words that fits the budget (or is a single word)
/// re-wraps to itself alone.
proof fn lemma_line_rewrap(us: Seq<Seq<char>>, max: u32)
    requires
        all_clean(us),
        us.len() > 0,
        us.len() >= 2 ==> blen(joinsp(us)) <= max,
    ensures
        word_wrap_lines(split_ws(joinsp(us)), max, Seq::empty()) == seq![joinsp(us)],
{
    lemma_split_joinsp(us);
    assert(clean_word(us[0]));
    if us.len() == 1 {
        assert(joinsp(us) == us[0]);
        lemma_single_word(us[0], max);
        assert(split_ws(joinsp(us)) =~= seq![us[0]]);
    } else {
        let w = us[0];
        assert(us[0] == w);
        assert(blen(Seq::<char>::empty()) == 0);
        assert(joinsp(us) == w + seq![' '] + joinsp(us.drop_first()));
        lemma_encode_utf8_concat(w + seq![' '], joinsp(us.drop_first()));
        lemma_encode_utf8_concat(w, seq![' ']);
        lemma_joinsp_props(us.drop_first());
        lemma_blen_bounds(joinsp(us.drop_first()));
        lemma_blen_bounds(seq![' ']);
        assert(blen(w) <= max);
        assert(word_wrap_lines(us, max, Seq::empty()) == word_wrap_lines(
            us.drop_first(),
            max,
            w,
        ));
        assert(seq![w] + us.drop_first() =~= us);
        assert(all_clean(seq![w] + us.drop_first()));
        lemma_refit(us.drop_first(), max, seq![w]);
        assert(joinsp(seq![w]) == w);
    }
}

/// Every line the word-granular breaker emits is a good line: it will
/// re-justify to itself.
proof fn lemma_lines_good(ws: Seq<Seq<char>>, max: u32, acc: Seq<Seq<char>>)
    requires
        all_clean(ws),
        all_clean(acc),
        acc.len() >= 2 ==> blen(joinsp(acc)) <= max,
    ensures
        forall|k: int|
            0 <= k < word_wrap_lines(ws, max, joinsp0(acc)).len() ==> line_good(
                #[trigger] word_wrap_lines(ws, max, joinsp0(acc))[k],
                max,
            ),
    decreases ws.len(),
{
    let cur = joinsp0(acc);
    let all = word_wrap_lines(ws, max, cur);
    if ws.len() == 0 {
        if acc.len() > 0 {
            lemma_joinsp_props(acc);
            lemma_line_rewrap(acc, max);
            assert(all =~= seq![joinsp(acc)]);
            assert(line_good(all[0], max));
        }
    } else {
        let w = ws[0];
        assert(clean_word(w));
        assert(all_clean(ws.drop_first())) by {
            assert(forall|k: int|
                0 <= k < ws.drop_first().len() ==> ws.drop_first()[k] == ws[k + 1]);
        }
        let sep: int = if cur.len() == 0 {
            0
        } else {
            1
        };
        if blen(cur) + sep + blen(w) <= max {
            let acc2: Seq<Seq<char>> = if acc.len() == 0 {
                seq![w]
            } else {
                acc.push(w)
            };
            assert(all_clean(acc2)) by {
                assert(forall|k: int| 0 <= k < acc.len() ==> acc.push(w)[k] == acc[k]);
            }
            if acc.len() == 0 {
                assert(cur.len() == 0);
                assert(joinsp0(acc2) == w);
                assert(all == word_wrap_lines(ws.drop_first(), max, w));
            } else {
                lemma_joinsp_props(acc);
                assert(cur.len() > 0);
                assert(acc2 =~= acc + seq![w]);
                lemma_joinsp_append(acc, seq![w]);
                assert(joinsp(seq![w]) == w);
                assert(joinsp0(acc2) == cur + seq![' '] + w);
                assert(blen(joinsp0(acc2)) <= max) by {
                    lemma_encode_utf8_concat(cur + seq![' '], w);
                    lemma_encode_utf8_concat(cur, seq![' ']);
                    assert(blen(seq![' ']) == 1) by {
                        assert(seq![' '].drop_first() =~= Seq::<char>::empty());
                        assert(vstd::utf8::encode_utf8(seq![' ']) == vstd::utf8::encode_scalar(
                            ' ' as u32,
                        ) + vstd::utf8::encode_utf8(Seq::<char>::empty()));
                    }
                }
                assert(all == word_wrap_lines(ws.drop_first(), max, joinsp0(acc2)));
            }
            lemma_lines_good(ws.drop_first(), max, acc2);
        } else if cur.len() == 0 {
            if acc.len() > 0 {
                lemma_joinsp_props(acc);
            }
            assert(acc.len() == 0);
            assert(all_clean(seq![w])) by {
                assert(seq![w][0] == w);
            }
            lemma_lines_good(ws.drop_first(), max, seq![w]);
            assert(joinsp0(seq![w]) == w);
            assert(all == word_wrap_lines(ws.drop_first(), max, w));
        } else {
            assert(acc.len() > 0);
            lemma_joinsp_props(acc);
            lemma_line_rewrap(acc, max);
            assert(all_clean(seq![w])) by {
                assert(seq![w][0] == w);
            }
            lemma_lines_good(ws.drop_first(), max, seq![w]);
            assert(joinsp0(seq![w]) == w);
            let rest = word_wrap_lines(ws.drop_first(), max, w);
            assert(all == seq![cur] + rest);
            assert forall|k: int| 0 <= k < all.len() implies line_good(
                #[trigger] all[k],
                max,
            ) by {
                if k == 0 {
                    assert(all[0] == cur);
                    assert(line_good(cur, max));
                } else {
                    assert(all[k] == rest[k - 1]);
                }
            }
        }
    }
}

/// The join of an empty list is empty; otherwise the space-join.
spec fn joinsp0(ws: Seq<Seq<char>>) -> Seq<char> {
    if ws.len() == 0 {
        Seq::empty()
    } else {
        joinsp(ws)
    }
}

/// The lines as they come back from splitting joined output: every line but
/// the last carries the carriage return of its terminator.
spec fn crlf_lines(ls: Seq<Seq<char>>) -> Seq<Seq<char>> {
    Seq::new(
        ls.len(),
        |i: int|
            if i < ls.len() - 1 {
                ls[i].push('\r')
            } else {
                ls[i]
            },
    )
}

/// The line splitter walks straight through terminator-free characters.
proof fn lemma_split_nl_consume(x: Seq<char>, y: Seq<char>, cur: Seq<char>)
    requires
        forall|i: int| 0 <= i < x.len() ==> #[trigger] x[i] != '\n',
    ensures
        split_nl_rec(x + y, cur) == split_nl_rec(y, cur + x),
    decreases x.len(),
{
    if x.len() == 0 {
        assert(x + y =~= y);
        assert(cur + x =~= cur);
    } else {
        assert((x + y)[0] == x[0]);
        assert((x + y).drop_first() =~= x.drop_first() + y);
        lemma_split_nl_consume(x.drop_first(), y, cur.push(x[0]));
        assert(cur.push(x[0]) + x.drop_first() =~= cur + x);
    }
}

/// Splitting joined lines on `'\n'` gives the lines back, each but the last
/// with a trailing carriage return.
proof fn lemma_split_nl_of_join(ls: Seq<Seq<char>>)
    requires
        ls.len() > 0,
        forall|k: int, i: int|
            0 <= k < ls.len() && 0 <= i < ls[k].len() ==> #[trigger] ls[k][i] != '\n',
    ensures
        split_nl(join_crlf(ls)) == crlf_lines(ls),
    decreases ls.len(),
{
    if ls.len() == 1 {
        assert(join_crlf(ls) == ls[0]);
        assert(ls[0] =~= ls[0] + Seq::<char>::empty());
        lemma_split_nl_consume(ls[0], Seq::empty(), Seq::empty());
        assert(Seq::<char>::empty() + ls[0] =~= ls[0]);
        assert(split_nl_rec(Seq::empty(), ls[0]) == seq![ls[0]]);
        assert(split_nl(join_crlf(ls)) =~= crlf_lines(ls));
    } else {
        let tail = join_crlf(ls.drop_first());
        assert(join_crlf(ls) == ls[0] + crlf() + tail);
        assert(ls[0] + crlf() + tail =~= ls[0] + (crlf() + tail));
        lemma_split_nl_consume(ls[0], crlf() + tail, Seq::empty());
        assert(Seq::<char>::empty() + ls[0] =~= ls[0]);
        assert(split_nl(join_crlf(ls)) == split_nl_rec(crlf() + tail, ls[0]));
        assert((crlf() + tail)[0] == '\r');
        assert((crlf() + tail).drop_first() =~= seq!['\n'] + tail);
        assert(split_nl_rec(crlf() + tail, ls[0]) == split_nl_rec(
            seq!['\n'] + tail,
            ls[0].push('\r'),
        ));
        assert((seq!['\n'] + tail)[0] == '\n');
        assert((seq!['\n'] + tail).drop_first() =~= tail);
        assert(split_nl_rec(seq!['\n'] + tail, ls[0].push('\r')) == seq![ls[0].push('\r')]
            + split_nl_rec(tail, Seq::empty()));
        assert(forall|k: int, i: int|
            0 <= k < ls.drop_first().len() && 0 <= i < ls.drop_first()[k].len()
                ==> #[trigger] ls.drop_first()[k][i] != '\n');
        lemma_split_nl_of_join(ls.drop_first());
        assert(seq![ls[0].push('\r')] + crlf_lines(ls.drop_first()) =~= crlf_lines(ls));
    }
}

/// A good line, with or without the carriage return the splitter leaves on
/// it, justifies back to exactly itself.
proof fn lemma_line_out_good(l: Seq<char>, max: u32, with_cr: bool)
    requires
        line_good(l, max),
    ensures
        line_out(
            if with_cr {
                l.push('\r')
            } else {
                l
            },
            max,
        ) == l,
{
    let lx: Seq<char> = if with_cr {
        l.push('\r')
    } else {
        l
    };
    assert(lx[0] == l[0]);
    assert(trim_start(lx) == lx);
    if with_cr {
        assert(is_ws_char(lx.last()));
        assert(lx.drop_last() =~= l);
        assert(trim_end(lx) == trim_end(l));
    }
    assert(trim_end(l) == l);
    assert(trim_spec(lx) == l);
}


/// Every logical line of CJK-free text is CJK-free.
proof fn lemma_split_nl_nocjk(s: Seq<char>, cur: Seq<char>)
    requires
        !has_cjk(s),
        !has_cjk(cur),
    ensures
        forall|k: int| 0 <= k < split_nl_rec(s, cur).len() ==> !has_cjk(
            #[trigger] split_nl_rec(s, cur)[k],
        ),
    decreases s.len(),
{
    let all = split_nl_rec(s, cur);
    if s.len() == 0 {
        assert(all[0] == cur);
    } else {
        assert(!has_cjk(s.drop_first())) by {
            if has_cjk(s.drop_first()) {
                let i = choose|i: int|
                    0 <= i < s.drop_first().len() && spec_is_cjk_char(s.drop_first()[i]);
                assert(s.drop_first()[i] == s[i + 1]);
                assert(has_cjk(s));
            }
        }
        if s[0] == '\n' {
            lemma_split_nl_nocjk(s.drop_first(), Seq::empty());
            let rest = split_nl_rec(s.drop_first(), Seq::empty());
            assert forall|k: int| 0 <= k < all.len() implies !has_cjk(#[trigger] all[k]) by {
                if k == 0 {
                    assert(all[0] == cur);
                } else {
                    assert(all[k] == rest[k - 1]);
                }
            }
        } else {
            assert(!has_cjk(cur.push(s[0]))) by {
                if has_cjk(cur.push(s[0])) {
                    let i = choose|i: int|
                        0 <= i < cur.push(s[0]).len() && spec_is_cjk_char(cur.push(s[0])[i]);
                    if i < cur.len() {
                        assert(cur.push(s[0])[i] == cur[i]);
                        assert(has_cjk(cur));
                    } else {
                        assert(cur.push(s[0])[i] == s[0]);
                        assert(has_cjk(s));
                    }
                }
            }
            lemma_split_nl_nocjk(s.drop_first(), cur.push(s[0]));
            let rest = split_nl_rec(s.drop_first(), cur.push(s[0]));
            assert forall|k: int| 0 <= k < all.len() implies !has_cjk(#[trigger] all[k]) by {
                assert(all[k] == rest[k]);
            }
        }
    }
}

/// Trimming CJK-free text keeps it CJK-free.
proof fn lemma_trim_start_nocjk(s: Seq<char>)
    requires
        !has_cjk(s),
    ensures
        !has_cjk(trim_start(s)),
    decreases s.len(),
{
    if s.len() > 0 && is_ws_char(s[0]) {
        assert(!has_cjk(s.drop_first())) by {
            if has_cjk(s.drop_first()) {
                let i = choose|i: int|
                    0 <= i < s.drop_first().len() && spec_is_cjk_char(s.drop_first()[i]);
                assert(s.drop_first()[i] == s[i + 1]);
                assert(has_cjk(s));
            }
        }
        lemma_trim_start_nocjk(s.drop_first());
    }
}

proof fn lemma_trim_end_nocjk(s: Seq<char>)
    requires
        !has_cjk(s),
    ensures
        !has_cjk(trim_end(s)),
    decreases s.len(),
{
    if s.len() > 0 && is_ws_char(s.last()) {
        assert(!has_cjk(s.drop_last())) by {
            if has_cjk(s.drop_last()) {
                let i = choose|i: int|
                    0 <= i < s.drop_last().len() && spec_is_cjk_char(s.drop_last()[i]);
                assert(s.drop_last()[i] == s[i]);
                assert(has_cjk(s));
            }
        }
        lemma_trim_end_nocjk(s.drop_last());
    }
}

/// Words split from CJK-free text are CJK-free.
proof fn lemma_split_ws_nocjk(s: Seq<char>, cur: Seq<char>)
    requires
        !has_cjk(s),
        !has_cjk(cur),
    ensures
        forall|k: int| 0 <= k < split_ws_rec(s, cur).len() ==> !has_cjk(
            #[trigger] split_ws_rec(s, cur)[k],
        ),
    decreases s.len(),
{
    let all = split_ws_rec(s, cur);
    if s.len() == 0 {
        if cur.len() > 0 {
            assert(all[0] == cur);
        }
    } else {
        assert(!has_cjk(s.drop_first())) by {
            if has_cjk(s.drop_first()) {
                let i = choose|i: int|
                    0 <= i < s.drop_first().len() && spec_is_cjk_char(s.drop_first()[i]);
                assert(s.drop_first()[i] == s[i + 1]);
                assert(has_cjk(s));
            }
        }
        if is_ws_char(s[0]) {
            lemma_split_ws_nocjk(s.drop_first(), Seq::empty());
            let rest = split_ws_rec(s.drop_first(), Seq::empty());
            let head: Seq<Seq<char>> = if cur.len() == 0 {
                seq![]
            } else {
                seq![cur]
            };
            assert forall|k: int| 0 <= k < all.len() implies !has_cjk(#[trigger] all[k]) by {
                if k < head.len() {
                    assert(all[k] == cur);
                } else {
                    assert(all[k] == rest[k - head.len()]);
                }
            }
        } else {
            assert(!has_cjk(cur.push(s[0]))) by {
                if has_cjk(cur.push(s[0])) {
                    let i = choose|i: int|
                        0 <= i < cur.push(s[0]).len() && spec_is_cjk_char(cur.push(s[0])[i]);
                    if i < cur.len() {
                        assert(cur.push(s[0])[i] == cur[i]);
                        assert(has_cjk(cur));
                    } else {
                        assert(cur.push(s[0])[i] == s[0]);
                        assert(has_cjk(s));
                    }
                }
            }
            lemma_split_ws_nocjk(s.drop_first(), cur.push(s[0]));
            let rest = split_ws_rec(s.drop_first(), cur.push(s[0]));
            assert forall|k: int| 0 <= k < all.len() implies !has_cjk(#[trigger] all[k]) by {
                assert(all[k] == rest[k]);
            }
        }
    }
}

/// The words of CJK-free text are clean: whitespace-free (so free of
/// terminators) and free of CJK.
proof fn lemma_words_clean(t: Seq<char>)
    requires
        !has_cjk(t),
    ensures
        all_clean(split_ws(t)),
{
    crate::wrap::lemma_split_ws_words(t, Seq::empty());
    lemma_split_ws_nocjk(t, Seq::empty());
    let ws = split_ws(t);
    assert forall|k: int| 0 <= k < ws.len() implies clean_word(#[trigger] ws[k]) by {
        let w = ws[k];
        assert(is_word(w));
        assert(!has_cjk(w));
        assert forall|i: int| 0 <= i < w.len() implies plain_char(#[trigger] w[i]) by {
            assert(!is_ws_char(w[i]));
            assert(is_ws_char('\n'));
            assert(is_ws_char('\r'));
            if spec_is_cjk_char(w[i]) {
                assert(has_cjk(w));
            }
        }
    }
}

/// A line that re-justifies to itself or vanishes: empty, or a good line.
spec fn stable_line(l: Seq<char>, max: u32) -> bool {
    l.len() == 0 || line_good(l, max)
}

/// One logical line's wrapped output, as a non-empty list of stable lines
/// whose join it is.
spec fn chunk_ok(g: Seq<Seq<char>>, out: Seq<char>, max: u32) -> bool {
    &&& out == join_crlf(g)
    &&& g.len() > 0
    &&& forall|k: int| 0 <= k < g.len() ==> stable_line(#[trigger] g[k], max)
}

/// Joining distributes over concatenation of non-empty line lists.
proof fn lemma_join_crlf_concat(a: Seq<Seq<char>>, b: Seq<Seq<char>>)
    requires
        a.len() > 0,
        b.len() > 0,
    ensures
        join_crlf(a + b) == join_crlf(a) + crlf() + join_crlf(b),
    decreases a.len(),
{
    if a.len() == 1 {
        assert((a + b)[0] == a[0]);
        assert((a + b).drop_first() =~= b);
        assert(join_crlf(a + b) == a[0] + crlf() + join_crlf(b));
        assert(join_crlf(a) == a[0]);
    } else {
        assert((a + b)[0] == a[0]);
        assert((a + b).drop_first() =~= a.drop_first() + b);
        lemma_join_crlf_concat(a.drop_first(), b);
        assert(a[0] + crlf() + (join_crlf(a.drop_first()) + crlf() + join_crlf(b)) =~= (a[0]
            + crlf() + join_crlf(a.drop_first())) + crlf() + join_crlf(b));
    }
}

/// Flattening non-empty lists gives a non-empty list.
proof fn lemma_flatten_nonempty(gs: Seq<Seq<Seq<char>>>)
    requires
        gs.len() > 0,
        forall|i: int| 0 <= i < gs.len() ==> (#[trigger] gs[i]).len() > 0,
    ensures
        gs.flatten().len() > 0,
    decreases gs.len(),
{
    assert(gs.flatten() == gs.first().add(gs.drop_first().flatten()));
    assert(gs.first() == gs[0]);
}

/// Stability of every line survives flattening.
proof fn lemma_flatten_stable(gs: Seq<Seq<Seq<char>>>, max: u32)
    requires
        forall|i: int, k: int|
            0 <= i < gs.len() && 0 <= k < gs[i].len() ==> stable_line(#[trigger] gs[i][k], max),
    ensures
        forall|j: int| 0 <= j < gs.flatten().len() ==> stable_line(
            #[trigger] gs.flatten()[j],
            max,
        ),
    decreases gs.len(),
{
    if gs.len() > 0 {
        assert(forall|i: int, k: int|
            0 <= i < gs.drop_first().len() && 0 <= k < gs.drop_first()[i].len() ==> stable_line(
                #[trigger] gs.drop_first()[i][k],
                max,
            )) by {
            assert(forall|i: int|
                0 <= i < gs.drop_first().len() ==> gs.drop_first()[i] == gs[i + 1]);
        }
        lemma_flatten_stable(gs.drop_first(), max);
        let flat = gs.flatten();
        let rest = gs.drop_first().flatten();
        assert(flat == gs[0] + rest);
        assert forall|j: int| 0 <= j < flat.len() implies stable_line(
            #[trigger] flat[j],
            max,
        ) by {
            if j < gs[0].len() {
                assert(flat[j] == gs[0][j]);
            } else {
                assert(flat[j] == rest[j - gs[0].len()]);
            }
        }
    }
}

/// Joining the per-line joins equals joining the flattened lines.
proof fn lemma_join_map_flatten(gs: Seq<Seq<Seq<char>>>)
    requires
        gs.len() > 0,
        forall|i: int| 0 <= i < gs.len() ==> (#[trigger] gs[i]).len() > 0,
    ensures
        join_crlf(gs.map_values(|g: Seq<Seq<char>>| join_crlf(g))) == join_crlf(gs.flatten()),
    decreases gs.len(),
{
    let jn = |g: Seq<Seq<char>>| join_crlf(g);
    let outs = gs.map_values(jn);
    if gs.len() == 1 {
        assert(outs.len() == 1);
        assert(outs[0] == join_crlf(gs[0]));
        assert(gs.flatten() == gs[0].add(gs.drop_first().flatten()));
        assert(gs.drop_first().len() == 0);
        assert(gs.drop_first().flatten() =~= Seq::<Seq<char>>::empty());
        assert(gs.flatten() =~= gs[0]);
    } else {
        assert(forall|i: int|
            0 <= i < gs.drop_first().len() ==> (#[trigger] gs.drop_first()[i]).len() > 0) by {
            assert(forall|i: int|
                0 <= i < gs.drop_first().len() ==> gs.drop_first()[i] == gs[i + 1]);
        }
        lemma_join_map_flatten(gs.drop_first());
        lemma_flatten_nonempty(gs.drop_first());
        assert(outs.drop_first() =~= gs.drop_first().map_values(jn));
        assert(outs[0] == join_crlf(gs[0]));
        assert(join_crlf(outs) == outs[0] + crlf() + join_crlf(outs.drop_first()));
        lemma_join_crlf_concat(gs[0], gs.drop_first().flatten());
        assert(gs.flatten() == gs[0] + gs.drop_first().flatten());
    }
}

/// Law: justification is idempotent on CJK-free text: justifying the
/// justified output again reproduces it exactly. (With CJK present the two
/// breakers' width measures differ, so a character-wrapped mixed line can
/// re-dispatch to the word breaker and re-wrap differently.)
pub proof fn lemma_justify_idempotent_no_cjk(s: Seq<char>, max: u32)
    requires
        !has_cjk(s),
    ensures
        justify_spec(justify_spec(s, max), max) == justify_spec(s, max),
{
    let f = |l: Seq<char>| line_out(l, max);
    let segs = split_nl(s);
    let outs = segs.map_values(f);
    lemma_split_nl_nocjk(s, Seq::empty());
    let gs = Seq::new(
        segs.len(),
        |i: int|
            if f(segs[i]).len() == 0 {
                seq![Seq::<char>::empty()]
            } else {
                word_wrap_lines(split_ws(trim_spec(segs[i])), max, Seq::empty())
            },
    );
    assert forall|i: int| 0 <= i < segs.len() implies chunk_ok(gs[i], outs[i], max) by {
        let seg = segs[i];
        assert(outs[i] == line_out(seg, max));
        assert(!has_cjk(seg));
        lemma_trim_start_nocjk(seg);
        lemma_trim_end_nocjk(trim_start(seg));
        let t = trim_spec(seg);
        assert(!has_cjk(t));
        if line_out(seg, max).len() == 0 {
            assert(gs[i] =~= seq![Seq::<char>::empty()]);
            assert(join_crlf(seq![Seq::<char>::empty()]) =~= Seq::<char>::empty());
            assert(outs[i] =~= Seq::<char>::empty());
            assert(stable_line(Seq::<char>::empty(), max));
        } else {
            assert(t.len() > 0);
            let ls = word_wrap_lines(split_ws(t), max, Seq::empty());
            assert(gs[i] == ls);
            assert(outs[i] == join_crlf(ls));
            lemma_words_clean(t);
            assert(joinsp0(Seq::<Seq<char>>::empty()) =~= Seq::<char>::empty());
            lemma_lines_good(split_ws(t), max, Seq::empty());
            assert(word_wrap_lines(split_ws(t), max, joinsp0(Seq::<Seq<char>>::empty())) == ls);
            assert(ls.len() > 0) by {
                if ls.len() == 0 {
                    assert(join_crlf(ls) =~= Seq::<char>::empty());
                }
            }
            assert forall|k: int| 0 <= k < ls.len() implies stable_line(
                #[trigger] ls[k],
                max,
            ) by {
                assert(line_good(ls[k], max));
            }
        }
    }
    // The justified text is the join of all wrapped lines in order.
    assert(segs.len() > 0) by {
        crate::stats::lemma_split_nl_len(s, Seq::empty());
        lemma_nl_count_nonneg(s);
    }
    assert(outs =~= gs.map_values(|g: Seq<Seq<char>>| join_crlf(g)));
    lemma_join_map_flatten(gs);
    let flat = gs.flatten();
    let j = join_crlf(flat);
    assert(justify_spec(s, max) == j);
    // Splitting that join recovers every wrapped line, and each line
    // justifies back to itself.
    lemma_flatten_stable(gs, max);
    lemma_flatten_nonempty(gs);
    assert(forall|k: int, i: int|
        0 <= k < flat.len() && 0 <= i < flat[k].len() ==> #[trigger] flat[k][i] != '\n') by {
        assert forall|k: int, i: int|
            0 <= k < flat.len() && 0 <= i < flat[k].len() implies #[trigger] flat[k][i]
            != '\n' by {
            assert(stable_line(flat[k], max));
            assert(line_good(flat[k], max));
            assert(plain_char(flat[k][i]) || flat[k][i] == ' ');
        }
    }
    lemma_split_nl_of_join(flat);
    assert forall|k: int| 0 <= k < crlf_lines(flat).len() implies crlf_lines(flat).map_values(
        f,
    )[k] == flat[k] by {
        assert(stable_line(flat[k], max));
        if flat[k].len() == 0 {
            if k < flat.len() - 1 {
                assert(crlf_lines(flat)[k] == flat[k].push('\r'));
                assert(flat[k].push('\r') =~= seq!['\r']);
                lemma_line_out_cr(max);
            } else {
                assert(crlf_lines(flat)[k] == flat[k]);
                assert(flat[k] =~= Seq::<char>::empty());
                crate::chunks::lemma_justify_empty(max);
                assert(trim_spec(Seq::<char>::empty()) == Seq::<char>::empty());
            }
        } else {
            lemma_line_out_good(flat[k], max, k < flat.len() - 1);
        }
    }
    assert(crlf_lines(flat).map_values(f) =~= flat);
    assert(justify_spec(j, max) == join_crlf(split_nl(j).map_values(f)));
    assert(justify_spec(j, max) == j);
}

/// A line holding one carriage return justifies to nothing.
proof fn lemma_line_out_cr(max: u32)
    ensures
        line_out(seq!['\r'], max) == Seq::<char>::empty(),
{
    let l = seq!['\r'];
    assert(is_ws_char('\r'));
    assert(l.drop_first() =~= Seq::<char>::empty());
    assert(trim_start(l) == trim_start(Seq::<char>::empty()));
    assert(trim_spec(l) =~= Seq::<char>::empty());
}

/// There is at least one terminator count, so at least one logical line.
proof fn lemma_nl_count_nonneg(s: Seq<char>)
    ensures
        crate::stats::nl_count(s) >= 0,
    decreases s.len(),
{
    if s.len() > 0 {
        lemma_nl_count_nonneg(s.drop_first());
    }
}

} // verus!
