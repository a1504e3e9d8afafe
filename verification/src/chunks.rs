//! Chunked processing for large input: the text is walked in byte-bounded
//! windows, each window is justified on its own, and the pieces are
//! reassembled, inserting a canonical terminator at a window boundary when
//! the previous window's output does not already end in one. Windows end at
//! character boundaries: a window takes as many whole characters as fit its
//! byte budget, and always at least one.

use vstd::prelude::*;
use vstd::string::{StrSliceExecFns, StringExecFns};

use crate::chars::{
    blen, char_blen, char_byte_len, crlf, lemma_blen_bounds, lemma_encode_utf8_concat,
    lemma_blen_take_step, str_byte_len,
};
use crate::justify::{justify_spec, justify_text, line_out, split_nl, trim_spec};

verus! {

/// Whether the sequence ends in the canonical CRLF terminator.
pub open spec fn ends_crlf(s: Seq<char>) -> bool {
    s.len() >= 2 && s[s.len() - 2] == '\r' && s[s.len() - 1] == '\n'
}

/// How many leading whole characters of `s` fit a byte budget.
pub open spec fn fit_count(s: Seq<char>, budget: int) -> int
    decreases s.len(),
{
    if s.len() == 0 {
        0
    } else if char_blen(s[0]) <= budget {
        1 + fit_count(s.drop_first(), budget - char_blen(s[0]))
    } else {
        0
    }
}

/// `fit_count` stays within the sequence, and what it takes fits the budget.
pub proof fn lemma_fit_count_bounds(s: Seq<char>, budget: int)
    ensures
        0 <= fit_count(s, budget) <= s.len(),
        fit_count(s, budget) > 0 ==> blen(s.take(fit_count(s, budget))) <= budget,
    decreases s.len(),
{
    if s.len() == 0 {
    } else if char_blen(s[0]) <= budget {
        lemma_fit_count_bounds(s.drop_first(), budget - char_blen(s[0]));
        let f = fit_count(s, budget);
        let t = s.take(f);
        assert(t[0] == s[0]);
        assert(t.drop_first() =~= s.drop_first().take(f - 1));
        assert(vstd::utf8::encode_utf8(t) == vstd::utf8::encode_scalar(t[0] as u32)
            + vstd::utf8::encode_utf8(t.drop_first()));
        if f - 1 == 0 {
            assert(s.drop_first().take(0) =~= Seq::<char>::empty());
            assert(blen(Seq::<char>::empty()) == 0);
        }
    }
}

/// The chunked justification of `s`: text within the byte budget is
/// justified whole; otherwise the longest character-aligned prefix within
/// the budget (at least one character) is justified, a terminator is added
/// at the seam when needed, and the rest follows.
pub open spec fn chunks_spec(s: Seq<char>, max: u32, chunk: int) -> Seq<char>
    decreases s.len(),
{
    if s.len() == 0 || blen(s) <= chunk {
        justify_spec(s, max)
    } else {
        let f = fit_count(s, chunk);
        let k = if f < 1 {
            1
        } else if f > s.len() {
            s.len() as int
        } else {
            f
        };
        let j = justify_spec(s.take(k), max);
        let rest = s.skip(k);
        j + (if rest.len() > 0 && !ends_crlf(j) {
            crlf()
        } else {
            Seq::empty()
        }) + chunks_spec(rest, max, chunk)
    }
}

/// Chunking a text whose whole byte length fits the chunk budget is plain
/// justification.
pub proof fn lemma_chunks_within_budget(s: Seq<char>, max: u32, chunk: int)
    requires
        blen(s) <= chunk,
    ensures
        chunks_spec(s, max, chunk) == justify_spec(s, max),
{
}

/// Justifying empty text yields empty output.
pub proof fn lemma_justify_empty(max: u32)
    ensures
        justify_spec(Seq::empty(), max) == Seq::<char>::empty(),
{
    let e = Seq::<char>::empty();
    assert(split_nl(e) =~= seq![e]);
    assert(trim_spec(e) == e);
    assert(line_out(e, max) == e);
    assert(split_nl(e).map_values(|l: Seq<char>| line_out(l, max)) =~= seq![e]);
}

/// Justifies the text window by window: each chunk of at most `chunk_size`
/// bytes (whole characters only, at least one per chunk) is justified on its
/// own, with a terminator inserted at a seam whose left side lacks one.
pub fn process_text_chunks(text: &str, max_chars_per_line: u32, chunk_size: u32) -> (r: String)
    requires
        text@.len() == 0 || chunk_size >= 1,
    ensures
        r@ == chunks_spec(text@, max_chars_per_line, chunk_size as int),
{
    let max = max_chars_per_line;
    let chunk = chunk_size as usize;
    let total = str_byte_len(text);
    if total <= chunk {
        return justify_text(text, max);
    }
    let n = text.unicode_len();
    let mut result = String::new();
    let mut start: usize = 0;
    let mut start_b: usize = 0;
    proof {
        assert(text@.skip(0) =~= text@);
        assert(text@.take(0) =~= Seq::<char>::empty());
        assert(Seq::<char>::empty() + chunks_spec(text@, max, chunk_size as int) =~= chunks_spec(
            text@,
            max,
            chunk_size as int,
        ));
        lemma_blen_bounds(text@);
        // Past the early return the text has bytes, hence characters, so the
        // chunk size is at least one.
        assert(text@.len() > 0);
        assert(chunk_size >= 1);
    }
    while start < n
        invariant
            start <= n,
            n == text@.len(),
            total == blen(text@),
            total > chunk_size,
            chunk == chunk_size,
            chunk_size >= 1,
            start_b == blen(text@.take(start as int)),
            start_b <= total,
            chunks_spec(text@, max, chunk_size as int) == result@ + chunks_spec(
                text@.skip(start as int),
                max,
                chunk_size as int,
            ),
        decreases n - start,
    {
        let ghost rest = text@.skip(start as int);
        proof {
            assert(text@.take(start as int) + rest =~= text@);
            lemma_encode_utf8_concat(text@.take(start as int), rest);
        }
        let rest_b = total - start_b;
        if rest_b <= chunk {
            let piece = text.substring_char(start, n);
            proof {
                assert(piece@ =~= rest);
            }
            let j = justify_text(piece, max);
            result.append(j.as_str());
            proof {
                assert(chunks_spec(rest, max, chunk_size as int) == justify_spec(rest, max));
                assert(text@.skip(n as int) =~= Seq::<char>::empty());
                lemma_justify_empty(max);
                assert(blen(Seq::<char>::empty()) == 0);
                assert(chunks_spec(Seq::<char>::empty(), max, chunk_size as int)
                    == justify_spec(Seq::<char>::empty(), max));
                assert(result@ + Seq::<char>::empty() =~= result@);
                assert(text@.take(n as int) =~= text@);
            }
            start = n;
            start_b = total;
        } else {
            // Count how many whole characters fit the byte budget.
            let mut k: usize = 0;
            let mut used: usize = 0;
            proof {
                assert(rest.skip(0) =~= rest);
                assert(rest.take(0) =~= Seq::<char>::empty());
            }
            while start + k < n && (used as u64) + (char_byte_len(text.get_char(start + k)) as u64)
                <= (chunk_size as u64)
                invariant
                    start + k <= n,
                    start < n,
                    n == text@.len(),
                    rest == text@.skip(start as int),
                    used == blen(rest.take(k as int)),
                    used <= chunk_size,
                    fit_count(rest, chunk_size as int) == k + fit_count(
                        rest.skip(k as int),
                        chunk_size as int - used,
                    ),
                decreases n - start - k,
            {
                let c = text.get_char(start + k);
                proof {
                    assert(rest[k as int] == text@[start as int + k as int]);
                    assert(rest.skip(k as int)[0] == rest[k as int]);
                    assert(rest.skip(k as int).drop_first() =~= rest.skip(k as int + 1));
                    lemma_blen_take_step(rest, k as int);
                }
                used = used + char_byte_len(c);
                k = k + 1;
            }
            proof {
                // At loop exit the count equals fit_count for the chunk budget.
                if start + k < n {
                    assert(rest.skip(k as int)[0] == rest[k as int]);
                    assert(fit_count(rest.skip(k as int), chunk_size as int - used) == 0);
                } else {
                    assert(rest.skip(k as int) =~= Seq::<char>::empty());
                }
                assert(fit_count(rest, chunk_size as int) == k);
                lemma_fit_count_bounds(rest, chunk_size as int);
            }
            let kk: usize = if k == 0 {
                1
            } else {
                k
            };
            proof {
                // The spec's clamped chunk length agrees with kk.
                assert(k <= rest.len());
                assert(rest.len() > 0);
            }
            let piece = text.substring_char(start, start + kk);
            proof {
                assert(piece@ =~= rest.take(kk as int));
            }
            let j = justify_text(piece, max);
            let ghost result0 = result@;
            result.append(j.as_str());
            let jn = j.as_str().unicode_len();
            let ends = if jn >= 2 {
                let c1 = j.as_str().get_char(jn - 2);
                let c2 = j.as_str().get_char(jn - 1);
                c1 == '\r' && c2 == '\n'
            } else {
                false
            };
            proof {
                assert(ends == ends_crlf(j@));
            }
            if start + kk < n && !ends {
                result.append("\r\n");
                proof {
                    reveal_strlit("\r\n");
                    assert("\r\n"@ =~= crlf());
                }
            }
            proof {
                let ci = chunk_size as int;
                assert(rest.skip(kk as int) =~= text@.skip(start as int + kk as int));
                assert(rest.skip(kk as int).len() > 0 <==> start + kk < n);
                let sep: Seq<char> = if rest.skip(kk as int).len() > 0 && !ends_crlf(j@) {
                    crlf()
                } else {
                    Seq::<char>::empty()
                };
                // One unfolding of the spec at the remaining text.
                assert(blen(rest) > ci);
                assert(chunks_spec(rest, max, ci) == j@ + sep + chunks_spec(
                    rest.skip(kk as int),
                    max,
                    ci,
                ));
                assert(result@ =~= result0 + j@ + sep);
                assert(result0 + (j@ + sep + chunks_spec(rest.skip(kk as int), max, ci))
                    =~= (result0 + j@ + sep) + chunks_spec(rest.skip(kk as int), max, ci));
                // Byte accounting for the advanced prefix.
                assert(text@.take(start as int + kk as int) =~= text@.take(start as int)
                    + rest.take(kk as int));
                lemma_encode_utf8_concat(text@.take(start as int), rest.take(kk as int));
                if kk == k {
                    assert(blen(rest.take(kk as int)) == used);
                } else {
                    assert(k == 0);
                }
                assert(text@.take(start as int + kk as int) + text@.skip(
                    start as int + kk as int,
                ) =~= text@);
                lemma_encode_utf8_concat(
                    text@.take(start as int + kk as int),
                    text@.skip(start as int + kk as int),
                );
                lemma_blen_bounds(text@.skip(start as int + kk as int));
                lemma_blen_bounds(rest.take(kk as int));
            }
            let piece_b = if kk == k {
                used
            } else {
                str_byte_len(piece)
            };
            start = start + kk;
            start_b = start_b + piece_b;
        }
    }
    proof {
        assert(text@.skip(n as int) =~= Seq::<char>::empty());
        lemma_justify_empty(max);
        assert(blen(Seq::<char>::empty()) == 0);
        assert(chunks_spec(Seq::<char>::empty(), max, chunk_size as int) == justify_spec(
            Seq::<char>::empty(),
            max,
        ));
        assert(result@ + Seq::<char>::empty() =~= result@);
    }
    result
}

} // verus!
