//! Text primitives shared by the wrapping engine: whitespace classification,
//! UTF-8 byte lengths of character sequences, and joining output lines with
//! the canonical CRLF terminator.

use vstd::prelude::*;
use vstd::utf8::{encode_scalar, encode_utf8};

verus! {

/// The code points with the Unicode `White_Space` property: U+0009..U+000D,
/// U+0020, U+0085, U+00A0, U+1680, U+2000..U+200A, U+2028, U+2029, U+202F,
/// U+205F and U+3000.
pub open spec fn is_ws_char(c: char) -> bool {
    let u = c as u32;
    (0x09 <= u && u <= 0x0D) || u == 0x20 || u == 0x85 || u == 0xA0 || u == 0x1680 || (0x2000 <= u
        && u <= 0x200A) || u == 0x2028 || u == 0x2029 || u == 0x202F || u == 0x205F || u == 0x3000
}

/// Whether the character has the Unicode `White_Space` property.
pub fn is_whitespace_char(c: char) -> (r: bool)
    ensures
        r == is_ws_char(c),
{
    let u = c as u32;
    (u >= 0x09 && u <= 0x0D) || u == 0x20 || u == 0x85 || u == 0xA0 || u == 0x1680 || (u >= 0x2000
        && u <= 0x200A) || u == 0x2028 || u == 0x2029 || u == 0x202F || u == 0x205F || u == 0x3000
}

/// Length in bytes of the UTF-8 encoding of one character.
pub open spec fn char_blen(c: char) -> int {
    encode_scalar(c as u32).len() as int
}

/// Length in bytes of the UTF-8 encoding of a character sequence; this is
/// what `str::len` returns on a string slice with this view.
pub open spec fn blen(s: Seq<char>) -> int {
    encode_utf8(s).len() as int
}

/// Every character encodes to between one and four bytes.
pub proof fn lemma_char_blen_bounds(c: char)
    ensures
        1 <= char_blen(c) <= 4,
{
}

/// UTF-8 encoding distributes over concatenation.
pub proof fn lemma_encode_utf8_concat(a: Seq<char>, b: Seq<char>)
    ensures
        encode_utf8(a + b) == encode_utf8(a) + encode_utf8(b),
    decreases a.len(),
{
    if a.len() == 0 {
        assert(a + b =~= b);
        assert(encode_utf8(a) + encode_utf8(b) =~= encode_utf8(b));
    } else {
        assert((a + b).drop_first() =~= a.drop_first() + b);
        lemma_encode_utf8_concat(a.drop_first(), b);
        assert(encode_scalar((a + b)[0] as u32) + (encode_utf8(a.drop_first()) + encode_utf8(b))
            =~= (encode_scalar(a[0] as u32) + encode_utf8(a.drop_first())) + encode_utf8(b));
    }
}

/// Byte length of a sequence extended by one character.
pub proof fn lemma_blen_push(s: Seq<char>, c: char)
    ensures
        blen(s.push(c)) == blen(s) + char_blen(c),
{
    assert(s.push(c) =~= s + seq![c]);
    lemma_encode_utf8_concat(s, seq![c]);
    assert(seq![c].drop_first() =~= Seq::<char>::empty());
    assert(encode_utf8(seq![c]) == encode_scalar(c as u32) + encode_utf8(Seq::<char>::empty()));
    assert(encode_scalar(c as u32) + encode_utf8(Seq::<char>::empty()) =~= encode_scalar(c as u32));
}

/// The byte length of a sequence is between its length and four times it.
pub proof fn lemma_blen_bounds(s: Seq<char>)
    ensures
        s.len() <= blen(s) <= 4 * s.len(),
    decreases s.len(),
{
    if s.len() > 0 {
        lemma_blen_bounds(s.drop_first());
        lemma_char_blen_bounds(s[0]);
    }
}

/// Byte length of a subrange prefix extended by one character.
pub proof fn lemma_blen_take_step(s: Seq<char>, i: int)
    requires
        0 <= i < s.len(),
    ensures
        blen(s.take(i + 1)) == blen(s.take(i)) + char_blen(s[i]),
{
    assert(s.take(i + 1) =~= s.take(i).push(s[i]));
    lemma_blen_push(s.take(i), s[i]);
}

/// Bytes the UTF-8 encoding of this character takes.
pub fn char_byte_len(c: char) -> (r: usize)
    ensures
        r == char_blen(c),
{
    let u = c as u32;
    if u <= 0x7F {
        1
    } else if u <= 0x7FF {
        2
    } else if u <= 0xFFFF {
        3
    } else {
        4
    }
}

/// Length in bytes of the string slice: the length of its UTF-8 encoding.
pub fn str_byte_len(s: &str) -> (n: usize)
    ensures
        n == blen(s@),
{
    let b = s.as_bytes();
    b.len()
}

/// The canonical two-character line terminator.
pub open spec fn crlf() -> Seq<char> {
    seq!['\r', '\n']
}

/// The given lines joined with the canonical CRLF terminator.
pub open spec fn join_crlf(ls: Seq<Seq<char>>) -> Seq<char>
    decreases ls.len(),
{
    if ls.len() == 0 {
        Seq::empty()
    } else if ls.len() == 1 {
        ls[0]
    } else {
        ls[0] + crlf() + join_crlf(ls.drop_first())
    }
}

/// Joining one more line appends a terminator and the line, unless it is the
/// first line.
pub proof fn lemma_join_crlf_push(ls: Seq<Seq<char>>, e: Seq<char>)
    ensures
        join_crlf(ls.push(e)) == if ls.len() == 0 {
            e
        } else {
            join_crlf(ls) + crlf() + e
        },
    decreases ls.len(),
{
    if ls.len() == 0 {
        assert(ls.push(e).len() == 1);
        assert(ls.push(e)[0] == e);
    } else if ls.len() == 1 {
        assert(ls.push(e)[0] == ls[0]);
        assert(ls.push(e).drop_first() =~= seq![e]);
        assert(join_crlf(seq![e]) == e);
    } else {
        assert(ls.push(e).drop_first() =~= ls.drop_first().push(e));
        lemma_join_crlf_push(ls.drop_first(), e);
        assert(ls.push(e)[0] == ls[0]);
        assert(ls[0] + crlf() + (join_crlf(ls.drop_first()) + crlf() + e) =~= (ls[0] + crlf()
            + join_crlf(ls.drop_first())) + crlf() + e);
    }
}

/// Joins the lines with CRLF, first line first.
pub fn join_lines(lines: &Vec<String>) -> (r: String)
    ensures
        r@ == join_crlf(lines.deep_view()),
{
    let mut result = String::new();
    let mut k: usize = 0;
    proof {
        assert(lines.deep_view().take(0) =~= Seq::<Seq<char>>::empty());
    }
    while k < lines.len()
        invariant
            k <= lines@.len(),
            result@ == join_crlf(lines.deep_view().take(k as int)),
        decreases lines@.len() - k,
    {
        if k > 0 {
            result.append("\r\n");
            proof {
                reveal_strlit("\r\n");
                assert("\r\n"@ =~= crlf());
            }
        }
        result.append(lines[k].as_str());
        proof {
            reveal_strlit("\r\n");
            lemma_join_crlf_push(lines.deep_view().take(k as int), lines.deep_view()[k as int]);
            assert(lines.deep_view().take(k as int + 1) =~= lines.deep_view().take(
                k as int,
            ).push(lines.deep_view()[k as int]));
            assert("\r\n"@ =~= crlf());
        }
        k = k + 1;
    }
    proof {
        assert(lines.deep_view().take(lines@.len() as int) =~= lines.deep_view());
    }
    result
}

} // verus!
