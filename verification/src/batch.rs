//! Batch justification: a serialized list of texts comes in, every element
//! is justified, and the list of results goes back out serialized. Only the
//! two serialization calls are trusted; the per-element work is verified.

use vstd::prelude::*;
use vstd::string::StringExecFns;

use crate::justify::{justify_spec, justify_text};

verus! {

/// The list of strings a JSON text denotes, when it is a well-formed JSON
/// array of strings.
pub uninterp spec fn json_string_list(s: Seq<char>) -> Option<Seq<Seq<char>>>;

/// The JSON text serde produces for a list of strings.
pub uninterp spec fn json_string_list_repr(l: Seq<Seq<char>>) -> Seq<char>;

/// Relies on serde_json::from_str::<Vec<String>>: parsing is a function of
/// the input text alone, returning its list of strings exactly when the text
/// is a well-formed JSON array of strings.
#[verifier::external_body]
fn parse_string_list(s: &str) -> (r: Result<Vec<String>, String>)
    ensures
        r matches Ok(v) ==> json_string_list(s@) == Some(v.deep_view()),
        r is Ok <==> json_string_list(s@) is Some,
{
    match serde_json::from_str::<Vec<String>>(s) {
        Ok(v) => Ok(v),
        Err(e) => Err(format!("Invalid JSON: {}", e)),
    }
}

/// Relies on serde_json::to_string::<Vec<String>>: serialization is a
/// function of the list alone; it fails only when a `Serialize` impl fails
/// or a map has non-string keys, neither of which a vector of strings can
/// do, so it always succeeds; and parsing its output recovers exactly the
/// serialized list.
#[verifier::external_body]
fn render_string_list(v: &Vec<String>) -> (r: Result<String, String>)
    ensures
        r is Ok,
        r matches Ok(s) ==> s@ == json_string_list_repr(v.deep_view()),
        r matches Ok(s) ==> json_string_list(s@) == Some(v.deep_view()),
{
    match serde_json::to_string(v) {
        Ok(s) => Ok(s),
        Err(e) => Err(format!("Serialization error: {}", e)),
    }
}

/// Justifies every text of the list in order, one result per input.
pub fn batch_justify_list(texts: &Vec<String>, max_chars_per_line: u32) -> (r: Vec<String>)
    ensures
        r.deep_view() == texts.deep_view().map_values(
            |t: Seq<char>| justify_spec(t, max_chars_per_line),
        ),
{
    let max = max_chars_per_line;
    let ghost mapped = texts.deep_view().map_values(|t: Seq<char>| justify_spec(t, max));
    let mut r: Vec<String> = Vec::new();
    let mut k: usize = 0;
    proof {
        assert(r.deep_view() =~= mapped.take(0));
    }
    while k < texts.len()
        invariant
            k <= texts@.len(),
            mapped == texts.deep_view().map_values(|t: Seq<char>| justify_spec(t, max)),
            r.deep_view() == mapped.take(k as int),
        decreases texts@.len() - k,
    {
        let piece = justify_text(texts[k].as_str(), max);
        let ghost old_r = r.deep_view();
        r.push(piece);
        proof {
            assert(texts.deep_view()[k as int] == texts@[k as int]@);
            assert(r.deep_view() =~= old_r.push(piece@));
            assert(mapped.take(k as int + 1) =~= mapped.take(k as int).push(mapped[k as int]));
        }
        k = k + 1;
    }
    proof {
        assert(mapped.take(texts@.len() as int) =~= mapped);
    }
    r
}

/// Justifies every text of a serialized list and serializes the results.
/// Fails exactly when the input is not a well-formed JSON array of strings
/// (a decode failure, reported with a descriptive message); serializing a
/// list of strings cannot fail. On success the output is the serialized
/// justified list, which parses back to one result per input, in order; no
/// partial results are ever returned.
pub fn batch_justify_text(texts_json: &str, max_chars_per_line: u32) -> (r: Result<String, String>)
    ensures
        r is Ok <==> json_string_list(texts_json@) is Some,
        r matches Ok(out) ==> json_string_list(texts_json@) matches Some(l) && out@
            == json_string_list_repr(
            l.map_values(|t: Seq<char>| justify_spec(t, max_chars_per_line)),
        ) && json_string_list(out@) == Some(
            l.map_values(|t: Seq<char>| justify_spec(t, max_chars_per_line)),
        ),
{
    let texts = match parse_string_list(texts_json) {
        Ok(v) => v,
        Err(e) => {
            return Err(e);
        },
    };
    let results = batch_justify_list(&texts, max_chars_per_line);
    render_string_list(&results)
}

} // verus!
