//! Calls into other crates that the tokenizer makes, and what is taken for granted of them.

use std::collections::HashMap;
use vstd::prelude::*;
use vstd::utf8::encode_utf8;

use crate::bpe::coding::{alternation, literal_matches};
use crate::text::views;

verus! {

/// The matches of a regular expression in a text, as character positions, in the order in which
/// `Regex::find_iter` gives them; nothing if `Regex::new` refuses the expression.
pub uninterp spec fn regex_matches(pattern: Seq<char>, text: Seq<char>) -> Option<Seq<(nat, nat)>>;

/// How many bytes the first `n` characters of `text` take.
pub open spec fn byte_offset(text: Seq<char>, n: nat) -> nat {
    encode_utf8(text.take(n as int)).len()
}

/// The matches lie in the text, and none starts before the one in front of it has ended.
pub open spec fn spans_in_order(text: Seq<char>, spans: Seq<(nat, nat)>) -> bool {
    &&& forall|i: int| 0 <= i < spans.len() ==> (#[trigger] spans[i]).0 <= spans[i].1 && spans[i].1 <= text.len()
    &&& forall|i: int, j: int| 0 <= i < j < spans.len() ==> (#[trigger] spans[i]).1 <= (#[trigger] spans[j]).0
}

/// `regex_lite::Regex::new` and `Regex::find_iter`: the byte ranges of the successive matches of
/// `pattern` in `text`, or nothing if the pattern is refused. Which ranges these are is named
/// `regex_matches`, in characters. Taken for granted: the ranges begin and end between characters,
/// lie in the text and do not overlap; and an alternation of escaped, non-empty literals is matched
/// from left to right, at each place by the earliest literal that occurs there. Nothing is said of
/// which patterns are refused.
#[verifier::external_body]
pub(crate) fn find_matches(pattern: &str, text: &str) -> (r: Option<Vec<(usize, usize)>>)
    ensures
        r is None <==> regex_matches(pattern@, text@) is None,
        r matches Some(found) ==> {
            let spans = regex_matches(pattern@, text@)->0;
            &&& found@.len() == spans.len()
            &&& spans_in_order(text@, spans)
            &&& forall|i: int|
                0 <= i < spans.len() ==> (#[trigger] found@[i]).0 == byte_offset(text@, spans[i].0) && found@[i].1
                    == byte_offset(text@, spans[i].1)
            &&& forall|literals: Seq<Seq<char>>|
                literals.len() > 0 && (forall|k: int| 0 <= k < literals.len() ==> (#[trigger] literals[k]).len() > 0)
                    && pattern@ == #[trigger] alternation(literals) ==> spans == literal_matches(literals, text@, 0)
        },
{
    let re = regex_lite::Regex::new(pattern).ok()?;
    Some(re.find_iter(text).map(|m| (m.start(), m.end())).collect())
}

/// How the standard library shows a list of strings for debugging.
pub uninterp spec fn debug_text(list: Seq<Seq<char>>) -> Seq<char>;

/// `format!` with `{:?}`: the list in square brackets, each string quoted and escaped. The text is
/// named `debug_text` and nothing more is said of it.
#[verifier::external_body]
pub(crate) fn debug_list(list: &Vec<String>) -> (r: String)
    ensures
        r@ == debug_text(views(list@)),
{
    format!("{:?}", list)
}

/// The error that `serde_json` reports.
#[verifier::external_type_specification]
#[verifier::external_body]
pub struct ExJsonError(serde_json::Error);

/// The object of token ids that a JSON text holds; nothing if it holds none.
pub uninterp spec fn json_token_ids(text: Seq<char>) -> Option<Map<Seq<char>, usize>>;

/// Whether `entries` holds each token of `table` once, with its id.
pub open spec fn lists_token_ids(entries: Seq<(String, usize)>, table: Map<Seq<char>, usize>) -> bool {
    &&& forall|i: int, j: int| 0 <= i < j < entries.len() ==> entries[i].0@ != entries[j].0@
    &&& forall|i: int|
        0 <= i < entries.len() ==> table.contains_key((#[trigger] entries[i]).0@) && table[entries[i].0@] == entries[i].1
    &&& forall|t: Seq<char>| #[trigger]
        table.contains_key(t) ==> exists|i: int| 0 <= i < entries.len() && (#[trigger] entries[i]).0@ == t
}

/// `serde_json::from_str` for an object whose values are ids. Which object a text holds is named
/// `json_token_ids`; the entries come in the order in which a hash map is walked, which is open.
#[verifier::external_body]
pub(crate) fn parse_token_ids(text: &str) -> (r: Result<Vec<(String, usize)>, serde_json::Error>)
    ensures
        r is Err <==> json_token_ids(text@) is None,
        r matches Ok(entries) ==> lists_token_ids(entries@, json_token_ids(text@)->0),
{
    let table: HashMap<String, usize> = serde_json::from_str(text)?;
    Ok(table.into_iter().collect())
}

/// The object of spellings by id that a JSON text holds; nothing if it holds none.
pub uninterp spec fn json_id_tokens(text: Seq<char>) -> Option<Map<usize, Seq<char>>>;

/// Whether `entries` holds each id of `table` once, with what it spells.
pub open spec fn lists_id_tokens(entries: Seq<(usize, String)>, table: Map<usize, Seq<char>>) -> bool {
    &&& forall|i: int, j: int| 0 <= i < j < entries.len() ==> entries[i].0 != entries[j].0
    &&& forall|i: int|
        0 <= i < entries.len() ==> table.contains_key((#[trigger] entries[i]).0) && table[entries[i].0]
            == entries[i].1@
    &&& forall|id: usize| #[trigger]
        table.contains_key(id) ==> exists|i: int| 0 <= i < entries.len() && (#[trigger] entries[i]).0 == id
}

/// `serde_json::from_str` for an object whose keys are ids. Which object a text holds is named
/// `json_id_tokens`; the entries come in the order in which a hash map is walked, which is open.
#[verifier::external_body]
pub(crate) fn parse_id_tokens(text: &str) -> (r: Result<Vec<(usize, String)>, serde_json::Error>)
    ensures
        r is Err <==> json_id_tokens(text@) is None,
        r matches Ok(entries) ==> lists_id_tokens(entries@, json_id_tokens(text@)->0),
{
    let table: HashMap<usize, String> = serde_json::from_str(text)?;
    Ok(table.into_iter().collect())
}

/// `serde_json::to_string` for a table of spellings. It succeeds: numbers may be keys, they and
/// strings serialize without an error of their own, and the text is written to a vector, which takes
/// all bytes. The order of the entries in the text is open, but reading the text gives the table
/// back.
#[verifier::external_body]
pub(crate) fn write_id_tokens(table: &HashMap<usize, String>) -> (r: Result<String, serde_json::Error>)
    ensures
        r is Ok,
        r matches Ok(text) ==> json_id_tokens(text@) == Some(table@.map_values(|s: String| s@)),
{
    serde_json::to_string(table)
}

} // verus!
