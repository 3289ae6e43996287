//! Reading documents from text, one JSON value per line.
use vstd::prelude::*;
use crate::json::{Json, JsonValue};
use crate::render::strings_view;

verus! {

/// `serde_json::Value`, carried through as it is.
#[verifier::external_type_specification]
#[verifier::external_body]
pub struct ExValue(serde_json::Value);

/// `serde_json::Error`, carried through as it is.
#[verifier::external_type_specification]
#[verifier::external_body]
pub struct ExError(serde_json::Error);

/// What `serde_json::from_str` makes of a text: the JSON value that the
/// text stands for, or nothing where the parser reports an error
/// (malformed text, nesting deeper than its limit, a number out of range).
pub uninterp spec fn text_value(text: Seq<char>) -> Option<Json>;

/// What a `serde_json::Value` holds: a number as the text that its
/// `Display` writes, the fields of an object in the order in which the
/// map hands them out.
pub uninterp spec fn value_model(value: serde_json::Value) -> Json;

/// Why a line could not be read.
#[derive(Debug)]
pub struct ParseError {
    /// The line, counted from zero.
    pub line: usize,
    /// What the parser said.
    pub message: String,
}

/// Calls `serde_json::from_str` for a `serde_json::Value`. Trusted: what
/// comes back depends on the text alone, so that it can bear a name; the
/// call succeeds on the texts for which the name has a value, and hands
/// that value back.
#[verifier::external_body]
fn parse_value(text: &str) -> (r: Result<serde_json::Value, serde_json::Error>)
    ensures
        r is Ok == text_value(text@) is Some,
        r matches Ok(v) ==> text_value(text@) == Some(value_model(v)),
{
    serde_json::from_str::<serde_json::Value>(text)
}

/// Takes a `serde_json::Value` apart, variant by variant, into a value of
/// this library; a number through `serde_json::Number`'s `to_string`.
/// Trusted: the result holds what the value held.
#[verifier::external_body]
fn json_from_value(value: serde_json::Value) -> (r: JsonValue)
    ensures
        r@ == value_model(value),
{
    match value {
        serde_json::Value::Null => JsonValue::Null,
        serde_json::Value::Bool(b) => JsonValue::Bool(b),
        serde_json::Value::Number(n) => JsonValue::Number(n.to_string()),
        serde_json::Value::String(s) => JsonValue::String(s),
        serde_json::Value::Array(a) => JsonValue::Array(a.into_iter().map(json_from_value).collect()),
        serde_json::Value::Object(m) => JsonValue::Object(
            m.into_iter().map(|(k, v)| (k, json_from_value(v))).collect(),
        ),
    }
}

/// Writes a `serde_json::Error` out through its `Display`. Nothing is
/// claimed of the text.
#[verifier::external_body]
fn error_text(error: &serde_json::Error) -> (r: String) {
    format!("{}", error)
}

/// Reads one JSON value from a text.
pub fn parse_document(text: &str) -> (r: Result<JsonValue, String>)
    ensures
        r is Ok == text_value(text@) is Some,
        r matches Ok(v) ==> text_value(text@) == Some(v@),
{
    match parse_value(text) {
        Ok(value) => Ok(json_from_value(value)),
        Err(error) => Err(error_text(&error)),
    }
}

/// Whether each of the first `n` lines stands for a JSON value.
pub open spec fn all_parse(lines: Seq<Seq<char>>, n: int) -> bool {
    forall|i: int| 0 <= i < n ==> text_value(#[trigger] lines[i]) is Some
}

/// Reads one document from each line. The first line that is no JSON
/// value fails the whole input.
pub fn parse_lines(lines: &Vec<String>) -> (r: Result<Vec<JsonValue>, ParseError>)
    ensures
        r is Ok == all_parse(strings_view(lines@), lines@.len() as int),
        r matches Ok(docs) ==> docs@.len() == lines@.len() && forall|i: int|
            0 <= i < docs@.len() ==> text_value(lines@[i]@) == Some((#[trigger] docs@[i])@),
        r matches Err(e) ==> e.line < lines@.len() && text_value(lines@[e.line as int]@) is None
            && all_parse(strings_view(lines@), e.line as int),
{
    let ghost texts = strings_view(lines@);
    let mut docs: Vec<JsonValue> = Vec::new();
    let mut i: usize = 0;
    while i < lines.len()
        invariant
            i <= lines.len(),
            texts == strings_view(lines@),
            docs@.len() == i,
            all_parse(texts, i as int),
            forall|k: int| 0 <= k < i ==> text_value(lines@[k]@) == Some((#[trigger] docs@[k])@),
        decreases lines.len() - i,
    {
        assert(texts[i as int] == lines@[i as int]@);
        match parse_document(lines[i].as_str()) {
            Ok(doc) => docs.push(doc),
            Err(message) => {
                return Err(ParseError { line: i, message });
            },
        }
        i += 1;
    }
    Ok(docs)
}

} // verus!
