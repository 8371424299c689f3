//! JSON documents, read with `serde_json`.
//!
//! The search tool writes each record as a JSON document. `serde_json` parses
//! the text and looks values up in the document; nothing here is verified
//! about it. The spec functions without a body give names to what it finds,
//! so that the code that reads records can say exactly which values it took
//! from where.
use vstd::prelude::*;

verus! {

/// `serde_json::Value`, a parsed document or a value inside one.
#[verifier::external_type_specification]
#[verifier::external_body]
pub struct ExJsonValue(serde_json::Value);

/// `serde_json::Error`, which says why a text is no document.
#[verifier::external_type_specification]
#[verifier::external_body]
pub struct ExJsonError(serde_json::Error);

/// The document that `serde_json::from_str` reads from `text`, if it is
/// one.
pub uninterp spec fn json_document(text: Seq<char>) -> Option<serde_json::Value>;

/// The value that `serde_json::Value::pointer` finds in `value` at the JSON
/// Pointer `pointer`, if there is one.
pub uninterp spec fn json_pointer(value: serde_json::Value, pointer: Seq<char>) -> Option<
    serde_json::Value,
>;

/// The text of `value` as `serde_json::Value::as_str` gives it, if it is a
/// string.
pub uninterp spec fn json_as_str(value: serde_json::Value) -> Option<Seq<char>>;

/// The number that `value` is as `serde_json::Value::as_u64` gives it, if
/// it is an integer that a `u64` can hold.
pub uninterp spec fn json_as_u64(value: serde_json::Value) -> Option<u64>;

/// The elements of `value` as `serde_json::Value::as_array` gives them, if
/// it is an array.
pub uninterp spec fn json_as_array(value: serde_json::Value) -> Option<Seq<serde_json::Value>>;

/// Parses `text` with `serde_json::from_str`. The contract names the result:
/// the call succeeds exactly where the name gives a document, and then
/// returns that document.
#[verifier::external_body]
fn parse(text: &str) -> (parsed: Result<serde_json::Value, serde_json::Error>)
    ensures
        parsed is Ok <==> json_document(text@) is Some,
        parsed matches Ok(value) ==> json_document(text@) == Some(value),
{
    serde_json::from_str(text)
}

/// Looks the JSON Pointer `at` up in `value` with
/// `serde_json::Value::pointer`. The contract names the result.
#[verifier::external_body]
fn pointer<'a>(value: &'a serde_json::Value, at: &str) -> (found: Option<&'a serde_json::Value>)
    ensures
        found is Some <==> json_pointer(*value, at@) is Some,
        found matches Some(inner) ==> json_pointer(*value, at@) == Some(*inner),
{
    value.pointer(at)
}

/// Reads `value` with `serde_json::Value::as_str`. The contract names the
/// result.
#[verifier::external_body]
fn as_str<'a>(value: &'a serde_json::Value) -> (text: Option<&'a str>)
    ensures
        text is Some <==> json_as_str(*value) is Some,
        text matches Some(text) ==> json_as_str(*value) == Some(text@),
{
    value.as_str()
}

/// Reads `value` with `serde_json::Value::as_u64`. The contract names the
/// result.
#[verifier::external_body]
fn as_u64(value: &serde_json::Value) -> (number: Option<u64>)
    ensures
        number == json_as_u64(*value),
{
    value.as_u64()
}

/// Reads `value` with `serde_json::Value::as_array`. The contract names the
/// result.
#[verifier::external_body]
fn as_array<'a>(value: &'a serde_json::Value) -> (items: Option<&'a Vec<serde_json::Value>>)
    ensures
        items is Some <==> json_as_array(*value) is Some,
        items matches Some(items) ==> json_as_array(*value) == Some(items@),
{
    value.as_array()
}

/// The string that `value` holds at `pointer`, if there is a value there
/// and it is a string.
pub open spec fn json_string_at(value: serde_json::Value, pointer: Seq<char>) -> Option<
    Seq<char>,
> {
    match json_pointer(value, pointer) {
        Some(at) => json_as_str(at),
        None => None,
    }
}

/// The number that `value` holds at `pointer`, if there is a value there
/// and it is an integer that a `u64` can hold.
pub open spec fn json_u64_at(value: serde_json::Value, pointer: Seq<char>) -> Option<u64> {
    match json_pointer(value, pointer) {
        Some(at) => json_as_u64(at),
        None => None,
    }
}

/// The elements of the array that `value` holds at `pointer`, if there is
/// a value there and it is an array.
pub open spec fn json_array_at(value: serde_json::Value, pointer: Seq<char>) -> Option<
    Seq<serde_json::Value>,
> {
    match json_pointer(value, pointer) {
        Some(at) => json_as_array(at),
        None => None,
    }
}

/// The characters of an optional text.
pub open spec fn text_view(text: Option<&str>) -> Option<Seq<char>> {
    match text {
        Some(text) => Some(text@),
        None => None,
    }
}

/// The elements of an optional list of values.
pub open spec fn values_view(values: Option<&Vec<serde_json::Value>>) -> Option<
    Seq<serde_json::Value>,
> {
    match values {
        Some(values) => Some(values@),
        None => None,
    }
}

/// The document that `text` is, if it is one.
pub fn parse_json(text: &str) -> (parsed: Option<serde_json::Value>)
    ensures
        parsed == json_document(text@),
{
    match parse(text) {
        Ok(value) => Some(value),
        Err(_) => None,
    }
}

/// The string that `value` holds at the JSON Pointer `at`.
pub fn json_str<'a>(value: &'a serde_json::Value, at: &str) -> (found: Option<&'a str>)
    ensures
        text_view(found) == json_string_at(*value, at@),
{
    match pointer(value, at) {
        Some(value) => as_str(value),
        None => None,
    }
}

/// The number that `value` holds at the JSON Pointer `at`.
pub fn json_u64(value: &serde_json::Value, at: &str) -> (found: Option<u64>)
    ensures
        found == json_u64_at(*value, at@),
{
    match pointer(value, at) {
        Some(value) => as_u64(value),
        None => None,
    }
}

/// The elements of the array that `value` holds at the JSON Pointer `at`.
pub fn json_array<'a>(value: &'a serde_json::Value, at: &str) -> (found: Option<
    &'a Vec<serde_json::Value>,
>)
    ensures
        values_view(found) == json_array_at(*value, at@),
{
    match pointer(value, at) {
        Some(value) => as_array(value),
        None => None,
    }
}

} // verus!
