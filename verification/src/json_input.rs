//! The JSON texts that the library reads: the frame timestamp list of a
//! recording and the messages of the device stream. `serde_json` parses them;
//! what it gives back is named here, and the library's logic is stated over
//! those names.
use vstd::prelude::*;

verus! {

#[verifier::external_type_specification]
#[verifier::external_body]
pub struct ExJsonError(serde_json::Error);

/// A JSON text that could not be read.
#[derive(Debug)]
pub enum JsonInputError {
    /// `serde_json` rejected the text (syntax, or a value of another shape).
    Parse(serde_json::Error),
}

/// What `serde_json` reads from a text as a JSON array of signed 64-bit
/// integers, or `None` where it rejects the text.
pub uninterp spec fn json_i64_array(text: Seq<char>) -> Option<Seq<i64>>;

/// What `serde_json` reads from a message as the `type` member of a JSON
/// value: `None` where the text is not JSON; `Some(None)` where the value is
/// not an object, has no `type` member, or that member is not a string;
/// `Some(Some(t))` where it is the string `t`.
pub uninterp spec fn json_type_field(msg: Seq<char>) -> Option<Option<Seq<char>>>;

/// The text of an optional string.
pub open spec fn text_view(t: Option<String>) -> Option<Seq<char>> {
    match t {
        Some(s) => Some(s@),
        None => None,
    }
}

/// Calls `serde_json::from_str::<Vec<i64>>`; the contract says that it
/// succeeds exactly where `json_i64_array` is defined, and then returns its
/// value.
#[verifier::external_body]
pub(crate) fn parse_i64_array(text: &str) -> (r: Result<Vec<i64>, serde_json::Error>)
    ensures
        r is Ok <==> json_i64_array(text@) is Some,
        r matches Ok(v) ==> json_i64_array(text@) == Some(v@),
{
    serde_json::from_str::<Vec<i64>>(text)
}

/// Calls `serde_json::from_str::<serde_json::Value>` and reads the `type`
/// member of the value with `Value::index` and `Value::as_str`; the contract
/// says that it succeeds exactly where `json_type_field` is defined, and then
/// returns its value.
#[verifier::external_body]
pub(crate) fn parse_type_field(msg: &str) -> (r: Result<Option<String>, serde_json::Error>)
    ensures
        r is Ok <==> json_type_field(msg@) is Some,
        r matches Ok(t) ==> json_type_field(msg@) == Some(text_view(t)),
{
    match serde_json::from_str::<serde_json::Value>(msg) {
        Ok(v) => Ok(v["type"].as_str().map(String::from)),
        Err(e) => Err(e),
    }
}

} // verus!
