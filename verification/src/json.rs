//! JSON values, as the `serde_json` crate reads and holds them.
//!
//! Nothing in this file is proved. A value is opaque here: the items below
//! name what `serde_json` computes, and the functions state that they return
//! exactly that.

use vstd::prelude::*;

verus! {

/// A JSON value of `serde_json`. Nothing inside it is visible to a proof.
#[verifier::external_type_specification]
#[verifier::external_body]
pub struct ExValue(serde_json::Value);

/// The error of `serde_json`. Nothing inside it is visible to a proof.
#[verifier::external_type_specification]
#[verifier::external_body]
pub struct ExError(serde_json::Error);

/// The value that `serde_json::from_slice` reads from `text`, or `None`
/// where it reports an error: `text` is then not exactly one JSON document.
pub uninterp spec fn json_document(text: Seq<u8>) -> Option<serde_json::Value>;

/// The member that `serde_json::Value::get` finds in `value` under the
/// string `name`. There is one only if `value` is an object that holds the
/// key `name`.
pub uninterp spec fn json_member(value: serde_json::Value, name: Seq<char>) -> Option<
    serde_json::Value,
>;

/// The text that `serde_json::Value::as_str` sees in `value`. There is one
/// only if `value` is a JSON string.
pub uninterp spec fn json_string(value: serde_json::Value) -> Option<Seq<char>>;

/// Calls `serde_json::from_slice` for a `serde_json::Value`. Assumed: the
/// outcome depends on the bytes of `text` alone, so that `json_document`
/// names it.
#[verifier::external_body]
pub(crate) fn decode(text: &[u8]) -> (r: Result<serde_json::Value, serde_json::Error>)
    ensures
        match r {
            Ok(value) => json_document(text@) == Some(value),
            Err(_) => json_document(text@) is None,
        },
{
    serde_json::from_slice(text)
}

/// Calls `serde_json::Value::get` with a string index. Assumed: the outcome
/// depends on the value and the index alone, so that `json_member` names it.
#[verifier::external_body]
pub(crate) fn member<'a>(value: &'a serde_json::Value, name: &str) -> (r: Option<
    &'a serde_json::Value,
>)
    ensures
        match r {
            Some(found) => json_member(*value, name@) == Some(*found),
            None => json_member(*value, name@) is None,
        },
{
    value.get(name)
}

/// Calls `serde_json::Value::as_str`. Assumed: the outcome depends on the
/// value alone, so that `json_string` names it.
#[verifier::external_body]
pub(crate) fn string<'a>(value: &'a serde_json::Value) -> (r: Option<&'a str>)
    ensures
        match r {
            Some(text) => json_string(*value) == Some(text@),
            None => json_string(*value) is None,
        },
{
    value.as_str()
}

} // verus!
