//! Members of JSON objects.
//!
//! A text is read with `serde_json::from_str` into a `serde_json::Value`, and a
//! member is taken with `Value::get`.

use vstd::prelude::*;

verus! {

/// What the reader says of a text that is not JSON; `None` for JSON.
pub uninterp spec fn json_failure(text: Seq<char>) -> Option<Seq<char>>;

/// Calls `serde_json::from_str`: whether the text is JSON, and what the error
/// says where it is not, as `json_failure` names it.
#[verifier::external_body]
pub(crate) fn parse_failure(text: &str) -> (r: Option<String>)
    ensures
        match r {
            Some(e) => json_failure(text@) == Some(e@),
            None => json_failure(text@) is None,
        },
{
    serde_json::from_str::<serde_json::Value>(text).err().map(|e| e.to_string())
}

/// The member of that name of the object in the text, where it is a whole number
/// from 0 up to the largest `u64`.
pub uninterp spec fn json_number(text: Seq<char>, key: Seq<char>) -> Option<u64>;

/// Calls `Value::get` and `Value::as_u64`: the member as a whole number, as
/// `json_number` names it.
#[verifier::external_body]
pub(crate) fn member_number(text: &str, key: &str) -> (r: Option<u64>)
    ensures
        r == json_number(text@, key@),
{
    serde_json::from_str::<serde_json::Value>(text).ok()?.get(key)?.as_u64()
}

/// The bits of the member of that name of the object in the text, where it is a
/// number, as a 64-bit float.
pub uninterp spec fn json_real_bits(text: Seq<char>, key: Seq<char>) -> Option<u64>;

/// Calls `Value::get` and `Value::as_f64`: the bits of the member as a number,
/// as `json_real_bits` names them.
#[verifier::external_body]
pub(crate) fn member_real_bits(text: &str, key: &str) -> (r: Option<u64>)
    ensures
        r == json_real_bits(text@, key@),
{
    serde_json::from_str::<serde_json::Value>(text).ok()?.get(key)?.as_f64().map(|x| x.to_bits())
}

/// The member of that name of the object in the text, where it is true or false.
pub uninterp spec fn json_truth(text: Seq<char>, key: Seq<char>) -> Option<bool>;

/// Calls `Value::get` and `Value::as_bool`: the member as a truth value, as
/// `json_truth` names it.
#[verifier::external_body]
pub(crate) fn member_truth(text: &str, key: &str) -> (r: Option<bool>)
    ensures
        r == json_truth(text@, key@),
{
    serde_json::from_str::<serde_json::Value>(text).ok()?.get(key)?.as_bool()
}

/// The member of that name of the object in the text, where it is a string.
pub uninterp spec fn json_text(text: Seq<char>, key: Seq<char>) -> Option<Seq<char>>;

/// Calls `Value::get` and `Value::as_str`: the member as a string, as
/// `json_text` names it.
#[verifier::external_body]
pub(crate) fn member_text(text: &str, key: &str) -> (r: Option<String>)
    ensures
        match r {
            Some(s) => json_text(text@, key@) == Some(s@),
            None => json_text(text@, key@) is None,
        },
{
    let value = serde_json::from_str::<serde_json::Value>(text).ok()?;
    value.get(key)?.as_str().map(|s| s.to_owned())
}

} // verus!
