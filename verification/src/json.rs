//! JSON documents as `serde_json` parses them, and the model that the
//! contracts of this crate use to speak of them.

use vstd::prelude::*;

verus! {

/// A JSON value as a mathematical object. Numbers are kept without their
/// magnitude: nothing in this crate reads one.
pub enum Json {
    Null,
    Bool(bool),
    Number,
    Text(Seq<char>),
    Array(Seq<Json>),
    Object(Map<Seq<char>, Json>),
}

/// `serde_json::Value`, a parsed JSON value. Verified code carries it
/// around and never looks inside.
#[verifier::external_type_specification]
#[verifier::external_body]
pub struct ExValue(serde_json::Value);

/// What a `serde_json::Value` holds, as a [`Json`].
pub uninterp spec fn json_model(value: serde_json::Value) -> Json;

/// The document that `serde_json::from_str` reads from a text, or `None`
/// where it reports an error: the text is no single well-formed JSON value,
/// or nests deeper than the parser allows.
pub uninterp spec fn json_parse(text: Seq<char>) -> Option<Json>;

/// The member of `value` under `key`: present only where `value` is an
/// object that has the key.
pub open spec fn json_member(value: Json, key: Seq<char>) -> Option<Json> {
    match value {
        Json::Object(members) => if members.contains_key(key) {
            Some(members[key])
        } else {
            None
        },
        _ => None,
    }
}

/// The text of `value`, where it is a JSON string.
pub open spec fn json_text(value: Json) -> Option<Seq<char>> {
    match value {
        Json::Text(text) => Some(text),
        _ => None,
    }
}

/// Parses a text with `serde_json::from_str` into a `serde_json::Value`,
/// dropping the error's detail. Trusted: the outcome is the one that
/// [`json_parse`] names for this text.
#[verifier::external_body]
pub(crate) fn parse_document(text: &str) -> (document: Option<serde_json::Value>)
    ensures
        match document {
            Some(value) => json_parse(text@) == Some(json_model(value)),
            None => json_parse(text@) is None,
        },
{
    serde_json::from_str::<serde_json::Value>(text).ok()
}

/// Looks a key up with `serde_json::Value::get`. Trusted: the result is the
/// member stored under that key when the value is an object holding it, and
/// `None` for a missing key and for every value that is not an object.
#[verifier::external_body]
pub(crate) fn member<'a>(value: &'a serde_json::Value, key: &str) -> (found: Option<
    &'a serde_json::Value,
>)
    ensures
        match found {
            Some(inner) => json_member(json_model(*value), key@) == Some(json_model(*inner)),
            None => json_member(json_model(*value), key@) is None,
        },
{
    value.get(key)
}

/// `serde_json::Value::as_str` yields the text of a JSON string and `None`
/// for every other kind of value.
pub assume_specification[ serde_json::Value::as_str ](value: &serde_json::Value) -> (text: Option<
    &str,
>)
    ensures
        match text {
            Some(s) => json_text(json_model(*value)) == Some(s@),
            None => json_text(json_model(*value)) is None,
        },
;

} // verus!
