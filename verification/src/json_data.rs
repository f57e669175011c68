//! The library's own model of a parsed JSON object, and the call into `serde_json` that
//! produces it.

use vstd::prelude::*;

use crate::entries::keys_of;
use crate::error::JakeError;

verus! {

/// A JSON value, one variant for each variant of `serde_json::Value`.
#[derive(Debug)]
pub enum JsonValue {
    Null,
    Bool(bool),
    /// A number, held by its JSON rendering.
    Number(String),
    String(String),
    Array(Vec<JsonValue>),
    /// An object: its keys and values in the order that `serde_json::Map` keeps them.
    Object(Vec<(String, JsonValue)>),
}

/// A top-level JSON object: its keys and values.
pub type JsonObject = Vec<(String, JsonValue)>;

/// Names the object that `serde_json` parses out of a text, converted value by value into
/// [`JsonValue`]s; `None` where the text is not a JSON object.
pub uninterp spec fn parsed_json(text: Seq<char>) -> Option<JsonObject>;

#[verifier::external_type_specification]
#[verifier::external_body]
pub struct ExJsonError(serde_json::Error);

#[verifier::external_type_specification]
#[verifier::external_body]
pub struct ExJsonValue(serde_json::Value);

/// Parses `text` with `serde_json::from_str` into a `serde_json::Map<String, Value>` and
/// converts every value one for one into a [`JsonValue`]. Trusted: the object is named by
/// [`parsed_json`], a function of the text alone; `Err` comes exactly where the name has no
/// object (a text that is not JSON, or JSON that is not an object); the keys are distinct, as
/// the entries of a `serde_json::Map` are. Nothing is said of the error's contents.
#[verifier::external_body]
fn json_from_str(text: &str) -> (r: Result<JsonObject, serde_json::Error>)
    ensures
        r is Ok <==> parsed_json(text@) is Some,
        r matches Ok(o) ==> parsed_json(text@) == Some(o),
        r matches Ok(o) ==> keys_of(o@).no_duplicates(),
{
    match serde_json::from_str::<serde_json::Map<String, serde_json::Value>>(text) {
        Ok(m) => Ok(m.into_iter().map(|(k, v)| (k, JsonValue::from_json(v))).collect()),
        Err(e) => Err(e),
    }
}

/// The message of a `serde_json` error, by its `Display` implementation.
/// Trusted only to return; nothing is said of the text.
#[verifier::external_body]
fn json_error_text(e: &serde_json::Error) -> String {
    e.to_string()
}

impl JsonValue {
    /// Converts a `serde_json::Value` variant by variant, moving its fields. This is part of
    /// the conversion in [`json_from_str`] and is trusted with it; it has no contract of its
    /// own.
    #[verifier::external_body]
    fn from_json(v: serde_json::Value) -> JsonValue {
        match v {
            serde_json::Value::Null => JsonValue::Null,
            serde_json::Value::Bool(b) => JsonValue::Bool(b),
            serde_json::Value::Number(n) => JsonValue::Number(n.to_string()),
            serde_json::Value::String(s) => JsonValue::String(s),
            serde_json::Value::Array(a) => JsonValue::Array(a.into_iter().map(JsonValue::from_json).collect()),
            serde_json::Value::Object(m) => JsonValue::Object(
                m.into_iter().map(|(k, v)| (k, JsonValue::from_json(v))).collect(),
            ),
        }
    }
}

/// Parses a JSON object; a text that is not one gives `JakeError::Parse` with the parser's
/// message.
pub fn parse_json_object(text: &str) -> (r: Result<JsonObject, JakeError>)
    ensures
        r is Ok <==> parsed_json(text@) is Some,
        r matches Ok(o) ==> parsed_json(text@) == Some(o),
        r matches Ok(o) ==> keys_of(o@).no_duplicates(),
        r matches Err(e) ==> e is Parse,
{
    match json_from_str(text) {
        Ok(o) => Ok(o),
        Err(e) => Err(JakeError::Parse(json_error_text(&e))),
    }
}

} // verus!
