//! The library's own model of a parsed TOML document, and the call into the
//! `toml` crate that produces it.

use vstd::prelude::*;

use crate::entries::keys_of;

verus! {

/// A TOML value, one variant for each variant of `toml::Value`.
#[derive(Debug)]
pub enum TomlValue {
    String(String),
    Integer(i64),
    /// A float, held by the bits of its IEEE-754 encoding.
    Float(u64),
    Boolean(bool),
    /// A date-time, held by its TOML rendering.
    Datetime(String),
    Array(Vec<TomlValue>),
    /// A table: its keys and values in document order.
    Table(Vec<(String, TomlValue)>),
}

/// A top-level TOML table: its keys and values in document order.
pub type TomlTable = Vec<(String, TomlValue)>;

/// Names the table that the `toml` crate parses out of a text, converted value by value
/// into [`TomlValue`]s; `None` where the text is not a TOML document.
pub uninterp spec fn parsed_toml(text: Seq<char>) -> Option<TomlTable>;

#[verifier::external_type_specification]
#[verifier::external_body]
pub struct ExTomlError(toml::de::Error);

#[verifier::external_type_specification]
#[verifier::external_body]
pub struct ExTomlValue(toml::Value);

/// Parses `text` with `<toml::Table as FromStr>::from_str` (that is, `toml::from_str`), with the
/// crate's `preserve_order` feature so that keys keep their document order, and converts every
/// value one for one into a [`TomlValue`]. Trusted: the table is named by [`parsed_toml`], a
/// function of the text alone; `Err` comes exactly where the name has no table; the top-level
/// keys are distinct, as the entries of a `toml::map::Map` are. Nothing is said of the
/// error's contents.
#[verifier::external_body]
fn toml_from_str(text: &str) -> (r: Result<TomlTable, toml::de::Error>)
    ensures
        r is Ok <==> parsed_toml(text@) is Some,
        r matches Ok(t) ==> parsed_toml(text@) == Some(t),
        r matches Ok(t) ==> keys_of(t@).no_duplicates(),
{
    match text.parse::<toml::Table>() {
        Ok(t) => Ok(t.into_iter().map(|(k, v)| (k, TomlValue::from_toml(v))).collect()),
        Err(e) => Err(e),
    }
}

/// The message of a `toml` parse error, by its `Display` implementation.
/// Trusted only to return; nothing is said of the text.
#[verifier::external_body]
fn toml_error_text(e: &toml::de::Error) -> String {
    e.to_string()
}

impl TomlValue {
    /// Converts a `toml::Value` variant by variant, moving its fields. This is part of the
    /// conversion in [`toml_from_str`] and is trusted with it; it has no contract of its own.
    #[verifier::external_body]
    fn from_toml(v: toml::Value) -> TomlValue {
        match v {
            toml::Value::String(s) => TomlValue::String(s),
            toml::Value::Integer(i) => TomlValue::Integer(i),
            toml::Value::Float(f) => TomlValue::Float(f.to_bits()),
            toml::Value::Boolean(b) => TomlValue::Boolean(b),
            toml::Value::Datetime(d) => TomlValue::Datetime(d.to_string()),
            toml::Value::Array(a) => TomlValue::Array(a.into_iter().map(TomlValue::from_toml).collect()),
            toml::Value::Table(t) => TomlValue::Table(
                t.into_iter().map(|(k, v)| (k, TomlValue::from_toml(v))).collect(),
            ),
        }
    }
}

/// Parses a TOML text into the library's model; a text that does not parse gives
/// `JakeError::Parse` with the parser's message.
pub fn parse_toml(text: &str) -> (r: Result<TomlTable, crate::error::JakeError>)
    ensures
        r is Ok <==> parsed_toml(text@) is Some,
        r matches Ok(t) ==> parsed_toml(text@) == Some(t),
        r matches Ok(t) ==> keys_of(t@).no_duplicates(),
        r matches Err(e) ==> e is Parse,
{
    match toml_from_str(text) {
        Ok(t) => Ok(t),
        Err(e) => Err(crate::error::JakeError::Parse(toml_error_text(&e))),
    }
}

} // verus!
