use vstd::prelude::*;

verus! {

/// A JSON document as the library reads it: numbers are kept as the
/// unsigned integer they hold, where they hold one.
#[derive(Debug)]
pub enum JsonValue {
    Null,
    Bool(bool),
    Number(Option<u64>),
    Text(String),
    Array(Vec<JsonValue>),
    Object(Vec<(String, JsonValue)>),
}

/// Trusted: declares `serde_json::Value`, the parsed document that is
/// converted into a `JsonValue`; nothing is read from it here.
#[verifier::external_type_specification]
#[verifier::external_body]
pub struct ExJsonValue(serde_json::Value);

/// The JSON document encoded in `bytes`, as serde_json parses it; none where
/// the bytes are not one JSON document.
pub uninterp spec fn json_document(bytes: Seq<u8>) -> Option<JsonValue>;

/// Trusted: `serde_json::from_slice::<serde_json::Value>` over the bytes,
/// converted variant for variant (numbers through `Number::as_u64`, objects
/// entry for entry in the map's order). The result is named, not stated:
/// parsing JSON takes pages to state, and it depends on the bytes alone.
#[verifier::external_body]
pub(crate) fn parse_json(bytes: &[u8]) -> (r: Option<JsonValue>)
    ensures
        r == json_document(bytes@),
{
    match serde_json::from_slice::<serde_json::Value>(bytes) {
        Ok(v) => Some(json_from_value(v)),
        Err(_) => None,
    }
}

/// Trusted: converts a `serde_json::Value` variant for variant, moving its
/// fields (numbers through `Number::as_u64`); it states nothing, and serves
/// `parse_json` only.
#[verifier::external_body]
fn json_from_value(v: serde_json::Value) -> JsonValue {
    match v {
        serde_json::Value::Null => JsonValue::Null,
        serde_json::Value::Bool(b) => JsonValue::Bool(b),
        serde_json::Value::Number(n) => JsonValue::Number(n.as_u64()),
        serde_json::Value::String(t) => JsonValue::Text(t),
        serde_json::Value::Array(a) => JsonValue::Array(a.into_iter().map(json_from_value).collect()),
        serde_json::Value::Object(m) => JsonValue::Object(
            m.into_iter().map(|(k, x)| (k, json_from_value(x))).collect(),
        ),
    }
}

} // verus!
