use vstd::prelude::*;
use crate::json::{JsonNumber, JsonValue};
use serde_json::Value;

verus! {

#[verifier::external_type_specification]
#[verifier::external_body]
pub struct ExSerdeJsonValue(serde_json::Value);

/// The JSON value that `serde_json::from_str::<Value>` reads from a text,
/// or nothing when the text is not JSON.
pub uninterp spec fn decoded_json(text: Seq<char>) -> Option<JsonValue>;

/// The list of strings that `serde_json::from_str::<Vec<String>>` reads
/// from a text, or nothing when the text is not a JSON array of strings.
pub uninterp spec fn decoded_string_list(text: Seq<char>) -> Option<Seq<Seq<char>>>;

/// The map that `serde_json::from_str` reads from a text as an object whose
/// values are all `u64`, or nothing when the text is not such an object.
pub uninterp spec fn decoded_u64_object(text: Seq<char>) -> Option<Map<Seq<char>, u64>>;

/// serde_json's `Value` as the library holds a JSON value: each variant as
/// the same variant, a number as `Number::as_u64` gives it, else as
/// `Number::as_i64` gives it, else by `Number`'s `Display` text; array items
/// and object entries in the order `Value` holds them.
#[verifier::external_body]
pub(crate) fn json_value_of(value: &Value) -> JsonValue {
    match value {
        Value::Null => JsonValue::Null,
        Value::Bool(b) => JsonValue::Bool(*b),
        Value::Number(n) => JsonValue::Number(match (n.as_u64(), n.as_i64()) {
            (Some(u), _) => JsonNumber::PosInt(u),
            (None, Some(i)) => JsonNumber::NegInt(i),
            (None, None) => JsonNumber::Float(n.to_string()),
        }),
        Value::String(s) => JsonValue::String(s.clone()),
        Value::Array(items) => JsonValue::Array(items.iter().map(json_value_of).collect()),
        Value::Object(map) => JsonValue::Object(
            map.iter().map(|(k, v)| (k.clone(), json_value_of(v))).collect(),
        ),
    }
}

/// A serde_json value held as the library holds one (see `json_value_of`).
/// Nothing is stated of the result: the outside value is opaque here. The
/// functions that convert several values state, by `call_ensures` of this
/// function, which given value each result was converted from.
pub fn from_serde_value(value: &Value) -> JsonValue {
    json_value_of(value)
}

/// `serde_json::from_str::<Value>`: the JSON value of a text, held as the
/// library holds one (see `json_value_of`), or nothing when the text is not
/// JSON. The value is named by `decoded_json`; nothing more is stated.
#[verifier::external_body]
pub(crate) fn decode_json(text: &str) -> (r: Option<JsonValue>)
    ensures
        r == decoded_json(text@),
{
    match serde_json::from_str::<serde_json::Value>(text) {
        Ok(v) => Some(json_value_of(&v)),
        Err(_) => None,
    }
}

/// `serde_json::from_str::<Vec<String>>`: the strings of a JSON array of
/// strings, in order, or nothing when the text is not one. The list is
/// named by `decoded_string_list`.
#[verifier::external_body]
pub(crate) fn decode_string_list(text: &str) -> (r: Option<Vec<String>>)
    ensures
        match r {
            None => decoded_string_list(text@) is None,
            Some(v) => decoded_string_list(text@) == Some(v@.map_values(|s: String| s@)),
        },
{
    match serde_json::from_str::<Vec<String>>(text) {
        Ok(v) => Some(v),
        Err(_) => None,
    }
}

/// `serde_json::from_str::<BTreeMap<String, u64>>`: the entries of a JSON
/// object whose values are all `u64`, each name once, or nothing when the
/// text is not such an object. The map is named by `decoded_u64_object`;
/// the entries hold exactly its names, each with its value.
#[verifier::external_body]
pub(crate) fn decode_u64_object(text: &str) -> (r: Option<Vec<(String, u64)>>)
    ensures
        match r {
            None => decoded_u64_object(text@) is None,
            Some(v) => decoded_u64_object(text@) matches Some(m) && (forall|i: int|
                0 <= i < v@.len() ==> m.contains_key(#[trigger] v@[i].0@) && m[v@[i].0@]
                    == v@[i].1) && (forall|k: Seq<char>| #[trigger]
                m.contains_key(k) ==> exists|i: int| 0 <= i < v@.len() && #[trigger] v@[i].0@ == k),
        },
{
    match serde_json::from_str::<std::collections::BTreeMap<String, u64>>(text) {
        Ok(m) => Some(m.into_iter().collect()),
        Err(_) => None,
    }
}

} // verus!
