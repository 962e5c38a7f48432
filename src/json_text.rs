//! The JSON text of a value, as serde_json writes it.
use vstd::prelude::*;

use crate::value::{json_of, value_wf, Json, JsonValue};

verus! {

/// The compact JSON text that serde_json writes for a value, keys sorted.
pub uninterp spec fn json_text(v: Json) -> Seq<char>;

#[verifier::external_type_specification]
#[verifier::external_body]
pub struct ExJsonValue(serde_json::Value);

/// Relies on serde_json's `Value` and `Number`: the serde_json value with the
/// content of `v`, entry by entry (a later entry wins a repeated key, as in
/// the model); a number whose text serde_json does not read becomes null.
#[verifier::external_body]
fn serde_value_of(v: &JsonValue) -> serde_json::Value {
    match v {
        JsonValue::Null => serde_json::Value::Null,
        JsonValue::Bool(b) => serde_json::Value::Bool(*b),
        JsonValue::Number(n) => n.parse::<serde_json::Number>().map(serde_json::Value::Number).unwrap_or(serde_json::Value::Null),
        JsonValue::String(s) => serde_json::Value::String(s.clone()),
        JsonValue::Array(items) => serde_json::Value::Array(items.iter().map(serde_value_of).collect()),
        JsonValue::Object(e) => serde_json::Value::Object(e.iter().map(|(k, x)| (k.clone(), serde_value_of(x))).collect()),
    }
}

/// Relies on `serde_json::to_string`: the compact JSON text of `v`, which
/// cannot fail on a `serde_json::Value`. No object of `v` repeats a key, so
/// the text depends on the model of `v` alone, since serde_json's maps keep
/// their keys sorted.
#[verifier::external_body]
pub(crate) fn json_text_of(v: &JsonValue) -> (r: String)
    requires
        value_wf(*v),
    ensures
        r@ == json_text(json_of(*v)),
{
    serde_json::to_string(&serde_value_of(v)).unwrap_or_default()
}

} // verus!
