//! Reading JSON text and the clock, through `serde_json` and `time`.

use vstd::prelude::*;

use serde_json::Value as JsonValue;

use crate::value::{opt_json_view, Json, JsonV, Leaf};

verus! {

/// The document that `serde_json::from_str` reads from `text`, converted one
/// for one into a `Json`; `None` when `text` is not JSON.
pub uninterp spec fn json_text(text: Seq<char>) -> Option<JsonV>;

/// Reads `text` as JSON (`serde_json::from_str::<serde_json::Value>`) and
/// converts the document. The result is named by `json_text`; nothing more is
/// claimed of it.
#[verifier::external_body]
pub(crate) fn parse_json(text: &str) -> (r: Option<Json>)
    ensures
        opt_json_view(r) == json_text(text@),
{
    match serde_json::from_str::<serde_json::Value>(text) {
        Ok(v) => Some(json_of(&v)),
        Err(_) => None,
    }
}

/// A JSON document of `serde_json`.
#[verifier::external_type_specification]
#[verifier::external_body]
pub struct ExJsonValue(serde_json::Value);

/// Converts a `serde_json::Value` one for one: numbers become unsigned or
/// signed integers when `serde_json` holds them so, floats keep their bits,
/// object members keep the order of the map. Nothing is claimed of it.
#[verifier::external_body]
fn json_of(v: &JsonValue) -> Json {
    let leaf = match v {
        JsonValue::Null => Leaf::Null,
        JsonValue::Bool(b) => Leaf::Bool(*b),
        JsonValue::Number(n) => n.as_u64().map(Leaf::U64).or(n.as_i64().map(Leaf::I64)).unwrap_or(
            Leaf::F64(n.as_f64().map_or(0, |x| x.to_bits())),
        ),
        JsonValue::String(s) => Leaf::String(s.clone()),
        JsonValue::Array(a) => return Json::Array(a.iter().map(json_of).collect()),
        JsonValue::Object(o) => return Json::Object(o.iter().map(|(k, v)| (k.clone(), json_of(v))).collect()),
    };
    Json::Scalar(leaf)
}

/// A high-resolution clock in nanoseconds (`time::precise_time_ns`). Nothing
/// is claimed of the reading.
#[verifier::external_body]
pub(crate) fn precise_time_ns() -> u64 {
    time::precise_time_ns()
}

} // verus!
