//! The bridge between raw bytes and [`Json`] documents.
//!
//! Parsing and serialization are done by the outside JSON library; both are
//! deterministic functions of their input, so each is given a name that the
//! callers' contracts use exactly.

use crate::json::{JVal, Json};
use serde_json::Value;
use vstd::prelude::*;

verus! {

/// The outside JSON library's value type, declared so that the conversion
/// helpers below can take and return it; the library's code never looks
/// inside a value of it.
#[verifier::external_type_specification]
#[verifier::external_body]
pub struct ExValue(Value);

/// What parsing a byte string as JSON yields: `None` on a syntax error.
pub uninterp spec fn json_parse(s: Seq<u8>) -> Option<JVal>;

/// The compact serialization of a document.
pub uninterp spec fn json_ser(j: JVal) -> Seq<u8>;

/// The pretty-printed serialization of a document.
pub uninterp spec fn json_ser_pretty(j: JVal) -> Seq<u8>;

/// Relies on serde_json::Value's variants: translates a parsed value into
/// the library's document type, one node for one node.  A number that is a
/// `u64` becomes `UInt`; any other number keeps its decimal text.
#[verifier::external_body]
fn value_to_json(v: &Value) -> Json {
    match v {
        Value::Null => Json::Null,
        Value::Bool(b) => Json::Bool(*b),
        Value::Number(n) => match n.as_u64() {
            Some(u) => Json::UInt(u),
            None => Json::NumStr(n.to_string()),
        },
        Value::String(s) => Json::Str(s.clone()),
        Value::Array(a) => Json::Arr(a.iter().map(|x| value_to_json(x)).collect()),
        Value::Object(m) => Json::Obj(
            m.iter().map(|(k, x)| (k.clone(), value_to_json(x))).collect(),
        ),
    }
}

/// Relies on serde_json::Value's variants: translates a library document
/// back, one node for one node; the decimal text of a `NumStr` is re-read
/// through serde_json::Number's string parsing.
#[verifier::external_body]
fn json_to_value(j: &Json) -> Value {
    match j {
        Json::Null => Value::Null,
        Json::Bool(b) => Value::Bool(*b),
        Json::UInt(n) => Value::from(*n),
        Json::NumStr(s) => match s.parse::<serde_json::Number>() {
            Ok(n) => Value::Number(n),
            Err(_) => Value::String(s.clone()),
        },
        Json::Str(s) => Value::String(s.clone()),
        Json::Arr(a) => Value::Array(a.iter().map(|x| json_to_value(x)).collect()),
        Json::Obj(m) => Value::Object(
            m.iter().map(|p| (p.0.clone(), json_to_value(&p.1))).collect(),
        ),
    }
}

/// Relies on serde_json::from_slice: parsing is a deterministic function of
/// the input bytes, and fails exactly where the parser refuses them — on a
/// syntax error, or on nesting beyond the parser's fixed recursion limit.
#[verifier::external_body]
pub(crate) fn parse_json(bytes: &[u8]) -> (r: Option<Json>)
    ensures
        r.deep_view() == json_parse(bytes@),
{
    serde_json::from_slice::<serde_json::Value>(bytes).ok().map(|v| value_to_json(&v))
}

/// Relies on serde_json::to_vec: compact serialization is a deterministic
/// function of the document, and on these documents it cannot fail — the
/// serializer errors only through its writer, the writer here is a growable
/// buffer, and every node the converter builds serializes.
#[verifier::external_body]
pub(crate) fn json_to_vec(j: &Json) -> (r: Vec<u8>)
    ensures
        r@ == json_ser(j.deep_view()),
{
    serde_json::to_vec(&json_to_value(j)).unwrap()
}

/// Relies on serde_json::to_vec_pretty: pretty serialization is a
/// deterministic function of the document, and cannot fail, for the same
/// reasons as the compact form.
#[verifier::external_body]
pub(crate) fn json_to_vec_pretty(j: &Json) -> (r: Vec<u8>)
    ensures
        r@ == json_ser_pretty(j.deep_view()),
{
    serde_json::to_vec_pretty(&json_to_value(j)).unwrap()
}

} // verus!
