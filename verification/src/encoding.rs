use vstd::prelude::*;

use crate::json::{Json, JsonNumber, JsonView};

verus! {

/// `serde_json::Error`.
#[verifier::external_type_specification]
#[verifier::external_body]
pub struct ExJsonError(serde_json::Error);

/// `serde_json::Value`.
#[verifier::external_type_specification]
#[verifier::external_body]
pub struct ExJsonValue(serde_json::Value);

/// The document that `serde_json::from_str` reads from a text, or `None` where it fails.
pub uninterp spec fn json_text_value(text: Seq<char>) -> Option<JsonView>;

/// The document that `serde_json::from_slice` reads from bytes, or `None` where it fails.
pub uninterp spec fn json_bytes_value(bytes: Seq<u8>) -> Option<JsonView>;

/// The bytes that `serde_json::to_vec` writes for a document.
pub uninterp spec fn json_bytes_of(v: JsonView) -> Seq<u8>;

/// The deepest nesting of arrays and objects that `serde_json` reads: its
/// reader refuses a 128th level.
pub open spec fn max_read_depth() -> nat {
    127
}

/// Reads a JSON text with `serde_json::from_str`.  The contract claims that the
/// result is the named reading of the text, that its objects hold their keys
/// in increasing order, as the `BTreeMap` of a `serde_json::Map` does, and that
/// it nests no deeper than the reader allows.
#[verifier::external_body]
pub(crate) fn read_json_text(text: &str) -> (r: Result<Json, serde_json::Error>)
    ensures
        match r {
            Ok(v) => json_text_value(text@) == Some(v@) && v@.wf() && v@.depth_within(max_read_depth()),
            Err(_) => json_text_value(text@) is None,
        },
{
    match serde_json::from_str::<serde_json::Value>(text) {
        Ok(v) => Ok(from_serde(v)),
        Err(e) => Err(e),
    }
}

/// Reads JSON bytes with `serde_json::from_slice`.  The contract claims what
/// that of `read_json_text` claims, for bytes.
#[verifier::external_body]
pub(crate) fn read_json_bytes(bytes: &[u8]) -> (r: Result<Json, serde_json::Error>)
    ensures
        match r {
            Ok(v) => json_bytes_value(bytes@) == Some(v@) && v@.wf() && v@.depth_within(max_read_depth()),
            Err(_) => json_bytes_value(bytes@) is None,
        },
{
    match serde_json::from_slice::<serde_json::Value>(bytes) {
        Ok(v) => Ok(from_serde(v)),
        Err(e) => Err(e),
    }
}

/// Writes a document with `serde_json::to_vec`, which cannot fail on a
/// `serde_json::Value`.  The contract claims that the bytes are the named
/// writing of the document, and that reading them back gives the document when
/// its objects are sorted, its numbers are integers and it nests no deeper
/// than the reader allows; of other documents (with float numbers, which need
/// not read back bit for bit, or nested too deep for the reader) it claims
/// nothing more.
#[verifier::external_body]
pub(crate) fn write_json_bytes(v: &Json) -> (r: Vec<u8>)
    ensures
        r@ == json_bytes_of(v@),
        v@.wf() && v@.integral() && v@.depth_within(max_read_depth()) ==> json_bytes_value(r@) == Some(v@),
{
    serde_json::to_vec(&to_serde(v)).unwrap_or_default()
}

/// The message of a `serde_json::Error` (its `Display`).
#[verifier::external_body]
pub(crate) fn json_error_message(e: &serde_json::Error) -> (r: String) {
    e.to_string()
}

/// Reads a JSON document from a text: the document, or the message of the
/// error that reading gave.
pub fn parse_json(text: &str) -> (r: Result<Json, String>)
    ensures
        match r {
            Ok(v) => json_text_value(text@) == Some(v@) && v@.wf() && v@.depth_within(max_read_depth()),
            Err(_) => json_text_value(text@) is None,
        },
{
    match read_json_text(text) {
        Ok(v) => Ok(v),
        Err(e) => Err(json_error_message(&e)),
    }
}

/// A `serde_json::Value` as a `Json`, variant by variant.
#[verifier::external_body]
fn from_serde(v: serde_json::Value) -> Json {
    match v {
        serde_json::Value::Null => Json::Null,
        serde_json::Value::Bool(b) => Json::Bool(b),
        serde_json::Value::Number(n) => Json::Number(JsonNumber::from_number(n)),
        serde_json::Value::String(s) => Json::Str(s),
        serde_json::Value::Array(a) => Json::Array(a.into_iter().map(from_serde).collect()),
        serde_json::Value::Object(m) => Json::Object(m.into_iter().map(|(k, x)| (k, from_serde(x))).collect()),
    }
}

/// A `Json` as a `serde_json::Value`, variant by variant.
#[verifier::external_body]
fn to_serde(v: &Json) -> serde_json::Value {
    match v {
        Json::Null => serde_json::Value::Null,
        Json::Bool(b) => serde_json::Value::Bool(*b),
        Json::Number(n) => serde_json::Value::Number(n.serde_number().clone()),
        Json::Str(s) => serde_json::Value::String(s.clone()),
        Json::Array(a) => serde_json::Value::Array(a.iter().map(to_serde).collect()),
        Json::Object(o) => serde_json::Value::Object(o.iter().map(|(k, x)| (k.clone(), to_serde(x))).collect()),
    }
}

} // verus!
