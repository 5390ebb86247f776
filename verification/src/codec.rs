//! Reading the protocol's control fields out of a JSON text frame.
//!
//! JSON parsing itself is an external collaborator: `serde_json` does it
//! behind the one trusted wrapper below, and the session logic is verified
//! against the name given to its result.

use vstd::prelude::*;

verus! {

/// The string value at a top-level field of a JSON document: `Some` exactly
/// when the text parses as JSON, carries that field, and the field's value is
/// a string. The outcome is a function of the text and the field name alone.
pub uninterp spec fn json_string_field_of(text: Seq<char>, field: Seq<char>) -> Option<Seq<char>>;

/// Relies on serde_json::from_str, serde_json::Value::get and
/// serde_json::Value::as_str: parsing a text and reading one named field is
/// deterministic in (text, field), so the result is `json_string_field_of`.
#[verifier::external_body]
pub(crate) fn json_string_field(text: &str, field: &str) -> (r: Option<String>)
    ensures
        (match json_string_field_of(text@, field@) {
            Some(v) => r matches Some(s) && s@ == v,
            None => r is None,
        }),
{
    match serde_json::from_str::<serde_json::Value>(text) {
        Ok(doc) => match doc.get(field) {
            Some(value) => value.as_str().map(|s| s.to_string()),
            None => None,
        },
        Err(_) => None,
    }
}

} // verus!
