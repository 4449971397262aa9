//! The bridge to the JSON implementation that parses the operator's value
//! text. The parsed value is kept only long enough to obtain its canonical
//! compact rendering, which is what the document stores and embeds.

use vstd::prelude::*;

verus! {

#[verifier::external_type_specification]
#[verifier::external_body]
pub struct ExJsonValue(serde_json::Value);

/// The canonical compact rendering of the JSON value denoted by the text
/// `s`, or `None` if `s` is not well-formed JSON. Both parsing and the
/// compact rendering depend on the text alone.
pub uninterp spec fn json_canon(s: Seq<char>) -> Option<Seq<char>>;

/// The canonical compact rendering of the JSON value `v`, a function of the
/// value alone.
pub uninterp spec fn json_text_of(v: serde_json::Value) -> Seq<char>;

/// Relies on `serde_json::from_str::<Value>`: it returns `Ok` exactly when
/// the text is well-formed JSON, and which value it parses depends on the
/// text alone.
#[verifier::external_body]
pub fn parse_json_value(s: &str) -> (r: Option<serde_json::Value>)
    ensures
        r is Some <==> json_canon(s@) is Some,
        r is Some ==> json_text_of(r->0) == json_canon(s@)->0,
{
    serde_json::from_str::<serde_json::Value>(s).ok()
}

/// Relies on the `Display` rendering of `serde_json::Value` (through
/// `to_string`): it writes the value as compact JSON text, a function of the
/// value alone.
#[verifier::external_body]
pub fn json_value_to_text(v: &serde_json::Value) -> (r: String)
    ensures
        r@ == json_text_of(*v),
{
    v.to_string()
}

/// The canonical compact text of `s`, or `None` if `s` is not well-formed
/// JSON.
pub fn canonical_json_text(s: &str) -> (r: Option<String>)
    ensures
        r is Some <==> json_canon(s@) is Some,
        r is Some ==> r->0@ == json_canon(s@)->0,
{
    match parse_json_value(s) {
        Some(v) => Some(json_value_to_text(&v)),
        None => None,
    }
}

} // verus!
