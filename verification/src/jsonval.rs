//! Trusted boundary around serde_json's `Value`.
//!
//! A parsed document is opaque here; what the contracts need of it is
//! named by uninterpreted functions: whether a text parses, the value it
//! parses to, and what a value's fields, elements, and scalar readings
//! are. serde_json computes all of these from its inputs alone, so equal
//! inputs name equal results.

use vstd::prelude::*;

verus! {

#[verifier::external_type_specification]
#[verifier::external_body]
pub struct ExValue(serde_json::Value);

/// Whether `s` is a parseable JSON document.
pub uninterp spec fn json_text_parses(s: Seq<char>) -> bool;

/// The document `s` parses to.
pub uninterp spec fn json_text_value(s: Seq<char>) -> serde_json::Value;

/// The member of object `v` under `key`, if `v` is an object with that key.
pub uninterp spec fn value_entry(v: serde_json::Value, key: Seq<char>) -> Option<serde_json::Value>;

/// The chars of `v`, if `v` is a string.
pub uninterp spec fn value_str(v: serde_json::Value) -> Option<Seq<char>>;

/// The reading of `v` as a u64, if `v` is a number representable as one.
pub uninterp spec fn value_u64(v: serde_json::Value) -> Option<u64>;

/// The elements of `v`, if `v` is an array.
pub uninterp spec fn value_elems(v: serde_json::Value) -> Option<Seq<serde_json::Value>>;

/// Whether `v` is the JSON null.
pub uninterp spec fn value_is_null(v: serde_json::Value) -> bool;

/// Relies on serde_json::from_str::<Value>: success and the parsed value
/// are functions of the input text alone.
#[verifier::external_body]
pub(crate) fn parse_json(s: &str) -> (r: Option<serde_json::Value>)
    ensures
        r is Some <==> json_text_parses(s@),
        r matches Some(v) ==> v == json_text_value(s@),
{
    serde_json::from_str::<serde_json::Value>(s).ok()
}

/// Relies on serde_json::Value::get with a string index: the member of an
/// object under a key, None for a missing key or a non-object.
#[verifier::external_body]
pub(crate) fn json_get<'a>(v: &'a serde_json::Value, key: &str) -> (r: Option<
    &'a serde_json::Value,
>)
    ensures
        r is Some <==> value_entry(*v, key@) is Some,
        r matches Some(m) ==> value_entry(*v, key@) == Some(*m),
{
    v.get(key)
}

/// Relies on serde_json::Value::as_str: the string slice of a JSON string,
/// None otherwise.
#[verifier::external_body]
pub(crate) fn json_as_str<'a>(v: &'a serde_json::Value) -> (r: Option<&'a str>)
    ensures
        r is Some <==> value_str(*v) is Some,
        r matches Some(s) ==> value_str(*v) == Some(s@),
{
    v.as_str()
}

/// Relies on serde_json::Value::as_u64: the u64 reading of a JSON number
/// that fits one, None otherwise.
#[verifier::external_body]
pub(crate) fn json_as_u64(v: &serde_json::Value) -> (r: Option<u64>)
    ensures
        r == value_u64(*v),
{
    v.as_u64()
}

/// Relies on serde_json::Value::as_array: the element vector of a JSON
/// array, None otherwise.
#[verifier::external_body]
pub(crate) fn json_as_array<'a>(v: &'a serde_json::Value) -> (r: Option<&'a Vec<serde_json::Value>>)
    ensures
        r is Some <==> value_elems(*v) is Some,
        r matches Some(a) ==> value_elems(*v) == Some(a@),
{
    v.as_array()
}

/// Relies on serde_json::Value::is_null.
#[verifier::external_body]
pub(crate) fn json_is_null(v: &serde_json::Value) -> (r: bool)
    ensures
        r == value_is_null(*v),
{
    v.is_null()
}

} // verus!
