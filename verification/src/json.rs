//! The JSON decoder that the header is read with, and what this crate
//! relies on about it.
//!
//! Decoding is done by `serde_json`. Its values are opaque to the proofs:
//! this module gives them a mathematical model, [`Json`], and states for
//! every function of `serde_json` that the crate calls what it returns in
//! terms of that model. Nothing in this module is proved; everything else in
//! the crate is proved from it.

use vstd::prelude::*;

verus! {

/// A number as `serde_json` holds it.
pub enum JsonNumber {
    /// An integer that is not negative and is held as a `u64`.
    Unsigned(u64),
    /// A negative integer, held as an `i64`.
    Negative(i64),
    /// Any other number, held as a float.
    Fraction,
}

/// The model of a JSON value: what a `serde_json::Value` holds, with each
/// object as a map from its keys to its members.
pub enum Json {
    Null,
    Bool(bool),
    Number(JsonNumber),
    Text(Seq<char>),
    Array(Seq<Json>),
    Object(Map<Seq<char>, Json>),
}

/// `serde_json::Value`, a JSON value. The proofs see nothing inside it.
#[verifier::external_type_specification]
#[verifier::external_body]
pub struct ExValue(serde_json::Value);

/// `serde_json::Map`, the members of a JSON object by key. The proofs see
/// nothing inside it.
#[verifier::external_type_specification]
#[verifier::external_body]
#[verifier::reject_recursive_types(K)]
#[verifier::reject_recursive_types(V)]
pub struct ExMap<K, V>(serde_json::Map<K, V>);

/// `serde_json::Error`, the decoder's account of why a text is refused. It
/// is handed on as it is.
#[verifier::external_type_specification]
#[verifier::external_body]
pub struct ExError(serde_json::Error);

/// A JSON object as `serde_json` holds it.
pub type JsonObject = serde_json::Map<String, serde_json::Value>;

/// What a `serde_json::Value` holds.
pub uninterp spec fn value_content(v: serde_json::Value) -> Json;

/// What a `serde_json::Map` holds: its members, by key.
pub uninterp spec fn object_members(m: JsonObject) -> Map<Seq<char>, Json>;

/// The members of the object that `serde_json::from_str` decodes a text to,
/// or `None` where it refuses the text. The decoder looks at the text and
/// at nothing else.
pub uninterp spec fn decoded_object(text: Seq<char>) -> Option<Map<Seq<char>, Json>>;

/// `serde_json::from_str`, asked for a `Map<String, Value>`: it decodes the
/// text as one JSON object, or reports an error. What it decodes the text
/// to is named [`decoded_object`]; nothing more is claimed.
#[verifier::external_body]
pub(crate) fn decode_object(text: &str) -> (r: Result<
    serde_json::Map<String, serde_json::Value>,
    serde_json::Error,
>)
    ensures
        match r {
            Ok(m) => decoded_object(text@) == Some(object_members(m)),
            Err(_) => decoded_object(text@) is None,
        },
{
    serde_json::from_str::<serde_json::Map<String, serde_json::Value>>(text)
}

/// `Value::as_object`: the members of a value that is an object, and `None`
/// for any other value.
pub assume_specification<'a>[ serde_json::Value::as_object ](v: &'a serde_json::Value) -> (r: Option<
    &'a serde_json::Map<String, serde_json::Value>,
>)
    ensures
        match r {
            Some(m) => value_content(*v) == Json::Object(object_members(*m)),
            None => !(value_content(*v) is Object),
        },
;

/// `Value::as_str`: the text of a value that is a string, and `None` for
/// any other value.
pub assume_specification<'a>[ serde_json::Value::as_str ](v: &'a serde_json::Value) -> (r: Option<&'a str>)
    ensures
        match r {
            Some(s) => value_content(*v) == Json::Text(s@),
            None => !(value_content(*v) is Text),
        },
;

/// `Value::as_u64`: the number of a value that is an integer held as a
/// `u64`, and `None` for any other value.
pub assume_specification[ serde_json::Value::as_u64 ](v: &serde_json::Value) -> (r: Option<u64>)
    ensures
        match r {
            Some(n) => value_content(*v) == Json::Number(JsonNumber::Unsigned(n)),
            None => !(value_content(*v) matches Json::Number(JsonNumber::Unsigned(_))),
        },
;

/// `Map::contains_key`: whether the object has a member under `key`.
#[verifier::external_body]
pub(crate) fn has_member(m: &JsonObject, key: &str) -> (r: bool)
    ensures
        r == object_members(*m).dom().contains(key@),
{
    m.contains_key(key)
}

/// `Map::get`: the member under `key`, and `None` where the object has
/// none.
#[verifier::external_body]
pub(crate) fn member<'a>(m: &'a JsonObject, key: &str) -> (r: Option<
    &'a serde_json::Value,
>)
    ensures
        match r {
            Some(v) => object_members(*m).dom().contains(key@) && object_members(*m)[key@]
                == value_content(*v),
            None => !object_members(*m).dom().contains(key@),
        },
{
    m.get(key)
}

/// `Map::iter`, collected: every member of the object with its key, each
/// once. Nothing is claimed of their order.
#[verifier::external_body]
pub(crate) fn members<'a>(m: &'a JsonObject) -> (r: Vec<
    (&'a String, &'a serde_json::Value),
>)
    ensures
        forall|i: int|
            0 <= i < r@.len() ==> object_members(*m).dom().contains(#[trigger] r@[i].0@)
                && object_members(*m)[r@[i].0@] == value_content(*r@[i].1),
        forall|i: int, j: int| 0 <= i < j < r@.len() ==> r@[i].0@ != r@[j].0@,
        forall|k: Seq<char>|
            object_members(*m).dom().contains(k) ==> exists|i: int|
                0 <= i < r@.len() && #[trigger] r@[i].0@ == k,
{
    m.iter().collect()
}

} // verus!
