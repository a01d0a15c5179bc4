//! JSON values, as `serde_json` holds them.
//!
//! A `serde_json::Value` is opaque to the verifier. [`json_tree`] names what it
//! holds, and each function here says, over that tree, what the call into
//! `serde_json` does.

use serde_json::Value;
use vstd::prelude::*;

use crate::text;

verus! {

/// What a JSON value holds.
///
/// A number that fits in 64 bits without a sign is `Unsigned`; any other number
/// is known by its text.
#[verifier::ext_equal]
pub enum Json {
    Null,
    Bool(bool),
    Unsigned(u64),
    Number(Seq<char>),
    Text(Seq<char>),
    Array(Seq<Json>),
    Object(Map<Seq<char>, Json>),
}

/// A JSON value of `serde_json`.
#[verifier::external_type_specification]
#[verifier::external_body]
pub struct ExValue(serde_json::Value);

/// An error of `serde_json`.
#[verifier::external_type_specification]
#[verifier::external_body]
pub struct ExError(serde_json::Error);

/// What a JSON value holds.
pub uninterp spec fn json_tree(v: serde_json::Value) -> Json;

/// The tree that `serde_json::from_str` reads from a text, if the text is JSON.
pub uninterp spec fn json_from_str(text: Seq<char>) -> Option<Json>;

/// The tree that `serde_json::from_slice` reads from bytes, if they are JSON.
pub uninterp spec fn json_from_slice(bytes: Seq<u8>) -> Option<Json>;

/// The compact JSON text of a tree, as `Value::to_string` writes it.
pub uninterp spec fn json_text(tree: Json) -> Seq<char>;

/// `serde_json::from_str` reads one JSON value from a text, or fails if the
/// text is not JSON.
#[verifier::external_body]
pub(crate) fn parse_str(text: &str) -> (r: Result<Value, serde_json::Error>)
    ensures
        match r {
            Ok(v) => json_from_str(text@) == Some(json_tree(v)),
            Err(_) => json_from_str(text@) is None,
        },
{
    serde_json::from_str(text)
}

/// `serde_json::from_slice` reads one JSON value from bytes, or fails if the
/// bytes are not JSON.
#[verifier::external_body]
pub(crate) fn parse_slice(bytes: &[u8]) -> (r: Result<Value, serde_json::Error>)
    ensures
        match r {
            Ok(v) => json_from_slice(bytes@) == Some(json_tree(v)),
            Err(_) => json_from_slice(bytes@) is None,
        },
{
    serde_json::from_slice(bytes)
}

/// The member of an object under a key.
pub open spec fn member(tree: Json, key: Seq<char>) -> Option<Json> {
    match tree {
        Json::Object(m) => if m.contains_key(key) {
            Some(m[key])
        } else {
            None
        },
        _ => None,
    }
}

/// `Value::get` with a string gives the member of an object under that key, and
/// nothing if there is no such member or the value is not an object.
#[verifier::external_body]
pub(crate) fn get<'a>(v: &'a Value, key: &str) -> (r: Option<&'a Value>)
    ensures
        match r {
            Some(w) => member(json_tree(*v), key@) == Some(json_tree(*w)),
            None => member(json_tree(*v), key@) is None,
        },
{
    v.get(key)
}

/// `Value::as_str` gives the text of a JSON string, and nothing for any other
/// value.
pub assume_specification[ serde_json::Value::as_str ](v: &serde_json::Value) -> (r: Option<&str>)
    ensures
        match r {
            Some(s) => json_tree(*v) == Json::Text(s@),
            None => !(json_tree(*v) is Text),
        },
;

/// `Value::as_u64` gives the number if the value is an integer that fits in 64
/// bits without a sign, and nothing otherwise.
pub assume_specification[ serde_json::Value::as_u64 ](v: &serde_json::Value) -> (r: Option<u64>)
    ensures
        match r {
            Some(n) => json_tree(*v) == Json::Unsigned(n),
            None => !(json_tree(*v) is Unsigned),
        },
;

/// `Value::as_array` gives the elements of a JSON array in order, and nothing
/// for any other value.
pub assume_specification[ serde_json::Value::as_array ](v: &serde_json::Value) -> (r: Option<
    &Vec<serde_json::Value>,
>)
    ensures
        match r {
            Some(a) => json_tree(*v) == Json::Array(trees(a@)),
            None => !(json_tree(*v) is Array),
        },
;

/// The trees of several values.
pub open spec fn trees(s: Seq<serde_json::Value>) -> Seq<Json> {
    Seq::new(s.len(), |i: int| json_tree(s[i]))
}

/// `Value::to_string` writes a value as compact JSON text, which depends on what
/// the value holds alone. An unsigned integer is written in base ten; how
/// anything else is written is left unsaid.
#[verifier::external_body]
pub(crate) fn to_text(v: &Value) -> (r: String)
    ensures
        r@ == json_text(json_tree(*v)),
        json_tree(*v) matches Json::Unsigned(n) ==> r@ == text::decimal(n as nat),
{
    v.to_string()
}

/// `Value::default` is null.
#[verifier::external_body]
pub(crate) fn null() -> (v: Value)
    ensures
        json_tree(v) == Json::Null,
{
    Value::default()
}

/// `Value::from` makes a JSON string of a text.
#[verifier::external_body]
pub(crate) fn string(s: &str) -> (v: Value)
    ensures
        json_tree(v) == Json::Text(s@),
{
    Value::from(s)
}

/// `Value::from` makes a JSON number of an unsigned integer.
#[verifier::external_body]
pub(crate) fn unsigned(n: u64) -> (v: Value)
    ensures
        json_tree(v) == Json::Unsigned(n),
{
    Value::from(n)
}

/// `Value::from` makes a JSON boolean.
#[verifier::external_body]
pub(crate) fn boolean(b: bool) -> (v: Value)
    ensures
        json_tree(v) == Json::Bool(b),
{
    Value::from(b)
}

/// The members that a row of keys and values gives an object.
pub open spec fn members(s: Seq<(&'static str, serde_json::Value)>) -> Map<Seq<char>, Json>
    decreases s.len(),
{
    if s.len() == 0 {
        Map::empty()
    } else {
        members(s.drop_last()).insert(s.last().0@, json_tree(s.last().1))
    }
}

/// `Value::from_iter` makes a JSON object of pairs of a key and a value. The
/// keys differ from one another.
#[verifier::external_body]
pub(crate) fn object(pairs: Vec<(&'static str, Value)>) -> (v: Value)
    requires
        forall|i: int, j: int| 0 <= i < j < pairs@.len() ==> pairs@[i].0@ != pairs@[j].0@,
    ensures
        json_tree(v) == Json::Object(members(pairs@)),
{
    Value::from_iter(pairs)
}

} // verus!
