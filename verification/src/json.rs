//! What the debate reads of JSON documents.

use vstd::prelude::*;

verus! {

/// A JSON value of the `serde_json` crate.
#[verifier::external_type_specification]
#[verifier::external_body]
pub struct ExValue(serde_json::Value);

/// The contents of a JSON value.
pub enum Json {
    Null,
    Bool(bool),
    Number,
    Text(Seq<char>),
    List(Seq<Json>),
    Record(Map<Seq<char>, Json>),
}

/// What a `serde_json::Value` holds.
pub uninterp spec fn contents(value: serde_json::Value) -> Json;

/// What `serde_json::from_str` reads from a text as a `serde_json::Value`, where it accepts the
/// text.
pub uninterp spec fn document(text: Seq<char>) -> Option<Json>;

/// `serde_json::from_str` for a `serde_json::Value`: the value that the text stands for, or
/// nothing where the text is no JSON document.
#[verifier::external_body]
pub(crate) fn parse(text: &str) -> (value: Option<serde_json::Value>)
    ensures
        match value {
            Some(v) => document(text@) == Some(contents(v)),
            None => document(text@) is None,
        },
{
    serde_json::from_str::<serde_json::Value>(text).ok()
}

/// `serde_json::Value::get` with a text as the index: the member with that name, where the value
/// is a record that has one.
#[verifier::external_body]
pub(crate) fn member<'a>(value: &'a serde_json::Value, name: &str) -> (found: Option<
    &'a serde_json::Value,
>)
    ensures
        match found {
            Some(v) => Some(contents(*v)) == member_of(contents(*value), name@),
            None => member_of(contents(*value), name@) is None,
        },
{
    value.get(name)
}

/// `serde_json::Value::as_array`: the items, where the value is a list.
pub assume_specification[ serde_json::Value::as_array ](value: &serde_json::Value) -> (items: Option<
    &Vec<serde_json::Value>,
>)
    ensures
        match items {
            Some(list) => contents(*value) == Json::List(
                list@.map_values(|v: serde_json::Value| contents(v)),
            ),
            None => !(contents(*value) is List),
        },
;

/// `serde_json::Value::as_str`: the text, where the value is one.
pub assume_specification[ serde_json::Value::as_str ](value: &serde_json::Value) -> (text: Option<
    &str,
>)
    ensures
        match text {
            Some(s) => contents(*value) == Json::Text(s@),
            None => !(contents(*value) is Text),
        },
;

/// The member of a record with a name.
pub open spec fn member_of(json: Json, name: Seq<char>) -> Option<Json> {
    match json {
        Json::Record(fields) => if fields.contains_key(name) {
            Some(fields[name])
        } else {
            None
        },
        _ => None,
    }
}

} // verus!
