//! JSON documents, as `serde_json` reads them.
//!
//! A document is opaque here but for two things: the members of an object, and the text of
//! a string.
use serde_json::{Error, Value};
use vstd::prelude::*;

verus! {

/// `serde_json::Value`: a JSON value, of which nothing is known but what the functions below
/// say.
#[verifier::external_type_specification]
#[verifier::external_body]
pub struct ExValue(Value);

/// `serde_json::Error`: why a text holds no document; nothing is known of it.
#[verifier::external_type_specification]
#[verifier::external_body]
pub struct ExError(Error);

/// The members of a JSON object by their keys; none for any other value.
pub uninterp spec fn json_members(v: Value) -> Map<Seq<char>, Value>;

/// The text of a JSON string; none for any other value.
pub uninterp spec fn json_string(v: Value) -> Option<Seq<char>>;

/// The document that `serde_json::from_str` reads from a text; none if it reports an error.
pub uninterp spec fn json_document(text: Seq<char>) -> Option<Value>;

/// The member of `v` under `key`.
pub open spec fn member(v: Value, key: Seq<char>) -> Option<Value> {
    if json_members(v).contains_key(key) {
        Some(json_members(v)[key])
    } else {
        None
    }
}

/// The text of the member of `v` under `key`; empty if there is none or it is no string.
pub open spec fn text_member(v: Value, key: Seq<char>) -> Seq<char> {
    match member(v, key) {
        Some(m) => match json_string(m) {
            Some(s) => s,
            None => Seq::empty(),
        },
        None => Seq::empty(),
    }
}

/// `serde_json::from_str` into a `Value`: trusted to depend on the text alone, both in
/// whether it succeeds and in what it reads.
#[verifier::external_body]
pub(crate) fn read_document(text: &str) -> (r: Result<Value, Error>)
    ensures
        match r {
            Ok(v) => json_document(text@) == Some(v),
            Err(_) => json_document(text@) is None,
        },
{
    serde_json::from_str(text)
}

/// `Value::get` with a string: trusted to look the key up in an object, and to find nothing
/// in any other value.
#[verifier::external_body]
pub(crate) fn get_member<'a>(v: &'a Value, key: &str) -> (r: Option<&'a Value>)
    ensures
        match r {
            Some(m) => json_members(*v).contains_key(key@) && json_members(*v)[key@] == *m,
            None => !json_members(*v).contains_key(key@),
        },
{
    v.get(key)
}

/// `Value::as_str`: trusted to give the text of a string, and nothing for any other value.
pub assume_specification[ Value::as_str ](v: &Value) -> (r: Option<&str>)
    ensures
        match r {
            Some(s) => json_string(*v) == Some(s@),
            None => json_string(*v) is None,
        },
;

/// `Value::clone`: trusted to give the same value again.
#[verifier::external_body]
pub(crate) fn copy_value(v: &Value) -> (r: Value)
    ensures
        r == *v,
{
    v.clone()
}

/// The text of the member of `v` under `key`; empty if there is none or it is no string.
pub fn get_text(v: &Value, key: &str) -> (r: String)
    ensures
        r@ == text_member(*v, key@),
{
    match get_member(v, key) {
        Some(m) => match m.as_str() {
            Some(s) => s.to_owned(),
            None => String::new(),
        },
        None => String::new(),
    }
}

} // verus!
