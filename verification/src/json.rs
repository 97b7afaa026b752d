//! JSON values of `serde_json`, and what they hold.

use vstd::prelude::*;

verus! {

/// What a JSON value is.
pub enum Json {
    Null,
    Bool(bool),
    /// A number without fraction.
    Integer(int),
    /// Any other number, as it is written.
    Decimal(Seq<char>),
    Text(Seq<char>),
    Array(Seq<Json>),
    Object(Map<Seq<char>, Json>),
}

/// The members of a JSON object, by name.
pub type Members = Map<Seq<char>, Json>;

/// A JSON value.
#[verifier::external_type_specification]
#[verifier::external_body]
pub struct ExValue(serde_json::Value);

/// The members of a JSON object.
#[verifier::external_type_specification]
#[verifier::external_body]
#[verifier::reject_recursive_types(K)]
#[verifier::reject_recursive_types(V)]
pub struct ExMembers<K, V>(serde_json::Map<K, V>);

/// What a JSON value holds.
pub uninterp spec fn json_of(value: serde_json::Value) -> Json;

/// What the members of a JSON object are.
pub uninterp spec fn members_of(members: serde_json::Map<String, serde_json::Value>) -> Members;

/// `serde_json::Value::as_str`: the text of a string, and nothing of any other value.
pub assume_specification[ serde_json::Value::as_str ](value: &serde_json::Value) -> (r: Option<
    &str,
>)
    ensures
        match r {
            Some(s) => json_of(*value) == Json::Text(s@),
            None => !(json_of(*value) is Text),
        },
;

/// `serde_json::Value::as_object_mut`: the members of an object, to be changed in place,
/// and nothing of any other value, which stays as it is.
pub assume_specification[ serde_json::Value::as_object_mut ](value: &mut serde_json::Value) -> (r:
    Option<&mut serde_json::Map<String, serde_json::Value>>)
    ensures
        match r {
            Some(members) => json_of(*old(value)) == Json::Object(members_of(*members)) && json_of(
                *final(value),
            ) == Json::Object(members_of(*final(members))),
            None => !(json_of(*old(value)) is Object) && *final(value) == *old(value),
        },
;

/// `serde_json::Map::new`: no members.
pub assume_specification[ serde_json::Map::<String, serde_json::Value>::new ]() -> (r:
    serde_json::Map<String, serde_json::Value>)
    ensures
        members_of(r) == Members::empty(),
;

/// `serde_json::Map::insert`: puts a member in, in place of one of the same name, which
/// is handed back.
pub assume_specification[ serde_json::Map::<String, serde_json::Value>::insert ](
    members: &mut serde_json::Map<String, serde_json::Value>,
    k: String,
    v: serde_json::Value,
) -> (r: Option<serde_json::Value>)
    ensures
        members_of(*final(members)) == members_of(*old(members)).insert(k@, json_of(v)),
        match r {
            Some(value) => members_of(*old(members)).contains_key(k@) && json_of(value)
                == members_of(*old(members))[k@],
            None => !members_of(*old(members)).contains_key(k@),
        },
;

/// `serde_json::Value::Null`.
#[verifier::external_body]
pub(crate) fn null_value() -> (r: serde_json::Value)
    ensures
        json_of(r) == Json::Null,
{
    serde_json::Value::Null
}

/// `serde_json::Value::from` of a `bool`: that truth value.
#[verifier::external_body]
pub(crate) fn bool_value(b: bool) -> (r: serde_json::Value)
    ensures
        json_of(r) == Json::Bool(b),
{
    serde_json::Value::from(b)
}

/// `serde_json::Value::from` of a `u64`: that number.
#[verifier::external_body]
pub(crate) fn integer_value(n: u64) -> (r: serde_json::Value)
    ensures
        json_of(r) == Json::Integer(n as int),
{
    serde_json::Value::from(n)
}

/// `serde_json::Value::from` of a `String`: that text.
#[verifier::external_body]
pub(crate) fn text_value(s: String) -> (r: serde_json::Value)
    ensures
        json_of(r) == Json::Text(s@),
{
    serde_json::Value::from(s)
}

/// `serde_json::Value::from` of the members of an object: the object.
#[verifier::external_body]
pub(crate) fn object_value(members: serde_json::Map<String, serde_json::Value>) -> (r:
    serde_json::Value)
    ensures
        json_of(r) == Json::Object(members_of(members)),
{
    serde_json::Value::from(members)
}

} // verus!
