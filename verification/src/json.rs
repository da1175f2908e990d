//! The serde_json items that match records carry, and the trusted wrappers
//! around the calls into serde_json.

use vstd::prelude::*;
use ast_grep_config::Metadata;

verus! {

/// A JSON object.
#[verifier::external_type_specification]
#[verifier::external_body]
#[verifier::reject_recursive_types(K)]
#[verifier::reject_recursive_types(V)]
pub struct ExJsonMap<K, V>(serde_json::Map<K, V>);

/// A JSON value.
#[verifier::external_type_specification]
#[verifier::external_body]
pub struct ExJsonValue(serde_json::Value);

/// The entries of a JSON object, each key with its value, without their
/// order.
pub uninterp spec fn json_object_entries(object: serde_json::Map<String, serde_json::Value>) -> Map<Seq<char>, serde_json::Value>;

/// The entries of a JSON value that is an object; `None` for any other value.
pub uninterp spec fn json_value_entries(value: serde_json::Value) -> Option<Map<Seq<char>, serde_json::Value>>;

/// The entries of the JSON object that `serde_json::to_value` makes of a
/// rule's metadata, or `None` where it fails.
pub uninterp spec fn metadata_json_entries(metadata: Metadata) -> Option<Map<Seq<char>, serde_json::Value>>;

/// `Map::new`: an empty JSON object.
#[verifier::external_body]
pub(crate) fn empty_object() -> (res: serde_json::Map<String, serde_json::Value>)
    ensures
        json_object_entries(res).dom() == Set::<Seq<char>>::empty(),
{
    serde_json::Map::new()
}

/// `Map::clone`: a copy of a JSON object, equal to it.
#[verifier::external_body]
pub(crate) fn copy_object(object: &serde_json::Map<String, serde_json::Value>) -> (res: serde_json::Map<String, serde_json::Value>)
    ensures
        res == *object,
{
    object.clone()
}

/// `serde_json::to_value` of rule metadata, a mapping with string keys, so a
/// value that comes back is an object. The error (a nested value that JSON
/// cannot hold) is its text. The object keeps its keys in the order in which
/// the metadata's hash map yields them, so only its entries are named.
#[verifier::external_body]
pub(crate) fn metadata_value(metadata: &Metadata) -> (res: Result<serde_json::Value, String>)
    ensures
        match res {
            Ok(value) => metadata_json_entries(*metadata) is Some
                && json_value_entries(value) == metadata_json_entries(*metadata),
            Err(_) => metadata_json_entries(*metadata) is None,
        },
{
    serde_json::to_value(metadata).map_err(|error| error.to_string())
}

/// Tells whether a JSON value is an object, and hands the object out.
#[verifier::external_body]
pub(crate) fn value_object(value: serde_json::Value) -> (res: Option<serde_json::Map<String, serde_json::Value>>)
    ensures
        match res {
            Some(object) => json_value_entries(value) == Some(json_object_entries(object)),
            None => json_value_entries(value) is None,
        },
{
    match value {
        serde_json::Value::Object(object) => Some(object),
        serde_json::Value::Null => None,
        serde_json::Value::Bool(_) => None,
        serde_json::Value::Number(_) => None,
        serde_json::Value::String(_) => None,
        serde_json::Value::Array(_) => None,
    }
}

} // verus!
