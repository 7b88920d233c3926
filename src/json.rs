//! The JSON reader that the configuration tool's output goes through.

use crate::catalog::{pair_keys, pairs_model};
use crate::layers::{layer_keys, layers_model, LayerKeys};
use vstd::prelude::*;

verus! {

#[verifier::external_type_specification]
#[verifier::external_body]
pub struct ExValue(serde_json::Value);

/// What serde_json reads from a text: `None` unless the text is one JSON
/// object; else its members in the order its map yields them, each as its
/// key and, where the member is itself an object, that object's keys.
pub uninterp spec fn json_members(s: Seq<char>) -> Option<Seq<LayerKeys>>;

/// Relies on `serde_json::from_str` into a `Value` and on the `Map` that an
/// object holds: the members of the object the text holds, `None` where the
/// text is no JSON object. The result depends on the text alone.
#[verifier::external_body]
pub(crate) fn parse_object(s: &str) -> (r: Option<Vec<(String, serde_json::Value)>>)
    ensures
        r is Some == json_members(s@) is Some,
        r matches Some(m) ==> pair_keys(pairs_model(m@)) == json_members(s@)->Some_0.map_values(
            |l: LayerKeys| l.0,
        ),
{
    match serde_json::from_str::<serde_json::Value>(s) {
        Ok(serde_json::Value::Object(m)) => Some(m.into_iter().collect()),
        _ => None,
    }
}

/// Relies on `serde_json::from_str` into a `Value` and on the `Map` that an
/// object holds: the members of the object the text holds, each member that
/// is itself an object given as its members; `None` where the text is no
/// JSON object. The result depends on the text alone.
#[verifier::external_body]
pub(crate) fn parse_layers(s: &str) -> (r: Option<
    Vec<(String, Option<Vec<(String, serde_json::Value)>>)>,
>)
    ensures
        r is Some == json_members(s@) is Some,
        r matches Some(ls) ==> layer_keys(layers_model(ls@)) == json_members(s@)->Some_0,
{
    match serde_json::from_str::<serde_json::Value>(s) {
        Ok(serde_json::Value::Object(m)) => Some(
            m.into_iter().map(|(k, v)| match v {
                serde_json::Value::Object(n) => (k, Some(n.into_iter().collect())),
                _ => (k, None),
            }).collect(),
        ),
        _ => None,
    }
}

} // verus!
