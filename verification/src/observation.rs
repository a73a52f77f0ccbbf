//! Stamping a successful reply with a freshly reserved event sequence, so
//! that an observation probe can be ordered against the event history.

use vstd::prelude::*;
use crate::event_hub::EventHub;

verus! {

/// A JSON value, as serde_json holds it.
#[verifier::external_type_specification]
#[verifier::external_body]
pub struct ExJsonValue(serde_json::Value);

/// A JSON object, as serde_json holds it.
#[verifier::external_type_specification]
#[verifier::external_body]
#[verifier::reject_recursive_types(K)]
#[verifier::reject_recursive_types(V)]
pub struct ExJsonMap<K, V>(serde_json::Map<K, V>);

/// What the JSON object `text` holds, key by key: the unsigned integer at
/// the key when the value is one, `None` for any other value; `None` as a
/// whole when `text` is not a JSON object (what `serde_json::from_str` into
/// a map gives).
pub uninterp spec fn json_object_contents(text: Seq<char>) -> Option<Map<Seq<char>, Option<u64>>>;

/// What a JSON object holds, key by key: the unsigned integer at the key
/// when the value is one, `None` for any other value.
pub uninterp spec fn json_contents(m: serde_json::Map<String, serde_json::Value>) -> Map<Seq<char>, Option<u64>>;

/// `serde_json::from_str` into a map: the object `text` holds, or `None`
/// when `text` is not a JSON object.
#[verifier::external_body]
fn parse_json_object(text: &str) -> (r: Option<serde_json::Map<String, serde_json::Value>>)
    ensures
        match json_object_contents(text@) {
            None => r is None,
            Some(contents) => r matches Some(m) && json_contents(m) == contents,
        },
{
    serde_json::from_str::<serde_json::Map<String, serde_json::Value>>(text).ok()
}

/// `serde_json::Map::contains_key`: whether the object has key `key`.
#[verifier::external_body]
fn json_has_key(m: &serde_json::Map<String, serde_json::Value>, key: &str) -> (r: bool)
    ensures
        r == json_contents(*m).dom().contains(key@),
{
    m.contains_key(key)
}

/// `serde_json::Map::insert` of the number `n` under `key`: the object then
/// holds `n` at that key, and its other keys as they were.
#[verifier::external_body]
fn json_insert_number(m: &mut serde_json::Map<String, serde_json::Value>, key: &str, n: u64)
    ensures
        json_contents(*final(m)) == json_contents(*old(m)).insert(key@, Some(n)),
{
    m.insert(key.to_string(), serde_json::Value::from(n));
}

/// `serde_json::to_string` of an object. A map with string keys always
/// serializes, and the text reads back as an object with the same keys and
/// the same unsigned integers. Nothing more is stated of the text.
#[verifier::external_body]
fn json_encode(m: &serde_json::Map<String, serde_json::Value>) -> (r: Option<String>)
    ensures
        r is Some,
        r is Some ==> json_object_contents(r->Some_0@) == Some(json_contents(*m)),
{
    serde_json::to_string(m).ok()
}

/// Whether a reply gets a sequence: it is a JSON object without an error.
pub open spec fn observation_attachable(text: Seq<char>) -> bool {
    json_object_contents(text) matches Some(contents) && !contents.dom().contains("error"@)
}

/// Stamp the reply `response` with a newly reserved sequence of `hub`
/// under `observation_sequence` (the reply then reads as the same object
/// with that number added), when the reply is a JSON object without an
/// `error`; error replies, other JSON and text that is not JSON are left
/// as they are and reserve nothing. The history itself is not touched.
pub fn attach_observation_sequence<E>(response: &mut String, hub: &mut EventHub<E>)
    requires
        old(hub).wf(),
        old(hub).current() < u64::MAX,
    ensures
        final(hub).wf(),
        final(hub).pushed() == old(hub).pushed(),
        final(hub).retained() == old(hub).retained(),
        final(hub).dropped_through() == old(hub).dropped_through(),
        final(hub).current() == if observation_attachable(old(response)@) {
            old(hub).current() + 1
        } else {
            old(hub).current() as int
        },
        !observation_attachable(old(response)@) ==> final(response)@ == old(response)@,
        observation_attachable(old(response)@) ==> json_object_contents(final(response)@) == Some(
            json_object_contents(old(response)@)->0.insert("observation_sequence"@, Some(final(hub).current())),
        ),
{
    let mut object = match parse_json_object(response.as_str()) {
        Some(object) => object,
        None => return,
    };
    if json_has_key(&object, "error") {
        return;
    }
    let sequence = hub.reserve_sequence();
    json_insert_number(&mut object, "observation_sequence", sequence);
    match json_encode(&object) {
        Some(encoded) => {
            *response = encoded;
        },
        None => {},
    }
}

} // verus!
