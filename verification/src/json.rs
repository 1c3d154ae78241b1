//! Secrets as one JSON object, written by `serde_json`.

use vstd::prelude::*;
use crate::error::VaultError;
use crate::field::Secret;
use crate::merge::{merged, put};

verus! {

/// What a JSON object of strings holds: its members in their order, each as
/// its key and its value.
pub uninterp spec fn json_members(m: serde_json::Map<String, serde_json::Value>) -> Seq<
    (Seq<char>, Seq<char>),
>;

/// The text that `serde_json::to_string_pretty` writes for an object with
/// the given members.
pub uninterp spec fn json_pretty_text(members: Seq<(Seq<char>, Seq<char>)>) -> Seq<char>;

/// Calls `serde_json::Map::new`, which makes a map with nothing in it.
#[verifier::external_body]
pub(crate) fn json_object_new() -> (m: serde_json::Map<String, serde_json::Value>)
    ensures
        json_members(m) == Seq::<(Seq<char>, Seq<char>)>::empty(),
{
    serde_json::Map::new()
}

/// Calls `serde_json::Map::insert` with the value as a JSON string. The map
/// keeps its members in the order of insertion (the crate is built with
/// `preserve_order`): a key that is in the map keeps its place and gets the
/// new value, a key that is not comes last.
#[verifier::external_body]
pub(crate) fn json_object_insert(
    m: &mut serde_json::Map<String, serde_json::Value>,
    key: String,
    value: String,
)
    ensures
        json_members(*final(m)) == put(json_members(*old(m)), key@, value@),
{
    m.insert(key, serde_json::Value::String(value));
}

/// Calls `serde_json::to_string_pretty` on the map as a JSON object. The
/// writer fails only where its sink fails or a key is no string; here the
/// sink is a vector of bytes and every key is a string, so a text is always
/// given. It is the one that goes by the name `json_pretty_text` for the
/// map's members.
#[verifier::external_body]
pub(crate) fn json_object_pretty(m: serde_json::Map<String, serde_json::Value>) -> (written: Result<
    String,
    serde_json::Error,
>)
    ensures
        written is Ok,
        written matches Ok(text) ==> text@ == json_pretty_text(json_members(m)),
{
    serde_json::to_string_pretty(&serde_json::Value::Object(m))
}

/// Calls the `Display` of `serde_json::Error` for the description of an
/// error. Nothing is claimed of the text.
#[verifier::external_body]
pub(crate) fn json_error_text(e: &serde_json::Error) -> String {
    e.to_string()
}

/// What becomes of an attempt to write JSON: the text where there is one,
/// and a serialization error with the writer's description where there is
/// none.
pub fn json_outcome(written: Result<String, serde_json::Error>) -> (out: Result<String, VaultError>)
    ensures
        written matches Ok(text) ==> (out matches Ok(same) && same@ == text@),
        written is Err ==> out matches Err(VaultError::Serialization(_)),
{
    match written {
        Ok(text) => Ok(text),
        Err(e) => Err(VaultError::Serialization(json_error_text(&e))),
    }
}

/// Writes the secrets as one pretty-printed JSON object with a string under
/// each label. The labels stand in the order in which each came first, and a
/// label that came more than once has the value that came last. Labels and
/// values are strings, which can always be written: the text is always
/// given.
pub fn output_json(secrets: &Vec<Secret>) -> (out: Result<String, VaultError>)
    ensures
        out matches Ok(text) && text@ == json_pretty_text(merged(secrets.deep_view())),
{
    let mut object = json_object_new();
    let mut i: usize = 0;
    while i < secrets.len()
        invariant
            i <= secrets.len(),
            json_members(object) == merged(secrets.deep_view().take(i as int)),
        decreases secrets.len() - i,
    {
        let secret = &secrets[i];
        proof {
            let all = secrets.deep_view();
            assert(all.take(i + 1).drop_last() =~= all.take(i as int));
            assert(all.take(i + 1).last() == secret@);
        }
        json_object_insert(&mut object, secret.label.clone(), secret.value.clone());
        i += 1;
    }
    proof {
        assert(secrets.deep_view().take(secrets.len() as int) =~= secrets.deep_view());
    }
    json_outcome(json_object_pretty(object))
}

} // verus!
