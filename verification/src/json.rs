//! The JSON document model that decoding reads, and the bridge from serde_json's reader.
use vstd::prelude::*;

use crate::input::scan;

verus! {

/// A JSON document as the decoder reads it. Object members keep serde_json's order
/// (ascending by key) and keys are distinct. A number carries the bits of the
/// IEEE-754 binary64 value that serde_json reports for it.
#[derive(Debug, PartialEq)]
pub enum Json {
    Null,
    Bool(bool),
    Number(Option<u64>),
    Str(String),
    Array(Vec<Json>),
    Object(Vec<(String, Json)>),
}

/// The document that serde_json reads from `bytes` (trailing whitespace allowed), or
/// `None` where serde_json rejects them. It is only asked of bytes whose bracket
/// nesting passes `scan`.
pub uninterp spec fn json_text(bytes: Seq<u8>) -> Option<Json>;

/// The member named `key` of an object, if any.
pub open spec fn lookup(members: Seq<(String, Json)>, key: Seq<char>) -> Option<Json>
    decreases members.len(),
{
    if members.len() == 0 {
        None
    } else if members[0].0@ == key {
        Some(members[0].1)
    } else {
        lookup(members.drop_first(), key)
    }
}

/// `value.get(key)`: the member of an object, `None` for other values.
pub open spec fn get(v: Json, key: Seq<char>) -> Option<Json> {
    match v {
        Json::Object(members) => lookup(members@, key),
        _ => None,
    }
}

/// `value[key]`: the member of an object, `null` when absent or not an object.
pub open spec fn member(v: Json, key: Seq<char>) -> Json {
    match get(v, key) {
        Some(m) => m,
        None => Json::Null,
    }
}

pub open spec fn has_key(members: Seq<(String, Json)>, key: Seq<char>) -> bool {
    exists|i: int| 0 <= i < members.len() && #[trigger] members[i].0@ == key
}

pub proof fn lemma_lookup_some(members: Seq<(String, Json)>, key: Seq<char>)
    ensures
        lookup(members, key) is Some <==> has_key(members, key),
    decreases members.len(),
{
    if members.len() > 0 {
        lemma_lookup_some(members.drop_first(), key);
        if has_key(members, key) && members[0].0@ != key {
            let i = choose|i: int| 0 <= i < members.len() && #[trigger] members[i].0@ == key;
            assert(members.drop_first()[i - 1].0@ == key);
        }
        if has_key(members.drop_first(), key) {
            let i = choose|i: int| 0 <= i < members.len() - 1 && #[trigger] members.drop_first()[i].0@ == key;
            assert(members[i + 1].0@ == key);
        }
    }
}

/// Finds the member named `key` of an object.
pub fn json_get<'a>(v: &'a Json, key: &str) -> (r: Option<&'a Json>)
    ensures
        r is Some <==> get(*v, key@) is Some,
        r matches Some(m) ==> get(*v, key@) == Some(*m),
{
    match v {
        Json::Object(members) => {
            let mut i: usize = 0;
            assert(members@.skip(0) =~= members@);
            assert(get(*v, key@) == lookup(members@, key@));
            while i < members.len()
                invariant
                    0 <= i <= members@.len(),
                    get(*v, key@) == lookup(members@.skip(i as int), key@),
                decreases members@.len() - i,
            {
                assert(members@.skip(i as int).drop_first() =~= members@.skip(i + 1));
                assert(members@.skip(i as int)[0] == members@[i as int]);
                if crate::text::str_eq(members[i].0.as_str(), key) {
                    assert(members@.skip(i as int).len() > 0);
                    assert(lookup(members@.skip(i as int), key@) == Some(members@[i as int].1));
                    return Some(&members[i].1);
                }
                i = i + 1;
            }
            None
        },
        _ => None,
    }
}

/// `value[key]` for exec code.
pub fn json_member<'a>(v: &'a Json, key: &str) -> (r: &'a Json)
    ensures
        *r == member(*v, key@),
{
    match json_get(v, key) {
        Some(m) => m,
        None => &JSON_NULL,
    }
}

const JSON_NULL: Json = Json::Null;

/// The text of a string value.
pub open spec fn text_of(v: Json) -> Option<Seq<char>> {
    match v {
        Json::Str(s) => Some(s@),
        _ => None,
    }
}

/// The string held by a value, if it is a string.
pub fn json_as_str(v: &Json) -> (r: Option<&str>)
    ensures
        r is Some <==> text_of(*v) is Some,
        r matches Some(s) ==> text_of(*v) == Some(s@),
{
    match v {
        Json::Str(s) => Some(s.as_str()),
        _ => None,
    }
}

/// The current reading of `serde_json::Value`, told apart variant by variant.
#[verifier::external_type_specification]
#[verifier::external_body]
pub struct ExSerdeValue(serde_json::Value);

/// One node of a serde_json tree: its variant, with the children still in serde_json's form.
enum SerdeNode {
    Null,
    Bool(bool),
    Number(Option<u64>),
    Str(String),
    Array(Vec<serde_json::Value>),
    Object(Vec<(String, serde_json::Value)>),
}

/// Tells apart the variants of `serde_json::Value`, one arm each, moving the fields;
/// a number is read with `serde_json::Number::as_f64` and kept as its bits.
/// Nothing is stated of the result: the argument is opaque to the verifier.
#[verifier::external_body]
fn serde_node(v: serde_json::Value) -> SerdeNode {
    match v {
        serde_json::Value::Null => SerdeNode::Null,
        serde_json::Value::Bool(b) => SerdeNode::Bool(b),
        serde_json::Value::Number(n) => SerdeNode::Number(n.as_f64().map(|x| x.to_bits())),
        serde_json::Value::String(s) => SerdeNode::Str(s),
        serde_json::Value::Array(a) => SerdeNode::Array(a),
        serde_json::Value::Object(m) => SerdeNode::Object(m.into_iter().collect()),
    }
}

/// The tree has at most `n` levels: a leaf takes one, an array or object one more than
/// its deepest item.
pub open spec fn within_depth(j: Json, n: nat) -> bool
    decreases n,
{
    n > 0 && match j {
        Json::Array(items) => forall|i: int| 0 <= i < items@.len() ==> within_depth(#[trigger] items@[i], (n - 1) as nat),
        Json::Object(ms) => forall|i: int| 0 <= i < ms@.len() ==> within_depth((#[trigger] ms@[i]).1, (n - 1) as nat),
        _ => true,
    }
}

/// Rebuilds a serde_json tree as a `Json` tree, node for node, at most `fuel` levels deep.
fn tree_of(v: serde_json::Value, fuel: usize) -> (r: Option<Json>)
    ensures
        fuel == 0 ==> r is None,
        r matches Some(j) ==> within_depth(j, fuel as nat),
    decreases fuel,
{
    if fuel == 0 {
        return None;
    }
    match serde_node(v) {
        SerdeNode::Null => Some(Json::Null),
        SerdeNode::Bool(b) => Some(Json::Bool(b)),
        SerdeNode::Number(n) => Some(Json::Number(n)),
        SerdeNode::Str(s) => Some(Json::Str(s)),
        SerdeNode::Array(items) => {
            let mut out: Vec<Json> = Vec::new();
            for item in items
                invariant
                    fuel > 0,
                    forall|i: int| 0 <= i < out@.len() ==> within_depth(#[trigger] out@[i], (fuel - 1) as nat),
            {
                match tree_of(item, fuel - 1) {
                    Some(j) => out.push(j),
                    None => return None,
                }
            }
            Some(Json::Array(out))
        },
        SerdeNode::Object(members) => {
            let mut out: Vec<(String, Json)> = Vec::new();
            for (key, item) in members
                invariant
                    fuel > 0,
                    forall|i: int| 0 <= i < out@.len() ==> within_depth((#[trigger] out@[i]).1, (fuel - 1) as nat),
            {
                match tree_of(item, fuel - 1) {
                    Some(j) => out.push((key, j)),
                    None => return None,
                }
            }
            Some(Json::Object(out))
        },
    }
}

/// Deepest tree that `tree_of` rebuilds; above the byte-level nesting bound of decoding.
const TREE_FUEL: usize = 4096;

/// serde_json's reader: `serde_json::Deserializer::from_slice` with the recursion limit
/// disabled, `serde_json::Value::deserialize`, then `Deserializer::end` (only whitespace
/// may follow). The contract names the result: it depends on the bytes alone. With the
/// recursion limit off, serde_json reads nested input on the stack, so the bytes must pass
/// the nesting bound of `scan` first.
#[verifier::external_body]
pub(crate) fn read_json_text(bytes: &[u8]) -> (r: Option<Json>)
    requires
        scan(bytes@) is Some,
    ensures
        r == json_text(bytes@),
{
    let mut de = serde_json::Deserializer::from_slice(bytes);
    de.disable_recursion_limit();
    let value = <serde_json::Value as serde::Deserialize>::deserialize(&mut de).ok()?;
    de.end().ok()?;
    tree_of(value, TREE_FUEL)
}

} // verus!
