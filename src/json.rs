//! The dictionary value: serde_json's `Value`, seen by the proofs through
//! a mathematical model of the tree it holds.
use vstd::prelude::*;

verus! {

/// What a JSON value holds, as the proofs see it. Numbers carry no payload:
/// no rule of this library looks inside one.
pub enum JsonTree {
    Null,
    Bool(bool),
    Num,
    Str(Seq<char>),
    Arr(Seq<JsonTree>),
    Obj(Map<Seq<char>, JsonTree>),
}

#[verifier::external_type_specification]
#[verifier::external_body]
pub struct ExValue(serde_json::Value);

/// The tree held by a `serde_json::Value`.
pub uninterp spec fn tree_of(v: serde_json::Value) -> JsonTree;

/// The tree that `serde_json::from_str` reads from a text, or `None` where the
/// text is not JSON.
pub uninterp spec fn parsed_json(text: Seq<char>) -> Option<JsonTree>;

/// Indexing an array by a position: the element there, or null when the value
/// is not an array or the position is past its end.
pub open spec fn at_index(v: JsonTree, n: nat) -> JsonTree {
    match v {
        JsonTree::Arr(items) => if n < items.len() {
            items[n as int]
        } else {
            JsonTree::Null
        },
        _ => JsonTree::Null,
    }
}

/// Indexing an object by a field name: the field's value, or null when the
/// value is not an object or has no such field.
pub open spec fn at_key(v: JsonTree, k: Seq<char>) -> JsonTree {
    match v {
        JsonTree::Obj(fields) => if fields.contains_key(k) {
            fields[k]
        } else {
            JsonTree::Null
        },
        _ => JsonTree::Null,
    }
}

/// Relies on `impl Index<usize> for serde_json::Value`: the element at `i` of
/// an array, and `Value::Null` for anything else (it never panics).
#[verifier::external_body]
pub(crate) fn value_at_index(v: &serde_json::Value, i: usize) -> (r: serde_json::Value)
    ensures
        tree_of(r) == at_index(tree_of(*v), i as nat),
{
    v[i].clone()
}

/// Relies on `impl Index<&str> for serde_json::Value`: the field `k` of an
/// object, and `Value::Null` for anything else (it never panics).
#[verifier::external_body]
pub(crate) fn value_at_key(v: &serde_json::Value, k: &str) -> (r: serde_json::Value)
    ensures
        tree_of(r) == at_key(tree_of(*v), k@),
{
    v[k].clone()
}

/// Relies on `serde_json::Value::as_str`: the text of a string value, `None`
/// for every other kind of value.
#[verifier::external_body]
pub(crate) fn value_as_str(v: &serde_json::Value) -> (r: Option<&str>)
    ensures
        match tree_of(*v) {
            JsonTree::Str(s) => r is Some && r->0@ == s,
            _ => r is None,
        },
{
    v.as_str()
}

/// Relies on `serde_json::from_str`: the value a JSON text denotes, or `None`
/// where it is not JSON.
#[verifier::external_body]
pub(crate) fn parse_json(text: &str) -> (r: Option<serde_json::Value>)
    ensures
        match parsed_json(text@) {
            Some(t) => r is Some && tree_of(r->0) == t,
            None => r is None,
        },
{
    serde_json::from_str(text).ok()
}

} // verus!
