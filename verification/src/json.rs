//! A JSON document as the library reads it.
//!
//! Numbers are kept as their JSON text together with whether they were read
//! as floating point; the library never computes with them.
use vstd::prelude::*;

verus! {

/// A JSON number: its JSON text and whether it was read as a float.
#[derive(Debug, Clone)]
pub struct JsonNumber {
    pub text: String,
    pub is_f64: bool,
}

/// A JSON value. Object members keep their order.
#[derive(Debug)]
pub enum JsonValue {
    Null,
    Bool(bool),
    Number(JsonNumber),
    String(String),
    Array(Vec<JsonValue>),
    Object(Vec<(String, JsonValue)>),
}

/// The mathematical JSON tree of a `JsonValue`.
pub enum JsonTree {
    Null,
    Bool(bool),
    Number(Seq<char>, bool),
    Str(Seq<char>),
    Array(Seq<JsonTree>),
    Object(Seq<(Seq<char>, JsonTree)>),
}

pub open spec fn tree_of(v: JsonValue) -> JsonTree
    decreases v,
{
    match v {
        JsonValue::Null => JsonTree::Null,
        JsonValue::Bool(b) => JsonTree::Bool(b),
        JsonValue::Number(n) => JsonTree::Number(n.text@, n.is_f64),
        JsonValue::String(s) => JsonTree::Str(s@),
        JsonValue::Array(a) => JsonTree::Array(
            Seq::new(
                a.len() as nat,
                |i: int|
                    if 0 <= i < a.len() {
                        tree_of(a@[i])
                    } else {
                        JsonTree::Null
                    },
            ),
        ),
        JsonValue::Object(o) => JsonTree::Object(
            Seq::new(
                o.len() as nat,
                |i: int|
                    if 0 <= i < o.len() {
                        (o@[i].0@, tree_of(o@[i].1))
                    } else {
                        (Seq::empty(), JsonTree::Null)
                    },
            ),
        ),
    }
}

pub open spec fn members_tree(o: Seq<(String, JsonValue)>) -> Seq<(Seq<char>, JsonTree)> {
    o.map_values(|p: (String, JsonValue)| (p.0@, tree_of(p.1)))
}

pub open spec fn elements_tree(a: Seq<JsonValue>) -> Seq<JsonTree> {
    a.map_values(|v: JsonValue| tree_of(v))
}

pub proof fn lemma_object_tree(o: Vec<(String, JsonValue)>)
    ensures
        tree_of(JsonValue::Object(o)) == JsonTree::Object(members_tree(o@)),
{
    let t = tree_of(JsonValue::Object(o));
    if let JsonTree::Object(x) = t {
        assert(x =~= members_tree(o@));
    }
}

pub proof fn lemma_array_tree(a: Vec<JsonValue>)
    ensures
        tree_of(JsonValue::Array(a)) == JsonTree::Array(elements_tree(a@)),
{
    let t = tree_of(JsonValue::Array(a));
    if let JsonTree::Array(x) = t {
        assert(x =~= elements_tree(a@));
    }
}

} // verus!
