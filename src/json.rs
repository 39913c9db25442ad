//! A JSON value owned by the library.
use vstd::prelude::*;

verus! {

broadcast use vstd::std_specs::vec::axiom_vec_index_decreases;

/// A JSON value; an object keeps its keys in insertion order.
#[derive(Debug)]
pub enum JsonValue {
    Bool(bool),
    Str(String),
    Array(Vec<JsonValue>),
    Object(Vec<(String, JsonValue)>),
}

/// Mathematical form of a `JsonValue`.
pub enum Json {
    Bool(bool),
    Str(Seq<char>),
    Array(Seq<Json>),
    Object(Seq<(Seq<char>, Json)>),
}

/// The mathematical form of `v`.
pub open spec fn json_of(v: JsonValue) -> Json
    decreases v,
{
    match v {
        JsonValue::Bool(b) => Json::Bool(b),
        JsonValue::Str(s) => Json::Str(s@),
        JsonValue::Array(a) => Json::Array(
            Seq::new(a.len() as nat, |i: int| if 0 <= i < a.len() { json_of(a[i]) } else { Json::Bool(false) }),
        ),
        JsonValue::Object(o) => Json::Object(
            Seq::new(
                o.len() as nat,
                |i: int| if 0 <= i < o.len() { (o[i].0@, json_of(o[i].1)) } else { (Seq::empty(), Json::Bool(false)) },
            ),
        ),
    }
}

} // verus!
