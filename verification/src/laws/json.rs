//! Laws of JSON values.
use crate::json::{members, shapes, Json, Shape};
use vstd::prelude::*;

verus! {

/// A value holds what it was made of: the text, the number, the flag, the values of the list in
/// their order, the members of the object in theirs.
pub proof fn lemma_shape(s: String, n: u64, b: bool, v: Vec<Json>, o: Vec<(String, Json)>)
    ensures
        Json::Text(s).shape() == Shape::Text(s@),
        Json::Number(n).shape() == Shape::Number(n as nat),
        Json::Flag(b).shape() == Shape::Flag(b),
        Json::List(v).shape() == Shape::List(Seq::new(v@.len(), |i: int| v@[i].shape())),
        Json::Object(o).shape() == Shape::Object(
            Seq::new(o@.len(), |i: int| (o@[i].0@, o@[i].1.shape())),
        ),
{
    lemma_shapes(v@);
    lemma_members(o@);
}

proof fn lemma_shapes(v: Seq<Json>)
    ensures
        shapes(v) == Seq::new(v.len(), |i: int| v[i].shape()),
    decreases v.len(),
{
    if v.len() > 0 {
        lemma_shapes(v.drop_last());
    }
    assert(shapes(v) =~= Seq::new(v.len(), |i: int| v[i].shape()));
}

proof fn lemma_members(v: Seq<(String, Json)>)
    ensures
        members(v) == Seq::new(v.len(), |i: int| (v[i].0@, v[i].1.shape())),
    decreases v.len(),
{
    if v.len() > 0 {
        lemma_members(v.drop_last());
    }
    assert(members(v) =~= Seq::new(v.len(), |i: int| (v[i].0@, v[i].1.shape())));
}

} // verus!
