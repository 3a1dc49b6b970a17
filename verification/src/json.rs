//! JSON values whose objects keep the order of their members.
use vstd::prelude::*;

verus! {

/// A JSON value.
#[derive(Debug)]
pub enum Json {
    Text(String),
    Number(u64),
    Flag(bool),
    List(Vec<Json>),
    Object(Vec<(String, Json)>),
}

/// What a JSON value holds.
pub enum Shape {
    Text(Seq<char>),
    Number(nat),
    Flag(bool),
    List(Seq<Shape>),
    Object(Seq<(Seq<char>, Shape)>),
}

impl Json {
    /// What the value holds.
    pub open spec fn shape(self) -> Shape
        decreases self,
    {
        match self {
            Json::Text(s) => Shape::Text(s@),
            Json::Number(n) => Shape::Number(n as nat),
            Json::Flag(b) => Shape::Flag(b),
            Json::List(v) => Shape::List(shapes(v@)),
            Json::Object(v) => Shape::Object(members(v@)),
        }
    }
}

/// What the values of a list hold.
pub open spec fn shapes(v: Seq<Json>) -> Seq<Shape>
    decreases v,
{
    if v.len() == 0 {
        seq![]
    } else {
        shapes(v.drop_last()).push(v.last().shape())
    }
}

/// What the members of an object hold, by name.
pub open spec fn members(v: Seq<(String, Json)>) -> Seq<(Seq<char>, Shape)>
    decreases v,
{
    if v.len() == 0 {
        seq![]
    } else {
        members(v.drop_last()).push((v.last().0@, v.last().1.shape()))
    }
}

/// The value that holds a text.
pub fn text_value(s: &str) -> (r: Json)
    ensures
        r.shape() == Shape::Text(s@),
{
    Json::Text(s.to_string())
}

/// Adds a member to the members of an object.
pub fn push_member(out: &mut Vec<(String, Json)>, name: &str, value: Json)
    ensures
        members(final(out)@) == members(old(out)@).push((name@, value.shape())),
{
    let ghost prev = out@;
    out.push((name.to_string(), value));
    assert(out@.drop_last() =~= prev);
}

/// The value that lists the texts.
pub fn text_list(v: &Vec<String>) -> (r: Json)
    ensures
        r.shape() == Shape::List(v@.map_values(|s: String| Shape::Text(s@))),
{
    let ghost wanted = v@.map_values(|s: String| Shape::Text(s@));
    let mut out: Vec<Json> = Vec::new();
    for i in 0..v.len()
        invariant
            wanted == v@.map_values(|s: String| Shape::Text(s@)),
            shapes(out@) == wanted.take(i as int),
    {
        let ghost prev = out@;
        let value = text_value(v[i].as_str());
        assert(value.shape() == wanted[i as int]);
        out.push(value);
        assert(out@.drop_last() =~= prev);
        assert(shapes(out@) =~= shapes(prev).push(wanted[i as int]));
        assert(wanted.take(i + 1) =~= wanted.take(i as int).push(wanted[i as int]));
    }
    assert(wanted.take(v@.len() as int) =~= wanted);
    Json::List(out)
}

} // verus!
