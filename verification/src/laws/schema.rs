//! Laws of the schema that judges answer by.
use crate::json::Shape;
use crate::schema::{
    answer_properties, answer_schema, conditions_schema, criterion_properties, criterion_schema,
    id_schema, improvements_schema, points_schema, scores_schema,
};
use vstd::prelude::*;

verus! {

/// The member of an object that has this name.
pub open spec fn member(s: Shape, name: Seq<char>) -> Option<Shape> {
    match s {
        Shape::Object(ms) => first_named(ms, name),
        _ => None,
    }
}

/// The first of the members that has this name.
pub open spec fn first_named(ms: Seq<(Seq<char>, Shape)>, name: Seq<char>) -> Option<Shape>
    decreases ms.len(),
{
    if ms.len() == 0 {
        None
    } else if ms[0].0 == name {
        Some(ms[0].1)
    } else {
        first_named(ms.drop_first(), name)
    }
}

/// The names of the members of an object, in their order.
pub open spec fn member_names(s: Shape) -> Seq<Seq<char>> {
    match s {
        Shape::Object(ms) => ms.map_values(|m: (Seq<char>, Shape)| m.0),
        _ => seq![],
    }
}

proof fn lemma_named_at(ms: Seq<(Seq<char>, Shape)>, name: Seq<char>, i: int)
    requires
        0 <= i < ms.len(),
        ms[i].0 == name,
        forall|j: int| 0 <= j < i ==> (#[trigger] ms[j]).0 != name,
    ensures
        first_named(ms, name) == Some(ms[i].1),
    decreases i,
{
    if i > 0 {
        assert(ms[0].0 != name);
        let t = ms.drop_first();
        assert forall|j: int| 0 <= j < i - 1 implies (#[trigger] t[j]).0 != name by {
            assert(t[j] == ms[j + 1]);
        }
        lemma_named_at(t, name, i - 1);
    }
}

/// The names differ in their first two letters or their lengths.
proof fn lemma_names()
    ensures
        "type"@.len() == 4 && "type"@[0] == 't',
        "properties"@.len() == 10 && "properties"@[0] == 'p',
        "required"@.len() == 8 && "required"@[0] == 'r',
        "additionalProperties"@.len() == 20,
        "enum"@.len() == 4 && "enum"@[0] == 'e',
        "minimum"@.len() == 7 && "minimum"@[1] == 'i',
        "maximum"@.len() == 7 && "maximum"@[1] == 'a',
        "minItems"@.len() == 8 && "minItems"@[0] == 'm' && "minItems"@[1] == 'i',
        "maxItems"@.len() == 8 && "maxItems"@[0] == 'm' && "maxItems"@[1] == 'a',
        "items"@.len() == 5,
        "id"@.len() == 2,
        "evidence"@.len() == 8 && "evidence"@[0] == 'e',
        "why_not_higher"@.len() == 14,
        "score"@.len() == 5 && "score"@[0] == 's',
        "winning_conditions"@.len() == 18,
        "criteria"@.len() == 8 && "criteria"@[0] == 'c',
        "improvements"@.len() == 12,
        "comment"@.len() == 7 && "comment"@[1] == 'o',
{
    reveal_strlit("type");
    reveal_strlit("properties");
    reveal_strlit("required");
    reveal_strlit("additionalProperties");
    reveal_strlit("enum");
    reveal_strlit("minimum");
    reveal_strlit("maximum");
    reveal_strlit("minItems");
    reveal_strlit("maxItems");
    reveal_strlit("items");
    reveal_strlit("id");
    reveal_strlit("evidence");
    reveal_strlit("why_not_higher");
    reveal_strlit("score");
    reveal_strlit("winning_conditions");
    reveal_strlit("criteria");
    reveal_strlit("improvements");
    reveal_strlit("comment");
}

/// An answer is an object with winning conditions, scores, improvements and a comment, all of them
/// required, in this order, and nothing else.
pub proof fn lemma_answer(ids: Seq<Seq<char>>)
    ensures
        member(answer_schema(ids), "type"@) == Some(Shape::Text("object"@)),
        member(answer_schema(ids), "properties"@) == Some(answer_properties(ids)),
        member_names(answer_properties(ids)) == seq![
            "winning_conditions"@,
            "criteria"@,
            "improvements"@,
            "comment"@,
        ],
        member(answer_schema(ids), "required"@) == Some(
            Shape::List(
                member_names(answer_properties(ids)).map_values(|s: Seq<char>| Shape::Text(s)),
            ),
        ),
        member(answer_schema(ids), "additionalProperties"@) == Some(Shape::Flag(false)),
        member(answer_properties(ids), "criteria"@) == Some(scores_schema(ids)),
        member(answer_properties(ids), "winning_conditions"@) == Some(conditions_schema()),
        member(answer_properties(ids), "improvements"@) == Some(improvements_schema()),
        member(conditions_schema(), "minItems"@) == Some(Shape::Number(3)),
        member(improvements_schema(), "minItems"@) == Some(Shape::Number(3)),
        member(improvements_schema(), "maxItems"@) == Some(Shape::Number(8)),
{
    lemma_names();
    let t = answer_schema(ids)->Object_0;
    lemma_named_at(t, "type"@, 0);
    lemma_named_at(t, "properties"@, 1);
    lemma_named_at(t, "required"@, 2);
    lemma_named_at(t, "additionalProperties"@, 3);
    let p = answer_properties(ids)->Object_0;
    lemma_named_at(p, "winning_conditions"@, 0);
    lemma_named_at(p, "criteria"@, 1);
    lemma_named_at(p, "improvements"@, 2);
    let ns = seq!["winning_conditions"@, "criteria"@, "improvements"@, "comment"@];
    assert(member_names(answer_properties(ids)) =~= ns);
    assert(ns.map_values(|s: Seq<char>| Shape::Text(s)) =~= seq![
        Shape::Text("winning_conditions"@),
        Shape::Text("criteria"@),
        Shape::Text("improvements"@),
        Shape::Text("comment"@),
    ]);
    lemma_named_at(conditions_schema()->Object_0, "minItems"@, 1);
    lemma_named_at(improvements_schema()->Object_0, "minItems"@, 1);
    lemma_named_at(improvements_schema()->Object_0, "maxItems"@, 2);
}

/// There is a score for each criterion at least, each under the id of one of the criteria, with
/// evidence and a reason, all of them required, and from 0 to 100 points.
pub proof fn lemma_scores(ids: Seq<Seq<char>>)
    ensures
        member(scores_schema(ids), "minItems"@) == Some(Shape::Number(ids.len())),
        member(scores_schema(ids), "items"@) == Some(criterion_schema(ids)),
        member(criterion_schema(ids), "properties"@) == Some(criterion_properties(ids)),
        member_names(criterion_properties(ids)) == seq![
            "id"@,
            "evidence"@,
            "why_not_higher"@,
            "score"@,
        ],
        member(criterion_schema(ids), "required"@) == Some(
            Shape::List(
                member_names(criterion_properties(ids)).map_values(|s: Seq<char>| Shape::Text(s)),
            ),
        ),
        member(criterion_schema(ids), "additionalProperties"@) == Some(Shape::Flag(false)),
        member(criterion_properties(ids), "id"@) == Some(id_schema(ids)),
        member(id_schema(ids), "enum"@) == Some(
            Shape::List(Seq::new(ids.len(), |i: int| Shape::Text(ids[i]))),
        ),
        member(criterion_properties(ids), "score"@) == Some(points_schema()),
        member(points_schema(), "type"@) == Some(Shape::Text("integer"@)),
        member(points_schema(), "minimum"@) == Some(Shape::Number(0)),
        member(points_schema(), "maximum"@) == Some(Shape::Number(100)),
{
    lemma_names();
    lemma_named_at(scores_schema(ids)->Object_0, "minItems"@, 1);
    lemma_named_at(scores_schema(ids)->Object_0, "items"@, 2);
    let t = criterion_schema(ids)->Object_0;
    lemma_named_at(t, "properties"@, 1);
    lemma_named_at(t, "required"@, 2);
    lemma_named_at(t, "additionalProperties"@, 3);
    let p = criterion_properties(ids)->Object_0;
    lemma_named_at(p, "id"@, 0);
    lemma_named_at(p, "score"@, 3);
    let ns = seq!["id"@, "evidence"@, "why_not_higher"@, "score"@];
    assert(member_names(criterion_properties(ids)) =~= ns);
    assert(ns.map_values(|s: Seq<char>| Shape::Text(s)) =~= seq![
        Shape::Text("id"@),
        Shape::Text("evidence"@),
        Shape::Text("why_not_higher"@),
        Shape::Text("score"@),
    ]);
    lemma_named_at(id_schema(ids)->Object_0, "enum"@, 1);
    assert(ids.map_values(|s: Seq<char>| Shape::Text(s)) =~= Seq::new(
        ids.len(),
        |i: int| Shape::Text(ids[i]),
    ));
    lemma_named_at(points_schema()->Object_0, "type"@, 0);
    lemma_named_at(points_schema()->Object_0, "minimum"@, 1);
    lemma_named_at(points_schema()->Object_0, "maximum"@, 2);
}

} // verus!
