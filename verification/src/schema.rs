//! The JSON schema that a judge's answer has to meet.
use crate::json::{members, push_member, text_list, text_value, Json, Shape};
use crate::store_spec::{criterion_ids, Spec};
use crate::text::texts;
use vstd::prelude::*;

verus! {

/// The schema of a text.
pub open spec fn text_schema() -> Shape {
    Shape::Object(seq![("type"@, Shape::Text("string"@))])
}

/// The schema of a text with a description.
pub open spec fn described_text(description: Seq<char>) -> Shape {
    Shape::Object(
        seq![("type"@, Shape::Text("string"@)), ("description"@, Shape::Text(description))],
    )
}

/// The list of four names.
pub open spec fn names(a: Seq<char>, b: Seq<char>, c: Seq<char>, d: Seq<char>) -> Shape {
    Shape::List(seq![Shape::Text(a), Shape::Text(b), Shape::Text(c), Shape::Text(d)])
}

/// The schema of a criterion's id, one of `ids`.
pub open spec fn id_schema(ids: Seq<Seq<char>>) -> Shape {
    Shape::Object(
        seq![
            ("type"@, Shape::Text("string"@)),
            ("enum"@, Shape::List(ids.map_values(|s: Seq<char>| Shape::Text(s)))),
        ],
    )
}

/// The schema of a number of points.
pub open spec fn points_schema() -> Shape {
    Shape::Object(
        seq![
            ("type"@, Shape::Text("integer"@)),
            ("minimum"@, Shape::Number(0)),
            ("maximum"@, Shape::Number(100)),
        ],
    )
}

/// The members of a score for one criterion.
pub open spec fn criterion_properties(ids: Seq<Seq<char>>) -> Shape {
    Shape::Object(
        seq![
            ("id"@, id_schema(ids)),
            (
                "evidence"@,
                described_text(
                    "Direct quote from the source document (a short one is fine; quoting the whole field is also allowed)"@,
                ),
            ),
            ("why_not_higher"@, described_text("Why not a higher score"@)),
            ("score"@, points_schema()),
        ],
    )
}

/// The schema of a score for one criterion.
pub open spec fn criterion_schema(ids: Seq<Seq<char>>) -> Shape {
    Shape::Object(
        seq![
            ("type"@, Shape::Text("object"@)),
            ("properties"@, criterion_properties(ids)),
            ("required"@, names("id"@, "evidence"@, "why_not_higher"@, "score"@)),
            ("additionalProperties"@, Shape::Flag(false)),
        ],
    )
}

/// The schema of the winning conditions.
pub open spec fn conditions_schema() -> Shape {
    Shape::Object(
        seq![
            ("type"@, Shape::Text("array"@)),
            ("minItems"@, Shape::Number(3)),
            ("items"@, text_schema()),
            (
                "description"@,
                Shape::Text(
                    "Before reading the document, 3-6 conditions this listing must meet to capture both search visibility and conversion"@,
                ),
            ),
        ],
    )
}

/// The schema of the scores, one for each criterion.
pub open spec fn scores_schema(ids: Seq<Seq<char>>) -> Shape {
    Shape::Object(
        seq![
            ("type"@, Shape::Text("array"@)),
            ("minItems"@, Shape::Number(ids.len())),
            ("items"@, criterion_schema(ids)),
        ],
    )
}

/// The schema of the improvements.
pub open spec fn improvements_schema() -> Shape {
    Shape::Object(
        seq![
            ("type"@, Shape::Text("array"@)),
            ("minItems"@, Shape::Number(3)),
            ("maxItems"@, Shape::Number(8)),
            ("items"@, described_text("Immediately actionable revision instructions"@)),
        ],
    )
}

/// The members of a judge's answer. Their order is the order in which a judge writes them: the
/// winning conditions come before any score, so that the document does not set them.
pub open spec fn answer_properties(ids: Seq<Seq<char>>) -> Shape {
    Shape::Object(
        seq![
            ("winning_conditions"@, conditions_schema()),
            ("criteria"@, scores_schema(ids)),
            ("improvements"@, improvements_schema()),
            ("comment"@, text_schema()),
        ],
    )
}

/// The schema of a judge's answer.
pub open spec fn answer_schema(ids: Seq<Seq<char>>) -> Shape {
    Shape::Object(
        seq![
            ("type"@, Shape::Text("object"@)),
            ("properties"@, answer_properties(ids)),
            ("required"@, names("winning_conditions"@, "criteria"@, "improvements"@, "comment"@)),
            ("additionalProperties"@, Shape::Flag(false)),
        ],
    )
}

/// An object with a `type` and nothing else yet.
fn typed(name: &str) -> (r: Vec<(String, Json)>)
    ensures
        members(r@) == seq![("type"@, Shape::Text(name@))],
{
    let mut out: Vec<(String, Json)> = Vec::new();
    push_member(&mut out, "type", text_value(name));
    assert(members(out@) =~= seq![("type"@, Shape::Text(name@))]);
    out
}

/// The schema of a text with a description.
fn described(description: &str) -> (r: Json)
    ensures
        r.shape() == described_text(description@),
{
    let mut out = typed("string");
    push_member(&mut out, "description", text_value(description));
    assert(members(out@) =~= seq![
        ("type"@, Shape::Text("string"@)),
        ("description"@, Shape::Text(description@)),
    ]);
    Json::Object(out)
}

/// The list of four names.
fn four_names(a: &str, b: &str, c: &str, d: &str) -> (r: Json)
    ensures
        r.shape() == names(a@, b@, c@, d@),
{
    let v = vec![a.to_string(), b.to_string(), c.to_string(), d.to_string()];
    assert(v@.map_values(|s: String| Shape::Text(s@)) =~= seq![
        Shape::Text(a@),
        Shape::Text(b@),
        Shape::Text(c@),
        Shape::Text(d@),
    ]);
    text_list(&v)
}

/// The schema of a score for one criterion.
fn schema_of_criterion(ids: &Vec<String>) -> (r: Json)
    ensures
        r.shape() == criterion_schema(texts(ids@)),
{
    let mut id = typed("string");
    push_member(&mut id, "enum", text_list(ids));
    assert(ids@.map_values(|s: String| Shape::Text(s@)) =~= texts(ids@).map_values(
        |s: Seq<char>| Shape::Text(s),
    ));
    assert(members(id@) =~= id_schema(texts(ids@))->Object_0);
    let mut points = typed("integer");
    push_member(&mut points, "minimum", Json::Number(0));
    push_member(&mut points, "maximum", Json::Number(100));
    assert(members(points@) =~= points_schema()->Object_0);
    let mut properties: Vec<(String, Json)> = Vec::new();
    push_member(&mut properties, "id", Json::Object(id));
    push_member(
        &mut properties,
        "evidence",
        described(
            "Direct quote from the source document (a short one is fine; quoting the whole field is also allowed)",
        ),
    );
    push_member(&mut properties, "why_not_higher", described("Why not a higher score"));
    push_member(&mut properties, "score", Json::Object(points));
    assert(members(properties@) =~= criterion_properties(texts(ids@))->Object_0);
    let mut out = typed("object");
    push_member(&mut out, "properties", Json::Object(properties));
    push_member(&mut out, "required", four_names("id", "evidence", "why_not_higher", "score"));
    push_member(&mut out, "additionalProperties", Json::Flag(false));
    assert(members(out@) =~= criterion_schema(texts(ids@))->Object_0);
    Json::Object(out)
}

/// The schema of a judge's answer.
pub fn judge_schema(spec: &Spec) -> (r: Json)
    ensures
        r.shape() == answer_schema(criterion_ids(spec.criteria@)),
{
    let mut ids: Vec<String> = Vec::new();
    for i in 0..spec.criteria.len()
        invariant
            texts(ids@) == criterion_ids(spec.criteria@).take(i as int),
    {
        let ghost prev = texts(ids@);
        ids.push(spec.criteria[i].id.clone());
        assert(texts(ids@) =~= prev.push(criterion_ids(spec.criteria@)[i as int]));
    }
    assert(texts(ids@) =~= criterion_ids(spec.criteria@));
    let mut conditions = typed("array");
    push_member(&mut conditions, "minItems", Json::Number(3));
    push_member(&mut conditions, "items", Json::Object(typed("string")));
    push_member(
        &mut conditions,
        "description",
        text_value(
            "Before reading the document, 3-6 conditions this listing must meet to capture both search visibility and conversion",
        ),
    );
    assert(members(conditions@) =~= conditions_schema()->Object_0);
    let mut scores = typed("array");
    push_member(&mut scores, "minItems", Json::Number(ids.len() as u64));
    push_member(&mut scores, "items", schema_of_criterion(&ids));
    assert(members(scores@) =~= scores_schema(texts(ids@))->Object_0);
    let mut improvements = typed("array");
    push_member(&mut improvements, "minItems", Json::Number(3));
    push_member(&mut improvements, "maxItems", Json::Number(8));
    push_member(
        &mut improvements,
        "items",
        described("Immediately actionable revision instructions"),
    );
    assert(members(improvements@) =~= improvements_schema()->Object_0);
    let mut properties: Vec<(String, Json)> = Vec::new();
    push_member(&mut properties, "winning_conditions", Json::Object(conditions));
    push_member(&mut properties, "criteria", Json::Object(scores));
    push_member(&mut properties, "improvements", Json::Object(improvements));
    push_member(&mut properties, "comment", Json::Object(typed("string")));
    assert(members(properties@) =~= answer_properties(texts(ids@))->Object_0);
    let mut out = typed("object");
    push_member(&mut out, "properties", Json::Object(properties));
    push_member(
        &mut out,
        "required",
        four_names("winning_conditions", "criteria", "improvements", "comment"),
    );
    push_member(&mut out, "additionalProperties", Json::Flag(false));
    assert(members(out@) =~= answer_schema(texts(ids@))->Object_0);
    Json::Object(out)
}

} // verus!
