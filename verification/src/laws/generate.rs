//! Laws of writing: what a model is told before it writes or revises a draft.
use crate::generate::{draft_prompt, optional_part, revision_prompt, DRAFT_RULES, REVISION_RULES};
use crate::laws::text::{lemma_glued, lemma_glued_push, lemma_stands};
use crate::store_spec::Spec;
use crate::text::{lemma_occurs_within, occurs};
use vstd::prelude::*;

verus! {

/// A part of a prompt is there exactly where there is something to say, and then under its heading.
pub proof fn lemma_optional(heading: Seq<char>, body: Seq<char>)
    ensures
        body.len() == 0 ==> optional_part(heading, body).len() == 0,
        body.len() > 0 ==> occurs(heading + body, optional_part(heading, body)),
{
    if body.len() > 0 {
        let end = "\n\n"@;
        lemma_stands(seq![], heading + body, end);
        assert(seq![] + (heading + body) + end =~= heading + body + end);
    }
}

/// Who writes a draft is told the store, the app, the context, the idea, the keywords, the fields,
/// the criteria, the rules and, where there is one, the angle.
pub proof fn lemma_draft_prompt(spec: Spec, idea: Seq<char>, angle: Seq<char>)
    ensures
        occurs(spec.store.name(), draft_prompt(spec, idea, angle)),
        occurs(spec.name@, draft_prompt(spec, idea, angle)),
        occurs(spec.context@, draft_prompt(spec, idea, angle)),
        occurs(idea, draft_prompt(spec, idea, angle)),
        occurs(spec.keywords_text(), draft_prompt(spec, idea, angle)),
        occurs(spec.sections_text(), draft_prompt(spec, idea, angle)),
        occurs(spec.rubric_text(), draft_prompt(spec, idea, angle)),
        occurs(DRAFT_RULES@, draft_prompt(spec, idea, angle)),
        angle.len() > 0 ==> occurs(
            "## Differentiation Angle for This Draft\n"@ + angle,
            draft_prompt(spec, idea, angle),
        ),
{
    let none = Seq::<Seq<char>>::empty();
    let part = optional_part("## Differentiation Angle for This Draft\n"@, angle);
    let p1 = none.push("# Task\nWrite a draft of the app store listing copy according to the store specifications below.\n\n## Target Store: "@);
    lemma_glued_push(none, "# Task\nWrite a draft of the app store listing copy according to the store specifications below.\n\n## Target Store: "@);
    let p2 = p1.push(spec.store.name());
    lemma_glued_push(p1, spec.store.name());
    let p3 = p2.push("\n## App: "@);
    lemma_glued_push(p2, "\n## App: "@);
    let p4 = p3.push(spec.name@);
    lemma_glued_push(p3, spec.name@);
    let p5 = p4.push("\n"@);
    lemma_glued_push(p4, "\n"@);
    let p6 = p5.push(spec.context@);
    lemma_glued_push(p5, spec.context@);
    let p7 = p6.push("\n\n"@);
    lemma_glued_push(p6, "\n\n"@);
    let p8 = p7.push(part);
    lemma_glued_push(p7, part);
    let p9 = p8.push("## App Overview Material\n"@);
    lemma_glued_push(p8, "## App Overview Material\n"@);
    let p10 = p9.push(idea);
    lemma_glued_push(p9, idea);
    let p11 = p10.push("\n\n## Target Keywords (reflect as naturally as possible)\n"@);
    lemma_glued_push(p10, "\n\n## Target Keywords (reflect as naturally as possible)\n"@);
    let p12 = p11.push(spec.keywords_text());
    lemma_glued_push(p11, spec.keywords_text());
    let p13 = p12.push("\n\n## Fields to Write\n"@);
    lemma_glued_push(p12, "\n\n## Fields to Write\n"@);
    let p14 = p13.push(spec.sections_text());
    lemma_glued_push(p13, spec.sections_text());
    let p15 = p14.push("\n\n## Review Criteria (keep these in mind while writing)\n"@);
    lemma_glued_push(p14, "\n\n## Review Criteria (keep these in mind while writing)\n"@);
    let p16 = p15.push(spec.rubric_text());
    lemma_glued_push(p15, spec.rubric_text());
    let p17 = p16.push("\n\n"@);
    lemma_glued_push(p16, "\n\n"@);
    let p18 = p17.push(DRAFT_RULES@);
    lemma_glued_push(p17, DRAFT_RULES@);
    assert(p18[1] == spec.store.name());
    lemma_glued(p18, 1);
    assert(p18[3] == spec.name@);
    lemma_glued(p18, 3);
    assert(p18[5] == spec.context@);
    lemma_glued(p18, 5);
    assert(p18[7] == part);
    lemma_glued(p18, 7);
    assert(p18[9] == idea);
    lemma_glued(p18, 9);
    assert(p18[11] == spec.keywords_text());
    lemma_glued(p18, 11);
    assert(p18[13] == spec.sections_text());
    lemma_glued(p18, 13);
    assert(p18[15] == spec.rubric_text());
    lemma_glued(p18, 15);
    assert(p18[17] == DRAFT_RULES@);
    lemma_glued(p18, 17);
    if angle.len() > 0 {
        lemma_optional("## Differentiation Angle for This Draft\n"@, angle);
        lemma_occurs_within(
            "## Differentiation Angle for This Draft\n"@ + angle,
            part,
            draft_prompt(spec, idea, angle),
        );
    }
}

/// Who revises a draft is told the store, the app, the context, the idea, the draft, the feedback,
/// the keywords, the criteria, the fields, the rules and, where there are any, the weak points.
pub proof fn lemma_revision_prompt(
    spec: Spec,
    idea: Seq<char>,
    prev_doc: Seq<char>,
    feedback: Seq<char>,
    weak: Seq<char>,
)
    ensures
        occurs(spec.store.name(), revision_prompt(spec, idea, prev_doc, feedback, weak)),
        occurs(spec.name@, revision_prompt(spec, idea, prev_doc, feedback, weak)),
        occurs(spec.context@, revision_prompt(spec, idea, prev_doc, feedback, weak)),
        occurs(idea, revision_prompt(spec, idea, prev_doc, feedback, weak)),
        occurs(prev_doc, revision_prompt(spec, idea, prev_doc, feedback, weak)),
        occurs(feedback, revision_prompt(spec, idea, prev_doc, feedback, weak)),
        occurs(spec.keywords_text(), revision_prompt(spec, idea, prev_doc, feedback, weak)),
        occurs(spec.rubric_text(), revision_prompt(spec, idea, prev_doc, feedback, weak)),
        occurs(spec.sections_text(), revision_prompt(spec, idea, prev_doc, feedback, weak)),
        occurs(REVISION_RULES@, revision_prompt(spec, idea, prev_doc, feedback, weak)),
        weak.len() > 0 ==> occurs(
            "## Items with Particularly Low Scores\n"@ + weak,
            revision_prompt(spec, idea, prev_doc, feedback, weak),
        ),
{
    let none = Seq::<Seq<char>>::empty();
    let part = optional_part("## Items with Particularly Low Scores\n"@, weak);
    let p1 = none.push("# Task\nImprove the listing copy draft below according to the review feedback and output the full revised text.\n\n## Target Store: "@);
    lemma_glued_push(none, "# Task\nImprove the listing copy draft below according to the review feedback and output the full revised text.\n\n## Target Store: "@);
    let p2 = p1.push(spec.store.name());
    lemma_glued_push(p1, spec.store.name());
    let p3 = p2.push("\n## App: "@);
    lemma_glued_push(p2, "\n## App: "@);
    let p4 = p3.push(spec.name@);
    lemma_glued_push(p3, spec.name@);
    let p5 = p4.push("\n"@);
    lemma_glued_push(p4, "\n"@);
    let p6 = p5.push(spec.context@);
    lemma_glued_push(p5, spec.context@);
    let p7 = p6.push("\n\n## App Overview Material\n"@);
    lemma_glued_push(p6, "\n\n## App Overview Material\n"@);
    let p8 = p7.push(idea);
    lemma_glued_push(p7, idea);
    let p9 = p8.push("\n\n## Current Draft\n"@);
    lemma_glued_push(p8, "\n\n## Current Draft\n"@);
    let p10 = p9.push(prev_doc);
    lemma_glued_push(p9, prev_doc);
    let p11 = p10.push("\n\n## Review Feedback (must be reflected)\n"@);
    lemma_glued_push(p10, "\n\n## Review Feedback (must be reflected)\n"@);
    let p12 = p11.push(feedback);
    lemma_glued_push(p11, feedback);
    let p13 = p12.push("\n\n"@);
    lemma_glued_push(p12, "\n\n"@);
    let p14 = p13.push(part);
    lemma_glued_push(p13, part);
    let p15 = p14.push("## Target Keywords\n"@);
    lemma_glued_push(p14, "## Target Keywords\n"@);
    let p16 = p15.push(spec.keywords_text());
    lemma_glued_push(p15, spec.keywords_text());
    let p17 = p16.push("\n\n## Review Criteria\n"@);
    lemma_glued_push(p16, "\n\n## Review Criteria\n"@);
    let p18 = p17.push(spec.rubric_text());
    lemma_glued_push(p17, spec.rubric_text());
    let p19 = p18.push("\n\n## Field Structure and Character Limits to Maintain\n"@);
    lemma_glued_push(p18, "\n\n## Field Structure and Character Limits to Maintain\n"@);
    let p20 = p19.push(spec.sections_text());
    lemma_glued_push(p19, spec.sections_text());
    let p21 = p20.push("\n\n"@);
    lemma_glued_push(p20, "\n\n"@);
    let p22 = p21.push(REVISION_RULES@);
    lemma_glued_push(p21, REVISION_RULES@);
    assert(p22[1] == spec.store.name());
    lemma_glued(p22, 1);
    assert(p22[3] == spec.name@);
    lemma_glued(p22, 3);
    assert(p22[5] == spec.context@);
    lemma_glued(p22, 5);
    assert(p22[7] == idea);
    lemma_glued(p22, 7);
    assert(p22[9] == prev_doc);
    lemma_glued(p22, 9);
    assert(p22[11] == feedback);
    lemma_glued(p22, 11);
    assert(p22[13] == part);
    lemma_glued(p22, 13);
    assert(p22[15] == spec.keywords_text());
    lemma_glued(p22, 15);
    assert(p22[17] == spec.rubric_text());
    lemma_glued(p22, 17);
    assert(p22[19] == spec.sections_text());
    lemma_glued(p22, 19);
    assert(p22[21] == REVISION_RULES@);
    lemma_glued(p22, 21);
    if weak.len() > 0 {
        lemma_optional("## Items with Particularly Low Scores\n"@, weak);
        lemma_occurs_within(
            "## Items with Particularly Low Scores\n"@ + weak,
            part,
            revision_prompt(spec, idea, prev_doc, feedback, weak),
        );
    }
}

} // verus!
