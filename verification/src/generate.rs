//! What a model that writes listing copy is told.
use crate::store_spec::Spec;
use crate::text::texts;
use vstd::prelude::*;

verus! {

/// Who the writing model is told to be.
pub const SYSTEM: &'static str = "You are an ASO (App Store Optimization) copywriter deeply familiar with the \
listing rules of App Store Connect and Google Play Console. You never exceed the character limits \
enforced by the stores, and you weave target keywords in naturally while avoiding anything that reads \
like keyword stuffing. You do not use trademarked competitor app names, unsubstantiated superlatives \
like 'best/No.1/only', or pricing/discount language.";

/// The rules for the output of a first draft.
pub const DRAFT_RULES: &'static str = "## Output Rules\n\
- Output in markdown. Use the exact field name as a `## FieldName` heading, and write only the body text below it.\n\
- Output only the document body, with no introduction, explanation, or meta-commentary.\n\
- Never exceed the maximum character count for each field (count including line breaks and spaces, and verify it yourself).\n\
- Do not use competitor app names, trademarks, unsubstantiated superlatives like 'best/No.1/only/no.1', pricing/discount language, or excessive emoji.\n\
- If there is a keywords field, do not repeat words already used in title/subtitle (they get auto-deduped, which is wasteful).\n";

/// The rules for the output of a revision.
pub const REVISION_RULES: &'static str = "## Output Rules\n\
- Output the entire improved document in markdown. No summary of changes or meta-commentary.\n\
- Keep well-written parts as is, and substantively strengthen only the parts that were flagged.\n\
- You must observe each field's character limit. Do not respond by padding meaninglessly within the limit; \
substantively replace weak sentences instead.\n\
- Do not force keywords in to the point that sentences become unnatural (balance readability vs. keyword density).\n";

/// The angles for the drafts of a listing whose description gives none.
pub const DEFAULT_ANGLES: [&'static str; 6] = [
    "Place core feature and category keywords at the very front of the title, prioritizing search visibility above all.",
    "Foreground emotional benefits and the change after use, prioritizing conversion rate above all.",
    "Fill target keyword coverage as densely as possible while keeping sentences natural.",
    "Foreground differentiation points versus competing apps (features, pricing policy, UX).",
    "Avoid translationese and prioritize expressions that feel natural to local users.",
    "Prioritize conciseness and readability, keeping keyword density low.",
];

/// A part of a prompt under its heading, or nothing where there is nothing to say.
pub open spec fn optional_part(heading: Seq<char>, body: Seq<char>) -> Seq<char> {
    if body.len() == 0 {
        seq![]
    } else {
        heading + body + "\n\n"@
    }
}

/// What a model is told to write a draft.
pub open spec fn draft_prompt(spec: Spec, idea: Seq<char>, angle: Seq<char>) -> Seq<char> {
    "# Task\nWrite a draft of the app store listing copy according to the store specifications below.\n\n## Target Store: "@
        + spec.store.name() + "\n## App: "@ + spec.name@ + "\n"@ + spec.context@ + "\n\n"@
        + optional_part("## Differentiation Angle for This Draft\n"@, angle)
        + "## App Overview Material\n"@ + idea
        + "\n\n## Target Keywords (reflect as naturally as possible)\n"@ + spec.keywords_text()
        + "\n\n## Fields to Write\n"@ + spec.sections_text()
        + "\n\n## Review Criteria (keep these in mind while writing)\n"@ + spec.rubric_text()
        + "\n\n"@ + DRAFT_RULES@
}

/// What a model is told to revise a draft.
pub open spec fn revision_prompt(
    spec: Spec,
    idea: Seq<char>,
    prev_doc: Seq<char>,
    feedback: Seq<char>,
    weak: Seq<char>,
) -> Seq<char> {
    "# Task\nImprove the listing copy draft below according to the review feedback and output the full revised text.\n\n## Target Store: "@
        + spec.store.name() + "\n## App: "@ + spec.name@ + "\n"@ + spec.context@
        + "\n\n## App Overview Material\n"@ + idea + "\n\n## Current Draft\n"@ + prev_doc
        + "\n\n## Review Feedback (must be reflected)\n"@ + feedback + "\n\n"@ + optional_part(
        "## Items with Particularly Low Scores\n"@,
        weak,
    ) + "## Target Keywords\n"@ + spec.keywords_text() + "\n\n## Review Criteria\n"@
        + spec.rubric_text() + "\n\n## Field Structure and Character Limits to Maintain\n"@
        + spec.sections_text() + "\n\n"@ + REVISION_RULES@
}

/// Appends a part of a prompt under its heading, where there is something to say.
fn append_optional(p: &mut String, heading: &str, body: &str)
    ensures
        final(p)@ == old(p)@ + optional_part(heading@, body@),
{
    if !body.is_empty() {
        let mut part = heading.to_string();
        part.append(body);
        part.append("\n\n");
        p.append(part.as_str());
    }
}

/// What a model is told to write a draft.
pub fn build_prompt(spec: &Spec, idea: &str, angle: &str) -> (r: String)
    ensures
        r@ == draft_prompt(*spec, idea@, angle@),
{
    let mut p =
        "# Task\nWrite a draft of the app store listing copy according to the store specifications below.\n\n## Target Store: ".to_string();
    p.append(spec.store.label());
    p.append("\n## App: ");
    p.append(spec.name.as_str());
    p.append("\n");
    p.append(spec.context.as_str());
    p.append("\n\n");
    append_optional(&mut p, "## Differentiation Angle for This Draft\n", angle);
    p.append("## App Overview Material\n");
    p.append(idea);
    p.append("\n\n## Target Keywords (reflect as naturally as possible)\n");
    p.append(spec.keywords_prompt().as_str());
    p.append("\n\n## Fields to Write\n");
    p.append(spec.sections_prompt().as_str());
    p.append("\n\n## Review Criteria (keep these in mind while writing)\n");
    p.append(spec.rubric_prompt().as_str());
    p.append("\n\n");
    p.append(DRAFT_RULES);
    p
}

/// What a model is told to revise a draft. `weak` may be empty.
pub fn build_revise_prompt(
    spec: &Spec,
    idea: &str,
    prev_doc: &str,
    feedback: &str,
    weak: &str,
) -> (r: String)
    ensures
        r@ == revision_prompt(*spec, idea@, prev_doc@, feedback@, weak@),
{
    let mut p =
        "# Task\nImprove the listing copy draft below according to the review feedback and output the full revised text.\n\n## Target Store: ".to_string();
    p.append(spec.store.label());
    p.append("\n## App: ");
    p.append(spec.name.as_str());
    p.append("\n");
    p.append(spec.context.as_str());
    p.append("\n\n## App Overview Material\n");
    p.append(idea);
    p.append("\n\n## Current Draft\n");
    p.append(prev_doc);
    p.append("\n\n## Review Feedback (must be reflected)\n");
    p.append(feedback);
    p.append("\n\n");
    append_optional(&mut p, "## Items with Particularly Low Scores\n", weak);
    p.append("## Target Keywords\n");
    p.append(spec.keywords_prompt().as_str());
    p.append("\n\n## Review Criteria\n");
    p.append(spec.rubric_prompt().as_str());
    p.append("\n\n## Field Structure and Character Limits to Maintain\n");
    p.append(spec.sections_prompt().as_str());
    p.append("\n\n");
    p.append(REVISION_RULES);
    p
}

/// The angle of draft `i`, counted from 0: one of the description's own while they last, then the
/// default ones in turn.
pub open spec fn angle_of(spec: Spec, i: int) -> Seq<char> {
    if i < spec.angles@.len() {
        spec.angles@[i]@
    } else {
        DEFAULT_ANGLES@[(i - spec.angles@.len()) % 6]@
    }
}

/// The angles for `n` drafts: those of the description and, where they are too few, the default
/// ones behind them, from the start again where those run out.
pub fn angles_for(spec: &Spec, n: usize) -> (r: Vec<String>)
    ensures
        texts(r@) == Seq::new(n as nat, |i: int| angle_of(*spec, i)),
{
    let ghost all = Seq::new(n as nat, |i: int| angle_of(*spec, i));
    let own: usize = spec.angles.len();
    let mut out: Vec<String> = Vec::new();
    for i in 0..n
        invariant
            all == Seq::new(n as nat, |i: int| angle_of(*spec, i)),
            own == spec.angles@.len(),
            texts(out@) == all.take(i as int),
    {
        let ghost prev = texts(out@);
        if i < own {
            out.push(spec.angles[i].clone());
        } else {
            let k: usize = (i - own) % 6;
            out.push(DEFAULT_ANGLES[k].to_string());
        }
        assert(texts(out@) =~= prev.push(all[i as int]));
    }
    assert(all.take(n as int) =~= all);
    out
}

/// The description's own angles come first, each once. Behind them come the default ones: all six
/// before one of them comes again, and the same one after every six drafts.
pub proof fn lemma_angles(spec: Spec, i: int)
    requires
        0 <= i,
    ensures
        i < spec.angles@.len() ==> angle_of(spec, i) == spec.angles@[i]@,
        i < 6 ==> angle_of(spec, spec.angles@.len() + i) == DEFAULT_ANGLES@[i]@,
        i >= spec.angles@.len() ==> angle_of(spec, i + 6) == angle_of(spec, i),
{
}

} // verus!
