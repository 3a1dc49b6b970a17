//! Laws of scoring: every judge's score counts once, and nothing that was found or advised is lost.
use crate::checks::{doc_bodies, issues, measured, missing};
use crate::double::{lemma_named, lemma_ranking, ranking, Double};
use crate::laws::double::lemma_ranked;
use crate::laws::text::{
    lemma_glued, lemma_glued_push, lemma_glued_two, lemma_part_joined, lemma_stands,
};
use crate::score::{
    bullets, by_id, feedback, judge_in, judge_prompt, lemma_advice_kept, lemma_by_id,
    lemma_improvements, lens_in, line_up, outcome, raw_lists, raw_scores, rounds_held, score_for,
    unscored, unscored_ids, unscored_warning, weakest, with_answers, LENSES, PROCEDURE,
    CriterionScore, JudgeResult, Numbers, Panel, ScoreError, Scored, ScoredView,
};
use crate::sorted::lookup;
use crate::store_spec::{criterion_ids, Criterion, Spec};
use crate::text::{decimal, join, lemma_occurs_within, occurs, texts, trim};
use vstd::prelude::*;

verus! {

/// An answer gives its score for a criterion at position `k`: the first score under the id.
pub open spec fn scored_at(r: JudgeResult, id: Seq<char>, k: int) -> bool {
    &&& 0 <= k < r.criteria@.len()
    &&& r.criteria@[k].id@ == id
    &&& forall|j: int| 0 <= j < k ==> (#[trigger] r.criteria@[j]).id@ != id
}

proof fn lemma_score_for(criteria: Seq<CriterionScore>, id: Seq<char>, k: int)
    requires
        0 <= k <= criteria.len(),
        k < criteria.len() ==> criteria[k].id@ == id,
        forall|j: int| 0 <= j < k ==> (#[trigger] criteria[j]).id@ != id,
    ensures
        score_for(criteria, id) == if k < criteria.len() {
            Some(criteria[k].score)
        } else {
            None
        },
    decreases k,
{
    if k > 0 {
        assert(criteria[0].id@ != id);
        let t = criteria.drop_first();
        assert forall|j: int| 0 <= j < k - 1 implies (#[trigger] t[j]).id@ != id by {
            assert(t[j] == criteria[j + 1]);
        }
        lemma_score_for(t, id, k - 1);
    }
}

/// The score of one more answer is collected behind the others, moved into the range of scores,
/// whatever was collected before. An answer without a score for the criterion changes nothing.
pub proof fn lemma_score_collected(
    results: Seq<JudgeResult>,
    r: JudgeResult,
    id: Seq<char>,
    k: int,
)
    ensures
        raw_scores(seq![], id) == Seq::<Double>::empty(),
        scored_at(r, id, k) ==> raw_scores(results.push(r), id) == raw_scores(results, id).push(
            r.criteria@[k].score.clamped(),
        ),
        (forall|j: int| 0 <= j < r.criteria@.len() ==> (#[trigger] r.criteria@[j]).id@ != id)
            ==> raw_scores(results.push(r), id) == raw_scores(results, id),
{
    assert(results.push(r).drop_last() =~= results);
    if scored_at(r, id, k) {
        lemma_score_for(r.criteria@, id, k);
    }
    if forall|j: int| 0 <= j < r.criteria@.len() ==> (#[trigger] r.criteria@[j]).id@ != id {
        lemma_score_for(r.criteria@, id, r.criteria@.len() as int);
    }
}

/// Where every answer has a score for the criterion, there are as many scores as answers, and each
/// stands at the place of its answer.
pub proof fn lemma_scores_complete(results: Seq<JudgeResult>, id: Seq<char>, at: Seq<int>)
    requires
        at.len() == results.len(),
        forall|i: int| 0 <= i < results.len() ==> scored_at(#[trigger] results[i], id, at[i]),
    ensures
        raw_scores(results, id).len() == results.len(),
        forall|i: int|
            0 <= i < results.len() ==> (#[trigger] raw_scores(results, id)[i])
                == results[i].criteria@[at[i]].score.clamped(),
    decreases results.len(),
{
    if results.len() > 0 {
        let t = results.drop_last();
        let r = results.last();
        let n = results.len() - 1;
        assert(results =~= t.push(r));
        assert forall|i: int| 0 <= i < t.len() implies scored_at(
            #[trigger] t[i],
            id,
            at.drop_last()[i],
        ) by {
            assert(t[i] == results[i]);
        }
        lemma_scores_complete(t, id, at.drop_last());
        assert(scored_at(results[n], id, at[n]));
        lemma_score_collected(t, r, id, at[n]);
        assert forall|i: int| 0 <= i < results.len() implies (#[trigger] raw_scores(results, id)[i])
            == results[i].criteria@[at[i]].score.clamped() by {
            if i < n {
                assert(raw_scores(t, id)[i] == t[i].criteria@[at.drop_last()[i]].score.clamped());
            }
        }
    }
}

/// The scores of two groups of judges together are those of the one and then those of the other.
pub proof fn lemma_scores_add_up(a: Seq<JudgeResult>, b: Seq<JudgeResult>, id: Seq<char>)
    ensures
        raw_scores(a + b, id) == raw_scores(a, id) + raw_scores(b, id),
    decreases b.len(),
{
    if b.len() == 0 {
        assert(a + b =~= a);
        assert(raw_scores(a, id) + raw_scores(b, id) =~= raw_scores(a, id));
    } else {
        assert((a + b).drop_last() =~= a + b.drop_last());
        lemma_scores_add_up(a, b.drop_last(), id);
        assert(raw_scores(a + b, id) =~= raw_scores(a, id) + raw_scores(b, id));
    }
}

/// A criterion whose id is bound to nothing counts as zero; any other counts as what it is bound
/// to.
pub proof fn lemma_lined_up(criteria: Seq<Criterion>, e: Seq<(Seq<char>, Double)>, i: int)
    requires
        0 <= i < criteria.len(),
    ensures
        line_up(criteria, e).len() == criteria.len(),
        lookup(e, criteria[i].id@) is None ==> line_up(criteria, e)[i] == (Double { bits: 0 }),
        lookup(e, criteria[i].id@) is Some ==> line_up(criteria, e)[i] == lookup(
            e,
            criteria[i].id@,
        )->Some_0,
{
}

/// A scored document holds what the rules found, what the judges said and the numbers, each under
/// the id of its criterion.
pub proof fn lemma_outcome(
    spec: Spec,
    label: Seq<char>,
    doc: Seq<char>,
    brief: Option<Seq<char>>,
    panel: Panel,
    numbers: Numbers,
    i: int,
)
    requires
        criterion_ids(spec.criteria@).no_duplicates(),
        numbers.means@.len() == spec.criteria@.len(),
        numbers.spreads@.len() == spec.criteria@.len(),
        0 <= i < spec.criteria@.len(),
    ensures
        outcome(spec, label, doc, brief, panel, numbers).label == label,
        outcome(spec, label, doc, brief, panel, numbers).total == numbers.total,
        outcome(spec, label, doc, brief, panel, numbers).format_issues == issues(spec, doc, brief),
        outcome(spec, label, doc, brief, panel, numbers).missing_fields == missing(
            spec.sections@,
            doc_bodies(spec, doc),
        ),
        outcome(spec, label, doc, brief, panel, numbers).metrics == measured(spec, doc),
        outcome(spec, label, doc, brief, panel, numbers).rounds == panel.round_count(),
        outcome(spec, label, doc, brief, panel, numbers).models == panel.answered_by(),
        lookup(
            outcome(spec, label, doc, brief, panel, numbers).per_criterion,
            spec.criteria@[i].id@,
        ) == Some(numbers.means@[i]),
        lookup(outcome(spec, label, doc, brief, panel, numbers).spread, spec.criteria@[i].id@)
            == Some(numbers.spreads@[i]),
        lookup(outcome(spec, label, doc, brief, panel, numbers).raw, spec.criteria@[i].id@) == Some(
            raw_scores(panel.answers(), spec.criteria@[i].id@),
        ),
        outcome(spec, label, doc, brief, panel, numbers).comments.len() == panel.answers().len(),
        forall|k: int|
            0 <= k < panel.answers().len() ==> (#[trigger] outcome(
                spec,
                label,
                doc,
                brief,
                panel,
                numbers,
            ).comments[k]) == panel.answers()[k].comment@,
{
    lemma_by_id(spec.criteria@, numbers.means@, i);
    lemma_by_id(spec.criteria@, numbers.spreads@, i);
    lemma_by_id(spec.criteria@, raw_lists(spec.criteria@, panel.answers()), i);
}

/// One more piece of advice is added behind the others, without whitespace at its ends, unless
/// it is blank or stands there already.
pub proof fn lemma_advice_added(
    list: Seq<Seq<char>>,
    results: Seq<JudgeResult>,
    a: JudgeResult,
    b: JudgeResult,
    x: Seq<char>,
)
    requires
        texts(b.improvements@) == texts(a.improvements@).push(x),
    ensures
        with_answers(list, seq![]) == list,
        trim(x).len() == 0 || with_answers(list, results.push(a)).contains(trim(x)) ==> with_answers(
            list,
            results.push(b),
        ) == with_answers(list, results.push(a)),
        trim(x).len() > 0 && !with_answers(list, results.push(a)).contains(trim(x)) ==> with_answers(
            list,
            results.push(b),
        ) == with_answers(list, results.push(a)).push(trim(x)),
{
    assert(results.push(a).drop_last() =~= results);
    assert(results.push(b).drop_last() =~= results);
    assert(texts(b.improvements@).drop_last() =~= texts(a.improvements@));
}

/// An answer without advice adds nothing.
pub proof fn lemma_no_advice(list: Seq<Seq<char>>, results: Seq<JudgeResult>, a: JudgeResult)
    requires
        a.improvements@.len() == 0,
    ensures
        with_answers(list, results.push(a)) == with_answers(list, results),
{
    assert(results.push(a).drop_last() =~= results);
    assert(texts(a.improvements@).len() == 0);
}

/// What has to be improved starts with what the rules found, and holds every piece of advice that
/// is not blank.
pub proof fn lemma_nothing_lost(
    spec: Spec,
    label: Seq<char>,
    doc: Seq<char>,
    brief: Option<Seq<char>>,
    panel: Panel,
    numbers: Numbers,
    i: int,
    k: int,
)
    ensures
        issues(spec, doc, brief).is_prefix_of(
            outcome(spec, label, doc, brief, panel, numbers).improvements,
        ),
        0 <= i < panel.answers().len() && 0 <= k < panel.answers()[i].improvements@.len() && trim(
            panel.answers()[i].improvements@[k]@,
        ).len() > 0 ==> outcome(spec, label, doc, brief, panel, numbers).improvements.contains(
            trim(panel.answers()[i].improvements@[k]@),
        ),
{
    let found = issues(spec, doc, brief);
    let results = panel.answers();
    let raw = by_id(spec.criteria@, raw_lists(spec.criteria@, results));
    let list = found + unscored_warning(unscored_ids(spec.criteria@, raw));
    lemma_improvements(list, results);
    assert(found.is_prefix_of(list));
    if 0 <= i < results.len() && 0 <= k < results[i].improvements@.len() && trim(
        results[i].improvements@[k]@,
    ).len() > 0 {
        lemma_advice_kept(list, results, i, k);
    }
}

/// A criterion that no answer has a score for is named in what has to be improved.
pub proof fn lemma_unscored_reported(
    spec: Spec,
    label: Seq<char>,
    doc: Seq<char>,
    brief: Option<Seq<char>>,
    panel: Panel,
    numbers: Numbers,
    i: int,
)
    requires
        criterion_ids(spec.criteria@).no_duplicates(),
        0 <= i < spec.criteria@.len(),
        raw_scores(panel.answers(), spec.criteria@[i].id@).len() == 0,
    ensures
        issues(spec, doc, brief).len() < outcome(
            spec,
            label,
            doc,
            brief,
            panel,
            numbers,
        ).improvements.len(),
        occurs(
            spec.criteria@[i].id@,
            outcome(spec, label, doc, brief, panel, numbers).improvements[issues(
                spec,
                doc,
                brief,
            ).len() as int],
        ),
{
    let found = issues(spec, doc, brief);
    let results = panel.answers();
    let raw = by_id(spec.criteria@, raw_lists(spec.criteria@, results));
    let ids = criterion_ids(spec.criteria@);
    let test = |id: Seq<char>| unscored(raw, id);
    let none = unscored_ids(spec.criteria@, raw);
    let list = found + unscored_warning(none);
    lemma_by_id(spec.criteria@, raw_lists(spec.criteria@, results), i);
    assert(ids[i] == spec.criteria@[i].id@);
    assert(test(ids[i]));
    ids.lemma_filter_contains(test, i);
    let k = none.index_of(ids[i]);
    lemma_improvements(list, results);
    lemma_part_joined(none, ", "@, k);
    let warning = unscored_warning(none)[0];
    let start =
        "[Scoring warning] Judges never returned a score for the following items, so they were scored as 0 (re-scoring recommended): "@;
    lemma_stands(start, join(none, ", "@), seq![]);
    assert(warning =~= start + join(none, ", "@) + seq![]);
    lemma_occurs_within(ids[i], join(none, ", "@), warning);
    assert(list[found.len() as int] == warning);
}

/// Where every criterion has a score, nothing is said of missing ones.
pub proof fn lemma_all_scored(
    spec: Spec,
    label: Seq<char>,
    doc: Seq<char>,
    brief: Option<Seq<char>>,
    panel: Panel,
    numbers: Numbers,
)
    requires
        criterion_ids(spec.criteria@).no_duplicates(),
        forall|i: int|
            0 <= i < spec.criteria@.len() ==> raw_scores(
                panel.answers(),
                (#[trigger] spec.criteria@[i]).id@,
            ).len() > 0,
    ensures
        outcome(spec, label, doc, brief, panel, numbers).improvements == with_answers(
            issues(spec, doc, brief),
            panel.answers(),
        ),
{
    let results = panel.answers();
    let raw = by_id(spec.criteria@, raw_lists(spec.criteria@, results));
    let ids = criterion_ids(spec.criteria@);
    let test = |id: Seq<char>| unscored(raw, id);
    let none = unscored_ids(spec.criteria@, raw);
    if none.len() > 0 {
        ids.lemma_filter_pred(test, 0);
        assert(none.contains(none[0]));
        ids.lemma_filter_contains_rev(test, none[0]);
        let i = ids.index_of(none[0]);
        assert(spec.criteria@[i].id@ == none[0]);
        lemma_by_id(spec.criteria@, raw_lists(spec.criteria@, results), i);
    }
    let found = issues(spec, doc, brief);
    assert(found + unscored_warning(none) =~= found);
}

/// Each text of a list stands on a line of its own behind a dash, in the order of the list.
pub proof fn lemma_bullets(s: Seq<Seq<char>>, x: Seq<char>)
    ensures
        bullets(seq![]) == Seq::<char>::empty(),
        bullets(s.push(x)) == bullets(s) + "- "@ + x + "\n"@,
{
    assert(s.push(x).drop_last() =~= s);
    assert(bullets(s) + ("- "@ + x + "\n"@) =~= bullets(s) + "- "@ + x + "\n"@);
}

proof fn lemma_bullet_stands(s: Seq<Seq<char>>, i: int)
    requires
        0 <= i < s.len(),
    ensures
        occurs("- "@ + s[i] + "\n"@, bullets(s)),
    decreases s.len(),
{
    let t = s.drop_last();
    if i < t.len() {
        lemma_bullet_stands(t, i);
        let more = "- "@ + s.last() + "\n"@;
        lemma_stands(seq![], bullets(t), more);
        assert(bullets(s) =~= seq![] + bullets(t) + more);
        lemma_occurs_within("- "@ + s[i] + "\n"@, bullets(t), bullets(s));
    } else {
        lemma_stands(bullets(t), "- "@ + s[i] + "\n"@, seq![]);
        assert(bullets(s) =~= bullets(t) + ("- "@ + s[i] + "\n"@) + seq![]);
    }
}

/// The writing model is told everything that has to be improved, and every comment.
pub proof fn lemma_feedback(s: ScoredView, i: int)
    ensures
        0 <= i < s.improvements.len() ==> occurs("- "@ + s.improvements[i] + "\n"@, feedback(s)),
        0 <= i < s.comments.len() ==> occurs("- "@ + s.comments[i] + "\n"@, feedback(s)),
{
    let a = "[Revisions that must be applied]\n"@;
    let b = bullets(s.improvements);
    let c = if s.comments.len() == 0 {
        Seq::<char>::empty()
    } else {
        "\n[Judges' overall comments]\n"@ + bullets(s.comments)
    };
    assert(feedback(s) =~= a + b + c);
    if 0 <= i < s.improvements.len() {
        lemma_bullet_stands(s.improvements, i);
        lemma_stands(a, b, c);
        lemma_occurs_within("- "@ + s.improvements[i] + "\n"@, b, feedback(s));
    }
    if 0 <= i < s.comments.len() {
        let d = bullets(s.comments);
        lemma_bullet_stands(s.comments, i);
        let front = a + b + "\n[Judges' overall comments]\n"@;
        lemma_stands(front, d, seq![]);
        assert(feedback(s) =~= front + d + seq![]);
        lemma_occurs_within("- "@ + s.comments[i] + "\n"@, d, feedback(s));
    }
}

/// Criterion `i` comes before criterion `j` among the weak ones: its score is lower, or the same
/// and it is given first.
pub open spec fn weaker(scores: Seq<Double>, i: int, j: int) -> bool {
    scores[i].place() < scores[j].place() || (scores[i].place() == scores[j].place() && i < j)
}

/// The weak points are shown by name and score: first the criterion that is weaker than all others,
/// then the one that is weaker than all but that.
pub proof fn lemma_weak_points(
    criteria: Seq<Criterion>,
    scores: Seq<Double>,
    shown: Seq<Seq<char>>,
    a: int,
    b: int,
)
    requires
        criteria.len() == scores.len(),
        shown.len() == scores.len(),
        0 <= a < scores.len(),
        0 <= b < scores.len(),
        a != b,
        forall|j: int| 0 <= j < scores.len() && j != a ==> weaker(scores, a, j),
        forall|j: int| 0 <= j < scores.len() && j != a && j != b ==> weaker(scores, b, j),
    ensures
        weakest(criteria, scores, shown) == seq![
            "- "@ + criteria[a].name@ + " : "@ + shown[a] + "/100"@,
            "- "@ + criteria[b].name@ + " : "@ + shown[b] + "/100"@,
        ],
{
    let n = scores.len();
    let r = ranking(scores, n);
    lemma_ranking(scores, n);
    let i = lemma_named(r, n as int, a);
    if i > 0 {
        lemma_ranked(scores, 0, i);
        assert(r[0] != r[i]);
        assert(weaker(scores, a, r[0]));
        assert(false);
    }
    let j = lemma_named(r, n as int, b);
    assert(j != 0);
    if j > 1 {
        lemma_ranked(scores, 1, j);
        assert(r[1] != r[j] && r[1] != r[0]);
        assert(weaker(scores, b, r[1]));
        assert(false);
    }
    assert(weakest(criteria, scores, shown) =~= seq![
        "- "@ + criteria[a].name@ + " : "@ + shown[a] + "/100"@,
        "- "@ + criteria[b].name@ + " : "@ + shown[b] + "/100"@,
    ]);
}

/// Of a single criterion the one is shown.
pub proof fn lemma_weak_point(criteria: Seq<Criterion>, scores: Seq<Double>, shown: Seq<Seq<char>>)
    requires
        criteria.len() == scores.len(),
        shown.len() == scores.len(),
    ensures
        scores.len() == 0 ==> weakest(criteria, scores, shown).len() == 0,
        scores.len() == 1 ==> weakest(criteria, scores, shown) == seq![
            "- "@ + criteria[0].name@ + " : "@ + shown[0] + "/100"@,
        ],
{
    lemma_ranking(scores, scores.len());
    if scores.len() == 1 {
        let r = ranking(scores, scores.len());
        assert(0 <= r[0] < 1);
        assert(weakest(criteria, scores, shown) =~= seq![
            "- "@ + criteria[0].name@ + " : "@ + shown[0] + "/100"@,
        ]);
    }
}

/// At least one round is held, and as many as are asked for.
pub proof fn lemma_rounds(n: nat)
    ensures
        rounds_held(n) >= 1,
        n >= 1 ==> rounds_held(n) == n,
{
}

/// A judge sees the whole document, the app, the keywords, the criteria, the bands and the lens.
pub proof fn lemma_judge_prompt(spec: Spec, doc: Seq<char>, lens: Seq<char>)
    ensures
        occurs(doc + "\n</document>\n"@, judge_prompt(spec, doc, lens)),
        occurs(lens, judge_prompt(spec, doc, lens)),
        occurs(spec.store.name(), judge_prompt(spec, doc, lens)),
        occurs(spec.name@, judge_prompt(spec, doc, lens)),
        occurs(spec.context@, judge_prompt(spec, doc, lens)),
        occurs(spec.keywords_text(), judge_prompt(spec, doc, lens)),
        occurs(spec.rubric_text(), judge_prompt(spec, doc, lens)),
        occurs(spec.bands_text(), judge_prompt(spec, doc, lens)),
{
    let p0 = Seq::<Seq<char>>::empty().push(
        "# Task\nScore the submitted app store listing copy against the judging criteria.\n\n## Target store: "@,
    );
    lemma_glued_push(Seq::<Seq<char>>::empty(), "# Task\nScore the submitted app store listing copy against the judging criteria.\n\n## Target store: "@);
    let p1 = p0.push(spec.store.name());
    lemma_glued_push(p0, spec.store.name());
    let p2 = p1.push("\n## App: "@);
    lemma_glued_push(p1, "\n## App: "@);
    let p3 = p2.push(spec.name@);
    lemma_glued_push(p2, spec.name@);
    let p4 = p3.push("\n"@);
    lemma_glued_push(p3, "\n"@);
    let p5 = p4.push(spec.context@);
    lemma_glued_push(p4, spec.context@);
    let p6 = p5.push("\n\n## This judge's lens\n"@);
    lemma_glued_push(p5, "\n\n## This judge's lens\n"@);
    let p7 = p6.push(lens);
    lemma_glued_push(p6, lens);
    let p8 = p7.push("\n\n## Target keywords\n"@);
    lemma_glued_push(p7, "\n\n## Target keywords\n"@);
    let p9 = p8.push(spec.keywords_text());
    lemma_glued_push(p8, spec.keywords_text());
    let p10 = p9.push("\n\n## Judging criteria (each item scored 0-100, integer)\n"@);
    lemma_glued_push(p9, "\n\n## Judging criteria (each item scored 0-100, integer)\n"@);
    let p11 = p10.push(spec.rubric_text());
    lemma_glued_push(p10, spec.rubric_text());
    let p12 = p11.push("\n\n## Score band criteria\n"@);
    lemma_glued_push(p11, "\n\n## Score band criteria\n"@);
    let p13 = p12.push(spec.bands_text());
    lemma_glued_push(p12, spec.bands_text());
    let p14 = p13.push(PROCEDURE@);
    lemma_glued_push(p13, PROCEDURE@);
    let p15 = p14.push(doc);
    lemma_glued_push(p14, doc);
    let p16 = p15.push("\n</document>\n"@);
    lemma_glued_push(p15, "\n</document>\n"@);
    assert(p16[1] == spec.store.name());
    lemma_glued(p16, 1);
    assert(p16[3] == spec.name@);
    lemma_glued(p16, 3);
    assert(p16[5] == spec.context@);
    lemma_glued(p16, 5);
    assert(p16[7] == lens);
    lemma_glued(p16, 7);
    assert(p16[9] == spec.keywords_text());
    lemma_glued(p16, 9);
    assert(p16[11] == spec.rubric_text());
    lemma_glued(p16, 11);
    assert(p16[13] == spec.bands_text());
    lemma_glued(p16, 13);
    lemma_glued_two(p14, doc, "\n</document>\n"@);
}


/// A round that failed is named with the document, and so is a document whose answer has another
/// form.
pub proof fn lemma_error_text(label: Seq<char>, n: usize)
    ensures
        occurs(label, ScoreError::RoundFailed(n).text(label)),
        occurs(decimal(n as nat), ScoreError::RoundFailed(n).text(label)),
        occurs(label, ScoreError::Mismatch.text(label)),
        ScoreError::NoJudges.text(label) == "No judge models available"@,
{
    let none = Seq::<Seq<char>>::empty();
    let p1 = none.push("Scoring failed ("@);
    lemma_glued_push(none, "Scoring failed ("@);
    let p2 = p1.push(label);
    lemma_glued_push(p1, label);
    let p3 = p2.push(", round "@);
    lemma_glued_push(p2, ", round "@);
    let p4 = p3.push(decimal(n as nat));
    lemma_glued_push(p3, decimal(n as nat));
    let p5 = p4.push(")"@);
    lemma_glued_push(p4, ")"@);
    assert(p5[1] == label);
    lemma_glued(p5, 1);
    assert(p5[3] == decimal(n as nat));
    lemma_glued(p5, 3);
    let q1 = none.push("Score result schema mismatch ("@);
    lemma_glued_push(none, "Score result schema mismatch ("@);
    let q2 = q1.push(label);
    lemma_glued_push(q1, label);
    let q3 = q2.push(")"@);
    lemma_glued_push(q2, ")"@);
    assert(q3[1] == label);
    lemma_glued(q3, 1);
}

/// What the writing model is told is the list of what has to be improved and, where there are any,
/// the list of comments behind it, and nothing else.
pub proof fn lemma_feedback_parts(s: ScoredView)
    ensures
        s.comments.len() == 0 ==> feedback(s) == "[Revisions that must be applied]\n"@ + bullets(
            s.improvements,
        ),
        s.comments.len() > 0 ==> feedback(s) == "[Revisions that must be applied]\n"@ + bullets(
            s.improvements,
        ) + ("\n[Judges' overall comments]\n"@ + bullets(s.comments)),
{
    let a = "[Revisions that must be applied]\n"@ + bullets(s.improvements);
    assert(a + Seq::<char>::empty() =~= a);
}

/// A scored document holds what its fields hold.
pub proof fn lemma_scored_view(s: Scored)
    ensures
        s@.label == s.label@,
        s@.total == s.total,
        s@.per_criterion == s.per_criterion@,
        s@.raw == s.raw@,
        s@.spread == s.spread@,
        s@.metrics == s.metrics@,
        s@.rounds == s.rounds,
        s@.missing_fields == Seq::new(s.missing_fields@.len(), |i: int| s.missing_fields@[i]@),
        s@.format_issues == Seq::new(s.format_issues@.len(), |i: int| s.format_issues@[i]@),
        s@.improvements == Seq::new(s.improvements@.len(), |i: int| s.improvements@[i]@),
        s@.comments == Seq::new(s.comments@.len(), |i: int| s.comments@[i]@),
        s@.models == Seq::new(s.models@.len(), |i: int| s.models@[i]@),
{
    assert(s@.missing_fields =~= Seq::new(
        s.missing_fields@.len(),
        |i: int| s.missing_fields@[i]@,
    ));
    assert(s@.format_issues =~= Seq::new(s.format_issues@.len(), |i: int| s.format_issues@[i]@));
    assert(s@.improvements =~= Seq::new(s.improvements@.len(), |i: int| s.improvements@[i]@));
    assert(s@.comments =~= Seq::new(s.comments@.len(), |i: int| s.comments@[i]@));
    assert(s@.models =~= Seq::new(s.models@.len(), |i: int| s.models@[i]@));
}

/// The first judge is asked first, after each judge comes the next one, and after the last the
/// first again. The lenses are used in the same way.
pub proof fn lemma_turns(round: nat, judges: nat)
    requires
        judges > 0,
    ensures
        judge_in(0, judges) == 0,
        judge_in(round, judges) < judges,
        judge_in(round + 1, judges) == if judge_in(round, judges) + 1 == judges {
            0nat
        } else {
            judge_in(round, judges) + 1
        },
        round < 6 ==> lens_in(round) == LENSES@[round as int]@,
        lens_in(round + 6) == lens_in(round),
{
    let q = round / judges;
    let r = round % judges;
    assert(round == q * judges + r && 0 <= r < judges) by (nonlinear_arith)
        requires
            judges > 0,
            q == round / judges,
            r == round % judges,
    ;
    if r + 1 == judges {
        assert((round + 1) % judges == 0) by (nonlinear_arith)
            requires
                judges > 0,
                round == q * judges + r,
                r + 1 == judges,
        ;
    } else {
        assert((round + 1) % judges == r + 1) by (nonlinear_arith)
            requires
                judges > 0,
                round == q * judges + r,
                r + 1 < judges,
        ;
    }
}

} // verus!
