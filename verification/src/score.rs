//! Scoring a document by a panel of judges: what the judges are asked, and what becomes of their
//! answers.
use crate::checks::{
    countable, doc_bodies, format_issues, is_countable, issues, measured, metrics, missing,
    missing_required, Metrics, MetricsView,
};
use crate::double::{
    lemma_clamped, lemma_named, lemma_ranking, positions, rank, ranking, Double, HUNDRED,
};
use crate::phrases::text_of;
use crate::sorted::{
    ascending, lemma_lookup_put, lemma_put_ascending, lookup, put, SortedMap,
};
use crate::store_spec::{criterion_ids, Criterion, Spec};
use crate::text::{
    chars_of, copied, decimal, holds, join, joined, push_decimal, same_text, string_of, texts,
    trim, trimmed,
};
use vstd::prelude::*;

verus! {

/// Who a judge is told to be.
pub const JUDGE_SYSTEM: &'static str = "You are a judge for ASO (App Store Optimization) listing copy. \
The author of the document is unknown; do not guess who wrote it. \
Listing keywords unnaturally, using unsubstantiated superlatives, or using flowery language \
unrelated to the app's actual features are grounds for deduction. Do not grade leniently, and \
back every score with a direct quote from the source document. \
Format, length, and banned words are handled by separate automated checks, so evaluate content quality only.";

/// What a judge pays attention to. The rounds take these in turn. (One model asked several times
/// errs in the same way each time, so lenses alone do not give independent samples; a panel of
/// different models does.)
pub const LENSES: [&'static str; 6] = [
    "Weigh overall polish and adherence to the judging criteria in a balanced way.",
    "Pay special attention to whether the target keywords are worked in naturally, and whether it reads like keyword stuffing.",
    "Pay special attention to hook strength and conversion phrasing that would actually get someone to tap in store search results.",
    "Pay special attention to translation-ese or awkward localization phrasing.",
    "Look at readability and information density (can it be grasped at a glance).",
    "Look at the risk of violating review policy (trademark, exaggerated claims, pricing language).",
];

/// What a judge is told to do.
pub const PROCEDURE: &'static str = "\n\n## Procedure\n\
1. Before scoring the document, first write 3-6 'conditions this listing must meet' in winning_conditions.\n\
2. Then score each criterion. For each item, directly quote the source document in evidence, and state in why_not_higher why a higher score was not given.\n\
3. If you cannot find evidence to quote, that item cannot exceed 60 points.\n\
4. Exceeding the character limit, missing required fields, and use of banned words are handled by separate automated checks, so do not factor them into scoring — evaluate copy quality only.\n\n\
## Document to score\n<document>\n";

/// What a judge is asked.
pub open spec fn judge_prompt(spec: Spec, doc: Seq<char>, lens: Seq<char>) -> Seq<char> {
    "# Task\nScore the submitted app store listing copy against the judging criteria.\n\n## Target store: "@
        + spec.store.name() + "\n## App: "@ + spec.name@ + "\n"@ + spec.context@
        + "\n\n## This judge's lens\n"@ + lens + "\n\n## Target keywords\n"@ + spec.keywords_text()
        + "\n\n## Judging criteria (each item scored 0-100, integer)\n"@ + spec.rubric_text()
        + "\n\n## Score band criteria\n"@ + spec.bands_text() + PROCEDURE@ + doc
        + "\n</document>\n"@
}

/// What a judge is asked.
pub fn build_judge_prompt(spec: &Spec, doc: &str, lens: &str) -> (r: String)
    ensures
        r@ == judge_prompt(*spec, doc@, lens@),
{
    let mut p =
        "# Task\nScore the submitted app store listing copy against the judging criteria.\n\n## Target store: ".to_string();
    p.append(spec.store.label());
    p.append("\n## App: ");
    p.append(spec.name.as_str());
    p.append("\n");
    p.append(spec.context.as_str());
    p.append("\n\n## This judge's lens\n");
    p.append(lens);
    p.append("\n\n## Target keywords\n");
    p.append(spec.keywords_prompt().as_str());
    p.append("\n\n## Judging criteria (each item scored 0-100, integer)\n");
    p.append(spec.rubric_prompt().as_str());
    p.append("\n\n## Score band criteria\n");
    p.append(spec.bands_prompt().as_str());
    p.append(PROCEDURE);
    p.append(doc);
    p.append("\n</document>\n");
    p
}

/// What a judge says of one criterion.
#[derive(Debug, Clone)]
pub struct CriterionScore {
    pub id: String,
    pub evidence: String,
    pub why_not_higher: String,
    /// From 0 to 100.
    pub score: Double,
}

/// What a judge answers.
#[derive(Debug, Clone)]
pub struct JudgeResult {
    pub winning_conditions: Vec<String>,
    pub criteria: Vec<CriterionScore>,
    pub improvements: Vec<String>,
    pub comment: String,
}

/// Why a document is not scored.
#[derive(Debug, Clone)]
pub enum ScoreError {
    NoJudges,
    /// The judge of this round, counted from 1, did not answer.
    RoundFailed(usize),
    /// A judge's answer does not have the form of an answer.
    Mismatch,
}

impl ScoreError {
    /// What is said of the error. `label` names the document.
    pub open spec fn text(self, label: Seq<char>) -> Seq<char> {
        match self {
            ScoreError::NoJudges => "No judge models available"@,
            ScoreError::RoundFailed(n) => "Scoring failed ("@ + label + ", round "@ + decimal(
                n as nat,
            ) + ")"@,
            ScoreError::Mismatch => "Score result schema mismatch ("@ + label + ")"@,
        }
    }

    /// What is said of the error. `label` names the document.
    pub fn message(&self, label: &str) -> (r: String)
        ensures
            r@ == self.text(label@),
    {
        match self {
            ScoreError::NoJudges => "No judge models available".to_string(),
            ScoreError::RoundFailed(n) => {
                let mut out = "Scoring failed (".to_string();
                out.append(label);
                out.append(", round ");
                push_decimal(&mut out, *n as u64);
                out.append(")");
                out
            },
            ScoreError::Mismatch => {
                let mut out = "Score result schema mismatch (".to_string();
                out.append(label);
                out.append(")");
                out
            },
        }
    }
}

/// How many rounds are held where `rounds` are asked for.
pub open spec fn rounds_held(rounds: nat) -> nat {
    if rounds == 0 {
        1
    } else {
        rounds
    }
}

/// Which of the judges is asked in a round, counted from 0.
pub open spec fn judge_in(round: nat, judges: nat) -> nat {
    round % judges
}

/// The lens that is used in a round, counted from 0.
pub open spec fn lens_in(round: nat) -> Seq<char> {
    LENSES@[(round % 6) as int]@
}

/// Whom to ask in a round, and what.
#[derive(Debug, Clone)]
pub struct Question {
    /// Which of the judges.
    pub judge: usize,
    pub prompt: String,
}

/// A panel of judges at work on one document.
#[derive(Debug)]
pub struct Panel {
    judges: usize,
    rounds: usize,
    results: Vec<JudgeResult>,
    models: Vec<String>,
}

impl Panel {
    /// How many judges there are.
    pub closed spec fn judge_count(self) -> nat {
        self.judges as nat
    }

    /// How many rounds are held.
    pub closed spec fn round_count(self) -> nat {
        self.rounds as nat
    }

    /// What was answered in the rounds so far.
    pub closed spec fn answers(self) -> Seq<JudgeResult> {
        self.results@
    }

    /// The model that answered in each of them.
    pub closed spec fn answered_by(self) -> Seq<Seq<char>> {
        texts(self.models@)
    }

    /// There are judges and rounds, and every answer belongs to a round.
    pub open spec fn wf(self) -> bool {
        &&& self.judge_count() > 0
        &&& 0 < self.round_count() <= usize::MAX
        &&& self.answers().len() <= self.round_count()
        &&& self.answered_by().len() == self.answers().len()
    }

    /// All rounds have been held.
    pub open spec fn complete(self) -> bool {
        self.wf() && self.answers().len() == self.round_count()
    }

    /// A panel that has not asked anything yet. It holds at least one round. Without a judge there
    /// is none.
    pub fn convene(judges: usize, rounds: usize) -> (r: Result<Panel, ScoreError>)
        ensures
            match r {
                Ok(p) => {
                    &&& p.wf()
                    &&& p.judge_count() == judges
                    &&& p.round_count() == rounds_held(rounds as nat)
                    &&& p.answers().len() == 0
                },
                Err(e) => judges == 0 && e == ScoreError::NoJudges,
            },
    {
        if judges == 0 {
            return Err(ScoreError::NoJudges);
        }
        let held: usize = if rounds == 0 {
            1
        } else {
            rounds
        };
        Ok(Panel { judges, rounds: held, results: Vec::new(), models: Vec::new() })
    }

    /// How many rounds are held.
    pub fn rounds(&self) -> (r: usize)
        ensures
            r == self.round_count(),
    {
        self.rounds
    }

    /// What was answered in the rounds so far.
    pub fn results(&self) -> (r: &Vec<JudgeResult>)
        ensures
            r@ == self.answers(),
    {
        &self.results
    }

    /// The question of the next round, where there is one more. Judges and lenses take turns.
    pub fn next(&self, spec: &Spec, doc: &str) -> (r: Option<Question>)
        requires
            self.wf(),
        ensures
            match r {
                Some(q) => {
                    let i = self.answers().len() as int;
                    &&& i < self.round_count()
                    &&& q.judge == i % self.judge_count() as int
                    &&& q.judge < self.judge_count()
                    &&& q.prompt@ == judge_prompt(*spec, doc@, LENSES@[i % 6]@)
                    &&& q.judge == judge_in(self.answers().len(), self.judge_count())
                    &&& q.prompt@ == judge_prompt(*spec, doc@, lens_in(self.answers().len()))
                },
                None => self.complete(),
            },
    {
        let i: usize = self.results.len();
        if i == self.rounds {
            return None;
        }
        let k: usize = i % 6;
        Some(Question { judge: i % self.judges, prompt: build_judge_prompt(spec, doc, LENSES[k]) })
    }

    /// Takes the answer of the round, and the name of the model that gave it.
    pub fn record(&mut self, result: JudgeResult, model: String)
        requires
            old(self).wf(),
            !old(self).complete(),
        ensures
            final(self).wf(),
            final(self).judge_count() == old(self).judge_count(),
            final(self).round_count() == old(self).round_count(),
            final(self).answers() == old(self).answers().push(result),
            final(self).answered_by() == old(self).answered_by().push(model@),
    {
        let ghost earlier = self.answered_by();
        self.results.push(result);
        self.models.push(model);
        assert(self.answered_by() =~= earlier.push(model@));
    }

    /// What is wrong where the judge of the round does not answer.
    pub fn failure(&self) -> (r: ScoreError)
        requires
            self.wf(),
            !self.complete(),
        ensures
            r == ScoreError::RoundFailed((self.answers().len() + 1) as usize),
    {
        ScoreError::RoundFailed(self.results.len() + 1)
    }
}

/// The score that an answer gives for a criterion: the first one under its id.
pub open spec fn score_for(criteria: Seq<CriterionScore>, id: Seq<char>) -> Option<Double>
    decreases criteria.len(),
{
    if criteria.len() == 0 {
        None
    } else if criteria[0].id@ == id {
        Some(criteria[0].score)
    } else {
        score_for(criteria.drop_first(), id)
    }
}

/// The scores that the answers give for a criterion, each moved into the range of scores.
pub open spec fn raw_scores(results: Seq<JudgeResult>, id: Seq<char>) -> Seq<Double>
    decreases results.len(),
{
    if results.len() == 0 {
        seq![]
    } else {
        let earlier = raw_scores(results.drop_last(), id);
        match score_for(results.last().criteria@, id) {
            Some(x) => earlier.push(x.clamped()),
            None => earlier,
        }
    }
}

/// The score that an answer gives for a criterion.
fn find_score(criteria: &Vec<CriterionScore>, id: &str) -> (r: Option<Double>)
    ensures
        r == score_for(criteria@, id@),
{
    assert(criteria@.skip(0) =~= criteria@);
    for i in 0..criteria.len()
        invariant
            score_for(criteria@, id@) == score_for(criteria@.skip(i as int), id@),
    {
        let ghost rest = criteria@.skip(i as int);
        assert(rest[0] == criteria@[i as int]);
        assert(rest.drop_first() =~= criteria@.skip(i + 1));
        if same_text(criteria[i].id.as_str(), id) {
            return Some(criteria[i].score);
        }
    }
    None
}

/// The scores that the answers give for a criterion, each moved into the range of scores. An
/// answer without a score for it is passed over.
pub fn collect_scores(results: &Vec<JudgeResult>, id: &str) -> (r: Vec<Double>)
    ensures
        r@ == raw_scores(results@, id@),
        r@.len() <= results@.len(),
{
    let mut out: Vec<Double> = Vec::new();
    for i in 0..results.len()
        invariant
            out@ == raw_scores(results@.take(i as int), id@),
            out@.len() <= i,
    {
        assert(results@.take(i + 1).drop_last() =~= results@.take(i as int));
        assert(results@.take(i + 1).last() == results@[i as int]);
        if let Some(x) = find_score(&results[i].criteria, id) {
            out.push(x.clamp_score());
        }
    }
    assert(results@.take(results@.len() as int) =~= results@);
    out
}

/// The scores that the answers give for each of the criteria.
pub fn collect_all(spec: &Spec, results: &Vec<JudgeResult>) -> (r: Vec<Vec<Double>>)
    ensures
        r@.len() == spec.criteria@.len(),
        forall|i: int|
            0 <= i < r@.len() ==> (#[trigger] r@[i])@ == raw_scores(
                results@,
                spec.criteria@[i].id@,
            ),
{
    let mut out: Vec<Vec<Double>> = Vec::new();
    for i in 0..spec.criteria.len()
        invariant
            out@.len() == i,
            forall|j: int|
                0 <= j < i ==> (#[trigger] out@[j])@ == raw_scores(
                    results@,
                    spec.criteria@[j].id@,
                ),
    {
        out.push(collect_scores(results, spec.criteria[i].id.as_str()));
    }
    out
}

/// Values bound to the ids of the criteria, in the order of the ids.
pub open spec fn by_id<T>(criteria: Seq<Criterion>, vals: Seq<T>) -> Seq<(Seq<char>, T)>
    decreases criteria.len(),
{
    if criteria.len() == 0 {
        seq![]
    } else {
        put(by_id(criteria.drop_last(), vals), criteria.last().id@, vals[criteria.len() - 1])
    }
}

/// Numbers bound to the ids of the criteria.
pub fn by_criterion(spec: &Spec, vals: &Vec<Double>) -> (r: SortedMap<Double>)
    requires
        vals@.len() == spec.criteria@.len(),
    ensures
        r@ == by_id(spec.criteria@, vals@),
{
    let mut out: SortedMap<Double> = SortedMap::new();
    for i in 0..spec.criteria.len()
        invariant
            vals@.len() == spec.criteria@.len(),
            out@ == by_id(spec.criteria@.take(i as int), vals@),
    {
        let ghost upto = spec.criteria@.take(i + 1);
        assert(upto.drop_last() =~= spec.criteria@.take(i as int));
        out.insert(spec.criteria[i].id.clone(), vals[i]);
    }
    assert(spec.criteria@.take(spec.criteria@.len() as int) =~= spec.criteria@);
    out
}

/// The scores that each criterion was given.
pub open spec fn raw_lists(criteria: Seq<Criterion>, results: Seq<JudgeResult>) -> Seq<Seq<Double>> {
    criteria.map_values(|c: Criterion| raw_scores(results, c.id@))
}

/// The scores that the answers give, bound to the ids of the criteria.
fn raw_by_criterion(spec: &Spec, results: &Vec<JudgeResult>) -> (r: SortedMap<Vec<Double>>)
    ensures
        r@ == by_id(spec.criteria@, raw_lists(spec.criteria@, results@)),
{
    let ghost lists = raw_lists(spec.criteria@, results@);
    let mut out: SortedMap<Vec<Double>> = SortedMap::new();
    for i in 0..spec.criteria.len()
        invariant
            lists == raw_lists(spec.criteria@, results@),
            out@ == by_id(spec.criteria@.take(i as int), lists),
    {
        let ghost upto = spec.criteria@.take(i + 1);
        assert(upto.drop_last() =~= spec.criteria@.take(i as int));
        out.insert(
            spec.criteria[i].id.clone(),
            collect_scores(results, spec.criteria[i].id.as_str()),
        );
    }
    assert(spec.criteria@.take(spec.criteria@.len() as int) =~= spec.criteria@);
    out
}

/// The number that is bound to an id, zero where none is.
pub open spec fn number_of(e: Seq<(Seq<char>, Double)>, id: Seq<char>) -> Double {
    match lookup(e, id) {
        Some(x) => x,
        None => Double { bits: 0 },
    }
}

/// The number that is bound to each criterion's id.
pub open spec fn line_up(criteria: Seq<Criterion>, e: Seq<(Seq<char>, Double)>) -> Seq<Double> {
    criteria.map_values(|c: Criterion| number_of(e, c.id@))
}

/// The number that is bound to each criterion's id, zero where none is.
pub fn lined_up(spec: &Spec, map: &SortedMap<Double>) -> (r: Vec<Double>)
    ensures
        r@ == line_up(spec.criteria@, map@),
{
    let mut out: Vec<Double> = Vec::new();
    for i in 0..spec.criteria.len()
        invariant
            out@ == line_up(spec.criteria@, map@).take(i as int),
    {
        let x = match map.get(spec.criteria[i].id.as_str()) {
            Some(v) => *v,
            None => Double { bits: 0 },
        };
        out.push(x);
        assert(out@ =~= line_up(spec.criteria@, map@).take(i + 1));
    }
    assert(line_up(spec.criteria@, map@).take(spec.criteria@.len() as int) =~= line_up(
        spec.criteria@,
        map@,
    ));
    out
}

/// The criterion was given no score.
pub open spec fn unscored(raw: Seq<(Seq<char>, Seq<Double>)>, id: Seq<char>) -> bool {
    match lookup(raw, id) {
        Some(v) => v.len() == 0,
        None => true,
    }
}

/// The ids of the criteria that were given no score.
pub open spec fn unscored_ids(
    criteria: Seq<Criterion>,
    raw: Seq<(Seq<char>, Seq<Double>)>,
) -> Seq<Seq<char>> {
    criterion_ids(criteria).filter(|id: Seq<char>| unscored(raw, id))
}

/// The ids of the criteria that were given no score.
fn find_unscored(spec: &Spec, raw: &SortedMap<Vec<Double>>) -> (r: Vec<String>)
    ensures
        texts(r@) == unscored_ids(spec.criteria@, raw@),
{
    let ghost ids = criterion_ids(spec.criteria@);
    let ghost test = |id: Seq<char>| unscored(raw@, id);
    let mut out: Vec<String> = Vec::new();
    assert(texts(out@) =~= ids.take(0).filter(test)) by {
        reveal(Seq::filter);
    }
    for i in 0..spec.criteria.len()
        invariant
            ids == criterion_ids(spec.criteria@),
            test == (|id: Seq<char>| unscored(raw@, id)),
            texts(out@) == ids.take(i as int).filter(test),
    {
        assert(ids.take(i + 1) =~= ids.take(i as int).push(ids[i as int]));
        proof {
            ids.take(i as int).lemma_filter_push(ids[i as int], test);
        }
        let none = match raw.get(spec.criteria[i].id.as_str()) {
            Some(v) => v.len() == 0,
            None => true,
        };
        if none {
            let ghost prev = texts(out@);
            out.push(spec.criteria[i].id.clone());
            assert(texts(out@) =~= prev.push(ids[i as int]));
        }
    }
    assert(ids.take(spec.criteria@.len() as int) =~= ids);
    out
}

/// What is said of criteria that were given no score.
pub open spec fn unscored_warning(ids: Seq<Seq<char>>) -> Seq<Seq<char>> {
    if ids.len() == 0 {
        seq![]
    } else {
        seq![
            "[Scoring warning] Judges never returned a score for the following items, so they were scored as 0 (re-scoring recommended): "@
                + join(ids, ", "@),
        ]
    }
}

/// `list` with the trimmed text behind it, unless that is empty or stands there already.
pub open spec fn with_advice(list: Seq<Seq<char>>, advice: Seq<char>) -> Seq<Seq<char>> {
    if trim(advice).len() == 0 || list.contains(trim(advice)) {
        list
    } else {
        list.push(trim(advice))
    }
}

/// `list` with the texts of one answer behind it.
pub open spec fn with_advices(list: Seq<Seq<char>>, advices: Seq<Seq<char>>) -> Seq<Seq<char>>
    decreases advices.len(),
{
    if advices.len() == 0 {
        list
    } else {
        with_advice(with_advices(list, advices.drop_last()), advices.last())
    }
}

/// `list` with the improvements of all answers behind it.
pub open spec fn with_answers(list: Seq<Seq<char>>, results: Seq<JudgeResult>) -> Seq<Seq<char>>
    decreases results.len(),
{
    if results.len() == 0 {
        list
    } else {
        with_advices(with_answers(list, results.drop_last()), texts(results.last().improvements@))
    }
}

/// What has to be improved: what the rules found, a warning where a criterion was given no score,
/// and what the judges advise, each piece of advice once.
pub open spec fn all_improvements(
    found: Seq<Seq<char>>,
    ids: Seq<Seq<char>>,
    results: Seq<JudgeResult>,
) -> Seq<Seq<char>> {
    with_answers(found + unscored_warning(ids), results)
}

/// Adds the improvements of one answer.
fn push_advices(out: &mut Vec<String>, advices: &Vec<String>)
    ensures
        texts(final(out)@) == with_advices(texts(old(out)@), texts(advices@)),
{
    let ghost start = texts(out@);
    for i in 0..advices.len()
        invariant
            texts(out@) == with_advices(start, texts(advices@).take(i as int)),
    {
        let ghost upto = texts(advices@).take(i + 1);
        assert(upto.drop_last() =~= texts(advices@).take(i as int));
        assert(upto.last() == advices@[i as int]@);
        let t = trimmed(&chars_of(advices[i].as_str()));
        let text = string_of(&t);
        if t.len() > 0 && !holds(out, text.as_str()) {
            let ghost prev = texts(out@);
            out.push(text);
            assert(texts(out@) =~= prev.push(t@));
        }
    }
    assert(texts(advices@).take(advices@.len() as int) =~= texts(advices@));
}

/// What has to be improved.
fn list_improvements(found: &Vec<String>, ids: &Vec<String>, results: &Vec<JudgeResult>) -> (r: Vec<
    String,
>)
    ensures
        texts(r@) == all_improvements(texts(found@), texts(ids@), results@),
{
    let mut out = copied(found);
    assert(texts(ids@).len() == ids@.len());
    if ids.len() > 0 {
        let mut t =
            "[Scoring warning] Judges never returned a score for the following items, so they were scored as 0 (re-scoring recommended): ".to_string();
        t.append(joined(ids, ", ").as_str());
        out.push(t);
    }
    let ghost start = texts(found@) + unscored_warning(texts(ids@));
    assert(texts(out@) =~= start);
    for i in 0..results.len()
        invariant
            texts(out@) == with_answers(start, results@.take(i as int)),
    {
        let ghost upto = results@.take(i + 1);
        assert(upto.drop_last() =~= results@.take(i as int));
        assert(upto.last() == results@[i as int]);
        push_advices(&mut out, &results[i].improvements);
    }
    assert(results@.take(results@.len() as int) =~= results@);
    out
}

/// A scored document.
#[derive(Debug, Clone)]
pub struct Scored {
    pub label: String,
    /// The weighted mean of the criteria, from 0 to 100.
    pub total: Double,
    /// The trimmed mean of each criterion's scores.
    pub per_criterion: SortedMap<Double>,
    /// All scores of each criterion, one for each judge that gave one.
    pub raw: SortedMap<Vec<Double>>,
    /// How far the scores of each criterion lie apart.
    pub spread: SortedMap<Double>,
    pub missing_fields: Vec<String>,
    /// What the rules found.
    pub format_issues: Vec<String>,
    pub metrics: Metrics,
    pub improvements: Vec<String>,
    pub comments: Vec<String>,
    pub rounds: usize,
    pub models: Vec<String>,
}

/// What a scored document holds.
#[verifier::ext_equal]
pub struct ScoredView {
    pub label: Seq<char>,
    pub total: Double,
    pub per_criterion: Seq<(Seq<char>, Double)>,
    pub raw: Seq<(Seq<char>, Seq<Double>)>,
    pub spread: Seq<(Seq<char>, Double)>,
    pub missing_fields: Seq<Seq<char>>,
    pub format_issues: Seq<Seq<char>>,
    pub metrics: MetricsView,
    pub improvements: Seq<Seq<char>>,
    pub comments: Seq<Seq<char>>,
    pub rounds: nat,
    pub models: Seq<Seq<char>>,
}

impl View for Scored {
    type V = ScoredView;

    open spec fn view(&self) -> ScoredView {
        ScoredView {
            label: self.label@,
            total: self.total,
            per_criterion: self.per_criterion@,
            raw: self.raw@,
            spread: self.spread@,
            missing_fields: texts(self.missing_fields@),
            format_issues: texts(self.format_issues@),
            metrics: self.metrics@,
            improvements: texts(self.improvements@),
            comments: texts(self.comments@),
            rounds: self.rounds as nat,
            models: texts(self.models@),
        }
    }
}

impl Scored {
    /// The same scored document again.
    pub fn again(&self) -> (r: Scored)
        ensures
            r@ == self@,
    {
        Scored {
            label: self.label.clone(),
            total: self.total,
            per_criterion: self.per_criterion.again(),
            raw: self.raw.again(),
            spread: self.spread.again(),
            missing_fields: copied(&self.missing_fields),
            format_issues: copied(&self.format_issues),
            metrics: self.metrics.again(),
            improvements: copied(&self.improvements),
            comments: copied(&self.comments),
            rounds: self.rounds,
            models: copied(&self.models),
        }
    }
}

/// The numbers that are computed from the scores.
#[derive(Debug, Clone)]
pub struct Numbers {
    /// The trimmed mean of each criterion.
    pub means: Vec<Double>,
    /// The spread of each criterion.
    pub spreads: Vec<Double>,
    /// The weighted mean of the criteria.
    pub total: Double,
}

/// The comments of the answers.
pub open spec fn comments_of(results: Seq<JudgeResult>) -> Seq<Seq<char>> {
    results.map_values(|r: JudgeResult| r.comment@)
}

/// What the rules say of a document.
#[derive(Debug)]
pub struct Findings {
    pub missing_fields: Vec<String>,
    pub format_issues: Vec<String>,
    pub metrics: Metrics,
}

/// What a document comes to of which the rules say this and that was judged so.
pub open spec fn outcome_with(
    spec: Spec,
    label: Seq<char>,
    missing_fields: Seq<Seq<char>>,
    found: Seq<Seq<char>>,
    metrics: MetricsView,
    panel: Panel,
    numbers: Numbers,
) -> ScoredView {
    let results = panel.answers();
    let raw = by_id(spec.criteria@, raw_lists(spec.criteria@, results));
    ScoredView {
        label,
        total: numbers.total,
        per_criterion: by_id(spec.criteria@, numbers.means@),
        raw,
        spread: by_id(spec.criteria@, numbers.spreads@),
        missing_fields,
        format_issues: found,
        metrics,
        improvements: all_improvements(found, unscored_ids(spec.criteria@, raw), results),
        comments: comments_of(results),
        rounds: panel.round_count(),
        models: panel.answered_by(),
    }
}

/// What a document comes to that was judged so.
pub open spec fn outcome(
    spec: Spec,
    label: Seq<char>,
    doc: Seq<char>,
    brief: Option<Seq<char>>,
    panel: Panel,
    numbers: Numbers,
) -> ScoredView {
    outcome_with(
        spec,
        label,
        missing(spec.sections@, doc_bodies(spec, doc)),
        issues(spec, doc, brief),
        measured(spec, doc),
        panel,
        numbers,
    )
}

/// Puts together what a document comes to: what the rules say, what the judges answered, and the
/// numbers that were computed from their scores.
pub fn assemble_with(
    spec: &Spec,
    label: &str,
    findings: Findings,
    panel: &Panel,
    numbers: &Numbers,
) -> (r: Scored)
    requires
        panel.complete(),
        numbers.means@.len() == spec.criteria@.len(),
        numbers.spreads@.len() == spec.criteria@.len(),
    ensures
        r@ == outcome_with(
            *spec,
            label@,
            texts(findings.missing_fields@),
            texts(findings.format_issues@),
            findings.metrics@,
            *panel,
            *numbers,
        ),
        r@.models.len() == r@.rounds,
        r@.comments.len() == r@.rounds,
{
    let results = &panel.results;
    let raw = raw_by_criterion(spec, results);
    let unscored_names = find_unscored(spec, &raw);
    let improvements = list_improvements(&findings.format_issues, &unscored_names, results);
    let mut comments: Vec<String> = Vec::new();
    for i in 0..results.len()
        invariant
            texts(comments@) == comments_of(results@).take(i as int),
    {
        let ghost prev = texts(comments@);
        comments.push(results[i].comment.clone());
        assert(texts(comments@) =~= prev.push(comments_of(results@)[i as int]));
    }
    assert(comments_of(results@).take(results@.len() as int) =~= comments_of(results@));
    Scored {
        label: label.to_string(),
        total: numbers.total,
        per_criterion: by_criterion(spec, &numbers.means),
        raw,
        spread: by_criterion(spec, &numbers.spreads),
        missing_fields: findings.missing_fields,
        format_issues: findings.format_issues,
        metrics: findings.metrics,
        improvements,
        comments,
        rounds: panel.rounds,
        models: copied(&panel.models),
    }
}

/// Puts together what a document comes to: applies the rules to it, and adds what the judges
/// answered and the numbers that were computed from their scores.
pub fn assemble(
    spec: &Spec,
    label: &str,
    doc: &str,
    brief: Option<&str>,
    panel: &Panel,
    numbers: &Numbers,
) -> (r: Scored)
    requires
        countable(*spec, doc@),
        panel.complete(),
        numbers.means@.len() == spec.criteria@.len(),
        numbers.spreads@.len() == spec.criteria@.len(),
    ensures
        r@ == outcome(*spec, label@, doc@, text_of(brief), *panel, *numbers),
        r@.models.len() == r@.rounds,
        r@.comments.len() == r@.rounds,
{
    let findings = Findings {
        missing_fields: missing_required(spec, doc),
        format_issues: format_issues(spec, doc, brief),
        metrics: metrics(spec, doc),
    };
    assemble_with(spec, label, findings, panel, numbers)
}

/// Puts together what a document comes to, where all rounds have been held, there are numbers for
/// each criterion, and the lengths of the fields can be added up.
pub fn try_assemble(
    spec: &Spec,
    label: &str,
    doc: &str,
    brief: Option<&str>,
    panel: &Panel,
    numbers: &Numbers,
) -> (r: Option<Scored>)
    requires
        panel.wf(),
    ensures
        match r {
            Some(s) => s@ == outcome(*spec, label@, doc@, text_of(brief), *panel, *numbers),
            None => {
                ||| !panel.complete()
                ||| numbers.means@.len() != spec.criteria@.len()
                ||| numbers.spreads@.len() != spec.criteria@.len()
                ||| !countable(*spec, doc@)
            },
        },
        r is Some ==> {
            &&& panel.complete()
            &&& numbers.means@.len() == spec.criteria@.len()
            &&& numbers.spreads@.len() == spec.criteria@.len()
            &&& countable(*spec, doc@)
        },
{
    if panel.results.len() == panel.rounds && numbers.means.len() == spec.criteria.len()
        && numbers.spreads.len() == spec.criteria.len() && is_countable(spec, doc) {
        Some(assemble(spec, label, doc, brief, panel, numbers))
    } else {
        None
    }
}

/// Texts as a list, one to a line.
pub open spec fn bullets(s: Seq<Seq<char>>) -> Seq<char>
    decreases s.len(),
{
    if s.len() == 0 {
        seq![]
    } else {
        bullets(s.drop_last()) + ("- "@ + s.last() + "\n"@)
    }
}

/// What the writing model is told about a scored document. The score is not part of it, so that
/// the score is not what it writes for.
pub open spec fn feedback(s: ScoredView) -> Seq<char> {
    "[Revisions that must be applied]\n"@ + bullets(s.improvements) + (if s.comments.len() == 0 {
        seq![]
    } else {
        "\n[Judges' overall comments]\n"@ + bullets(s.comments)
    })
}

/// Appends texts as a list, one to a line.
fn append_bullets(out: &mut String, v: &Vec<String>)
    ensures
        final(out)@ == old(out)@ + bullets(texts(v@)),
{
    let ghost start = out@;
    assert(start + bullets(texts(v@).take(0)) =~= start);
    for i in 0..v.len()
        invariant
            out@ == start + bullets(texts(v@).take(i as int)),
    {
        let ghost upto = texts(v@).take(i + 1);
        assert(upto.drop_last() =~= texts(v@).take(i as int));
        assert(upto.last() == v@[i as int]@);
        let mut line = "- ".to_string();
        line.append(v[i].as_str());
        line.append("\n");
        let ghost prev = out@;
        out.append(line.as_str());
        assert(out@ =~= start + bullets(upto));
    }
    assert(texts(v@).take(v@.len() as int) =~= texts(v@));
}

/// What the writing model is told about a scored document.
pub fn feedback_text(s: &Scored) -> (r: String)
    ensures
        r@ == feedback(s@),
{
    let mut out = "[Revisions that must be applied]\n".to_string();
    append_bullets(&mut out, &s.improvements);
    assert(texts(s.comments@).len() == s.comments@.len());
    if s.comments.len() > 0 {
        let mut more = "\n[Judges' overall comments]\n".to_string();
        append_bullets(&mut more, &s.comments);
        out.append(more.as_str());
    } else {
        assert(out@ + Seq::<char>::empty() =~= out@);
    }
    out
}

/// How a criterion and its score are shown.
pub open spec fn weak_point(name: Seq<char>, shown: Seq<char>) -> Seq<char> {
    "- "@ + name + " : "@ + shown + "/100"@
}

/// The two criteria with the lowest scores, the lowest first, the earlier one first where two are
/// equal.
pub open spec fn weakest(
    criteria: Seq<Criterion>,
    scores: Seq<Double>,
    shown: Seq<Seq<char>>,
) -> Seq<Seq<char>> {
    let order = ranking(scores, scores.len());
    Seq::new(
        if order.len() < 2 { order.len() } else { 2 },
        |i: int| weak_point(criteria[order[i]].name@, shown[order[i]]),
    )
}

/// The two criteria with the lowest scores, one to a line. `shown` gives the score of each
/// criterion as a text, without decimals.
pub fn weak_points(spec: &Spec, s: &Scored, shown: &Vec<String>) -> (r: String)
    requires
        shown@.len() == spec.criteria@.len(),
        spec.criteria@.len() >= 2 ==> forall|i: int|
            0 <= i < spec.criteria@.len() ==> !(#[trigger] line_up(
                spec.criteria@,
                s@.per_criterion,
            )[i]).nan(),
    ensures
        r@ == join(
            weakest(
                spec.criteria@,
                line_up(spec.criteria@, s@.per_criterion),
                texts(shown@),
            ),
            "\n"@,
        ),
{
    let scores = lined_up(spec, &s.per_criterion);
    let order = rank(&scores);
    let ghost wanted = weakest(spec.criteria@, scores@, texts(shown@));
    let count: usize = if order.len() < 2 {
        order.len()
    } else {
        2
    };
    assert(positions(order@).len() == order@.len());
    assert(wanted.len() == count);
    let mut parts: Vec<String> = Vec::new();
    for i in 0..count
        invariant
            wanted == weakest(spec.criteria@, scores@, texts(shown@)),
            scores@.len() == spec.criteria@.len(),
            shown@.len() == spec.criteria@.len(),
            positions(order@) == ranking(scores@, scores@.len()),
            forall|j: int| 0 <= j < order@.len() ==> #[trigger] order@[j] < scores@.len(),
            count <= order@.len(),
            count <= wanted.len(),
            texts(parts@) == wanted.take(i as int),
    {
        let ghost prev = texts(parts@);
        let k: usize = order[i];
        assert(positions(order@)[i as int] == k);
        let mut t = "- ".to_string();
        t.append(spec.criteria[k].name.as_str());
        t.append(" : ");
        t.append(shown[k].as_str());
        t.append("/100");
        parts.push(t);
        assert(texts(parts@) =~= prev.push(wanted[i as int]));
    }
    assert(wanted.take(count as int) =~= wanted);
    joined(&parts, "\n")
}

/// A criterion has at most one score for each answer, and each of them lies between 0 and 100.
pub proof fn lemma_raw_scores(results: Seq<JudgeResult>, id: Seq<char>)
    ensures
        raw_scores(results, id).len() <= results.len(),
        forall|i: int|
            0 <= i < raw_scores(results, id).len() ==> (#[trigger] raw_scores(results, id)[i]).nan()
                || 0 <= raw_scores(results, id)[i].place() <= HUNDRED,
    decreases results.len(),
{
    if results.len() > 0 {
        lemma_raw_scores(results.drop_last(), id);
        if let Some(x) = score_for(results.last().criteria@, id) {
            if !x.nan() {
                lemma_clamped(x);
            }
        }
    }
}

proof fn lemma_by_id_absent<T>(criteria: Seq<Criterion>, vals: Seq<T>, id: Seq<char>)
    requires
        forall|i: int| 0 <= i < criteria.len() ==> (#[trigger] criteria[i]).id@ != id,
    ensures
        ascending(by_id(criteria, vals)),
        lookup(by_id(criteria, vals), id) is None,
    decreases criteria.len(),
{
    if criteria.len() > 0 {
        let t = criteria.drop_last();
        assert forall|i: int| 0 <= i < t.len() implies (#[trigger] t[i]).id@ != id by {
            assert(t[i] == criteria[i]);
        }
        assert(criteria[criteria.len() - 1] == criteria.last());
        lemma_by_id_absent(t, vals, id);
        lemma_put_ascending(by_id(t, vals), criteria.last().id@, vals[criteria.len() - 1]);
        lemma_lookup_put(by_id(t, vals), criteria.last().id@, vals[criteria.len() - 1], id);
    }
}

/// Where no two criteria share an id, each is bound to its own value.
pub proof fn lemma_by_id<T>(criteria: Seq<Criterion>, vals: Seq<T>, i: int)
    requires
        criterion_ids(criteria).no_duplicates(),
        0 <= i < criteria.len(),
    ensures
        ascending(by_id(criteria, vals)),
        lookup(by_id(criteria, vals), criteria[i].id@) == Some(vals[i]),
    decreases criteria.len(),
{
    let t = criteria.drop_last();
    let last = criteria.last();
    let ids = criterion_ids(criteria);
    assert forall|k: int| 0 <= k < t.len() implies (#[trigger] t[k]).id@ != last.id@ by {
        assert(t[k] == criteria[k]);
        assert(ids[k] != ids[criteria.len() - 1]);
    }
    lemma_by_id_absent(t, vals, last.id@);
    lemma_put_ascending(by_id(t, vals), last.id@, vals[criteria.len() - 1]);
    lemma_lookup_put(by_id(t, vals), last.id@, vals[criteria.len() - 1], criteria[i].id@);
    if i < t.len() {
        assert(criterion_ids(t).no_duplicates()) by {
            assert forall|a: int, b: int|
                0 <= a < t.len() && 0 <= b < t.len() && a != b implies criterion_ids(t)[a]
                != criterion_ids(t)[b] by {
                assert(ids[a] != ids[b]);
            }
        }
        lemma_by_id(t, vals, i);
        assert(t[i].id@ != last.id@);
    }
}

/// The scores that are read back for the criteria of a usable description are those that were
/// given, and a criterion counts as unscored exactly where no answer has a score for it.
pub proof fn lemma_scores_kept(
    spec: Spec,
    label: Seq<char>,
    doc: Seq<char>,
    brief: Option<Seq<char>>,
    panel: Panel,
    numbers: Numbers,
    i: int,
)
    requires
        criterion_ids(spec.criteria@).no_duplicates(),
        numbers.means@.len() == spec.criteria@.len(),
        0 <= i < spec.criteria@.len(),
    ensures
        line_up(
            spec.criteria@,
            outcome(spec, label, doc, brief, panel, numbers).per_criterion,
        ) == numbers.means@,
        unscored(outcome(spec, label, doc, brief, panel, numbers).raw, spec.criteria@[i].id@)
            <==> raw_scores(panel.answers(), spec.criteria@[i].id@).len() == 0,
{
    let e = by_id(spec.criteria@, numbers.means@);
    assert forall|k: int| 0 <= k < spec.criteria@.len() implies line_up(spec.criteria@, e)[k]
        == numbers.means@[k] by {
        lemma_by_id(spec.criteria@, numbers.means@, k);
    }
    assert(line_up(spec.criteria@, e) =~= numbers.means@);
    lemma_by_id(spec.criteria@, raw_lists(spec.criteria@, panel.answers()), i);
}

proof fn lemma_advices(list: Seq<Seq<char>>, advices: Seq<Seq<char>>)
    ensures
        list.is_prefix_of(with_advices(list, advices)),
        forall|t: Seq<char>|
            #[trigger] with_advices(list, advices).contains(t) <==> list.contains(t) || (t.len() > 0
                && advices.map_values(|a: Seq<char>| trim(a)).contains(t)),
        list.no_duplicates() ==> with_advices(list, advices).no_duplicates(),
    decreases advices.len(),
{
    let cut = advices.map_values(|a: Seq<char>| trim(a));
    if advices.len() > 0 {
        let t = advices.drop_last();
        let earlier = with_advices(list, t);
        let now = with_advices(list, advices);
        let cut_t = t.map_values(|a: Seq<char>| trim(a));
        let x = trim(advices.last());
        lemma_advices(list, t);
        assert(cut =~= cut_t.push(x));
        assert forall|q: Seq<char>| #[trigger] now.contains(q) <==> list.contains(q) || (q.len() > 0
            && cut.contains(q)) by {
            assert(earlier.contains(q) <==> list.contains(q) || (q.len() > 0 && cut_t.contains(q)));
            assert(cut.contains(q) <==> cut_t.contains(q) || q == x) by {
                if cut_t.contains(q) {
                    assert(cut[cut_t.index_of(q)] == q);
                }
                assert(cut[cut.len() - 1] == x);
                if cut.contains(q) && q != x {
                    assert(cut_t[cut.index_of(q)] == q);
                }
            }
            if now != earlier {
                assert(now == earlier.push(x));
                assert(now.contains(q) <==> earlier.contains(q) || q == x) by {
                    if earlier.contains(q) {
                        assert(now[earlier.index_of(q)] == q);
                    }
                    assert(now[now.len() - 1] == x);
                    if now.contains(q) && q != x {
                        assert(earlier[now.index_of(q)] == q);
                    }
                }
            }
        }
    } else {
        assert(cut.len() == 0);
    }
}

/// What the rules found comes first in what has to be improved, and nothing is lost of it. What
/// the judges advise comes after it, and is not repeated where the rules repeat nothing.
pub proof fn lemma_improvements(list: Seq<Seq<char>>, results: Seq<JudgeResult>)
    ensures
        list.is_prefix_of(with_answers(list, results)),
        list.no_duplicates() ==> with_answers(list, results).no_duplicates(),
    decreases results.len(),
{
    if results.len() > 0 {
        lemma_improvements(list, results.drop_last());
        lemma_advices(
            with_answers(list, results.drop_last()),
            texts(results.last().improvements@),
        );
    }
}

/// A piece of advice that an answer holds is among what has to be improved, unless it is blank.
pub proof fn lemma_advice_kept(list: Seq<Seq<char>>, results: Seq<JudgeResult>, i: int, k: int)
    requires
        0 <= i < results.len(),
        0 <= k < results[i].improvements@.len(),
        trim(results[i].improvements@[k]@).len() > 0,
    ensures
        with_answers(list, results).contains(trim(results[i].improvements@[k]@)),
    decreases results.len(),
{
    let t = results.drop_last();
    let earlier = with_answers(list, t);
    let advices = texts(results.last().improvements@);
    let x = trim(results[i].improvements@[k]@);
    lemma_advices(earlier, advices);
    if i < t.len() {
        assert(t[i] == results[i]);
        lemma_advice_kept(list, t, i, k);
    } else {
        assert(advices.map_values(|a: Seq<char>| trim(a))[k] == x);
    }
}

/// What the writing model is told does not depend on any score.
pub proof fn lemma_feedback_without_scores(a: ScoredView, b: ScoredView)
    requires
        a.improvements == b.improvements,
        a.comments == b.comments,
    ensures
        feedback(a) == feedback(b),
{
}

/// The criteria that are shown as weak have the lowest scores of all.
pub proof fn lemma_weakest(criteria: Seq<Criterion>, scores: Seq<Double>, shown: Seq<Seq<char>>)
    requires
        criteria.len() == scores.len(),
        shown.len() == scores.len(),
    ensures
        weakest(criteria, scores, shown).len() == if scores.len() < 2 {
            scores.len()
        } else {
            2
        },
        forall|n: int, i: int|
            0 <= n < weakest(criteria, scores, shown).len() && 0 <= i < scores.len() && (forall|
                m: int,
            |
                0 <= m <= n ==> i != #[trigger] ranking(scores, scores.len())[m]) ==> (
            #[trigger] scores[ranking(scores, scores.len())[n]]).place() <= (
            #[trigger] scores[i]).place(),
{
    let r = ranking(scores, scores.len());
    lemma_ranking(scores, scores.len());
    assert forall|n: int, i: int|
        0 <= n < weakest(criteria, scores, shown).len() && 0 <= i < scores.len() && (forall|m: int|
            0 <= m <= n ==> i != #[trigger] r[m]) implies (#[trigger] scores[r[n]]).place() <= (
    #[trigger] scores[i]).place() by {
        let j = lemma_named(r, scores.len() as int, i);
        if j <= n {
            assert(i == r[j]);
        }
        assert(scores[r[n]].place() <= scores[r[j]].place());
    }
}

/// Judges and lenses come again in turn: after as many rounds as there are judges the first one is
/// asked again, after six rounds the first lens is used again, and no judge is asked twice running
/// where there are others.
pub proof fn lemma_rotation(i: int, judges: int)
    requires
        0 <= i,
        0 < judges,
    ensures
        i < judges ==> i % judges == i,
        (i + judges) % judges == i % judges,
        (i + 6) % 6 == i % 6,
        judges > 1 ==> (i + 1) % judges != i % judges,
{
    assert((i + judges) % judges == i % judges) by (nonlinear_arith)
        requires
            judges > 0,
    ;
    if i < judges {
        assert(i % judges == i) by (nonlinear_arith)
            requires
                0 <= i < judges,
        ;
    }
    if judges > 1 && (i + 1) % judges == i % judges {
        vstd::arithmetic::div_mod::lemma_fundamental_div_mod(i, judges);
        vstd::arithmetic::div_mod::lemma_fundamental_div_mod(i + 1, judges);
        let d = (i + 1) / judges - i / judges;
        assert(judges * d == 1) by (nonlinear_arith)
            requires
                judges * ((i + 1) / judges) - judges * (i / judges) == 1,
                d == (i + 1) / judges - i / judges,
        ;
        assert(false) by (nonlinear_arith)
            requires
                judges > 1,
                judges * d == 1,
        ;
    }
}

} // verus!
