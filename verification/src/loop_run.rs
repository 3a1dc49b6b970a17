//! The loop of writing, scoring and revising: when it stops, which draft it keeps, and what it
//! warns of.
use crate::double::{Double, FIVE};
use crate::generate::{build_revise_prompt, revision_prompt};
use crate::laws::generate::lemma_revision_prompt;
use crate::score::{feedback, feedback_text, line_up, weak_points, weakest, Scored};
use crate::similarity::{jaccard_similarity, lemma_similarity_ends, tokens, unlike};
use crate::store_spec::Spec;
use crate::text::{decimal, decimal2, join, occurs, push_decimal, push_decimal2, texts};
use vstd::prelude::*;

verus! {

/// When the loop is to stop.
#[derive(Debug, Clone)]
pub struct LoopCfg {
    /// The score that is good enough.
    pub target: Double,
    /// `target` as it is shown, without decimals.
    pub target_text: String,
    pub max_iter: usize,
    pub rounds: usize,
    /// A draft that gains less than this over the best one counts as no progress.
    pub min_delta: Double,
    /// `min_delta` as it is shown, with one decimal.
    pub min_delta_text: String,
    /// After this many drafts in a row without progress the loop stops.
    pub patience: usize,
}

/// Why the loop stops.
#[derive(Debug, Clone, Copy, PartialEq, Eq, Structural)]
pub enum Stop {
    Target,
    Stalled,
    MaxIterations,
}

/// What to do once a draft is scored.
#[derive(Debug, Clone, Copy, PartialEq, Eq, Structural)]
pub enum Verdict {
    Stop(Stop),
    Revise,
}

impl LoopCfg {
    /// How many drafts are written at most.
    pub open spec fn most(self) -> nat {
        if self.max_iter == 0 {
            1
        } else {
            self.max_iter as nat
        }
    }

    /// How many drafts are written at most, at least one.
    pub fn max_drafts(&self) -> (r: usize)
        ensures
            r == self.most(),
    {
        if self.max_iter == 0 {
            1
        } else {
            self.max_iter
        }
    }

    /// What is said of the end of the loop.
    pub open spec fn reason(self, stop: Stop) -> Seq<char> {
        match stop {
            Stop::Target => "Reached target score "@ + self.target_text@,
            Stop::Stalled => "Improvement stalled ("@ + decimal(self.patience as nat)
                + " consecutive times below +"@ + self.min_delta_text@ + " points)"@,
            Stop::MaxIterations => "Reached max iterations ("@ + decimal(self.most()) + ")"@,
        }
    }

    /// What is said of the end of the loop.
    pub fn stop_reason(&self, stop: Stop) -> (r: String)
        ensures
            r@ == self.reason(stop),
    {
        match stop {
            Stop::Target => {
                let mut t = "Reached target score ".to_string();
                t.append(self.target_text.as_str());
                t
            },
            Stop::Stalled => {
                let mut t = "Improvement stalled (".to_string();
                push_decimal(&mut t, self.patience as u64);
                t.append(" consecutive times below +");
                t.append(self.min_delta_text.as_str());
                t.append(" points)");
                t
            },
            Stop::MaxIterations => {
                let mut t = "Reached max iterations (".to_string();
                push_decimal(&mut t, self.max_drafts() as u64);
                t.append(")");
                t
            },
        }
    }
}

/// The name of draft `n`, counted from 1.
pub open spec fn label_of(n: nat) -> Seq<char> {
    "iter"@ + decimal2(n)
}

/// The name of draft `n`, counted from 1.
pub fn iteration_label(n: usize) -> (r: String)
    ensures
        r@ == label_of(n as nat),
{
    let mut t = "iter".to_string();
    push_decimal2(&mut t, n as u64);
    t
}

/// What is shown of a scored draft.
pub open spec fn progress_text(
    label: Seq<char>,
    total: Seq<char>,
    chars: nat,
    found: nat,
) -> Seq<char> {
    "  ["@ + label + "] "@ + total + "/100  ("@ + decimal(chars) + " chars"@ + (if found == 0 {
        seq![]
    } else {
        ", "@ + decimal(found) + " format issue(s)"@
    }) + ")"@
}

/// What is shown of a scored draft. `total_text` is its score with one decimal.
pub fn progress_line(s: &Scored, total_text: &str) -> (r: String)
    ensures
        r@ == progress_text(
            s.label@,
            total_text@,
            s.metrics.total_chars as nat,
            s.format_issues@.len(),
        ),
{
    let mut t = "  [".to_string();
    t.append(s.label.as_str());
    t.append("] ");
    t.append(total_text);
    t.append("/100  (");
    push_decimal(&mut t, s.metrics.total_chars as u64);
    t.append(" chars");
    let ghost upto = t@;
    if s.format_issues.len() > 0 {
        let mut more = ", ".to_string();
        push_decimal(&mut more, s.format_issues.len() as u64);
        more.append(" format issue(s)");
        t.append(more.as_str());
    } else {
        assert(upto + Seq::<char>::empty() =~= upto);
    }
    t.append(")");
    t
}

/// The scores of the drafts.
pub open spec fn totals(history: Seq<Scored>) -> Seq<Double> {
    history.map_values(|s: Scored| s.total)
}

/// Which draft has the best score, the first of those that share it.
pub open spec fn best_of(t: Seq<Double>) -> int
    decreases t.len(),
{
    if t.len() <= 1 {
        0
    } else {
        let b = best_of(t.drop_last());
        if t[b].less(t.last()) {
            t.len() - 1
        } else {
            b
        }
    }
}

/// The best draft is none that another one beats, and every earlier one is worse.
pub proof fn lemma_best(t: Seq<Double>)
    requires
        t.len() > 0,
    ensures
        0 <= best_of(t) < t.len(),
        forall|i: int| 0 <= i < t.len() ==> !t[best_of(t)].less(#[trigger] t[i]),
        forall|i: int| 0 <= i < best_of(t) ==> !t[best_of(t)].at_most(#[trigger] t[i]),
    decreases t.len(),
{
    if t.len() > 1 {
        let s = t.drop_last();
        lemma_best(s);
        let b = best_of(s);
        assert forall|i: int| 0 <= i < t.len() implies !t[best_of(t)].less(#[trigger] t[i]) by {
            if i < s.len() {
                assert(s[i] == t[i]);
            }
        }
        assert forall|i: int| 0 <= i < best_of(t) implies !t[best_of(t)].at_most(#[trigger] t[i]) by {
            assert(s[i] == t[i]);
        }
    }
}

/// How many drafts in a row have made no progress, where there were `stall` before the last one.
/// `gain` is what the last one gained over the best before it.
pub open spec fn stall_after(
    stall: nat,
    earlier: Seq<Double>,
    total: Double,
    gain: Double,
    min_delta: Double,
) -> nat {
    if earlier.len() == 0 {
        0
    } else if earlier[best_of(earlier)].less(total) && !gain.less(min_delta) {
        0
    } else {
        stall + 1
    }
}

/// What to do after `count` drafts, the last of which has the score `total` and `found` issues.
pub open spec fn verdict(cfg: LoopCfg, count: nat, stall: nat, total: Double, found: nat) -> Verdict {
    if cfg.target.at_most(total) && found == 0 {
        Verdict::Stop(Stop::Target)
    } else if stall >= cfg.patience {
        Verdict::Stop(Stop::Stalled)
    } else if count >= cfg.most() {
        Verdict::Stop(Stop::MaxIterations)
    } else {
        Verdict::Revise
    }
}

/// A loop under way: its scored drafts.
#[derive(Debug)]
pub struct LoopRun {
    history: Vec<Scored>,
    docs: Vec<String>,
    best: usize,
    stall: usize,
}

impl LoopRun {
    /// The drafts as they were scored.
    pub closed spec fn scored(self) -> Seq<Scored> {
        self.history@
    }

    /// The texts of the drafts.
    pub closed spec fn drafts(self) -> Seq<Seq<char>> {
        texts(self.docs@)
    }

    /// Which draft has the best score.
    pub closed spec fn best_at(self) -> int {
        self.best as int
    }

    /// How many drafts in a row have made no progress.
    pub closed spec fn stalled(self) -> nat {
        self.stall as nat
    }

    /// Every draft is scored, the best one is known, and no more drafts made no progress than came
    /// after the first.
    pub open spec fn wf(self) -> bool {
        &&& self.drafts().len() == self.scored().len()
        &&& self.best_at() == best_of(totals(self.scored()))
        &&& self.stalled() <= self.scored().len()
        &&& self.scored().len() > 0 ==> self.stalled() < self.scored().len()
    }

    /// A loop without drafts.
    pub fn new() -> (r: LoopRun)
        ensures
            r.wf(),
            r.scored().len() == 0,
            r.stalled() == 0,
    {
        LoopRun { history: Vec::new(), docs: Vec::new(), best: 0, stall: 0 }
    }

    /// The drafts as they were scored.
    pub fn history(&self) -> (r: &Vec<Scored>)
        ensures
            r@ == self.scored(),
    {
        &self.history
    }

    /// The texts of the drafts.
    pub fn docs(&self) -> (r: &Vec<String>)
        ensures
            texts(r@) == self.drafts(),
    {
        &self.docs
    }

    /// Which draft has the best score; 0 where there is none.
    pub fn best(&self) -> (r: usize)
        ensures
            r == self.best_at(),
    {
        self.best
    }

    /// How many drafts in a row have made no progress.
    pub fn stall(&self) -> (r: usize)
        ensures
            r == self.stalled(),
    {
        self.stall
    }

    /// The best score so far.
    pub fn best_total(&self) -> (r: Option<Double>)
        requires
            self.wf(),
        ensures
            r == if self.scored().len() == 0 {
                None
            } else {
                Some(self.scored()[best_of(totals(self.scored()))].total)
            },
            forall|i: int|
                0 <= i < self.scored().len() ==> r is Some && !r->Some_0.less(
                    (#[trigger] self.scored()[i]).total,
                ),
    {
        if self.history.len() == 0 {
            None
        } else {
            proof {
                lemma_best(totals(self.history@));
                assert forall|i: int| 0 <= i < self.scored().len() implies !self.history@[self.best as int].total.less(
                    (#[trigger] self.scored()[i]).total,
                ) by {
                    assert(totals(self.history@)[i] == self.scored()[i].total);
                }
            }
            Some(self.history[self.best].total)
        }
    }

    /// Takes a scored draft and says what to do. `gain` is what it gains over the best one before
    /// it.
    pub fn record(&mut self, cfg: &LoopCfg, doc: String, scored: Scored, gain: Double) -> (r:
        Verdict)
        requires
            old(self).wf(),
        ensures
            final(self).wf(),
            final(self).scored() == old(self).scored().push(scored),
            final(self).drafts() == old(self).drafts().push(doc@),
            final(self).stalled() == stall_after(
                old(self).stalled(),
                totals(old(self).scored()),
                scored.total,
                gain,
                cfg.min_delta,
            ),
            r == verdict(
                *cfg,
                final(self).scored().len(),
                final(self).stalled(),
                scored.total,
                scored.format_issues@.len(),
            ),
            r == Verdict::Revise ==> final(self).scored().len() < cfg.most(),
            r == Verdict::Stop(Stop::Target) <==> scored.format_issues@.len() == 0
                && cfg.target.at_most(scored.total),
    {
        let ghost earlier = totals(self.history@);
        let ghost texts_before = self.drafts();
        let first = self.history.len() == 0;
        let total = scored.total;
        let found: usize = scored.format_issues.len();
        proof {
            if !first {
                lemma_best(earlier);
            }
        }
        let improved = first || self.history[self.best].total.is_less(total);
        self.history.push(scored);
        self.docs.push(doc);
        assert(self.drafts() =~= texts_before.push(doc@));
        let count: usize = self.history.len();
        assert(totals(self.history@) =~= earlier.push(total));
        assert(totals(self.history@).drop_last() =~= earlier);
        if improved {
            self.best = count - 1;
        }
        if improved && (first || !gain.is_less(cfg.min_delta)) {
            self.stall = 0;
        } else {
            self.stall = self.stall + 1;
        }
        if cfg.target.is_at_most(total) && found == 0 {
            Verdict::Stop(Stop::Target)
        } else if self.stall >= cfg.patience {
            Verdict::Stop(Stop::Stalled)
        } else if count >= cfg.max_drafts() {
            Verdict::Stop(Stop::MaxIterations)
        } else {
            Verdict::Revise
        }
    }

    /// What a model is told to revise the last draft. `shown` gives the score of each criterion as
    /// a text, without decimals.
    pub fn revision(&self, spec: &Spec, idea: &str, shown: &Vec<String>) -> (r: String)
        requires
            self.wf(),
            self.scored().len() > 0,
            shown@.len() == spec.criteria@.len(),
            spec.criteria@.len() >= 2 ==> forall|i: int|
                0 <= i < spec.criteria@.len() ==> !(#[trigger] line_up(
                    spec.criteria@,
                    self.scored().last()@.per_criterion,
                )[i]).nan(),
        ensures
            r@ == revision_prompt(
                *spec,
                idea@,
                self.drafts().last(),
                feedback(self.scored().last()@),
                join(
                    weakest(
                        spec.criteria@,
                        line_up(spec.criteria@, self.scored().last()@.per_criterion),
                        texts(shown@),
                    ),
                    "\n"@,
                ),
            ),
            occurs(idea@, r@),
            occurs(self.drafts().last(), r@),
            occurs(feedback(self.scored().last()@), r@),
    {
        assert(self.drafts().len() == self.docs@.len());
        proof {
            lemma_revision_prompt(
                *spec,
                idea@,
                self.drafts().last(),
                feedback(self.scored().last()@),
                join(
                    weakest(
                        spec.criteria@,
                        line_up(spec.criteria@, self.scored().last()@.per_criterion),
                        texts(shown@),
                    ),
                    "\n"@,
                ),
            );
        }
        let last: usize = self.history.len() - 1;
        let s = &self.history[last];
        assert(*s == self.scored().last());
        build_revise_prompt(
            spec,
            idea,
            self.docs[last].as_str(),
            feedback_text(s).as_str(),
            weak_points(spec, s, shown).as_str(),
        )
    }
}

/// How the best draft compares with the first.
#[derive(Debug, Clone)]
pub struct Growth {
    /// What its score is greater by.
    pub gain: Double,
    /// `gain` as it is shown, with one decimal.
    pub gain_text: String,
    /// What its length is greater by, in percent of the first one's, without decimals.
    pub growth_text: String,
}

/// How the difference of a draft from the one before it is shown.
#[derive(Debug, Clone)]
pub struct Change {
    /// What its score is greater by, with its sign and one decimal.
    pub gain_text: String,
    /// The similarity of the two, with two decimals.
    pub similarity_text: String,
}

/// The length has grown by more than a quarter.
pub open spec fn inflated(first: nat, best: nat) -> bool {
    first > 0 && 4 * (best - first) > first
}

/// What is said where the best draft is much longer than the first and hardly better: it may be
/// padding.
pub open spec fn length_warnings(first: nat, best: nat, growth: Growth) -> Seq<Seq<char>> {
    if inflated(first, best) && growth.gain.less((Double { bits: FIVE })) {
        seq![
            "Length canary: total chars +"@ + growth.growth_text@ + "% but score only +"@
                + growth.gain_text@
                + " → may be padding rather than content improvement"@,
        ]
    } else {
        seq![]
    }
}

/// What is said where the last draft is not the best.
pub open spec fn last_warnings(best: int, count: nat, last_text: Seq<char>) -> Seq<Seq<char>> {
    if best + 1 < count {
        seq![
            "Last iteration ("@ + last_text + " points) is not the best score → best.md is iter"@
                + decimal2((best + 1) as nat),
        ]
    } else {
        seq![]
    }
}

/// The later score less the earlier one is not zero or less: it is higher, or the difference is
/// not a number.
pub open spec fn rose(earlier: Double, later: Double) -> bool {
    !later.at_most(earlier) || (!earlier.finite() && later.place() == earlier.place())
}

/// What is said of draft `i`, where its score is higher than that of the one before it while the
/// two have little in common: it may have been rewritten for the judges.
pub open spec fn drift_warning(
    t: Seq<Double>,
    docs: Seq<Seq<char>>,
    changes: Seq<Change>,
    i: int,
) -> Seq<Seq<char>> {
    let c = changes[i - 1];
    if rose(t[i - 1], t[i]) && unlike(docs[i - 1], docs[i]) {
        seq![
            "Drift warning: iter"@ + decimal2(i as nat) + "→iter"@ + decimal2((i + 1) as nat)
                + " score rose by "@ + c.gain_text@ + " but token Jaccard similarity is "@
                + c.similarity_text@
                + " (below 0.3) → content may have changed drastically while only the score went up; manual copy review recommended"@,
        ]
    } else {
        seq![]
    }
}

/// What is said of the drafts before draft `n`, each compared with the one before it.
pub open spec fn drift_warnings(
    t: Seq<Double>,
    docs: Seq<Seq<char>>,
    changes: Seq<Change>,
    n: nat,
) -> Seq<Seq<char>>
    decreases n,
{
    if n <= 1 {
        seq![]
    } else {
        drift_warnings(t, docs, changes, (n - 1) as nat) + drift_warning(t, docs, changes, n - 1)
    }
}

/// Reports a best draft that is much longer than the first and hardly better.
fn push_length_warning(out: &mut Vec<String>, first: usize, best: usize, growth: &Growth)
    ensures
        texts(final(out)@) == texts(old(out)@) + length_warnings(
            first as nat,
            best as nat,
            *growth,
        ),
{
    let ghost start = texts(out@);
    let five = Double { bits: FIVE };
    if first > 0 && best > first && 4 * (best as u128 - first as u128) > first as u128
        && growth.gain.is_less(five) {
        let mut t = "Length canary: total chars +".to_string();
        t.append(growth.growth_text.as_str());
        t.append("% but score only +");
        t.append(growth.gain_text.as_str());
        t.append(" → may be padding rather than content improvement");
        out.push(t);
    }
    assert(texts(out@) =~= start + length_warnings(first as nat, best as nat, *growth));
}

/// Reports a last draft that is not the best.
fn push_last_warning(out: &mut Vec<String>, best: usize, count: usize, last_text: &str)
    ensures
        texts(final(out)@) == texts(old(out)@) + last_warnings(
            best as int,
            count as nat,
            last_text@,
        ),
{
    let ghost start = texts(out@);
    if best < count && best + 1 < count {
        let mut t = "Last iteration (".to_string();
        t.append(last_text);
        t.append(" points) is not the best score → best.md is iter");
        push_decimal2(&mut t, best as u64 + 1);
        out.push(t);
    }
    assert(texts(out@) =~= start + last_warnings(best as int, count as nat, last_text@));
}

/// Whether the later score less the earlier one is not zero or less.
fn has_risen(earlier: Double, later: Double) -> (r: bool)
    ensures
        r == rose(earlier, later),
{
    !later.is_at_most(earlier) || (!earlier.is_finite() && earlier.is_at_most(later))
}

/// Reports draft `i` where its score is higher than that of the one before it while the two have
/// little in common.
fn push_drift_warning(
    out: &mut Vec<String>,
    history: &Vec<Scored>,
    docs: &Vec<String>,
    changes: &Vec<Change>,
    i: usize,
)
    requires
        1 <= i < docs@.len(),
        history@.len() == docs@.len(),
        changes@.len() + 1 == docs@.len(),
    ensures
        texts(final(out)@) == texts(old(out)@) + drift_warning(
            totals(history@),
            texts(docs@),
            changes@,
            i as int,
        ),
{
    let ghost start = texts(out@);
    let count: usize = docs.len();
    let c = &changes[i - 1];
    assert(i + 1 <= count);
    if has_risen(history[i - 1].total, history[i].total) {
        let sim = jaccard_similarity(docs[i - 1].as_str(), docs[i].as_str());
        if sim.is_low() {
            let mut t = "Drift warning: iter".to_string();
            push_decimal2(&mut t, i as u64);
            t.append("→iter");
            push_decimal2(&mut t, i as u64 + 1);
            t.append(" score rose by ");
            t.append(c.gain_text.as_str());
            t.append(" but token Jaccard similarity is ");
            t.append(c.similarity_text.as_str());
            t.append(
                " (below 0.3) → content may have changed drastically while only the score went up; manual copy review recommended",
            );
            out.push(t);
        }
    }
    assert(texts(out@) =~= start + drift_warning(
        totals(history@),
        texts(docs@),
        changes@,
        i as int,
    ));
}

/// What a loop comes to.
#[derive(Debug)]
pub struct LoopOutcome {
    pub best_label: String,
    pub best_doc: String,
    pub best_score: Scored,
    pub first_doc: String,
    pub history: Vec<Scored>,
    pub stop_reason: String,
    pub warnings: Vec<String>,
}

/// Everything that a loop warns of.
pub open spec fn all_warnings(
    run: LoopRun,
    last_text: Seq<char>,
    growth: Growth,
    changes: Seq<Change>,
) -> Seq<Seq<char>> {
    let best = best_of(totals(run.scored()));
    length_warnings(
        run.scored()[0].metrics.total_chars as nat,
        run.scored()[best].metrics.total_chars as nat,
        growth,
    ) + last_warnings(best, run.scored().len(), last_text) + drift_warnings(
        totals(run.scored()),
        run.drafts(),
        changes,
        run.drafts().len(),
    )
}

/// Ends a loop. What is kept is not its last draft but its best. `last_text` is the score of the
/// last draft with one decimal.
pub fn finish(
    run: LoopRun,
    cfg: &LoopCfg,
    stop: Stop,
    last_text: &str,
    growth: &Growth,
    changes: &Vec<Change>,
) -> (r: LoopOutcome)
    requires
        run.wf(),
        run.scored().len() > 0,
        changes@.len() + 1 == run.scored().len(),
    ensures
        0 <= best_of(totals(run.scored())) < run.scored().len(),
        r.best_score@ == run.scored()[best_of(totals(run.scored()))]@,
        r.best_label@ == r.best_score.label@,
        r.best_doc@ == run.drafts()[best_of(totals(run.scored()))],
        r.first_doc@ == run.drafts()[0],
        r.history@ == run.scored(),
        r.stop_reason@ == cfg.reason(stop),
        texts(r.warnings@) == all_warnings(run, last_text@, *growth, changes@),
        forall|i: int|
            0 <= i < r.history@.len() ==> !r.best_score.total.less((#[trigger] r.history@[i]).total),
{
    proof {
        lemma_best(totals(run.history@));
    }
    assert(run.drafts().len() == run.docs@.len());
    let best: usize = run.best;
    let best_score = run.history[best].again();
    assert(best_score@.total == run.history@[best as int]@.total);
    let mut warnings: Vec<String> = Vec::new();
    push_length_warning(
        &mut warnings,
        run.history[0].metrics.total_chars,
        best_score.metrics.total_chars,
        growth,
    );
    assert(best_score@.metrics == run.history@[best as int]@.metrics);
    push_last_warning(&mut warnings, best, run.history.len(), last_text);
    let ghost upto = texts(warnings@);
    let ghost t = totals(run.history@);
    assert(upto + drift_warnings(t, texts(run.docs@), changes@, 1) =~= upto);
    for i in 1..run.docs.len()
        invariant
            run.docs@.len() > 0,
            run.history@.len() == run.docs@.len(),
            changes@.len() + 1 == run.docs@.len(),
            t == totals(run.history@),
            texts(warnings@) == upto + drift_warnings(t, texts(run.docs@), changes@, i as nat),
    {
        push_drift_warning(&mut warnings, &run.history, &run.docs, changes, i);
        assert(texts(warnings@) =~= upto + drift_warnings(
            t,
            texts(run.docs@),
            changes@,
            (i + 1) as nat,
        ));
    }
    let first_doc = run.docs[0].clone();
    let best_doc = run.docs[best].clone();
    assert forall|i: int| 0 <= i < run.history@.len() implies !best_score.total.less(
        (#[trigger] run.history@[i]).total,
    ) by {
        assert(totals(run.history@)[i] == run.history@[i].total);
    }
    LoopOutcome {
        best_label: best_score.label.clone(),
        best_doc,
        best_score,
        first_doc,
        history: run.history,
        stop_reason: cfg.stop_reason(stop),
        warnings,
    }
}

/// The loop comes to an end: after the last draft that may be written it stops, whatever the
/// scores.
pub proof fn lemma_loop_ends(cfg: LoopCfg, count: nat, stall: nat, total: Double, found: nat)
    requires
        count >= cfg.most(),
    ensures
        verdict(cfg, count, stall, total, found) is Stop,
{
}

/// A draft with issues never counts as having reached the target.
pub proof fn lemma_target_is_clean(cfg: LoopCfg, count: nat, stall: nat, total: Double, found: nat)
    ensures
        verdict(cfg, count, stall, total, found) == Verdict::Stop(Stop::Target) ==> found == 0
            && cfg.target.at_most(total),
{
}

/// Where the best draft is the first one, nothing is said of its length.
pub proof fn lemma_no_growth(n: nat, growth: Growth)
    ensures
        length_warnings(n, n, growth).len() == 0,
{
}

/// A draft is warned of exactly where its score is higher than that of the one before it and the
/// two have little in common.
pub proof fn lemma_drift(t: Seq<Double>, docs: Seq<Seq<char>>, changes: Seq<Change>, i: int)
    requires
        t[i - 1].finite(),
        t[i].finite(),
    ensures
        drift_warning(t, docs, changes, i).len() > 0 <==> t[i - 1].less(t[i]) && unlike(
            docs[i - 1],
            docs[i],
        ),
{
}

/// Nothing is said of a draft that has the same words as the one before it.
pub proof fn lemma_no_drift(t: Seq<Double>, docs: Seq<Seq<char>>, changes: Seq<Change>, i: int)
    requires
        tokens(docs[i - 1]) == tokens(docs[i]),
    ensures
        drift_warning(t, docs, changes, i).len() == 0,
{
    lemma_similarity_ends(docs[i - 1], docs[i]);
}

/// Draft `k` made progress: it is the first, or it beats the best before it by enough.
pub open spec fn progressed(t: Seq<Double>, gains: Seq<Double>, min_delta: Double, k: int) -> bool {
    k == 0 || (t[best_of(t.take(k))].less(t[k]) && !gains[k].less(min_delta))
}

/// How many drafts in a row have made no progress at the end of a loop with these scores and
/// gains.
pub open spec fn stall_of(t: Seq<Double>, gains: Seq<Double>, min_delta: Double) -> nat
    decreases t.len(),
{
    if t.len() == 0 {
        0
    } else {
        stall_after(
            stall_of(t.drop_last(), gains, min_delta),
            t.drop_last(),
            t.last(),
            gains[t.len() - 1],
            min_delta,
        )
    }
}

/// The drafts that count as stalled are the ones since progress was made last.
pub proof fn lemma_stall(t: Seq<Double>, gains: Seq<Double>, min_delta: Double)
    requires
        t.len() > 0,
    ensures
        stall_of(t, gains, min_delta) < t.len(),
        forall|k: int|
            t.len() - stall_of(t, gains, min_delta) <= k < t.len() ==> !#[trigger] progressed(
                t,
                gains,
                min_delta,
                k,
            ),
        progressed(t, gains, min_delta, t.len() - 1 - stall_of(t, gains, min_delta)),
    decreases t.len(),
{
    let s = t.drop_last();
    let n = t.len() - 1;
    assert(t.take(n) =~= s);
    if s.len() > 0 {
        lemma_stall(s, gains, min_delta);
        lemma_best(s);
        assert forall|k: int| 0 <= k < n implies progressed(s, gains, min_delta, k)
            == #[trigger] progressed(t, gains, min_delta, k) by {
            assert(s.take(k) =~= t.take(k));
            if k > 0 {
                lemma_best(t.take(k));
            }
        }
    }
}

} // verus!
