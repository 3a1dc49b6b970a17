//! Laws of the loop: when it stops, what counts as progress, and what it warns of.
use crate::double::{FIVE, Double};
use crate::laws::text::{lemma_decimal, lemma_glued, lemma_glued_push, number};
use crate::loop_run::{
    all_warnings, best_of, drift_warning, drift_warnings, label_of, last_warnings, lemma_best,
    length_warnings, progress_text, rose, stall_after, totals, verdict, Change, Growth, LoopCfg,
    LoopRun, Stop, Verdict,
};
use crate::similarity::{common, together, unlike};
use crate::text::{decimal, decimal2, occurs, words};
use vstd::prelude::*;

verus! {

/// A draft without issues whose score is not below the target ends the loop at once, whichever
/// draft it is and however the others went. Otherwise patience comes before the number of drafts,
/// and a draft is revised only where there is still one to write and patience is left.
pub proof fn lemma_verdict(cfg: LoopCfg, count: nat, stall: nat, total: Double, found: nat)
    ensures
        found == 0 && cfg.target.at_most(total) ==> verdict(cfg, count, stall, total, found)
            == Verdict::Stop(Stop::Target),
        found > 0 || !cfg.target.at_most(total) ==> {
            &&& stall >= cfg.patience ==> verdict(cfg, count, stall, total, found) == Verdict::Stop(
                Stop::Stalled,
            )
            &&& stall < cfg.patience && count >= cfg.max_iter && count >= 1 ==> verdict(
                cfg,
                count,
                stall,
                total,
                found,
            ) == Verdict::Stop(Stop::MaxIterations)
            &&& stall < cfg.patience && (count < cfg.max_iter || count == 0) ==> verdict(
                cfg,
                count,
                stall,
                total,
                found,
            ) == Verdict::Revise
        },
{
}

/// A draft is written in any case, and otherwise as many as the configuration says.
pub proof fn lemma_most(cfg: LoopCfg)
    ensures
        cfg.most() >= 1,
        cfg.max_iter >= 1 ==> cfg.most() == cfg.max_iter,
        cfg.max_iter == 0 ==> cfg.most() == 1,
{
}

/// A draft makes progress exactly where it beats every draft before it and gains enough by that;
/// the first one always does. Progress ends a run without it; any other draft makes it one longer.
pub proof fn lemma_progress(
    stall: nat,
    earlier: Seq<Double>,
    total: Double,
    gain: Double,
    min_delta: Double,
)
    requires
        forall|i: int| 0 <= i < earlier.len() ==> !(#[trigger] earlier[i]).nan(),
    ensures
        earlier.len() == 0 ==> stall_after(stall, earlier, total, gain, min_delta) == 0,
        earlier.len() > 0 && !gain.less(min_delta) && (forall|i: int|
            0 <= i < earlier.len() ==> (#[trigger] earlier[i]).less(total)) ==> stall_after(
            stall,
            earlier,
            total,
            gain,
            min_delta,
        ) == 0,
        earlier.len() > 0 && gain.less(min_delta) ==> stall_after(
            stall,
            earlier,
            total,
            gain,
            min_delta,
        ) == stall + 1,
        (exists|i: int| 0 <= i < earlier.len() && !(#[trigger] earlier[i]).less(total))
            ==> stall_after(stall, earlier, total, gain, min_delta) == stall + 1,
{
    if earlier.len() > 0 {
        lemma_best(earlier);
        let b = best_of(earlier);
        assert(earlier[b] == earlier[b]);
        if exists|i: int| 0 <= i < earlier.len() && !(#[trigger] earlier[i]).less(total) {
            let i = choose|i: int| 0 <= i < earlier.len() && !(#[trigger] earlier[i]).less(total);
            assert(!earlier[b].less(earlier[i]));
            assert(!earlier[i].nan() && !earlier[b].nan());
        }
    }
}

/// The draft that is kept is the first of those that no other one beats.
pub proof fn lemma_kept_draft(t: Seq<Double>, b: int)
    requires
        0 <= b < t.len(),
        forall|i: int| 0 <= i < t.len() ==> !(#[trigger] t[i]).nan(),
        forall|i: int| 0 <= i < t.len() ==> (#[trigger] t[i]).at_most(t[b]),
        forall|i: int| 0 <= i < b ==> (#[trigger] t[i]).less(t[b]),
    ensures
        best_of(t) == b,
{
    lemma_best(t);
    let k = best_of(t);
    assert(!t[k].less(t[b]));
    assert(t[k].at_most(t[b]));
    if k < b {
        assert(t[k].less(t[b]));
    }
    if b < k {
        assert(!t[k].at_most(t[b]));
    }
}

/// The end of the loop is explained by the target, the patience, or the number of drafts.
pub proof fn lemma_reason(cfg: LoopCfg)
    ensures
        cfg.reason(Stop::Target) == "Reached target score "@ + cfg.target_text@,
        occurs(decimal(cfg.patience as nat), cfg.reason(Stop::Stalled)),
        occurs(cfg.min_delta_text@, cfg.reason(Stop::Stalled)),
        occurs(decimal(cfg.most()), cfg.reason(Stop::MaxIterations)),
{
    let none = Seq::<Seq<char>>::empty();
    let a = "Improvement stalled ("@;
    let b = decimal(cfg.patience as nat);
    let c = " consecutive times below +"@;
    let d = cfg.min_delta_text@;
    let e = " points)"@;
    lemma_glued_push(none, a);
    lemma_glued_push(none.push(a), b);
    lemma_glued_push(none.push(a).push(b), c);
    lemma_glued_push(none.push(a).push(b).push(c), d);
    let p = none.push(a).push(b).push(c).push(d).push(e);
    lemma_glued_push(none.push(a).push(b).push(c).push(d), e);
    assert(p[1] == b && p[3] == d);
    lemma_glued(p, 1);
    lemma_glued(p, 3);
    let f = "Reached max iterations ("@;
    let g = decimal(cfg.most());
    let h = ")"@;
    lemma_glued_push(none, f);
    lemma_glued_push(none.push(f), g);
    lemma_glued_push(none.push(f).push(g), h);
    let q = none.push(f).push(g).push(h);
    assert(q[1] == g);
    lemma_glued(q, 1);
}

/// A draft is named by its number, with two digits or more, and no two drafts have the same name.
pub proof fn lemma_label(n: nat, m: nat)
    ensures
        label_of(n).len() >= 6,
        label_of(n).take(4) == "iter"@,
        number(label_of(n).skip(4)) == n,
        label_of(n) == label_of(m) ==> n == m,
{
    reveal_strlit("iter");
    lemma_decimal(n);
    lemma_decimal(m);
    assert(label_of(n).skip(4) =~= decimal2(n));
    assert(label_of(m).skip(4) =~= decimal2(m));
    assert(label_of(n).take(4) =~= "iter"@);
}

/// What is shown of a draft is its name, its score, its length, and the number of issues where
/// there are any.
pub proof fn lemma_progress_text(label: Seq<char>, total: Seq<char>, chars: nat, found: nat)
    ensures
        occurs(label, progress_text(label, total, chars, found)),
        occurs(total, progress_text(label, total, chars, found)),
        occurs(decimal(chars), progress_text(label, total, chars, found)),
        found > 0 ==> occurs(
            ", "@ + decimal(found) + " format issue(s)"@,
            progress_text(label, total, chars, found),
        ),
{
    let none = Seq::<Seq<char>>::empty();
    let m = if found == 0 {
        Seq::<char>::empty()
    } else {
        ", "@ + decimal(found) + " format issue(s)"@
    };
    let p1 = none.push("  ["@);
    let p2 = p1.push(label);
    let p3 = p2.push("] "@);
    let p4 = p3.push(total);
    let p5 = p4.push("/100  ("@);
    let p6 = p5.push(decimal(chars));
    let p7 = p6.push(" chars"@);
    let p8 = p7.push(m);
    let p9 = p8.push(")"@);
    lemma_glued_push(none, "  ["@);
    lemma_glued_push(p1, label);
    lemma_glued_push(p2, "] "@);
    lemma_glued_push(p3, total);
    lemma_glued_push(p4, "/100  ("@);
    lemma_glued_push(p5, decimal(chars));
    lemma_glued_push(p6, " chars"@);
    lemma_glued_push(p7, m);
    lemma_glued_push(p8, ")"@);
    assert(p9[1] == label && p9[3] == total && p9[5] == decimal(chars) && p9[7] == m);
    lemma_glued(p9, 1);
    lemma_glued(p9, 3);
    lemma_glued(p9, 5);
    lemma_glued(p9, 7);
}

/// Growth is warned of exactly where the best draft is longer than the first by more than a quarter
/// of it and gains less than five points.
pub proof fn lemma_length_warning(first: nat, best: nat, growth: Growth)
    ensures
        length_warnings(first, best, growth).len() == if first > 0 && 4 * best > 5 * first
            && growth.gain.less((Double { bits: FIVE })) {
            1nat
        } else {
            0nat
        },
        length_warnings(first, best, growth).len() > 0 ==> occurs(
            growth.growth_text@,
            length_warnings(first, best, growth)[0],
        ) && occurs(growth.gain_text@, length_warnings(first, best, growth)[0]),
{
    if length_warnings(first, best, growth).len() > 0 {
        let none = Seq::<Seq<char>>::empty();
        let a = "Length canary: total chars +"@;
        let b = growth.growth_text@;
        let c = "% but score only +"@;
        let d = growth.gain_text@;
        let e = " → may be padding rather than content improvement"@;
        lemma_glued_push(none, a);
        lemma_glued_push(none.push(a), b);
        lemma_glued_push(none.push(a).push(b), c);
        lemma_glued_push(none.push(a).push(b).push(c), d);
        lemma_glued_push(none.push(a).push(b).push(c).push(d), e);
        let p = none.push(a).push(b).push(c).push(d).push(e);
        assert(p[1] == b && p[3] == d);
        lemma_glued(p, 1);
        lemma_glued(p, 3);
    }
}

/// The last draft is warned of exactly where it is not the best, and the best one is named.
pub proof fn lemma_last_warning(best: int, count: nat, last_text: Seq<char>)
    requires
        0 <= best < count,
    ensures
        last_warnings(best, count, last_text).len() == if best == count - 1 {
            0nat
        } else {
            1nat
        },
        best < count - 1 ==> occurs(last_text, last_warnings(best, count, last_text)[0]) && occurs(
            decimal2((best + 1) as nat),
            last_warnings(best, count, last_text)[0],
        ),
{
    if best < count - 1 {
        let none = Seq::<Seq<char>>::empty();
        let a = "Last iteration ("@;
        let b = last_text;
        let c = " points) is not the best score → best.md is iter"@;
        let d = decimal2((best + 1) as nat);
        lemma_glued_push(none, a);
        lemma_glued_push(none.push(a), b);
        lemma_glued_push(none.push(a).push(b), c);
        lemma_glued_push(none.push(a).push(b).push(c), d);
        let p = none.push(a).push(b).push(c).push(d);
        assert(p[1] == b && p[3] == d);
        lemma_glued(p, 1);
        lemma_glued(p, 3);
    }
}

/// A score rises exactly where it is higher than the one before it, if both are finite. A rise is
/// not ruled out where one of them is not a number, or both are the same infinity.
pub proof fn lemma_rose(earlier: Double, later: Double)
    ensures
        earlier.finite() && later.finite() ==> (rose(earlier, later) <==> earlier.less(later)),
        earlier.nan() || later.nan() ==> rose(earlier, later),
        !earlier.finite() && !earlier.nan() && later == earlier ==> rose(earlier, later),
{
}

/// Two drafts are unlike exactly where less than three tenths of all their words stand in both.
pub proof fn lemma_unlike(a: Seq<char>, b: Seq<char>)
    ensures
        unlike(a, b) <==> 10 * words(a).to_set().intersect(words(b).to_set()).len() < 3 * words(
            a,
        ).to_set().union(words(b).to_set()).len(),
{
}

/// What is said of a draft names it and the one before it, and gives the rise and the similarity.
pub proof fn lemma_drift_text(t: Seq<Double>, docs: Seq<Seq<char>>, changes: Seq<Change>, i: int)
    ensures
        drift_warning(t, docs, changes, i).len() == if rose(t[i - 1], t[i]) && unlike(
            docs[i - 1],
            docs[i],
        ) {
            1nat
        } else {
            0nat
        },
        drift_warning(t, docs, changes, i).len() > 0 ==> {
            &&& occurs(decimal2(i as nat), drift_warning(t, docs, changes, i)[0])
            &&& occurs(decimal2((i + 1) as nat), drift_warning(t, docs, changes, i)[0])
            &&& occurs(changes[i - 1].gain_text@, drift_warning(t, docs, changes, i)[0])
            &&& occurs(changes[i - 1].similarity_text@, drift_warning(t, docs, changes, i)[0])
        },
{
    if drift_warning(t, docs, changes, i).len() > 0 {
        let none = Seq::<Seq<char>>::empty();
        let c = changes[i - 1];
        let p1 = none.push("Drift warning: iter"@);
        let p2 = p1.push(decimal2(i as nat));
        let p3 = p2.push("→iter"@);
        let p4 = p3.push(decimal2((i + 1) as nat));
        let p5 = p4.push(" score rose by "@);
        let p6 = p5.push(c.gain_text@);
        let p7 = p6.push(" but token Jaccard similarity is "@);
        let p8 = p7.push(c.similarity_text@);
        let e =
            " (below 0.3) → content may have changed drastically while only the score went up; manual copy review recommended"@;
        let p9 = p8.push(e);
        lemma_glued_push(none, "Drift warning: iter"@);
        lemma_glued_push(p1, decimal2(i as nat));
        lemma_glued_push(p2, "→iter"@);
        lemma_glued_push(p3, decimal2((i + 1) as nat));
        lemma_glued_push(p4, " score rose by "@);
        lemma_glued_push(p5, c.gain_text@);
        lemma_glued_push(p6, " but token Jaccard similarity is "@);
        lemma_glued_push(p7, c.similarity_text@);
        lemma_glued_push(p8, e);
        assert(p9[1] == decimal2(i as nat) && p9[3] == decimal2((i + 1) as nat) && p9[5]
            == c.gain_text@ && p9[7] == c.similarity_text@);
        lemma_glued(p9, 1);
        lemma_glued(p9, 3);
        lemma_glued(p9, 5);
        lemma_glued(p9, 7);
    }
}

/// Every draft but the first is compared with the one before it, in turn: what is said of one more
/// draft comes behind what is said of those before it.
pub proof fn lemma_drift_listed(
    t: Seq<Double>,
    docs: Seq<Seq<char>>,
    changes: Seq<Change>,
    n: nat,
    i: int,
)
    ensures
        drift_warnings(t, docs, changes, 1).len() == 0,
        n >= 1 ==> drift_warnings(t, docs, changes, n + 1) == drift_warnings(t, docs, changes, n)
            + drift_warning(t, docs, changes, n as int),
        1 <= i < n && drift_warning(t, docs, changes, i).len() > 0 ==> drift_warnings(
            t,
            docs,
            changes,
            n,
        ).contains(drift_warning(t, docs, changes, i)[0]),
    decreases n,
{
    if 1 <= i < n && drift_warning(t, docs, changes, i).len() > 0 {
        let m = (n - 1) as nat;
        let w = drift_warning(t, docs, changes, i)[0];
        let a = drift_warnings(t, docs, changes, m);
        let all = drift_warnings(t, docs, changes, n);
        assert(all == a + drift_warning(t, docs, changes, n - 1));
        if i < m {
            lemma_drift_listed(t, docs, changes, m, i);
            assert(all[a.index_of(w)] == w);
        } else {
            assert(all[a.len() as int] == w);
        }
    }
}

/// A loop warns of its length, of its last draft and of its drifts, of all of them and of nothing
/// else.
pub proof fn lemma_warnings(run: LoopRun, last_text: Seq<char>, growth: Growth, changes: Seq<Change>)
    ensures
        all_warnings(run, last_text, growth, changes) == length_warnings(
            run.scored()[0].metrics.total_chars as nat,
            run.scored()[best_of(totals(run.scored()))].metrics.total_chars as nat,
            growth,
        ) + last_warnings(best_of(totals(run.scored())), run.scored().len(), last_text)
            + drift_warnings(totals(run.scored()), run.drafts(), changes, run.drafts().len()),
        forall|i: int|
            0 <= i < run.scored().len() ==> (#[trigger] totals(run.scored())[i])
                == run.scored()[i].total,
{
}


/// What two texts have in common are the words that stand in both, each counted once, and what
/// they have together are those that stand in one of them.
pub proof fn lemma_similarity(a: Seq<char>, b: Seq<char>)
    ensures
        common(a, b) == words(a).to_set().intersect(words(b).to_set()).len(),
        together(a, b) == words(a).to_set().union(words(b).to_set()).len(),
{
}

} // verus!
