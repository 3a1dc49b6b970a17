use aso_loop::checks::Metrics;
use aso_loop::double::Double;
use aso_loop::generate::build_revise_prompt;
use aso_loop::loop_run::{
    finish, iteration_label, progress_line, Change, Growth, LoopCfg, LoopRun, Stop, Verdict,
};
use aso_loop::score::{by_criterion, feedback_text, weak_points, Scored};
use aso_loop::similarity;
use aso_loop::sorted::SortedMap;
use aso_loop::store_spec::{Criterion, Section, Spec, Store};

fn number(x: f64) -> Double {
    Double { bits: x.to_bits() }
}

fn spec() -> Spec {
    Spec {
        name: "Penny".to_string(),
        store: Store::Apple,
        context: String::new(),
        scoring_source: String::new(),
        target_keywords: vec![],
        banned_terms: vec![],
        emoji_max: 3,
        angles: vec![],
        bands: vec![],
        sections: vec![Section {
            id: "title".to_string(),
            title: "Title".to_string(),
            guide: String::new(),
            max_chars: 30,
            min_chars: 0,
            required: true,
            keyword_dedup_target: false,
        }],
        criteria: vec![Criterion {
            id: "a".to_string(),
            name: "Apt".to_string(),
            weight: number(1.0),
            share: "100".to_string(),
            guide: String::new(),
        }],
    }
}

fn scored(label: &str, total: f64, chars: usize, issues: usize) -> Scored {
    let metrics = Metrics { total_chars: chars, ..Metrics::default() };
    Scored {
        label: label.to_string(),
        total: number(total),
        per_criterion: by_criterion(&spec(), &vec![number(total)]),
        raw: SortedMap::new(),
        spread: SortedMap::new(),
        missing_fields: vec![],
        format_issues: vec!["issue".to_string(); issues],
        metrics,
        improvements: vec!["more".to_string()],
        comments: vec![],
        rounds: 1,
        models: vec![],
    }
}

fn cfg(target: f64, max_iter: usize, min_delta: f64, patience: usize) -> LoopCfg {
    LoopCfg {
        target: number(target),
        target_text: format!("{:.0}", target),
        max_iter,
        rounds: 1,
        min_delta: number(min_delta),
        min_delta_text: format!("{:.1}", min_delta),
        patience,
    }
}

fn record(run: &mut LoopRun, cfg: &LoopCfg, doc: &str, s: Scored) -> Verdict {
    let gain = match run.best_total() {
        Some(b) => f64::from_bits(s.total.bits) - f64::from_bits(b.bits),
        None => f64::INFINITY,
    };
    run.record(cfg, doc.to_string(), s, number(gain))
}

fn jaccard_similarity(a: &str, b: &str) -> f64 {
    let s = similarity::jaccard_similarity(a, b);
    if s.all() == 0 {
        1.0
    } else {
        s.common as f64 / s.all() as f64
    }
}

#[test]
fn jaccard_similarity_identical_is_one() {
    assert_eq!(jaccard_similarity("budget expense-tracker app", "budget expense-tracker app"), 1.0);
}

#[test]
fn jaccard_similarity_disjoint_is_zero() {
    assert_eq!(jaccard_similarity("budget expense-tracker", "totally different document"), 0.0);
}

#[test]
fn jaccard_similarity_partial_overlap() {
    let sim = jaccard_similarity("budget expense-tracker app", "budget expense-tracker full-edition");
    assert!((sim - 0.5).abs() < 1e-9, "{sim}");
}

#[test]
fn words_are_counted_once() {
    let s = similarity::jaccard_similarity("a b\ta\n b c", "c  d");
    assert_eq!((s.common, s.first_only, s.second_only), (1, 2, 1));
    let t = similarity::jaccard_similarity("c d", "a b a b c");
    assert_eq!(t.common, s.common);
    assert_eq!(t.all(), s.all());
    assert_eq!(jaccard_similarity(" ", ""), 1.0);
    assert!(!similarity::jaccard_similarity("", "").is_low());
    assert!(!similarity::jaccard_similarity("a b c d e f", "a b c g h i j").is_low());
    assert!(similarity::jaccard_similarity("a b c d e f", "a b c g h i j k").is_low());
}

#[test]
fn labels_have_two_digits_at_least() {
    assert_eq!(iteration_label(1), "iter01");
    assert_eq!(iteration_label(12), "iter12");
    assert_eq!(iteration_label(123), "iter123");
}

#[test]
fn progress_is_shown_on_a_line() {
    assert_eq!(progress_line(&scored("iter01", 71.26, 120, 0), "71.3"), "  [iter01] 71.3/100  (120 chars)");
    assert_eq!(
        progress_line(&scored("iter02", 71.26, 9, 2), "71.3"),
        "  [iter02] 71.3/100  (9 chars, 2 format issue(s))"
    );
}

#[test]
fn the_loop_stops_at_a_clean_target() {
    let c = cfg(85.0, 5, 1.0, 3);
    let mut run = LoopRun::new();
    assert!(run.best_total().is_none());
    assert_eq!(record(&mut run, &c, "a", scored("iter01", 90.0, 10, 1)), Verdict::Revise);
    assert_eq!(record(&mut run, &c, "b", scored("iter02", 85.0, 10, 0)), Verdict::Stop(Stop::Target));
    assert_eq!(run.best(), 0);
    assert_eq!(c.stop_reason(Stop::Target), "Reached target score 85");
}

#[test]
fn the_loop_stops_where_it_stalls() {
    let c = cfg(99.0, 10, 2.0, 2);
    let mut run = LoopRun::new();
    assert_eq!(record(&mut run, &c, "a", scored("iter01", 50.0, 10, 0)), Verdict::Revise);
    assert_eq!(record(&mut run, &c, "b", scored("iter02", 51.0, 10, 0)), Verdict::Revise);
    assert_eq!((run.best(), run.stall()), (1, 1));
    assert_eq!(record(&mut run, &c, "c", scored("iter03", 54.0, 10, 0)), Verdict::Revise);
    assert_eq!((run.best(), run.stall()), (2, 0));
    assert_eq!(record(&mut run, &c, "d", scored("iter04", 54.0, 10, 0)), Verdict::Revise);
    assert_eq!(record(&mut run, &c, "e", scored("iter05", 40.0, 10, 0)), Verdict::Stop(Stop::Stalled));
    assert_eq!((run.best(), run.stall()), (2, 2));
    assert_eq!(
        c.stop_reason(Stop::Stalled),
        "Improvement stalled (2 consecutive times below +2.0 points)"
    );
    let impatient = cfg(99.0, 10, 2.0, 0);
    let mut other = LoopRun::new();
    assert_eq!(
        record(&mut other, &impatient, "a", scored("iter01", 50.0, 10, 0)),
        Verdict::Stop(Stop::Stalled)
    );
}

#[test]
fn the_loop_stops_after_the_last_draft() {
    let c = cfg(99.0, 2, 0.0, 9);
    let mut run = LoopRun::new();
    assert_eq!(record(&mut run, &c, "a", scored("iter01", 50.0, 10, 0)), Verdict::Revise);
    assert_eq!(
        record(&mut run, &c, "b", scored("iter02", 60.0, 10, 0)),
        Verdict::Stop(Stop::MaxIterations)
    );
    assert_eq!(c.stop_reason(Stop::MaxIterations), "Reached max iterations (2)");
    let none = cfg(99.0, 0, 0.0, 9);
    assert_eq!(none.max_drafts(), 1);
    let mut once = LoopRun::new();
    assert_eq!(
        record(&mut once, &none, "a", scored("iter01", 50.0, 10, 0)),
        Verdict::Stop(Stop::MaxIterations)
    );
    assert_eq!(none.stop_reason(Stop::MaxIterations), "Reached max iterations (1)");
}

#[test]
fn the_revision_tells_what_was_found() {
    let s = spec();
    let c = cfg(99.0, 5, 0.0, 9);
    let mut run = LoopRun::new();
    record(&mut run, &c, "the draft", scored("iter01", 50.0, 10, 0));
    let shown = vec!["50".to_string()];
    let last = &run.history()[0];
    assert_eq!(
        run.revision(&s, "idea", &shown),
        build_revise_prompt(&s, "idea", "the draft", &feedback_text(last), &weak_points(&s, last, &shown))
    );
}

fn growth(gain: f64) -> Growth {
    Growth {
        gain: number(gain),
        gain_text: format!("{:.1}", gain),
        growth_text: "30".to_string(),
    }
}

fn change(gain: f64, sim: f64) -> Change {
    Change {
        gain_text: format!("{:+.1}", gain),
        similarity_text: format!("{:.2}", sim),
    }
}

#[test]
fn the_best_draft_is_kept_and_warnings_are_given() {
    let c = cfg(99.0, 3, 0.0, 9);
    let mut run = LoopRun::new();
    record(&mut run, &c, "a b c", scored("iter01", 50.0, 100, 0));
    record(&mut run, &c, "x y z", scored("iter02", 53.0, 130, 0));
    record(&mut run, &c, "x y w", scored("iter03", 52.0, 90, 0));
    let out = finish(
        run,
        &c,
        Stop::MaxIterations,
        "52.0",
        &growth(3.0),
        &vec![change(3.0, 0.0), change(-1.0, 0.5)],
    );
    assert_eq!(out.best_label, "iter02");
    assert_eq!(out.best_doc, "x y z");
    assert_eq!(out.first_doc, "a b c");
    assert_eq!(out.best_score.metrics.total_chars, 130);
    assert_eq!(out.history.len(), 3);
    assert_eq!(out.stop_reason, "Reached max iterations (3)");
    assert_eq!(
        out.warnings,
        vec![
            "Length canary: total chars +30% but score only +3.0 → may be padding rather than content improvement".to_string(),
            "Last iteration (52.0 points) is not the best score → best.md is iter02".to_string(),
            "Drift warning: iter01→iter02 score rose by +3.0 but token Jaccard similarity is 0.00 (below 0.3) → content may have changed drastically while only the score went up; manual copy review recommended".to_string(),
        ]
    );
}

#[test]
fn a_quarter_more_or_five_points_more_is_no_reason_to_warn() {
    for (chars, gain, warned) in [(125, 4.9, false), (126, 4.9, true), (126, 5.0, false), (80, 0.0, false)] {
        let c = cfg(99.0, 2, 0.0, 9);
        let mut run = LoopRun::new();
        record(&mut run, &c, "a b", scored("iter01", 50.0, 100, 0));
        record(&mut run, &c, "a b", scored("iter02", 50.0 + gain + 0.001, chars, 0));
        let out = finish(run, &c, Stop::MaxIterations, "", &growth(gain), &vec![change(gain, 1.0)]);
        assert_eq!(!out.warnings.is_empty(), warned, "{} {}", chars, gain);
    }
}

#[test]
fn of_equal_scores_the_first_is_best() {
    let c = cfg(99.0, 9, 0.0, 9);
    let mut run = LoopRun::new();
    for (label, total) in [("iter01", 50.0), ("iter02", 70.0), ("iter03", 70.0)] {
        record(&mut run, &c, label, scored(label, total, 10, 0));
    }
    assert_eq!(run.best(), 1);
    let out = finish(
        run,
        &c,
        Stop::Stalled,
        "70.0",
        &growth(20.0),
        &vec![change(20.0, 0.0), change(0.0, 0.0)],
    );
    assert_eq!(out.best_label, "iter02");
    assert_eq!(out.warnings.len(), 2);
}

#[test]
fn drift_goes_by_the_scores_of_the_drafts() {
    for (later, warned) in [(49.0, false), (50.0, false), (50.1, true)] {
        let c = cfg(99.0, 2, 0.0, 9);
        let mut run = LoopRun::new();
        record(&mut run, &c, "a b", scored("iter01", 50.0, 10, 0));
        record(&mut run, &c, "c d", scored("iter02", later, 10, 0));
        assert_eq!(run.docs().len(), 2);
        let out = finish(run, &c, Stop::MaxIterations, "", &growth(0.0), &vec![change(0.1, 0.0)]);
        assert_eq!(out.warnings.iter().any(|w| w.starts_with("Drift warning")), warned);
    }
}
