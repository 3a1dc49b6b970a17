use aso_loop::double::{extremes, kept_scores, rank, Double};
use aso_loop::json::Json;
use aso_loop::schema::judge_schema;
use aso_loop::score::{
    assemble, assemble_with, build_judge_prompt, by_criterion, collect_all, collect_scores, feedback_text, lined_up,
    try_assemble, weak_points, CriterionScore, Findings, JudgeResult, Numbers, Panel, ScoreError, JUDGE_SYSTEM, LENSES,
};
use aso_loop::store_spec::{Criterion, Section, Spec, Store, DEFAULT_BANDS};

fn number(x: f64) -> Double {
    Double { bits: x.to_bits() }
}

fn numbers(v: &[f64]) -> Vec<Double> {
    v.iter().map(|x| number(*x)).collect()
}

fn floats(v: &[Double]) -> Vec<f64> {
    v.iter().map(|x| f64::from_bits(x.bits)).collect()
}

fn criterion(id: &str, name: &str) -> Criterion {
    Criterion {
        id: id.to_string(),
        name: name.to_string(),
        weight: number(1.0),
        share: "33".to_string(),
        guide: "g".to_string(),
    }
}

fn spec() -> Spec {
    Spec {
        name: "Penny".to_string(),
        store: Store::Apple,
        context: "ctx".to_string(),
        scoring_source: String::new(),
        target_keywords: vec![],
        banned_terms: vec![],
        emoji_max: 3,
        angles: vec![],
        bands: vec![],
        sections: vec![Section {
            id: "title".to_string(),
            title: "Title".to_string(),
            guide: String::new(),
            max_chars: 30,
            min_chars: 0,
            required: true,
            keyword_dedup_target: false,
        }],
        criteria: vec![criterion("b", "Bold"), criterion("a", "Apt"), criterion("c", "Clear")],
    }
}

fn answer(scores: &[(&str, f64)], improvements: &[&str], comment: &str) -> JudgeResult {
    JudgeResult {
        winning_conditions: vec![],
        criteria: scores
            .iter()
            .map(|(id, x)| CriterionScore {
                id: id.to_string(),
                evidence: String::new(),
                why_not_higher: String::new(),
                score: number(*x),
            })
            .collect(),
        improvements: improvements.iter().map(|s| s.to_string()).collect(),
        comment: comment.to_string(),
    }
}

fn trimmed_mean(v: &[f64]) -> f64 {
    let kept = floats(&kept_scores(&numbers(v)));
    if kept.is_empty() {
        0.0
    } else {
        kept.iter().sum::<f64>() / kept.len() as f64
    }
}

#[test]
fn trimmed_mean_drops_outliers() {
    assert_eq!(trimmed_mean(&[70.0, 72.0, 74.0, 100.0]), 73.0);
    assert_eq!(trimmed_mean(&[80.0]), 80.0);
    assert!((trimmed_mean(&[70.0, 80.0]) - 75.0).abs() < 1e-9);
}

#[test]
fn the_kept_scores_ascend() {
    assert_eq!(floats(&kept_scores(&numbers(&[9.0, 1.0, 5.0, 3.0, 1.0]))), vec![1.0, 3.0, 5.0]);
    assert_eq!(floats(&kept_scores(&numbers(&[9.0, 1.0, 5.0]))), vec![9.0, 1.0, 5.0]);
    assert!(kept_scores(&vec![]).is_empty());
}

#[test]
fn numbers_are_ordered_as_floats_are() {
    let v = [0.0, -0.0, 1.5, -1.5, 100.0, f64::INFINITY, f64::NEG_INFINITY, f64::NAN, 1e-300, -1e300];
    for x in v {
        for y in v {
            assert_eq!(number(x).is_less(number(y)), x < y, "{} {}", x, y);
            assert_eq!(number(x).is_at_most(number(y)), x <= y, "{} {}", x, y);
        }
        assert_eq!(number(x).is_nan(), x.is_nan());
        assert_eq!(number(x).is_finite(), x.is_finite());
        if !x.is_nan() {
            assert_eq!(f64::from_bits(number(x).clamp_score().bits), x.clamp(0.0, 100.0));
        }
    }
    assert!(number(f64::NAN).clamp_score().is_nan());
}

#[test]
fn ranks_keep_the_order_of_equal_numbers() {
    assert_eq!(rank(&numbers(&[3.0, 1.0, 3.0, -2.0, 1.0])), vec![3, 1, 4, 0, 2]);
}

#[test]
fn extremes_pass_over_what_is_no_number() {
    assert!(extremes(&vec![]).is_none());
    let (lo, hi) = extremes(&numbers(&[60.0, f64::NAN, 90.0, 75.0])).unwrap();
    assert_eq!(f64::from_bits(lo.bits), 60.0);
    assert_eq!(f64::from_bits(hi.bits), 90.0);
}

#[test]
fn the_judge_prompt_holds_lens_and_document() {
    let want = format!(
        "# Task\nScore the submitted app store listing copy against the judging criteria.\n\n## Target store: Apple App Store\n## App: Penny\nctx\n\n## This judge's lens\nlook\n\n## Target keywords\n(no target keywords specified)\n\n## Judging criteria (each item scored 0-100, integer)\n- id=\"b\" | Bold (weight 33%) : g\n- id=\"a\" | Apt (weight 33%) : g\n- id=\"c\" | Clear (weight 33%) : g\n\n## Score band criteria\n{}\n\n## Procedure\n1. Before scoring the document, first write 3-6 'conditions this listing must meet' in winning_conditions.\n2. Then score each criterion. For each item, directly quote the source document in evidence, and state in why_not_higher why a higher score was not given.\n3. If you cannot find evidence to quote, that item cannot exceed 60 points.\n4. Exceeding the character limit, missing required fields, and use of banned words are handled by separate automated checks, so do not factor them into scoring — evaluate copy quality only.\n\n## Document to score\n<document>\nd\n</document>\n",
        DEFAULT_BANDS.join("\n")
    );
    assert_eq!(build_judge_prompt(&spec(), "d", "look"), want);
    assert!(JUDGE_SYSTEM.ends_with("so evaluate content quality only."));
}

fn member<'a>(j: &'a Json, name: &str) -> &'a Json {
    match j {
        Json::Object(v) => &v.iter().find(|m| m.0 == name).unwrap().1,
        _ => panic!("no object"),
    }
}

fn member_names(j: &Json) -> Vec<&str> {
    match j {
        Json::Object(v) => v.iter().map(|m| m.0.as_str()).collect(),
        _ => panic!("no object"),
    }
}

fn texts(j: &Json) -> Vec<&str> {
    match j {
        Json::List(v) => v
            .iter()
            .map(|x| match x {
                Json::Text(s) => s.as_str(),
                _ => panic!("no text"),
            })
            .collect(),
        _ => panic!("no list"),
    }
}

#[test]
fn the_schema_asks_for_conditions_before_scores() {
    let schema = judge_schema(&spec());
    assert_eq!(member_names(&schema), vec!["type", "properties", "required", "additionalProperties"]);
    let properties = member(&schema, "properties");
    assert_eq!(
        member_names(properties),
        vec!["winning_conditions", "criteria", "improvements", "comment"]
    );
    let criteria = member(properties, "criteria");
    assert!(matches!(member(criteria, "minItems"), Json::Number(3)));
    let item = member(criteria, "items");
    assert_eq!(texts(member(item, "required")), vec!["id", "evidence", "why_not_higher", "score"]);
    let id = member(member(item, "properties"), "id");
    assert_eq!(texts(member(id, "enum")), vec!["b", "a", "c"]);
    let points = member(member(item, "properties"), "score");
    assert!(matches!(member(points, "minimum"), Json::Number(0)));
    assert!(matches!(member(points, "maximum"), Json::Number(100)));
    assert!(matches!(member(item, "additionalProperties"), Json::Flag(false)));
    assert!(matches!(member(member(properties, "improvements"), "maxItems"), Json::Number(8)));
}

#[test]
fn judges_and_lenses_take_turns() {
    let s = spec();
    let mut panel = Panel::convene(2, 7).unwrap();
    let mut asked = vec![];
    while let Some(q) = panel.next(&s, "doc") {
        let i = asked.len();
        assert_eq!(q.prompt, build_judge_prompt(&s, "doc", LENSES[i % 6]));
        assert!(matches!(panel.failure(), ScoreError::RoundFailed(n) if n == i + 1));
        asked.push(q.judge);
        panel.record(answer(&[], &[], ""), format!("m{}", q.judge));
    }
    assert_eq!(asked, vec![0, 1, 0, 1, 0, 1, 0]);
    assert_eq!(Panel::convene(1, 0).unwrap().rounds(), 1);
}

#[test]
fn without_judges_there_is_no_panel() {
    let e = Panel::convene(0, 3).unwrap_err();
    assert_eq!(e.message("iter01"), "No judge models available");
    assert_eq!(ScoreError::RoundFailed(2).message("iter01"), "Scoring failed (iter01, round 2)");
    assert_eq!(ScoreError::Mismatch.message("iter01"), "Score result schema mismatch (iter01)");
}

#[test]
fn scores_are_collected_and_moved_into_range() {
    let results = vec![
        answer(&[("a", 120.0), ("a", 5.0), ("b", 50.0)], &[], ""),
        answer(&[("b", -3.0)], &[], ""),
        answer(&[("a", 70.5)], &[], ""),
    ];
    assert_eq!(floats(&collect_scores(&results, "a")), vec![100.0, 70.5]);
    assert_eq!(floats(&collect_scores(&results, "b")), vec![50.0, 0.0]);
    assert!(collect_scores(&results, "z").is_empty());
    let all = collect_all(&spec(), &results);
    assert_eq!(all.len(), 3);
    assert_eq!(floats(&all[0]), vec![50.0, 0.0]);
    assert_eq!(floats(&all[1]), vec![100.0, 70.5]);
    assert!(all[2].is_empty());
}

#[test]
fn values_are_bound_to_criteria() {
    let s = spec();
    let map = by_criterion(&s, &numbers(&[1.0, 2.0, 3.0]));
    assert_eq!(map.key(0), "a");
    assert_eq!(f64::from_bits(map.get("c").unwrap().bits), 3.0);
    assert_eq!(floats(&lined_up(&s, &map)), vec![1.0, 2.0, 3.0]);
    let mut fewer = spec();
    fewer.criteria.truncate(1);
    let small = by_criterion(&fewer, &numbers(&[4.0]));
    assert_eq!(floats(&lined_up(&s, &small)), vec![4.0, 0.0, 0.0]);
}

fn scored(comments: bool) -> aso_loop::score::Scored {
    let s = spec();
    let mut panel = Panel::convene(1, 2).unwrap();
    let (one, two) = if comments { ("fine", "so so") } else { ("", "") };
    panel.record(answer(&[("a", 80.0), ("b", 60.0)], &[" fix it ", "", "shorten"], one), "m1".to_string());
    panel.record(answer(&[("a", 90.0)], &["shorten", "add more"], two), "m2".to_string());
    let n = Numbers {
        means: numbers(&[60.0, 85.0, 0.0]),
        spreads: numbers(&[0.0, 10.0, 0.0]),
        total: number(48.3),
    };
    assemble(&s, "cand01", "## Title\nbest app\n", None, &panel, &n)
}

#[test]
fn a_scored_document_holds_rules_and_answers() {
    let r = scored(true);
    let hit = "banned expression detected — superlative expression: \"best\" → needs to be replaced (trademark/false-advertising risk)".to_string();
    assert_eq!(r.label, "cand01");
    assert_eq!(f64::from_bits(r.total.bits), 48.3);
    assert_eq!(f64::from_bits(r.per_criterion.get("a").unwrap().bits), 85.0);
    assert_eq!(floats(r.raw.get("a").unwrap()), vec![80.0, 90.0]);
    assert_eq!(floats(r.raw.get("c").unwrap()), Vec::<f64>::new());
    assert_eq!(f64::from_bits(r.spread.get("a").unwrap().bits), 10.0);
    assert!(r.missing_fields.is_empty());
    assert_eq!(r.format_issues, vec![hit.clone()]);
    assert_eq!(r.metrics.total_chars, 8);
    assert_eq!(
        r.improvements,
        vec![
            hit,
            "[Scoring warning] Judges never returned a score for the following items, so they were scored as 0 (re-scoring recommended): c".to_string(),
            "fix it".to_string(),
            "shorten".to_string(),
            "add more".to_string(),
        ]
    );
    assert_eq!(r.comments, vec!["fine".to_string(), "so so".to_string()]);
    assert_eq!(r.rounds, 2);
    assert_eq!(r.models, vec!["m1".to_string(), "m2".to_string()]);
    let again = r.again();
    assert_eq!(again.improvements, r.improvements);
    assert_eq!(floats(again.raw.get("a").unwrap()), vec![80.0, 90.0]);
}

#[test]
fn feedback_lists_improvements_and_comments_but_no_score() {
    let mut r = scored(true);
    r.improvements = vec!["one".to_string(), "two".to_string()];
    let want = "[Revisions that must be applied]\n- one\n- two\n\n[Judges' overall comments]\n- fine\n- so so\n";
    assert_eq!(feedback_text(&r), want);
    r.total = number(99.0);
    assert_eq!(feedback_text(&r), want);
    r.comments.clear();
    assert_eq!(feedback_text(&r), "[Revisions that must be applied]\n- one\n- two\n");
}

#[test]
fn the_two_weakest_criteria_are_shown() {
    let s = spec();
    let mut r = scored(true);
    let shown = vec!["60".to_string(), "85".to_string(), "0".to_string()];
    assert_eq!(weak_points(&s, &r, &shown), "- Clear : 0/100\n- Bold : 60/100");
    r.per_criterion = by_criterion(&s, &numbers(&[7.0, 7.0, 7.0]));
    let same = vec!["7".to_string(), "7".to_string(), "7".to_string()];
    assert_eq!(weak_points(&s, &r, &same), "- Bold : 7/100\n- Apt : 7/100");
}

#[test]
fn a_panel_that_is_not_done_has_no_outcome() {
    let s = spec();
    let n = Numbers {
        means: numbers(&[60.0, 85.0, 0.0]),
        spreads: numbers(&[0.0, 10.0, 0.0]),
        total: number(48.3),
    };
    let few = Numbers { means: vec![], spreads: vec![], total: number(0.0) };
    let mut panel = Panel::convene(1, 1).unwrap();
    assert!(try_assemble(&s, "l", "## Title\nx\n", None, &panel, &n).is_none());
    panel.record(answer(&[("a", 80.0)], &[], "ok"), "m".to_string());
    assert!(try_assemble(&s, "l", "## Title\nx\n", None, &panel, &few).is_none());
    let r = try_assemble(&s, "l", "## Title\nx\n", None, &panel, &n).unwrap();
    assert_eq!(r.comments, vec!["ok".to_string()]);
    assert_eq!(r.rounds, 1);
}

#[test]
fn findings_and_answers_are_put_together() {
    let s = spec();
    let mut panel = Panel::convene(1, 1).unwrap();
    panel.record(
        answer(&[("a", 80.0), ("b", 1.0), ("c", 2.0)], &["issue", " more "], "ok"),
        "m".to_string(),
    );
    let n = Numbers {
        means: numbers(&[1.0, 80.0, 2.0]),
        spreads: numbers(&[0.0, 0.0, 0.0]),
        total: number(27.7),
    };
    let findings = Findings {
        missing_fields: vec!["F".to_string()],
        format_issues: vec!["issue".to_string()],
        metrics: aso_loop::checks::Metrics::default(),
    };
    let r = assemble_with(&s, "l", findings, &panel, &n);
    assert_eq!(r.missing_fields, vec!["F".to_string()]);
    assert_eq!(r.improvements, vec!["issue".to_string(), "more".to_string()]);
}

#[test]
fn the_order_of_scores_does_not_matter() {
    let want = vec![60.0, 70.0, 70.0];
    for v in [
        [50.0, 60.0, 70.0, 70.0, 90.0],
        [90.0, 70.0, 50.0, 70.0, 60.0],
        [70.0, 50.0, 90.0, 60.0, 70.0],
        [70.0, 50.0, 100.0, 60.0, 70.0],
    ] {
        assert_eq!(floats(&kept_scores(&numbers(&v))), want);
    }
    assert_eq!(floats(&kept_scores(&numbers(&[5.0, 5.0, 5.0, 5.0]))), vec![5.0, 5.0]);
}
