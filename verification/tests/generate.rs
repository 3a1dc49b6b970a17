use aso_loop::double::Double;
use aso_loop::generate::{
    angles_for, build_prompt, build_revise_prompt, DEFAULT_ANGLES, DRAFT_RULES, REVISION_RULES, SYSTEM,
};
use aso_loop::store_spec::{Criterion, Section, Spec, Store};

fn spec() -> Spec {
    Spec {
        name: "Penny".to_string(),
        store: Store::Google,
        context: "A budget app.".to_string(),
        scoring_source: String::new(),
        target_keywords: vec!["budget".to_string()],
        banned_terms: vec![],
        emoji_max: 3,
        angles: vec![],
        bands: vec![],
        sections: vec![Section {
            id: "title".to_string(),
            title: "Title".to_string(),
            guide: "g".to_string(),
            max_chars: 30,
            min_chars: 0,
            required: true,
            keyword_dedup_target: false,
        }],
        criteria: vec![Criterion {
            id: "fit".to_string(),
            name: "Fit".to_string(),
            weight: Double { bits: 1.0f64.to_bits() },
            share: "100".to_string(),
            guide: "h".to_string(),
        }],
    }
}

#[test]
fn the_draft_prompt_holds_all_there_is_to_say() {
    let want = format!(
        "# Task\nWrite a draft of the app store listing copy according to the store specifications below.\n\n## Target Store: Google Play\n## App: Penny\nA budget app.\n\n## Differentiation Angle for This Draft\nbe brief\n\n## App Overview Material\nthe idea\n\n## Target Keywords (reflect as naturally as possible)\nbudget\n\n## Fields to Write\n## Title\n- Writing guide: g\n- Max 30 chars\n- Required field\n\n## Review Criteria (keep these in mind while writing)\n- id=\"fit\" | Fit (weight 100%) : h\n\n{}",
        DRAFT_RULES
    );
    assert_eq!(build_prompt(&spec(), "the idea", "be brief"), want);
}

#[test]
fn a_draft_without_an_angle_says_nothing_of_angles() {
    let p = build_prompt(&spec(), "i", "");
    assert!(!p.contains("Angle"));
    assert!(p.contains("A budget app.\n\n## App Overview Material\ni\n\n## Target Keywords"));
}

#[test]
fn the_revision_prompt_holds_draft_and_feedback() {
    let want = format!(
        "# Task\nImprove the listing copy draft below according to the review feedback and output the full revised text.\n\n## Target Store: Google Play\n## App: Penny\nA budget app.\n\n## App Overview Material\ni\n\n## Current Draft\nd\n\n## Review Feedback (must be reflected)\nf\n\n## Items with Particularly Low Scores\nw\n\n## Target Keywords\nbudget\n\n## Review Criteria\n- id=\"fit\" | Fit (weight 100%) : h\n\n## Field Structure and Character Limits to Maintain\n## Title\n- Writing guide: g\n- Max 30 chars\n- Required field\n\n{}",
        REVISION_RULES
    );
    assert_eq!(build_revise_prompt(&spec(), "i", "d", "f", "w"), want);
    let without = build_revise_prompt(&spec(), "i", "d", "f", "");
    assert!(without.contains("(must be reflected)\nf\n\n## Target Keywords\n"));
}

#[test]
fn the_rules_are_lists() {
    assert!(SYSTEM.starts_with("You are an ASO (App Store Optimization) copywriter deeply familiar with the listing rules"));
    assert_eq!(DRAFT_RULES.lines().count(), 6);
    assert!(DRAFT_RULES.lines().skip(1).all(|l| l.starts_with("- ")));
    assert_eq!(REVISION_RULES.lines().count(), 5);
    assert!(REVISION_RULES.contains("within the limit; substantively replace weak sentences instead.\n"));
}

#[test]
fn default_angles_start_again_where_they_run_out() {
    let s = spec();
    let eight = angles_for(&s, 8);
    assert_eq!(eight.len(), 8);
    assert_eq!(eight[0], DEFAULT_ANGLES[0]);
    assert_eq!(eight[5], DEFAULT_ANGLES[5]);
    assert_eq!(eight[6], eight[0]);
    assert_eq!(eight[7], eight[1]);
}

#[test]
fn too_few_angles_are_filled_up_with_default_ones() {
    let mut s = spec();
    s.angles = vec!["A".to_string()];
    assert_eq!(angles_for(&s, 2), vec!["A".to_string(), DEFAULT_ANGLES[0].to_string()]);
    s.angles = vec!["x".to_string(), "y".to_string()];
    assert_eq!(
        angles_for(&s, 4),
        vec![
            "x".to_string(),
            "y".to_string(),
            DEFAULT_ANGLES[0].to_string(),
            DEFAULT_ANGLES[1].to_string(),
        ]
    );
    assert_eq!(angles_for(&s, 1), vec!["x".to_string()]);
    assert_eq!(angles_for(&s, 9)[8], DEFAULT_ANGLES[0]);
    assert!(angles_for(&s, 0).is_empty());
}
