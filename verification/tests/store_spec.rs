use aso_loop::double::Double;
use aso_loop::store_spec::{
    check_file_size, default_emoji_max, default_true, Criterion, Section, Spec, SpecError, Store,
    DEFAULT_BANDS, MAX_SPEC_FILE_BYTES,
};

fn number(x: f64) -> Double {
    Double { bits: x.to_bits() }
}

fn section(id: &str, title: &str, max_chars: usize) -> Section {
    Section {
        id: id.to_string(),
        title: title.to_string(),
        guide: String::new(),
        max_chars,
        min_chars: 0,
        required: default_true(),
        keyword_dedup_target: false,
    }
}

fn criterion(id: &str, name: &str, weight: f64) -> Criterion {
    Criterion {
        id: id.to_string(),
        name: name.to_string(),
        weight: number(weight),
        share: "100".to_string(),
        guide: String::new(),
    }
}

fn spec(sections: Vec<Section>, criteria: Vec<Criterion>) -> Spec {
    Spec {
        name: "T".to_string(),
        store: Store::Apple,
        context: String::new(),
        scoring_source: String::new(),
        target_keywords: vec![],
        banned_terms: vec![],
        emoji_max: default_emoji_max(),
        angles: vec![],
        bands: vec![],
        sections,
        criteria,
    }
}

fn minimal() -> Vec<Section> {
    vec![section("title", "Title", 10)]
}

fn refusal(s: &Spec) -> String {
    match s.validate() {
        Ok(()) => panic!("must be rejected"),
        Err(e) => e.message("spec.toml"),
    }
}

#[test]
fn load_rejects_infinite_criterion_weight() {
    let s = spec(minimal(), vec![criterion("x", "x", f64::INFINITY)]);
    assert!(refusal(&s).contains("finite"));
}

#[test]
fn load_rejects_nan_criterion_weight() {
    let s = spec(minimal(), vec![criterion("x", "x", f64::NAN)]);
    assert!(s.validate().is_err());
}

#[test]
fn load_rejects_duplicate_normalized_section_title() {
    let s = spec(
        vec![section("promo_text", "Promo Text", 100), section("promotext2", "PromoText", 50)],
        vec![criterion("x", "x", 1.0)],
    );
    assert!(refusal(&s).contains("duplicate section title"));
}

#[test]
fn load_allows_distinct_normalized_section_titles() {
    let s = spec(
        vec![section("title", "Title", 10), section("subtitle", "Subtitle", 20)],
        vec![criterion("x", "x", 1.0)],
    );
    assert!(s.validate().is_ok());
}

#[test]
fn load_rejects_oversized_spec_file() {
    let err = check_file_size(MAX_SPEC_FILE_BYTES + 1).expect_err("oversized spec file must be rejected");
    assert!(err.message("spec.toml").contains("too large"));
    assert!(check_file_size(MAX_SPEC_FILE_BYTES).is_ok());
}

#[test]
fn load_rejects_empty_sections() {
    let s = spec(vec![], vec![criterion("x", "x", 1.0)]);
    assert!(refusal(&s).contains("sections is empty"));
}

#[test]
fn load_rejects_empty_criteria() {
    let s = spec(minimal(), vec![]);
    assert!(refusal(&s).contains("criteria is empty"));
}

#[test]
fn load_rejects_zero_max_chars() {
    let s = spec(vec![section("title", "Title", 0)], vec![criterion("x", "x", 1.0)]);
    assert!(refusal(&s).contains("max_chars"));
}

#[test]
fn load_rejects_duplicate_criteria_id() {
    let s = spec(minimal(), vec![criterion("x", "x", 1.0), criterion("x", "y", 1.0)]);
    assert!(refusal(&s).contains("duplicate criteria id"));
}

#[test]
fn load_rejects_duplicate_section_id() {
    let s = spec(
        vec![section("title", "Title", 10), section("title", "Subtitle", 20)],
        vec![criterion("x", "x", 1.0)],
    );
    assert!(refusal(&s).contains("duplicate section id"));
}

#[test]
fn load_rejects_invalid_regex_in_banned_terms() {
    let mut s = spec(minimal(), vec![criterion("x", "x", 1.0)]);
    s.banned_terms = vec!["(unclosed".to_string()];
    assert!(refusal(&s).contains("fail to compile"));
}

#[test]
fn every_refusal_has_its_text() {
    assert_eq!(
        SpecError::TooLarge(10_485_761).message("a/b.toml"),
        "Spec file too large (10485761 bytes, max 10485760 bytes): a/b.toml — not a plausible spec TOML file"
    );
    let mut s = spec(minimal(), vec![criterion("x", "x", -1.0)]);
    assert_eq!(refusal(&s), "all criteria weights must be finite and greater than 0");
    s.criteria[0].weight = number(0.0);
    assert_eq!(refusal(&s), "all criteria weights must be finite and greater than 0");
    s.criteria[0].weight = number(f64::MIN_POSITIVE);
    assert!(s.validate().is_ok());
    s.banned_terms = vec!["a+".to_string(), "[".to_string(), "*".to_string()];
    assert_eq!(
        refusal(&s),
        "banned_terms contains regex patterns that fail to compile: [, * — blocking this upfront since silently ignoring it would remove that banned-term check"
    );
    s.sections[0].max_chars = 0;
    assert_eq!(refusal(&s), "all sections' max_chars must be greater than 0");
    assert_eq!(
        SpecError::DuplicateTitle.message(""),
        "duplicate section title (after normalizing case/punctuation) — field_bodies() would silently alias two sections to the same document body"
    );
}

#[test]
fn stores_have_names() {
    assert_eq!(Store::Apple.label(), "Apple App Store");
    assert_eq!(Store::Google.label(), "Google Play");
}

#[test]
fn defaults() {
    assert!(default_true());
    assert_eq!(default_emoji_max(), 3);
}

#[test]
fn bands_fall_back_to_the_default_ones() {
    let mut s = spec(minimal(), vec![criterion("x", "x", 1.0)]);
    assert_eq!(s.bands_prompt(), DEFAULT_BANDS.join("\n"));
    s.bands = vec!["high".to_string(), "low".to_string()];
    assert_eq!(s.bands_prompt(), "high\nlow");
}

#[test]
fn fields_are_described() {
    let mut s = spec(
        vec![section("title", "Title", 30), section("promo", "Promo", 170)],
        vec![criterion("x", "x", 1.0)],
    );
    s.sections[0].guide = "short".to_string();
    s.sections[0].min_chars = 15;
    s.sections[1].required = false;
    assert_eq!(
        s.sections_prompt(),
        "## Title\n- Writing guide: short\n- Max 30 chars (recommended 15 chars or more)\n- Required field\n\n## Promo\n- Writing guide: \n- Max 170 chars\n- Optional field (may be left empty)"
    );
}

#[test]
fn criteria_are_described() {
    let mut s = spec(minimal(), vec![criterion("a", "Fit", 3.0), criterion("b", "Tone", 1.0)]);
    s.criteria[0].share = "75".to_string();
    s.criteria[0].guide = "fits".to_string();
    s.criteria[1].share = "25".to_string();
    assert_eq!(
        s.rubric_prompt(),
        "- id=\"a\" | Fit (weight 75%) : fits\n- id=\"b\" | Tone (weight 25%) : "
    );
}

#[test]
fn keywords_are_listed() {
    let mut s = spec(minimal(), vec![criterion("x", "x", 1.0)]);
    assert_eq!(s.keywords_prompt(), "(no target keywords specified)");
    s.target_keywords = vec!["a b".to_string(), "c".to_string()];
    assert_eq!(s.keywords_prompt(), "a b, c");
}

#[test]
fn titles_and_patterns_are_judged_last() {
    let s = spec(
        vec![section("a", "A", 10), section("b", "B", 10)],
        vec![criterion("x", "x", 1.0)],
    );
    let same = vec!["k".to_string(), "k".to_string()];
    let other = vec!["k".to_string(), "l".to_string()];
    let bad = vec!["(".to_string()];
    assert!(matches!(s.validate_with(&same, bad.clone()), Err(SpecError::DuplicateTitle)));
    assert!(matches!(s.validate_with(&other, bad), Err(SpecError::BadPatterns(v)) if v == vec!["(".to_string()]));
    assert!(s.validate_with(&other, vec![]).is_ok());
}
