use aso_loop::checks::{
    assign_bodies, count_emojis, factual_claim_issues, field_bodies, field_lengths, find_keywords,
    format_issues, is_countable, is_emoji, list_issues, metrics, missing_required, norm_head,
    normalize_keyword, normalize_text_for_match, sanitize_keywords, single_spaced, split_sections,
    try_format_issues, try_metrics, Metrics,
};
use aso_loop::double::Double;
use aso_loop::phrases::{
    banned_hits, compile_all, default_claim_patterns, default_price_patterns,
    default_superlative_patterns, report_claims, report_hits,
};
use aso_loop::store_spec::{Criterion, Section, Spec, Store};

fn section(id: &str, title: &str, max_chars: usize) -> Section {
    Section {
        id: id.to_string(),
        title: title.to_string(),
        guide: String::new(),
        max_chars,
        min_chars: 0,
        required: true,
        keyword_dedup_target: true,
    }
}

fn test_spec() -> Spec {
    Spec {
        name: "Test".to_string(),
        store: Store::Apple,
        context: String::new(),
        scoring_source: String::new(),
        target_keywords: vec!["가계부".to_string(), "지출관리".to_string()],
        banned_terms: vec!["뱅크샐러드".to_string()],
        emoji_max: 1,
        angles: vec![],
        bands: vec![],
        sections: vec![section("title", "Title", 10), section("subtitle", "Subtitle", 10)],
        criteria: vec![Criterion {
            id: "x".to_string(),
            name: "x".to_string(),
            weight: Double { bits: 1.0f64.to_bits() },
            share: "100".to_string(),
            guide: String::new(),
        }],
    }
}

#[test]
fn normalize_text_for_match_strips_punct_and_lowers() {
    assert_eq!(normalize_text_for_match("Hello, World!!"), "hello world");
    assert_eq!(normalize_text_for_match("가계부  #1  앱"), "가계부 1 앱");
}

#[test]
fn sanitize_keywords_dedups_case_insensitively() {
    let v = vec![
        "Budget".to_string(),
        " budget ".to_string(),
        "Tracker".to_string(),
    ];
    assert_eq!(
        sanitize_keywords(&v),
        vec!["budget".to_string(), "tracker".to_string()]
    );
}

#[test]
fn format_issues_flags_overlength_and_missing_and_coverage() {
    let spec = test_spec();
    let doc = "## Title\n가계부 지출관리 완전정복판\n";
    let issues = format_issues(&spec, doc, None);
    assert!(issues.iter().any(|i| i.contains("Title") && i.contains("exceeds")));
    assert!(issues.iter().any(|i| i.contains("Subtitle") && i.contains("missing")));
}

#[test]
fn format_issues_flags_duplicate_keyword() {
    let spec = test_spec();
    let doc = "## Title\n가계부\n## Subtitle\n가계부 앱\n";
    let issues = format_issues(&spec, doc, None);
    assert!(issues.iter().any(|i| i.contains("duplicate")));
}

#[test]
fn format_issues_flags_banned_term() {
    let spec = test_spec();
    let doc = "## Title\n뱅크샐러드 대비 더 쉬운 가계부\n## Subtitle\n간편 가계부\n";
    let issues = format_issues(&spec, doc, None);
    assert!(
        issues.iter().any(|i| i.contains("banned expression") && i.contains("뱅크샐러드")),
        "{issues:?}"
    );
}

#[test]
fn norm_head_is_case_insensitive() {
    assert_eq!(norm_head("## Title"), norm_head("## TITLE"));
}

#[test]
fn factual_claim_issues_flags_claim_absent_from_brief() {
    let doc = "## Title\n가계부\n## Subtitle\n누적 10만+ 다운로드 달성\n";
    let brief = "간편한 가계부 앱. 지출을 자동으로 분류해준다.";
    let issues = factual_claim_issues(doc, Some(brief));
    assert!(
        issues.iter().any(|i| i.contains("factual consistency") && i.contains("10만")),
        "{issues:?}"
    );
}

#[test]
fn factual_claim_issues_passes_when_claim_present_in_brief() {
    let doc = "## Title\n가계부\n## Subtitle\n누적 10만+ 다운로드 달성\n";
    let brief = "이 앱은 누적 10만+ 다운로드를 기록한 인기 가계부 앱이다.";
    let issues = factual_claim_issues(doc, Some(brief));
    assert!(issues.is_empty(), "{issues:?}");
}

#[test]
fn factual_claim_issues_skipped_without_brief() {
    let doc = "## Title\n가계부\n## Subtitle\n누적 10만+ 다운로드 달성\n";
    assert!(factual_claim_issues(doc, None).is_empty());
}

#[test]
fn format_issues_boundary_exact_max_chars_ok_but_plus_one_fails() {
    let spec = test_spec();
    let ok_doc = "## Title\n1234567890\n## Subtitle\nab\n";
    let issues_ok = format_issues(&spec, ok_doc, None);
    assert!(
        !issues_ok.iter().any(|i| i.contains("Title") && i.contains("exceeds")),
        "{issues_ok:?}"
    );

    let over_doc = "## Title\n12345678901\n## Subtitle\nab\n";
    let issues_over = format_issues(&spec, over_doc, None);
    assert!(
        issues_over.iter().any(|i| i.contains("Title") && i.contains("exceeds")),
        "{issues_over:?}"
    );
}

#[test]
fn metrics_counts_keyword_coverage() {
    let spec = test_spec();
    let doc = "## Title\n가계부\n## Subtitle\n지출관리 완벽\n";
    let m = metrics(&spec, doc);
    assert_eq!(m.keyword_coverage, 2);
    assert_eq!(m.keyword_total, 2);
}

#[test]
fn headings_compare_by_letters_and_digits() {
    assert_eq!(norm_head("## Promo-Text 2"), "promotext2");
    assert_eq!(norm_head("짧은 설명"), "짧은설명");
    assert_eq!(norm_head("***"), "");
}

#[test]
fn sections_are_split_at_headings() {
    let doc = "intro\r\n# One \n a\n\nb\n  ### Two\n#\nc";
    let want = vec![
        ("".to_string(), "intro\n".to_string()),
        ("One".to_string(), " a\n\nb\n".to_string()),
        ("Two".to_string(), "".to_string()),
        ("".to_string(), "c\n".to_string()),
    ];
    assert_eq!(split_sections(doc), want);
    assert!(split_sections("").is_empty());
    assert!(split_sections("\n  \n#\n").is_empty());
}

#[test]
fn fields_match_whole_headings_only() {
    let spec = test_spec();
    let map = field_bodies(&spec, "## Subtitle\n b \n## TITLE:\n\n a\n\n## Title\nlater\n");
    assert_eq!(map.len(), 2);
    assert_eq!(map.get("title").map(|s| s.as_str()), Some("a"));
    assert_eq!(map.get("subtitle").map(|s| s.as_str()), Some("b"));
    let only = field_bodies(&spec, "## Subtitle\nb\n");
    assert!(only.get("title").is_none());
    assert_eq!(only.key(0), "subtitle");
    assert_eq!(only.value(0), "b");
}

#[test]
fn a_field_that_shares_its_id_takes_the_last_body() {
    let mut spec = test_spec();
    spec.sections[1].id = "title".to_string();
    let map = field_bodies(&spec, "## Title\na\n## Subtitle\nb\n");
    assert_eq!(map.len(), 1);
    assert_eq!(map.get("title").map(|s| s.as_str()), Some("b"));
}

#[test]
fn keywords_are_trimmed_and_lowered() {
    assert_eq!(normalize_keyword("\u{3000}BUDGET App\n"), "budget app");
    assert_eq!(normalize_keyword("ÄÖ"), "äö");
}

#[test]
fn sanitized_keywords_keep_their_order_and_lose_empty_ones() {
    let v = vec![
        "b".to_string(),
        " ".to_string(),
        "A".to_string(),
        "B".to_string(),
        "".to_string(),
        "c".to_string(),
    ];
    assert_eq!(sanitize_keywords(&v), vec!["b".to_string(), "a".to_string(), "c".to_string()]);
}

#[test]
fn a_normalized_text_can_be_normalized_again() {
    let once = normalize_text_for_match("  Do-it: YOURSELF\t(now) ");
    assert_eq!(once, "do it yourself now");
    assert_eq!(normalize_text_for_match(&once), once);
    assert_eq!(normalize_text_for_match("!?"), "");
}

#[test]
fn emoji_blocks() {
    assert!(is_emoji('\u{1F300}'));
    assert!(is_emoji('\u{1FAFF}'));
    assert!(is_emoji('☀'));
    assert!(is_emoji('→'));
    assert!(is_emoji('⭐'));
    assert!(is_emoji('\u{FE0F}'));
    assert!(is_emoji('\u{1F1F0}'));
    assert!(!is_emoji('a'));
    assert!(!is_emoji('가'));
    assert!(!is_emoji('\u{1F2FF}'));
}

#[test]
fn metrics_measure_everything() {
    let mut spec = test_spec();
    spec.target_keywords.push("없는말".to_string());
    spec.target_keywords.push("!!".to_string());
    let doc = "## Title\n가계부 앱 🙂\n## Subtitle\n앱 가계부 최고 🙂\n## Other\nlong long text\n";
    let m = metrics(&spec, doc);
    assert_eq!(m.total_chars, 7 + 10);
    assert_eq!(m.field_chars.len(), 2);
    assert_eq!(m.field_chars.get("title"), Some(&7));
    assert_eq!(m.field_chars.get("subtitle"), Some(&10));
    assert_eq!(m.keyword_coverage, 1);
    assert_eq!(m.keyword_total, 4);
    assert_eq!(m.matched_keywords, vec!["가계부".to_string()]);
    assert_eq!(m.duplicate_keywords, vec!["가계부".to_string()]);
    assert_eq!(m.emoji_count, 2);
    assert_eq!(m.banned_hits, vec!["superlative expression: \" 최고 \"".to_string()]);
    let again = m.again();
    assert_eq!(again.total_chars, 17);
    assert_eq!(again.banned_hits, m.banned_hits);
    assert_eq!(again.field_chars.get("subtitle"), Some(&10));
}

#[test]
fn nothing_measured() {
    let m = Metrics::default();
    assert_eq!(m.total_chars, 0);
    assert_eq!(m.field_chars.len(), 0);
    assert!(m.banned_hits.is_empty());
}

#[test]
fn duplicates_are_found_only_between_fields_that_share_keywords() {
    let mut spec = test_spec();
    let doc = "## Title\nzeta budget app a\n## Subtitle\nApp, BUDGET! a\n";
    assert_eq!(
        metrics(&spec, doc).duplicate_keywords,
        vec!["app".to_string(), "budget".to_string()]
    );
    spec.sections[1].keyword_dedup_target = false;
    assert!(metrics(&spec, doc).duplicate_keywords.is_empty());
}

#[test]
fn missing_fields_are_required_and_empty() {
    let mut spec = test_spec();
    assert_eq!(
        missing_required(&spec, "## Title\n \n"),
        vec!["Title".to_string(), "Subtitle".to_string()]
    );
    spec.sections[1].required = false;
    assert_eq!(missing_required(&spec, ""), vec!["Title".to_string()]);
    assert!(missing_required(&spec, "## Title\nx\n").is_empty());
}

#[test]
fn every_issue_has_its_text_and_its_place() {
    let mut spec = test_spec();
    spec.emoji_max = 0;
    spec.target_keywords.push("지출관리 ".to_string());
    spec.sections[0].min_chars = 9;
    spec.sections.push(section("keywords", "Keywords", 20));
    spec.sections.push(section("promo", "Promo", 10));
    let doc = "## Title\n가계부 🙂\n## Subtitle\n가계부 뱅크샐러드 10만+\n## Keywords\n1234567890123456789\n";
    let want = vec![
        "Required field 'Promo' missing → needs to be filled in".to_string(),
        "'Title' below recommended character count: 5 chars (recommended 9+ chars) → may waste exposure opportunity".to_string(),
        "'Subtitle' exceeds character limit: 14 chars (max 10 chars) → may be truncated or rejected at store submission, needs shortening".to_string(),
        "[uncertain] keywords field is at 19 chars, close to the limit (20 chars) — it's unclear from the documentation whether Apple's keywords field is measured in characters or bytes, so verify directly in App Store Connect (be especially careful with multi-byte characters such as Korean)".to_string(),
        "spec's target_keywords contains duplicate entries (3 → 2 after normalization) → recommend cleaning up in TOML".to_string(),
        "1 keyword duplicate(s) across fields: 가계부 → placing duplicates across auto-dedup target fields wastes character count".to_string(),
        "target keyword coverage 1/3 → not covered: 지출관리, 지출관리 ".to_string(),
        "1 emoji used (allowed 0) → excessive emoji may be perceived as spam, reduce usage".to_string(),
        "banned expression detected — banned term (spec-defined): \"뱅크샐러드\" → needs to be replaced (trademark/false-advertising risk)".to_string(),
        "[factual consistency] claim not found in brief: \"10만+\" → if the original brief has no basis for this, remove it from the copy or add supporting basis to the brief".to_string(),
    ];
    assert_eq!(format_issues(&spec, doc, Some("a brief")), want);
}

#[test]
fn a_document_in_order_has_no_issues() {
    let spec = test_spec();
    let doc = "## Title\n가계부\n## Subtitle\n지출관리\n";
    assert!(format_issues(&spec, doc, Some("brief")).is_empty());
    assert!(format_issues(&spec, doc, None).is_empty());
}

#[test]
fn the_keywords_field_is_uncertain_above_nine_tenths_at_apple() {
    let mut spec = test_spec();
    spec.sections = vec![section("keywords", "Keywords", 10)];
    spec.target_keywords.clear();
    assert!(format_issues(&spec, "## Keywords\n123456789\n", None).is_empty());
    let full = format_issues(&spec, "## Keywords\n1234567890\n", None);
    assert_eq!(full.len(), 1);
    assert!(full[0].starts_with("[uncertain] keywords field is at 10 chars"));
    spec.store = Store::Google;
    assert!(format_issues(&spec, "## Keywords\n1234567890\n", None).is_empty());
}

#[test]
fn ordinary_korean_compounds_are_no_claims() {
    let none: Vec<String> = vec![];
    for word in ["최고급", "최고치", "최초부터", "유일무이", "특가품", "세일즈", "31위", "101위"] {
        let text = format!("우리 {} 안내", word);
        assert!(banned_hits(&none, &text).is_empty(), "{}", word);
    }
    for text in ["국내 최고", "지금 1위", "특별 세일", "최초", "유일 앱", "특가!"] {
        assert_eq!(banned_hits(&none, text).len(), 1, "{}", text);
    }
}

#[test]
fn banned_phrases_are_quoted_under_their_labels() {
    let terms = vec!["rival(app)?".to_string(), "(".to_string()];
    assert_eq!(
        banned_hits(&terms, "The BEST price: $ 5, better than RivalApp and rival"),
        vec![
            "superlative expression: \"BEST\"".to_string(),
            "price phrase: \"$ 5\"".to_string(),
            "banned term (spec-defined): \"RivalApp\"".to_string(),
        ]
    );
}

#[test]
fn the_default_patterns_are_regular_expressions() {
    let superlatives = default_superlative_patterns();
    let prices = default_price_patterns();
    let claims = default_claim_patterns();
    assert_eq!(superlatives.len(), 10);
    assert_eq!(prices.len(), 7);
    assert_eq!(claims.len(), 7);
    assert_eq!(compile_all(&superlatives), superlatives);
    assert_eq!(compile_all(&prices), prices);
    assert_eq!(compile_all(&claims), claims);
    assert_eq!(
        compile_all(&vec!["(".to_string(), "a".to_string()]),
        vec!["a".to_string()]
    );
}

#[test]
fn claims_are_reported_once_and_not_against_a_blank_brief() {
    let doc = "공식 앱. 공식 수상 3 위";
    let issues = factual_claim_issues(doc, Some("수상"));
    assert_eq!(issues.len(), 2);
    assert!(issues[0].contains("\"3 위\""));
    assert!(issues[1].contains("\"공식\""));
    assert!(factual_claim_issues(doc, Some(" \n")).is_empty());
}

#[test]
fn ordinary_documents_can_be_counted() {
    let spec = test_spec();
    let doc = "## Title\n가계부\n## Subtitle\n지출관리 완벽\n";
    assert!(is_countable(&spec, doc));
    assert_eq!(try_metrics(&spec, doc).unwrap().total_chars, metrics(&spec, doc).total_chars);
    assert_eq!(try_format_issues(&spec, doc, None), Some(format_issues(&spec, doc, None)));
}

#[test]
fn fields_together_are_no_longer_than_the_document() {
    let spec = test_spec();
    for doc in ["## Title\na\n## Subtitle\nb\n", "## Title\nabc", "## Title\n## Subtitle", "x"] {
        assert!(metrics(&spec, doc).total_chars <= doc.chars().count());
    }
}

fn strings(v: &[&str]) -> Vec<String> {
    v.iter().map(|s| s.to_string()).collect()
}

#[test]
fn found_phrases_are_reported_under_a_label() {
    let found = vec![None, Some("best".to_string()), None, Some("".to_string())];
    assert_eq!(report_hits("L", &found), strings(&["L: \"best\"", "L: \"\""]));
    assert!(report_hits("L", &vec![]).is_empty());
}

#[test]
fn found_claims_are_compared_with_the_brief() {
    let found = strings(&[" 3rd", "1st ", " ", "3rd", "2nd"]);
    let issues = report_claims(&found, Some("we came 1st"));
    assert_eq!(issues.len(), 2);
    assert!(issues[0].starts_with("[factual consistency] claim not found in brief: \"3rd\" → "));
    assert!(issues[1].contains("\"2nd\""));
    assert!(report_claims(&found, Some("\t")).is_empty());
    assert!(report_claims(&found, None).is_empty());
}

#[test]
fn bodies_go_to_the_fields_that_want_them() {
    let spec = test_spec();
    let secs = vec![
        ("".to_string(), "lost".to_string()),
        ("One".to_string(), " first \n".to_string()),
        ("Uno".to_string(), "second".to_string()),
    ];
    let keys = strings(&["k", "k", "k"]);
    let map = assign_bodies(&spec.sections, &strings(&["k", "other"]), &secs, &keys);
    assert_eq!(map.len(), 1);
    assert_eq!(map.get("title").map(|s| s.as_str()), Some("first"));
    let (total, each) = field_lengths(&spec.sections, &map);
    assert_eq!(total, 5);
    assert_eq!(each.get("title"), Some(&5));
    assert_eq!(each.get("subtitle"), Some(&0));
}

#[test]
fn keywords_are_found_by_their_wanted_texts() {
    let ks = strings(&["A", "B", "C"]);
    assert_eq!(find_keywords(&ks, &strings(&["a b", "", "x"]), "an a b c"), strings(&["A"]));
}

#[test]
fn words_get_single_spaces() {
    assert_eq!(single_spaced("\n a\u{3000} b  c "), "a b c");
    assert_eq!(single_spaced(" "), "");
}

#[test]
fn emojis_are_counted() {
    assert_eq!(count_emojis(&"a🙂→b☀".chars().collect()), 3);
}

#[test]
fn issues_follow_from_bodies_and_measurements() {
    let spec = test_spec();
    let map = field_bodies(&spec, "## Title\nx\n");
    let m = Metrics {
        keyword_coverage: 1,
        keyword_total: 2,
        matched_keywords: strings(&["지출관리"]),
        duplicate_keywords: strings(&["ab", "cd"]),
        emoji_count: 2,
        banned_hits: strings(&["hit"]),
        ..Metrics::default()
    };
    let issues = list_issues(&spec, &map, &m, 1, &strings(&["fact"]));
    assert_eq!(
        issues,
        strings(&[
            "Required field 'Subtitle' missing → needs to be filled in",
            "spec's target_keywords contains duplicate entries (2 → 1 after normalization) → recommend cleaning up in TOML",
            "2 keyword duplicate(s) across fields: ab, cd → placing duplicates across auto-dedup target fields wastes character count",
            "target keyword coverage 1/2 → not covered: 가계부",
            "2 emoji used (allowed 1) → excessive emoji may be perceived as spam, reduce usage",
            "banned expression detected — hit → needs to be replaced (trademark/false-advertising risk)",
            "fact",
        ])
    );
}

#[test]
fn field_lengths_add_up_to_the_total() {
    let spec = test_spec();
    let m = metrics(&spec, "## Title\n가계부\n## Subtitle\n지출관리 완벽\n");
    let sum: usize = (0..m.field_chars.len()).map(|i| *m.field_chars.value(i)).sum();
    assert_eq!(sum, m.total_chars);
}

#[test]
fn headings_compare_the_same_in_any_case_and_without_punctuation() {
    for s in ["## Title", "Promo-Text 2", "a_B c!", "", "***", "Z9z"] {
        let plain: String = s.chars().filter(|c| c.is_ascii_alphanumeric()).collect();
        assert_eq!(norm_head(s), plain.to_ascii_lowercase());
        assert_eq!(norm_head(s), norm_head(&s.to_ascii_uppercase()));
        assert_eq!(norm_head(s), norm_head(&plain));
    }
}

#[test]
fn sanitizing_again_changes_nothing() {
    let once = sanitize_keywords(&strings(&["B ", "a", " b", "", "A c", "가"]));
    assert_eq!(once, strings(&["b", "a", "a c", "가"]));
    assert_eq!(sanitize_keywords(&once), once);
}

#[test]
fn normalizing_ascii_text_leaves_words_of_letters_and_digits() {
    for s in ["", " !? ", "Do-it: YOURSELF\t(now)", "x\u{b}Y2", "~a~"] {
        let once = normalize_text_for_match(s);
        assert_eq!(normalize_text_for_match(&once), once);
        assert_eq!(once.to_lowercase(), once);
        assert_eq!(once.is_empty(), !s.chars().any(|c| c.is_ascii_alphanumeric()));
        if !once.is_empty() {
            assert!(once
                .split(' ')
                .all(|w| !w.is_empty() && w.chars().all(|c| c.is_ascii_alphanumeric())));
        }
    }
}

#[test]
fn ascii_letters_and_digits_are_those_of_std() {
    for n in 0..128u8 {
        let c = n as char;
        assert_eq!(c.is_alphanumeric(), c.is_ascii_alphanumeric());
        assert_eq!(c.to_string().to_lowercase(), c.to_string().to_ascii_lowercase());
    }
}

const MIXED: [&str; 9] = [
    "",
    " \u{3000}",
    "Über-Straße № 5",
    "ΟΔΟΣ Σ ΣΑΣ",
    "aΣ bΣc ASΣ",
    "가계부 Żółć\u{a0}",
    "Ⅷ Ⓐ ǅ \u{1E9E} \u{212A}",
    "ⴀႠ Ꭰꭰ \u{1C90}",
    "\u{130}stanbul e\u{301}É",
];

#[test]
fn the_case_of_ascii_letters_does_not_matter_among_others() {
    for s in MIXED {
        let loud = s.to_ascii_uppercase();
        assert_eq!(norm_head(s), norm_head(&loud), "{:?}", s);
        assert_eq!(normalize_keyword(s), normalize_keyword(&loud), "{:?}", s);
        assert_eq!(s.to_lowercase(), loud.to_lowercase(), "{:?}", s);
    }
    assert_eq!(norm_head("Über-Straße № 5"), "überstraße5");
    assert_eq!(norm_head("ÜBER-STRAßE № 5"), "überstraße5");
}

#[test]
fn keywords_of_any_script_are_normalized_once() {
    for s in MIXED {
        let once = normalize_keyword(s);
        assert_eq!(normalize_keyword(&once), once, "{:?}", s);
        assert_eq!(once.trim(), once, "{:?}", s);
    }
    assert_eq!(normalize_keyword(" ΟΔΟΣ\n"), "οδος");
    let once = sanitize_keywords(&strings(&MIXED));
    assert_eq!(sanitize_keywords(&once), once);
    assert_eq!(once.len(), 7);
}

#[test]
fn texts_of_any_script_are_normalized_once() {
    for s in MIXED {
        let once = normalize_text_for_match(s);
        assert_eq!(once.to_lowercase(), once, "{:?}", s);
        if !s.contains('\u{130}') {
            assert_eq!(normalize_text_for_match(&once), once, "{:?}", s);
            assert!(once.chars().all(|c| c.is_alphanumeric() || c == ' '), "{:?}", s);
        }
    }
    assert_eq!(normalize_text_for_match("ΟΔΟΣ, Straße!"), "οδος straße");
}

#[test]
fn a_dotted_capital_i_takes_two_passes() {
    let once = normalize_text_for_match("\u{130}z");
    assert_eq!(once, "i\u{307}z");
    assert_eq!(normalize_text_for_match(&once), "i z");
}

#[test]
fn lower_case_of_every_character() {
    for c in '\0'..=char::MAX {
        let upper = c.to_ascii_uppercase();
        assert_eq!(c.is_alphanumeric(), upper.is_alphanumeric(), "{:?}", c);
        let low = c.to_string().to_lowercase();
        assert_eq!(low, upper.to_string().to_lowercase(), "{:?}", c);
        assert!(!low.is_empty(), "{:?}", c);
        for x in low.chars() {
            assert_eq!(x.to_string().to_lowercase(), x.to_string(), "{:?}", c);
            assert_eq!(x.is_whitespace(), c.is_whitespace(), "{:?}", c);
            if c.is_alphanumeric() && c != '\u{130}' {
                assert!(x.is_alphanumeric(), "{:?}", c);
            }
        }
    }
}

#[test]
fn sections_written_out_are_split_the_same() {
    for doc in [
        "",
        "no heading",
        "## Title\nMy app\n## Body\na\n\nb",
        "##\n## \n### x ##\ny\n#\n",
        "before\n## A\n## A\n\n\n ## B \n#c\n##",
        "## 제목\n가계부\n\n## End",
    ] {
        let once = split_sections(doc);
        let written: String = once.iter().map(|(h, b)| format!("## {}\n{}", h, b)).collect();
        assert_eq!(split_sections(&written), once, "{:?}", doc);
    }
    let secs = split_sections("##\n## \ny\n## x");
    assert_eq!(secs.len(), 2);
    assert_eq!(secs[0], (String::new(), "y\n".to_string()));
    assert_eq!(secs[1], ("x".to_string(), String::new()));
}
