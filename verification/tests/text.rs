use aso_loop::checks::field_bodies;
use aso_loop::double::Double;
use aso_loop::sorted::{is_before, SortedMap};
use aso_loop::store_spec::{Criterion, Section, Spec, Store};
use aso_loop::text::{
    chars_of, contains_text, is_blank, joined, lines_of, push_decimal, push_decimal2, string_of,
    trimmed, trimmed_start, words_of,
};

fn texts(v: Vec<Vec<char>>) -> Vec<String> {
    v.iter().map(|x| x.iter().collect()).collect()
}

fn characters(s: &str) -> Vec<char> {
    s.chars().collect()
}

#[test]
fn characters_there_and_back() {
    assert_eq!(chars_of("a가🙂"), vec!['a', '가', '🙂']);
    assert_eq!(string_of(&vec!['a', '가', '🙂']), "a가🙂");
}

#[test]
fn lines_are_those_of_std() {
    for s in ["", "\n", "a", "a\n", "a\r\nb\r", "\r\n\n x\n\ny\r\n", "a\rb"] {
        let want: Vec<String> = s.lines().map(|l| l.to_string()).collect();
        assert_eq!(texts(lines_of(&characters(s))), want, "{:?}", s);
    }
}

#[test]
fn words_and_trims_are_those_of_std() {
    for s in ["", "  ", "a", " a  b\u{3000}c\n", "\u{a0}x\u{2003}y\u{85}z\u{200b}", "가 나"] {
        let want: Vec<String> = s.split_whitespace().map(|l| l.to_string()).collect();
        assert_eq!(texts(words_of(&characters(s))), want, "{:?}", s);
        assert_eq!(trimmed(&characters(s)), characters(s.trim()));
        assert_eq!(trimmed_start(&characters(s)), characters(s.trim_start()));
        assert_eq!(is_blank(&characters(s)), s.trim().is_empty());
    }
}

#[test]
fn whitespace_is_that_of_std() {
    for n in 0..0x11_0000u32 {
        if let Some(c) = char::from_u32(n) {
            assert_eq!(is_blank(&vec![c]), c.is_whitespace());
        }
    }
}

#[test]
fn parts_are_found() {
    for (whole, part) in [("", ""), ("a", ""), ("", "a"), ("aab", "ab"), ("abc", "abcd"), ("abc", "c"), ("aba", "aa")] {
        assert_eq!(
            contains_text(&characters(whole), &characters(part)),
            whole.contains(part),
            "{} {}",
            whole,
            part
        );
    }
}

#[test]
fn texts_are_joined() {
    assert_eq!(joined(&vec![], ", "), "");
    assert_eq!(joined(&vec!["a".to_string()], ", "), "a");
    assert_eq!(joined(&vec!["a".to_string(), "".to_string(), "b".to_string()], ", "), "a, , b");
}

#[test]
fn numbers_are_written_out() {
    for n in [0, 7, 10, 99, 100, 1203, u64::MAX] {
        let mut s = "n".to_string();
        push_decimal(&mut s, n);
        assert_eq!(s, format!("n{}", n));
        let mut t = String::new();
        push_decimal2(&mut t, n);
        assert_eq!(t, format!("{:02}", n));
    }
}

#[test]
fn sorted_maps_keep_the_order_of_strings() {
    let mut map: SortedMap<usize> = SortedMap::new();
    for (i, k) in ["b", "가", "a", "ab", "B", "🙂", "a"].iter().enumerate() {
        map.insert(k.to_string(), i);
    }
    let keys: Vec<&str> = (0..map.len()).map(|i| map.key(i).as_str()).collect();
    assert_eq!(keys, vec!["B", "a", "ab", "b", "가", "🙂"]);
    assert_eq!(map.get("a"), Some(&6));
    assert_eq!(map.value(0), &4);
    assert_eq!(map.get("c"), None);
    assert!(is_before(&characters("a"), &characters("ab")));
    assert!(!is_before(&characters("ab"), &characters("ab")));
}

#[test]
fn what_is_written_under_a_heading_is_read_back() {
    let fields = [("title", "Title", " My app\n"), ("promo", "Promo Text", ""), ("desc", "Description", "a\n\n b#c")];
    let mut doc = String::new();
    for (_, title, body) in fields {
        doc.push_str(&format!("## {}\n{}\n", title, body));
    }
    let spec = Spec {
        name: String::new(),
        store: Store::Apple,
        context: String::new(),
        scoring_source: String::new(),
        target_keywords: vec![],
        banned_terms: vec![],
        emoji_max: 3,
        angles: vec![],
        bands: vec![],
        sections: fields
            .iter()
            .map(|(id, title, _)| Section {
                id: id.to_string(),
                title: title.to_string(),
                guide: String::new(),
                max_chars: 10,
                min_chars: 0,
                required: true,
                keyword_dedup_target: false,
            })
            .collect(),
        criteria: vec![Criterion {
            id: "x".to_string(),
            name: "x".to_string(),
            weight: Double { bits: 1.0f64.to_bits() },
            share: "100".to_string(),
            guide: String::new(),
        }],
    };
    assert!(spec.validate().is_ok());
    let map = field_bodies(&spec, &doc);
    for (id, _, body) in fields {
        assert_eq!(map.get(id).map(|s| s.as_str()), Some(body.trim()));
    }
}
