//! Phrases that a listing is searched for: superlatives, prices, and claims of fact.
use crate::pattern::{all_matches, compiles, find, find_all, first_match, is_pattern};
use crate::text::{
    blank, char_seqs, chars_of, contains_text, firsts, firsts_of, is_blank, lemma_firsts,
    lemma_occurs_within, lemma_trim_occurs, occurs, string_of, texts, trim, trimmed,
};
use vstd::prelude::*;

verus! {

/// A pattern for a Korean word that is not part of a longer one: what stands beside it is no
/// Hangul syllable. A word boundary does not tell, for every syllable is a word character.
pub open spec fn bare_word(word: Seq<char>) -> Seq<char> {
    "(?:^|[^가-힣])"@ + word + "(?:[^가-힣]|$)"@
}

/// A pattern for a Korean word that is not part of a longer one.
fn bare_korean_word(word: &str) -> (r: String)
    ensures
        r@ == bare_word(word@),
{
    let mut out = "(?:^|[^가-힣])".to_string();
    out.append(word);
    out.append("(?:[^가-힣]|$)");
    out
}

/// Patterns of superlative claims. The one for first place takes no digit before its `1`, so that
/// it does not find the end of a greater number.
pub open spec fn superlative_patterns() -> Seq<Seq<char>> {
    seq![
        r"\bbest\b"@,
        r"\btop\s*1\b"@,
        r"#\s*1\b"@,
        r"\bno\.?\s*1\b"@,
        r"(?:^|\D)1\s*위"@,
        bare_word("최고"@),
        bare_word("최초"@),
        bare_word("유일"@),
        r"업계\s*1위"@,
        r"가장\s*(좋은|빠른|정확한)"@,
    ]
}

/// Patterns of superlative claims.
pub fn default_superlative_patterns() -> (r: Vec<String>)
    ensures
        texts(r@) == superlative_patterns(),
{
    let r = vec![
        r"\bbest\b".to_string(),
        r"\btop\s*1\b".to_string(),
        r"#\s*1\b".to_string(),
        r"\bno\.?\s*1\b".to_string(),
        r"(?:^|\D)1\s*위".to_string(),
        bare_korean_word("최고"),
        bare_korean_word("최초"),
        bare_korean_word("유일"),
        r"업계\s*1위".to_string(),
        r"가장\s*(좋은|빠른|정확한)".to_string(),
    ];
    assert(texts(r@) =~= superlative_patterns());
    r
}

/// Patterns of prices and discounts.
pub open spec fn price_patterns() -> Seq<Seq<char>> {
    seq![
        r"\$\s*\d"@,
        r"\d+\s*%\s*(off|할인)"@,
        r"무료\s*체험"@,
        r"무료\s*다운로드"@,
        bare_word("세일"@),
        bare_word("특가"@),
        r"이벤트가"@,
    ]
}

/// Patterns of prices and discounts.
pub fn default_price_patterns() -> (r: Vec<String>)
    ensures
        texts(r@) == price_patterns(),
{
    let r = vec![
        r"\$\s*\d".to_string(),
        r"\d+\s*%\s*(off|할인)".to_string(),
        r"무료\s*체험".to_string(),
        r"무료\s*다운로드".to_string(),
        bare_korean_word("세일"),
        bare_korean_word("특가"),
        r"이벤트가".to_string(),
    ];
    assert(texts(r@) =~= price_patterns());
    r
}

/// Patterns of quantities, ranks and other claims that a brief has to bear out.
pub open spec fn claim_patterns() -> Seq<Seq<char>> {
    seq![
        r"\d[\d,]*\s*(만|천|억)?\s*\+"@,
        r"\d+\s*위"@,
        r"다운로드"@,
        r"수상"@,
        r"최초"@,
        r"업계\s*유일"@,
        r"공식"@,
    ]
}

/// Patterns of quantities, ranks and other claims that a brief has to bear out. They find too much
/// rather than too little: what they find is for a person to judge.
pub fn default_claim_patterns() -> (r: Vec<String>)
    ensures
        texts(r@) == claim_patterns(),
{
    let r = vec![
        r"\d[\d,]*\s*(만|천|억)?\s*\+".to_string(),
        r"\d+\s*위".to_string(),
        r"다운로드".to_string(),
        r"수상".to_string(),
        r"최초".to_string(),
        r"업계\s*유일".to_string(),
        r"공식".to_string(),
    ];
    assert(texts(r@) =~= claim_patterns());
    r
}

/// The patterns that are regular expressions.
pub open spec fn usable(patterns: Seq<Seq<char>>) -> Seq<Seq<char>> {
    patterns.filter(|p: Seq<char>| compiles(p))
}

/// The patterns that are regular expressions; any other is left out.
pub fn compile_all(patterns: &Vec<String>) -> (r: Vec<String>)
    ensures
        texts(r@) == usable(texts(patterns@)),
{
    let ghost all = texts(patterns@);
    let ghost good = |p: Seq<char>| compiles(p);
    let mut out: Vec<String> = Vec::new();
    assert(texts(out@) =~= all.take(0).filter(good)) by {
        reveal(Seq::filter);
    }
    for i in 0..patterns.len()
        invariant
            all == texts(patterns@),
            good == (|p: Seq<char>| compiles(p)),
            texts(out@) == all.take(i as int).filter(good),
    {
        assert(all.take(i + 1) =~= all.take(i as int).push(all[i as int]));
        proof {
            all.take(i as int).lemma_filter_push(all[i as int], good);
        }
        if is_pattern(patterns[i].as_str()) {
            let ghost prev = texts(out@);
            out.push(patterns[i].clone());
            assert(texts(out@) =~= prev.push(all[i as int]));
        }
    }
    assert(all.take(patterns@.len() as int) =~= all);
    out
}

/// What is reported of a phrase that was found.
pub open spec fn hit_text(label: Seq<char>, phrase: Seq<char>) -> Seq<char> {
    label + ": \""@ + phrase + "\""@
}

/// `hit` quotes a phrase that stands in `text`.
pub open spec fn quotes(hit: Seq<char>, text: Seq<char>) -> bool {
    exists|label: Seq<char>, phrase: Seq<char>|
        hit == #[trigger] hit_text(label, phrase) && occurs(phrase, text)
}

/// The texts of strings that may be missing.
pub open spec fn optional_texts(v: Seq<Option<String>>) -> Seq<Option<Seq<char>>> {
    v.map_values(
        |o: Option<String>|
            match o {
                Some(s) => Some(s@),
                None => None,
            },
    )
}

/// What is reported of the phrases that were found.
pub open spec fn hit_texts(label: Seq<char>, found: Seq<Option<Seq<char>>>) -> Seq<Seq<char>>
    decreases found.len(),
{
    if found.len() == 0 {
        seq![]
    } else {
        let earlier = hit_texts(label, found.drop_last());
        match found.last() {
            Some(m) => earlier.push(hit_text(label, m)),
            None => earlier,
        }
    }
}

/// What each pattern finds first in `text`.
pub open spec fn first_matches(patterns: Seq<Seq<char>>, text: Seq<char>) -> Seq<
    Option<Seq<char>>,
> {
    patterns.map_values(|p: Seq<char>| first_match(p, text))
}

/// What is reported of each pattern that finds something in `text`: its first match.
pub open spec fn hits(label: Seq<char>, patterns: Seq<Seq<char>>, text: Seq<char>) -> Seq<Seq<char>> {
    hit_texts(label, first_matches(patterns, text))
}

/// What each pattern finds first in `text`.
fn find_each(patterns: &Vec<String>, text: &str) -> (r: Vec<Option<String>>)
    ensures
        optional_texts(r@) == first_matches(texts(patterns@), text@),
        forall|i: int| 0 <= i < r@.len() && r@[i] is Some ==> occurs((#[trigger] r@[i])->Some_0@, text@),
{
    let ghost wanted = first_matches(texts(patterns@), text@);
    let mut out: Vec<Option<String>> = Vec::new();
    for i in 0..patterns.len()
        invariant
            wanted == first_matches(texts(patterns@), text@),
            optional_texts(out@) == wanted.take(i as int),
            forall|k: int|
                0 <= k < out@.len() && out@[k] is Some ==> occurs(
                    (#[trigger] out@[k])->Some_0@,
                    text@,
                ),
    {
        let ghost prev = optional_texts(out@);
        out.push(find(patterns[i].as_str(), text));
        assert(optional_texts(out@) =~= prev.push(wanted[i as int]));
    }
    assert(wanted.take(patterns@.len() as int) =~= wanted);
    out
}

/// Reports the phrases that were found, under a label.
pub fn report_hits(label: &str, found: &Vec<Option<String>>) -> (r: Vec<String>)
    ensures
        texts(r@) == hit_texts(label@, optional_texts(found@)),
{
    let ghost all = optional_texts(found@);
    let mut out: Vec<String> = Vec::new();
    assert(texts(out@) =~= seq![]);
    for i in 0..found.len()
        invariant
            all == optional_texts(found@),
            texts(out@) == hit_texts(label@, all.take(i as int)),
    {
        assert(all.take(i + 1).drop_last() =~= all.take(i as int));
        assert(all.take(i + 1).last() == all[i as int]);
        if let Some(m) = &found[i] {
            let ghost prev = texts(out@);
            let mut hit = label.to_string();
            hit.append(": \"");
            hit.append(m.as_str());
            hit.append("\"");
            let ghost h = hit@;
            out.push(hit);
            assert(texts(out@) =~= prev.push(h));
        }
    }
    assert(all.take(found@.len() as int) =~= all);
    out
}

/// Phrases that stand in a text are quoted where they are reported.
proof fn lemma_hits_quote(label: Seq<char>, found: Seq<Option<Seq<char>>>, text: Seq<char>)
    requires
        forall|i: int|
            0 <= i < found.len() && found[i] is Some ==> occurs((#[trigger] found[i])->Some_0, text),
    ensures
        forall|i: int|
            0 <= i < hit_texts(label, found).len() ==> quotes(
                #[trigger] hit_texts(label, found)[i],
                text,
            ),
    decreases found.len(),
{
    if found.len() > 0 {
        let t = found.drop_last();
        assert forall|i: int| 0 <= i < t.len() && t[i] is Some implies occurs(
            (#[trigger] t[i])->Some_0,
            text,
        ) by {
            assert(t[i] == found[i]);
        }
        lemma_hits_quote(label, t, text);
        let earlier = hit_texts(label, t);
        assert forall|i: int| 0 <= i < hit_texts(label, found).len() implies quotes(
            #[trigger] hit_texts(label, found)[i],
            text,
        ) by {
            if i < earlier.len() {
                assert(hit_texts(label, found)[i] == earlier[i]);
            } else {
                let m = found[found.len() - 1]->Some_0;
                assert(hit_texts(label, found)[i] == hit_text(label, m));
                assert(occurs(m, text));
            }
        }
    }
}

/// Reports what each pattern finds first in `text`, under a label.
fn search(label: &str, patterns: &Vec<String>, text: &str) -> (r: Vec<String>)
    ensures
        texts(r@) == hits(label@, texts(patterns@), text@),
        forall|i: int| 0 <= i < r@.len() ==> quotes(#[trigger] r@[i]@, text@),
{
    let found = find_each(patterns, text);
    let out = report_hits(label, &found);
    proof {
        let all = optional_texts(found@);
        assert forall|i: int| 0 <= i < all.len() && all[i] is Some implies occurs(
            (#[trigger] all[i])->Some_0,
            text@,
        ) by {
            assert(found@[i] is Some);
        }
        lemma_hits_quote(label@, all, text@);
        assert forall|i: int| 0 <= i < out@.len() implies quotes(#[trigger] out@[i]@, text@) by {
            assert(texts(out@)[i] == out@[i]@);
        }
    }
    out
}

/// What is reported of superlatives, prices and the banned terms `terms` in `text`.
pub open spec fn banned(terms: Seq<Seq<char>>, text: Seq<char>) -> Seq<Seq<char>> {
    hits("superlative expression"@, usable(superlative_patterns()), text) + hits(
        "price phrase"@,
        usable(price_patterns()),
        text,
    ) + hits("banned term (spec-defined)"@, usable(terms), text)
}

/// Reports superlatives, prices and the banned terms `terms` in `text`, each by the phrase that
/// was found.
pub fn banned_hits(terms: &Vec<String>, text: &str) -> (r: Vec<String>)
    ensures
        texts(r@) == banned(texts(terms@), text@),
        forall|i: int| 0 <= i < r@.len() ==> quotes(#[trigger] r@[i]@, text@),
{
    let mut out = search(
        "superlative expression",
        &compile_all(&default_superlative_patterns()),
        text,
    );
    let mut prices = search("price phrase", &compile_all(&default_price_patterns()), text);
    let mut own = search("banned term (spec-defined)", &compile_all(terms), text);
    let ghost a = out@;
    let ghost b = prices@;
    let ghost c = own@;
    out.append(&mut prices);
    out.append(&mut own);
    assert(texts(out@) =~= texts(a) + texts(b) + texts(c));
    out
}

/// The matches of the patterns in `doc`.
pub open spec fn claims(patterns: Seq<Seq<char>>, doc: Seq<char>) -> Seq<Seq<char>>
    decreases patterns.len(),
{
    if patterns.len() == 0 {
        seq![]
    } else {
        claims(patterns.drop_last(), doc) + all_matches(patterns.last(), doc)
    }
}

/// Claims without whitespace at their ends.
pub open spec fn cut(found: Seq<Seq<char>>) -> Seq<Seq<char>> {
    found.map_values(|m: Seq<char>| trim(m))
}

/// The claims of `found`, each once, that do not stand in `brief`.
pub open spec fn unfounded(found: Seq<Seq<char>>, brief: Seq<char>) -> Seq<Seq<char>> {
    firsts(cut(found)).filter(|c: Seq<char>| !occurs(c, brief))
}

/// What is reported of a claim that does not stand in the brief.
pub open spec fn claim_issue(claim: Seq<char>) -> Seq<char> {
    "[factual consistency] claim not found in brief: \""@ + claim
        + "\" → if the original brief has no basis for this, remove it from the copy or add supporting basis to the brief"@
}

/// What is reported of the claims that were found, where a brief is at hand. Without a brief, or
/// with a blank one, nothing is.
pub open spec fn reported_claims(found: Seq<Seq<char>>, brief: Option<Seq<char>>) -> Seq<Seq<char>> {
    match brief {
        Some(b) => if blank(b) {
            seq![]
        } else {
            unfounded(found, b).map_values(|c: Seq<char>| claim_issue(c))
        },
        None => seq![],
    }
}

/// What is reported of the claims of a document, where a brief is at hand.
pub open spec fn claim_issues(doc: Seq<char>, brief: Option<Seq<char>>) -> Seq<Seq<char>> {
    reported_claims(claims(usable(claim_patterns()), doc), brief)
}

/// The text of an optional string.
pub open spec fn text_of(s: Option<&str>) -> Option<Seq<char>> {
    match s {
        Some(b) => Some(b@),
        None => None,
    }
}

/// The matches of the patterns in `doc`.
fn find_claims(patterns: &Vec<String>, doc: &str) -> (r: Vec<String>)
    ensures
        texts(r@) == claims(texts(patterns@), doc@),
        forall|i: int| 0 <= i < r@.len() ==> occurs(#[trigger] r@[i]@, doc@),
{
    let ghost all = texts(patterns@);
    let mut out: Vec<String> = Vec::new();
    assert(texts(out@) =~= seq![]);
    for i in 0..patterns.len()
        invariant
            all == texts(patterns@),
            texts(out@) == claims(all.take(i as int), doc@),
            forall|j: int| 0 <= j < out@.len() ==> occurs(#[trigger] out@[j]@, doc@),
    {
        let ghost earlier = out@;
        assert(all.take(i + 1).drop_last() =~= all.take(i as int));
        assert(all.take(i + 1).last() == patterns@[i as int]@);
        let mut found = find_all(patterns[i].as_str(), doc);
        let ghost more = found@;
        out.append(&mut found);
        assert(texts(out@) =~= texts(earlier) + texts(more));
        assert forall|j: int| 0 <= j < out@.len() implies occurs(#[trigger] out@[j]@, doc@) by {
            if j < earlier.len() {
                assert(out@[j] == earlier[j]);
            } else {
                assert(out@[j] == more[j - earlier.len()]);
            }
        }
    }
    assert(all.take(patterns@.len() as int) =~= all);
    out
}

/// Reports the claims that were found, each once, that do not stand in the brief. Without a brief,
/// or with a blank one, there is nothing to compare with.
pub fn report_claims(found: &Vec<String>, brief: Option<&str>) -> (r: Vec<String>)
    ensures
        texts(r@) == reported_claims(texts(found@), text_of(brief)),
{
    let mut out: Vec<String> = Vec::new();
    assert(texts(out@) =~= seq![]);
    let source = match brief {
        Some(b) => chars_of(b),
        None => {
            return out;
        },
    };
    if is_blank(&source) {
        return out;
    }
    let ghost wanted = cut(texts(found@));
    let mut all_found: Vec<Vec<char>> = Vec::new();
    for i in 0..found.len()
        invariant
            wanted == cut(texts(found@)),
            char_seqs(all_found@) == wanted.take(i as int),
    {
        let ghost prev = char_seqs(all_found@);
        all_found.push(trimmed(&chars_of(found[i].as_str())));
        assert(char_seqs(all_found@) =~= prev.push(wanted[i as int]));
    }
    assert(wanted.take(found@.len() as int) =~= wanted);
    let once = firsts_of(&all_found);
    let ghost all = char_seqs(once@);
    let ghost missing = |c: Seq<char>| !occurs(c, source@);
    let ghost say = |c: Seq<char>| claim_issue(c);
    assert(texts(out@) =~= all.take(0).filter(missing).map_values(say)) by {
        reveal(Seq::filter);
    }
    for i in 0..once.len()
        invariant
            all == char_seqs(once@),
            missing == (|c: Seq<char>| !occurs(c, source@)),
            say == (|c: Seq<char>| claim_issue(c)),
            texts(out@) == all.take(i as int).filter(missing).map_values(say),
    {
        assert(all.take(i + 1) =~= all.take(i as int).push(all[i as int]));
        proof {
            all.take(i as int).lemma_filter_push(all[i as int], missing);
        }
        if !contains_text(&source, &once[i]) {
            let ghost prev = texts(out@);
            let mut issue = "[factual consistency] claim not found in brief: \"".to_string();
            issue.append(string_of(&once[i]).as_str());
            issue.append(
                "\" → if the original brief has no basis for this, remove it from the copy or add supporting basis to the brief",
            );
            let ghost t = issue@;
            out.push(issue);
            assert(texts(out@) =~= prev.push(t));
            assert(all.take(i + 1).filter(missing).map_values(say) =~= prev.push(t));
        }
    }
    assert(all.take(once@.len() as int) =~= all);
    out
}

/// `issue` reports a claim that stands in `doc` and does not stand in `brief`.
pub open spec fn reports_claim(issue: Seq<char>, doc: Seq<char>, brief: Seq<char>) -> bool {
    exists|c: Seq<char>|
        issue == #[trigger] claim_issue(c) && c.len() > 0 && occurs(c, doc) && !occurs(c, brief)
}

/// A claim is reported once, none that stands in the brief, and every other.
pub proof fn lemma_unfounded(found: Seq<Seq<char>>, brief: Seq<char>)
    ensures
        unfounded(found, brief).no_duplicates(),
        forall|c: Seq<char>|
            #[trigger] unfounded(found, brief).contains(c) <==> cut(found).contains(c) && c.len() > 0
                && !occurs(c, brief),
{
    let all = cut(found);
    let once = firsts(all);
    let test = |c: Seq<char>| !occurs(c, brief);
    let f = once.filter(test);
    lemma_firsts(all);
    lemma_filter_distinct(once, test);
    assert forall|c: Seq<char>| #[trigger] f.contains(c) <==> all.contains(c) && c.len() > 0
        && !occurs(c, brief) by {
        assert(once.contains(c) <==> c.len() > 0 && all.contains(c));
        if f.contains(c) {
            once.lemma_filter_pred(test, f.index_of(c));
            once.lemma_filter_contains_rev(test, c);
        }
        if once.contains(c) && test(c) {
            once.lemma_filter_contains(test, once.index_of(c));
        }
    }
}

proof fn lemma_filter_distinct(s: Seq<Seq<char>>, test: spec_fn(Seq<char>) -> bool)
    requires
        s.no_duplicates(),
    ensures
        s.filter(test).no_duplicates(),
    decreases s.len(),
{
    if s.len() == 0 {
        reveal(Seq::filter);
    } else {
        let t = s.drop_last();
        assert(t.no_duplicates()) by {
            assert forall|a: int, b: int|
                0 <= a < t.len() && 0 <= b < t.len() && a != b implies t[a] != t[b] by {
                assert(s[a] != s[b]);
            }
        }
        lemma_filter_distinct(t, test);
        assert(s =~= t.push(s.last()));
        t.lemma_filter_push(s.last(), test);
        let f = t.filter(test);
        if f.contains(s.last()) {
            t.lemma_filter_contains_rev(test, s.last());
            let k = t.index_of(s.last());
            assert(s[k] == s[s.len() - 1]);
        }
        assert forall|a: int, b: int|
            0 <= a < s.filter(test).len() && 0 <= b < s.filter(test).len() && a
                != b implies s.filter(test)[a] != s.filter(test)[b] by {
            if a < f.len() && b < f.len() {
                assert(f[a] != f[b]);
            } else if a < f.len() {
                assert(f.contains(f[a]));
            } else if b < f.len() {
                assert(f.contains(f[b]));
            }
        }
    }
}

/// Compares the copy with the brief it was written from. A quantity, rank or other claim of fact
/// in the copy that does not stand in the brief is reported, once. Without a brief there is
/// nothing to compare with.
pub fn factual_claim_issues(doc: &str, brief: Option<&str>) -> (r: Vec<String>)
    ensures
        texts(r@) == claim_issues(doc@, text_of(brief)),
        r@.len() > 0 ==> brief is Some,
        forall|i: int|
            0 <= i < r@.len() ==> reports_claim(
                #[trigger] texts(r@)[i],
                doc@,
                text_of(brief)->Some_0,
            ),
{
    if brief.is_none() {
        let none: Vec<String> = Vec::new();
        assert(texts(none@) =~= seq![]);
        return none;
    }
    let found = find_claims(&compile_all(&default_claim_patterns()), doc);
    let out = report_claims(&found, brief);
    proof {
        let said = texts(out@);
        assert(said.len() == out@.len());
        let b = text_of(brief)->Some_0;
        assert forall|i: int| 0 <= i < out@.len() implies reports_claim(
            #[trigger] said[i],
            doc@,
            b,
        ) by {
            let u = unfounded(texts(found@), b);
            assert(said == reported_claims(texts(found@), text_of(brief)));
            assert(brief is Some && !blank(b));
            assert(said == u.map_values(|c: Seq<char>| claim_issue(c)));
            let c = u[i];
            lemma_unfounded(texts(found@), b);
            assert(u.contains(c));
            let k = cut(texts(found@)).index_of(c);
            assert(c == trim(found@[k]@));
            lemma_trim_occurs(found@[k]@);
            lemma_occurs_within(c, found@[k]@, doc@);
            assert(said[i] == claim_issue(c));
        }
    }
    out
}

} // verus!
