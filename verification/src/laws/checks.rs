//! Laws of the checks: what is read of a document, measured and reported.
use crate::checks::{
    ascii_covered, ascii_head, ascii_keyword, ascii_match_text, ascii_match_words, ascii_searchable,
    banned_issue, bodies_with_keys, body_of, body_under, body_with_key, copy_text, countable,
    coverage_issues, covered, covered_keywords, dedup_words, doc_bodies, duplicate_issues, emoji,
    emoji_issues, emojis, field_lens, found_keywords, head, issues, keyword, keywords,
    lemma_coverage, length_issue, length_issues, match_text, match_words, measured, missing,
    missing_issue, over_issue, repeated_issues, searchable, total_len, uncertain_issue,
    uncovered_keywords, under_issue, Metrics, MetricsView,
};
use crate::laws::text::{
    lemma_glued, lemma_glued_push, lemma_join, lemma_kept_once, lemma_occurs, lemma_part_joined,
    lemma_run_joined, lemma_stands, lemma_trim, lemma_words,
};
use crate::overlap::{lemma_shared_listed, shared, shared_at, shared_words};
use crate::phrases::{banned, claim_issues};
use crate::sorted::{
    ascending, lemma_lookup_put, lemma_put_ascending, lookup, precedes, put, values,
};
use crate::store_spec::{Section, Spec, Store};
use crate::text::{
    alphanumeric, ascii_alphanumeric, ascii_lower, decimal, firsts, join, lemma_filter_all,
    lemma_filter_twice, lemma_occurs_within, lemma_words_filled, lower_ascii, lowercase, occurs,
    stands_at, texts, trim, white_space, words,
};
use vstd::prelude::*;

verus! {

/// A heading of letters and digits compares as its lower case, and any other as what is left of it
/// without the other characters.
pub proof fn lemma_head(s: Seq<char>, c: char)
    ensures
        (forall|i: int| 0 <= i < s.len() ==> alphanumeric(#[trigger] s[i])) ==> head(s) == lowercase(
            s,
        ),
        !alphanumeric(c) ==> head(s.push(c)) == head(s),
        head(s.filter(|x: char| alphanumeric(x))) == head(s),
        ascii_head(seq![]) == Seq::<char>::empty(),
        ascii_head(s.push(c)) == if ascii_alphanumeric(c) {
            ascii_head(s).push(ascii_lower(c))
        } else {
            ascii_head(s)
        },
{
    let p = |x: char| alphanumeric(x);
    let q = |x: char| ascii_alphanumeric(x);
    if forall|i: int| 0 <= i < s.len() ==> alphanumeric(#[trigger] s[i]) {
        assert forall|i: int| 0 <= i < s.len() implies p(#[trigger] s[i]) by {
            assert(alphanumeric(s[i]));
        }
        lemma_filter_all(s, p);
    }
    s.lemma_filter_push(c, p);
    s.lemma_filter_push(c, q);
    lemma_filter_twice(s, p);
    assert(ascii_head(seq![]) =~= Seq::<char>::empty()) by {
        reveal(Seq::filter);
    }
    assert(ascii_head(s.push(c)) =~= if ascii_alphanumeric(c) {
        ascii_head(s).push(ascii_lower(c))
    } else {
        ascii_head(s)
    });
}

/// A field is read from the first heading that compares as its title, without whitespace at the
/// ends, and has nothing where there is no such heading.
pub proof fn lemma_first_heading(secs: Seq<(Seq<char>, Seq<char>)>, want: Seq<char>, k: int)
    requires
        0 <= k <= secs.len(),
        forall|j: int| 0 <= j < k ==> (#[trigger] secs[j]).0.len() == 0 || head(secs[j].0) != want,
        k < secs.len() ==> secs[k].0.len() > 0 && head(secs[k].0) == want,
    ensures
        body_under(secs, want) == if k < secs.len() {
            Some(trim(secs[k].1))
        } else {
            None
        },
    decreases k,
{
    if k > 0 {
        assert(secs[0].0.len() == 0 || head(secs[0].0) != want);
        let t = secs.drop_first();
        assert forall|j: int| 0 <= j < k - 1 implies (#[trigger] t[j]).0.len() == 0 || head(t[j].0)
            != want by {
            assert(t[j] == secs[j + 1]);
        }
        lemma_first_heading(t, want, k - 1);
    }
}

/// A keyword compares as the lower case of what is left without whitespace at its ends.
pub proof fn lemma_keyword(a: Seq<char>, k: Seq<char>, b: Seq<char>)
    requires
        forall|i: int| 0 <= i < a.len() ==> white_space(#[trigger] a[i]),
        forall|i: int| 0 <= i < b.len() ==> white_space(#[trigger] b[i]),
        k.len() > 0 ==> !white_space(k[0]) && !white_space(k.last()),
    ensures
        keyword(a + k + b) == lowercase(k),
{
    lemma_trim(a, k, b);
}

/// One more keyword is kept unless it compares as nothing or as one given before.
pub proof fn lemma_sanitized_push(ks: Seq<Seq<char>>, k: Seq<char>)
    ensures
        firsts(keywords(seq![])) == Seq::<Seq<char>>::empty(),
        keyword(k).len() > 0 && (forall|i: int|
            0 <= i < ks.len() ==> keyword(#[trigger] ks[i]) != keyword(k)) ==> firsts(
            keywords(ks.push(k)),
        ) == firsts(keywords(ks)).push(keyword(k)),
        (keyword(k).len() == 0 || exists|i: int|
            0 <= i < ks.len() && keyword(#[trigger] ks[i]) == keyword(k)) ==> firsts(
            keywords(ks.push(k)),
        ) == firsts(keywords(ks)),
{
    lemma_kept_once(keywords(ks), keyword(k));
    assert(keywords(ks.push(k)) =~= keywords(ks).push(keyword(k)));
    assert(keywords(seq![]) =~= Seq::<Seq<char>>::empty());
    if exists|i: int| 0 <= i < ks.len() && keyword(#[trigger] ks[i]) == keyword(k) {
        let i = choose|i: int| 0 <= i < ks.len() && keyword(#[trigger] ks[i]) == keyword(k);
        assert(keywords(ks)[i] == keyword(k));
    }
    if keywords(ks).contains(keyword(k)) {
        let i = keywords(ks).index_of(keyword(k));
        assert(keyword(ks[i]) == keyword(k));
    }
}

/// What keywords are searched in is the text in lower case with a space for everything but letters,
/// digits and whitespace, and its words with single spaces between them.
pub proof fn lemma_searched(s: Seq<char>, t: Seq<char>)
    requires
        t.len() == s.len(),
        forall|i: int|
            0 <= i < s.len() ==> (#[trigger] t[i]) == if alphanumeric(s[i]) || white_space(s[i]) {
                s[i]
            } else {
                ' '
            },
    ensures
        match_words(s) == words(lowercase(t)),
        match_text(s) == join(words(lowercase(t)), " "@),
{
    assert(s.map_values(|c: char| searchable(c)) =~= t);
}

/// The words of an ASCII text that keywords are searched among: what stands between two characters
/// that are neither letters nor digits is a word, in lower case.
pub proof fn lemma_ascii_words(a: Seq<char>, c: char, b: Seq<char>)
    ensures
        !ascii_alphanumeric(c) ==> ascii_match_words(a.push(c) + b) == ascii_match_words(a)
            + ascii_match_words(b),
        (forall|i: int| 0 <= i < a.len() ==> ascii_alphanumeric(#[trigger] a[i]))
            ==> ascii_match_words(a) == if a.len() == 0 {
            seq![]
        } else {
            seq![lower_ascii(a)]
        },
        ascii_match_text(a) == join(ascii_match_words(a), " "@),
{
    let f = |x: char| ascii_searchable(x);
    let ma = lower_ascii(a.map_values(f));
    let mb = lower_ascii(b.map_values(f));
    let mc = ascii_lower(ascii_searchable(c));
    let all = lower_ascii((a.push(c) + b).map_values(f));
    assert(all =~= ma.push(mc) + mb);
    lemma_words(ma, mc, mb);
    if forall|i: int| 0 <= i < a.len() ==> ascii_alphanumeric(#[trigger] a[i]) {
        assert forall|i: int| 0 <= i < a.len() implies ma[i] == lower_ascii(a)[i] && !white_space(
            #[trigger] ma[i],
        ) by {
            assert(ascii_alphanumeric(a[i]));
        }
        assert(ma =~= lower_ascii(a));
    }
}

/// A keyword is covered exactly where all of it stands in the copy, both as they are compared.
pub proof fn lemma_covered(copy: Seq<char>, k: Seq<char>)
    ensures
        covered(copy, k) <==> match_text(keyword(k)).len() > 0 && exists|a: Seq<char>, b: Seq<char>|
            match_text(copy) == #[trigger] (a + match_text(keyword(k)) + b),
{
    lemma_occurs(match_text(keyword(k)), match_text(copy));
}

/// Every word of a covered keyword stands in the copy.
pub proof fn lemma_covered_words(copy: Seq<char>, k: Seq<char>, i: int)
    requires
        covered(copy, k),
        0 <= i < match_words(keyword(k)).len(),
    ensures
        occurs(match_words(keyword(k))[i], match_text(copy)),
{
    lemma_part_joined(match_words(keyword(k)), " "@, i);
    lemma_occurs_within(match_words(keyword(k))[i], match_text(keyword(k)), match_text(copy));
}

/// A keyword whose words follow each other in the copy is covered.
pub proof fn lemma_words_covered(
    copy: Seq<char>,
    k: Seq<char>,
    a: Seq<Seq<char>>,
    b: Seq<Seq<char>>,
)
    requires
        match_words(keyword(k)).len() > 0,
        match_words(copy) == a + match_words(keyword(k)) + b,
    ensures
        covered(copy, k),
{
    let w = match_words(keyword(k));
    lemma_words_filled(lowercase(keyword(k).map_values(|c: char| searchable(c))));
    lemma_run_joined(a, w, b, " "@);
    lemma_part_joined(w, " "@, 0);
    let i = choose|i: int| stands_at(w[0], match_text(keyword(k)), i);
    assert(w[0].len() > 0);
}

/// A keyword of ASCII characters is covered in an ASCII text exactly where all of it stands there,
/// both as they are compared. Then every word of it does, and where its words follow each other
/// in the text it is.
pub proof fn lemma_ascii_covered(
    copy: Seq<char>,
    k: Seq<char>,
    i: int,
    a: Seq<Seq<char>>,
    b: Seq<Seq<char>>,
)
    ensures
        ascii_covered(copy, k) <==> ascii_match_text(ascii_keyword(k)).len() > 0 && exists|
            x: Seq<char>,
            y: Seq<char>,
        | ascii_match_text(copy) == #[trigger] (x + ascii_match_text(ascii_keyword(k)) + y),
        ascii_covered(copy, k) && 0 <= i < ascii_match_words(ascii_keyword(k)).len() ==> occurs(
            ascii_match_words(ascii_keyword(k))[i],
            ascii_match_text(copy),
        ),
        ascii_match_words(ascii_keyword(k)).len() > 0 && ascii_match_words(copy) == a
            + ascii_match_words(ascii_keyword(k)) + b ==> ascii_covered(copy, k),
{
    let w = ascii_match_words(ascii_keyword(k));
    let t = ascii_match_text(ascii_keyword(k));
    lemma_occurs(t, ascii_match_text(copy));
    if ascii_covered(copy, k) && 0 <= i < w.len() {
        lemma_part_joined(w, " "@, i);
        lemma_occurs_within(w[i], t, ascii_match_text(copy));
    }
    if w.len() > 0 && ascii_match_words(copy) == a + w + b {
        lemma_words_filled(
            lower_ascii(ascii_keyword(k).map_values(|c: char| ascii_searchable(c))),
        );
        lemma_run_joined(a, w, b, " "@);
        lemma_part_joined(w, " "@, 0);
        let j = choose|j: int| stands_at(w[0], t, j);
        assert(w[0].len() > 0);
    }
}

/// A keyword is matched exactly where it is given and covered, keywords keep their order, and each
/// is counted.
pub proof fn lemma_matched(ks: Seq<Seq<char>>, k: Seq<char>, copy: Seq<char>)
    ensures
        covered_keywords(seq![], copy) == Seq::<Seq<char>>::empty(),
        covered_keywords(ks.push(k), copy) == if covered(copy, k) {
            covered_keywords(ks, copy).push(k)
        } else {
            covered_keywords(ks, copy)
        },
{
    let yes = |x: Seq<char>| covered(copy, x);
    ks.lemma_filter_push(k, yes);
    assert(covered_keywords(seq![], copy) =~= Seq::<Seq<char>>::empty()) by {
        reveal(Seq::filter);
    }
}

/// Each emoji counts once. No ASCII character and no Hangul syllable is one; pictographs, signs,
/// arrows, stars, flags and the sign that asks for a picture are.
pub proof fn lemma_emojis(s: Seq<char>, t: Seq<char>, c: char)
    ensures
        emojis(seq![]) == 0,
        emojis(s.push(c)) == emojis(s) + if emoji(c) {
            1nat
        } else {
            0nat
        },
        c < '\u{2190}' ==> !emoji(c),
        '\u{2c00}' <= c <= '\u{fe0e}' ==> !emoji(c),
        '\u{2190}' <= c <= '\u{21ff}' ==> emoji(c),
        '\u{2200}' <= c <= '\u{25ff}' ==> !emoji(c),
        '\u{2600}' <= c <= '\u{27bf}' ==> emoji(c),
        '\u{27c0}' <= c <= '\u{2aff}' ==> !emoji(c),
        '\u{2b00}' <= c <= '\u{2bff}' ==> emoji(c),
        c == '\u{fe0f}' ==> emoji(c),
        '\u{fe10}' <= c <= '\u{1f1e5}' ==> !emoji(c),
        '\u{1f1e6}' <= c <= '\u{1f1ff}' ==> emoji(c),
        '\u{1f200}' <= c <= '\u{1f2ff}' ==> !emoji(c),
        '\u{1f300}' <= c <= '\u{1faff}' ==> emoji(c),
        '\u{1fb00}' <= c ==> !emoji(c),
{
    let p = |x: char| emoji(x);
    s.lemma_filter_push(c, p);
    assert(emojis(seq![]) == 0) by {
        reveal(Seq::filter);
    }
}

/// A field that is not there is as good as an empty one.
pub proof fn lemma_body(e: Seq<(Seq<char>, Seq<char>)>, id: Seq<char>)
    ensures
        lookup(e, id) is Some ==> body_of(e, id) == lookup(e, id)->Some_0,
        lookup(e, id) is None ==> body_of(e, id).len() == 0,
{
}

/// The length of the copy is that of all fields, and each of them is measured on its own.
pub proof fn lemma_lengths(fields: Seq<Section>, f: Section, e: Seq<(Seq<char>, Seq<char>)>)
    ensures
        total_len(seq![], e) == 0,
        total_len(fields.push(f), e) == total_len(fields, e) + body_of(e, f.id@).len(),
        ascending(field_lens(fields, e)),
        body_of(e, f.id@).len() <= usize::MAX ==> lookup(field_lens(fields.push(f), e), f.id@)
            == Some(body_of(e, f.id@).len() as usize),
        forall|id: Seq<char>|
            id != f.id@ ==> #[trigger] lookup(field_lens(fields.push(f), e), id) == lookup(
                field_lens(fields, e),
                id,
            ),
{
    assert(fields.push(f).drop_last() =~= fields);
    lemma_lens_ascending(fields, e);
    let n = body_of(e, f.id@).len() as usize;
    lemma_lookup_put(field_lens(fields, e), f.id@, n, f.id@);
    assert forall|id: Seq<char>| id != f.id@ implies #[trigger] lookup(
        field_lens(fields.push(f), e),
        id,
    ) == lookup(field_lens(fields, e), id) by {
        lemma_lookup_put(field_lens(fields, e), f.id@, n, id);
    }
}

proof fn lemma_lens_ascending(fields: Seq<Section>, e: Seq<(Seq<char>, Seq<char>)>)
    ensures
        ascending(field_lens(fields, e)),
    decreases fields.len(),
{
    if fields.len() > 0 {
        let t = fields.drop_last();
        lemma_lens_ascending(t, e);
        lemma_put_ascending(
            field_lens(t, e),
            fields.last().id@,
            body_of(e, fields.last().id@).len() as usize,
        );
    }
}

/// The copy is made of the bodies in the order of their fields' ids, a space between two of them,
/// and every body stands in it.
pub proof fn lemma_copy(e: Seq<(Seq<char>, Seq<char>)>, x: (Seq<char>, Seq<char>), i: int)
    ensures
        copy_text(seq![]) == Seq::<char>::empty(),
        copy_text(seq![x]) == x.1,
        e.len() > 0 ==> copy_text(e.push(x)) == copy_text(e) + " "@ + x.1,
        0 <= i < e.len() ==> occurs(e[i].1, copy_text(e)),
{
    lemma_join(values(e), x.1, " "@);
    assert(values(e.push(x)) =~= values(e).push(x.1));
    assert(values(seq![x]) =~= seq![x.1]);
    assert(values(Seq::<(Seq<char>, Seq<char>)>::empty()) =~= Seq::<Seq<char>>::empty());
    if 0 <= i < e.len() {
        lemma_part_joined(values(e), " "@, i);
    }
}

/// A field is missing exactly where it has to be filled and is not, and fields keep their order.
pub proof fn lemma_missing(fields: Seq<Section>, f: Section, e: Seq<(Seq<char>, Seq<char>)>)
    ensures
        missing(seq![], e) == Seq::<Seq<char>>::empty(),
        missing(fields.push(f), e) == if f.required && body_of(e, f.id@).len() == 0 {
            missing(fields, e).push(f.title@)
        } else {
            missing(fields, e)
        },
{
    let test = |s: Section| s.required && body_of(e, s.id@).len() == 0;
    let name = |s: Section| s.title@;
    fields.lemma_filter_push(f, test);
    assert(fields.filter(test).push(f).map_values(name) =~= fields.filter(test).map_values(
        name,
    ).push(f.title@));
    assert(missing(seq![], e) =~= Seq::<Seq<char>>::empty()) by {
        reveal(Seq::filter);
    }
}

/// A filled field is reported as too long above its limit, as too short below its minimum, and
/// Apple's keywords field as nearly full above nine tenths of its limit. An empty field is not.
pub proof fn lemma_length_report(store: Store, s: Section, n: nat)
    ensures
        length_issue(store, s, n).contains(over_issue(s, n)) <==> n > s.max_chars && n > 0,
        length_issue(store, s, n).len() == (if n > 0 && n > s.max_chars {
            1nat
        } else if 0 < n < s.min_chars {
            1nat
        } else {
            0nat
        }) + (if n > 0 && store == Store::Apple && s.id@ == "keywords"@ && n * 10 > s.max_chars * 9 {
            1nat
        } else {
            0nat
        }),
        0 < n <= s.max_chars && n < s.min_chars ==> length_issue(store, s, n)[0] == under_issue(
            s,
            n,
        ),
        n > s.max_chars ==> length_issue(store, s, n)[0] == over_issue(s, n),
        n > 0 && store == Store::Apple && s.id@ == "keywords"@ && n * 10 > s.max_chars * 9
            ==> length_issue(store, s, n).last() == uncertain_issue(s, n),
{
    let l = length_issue(store, s, n);
    lemma_length_texts(s, n);
    if n > s.max_chars && n > 0 {
        assert(l[0] == over_issue(s, n));
    } else if l.contains(over_issue(s, n)) {
        let k = l.index_of(over_issue(s, n));
        assert(l[k] == under_issue(s, n) || l[k] == uncertain_issue(s, n));
    }
}

proof fn lemma_length_texts(s: Section, n: nat)
    ensures
        over_issue(s, n) != under_issue(s, n),
        over_issue(s, n) != uncertain_issue(s, n),
{
    let o = over_issue(s, n);
    let u = under_issue(s, n);
    let k = s.title@.len() as int + 3;
    reveal_strlit("'");
    reveal_strlit("' exceeds character limit: ");
    reveal_strlit("' below recommended character count: ");
    reveal_strlit("[uncertain] keywords field is at ");
    assert(o[k] == 'e');
    assert(u[k] == 'b');
    assert(o[0] == '\'');
    assert(uncertain_issue(s, n)[0] == '[');
}

/// What is said of a length names the field, the length and the limit.
pub proof fn lemma_length_said(s: Section, n: nat)
    ensures
        occurs(s.title@, over_issue(s, n)),
        occurs(decimal(n), over_issue(s, n)),
        occurs(decimal(s.max_chars as nat), over_issue(s, n)),
        occurs(s.title@, under_issue(s, n)),
        occurs(decimal(n), under_issue(s, n)),
        occurs(decimal(s.min_chars as nat), under_issue(s, n)),
        occurs(decimal(n), uncertain_issue(s, n)),
        occurs(decimal(s.max_chars as nat), uncertain_issue(s, n)),
        occurs(s.title@, missing_issue(s.title@)),
{
    let none = Seq::<Seq<char>>::empty();
    let o1 = none.push("'"@);
    let o2 = o1.push(s.title@);
    let o3 = o2.push("' exceeds character limit: "@);
    let o4 = o3.push(decimal(n));
    let o5 = o4.push(" chars (max "@);
    let o6 = o5.push(decimal(s.max_chars as nat));
    let oe =
        " chars) → may be truncated or rejected at store submission, needs shortening"@;
    let o7 = o6.push(oe);
    lemma_glued_push(none, "'"@);
    lemma_glued_push(o1, s.title@);
    lemma_glued_push(o2, "' exceeds character limit: "@);
    lemma_glued_push(o3, decimal(n));
    lemma_glued_push(o4, " chars (max "@);
    lemma_glued_push(o5, decimal(s.max_chars as nat));
    lemma_glued_push(o6, oe);
    assert(o7[1] == s.title@ && o7[3] == decimal(n) && o7[5] == decimal(s.max_chars as nat));
    lemma_glued(o7, 1);
    lemma_glued(o7, 3);
    lemma_glued(o7, 5);
    let u3 = o2.push("' below recommended character count: "@);
    let u4 = u3.push(decimal(n));
    let u5 = u4.push(" chars (recommended "@);
    let u6 = u5.push(decimal(s.min_chars as nat));
    let u7 = u6.push("+ chars) → may waste exposure opportunity"@);
    lemma_glued_push(o2, "' below recommended character count: "@);
    lemma_glued_push(u3, decimal(n));
    lemma_glued_push(u4, " chars (recommended "@);
    lemma_glued_push(u5, decimal(s.min_chars as nat));
    lemma_glued_push(u6, "+ chars) → may waste exposure opportunity"@);
    assert(u7[1] == s.title@ && u7[3] == decimal(n) && u7[5] == decimal(s.min_chars as nat));
    lemma_glued(u7, 1);
    lemma_glued(u7, 3);
    lemma_glued(u7, 5);
    lemma_uncertain_said(s, n);
    lemma_stands("Required field '"@, s.title@, "' missing → needs to be filled in"@);
}

proof fn lemma_uncertain_said(s: Section, n: nat)
    ensures
        occurs(decimal(n), uncertain_issue(s, n)),
        occurs(decimal(s.max_chars as nat), uncertain_issue(s, n)),
{
    let none = Seq::<Seq<char>>::empty();
    let a = "[uncertain] keywords field is at "@;
    let b = decimal(n);
    let c = " chars, close to the limit ("@;
    let d = decimal(s.max_chars as nat);
    let e =
        " chars) — it's unclear from the documentation whether Apple's keywords field is measured in characters or bytes, so verify directly in App Store Connect (be especially careful with multi-byte characters such as Korean)"@;
    lemma_glued_push(none, a);
    lemma_glued_push(none.push(a), b);
    lemma_glued_push(none.push(a).push(b), c);
    lemma_glued_push(none.push(a).push(b).push(c), d);
    lemma_glued_push(none.push(a).push(b).push(c).push(d), e);
    let p = none.push(a).push(b).push(c).push(d).push(e);
    assert(p[1] == b && p[3] == d);
    lemma_glued(p, 1);
    lemma_glued(p, 3);
}

/// The length of every field is reported on, in the order of the fields.
pub proof fn lemma_length_reports(
    store: Store,
    fields: Seq<Section>,
    f: Section,
    e: Seq<(Seq<char>, Seq<char>)>,
)
    ensures
        length_issues(store, seq![], e) == Seq::<Seq<char>>::empty(),
        length_issues(store, fields.push(f), e) == length_issues(store, fields, e) + length_issue(
            store,
            f,
            body_of(e, f.id@).len(),
        ),
{
    assert(fields.push(f).drop_last() =~= fields);
}

/// A word is reported as repeated exactly where it has two characters or more and stands in two of
/// the fields among which the store removes repeated keywords. The words are in order.
pub proof fn lemma_repeated_words(spec: Spec, doc: Seq<char>, t: Seq<char>)
    ensures
        measured(spec, doc).duplicate_keywords.contains(t) <==> t.len() >= 2 && exists|
            i: int,
            j: int,
        |
            0 <= i < j < spec.sections@.len() && #[trigger] holds_word(spec, doc, i, t)
                && #[trigger] holds_word(spec, doc, j, t),
        measured(spec, doc).duplicate_keywords.no_duplicates(),
        forall|a: int, b: int|
            0 <= a < b < measured(spec, doc).duplicate_keywords.len() ==> precedes(
                #[trigger] measured(spec, doc).duplicate_keywords[a],
                #[trigger] measured(spec, doc).duplicate_keywords[b],
            ),
{
    let e = doc_bodies(spec, doc);
    let fields = spec.sections@;
    let lists = dedup_words(fields, e);
    lemma_shared_listed(lists);
    assert(measured(spec, doc).duplicate_keywords == shared_words(lists));
    assert(shared_words(lists).contains(t) <==> shared(lists, t));
    if shared(lists, t) {
        let (a, b) = choose|a: int, b: int| shared_at(lists, t, a, b);
        let i = lemma_dedup_from(fields, e, a);
        let j = lemma_dedup_from(fields, e, b);
        lemma_dedup_order(fields, e, i, j);
        assert(holds_word(spec, doc, i, t) && holds_word(spec, doc, j, t));
        assert(i < j);
    }
    if t.len() >= 2 && exists|i: int, j: int|
        0 <= i < j < fields.len() && #[trigger] holds_word(spec, doc, i, t) && #[trigger] holds_word(
            spec,
            doc,
            j,
            t,
        ) {
        let (i, j) = choose|i: int, j: int|
            0 <= i < j < fields.len() && #[trigger] holds_word(spec, doc, i, t)
                && #[trigger] holds_word(spec, doc, j, t);
        lemma_dedup_at(fields, e, i);
        lemma_dedup_at(fields, e, j);
        lemma_dedup_order(fields, e, i, j);
        assert(shared_at(lists, t, rank_of(fields, i), rank_of(fields, j)));
    }
}

/// Field `i` is one among which the store removes repeated keywords, and holds the word.
pub open spec fn holds_word(spec: Spec, doc: Seq<char>, i: int, t: Seq<char>) -> bool {
    spec.sections@[i].keyword_dedup_target && match_words(
        body_of(doc_bodies(spec, doc), spec.sections@[i].id@),
    ).contains(t)
}

/// How many fields before position `i` the store removes repeated keywords among.
pub open spec fn rank_of(fields: Seq<Section>, i: int) -> int
    decreases i,
{
    if i <= 0 {
        0
    } else {
        rank_of(fields, i - 1) + if fields[i - 1].keyword_dedup_target {
            1int
        } else {
            0int
        }
    }
}

proof fn lemma_dedup_len(fields: Seq<Section>, e: Seq<(Seq<char>, Seq<char>)>)
    ensures
        dedup_words(fields, e).len() == rank_of(fields, fields.len() as int),
    decreases fields.len(),
{
    if fields.len() > 0 {
        let t = fields.drop_last();
        lemma_dedup_len(t, e);
        lemma_rank_prefix(fields, t.len() as int);
    }
}

proof fn lemma_rank_prefix(fields: Seq<Section>, i: int)
    requires
        0 <= i < fields.len(),
    ensures
        rank_of(fields.drop_last(), i) == rank_of(fields, i),
    decreases i,
{
    if i > 0 {
        lemma_rank_prefix(fields, i - 1);
        assert(fields.drop_last()[i - 1] == fields[i - 1]);
    }
}

proof fn lemma_dedup_at(fields: Seq<Section>, e: Seq<(Seq<char>, Seq<char>)>, i: int)
    requires
        0 <= i < fields.len(),
        fields[i].keyword_dedup_target,
    ensures
        0 <= rank_of(fields, i) < dedup_words(fields, e).len(),
        dedup_words(fields, e)[rank_of(fields, i)] == match_words(body_of(e, fields[i].id@)),
    decreases fields.len(),
{
    let t = fields.drop_last();
    lemma_dedup_len(t, e);
    lemma_rank_prefix(fields, i);
    if i < t.len() {
        assert(t[i] == fields[i]);
        lemma_dedup_at(t, e, i);
    } else {
        lemma_rank_nonneg(fields, i);
    }
}

proof fn lemma_rank_nonneg(fields: Seq<Section>, i: int)
    ensures
        rank_of(fields, i) >= 0,
    decreases i,
{
    if i > 0 {
        lemma_rank_nonneg(fields, i - 1);
    }
}

proof fn lemma_dedup_from(fields: Seq<Section>, e: Seq<(Seq<char>, Seq<char>)>, a: int) -> (i: int)
    requires
        0 <= a < dedup_words(fields, e).len(),
    ensures
        0 <= i < fields.len(),
        fields[i].keyword_dedup_target,
        rank_of(fields, i) == a,
        dedup_words(fields, e)[a] == match_words(body_of(e, fields[i].id@)),
    decreases fields.len(),
{
    let t = fields.drop_last();
    lemma_dedup_len(t, e);
    if a < dedup_words(t, e).len() {
        let i = lemma_dedup_from(t, e, a);
        assert(t[i] == fields[i]);
        lemma_rank_prefix(fields, i);
        i
    } else {
        lemma_rank_prefix(fields, t.len() as int);
        fields.len() - 1
    }
}

proof fn lemma_rank_grows(fields: Seq<Section>, i: int, j: int)
    requires
        0 <= i <= j,
    ensures
        rank_of(fields, i) <= rank_of(fields, j),
    decreases j - i,
{
    if i < j {
        lemma_rank_grows(fields, i, j - 1);
    }
}

proof fn lemma_dedup_order(fields: Seq<Section>, e: Seq<(Seq<char>, Seq<char>)>, i: int, j: int)
    requires
        0 <= i < fields.len(),
        0 <= j < fields.len(),
        fields[i].keyword_dedup_target,
        fields[j].keyword_dedup_target,
    ensures
        rank_of(fields, i) < rank_of(fields, j) <==> i < j,
{
    if i < j {
        lemma_rank_grows(fields, i + 1, j);
    } else {
        lemma_rank_grows(fields, j, i);
    }
}

/// How many things are reported of a document: one for each missing field, each length, each banned
/// phrase and each claim, and one each where keywords are given twice, words are repeated across
/// fields, keywords are not covered, or there are too many emojis.
pub proof fn lemma_issue_count(spec: Spec, doc: Seq<char>, brief: Option<Seq<char>>)
    ensures
        issues(spec, doc, brief).len() == missing(spec.sections@, doc_bodies(spec, doc)).len()
            + length_issues(spec.store, spec.sections@, doc_bodies(spec, doc)).len() + (if firsts(
            keywords(texts(spec.target_keywords@)),
        ).len() < spec.target_keywords@.len() {
            1nat
        } else {
            0nat
        }) + (if measured(spec, doc).duplicate_keywords.len() > 0 {
            1nat
        } else {
            0nat
        }) + (if exists|i: int|
            0 <= i < spec.target_keywords@.len() && !covered(
                copy_text(doc_bodies(spec, doc)),
                (#[trigger] spec.target_keywords@[i])@,
            ) {
            1nat
        } else {
            0nat
        }) + (if emojis(copy_text(doc_bodies(spec, doc))) > spec.emoji_max {
            1nat
        } else {
            0nat
        }) + banned(texts(spec.banned_terms@), copy_text(doc_bodies(spec, doc))).len()
            + claim_issues(doc, brief).len(),
{
    let ks = texts(spec.target_keywords@);
    let copy = copy_text(doc_bodies(spec, doc));
    lemma_coverage(ks, copy);
    assert forall|i: int| 0 <= i < ks.len() implies #[trigger] ks[i] == spec.target_keywords@[i]@ by {}
    if uncovered_keywords(ks, copy).len() == 0 {
        assert forall|i: int| 0 <= i < spec.target_keywords@.len() implies covered(
            copy,
            (#[trigger] spec.target_keywords@[i])@,
        ) by {
            assert(covered(copy, ks[i]));
        }
    } else {
        let i = choose|i: int| 0 <= i < ks.len() && !covered(copy, #[trigger] ks[i]);
        assert(!covered(copy, spec.target_keywords@[i]@));
    }
}

/// Every field that is missing is reported, and all that is wrong with the length of a field.
pub proof fn lemma_field_reported(spec: Spec, doc: Seq<char>, brief: Option<Seq<char>>, i: int)
    requires
        0 <= i < spec.sections@.len(),
    ensures
        spec.sections@[i].required && body_of(doc_bodies(spec, doc), spec.sections@[i].id@).len()
            == 0 ==> issues(spec, doc, brief).contains(
            "Required field '"@ + spec.sections@[i].title@ + "' missing → needs to be filled in"@,
        ),
        forall|x: Seq<char>|
            length_issue(
                spec.store,
                spec.sections@[i],
                body_of(doc_bodies(spec, doc), spec.sections@[i].id@).len(),
            ).contains(x) ==> #[trigger] issues(spec, doc, brief).contains(x),
{
    let e = doc_bodies(spec, doc);
    let fields = spec.sections@;
    let f = fields[i];
    let all = issues(spec, doc, brief);
    let a = missing(fields, e).map_values(|t: Seq<char>| missing_issue(t));
    let b = length_issues(spec.store, fields, e);
    let rest = all.skip((a.len() + b.len()) as int);
    assert(all =~= a + b + rest);
    if f.required && body_of(e, f.id@).len() == 0 {
        let test = |s: Section| s.required && body_of(e, s.id@).len() == 0;
        fields.lemma_filter_contains(test, i);
        let k = fields.filter(test).index_of(f);
        assert(missing(fields, e)[k] == f.title@);
        assert(a[k] == missing_issue(f.title@));
        assert(all[k] == missing_issue(f.title@));
    }
    let l = length_issue(spec.store, f, body_of(e, f.id@).len());
    assert forall|x: Seq<char>| l.contains(x) implies #[trigger] all.contains(x) by {
        lemma_length_kept(spec.store, fields, e, i, x);
        assert(all[a.len() + b.index_of(x)] == x);
    }
}

proof fn lemma_length_kept(
    store: Store,
    fields: Seq<Section>,
    e: Seq<(Seq<char>, Seq<char>)>,
    i: int,
    x: Seq<char>,
)
    requires
        0 <= i < fields.len(),
        length_issue(store, fields[i], body_of(e, fields[i].id@).len()).contains(x),
    ensures
        length_issues(store, fields, e).contains(x),
    decreases fields.len(),
{
    let t = fields.drop_last();
    let a = length_issues(store, t, e);
    let b = length_issue(store, fields.last(), body_of(e, fields.last().id@).len());
    if i < t.len() {
        assert(t[i] == fields[i]);
        lemma_length_kept(store, t, e, i, x);
        assert((a + b)[a.index_of(x)] == x);
    } else {
        assert((a + b)[a.len() + b.index_of(x)] == x);
    }
}

/// Every banned phrase and every unfounded claim is reported.
pub proof fn lemma_phrase_reported(spec: Spec, doc: Seq<char>, brief: Option<Seq<char>>, i: int)
    ensures
        0 <= i < banned(texts(spec.banned_terms@), copy_text(doc_bodies(spec, doc))).len() ==> issues(
            spec,
            doc,
            brief,
        ).contains(
            "banned expression detected — "@ + banned(
                texts(spec.banned_terms@),
                copy_text(doc_bodies(spec, doc)),
            )[i] + " → needs to be replaced (trademark/false-advertising risk)"@,
        ),
        0 <= i < claim_issues(doc, brief).len() ==> issues(spec, doc, brief).contains(
            claim_issues(doc, brief)[i],
        ),
{
    let all = issues(spec, doc, brief);
    let hits = banned(texts(spec.banned_terms@), copy_text(doc_bodies(spec, doc)));
    let said = hits.map_values(|h: Seq<char>| banned_issue(h));
    let facts = claim_issues(doc, brief);
    let n = all.len() - said.len() - facts.len();
    assert(all =~= all.take(n) + said + facts);
    if 0 <= i < hits.len() {
        assert(said[i] == banned_issue(hits[i]));
        assert(all[n + i] == banned_issue(hits[i]));
    }
    if 0 <= i < facts.len() {
        assert(all[n + said.len() + i] == facts[i]);
    }
}

/// A keyword that is not covered is named in a report, and so is a word that is repeated across
/// fields.
pub proof fn lemma_keyword_reported(
    spec: Spec,
    doc: Seq<char>,
    brief: Option<Seq<char>>,
    i: int,
    t: Seq<char>,
)
    ensures
        0 <= i < spec.target_keywords@.len() && !covered(
            copy_text(doc_bodies(spec, doc)),
            spec.target_keywords@[i]@,
        ) ==> exists|n: int|
            0 <= n < issues(spec, doc, brief).len() && occurs(
                spec.target_keywords@[i]@,
                #[trigger] issues(spec, doc, brief)[n],
            ) && occurs("target keyword coverage "@, issues(spec, doc, brief)[n]),
        measured(spec, doc).duplicate_keywords.contains(t) ==> exists|n: int|
            0 <= n < issues(spec, doc, brief).len() && occurs(
                t,
                #[trigger] issues(spec, doc, brief)[n],
            ) && occurs(
                " keyword duplicate(s) across fields: "@,
                issues(spec, doc, brief)[n],
            ),
{
    let e = doc_bodies(spec, doc);
    let copy = copy_text(e);
    let m = measured(spec, doc);
    let ks = texts(spec.target_keywords@);
    let all = issues(spec, doc, brief);
    let a = missing(spec.sections@, e).map_values(|x: Seq<char>| missing_issue(x)) + length_issues(
        spec.store,
        spec.sections@,
        e,
    ) + repeated_issues(spec.target_keywords@.len(), firsts(keywords(ks)).len());
    let b = duplicate_issues(m.duplicate_keywords);
    let c = coverage_issues(ks, m);
    let rest = all.skip((a.len() + b.len() + c.len()) as int);
    assert(all =~= a + b + c + rest);
    if 0 <= i < spec.target_keywords@.len() && !covered(copy, spec.target_keywords@[i]@) {
        lemma_coverage(ks, copy);
        assert(ks[i] == spec.target_keywords@[i]@);
        let no = |k: Seq<char>| !covered(copy, k);
        assert(no(ks[i]));
        ks.lemma_filter_contains(no, i);
        let u = uncovered_keywords(ks, copy);
        let k = u.index_of(ks[i]);
        assert(u.len() > 0);
        assert(c.len() == 1);
        lemma_coverage_said(m, u, k);
        assert(ks.filter(|x: Seq<char>| !m.matched_keywords.contains(x)) == u);
        let n = (a.len() + b.len()) as int;
        assert(all[n] == c[0]);
    }
    if m.duplicate_keywords.contains(t) {
        let k = m.duplicate_keywords.index_of(t);
        lemma_duplicates_said(m.duplicate_keywords, k);
        let n = a.len() as int;
        assert(all[n] == b[0]);
    }
}

proof fn lemma_coverage_said(m: MetricsView, u: Seq<Seq<char>>, k: int)
    requires
        0 <= k < u.len(),
    ensures
        occurs(
            u[k],
            "target keyword coverage "@ + decimal(m.keyword_coverage) + "/"@ + decimal(
                m.keyword_total,
            ) + " → not covered: "@ + join(u, ", "@),
        ),
        occurs(
            "target keyword coverage "@,
            "target keyword coverage "@ + decimal(m.keyword_coverage) + "/"@ + decimal(
                m.keyword_total,
            ) + " → not covered: "@ + join(u, ", "@),
        ),
{
    let none = Seq::<Seq<char>>::empty();
    let p1 = none.push("target keyword coverage "@);
    let p2 = p1.push(decimal(m.keyword_coverage));
    let p3 = p2.push("/"@);
    let p4 = p3.push(decimal(m.keyword_total));
    let p5 = p4.push(" → not covered: "@);
    let p6 = p5.push(join(u, ", "@));
    lemma_glued_push(none, "target keyword coverage "@);
    lemma_glued_push(p1, decimal(m.keyword_coverage));
    lemma_glued_push(p2, "/"@);
    lemma_glued_push(p3, decimal(m.keyword_total));
    lemma_glued_push(p4, " → not covered: "@);
    lemma_glued_push(p5, join(u, ", "@));
    assert(p6[0] == "target keyword coverage "@ && p6[5] == join(u, ", "@));
    lemma_glued(p6, 0);
    lemma_glued(p6, 5);
    lemma_part_joined(u, ", "@, k);
    lemma_occurs_within(
        u[k],
        join(u, ", "@),
        "target keyword coverage "@ + decimal(m.keyword_coverage) + "/"@ + decimal(m.keyword_total)
            + " → not covered: "@ + join(u, ", "@),
    );
}

proof fn lemma_duplicates_said(dups: Seq<Seq<char>>, k: int)
    requires
        0 <= k < dups.len(),
    ensures
        occurs(dups[k], duplicate_issues(dups)[0]),
        occurs(" keyword duplicate(s) across fields: "@, duplicate_issues(dups)[0]),
{
    let none = Seq::<Seq<char>>::empty();
    let a = decimal(dups.len());
    let b = " keyword duplicate(s) across fields: "@;
    let c = join(dups, ", "@);
    let d = " → placing duplicates across auto-dedup target fields wastes character count"@;
    let p = none.push(a).push(b).push(c).push(d);
    lemma_glued_push(none, a);
    lemma_glued_push(none.push(a), b);
    lemma_glued_push(none.push(a).push(b), c);
    lemma_glued_push(none.push(a).push(b).push(c), d);
    assert(p[1] == b && p[2] == c);
    lemma_glued(p, 1);
    lemma_glued(p, 2);
    lemma_part_joined(dups, ", "@, k);
    lemma_occurs_within(dups[k], c, duplicate_issues(dups)[0]);
}

/// Too many emojis are reported with their number and the number allowed, and target keywords that
/// are given twice with how many there are and how many are left.
pub proof fn lemma_numbers_said(n: nat, most: nat)
    ensures
        emoji_issues(n, most).len() == if n > most {
            1nat
        } else {
            0nat
        },
        n > most ==> occurs(decimal(n), emoji_issues(n, most)[0]) && occurs(
            decimal(most),
            emoji_issues(n, most)[0],
        ),
        repeated_issues(n, most).len() == if most < n {
            1nat
        } else {
            0nat
        },
        most < n ==> occurs(decimal(n), repeated_issues(n, most)[0]) && occurs(
            decimal(most),
            repeated_issues(n, most)[0],
        ),
{
    if n > most {
        let none = Seq::<Seq<char>>::empty();
        let a = decimal(n);
        let b = " emoji used (allowed "@;
        let c = decimal(most);
        let d = ") → excessive emoji may be perceived as spam, reduce usage"@;
        let p = none.push(a).push(b).push(c).push(d);
        lemma_glued_push(none, a);
        lemma_glued_push(none.push(a), b);
        lemma_glued_push(none.push(a).push(b), c);
        lemma_glued_push(none.push(a).push(b).push(c), d);
        assert(p[0] == a && p[2] == c);
        lemma_glued(p, 0);
        lemma_glued(p, 2);
        let f = "spec's target_keywords contains duplicate entries ("@;
        let g = " → "@;
        let h = " after normalization) → recommend cleaning up in TOML"@;
        let q = none.push(f).push(a).push(g).push(c).push(h);
        lemma_glued_push(none, f);
        lemma_glued_push(none.push(f), a);
        lemma_glued_push(none.push(f).push(a), g);
        lemma_glued_push(none.push(f).push(a).push(g), c);
        lemma_glued_push(none.push(f).push(a).push(g).push(c), h);
        assert(q[1] == a && q[3] == c);
        lemma_glued(q, 1);
        lemma_glued(q, 3);
    }
}


/// What is measured of a document is measured of its fields: the copy is what stands under their
/// headings, and nothing else of the document counts.
pub proof fn lemma_measured(spec: Spec, doc: Seq<char>)
    ensures
        measured(spec, doc).total_chars == total_len(spec.sections@, doc_bodies(spec, doc)),
        measured(spec, doc).field_chars == field_lens(spec.sections@, doc_bodies(spec, doc)),
        measured(spec, doc).keyword_total == spec.target_keywords@.len(),
        measured(spec, doc).keyword_coverage == measured(spec, doc).matched_keywords.len(),
        measured(spec, doc).matched_keywords == covered_keywords(
            texts(spec.target_keywords@),
            copy_text(doc_bodies(spec, doc)),
        ),
        measured(spec, doc).emoji_count == emojis(copy_text(doc_bodies(spec, doc))),
        measured(spec, doc).banned_hits == banned(
            texts(spec.banned_terms@),
            copy_text(doc_bodies(spec, doc)),
        ),
        countable(spec, doc) <==> measured(spec, doc).total_chars <= usize::MAX,
{
}

/// Two documents whose fields hold the same are measured the same.
pub proof fn lemma_same_fields(spec: Spec, a: Seq<char>, b: Seq<char>)
    requires
        doc_bodies(spec, a) == doc_bodies(spec, b),
    ensures
        measured(spec, a) == measured(spec, b),
        missing(spec.sections@, doc_bodies(spec, a)) == missing(
            spec.sections@,
            doc_bodies(spec, b),
        ),
        issues(spec, a, None) == issues(spec, b, None),
{
}

/// A measurement holds what its fields hold.
pub proof fn lemma_metrics_view(m: Metrics)
    ensures
        m@.total_chars == m.total_chars,
        m@.field_chars == m.field_chars@,
        m@.keyword_coverage == m.keyword_coverage,
        m@.keyword_total == m.keyword_total,
        m@.emoji_count == m.emoji_count,
        m@.matched_keywords == Seq::new(
            m.matched_keywords@.len(),
            |i: int| m.matched_keywords@[i]@,
        ),
        m@.duplicate_keywords == Seq::new(
            m.duplicate_keywords@.len(),
            |i: int| m.duplicate_keywords@[i]@,
        ),
        m@.banned_hits == Seq::new(m.banned_hits@.len(), |i: int| m.banned_hits@[i]@),
{
    assert(m@.matched_keywords =~= Seq::new(
        m.matched_keywords@.len(),
        |i: int| m.matched_keywords@[i]@,
    ));
    assert(m@.duplicate_keywords =~= Seq::new(
        m.duplicate_keywords@.len(),
        |i: int| m.duplicate_keywords@[i]@,
    ));
    assert(m@.banned_hits =~= Seq::new(m.banned_hits@.len(), |i: int| m.banned_hits@[i]@));
}

/// A keyword is found exactly where what is wanted for it is not empty and stands in the text, and
/// keywords keep their order.
pub proof fn lemma_found(
    ks: Seq<Seq<char>>,
    k: Seq<char>,
    wanted: Seq<Seq<char>>,
    text: Seq<char>,
)
    requires
        wanted.len() > ks.len(),
    ensures
        found_keywords(seq![], wanted, text) == Seq::<Seq<char>>::empty(),
        found_keywords(ks.push(k), wanted, text) == if wanted[ks.len() as int].len() > 0 && occurs(
            wanted[ks.len() as int],
            text,
        ) {
            found_keywords(ks, wanted, text).push(k)
        } else {
            found_keywords(ks, wanted, text)
        },
{
    assert(ks.push(k).drop_last() =~= ks);
}

/// A field is read from the first heading whose key it wants, without whitespace at the ends, and
/// has nothing where there is none.
pub proof fn lemma_first_key(
    secs: Seq<(Seq<char>, Seq<char>)>,
    keys: Seq<Seq<char>>,
    want: Seq<char>,
    k: int,
)
    requires
        keys.len() == secs.len(),
        0 <= k <= secs.len(),
        forall|j: int| 0 <= j < k ==> (#[trigger] secs[j]).0.len() == 0 || keys[j] != want,
        k < secs.len() ==> secs[k].0.len() > 0 && keys[k] == want,
    ensures
        body_with_key(secs, keys, want) == if k < secs.len() {
            Some(trim(secs[k].1))
        } else {
            None
        },
    decreases k,
{
    if k > 0 {
        assert(secs[0].0.len() == 0 || keys[0] != want);
        let t = secs.drop_first();
        let u = keys.drop_first();
        assert forall|j: int| 0 <= j < k - 1 implies (#[trigger] t[j]).0.len() == 0 || u[j] != want by {
            assert(t[j] == secs[j + 1]);
            assert(u[j] == keys[j + 1]);
        }
        lemma_first_key(t, u, want, k - 1);
    }
}

/// One more field is bound to what it is read as, in place of what its id was bound to, and to
/// nothing new where nothing is read.
pub proof fn lemma_field_bound(
    fields: Seq<Section>,
    f: Section,
    wants: Seq<Seq<char>>,
    secs: Seq<(Seq<char>, Seq<char>)>,
    keys: Seq<Seq<char>>,
)
    ensures
        bodies_with_keys(seq![], wants, secs, keys).len() == 0,
        bodies_with_keys(fields.push(f), wants, secs, keys) == match body_with_key(
            secs,
            keys,
            wants[fields.len() as int],
        ) {
            Some(b) => put(bodies_with_keys(fields, wants, secs, keys), f.id@, b),
            None => bodies_with_keys(fields, wants, secs, keys),
        },
{
    assert(fields.push(f).drop_last() =~= fields);
}

} // verus!
