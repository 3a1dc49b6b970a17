//! Laws of phrases: nothing that a pattern finds goes unreported, and nothing else is reported.
use crate::laws::text::{lemma_kept_once, lemma_stands};
use crate::pattern::{all_matches, compiles, first_match};
use crate::phrases::{
    banned, claim_issue, claim_issues, claim_patterns, claims, cut, first_matches, hits,
    lemma_unfounded, price_patterns, reported_claims, superlative_patterns, unfounded, usable,
};
use crate::text::{blank, firsts, occurs, trim};
use vstd::prelude::*;

verus! {

/// A pattern is used exactly where it is a regular expression, and patterns keep their order.
pub proof fn lemma_usable(patterns: Seq<Seq<char>>, p: Seq<char>)
    ensures
        usable(seq![]) == Seq::<Seq<char>>::empty(),
        usable(patterns.push(p)) == if compiles(p) {
            usable(patterns).push(p)
        } else {
            usable(patterns)
        },
        usable(patterns).contains(p) <==> patterns.contains(p) && compiles(p),
{
    let good = |q: Seq<char>| compiles(q);
    patterns.lemma_filter_push(p, good);
    assert(usable(seq![]) =~= Seq::<Seq<char>>::empty()) by {
        reveal(Seq::filter);
    }
    if usable(patterns).contains(p) {
        patterns.lemma_filter_pred(good, usable(patterns).index_of(p));
        patterns.lemma_filter_contains_rev(good, p);
    }
    if patterns.contains(p) && compiles(p) {
        patterns.lemma_filter_contains(good, patterns.index_of(p));
    }
}

/// Each pattern that finds something is reported once, in the order of the patterns, under the
/// label and with what it finds in quotes. A pattern that finds nothing is not.
pub proof fn lemma_hits(label: Seq<char>, patterns: Seq<Seq<char>>, p: Seq<char>, text: Seq<char>)
    ensures
        hits(label, seq![], text) == Seq::<Seq<char>>::empty(),
        hits(label, patterns.push(p), text) == match first_match(p, text) {
            Some(m) => hits(label, patterns, text).push(label + ": \""@ + m + "\""@),
            None => hits(label, patterns, text),
        },
{
    let f = first_matches(patterns, text);
    assert(first_matches(patterns.push(p), text) =~= f.push(first_match(p, text)));
    assert(f.push(first_match(p, text)).drop_last() =~= f);
    assert(first_matches(seq![], text) =~= Seq::<Option<Seq<char>>>::empty());
}

/// What a pattern finds is among what is reported.
pub proof fn lemma_hit_reported(
    label: Seq<char>,
    patterns: Seq<Seq<char>>,
    i: int,
    text: Seq<char>,
)
    requires
        0 <= i < patterns.len(),
        first_match(patterns[i], text) is Some,
    ensures
        hits(label, patterns, text).contains(
            label + ": \""@ + first_match(patterns[i], text)->Some_0 + "\""@,
        ),
    decreases patterns.len(),
{
    let t = patterns.drop_last();
    let h = label + ": \""@ + first_match(patterns[i], text)->Some_0 + "\""@;
    assert(patterns =~= t.push(patterns.last()));
    lemma_hits(label, t, patterns.last(), text);
    if i < t.len() {
        lemma_hit_reported(label, t, i, text);
        assert(hits(label, patterns, text)[hits(label, t, text).index_of(h)] == h);
    } else {
        assert(hits(label, patterns, text).last() == h);
    }
}

/// What is reported was found by a pattern.
pub proof fn lemma_hit_found(label: Seq<char>, patterns: Seq<Seq<char>>, text: Seq<char>, h: Seq<char>)
    requires
        hits(label, patterns, text).contains(h),
    ensures
        exists|i: int|
            0 <= i < patterns.len() && first_match(#[trigger] patterns[i], text) is Some && h == label
                + ": \""@ + first_match(patterns[i], text)->Some_0 + "\""@,
    decreases patterns.len(),
{
    lemma_hits(label, seq![], seq![], text);
    if patterns.len() == 0 {
        assert(patterns =~= seq![]);
    } else {
        let t = patterns.drop_last();
        let p = patterns.last();
        assert(patterns =~= t.push(p));
        lemma_hits(label, t, p, text);
        let k = hits(label, patterns, text).index_of(h);
        if k < hits(label, t, text).len() {
            assert(hits(label, t, text)[k] == h);
            lemma_hit_found(label, t, text, h);
            let i = choose|i: int|
                0 <= i < t.len() && first_match(#[trigger] t[i], text) is Some && h == label
                    + ": \""@ + first_match(t[i], text)->Some_0 + "\""@;
            assert(patterns[i] == t[i]);
        } else {
            assert(patterns[patterns.len() - 1] == p);
        }
    }
}

/// A text in which a usable pattern finds something is reported, whichever list the pattern
/// stands in: superlatives, prices, or the terms that the description bans.
pub proof fn lemma_banned_reported(terms: Seq<Seq<char>>, text: Seq<char>, p: Seq<char>)
    requires
        compiles(p),
        first_match(p, text) is Some,
    ensures
        superlative_patterns().contains(p) ==> banned(terms, text).contains(
            "superlative expression: \""@ + first_match(p, text)->Some_0 + "\""@,
        ),
        price_patterns().contains(p) ==> banned(terms, text).contains(
            "price phrase: \""@ + first_match(p, text)->Some_0 + "\""@,
        ),
        terms.contains(p) ==> banned(terms, text).contains(
            "banned term (spec-defined): \""@ + first_match(p, text)->Some_0 + "\""@,
        ),
{
    let m = first_match(p, text)->Some_0;
    let a = hits("superlative expression"@, usable(superlative_patterns()), text);
    let b = hits("price phrase"@, usable(price_patterns()), text);
    let c = hits("banned term (spec-defined)"@, usable(terms), text);
    reveal_strlit(": \"");
    reveal_strlit("superlative expression");
    reveal_strlit("superlative expression: \"");
    reveal_strlit("price phrase");
    reveal_strlit("price phrase: \"");
    reveal_strlit("banned term (spec-defined)");
    reveal_strlit("banned term (spec-defined): \"");
    assert("superlative expression: \""@ =~= "superlative expression"@ + ": \""@);
    assert("price phrase: \""@ =~= "price phrase"@ + ": \""@);
    assert("banned term (spec-defined): \""@ =~= "banned term (spec-defined)"@ + ": \""@);
    let all = banned(terms, text);
    assert(all == a + b + c);
    if superlative_patterns().contains(p) {
        let u = usable(superlative_patterns());
        lemma_usable(superlative_patterns(), p);
        lemma_hit_reported("superlative expression"@, u, u.index_of(p), text);
        let h = "superlative expression: \""@ + m + "\""@;
        assert(all[a.index_of(h)] == h);
    }
    if price_patterns().contains(p) {
        let u = usable(price_patterns());
        lemma_usable(price_patterns(), p);
        lemma_hit_reported("price phrase"@, u, u.index_of(p), text);
        let h = "price phrase: \""@ + m + "\""@;
        assert(all[a.len() + b.index_of(h)] == h);
    }
    if terms.contains(p) {
        let u = usable(terms);
        lemma_usable(terms, p);
        lemma_hit_reported("banned term (spec-defined)"@, u, u.index_of(p), text);
        let h = "banned term (spec-defined): \""@ + m + "\""@;
        assert(all[a.len() + b.len() + c.index_of(h)] == h);
    }
}

/// Where no usable pattern of the three lists finds anything, nothing is reported.
pub proof fn lemma_nothing_banned(terms: Seq<Seq<char>>, text: Seq<char>)
    ensures
        banned(terms, text).len() == 0 <==> forall|p: Seq<char>|
            compiles(p) && (superlative_patterns().contains(p) || price_patterns().contains(p)
                || terms.contains(p)) ==> (#[trigger] first_match(p, text)) is None,
{
    if banned(terms, text).len() == 0 {
        assert forall|p: Seq<char>|
            compiles(p) && (superlative_patterns().contains(p) || price_patterns().contains(p)
                || terms.contains(p)) implies (#[trigger] first_match(p, text)) is None by {
            if first_match(p, text) is Some {
                lemma_banned_reported(terms, text, p);
            }
        }
    } else {
        let a = hits("superlative expression"@, usable(superlative_patterns()), text);
        let b = hits("price phrase"@, usable(price_patterns()), text);
        let c = hits("banned term (spec-defined)"@, usable(terms), text);
        if a.len() > 0 {
            lemma_list_finds("superlative expression"@, superlative_patterns(), text);
        } else if b.len() > 0 {
            lemma_list_finds("price phrase"@, price_patterns(), text);
        } else {
            lemma_list_finds("banned term (spec-defined)"@, terms, text);
        }
    }
}

proof fn lemma_list_finds(label: Seq<char>, patterns: Seq<Seq<char>>, text: Seq<char>)
    requires
        hits(label, usable(patterns), text).len() > 0,
    ensures
        exists|p: Seq<char>|
            patterns.contains(p) && compiles(p) && (#[trigger] first_match(p, text)) is Some,
{
    let u = usable(patterns);
    let h = hits(label, u, text)[0];
    assert(hits(label, u, text).contains(h));
    lemma_hit_found(label, u, text, h);
    let i = choose|i: int|
        0 <= i < u.len() && first_match(#[trigger] u[i], text) is Some && h == label + ": \""@
            + first_match(u[i], text)->Some_0 + "\""@;
    assert(u.contains(u[i]));
    lemma_usable(patterns, u[i]);
}

proof fn lemma_claims_push(patterns: Seq<Seq<char>>, p: Seq<char>, doc: Seq<char>)
    ensures
        claims(seq![], doc) == Seq::<Seq<char>>::empty(),
        claims(patterns.push(p), doc) == claims(patterns, doc) + all_matches(p, doc),
{
    assert(patterns.push(p).drop_last() =~= patterns);
}

/// What is searched for claims is all that the patterns match: every match of every pattern, in
/// the order of the patterns, and nothing else.
pub proof fn lemma_matches_collected(patterns: Seq<Seq<char>>, doc: Seq<char>, m: Seq<char>)
    ensures
        claims(patterns, doc).contains(m) <==> exists|i: int|
            0 <= i < patterns.len() && all_matches(#[trigger] patterns[i], doc).contains(m),
        patterns.len() == 1 ==> claims(patterns, doc) == all_matches(patterns[0], doc),
    decreases patterns.len(),
{
    if patterns.len() > 0 {
        let t = patterns.drop_last();
        let p = patterns.last();
        assert(patterns =~= t.push(p));
        lemma_claims_push(t, p, doc);
        lemma_matches_collected(t, doc, m);
        let a = claims(t, doc);
        let b = all_matches(p, doc);
        assert(patterns[patterns.len() - 1] == p);
        if claims(patterns, doc).contains(m) {
            let k = claims(patterns, doc).index_of(m);
            if k < a.len() {
                assert(a[k] == m);
                let i = choose|i: int|
                    0 <= i < t.len() && all_matches(#[trigger] t[i], doc).contains(m);
                assert(patterns[i] == t[i]);
            } else {
                assert(b[k - a.len()] == m);
            }
        }
        if exists|i: int| 0 <= i < patterns.len() && all_matches(#[trigger] patterns[i], doc).contains(m) {
            let i = choose|i: int|
                0 <= i < patterns.len() && all_matches(#[trigger] patterns[i], doc).contains(m);
            if i < t.len() {
                assert(t[i] == patterns[i]);
                assert((a + b)[a.index_of(m)] == m);
            } else {
                assert((a + b)[a.len() + b.index_of(m)] == m);
            }
        }
        if patterns.len() == 1 {
            assert(t =~= seq![]);
            assert(a =~= Seq::<Seq<char>>::empty());
            assert(a + b =~= b);
        }
    }
}

/// Every claim that does not stand in the brief is reported: whatever a usable pattern matches in
/// the copy, unless it is blank or stands in the brief.
pub proof fn lemma_claim_reported(doc: Seq<char>, brief: Seq<char>, p: Seq<char>, k: int)
    requires
        claim_patterns().contains(p),
        compiles(p),
        0 <= k < all_matches(p, doc).len(),
        !blank(brief),
        trim(all_matches(p, doc)[k]).len() > 0,
        !occurs(trim(all_matches(p, doc)[k]), brief),
    ensures
        claim_issues(doc, Some(brief)).contains(claim_issue(trim(all_matches(p, doc)[k]))),
{
    let m = all_matches(p, doc)[k];
    let c = trim(m);
    let u = usable(claim_patterns());
    let found = claims(u, doc);
    lemma_usable(claim_patterns(), p);
    assert(u[u.index_of(p)] == p);
    assert(all_matches(p, doc).contains(m));
    lemma_matches_collected(u, doc, m);
    assert(cut(found)[found.index_of(m)] == c);
    lemma_unfounded(found, brief);
    assert(unfounded(found, brief).contains(c));
    let n = unfounded(found, brief).index_of(c);
    assert(claim_issues(doc, Some(brief))[n] == claim_issue(c));
}

/// What is reported of claims is something that a usable pattern matches in the copy and that does
/// not stand in the brief, and nothing is reported twice. Without a brief, or with a blank one,
/// nothing is reported.
pub proof fn lemma_claims_unfounded(doc: Seq<char>, brief: Option<Seq<char>>, n: int)
    ensures
        brief is None ==> claim_issues(doc, brief).len() == 0,
        brief is Some && blank(brief->Some_0) ==> claim_issues(doc, brief).len() == 0,
        claim_issues(doc, brief).no_duplicates(),
        0 <= n < claim_issues(doc, brief).len() ==> exists|p: Seq<char>, k: int|
            claim_patterns().contains(p) && compiles(p) && 0 <= k < all_matches(p, doc).len()
                && claim_issues(doc, brief)[n] == claim_issue(trim(#[trigger] all_matches(p, doc)[k]))
                && trim(all_matches(p, doc)[k]).len() > 0 && !occurs(
                trim(all_matches(p, doc)[k]),
                brief->Some_0,
            ),
{
    let said = claim_issues(doc, brief);
    if brief is Some && !blank(brief->Some_0) {
        let b = brief->Some_0;
        let u = usable(claim_patterns());
        let found = claims(u, doc);
        let w = unfounded(found, b);
        lemma_unfounded(found, b);
        assert forall|i: int, j: int| 0 <= i < said.len() && 0 <= j < said.len() && i != j implies said[i]
            != said[j] by {
            lemma_claim_text(w[i], w[j]);
            assert(w[i] != w[j]);
        }
        if 0 <= n < said.len() {
            let c = w[n];
            assert(w.contains(c));
            let q = cut(found).index_of(c);
            let m = found[q];
            assert(c == trim(m));
            assert(found.contains(m));
            lemma_matches_collected(u, doc, m);
            let i = choose|i: int| 0 <= i < u.len() && all_matches(#[trigger] u[i], doc).contains(m);
            let p = u[i];
            assert(u.contains(p));
            lemma_usable(claim_patterns(), p);
            let k = all_matches(p, doc).index_of(m);
            assert(all_matches(p, doc)[k] == m);
        }
    }
}

/// What is said of a claim quotes it, and says nothing else of another claim.
pub proof fn lemma_claim_text(c: Seq<char>, d: Seq<char>)
    ensures
        occurs("\""@ + c + "\""@, claim_issue(c)),
        claim_issue(c) == claim_issue(d) ==> c == d,
{
    let a = "[factual consistency] claim not found in brief: \""@;
    let z =
        "\" → if the original brief has no basis for this, remove it from the copy or add supporting basis to the brief"@;
    reveal_strlit("[factual consistency] claim not found in brief: \"");
    reveal_strlit(
        "\" → if the original brief has no basis for this, remove it from the copy or add supporting basis to the brief",
    );
    reveal_strlit("\"");
    let i = claim_issue(c);
    lemma_stands(a.drop_last(), "\""@ + c + "\""@, z.drop_first());
    assert(i =~= a.drop_last() + ("\""@ + c + "\""@) + z.drop_first());
    if claim_issue(c) == claim_issue(d) {
        assert(c.len() == d.len());
        assert forall|k: int| 0 <= k < c.len() implies c[k] == d[k] by {
            assert(claim_issue(c)[a.len() + k] == c[k]);
            assert(claim_issue(d)[a.len() + k] == d[k]);
        }
        assert(c =~= d);
    }
}


/// One more match is a claim behind the others, unless it is blank, was matched before, or stands
/// in the brief.
pub proof fn lemma_claim_added(found: Seq<Seq<char>>, m: Seq<char>, brief: Seq<char>)
    ensures
        unfounded(seq![], brief) == Seq::<Seq<char>>::empty(),
        trim(m).len() > 0 && !occurs(trim(m), brief) && (forall|i: int|
            0 <= i < found.len() ==> trim(#[trigger] found[i]) != trim(m)) ==> unfounded(
            found.push(m),
            brief,
        ) == unfounded(found, brief).push(trim(m)),
        trim(m).len() == 0 || occurs(trim(m), brief) || (exists|i: int|
            0 <= i < found.len() && trim(#[trigger] found[i]) == trim(m)) ==> unfounded(
            found.push(m),
            brief,
        ) == unfounded(found, brief),
{
    let test = |c: Seq<char>| !occurs(c, brief);
    let all = cut(found);
    let c = trim(m);
    assert(cut(found.push(m)) =~= all.push(c));
    lemma_kept_once(all, c);
    firsts(all).lemma_filter_push(c, test);
    assert(cut(seq![]) =~= Seq::<Seq<char>>::empty());
    assert(unfounded(seq![], brief) =~= Seq::<Seq<char>>::empty()) by {
        reveal(Seq::filter);
    }
    if exists|i: int| 0 <= i < found.len() && trim(#[trigger] found[i]) == c {
        let i = choose|i: int| 0 <= i < found.len() && trim(#[trigger] found[i]) == c;
        assert(all[i] == c);
    }
    if all.contains(c) {
        assert(trim(found[all.index_of(c)]) == c);
    }
}

/// Where a brief is at hand, each unfounded claim is reported, in the order in which they were
/// found, and nothing else is.
pub proof fn lemma_claims_said(found: Seq<Seq<char>>, brief: Seq<char>, i: int)
    ensures
        reported_claims(found, None).len() == 0,
        blank(brief) ==> reported_claims(found, Some(brief)).len() == 0,
        !blank(brief) ==> reported_claims(found, Some(brief)).len() == unfounded(found, brief).len(),
        !blank(brief) && 0 <= i < unfounded(found, brief).len() ==> reported_claims(
            found,
            Some(brief),
        )[i] == "[factual consistency] claim not found in brief: \""@ + unfounded(found, brief)[i]
            + "\" → if the original brief has no basis for this, remove it from the copy or add supporting basis to the brief"@,
{
}

} // verus!
