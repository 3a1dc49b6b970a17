//! Laws of numbers: their order, their range, and what a mean is taken of.
use crate::double::{kept, lemma_ranking, placed, ranking, FIVE, HUNDRED, INFINITE, SIGN, Double};
use vstd::prelude::*;

verus! {

/// Numbers without a sign bit are ordered as their bits are, numbers with one the other way round,
/// and a number with a sign bit comes before one without, but that the two zeros are equal. What
/// is not a number is neither less nor at most anything.
pub proof fn lemma_order(a: Double, b: Double)
    ensures
        a.nan() <==> (INFINITE < a.bits < SIGN || a.bits > SIGN + INFINITE),
        a.finite() <==> (a.bits < INFINITE || SIGN <= a.bits < SIGN + INFINITE),
        a.nan() || b.nan() ==> !a.less(b) && !a.at_most(b),
        !a.nan() && !b.nan() ==> {
            &&& a.less(b) == !b.at_most(a)
            &&& a.bits < SIGN && b.bits < SIGN ==> (a.less(b) <==> a.bits < b.bits)
            &&& a.bits >= SIGN && b.bits >= SIGN ==> (a.less(b) <==> a.bits > b.bits)
            &&& a.bits >= SIGN && b.bits < SIGN ==> (a.less(b) <==> a.bits > SIGN || b.bits > 0)
            &&& a.bits < SIGN && b.bits >= SIGN ==> !a.less(b)
        },
{
}

/// A positive number is a power of two and a fraction of it: behind the sign come eleven bits for
/// the exponent, 1023 too high, and fifty-two for the fraction. Five is four and a quarter of four;
/// a hundred is sixty-four and nine sixteenths of it.
pub proof fn lemma_constants()
    ensures
        FIVE == (1023 + 2) * 0x10_0000_0000_0000 + 0x10_0000_0000_0000int / 4,
        HUNDRED == (1023 + 6) * 0x10_0000_0000_0000 + 9 * (0x10_0000_0000_0000int / 16),
        INFINITE == 2047 * 0x10_0000_0000_0000,
        SIGN == 2048 * 0x10_0000_0000_0000,
{
}

/// Clamping leaves a score as it is, makes 0 of what is less and 100 of what is more, and keeps the
/// order.
pub proof fn lemma_clamp(x: Double, y: Double)
    ensures
        (Double { bits: 0 }).at_most(x) && x.at_most((Double { bits: HUNDRED })) ==> x.clamped() == x,
        x.less((Double { bits: 0 })) ==> x.clamped() == (Double { bits: 0 }),
        (Double { bits: HUNDRED }).less(x) ==> x.clamped() == (Double { bits: HUNDRED }),
        x.nan() ==> x.clamped() == x,
        x.at_most(y) ==> x.clamped().at_most(y.clamped()),
{
}

/// A ranking names every position once, from the lowest number to the highest, and of two equal
/// ones the earlier first.
pub proof fn lemma_ranked(s: Seq<Double>, j: int, k: int)
    requires
        0 <= j < k < s.len(),
    ensures
        ranking(s, s.len()).len() == s.len(),
        ranking(s, s.len()).no_duplicates(),
        0 <= ranking(s, s.len())[j] < s.len(),
        s[ranking(s, s.len())[j]].place() < s[ranking(s, s.len())[k]].place() || (
        s[ranking(s, s.len())[j]].place() == s[ranking(s, s.len())[k]].place() && ranking(
            s,
            s.len(),
        )[j] < ranking(s, s.len())[k]),
{
    lemma_ranking(s, s.len());
    lemma_ranking_stable(s, s.len(), j, k);
    assert(0 <= ranking(s, s.len())[j] < s.len());
}

/// Of two positions the one ranked first has the lower number, or the same one and comes first.
pub open spec fn comes_first(s: Seq<Double>, a: int, b: int) -> bool {
    s[a].place() < s[b].place() || (s[a].place() == s[b].place() && a < b)
}

proof fn lemma_ranking_stable(s: Seq<Double>, n: nat, j: int, k: int)
    requires
        n <= s.len(),
        0 <= j < k < n,
    ensures
        comes_first(s, ranking(s, n)[j], ranking(s, n)[k]),
    decreases n,
{
    let order = ranking(s, (n - 1) as nat);
    let i = n - 1;
    lemma_ranking(s, (n - 1) as nat);
    assert forall|a: int, b: int| 0 <= a < b < order.len() implies comes_first(
        s,
        #[trigger] order[a],
        #[trigger] order[b],
    ) by {
        lemma_ranking_stable(s, (n - 1) as nat, a, b);
    }
    assert forall|a: int| 0 <= a < order.len() implies #[trigger] order[a] < i by {}
    lemma_placed_stable(order, s, i, j, k);
}

proof fn lemma_placed_len(order: Seq<int>, s: Seq<Double>, i: int)
    ensures
        placed(order, s, i).len() == order.len() + 1,
        forall|a: int|
            0 <= a < placed(order, s, i).len() ==> (#[trigger] placed(order, s, i)[a] == i
                || order.contains(placed(order, s, i)[a])),
    decreases order.len(),
{
    if order.len() > 0 {
        let t = order.drop_first();
        let p = placed(order, s, i);
        if s[order[0]].place() <= s[i].place() {
            lemma_placed_len(t, s, i);
            let q = placed(t, s, i);
            assert forall|a: int| 0 <= a < p.len() implies (#[trigger] p[a] == i || order.contains(
                p[a],
            )) by {
                if a == 0 {
                    assert(p[0] == order[0]);
                } else {
                    assert(p[a] == q[a - 1]);
                    if t.contains(q[a - 1]) {
                        assert(order[t.index_of(q[a - 1]) + 1] == q[a - 1]);
                    }
                }
            }
        } else {
            assert forall|a: int| 0 <= a < p.len() implies (#[trigger] p[a] == i || order.contains(
                p[a],
            )) by {
                if a > 0 {
                    assert(p[a] == order[a - 1]);
                }
            }
        }
    }
}

proof fn lemma_placed_stable(order: Seq<int>, s: Seq<Double>, i: int, j: int, k: int)
    requires
        forall|a: int, b: int|
            0 <= a < b < order.len() ==> comes_first(s, #[trigger] order[a], #[trigger] order[b]),
        forall|a: int| 0 <= a < order.len() ==> #[trigger] order[a] < i,
        0 <= j < k <= order.len(),
    ensures
        placed(order, s, i).len() == order.len() + 1,
        comes_first(s, placed(order, s, i)[j], placed(order, s, i)[k]),
    decreases order.len(),
{
    lemma_placed_len(order, s, i);
    if order.len() > 0 {
        let t = order.drop_first();
        let p = placed(order, s, i);
        assert forall|a: int, b: int| 0 <= a < b < t.len() implies comes_first(
            s,
            #[trigger] t[a],
            #[trigger] t[b],
        ) by {
            assert(t[a] == order[a + 1] && t[b] == order[b + 1]);
        }
        if s[order[0]].place() <= s[i].place() {
            let q = placed(t, s, i);
            lemma_placed_len(t, s, i);
            assert(p[k] == q[k - 1]);
            if j > 0 {
                lemma_placed_stable(t, s, i, j - 1, k - 1);
                assert(p[j] == q[j - 1]);
            } else {
                assert(p[0] == order[0]);
                if q[k - 1] != i {
                    let b = t.index_of(q[k - 1]);
                    assert(order[b + 1] == q[k - 1]);
                    assert(comes_first(s, order[0], order[b + 1]));
                }
            }
        } else {
            assert(p[k] == order[k - 1]);
            if j == 0 {
                assert(p[0] == i);
                if k > 1 {
                    assert(comes_first(s, order[0], order[k - 1]));
                }
            } else {
                assert(p[j] == order[j - 1]);
                assert(comes_first(s, order[j - 1], order[k - 1]));
            }
        }
    }
}

/// Up to three scores nothing is left out of a mean.
pub proof fn lemma_few_kept(s: Seq<Double>)
    ensures
        s.len() < 4 ==> kept(s) == s,
        s.len() >= 4 ==> kept(s).len() == s.len() - 2,
{
}

/// Of four scores or more, each score that a mean is taken of is one of them.
pub proof fn lemma_kept_given(s: Seq<Double>, i: int)
    requires
        0 <= i < kept(s).len(),
    ensures
        s.contains(kept(s)[i]),
{
    if s.len() >= 4 {
        lemma_ranking(s, s.len());
        let r = ranking(s, s.len());
        assert(kept(s)[i] == s[r[i + 1]]);
    }
}

} // verus!
