//! Double-precision numbers kept by their bit patterns. The library orders such numbers; the
//! arithmetic on them is its caller's.
use vstd::prelude::*;
use vstd::relations::sorted_by;

verus! {

/// The sign bit of a double.
pub const SIGN: u64 = 0x8000_0000_0000_0000;

/// The bits of positive infinity. A greater magnitude is not a number.
pub const INFINITE: u64 = 0x7ff0_0000_0000_0000;

/// The bits of negative infinity.
pub const NEGATIVE_INFINITE: u64 = 0xfff0_0000_0000_0000;

/// The bits of `100.0`.
pub const HUNDRED: u64 = 0x4059_0000_0000_0000;

/// The bits of `5.0`.
pub const FIVE: u64 = 0x4014_0000_0000_0000;

/// An IEEE 754 double, by its bits.
#[derive(Debug, Clone, Copy)]
pub struct Double {
    pub bits: u64,
}

impl View for Double {
    type V = Double;

    open spec fn view(&self) -> Double {
        *self
    }
}

impl Double {
    /// The number without its sign, in the order of magnitudes.
    pub open spec fn magnitude(self) -> int {
        if self.bits >= SIGN {
            self.bits - SIGN
        } else {
            self.bits as int
        }
    }

    /// Not a number.
    pub open spec fn nan(self) -> bool {
        self.magnitude() > INFINITE
    }

    /// Neither infinite nor not a number.
    pub open spec fn finite(self) -> bool {
        self.magnitude() < INFINITE
    }

    /// The place of a number in the order of numbers. The two zeros share one.
    pub open spec fn place(self) -> int {
        if self.bits >= SIGN {
            -self.magnitude()
        } else {
            self.magnitude()
        }
    }

    /// `self < other`, which nothing is that is not a number.
    pub open spec fn less(self, other: Double) -> bool {
        !self.nan() && !other.nan() && self.place() < other.place()
    }

    /// `self <= other`, which nothing is that is not a number.
    pub open spec fn at_most(self, other: Double) -> bool {
        !self.nan() && !other.nan() && self.place() <= other.place()
    }

    /// `self` moved into the range of scores, from 0 to 100.
    pub open spec fn clamped(self) -> Double {
        if self.less((Double { bits: 0 })) {
            Double { bits: 0 }
        } else if (Double { bits: HUNDRED }).less(self) {
            Double { bits: HUNDRED }
        } else {
            self
        }
    }

    /// Whether this is not a number.
    pub fn is_nan(self) -> (r: bool)
        ensures
            r == self.nan(),
    {
        if self.bits >= SIGN {
            self.bits - SIGN > INFINITE
        } else {
            self.bits > INFINITE
        }
    }

    /// Whether this is a number and not infinite.
    pub fn is_finite(self) -> (r: bool)
        ensures
            r == self.finite(),
    {
        if self.bits >= SIGN {
            self.bits - SIGN < INFINITE
        } else {
            self.bits < INFINITE
        }
    }

    /// Whether the place of `self` in the order is lower than that of `other`.
    fn is_lower(self, other: Double) -> (r: bool)
        ensures
            r == (self.place() < other.place()),
    {
        if self.bits >= SIGN {
            if other.bits >= SIGN {
                other.bits < self.bits
            } else {
                self.bits > SIGN || other.bits > 0
            }
        } else {
            other.bits < SIGN && self.bits < other.bits
        }
    }

    /// Whether `self < other`.
    pub fn is_less(self, other: Double) -> (r: bool)
        ensures
            r == self.less(other),
    {
        !self.is_nan() && !other.is_nan() && self.is_lower(other)
    }

    /// Whether `self <= other`.
    pub fn is_at_most(self, other: Double) -> (r: bool)
        ensures
            r == self.at_most(other),
    {
        !self.is_nan() && !other.is_nan() && !other.is_lower(self)
    }

    /// `self` moved into the range of scores, from 0 to 100.
    pub fn clamp_score(self) -> (r: Double)
        ensures
            r == self.clamped(),
    {
        let zero = Double { bits: 0 };
        let top = Double { bits: HUNDRED };
        if self.is_less(zero) {
            zero
        } else if top.is_less(self) {
            top
        } else {
            self
        }
    }
}

/// A clamped number lies between 0 and 100, and clamping it again changes nothing.
pub proof fn lemma_clamped(x: Double)
    requires
        !x.nan(),
    ensures
        !x.clamped().nan(),
        0 <= x.clamped().place() <= HUNDRED,
        x.clamped().clamped() == x.clamped(),
{
}

/// `order` with position `i` of `s` placed behind all that are not greater.
pub open spec fn placed(order: Seq<int>, s: Seq<Double>, i: int) -> Seq<int>
    decreases order.len(),
{
    if order.len() == 0 {
        seq![i]
    } else if s[order[0]].place() <= s[i].place() {
        seq![order[0]] + placed(order.drop_first(), s, i)
    } else {
        seq![i] + order
    }
}

/// The first `n` positions of `s` from the lowest number to the highest, equal ones in their
/// given order.
pub open spec fn ranking(s: Seq<Double>, n: nat) -> Seq<int>
    decreases n,
{
    if n == 0 {
        seq![]
    } else {
        placed(ranking(s, (n - 1) as nat), s, n - 1)
    }
}

/// The positions that a vector of indices names.
pub open spec fn positions(v: Seq<usize>) -> Seq<int> {
    v.map_values(|i: usize| i as int)
}

proof fn lemma_placed_at(order: Seq<int>, s: Seq<Double>, i: int, k: int)
    requires
        0 <= k <= order.len(),
        forall|j: int| 0 <= j < k ==> s[#[trigger] order[j]].place() <= s[i].place(),
        k < order.len() ==> s[order[k]].place() > s[i].place(),
    ensures
        placed(order, s, i) == order.insert(k, i),
    decreases k,
{
    if k == 0 {
        assert(order.insert(0, i) =~= seq![i] + order);
        if order.len() == 0 {
            assert(seq![i] + order =~= seq![i]);
        }
    } else {
        assert(s[order[0]].place() <= s[i].place());
        assert forall|j: int| 0 <= j < k - 1 implies s[#[trigger] order.drop_first()[j]].place()
            <= s[i].place() by {
            assert(order[j + 1] == order.drop_first()[j]);
        }
        lemma_placed_at(order.drop_first(), s, i, k - 1);
        assert(order.insert(k, i) =~= seq![order[0]] + order.drop_first().insert(k - 1, i));
    }
}

/// A ranking names each of the positions once, and what it names ascends.
pub proof fn lemma_ranking(s: Seq<Double>, n: nat)
    requires
        n <= s.len(),
    ensures
        ranking(s, n).len() == n,
        ranking(s, n).no_duplicates(),
        forall|j: int| 0 <= j < n ==> 0 <= #[trigger] ranking(s, n)[j] < n,
        forall|j: int, k: int|
            0 <= j <= k < n ==> s[#[trigger] ranking(s, n)[j]].place()
                <= s[#[trigger] ranking(s, n)[k]].place(),
    decreases n,
{
    if n > 0 {
        let order = ranking(s, (n - 1) as nat);
        lemma_ranking(s, (n - 1) as nat);
        let i = n - 1;
        let k = lemma_place_exists(order, s, i, 0);
        lemma_placed_at(order, s, i, k);
        let r = order.insert(k, i);
        assert(r.len() == n);
        assert forall|a: int, b: int| 0 <= a < r.len() && 0 <= b < r.len() && a != b implies r[a]
            != r[b] by {
            let x = if a < k { a } else { a - 1 };
            let y = if b < k { b } else { b - 1 };
            if a != k {
                assert(r[a] == order[x]);
            }
            if b != k {
                assert(r[b] == order[y]);
            }
        }
        assert forall|a: int, b: int| 0 <= a <= b < n implies s[#[trigger] r[a]].place()
            <= s[#[trigger] r[b]].place() by {
            if a < k {
                assert(r[a] == order[a]);
            } else if a > k {
                assert(r[a] == order[a - 1]);
            }
            if b < k {
                assert(r[b] == order[b]);
            } else if b > k {
                assert(r[b] == order[b - 1]);
            }
            if k < order.len() && b > k {
                assert(s[order[k]].place() <= s[order[b - 1]].place());
            }
        }
        assert forall|a: int| 0 <= a < n implies 0 <= #[trigger] r[a] < n by {
            if a < k {
                assert(r[a] == order[a]);
            } else if a > k {
                assert(r[a] == order[a - 1]);
            }
        }
    }
}

/// The place at which position `i` goes into an ascending order, from `from` on.
proof fn lemma_place_exists(order: Seq<int>, s: Seq<Double>, i: int, from: int) -> (k: int)
    requires
        0 <= from <= order.len(),
        forall|j: int| 0 <= j < from ==> s[#[trigger] order[j]].place() <= s[i].place(),
    ensures
        0 <= k <= order.len(),
        forall|j: int| 0 <= j < k ==> s[#[trigger] order[j]].place() <= s[i].place(),
        k < order.len() ==> s[order[k]].place() > s[i].place(),
    decreases order.len() - from,
{
    if from < order.len() && s[order[from]].place() <= s[i].place() {
        lemma_place_exists(order, s, i, from + 1)
    } else {
        from
    }
}

/// The positions of `v` from the lowest number to the highest, equal ones in their given order.
pub fn rank(v: &Vec<Double>) -> (r: Vec<usize>)
    ensures
        positions(r@) == ranking(v@, v@.len()),
        r@.len() == v@.len(),
        forall|j: int| 0 <= j < r@.len() ==> #[trigger] r@[j] < v@.len(),
{
    let mut order: Vec<usize> = Vec::new();
    assert(positions(order@) =~= ranking(v@, 0));
    for i in 0..v.len()
        invariant
            positions(order@) == ranking(v@, i as nat),
            order@.len() == i,
            forall|j: int| 0 <= j < order@.len() ==> #[trigger] order@[j] < i,
    {
        let mut k: usize = 0;
        while k < order.len() && !v[i].is_lower(v[order[k]])
            invariant
                i < v@.len(),
                k <= order@.len(),
                forall|j: int| 0 <= j < order@.len() ==> #[trigger] order@[j] < i,
                forall|j: int|
                    0 <= j < k ==> v@[#[trigger] positions(order@)[j]].place()
                        <= v@[i as int].place(),
            decreases order@.len() - k,
        {
            k += 1;
        }
        let ghost prev = order@;
        proof {
            lemma_placed_at(positions(order@), v@, i as int, k as int);
        }
        order.insert(k, i);
        assert(positions(order@) =~= positions(prev).insert(k as int, i as int));
        assert forall|j: int| 0 <= j < order@.len() implies #[trigger] order@[j] < i + 1 by {
            if j < k {
                assert(order@[j] == prev[j]);
            } else if j > k {
                assert(order@[j] == prev[j - 1]);
            }
        }
    }
    order
}

/// The lowest of the numbers, infinity where there is none.
pub open spec fn lowest(s: Seq<Double>) -> Double
    decreases s.len(),
{
    if s.len() == 0 {
        Double { bits: INFINITE }
    } else if s.last().less(lowest(s.drop_last())) {
        s.last()
    } else {
        lowest(s.drop_last())
    }
}

/// The highest of the numbers, negative infinity where there is none.
pub open spec fn highest(s: Seq<Double>) -> Double
    decreases s.len(),
{
    if s.len() == 0 {
        Double { bits: NEGATIVE_INFINITE }
    } else if highest(s.drop_last()).less(s.last()) {
        s.last()
    } else {
        highest(s.drop_last())
    }
}

/// The lowest and the highest of the numbers, where there are any.
pub fn extremes(v: &Vec<Double>) -> (r: Option<(Double, Double)>)
    ensures
        r == if v@.len() == 0 {
            None
        } else {
            Some((lowest(v@), highest(v@)))
        },
{
    let mut lo = Double { bits: INFINITE };
    let mut hi = Double { bits: NEGATIVE_INFINITE };
    for i in 0..v.len()
        invariant
            lo == lowest(v@.take(i as int)),
            hi == highest(v@.take(i as int)),
    {
        assert(v@.take(i + 1).drop_last() =~= v@.take(i as int));
        if v[i].is_less(lo) {
            lo = v[i];
        }
        if hi.is_less(v[i]) {
            hi = v[i];
        }
    }
    assert(v@.take(v@.len() as int) =~= v@);
    if v.len() == 0 {
        None
    } else {
        Some((lo, hi))
    }
}

/// The extremes bound all the numbers and are among them, where all are numbers and finite.
pub proof fn lemma_extremes(s: Seq<Double>)
    requires
        s.len() > 0,
        forall|i: int| 0 <= i < s.len() ==> (#[trigger] s[i]).finite(),
    ensures
        s.contains(lowest(s)),
        s.contains(highest(s)),
        forall|i: int|
            0 <= i < s.len() ==> lowest(s).at_most(#[trigger] s[i]) && s[i].at_most(highest(s)),
    decreases s.len(),
{
    let t = s.drop_last();
    assert(s[s.len() - 1] == s.last());
    if t.len() > 0 {
        assert forall|i: int| 0 <= i < t.len() implies (#[trigger] t[i]).finite() by {
            assert(s[i] == t[i]);
        }
        lemma_extremes(t);
        assert(s[t.index_of(lowest(t))] == lowest(t));
        assert(s[t.index_of(highest(t))] == highest(t));
        assert(lowest(t).finite() && highest(t).finite());
        assert forall|i: int| 0 <= i < s.len() implies lowest(s).at_most(#[trigger] s[i])
            && s[i].at_most(highest(s)) by {
            if i < t.len() {
                assert(t[i] == s[i]);
            }
        }
    } else {
        assert(lowest(t) == Double { bits: INFINITE });
        assert(highest(t) == Double { bits: NEGATIVE_INFINITE });
    }
}

/// The numbers of `s` from the lowest to the highest, without one at each end.
pub open spec fn inner(s: Seq<Double>) -> Seq<Double> {
    Seq::new((s.len() - 2) as nat, |i: int| s[ranking(s, s.len())[i + 1]])
}

/// What a trimmed mean is taken of: from four numbers on, all but one lowest and one highest.
pub open spec fn kept(s: Seq<Double>) -> Seq<Double> {
    if s.len() < 4 {
        s
    } else {
        inner(s)
    }
}

/// What a trimmed mean is taken of. (With many scores that are whole numbers a median would tie
/// too often to show small improvements.)
pub fn kept_scores(v: &Vec<Double>) -> (r: Vec<Double>)
    requires
        v@.len() >= 4 ==> forall|i: int| 0 <= i < v@.len() ==> !(#[trigger] v@[i]).nan(),
    ensures
        r@ == kept(v@),
{
    let mut out: Vec<Double> = Vec::new();
    if v.len() < 4 {
        for i in 0..v.len()
            invariant
                out@ == v@.take(i as int),
        {
            out.push(v[i]);
        }
        assert(v@.take(v@.len() as int) =~= v@);
    } else {
        let order = rank(v);
        let end: usize = v.len() - 1;
        for i in 1..end
            invariant
                end == v@.len() - 1,
                order@.len() == v@.len(),
                positions(order@) == ranking(v@, v@.len()),
                forall|j: int| 0 <= j < order@.len() ==> #[trigger] order@[j] < v@.len(),
                out@ == inner(v@).take(i - 1),
        {
            assert(positions(order@)[i as int] == order@[i as int]);
            out.push(v[order[i]]);
            assert(out@ =~= inner(v@).take(i as int));
        }
        assert(inner(v@).take(end - 1) =~= inner(v@));
    }
    out
}

/// A trimmed mean of four numbers or more leaves out two of them, and what it keeps lies between
/// what it leaves out.
pub proof fn lemma_kept(s: Seq<Double>)
    requires
        s.len() >= 4,
    ensures
        kept(s).len() == s.len() - 2,
        forall|i: int|
            0 <= i < kept(s).len() ==> s[ranking(s, s.len())[0]].place() <= (
            #[trigger] kept(s)[i]).place() <= s[ranking(s, s.len())[s.len() - 1]].place(),
        forall|i: int|
            0 <= i < s.len() ==> s[ranking(s, s.len())[0]].place() <= (#[trigger] s[i]).place()
                <= s[ranking(s, s.len())[s.len() - 1]].place(),
{
    let r = ranking(s, s.len());
    lemma_ranking(s, s.len());
    assert forall|i: int| 0 <= i < s.len() implies s[r[0]].place() <= (#[trigger] s[i]).place()
        <= s[r[s.len() - 1]].place() by {
        let j = lemma_named(r, s.len() as int, i);
        assert(s[r[j]].place() == s[i].place());
    }
}

/// Among `n` different numbers below `n` each number below `n` occurs.
pub(crate) proof fn lemma_named(r: Seq<int>, n: int, i: int) -> (j: int)
    requires
        r.len() == n,
        r.no_duplicates(),
        forall|k: int| 0 <= k < n ==> 0 <= #[trigger] r[k] < n,
        0 <= i < n,
    ensures
        0 <= j < n,
        r[j] == i,
{
    let all = vstd::set_lib::set_int_range(0, n);
    vstd::set_lib::lemma_int_range(0, n);
    r.unique_seq_to_set();
    assert(r.to_set().subset_of(all));
    vstd::set_lib::lemma_subset_equality(r.to_set(), all);
    assert(r.to_set().contains(i));
    r.index_of(i)
}

/// The places of the numbers.
pub open spec fn places(s: Seq<Double>) -> Seq<int> {
    s.map_values(|x: Double| x.place())
}

/// The places of the first `n` numbers, from the lowest to the highest.
pub open spec fn ladder(s: Seq<Double>, n: nat) -> Seq<int> {
    ranking(s, n).map_values(|i: int| s[i].place())
}

/// The ladder holds the places of the numbers, each as often as they do.
proof fn lemma_ladder(s: Seq<Double>, n: nat)
    requires
        n <= s.len(),
    ensures
        ladder(s, n).len() == n,
        ladder(s, n).to_multiset() == places(s.take(n as int)).to_multiset(),
        sorted_by(ladder(s, n), |a: int, b: int| a <= b),
    decreases n,
{
    let leq = |a: int, b: int| a <= b;
    lemma_ranking(s, n);
    let l = ladder(s, n);
    assert forall|i: int, j: int| 0 <= i < j < l.len() implies #[trigger] leq(l[i], l[j]) by {
        assert(s[ranking(s, n)[i]].place() <= s[ranking(s, n)[j]].place());
    }
    if n == 0 {
        assert(l =~= places(s.take(0)));
    } else {
        let m = (n - 1) as nat;
        let order = ranking(s, m);
        lemma_ladder(s, m);
        let i = n - 1;
        let k = lemma_place_exists(order, s, i, 0);
        lemma_placed_at(order, s, i, k);
        assert(l =~= ladder(s, m).insert(k, s[i].place()));
        vstd::seq_lib::to_multiset_insert(ladder(s, m), k, s[i].place());
        assert(places(s.take(n as int)) =~= places(s.take(m as int)).push(s[i].place()));
        vstd::seq_lib::to_multiset_build(places(s.take(m as int)), s[i].place());
    }
}

/// Numbers with the same places in another order have the same ladder.
proof fn lemma_same_ladder(s: Seq<Double>, t: Seq<Double>)
    requires
        places(s).to_multiset() == places(t).to_multiset(),
    ensures
        s.len() == t.len(),
        ladder(s, s.len()) == ladder(t, t.len()),
{
    let leq = |a: int, b: int| a <= b;
    places(s).to_multiset_ensures();
    places(t).to_multiset_ensures();
    lemma_ladder(s, s.len());
    lemma_ladder(t, t.len());
    assert(s.take(s.len() as int) =~= s);
    assert(t.take(t.len() as int) =~= t);
    vstd::seq_lib::lemma_sorted_unique(ladder(s, s.len()), ladder(t, t.len()), leq);
}

proof fn lemma_kept_places(s: Seq<Double>)
    requires
        s.len() >= 4,
    ensures
        ladder(s, s.len()).len() == s.len(),
        places(kept(s)) == ladder(s, s.len()).subrange(1, s.len() - 1),
{
    lemma_ladder(s, s.len());
    assert(places(kept(s)) =~= ladder(s, s.len()).subrange(1, s.len() - 1));
}

/// It does not matter in which order the scores were given: a trimmed mean is taken of the same
/// numbers, and from four on in the same order.
pub proof fn lemma_kept_permuted(s: Seq<Double>, t: Seq<Double>)
    requires
        places(s).to_multiset() == places(t).to_multiset(),
    ensures
        places(kept(s)).to_multiset() == places(kept(t)).to_multiset(),
        s.len() >= 4 ==> places(kept(s)) == places(kept(t)),
{
    lemma_same_ladder(s, t);
    if s.len() >= 4 {
        lemma_kept_places(s);
        lemma_kept_places(t);
    }
}

/// From four scores on exactly two are left out of a trimmed mean, even among equal ones: one of
/// the lowest and one of the highest.
pub proof fn lemma_kept_drops_ends(s: Seq<Double>)
    requires
        s.len() >= 4,
        forall|i: int| 0 <= i < s.len() ==> (#[trigger] s[i]).finite(),
    ensures
        places(s).to_multiset() == places(kept(s)).to_multiset().insert(lowest(s).place()).insert(
            highest(s).place(),
        ),
{
    let n = s.len() as int;
    let l = ladder(s, s.len());
    let k = places(kept(s));
    lemma_ladder(s, s.len());
    lemma_kept_places(s);
    lemma_kept(s);
    lemma_extremes(s);
    assert(s.take(n) =~= s);
    let r = ranking(s, s.len());
    lemma_ranking(s, s.len());
    assert(l[0] == s[r[0]].place() && l[n - 1] == s[r[n - 1]].place());
    assert(l[0] == lowest(s).place()) by {
        let i = s.index_of(lowest(s));
        assert(s[i].place() == lowest(s).place());
    }
    assert(l[n - 1] == highest(s).place()) by {
        let i = s.index_of(highest(s));
        assert(s[i].place() == highest(s).place());
    }
    assert(l =~= k.insert(0, l[0]).push(l[n - 1]));
    vstd::seq_lib::to_multiset_insert(k, 0, l[0]);
    vstd::seq_lib::to_multiset_build(k.insert(0, l[0]), l[n - 1]);
}

/// From four scores on, a highest score may be raised without changing what a trimmed mean is
/// taken of.
pub proof fn lemma_kept_raised(s: Seq<Double>, i: int, x: Double)
    requires
        s.len() >= 4,
        0 <= i < s.len(),
        forall|j: int| 0 <= j < s.len() ==> (#[trigger] s[j]).place() <= s[i].place(),
        s[i].place() <= x.place(),
    ensures
        places(kept(s.update(i, x))) == places(kept(s)),
{
    let leq = |a: int, b: int| a <= b;
    let n = s.len() as int;
    let t = s.update(i, x);
    let l = ladder(s, s.len());
    let m = ladder(t, t.len());
    lemma_ladder(s, s.len());
    lemma_ladder(t, t.len());
    lemma_kept_places(s);
    lemma_kept_places(t);
    lemma_kept(s);
    assert(s.take(n) =~= s);
    assert(t.take(n) =~= t);
    let r = ranking(s, s.len());
    lemma_ranking(s, s.len());
    assert(l[n - 1] == s[r[n - 1]].place());
    assert(l[n - 1] == s[i].place());
    let raised = l.drop_last().push(x.place());
    assert(places(t) =~= places(s).update(i, x.place()));
    vstd::seq_lib::to_multiset_update(places(s), i, x.place());
    assert(raised =~= l.update(n - 1, x.place()));
    vstd::seq_lib::to_multiset_update(l, n - 1, x.place());
    assert(raised.to_multiset() == m.to_multiset());
    assert forall|a: int, b: int| 0 <= a < b < raised.len() implies #[trigger] leq(
        raised[a],
        raised[b],
    ) by {
        assert(leq(l[a], l[b]));
        assert(raised[a] == l[a]);
    }
    vstd::seq_lib::lemma_sorted_unique(raised, m, leq);
    assert(m.subrange(1, n - 1) =~= l.subrange(1, n - 1));
}

} // verus!
