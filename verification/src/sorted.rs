//! A map from texts to values whose entries stand in the order of their keys.
use crate::double::Double;
use crate::text::{chars_of, same};
use vstd::prelude::*;

verus! {

/// `a` comes before `b`: the order of texts by their code points, a prefix first.
pub open spec fn precedes(a: Seq<char>, b: Seq<char>) -> bool
    decreases a.len(),
{
    if b.len() == 0 {
        false
    } else if a.len() == 0 {
        true
    } else if a[0] != b[0] {
        a[0] < b[0]
    } else {
        precedes(a.drop_first(), b.drop_first())
    }
}

/// No text precedes itself, of two different texts exactly one precedes the other, and the order
/// is transitive.
pub proof fn lemma_precedes_total(a: Seq<char>, b: Seq<char>)
    ensures
        !precedes(a, a),
        a != b ==> precedes(a, b) || precedes(b, a),
        !(precedes(a, b) && precedes(b, a)),
    decreases a.len(),
{
    if a.len() > 0 {
        lemma_precedes_total(a.drop_first(), a.drop_first());
    }
    if a.len() > 0 && b.len() > 0 && a[0] == b[0] {
        lemma_precedes_total(a.drop_first(), b.drop_first());
        if a.drop_first() == b.drop_first() {
            assert(a =~= b) by {
                assert forall|i: int| 0 <= i < a.len() implies a[i] == b[i] by {
                    if i > 0 {
                        assert(a.drop_first()[i - 1] == b.drop_first()[i - 1]);
                    }
                }
            }
        }
    } else if a.len() == 0 && b.len() == 0 {
        assert(a =~= b);
    }
}

pub proof fn lemma_precedes_transitive(a: Seq<char>, b: Seq<char>, c: Seq<char>)
    requires
        precedes(a, b),
        precedes(b, c),
    ensures
        precedes(a, c),
    decreases a.len(),
{
    if a.len() > 0 && a[0] == b[0] && b[0] == c[0] {
        lemma_precedes_transitive(a.drop_first(), b.drop_first(), c.drop_first());
    }
}

/// Whether `a` comes before `b`.
pub fn is_before(a: &Vec<char>, b: &Vec<char>) -> (r: bool)
    ensures
        r == precedes(a@, b@),
{
    let mut i: usize = 0;
    proof {
        assert(a@.skip(0) =~= a@);
        assert(b@.skip(0) =~= b@);
    }
    while i < a.len() && i < b.len()
        invariant
            i <= a@.len(),
            i <= b@.len(),
            precedes(a@, b@) == precedes(a@.skip(i as int), b@.skip(i as int)),
        decreases a@.len() - i,
    {
        if a[i] != b[i] {
            return a[i] < b[i];
        }
        assert(a@.skip(i as int).drop_first() =~= a@.skip(i + 1));
        assert(b@.skip(i as int).drop_first() =~= b@.skip(i + 1));
        i += 1;
    }
    i < b.len()
}

/// The keys of `e` ascend strictly.
pub open spec fn ascending<T>(e: Seq<(Seq<char>, T)>) -> bool {
    forall|i: int, j: int| 0 <= i < j < e.len() ==> precedes(#[trigger] e[i].0, #[trigger] e[j].0)
}

/// `e` with `k` bound to `v`: in place of the value that `k` had, or before the first greater key.
pub open spec fn put<T>(e: Seq<(Seq<char>, T)>, k: Seq<char>, v: T) -> Seq<(Seq<char>, T)>
    decreases e.len(),
{
    if e.len() == 0 {
        seq![(k, v)]
    } else if precedes(e[0].0, k) {
        seq![e[0]] + put(e.drop_first(), k, v)
    } else if e[0].0 == k {
        seq![(k, v)] + e.drop_first()
    } else {
        seq![(k, v)] + e
    }
}

/// What `k` is bound to in `e`.
pub open spec fn lookup<T>(e: Seq<(Seq<char>, T)>, k: Seq<char>) -> Option<T>
    decreases e.len(),
{
    if e.len() == 0 {
        None
    } else if e[0].0 == k {
        Some(e[0].1)
    } else {
        lookup(e.drop_first(), k)
    }
}

/// The values of `e` in the order of their keys.
pub open spec fn values<T>(e: Seq<(Seq<char>, T)>) -> Seq<T> {
    e.map_values(|x: (Seq<char>, T)| x.1)
}

proof fn lemma_put_at<T>(e: Seq<(Seq<char>, T)>, k: Seq<char>, v: T, i: int)
    requires
        0 <= i <= e.len(),
        forall|j: int| 0 <= j < i ==> precedes(#[trigger] e[j].0, k),
        i < e.len() ==> !precedes(e[i].0, k),
    ensures
        put(e, k, v) == if i < e.len() && e[i].0 == k {
            e.update(i, (k, v))
        } else {
            e.insert(i, (k, v))
        },
    decreases i,
{
    if i == 0 {
        if e.len() == 0 {
            assert(e.insert(0, (k, v)) =~= seq![(k, v)]);
        } else if e[0].0 == k {
            assert(e.update(0, (k, v)) =~= seq![(k, v)] + e.drop_first());
        } else {
            assert(e.insert(0, (k, v)) =~= seq![(k, v)] + e);
        }
    } else {
        assert(precedes(e[0].0, k));
        assert forall|j: int| 0 <= j < i - 1 implies precedes(
            #[trigger] e.drop_first()[j].0,
            k,
        ) by {
            assert(e[j + 1].0 == e.drop_first()[j].0);
        }
        lemma_put_at(e.drop_first(), k, v, i - 1);
        if i < e.len() && e[i].0 == k {
            assert(e.update(i, (k, v)) =~= seq![e[0]] + e.drop_first().update(i - 1, (k, v)));
        } else {
            assert(e.insert(i, (k, v)) =~= seq![e[0]] + e.drop_first().insert(i - 1, (k, v)));
        }
    }
}

/// Binding a key adds no other key.
proof fn lemma_put_keys<T>(e: Seq<(Seq<char>, T)>, k: Seq<char>, v: T, j: int)
    requires
        0 <= j < put(e, k, v).len(),
    ensures
        put(e, k, v)[j].0 == k || exists|i: int|
            0 <= i < e.len() && (#[trigger] e[i]).0 == put(e, k, v)[j].0,
    decreases e.len(),
{
    let p = put(e, k, v);
    if e.len() > 0 && precedes(e[0].0, k) {
        if j > 0 {
            lemma_put_keys(e.drop_first(), k, v, j - 1);
            if p[j].0 != k {
                let i = choose|i: int|
                    0 <= i < e.drop_first().len() && (#[trigger] e.drop_first()[i]).0 == p[j].0;
                assert(e[i + 1] == e.drop_first()[i]);
            }
        } else {
            assert(e[0] == p[0]);
        }
    } else if e.len() > 0 && e[0].0 == k {
        if j > 0 {
            assert(e[j] == p[j]);
        }
    } else if e.len() > 0 {
        if j > 0 {
            assert(e[j - 1] == p[j]);
        }
    }
}

proof fn lemma_ascending_rest<T>(e: Seq<(Seq<char>, T)>)
    requires
        ascending(e),
        e.len() > 0,
    ensures
        ascending(e.drop_first()),
{
    let t = e.drop_first();
    assert forall|i: int, j: int| 0 <= i < j < t.len() implies precedes(
        #[trigger] t[i].0,
        #[trigger] t[j].0,
    ) by {
        assert(t[i] == e[i + 1] && t[j] == e[j + 1]);
    }
}

/// Binding a key keeps the keys ascending.
pub proof fn lemma_put_ascending<T>(e: Seq<(Seq<char>, T)>, k: Seq<char>, v: T)
    requires
        ascending(e),
    ensures
        ascending(put(e, k, v)),
    decreases e.len(),
{
    if e.len() > 0 {
        let t = e.drop_first();
        lemma_ascending_rest(e);
        lemma_put_ascending(t, k, v);
        let p = put(e, k, v);
        let q = put(t, k, v);
        assert forall|i: int, j: int| 0 <= i < j < p.len() implies precedes(
            #[trigger] p[i].0,
            #[trigger] p[j].0,
        ) by {
            if precedes(e[0].0, k) {
                assert(p[j] == q[j - 1]);
                if i > 0 {
                    assert(p[i] == q[i - 1]);
                } else {
                    lemma_put_keys(t, k, v, j - 1);
                    if p[j].0 != k {
                        let n = choose|n: int| 0 <= n < t.len() && (#[trigger] t[n]).0 == q[j - 1].0;
                        assert(e[n + 1] == t[n]);
                    }
                }
            } else if e[0].0 == k {
                assert(p[i].0 == e[i].0 && p[j].0 == e[j].0);
            } else {
                lemma_precedes_total(e[0].0, k);
                assert(p[j] == e[j - 1]);
                if i > 0 {
                    assert(p[i] == e[i - 1]);
                } else if j > 1 {
                    lemma_precedes_transitive(k, e[0].0, e[j - 1].0);
                }
            }
        }
    }
}

/// A lookup gives back what was bound last, and other keys keep their values.
pub proof fn lemma_lookup_put<T>(e: Seq<(Seq<char>, T)>, k: Seq<char>, v: T, q: Seq<char>)
    requires
        ascending(e),
    ensures
        lookup(put(e, k, v), q) == if q == k {
            Some(v)
        } else {
            lookup(e, q)
        },
    decreases e.len(),
{
    let p = put(e, k, v);
    if e.len() == 0 {
        assert(p.drop_first() =~= seq![]);
    } else {
        let t = e.drop_first();
        lemma_ascending_rest(e);
        if precedes(e[0].0, k) {
            lemma_precedes_total(k, e[0].0);
            lemma_lookup_put(t, k, v, q);
            assert(p.drop_first() =~= put(t, k, v));
        } else if e[0].0 == k {
            assert(p.drop_first() =~= t);
        } else {
            assert(p.drop_first() =~= e);
        }
    }
}

/// What can be had a second time.
pub trait Again: View + Sized {
    /// The same value again.
    fn again(&self) -> (r: Self)
        ensures
            r@ == self@,
    ;
}

impl Again for usize {
    fn again(&self) -> (r: usize) {
        *self
    }
}

impl Again for Double {
    fn again(&self) -> (r: Double) {
        *self
    }
}

impl Again for Vec<Double> {
    fn again(&self) -> (r: Vec<Double>) {
        let mut out: Vec<Double> = Vec::new();
        for i in 0..self.len()
            invariant
                out@ == self@.take(i as int),
        {
            out.push(self[i]);
        }
        assert(self@.take(self@.len() as int) =~= self@);
        out
    }
}

/// A map whose entries stand in the order of their keys.
#[derive(Debug, Clone)]
pub struct SortedMap<V> {
    entries: Vec<(String, V)>,
}

impl<V: View> View for SortedMap<V> {
    type V = Seq<(Seq<char>, V::V)>;

    closed spec fn view(&self) -> Seq<(Seq<char>, V::V)> {
        self.entries@.map_values(|x: (String, V)| (x.0@, x.1@))
    }
}

impl<V: View> SortedMap<V> {
    /// The map without entries.
    pub fn new() -> (r: Self)
        ensures
            r@ == Seq::<(Seq<char>, V::V)>::empty(),
            ascending(r@),
    {
        let r = SortedMap { entries: Vec::new() };
        assert(r@ =~= Seq::<(Seq<char>, V::V)>::empty());
        r
    }

    /// Binds `key` to `value`.
    pub fn insert(&mut self, key: String, value: V)
        ensures
            final(self)@ == put(old(self)@, key@, value@),
            ascending(old(self)@) ==> ascending(final(self)@),
    {
        let k = chars_of(key.as_str());
        let mut i: usize = 0;
        while i < self.entries.len() && is_before(&chars_of(self.entries[i].0.as_str()), &k)
            invariant
                i <= self.entries@.len(),
                *self == *old(self),
                k@ == key@,
                forall|j: int| 0 <= j < i ==> precedes(#[trigger] self@[j].0, k@),
            decreases self.entries@.len() - i,
        {
            i += 1;
        }
        let ghost before = self@;
        proof {
            lemma_put_at(before, key@, value@, i as int);
            if ascending(before) {
                lemma_put_ascending(before, key@, value@);
            }
        }
        if i < self.entries.len() && same(&chars_of(self.entries[i].0.as_str()), &k) {
            let ghost v = value@;
            self.entries[i] = (key, value);
            assert(self@ =~= before.update(i as int, (key@, v)));
        } else {
            let ghost v = value@;
            self.entries.insert(i, (key, value));
            assert(self@ =~= before.insert(i as int, (key@, v)));
        }
    }

    /// What `key` is bound to.
    pub fn get(&self, key: &str) -> (r: Option<&V>)
        ensures
            match r {
                Some(v) => lookup(self@, key@) == Some(v@),
                None => lookup(self@, key@) is None,
            },
    {
        let k = chars_of(key);
        assert(self@.skip(0) =~= self@);
        for i in 0..self.entries.len()
            invariant
                k@ == key@,
                lookup(self@, key@) == lookup(self@.skip(i as int), key@),
        {
            let ghost rest = self@.skip(i as int);
            assert(rest[0] == self@[i as int]);
            assert(rest.drop_first() =~= self@.skip(i + 1));
            if same(&chars_of(self.entries[i].0.as_str()), &k) {
                return Some(&self.entries[i].1);
            }
        }
        None
    }

    /// How many entries there are.
    pub fn len(&self) -> (r: usize)
        ensures
            r == self@.len(),
    {
        self.entries.len()
    }

    /// The key of the entry at position `i`.
    pub fn key(&self, i: usize) -> (r: &String)
        requires
            i < self@.len(),
        ensures
            r@ == self@[i as int].0,
    {
        &self.entries[i].0
    }

    /// The value of the entry at position `i`.
    pub fn value(&self, i: usize) -> (r: &V)
        requires
            i < self@.len(),
        ensures
            r@ == self@[i as int].1,
    {
        &self.entries[i].1
    }
}

impl<V: Again> SortedMap<V> {
    /// The same map again.
    pub fn again(&self) -> (r: Self)
        ensures
            r@ == self@,
    {
        let mut entries: Vec<(String, V)> = Vec::new();
        for i in 0..self.entries.len()
            invariant
                entries@.map_values(|x: (String, V)| (x.0@, x.1@)) == self@.take(i as int),
        {
            let ghost prev = entries@.map_values(|x: (String, V)| (x.0@, x.1@));
            entries.push((self.entries[i].0.clone(), self.entries[i].1.again()));
            assert(entries@.map_values(|x: (String, V)| (x.0@, x.1@)) =~= prev.push(
                self@[i as int],
            ));
        }
        let r = SortedMap { entries };
        assert(r@ =~= self@);
        r
    }
}

} // verus!
