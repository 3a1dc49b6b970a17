//! Words that several lists of words share.
use crate::sorted::{
    ascending, lemma_lookup_put, lemma_precedes_total, lemma_put_ascending, lookup, precedes, put,
    SortedMap,
};
use crate::text::{char_seqs, includes, string_of, texts};
use vstd::prelude::*;

verus! {

/// `t` has more than one character and stands in the lists at `i` and at `j`.
pub open spec fn shared_at(lists: Seq<Seq<Seq<char>>>, t: Seq<char>, i: int, j: int) -> bool {
    &&& t.len() >= 2
    &&& 0 <= i < j < lists.len()
    &&& lists[i].contains(t)
    &&& lists[j].contains(t)
}

/// `t` has more than one character and stands in two of the lists.
pub open spec fn shared(lists: Seq<Seq<Seq<char>>>, t: Seq<char>) -> bool {
    exists|i: int, j: int| shared_at(lists, t, i, j)
}

/// The texts ascend strictly.
pub open spec fn in_order(d: Seq<Seq<char>>) -> bool {
    forall|i: int, j: int| 0 <= i < j < d.len() ==> precedes(#[trigger] d[i], #[trigger] d[j])
}

/// `d` lists, in ascending order, the words that stand in two of the lists.
pub open spec fn lists_shared(lists: Seq<Seq<Seq<char>>>, d: Seq<Seq<char>>) -> bool {
    &&& in_order(d)
    &&& forall|t: Seq<char>| #[trigger] d.contains(t) <==> shared(lists, t)
}

/// The words that stand in two of the lists, in ascending order.
pub open spec fn shared_words(lists: Seq<Seq<Seq<char>>>) -> Seq<Seq<char>> {
    choose|d: Seq<Seq<char>>| lists_shared(lists, d)
}

/// Only one list holds certain texts in ascending order.
proof fn lemma_in_order_unique(a: Seq<Seq<char>>, b: Seq<Seq<char>>)
    requires
        in_order(a),
        in_order(b),
        forall|t: Seq<char>| #[trigger] a.contains(t) <==> b.contains(t),
    ensures
        a == b,
    decreases a.len(),
{
    if a.len() == 0 {
        if b.len() > 0 {
            assert(b.contains(b[0]));
            assert(a.contains(b[0]));
        }
        assert(a =~= b);
    } else {
        assert(a.contains(a.last()));
        let k = b.index_of(a.last());
        assert(b[k] == a.last());
        if k < b.len() - 1 {
            assert(b.contains(b.last()));
            assert(a.contains(b.last()));
            let m = a.index_of(b.last());
            assert(precedes(b[k], b[b.len() - 1]));
            lemma_precedes_total(a.last(), b.last());
            if m < a.len() - 1 {
                assert(precedes(a[m], a[a.len() - 1]));
            }
            assert(false);
        }
        let x = a.drop_last();
        let y = b.drop_last();
        assert forall|i: int, j: int| 0 <= i < j < x.len() implies precedes(
            #[trigger] x[i],
            #[trigger] x[j],
        ) by {
            assert(precedes(a[i], a[j]));
        }
        assert forall|i: int, j: int| 0 <= i < j < y.len() implies precedes(
            #[trigger] y[i],
            #[trigger] y[j],
        ) by {
            assert(precedes(b[i], b[j]));
        }
        assert forall|t: Seq<char>| #[trigger] x.contains(t) <==> y.contains(t) by {
            if x.contains(t) {
                let i = x.index_of(t);
                assert(a[i] == t);
                assert(a.contains(t));
                assert(precedes(a[i], a[a.len() - 1]));
                lemma_precedes_total(t, t);
                let j = b.index_of(t);
                assert(b[j] == t);
                assert(y[j] == t);
            }
            if y.contains(t) {
                let i = y.index_of(t);
                assert(b[i] == t);
                assert(b.contains(t));
                assert(a.contains(t));
                assert(precedes(b[i], b[b.len() - 1]));
                lemma_precedes_total(t, t);
                let j = a.index_of(t);
                assert(a[j] == t);
                assert(x[j] == t);
            }
        }
        lemma_in_order_unique(x, y);
        assert(a =~= x.push(a.last()));
        assert(b =~= y.push(b.last()));
    }
}

/// What `lists_shared` describes is `shared_words`.
pub proof fn lemma_shared_words(lists: Seq<Seq<Seq<char>>>, d: Seq<Seq<char>>)
    requires
        lists_shared(lists, d),
    ensures
        d == shared_words(lists),
{
    let c = shared_words(lists);
    assert(lists_shared(lists, c));
    assert forall|t: Seq<char>| #[trigger] d.contains(t) <==> c.contains(t) by {
        assert(c.contains(t) <==> shared(lists, t));
    }
    lemma_in_order_unique(d, c);
}

/// A key is bound where it is one of the keys.
proof fn lemma_lookup_key<T>(e: Seq<(Seq<char>, T)>, t: Seq<char>)
    ensures
        lookup(e, t) is Some <==> exists|i: int| 0 <= i < e.len() && (#[trigger] e[i]).0 == t,
    decreases e.len(),
{
    if e.len() > 0 {
        let r = e.drop_first();
        lemma_lookup_key(r, t);
        if e[0].0 != t {
            if exists|i: int| 0 <= i < e.len() && (#[trigger] e[i]).0 == t {
                let i = choose|i: int| 0 <= i < e.len() && (#[trigger] e[i]).0 == t;
                assert(r[i - 1].0 == t);
            }
            if exists|i: int| 0 <= i < r.len() && (#[trigger] r[i]).0 == t {
                let i = choose|i: int| 0 <= i < r.len() && (#[trigger] r[i]).0 == t;
                assert(e[i + 1].0 == t);
            }
        }
    }
}

/// The texts of lists of lists.
pub open spec fn word_lists(v: Seq<Vec<Vec<char>>>) -> Seq<Seq<Seq<char>>> {
    v.map_values(|x: Vec<Vec<char>>| char_seqs(x@))
}

/// Whether `t` stands in one of the lists behind position `i`.
fn stands_later(lists: &Vec<Vec<Vec<char>>>, i: usize, t: &Vec<char>) -> (r: bool)
    requires
        i < lists@.len(),
    ensures
        r == exists|j: int| i < j < lists@.len() && (#[trigger] word_lists(lists@)[j]).contains(t@),
{
    for j in i + 1..lists.len()
        invariant
            i < j,
            forall|k: int| i < k < j ==> !(#[trigger] word_lists(lists@)[k]).contains(t@),
    {
        assert(word_lists(lists@)[j as int] == char_seqs(lists@[j as int]@));
        if includes(&lists[j], t) {
            return true;
        }
    }
    false
}

/// The words that stand in two of the lists, in ascending order.
pub fn find_shared(lists: &Vec<Vec<Vec<char>>>) -> (r: Vec<String>)
    ensures
        texts(r@) == shared_words(word_lists(lists@)),
        lists_shared(word_lists(lists@), texts(r@)),
{
    let ghost all = word_lists(lists@);
    let mut found: SortedMap<bool> = SortedMap::new();
    for i in 0..lists.len()
        invariant
            all == word_lists(lists@),
            ascending(found@),
            forall|t: Seq<char>|
                (#[trigger] lookup(found@, t) is Some) <==> exists|a: int, b: int|
                    a < i && shared_at(all, t, a, b),
    {
        let ghost here = all[i as int];
        assert(here == char_seqs(lists@[i as int]@));
        let ghost earlier = found@;
        let count: usize = lists[i].len();
        for k in 0..count
            invariant
                i < lists@.len(),
                count == lists@[i as int]@.len(),
                all == word_lists(lists@),
                here == all[i as int],
                here == char_seqs(lists@[i as int]@),
                ascending(found@),
                forall|t: Seq<char>|
                    (#[trigger] lookup(earlier, t) is Some) <==> exists|a: int, b: int|
                        a < i && shared_at(all, t, a, b),
                forall|t: Seq<char>|
                    (#[trigger] lookup(found@, t) is Some) <==> (lookup(earlier, t) is Some || (
                    here.take(k as int).contains(t) && exists|b: int|
                        shared_at(all, t, i as int, b))),
        {
            let ghost word = here[k as int];
            let ghost prev = found@;
            let t = &lists[i][k];
            assert(t@ == word);
            assert(here.contains(word));
            assert(here.take(k + 1) =~= here.take(k as int).push(word));
            let later = stands_later(lists, i, t);
            assert(t@.len() >= 2 && later <==> exists|b: int| shared_at(all, word, i as int, b)) by {
                if t@.len() >= 2 && later {
                    let b = choose|b: int| i < b < lists@.len() && (#[trigger] all[b]).contains(word);
                    assert(shared_at(all, word, i as int, b));
                }
                if exists|b: int| shared_at(all, word, i as int, b) {
                    let b = choose|b: int| shared_at(all, word, i as int, b);
                    assert(all[b].contains(word));
                }
            }
            let add = t.len() >= 2 && later;
            if add {
                found.insert(string_of(t), true);
                assert forall|q: Seq<char>| (#[trigger] lookup(found@, q) is Some) <==> (lookup(
                    prev,
                    q,
                ) is Some || q == word) by {
                    lemma_lookup_put(prev, word, true, q);
                }
            }
            assert forall|q: Seq<char>| (#[trigger] lookup(found@, q) is Some) <==> (lookup(
                earlier,
                q,
            ) is Some || (here.take(k + 1).contains(q) && exists|b: int|
                shared_at(all, q, i as int, b))) by {
                assert(lookup(prev, q) is Some <==> (lookup(earlier, q) is Some || (here.take(
                    k as int,
                ).contains(q) && exists|b: int| shared_at(all, q, i as int, b))));
                let before = here.take(k as int);
                let now = here.take(k + 1);
                assert(now.contains(q) <==> before.contains(q) || q == word) by {
                    if before.contains(q) {
                        assert(now[before.index_of(q)] == q);
                    }
                    assert(now[k as int] == word);
                    if now.contains(q) && q != word {
                        assert(before[now.index_of(q)] == q);
                    }
                }
            }
        }
        assert(here.take(here.len() as int) =~= here);
        assert forall|t: Seq<char>| (#[trigger] lookup(found@, t) is Some) <==> exists|
            a: int,
            b: int,
        | a < i + 1 && shared_at(all, t, a, b) by {
            assert(lookup(found@, t) is Some <==> (lookup(earlier, t) is Some || (here.contains(t)
                && exists|b: int| shared_at(all, t, i as int, b))));
            if exists|a: int, b: int| a < i + 1 && shared_at(all, t, a, b) {
                let (a, b) = choose|a: int, b: int| a < i + 1 && shared_at(all, t, a, b);
                if a < i {
                    assert(lookup(earlier, t) is Some);
                } else {
                    assert(shared_at(all, t, i as int, b));
                }
            }
            if lookup(earlier, t) is Some {
                let (a, b) = choose|a: int, b: int| a < i && shared_at(all, t, a, b);
                assert(a < i + 1 && shared_at(all, t, a, b));
            }
            if exists|b: int| shared_at(all, t, i as int, b) {
                let b = choose|b: int| shared_at(all, t, i as int, b);
                assert((i as int) < i + 1 && shared_at(all, t, i as int, b));
            }
        }
    }
    let mut out: Vec<String> = Vec::new();
    let count: usize = found.len();
    for i in 0..count
        invariant
            count == found@.len(),
            out@.len() == i,
            forall|k: int| 0 <= k < i ==> (#[trigger] out@[k])@ == found@[k].0,
    {
        out.push(found.key(i).clone());
    }
    proof {
        let d = texts(out@);
        assert forall|i: int, j: int| 0 <= i < j < d.len() implies precedes(
            #[trigger] d[i],
            #[trigger] d[j],
        ) by {
            assert(out@[i]@ == found@[i].0 && out@[j]@ == found@[j].0);
        }
        assert forall|t: Seq<char>| #[trigger] d.contains(t) <==> shared(all, t) by {
            lemma_lookup_key(found@, t);
            if d.contains(t) {
                let i = d.index_of(t);
                assert(out@[i]@ == found@[i].0);
                assert(lookup(found@, t) is Some);
                let (a, b) = choose|a: int, b: int|
                    a < lists@.len() && shared_at(all, t, a, b);
                assert(shared_at(all, t, a, b));
            }
            if shared(all, t) {
                let (a, b) = choose|a: int, b: int| shared_at(all, t, a, b);
                assert(a < lists@.len() && shared_at(all, t, a, b));
                assert(lookup(found@, t) is Some);
                let i = choose|i: int| 0 <= i < found@.len() && (#[trigger] found@[i]).0 == t;
                assert(out@[i]@ == found@[i].0);
                assert(d[i] == t);
            }
        }
        assert(lists_shared(all, d));
        lemma_shared_words(all, d);
    }
    out
}

/// The words of all lists.
spec fn flat(lists: Seq<Seq<Seq<char>>>) -> Seq<Seq<char>>
    decreases lists.len(),
{
    if lists.len() == 0 {
        seq![]
    } else {
        flat(lists.drop_last()) + lists.last()
    }
}

proof fn lemma_flat(lists: Seq<Seq<Seq<char>>>, i: int, t: Seq<char>)
    requires
        0 <= i < lists.len(),
        lists[i].contains(t),
    ensures
        flat(lists).contains(t),
    decreases lists.len(),
{
    let f = flat(lists.drop_last());
    if i == lists.len() - 1 {
        let k = lists.last().index_of(t);
        assert(flat(lists)[f.len() + k] == t);
    } else {
        assert(lists.drop_last()[i] == lists[i]);
        lemma_flat(lists.drop_last(), i, t);
        assert(flat(lists)[f.index_of(t)] == t);
    }
}

/// The shared ones of some words, as keys.
spec fn keyed(lists: Seq<Seq<Seq<char>>>, ts: Seq<Seq<char>>) -> Seq<(Seq<char>, bool)>
    decreases ts.len(),
{
    if ts.len() == 0 {
        seq![]
    } else if shared(lists, ts.last()) {
        put(keyed(lists, ts.drop_last()), ts.last(), true)
    } else {
        keyed(lists, ts.drop_last())
    }
}

proof fn lemma_keyed(lists: Seq<Seq<Seq<char>>>, ts: Seq<Seq<char>>)
    ensures
        ascending(keyed(lists, ts)),
        forall|t: Seq<char>|
            (#[trigger] lookup(keyed(lists, ts), t) is Some) <==> ts.contains(t) && shared(
                lists,
                t,
            ),
    decreases ts.len(),
{
    if ts.len() > 0 {
        let r = ts.drop_last();
        let e = keyed(lists, r);
        lemma_keyed(lists, r);
        if shared(lists, ts.last()) {
            lemma_put_ascending(e, ts.last(), true);
        }
        assert forall|t: Seq<char>| (#[trigger] lookup(keyed(lists, ts), t) is Some)
            <==> ts.contains(t) && shared(lists, t) by {
            assert(lookup(e, t) is Some <==> r.contains(t) && shared(lists, t));
            if shared(lists, ts.last()) {
                lemma_lookup_put(e, ts.last(), true, t);
            }
            assert(ts.contains(t) <==> r.contains(t) || t == ts.last()) by {
                if r.contains(t) {
                    assert(ts[r.index_of(t)] == t);
                }
                assert(ts[ts.len() - 1] == ts.last());
                if ts.contains(t) && t != ts.last() {
                    assert(r[ts.index_of(t)] == t);
                }
            }
        }
    }
}

/// The words that stand in two of the lists can be listed: each of them once, in ascending order,
/// and nothing else.
pub proof fn lemma_shared_listed(lists: Seq<Seq<Seq<char>>>)
    ensures
        lists_shared(lists, shared_words(lists)),
        shared_words(lists).no_duplicates(),
        lists.len() < 2 ==> shared_words(lists).len() == 0,
{
    let ts = flat(lists);
    let e = keyed(lists, ts);
    let d = e.map_values(|x: (Seq<char>, bool)| x.0);
    lemma_keyed(lists, ts);
    assert forall|i: int, j: int| 0 <= i < j < d.len() implies precedes(
        #[trigger] d[i],
        #[trigger] d[j],
    ) by {
        assert(d[i] == e[i].0 && d[j] == e[j].0);
    }
    assert forall|t: Seq<char>| #[trigger] d.contains(t) <==> shared(lists, t) by {
        lemma_lookup_key(e, t);
        if d.contains(t) {
            let i = d.index_of(t);
            assert(e[i].0 == t);
            assert(lookup(e, t) is Some);
        }
        if shared(lists, t) {
            let (a, b) = choose|a: int, b: int| shared_at(lists, t, a, b);
            lemma_flat(lists, a, t);
            assert(lookup(e, t) is Some);
            let i = choose|i: int| 0 <= i < e.len() && (#[trigger] e[i]).0 == t;
            assert(d[i] == t);
        }
    }
    assert(lists_shared(lists, d));
    let w = shared_words(lists);
    assert(lists_shared(lists, w));
    assert forall|i: int, j: int| 0 <= i < w.len() && 0 <= j < w.len() && i != j implies w[i]
        != w[j] by {
        lemma_precedes_total(w[i], w[j]);
        if i < j {
            assert(precedes(w[i], w[j]));
        } else {
            assert(precedes(w[j], w[i]));
        }
    }
    if lists.len() < 2 && w.len() > 0 {
        assert(w.contains(w[0]));
        let (a, b) = choose|a: int, b: int| shared_at(lists, w[0], a, b);
        assert(shared_at(lists, w[0], a, b));
    }
}

} // verus!
