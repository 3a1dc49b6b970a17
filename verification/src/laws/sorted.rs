//! Laws of the order of texts, and of maps by it.
use crate::sorted::{ascending, lemma_lookup_put, lemma_put_ascending, lookup, precedes, put};
use vstd::prelude::*;

verus! {

/// A text comes before another at the first character in which they differ, or where it is the
/// beginning of the other.
pub proof fn lemma_precedes(p: Seq<char>, a: Seq<char>, b: Seq<char>)
    ensures
        a.len() > 0 && b.len() > 0 && a[0] != b[0] ==> (precedes(p + a, p + b) <==> a[0] < b[0]),
        a.len() == 0 ==> (precedes(p + a, p + b) <==> b.len() > 0),
        b.len() == 0 ==> !precedes(p + a, p + b),
    decreases p.len(),
{
    if p.len() == 0 {
        assert(p + a =~= a);
        assert(p + b =~= b);
    } else {
        let q = p.drop_first();
        lemma_precedes(q, a, b);
        assert((p + a).drop_first() =~= q + a);
        assert((p + b).drop_first() =~= q + b);
        assert((p + a)[0] == p[0] && (p + b)[0] == p[0]);
    }
}

/// A key is bound to what it was bound to last, other keys stay as they are, and the keys stay in
/// order.
pub proof fn lemma_bound<T>(e: Seq<(Seq<char>, T)>, k: Seq<char>, v: T, q: Seq<char>)
    requires
        ascending(e),
    ensures
        ascending(put(e, k, v)),
        lookup(put(e, k, v), k) == Some(v),
        q != k ==> lookup(put(e, k, v), q) == lookup(e, q),
        lookup(Seq::<(Seq<char>, T)>::empty(), q) is None,
{
    lemma_put_ascending(e, k, v);
    lemma_lookup_put(e, k, v, k);
    lemma_lookup_put(e, k, v, q);
}

} // verus!
