//! How much two texts have in common: the Jaccard similarity of their sets of words. (Words are
//! runs without whitespace; nothing is done about inflection.)
use crate::text::{
    char_seqs, chars_of, firsts, firsts_of, includes, lemma_firsts, lemma_words_filled, words,
    words_of,
};
use vstd::prelude::*;

verus! {

/// The words that stand in a text.
pub open spec fn tokens(s: Seq<char>) -> Set<Seq<char>> {
    words(s).to_set()
}

/// How many words two texts have in common.
pub open spec fn common(a: Seq<char>, b: Seq<char>) -> nat {
    tokens(a).intersect(tokens(b)).len()
}

/// How many words stand in at least one of two texts.
pub open spec fn together(a: Seq<char>, b: Seq<char>) -> nat {
    tokens(a).union(tokens(b)).len()
}

/// Less than three tenths of the words of two texts are common to both.
pub open spec fn unlike(a: Seq<char>, b: Seq<char>) -> bool {
    10 * common(a, b) < 3 * together(a, b)
}

/// How many words two texts have in common, and how many stand in only one of them.
#[derive(Debug, Clone, Copy)]
pub struct Similarity {
    pub common: usize,
    pub first_only: usize,
    pub second_only: usize,
}

impl Similarity {
    /// How many words stand in at least one of the texts.
    pub fn all(self) -> (r: u128)
        ensures
            r == self.common + self.first_only + self.second_only,
    {
        self.common as u128 + self.first_only as u128 + self.second_only as u128
    }

    /// Whether less than three tenths of the words are common to both. (Polishing a short text
    /// keeps a good part of its words; below this it is as good as another text.)
    pub fn is_low(self) -> (r: bool)
        ensures
            r == (10 * self.common < 3 * (self.common + self.first_only + self.second_only)),
    {
        10 * (self.common as u128) < 3 * self.all()
    }
}

/// The different words of a text, one after the other, are as many as the set of its words has.
proof fn lemma_tokens(s: Seq<char>)
    ensures
        firsts(words(s)).no_duplicates(),
        firsts(words(s)).to_set() == tokens(s),
        firsts(words(s)).len() == tokens(s).len(),
        tokens(s).finite(),
{
    let f = firsts(words(s));
    lemma_firsts(words(s));
    lemma_words_filled(s);
    assert(f.to_set() =~= tokens(s)) by {
        assert forall|t: Seq<char>| f.to_set().contains(t) <==> tokens(s).contains(t) by {
            assert(f.contains(t) <==> t.len() > 0 && words(s).contains(t));
        }
    }
    f.unique_seq_to_set();
    vstd::seq_lib::seq_to_set_is_finite(words(s));
}

/// Counts the words of two texts. The similarity is the common ones divided by all; it is 1 where
/// there are none at all.
pub fn jaccard_similarity(a: &str, b: &str) -> (r: Similarity)
    ensures
        r.common == common(a@, b@),
        r.common + r.first_only == tokens(a@).len(),
        r.common + r.second_only == tokens(b@).len(),
        r.common + r.first_only + r.second_only == together(a@, b@),
{
    let wa = firsts_of(&words_of(&chars_of(a)));
    let wb = firsts_of(&words_of(&chars_of(b)));
    let ghost ta = char_seqs(wa@);
    let ghost tb = char_seqs(wb@);
    proof {
        lemma_tokens(a@);
        lemma_tokens(b@);
    }
    let mut shared: usize = 0;
    assert(ta.take(0).to_set().intersect(tb.to_set()) =~= Set::empty());
    for i in 0..wa.len()
        invariant
            ta == char_seqs(wa@),
            tb == char_seqs(wb@),
            ta.no_duplicates(),
            shared == ta.take(i as int).to_set().intersect(tb.to_set()).len(),
            shared <= i,
    {
        let ghost before = ta.take(i as int).to_set();
        let ghost t = ta[i as int];
        assert(ta.take(i + 1).to_set() =~= before.insert(t)) by {
            assert(ta.take(i + 1) =~= ta.take(i as int).push(t));
            assert forall|x: Seq<char>|
                ta.take(i + 1).to_set().contains(x) <==> before.insert(t).contains(x) by {
                if ta.take(i as int).contains(x) {
                    assert(ta.take(i + 1)[ta.take(i as int).index_of(x)] == x);
                }
                assert(ta.take(i + 1)[i as int] == t);
                if ta.take(i + 1).contains(x) {
                    let k = ta.take(i + 1).index_of(x);
                    if k < i {
                        assert(ta.take(i as int)[k] == x);
                    }
                }
            }
        }
        assert(!before.contains(t));
        proof {
            vstd::seq_lib::seq_to_set_is_finite(ta.take(i as int));
        }
        assert(before.intersect(tb.to_set()).finite());
        if includes(&wb, &wa[i]) {
            assert(tb.contains(t));
            assert(before.insert(t).intersect(tb.to_set()) =~= before.intersect(tb.to_set()).insert(
                t,
            ));
            shared += 1;
        } else {
            assert(!tb.contains(t));
            assert(before.insert(t).intersect(tb.to_set()) =~= before.intersect(tb.to_set()));
        }
    }
    assert(ta.take(wa@.len() as int) =~= ta);
    proof {
        vstd::set_lib::lemma_set_intersect_union_lens(tokens(a@), tokens(b@));
        lemma_common_bounds(a@, b@);
    }
    Similarity { common: shared, first_only: wa.len() - shared, second_only: wb.len() - shared }
}

/// No more words are common to both texts than either has, nor than stand in one of them.
pub proof fn lemma_common_bounds(a: Seq<char>, b: Seq<char>)
    ensures
        common(a, b) <= tokens(a).len(),
        common(a, b) <= tokens(b).len(),
        common(a, b) <= together(a, b),
{
    lemma_tokens(a);
    lemma_tokens(b);
    vstd::set_lib::lemma_len_subset(tokens(a).intersect(tokens(b)), tokens(a));
    vstd::set_lib::lemma_len_subset(tokens(a).intersect(tokens(b)), tokens(b));
    vstd::set_lib::lemma_len_subset(
        tokens(a).intersect(tokens(b)),
        tokens(a).union(tokens(b)),
    );
}

/// It does not matter which of the two texts comes first.
pub proof fn lemma_symmetric(a: Seq<char>, b: Seq<char>)
    ensures
        common(a, b) == common(b, a),
        together(a, b) == together(b, a),
        unlike(a, b) == unlike(b, a),
{
    assert(tokens(a).intersect(tokens(b)) =~= tokens(b).intersect(tokens(a)));
    assert(tokens(a).union(tokens(b)) =~= tokens(b).union(tokens(a)));
}

/// Two texts have similarity 1 exactly where they have the same words, and 0 exactly where there
/// are words and none is common.
pub proof fn lemma_similarity_ends(a: Seq<char>, b: Seq<char>)
    ensures
        common(a, b) == together(a, b) <==> tokens(a) == tokens(b),
        common(a, b) == 0 <==> tokens(a).disjoint(tokens(b)),
        tokens(a) == tokens(b) ==> !unlike(a, b),
        tokens(a).disjoint(tokens(b)) && together(a, b) > 0 ==> unlike(a, b),
{
    let i = tokens(a).intersect(tokens(b));
    let u = tokens(a).union(tokens(b));
    lemma_tokens(a);
    lemma_tokens(b);
    if tokens(a) == tokens(b) {
        assert(i =~= tokens(a));
        assert(u =~= tokens(a));
    }
    if common(a, b) == together(a, b) {
        vstd::set_lib::lemma_subset_equality(i, u);
        assert forall|t: Seq<char>| tokens(a).contains(t) <==> tokens(b).contains(t) by {
            assert(i.contains(t) <==> u.contains(t));
        }
        assert(tokens(a) =~= tokens(b));
    }
    if tokens(a).disjoint(tokens(b)) {
        assert(i =~= Set::empty());
    }
    if common(a, b) == 0 {
        assert(i =~= Set::empty());
        assert forall|t: Seq<char>| tokens(a).contains(t) implies !tokens(b).contains(t) by {
            assert(!i.contains(t));
        }
    }
}

} // verus!
