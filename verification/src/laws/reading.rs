//! Laws of reading: which lines are headings, and what stands under each of them.
use crate::checks::{
    block, body_of, body_text, doc_bodies, head, heading_text, is_heading, lemma_sections_heading,
    sections, sections_from, strip_hashes,
};
use crate::laws::checks::lemma_first_heading;
use crate::reading::{lemma_first_line, lemma_leading_lines, lemma_own_body, lemma_sections_lines};
use crate::store_spec::{section_ids, Spec};
use crate::text::{blank, lines, strip_return, trim, trim_start, white_space};
use vstd::prelude::*;

verus! {

/// A line with a hash sign behind whitespace, if anything, is a heading, and says what stands
/// behind its hash signs, without whitespace at its ends. Any other line is none.
pub proof fn lemma_heading_line(a: Seq<char>, hashes: Seq<char>, t: Seq<char>)
    requires
        forall|i: int| 0 <= i < a.len() ==> white_space(#[trigger] a[i]),
        forall|i: int| 0 <= i < hashes.len() ==> #[trigger] hashes[i] == '#',
        t.len() > 0 ==> t[0] != '#',
    ensures
        hashes.len() > 0 ==> is_heading(a + hashes + t),
        hashes.len() > 0 ==> heading_text(a + hashes + t) == trim(t),
        hashes.len() == 0 && t.len() > 0 && !white_space(t[0]) ==> !is_heading(a + hashes + t),
        hashes.len() == 0 && t.len() == 0 ==> !is_heading(a + hashes + t),
{
    let s = a + hashes + t;
    let rest = hashes + t;
    assert(s =~= a + rest);
    if hashes.len() > 0 {
        assert(rest[0] == hashes[0]);
        lemma_strip(hashes, t);
    } else {
        assert(rest =~= t);
    }
    if rest.len() == 0 || !white_space(rest[0]) {
        lemma_trim_front(a, rest);
    }
}

proof fn lemma_trim_front(a: Seq<char>, rest: Seq<char>)
    requires
        forall|i: int| 0 <= i < a.len() ==> white_space(#[trigger] a[i]),
        rest.len() > 0 ==> !white_space(rest[0]),
    ensures
        trim_start(a + rest) == rest,
    decreases a.len(),
{
    let s = a + rest;
    if a.len() == 0 {
        assert(s =~= rest);
    } else {
        let t = a.drop_first();
        assert(s[0] == a[0]);
        assert forall|i: int| 0 <= i < t.len() implies white_space(#[trigger] t[i]) by {
            assert(t[i] == a[i + 1]);
        }
        assert(s.drop_first() =~= t + rest);
        lemma_trim_front(t, rest);
    }
}

proof fn lemma_strip(hashes: Seq<char>, t: Seq<char>)
    requires
        forall|i: int| 0 <= i < hashes.len() ==> #[trigger] hashes[i] == '#',
        t.len() > 0 ==> t[0] != '#',
    ensures
        strip_hashes(hashes + t) == t,
    decreases hashes.len(),
{
    let s = hashes + t;
    if hashes.len() == 0 {
        assert(s =~= t);
    } else {
        let h = hashes.drop_first();
        assert(s[0] == hashes[0]);
        assert forall|i: int| 0 <= i < h.len() implies #[trigger] h[i] == '#' by {
            assert(h[i] == hashes[i + 1]);
        }
        assert(s.drop_first() =~= h + t);
        lemma_strip(h, t);
    }
}

/// A text of whole lines of which none is a heading.
pub open spec fn plain_lines(b: Seq<char>) -> bool {
    &&& !b.contains('\r')
    &&& b.len() > 0 ==> b.last() == '\n'
    &&& forall|k: int| 0 <= k < lines(b).len() ==> !is_heading(#[trigger] lines(b)[k])
}

/// Nothing stands there, or a heading comes first.
pub open spec fn starts_anew(rest: Seq<char>) -> bool {
    lines(rest).len() == 0 || is_heading(lines(rest)[0])
}

/// What stands before the first heading has an empty heading, unless it is blank.
pub proof fn lemma_opening(b: Seq<char>, rest: Seq<char>)
    requires
        plain_lines(b),
        starts_anew(rest),
    ensures
        sections(b + rest) == if blank(b) {
            sections(rest)
        } else {
            seq![(seq![], b)] + sections(rest)
        },
{
    lemma_body_then(seq![], b, rest);
    lemma_lines_then(b, rest);
    if blank(b) {
        assert(Seq::<(Seq<char>, Seq<char>)>::empty() + sections(rest) =~= sections(rest));
    }
}

proof fn lemma_lines_then(b: Seq<char>, rest: Seq<char>)
    requires
        plain_lines(b),
    ensures
        lines(b + rest) == lines(b) + lines(rest),
        body_text(lines(b)) == b,
{
    if b.len() > 0 {
        lemma_leading_lines(b, rest);
    } else {
        assert(b + rest =~= rest);
        assert(lines(b) + lines(rest) =~= lines(rest));
        assert(body_text(lines(b)) =~= b);
    }
}

proof fn lemma_body_then(h: Seq<char>, b: Seq<char>, rest: Seq<char>)
    requires
        plain_lines(b),
        starts_anew(rest),
    ensures
        sections_from(h, seq![], lines(b) + lines(rest)) == block(h, b) + sections(rest),
{
    let none = Seq::<char>::empty();
    lemma_lines_then(b, rest);
    lemma_sections_lines(h, none, lines(b), lines(rest));
    assert(none + b =~= b);
    if lines(rest).len() == 0 {
        assert(b + body_text(lines(rest)) =~= b);
        assert(none + body_text(lines(rest)) =~= none);
        assert(block(h, b) + sections(rest) =~= block(h, b));
    } else {
        lemma_sections_heading(h, b, lines(rest));
        lemma_sections_heading(none, none, lines(rest));
        assert(block(none, none).len() == 0);
        let more = sections_from(
            heading_text(lines(rest)[0]),
            none,
            lines(rest).drop_first(),
        );
        assert(block(none, none) + more =~= more);
    }
}

/// The lines under a heading, up to the next one, are its body. A heading that says nothing and
/// has nothing under it is left out.
pub proof fn lemma_section(h: Seq<char>, b: Seq<char>, rest: Seq<char>)
    requires
        is_heading(h),
        forall|i: int| 0 <= i < h.len() ==> #[trigger] h[i] != '\n',
        h.last() != '\r',
        plain_lines(b),
        starts_anew(rest),
    ensures
        sections(h.push('\n') + (b + rest)) == if heading_text(h).len() == 0 && blank(b) {
            sections(rest)
        } else {
            seq![(heading_text(h), b)] + sections(rest)
        },
{
    let none = Seq::<char>::empty();
    let doc = h.push('\n') + (b + rest);
    lemma_first_line(h, b + rest);
    assert(strip_return(h) == h);
    lemma_lines_then(b, rest);
    let ls = lines(doc);
    assert(ls =~= seq![h] + (lines(b) + lines(rest)));
    assert(ls[0] == h);
    assert(ls.drop_first() =~= lines(b) + lines(rest));
    lemma_sections_heading(none, none, ls);
    assert(block(none, none).len() == 0);
    let more = sections_from(heading_text(h), none, ls.drop_first());
    assert(block(none, none) + more =~= more);
    lemma_body_then(heading_text(h), b, rest);
    if heading_text(h).len() == 0 && blank(b) {
        assert(Seq::<(Seq<char>, Seq<char>)>::empty() + sections(rest) =~= sections(rest));
    }
}

/// What is read of a field is what stands, without whitespace at its ends, under the first heading
/// of the document that compares as its title, and nothing where there is no such heading.
pub proof fn lemma_field(spec: Spec, doc: Seq<char>, i: int, k: int)
    requires
        section_ids(spec.sections@).no_duplicates(),
        0 <= i < spec.sections@.len(),
        0 <= k <= sections(doc).len(),
        forall|j: int|
            0 <= j < k ==> (#[trigger] sections(doc)[j]).0.len() == 0 || head(sections(doc)[j].0)
                != head(spec.sections@[i].title@),
        k < sections(doc).len() ==> sections(doc)[k].0.len() > 0 && head(sections(doc)[k].0) == head(
            spec.sections@[i].title@,
        ),
    ensures
        body_of(doc_bodies(spec, doc), spec.sections@[i].id@) == if k < sections(doc).len() {
            trim(sections(doc)[k].1)
        } else {
            seq![]
        },
{
    lemma_own_body(spec.sections@, sections(doc), i);
    lemma_first_heading(sections(doc), head(spec.sections@[i].title@), k);
}

} // verus!
