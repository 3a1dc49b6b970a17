//! How a document in the form that writing models are asked for is read: every field under its own
//! heading, and nothing counted twice.
use crate::checks::{
    block, bodies, body_of, body_text, body_under, countable, doc_bodies, field_lens, head,
    heading_text, heads, is_heading, lemma_lines_before_heading, lemma_sections_heading,
    lemma_sections_line, lines_before_heading, sections, sections_from, strip_hashes, total_len,
};
use crate::sorted::{ascending, lemma_lookup_put, lemma_put_ascending, lookup, precedes, put};
use crate::store_spec::{section_ids, section_titles, Section, Spec};
use crate::text::{
    before, lemma_occurs_within, lemma_trim_ends, lemma_trim_occurs, lemma_trim_start_occurs, lines,
    occurs, stands_at, strip_return, trim, trim_end, trim_start, white_space,
};
use vstd::prelude::*;

verus! {

/// What stands in a document under the heading of a field, empty where there is no such heading.
pub open spec fn text_under(secs: Seq<(Seq<char>, Seq<char>)>, title: Seq<char>) -> Seq<char> {
    match body_under(secs, head(title)) {
        Some(b) => b,
        None => seq![],
    }
}

proof fn lemma_absent(fields: Seq<Section>, secs: Seq<(Seq<char>, Seq<char>)>, id: Seq<char>)
    requires
        forall|i: int| 0 <= i < fields.len() ==> (#[trigger] fields[i]).id@ != id,
    ensures
        ascending(bodies(fields, secs)),
        lookup(bodies(fields, secs), id) is None,
    decreases fields.len(),
{
    if fields.len() > 0 {
        let t = fields.drop_last();
        assert forall|i: int| 0 <= i < t.len() implies (#[trigger] t[i]).id@ != id by {
            assert(t[i] == fields[i]);
        }
        lemma_absent(t, secs, id);
        assert(fields[fields.len() - 1] == fields.last());
        if let Some(b) = body_under(secs, head(fields.last().title@)) {
            lemma_put_ascending(bodies(t, secs), fields.last().id@, b);
            lemma_lookup_put(bodies(t, secs), fields.last().id@, b, id);
        }
    }
}

/// Where no two fields share an id, a field's body is what stands under its own heading, whatever
/// the other fields are.
pub proof fn lemma_own_body(fields: Seq<Section>, secs: Seq<(Seq<char>, Seq<char>)>, i: int)
    requires
        0 <= i < fields.len(),
        section_ids(fields).no_duplicates(),
    ensures
        ascending(bodies(fields, secs)),
        body_of(bodies(fields, secs), fields[i].id@) == text_under(secs, fields[i].title@),
    decreases fields.len(),
{
    let t = fields.drop_last();
    let last = fields.last();
    let ids = section_ids(fields);
    assert forall|k: int| 0 <= k < t.len() implies (#[trigger] t[k]).id@ != last.id@ by {
        assert(t[k] == fields[k]);
        assert(ids[k] != ids[fields.len() - 1]);
    }
    lemma_absent(t, secs, last.id@);
    if let Some(b) = body_under(secs, head(last.title@)) {
        lemma_put_ascending(bodies(t, secs), last.id@, b);
        lemma_lookup_put(bodies(t, secs), last.id@, b, fields[i].id@);
    }
    if i < t.len() {
        assert(section_ids(t) =~= ids.drop_last());
        assert(section_ids(t).no_duplicates()) by {
            assert forall|a: int, b: int|
                0 <= a < t.len() && 0 <= b < t.len() && a != b implies section_ids(t)[a]
                != section_ids(t)[b] by {
                assert(ids[a] != ids[b]);
            }
        }
        lemma_own_body(t, secs, i);
        assert(t[i].id@ != last.id@);
    }
}

/// The lengths of what stands under the headings, together.
spec fn under_sum(hs: Seq<Seq<char>>, secs: Seq<(Seq<char>, Seq<char>)>) -> nat
    decreases hs.len(),
{
    if hs.len() == 0 {
        0
    } else {
        under_sum(hs.drop_last(), secs) + match body_under(secs, hs.last()) {
            Some(b) => b.len(),
            None => 0,
        }
    }
}

/// The lengths of the trimmed blocks of a document, together.
spec fn block_sum(secs: Seq<(Seq<char>, Seq<char>)>) -> nat
    decreases secs.len(),
{
    if secs.len() == 0 {
        0
    } else {
        trim(secs[0].1).len() + block_sum(secs.drop_first())
    }
}

proof fn lemma_under_rest(hs: Seq<Seq<char>>, secs: Seq<(Seq<char>, Seq<char>)>)
    requires
        secs.len() > 0,
        hs.no_duplicates(),
    ensures
        under_sum(hs, secs) <= trim(secs[0].1).len() + under_sum(hs, secs.drop_first()),
        !hs.contains(head(secs[0].0)) ==> under_sum(hs, secs) == under_sum(hs, secs.drop_first()),
    decreases hs.len(),
{
    if hs.len() > 0 {
        let t = hs.drop_last();
        assert(t.no_duplicates()) by {
            assert forall|a: int, b: int| 0 <= a < t.len() && 0 <= b < t.len() && a != b implies t[a]
                != t[b] by {
                assert(hs[a] != hs[b]);
            }
        }
        lemma_under_rest(t, secs);
        assert(hs[hs.len() - 1] == hs.last());
        if hs.last() == head(secs[0].0) {
            assert(!t.contains(head(secs[0].0))) by {
                if t.contains(hs.last()) {
                    let k = t.index_of(hs.last());
                    assert(hs[k] == hs[hs.len() - 1]);
                }
            }
        } else if t.contains(head(secs[0].0)) {
            assert(hs[t.index_of(head(secs[0].0))] == head(secs[0].0));
        }
    }
}

proof fn lemma_under_blocks(hs: Seq<Seq<char>>, secs: Seq<(Seq<char>, Seq<char>)>)
    requires
        hs.no_duplicates(),
    ensures
        under_sum(hs, secs) <= block_sum(secs),
    decreases secs.len(),
{
    if secs.len() == 0 {
        assert(secs =~= seq![]);
        lemma_under_none(hs);
    } else {
        lemma_under_rest(hs, secs);
        lemma_under_blocks(hs, secs.drop_first());
    }
}

proof fn lemma_under_none(hs: Seq<Seq<char>>)
    ensures
        under_sum(hs, seq![]) == 0,
    decreases hs.len(),
{
    if hs.len() > 0 {
        lemma_under_none(hs.drop_last());
    }
}

proof fn lemma_lines_len(s: Seq<char>)
    ensures
        body_text(lines(s)).len() <= s.len() + 1,
    decreases s.len(),
{
    if s.len() > 0 {
        let n = before(s, '\n');
        lemma_before_bounds(s, '\n');
        if n < s.len() {
            let rest = s.skip(n + 1);
            lemma_lines_len(rest);
            let ls = lines(s);
            assert(ls[0] == strip_return(s.take(n)));
            assert(ls.drop_first() =~= lines(rest));
            assert(body_text(ls) == ls[0].push('\n') + body_text(lines(rest)));
        } else {
            let ls = lines(s);
            assert(ls.drop_first() =~= seq![]);
            assert(body_text(ls) == s.push('\n') + body_text(seq![]));
        }
    }
}

proof fn lemma_before_bounds(s: Seq<char>, c: char)
    ensures
        0 <= before(s, c) <= s.len(),
    decreases s.len(),
{
    if s.len() > 0 && s[0] != c {
        lemma_before_bounds(s.drop_first(), c);
    }
}

proof fn lemma_body_text_split(ls: Seq<Seq<char>>, n: int)
    requires
        0 <= n <= ls.len(),
    ensures
        body_text(ls) == body_text(ls.take(n)) + body_text(ls.skip(n)),
    decreases n,
{
    if n == 0 {
        assert(ls.skip(0) =~= ls);
        assert(body_text(ls.take(0)) + body_text(ls) =~= body_text(ls));
    } else {
        let t = ls.drop_first();
        lemma_body_text_split(t, n - 1);
        assert(ls.take(n).drop_first() =~= t.take(n - 1));
        assert(ls.skip(n) =~= t.skip(n - 1));
        assert(ls[0].push('\n') + (body_text(t.take(n - 1)) + body_text(t.skip(n - 1))) =~= ls[0].push(
            '\n',
        ) + body_text(t.take(n - 1)) + body_text(t.skip(n - 1)));
    }
}

proof fn lemma_trim_len(s: Seq<char>)
    ensures
        trim_start(s).len() <= s.len(),
        trim_end(s).len() <= s.len(),
    decreases s.len(),
{
    if s.len() > 0 {
        lemma_trim_len(s.drop_first());
        lemma_trim_len(s.drop_last());
    }
}

proof fn lemma_trim_start_end(s: Seq<char>)
    ensures
        trim_start(s).len() > 0 ==> trim_start(s).last() == s.last(),
    decreases s.len(),
{
    if s.len() > 0 && white_space(s[0]) {
        lemma_trim_start_end(s.drop_first());
    }
}

/// Trimming takes away at least the line feed that a text ends with.
proof fn lemma_trim_shorter(s: Seq<char>)
    requires
        s.len() > 0,
        s.last() == '\n',
    ensures
        trim(s).len() < s.len(),
{
    let t = trim_start(s);
    lemma_trim_len(s);
    lemma_trim_start_end(s);
    if t.len() > 0 {
        lemma_trim_len(t.drop_last());
        assert(trim_end(t) == trim_end(t.drop_last()));
    }
}

proof fn lemma_body_text_ends(ls: Seq<Seq<char>>)
    ensures
        body_text(ls).len() > 0 ==> body_text(ls).last() == '\n',
        ls.len() > 0 ==> body_text(ls).len() > 0,
    decreases ls.len(),
{
    if ls.len() > 0 {
        lemma_body_text_ends(ls.drop_first());
        let rest = body_text(ls.drop_first());
        let all = ls[0].push('\n') + rest;
        if rest.len() > 0 {
            assert(all.last() == rest.last());
        } else {
            assert(all.last() == '\n');
        }
    }
}

proof fn lemma_blocks_fit(h: Seq<char>, ls: Seq<Seq<char>>)
    ensures
        block_sum(sections_from(h, seq![], ls)) == 0 || block_sum(sections_from(h, seq![], ls)) + 1
            <= body_text(ls).len(),
    decreases ls.len(),
{
    let n = lines_before_heading(ls);
    lemma_lines_before_heading(ls);
    let mine = if n < ls.len() {
        body_text(ls.take(n))
    } else {
        body_text(ls)
    };
    assert(Seq::<char>::empty() + mine =~= mine);
    let b = block(h, mine);
    let rest = if n < ls.len() {
        sections_from(heading_text(ls[n]), seq![], ls.skip(n + 1))
    } else {
        seq![]
    };
    let secs = sections_from(h, seq![], ls);
    assert(secs =~= b + rest);
    lemma_body_text_ends(ls.take(n));
    lemma_body_text_ends(ls);
    if mine.len() > 0 {
        lemma_trim_shorter(mine);
    } else {
        lemma_trim_len(mine);
        lemma_trim_len(trim_start(mine));
    }
    if b.len() > 0 {
        assert(secs.drop_first() =~= rest);
        assert(block_sum(secs) == trim(mine).len() + block_sum(rest));
    } else {
        assert(secs =~= rest);
    }
    if n < ls.len() {
        lemma_blocks_fit(heading_text(ls[n]), ls.skip(n + 1));
        lemma_body_text_split(ls, n);
        assert(ls.skip(n).drop_first() =~= ls.skip(n + 1));
        assert(body_text(ls.skip(n)) == ls.skip(n)[0].push('\n') + body_text(ls.skip(n + 1)));
    } else {
        assert(block_sum(rest) == 0);
    }
}

proof fn lemma_total_under(
    fields: Seq<Section>,
    secs: Seq<(Seq<char>, Seq<char>)>,
    e: Seq<(Seq<char>, Seq<char>)>,
    n: int,
)
    requires
        0 <= n <= fields.len(),
        section_ids(fields).no_duplicates(),
        e == bodies(fields, secs),
    ensures
        total_len(fields.take(n), e) == under_sum(heads(section_titles(fields)).take(n), secs),
    decreases n,
{
    let hs = heads(section_titles(fields));
    if n > 0 {
        lemma_total_under(fields, secs, e, n - 1);
        assert(fields.take(n).drop_last() =~= fields.take(n - 1));
        assert(hs.take(n).drop_last() =~= hs.take(n - 1));
        assert(hs.take(n).last() == head(fields[n - 1].title@));
        lemma_own_body(fields, secs, n - 1);
    }
}

/// Where no two fields share an id or a heading, no character of a document is counted twice: the
/// fields together are no longer than the document.
pub proof fn lemma_total_fits(spec: Spec, doc: Seq<char>)
    requires
        section_ids(spec.sections@).no_duplicates(),
        heads(section_titles(spec.sections@)).no_duplicates(),
    ensures
        total_len(spec.sections@, doc_bodies(spec, doc)) <= doc.len(),
        doc.len() <= usize::MAX ==> countable(spec, doc),
{
    let fields = spec.sections@;
    let secs = sections(doc);
    let hs = heads(section_titles(fields));
    lemma_total_under(fields, secs, doc_bodies(spec, doc), fields.len() as int);
    assert(fields.take(fields.len() as int) =~= fields);
    assert(hs.take(fields.len() as int) =~= hs);
    lemma_under_blocks(hs, secs);
    lemma_blocks_fit(seq![], lines(doc));
    lemma_lines_len(doc);
}

/// The numbers of a map together.
pub open spec fn sum(e: Seq<(Seq<char>, usize)>) -> nat
    decreases e.len(),
{
    if e.len() == 0 {
        0
    } else {
        e[0].1 as nat + sum(e.drop_first())
    }
}

proof fn lemma_put_sum(e: Seq<(Seq<char>, usize)>, k: Seq<char>, v: usize)
    requires
        lookup(e, k) is None,
    ensures
        sum(put(e, k, v)) == sum(e) + v,
    decreases e.len(),
{
    let p = put(e, k, v);
    if e.len() == 0 {
        assert(sum(p.drop_first()) == 0);
    } else if precedes(e[0].0, k) {
        lemma_put_sum(e.drop_first(), k, v);
        assert(p.drop_first() =~= put(e.drop_first(), k, v));
    } else {
        assert(p.drop_first() =~= e);
    }
}

proof fn lemma_lens_absent(fields: Seq<Section>, e: Seq<(Seq<char>, Seq<char>)>, id: Seq<char>)
    requires
        forall|i: int| 0 <= i < fields.len() ==> (#[trigger] fields[i]).id@ != id,
    ensures
        ascending(field_lens(fields, e)),
        lookup(field_lens(fields, e), id) is None,
    decreases fields.len(),
{
    if fields.len() > 0 {
        let t = fields.drop_last();
        assert forall|i: int| 0 <= i < t.len() implies (#[trigger] t[i]).id@ != id by {
            assert(t[i] == fields[i]);
        }
        lemma_lens_absent(t, e, id);
        assert(fields[fields.len() - 1] == fields.last());
        let n = body_of(e, fields.last().id@).len() as usize;
        lemma_put_ascending(field_lens(t, e), fields.last().id@, n);
        lemma_lookup_put(field_lens(t, e), fields.last().id@, n, id);
    }
}

/// Where no two fields share an id, the lengths of the fields are the length of all.
pub proof fn lemma_lengths_add_up(fields: Seq<Section>, e: Seq<(Seq<char>, Seq<char>)>)
    requires
        section_ids(fields).no_duplicates(),
        total_len(fields, e) <= usize::MAX,
    ensures
        sum(field_lens(fields, e)) == total_len(fields, e),
    decreases fields.len(),
{
    if fields.len() > 0 {
        let t = fields.drop_last();
        let ids = section_ids(fields);
        assert forall|k: int| 0 <= k < t.len() implies (#[trigger] t[k]).id@ != fields.last().id@ by {
            assert(t[k] == fields[k]);
            assert(ids[k] != ids[fields.len() - 1]);
        }
        assert forall|a: int, b: int|
            0 <= a < t.len() && 0 <= b < t.len() && a != b implies section_ids(t)[a]
            != section_ids(t)[b] by {
            assert(ids[a] != ids[b]);
        }
        lemma_lens_absent(t, e, fields.last().id@);
        lemma_lengths_add_up(t, e);
        lemma_put_sum(
            field_lens(t, e),
            fields.last().id@,
            body_of(e, fields.last().id@).len() as usize,
        );
    }
}

/// A document in the form that writing models are asked for: each title as a heading, its body
/// below it.
pub open spec fn document(titles: Seq<Seq<char>>, texts: Seq<Seq<char>>) -> Seq<char>
    decreases titles.len(),
{
    if titles.len() == 0 {
        seq![]
    } else {
        "## "@ + titles[0] + "\n"@ + texts[0] + "\n"@ + document(
            titles.drop_first(),
            texts.drop_first(),
        )
    }
}

/// A title that a heading line can carry: one line, not empty, without whitespace at its ends.
pub open spec fn plain_title(t: Seq<char>) -> bool {
    &&& t.len() > 0
    &&& !white_space(t[0])
    &&& !white_space(t.last())
    &&& !t.contains('\n')
}

/// A body that stays one: none of its lines reads as a heading, and its lines end in line feeds
/// alone.
pub open spec fn plain_body(b: Seq<char>) -> bool {
    &&& !b.contains('\r')
    &&& forall|k: int|
        0 <= k < lines(b.push('\n')).len() ==> !is_heading(#[trigger] lines(b.push('\n'))[k])
}

/// A line feed ends the first line.
pub(crate) proof fn lemma_first_line(a: Seq<char>, rest: Seq<char>)
    requires
        !a.contains('\n'),
    ensures
        lines(a.push('\n') + rest) == seq![strip_return(a)] + lines(rest),
{
    let s = a.push('\n') + rest;
    lemma_before_first(a, rest);
    assert(s.take(a.len() as int) =~= a);
    assert(s.skip(a.len() as int + 1) =~= rest);
}

pub(crate) proof fn lemma_before_first(a: Seq<char>, rest: Seq<char>)
    requires
        !a.contains('\n'),
    ensures
        before(a.push('\n') + rest, '\n') == a.len(),
    decreases a.len(),
{
    let s = a.push('\n') + rest;
    if a.len() > 0 {
        assert(a.contains(a[0]));
        let t = a.drop_first();
        assert(!t.contains('\n')) by {
            if t.contains('\n') {
                assert(a[t.index_of('\n') + 1] == '\n');
            }
        }
        lemma_before_first(t, rest);
        assert(s.drop_first() =~= t.push('\n') + rest);
        assert(s[0] == a[0]);
    } else {
        assert(s[0] == '\n');
    }
}

/// The lines of a text that ends with a line feed come first, and they hold the whole of it.
pub(crate) proof fn lemma_leading_lines(b: Seq<char>, rest: Seq<char>)
    requires
        b.len() > 0,
        b.last() == '\n',
        !b.contains('\r'),
    ensures
        lines(b + rest) == lines(b) + lines(rest),
        body_text(lines(b)) == b,
    decreases b.len(),
{
    let n = before(b, '\n');
    lemma_before_bounds(b, '\n');
    lemma_before_at(b, '\n');
    let a = b.take(n);
    let t = b.skip(n + 1);
    assert(b =~= a.push('\n') + t);
    assert(b + rest =~= a.push('\n') + (t + rest));
    lemma_first_line(a, t);
    lemma_first_line(a, t + rest);
    assert(strip_return(a) == a) by {
        if a.len() > 0 {
            assert(b[a.len() - 1] == a.last());
        }
    }
    let ls = lines(b);
    assert(ls[0] == a);
    assert(ls.drop_first() =~= lines(t));
    if t.len() > 0 {
        assert(t.last() == b.last());
        assert(!t.contains('\r')) by {
            if t.contains('\r') {
                assert(b[t.index_of('\r') + n + 1] == '\r');
            }
        }
        lemma_leading_lines(t, rest);
        assert(lines(b + rest) =~= lines(b) + lines(rest));
        assert(body_text(ls) =~= b);
    } else {
        assert(t + rest =~= rest);
        assert(lines(t) =~= seq![]);
        assert(body_text(ls.drop_first()) =~= seq![]);
        assert(lines(b + rest) =~= lines(b) + lines(rest));
        assert(body_text(ls) =~= b);
    }
}

/// Where the first `c` stands, if there is one.
proof fn lemma_before_at(s: Seq<char>, c: char)
    ensures
        !s.take(before(s, c)).contains(c),
        s.contains(c) ==> before(s, c) < s.len() && s[before(s, c)] == c,
    decreases s.len(),
{
    lemma_before_bounds(s, c);
    if s.len() > 0 && s[0] != c {
        let t = s.drop_first();
        lemma_before_at(t, c);
        lemma_before_bounds(t, c);
        let n = before(t, c);
        assert(before(s, c) == n + 1);
        if s.take(n + 1).contains(c) {
            let k = s.take(n + 1).index_of(c);
            assert(k > 0);
            assert(t.take(n)[k - 1] == c);
        }
        if s.contains(c) {
            let k = s.index_of(c);
            assert(t[k - 1] == c);
        }
    } else if s.len() > 0 {
        assert(s.take(0).len() == 0);
    }
}

/// Lines that are no headings go to the body that stands before them.
pub(crate) proof fn lemma_sections_lines(
    h: Seq<char>,
    body: Seq<char>,
    ls: Seq<Seq<char>>,
    rest: Seq<Seq<char>>,
)
    requires
        forall|k: int| 0 <= k < ls.len() ==> !is_heading(#[trigger] ls[k]),
    ensures
        sections_from(h, body, ls + rest) == sections_from(h, body + body_text(ls), rest),
    decreases ls.len(),
{
    if ls.len() == 0 {
        assert(ls + rest =~= rest);
        assert(body + body_text(ls) =~= body);
    } else {
        let t = ls.drop_first();
        assert forall|k: int| 0 <= k < t.len() implies !is_heading(#[trigger] t[k]) by {
            assert(t[k] == ls[k + 1]);
        }
        assert((ls + rest).drop_first() =~= t + rest);
        assert((ls + rest)[0] == ls[0]);
        lemma_sections_line(h, body, ls + rest);
        lemma_sections_lines(h, body + ls[0].push('\n'), t, rest);
        assert(body + ls[0].push('\n') + body_text(t) =~= body + body_text(ls));
    }
}

/// A text that a heading can say: one line without whitespace at its ends.
pub open spec fn line_text(h: Seq<char>) -> bool {
    &&& !h.contains('\n')
    &&& h.len() > 0 ==> !white_space(h[0]) && !white_space(h.last())
}

/// A heading line says what was written in it.
proof fn lemma_heading(t: Seq<char>)
    requires
        line_text(t),
    ensures
        is_heading("## "@ + t),
        heading_text("## "@ + t) == t,
        !("## "@ + t).contains('\n'),
        strip_return("## "@ + t) == "## "@ + t,
{
    reveal_strlit("## ");
    let line = "## "@ + t;
    assert(line[0] == '#' && line[1] == '#' && line[2] == ' ');
    assert(trim_start(line) == line);
    let one = line.drop_first();
    let two = one.drop_first();
    assert(one[0] == '#');
    assert(two[0] == ' ');
    assert(strip_hashes(two) == two);
    assert(strip_hashes(one) == two);
    assert(strip_hashes(line) == two);
    assert(two.drop_first() =~= t);
    assert(trim_start(t) == t);
    assert(trim_start(two) == t);
    assert(trim_end(t) == t);
    if line.contains('\n') {
        let k = line.index_of('\n');
        assert(t[k - 3] == '\n');
    }
    if t.len() > 0 {
        assert(line.last() == t.last());
    } else {
        assert(line.last() == ' ');
    }
}

/// Headings and bodies written out, each heading as a line and its body below it.
pub open spec fn render(secs: Seq<(Seq<char>, Seq<char>)>) -> Seq<char>
    decreases secs.len(),
{
    if secs.len() == 0 {
        seq![]
    } else {
        "## "@ + secs[0].0 + "\n"@ + secs[0].1 + render(secs.drop_first())
    }
}

/// A heading and a body as a document can hold them: the heading is one line, the body whole lines
/// of which none is a heading, and there is something in one of them.
pub open spec fn sound_block(x: (Seq<char>, Seq<char>)) -> bool {
    &&& line_text(x.0)
    &&& !x.1.contains('\r')
    &&& x.1.len() > 0 ==> x.1.last() == '\n'
    &&& forall|k: int| 0 <= k < lines(x.1).len() ==> !is_heading(#[trigger] lines(x.1)[k])
    &&& block(x.0, x.1).len() > 0
}

/// Headings and bodies that were written out are read back.
pub proof fn lemma_render(secs: Seq<(Seq<char>, Seq<char>)>)
    requires
        forall|i: int| 0 <= i < secs.len() ==> sound_block(#[trigger] secs[i]),
    ensures
        sections(render(secs)) == secs,
{
    lemma_render_from(seq![], seq![], secs);
    assert(block(seq![], seq![]) + secs =~= secs);
}

proof fn lemma_render_from(h: Seq<char>, body: Seq<char>, secs: Seq<(Seq<char>, Seq<char>)>)
    requires
        forall|i: int| 0 <= i < secs.len() ==> sound_block(#[trigger] secs[i]),
    ensures
        sections_from(h, body, lines(render(secs))) == block(h, body) + secs,
    decreases secs.len(),
{
    if secs.len() == 0 {
        assert(lines(render(secs)) =~= seq![]);
        assert(body + body_text(seq![]) =~= body);
        assert(block(h, body) + secs =~= block(h, body));
    } else {
        let more = secs.drop_first();
        let t = secs[0].0;
        let b = secs[0].1;
        let line = "## "@ + t;
        let rest = render(more);
        reveal_strlit("\n");
        assert(sound_block(secs[0]));
        lemma_heading(t);
        assert(render(secs) =~= line.push('\n') + (b + rest));
        lemma_first_line(line, b + rest);
        if b.len() > 0 {
            lemma_leading_lines(b, rest);
        } else {
            assert(b + rest =~= rest);
            assert(lines(b) =~= seq![]);
            assert(lines(b) + lines(rest) =~= lines(rest));
            assert(body_text(lines(b)) =~= b);
        }
        let ls = seq![line] + (lines(b) + lines(rest));
        assert(lines(render(secs)) =~= ls);
        assert(ls.drop_first() =~= lines(b) + lines(rest));
        lemma_sections_heading(h, body, ls);
        lemma_sections_lines(t, seq![], lines(b), lines(rest));
        assert(Seq::<char>::empty() + b =~= b);
        assert forall|i: int| 0 <= i < more.len() implies sound_block(#[trigger] more[i]) by {
            assert(more[i] == secs[i + 1]);
        }
        lemma_render_from(t, b, more);
        assert(block(t, b) =~= seq![secs[0]]);
        assert(secs =~= seq![secs[0]] + more);
        assert(block(h, body) + secs =~= block(h, body) + (block(t, b) + more));
    }
}

/// Lines without line feeds and carriage returns.
spec fn clean_lines(ls: Seq<Seq<char>>) -> bool {
    forall|i: int|
        0 <= i < ls.len() ==> !(#[trigger] ls[i]).contains('\n') && !ls[i].contains('\r')
}

proof fn lemma_lines_clean(s: Seq<char>)
    requires
        !s.contains('\r'),
    ensures
        clean_lines(lines(s)),
    decreases s.len(),
{
    if s.len() > 0 {
        let n = before(s, '\n');
        lemma_before_bounds(s, '\n');
        lemma_before_at(s, '\n');
        let a = s.take(n);
        assert(!a.contains('\r')) by {
            if a.contains('\r') {
                assert(s[a.index_of('\r')] == '\r');
            }
        }
        assert(strip_return(a) == a) by {
            if a.len() > 0 {
                assert(a.contains(a.last()));
            }
        }
        if n < s.len() {
            let rest = s.skip(n + 1);
            assert(!rest.contains('\r')) by {
                if rest.contains('\r') {
                    assert(s[rest.index_of('\r') + n + 1] == '\r');
                }
            }
            lemma_lines_clean(rest);
            assert forall|i: int| 0 <= i < lines(s).len() implies !(
            #[trigger] lines(s)[i]).contains('\n') && !lines(s)[i].contains('\r') by {
                if i == 0 {
                    assert(lines(s)[0] == a);
                } else {
                    assert(lines(s)[i] == lines(rest)[i - 1]);
                }
            }
        } else {
            assert(a =~= s);
            assert(lines(s) =~= seq![s]);
        }
    }
}

/// Whole lines are the lines of the text that they make.
proof fn lemma_lines_body_text(ls: Seq<Seq<char>>)
    requires
        clean_lines(ls),
    ensures
        lines(body_text(ls)) == ls,
        !body_text(ls).contains('\r'),
    decreases ls.len(),
{
    if ls.len() == 0 {
        assert(lines(body_text(ls)) =~= ls);
    } else {
        let t = ls.drop_first();
        let rest = body_text(t);
        assert forall|i: int| 0 <= i < t.len() implies !(#[trigger] t[i]).contains('\n')
            && !t[i].contains('\r') by {
            assert(t[i] == ls[i + 1]);
        }
        lemma_lines_body_text(t);
        assert(!ls[0].contains('\n') && !ls[0].contains('\r'));
        lemma_first_line(ls[0], rest);
        assert(strip_return(ls[0]) == ls[0]) by {
            if ls[0].len() > 0 {
                assert(ls[0].contains(ls[0].last()));
            }
        }
        assert(lines(body_text(ls)) =~= ls);
        assert(!body_text(ls).contains('\r')) by {
            if body_text(ls).contains('\r') {
                let k = body_text(ls).index_of('\r');
                if k < ls[0].len() {
                    assert(ls[0][k] == '\r');
                } else if k > ls[0].len() {
                    assert(rest[k - ls[0].len() - 1] == '\r');
                }
            }
        }
    }
}

proof fn lemma_no_heading_before(ls: Seq<Seq<char>>)
    ensures
        forall|k: int| 0 <= k < lines_before_heading(ls) ==> !is_heading(#[trigger] ls[k]),
    decreases ls.len(),
{
    if ls.len() > 0 && !is_heading(ls[0]) {
        let t = ls.drop_first();
        lemma_no_heading_before(t);
        lemma_lines_before_heading(t);
        assert forall|k: int| 0 <= k < lines_before_heading(ls) implies !is_heading(
            #[trigger] ls[k],
        ) by {
            if k > 0 {
                assert(ls[k] == t[k - 1]);
            }
        }
    }
}

proof fn lemma_strip_hashes_occurs(s: Seq<char>)
    ensures
        occurs(strip_hashes(s), s),
    decreases s.len(),
{
    if s.len() > 0 && s[0] == '#' {
        let t = s.drop_first();
        lemma_strip_hashes_occurs(t);
        assert(stands_at(t, s, 1)) by {
            assert(s.subrange(1, s.len() as int) =~= t);
        }
        lemma_occurs_within(strip_hashes(t), t, s);
    } else {
        assert(stands_at(s, s, 0)) by {
            assert(s.subrange(0, s.len() as int) =~= s);
        }
    }
}

proof fn lemma_heading_says_line(line: Seq<char>)
    requires
        !line.contains('\n'),
    ensures
        line_text(heading_text(line)),
{
    let a = trim_start(line);
    let b = strip_hashes(a);
    let h = heading_text(line);
    lemma_trim_start_occurs(line);
    lemma_strip_hashes_occurs(a);
    lemma_trim_occurs(b);
    lemma_occurs_within(b, a, line);
    lemma_occurs_within(h, b, line);
    lemma_trim_ends(b);
    if h.contains('\n') {
        let i = choose|i: int| stands_at(h, line, i);
        let k = h.index_of('\n');
        assert(line.subrange(i, i + h.len())[k] == line[i + k]);
        assert(line.contains('\n'));
    }
}

proof fn lemma_sections_sound(h: Seq<char>, ls: Seq<Seq<char>>)
    requires
        line_text(h),
        clean_lines(ls),
    ensures
        forall|i: int|
            0 <= i < sections_from(h, seq![], ls).len() ==> sound_block(
                #[trigger] sections_from(h, seq![], ls)[i],
            ),
    decreases ls.len(),
{
    let n = lines_before_heading(ls);
    lemma_lines_before_heading(ls);
    lemma_no_heading_before(ls);
    let own = ls.take(n);
    let body = body_text(own);
    assert forall|i: int| 0 <= i < own.len() implies !(#[trigger] own[i]).contains('\n')
        && !own[i].contains('\r') by {
        assert(own[i] == ls[i]);
    }
    lemma_lines_body_text(own);
    lemma_body_text_ends(own);
    assert forall|k: int| 0 <= k < lines(body).len() implies !is_heading(#[trigger] lines(body)[k]) by {
        assert(own[k] == ls[k]);
    }
    assert(Seq::<char>::empty() + body =~= body);
    let b = block(h, body);
    let rest = if n < ls.len() {
        sections_from(heading_text(ls[n]), seq![], ls.skip(n + 1))
    } else {
        seq![]
    };
    let all = sections_from(h, seq![], ls);
    if n < ls.len() {
        let more = ls.skip(n + 1);
        assert(!ls[n].contains('\n'));
        lemma_heading_says_line(ls[n]);
        assert forall|i: int| 0 <= i < more.len() implies !(#[trigger] more[i]).contains('\n')
            && !more[i].contains('\r') by {
            assert(more[i] == ls[i + n + 1]);
        }
        lemma_sections_sound(heading_text(ls[n]), more);
    } else {
        assert(own =~= ls);
    }
    assert(all =~= b + rest);
    assert forall|i: int| 0 <= i < all.len() implies sound_block(#[trigger] all[i]) by {
        if i < b.len() {
            assert(all[i] == (h, body));
        } else {
            assert(all[i] == rest[i - b.len()]);
        }
    }
}

/// A document without carriage returns can be written out from what was read of it: read again, it
/// gives the same headings and bodies.
pub proof fn lemma_sections_again(doc: Seq<char>)
    requires
        !doc.contains('\r'),
    ensures
        sections(render(sections(doc))) == sections(doc),
{
    lemma_lines_clean(doc);
    lemma_sections_sound(seq![], lines(doc));
    lemma_render(sections(doc));
}

/// A document in the form that writing models are asked for reads as the titles and bodies that it
/// was made of.
pub proof fn lemma_document_sections(titles: Seq<Seq<char>>, texts: Seq<Seq<char>>)
    requires
        titles.len() == texts.len(),
        forall|i: int| 0 <= i < titles.len() ==> plain_title(#[trigger] titles[i]),
        forall|i: int| 0 <= i < texts.len() ==> plain_body(#[trigger] texts[i]),
    ensures
        sections(document(titles, texts)) == Seq::new(
            titles.len(),
            |i: int| (titles[i], texts[i].push('\n')),
        ),
{
    let all = Seq::new(titles.len(), |i: int| (titles[i], texts[i].push('\n')));
    lemma_document_rendered(titles, texts);
    assert forall|i: int| 0 <= i < all.len() implies sound_block(#[trigger] all[i]) by {
        let b = texts[i].push('\n');
        assert(plain_title(titles[i]) && plain_body(texts[i]));
        assert(!b.contains('\r')) by {
            if b.contains('\r') {
                assert(texts[i][b.index_of('\r')] == '\r');
            }
        }
    }
    lemma_render(all);
}

proof fn lemma_document_rendered(titles: Seq<Seq<char>>, texts: Seq<Seq<char>>)
    requires
        titles.len() == texts.len(),
    ensures
        document(titles, texts) == render(
            Seq::new(titles.len(), |i: int| (titles[i], texts[i].push('\n'))),
        ),
    decreases titles.len(),
{
    let all = Seq::new(titles.len(), |i: int| (titles[i], texts[i].push('\n')));
    if titles.len() > 0 {
        let ts = titles.drop_first();
        let bs = texts.drop_first();
        reveal_strlit("\n");
        lemma_document_rendered(ts, bs);
        assert(all.drop_first() =~= Seq::new(ts.len(), |i: int| (ts[i], bs[i].push('\n'))));
        assert(document(titles, texts) =~= render(all));
    }
}

/// What is found under a heading of a list of blocks whose headings are all different.
proof fn lemma_under_own(secs: Seq<(Seq<char>, Seq<char>)>, i: int)
    requires
        0 <= i < secs.len(),
        secs[i].0.len() > 0,
        forall|a: int, b: int|
            0 <= a < b < secs.len() ==> head((#[trigger] secs[a]).0) != head((#[trigger] secs[b]).0),
    ensures
        body_under(secs, head(secs[i].0)) == Some(trim(secs[i].1)),
    decreases i,
{
    if i > 0 {
        let t = secs.drop_first();
        assert forall|a: int, b: int| 0 <= a < b < t.len() implies head((#[trigger] t[a]).0)
            != head((#[trigger] t[b]).0) by {
            assert(t[a] == secs[a + 1] && t[b] == secs[b + 1]);
        }
        assert(t[i - 1] == secs[i]);
        assert(head(secs[0].0) != head(secs[i].0));
        lemma_under_own(t, i - 1);
    }
}

proof fn lemma_trim_feed(b: Seq<char>)
    ensures
        trim(b.push('\n')) == trim(b),
    decreases b.len(),
{
    let s = b.push('\n');
    if b.len() == 0 {
        assert(s.drop_first() =~= b);
    } else if white_space(b[0]) {
        assert(s.drop_first() =~= b.drop_first().push('\n'));
        lemma_trim_feed(b.drop_first());
    } else {
        assert(trim_start(s) == s);
        assert(s.drop_last() =~= b);
        assert(s.last() == '\n');
    }
}

/// What was written for a field is what is read of it, without whitespace at its ends, where no
/// two fields share an id or a heading, titles can stand in heading lines, and no line of a body
/// reads as a heading.
pub proof fn lemma_read_back(spec: Spec, texts: Seq<Seq<char>>, i: int)
    requires
        section_ids(spec.sections@).no_duplicates(),
        heads(section_titles(spec.sections@)).no_duplicates(),
        texts.len() == spec.sections@.len(),
        forall|k: int|
            0 <= k < spec.sections@.len() ==> plain_title((#[trigger] spec.sections@[k]).title@),
        forall|k: int| 0 <= k < texts.len() ==> plain_body(#[trigger] texts[k]),
        0 <= i < texts.len(),
    ensures
        body_of(
            doc_bodies(spec, document(section_titles(spec.sections@), texts)),
            spec.sections@[i].id@,
        ) == trim(texts[i]),
{
    let titles = section_titles(spec.sections@);
    let hs = heads(titles);
    let secs = sections(document(titles, texts));
    assert forall|k: int| 0 <= k < titles.len() implies plain_title(#[trigger] titles[k]) by {
        assert(plain_title(spec.sections@[k].title@));
    }
    lemma_document_sections(titles, texts);
    assert forall|a: int, b: int| 0 <= a < b < secs.len() implies head((#[trigger] secs[a]).0)
        != head((#[trigger] secs[b]).0) by {
        assert(hs[a] != hs[b]);
    }
    assert(plain_title(titles[i]));
    assert(secs[i].0 == titles[i]);
    lemma_under_own(secs, i);
    lemma_own_body(spec.sections@, secs, i);
    lemma_trim_feed(texts[i]);
}

} // verus!
