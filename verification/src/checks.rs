//! Deterministic checks of a listing document: no model is asked.
use crate::overlap::{
    find_shared, lemma_shared_listed, lists_shared, shared, shared_words, word_lists,
};
pub use crate::phrases::factual_claim_issues;
use crate::phrases::{banned, banned_hits, claim_issues, quotes, text_of};
use crate::sorted::{ascending, lookup, put, values, SortedMap};
use crate::store_spec::{section_titles, Section, Spec, Store};
use crate::text::{
    all_ascii, alphanumeric, ascii, ascii_alphanumeric, ascii_lower, ascii_upper, blank, char_seqs,
    chars_of, contains_text, copied, decimal, firsts, firsts_of, holds, is_blank, join, joined,
    lemma_filter_twice, lemma_firsts, lemma_firsts_all, lemma_join_chars, lemma_lower_ascii,
    lemma_same_filter, lemma_trim_again, lemma_trim_lower_again, lemma_trim_occurs,
    lemma_trim_upper, lemma_words_blank, lemma_words_chars, lemma_words_filled, lemma_words_join,
    lettered, lines, lines_of, lower_ascii, lowercase, made_of, occurs, part_of, push_decimal, same,
    same_text, stands_at, string_of, strings_of, texts, trim, trim_start, trimmed, trimmed_start,
    upper_ascii, white_space, words, words_of,
};
use vstd::prelude::*;

verus! {

/// A heading as it is compared: its letters and digits only, in lower case.
pub open spec fn head(s: Seq<char>) -> Seq<char> {
    lowercase(s.filter(|c: char| alphanumeric(c)))
}

/// Headings as they are compared.
pub open spec fn heads(s: Seq<Seq<char>>) -> Seq<Seq<char>> {
    s.map_values(|x: Seq<char>| head(x))
}

/// A heading of ASCII characters as it is compared.
pub open spec fn ascii_head(s: Seq<char>) -> Seq<char> {
    lower_ascii(s.filter(|c: char| ascii_alphanumeric(c)))
}

/// The letters and digits of `v`.
fn letters_and_digits(v: &Vec<char>) -> (r: Vec<char>)
    ensures
        r@ == v@.filter(|c: char| alphanumeric(c)),
        upper_ascii(r@) == upper_ascii(v@).filter(|c: char| alphanumeric(c)),
        all_ascii(v@) ==> r@ == v@.filter(|c: char| ascii_alphanumeric(c)) && all_ascii(r@),
{
    let ghost keep = |c: char| alphanumeric(c);
    let ghost plain = |c: char| ascii_alphanumeric(c);
    let mut out: Vec<char> = Vec::new();
    assert(out@ =~= v@.take(0).filter(keep)) by {
        reveal(Seq::filter);
    }
    for i in 0..v.len()
        invariant
            keep == (|c: char| alphanumeric(c)),
            out@ == v@.take(i as int).filter(keep),
            forall|k: int|
                0 <= k < i && ascii(v@[k]) ==> alphanumeric(#[trigger] v@[k])
                    == ascii_alphanumeric(v@[k]),
            forall|k: int|
                0 <= k < i ==> alphanumeric(ascii_upper(#[trigger] v@[k])) == alphanumeric(v@[k]),
    {
        assert(v@.take(i + 1) =~= v@.take(i as int).push(v@[i as int]));
        proof {
            v@.take(i as int).lemma_filter_push(v@[i as int], keep);
        }
        if v[i].is_alphanumeric() {
            out.push(v[i]);
        }
    }
    assert(v@.take(v@.len() as int) =~= v@);
    proof {
        assert forall|k: int| 0 <= k < v@.len() implies keep(ascii_upper(#[trigger] v@[k])) == keep(
            v@[k],
        ) by {}
        lemma_filter_upper(v@, keep);
        if all_ascii(v@) {
            assert forall|k: int| 0 <= k < v@.len() implies keep(#[trigger] v@[k]) == plain(v@[k]) by {
                assert(ascii(v@[k]));
            }
            lemma_same_filter(v@, keep, plain);
            assert forall|k: int| 0 <= k < out@.len() implies ascii(#[trigger] out@[k]) by {
                v@.lemma_filter_pred(plain, k);
            }
        }
    }
    out
}

/// A heading as it is compared: its letters and digits only, in lower case. Models write headings
/// in one case or another, and with or without punctuation: in upper case it compares the same.
pub fn norm_head(s: &str) -> (r: String)
    ensures
        r@ == head(s@),
        r@ == head(upper_ascii(s@)),
        all_ascii(s@) ==> r@ == ascii_head(s@),
{
    string_of(&letters_and_digits(&chars_of(s))).as_str().to_lowercase()
}

/// The texts of pairs of strings.
pub open spec fn pairs(v: Seq<(String, String)>) -> Seq<(Seq<char>, Seq<char>)> {
    v.map_values(|x: (String, String)| (x.0@, x.1@))
}

/// A line that starts, after whitespace, with `#`.
pub open spec fn is_heading(line: Seq<char>) -> bool {
    trim_start(line).len() > 0 && trim_start(line)[0] == '#'
}

/// `s` without the `#` it starts with.
pub open spec fn strip_hashes(s: Seq<char>) -> Seq<char>
    decreases s.len(),
{
    if s.len() > 0 && s[0] == '#' {
        strip_hashes(s.drop_first())
    } else {
        s
    }
}

/// What a heading line says.
pub open spec fn heading_text(line: Seq<char>) -> Seq<char> {
    trim(strip_hashes(trim_start(line)))
}

/// How many lines stand before the first heading.
pub open spec fn lines_before_heading(ls: Seq<Seq<char>>) -> int
    decreases ls.len(),
{
    if ls.len() == 0 || is_heading(ls[0]) {
        0
    } else {
        1 + lines_before_heading(ls.drop_first())
    }
}

/// Lines, each with its line feed.
pub open spec fn body_text(ls: Seq<Seq<char>>) -> Seq<char>
    decreases ls.len(),
{
    if ls.len() == 0 {
        seq![]
    } else {
        ls[0].push('\n') + body_text(ls.drop_first())
    }
}

/// A heading and its body, unless there is nothing in either.
pub open spec fn block(h: Seq<char>, body: Seq<char>) -> Seq<(Seq<char>, Seq<char>)> {
    if h.len() > 0 || !blank(body) {
        seq![(h, body)]
    } else {
        seq![]
    }
}

/// The headings and bodies of `ls`, where `h` is the heading that `ls` stands under and `body`
/// what stands under it already.
pub open spec fn sections_from(h: Seq<char>, body: Seq<char>, ls: Seq<Seq<char>>) -> Seq<
    (Seq<char>, Seq<char>),
>
    decreases ls.len(),
{
    let n = lines_before_heading(ls);
    if 0 <= n < ls.len() {
        block(h, body + body_text(ls.take(n))) + sections_from(
            heading_text(ls[n]),
            seq![],
            ls.skip(n + 1),
        )
    } else {
        block(h, body + body_text(ls))
    }
}

/// The headings of a document, each with the text under it. What stands before the first heading
/// has an empty heading.
pub open spec fn sections(doc: Seq<char>) -> Seq<(Seq<char>, Seq<char>)> {
    sections_from(seq![], seq![], lines(doc))
}

pub(crate) proof fn lemma_lines_before_heading(ls: Seq<Seq<char>>)
    ensures
        0 <= lines_before_heading(ls) <= ls.len(),
    decreases ls.len(),
{
    if ls.len() > 0 && !is_heading(ls[0]) {
        lemma_lines_before_heading(ls.drop_first());
    }
}

/// A line that is no heading goes to the body.
pub(crate) proof fn lemma_sections_line(h: Seq<char>, body: Seq<char>, ls: Seq<Seq<char>>)
    requires
        ls.len() > 0,
        !is_heading(ls[0]),
    ensures
        sections_from(h, body, ls) == sections_from(h, body + ls[0].push('\n'), ls.drop_first()),
{
    let t = ls.drop_first();
    let n = lines_before_heading(t);
    lemma_lines_before_heading(t);
    if n < t.len() {
        assert(ls.take(n + 1).drop_first() =~= t.take(n));
        assert(body + body_text(ls.take(n + 1)) =~= body + ls[0].push('\n') + body_text(t.take(n)));
        assert(ls.skip(n + 2) =~= t.skip(n + 1));
    } else {
        assert(body + body_text(ls) =~= body + ls[0].push('\n') + body_text(t));
    }
}

/// A heading ends what stands before it.
pub(crate) proof fn lemma_sections_heading(h: Seq<char>, body: Seq<char>, ls: Seq<Seq<char>>)
    requires
        ls.len() > 0,
        is_heading(ls[0]),
    ensures
        sections_from(h, body, ls) == block(h, body) + sections_from(
            heading_text(ls[0]),
            seq![],
            ls.drop_first(),
        ),
{
    assert(body + body_text(ls.take(0)) =~= body);
    assert(ls.skip(1) =~= ls.drop_first());
}

/// Adds a heading and its body, unless there is nothing in either.
fn push_block(out: &mut Vec<(String, String)>, h: &Vec<char>, body: &Vec<char>)
    ensures
        pairs(final(out)@) == pairs(old(out)@) + block(h@, body@),
{
    let ghost prev = pairs(out@);
    if h.len() > 0 || !is_blank(body) {
        out.push((string_of(h), string_of(body)));
        assert(pairs(out@) =~= prev + seq![(h@, body@)]);
    } else {
        assert(prev + seq![] =~= prev);
    }
}

/// What a heading line says, where `t` is the line without the whitespace it starts with.
fn heading_of(t: &Vec<char>) -> (r: Vec<char>)
    ensures
        r@ == trim(strip_hashes(t@)),
{
    let mut n: usize = 0;
    assert(t@.skip(0) =~= t@);
    while n < t.len() && t[n] == '#'
        invariant
            n <= t@.len(),
            strip_hashes(t@) == strip_hashes(t@.skip(n as int)),
        decreases t@.len() - n,
    {
        assert(t@.skip(n as int).drop_first() =~= t@.skip(n + 1));
        n += 1;
    }
    assert(t@.subrange(n as int, t@.len() as int) =~= t@.skip(n as int));
    trimmed(&part_of(t, n, t.len()))
}

/// Splits a document into (heading, body) pairs at the headings, the lines that start with `#`.
pub fn split_sections(doc: &str) -> (r: Vec<(String, String)>)
    ensures
        pairs(r@) == sections(doc@),
{
    let ls = lines_of(&chars_of(doc));
    let ghost all = lines(doc@);
    let mut out: Vec<(String, String)> = Vec::new();
    let mut cur_head: Vec<char> = Vec::new();
    let mut cur_body: Vec<char> = Vec::new();
    assert(all.skip(0) =~= all);
    assert(cur_head@ =~= seq![]);
    assert(pairs(out@) + sections(doc@) =~= sections(doc@));
    for i in 0..ls.len()
        invariant
            char_seqs(ls@) == all,
            all == lines(doc@),
            pairs(out@) + sections_from(cur_head@, cur_body@, all.skip(i as int)) == sections(doc@),
    {
        let ghost rest = all.skip(i as int);
        let ghost done = pairs(out@);
        assert(rest[0] == ls@[i as int]@);
        assert(rest.drop_first() =~= all.skip(i + 1));
        let t = trimmed_start(&ls[i]);
        if t.len() > 0 && t[0] == '#' {
            proof {
                lemma_sections_heading(cur_head@, cur_body@, rest);
            }
            push_block(&mut out, &cur_head, &cur_body);
            let ghost b = block(cur_head@, cur_body@);
            cur_head = heading_of(&t);
            cur_body = Vec::new();
            let ghost s = sections_from(cur_head@, cur_body@, all.skip(i + 1));
            assert(done + (b + s) =~= done + b + s);
        } else {
            proof {
                lemma_sections_line(cur_head@, cur_body@, rest);
            }
            let mut line = part_of(&ls[i], 0, ls[i].len());
            assert(line@ =~= rest[0]);
            line.push('\n');
            let ghost b = cur_body@;
            cur_body.append(&mut line);
            assert(cur_body@ =~= b + rest[0].push('\n'));
        }
    }
    assert(all.skip(all.len() as int) =~= seq![]);
    assert(cur_body@ + body_text(seq![]) =~= cur_body@);
    push_block(&mut out, &cur_head, &cur_body);
    out
}

/// What stands, without whitespace at its ends, under the first heading that compares as `want`.
pub open spec fn body_under(secs: Seq<(Seq<char>, Seq<char>)>, want: Seq<char>) -> Option<Seq<char>>
    decreases secs.len(),
{
    if secs.len() == 0 {
        None
    } else if secs[0].0.len() > 0 && head(secs[0].0) == want {
        Some(trim(secs[0].1))
    } else {
        body_under(secs.drop_first(), want)
    }
}

/// The bodies of the fields, by field id. A field whose title is no heading of `secs` has none.
pub open spec fn bodies(fields: Seq<Section>, secs: Seq<(Seq<char>, Seq<char>)>) -> Seq<
    (Seq<char>, Seq<char>),
>
    decreases fields.len(),
{
    if fields.len() == 0 {
        seq![]
    } else {
        let earlier = bodies(fields.drop_last(), secs);
        match body_under(secs, head(fields.last().title@)) {
            Some(body) => put(earlier, fields.last().id@, body),
            None => earlier,
        }
    }
}

/// The bodies of the fields in a document, by field id.
pub open spec fn doc_bodies(spec: Spec, doc: Seq<char>) -> Seq<(Seq<char>, Seq<char>)> {
    bodies(spec.sections@, sections(doc))
}

/// The headings of a document as they are compared.
pub open spec fn section_heads(secs: Seq<(Seq<char>, Seq<char>)>) -> Seq<Seq<char>> {
    secs.map_values(|x: (Seq<char>, Seq<char>)| head(x.0))
}

/// What stands, without whitespace at its ends, under the first heading whose key is `want`.
pub open spec fn body_with_key(
    secs: Seq<(Seq<char>, Seq<char>)>,
    keys: Seq<Seq<char>>,
    want: Seq<char>,
) -> Option<Seq<char>>
    decreases secs.len(),
{
    if secs.len() == 0 {
        None
    } else if secs[0].0.len() > 0 && keys[0] == want {
        Some(trim(secs[0].1))
    } else {
        body_with_key(secs.drop_first(), keys.drop_first(), want)
    }
}

/// The bodies of the fields, by field id, where each field wants the heading with its key.
pub open spec fn bodies_with_keys(
    fields: Seq<Section>,
    wants: Seq<Seq<char>>,
    secs: Seq<(Seq<char>, Seq<char>)>,
    keys: Seq<Seq<char>>,
) -> Seq<(Seq<char>, Seq<char>)>
    decreases fields.len(),
{
    if fields.len() == 0 {
        seq![]
    } else {
        let earlier = bodies_with_keys(fields.drop_last(), wants, secs, keys);
        match body_with_key(secs, keys, wants[fields.len() - 1]) {
            Some(body) => put(earlier, fields.last().id@, body),
            None => earlier,
        }
    }
}

proof fn lemma_body_with_key(secs: Seq<(Seq<char>, Seq<char>)>, want: Seq<char>)
    ensures
        body_with_key(secs, section_heads(secs), want) == body_under(secs, want),
    decreases secs.len(),
{
    if secs.len() > 0 {
        lemma_body_with_key(secs.drop_first(), want);
        assert(section_heads(secs).drop_first() =~= section_heads(secs.drop_first()));
    }
}

proof fn lemma_bodies_with_keys(
    fields: Seq<Section>,
    all: Seq<Section>,
    secs: Seq<(Seq<char>, Seq<char>)>,
)
    requires
        fields.is_prefix_of(all),
    ensures
        bodies_with_keys(fields, heads(section_titles(all)), secs, section_heads(secs)) == bodies(
            fields,
            secs,
        ),
    decreases fields.len(),
{
    if fields.len() > 0 {
        lemma_bodies_with_keys(fields.drop_last(), all, secs);
        lemma_body_with_key(secs, head(fields.last().title@));
        assert(heads(section_titles(all))[fields.len() - 1] == head(fields.last().title@));
    }
}

/// What stands under the first heading whose key is `want`.
fn find_body(secs: &Vec<(String, String)>, keys: &Vec<String>, want: &str) -> (r: Option<String>)
    requires
        keys@.len() == secs@.len(),
    ensures
        match r {
            Some(b) => body_with_key(pairs(secs@), texts(keys@), want@) == Some(b@),
            None => body_with_key(pairs(secs@), texts(keys@), want@) is None,
        },
{
    let ghost all = pairs(secs@);
    let ghost ks = texts(keys@);
    assert(all.skip(0) =~= all);
    assert(ks.skip(0) =~= ks);
    for i in 0..secs.len()
        invariant
            keys@.len() == secs@.len(),
            all == pairs(secs@),
            ks == texts(keys@),
            body_with_key(all, ks, want@) == body_with_key(
                all.skip(i as int),
                ks.skip(i as int),
                want@,
            ),
    {
        assert(all.skip(i as int)[0] == all[i as int]);
        assert(all.skip(i as int).drop_first() =~= all.skip(i + 1));
        assert(ks.skip(i as int)[0] == ks[i as int]);
        assert(ks.skip(i as int).drop_first() =~= ks.skip(i + 1));
        if chars_of(secs[i].0.as_str()).len() > 0 && same_text(keys[i].as_str(), want) {
            return Some(string_of(&trimmed(&chars_of(secs[i].1.as_str()))));
        }
    }
    None
}

/// Maps field id to body text (without whitespace at its ends). `wants` gives the key of each
/// field, `keys` that of each heading.
pub fn assign_bodies(
    fields: &Vec<Section>,
    wants: &Vec<String>,
    secs: &Vec<(String, String)>,
    keys: &Vec<String>,
) -> (r: SortedMap<String>)
    requires
        wants@.len() == fields@.len(),
        keys@.len() == secs@.len(),
    ensures
        r@ == bodies_with_keys(fields@, texts(wants@), pairs(secs@), texts(keys@)),
        ascending(r@),
{
    let mut map: SortedMap<String> = SortedMap::new();
    for i in 0..fields.len()
        invariant
            wants@.len() == fields@.len(),
            keys@.len() == secs@.len(),
            map@ == bodies_with_keys(
                fields@.take(i as int),
                texts(wants@),
                pairs(secs@),
                texts(keys@),
            ),
            ascending(map@),
    {
        let ghost upto = fields@.take(i + 1);
        assert(upto.drop_last() =~= fields@.take(i as int));
        assert(upto.last() == fields@[i as int]);
        assert(texts(wants@)[i as int] == wants@[i as int]@);
        if let Some(body) = find_body(secs, keys, wants[i].as_str()) {
            map.insert(fields[i].id.clone(), body);
        }
    }
    assert(fields@.take(fields@.len() as int) =~= fields@);
    map
}

/// Maps field id to body text (without whitespace at its ends). A field matches a heading only
/// where both compare as the same text.
pub fn field_bodies(spec: &Spec, doc: &str) -> (r: SortedMap<String>)
    ensures
        r@ == doc_bodies(*spec, doc@),
        ascending(r@),
{
    let secs = split_sections(doc);
    let mut wants: Vec<String> = Vec::new();
    for i in 0..spec.sections.len()
        invariant
            texts(wants@) == heads(section_titles(spec.sections@)).take(i as int),
    {
        let ghost prev = texts(wants@);
        wants.push(norm_head(spec.sections[i].title.as_str()));
        assert(texts(wants@) =~= prev.push(heads(section_titles(spec.sections@))[i as int]));
    }
    assert(texts(wants@) =~= heads(section_titles(spec.sections@)));
    let mut keys: Vec<String> = Vec::new();
    for i in 0..secs.len()
        invariant
            texts(keys@) == section_heads(pairs(secs@)).take(i as int),
    {
        let ghost prev = texts(keys@);
        keys.push(norm_head(secs[i].0.as_str()));
        assert(texts(keys@) =~= prev.push(section_heads(pairs(secs@))[i as int]));
    }
    assert(texts(keys@) =~= section_heads(pairs(secs@)));
    assert(texts(wants@).len() == wants@.len());
    assert(texts(keys@).len() == keys@.len());
    proof {
        lemma_bodies_with_keys(spec.sections@, spec.sections@, sections(doc@));
    }
    assign_bodies(&spec.sections, &wants, &secs, &keys)
}

/// A keyword as it is compared: without whitespace at its ends, in lower case.
pub open spec fn keyword(k: Seq<char>) -> Seq<char> {
    lowercase(trim(k))
}

/// A keyword of ASCII characters as it is compared.
pub open spec fn ascii_keyword(k: Seq<char>) -> Seq<char> {
    lower_ascii(trim(k))
}

/// A keyword as it is compared: without whitespace at its ends, in lower case. The case of its
/// ASCII letters does not matter, and what it compares as compares as itself.
pub fn normalize_keyword(k: &str) -> (r: String)
    ensures
        r@ == keyword(k@),
        r@ == keyword(upper_ascii(k@)),
        keyword(r@) == r@,
        trim(r@) == r@,
        all_ascii(k@) ==> r@ == ascii_keyword(k@),
{
    proof {
        lemma_trim_ascii(k@);
        lemma_trim_upper(k@);
        lemma_trim_again(k@);
    }
    string_of(&trimmed(&chars_of(k))).as_str().to_lowercase()
}

/// Keywords as they are compared.
pub open spec fn keywords(s: Seq<Seq<char>>) -> Seq<Seq<char>> {
    s.map_values(|k: Seq<char>| keyword(k))
}

/// Keywords of ASCII characters as they are compared.
pub open spec fn ascii_keywords(s: Seq<Seq<char>>) -> Seq<Seq<char>> {
    s.map_values(|k: Seq<char>| ascii_keyword(k))
}

/// Texts of ASCII characters.
pub open spec fn each_ascii(s: Seq<Seq<char>>) -> bool {
    forall|i: int| 0 <= i < s.len() ==> all_ascii(#[trigger] s[i])
}

/// The keywords as they are compared, each once, in the order in which they are first given. An
/// empty one is left out. A second pass changes nothing.
pub fn sanitize_keywords(input: &[String]) -> (r: Vec<String>)
    ensures
        texts(r@) == firsts(keywords(texts(input@))),
        firsts(keywords(texts(r@))) == texts(r@),
        each_ascii(texts(input@)) ==> texts(r@) == firsts(ascii_keywords(texts(input@))),
{
    let ghost wanted = keywords(texts(input@));
    let mut all: Vec<Vec<char>> = Vec::new();
    for i in 0..input.len()
        invariant
            wanted == keywords(texts(input@)),
            char_seqs(all@) == wanted.take(i as int),
            forall|j: int| 0 <= j < i ==> keyword(#[trigger] wanted[j]) == wanted[j],
            forall|j: int|
                0 <= j < i && all_ascii(texts(input@)[j]) ==> #[trigger] keywords(texts(input@))[j]
                    == ascii_keyword(texts(input@)[j]),
    {
        let ghost prev = char_seqs(all@);
        let k = normalize_keyword(input[i].as_str());
        all.push(chars_of(k.as_str()));
        assert(char_seqs(all@) =~= prev.push(wanted[i as int]));
    }
    assert(wanted.take(input@.len() as int) =~= wanted);
    proof {
        let once = firsts(wanted);
        lemma_firsts(wanted);
        assert forall|j: int| 0 <= j < once.len() implies (#[trigger] once[j]).len() > 0 && keyword(
            once[j],
        ) == once[j] by {
            assert(once.contains(once[j]));
            let k = wanted.index_of(once[j]);
            assert(wanted[k] == once[j]);
        }
        lemma_sanitized_again(once);
        if each_ascii(texts(input@)) {
            assert forall|j: int| 0 <= j < input@.len() implies wanted[j] == ascii_keywords(
                texts(input@),
            )[j] by {
                assert(all_ascii(texts(input@)[j]));
                assert(keywords(texts(input@))[j] == ascii_keyword(texts(input@)[j]));
            }
            assert(wanted =~= ascii_keywords(texts(input@)));
        }
    }
    strings_of(&firsts_of(&all))
}

/// A character that a keyword search keeps; any other is as good as a space.
pub open spec fn searchable(c: char) -> char {
    if alphanumeric(c) || white_space(c) {
        c
    } else {
        ' '
    }
}

/// The words of a text as keywords are searched among them.
pub open spec fn match_words(s: Seq<char>) -> Seq<Seq<char>> {
    words(lowercase(s.map_values(|c: char| searchable(c))))
}

/// A text as keywords are searched in it: its words, one space between two of them.
pub open spec fn match_text(s: Seq<char>) -> Seq<char> {
    join(match_words(s), " "@)
}

/// A character of an ASCII text that a keyword search keeps; any other is as good as a space.
pub open spec fn ascii_searchable(c: char) -> char {
    if ascii_alphanumeric(c) || white_space(c) {
        c
    } else {
        ' '
    }
}

/// The words of a text of ASCII characters as keywords are searched among them.
pub open spec fn ascii_match_words(s: Seq<char>) -> Seq<Seq<char>> {
    words(lower_ascii(s.map_values(|c: char| ascii_searchable(c))))
}

/// A text of ASCII characters as keywords are searched in it.
pub open spec fn ascii_match_text(s: Seq<char>) -> Seq<char> {
    join(ascii_match_words(s), " "@)
}

/// A text in lower case, anything but letters, digits and whitespace replaced by a space.
fn searchable_text(v: &Vec<char>) -> (r: String)
    ensures
        r@ == lowercase(v@.map_values(|c: char| searchable(c))),
        forall|t: Seq<char>| made_of(t, r@) ==> #[trigger] lowercase(t) == t,
        !v@.contains('\u{130}') ==> lettered(r@),
        all_ascii(v@) ==> r@ == lower_ascii(v@.map_values(|c: char| ascii_searchable(c))),
{
    let ghost wanted = v@.map_values(|c: char| searchable(c));
    let mut replaced: Vec<char> = Vec::new();
    for i in 0..v.len()
        invariant
            wanted == v@.map_values(|c: char| searchable(c)),
            replaced@ == wanted.take(i as int),
            forall|k: int|
                0 <= k < i && ascii(v@[k]) ==> searchable(#[trigger] v@[k]) == ascii_searchable(
                    v@[k],
                ),
    {
        let c = v[i];
        if c.is_alphanumeric() || c.is_whitespace() {
            replaced.push(c);
        } else {
            replaced.push(' ');
        }
        assert(replaced@ =~= wanted.take(i + 1));
    }
    assert(wanted.take(v@.len() as int) =~= wanted);
    proof {
        assert forall|k: int| 0 <= k < wanted.len() implies alphanumeric(#[trigger] wanted[k])
            || white_space(wanted[k]) by {
            assert(wanted[k] == searchable(v@[k]));
        }
        if wanted.contains('\u{130}') {
            let k = wanted.index_of('\u{130}');
            assert(wanted[k] == searchable(v@[k]));
            assert(v@[k] == '\u{130}');
        }
        if all_ascii(v@) {
            assert forall|k: int| 0 <= k < v@.len() implies #[trigger] wanted[k]
                == ascii_searchable(v@[k]) && ascii(wanted[k]) by {
                assert(ascii(v@[k]));
                assert(searchable(v@[k]) == ascii_searchable(v@[k]));
            }
            assert(wanted =~= v@.map_values(|c: char| ascii_searchable(c)));
        }
    }
    string_of(&replaced).as_str().to_lowercase()
}

/// The words of a text as keywords are searched among them.
fn match_words_of(v: &Vec<char>) -> (r: Vec<Vec<char>>)
    ensures
        char_seqs(r@) == match_words(v@),
{
    words_of(&chars_of(searchable_text(v).as_str()))
}

/// The words of a text with one space between two of them and none at the ends.
pub fn single_spaced(text: &str) -> (r: String)
    ensures
        r@ == join(words(text@), " "@),
{
    joined(&strings_of(&words_of(&chars_of(text))), " ")
}

/// A text as keywords are searched in it: in lower case, anything but letters, digits and
/// whitespace replaced by a space, one space between two words and none at the ends. A second pass
/// changes nothing, unless U+0130 stands in the text: the dot that its lower case combines with is
/// no letter.
pub fn normalize_text_for_match(text: &str) -> (r: String)
    ensures
        r@ == match_text(text@),
        lowercase(r@) == r@,
        !text@.contains('\u{130}') ==> lettered(r@) && match_text(r@) == r@,
        all_ascii(text@) ==> r@ == ascii_match_text(text@),
{
    let all = searchable_text(&chars_of(text));
    proof {
        lemma_spaced(all@);
        if lettered(all@) {
            lemma_spaced_again(all@);
        }
    }
    single_spaced(all.as_str())
}

/// A character from the blocks of emoji and of the symbols used as such.
pub open spec fn emoji(c: char) -> bool {
    let n = c as u32;
    ||| 0x1F300 <= n <= 0x1FAFF
    ||| 0x2600 <= n <= 0x27BF
    ||| 0x2190 <= n <= 0x21FF
    ||| 0x2B00 <= n <= 0x2BFF
    ||| n == 0xFE0F
    ||| 0x1F1E6 <= n <= 0x1F1FF
}

/// Whether a character is from the blocks of emoji and of the symbols used as such.
pub fn is_emoji(c: char) -> (r: bool)
    ensures
        r == emoji(c),
{
    let n: u32 = c as u32;
    (0x1F300 <= n && n <= 0x1FAFF) || (0x2600 <= n && n <= 0x27BF) || (0x2190 <= n && n <= 0x21FF)
        || (0x2B00 <= n && n <= 0x2BFF) || n == 0xFE0F || (0x1F1E6 <= n && n <= 0x1F1FF)
}

/// How many emojis a text holds.
pub open spec fn emojis(s: Seq<char>) -> nat {
    s.filter(|c: char| emoji(c)).len()
}

/// How many emojis `v` holds.
pub fn count_emojis(v: &Vec<char>) -> (r: usize)
    ensures
        r == emojis(v@),
{
    let ghost test = |c: char| emoji(c);
    let mut n: usize = 0;
    assert(v@.take(0).filter(test).len() == 0) by {
        reveal(Seq::filter);
    }
    for i in 0..v.len()
        invariant
            test == (|c: char| emoji(c)),
            n == v@.take(i as int).filter(test).len(),
            n <= i,
    {
        assert(v@.take(i + 1) =~= v@.take(i as int).push(v@[i as int]));
        proof {
            v@.take(i as int).lemma_filter_push(v@[i as int], test);
        }
        if is_emoji(v[i]) {
            n += 1;
        }
    }
    assert(v@.take(v@.len() as int) =~= v@);
    n
}

/// The body of a field, empty where there is none.
pub open spec fn body_of(e: Seq<(Seq<char>, Seq<char>)>, id: Seq<char>) -> Seq<char> {
    match lookup(e, id) {
        Some(b) => b,
        None => seq![],
    }
}

/// The body of a field, empty where there is none.
fn body_chars(map: &SortedMap<String>, id: &str) -> (r: Vec<char>)
    ensures
        r@ == body_of(map@, id@),
{
    match map.get(id) {
        Some(b) => chars_of(b.as_str()),
        None => {
            let r: Vec<char> = Vec::new();
            assert(r@ =~= seq![]);
            r
        },
    }
}

/// The words of each field among which the store removes repeated keywords.
pub open spec fn dedup_words(fields: Seq<Section>, e: Seq<(Seq<char>, Seq<char>)>) -> Seq<
    Seq<Seq<char>>,
>
    decreases fields.len(),
{
    if fields.len() == 0 {
        seq![]
    } else {
        let earlier = dedup_words(fields.drop_last(), e);
        if fields.last().keyword_dedup_target {
            earlier.push(match_words(body_of(e, fields.last().id@)))
        } else {
            earlier
        }
    }
}

/// The words of more than one character that stand in two of the fields among which the store
/// removes repeated keywords: placing a keyword in both wastes characters.
fn duplicate_keywords_across_fields(spec: &Spec, map: &SortedMap<String>) -> (r: Vec<String>)
    ensures
        texts(r@) == shared_words(dedup_words(spec.sections@, map@)),
        lists_shared(dedup_words(spec.sections@, map@), texts(r@)),
{
    let mut lists: Vec<Vec<Vec<char>>> = Vec::new();
    assert(word_lists(lists@) =~= seq![]);
    for i in 0..spec.sections.len()
        invariant
            word_lists(lists@) == dedup_words(spec.sections@.take(i as int), map@),
    {
        let ghost upto = spec.sections@.take(i + 1);
        assert(upto.drop_last() =~= spec.sections@.take(i as int));
        assert(upto.last() == spec.sections@[i as int]);
        if spec.sections[i].keyword_dedup_target {
            let ghost prev = word_lists(lists@);
            let list = match_words_of(&body_chars(map, spec.sections[i].id.as_str()));
            let ghost l = char_seqs(list@);
            lists.push(list);
            assert(word_lists(lists@) =~= prev.push(l));
        }
    }
    assert(spec.sections@.take(spec.sections@.len() as int) =~= spec.sections@);
    find_shared(&lists)
}

/// What is measured of a document.
#[derive(Debug, Clone)]
pub struct Metrics {
    /// The characters of all fields.
    pub total_chars: usize,
    /// The characters of each field, by field id.
    pub field_chars: SortedMap<usize>,
    /// How many target keywords are covered.
    pub keyword_coverage: usize,
    /// How many target keywords there are.
    pub keyword_total: usize,
    /// The target keywords that are covered.
    pub matched_keywords: Vec<String>,
    /// Words that stand in several of the fields among which the store removes repeated keywords.
    pub duplicate_keywords: Vec<String>,
    pub emoji_count: usize,
    /// Superlatives, prices and banned terms that were found.
    pub banned_hits: Vec<String>,
}

impl Default for Metrics {
    /// Nothing measured.
    fn default() -> (r: Metrics)
        ensures
            r.total_chars == 0,
            r.field_chars@.len() == 0,
            r.keyword_coverage == 0,
            r.keyword_total == 0,
            r.matched_keywords@.len() == 0,
            r.duplicate_keywords@.len() == 0,
            r.emoji_count == 0,
            r.banned_hits@.len() == 0,
    {
        Metrics {
            total_chars: 0,
            field_chars: SortedMap::new(),
            keyword_coverage: 0,
            keyword_total: 0,
            matched_keywords: Vec::new(),
            duplicate_keywords: Vec::new(),
            emoji_count: 0,
            banned_hits: Vec::new(),
        }
    }
}

/// What a measurement holds.
#[verifier::ext_equal]
pub struct MetricsView {
    pub total_chars: nat,
    pub field_chars: Seq<(Seq<char>, usize)>,
    pub keyword_coverage: nat,
    pub keyword_total: nat,
    pub matched_keywords: Seq<Seq<char>>,
    pub duplicate_keywords: Seq<Seq<char>>,
    pub emoji_count: nat,
    pub banned_hits: Seq<Seq<char>>,
}

impl View for Metrics {
    type V = MetricsView;

    open spec fn view(&self) -> MetricsView {
        MetricsView {
            total_chars: self.total_chars as nat,
            field_chars: self.field_chars@,
            keyword_coverage: self.keyword_coverage as nat,
            keyword_total: self.keyword_total as nat,
            matched_keywords: texts(self.matched_keywords@),
            duplicate_keywords: texts(self.duplicate_keywords@),
            emoji_count: self.emoji_count as nat,
            banned_hits: texts(self.banned_hits@),
        }
    }
}

impl Metrics {
    /// The same measurement again.
    pub fn again(&self) -> (r: Metrics)
        ensures
            r@ == self@,
    {
        Metrics {
            total_chars: self.total_chars,
            field_chars: self.field_chars.again(),
            keyword_coverage: self.keyword_coverage,
            keyword_total: self.keyword_total,
            matched_keywords: copied(&self.matched_keywords),
            duplicate_keywords: copied(&self.duplicate_keywords),
            emoji_count: self.emoji_count,
            banned_hits: copied(&self.banned_hits),
        }
    }
}

/// The characters of the fields together.
pub open spec fn total_len(fields: Seq<Section>, e: Seq<(Seq<char>, Seq<char>)>) -> nat
    decreases fields.len(),
{
    if fields.len() == 0 {
        0
    } else {
        total_len(fields.drop_last(), e) + body_of(e, fields.last().id@).len()
    }
}

/// The characters of each field, by field id.
pub open spec fn field_lens(fields: Seq<Section>, e: Seq<(Seq<char>, Seq<char>)>) -> Seq<
    (Seq<char>, usize),
>
    decreases fields.len(),
{
    if fields.len() == 0 {
        seq![]
    } else {
        put(
            field_lens(fields.drop_last(), e),
            fields.last().id@,
            body_of(e, fields.last().id@).len() as usize,
        )
    }
}

/// The copy as one text: the bodies in the order of the field ids, a space between two of them.
pub open spec fn copy_text(e: Seq<(Seq<char>, Seq<char>)>) -> Seq<char> {
    join(values(e), " "@)
}

/// The keyword stands in the copy, both as they are compared.
pub open spec fn covered(copy: Seq<char>, k: Seq<char>) -> bool {
    let wanted = match_text(keyword(k));
    wanted.len() > 0 && occurs(wanted, match_text(copy))
}

/// A keyword of ASCII characters stands in an ASCII copy, both as they are compared.
pub open spec fn ascii_covered(copy: Seq<char>, k: Seq<char>) -> bool {
    let wanted = ascii_match_text(ascii_keyword(k));
    wanted.len() > 0 && occurs(wanted, ascii_match_text(copy))
}

/// The keywords that stand in the copy.
pub open spec fn covered_keywords(ks: Seq<Seq<char>>, copy: Seq<char>) -> Seq<Seq<char>> {
    ks.filter(|k: Seq<char>| covered(copy, k))
}

/// The lengths of the fields add up to a number that can be held.
pub open spec fn countable(spec: Spec, doc: Seq<char>) -> bool {
    total_len(spec.sections@, doc_bodies(spec, doc)) <= usize::MAX
}

/// The lengths of some of the fields add up to no more than those of all.
proof fn lemma_total_grows(fields: Seq<Section>, e: Seq<(Seq<char>, Seq<char>)>, n: int)
    requires
        0 <= n <= fields.len(),
    ensures
        total_len(fields.take(n), e) <= total_len(fields, e),
    decreases fields.len() - n,
{
    if n < fields.len() {
        let more = fields.take(n + 1);
        assert(more.drop_last() =~= fields.take(n));
        assert(total_len(fields.take(n), e) <= total_len(more, e));
        lemma_total_grows(fields, e, n + 1);
    } else {
        assert(fields.take(n) =~= fields);
    }
}

/// The bodies in the order of the field ids, a space between two of them.
fn copy_of(map: &SortedMap<String>) -> (r: String)
    ensures
        r@ == copy_text(map@),
{
    let mut parts: Vec<String> = Vec::new();
    let count: usize = map.len();
    for i in 0..count
        invariant
            count == map@.len(),
            texts(parts@) == values(map@).take(i as int),
    {
        let ghost prev = texts(parts@);
        parts.push(map.value(i).clone());
        assert(texts(parts@) =~= prev.push(values(map@)[i as int]));
    }
    assert(values(map@).take(count as int) =~= values(map@));
    joined(&parts, " ")
}

/// The keywords as they are searched for in the copy.
pub open spec fn wanted_texts(ks: Seq<Seq<char>>) -> Seq<Seq<char>> {
    ks.map_values(|k: Seq<char>| match_text(keyword(k)))
}

/// The keywords whose wanted text is not empty and stands in `text`.
pub open spec fn found_keywords(
    ks: Seq<Seq<char>>,
    wanted: Seq<Seq<char>>,
    text: Seq<char>,
) -> Seq<Seq<char>>
    decreases ks.len(),
{
    if ks.len() == 0 {
        seq![]
    } else {
        let earlier = found_keywords(ks.drop_last(), wanted, text);
        let w = wanted[ks.len() - 1];
        if w.len() > 0 && occurs(w, text) {
            earlier.push(ks.last())
        } else {
            earlier
        }
    }
}

proof fn lemma_found_keywords(ks: Seq<Seq<char>>, all: Seq<Seq<char>>, copy: Seq<char>)
    requires
        ks.is_prefix_of(all),
    ensures
        found_keywords(ks, wanted_texts(all), match_text(copy)) == covered_keywords(ks, copy),
    decreases ks.len(),
{
    let test = |k: Seq<char>| covered(copy, k);
    if ks.len() == 0 {
        reveal(Seq::filter);
        assert(ks.filter(test) =~= seq![]);
    } else {
        let t = ks.drop_last();
        lemma_found_keywords(t, all, copy);
        assert(ks =~= t.push(ks.last()));
        t.lemma_filter_push(ks.last(), test);
        assert(wanted_texts(all)[ks.len() - 1] == match_text(keyword(ks.last())));
    }
}

/// The keywords whose wanted text is not empty and stands in `text`.
pub fn find_keywords(ks: &Vec<String>, wanted: &Vec<String>, text: &str) -> (r: Vec<String>)
    requires
        wanted@.len() == ks@.len(),
    ensures
        texts(r@) == found_keywords(texts(ks@), texts(wanted@), text@),
        r@.len() <= ks@.len(),
{
    let ghost all = texts(ks@);
    let whole = chars_of(text);
    let mut out: Vec<String> = Vec::new();
    assert(texts(out@) =~= seq![]);
    for i in 0..ks.len()
        invariant
            wanted@.len() == ks@.len(),
            all == texts(ks@),
            whole@ == text@,
            texts(out@) == found_keywords(all.take(i as int), texts(wanted@), text@),
            out@.len() <= i,
    {
        assert(all.take(i + 1).drop_last() =~= all.take(i as int));
        assert(all.take(i + 1).last() == all[i as int]);
        assert(texts(wanted@)[i as int] == wanted@[i as int]@);
        let w = chars_of(wanted[i].as_str());
        if w.len() > 0 && contains_text(&whole, &w) {
            let ghost prev = texts(out@);
            out.push(ks[i].clone());
            assert(texts(out@) =~= prev.push(all[i as int]));
        }
    }
    assert(all.take(ks@.len() as int) =~= all);
    out
}

/// The keywords that stand in the copy.
fn cover(ks: &Vec<String>, copy: &str) -> (r: Vec<String>)
    ensures
        texts(r@) == covered_keywords(texts(ks@), copy@),
        each_ascii(texts(ks@)) && all_ascii(copy@) ==> texts(r@) == texts(ks@).filter(
            |k: Seq<char>| ascii_covered(copy@, k),
        ),
        r@.len() <= ks@.len(),
{
    let ghost all = texts(ks@);
    let mut wanted: Vec<String> = Vec::new();
    for i in 0..ks.len()
        invariant
            all == texts(ks@),
            texts(wanted@) == wanted_texts(all).take(i as int),
            forall|j: int|
                0 <= j < i && all_ascii(all[j]) ==> match_text(keyword(#[trigger] all[j]))
                    == ascii_match_text(ascii_keyword(all[j])),
    {
        let ghost prev = texts(wanted@);
        let k = normalize_keyword(ks[i].as_str());
        wanted.push(normalize_text_for_match(k.as_str()));
        proof {
            lemma_trim_ascii(all[i as int]);
            lemma_lower_ascii(trim(all[i as int]));
        }
        assert(texts(wanted@) =~= prev.push(wanted_texts(all)[i as int]));
    }
    assert(texts(wanted@) =~= wanted_texts(all));
    assert(texts(wanted@).len() == wanted@.len());
    let text = normalize_text_for_match(copy);
    proof {
        lemma_found_keywords(all, all, copy@);
        if each_ascii(all) && all_ascii(copy@) {
            let test = |k: Seq<char>| covered(copy@, k);
            let plain = |k: Seq<char>| ascii_covered(copy@, k);
            assert forall|j: int| 0 <= j < all.len() implies test(#[trigger] all[j]) == plain(
                all[j],
            ) by {
                assert(all_ascii(all[j]));
            }
            lemma_same_filter(all, test, plain);
        }
    }
    find_keywords(ks, &wanted, text.as_str())
}

/// The characters of the fields together, and of each field by its id.
pub fn field_lengths(fields: &Vec<Section>, map: &SortedMap<String>) -> (r: (
    usize,
    SortedMap<usize>,
))
    requires
        total_len(fields@, map@) <= usize::MAX,
    ensures
        r.0 == total_len(fields@, map@),
        r.1@ == field_lens(fields@, map@),
{
    let mut each: SortedMap<usize> = SortedMap::new();
    let mut total: usize = 0;
    for i in 0..fields.len()
        invariant
            total_len(fields@, map@) <= usize::MAX,
            each@ == field_lens(fields@.take(i as int), map@),
            total == total_len(fields@.take(i as int), map@),
    {
        let ghost upto = fields@.take(i + 1);
        assert(upto.drop_last() =~= fields@.take(i as int));
        assert(upto.last() == fields@[i as int]);
        let n: usize = body_chars(map, fields[i].id.as_str()).len();
        proof {
            lemma_total_grows(fields@, map@, i + 1);
        }
        each.insert(fields[i].id.clone(), n);
        total += n;
    }
    assert(fields@.take(fields@.len() as int) =~= fields@);
    (total, each)
}

/// What is measured of a document.
pub open spec fn measured(spec: Spec, doc: Seq<char>) -> MetricsView {
    let e = doc_bodies(spec, doc);
    let copy = copy_text(e);
    let ks = texts(spec.target_keywords@);
    MetricsView {
        total_chars: total_len(spec.sections@, e),
        field_chars: field_lens(spec.sections@, e),
        keyword_coverage: covered_keywords(ks, copy).len(),
        keyword_total: ks.len(),
        matched_keywords: covered_keywords(ks, copy),
        duplicate_keywords: shared_words(dedup_words(spec.sections@, e)),
        emoji_count: emojis(copy),
        banned_hits: banned(texts(spec.banned_terms@), copy),
    }
}

/// Measures a document.
pub fn metrics(spec: &Spec, doc: &str) -> (r: Metrics)
    requires
        countable(*spec, doc@),
    ensures
        r@ == measured(*spec, doc@),
        lists_shared(
            dedup_words(spec.sections@, doc_bodies(*spec, doc@)),
            texts(r.duplicate_keywords@),
        ),
        r.keyword_coverage <= r.keyword_total,
        each_ascii(texts(spec.target_keywords@)) && all_ascii(copy_text(doc_bodies(*spec, doc@)))
            ==> texts(r.matched_keywords@) == texts(spec.target_keywords@).filter(
            |k: Seq<char>| ascii_covered(copy_text(doc_bodies(*spec, doc@)), k),
        ),
        forall|i: int|
            0 <= i < r.banned_hits@.len() ==> quotes(
                #[trigger] r.banned_hits@[i]@,
                copy_text(doc_bodies(*spec, doc@)),
            ),
{
    let map = field_bodies(spec, doc);
    let (total_chars, field_chars) = field_lengths(&spec.sections, &map);
    let copy = copy_of(&map);
    let matched_keywords = cover(&spec.target_keywords, copy.as_str());
    assert(texts(matched_keywords@).len() == matched_keywords@.len());
    Metrics {
        total_chars,
        field_chars,
        keyword_coverage: matched_keywords.len(),
        keyword_total: spec.target_keywords.len(),
        matched_keywords,
        duplicate_keywords: duplicate_keywords_across_fields(spec, &map),
        emoji_count: count_emojis(&chars_of(copy.as_str())),
        banned_hits: banned_hits(&spec.banned_terms, copy.as_str()),
    }
}

/// Whether the lengths of the fields add up to a number that can be held.
pub fn is_countable(spec: &Spec, doc: &str) -> (r: bool)
    ensures
        r == countable(*spec, doc@),
{
    let map = field_bodies(spec, doc);
    let ghost e = map@;
    let mut total: usize = 0;
    for i in 0..spec.sections.len()
        invariant
            e == doc_bodies(*spec, doc@),
            e == map@,
            total == total_len(spec.sections@.take(i as int), e),
    {
        let ghost upto = spec.sections@.take(i + 1);
        assert(upto.drop_last() =~= spec.sections@.take(i as int));
        assert(upto.last() == spec.sections@[i as int]);
        let n: usize = body_chars(&map, spec.sections[i].id.as_str()).len();
        proof {
            lemma_total_grows(spec.sections@, e, i + 1);
        }
        if n > usize::MAX - total {
            return false;
        }
        total += n;
    }
    assert(spec.sections@.take(spec.sections@.len() as int) =~= spec.sections@);
    true
}

/// Measures a document, where the lengths of its fields can be added up.
pub fn try_metrics(spec: &Spec, doc: &str) -> (r: Option<Metrics>)
    ensures
        match r {
            Some(m) => countable(*spec, doc@) && m@ == measured(*spec, doc@),
            None => !countable(*spec, doc@),
        },
{
    if is_countable(spec, doc) {
        Some(metrics(spec, doc))
    } else {
        None
    }
}

/// The titles of the required fields that are missing or empty.
pub open spec fn missing(fields: Seq<Section>, e: Seq<(Seq<char>, Seq<char>)>) -> Seq<Seq<char>> {
    fields.filter(|s: Section| s.required && body_of(e, s.id@).len() == 0).map_values(
        |s: Section| s.title@,
    )
}

/// The titles of the required fields that `map` does not fill.
fn find_missing(spec: &Spec, map: &SortedMap<String>) -> (r: Vec<String>)
    ensures
        texts(r@) == missing(spec.sections@, map@),
{
    let ghost all = spec.sections@;
    let ghost test = |s: Section| s.required && body_of(map@, s.id@).len() == 0;
    let ghost name = |s: Section| s.title@;
    let mut out: Vec<String> = Vec::new();
    assert(texts(out@) =~= all.take(0).filter(test).map_values(name)) by {
        reveal(Seq::filter);
    }
    for i in 0..spec.sections.len()
        invariant
            all == spec.sections@,
            test == (|s: Section| s.required && body_of(map@, s.id@).len() == 0),
            name == (|s: Section| s.title@),
            texts(out@) == all.take(i as int).filter(test).map_values(name),
    {
        assert(all.take(i + 1) =~= all.take(i as int).push(all[i as int]));
        proof {
            all.take(i as int).lemma_filter_push(all[i as int], test);
        }
        let s = &spec.sections[i];
        if s.required && body_chars(map, s.id.as_str()).len() == 0 {
            let ghost prev = texts(out@);
            out.push(s.title.clone());
            assert(texts(out@) =~= prev.push(all[i as int].title@));
            assert(all.take(i + 1).filter(test).map_values(name) =~= prev.push(
                all[i as int].title@,
            ));
        }
    }
    assert(all.take(spec.sections@.len() as int) =~= all);
    out
}

/// The titles of the required fields that are missing from a document or empty in it.
pub fn missing_required(spec: &Spec, doc: &str) -> (r: Vec<String>)
    ensures
        texts(r@) == missing(spec.sections@, doc_bodies(*spec, doc@)),
{
    find_missing(spec, &field_bodies(spec, doc))
}

/// What is reported of a required field that is missing.
pub open spec fn missing_issue(title: Seq<char>) -> Seq<char> {
    "Required field '"@ + title + "' missing → needs to be filled in"@
}

/// What is reported of a field that is longer than the store allows.
pub open spec fn over_issue(s: Section, n: nat) -> Seq<char> {
    "'"@ + s.title@ + "' exceeds character limit: "@ + decimal(n) + " chars (max "@ + decimal(
        s.max_chars as nat,
    ) + " chars) → may be truncated or rejected at store submission, needs shortening"@
}

/// What is reported of a field that is shorter than recommended.
pub open spec fn under_issue(s: Section, n: nat) -> Seq<char> {
    "'"@ + s.title@ + "' below recommended character count: "@ + decimal(n)
        + " chars (recommended "@ + decimal(s.min_chars as nat)
        + "+ chars) → may waste exposure opportunity"@
}

/// What is reported of a keywords field that is nearly full.
pub open spec fn uncertain_issue(s: Section, n: nat) -> Seq<char> {
    "[uncertain] keywords field is at "@ + decimal(n) + " chars, close to the limit ("@ + decimal(
        s.max_chars as nat,
    )
        + " chars) — it's unclear from the documentation whether Apple's keywords field is measured in characters or bytes, so verify directly in App Store Connect (be especially careful with multi-byte characters such as Korean)"@
}

/// The field is Apple's keywords field and more than nine tenths full.
pub open spec fn nearly_full(store: Store, s: Section, n: nat) -> bool {
    store == Store::Apple && s.id@ == "keywords"@ && n * 10 > s.max_chars * 9
}

/// What is reported of the length `n` of a field. Of an empty field nothing is.
pub open spec fn length_issue(store: Store, s: Section, n: nat) -> Seq<Seq<char>> {
    if n == 0 {
        seq![]
    } else {
        (if n > s.max_chars {
            seq![over_issue(s, n)]
        } else if s.min_chars > 0 && n < s.min_chars {
            seq![under_issue(s, n)]
        } else {
            seq![]
        }) + (if nearly_full(store, s, n) {
            seq![uncertain_issue(s, n)]
        } else {
            seq![]
        })
    }
}

/// What is reported of the lengths of the fields.
pub open spec fn length_issues(
    store: Store,
    fields: Seq<Section>,
    e: Seq<(Seq<char>, Seq<char>)>,
) -> Seq<Seq<char>>
    decreases fields.len(),
{
    if fields.len() == 0 {
        seq![]
    } else {
        length_issues(store, fields.drop_last(), e) + length_issue(
            store,
            fields.last(),
            body_of(e, fields.last().id@).len(),
        )
    }
}

/// Reports on the length `n` of a field.
fn push_length_issue(out: &mut Vec<String>, store: Store, s: &Section, n: usize)
    ensures
        texts(final(out)@) == texts(old(out)@) + length_issue(store, *s, n as nat),
{
    let ghost start = texts(out@);
    if n == 0 {
        assert(start + seq![] =~= start);
        return;
    }
    if n > s.max_chars {
        let mut t = "'".to_string();
        t.append(s.title.as_str());
        t.append("' exceeds character limit: ");
        push_decimal(&mut t, n as u64);
        t.append(" chars (max ");
        push_decimal(&mut t, s.max_chars as u64);
        t.append(
            " chars) → may be truncated or rejected at store submission, needs shortening",
        );
        out.push(t);
        assert(texts(out@) =~= start + seq![over_issue(*s, n as nat)]);
    } else if s.min_chars > 0 && n < s.min_chars {
        let mut t = "'".to_string();
        t.append(s.title.as_str());
        t.append("' below recommended character count: ");
        push_decimal(&mut t, n as u64);
        t.append(" chars (recommended ");
        push_decimal(&mut t, s.min_chars as u64);
        t.append("+ chars) → may waste exposure opportunity");
        out.push(t);
        assert(texts(out@) =~= start + seq![under_issue(*s, n as nat)]);
    } else {
        assert(start + seq![] =~= start);
    }
    let ghost mid = texts(out@);
    if store == Store::Apple && same_text(s.id.as_str(), "keywords") && n as u128 * 10
        > s.max_chars as u128 * 9 {
        let mut t = "[uncertain] keywords field is at ".to_string();
        push_decimal(&mut t, n as u64);
        t.append(" chars, close to the limit (");
        push_decimal(&mut t, s.max_chars as u64);
        t.append(
            " chars) — it's unclear from the documentation whether Apple's keywords field is measured in characters or bytes, so verify directly in App Store Connect (be especially careful with multi-byte characters such as Korean)",
        );
        out.push(t);
        assert(nearly_full(store, *s, n as nat));
        assert(texts(out@) =~= mid + seq![uncertain_issue(*s, n as nat)]);
    } else {
        assert(!nearly_full(store, *s, n as nat));
        assert(mid + seq![] =~= mid);
    }
    assert(texts(out@) =~= start + length_issue(store, *s, n as nat));
}

/// What is reported where target keywords are given twice: of `given` ones `distinct` are left.
pub open spec fn repeated_issues(given: nat, distinct: nat) -> Seq<Seq<char>> {
    if distinct < given {
        seq![
            "spec's target_keywords contains duplicate entries ("@ + decimal(given) + " → "@
                + decimal(distinct)
                + " after normalization) → recommend cleaning up in TOML"@,
        ]
    } else {
        seq![]
    }
}

/// What is reported of words that stand in several fields.
pub open spec fn duplicate_issues(dups: Seq<Seq<char>>) -> Seq<Seq<char>> {
    if dups.len() > 0 {
        seq![
            decimal(dups.len()) + " keyword duplicate(s) across fields: "@ + join(dups, ", "@)
                + " → placing duplicates across auto-dedup target fields wastes character count"@,
        ]
    } else {
        seq![]
    }
}

/// The keywords that do not stand in the copy.
pub open spec fn uncovered_keywords(ks: Seq<Seq<char>>, copy: Seq<char>) -> Seq<Seq<char>> {
    ks.filter(|k: Seq<char>| !covered(copy, k))
}

/// What is reported of target keywords that are not among the matched ones.
pub open spec fn coverage_issues(ks: Seq<Seq<char>>, m: MetricsView) -> Seq<Seq<char>> {
    if ks.len() > 0 && m.keyword_coverage < m.keyword_total {
        seq![
            "target keyword coverage "@ + decimal(m.keyword_coverage) + "/"@ + decimal(
                m.keyword_total,
            ) + " → not covered: "@ + join(
                ks.filter(|k: Seq<char>| !m.matched_keywords.contains(k)),
                ", "@,
            ),
        ]
    } else {
        seq![]
    }
}

/// What is reported of too many emojis.
pub open spec fn emoji_issues(n: nat, most: nat) -> Seq<Seq<char>> {
    if n > most {
        seq![
            decimal(n) + " emoji used (allowed "@ + decimal(most)
                + ") → excessive emoji may be perceived as spam, reduce usage"@,
        ]
    } else {
        seq![]
    }
}

/// What is reported of a phrase that should not stand in the copy.
pub open spec fn banned_issue(hit: Seq<char>) -> Seq<char> {
    "banned expression detected — "@ + hit
        + " → needs to be replaced (trademark/false-advertising risk)"@
}

/// Everything that is reported of a document with the bodies `e` and the measurement `m`, of whose
/// target keywords `distinct` are left without repetitions, and with the claims `facts` reported
/// already.
pub open spec fn findings(
    spec: Spec,
    e: Seq<(Seq<char>, Seq<char>)>,
    m: MetricsView,
    distinct: nat,
    facts: Seq<Seq<char>>,
) -> Seq<Seq<char>> {
    missing(spec.sections@, e).map_values(|t: Seq<char>| missing_issue(t)) + length_issues(
        spec.store,
        spec.sections@,
        e,
    ) + repeated_issues(spec.target_keywords@.len(), distinct) + duplicate_issues(
        m.duplicate_keywords,
    ) + coverage_issues(texts(spec.target_keywords@), m) + emoji_issues(
        m.emoji_count,
        spec.emoji_max as nat,
    ) + m.banned_hits.map_values(|h: Seq<char>| banned_issue(h)) + facts
}

/// Everything that is reported of a document.
pub open spec fn issues(spec: Spec, doc: Seq<char>, brief: Option<Seq<char>>) -> Seq<Seq<char>> {
    findings(
        spec,
        doc_bodies(spec, doc),
        measured(spec, doc),
        firsts(keywords(texts(spec.target_keywords@))).len(),
        claim_issues(doc, brief),
    )
}

/// Reports that target keywords are given twice.
fn push_repeated(out: &mut Vec<String>, given: usize, distinct: usize)
    ensures
        texts(final(out)@) == texts(old(out)@) + repeated_issues(given as nat, distinct as nat),
{
    let ghost start = texts(out@);
    if distinct < given {
        let mut t = "spec's target_keywords contains duplicate entries (".to_string();
        push_decimal(&mut t, given as u64);
        t.append(" → ");
        push_decimal(&mut t, distinct as u64);
        t.append(" after normalization) → recommend cleaning up in TOML");
        out.push(t);
    }
    assert(texts(out@) =~= start + repeated_issues(given as nat, distinct as nat));
}

/// Reports words that stand in several fields.
fn push_duplicates(out: &mut Vec<String>, dups: &Vec<String>)
    ensures
        texts(final(out)@) == texts(old(out)@) + duplicate_issues(texts(dups@)),
{
    let ghost start = texts(out@);
    if dups.len() > 0 {
        let mut t = String::new();
        push_decimal(&mut t, dups.len() as u64);
        assert(t@ =~= decimal(dups@.len()));
        t.append(" keyword duplicate(s) across fields: ");
        t.append(joined(dups, ", ").as_str());
        t.append(" → placing duplicates across auto-dedup target fields wastes character count");
        out.push(t);
    }
    assert(texts(out@) =~= start + duplicate_issues(texts(dups@)));
}

/// The keywords of `ks` that `matched` does not hold.
fn find_uncovered(ks: &Vec<String>, matched: &Vec<String>) -> (r: Vec<String>)
    ensures
        texts(r@) == texts(ks@).filter(|k: Seq<char>| !texts(matched@).contains(k)),
{
    let ghost all = texts(ks@);
    let ghost rest = |k: Seq<char>| !texts(matched@).contains(k);
    let mut out: Vec<String> = Vec::new();
    assert(texts(out@) =~= all.take(0).filter(rest)) by {
        reveal(Seq::filter);
    }
    for i in 0..ks.len()
        invariant
            all == texts(ks@),
            rest == (|k: Seq<char>| !texts(matched@).contains(k)),
            texts(out@) == all.take(i as int).filter(rest),
    {
        let ghost k = all[i as int];
        assert(all.take(i + 1) =~= all.take(i as int).push(k));
        proof {
            all.take(i as int).lemma_filter_push(k, rest);
        }
        if !holds(matched, ks[i].as_str()) {
            let ghost prev = texts(out@);
            out.push(ks[i].clone());
            assert(texts(out@) =~= prev.push(k));
        }
    }
    assert(all.take(ks@.len() as int) =~= all);
    out
}

/// Reports target keywords that are not among the matched ones.
fn push_coverage(out: &mut Vec<String>, ks: &Vec<String>, m: &Metrics)
    ensures
        texts(final(out)@) == texts(old(out)@) + coverage_issues(texts(ks@), m@),
{
    let ghost start = texts(out@);
    if ks.len() > 0 && m.keyword_coverage < m.keyword_total {
        let uncovered = find_uncovered(ks, &m.matched_keywords);
        let mut t = "target keyword coverage ".to_string();
        push_decimal(&mut t, m.keyword_coverage as u64);
        t.append("/");
        push_decimal(&mut t, m.keyword_total as u64);
        t.append(" → not covered: ");
        t.append(joined(&uncovered, ", ").as_str());
        out.push(t);
    }
    assert(texts(ks@).len() == ks@.len());
    assert(texts(out@) =~= start + coverage_issues(texts(ks@), m@));
}

/// Reports too many emojis.
fn push_emojis(out: &mut Vec<String>, n: usize, most: usize)
    ensures
        texts(final(out)@) == texts(old(out)@) + emoji_issues(n as nat, most as nat),
{
    let ghost start = texts(out@);
    if n > most {
        let mut t = String::new();
        push_decimal(&mut t, n as u64);
        assert(t@ =~= decimal(n as nat));
        t.append(" emoji used (allowed ");
        push_decimal(&mut t, most as u64);
        t.append(") → excessive emoji may be perceived as spam, reduce usage");
        out.push(t);
    }
    assert(texts(out@) =~= start + emoji_issues(n as nat, most as nat));
}

/// Reports on a document with the bodies `map` and the measurement `m`, of whose target keywords
/// `distinct` are left without repetitions. `facts` are reports on its claims.
pub fn list_issues(
    spec: &Spec,
    map: &SortedMap<String>,
    m: &Metrics,
    distinct: usize,
    facts: &Vec<String>,
) -> (r: Vec<String>)
    ensures
        texts(r@) == findings(*spec, map@, m@, distinct as nat, texts(facts@)),
{
    let ghost e = map@;
    let mut out: Vec<String> = Vec::new();
    let absent = find_missing(spec, map);
    let ghost wanted = texts(absent@).map_values(|t: Seq<char>| missing_issue(t));
    for i in 0..absent.len()
        invariant
            wanted == texts(absent@).map_values(|t: Seq<char>| missing_issue(t)),
            texts(out@) == wanted.take(i as int),
    {
        let ghost prev = texts(out@);
        let mut t = "Required field '".to_string();
        t.append(absent[i].as_str());
        t.append("' missing → needs to be filled in");
        out.push(t);
        assert(texts(out@) =~= prev.push(wanted[i as int]));
    }
    assert(wanted.take(absent@.len() as int) =~= wanted);
    assert(texts(out@) =~= wanted + length_issues(spec.store, spec.sections@.take(0), e));
    for i in 0..spec.sections.len()
        invariant
            e == map@,
            texts(out@) == wanted + length_issues(spec.store, spec.sections@.take(i as int), e),
    {
        let ghost upto = spec.sections@.take(i + 1);
        assert(upto.drop_last() =~= spec.sections@.take(i as int));
        assert(upto.last() == spec.sections@[i as int]);
        let s = &spec.sections[i];
        let n: usize = body_chars(map, s.id.as_str()).len();
        push_length_issue(&mut out, spec.store, s, n);
        assert(texts(out@) =~= wanted + length_issues(spec.store, upto, e));
    }
    assert(spec.sections@.take(spec.sections@.len() as int) =~= spec.sections@);
    push_repeated(&mut out, spec.target_keywords.len(), distinct);
    push_duplicates(&mut out, &m.duplicate_keywords);
    push_coverage(&mut out, &spec.target_keywords, m);
    push_emojis(&mut out, m.emoji_count, spec.emoji_max);
    let ghost upto = texts(out@);
    let ghost said = texts(m.banned_hits@).map_values(|h: Seq<char>| banned_issue(h));
    assert(upto + said.take(0) =~= upto);
    for i in 0..m.banned_hits.len()
        invariant
            said == texts(m.banned_hits@).map_values(|h: Seq<char>| banned_issue(h)),
            texts(out@) == upto + said.take(i as int),
    {
        let ghost prev = texts(out@);
        let mut t = "banned expression detected — ".to_string();
        t.append(m.banned_hits[i].as_str());
        t.append(" → needs to be replaced (trademark/false-advertising risk)");
        out.push(t);
        assert(texts(out@) =~= prev.push(said[i as int]));
        assert(texts(out@) =~= upto + said.take(i + 1));
    }
    assert(said.take(m.banned_hits@.len() as int) =~= said);
    let ghost most = texts(out@);
    let mut rest = copied(facts);
    let ghost f = texts(rest@);
    out.append(&mut rest);
    assert(texts(out@) =~= most + f);
    out
}

/// Everything that the rules find wrong with a document: missing fields, lengths, keywords,
/// emojis, banned phrases and, where a brief is given, claims that it does not bear out.
pub fn format_issues(spec: &Spec, doc: &str, brief: Option<&str>) -> (r: Vec<String>)
    requires
        countable(*spec, doc@),
    ensures
        texts(r@) == issues(*spec, doc@, text_of(brief)),
{
    let distinct = sanitize_keywords(spec.target_keywords.as_slice());
    assert(texts(distinct@).len() == distinct@.len());
    list_issues(
        spec,
        &field_bodies(spec, doc),
        &metrics(spec, doc),
        distinct.len(),
        &factual_claim_issues(doc, brief),
    )
}

/// Everything that the rules find wrong with a document, where the lengths of its fields can be
/// added up.
pub fn try_format_issues(spec: &Spec, doc: &str, brief: Option<&str>) -> (r: Option<Vec<String>>)
    ensures
        match r {
            Some(v) => countable(*spec, doc@) && texts(v@) == issues(*spec, doc@, text_of(brief)),
            None => !countable(*spec, doc@),
        },
{
    if is_countable(spec, doc) {
        Some(format_issues(spec, doc, brief))
    } else {
        None
    }
}

/// Sanitized keywords are different from each other and not empty, and are exactly those that the
/// given ones compare as.
pub proof fn lemma_sanitized(ks: Seq<Seq<char>>)
    ensures
        firsts(keywords(ks)).no_duplicates(),
        firsts(keywords(ks)).len() <= ks.len(),
        forall|t: Seq<char>|
            #[trigger] firsts(keywords(ks)).contains(t) <==> t.len() > 0 && exists|i: int|
                0 <= i < ks.len() && keyword(#[trigger] ks[i]) == t,
{
    lemma_firsts(keywords(ks));
    assert forall|t: Seq<char>| #[trigger] firsts(keywords(ks)).contains(t) <==> t.len() > 0
        && exists|i: int| 0 <= i < ks.len() && keyword(#[trigger] ks[i]) == t by {
        if keywords(ks).contains(t) {
            let i = keywords(ks).index_of(t);
            assert(keyword(ks[i]) == t);
        }
        if exists|i: int| 0 <= i < ks.len() && keyword(#[trigger] ks[i]) == t {
            let i = choose|i: int| 0 <= i < ks.len() && keyword(#[trigger] ks[i]) == t;
            assert(keywords(ks)[i] == t);
        }
    }
}

/// A heading compares the same without the characters that are neither letters nor digits.
pub proof fn lemma_head_letters(s: Seq<char>)
    ensures
        head(s.filter(|c: char| alphanumeric(c))) == head(s),
{
    lemma_filter_twice(s, |c: char| alphanumeric(c));
}

/// Upper case and a filter that does not regard the case of ASCII letters can change places.
proof fn lemma_filter_upper(s: Seq<char>, p: spec_fn(char) -> bool)
    requires
        forall|i: int| 0 <= i < s.len() ==> p(ascii_upper(#[trigger] s[i])) == p(s[i]),
    ensures
        upper_ascii(s).filter(p) == upper_ascii(s.filter(p)),
    decreases s.len(),
{
    if s.len() == 0 {
        reveal(Seq::filter);
        assert(upper_ascii(s).filter(p) =~= upper_ascii(s.filter(p)));
    } else {
        let t = s.drop_last();
        assert forall|i: int| 0 <= i < t.len() implies p(ascii_upper(#[trigger] t[i])) == p(t[i]) by {
            assert(t[i] == s[i]);
        }
        lemma_filter_upper(t, p);
        assert(s =~= t.push(s.last()));
        assert(s[s.len() - 1] == s.last());
        assert(upper_ascii(s) =~= upper_ascii(t).push(ascii_upper(s.last())));
        t.lemma_filter_push(s.last(), p);
        upper_ascii(t).lemma_filter_push(ascii_upper(s.last()), p);
        assert(upper_ascii(s).filter(p) =~= upper_ascii(s.filter(p)));
    }
}

/// A heading of ASCII characters compares the same in upper case, and without the characters that
/// are neither letters nor digits; what it compares as holds only lower-case letters and digits.
pub proof fn lemma_ascii_head(s: Seq<char>)
    ensures
        ascii_head(upper_ascii(s)) == ascii_head(s),
        ascii_head(s.filter(|c: char| ascii_alphanumeric(c))) == ascii_head(s),
        forall|i: int|
            0 <= i < ascii_head(s).len() ==> '0' <= (#[trigger] ascii_head(s)[i]) <= '9' || 'a'
                <= ascii_head(s)[i] <= 'z',
{
    let p = |c: char| ascii_alphanumeric(c);
    let f = s.filter(p);
    lemma_lower_ascii(f);
    assert forall|i: int| 0 <= i < s.len() implies p(ascii_upper(#[trigger] s[i])) == p(s[i]) by {}
    lemma_filter_upper(s, p);
    lemma_filter_twice(s, p);
    assert forall|i: int| 0 <= i < ascii_head(s).len() implies '0' <= (
    #[trigger] ascii_head(s)[i]) <= '9' || 'a' <= ascii_head(s)[i] <= 'z' by {
        s.lemma_filter_pred(p, i);
        assert(ascii_head(s)[i] == ascii_lower(f[i]));
    }
}

/// A list of different keywords that are not empty and compare as themselves is left as it is.
pub proof fn lemma_sanitized_again(ks: Seq<Seq<char>>)
    requires
        ks.no_duplicates(),
        forall|i: int|
            0 <= i < ks.len() ==> (#[trigger] ks[i]).len() > 0 && keyword(ks[i]) == ks[i],
    ensures
        firsts(keywords(ks)) == ks,
{
    assert(keywords(ks) =~= ks);
    lemma_firsts_all(ks);
}

proof fn lemma_trim_ascii(s: Seq<char>)
    ensures
        all_ascii(s) ==> all_ascii(trim(s)),
{
    lemma_trim_occurs(s);
    let i = choose|i: int| stands_at(trim(s), s, i);
    if all_ascii(s) {
        assert forall|k: int| 0 <= k < trim(s).len() implies ascii(#[trigger] trim(s)[k]) by {
            assert(s.subrange(i, i + trim(s).len())[k] == s[i + k]);
            assert(ascii(s[i + k]));
        }
    }
}

/// Sanitizing a list of ASCII keywords a second time changes nothing.
pub proof fn lemma_ascii_sanitized_again(ks: Seq<Seq<char>>)
    requires
        each_ascii(ks),
    ensures
        each_ascii(firsts(ascii_keywords(ks))),
        firsts(ascii_keywords(firsts(ascii_keywords(ks)))) == firsts(ascii_keywords(ks)),
{
    let all = ascii_keywords(ks);
    let once = firsts(all);
    lemma_firsts(all);
    assert forall|i: int| 0 <= i < once.len() implies all_ascii(#[trigger] once[i])
        && ascii_keyword(once[i]) == once[i] && once[i].len() > 0 by {
        assert(once.contains(once[i]));
        let k = all.index_of(once[i]);
        assert(once[i] == ascii_keyword(ks[k]));
        assert(all_ascii(ks[k]));
        lemma_trim_ascii(ks[k]);
        lemma_lower_ascii(trim(ks[k]));
        lemma_trim_lower_again(ks[k]);
    }
    assert(ascii_keywords(once) =~= once);
    lemma_firsts_all(once);
}

/// A text as keywords are searched in it is its words with single spaces between them: the words
/// can be had back from it.
pub proof fn lemma_match_text(s: Seq<char>)
    ensures
        words(match_text(s)) == match_words(s),
        join(words(match_text(s)), " "@) == match_text(s),
{
    lemma_words_filled(lowercase(s.map_values(|c: char| searchable(c))));
    lemma_words_join(match_words(s));
}

/// Words of letters and digits with single spaces between them are left as they are, where lower
/// case leaves them as they are.
pub proof fn lemma_match_text_again(ws: Seq<Seq<char>>)
    requires
        forall|i: int| 0 <= i < ws.len() ==> (#[trigger] ws[i]).len() > 0,
        forall|i: int, j: int|
            0 <= i < ws.len() && 0 <= j < ws[i].len() ==> alphanumeric(#[trigger] ws[i][j])
                && !white_space(ws[i][j]),
        lowercase(join(ws, " "@)) == join(ws, " "@),
    ensures
        match_words(join(ws, " "@)) == ws,
        match_text(join(ws, " "@)) == join(ws, " "@),
{
    let t = join(ws, " "@);
    assert forall|k: int| 0 <= k < t.len() implies searchable(#[trigger] t[k]) == t[k] by {
        lemma_join_chars(ws, k);
        if t[k] != ' ' {
            let (i, j) = choose|i: int, j: int|
                0 <= i < ws.len() && 0 <= j < ws[i].len() && #[trigger] ws[i][j] == t[k];
            assert(alphanumeric(ws[i][j]));
        }
    }
    assert(t.map_values(|c: char| searchable(c)) =~= t);
    assert forall|i: int, j: int| 0 <= i < ws.len() && 0 <= j < ws[i].len() implies !white_space(
        #[trigger] ws[i][j],
    ) by {
        assert(alphanumeric(ws[i][j]));
    }
    lemma_words_join(ws);
}

/// The words of a text with single spaces between them consist of its characters and spaces.
proof fn lemma_spaced(s: Seq<char>)
    ensures
        made_of(join(words(s), " "@), s),
{
    let ws = words(s);
    let t = join(ws, " "@);
    assert forall|k: int| 0 <= k < t.len() implies s.contains(#[trigger] t[k]) || white_space(
        t[k],
    ) by {
        lemma_join_chars(ws, k);
        if t[k] != ' ' {
            let (i, j) = choose|i: int, j: int|
                0 <= i < ws.len() && 0 <= j < ws[i].len() && #[trigger] ws[i][j] == t[k];
            lemma_words_chars(s, i, j);
        }
    }
}

/// Letters and digits with single spaces between the words are left as they are, where lower case
/// leaves them as they are.
proof fn lemma_spaced_again(s: Seq<char>)
    requires
        lettered(s),
        lowercase(join(words(s), " "@)) == join(words(s), " "@),
    ensures
        lettered(join(words(s), " "@)),
        match_text(join(words(s), " "@)) == join(words(s), " "@),
{
    let ws = words(s);
    let t = join(ws, " "@);
    lemma_spaced(s);
    lemma_words_filled(s);
    assert forall|i: int, j: int| 0 <= i < ws.len() && 0 <= j < ws[i].len() implies alphanumeric(
        #[trigger] ws[i][j],
    ) && !white_space(ws[i][j]) by {
        lemma_words_chars(s, i, j);
        let k = s.index_of(ws[i][j]);
        assert(alphanumeric(s[k]) || white_space(s[k]));
    }
    lemma_match_text_again(ws);
    assert forall|k: int| 0 <= k < t.len() implies alphanumeric(#[trigger] t[k]) || white_space(
        t[k],
    ) by {
        if s.contains(t[k]) {
            let i = s.index_of(t[k]);
            assert(alphanumeric(s[i]) || white_space(s[i]));
        }
    }
}

/// A lower-case ASCII letter or a digit.
pub open spec fn ascii_plain(c: char) -> bool {
    '0' <= c <= '9' || 'a' <= c <= 'z'
}

/// A text of ASCII characters as keywords are searched in it consists of words of lower-case
/// letters and digits with single spaces between them. It is empty exactly where the text holds no
/// letter and no digit, and normalizing it again changes nothing.
pub proof fn lemma_ascii_match_text(s: Seq<char>)
    requires
        all_ascii(s),
    ensures
        all_ascii(ascii_match_text(s)),
        words(ascii_match_text(s)) == ascii_match_words(s),
        forall|i: int, j: int|
            0 <= i < ascii_match_words(s).len() && 0 <= j < ascii_match_words(s)[i].len()
                ==> ascii_plain(#[trigger] ascii_match_words(s)[i][j]),
        ascii_match_text(s).len() == 0 <==> forall|i: int|
            0 <= i < s.len() ==> !ascii_alphanumeric(#[trigger] s[i]),
        lower_ascii(ascii_match_text(s)) == ascii_match_text(s),
        ascii_match_text(ascii_match_text(s)) == ascii_match_text(s),
{
    let m = s.map_values(|c: char| ascii_searchable(c));
    let x = lower_ascii(m);
    let ws = words(x);
    let t = ascii_match_text(s);
    lemma_lower_ascii(m);
    lemma_words_filled(x);
    assert forall|i: int, j: int| 0 <= i < ws.len() && 0 <= j < ws[i].len() implies ascii_plain(
        #[trigger] ws[i][j],
    ) by {
        lemma_words_chars(x, i, j);
        let k = x.index_of(ws[i][j]);
        assert(x[k] == ascii_lower(m[k]));
        assert(m[k] == ascii_searchable(s[k]));
        assert(!white_space(ws[i][j]));
    }
    lemma_words_join(ws);
    assert forall|k: int| 0 <= k < t.len() implies (#[trigger] t[k]) == ' ' || ascii_plain(t[k]) by {
        lemma_join_chars(ws, k);
        if t[k] != ' ' {
            let (i, j) = choose|i: int, j: int|
                0 <= i < ws.len() && 0 <= j < ws[i].len() && #[trigger] ws[i][j] == t[k];
            assert(ascii_plain(ws[i][j]));
        }
    }
    assert forall|k: int| 0 <= k < t.len() implies ascii(#[trigger] t[k]) by {
        assert(t[k] == ' ' || ascii_plain(t[k]));
    }
    assert(t.map_values(|c: char| ascii_searchable(c)) =~= t);
    assert(lower_ascii(t) =~= t);
    lemma_words_blank(x);
    if forall|i: int| 0 <= i < s.len() ==> !ascii_alphanumeric(#[trigger] s[i]) {
        assert forall|k: int| 0 <= k < x.len() implies white_space(#[trigger] x[k]) by {
            assert(x[k] == ascii_lower(m[k]));
            assert(m[k] == ascii_searchable(s[k]));
        }
    }
    if t.len() == 0 {
        assert(ws.len() == 0) by {
            if ws.len() > 0 {
                assert(words(t).len() == ws.len());
                assert(words(t) =~= seq![]);
            }
        }
        assert forall|i: int| 0 <= i < s.len() implies !ascii_alphanumeric(#[trigger] s[i]) by {
            assert(white_space(x[i]));
            assert(x[i] == ascii_lower(m[i]));
            assert(m[i] == ascii_searchable(s[i]));
        }
    }
}

/// A field is reported as too long exactly from one character over its limit on.
pub proof fn lemma_length_boundary(store: Store, s: Section, n: nat)
    ensures
        n > s.max_chars ==> length_issue(store, s, n).len() > 0 && length_issue(store, s, n)[0]
            == over_issue(s, n),
        0 < n <= s.max_chars && n >= s.min_chars && !nearly_full(store, s, n) ==> length_issue(
            store,
            s,
            n,
        ).len() == 0,
        n == 0 ==> length_issue(store, s, n).len() == 0,
{
}

proof fn lemma_filter_none<A>(s: Seq<A>, p: spec_fn(A) -> bool)
    ensures
        s.filter(p).len() == 0 <==> forall|i: int| 0 <= i < s.len() ==> !p(#[trigger] s[i]),
{
    if s.filter(p).len() > 0 {
        let x = s.filter(p)[0];
        s.lemma_filter_pred(p, 0);
        assert(s.filter(p).contains(x));
        s.lemma_filter_contains_rev(p, x);
        assert(p(s[s.index_of(x)]));
    }
    if exists|i: int| 0 <= i < s.len() && p(#[trigger] s[i]) {
        let i = choose|i: int| 0 <= i < s.len() && p(#[trigger] s[i]);
        s.lemma_filter_contains(p, i);
    }
}

/// Every target keyword is either covered or reported as not covered.
pub proof fn lemma_coverage(ks: Seq<Seq<char>>, copy: Seq<char>)
    ensures
        covered_keywords(ks, copy).len() + uncovered_keywords(ks, copy).len() == ks.len(),
        ks.filter(|k: Seq<char>| !covered_keywords(ks, copy).contains(k)) == uncovered_keywords(
            ks,
            copy,
        ),
        uncovered_keywords(ks, copy).len() == 0 <==> forall|i: int|
            0 <= i < ks.len() ==> covered(copy, #[trigger] ks[i]),
{
    let no = |k: Seq<char>| !covered(copy, k);
    let other = |k: Seq<char>| !covered_keywords(ks, copy).contains(k);
    lemma_coverage_count(ks, copy);
    assert forall|i: int| 0 <= i < ks.len() implies no(#[trigger] ks[i]) == other(ks[i]) by {
        let yes = |k: Seq<char>| covered(copy, k);
        if yes(ks[i]) {
            ks.lemma_filter_contains(yes, i);
        }
        if ks.filter(yes).contains(ks[i]) {
            ks.lemma_filter_pred(yes, ks.filter(yes).index_of(ks[i]));
        }
    }
    lemma_same_filter(ks, no, other);
    lemma_filter_none(ks, no);
    if forall|i: int| 0 <= i < ks.len() ==> covered(copy, #[trigger] ks[i]) {
        assert forall|i: int| 0 <= i < ks.len() implies !no(#[trigger] ks[i]) by {}
    }
    if uncovered_keywords(ks, copy).len() == 0 {
        assert forall|i: int| 0 <= i < ks.len() implies covered(copy, #[trigger] ks[i]) by {
            assert(!no(ks[i]));
        }
    }
}

proof fn lemma_coverage_count(ks: Seq<Seq<char>>, copy: Seq<char>)
    ensures
        covered_keywords(ks, copy).len() + uncovered_keywords(ks, copy).len() == ks.len(),
    decreases ks.len(),
{
    let yes = |k: Seq<char>| covered(copy, k);
    let no = |k: Seq<char>| !covered(copy, k);
    if ks.len() == 0 {
        reveal(Seq::filter);
    } else {
        let t = ks.drop_last();
        lemma_coverage_count(t, copy);
        assert(ks =~= t.push(ks.last()));
        t.lemma_filter_push(ks.last(), yes);
        t.lemma_filter_push(ks.last(), no);
    }
}

/// The field is filled if it has to be, and its length is in order.
pub open spec fn field_clean(store: Store, s: Section, n: nat) -> bool {
    &&& s.required ==> n > 0
    &&& n > 0 ==> {
        &&& n <= s.max_chars
        &&& n >= s.min_chars
        &&& !nearly_full(store, s, n)
    }
}

/// There is nothing that the rules would report of a document.
pub open spec fn clean(spec: Spec, doc: Seq<char>, brief: Option<Seq<char>>) -> bool {
    let e = doc_bodies(spec, doc);
    let copy = copy_text(e);
    let ks = texts(spec.target_keywords@);
    &&& forall|i: int|
        0 <= i < spec.sections@.len() ==> field_clean(
            spec.store,
            #[trigger] spec.sections@[i],
            body_of(e, spec.sections@[i].id@).len(),
        )
    &&& firsts(keywords(ks)).len() == ks.len()
    &&& forall|t: Seq<char>| !#[trigger] shared(dedup_words(spec.sections@, e), t)
    &&& forall|i: int| 0 <= i < ks.len() ==> covered(copy, #[trigger] ks[i])
    &&& emojis(copy) <= spec.emoji_max
    &&& banned(texts(spec.banned_terms@), copy).len() == 0
    &&& claim_issues(doc, brief).len() == 0
}

proof fn lemma_lengths_clean(
    store: Store,
    fields: Seq<Section>,
    e: Seq<(Seq<char>, Seq<char>)>,
)
    ensures
        length_issues(store, fields, e).len() == 0 <==> forall|i: int|
            0 <= i < fields.len() ==> length_issue(
                store,
                #[trigger] fields[i],
                body_of(e, fields[i].id@).len(),
            ).len() == 0,
    decreases fields.len(),
{
    if fields.len() > 0 {
        let t = fields.drop_last();
        lemma_lengths_clean(store, t, e);
        assert(fields[fields.len() - 1] == fields.last());
        if length_issues(store, fields, e).len() == 0 {
            assert forall|i: int| 0 <= i < fields.len() implies length_issue(
                store,
                #[trigger] fields[i],
                body_of(e, fields[i].id@).len(),
            ).len() == 0 by {
                if i < t.len() {
                    assert(t[i] == fields[i]);
                }
            }
        }
        if forall|i: int|
            0 <= i < fields.len() ==> length_issue(
                store,
                #[trigger] fields[i],
                body_of(e, fields[i].id@).len(),
            ).len() == 0 {
            assert forall|i: int| 0 <= i < t.len() implies length_issue(
                store,
                #[trigger] t[i],
                body_of(e, t[i].id@).len(),
            ).len() == 0 by {
                assert(t[i] == fields[i]);
            }
        }
    }
}

/// Nothing is reported of a document exactly where it meets every rule.
pub proof fn lemma_clean(spec: Spec, doc: Seq<char>, brief: Option<Seq<char>>)
    ensures
        issues(spec, doc, brief).len() == 0 <==> clean(spec, doc, brief),
{
    let e = doc_bodies(spec, doc);
    let copy = copy_text(e);
    let ks = texts(spec.target_keywords@);
    let fields = spec.sections@;
    let test = |s: Section| s.required && body_of(e, s.id@).len() == 0;
    let lists = dedup_words(fields, e);
    lemma_filter_none(fields, test);
    lemma_lengths_clean(spec.store, fields, e);
    lemma_firsts(keywords(ks));
    lemma_coverage(ks, copy);
    lemma_shared_listed(lists);
    let dups = shared_words(lists);
    if dups.len() == 0 {
        assert forall|t: Seq<char>| !#[trigger] shared(lists, t) by {
            assert(!dups.contains(t));
        }
    } else {
        assert(dups.contains(dups[0]));
        assert(shared(lists, dups[0]));
    }
    if issues(spec, doc, brief).len() == 0 {
        assert(missing(fields, e).len() == 0);
        assert(length_issues(spec.store, fields, e).len() == 0);
        assert forall|i: int| 0 <= i < fields.len() implies field_clean(
            spec.store,
            #[trigger] fields[i],
            body_of(e, fields[i].id@).len(),
        ) by {
            assert(!test(fields[i]));
            assert(length_issue(spec.store, fields[i], body_of(e, fields[i].id@).len()).len() == 0);
        }
        assert(clean(spec, doc, brief));
    }
    if clean(spec, doc, brief) {
        assert forall|i: int| 0 <= i < fields.len() implies !test(#[trigger] fields[i]) by {
            assert(field_clean(spec.store, fields[i], body_of(e, fields[i].id@).len()));
        }
        assert(missing(fields, e).len() == 0);
        assert forall|i: int| 0 <= i < fields.len() implies length_issue(
            spec.store,
            #[trigger] fields[i],
            body_of(e, fields[i].id@).len(),
        ).len() == 0 by {
            assert(field_clean(spec.store, fields[i], body_of(e, fields[i].id@).len()));
        }
    }
}

} // verus!
