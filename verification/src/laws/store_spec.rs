//! Laws of descriptions: which of them can be used, what is wrong with the others, and what models
//! are told about them.
use crate::checks::{head, heads};
use crate::double::{INFINITE, Double};
use crate::laws::text::{lemma_glued, lemma_glued_push, lemma_part_joined, lemma_stands};
use crate::pattern::compiles;
use crate::store_spec::{
    criterion_ids, default_band_texts, section_ids, section_titles, DEFAULT_BANDS,
    MAX_SPEC_FILE_BYTES, Criterion, Section, Spec, SpecError,
};
use crate::text::{decimal, join, lemma_occurs_within, occurs, texts};
use vstd::prelude::*;

verus! {

/// The weight of criterion `i` is no positive number, or infinite.
pub open spec fn bad_weight(spec: Spec, i: int) -> bool {
    0 <= i < spec.criteria@.len() && !(0 < spec.criteria@[i].weight.bits < INFINITE)
}

/// Field `i` may hold nothing.
pub open spec fn no_room(spec: Spec, i: int) -> bool {
    0 <= i < spec.sections@.len() && spec.sections@[i].max_chars == 0
}

/// The criteria `i` and `j` have the same id.
pub open spec fn same_criterion(spec: Spec, i: int, j: int) -> bool {
    0 <= i < j < spec.criteria@.len() && spec.criteria@[i].id@ == spec.criteria@[j].id@
}

/// The fields `i` and `j` have the same id.
pub open spec fn same_section(spec: Spec, i: int, j: int) -> bool {
    0 <= i < j < spec.sections@.len() && spec.sections@[i].id@ == spec.sections@[j].id@
}

/// The titles of the fields `i` and `j` are the same heading.
pub open spec fn same_title(spec: Spec, i: int, j: int) -> bool {
    0 <= i < j < spec.sections@.len() && head(spec.sections@[i].title@) == head(
        spec.sections@[j].title@,
    )
}

/// Banned term `i` is no regular expression.
pub open spec fn bad_term(spec: Spec, i: int) -> bool {
    0 <= i < spec.banned_terms@.len() && !compiles(spec.banned_terms@[i]@)
}

/// The conditions that a description is checked for, one by one.
proof fn lemma_conditions(spec: Spec)
    ensures
        spec.weights_valid() <==> !exists|i: int| bad_weight(spec, i),
        spec.limits_valid() <==> !exists|i: int| no_room(spec, i),
        criterion_ids(spec.criteria@).no_duplicates() <==> !exists|i: int, j: int|
            same_criterion(spec, i, j),
        section_ids(spec.sections@).no_duplicates() <==> !exists|i: int, j: int|
            same_section(spec, i, j),
        heads(section_titles(spec.sections@)).no_duplicates() <==> !exists|i: int, j: int|
            same_title(spec, i, j),
        spec.bad_patterns().len() == 0 <==> !exists|i: int| bad_term(spec, i),
{
    let cs = criterion_ids(spec.criteria@);
    let ss = section_ids(spec.sections@);
    let hs = heads(section_titles(spec.sections@));
    if spec.weights_valid() {
        assert forall|i: int| !bad_weight(spec, i) by {
            if 0 <= i < spec.criteria@.len() {
                assert(spec.criteria@[i].weight.finite());
            }
        }
    } else {
        let i = choose|i: int|
            0 <= i < spec.criteria@.len() && !((#[trigger] spec.criteria@[i]).weight.finite() && (
            Double { bits: 0 }).less(spec.criteria@[i].weight));
        assert(bad_weight(spec, i));
    }
    if spec.limits_valid() {
        assert forall|i: int| !no_room(spec, i) by {
            if 0 <= i < spec.sections@.len() {
                assert(spec.sections@[i].max_chars > 0);
            }
        }
    } else {
        let i = choose|i: int|
            0 <= i < spec.sections@.len() && (#[trigger] spec.sections@[i]).max_chars == 0;
        assert(no_room(spec, i));
    }
    lemma_twice(cs);
    lemma_twice(ss);
    lemma_twice(hs);
    if exists|i: int, j: int| twice(cs, i, j) {
        let (i, j) = choose|i: int, j: int| twice(cs, i, j);
        assert(same_criterion(spec, i, j));
    }
    if exists|i: int, j: int| same_criterion(spec, i, j) {
        let (i, j) = choose|i: int, j: int| same_criterion(spec, i, j);
        assert(twice(cs, i, j));
    }
    if exists|i: int, j: int| twice(ss, i, j) {
        let (i, j) = choose|i: int, j: int| twice(ss, i, j);
        assert(same_section(spec, i, j));
    }
    if exists|i: int, j: int| same_section(spec, i, j) {
        let (i, j) = choose|i: int, j: int| same_section(spec, i, j);
        assert(twice(ss, i, j));
    }
    if exists|i: int, j: int| twice(hs, i, j) {
        let (i, j) = choose|i: int, j: int| twice(hs, i, j);
        assert(same_title(spec, i, j));
    }
    if exists|i: int, j: int| same_title(spec, i, j) {
        let (i, j) = choose|i: int, j: int| same_title(spec, i, j);
        assert(twice(hs, i, j));
    }
    let terms = texts(spec.banned_terms@);
    let bad = |p: Seq<char>| !compiles(p);
    if spec.bad_patterns().len() > 0 {
        terms.lemma_filter_pred(bad, 0);
        let x = terms.filter(bad)[0];
        assert(terms.filter(bad).contains(x));
        terms.lemma_filter_contains_rev(bad, x);
        let i = terms.index_of(x);
        assert(bad_term(spec, i));
    }
    if exists|i: int| bad_term(spec, i) {
        let i = choose|i: int| bad_term(spec, i);
        assert(bad(terms[i]));
        terms.lemma_filter_contains(bad, i);
    }
}

/// The same text stands at `i` and at `j`.
spec fn twice(s: Seq<Seq<char>>, i: int, j: int) -> bool {
    0 <= i < j < s.len() && s[i] == s[j]
}

proof fn lemma_twice(s: Seq<Seq<char>>)
    ensures
        s.no_duplicates() <==> !exists|i: int, j: int| twice(s, i, j),
{
    if !exists|i: int, j: int| twice(s, i, j) {
        assert forall|a: int, b: int| 0 <= a < s.len() && 0 <= b < s.len() && a != b implies s[a]
            != s[b] by {
            assert(!twice(s, a, b) && !twice(s, b, a));
        }
    }
    if exists|i: int, j: int| twice(s, i, j) {
        let (i, j) = choose|i: int, j: int| twice(s, i, j);
        assert(s[i] == s[j]);
    }
}

/// A description can be used exactly where there are fields and criteria, every weight is a
/// positive finite number, every field may hold something, no id is given twice, no two titles are
/// the same heading, and every banned term is a regular expression.
pub proof fn lemma_valid(spec: Spec)
    ensures
        spec.valid() <==> {
            &&& spec.sections@.len() > 0
            &&& spec.criteria@.len() > 0
            &&& !exists|i: int| bad_weight(spec, i)
            &&& !exists|i: int| no_room(spec, i)
            &&& !exists|i: int, j: int| same_criterion(spec, i, j)
            &&& !exists|i: int, j: int| same_section(spec, i, j)
            &&& !exists|i: int, j: int| same_title(spec, i, j)
            &&& !exists|i: int| bad_term(spec, i)
        },
{
    lemma_conditions(spec);
}

/// What is wrong is named by the first condition that is not met: fields, criteria, weights,
/// limits, the ids of the criteria, the ids of the fields, titles, banned terms.
pub proof fn lemma_fault(spec: Spec, e: SpecError)
    requires
        spec.fault(e),
    ensures
        e is NoSections || spec.sections@.len() > 0,
        e is NoSections || e is NoCriteria || spec.criteria@.len() > 0,
        match e {
            SpecError::TooLarge(_) => false,
            SpecError::NoSections => spec.sections@.len() == 0,
            SpecError::NoCriteria => spec.criteria@.len() == 0,
            SpecError::BadWeight => exists|i: int| bad_weight(spec, i),
            SpecError::ZeroMaxChars => {
                &&& !exists|i: int| bad_weight(spec, i)
                &&& exists|i: int| no_room(spec, i)
            },
            SpecError::DuplicateCriterion => {
                &&& !exists|i: int| bad_weight(spec, i)
                &&& !exists|i: int| no_room(spec, i)
                &&& exists|i: int, j: int| same_criterion(spec, i, j)
            },
            SpecError::DuplicateSection => {
                &&& !exists|i: int| bad_weight(spec, i)
                &&& !exists|i: int| no_room(spec, i)
                &&& !exists|i: int, j: int| same_criterion(spec, i, j)
                &&& exists|i: int, j: int| same_section(spec, i, j)
            },
            SpecError::DuplicateTitle => {
                &&& !exists|i: int| bad_weight(spec, i)
                &&& !exists|i: int| no_room(spec, i)
                &&& !exists|i: int, j: int| same_criterion(spec, i, j)
                &&& !exists|i: int, j: int| same_section(spec, i, j)
                &&& exists|i: int, j: int| same_title(spec, i, j)
            },
            SpecError::BadPatterns(found) => {
                &&& !exists|i: int| bad_weight(spec, i)
                &&& !exists|i: int| no_room(spec, i)
                &&& !exists|i: int, j: int| same_criterion(spec, i, j)
                &&& !exists|i: int, j: int| same_section(spec, i, j)
                &&& !exists|i: int, j: int| same_title(spec, i, j)
                &&& exists|i: int| bad_term(spec, i)
            },
        },
{
    lemma_conditions(spec);
    if e is BadWeight {
        let i = choose|i: int| bad_weight(spec, i);
        assert(bad_weight(spec, i));
    }
    if e is ZeroMaxChars {
        let i = choose|i: int| no_room(spec, i);
        assert(no_room(spec, i));
    }
    if e is DuplicateCriterion {
        let (i, j) = choose|i: int, j: int| same_criterion(spec, i, j);
        assert(same_criterion(spec, i, j));
    }
    if e is DuplicateSection {
        let (i, j) = choose|i: int, j: int| same_section(spec, i, j);
        assert(same_section(spec, i, j));
    }
}

/// The banned terms that are refused are all that are no regular expressions, in their order.
pub proof fn lemma_refused(spec: Spec, found: Vec<String>, p: Seq<char>)
    requires
        spec.fault(SpecError::BadPatterns(found)),
    ensures
        texts(found@).contains(p) <==> texts(spec.banned_terms@).contains(p) && !compiles(p),
{
    let terms = texts(spec.banned_terms@);
    let bad = |x: Seq<char>| !compiles(x);
    if texts(found@).contains(p) {
        terms.lemma_filter_pred(bad, terms.filter(bad).index_of(p));
        terms.lemma_filter_contains_rev(bad, p);
    }
    if terms.contains(p) && bad(p) {
        terms.lemma_filter_contains(bad, terms.index_of(p));
    }
}

/// A model is told a field's title, its guide, its limit, the recommended length where there is
/// one, and whether the field is required.
pub proof fn lemma_section_told(s: Section)
    ensures
        occurs("## "@ + s.title@ + "\n"@, s.instruction()),
        occurs(s.guide@, s.instruction()),
        occurs("- Max "@ + decimal(s.max_chars as nat) + " chars"@, s.instruction()),
        s.min_chars > 0 ==> occurs(
            " (recommended "@ + decimal(s.min_chars as nat) + " chars or more)"@,
            s.instruction(),
        ),
        s.required ==> occurs("\n- Required field"@, s.instruction()),
        !s.required ==> occurs("\n- Optional field (may be left empty)"@, s.instruction()),
{
    let none = Seq::<Seq<char>>::empty();
    let least = if s.min_chars > 0 {
        " (recommended "@ + decimal(s.min_chars as nat) + " chars or more)"@
    } else {
        Seq::<char>::empty()
    };
    let need = if s.required {
        "\n- Required field"@
    } else {
        "\n- Optional field (may be left empty)"@
    };
    let p1 = none.push("## "@);
    lemma_glued_push(none, "## "@);
    let p2 = p1.push(s.title@);
    lemma_glued_push(p1, s.title@);
    let p3 = p2.push("\n- Writing guide: "@);
    lemma_glued_push(p2, "\n- Writing guide: "@);
    let p4 = p3.push(s.guide@);
    lemma_glued_push(p3, s.guide@);
    let p5 = p4.push("\n- Max "@);
    lemma_glued_push(p4, "\n- Max "@);
    let p6 = p5.push(decimal(s.max_chars as nat));
    lemma_glued_push(p5, decimal(s.max_chars as nat));
    let p7 = p6.push(" chars"@);
    lemma_glued_push(p6, " chars"@);
    let p8 = p7.push(least);
    lemma_glued_push(p7, least);
    let p9 = p8.push(need);
    lemma_glued_push(p8, need);
    assert(p9[3] == s.guide@);
    lemma_glued(p9, 3);
    assert(p9[7] == least);
    lemma_glued(p9, 7);
    assert(p9[8] == need);
    lemma_glued(p9, 8);
    lemma_section_front(s, least, need);
}

proof fn lemma_section_front(s: Section, least: Seq<char>, need: Seq<char>)
    ensures
        occurs(
            "## "@ + s.title@ + "\n"@,
            "## "@ + s.title@ + "\n- Writing guide: "@ + s.guide@ + "\n- Max "@ + decimal(
                s.max_chars as nat,
            ) + " chars"@ + least + need,
        ),
        occurs(
            "- Max "@ + decimal(s.max_chars as nat) + " chars"@,
            "## "@ + s.title@ + "\n- Writing guide: "@ + s.guide@ + "\n- Max "@ + decimal(
                s.max_chars as nat,
            ) + " chars"@ + least + need,
        ),
{
    let all = "## "@ + s.title@ + "\n- Writing guide: "@ + s.guide@ + "\n- Max "@ + decimal(
        s.max_chars as nat,
    ) + " chars"@ + least + need;
    reveal_strlit("\n");
    reveal_strlit("\n- Writing guide: ");
    reveal_strlit("\n- Max ");
    reveal_strlit("- Max ");
    let d = decimal(s.max_chars as nat);
    let front = "## "@ + s.title@ + "\n"@;
    let rest = "\n- Writing guide: "@.drop_first() + s.guide@ + "\n- Max "@ + d + " chars"@ + least
        + need;
    assert(all =~= Seq::<char>::empty() + front + rest);
    lemma_stands(seq![], front, rest);
    let a = "## "@ + s.title@ + "\n- Writing guide: "@ + s.guide@ + "\n"@;
    let m = "- Max "@ + d + " chars"@;
    assert("\n- Max "@ =~= "\n"@ + "- Max "@);
    assert(all =~= a + m + (least + need));
    lemma_stands(a, m, least + need);
}

/// A model is told a criterion's id, name, share and guide.
pub proof fn lemma_criterion_told(c: Criterion)
    ensures
        occurs(c.id@, c.instruction()),
        occurs(c.name@, c.instruction()),
        occurs(c.share@, c.instruction()),
        occurs(c.guide@, c.instruction()),
{
    let none = Seq::<Seq<char>>::empty();
    let p1 = none.push("- id=\""@);
    lemma_glued_push(none, "- id=\""@);
    let p2 = p1.push(c.id@);
    lemma_glued_push(p1, c.id@);
    let p3 = p2.push("\" | "@);
    lemma_glued_push(p2, "\" | "@);
    let p4 = p3.push(c.name@);
    lemma_glued_push(p3, c.name@);
    let p5 = p4.push(" (weight "@);
    lemma_glued_push(p4, " (weight "@);
    let p6 = p5.push(c.share@);
    lemma_glued_push(p5, c.share@);
    let p7 = p6.push("%) : "@);
    lemma_glued_push(p6, "%) : "@);
    let p8 = p7.push(c.guide@);
    lemma_glued_push(p7, c.guide@);
    assert(p8[1] == c.id@);
    lemma_glued(p8, 1);
    assert(p8[3] == c.name@);
    lemma_glued(p8, 3);
    assert(p8[5] == c.share@);
    lemma_glued(p8, 5);
    assert(p8[7] == c.guide@);
    lemma_glued(p8, 7);
}

/// A model is told about every field, every criterion and every keyword, and every band that the
/// description gives, or else every default one.
pub proof fn lemma_told(spec: Spec, i: int)
    ensures
        0 <= i < spec.sections@.len() ==> occurs(
            spec.sections@[i].instruction(),
            spec.sections_text(),
        ),
        0 <= i < spec.criteria@.len() ==> occurs(
            spec.criteria@[i].instruction(),
            spec.rubric_text(),
        ),
        0 <= i < spec.target_keywords@.len() ==> occurs(
            spec.target_keywords@[i]@,
            spec.keywords_text(),
        ),
        0 <= i < spec.bands@.len() ==> occurs(spec.bands@[i]@, spec.bands_text()),
        spec.bands@.len() == 0 && 0 <= i < 5 ==> occurs(DEFAULT_BANDS@[i]@, spec.bands_text()),
{
    if 0 <= i < spec.sections@.len() {
        let all = spec.sections@.map_values(|s: Section| s.instruction());
        lemma_part_joined(all, "\n\n"@, i);
    }
    if 0 <= i < spec.criteria@.len() {
        let all = spec.criteria@.map_values(|c: Criterion| c.instruction());
        lemma_part_joined(all, "\n"@, i);
    }
    if 0 <= i < spec.target_keywords@.len() {
        assert(texts(spec.target_keywords@)[i] == spec.target_keywords@[i]@);
        lemma_part_joined(texts(spec.target_keywords@), ", "@, i);
    }
    if 0 <= i < spec.bands@.len() {
        assert(texts(spec.bands@)[i] == spec.bands@[i]@);
        lemma_part_joined(texts(spec.bands@), "\n"@, i);
    }
    if spec.bands@.len() == 0 && 0 <= i < 5 {
        assert(default_band_texts()[i] == DEFAULT_BANDS@[i]@);
        lemma_part_joined(default_band_texts(), "\n"@, i);
    }
}


/// A file of up to ten mebibytes may be a description.
pub proof fn lemma_file_size()
    ensures
        MAX_SPEC_FILE_BYTES == 10 * 1024 * 1024,
{
}

/// A file that is too large is named with its size and the limit, and every banned term that is
/// refused is named.
pub proof fn lemma_error_text(bytes: u64, path: Seq<char>, bad: Vec<String>, i: int)
    ensures
        occurs(decimal(bytes as nat), SpecError::TooLarge(bytes).text(path)),
        occurs(decimal(MAX_SPEC_FILE_BYTES as nat), SpecError::TooLarge(bytes).text(path)),
        occurs(path, SpecError::TooLarge(bytes).text(path)),
        0 <= i < bad@.len() ==> occurs(bad@[i]@, SpecError::BadPatterns(bad).text(path)),
{
    let none = Seq::<Seq<char>>::empty();
    let p1 = none.push("Spec file too large ("@);
    lemma_glued_push(none, "Spec file too large ("@);
    let p2 = p1.push(decimal(bytes as nat));
    lemma_glued_push(p1, decimal(bytes as nat));
    let p3 = p2.push(" bytes, max "@);
    lemma_glued_push(p2, " bytes, max "@);
    let p4 = p3.push(decimal(MAX_SPEC_FILE_BYTES as nat));
    lemma_glued_push(p3, decimal(MAX_SPEC_FILE_BYTES as nat));
    let p5 = p4.push(" bytes): "@);
    lemma_glued_push(p4, " bytes): "@);
    let p6 = p5.push(path);
    lemma_glued_push(p5, path);
    let p7 = p6.push(" — not a plausible spec TOML file"@);
    lemma_glued_push(p6, " — not a plausible spec TOML file"@);
    assert(p7[1] == decimal(bytes as nat));
    lemma_glued(p7, 1);
    assert(p7[3] == decimal(MAX_SPEC_FILE_BYTES as nat));
    lemma_glued(p7, 3);
    assert(p7[5] == path);
    lemma_glued(p7, 5);
    let q1 = none.push("banned_terms contains regex patterns that fail to compile: "@);
    lemma_glued_push(none, "banned_terms contains regex patterns that fail to compile: "@);
    let q2 = q1.push(join(texts(bad@), ", "@));
    lemma_glued_push(q1, join(texts(bad@), ", "@));
    let q3 = q2.push(" — blocking this upfront since silently ignoring it would remove that banned-term check"@);
    lemma_glued_push(q2, " — blocking this upfront since silently ignoring it would remove that banned-term check"@);
    assert(q3[1] == join(texts(bad@), ", "@));
    lemma_glued(q3, 1);
    if 0 <= i < bad@.len() {
        assert(texts(bad@)[i] == bad@[i]@);
        lemma_part_joined(texts(bad@), ", "@, i);
        lemma_occurs_within(
            bad@[i]@,
            join(texts(bad@), ", "@),
            SpecError::BadPatterns(bad).text(path),
        );
    }
}

/// Keywords are told with a comma between two of them, bands and criteria one to a line, fields
/// with an empty line between two of them. Where there are no keywords, that is told.
pub proof fn lemma_told_parts(spec: Spec)
    ensures
        spec.target_keywords@.len() == 0 ==> spec.keywords_text()
            == "(no target keywords specified)"@,
        spec.target_keywords@.len() > 0 ==> spec.keywords_text() == join(
            Seq::new(spec.target_keywords@.len(), |i: int| spec.target_keywords@[i]@),
            ", "@,
        ),
        spec.bands@.len() > 0 ==> spec.bands_text() == join(
            Seq::new(spec.bands@.len(), |i: int| spec.bands@[i]@),
            "\n"@,
        ),
        spec.rubric_text() == join(
            Seq::new(spec.criteria@.len(), |i: int| spec.criteria@[i].instruction()),
            "\n"@,
        ),
        spec.sections_text() == join(
            Seq::new(spec.sections@.len(), |i: int| spec.sections@[i].instruction()),
            "\n\n"@,
        ),
{
    assert(texts(spec.target_keywords@) =~= Seq::new(
        spec.target_keywords@.len(),
        |i: int| spec.target_keywords@[i]@,
    ));
    assert(texts(spec.bands@) =~= Seq::new(spec.bands@.len(), |i: int| spec.bands@[i]@));
    assert(spec.criteria@.map_values(|c: Criterion| c.instruction()) =~= Seq::new(
        spec.criteria@.len(),
        |i: int| spec.criteria@[i].instruction(),
    ));
    assert(spec.sections@.map_values(|s: Section| s.instruction()) =~= Seq::new(
        spec.sections@.len(),
        |i: int| spec.sections@[i].instruction(),
    ));
}

} // verus!
