//! What a store listing has to look like: its fields, its keywords, its scoring criteria.
use crate::checks::{heads, norm_head};
use crate::double::Double;
use crate::pattern::{compiles, is_pattern};
use crate::text::{all_distinct, char_seqs, chars_of, decimal, join, joined, push_decimal, texts};
use vstd::prelude::*;

verus! {

/// Store. Only field composition differs; validation and scoring are shared.
#[derive(Debug, Clone, Copy, PartialEq, Eq, Structural)]
pub enum Store {
    Apple,
    Google,
}

impl Store {
    /// The name of the store.
    pub open spec fn name(self) -> Seq<char> {
        match self {
            Store::Apple => "Apple App Store"@,
            Store::Google => "Google Play"@,
        }
    }

    /// The name of the store.
    pub fn label(&self) -> (r: &'static str)
        ensures
            r@ == self.name(),
    {
        match self {
            Store::Apple => "Apple App Store",
            Store::Google => "Google Play",
        }
    }
}

/// A single listing field (title, subtitle, keywords, promo text, description and the like).
#[derive(Debug, Clone)]
pub struct Section {
    pub id: String,
    /// Display name, matched against the `## Title` headings of a document.
    pub title: String,
    pub guide: String,
    /// Maximum character count enforced by the store (hard limit).
    pub max_chars: usize,
    /// Recommended minimum character count. With 0 no check is performed.
    pub min_chars: usize,
    pub required: bool,
    /// The store removes keywords that this field repeats from another such field, so overlap
    /// with the others is reported.
    pub keyword_dedup_target: bool,
}

/// A scoring criterion.
#[derive(Debug, Clone)]
pub struct Criterion {
    pub id: String,
    pub name: String,
    /// Weight. The weights need not sum up to 1.
    pub weight: Double,
    /// The part that `weight` has in the sum of the weights, in percent, as it is shown: the
    /// number without decimals.
    pub share: String,
    pub guide: String,
}

/// The description of one listing.
#[derive(Debug, Clone)]
pub struct Spec {
    /// App or campaign name.
    pub name: String,
    pub store: Store,
    /// Context such as app overview or tone. Inserted verbatim into the prompts.
    pub context: String,
    /// Notes on the weighting rationale.
    pub scoring_source: String,
    /// Target keywords, used for coverage checks.
    pub target_keywords: Vec<String>,
    /// Banned-term patterns such as competitor names (regular expressions, case ignored).
    pub banned_terms: Vec<String>,
    /// Maximum number of emojis.
    pub emoji_max: usize,
    /// Approach angles for the drafts.
    pub angles: Vec<String>,
    /// Score band descriptors. Empty: the default ones.
    pub bands: Vec<String>,
    pub sections: Vec<Section>,
    pub criteria: Vec<Criterion>,
}

/// Whether a field is required where the description does not say so.
pub fn default_true() -> (r: bool)
    ensures
        r,
{
    true
}

/// How many emojis are allowed where the description does not say so.
pub fn default_emoji_max() -> (r: usize)
    ensures
        r == 3,
{
    3
}

/// Upper bound for the size of a description file, 10 MiB.
pub const MAX_SPEC_FILE_BYTES: u64 = 10_485_760;

/// Why a description is not usable.
#[derive(Debug, Clone)]
pub enum SpecError {
    /// The file has this many bytes, more than `MAX_SPEC_FILE_BYTES`.
    TooLarge(u64),
    NoSections,
    NoCriteria,
    BadWeight,
    ZeroMaxChars,
    DuplicateCriterion,
    DuplicateSection,
    DuplicateTitle,
    /// The banned terms that are no regular expressions.
    BadPatterns(Vec<String>),
}

/// Refuses a file that is too large to be a description.
pub fn check_file_size(bytes: u64) -> (r: Result<(), SpecError>)
    ensures
        match r {
            Ok(()) => bytes <= MAX_SPEC_FILE_BYTES,
            Err(e) => bytes > MAX_SPEC_FILE_BYTES && e == SpecError::TooLarge(bytes),
        },
{
    if bytes <= MAX_SPEC_FILE_BYTES {
        Ok(())
    } else {
        Err(SpecError::TooLarge(bytes))
    }
}

/// The ids of the sections.
pub open spec fn section_ids(s: Seq<Section>) -> Seq<Seq<char>> {
    s.map_values(|x: Section| x.id@)
}

/// The titles of the sections.
pub open spec fn section_titles(s: Seq<Section>) -> Seq<Seq<char>> {
    s.map_values(|x: Section| x.title@)
}

/// The ids of the criteria.
pub open spec fn criterion_ids(c: Seq<Criterion>) -> Seq<Seq<char>> {
    c.map_values(|x: Criterion| x.id@)
}

impl Spec {
    /// Every weight is finite and greater than zero.
    pub open spec fn weights_valid(self) -> bool {
        forall|i: int|
            0 <= i < self.criteria@.len() ==> (#[trigger] self.criteria@[i]).weight.finite()
                && (Double { bits: 0 }).less(self.criteria@[i].weight)
    }

    /// Every field may hold something.
    pub open spec fn limits_valid(self) -> bool {
        forall|i: int| 0 <= i < self.sections@.len() ==> (#[trigger] self.sections@[i]).max_chars > 0
    }

    /// The banned terms that are no regular expressions.
    pub open spec fn bad_patterns(self) -> Seq<Seq<char>> {
        texts(self.banned_terms@).filter(|p: Seq<char>| !compiles(p))
    }

    /// The description can be used, where `titles` are its titles as headings are compared and
    /// `bad` the banned terms that are no regular expressions.
    pub open spec fn valid_with(self, titles: Seq<Seq<char>>, bad: Seq<Seq<char>>) -> bool {
        &&& self.sections@.len() > 0
        &&& self.criteria@.len() > 0
        &&& self.weights_valid()
        &&& self.limits_valid()
        &&& criterion_ids(self.criteria@).no_duplicates()
        &&& section_ids(self.sections@).no_duplicates()
        &&& titles.no_duplicates()
        &&& bad.len() == 0
    }

    /// `e` is the first thing that is wrong with the description, where `titles` are its titles as
    /// headings are compared and `bad` the banned terms that are no regular expressions.
    pub open spec fn fault_with(
        self,
        titles: Seq<Seq<char>>,
        bad: Seq<Seq<char>>,
        e: SpecError,
    ) -> bool {
        match e {
            SpecError::TooLarge(_) => false,
            SpecError::NoSections => self.sections@.len() == 0,
            SpecError::NoCriteria => self.sections@.len() > 0 && self.criteria@.len() == 0,
            SpecError::BadWeight => self.sections@.len() > 0 && !self.weights_valid(),
            SpecError::ZeroMaxChars => {
                &&& self.criteria@.len() > 0
                &&& self.weights_valid()
                &&& !self.limits_valid()
            },
            SpecError::DuplicateCriterion => {
                &&& self.sections@.len() > 0
                &&& self.weights_valid()
                &&& self.limits_valid()
                &&& !criterion_ids(self.criteria@).no_duplicates()
            },
            SpecError::DuplicateSection => {
                &&& self.criteria@.len() > 0
                &&& self.weights_valid()
                &&& self.limits_valid()
                &&& criterion_ids(self.criteria@).no_duplicates()
                &&& !section_ids(self.sections@).no_duplicates()
            },
            SpecError::DuplicateTitle => {
                &&& self.sections@.len() > 0
                &&& self.criteria@.len() > 0
                &&& self.weights_valid()
                &&& self.limits_valid()
                &&& criterion_ids(self.criteria@).no_duplicates()
                &&& section_ids(self.sections@).no_duplicates()
                &&& !titles.no_duplicates()
            },
            SpecError::BadPatterns(found) => {
                &&& self.sections@.len() > 0
                &&& self.criteria@.len() > 0
                &&& self.weights_valid()
                &&& self.limits_valid()
                &&& criterion_ids(self.criteria@).no_duplicates()
                &&& section_ids(self.sections@).no_duplicates()
                &&& titles.no_duplicates()
                &&& bad.len() > 0
                &&& texts(found@) == bad
            },
        }
    }

    /// The description can be used: there are fields and criteria, weights and limits mean
    /// something, no id is given twice, no two titles are the same heading, and every banned term
    /// is a regular expression.
    pub open spec fn valid(self) -> bool {
        self.valid_with(heads(section_titles(self.sections@)), self.bad_patterns())
    }

    /// `e` is the first thing that is wrong with the description.
    pub open spec fn fault(self, e: SpecError) -> bool {
        self.fault_with(heads(section_titles(self.sections@)), self.bad_patterns(), e)
    }

    /// Whether every weight is finite and greater than zero.
    fn has_valid_weights(&self) -> (r: bool)
        ensures
            r == self.weights_valid(),
    {
        let zero = Double { bits: 0 };
        for i in 0..self.criteria.len()
            invariant
                zero == (Double { bits: 0 }),
                forall|j: int|
                    0 <= j < i ==> (#[trigger] self.criteria@[j]).weight.finite() && zero.less(
                        self.criteria@[j].weight,
                    ),
        {
            let w = self.criteria[i].weight;
            if !(w.is_finite() && zero.is_less(w)) {
                return false;
            }
        }
        true
    }

    /// Whether every field may hold something.
    fn has_valid_limits(&self) -> (r: bool)
        ensures
            r == self.limits_valid(),
    {
        for i in 0..self.sections.len()
            invariant
                forall|j: int| 0 <= j < i ==> (#[trigger] self.sections@[j]).max_chars > 0,
        {
            if self.sections[i].max_chars == 0 {
                return false;
            }
        }
        true
    }

    /// The banned terms that are no regular expressions.
    fn patterns_to_refuse(&self) -> (r: Vec<String>)
        ensures
            texts(r@) == self.bad_patterns(),
    {
        let ghost terms = texts(self.banned_terms@);
        let ghost refused = |p: Seq<char>| !compiles(p);
        let mut bad: Vec<String> = Vec::new();
        assert(texts(bad@) =~= terms.take(0).filter(refused)) by {
            reveal(Seq::filter);
        }
        for i in 0..self.banned_terms.len()
            invariant
                terms == texts(self.banned_terms@),
                refused == (|p: Seq<char>| !compiles(p)),
                texts(bad@) == terms.take(i as int).filter(refused),
        {
            let p = self.banned_terms[i].clone();
            assert(terms.take(i + 1) =~= terms.take(i as int).push(terms[i as int]));
            proof {
                terms.take(i as int).lemma_filter_push(terms[i as int], refused);
            }
            let ghost prev = texts(bad@);
            if !is_pattern(p.as_str()) {
                bad.push(p);
                assert(texts(bad@) =~= prev.push(terms[i as int]));
            }
        }
        assert(terms.take(terms.len() as int) =~= terms);
        bad
    }

    /// Checks that the description can be used, where `titles` are its titles as headings are
    /// compared and `bad` the banned terms that are no regular expressions.
    pub fn validate_with(&self, titles: &Vec<String>, bad: Vec<String>) -> (r: Result<
        (),
        SpecError,
    >)
        ensures
            match r {
                Ok(()) => self.valid_with(texts(titles@), texts(bad@)),
                Err(e) => self.fault_with(texts(titles@), texts(bad@), e),
            },
    {
        if self.sections.len() == 0 {
            return Err(SpecError::NoSections);
        }
        if self.criteria.len() == 0 {
            return Err(SpecError::NoCriteria);
        }
        if !self.has_valid_weights() {
            return Err(SpecError::BadWeight);
        }
        if !self.has_valid_limits() {
            return Err(SpecError::ZeroMaxChars);
        }
        let mut ids: Vec<Vec<char>> = Vec::new();
        for i in 0..self.criteria.len()
            invariant
                char_seqs(ids@) == criterion_ids(self.criteria@).take(i as int),
        {
            let ghost prev = char_seqs(ids@);
            ids.push(chars_of(self.criteria[i].id.as_str()));
            assert(char_seqs(ids@) =~= prev.push(self.criteria@[i as int].id@));
        }
        assert(char_seqs(ids@) =~= criterion_ids(self.criteria@));
        if !all_distinct(&ids) {
            return Err(SpecError::DuplicateCriterion);
        }
        let mut names: Vec<Vec<char>> = Vec::new();
        for i in 0..self.sections.len()
            invariant
                char_seqs(names@) == section_ids(self.sections@).take(i as int),
        {
            let ghost prev = char_seqs(names@);
            names.push(chars_of(self.sections[i].id.as_str()));
            assert(char_seqs(names@) =~= prev.push(self.sections@[i as int].id@));
        }
        assert(char_seqs(names@) =~= section_ids(self.sections@));
        if !all_distinct(&names) {
            return Err(SpecError::DuplicateSection);
        }
        let mut keys: Vec<Vec<char>> = Vec::new();
        for i in 0..titles.len()
            invariant
                char_seqs(keys@) == texts(titles@).take(i as int),
        {
            let ghost prev = char_seqs(keys@);
            keys.push(chars_of(titles[i].as_str()));
            assert(char_seqs(keys@) =~= prev.push(texts(titles@)[i as int]));
        }
        assert(char_seqs(keys@) =~= texts(titles@));
        if !all_distinct(&keys) {
            return Err(SpecError::DuplicateTitle);
        }
        assert(texts(bad@).len() == bad@.len());
        if bad.len() > 0 {
            return Err(SpecError::BadPatterns(bad));
        }
        Ok(())
    }

    /// Checks that the description can be used.
    pub fn validate(&self) -> (r: Result<(), SpecError>)
        ensures
            match r {
                Ok(()) => self.valid(),
                Err(e) => self.fault(e),
            },
    {
        let ghost wanted = heads(section_titles(self.sections@));
        let mut titles: Vec<String> = Vec::new();
        for i in 0..self.sections.len()
            invariant
                wanted == heads(section_titles(self.sections@)),
                texts(titles@) == wanted.take(i as int),
        {
            let ghost prev = texts(titles@);
            titles.push(norm_head(self.sections[i].title.as_str()));
            assert(texts(titles@) =~= prev.push(wanted[i as int]));
        }
        assert(texts(titles@) =~= wanted);
        self.validate_with(&titles, self.patterns_to_refuse())
    }
}

impl SpecError {
    /// What is said of the error. `path` names the file.
    pub open spec fn text(self, path: Seq<char>) -> Seq<char> {
        match self {
            SpecError::TooLarge(bytes) => "Spec file too large ("@ + decimal(bytes as nat)
                + " bytes, max "@ + decimal(MAX_SPEC_FILE_BYTES as nat) + " bytes): "@ + path
                + " — not a plausible spec TOML file"@,
            SpecError::NoSections => "sections is empty"@,
            SpecError::NoCriteria => "criteria is empty"@,
            SpecError::BadWeight => "all criteria weights must be finite and greater than 0"@,
            SpecError::ZeroMaxChars => "all sections' max_chars must be greater than 0"@,
            SpecError::DuplicateCriterion => "duplicate criteria id"@,
            SpecError::DuplicateSection => "duplicate section id"@,
            SpecError::DuplicateTitle => "duplicate section title (after normalizing case/punctuation) — field_bodies() would silently alias two sections to the same document body"@,
            SpecError::BadPatterns(bad) =>
                "banned_terms contains regex patterns that fail to compile: "@ + join(
                texts(bad@),
                ", "@,
            ) + " — blocking this upfront since silently ignoring it would remove that banned-term check"@,
        }
    }

    /// What is said of the error. `path` names the file.
    pub fn message(&self, path: &str) -> (r: String)
        ensures
            r@ == self.text(path@),
    {
        match self {
            SpecError::TooLarge(bytes) => {
                let mut out = "Spec file too large (".to_string();
                push_decimal(&mut out, *bytes);
                out.append(" bytes, max ");
                push_decimal(&mut out, MAX_SPEC_FILE_BYTES);
                out.append(" bytes): ");
                out.append(path);
                out.append(" — not a plausible spec TOML file");
                out
            },
            SpecError::NoSections => "sections is empty".to_string(),
            SpecError::NoCriteria => "criteria is empty".to_string(),
            SpecError::BadWeight =>
                "all criteria weights must be finite and greater than 0".to_string(),
            SpecError::ZeroMaxChars => "all sections' max_chars must be greater than 0".to_string(),
            SpecError::DuplicateCriterion => "duplicate criteria id".to_string(),
            SpecError::DuplicateSection => "duplicate section id".to_string(),
            SpecError::DuplicateTitle => "duplicate section title (after normalizing case/punctuation) — field_bodies() would silently alias two sections to the same document body".to_string(),
            SpecError::BadPatterns(bad) => {
                let mut out =
                    "banned_terms contains regex patterns that fail to compile: ".to_string();
                out.append(joined(bad, ", ").as_str());
                out.append(
                    " — blocking this upfront since silently ignoring it would remove that banned-term check",
                );
                out
            },
        }
    }
}

/// The score band descriptors that are used where the description gives none.
pub const DEFAULT_BANDS: [&'static str; 5] = [
    "90~100: Copy that captures both top search visibility and conversion. Target keywords are naturally woven in, the CTA is clear, and there are no policy violations.",
    "75~89: Production-ready level. Core keywords are reflected, but some phrases are flat or the localization isn't smooth.",
    "60~74: Draft level. Has the right structure, but keyword placement is scattered and conversion copy stays generic.",
    "40~59: Needs rework. Keyword reflection is shallow, dominated by spammy listing or clichéd phrases.",
    "0~39: Unusable. Numerous character-count violations or content unrelated to the review criteria.",
];

/// The score band descriptors that are used where the description gives none.
pub open spec fn default_band_texts() -> Seq<Seq<char>> {
    DEFAULT_BANDS@.map_values(|s: &'static str| s@)
}

/// The score band descriptors that are used where the description gives none.
fn default_bands() -> (r: Vec<String>)
    ensures
        texts(r@) == default_band_texts(),
{
    let mut out: Vec<String> = Vec::new();
    for i in 0..5
        invariant
            texts(out@) == default_band_texts().take(i as int),
    {
        let ghost prev = texts(out@);
        out.push(DEFAULT_BANDS[i].to_string());
        assert(texts(out@) =~= prev.push(default_band_texts()[i as int]));
    }
    assert(default_band_texts().take(5) =~= default_band_texts());
    out
}

impl Section {
    /// What a model is told about the field.
    pub open spec fn instruction(self) -> Seq<char> {
        "## "@ + self.title@ + "\n- Writing guide: "@ + self.guide@ + "\n- Max "@ + decimal(
            self.max_chars as nat,
        ) + " chars"@ + (if self.min_chars > 0 {
            " (recommended "@ + decimal(self.min_chars as nat) + " chars or more)"@
        } else {
            seq![]
        }) + (if self.required {
            "\n- Required field"@
        } else {
            "\n- Optional field (may be left empty)"@
        })
    }

    /// What a model is told about the field.
    fn prompt(&self) -> (r: String)
        ensures
            r@ == self.instruction(),
    {
        let mut line = "## ".to_string();
        line.append(self.title.as_str());
        line.append("\n- Writing guide: ");
        line.append(self.guide.as_str());
        line.append("\n- Max ");
        push_decimal(&mut line, self.max_chars as u64);
        line.append(" chars");
        let ghost upto = line@;
        if self.min_chars > 0 {
            let mut more = " (recommended ".to_string();
            push_decimal(&mut more, self.min_chars as u64);
            more.append(" chars or more)");
            line.append(more.as_str());
        } else {
            assert(upto + Seq::<char>::empty() =~= upto);
        }
        if self.required {
            line.append("\n- Required field");
        } else {
            line.append("\n- Optional field (may be left empty)");
        }
        line
    }
}

impl Criterion {
    /// What a model is told about the criterion.
    pub open spec fn instruction(self) -> Seq<char> {
        "- id=\""@ + self.id@ + "\" | "@ + self.name@ + " (weight "@ + self.share@ + "%) : "@
            + self.guide@
    }

    /// What a model is told about the criterion.
    fn prompt(&self) -> (r: String)
        ensures
            r@ == self.instruction(),
    {
        let mut line = "- id=\"".to_string();
        line.append(self.id.as_str());
        line.append("\" | ");
        line.append(self.name.as_str());
        line.append(" (weight ");
        line.append(self.share.as_str());
        line.append("%) : ");
        line.append(self.guide.as_str());
        line
    }
}

impl Spec {
    /// The score bands, one to a line.
    pub open spec fn bands_text(self) -> Seq<char> {
        if self.bands@.len() == 0 {
            join(default_band_texts(), "\n"@)
        } else {
            join(texts(self.bands@), "\n"@)
        }
    }

    /// The score bands, one to a line: the given ones, or the default ones where none is given.
    pub fn bands_prompt(&self) -> (r: String)
        ensures
            r@ == self.bands_text(),
    {
        if self.bands.len() == 0 {
            joined(&default_bands(), "\n")
        } else {
            joined(&self.bands, "\n")
        }
    }

    /// What a model is told about the fields.
    pub open spec fn sections_text(self) -> Seq<char> {
        join(self.sections@.map_values(|s: Section| s.instruction()), "\n\n"@)
    }

    /// What a model is told about the fields, an empty line between two of them.
    pub fn sections_prompt(&self) -> (r: String)
        ensures
            r@ == self.sections_text(),
    {
        let ghost wanted = self.sections@.map_values(|s: Section| s.instruction());
        let mut parts: Vec<String> = Vec::new();
        for i in 0..self.sections.len()
            invariant
                wanted == self.sections@.map_values(|s: Section| s.instruction()),
                texts(parts@) == wanted.take(i as int),
        {
            let ghost prev = texts(parts@);
            parts.push(self.sections[i].prompt());
            assert(texts(parts@) =~= prev.push(wanted[i as int]));
        }
        assert(wanted.take(self.sections@.len() as int) =~= wanted);
        joined(&parts, "\n\n")
    }

    /// What a model is told about the criteria.
    pub open spec fn rubric_text(self) -> Seq<char> {
        join(self.criteria@.map_values(|c: Criterion| c.instruction()), "\n"@)
    }

    /// What a model is told about the criteria, one to a line.
    pub fn rubric_prompt(&self) -> (r: String)
        ensures
            r@ == self.rubric_text(),
    {
        let ghost wanted = self.criteria@.map_values(|c: Criterion| c.instruction());
        let mut parts: Vec<String> = Vec::new();
        for i in 0..self.criteria.len()
            invariant
                wanted == self.criteria@.map_values(|c: Criterion| c.instruction()),
                texts(parts@) == wanted.take(i as int),
        {
            let ghost prev = texts(parts@);
            parts.push(self.criteria[i].prompt());
            assert(texts(parts@) =~= prev.push(wanted[i as int]));
        }
        assert(wanted.take(self.criteria@.len() as int) =~= wanted);
        joined(&parts, "\n")
    }

    /// The target keywords as a list.
    pub open spec fn keywords_text(self) -> Seq<char> {
        if self.target_keywords@.len() == 0 {
            "(no target keywords specified)"@
        } else {
            join(texts(self.target_keywords@), ", "@)
        }
    }

    /// The target keywords as a list, or a note that there are none.
    pub fn keywords_prompt(&self) -> (r: String)
        ensures
            r@ == self.keywords_text(),
    {
        if self.target_keywords.len() == 0 {
            "(no target keywords specified)".to_string()
        } else {
            joined(&self.target_keywords, ", ")
        }
    }
}

/// A description that can be used has no fault, and what is said of a fault is always the same: no
/// two faults are the first.
pub proof fn lemma_faults(spec: Spec, a: SpecError, b: SpecError, path: Seq<char>)
    requires
        spec.fault(a),
    ensures
        !spec.valid(),
        spec.fault(b) ==> a.text(path) == b.text(path),
{
}

} // verus!
