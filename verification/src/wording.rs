//! What the patterns of phrases say: the phrases that each of them is to find, stated apart from
//! the notation of regular expressions. Texts of ASCII characters and Hangul syllables are meant;
//! of other scripts nothing is said here.
use crate::phrases::{bare_word, claim_patterns, price_patterns, superlative_patterns};
use crate::text::{ascii_alphanumeric, ascii_lower, white_space};
use vstd::prelude::*;

verus! {

/// A Hangul syllable.
pub open spec fn hangul(c: char) -> bool {
    '가' <= c <= '힣'
}

/// A decimal digit.
pub open spec fn is_digit(c: char) -> bool {
    '0' <= c <= '9'
}

/// A character that words are made of.
pub open spec fn word_char(c: char) -> bool {
    ascii_alphanumeric(c) || c == '_' || hangul(c)
}

/// The same text, where the case of a letter does not matter.
pub open spec fn same_letters(a: Seq<char>, b: Seq<char>) -> bool {
    &&& a.len() == b.len()
    &&& forall|i: int| 0 <= i < a.len() ==> ascii_lower(#[trigger] a[i]) == ascii_lower(b[i])
}

/// The same text as one of several, where the case of a letter does not matter.
pub open spec fn one_of(ws: Seq<Seq<char>>, t: Seq<char>) -> bool {
    exists|n: int| 0 <= n < ws.len() && same_letters(t, #[trigger] ws[n])
}

/// A kind of characters.
pub enum Kind {
    Digit,
    NotDigit,
    Space,
    DigitOrComma,
    NotHangul,
    Dot,
}

impl Kind {
    /// The characters of the kind.
    pub open spec fn holds(self, c: char) -> bool {
        match self {
            Kind::Digit => is_digit(c),
            Kind::NotDigit => !is_digit(c),
            Kind::Space => white_space(c),
            Kind::DigitOrComma => is_digit(c) || c == ',',
            Kind::NotHangul => !hangul(c),
            Kind::Dot => c == '.',
        }
    }

    /// How a pattern asks for one of them.
    pub open spec fn notation(self) -> Seq<char> {
        match self {
            Kind::Digit => r"\d"@,
            Kind::NotDigit => r"\D"@,
            Kind::Space => r"\s"@,
            Kind::DigitOrComma => r"[\d,]"@,
            Kind::NotHangul => "[^가-힣]"@,
            Kind::Dot => r"\."@,
        }
    }
}

/// A part of a pattern.
pub enum Piece {
    /// This text, where the case of a letter does not matter.
    Word(Seq<char>),
    /// One of several texts.
    OneOf(Seq<Seq<char>>),
    /// One of several texts, or nothing.
    MaybeOneOf(Seq<Seq<char>>),
    /// One character.
    One(Kind),
    /// One character or none.
    Maybe(Kind),
    /// Any number of characters.
    Any(Kind),
    /// Any number of characters, at least one.
    Many(Kind),
    /// Nothing, at the start or the end of a word.
    Edge,
    /// The start of the text, or one character.
    StartOr(Kind),
    /// One character, or the end of the text.
    OrEnd(Kind),
}

/// A position has a character of a word on one side and none on the other.
pub open spec fn edge(s: Seq<char>, i: int) -> bool {
    (i > 0 && word_char(s[i - 1])) != (i < s.len() && word_char(s[i]))
}

impl Piece {
    /// The piece fits what stands in `s` from `i` up to `j`.
    pub open spec fn fits(self, s: Seq<char>, i: int, j: int) -> bool {
        &&& 0 <= i <= j <= s.len()
        &&& match self {
            Piece::Word(w) => same_letters(s.subrange(i, j), w),
            Piece::OneOf(ws) => one_of(ws, s.subrange(i, j)),
            Piece::MaybeOneOf(ws) => i == j || one_of(ws, s.subrange(i, j)),
            Piece::One(k) => j == i + 1 && k.holds(s[i]),
            Piece::Maybe(k) => i == j || (j == i + 1 && k.holds(s[i])),
            Piece::Any(k) => forall|n: int| i <= n < j ==> k.holds(#[trigger] s[n]),
            Piece::Many(k) => i < j && forall|n: int| i <= n < j ==> k.holds(#[trigger] s[n]),
            Piece::Edge => i == j && edge(s, i),
            Piece::StartOr(k) => (i == j && i == 0) || (j == i + 1 && k.holds(s[i])),
            Piece::OrEnd(k) => (i == j && j == s.len()) || (j == i + 1 && k.holds(s[i])),
        }
    }

    /// How a pattern asks for it.
    pub open spec fn notation(self) -> Seq<char> {
        match self {
            Piece::Word(w) => quoted(w),
            Piece::OneOf(ws) => "("@ + alternatives(ws) + ")"@,
            Piece::MaybeOneOf(ws) => "("@ + alternatives(ws) + ")?"@,
            Piece::One(k) => k.notation(),
            Piece::Maybe(k) => k.notation() + "?"@,
            Piece::Any(k) => k.notation() + "*"@,
            Piece::Many(k) => k.notation() + "+"@,
            Piece::Edge => r"\b"@,
            Piece::StartOr(k) => "(?:^|"@ + k.notation() + ")"@,
            Piece::OrEnd(k) => "(?:"@ + k.notation() + "|$)"@,
        }
    }
}

/// A character that stands for something else in a pattern.
pub open spec fn special(c: char) -> bool {
    r"\.+*?()|[]{}^$"@.contains(c)
}

/// A text as a pattern asks for it.
pub open spec fn quoted(w: Seq<char>) -> Seq<char>
    decreases w.len(),
{
    if w.len() == 0 {
        seq![]
    } else if special(w.last()) {
        quoted(w.drop_last()) + seq!['\\', w.last()]
    } else {
        quoted(w.drop_last()).push(w.last())
    }
}

/// Texts of which a pattern asks for one.
pub open spec fn alternatives(ws: Seq<Seq<char>>) -> Seq<char>
    decreases ws.len(),
{
    if ws.len() == 0 {
        seq![]
    } else if ws.len() == 1 {
        quoted(ws[0])
    } else {
        alternatives(ws.drop_last()) + "|"@ + quoted(ws.last())
    }
}

/// A pattern made of these pieces.
pub open spec fn notation(ps: Seq<Piece>) -> Seq<char>
    decreases ps.len(),
{
    if ps.len() == 0 {
        seq![]
    } else {
        notation(ps.drop_last()) + ps.last().notation()
    }
}

/// The pieces fit what stands in `s` between the positions, one after the other.
pub open spec fn fit_at(ps: Seq<Piece>, s: Seq<char>, at: Seq<int>) -> bool {
    &&& at.len() == ps.len() + 1
    &&& forall|n: int| 0 <= n < ps.len() ==> (#[trigger] ps[n]).fits(s, at[n], at[n + 1])
}

/// Something that stands in `s` fits the pieces.
pub open spec fn found_in(ps: Seq<Piece>, s: Seq<char>) -> bool {
    exists|at: Seq<int>| fit_at(ps, s, at)
}

/// One of the patterns, as its pieces say, finds something in `s`.
pub open spec fn any_found(all: Seq<Seq<Piece>>, s: Seq<char>) -> bool {
    exists|n: int| 0 <= n < all.len() && found_in(#[trigger] all[n], s)
}

/// What may not stand beside a phrase.
pub enum Beside {
    Nothing,
    WordChar,
    Digit,
    Hangul,
}

impl Beside {
    /// `c` may stand beside the phrase.
    pub open spec fn allows(self, c: char) -> bool {
        match self {
            Beside::Nothing => true,
            Beside::WordChar => !word_char(c),
            Beside::Digit => !is_digit(c),
            Beside::Hangul => !hangul(c),
        }
    }

    /// What stands before position `i` may stand there.
    pub open spec fn before(self, s: Seq<char>, i: int) -> bool {
        i == 0 || self.allows(s[i - 1])
    }

    /// What stands at position `j` may stand there.
    pub open spec fn behind(self, s: Seq<char>, j: int) -> bool {
        j == s.len() || self.allows(s[j])
    }
}

/// The text `w` stands in `s` from `i` up to `j`, where the case of a letter does not matter.
pub open spec fn spelled(w: Seq<char>, s: Seq<char>, i: int, j: int) -> bool {
    0 <= i <= j <= s.len() && same_letters(s.subrange(i, j), w)
}

/// Nothing but whitespace stands in `s` from `i` up to `j`.
pub open spec fn gap(s: Seq<char>, i: int, j: int) -> bool {
    0 <= i <= j <= s.len() && forall|n: int| i <= n < j ==> white_space(#[trigger] s[n])
}

/// The word `w` stands in `s`, with nothing beside it that may not be there.
pub open spec fn stands(w: Seq<char>, s: Seq<char>, l: Beside, r: Beside) -> bool {
    exists|i: int, j: int| #[trigger] spelled(w, s, i, j) && l.before(s, i) && r.behind(s, j)
}

/// The words `v` and `w` stand in `s`, with nothing but whitespace between them, if anything, and
/// nothing beside them that may not be there.
pub open spec fn stand(v: Seq<char>, w: Seq<char>, s: Seq<char>, l: Beside, r: Beside) -> bool {
    exists|i: int, j: int, k: int, m: int|
        #[trigger] spelled(v, s, i, j) && gap(s, j, k) && #[trigger] spelled(w, s, k, m) && l.before(
            s,
            i,
        ) && r.behind(s, m)
}

/// A dollar sign stands in `s`, and a digit behind it.
pub open spec fn dollars(s: Seq<char>) -> bool {
    exists|i: int, k: int|
        0 <= i < k < s.len() && s[i] == '$' && #[trigger] gap(s, i + 1, k) && is_digit(s[k])
}

/// A number of percents stands in `s`, and `w` behind it.
pub open spec fn percents(w: Seq<char>, s: Seq<char>) -> bool {
    exists|i: int, j: int, k: int, m: int|
        0 <= i < j < s.len() && is_digit(s[i]) && #[trigger] gap(s, i + 1, j) && s[j] == '%'
            && gap(s, j + 1, k) && #[trigger] spelled(w, s, k, m)
}

/// A number stands in `s` from `i` up to `j`: a digit, and digits and commas behind it.
pub open spec fn numeral(s: Seq<char>, i: int, j: int) -> bool {
    &&& 0 <= i < j <= s.len()
    &&& is_digit(s[i])
    &&& forall|n: int| i < n < j ==> is_digit(#[trigger] s[n]) || s[n] == ','
}

/// A unit of ten thousands, thousands or hundred millions stands in `s` from `k` up to `m`, or
/// nothing does.
pub open spec fn unit(s: Seq<char>, k: int, m: int) -> bool {
    ||| 0 <= k == m <= s.len()
    ||| spelled("만"@, s, k, m)
    ||| spelled("천"@, s, k, m)
    ||| spelled("억"@, s, k, m)
}

/// A number with a plus sign behind it stands in `s`, with or without a unit between them.
pub open spec fn plenty(s: Seq<char>) -> bool {
    exists|i: int, j: int, k: int, m: int, p: int|
        #[trigger] numeral(s, i, j) && gap(s, j, k) && #[trigger] unit(s, k, m) && #[trigger] gap(
            s,
            m,
            p,
        ) && p < s.len() && s[p] == '+'
}

/// A digit stands in `s`, and the word for a rank behind it.
pub open spec fn ranked(s: Seq<char>) -> bool {
    exists|i: int, k: int, m: int|
        0 <= i < s.len() && is_digit(s[i]) && #[trigger] gap(s, i + 1, k) && #[trigger] spelled(
            "위"@,
            s,
            k,
            m,
        )
}

/// What counts as a superlative: best, top 1, #1, no. 1, first place, highest, first, only, first
/// in the trade, and the best, fastest or most exact.
pub open spec fn superlative(s: Seq<char>) -> bool {
    ||| stands("best"@, s, Beside::WordChar, Beside::WordChar)
    ||| stand("top"@, "1"@, s, Beside::WordChar, Beside::WordChar)
    ||| stand("#"@, "1"@, s, Beside::Nothing, Beside::WordChar)
    ||| stand("no"@, "1"@, s, Beside::WordChar, Beside::WordChar)
    ||| stand("no."@, "1"@, s, Beside::WordChar, Beside::WordChar)
    ||| stand("1"@, "위"@, s, Beside::Digit, Beside::Nothing)
    ||| stands("최고"@, s, Beside::Hangul, Beside::Hangul)
    ||| stands("최초"@, s, Beside::Hangul, Beside::Hangul)
    ||| stands("유일"@, s, Beside::Hangul, Beside::Hangul)
    ||| stand("업계"@, "1위"@, s, Beside::Nothing, Beside::Nothing)
    ||| stand("가장"@, "좋은"@, s, Beside::Nothing, Beside::Nothing)
    ||| stand("가장"@, "빠른"@, s, Beside::Nothing, Beside::Nothing)
    ||| stand("가장"@, "정확한"@, s, Beside::Nothing, Beside::Nothing)
}

/// What counts as a price: dollars, a discount in percent, a free trial or download, a sale, a
/// bargain, an event price.
pub open spec fn price(s: Seq<char>) -> bool {
    ||| dollars(s)
    ||| percents("off"@, s)
    ||| percents("할인"@, s)
    ||| stand("무료"@, "체험"@, s, Beside::Nothing, Beside::Nothing)
    ||| stand("무료"@, "다운로드"@, s, Beside::Nothing, Beside::Nothing)
    ||| stands("세일"@, s, Beside::Hangul, Beside::Hangul)
    ||| stands("특가"@, s, Beside::Hangul, Beside::Hangul)
    ||| stands("이벤트가"@, s, Beside::Nothing, Beside::Nothing)
}

/// What counts as a claim of fact: a number and more, a rank, downloads, awards, being the first,
/// the only one in the trade, or official.
pub open spec fn claim(s: Seq<char>) -> bool {
    ||| plenty(s)
    ||| ranked(s)
    ||| stands("다운로드"@, s, Beside::Nothing, Beside::Nothing)
    ||| stands("수상"@, s, Beside::Nothing, Beside::Nothing)
    ||| stands("최초"@, s, Beside::Nothing, Beside::Nothing)
    ||| stand("업계"@, "유일"@, s, Beside::Nothing, Beside::Nothing)
    ||| stands("공식"@, s, Beside::Nothing, Beside::Nothing)
}

/// A word as a whole.
pub open spec fn whole(w: Seq<char>) -> Seq<Piece> {
    seq![Piece::Edge, Piece::Word(w), Piece::Edge]
}

/// A Korean word as a whole.
pub open spec fn bare(w: Seq<char>) -> Seq<Piece> {
    seq![Piece::StartOr(Kind::NotHangul), Piece::Word(w), Piece::OrEnd(Kind::NotHangul)]
}

/// A word and another one.
pub open spec fn pair(v: Seq<char>, w: Seq<char>) -> Seq<Piece> {
    seq![Piece::Word(v), Piece::Any(Kind::Space), Piece::Word(w)]
}

/// What the patterns of superlatives say.
pub open spec fn superlative_pieces() -> Seq<Seq<Piece>> {
    seq![
        whole("best"@),
        seq![
            Piece::Edge,
            Piece::Word("top"@),
            Piece::Any(Kind::Space),
            Piece::Word("1"@),
            Piece::Edge,
        ],
        seq![Piece::Word("#"@), Piece::Any(Kind::Space), Piece::Word("1"@), Piece::Edge],
        seq![
            Piece::Edge,
            Piece::Word("no"@),
            Piece::Maybe(Kind::Dot),
            Piece::Any(Kind::Space),
            Piece::Word("1"@),
            Piece::Edge,
        ],
        seq![
            Piece::StartOr(Kind::NotDigit),
            Piece::Word("1"@),
            Piece::Any(Kind::Space),
            Piece::Word("위"@),
        ],
        bare("최고"@),
        bare("최초"@),
        bare("유일"@),
        pair("업계"@, "1위"@),
        seq![
            Piece::Word("가장"@),
            Piece::Any(Kind::Space),
            Piece::OneOf(seq!["좋은"@, "빠른"@, "정확한"@]),
        ],
    ]
}

/// What the patterns of prices say.
pub open spec fn price_pieces() -> Seq<Seq<Piece>> {
    seq![
        seq![Piece::Word("$"@), Piece::Any(Kind::Space), Piece::One(Kind::Digit)],
        seq![
            Piece::Many(Kind::Digit),
            Piece::Any(Kind::Space),
            Piece::Word("%"@),
            Piece::Any(Kind::Space),
            Piece::OneOf(seq!["off"@, "할인"@]),
        ],
        pair("무료"@, "체험"@),
        pair("무료"@, "다운로드"@),
        bare("세일"@),
        bare("특가"@),
        seq![Piece::Word("이벤트가"@)],
    ]
}

/// What the patterns of claims say.
pub open spec fn claim_pieces() -> Seq<Seq<Piece>> {
    seq![
        seq![
            Piece::One(Kind::Digit),
            Piece::Any(Kind::DigitOrComma),
            Piece::Any(Kind::Space),
            Piece::MaybeOneOf(seq!["만"@, "천"@, "억"@]),
            Piece::Any(Kind::Space),
            Piece::Word("+"@),
        ],
        seq![Piece::Many(Kind::Digit), Piece::Any(Kind::Space), Piece::Word("위"@)],
        seq![Piece::Word("다운로드"@)],
        seq![Piece::Word("수상"@)],
        seq![Piece::Word("최초"@)],
        pair("업계"@, "유일"@),
        seq![Piece::Word("공식"@)],
    ]
}

proof fn lemma_special(c: char)
    ensures
        special(c) <==> c == '\\' || c == '.' || c == '+' || c == '*' || c == '?' || c == '(' || c == ')'
            || c == '|' || c == '[' || c == ']' || c == '{' || c == '}' || c == '^' || c == '$',
{
    let s = r"\.+*?()|[]{}^$"@;
    reveal_strlit(r"\.+*?()|[]{}^$");
    assert(s[0] == '\\' && s[1] == '.' && s[2] == '+' && s[3] == '*' && s[4] == '?' && s[5] == '('
        && s[6] == ')' && s[7] == '|' && s[8] == '[' && s[9] == ']' && s[10] == '{' && s[11] == '}'
        && s[12] == '^' && s[13] == '$' && s.len() == 14);
}

proof fn lemma_quoted(w: Seq<char>)
    requires
        forall|i: int| 0 <= i < w.len() ==> !special(#[trigger] w[i]),
    ensures
        quoted(w) == w,
    decreases w.len(),
{
    if w.len() > 0 {
        assert forall|i: int| 0 <= i < w.drop_last().len() implies !special(
            #[trigger] w.drop_last()[i],
        ) by {
            assert(w.drop_last()[i] == w[i]);
        }
        lemma_quoted(w.drop_last());
        assert(w.drop_last().push(w.last()) =~= w);
    } else {
        assert(quoted(w) =~= w);
    }
}

proof fn lemma_quoted_special(c: char)
    requires
        special(c),
    ensures
        quoted(seq![c]) == seq!['\\', c],
{
    let w = seq![c];
    assert(w.drop_last() =~= seq![]);
    assert(quoted(w.drop_last()) =~= seq![]);
    assert(quoted(w) =~= seq!['\\', c]);
}

proof fn lemma_notation_push(ps: Seq<Piece>, p: Piece)
    ensures
        notation(ps.push(p)) == notation(ps) + p.notation(),
{
    assert(ps.push(p).drop_last() =~= ps);
}

proof fn lemma_notation3(a: Piece, b: Piece, c: Piece)
    ensures
        notation(seq![a]) == a.notation(),
        notation(seq![a, b, c]) == a.notation() + b.notation() + c.notation(),
{
    let none = Seq::<Piece>::empty();
    lemma_notation_push(none, a);
    lemma_notation_push(none.push(a), b);
    lemma_notation_push(none.push(a).push(b), c);
    assert(none.push(a) =~= seq![a]);
    assert(seq![a, b, c] =~= none.push(a).push(b).push(c));
    assert(notation(none) + a.notation() =~= a.notation());
}

proof fn lemma_notation4(a: Piece, b: Piece, c: Piece, d: Piece)
    ensures
        notation(seq![a, b, c, d]) == a.notation() + b.notation() + c.notation() + d.notation(),
{
    lemma_notation3(a, b, c);
    lemma_notation_push(seq![a, b, c], d);
    assert(seq![a, b, c, d] =~= seq![a, b, c].push(d));
}

proof fn lemma_notation5(a: Piece, b: Piece, c: Piece, d: Piece, e: Piece)
    ensures
        notation(seq![a, b, c, d, e]) == a.notation() + b.notation() + c.notation() + d.notation()
            + e.notation(),
{
    lemma_notation4(a, b, c, d);
    lemma_notation_push(seq![a, b, c, d], e);
    assert(seq![a, b, c, d, e] =~= seq![a, b, c, d].push(e));
}

proof fn lemma_notation6(a: Piece, b: Piece, c: Piece, d: Piece, e: Piece, f: Piece)
    ensures
        notation(seq![a, b, c, d, e, f]) == a.notation() + b.notation() + c.notation()
            + d.notation() + e.notation() + f.notation(),
{
    lemma_notation5(a, b, c, d, e);
    lemma_notation_push(seq![a, b, c, d, e], f);
    assert(seq![a, b, c, d, e, f] =~= seq![a, b, c, d, e].push(f));
}

proof fn lemma_bare_notation(w: Seq<char>)
    requires
        forall|i: int| 0 <= i < w.len() ==> !special(#[trigger] w[i]),
    ensures
        notation(bare(w)) == bare_word(w),
{
    lemma_quoted(w);
    lemma_notation3(
        Piece::StartOr(Kind::NotHangul),
        Piece::Word(w),
        Piece::OrEnd(Kind::NotHangul),
    );
    reveal_strlit("(?:^|");
    reveal_strlit("[^가-힣]");
    reveal_strlit(")");
    reveal_strlit("(?:");
    reveal_strlit("|$)");
    reveal_strlit("(?:^|[^가-힣])");
    reveal_strlit("(?:[^가-힣]|$)");
    assert("(?:^|"@ + "[^가-힣]"@ + ")"@ =~= "(?:^|[^가-힣])"@);
    assert("(?:"@ + "[^가-힣]"@ + "|$)"@ =~= "(?:[^가-힣]|$)"@);
    assert(notation(bare(w)) =~= bare_word(w));
}

/// No character of a text of letters, digits and signs that stand for themselves is special.
proof fn lemma_ordinary(w: Seq<char>)
    requires
        forall|i: int|
            0 <= i < w.len() ==> word_char(#[trigger] w[i]) || w[i] == '#' || w[i] == '%',
    ensures
        quoted(w) == w,
        forall|i: int| 0 <= i < w.len() ==> !special(#[trigger] w[i]),
{
    assert forall|i: int| 0 <= i < w.len() implies !special(#[trigger] w[i]) by {
        lemma_special(w[i]);
        assert(word_char(w[i]) || w[i] == '#' || w[i] == '%');
    }
    lemma_quoted(w);
}

/// The patterns of superlatives are the notation of what they say.
pub proof fn lemma_superlative_notation()
    ensures
        superlative_patterns() == superlative_pieces().map_values(|ps: Seq<Piece>| notation(ps)),
{
    let want = superlative_pieces().map_values(|ps: Seq<Piece>| notation(ps));
    let have = superlative_patterns();
    reveal_strlit("best");
    reveal_strlit("top");
    reveal_strlit("1");
    reveal_strlit("#");
    reveal_strlit("no");
    reveal_strlit("위");
    reveal_strlit("최고");
    reveal_strlit("최초");
    reveal_strlit("유일");
    reveal_strlit("업계");
    reveal_strlit("1위");
    reveal_strlit("가장");
    reveal_strlit("좋은");
    reveal_strlit("빠른");
    reveal_strlit("정확한");
    lemma_ordinary("best"@);
    lemma_ordinary("top"@);
    lemma_ordinary("1"@);
    lemma_ordinary("#"@);
    lemma_ordinary("no"@);
    lemma_ordinary("위"@);
    lemma_ordinary("최고"@);
    lemma_ordinary("최초"@);
    lemma_ordinary("유일"@);
    lemma_ordinary("업계"@);
    lemma_ordinary("1위"@);
    lemma_ordinary("가장"@);
    lemma_ordinary("좋은"@);
    lemma_ordinary("빠른"@);
    lemma_ordinary("정확한"@);
    lemma_bare_notation("최고"@);
    lemma_bare_notation("최초"@);
    lemma_bare_notation("유일"@);
    let space = Piece::Any(Kind::Space);
    lemma_notation3(Piece::Edge, Piece::Word("best"@), Piece::Edge);
    lemma_notation5(Piece::Edge, Piece::Word("top"@), space, Piece::Word("1"@), Piece::Edge);
    lemma_notation4(Piece::Word("#"@), space, Piece::Word("1"@), Piece::Edge);
    lemma_notation6(
        Piece::Edge,
        Piece::Word("no"@),
        Piece::Maybe(Kind::Dot),
        space,
        Piece::Word("1"@),
        Piece::Edge,
    );
    lemma_notation4(
        Piece::StartOr(Kind::NotDigit),
        Piece::Word("1"@),
        space,
        Piece::Word("위"@),
    );
    lemma_notation3(Piece::Word("업계"@), space, Piece::Word("1위"@));
    let kinds = seq!["좋은"@, "빠른"@, "정확한"@];
    lemma_notation3(Piece::Word("가장"@), space, Piece::OneOf(kinds));
    assert(alternatives(kinds) == "좋은"@ + "|"@ + "빠른"@ + "|"@ + "정확한"@) by {
        let two = kinds.drop_last();
        assert(two =~= seq!["좋은"@, "빠른"@]);
        assert(two.drop_last() =~= seq!["좋은"@]);
        assert(alternatives(two.drop_last()) == "좋은"@);
        assert(alternatives(two) == "좋은"@ + "|"@ + "빠른"@);
    }
    reveal_strlit(r"\b");
    reveal_strlit(r"\s");
    reveal_strlit(r"\D");
    reveal_strlit(r"\.");
    reveal_strlit("*");
    reveal_strlit("?");
    reveal_strlit("|");
    reveal_strlit("(");
    reveal_strlit(")");
    reveal_strlit("(?:^|");
    reveal_strlit(r"\bbest\b");
    reveal_strlit(r"\btop\s*1\b");
    reveal_strlit(r"#\s*1\b");
    reveal_strlit(r"\bno\.?\s*1\b");
    reveal_strlit(r"(?:^|\D)1\s*위");
    reveal_strlit(r"업계\s*1위");
    reveal_strlit(r"가장\s*(좋은|빠른|정확한)");
    assert(want[0] =~= have[0]);
    assert(want[1] =~= have[1]);
    assert(want[2] =~= have[2]);
    assert(want[3] =~= have[3]);
    assert(want[4] =~= have[4]);
    assert(want[5] == have[5] && want[6] == have[6] && want[7] == have[7]);
    assert(want[8] =~= have[8]);
    assert(want[9] =~= have[9]);
    assert(want =~= have);
}

/// The patterns of prices are the notation of what they say.
pub proof fn lemma_price_notation()
    ensures
        price_patterns() == price_pieces().map_values(|ps: Seq<Piece>| notation(ps)),
{
    let want = price_pieces().map_values(|ps: Seq<Piece>| notation(ps));
    let have = price_patterns();
    reveal_strlit("$");
    reveal_strlit("%");
    reveal_strlit("off");
    reveal_strlit("할인");
    reveal_strlit("무료");
    reveal_strlit("체험");
    reveal_strlit("다운로드");
    reveal_strlit("세일");
    reveal_strlit("특가");
    reveal_strlit("이벤트가");
    lemma_ordinary("%"@);
    lemma_ordinary("off"@);
    lemma_ordinary("할인"@);
    lemma_ordinary("무료"@);
    lemma_ordinary("체험"@);
    lemma_ordinary("다운로드"@);
    lemma_ordinary("세일"@);
    lemma_ordinary("특가"@);
    lemma_ordinary("이벤트가"@);
    lemma_special('$');
    lemma_quoted_special('$');
    assert("$"@ =~= seq!['$']);
    lemma_bare_notation("세일"@);
    lemma_bare_notation("특가"@);
    let space = Piece::Any(Kind::Space);
    let kinds = seq!["off"@, "할인"@];
    lemma_notation3(Piece::Word("$"@), space, Piece::One(Kind::Digit));
    lemma_notation5(
        Piece::Many(Kind::Digit),
        space,
        Piece::Word("%"@),
        space,
        Piece::OneOf(kinds),
    );
    assert(alternatives(kinds) == "off"@ + "|"@ + "할인"@) by {
        assert(kinds.drop_last() =~= seq!["off"@]);
        assert(alternatives(kinds.drop_last()) == "off"@);
    }
    lemma_notation3(Piece::Word("무료"@), space, Piece::Word("체험"@));
    lemma_notation3(Piece::Word("무료"@), space, Piece::Word("다운로드"@));
    lemma_notation3(Piece::Word("이벤트가"@), space, space);
    reveal_strlit(r"\s");
    reveal_strlit(r"\d");
    reveal_strlit("*");
    reveal_strlit("+");
    reveal_strlit("|");
    reveal_strlit("(");
    reveal_strlit(")");
    reveal_strlit(r"\$\s*\d");
    reveal_strlit(r"\d+\s*%\s*(off|할인)");
    reveal_strlit(r"무료\s*체험");
    reveal_strlit(r"무료\s*다운로드");
    reveal_strlit(r"이벤트가");
    assert(want[0] =~= have[0]);
    assert(want[1] =~= have[1]);
    assert(want[2] =~= have[2]);
    assert(want[3] =~= have[3]);
    assert(want[4] == have[4] && want[5] == have[5]);
    assert(want[6] =~= have[6]);
    assert(want =~= have);
}

/// The patterns of claims are the notation of what they say.
pub proof fn lemma_claim_notation()
    ensures
        claim_patterns() == claim_pieces().map_values(|ps: Seq<Piece>| notation(ps)),
{
    let want = claim_pieces().map_values(|ps: Seq<Piece>| notation(ps));
    let have = claim_patterns();
    reveal_strlit("만");
    reveal_strlit("천");
    reveal_strlit("억");
    reveal_strlit("+");
    reveal_strlit("위");
    reveal_strlit("다운로드");
    reveal_strlit("수상");
    reveal_strlit("최초");
    reveal_strlit("업계");
    reveal_strlit("유일");
    reveal_strlit("공식");
    lemma_ordinary("만"@);
    lemma_ordinary("천"@);
    lemma_ordinary("억"@);
    lemma_ordinary("위"@);
    lemma_ordinary("다운로드"@);
    lemma_ordinary("수상"@);
    lemma_ordinary("최초"@);
    lemma_ordinary("업계"@);
    lemma_ordinary("유일"@);
    lemma_ordinary("공식"@);
    lemma_special('+');
    lemma_quoted_special('+');
    assert("+"@ =~= seq!['+']);
    let space = Piece::Any(Kind::Space);
    let kinds = seq!["만"@, "천"@, "억"@];
    lemma_notation6(
        Piece::One(Kind::Digit),
        Piece::Any(Kind::DigitOrComma),
        space,
        Piece::MaybeOneOf(kinds),
        space,
        Piece::Word("+"@),
    );
    assert(alternatives(kinds) == "만"@ + "|"@ + "천"@ + "|"@ + "억"@) by {
        let two = kinds.drop_last();
        assert(two =~= seq!["만"@, "천"@]);
        assert(two.drop_last() =~= seq!["만"@]);
        assert(alternatives(two.drop_last()) == "만"@);
        assert(alternatives(two) == "만"@ + "|"@ + "천"@);
    }
    lemma_notation3(Piece::Many(Kind::Digit), space, Piece::Word("위"@));
    lemma_notation3(Piece::Word("다운로드"@), space, space);
    lemma_notation3(Piece::Word("수상"@), space, space);
    lemma_notation3(Piece::Word("최초"@), space, space);
    lemma_notation3(Piece::Word("업계"@), space, Piece::Word("유일"@));
    lemma_notation3(Piece::Word("공식"@), space, space);
    reveal_strlit(r"\s");
    reveal_strlit(r"\d");
    reveal_strlit(r"[\d,]");
    reveal_strlit("*");
    reveal_strlit("|");
    reveal_strlit("(");
    reveal_strlit(")?");
    reveal_strlit(r"\d[\d,]*\s*(만|천|억)?\s*\+");
    reveal_strlit(r"\d+\s*위");
    reveal_strlit(r"다운로드");
    reveal_strlit(r"수상");
    reveal_strlit(r"최초");
    reveal_strlit(r"업계\s*유일");
    reveal_strlit(r"공식");
    assert(want[0] =~= have[0]);
    assert(want[1] =~= have[1]);
    assert(want[2] =~= have[2] && want[3] =~= have[3] && want[4] =~= have[4]);
    assert(want[5] =~= have[5]);
    assert(want[6] =~= have[6]);
    assert(want =~= have);
}

/// Where a word stands, its first and its last character are those of a word if its own are.
proof fn lemma_spelled(w: Seq<char>, s: Seq<char>, i: int, j: int)
    requires
        spelled(w, s, i, j),
        w.len() > 0,
    ensures
        j == i + w.len(),
        word_char(w[0]) ==> word_char(s[i]),
        word_char(w.last()) ==> word_char(s[j - 1]),
        ascii_lower(s[i]) == ascii_lower(w[0]),
{
    let t = s.subrange(i, j);
    assert(t[0] == s[i]);
    assert(t[t.len() - 1] == s[j - 1]);
    assert(ascii_lower(t[0]) == ascii_lower(w[0]));
    assert(ascii_lower(t[t.len() - 1]) == ascii_lower(w[w.len() - 1]));
}

proof fn lemma_whole(w: Seq<char>, s: Seq<char>)
    requires
        w.len() > 0,
        word_char(w[0]),
        word_char(w.last()),
    ensures
        found_in(whole(w), s) <==> stands(w, s, Beside::WordChar, Beside::WordChar),
{
    let ps = whole(w);
    if found_in(ps, s) {
        let at = choose|at: Seq<int>| fit_at(ps, s, at);
        assert(ps[0].fits(s, at[0], at[1]) && ps[1].fits(s, at[1], at[2]) && ps[2].fits(
            s,
            at[2],
            at[3],
        ));
        lemma_spelled(w, s, at[1], at[2]);
        assert(spelled(w, s, at[1], at[2]));
    }
    if stands(w, s, Beside::WordChar, Beside::WordChar) {
        let (i, j) = choose|i: int, j: int|
            #[trigger] spelled(w, s, i, j) && Beside::WordChar.before(s, i)
                && Beside::WordChar.behind(s, j);
        lemma_spelled(w, s, i, j);
        assert(fit_at(ps, s, seq![i, i, j, j]));
    }
}

proof fn lemma_single(w: Seq<char>, s: Seq<char>)
    ensures
        found_in(seq![Piece::Word(w)], s) <==> stands(w, s, Beside::Nothing, Beside::Nothing),
{
    let ps = seq![Piece::Word(w)];
    if found_in(ps, s) {
        let at = choose|at: Seq<int>| fit_at(ps, s, at);
        assert(ps[0].fits(s, at[0], at[1]));
        assert(spelled(w, s, at[0], at[1]));
    }
    if stands(w, s, Beside::Nothing, Beside::Nothing) {
        let (i, j) = choose|i: int, j: int|
            #[trigger] spelled(w, s, i, j) && Beside::Nothing.before(s, i)
                && Beside::Nothing.behind(s, j);
        assert(fit_at(ps, s, seq![i, j]));
    }
}

proof fn lemma_bare(w: Seq<char>, s: Seq<char>)
    ensures
        found_in(bare(w), s) <==> stands(w, s, Beside::Hangul, Beside::Hangul),
{
    let ps = bare(w);
    if found_in(ps, s) {
        let at = choose|at: Seq<int>| fit_at(ps, s, at);
        assert(ps[0].fits(s, at[0], at[1]) && ps[1].fits(s, at[1], at[2]) && ps[2].fits(
            s,
            at[2],
            at[3],
        ));
        assert(spelled(w, s, at[1], at[2]));
        assert(Beside::Hangul.before(s, at[1]));
        assert(Beside::Hangul.behind(s, at[2]));
    }
    if stands(w, s, Beside::Hangul, Beside::Hangul) {
        let (i, j) = choose|i: int, j: int|
            #[trigger] spelled(w, s, i, j) && Beside::Hangul.before(s, i) && Beside::Hangul.behind(
                s,
                j,
            );
        let a = if i == 0 {
            0
        } else {
            i - 1
        };
        let b = if j == s.len() {
            j
        } else {
            j + 1
        };
        assert(fit_at(ps, s, seq![a, i, j, b]));
    }
}

proof fn lemma_pair(v: Seq<char>, w: Seq<char>, s: Seq<char>)
    ensures
        found_in(pair(v, w), s) <==> stand(v, w, s, Beside::Nothing, Beside::Nothing),
{
    let ps = pair(v, w);
    if found_in(ps, s) {
        let at = choose|at: Seq<int>| fit_at(ps, s, at);
        assert(ps[0].fits(s, at[0], at[1]) && ps[1].fits(s, at[1], at[2]) && ps[2].fits(
            s,
            at[2],
            at[3],
        ));
        assert(spelled(v, s, at[0], at[1]) && gap(s, at[1], at[2]) && spelled(w, s, at[2], at[3]));
    }
    if stand(v, w, s, Beside::Nothing, Beside::Nothing) {
        let (i, j, k, m) = choose|i: int, j: int, k: int, m: int|
            #[trigger] spelled(v, s, i, j) && gap(s, j, k) && #[trigger] spelled(w, s, k, m)
                && Beside::Nothing.before(s, i) && Beside::Nothing.behind(s, m);
        assert(fit_at(ps, s, seq![i, j, k, m]));
    }
}

proof fn lemma_top(v: Seq<char>, w: Seq<char>, s: Seq<char>)
    requires
        v.len() > 0,
        w.len() > 0,
        word_char(v[0]),
        word_char(w.last()),
    ensures
        found_in(
            seq![
                Piece::Edge,
                Piece::Word(v),
                Piece::Any(Kind::Space),
                Piece::Word(w),
                Piece::Edge,
            ],
            s,
        ) <==> stand(v, w, s, Beside::WordChar, Beside::WordChar),
{
    let ps = seq![
        Piece::Edge,
        Piece::Word(v),
        Piece::Any(Kind::Space),
        Piece::Word(w),
        Piece::Edge,
    ];
    if found_in(ps, s) {
        let at = choose|at: Seq<int>| fit_at(ps, s, at);
        assert(ps[0].fits(s, at[0], at[1]) && ps[1].fits(s, at[1], at[2]) && ps[2].fits(
            s,
            at[2],
            at[3],
        ) && ps[3].fits(s, at[3], at[4]) && ps[4].fits(s, at[4], at[5]));
        lemma_spelled(v, s, at[1], at[2]);
        lemma_spelled(w, s, at[3], at[4]);
        assert(spelled(v, s, at[1], at[2]) && gap(s, at[2], at[3]) && spelled(w, s, at[3], at[4]));
    }
    if stand(v, w, s, Beside::WordChar, Beside::WordChar) {
        let (i, j, k, m) = choose|i: int, j: int, k: int, m: int|
            #[trigger] spelled(v, s, i, j) && gap(s, j, k) && #[trigger] spelled(w, s, k, m)
                && Beside::WordChar.before(s, i) && Beside::WordChar.behind(s, m);
        lemma_spelled(v, s, i, j);
        lemma_spelled(w, s, k, m);
        assert(fit_at(ps, s, seq![i, i, j, k, m, m]));
    }
}

proof fn lemma_hash(v: Seq<char>, w: Seq<char>, s: Seq<char>)
    requires
        w.len() > 0,
        word_char(w.last()),
    ensures
        found_in(
            seq![Piece::Word(v), Piece::Any(Kind::Space), Piece::Word(w), Piece::Edge],
            s,
        ) <==> stand(v, w, s, Beside::Nothing, Beside::WordChar),
{
    let ps = seq![Piece::Word(v), Piece::Any(Kind::Space), Piece::Word(w), Piece::Edge];
    if found_in(ps, s) {
        let at = choose|at: Seq<int>| fit_at(ps, s, at);
        assert(ps[0].fits(s, at[0], at[1]) && ps[1].fits(s, at[1], at[2]) && ps[2].fits(
            s,
            at[2],
            at[3],
        ) && ps[3].fits(s, at[3], at[4]));
        lemma_spelled(w, s, at[2], at[3]);
        assert(spelled(v, s, at[0], at[1]) && gap(s, at[1], at[2]) && spelled(w, s, at[2], at[3]));
    }
    if stand(v, w, s, Beside::Nothing, Beside::WordChar) {
        let (i, j, k, m) = choose|i: int, j: int, k: int, m: int|
            #[trigger] spelled(v, s, i, j) && gap(s, j, k) && #[trigger] spelled(w, s, k, m)
                && Beside::Nothing.before(s, i) && Beside::WordChar.behind(s, m);
        lemma_spelled(w, s, k, m);
        assert(fit_at(ps, s, seq![i, j, k, m, m]));
    }
}

proof fn lemma_place(v: Seq<char>, w: Seq<char>, s: Seq<char>)
    ensures
        found_in(
            seq![
                Piece::StartOr(Kind::NotDigit),
                Piece::Word(v),
                Piece::Any(Kind::Space),
                Piece::Word(w),
            ],
            s,
        ) <==> stand(v, w, s, Beside::Digit, Beside::Nothing),
{
    let ps = seq![
        Piece::StartOr(Kind::NotDigit),
        Piece::Word(v),
        Piece::Any(Kind::Space),
        Piece::Word(w),
    ];
    if found_in(ps, s) {
        let at = choose|at: Seq<int>| fit_at(ps, s, at);
        assert(ps[0].fits(s, at[0], at[1]) && ps[1].fits(s, at[1], at[2]) && ps[2].fits(
            s,
            at[2],
            at[3],
        ) && ps[3].fits(s, at[3], at[4]));
        assert(spelled(v, s, at[1], at[2]) && gap(s, at[2], at[3]) && spelled(w, s, at[3], at[4]));
        assert(Beside::Digit.before(s, at[1]));
    }
    if stand(v, w, s, Beside::Digit, Beside::Nothing) {
        let (i, j, k, m) = choose|i: int, j: int, k: int, m: int|
            #[trigger] spelled(v, s, i, j) && gap(s, j, k) && #[trigger] spelled(w, s, k, m)
                && Beside::Digit.before(s, i) && Beside::Nothing.behind(s, m);
        let a = if i == 0 {
            0
        } else {
            i - 1
        };
        assert(fit_at(ps, s, seq![a, i, j, k, m]));
    }
}

proof fn lemma_no(s: Seq<char>)
    ensures
        found_in(
            seq![
                Piece::Edge,
                Piece::Word("no"@),
                Piece::Maybe(Kind::Dot),
                Piece::Any(Kind::Space),
                Piece::Word("1"@),
                Piece::Edge,
            ],
            s,
        ) <==> stand("no"@, "1"@, s, Beside::WordChar, Beside::WordChar) || stand(
            "no."@,
            "1"@,
            s,
            Beside::WordChar,
            Beside::WordChar,
        ),
{
    let v = "no"@;
    let u = "no."@;
    let w = "1"@;
    reveal_strlit("no");
    reveal_strlit("no.");
    reveal_strlit("1");
    let ps = seq![
        Piece::Edge,
        Piece::Word(v),
        Piece::Maybe(Kind::Dot),
        Piece::Any(Kind::Space),
        Piece::Word(w),
        Piece::Edge,
    ];
    if found_in(ps, s) {
        let at = choose|at: Seq<int>| fit_at(ps, s, at);
        assert(ps[0].fits(s, at[0], at[1]) && ps[1].fits(s, at[1], at[2]) && ps[2].fits(
            s,
            at[2],
            at[3],
        ) && ps[3].fits(s, at[3], at[4]) && ps[4].fits(s, at[4], at[5]) && ps[5].fits(
            s,
            at[5],
            at[6],
        ));
        lemma_spelled(v, s, at[1], at[2]);
        lemma_spelled(w, s, at[4], at[5]);
        assert(gap(s, at[3], at[4]) && spelled(w, s, at[4], at[5]));
        if at[2] == at[3] {
            assert(spelled(v, s, at[1], at[2]));
        } else {
            let t = s.subrange(at[1], at[3]);
            assert(s.subrange(at[1], at[2]) =~= t.take(2));
            assert forall|n: int| 0 <= n < t.len() implies ascii_lower(#[trigger] t[n])
                == ascii_lower(u[n]) by {
                if n < 2 {
                    assert(s.subrange(at[1], at[2])[n] == t[n]);
                }
            }
            assert(spelled(u, s, at[1], at[3]));
        }
    }
    if stand(v, w, s, Beside::WordChar, Beside::WordChar) {
        let (i, j, k, m) = choose|i: int, j: int, k: int, m: int|
            #[trigger] spelled(v, s, i, j) && gap(s, j, k) && #[trigger] spelled(w, s, k, m)
                && Beside::WordChar.before(s, i) && Beside::WordChar.behind(s, m);
        lemma_spelled(v, s, i, j);
        lemma_spelled(w, s, k, m);
        assert(fit_at(ps, s, seq![i, i, j, j, k, m, m]));
    }
    if stand(u, w, s, Beside::WordChar, Beside::WordChar) {
        let (i, j, k, m) = choose|i: int, j: int, k: int, m: int|
            #[trigger] spelled(u, s, i, j) && gap(s, j, k) && #[trigger] spelled(w, s, k, m)
                && Beside::WordChar.before(s, i) && Beside::WordChar.behind(s, m);
        lemma_spelled(u, s, i, j);
        lemma_spelled(w, s, k, m);
        let t = s.subrange(i, j);
        let h = s.subrange(i, j - 1);
        assert(ascii_lower(t[2]) == ascii_lower(u[2]));
        assert(s[j - 1] == '.');
        assert forall|n: int| 0 <= n < h.len() implies ascii_lower(#[trigger] h[n])
            == ascii_lower(v[n]) by {
            assert(ascii_lower(t[n]) == ascii_lower(u[n]));
        }
        assert(fit_at(ps, s, seq![i, i, j - 1, j, k, m, m]));
    }
}

/// A word and one of several words.
pub open spec fn stand_any(v: Seq<char>, ws: Seq<Seq<char>>, s: Seq<char>) -> bool {
    exists|n: int|
        0 <= n < ws.len() && stand(v, #[trigger] ws[n], s, Beside::Nothing, Beside::Nothing)
}

proof fn lemma_choice(v: Seq<char>, ws: Seq<Seq<char>>, s: Seq<char>)
    ensures
        found_in(seq![Piece::Word(v), Piece::Any(Kind::Space), Piece::OneOf(ws)], s) <==> stand_any(
            v,
            ws,
            s,
        ),
{
    let ps = seq![Piece::Word(v), Piece::Any(Kind::Space), Piece::OneOf(ws)];
    if found_in(ps, s) {
        let at = choose|at: Seq<int>| fit_at(ps, s, at);
        assert(ps[0].fits(s, at[0], at[1]) && ps[1].fits(s, at[1], at[2]) && ps[2].fits(
            s,
            at[2],
            at[3],
        ));
        let n = choose|n: int|
            0 <= n < ws.len() && same_letters(s.subrange(at[2], at[3]), #[trigger] ws[n]);
        assert(spelled(v, s, at[0], at[1]) && gap(s, at[1], at[2]) && spelled(
            ws[n],
            s,
            at[2],
            at[3],
        ));
        assert(stand(v, ws[n], s, Beside::Nothing, Beside::Nothing));
    }
    if stand_any(v, ws, s) {
        let n = choose|n: int|
            0 <= n < ws.len() && stand(v, #[trigger] ws[n], s, Beside::Nothing, Beside::Nothing);
        let w = ws[n];
        let (i, j, k, m) = choose|i: int, j: int, k: int, m: int|
            #[trigger] spelled(v, s, i, j) && gap(s, j, k) && #[trigger] spelled(w, s, k, m)
                && Beside::Nothing.before(s, i) && Beside::Nothing.behind(s, m);
        assert(same_letters(s.subrange(k, m), ws[n]));
        assert(one_of(ws, s.subrange(k, m)));
        assert(fit_at(ps, s, seq![i, j, k, m]));
    }
}

/// A single sign stands at a position exactly where the character there is that sign.
proof fn lemma_sign(c: char, s: Seq<char>, i: int, j: int)
    requires
        !('A' <= c <= 'Z'),
        !('a' <= c <= 'z'),
    ensures
        spelled(seq![c], s, i, j) <==> 0 <= i < s.len() && j == i + 1 && s[i] == c,
{
    if spelled(seq![c], s, i, j) {
        lemma_spelled(seq![c], s, i, j);
    }
    if 0 <= i < s.len() && j == i + 1 && s[i] == c {
        assert(s.subrange(i, j) =~= seq![c]);
    }
}

proof fn lemma_dollars(s: Seq<char>)
    ensures
        found_in(seq![Piece::Word("$"@), Piece::Any(Kind::Space), Piece::One(Kind::Digit)], s)
            <==> dollars(s),
{
    let v = "$"@;
    reveal_strlit("$");
    assert(v =~= seq!['$']);
    let ps = seq![Piece::Word(v), Piece::Any(Kind::Space), Piece::One(Kind::Digit)];
    if found_in(ps, s) {
        let at = choose|at: Seq<int>| fit_at(ps, s, at);
        assert(ps[0].fits(s, at[0], at[1]) && ps[1].fits(s, at[1], at[2]) && ps[2].fits(
            s,
            at[2],
            at[3],
        ));
        lemma_sign('$', s, at[0], at[1]);
        assert(spelled(v, s, at[0], at[1]));
        assert(gap(s, at[0] + 1, at[2]));
    }
    if dollars(s) {
        let (i, k) = choose|i: int, k: int|
            0 <= i < k < s.len() && s[i] == '$' && #[trigger] gap(s, i + 1, k) && is_digit(s[k]);
        lemma_sign('$', s, i, i + 1);
        assert(fit_at(ps, s, seq![i, i + 1, k, k + 1]));
    }
}

proof fn lemma_percents(s: Seq<char>)
    ensures
        found_in(
            seq![
                Piece::Many(Kind::Digit),
                Piece::Any(Kind::Space),
                Piece::Word("%"@),
                Piece::Any(Kind::Space),
                Piece::OneOf(seq!["off"@, "할인"@]),
            ],
            s,
        ) <==> percents("off"@, s) || percents("할인"@, s),
{
    let v = "%"@;
    let ws = seq!["off"@, "할인"@];
    reveal_strlit("%");
    assert(v =~= seq!['%']);
    let ps = seq![
        Piece::Many(Kind::Digit),
        Piece::Any(Kind::Space),
        Piece::Word(v),
        Piece::Any(Kind::Space),
        Piece::OneOf(ws),
    ];
    if found_in(ps, s) {
        let at = choose|at: Seq<int>| fit_at(ps, s, at);
        assert(ps[0].fits(s, at[0], at[1]) && ps[1].fits(s, at[1], at[2]) && ps[2].fits(
            s,
            at[2],
            at[3],
        ) && ps[3].fits(s, at[3], at[4]) && ps[4].fits(s, at[4], at[5]));
        let n = choose|n: int|
            0 <= n < ws.len() && same_letters(s.subrange(at[4], at[5]), #[trigger] ws[n]);
        lemma_sign('%', s, at[2], at[3]);
        assert(spelled(v, s, at[2], at[3]));
        let i = at[1] - 1;
        assert(is_digit(s[i]));
        assert(gap(s, i + 1, at[2]) && gap(s, at[2] + 1, at[4]) && spelled(ws[n], s, at[4], at[5]));
        assert(percents(ws[n], s));
    }
    assert forall|n: int| 0 <= n < 2 && percents(#[trigger] ws[n], s) implies found_in(ps, s) by {
        let w = ws[n];
        let (i, j, k, m) = choose|i: int, j: int, k: int, m: int|
            0 <= i < j < s.len() && is_digit(s[i]) && #[trigger] gap(s, i + 1, j) && s[j] == '%'
                && gap(s, j + 1, k) && #[trigger] spelled(w, s, k, m);
        lemma_sign('%', s, j, j + 1);
        assert(same_letters(s.subrange(k, m), ws[n]));
        assert(fit_at(ps, s, seq![i, i + 1, j, j + 1, k, m]));
    }
    assert(ws[0] == "off"@ && ws[1] == "할인"@);
}

proof fn lemma_ranked(s: Seq<char>)
    ensures
        found_in(seq![Piece::Many(Kind::Digit), Piece::Any(Kind::Space), Piece::Word("위"@)], s)
            <==> ranked(s),
{
    let w = "위"@;
    let ps = seq![Piece::Many(Kind::Digit), Piece::Any(Kind::Space), Piece::Word(w)];
    if found_in(ps, s) {
        let at = choose|at: Seq<int>| fit_at(ps, s, at);
        assert(ps[0].fits(s, at[0], at[1]) && ps[1].fits(s, at[1], at[2]) && ps[2].fits(
            s,
            at[2],
            at[3],
        ));
        let i = at[1] - 1;
        assert(is_digit(s[i]));
        assert(gap(s, i + 1, at[2]) && spelled(w, s, at[2], at[3]));
    }
    if ranked(s) {
        let (i, k, m) = choose|i: int, k: int, m: int|
            0 <= i < s.len() && is_digit(s[i]) && #[trigger] gap(s, i + 1, k) && #[trigger] spelled(
                "위"@,
                s,
                k,
                m,
            );
        assert(fit_at(ps, s, seq![i, i + 1, k, m]));
    }
}

proof fn lemma_plenty(s: Seq<char>)
    ensures
        found_in(
            seq![
                Piece::One(Kind::Digit),
                Piece::Any(Kind::DigitOrComma),
                Piece::Any(Kind::Space),
                Piece::MaybeOneOf(seq!["만"@, "천"@, "억"@]),
                Piece::Any(Kind::Space),
                Piece::Word("+"@),
            ],
            s,
        ) <==> plenty(s),
{
    let v = "+"@;
    let ws = seq!["만"@, "천"@, "억"@];
    reveal_strlit("+");
    assert(v =~= seq!['+']);
    let ps = seq![
        Piece::One(Kind::Digit),
        Piece::Any(Kind::DigitOrComma),
        Piece::Any(Kind::Space),
        Piece::MaybeOneOf(ws),
        Piece::Any(Kind::Space),
        Piece::Word(v),
    ];
    if found_in(ps, s) {
        let at = choose|at: Seq<int>| fit_at(ps, s, at);
        assert(ps[0].fits(s, at[0], at[1]) && ps[1].fits(s, at[1], at[2]) && ps[2].fits(
            s,
            at[2],
            at[3],
        ) && ps[3].fits(s, at[3], at[4]) && ps[4].fits(s, at[4], at[5]) && ps[5].fits(
            s,
            at[5],
            at[6],
        ));
        lemma_sign('+', s, at[5], at[6]);
        assert(spelled(v, s, at[5], at[6]));
        assert(numeral(s, at[0], at[2]));
        if at[3] != at[4] {
            let n = choose|n: int|
                0 <= n < ws.len() && same_letters(s.subrange(at[3], at[4]), #[trigger] ws[n]);
            assert(spelled(ws[n], s, at[3], at[4]));
        }
        assert(unit(s, at[3], at[4]));
        assert(gap(s, at[2], at[3]) && gap(s, at[4], at[5]));
    }
    if plenty(s) {
        let (i, j, k, m, p) = choose|i: int, j: int, k: int, m: int, p: int|
            #[trigger] numeral(s, i, j) && gap(s, j, k) && #[trigger] unit(s, k, m)
                && #[trigger] gap(s, m, p) && p < s.len() && s[p] == '+';
        lemma_sign('+', s, p, p + 1);
        assert(ws[0] == "만"@ && ws[1] == "천"@ && ws[2] == "억"@);
        assert(ps[3].fits(s, k, m));
        assert(fit_at(ps, s, seq![i, i + 1, j, k, m, p, p + 1]));
    }
}

/// The patterns of superlatives find something exactly where a superlative stands in the text.
pub proof fn lemma_superlatives(s: Seq<char>)
    ensures
        any_found(superlative_pieces(), s) <==> superlative(s),
{
    let all = superlative_pieces();
    reveal_strlit("best");
    reveal_strlit("top");
    reveal_strlit("1");
    lemma_whole("best"@, s);
    lemma_top("top"@, "1"@, s);
    lemma_hash("#"@, "1"@, s);
    lemma_no(s);
    lemma_place("1"@, "위"@, s);
    lemma_bare("최고"@, s);
    lemma_bare("최초"@, s);
    lemma_bare("유일"@, s);
    lemma_pair("업계"@, "1위"@, s);
    let ws = seq!["좋은"@, "빠른"@, "정확한"@];
    lemma_choice("가장"@, ws, s);
    assert(ws[0] == "좋은"@ && ws[1] == "빠른"@ && ws[2] == "정확한"@);
    assert(stand_any("가장"@, ws, s) <==> stand(
        "가장"@,
        ws[0],
        s,
        Beside::Nothing,
        Beside::Nothing,
    ) || stand("가장"@, ws[1], s, Beside::Nothing, Beside::Nothing) || stand(
        "가장"@,
        ws[2],
        s,
        Beside::Nothing,
        Beside::Nothing,
    ));
    assert(any_found(all, s) <==> found_in(all[0], s) || found_in(all[1], s) || found_in(all[2], s)
        || found_in(all[3], s) || found_in(all[4], s) || found_in(all[5], s) || found_in(all[6], s)
        || found_in(all[7], s) || found_in(all[8], s) || found_in(all[9], s));
}

/// The patterns of prices find something exactly where a price stands in the text.
pub proof fn lemma_prices(s: Seq<char>)
    ensures
        any_found(price_pieces(), s) <==> price(s),
{
    let all = price_pieces();
    lemma_dollars(s);
    lemma_percents(s);
    lemma_pair("무료"@, "체험"@, s);
    lemma_pair("무료"@, "다운로드"@, s);
    lemma_bare("세일"@, s);
    lemma_bare("특가"@, s);
    lemma_single("이벤트가"@, s);
    assert(any_found(all, s) <==> found_in(all[0], s) || found_in(all[1], s) || found_in(all[2], s)
        || found_in(all[3], s) || found_in(all[4], s) || found_in(all[5], s) || found_in(all[6], s));
}

/// The patterns of claims find something exactly where a claim stands in the text.
pub proof fn lemma_claims(s: Seq<char>)
    ensures
        any_found(claim_pieces(), s) <==> claim(s),
{
    let all = claim_pieces();
    lemma_plenty(s);
    lemma_ranked(s);
    lemma_single("다운로드"@, s);
    lemma_single("수상"@, s);
    lemma_single("최초"@, s);
    lemma_pair("업계"@, "유일"@, s);
    lemma_single("공식"@, s);
    assert(any_found(all, s) <==> found_in(all[0], s) || found_in(all[1], s) || found_in(all[2], s)
        || found_in(all[3], s) || found_in(all[4], s) || found_in(all[5], s) || found_in(all[6], s));
}

proof fn lemma_standing(a: Seq<char>, w: Seq<char>, b: Seq<char>, l: Beside, r: Beside)
    requires
        a.len() > 0 ==> l.allows(a.last()),
        b.len() > 0 ==> r.allows(b[0]),
    ensures
        stands(w, a + w + b, l, r),
{
    let s = a + w + b;
    let i = a.len() as int;
    let j = i + w.len();
    assert(s.subrange(i, j) =~= w);
    assert(spelled(w, s, i, j));
    assert(l.before(s, i) && r.behind(s, j));
}

proof fn lemma_standing_apart(
    a: Seq<char>,
    v: Seq<char>,
    between: Seq<char>,
    w: Seq<char>,
    b: Seq<char>,
    l: Beside,
    r: Beside,
)
    requires
        forall|i: int| 0 <= i < between.len() ==> white_space(#[trigger] between[i]),
        a.len() > 0 ==> l.allows(a.last()),
        b.len() > 0 ==> r.allows(b[0]),
    ensures
        stand(v, w, a + v + between + w + b, l, r),
{
    let s = a + v + between + w + b;
    let i = a.len() as int;
    let j = i + v.len();
    let k = j + between.len();
    let m = k + w.len();
    assert(s.subrange(i, j) =~= v);
    assert(s.subrange(k, m) =~= w);
    assert(spelled(v, s, i, j) && spelled(w, s, k, m));
    assert forall|n: int| j <= n < k implies white_space(#[trigger] s[n]) by {
        assert(s[n] == between[n - j]);
    }
    assert(gap(s, j, k));
    assert(l.before(s, i) && r.behind(s, m));
}

/// One of the patterns is the notation of pieces that fit something that stands in `s`.
pub open spec fn finds(patterns: Seq<Seq<char>>, s: Seq<char>) -> bool {
    exists|n: int, ps: Seq<Piece>|
        0 <= n < patterns.len() && #[trigger] patterns[n] == notation(ps) && #[trigger] found_in(
            ps,
            s,
        )
}

proof fn lemma_finds(patterns: Seq<Seq<char>>, all: Seq<Seq<Piece>>, s: Seq<char>)
    requires
        patterns == all.map_values(|ps: Seq<Piece>| notation(ps)),
        any_found(all, s),
    ensures
        finds(patterns, s),
{
    let n = choose|n: int| 0 <= n < all.len() && found_in(#[trigger] all[n], s);
    assert(patterns[n] == notation(all[n]));
}

proof fn lemma_superlative_finds(s: Seq<char>)
    requires
        superlative(s),
    ensures
        finds(superlative_patterns(), s),
{
    lemma_superlative_notation();
    lemma_superlatives(s);
    lemma_finds(superlative_patterns(), superlative_pieces(), s);
}

/// A superlative is found wherever it is written as a word of its own, whatever stands before and
/// behind it, and however much whitespace stands in it.
pub proof fn lemma_superlative_found(a: Seq<char>, between: Seq<char>, b: Seq<char>)
    requires
        forall|i: int| 0 <= i < between.len() ==> white_space(#[trigger] between[i]),
        b.len() > 0 ==> !word_char(b[0]),
    ensures
        finds(superlative_patterns(), a + "#"@ + between + "1"@ + b),
        finds(superlative_patterns(), a + "업계"@ + between + "1위"@ + b),
        finds(superlative_patterns(), a + "가장"@ + between + "좋은"@ + b),
        finds(superlative_patterns(), a + "가장"@ + between + "빠른"@ + b),
        finds(superlative_patterns(), a + "가장"@ + between + "정확한"@ + b),
        (a.len() == 0 || !is_digit(a.last())) ==> finds(
            superlative_patterns(),
            a + "1"@ + between + "위"@ + b,
        ),
        (a.len() == 0 || !word_char(a.last())) ==> {
            &&& finds(superlative_patterns(), a + "best"@ + b)
            &&& finds(superlative_patterns(), a + "top"@ + between + "1"@ + b)
            &&& finds(superlative_patterns(), a + "no"@ + between + "1"@ + b)
            &&& finds(superlative_patterns(), a + "no."@ + between + "1"@ + b)
            &&& finds(superlative_patterns(), a + "최고"@ + b)
            &&& finds(superlative_patterns(), a + "최초"@ + b)
            &&& finds(superlative_patterns(), a + "유일"@ + b)
        },
{
    let any = Beside::Nothing;
    let word = Beside::WordChar;
    lemma_standing_apart(a, "#"@, between, "1"@, b, any, word);
    lemma_superlative_finds(a + "#"@ + between + "1"@ + b);
    lemma_standing_apart(a, "업계"@, between, "1위"@, b, any, any);
    lemma_superlative_finds(a + "업계"@ + between + "1위"@ + b);
    lemma_standing_apart(a, "가장"@, between, "좋은"@, b, any, any);
    lemma_superlative_finds(a + "가장"@ + between + "좋은"@ + b);
    lemma_standing_apart(a, "가장"@, between, "빠른"@, b, any, any);
    lemma_superlative_finds(a + "가장"@ + between + "빠른"@ + b);
    lemma_standing_apart(a, "가장"@, between, "정확한"@, b, any, any);
    lemma_superlative_finds(a + "가장"@ + between + "정확한"@ + b);
    if a.len() == 0 || !is_digit(a.last()) {
        lemma_standing_apart(a, "1"@, between, "위"@, b, Beside::Digit, any);
        lemma_superlative_finds(a + "1"@ + between + "위"@ + b);
    }
    if a.len() == 0 || !word_char(a.last()) {
        lemma_standing(a, "best"@, b, word, word);
        lemma_superlative_finds(a + "best"@ + b);
        lemma_standing_apart(a, "top"@, between, "1"@, b, word, word);
        lemma_superlative_finds(a + "top"@ + between + "1"@ + b);
        lemma_standing_apart(a, "no"@, between, "1"@, b, word, word);
        lemma_superlative_finds(a + "no"@ + between + "1"@ + b);
        lemma_standing_apart(a, "no."@, between, "1"@, b, word, word);
        lemma_superlative_finds(a + "no."@ + between + "1"@ + b);
        lemma_standing(a, "최고"@, b, Beside::Hangul, Beside::Hangul);
        lemma_superlative_finds(a + "최고"@ + b);
        lemma_standing(a, "최초"@, b, Beside::Hangul, Beside::Hangul);
        lemma_superlative_finds(a + "최초"@ + b);
        lemma_standing(a, "유일"@, b, Beside::Hangul, Beside::Hangul);
        lemma_superlative_finds(a + "유일"@ + b);
    }
}

proof fn lemma_price_finds(s: Seq<char>)
    requires
        price(s),
    ensures
        finds(price_patterns(), s),
{
    lemma_price_notation();
    lemma_prices(s);
    lemma_finds(price_patterns(), price_pieces(), s);
}

/// A price or a discount is found wherever it is written, whatever stands before and behind it,
/// and however much whitespace stands in it.
pub proof fn lemma_price_found(
    a: Seq<char>,
    d: char,
    between: Seq<char>,
    more: Seq<char>,
    b: Seq<char>,
)
    requires
        forall|i: int| 0 <= i < between.len() ==> white_space(#[trigger] between[i]),
        forall|i: int| 0 <= i < more.len() ==> white_space(#[trigger] more[i]),
        is_digit(d),
    ensures
        finds(price_patterns(), a + "$"@ + between + seq![d] + b),
        finds(price_patterns(), a + seq![d] + between + "%"@ + more + "off"@ + b),
        finds(price_patterns(), a + seq![d] + between + "%"@ + more + "할인"@ + b),
        finds(price_patterns(), a + "무료"@ + between + "체험"@ + b),
        finds(price_patterns(), a + "무료"@ + between + "다운로드"@ + b),
        finds(price_patterns(), a + "이벤트가"@ + b),
        (a.len() == 0 || !hangul(a.last())) && (b.len() == 0 || !hangul(b[0])) ==> {
            &&& finds(price_patterns(), a + "세일"@ + b)
            &&& finds(price_patterns(), a + "특가"@ + b)
        },
{
    let any = Beside::Nothing;
    lemma_dollars_written(a, d, between, b);
    lemma_price_finds(a + "$"@ + between + seq![d] + b);
    lemma_percents_written(a, d, between, more, "off"@, b);
    lemma_price_finds(a + seq![d] + between + "%"@ + more + "off"@ + b);
    lemma_percents_written(a, d, between, more, "할인"@, b);
    lemma_price_finds(a + seq![d] + between + "%"@ + more + "할인"@ + b);
    lemma_standing_apart(a, "무료"@, between, "체험"@, b, any, any);
    lemma_price_finds(a + "무료"@ + between + "체험"@ + b);
    lemma_standing_apart(a, "무료"@, between, "다운로드"@, b, any, any);
    lemma_price_finds(a + "무료"@ + between + "다운로드"@ + b);
    lemma_standing(a, "이벤트가"@, b, any, any);
    lemma_price_finds(a + "이벤트가"@ + b);
    if (a.len() == 0 || !hangul(a.last())) && (b.len() == 0 || !hangul(b[0])) {
        lemma_standing(a, "세일"@, b, Beside::Hangul, Beside::Hangul);
        lemma_price_finds(a + "세일"@ + b);
        lemma_standing(a, "특가"@, b, Beside::Hangul, Beside::Hangul);
        lemma_price_finds(a + "특가"@ + b);
    }
}

proof fn lemma_dollars_written(a: Seq<char>, d: char, between: Seq<char>, b: Seq<char>)
    requires
        forall|i: int| 0 <= i < between.len() ==> white_space(#[trigger] between[i]),
        is_digit(d),
    ensures
        dollars(a + "$"@ + between + seq![d] + b),
{
    reveal_strlit("$");
    let s = a + "$"@ + between + seq![d] + b;
    let i = a.len() as int;
    let k = i + 1 + between.len();
    assert forall|n: int| i + 1 <= n < k implies white_space(#[trigger] s[n]) by {
        assert(s[n] == between[n - i - 1]);
    }
    assert(s[i] == '$' && s[k] == d);
    assert(gap(s, i + 1, k));
}

proof fn lemma_percents_written(
    a: Seq<char>,
    d: char,
    between: Seq<char>,
    more: Seq<char>,
    w: Seq<char>,
    b: Seq<char>,
)
    requires
        forall|i: int| 0 <= i < between.len() ==> white_space(#[trigger] between[i]),
        forall|i: int| 0 <= i < more.len() ==> white_space(#[trigger] more[i]),
        is_digit(d),
    ensures
        percents(w, a + seq![d] + between + "%"@ + more + w + b),
{
    reveal_strlit("%");
    let s = a + seq![d] + between + "%"@ + more + w + b;
    let i = a.len() as int;
    let j = i + 1 + between.len();
    let k = j + 1 + more.len();
    let m = k + w.len();
    assert forall|n: int| i + 1 <= n < j implies white_space(#[trigger] s[n]) by {
        assert(s[n] == between[n - i - 1]);
    }
    assert forall|n: int| j + 1 <= n < k implies white_space(#[trigger] s[n]) by {
        assert(s[n] == more[n - j - 1]);
    }
    assert(s[i] == d && s[j] == '%');
    assert(s.subrange(k, m) =~= w);
    assert(gap(s, i + 1, j) && gap(s, j + 1, k) && spelled(w, s, k, m));
}

proof fn lemma_claim_finds(s: Seq<char>)
    requires
        claim(s),
    ensures
        finds(claim_patterns(), s),
{
    lemma_claim_notation();
    lemma_claims(s);
    lemma_finds(claim_patterns(), claim_pieces(), s);
}

/// A claim of fact is found wherever it is written: a number and more, with or without a unit, a
/// rank, downloads, an award, being the first, the only one in the trade, or official.
pub proof fn lemma_claim_found(
    a: Seq<char>,
    d: char,
    digits: Seq<char>,
    between: Seq<char>,
    more: Seq<char>,
    b: Seq<char>,
)
    requires
        forall|i: int| 0 <= i < digits.len() ==> is_digit(#[trigger] digits[i]) || digits[i] == ',',
        forall|i: int| 0 <= i < between.len() ==> white_space(#[trigger] between[i]),
        forall|i: int| 0 <= i < more.len() ==> white_space(#[trigger] more[i]),
        is_digit(d),
    ensures
        finds(claim_patterns(), a + seq![d] + digits + between + seq![] + more + "+"@ + b),
        finds(claim_patterns(), a + seq![d] + digits + between + "만"@ + more + "+"@ + b),
        finds(claim_patterns(), a + seq![d] + digits + between + "천"@ + more + "+"@ + b),
        finds(claim_patterns(), a + seq![d] + digits + between + "억"@ + more + "+"@ + b),
        finds(claim_patterns(), a + seq![d] + between + "위"@ + b),
        finds(claim_patterns(), a + "다운로드"@ + b),
        finds(claim_patterns(), a + "수상"@ + b),
        finds(claim_patterns(), a + "최초"@ + b),
        finds(claim_patterns(), a + "업계"@ + between + "유일"@ + b),
        finds(claim_patterns(), a + "공식"@ + b),
{
    let any = Beside::Nothing;
    lemma_plenty_written(a, d, digits, between, seq![], more, b);
    lemma_claim_finds(a + seq![d] + digits + between + seq![] + more + "+"@ + b);
    lemma_plenty_written(a, d, digits, between, "만"@, more, b);
    lemma_claim_finds(a + seq![d] + digits + between + "만"@ + more + "+"@ + b);
    lemma_plenty_written(a, d, digits, between, "천"@, more, b);
    lemma_claim_finds(a + seq![d] + digits + between + "천"@ + more + "+"@ + b);
    lemma_plenty_written(a, d, digits, between, "억"@, more, b);
    lemma_claim_finds(a + seq![d] + digits + between + "억"@ + more + "+"@ + b);
    lemma_ranked_written(a, d, between, b);
    lemma_claim_finds(a + seq![d] + between + "위"@ + b);
    lemma_standing(a, "다운로드"@, b, any, any);
    lemma_claim_finds(a + "다운로드"@ + b);
    lemma_standing(a, "수상"@, b, any, any);
    lemma_claim_finds(a + "수상"@ + b);
    lemma_standing(a, "최초"@, b, any, any);
    lemma_claim_finds(a + "최초"@ + b);
    lemma_standing_apart(a, "업계"@, between, "유일"@, b, any, any);
    lemma_claim_finds(a + "업계"@ + between + "유일"@ + b);
    lemma_standing(a, "공식"@, b, any, any);
    lemma_claim_finds(a + "공식"@ + b);
}

proof fn lemma_ranked_written(a: Seq<char>, d: char, between: Seq<char>, b: Seq<char>)
    requires
        forall|i: int| 0 <= i < between.len() ==> white_space(#[trigger] between[i]),
        is_digit(d),
    ensures
        ranked(a + seq![d] + between + "위"@ + b),
{
    let w = "위"@;
    let s = a + seq![d] + between + w + b;
    let i = a.len() as int;
    let k = i + 1 + between.len();
    let m = k + w.len();
    assert forall|n: int| i + 1 <= n < k implies white_space(#[trigger] s[n]) by {
        assert(s[n] == between[n - i - 1]);
    }
    assert(s[i] == d);
    assert(s.subrange(k, m) =~= w);
    assert(gap(s, i + 1, k) && spelled(w, s, k, m));
}

proof fn lemma_plenty_written(
    a: Seq<char>,
    d: char,
    digits: Seq<char>,
    between: Seq<char>,
    u: Seq<char>,
    more: Seq<char>,
    b: Seq<char>,
)
    requires
        forall|i: int| 0 <= i < digits.len() ==> is_digit(#[trigger] digits[i]) || digits[i] == ',',
        forall|i: int| 0 <= i < between.len() ==> white_space(#[trigger] between[i]),
        forall|i: int| 0 <= i < more.len() ==> white_space(#[trigger] more[i]),
        is_digit(d),
        u.len() == 0 || u == "만"@ || u == "천"@ || u == "억"@,
    ensures
        plenty(a + seq![d] + digits + between + u + more + "+"@ + b),
{
    reveal_strlit("+");
    let s = a + seq![d] + digits + between + u + more + "+"@ + b;
    let i = a.len() as int;
    let j = i + 1 + digits.len();
    let k = j + between.len();
    let m = k + u.len();
    let p = m + more.len();
    assert forall|n: int| i < n < j implies is_digit(#[trigger] s[n]) || s[n] == ',' by {
        assert(s[n] == digits[n - i - 1]);
    }
    assert forall|n: int| j <= n < k implies white_space(#[trigger] s[n]) by {
        assert(s[n] == between[n - j]);
    }
    assert forall|n: int| m <= n < p implies white_space(#[trigger] s[n]) by {
        assert(s[n] == more[n - m]);
    }
    assert(s[i] == d && s[p] == '+');
    assert(s.subrange(k, m) =~= u);
    assert(numeral(s, i, j) && gap(s, j, k) && unit(s, k, m) && gap(s, m, p));
}

/// How the pieces of a pattern are written: in the notation of regular expressions, each behind the
/// one before it.
pub proof fn lemma_written(ps: Seq<Piece>, p: Piece, k: Kind, c: char, w: Seq<char>)
    ensures
        notation(seq![]) == Seq::<char>::empty(),
        notation(ps.push(p)) == notation(ps) + p.notation(),
        Kind::Digit.notation() == seq!['\\', 'd'],
        Kind::NotDigit.notation() == seq!['\\', 'D'],
        Kind::Space.notation() == seq!['\\', 's'],
        Kind::Dot.notation() == seq!['\\', '.'],
        Kind::DigitOrComma.notation() == seq!['[', '\\', 'd', ',', ']'],
        Kind::NotHangul.notation() == seq!['[', '^', '가', '-', '힣', ']'],
        Piece::Edge.notation() == seq!['\\', 'b'],
        Piece::One(k).notation() == k.notation(),
        Piece::Maybe(k).notation() == k.notation().push('?'),
        Piece::Any(k).notation() == k.notation().push('*'),
        Piece::Many(k).notation() == k.notation().push('+'),
        Piece::StartOr(k).notation() == seq!['(', '?', ':', '^', '|'] + k.notation() + seq![')'],
        Piece::OrEnd(k).notation() == seq!['(', '?', ':'] + k.notation() + seq!['|', '$', ')'],
        word_char(c) ==> Piece::Word(w.push(c)).notation() == Piece::Word(w).notation().push(c),
{
    lemma_notation_push(ps, p);
    lemma_special(c);
    assert(w.push(c).drop_last() =~= w);
    reveal_strlit(r"\d");
    reveal_strlit(r"\D");
    reveal_strlit(r"\s");
    reveal_strlit(r"\.");
    reveal_strlit(r"[\d,]");
    reveal_strlit("[^가-힣]");
    reveal_strlit(r"\b");
    reveal_strlit("?");
    reveal_strlit("*");
    reveal_strlit("+");
    reveal_strlit("(?:^|");
    reveal_strlit(")");
    reveal_strlit("(?:");
    reveal_strlit("|$)");
    assert(k.notation() + "?"@ =~= k.notation().push('?'));
    assert(k.notation() + "*"@ =~= k.notation().push('*'));
    assert(k.notation() + "+"@ =~= k.notation().push('+'));
    assert("(?:^|"@ =~= seq!['(', '?', ':', '^', '|']);
    assert(")"@ =~= seq![')']);
    assert("(?:"@ =~= seq!['(', '?', ':']);
    assert("|$)"@ =~= seq!['|', '$', ')']);
}

/// Nothing is found in a text with neither Hangul nor digits, but for the word `best`; no price and
/// no claim is, and no superlative but that.
pub proof fn lemma_nothing_found(s: Seq<char>)
    requires
        forall|i: int| 0 <= i < s.len() ==> !hangul(#[trigger] s[i]) && !is_digit(s[i]),
    ensures
        any_found(superlative_pieces(), s) ==> stands(
            "best"@,
            s,
            Beside::WordChar,
            Beside::WordChar,
        ),
        !any_found(price_pieces(), s),
        !any_found(claim_pieces(), s),
{
    lemma_superlatives(s);
    lemma_prices(s);
    lemma_claims(s);
    reveal_strlit("1");
    reveal_strlit("1위");
    reveal_strlit("위");
    reveal_strlit("최고");
    reveal_strlit("최초");
    reveal_strlit("유일");
    reveal_strlit("업계");
    reveal_strlit("가장");
    reveal_strlit("할인");
    reveal_strlit("무료");
    reveal_strlit("세일");
    reveal_strlit("특가");
    reveal_strlit("이벤트가");
    reveal_strlit("다운로드");
    reveal_strlit("수상");
    reveal_strlit("공식");
    assert forall|w: Seq<char>, i: int, j: int|
        w.len() > 0 && (hangul(w[0]) || is_digit(w[0])) implies !#[trigger] spelled(w, s, i, j) by {
        if spelled(w, s, i, j) {
            lemma_spelled(w, s, i, j);
            assert(!hangul(s[i]) && !is_digit(s[i]));
        }
    }
    assert forall|i: int, j: int| !#[trigger] numeral(s, i, j) by {
        if numeral(s, i, j) {
            assert(!is_digit(s[i]));
        }
    }
}

} // verus!
