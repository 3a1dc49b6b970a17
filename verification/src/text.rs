//! Text as sequences of characters: the operations on strings that the rest of the library is
//! written with.
use vstd::prelude::*;

verus! {

/// The code points that carry the Unicode property `White_Space`.
pub open spec fn white_space(c: char) -> bool {
    ||| '\u{9}' <= c <= '\u{d}'
    ||| c == ' '
    ||| c == '\u{85}'
    ||| c == '\u{a0}'
    ||| c == '\u{1680}'
    ||| '\u{2000}' <= c <= '\u{200a}'
    ||| c == '\u{2028}'
    ||| c == '\u{2029}'
    ||| c == '\u{202f}'
    ||| c == '\u{205f}'
    ||| c == '\u{3000}'
}

/// What `char::is_alphanumeric` answers.
pub uninterp spec fn alphanumeric(c: char) -> bool;

/// What `str::to_lowercase` returns.
pub uninterp spec fn lowercase(s: Seq<char>) -> Seq<char>;

/// `char::is_whitespace` answers whether a character has the Unicode property `White_Space`,
/// which is a fixed list of code points.
pub assume_specification[ char::is_whitespace ](c: char) -> (r: bool)
    ensures
        r == white_space(c),
;

/// An ASCII character.
pub open spec fn ascii(c: char) -> bool {
    c <= '\u{7f}'
}

/// A text of ASCII characters.
pub open spec fn all_ascii(s: Seq<char>) -> bool {
    forall|i: int| 0 <= i < s.len() ==> ascii(#[trigger] s[i])
}

/// An ASCII letter or digit.
pub open spec fn ascii_alphanumeric(c: char) -> bool {
    '0' <= c <= '9' || 'A' <= c <= 'Z' || 'a' <= c <= 'z'
}

/// An ASCII letter in lower case; any other character as it is.
pub open spec fn ascii_lower(c: char) -> char {
    if 'A' <= c <= 'Z' {
        (c as u32 + 32) as char
    } else {
        c
    }
}

/// An ASCII letter in upper case; any other character as it is.
pub open spec fn ascii_upper(c: char) -> char {
    if 'a' <= c <= 'z' {
        (c as u32 - 32) as char
    } else {
        c
    }
}

/// A text with its ASCII letters in lower case.
pub open spec fn lower_ascii(s: Seq<char>) -> Seq<char> {
    s.map_values(|c: char| ascii_lower(c))
}

/// A text with its ASCII letters in upper case.
pub open spec fn upper_ascii(s: Seq<char>) -> Seq<char> {
    s.map_values(|c: char| ascii_upper(c))
}

/// Every character of `t` is one of `s` or whitespace.
pub open spec fn made_of(t: Seq<char>, s: Seq<char>) -> bool {
    forall|i: int| 0 <= i < t.len() ==> s.contains(#[trigger] t[i]) || white_space(t[i])
}

/// Only letters, digits and whitespace.
pub open spec fn lettered(s: Seq<char>) -> bool {
    forall|i: int| 0 <= i < s.len() ==> alphanumeric(#[trigger] s[i]) || white_space(s[i])
}

/// `char::is_alphanumeric` answers by the Unicode tables that the standard library carries. The
/// tables are not written out: the answer is a fixed function of the character. Of the ASCII
/// characters it holds for the letters, in either case, and the digits.
pub assume_specification[ char::is_alphanumeric ](c: char) -> (r: bool)
    ensures
        r == alphanumeric(c),
        r == alphanumeric(ascii_upper(c)),
        ascii(c) ==> r == ascii_alphanumeric(c),
;

/// `str::to_lowercase` maps a text by the Unicode tables that the standard library carries, some
/// characters to several, a final sigma by its context. The tables are not written out: the
/// result is a fixed function of the text. In a text of ASCII characters the letters `A` to `Z`
/// become `a` to `z`, and nothing else changes. Of any text it says:
/// - It does not matter in which case an ASCII letter is written.
/// - What the result consists of has no other lower case, nor has whitespace: a text made up of
///   them is its own lower case.
/// - Whitespace has no case: an end of a text that is none does not become whitespace.
/// - A lower-case letter is a letter, and digits and whitespace have no case: letters, digits and
///   whitespace become such. The exception is U+0130, which becomes an `i` with a combining dot.
pub assume_specification[ str::to_lowercase ](s: &str) -> (r: String)
    ensures
        r@ == lowercase(s@),
        r@ == lowercase(upper_ascii(s@)),
        all_ascii(s@) ==> r@ == lower_ascii(s@),
        forall|t: Seq<char>| made_of(t, r@) ==> #[trigger] lowercase(t) == t,
        trim(s@) == s@ ==> trim(r@) == r@,
        lettered(s@) && !s@.contains('\u{130}') ==> lettered(r@),
;

/// `String::push` appends one character.
pub assume_specification[ String::push ](s: &mut String, c: char)
    ensures
        final(s)@ == old(s)@.push(c),
;

/// The texts that a sequence of strings holds.
pub open spec fn texts(v: Seq<String>) -> Seq<Seq<char>> {
    v.map_values(|s: String| s@)
}

/// The texts that a sequence of character vectors holds.
pub open spec fn char_seqs(v: Seq<Vec<char>>) -> Seq<Seq<char>> {
    v.map_values(|s: Vec<char>| s@)
}

/// Nothing but whitespace.
pub open spec fn blank(s: Seq<char>) -> bool {
    forall|i: int| 0 <= i < s.len() ==> white_space(#[trigger] s[i])
}

/// `s` without the whitespace it starts with.
pub open spec fn trim_start(s: Seq<char>) -> Seq<char>
    decreases s.len(),
{
    if s.len() > 0 && white_space(s[0]) {
        trim_start(s.drop_first())
    } else {
        s
    }
}

/// `s` without the whitespace it ends with.
pub open spec fn trim_end(s: Seq<char>) -> Seq<char>
    decreases s.len(),
{
    if s.len() > 0 && white_space(s.last()) {
        trim_end(s.drop_last())
    } else {
        s
    }
}

/// `s` without the whitespace at either end.
pub open spec fn trim(s: Seq<char>) -> Seq<char> {
    trim_end(trim_start(s))
}

/// How many characters of `s` stand before the first `c`.
pub open spec fn before(s: Seq<char>, c: char) -> int
    decreases s.len(),
{
    if s.len() == 0 || s[0] == c {
        0
    } else {
        1 + before(s.drop_first(), c)
    }
}

/// A line without the carriage return that belongs to its line ending.
pub open spec fn strip_return(s: Seq<char>) -> Seq<char> {
    if s.len() > 0 && s.last() == '\r' {
        s.drop_last()
    } else {
        s
    }
}

/// The lines of `s`. A line ends at `\n` or `\r\n`; the last one may end with the text.
pub open spec fn lines(s: Seq<char>) -> Seq<Seq<char>>
    decreases s.len(),
{
    let n = before(s, '\n');
    if s.len() == 0 {
        seq![]
    } else if 0 <= n < s.len() {
        seq![strip_return(s.take(n))] + lines(s.skip(n + 1))
    } else {
        seq![s]
    }
}

/// How many characters of `s` stand before its first whitespace.
pub open spec fn word_len(s: Seq<char>) -> int
    decreases s.len(),
{
    if s.len() == 0 || white_space(s[0]) {
        0
    } else {
        1 + word_len(s.drop_first())
    }
}

/// The maximal runs of `s` that hold no whitespace.
pub open spec fn words(s: Seq<char>) -> Seq<Seq<char>>
    decreases s.len(),
{
    if s.len() == 0 {
        seq![]
    } else if white_space(s[0]) {
        words(s.drop_first())
    } else {
        let n = word_len(s);
        if 0 < n <= s.len() {
            seq![s.take(n)] + words(s.skip(n))
        } else {
            seq![]
        }
    }
}

/// `parts` one after the other, `sep` between two of them.
pub open spec fn join(parts: Seq<Seq<char>>, sep: Seq<char>) -> Seq<char>
    decreases parts.len(),
{
    if parts.len() == 0 {
        seq![]
    } else if parts.len() == 1 {
        parts[0]
    } else {
        join(parts.drop_last(), sep) + sep + parts.last()
    }
}

/// `part` stands in `whole` at position `i`.
pub open spec fn stands_at(part: Seq<char>, whole: Seq<char>, i: int) -> bool {
    &&& 0 <= i
    &&& i + part.len() <= whole.len()
    &&& whole.subrange(i, i + part.len()) == part
}

/// `part` is a run of consecutive characters of `whole`.
pub open spec fn occurs(part: Seq<char>, whole: Seq<char>) -> bool {
    exists|i: int| stands_at(part, whole, i)
}

/// The decimal digit `d`.
pub open spec fn digit(d: nat) -> char {
    (('0' as nat) + d) as char
}

/// `n` in decimal.
pub open spec fn decimal(n: nat) -> Seq<char>
    decreases n,
{
    if n < 10 {
        seq![digit(n)]
    } else {
        decimal(n / 10).push(digit(n % 10))
    }
}

/// `n` in decimal, with a leading zero where it has one digit only.
pub open spec fn decimal2(n: nat) -> Seq<char> {
    if n < 10 {
        seq!['0'] + decimal(n)
    } else {
        decimal(n)
    }
}

/// The characters of `s`.
pub fn chars_of(s: &str) -> (r: Vec<char>)
    ensures
        r@ == s@,
{
    let mut out: Vec<char> = Vec::new();
    for c in it: s.chars()
        invariant
            out@ == it.seq().take(it.index()),
            it.seq() == s@,
    {
        out.push(c);
    }
    out
}

/// The string made of the characters of `v`.
pub fn string_of(v: &Vec<char>) -> (r: String)
    ensures
        r@ == v@,
{
    let mut out = String::new();
    for i in 0..v.len()
        invariant
            out@ == v@.take(i as int),
    {
        out.push(v[i]);
    }
    out
}

/// The characters of `v` from `from` up to `to`.
pub fn part_of(v: &Vec<char>, from: usize, to: usize) -> (r: Vec<char>)
    requires
        from <= to <= v@.len(),
    ensures
        r@ == v@.subrange(from as int, to as int),
{
    let mut out: Vec<char> = Vec::new();
    for i in from..to
        invariant
            from <= to <= v@.len(),
            out@ == v@.subrange(from as int, i as int),
    {
        out.push(v[i]);
    }
    out
}

/// Whether two vectors hold the same text.
pub fn same(a: &Vec<char>, b: &Vec<char>) -> (r: bool)
    ensures
        r == (a@ == b@),
{
    if a.len() != b.len() {
        return false;
    }
    for i in 0..a.len()
        invariant
            a@.len() == b@.len(),
            forall|j: int| 0 <= j < i ==> a@[j] == b@[j],
    {
        if a[i] != b[i] {
            return false;
        }
    }
    assert(a@ =~= b@);
    true
}

/// Whether two strings hold the same text.
pub fn same_text(a: &str, b: &str) -> (r: bool)
    ensures
        r == (a@ == b@),
{
    same(&chars_of(a), &chars_of(b))
}

/// Whether `v` holds nothing but whitespace.
pub fn is_blank(v: &Vec<char>) -> (r: bool)
    ensures
        r == blank(v@),
{
    for i in 0..v.len()
        invariant
            forall|j: int| 0 <= j < i ==> white_space(#[trigger] v@[j]),
    {
        if !v[i].is_whitespace() {
            return false;
        }
    }
    true
}

/// Skipping whitespace at the front does not change what is left after it.
pub(crate) proof fn lemma_trim_start_skip(s: Seq<char>, n: int)
    requires
        0 <= n <= s.len(),
        blank(s.take(n)),
    ensures
        trim_start(s) == trim_start(s.skip(n)),
    decreases n,
{
    if n == 0 {
        assert(s.skip(0) =~= s);
    } else {
        assert(s.take(n)[0] == s[0]);
        assert forall|i: int| 0 <= i < n - 1 implies white_space(#[trigger] s.drop_first().take(n - 1)[i]) by {
            assert(s.take(n)[i + 1] == s.drop_first().take(n - 1)[i]);
        }
        lemma_trim_start_skip(s.drop_first(), n - 1);
        assert(s.drop_first().skip(n - 1) =~= s.skip(n));
    }
}

/// Dropping whitespace at the back does not change what is left before it.
pub(crate) proof fn lemma_trim_end_take(s: Seq<char>, n: int)
    requires
        0 <= n <= s.len(),
        blank(s.skip(n)),
    ensures
        trim_end(s) == trim_end(s.take(n)),
    decreases s.len() - n,
{
    if n == s.len() {
        assert(s.take(n) =~= s);
    } else {
        assert(s.skip(n)[s.len() - 1 - n] == s.last());
        assert forall|i: int| 0 <= i < s.len() - 1 - n implies white_space(#[trigger] s.drop_last().skip(n)[i]) by {
            assert(s.skip(n)[i] == s.drop_last().skip(n)[i]);
        }
        lemma_trim_end_take(s.drop_last(), n);
        assert(s.drop_last().take(n) =~= s.take(n));
    }
}

/// `v` without the whitespace it starts with.
pub fn trimmed_start(v: &Vec<char>) -> (r: Vec<char>)
    ensures
        r@ == trim_start(v@),
{
    let mut i: usize = 0;
    while i < v.len() && v[i].is_whitespace()
        invariant
            i <= v@.len(),
            blank(v@.take(i as int)),
        decreases v@.len() - i,
    {
        i += 1;
    }
    proof {
        lemma_trim_start_skip(v@, i as int);
        if i < v@.len() {
            assert(v@.skip(i as int)[0] == v@[i as int]);
        }
        assert(v@.subrange(i as int, v@.len() as int) =~= v@.skip(i as int));
    }
    part_of(v, i, v.len())
}

/// `v` without the whitespace at either end.
pub fn trimmed(v: &Vec<char>) -> (r: Vec<char>)
    ensures
        r@ == trim(v@),
{
    let s = trimmed_start(v);
    let mut n: usize = s.len();
    while n > 0 && s[n - 1].is_whitespace()
        invariant
            n <= s@.len(),
            blank(s@.skip(n as int)),
        decreases n,
    {
        n -= 1;
        assert forall|i: int| 0 <= i < s@.skip(n as int).len() implies white_space(
            #[trigger] s@.skip(n as int)[i],
        ) by {
            if i > 0 {
                assert(s@.skip(n + 1)[i - 1] == s@.skip(n as int)[i]);
            }
        }
    }
    proof {
        lemma_trim_end_take(s@, n as int);
        if n > 0 {
            assert(s@.take(n as int).last() == s@[n - 1]);
        }
        assert(s@.subrange(0, n as int) =~= s@.take(n as int));
    }
    part_of(&s, 0, n)
}

/// `before` names a position of `c`, or the end of the text.
proof fn lemma_before(s: Seq<char>, c: char, n: int)
    requires
        0 <= n <= s.len(),
        forall|j: int| 0 <= j < n ==> s[j] != c,
        n < s.len() ==> s[n] == c,
    ensures
        before(s, c) == n,
    decreases n,
{
    if n > 0 {
        lemma_before(s.drop_first(), c, n - 1);
    }
}

/// The lines of `v`.
pub fn lines_of(v: &Vec<char>) -> (r: Vec<Vec<char>>)
    ensures
        char_seqs(r@) == lines(v@),
{
    let mut out: Vec<Vec<char>> = Vec::new();
    let mut start: usize = 0;
    assert(v@.skip(0) =~= v@);
    while start < v.len()
        invariant
            start <= v@.len(),
            char_seqs(out@) + lines(v@.skip(start as int)) == lines(v@),
        decreases v@.len() - start,
    {
        let ghost rest = v@.skip(start as int);
        let ghost done = char_seqs(out@);
        let mut end: usize = start;
        while end < v.len() && v[end] != '\n'
            invariant
                start <= end <= v@.len(),
                rest == v@.skip(start as int),
                forall|j: int| 0 <= j < end - start ==> rest[j] != '\n',
            decreases v@.len() - end,
        {
            end += 1;
        }
        proof {
            lemma_before(rest, '\n', end - start);
        }
        if end < v.len() {
            let ghost line = rest.take(end - start);
            assert(line =~= v@.subrange(start as int, end as int));
            let stop: usize = if end > start && v[end - 1] == '\r' {
                end - 1
            } else {
                end
            };
            assert(strip_return(line) =~= v@.subrange(start as int, stop as int));
            out.push(part_of(v, start, stop));
            assert(rest.skip(end - start + 1) =~= v@.skip(end + 1));
            assert(char_seqs(out@) =~= done.push(strip_return(line)));
            start = end + 1;
            assert(char_seqs(out@) + lines(v@.skip(start as int)) =~= done + (seq![
                strip_return(line),
            ] + lines(v@.skip(start as int))));
        } else {
            out.push(part_of(v, start, end));
            assert(v@.subrange(start as int, end as int) =~= rest);
            assert(char_seqs(out@) =~= done.push(rest));
            start = end;
            assert(lines(v@.skip(start as int)) =~= seq![]);
            assert(char_seqs(out@) + lines(v@.skip(start as int)) =~= done + seq![rest]);
        }
    }
    assert(lines(v@.skip(start as int)) =~= seq![]);
    assert(char_seqs(out@) + lines(v@.skip(start as int)) =~= char_seqs(out@));
    out
}

/// `word_len` names a position of whitespace, or the end of the text.
pub(crate) proof fn lemma_word_len(s: Seq<char>, n: int)
    requires
        0 <= n <= s.len(),
        forall|j: int| 0 <= j < n ==> !white_space(#[trigger] s[j]),
        n < s.len() ==> white_space(s[n]),
    ensures
        word_len(s) == n,
    decreases n,
{
    if n > 0 {
        assert(!white_space(s[0]));
        lemma_word_len(s.drop_first(), n - 1);
    }
}

/// No word is empty, and none holds whitespace.
pub proof fn lemma_words_filled(s: Seq<char>)
    ensures
        forall|i: int| 0 <= i < words(s).len() ==> (#[trigger] words(s)[i]).len() > 0,
        forall|i: int, j: int|
            0 <= i < words(s).len() && 0 <= j < words(s)[i].len() ==> !white_space(
                #[trigger] words(s)[i][j],
            ),
    decreases s.len(),
{
    if s.len() > 0 {
        if white_space(s[0]) {
            lemma_words_filled(s.drop_first());
            assert(words(s) == words(s.drop_first()));
        } else {
            let n = word_len(s);
            if 0 < n <= s.len() {
                let rest = words(s.skip(n));
                assert(words(s) == seq![s.take(n)] + rest);
                lemma_words_filled(s.skip(n));
                lemma_word_dark(s);
                assert forall|i: int| 0 <= i < words(s).len() implies (
                #[trigger] words(s)[i]).len() > 0 by {
                    if i > 0 {
                        assert(words(s)[i] == rest[i - 1]);
                    }
                }
                assert forall|i: int, j: int|
                    0 <= i < words(s).len() && 0 <= j < words(s)[i].len() implies !white_space(
                    #[trigger] words(s)[i][j],
                ) by {
                    if i > 0 {
                        assert(words(s)[i] == rest[i - 1]);
                    } else {
                        assert(words(s)[0] == s.take(n));
                    }
                }
            }
        }
    }
}

pub(crate) proof fn lemma_word_dark(s: Seq<char>)
    ensures
        0 <= word_len(s) <= s.len(),
        forall|j: int| 0 <= j < word_len(s) ==> !white_space(#[trigger] s[j]),
    decreases s.len(),
{
    if s.len() > 0 && !white_space(s[0]) {
        let t = s.drop_first();
        lemma_word_dark(t);
        assert forall|j: int| 0 <= j < word_len(s) implies !white_space(#[trigger] s[j]) by {
            if j > 0 {
                assert(s[j] == t[j - 1]);
            }
        }
    }
}

/// The words of `v`.
pub fn words_of(v: &Vec<char>) -> (r: Vec<Vec<char>>)
    ensures
        char_seqs(r@) == words(v@),
{
    let mut out: Vec<Vec<char>> = Vec::new();
    let mut start: usize = 0;
    assert(v@.skip(0) =~= v@);
    assert(char_seqs(out@) + words(v@) =~= words(v@));
    while start < v.len()
        invariant
            start <= v@.len(),
            char_seqs(out@) + words(v@.skip(start as int)) == words(v@),
        decreases v@.len() - start,
    {
        let ghost rest = v@.skip(start as int);
        let ghost done = char_seqs(out@);
        if v[start].is_whitespace() {
            assert(rest.drop_first() =~= v@.skip(start + 1));
            start += 1;
        } else {
            let mut end: usize = start + 1;
            while end < v.len() && !v[end].is_whitespace()
                invariant
                    start < end <= v@.len(),
                    rest == v@.skip(start as int),
                    forall|j: int| 0 <= j < end - start ==> !white_space(#[trigger] rest[j]),
                decreases v@.len() - end,
            {
                end += 1;
            }
            proof {
                lemma_word_len(rest, end - start);
                assert(rest.take(end - start) =~= v@.subrange(start as int, end as int));
                assert(rest.skip(end - start) =~= v@.skip(end as int));
            }
            let ghost word = rest.take(end - start);
            out.push(part_of(v, start, end));
            assert(char_seqs(out@) =~= done.push(word));
            start = end;
            assert(char_seqs(out@) + words(v@.skip(start as int)) =~= done + (seq![word]
                + words(v@.skip(start as int))));
        }
    }
    assert(words(v@.skip(start as int)) =~= seq![]);
    assert(char_seqs(out@) + words(v@.skip(start as int)) =~= char_seqs(out@));
    out
}

/// The strings of `parts` one after the other, `sep` between two of them.
pub fn joined(parts: &Vec<String>, sep: &str) -> (r: String)
    ensures
        r@ == join(texts(parts@), sep@),
{
    let mut out = String::new();
    for i in 0..parts.len()
        invariant
            out@ == join(texts(parts@).take(i as int), sep@),
    {
        let ghost upto = texts(parts@).take(i + 1);
        assert(upto.drop_last() =~= texts(parts@).take(i as int));
        assert(upto.last() == parts@[i as int]@);
        if i > 0 {
            out.append(sep);
        }
        out.append(parts[i].as_str());
        if i == 0 {
            assert(out@ =~= upto[0]);
        }
    }
    assert(texts(parts@).take(parts@.len() as int) =~= texts(parts@));
    out
}

/// Whether `part` stands in `whole` at position `i`.
fn is_at(part: &Vec<char>, whole: &Vec<char>, i: usize) -> (r: bool)
    requires
        i + part@.len() <= whole@.len(),
    ensures
        r == stands_at(part@, whole@, i as int),
{
    let end: usize = whole.len();
    for j in 0..part.len()
        invariant
            end == whole@.len(),
            i + part@.len() <= end,
            forall|k: int| 0 <= k < j ==> whole@[i + k] == part@[k],
    {
        if whole[i + j] != part[j] {
            assert(whole@.subrange(i as int, i + part@.len())[j as int] != part@[j as int]);
            return false;
        }
    }
    assert(whole@.subrange(i as int, i + part@.len()) =~= part@);
    true
}

/// Whether `part` is a run of consecutive characters of `whole`.
pub fn contains_text(whole: &Vec<char>, part: &Vec<char>) -> (r: bool)
    ensures
        r == occurs(part@, whole@),
{
    if part.len() > whole.len() {
        return false;
    }
    let last: usize = whole.len() - part.len();
    let mut i: usize = 0;
    while i <= last
        invariant
            last == whole@.len() - part@.len(),
            i <= last + 1,
            forall|k: int| 0 <= k < i ==> !stands_at(part@, whole@, k),
        decreases last + 1 - i,
    {
        if is_at(part, whole, i) {
            return true;
        }
        if i == last {
            return false;
        }
        i += 1;
    }
    false
}

/// The decimal digit `d`.
fn digit_of(d: u64) -> (r: char)
    requires
        d < 10,
    ensures
        r == digit(d as nat),
{
    (48u8 + d as u8) as char
}

/// Appends `n` in decimal.
pub fn push_decimal(out: &mut String, n: u64)
    ensures
        final(out)@ == old(out)@ + decimal(n as nat),
    decreases n,
{
    if n >= 10 {
        push_decimal(out, n / 10);
    }
    out.push(digit_of(n % 10));
    assert(out@ =~= old(out)@ + decimal(n as nat));
}

/// Appends `n` in decimal, with a leading zero where it has one digit only.
pub fn push_decimal2(out: &mut String, n: u64)
    ensures
        final(out)@ == old(out)@ + decimal2(n as nat),
{
    if n < 10 {
        out.push('0');
    }
    push_decimal(out, n);
    assert(out@ =~= old(out)@ + decimal2(n as nat));
}

/// Whether no two of the texts are the same.
pub fn all_distinct(v: &Vec<Vec<char>>) -> (r: bool)
    ensures
        r == char_seqs(v@).no_duplicates(),
{
    for i in 0..v.len()
        invariant
            forall|a: int, b: int| 0 <= a < b < v@.len() && a < i ==> v@[a]@ != v@[b]@,
    {
        for j in i + 1..v.len()
            invariant
                i < v@.len(),
                forall|b: int| i < b < j ==> v@[i as int]@ != v@[b]@,
        {
            if same(&v[i], &v[j]) {
                assert(char_seqs(v@)[i as int] == char_seqs(v@)[j as int]);
                return false;
            }
        }
    }
    assert forall|a: int, b: int|
        0 <= a < char_seqs(v@).len() && 0 <= b < char_seqs(v@).len() && a != b implies char_seqs(
        v@,
    )[a] != char_seqs(v@)[b] by {
        if a < b {
            assert(v@[a]@ != v@[b]@);
        } else {
            assert(v@[b]@ != v@[a]@);
        }
    }
    true
}

/// The strings made of the vectors of `v`.
pub fn strings_of(v: &Vec<Vec<char>>) -> (r: Vec<String>)
    ensures
        texts(r@) == char_seqs(v@),
{
    let mut out: Vec<String> = Vec::new();
    for i in 0..v.len()
        invariant
            texts(out@) == char_seqs(v@).take(i as int),
    {
        let ghost prev = texts(out@);
        out.push(string_of(&v[i]));
        assert(texts(out@) =~= prev.push(v@[i as int]@));
    }
    assert(char_seqs(v@).take(v@.len() as int) =~= char_seqs(v@));
    out
}

/// Whether `t` is one of the texts of `v`.
pub fn includes(v: &Vec<Vec<char>>, t: &Vec<char>) -> (r: bool)
    ensures
        r == char_seqs(v@).contains(t@),
{
    for i in 0..v.len()
        invariant
            forall|j: int| 0 <= j < i ==> v@[j]@ != t@,
    {
        if same(&v[i], t) {
            assert(char_seqs(v@)[i as int] == t@);
            return true;
        }
    }
    false
}

/// Whether `t` is one of the texts of `v`.
pub fn holds(v: &Vec<String>, t: &str) -> (r: bool)
    ensures
        r == texts(v@).contains(t@),
{
    for i in 0..v.len()
        invariant
            forall|k: int| 0 <= k < i ==> #[trigger] texts(v@)[k] != t@,
    {
        if same_text(v[i].as_str(), t) {
            assert(texts(v@)[i as int] == t@);
            return true;
        }
    }
    false
}

/// The same texts again.
pub fn copied(v: &Vec<String>) -> (r: Vec<String>)
    ensures
        texts(r@) == texts(v@),
{
    let mut out: Vec<String> = Vec::new();
    for i in 0..v.len()
        invariant
            texts(out@) == texts(v@).take(i as int),
    {
        let ghost prev = texts(out@);
        out.push(v[i].clone());
        assert(texts(out@) =~= prev.push(texts(v@)[i as int]));
    }
    assert(texts(v@).take(v@.len() as int) =~= texts(v@));
    out
}

/// The non-empty texts of `s`, each once, where it first stands.
pub open spec fn firsts(s: Seq<Seq<char>>) -> Seq<Seq<char>>
    decreases s.len(),
{
    if s.len() == 0 {
        seq![]
    } else {
        let earlier = firsts(s.drop_last());
        if s.last().len() == 0 || earlier.contains(s.last()) {
            earlier
        } else {
            earlier.push(s.last())
        }
    }
}

/// The non-empty texts of `v`, each once, where it first stands.
pub fn firsts_of(v: &Vec<Vec<char>>) -> (r: Vec<Vec<char>>)
    ensures
        char_seqs(r@) == firsts(char_seqs(v@)),
{
    let mut out: Vec<Vec<char>> = Vec::new();
    assert(char_seqs(out@) =~= seq![]);
    for i in 0..v.len()
        invariant
            char_seqs(out@) == firsts(char_seqs(v@).take(i as int)),
    {
        let ghost upto = char_seqs(v@).take(i + 1);
        assert(upto.drop_last() =~= char_seqs(v@).take(i as int));
        assert(upto.last() == v@[i as int]@);
        if v[i].len() > 0 && !includes(&out, &v[i]) {
            let ghost prev = char_seqs(out@);
            let t = part_of(&v[i], 0, v[i].len());
            assert(t@ =~= v@[i as int]@);
            out.push(t);
            assert(char_seqs(out@) =~= prev.push(v@[i as int]@));
        }
    }
    assert(char_seqs(v@).take(v@.len() as int) =~= char_seqs(v@));
    out
}

/// What `firsts` keeps: the non-empty texts of `s`, none of them twice.
pub proof fn lemma_firsts(s: Seq<Seq<char>>)
    ensures
        firsts(s).no_duplicates(),
        firsts(s).len() <= s.len(),
        forall|t: Seq<char>| #[trigger] firsts(s).contains(t) <==> t.len() > 0 && s.contains(t),
    decreases s.len(),
{
    if s.len() > 0 {
        let earlier = firsts(s.drop_last());
        lemma_firsts(s.drop_last());
        assert(s =~= s.drop_last().push(s.last()));
        assert forall|t: Seq<char>| #[trigger] firsts(s).contains(t) <==> t.len() > 0 && s.contains(t) by {
            assert(earlier.contains(t) <==> t.len() > 0 && s.drop_last().contains(t));
            assert(s.contains(t) <==> s.drop_last().contains(t) || t == s.last()) by {
                if s.contains(t) {
                    let i = s.index_of(t);
                    if i < s.len() - 1 {
                        assert(s.drop_last()[i] == t);
                    }
                }
                if s.drop_last().contains(t) {
                    let i = s.drop_last().index_of(t);
                    assert(s[i] == t);
                }
                assert(s[s.len() - 1] == s.last());
            }
            if firsts(s) != earlier {
                let p = earlier.push(s.last());
                assert(p.contains(t) <==> earlier.contains(t) || t == s.last()) by {
                    if earlier.contains(t) {
                        assert(p[earlier.index_of(t)] == t);
                    }
                    assert(p[earlier.len() as int] == s.last());
                    if p.contains(t) {
                        let i = p.index_of(t);
                        if i < earlier.len() {
                            assert(earlier[i] == t);
                        }
                    }
                }
            }
        }
    }
}

/// What is kept of the beginning of a list is the beginning of what is kept of the list.
pub proof fn lemma_firsts_prefix(s: Seq<Seq<char>>, n: int)
    requires
        0 <= n <= s.len(),
    ensures
        firsts(s.take(n)).is_prefix_of(firsts(s)),
    decreases s.len() - n,
{
    if n < s.len() {
        lemma_firsts_prefix(s, n + 1);
        assert(s.take(n + 1).drop_last() =~= s.take(n));
        assert(firsts(s.take(n)).is_prefix_of(firsts(s.take(n + 1))));
    } else {
        assert(s.take(n) =~= s);
    }
}

pub(crate) proof fn lemma_word_alone(w: Seq<char>)
    requires
        w.len() > 0,
        forall|j: int| 0 <= j < w.len() ==> !white_space(#[trigger] w[j]),
    ensures
        words(w) == seq![w],
{
    let n = w.len() as int;
    lemma_word_len(w, n);
    assert(!white_space(w[0]));
    assert(words(w.skip(n)) =~= seq![]);
    assert(w.take(n) =~= w);
    assert(words(w) == seq![w.take(n)] + words(w.skip(n)));
    assert(words(w) =~= seq![w]);
}

/// A word behind a space is one word more.
proof fn lemma_words_append(s: Seq<char>, w: Seq<char>)
    requires
        w.len() > 0,
        forall|j: int| 0 <= j < w.len() ==> !white_space(#[trigger] w[j]),
    ensures
        words(s + " "@ + w) == words(s).push(w),
    decreases s.len(),
{
    reveal_strlit(" ");
    let all = s + " "@ + w;
    if s.len() == 0 {
        assert(all[0] == ' ');
        assert(all.drop_first() =~= w);
        lemma_word_alone(w);
        assert(words(all) =~= words(s).push(w));
    } else if white_space(s[0]) {
        assert(all[0] == s[0]);
        assert(all.drop_first() =~= s.drop_first() + " "@ + w);
        lemma_words_append(s.drop_first(), w);
    } else {
        let n = word_len(s);
        lemma_word_dark(s);
        lemma_word_end(s);
        assert(n > 0);
        assert(all[0] == s[0]);
        assert forall|j: int| 0 <= j < n implies !white_space(#[trigger] all[j]) by {
            assert(all[j] == s[j]);
        }
        assert(white_space(all[n])) by {
            if n < s.len() {
                assert(all[n] == s[n]);
            } else {
                assert(all[n] == ' ');
            }
        }
        lemma_word_len(all, n);
        assert(all.take(n) =~= s.take(n));
        assert(all.skip(n) =~= s.skip(n) + " "@ + w);
        lemma_words_append(s.skip(n), w);
        assert(words(all) == seq![s.take(n)] + words(all.skip(n)));
        assert(words(s) == seq![s.take(n)] + words(s.skip(n)));
        assert(words(all) =~= words(s).push(w));
    }
}

pub(crate) proof fn lemma_word_end(s: Seq<char>)
    ensures
        word_len(s) < s.len() ==> white_space(s[word_len(s)]),
    decreases s.len(),
{
    if s.len() > 0 && !white_space(s[0]) {
        lemma_word_end(s.drop_first());
        lemma_word_dark(s.drop_first());
    }
}

/// Words that are joined by spaces are the words of the text.
pub proof fn lemma_words_join(ws: Seq<Seq<char>>)
    requires
        forall|i: int| 0 <= i < ws.len() ==> (#[trigger] ws[i]).len() > 0,
        forall|i: int, j: int|
            0 <= i < ws.len() && 0 <= j < ws[i].len() ==> !white_space(#[trigger] ws[i][j]),
    ensures
        words(join(ws, " "@)) == ws,
    decreases ws.len(),
{
    if ws.len() == 0 {
        assert(words(join(ws, " "@)) =~= ws);
    } else if ws.len() == 1 {
        assert forall|j: int| 0 <= j < ws[0].len() implies !white_space(#[trigger] ws[0][j]) by {
            assert(!white_space(ws[0][j]));
        }
        lemma_word_alone(ws[0]);
        assert(ws =~= seq![ws[0]]);
    } else {
        let t = ws.drop_last();
        let w = ws.last();
        assert forall|i: int| 0 <= i < t.len() implies (#[trigger] t[i]).len() > 0 by {
            assert(t[i] == ws[i]);
        }
        assert forall|i: int, j: int|
            0 <= i < t.len() && 0 <= j < t[i].len() implies !white_space(#[trigger] t[i][j]) by {
            assert(t[i] == ws[i]);
            assert(!white_space(ws[i][j]));
        }
        lemma_words_join(t);
        assert forall|j: int| 0 <= j < w.len() implies !white_space(#[trigger] w[j]) by {
            assert(!white_space(ws[ws.len() - 1][j]));
        }
        lemma_words_append(join(t, " "@), w);
        assert(ws =~= t.push(w));
    }
}

/// What stands in a part of a text stands in the text.
pub proof fn lemma_occurs_within(a: Seq<char>, b: Seq<char>, c: Seq<char>)
    requires
        occurs(a, b),
        occurs(b, c),
    ensures
        occurs(a, c),
{
    let i = choose|i: int| stands_at(a, b, i);
    let j = choose|j: int| stands_at(b, c, j);
    assert(c.subrange(j + i, j + i + a.len()) =~= b.subrange(i, i + a.len()));
    assert(stands_at(a, c, j + i));
}

/// A text without whitespace at its ends stands in the text.
pub proof fn lemma_trim_occurs(s: Seq<char>)
    ensures
        occurs(trim(s), s),
{
    lemma_trim_start_occurs(s);
    lemma_trim_end_occurs(trim_start(s));
    lemma_occurs_within(trim(s), trim_start(s), s);
}

pub(crate) proof fn lemma_trim_start_occurs(s: Seq<char>)
    ensures
        occurs(trim_start(s), s),
    decreases s.len(),
{
    if s.len() > 0 && white_space(s[0]) {
        let t = s.drop_first();
        lemma_trim_start_occurs(t);
        assert(stands_at(t, s, 1)) by {
            assert(s.subrange(1, s.len() as int) =~= t);
        }
        lemma_occurs_within(trim_start(t), t, s);
    } else {
        assert(stands_at(s, s, 0)) by {
            assert(s.subrange(0, s.len() as int) =~= s);
        }
    }
}

proof fn lemma_trim_end_occurs(s: Seq<char>)
    ensures
        occurs(trim_end(s), s),
    decreases s.len(),
{
    if s.len() > 0 && white_space(s.last()) {
        let t = s.drop_last();
        lemma_trim_end_occurs(t);
        assert(stands_at(t, s, 0)) by {
            assert(s.subrange(0, t.len() as int) =~= t);
        }
        lemma_occurs_within(trim_end(t), t, s);
    } else {
        assert(stands_at(s, s, 0)) by {
            assert(s.subrange(0, s.len() as int) =~= s);
        }
    }
}

/// Lower case is lower case already, and keeps apart what is a letter, a digit or whitespace.
pub proof fn lemma_lower_ascii(s: Seq<char>)
    ensures
        lower_ascii(lower_ascii(s)) == lower_ascii(s),
        lower_ascii(upper_ascii(s)) == lower_ascii(s),
        all_ascii(s) ==> all_ascii(lower_ascii(s)) && all_ascii(upper_ascii(s)),
        forall|c: char| white_space(#[trigger] ascii_lower(c)) == white_space(c),
        forall|c: char| ascii_alphanumeric(#[trigger] ascii_lower(c)) == ascii_alphanumeric(c),
        forall|c: char| ascii_alphanumeric(#[trigger] ascii_upper(c)) == ascii_alphanumeric(c),
        forall|c: char| white_space(#[trigger] ascii_upper(c)) == white_space(c),
{
    assert(lower_ascii(lower_ascii(s)) =~= lower_ascii(s));
    assert(lower_ascii(upper_ascii(s)) =~= lower_ascii(s));
}

/// Filters that agree on the characters of a text keep the same ones of them.
pub proof fn lemma_same_filter<A>(s: Seq<A>, p: spec_fn(A) -> bool, q: spec_fn(A) -> bool)
    requires
        forall|i: int| 0 <= i < s.len() ==> p(#[trigger] s[i]) == q(s[i]),
    ensures
        s.filter(p) == s.filter(q),
    decreases s.len(),
{
    if s.len() == 0 {
        reveal(Seq::filter);
    } else {
        let t = s.drop_last();
        assert forall|i: int| 0 <= i < t.len() implies p(#[trigger] t[i]) == q(t[i]) by {
            assert(t[i] == s[i]);
        }
        lemma_same_filter(t, p, q);
        assert(s =~= t.push(s.last()));
        assert(s[s.len() - 1] == s.last());
        t.lemma_filter_push(s.last(), p);
        t.lemma_filter_push(s.last(), q);
    }
}

/// A filter keeps all of a sequence whose items all pass it.
pub proof fn lemma_filter_all<A>(s: Seq<A>, p: spec_fn(A) -> bool)
    requires
        forall|i: int| 0 <= i < s.len() ==> p(#[trigger] s[i]),
    ensures
        s.filter(p) == s,
    decreases s.len(),
{
    if s.len() == 0 {
        reveal(Seq::filter);
        assert(s.filter(p) =~= s);
    } else {
        let t = s.drop_last();
        assert forall|i: int| 0 <= i < t.len() implies p(#[trigger] t[i]) by {
            assert(t[i] == s[i]);
        }
        lemma_filter_all(t, p);
        assert(s =~= t.push(s.last()));
        assert(s[s.len() - 1] == s.last());
        t.lemma_filter_push(s.last(), p);
    }
}

/// What a filter keeps, it keeps again.
pub proof fn lemma_filter_twice<A>(s: Seq<A>, p: spec_fn(A) -> bool)
    ensures
        s.filter(p).filter(p) == s.filter(p),
{
    assert forall|i: int| 0 <= i < s.filter(p).len() implies p(#[trigger] s.filter(p)[i]) by {
        s.lemma_filter_pred(p, i);
    }
    lemma_filter_all(s.filter(p), p);
}

/// A change of characters that keeps apart what is whitespace and what is not can change places
/// with trimming.
proof fn lemma_trim_map(s: Seq<char>, f: spec_fn(char) -> char)
    requires
        forall|c: char| white_space(#[trigger] f(c)) == white_space(c),
    ensures
        trim(s.map_values(f)) == trim(s).map_values(f),
{
    lemma_trim_start_map(s, f);
    lemma_trim_end_map(trim_start(s), f);
}

proof fn lemma_trim_start_map(s: Seq<char>, f: spec_fn(char) -> char)
    requires
        forall|c: char| white_space(#[trigger] f(c)) == white_space(c),
    ensures
        trim_start(s.map_values(f)) == trim_start(s).map_values(f),
    decreases s.len(),
{
    if s.len() > 0 {
        assert(s.map_values(f)[0] == f(s[0]));
        if white_space(s[0]) {
            assert(s.map_values(f).drop_first() =~= s.drop_first().map_values(f));
            lemma_trim_start_map(s.drop_first(), f);
        }
    }
}

proof fn lemma_trim_end_map(s: Seq<char>, f: spec_fn(char) -> char)
    requires
        forall|c: char| white_space(#[trigger] f(c)) == white_space(c),
    ensures
        trim_end(s.map_values(f)) == trim_end(s).map_values(f),
    decreases s.len(),
{
    if s.len() > 0 {
        assert(s.map_values(f).last() == f(s.last()));
        if white_space(s.last()) {
            assert(s.map_values(f).drop_last() =~= s.drop_last().map_values(f));
            lemma_trim_end_map(s.drop_last(), f);
        }
    }
}

/// Trimming and upper case can change places.
pub proof fn lemma_trim_upper(s: Seq<char>)
    ensures
        trim(upper_ascii(s)) == upper_ascii(trim(s)),
{
    lemma_lower_ascii(s);
    let f = |c: char| ascii_upper(c);
    assert forall|c: char| white_space(#[trigger] f(c)) == white_space(c) by {
        assert(f(c) == ascii_upper(c));
    }
    lemma_trim_map(s, f);
}

/// A trimmed text has nothing more to trim.
pub proof fn lemma_trim_again(s: Seq<char>)
    ensures
        trim(trim(s)) == trim(s),
{
    lemma_trim_ends(s);
}

/// A trimmed text has no whitespace at its ends.
pub(crate) proof fn lemma_trim_ends(s: Seq<char>)
    ensures
        trim(s).len() > 0 ==> !white_space(trim(s)[0]) && !white_space(trim(s).last()),
{
    lemma_trim_start_first(s);
    lemma_trim_end_last(trim_start(s));
}

proof fn lemma_trim_start_first(s: Seq<char>)
    ensures
        trim_start(s).len() > 0 ==> !white_space(trim_start(s)[0]),
    decreases s.len(),
{
    if s.len() > 0 && white_space(s[0]) {
        lemma_trim_start_first(s.drop_first());
    }
}

proof fn lemma_trim_end_last(s: Seq<char>)
    ensures
        trim_end(s).len() > 0 ==> !white_space(trim_end(s).last()) && trim_end(s)[0] == s[0],
    decreases s.len(),
{
    if s.len() > 0 && white_space(s.last()) {
        lemma_trim_end_last(s.drop_last());
    }
}

/// A trimmed text in lower case stays as it is if it is trimmed and lowered again.
pub proof fn lemma_trim_lower_again(s: Seq<char>)
    ensures
        lower_ascii(trim(lower_ascii(trim(s)))) == lower_ascii(trim(s)),
{
    let t = trim(s);
    lemma_trim_again(s);
    lemma_lower_ascii(t);
    let f = |c: char| ascii_lower(c);
    assert forall|c: char| white_space(#[trigger] f(c)) == white_space(c) by {
        assert(f(c) == ascii_lower(c));
    }
    lemma_trim_map(t, f);
}

/// A list of different texts that are not empty keeps all of them.
pub proof fn lemma_firsts_all(s: Seq<Seq<char>>)
    requires
        s.no_duplicates(),
        forall|i: int| 0 <= i < s.len() ==> (#[trigger] s[i]).len() > 0,
    ensures
        firsts(s) == s,
    decreases s.len(),
{
    if s.len() > 0 {
        let t = s.drop_last();
        assert forall|a: int, b: int| 0 <= a < t.len() && 0 <= b < t.len() && a != b implies t[a]
            != t[b] by {
            assert(s[a] != s[b]);
        }
        assert forall|i: int| 0 <= i < t.len() implies (#[trigger] t[i]).len() > 0 by {
            assert(t[i] == s[i]);
        }
        lemma_firsts_all(t);
        assert(s[s.len() - 1] == s.last());
        if t.contains(s.last()) {
            let k = t.index_of(s.last());
            assert(s[k] == s[s.len() - 1]);
        }
        assert(s =~= t.push(s.last()));
    } else {
        assert(firsts(s) =~= s);
    }
}

/// A character of a word stands in the text.
pub proof fn lemma_words_chars(s: Seq<char>, i: int, j: int)
    requires
        0 <= i < words(s).len(),
        0 <= j < words(s)[i].len(),
    ensures
        s.contains(words(s)[i][j]),
    decreases s.len(),
{
    if s.len() > 0 {
        if white_space(s[0]) {
            assert(words(s) == words(s.drop_first()));
            lemma_words_chars(s.drop_first(), i, j);
            let k = s.drop_first().index_of(words(s)[i][j]);
            assert(s[k + 1] == words(s)[i][j]);
        } else {
            let n = word_len(s);
            if 0 < n <= s.len() {
                let rest = words(s.skip(n));
                assert(words(s) == seq![s.take(n)] + rest);
                if i == 0 {
                    assert(words(s)[0] == s.take(n));
                    assert(s[j] == words(s)[i][j]);
                } else {
                    assert(words(s)[i] == rest[i - 1]);
                    lemma_words_chars(s.skip(n), i - 1, j);
                    let k = s.skip(n).index_of(words(s)[i][j]);
                    assert(s[k + n] == words(s)[i][j]);
                }
            }
        }
    }
}

/// A text has words exactly where it is not blank.
pub proof fn lemma_words_blank(s: Seq<char>)
    ensures
        words(s).len() == 0 <==> forall|i: int| 0 <= i < s.len() ==> white_space(#[trigger] s[i]),
    decreases s.len(),
{
    if s.len() > 0 {
        if white_space(s[0]) {
            let t = s.drop_first();
            assert(words(s) == words(t));
            lemma_words_blank(t);
            if forall|i: int| 0 <= i < t.len() ==> white_space(#[trigger] t[i]) {
                assert forall|i: int| 0 <= i < s.len() implies white_space(#[trigger] s[i]) by {
                    if i > 0 {
                        assert(s[i] == t[i - 1]);
                    }
                }
            }
            if forall|i: int| 0 <= i < s.len() ==> white_space(#[trigger] s[i]) {
                assert forall|i: int| 0 <= i < t.len() implies white_space(#[trigger] t[i]) by {
                    assert(t[i] == s[i + 1]);
                }
            }
        } else {
            lemma_word_dark(s);
            lemma_word_dark(s.drop_first());
            assert(word_len(s) > 0);
        }
    }
}

/// A character of joined texts is one of theirs or one of the separator's.
pub proof fn lemma_join_chars(ws: Seq<Seq<char>>, k: int)
    requires
        0 <= k < join(ws, " "@).len(),
    ensures
        join(ws, " "@)[k] == ' ' || exists|i: int, j: int|
            0 <= i < ws.len() && 0 <= j < ws[i].len() && #[trigger] ws[i][j] == join(ws, " "@)[k],
    decreases ws.len(),
{
    reveal_strlit(" ");
    let all = join(ws, " "@);
    if ws.len() == 1 {
        assert(ws[0][k] == all[k]);
    } else if ws.len() > 1 {
        let t = ws.drop_last();
        let head = join(t, " "@);
        if k < head.len() {
            lemma_join_chars(t, k);
            assert(all[k] == head[k]);
            if head[k] != ' ' {
                let (i, j) = choose|i: int, j: int|
                    0 <= i < t.len() && 0 <= j < t[i].len() && #[trigger] t[i][j] == head[k];
                assert(ws[i][j] == all[k]);
            }
        } else if k > head.len() {
            let i = ws.len() - 1;
            let j = k - head.len() - 1;
            assert(ws[i] == ws.last());
            assert(ws[i][j] == all[k]);
        }
    }
}

} // verus!
