//! Laws of texts: trimming, lines, words, joining, searching, numbers.
use crate::reading::lemma_first_line;
use crate::text::{
    before, decimal, decimal2, firsts, join, lemma_firsts, lemma_occurs_within, lemma_trim_end_take,
    lemma_trim_start_skip, lemma_word_alone, lemma_word_dark, lemma_word_end, lemma_word_len, lines,
    occurs, stands_at, trim, trim_start, white_space, word_len, words,
};
use vstd::prelude::*;

verus! {

/// A text stands in another exactly where the other is made of it with something before and
/// something behind it.
pub proof fn lemma_occurs(part: Seq<char>, whole: Seq<char>)
    ensures
        occurs(part, whole) <==> exists|a: Seq<char>, b: Seq<char>| whole == #[trigger] (a + part + b),
{
    if occurs(part, whole) {
        let i = choose|i: int| stands_at(part, whole, i);
        let a = whole.take(i);
        let b = whole.skip(i + part.len());
        assert(whole =~= a + part + b) by {
            assert forall|k: int| 0 <= k < whole.len() implies whole[k] == (a + part + b)[k] by {
                if i <= k < i + part.len() {
                    assert(whole.subrange(i, i + part.len())[k - i] == part[k - i]);
                }
            }
        }
    }
    if exists|a: Seq<char>, b: Seq<char>| whole == #[trigger] (a + part + b) {
        let (a, b) = choose|a: Seq<char>, b: Seq<char>| whole == #[trigger] (a + part + b);
        lemma_stands(a, part, b);
    }
}

/// What something is put before and behind of stands in the text.
pub proof fn lemma_stands(a: Seq<char>, part: Seq<char>, b: Seq<char>)
    ensures
        stands_at(part, a + part + b, a.len() as int),
        occurs(part, a + part + b),
{
    let whole = a + part + b;
    assert(whole.subrange(a.len() as int, (a.len() + part.len()) as int) =~= part);
    assert(stands_at(part, whole, a.len() as int));
}

/// Texts one after the other.
pub closed spec fn glued(parts: Seq<Seq<char>>) -> Seq<char>
    decreases parts.len(),
{
    if parts.len() == 0 {
        seq![]
    } else {
        glued(parts.drop_last()) + parts.last()
    }
}

pub proof fn lemma_glued_push(parts: Seq<Seq<char>>, x: Seq<char>)
    ensures
        glued(parts.push(x)) == glued(parts) + x,
        parts.len() == 0 ==> glued(parts.push(x)) == x,
{
    assert(parts.push(x).drop_last() =~= parts);
    if parts.len() == 0 {
        assert(glued(parts) + x =~= x);
    }
}

/// The last two of several texts stand together in what they make one after the other.
pub proof fn lemma_glued_two(parts: Seq<Seq<char>>, x: Seq<char>, y: Seq<char>)
    ensures
        occurs(x + y, glued(parts.push(x).push(y))),
{
    lemma_glued_push(parts, x);
    lemma_glued_push(parts.push(x), y);
    lemma_tail(glued(parts), x, y);
}

proof fn lemma_tail(g: Seq<char>, x: Seq<char>, y: Seq<char>)
    ensures
        occurs(x + y, g + x + y),
{
    let s = g + x + y;
    let part = x + y;
    let i = g.len() as int;
    assert(s.subrange(i, i + part.len()) =~= part);
    assert(stands_at(part, s, i));
}

/// Each of several texts stands in what they make one after the other.
pub proof fn lemma_glued(parts: Seq<Seq<char>>, i: int)
    requires
        0 <= i < parts.len(),
    ensures
        occurs(parts[i], glued(parts)),
    decreases parts.len(),
{
    let t = parts.drop_last();
    if i < t.len() {
        lemma_glued(t, i);
        lemma_stands(seq![], glued(t), parts.last());
        assert(seq![] + glued(t) + parts.last() =~= glued(parts));
        lemma_occurs_within(parts[i], glued(t), glued(parts));
    } else {
        lemma_stands(glued(t), parts[i], seq![]);
        assert(glued(t) + parts[i] + seq![] =~= glued(parts));
    }
}

/// Trimming takes off the whitespace at both ends and nothing else: whatever whitespace stands
/// around a text that neither starts nor ends with any, the text is what is left.
pub proof fn lemma_trim(a: Seq<char>, m: Seq<char>, b: Seq<char>)
    requires
        forall|i: int| 0 <= i < a.len() ==> white_space(#[trigger] a[i]),
        forall|i: int| 0 <= i < b.len() ==> white_space(#[trigger] b[i]),
        m.len() > 0 ==> !white_space(m[0]) && !white_space(m.last()),
    ensures
        trim(a + m + b) == m,
        trim_start(a + m + b) == if m.len() > 0 {
            m + b
        } else {
            seq![]
        },
{
    let s = a + m + b;
    let n = a.len() as int;
    assert(s.take(n) =~= a);
    assert(s.skip(n) =~= m + b);
    lemma_trim_start_skip(s, n);
    if m.len() > 0 {
        assert((m + b)[0] == m[0]);
        let t = m + b;
        assert(t.skip(m.len() as int) =~= b);
        assert(t.take(m.len() as int) =~= m);
        lemma_trim_end_take(t, m.len() as int);
    } else {
        assert(m + b =~= b);
        assert(b.take(b.len() as int) =~= b);
        lemma_trim_start_skip(b, b.len() as int);
        assert(b.skip(b.len() as int) =~= seq![]);
    }
}

/// A text without a line feed that ends in one is a line, without the carriage return before it.
/// The lines of what comes behind it follow.
pub proof fn lemma_lines(a: Seq<char>, rest: Seq<char>)
    requires
        forall|i: int| 0 <= i < a.len() ==> #[trigger] a[i] != '\n',
    ensures
        lines(seq![]) == Seq::<Seq<char>>::empty(),
        a.len() > 0 ==> lines(a) == seq![a],
        lines(a.push('\n') + rest) == seq![
            if a.len() > 0 && a.last() == '\r' {
                a.drop_last()
            } else {
                a
            },
        ] + lines(rest),
{
    lemma_first_line(a, rest);
    lemma_before_none(a);
    assert(lines(seq![]) =~= Seq::<Seq<char>>::empty());
}

proof fn lemma_before_none(a: Seq<char>)
    requires
        forall|i: int| 0 <= i < a.len() ==> #[trigger] a[i] != '\n',
    ensures
        before(a, '\n') == a.len(),
    decreases a.len(),
{
    if a.len() > 0 {
        assert forall|i: int| 0 <= i < a.drop_first().len() implies #[trigger] a.drop_first()[i]
            != '\n' by {
            assert(a[i + 1] != '\n');
        }
        lemma_before_none(a.drop_first());
    }
}

/// Whitespace parts words: the words of a text are those before it and those behind it. A text
/// without whitespace is one word, unless it is empty.
pub proof fn lemma_words(a: Seq<char>, c: char, b: Seq<char>)
    ensures
        white_space(c) ==> words(a.push(c) + b) == words(a) + words(b),
        (forall|i: int| 0 <= i < a.len() ==> !white_space(#[trigger] a[i])) ==> words(a)
            == if a.len() == 0 {
            seq![]
        } else {
            seq![a]
        },
{
    if white_space(c) {
        lemma_words_parted(a, c, b);
    }
    if a.len() > 0 && forall|i: int| 0 <= i < a.len() ==> !white_space(#[trigger] a[i]) {
        lemma_word_alone(a);
    }
}

proof fn lemma_words_parted(a: Seq<char>, c: char, b: Seq<char>)
    requires
        white_space(c),
    ensures
        words(a.push(c) + b) == words(a) + words(b),
    decreases a.len(),
{
    let s = a.push(c) + b;
    if a.len() == 0 {
        assert(s[0] == c);
        assert(s.drop_first() =~= b);
        assert(words(a) + words(b) =~= words(b));
    } else if white_space(a[0]) {
        assert(s[0] == a[0]);
        assert(s.drop_first() =~= a.drop_first().push(c) + b);
        lemma_words_parted(a.drop_first(), c, b);
    } else {
        let n = word_len(a);
        lemma_word_dark(a);
        lemma_word_end(a);
        assert(n > 0);
        assert(s[0] == a[0]);
        assert forall|j: int| 0 <= j < n implies !white_space(#[trigger] s[j]) by {
            assert(s[j] == a[j]);
        }
        lemma_word_len(s, n);
        assert(s.take(n) =~= a.take(n));
        assert(s.skip(n) =~= a.skip(n).push(c) + b);
        lemma_words_parted(a.skip(n), c, b);
        assert(words(s) == seq![s.take(n)] + words(s.skip(n)));
        assert(words(a) == seq![a.take(n)] + words(a.skip(n)));
        assert(words(s) =~= words(a) + words(b));
    }
}

/// Joining puts the separator between two parts, and nothing before the first or behind the last.
pub proof fn lemma_join(parts: Seq<Seq<char>>, last: Seq<char>, sep: Seq<char>)
    ensures
        join(seq![], sep) == Seq::<char>::empty(),
        join(seq![last], sep) == last,
        parts.len() > 0 ==> join(parts.push(last), sep) == join(parts, sep) + sep + last,
{
    assert(parts.push(last).drop_last() =~= parts);
}

/// Two lists joined are the one joined and the other joined, the separator between them.
pub proof fn lemma_join_lists(a: Seq<Seq<char>>, b: Seq<Seq<char>>, sep: Seq<char>)
    requires
        a.len() > 0,
        b.len() > 0,
    ensures
        join(a + b, sep) == join(a, sep) + sep + join(b, sep),
    decreases b.len(),
{
    let t = b.drop_last();
    assert((a + b).drop_last() =~= a + t);
    if b.len() == 1 {
        assert(a + t =~= a);
    } else {
        lemma_join_lists(a, t, sep);
        assert(join(a, sep) + sep + (join(t, sep) + sep + b.last()) =~= join(a, sep) + sep + join(
            t,
            sep,
        ) + sep + b.last());
    }
}

/// Parts that follow each other stand joined in what all parts are joined to.
pub proof fn lemma_run_joined(
    a: Seq<Seq<char>>,
    w: Seq<Seq<char>>,
    b: Seq<Seq<char>>,
    sep: Seq<char>,
)
    requires
        w.len() > 0,
    ensures
        occurs(join(w, sep), join(a + w + b, sep)),
{
    let x = join(w, sep);
    let aw = a + w;
    if a.len() > 0 {
        lemma_join_lists(a, w, sep);
        lemma_stands(join(a, sep) + sep, x, seq![]);
        assert(join(a, sep) + sep + x + seq![] =~= join(aw, sep));
    } else {
        assert(aw =~= w);
        lemma_stands(seq![], x, seq![]);
        assert(seq![] + x + seq![] =~= x);
    }
    if b.len() > 0 {
        lemma_join_lists(aw, b, sep);
        lemma_stands(seq![], join(aw, sep), sep + join(b, sep));
        assert(seq![] + join(aw, sep) + (sep + join(b, sep)) =~= join(aw, sep) + sep + join(
            b,
            sep,
        ));
        lemma_occurs_within(x, join(aw, sep), join(aw + b, sep));
    } else {
        assert(aw + b =~= aw);
    }
}

/// Every part stands in what they are joined to.
pub proof fn lemma_part_joined(parts: Seq<Seq<char>>, sep: Seq<char>, i: int)
    requires
        0 <= i < parts.len(),
    ensures
        occurs(parts[i], join(parts, sep)),
    decreases parts.len(),
{
    let t = parts.drop_last();
    if parts.len() == 1 {
        lemma_stands(seq![], parts[0], seq![]);
        assert(seq![] + parts[0] + seq![] =~= parts[0]);
    } else if i == parts.len() - 1 {
        lemma_stands(join(t, sep) + sep, parts[i], seq![]);
        assert(join(parts, sep) =~= join(t, sep) + sep + parts[i] + seq![]);
    } else {
        lemma_part_joined(t, sep, i);
        lemma_stands(seq![], join(t, sep), sep + parts.last());
        assert(join(parts, sep) =~= seq![] + join(t, sep) + (sep + parts.last()));
        lemma_occurs_within(parts[i], join(t, sep), join(parts, sep));
    }
}

/// A text is kept the first time it is given, unless it is empty, and not again.
pub proof fn lemma_kept_once(s: Seq<Seq<char>>, t: Seq<char>)
    ensures
        firsts(seq![]) == Seq::<Seq<char>>::empty(),
        firsts(s.push(t)) == if t.len() == 0 || s.contains(t) {
            firsts(s)
        } else {
            firsts(s).push(t)
        },
{
    assert(s.push(t).drop_last() =~= s);
    lemma_firsts(s);
    assert(firsts(s).contains(t) <==> t.len() > 0 && s.contains(t));
}

/// The number that decimal digits stand for.
pub open spec fn number(s: Seq<char>) -> int
    decreases s.len(),
{
    if s.len() == 0 {
        0
    } else {
        10 * number(s.drop_last()) + (s.last() as int - '0' as int)
    }
}

/// What a number is written as are decimal digits that stand for it, without a zero in front.
pub proof fn lemma_decimal(n: nat)
    ensures
        number(decimal(n)) == n,
        decimal(n).len() > 0,
        forall|i: int| 0 <= i < decimal(n).len() ==> '0' <= #[trigger] decimal(n)[i] <= '9',
        n > 0 ==> decimal(n)[0] != '0',
        number(decimal2(n)) == n,
        decimal2(n).len() >= 2,
        n >= 10 ==> decimal2(n) == decimal(n),
        n < 10 ==> decimal2(n).len() == 2,
    decreases n,
{
    if n < 10 {
        assert(decimal(n).drop_last() =~= seq![]);
        let d = decimal2(n);
        assert(d.len() == 2);
        assert(d.drop_last() =~= seq!['0']);
        let z = d.drop_last();
        assert(z.drop_last() =~= seq![]);
        assert(number(z.drop_last()) == 0);
        assert(number(z) == 0);
    } else {
        lemma_decimal(n / 10);
        assert(decimal(n).drop_last() =~= decimal(n / 10));
    }
}

} // verus!
