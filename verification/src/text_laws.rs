//! What holds of numbers, white space and pieces in texts.
use crate::name_laws;
use crate::rows;
use crate::text;
use vstd::prelude::*;

verus! {

/// The decimal form of a number is made of digits and stands for the number.
pub proof fn law_decimal_stands_for_its_number(n: nat)
    ensures
        text::all_digits(text::decimal(n)),
        text::digits_value(text::decimal(n)) == n,
    decreases n,
{
    let s = text::decimal(n);
    let d = n % 10;
    assert('0' <= text::digit_char(d) <= '9' && text::digit_char(d) as u32 - '0' as u32 == d);
    if n < 10 {
        assert(s.drop_last() =~= Seq::empty());
        assert(s.last() == text::digit_char(n));
        assert(text::digits_value(s.drop_last()) == 0);
    } else {
        law_decimal_stands_for_its_number(n / 10);
        let t = text::decimal(n / 10);
        assert(s.drop_last() =~= t);
        assert forall|i: int| 0 <= i < s.len() implies '0' <= #[trigger] s[i] <= '9' by {
            if i < t.len() {
                assert(s[i] == t[i]);
            }
        }
    }
}

/// A number that is written in decimal is read back, where it is not too great.
pub proof fn law_decimal_reads_back(n: nat, max: nat)
    ensures
        text::number(text::decimal(n), max) == if n <= max {
            Some(n)
        } else {
            None
        },
        text::number("+"@ + text::decimal(n), max) == text::number(text::decimal(n), max),
{
    law_decimal_stands_for_its_number(n);
    let s = text::decimal(n);
    assert('0' <= s[0] <= '9');
    assert(text::unsigned_digits(s) == s);
    reveal_strlit("+");
    let t = "+"@ + s;
    assert(t[0] == '+');
    assert(t.skip(1) =~= s);
}

/// Two numbers of one decimal form are one number.
pub proof fn law_decimal_tells_numbers_apart(a: nat, b: nat)
    requires
        text::decimal(a) == text::decimal(b),
    ensures
        a == b,
{
    law_decimal_stands_for_its_number(a);
    law_decimal_stands_for_its_number(b);
}

/// White space around a text is taken off, and no more.
pub proof fn law_trim(a: Seq<char>, s: Seq<char>, b: Seq<char>)
    requires
        forall|i: int| 0 <= i < a.len() ==> text::white_space(#[trigger] a[i]),
        forall|i: int| 0 <= i < b.len() ==> text::white_space(#[trigger] b[i]),
        s.len() > 0,
        !text::white_space(s[0]),
        !text::white_space(s[s.len() - 1]),
    ensures
        text::trim(a + s + b) == s,
{
    lemma_trim_start(a, s + b);
    assert(a + s + b =~= a + (s + b));
    assert((s + b)[0] == s[0]);
    lemma_trim_end(s, b);
}

proof fn lemma_trim_start(a: Seq<char>, s: Seq<char>)
    requires
        forall|i: int| 0 <= i < a.len() ==> text::white_space(#[trigger] a[i]),
        s.len() > 0,
        !text::white_space(s[0]),
    ensures
        text::trim_start(a + s) == s,
    decreases a.len(),
{
    if a.len() == 0 {
        assert(a + s =~= s);
    } else {
        assert((a + s)[0] == a[0]);
        assert((a + s).skip(1) =~= a.skip(1) + s);
        assert forall|i: int| 0 <= i < a.skip(1).len() implies text::white_space(
            #[trigger] a.skip(1)[i],
        ) by {
            assert(a.skip(1)[i] == a[i + 1]);
        }
        lemma_trim_start(a.skip(1), s);
    }
}

proof fn lemma_trim_end(s: Seq<char>, b: Seq<char>)
    requires
        forall|i: int| 0 <= i < b.len() ==> text::white_space(#[trigger] b[i]),
        s.len() > 0,
        !text::white_space(s[s.len() - 1]),
    ensures
        text::trim_end(s + b) == s,
    decreases b.len(),
{
    if b.len() == 0 {
        assert(s + b =~= s);
    } else {
        assert((s + b).last() == b.last());
        assert((s + b).drop_last() =~= s + b.drop_last());
        assert(b[b.len() - 1] == b.last());
        lemma_trim_end(s, b.drop_last());
    }
}

/// A text without white space at its ends is left as it is.
pub proof fn law_trim_leaves_the_rest(s: Seq<char>)
    requires
        s.len() > 0,
        !text::white_space(s[0]),
        !text::white_space(s[s.len() - 1]),
    ensures
        text::trim(s) == s,
{
    law_trim(Seq::empty(), s, Seq::empty());
    assert(Seq::<char>::empty() + s + Seq::<char>::empty() =~= s);
}

/// A text that begins without separators begins with its first piece.
pub proof fn law_first_piece(u: Seq<char>, v: Seq<char>, seps: Seq<char>)
    requires
        forall|k: int| 0 <= k < u.len() ==> !seps.contains(#[trigger] u[k]),
    ensures
        text::split(u + v, seps)[0] == u + text::split(v, seps)[0],
        text::split(u + v, seps).len() == text::split(v, seps).len(),
    decreases v.len(),
{
    text::lemma_split_nonempty(v, seps);
    if v.len() == 0 {
        assert(u + v =~= u);
        name_laws::lemma_whole(u, seps);
        assert(u + Seq::<char>::empty() =~= u);
    } else {
        let w = v.drop_last();
        law_first_piece(u, w, seps);
        text::lemma_split_nonempty(w, seps);
        assert((u + v).drop_last() =~= u + w);
        assert((u + v).last() == v.last());
        let a = text::split(u + w, seps);
        let b = text::split(w, seps);
        if !seps.contains(v.last()) && b.len() == 1 {
            assert(a.last() == a[0]);
            assert(b.last() == b[0]);
            assert(text::split(u + v, seps)[0] == a[0].push(v.last()));
            assert(text::split(v, seps)[0] == b[0].push(v.last()));
            assert(a[0].push(v.last()) =~= u + b[0].push(v.last()));
        } else if !seps.contains(v.last()) {
            assert(text::split(u + v, seps)[0] == a[0]);
            assert(text::split(v, seps)[0] == b[0]);
        } else {
            assert(text::split(u + v, seps)[0] == a[0]);
            assert(text::split(v, seps)[0] == b[0]);
        }
    }
}

/// The first piece of a text ends before its first separator.
pub proof fn law_piece_before_separator(u: Seq<char>, c: char, v: Seq<char>, seps: Seq<char>)
    requires
        forall|k: int| 0 <= k < u.len() ==> !seps.contains(#[trigger] u[k]),
        seps.contains(c),
    ensures
        text::split(u.push(c) + v, seps)[0] == u,
        text::split(u.push(c) + v, seps).len() > 1,
        text::split(u.push(c) + v, seps)[1] == text::split(v, seps)[0],
{
    name_laws::lemma_split_at(u, c, v, seps);
    name_laws::lemma_whole(u, seps);
    text::lemma_split_nonempty(v, seps);
}

/// A text starts with another, ends in it or has it within just where it is that other with
/// something behind it, before it or around it.
pub proof fn law_parts_of_a_text(s: Seq<char>, p: Seq<char>, a: Seq<char>, b: Seq<char>)
    ensures
        text::starts(p + b, p),
        text::ends(a + p, p),
        text::within(a + p + b, p),
        text::starts(s, p) ==> s.len() >= p.len() && s == p + s.skip(p.len() as int),
        text::ends(s, p) ==> s.len() >= p.len() && s == s.take(s.len() - p.len()) + p,
        text::within(s, p) ==> exists|x: Seq<char>, y: Seq<char>| s == #[trigger] (x + p + y),
{
    assert((p + b).subrange(0, p.len() as int) =~= p);
    let t = a + p;
    assert(t.subrange(t.len() - p.len(), t.len() as int) =~= p);
    let u = a + p + b;
    assert(u.subrange(a.len() as int, (a.len() + p.len()) as int) =~= p);
    assert(text::occurs_at(p, u, a.len() as int));
    if text::starts(s, p) {
        assert(s.subrange(0, p.len() as int) == p);
        assert(s =~= s.subrange(0, p.len() as int) + s.skip(p.len() as int));
    }
    if text::ends(s, p) {
        let n = s.len() - p.len();
        assert(s.subrange(n, s.len() as int) == p);
        assert(s =~= s.take(n) + s.subrange(n, s.len() as int));
    }
    if text::within(s, p) {
        let i = choose|i: int| #[trigger] text::occurs_at(p, s, i);
        let x = s.take(i);
        let y = s.skip(i + p.len());
        assert(s =~= x + p + y) by {
            assert(s.subrange(i, i + p.len()) == p);
            assert forall|k: int| 0 <= k < p.len() implies s[i + k] == p[k] by {
                assert(s.subrange(i, i + p.len())[k] == p[k]);
            }
        }
    }
}

/// White space is the blank, the tab and the ends of lines, and no other character that a
/// keyboard has.
pub proof fn law_white_space(c: char)
    ensures
        c == ' ' || c == '\t' || c == '\n' || c == '\r' ==> text::white_space(c),
        '!' <= c <= '~' ==> !text::white_space(c),
{
}

/// Characters are dropped from the front of a text while they are those to drop, and no others
/// are.
pub proof fn law_dropped_from_the_front(s: Seq<char>, c: char)
    ensures
        text::drop_leading(s, c).len() <= s.len(),
        text::drop_leading(s, c).len() > 0 ==> text::drop_leading(s, c)[0] != c,
        text::drop_leading(s, c) == s.skip(s.len() - text::drop_leading(s, c).len()),
        forall|k: int|
            0 <= k < s.len() - text::drop_leading(s, c).len() ==> #[trigger] s[k] == c,
    decreases s.len(),
{
    if s.len() > 0 && s[0] == c {
        let t = s.skip(1);
        law_dropped_from_the_front(t, c);
        let n = text::drop_leading(t, c).len();
        assert(t.skip(t.len() - n) =~= s.skip(s.len() - n));
        assert forall|k: int| 0 <= k < s.len() - n implies #[trigger] s[k] == c by {
            if k > 0 {
                assert(t[k - 1] == s[k]);
            }
        }
    } else {
        assert(s.skip(0) =~= s);
    }
}

/// The same holds of the end of a text.
pub proof fn law_dropped_from_the_end(s: Seq<char>, c: char)
    ensures
        text::drop_trailing(s, c).len() <= s.len(),
        text::drop_trailing(s, c).len() > 0 ==> text::drop_trailing(s, c).last() != c,
        text::drop_trailing(s, c) == s.take(text::drop_trailing(s, c).len() as int),
        forall|k: int|
            text::drop_trailing(s, c).len() <= k < s.len() ==> #[trigger] s[k] == c,
    decreases s.len(),
{
    if s.len() > 0 && s.last() == c {
        let t = s.drop_last();
        law_dropped_from_the_end(t, c);
        let n = text::drop_trailing(t, c).len() as int;
        assert(t.take(n) =~= s.take(n));
        assert forall|k: int| n <= k < s.len() implies #[trigger] s[k] == c by {
            if k < t.len() {
                assert(t[k] == s[k]);
            }
        }
    } else {
        assert(s.take(s.len() as int) =~= s);
    }
}

/// Lower case changes the capitals of the Latin alphabet, each to its small letter, and no
/// other character.
pub proof fn law_lower_case(s: Seq<char>, k: int)
    requires
        0 <= k < s.len(),
    ensures
        text::lower(s).len() == s.len(),
        'A' <= s[k] <= 'Z' ==> text::lower(s)[k] as u32 - 'a' as u32 == s[k] as u32 - 'A' as u32,
        !('A' <= s[k] <= 'Z') ==> text::lower(s)[k] == s[k],
        text::lower(text::lower(s)) == text::lower(s),
{
    let t = text::lower(s);
    assert(text::lower(t) =~= t);
}

/// One of a thing is counted by its word, any other number by the word with an `s`.
pub proof fn law_counts_by_word(n: nat, word: Seq<char>)
    ensures
        rows::counted(1, word) == text::decimal(1) + " "@ + word,
        n != 1 ==> rows::counted(n, word) == text::decimal(n) + " "@ + (word + "s"@),
{
}

} // verus!
