//! What holds of values written as JSON.
use crate::json::JsonView;
use crate::json;
use crate::text;
use crate::upgrade_laws;
use vstd::prelude::*;

verus! {

/// The value of a hexadecimal digit.
pub open spec fn hex_value(c: char) -> nat {
    if '0' <= c <= '9' {
        (c as nat - '0' as nat) as nat
    } else {
        (c as nat - 'a' as nat + 10) as nat
    }
}

/// What a letter after a backslash stands for.
pub open spec fn meant_by(c: char) -> char {
    if c == 'b' {
        8u32 as char
    } else if c == 't' {
        '\t'
    } else if c == 'n' {
        '\n'
    } else if c == 'f' {
        12u32 as char
    } else if c == 'r' {
        '\r'
    } else {
        c
    }
}

/// The text that the inside of a JSON string stands for.
pub open spec fn read(s: Seq<char>) -> Seq<char>
    decreases s.len(),
{
    if s.len() == 0 {
        Seq::empty()
    } else if s[0] != '\\' || s.len() < 2 {
        seq![s[0]] + read(s.skip(1))
    } else if s[1] == 'u' && s.len() >= 6 {
        seq![
            (4096 * hex_value(s[2]) + 256 * hex_value(s[3]) + 16 * hex_value(s[4]) + hex_value(
                s[5],
            )) as char,
        ] + read(s.skip(6))
    } else {
        seq![meant_by(s[1])] + read(s.skip(2))
    }
}

proof fn lemma_escaped_front(c: char, s: Seq<char>)
    ensures
        json::escaped_all(seq![c] + s) == json::escaped(c) + json::escaped_all(s),
    decreases s.len(),
{
    let t = seq![c] + s;
    if s.len() == 0 {
        assert(t.drop_last() =~= Seq::empty());
        assert(json::escaped_all(t.drop_last()) =~= Seq::empty());
        assert(t.last() == c);
        assert(json::escaped_all(t) =~= json::escaped(c) + json::escaped_all(s));
    } else {
        lemma_escaped_front(c, s.drop_last());
        assert(t.drop_last() =~= seq![c] + s.drop_last());
        assert(t.last() == s.last());
        assert(json::escaped_all(t) =~= json::escaped(c) + json::escaped_all(s));
    }
}

proof fn lemma_read_one(c: char, rest: Seq<char>)
    ensures
        read(json::escaped(c) + rest) == seq![c] + read(rest),
{
    let e = json::escaped(c);
    let t = e + rest;
    let n = c as nat;
    assert(t.skip(e.len() as int) =~= rest);
    if c != '"' && c != '\\' && n < 32 && n != 8 && n != 9 && n != 10 && n != 12 && n != 13 {
        upgrade_laws::law_hex_digit(n / 16);
        upgrade_laws::law_hex_digit(n % 16);
        assert(t[0] == '\\' && t[1] == 'u' && t[2] == '0' && t[3] == '0');
        assert(t[4] == text::hex_digit(n / 16) && t[5] == text::hex_digit(n % 16));
        assert(hex_value(t[4]) == n / 16 && hex_value(t[5]) == n % 16);
        assert(16 * (n / 16) + n % 16 == n);
    } else if e.len() == 2 {
        assert(t[0] == '\\' && t[1] == e[1]);
        assert(meant_by(e[1]) == c);
    } else {
        assert(t[0] == c);
    }
}

/// A text written as a JSON string reads back as it was.
pub proof fn law_text_reads_back(s: Seq<char>)
    ensures
        read(json::escaped_all(s)) == s,
    decreases s.len(),
{
    if s.len() > 0 {
        let rest = s.skip(1);
        assert(s =~= seq![s[0]] + rest);
        lemma_escaped_front(s[0], rest);
        lemma_read_one(s[0], json::escaped_all(rest));
        law_text_reads_back(rest);
    }
}

/// A text written as a JSON string holds no line feed and no other control character, and a
/// quote in it stands behind a backslash.
pub proof fn law_text_is_one_string(s: Seq<char>, k: int)
    requires
        0 <= k < json::escaped_all(s).len(),
    ensures
        json::escaped_all(s)[k] as nat >= 32,
        json::escaped_all(s)[k] == '"' ==> k > 0 && json::escaped_all(s)[k - 1] == '\\',
    decreases s.len(),
{
    let less = s.drop_last();
    let before = json::escaped_all(less);
    if k < before.len() {
        law_text_is_one_string(less, k);
    } else {
        let c = s.last();
        let e = json::escaped(c);
        let n = c as nat;
        if n < 32 {
            upgrade_laws::law_hex_digit(n / 16);
            upgrade_laws::law_hex_digit(n % 16);
        }
        assert(json::escaped_all(s)[k] == e[k - before.len()]);
        if k > before.len() {
            assert(json::escaped_all(s)[k - 1] == e[k - before.len() - 1]);
        }
    }
}

/// Lists written as JSON run on: the values of one, a comma, the values of the other.
pub proof fn law_items_run_on(a: Seq<JsonView>, b: Seq<JsonView>)
    requires
        a.len() > 0,
        b.len() > 0,
    ensures
        json::compact_items(a + b) == json::compact_items(a) + ","@ + json::compact_items(b),
    decreases b.len(),
{
    let all = a + b;
    assert(all[all.len() - 1] == b[b.len() - 1]);
    if b.len() == 1 {
        assert(all.drop_last() =~= a);
    } else {
        assert(all.drop_last() =~= a + b.drop_last());
        law_items_run_on(a, b.drop_last());
        assert(json::compact_items(all) =~= json::compact_items(a) + ","@ + json::compact_items(b));
    }
}

/// The rows of objects written as JSON run on in the same way.
pub proof fn law_rows_run_on(a: Seq<(Seq<char>, JsonView)>, b: Seq<(Seq<char>, JsonView)>)
    requires
        a.len() > 0,
        b.len() > 0,
    ensures
        json::compact_rows(a + b) == json::compact_rows(a) + ","@ + json::compact_rows(b),
    decreases b.len(),
{
    let all = a + b;
    assert(all[all.len() - 1] == b[b.len() - 1]);
    if b.len() == 1 {
        assert(all.drop_last() =~= a);
    } else {
        assert(all.drop_last() =~= a + b.drop_last());
        law_rows_run_on(a, b.drop_last());
        assert(json::compact_rows(all) =~= json::compact_rows(a) + ","@ + json::compact_rows(b));
    }
}

} // verus!
