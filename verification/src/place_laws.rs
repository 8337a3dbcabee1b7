//! What holds of the lines, columns and words of a text.
use crate::lines;
use crate::lookup;
use crate::name_laws;
use crate::syntax;
use crate::text;
use vstd::prelude::*;

verus! {

/// Columns count the characters of a line: behind a text without a line feed, the column is
/// one more than its length.
pub proof fn law_columns_count_characters(s: Seq<char>)
    requires
        !s.contains('\n'),
    ensures
        lines::line_after(s) == (1nat, s.len() + 1),
    decreases s.len(),
{
    if s.len() > 0 {
        let less = s.drop_last();
        assert(s.contains(s[s.len() - 1]));
        assert(!less.contains('\n')) by {
            if less.contains('\n') {
                let k = choose|k: int| 0 <= k < less.len() && less[k] == '\n';
                assert(s[k] == '\n');
            }
        }
        law_columns_count_characters(less);
    }
}

/// Lines count line feeds: each starts a line, whose columns count from one.
pub proof fn law_lines_count_line_feeds(a: Seq<char>, b: Seq<char>)
    requires
        !b.contains('\n'),
    ensures
        lines::line_after(a.push('\n') + b) == (lines::line_after(a).0 + 1, b.len() + 1),
    decreases b.len(),
{
    let s = a.push('\n') + b;
    if b.len() == 0 {
        assert(s =~= a.push('\n'));
        assert(s.drop_last() =~= a);
    } else {
        let less = b.drop_last();
        assert(b.contains(b[b.len() - 1]));
        assert(!less.contains('\n')) by {
            if less.contains('\n') {
                let k = choose|k: int| 0 <= k < less.len() && less[k] == '\n';
                assert(b[k] == '\n');
            }
        }
        law_lines_count_line_feeds(a, less);
        assert(s.drop_last() =~= a.push('\n') + less);
        assert(s.last() == b.last());
    }
}

proof fn lemma_bytes_grow(s: Seq<char>, k: int)
    requires
        0 <= k <= s.len(),
    ensures
        syntax::byte_len(s.take(k)) <= syntax::byte_len(s),
        k < s.len() ==> syntax::byte_len(s.take(k)) < syntax::byte_len(s),
    decreases s.len(),
{
    if k < s.len() {
        let less = s.drop_last();
        assert(less.take(k) =~= s.take(k));
        lemma_bytes_grow(less, k);
    } else {
        assert(s.take(k) =~= s);
    }
}

/// The offset of a character is that of all before it.
pub proof fn law_offset_of_a_character(s: Seq<char>, k: int)
    requires
        0 <= k <= s.len(),
    ensures
        lines::index_at(s, syntax::byte_len(s.take(k))) == k,
    decreases s.len(),
{
    if s.len() > 0 {
        let less = s.drop_last();
        if k < s.len() {
            assert(less.take(k) =~= s.take(k));
            lemma_bytes_grow(less, k);
            law_offset_of_a_character(less, k);
        } else {
            assert(s.take(k) =~= s);
            lemma_bytes_grow(s, s.len() - 1);
            assert(s.take(s.len() - 1) =~= less);
        }
    }
}

/// The place of a character is the line and column that follow what stands before it.
pub proof fn law_place_of_a_character(s: Seq<char>, k: int)
    requires
        0 <= k <= s.len(),
        syntax::byte_len(s.take(k)) <= u32::MAX,
        s.len() < usize::MAX,
    ensures
        ({
            let byte = syntax::byte_len(s.take(k)) as u32;
            let at = lines::line_after(s.take(k));
            &&& lines::pos_at(s, byte).line == at.0 as usize
            &&& lines::pos_at(s, byte).col == at.1 as usize
            &&& lookup::line_and_col(s, byte).line == at.0 as usize
            &&& lookup::line_and_col(s, byte).col == at.1 as usize
        }),
{
    law_offset_of_a_character(s, k);
}

/// The text between the offsets of two characters is what stands from the one to the other.
pub proof fn law_text_between(s: Seq<char>, i: int, j: int)
    requires
        0 <= i <= j <= s.len(),
        syntax::byte_len(s.take(j)) <= u32::MAX,
    ensures
        lines::text_between(
            s,
            syntax::byte_len(s.take(i)) as u32,
            syntax::byte_len(s.take(j)) as u32,
        ) == s.subrange(i, j),
{
    law_offset_of_a_character(s, i);
    law_offset_of_a_character(s, j);
    lemma_bytes_grow(s.take(j), i);
    assert(s.take(j).take(i) =~= s.take(i));
}

/// Whether a text is a word: it has characters, none of them white space.
pub open spec fn word(s: Seq<char>) -> bool {
    s.len() > 0 && forall|k: int| 0 <= k < s.len() ==> !text::white_space(#[trigger] s[k])
}

/// A word behind white space, or at the start, is a word of the text; the words before it
/// stay as they are.
pub proof fn law_words(a: Seq<char>, w: Seq<char>)
    requires
        a.len() == 0 || text::white_space(a.last()),
        word(w),
    ensures
        lines::words(a + w) == lines::words(a).push(w),
    decreases w.len(),
{
    let s = a + w;
    let less = w.drop_last();
    let c = w.last();
    assert(s.last() == c);
    assert(s.drop_last() =~= a + less);
    assert(!text::white_space(w[w.len() - 1]));
    if less.len() == 0 {
        assert(a + less =~= a);
        assert(w =~= seq![c]);
        if a.len() > 0 {
            assert(s[s.len() - 2] == a.last());
        }
    } else {
        assert forall|k: int| 0 <= k < less.len() implies !text::white_space(
            #[trigger] less[k],
        ) by {
            assert(less[k] == w[k]);
        }
        law_words(a, less);
        assert(s[s.len() - 2] == less[less.len() - 1]);
        let before = lines::words(a).push(less);
        assert(before.drop_last() =~= lines::words(a));
        assert(before.last().push(c) =~= w);
    }
}

/// White space is in no word.
pub proof fn law_white_space_ends_words(a: Seq<char>, c: char)
    requires
        text::white_space(c),
    ensures
        lines::words(a.push(c)) == lines::words(a),
        lines::words(Seq::empty()).len() == 0,
{
    assert(a.push(c).drop_last() =~= a);
}

/// The lines of a text that starts with one are that line, without the carriage return at its
/// end, and those of the rest.
pub proof fn law_first_line(a: Seq<char>, rest: Seq<char>)
    requires
        !a.contains('\n'),
    ensures
        text::lines(a.push('\n') + rest) == seq![
            if a.len() > 0 && a.last() == '\r' {
                a.drop_last()
            } else {
                a
            },
        ] + text::lines(rest),
{
    let seps = seq!['\n'];
    let s = a.push('\n') + rest;
    assert(seps[0] == '\n');
    assert forall|k: int| 0 <= k < a.len() implies !seps.contains(#[trigger] a[k]) by {
        assert(a.contains(a[k]));
    }
    name_laws::lemma_split_at(a, '\n', rest, seps);
    name_laws::lemma_whole(a, seps);
    text::lemma_split_nonempty(rest, seps);
    let parts = text::split(s, seps);
    let more = text::split(rest, seps);
    assert(parts =~= seq![a] + more);
    assert(parts.last() == more.last());
    assert(text::lines(s) =~= seq![text::without_return(a)] + text::lines(rest));
}

/// A text without a line feed is its one line; an empty text has none.
pub proof fn law_only_line(a: Seq<char>)
    requires
        !a.contains('\n'),
    ensures
        a.len() > 0 ==> text::lines(a) == seq![a],
        a.len() == 0 ==> text::lines(a).len() == 0,
{
    let seps = seq!['\n'];
    assert forall|k: int| 0 <= k < a.len() implies !seps.contains(#[trigger] a[k]) by {
        assert(a.contains(a[k]));
    }
    name_laws::lemma_whole(a, seps);
    let parts = text::split(a, seps);
    assert(parts =~= seq![a]);
    if a.len() > 0 {
        assert(text::lines(a) =~= seq![a]);
    }
}

} // verus!
