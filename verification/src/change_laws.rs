//! What holds of the lines that a diff changes, and of their coverage.
use crate::change_cov;
use crate::dynamic::{Coverage, Ledger};
use crate::json::JsonView;
use crate::json;
use crate::rows;
use crate::sort;
use crate::table::Table;
use crate::text;
use crate::text_laws;
use vstd::prelude::*;

verus! {

/// Whether a header of a hunk names a range: the old range has no plus sign, and the new one
/// stands after the one that follows.
pub open spec fn header_of(
    header: Seq<char>,
    was: Seq<char>,
    range: Seq<char>,
    rest: Seq<char>,
) -> bool {
    &&& header == "@@ -"@ + was + " +"@ + range + " @@"@ + rest
    &&& forall|k: int| 0 <= k < was.len() ==> #[trigger] was[k] != '+'
}

proof fn lemma_digits_plain(n: nat)
    ensures
        text::decimal(n).len() > 0,
        forall|k: int|
            0 <= k < text::decimal(n).len() ==> '0' <= #[trigger] text::decimal(n)[k] <= '9',
        text::trim(text::decimal(n)) == text::decimal(n),
{
    text_laws::law_decimal_stands_for_its_number(n);
    let s = text::decimal(n);
    assert('0' <= s[0] <= '9');
    assert('0' <= s[s.len() - 1] <= '9');
    text_laws::law_trim_leaves_the_rest(s);
}

/// The new range stands between the plus sign and the marks that end it.
proof fn lemma_range(header: Seq<char>, was: Seq<char>, range: Seq<char>, rest: Seq<char>)
    requires
        header_of(header, was, range, rest),
        forall|k: int|
            0 <= k < range.len() ==> #[trigger] range[k] != '+' && range[k] != ' ' && range[k]
                != '@',
    ensures
        text::split(header, "+"@).len() > 1,
        text::split(text::split(header, "+"@)[1], " @"@)[0] == range,
{
    reveal_strlit("@@ -");
    reveal_strlit(" +");
    reveal_strlit(" @@");
    reveal_strlit("+");
    reveal_strlit(" @");
    let head = "@@ -"@ + was + seq![' '];
    let tail = range + " @@"@ + rest;
    assert("+"@ =~= seq!['+']);
    assert("+"@[0] == '+');
    assert(header =~= head.push('+') + tail);
    assert forall|k: int| 0 <= k < head.len() implies !"+"@.contains(#[trigger] head[k]) by {
        if k < 4 {
            assert(head[k] == "@@ -"@[k]);
        } else if k < 4 + was.len() {
            assert(head[k] == was[k - 4]);
        }
    }
    text_laws::law_piece_before_separator(head, '+', tail, "+"@);
    let u = range.push(' ');
    let v = "@@"@ + rest;
    reveal_strlit("@@");
    assert(tail =~= u + v);
    assert forall|k: int| 0 <= k < u.len() implies !"+"@.contains(#[trigger] u[k]) by {
        if k < range.len() {
            assert(u[k] == range[k]);
        }
    }
    text_laws::law_first_piece(u, v, "+"@);
    let z = text::split(v, "+"@)[0];
    assert(text::split(header, "+"@)[1] == u + z);
    assert(" @"@[0] == ' ' && " @"@[1] == '@');
    assert forall|k: int| 0 <= k < range.len() implies !" @"@.contains(#[trigger] range[k]) by {
        assert(range[k] != ' ' && range[k] != '@');
    }
    text_laws::law_piece_before_separator(range, ' ', z, " @"@);
}

/// A header that names a start and a count is read so.
pub proof fn law_hunk_names_a_range(
    header: Seq<char>,
    was: Seq<char>,
    start: u32,
    count: u32,
    rest: Seq<char>,
)
    requires
        header_of(
            header,
            was,
            text::decimal(start as nat) + ","@ + text::decimal(count as nat),
            rest,
        ),
    ensures
        change_cov::hunk(header) == Some((start, count)),
{
    let a = text::decimal(start as nat);
    let b = text::decimal(count as nat);
    let range = a + ","@ + b;
    reveal_strlit(",");
    assert(","@ =~= seq![',']);
    assert(","@[0] == ',');
    lemma_digits_plain(start as nat);
    lemma_digits_plain(count as nat);
    assert forall|k: int| 0 <= k < range.len() implies #[trigger] range[k] != '+' && range[k] != ' '
        && range[k] != '@' by {
        if k < a.len() {
            assert(range[k] == a[k]);
        } else if k > a.len() {
            assert(range[k] == b[k - a.len() - 1]);
        }
    }
    lemma_range(header, was, range, rest);
    assert(range =~= a.push(',') + b);
    assert forall|k: int| 0 <= k < a.len() implies !","@.contains(#[trigger] a[k]) by {
        assert('0' <= a[k] <= '9');
    }
    assert forall|k: int| 0 <= k < b.len() implies !","@.contains(#[trigger] b[k]) by {
        assert('0' <= b[k] <= '9');
    }
    crate::name_laws::lemma_split_at(a, ',', b, ","@);
    crate::name_laws::lemma_whole(a, ","@);
    crate::name_laws::lemma_whole(b, ","@);
    assert(text::split(range, ","@) =~= seq![a, b]);
    text_laws::law_decimal_reads_back(start as nat, u32::MAX as nat);
    text_laws::law_decimal_reads_back(count as nat, u32::MAX as nat);
}

/// A header that names a start alone names one line.
pub proof fn law_hunk_names_one_line(
    header: Seq<char>,
    was: Seq<char>,
    start: u32,
    rest: Seq<char>,
)
    requires
        header_of(header, was, text::decimal(start as nat), rest),
    ensures
        change_cov::hunk(header) == Some((start, 1u32)),
{
    let a = text::decimal(start as nat);
    reveal_strlit(",");
    assert(","@ =~= seq![',']);
    lemma_digits_plain(start as nat);
    assert forall|k: int| 0 <= k < a.len() implies #[trigger] a[k] != '+' && a[k] != ' ' && a[k]
        != '@' by {
        assert('0' <= a[k] <= '9');
    }
    lemma_range(header, was, a, rest);
    assert forall|k: int| 0 <= k < a.len() implies !","@.contains(#[trigger] a[k]) by {
        assert('0' <= a[k] <= '9');
    }
    crate::name_laws::lemma_whole(a, ","@);
    text_laws::law_decimal_reads_back(start as nat, u32::MAX as nat);
}

/// Whether a text can name a file in a diff: it has no tab, no white space at its ends, and is
/// not the name for none.
pub open spec fn diff_name(f: Seq<char>) -> bool {
    &&& f.len() > 0
    &&& !text::white_space(f[f.len() - 1])
    &&& forall|k: int| 0 <= k < f.len() ==> #[trigger] f[k] != '\t'
    &&& f != "/dev/null"@
}

/// A file of the new side is called by its name after `b/`.
pub proof fn law_new_side_names_its_file(f: Seq<char>)
    requires
        diff_name(f),
    ensures
        change_cov::named_file("b/"@ + f) == Some(f),
{
    reveal_strlit("b/");
    reveal_strlit("\t");
    let s = "b/"@ + f;
    assert forall|k: int| 0 <= k < s.len() implies !"\t"@.contains(#[trigger] s[k]) by {
        if k >= 2 {
            assert(s[k] == f[k - 2]);
        }
    }
    crate::name_laws::lemma_whole(s, "\t"@);
    assert(s[s.len() - 1] == f[f.len() - 1]);
    assert(s[0] == 'b');
    text_laws::law_trim_leaves_the_rest(s);
    assert(s.subrange(0, 2) =~= "b/"@);
    assert(s.skip(2) =~= f);
}

/// The lines of a hunk are changed in the file that was named before it, under its path below
/// the root of the project; no other line of it is by that hunk.
pub proof fn law_hunk_changes_its_lines(
    lines: Seq<Seq<char>>,
    f: Seq<char>,
    header: Seq<char>,
    start: u32,
    count: u32,
    places: Table<String, String>,
    root: Seq<char>,
    rel: Seq<char>,
    n: u32,
)
    requires
        diff_name(f),
        change_cov::located(places, f) == Some(root + "/"@ + rel),
        root != "/"@,
        !text::starts(rel, ".."@),
        forall|k: int| 0 <= k < rel.len() ==> #[trigger] rel[k] != '\\',
        text::starts(header, "@@"@),
        change_cov::hunk(header) == Some((start, count)),
    ensures
        ({
            let before = lines.push("+++ b/"@ + f);
            change_cov::changes(before.push(header), places, root, rel, n)
                <==> change_cov::changes(lines, places, root, rel, n) || start <= n < start + count
        }),
{
    let plus = "+++ b/"@ + f;
    let before = lines.push(plus);
    let all = before.push(header);
    assert(all.drop_last() =~= before);
    assert(before.drop_last() =~= lines);
    reveal_strlit("+++ b/");
    reveal_strlit("+++ ");
    reveal_strlit("b/");
    reveal_strlit("@@");
    reveal_strlit("/");
    assert(plus.subrange(0, 4) =~= "+++ "@);
    assert(plus.skip(4) =~= "b/"@ + f);
    law_new_side_names_its_file(f);
    let path = root + "/"@ + rel;
    assert(path =~= (root + "/"@) + rel);
    assert(path.subrange(0, (root + "/"@).len() as int) =~= root + "/"@);
    assert(path.skip((root + "/"@).len() as int) =~= rel);
    assert(path.len() > root.len());
    assert(text::replaced(rel, '\\', '/') =~= rel);
    assert(change_cov::current(before, places, root) == Some(rel));
    assert(header.subrange(0, 2)[0] == header[0]);
    assert(!text::starts(header, "+++ "@)) by {
        if text::starts(header, "+++ "@) {
            assert(header.subrange(0, 4)[0] == header[0]);
        }
    }
    assert(text::starts(plus, "+++ "@));
    assert(change_cov::hunk_with(header, n) == (start <= n < start + count));
    assert(!change_cov::hunk_with(plus, n));
    assert(change_cov::changes(before, places, root, rel, n) == change_cov::changes(
        lines,
        places,
        root,
        rel,
        n,
    )) by {
        assert(before.last() == plus);
    }
    assert(all.last() == header);
}

/// The texts of the row of a changed line.
proof fn lemma_line_row(cov: crate::dynamic::Coverage, k: (Seq<char>, u32))
    ensures
        change_cov::line_entry(cov, k).row.get_text("loc"@) == Some(
            k.0 + ":"@ + text::decimal(k.1 as nat),
        ),
        change_cov::line_entry(cov, k).row.get_text("status"@) == if cov.tests_of(k.0, k.1).len()
            > 0 {
            Some("covered"@)
        } else {
            Some("uncovered"@)
        },
{
    reveal_strlit("loc");
    reveal_strlit("status");
    reveal_strlit("tests");
    reveal_strlit("label");
    reveal_strlit("group");
    reveal_strlit("cols");
    assert("loc"@.len() == 3 && "status"@.len() == 6 && "tests"@.len() == 5 && "label"@.len() == 5
        && "group"@.len() == 5 && "cols"@.len() == 4);
    let r0 = JsonView::object();
    assert(json::tidy(r0));
    let v1 = JsonView::Str(change_cov::spot(k));
    let r1 = r0.with("loc"@, v1);
    json::lemma_with(r0, "loc"@, v1);
    if cov.covered(k.0, k.1) {
        let tests = sort::sorted::<String>(cov.tests_of(k.0, k.1));
        let n = rows::counted(tests.len(), "test"@);
        let v2 = JsonView::Str("covered"@);
        let r2 = r1.with("status"@, v2);
        json::lemma_with(r1, "status"@, v2);
        let v3 = json::texts(tests);
        let r3 = r2.with("tests"@, v3);
        json::lemma_with(r2, "tests"@, v3);
        let v4 = JsonView::Str("covered "@ + change_cov::spot(k) + "  ("@ + n + ")"@);
        let r4 = r3.with("label"@, v4);
        json::lemma_with(r3, "label"@, v4);
        let r5 = r4.with("group"@, v2);
        json::lemma_with(r4, "group"@, v2);
        let v6 = json::texts(seq![n]);
        let r6 = r5.with("cols"@, v6);
        json::lemma_with(r5, "cols"@, v6);
        assert(change_cov::line_entry(cov, k).row == r6);
    } else {
        let v2 = JsonView::Str("uncovered"@);
        let r2 = r1.with("status"@, v2);
        json::lemma_with(r1, "status"@, v2);
        let v4 = JsonView::Str("uncovered "@ + change_cov::spot(k));
        let r4 = r2.with("label"@, v4);
        json::lemma_with(r2, "label"@, v4);
        let r5 = r4.with("group"@, v2);
        json::lemma_with(r4, "group"@, v2);
        let v6 = json::texts(Seq::empty());
        let r6 = r5.with("cols"@, v6);
        json::lemma_with(r5, "cols"@, v6);
        assert(change_cov::line_entry(cov, k).row == r6);
    }
}

/// Every changed line has a row with its place, and is covered just where a test ran it.
pub proof fn law_changed_line_is_covered_where_a_test_ran_it(
    base: Seq<char>,
    keys: Seq<(Seq<char>, u32)>,
    led: Ledger,
    i: int,
)
    requires
        led.coverage.monitoring_available,
        0 <= i < keys.len(),
    ensures
        exists|m: int|
            0 <= m < change_cov::coverage_report(base, keys, led).results.len() && ({
                let row = #[trigger] change_cov::coverage_report(base, keys, led).results[m];
                &&& row.get_text("loc"@) == Some(
                    keys[i].0 + ":"@ + text::decimal(keys[i].1 as nat),
                )
                &&& row.get_text("status"@) == if led.coverage.tests_of(
                    keys[i].0,
                    keys[i].1,
                ).len() > 0 {
                    Some("covered"@)
                } else {
                    Some("uncovered"@)
                }
            }),
{
    let entries = change_cov::line_entries(led.coverage, keys);
    let row = change_cov::line_entry(led.coverage, keys[i]).row;
    assert(entries[i].row == row);
    rows::lemma_arranged(entries, row);
    lemma_line_row(led.coverage, keys[i]);
    let results = change_cov::coverage_report(base, keys, led).results;
    assert(results =~= rows::arranged(entries));
    let m = choose|m: int| 0 <= m < results.len() && results[m] == row;
    assert(results[m].get_text("loc"@) == row.get_text("loc"@));
}

/// As many lines are counted as covered as have a test that ran them.
pub proof fn law_covered_lines_are_counted(
    cov: crate::dynamic::Coverage,
    keys: Seq<(Seq<char>, u32)>,
    k: (Seq<char>, u32),
)
    ensures
        change_cov::covered_count(cov, keys.push(k)) == change_cov::covered_count(cov, keys) + if cov.tests_of(
            k.0,
            k.1,
        ).len() > 0 {
            1nat
        } else {
            0nat
        },
        change_cov::covered_count(cov, Seq::empty()) == 0,
{
    assert(keys.push(k).drop_last() =~= keys);
}

/// A file is told by its path from the root. One of which nothing is known, one that is
/// deleted and one outside the root are not told.
pub proof fn law_changed_file_is_below_the_root(
    plus_path: Seq<char>,
    places: Table<String, String>,
    root: Seq<char>,
)
    ensures
        change_cov::named_file(plus_path) is None ==> change_cov::relative(
            plus_path,
            places,
            root,
        ) is None,
        change_cov::relative(plus_path, places, root) matches Some(r) ==> {
            let file = change_cov::named_file(plus_path)->0;
            &&& change_cov::located(places, file) is Some
            &&& text::starts(change_cov::located(places, file)->0, root)
            &&& !text::starts(r, ".."@)
            &&& !r.contains('\\')
        },
{
    reveal_strlit("..");
    reveal_strlit("/");
    if let Some(r) = change_cov::relative(plus_path, places, root) {
        let file = change_cov::named_file(plus_path)->0;
        let path = change_cov::located(places, file)->0;
        let rel = change_cov::below(path, root)->0;
        if path == root {
            assert(path.subrange(0, root.len() as int) =~= root);
        } else if root == "/"@ {
            assert(path.subrange(0, 1) == "/"@);
        } else {
            let d = root + "/"@;
            assert(path.subrange(0, d.len() as int) == d);
            assert(path.subrange(0, root.len() as int) =~= d.take(root.len() as int)) by {
                assert forall|k: int| 0 <= k < root.len() implies path[k] == d[k] by {
                    assert(path.subrange(0, d.len() as int)[k] == d[k]);
                }
            }
            assert(d.take(root.len() as int) =~= root);
        }
        if text::starts(r, ".."@) {
            assert(r.subrange(0, 2) == ".."@);
            assert(r.subrange(0, 2)[0] == r[0] && r.subrange(0, 2)[1] == r[1]);
            assert(".."@[0] == '.' && ".."@[1] == '.');
            assert(rel[0] == '.' && rel[1] == '.');
            assert(rel.subrange(0, 2) =~= ".."@);
        }
    }
}

proof fn lemma_missing(list: Seq<Seq<char>>, other: Seq<Seq<char>>, x: Seq<char>)
    ensures
        change_cov::missing(list, other).contains(x) <==> list.contains(x) && !other.contains(x),
    decreases list.len(),
{
    if list.len() > 0 {
        let less = list.drop_last();
        lemma_missing(less, other, x);
        text::lemma_push_contains(change_cov::missing(less, other), list.last());
        text::lemma_push_contains(less, list.last());
        assert(list =~= less.push(list.last()));
    }
}

proof fn lemma_files_of(keys: Seq<(Seq<char>, u32)>, x: Seq<char>)
    ensures
        change_cov::files_of(keys).contains(x) <==> exists|i: int|
            0 <= i < keys.len() && (#[trigger] keys[i]).0 == x,
    decreases keys.len(),
{
    if keys.len() > 0 {
        let less = keys.drop_last();
        lemma_files_of(less, x);
        let before = change_cov::files_of(less);
        text::lemma_push_contains(before, keys.last().0);
        assert(keys[keys.len() - 1] == keys.last());
        if before.contains(x) {
            let i = choose|i: int| 0 <= i < less.len() && (#[trigger] less[i]).0 == x;
            assert(keys[i].0 == x);
        }
        if exists|i: int| 0 <= i < keys.len() && (#[trigger] keys[i]).0 == x {
            let i = choose|i: int| 0 <= i < keys.len() && (#[trigger] keys[i]).0 == x;
            if i < less.len() {
                assert(less[i].0 == x);
            }
        }
    }
}

proof fn lemma_reached_files(cov: Coverage, keys: Seq<(Seq<char>, u32)>, x: Seq<char>)
    ensures
        change_cov::reached_files(cov, keys).contains(x) <==> exists|i: int|
            0 <= i < keys.len() && (#[trigger] keys[i]).0 == x && cov.covered(keys[i].0, keys[i].1),
    decreases keys.len(),
{
    if keys.len() > 0 {
        let less = keys.drop_last();
        lemma_reached_files(cov, less, x);
        let before = change_cov::reached_files(cov, less);
        text::lemma_push_contains(before, keys.last().0);
        assert(keys[keys.len() - 1] == keys.last());
        if before.contains(x) {
            let i = choose|i: int|
                0 <= i < less.len() && (#[trigger] less[i]).0 == x && cov.covered(
                    less[i].0,
                    less[i].1,
                );
            assert(keys[i].0 == x);
        }
        if exists|i: int|
            0 <= i < keys.len() && (#[trigger] keys[i]).0 == x && cov.covered(
                keys[i].0,
                keys[i].1,
            ) {
            let i = choose|i: int|
                0 <= i < keys.len() && (#[trigger] keys[i]).0 == x && cov.covered(
                    keys[i].0,
                    keys[i].1,
                );
            if i < less.len() {
                assert(less[i].0 == x);
            }
        }
    }
}

/// The files that are warned of are the changed ones of which no test executes a changed
/// line. Where there are none, there is no such warning.
pub proof fn law_bare_files_are_warned_of(
    base: Seq<char>,
    keys: Seq<(Seq<char>, u32)>,
    led: Ledger,
    k: int,
)
    requires
        led.coverage.monitoring_available,
        0 <= k < keys.len(),
        forall|i: int|
            0 <= i < keys.len() && (#[trigger] keys[i]).0 == keys[k].0 ==> !led.coverage.covered(
                keys[i].0,
                keys[i].1,
            ),
    ensures
        change_cov::missing(
            change_cov::files_of(keys),
            change_cov::reached_files(led.coverage, keys),
        ).contains(keys[k].0),
        change_cov::coverage_report(base, keys, led).warnings.len() == 2,
{
    let x = keys[k].0;
    let files = change_cov::files_of(keys);
    let hit = change_cov::reached_files(led.coverage, keys);
    lemma_files_of(keys, x);
    lemma_reached_files(led.coverage, keys, x);
    lemma_missing(files, hit, x);
}

/// Where a test executes a changed line of each changed file, no file is warned of.
pub proof fn law_reached_files_are_not_warned_of(
    base: Seq<char>,
    keys: Seq<(Seq<char>, u32)>,
    led: Ledger,
)
    requires
        led.coverage.monitoring_available,
        forall|k: int|
            0 <= k < keys.len() ==> exists|i: int|
                0 <= i < keys.len() && (#[trigger] keys[i]).0 == (#[trigger] keys[k]).0
                    && led.coverage.covered(keys[i].0, keys[i].1),
    ensures
        change_cov::coverage_report(base, keys, led).warnings.len() == 1,
{
    let files = change_cov::files_of(keys);
    let hit = change_cov::reached_files(led.coverage, keys);
    let bare = change_cov::missing(files, hit);
    if bare.len() > 0 {
        let x = bare[0];
        assert(bare.contains(x));
        lemma_missing(files, hit, x);
        lemma_files_of(keys, x);
        let k = choose|k: int| 0 <= k < keys.len() && (#[trigger] keys[k]).0 == x;
        lemma_reached_files(led.coverage, keys, x);
        let i = choose|i: int|
            0 <= i < keys.len() && (#[trigger] keys[i]).0 == keys[k].0 && led.coverage.covered(
                keys[i].0,
                keys[i].1,
            );
        assert(keys[i].0 == x);
    }
}

/// Whether a line of a diff is the header of a hunk that has a line, and the last line before
/// it that names a file names this one.
pub open spec fn changed_at(
    lines: Seq<Seq<char>>,
    places: Table<String, String>,
    root: Seq<char>,
    file: Seq<char>,
    n: u32,
    j: int,
    k: int,
) -> bool {
    &&& 0 <= j < k < lines.len()
    &&& change_cov::hunk_with(lines[k], n)
    &&& change_cov::after(lines[j], "+++ "@) is Some
    &&& change_cov::relative(change_cov::after(lines[j], "+++ "@)->0, places, root) == Some(file)
    &&& forall|m: int| j < m < k ==> change_cov::after(#[trigger] lines[m], "+++ "@) is None
}

proof fn lemma_current_from(
    lines: Seq<Seq<char>>,
    places: Table<String, String>,
    root: Seq<char>,
) -> (j: int)
    requires
        change_cov::current(lines, places, root) is Some,
    ensures
        0 <= j < lines.len(),
        change_cov::after(lines[j], "+++ "@) is Some,
        change_cov::relative(change_cov::after(lines[j], "+++ "@)->0, places, root)
            == change_cov::current(lines, places, root),
        forall|m: int|
            j < m < lines.len() ==> change_cov::after(#[trigger] lines[m], "+++ "@) is None,
    decreases lines.len(),
{
    let less = lines.drop_last();
    assert(lines[lines.len() - 1] == lines.last());
    if change_cov::after(lines.last(), "+++ "@) is Some {
        lines.len() - 1
    } else {
        let j = lemma_current_from(less, places, root);
        assert(less[j] == lines[j]);
        assert forall|m: int| j < m < lines.len() implies change_cov::after(
            #[trigger] lines[m],
            "+++ "@,
        ) is None by {
            if m < less.len() {
                assert(less[m] == lines[m]);
            }
        }
        j
    }
}

proof fn lemma_current_is(
    lines: Seq<Seq<char>>,
    places: Table<String, String>,
    root: Seq<char>,
    j: int,
)
    requires
        0 <= j < lines.len(),
        change_cov::after(lines[j], "+++ "@) is Some,
        forall|m: int|
            j < m < lines.len() ==> change_cov::after(#[trigger] lines[m], "+++ "@) is None,
    ensures
        change_cov::current(lines, places, root) == change_cov::relative(
            change_cov::after(lines[j], "+++ "@)->0,
            places,
            root,
        ),
    decreases lines.len(),
{
    let less = lines.drop_last();
    assert(lines[lines.len() - 1] == lines.last());
    if j < less.len() {
        assert(less[j] == lines[j]);
        assert forall|m: int| j < m < less.len() implies change_cov::after(
            #[trigger] less[m],
            "+++ "@,
        ) is None by {
            assert(less[m] == lines[m]);
        }
        lemma_current_is(less, places, root, j);
    }
}

/// A diff changes the lines of its hunks, each of the file that was named last before it, and
/// no others.
pub proof fn law_lines_change_in_their_file(
    lines: Seq<Seq<char>>,
    places: Table<String, String>,
    root: Seq<char>,
    file: Seq<char>,
    n: u32,
)
    ensures
        change_cov::changes(lines, places, root, file, n) <==> exists|j: int, k: int|
            changed_at(lines, places, root, file, n, j, k),
    decreases lines.len(),
{
    if lines.len() > 0 {
        let less = lines.drop_last();
        let last = lines.len() - 1;
        law_lines_change_in_their_file(less, places, root, file, n);
        assert(lines[last] == lines.last());
        assert forall|m: int| 0 <= m < less.len() implies #[trigger] less[m] == lines[m] by {}
        if change_cov::changes(less, places, root, file, n) {
            let (j, k) = choose|j: int, k: int| changed_at(less, places, root, file, n, j, k);
            assert forall|m: int| j < m < k implies change_cov::after(
                #[trigger] lines[m],
                "+++ "@,
            ) is None by {
                assert(less[m] == lines[m]);
            }
            assert(changed_at(lines, places, root, file, n, j, k));
        } else if change_cov::changes(lines, places, root, file, n) {
            let j = lemma_current_from(less, places, root);
            assert forall|m: int| j < m < last implies change_cov::after(
                #[trigger] lines[m],
                "+++ "@,
            ) is None by {
                assert(less[m] == lines[m]);
            }
            assert(less[j] == lines[j]);
            assert(changed_at(lines, places, root, file, n, j, last));
        }
        if exists|j: int, k: int| changed_at(lines, places, root, file, n, j, k) {
            let (j, k) = choose|j: int, k: int| changed_at(lines, places, root, file, n, j, k);
            if k < last {
                assert forall|m: int| j < m < k implies change_cov::after(
                    #[trigger] less[m],
                    "+++ "@,
                ) is None by {
                    assert(less[m] == lines[m]);
                }
                assert(changed_at(less, places, root, file, n, j, k));
            } else {
                assert(less[j] == lines[j]);
                assert forall|m: int| j < m < less.len() implies change_cov::after(
                    #[trigger] less[m],
                    "+++ "@,
                ) is None by {
                    assert(less[m] == lines[m]);
                }
                lemma_current_is(less, places, root, j);
            }
        }
    }
}

} // verus!
