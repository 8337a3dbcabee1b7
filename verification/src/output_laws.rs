//! What holds of the terminal view.
use crate::hierarchy;
use crate::json::JsonView;
use crate::json;
use crate::output;
use crate::text;
use vstd::prelude::*;

verus! {

proof fn lemma_with_new(s: Seq<Seq<char>>, x: Seq<char>, y: Seq<char>)
    ensures
        hierarchy::with_new(s, x).contains(y) <==> s.contains(y) || y == x,
        s.no_duplicates() ==> hierarchy::with_new(s, x).no_duplicates(),
{
    text::lemma_push_contains(s, x);
    if s.no_duplicates() && !s.contains(x) {
        let t = s.push(x);
        assert forall|i: int, j: int| 0 <= i < t.len() && 0 <= j < t.len() && i != j implies t[i]
            != t[j] by {
            if i == s.len() {
                assert(s.contains(s[j]));
            } else if j == s.len() {
                assert(s.contains(s[i]));
            }
        }
    }
}

/// Every result has its section, and each section comes once.
pub proof fn law_sections(results: Seq<JsonView>, name: Seq<char>)
    ensures
        output::sections(results).contains(name) <==> exists|i: int|
            0 <= i < results.len() && output::section_of(#[trigger] results[i]) == name,
        output::sections(results).no_duplicates(),
    decreases results.len(),
{
    if results.len() > 0 {
        let less = results.drop_last();
        law_sections(less, name);
        lemma_with_new(output::sections(less), output::section_of(results.last()), name);
        if output::sections(less).contains(name) {
            let i = choose|i: int|
                0 <= i < less.len() && output::section_of(#[trigger] less[i]) == name;
            assert(results[i] == less[i]);
        }
        if output::section_of(results.last()) == name {
            assert(results[results.len() - 1] == results.last());
        }
        assert forall|i: int|
            0 <= i < results.len() && output::section_of(
                #[trigger] results[i],
            ) == name implies output::sections(results).contains(name) by {
            if i < less.len() {
                assert(less[i] == results[i]);
            }
        }
    }
}

/// The results of a section are those that go there, and no others.
pub proof fn law_members_of_a_section(results: Seq<JsonView>, name: Seq<char>, r: JsonView)
    ensures
        output::members_of(results, name).contains(r) <==> results.contains(r)
            && output::section_of(r) == name,
    decreases results.len(),
{
    if results.len() > 0 {
        let less = results.drop_last();
        law_members_of_a_section(less, name, r);
        text::lemma_push_contains(output::members_of(less, name), results.last());
        text::lemma_push_contains(less, results.last());
        assert(results =~= less.push(results.last()));
    }
}

/// No result is lost or shown twice: the sections have as many results as there are.
pub proof fn law_sections_share_the_results(results: Seq<JsonView>, names: Seq<Seq<char>>)
    requires
        names.no_duplicates(),
        forall|i: int| 0 <= i < results.len() ==> names.contains(
            output::section_of(#[trigger] results[i]),
        ),
    ensures
        total(results, names) == results.len(),
    decreases results.len(),
{
    if results.len() == 0 {
        lemma_total_empty(results, names);
    } else {
        let less = results.drop_last();
        assert forall|i: int| 0 <= i < less.len() implies names.contains(
            output::section_of(#[trigger] less[i]),
        ) by {
            assert(less[i] == results[i]);
        }
        law_sections_share_the_results(less, names);
        assert(names.contains(output::section_of(results[results.len() - 1])));
        lemma_total_step(results, names);
    }
}

/// How many results some sections have together.
pub open spec fn total(results: Seq<JsonView>, names: Seq<Seq<char>>) -> nat
    decreases names.len(),
{
    if names.len() == 0 {
        0
    } else {
        total(results, names.drop_last()) + output::members_of(results, names.last()).len()
    }
}

proof fn lemma_total_empty(results: Seq<JsonView>, names: Seq<Seq<char>>)
    requires
        results.len() == 0,
    ensures
        total(results, names) == 0,
    decreases names.len(),
{
    if names.len() > 0 {
        lemma_total_empty(results, names.drop_last());
    }
}

proof fn lemma_total_step(results: Seq<JsonView>, names: Seq<Seq<char>>)
    requires
        results.len() > 0,
        names.no_duplicates(),
    ensures
        total(results, names) == total(results.drop_last(), names) + if names.contains(
            output::section_of(results.last()),
        ) {
            1nat
        } else {
            0nat
        },
    decreases names.len(),
{
    let less = results.drop_last();
    let s = output::section_of(results.last());
    if names.len() > 0 {
        let fewer = names.drop_last();
        assert(fewer.no_duplicates()) by {
            assert forall|i: int, j: int|
                0 <= i < fewer.len() && 0 <= j < fewer.len() && i != j implies fewer[i]
                != fewer[j] by {
                assert(names[i] != names[j]);
            }
        }
        lemma_total_step(results, fewer);
        text::lemma_push_contains(fewer, names.last());
        assert(names =~= fewer.push(names.last()));
        if fewer.contains(s) {
            let i = choose|i: int| 0 <= i < fewer.len() && fewer[i] == s;
            assert(names[i] != names[names.len() - 1]);
        }
    }
}

/// A column is as wide as its widest cell.
pub proof fn law_column_fits(rows: Seq<JsonView>, column: int, i: int)
    requires
        0 <= i < rows.len(),
        0 <= column < output::cells(rows[i]).len(),
    ensures
        output::cells(rows[i])[column].len() <= output::width(rows, column),
    decreases rows.len(),
{
    let less = rows.drop_last();
    if i < less.len() {
        assert(less[i] == rows[i]);
        law_column_fits(less, column, i);
    }
}

/// A cell is filled up to the width of its column with blanks behind it.
pub proof fn law_cell_is_filled_up(s: Seq<char>, n: nat)
    ensures
        output::padded(s, n).len() >= n,
        output::padded(s, n).len() >= s.len(),
        s.len() <= n ==> output::padded(s, n).len() == n,
        output::padded(s, n).take(s.len() as int) == s,
        forall|k: int|
            s.len() <= k < output::padded(s, n).len() ==> #[trigger] output::padded(s, n)[k] == ' ',
{
    assert(output::padded(s, n).take(s.len() as int) =~= s);
}

proof fn lemma_sections_text(
    results: Seq<JsonView>,
    names: Seq<Seq<char>>,
    k: int,
) -> (r: (Seq<char>, Seq<char>))
    requires
        0 <= k < names.len(),
    ensures
        output::sections_text(results, names) == r.0 + output::section_text(results, names[k])
            + r.1,
    decreases names.len(),
{
    let less = names.drop_last();
    let a = output::sections_text(results, less);
    let b = output::section_text(results, names.last());
    if k < less.len() {
        assert(less[k] == names[k]);
        let (x, y) = lemma_sections_text(results, less, k);
        assert(a + b =~= x + output::section_text(results, names[k]) + (y + b));
        (x, y + b)
    } else {
        assert(a + b =~= a + b + Seq::<char>::empty());
        (a, Seq::empty())
    }
}

proof fn lemma_section_lines(rows: Seq<JsonView>, shown: Seq<JsonView>, k: int) -> (r: (
    Seq<char>,
    Seq<char>,
))
    requires
        0 <= k < shown.len(),
    ensures
        output::section_lines(rows, shown) == r.0 + (output::row_line(rows, shown[k]) + "\n"@)
            + r.1,
    decreases shown.len(),
{
    let less = shown.drop_last();
    let a = output::section_lines(rows, less);
    let b = output::row_line(rows, shown.last()) + "\n"@;
    assert(output::section_lines(rows, shown) =~= a + b);
    if k < less.len() {
        assert(less[k] == shown[k]);
        let (x, y) = lemma_section_lines(rows, less, k);
        assert(a + b =~= x + (output::row_line(rows, shown[k]) + "\n"@) + (y + b));
        (x, y + b)
    } else {
        assert(a + b =~= a + b + Seq::<char>::empty());
        (a, Seq::empty())
    }
}

/// Every result has a line in the terminal view, among the rows of its section.
pub proof fn law_every_result_is_shown(e: output::EnvelopeView, i: int) -> (r: (
    Seq<char>,
    Seq<char>,
))
    requires
        0 <= i < e.results.len(),
    ensures
        ({
            let rows = output::members_of(e.results, output::section_of(e.results[i]));
            output::human(e) == r.0 + (output::row_line(rows, e.results[i]) + "\n"@) + r.1
        }),
{
    let x = e.results[i];
    let name = output::section_of(x);
    let names = output::sections(e.results);
    law_sections(e.results, name);
    let k = choose|k: int| 0 <= k < names.len() && names[k] == name;
    let rows = output::members_of(e.results, name);
    law_members_of_a_section(e.results, name, x);
    assert(e.results.contains(x));
    let m = choose|m: int| 0 <= m < rows.len() && rows[m] == x;
    let (a, b) = lemma_sections_text(e.results, names, k);
    let (c, d) = lemma_section_lines(rows, rows, m);
    let line = output::row_line(rows, x) + "\n"@;
    let top = "\n"@ + if name.len() == 0 {
        Seq::empty()
    } else {
        name + " ("@ + text::decimal(rows.len()) + ")\n"@
    };
    assert(output::section_text(e.results, name) =~= (top + c) + line + d);
    let head = if e.summary.len() == 0 {
        Seq::empty()
    } else {
        e.summary + "\n"@
    };
    let body = head + output::sections_text(e.results, names);
    let front = head + a + top + c;
    assert(body =~= front + line + (d + b));
    reveal_strlit("\n");
    assert(body.len() > 0);
    let remarks = e.warnings + e.notes;
    let rest = if remarks.len() == 0 {
        Seq::empty()
    } else {
        "\nnotes\n"@ + output::indented(remarks)
    };
    assert(output::human(e) =~= body + rest);
    assert(output::human(e) =~= front + line + (d + b + rest));
    (front, d + b + rest)
}

/// A result shows its place, then its columns; without columns its label.
pub proof fn law_columns_of_a_result(r: JsonView, items: Seq<JsonView>, i: int)
    ensures
        output::cells(r).len() > 0,
        r.get_text("loc"@) matches Some(l) ==> output::cells(r)[0] == l,
        r.get("cols"@) == Some(JsonView::Arr(items)) ==> output::cells(r).len() == items.len() + 1,
        r.get("cols"@) == Some(JsonView::Arr(items)) && 0 <= i < items.len() && items[i] is Str
            ==> output::cells(r)[i + 1] == items[i]->Str_0,
        r.get("cols"@) is None && r.get_text("label"@) is Some ==> output::cells(r).len() == 2
            && output::cells(r)[1] == r.get_text("label"@)->0,
{
    lemma_cell_texts(items, i);
}

proof fn lemma_cell_texts(items: Seq<JsonView>, i: int)
    ensures
        output::cell_texts(items).len() == items.len(),
        0 <= i < items.len() && items[i] is Str ==> output::cell_texts(items)[i]
            == items[i]->Str_0,
    decreases items.len(),
{
    if items.len() > 0 {
        let less = items.drop_last();
        lemma_cell_texts(less, i);
        if 0 <= i < less.len() {
            assert(less[i] == items[i]);
        }
    }
}

proof fn lemma_row_of(rows: Seq<(Seq<char>, JsonView)>, i: int)
    requires
        0 <= i < rows.len(),
        forall|k: int| 0 <= k < i ==> (#[trigger] rows[k]).0 != rows[i].0,
    ensures
        json::row_of(rows, rows[i].0) == Some(rows[i].1),
    decreases rows.len(),
{
    let less = rows.drop_last();
    if i < less.len() {
        assert(less[i] == rows[i]);
        assert forall|k: int| 0 <= k < i implies (#[trigger] less[k]).0 != less[i].0 by {
            assert(less[k] == rows[k]);
        }
        lemma_row_of(less, i);
    } else {
        lemma_no_row(less, rows[i].0);
        assert(rows.last() == rows[i]);
    }
}

proof fn lemma_no_row(rows: Seq<(Seq<char>, JsonView)>, key: Seq<char>)
    requires
        forall|k: int| 0 <= k < rows.len() ==> (#[trigger] rows[k]).0 != key,
    ensures
        json::row_of(rows, key) is None,
    decreases rows.len(),
{
    if rows.len() > 0 {
        let less = rows.drop_last();
        assert forall|k: int| 0 <= k < less.len() implies (#[trigger] less[k]).0 != key by {
            assert(less[k] == rows[k]);
        }
        lemma_no_row(less, key);
        assert(rows[rows.len() - 1] == rows.last());
    }
}

/// As a value, an answer has its query, its summary, its results and how many they are, and
/// its warnings where there are any.
pub proof fn law_answer_as_a_value(e: output::EnvelopeView)
    ensures
        output::structured(e).get_text("tool"@) == Some(e.tool),
        output::structured(e).get("query"@) == Some(e.query),
        output::structured(e).get_text("summary"@) == Some(e.summary),
        output::structured(e).get("count"@) == Some(JsonView::Num(e.count)),
        output::structured(e).get("results"@) == Some(JsonView::Arr(e.results)),
        e.warnings.len() > 0 ==> output::structured(e).get("warnings"@) == Some(
            json::texts(e.warnings),
        ),
        e.warnings.len() == 0 ==> output::structured(e).get("warnings"@) is None,
{
    reveal_strlit("tool");
    reveal_strlit("query");
    reveal_strlit("summary");
    reveal_strlit("count");
    reveal_strlit("results");
    reveal_strlit("warnings");
    assert("tool"@.len() == 4 && "query"@.len() == 5 && "summary"@.len() == 7 && "count"@.len() == 5
        && "results"@.len() == 7 && "warnings"@.len() == 8);
    assert("query"@[0] == 'q' && "count"@[0] == 'c' && "summary"@[0] == 's' && "results"@[0]
        == 'r');
    let rows = output::structured(e)->Obj_0;
    lemma_row_of(rows, 0);
    lemma_row_of(rows, 1);
    lemma_row_of(rows, 2);
    lemma_row_of(rows, 3);
    lemma_row_of(rows, 4);
    if e.warnings.len() > 0 {
        lemma_row_of(rows, 5);
    } else {
        lemma_no_row(rows, "warnings"@);
    }
}

proof fn lemma_indented(lines: Seq<Seq<char>>, k: int) -> (r: (Seq<char>, Seq<char>))
    requires
        0 <= k < lines.len(),
    ensures
        output::indented(lines) == r.0 + ("  "@ + lines[k] + "\n"@) + r.1,
    decreases lines.len(),
{
    let less = lines.drop_last();
    let a = output::indented(less);
    let b = "  "@ + lines.last() + "\n"@;
    assert(output::indented(lines) =~= a + b);
    if k < less.len() {
        assert(less[k] == lines[k]);
        let (x, y) = lemma_indented(less, k);
        assert(a + b =~= x + ("  "@ + lines[k] + "\n"@) + (y + b));
        (x, y + b)
    } else {
        assert(a + b =~= a + b + Seq::<char>::empty());
        (a, Seq::empty())
    }
}

/// Every warning and every note of an answer is shown on a line of its own in the terminal
/// view.
pub proof fn law_every_remark_is_shown(e: output::EnvelopeView, k: int) -> (r: (
    Seq<char>,
    Seq<char>,
))
    requires
        0 <= k < e.warnings.len() + e.notes.len(),
    ensures
        output::human(e) == r.0 + ("  "@ + (if k < e.warnings.len() {
            e.warnings[k]
        } else {
            e.notes[k - e.warnings.len()]
        }) + "\n"@) + r.1,
{
    let remarks = e.warnings + e.notes;
    let (x, y) = lemma_indented(remarks, k);
    let block = output::indented(remarks);
    let front = output::human(e).take(output::human(e).len() - block.len());
    assert(output::human(e) =~= front + block);
    let line = "  "@ + remarks[k] + "\n"@;
    assert(output::human(e) =~= (front + x) + line + y);
    (front + x, y)
}

/// A column is no wider than its widest cell.
pub proof fn law_column_is_not_too_wide(rows: Seq<JsonView>, column: int)
    requires
        output::width(rows, column) > 0,
        column >= 0,
    ensures
        exists|i: int|
            0 <= i < rows.len() && column < output::cells(#[trigger] rows[i]).len()
                && output::cells(rows[i])[column].len() == output::width(rows, column),
    decreases rows.len(),
{
    let less = rows.drop_last();
    let c = output::cells(rows.last());
    assert(rows[rows.len() - 1] == rows.last());
    if !(column < c.len() && c[column].len() > output::width(less, column)) {
        law_column_is_not_too_wide(less, column);
        let i = choose|i: int|
            0 <= i < less.len() && column < output::cells(#[trigger] less[i]).len()
                && output::cells(less[i])[column].len() == output::width(less, column);
        assert(rows[i] == less[i]);
    }
}

} // verus!
