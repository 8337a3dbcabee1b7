//! The envelope that every query answers with, and its terminal view.
use crate::hierarchy;
use crate::json::{Json, JsonView};
use crate::json;
use crate::text::{cat3, count_text, listed, same};
use crate::text;
use vstd::prelude::*;

verus! {

/// How to render an envelope.
#[derive(Clone, Copy, Debug, PartialEq, Eq, Structural)]
pub enum Channel {
    /// Sections of aligned rows.
    Human,
    /// JSON on one line.
    Json,
    /// Indented JSON.
    Pretty,
}

/// The answer to a query.
#[derive(Debug)]
pub struct Envelope {
    pub tool: &'static str,
    pub query: Json,
    pub summary: String,
    pub count: usize,
    pub results: Vec<Json>,
    /// What the query could not do precisely.
    pub warnings: Vec<String>,
    /// Hints for the reader of the terminal view.
    pub notes: Vec<String>,
}

/// What an envelope says, with texts in place of strings.
#[verifier::ext_equal]
pub struct EnvelopeView {
    pub tool: Seq<char>,
    pub query: JsonView,
    pub summary: Seq<char>,
    pub count: nat,
    pub results: Seq<JsonView>,
    pub warnings: Seq<Seq<char>>,
    pub notes: Seq<Seq<char>>,
}

impl View for Envelope {
    type V = EnvelopeView;

    open spec fn view(&self) -> EnvelopeView {
        EnvelopeView {
            tool: self.tool@,
            query: self.query@,
            summary: self.summary@,
            count: self.count as nat,
            results: json::item_views(self.results@),
            warnings: text::views(self.warnings@),
            notes: text::views(self.notes@),
        }
    }
}

impl EnvelopeView {
    /// The envelope of a query and its results, with nothing more to say.
    pub open spec fn of(query: JsonView, results: Seq<JsonView>) -> EnvelopeView {
        EnvelopeView {
            tool: "pyq"@,
            query,
            summary: Seq::empty(),
            count: results.len(),
            results,
            warnings: Seq::empty(),
            notes: Seq::empty(),
        }
    }

    pub open spec fn summarized(self, summary: Seq<char>) -> EnvelopeView {
        EnvelopeView { summary, ..self }
    }

    pub open spec fn warned(self, warnings: Seq<Seq<char>>) -> EnvelopeView {
        EnvelopeView { warnings, ..self }
    }

    pub open spec fn noted(self, notes: Seq<Seq<char>>) -> EnvelopeView {
        EnvelopeView { notes, ..self }
    }
}

/// A result on one line: its location and label, or what it has of them, or the
/// result itself as JSON.
pub open spec fn result_line(r: JsonView) -> Seq<char> {
    match (r.get_text("loc"@), r.get_text("label"@)) {
        (Some(loc), Some(label)) => loc + "  "@ + label,
        (Some(loc), None) => loc,
        (None, Some(label)) => label,
        (None, None) => json::compact(r),
    }
}

/// A result on one line.
pub fn render_result_line(r: &Json) -> (s: String)
    ensures
        s@ == result_line(r@),
{
    match (r.get_text("loc"), r.get_text("label")) {
        (Some(loc), Some(label)) => cat3(loc, "  ", label),
        (Some(loc), None) => loc.to_owned(),
        (None, Some(label)) => label.to_owned(),
        (None, None) => r.to_text(),
    }
}

/// The section that a result belongs to.
pub open spec fn section_of(r: JsonView) -> Seq<char> {
    match r.get_text("group"@) {
        Some(g) => g,
        None => Seq::empty(),
    }
}

/// The sections of the results, in the order of their first results.
pub open spec fn sections(results: Seq<JsonView>) -> Seq<Seq<char>>
    decreases results.len(),
{
    if results.len() == 0 {
        Seq::empty()
    } else {
        hierarchy::with_new(sections(results.drop_last()), section_of(results.last()))
    }
}

/// The results of a section.
pub open spec fn members_of(results: Seq<JsonView>, section: Seq<char>) -> Seq<JsonView>
    decreases results.len(),
{
    if results.len() == 0 {
        Seq::empty()
    } else if section_of(results.last()) == section {
        members_of(results.drop_last(), section).push(results.last())
    } else {
        members_of(results.drop_last(), section)
    }
}

/// The location column of a result.
pub open spec fn loc_cell(r: JsonView) -> Seq<char> {
    match r.get_text("loc"@) {
        Some(l) => l,
        None => Seq::empty(),
    }
}

/// The texts of a list of values.
pub open spec fn cell_texts(items: Seq<JsonView>) -> Seq<Seq<char>>
    decreases items.len(),
{
    if items.len() == 0 {
        Seq::empty()
    } else {
        cell_texts(items.drop_last()).push(
            match items.last() {
                JsonView::Str(s) => s,
                other => json::compact(other),
            },
        )
    }
}

/// The other columns of a result: its `cols`, else its label, else the result
/// itself as JSON.
pub open spec fn body_cells(r: JsonView) -> Seq<Seq<char>> {
    match r.get("cols"@) {
        Some(JsonView::Arr(items)) => cell_texts(items),
        _ => match r.get_text("label"@) {
            Some(l) => seq![l],
            None => seq![json::compact(r)],
        },
    }
}

/// All columns of a result.
pub open spec fn cells(r: JsonView) -> Seq<Seq<char>> {
    seq![loc_cell(r)] + body_cells(r)
}

/// How wide a column is among rows.
pub open spec fn width(rows: Seq<JsonView>, column: int) -> nat
    decreases rows.len(),
{
    if rows.len() == 0 {
        0
    } else {
        let before = width(rows.drop_last(), column);
        let c = cells(rows.last());
        if column < c.len() && c[column].len() > before {
            c[column].len()
        } else {
            before
        }
    }
}

/// `s` with blanks after it, up to a width.
pub open spec fn padded(s: Seq<char>, n: nat) -> Seq<char> {
    if s.len() < n {
        s + Seq::new((n - s.len()) as nat, |i: int| ' ')
    } else {
        s
    }
}

/// The first `n` columns of a row, aligned with those of its section, each
/// behind two blanks.
pub open spec fn aligned(rows: Seq<JsonView>, c: Seq<Seq<char>>, n: int) -> Seq<char>
    decreases n,
{
    if n <= 0 {
        Seq::empty()
    } else {
        aligned(rows, c, n - 1) + "  "@ + padded(c[n - 1], width(rows, n - 1))
    }
}

/// A row of a section on one line.
pub open spec fn row_line(rows: Seq<JsonView>, r: JsonView) -> Seq<char> {
    text::trim_end(aligned(rows, cells(r), cells(r).len() as int))
}

/// The lines of the first rows of a section.
pub open spec fn section_lines(rows: Seq<JsonView>, shown: Seq<JsonView>) -> Seq<char>
    decreases shown.len(),
{
    if shown.len() == 0 {
        Seq::empty()
    } else {
        section_lines(rows, shown.drop_last()) + row_line(rows, shown.last()) + "\n"@
    }
}

/// A section: a blank line, its name with how many rows it has, and the rows.
pub open spec fn section_text(results: Seq<JsonView>, section: Seq<char>) -> Seq<char> {
    let rows = members_of(results, section);
    let head = if section.len() == 0 {
        Seq::empty()
    } else {
        section + " ("@ + text::decimal(rows.len()) + ")\n"@
    };
    "\n"@ + head + section_lines(rows, rows)
}

/// The first sections.
pub open spec fn sections_text(results: Seq<JsonView>, names: Seq<Seq<char>>) -> Seq<char>
    decreases names.len(),
{
    if names.len() == 0 {
        Seq::empty()
    } else {
        sections_text(results, names.drop_last()) + section_text(results, names.last())
    }
}

/// Lines that are each behind two blanks.
pub open spec fn indented(lines: Seq<Seq<char>>) -> Seq<char>
    decreases lines.len(),
{
    if lines.len() == 0 {
        Seq::empty()
    } else {
        indented(lines.drop_last()) + "  "@ + lines.last() + "\n"@
    }
}

/// The terminal view: the summary, the sections, and a block of notes.
pub open spec fn human(e: EnvelopeView) -> Seq<char> {
    let head = if e.summary.len() == 0 {
        Seq::empty()
    } else {
        e.summary + "\n"@
    };
    let body = head + sections_text(e.results, sections(e.results));
    let shown = if body.len() == 0 {
        "no results\n"@
    } else {
        body
    };
    let remarks = e.warnings + e.notes;
    if remarks.len() == 0 {
        shown
    } else {
        shown + "\nnotes\n"@ + indented(remarks)
    }
}

/// The texts of a list of values, after those of `start`.
fn push_texts(start: Vec<String>, items: &Vec<Json>) -> (out: Vec<String>)
    ensures
        text::views(out@) == text::views(start@) + cell_texts(json::item_views(items@)),
{
    let ghost first = text::views(start@);
    let ghost all = json::item_views(items@);
    let mut out = start;
    let mut i: usize = 0;
    assert(first + cell_texts(all.take(0)) =~= first);
    while i < items.len()
        invariant
            i <= items@.len(),
            all == json::item_views(items@),
            text::views(out@) == first + cell_texts(all.take(i as int)),
        decreases items@.len() - i,
    {
        proof {
            text::lemma_take_step(all, i as int);
        }
        let ghost before = text::views(out@);
        let t = match &items[i] {
            Json::Str(s) => s.clone(),
            other => other.to_text(),
        };
        out.push(t);
        proof {
            assert(all[i as int] == json::json_view(items@[i as int]));
            assert(text::views(out@) =~= before.push(t@));
            assert(text::views(out@) =~= first + cell_texts(all.take(i + 1)));
        }
        i = i + 1;
    }
    proof {
        text::lemma_take_all(all);
    }
    out
}

/// The columns of a result.
fn cells_of(r: &Json) -> (out: Vec<String>)
    ensures
        text::views(out@) == cells(r@),
{
    let mut out: Vec<String> = Vec::new();
    let loc = match r.get_text("loc") {
        Some(l) => l.to_owned(),
        None => String::new(),
    };
    out.push(loc);
    let ghost first = seq![loc_cell(r@)];
    assert(text::views(out@) =~= first);
    match r.get("cols") {
        Some(j) => {
            proof {
                crate::json::lemma_views(*j);
            }
            match j {
                Json::Arr(items) => {
                    return push_texts(out, items);
                },
                _ => {},
            }
        },
        None => {},
    }
    match r.get_text("label") {
        Some(l) => {
            out.push(l.to_owned());
            assert(text::views(out@) =~= first + seq![l@]);
        },
        None => {
            let t = r.to_text();
            out.push(t);
            assert(text::views(out@) =~= first + seq![t@]);
        },
    }
    out
}

/// The columns of each row.
pub open spec fn tables_of(s: Seq<Vec<String>>) -> Seq<Seq<Seq<char>>> {
    Seq::new(s.len(), |i: int| text::views(s[i]@))
}

/// The columns of each row.
pub open spec fn all_cells(rows: Seq<JsonView>) -> Seq<Seq<Seq<char>>> {
    Seq::new(rows.len(), |i: int| cells(rows[i]))
}

/// How wide a column is among rows.
fn width_of(table: &Vec<Vec<String>>, column: usize, Ghost(rows): Ghost<Seq<JsonView>>) -> (n: usize)
    requires
        tables_of(table@) == all_cells(rows),
    ensures
        n == width(rows, column as int),
{
    let mut n: usize = 0;
    let mut i: usize = 0;
    assert(tables_of(table@).len() == table@.len());
    assert(all_cells(rows).len() == rows.len());
    while i < table.len()
        invariant
            i <= table@.len(),
            table@.len() == rows.len(),
            tables_of(table@) == all_cells(rows),
            n == width(rows.take(i as int), column as int),
        decreases table@.len() - i,
    {
        proof {
            text::lemma_take_step(rows, i as int);
            assert(tables_of(table@)[i as int] == cells(rows[i as int]));
        }
        if column < table[i].len() {
            let m: usize = table[i][column].as_str().unicode_len();
            if m > n {
                n = m;
            }
        }
        i = i + 1;
    }
    proof {
        text::lemma_take_all(rows);
    }
    n
}

/// `s` with blanks after it, up to a width.
pub fn pad(s: &str, n: usize) -> (r: String)
    ensures
        r@ == padded(s@, n as nat),
{
    let mut out = s.to_owned();
    let mut m: usize = s.unicode_len();
    let ghost from = m;
    while m < n
        invariant
            from <= m,
            from == s@.len(),
            m <= n || m == from,
            out@ == s@ + Seq::new((m - from) as nat, |i: int| ' '),
        decreases n - m,
    {
        out.push(' ');
        assert(out@ =~= s@ + Seq::new((m + 1 - from) as nat, |i: int| ' '));
        m = m + 1;
    }
    assert(s@ + Seq::new(0, |i: int| ' ') =~= s@);
    out
}

/// `s` without the white space at its end.
pub fn trimmed_end(s: &str) -> (r: String)
    ensures
        r@ == text::trim_end(s@),
{
    let cs = text::chars_of(s);
    let mut to: usize = cs.len();
    assert(cs@.take(to as int) =~= cs@);
    while to > 0 && cs[to - 1].is_whitespace()
        invariant
            to <= cs@.len(),
            text::trim_end(cs@) == text::trim_end(cs@.take(to as int)),
        decreases to,
    {
        assert(cs@.take(to as int).drop_last() =~= cs@.take(to - 1));
        to = to - 1;
    }
    assert(cs@.subrange(0, to as int) =~= cs@.take(to as int));
    text::string_of(&cs, 0, to)
}

/// Whether the widths of the first columns are as given.
spec fn widths_are(widths: Seq<usize>, rows: Seq<JsonView>) -> bool {
    forall|c: int| 0 <= c < widths.len() ==> #[trigger] widths[c] == width(rows, c)
}

/// The lines of a section.
fn lines_of_section(rows: &Vec<&Json>, Ghost(all): Ghost<Seq<JsonView>>) -> (r: String)
    requires
        all.len() == rows@.len(),
        forall|i: int| 0 <= i < all.len() ==> #[trigger] all[i] == rows@[i]@,
    ensures
        r@ == section_lines(all, all),
{
    let mut table: Vec<Vec<String>> = Vec::new();
    let mut widest: usize = 0;
    let mut i: usize = 0;
    while i < rows.len()
        invariant
            i <= rows@.len(),
            all.len() == rows@.len(),
            forall|k: int| 0 <= k < all.len() ==> #[trigger] all[k] == rows@[k]@,
            table@.len() == i,
            forall|k: int| 0 <= k < i ==> text::views((#[trigger] table@[k])@) == cells(all[k]),
            forall|k: int| 0 <= k < i ==> (#[trigger] table@[k])@.len() <= widest,
        decreases rows@.len() - i,
    {
        let c = cells_of(rows[i]);
        if c.len() > widest {
            widest = c.len();
        }
        assert(all[i as int] == rows@[i as int]@);
        table.push(c);
        i = i + 1;
    }
    assert(tables_of(table@) =~= all_cells(all));
    let mut widths: Vec<usize> = Vec::new();
    let mut k: usize = 0;
    while k < widest
        invariant
            k <= widest,
            tables_of(table@) == all_cells(all),
            widths@.len() == k,
            widths_are(widths@, all),
        decreases widest - k,
    {
        widths.push(width_of(&table, k, Ghost(all)));
        k = k + 1;
    }
    let mut out = String::new();
    let mut j: usize = 0;
    assert(all.take(0) =~= Seq::<JsonView>::empty());
    while j < table.len()
        invariant
            j <= table@.len(),
            table@.len() == all.len(),
            widths@.len() == widest,
            widths_are(widths@, all),
            forall|q: int| 0 <= q < table@.len() ==> text::views((#[trigger] table@[q])@) == cells(all[q]),
            forall|q: int| 0 <= q < table@.len() ==> (#[trigger] table@[q])@.len() <= widest,
            out@ == section_lines(all, all.take(j as int)),
        decreases table@.len() - j,
    {
        proof {
            text::lemma_take_step(all, j as int);
        }
        let row = &table[j];
        let ghost c = cells(all[j as int]);
        let mut line = String::new();
        let mut n: usize = 0;
        while n < row.len()
            invariant
                n <= row@.len(),
                row@.len() <= widest,
                text::views(row@) == c,
                widths@.len() == widest,
                widths_are(widths@, all),
                line@ == aligned(all, c, n as int),
            decreases row@.len() - n,
        {
            let cell = pad(row[n].as_str(), widths[n]);
            assert(c[n as int] == row@[n as int]@);
            line.append("  ");
            line.append(cell.as_str());
            n = n + 1;
        }
        let short = trimmed_end(line.as_str());
        out.append(short.as_str());
        out.append("\n");
        j = j + 1;
    }
    proof {
        text::lemma_take_all(all);
    }
    out
}

/// The section that a result belongs to.
fn section_name(r: &Json) -> (g: String)
    ensures
        g@ == section_of(r@),
{
    match r.get_text("group") {
        Some(g) => g.to_owned(),
        None => String::new(),
    }
}

/// The sections of the results, in the order of their first results.
fn section_names(results: &Vec<Json>) -> (names: Vec<String>)
    ensures
        text::views(names@) == sections(json::item_views(results@)),
{
    let ghost all = json::item_views(results@);
    let mut names: Vec<String> = Vec::new();
    let mut i: usize = 0;
    assert(text::views(names@) =~= sections(all.take(0)));
    while i < results.len()
        invariant
            i <= results@.len(),
            all == json::item_views(results@),
            text::views(names@) == sections(all.take(i as int)),
        decreases results@.len() - i,
    {
        proof {
            text::lemma_take_step(all, i as int);
            assert(all[i as int] == results@[i as int]@);
        }
        let g = section_name(&results[i]);
        if !listed(g.as_str(), &names) {
            let ghost before = text::views(names@);
            names.push(g);
            assert(text::views(names@) =~= before.push(g@));
        }
        i = i + 1;
    }
    proof {
        text::lemma_take_all(all);
    }
    names
}

/// One section as text.
fn render_section(results: &Vec<Json>, section: &str) -> (r: String)
    ensures
        r@ == section_text(json::item_views(results@), section@),
{
    let ghost all = json::item_views(results@);
    let mut rows: Vec<&Json> = Vec::new();
    let ghost mut kept: Seq<JsonView> = Seq::empty();
    let mut i: usize = 0;
    while i < results.len()
        invariant
            i <= results@.len(),
            all == json::item_views(results@),
            kept == members_of(all.take(i as int), section@),
            rows@.len() == kept.len(),
            forall|k: int| 0 <= k < kept.len() ==> #[trigger] kept[k] == rows@[k]@,
        decreases results@.len() - i,
    {
        proof {
            text::lemma_take_step(all, i as int);
            assert(all[i as int] == results@[i as int]@);
        }
        let g = section_name(&results[i]);
        if same(g.as_str(), section) {
            rows.push(&results[i]);
            proof {
                kept = kept.push(all[i as int]);
            }
        }
        i = i + 1;
    }
    proof {
        text::lemma_take_all(all);
    }
    let lines = lines_of_section(&rows, Ghost(kept));
    let mut out = "\n".to_owned();
    if !section.is_empty() {
        let n = count_text(rows.len());
        out.append(section);
        out.append(" (");
        out.append(n.as_str());
        out.append(")\n");
        assert(out@ =~= "\n"@ + (section@ + " ("@ + text::decimal(kept.len()) + ")\n"@));
    } else {
        assert(out@ =~= "\n"@ + Seq::<char>::empty());
    }
    out.append(lines.as_str());
    out
}

/// The rows that the value of every envelope has.
pub open spec fn first_rows(e: EnvelopeView) -> Seq<(Seq<char>, JsonView)> {
    seq![
        ("tool"@, JsonView::Str(e.tool)),
        ("query"@, e.query),
        ("summary"@, JsonView::Str(e.summary)),
        ("count"@, JsonView::Num(e.count)),
        ("results"@, JsonView::Arr(e.results)),
    ]
}

/// An envelope as a value: the tool, the query, the summary, the count and the
/// results, and the warnings where there are any.
pub open spec fn structured(e: EnvelopeView) -> JsonView {
    JsonView::Obj(
        if e.warnings.len() == 0 {
            first_rows(e)
        } else {
            first_rows(e).push(("warnings"@, json::texts(e.warnings)))
        },
    )
}

/// Numbers in texts are on one line: there are none.
proof fn lemma_plain_texts(v: Seq<Seq<char>>)
    ensures
        json::numbers_on_one_line(json::texts(v)),
{
    lemma_plain_strs(v, Seq::new(v.len(), |i: int| JsonView::Str(v[i])));
}

proof fn lemma_plain_strs(v: Seq<Seq<char>>, items: Seq<JsonView>)
    requires
        items.len() == v.len(),
        forall|i: int| 0 <= i < v.len() ==> #[trigger] items[i] == JsonView::Str(v[i]),
    ensures
        json::item_numbers_on_one_line(items),
    decreases v.len(),
{
    if v.len() > 0 {
        lemma_plain_strs(v.drop_last(), items.drop_last());
        assert(json::numbers_on_one_line(JsonView::Str(v[v.len() - 1])));
        assert(items[v.len() - 1] == JsonView::Str(v[v.len() - 1]));
    }
}

/// An envelope as a value has no numbers but those of its query and results, and its
/// count.
proof fn lemma_plain_envelope(e: EnvelopeView)
    requires
        json::numbers_on_one_line(e.query),
        json::item_numbers_on_one_line(e.results),
    ensures
        json::numbers_on_one_line(structured(e)),
{
    let rows = first_rows(e);
    assert(json::row_numbers_on_one_line(rows.take(0)));
    assert forall|i: int| 0 <= i < rows.len() implies json::numbers_on_one_line(
        (#[trigger] rows[i]).1,
    ) by {
        reveal_with_fuel(json::numbers_on_one_line, 2);
    }
    lemma_plain_rows(rows);
    let more = rows.push(("warnings"@, json::texts(e.warnings)));
    lemma_plain_texts(e.warnings);
    assert(more.drop_last() =~= rows);
}

proof fn lemma_plain_rows(rows: Seq<(Seq<char>, JsonView)>)
    requires
        forall|i: int|
            0 <= i < rows.len() ==> json::numbers_on_one_line((#[trigger] rows[i]).1),
    ensures
        json::row_numbers_on_one_line(rows),
    decreases rows.len(),
{
    if rows.len() > 0 {
        assert forall|i: int| 0 <= i < rows.len() - 1 implies json::numbers_on_one_line(
            (#[trigger] rows.drop_last()[i]).1,
        ) by {
            assert(rows.drop_last()[i] == rows[i]);
        }
        lemma_plain_rows(rows.drop_last());
        assert(json::numbers_on_one_line(rows[rows.len() - 1].1));
    }
}

impl Envelope {
    /// The envelope of a query and its results.
    pub fn new(query: Json, results: Vec<Json>) -> (r: Self)
        ensures
            r@ == EnvelopeView::of(query@, json::item_views(results@)),
    {
        let r = Envelope {
            tool: "pyq",
            count: results.len(),
            summary: String::new(),
            query,
            results,
            warnings: Vec::new(),
            notes: Vec::new(),
        };
        assert(r@.warnings =~= Seq::<Seq<char>>::empty());
        assert(r@.notes =~= Seq::<Seq<char>>::empty());
        assert(r@.summary =~= Seq::<char>::empty());
        r
    }

    pub fn with_summary(self, summary: String) -> (r: Self)
        ensures
            r@ == self@.summarized(summary@),
    {
        let mut e = self;
        e.summary = summary;
        e
    }

    pub fn with_warnings(self, warnings: Vec<String>) -> (r: Self)
        ensures
            r@ == self@.warned(text::views(warnings@)),
    {
        let mut e = self;
        e.warnings = warnings;
        e
    }

    pub fn with_notes(self, notes: Vec<String>) -> (r: Self)
        ensures
            r@ == self@.noted(text::views(notes@)),
    {
        let mut e = self;
        e.notes = notes;
        e
    }

    /// The terminal view.
    pub fn render_human(&self) -> (r: String)
        ensures
            r@ == human(self@),
    {
        let ghost all = json::item_views(self.results@);
        let mut out = String::new();
        if !self.summary.as_str().is_empty() {
            out.append(self.summary.as_str());
            out.append("\n");
        }
        let ghost head = out@;
        assert(head =~= if self.summary@.len() == 0 {
            Seq::<char>::empty()
        } else {
            self.summary@ + "\n"@
        });
        let names = section_names(&self.results);
        let ghost sections_seen = text::views(names@);
        let mut i: usize = 0;
        assert(head + sections_text(all, sections_seen.take(0)) =~= head);
        while i < names.len()
            invariant
                i <= names@.len(),
                sections_seen == text::views(names@),
                all == json::item_views(self.results@),
                out@ == head + sections_text(all, sections_seen.take(i as int)),
            decreases names@.len() - i,
        {
            proof {
                text::lemma_take_step(sections_seen, i as int);
            }
            let text = render_section(&self.results, names[i].as_str());
            out.append(text.as_str());
            assert(out@ =~= head + sections_text(all, sections_seen.take(i + 1)));
            i = i + 1;
        }
        proof {
            text::lemma_take_all(sections_seen);
        }
        if out.as_str().is_empty() {
            out = "no results\n".to_owned();
        }
        let remarks = crate::names::chained(text::copy_strings(&self.warnings), &self.notes);
        let ghost all_remarks = text::views(remarks@);
        assert(all_remarks == self@.warnings + self@.notes);
        if remarks.len() > 0 {
            out.append("\nnotes\n");
            let ghost top = out@;
            let mut k: usize = 0;
            assert(top + indented(all_remarks.take(0)) =~= top);
            while k < remarks.len()
                invariant
                    k <= remarks@.len(),
                    all_remarks == text::views(remarks@),
                    out@ == top + indented(all_remarks.take(k as int)),
                decreases remarks@.len() - k,
            {
                proof {
                    text::lemma_take_step(all_remarks, k as int);
                }
                out.append("  ");
                out.append(remarks[k].as_str());
                out.append("\n");
                assert(out@ =~= top + indented(all_remarks.take(k + 1)));
                k = k + 1;
            }
            proof {
                text::lemma_take_all(all_remarks);
            }
        }
        out
    }

    /// The envelope as a value.
    pub fn to_json(&self) -> (r: Json)
        ensures
            r@ == structured(self@),
    {
        let mut rows: Vec<(String, Json)> = Vec::new();
        rows.push(("tool".to_owned(), Json::text(self.tool)));
        rows.push(("query".to_owned(), self.query.copy()));
        rows.push(("summary".to_owned(), Json::text(self.summary.as_str())));
        rows.push(("count".to_owned(), Json::count(self.count)));
        let results = Json::Arr(Json::copy_items(&self.results));
        proof {
            json::lemma_views(results);
        }
        rows.push(("results".to_owned(), results));
        assert(json::row_views(rows@) =~= first_rows(self@));
        assert(text::views(self.warnings@).len() == self.warnings@.len());
        if self.warnings.len() > 0 {
            rows.push(("warnings".to_owned(), Json::texts(&self.warnings)));
            assert(json::row_views(rows@) =~= first_rows(self@).push(
                ("warnings"@, json::texts(self@.warnings)),
            ));
        }
        let r = Json::Obj(rows);
        proof {
            json::lemma_views(r);
        }
        r
    }

    /// The envelope as text, in the way that is asked for. Compact JSON is on one line.
    pub fn render(&self, channel: Channel) -> (r: String)
        ensures
            r@ == match channel {
                Channel::Json => json::compact(structured(self@)),
                Channel::Pretty => json::pretty(structured(self@), ""@),
                Channel::Human => human(self@),
            },
            channel is Json && json::numbers_on_one_line(self@.query)
                && json::item_numbers_on_one_line(self@.results) ==> json::on_one_line(r@),
    {
        proof {
            if json::numbers_on_one_line(self@.query) && json::item_numbers_on_one_line(
                self@.results,
            ) {
                lemma_plain_envelope(self@);
            }
        }
        match channel {
            Channel::Json => self.to_json().to_text(),
            Channel::Pretty => self.to_json().to_pretty(""),
            Channel::Human => self.render_human(),
        }
    }
}

/// An envelope counts its results, whatever else is said of them.
pub proof fn law_count_is_of_results(
    query: JsonView,
    results: Seq<JsonView>,
    summary: Seq<char>,
    warnings: Seq<Seq<char>>,
    notes: Seq<Seq<char>>,
)
    ensures
        ({
            let e = EnvelopeView::of(query, results).summarized(summary).warned(warnings).noted(
                notes,
            );
            e.count == e.results.len() && e.results == results && e.query == query
        }),
{
}

} // verus!
