//! Which changed lines the tests execute: the lines that a diff adds or changes,
//! joined with the lines that a run of the suite executed.
use crate::dynamic::{Coverage, Ledger};
use crate::hierarchy;
use crate::json::{Json, JsonView};
use crate::json;
use crate::output::{Envelope, EnvelopeView};
use crate::rows::{arrange, no_texts, one_text, Entry, EntryView};
use crate::rows;
use crate::sort::sort_texts;
use crate::sort;
use crate::table::Table;
use crate::table;
use crate::text::{cat, cat3, cat4, cat5, chars_of, count_text, decimal_of, join_with, lines_of, listed, number_of, replace_char, same, split_on, starts_with, string_of, trimmed};
use crate::text;
use vstd::prelude::*;

verus! {

/// The first line and the number of lines that the header of a hunk
/// (`@@ -a,b +c,d @@`) gives for the new version; one line where it gives no
/// number.
pub open spec fn hunk(header: Seq<char>) -> Option<(u32, u32)> {
    let plus = text::split(header, "+"@);
    if plus.len() < 2 {
        None
    } else {
        let parts = text::split(text::split(plus[1], " @"@)[0], ","@);
        match text::number(text::trim(parts[0]), u32::MAX as nat) {
            None => None,
            Some(start) => if parts.len() < 2 {
                Some((start as u32, 1))
            } else {
                match text::number(text::trim(parts[1]), u32::MAX as nat) {
                    None => None,
                    Some(count) => Some((start as u32, count as u32)),
                }
            },
        }
    }
}

/// The first line and the number of lines that the header of a hunk gives for the
/// new version.
pub fn hunk_new_range(header: &str) -> (r: Option<(u32, u32)>)
    ensures
        r == hunk(header@),
{
    let plus = split_on(header, "+");
    assert(text::views(plus@) == text::split(header@, "+"@));
    if plus.len() < 2 {
        return None;
    }
    let specs = split_on(plus[1].as_str(), " @");
    proof {
        text::lemma_split_nonempty(plus@[1]@, " @"@);
        assert(text::views(plus@)[1] == plus@[1]@);
    }
    let parts = split_on(specs[0].as_str(), ",");
    proof {
        text::lemma_split_nonempty(specs@[0]@, ","@);
        assert(text::views(specs@)[0] == specs@[0]@);
        assert(text::views(parts@)[0] == parts@[0]@);
    }
    let first = trimmed(parts[0].as_str());
    let start = match number_of(first.as_str(), u32::MAX as u64) {
        Some(n) => n as u32,
        None => {
            return None;
        },
    };
    if parts.len() < 2 {
        return Some((start, 1));
    }
    assert(text::views(parts@)[1] == parts@[1]@);
    let second = trimmed(parts[1].as_str());
    match number_of(second.as_str(), u32::MAX as u64) {
        Some(n) => Some((start, n as u32)),
        None => None,
    }
}

/// The part of `s` behind a prefix.
pub open spec fn after(s: Seq<char>, p: Seq<char>) -> Option<Seq<char>> {
    if text::starts(s, p) {
        Some(s.skip(p.len() as int))
    } else {
        None
    }
}

/// The part of `s` behind a prefix.
fn strip_prefix(s: &str, p: &str) -> (r: Option<String>)
    ensures
        match r {
            Some(t) => after(s@, p@) == Some(t@),
            None => after(s@, p@) is None,
        },
{
    if starts_with(s, p) {
        let cs = chars_of(s);
        let from = p.unicode_len();
        let t = string_of(&cs, from, cs.len());
        assert(t@ =~= s@.skip(p@.len() as int));
        Some(t)
    } else {
        None
    }
}

/// The file that the path of a `+++` line names, relative to the top of the
/// repository; none for a deletion.
pub open spec fn named_file(plus_path: Seq<char>) -> Option<Seq<char>> {
    let raw = text::trim(text::split(plus_path, "\t"@)[0]);
    let file = match after(raw, "b/"@) {
        Some(f) => f,
        None => raw,
    };
    if file == "/dev/null"@ {
        None
    } else {
        Some(file)
    }
}

/// The file that the path of a `+++` line names.
fn file_named(plus_path: &str) -> (r: Option<String>)
    ensures
        match r {
            Some(f) => named_file(plus_path@) == Some(f@),
            None => named_file(plus_path@) is None,
        },
{
    let parts = split_on(plus_path, "\t");
    proof {
        text::lemma_split_nonempty(plus_path@, "\t"@);
        assert(text::views(parts@)[0] == parts@[0]@);
    }
    let raw = trimmed(parts[0].as_str());
    let file = match strip_prefix(raw.as_str(), "b/") {
        Some(f) => f,
        None => raw,
    };
    if same(file.as_str(), "/dev/null") {
        None
    } else {
        Some(file)
    }
}

/// A path relative to a directory above it. Both are absolute, without links and
/// without `.` or `..`.
pub open spec fn below(path: Seq<char>, dir: Seq<char>) -> Option<Seq<char>> {
    if path == dir {
        Some(Seq::empty())
    } else if dir == "/"@ {
        after(path, "/"@)
    } else {
        after(path, dir + "/"@)
    }
}

/// A path relative to a directory above it.
pub fn below_dir(path: &str, dir: &str) -> (r: Option<String>)
    ensures
        match r {
            Some(t) => below(path@, dir@) == Some(t@),
            None => below(path@, dir@) is None,
        },
{
    if same(path, dir) {
        let none = String::new();
        assert(none@ =~= Seq::empty());
        return Some(none);
    }
    if same(dir, "/") {
        return strip_prefix(path, "/");
    }
    let head = cat(dir, "/");
    strip_prefix(path, head.as_str())
}

/// Where the files of a repository are: the absolute path of a file, by its path
/// relative to the top of the repository.
pub open spec fn located(t: Table<String, String>, file: Seq<char>) -> Option<Seq<char>> {
    if t.map().contains_key(file) {
        Some(t.map()[file]@)
    } else {
        None
    }
}

/// The path of a `+++` line relative to the root; none for a deletion, and for a
/// file that is not there or outside the root.
pub open spec fn relative(
    plus_path: Seq<char>,
    places: Table<String, String>,
    root: Seq<char>,
) -> Option<Seq<char>> {
    match named_file(plus_path) {
        None => None,
        Some(file) => match located(places, file) {
            None => None,
            Some(path) => match below(path, root) {
                None => None,
                Some(rel) => if text::starts(rel, ".."@) {
                    None
                } else {
                    Some(text::replaced(rel, '\\', '/'))
                },
            },
        },
    }
}

/// The path of a `+++` line relative to the root.
pub fn relativize(plus_path: &str, places: &Table<String, String>, root: &str) -> (r: Option<String>)
    ensures
        match r {
            Some(f) => relative(plus_path@, *places, root@) == Some(f@),
            None => relative(plus_path@, *places, root@) is None,
        },
{
    match file_named(plus_path) {
        None => None,
        Some(file) => match places.get(&file) {
            None => None,
            Some(path) => match below_dir(path.as_str(), root) {
                None => None,
                Some(rel) => if starts_with(rel.as_str(), "..") {
                    None
                } else {
                    Some(replace_char(rel.as_str(), '\\', '/'))
                },
            },
        },
    }
}

/// The file that the last `+++` line names.
pub open spec fn current(
    lines: Seq<Seq<char>>,
    places: Table<String, String>,
    root: Seq<char>,
) -> Option<Seq<char>>
    decreases lines.len(),
{
    if lines.len() == 0 {
        None
    } else {
        match after(lines.last(), "+++ "@) {
            Some(path) => relative(path, places, root),
            None => current(lines.drop_last(), places, root),
        }
    }
}

/// Whether a line of a diff is the header of a hunk that has a line of the new
/// version in it.
pub open spec fn hunk_with(line: Seq<char>, n: u32) -> bool {
    after(line, "+++ "@) is None && text::starts(line, "@@"@) && match hunk(line) {
        Some((start, count)) => start <= n < start + count,
        None => false,
    }
}

/// Whether a diff adds or changes a line of a file: a hunk of the file has it in
/// its new version.
pub open spec fn changes(
    lines: Seq<Seq<char>>,
    places: Table<String, String>,
    root: Seq<char>,
    file: Seq<char>,
    n: u32,
) -> bool
    decreases lines.len(),
{
    lines.len() > 0 && (changes(lines.drop_last(), places, root, file, n) || (current(
        lines.drop_last(),
        places,
        root,
    ) == Some(file) && hunk_with(lines.last(), n)))
}

/// Enters the lines of a hunk.
fn enter_hunk(out: &mut Table<(String, u32), ()>, file: &String, start: u32, count: u32)
    ensures
        forall|k: (Seq<char>, u32)| #[trigger]
            final(out).keys().contains(k) <==> old(out).keys().contains(k) || (k.0 == file@ && start
                <= k.1 < start + count),
{
    let ghost was = *out;
    let end: u64 = start as u64 + count as u64;
    let mut n: u64 = start as u64;
    while n < end && n <= u32::MAX as u64
        invariant
            start <= n <= end,
            n <= u32::MAX as u64 + 1,
            end == start + count,
            forall|k: (Seq<char>, u32)| #[trigger]
                out.keys().contains(k) <==> was.keys().contains(k) || (k.0 == file@ && start <= k.1
                    < n),
        decreases end - n,
    {
        out.insert((file.clone(), n as u32), ());
        n = n + 1;
    }
}

/// The lines that a diff adds or changes, by file relative to the root and by
/// number. `places` has the absolute path of each file that the diff names;
/// deletions contribute nothing.
pub fn parse_diff(diff: &str, places: &Table<String, String>, root: &str) -> (r: Table<
    (String, u32),
    (),
>)
    ensures
        forall|k: (Seq<char>, u32)| #[trigger]
            r.keys().contains(k) <==> changes(text::lines(diff@), *places, root@, k.0, k.1),
{
    let lines = lines_of(diff);
    let ghost all = text::views(lines@);
    let mut out: Table<(String, u32), ()> = Table::new();
    let mut file: Option<String> = None;
    let mut i: usize = 0;
    while i < lines.len()
        invariant
            i <= lines@.len(),
            all == text::views(lines@),
            match file {
                Some(f) => current(all.take(i as int), *places, root@) == Some(f@),
                None => current(all.take(i as int), *places, root@) is None,
            },
            forall|k: (Seq<char>, u32)| #[trigger]
                out.keys().contains(k) <==> changes(all.take(i as int), *places, root@, k.0, k.1),
        decreases lines@.len() - i,
    {
        proof {
            text::lemma_take_step(all, i as int);
        }
        let line = lines[i].as_str();
        assert(line@ == all[i as int]);
        match strip_prefix(line, "+++ ") {
            Some(path) => {
                file = relativize(path.as_str(), places, root);
            },
            None => {
                if starts_with(line, "@@") {
                    if let Some(f) = &file {
                        if let Some((start, count)) = hunk_new_range(line) {
                            enter_hunk(&mut out, f, start, count);
                        }
                    }
                }
            },
        }
        i = i + 1;
    }
    proof {
        text::lemma_take_all(all);
    }
    out
}

/// The files that the `+++` lines of a diff name.
pub open spec fn named_files(lines: Seq<Seq<char>>) -> Seq<Seq<char>>
    decreases lines.len(),
{
    if lines.len() == 0 {
        Seq::empty()
    } else {
        let before = named_files(lines.drop_last());
        match after(lines.last(), "+++ "@) {
            Some(path) => match named_file(path) {
                Some(f) => before.push(f),
                None => before,
            },
            None => before,
        }
    }
}

/// The files that a diff names, relative to the top of the repository.
pub fn diff_files(diff: &str) -> (r: Vec<String>)
    ensures
        text::views(r@) == named_files(text::lines(diff@)),
{
    let lines = lines_of(diff);
    let ghost all = text::views(lines@);
    let mut out: Vec<String> = Vec::new();
    let mut i: usize = 0;
    assert(text::views(out@) =~= named_files(all.take(0)));
    while i < lines.len()
        invariant
            i <= lines@.len(),
            all == text::views(lines@),
            text::views(out@) == named_files(all.take(i as int)),
        decreases lines@.len() - i,
    {
        proof {
            text::lemma_take_step(all, i as int);
        }
        assert(lines@[i as int]@ == all[i as int]);
        if let Some(path) = strip_prefix(lines[i].as_str(), "+++ ") {
            if let Some(f) = file_named(path.as_str()) {
                let ghost seen = text::views(out@);
                let ghost fv = f@;
                out.push(f);
                assert(text::views(out@) =~= seen.push(fv));
            }
        }
        i = i + 1;
    }
    proof {
        text::lemma_take_all(all);
    }
    out
}

/// A changed line as a location.
pub open spec fn spot(k: (Seq<char>, u32)) -> Seq<char> {
    k.0 + ":"@ + text::decimal(k.1 as nat)
}

/// A changed line as a location.
fn spot_text(k: &(String, u32)) -> (r: String)
    ensures
        r@ == spot(k@),
{
    let n = decimal_of(k.1 as u64);
    cat3(k.0.as_str(), ":", n.as_str())
}

/// The row of a changed line of which nothing is known.
pub open spec fn unknown_row(k: (Seq<char>, u32)) -> JsonView {
    JsonView::object().with("loc"@, JsonView::Str(spot(k))).with(
        "status"@,
        JsonView::Str("unknown"@),
    ).with("label"@, JsonView::Str("unknown "@ + spot(k) + " (no line coverage)"@)).with(
        "group"@,
        JsonView::Str("unknown"@),
    ).with("cols"@, json::texts(Seq::empty()))
}

/// The row of a changed line that some tests execute.
pub open spec fn covered_row(k: (Seq<char>, u32), tests: Seq<Seq<char>>) -> JsonView {
    let n = rows::counted(tests.len(), "test"@);
    JsonView::object().with("loc"@, JsonView::Str(spot(k))).with(
        "status"@,
        JsonView::Str("covered"@),
    ).with("tests"@, json::texts(tests)).with(
        "label"@,
        JsonView::Str("covered "@ + spot(k) + "  ("@ + n + ")"@),
    ).with("group"@, JsonView::Str("covered"@)).with("cols"@, json::texts(seq![n]))
}

/// The row of a changed line that no test executes.
pub open spec fn uncovered_row(k: (Seq<char>, u32)) -> JsonView {
    JsonView::object().with("loc"@, JsonView::Str(spot(k))).with(
        "status"@,
        JsonView::Str("uncovered"@),
    ).with("label"@, JsonView::Str("uncovered "@ + spot(k))).with(
        "group"@,
        JsonView::Str("uncovered"@),
    ).with("cols"@, json::texts(Seq::empty()))
}

/// The rows of changed lines of which nothing is known.
pub open spec fn unknown_rows(keys: Seq<(Seq<char>, u32)>) -> Seq<JsonView> {
    Seq::new(keys.len(), |i: int| unknown_row(keys[i]))
}

/// The row of a changed line, those that no test executes first.
pub open spec fn line_entry(cov: Coverage, k: (Seq<char>, u32)) -> EntryView {
    if cov.covered(k.0, k.1) {
        EntryView {
            rank: 1,
            first: spot(k),
            second: Seq::empty(),
            row: covered_row(k, sort::sorted::<String>(cov.tests_of(k.0, k.1))),
        }
    } else {
        EntryView { rank: 0, first: spot(k), second: Seq::empty(), row: uncovered_row(k) }
    }
}

/// The rows of changed lines.
pub open spec fn line_entries(cov: Coverage, keys: Seq<(Seq<char>, u32)>) -> Seq<EntryView> {
    Seq::new(keys.len(), |i: int| line_entry(cov, keys[i]))
}

/// How many changed lines some test executes.
pub open spec fn covered_count(cov: Coverage, keys: Seq<(Seq<char>, u32)>) -> nat
    decreases keys.len(),
{
    if keys.len() == 0 {
        0
    } else {
        covered_count(cov, keys.drop_last()) + if cov.covered(keys.last().0, keys.last().1) {
            1nat
        } else {
            0
        }
    }
}

/// The files of changed lines.
pub open spec fn files_of(keys: Seq<(Seq<char>, u32)>) -> Seq<Seq<char>>
    decreases keys.len(),
{
    if keys.len() == 0 {
        Seq::empty()
    } else {
        hierarchy::with_new(files_of(keys.drop_last()), keys.last().0)
    }
}

/// The files of changed lines that some test executes.
pub open spec fn reached_files(cov: Coverage, keys: Seq<(Seq<char>, u32)>) -> Seq<Seq<char>>
    decreases keys.len(),
{
    if keys.len() == 0 {
        Seq::empty()
    } else if cov.covered(keys.last().0, keys.last().1) {
        reached_files(cov, keys.drop_last()).push(keys.last().0)
    } else {
        reached_files(cov, keys.drop_last())
    }
}

/// The items of a list that another does not have.
pub open spec fn missing(list: Seq<Seq<char>>, other: Seq<Seq<char>>) -> Seq<Seq<char>>
    decreases list.len(),
{
    if list.len() == 0 {
        Seq::empty()
    } else if other.contains(list.last()) {
        missing(list.drop_last(), other)
    } else {
        missing(list.drop_last(), other).push(list.last())
    }
}

/// What the report was asked.
pub open spec fn coverage_query(base: Seq<char>, cov: Coverage) -> JsonView {
    JsonView::object().with("kind"@, JsonView::Str("change-coverage"@)).with(
        "base"@,
        JsonView::Str(base),
    ).with("python"@, JsonView::Str(cov.python@)).with(
        "pytest_exit"@,
        json::integer_or_null(cov.pytest_exit),
    )
}

/// The report where it is not known which lines were executed.
pub open spec fn unknown_report(
    base: Seq<char>,
    keys: Seq<(Seq<char>, u32)>,
    led: Ledger,
) -> EnvelopeView {
    EnvelopeView::of(coverage_query(base, led.coverage), unknown_rows(keys)).summarized(
        text::decimal(keys.len()) + " changed line(s); coverage unavailable"@ + (if led.available {
            " on Python "@ + led.coverage.python@
        } else {
            Seq::empty()
        }),
    ).warned(
        seq![
            if led.available {
                "per-line coverage needs the `sys.monitoring` API (Python 3.12+); ran under "@
                    + led.coverage.python@ + " — changed lines reported with unknown coverage"@
            } else {
                text::join(text::views(led.warnings@), "; "@)
            },
        ],
    )
}

/// The warnings of the report: the changed files of which no test executes a
/// changed line, and what the report means.
pub open spec fn coverage_warnings(bare: Seq<Seq<char>>) -> Seq<Seq<char>> {
    let meaning =
        "coverage is per static line execution; dynamic dispatch is followed (it's the runtime), but a line not run by *this* suite is 'uncovered', not 'dead'."@;
    if bare.len() > 0 {
        seq![
            text::decimal(bare.len()) + " changed file(s) have no covered changed line: "@
                + text::join(bare, ", "@),
            meaning,
        ]
    } else {
        seq![meaning]
    }
}

/// The report: each changed line, whether a test executes it, and which.
pub open spec fn coverage_report(
    base: Seq<char>,
    keys: Seq<(Seq<char>, u32)>,
    led: Ledger,
) -> EnvelopeView {
    let cov = led.coverage;
    if !cov.monitoring_available {
        unknown_report(base, keys, led)
    } else {
        let n = covered_count(cov, keys);
        EnvelopeView::of(
            coverage_query(base, cov),
            rows::arranged(line_entries(cov, keys)),
        ).summarized(
            coverage_summary(base, n, keys.len(), files_of(keys).len()),
        ).warned(coverage_warnings(missing(files_of(keys), reached_files(cov, keys))))
    }
}

/// The row of a changed line of which nothing is known.
fn unknown_json(k: &(String, u32)) -> (r: Json)
    ensures
        r@ == unknown_row(k@),
{
    let loc = spot_text(k);
    let label = cat3("unknown ", loc.as_str(), " (no line coverage)");
    Json::object().with("loc", Json::Str(loc)).with("status", Json::text("unknown")).with(
        "label",
        Json::Str(label),
    ).with("group", Json::text("unknown")).with("cols", no_texts())
}

/// The row of a changed line.
fn line_json(cov: &Coverage, k: &(String, u32)) -> (r: Entry)
    ensures
        r@ == line_entry(*cov, k@),
{
    let loc = spot_text(k);
    if cov.is_covered(k.0.as_str(), k.1) {
        let all = cov.covering_tests(k.0.as_str(), k.1);
        let tests = sort_texts(all);
        assert(text::views(tests@).len() == tests@.len());
        let n = rows::count_of(tests.len(), "test");
        let label = cat5("covered ", loc.as_str(), "  (", n.as_str(), ")");
        let row = Json::object().with("loc", Json::Str(loc.clone())).with(
            "status",
            Json::text("covered"),
        ).with("tests", Json::texts(&tests)).with("label", Json::Str(label)).with(
            "group",
            Json::text("covered"),
        ).with("cols", one_text(n.as_str()));
        let e = Entry { rank: 1, first: loc, second: String::new(), row };
        assert(e@.second =~= Seq::empty());
        e
    } else {
        let label = cat("uncovered ", loc.as_str());
        let row = Json::object().with("loc", Json::Str(loc.clone())).with(
            "status",
            Json::text("uncovered"),
        ).with("label", Json::Str(label)).with("group", Json::text("uncovered")).with(
            "cols",
            no_texts(),
        );
        let e = Entry { rank: 0, first: loc, second: String::new(), row };
        assert(e@.second =~= Seq::empty());
        e
    }
}

/// What the report was asked.
fn query_json(base: &str, cov: &Coverage) -> (r: Json)
    ensures
        r@ == coverage_query(base@, *cov),
{
    Json::object().with("kind", Json::text("change-coverage")).with("base", Json::text(base)).with(
        "python",
        Json::text(cov.python.as_str()),
    ).with("pytest_exit", Json::integer_or_null(cov.pytest_exit))
}

/// The report where it is not known which lines were executed.
fn report_unknown(base: &str, changed: &Table<(String, u32), ()>, led: &Ledger) -> (r: Envelope)
    ensures
        r@ == unknown_report(base@, changed.keys(), *led),
{
    let ghost keys = changed.keys();
    let n = changed.len();
    let mut results: Vec<Json> = Vec::new();
    let mut i: usize = 0;
    while i < n
        invariant
            i <= n,
            n == changed.keys().len(),
            keys == changed.keys(),
            json::item_views(results@) == unknown_rows(keys).take(i as int),
        decreases n - i,
    {
        let ghost seen = results@;
        let ghost all = unknown_rows(keys);
        results.push(unknown_json(changed.key(i)));
        assert(json::item_views(results@) =~= json::item_views(seen).push(all[i as int]));
        assert(all.take(i + 1) =~= all.take(i as int).push(all[i as int]));
        i = i + 1;
    }
    assert(unknown_rows(keys).take(n as int) =~= unknown_rows(keys));
    let python = led.coverage.python.as_str();
    let warning = if led.available {
        cat3(
            "per-line coverage needs the `sys.monitoring` API (Python 3.12+); ran under ",
            python,
            " — changed lines reported with unknown coverage",
        )
    } else {
        join_with(&led.warnings, "; ")
    };
    let total = count_text(n);
    let on = if led.available {
        cat(" on Python ", python)
    } else {
        let none = String::new();
        assert(none@ =~= Seq::empty());
        none
    };
    let summary = cat3(total.as_str(), " changed line(s); coverage unavailable", on.as_str());
    let mut warnings: Vec<String> = Vec::new();
    warnings.push(warning);
    assert(text::views(warnings@) =~= seq![warnings@[0]@]);
    Envelope::new(query_json(base, &led.coverage), results).with_summary(summary).with_warnings(
        warnings,
    )
}

/// The items of a list that another does not have.
fn missing_items(list: &Vec<String>, other: &Vec<String>) -> (r: Vec<String>)
    ensures
        text::views(r@) == missing(text::views(list@), text::views(other@)),
{
    let ghost all = text::views(list@);
    let mut out: Vec<String> = Vec::new();
    let mut i: usize = 0;
    assert(text::views(out@) =~= missing(all.take(0), text::views(other@)));
    while i < list.len()
        invariant
            i <= list@.len(),
            all == text::views(list@),
            text::views(out@) == missing(all.take(i as int), text::views(other@)),
        decreases list@.len() - i,
    {
        proof {
            text::lemma_take_step(all, i as int);
        }
        if !listed(list[i].as_str(), other) {
            let ghost seen = text::views(out@);
            out.push(list[i].clone());
            assert(text::views(out@) =~= seen.push(all[i as int]));
        }
        i = i + 1;
    }
    proof {
        text::lemma_take_all(all);
    }
    out
}

/// The rows of the changed lines, how many of them are covered, the files that they are
/// in, and the file of each covered one.
fn tally(cov: &Coverage, changed: &Table<(String, u32), ()>) -> (r: (
    Vec<Entry>,
    usize,
    Vec<String>,
    Vec<String>,
))
    ensures
        sort::each(r.0@) == line_entries(*cov, changed.keys()),
        r.1 == covered_count(*cov, changed.keys()),
        r.1 <= changed.keys().len(),
        text::views(r.2@) == files_of(changed.keys()),
        text::views(r.3@) == reached_files(*cov, changed.keys()),
{
    let ghost keys = changed.keys();
    let ghost all = line_entries(*cov, keys);
    let n = changed.len();
    let mut entries: Vec<Entry> = Vec::new();
    let mut covered: usize = 0;
    let mut files: Vec<String> = Vec::new();
    let mut reached: Vec<String> = Vec::new();
    let mut i: usize = 0;
    assert(text::views(files@) =~= files_of(keys.take(0)));
    assert(text::views(reached@) =~= reached_files(*cov, keys.take(0)));
    while i < n
        invariant
            i <= n,
            n == changed.keys().len(),
            keys == changed.keys(),
            all == line_entries(*cov, keys),
            sort::each(entries@) == all.take(i as int),
            covered == covered_count(*cov, keys.take(i as int)),
            covered <= i,
            text::views(files@) == files_of(keys.take(i as int)),
            text::views(reached@) == reached_files(*cov, keys.take(i as int)),
        decreases n - i,
    {
        proof {
            text::lemma_take_step(keys, i as int);
        }
        let k = changed.key(i);
        let ghost held = entries@;
        let e = line_json(cov, k);
        entries.push(e);
        proof {
            sort::lemma_each_push(held, e);
            assert(all.take(i + 1) =~= all.take(i as int).push(all[i as int]));
        }
        if cov.is_covered(k.0.as_str(), k.1) {
            covered = covered + 1;
            let ghost seen = text::views(reached@);
            reached.push(k.0.clone());
            assert(text::views(reached@) =~= seen.push(k.0@));
        }
        if !listed(k.0.as_str(), &files) {
            let ghost seen = text::views(files@);
            files.push(k.0.clone());
            assert(text::views(files@) =~= seen.push(k.0@));
        }
        i = i + 1;
    }
    proof {
        text::lemma_take_all(keys);
        assert(all.take(n as int) =~= all);
    }
    (entries, covered, files, reached)
}

/// The summary: how many of the changed lines are covered, in how many files.
pub open spec fn coverage_summary(base: Seq<char>, covered: nat, total: nat, files: nat) -> Seq<
    char,
> {
    "change-coverage vs "@ + base + ": "@ + text::decimal(covered) + "/"@ + (text::decimal(total)
        + " changed lines covered, "@ + text::decimal((total - covered) as nat)
        + " uncovered across "@ + (text::decimal(files) + " file(s)"@))
}

/// The summary of a report.
fn summary_text(base: &str, covered: usize, total: usize, files: usize) -> (r: String)
    requires
        covered <= total,
    ensures
        r@ == coverage_summary(base@, covered as nat, total as nat, files as nat),
{
    let a = count_text(covered);
    let b = count_text(total);
    let c = count_text(total - covered);
    let d = count_text(files);
    let head = cat5("change-coverage vs ", base, ": ", a.as_str(), "/");
    let middle = cat4(b.as_str(), " changed lines covered, ", c.as_str(), " uncovered across ");
    let tail = cat(d.as_str(), " file(s)");
    let rest = cat(middle.as_str(), tail.as_str());
    cat(head.as_str(), rest.as_str())
}

/// The warnings of a report, given the files without a covered line.
fn warning_texts(bare: &Vec<String>) -> (r: Vec<String>)
    ensures
        text::views(r@) == coverage_warnings(text::views(bare@)),
{
    assert(text::views(bare@).len() == bare@.len());
    let mut warnings: Vec<String> = Vec::new();
    if bare.len() > 0 {
        let m = count_text(bare.len());
        let names = join_with(bare, ", ");
        warnings.push(
            cat3(m.as_str(), " changed file(s) have no covered changed line: ", names.as_str()),
        );
    }
    warnings.push(
        "coverage is per static line execution; dynamic dispatch is followed (it's the runtime), but a line not run by *this* suite is 'uncovered', not 'dead'.".to_owned(),
    );
    assert(text::views(warnings@) =~= coverage_warnings(text::views(bare@)));
    warnings
}

/// Which of the changed lines the tests execute. `base` is what the diff was made
/// against.
pub fn query_change_cov(base: &str, changed: &Table<(String, u32), ()>, led: &Ledger) -> (r: Envelope)
    ensures
        r@ == coverage_report(base@, changed.keys(), *led),
{
    let cov = &led.coverage;
    if !cov.monitoring_available {
        return report_unknown(base, changed, led);
    }
    let (entries, covered, files, reached) = tally(cov, changed);
    let bare = missing_items(&files, &reached);
    assert(text::views(files@).len() == files@.len());
    let summary = summary_text(base, covered, changed.len(), files.len());
    Envelope::new(query_json(base, cov), arrange(entries)).with_summary(summary).with_warnings(
        warning_texts(&bare),
    )
}

/// A hunk whose new range is empty changes no line.
pub proof fn law_deletion_changes_nothing(
    lines: Seq<Seq<char>>,
    header: Seq<char>,
    start: u32,
    places: Table<String, String>,
    root: Seq<char>,
    file: Seq<char>,
    n: u32,
)
    requires
        after(header, "+++ "@) is None,
        hunk(header) == Some((start, 0u32)),
    ensures
        changes(lines.push(header), places, root, file, n) <==> changes(
            lines,
            places,
            root,
            file,
            n,
        ),
{
    assert(lines.push(header).drop_last() =~= lines);
}

/// Every changed line has one row, covered or not.
pub proof fn law_every_changed_line_has_a_row(
    base: Seq<char>,
    keys: Seq<(Seq<char>, u32)>,
    led: Ledger,
)
    requires
        led.coverage.monitoring_available,
    ensures
        coverage_report(base, keys, led).results.len() == keys.len(),
        coverage_report(base, keys, led).count == keys.len(),
        covered_count(led.coverage, keys) <= keys.len(),
{
    sort::lemma_sorted::<Entry>(line_entries(led.coverage, keys));
    let all = line_entries(led.coverage, keys);
    let ordered = sort::sorted::<Entry>(all);
    all.to_multiset_ensures();
    ordered.to_multiset_ensures();
    lemma_covered_bound(led.coverage, keys);
}

/// No more lines are covered than there are.
proof fn lemma_covered_bound(cov: Coverage, keys: Seq<(Seq<char>, u32)>)
    ensures
        covered_count(cov, keys) <= keys.len(),
    decreases keys.len(),
{
    if keys.len() > 0 {
        lemma_covered_bound(cov, keys.drop_last());
    }
}

} // verus!
