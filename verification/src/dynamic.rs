//! What a run of the project's test suite showed: the effects, the types that
//! were returned, the lines that were executed.
use crate::json::{texts_in, Json, JsonView};
use crate::json;
use crate::output::{Envelope, EnvelopeView};
use crate::parse_json::parse;
use crate::parse_json;
use crate::table::Table;
use crate::text::{copy_strings, join_with};
use crate::text;
use vstd::prelude::*;

verus! {

/// How to run the suite.
#[derive(Debug)]
pub struct TraceOptions {
    /// The root of the project.
    pub root: String,
    /// The Python interpreter.
    pub python: String,
    /// What is passed on to pytest.
    pub pytest_args: Vec<String>,
}

/// The interpreter: the one that the environment names, else `python3`.
pub open spec fn interpreter(named: Option<Seq<char>>) -> Seq<char> {
    match named {
        Some(p) => p,
        None => "python3"@,
    }
}

/// The interpreter: the one that the environment names, else `python3`.
pub fn default_python(named: Option<String>) -> (r: String)
    ensures
        r@ == interpreter(
            match named {
                Some(p) => Some(p@),
                None => None,
            },
        ),
{
    match named {
        Some(p) => p,
        None => "python3".to_owned(),
    }
}

impl TraceOptions {
    /// The options for a root, with the interpreter that the environment names
    /// and nothing for pytest.
    pub fn new(root: String, named: Option<String>) -> (r: Self)
        ensures
            r.root@ == root@,
            r.python@ == interpreter(
                match named {
                    Some(p) => Some(p@),
                    None => None,
                },
            ),
            r.pytest_args@.len() == 0,
    {
        TraceOptions { root, python: default_python(named), pytest_args: Vec::new() }
    }
}

/// Where Python looks for modules: the sidecar, the root, then what was set
/// before, unless that is empty.
pub open spec fn search_path(
    sidecar: Seq<char>,
    root: Seq<char>,
    sep: Seq<char>,
    before: Option<Seq<char>>,
) -> Seq<char> {
    match before {
        Some(p) => if p.len() > 0 {
            text::join(seq![sidecar, root, p], sep)
        } else {
            text::join(seq![sidecar, root], sep)
        },
        None => text::join(seq![sidecar, root], sep),
    }
}

/// Where Python looks for modules.
pub fn build_pythonpath(sidecar: &str, root: &str, sep: &str, before: Option<&str>) -> (r: String)
    ensures
        r@ == search_path(
            sidecar@,
            root@,
            sep@,
            match before {
                Some(p) => Some(p@),
                None => None,
            },
        ),
{
    let mut parts: Vec<String> = Vec::new();
    parts.push(sidecar.to_owned());
    parts.push(root.to_owned());
    assert(text::views(parts@) =~= seq![sidecar@, root@]);
    match before {
        Some(p) => {
            if p.unicode_len() > 0 {
                parts.push(p.to_owned());
                assert(text::views(parts@) =~= seq![sidecar@, root@, p@]);
            }
        },
        None => {},
    }
    join_with(&parts, sep)
}

/// The query of a trace, with the code that pytest exited with.
pub open spec fn traced_query(v: JsonView, exit_code: Option<i32>) -> JsonView {
    let q = match v.get("query"@) {
        Some(q) => q,
        None => JsonView::Null,
    };
    match exit_code {
        Some(code) => q.with("pytest_exit"@, json::integer(code as int)),
        None => q,
    }
}

/// The results of a trace.
pub open spec fn traced_results(v: JsonView) -> Seq<JsonView> {
    match v.get("results"@) {
        Some(JsonView::Arr(a)) => a,
        _ => Seq::empty(),
    }
}

/// The summary of a trace.
pub open spec fn traced_summary(v: JsonView) -> Seq<char> {
    match v.get_text("summary"@) {
        Some(s) => s,
        None => Seq::empty(),
    }
}

/// The warnings of a trace.
pub open spec fn traced_warnings(v: JsonView) -> Seq<Seq<char>> {
    match v.get("warnings"@) {
        Some(JsonView::Arr(a)) => json::texts_among(a),
        _ => Seq::empty(),
    }
}

/// The envelope of a trace.
pub open spec fn traced(v: JsonView, exit_code: Option<i32>) -> EnvelopeView {
    EnvelopeView::of(traced_query(v, exit_code), traced_results(v)).summarized(
        traced_summary(v),
    ).warned(traced_warnings(v))
}

/// The envelope of a trace, from the structured value that the run wrote.
pub fn envelope_of(v: &Json, exit_code: Option<i32>) -> (r: Envelope)
    ensures
        r@ == traced(v@, exit_code),
{
    let base = match v.get("query") {
        Some(q) => q.copy(),
        None => Json::Null,
    };
    let query = match exit_code {
        Some(code) => base.with("pytest_exit", Json::integer(code)),
        None => base,
    };
    let results: Vec<Json> = match v.get("results") {
        Some(a) => {
            proof {
                json::lemma_views(*a);
            }
            match a {
                Json::Arr(items) => Json::copy_items(items),
                _ => Vec::new(),
            }
        },
        None => Vec::new(),
    };
    assert(json::item_views(results@) =~= traced_results(v@));
    let summary = match v.get_text("summary") {
        Some(s) => s.to_owned(),
        None => String::new(),
    };
    assert(summary@ =~= traced_summary(v@));
    let warnings: Vec<String> = match v.get("warnings") {
        Some(a) => {
            proof {
                json::lemma_views(*a);
            }
            match a {
                Json::Arr(items) => texts_in(items),
                _ => Vec::new(),
            }
        },
        None => Vec::new(),
    };
    assert(text::views(warnings@) =~= traced_warnings(v@));
    Envelope::new(query, results).with_summary(summary).with_warnings(warnings)
}

/// The envelope of a trace, from the text that the run wrote; nothing where that
/// is no JSON.
pub fn parse_envelope(raw: &str, exit_code: Option<i32>) -> (r: Option<Envelope>)
    ensures
        match r {
            Some(e) => parse_json::said(raw@) is Some && e@ == traced(
                parse_json::said(raw@)->0,
                exit_code,
            ),
            None => parse_json::said(raw@) is None,
        },
{
    match parse(raw) {
        Some(v) => Some(envelope_of(&v, exit_code)),
        None => None,
    }
}

/// Whether a result says that a callable had an effect of a category.
pub open spec fn shows(r: JsonView, owner: Seq<char>, cat: Seq<char>) -> bool {
    r.get_text("owner"@) == Some(owner) && r.get_text("effect"@) == Some(cat)
}

/// Whether one of the results says so.
pub open spec fn shown(results: Seq<JsonView>, owner: Seq<char>, cat: Seq<char>) -> bool {
    exists|i: int| 0 <= i < results.len() && shows(#[trigger] results[i], owner, cat)
}

/// The effects that a trace shows: who had one, and its category.
pub fn effects_in(results: &Vec<Json>) -> (r: Table<(String, String), ()>)
    ensures
        forall|k: (Seq<char>, Seq<char>)| #[trigger]
            r.keys().contains(k) <==> shown(json::item_views(results@), k.0, k.1),
{
    let ghost all = json::item_views(results@);
    let mut out: Table<(String, String), ()> = Table::new();
    let mut i: usize = 0;
    while i < results.len()
        invariant
            i <= results@.len(),
            all == json::item_views(results@),
            forall|k: (Seq<char>, Seq<char>)| #[trigger]
                out.keys().contains(k) <==> shown(all.take(i as int), k.0, k.1),
        decreases results@.len() - i,
    {
        let ghost less = all.take(i as int);
        let ghost more = all.take(i + 1);
        assert(all[i as int] == results@[i as int]@);
        assert forall|k: (Seq<char>, Seq<char>)|
            shown(more, k.0, k.1) == (shown(less, k.0, k.1) || shows(all[i as int], k.0, k.1)) by {
            if shown(less, k.0, k.1) {
                let j = choose|j: int| 0 <= j < less.len() && shows(#[trigger] less[j], k.0, k.1);
                assert(shows(more[j], k.0, k.1));
            }
            if shows(all[i as int], k.0, k.1) {
                assert(shows(more[i as int], k.0, k.1));
            }
            if shown(more, k.0, k.1) {
                let j = choose|j: int| 0 <= j < more.len() && shows(#[trigger] more[j], k.0, k.1);
                if j < i {
                    assert(shows(less[j], k.0, k.1));
                }
            }
        }
        if let Some(owner) = results[i].get_text("owner") {
            if let Some(cat) = results[i].get_text("effect") {
                out.insert((owner.to_owned(), cat.to_owned()), ());
            }
        }
        i = i + 1;
    }
    proof {
        text::lemma_take_all(all);
    }
    out
}

/// Which tests executed which lines.
pub struct Coverage {
    /// The version of Python that ran.
    pub python: String,
    /// The code that pytest exited with.
    pub pytest_exit: Option<i32>,
    /// Whether that version can tell which lines are executed.
    pub monitoring_available: bool,
    /// The tests that executed a line of a file.
    pub hits: Table<(String, u32), Vec<String>>,
}

impl Coverage {
    /// The tests that executed a line.
    pub open spec fn tests_of(self, file: Seq<char>, line: u32) -> Seq<Seq<char>> {
        text::views(self.hits.list((file, line)))
    }

    /// Whether a test executed a line.
    pub open spec fn covered(self, file: Seq<char>, line: u32) -> bool {
        self.tests_of(file, line).len() > 0
    }

    /// The tests that executed a line.
    pub fn covering_tests(&self, file: &str, line: u32) -> (r: Vec<String>)
        ensures
            text::views(r@) == self.tests_of(file@, line),
    {
        match self.hits.get(&(file.to_owned(), line)) {
            Some(list) => copy_strings(list),
            None => {
                let none: Vec<String> = Vec::new();
                assert(text::views(none@) =~= self.tests_of(file@, line));
                none
            },
        }
    }

    /// Whether a test executed a line.
    pub fn is_covered(&self, file: &str, line: u32) -> (r: bool)
        ensures
            r == self.covered(file@, line),
    {
        match self.hits.get(&(file.to_owned(), line)) {
            Some(list) => list.len() > 0,
            None => false,
        }
    }
}

/// What a run of the suite showed.
pub struct Ledger {
    /// Whether the suite ran.
    pub available: bool,
    /// The effects: who performed one, and its category.
    pub effects: Table<(String, String), ()>,
    /// The types that callables returned.
    pub shapes: Table<String, Vec<String>>,
    pub coverage: Coverage,
    /// The code that pytest exited with.
    pub pytest_exit: Option<i32>,
    /// Why the suite did not run.
    pub warnings: Vec<String>,
}

} // verus!
