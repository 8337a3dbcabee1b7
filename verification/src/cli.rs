//! The words of the command line: its menu, its refusals, and the answers of the
//! commands that keep and remove what is cached.
use crate::channel::{version_line, Build};
use crate::channel;
use crate::json::{Json, JsonView};
use crate::json;
use crate::model::{Def, DefKind, FileIndex};
use crate::model;
use crate::output::{pad, Channel, Envelope, EnvelopeView};
use crate::rows::count_of;
use crate::rows;
use crate::text::{cat, cat3, cat4, cat5, chars_of, same, trimmed};
use crate::text;
use vstd::prelude::*;

verus! {

/// How the answer is rendered: as JSON where that is asked for, else as indented
/// JSON where that is, else for the terminal.
pub fn channel_for(json: bool, pretty: bool) -> (r: Channel)
    ensures
        r == if json {
            Channel::Json
        } else if pretty {
            Channel::Pretty
        } else {
            Channel::Human
        },
{
    if json {
        Channel::Json
    } else if pretty {
        Channel::Pretty
    } else {
        Channel::Human
    }
}

/// Whether the menu has colours: on a terminal that is not dumb, unless the reader
/// wants none.
pub fn use_color(terminal: bool, no_color: bool, term: Option<&str>) -> (r: bool)
    ensures
        r == (terminal && !no_color && (term matches Some(t) ==> t@ != "dumb"@)),
{
    let dumb = match term {
        Some(t) => same(t, "dumb"),
        None => false,
    };
    terminal && !no_color && !dumb
}

/// Refuses a symbol that is blank.
pub fn check_symbol(symbol: &str) -> (r: Result<(), String>)
    ensures
        match r {
            Ok(_) => text::trim(symbol@).len() > 0,
            Err(e) => text::trim(symbol@).len() == 0 && e@ == "symbol must not be empty"@,
        },
{
    let t = trimmed(symbol);
    if chars_of(t.as_str()).len() == 0 {
        Err("symbol must not be empty".to_owned())
    } else {
        Ok(())
    }
}

/// What to say of tests.
#[derive(Debug)]
pub enum TestsQuery<'a> {
    /// Which of the lines changed since a commit they cover.
    Since(&'a str),
    /// Which of them reach a symbol.
    Reaching(&'a str),
}

/// What to say of tests: a commit goes before a symbol, and without either there is
/// nothing to say.
pub fn tests_query<'a>(symbol: Option<&'a str>, base: Option<&'a str>) -> (r: Result<
    TestsQuery<'a>,
    String,
>)
    ensures
        match (base, symbol) {
            (Some(b), _) => r == Ok::<TestsQuery, String>(TestsQuery::Since(b)),
            (None, Some(s)) => r == Ok::<TestsQuery, String>(TestsQuery::Reaching(s)),
            (None, None) => r matches Err(e) && e@
                == "`tests` needs a symbol (reaching tests) or `--base <ref>` (changed-line coverage)"@,
        },
{
    match (base, symbol) {
        (Some(b), _) => Ok(TestsQuery::Since(b)),
        (None, Some(s)) => Ok(TestsQuery::Reaching(s)),
        (None, None) => Err(
            "`tests` needs a symbol (reaching tests) or `--base <ref>` (changed-line coverage)".to_owned(),
        ),
    }
}

/// An answer that says in its query which root it is about.
pub fn anchored(envelope: Envelope, root: &str) -> (r: Envelope)
    ensures
        r@ == (EnvelopeView {
            query: envelope@.query.with("root"@, JsonView::Str(root@)),
            ..envelope@
        }),
{
    let mut e = envelope;
    let mut query = Json::Null;
    std::mem::swap(&mut query, &mut e.query);
    e.query = query.with("root", Json::text(root));
    e
}

/// How many of the definitions are functions or classes.
pub open spec fn callable_count(defs: Seq<Def>) -> nat
    decreases defs.len(),
{
    if defs.len() == 0 {
        0
    } else {
        callable_count(defs.drop_last()) + (if model::callable(defs.last()) {
            1nat
        } else {
            0nat
        })
    }
}

/// How many of the definitions are imports.
pub open spec fn import_count(defs: Seq<Def>) -> nat
    decreases defs.len(),
{
    if defs.len() == 0 {
        0
    } else {
        import_count(defs.drop_last()) + (if defs.last().kind is Import {
            1nat
        } else {
            0nat
        })
    }
}

/// How many callables there are to walk from.
pub open spec fn walked(files: Seq<FileIndex>) -> nat
    decreases files.len(),
{
    if files.len() == 0 {
        0
    } else {
        walked(files.drop_last()) + callable_count(files.last().defs@)
    }
}

/// How many occurrences there are to resolve: uses and imports.
pub open spec fn occurring(files: Seq<FileIndex>) -> nat
    decreases files.len(),
{
    if files.len() == 0 {
        0
    } else {
        occurring(files.drop_last()) + files.last().refs@.len() + import_count(
            files.last().defs@,
        )
    }
}

/// The first files have no more callables than all.
proof fn lemma_walked(files: Seq<FileIndex>, i: int)
    requires
        0 <= i <= files.len(),
    ensures
        walked(files.take(i)) <= walked(files),
        occurring(files.take(i)) <= occurring(files),
    decreases files.len() - i,
{
    if i < files.len() {
        text::lemma_take_step(files, i);
        lemma_walked(files, i + 1);
    } else {
        text::lemma_take_all(files);
    }
}

/// The first definitions have no more of a kind than all, and no more than there are.
proof fn lemma_counts(defs: Seq<Def>, i: int)
    requires
        0 <= i <= defs.len(),
    ensures
        callable_count(defs.take(i)) <= callable_count(defs),
        import_count(defs.take(i)) <= import_count(defs),
    decreases defs.len() - i,
{
    if i < defs.len() {
        text::lemma_take_step(defs, i);
        lemma_counts(defs, i + 1);
    } else {
        text::lemma_take_all(defs);
    }
}

/// How many callables there are to walk from when the call graph is recorded.
pub fn edges_total(files: &Vec<FileIndex>) -> (r: u64)
    requires
        walked(files@) <= u64::MAX,
    ensures
        r == walked(files@),
{
    let mut n: u64 = 0;
    let mut i: usize = 0;
    while i < files.len()
        invariant
            i <= files@.len(),
            walked(files@) <= u64::MAX,
            n == walked(files@.take(i as int)),
        decreases files@.len() - i,
    {
        proof {
            text::lemma_take_step(files@, i as int);
            lemma_walked(files@, i + 1);
        }
        let defs = &files[i].defs;
        let ghost before = n;
        let mut j: usize = 0;
        while j < defs.len()
            invariant
                j <= defs@.len(),
                before + callable_count(defs@) <= u64::MAX,
                n == before + callable_count(defs@.take(j as int)),
            decreases defs@.len() - j,
        {
            proof {
                text::lemma_take_step(defs@, j as int);
                lemma_counts(defs@, j + 1);
            }
            if model::is_callable(&defs[j]) {
                n = n + 1;
            }
            j = j + 1;
        }
        proof {
            text::lemma_take_all(defs@);
        }
        i = i + 1;
    }
    proof {
        text::lemma_take_all(files@);
    }
    n
}

/// How many occurrences there are to resolve when the call graph is recorded, and
/// one where there are none.
pub fn resolve_total(files: &Vec<FileIndex>) -> (r: u64)
    requires
        occurring(files@) <= u64::MAX,
    ensures
        r == if occurring(files@) == 0 {
            1
        } else {
            occurring(files@)
        },
{
    let mut n: u64 = 0;
    let mut i: usize = 0;
    while i < files.len()
        invariant
            i <= files@.len(),
            occurring(files@) <= u64::MAX,
            n == occurring(files@.take(i as int)),
        decreases files@.len() - i,
    {
        proof {
            text::lemma_take_step(files@, i as int);
            lemma_walked(files@, i + 1);
        }
        let defs = &files[i].defs;
        n = n + files[i].refs.len() as u64;
        let ghost before = n;
        let mut j: usize = 0;
        while j < defs.len()
            invariant
                j <= defs@.len(),
                before + import_count(defs@) <= u64::MAX,
                n == before + import_count(defs@.take(j as int)),
            decreases defs@.len() - j,
        {
            proof {
                text::lemma_take_step(defs@, j as int);
                lemma_counts(defs@, j + 1);
            }
            if let DefKind::Import = defs[j].kind {
                n = n + 1;
            }
            j = j + 1;
        }
        proof {
            text::lemma_take_all(defs@);
        }
        i = i + 1;
    }
    proof {
        text::lemma_take_all(files@);
    }
    if n == 0 {
        1
    } else {
        n
    }
}

/// The answer to `index`: how many files there are, and where what is cached is
/// kept; or that nothing is.
pub open spec fn index_answer(n: nat, cached: bool, place: Seq<char>) -> EnvelopeView {
    let query = JsonView::object().with("kind"@, JsonView::Str("index"@)).with(
        "files"@,
        JsonView::Num(n),
    ).with("cached"@, JsonView::Bool(cached));
    if cached {
        EnvelopeView::of(query.with("cache"@, JsonView::Str(place)), Seq::empty()).summarized(
            "indexed "@ + rows::counted(n, "file"@) + "; call graph recorded → "@ + place,
        )
    } else {
        EnvelopeView::of(query, Seq::empty()).summarized(
            "parsed "@ + rows::counted(n, "file"@)
                + " (caching disabled — nothing persisted)"@,
        ).warned(
            seq![
                "no cache was written (PYQ_NO_CACHE is set, or no home directory could be resolved)"@,
            ],
        )
    }
}

/// The answer to `index`. Nothing is cached where there is no fingerprint; where it
/// is kept may not be known.
pub fn query_index(n: usize, fingerprint: &str, location: Option<&str>) -> (r: Envelope)
    ensures
        r@ == index_answer(
            n as nat,
            fingerprint@.len() > 0,
            match location {
                Some(p) => p@,
                None => "<unavailable>"@,
            },
        ),
{
    let none: Vec<Json> = Vec::new();
    assert(json::item_views(none@) =~= Seq::empty());
    let files = count_of(n, "file");
    let cached = chars_of(fingerprint).len() > 0;
    let query = Json::object().with("kind", Json::text("index")).with("files", Json::count(n)).with(
        "cached",
        Json::Bool(cached),
    );
    if !cached {
        let mut warnings: Vec<String> = Vec::new();
        warnings.push(
            "no cache was written (PYQ_NO_CACHE is set, or no home directory could be resolved)".to_owned(),
        );
        assert(text::views(warnings@)
            =~= seq!["no cache was written (PYQ_NO_CACHE is set, or no home directory could be resolved)"@]);
        let summary = cat3("parsed ", files.as_str(), " (caching disabled — nothing persisted)");
        return Envelope::new(query, none).with_summary(summary).with_warnings(warnings);
    }
    let place = match location {
        Some(p) => p,
        None => "<unavailable>",
    };
    let head = cat3("indexed ", files.as_str(), "; call graph recorded → ");
    let summary = cat(head.as_str(), place);
    Envelope::new(query.with("cache", Json::text(place)), none).with_summary(summary)
}

/// The answer to `index clean`: what was removed.
pub open spec fn clean_answer(removed: Option<Seq<char>>) -> EnvelopeView {
    EnvelopeView::of(
        JsonView::object().with("kind"@, JsonView::Str("index-clean"@)).with(
            "removed"@,
            json::text_or_null(removed),
        ),
        Seq::empty(),
    ).summarized(
        match removed {
            Some(p) => "removed cached index → "@ + p,
            None => "no cached index to remove"@,
        },
    )
}

/// The answer to `index clean`.
pub fn query_index_clean(removed: Option<&str>) -> (r: Envelope)
    ensures
        r@ == clean_answer(
            match removed {
                Some(p) => Some(p@),
                None => None,
            },
        ),
{
    let none: Vec<Json> = Vec::new();
    assert(json::item_views(none@) =~= Seq::empty());
    let query = Json::object().with("kind", Json::text("index-clean")).with(
        "removed",
        Json::text_or_null(removed),
    );
    let summary = match removed {
        Some(p) => cat("removed cached index → ", p),
        None => "no cached index to remove".to_owned(),
    };
    Envelope::new(query, none).with_summary(summary)
}

/// One command of the menu: its name, its arguments and what it does.
pub type MenuRow = (&'static str, &'static str, &'static str);

/// The colours of the menu: headings, commands, what is dim, and the end of them.
#[verifier::ext_equal]
pub struct Colors {
    pub heading: Seq<char>,
    pub command: Seq<char>,
    pub dim: Seq<char>,
    pub reset: Seq<char>,
}

/// The colours of the menu; none where it has no colours.
pub open spec fn colors(on: bool) -> Colors {
    if on {
        Colors {
            heading: "\x1b[1;36m"@,
            command: "\x1b[1m"@,
            dim: "\x1b[2m"@,
            reset: "\x1b[0m"@,
        }
    } else {
        Colors { heading: ""@, command: ""@, dim: ""@, reset: ""@ }
    }
}

/// So many blanks.
pub open spec fn blanks(n: nat) -> Seq<char> {
    Seq::new(n, |i: int| ' ')
}

/// How many blanks part a command from what it does: so that it starts in one
/// column, and two at least.
pub open spec fn gap(row: MenuRow) -> nat {
    let shown = row.0@.len() + (if row.1@.len() == 0 {
        0
    } else {
        1 + row.1@.len()
    });
    if shown >= 18 {
        2
    } else {
        (20 - shown) as nat
    }
}

/// The line of a command.
pub open spec fn menu_line(row: MenuRow, c: Colors) -> Seq<char> {
    ("  "@ + c.command + row.0@ + c.reset + (if row.1@.len() == 0 {
        ""@
    } else {
        " "@ + row.1@
    })) + (blanks(gap(row)) + c.dim + row.2@ + c.reset + "\n"@)
}

/// The lines of commands.
pub open spec fn menu_lines(rows: Seq<MenuRow>, c: Colors) -> Seq<char>
    decreases rows.len(),
{
    if rows.len() == 0 {
        Seq::empty()
    } else {
        menu_lines(rows.drop_last(), c) + menu_line(rows.last(), c)
    }
}

/// A heading and the lines under it.
pub open spec fn menu_group(heading: Seq<char>, rows: Seq<MenuRow>, c: Colors) -> Seq<char> {
    ("\n"@ + c.heading + heading + c.reset + "\n"@) + menu_lines(rows, c)
}

/// The commands under "Find & describe a symbol".
pub open spec fn symbol_rows() -> Seq<MenuRow> {
    seq![
        ("refs", "<symbol>", "Every reference (reads, writes, calls) to a symbol, cross-file."),
        ("callers", "<symbol>", "Every call site of a symbol."),
        ("defs", "<symbol>", "Every definition (function / class / variable / import)."),
        ("describe", "<symbol>", "Signature, callers, callees & reaching tests — one pack."),
    ]
}

/// The commands under "Find & describe a symbol".
fn list_symbol_rows() -> (r: Vec<MenuRow>)
    ensures
        r@ == symbol_rows(),
{
    let r = vec![
        ("refs", "<symbol>", "Every reference (reads, writes, calls) to a symbol, cross-file."),
        ("callers", "<symbol>", "Every call site of a symbol."),
        ("defs", "<symbol>", "Every definition (function / class / variable / import)."),
        ("describe", "<symbol>", "Signature, callers, callees & reaching tests — one pack."),
    ];
    assert(r@ =~= symbol_rows());
    r
}

/// The commands under "Graph & relationships".
pub open spec fn graph_rows() -> Seq<MenuRow> {
    seq![
        ("graph", "<symbol>", "Transitive call graph: callees, or callers with --reverse."),
        ("hierarchy", "<class>", "Supertypes, subclasses, and the override map."),
        ("imports", "[module]", "Import graph: edges, reverse deps (--reverse), or --cycles."),
    ]
}

/// The commands under "Graph & relationships".
fn list_graph_rows() -> (r: Vec<MenuRow>)
    ensures
        r@ == graph_rows(),
{
    let r = vec![
        ("graph", "<symbol>", "Transitive call graph: callees, or callers with --reverse."),
        ("hierarchy", "<class>", "Supertypes, subclasses, and the override map."),
        ("imports", "[module]", "Import graph: edges, reverse deps (--reverse), or --cycles."),
    ];
    assert(r@ =~= graph_rows());
    r
}

/// The commands under "Effects, tests & dead code".
pub open spec fn effect_rows() -> Seq<MenuRow> {
    seq![
        ("effects", "<symbol>", "Side effects it transitively performs (fs / net / db / …)."),
        ("tests", "<symbol>", "Which collected tests are call-wired to a symbol."),
        ("deadcode", "", "Callables reachable from no entrypoint (candidates)."),
    ]
}

/// The commands under "Effects, tests & dead code".
fn list_effect_rows() -> (r: Vec<MenuRow>)
    ensures
        r@ == effect_rows(),
{
    let r = vec![
        ("effects", "<symbol>", "Side effects it transitively performs (fs / net / db / …)."),
        ("tests", "<symbol>", "Which collected tests are call-wired to a symbol."),
        ("deadcode", "", "Callables reachable from no entrypoint (candidates)."),
    ];
    assert(r@ =~= effect_rows());
    r
}

/// The commands under "Project surface".
pub open spec fn surface_rows() -> Seq<MenuRow> {
    seq![
        ("inputs", "[script]", "App env/config & settings; a script name for its own inputs."),
        ("mock-targets", "", "Resolve every mock.patch(...) and flag drifted targets."),
        ("canonical", "", "Most-used helpers, untested public surface, test inventory."),
        ("index", "", "Prewarm the ~/.pyq cache (index clean wipes it)."),
    ]
}

/// The commands under "Project surface".
fn list_surface_rows() -> (r: Vec<MenuRow>)
    ensures
        r@ == surface_rows(),
{
    let r = vec![
        ("inputs", "[script]", "App env/config & settings; a script name for its own inputs."),
        ("mock-targets", "", "Resolve every mock.patch(...) and flag drifted targets."),
        ("canonical", "", "Most-used helpers, untested public surface, test inventory."),
        ("index", "", "Prewarm the ~/.pyq cache (index clean wipes it)."),
    ];
    assert(r@ =~= surface_rows());
    r
}

/// The commands under "Distribution".
pub open spec fn release_rows() -> Seq<MenuRow> {
    seq![
        ("channel", "[name]", "Show or switch the release channel (stable / canary)."),
        ("upgrade", "", "Update pyq in place to the latest build on the channel."),
    ]
}

/// The commands under "Distribution".
fn list_release_rows() -> (r: Vec<MenuRow>)
    ensures
        r@ == release_rows(),
{
    let r = vec![
        ("channel", "[name]", "Show or switch the release channel (stable / canary)."),
        ("upgrade", "", "Update pyq in place to the latest build on the channel."),
    ];
    assert(r@ =~= release_rows());
    r
}

/// The menu: what the tool is, how it is used, the commands by what they are for,
/// the options, and which build it is. The words in braces are filled in by whoever
/// shows it.
pub open spec fn menu(color: bool, b: Build) -> Seq<char> {
    let c = colors(color);
    (("{about}\n\n"@ + c.dim + "Usage:"@ + c.reset + " {usage}\n"@) + menu_group(
        "Find & describe a symbol"@,
        symbol_rows(),
        c,
    ) + menu_group("Graph & relationships"@, graph_rows(), c) + menu_group(
        "Effects, tests & dead code"@,
        effect_rows(),
        c,
    ) + menu_group("Project surface"@, surface_rows(), c)) + menu_group(
        "Distribution"@,
        release_rows(),
        c,
    ) + ("\n"@ + c.heading + "Options"@ + c.reset + "\n{options}\n"@) + ("\n"@ + c.dim + "pyq "@
        + channel::build_line(b) + (c.reset + "\n"@)) + ("\n"@ + c.dim
        + "Run `pyq <command> --help` for the full description of any command."@ + c.reset)
}

/// So many blanks.
fn spaces(n: usize) -> (r: String)
    ensures
        r@ == blanks(n as nat),
{
    let r = pad("", n);
    proof {
        reveal_strlit("");
        assert(r@ =~= blanks(n as nat));
    }
    r
}

/// The colours of the menu, to write with.
struct Paint {
    heading: &'static str,
    command: &'static str,
    dim: &'static str,
    reset: &'static str,
}

impl View for Paint {
    type V = Colors;

    closed spec fn view(&self) -> Colors {
        Colors {
            heading: self.heading@,
            command: self.command@,
            dim: self.dim@,
            reset: self.reset@,
        }
    }
}

/// The line of a command.
fn line_of(row: &MenuRow, p: &Paint) -> (r: String)
    ensures
        r@ == menu_line(*row, p@),
{
    let (name, args, desc) = *row;
    let n: usize = chars_of(name).len();
    let m: usize = chars_of(args).len();
    let shown: usize = if n >= 18 || m >= 18 {
        18
    } else if m == 0 {
        n
    } else {
        n + 1 + m
    };
    let blank: usize = if shown >= 18 {
        2
    } else {
        20 - shown
    };
    let with_args = if m == 0 {
        "".to_owned()
    } else {
        cat(" ", args)
    };
    let head = cat5("  ", p.command, name, p.reset, with_args.as_str());
    let hole = spaces(blank);
    let tail = cat5(hole.as_str(), p.dim, desc, p.reset, "\n");
    cat(head.as_str(), tail.as_str())
}

/// A heading and the lines under it.
fn group_of(heading: &str, rows: &Vec<MenuRow>, p: &Paint) -> (r: String)
    ensures
        r@ == menu_group(heading@, rows@, p@),
{
    let head = cat5("\n", p.heading, heading, p.reset, "\n");
    let mut body = String::new();
    let mut i: usize = 0;
    assert(body@ =~= menu_lines(rows@.take(0), p@));
    while i < rows.len()
        invariant
            i <= rows@.len(),
            body@ == menu_lines(rows@.take(i as int), p@),
        decreases rows@.len() - i,
    {
        proof {
            text::lemma_take_step(rows@, i as int);
        }
        let line = line_of(&rows[i], p);
        body = cat(body.as_str(), line.as_str());
        i = i + 1;
    }
    proof {
        text::lemma_take_all(rows@);
    }
    cat(head.as_str(), body.as_str())
}

/// The menu of the commands.
pub fn help_menu(color: bool, build: &Build) -> (r: String)
    ensures
        r@ == menu(color, *build),
{
    let p = if color {
        Paint { heading: "\x1b[1;36m", command: "\x1b[1m", dim: "\x1b[2m", reset: "\x1b[0m" }
    } else {
        Paint { heading: "", command: "", dim: "", reset: "" }
    };
    let start = cat5("{about}\n\n", p.dim, "Usage:", p.reset, " {usage}\n");
    let one = group_of("Find & describe a symbol", &list_symbol_rows(), &p);
    let two = group_of("Graph & relationships", &list_graph_rows(), &p);
    let three = group_of("Effects, tests & dead code", &list_effect_rows(), &p);
    let four = group_of("Project surface", &list_surface_rows(), &p);
    let five = group_of("Distribution", &list_release_rows(), &p);
    let options = cat5("\n", p.heading, "Options", p.reset, "\n{options}\n");
    let line = version_line(build);
    let end = cat(p.reset, "\n");
    let which = cat5("\n", p.dim, "pyq ", line.as_str(), end.as_str());
    let more = cat4(
        "\n",
        p.dim,
        "Run `pyq <command> --help` for the full description of any command.",
        p.reset,
    );
    let first = cat5(start.as_str(), one.as_str(), two.as_str(), three.as_str(), four.as_str());
    cat5(first.as_str(), five.as_str(), options.as_str(), which.as_str(), more.as_str())
}

} // verus!
