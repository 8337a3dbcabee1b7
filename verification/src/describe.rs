//! All about a symbol: its definitions, who calls it, what it calls, and the tests
//! that reach it.
use crate::callgraph::{CallGraph, CallGraphTy, Closure, Direction, GraphNode, NodeView};
use crate::callgraph;
use crate::dynamic::Ledger;
use crate::json::{Json, JsonView};
use crate::json;
use crate::last_def::defs_by_name;
use crate::last_def;
use crate::model::{Def, DefKind, FileIndex};
use crate::output::{Envelope, EnvelopeView};
use crate::rows::{count_of, loc_str, one_text, place_text, two_texts};
use crate::rows;
use crate::sort::sort;
use crate::sort;
use crate::table::Table;
use crate::tests_map::{is_test_node, test_class_fqns};
use crate::tests_map;
use crate::text::{cat, cat3, cat4, cat5, chars_of, count_text, join_with, leaf_of, string_of};
use crate::text;
use vstd::prelude::*;

verus! {

/// The first `max` characters of a text, with an ellipsis where there are more.
pub open spec fn shortened(s: Seq<char>, max: nat) -> Seq<char> {
    if s.len() <= max {
        s
    } else {
        s.take(max as int) + "…"@
    }
}

/// The first `max` characters of a text, with an ellipsis where there are more.
pub fn truncate(s: &str, max: usize) -> (r: String)
    ensures
        r@ == shortened(s@, max as nat),
{
    let cs = chars_of(s);
    if cs.len() <= max {
        return s.to_owned();
    }
    let head = string_of(&cs, 0, max);
    assert(head@ =~= s@.take(max as int));
    cat(head.as_str(), "…")
}

/// The word that a definition starts with.
pub open spec fn def_word(d: Def) -> Seq<char> {
    if d.kind is Class {
        "class"@
    } else {
        "def"@
    }
}

/// The signature of a definition: the bases of a class, the parameters and the
/// return annotation of a function.
pub open spec fn signature_of(d: Def) -> Seq<char> {
    if d.kind is Class {
        if d.bases@.len() > 0 {
            "("@ + text::join(text::views(d.bases@), ", "@) + ")"@
        } else {
            Seq::empty()
        }
    } else {
        match d.signature {
            Some(s) => s@,
            None => Seq::empty(),
        }
    }
}

/// Decorators, each with its `@` and a blank behind it.
pub open spec fn decorated_by(decorators: Seq<Seq<char>>) -> Seq<char>
    decreases decorators.len(),
{
    if decorators.len() == 0 {
        Seq::empty()
    } else {
        decorated_by(decorators.drop_last()) + ("@"@ + decorators.last() + " "@)
    }
}

/// The line of a definition.
pub open spec fn headline(d: Def) -> Seq<char> {
    decorated_by(text::views(d.decorators@)) + def_word(d) + " "@ + (d.name@ + signature_of(d))
}

/// The lines that a definition spans.
pub open spec fn span_of(d: Def) -> Seq<char> {
    "L"@ + text::decimal(d.pos.line as nat) + "-"@ + text::decimal(d.end_line as nat)
}

/// The docstring of a definition.
pub open spec fn doc_of(d: Def) -> Option<Seq<char>> {
    match d.doc {
        Some(t) => Some(t@),
        None => None,
    }
}

/// The types that a callable returned when the suite ran.
pub open spec fn observed_return(led: Ledger, name: Seq<char>) -> Option<Seq<char>> {
    if led.shapes.map().contains_key(name) {
        Some(text::join(text::views(led.shapes.list(name)), " | "@))
    } else {
        None
    }
}

/// The row of a definition.
pub open spec fn definition_view(led: Ledger, name: Seq<char>, path: Seq<char>, d: Def) -> JsonView {
    let row = JsonView::object().with(
        "loc"@,
        JsonView::Str(rows::place(path, d.pos.line, d.pos.col)),
    ).with(
        "label"@,
        JsonView::Str(
            match doc_of(d) {
                Some(t) => headline(d) + "  ["@ + span_of(d) + "]"@ + ("  — "@ + shortened(t, 80)),
                None => headline(d) + "  ["@ + span_of(d) + "]"@,
            },
        ),
    ).with("role"@, JsonView::Str("definition"@)).with("fqn"@, JsonView::Str(name)).with(
        "node_kind"@,
        JsonView::Str(def_word(d)),
    ).with("signature"@, JsonView::Str(signature_of(d))).with(
        "decorators"@,
        json::texts(text::views(d.decorators@)),
    ).with("doc"@, json::text_or_null(doc_of(d))).with(
        "lines"@,
        JsonView::Arr(
            seq![JsonView::Num(d.pos.line as nat), JsonView::Num(d.end_line as nat)],
        ),
    ).with("group"@, JsonView::Str("definition"@)).with(
        "cols"@,
        json::texts(
            match doc_of(d) {
                Some(t) => seq![headline(d), span_of(d), "— "@ + shortened(t, 80)],
                None => seq![headline(d), span_of(d)],
            },
        ),
    );
    match observed_return(led, name) {
        Some(t) => row.with("observed_return"@, JsonView::Str(t)),
        None => row,
    }
}

/// The signature of a definition.
fn signature_text(d: &Def) -> (r: String)
    ensures
        r@ == signature_of(*d),
{
    let class = match d.kind {
        DefKind::Class => true,
        _ => false,
    };
    if class {
        if d.bases.len() > 0 {
            let bases = join_with(&d.bases, ", ");
            return cat3("(", bases.as_str(), ")");
        }
    } else {
        if let Some(s) = &d.signature {
            return s.clone();
        }
    }
    let none = String::new();
    assert(none@ =~= Seq::empty());
    none
}

/// Decorators, each with its `@` and a blank behind it.
fn decorators_text(list: &Vec<String>) -> (r: String)
    ensures
        r@ == decorated_by(text::views(list@)),
{
    let ghost all = text::views(list@);
    let mut out = String::new();
    let mut i: usize = 0;
    assert(out@ =~= decorated_by(all.take(0)));
    while i < list.len()
        invariant
            i <= list@.len(),
            all == text::views(list@),
            out@ == decorated_by(all.take(i as int)),
        decreases list@.len() - i,
    {
        proof {
            text::lemma_take_step(all, i as int);
        }
        let one = cat3("@", list[i].as_str(), " ");
        out = cat(out.as_str(), one.as_str());
        i = i + 1;
    }
    proof {
        text::lemma_take_all(all);
    }
    out
}

/// A list of two counts.
fn two_counts(a: usize, b: usize) -> (r: Json)
    ensures
        r@ == JsonView::Arr(seq![JsonView::Num(a as nat), JsonView::Num(b as nat)]),
{
    let mut v: Vec<Json> = Vec::new();
    v.push(Json::count(a));
    v.push(Json::count(b));
    let r = Json::Arr(v);
    proof {
        json::lemma_views(r);
        assert(json::item_views(v@) =~= seq![JsonView::Num(a as nat), JsonView::Num(b as nat)]);
    }
    r
}

/// The row of a definition.
fn definition_row(led: &Ledger, name: &str, path: &str, d: &Def) -> (r: Json)
    ensures
        r@ == definition_view(*led, name@, path@, *d),
{
    let word = match d.kind {
        DefKind::Class => "class",
        _ => "def",
    };
    let sig = signature_text(d);
    let decos = decorators_text(&d.decorators);
    let named = cat(d.name.as_str(), sig.as_str());
    let head = cat4(decos.as_str(), word, " ", named.as_str());
    let from = count_text(d.pos.line);
    let to = count_text(d.end_line);
    let span = cat4("L", from.as_str(), "-", to.as_str());
    let plain = cat4(head.as_str(), "  [", span.as_str(), "]");
    let mut cols: Vec<String> = Vec::new();
    cols.push(head);
    cols.push(span);
    let (label, doc) = match &d.doc {
        Some(t) => {
            let short = truncate(t.as_str(), 80);
            cols.push(cat("— ", short.as_str()));
            let tail = cat("  — ", short.as_str());
            (cat(plain.as_str(), tail.as_str()), Some(t.as_str()))
        },
        None => (plain, None),
    };
    proof {
        assert(text::views(cols@) =~= match doc_of(*d) {
            Some(t) => seq![headline(*d), span_of(*d), "— "@ + shortened(t, 80)],
            None => seq![headline(*d), span_of(*d)],
        });
    }
    let row = Json::object().with("loc", Json::Str(loc_str(path, d.pos))).with(
        "label",
        Json::Str(label),
    ).with("role", Json::text("definition")).with("fqn", Json::text(name)).with(
        "node_kind",
        Json::text(word),
    ).with("signature", Json::Str(sig)).with("decorators", Json::texts(&d.decorators)).with(
        "doc",
        Json::text_or_null(doc),
    ).with("lines", two_counts(d.pos.line, d.end_line)).with("group", Json::text("definition")).with(
        "cols",
        Json::texts(&cols),
    );
    match led.shapes.get(&name.to_owned()) {
        Some(types) => {
            let union = join_with(types, " | ");
            row.with("observed_return", Json::Str(union))
        },
        None => row,
    }
}

/// What a node is to the symbol.
#[derive(Clone, Copy, Debug, PartialEq, Eq, Structural)]
pub enum Role {
    Caller,
    Callee,
    Test,
}

/// The name of a role.
pub open spec fn role_name(role: Role) -> Seq<char> {
    match role {
        Role::Caller => "caller"@,
        Role::Callee => "callee"@,
        Role::Test => "test"@,
    }
}

/// The row of a node that calls the symbol, is called by it, or is a test that
/// reaches it.
pub open spec fn neighbour_view(role: Role, n: NodeView) -> JsonView {
    let name = role_name(role);
    JsonView::object().with("loc"@, JsonView::Str(rows::place(n.path, n.line, n.col))).with(
        "label"@,
        JsonView::Str(
            if role is Test {
                name + " "@ + n.fqn + " (depth "@ + text::decimal(n.depth) + (", via "@ + n.via
                    + ")"@)
            } else {
                name + " "@ + n.fqn
            },
        ),
    ).with("role"@, JsonView::Str(name)).with("fqn"@, JsonView::Str(n.fqn)).with(
        "node_kind"@,
        JsonView::Str(n.kind),
    ).with("depth"@, JsonView::Num(n.depth)).with("via"@, JsonView::Str(n.via)).with(
        "group"@,
        JsonView::Str(
            match role {
                Role::Caller => "callers"@,
                Role::Callee => "callees"@,
                Role::Test => "reaching tests"@,
            },
        ),
    ).with(
        "cols"@,
        json::texts(
            if role is Test {
                seq![
                    n.fqn,
                    "depth "@ + text::decimal(n.depth) + " · via "@ + text::leaf_name(n.via),
                ]
            } else {
                seq![n.fqn]
            },
        ),
    )
}

/// The row of a node.
fn neighbour_row(role: Role, n: &GraphNode) -> (r: Json)
    ensures
        r@ == neighbour_view(role, n@),
{
    let (name, group) = match role {
        Role::Caller => ("caller", "callers"),
        Role::Callee => ("callee", "callees"),
        Role::Test => ("test", "reaching tests"),
    };
    let test = match role {
        Role::Test => true,
        _ => false,
    };
    let (label, cols) = if test {
        let d = count_text(n.depth);
        let tail = cat3(", via ", n.via.as_str(), ")");
        let head = cat5(name, " ", n.fqn.as_str(), " (depth ", d.as_str());
        let short = leaf_of(n.via.as_str());
        let path = cat4("depth ", d.as_str(), " · via ", short.as_str());
        (cat(head.as_str(), tail.as_str()), two_texts(n.fqn.as_str(), path.as_str()))
    } else {
        (cat3(name, " ", n.fqn.as_str()), one_text(n.fqn.as_str()))
    };
    Json::object().with("loc", Json::Str(place_text(n.path.as_str(), n.line, n.col))).with(
        "label",
        Json::Str(label),
    ).with("role", Json::text(name)).with("fqn", Json::text(n.fqn.as_str())).with(
        "node_kind",
        Json::text(n.kind),
    ).with("depth", Json::count(n.depth)).with("via", Json::text(n.via.as_str())).with(
        "group",
        Json::text(group),
    ).with("cols", cols)
}

/// Whether a node has a role. Callers are one step away; callees are all that a
/// walk of one step finds.
pub open spec fn plays(role: Role, n: NodeView, classes: Set<Seq<char>>) -> bool {
    match role {
        Role::Caller => n.depth == 1,
        Role::Callee => true,
        Role::Test => tests_map::test_node(n, classes),
    }
}

/// The rows of the nodes that have a role.
pub open spec fn neighbour_rows(
    role: Role,
    nodes: Seq<NodeView>,
    classes: Set<Seq<char>>,
) -> Seq<JsonView>
    decreases nodes.len(),
{
    if nodes.len() == 0 {
        Seq::empty()
    } else if plays(role, nodes.last(), classes) {
        neighbour_rows(role, nodes.drop_last(), classes).push(neighbour_view(role, nodes.last()))
    } else {
        neighbour_rows(role, nodes.drop_last(), classes)
    }
}

/// Adds the rows of the nodes that have a role, and counts them.
fn push_neighbours(
    out: &mut Vec<Json>,
    role: Role,
    nodes: &Vec<GraphNode>,
    classes: &Table<String, ()>,
) -> (r: usize)
    ensures
        json::item_views(final(out)@) == json::item_views(old(out)@) + neighbour_rows(
            role,
            sort::each(nodes@),
            classes.keys().to_set(),
        ),
        r == neighbour_rows(role, sort::each(nodes@), classes.keys().to_set()).len(),
{
    let ghost before = json::item_views(out@);
    let ghost all = sort::each(nodes@);
    let ghost set = classes.keys().to_set();
    let mut count: usize = 0;
    let mut i: usize = 0;
    assert(before + neighbour_rows(role, all.take(0), set) =~= before);
    while i < nodes.len()
        invariant
            i <= nodes@.len(),
            all == sort::each(nodes@),
            set == classes.keys().to_set(),
            json::item_views(out@) == before + neighbour_rows(role, all.take(i as int), set),
            count == neighbour_rows(role, all.take(i as int), set).len(),
            count <= i,
        decreases nodes@.len() - i,
    {
        proof {
            text::lemma_take_step(all, i as int);
            assert(all[i as int] == nodes@[i as int]@);
        }
        let n = &nodes[i];
        let has_role = match role {
            Role::Caller => n.depth == 1,
            Role::Callee => true,
            Role::Test => is_test_node(n, classes),
        };
        if has_role {
            let ghost seen = json::item_views(out@);
            let ghost was = neighbour_rows(role, all.take(i as int), set);
            out.push(neighbour_row(role, n));
            count = count + 1;
            proof {
                let row = neighbour_view(role, n@);
                assert(json::item_views(out@) =~= seen.push(row));
                assert((before + was).push(row) =~= before + was.push(row));
            }
        }
        i = i + 1;
    }
    proof {
        text::lemma_take_all(all);
    }
    count
}

/// The rows of the definitions of names.
pub open spec fn definition_rows(
    led: Ledger,
    files: Seq<FileIndex>,
    roots: Seq<Seq<char>>,
) -> Seq<JsonView>
    decreases roots.len(),
{
    if roots.len() == 0 {
        Seq::empty()
    } else {
        let before = definition_rows(led, files, roots.drop_last());
        match last_def::last_def(files, roots.last()) {
            Some((i, j)) => before.push(
                definition_view(led, roots.last(), files[i].path@, files[i].defs@[j]),
            ),
            None => before,
        }
    }
}

/// The rows of the definitions of names.
fn definitions_for(led: &Ledger, files: &Vec<FileIndex>, roots: &Vec<String>) -> (r: Vec<Json>)
    ensures
        json::item_views(r@) == definition_rows(*led, files@, text::views(roots@)),
{
    let defs = defs_by_name(files);
    let ghost all = text::views(roots@);
    let mut out: Vec<Json> = Vec::new();
    let mut i: usize = 0;
    assert(json::item_views(out@) =~= definition_rows(*led, files@, all.take(0)));
    while i < roots.len()
        invariant
            i <= roots@.len(),
            all == text::views(roots@),
            last_def::has_last(defs, files@),
            json::item_views(out@) == definition_rows(*led, files@, all.take(i as int)),
        decreases roots@.len() - i,
    {
        proof {
            text::lemma_take_step(all, i as int);
            assert(last_def::pair_at(defs, all[i as int]) == last_def::last_def(
                files@,
                all[i as int],
            ));
            last_def::lemma_last_def(files@, all[i as int]);
        }
        match defs.get(&roots[i]) {
            Some(at) => {
                let f = &files[at.0];
                let ghost seen = json::item_views(out@);
                let row = definition_row(led, roots[i].as_str(), f.path.as_str(), &f.defs[at.1]);
                out.push(row);
                assert(json::item_views(out@) =~= seen.push(row@));
            },
            None => {},
        }
        i = i + 1;
    }
    proof {
        text::lemma_take_all(all);
    }
    out
}

/// What the description of a symbol warns of.
pub open spec fn describe_warnings(symbol: Seq<char>, roots: nat) -> Seq<Seq<char>> {
    let footer =
        "static over-approximation: callers/callees/tests reachable only via dynamic/attribute dispatch are not shown"@;
    if roots == 0 {
        seq!["no function or class named `"@ + symbol + "` found"@]
    } else if roots > 1 {
        seq![
            "`"@ + symbol + "` is ambiguous — "@ + text::decimal(roots)
                + " defs match; callers/callees/tests are the union over all of them (qualify the name to disambiguate)"@,
            footer,
        ]
    } else {
        seq![footer]
    }
}

/// The description of a symbol.
pub open spec fn describe_view(
    led: Ledger,
    files: Seq<FileIndex>,
    symbol: Seq<char>,
    roots: Seq<Seq<char>>,
    ahead: Seq<NodeView>,
    behind: Seq<NodeView>,
) -> EnvelopeView {
    let classes = tests_map::test_class_set(files);
    let callers = neighbour_rows(Role::Caller, behind, classes);
    let callees = neighbour_rows(Role::Callee, ahead, classes);
    let tests = neighbour_rows(Role::Test, behind, classes);
    EnvelopeView::of(
        JsonView::object().with("kind"@, JsonView::Str("describe"@)).with(
            "target"@,
            JsonView::Str(symbol),
        ).with("roots"@, json::texts(roots)),
        definition_rows(led, files, roots) + callers + callees + tests,
    ).summarized(
        if roots.len() == 0 {
            "no function or class named `"@ + symbol + "` found"@
        } else {
            "describe `"@ + symbol + "`: "@ + rows::counted(roots.len(), "def"@) + ", "@ + (
            text::decimal(callers.len()) + " immediate "@ + text::plural_of(
                callers.len(),
                "caller"@,
            ) + ", "@ + (rows::counted(callees.len(), "callee"@) + ", "@ + text::decimal(
                tests.len(),
            ) + " reaching "@ + text::plural_of(tests.len(), "test"@)))
        },
    ).warned(describe_warnings(symbol, roots.len()))
}

/// The description of a symbol, from what it reaches in one step and from all that
/// reaches it.
pub fn describe_report(
    led: &Ledger,
    files: &Vec<FileIndex>,
    symbol: &str,
    ahead: &Closure,
    behind: &Closure,
) -> (r: Envelope)
    ensures
        r@ == describe_view(
            *led,
            files@,
            symbol@,
            text::views(ahead.roots@),
            sort::each(ahead.nodes@),
            sort::each(behind.nodes@),
        ),
{
    let classes = test_class_fqns(files);
    let roots = &ahead.roots;
    assert(text::views(roots@).len() == roots@.len());
    let mut results = definitions_for(led, files, roots);
    let callers = push_neighbours(&mut results, Role::Caller, &behind.nodes, &classes);
    let callees = push_neighbours(&mut results, Role::Callee, &ahead.nodes, &classes);
    let tests = push_neighbours(&mut results, Role::Test, &behind.nodes, &classes);
    let mut warnings: Vec<String> = Vec::new();
    let summary = if roots.len() == 0 {
        let missing = cat3("no function or class named `", symbol, "` found");
        warnings.push(missing.clone());
        missing
    } else {
        if roots.len() > 1 {
            let n = count_text(roots.len());
            warnings.push(
                cat5(
                    "`",
                    symbol,
                    "` is ambiguous — ",
                    n.as_str(),
                    " defs match; callers/callees/tests are the union over all of them (qualify the name to disambiguate)",
                ),
            );
        }
        warnings.push(
            "static over-approximation: callers/callees/tests reachable only via dynamic/attribute dispatch are not shown".to_owned(),
        );
        let defs = count_of(roots.len(), "def");
        let a = count_text(callers);
        let a_word = text::plural(callers, "caller");
        let b = count_of(callees, "callee");
        let c = count_text(tests);
        let c_word = text::plural(tests, "test");
        let head = cat5("describe `", symbol, "`: ", defs.as_str(), ", ");
        let mid = cat4(a.as_str(), " immediate ", a_word.as_str(), ", ");
        let tail = cat5(b.as_str(), ", ", c.as_str(), " reaching ", c_word.as_str());
        let rest = cat(mid.as_str(), tail.as_str());
        cat(head.as_str(), rest.as_str())
    };
    assert(text::views(warnings@) =~= describe_warnings(symbol@, roots@.len()));
    let query = Json::object().with("kind", Json::text("describe")).with(
        "target",
        Json::text(symbol),
    ).with("roots", Json::texts(roots));
    Envelope::new(query, results).with_summary(summary).with_warnings(warnings)
}

/// All about `symbol`.
pub fn query<T: CallGraphTy>(graph: &CallGraph<T>, symbol: &str, led: &Ledger) -> (r: Envelope)
    ensures
        exists|ahead: Seq<NodeView>, behind: Seq<NodeView>|
            #![trigger callgraph::is_closure(graph.files(), graph.answers(), Direction::Forward, symbol@, Some(1usize), ahead), callgraph::is_closure(graph.files(), graph.answers(), Direction::Reverse, symbol@, None, behind)]
            {
                &&& callgraph::is_closure(
                    graph.files(),
                    graph.answers(),
                    Direction::Forward,
                    symbol@,
                    Some(1usize),
                    ahead,
                )
                &&& callgraph::is_closure(
                    graph.files(),
                    graph.answers(),
                    Direction::Reverse,
                    symbol@,
                    None,
                    behind,
                )
                &&& r@ == describe_view(
                    *led,
                    graph.files(),
                    symbol@,
                    callgraph::roots_named(graph.files(), symbol@),
                    ahead,
                    behind,
                )
            },
{
    let ahead = graph.closure(symbol, Direction::Forward, Some(1));
    let behind = graph.closure(symbol, Direction::Reverse, None);
    describe_report(led, graph.index().0, symbol, &ahead, &behind)
}

} // verus!
