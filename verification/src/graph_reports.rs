//! Reports on what reaches a symbol, and on what it reaches.
use crate::callgraph::{CallGraph, CallGraphTy, Closure, Direction, GraphNode, NodeView};
use crate::callgraph;
use crate::deadcode::{dispatch_caveat, DispatchKind};
use crate::deadcode;
use crate::hierarchy::Hierarchy;
use crate::json::{Json, JsonView};
use crate::json;
use crate::output::{Envelope, EnvelopeView};
use crate::rows::{place_text, two_texts};
use crate::rows;
use crate::sort;
use crate::table::Table;
use crate::tests_map::{is_test_node, summary, test_class_fqns};
use crate::tests_map;
use crate::text::{cat, cat3, cat4, cat5, count_text, leaf_of};
use crate::text;
use vstd::prelude::*;

verus! {

/// The columns of a node: its name, and the short name that it was reached
/// through.
pub open spec fn node_cols(n: NodeView) -> JsonView {
    json::texts(seq![n.fqn, "via "@ + text::leaf_name(n.via)])
}

/// The section of a node: one for each number of steps.
pub open spec fn ring(n: NodeView) -> Seq<char> {
    "depth "@ + text::decimal(n.depth)
}

/// How a node was reached, for a label.
pub open spec fn reached_by(n: NodeView) -> Seq<char> {
    " (depth "@ + text::decimal(n.depth) + ", via "@ + n.via + ")"@
}

/// The row of a node.
pub open spec fn node_row(n: NodeView) -> JsonView {
    JsonView::object().with("loc"@, JsonView::Str(rows::place(n.path, n.line, n.col))).with(
        "label"@,
        JsonView::Str(n.kind + " "@ + n.fqn + reached_by(n)),
    ).with("fqn"@, JsonView::Str(n.fqn)).with("node_kind"@, JsonView::Str(n.kind)).with(
        "depth"@,
        JsonView::Num(n.depth),
    ).with("via"@, JsonView::Str(n.via)).with("group"@, JsonView::Str(ring(n))).with(
        "cols"@,
        node_cols(n),
    )
}

/// The rows of nodes.
pub open spec fn node_rows(nodes: Seq<NodeView>) -> Seq<JsonView> {
    Seq::new(nodes.len(), |i: int| node_row(nodes[i]))
}

/// The columns of a node.
fn cols_of(n: &GraphNode) -> (r: Json)
    ensures
        r@ == node_cols(n@),
{
    let short = leaf_of(n.via.as_str());
    let via = cat("via ", short.as_str());
    two_texts(n.fqn.as_str(), via.as_str())
}

/// The section of a node.
fn ring_of(n: &GraphNode) -> (r: String)
    ensures
        r@ == ring(n@),
{
    let d = count_text(n.depth);
    cat("depth ", d.as_str())
}

/// How a node was reached, for a label.
fn reached_text(n: &GraphNode) -> (r: String)
    ensures
        r@ == reached_by(n@),
{
    let d = count_text(n.depth);
    cat5(" (depth ", d.as_str(), ", via ", n.via.as_str(), ")")
}

/// The row of a node.
pub fn node_to_json(n: &GraphNode) -> (r: Json)
    ensures
        r@ == node_row(n@),
{
    let tail = reached_text(n);
    let label = cat4(n.kind, " ", n.fqn.as_str(), tail.as_str());
    Json::object().with("loc", Json::Str(place_text(n.path.as_str(), n.line, n.col))).with(
        "label",
        Json::Str(label),
    ).with("fqn", Json::text(n.fqn.as_str())).with("node_kind", Json::text(n.kind)).with(
        "depth",
        Json::count(n.depth),
    ).with("via", Json::text(n.via.as_str())).with("group", Json::Str(ring_of(n))).with(
        "cols",
        cols_of(n),
    )
}

/// The mark of a report that may miss callers.
pub open spec fn caveat_mark(c: Option<(Seq<char>, DispatchKind)>) -> JsonView {
    match c {
        Some(_) => JsonView::Str("framework-dispatch"@),
        None => JsonView::Null,
    }
}

/// The mark of a report that may miss callers.
fn mark_of(c: &Option<(String, DispatchKind)>) -> (r: Json)
    ensures
        r@ == caveat_mark(deadcode::caveat_view(*c)),
{
    match c {
        Some(_) => Json::text("framework-dispatch"),
        None => Json::Null,
    }
}

/// The start of a warning that callers may be missed.
pub open spec fn dispatched(c: (Seq<char>, DispatchKind)) -> Seq<char> {
    "`"@ + text::leaf_name(c.0) + "` is framework-dispatched ("@ + deadcode::reason_text(c.1)
        + ") — "@
}

/// The start of a warning that callers may be missed.
fn dispatched_text(name: &str, kind: &DispatchKind) -> (r: String)
    ensures
        r@ == dispatched((name@, *kind)),
{
    let short = leaf_of(name);
    cat5("`", short.as_str(), "` is framework-dispatched (", kind.reason(), ") — ")
}

/// What to warn of: that the symbol names nothing, or that callers may be missed.
pub open spec fn reach_warnings(
    symbol: Seq<char>,
    roots: Seq<Seq<char>>,
    caveat: Option<(Seq<char>, DispatchKind)>,
    missed: Seq<char>,
) -> Seq<Seq<char>> {
    if roots.len() == 0 {
        seq!["no function or class named `"@ + symbol + "` found"@]
    } else {
        match caveat {
            Some(c) => seq![dispatched(c) + missed],
            None => Seq::empty(),
        }
    }
}

/// What to warn of.
fn warnings_for(
    symbol: &str,
    roots: &Vec<String>,
    caveat: &Option<(String, DispatchKind)>,
    missed: &str,
) -> (r: Vec<String>)
    ensures
        text::views(r@) == reach_warnings(
            symbol@,
            text::views(roots@),
            deadcode::caveat_view(*caveat),
            missed@,
        ),
{
    let mut out: Vec<String> = Vec::new();
    assert(text::views(roots@).len() == roots@.len());
    if roots.len() == 0 {
        out.push(cat3("no function or class named `", symbol, "` found"));
    } else {
        match caveat {
            Some((name, kind)) => {
                let head = dispatched_text(name.as_str(), kind);
                out.push(cat(head.as_str(), missed));
            },
            None => {},
        }
    }
    proof {
        assert(text::views(out@) =~= reach_warnings(
            symbol@,
            text::views(roots@),
            deadcode::caveat_view(*caveat),
            missed@,
        ));
    }
    out
}

/// The report of what a symbol reaches, or of what reaches it.
pub open spec fn graph_view(
    symbol: Seq<char>,
    reverse: bool,
    roots: Seq<Seq<char>>,
    nodes: Seq<NodeView>,
    caveat: Option<(Seq<char>, DispatchKind)>,
) -> EnvelopeView {
    let n = rows::counted(nodes.len(), "node"@);
    EnvelopeView::of(
        JsonView::object().with("kind"@, JsonView::Str("graph"@)).with(
            "mode"@,
            JsonView::Str(
                if reverse {
                    "reverse"@
                } else {
                    "forward"@
                },
            ),
        ).with("target"@, JsonView::Str(symbol)).with("roots"@, json::texts(roots)).with(
            "exhaustive"@,
            JsonView::Bool(!reverse || (roots.len() > 0 && caveat is None)),
        ).with("caveat"@, caveat_mark(caveat)),
        node_rows(nodes),
    ).summarized(
        if reverse {
            n + " statically reach `"@ + symbol + "`"@
        } else {
            n + " reachable from `"@ + symbol + "`"@
        },
    ).warned(
        reach_warnings(
            symbol,
            roots,
            caveat,
            "callers that reach it only through that dispatch aren't followed, so a 0 here is not \"unreached\"."@,
        ),
    )
}

/// The rows of nodes.
fn rows_for(nodes: &Vec<GraphNode>) -> (r: Vec<Json>)
    ensures
        json::item_views(r@) == node_rows(sort::each(nodes@)),
{
    let ghost all = node_rows(sort::each(nodes@));
    let mut out: Vec<Json> = Vec::new();
    let mut i: usize = 0;
    while i < nodes.len()
        invariant
            i <= nodes@.len(),
            all == node_rows(sort::each(nodes@)),
            json::item_views(out@) == all.take(i as int),
        decreases nodes@.len() - i,
    {
        let ghost seen = out@;
        out.push(node_to_json(&nodes[i]));
        assert(sort::each(nodes@)[i as int] == nodes@[i as int]@);
        assert(json::item_views(out@) =~= json::item_views(seen).push(all[i as int]));
        assert(all.take(i + 1) =~= all.take(i as int).push(all[i as int]));
        i = i + 1;
    }
    assert(all.take(all.len() as int) =~= all);
    out
}

/// The report of what a symbol reaches, or of what reaches it.
pub fn graph_report(
    symbol: &str,
    reverse: bool,
    closure: &Closure,
    caveat: &Option<(String, DispatchKind)>,
) -> (r: Envelope)
    ensures
        r@ == graph_view(
            symbol@,
            reverse,
            text::views(closure.roots@),
            sort::each(closure.nodes@),
            deadcode::caveat_view(*caveat),
        ),
{
    let results = rows_for(&closure.nodes);
    assert(sort::each(closure.nodes@).len() == closure.nodes@.len());
    assert(text::views(closure.roots@).len() == closure.roots@.len());
    let n = rows::count_of(closure.nodes.len(), "node");
    let says = if reverse {
        " statically reach `"
    } else {
        " reachable from `"
    };
    let summary = cat4(n.as_str(), says, symbol, "`");
    let mode = if reverse {
        "reverse"
    } else {
        "forward"
    };
    let exhaustive = !reverse || (closure.roots.len() > 0 && caveat.is_none());
    let query = Json::object().with("kind", Json::text("graph")).with("mode", Json::text(mode)).with(
        "target",
        Json::text(symbol),
    ).with("roots", Json::texts(&closure.roots)).with("exhaustive", Json::Bool(exhaustive)).with(
        "caveat",
        mark_of(caveat),
    );
    let warnings = warnings_for(
        symbol,
        &closure.roots,
        caveat,
        "callers that reach it only through that dispatch aren't followed, so a 0 here is not \"unreached\".",
    );
    Envelope::new(query, results).with_summary(summary).with_warnings(warnings)
}

/// What is entered without a call, in the files of a call graph.
pub open spec fn entries_of<T: CallGraphTy>(
    graph: CallGraph<T>,
    console: Seq<Seq<char>>,
) -> deadcode::Entry {
    deadcode::Entry { files: graph.files(), answers: graph.answers(), console }
}

/// Why the callers of `roots` may not all show.
fn caveat_for<T: CallGraphTy>(
    graph: &CallGraph<T>,
    roots: &Vec<String>,
    console: &Vec<String>,
) -> (r: Option<(String, DispatchKind)>)
    ensures
        deadcode::caveat_view(r) == entries_of(*graph, text::views(console@)).caveat(
            text::views(roots@),
        ),
{
    assert(text::views(roots@).len() == roots@.len());
    if roots.len() == 0 {
        return None;
    }
    let files = graph.index().0;
    let hier = Hierarchy::build(files, graph);
    dispatch_caveat(roots, files, graph, &hier, console)
}

/// The direction of a walk.
pub open spec fn toward(reverse: bool) -> Direction {
    if reverse {
        Direction::Reverse
    } else {
        Direction::Forward
    }
}

/// What `symbol` reaches, or what reaches it, within `depth` steps. `console` are
/// the targets of the console scripts.
pub fn query_graph<T: CallGraphTy>(
    graph: &CallGraph<T>,
    symbol: &str,
    reverse: bool,
    depth: Option<usize>,
    console: &Vec<String>,
) -> (r: Envelope)
    ensures
        exists|nodes: Seq<NodeView>| #[trigger]
            callgraph::is_closure(
                graph.files(),
                graph.answers(),
                toward(reverse),
                symbol@,
                depth,
                nodes,
            ) && r@ == graph_view(
                symbol@,
                reverse,
                callgraph::roots_named(graph.files(), symbol@),
                nodes,
                if reverse {
                    entries_of(*graph, text::views(console@)).caveat(
                        callgraph::roots_named(graph.files(), symbol@),
                    )
                } else {
                    None
                },
            ),
{
    let dir = if reverse {
        Direction::Reverse
    } else {
        Direction::Forward
    };
    let closure = graph.closure(symbol, dir, depth);
    let caveat = if reverse {
        caveat_for(graph, &closure.roots, console)
    } else {
        None
    };
    graph_report(symbol, reverse, &closure, &caveat)
}

/// The row of a test that reaches a symbol.
pub open spec fn test_row(symbol: Seq<char>, n: NodeView) -> JsonView {
    JsonView::object().with("loc"@, JsonView::Str(rows::place(n.path, n.line, n.col))).with(
        "label"@,
        JsonView::Str(n.fqn + " reaches `"@ + symbol + "`"@ + reached_by(n)),
    ).with("fqn"@, JsonView::Str(n.fqn)).with("depth"@, JsonView::Num(n.depth)).with(
        "via"@,
        JsonView::Str(n.via),
    ).with("group"@, JsonView::Str(ring(n))).with("cols"@, node_cols(n))
}

/// The row of a test that reaches a symbol.
fn test_json(symbol: &str, n: &GraphNode) -> (r: Json)
    ensures
        r@ == test_row(symbol@, n@),
{
    let tail = reached_text(n);
    let label = cat5(n.fqn.as_str(), " reaches `", symbol, "`", tail.as_str());
    Json::object().with("loc", Json::Str(place_text(n.path.as_str(), n.line, n.col))).with(
        "label",
        Json::Str(label),
    ).with("fqn", Json::text(n.fqn.as_str())).with("depth", Json::count(n.depth)).with(
        "via",
        Json::text(n.via.as_str()),
    ).with("group", Json::Str(ring_of(n))).with("cols", cols_of(n))
}

/// The rows of the tests among nodes.
pub open spec fn test_rows(
    symbol: Seq<char>,
    nodes: Seq<NodeView>,
    classes: Set<Seq<char>>,
) -> Seq<JsonView>
    decreases nodes.len(),
{
    if nodes.len() == 0 {
        Seq::empty()
    } else if tests_map::test_node(nodes.last(), classes) {
        test_rows(symbol, nodes.drop_last(), classes).push(test_row(symbol, nodes.last()))
    } else {
        test_rows(symbol, nodes.drop_last(), classes)
    }
}

/// The report of the tests that reach a symbol.
pub open spec fn tests_view(
    symbol: Seq<char>,
    roots: Seq<Seq<char>>,
    nodes: Seq<NodeView>,
    classes: Set<Seq<char>>,
    caveat: Option<(Seq<char>, DispatchKind)>,
) -> EnvelopeView {
    let found = test_rows(symbol, nodes, classes);
    EnvelopeView::of(
        JsonView::object().with("kind"@, JsonView::Str("tests"@)).with(
            "target"@,
            JsonView::Str(symbol),
        ).with("roots"@, json::texts(roots)).with(
            "exhaustive"@,
            JsonView::Bool(roots.len() > 0 && caveat is None),
        ).with("caveat"@, caveat_mark(caveat)),
        found,
    ).summarized(tests_map::tests_summary(symbol, roots.len() == 0, found.len())).warned(
        reach_warnings(
            symbol,
            roots,
            caveat,
            "tests that reach it only through that dispatch aren't followed, so a 0 here is not \"untested\". Confirm runtime coverage with `pyq tests --base`."@,
        ),
    )
}

/// The report of the tests that reach a symbol, from what reaches it.
pub fn tests_report(
    symbol: &str,
    closure: &Closure,
    test_classes: &Table<String, ()>,
    caveat: &Option<(String, DispatchKind)>,
) -> (r: Envelope)
    ensures
        r@ == tests_view(
            symbol@,
            text::views(closure.roots@),
            sort::each(closure.nodes@),
            test_classes.keys().to_set(),
            deadcode::caveat_view(*caveat),
        ),
{
    let ghost nodes = sort::each(closure.nodes@);
    let ghost classes = test_classes.keys().to_set();
    let mut results: Vec<Json> = Vec::new();
    let mut i: usize = 0;
    assert(json::item_views(results@) =~= test_rows(symbol@, nodes.take(0), classes));
    while i < closure.nodes.len()
        invariant
            i <= closure.nodes@.len(),
            nodes == sort::each(closure.nodes@),
            classes == test_classes.keys().to_set(),
            json::item_views(results@) == test_rows(symbol@, nodes.take(i as int), classes),
        decreases closure.nodes@.len() - i,
    {
        proof {
            text::lemma_take_step(nodes, i as int);
            assert(nodes[i as int] == closure.nodes@[i as int]@);
        }
        let n = &closure.nodes[i];
        if is_test_node(n, test_classes) {
            let ghost seen = results@;
            results.push(test_json(symbol, n));
            assert(json::item_views(results@) =~= json::item_views(seen).push(test_row(symbol@, n@)));
        }
        i = i + 1;
    }
    proof {
        text::lemma_take_all(nodes);
    }
    assert(json::item_views(results@).len() == results@.len());
    assert(text::views(closure.roots@).len() == closure.roots@.len());
    let says = summary(symbol, closure.roots.len() == 0, results.len());
    let exhaustive = closure.roots.len() > 0 && caveat.is_none();
    let query = Json::object().with("kind", Json::text("tests")).with(
        "target",
        Json::text(symbol),
    ).with("roots", Json::texts(&closure.roots)).with("exhaustive", Json::Bool(exhaustive)).with(
        "caveat",
        mark_of(caveat),
    );
    let warnings = warnings_for(
        symbol,
        &closure.roots,
        caveat,
        "tests that reach it only through that dispatch aren't followed, so a 0 here is not \"untested\". Confirm runtime coverage with `pyq tests --base`.",
    );
    Envelope::new(query, results).with_summary(says).with_warnings(warnings)
}

/// The tests that reach `symbol`.
pub fn query_tests<T: CallGraphTy>(
    graph: &CallGraph<T>,
    symbol: &str,
    console: &Vec<String>,
) -> (r: Envelope)
    ensures
        exists|nodes: Seq<NodeView>| #[trigger]
            callgraph::is_closure(
                graph.files(),
                graph.answers(),
                Direction::Reverse,
                symbol@,
                None,
                nodes,
            ) && r@ == tests_view(
                symbol@,
                callgraph::roots_named(graph.files(), symbol@),
                nodes,
                tests_map::test_class_set(graph.files()),
                entries_of(*graph, text::views(console@)).caveat(
                    callgraph::roots_named(graph.files(), symbol@),
                ),
            ),
{
    let test_classes = test_class_fqns(graph.index().0);
    let closure = graph.closure(symbol, Direction::Reverse, None);
    let caveat = caveat_for(graph, &closure.roots, console);
    tests_report(symbol, &closure, &test_classes, &caveat)
}

} // verus!
