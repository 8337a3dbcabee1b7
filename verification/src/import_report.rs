//! The report on the import graph.
use crate::imports::{normalize_query, Edge, EdgeView, Graph};
use crate::imports;
use crate::json::{Json, JsonView};
use crate::json;
use crate::model::FileIndex;
use crate::output::{Envelope, EnvelopeView};
use crate::rows::{arrange, count_of, loc_str, one_text, Entry, EntryView};
use crate::rows;
use crate::sort;
use crate::text::{cat, cat3, cat4, copy_strings, count_text, join_with, plural, same};
use crate::text;
use vstd::prelude::*;

verus! {

/// Whether a graph is the import graph of the files.
pub open spec fn graph_of(g: Graph, files: Seq<FileIndex>) -> bool {
    g.modules() == imports::modules_of(files) && imports::edge_views(g.edges@)
        == imports::all_edges(files, imports::modules_of(files).dom())
}

/// Which edges to show.
pub enum Shown {
    /// Those that import a module.
    Into(Seq<char>),
    /// Those of the imports of a module.
    From(Seq<char>),
    /// All of them.
    All,
}

/// Where an edge stands.
pub open spec fn edge_loc(e: EdgeView) -> Seq<char> {
    rows::place(e.importer_file, e.pos.line, e.pos.col)
}

/// The mark of an edge that leaves the project.
pub open spec fn edge_tag(e: EdgeView) -> Seq<char> {
    if e.internal {
        ""@
    } else {
        " (ext)"@
    }
}

/// Whether to show an edge.
pub open spec fn shows(shown: Shown, e: EdgeView) -> bool {
    match shown {
        Shown::Into(m) => e.target == m,
        Shown::From(m) => e.importer == m,
        Shown::All => true,
    }
}

/// The row of an edge, with its place in the order.
pub open spec fn edge_entry(shown: Shown, e: EdgeView) -> EntryView {
    let loc = edge_loc(e);
    let base = JsonView::object().with("loc"@, JsonView::Str(loc));
    match shown {
        Shown::Into(_) => EntryView {
            rank: 0,
            first: loc,
            second: ""@,
            row: base.with("label"@, JsonView::Str("imported by "@ + e.importer)).with(
                "cols"@,
                json::texts(seq![e.importer]),
            ),
        },
        Shown::From(_) => EntryView {
            rank: 0,
            first: e.target + loc,
            second: ""@,
            row: base.with("label"@, JsonView::Str("imports "@ + e.target + edge_tag(e))).with(
                "group"@,
                JsonView::Str(
                    if e.internal {
                        "internal"@
                    } else {
                        "external"@
                    },
                ),
            ).with("cols"@, json::texts(seq![e.target])),
        },
        Shown::All => EntryView {
            rank: 0,
            first: e.importer + loc,
            second: ""@,
            row: base.with(
                "label"@,
                JsonView::Str(e.importer + " → "@ + e.target + edge_tag(e)),
            ).with("group"@, JsonView::Str(e.importer)).with(
                "cols"@,
                json::texts(seq!["→ "@ + e.target + edge_tag(e)]),
            ),
        },
    }
}

/// The rows of the edges to show.
pub open spec fn edge_entries(shown: Shown, edges: Seq<EdgeView>) -> Seq<EntryView>
    decreases edges.len(),
{
    if edges.len() == 0 {
        Seq::empty()
    } else if shows(shown, edges.last()) {
        edge_entries(shown, edges.drop_last()).push(edge_entry(shown, edges.last()))
    } else {
        edge_entries(shown, edges.drop_last())
    }
}

/// The module that an argument names in a graph.
pub open spec fn module_asked(g: Graph, arg: Seq<char>) -> Seq<char> {
    imports::canonical(imports::query_module(arg), g.modules().dom())
}

/// Which edges are asked for.
pub open spec fn edges_asked(g: Graph, module: Option<Seq<char>>, reverse: bool) -> Shown {
    match module {
        Some(arg) => if reverse {
            Shown::Into(module_asked(g, arg))
        } else {
            Shown::From(module_asked(g, arg))
        },
        None => Shown::All,
    }
}

/// What the report on edges was asked.
pub open spec fn edges_query(g: Graph, module: Option<Seq<char>>, reverse: bool) -> JsonView {
    let mode = match edges_asked(g, module, reverse) {
        Shown::Into(_) => "reverse"@,
        Shown::From(_) => "forward"@,
        Shown::All => "all"@,
    };
    let base = JsonView::object().with("kind"@, JsonView::Str("imports"@)).with(
        "mode"@,
        JsonView::Str(mode),
    );
    match module {
        Some(arg) => base.with("target"@, JsonView::Str(module_asked(g, arg))).with(
            "found"@,
            JsonView::Bool(g.has_module(module_asked(g, arg))),
        ),
        None => base.with("target"@, JsonView::Null),
    }
}

/// What the report on `n` edges says first.
pub open spec fn edges_summary(
    g: Graph,
    module: Option<Seq<char>>,
    reverse: bool,
    n: nat,
) -> Seq<char> {
    match module {
        Some(arg) => {
            let m = module_asked(g, arg);
            if !g.has_module(m) {
                "module `"@ + m + "` not found in project"@
            } else if reverse {
                rows::counted(n, "importer"@) + " of `"@ + m + "`"@
            } else {
                "`"@ + m + "` imports "@ + rows::counted(n, "module"@)
            }
        },
        None => text::decimal(n) + " import "@ + text::plural_of(n, "edge"@),
    }
}

/// The report on edges.
pub open spec fn edges_view(g: Graph, module: Option<Seq<char>>, reverse: bool) -> EnvelopeView {
    let entries = edge_entries(
        edges_asked(g, module, reverse),
        imports::edge_views(g.edges@),
    );
    EnvelopeView::of(edges_query(g, module, reverse), rows::arranged(entries)).summarized(
        edges_summary(g, module, reverse, entries.len()),
    )
}

/// A cycle as a closed path.
pub open spec fn closed_path(c: Seq<Seq<char>>) -> Seq<char> {
    text::join(c.push(c[0]), " → "@)
}

/// The row of a cycle.
pub open spec fn cycle_row(g: Graph, c: Seq<Seq<char>>) -> JsonView {
    JsonView::object().with(
        "loc"@,
        JsonView::Str(
            if g.modules().contains_key(c[0]) {
                g.modules()[c[0]]@ + ":1:1"@
            } else {
                c[0]
            },
        ),
    ).with("label"@, JsonView::Str("cycle: "@ + closed_path(c))).with(
        "cols"@,
        json::texts(seq![closed_path(c)]),
    )
}

/// The rows of cycles.
pub open spec fn cycle_rows(g: Graph, cs: Seq<Seq<Seq<char>>>) -> Seq<JsonView> {
    Seq::new(cs.len(), |i: int| cycle_row(g, cs[i]))
}

/// The report on cycles.
pub open spec fn cycles_view(g: Graph, cs: Seq<Seq<Seq<char>>>) -> EnvelopeView {
    EnvelopeView::of(
        JsonView::object().with("kind"@, JsonView::Str("imports"@)).with(
            "mode"@,
            JsonView::Str("cycles"@),
        ).with("target"@, JsonView::Null),
        cycle_rows(g, cs),
    ).summarized(text::decimal(cs.len()) + " import "@ + text::plural_of(cs.len(), "cycle"@))
}

/// The row of a cycle.
fn cycle_json(g: &Graph, c: &Vec<String>) -> (r: Json)
    requires
        c@.len() > 0,
    ensures
        r@ == cycle_row(*g, text::views(c@)),
{
    let ghost names = text::views(c@);
    assert(names[0] == c@[0]@);
    let loc = match g.file_of(c[0].as_str()) {
        Some(f) => cat(f, ":1:1"),
        None => c[0].clone(),
    };
    let mut path = copy_strings(c);
    path.push(c[0].clone());
    assert(text::views(path@) =~= names.push(names[0]));
    let shown = join_with(&path, " → ");
    let label = cat("cycle: ", shown.as_str());
    Json::object().with("loc", Json::Str(loc)).with("label", Json::Str(label)).with(
        "cols",
        one_text(shown.as_str()),
    )
}

/// The report on cycles.
fn report_cycles(g: &Graph) -> (r: Envelope)
    ensures
        exists|cs: Seq<Seq<Seq<char>>>| #[trigger] g.cycles_are(cs) && r@ == cycles_view(*g, cs),
{
    let cs = g.cycles();
    let ghost lists = imports::lists_of(cs@);
    let ghost all = cycle_rows(*g, lists);
    let mut results: Vec<Json> = Vec::new();
    let mut i: usize = 0;
    while i < cs.len()
        invariant
            i <= cs@.len(),
            lists == imports::lists_of(cs@),
            g.cycles_are(lists),
            all == cycle_rows(*g, lists),
            json::item_views(results@) == all.take(i as int),
        decreases cs@.len() - i,
    {
        proof {
            imports::law_reported_cycles_are_cycles(*g, lists, i as int);
            assert(lists[i as int] == text::views(cs@[i as int]@));
            assert(text::views(cs@[i as int]@).len() == cs@[i as int]@.len());
        }
        let ghost seen = results@;
        results.push(cycle_json(g, &cs[i]));
        proof {
            assert(json::item_views(results@) =~= json::item_views(seen).push(all[i as int]));
            assert(all.take(i + 1) =~= all.take(i as int).push(all[i as int]));
        }
        i = i + 1;
    }
    assert(all.take(all.len() as int) =~= all);
    let n = count_text(cs.len());
    let word = plural(cs.len(), "cycle");
    let summary = cat3(n.as_str(), " import ", word.as_str());
    let query = Json::object().with("kind", Json::text("imports")).with(
        "mode",
        Json::text("cycles"),
    ).with("target", Json::Null);
    let r = Envelope::new(query, results).with_summary(summary);
    assert(r@ == cycles_view(*g, lists));
    r
}

/// Which edges to show.
enum Pick<'a> {
    Into(&'a str),
    From(&'a str),
    All,
}

/// Which edges to show.
spec fn shown_by(p: Pick) -> Shown {
    match p {
        Pick::Into(m) => Shown::Into(m@),
        Pick::From(m) => Shown::From(m@),
        Pick::All => Shown::All,
    }
}

/// The row of an edge, where it is to show.
fn edge_json(pick: &Pick, e: &Edge) -> (r: Option<Entry>)
    ensures
        match r {
            Some(x) => shows(shown_by(*pick), e@) && x@ == edge_entry(shown_by(*pick), e@),
            None => !shows(shown_by(*pick), e@),
        },
{
    let show = match pick {
        Pick::Into(m) => same(e.target.as_str(), m),
        Pick::From(m) => same(e.importer.as_str(), m),
        Pick::All => true,
    };
    if !show {
        return None;
    }
    let loc = loc_str(e.importer_file.as_str(), e.pos);
    let tag = if e.internal {
        ""
    } else {
        " (ext)"
    };
    let base = Json::object().with("loc", Json::text(loc.as_str()));
    let (first, row) = match pick {
        Pick::Into(_) => {
            let label = cat("imported by ", e.importer.as_str());
            let row = base.with("label", Json::Str(label)).with(
                "cols",
                one_text(e.importer.as_str()),
            );
            (loc, row)
        },
        Pick::From(_) => {
            let label = cat3("imports ", e.target.as_str(), tag);
            let group = if e.internal {
                "internal"
            } else {
                "external"
            };
            let row = base.with("label", Json::Str(label)).with("group", Json::text(group)).with(
                "cols",
                one_text(e.target.as_str()),
            );
            (cat(e.target.as_str(), loc.as_str()), row)
        },
        Pick::All => {
            let label = cat4(e.importer.as_str(), " → ", e.target.as_str(), tag);
            let shown = cat3("→ ", e.target.as_str(), tag);
            let row = base.with("label", Json::Str(label)).with(
                "group",
                Json::text(e.importer.as_str()),
            ).with("cols", one_text(shown.as_str()));
            (cat(e.importer.as_str(), loc.as_str()), row)
        },
    };
    Some(Entry { rank: 0, first, second: "".to_owned(), row })
}

/// The rows of the edges to show.
fn picked(g: &Graph, pick: Pick) -> (r: Vec<Entry>)
    ensures
        sort::each(r@) == edge_entries(shown_by(pick), imports::edge_views(g.edges@)),
{
    let ghost all = imports::edge_views(g.edges@);
    let ghost shown = shown_by(pick);
    let mut out: Vec<Entry> = Vec::new();
    let mut i: usize = 0;
    assert(sort::each(out@) =~= edge_entries(shown, all.take(0)));
    while i < g.edges.len()
        invariant
            i <= g.edges@.len(),
            all == imports::edge_views(g.edges@),
            shown == shown_by(pick),
            sort::each(out@) == edge_entries(shown, all.take(i as int)),
        decreases g.edges@.len() - i,
    {
        proof {
            text::lemma_take_step(all, i as int);
            assert(all[i as int] == g.edges@[i as int]@);
        }
        match edge_json(&pick, &g.edges[i]) {
            Some(x) => {
                let ghost held = out@;
                out.push(x);
                proof {
                    sort::lemma_each_push(held, x);
                }
            },
            None => {},
        }
        i = i + 1;
    }
    proof {
        text::lemma_take_all(all);
    }
    out
}

/// The report on edges.
fn report_edges(g: &Graph, module: Option<&str>, reverse: bool) -> (r: Envelope)
    ensures
        r@ == edges_view(
            *g,
            match module {
                Some(m) => Some(m@),
                None => None,
            },
            reverse,
        ),
{
    match module {
        Some(arg) => {
            let asked = normalize_query(arg);
            let m = g.resolve_module(asked.as_str());
            let known = g.knows(m.as_str());
            let mode = if reverse {
                "reverse"
            } else {
                "forward"
            };
            let entries = if reverse {
                picked(g, Pick::Into(m.as_str()))
            } else {
                picked(g, Pick::From(m.as_str()))
            };
            assert(sort::each(entries@).len() == entries@.len());
            let summary = if !known {
                cat3("module `", m.as_str(), "` not found in project")
            } else if reverse {
                let n = count_of(entries.len(), "importer");
                cat4(n.as_str(), " of `", m.as_str(), "`")
            } else {
                let n = count_of(entries.len(), "module");
                cat4("`", m.as_str(), "` imports ", n.as_str())
            };
            let query = Json::object().with("kind", Json::text("imports")).with(
                "mode",
                Json::text(mode),
            ).with("target", Json::text(m.as_str())).with("found", Json::Bool(known));
            Envelope::new(query, arrange(entries)).with_summary(summary)
        },
        None => {
            let entries = picked(g, Pick::All);
            assert(sort::each(entries@).len() == entries@.len());
            let n = count_text(entries.len());
            let word = plural(entries.len(), "edge");
            let summary = cat3(n.as_str(), " import ", word.as_str());
            let query = Json::object().with("kind", Json::text("imports")).with(
                "mode",
                Json::text("all"),
            ).with("target", Json::Null);
            Envelope::new(query, arrange(entries)).with_summary(summary)
        },
    }
}

/// The imports of a project: its cycles, what imports a module, what a module
/// imports, or every edge.
pub fn query_imports(files: &Vec<FileIndex>, module: Option<&str>, reverse: bool, cycles: bool) -> (r:
    Envelope)
    ensures
        exists|g: Graph| #[trigger]
            graph_of(g, files@) && if cycles {
                exists|cs: Seq<Seq<Seq<char>>>| #[trigger]
                    g.cycles_are(cs) && r@ == cycles_view(g, cs)
            } else {
                r@ == edges_view(
                    g,
                    match module {
                        Some(m) => Some(m@),
                        None => None,
                    },
                    reverse,
                )
            },
{
    let g = Graph::build(files);
    assert(graph_of(g, files@));
    if cycles {
        report_cycles(&g)
    } else {
        report_edges(&g, module, reverse)
    }
}

/// The row of an edge that is shown is among the rows, and each row is that of an edge
/// that is shown.
proof fn lemma_edge_entries(shown: Shown, edges: Seq<EdgeView>)
    ensures
        forall|k: int|
            0 <= k < edges.len() && shows(shown, edges[k]) ==> edge_entries(shown, edges).contains(
                edge_entry(shown, #[trigger] edges[k]),
            ),
        forall|i: int|
            0 <= i < edge_entries(shown, edges).len() ==> exists|k: int|
                0 <= k < edges.len() && shows(shown, #[trigger] edges[k]) && edge_entry(
                    shown,
                    edges[k],
                ) == #[trigger] edge_entries(shown, edges)[i],
    decreases edges.len(),
{
    if edges.len() > 0 {
        let less = edges.drop_last();
        let before = edge_entries(shown, less);
        let now = edge_entries(shown, edges);
        lemma_edge_entries(shown, less);
        assert forall|k: int| 0 <= k < edges.len() && shows(shown, edges[k]) implies now.contains(
            edge_entry(shown, #[trigger] edges[k]),
        ) by {
            if k < less.len() {
                assert(less[k] == edges[k]);
                assert(before.contains(edge_entry(shown, less[k])));
                let j = choose|j: int|
                    0 <= j < before.len() && before[j] == edge_entry(shown, less[k]);
                assert(now[j] == before[j]);
            } else {
                assert(now[now.len() - 1] == edge_entry(shown, edges[k]));
            }
        }
        assert forall|i: int| 0 <= i < now.len() implies exists|k: int|
            0 <= k < edges.len() && shows(shown, #[trigger] edges[k]) && edge_entry(shown, edges[k])
                == #[trigger] now[i] by {
            if i < before.len() {
                assert(now[i] == before[i]);
                let k = choose|k: int|
                    0 <= k < less.len() && shows(shown, #[trigger] less[k]) && edge_entry(
                        shown,
                        less[k],
                    ) == before[i];
                assert(edges[k] == less[k]);
            } else {
                assert(edge_entry(shown, edges[edges.len() - 1]) == now[i]);
            }
        }
    }
}

/// What a module imports and who imports it are two views of the same edges: each edge
/// has a row in the view of what its importer imports and in the view of who imports
/// its target, and neither view has other rows.
pub proof fn law_forward_and_reverse_mirror(edges: Seq<EdgeView>, m: Seq<char>)
    ensures
        forall|k: int|
            #![trigger edges[k]]
            0 <= k < edges.len() ==> edge_entries(
                Shown::From(edges[k].importer),
                edges,
            ).contains(edge_entry(Shown::From(edges[k].importer), edges[k])) && edge_entries(
                Shown::Into(edges[k].target),
                edges,
            ).contains(edge_entry(Shown::Into(edges[k].target), edges[k])),
        forall|i: int|
            0 <= i < edge_entries(Shown::From(m), edges).len() ==> exists|k: int|
                0 <= k < edges.len() && (#[trigger] edges[k]).importer == m && edge_entry(
                    Shown::From(m),
                    edges[k],
                ) == #[trigger] edge_entries(Shown::From(m), edges)[i],
        forall|i: int|
            0 <= i < edge_entries(Shown::Into(m), edges).len() ==> exists|k: int|
                0 <= k < edges.len() && (#[trigger] edges[k]).target == m && edge_entry(
                    Shown::Into(m),
                    edges[k],
                ) == #[trigger] edge_entries(Shown::Into(m), edges)[i],
{
    assert forall|k: int|
        #![trigger edges[k]]
        0 <= k < edges.len() implies edge_entries(Shown::From(edges[k].importer), edges).contains(
        edge_entry(Shown::From(edges[k].importer), edges[k]),
    ) && edge_entries(Shown::Into(edges[k].target), edges).contains(
        edge_entry(Shown::Into(edges[k].target), edges[k]),
    ) by {
        lemma_edge_entries(Shown::From(edges[k].importer), edges);
        lemma_edge_entries(Shown::Into(edges[k].target), edges);
    }
    lemma_edge_entries(Shown::From(m), edges);
    lemma_edge_entries(Shown::Into(m), edges);
    assert forall|i: int| 0 <= i < edge_entries(Shown::From(m), edges).len() implies exists|k: int|
        0 <= k < edges.len() && (#[trigger] edges[k]).importer == m && edge_entry(
            Shown::From(m),
            edges[k],
        ) == #[trigger] edge_entries(Shown::From(m), edges)[i] by {
        let k = choose|k: int|
            0 <= k < edges.len() && shows(Shown::From(m), #[trigger] edges[k]) && edge_entry(
                Shown::From(m),
                edges[k],
            ) == edge_entries(Shown::From(m), edges)[i];
        assert(edges[k].importer == m);
    }
    assert forall|i: int| 0 <= i < edge_entries(Shown::Into(m), edges).len() implies exists|k: int|
        0 <= k < edges.len() && (#[trigger] edges[k]).target == m && edge_entry(
            Shown::Into(m),
            edges[k],
        ) == #[trigger] edge_entries(Shown::Into(m), edges)[i] by {
        let k = choose|k: int|
            0 <= k < edges.len() && shows(Shown::Into(m), #[trigger] edges[k]) && edge_entry(
                Shown::Into(m),
                edges[k],
            ) == edge_entries(Shown::Into(m), edges)[i];
        assert(edges[k].target == m);
    }
}

} // verus!
