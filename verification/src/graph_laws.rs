//! What holds of direct calls, of the reports that show them, and of those on classes.
use crate::callgraph::{Answers, Direction, NeighborView, NodeView, Spot, Stop, SuperView};
use crate::callgraph;
use crate::closure_laws;
use crate::deadcode::DispatchKind;
use crate::describe::Role;
use crate::describe;
use crate::dynamic::Ledger;
use crate::entry_laws;
use crate::graph_reports;
use crate::hierarchy::Hierarchy;
use crate::hierarchy;
use crate::json::JsonView;
use crate::json;
use crate::last_def;
use crate::live_laws;
use crate::model::{Def, FileIndex};
use crate::model;
use crate::name_laws;
use crate::names;
use crate::rows;
use crate::structure_reports::Tie;
use crate::structure_reports;
use crate::tests_map;
use crate::text;
use vstd::prelude::*;

verus! {

proof fn lemma_taken(out: Seq<NeighborView>, nbs: Seq<NeighborView>, spot: Spot)
    ensures
        callgraph::has_spot(callgraph::taken(out, nbs), spot) <==> callgraph::has_spot(out, spot)
            || callgraph::has_spot(nbs, spot),
    decreases nbs.len(),
{
    let now = callgraph::taken(out, nbs);
    if nbs.len() > 0 {
        let less = nbs.drop_last();
        let before = callgraph::taken(out, less);
        lemma_taken(out, less, spot);
        lemma_has_push(less, nbs.last(), spot);
        assert(nbs =~= less.push(nbs.last()));
        lemma_has_push(before, nbs.last(), spot);
    } else if callgraph::has_spot(nbs, spot) {
        let i = choose|i: int| 0 <= i < nbs.len() && (#[trigger] nbs[i]).spot() == spot;
        assert(false);
    }
}

proof fn lemma_has_push(s: Seq<NeighborView>, x: NeighborView, spot: Spot)
    ensures
        callgraph::has_spot(s.push(x), spot) <==> callgraph::has_spot(s, spot) || x.spot() == spot,
{
    let t = s.push(x);
    if callgraph::has_spot(s, spot) {
        let i = choose|i: int| 0 <= i < s.len() && (#[trigger] s[i]).spot() == spot;
        assert(t[i].spot() == spot);
    }
    if x.spot() == spot {
        assert(t[s.len() as int].spot() == spot);
    }
    if callgraph::has_spot(t, spot) {
        let i = choose|i: int| 0 <= i < t.len() && (#[trigger] t[i]).spot() == spot;
        if i < s.len() {
            assert(s[i].spot() == spot);
        }
    }
}

proof fn lemma_swept(a: Answers, spot: Spot, places: Seq<Spot>, out: Seq<NeighborView>, at: Spot)
    ensures
        callgraph::has_spot(callgraph::swept(a, spot, places, out), at) <==> callgraph::has_spot(
            out,
            at,
        ) || exists|p: int|
            0 <= p < places.len() && means(a, #[trigger] places[p], spot) && callgraph::has_spot(
                (a.incoming)(places[p]),
                at,
            ),
    decreases places.len(),
{
    if places.len() > 0 {
        let less = places.drop_last();
        let before = callgraph::swept(a, spot, less, out);
        let o = places.last();
        lemma_swept(a, spot, less, out, at);
        lemma_taken(before, (a.incoming)(o), at);
        if exists|p: int|
            0 <= p < less.len() && means(a, #[trigger] less[p], spot) && callgraph::has_spot(
                (a.incoming)(less[p]),
                at,
            ) {
            let p = choose|p: int|
                0 <= p < less.len() && means(a, #[trigger] less[p], spot) && callgraph::has_spot(
                    (a.incoming)(less[p]),
                    at,
                );
            assert(means(a, places[p], spot));
        }
        if means(a, o, spot) && callgraph::has_spot((a.incoming)(o), at) {
            assert(means(a, places[places.len() - 1], spot));
        }
        assert forall|p: int|
            0 <= p < places.len() && means(a, #[trigger] places[p], spot) && callgraph::has_spot(
                (a.incoming)(places[p]),
                at,
            ) implies callgraph::has_spot(callgraph::swept(a, spot, places, out), at) by {
            if p < less.len() {
                assert(less[p] == places[p]);
            }
        }
    }
}

/// Whether an occurrence of a name, other than its definition, means the definition.
pub open spec fn means(a: Answers, o: Spot, spot: Spot) -> bool {
    o != spot && (a.resolve)(o) == Some(spot)
}

/// What a callable calls is next to it, and nothing else is.
pub proof fn law_calls_lead_on(files: Seq<FileIndex>, a: Answers, stop: Stop, x: NeighborView)
    ensures
        callgraph::next_to(files, a, Direction::Forward, stop).contains(x) <==> (a.outgoing)(
            stop.spot,
        ).contains(x),
{
}

proof fn lemma_import_spots(path: Seq<char>, defs: Seq<Def>, name: Seq<char>, j: int)
    requires
        0 <= j < defs.len(),
        defs[j].kind is Import,
        defs[j].name@ == name,
    ensures
        callgraph::import_spots(path, defs, name).contains((path, defs[j].offset)),
    decreases defs.len(),
{
    let less = callgraph::import_spots(path, defs.drop_last(), name);
    text::lemma_push_contains(less, (path, defs.last().offset));
    if j < defs.len() - 1 {
        assert(defs.drop_last()[j] == defs[j]);
        lemma_import_spots(path, defs.drop_last(), name, j);
    }
}

proof fn lemma_use_spots(path: Seq<char>, refs: Seq<model::Ref>, name: Seq<char>, j: int)
    requires
        0 <= j < refs.len(),
        refs[j].name@ == name,
    ensures
        callgraph::use_spots(path, refs, name).contains((path, refs[j].offset)),
    decreases refs.len(),
{
    let less = callgraph::use_spots(path, refs.drop_last(), name);
    text::lemma_push_contains(less, (path, refs.last().offset));
    if j < refs.len() - 1 {
        assert(refs.drop_last()[j] == refs[j]);
        lemma_use_spots(path, refs.drop_last(), name, j);
    }
}

/// Whether a file imports or uses a name at a place.
pub open spec fn occurs(f: FileIndex, name: Seq<char>, o: Spot) -> bool {
    ||| exists|j: int|
        0 <= j < f.defs@.len() && (#[trigger] f.defs@[j]).kind is Import && f.defs@[j].name@ == name
            && o == (f.path@, f.defs@[j].offset)
    ||| exists|j: int|
        0 <= j < f.refs@.len() && (#[trigger] f.refs@[j]).name@ == name && o == (
            f.path@,
            f.refs@[j].offset,
        )
}

proof fn lemma_occurrences(files: Seq<FileIndex>, name: Seq<char>, i: int, o: Spot)
    requires
        0 <= i < files.len(),
        occurs(files[i], name, o),
    ensures
        callgraph::occurrences(files, name).contains(o),
    decreases files.len(),
{
    let less = files.drop_last();
    let f = files.last();
    let a = callgraph::occurrences(less, name);
    let b = callgraph::import_spots(f.path@, f.defs@, name);
    let c = callgraph::use_spots(f.path@, f.refs@, name);
    if i < less.len() {
        assert(less[i] == files[i]);
        lemma_occurrences(less, name, i, o);
        let k = choose|k: int| 0 <= k < a.len() && a[k] == o;
        assert((a + b + c)[k] == o);
    } else if exists|j: int|
        0 <= j < f.defs@.len() && (#[trigger] f.defs@[j]).kind is Import && f.defs@[j].name@ == name
            && o == (f.path@, f.defs@[j].offset) {
        let j = choose|j: int|
            0 <= j < f.defs@.len() && (#[trigger] f.defs@[j]).kind is Import && f.defs@[j].name@
                == name && o == (f.path@, f.defs@[j].offset);
        lemma_import_spots(f.path@, f.defs@, name, j);
        let k = choose|k: int| 0 <= k < b.len() && b[k] == o;
        assert((a + b + c)[a.len() + k] == o);
    } else {
        let j = choose|j: int|
            0 <= j < f.refs@.len() && (#[trigger] f.refs@[j]).name@ == name && o == (
                f.path@,
                f.refs@[j].offset,
            );
        lemma_use_spots(f.path@, f.refs@, name, j);
        let k = choose|k: int| 0 <= k < c.len() && c[k] == o;
        assert((a + b + c)[a.len() + b.len() + k] == o);
    }
}

/// What is said to call a callable at its place is next to it the other way; so is what is said
/// to call it at any import or use of its name that means it.
pub proof fn law_callers_are_found(
    files: Seq<FileIndex>,
    a: Answers,
    stop: Stop,
    i: int,
    o: Spot,
    k: int,
)
    requires
        0 <= k < (a.incoming)(o).len(),
        o == stop.spot || (0 <= i < files.len() && occurs(files[i], text::leaf_name(stop.fqn), o)
            && (a.resolve)(o) == Some(stop.spot)),
    ensures
        callgraph::has_spot(
            callgraph::next_to(files, a, Direction::Reverse, stop),
            (a.incoming)(o)[k].spot(),
        ),
{
    let at = (a.incoming)(o)[k].spot();
    let places = callgraph::occurrences(files, text::leaf_name(stop.fqn));
    let first = callgraph::taken(Seq::empty(), (a.incoming)(stop.spot));
    assert(callgraph::has_spot((a.incoming)(o), at));
    lemma_taken(Seq::empty(), (a.incoming)(stop.spot), at);
    lemma_swept(a, stop.spot, places, first, at);
    if o != stop.spot {
        lemma_occurrences(files, text::leaf_name(stop.fqn), i, o);
        let p = choose|p: int| 0 <= p < places.len() && places[p] == o;
        assert(means(a, places[p], stop.spot));
    }
}

/// Nothing else is next to a callable the other way.
pub proof fn law_no_other_callers(files: Seq<FileIndex>, a: Answers, stop: Stop, at: Spot)
    requires
        callgraph::has_spot(callgraph::next_to(files, a, Direction::Reverse, stop), at),
    ensures
        callgraph::has_spot((a.incoming)(stop.spot), at) || exists|o: Spot|
            means(a, o, stop.spot) && #[trigger] callgraph::has_spot((a.incoming)(o), at),
{
    let places = callgraph::occurrences(files, text::leaf_name(stop.fqn));
    let first = callgraph::taken(Seq::empty(), (a.incoming)(stop.spot));
    lemma_taken(Seq::empty(), (a.incoming)(stop.spot), at);
    lemma_swept(a, stop.spot, places, first, at);
}

/// A neighbour that the project defines goes by the full name of its definition; another by its
/// module, with its own name unless it is the module itself.
pub proof fn law_names_of_neighbours(files: Seq<FileIndex>, nb: NeighborView, i: int, j: int)
    requires
        entry_laws::each_at_its_place(files),
    ensures
        0 <= i < files.len() && 0 <= j < files[i].defs@.len() && model::callable(
            files[i].defs@[j],
        ) && nb.spot() == (files[i].path@, files[i].defs@[j].offset) ==> callgraph::label(files, nb)
            == names::def_fqn(files[i].path@, files[i].defs@[j]),
        callgraph::name_at(files, nb.spot()) is None && nb.kind == "module"@ ==> callgraph::label(
            files,
            nb,
        ) == text::join(names::components(nb.path), "."@),
        callgraph::name_at(files, nb.spot()) is None && nb.kind != "module"@ ==> callgraph::label(
            files,
            nb,
        ) == text::join(names::components(nb.path).push(nb.name), "."@),
{
}

/// All that a symbol directly calls, or that directly calls it, is in what is reached from it:
/// as one of its roots, or as a node.
pub proof fn law_direct_neighbours_are_reached(
    files: Seq<FileIndex>,
    a: Answers,
    dir: Direction,
    symbol: Seq<char>,
    limit: Option<usize>,
    nodes: Seq<NodeView>,
    from: Stop,
    k: int,
)
    requires
        callgraph::is_closure(files, a, dir, symbol, limit, nodes),
        limit matches Some(m) ==> m > 0,
        callgraph::start_stops(files, symbol).contains(from),
        0 <= k < callgraph::next_to(files, a, dir, from).len(),
    ensures
        closure_laws::named(
            callgraph::roots_named(files, symbol),
            nodes,
            callgraph::label(files, callgraph::next_to(files, a, dir, from)[k]),
        ),
{
    closure_laws::law_closure_is_all_that_steps_reach(files, a, dir, symbol, limit, nodes);
    let starts = callgraph::start_stops(files, symbol);
    let at = choose|at: spec_fn(NodeView) -> Stop|
        closure_laws::by_steps(files, a, dir, starts, nodes, at)
            && #[trigger] closure_laws::no_step_leaves(
            files,
            a,
            dir,
            starts,
            limit,
            nodes,
            at,
        );
    assert(closure_laws::on_level(starts, nodes, at, from, 0));
    let nb = callgraph::next_to(files, a, dir, from)[k];
}

/// The texts of the row of a node.
proof fn lemma_node_row(n: NodeView)
    ensures
        graph_reports::node_row(n).get_text("loc"@) == Some(rows::place(n.path, n.line, n.col)),
        graph_reports::node_row(n).get_text("fqn"@) == Some(n.fqn),
        graph_reports::node_row(n).get_text("via"@) == Some(n.via),
        graph_reports::node_row(n).get_text("node_kind"@) == Some(n.kind),
        graph_reports::node_row(n).get("depth"@) == Some(JsonView::Num(n.depth)),
{
    reveal_strlit("loc");
    reveal_strlit("label");
    reveal_strlit("fqn");
    reveal_strlit("node_kind");
    reveal_strlit("depth");
    reveal_strlit("via");
    reveal_strlit("group");
    reveal_strlit("cols");
    assert("loc"@[0] == 'l' && "fqn"@[0] == 'f' && "via"@[0] == 'v');
    assert("label"@[0] == 'l' && "depth"@[0] == 'd' && "group"@[0] == 'g');
    assert("node_kind"@.len() == 9 && "cols"@.len() == 4);
    let r0 = JsonView::object();
    assert(json::tidy(r0));
    let v1 = JsonView::Str(rows::place(n.path, n.line, n.col));
    let r1 = r0.with("loc"@, v1);
    json::lemma_with(r0, "loc"@, v1);
    let v2 = JsonView::Str(n.kind + " "@ + n.fqn + graph_reports::reached_by(n));
    let r2 = r1.with("label"@, v2);
    json::lemma_with(r1, "label"@, v2);
    let v3 = JsonView::Str(n.fqn);
    let r3 = r2.with("fqn"@, v3);
    json::lemma_with(r2, "fqn"@, v3);
    let v4 = JsonView::Str(n.kind);
    let r4 = r3.with("node_kind"@, v4);
    json::lemma_with(r3, "node_kind"@, v4);
    let v5 = JsonView::Num(n.depth);
    let r5 = r4.with("depth"@, v5);
    json::lemma_with(r4, "depth"@, v5);
    let v6 = JsonView::Str(n.via);
    let r6 = r5.with("via"@, v6);
    json::lemma_with(r5, "via"@, v6);
    let v7 = JsonView::Str(graph_reports::ring(n));
    let r7 = r6.with("group"@, v7);
    json::lemma_with(r6, "group"@, v7);
    let r8 = r7.with("cols"@, graph_reports::node_cols(n));
    json::lemma_with(r7, "cols"@, graph_reports::node_cols(n));
    assert(graph_reports::node_row(n) == r8);
}

/// Every node that is reached has the row of its turn: its name, its place, how far it is, and
/// what it was reached through.
pub proof fn law_every_node_has_its_row(
    symbol: Seq<char>,
    reverse: bool,
    roots: Seq<Seq<char>>,
    nodes: Seq<NodeView>,
    caveat: Option<(Seq<char>, DispatchKind)>,
    k: int,
)
    requires
        0 <= k < nodes.len(),
    ensures
        ({
            let list = graph_reports::graph_view(symbol, reverse, roots, nodes, caveat).results;
            let n = nodes[k];
            &&& list.len() == nodes.len()
            &&& list[k].get_text("fqn"@) == Some(n.fqn)
            &&& list[k].get_text("loc"@) == Some(rows::place(n.path, n.line, n.col))
            &&& list[k].get_text("via"@) == Some(n.via)
            &&& list[k].get_text("node_kind"@) == Some(n.kind)
            &&& list[k].get("depth"@) == Some(JsonView::Num(n.depth))
        }),
{
    lemma_node_row(nodes[k]);
    let list = graph_reports::graph_view(symbol, reverse, roots, nodes, caveat).results;
    assert(list =~= graph_reports::node_rows(nodes));
}

/// A class is named by its full name and by every end of it after a dot, and by nothing else.
pub proof fn law_class_is_named(fqn: Seq<char>, symbol: Seq<char>)
    ensures
        structure_reports::names_class(fqn, symbol) <==> name_laws::ends_name(fqn, symbol),
{
    if text::leaf_name(fqn) == symbol {
        live_laws::lemma_last_index(fqn, '.');
        reveal_strlit(".");
        if let Some(i) = text::last_index(fqn, '.') {
            let t = "."@ + symbol;
            assert(fqn.subrange(fqn.len() - t.len(), fqn.len() as int) =~= t) by {
                assert(fqn.skip(i + 1) =~= symbol);
                assert(t.len() == fqn.len() - i);
            }
        }
    }
}

proof fn lemma_tie_row(
    loc: Seq<char>,
    label: Seq<char>,
    relation: Seq<char>,
    fqn: Seq<char>,
    group: Seq<char>,
    shown: Seq<char>,
)
    ensures
        structure_reports::tie_row(loc, label, relation, fqn, group, shown).get_text("relation"@)
            == Some(relation),
        structure_reports::tie_row(loc, label, relation, fqn, group, shown).get_text("fqn"@)
            == Some(fqn),
        structure_reports::tie_row(loc, label, relation, fqn, group, shown).get_text("loc"@)
            == Some(loc),
{
    reveal_strlit("loc");
    reveal_strlit("label");
    reveal_strlit("relation");
    reveal_strlit("fqn");
    reveal_strlit("group");
    reveal_strlit("cols");
    assert("loc"@[0] == 'l' && "fqn"@[0] == 'f');
    assert("label"@.len() == 5 && "relation"@.len() == 8 && "group"@.len() == 5 && "cols"@.len()
        == 4);
    let r0 = JsonView::object();
    assert(json::tidy(r0));
    let r1 = r0.with("loc"@, JsonView::Str(loc));
    json::lemma_with(r0, "loc"@, JsonView::Str(loc));
    let r2 = r1.with("label"@, JsonView::Str(label));
    json::lemma_with(r1, "label"@, JsonView::Str(label));
    let r3 = r2.with("relation"@, JsonView::Str(relation));
    json::lemma_with(r2, "relation"@, JsonView::Str(relation));
    let r4 = r3.with("fqn"@, JsonView::Str(fqn));
    json::lemma_with(r3, "fqn"@, JsonView::Str(fqn));
    let r5 = r4.with("group"@, JsonView::Str(group));
    json::lemma_with(r4, "group"@, JsonView::Str(group));
    let r6 = r5.with("cols"@, json::texts(seq![shown]));
    json::lemma_with(r5, "cols"@, json::texts(seq![shown]));
    assert(structure_reports::tie_row(loc, label, relation, fqn, group, shown) == r6);
}

/// Whether rows tell a relation to a name.
pub open spec fn tells(list: Seq<JsonView>, relation: Seq<char>, name: Seq<char>) -> bool {
    exists|m: int|
        0 <= m < list.len() && (#[trigger] list[m]).get_text("relation"@) == Some(relation)
            && list[m].get_text("fqn"@) == Some(name)
}

proof fn lemma_told(
    files: Seq<FileIndex>,
    h: Hierarchy,
    symbol: Seq<char>,
    root: Seq<char>,
    row: JsonView,
)
    requires
        h.anchor.keys().contains(root),
        name_laws::ends_name(root, symbol),
        structure_reports::class_ties(files, h, root).contains(row),
    ensures
        structure_reports::hierarchy_view(files, h, symbol).results.contains(row),
{
    law_class_is_named(root, symbol);
    let all = h.anchor.keys();
    let i = choose|i: int| 0 <= i < all.len() && all[i] == root;
    let roots = structure_reports::classes_named(all, symbol);
    let m = lemma_classes_named(all, symbol, i);
    lemma_all_ties(files, h, roots, m, row);
    assert(structure_reports::hierarchy_view(files, h, symbol).results
        =~= structure_reports::all_ties(files, h, roots));
}

proof fn lemma_classes_named(all: Seq<Seq<char>>, symbol: Seq<char>, i: int) -> (m: int)
    requires
        0 <= i < all.len(),
        structure_reports::names_class(all[i], symbol),
    ensures
        0 <= m < structure_reports::classes_named(all, symbol).len(),
        structure_reports::classes_named(all, symbol)[m] == all[i],
    decreases all.len(),
{
    let less = all.drop_last();
    if i < less.len() {
        assert(less[i] == all[i]);
        lemma_classes_named(less, symbol, i)
    } else {
        structure_reports::classes_named(less, symbol).len() as int
    }
}

proof fn lemma_all_ties(
    files: Seq<FileIndex>,
    h: Hierarchy,
    roots: Seq<Seq<char>>,
    m: int,
    row: JsonView,
)
    requires
        0 <= m < roots.len(),
        structure_reports::class_ties(files, h, roots[m]).contains(row),
    ensures
        structure_reports::all_ties(files, h, roots).contains(row),
    decreases roots.len(),
{
    let less = roots.drop_last();
    let a = structure_reports::all_ties(files, h, less);
    let b = structure_reports::class_ties(files, h, roots.last());
    if m < less.len() {
        assert(less[m] == roots[m]);
        lemma_all_ties(files, h, less, m, row);
        let k = choose|k: int| 0 <= k < a.len() && a[k] == row;
        assert((a + b)[k] == row);
    } else {
        let k = choose|k: int| 0 <= k < b.len() && b[k] == row;
        assert((a + b)[a.len() + k] == row);
    }
}

/// Every class that a class which is asked for inherits from has a row, and so has every base
/// of it that is no class of the project, and every class that inherits from it.
pub proof fn law_relatives_are_told(
    files: Seq<FileIndex>,
    h: Hierarchy,
    symbol: Seq<char>,
    root: Seq<char>,
    other: Seq<char>,
)
    requires
        h.anchor.keys().contains(root),
        name_laws::ends_name(root, symbol),
    ensures
        h.supers_of(root).contains(other) ==> tells(
            structure_reports::hierarchy_view(files, h, symbol).results,
            "supertype"@,
            other,
        ),
        text::views(h.external_bases.list(root)).contains(other) ==> tells(
            structure_reports::hierarchy_view(files, h, symbol).results,
            "supertype-external"@,
            other,
        ),
        h.subclasses_of(root).contains(other) ==> tells(
            structure_reports::hierarchy_view(files, h, symbol).results,
            "subtype"@,
            other,
        ),
{
    let list = structure_reports::hierarchy_view(files, h, symbol).results;
    let a = structure_reports::ties(files, root, Tie::Super, h.supers_of(root));
    let b = structure_reports::ties(
        files,
        root,
        Tie::External,
        text::views(h.external_bases.list(root)),
    );
    let c = structure_reports::ties(files, root, Tie::Sub, h.subclasses_of(root));
    let d = structure_reports::method_ties(
        files,
        h,
        root,
        structure_reports::ordered_methods(h, root),
    );
    let all = structure_reports::class_ties(files, h, root);
    assert(all == a + b + c + d);
    let here = structure_reports::class_loc(files, root);
    let there = structure_reports::loc_or(files, other, here);
    if h.supers_of(root).contains(other) {
        let s = h.supers_of(root);
        let k = choose|k: int| 0 <= k < s.len() && s[k] == other;
        let row = structure_reports::tied(files, root, Tie::Super, other);
        assert(all[k] == row);
        lemma_told(files, h, symbol, root, row);
        lemma_tie_row(there, "supertype "@ + other, "supertype"@, other, "supertypes"@, other);
        let m = choose|m: int| 0 <= m < list.len() && list[m] == row;
        assert(list[m].get_text("relation"@) == Some("supertype"@));
    }
    if text::views(h.external_bases.list(root)).contains(other) {
        let s = text::views(h.external_bases.list(root));
        let k = choose|k: int| 0 <= k < s.len() && s[k] == other;
        let row = structure_reports::tied(files, root, Tie::External, other);
        assert(all[a.len() + k] == row);
        lemma_told(files, h, symbol, root, row);
        lemma_tie_row(
            here,
            "supertype "@ + other + " (external)"@,
            "supertype-external"@,
            other,
            "supertypes (external)"@,
            other,
        );
        let m = choose|m: int| 0 <= m < list.len() && list[m] == row;
        assert(list[m].get_text("relation"@) == Some("supertype-external"@));
    }
    if h.subclasses_of(root).contains(other) {
        let s = h.subclasses_of(root);
        let k = choose|k: int| 0 <= k < s.len() && s[k] == other;
        let row = structure_reports::tied(files, root, Tie::Sub, other);
        assert(all[a.len() + b.len() + k] == row);
        lemma_told(files, h, symbol, root, row);
        lemma_tie_row(there, "subtype "@ + other, "subtype"@, other, "subtypes"@, other);
        let m = choose|m: int| 0 <= m < list.len() && list[m] == row;
        assert(list[m].get_text("relation"@) == Some("subtype"@));
    }
}

proof fn lemma_with_member(h: Hierarchy, s: Seq<Seq<char>>, x: Seq<char>, k: int)
    requires
        0 <= k < s.len(),
        text::views(h.methods.list(s[k])).contains(x),
    ensures
        hierarchy::with_member(h.methods, s, x).contains(s[k]),
    decreases s.len(),
{
    let less = s.drop_last();
    text::lemma_push_contains(hierarchy::with_member(h.methods, less, x), s.last());
    if k < less.len() {
        assert(less[k] == s[k]);
        lemma_with_member(h, less, x, k);
    }
}

proof fn lemma_method_ties(
    files: Seq<FileIndex>,
    h: Hierarchy,
    root: Seq<char>,
    list: Seq<Seq<char>>,
    k: int,
    row: JsonView,
)
    requires
        0 <= k < list.len(),
        structure_reports::ties(
            files,
            root,
            Tie::Overrides(list[k]),
            hierarchy::with_member(h.methods, h.supers_of(root), list[k]),
        ).contains(row) || structure_reports::ties(
            files,
            root,
            Tie::OverriddenBy(list[k]),
            hierarchy::with_member(h.methods, h.subclasses_of(root), list[k]),
        ).contains(row),
    ensures
        structure_reports::method_ties(files, h, root, list).contains(row),
    decreases list.len(),
{
    let less = list.drop_last();
    let m = list.last();
    let a = structure_reports::method_ties(files, h, root, less);
    let b = structure_reports::ties(
        files,
        root,
        Tie::Overrides(m),
        hierarchy::with_member(h.methods, h.supers_of(root), m),
    );
    let c = structure_reports::ties(
        files,
        root,
        Tie::OverriddenBy(m),
        hierarchy::with_member(h.methods, h.subclasses_of(root), m),
    );
    if k < less.len() {
        assert(less[k] == list[k]);
        lemma_method_ties(files, h, root, less, k, row);
        let q = choose|q: int| 0 <= q < a.len() && a[q] == row;
        assert((a + b + c)[q] == row);
    } else if b.contains(row) {
        let q = choose|q: int| 0 <= q < b.len() && b[q] == row;
        assert((a + b + c)[a.len() + q] == row);
    } else {
        let q = choose|q: int| 0 <= q < c.len() && c[q] == row;
        assert((a + b + c)[a.len() + b.len() + q] == row);
    }
}

/// A method that a class which is asked for defines, and that one above it defines too, has a
/// row as its override; one that a class below defines too has a row as overridden by it.
pub proof fn law_overrides_are_told(
    files: Seq<FileIndex>,
    h: Hierarchy,
    symbol: Seq<char>,
    root: Seq<char>,
    other: Seq<char>,
    method: Seq<char>,
)
    requires
        h.anchor.keys().contains(root),
        name_laws::ends_name(root, symbol),
        text::views(h.methods.list(root)).contains(method),
        text::views(h.methods.list(other)).contains(method),
    ensures
        h.supers_of(root).contains(other) ==> tells(
            structure_reports::hierarchy_view(files, h, symbol).results,
            "overrides"@,
            other + "."@ + method,
        ),
        h.subclasses_of(root).contains(other) ==> tells(
            structure_reports::hierarchy_view(files, h, symbol).results,
            "overridden-by"@,
            other + "."@ + method,
        ),
{
    let list = structure_reports::hierarchy_view(files, h, symbol).results;
    let methods = structure_reports::ordered_methods(h, root);
    crate::sort::lemma_sorted_contains::<String>(text::views(h.methods.list(root)), method);
    let k = choose|k: int| 0 <= k < methods.len() && methods[k] == method;
    let a = structure_reports::ties(files, root, Tie::Super, h.supers_of(root));
    let b = structure_reports::ties(
        files,
        root,
        Tie::External,
        text::views(h.external_bases.list(root)),
    );
    let c = structure_reports::ties(files, root, Tie::Sub, h.subclasses_of(root));
    let d = structure_reports::method_ties(files, h, root, methods);
    let all = structure_reports::class_ties(files, h, root);
    assert(all == a + b + c + d);
    let here = structure_reports::class_loc(files, root);
    let mine = root + "."@ + method;
    let theirs = other + "."@ + method;
    if h.supers_of(root).contains(other) {
        let s = h.supers_of(root);
        let q = choose|q: int| 0 <= q < s.len() && s[q] == other;
        lemma_with_member(h, s, method, q);
        let w = hierarchy::with_member(h.methods, s, method);
        let p = choose|p: int| 0 <= p < w.len() && w[p] == other;
        let row = structure_reports::tied(files, root, Tie::Overrides(method), other);
        assert(structure_reports::ties(files, root, Tie::Overrides(method), w)[p] == row);
        lemma_method_ties(files, h, root, methods, k, row);
        let x = choose|x: int| 0 <= x < d.len() && d[x] == row;
        assert(all[a.len() + b.len() + c.len() + x] == row);
        lemma_told(files, h, symbol, root, row);
        lemma_tie_row(
            structure_reports::loc_or(files, mine, here),
            mine + " overrides "@ + theirs,
            "overrides"@,
            theirs,
            "overrides"@,
            mine + "  →  "@ + theirs,
        );
        let m = choose|m: int| 0 <= m < list.len() && list[m] == row;
        assert(list[m].get_text("relation"@) == Some("overrides"@));
    }
    if h.subclasses_of(root).contains(other) {
        let s = h.subclasses_of(root);
        let q = choose|q: int| 0 <= q < s.len() && s[q] == other;
        lemma_with_member(h, s, method, q);
        let w = hierarchy::with_member(h.methods, s, method);
        let p = choose|p: int| 0 <= p < w.len() && w[p] == other;
        let row = structure_reports::tied(files, root, Tie::OverriddenBy(method), other);
        assert(structure_reports::ties(files, root, Tie::OverriddenBy(method), w)[p] == row);
        lemma_method_ties(files, h, root, methods, k, row);
        let x = choose|x: int| 0 <= x < d.len() && d[x] == row;
        assert(all[a.len() + b.len() + c.len() + x] == row);
        lemma_told(files, h, symbol, root, row);
        lemma_tie_row(
            structure_reports::loc_or(files, theirs, here),
            theirs + " overrides "@ + mine,
            "overridden-by"@,
            theirs,
            "overridden by"@,
            theirs + "  →  "@ + mine,
        );
        let m = choose|m: int| 0 <= m < list.len() && list[m] == row;
        assert(list[m].get_text("relation"@) == Some("overridden-by"@));
    }
}

/// Whether a definition is a function directly in a scope of a file.
pub open spec fn method_at(path: Seq<char>, d: Def, scope: Seq<char>, name: Seq<char>) -> bool {
    d.kind is Function && d.container@.len() > 0 && names::fqn(path, text::views(d.container@))
        == scope && d.name@ == name
}

proof fn lemma_methods_in(
    path: Seq<char>,
    defs: Seq<Def>,
    scope: Seq<char>,
    start: Seq<Seq<char>>,
    name: Seq<char>,
)
    ensures
        hierarchy::methods_in(path, defs, scope, start).contains(name) <==> start.contains(name)
            || exists|j: int|
            0 <= j < defs.len() && method_at(path, #[trigger] defs[j], scope, name),
    decreases defs.len(),
{
    if defs.len() > 0 {
        let less = defs.drop_last();
        let before = hierarchy::methods_in(path, less, scope, start);
        let d = defs.last();
        lemma_methods_in(path, less, scope, start, name);
        text::lemma_push_contains(before, d.name@);
        if exists|j: int| 0 <= j < less.len() && method_at(path, #[trigger] less[j], scope, name) {
            let j = choose|j: int|
                0 <= j < less.len() && method_at(path, #[trigger] less[j], scope, name);
            assert(defs[j] == less[j]);
        }
        if method_at(path, d, scope, name) {
            assert(defs[defs.len() - 1] == d);
        }
        assert forall|j: int|
            0 <= j < defs.len() && method_at(
                path,
                #[trigger] defs[j],
                scope,
                name,
            ) implies hierarchy::methods_in(path, defs, scope, start).contains(name) by {
            if j < less.len() {
                assert(less[j] == defs[j]);
            }
        }
    }
}

/// The methods of a class are the functions that the project defines directly in it.
pub proof fn law_methods_of_a_class(files: Seq<FileIndex>, scope: Seq<char>, name: Seq<char>)
    ensures
        hierarchy::methods_of(files, scope).contains(name) <==> exists|i: int, j: int|
            #![trigger files[i].defs@[j]]
            0 <= i < files.len() && 0 <= j < files[i].defs@.len() && method_at(
                files[i].path@,
                files[i].defs@[j],
                scope,
                name,
            ),
    decreases files.len(),
{
    if files.len() > 0 {
        let less = files.drop_last();
        let f = files.last();
        let n = files.len() - 1;
        law_methods_of_a_class(less, scope, name);
        lemma_methods_in(f.path@, f.defs@, scope, hierarchy::methods_of(less, scope), name);
        if hierarchy::methods_of(less, scope).contains(name) {
            let (i, j) = choose|i: int, j: int|
                #![trigger less[i].defs@[j]]
                0 <= i < less.len() && 0 <= j < less[i].defs@.len() && method_at(
                    less[i].path@,
                    less[i].defs@[j],
                    scope,
                    name,
                );
            assert(files[i].defs@[j] == less[i].defs@[j]);
        }
        if exists|j: int|
            0 <= j < f.defs@.len() && method_at(f.path@, #[trigger] f.defs@[j], scope, name) {
            let j = choose|j: int|
                0 <= j < f.defs@.len() && method_at(f.path@, #[trigger] f.defs@[j], scope, name);
            assert(files[n].defs@[j] == f.defs@[j]);
        }
        assert forall|i: int, j: int|
            #![trigger files[i].defs@[j]]
            0 <= i < files.len() && 0 <= j < files[i].defs@.len() && method_at(
                files[i].path@,
                files[i].defs@[j],
                scope,
                name,
            ) implies hierarchy::methods_of(files, scope).contains(name) by {
            if i < n {
                assert(less[i].defs@[j] == files[i].defs@[j]);
            } else {
                assert(f.defs@[j] == files[i].defs@[j]);
            }
        }
    }
}

proof fn lemma_project_bases(files: Seq<FileIndex>, s: Seq<callgraph::SuperView>, n: Seq<char>)
    ensures
        hierarchy::project_bases(files, s).contains(n) <==> exists|k: int|
            0 <= k < s.len() && (#[trigger] s[k]).anchor is Some && hierarchy::class_name_at(
                files,
                s[k].anchor->0,
            ) == Some(n),
    decreases s.len(),
{
    if s.len() > 0 {
        let less = s.drop_last();
        let before = hierarchy::project_bases(files, less);
        let x = s.last();
        lemma_project_bases(files, less, n);
        if x.anchor is Some && hierarchy::class_name_at(files, x.anchor->0) is Some {
            text::lemma_push_contains(before, hierarchy::class_name_at(files, x.anchor->0)->0);
        }
        if before.contains(n) {
            let k = choose|k: int|
                0 <= k < less.len() && (#[trigger] less[k]).anchor is Some
                    && hierarchy::class_name_at(files, less[k].anchor->0) == Some(n);
            assert(s[k] == less[k]);
        }
        if x.anchor is Some && hierarchy::class_name_at(files, x.anchor->0) == Some(n) {
            assert(s[s.len() - 1] == x);
        }
        assert forall|k: int|
            0 <= k < s.len() && (#[trigger] s[k]).anchor is Some && hierarchy::class_name_at(
                files,
                s[k].anchor->0,
            ) == Some(n) implies hierarchy::project_bases(files, s).contains(n) by {
            if k < less.len() {
                assert(less[k] == s[k]);
            }
        }
    }
}

/// The direct bases of a class that are classes of the project are those that its bases resolve
/// to. A class that writes no base but `object` has none.
pub proof fn law_direct_bases(
    files: Seq<FileIndex>,
    a: Answers,
    name: Seq<char>,
    path: Seq<char>,
    d: Def,
    base: Seq<char>,
)
    requires
        hierarchy::class_named(files, name) == Some((path, d)),
    ensures
        hierarchy::direct_bases(files, a, name).contains(base) <==> (exists|b: int|
            0 <= b < d.bases@.len() && (#[trigger] d.bases@[b])@ != "object"@) && exists|k: int|
            0 <= k < (a.supertypes)((path, d.offset)).len() && (
            #[trigger] (a.supertypes)((path, d.offset))[k]).anchor is Some
                && hierarchy::class_name_at(
                files,
                (a.supertypes)((path, d.offset))[k].anchor->0,
            ) == Some(base),
{
    lemma_project_bases(files, (a.supertypes)((path, d.offset)), base);
    crate::mock_laws::lemma_extends(d);
}

/// Whether a role is played by nodes of a list, of which it has rows.
pub open spec fn has_role(list: Seq<JsonView>, role: Seq<char>, name: Seq<char>) -> bool {
    exists|m: int|
        0 <= m < list.len() && (#[trigger] list[m]).get_text("role"@) == Some(role)
            && list[m].get_text("fqn"@) == Some(name)
}

proof fn lemma_neighbour_row(role: Role, n: NodeView)
    ensures
        describe::neighbour_view(role, n).get_text("role"@) == Some(describe::role_name(role)),
        describe::neighbour_view(role, n).get_text("fqn"@) == Some(n.fqn),
{
    reveal_strlit("loc");
    reveal_strlit("label");
    reveal_strlit("role");
    reveal_strlit("fqn");
    reveal_strlit("node_kind");
    reveal_strlit("depth");
    reveal_strlit("via");
    reveal_strlit("group");
    reveal_strlit("cols");
    assert("loc"@[0] == 'l' && "fqn"@[0] == 'f' && "via"@[0] == 'v');
    assert("role"@[0] == 'r' && "cols"@[0] == 'c');
    assert("label"@.len() == 5 && "depth"@.len() == 5 && "group"@.len() == 5 && "node_kind"@.len()
        == 9);
    let name = describe::role_name(role);
    let r0 = JsonView::object();
    assert(json::tidy(r0));
    let v1 = JsonView::Str(rows::place(n.path, n.line, n.col));
    let r1 = r0.with("loc"@, v1);
    json::lemma_with(r0, "loc"@, v1);
    let v2 = JsonView::Str(
        if role is Test {
            name + " "@ + n.fqn + " (depth "@ + text::decimal(n.depth) + (", via "@ + n.via + ")"@)
        } else {
            name + " "@ + n.fqn
        },
    );
    let r2 = r1.with("label"@, v2);
    json::lemma_with(r1, "label"@, v2);
    let v3 = JsonView::Str(name);
    let r3 = r2.with("role"@, v3);
    json::lemma_with(r2, "role"@, v3);
    let v4 = JsonView::Str(n.fqn);
    let r4 = r3.with("fqn"@, v4);
    json::lemma_with(r3, "fqn"@, v4);
    let v5 = JsonView::Str(n.kind);
    let r5 = r4.with("node_kind"@, v5);
    json::lemma_with(r4, "node_kind"@, v5);
    let v6 = JsonView::Num(n.depth);
    let r6 = r5.with("depth"@, v6);
    json::lemma_with(r5, "depth"@, v6);
    let v7 = JsonView::Str(n.via);
    let r7 = r6.with("via"@, v7);
    json::lemma_with(r6, "via"@, v7);
    let v8 = JsonView::Str(
        match role {
            Role::Caller => "callers"@,
            Role::Callee => "callees"@,
            Role::Test => "reaching tests"@,
        },
    );
    let r8 = r7.with("group"@, v8);
    json::lemma_with(r7, "group"@, v8);
    let v9 = json::texts(
        if role is Test {
            seq![n.fqn, "depth "@ + text::decimal(n.depth) + " · via "@ + text::leaf_name(n.via)]
        } else {
            seq![n.fqn]
        },
    );
    let r9 = r8.with("cols"@, v9);
    json::lemma_with(r8, "cols"@, v9);
    assert(describe::neighbour_view(role, n) == r9);
}

proof fn lemma_neighbour_rows(role: Role, nodes: Seq<NodeView>, classes: Set<Seq<char>>, k: int)
    requires
        0 <= k < nodes.len(),
        describe::plays(role, nodes[k], classes),
    ensures
        describe::neighbour_rows(role, nodes, classes).contains(
            describe::neighbour_view(role, nodes[k]),
        ),
    decreases nodes.len(),
{
    let less = nodes.drop_last();
    text::lemma_push_contains(
        describe::neighbour_rows(role, less, classes),
        describe::neighbour_view(role, nodes.last()),
    );
    if k < less.len() {
        assert(less[k] == nodes[k]);
        lemma_neighbour_rows(role, less, classes, k);
    }
}

/// A description has a row for each direct caller, for each direct callee, and for each test
/// that reaches the symbol, however far it is.
pub proof fn law_description_shows_all(
    led: crate::dynamic::Ledger,
    files: Seq<FileIndex>,
    symbol: Seq<char>,
    roots: Seq<Seq<char>>,
    ahead: Seq<NodeView>,
    behind: Seq<NodeView>,
    k: int,
)
    ensures
        ({
            let list = describe::describe_view(led, files, symbol, roots, ahead, behind).results;
            &&& 0 <= k < behind.len() && behind[k].depth == 1 ==> has_role(
                list,
                "caller"@,
                behind[k].fqn,
            )
            &&& 0 <= k < ahead.len() ==> has_role(list, "callee"@, ahead[k].fqn)
            &&& 0 <= k < behind.len() && tests_map::test_node(
                behind[k],
                tests_map::test_class_set(files),
            ) ==> has_role(list, "test"@, behind[k].fqn)
        }),
{
    let classes = tests_map::test_class_set(files);
    let list = describe::describe_view(led, files, symbol, roots, ahead, behind).results;
    let a = describe::definition_rows(led, files, roots);
    let b = describe::neighbour_rows(Role::Caller, behind, classes);
    let c = describe::neighbour_rows(Role::Callee, ahead, classes);
    let d = describe::neighbour_rows(Role::Test, behind, classes);
    assert(list == a + b + c + d);
    if 0 <= k < behind.len() && behind[k].depth == 1 {
        lemma_neighbour_rows(Role::Caller, behind, classes, k);
        lemma_neighbour_row(Role::Caller, behind[k]);
        let x = describe::neighbour_view(Role::Caller, behind[k]);
        let q = choose|q: int| 0 <= q < b.len() && b[q] == x;
        assert(list[a.len() + q] == x);
        assert(list[a.len() + q].get_text("role"@) == Some("caller"@));
    }
    if 0 <= k < ahead.len() {
        lemma_neighbour_rows(Role::Callee, ahead, classes, k);
        lemma_neighbour_row(Role::Callee, ahead[k]);
        let x = describe::neighbour_view(Role::Callee, ahead[k]);
        let q = choose|q: int| 0 <= q < c.len() && c[q] == x;
        assert(list[a.len() + b.len() + q] == x);
        assert(list[a.len() + b.len() + q].get_text("role"@) == Some("callee"@));
    }
    if 0 <= k < behind.len() && tests_map::test_node(behind[k], classes) {
        lemma_neighbour_rows(Role::Test, behind, classes, k);
        lemma_neighbour_row(Role::Test, behind[k]);
        let x = describe::neighbour_view(Role::Test, behind[k]);
        let q = choose|q: int| 0 <= q < d.len() && d[q] == x;
        assert(list[a.len() + b.len() + c.len() + q] == x);
        assert(list[a.len() + b.len() + c.len() + q].get_text("role"@) == Some("test"@));
    }
}

proof fn lemma_neighbour_from(
    role: Role,
    nodes: Seq<NodeView>,
    classes: Set<Seq<char>>,
    q: int,
) -> (k: int)
    requires
        0 <= q < describe::neighbour_rows(role, nodes, classes).len(),
    ensures
        0 <= k < nodes.len(),
        describe::plays(role, nodes[k], classes),
        describe::neighbour_rows(role, nodes, classes)[q] == describe::neighbour_view(
            role,
            nodes[k],
        ),
    decreases nodes.len(),
{
    let less = nodes.drop_last();
    if q < describe::neighbour_rows(role, less, classes).len() {
        lemma_neighbour_from(role, less, classes, q)
    } else {
        nodes.len() - 1
    }
}

/// What a description shows as a caller is one step away, and what it shows as a test is one.
pub proof fn law_description_shows_no_other(
    nodes: Seq<NodeView>,
    classes: Set<Seq<char>>,
    q: int,
)
    ensures
        0 <= q < describe::neighbour_rows(Role::Caller, nodes, classes).len() ==> exists|k: int|
            0 <= k < nodes.len() && (#[trigger] nodes[k]).depth == 1 && describe::neighbour_rows(
                Role::Caller,
                nodes,
                classes,
            )[q].get_text("fqn"@) == Some(nodes[k].fqn),
        0 <= q < describe::neighbour_rows(Role::Test, nodes, classes).len() ==> exists|k: int|
            0 <= k < nodes.len() && tests_map::test_node(#[trigger] nodes[k], classes)
                && describe::neighbour_rows(Role::Test, nodes, classes)[q].get_text("fqn"@) == Some(
                nodes[k].fqn,
            ),
{
    if 0 <= q < describe::neighbour_rows(Role::Caller, nodes, classes).len() {
        let k = lemma_neighbour_from(Role::Caller, nodes, classes, q);
        lemma_neighbour_row(Role::Caller, nodes[k]);
        assert(nodes[k].depth == 1);
    }
    if 0 <= q < describe::neighbour_rows(Role::Test, nodes, classes).len() {
        let k = lemma_neighbour_from(Role::Test, nodes, classes, q);
        lemma_neighbour_row(Role::Test, nodes[k]);
        assert(tests_map::test_node(nodes[k], classes));
    }
}

proof fn lemma_outside_bases(files: Seq<FileIndex>, s: Seq<SuperView>, base: Seq<char>)
    ensures
        hierarchy::outside_bases(files, s).contains(base) <==> exists|k: int|
            0 <= k < s.len() && (#[trigger] s[k]).name == base && (s[k].anchor is None
                || hierarchy::class_name_at(files, s[k].anchor->0) is None),
    decreases s.len(),
{
    if s.len() > 0 {
        let less = s.drop_last();
        lemma_outside_bases(files, less, base);
        text::lemma_push_contains(hierarchy::outside_bases(files, less), s.last().name);
        assert(s[s.len() - 1] == s.last());
        if hierarchy::outside_bases(files, less).contains(base) {
            let k = choose|k: int|
                0 <= k < less.len() && (#[trigger] less[k]).name == base && (less[k].anchor is None
                    || hierarchy::class_name_at(files, less[k].anchor->0) is None);
            assert(s[k] == less[k]);
        }
        if exists|k: int|
            0 <= k < s.len() && (#[trigger] s[k]).name == base && (s[k].anchor is None
                || hierarchy::class_name_at(files, s[k].anchor->0) is None) {
            let k = choose|k: int|
                0 <= k < s.len() && (#[trigger] s[k]).name == base && (s[k].anchor is None
                    || hierarchy::class_name_at(files, s[k].anchor->0) is None);
            if k < less.len() {
                assert(less[k] == s[k]);
            }
        }
    }
}

/// The other bases of a class, those that are no classes of the project, are told by name.
pub proof fn law_outside_bases(
    files: Seq<FileIndex>,
    a: Answers,
    name: Seq<char>,
    path: Seq<char>,
    d: Def,
    base: Seq<char>,
)
    requires
        hierarchy::class_named(files, name) == Some((path, d)),
    ensures
        hierarchy::direct_outside(files, a, name).contains(base) <==> (exists|b: int|
            0 <= b < d.bases@.len() && (#[trigger] d.bases@[b])@ != "object"@) && exists|k: int|
            0 <= k < (a.supertypes)((path, d.offset)).len() && (
            #[trigger] (a.supertypes)((path, d.offset))[k]).name == base && ((a.supertypes)(
                (path, d.offset),
            )[k].anchor is None || hierarchy::class_name_at(
                files,
                (a.supertypes)((path, d.offset))[k].anchor->0,
            ) is None),
{
    lemma_outside_bases(files, (a.supertypes)((path, d.offset)), base);
    crate::mock_laws::lemma_extends(d);
}

/// A text is cut only where it is too long, and then starts as it did, with a mark behind.
pub proof fn law_long_text_is_cut(s: Seq<char>, max: nat)
    ensures
        s.len() <= max ==> describe::shortened(s, max) == s,
        s.len() > max ==> describe::shortened(s, max).len() == max + 1 && describe::shortened(
            s,
            max,
        ).last() == '…' && forall|k: int|
            0 <= k < max ==> #[trigger] describe::shortened(s, max)[k] == s[k],
{
    reveal_strlit("…");
}

/// The tests that reach a symbol are said to be all that there are just where the symbol names
/// something and nothing may call it unseen. Where it names nothing, or something may, there
/// is a warning.
pub proof fn law_tests_are_told(
    symbol: Seq<char>,
    roots: Seq<Seq<char>>,
    nodes: Seq<NodeView>,
    classes: Set<Seq<char>>,
    caveat: Option<(Seq<char>, DispatchKind)>,
)
    ensures
        ({
            let e = graph_reports::tests_view(symbol, roots, nodes, classes, caveat);
            &&& e.query.get("exhaustive"@) == Some(
                JsonView::Bool(roots.len() > 0 && caveat is None),
            )
            &&& e.query.get("roots"@) == Some(json::texts(roots))
            &&& e.warnings.len() == 0 <==> roots.len() > 0 && caveat is None
        }),
{
    lemma_query_keys();
    let q0 = JsonView::object();
    let q1 = q0.with("kind"@, JsonView::Str("tests"@));
    json::lemma_with(q0, "kind"@, JsonView::Str("tests"@));
    let q2 = q1.with("target"@, JsonView::Str(symbol));
    json::lemma_with(q1, "target"@, JsonView::Str(symbol));
    let q3 = q2.with("roots"@, json::texts(roots));
    json::lemma_with(q2, "roots"@, json::texts(roots));
    let all = JsonView::Bool(roots.len() > 0 && caveat is None);
    let q4 = q3.with("exhaustive"@, all);
    json::lemma_with(q3, "exhaustive"@, all);
    json::lemma_with(q4, "caveat"@, graph_reports::caveat_mark(caveat));
}

proof fn lemma_query_keys()
    ensures
        "kind"@.len() == 4,
        "mode"@.len() == 4,
        "target"@.len() == 6,
        "roots"@.len() == 5,
        "exhaustive"@.len() == 10,
        "caveat"@.len() == 6,
        "target"@[0] == 't',
        "caveat"@[0] == 'c',
        "kind"@[0] == 'k',
        "mode"@[0] == 'm',
{
    reveal_strlit("kind");
    reveal_strlit("mode");
    reveal_strlit("target");
    reveal_strlit("roots");
    reveal_strlit("exhaustive");
    reveal_strlit("caveat");
}

/// What a symbol calls is said to be all that there is. What calls it is, just where the symbol
/// names something and nothing may call it unseen; else there is a warning.
pub proof fn law_reach_is_told(
    symbol: Seq<char>,
    reverse: bool,
    roots: Seq<Seq<char>>,
    nodes: Seq<NodeView>,
    caveat: Option<(Seq<char>, DispatchKind)>,
)
    ensures
        ({
            let e = graph_reports::graph_view(symbol, reverse, roots, nodes, caveat);
            &&& e.query.get("exhaustive"@) == Some(
                JsonView::Bool(!reverse || (roots.len() > 0 && caveat is None)),
            )
            &&& e.query.get("roots"@) == Some(json::texts(roots))
            &&& e.query.get_text("mode"@) == Some(
                if reverse {
                    "reverse"@
                } else {
                    "forward"@
                },
            )
            &&& e.warnings.len() == 0 <==> roots.len() > 0 && caveat is None
            &&& e.results.len() == nodes.len()
        }),
{
    lemma_query_keys();
    let q0 = JsonView::object();
    let q1 = q0.with("kind"@, JsonView::Str("graph"@));
    json::lemma_with(q0, "kind"@, JsonView::Str("graph"@));
    let way = JsonView::Str(
        if reverse {
            "reverse"@
        } else {
            "forward"@
        },
    );
    let q2 = q1.with("mode"@, way);
    json::lemma_with(q1, "mode"@, way);
    let q3 = q2.with("target"@, JsonView::Str(symbol));
    json::lemma_with(q2, "target"@, JsonView::Str(symbol));
    let q4 = q3.with("roots"@, json::texts(roots));
    json::lemma_with(q3, "roots"@, json::texts(roots));
    let all = JsonView::Bool(!reverse || (roots.len() > 0 && caveat is None));
    let q5 = q4.with("exhaustive"@, all);
    json::lemma_with(q4, "exhaustive"@, all);
    json::lemma_with(q5, "caveat"@, graph_reports::caveat_mark(caveat));
}

proof fn lemma_last_in(path: Seq<char>, defs: Seq<Def>, name: Seq<char>)
    ensures
        last_def::last_in(path, defs, name) matches Some(j) ==> 0 <= j < defs.len()
            && model::callable(defs[j]) && names::def_fqn(path, defs[j]) == name && forall|o: int|
            j < o < defs.len() && model::callable(#[trigger] defs[o]) ==> names::def_fqn(
                path,
                defs[o],
            ) != name,
        last_def::last_in(path, defs, name) is None ==> forall|o: int|
            0 <= o < defs.len() && model::callable(#[trigger] defs[o]) ==> names::def_fqn(
                path,
                defs[o],
            ) != name,
    decreases defs.len(),
{
    if defs.len() > 0 {
        let less = defs.drop_last();
        lemma_last_in(path, less, name);
        assert(defs[defs.len() - 1] == defs.last());
        assert forall|o: int| 0 <= o < less.len() implies #[trigger] defs[o] == less[o] by {}
    }
}

/// A name is described by the last definition that has it: there is one where there is any, and
/// none stands behind it, in its file or in a later one.
pub proof fn law_last_definition_counts(files: Seq<FileIndex>, name: Seq<char>)
    ensures
        last_def::last_def(files, name) matches Some((i, j)) ==> {
            &&& 0 <= i < files.len()
            &&& 0 <= j < files[i].defs@.len()
            &&& model::callable(files[i].defs@[j])
            &&& names::def_fqn(files[i].path@, files[i].defs@[j]) == name
            &&& forall|p: int, o: int|
                i <= p < files.len() && 0 <= o < files[p].defs@.len() && (p > i || o > j)
                    && model::callable(#[trigger] files[p].defs@[o]) ==> names::def_fqn(
                    files[p].path@,
                    files[p].defs@[o],
                ) != name
        },
        last_def::last_def(files, name) is None ==> forall|p: int, o: int|
            0 <= p < files.len() && 0 <= o < files[p].defs@.len() && model::callable(
                #[trigger] files[p].defs@[o],
            ) ==> names::def_fqn(files[p].path@, files[p].defs@[o]) != name,
    decreases files.len(),
{
    if files.len() > 0 {
        let less = files.drop_last();
        let f = files.last();
        let n = files.len() - 1;
        law_last_definition_counts(less, name);
        lemma_last_in(f.path@, f.defs@, name);
        assert(files[n] == f);
        assert forall|p: int, o: int|
            0 <= p < n && 0 <= o < files[p].defs@.len() implies #[trigger] files[p].defs@[o]
            == less[p].defs@[o] by {}
    }
}

proof fn lemma_loc_in(path: Seq<char>, defs: Seq<Def>, name: Seq<char>)
    ensures
        structure_reports::loc_in(path, defs, name) == match last_def::last_in(path, defs, name) {
            Some(j) => Some(rows::place(path, defs[j].pos.line, defs[j].pos.col)),
            None => None,
        },
    decreases defs.len(),
{
    if defs.len() > 0 {
        let less = defs.drop_last();
        lemma_loc_in(path, less, name);
        lemma_last_in(path, less, name);
        if let Some(j) = last_def::last_in(path, less, name) {
            assert(less[j] == defs[j]);
        }
    }
}

/// A name in the report on classes stands where the definition stands that describes it.
pub proof fn law_class_stands_where_it_is_defined(files: Seq<FileIndex>, name: Seq<char>)
    ensures
        structure_reports::loc_named(files, name) == match last_def::last_def(files, name) {
            Some((i, j)) => Some(
                rows::place(
                    files[i].path@,
                    files[i].defs@[j].pos.line,
                    files[i].defs@[j].pos.col,
                ),
            ),
            None => None,
        },
    decreases files.len(),
{
    if files.len() > 0 {
        let less = files.drop_last();
        let f = files.last();
        law_class_stands_where_it_is_defined(less, name);
        law_last_definition_counts(less, name);
        lemma_loc_in(f.path@, f.defs@, name);
        if let Some((i, j)) = last_def::last_def(less, name) {
            assert(less[i] == files[i]);
        }
    }
}

/// The row of a definition says where it stands, what it is called, what it is, its signature,
/// its doc line and the lines that it spans, and what it returned where a run showed that.
pub proof fn law_definition_has_its_row(led: Ledger, name: Seq<char>, path: Seq<char>, d: Def)
    ensures
        ({
            let row = describe::definition_view(led, name, path, d);
            &&& row.get_text("loc"@) == Some(rows::place(path, d.pos.line, d.pos.col))
            &&& row.get_text("fqn"@) == Some(name)
            &&& row.get_text("node_kind"@) == Some(
                if d.kind is Class {
                    "class"@
                } else {
                    "def"@
                },
            )
            &&& !(d.kind is Class) && d.signature is Some ==> row.get_text("signature"@) == Some(
                d.signature->0@,
            )
            &&& d.kind is Class && d.bases@.len() > 0 ==> row.get_text("signature"@) == Some(
                "("@ + text::join(text::views(d.bases@), ", "@) + ")"@,
            )
            &&& d.doc is Some ==> row.get_text("doc"@) == Some(d.doc->0@)
            &&& d.doc is None ==> row.get_text("doc"@) is None
            &&& row.get("decorators"@) == Some(json::texts(text::views(d.decorators@)))
            &&& row.get("lines"@) == Some(
                JsonView::Arr(
                    seq![JsonView::Num(d.pos.line as nat), JsonView::Num(d.end_line as nat)],
                ),
            )
            &&& row.get_text("observed_return"@) is Some <==> led.shapes.map().contains_key(name)
        }),
{
    reveal_strlit("loc");
    reveal_strlit("label");
    reveal_strlit("role");
    reveal_strlit("fqn");
    reveal_strlit("node_kind");
    reveal_strlit("signature");
    reveal_strlit("decorators");
    reveal_strlit("doc");
    reveal_strlit("lines");
    reveal_strlit("group");
    reveal_strlit("cols");
    reveal_strlit("observed_return");
    assert("loc"@.len() == 3 && "label"@.len() == 5 && "role"@.len() == 4 && "fqn"@.len() == 3
        && "node_kind"@.len() == 9 && "signature"@.len() == 9 && "decorators"@.len() == 10
        && "doc"@.len() == 3 && "lines"@.len() == 5 && "group"@.len() == 5 && "cols"@.len() == 4
        && "observed_return"@.len() == 15);
    assert("loc"@[0] == 'l' && "fqn"@[0] == 'f' && "doc"@[0] == 'd');
    assert("label"@[1] == 'a' && "lines"@[1] == 'i' && "group"@[1] == 'r');
    assert("role"@[0] == 'r' && "cols"@[0] == 'c' && "node_kind"@[0] == 'n' && "signature"@[0]
        == 's');
    let doc = describe::doc_of(d);
    let head = describe::headline(d);
    let span = describe::span_of(d);
    let r0 = JsonView::object();
    let v1 = JsonView::Str(rows::place(path, d.pos.line, d.pos.col));
    let r1 = r0.with("loc"@, v1);
    json::lemma_with(r0, "loc"@, v1);
    let v2 = JsonView::Str(
        match doc {
            Some(t) => head + "  ["@ + span + "]"@ + ("  — "@ + describe::shortened(t, 80)),
            None => head + "  ["@ + span + "]"@,
        },
    );
    let r2 = r1.with("label"@, v2);
    json::lemma_with(r1, "label"@, v2);
    let v3 = JsonView::Str("definition"@);
    let r3 = r2.with("role"@, v3);
    json::lemma_with(r2, "role"@, v3);
    let v4 = JsonView::Str(name);
    let r4 = r3.with("fqn"@, v4);
    json::lemma_with(r3, "fqn"@, v4);
    let v5 = JsonView::Str(describe::def_word(d));
    let r5 = r4.with("node_kind"@, v5);
    json::lemma_with(r4, "node_kind"@, v5);
    let v6 = JsonView::Str(describe::signature_of(d));
    let r6 = r5.with("signature"@, v6);
    json::lemma_with(r5, "signature"@, v6);
    let v7 = json::texts(text::views(d.decorators@));
    let r7 = r6.with("decorators"@, v7);
    json::lemma_with(r6, "decorators"@, v7);
    let v8 = json::text_or_null(doc);
    let r8 = r7.with("doc"@, v8);
    json::lemma_with(r7, "doc"@, v8);
    let v9 = JsonView::Arr(
        seq![JsonView::Num(d.pos.line as nat), JsonView::Num(d.end_line as nat)],
    );
    let r9 = r8.with("lines"@, v9);
    json::lemma_with(r8, "lines"@, v9);
    let r10 = r9.with("group"@, v3);
    json::lemma_with(r9, "group"@, v3);
    let v11 = json::texts(
        match doc {
            Some(t) => seq![head, span, "— "@ + describe::shortened(t, 80)],
            None => seq![head, span],
        },
    );
    let r11 = r10.with("cols"@, v11);
    json::lemma_with(r10, "cols"@, v11);
    assert(r0.get("observed_return"@) is None);
    if let Some(t) = describe::observed_return(led, name) {
        json::lemma_with(r11, "observed_return"@, JsonView::Str(t));
    }
}

/// Whether a row tells a relation of a class that there is.
pub open spec fn tells_of(h: Hierarchy, root: Seq<char>, row: JsonView) -> bool {
    let fqn = row.get_text("fqn"@);
    let relation = row.get_text("relation"@);
    ||| relation == Some("supertype"@) && fqn is Some && h.supers_of(root).contains(fqn->0)
    ||| relation == Some("supertype-external"@) && fqn is Some && text::views(
        h.external_bases.list(root),
    ).contains(fqn->0)
    ||| relation == Some("subtype"@) && fqn is Some && h.subclasses_of(root).contains(fqn->0)
    ||| relation == Some("overrides"@) && exists|other: Seq<char>, m: Seq<char>|
        fqn == Some(#[trigger] (other + "."@ + m)) && h.supers_of(root).contains(other)
            && text::views(h.methods.list(other)).contains(m) && text::views(
            h.methods.list(root),
        ).contains(m)
    ||| relation == Some("overridden-by"@) && exists|other: Seq<char>, m: Seq<char>|
        fqn == Some(#[trigger] (other + "."@ + m)) && h.subclasses_of(root).contains(other)
            && text::views(h.methods.list(other)).contains(m) && text::views(
            h.methods.list(root),
        ).contains(m)
}

proof fn lemma_tied_tells(
    files: Seq<FileIndex>,
    h: Hierarchy,
    root: Seq<char>,
    tie: Tie,
    others: Seq<Seq<char>>,
    k: int,
)
    requires
        0 <= k < structure_reports::ties(files, root, tie, others).len(),
        match tie {
            Tie::Super => others == h.supers_of(root),
            Tie::External => others == text::views(h.external_bases.list(root)),
            Tie::Sub => others == h.subclasses_of(root),
            Tie::Overrides(m) => text::views(h.methods.list(root)).contains(m) && others
                == hierarchy::with_member(h.methods, h.supers_of(root), m),
            Tie::OverriddenBy(m) => text::views(h.methods.list(root)).contains(m) && others
                == hierarchy::with_member(h.methods, h.subclasses_of(root), m),
        },
    ensures
        tells_of(h, root, structure_reports::ties(files, root, tie, others)[k]),
{
    let other = others[k];
    assert(others.contains(other));
    let here = structure_reports::class_loc(files, root);
    match tie {
        Tie::Super => lemma_tie_row(
            structure_reports::loc_or(files, other, here),
            "supertype "@ + other,
            "supertype"@,
            other,
            "supertypes"@,
            other,
        ),
        Tie::External => lemma_tie_row(
            here,
            "supertype "@ + other + " (external)"@,
            "supertype-external"@,
            other,
            "supertypes (external)"@,
            other,
        ),
        Tie::Sub => lemma_tie_row(
            structure_reports::loc_or(files, other, here),
            "subtype "@ + other,
            "subtype"@,
            other,
            "subtypes"@,
            other,
        ),
        Tie::Overrides(m) => {
            hierarchy::lemma_with_member(h.methods, h.supers_of(root), m, other);
            let mine = root + "."@ + m;
            let theirs = other + "."@ + m;
            lemma_tie_row(
                structure_reports::loc_or(files, mine, here),
                mine + " overrides "@ + theirs,
                "overrides"@,
                theirs,
                "overrides"@,
                mine + "  →  "@ + theirs,
            );
        },
        Tie::OverriddenBy(m) => {
            hierarchy::lemma_with_member(h.methods, h.subclasses_of(root), m, other);
            let mine = root + "."@ + m;
            let theirs = other + "."@ + m;
            lemma_tie_row(
                structure_reports::loc_or(files, theirs, here),
                theirs + " overrides "@ + mine,
                "overridden-by"@,
                theirs,
                "overridden by"@,
                theirs + "  →  "@ + mine,
            );
        },
    }
}

proof fn lemma_method_ties_tell(
    files: Seq<FileIndex>,
    h: Hierarchy,
    root: Seq<char>,
    methods: Seq<Seq<char>>,
    k: int,
)
    requires
        0 <= k < structure_reports::method_ties(files, h, root, methods).len(),
        forall|i: int|
            0 <= i < methods.len() ==> text::views(h.methods.list(root)).contains(
                #[trigger] methods[i],
            ),
    ensures
        tells_of(h, root, structure_reports::method_ties(files, h, root, methods)[k]),
    decreases methods.len(),
{
    let less = methods.drop_last();
    let m = methods.last();
    assert(text::views(h.methods.list(root)).contains(methods[methods.len() - 1]));
    let a = structure_reports::method_ties(files, h, root, less);
    let up = hierarchy::with_member(h.methods, h.supers_of(root), m);
    let down = hierarchy::with_member(h.methods, h.subclasses_of(root), m);
    let b = structure_reports::ties(files, root, Tie::Overrides(m), up);
    if k < a.len() {
        assert forall|i: int| 0 <= i < less.len() implies text::views(
            h.methods.list(root),
        ).contains(#[trigger] less[i]) by {
            assert(less[i] == methods[i]);
        }
        lemma_method_ties_tell(files, h, root, less, k);
    } else if k < a.len() + b.len() {
        lemma_tied_tells(files, h, root, Tie::Overrides(m), up, k - a.len());
    } else {
        lemma_tied_tells(files, h, root, Tie::OverriddenBy(m), down, k - a.len() - b.len());
    }
}

proof fn lemma_class_ties_tell(files: Seq<FileIndex>, h: Hierarchy, root: Seq<char>, k: int)
    requires
        0 <= k < structure_reports::class_ties(files, h, root).len(),
    ensures
        tells_of(h, root, structure_reports::class_ties(files, h, root)[k]),
{
    let out = text::views(h.external_bases.list(root));
    let a = structure_reports::ties(files, root, Tie::Super, h.supers_of(root));
    let b = structure_reports::ties(files, root, Tie::External, out);
    let c = structure_reports::ties(files, root, Tie::Sub, h.subclasses_of(root));
    let methods = structure_reports::ordered_methods(h, root);
    if k < a.len() {
        lemma_tied_tells(files, h, root, Tie::Super, h.supers_of(root), k);
    } else if k < a.len() + b.len() {
        lemma_tied_tells(files, h, root, Tie::External, out, k - a.len());
    } else if k < a.len() + b.len() + c.len() {
        lemma_tied_tells(
            files,
            h,
            root,
            Tie::Sub,
            h.subclasses_of(root),
            k - a.len() - b.len(),
        );
    } else {
        assert forall|i: int| 0 <= i < methods.len() implies text::views(
            h.methods.list(root),
        ).contains(#[trigger] methods[i]) by {
            assert(methods.contains(methods[i]));
            crate::sort::lemma_sorted_contains::<String>(
                text::views(h.methods.list(root)),
                methods[i],
            );
        }
        lemma_method_ties_tell(files, h, root, methods, k - a.len() - b.len() - c.len());
    }
}

proof fn lemma_all_ties_tell(
    files: Seq<FileIndex>,
    h: Hierarchy,
    roots: Seq<Seq<char>>,
    k: int,
) -> (m: int)
    requires
        0 <= k < structure_reports::all_ties(files, h, roots).len(),
    ensures
        0 <= m < roots.len(),
        tells_of(h, roots[m], structure_reports::all_ties(files, h, roots)[k]),
    decreases roots.len(),
{
    let less = roots.drop_last();
    let a = structure_reports::all_ties(files, h, less);
    if k < a.len() {
        lemma_all_ties_tell(files, h, less, k)
    } else {
        lemma_class_ties_tell(files, h, roots.last(), k - a.len());
        roots.len() - 1
    }
}

proof fn lemma_named_from(all: Seq<Seq<char>>, symbol: Seq<char>, m: int)
    requires
        0 <= m < structure_reports::classes_named(all, symbol).len(),
    ensures
        all.contains(structure_reports::classes_named(all, symbol)[m]),
        structure_reports::names_class(structure_reports::classes_named(all, symbol)[m], symbol),
    decreases all.len(),
{
    let less = all.drop_last();
    text::lemma_push_contains(less, all.last());
    assert(all =~= less.push(all.last()));
    if m < structure_reports::classes_named(less, symbol).len() {
        lemma_named_from(less, symbol, m);
    }
}

/// The report on classes tells nothing else: each row tells a relation that there is of a class
/// that the symbol names.
pub proof fn law_nothing_else_is_told(
    files: Seq<FileIndex>,
    h: Hierarchy,
    symbol: Seq<char>,
    k: int,
)
    requires
        0 <= k < structure_reports::hierarchy_view(files, h, symbol).results.len(),
    ensures
        exists|root: Seq<char>| #[trigger]
            h.anchor.keys().contains(root) && name_laws::ends_name(root, symbol) && tells_of(
                h,
                root,
                structure_reports::hierarchy_view(files, h, symbol).results[k],
            ),
{
    let roots = structure_reports::classes_named(h.anchor.keys(), symbol);
    let m = lemma_all_ties_tell(files, h, roots, k);
    lemma_named_from(h.anchor.keys(), symbol, m);
    law_class_is_named(roots[m], symbol);
    assert(h.anchor.keys().contains(roots[m]));
}

proof fn lemma_name_in(path: Seq<char>, defs: Seq<Def>, spot: Spot)
    ensures
        callgraph::name_in_defs(path, defs, spot) matches Some(n) ==> exists|j: int|
            0 <= j < defs.len() && model::callable(#[trigger] defs[j]) && spot == (
                path,
                defs[j].offset,
            ) && names::def_fqn(path, defs[j]) == n,
        callgraph::name_in_defs(path, defs, spot) is None ==> forall|j: int|
            0 <= j < defs.len() && model::callable(#[trigger] defs[j]) ==> spot != (
                path,
                defs[j].offset,
            ),
    decreases defs.len(),
{
    if defs.len() > 0 {
        let less = defs.drop_last();
        lemma_name_in(path, less, spot);
        assert(defs[defs.len() - 1] == defs.last());
        assert forall|j: int| 0 <= j < less.len() implies #[trigger] defs[j] == less[j] by {}
        if !(model::callable(defs.last()) && spot == (path, defs.last().offset)) {
            if let Some(n) = callgraph::name_in_defs(path, less, spot) {
                let j = choose|j: int|
                    0 <= j < less.len() && model::callable(#[trigger] less[j]) && spot == (
                        path,
                        less[j].offset,
                    ) && names::def_fqn(path, less[j]) == n;
                assert(defs[j] == less[j]);
            }
        }
    }
}

/// What stands at a spot goes by the name of a function or class that is defined there. Where
/// none is, nothing that has a name stands there.
pub proof fn law_name_of_a_spot(files: Seq<FileIndex>, spot: Spot)
    ensures
        callgraph::name_at(files, spot) matches Some(n) ==> exists|i: int, j: int|
            0 <= i < files.len() && 0 <= j < files[i].defs@.len() && model::callable(
                #[trigger] files[i].defs@[j],
            ) && spot == (files[i].path@, files[i].defs@[j].offset) && names::def_fqn(
                files[i].path@,
                files[i].defs@[j],
            ) == n,
        callgraph::name_at(files, spot) is None ==> forall|i: int, j: int|
            0 <= i < files.len() && 0 <= j < files[i].defs@.len() && model::callable(
                #[trigger] files[i].defs@[j],
            ) ==> spot != (files[i].path@, files[i].defs@[j].offset),
    decreases files.len(),
{
    if files.len() > 0 {
        let less = files.drop_last();
        let f = files.last();
        let n = files.len() - 1;
        law_name_of_a_spot(less, spot);
        lemma_name_in(f.path@, f.defs@, spot);
        assert(files[n] == f);
        assert forall|i: int, j: int|
            0 <= i < n && 0 <= j < files[i].defs@.len() implies #[trigger] files[i].defs@[j]
            == less[i].defs@[j] by {}
        if let Some(x) = callgraph::name_in_defs(f.path@, f.defs@, spot) {
            let j = choose|j: int|
                0 <= j < f.defs@.len() && model::callable(#[trigger] f.defs@[j]) && spot == (
                    f.path@,
                    f.defs@[j].offset,
                ) && names::def_fqn(f.path@, f.defs@[j]) == x;
            assert(files[n].defs@[j] == f.defs@[j]);
        } else if let Some(x) = callgraph::name_at(less, spot) {
            let (i, j) = choose|i: int, j: int|
                0 <= i < less.len() && 0 <= j < less[i].defs@.len() && model::callable(
                    #[trigger] less[i].defs@[j],
                ) && spot == (less[i].path@, less[i].defs@[j].offset) && names::def_fqn(
                    less[i].path@,
                    less[i].defs@[j],
                ) == x;
            assert(files[i].defs@[j] == less[i].defs@[j]);
        }
    }
}

/// What is next to a stop and has no definition in the files goes by its module and its own
/// name; a module goes by its own.
pub proof fn law_name_of_a_neighbour(files: Seq<FileIndex>, nb: NeighborView)
    ensures
        callgraph::name_at(files, nb.spot()) matches Some(n) ==> callgraph::label(files, nb) == n,
        callgraph::name_at(files, nb.spot()) is None && nb.kind == "module"@ ==> callgraph::label(
            files,
            nb,
        ) == names::fqn(nb.path, Seq::empty()),
        callgraph::name_at(files, nb.spot()) is None && nb.kind != "module"@ ==> callgraph::label(
            files,
            nb,
        ) == names::fqn(nb.path, seq![nb.name]),
{
    let c = names::components(nb.path);
    assert(c + Seq::<Seq<char>>::empty() =~= c);
    assert(c + seq![nb.name] =~= c.push(nb.name));
}

proof fn lemma_class_name_in(path: Seq<char>, defs: Seq<Def>, s: Spot)
    ensures
        hierarchy::class_name_in(path, defs, s) matches Some(n) ==> exists|j: int|
            0 <= j < defs.len() && (#[trigger] defs[j]).kind is Class && s == (path, defs[j].offset)
                && names::def_fqn(path, defs[j]) == n,
        hierarchy::class_name_in(path, defs, s) is None ==> forall|j: int|
            0 <= j < defs.len() && (#[trigger] defs[j]).kind is Class ==> s != (
                path,
                defs[j].offset,
            ),
    decreases defs.len(),
{
    if defs.len() > 0 {
        let less = defs.drop_last();
        lemma_class_name_in(path, less, s);
        assert(defs[defs.len() - 1] == defs.last());
        assert forall|j: int| 0 <= j < less.len() implies #[trigger] defs[j] == less[j] by {}
        if !(defs.last().kind is Class && s == (path, defs.last().offset)) {
            if let Some(n) = hierarchy::class_name_in(path, less, s) {
                let j = choose|j: int|
                    0 <= j < less.len() && (#[trigger] less[j]).kind is Class && s == (
                        path,
                        less[j].offset,
                    ) && names::def_fqn(path, less[j]) == n;
                assert(defs[j] == less[j]);
            }
        }
    }
}

/// A base is a class of the project just where a class is defined at its spot, and goes by the
/// name of that one.
pub proof fn law_class_of_a_spot(files: Seq<FileIndex>, s: Spot)
    ensures
        hierarchy::class_name_at(files, s) matches Some(n) ==> exists|i: int, j: int|
            0 <= i < files.len() && 0 <= j < files[i].defs@.len() && (
            #[trigger] files[i].defs@[j]).kind is Class && s == (
                files[i].path@,
                files[i].defs@[j].offset,
            ) && names::def_fqn(files[i].path@, files[i].defs@[j]) == n,
        hierarchy::class_name_at(files, s) is None ==> forall|i: int, j: int|
            0 <= i < files.len() && 0 <= j < files[i].defs@.len() && (
            #[trigger] files[i].defs@[j]).kind is Class ==> s != (
                files[i].path@,
                files[i].defs@[j].offset,
            ),
    decreases files.len(),
{
    if files.len() > 0 {
        let less = files.drop_last();
        let f = files.last();
        let n = files.len() - 1;
        law_class_of_a_spot(less, s);
        lemma_class_name_in(f.path@, f.defs@, s);
        assert(files[n] == f);
        assert forall|i: int, j: int|
            0 <= i < n && 0 <= j < files[i].defs@.len() implies #[trigger] files[i].defs@[j]
            == less[i].defs@[j] by {}
        if let Some(x) = hierarchy::class_name_in(f.path@, f.defs@, s) {
            let j = choose|j: int|
                0 <= j < f.defs@.len() && (#[trigger] f.defs@[j]).kind is Class && s == (
                    f.path@,
                    f.defs@[j].offset,
                ) && names::def_fqn(f.path@, f.defs@[j]) == x;
            assert(files[n].defs@[j] == f.defs@[j]);
        } else if let Some(x) = hierarchy::class_name_at(less, s) {
            let (i, j) = choose|i: int, j: int|
                0 <= i < less.len() && 0 <= j < less[i].defs@.len() && (
                #[trigger] less[i].defs@[j]).kind is Class && s == (
                    less[i].path@,
                    less[i].defs@[j].offset,
                ) && names::def_fqn(less[i].path@, less[i].defs@[j]) == x;
            assert(files[i].defs@[j] == less[i].defs@[j]);
        }
    }
}

proof fn lemma_class_spot_in(path: Seq<char>, defs: Seq<Def>, name: Seq<char>)
    ensures
        hierarchy::class_spot_in(path, defs, name) matches Some(d) ==> exists|j: int|
            0 <= j < defs.len() && #[trigger] defs[j] == d && d.kind is Class && names::def_fqn(
                path,
                d,
            ) == name,
        hierarchy::class_spot_in(path, defs, name) is None ==> forall|j: int|
            0 <= j < defs.len() && (#[trigger] defs[j]).kind is Class ==> names::def_fqn(
                path,
                defs[j],
            ) != name,
    decreases defs.len(),
{
    if defs.len() > 0 {
        let less = defs.drop_last();
        lemma_class_spot_in(path, less, name);
        assert(defs[defs.len() - 1] == defs.last());
        assert forall|j: int| 0 <= j < less.len() implies #[trigger] defs[j] == less[j] by {}
        if !(defs.last().kind is Class && names::def_fqn(path, defs.last()) == name) {
            if let Some(d) = hierarchy::class_spot_in(path, less, name) {
                let j = choose|j: int|
                    0 <= j < less.len() && #[trigger] less[j] == d && d.kind is Class
                        && names::def_fqn(path, d) == name;
                assert(defs[j] == less[j]);
            }
        }
    }
}

/// A name is that of a class just where a class that has it is defined; the class is one of
/// those.
pub proof fn law_class_of_a_name(files: Seq<FileIndex>, name: Seq<char>)
    ensures
        hierarchy::class_named(files, name) matches Some((path, d)) ==> exists|i: int, j: int|
            0 <= i < files.len() && 0 <= j < files[i].defs@.len() && #[trigger] files[i].defs@[j]
                == d && files[i].path@ == path && d.kind is Class && names::def_fqn(path, d) == name,
        hierarchy::class_named(files, name) is None ==> forall|i: int, j: int|
            0 <= i < files.len() && 0 <= j < files[i].defs@.len() && (
            #[trigger] files[i].defs@[j]).kind is Class ==> names::def_fqn(
                files[i].path@,
                files[i].defs@[j],
            ) != name,
    decreases files.len(),
{
    if files.len() > 0 {
        let less = files.drop_last();
        let f = files.last();
        let n = files.len() - 1;
        law_class_of_a_name(less, name);
        lemma_class_spot_in(f.path@, f.defs@, name);
        assert(files[n] == f);
        assert forall|i: int, j: int|
            0 <= i < n && 0 <= j < files[i].defs@.len() implies #[trigger] files[i].defs@[j]
            == less[i].defs@[j] by {}
        if let Some(d) = hierarchy::class_spot_in(f.path@, f.defs@, name) {
            let j = choose|j: int|
                0 <= j < f.defs@.len() && #[trigger] f.defs@[j] == d && d.kind is Class
                    && names::def_fqn(f.path@, d) == name;
            assert(files[n].defs@[j] == f.defs@[j]);
        } else if let Some((path, d)) = hierarchy::class_named(less, name) {
            let (i, j) = choose|i: int, j: int|
                0 <= i < less.len() && 0 <= j < less[i].defs@.len() && #[trigger] less[i].defs@[j]
                    == d && less[i].path@ == path && d.kind is Class && names::def_fqn(path, d)
                    == name;
            assert(files[i].defs@[j] == less[i].defs@[j]);
        }
    }
}

} // verus!
