//! What holds of everything that a symbol reaches.
use crate::callgraph::{Answers, Direction, GraphNode, NeighborView, NodeView, Reached, Spot, Stop};
use crate::callgraph;
use crate::model::FileIndex;
use crate::sort;
use crate::table::Table;
use crate::text;
use vstd::prelude::*;

verus! {

/// A walk whose last level reached nothing new reaches nothing more.
proof fn lemma_idle(
    files: Seq<FileIndex>,
    a: Answers,
    dir: Direction,
    starts: Seq<Stop>,
    n: nat,
    m: nat,
)
    requires
        n <= m,
        callgraph::walked(files, a, dir, starts, n).1.len() == 0,
    ensures
        callgraph::walked(files, a, dir, starts, m).0 == callgraph::walked(
            files,
            a,
            dir,
            starts,
            n,
        ).0,
        callgraph::walked(files, a, dir, starts, m).1.len() == 0,
    decreases m - n,
{
    if n < m {
        lemma_idle(files, a, dir, starts, n, (m - 1) as nat);
    }
}

/// Two walks that are over reached the same.
proof fn lemma_ends_agree(
    files: Seq<FileIndex>,
    a: Answers,
    dir: Direction,
    starts: Seq<Stop>,
    limit: Option<usize>,
    n: nat,
    m: nat,
)
    requires
        callgraph::walk_ends(files, a, dir, starts, limit, n),
        callgraph::walk_ends(files, a, dir, starts, limit, m),
    ensures
        callgraph::walked(files, a, dir, starts, n).0 == callgraph::walked(
            files,
            a,
            dir,
            starts,
            m,
        ).0,
{
    if n < m {
        lemma_idle(files, a, dir, starts, n, m);
    } else if m < n {
        lemma_idle(files, a, dir, starts, m, n);
    }
}

/// What a symbol reaches is one list of nodes, whatever walk finds it.
pub proof fn law_closure_is_unique(
    files: Seq<FileIndex>,
    a: Answers,
    dir: Direction,
    symbol: Seq<char>,
    limit: Option<usize>,
    x: Seq<NodeView>,
    y: Seq<NodeView>,
)
    requires
        callgraph::is_closure(files, a, dir, symbol, limit, x),
        callgraph::is_closure(files, a, dir, symbol, limit, y),
    ensures
        x == y,
{
    let starts = callgraph::start_stops(files, symbol);
    let n = choose|n: nat| #[trigger]
        callgraph::walk_ends(files, a, dir, starts, limit, n) && x == sort::sorted::<GraphNode>(
            callgraph::nodes_of(callgraph::walked(files, a, dir, starts, n).0),
        );
    let m = choose|m: nat| #[trigger]
        callgraph::walk_ends(files, a, dir, starts, limit, m) && y == sort::sorted::<GraphNode>(
            callgraph::nodes_of(callgraph::walked(files, a, dir, starts, m).0),
        );
    lemma_ends_agree(files, a, dir, starts, limit, n, m);
}

/// Whether a name is a root, or a node reached at a depth.
pub open spec fn stands_at(
    roots: Seq<Seq<char>>,
    nodes: Seq<NodeView>,
    name: Seq<char>,
    depth: int,
) -> bool {
    (depth == 0 && roots.contains(name)) || exists|i: int|
        0 <= i < nodes.len() && (#[trigger] nodes[i]).fqn == name && nodes[i].depth == depth
}

/// Whether nodes reached from roots are each named once, are no roots, lie
/// within a depth, and are each reached through one that is one step nearer.
pub open spec fn tidy(roots: Seq<Seq<char>>, nodes: Seq<NodeView>, deepest: nat) -> bool {
    &&& forall|i: int, j: int|
        0 <= i < j < nodes.len() ==> (#[trigger] nodes[i]).fqn != (#[trigger] nodes[j]).fqn
    &&& forall|i: int|
        0 <= i < nodes.len() ==> {
            &&& !roots.contains((#[trigger] nodes[i]).fqn)
            &&& 1 <= nodes[i].depth <= deepest
            &&& stands_at(roots, nodes, nodes[i].via, nodes[i].depth - 1)
        }
}

/// What stands somewhere among nodes stands there among more of them.
proof fn lemma_stands_on(
    roots: Seq<Seq<char>>,
    nodes: Seq<NodeView>,
    more: Seq<NodeView>,
    name: Seq<char>,
    depth: int,
)
    requires
        stands_at(roots, nodes, name, depth),
        nodes.len() <= more.len(),
        more.take(nodes.len() as int) == nodes,
    ensures
        stands_at(roots, more, name, depth),
{
    if !(depth == 0 && roots.contains(name)) {
        let i = choose|i: int|
            0 <= i < nodes.len() && (#[trigger] nodes[i]).fqn == name && nodes[i].depth == depth;
        assert(more.take(nodes.len() as int)[i] == more[i]);
        assert(more[i].fqn == name);
    }
}

/// Meeting neighbours of one that stands a step nearer keeps nodes tidy.
proof fn lemma_met_tidy(
    files: Seq<FileIndex>,
    roots: Seq<Seq<char>>,
    found: Seq<Reached>,
    via: Seq<char>,
    depth: nat,
    nbs: Seq<NeighborView>,
)
    requires
        depth >= 1,
        tidy(roots, callgraph::nodes_of(found), depth),
        stands_at(roots, callgraph::nodes_of(found), via, depth - 1),
    ensures
        tidy(
            roots,
            callgraph::nodes_of(callgraph::met(files, roots, found, via, depth, nbs)),
            depth,
        ),
        found.len() <= callgraph::met(files, roots, found, via, depth, nbs).len(),
        callgraph::met(files, roots, found, via, depth, nbs).take(found.len() as int) == found,
        forall|i: int|
            found.len() <= i < callgraph::met(files, roots, found, via, depth, nbs).len() ==> (
            #[trigger] callgraph::met(files, roots, found, via, depth, nbs)[i]).node.depth == depth,
    decreases nbs.len(),
{
    if nbs.len() == 0 {
        text::lemma_take_all(found);
    } else {
        lemma_met_tidy(files, roots, found, via, depth, nbs.drop_last());
        let before = callgraph::met(files, roots, found, via, depth, nbs.drop_last());
        let now = callgraph::met(files, roots, found, via, depth, nbs);
        let name = callgraph::label(files, nbs.last());
        assert(now.take(found.len() as int) =~= before.take(found.len() as int));
        if !callgraph::known(roots, before, name) {
            let old_nodes = callgraph::nodes_of(before);
            let nodes = callgraph::nodes_of(now);
            let last = nodes[nodes.len() - 1];
            assert(nodes =~= old_nodes.push(last));
            assert(nodes.take(old_nodes.len() as int) =~= old_nodes);
            assert(old_nodes.take(found.len() as int) =~= callgraph::nodes_of(found)) by {
                assert forall|i: int| 0 <= i < found.len() implies old_nodes[i]
                    == callgraph::nodes_of(found)[i] by {
                    assert(before.take(found.len() as int)[i] == found[i]);
                }
            }
            lemma_stands_on(roots, callgraph::nodes_of(found), old_nodes, via, depth - 1);
            lemma_stands_on(roots, old_nodes, nodes, via, depth - 1);
            assert forall|i: int| 0 <= i < nodes.len() implies {
                &&& !roots.contains((#[trigger] nodes[i]).fqn)
                &&& 1 <= nodes[i].depth <= depth
                &&& stands_at(roots, nodes, nodes[i].via, nodes[i].depth - 1)
            } by {
                if i < old_nodes.len() {
                    assert(nodes[i] == old_nodes[i]);
                    lemma_stands_on(
                        roots,
                        old_nodes,
                        nodes,
                        old_nodes[i].via,
                        old_nodes[i].depth - 1,
                    );
                }
            }
            assert forall|i: int, j: int| 0 <= i < j < nodes.len() implies (
            #[trigger] nodes[i]).fqn != (#[trigger] nodes[j]).fqn by {
                assert(nodes[i] == old_nodes[i]);
                assert(old_nodes[i] == before[i].node);
                if j < old_nodes.len() {
                    assert(nodes[j] == old_nodes[j]);
                }
            }
        }
    }
}

/// Meeting the neighbours of a level keeps nodes tidy.
proof fn lemma_level_tidy(
    files: Seq<FileIndex>,
    a: Answers,
    dir: Direction,
    roots: Seq<Seq<char>>,
    found: Seq<Reached>,
    level: Seq<Stop>,
    depth: nat,
)
    requires
        depth >= 1,
        tidy(roots, callgraph::nodes_of(found), depth),
        forall|i: int|
            0 <= i < level.len() ==> stands_at(
                roots,
                callgraph::nodes_of(found),
                (#[trigger] level[i]).fqn,
                depth - 1,
            ),
    ensures
        tidy(
            roots,
            callgraph::nodes_of(
                callgraph::level_met(files, a, dir, roots, found, level, depth),
            ),
            depth,
        ),
        found.len() <= callgraph::level_met(files, a, dir, roots, found, level, depth).len(),
        callgraph::level_met(files, a, dir, roots, found, level, depth).take(found.len() as int)
            == found,
        forall|i: int|
            found.len() <= i < callgraph::level_met(
                files,
                a,
                dir,
                roots,
                found,
                level,
                depth,
            ).len() ==> (#[trigger] callgraph::level_met(
                files,
                a,
                dir,
                roots,
                found,
                level,
                depth,
            )[i]).node.depth == depth,
    decreases level.len(),
{
    if level.len() == 0 {
        text::lemma_take_all(found);
    } else {
        let less = level.drop_last();
        assert forall|i: int| 0 <= i < less.len() implies stands_at(
            roots,
            callgraph::nodes_of(found),
            (#[trigger] less[i]).fqn,
            depth - 1,
        ) by {
            assert(less[i] == level[i]);
        }
        lemma_level_tidy(files, a, dir, roots, found, less, depth);
        let before = callgraph::level_met(files, a, dir, roots, found, less, depth);
        let stop = level.last();
        let nbs = callgraph::next_to(files, a, dir, stop);
        assert(stands_at(
            roots,
            callgraph::nodes_of(found),
            level[level.len() - 1].fqn,
            depth - 1,
        ));
        assert(callgraph::nodes_of(before).take(found.len() as int) =~= callgraph::nodes_of(found))
            by {
            assert forall|i: int| 0 <= i < found.len() implies callgraph::nodes_of(before)[i]
                == callgraph::nodes_of(found)[i] by {
                assert(before.take(found.len() as int)[i] == found[i]);
            }
        }
        lemma_stands_on(
            roots,
            callgraph::nodes_of(found),
            callgraph::nodes_of(before),
            stop.fqn,
            depth - 1,
        );
        lemma_met_tidy(files, roots, before, stop.fqn, depth, nbs);
        let now = callgraph::met(files, roots, before, stop.fqn, depth, nbs);
        assert(now.take(found.len() as int) =~= found) by {
            assert forall|i: int| 0 <= i < found.len() implies now[i] == found[i] by {
                assert(now.take(before.len() as int)[i] == before[i]);
                assert(before.take(found.len() as int)[i] == found[i]);
            }
        }
        assert forall|i: int| found.len() <= i < now.len() implies (#[trigger] now[i]).node.depth
            == depth by {
            if i < before.len() {
                assert(now.take(before.len() as int)[i] == before[i]);
            }
        }
    }
}

/// What a walk has reached is tidy, and its last stops stand at its depth.
proof fn lemma_walked_tidy(
    files: Seq<FileIndex>,
    a: Answers,
    dir: Direction,
    starts: Seq<Stop>,
    n: nat,
)
    ensures
        tidy(
            callgraph::stop_names(starts),
            callgraph::nodes_of(callgraph::walked(files, a, dir, starts, n).0),
            n,
        ),
        forall|i: int|
            0 <= i < callgraph::walked(files, a, dir, starts, n).1.len() ==> stands_at(
                callgraph::stop_names(starts),
                callgraph::nodes_of(callgraph::walked(files, a, dir, starts, n).0),
                (#[trigger] callgraph::walked(files, a, dir, starts, n).1[i]).fqn,
                n as int,
            ),
    decreases n,
{
    let roots = callgraph::stop_names(starts);
    if n == 0 {
        assert forall|i: int| 0 <= i < starts.len() implies roots.contains(
            (#[trigger] starts[i]).fqn,
        ) by {
            assert(roots[i] == starts[i].fqn);
        }
    } else {
        let m = (n - 1) as nat;
        lemma_walked_tidy(files, a, dir, starts, m);
        let (found, level) = callgraph::walked(files, a, dir, starts, m);
        let nodes = callgraph::nodes_of(found);
        assert(tidy(roots, nodes, n));
        lemma_level_tidy(files, a, dir, roots, found, level, n);
        let now = callgraph::level_met(files, a, dir, roots, found, level, n);
        let fresh = now.skip(found.len() as int);
        let stops = callgraph::stops_of(fresh);
        assert forall|i: int| 0 <= i < stops.len() implies stands_at(
            roots,
            callgraph::nodes_of(now),
            (#[trigger] stops[i]).fqn,
            n as int,
        ) by {
            let k = found.len() + i;
            assert(now[k].node.depth == n);
            assert(callgraph::nodes_of(now)[k].fqn == stops[i].fqn);
        }
    }
}

/// What a symbol reaches comes by depth and name; each node has a name of its
/// own, is none of the roots, lies within the limit, and is reached through a
/// root or node that is one step nearer.
pub proof fn law_closure_is_tidy(
    files: Seq<FileIndex>,
    a: Answers,
    dir: Direction,
    symbol: Seq<char>,
    limit: Option<usize>,
    nodes: Seq<NodeView>,
)
    requires
        callgraph::is_closure(files, a, dir, symbol, limit, nodes),
    ensures
        sort::in_order::<GraphNode>(nodes),
        exists|deepest: nat| #[trigger]
            tidy(callgraph::roots_named(files, symbol), nodes, deepest) && (limit is Some ==> deepest
                <= limit->0),
{
    let starts = callgraph::start_stops(files, symbol);
    let roots = callgraph::stop_names(starts);
    let n = choose|n: nat| #[trigger]
        callgraph::walk_ends(files, a, dir, starts, limit, n) && nodes == sort::sorted::<GraphNode>(
            callgraph::nodes_of(callgraph::walked(files, a, dir, starts, n).0),
        );
    let raw = callgraph::nodes_of(callgraph::walked(files, a, dir, starts, n).0);
    lemma_walked_tidy(files, a, dir, starts, n);
    sort::lemma_sorted::<GraphNode>(raw);
    lemma_sorted_tidy(roots, raw, n);
    assert(tidy(callgraph::roots_named(files, symbol), nodes, n));
}

/// Sorting keeps nodes tidy.
proof fn lemma_sorted_tidy(roots: Seq<Seq<char>>, raw: Seq<NodeView>, deepest: nat)
    requires
        tidy(roots, raw, deepest),
    ensures
        tidy(roots, sort::sorted::<GraphNode>(raw), deepest),
{
    let nodes = sort::sorted::<GraphNode>(raw);
    sort::lemma_sorted::<GraphNode>(raw);
    assert(raw.no_duplicates()) by {
        assert forall|i: int, j: int|
            0 <= i < raw.len() && 0 <= j < raw.len() && i != j implies raw[i] != raw[j] by {
            if i < j {
                assert(raw[i].fqn != raw[j].fqn);
            } else {
                assert(raw[j].fqn != raw[i].fqn);
            }
        }
    }
    raw.lemma_multiset_has_no_duplicates();
    assert(nodes.no_duplicates()) by {
        nodes.lemma_multiset_has_no_duplicates_conv();
    }
    assert forall|i: int| 0 <= i < nodes.len() implies raw.contains(#[trigger] nodes[i]) by {
        assert(nodes.contains(nodes[i]));
        sort::lemma_sorted_contains::<GraphNode>(raw, nodes[i]);
    }
    assert forall|i: int, j: int| 0 <= i < j < nodes.len() implies (#[trigger] nodes[i]).fqn != (
    #[trigger] nodes[j]).fqn by {
        assert(raw.contains(nodes[i]) && raw.contains(nodes[j]));
        let p = choose|p: int| 0 <= p < raw.len() && raw[p] == nodes[i];
        let q = choose|q: int| 0 <= q < raw.len() && raw[q] == nodes[j];
        assert(nodes[i] != nodes[j]);
        if p < q {
            assert(raw[p].fqn != raw[q].fqn);
        } else {
            assert(raw[q].fqn != raw[p].fqn);
        }
    }
    assert forall|i: int| 0 <= i < nodes.len() implies {
        &&& !roots.contains((#[trigger] nodes[i]).fqn)
        &&& 1 <= nodes[i].depth <= deepest
        &&& stands_at(roots, nodes, nodes[i].via, nodes[i].depth - 1)
    } by {
        let p = choose|p: int| 0 <= p < raw.len() && raw[p] == nodes[i];
        assert(stands_at(roots, raw, raw[p].via, raw[p].depth - 1));
        if !(raw[p].depth == 1 && roots.contains(raw[p].via)) {
            let q = choose|q: int|
                0 <= q < raw.len() && (#[trigger] raw[q]).fqn == raw[p].via && raw[q].depth
                    == raw[p].depth - 1;
            assert(raw.contains(raw[q]));
            sort::lemma_sorted_contains::<GraphNode>(raw, raw[q]);
            let k = choose|k: int| 0 <= k < nodes.len() && nodes[k] == raw[q];
            assert(nodes[k].fqn == nodes[i].via);
        }
    }
}

/// Whether a neighbour is shown as a node.
pub open spec fn shown_as(files: Seq<FileIndex>, nb: NeighborView, node: NodeView) -> bool {
    &&& callgraph::label(files, nb) == node.fqn
    &&& nb.path == node.path
    &&& nb.line == node.line
    &&& nb.col == node.col
    &&& nb.kind == node.kind
}

/// Whether one of the neighbours is shown as a node.
pub open spec fn one_shown(
    files: Seq<FileIndex>,
    nbs: Seq<NeighborView>,
    node: NodeView,
) -> bool {
    exists|k: int| 0 <= k < nbs.len() && shown_as(files, #[trigger] nbs[k], node)
}

/// Whether a node is a direct neighbour of a stop.
pub open spec fn leads(
    files: Seq<FileIndex>,
    a: Answers,
    dir: Direction,
    from: Stop,
    node: NodeView,
) -> bool {
    one_shown(files, callgraph::next_to(files, a, dir, from), node)
}

/// Whether a name is that of a root or of a node.
pub open spec fn named(roots: Seq<Seq<char>>, nodes: Seq<NodeView>, name: Seq<char>) -> bool {
    roots.contains(name) || exists|i: int|
        0 <= i < nodes.len() && (#[trigger] nodes[i]).fqn == name
}

/// Whether a stop is a start, at depth zero, or where a node of that depth stands.
pub open spec fn on_level(
    starts: Seq<Stop>,
    nodes: Seq<NodeView>,
    at: spec_fn(NodeView) -> Stop,
    from: Stop,
    depth: int,
) -> bool {
    (depth == 0 && starts.contains(from)) || exists|v: NodeView| #[trigger]
        nodes.contains(v) && v.depth == depth && at(v) == from
}

/// Whether each node, standing where `at` says, is a direct neighbour of a start or of
/// a node one step nearer: the one that it is reached through.
pub open spec fn by_steps(
    files: Seq<FileIndex>,
    a: Answers,
    dir: Direction,
    starts: Seq<Stop>,
    nodes: Seq<NodeView>,
    at: spec_fn(NodeView) -> Stop,
) -> bool {
    forall|v: NodeView| #[trigger]
        nodes.contains(v) ==> {
            &&& at(v).fqn == v.fqn
            &&& at(v).spot.0 == v.path
            &&& exists|from: Stop| #[trigger]
                on_level(starts, nodes, at, from, v.depth - 1) && from.fqn == v.via && leads(
                    files,
                    a,
                    dir,
                    from,
                    v,
                )
        }
}

/// Whether no step within the limit leaves the roots and nodes.
pub open spec fn no_step_leaves(
    files: Seq<FileIndex>,
    a: Answers,
    dir: Direction,
    starts: Seq<Stop>,
    limit: Option<usize>,
    nodes: Seq<NodeView>,
    at: spec_fn(NodeView) -> Stop,
) -> bool {
    forall|from: Stop, depth: int, k: int|
        #![trigger on_level(starts, nodes, at, from, depth), callgraph::next_to(files, a, dir, from)[k]]
        on_level(starts, nodes, at, from, depth) && (limit is Some ==> depth < limit->0) && 0 <= k
            < callgraph::next_to(files, a, dir, from).len() ==> named(
            callgraph::stop_names(starts),
            nodes,
            callgraph::label(files, callgraph::next_to(files, a, dir, from)[k]),
        )
}

/// What was known stays known.
proof fn lemma_known_on(
    roots: Seq<Seq<char>>,
    found: Seq<Reached>,
    more: Seq<Reached>,
    name: Seq<char>,
)
    requires
        callgraph::known(roots, found, name),
        found.len() <= more.len(),
        more.take(found.len() as int) == found,
    ensures
        callgraph::known(roots, more, name),
{
    if !roots.contains(name) {
        let i = choose|i: int| 0 <= i < found.len() && (#[trigger] found[i]).node.fqn == name;
        assert(more.take(found.len() as int)[i] == more[i]);
        assert(more[i].node.fqn == name);
    }
}

/// What meeting neighbours adds is among them, and all of them are known then.
proof fn lemma_met_steps(
    files: Seq<FileIndex>,
    roots: Seq<Seq<char>>,
    found: Seq<Reached>,
    via: Seq<char>,
    depth: nat,
    nbs: Seq<NeighborView>,
)
    ensures
        ({
            let now = callgraph::met(files, roots, found, via, depth, nbs);
            &&& found.len() <= now.len()
            &&& now.take(found.len() as int) == found
            &&& forall|i: int|
                found.len() <= i < now.len() ==> {
                    &&& (#[trigger] now[i]).node.via == via
                    &&& now[i].node.depth == depth
                    &&& one_shown(files, nbs, now[i].node)
                }
            &&& forall|k: int|
                0 <= k < nbs.len() ==> callgraph::known(
                    roots,
                    now,
                    callgraph::label(files, #[trigger] nbs[k]),
                )
        }),
    decreases nbs.len(),
{
    let now = callgraph::met(files, roots, found, via, depth, nbs);
    if nbs.len() == 0 {
        text::lemma_take_all(found);
    } else {
        let less = nbs.drop_last();
        lemma_met_steps(files, roots, found, via, depth, less);
        let before = callgraph::met(files, roots, found, via, depth, less);
        let name = callgraph::label(files, nbs.last());
        assert(now.take(before.len() as int) =~= before);
        assert(now.take(found.len() as int) =~= before.take(found.len() as int));
        assert forall|i: int| found.len() <= i < now.len() implies {
            &&& (#[trigger] now[i]).node.via == via
            &&& now[i].node.depth == depth
            &&& one_shown(files, nbs, now[i].node)
        } by {
            if i < before.len() {
                assert(now[i] == before[i]);
                let k = choose|k: int|
                    0 <= k < less.len() && shown_as(files, #[trigger] less[k], before[i].node);
                assert(nbs[k] == less[k]);
            } else {
                assert(shown_as(files, nbs[nbs.len() - 1], now[i].node));
            }
        }
        assert forall|k: int| 0 <= k < nbs.len() implies callgraph::known(
            roots,
            now,
            callgraph::label(files, #[trigger] nbs[k]),
        ) by {
            if k < less.len() {
                assert(less[k] == nbs[k]);
                lemma_known_on(roots, before, now, callgraph::label(files, less[k]));
            } else if callgraph::known(roots, before, name) {
                lemma_known_on(roots, before, now, name);
            } else {
                assert(now[before.len() as int].node.fqn == name);
            }
        }
    }
}

/// What meeting the neighbours of a level adds is next to one of its stops, and all
/// that is next to them is known then.
proof fn lemma_level_steps(
    files: Seq<FileIndex>,
    a: Answers,
    dir: Direction,
    roots: Seq<Seq<char>>,
    found: Seq<Reached>,
    level: Seq<Stop>,
    depth: nat,
)
    ensures
        ({
            let now = callgraph::level_met(files, a, dir, roots, found, level, depth);
            &&& found.len() <= now.len()
            &&& now.take(found.len() as int) == found
            &&& forall|i: int|
                found.len() <= i < now.len() ==> (#[trigger] now[i]).node.depth == depth && exists|
                    j: int,
                |
                    0 <= j < level.len() && (#[trigger] level[j]).fqn == now[i].node.via && leads(
                        files,
                        a,
                        dir,
                        level[j],
                        now[i].node,
                    )
            &&& forall|j: int, k: int|
                0 <= j < level.len() && 0 <= k < callgraph::next_to(files, a, dir, level[j]).len()
                    ==> callgraph::known(
                    roots,
                    now,
                    callgraph::label(
                        files,
                        #[trigger] callgraph::next_to(files, a, dir, level[j])[k],
                    ),
                )
        }),
    decreases level.len(),
{
    let now = callgraph::level_met(files, a, dir, roots, found, level, depth);
    if level.len() == 0 {
        text::lemma_take_all(found);
    } else {
        let less = level.drop_last();
        let stop = level.last();
        let nbs = callgraph::next_to(files, a, dir, stop);
        lemma_level_steps(files, a, dir, roots, found, less, depth);
        let before = callgraph::level_met(files, a, dir, roots, found, less, depth);
        lemma_met_steps(files, roots, before, stop.fqn, depth, nbs);
        assert(now.take(found.len() as int) =~= found) by {
            assert forall|i: int| 0 <= i < found.len() implies now[i] == found[i] by {
                assert(now.take(before.len() as int)[i] == before[i]);
                assert(before.take(found.len() as int)[i] == found[i]);
            }
        }
        assert forall|i: int| found.len() <= i < now.len() implies (#[trigger] now[i]).node.depth
            == depth && exists|j: int|
            0 <= j < level.len() && (#[trigger] level[j]).fqn == now[i].node.via && leads(
                files,
                a,
                dir,
                level[j],
                now[i].node,
            ) by {
            if i < before.len() {
                assert(now.take(before.len() as int)[i] == before[i]);
                let j = choose|j: int|
                    0 <= j < less.len() && (#[trigger] less[j]).fqn == before[i].node.via && leads(
                        files,
                        a,
                        dir,
                        less[j],
                        before[i].node,
                    );
                assert(level[j] == less[j]);
            } else {
                assert(level[level.len() - 1] == stop);
            }
        }
        assert forall|j: int, k: int|
            0 <= j < level.len() && 0 <= k < callgraph::next_to(
                files,
                a,
                dir,
                level[j],
            ).len() implies callgraph::known(
            roots,
            now,
            callgraph::label(files, #[trigger] callgraph::next_to(files, a, dir, level[j])[k]),
        ) by {
            if j < less.len() {
                assert(less[j] == level[j]);
                lemma_known_on(
                    roots,
                    before,
                    now,
                    callgraph::label(files, callgraph::next_to(files, a, dir, less[j])[k]),
                );
            }
        }
    }
}

/// Whether a stop is a start, at depth zero, or that of one reached at a depth.
spec fn at_depth(starts: Seq<Stop>, found: Seq<Reached>, from: Stop, depth: int) -> bool {
    (depth == 0 && starts.contains(from)) || exists|j: int|
        0 <= j < found.len() && (#[trigger] found[j]).node.depth == depth && found[j].stop() == from
}

/// Whether a node is a direct neighbour of what stands one step nearer: of the one
/// that it is reached through.
spec fn reached_from(
    files: Seq<FileIndex>,
    a: Answers,
    dir: Direction,
    starts: Seq<Stop>,
    found: Seq<Reached>,
    node: NodeView,
) -> bool {
    exists|from: Stop|
        at_depth(starts, found, from, node.depth - 1) && from.fqn == node.via && #[trigger] leads(
            files,
            a,
            dir,
            from,
            node,
        )
}

/// Whether all reached is reached by steps.
spec fn stepped(
    files: Seq<FileIndex>,
    a: Answers,
    dir: Direction,
    starts: Seq<Stop>,
    found: Seq<Reached>,
) -> bool {
    forall|i: int|
        0 <= i < found.len() ==> reached_from(
            files,
            a,
            dir,
            starts,
            found,
            (#[trigger] found[i]).node,
        )
}

/// Whether a level is all that stands at a depth.
spec fn is_level(starts: Seq<Stop>, found: Seq<Reached>, level: Seq<Stop>, depth: int) -> bool {
    forall|from: Stop| #[trigger]
        level.contains(from) <==> at_depth(starts, found, from, depth)
}

/// Whether no step from what lies nearer than a depth leaves what is known.
spec fn held_in(
    files: Seq<FileIndex>,
    a: Answers,
    dir: Direction,
    starts: Seq<Stop>,
    found: Seq<Reached>,
    depth: int,
) -> bool {
    forall|from: Stop, d: int, k: int|
        #![trigger at_depth(starts, found, from, d), callgraph::next_to(files, a, dir, from)[k]]
        at_depth(starts, found, from, d) && d < depth && 0 <= k < callgraph::next_to(
            files,
            a,
            dir,
            from,
        ).len() ==> callgraph::known(
            callgraph::stop_names(starts),
            found,
            callgraph::label(files, callgraph::next_to(files, a, dir, from)[k]),
        )
}

/// What stands at a depth stays there when one level more is added; and nothing new
/// stands at a depth before it.
proof fn lemma_depths_stay(
    starts: Seq<Stop>,
    found: Seq<Reached>,
    now: Seq<Reached>,
    depth: int,
    from: Stop,
    d: int,
)
    requires
        found.len() <= now.len(),
        now.take(found.len() as int) == found,
        forall|i: int| found.len() <= i < now.len() ==> (#[trigger] now[i]).node.depth == depth,
    ensures
        at_depth(starts, found, from, d) ==> at_depth(starts, now, from, d),
        d != depth && at_depth(starts, now, from, d) ==> at_depth(starts, found, from, d),
{
    assert forall|i: int| 0 <= i < found.len() implies #[trigger] now[i] == found[i] by {
        assert(now.take(found.len() as int)[i] == found[i]);
    }
    if at_depth(starts, found, from, d) && !(d == 0 && starts.contains(from)) {
        let j = choose|j: int|
            0 <= j < found.len() && (#[trigger] found[j]).node.depth == d && found[j].stop()
                == from;
        assert(now[j].node.depth == d);
    }
    if d != depth && at_depth(starts, now, from, d) && !(d == 0 && starts.contains(from)) {
        let j = choose|j: int|
            0 <= j < now.len() && (#[trigger] now[j]).node.depth == d && now[j].stop() == from;
        assert(found[j].node.depth == d && found[j].stop() == from);
    }
}

proof fn lemma_stepped_on(
    files: Seq<FileIndex>,
    a: Answers,
    dir: Direction,
    starts: Seq<Stop>,
    found: Seq<Reached>,
    level: Seq<Stop>,
    depth: nat,
)
    requires
        depth >= 1,
        stepped(files, a, dir, starts, found),
        is_level(starts, found, level, depth - 1),
    ensures
        stepped(
            files,
            a,
            dir,
            starts,
            callgraph::level_met(
                files,
                a,
                dir,
                callgraph::stop_names(starts),
                found,
                level,
                depth,
            ),
        ),
{
    let roots = callgraph::stop_names(starts);
    let now = callgraph::level_met(files, a, dir, roots, found, level, depth);
    lemma_level_steps(files, a, dir, roots, found, level, depth);
    assert forall|i: int| 0 <= i < now.len() implies reached_from(
        files,
        a,
        dir,
        starts,
        now,
        (#[trigger] now[i]).node,
    ) by {
        if i < found.len() {
            assert(now.take(found.len() as int)[i] == found[i]);
            assert(reached_from(files, a, dir, starts, found, found[i].node));
            let from = choose|from: Stop|
                at_depth(starts, found, from, found[i].node.depth - 1) && from.fqn
                    == found[i].node.via && #[trigger] leads(files, a, dir, from, found[i].node);
            lemma_depths_stay(starts, found, now, depth as int, from, found[i].node.depth - 1);
            assert(leads(files, a, dir, from, now[i].node));
        } else {
            let j = choose|j: int|
                0 <= j < level.len() && (#[trigger] level[j]).fqn == now[i].node.via && leads(
                    files,
                    a,
                    dir,
                    level[j],
                    now[i].node,
                );
            assert(level.contains(level[j]));
            lemma_depths_stay(starts, found, now, depth as int, level[j], depth - 1);
            assert(leads(files, a, dir, level[j], now[i].node));
        }
    }
}

proof fn lemma_held_on(
    files: Seq<FileIndex>,
    a: Answers,
    dir: Direction,
    starts: Seq<Stop>,
    found: Seq<Reached>,
    level: Seq<Stop>,
    depth: nat,
)
    requires
        depth >= 1,
        held_in(files, a, dir, starts, found, depth - 1),
        is_level(starts, found, level, depth - 1),
    ensures
        held_in(
            files,
            a,
            dir,
            starts,
            callgraph::level_met(
                files,
                a,
                dir,
                callgraph::stop_names(starts),
                found,
                level,
                depth,
            ),
            depth as int,
        ),
{
    let roots = callgraph::stop_names(starts);
    let now = callgraph::level_met(files, a, dir, roots, found, level, depth);
    lemma_level_steps(files, a, dir, roots, found, level, depth);
    assert forall|from: Stop, d: int, k: int|
        #![trigger at_depth(starts, now, from, d), callgraph::next_to(files, a, dir, from)[k]]
        at_depth(starts, now, from, d) && d < depth && 0 <= k < callgraph::next_to(
            files,
            a,
            dir,
            from,
        ).len() implies callgraph::known(
        roots,
        now,
        callgraph::label(files, callgraph::next_to(files, a, dir, from)[k]),
    ) by {
        lemma_depths_stay(starts, found, now, depth as int, from, d);
        let name = callgraph::label(files, callgraph::next_to(files, a, dir, from)[k]);
        if d < depth - 1 {
            assert(callgraph::known(roots, found, name));
            lemma_known_on(roots, found, now, name);
        } else {
            assert(level.contains(from));
            let j = choose|j: int| 0 <= j < level.len() && level[j] == from;
            assert(callgraph::known(
                roots,
                now,
                callgraph::label(files, callgraph::next_to(files, a, dir, level[j])[k]),
            ));
        }
    }
}

proof fn lemma_next_level(
    files: Seq<FileIndex>,
    a: Answers,
    dir: Direction,
    starts: Seq<Stop>,
    found: Seq<Reached>,
    level: Seq<Stop>,
    depth: nat,
)
    requires
        depth >= 1,
        forall|i: int| 0 <= i < found.len() ==> (#[trigger] found[i]).node.depth < depth,
    ensures
        ({
            let now = callgraph::level_met(
                files,
                a,
                dir,
                callgraph::stop_names(starts),
                found,
                level,
                depth,
            );
            is_level(
                starts,
                now,
                callgraph::stops_of(now.skip(found.len() as int)),
                depth as int,
            )
        }),
{
    let roots = callgraph::stop_names(starts);
    let now = callgraph::level_met(files, a, dir, roots, found, level, depth);
    let fresh = now.skip(found.len() as int);
    let next = callgraph::stops_of(fresh);
    lemma_level_steps(files, a, dir, roots, found, level, depth);
    assert forall|from: Stop| #[trigger] next.contains(from) <==> at_depth(
        starts,
        now,
        from,
        depth as int,
    ) by {
        if next.contains(from) {
            let i = choose|i: int| 0 <= i < next.len() && next[i] == from;
            let j = found.len() + i;
            assert(fresh[i] == now[j]);
            assert(now[j].node.depth == depth && now[j].stop() == from);
        }
        if at_depth(starts, now, from, depth as int) {
            let j = choose|j: int|
                0 <= j < now.len() && (#[trigger] now[j]).node.depth == depth && now[j].stop()
                    == from;
            if j < found.len() {
                assert(now.take(found.len() as int)[j] == found[j]);
            }
            assert(fresh[j - found.len()] == now[j]);
            assert(next[j - found.len()] == from);
        }
    }
}

/// After `n` levels all reached is reached by steps, the last level is all that stands
/// at its depth, and no step from a nearer one leaves what is known.
proof fn lemma_spanned(
    files: Seq<FileIndex>,
    a: Answers,
    dir: Direction,
    starts: Seq<Stop>,
    n: nat,
)
    ensures
        stepped(files, a, dir, starts, callgraph::walked(files, a, dir, starts, n).0),
        is_level(
            starts,
            callgraph::walked(files, a, dir, starts, n).0,
            callgraph::walked(files, a, dir, starts, n).1,
            n as int,
        ),
        held_in(files, a, dir, starts, callgraph::walked(files, a, dir, starts, n).0, n as int),
    decreases n,
{
    if n > 0 {
        let m = (n - 1) as nat;
        lemma_spanned(files, a, dir, starts, m);
        lemma_walked_tidy(files, a, dir, starts, m);
        let (found, level) = callgraph::walked(files, a, dir, starts, m);
        lemma_stepped_on(files, a, dir, starts, found, level, n);
        lemma_held_on(files, a, dir, starts, found, level, n);
        assert forall|i: int| 0 <= i < found.len() implies (#[trigger] found[i]).node.depth < n by {
            assert(callgraph::nodes_of(found)[i].depth <= m);
        }
        lemma_next_level(files, a, dir, starts, found, level, n);
    } else {
        assert(held_in(files, a, dir, starts, Seq::empty(), 0)) by {
            assert forall|from: Stop, d: int| #[trigger]
                at_depth(starts, Seq::empty(), from, d) implies d == 0 by {}
        }
    }
}

/// The stop of the one reached under a name.
spec fn stop_in(found: Seq<Reached>, name: Seq<char>) -> Stop {
    let i = choose|i: int| 0 <= i < found.len() && (#[trigger] found[i]).node.fqn == name;
    found[i].stop()
}

/// What a symbol reaches is all that steps lead to: each node is a direct neighbour of
/// a start or of a node one step nearer, and every direct neighbour of a start or
/// node, within the limit, has the name of a root or of a node.
pub proof fn law_closure_is_all_that_steps_reach(
    files: Seq<FileIndex>,
    a: Answers,
    dir: Direction,
    symbol: Seq<char>,
    limit: Option<usize>,
    nodes: Seq<NodeView>,
)
    requires
        callgraph::is_closure(files, a, dir, symbol, limit, nodes),
    ensures
        exists|at: spec_fn(NodeView) -> Stop|
            by_steps(files, a, dir, callgraph::start_stops(files, symbol), nodes, at)
                && #[trigger] no_step_leaves(
                files,
                a,
                dir,
                callgraph::start_stops(files, symbol),
                limit,
                nodes,
                at,
            ),
{
    let starts = callgraph::start_stops(files, symbol);
    let roots = callgraph::stop_names(starts);
    let n = choose|n: nat| #[trigger]
        callgraph::walk_ends(files, a, dir, starts, limit, n) && nodes == sort::sorted::<GraphNode>(
            callgraph::nodes_of(callgraph::walked(files, a, dir, starts, n).0),
        );
    let (found, level) = callgraph::walked(files, a, dir, starts, n);
    let raw = callgraph::nodes_of(found);
    lemma_spanned(files, a, dir, starts, n);
    lemma_walked_tidy(files, a, dir, starts, n);
    let at = |v: NodeView| stop_in(found, v.fqn);
    assert forall|i: int| 0 <= i < found.len() implies {
        &&& at((#[trigger] found[i]).node) == found[i].stop()
        &&& nodes.contains(found[i].node)
        &&& 1 <= found[i].node.depth <= n
    } by {
        let j = choose|j: int|
            0 <= j < found.len() && (#[trigger] found[j]).node.fqn == found[i].node.fqn;
        assert(raw[i] == found[i].node && raw[j] == found[j].node);
        if i < j {
            assert(raw[i].fqn != raw[j].fqn);
        } else if j < i {
            assert(raw[j].fqn != raw[i].fqn);
        }
        assert(raw.contains(raw[i]));
        sort::lemma_sorted_contains::<GraphNode>(raw, raw[i]);
    }
    assert forall|v: NodeView| #[trigger] nodes.contains(v) implies exists|i: int|
        0 <= i < found.len() && (#[trigger] found[i]).node == v by {
        sort::lemma_sorted_contains::<GraphNode>(raw, v);
        let i = choose|i: int| 0 <= i < raw.len() && raw[i] == v;
        assert(found[i].node == v);
    }
    assert forall|from: Stop, d: int| #[trigger]
        at_depth(starts, found, from, d) <==> on_level(starts, nodes, at, from, d) by {
        if at_depth(starts, found, from, d) && !(d == 0 && starts.contains(from)) {
            let j = choose|j: int|
                0 <= j < found.len() && (#[trigger] found[j]).node.depth == d && found[j].stop()
                    == from;
            assert(nodes.contains(found[j].node));
        }
        if on_level(starts, nodes, at, from, d) && !(d == 0 && starts.contains(from)) {
            let v = choose|v: NodeView| #[trigger]
                nodes.contains(v) && v.depth == d && at(v) == from;
            let i = choose|i: int| 0 <= i < found.len() && (#[trigger] found[i]).node == v;
            assert(found[i].node.depth == d && found[i].stop() == from);
        }
    }
    assert forall|v: NodeView| #[trigger] nodes.contains(v) implies {
        &&& at(v).fqn == v.fqn
        &&& at(v).spot.0 == v.path
        &&& exists|from: Stop| #[trigger]
            on_level(starts, nodes, at, from, v.depth - 1) && from.fqn == v.via && leads(
                files,
                a,
                dir,
                from,
                v,
            )
    } by {
        let i = choose|i: int| 0 <= i < found.len() && (#[trigger] found[i]).node == v;
        assert(reached_from(files, a, dir, starts, found, found[i].node));
        let from = choose|from: Stop|
            at_depth(starts, found, from, found[i].node.depth - 1) && from.fqn == found[i].node.via
                && #[trigger] leads(files, a, dir, from, found[i].node);
        assert(on_level(starts, nodes, at, from, v.depth - 1));
    }
    assert forall|from: Stop, depth: int, k: int|
        #![trigger on_level(starts, nodes, at, from, depth), callgraph::next_to(files, a, dir, from)[k]]
        on_level(starts, nodes, at, from, depth) && (limit is Some ==> depth < limit->0) && 0 <= k
            < callgraph::next_to(files, a, dir, from).len() implies named(
        roots,
        nodes,
        callgraph::label(files, callgraph::next_to(files, a, dir, from)[k]),
    ) by {
        assert(at_depth(starts, found, from, depth));
        assert(depth <= n);
        if depth == n {
            assert(level.contains(from));
        }
        let name = callgraph::label(files, callgraph::next_to(files, a, dir, from)[k]);
        assert(callgraph::known(roots, found, name));
        if !roots.contains(name) {
            let i = choose|i: int| 0 <= i < found.len() && (#[trigger] found[i]).node.fqn == name;
            assert(nodes.contains(found[i].node));
            let j = choose|j: int| 0 <= j < nodes.len() && nodes[j] == found[i].node;
            assert(nodes[j].fqn == name);
        }
    }
    assert(by_steps(files, a, dir, starts, nodes, at));
    assert(no_step_leaves(files, a, dir, starts, limit, nodes, at));
}

/// A longer walk keeps what a shorter one reached, and adds only what lies deeper.
proof fn lemma_walked_on(
    files: Seq<FileIndex>,
    a: Answers,
    dir: Direction,
    starts: Seq<Stop>,
    n: nat,
    m: nat,
)
    requires
        n <= m,
    ensures
        ({
            let found = callgraph::walked(files, a, dir, starts, n).0;
            let more = callgraph::walked(files, a, dir, starts, m).0;
            &&& found.len() <= more.len()
            &&& more.take(found.len() as int) == found
            &&& forall|i: int|
                found.len() <= i < more.len() ==> (#[trigger] more[i]).node.depth > n
        }),
    decreases m - n,
{
    let found = callgraph::walked(files, a, dir, starts, n).0;
    if n == m {
        text::lemma_take_all(found);
    } else {
        let less = (m - 1) as nat;
        lemma_walked_on(files, a, dir, starts, n, less);
        let (mid, level) = callgraph::walked(files, a, dir, starts, less);
        let more = callgraph::walked(files, a, dir, starts, m).0;
        lemma_level_steps(files, a, dir, callgraph::stop_names(starts), mid, level, m);
        assert forall|i: int| 0 <= i < mid.len() implies #[trigger] more[i] == mid[i] by {
            assert(more.take(mid.len() as int)[i] == mid[i]);
        }
        assert(more.take(found.len() as int) =~= mid.take(found.len() as int));
    }
}

/// A limit on the depth leaves out what lies deeper, and nothing else.
pub proof fn law_limit_leaves_out_the_deeper(
    files: Seq<FileIndex>,
    a: Answers,
    dir: Direction,
    symbol: Seq<char>,
    limit: usize,
    nodes: Seq<NodeView>,
    all: Seq<NodeView>,
)
    requires
        callgraph::is_closure(files, a, dir, symbol, Some(limit), nodes),
        callgraph::is_closure(files, a, dir, symbol, None, all),
    ensures
        forall|v: NodeView| #[trigger]
            nodes.contains(v) <==> all.contains(v) && v.depth <= limit,
{
    let starts = callgraph::start_stops(files, symbol);
    let n = choose|n: nat| #[trigger]
        callgraph::walk_ends(files, a, dir, starts, Some(limit), n) && nodes == sort::sorted::<
            GraphNode,
        >(callgraph::nodes_of(callgraph::walked(files, a, dir, starts, n).0));
    let m = choose|m: nat| #[trigger]
        callgraph::walk_ends(files, a, dir, starts, None, m) && all == sort::sorted::<GraphNode>(
            callgraph::nodes_of(callgraph::walked(files, a, dir, starts, m).0),
        );
    let found = callgraph::walked(files, a, dir, starts, n).0;
    let more = callgraph::walked(files, a, dir, starts, m).0;
    let raw = callgraph::nodes_of(found);
    let wide = callgraph::nodes_of(more);
    lemma_walked_tidy(files, a, dir, starts, n);
    if m <= n {
        lemma_idle(files, a, dir, starts, m, n);
    } else {
        lemma_walked_on(files, a, dir, starts, n, m);
        if n < limit {
            lemma_idle(files, a, dir, starts, n, m);
        }
    }
    assert forall|v: NodeView| #[trigger] nodes.contains(v) <==> all.contains(v) && v.depth
        <= limit by {
        sort::lemma_sorted_contains::<GraphNode>(raw, v);
        sort::lemma_sorted_contains::<GraphNode>(wide, v);
        if raw.contains(v) {
            let i = choose|i: int| 0 <= i < raw.len() && raw[i] == v;
            if m > n {
                assert(more.take(found.len() as int)[i] == found[i]);
                assert(wide[i] == v);
            }
        }
        if wide.contains(v) && v.depth <= limit {
            let i = choose|i: int| 0 <= i < wide.len() && wide[i] == v;
            if m > n {
                assert(more[i].node.depth == v.depth);
                assert(i < found.len());
                assert(more.take(found.len() as int)[i] == found[i]);
                assert(raw[i] == v);
            }
        }
    }
}

/// What had arrived stays.
proof fn lemma_arrived_on(found: Seq<Stop>, more: Seq<Stop>, name: Seq<char>)
    requires
        callgraph::arrived(found, name),
        found.len() <= more.len(),
        more.take(found.len() as int) == found,
    ensures
        callgraph::arrived(more, name),
{
    let i = choose|i: int| 0 <= i < found.len() && (#[trigger] found[i]).fqn == name;
    assert(more.take(found.len() as int)[i] == more[i]);
    assert(more[i].fqn == name);
}

/// What joining stops adds is among them, and each of their names has arrived then.
proof fn lemma_joined_steps(found: Seq<Stop>, stops: Seq<Stop>)
    ensures
        ({
            let now = callgraph::joined(found, stops);
            &&& found.len() <= now.len()
            &&& now.take(found.len() as int) == found
            &&& forall|i: int|
                found.len() <= i < now.len() ==> stops.contains(#[trigger] now[i])
            &&& forall|k: int|
                0 <= k < stops.len() ==> callgraph::arrived(now, (#[trigger] stops[k]).fqn)
        }),
    decreases stops.len(),
{
    let now = callgraph::joined(found, stops);
    if stops.len() == 0 {
        text::lemma_take_all(found);
    } else {
        let less = stops.drop_last();
        lemma_joined_steps(found, less);
        let before = callgraph::joined(found, less);
        assert(now.take(before.len() as int) =~= before);
        assert(now.take(found.len() as int) =~= before.take(found.len() as int));
        assert forall|i: int| found.len() <= i < now.len() implies stops.contains(
            #[trigger] now[i],
        ) by {
            if i < before.len() {
                assert(less.contains(before[i]));
                let k = choose|k: int| 0 <= k < less.len() && less[k] == before[i];
                assert(stops[k] == now[i]);
            } else {
                assert(stops[stops.len() - 1] == now[i]);
            }
        }
        assert forall|k: int| 0 <= k < stops.len() implies callgraph::arrived(
            now,
            (#[trigger] stops[k]).fqn,
        ) by {
            if k < less.len() {
                assert(less[k] == stops[k]);
                lemma_arrived_on(before, now, less[k].fqn);
            } else if callgraph::arrived(before, stops.last().fqn) {
                lemma_arrived_on(before, now, stops.last().fqn);
            } else {
                assert(now[before.len() as int].fqn == stops[k].fqn);
            }
        }
    }
}

/// What a level adds is where one of its stops leads, and all that they lead to has
/// arrived then.
proof fn lemma_level_joined_steps(
    files: Seq<FileIndex>,
    a: Answers,
    extra: Table<String, Vec<(String, u32)>>,
    found: Seq<Stop>,
    level: Seq<Stop>,
)
    ensures
        ({
            let now = callgraph::level_joined(files, a, extra, found, level);
            &&& found.len() <= now.len()
            &&& now.take(found.len() as int) == found
            &&& forall|i: int|
                found.len() <= i < now.len() ==> exists|j: int|
                    0 <= j < level.len() && callgraph::leads_on(
                        files,
                        a,
                        extra,
                        #[trigger] level[j],
                    ).contains(#[trigger] now[i])
            &&& forall|j: int, k: int|
                0 <= j < level.len() && 0 <= k < callgraph::leads_on(
                    files,
                    a,
                    extra,
                    level[j],
                ).len() ==> callgraph::arrived(
                    now,
                    (#[trigger] callgraph::leads_on(files, a, extra, level[j])[k]).fqn,
                )
        }),
    decreases level.len(),
{
    let now = callgraph::level_joined(files, a, extra, found, level);
    if level.len() == 0 {
        text::lemma_take_all(found);
    } else {
        let less = level.drop_last();
        let stops = callgraph::leads_on(files, a, extra, level.last());
        lemma_level_joined_steps(files, a, extra, found, less);
        let before = callgraph::level_joined(files, a, extra, found, less);
        lemma_joined_steps(before, stops);
        assert(now.take(found.len() as int) =~= found) by {
            assert forall|i: int| 0 <= i < found.len() implies now[i] == found[i] by {
                assert(now.take(before.len() as int)[i] == before[i]);
                assert(before.take(found.len() as int)[i] == found[i]);
            }
        }
        assert forall|i: int| found.len() <= i < now.len() implies exists|j: int|
            0 <= j < level.len() && callgraph::leads_on(
                files,
                a,
                extra,
                #[trigger] level[j],
            ).contains(#[trigger] now[i]) by {
            if i < before.len() {
                assert(now.take(before.len() as int)[i] == before[i]);
                let j = choose|j: int|
                    0 <= j < less.len() && callgraph::leads_on(
                        files,
                        a,
                        extra,
                        #[trigger] less[j],
                    ).contains(before[i]);
                assert(level[j] == less[j]);
            } else {
                assert(level[level.len() - 1] == level.last());
            }
        }
        assert forall|j: int, k: int|
            0 <= j < level.len() && 0 <= k < callgraph::leads_on(
                files,
                a,
                extra,
                level[j],
            ).len() implies callgraph::arrived(
            now,
            (#[trigger] callgraph::leads_on(files, a, extra, level[j])[k]).fqn,
        ) by {
            if j < less.len() {
                assert(less[j] == level[j]);
                lemma_arrived_on(
                    before,
                    now,
                    callgraph::leads_on(files, a, extra, less[j])[k].fqn,
                );
            }
        }
    }
}

/// Whether each stop is a seed's, or one where a stop before it leads.
pub open spec fn from_seeds(
    files: Seq<FileIndex>,
    a: Answers,
    extra: Table<String, Vec<(String, u32)>>,
    seeds: Seq<Spot>,
    stops: Seq<Stop>,
) -> bool {
    forall|i: int|
        0 <= i < stops.len() ==> callgraph::landings(files, seeds).contains(#[trigger] stops[i])
            || exists|j: int|
            0 <= j < i && callgraph::leads_on(files, a, extra, #[trigger] stops[j]).contains(
                stops[i],
            )
}

/// Whether all that the first stops lead to has arrived.
pub open spec fn led_home(
    files: Seq<FileIndex>,
    a: Answers,
    extra: Table<String, Vec<(String, u32)>>,
    stops: Seq<Stop>,
    first: int,
) -> bool {
    forall|i: int, k: int|
        0 <= i < first && 0 <= k < callgraph::leads_on(files, a, extra, stops[i]).len()
            ==> callgraph::arrived(
            stops,
            (#[trigger] callgraph::leads_on(files, a, extra, stops[i])[k]).fqn,
        )
}

/// Whether the seeds have all arrived.
pub open spec fn seeds_home(files: Seq<FileIndex>, seeds: Seq<Spot>, stops: Seq<Stop>) -> bool {
    forall|i: int|
        0 <= i < seeds.len() ==> callgraph::arrived(
            stops,
            callgraph::landing(files, #[trigger] seeds[i]),
        )
}

proof fn lemma_spread_steps(
    files: Seq<FileIndex>,
    a: Answers,
    extra: Table<String, Vec<(String, u32)>>,
    seeds: Seq<Spot>,
    n: nat,
)
    ensures
        ({
            let (found, from) = callgraph::spread(files, a, extra, seeds, n);
            &&& 0 <= from <= found.len()
            &&& from_seeds(files, a, extra, seeds, found)
            &&& led_home(files, a, extra, found, from)
            &&& seeds_home(files, seeds, found)
        }),
    decreases n,
{
    let (now, last) = callgraph::spread(files, a, extra, seeds, n);
    let stops = callgraph::landings(files, seeds);
    if n == 0 {
        lemma_joined_steps(Seq::empty(), stops);
        assert forall|i: int| 0 <= i < seeds.len() implies callgraph::arrived(
            now,
            callgraph::landing(files, #[trigger] seeds[i]),
        ) by {
            assert(stops[i].fqn == callgraph::landing(files, seeds[i]));
        }
    } else {
        lemma_spread_steps(files, a, extra, seeds, (n - 1) as nat);
        let (found, from) = callgraph::spread(files, a, extra, seeds, (n - 1) as nat);
        let level = found.skip(from);
        lemma_level_joined_steps(files, a, extra, found, level);
        assert forall|i: int| 0 <= i < found.len() implies #[trigger] now[i] == found[i] by {
            assert(now.take(found.len() as int)[i] == found[i]);
        }
        assert forall|i: int| 0 <= i < now.len() implies stops.contains(#[trigger] now[i])
            || exists|j: int|
            0 <= j < i && callgraph::leads_on(files, a, extra, #[trigger] now[j]).contains(
                now[i],
            ) by {
            if i < found.len() {
                assert(now[i] == found[i]);
                if !stops.contains(found[i]) {
                    let j = choose|j: int|
                        0 <= j < i && callgraph::leads_on(
                            files,
                            a,
                            extra,
                            #[trigger] found[j],
                        ).contains(found[i]);
                    assert(now[j] == found[j]);
                }
            } else {
                let j = choose|j: int|
                    0 <= j < level.len() && callgraph::leads_on(
                        files,
                        a,
                        extra,
                        #[trigger] level[j],
                    ).contains(now[i]);
                assert(now[from + j] == level[j]);
            }
        }
        assert forall|i: int, k: int|
            0 <= i < last && 0 <= k < callgraph::leads_on(
                files,
                a,
                extra,
                now[i],
            ).len() implies callgraph::arrived(
            now,
            (#[trigger] callgraph::leads_on(files, a, extra, now[i])[k]).fqn,
        ) by {
            assert(now[i] == found[i]);
            if i < from {
                lemma_arrived_on(
                    found,
                    now,
                    callgraph::leads_on(files, a, extra, found[i])[k].fqn,
                );
            } else {
                let j = i - from;
                assert(level[j] == now[i]);
                assert(callgraph::arrived(
                    now,
                    callgraph::leads_on(files, a, extra, level[j])[k].fqn,
                ));
            }
        }
        assert forall|i: int| 0 <= i < seeds.len() implies callgraph::arrived(
            now,
            callgraph::landing(files, #[trigger] seeds[i]),
        ) by {
            lemma_arrived_on(found, now, callgraph::landing(files, seeds[i]));
        }
    }
}

/// What seeds reach is all that calls and extra edges lead to: the seeds are reached,
/// each other name is led to by one reached before it, and nothing reached leads
/// elsewhere.
pub proof fn law_reach_is_all_that_calls_lead_to(
    files: Seq<FileIndex>,
    a: Answers,
    extra: Table<String, Vec<(String, u32)>>,
    seeds: Seq<Spot>,
    names: Set<Seq<char>>,
)
    requires
        callgraph::reachable_is(files, a, extra, seeds, names),
    ensures
        exists|stops: Seq<Stop>|
            {
                &&& #[trigger] from_seeds(files, a, extra, seeds, stops)
                &&& led_home(files, a, extra, stops, stops.len() as int)
                &&& seeds_home(files, seeds, stops)
                &&& forall|x: Seq<char>| #[trigger]
                    names.contains(x) <==> callgraph::arrived(stops, x)
            },
{
    let n = choose|n: nat|
        {
            let (found, from) = #[trigger] callgraph::spread(files, a, extra, seeds, n);
            &&& from == found.len()
            &&& forall|x: Seq<char>| #[trigger]
                names.contains(x) <==> callgraph::arrived(found, x)
        };
    lemma_spread_steps(files, a, extra, seeds, n);
    let found = callgraph::spread(files, a, extra, seeds, n).0;
    assert(from_seeds(files, a, extra, seeds, found));
}

} // verus!
