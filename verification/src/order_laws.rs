//! What holds of the orders in which things are reported.
use crate::callgraph::{Answers, Direction, GraphNode, NodeView};
use crate::callgraph;
use crate::canonical::{Used, UsedView};
use crate::closure_laws;
use crate::deadcode::{Dead, DeadView};
use crate::lookup::Placed;
use crate::model::FileIndex;
use crate::resolve::LocView;
use crate::rows::{Entry, EntryView};
use crate::sort;
use crate::text;
use vstd::prelude::*;

verus! {

/// Of two texts with one start, the characters that follow decide; a text comes before a
/// longer one that it starts.
pub proof fn law_text_order(p: Seq<char>, c: char, d: char, x: Seq<char>, y: Seq<char>)
    ensures
        c < d ==> text::text_lt(p + seq![c] + x, p + seq![d] + y),
        c > d ==> !text::text_lt(p + seq![c] + x, p + seq![d] + y),
        text::text_lt(p, p + seq![c] + x),
        !text::text_lt(p + seq![c] + x, p),
        !text::text_lt(p, p),
    decreases p.len(),
{
    let s = p + seq![c] + x;
    let t = p + seq![d] + y;
    if p.len() == 0 {
        assert(s[0] == c && t[0] == d);
    } else {
        let q = p.skip(1);
        law_text_order(q, c, d, x, y);
        assert(s.skip(1) =~= q + seq![c] + x);
        assert(t.skip(1) =~= q + seq![d] + y);
        assert(s[0] == p[0] && t[0] == p[0]);
    }
}

/// Putting things in order loses none and adds none.
pub proof fn law_order_keeps_all(s: Seq<NodeView>, t: Seq<DeadView>, u: Seq<EntryView>)
    ensures
        sort::sorted::<GraphNode>(s).to_multiset() == s.to_multiset(),
        sort::sorted::<Dead>(t).to_multiset() == t.to_multiset(),
        sort::sorted::<Entry>(u).to_multiset() == u.to_multiset(),
{
    sort::lemma_sorted::<GraphNode>(s);
    sort::lemma_sorted::<Dead>(t);
    sort::lemma_sorted::<Entry>(u);
}

/// What a symbol reaches comes nearest first, and at one depth by name.
pub proof fn law_nearest_come_first(
    files: Seq<FileIndex>,
    a: Answers,
    dir: Direction,
    symbol: Seq<char>,
    limit: Option<usize>,
    nodes: Seq<NodeView>,
    i: int,
    j: int,
)
    requires
        callgraph::is_closure(files, a, dir, symbol, limit, nodes),
        0 <= i < j < nodes.len(),
    ensures
        nodes[i].depth <= nodes[j].depth,
        nodes[i].depth == nodes[j].depth ==> !text::text_lt(nodes[j].fqn, nodes[i].fqn),
{
    closure_laws::law_closure_is_tidy(files, a, dir, symbol, limit, nodes);
    assert(sort::in_order::<GraphNode>(nodes));
}

/// What is dead comes by file, in a file by line, and in a line by column.
pub proof fn law_dead_come_by_place(s: Seq<DeadView>, i: int, j: int)
    requires
        0 <= i < j < s.len(),
    ensures
        ({
            let a = sort::sorted::<Dead>(s)[i];
            let b = sort::sorted::<Dead>(s)[j];
            &&& !text::text_lt(b.path, a.path)
            &&& a.path == b.path ==> a.line <= b.line
            &&& a.path == b.path && a.line == b.line ==> a.col <= b.col
        }),
{
    sort::lemma_sorted::<Dead>(s);
}

/// Places come by file, in a file by line, and in a line by column.
pub proof fn law_places_come_in_order(s: Seq<LocView>, i: int, j: int)
    requires
        0 <= i < j < s.len(),
    ensures
        ({
            let a = sort::sorted::<Placed>(s)[i];
            let b = sort::sorted::<Placed>(s)[j];
            &&& !text::text_lt(b.path, a.path)
            &&& a.path == b.path ==> a.line <= b.line
            &&& a.path == b.path && a.line == b.line ==> a.col <= b.col
        }),
{
    sort::lemma_sorted::<Placed>(s);
}

/// The helpers that most callers use come first, those of as many by name.
pub proof fn law_most_used_come_first(s: Seq<UsedView>, i: int, j: int)
    requires
        0 <= i < j < s.len(),
    ensures
        sort::sorted::<Used>(s)[i].uses >= sort::sorted::<Used>(s)[j].uses,
        sort::sorted::<Used>(s)[i].uses == sort::sorted::<Used>(s)[j].uses ==> !text::text_lt(
            sort::sorted::<Used>(s)[j].fqn,
            sort::sorted::<Used>(s)[i].fqn,
        ),
{
    sort::lemma_sorted::<Used>(s);
}

/// Rows come by rank, those of one rank by their first key, then by their second.
pub proof fn law_rows_come_in_order(s: Seq<EntryView>, i: int, j: int)
    requires
        0 <= i < j < s.len(),
    ensures
        ({
            let a = sort::sorted::<Entry>(s)[i];
            let b = sort::sorted::<Entry>(s)[j];
            &&& a.rank <= b.rank
            &&& a.rank == b.rank ==> !text::text_lt(b.first, a.first)
            &&& a.rank == b.rank && a.first == b.first ==> !text::text_lt(b.second, a.second)
        }),
{
    sort::lemma_sorted::<Entry>(s);
}

} // verus!
