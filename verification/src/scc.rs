//! Strongly connected components of a directed graph, by depth-first search.
//!
//! A graph is the list of each node's successors, nodes being the indices.
use crate::text;
use vstd::prelude::*;

verus! {

/// Whether every successor is a node, and the nodes can be numbered.
pub open spec fn closed_graph(adj: Seq<Vec<usize>>) -> bool {
    &&& adj.len() <= usize::MAX
    &&& forall|v: int, i: int|
        0 <= v < adj.len() && 0 <= i < adj[v]@.len() ==> (#[trigger] adj[v]@[i]) < adj.len()
}

/// Whether `b` is a successor of `a`.
pub open spec fn arrow(adj: Seq<Vec<usize>>, a: int, b: int) -> bool {
    &&& 0 <= a < adj.len()
    &&& 0 <= b < adj.len()
    &&& exists|i: int| 0 <= i < adj[a]@.len() && #[trigger] adj[a]@[i] == b
}

/// Whether the graph has the step from the `i`th node of `p` to the next.
pub open spec fn step(adj: Seq<Vec<usize>>, p: Seq<int>, i: int) -> bool {
    arrow(adj, p[i], p[i + 1])
}

/// Whether `p` is a path: one or more nodes, each a successor of the one before.
pub open spec fn is_path(adj: Seq<Vec<usize>>, p: Seq<int>) -> bool {
    &&& p.len() > 0
    &&& 0 <= p[0] < adj.len()
    &&& forall|i: int| 0 <= i < p.len() - 1 ==> #[trigger] step(adj, p, i)
}

/// Whether `p` is a path from `a` to `b`.
pub open spec fn path_between(adj: Seq<Vec<usize>>, p: Seq<int>, a: int, b: int) -> bool {
    is_path(adj, p) && p[0] == a && p.last() == b
}

/// Whether a path, of one node or more, leads from `a` to `b`.
#[verifier::opaque]
pub open spec fn reaches(adj: Seq<Vec<usize>>, a: int, b: int) -> bool {
    exists|p: Seq<int>| path_between(adj, p, a, b)
}

/// Whether `a` and `b` lie in one strongly connected component.
pub open spec fn mutual(adj: Seq<Vec<usize>>, a: int, b: int) -> bool {
    reaches(adj, a, b) && reaches(adj, b, a)
}

/// The nodes entered, and those left in the order of leaving, by a depth-first
/// search that visits each node of `list` in turn, and from each the successors
/// in turn, that was not entered before. `depth` bounds how deep it goes.
pub open spec fn search_from(
    adj: Seq<Vec<usize>>,
    list: Seq<usize>,
    state: (Set<int>, Seq<int>),
    depth: nat,
) -> (Set<int>, Seq<int>)
    decreases depth, list.len(),
{
    if list.len() == 0 {
        state
    } else {
        let (seen, left) = search_from(adj, list.drop_last(), state, depth);
        let v = list.last() as int;
        if seen.contains(v) || depth == 0 {
            (seen, left)
        } else {
            let below = search_from(adj, adj[v]@, (seen.insert(v), left), (depth - 1) as nat);
            (below.0, below.1.push(v))
        }
    }
}

/// All nodes in the order in which a depth-first search leaves them.
pub open spec fn leaving_order(adj: Seq<Vec<usize>>) -> Seq<int> {
    search_from(
        adj,
        Seq::new(adj.len(), |i: int| i as usize),
        (Set::empty(), Seq::empty()),
        adj.len(),
    ).1
}

/// Whether the `i`th node left is the last of its component to be left.
pub open spec fn is_lead(adj: Seq<Vec<usize>>, left: Seq<int>, i: int) -> bool {
    &&& 0 <= i < left.len()
    &&& forall|j: int| i < j < left.len() ==> !mutual(adj, left[i], #[trigger] left[j])
}

/// One node for each component: of the first `n` nodes left, those that are the
/// last of their component, in the order of leaving.
pub open spec fn leads(adj: Seq<Vec<usize>>, left: Seq<int>, n: int) -> Seq<int>
    decreases n,
{
    if n <= 0 {
        Seq::empty()
    } else if is_lead(adj, left, n - 1) {
        leads(adj, left, n - 1).push(left[n - 1])
    } else {
        leads(adj, left, n - 1)
    }
}

/// Whether the nodes of `c` are `a` and all that share its component, each once.
pub open spec fn is_component(adj: Seq<Vec<usize>>, c: Seq<usize>, a: int) -> bool {
    &&& c.no_duplicates()
    &&& forall|x: int|
        0 <= x < adj.len() ==> (#[trigger] c.contains(x as usize) <==> mutual(adj, a, x))
    &&& forall|i: int| 0 <= i < c.len() ==> (#[trigger] c[i]) < adj.len()
}

/// Every node reaches itself.
pub proof fn lemma_reaches_self(adj: Seq<Vec<usize>>, a: int)
    requires
        0 <= a < adj.len(),
    ensures
        reaches(adj, a, a),
{
    reveal(reaches);
    assert(path_between(adj, seq![a], a, a));
}

/// A node reaches its successors.
pub proof fn lemma_reaches_step(adj: Seq<Vec<usize>>, a: int, b: int)
    requires
        arrow(adj, a, b),
    ensures
        reaches(adj, a, b),
{
    reveal(reaches);
    let p = seq![a, b];
    assert(step(adj, p, 0));
    assert(path_between(adj, p, a, b));
}

/// What a reached node reaches is reached.
pub proof fn lemma_reaches_transitive(adj: Seq<Vec<usize>>, a: int, b: int, c: int)
    requires
        reaches(adj, a, b),
        reaches(adj, b, c),
    ensures
        reaches(adj, a, c),
{
    reveal(reaches);
    let p = choose|p: Seq<int>| path_between(adj, p, a, b);
    let q = choose|q: Seq<int>| path_between(adj, q, b, c);
    let r = p + q.skip(1);
    assert(r[0] == a);
    assert(r.last() == c) by {
        if q.len() == 1 {
            assert(r =~= p);
        }
    }
    assert forall|i: int| 0 <= i < r.len() - 1 implies #[trigger] step(adj, r, i) by {
        if i < p.len() - 1 {
            assert(step(adj, p, i));
        } else {
            assert(step(adj, q, i - (p.len() - 1)));
        }
    }
    assert(path_between(adj, r, a, c));
}

/// Nodes on a path are nodes of the graph.
pub proof fn lemma_reaches_nodes(adj: Seq<Vec<usize>>, a: int, b: int)
    requires
        reaches(adj, a, b),
    ensures
        0 <= a < adj.len(),
        0 <= b < adj.len(),
{
    reveal(reaches);
    let p = choose|p: Seq<int>| path_between(adj, p, a, b);
    if p.len() > 1 {
        assert(step(adj, p, p.len() - 2));
    }
}

/// A path out of a set has a step out of it: the last node inside that it was
/// led to, and the first one outside, from which it goes on to its end.
pub proof fn lemma_exit(adj: Seq<Vec<usize>>, inside: Set<int>, a: int, b: int) -> (r: (int, int))
    requires
        reaches(adj, a, b),
        inside.contains(a),
        !inside.contains(b),
    ensures
        inside.contains(r.0),
        !inside.contains(r.1),
        arrow(adj, r.0, r.1),
        reaches(adj, a, r.0),
        reaches(adj, r.1, b),
{
    reveal(reaches);
    let p = choose|p: Seq<int>| path_between(adj, p, a, b);
    lemma_exit_along(adj, inside, p)
}

proof fn lemma_exit_along(adj: Seq<Vec<usize>>, inside: Set<int>, p: Seq<int>) -> (r: (int, int))
    requires
        is_path(adj, p),
        inside.contains(p[0]),
        !inside.contains(p.last()),
    ensures
        inside.contains(r.0),
        !inside.contains(r.1),
        arrow(adj, r.0, r.1),
        reaches(adj, p[0], r.0),
        reaches(adj, r.1, p.last()),
    decreases p.len(),
{
    reveal(reaches);
    assert(p.len() > 1);
    assert(step(adj, p, 0));
    let q = p.skip(1);
    assert forall|i: int| 0 <= i < q.len() - 1 implies #[trigger] step(adj, q, i) by {
        assert(step(adj, p, i + 1));
    }
    assert(is_path(adj, q));
    assert(path_between(adj, q, p[1], p.last()));
    if inside.contains(p[1]) {
        let r = lemma_exit_along(adj, inside, q);
        lemma_reaches_step(adj, p[0], p[1]);
        lemma_reaches_transitive(adj, p[0], p[1], r.0);
        r
    } else {
        lemma_reaches_self(adj, p[0]);
        (p[0], p[1])
    }
}

/// Different nodes of a graph are at most as many as its nodes.
pub proof fn lemma_distinct_bound(s: Seq<int>, n: nat)
    requires
        s.no_duplicates(),
        forall|i: int| 0 <= i < s.len() ==> 0 <= #[trigger] s[i] < n,
    ensures
        s.len() <= n,
{
    s.unique_seq_to_set();
    vstd::set_lib::lemma_int_range(0, n as int);
    assert(s.to_set().subset_of(vstd::set_lib::set_int_range(0, n as int)));
    vstd::set_lib::lemma_len_subset(s.to_set(), vstd::set_lib::set_int_range(0, n as int));
}

/// The state of a search for components.
struct Scan {
    /// When each node was entered, counted from zero.
    index: Vec<Option<usize>>,
    /// For each node entered, the least entry number it is known to lead to
    /// among the nodes that wait for their component.
    low: Vec<usize>,
    on_stack: Vec<bool>,
    /// The nodes that wait for their component, in the order of entering.
    stack: Vec<usize>,
    next: usize,
    /// The components found.
    out: Vec<Vec<usize>>,
    /// The nodes left, in the order of leaving.
    left: Ghost<Seq<int>>,
    /// For each component found, where its last node stands in `left`.
    lead: Ghost<Seq<int>>,
}

impl Scan {
    spec fn seen(self, v: int) -> bool {
        0 <= v < self.index@.len() && self.index@[v] is Some
    }

    spec fn seen_set(self) -> Set<int> {
        Set::new(|v: int| self.seen(v))
    }

    spec fn at(self, v: int) -> int {
        self.index@[v]->0 as int
    }

    spec fn waits(self, v: int) -> bool {
        exists|i: int| 0 <= i < self.stack@.len() && #[trigger] self.stack@[i] == v
    }

    spec fn was_left(self, v: int) -> bool {
        self.left@.contains(v)
    }

    spec fn found(self, v: int) -> bool {
        exists|k: int|
            0 <= k < self.out@.len() && (#[trigger] self.out@[k])@.contains(v as usize)
    }

    /// The fields fit the graph and each other.
    spec fn shaped(self, adj: Seq<Vec<usize>>) -> bool {
        &&& self.index@.len() == adj.len()
        &&& self.low@.len() == adj.len()
        &&& self.on_stack@.len() == adj.len()
        &&& self.seen_set().finite()
        &&& self.next == self.seen_set().len()
        &&& forall|v: int| #[trigger] self.seen(v) ==> self.at(v) < self.next
        &&& forall|i: int| 0 <= i < self.stack@.len() ==> self.seen(#[trigger] self.stack@[i] as int)
        &&& forall|i: int, j: int|
            0 <= i < j < self.stack@.len() ==> self.at(#[trigger] self.stack@[i] as int) < self.at(
                #[trigger] self.stack@[j] as int,
            )
        &&& forall|v: int|
            0 <= v < adj.len() ==> (#[trigger] self.on_stack@[v] <==> self.waits(v))
        &&& self.left@.no_duplicates()
    }

    /// The nodes of `gray` are those entered and not left.
    spec fn split_by(self, gray: Seq<int>) -> bool {
        &&& gray.no_duplicates()
        &&& forall|v: int| #[trigger] gray.contains(v) ==> self.seen(v) && self.waits(v)
        &&& forall|v: int| #[trigger] self.was_left(v) <==> self.seen(v) && !gray.contains(v)
    }

    /// `x` leads to a node in `gray` entered no later.
    #[verifier::opaque]
    spec fn leads_back(self, adj: Seq<Vec<usize>>, gray: Seq<int>, x: int) -> bool {
        exists|y: int| #[trigger]
            gray.contains(y) && self.at(y) <= self.at(x) && reaches(adj, x, y)
    }

    proof fn back_from(self, adj: Seq<Vec<usize>>, gray: Seq<int>, x: int) -> (y: int)
        requires
            self.leads_back(adj, gray, x),
        ensures
            gray.contains(y),
            self.at(y) <= self.at(x),
            reaches(adj, x, y),
    {
        reveal(Scan::leads_back);
        choose|y: int| #[trigger]
            gray.contains(y) && self.at(y) <= self.at(x) && reaches(adj, x, y)
    }

    proof fn back_to(self, adj: Seq<Vec<usize>>, gray: Seq<int>, x: int, y: int)
        requires
            gray.contains(y),
            self.at(y) <= self.at(x),
            reaches(adj, x, y),
        ensures
            self.leads_back(adj, gray, x),
    {
        reveal(Scan::leads_back);
    }

    /// Nodes left lead only to nodes entered; each waiting node leads to one in
    /// `gray` entered no later, and each in `gray` to all waiting that were
    /// entered no earlier.
    #[verifier::opaque]
    spec fn linked(self, adj: Seq<Vec<usize>>, gray: Seq<int>) -> bool {
        &&& forall|b: int, c: int|
            #[trigger] self.was_left(b) && #[trigger] arrow(adj, b, c) ==> self.seen(c)
        &&& forall|x: int| #[trigger] self.waits(x) ==> self.leads_back(adj, gray, x)
        &&& forall|x: int, y: int| #[trigger]
            gray.contains(x) && #[trigger] self.waits(y) && self.at(x) <= self.at(y) ==> reaches(
                adj,
                x,
                y,
            )
    }

    /// The components found are those of the nodes entered that no longer wait.
    #[verifier::opaque]
    spec fn sorted_out(self, adj: Seq<Vec<usize>>) -> bool {
        &&& self.lead@.len() == self.out@.len()
        &&& forall|k: int|
            0 <= k < self.out@.len() ==> 0 <= #[trigger] self.lead@[k] < self.left@.len()
                && is_component(adj, self.out@[k]@, self.left@[self.lead@[k]])
        &&& forall|k: int, m: int|
            0 <= k < m < self.out@.len() ==> #[trigger] self.lead@[k] < #[trigger] self.lead@[m]
        &&& forall|k: int, i: int|
            0 <= k < self.out@.len() && 0 <= i < self.left@.len() && mutual(
                adj,
                self.left@[#[trigger] self.lead@[k]],
                #[trigger] self.left@[i],
            ) ==> i <= self.lead@[k]
        &&& forall|v: int| #[trigger] self.found(v) && 0 <= v < adj.len() <==> self.seen(v) && !self.waits(v)
    }

    spec fn ok(self, adj: Seq<Vec<usize>>, gray: Seq<int>) -> bool {
        &&& self.shaped(adj)
        &&& self.split_by(gray)
        &&& self.linked(adj, gray)
        &&& self.sorted_out(adj)
    }

    /// What a search only adds to.
    spec fn grows_to(self, later: Scan) -> bool {
        &&& forall|v: int| #[trigger] self.seen(v) ==> later.seen(v) && later.at(v) == self.at(v)
        &&& forall|v: int|
            self.seen(v) ==> #[trigger] later.low@[v] == self.low@[v]
        &&& self.stack@.len() <= later.stack@.len()
        &&& forall|i: int| 0 <= i < self.stack@.len() ==> #[trigger] later.stack@[i] == self.stack@[i]
    }
}


/// A set of nodes has at most as many as the graph.
proof fn lemma_node_set(adj: Seq<Vec<usize>>, s: Set<int>)
    requires
        forall|v: int| #[trigger] s.contains(v) ==> 0 <= v < adj.len(),
    ensures
        s.finite(),
        s.len() <= adj.len(),
{
    vstd::set_lib::lemma_int_range(0, adj.len() as int);
    let all = vstd::set_lib::set_int_range(0, adj.len() as int);
    assert(s.subset_of(all));
    vstd::set_lib::lemma_len_subset(s, all);
}

/// The state stays in order when `v` is entered from the last node of `gray`.
proof fn lemma_enter(adj: Seq<Vec<usize>>, a: Scan, b: Scan, v: int, gray: Seq<int>)
    requires
        closed_graph(adj),
        a.ok(adj, gray),
        0 <= v < adj.len(),
        !a.seen(v),
        forall|x: int| #[trigger] gray.contains(x) ==> reaches(adj, x, v),
        b.index@ == a.index@.update(v, Some(a.next)),
        b.low@ == a.low@.update(v, a.next),
        b.on_stack@ == a.on_stack@.update(v, true),
        b.stack@ == a.stack@.push(v as usize),
        b.next == a.next + 1,
        b.out == a.out,
        b.left == a.left,
        b.lead == a.lead,
    ensures
        b.ok(adj, gray.push(v)),
        a.grows_to(b),
        b.seen_set() == a.seen_set().insert(v),
        b.at(v) == a.next,
        b.waits(v),
{
    assert forall|u: int| #[trigger] a.seen(u) implies b.seen(u) && b.at(u) == a.at(u) by {}
    assert(b.seen_set() =~= a.seen_set().insert(v));
    assert(b.stack@[a.stack@.len() as int] == v);
    assert(b.waits(v));
    assert forall|u: int| #[trigger] b.waits(u) <==> u == v || a.waits(u) by {
        if a.waits(u) {
            let i = choose|i: int| 0 <= i < a.stack@.len() && #[trigger] a.stack@[i] == u;
            assert(b.stack@[i] == u);
        }
        if b.waits(u) && u != v {
            let i = choose|i: int| 0 <= i < b.stack@.len() && #[trigger] b.stack@[i] == u;
            assert(a.stack@[i] == u);
        }
    }
    assert(!a.waits(v)) by {
        if a.waits(v) {
            let i = choose|i: int| 0 <= i < a.stack@.len() && #[trigger] a.stack@[i] == v;
            assert(a.seen(a.stack@[i] as int));
        }
    }
    let g = gray.push(v);
    assert(!gray.contains(v));
    assert forall|u: int| #[trigger] g.contains(u) <==> u == v || gray.contains(u) by {
        assert(g[gray.len() as int] == v);
        if gray.contains(u) {
            let i = choose|i: int| 0 <= i < gray.len() && gray[i] == u;
            assert(g[i] == u);
        }
    }
    assert(b.shaped(adj)) by {
        lemma_node_set(adj, b.seen_set());
        assert(!a.seen_set().contains(v));
        assert forall|i: int, j: int| 0 <= i < j < b.stack@.len() implies b.at(
            #[trigger] b.stack@[i] as int,
        ) < b.at(#[trigger] b.stack@[j] as int) by {
            assert(a.seen(a.stack@[i] as int));
            if j < a.stack@.len() {
                assert(a.seen(a.stack@[j] as int));
            }
        }
        assert forall|i: int| 0 <= i < b.stack@.len() implies b.seen(
            #[trigger] b.stack@[i] as int,
        ) by {
            if i < a.stack@.len() {
                assert(a.seen(a.stack@[i] as int));
            }
        }
        assert forall|u: int| #[trigger] b.seen(u) implies b.at(u) < b.next by {
            if u != v {
                assert(a.seen(u));
            }
        }
    }
    assert(b.split_by(g)) by {
        assert forall|u: int| #[trigger] b.was_left(u) <==> b.seen(u) && !g.contains(u) by {
            assert(b.was_left(u) == a.was_left(u));
        }
    }
    lemma_reaches_self(adj, v);
    assert(b.linked(adj, g)) by {
        reveal(Scan::linked);
        assert forall|p: int, c: int| #[trigger] b.was_left(p) && #[trigger] arrow(
            adj,
            p,
            c,
        ) implies b.seen(c) by {
            assert(a.was_left(p));
        }
        assert forall|x: int| #[trigger] b.waits(x) implies b.leads_back(adj, g, x) by {
            if x == v {
                assert(g.contains(v));
                b.back_to(adj, g, v, v);
            } else {
                assert(a.waits(x));
                let y = a.back_from(adj, gray, x);
                assert(g.contains(y));
                assert(a.seen(y));
                assert(a.seen(x));
                b.back_to(adj, g, x, y);
            }
        }
        assert forall|x: int, y: int| #[trigger] g.contains(x) && #[trigger] b.waits(y) && b.at(x)
            <= b.at(y) implies reaches(adj, x, y) by {
            if y != v {
                assert(a.waits(y));
                assert(a.seen(y));
                if x != v {
                    assert(gray.contains(x));
                    assert(a.seen(x));
                }
            }
        }
    }
    assert(b.sorted_out(adj)) by {
        reveal(Scan::sorted_out);
        assert forall|u: int| #[trigger] b.found(u) && 0 <= u < adj.len() <==> b.seen(u)
            && !b.waits(u) by {
            assert(b.found(u) == a.found(u));
        }
    }
}

/// Order does not speak of `low`.
proof fn lemma_low_free(adj: Seq<Vec<usize>>, a: Scan, b: Scan, gray: Seq<int>)
    requires
        a.ok(adj, gray),
        b == (Scan {
            low: b.low,
            ..a
        }),
        b.low@.len() == a.low@.len(),
    ensures
        b.ok(adj, gray),
        forall|u: int| #[trigger] b.waits(u) <==> a.waits(u),
        forall|u: int| #[trigger] b.seen(u) <==> a.seen(u),
        b.seen_set() == a.seen_set(),
{
    reveal(Scan::linked);
    reveal(Scan::sorted_out);
    assert(b.seen_set() =~= a.seen_set());
    assert(b.stack == a.stack);
    assert(b.out == a.out);
    assert(forall|u: int| #[trigger] b.waits(u) <==> a.waits(u));
    assert(forall|u: int| #[trigger] b.seen(u) <==> a.seen(u));
    assert(forall|u: int| #[trigger] b.found(u) <==> a.found(u));
    assert(forall|u: int| #[trigger] b.was_left(u) <==> a.was_left(u));
    assert forall|x: int| #[trigger] b.waits(x) implies b.leads_back(adj, gray, x) by {
        assert(a.waits(x));
        let y = a.back_from(adj, gray, x);
        b.back_to(adj, gray, x, y);
    }
}

/// What holds of a search under way below `v`: `a` is the state before `v` was
/// entered, `b` the state now, the first `done` successors of `v` dealt with.
spec fn below(
    adj: Seq<Vec<usize>>,
    a: Scan,
    b: Scan,
    v: int,
    gray: Seq<int>,
    done: int,
) -> bool {
    &&& a.ok(adj, gray)
    &&& 0 <= v < adj.len()
    &&& 0 <= done <= adj[v]@.len()
    &&& !a.seen(v)
    &&& forall|x: int| #[trigger] gray.contains(x) ==> reaches(adj, x, v)
    &&& b.ok(adj, gray.push(v))
    &&& a.grows_to(b)
    &&& b.seen(v)
    &&& b.at(v) == a.next
    &&& b.stack@.len() > a.stack@.len()
    &&& b.stack@[a.stack@.len() as int] == v
    &&& b.low@[v] <= b.at(v)
    &&& exists|y: int| #[trigger] b.waits(y) && reaches(adj, v, y) && b.at(y) == b.low@[v]
    &&& forall|k: int, y: int|
        a.stack@.len() < k < b.stack@.len() && a.waits(y) && #[trigger] arrow(
            adj,
            b.stack@[k] as int,
            y,
        ) ==> b.low@[v] <= b.at(y)
    &&& forall|j: int|
        0 <= j < done ==> b.seen(#[trigger] adj[v]@[j] as int) && (a.waits(adj[v]@[j] as int)
            ==> b.low@[v] <= b.at(adj[v]@[j] as int))
    &&& forall|y: int| #[trigger] b.seen(y) && !a.seen(y) ==> reaches(adj, v, y)
}

/// What the search of one successor left behind of `v` keeps the search below
/// `v` in order: `b` before it, `c` after it, `low` then taken over.
proof fn lemma_below_step(
    adj: Seq<Vec<usize>>,
    a: Scan,
    b: Scan,
    c: Scan,
    d: Scan,
    v: int,
    w: int,
    gray: Seq<int>,
    done: int,
)
    requires
        closed_graph(adj),
        below(adj, a, b, v, gray, done),
        done < adj[v]@.len(),
        w == adj[v]@[done],
        !b.seen(w),
        c.ok(adj, gray.push(v)),
        b.grows_to(c),
        c.seen(w),
        c.at(w) == b.next,
        forall|y: int| #[trigger] c.seen(y) && !b.seen(y) ==> reaches(adj, w, y),
        c.low@[w] <= c.at(w),
        (c.low@[w] == c.at(w) && c.stack@ == b.stack@) || exists|y: int| #[trigger]
            c.waits(y) && reaches(adj, w, y) && c.at(y) == c.low@[w],
        forall|k: int, y: int|
            b.stack@.len() <= k < c.stack@.len() && b.waits(y) && #[trigger] arrow(
                adj,
                c.stack@[k] as int,
                y,
            ) ==> c.low@[w] <= c.at(y),
        d == (Scan {
            low: d.low,
            ..c
        }),
        d.low@ == c.low@.update(
            v,
            if c.low@[v] <= c.low@[w] {
                c.low@[v]
            } else {
                c.low@[w]
            },
        ),
    ensures
        below(adj, a, d, v, gray, done + 1),
{
    assert(arrow(adj, v, w));
    lemma_reaches_step(adj, v, w);
    lemma_low_free(adj, c, d, gray.push(v));
    assert forall|u: int| #[trigger] a.seen(u) implies d.seen(u) && d.at(u) == a.at(u) by {
        assert(b.seen(u));
        assert(c.seen(u));
    }
    assert forall|u: int| a.seen(u) implies #[trigger] d.low@[u] == a.low@[u] by {
        assert(b.seen(u));
        assert(b.low@[u] == a.low@[u]);
        assert(c.low@[u] == b.low@[u]);
    }
    assert(b.seen(v));
    assert(c.low@[v] == b.low@[v]);
    assert(c.seen(v) && c.at(v) == b.at(v));
    assert forall|i: int| 0 <= i < a.stack@.len() implies #[trigger] d.stack@[i] == a.stack@[i] by {
        assert(b.stack@[i] == a.stack@[i]);
        assert(c.stack@[i] == b.stack@[i]);
    }
    assert(c.stack@[a.stack@.len() as int] == b.stack@[a.stack@.len() as int]);
    assert forall|u: int| #[trigger] b.waits(u) implies c.waits(u) by {
        let i = choose|i: int| 0 <= i < b.stack@.len() && #[trigger] b.stack@[i] == u;
        assert(c.stack@[i] == u);
    }
    assert forall|u: int| #[trigger] a.waits(u) implies b.waits(u) && a.seen(u) && b.seen(u) by {
        let i = choose|i: int| 0 <= i < a.stack@.len() && #[trigger] a.stack@[i] == u;
        assert(b.stack@[i] == u);
        assert(a.seen(a.stack@[i] as int));
    }
    assert(exists|y: int| #[trigger]
        d.waits(y) && reaches(adj, v, y) && d.at(y) == d.low@[v]) by {
        let y0 = choose|y: int| #[trigger]
            b.waits(y) && reaches(adj, v, y) && b.at(y) == b.low@[v];
        assert(c.waits(y0));
        assert(b.seen(y0)) by {
            let i = choose|i: int| 0 <= i < b.stack@.len() && #[trigger] b.stack@[i] == y0;
            assert(b.seen(b.stack@[i] as int));
        }
        assert(c.at(y0) == b.at(y0));
        if c.low@[v] <= c.low@[w] {
            assert(d.waits(y0));
        } else {
            assert(b.at(v) < b.next);
            let y1 = choose|y: int| #[trigger]
                c.waits(y) && reaches(adj, w, y) && c.at(y) == c.low@[w];
            lemma_reaches_transitive(adj, v, w, y1);
            assert(d.waits(y1));
        }
    }
    assert forall|k: int, y: int|
        a.stack@.len() < k < d.stack@.len() && a.waits(y) && #[trigger] arrow(
            adj,
            d.stack@[k] as int,
            y,
        ) implies d.low@[v] <= d.at(y) by {
        assert(b.waits(y) && a.seen(y) && b.seen(y));
        assert(c.at(y) == b.at(y));
        if k < b.stack@.len() {
            assert(c.stack@[k] == b.stack@[k]);
            assert(arrow(adj, b.stack@[k] as int, y));
        } else {
            assert(arrow(adj, c.stack@[k] as int, y));
        }
    }
    assert forall|j: int| 0 <= j < done + 1 implies d.seen(#[trigger] adj[v]@[j] as int) && (
    a.waits(adj[v]@[j] as int) ==> d.low@[v] <= d.at(adj[v]@[j] as int)) by {
        let u = adj[v]@[j] as int;
        if j < done {
            assert(b.seen(u));
            assert(c.seen(u) && c.at(u) == b.at(u));
        }
    }
    assert forall|y: int| #[trigger] d.seen(y) && !a.seen(y) implies reaches(adj, v, y) by {
        assert(c.seen(y));
        if !b.seen(y) {
            lemma_reaches_transitive(adj, v, w, y);
        }
    }
}

/// The same for a successor that was entered before.
proof fn lemma_below_skip(
    adj: Seq<Vec<usize>>,
    a: Scan,
    b: Scan,
    d: Scan,
    v: int,
    w: int,
    gray: Seq<int>,
    done: int,
)
    requires
        closed_graph(adj),
        below(adj, a, b, v, gray, done),
        done < adj[v]@.len(),
        w == adj[v]@[done],
        b.seen(w),
        d == (Scan {
            low: d.low,
            ..b
        }),
        d.low@ == (if b.waits(w) && b.at(w) < b.low@[v] {
            b.low@.update(v, b.at(w) as usize)
        } else {
            b.low@
        }),
    ensures
        below(adj, a, d, v, gray, done + 1),
{
    assert(arrow(adj, v, w));
    lemma_reaches_step(adj, v, w);
    lemma_low_free(adj, b, d, gray.push(v));
    assert forall|u: int| a.seen(u) implies #[trigger] d.low@[u] == a.low@[u] by {
        assert(b.low@[u] == a.low@[u]);
    }
    assert(a.grows_to(d));
    assert forall|u: int| #[trigger] a.waits(u) implies b.waits(u) by {
        let i = choose|i: int| 0 <= i < a.stack@.len() && #[trigger] a.stack@[i] == u;
        assert(b.stack@[i] == u);
    }
    assert(d.low@[v] <= b.low@[v]);
    assert(exists|y: int| #[trigger]
        d.waits(y) && reaches(adj, v, y) && d.at(y) == d.low@[v]) by {
        if b.waits(w) && b.at(w) < b.low@[v] {
            assert(d.waits(w));
        } else {
            let y0 = choose|y: int| #[trigger]
                b.waits(y) && reaches(adj, v, y) && b.at(y) == b.low@[v];
            assert(d.waits(y0));
        }
    }
    assert forall|k: int, y: int|
        a.stack@.len() < k < d.stack@.len() && a.waits(y) && #[trigger] arrow(
            adj,
            d.stack@[k] as int,
            y,
        ) implies d.low@[v] <= d.at(y) by {
        assert(arrow(adj, b.stack@[k] as int, y));
    }
    assert forall|j: int| 0 <= j < done + 1 implies d.seen(#[trigger] adj[v]@[j] as int) && (
    a.waits(adj[v]@[j] as int) ==> d.low@[v] <= d.at(adj[v]@[j] as int)) by {
        let u = adj[v]@[j] as int;
        if j < done {
            assert(b.seen(u));
        }
    }
    assert forall|y: int| #[trigger] d.seen(y) && !a.seen(y) implies reaches(adj, v, y) by {
        assert(b.seen(y));
    }
}


/// Where `v` led to nothing that waits below it, the waiting nodes from `v` on
/// are its component.
proof fn lemma_component(adj: Seq<Vec<usize>>, a: Scan, b: Scan, v: int, gray: Seq<int>)
    requires
        closed_graph(adj),
        below(adj, a, b, v, gray, adj[v]@.len() as int),
        b.low@[v] == b.at(v),
    ensures
        forall|x: int|
            mutual(adj, v, x) <==> exists|k: int|
                a.stack@.len() <= k < b.stack@.len() && #[trigger] b.stack@[k] == x,
{
    reveal(Scan::linked);
    reveal(Scan::sorted_out);
    let g = gray.push(v);
    let base = a.stack@.len() as int;
    let top = Set::new(
        |x: int|
            exists|k: int| base <= k < b.stack@.len() && #[trigger] b.stack@[k] == x,
    );
    assert(g[gray.len() as int] == v);
    assert(g.contains(v));
    assert(b.stack@[base] == v);
    assert(top.contains(v));
    assert(b.waits(v));
    lemma_reaches_self(adj, v);
    // The nodes on top wait, and `v` leads to them.
    assert forall|x: int| #[trigger] top.contains(x) implies b.waits(x) && b.seen(x) && reaches(
        adj,
        v,
        x,
    ) by {
        let k = choose|k: int| base <= k < b.stack@.len() && #[trigger] b.stack@[k] == x;
        assert(b.seen(b.stack@[k] as int));
        assert(b.waits(x));
        if k > base {
            assert(b.at(b.stack@[base] as int) < b.at(b.stack@[k] as int));
        }
    }
    // A step out of the top goes to a node found before.
    assert forall|x: int, y: int|
        top.contains(x) && !top.contains(y) && #[trigger] arrow(adj, x, y) implies b.found(y)
        && 0 <= y < adj.len() by {
        let k = choose|k: int| base <= k < b.stack@.len() && #[trigger] b.stack@[k] == x;
        if k == base {
            let i = choose|i: int| 0 <= i < adj[v]@.len() && #[trigger] adj[v]@[i] == y;
            assert(b.seen(adj[v]@[i] as int));
        } else {
            assert(b.at(b.stack@[base] as int) < b.at(b.stack@[k] as int));
            if g.contains(x) {
                assert(gray.contains(x)) by {
                    let i = choose|i: int| 0 <= i < g.len() && g[i] == x;
                    assert(gray[i] == x);
                }
                assert(a.waits(x));
                let m = choose|m: int| 0 <= m < a.stack@.len() && #[trigger] a.stack@[m] == x;
                assert(b.stack@[m] == x);
                assert(b.at(b.stack@[m] as int) < b.at(b.stack@[k] as int));
            }
            assert(b.was_left(x));
            assert(b.seen(y));
        }
        assert(b.seen(y));
        if b.waits(y) {
            let m = choose|m: int| 0 <= m < b.stack@.len() && #[trigger] b.stack@[m] == y;
            assert(m < base);
            assert(a.stack@[m] == y);
            assert(a.waits(y));
            assert(b.at(b.stack@[m] as int) < b.at(b.stack@[base] as int));
            if k == base {
                let i = choose|i: int| 0 <= i < adj[v]@.len() && #[trigger] adj[v]@[i] == y;
                assert(b.seen(adj[v]@[i] as int));
            } else {
                assert(arrow(adj, b.stack@[k] as int, y));
            }
            assert(false);
        }
    }
    // A node found leads back to none that waits and leads to it.
    assert forall|y: int, z: int|
        #[trigger] b.found(y) && 0 <= y < adj.len() && reaches(adj, y, z) && b.waits(z)
            && #[trigger] reaches(adj, z, y) implies false by {
        let k = choose|k: int|
            0 <= k < b.out@.len() && (#[trigger] b.out@[k])@.contains(y as usize);
        let l = b.left@[b.lead@[k]];
        assert(is_component(adj, b.out@[k]@, l));
        assert(mutual(adj, l, y));
        lemma_reaches_transitive(adj, l, y, z);
        lemma_reaches_transitive(adj, z, y, l);
        lemma_reaches_nodes(adj, y, z);
        assert(mutual(adj, l, z));
        assert(b.out@[k]@.contains(z as usize));
        assert(b.found(z));
    }
    assert forall|x: int| mutual(adj, v, x) implies top.contains(x) by {
        if !top.contains(x) {
            let (p, q) = lemma_exit(adj, top, v, x);
            assert(b.found(q));
            lemma_reaches_transitive(adj, q, x, v);
            lemma_reaches_step(adj, p, q);
            lemma_reaches_transitive(adj, v, p, q);
        }
    }
    assert forall|x: int| top.contains(x) implies mutual(adj, v, x) by {
        assert(b.waits(x));
        let y = b.back_from(adj, g, x);
        if y != v {
            assert(gray.contains(y)) by {
                let i = choose|i: int| 0 <= i < g.len() && g[i] == y;
                assert(gray[i] == y);
            }
            assert(reaches(adj, y, v));
            lemma_reaches_transitive(adj, x, y, v);
        }
    }
    assert forall|x: int|
        mutual(adj, v, x) <==> exists|k: int|
            a.stack@.len() <= k < b.stack@.len() && #[trigger] b.stack@[k] == x by {
        assert(mutual(adj, v, x) <==> top.contains(x));
    }
}

/// The state stays in order when `v` is left and its component put out.
proof fn lemma_put_out(
    adj: Seq<Vec<usize>>,
    a: Scan,
    b: Scan,
    c: Scan,
    v: int,
    gray: Seq<int>,
    part: Vec<usize>,
)
    requires
        closed_graph(adj),
        below(adj, a, b, v, gray, adj[v]@.len() as int),
        b.low@[v] == b.at(v),
        c.index == b.index,
        c.low == b.low,
        c.next == b.next,
        c.stack@ == a.stack@,
        c.on_stack@.len() == b.on_stack@.len(),
        forall|u: int| 0 <= u < adj.len() ==> (#[trigger] c.on_stack@[u] <==> c.waits(u)),
        part@.len() == b.stack@.len() - a.stack@.len(),
        forall|j: int|
            0 <= j < part@.len() ==> #[trigger] part@[j] == b.stack@[b.stack@.len() - 1 - j],
        c.out@ == b.out@.push(part),
        c.left@ == b.left@.push(v),
        c.lead@ == b.lead@.push(b.left@.len() as int),
    ensures
        c.ok(adj, gray),
        a.grows_to(c),
        c.seen_set() == b.seen_set(),
{
    lemma_component(adj, a, b, v, gray);
    let g = gray.push(v);
    let base = a.stack@.len() as int;
    assert(g[gray.len() as int] == v);
    assert(g.contains(v));
    assert(forall|u: int| #[trigger] c.seen(u) <==> b.seen(u));
    assert(c.seen_set() =~= b.seen_set());
    assert forall|u: int| #[trigger] c.waits(u) <==> a.waits(u) by {}
    assert forall|i: int| 0 <= i < a.stack@.len() implies #[trigger] b.stack@[i] == a.stack@[i] by {}
    assert forall|u: int| #[trigger] a.waits(u) implies b.waits(u) && a.seen(u) && b.seen(u)
        && b.at(u) == a.at(u) by {
        let i = choose|i: int| 0 <= i < a.stack@.len() && #[trigger] a.stack@[i] == u;
        assert(b.stack@[i] == u);
        assert(a.seen(a.stack@[i] as int));
    }
    assert(!gray.contains(v));
    assert forall|u: int| #[trigger] g.contains(u) <==> u == v || gray.contains(u) by {
        if gray.contains(u) {
            let i = choose|i: int| 0 <= i < gray.len() && gray[i] == u;
            assert(g[i] == u);
        }
        if g.contains(u) && u != v {
            let i = choose|i: int| 0 <= i < g.len() && g[i] == u;
            assert(gray[i] == u);
        }
    }
    assert(!b.was_left(v));
    assert forall|u: int| #[trigger] c.was_left(u) <==> u == v || b.was_left(u) by {
        assert(c.left@[b.left@.len() as int] == v);
        if b.was_left(u) {
            let i = choose|i: int| 0 <= i < b.left@.len() && b.left@[i] == u;
            assert(c.left@[i] == u);
        }
    }
    assert(c.shaped(adj)) by {
        assert forall|i: int| 0 <= i < c.stack@.len() implies c.seen(
            #[trigger] c.stack@[i] as int,
        ) by {
            assert(b.stack@[i] == c.stack@[i]);
            assert(b.seen(b.stack@[i] as int));
        }
        assert forall|i: int, j: int| 0 <= i < j < c.stack@.len() implies c.at(
            #[trigger] c.stack@[i] as int,
        ) < c.at(#[trigger] c.stack@[j] as int) by {
            assert(b.stack@[i] == c.stack@[i]);
            assert(b.stack@[j] == c.stack@[j]);
        }
    }
    assert(c.split_by(gray));
    assert(c.linked(adj, gray)) by {
        reveal(Scan::linked);
        assert forall|p: int, q: int| #[trigger] c.was_left(p) && #[trigger] arrow(
            adj,
            p,
            q,
        ) implies c.seen(q) by {
            if p == v {
                let i = choose|i: int| 0 <= i < adj[v]@.len() && #[trigger] adj[v]@[i] == q;
                assert(b.seen(adj[v]@[i] as int));
            } else {
                assert(b.was_left(p));
            }
        }
        assert forall|x: int| #[trigger] c.waits(x) implies c.leads_back(adj, gray, x) by {
            assert(a.waits(x));
            let y = a.back_from(adj, gray, x);
            assert(a.seen(y));
            assert(b.at(y) == a.at(y));
            c.back_to(adj, gray, x, y);
        }
        assert forall|x: int, y: int|
            #[trigger] gray.contains(x) && #[trigger] c.waits(y) && c.at(x) <= c.at(
                y,
            ) implies reaches(adj, x, y) by {
            assert(a.waits(y));
            assert(a.seen(x));
            assert(b.at(x) == a.at(x));
        }
    }
    assert(is_component(adj, part@, v)) by {
        assert forall|i: int, j: int|
            0 <= i < part@.len() && 0 <= j < part@.len() && i != j implies part@[i] != part@[j] by {
            let p = b.stack@.len() - 1 - i;
            let q = b.stack@.len() - 1 - j;
            if p < q {
                assert(b.at(b.stack@[p] as int) < b.at(b.stack@[q] as int));
            } else {
                assert(b.at(b.stack@[q] as int) < b.at(b.stack@[p] as int));
            }
        }
        assert forall|i: int| 0 <= i < part@.len() implies (#[trigger] part@[i]) < adj.len() by {
            assert(b.seen(b.stack@[b.stack@.len() - 1 - i] as int));
        }
        assert forall|x: int| 0 <= x < adj.len() implies (#[trigger] part@.contains(x as usize)
            <==> mutual(adj, v, x)) by {
            if mutual(adj, v, x) {
                let k = choose|k: int| base <= k < b.stack@.len() && #[trigger] b.stack@[k] == x;
                assert(part@[b.stack@.len() - 1 - k] == x);
            }
            if part@.contains(x as usize) {
                let j = choose|j: int| 0 <= j < part@.len() && part@[j] == x as usize;
                assert(b.stack@[b.stack@.len() - 1 - j] == x);
            }
        }
    }
    assert(c.sorted_out(adj)) by {
        reveal(Scan::sorted_out);
        let n = b.out@.len() as int;
        assert(c.out@[n] == part);
        assert forall|k: int| 0 <= k < c.out@.len() implies 0 <= #[trigger] c.lead@[k]
            < c.left@.len() && is_component(adj, c.out@[k]@, c.left@[c.lead@[k]]) by {
            if k < n {
                assert(b.lead@[k] == c.lead@[k]);
                assert(b.out@[k] == c.out@[k]);
                assert(c.left@[c.lead@[k]] == b.left@[b.lead@[k]]);
            }
        }
        assert forall|k: int, m: int| 0 <= k < m < c.out@.len() implies #[trigger] c.lead@[k]
            < #[trigger] c.lead@[m] by {
            assert(b.lead@[k] == c.lead@[k]);
            if m < n {
                assert(b.lead@[m] == c.lead@[m]);
            }
        }
        assert forall|u: int| #[trigger] c.found(u) && 0 <= u < adj.len() <==> c.seen(u)
            && !c.waits(u) by {
            if c.found(u) && 0 <= u < adj.len() {
                let k = choose|k: int|
                    0 <= k < c.out@.len() && (#[trigger] c.out@[k])@.contains(u as usize);
                if k < n {
                    assert(b.out@[k] == c.out@[k]);
                    assert(b.found(u));
                    if a.waits(u) {
                        assert(b.waits(u));
                    }
                } else {
                    let j = choose|j: int| 0 <= j < part@.len() && part@[j] == u as usize;
                    let q = b.stack@.len() - 1 - j;
                    assert(b.seen(b.stack@[q] as int));
                    if a.waits(u) {
                        let i = choose|i: int|
                            0 <= i < a.stack@.len() && #[trigger] a.stack@[i] == u;
                        assert(b.stack@[i] == u);
                        assert(b.at(b.stack@[i] as int) < b.at(b.stack@[q] as int));
                    }
                }
            }
            if c.seen(u) && !c.waits(u) {
                if b.waits(u) {
                    let q = choose|q: int| 0 <= q < b.stack@.len() && #[trigger] b.stack@[q] == u;
                    if q < base {
                        assert(a.stack@[q] == u);
                        assert(a.waits(u));
                    }
                    assert(part@[b.stack@.len() - 1 - q] == u);
                    assert(c.out@[n]@.contains(u as usize));
                } else {
                    assert(b.found(u));
                    let k = choose|k: int|
                        0 <= k < b.out@.len() && (#[trigger] b.out@[k])@.contains(u as usize);
                    assert(c.out@[k] == b.out@[k]);
                }
                assert(c.found(u));
            }
        }
        assert forall|k: int, i: int|
            0 <= k < c.out@.len() && 0 <= i < c.left@.len() && mutual(
                adj,
                c.left@[#[trigger] c.lead@[k]],
                #[trigger] c.left@[i],
            ) implies i <= c.lead@[k] by {
            if k < n {
                assert(b.lead@[k] == c.lead@[k]);
                assert(c.left@[c.lead@[k]] == b.left@[b.lead@[k]]);
                if i < b.left@.len() {
                    assert(c.left@[i] == b.left@[i]);
                } else {
                    assert(is_component(adj, b.out@[k]@, b.left@[b.lead@[k]]));
                    assert(b.out@[k]@.contains(v as usize));
                    assert(b.found(v));
                    assert(b.stack@[base] == v);
                    assert(b.waits(v));
                }
            }
        }
    }
    assert forall|u: int| a.seen(u) implies #[trigger] c.low@[u] == a.low@[u] by {
        assert(b.low@[u] == a.low@[u]);
    }
}

/// The state stays in order when `v` is left and goes on waiting.
proof fn lemma_keep_waiting(
    adj: Seq<Vec<usize>>,
    a: Scan,
    b: Scan,
    c: Scan,
    v: int,
    gray: Seq<int>,
)
    requires
        closed_graph(adj),
        below(adj, a, b, v, gray, adj[v]@.len() as int),
        b.low@[v] < b.at(v),
        c == (Scan {
            left: Ghost(b.left@.push(v)),
            ..b
        }),
    ensures
        c.ok(adj, gray),
        a.grows_to(c),
        c.seen_set() == b.seen_set(),
        forall|u: int| #[trigger] c.waits(u) <==> b.waits(u),
{
    let g = gray.push(v);
    assert(c.stack == b.stack);
    assert(c.out == b.out);
    assert(c.lead == b.lead);
    assert(g[gray.len() as int] == v);
    assert(g.contains(v));
    assert(forall|u: int| #[trigger] c.seen(u) <==> b.seen(u));
    assert(c.seen_set() =~= b.seen_set());
    assert(forall|u: int| #[trigger] c.waits(u) <==> b.waits(u));
    assert(forall|u: int| #[trigger] c.found(u) <==> b.found(u));
    assert(!gray.contains(v));
    assert forall|u: int| #[trigger] g.contains(u) <==> u == v || gray.contains(u) by {
        if gray.contains(u) {
            let i = choose|i: int| 0 <= i < gray.len() && gray[i] == u;
            assert(g[i] == u);
        }
        if g.contains(u) && u != v {
            let i = choose|i: int| 0 <= i < g.len() && g[i] == u;
            assert(gray[i] == u);
        }
    }
    assert(!b.was_left(v));
    assert forall|u: int| #[trigger] c.was_left(u) <==> u == v || b.was_left(u) by {
        assert(c.left@[b.left@.len() as int] == v);
        if b.was_left(u) {
            let i = choose|i: int| 0 <= i < b.left@.len() && b.left@[i] == u;
            assert(c.left@[i] == u);
        }
    }
    assert(c.shaped(adj));
    assert(c.split_by(gray)) by {
        assert forall|u: int| #[trigger] gray.contains(u) implies c.seen(u) && c.waits(u) by {
            assert(g.contains(u));
        }
    }
    assert(c.linked(adj, gray)) by {
        reveal(Scan::linked);
        assert forall|p: int, q: int| #[trigger] c.was_left(p) && #[trigger] arrow(
            adj,
            p,
            q,
        ) implies c.seen(q) by {
            if p == v {
                let i = choose|i: int| 0 <= i < adj[v]@.len() && #[trigger] adj[v]@[i] == q;
                assert(b.seen(adj[v]@[i] as int));
            } else {
                assert(b.was_left(p));
            }
        }
        let y0 = choose|y: int| #[trigger]
            b.waits(y) && reaches(adj, v, y) && b.at(y) == b.low@[v];
        let z = b.back_from(adj, g, y0);
        assert(z != v);
        assert(gray.contains(z));
        lemma_reaches_transitive(adj, v, y0, z);
        assert forall|x: int| #[trigger] c.waits(x) implies c.leads_back(adj, gray, x) by {
            assert(b.waits(x));
            let y = b.back_from(adj, g, x);
            if y == v {
                lemma_reaches_transitive(adj, x, v, z);
                c.back_to(adj, gray, x, z);
            } else {
                assert(gray.contains(y));
                c.back_to(adj, gray, x, y);
            }
        }
        assert forall|x: int, y: int|
            #[trigger] gray.contains(x) && #[trigger] c.waits(y) && c.at(x) <= c.at(
                y,
            ) implies reaches(adj, x, y) by {
            assert(g.contains(x));
            assert(b.waits(y));
        }
    }
    assert(c.sorted_out(adj)) by {
        reveal(Scan::sorted_out);
        assert forall|k: int| 0 <= k < c.out@.len() implies 0 <= #[trigger] c.lead@[k]
            < c.left@.len() && is_component(adj, c.out@[k]@, c.left@[c.lead@[k]]) by {
            assert(0 <= b.lead@[k] < b.left@.len());
            assert(c.left@[c.lead@[k]] == b.left@[b.lead@[k]]);
        }
        assert forall|k: int, i: int|
            0 <= k < c.out@.len() && 0 <= i < c.left@.len() && mutual(
                adj,
                c.left@[#[trigger] c.lead@[k]],
                #[trigger] c.left@[i],
            ) implies i <= c.lead@[k] by {
            assert(0 <= b.lead@[k] < b.left@.len());
            assert(c.left@[c.lead@[k]] == b.left@[b.lead@[k]]);
            if i < b.left@.len() {
                assert(c.left@[i] == b.left@[i]);
            } else {
                assert(is_component(adj, b.out@[k]@, b.left@[b.lead@[k]]));
                assert(b.out@[k]@.contains(v as usize));
                assert(b.found(v));
                assert(b.stack@[a.stack@.len() as int] == v);
                assert(b.waits(v));
            }
        }
    }
    assert forall|u: int| a.seen(u) implies #[trigger] c.low@[u] == a.low@[u] by {
        assert(b.low@[u] == a.low@[u]);
    }
}


/// Enters `v` and all that can be entered from it, and puts out the components
/// that are complete by then.
fn strongconnect(adj: &Vec<Vec<usize>>, v: usize, s: &mut Scan, Ghost(gray): Ghost<Seq<int>>)
    requires
        closed_graph(adj@),
        v < adj@.len(),
        !old(s).seen(v as int),
        old(s).ok(adj@, gray),
        forall|x: int| #[trigger] gray.contains(x) ==> reaches(adj@, x, v as int),
    ensures
        final(s).ok(adj@, gray),
        old(s).grows_to(*final(s)),
        final(s).seen(v as int),
        final(s).at(v as int) == old(s).next,
        forall|y: int| #[trigger]
            final(s).seen(y) && !old(s).seen(y) ==> reaches(adj@, v as int, y),
        final(s).low@[v as int] <= final(s).at(v as int),
        (final(s).low@[v as int] == final(s).at(v as int) && final(s).stack@ == old(s).stack@)
            || exists|y: int| #[trigger]
            final(s).waits(y) && reaches(adj@, v as int, y) && final(s).at(y) == final(s).low@[v as int],
        forall|k: int, y: int|
            old(s).stack@.len() <= k < final(s).stack@.len() && old(s).waits(y)
                && #[trigger] arrow(adj@, final(s).stack@[k] as int, y) ==> final(s).low@[v as int] <= final(s).at(y),
        gray.len() < adj@.len(),
        ({
            let below = search_from(
                adj@,
                adj@[v as int]@,
                (old(s).seen_set().insert(v as int), old(s).left@),
                (adj@.len() - gray.len() - 1) as nat,
            );
            (final(s).seen_set(), final(s).left@) == (below.0, below.1.push(v as int))
        }),
    decreases adj@.len() - gray.len(),
{
    let ghost a = *s;
    let ghost g = gray.push(v as int);
    let base: usize = s.stack.len();
    proof {
        assert(!gray.contains(v as int));
        assert forall|i: int| 0 <= i < g.len() implies 0 <= #[trigger] g[i] < adj@.len() by {
            if i < gray.len() {
                assert(gray.contains(gray[i]));
            }
        }
        lemma_distinct_bound(g, adj@.len());
        assert forall|u: int| #[trigger] a.seen_set().insert(v as int).contains(u) implies 0 <= u
            < adj@.len() by {}
        lemma_node_set(adj@, a.seen_set().insert(v as int));
        assert(!a.seen_set().contains(v as int));
    }
    let number: usize = s.next;
    s.index.set(v, Some(number));
    s.low.set(v, number);
    s.next = number + 1;
    s.stack.push(v);
    s.on_stack.set(v, true);
    let ghost depth = (adj@.len() - gray.len() - 1) as nat;
    proof {
        lemma_enter(adj@, a, *s, v as int, gray);
        lemma_reaches_self(adj@, v as int);
        assert(s.waits(v as int));
        assert(adj@[v as int]@.take(0) =~= Seq::<usize>::empty());
        assert(below(adj@, a, *s, v as int, gray, 0)) by {
            assert forall|y: int| #[trigger] s.seen(y) && !a.seen(y) implies reaches(
                adj@,
                v as int,
                y,
            ) by {
                assert(y == v);
            }
        }
    }
    let n: usize = adj[v].len();
    let mut i: usize = 0;
    while i < n
        invariant
            closed_graph(adj@),
            v < adj@.len(),
            n == adj@[v as int]@.len(),
            i <= n,
            gray.len() < adj@.len(),
            depth == adj@.len() - gray.len() - 1,
            g == gray.push(v as int),
            below(adj@, a, *s, v as int, gray, i as int),
            (s.seen_set(), s.left@) == search_from(
                adj@,
                adj@[v as int]@.take(i as int),
                (a.seen_set().insert(v as int), a.left@),
                depth,
            ),
        decreases n - i,
    {
        let w: usize = adj[v][i];
        let ghost b = *s;
        proof {
            text::lemma_take_step(adj@[v as int]@, i as int);
            assert(arrow(adj@, v as int, w as int));
            lemma_reaches_step(adj@, v as int, w as int);
        }
        match s.index[w] {
            None => {
                proof {
                    assert(!b.seen(w as int));
                    assert(!b.seen_set().contains(w as int));
                    assert forall|x: int| #[trigger] g.contains(x) implies reaches(
                        adj@,
                        x,
                        w as int,
                    ) by {
                        if x != v {
                            let k = choose|k: int| 0 <= k < g.len() && g[k] == x;
                            assert(gray[k] == x);
                            assert(gray.contains(x));
                            lemma_reaches_transitive(adj@, x, v as int, w as int);
                        }
                    }
                }
                strongconnect(adj, w, s, Ghost(g));
                let ghost c = *s;
                let of_w: usize = s.low[w];
                let of_v: usize = s.low[v];
                if of_w < of_v {
                    s.low.set(v, of_w);
                }
                proof {
                    assert(s.low@ =~= c.low@.update(
                        v as int,
                        if of_v <= of_w {
                            of_v
                        } else {
                            of_w
                        },
                    ));
                    lemma_below_step(adj@, a, b, c, *s, v as int, w as int, gray, i as int);
                    lemma_low_free(adj@, c, *s, g);
                }
            },
            Some(number_of_w) => {
                assert(b.seen(w as int));
                assert(b.seen_set().contains(w as int));
                if s.on_stack[w] {
                    let of_v: usize = s.low[v];
                    if number_of_w < of_v {
                        s.low.set(v, number_of_w);
                    }
                }
                proof {
                    lemma_below_skip(adj@, a, b, *s, v as int, w as int, gray, i as int);
                    lemma_low_free(adj@, b, *s, g);
                }
            },
        }
        i = i + 1;
    }
    proof {
        text::lemma_take_all(adj@[v as int]@);
    }
    let ghost b = *s;
    let low_v: usize = s.low[v];
    if low_v == number {
        let mut part: Vec<usize> = Vec::new();
        while s.stack.len() > base
            invariant
                base == a.stack@.len(),
                below(adj@, a, b, v as int, gray, adj@[v as int]@.len() as int),
                s.index == b.index,
                s.low == b.low,
                s.next == b.next,
                s.out == b.out,
                s.left == b.left,
                s.lead == b.lead,
                base <= s.stack@.len() <= b.stack@.len(),
                s.stack@ == b.stack@.take(s.stack@.len() as int),
                s.on_stack@.len() == adj@.len(),
                forall|u: int|
                    0 <= u < adj@.len() ==> (#[trigger] s.on_stack@[u] <==> s.waits(u)),
                part@.len() == b.stack@.len() - s.stack@.len(),
                forall|j: int|
                    0 <= j < part@.len() ==> #[trigger] part@[j] == b.stack@[b.stack@.len() - 1
                        - j],
            decreases s.stack@.len(),
        {
            let ghost before = *s;
            match s.stack.pop() {
                Some(w) => {
                    let ghost m = s.stack@.len() as int;
                    assert(w == b.stack@[m]);
                    assert(b.seen(b.stack@[m] as int));
                    s.on_stack.set(w, false);
                    part.push(w);
                    assert forall|u: int| 0 <= u < adj@.len() implies (
                    #[trigger] s.on_stack@[u] <==> s.waits(u)) by {
                        if s.waits(u) {
                            let k = choose|k: int|
                                0 <= k < s.stack@.len() && #[trigger] s.stack@[k] == u;
                            assert(b.stack@[k] == u);
                            assert(before.stack@[k] == u);
                            assert(before.waits(u));
                            assert(b.at(b.stack@[k] as int) < b.at(b.stack@[m] as int));
                        }
                        if u != w && before.waits(u) {
                            let k = choose|k: int|
                                0 <= k < before.stack@.len() && #[trigger] before.stack@[k] == u;
                            assert(s.stack@[k] == u);
                        }
                    }
                },
                None => {},
            }
        }
        assert(s.stack@ =~= a.stack@) by {
            assert forall|k: int| 0 <= k < base implies b.stack@[k] == a.stack@[k] by {}
        }
        let ghost part_view = part;
        s.out.push(part);
        s.lead = Ghost(b.lead@.push(b.left@.len() as int));
        s.left = Ghost(b.left@.push(v as int));
        proof {
            lemma_put_out(adj@, a, b, *s, v as int, gray, part_view);
        }
    } else {
        s.left = Ghost(b.left@.push(v as int));
        proof {
            lemma_keep_waiting(adj@, a, b, *s, v as int, gray);
            assert forall|k: int, y: int|
                a.stack@.len() <= k < s.stack@.len() && a.waits(y) && #[trigger] arrow(
                    adj@,
                    s.stack@[k] as int,
                    y,
                ) implies s.low@[v as int] <= s.at(y) by {
                if k == a.stack@.len() {
                    let j = choose|j: int|
                        0 <= j < adj@[v as int]@.len() && #[trigger] adj@[v as int]@[j] == y;
                    assert(b.seen(adj@[v as int]@[j] as int));
                } else {
                    assert(arrow(adj@, b.stack@[k] as int, y));
                }
            }
            let y0 = choose|y: int| #[trigger]
                b.waits(y) && reaches(adj@, v as int, y) && b.at(y) == b.low@[v as int];
            assert(s.waits(y0));
        }
    }
    assert forall|y: int| #[trigger] s.seen(y) && !a.seen(y) implies reaches(adj@, v as int, y) by {
        assert(b.seen(y));
    }
}

/// Two ascending lists of the same numbers are the same list.
proof fn lemma_ascending_numbers(a: Seq<int>, b: Seq<int>)
    requires
        forall|i: int, j: int| 0 <= i < j < a.len() ==> #[trigger] a[i] < #[trigger] a[j],
        forall|i: int, j: int| 0 <= i < j < b.len() ==> #[trigger] b[i] < #[trigger] b[j],
        forall|x: int| a.contains(x) <==> b.contains(x),
    ensures
        a == b,
    decreases a.len(),
{
    if a.len() == 0 {
        if b.len() > 0 {
            assert(b.contains(b[0]));
        }
        assert(a =~= b);
    } else if b.len() == 0 {
        assert(a.contains(a[0]));
    } else {
        let x = a.last();
        let y = b.last();
        assert(a.contains(x));
        assert(b.contains(y));
        let i = choose|i: int| 0 <= i < b.len() && b[i] == x;
        let j = choose|j: int| 0 <= j < a.len() && a[j] == y;
        assert(x == y);
        let p = a.drop_last();
        let q = b.drop_last();
        assert forall|z: int| p.contains(z) <==> q.contains(z) by {
            if p.contains(z) {
                let k = choose|k: int| 0 <= k < p.len() && p[k] == z;
                assert(a[k] == z);
                assert(b.contains(z));
                let m = choose|m: int| 0 <= m < b.len() && b[m] == z;
                assert(q[m] == z);
            }
            if q.contains(z) {
                let k = choose|k: int| 0 <= k < q.len() && q[k] == z;
                assert(b[k] == z);
                assert(a.contains(z));
                let m = choose|m: int| 0 <= m < a.len() && a[m] == z;
                assert(p[m] == z);
            }
        }
        lemma_ascending_numbers(p, q);
        assert(a =~= p.push(x));
        assert(b =~= q.push(y));
    }
}

/// Where the leads stand in the order of leaving.
pub open spec fn lead_places(adj: Seq<Vec<usize>>, left: Seq<int>, n: int) -> Seq<int>
    decreases n,
{
    if n <= 0 {
        Seq::empty()
    } else if is_lead(adj, left, n - 1) {
        lead_places(adj, left, n - 1).push(n - 1)
    } else {
        lead_places(adj, left, n - 1)
    }
}

/// The places of the leads rise, and are all there are.
pub proof fn lemma_lead_places(adj: Seq<Vec<usize>>, left: Seq<int>, n: int)
    requires
        n <= left.len(),
    ensures
        ({
            let p = lead_places(adj, left, n);
            let r = leads(adj, left, n);
            &&& p.len() == r.len()
            &&& forall|i: int|
                0 <= i < p.len() ==> 0 <= #[trigger] p[i] < n && is_lead(adj, left, p[i])
                    && r[i] == left[p[i]]
            &&& forall|i: int, j: int| 0 <= i < j < p.len() ==> #[trigger] p[i] < #[trigger] p[j]
            &&& forall|x: int| 0 <= x < n && is_lead(adj, left, x) ==> #[trigger] p.contains(x)
        }),
    decreases n,
{
    if n > 0 {
        lemma_lead_places(adj, left, n - 1);
        let q = lead_places(adj, left, n - 1);
        let p = lead_places(adj, left, n);
        assert forall|x: int| 0 <= x < n && is_lead(adj, left, x) implies #[trigger] p.contains(
            x,
        ) by {
            if x < n - 1 {
                assert(q.contains(x));
                let i = choose|i: int| 0 <= i < q.len() && q[i] == x;
                assert(p[i] == x);
            } else {
                assert(p[p.len() - 1] == x);
            }
        }
    }
}

/// A search only adds; what it enters it leaves; and it enters what it is given.
proof fn lemma_search(
    adj: Seq<Vec<usize>>,
    list: Seq<usize>,
    state: (Set<int>, Seq<int>),
    depth: nat,
)
    ensures
        ({
            let r = search_from(adj, list, state, depth);
            &&& forall|x: int| #[trigger] state.0.contains(x) ==> r.0.contains(x)
            &&& forall|x: int| #[trigger] state.1.contains(x) ==> r.1.contains(x)
            &&& forall|x: int| #[trigger]
                r.0.contains(x) && !state.0.contains(x) ==> r.1.contains(x)
            &&& depth > 0 ==> forall|i: int|
                0 <= i < list.len() ==> r.0.contains(#[trigger] list[i] as int)
        }),
    decreases depth, list.len(),
{
    if list.len() > 0 {
        let t = list.drop_last();
        lemma_search(adj, t, state, depth);
        let (seen, left) = search_from(adj, t, state, depth);
        let v = list.last() as int;
        let r = search_from(adj, list, state, depth);
        if !(seen.contains(v) || depth == 0) {
            let inner = (seen.insert(v), left);
            lemma_search(adj, adj[v]@, inner, (depth - 1) as nat);
            let below = search_from(adj, adj[v]@, inner, (depth - 1) as nat);
            assert forall|x: int| below.1.contains(x) implies #[trigger] r.1.contains(x) by {
                let k = choose|k: int| 0 <= k < below.1.len() && below.1[k] == x;
                assert(r.1[k] == x);
            }
            assert(r.1[below.1.len() as int] == v);
            assert forall|x: int| #[trigger] state.0.contains(x) implies r.0.contains(x) by {
                assert(inner.0.contains(x));
            }
            assert forall|x: int| #[trigger] state.1.contains(x) implies r.1.contains(x) by {
                assert(left.contains(x));
                assert(inner.1.contains(x));
                assert(below.1.contains(x));
            }
            assert forall|x: int| #[trigger] r.0.contains(x) && !state.0.contains(
                x,
            ) implies r.1.contains(x) by {
                if inner.0.contains(x) {
                    if x != v {
                        assert(seen.contains(x));
                        assert(left.contains(x));
                        assert(inner.1.contains(x));
                        assert(below.1.contains(x));
                    }
                } else {
                    assert(below.1.contains(x));
                }
            }
        }
        if depth > 0 {
            assert forall|i: int| 0 <= i < list.len() implies r.0.contains(
                #[trigger] list[i] as int,
            ) by {
                if i < t.len() {
                    assert(seen.contains(t[i] as int));
                    assert(seen.insert(v).contains(t[i] as int));
                } else {
                    assert(seen.insert(v).contains(v));
                }
            }
        }
    }
}

/// Every node is left.
pub proof fn lemma_all_left(adj: Seq<Vec<usize>>, v: int)
    requires
        0 <= v < adj.len() <= usize::MAX,
    ensures
        leaving_order(adj).contains(v),
{
    let all = Seq::new(adj.len(), |i: int| i as usize);
    lemma_search(adj, all, (Set::empty(), Seq::empty()), adj.len());
    assert(all[v] == v);
}

/// Of the nodes left from `n` on none shares the component of `v`: then the last
/// before `n` that does is its lead.
proof fn lemma_last_of_component(adj: Seq<Vec<usize>>, left: Seq<int>, v: int, n: int) -> (i: int)
    requires
        0 <= n <= left.len(),
        reaches(adj, v, v),
        exists|k: int| 0 <= k < n && #[trigger] left[k] == v,
        forall|j: int| n <= j < left.len() ==> !mutual(adj, v, #[trigger] left[j]),
    ensures
        is_lead(adj, left, i),
        mutual(adj, v, left[i]),
        i < n,
    decreases n,
{
    let k = choose|k: int| 0 <= k < n && #[trigger] left[k] == v;
    assert(mutual(adj, v, left[k]));
    if mutual(adj, v, left[n - 1]) {
        let i = n - 1;
        assert forall|j: int| i < j < left.len() implies !mutual(
            adj,
            left[i],
            #[trigger] left[j],
        ) by {
            if mutual(adj, left[i], left[j]) {
                lemma_reaches_transitive(adj, v, left[i], left[j]);
                lemma_reaches_transitive(adj, left[j], left[i], v);
            }
        }
        i
    } else {
        assert(k < n - 1);
        lemma_last_of_component(adj, left, v, n - 1)
    }
}

/// Every node that is left shares its component with a lead.
pub proof fn lemma_lead_of(adj: Seq<Vec<usize>>, left: Seq<int>, v: int) -> (k: int)
    requires
        left.contains(v),
        0 <= v < adj.len(),
    ensures
        0 <= k < leads(adj, left, left.len() as int).len(),
        mutual(adj, v, leads(adj, left, left.len() as int)[k]),
{
    lemma_reaches_self(adj, v);
    let n = left.len() as int;
    let at = left.index_of(v);
    assert(left[at] == v);
    let i = lemma_last_of_component(adj, left, v, n);
    lemma_lead_places(adj, left, n);
    let p = lead_places(adj, left, n);
    assert(p.contains(i));
    p.index_of(i)
}

/// Two leads share no component.
pub proof fn lemma_leads_apart(adj: Seq<Vec<usize>>, left: Seq<int>, k: int, m: int)
    requires
        0 <= k < m < leads(adj, left, left.len() as int).len(),
    ensures
        !mutual(
            adj,
            leads(adj, left, left.len() as int)[k],
            leads(adj, left, left.len() as int)[m],
        ),
{
    let n = left.len() as int;
    lemma_lead_places(adj, left, n);
    let p = lead_places(adj, left, n);
    assert(p[k] < p[m]);
    assert(is_lead(adj, left, p[k]));
    assert(0 <= p[m] < n);
    assert(!mutual(adj, left[p[k]], left[p[m]]));
}

/// The strongly connected components of a graph, each as its nodes, in the
/// order in which a depth-first search leaves the last node of each.
pub fn tarjan_scc(adj: &Vec<Vec<usize>>) -> (r: Vec<Vec<usize>>)
    requires
        closed_graph(adj@),
    ensures
        r@.len() == leads(
            adj@,
            leaving_order(adj@),
            leaving_order(adj@).len() as int,
        ).len(),
        forall|k: int|
            0 <= k < r@.len() ==> is_component(
                adj@,
                (#[trigger] r@[k])@,
                leads(adj@, leaving_order(adj@), leaving_order(adj@).len() as int)[k],
            ),
        forall|v: int| #[trigger] leaving_order(adj@).contains(v) <==> 0 <= v < adj@.len(),
{
    let n: usize = adj.len();
    let mut s = Scan {
        index: Vec::new(),
        low: Vec::new(),
        on_stack: Vec::new(),
        stack: Vec::new(),
        next: 0,
        out: Vec::new(),
        left: Ghost(Seq::empty()),
        lead: Ghost(Seq::empty()),
    };
    let mut i: usize = 0;
    while i < n
        invariant
            i <= n,
            s.index@.len() == i,
            s.low@.len() == i,
            s.on_stack@.len() == i,
            forall|v: int| 0 <= v < i ==> #[trigger] s.index@[v] is None,
            forall|v: int| 0 <= v < i ==> !#[trigger] s.on_stack@[v],
            s.stack@.len() == 0,
            s.next == 0,
            s.out@.len() == 0,
            s.left@.len() == 0,
            s.lead@.len() == 0,
        decreases n - i,
    {
        s.index.push(None);
        s.low.push(0);
        s.on_stack.push(false);
        i = i + 1;
    }
    let ghost none: Seq<int> = Seq::empty();
    let ghost all = Seq::new(adj@.len(), |k: int| k as usize);
    proof {
        assert(s.seen_set() =~= Set::<int>::empty());
        assert(s.left@ =~= Seq::<int>::empty());
        assert(s.ok(adj@, none)) by {
            reveal(Scan::linked);
            reveal(Scan::sorted_out);
        }
        assert(all.take(0) =~= Seq::<usize>::empty());
    }
    let mut v: usize = 0;
    while v < n
        invariant
            closed_graph(adj@),
            n == adj@.len(),
            v <= n,
            none == Seq::<int>::empty(),
            all == Seq::new(adj@.len(), |k: int| k as usize),
            s.ok(adj@, none),
            (s.seen_set(), s.left@) == search_from(
                adj@,
                all.take(v as int),
                (Set::empty(), Seq::empty()),
                adj@.len(),
            ),
            forall|u: int| 0 <= u < v ==> s.seen(u),
        decreases n - v,
    {
        proof {
            text::lemma_take_step(all, v as int);
        }
        let ghost before = s;
        if s.index[v].is_none() {
            proof {
                assert(!s.seen_set().contains(v as int));
            }
            strongconnect(adj, v, &mut s, Ghost(none));
        } else {
            assert(s.seen(v as int));
            assert(s.seen_set().contains(v as int));
        }
        assert forall|u: int| 0 <= u < v + 1 implies s.seen(u) by {
            if u < v {
                assert(before.seen(u));
            }
        }
        v = v + 1;
    }
    proof {
        text::lemma_take_all(all);
        let left = s.left@;
        assert(left == leaving_order(adj@));
        reveal(Scan::linked);
        reveal(Scan::sorted_out);
        assert forall|u: int| 0 <= u < adj@.len() implies s.found(u) by {
            assert(s.seen(u));
            if s.waits(u) {
                s.back_from(adj@, none, u);
            }
        }
        assert forall|u: int| #[trigger] left.contains(u) <==> 0 <= u < adj@.len() by {
            assert(s.was_left(u) <==> s.seen(u) && !none.contains(u));
        }
        let p = lead_places(adj@, left, left.len() as int);
        lemma_lead_places(adj@, left, left.len() as int);
        assert forall|x: int| p.contains(x) <==> s.lead@.contains(x) by {
            if p.contains(x) {
                let i = choose|i: int| 0 <= i < p.len() && p[i] == x;
                assert(is_lead(adj@, left, x));
                assert(left.contains(left[x]));
                assert(s.found(left[x]));
                let k = choose|k: int|
                    0 <= k < s.out@.len() && (#[trigger] s.out@[k])@.contains(left[x] as usize);
                let l = s.lead@[k];
                assert(is_component(adj@, s.out@[k]@, left[l]));
                assert(mutual(adj@, left[l], left[x]));
                assert(x <= l);
                if x < l {
                    assert(!mutual(adj@, left[x], left[l]));
                }
                assert(s.lead@[k] == x);
            }
            if s.lead@.contains(x) {
                let k = choose|k: int| 0 <= k < s.lead@.len() && s.lead@[k] == x;
                assert(0 <= s.lead@[k] < left.len());
                assert forall|j: int| x < j < left.len() implies !mutual(
                    adj@,
                    left[x],
                    #[trigger] left[j],
                ) by {
                    if mutual(adj@, left[s.lead@[k]], left[j]) {
                        assert(j <= s.lead@[k]);
                    }
                }
                assert(is_lead(adj@, left, x));
            }
        }
        lemma_ascending_numbers(p, s.lead@);
        assert forall|k: int| 0 <= k < s.out@.len() implies is_component(
            adj@,
            (#[trigger] s.out@[k])@,
            leads(adj@, left, left.len() as int)[k],
        ) by {
            assert(0 <= s.lead@[k] < left.len());
            assert(p[k] == s.lead@[k]);
        }
    }
    s.out
}

} // verus!
