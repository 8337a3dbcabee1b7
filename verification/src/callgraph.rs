//! The transitive call graph, its nodes addressed by fully qualified names.
//!
//! The index gives each function and class its name and its place; a source of
//! edges says what is called from a place and what calls it. A breadth-first
//! walk from a symbol yields all that it reaches, or all that reaches it.
use crate::model::{is_callable, Def, DefKind, FileIndex};
use crate::model;
use crate::names::{fallback_fqn, fqn_of, parse_query, scope_fqn, scoped_by};
use crate::names;
use crate::sort::{reversed, Ranked, sort};
use crate::sort;
use crate::table::{Key, Table};
use crate::table;
use crate::text::{leaf_of, same, text_before};
use crate::text;
use vstd::prelude::*;

verus! {

/// A path and a byte offset in it.
pub type Spot = (Seq<char>, u32);

/// A direct base of a class. It has an anchor where it is a class of the
/// project, and none where it is external or unknown.
#[derive(Clone, Debug)]
pub struct SuperClass {
    pub name: String,
    pub anchor: Option<(String, u32)>,
}

/// What a base class is, with texts in place of strings.
pub struct SuperView {
    pub name: Seq<char>,
    pub anchor: Option<Spot>,
}

impl View for SuperClass {
    type V = SuperView;

    open spec fn view(&self) -> SuperView {
        SuperView {
            name: self.name@,
            anchor: match self.anchor {
                Some(a) => Some(a@),
                None => None,
            },
        }
    }
}

/// Whether a name is a member of a module.
#[derive(Clone, Copy, Debug, PartialEq, Eq, Structural)]
pub enum MemberCheck {
    /// The module declares it.
    Present,
    /// The module was read, does not declare it, and cannot add it later.
    Absent,
    /// No readable module was found.
    Unknown,
}

/// A callable next to another in the call graph.
#[derive(Clone, Debug)]
pub struct Neighbor {
    pub path: String,
    /// The byte offset of its name.
    pub offset: u32,
    pub line: usize,
    pub col: usize,
    pub name: String,
    /// `function`, `method`, `class`, and the like.
    pub kind: &'static str,
}

/// What a neighbour is, with texts in place of strings.
#[verifier::ext_equal]
pub struct NeighborView {
    pub path: Seq<char>,
    pub offset: u32,
    pub line: usize,
    pub col: usize,
    pub name: Seq<char>,
    pub kind: Seq<char>,
}

impl NeighborView {
    pub open spec fn spot(self) -> Spot {
        (self.path, self.offset)
    }
}

impl View for Neighbor {
    type V = NeighborView;

    open spec fn view(&self) -> NeighborView {
        NeighborView {
            path: self.path@,
            offset: self.offset,
            line: self.line,
            col: self.col,
            name: self.name@,
            kind: self.kind@,
        }
    }
}

/// All that a source of edges answers.
pub struct Answers {
    pub outgoing: spec_fn(Spot) -> Seq<NeighborView>,
    pub incoming: spec_fn(Spot) -> Seq<NeighborView>,
    pub resolve: spec_fn(Spot) -> Option<Spot>,
    pub supertypes: spec_fn(Spot) -> Seq<SuperView>,
    pub member: spec_fn(Spot, Seq<char>) -> MemberCheck,
}

/// A source of edges. Every question is about a place, and asking it again
/// gives the same answer.
pub trait CallGraphTy {
    /// All that it answers. Only verified implementations say what that is.
    open spec fn answers(&self) -> Answers {
        arbitrary()
    }

    /// Neighbours that it can name. Only verified implementations say which.
    open spec fn universe(&self) -> Set<NeighborView> {
        arbitrary()
    }

    /// They are finitely many, and include every neighbour answered.
    proof fn universe_covers(&self, spot: Spot)
        ensures
            self.universe().finite(),
            forall|i: int|
                0 <= i < (self.answers().outgoing)(spot).len() ==> self.universe().contains(
                    #[trigger] (self.answers().outgoing)(spot)[i],
                ),
            forall|i: int|
                0 <= i < (self.answers().incoming)(spot).len() ==> self.universe().contains(
                    #[trigger] (self.answers().incoming)(spot)[i],
                ),
    ;

    /// What the callable at a place calls.
    fn outgoing_at(&self, path: &str, offset: u32) -> (r: Vec<Neighbor>)
        ensures
            sort::each(r@) == (self.answers().outgoing)((path@, offset)),
    ;

    /// What calls the callable at a place.
    fn incoming_at(&self, path: &str, offset: u32) -> (r: Vec<Neighbor>)
        ensures
            sort::each(r@) == (self.answers().incoming)((path@, offset)),
    ;

    /// The definition that the use at a place means.
    fn resolve_def_at(&self, path: &str, offset: u32) -> (r: Option<(String, u32)>)
        ensures
            match r {
                Some(a) => (self.answers().resolve)((path@, offset)) == Some(a@),
                None => (self.answers().resolve)((path@, offset)) is None,
            },
    ;

    /// The direct bases of the class at a place.
    fn supertypes_at(&self, path: &str, offset: u32) -> (r: Vec<SuperClass>)
        ensures
            sort::each(r@) == (self.answers().supertypes)((path@, offset)),
    ;

    /// Whether `member` belongs to the module that the name at a place means.
    fn module_member(&self, path: &str, offset: u32, member: &str) -> (r: MemberCheck)
        ensures
            r == (self.answers().member)((path@, offset), member@),
    ;
}

/// Which way to walk.
#[derive(Clone, Copy, Debug, PartialEq, Eq, Structural)]
pub enum Direction {
    /// To what the symbol calls.
    Forward,
    /// To what calls the symbol.
    Reverse,
}

/// One node of a closure.
#[derive(Clone, Debug)]
pub struct GraphNode {
    pub fqn: String,
    pub path: String,
    pub line: usize,
    pub col: usize,
    pub kind: &'static str,
    /// Steps from the symbol.
    pub depth: usize,
    /// The node through which this one was first reached.
    pub via: String,
}

/// What a node is, with texts in place of strings.
#[verifier::ext_equal]
pub struct NodeView {
    pub fqn: Seq<char>,
    pub path: Seq<char>,
    pub line: usize,
    pub col: usize,
    pub kind: Seq<char>,
    pub depth: nat,
    pub via: Seq<char>,
}

impl View for GraphNode {
    type V = NodeView;

    open spec fn view(&self) -> NodeView {
        NodeView {
            fqn: self.fqn@,
            path: self.path@,
            line: self.line,
            col: self.col,
            kind: self.kind@,
            depth: self.depth as nat,
            via: self.via@,
        }
    }
}

/// Nodes are ordered by depth, then by name.
impl Ranked for GraphNode {
    open spec fn precedes(a: NodeView, b: NodeView) -> bool {
        a.depth < b.depth || (a.depth == b.depth && text::text_lt(a.fqn, b.fqn))
    }

    fn is_before(&self, other: &Self) -> (r: bool) {
        self.depth < other.depth || (self.depth == other.depth && text_before(
            self.fqn.as_str(),
            other.fqn.as_str(),
        ))
    }

    proof fn precedes_is_an_order(a: NodeView, b: NodeView, c: NodeView) {
        lemma_text_weak(a.fqn, b.fqn, c.fqn);
    }
}

/// The order of texts as one to sort by.
pub proof fn lemma_text_weak(a: Seq<char>, b: Seq<char>, c: Seq<char>)
    ensures
        !(text::text_lt(a, b) && text::text_lt(b, a)),
        !text::text_lt(a, b) && !text::text_lt(b, c) ==> !text::text_lt(a, c),
{
    String::less_is_a_total_order(a, b, a);
    String::less_is_a_total_order(b, a, b);
    String::less_is_a_total_order(b, a, c);
    String::less_is_a_total_order(c, b, a);
    String::less_is_a_total_order(a, b, c);
    String::less_is_a_total_order(a, c, b);
    String::less_is_a_total_order(b, c, a);
    String::less_is_a_total_order(c, a, b);
}

/// What a symbol reaches.
#[derive(Clone, Debug)]
pub struct Closure {
    /// The names that the symbol stands for. None where it names no function or
    /// class; that nothing is reached from one that does shows in the nodes.
    pub roots: Vec<String>,
    /// What was reached, each name once, by depth and name.
    pub nodes: Vec<GraphNode>,
}

/// The name of the callable that the definitions have at a spot; of two there,
/// that of the later.
pub open spec fn name_in_defs(path: Seq<char>, defs: Seq<Def>, spot: Spot) -> Option<Seq<char>>
    decreases defs.len(),
{
    if defs.len() == 0 {
        None
    } else if model::callable(defs.last()) && spot == (path, defs.last().offset) {
        Some(names::def_fqn(path, defs.last()))
    } else {
        name_in_defs(path, defs.drop_last(), spot)
    }
}

/// The name of the callable that the files have at a spot.
pub open spec fn name_at(files: Seq<FileIndex>, spot: Spot) -> Option<Seq<char>>
    decreases files.len(),
{
    if files.len() == 0 {
        None
    } else {
        match name_in_defs(files.last().path@, files.last().defs@, spot) {
            Some(n) => Some(n),
            None => name_at(files.drop_last(), spot),
        }
    }
}

/// Where the imports of a file bind a name.
pub open spec fn import_spots(path: Seq<char>, defs: Seq<Def>, name: Seq<char>) -> Seq<Spot>
    decreases defs.len(),
{
    if defs.len() == 0 {
        Seq::empty()
    } else if defs.last().kind is Import && defs.last().name@ == name {
        import_spots(path, defs.drop_last(), name).push((path, defs.last().offset))
    } else {
        import_spots(path, defs.drop_last(), name)
    }
}

/// Where a file uses a name.
pub open spec fn use_spots(
    path: Seq<char>,
    refs: Seq<crate::model::Ref>,
    name: Seq<char>,
) -> Seq<Spot>
    decreases refs.len(),
{
    if refs.len() == 0 {
        Seq::empty()
    } else if refs.last().name@ == name {
        use_spots(path, refs.drop_last(), name).push((path, refs.last().offset))
    } else {
        use_spots(path, refs.drop_last(), name)
    }
}

/// Where the files import or use a name.
pub open spec fn occurrences(files: Seq<FileIndex>, name: Seq<char>) -> Seq<Spot>
    decreases files.len(),
{
    if files.len() == 0 {
        Seq::empty()
    } else {
        let f = files.last();
        occurrences(files.drop_last(), name) + import_spots(f.path@, f.defs@, name) + use_spots(
            f.path@,
            f.refs@,
            name,
        )
    }
}

/// The name of a neighbour: that of the definition at its place, else one made
/// from its module and its own name.
pub open spec fn label(files: Seq<FileIndex>, nb: NeighborView) -> Seq<char> {
    match name_at(files, nb.spot()) {
        Some(n) => n,
        None => names::fallback(nb.path, nb.name, nb.kind),
    }
}

/// A place of the walk: where it is, and its name.
pub struct Stop {
    pub spot: Spot,
    pub fqn: Seq<char>,
}

/// The stops that a symbol names among the definitions of one file.
pub open spec fn stops_in(path: Seq<char>, defs: Seq<Def>, symbol: Seq<char>) -> Seq<Stop>
    decreases defs.len(),
{
    if defs.len() == 0 {
        Seq::empty()
    } else {
        let d = defs.last();
        let before = stops_in(path, defs.drop_last(), symbol);
        if d.name@ == names::query_leaf(symbol) && model::callable(d) && names::scoped(
            names::query_qualifier(symbol),
            path,
            text::views(d.container@),
        ) {
            before.push(Stop { spot: (path, d.offset), fqn: names::def_fqn(path, d) })
        } else {
            before
        }
    }
}

/// The stops that a symbol names: every function and class with its last part
/// as name, in a scope that the rest ends.
pub open spec fn start_stops(files: Seq<FileIndex>, symbol: Seq<char>) -> Seq<Stop>
    decreases files.len(),
{
    if files.len() == 0 {
        Seq::empty()
    } else {
        start_stops(files.drop_last(), symbol) + stops_in(
            files.last().path@,
            files.last().defs@,
            symbol,
        )
    }
}

/// The names of stops.
pub open spec fn stop_names(s: Seq<Stop>) -> Seq<Seq<char>> {
    Seq::new(s.len(), |i: int| s[i].fqn)
}

/// Whether a list has a neighbour at a spot.
pub open spec fn has_spot(s: Seq<NeighborView>, spot: Spot) -> bool {
    exists|i: int| 0 <= i < s.len() && (#[trigger] s[i]).spot() == spot
}

/// `out` with those neighbours added that stand at a new spot.
pub open spec fn taken(out: Seq<NeighborView>, nbs: Seq<NeighborView>) -> Seq<NeighborView>
    decreases nbs.len(),
{
    if nbs.len() == 0 {
        out
    } else {
        let before = taken(out, nbs.drop_last());
        if has_spot(before, nbs.last().spot()) {
            before
        } else {
            before.push(nbs.last())
        }
    }
}

/// `out` with the callers added that are found at those occurrences that mean
/// the callable at `spot`.
pub open spec fn swept(
    a: Answers,
    spot: Spot,
    places: Seq<Spot>,
    out: Seq<NeighborView>,
) -> Seq<NeighborView>
    decreases places.len(),
{
    if places.len() == 0 {
        out
    } else {
        let before = swept(a, spot, places.drop_last(), out);
        let o = places.last();
        if o != spot && (a.resolve)(o) == Some(spot) {
            taken(before, (a.incoming)(o))
        } else {
            before
        }
    }
}

/// The direct neighbours of a stop. What it calls is asked at its own place;
/// what calls it, there and at every occurrence of its name that means it.
pub open spec fn next_to(
    files: Seq<FileIndex>,
    a: Answers,
    dir: Direction,
    stop: Stop,
) -> Seq<NeighborView> {
    match dir {
        Direction::Forward => (a.outgoing)(stop.spot),
        Direction::Reverse => swept(
            a,
            stop.spot,
            occurrences(files, text::leaf_name(stop.fqn)),
            taken(Seq::empty(), (a.incoming)(stop.spot)),
        ),
    }
}

/// A node reached, and where its name stands.
pub struct Reached {
    pub node: NodeView,
    pub offset: u32,
}

impl Reached {
    pub open spec fn stop(self) -> Stop {
        Stop { spot: (self.node.path, self.offset), fqn: self.node.fqn }
    }
}

/// Whether a name is a root or was reached.
pub open spec fn known(roots: Seq<Seq<char>>, found: Seq<Reached>, name: Seq<char>) -> bool {
    roots.contains(name) || exists|i: int|
        0 <= i < found.len() && (#[trigger] found[i]).node.fqn == name
}

/// What is reached once the neighbours of one stop are met: those with a name
/// not known before are added, in order.
pub open spec fn met(
    files: Seq<FileIndex>,
    roots: Seq<Seq<char>>,
    found: Seq<Reached>,
    via: Seq<char>,
    depth: nat,
    nbs: Seq<NeighborView>,
) -> Seq<Reached>
    decreases nbs.len(),
{
    if nbs.len() == 0 {
        found
    } else {
        let before = met(files, roots, found, via, depth, nbs.drop_last());
        let nb = nbs.last();
        let name = label(files, nb);
        if known(roots, before, name) {
            before
        } else {
            before.push(
                Reached {
                    node: NodeView {
                        fqn: name,
                        path: nb.path,
                        line: nb.line,
                        col: nb.col,
                        kind: nb.kind,
                        depth,
                        via,
                    },
                    offset: nb.offset,
                },
            )
        }
    }
}

/// What is reached once the neighbours of each stop of a level are met.
pub open spec fn level_met(
    files: Seq<FileIndex>,
    a: Answers,
    dir: Direction,
    roots: Seq<Seq<char>>,
    found: Seq<Reached>,
    level: Seq<Stop>,
    depth: nat,
) -> Seq<Reached>
    decreases level.len(),
{
    if level.len() == 0 {
        found
    } else {
        let before = level_met(files, a, dir, roots, found, level.drop_last(), depth);
        let stop = level.last();
        met(files, roots, before, stop.fqn, depth, next_to(files, a, dir, stop))
    }
}

/// The stops of nodes reached.
pub open spec fn stops_of(found: Seq<Reached>) -> Seq<Stop> {
    Seq::new(found.len(), |i: int| found[i].stop())
}

/// What a breadth-first walk has reached after `n` levels, and the stops of the
/// last of them.
pub open spec fn walked(
    files: Seq<FileIndex>,
    a: Answers,
    dir: Direction,
    starts: Seq<Stop>,
    n: nat,
) -> (Seq<Reached>, Seq<Stop>)
    decreases n,
{
    if n == 0 {
        (Seq::empty(), starts)
    } else {
        let (found, level) = walked(files, a, dir, starts, (n - 1) as nat);
        let now = level_met(files, a, dir, stop_names(starts), found, level, n);
        (now, stops_of(now.skip(found.len() as int)))
    }
}

/// The nodes reached.
pub open spec fn nodes_of(found: Seq<Reached>) -> Seq<NodeView> {
    Seq::new(found.len(), |i: int| found[i].node)
}

/// Whether a walk is over after `n` levels: the last reached nothing new, or
/// the limit is met.
pub open spec fn walk_ends(
    files: Seq<FileIndex>,
    a: Answers,
    dir: Direction,
    starts: Seq<Stop>,
    limit: Option<usize>,
    n: nat,
) -> bool {
    match limit {
        Some(m) => n == m || (n < m && walked(files, a, dir, starts, n).1.len() == 0),
        None => walked(files, a, dir, starts, n).1.len() == 0,
    }
}

/// Whether `nodes` are all that is reached from `starts`, within the limit, in
/// order of depth and name.
pub open spec fn closure_is(
    files: Seq<FileIndex>,
    a: Answers,
    dir: Direction,
    starts: Seq<Stop>,
    limit: Option<usize>,
    nodes: Seq<NodeView>,
) -> bool {
    exists|n: nat| #[trigger]
        walk_ends(files, a, dir, starts, limit, n) && nodes == sort::sorted::<GraphNode>(
            nodes_of(walked(files, a, dir, starts, n).0),
        )
}
/// The names that a symbol stands for.
pub open spec fn roots_named(files: Seq<FileIndex>, symbol: Seq<char>) -> Seq<Seq<char>> {
    stop_names(start_stops(files, symbol))
}

/// Whether `nodes` are all that `symbol` reaches, within the limit, in order of
/// depth and name.
pub open spec fn is_closure(
    files: Seq<FileIndex>,
    a: Answers,
    dir: Direction,
    symbol: Seq<char>,
    limit: Option<usize>,
    nodes: Seq<NodeView>,
) -> bool {
    closure_is(files, a, dir, start_stops(files, symbol), limit, nodes)
}

/// The name that a table has for a spot.
pub open spec fn table_name(t: Table<(String, u32), String>, spot: Spot) -> Option<Seq<char>> {
    if t.map().contains_key(spot) {
        Some(t.map()[spot]@)
    } else {
        None
    }
}

/// A transitive call graph over the files of a project.
pub struct CallGraph<T: CallGraphTy> {
    ty: T,
    files: Vec<FileIndex>,
    /// The name of the callable at each place.
    fqn_by_anchor: Table<(String, u32), String>,
    /// Where each name is imported or used.
    occurrences_by_name: Table<String, Vec<(String, u32)>>,
}

/// Enters the callables of a file into the table of names, and its imports into
/// the table of occurrences.
fn enter_defs(
    f: &FileIndex,
    names: &mut Table<(String, u32), String>,
    places: &mut Table<String, Vec<(String, u32)>>,
)
    ensures
        forall|spot: Spot| #[trigger]
            table_name(*final(names), spot) == (match name_in_defs(f.path@, f.defs@, spot) {
                Some(n) => Some(n),
                None => table_name(*old(names), spot),
            }),
        forall|name: Seq<char>| #[trigger]
            sort::each(final(places).list(name)) == sort::each(old(places).list(name)) + import_spots(
                f.path@,
                f.defs@,
                name,
            ),
{
    let ghost n0 = *names;
    let ghost p0 = *places;
    let mut j: usize = 0;
    proof {
        assert forall|name: Seq<char>| #[trigger] sort::each(places.list(name)) == sort::each(
            p0.list(name),
        ) + import_spots(f.path@, f.defs@.take(0), name) by {
            assert(sort::each(p0.list(name)) + import_spots(f.path@, f.defs@.take(0), name) =~= sort::each(
                p0.list(name),
            ));
        }
    }
    while j < f.defs.len()
        invariant
            j <= f.defs@.len(),
            forall|spot: Spot| #[trigger]
                table_name(*names, spot) == (match name_in_defs(
                    f.path@,
                    f.defs@.take(j as int),
                    spot,
                ) {
                    Some(n) => Some(n),
                    None => table_name(n0, spot),
                }),
            forall|name: Seq<char>| #[trigger]
                sort::each(places.list(name)) == sort::each(p0.list(name)) + import_spots(
                    f.path@,
                    f.defs@.take(j as int),
                    name,
                ),
        decreases f.defs@.len() - j,
    {
        let d = &f.defs[j];
        let ghost n1 = *names;
        let ghost p1 = *places;
        proof {
            text::lemma_take_step(f.defs@, j as int);
        }
        match d.kind {
            DefKind::Import => {
                places.push_to(d.name.clone(), (f.path.clone(), d.offset));
                proof {
                    assert forall|name: Seq<char>| #[trigger] sort::each(places.list(name)) == sort::each(
                        p0.list(name),
                    ) + import_spots(f.path@, f.defs@.take(j + 1), name) by {
                        if name == d.name@ {
                            sort::lemma_each_push(p1.list(name), (f.path, d.offset));
                            assert(sort::each(places.list(name)) =~= sort::each(p0.list(name)) + import_spots(
                                f.path@,
                                f.defs@.take(j + 1),
                                name,
                            ));
                        } else {
                            assert(places.list(name) == p1.list(name));
                        }
                    }
                }
            },
            DefKind::Variable => {},
            _ => {
                names.insert((f.path.clone(), d.offset), fqn_of(f.path.as_str(), d));
                proof {
                    assert forall|spot: Spot| #[trigger]
                        table_name(*names, spot) == (match name_in_defs(
                            f.path@,
                            f.defs@.take(j + 1),
                            spot,
                        ) {
                            Some(n) => Some(n),
                            None => table_name(n0, spot),
                        }) by {
                        assert(table_name(n1, spot) == match name_in_defs(
                            f.path@,
                            f.defs@.take(j as int),
                            spot,
                        ) {
                            Some(n) => Some(n),
                            None => table_name(n0, spot),
                        });
                    }
                }
            },
        }
        j = j + 1;
    }
    proof {
        text::lemma_take_all(f.defs@);
    }
}

/// Enters the uses of names in a file into the table of occurrences.
fn enter_refs(f: &FileIndex, places: &mut Table<String, Vec<(String, u32)>>)
    ensures
        forall|name: Seq<char>| #[trigger]
            sort::each(final(places).list(name)) == sort::each(old(places).list(name)) + use_spots(
                f.path@,
                f.refs@,
                name,
            ),
{
    let ghost p0 = *places;
    let mut j: usize = 0;
    proof {
        assert forall|name: Seq<char>| #[trigger] sort::each(places.list(name)) == sort::each(
            p0.list(name),
        ) + use_spots(f.path@, f.refs@.take(0), name) by {
            assert(sort::each(p0.list(name)) + use_spots(f.path@, f.refs@.take(0), name) =~= sort::each(
                p0.list(name),
            ));
        }
    }
    while j < f.refs.len()
        invariant
            j <= f.refs@.len(),
            forall|name: Seq<char>| #[trigger]
                sort::each(places.list(name)) == sort::each(p0.list(name)) + use_spots(
                    f.path@,
                    f.refs@.take(j as int),
                    name,
                ),
        decreases f.refs@.len() - j,
    {
        let r = &f.refs[j];
        let ghost p1 = *places;
        proof {
            text::lemma_take_step(f.refs@, j as int);
        }
        places.push_to(r.name.clone(), (f.path.clone(), r.offset));
        proof {
            assert forall|name: Seq<char>| #[trigger] sort::each(places.list(name)) == sort::each(
                p0.list(name),
            ) + use_spots(f.path@, f.refs@.take(j + 1), name) by {
                if name == r.name@ {
                    sort::lemma_each_push(p1.list(name), (f.path, r.offset));
                    assert(sort::each(places.list(name)) =~= sort::each(p0.list(name)) + use_spots(
                        f.path@,
                        f.refs@.take(j + 1),
                        name,
                    ));
                } else {
                    assert(places.list(name) == p1.list(name));
                }
            }
        }
        j = j + 1;
    }
    proof {
        text::lemma_take_all(f.refs@);
    }
}

/// Appends those of `nbs` that stand at a spot new to `out`.
pub(crate) fn take_new(out: &mut Vec<Neighbor>, seen: &mut Table<(String, u32), ()>, nbs: Vec<Neighbor>)
    requires
        forall|spot: Spot| #[trigger]
            old(seen).keys().contains(spot) <==> has_spot(sort::each(old(out)@), spot),
    ensures
        forall|spot: Spot| #[trigger]
            final(seen).keys().contains(spot) <==> has_spot(sort::each(final(out)@), spot),
        sort::each(final(out)@) == taken(sort::each(old(out)@), sort::each(nbs@)),
{
    let ghost was = sort::each(out@);
    let ghost all = sort::each(nbs@);
    let mut rest = reversed(nbs);
    let ghost mut n: int = 0;
    assert(all.take(0) =~= Seq::<NeighborView>::empty());
    while rest.len() > 0
        invariant
            0 <= n <= all.len(),
            rest@.len() == all.len() - n,
            forall|k: int| 0 <= k < rest@.len() ==> (#[trigger] rest@[k])@ == all[all.len() - 1 - k],
            forall|spot: Spot| #[trigger] seen.keys().contains(spot) <==> has_spot(sort::each(out@), spot),
            sort::each(out@) == taken(was, all.take(n)),
        decreases rest@.len(),
    {
        match rest.pop() {
            Some(nb) => {
                proof {
                    text::lemma_take_step(all, n);
                    assert(nb@ == all[n]);
                }
                let key = (nb.path.clone(), nb.offset);
                if !seen.contains_key(&key) {
                    let ghost before = sort::each(out@);
                    seen.insert(key, ());
                    out.push(nb);
                    proof {
                        sort::lemma_each_push(out@.drop_last(), nb);
                        assert(out@.drop_last().push(nb) =~= out@);
                        assert(sort::each(out@) == before.push(nb@));
                        assert forall|spot: Spot| #[trigger]
                            seen.keys().contains(spot) <==> has_spot(sort::each(out@), spot) by {
                            let now = sort::each(out@);
                            if has_spot(before, spot) {
                                let i = choose|i: int|
                                    0 <= i < before.len() && (#[trigger] before[i]).spot() == spot;
                                assert(now[i].spot() == spot);
                            }
                            if spot == nb@.spot() {
                                assert(now[before.len() as int].spot() == spot);
                            }
                            if has_spot(now, spot) {
                                let i = choose|i: int|
                                    0 <= i < now.len() && (#[trigger] now[i]).spot() == spot;
                                if i < before.len() {
                                    assert(before[i].spot() == spot);
                                }
                            }
                        }
                    }
                }
                proof {
                    n = n + 1;
                }
            },
            None => {},
        }
    }
    proof {
        text::lemma_take_all(all);
    }
}

/// A node reached, and where its name stands.
struct Hit {
    node: GraphNode,
    offset: u32,
}

impl View for Hit {
    type V = Reached;

    closed spec fn view(&self) -> Reached {
        Reached { node: self.node@, offset: self.offset }
    }
}

/// A place of a walk.
struct Place {
    path: String,
    offset: u32,
    fqn: String,
}

impl View for Place {
    type V = Stop;

    closed spec fn view(&self) -> Stop {
        Stop { spot: (self.path@, self.offset), fqn: self.fqn@ }
    }
}

impl<T: CallGraphTy> CallGraph<T> {
    #[verifier::type_invariant]
    spec fn consistent(self) -> bool {
        &&& forall|spot: Spot| #[trigger]
            table_name(self.fqn_by_anchor, spot) == name_at(self.files@, spot)
        &&& forall|name: Seq<char>| #[trigger]
            sort::each(self.occurrences_by_name.list(name)) == occurrences(self.files@, name)
    }

    /// The files of the project.
    pub closed spec fn files(self) -> Seq<FileIndex> {
        self.files@
    }

    /// What the source of edges answers.
    pub closed spec fn answers(self) -> Answers {
        self.ty.answers()
    }

    /// The files and the names of the callables in them.
    pub(crate) fn index(&self) -> (r: (&Vec<FileIndex>, &Table<(String, u32), String>))
        ensures
            r.0@ == self.files(),
            forall|spot: Spot| #[trigger] table_name(*r.1, spot) == name_at(self.files(), spot),
            table::ascending::<(String, u32)>(r.1.keys()),
    {
        proof {
            use_type_invariant(self);
        }
        // Asking a table its length shows that its keys ascend.
        let _rows: usize = self.fqn_by_anchor.len();
        (&self.files, &self.fqn_by_anchor)
    }

    /// The source of edges.
    pub(crate) fn source(&self) -> (r: &T)
        ensures
            r.answers() == self.answers(),
    {
        &self.ty
    }

    /// A graph over the files, with its edges from `ty`.
    pub fn new(ty: T, files: Vec<FileIndex>) -> (r: Self)
        ensures
            r.files() == files@,
            r.answers() == ty.answers(),
    {
        let mut names: Table<(String, u32), String> = Table::new();
        let mut places: Table<String, Vec<(String, u32)>> = Table::new();
        let mut i: usize = 0;
        proof {
            assert forall|name: Seq<char>| #[trigger] sort::each(places.list(name)) == occurrences(
                files@.take(0),
                name,
            ) by {
                assert(sort::each(places.list(name)) =~= Seq::<Spot>::empty());
            }
        }
        while i < files.len()
            invariant
                i <= files@.len(),
                forall|spot: Spot| #[trigger]
                    table_name(names, spot) == name_at(files@.take(i as int), spot),
                forall|name: Seq<char>| #[trigger]
                    sort::each(places.list(name)) == occurrences(files@.take(i as int), name),
            decreases files@.len() - i,
        {
            proof {
                text::lemma_take_step(files@, i as int);
            }
            let ghost p0 = places;
            enter_defs(&files[i], &mut names, &mut places);
            let ghost p1 = places;
            enter_refs(&files[i], &mut places);
            proof {
                assert forall|name: Seq<char>| #[trigger] sort::each(places.list(name)) == occurrences(
                    files@.take(i + 1),
                    name,
                ) by {
                    assert(sort::each(p1.list(name)) == sort::each(p0.list(name)) + import_spots(
                        files@[i as int].path@,
                        files@[i as int].defs@,
                        name,
                    ));
                    assert(sort::each(p0.list(name)) == occurrences(files@.take(i as int), name));
                }
            }
            i = i + 1;
        }
        proof {
            text::lemma_take_all(files@);
        }
        CallGraph { ty, files, fqn_by_anchor: names, occurrences_by_name: places }
    }

    /// The name of a neighbour.
    fn name_of(&self, nb: &Neighbor) -> (r: String)
        ensures
            r@ == label(self.files(), nb@),
    {
        proof {
            use_type_invariant(self);
        }
        let key = (nb.path.clone(), nb.offset);
        let ghost spot = nb@.spot();
        assert(table_name(self.fqn_by_anchor, spot) == name_at(self.files@, spot));
        match self.fqn_by_anchor.get(&key) {
            Some(n) => n.clone(),
            None => fallback_fqn(nb.path.as_str(), nb.name.as_str(), nb.kind),
        }
    }

    /// The direct neighbours of a stop.
    fn neighbours(&self, path: &String, offset: u32, fqn: &String, dir: Direction) -> (r: Vec<
        Neighbor,
    >)
        ensures
            sort::each(r@) == next_to(
                self.files(),
                self.answers(),
                dir,
                (Stop { spot: (path@, offset), fqn: fqn@ }),
            ),
    {
        match dir {
            Direction::Forward => self.ty.outgoing_at(path.as_str(), offset),
            Direction::Reverse => {
                proof {
                    use_type_invariant(self);
                }
                let ghost a = self.answers();
                let ghost spot: Spot = (path@, offset);
                let mut seen: Table<(String, u32), ()> = Table::new();
                let mut out: Vec<Neighbor> = Vec::new();
                assert(sort::each(out@) =~= Seq::<NeighborView>::empty());
                take_new(&mut out, &mut seen, self.ty.incoming_at(path.as_str(), offset));
                let ghost first = sort::each(out@);
                let leaf = leaf_of(fqn.as_str());
                let ghost places = occurrences(self.files@, leaf@);
                assert(sort::each(self.occurrences_by_name.list(leaf@)) == places);
                match self.occurrences_by_name.get(&leaf) {
                    Some(list) => {
                        assert(sort::each(list@) == places);
                        let mut i: usize = 0;
                        assert(places.take(0) =~= Seq::<Spot>::empty());
                        while i < list.len()
                            invariant
                                i <= list@.len(),
                                sort::each(list@) == places,
                                a == self.answers(),
                                spot == (path@, offset),
                                forall|s: Spot| #[trigger]
                                    seen.keys().contains(s) <==> has_spot(sort::each(out@), s),
                                sort::each(out@) == swept(a, spot, places.take(i as int), first),
                            decreases list@.len() - i,
                        {
                            proof {
                                text::lemma_take_step(places, i as int);
                                assert(places[i as int] == list@[i as int]@);
                            }
                            let opath = &list[i].0;
                            let ooff: u32 = list[i].1;
                            if !(ooff == offset && same(opath.as_str(), path.as_str())) {
                                match self.ty.resolve_def_at(opath.as_str(), ooff) {
                                    Some(d) => {
                                        if d.1 == offset && same(d.0.as_str(), path.as_str()) {
                                            assert(d@ == spot);
                                            take_new(
                                                &mut out,
                                                &mut seen,
                                                self.ty.incoming_at(opath.as_str(), ooff),
                                            );
                                        }
                                    },
                                    None => {},
                                }
                            }
                            i = i + 1;
                        }
                        proof {
                            text::lemma_take_all(places);
                        }
                    },
                    None => {
                        assert(places =~= Seq::<Spot>::empty());
                    },
                }
                out
            },
        }
    }

    /// The stops that a symbol names.
    fn start_anchors(&self, symbol: &str) -> (r: Vec<Place>)
        ensures
            sort::each(r@) == start_stops(self.files(), symbol@),
    {
        let (leaf, qualifier) = parse_query(symbol);
        let mut out: Vec<Place> = Vec::new();
        let mut i: usize = 0;
        assert(sort::each(out@) =~= start_stops(self.files@.take(0), symbol@));
        while i < self.files.len()
            invariant
                i <= self.files@.len(),
                leaf@ == names::query_leaf(symbol@),
                text::views(qualifier@) == names::query_qualifier(symbol@),
                sort::each(out@) == start_stops(self.files@.take(i as int), symbol@),
            decreases self.files@.len() - i,
        {
            proof {
                text::lemma_take_step(self.files@, i as int);
            }
            let f = &self.files[i];
            let ghost start = sort::each(out@);
            let mut j: usize = 0;
            assert(start + stops_in(f.path@, f.defs@.take(0), symbol@) =~= start);
            while j < f.defs.len()
                invariant
                    j <= f.defs@.len(),
                    leaf@ == names::query_leaf(symbol@),
                    text::views(qualifier@) == names::query_qualifier(symbol@),
                    sort::each(out@) == start + stops_in(f.path@, f.defs@.take(j as int), symbol@),
                decreases f.defs@.len() - j,
            {
                let d = &f.defs[j];
                proof {
                    text::lemma_take_step(f.defs@, j as int);
                }
                if same(d.name.as_str(), leaf.as_str()) && is_callable(d) && scoped_by(
                    &qualifier,
                    f.path.as_str(),
                    &d.container,
                ) {
                    let p = Place {
                        path: f.path.clone(),
                        offset: d.offset,
                        fqn: fqn_of(f.path.as_str(), d),
                    };
                    let ghost before = out@;
                    out.push(p);
                    proof {
                        sort::lemma_each_push(before, p);
                        assert(sort::each(out@) =~= start + stops_in(
                            f.path@,
                            f.defs@.take(j + 1),
                            symbol@,
                        ));
                    }
                }
                j = j + 1;
            }
            proof {
                text::lemma_take_all(f.defs@);
            }
            i = i + 1;
        }
        proof {
            text::lemma_take_all(self.files@);
        }
        out
    }
}


/// Whether all names reached lie in `names`, each once.
spec fn distinct_in(found: Seq<Reached>, names: Set<Seq<char>>) -> bool {
    &&& forall|i: int| 0 <= i < found.len() ==> names.contains((#[trigger] found[i]).node.fqn)
    &&& forall|i: int, j: int|
        0 <= i < j < found.len() ==> (#[trigger] found[i]).node.fqn != (
        #[trigger] found[j]).node.fqn
}

/// What is reached is at most as much as there are names.
proof fn lemma_distinct_in(found: Seq<Reached>, names: Set<Seq<char>>)
    requires
        distinct_in(found, names),
        names.finite(),
    ensures
        found.len() <= names.len(),
{
    let fqns = Seq::new(found.len(), |i: int| found[i].node.fqn);
    assert(fqns.no_duplicates()) by {
        assert forall|i: int, j: int| 0 <= i < fqns.len() && 0 <= j < fqns.len() && i
            != j implies fqns[i] != fqns[j] by {
            if i < j {
                assert(found[i].node.fqn != found[j].node.fqn);
            } else {
                assert(found[j].node.fqn != found[i].node.fqn);
            }
        }
    }
    fqns.unique_seq_to_set();
    assert(fqns.to_set().subset_of(names)) by {
        assert forall|x: Seq<char>| fqns.to_set().contains(x) implies names.contains(x) by {
            let i = choose|i: int| 0 <= i < fqns.len() && fqns[i] == x;
            assert(names.contains(found[i].node.fqn));
        }
    }
    vstd::set_lib::lemma_len_subset(fqns.to_set(), names);
}

/// Meeting neighbours whose names lie in `names` keeps what is reached in them,
/// and adds at the end.
proof fn lemma_met(
    files: Seq<FileIndex>,
    roots: Seq<Seq<char>>,
    found: Seq<Reached>,
    via: Seq<char>,
    depth: nat,
    nbs: Seq<NeighborView>,
    names: Set<Seq<char>>,
)
    requires
        distinct_in(found, names),
        forall|i: int| 0 <= i < nbs.len() ==> names.contains(label(files, #[trigger] nbs[i])),
    ensures
        distinct_in(met(files, roots, found, via, depth, nbs), names),
        found.len() <= met(files, roots, found, via, depth, nbs).len(),
        met(files, roots, found, via, depth, nbs).take(found.len() as int) == found,
    decreases nbs.len(),
{
    if nbs.len() == 0 {
        text::lemma_take_all(found);
    } else {
        assert forall|i: int| 0 <= i < nbs.drop_last().len() implies names.contains(
            label(files, #[trigger] nbs.drop_last()[i]),
        ) by {
            assert(nbs.drop_last()[i] == nbs[i]);
        }
        lemma_met(files, roots, found, via, depth, nbs.drop_last(), names);
        let before = met(files, roots, found, via, depth, nbs.drop_last());
        let now = met(files, roots, found, via, depth, nbs);
        assert(names.contains(label(files, nbs[nbs.len() - 1])));
        assert(now.take(found.len() as int) =~= before.take(found.len() as int));
    }
}

/// Taking neighbours keeps them in a set that holds both lists.
proof fn lemma_taken_within(
    out: Seq<NeighborView>,
    nbs: Seq<NeighborView>,
    all: Set<NeighborView>,
)
    requires
        forall|i: int| 0 <= i < out.len() ==> all.contains(#[trigger] out[i]),
        forall|i: int| 0 <= i < nbs.len() ==> all.contains(#[trigger] nbs[i]),
    ensures
        forall|i: int| 0 <= i < taken(out, nbs).len() ==> all.contains(#[trigger] taken(out, nbs)[i]),
    decreases nbs.len(),
{
    if nbs.len() > 0 {
        assert forall|i: int| 0 <= i < nbs.drop_last().len() implies all.contains(
            #[trigger] nbs.drop_last()[i],
        ) by {
            assert(nbs.drop_last()[i] == nbs[i]);
        }
        lemma_taken_within(out, nbs.drop_last(), all);
        assert(all.contains(nbs[nbs.len() - 1]));
        let before = taken(out, nbs.drop_last());
        assert forall|i: int| 0 <= i < taken(out, nbs).len() implies all.contains(
            #[trigger] taken(out, nbs)[i],
        ) by {
            if i < before.len() {
                assert(all.contains(before[i]));
            }
        }
    }
}

proof fn lemma_swept_within(
    a: Answers,
    spot: Spot,
    places: Seq<Spot>,
    out: Seq<NeighborView>,
    all: Set<NeighborView>,
)
    requires
        forall|i: int| 0 <= i < out.len() ==> all.contains(#[trigger] out[i]),
        forall|o: Spot, i: int|
            0 <= i < (a.incoming)(o).len() ==> all.contains(#[trigger] (a.incoming)(o)[i]),
    ensures
        forall|i: int|
            0 <= i < swept(a, spot, places, out).len() ==> all.contains(
                #[trigger] swept(a, spot, places, out)[i],
            ),
    decreases places.len(),
{
    if places.len() > 0 {
        lemma_swept_within(a, spot, places.drop_last(), out, all);
        lemma_taken_within(
            swept(a, spot, places.drop_last(), out),
            (a.incoming)(places.last()),
            all,
        );
    }
}

impl<T: CallGraphTy> CallGraph<T> {
    /// The names that the source of edges can lead to.
    spec fn labels(self) -> Set<Seq<char>> {
        self.ty.universe().map(|nb: NeighborView| label(self.files@, nb))
    }

    /// Every neighbour has one of those names, and they are finitely many.
    proof fn lemma_labels(&self, dir: Direction, stop: Stop)
        ensures
            self.labels().finite(),
            forall|i: int|
                0 <= i < next_to(self.files(), self.answers(), dir, stop).len()
                    ==> self.labels().contains(
                    label(self.files(), #[trigger] next_to(self.files(), self.answers(), dir, stop)[i]),
                ),
    {
        let a = self.answers();
        let all = self.ty.universe();
        assert forall|o: Spot, i: int| 0 <= i < (a.incoming)(o).len() implies all.contains(
            #[trigger] (a.incoming)(o)[i],
        ) by {
            self.ty.universe_covers(o);
        }
        self.ty.universe_covers(stop.spot);
        all.lemma_map_finite(|nb: NeighborView| label(self.files@, nb));
        let none = Seq::<NeighborView>::empty();
        lemma_taken_within(none, (a.incoming)(stop.spot), all);
        lemma_swept_within(
            a,
            stop.spot,
            occurrences(self.files@, text::leaf_name(stop.fqn)),
            taken(none, (a.incoming)(stop.spot)),
            all,
        );
        let nbs = next_to(self.files(), a, dir, stop);
        assert forall|i: int| 0 <= i < nbs.len() implies self.labels().contains(
            label(self.files(), #[trigger] nbs[i]),
        ) by {
            assert(all.contains(nbs[i]));
        }
    }

    /// Adds the neighbours with a name not known before.
    fn meet(
        &self,
        found: &mut Vec<Hit>,
        visited: &mut Table<String, ()>,
        via: &String,
        depth: usize,
        nbs: Vec<Neighbor>,
        Ghost(roots): Ghost<Seq<Seq<char>>>,
    )
        requires
            depth <= old(found)@.len(),
            forall|n: Seq<char>| #[trigger]
                old(visited).keys().contains(n) <==> known(roots, sort::each(old(found)@), n),
        ensures
            forall|n: Seq<char>| #[trigger]
                final(visited).keys().contains(n) <==> known(roots, sort::each(final(found)@), n),
            sort::each(final(found)@) == met(
                self.files(),
                roots,
                sort::each(old(found)@),
                via@,
                (depth + 1) as nat,
                sort::each(nbs@),
            ),
            depth <= final(found)@.len(),
    {
        let ghost was = sort::each(found@);
        let ghost all = sort::each(nbs@);
        let deeper: usize = if depth < usize::MAX {
            depth + 1
        } else {
            depth
        };
        let mut rest = reversed(nbs);
        let ghost mut n: int = 0;
        assert(all.take(0) =~= Seq::<NeighborView>::empty());
        while rest.len() > 0
            invariant
                0 <= n <= all.len(),
                rest@.len() == all.len() - n,
                forall|k: int|
                    0 <= k < rest@.len() ==> (#[trigger] rest@[k])@ == all[all.len() - 1 - k],
                forall|x: Seq<char>| #[trigger]
                    visited.keys().contains(x) <==> known(roots, sort::each(found@), x),
                sort::each(found@) == met(
                    self.files(),
                    roots,
                    was,
                    via@,
                    (depth + 1) as nat,
                    all.take(n),
                ),
                depth <= found@.len(),
                depth < usize::MAX ==> deeper == depth + 1,
            decreases rest@.len(),
        {
            match rest.pop() {
                Some(nb) => {
                    proof {
                        text::lemma_take_step(all, n);
                        assert(nb@ == all[n]);
                    }
                    let name = self.name_of(&nb);
                    if !visited.contains_key(&name) {
                        let ghost before = sort::each(found@);
                        visited.insert(name.clone(), ());
                        let hit = Hit {
                            node: GraphNode {
                                fqn: name,
                                path: nb.path,
                                line: nb.line,
                                col: nb.col,
                                kind: nb.kind,
                                depth: deeper,
                                via: via.clone(),
                            },
                            offset: nb.offset,
                        };
                        let ghost held = found@;
                        found.push(hit);
                        assert(found.len() == held.len() + 1);
                        proof {
                            sort::lemma_each_push(held, hit);
                            let now = sort::each(found@);
                            assert(now == before.push(hit@));
                            assert forall|x: Seq<char>| #[trigger]
                                visited.keys().contains(x) <==> known(roots, now, x) by {
                                if known(roots, before, x) && !roots.contains(x) {
                                    let i = choose|i: int|
                                        0 <= i < before.len() && (#[trigger] before[i]).node.fqn
                                            == x;
                                    assert(now[i].node.fqn == x);
                                }
                                if x == name@ {
                                    assert(now[before.len() as int].node.fqn == x);
                                }
                                if known(roots, now, x) && !roots.contains(x) {
                                    let i = choose|i: int|
                                        0 <= i < now.len() && (#[trigger] now[i]).node.fqn == x;
                                    if i < before.len() {
                                        assert(before[i].node.fqn == x);
                                    }
                                }
                            }
                        }
                    }
                    proof {
                        n = n + 1;
                    }
                },
                None => {},
            }
        }
        proof {
            text::lemma_take_all(all);
        }
    }

    /// All that `symbol` reaches in one direction, within `max_depth` steps.
    pub fn closure(&self, symbol: &str, dir: Direction, max_depth: Option<usize>) -> (r: Closure)
        ensures
            text::views(r.roots@) == roots_named(self.files(), symbol@),
            is_closure(
                self.files(),
                self.answers(),
                dir,
                symbol@,
                max_depth,
                sort::each(r.nodes@),
            ),
    {
        let mut level = self.start_anchors(symbol);
        let ghost starts = start_stops(self.files(), symbol@);
        let ghost roots = stop_names(starts);
        let ghost files = self.files();
        let ghost a = self.answers();
        let ghost names = self.labels();
        let mut root_names: Vec<String> = Vec::new();
        let mut visited: Table<String, ()> = Table::new();
        let mut found: Vec<Hit> = Vec::new();
        assert(sort::each(found@) =~= Seq::<Reached>::empty());
        let mut i: usize = 0;
        while i < level.len()
            invariant
                i <= level@.len(),
                sort::each(level@) == starts,
                roots == stop_names(starts),
                root_names@.len() == i,
                forall|k: int| 0 <= k < i ==> #[trigger] root_names@[k]@ == roots[k],
                forall|x: Seq<char>| #[trigger]
                    visited.keys().contains(x) <==> roots.take(i as int).contains(x),
            decreases level@.len() - i,
        {
            let ghost before = visited.keys();
            proof {
                text::lemma_take_step(roots, i as int);
                assert(starts[i as int] == level@[i as int]@);
            }
            visited.insert(level[i].fqn.clone(), ());
            root_names.push(level[i].fqn.clone());
            proof {
                let longer = roots.take(i + 1);
                let shorter = roots.take(i as int);
                assert forall|x: Seq<char>| #[trigger]
                    visited.keys().contains(x) <==> longer.contains(x) by {
                    if shorter.contains(x) {
                        let k = choose|k: int| 0 <= k < shorter.len() && shorter[k] == x;
                        assert(longer[k] == x);
                    }
                    assert(longer[i as int] == roots[i as int]);
                    if longer.contains(x) {
                        let k = choose|k: int| 0 <= k < longer.len() && longer[k] == x;
                        if k < i {
                            assert(shorter[k] == x);
                        }
                    }
                }
            }
            i = i + 1;
        }
        proof {
            text::lemma_take_all(roots);
            assert(text::views(root_names@) =~= roots);
            assert forall|x: Seq<char>| #[trigger]
                visited.keys().contains(x) <==> known(roots, sort::each(found@), x) by {}
            self.lemma_labels(dir, (Stop { spot: (Seq::empty(), 0), fqn: Seq::empty() }));
        }
        let mut depth: usize = 0;
        let ghost mut levels: nat = 0;
        loop
            invariant
                files == self.files(),
                a == self.answers(),
                names == self.labels(),
                names.finite(),
                roots == stop_names(starts),
                forall|x: Seq<char>| #[trigger]
                    visited.keys().contains(x) <==> known(roots, sort::each(found@), x),
                (sort::each(found@), sort::each(level@)) == walked(files, a, dir, starts, levels),
                distinct_in(sort::each(found@), names),
                found@.len() <= names.len(),
                max_depth is Some ==> levels <= max_depth->0,
                level@.len() > 0 ==> depth == levels && depth <= found@.len(),
            ensures
                walk_ends(files, a, dir, starts, max_depth, levels),
                sort::each(found@) == walked(files, a, dir, starts, levels).0,
            decreases names.len() - found@.len(), level@.len(),
        {
            let capped = match max_depth {
                Some(m) => depth >= m,
                None => false,
            };
            if level.len() == 0 || capped {
                break;
            }
            let ghost before = sort::each(found@);
            let old_len: usize = found.len();
            let ghost stops = sort::each(level@);
            let mut k: usize = 0;
            assert(stops.take(0) =~= Seq::<Stop>::empty());
            proof {
                text::lemma_take_all(before);
            }
            while k < level.len()
                invariant
                    k <= level@.len(),
                    files == self.files(),
                    a == self.answers(),
                    names == self.labels(),
                    names.finite(),
                    stops == sort::each(level@),
                    depth <= found@.len(),
                    forall|x: Seq<char>| #[trigger]
                        visited.keys().contains(x) <==> known(roots, sort::each(found@), x),
                    sort::each(found@) == level_met(
                        files,
                        a,
                        dir,
                        roots,
                        before,
                        stops.take(k as int),
                        (depth + 1) as nat,
                    ),
                    distinct_in(sort::each(found@), names),
                    before.len() <= found@.len(),
                    sort::each(found@).take(before.len() as int) == before,
                decreases level@.len() - k,
            {
                let p = &level[k];
                let ghost stop = p@;
                let ghost mid = sort::each(found@);
                proof {
                    text::lemma_take_step(stops, k as int);
                    self.lemma_labels(dir, stop);
                    lemma_met(
                        files,
                        roots,
                        mid,
                        stop.fqn,
                        (depth + 1) as nat,
                        next_to(files, a, dir, stop),
                        names,
                    );
                }
                let nbs = self.neighbours(&p.path, p.offset, &p.fqn, dir);
                self.meet(&mut found, &mut visited, &p.fqn, depth, nbs, Ghost(roots));
                proof {
                    let now = sort::each(found@);
                    assert(now.take(before.len() as int) =~= now.take(mid.len() as int).take(
                        before.len() as int,
                    ));
                }
                k = k + 1;
            }
            proof {
                text::lemma_take_all(stops);
                lemma_distinct_in(sort::each(found@), names);
            }
            let mut next: Vec<Place> = Vec::new();
            let mut j: usize = old_len;
            while j < found.len()
                invariant
                    old_len == before.len(),
                    old_len <= j <= found@.len(),
                    next@.len() == j - old_len,
                    forall|q: int|
                        0 <= q < next@.len() ==> (#[trigger] next@[q])@ == sort::each(found@)[old_len
                            + q].stop(),
                decreases found@.len() - j,
            {
                let h = &found[j];
                let place = Place {
                    path: h.node.path.clone(),
                    offset: h.offset,
                    fqn: h.node.fqn.clone(),
                };
                assert(place@ == sort::each(found@)[j as int].stop());
                next.push(place);
                j = j + 1;
            }
            proof {
                assert(sort::each(next@) =~= stops_of(sort::each(found@).skip(before.len() as int)));
                assert((levels + 1) as nat - 1 == levels);
            }
            if next.len() > 0 {
                assert(found.len() > old_len);
                depth = depth + 1;
            }
            level = next;
            proof {
                levels = levels + 1;
            }
        }
        let ghost reached = sort::each(found@);
        let mut nodes: Vec<GraphNode> = Vec::new();
        let mut rest = reversed(found);
        let ghost mut n: int = 0;
        while rest.len() > 0
            invariant
                0 <= n <= reached.len(),
                rest@.len() == reached.len() - n,
                forall|k: int|
                    0 <= k < rest@.len() ==> (#[trigger] rest@[k])@ == reached[reached.len() - 1
                        - k],
                sort::each(nodes@) == nodes_of(reached.take(n)),
            decreases rest@.len(),
        {
            match rest.pop() {
                Some(h) => {
                    let ghost before = nodes@;
                    proof {
                        text::lemma_take_step(reached, n);
                        sort::lemma_each_push(before, h.node);
                    }
                    nodes.push(h.node);
                    proof {
                        assert(sort::each(nodes@) =~= nodes_of(reached.take(n + 1)));
                        n = n + 1;
                    }
                },
                None => {},
            }
        }
        proof {
            text::lemma_take_all(reached);
        }
        Closure { roots: root_names, nodes: sort(nodes) }
    }
}


/// The name of what stands at a spot: of the definition there, else of the
/// module.
pub open spec fn landing(files: Seq<FileIndex>, spot: Spot) -> Seq<char> {
    match name_at(files, spot) {
        Some(n) => n,
        None => names::fqn(spot.0, Seq::empty()),
    }
}

/// The stops at given spots.
pub open spec fn landings(files: Seq<FileIndex>, spots: Seq<Spot>) -> Seq<Stop> {
    Seq::new(spots.len(), |i: int| Stop { spot: spots[i], fqn: landing(files, spots[i]) })
}

/// Whether a name was reached.
pub open spec fn arrived(found: Seq<Stop>, name: Seq<char>) -> bool {
    exists|i: int| 0 <= i < found.len() && (#[trigger] found[i]).fqn == name
}

/// `found` with the stops added whose name was not reached before, in order.
pub open spec fn joined(found: Seq<Stop>, stops: Seq<Stop>) -> Seq<Stop>
    decreases stops.len(),
{
    if stops.len() == 0 {
        found
    } else {
        let before = joined(found, stops.drop_last());
        if arrived(before, stops.last().fqn) {
            before
        } else {
            before.push(stops.last())
        }
    }
}

/// Where a stop leads: to what it calls, then to what `extra` has for its name.
pub open spec fn leads_on(
    files: Seq<FileIndex>,
    a: Answers,
    extra: Table<String, Vec<(String, u32)>>,
    stop: Stop,
) -> Seq<Stop> {
    let calls = (a.outgoing)(stop.spot);
    Seq::new(calls.len(), |i: int| Stop { spot: calls[i].spot(), fqn: label(files, calls[i]) })
        + landings(files, sort::each(extra.list(stop.fqn)))
}

/// What is reached once each stop of a level has led on.
pub open spec fn level_joined(
    files: Seq<FileIndex>,
    a: Answers,
    extra: Table<String, Vec<(String, u32)>>,
    found: Seq<Stop>,
    level: Seq<Stop>,
) -> Seq<Stop>
    decreases level.len(),
{
    if level.len() == 0 {
        found
    } else {
        joined(
            level_joined(files, a, extra, found, level.drop_last()),
            leads_on(files, a, extra, level.last()),
        )
    }
}

/// What is reached from the seeds after `n` levels, and how much of it before
/// the last of them.
pub open spec fn spread(
    files: Seq<FileIndex>,
    a: Answers,
    extra: Table<String, Vec<(String, u32)>>,
    seeds: Seq<Spot>,
    n: nat,
) -> (Seq<Stop>, int)
    decreases n,
{
    if n == 0 {
        (joined(Seq::empty(), landings(files, seeds)), 0)
    } else {
        let (found, from) = spread(files, a, extra, seeds, (n - 1) as nat);
        (level_joined(files, a, extra, found, found.skip(from)), found.len() as int)
    }
}

/// Whether `names` are all names reached from the seeds, themselves included.
pub open spec fn reachable_is(
    files: Seq<FileIndex>,
    a: Answers,
    extra: Table<String, Vec<(String, u32)>>,
    seeds: Seq<Spot>,
    names: Set<Seq<char>>,
) -> bool {
    exists|n: nat|
        {
            let (found, from) = #[trigger] spread(files, a, extra, seeds, n);
            &&& from == found.len()
            &&& forall|x: Seq<char>| #[trigger] names.contains(x) <==> arrived(found, x)
        }
}

/// Whether all stops reached lie in `names`, each name once.
spec fn stops_in_names(found: Seq<Stop>, names: Set<Seq<char>>) -> bool {
    &&& forall|i: int| 0 <= i < found.len() ==> names.contains((#[trigger] found[i]).fqn)
    &&& forall|i: int, j: int|
        0 <= i < j < found.len() ==> (#[trigger] found[i]).fqn != (#[trigger] found[j]).fqn
}

proof fn lemma_stops_bound(found: Seq<Stop>, names: Set<Seq<char>>)
    requires
        stops_in_names(found, names),
        names.finite(),
    ensures
        found.len() <= names.len(),
{
    let fqns = Seq::new(found.len(), |i: int| found[i].fqn);
    assert(fqns.no_duplicates()) by {
        assert forall|i: int, j: int| 0 <= i < fqns.len() && 0 <= j < fqns.len() && i
            != j implies fqns[i] != fqns[j] by {
            if i < j {
                assert(found[i].fqn != found[j].fqn);
            } else {
                assert(found[j].fqn != found[i].fqn);
            }
        }
    }
    fqns.unique_seq_to_set();
    assert(fqns.to_set().subset_of(names)) by {
        assert forall|x: Seq<char>| fqns.to_set().contains(x) implies names.contains(x) by {
            let i = choose|i: int| 0 <= i < fqns.len() && fqns[i] == x;
            assert(names.contains(found[i].fqn));
        }
    }
    vstd::set_lib::lemma_len_subset(fqns.to_set(), names);
}

/// Joining stops whose names lie in `names` keeps what is reached in them, and
/// adds at the end.
proof fn lemma_joined(found: Seq<Stop>, stops: Seq<Stop>, names: Set<Seq<char>>)
    requires
        stops_in_names(found, names),
        forall|i: int| 0 <= i < stops.len() ==> names.contains((#[trigger] stops[i]).fqn),
    ensures
        stops_in_names(joined(found, stops), names),
        found.len() <= joined(found, stops).len(),
        joined(found, stops).take(found.len() as int) == found,
    decreases stops.len(),
{
    if stops.len() == 0 {
        text::lemma_take_all(found);
    } else {
        let t = stops.drop_last();
        assert forall|i: int| 0 <= i < t.len() implies names.contains((#[trigger] t[i]).fqn) by {
            assert(t[i] == stops[i]);
        }
        lemma_joined(found, t, names);
        let before = joined(found, t);
        assert(names.contains(stops[stops.len() - 1].fqn));
        assert(joined(found, stops).take(found.len() as int) =~= before.take(found.len() as int));
    }
}

/// The names of what stands at the spots of the first `n` lists.
spec fn landing_names(
    files: Seq<FileIndex>,
    lists: Seq<Vec<(String, u32)>>,
) -> Set<Seq<char>>
    decreases lists.len(),
{
    if lists.len() == 0 {
        Set::empty()
    } else {
        landing_names(files, lists.drop_last()).union(
            stop_names(landings(files, sort::each(lists.last()@))).to_set(),
        )
    }
}

proof fn lemma_landing_names(files: Seq<FileIndex>, lists: Seq<Vec<(String, u32)>>)
    ensures
        landing_names(files, lists).finite(),
        forall|k: int, i: int|
            0 <= k < lists.len() && 0 <= i < lists[k]@.len() ==> landing_names(
                files,
                lists,
            ).contains(landing(files, #[trigger] lists[k]@[i]@)),
    decreases lists.len(),
{
    if lists.len() > 0 {
        lemma_landing_names(files, lists.drop_last());
        let last = stop_names(landings(files, sort::each(lists.last()@)));
        vstd::seq_lib::seq_to_set_is_finite(last);
        assert forall|k: int, i: int|
            0 <= k < lists.len() && 0 <= i < lists[k]@.len() implies landing_names(
            files,
            lists,
        ).contains(landing(files, #[trigger] lists[k]@[i]@)) by {
            if k < lists.len() - 1 {
                assert(lists.drop_last()[k]@[i] == lists[k]@[i]);
            } else {
                assert(last[i] == landing(files, lists[k]@[i]@));
                assert(last.contains(last[i]));
            }
        }
    }
}

impl<T: CallGraphTy> CallGraph<T> {
    /// The name of what stands at a place.
    fn landing_of(&self, path: &String, offset: u32) -> (r: String)
        ensures
            r@ == landing(self.files(), (path@, offset)),
    {
        proof {
            use_type_invariant(self);
        }
        let key = (path.clone(), offset);
        let ghost spot: Spot = (path@, offset);
        assert(table_name(self.fqn_by_anchor, spot) == name_at(self.files@, spot));
        match self.fqn_by_anchor.get(&key) {
            Some(n) => n.clone(),
            None => {
                let none: Vec<String> = Vec::new();
                assert(text::views(none@) =~= Seq::<Seq<char>>::empty());
                scope_fqn(path.as_str(), &none)
            },
        }
    }

    /// Adds a stop whose name was not reached before.
    fn join(found: &mut Vec<Place>, visited: &mut Table<String, ()>, place: Place)
        requires
            forall|n: Seq<char>| #[trigger]
                old(visited).keys().contains(n) <==> arrived(sort::each(old(found)@), n),
        ensures
            forall|n: Seq<char>| #[trigger]
                final(visited).keys().contains(n) <==> arrived(sort::each(final(found)@), n),
            sort::each(final(found)@) == (if arrived(sort::each(old(found)@), place@.fqn) {
                sort::each(old(found)@)
            } else {
                sort::each(old(found)@).push(place@)
            }),
    {
        if !visited.contains_key(&place.fqn) {
            let ghost before = sort::each(found@);
            let ghost held = found@;
            visited.insert(place.fqn.clone(), ());
            found.push(place);
            proof {
                sort::lemma_each_push(held, place);
                let now = sort::each(found@);
                assert forall|x: Seq<char>| #[trigger]
                    visited.keys().contains(x) <==> arrived(now, x) by {
                    if arrived(before, x) {
                        let i = choose|i: int|
                            0 <= i < before.len() && (#[trigger] before[i]).fqn == x;
                        assert(now[i].fqn == x);
                    }
                    if x == place@.fqn {
                        assert(now[before.len() as int].fqn == x);
                    }
                    if arrived(now, x) {
                        let i = choose|i: int| 0 <= i < now.len() && (#[trigger] now[i]).fqn == x;
                        if i < before.len() {
                            assert(before[i].fqn == x);
                        }
                    }
                }
            }
        }
    }

    /// Adds the stops at given places.
    fn join_spots(
        &self,
        found: &mut Vec<Place>,
        visited: &mut Table<String, ()>,
        spots: &Vec<(String, u32)>,
    )
        requires
            forall|n: Seq<char>| #[trigger]
                old(visited).keys().contains(n) <==> arrived(sort::each(old(found)@), n),
        ensures
            forall|n: Seq<char>| #[trigger]
                final(visited).keys().contains(n) <==> arrived(sort::each(final(found)@), n),
            sort::each(final(found)@) == joined(
                sort::each(old(found)@),
                landings(self.files(), sort::each(spots@)),
            ),
    {
        let ghost was = sort::each(found@);
        let ghost all = landings(self.files(), sort::each(spots@));
        let mut i: usize = 0;
        assert(all.take(0) =~= Seq::<Stop>::empty());
        while i < spots.len()
            invariant
                i <= spots@.len(),
                all == landings(self.files(), sort::each(spots@)),
                forall|n: Seq<char>| #[trigger]
                    visited.keys().contains(n) <==> arrived(sort::each(found@), n),
                sort::each(found@) == joined(was, all.take(i as int)),
            decreases spots@.len() - i,
        {
            let p = &spots[i];
            let place = Place {
                path: p.0.clone(),
                offset: p.1,
                fqn: self.landing_of(&p.0, p.1),
            };
            proof {
                text::lemma_take_step(all, i as int);
                assert(sort::each(spots@)[i as int] == p@);
                assert(place@ == all[i as int]);
            }
            Self::join(found, visited, place);
            i = i + 1;
        }
        proof {
            text::lemma_take_all(all);
        }
    }

    /// Adds the stops that a stop leads to.
    fn join_next(
        &self,
        found: &mut Vec<Place>,
        visited: &mut Table<String, ()>,
        path: &String,
        offset: u32,
        fqn: &String,
        extra: &Table<String, Vec<(String, u32)>>,
    )
        requires
            forall|n: Seq<char>| #[trigger]
                old(visited).keys().contains(n) <==> arrived(sort::each(old(found)@), n),
        ensures
            forall|n: Seq<char>| #[trigger]
                final(visited).keys().contains(n) <==> arrived(sort::each(final(found)@), n),
            sort::each(final(found)@) == joined(
                sort::each(old(found)@),
                leads_on(
                    self.files(),
                    self.answers(),
                    *extra,
                    (Stop { spot: (path@, offset), fqn: fqn@ }),
                ),
            ),
    {
        let ghost was = sort::each(found@);
        let calls = self.ty.outgoing_at(path.as_str(), offset);
        let ghost heard = (self.answers().outgoing)((path@, offset));
        let ghost first = Seq::new(
            heard.len(),
            |i: int| Stop { spot: heard[i].spot(), fqn: label(self.files(), heard[i]) },
        );
        let mut i: usize = 0;
        assert(first.take(0) =~= Seq::<Stop>::empty());
        while i < calls.len()
            invariant
                i <= calls@.len(),
                sort::each(calls@) == heard,
                first == Seq::new(
                    heard.len(),
                    |i: int| Stop { spot: heard[i].spot(), fqn: label(self.files(), heard[i]) },
                ),
                forall|n: Seq<char>| #[trigger]
                    visited.keys().contains(n) <==> arrived(sort::each(found@), n),
                sort::each(found@) == joined(was, first.take(i as int)),
            decreases calls@.len() - i,
        {
            let nb = &calls[i];
            let place = Place {
                path: nb.path.clone(),
                offset: nb.offset,
                fqn: self.name_of(nb),
            };
            proof {
                text::lemma_take_step(first, i as int);
                assert(heard[i as int] == nb@);
                assert(place@ == first[i as int]);
            }
            Self::join(found, visited, place);
            i = i + 1;
        }
        proof {
            text::lemma_take_all(first);
        }
        let ghost second = landings(self.files(), sort::each(extra.list(fqn@)));
        match extra.get(fqn) {
            Some(spots) => {
                self.join_spots(found, visited, spots);
            },
            None => {
                assert(second =~= Seq::<Stop>::empty());
            },
        }
        proof {
            lemma_joined_chain(was, first, second);
        }
    }

    /// Every name reached by calls from the seeds, themselves included. A name
    /// reached that `extra_edges` has leads on to the places listed there too.
    pub fn reachable_from(
        &self,
        seeds: &Vec<(String, u32)>,
        extra_edges: &Table<String, Vec<(String, u32)>>,
    ) -> (r: Table<String, ()>)
        ensures
            reachable_is(
                self.files(),
                self.answers(),
                *extra_edges,
                sort::each(seeds@),
                r.keys().to_set(),
            ),
    {
        let ghost files = self.files();
        let ghost a = self.answers();
        let ghost spots = sort::each(seeds@);
        let mut found: Vec<Place> = Vec::new();
        let mut visited: Table<String, ()> = Table::new();
        assert(sort::each(found@) =~= Seq::<Stop>::empty());
        // Asking a table its length shows that its keys ascend.
        let _rows: usize = extra_edges.len();
        let ghost first = stop_names(landings(files, spots)).to_set();
        let ghost names = self.labels().union(first).union(
            landing_names(files, extra_edges.values()),
        );
        proof {
            vstd::seq_lib::seq_to_set_is_finite(stop_names(landings(files, spots)));
            lemma_landing_names(files, extra_edges.values());
            self.lemma_labels(
                Direction::Forward,
                (Stop { spot: (Seq::empty(), 0), fqn: Seq::empty() }),
            );
            let stops = landings(files, spots);
            assert forall|i: int| 0 <= i < stops.len() implies names.contains(
                (#[trigger] stops[i]).fqn,
            ) by {
                assert(stop_names(stops)[i] == stops[i].fqn);
                assert(stop_names(stops).contains(stops[i].fqn));
            }
            lemma_joined(Seq::empty(), stops, names);
        }
        self.join_spots(&mut found, &mut visited, seeds);
        let mut from: usize = 0;
        let ghost mut levels: nat = 0;
        proof {
            lemma_stops_bound(sort::each(found@), names);
        }
        while from < found.len()
            invariant
                files == self.files(),
                a == self.answers(),
                spots == sort::each(seeds@),
                names.finite(),
                names == self.labels().union(first).union(
                    landing_names(files, extra_edges.values()),
                ),
                table::ascending::<String>(extra_edges.keys()),
                forall|n: Seq<char>| #[trigger]
                    visited.keys().contains(n) <==> arrived(sort::each(found@), n),
                (sort::each(found@), from as int) == spread(files, a, *extra_edges, spots, levels),
                from <= found@.len(),
                stops_in_names(sort::each(found@), names),
                found@.len() <= names.len(),
            decreases names.len() - found@.len(), found@.len() - from,
        {
            let to: usize = found.len();
            let ghost before = sort::each(found@);
            let ghost level = before.skip(from as int);
            let mut k: usize = from;
            assert(level.take(0) =~= Seq::<Stop>::empty());
            proof {
                text::lemma_take_all(before);
            }
            while k < to
                invariant
                    files == self.files(),
                    a == self.answers(),
                    names.finite(),
                    names == self.labels().union(first).union(
                        landing_names(files, extra_edges.values()),
                    ),
                    table::ascending::<String>(extra_edges.keys()),
                    from <= k <= to <= found@.len(),
                    to == before.len(),
                    level == before.skip(from as int),
                    forall|n: Seq<char>| #[trigger]
                        visited.keys().contains(n) <==> arrived(sort::each(found@), n),
                    sort::each(found@) == level_joined(
                        files,
                        a,
                        *extra_edges,
                        before,
                        level.take(k - from),
                    ),
                    sort::each(found@).take(to as int) == before,
                    stops_in_names(sort::each(found@), names),
                decreases to - k,
            {
                let path = found[k].path.clone();
                let offset: u32 = found[k].offset;
                let fqn = found[k].fqn.clone();
                let ghost stop = found@[k as int]@;
                let ghost mid = sort::each(found@);
                let ghost next = leads_on(files, a, *extra_edges, stop);
                proof {
                    text::lemma_take_step(level, k - from);
                    assert(mid[k as int] == mid.take(to as int)[k as int]);
                    assert(level[k - from] == stop);
                    self.lemma_labels(Direction::Forward, stop);
                    lemma_landing_names(files, extra_edges.values());
                    extra_edges.lemma_rows();
                    let calls = (a.outgoing)(stop.spot);
                    assert(next_to(files, a, Direction::Forward, stop) == calls);
                    assert forall|i: int| 0 <= i < next.len() implies names.contains(
                        (#[trigger] next[i]).fqn,
                    ) by {
                        if i < calls.len() {
                            assert(self.labels().contains(
                                label(files, next_to(files, a, Direction::Forward, stop)[i]),
                            ));
                        } else {
                            let list = extra_edges.list(stop.fqn);
                            let j = i - calls.len();
                            assert(extra_edges.map().contains_key(stop.fqn));
                            let row = choose|row: int|
                                0 <= row < extra_edges.keys().len() && extra_edges.keys()[row]
                                    == stop.fqn;
                            assert(extra_edges.map()[extra_edges.keys()[row]]
                                == extra_edges.values()[row]);
                            assert(extra_edges.values()[row]@[j]@ == sort::each(list)[j]);
                        }
                    }
                    lemma_joined(mid, next, names);
                }
                self.join_next(&mut found, &mut visited, &path, offset, &fqn, extra_edges);
                proof {
                    let now = sort::each(found@);
                    assert(now.take(to as int) =~= now.take(mid.len() as int).take(to as int));
                }
                k = k + 1;
            }
            proof {
                text::lemma_take_all(level);
                lemma_stops_bound(sort::each(found@), names);
                levels = levels + 1;
                assert((levels - 1) as nat + 1 == levels);
            }
            from = to;
        }
        proof {
            let keys = visited.keys().to_set();
            assert forall|x: Seq<char>| #[trigger] keys.contains(x) <==> arrived(sort::each(found@), x) by {
                assert(keys.contains(x) <==> visited.keys().contains(x));
            }
            assert(spread(files, a, *extra_edges, spots, levels).1 == sort::each(found@).len());
        }
        visited
    }
}

/// Joining two lists in a row is joining them one after the other.
proof fn lemma_joined_chain(found: Seq<Stop>, a: Seq<Stop>, b: Seq<Stop>)
    ensures
        joined(joined(found, a), b) == joined(found, a + b),
    decreases b.len(),
{
    if b.len() == 0 {
        assert(a + b =~= a);
    } else {
        lemma_joined_chain(found, a, b.drop_last());
        assert((a + b).drop_last() =~= a + b.drop_last());
        assert((a + b).last() == b.last());
    }
}


/// Whether the callable named `caller` directly calls another, named `callee`.
pub open spec fn calls(
    files: Seq<FileIndex>,
    a: Answers,
    caller: Seq<char>,
    callee: Seq<char>,
) -> bool {
    caller != callee && exists|spot: Spot, i: int|
        call_site(files, a, caller, callee, spot, i)
}

/// Whether the `i`th call of the callable at a spot is one of `callee` by
/// `caller`.
pub open spec fn call_site(
    files: Seq<FileIndex>,
    a: Answers,
    caller: Seq<char>,
    callee: Seq<char>,
    spot: Spot,
    i: int,
) -> bool {
    &&& name_at(files, spot) == Some(caller)
    &&& 0 <= i < (a.outgoing)(spot).len()
    &&& name_at(files, (a.outgoing)(spot)[i].spot()) == Some(callee)
}

/// Appends `x` to the list of `key`, unless it is there.
pub fn push_new(t: &mut Table<String, Vec<String>>, key: &String, x: &String)
    ensures
        table::ascending::<String>(final(t).keys()),
        forall|k: Seq<char>| #[trigger]
            final(t).keys().contains(k) <==> k == key@ || old(t).keys().contains(k),
        forall|k: Seq<char>| #[trigger]
            text::views(final(t).list(k)) == (if k == key@ && !text::views(old(t).list(k)).contains(x@) {
                text::views(old(t).list(k)).push(x@)
            } else {
                text::views(old(t).list(k))
            }),
{
    let ghost was = *t;
    // Asking a table its length shows that its keys ascend.
    let _rows: usize = t.len();
    match t.get(key) {
        Some(list) => {
            if text::listed(x.as_str(), list) {
                proof {
                    t.lemma_rows();
                }
                return;
            }
        },
        None => {
            assert(was.list(key@) =~= Seq::<String>::empty());
            assert(text::views(was.list(key@)) =~= Seq::<Seq<char>>::empty());
        },
    }
    t.push_to(key.clone(), x.clone());
    proof {
        assert forall|k: Seq<char>| #[trigger] text::views(t.list(k)) == (if k == key@ && !text::views(
            was.list(k),
        ).contains(x@) {
            text::views(was.list(k)).push(x@)
        } else {
            text::views(was.list(k))
        }) by {
            if k == key@ {
                assert(text::views(t.list(k)) =~= text::views(was.list(k)).push(x@));
            } else {
                assert(t.list(k) == was.list(k));
            }
        }
    }
}

impl<T: CallGraphTy> CallGraph<T> {
    /// For each callable that is called by another, the names of those that
    /// call it, each once.
    pub fn caller_index(&self) -> (r: Table<String, Vec<String>>)
        ensures
            forall|callee: Seq<char>, caller: Seq<char>|
                #![trigger text::views(r.list(callee)).contains(caller)]
                text::views(r.list(callee)).contains(caller) <==> calls(
                    self.files(),
                    self.answers(),
                    caller,
                    callee,
                ),
            forall|callee: Seq<char>| #[trigger] text::views(r.list(callee)).no_duplicates(),
            forall|callee: Seq<char>| #[trigger]
                r.keys().contains(callee) <==> r.list(callee).len() > 0,
    {
        proof {
            use_type_invariant(self);
        }
        let ghost files = self.files();
        let ghost a = self.answers();
        let n: usize = self.fqn_by_anchor.len();
        let ghost keys = self.fqn_by_anchor.keys();
        proof {
            self.fqn_by_anchor.lemma_rows();
            assert forall|k: int| 0 <= k < n implies name_at(files, #[trigger] keys[k]) == Some(
                self.fqn_by_anchor.values()[k]@,
            ) by {
                assert(table_name(self.fqn_by_anchor, keys[k]) == name_at(self.files@, keys[k]));
            }
        }
        let mut out: Table<String, Vec<String>> = Table::new();
        let mut i: usize = 0;
        proof {
            assert forall|callee: Seq<char>| #[trigger] text::views(out.list(callee))
                == Seq::<Seq<char>>::empty() by {
                assert(text::views(out.list(callee)) =~= Seq::<Seq<char>>::empty());
            }
        }
        while i < n
            invariant
                i <= n,
                n == keys.len(),
                keys == self.fqn_by_anchor.keys(),
                files == self.files(),
                a == self.answers(),
                forall|spot: Spot| #[trigger]
                    table_name(self.fqn_by_anchor, spot) == name_at(self.files@, spot),
                forall|k: int|
                    0 <= k < n ==> name_at(files, #[trigger] keys[k]) == Some(
                        self.fqn_by_anchor.values()[k]@,
                    ),
                forall|callee: Seq<char>, caller: Seq<char>|
                    #![trigger text::views(out.list(callee)).contains(caller)]
                    text::views(out.list(callee)).contains(caller) <==> caller != callee && exists|
                        k: int,
                        j: int,
                    |
                        0 <= k < i && #[trigger] call_site(files, a, caller, callee, keys[k], j),
                forall|callee: Seq<char>| #[trigger] text::views(out.list(callee)).no_duplicates(),
                forall|callee: Seq<char>| #[trigger]
                    out.keys().contains(callee) <==> out.list(callee).len() > 0,
            decreases n - i,
        {
            let path = &self.fqn_by_anchor.key(i).0;
            let offset: u32 = self.fqn_by_anchor.key(i).1;
            let caller = self.fqn_by_anchor.value(i);
            let ghost here = keys[i as int];
            assert(here == (path@, offset));
            let nbs = self.ty.outgoing_at(path.as_str(), offset);
            let ghost heard = (a.outgoing)(here);
            let ghost before = out;
            let mut j: usize = 0;
            while j < nbs.len()
                invariant
                    j <= nbs@.len(),
                    sort::each(nbs@) == heard,
                    heard == (a.outgoing)(here),
                    files == self.files(),
                    name_at(files, here) == Some(caller@),
                    forall|spot: Spot| #[trigger]
                        table_name(self.fqn_by_anchor, spot) == name_at(self.files@, spot),
                    forall|callee: Seq<char>, who: Seq<char>|
                        #![trigger text::views(out.list(callee)).contains(who)]
                        text::views(out.list(callee)).contains(who) <==> text::views(
                            before.list(callee),
                        ).contains(who) || (who == caller@ && who != callee && exists|q: int|
                            q < j && #[trigger] call_site(files, a, who, callee, here, q)),
                    forall|callee: Seq<char>| #[trigger] text::views(out.list(callee)).no_duplicates(),
                    forall|callee: Seq<char>| #[trigger]
                        out.keys().contains(callee) <==> out.list(callee).len() > 0,
                decreases nbs@.len() - j,
            {
                let nb = &nbs[j];
                let ghost mid = out;
                let ghost spot = nb@.spot();
                proof {
                    assert(heard[j as int] == nb@);
                    assert(table_name(self.fqn_by_anchor, spot) == name_at(self.files@, spot));
                }
                let key = (nb.path.clone(), nb.offset);
                let ghost mut added: Option<Seq<char>> = None;
                match self.fqn_by_anchor.get(&key) {
                    Some(callee) => {
                        if !same(callee.as_str(), caller.as_str()) {
                            push_new(&mut out, callee, caller);
                            proof {
                                added = Some(callee@);
                            }
                        }
                    },
                    None => {},
                }
                proof {
                    assert forall|c: Seq<char>, who: Seq<char>|
                        #![trigger text::views(out.list(c)).contains(who)]
                        text::views(out.list(c)).contains(who) <==> text::views(mid.list(c)).contains(who) || (
                        added == Some(c) && who == caller@) by {
                        let now = text::views(out.list(c));
                        let was = text::views(mid.list(c));
                        if added == Some(c) {
                            if was.contains(caller@) {
                                assert(now == was);
                            } else {
                                assert(now == was.push(caller@));
                                if was.contains(who) {
                                    let k = choose|k: int| 0 <= k < was.len() && was[k] == who;
                                    assert(now[k] == who);
                                }
                                assert(now[was.len() as int] == caller@);
                            }
                        } else {
                            assert(now == was);
                        }
                    }
                    assert forall|c: Seq<char>, who: Seq<char>|
                        #![trigger text::views(out.list(c)).contains(who)]
                        text::views(out.list(c)).contains(who) <==> text::views(before.list(c)).contains(who)
                            || (who == caller@ && who != c && exists|q: int|
                            q < j + 1 && #[trigger] call_site(files, a, who, c, here, q)) by {
                        assert(text::views(mid.list(c)).contains(who) <==> text::views(
                            before.list(c),
                        ).contains(who) || (who == caller@ && who != c && exists|q: int|
                            q < j && #[trigger] call_site(files, a, who, c, here, q)));
                        if added == Some(c) && who == caller@ {
                            assert(call_site(files, a, who, c, here, j as int));
                        }
                        if exists|q: int| q < j && #[trigger] call_site(files, a, who, c, here, q) {
                            let q = choose|q: int|
                                q < j && #[trigger] call_site(files, a, who, c, here, q);
                            assert(q < j + 1 && call_site(files, a, who, c, here, q));
                        }
                        if who == caller@ && who != c && exists|q: int|
                            q < j + 1 && #[trigger] call_site(files, a, who, c, here, q) {
                            let q = choose|q: int|
                                q < j + 1 && #[trigger] call_site(files, a, who, c, here, q);
                            if q == j {
                                assert(added == Some(c));
                            }
                        }
                    }
                    assert forall|c: Seq<char>| #[trigger] text::views(out.list(c)).no_duplicates() by {
                        let was = text::views(mid.list(c));
                        assert(was.no_duplicates());
                        let now = text::views(out.list(c));
                        if now != was {
                            assert(now == was.push(caller@));
                            assert(!was.contains(caller@));
                        }
                    }
                    assert forall|c: Seq<char>| #[trigger]
                        out.keys().contains(c) <==> out.list(c).len() > 0 by {
                        assert(mid.keys().contains(c) <==> mid.list(c).len() > 0);
                        assert(text::views(out.list(c)).len() == out.list(c).len());
                        assert(text::views(mid.list(c)).len() == mid.list(c).len());
                        if added == Some(c) {
                            assert(text::views(out.list(c)).contains(caller@));
                        }
                    }
                }
                j = j + 1;
            }
            proof {
                assert forall|c: Seq<char>, who: Seq<char>|
                    #![trigger text::views(out.list(c)).contains(who)]
                    text::views(out.list(c)).contains(who) <==> who != c && exists|k: int, j: int|
                        0 <= k < i + 1 && #[trigger] call_site(files, a, who, c, keys[k], j) by {
                    if text::views(before.list(c)).contains(who) {
                        let (k, j) = choose|k: int, j: int|
                            0 <= k < i && #[trigger] call_site(files, a, who, c, keys[k], j);
                        assert(0 <= k < i + 1 && call_site(files, a, who, c, keys[k], j));
                    }
                    if who == caller@ && who != c && exists|q: int|
                        q < nbs@.len() && #[trigger] call_site(files, a, who, c, here, q) {
                        let q = choose|q: int|
                            q < nbs@.len() && #[trigger] call_site(files, a, who, c, here, q);
                        assert(call_site(files, a, who, c, keys[i as int], q));
                    }
                    if who != c && exists|k: int, j: int|
                        0 <= k < i + 1 && #[trigger] call_site(files, a, who, c, keys[k], j) {
                        let (k, j) = choose|k: int, j: int|
                            0 <= k < i + 1 && #[trigger] call_site(files, a, who, c, keys[k], j);
                        if k < i {
                            assert(text::views(before.list(c)).contains(who));
                        } else {
                            assert(call_site(files, a, who, c, here, j));
                        }
                    }
                }
            }
            i = i + 1;
        }
        proof {
            assert forall|callee: Seq<char>, caller: Seq<char>|
                #![trigger text::views(out.list(callee)).contains(caller)]
                text::views(out.list(callee)).contains(caller) <==> calls(files, a, caller, callee) by {
                if text::views(out.list(callee)).contains(caller) {
                    let (k, j) = choose|k: int, j: int|
                        0 <= k < n && #[trigger] call_site(files, a, caller, callee, keys[k], j);
                    assert(call_site(files, a, caller, callee, keys[k], j));
                }
                if calls(files, a, caller, callee) {
                    let (spot, j) = choose|spot: Spot, j: int|
                        call_site(files, a, caller, callee, spot, j);
                    assert(table_name(self.fqn_by_anchor, spot) == name_at(self.files@, spot));
                    assert(keys.contains(spot));
                    let k = choose|k: int| 0 <= k < keys.len() && keys[k] == spot;
                    assert(call_site(files, a, caller, callee, keys[k], j));
                }
            }
        }
        out
    }

    /// The direct bases of the class at a place.
    pub fn supertypes_at(&self, path: &str, offset: u32) -> (r: Vec<SuperClass>)
        ensures
            sort::each(r@) == (self.answers().supertypes)((path@, offset)),
    {
        self.ty.supertypes_at(path, offset)
    }

    /// Whether `member` belongs to the module that the name at a place means.
    pub fn module_member(&self, path: &str, offset: u32, member: &str) -> (r: MemberCheck)
        ensures
            r == (self.answers().member)((path@, offset), member@),
    {
        self.ty.module_member(path, offset, member)
    }

    /// The definition that the use at a place means.
    pub fn resolve_anchor(&self, path: &str, offset: u32) -> (r: Option<(String, u32)>)
        ensures
            match r {
                Some(x) => (self.answers().resolve)((path@, offset)) == Some(x@),
                None => (self.answers().resolve)((path@, offset)) is None,
            },
    {
        self.ty.resolve_def_at(path, offset)
    }
}

} // verus!
