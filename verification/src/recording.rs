//! Recorded edges: what a source of edges answered, kept to be answered again.
use crate::callgraph::{Answers, CallGraph, CallGraphTy, Direction, MemberCheck, Neighbor, NeighborView, Reached, Spot, Stop, SuperClass};
use crate::callgraph;
use crate::model::{Def, DefKind, FileIndex, Ref};
use crate::model;
use crate::sort;
use crate::table::Table;
use crate::table;
use crate::text::same;
use crate::text;
use vstd::prelude::*;

verus! {

/// A neighbour as it is kept.
#[derive(Clone, Debug)]
pub struct NeighborData {
    pub path: String,
    pub offset: u32,
    pub line: usize,
    pub col: usize,
    pub name: String,
    pub kind: String,
}

impl View for NeighborData {
    type V = NeighborView;

    open spec fn view(&self) -> NeighborView {
        NeighborView {
            path: self.path@,
            offset: self.offset,
            line: self.line,
            col: self.col,
            name: self.name@,
            kind: self.kind@,
        }
    }
}

/// The kind that a kept kind stands for: itself where it is one of the kinds
/// there are, else `callable`.
pub open spec fn kind_of(kind: Seq<char>) -> Seq<char> {
    if kind == "class"@ || kind == "method"@ || kind == "function"@ || kind == "property"@ || kind
        == "module"@ {
        kind
    } else {
        "callable"@
    }
}

/// A neighbour with the kind that its kept kind stands for.
pub open spec fn restored(n: NeighborView) -> NeighborView {
    NeighborView { kind: kind_of(n.kind), ..n }
}

/// Neighbours with the kinds that their kept kinds stand for.
pub open spec fn restored_all(s: Seq<NeighborView>) -> Seq<NeighborView> {
    Seq::new(s.len(), |i: int| restored(s[i]))
}

/// The kind that a kept kind stands for.
fn intern_kind(kind: &str) -> (r: &'static str)
    ensures
        r@ == kind_of(kind@),
{
    if same(kind, "class") {
        "class"
    } else if same(kind, "method") {
        "method"
    } else if same(kind, "function") {
        "function"
    } else if same(kind, "property") {
        "property"
    } else if same(kind, "module") {
        "module"
    } else {
        "callable"
    }
}

/// Neighbours as they are kept.
fn to_data(nbs: &Vec<Neighbor>) -> (r: Vec<NeighborData>)
    ensures
        sort::each(r@) == sort::each(nbs@),
{
    let mut out: Vec<NeighborData> = Vec::new();
    let mut i: usize = 0;
    while i < nbs.len()
        invariant
            i <= nbs@.len(),
            out@.len() == i,
            forall|k: int| 0 <= k < i ==> (#[trigger] out@[k])@ == nbs@[k]@,
        decreases nbs@.len() - i,
    {
        let n = &nbs[i];
        out.push(
            NeighborData {
                path: n.path.clone(),
                offset: n.offset,
                line: n.line,
                col: n.col,
                name: n.name.clone(),
                kind: n.kind.to_owned(),
            },
        );
        i = i + 1;
    }
    assert(sort::each(out@) =~= sort::each(nbs@));
    out
}

/// Neighbours as they were.
fn from_data(data: &Vec<NeighborData>) -> (r: Vec<Neighbor>)
    ensures
        sort::each(r@) == restored_all(sort::each(data@)),
{
    let mut out: Vec<Neighbor> = Vec::new();
    let mut i: usize = 0;
    while i < data.len()
        invariant
            i <= data@.len(),
            out@.len() == i,
            forall|k: int| 0 <= k < i ==> (#[trigger] out@[k])@ == restored(data@[k]@),
        decreases data@.len() - i,
    {
        let n = &data[i];
        out.push(
            Neighbor {
                path: n.path.clone(),
                offset: n.offset,
                line: n.line,
                col: n.col,
                name: n.name.clone(),
                kind: intern_kind(n.kind.as_str()),
            },
        );
        i = i + 1;
    }
    assert(sort::each(out@) =~= restored_all(sort::each(data@)));
    out
}

/// A copy of base classes.
fn copy_supers(v: &Vec<SuperClass>) -> (r: Vec<SuperClass>)
    ensures
        sort::each(r@) == sort::each(v@),
{
    let mut out: Vec<SuperClass> = Vec::new();
    let mut i: usize = 0;
    while i < v.len()
        invariant
            i <= v@.len(),
            out@.len() == i,
            forall|k: int| 0 <= k < i ==> (#[trigger] out@[k])@ == v@[k]@,
        decreases v@.len() - i,
    {
        let anchor = match &v[i].anchor {
            Some(a) => Some((a.0.clone(), a.1)),
            None => None,
        };
        out.push(SuperClass { name: v[i].name.clone(), anchor });
        i = i + 1;
    }
    assert(sort::each(out@) =~= sort::each(v@));
    out
}

/// The answers of a source of edges, by the place asked about.
pub struct GraphRecording {
    pub outgoing: Table<(String, u32), Vec<NeighborData>>,
    pub incoming: Table<(String, u32), Vec<NeighborData>>,
    pub resolve: Table<(String, u32), Option<(String, u32)>>,
    pub supertypes: Table<(String, u32), Vec<SuperClass>>,
}

/// What a kept definition place stands for.
pub open spec fn target_of(t: Option<(String, u32)>) -> Option<Spot> {
    match t {
        Some(a) => Some(a@),
        None => None,
    }
}

impl GraphRecording {
    /// What the recording answers: what it has, and nothing where it has none.
    pub open spec fn replayed(self) -> Answers {
        Answers {
            outgoing: |s: Spot| restored_all(sort::each(self.outgoing.list(s))),
            incoming: |s: Spot| restored_all(sort::each(self.incoming.list(s))),
            resolve: |s: Spot|
                if self.resolve.map().contains_key(s) {
                    target_of(self.resolve.map()[s])
                } else {
                    None
                },
            supertypes: |s: Spot| sort::each(self.supertypes.list(s)),
            member: |s: Spot, m: Seq<char>| MemberCheck::Unknown,
        }
    }
}

/// A source of edges that answers from a recording. It knows no members.
pub struct ReplayTy {
    pub rec: GraphRecording,
}

/// The neighbours in all lists.
spec fn all_listed(lists: Seq<Vec<NeighborData>>) -> Set<NeighborView>
    decreases lists.len(),
{
    if lists.len() == 0 {
        Set::empty()
    } else {
        all_listed(lists.drop_last()).union(restored_all(sort::each(lists.last()@)).to_set())
    }
}

proof fn lemma_all_listed(lists: Seq<Vec<NeighborData>>)
    ensures
        all_listed(lists).finite(),
        forall|k: int, i: int|
            0 <= k < lists.len() && 0 <= i < lists[k]@.len() ==> all_listed(lists).contains(
                restored(#[trigger] lists[k]@[i]@),
            ),
    decreases lists.len(),
{
    if lists.len() > 0 {
        lemma_all_listed(lists.drop_last());
        let last = restored_all(sort::each(lists.last()@));
        vstd::seq_lib::seq_to_set_is_finite(last);
        assert forall|k: int, i: int|
            0 <= k < lists.len() && 0 <= i < lists[k]@.len() implies all_listed(lists).contains(
            restored(#[trigger] lists[k]@[i]@),
        ) by {
            if k < lists.len() - 1 {
                assert(lists.drop_last()[k]@[i] == lists[k]@[i]);
            } else {
                assert(last[i] == restored(lists[k]@[i]@));
                assert(last.contains(last[i]));
            }
        }
    }
}

/// A list that a table has is one of its values.
proof fn lemma_list_row(t: Table<(String, u32), Vec<NeighborData>>, s: Spot)
    requires
        t.keys().len() == t.values().len(),
    ensures
        forall|i: int|
            0 <= i < t.list(s).len() ==> all_listed(t.values()).contains(
                restored(#[trigger] t.list(s)[i]@),
            ),
{
    lemma_all_listed(t.values());
    if t.map().contains_key(s) {
        let k = t.keys().index_of(s);
        assert(t.keys()[k] == s);
        assert(t.list(s) == t.values()[k]@);
    }
}

impl CallGraphTy for ReplayTy {
    open spec fn answers(&self) -> Answers {
        self.rec.replayed()
    }

    closed spec fn universe(&self) -> Set<NeighborView> {
        all_listed(self.rec.outgoing.values()).union(all_listed(self.rec.incoming.values()))
    }

    proof fn universe_covers(&self, spot: Spot) {
        lemma_all_listed(self.rec.outgoing.values());
        lemma_all_listed(self.rec.incoming.values());
        self.rec.outgoing.lemma_same_len();
        self.rec.incoming.lemma_same_len();
        lemma_list_row(self.rec.outgoing, spot);
        lemma_list_row(self.rec.incoming, spot);
        assert forall|i: int|
            0 <= i < (self.answers().outgoing)(spot).len() implies self.universe().contains(
            #[trigger] (self.answers().outgoing)(spot)[i],
        ) by {
            assert((self.answers().outgoing)(spot)[i] == restored(
                self.rec.outgoing.list(spot)[i]@,
            ));
        }
        assert forall|i: int|
            0 <= i < (self.answers().incoming)(spot).len() implies self.universe().contains(
            #[trigger] (self.answers().incoming)(spot)[i],
        ) by {
            assert((self.answers().incoming)(spot)[i] == restored(
                self.rec.incoming.list(spot)[i]@,
            ));
        }
    }

    fn outgoing_at(&self, path: &str, offset: u32) -> (r: Vec<Neighbor>) {
        let key = (path.to_owned(), offset);
        match self.rec.outgoing.get(&key) {
            Some(d) => from_data(d),
            None => {
                let none: Vec<Neighbor> = Vec::new();
                assert(sort::each(none@) =~= restored_all(sort::each(self.rec.outgoing.list(key@))));
                none
            },
        }
    }

    fn incoming_at(&self, path: &str, offset: u32) -> (r: Vec<Neighbor>) {
        let key = (path.to_owned(), offset);
        match self.rec.incoming.get(&key) {
            Some(d) => from_data(d),
            None => {
                let none: Vec<Neighbor> = Vec::new();
                assert(sort::each(none@) =~= restored_all(sort::each(self.rec.incoming.list(key@))));
                none
            },
        }
    }

    fn resolve_def_at(&self, path: &str, offset: u32) -> (r: Option<(String, u32)>) {
        let key = (path.to_owned(), offset);
        match self.rec.resolve.get(&key) {
            Some(t) => match t {
                Some(a) => Some((a.0.clone(), a.1)),
                None => None,
            },
            None => None,
        }
    }

    fn supertypes_at(&self, path: &str, offset: u32) -> (r: Vec<SuperClass>) {
        let key = (path.to_owned(), offset);
        match self.rec.supertypes.get(&key) {
            Some(s) => copy_supers(s),
            None => {
                let none: Vec<SuperClass> = Vec::new();
                assert(sort::each(none@) =~= sort::each(self.rec.supertypes.list(key@)));
                none
            },
        }
    }

    fn module_member(&self, _path: &str, _offset: u32, _member: &str) -> (r: MemberCheck) {
        MemberCheck::Unknown
    }
}

impl CallGraph<ReplayTy> {
    /// A graph over the files whose edges come from a recording.
    pub fn replay(files: Vec<FileIndex>, recording: GraphRecording) -> (r: Self)
        ensures
            r.files() == files@,
            r.answers() == recording.replayed(),
    {
        CallGraph::new(ReplayTy { rec: recording }, files)
    }
}


/// Whether the callable at `t` calls the one at `s` or is called by it.
pub open spec fn adjacent(a: Answers, s: Spot, t: Spot) -> bool {
    callgraph::has_spot((a.outgoing)(s), t) || callgraph::has_spot((a.incoming)(s), t)
}

/// Whether an occurrence means a definition, and the callable at `s` is found to call
/// it there.
pub open spec fn calls_there(a: Answers, o: Spot, s: Spot) -> bool {
    (a.resolve)(o) is Some && callgraph::has_spot((a.incoming)(o), s)
}

/// Whether a spot is that of a definition, or of a caller found at an occurrence that
/// means one.
pub open spec fn known_spot(files: Seq<FileIndex>, a: Answers, s: Spot) -> bool {
    callgraph::name_at(files, s) is Some || exists|o: Spot|
        occurs(files, o) && #[trigger] calls_there(a, o, s)
}

/// Whether `p` goes from a definition, or from a caller found at an occurrence, from
/// each spot to an adjacent one.
pub open spec fn route(files: Seq<FileIndex>, a: Answers, p: Seq<Spot>) -> bool {
    &&& p.len() > 0
    &&& known_spot(files, a, p[0])
    &&& forall|i: int| 0 <= i < p.len() - 1 ==> adjacent(a, #[trigger] p[i], p[i + 1])
}

/// Whether a spot is a definition of a callable or a caller found at an occurrence, or
/// connected to one.
pub open spec fn touched(files: Seq<FileIndex>, a: Answers, s: Spot) -> bool {
    exists|p: Seq<Spot>| #[trigger] route(files, a, p) && p.last() == s
}

/// Whether the definitions of a file have a class at a spot.
pub open spec fn class_in(path: Seq<char>, defs: Seq<Def>, s: Spot) -> bool
    decreases defs.len(),
{
    defs.len() > 0 && ((defs.last().kind is Class && s == (path, defs.last().offset)) || class_in(
        path,
        defs.drop_last(),
        s,
    ))
}

/// Whether the files have a class at a spot.
pub open spec fn class_at(files: Seq<FileIndex>, s: Spot) -> bool
    decreases files.len(),
{
    files.len() > 0 && (class_in(files.last().path@, files.last().defs@, s) || class_at(
        files.drop_last(),
        s,
    ))
}

/// Whether a file uses a name at a spot.
pub open spec fn used_in(path: Seq<char>, refs: Seq<Ref>, s: Spot) -> bool
    decreases refs.len(),
{
    refs.len() > 0 && (s == (path, refs.last().offset) || used_in(path, refs.drop_last(), s))
}

/// Whether a file binds a name by import at a spot.
pub open spec fn imported_in(path: Seq<char>, defs: Seq<Def>, s: Spot) -> bool
    decreases defs.len(),
{
    defs.len() > 0 && ((defs.last().kind is Import && s == (path, defs.last().offset))
        || imported_in(path, defs.drop_last(), s))
}

/// Whether the files use or import a name at a spot.
pub open spec fn occurs(files: Seq<FileIndex>, s: Spot) -> bool
    decreases files.len(),
{
    files.len() > 0 && (used_in(files.last().path@, files.last().refs@, s) || imported_in(
        files.last().path@,
        files.last().defs@,
        s,
    ) || occurs(files.drop_last(), s))
}

/// Whether a recording holds just the answers that a graph was asked for: what
/// is called from and calls each touched spot, what calls each occurrence that
/// means a definition, what each occurrence means, and the bases of each class.
pub open spec fn records(files: Seq<FileIndex>, a: Answers, rec: GraphRecording) -> bool {
    &&& forall|s: Spot| #[trigger] rec.outgoing.keys().contains(s) <==> touched(files, a, s)
    &&& forall|s: Spot| #[trigger]
        rec.outgoing.keys().contains(s) ==> sort::each(rec.outgoing.list(s)) == (a.outgoing)(s)
    &&& forall|s: Spot| #[trigger]
        rec.incoming.keys().contains(s) <==> touched(files, a, s) || (occurs(files, s) && (
        a.resolve)(s) is Some)
    &&& forall|s: Spot| #[trigger]
        rec.incoming.keys().contains(s) ==> sort::each(rec.incoming.list(s)) == (a.incoming)(s)
    &&& forall|s: Spot| #[trigger] rec.resolve.keys().contains(s) <==> occurs(files, s)
    &&& forall|s: Spot| #[trigger]
        rec.resolve.keys().contains(s) ==> target_of(rec.resolve.map()[s]) == (a.resolve)(s)
    &&& forall|s: Spot| #[trigger] rec.supertypes.keys().contains(s) <==> class_at(files, s)
    &&& forall|s: Spot| #[trigger]
        rec.supertypes.keys().contains(s) ==> sort::each(rec.supertypes.list(s)) == (a.supertypes)(s)
}

/// What is adjacent to a touched spot is touched.
proof fn lemma_touched_step(files: Seq<FileIndex>, a: Answers, s: Spot, t: Spot)
    requires
        touched(files, a, s),
        adjacent(a, s, t),
    ensures
        touched(files, a, t),
{
    let p = choose|p: Seq<Spot>| #[trigger] route(files, a, p) && p.last() == s;
    let q = p.push(t);
    assert forall|i: int| 0 <= i < q.len() - 1 implies adjacent(a, #[trigger] q[i], q[i + 1]) by {
        if i < p.len() - 1 {
            assert(adjacent(a, p[i], p[i + 1]));
        }
    }
    assert(route(files, a, q));
}

/// A definition is touched.
pub proof fn lemma_touched_def(files: Seq<FileIndex>, a: Answers, s: Spot)
    requires
        callgraph::name_at(files, s) is Some,
    ensures
        touched(files, a, s),
{
    assert(route(files, a, seq![s]));
}

/// A caller found at an occurrence is touched.
proof fn lemma_touched_caller(files: Seq<FileIndex>, a: Answers, o: Spot, s: Spot)
    requires
        occurs(files, o),
        calls_there(a, o, s),
    ensures
        touched(files, a, s),
{
    assert(known_spot(files, a, s));
    assert(route(files, a, seq![s]));
}

/// A set of spots that has every definition, every caller found at an occurrence and
/// all that is adjacent has every touched spot.
proof fn lemma_touched_within(
    files: Seq<FileIndex>,
    a: Answers,
    all: Seq<Spot>,
    p: Seq<Spot>,
)
    requires
        route(files, a, p),
        forall|s: Spot| #[trigger] known_spot(files, a, s) ==> all.contains(s),
        forall|s: Spot, t: Spot|
            all.contains(s) && #[trigger] adjacent(a, s, t) ==> all.contains(t),
    ensures
        all.contains(p.last()),
    decreases p.len(),
{
    if p.len() == 1 {
        assert(known_spot(files, a, p[0]));
    } else {
        let q = p.drop_last();
        assert forall|i: int| 0 <= i < q.len() - 1 implies adjacent(a, #[trigger] q[i], q[i + 1]) by {
            assert(adjacent(a, p[i], p[i + 1]));
        }
        assert(route(files, a, q));
        lemma_touched_within(files, a, all, q);
        assert(adjacent(a, p[p.len() - 2], p[p.len() - 2 + 1]));
    }
}

/// Appends the spots of neighbours that were not seen before.
fn queue_new(
    work: &mut Vec<(String, u32)>,
    seen: &mut Table<(String, u32), ()>,
    nbs: &Vec<Neighbor>,
)
    requires
        forall|s: Spot| #[trigger] old(seen).keys().contains(s) <==> sort::each(old(work)@).contains(s),
        sort::each(old(work)@).no_duplicates(),
    ensures
        forall|s: Spot| #[trigger]
            final(seen).keys().contains(s) <==> sort::each(final(work)@).contains(s),
        sort::each(final(work)@).no_duplicates(),
        old(work)@.len() <= final(work)@.len(),
        sort::each(final(work)@).take(old(work)@.len() as int) == sort::each(old(work)@),
        forall|s: Spot| #[trigger]
            sort::each(final(work)@).contains(s) <==> sort::each(old(work)@).contains(s) || callgraph::has_spot(
                sort::each(nbs@),
                s,
            ),
{
    let ghost was = sort::each(work@);
    let ghost heard = sort::each(nbs@);
    let mut i: usize = 0;
    proof {
        text::lemma_take_all(was);
    }
    while i < nbs.len()
        invariant
            i <= nbs@.len(),
            heard == sort::each(nbs@),
            forall|s: Spot| #[trigger] seen.keys().contains(s) <==> sort::each(work@).contains(s),
            sort::each(work@).no_duplicates(),
            was.len() <= work@.len(),
            sort::each(work@).take(was.len() as int) == was,
            forall|s: Spot| #[trigger]
                sort::each(work@).contains(s) <==> was.contains(s) || callgraph::has_spot(heard.take(i as int), s),
        decreases nbs@.len() - i,
    {
        let nb = &nbs[i];
        let key = (nb.path.clone(), nb.offset);
        let ghost before = sort::each(work@);
        let ghost held = work@;
        let ghost spot: Spot = key@;
        proof {
            text::lemma_take_step(heard, i as int);
            assert(heard[i as int] == nb@);
        }
        if !seen.contains_key(&key) {
            seen.insert((nb.path.clone(), nb.offset), ());
            work.push(key);
            proof {
                sort::lemma_each_push(held, key);
                assert(sort::each(work@).take(was.len() as int) =~= before.take(was.len() as int));
                assert forall|s: Spot| #[trigger] sort::each(work@).contains(s) <==> before.contains(s)
                    || s == spot by {
                    let now = sort::each(work@);
                    if before.contains(s) {
                        let k = choose|k: int| 0 <= k < before.len() && before[k] == s;
                        assert(now[k] == s);
                    }
                    assert(now[before.len() as int] == spot);
                }
            }
        } else {
            assert(before.contains(spot));
        }
        proof {
            let longer = heard.take(i + 1);
            let shorter = heard.take(i as int);
            assert forall|s: Spot| #[trigger] sort::each(work@).contains(s) <==> was.contains(s)
                || callgraph::has_spot(longer, s) by {
                if callgraph::has_spot(shorter, s) {
                    let k = choose|k: int|
                        0 <= k < shorter.len() && (#[trigger] shorter[k]).spot() == s;
                    assert(longer[k].spot() == s);
                }
                if s == spot {
                    assert(longer[i as int].spot() == s);
                }
                if callgraph::has_spot(longer, s) {
                    let k = choose|k: int|
                        0 <= k < longer.len() && (#[trigger] longer[k]).spot() == s;
                    if k < i {
                        assert(shorter[k].spot() == s);
                    }
                }
            }
        }
        i = i + 1;
    }
    proof {
        text::lemma_take_all(heard);
    }
}

/// The spots of the neighbours that a source can name, and of the definitions.
spec fn all_spots(universe: Set<NeighborView>, defs: Seq<Spot>) -> Set<Spot> {
    universe.map(|nb: NeighborView| nb.spot()).union(defs.to_set())
}

/// A neighbour that is answered is among those that the source can name.
proof fn lemma_named_spot<T: CallGraphTy>(ty: T, defs: Seq<Spot>, s: Spot, t: Spot)
    requires
        adjacent(ty.answers(), s, t),
    ensures
        all_spots(ty.universe(), defs).contains(t),
{
    let a = ty.answers();
    ty.universe_covers(s);
    if callgraph::has_spot((a.outgoing)(s), t) {
        let j = choose|j: int|
            0 <= j < (a.outgoing)(s).len() && (#[trigger] (a.outgoing)(s)[j]).spot() == t;
        assert(ty.universe().contains((a.outgoing)(s)[j]));
        assert(ty.universe().map(|nb: NeighborView| nb.spot()).contains(t));
    } else {
        let j = choose|j: int|
            0 <= j < (a.incoming)(s).len() && (#[trigger] (a.incoming)(s)[j]).spot() == t;
        assert(ty.universe().contains((a.incoming)(s)[j]));
        assert(ty.universe().map(|nb: NeighborView| nb.spot()).contains(t));
    }
}

/// A touched spot is that of a definition or of a neighbour that the source can name.
proof fn lemma_touched_named<T: CallGraphTy>(
    ty: T,
    files: Seq<FileIndex>,
    defs: Seq<Spot>,
    s: Spot,
)
    requires
        touched(files, ty.answers(), s),
        forall|x: Spot| #[trigger] callgraph::name_at(files, x) is Some ==> defs.contains(x),
    ensures
        all_spots(ty.universe(), defs).contains(s),
{
    let a = ty.answers();
    let p = choose|p: Seq<Spot>| #[trigger] route(files, a, p) && p.last() == s;
    if p.len() > 1 {
        assert(adjacent(a, p[p.len() - 2], p[p.len() - 2 + 1]));
        lemma_named_spot(ty, defs, p[p.len() - 2], s);
    } else if callgraph::name_at(files, s) is Some {
        assert(defs.contains(s));
    } else {
        assert(known_spot(files, a, p[0]));
        let o = choose|o: Spot| occurs(files, o) && #[trigger] calls_there(a, o, s);
        assert(adjacent(a, o, s));
        lemma_named_spot(ty, defs, o, s);
    }
}

/// Whether the tables hold what was asked at the first spots of a list, and all that was
/// heard of is in the list.
spec fn asked(
    files: Seq<FileIndex>,
    a: Answers,
    work: Seq<Spot>,
    head: int,
    seen: Seq<Spot>,
    outgoing: Table<(String, u32), Vec<NeighborData>>,
    incoming: Table<(String, u32), Vec<NeighborData>>,
) -> bool {
    &&& 0 <= head <= work.len()
    &&& work.no_duplicates()
    &&& forall|s: Spot| #[trigger] seen.contains(s) <==> work.contains(s)
    &&& forall|s: Spot| #[trigger] work.contains(s) ==> touched(files, a, s)
    &&& forall|s: Spot| #[trigger] outgoing.keys().contains(s) <==> work.take(head).contains(s)
    &&& forall|s: Spot| #[trigger]
        outgoing.keys().contains(s) ==> sort::each(outgoing.list(s)) == (a.outgoing)(s)
    &&& forall|s: Spot| #[trigger] work.take(head).contains(s) ==> incoming.keys().contains(s)
    &&& forall|s: Spot| #[trigger]
        incoming.keys().contains(s) ==> touched(files, a, s) || (occurs(files, s) && (a.resolve)(
            s,
        ) is Some)
    &&& forall|s: Spot| #[trigger]
        incoming.keys().contains(s) ==> sort::each(incoming.list(s)) == (a.incoming)(s)
    &&& forall|s: Spot, t: Spot| #[trigger]
        callgraph::has_spot((a.outgoing)(s), t) && outgoing.keys().contains(s) ==> work.contains(t)
    &&& forall|s: Spot, t: Spot| #[trigger]
        callgraph::has_spot((a.incoming)(s), t) && incoming.keys().contains(s) ==> work.contains(t)
}

/// A table with an answer added has the answers that it had.
proof fn lemma_answer_added(
    before: Table<(String, u32), Vec<NeighborData>>,
    after: Table<(String, u32), Vec<NeighborData>>,
    here: Spot,
    answers: spec_fn(Spot) -> Seq<NeighborView>,
)
    requires
        forall|s: Spot| #[trigger]
            before.keys().contains(s) ==> sort::each(before.list(s)) == answers(s),
        forall|s: Spot| #[trigger]
            after.keys().contains(s) <==> s == here || before.keys().contains(s),
        forall|s: Spot| #[trigger] after.list(s) == before.list(s) || s == here,
        sort::each(after.list(here)) == answers(here),
    ensures
        forall|s: Spot| #[trigger]
            after.keys().contains(s) ==> sort::each(after.list(s)) == answers(s),
{
    assert forall|s: Spot| #[trigger] after.keys().contains(s) implies sort::each(after.list(s))
        == answers(s) by {
        if s != here {
            assert(before.keys().contains(s));
            assert(after.list(s) == before.list(s));
        }
    }
}

impl<T: CallGraphTy> CallGraph<T> {
    /// The spots of the definitions, as a list and as a set.
    fn defined_spots(&self) -> (r: (Vec<(String, u32)>, Table<(String, u32), ()>))
        ensures
            sort::each(r.0@).no_duplicates(),
            forall|s: Spot| #[trigger] r.1.keys().contains(s) <==> sort::each(r.0@).contains(s),
            forall|s: Spot| #[trigger]
                sort::each(r.0@).contains(s) <==> callgraph::name_at(self.files(), s) is Some,
    {
        let (_, anchors) = self.index();
        let n: usize = anchors.len();
        let ghost keys = anchors.keys();
        let mut seen: Table<(String, u32), ()> = Table::new();
        let mut work: Vec<(String, u32)> = Vec::new();
        proof {
            anchors.lemma_rows();
            crate::table::lemma_ascending_distinct::<(String, u32)>(keys);
            assert(sort::each(work@) =~= Seq::<Spot>::empty());
            assert(keys.take(0) =~= Seq::<Spot>::empty());
        }
        let mut i: usize = 0;
        while i < n
            invariant
                i <= n,
                n == keys.len(),
                keys == anchors.keys(),
                sort::each(work@) == keys.take(i as int),
                forall|s: Spot| #[trigger] seen.keys().contains(s) <==> sort::each(work@).contains(s),
            decreases n - i,
        {
            let k = anchors.key(i);
            let ghost held = work@;
            let ghost before = sort::each(work@);
            proof {
                text::lemma_take_step(keys, i as int);
            }
            seen.insert((k.0.clone(), k.1), ());
            work.push((k.0.clone(), k.1));
            proof {
                sort::lemma_each_push(held, (k.0, k.1));
                assert forall|s: Spot| #[trigger] seen.keys().contains(s) <==> sort::each(
                    work@,
                ).contains(s) by {
                    let now = sort::each(work@);
                    if before.contains(s) {
                        let j = choose|j: int| 0 <= j < before.len() && before[j] == s;
                        assert(now[j] == s);
                    }
                    assert(now[before.len() as int] == k@);
                }
            }
            i = i + 1;
        }
        proof {
            let files = self.files();
            text::lemma_take_all(keys);
            assert forall|s: Spot| #[trigger] sort::each(work@).contains(s)
                <==> callgraph::name_at(files, s) is Some by {
                assert(callgraph::table_name(*anchors, s) == callgraph::name_at(files, s));
                assert(anchors.map().contains_key(s) <==> keys.contains(s));
            }
        }
        (work, seen)
    }

    /// Asks what is called from and calls each spot of a list that was not asked yet,
    /// and each that is heard of then.
    fn record_edges(
        &self,
        work: &mut Vec<(String, u32)>,
        seen: &mut Table<(String, u32), ()>,
        from: usize,
        outgoing: &mut Table<(String, u32), Vec<NeighborData>>,
        incoming: &mut Table<(String, u32), Vec<NeighborData>>,
    )
        requires
            asked(
                self.files(),
                self.answers(),
                sort::each(old(work)@),
                from as int,
                old(seen).keys(),
                *old(outgoing),
                *old(incoming),
            ),
        ensures
            asked(
                self.files(),
                self.answers(),
                sort::each(final(work)@),
                final(work)@.len() as int,
                final(seen).keys(),
                *final(outgoing),
                *final(incoming),
            ),
            forall|s: Spot| #[trigger]
                sort::each(old(work)@).contains(s) ==> sort::each(final(work)@).contains(s),
            forall|s: Spot| #[trigger]
                old(incoming).keys().contains(s) ==> final(incoming).keys().contains(s),
    {
        let (_, anchors) = self.index();
        let ty = self.source();
        let ghost files = self.files();
        let ghost a = self.answers();
        let ghost defs = anchors.keys();
        let ghost first = sort::each(work@);
        let ghost had = incoming.keys();
        let ghost bound = all_spots(ty.universe(), defs);
        proof {
            ty.universe_covers((Seq::empty(), 0));
            ty.universe().lemma_map_finite(|nb: NeighborView| nb.spot());
            vstd::seq_lib::seq_to_set_is_finite(defs);
            assert forall|x: Spot| #[trigger] callgraph::name_at(files, x) is Some implies defs.contains(
                x,
            ) by {
                assert(callgraph::table_name(*anchors, x) == callgraph::name_at(files, x));
                assert(anchors.map().contains_key(x) <==> defs.contains(x));
            }
            assert forall|k: int| 0 <= k < first.len() implies bound.contains(
                #[trigger] first[k],
            ) by {
                assert(first.contains(first[k]));
                lemma_touched_named(*ty, files, defs, first[k]);
            }
            lemma_spots_bound(first, bound);
        }
        let mut head: usize = from;
        while head < work.len()
            invariant
                files == self.files(),
                a == self.answers(),
                ty.answers() == a,
                bound == all_spots(ty.universe(), defs),
                bound.finite(),
                forall|x: Spot| #[trigger]
                    callgraph::name_at(files, x) is Some ==> defs.contains(x),
                work@.len() <= bound.len(),
                asked(
                    files,
                    a,
                    sort::each(work@),
                    head as int,
                    seen.keys(),
                    *outgoing,
                    *incoming,
                ),
                forall|s: Spot| #[trigger] first.contains(s) ==> sort::each(work@).contains(s),
                forall|s: Spot| #[trigger] had.contains(s) ==> incoming.keys().contains(s),
            decreases bound.len() - head,
        {
            let path = work[head].0.clone();
            let offset: u32 = work[head].1;
            let ghost here: Spot = (path@, offset);
            let ghost before = sort::each(work@);
            let ghost total = before.len() as int;
            assert(before[head as int] == here);
            assert(before.contains(here));
            let out = ty.outgoing_at(path.as_str(), offset);
            let inc = ty.incoming_at(path.as_str(), offset);
            queue_new(work, seen, &out);
            let ghost mid = sort::each(work@);
            queue_new(work, seen, &inc);
            let ghost now = sort::each(work@);
            proof {
                assert(now.take(total) =~= now.take(mid.len() as int).take(total));
                assert(now.take(total) == before);
                assert forall|s: Spot| #[trigger] now.contains(s) implies touched(files, a, s) by {
                    if !before.contains(s) {
                        assert(mid.contains(s) || callgraph::has_spot((a.incoming)(here), s));
                        assert(adjacent(a, here, s));
                        lemma_touched_step(files, a, here, s);
                    }
                }
                assert forall|k: int| 0 <= k < now.len() implies bound.contains(
                    #[trigger] now[k],
                ) by {
                    assert(now.contains(now[k]));
                    lemma_touched_named(*ty, files, defs, now[k]);
                }
                lemma_spots_bound(now, bound);
                assert forall|s: Spot| #[trigger] before.contains(s) implies now.contains(s) by {
                    assert(mid.contains(s));
                }
                assert(now.take(head as int) =~= before.take(head as int)) by {
                    assert(now.take(head as int) =~= now.take(total).take(head as int));
                }
                text::lemma_take_step(now, head as int);
                assert(now[head as int] == now.take(total)[head as int]);
                text::lemma_push_contains(now.take(head as int), here);
            }
            let ghost o1 = *outgoing;
            let ghost i1 = *incoming;
            outgoing.insert((path.clone(), offset), to_data(&out));
            incoming.insert((path, offset), to_data(&inc));
            proof {
                assert forall|s: Spot| #[trigger] outgoing.list(s) == o1.list(s) || s == here by {
                    assert(outgoing.map() == o1.map().insert(here, outgoing.map()[here]));
                }
                assert forall|s: Spot| #[trigger] incoming.list(s) == i1.list(s) || s == here by {
                    assert(incoming.map() == i1.map().insert(here, incoming.map()[here]));
                }
                assert(outgoing.map().contains_key(here));
                assert(incoming.map().contains_key(here));
                lemma_answer_added(o1, *outgoing, here, a.outgoing);
                lemma_answer_added(i1, *incoming, here, a.incoming);
                assert forall|s: Spot, t: Spot| #[trigger]
                    callgraph::has_spot((a.outgoing)(s), t) && outgoing.keys().contains(
                        s,
                    ) implies now.contains(t) by {
                    if s == here {
                        assert(mid.contains(t));
                    } else {
                        assert(o1.keys().contains(s));
                        assert(before.contains(t));
                    }
                }
                assert forall|s: Spot, t: Spot| #[trigger]
                    callgraph::has_spot((a.incoming)(s), t) && incoming.keys().contains(
                        s,
                    ) implies now.contains(t) by {
                    if s != here {
                        assert(i1.keys().contains(s));
                        assert(before.contains(t));
                    }
                }
                assert forall|s: Spot| #[trigger] incoming.keys().contains(s) implies touched(
                    files,
                    a,
                    s,
                ) || (occurs(files, s) && (a.resolve)(s) is Some) by {
                    if s != here {
                        assert(i1.keys().contains(s));
                    }
                }
            }
            head = head + 1;
        }
    }
}

/// Different spots of a set are at most as many as the set has.
proof fn lemma_spots_bound(s: Seq<Spot>, all: Set<Spot>)
    requires
        s.no_duplicates(),
        all.finite(),
        forall|k: int| 0 <= k < s.len() ==> all.contains(#[trigger] s[k]),
    ensures
        s.len() <= all.len(),
{
    s.unique_seq_to_set();
    assert(s.to_set().subset_of(all)) by {
        assert forall|x: Spot| s.to_set().contains(x) implies all.contains(x) by {
            let k = choose|k: int| 0 <= k < s.len() && s[k] == x;
            assert(all.contains(s[k]));
        }
    }
    vstd::set_lib::lemma_len_subset(s.to_set(), all);
}


impl<T: CallGraphTy> CallGraph<T> {
    /// Records the bases of each class.
    fn record_supertypes(&self) -> (r: Table<(String, u32), Vec<SuperClass>>)
        ensures
            forall|s: Spot| #[trigger] r.keys().contains(s) <==> class_at(self.files(), s),
            forall|s: Spot| #[trigger]
                r.keys().contains(s) ==> sort::each(r.list(s)) == (self.answers().supertypes)(s),
    {
        let (files, _) = self.index();
        let ty = self.source();
        let ghost a = self.answers();
        let mut out: Table<(String, u32), Vec<SuperClass>> = Table::new();
        let mut i: usize = 0;
        while i < files.len()
            invariant
                i <= files@.len(),
                ty.answers() == a,
                forall|s: Spot| #[trigger]
                    out.keys().contains(s) <==> class_at(files@.take(i as int), s),
                forall|s: Spot| #[trigger]
                    out.keys().contains(s) ==> sort::each(out.list(s)) == (a.supertypes)(s),
            decreases files@.len() - i,
        {
            let f = &files[i];
            proof {
                text::lemma_take_step(files@, i as int);
            }
            let ghost before = out.keys();
            let mut j: usize = 0;
            while j < f.defs.len()
                invariant
                    j <= f.defs@.len(),
                    ty.answers() == a,
                    forall|s: Spot| #[trigger]
                        out.keys().contains(s) <==> before.contains(s) || class_in(
                            f.path@,
                            f.defs@.take(j as int),
                            s,
                        ),
                    forall|s: Spot| #[trigger]
                        out.keys().contains(s) ==> sort::each(out.list(s)) == (a.supertypes)(s),
                decreases f.defs@.len() - j,
            {
                let d = &f.defs[j];
                proof {
                    text::lemma_take_step(f.defs@, j as int);
                }
                let ghost mid = out;
                let ghost here: Spot = (f.path@, d.offset);
                match d.kind {
                    DefKind::Class => {
                        out.insert(
                            (f.path.clone(), d.offset),
                            ty.supertypes_at(f.path.as_str(), d.offset),
                        );
                        proof {
                            assert forall|s: Spot| #[trigger] out.keys().contains(s) implies sort::each(
                                out.list(s),
                            ) == (a.supertypes)(s) by {
                                assert(out.map().contains_key(s));
                                if s != here {
                                    assert(mid.keys().contains(s));
                                    assert(mid.map().contains_key(s));
                                    assert(out.list(s) == mid.list(s));
                                }
                            }
                        }
                    },
                    _ => {},
                }
                j = j + 1;
            }
            proof {
                text::lemma_take_all(f.defs@);
            }
            i = i + 1;
        }
        proof {
            text::lemma_take_all(files@);
        }
        out
    }

    /// Records what one occurrence means, and what calls it there; the callers are to be
    /// asked too.
    fn record_occurrence(
        &self,
        path: &String,
        offset: u32,
        resolve: &mut Table<(String, u32), Option<(String, u32)>>,
        work: &mut Vec<(String, u32)>,
        seen: &mut Table<(String, u32), ()>,
        outgoing: &Table<(String, u32), Vec<NeighborData>>,
        incoming: &mut Table<(String, u32), Vec<NeighborData>>,
        Ghost(head): Ghost<int>,
    )
        requires
            occurs(self.files(), (path@, offset)),
            recalled(self.answers(), *old(resolve), *old(incoming)),
            asked(
                self.files(),
                self.answers(),
                sort::each(old(work)@),
                head,
                old(seen).keys(),
                *outgoing,
                *old(incoming),
            ),
        ensures
            forall|s: Spot| #[trigger]
                final(resolve).keys().contains(s) <==> old(resolve).keys().contains(s) || s == (
                    path@,
                    offset,
                ),
            recalled(self.answers(), *final(resolve), *final(incoming)),
            asked(
                self.files(),
                self.answers(),
                sort::each(final(work)@),
                head,
                final(seen).keys(),
                *outgoing,
                *final(incoming),
            ),
            forall|s: Spot| #[trigger]
                sort::each(old(work)@).contains(s) ==> sort::each(final(work)@).contains(s),
    {
        let ty = self.source();
        let ghost files = self.files();
        let ghost a = self.answers();
        let ghost here: Spot = (path@, offset);
        let key = (path.clone(), offset);
        if resolve.contains_key(&key) {
            return;
        }
        let ghost r0 = *resolve;
        let ghost i0 = *incoming;
        let target = ty.resolve_def_at(path.as_str(), offset);
        let found = target.is_some();
        let ghost kept = target;
        resolve.insert((path.clone(), offset), target);
        proof {
            assert forall|s: Spot| #[trigger] resolve.keys().contains(s) implies target_of(
                resolve.map()[s],
            ) == (a.resolve)(s) by {
                if s == here {
                    assert(resolve.map()[s] == kept);
                } else {
                    assert(r0.keys().contains(s));
                    assert(resolve.map()[s] == r0.map()[s]);
                }
            }
        }
        if found && !incoming.contains_key(&key) {
            let nbs = ty.incoming_at(path.as_str(), offset);
            let ghost before = sort::each(work@);
            queue_new(work, seen, &nbs);
            let ghost now = sort::each(work@);
            incoming.insert(key, to_data(&nbs));
            proof {
                assert forall|s: Spot| #[trigger] incoming.list(s) == i0.list(s) || s == here by {
                    assert(incoming.map() == i0.map().insert(here, incoming.map()[here]));
                }
                assert(incoming.map().contains_key(here));
                lemma_answer_added(i0, *incoming, here, a.incoming);
                assert forall|s: Spot| #[trigger] now.contains(s) implies touched(files, a, s) by {
                    if !before.contains(s) {
                        assert(calls_there(a, here, s));
                        lemma_touched_caller(files, a, here, s);
                    }
                }
                assert(now.take(head) =~= before.take(head)) by {
                    assert(now.take(head) =~= now.take(before.len() as int).take(head));
                }
                assert forall|s: Spot, t: Spot| #[trigger]
                    callgraph::has_spot((a.outgoing)(s), t) && outgoing.keys().contains(
                        s,
                    ) implies now.contains(t) by {
                    assert(before.contains(t));
                }
                assert forall|s: Spot, t: Spot| #[trigger]
                    callgraph::has_spot((a.incoming)(s), t) && incoming.keys().contains(
                        s,
                    ) implies now.contains(t) by {
                    if s != here {
                        assert(i0.keys().contains(s));
                        assert(before.contains(t));
                    }
                }
                assert forall|s: Spot| #[trigger] incoming.keys().contains(s) implies touched(
                    files,
                    a,
                    s,
                ) || (occurs(files, s) && (a.resolve)(s) is Some) by {
                    if s != here {
                        assert(i0.keys().contains(s));
                    }
                }
                assert forall|s: Spot| #[trigger] now.take(head).contains(s) implies incoming.keys().contains(
                    s,
                ) by {
                    assert(before.take(head).contains(s));
                    assert(i0.keys().contains(s));
                }
            }
        }
    }

    /// Records what each occurrence means, and what calls it there.
    fn record_occurrences(
        &self,
        work: &mut Vec<(String, u32)>,
        seen: &mut Table<(String, u32), ()>,
        outgoing: &Table<(String, u32), Vec<NeighborData>>,
        incoming: &mut Table<(String, u32), Vec<NeighborData>>,
        Ghost(head): Ghost<int>,
    ) -> (r: Table<(String, u32), Option<(String, u32)>>)
        requires
            asked(
                self.files(),
                self.answers(),
                sort::each(old(work)@),
                head,
                old(seen).keys(),
                *outgoing,
                *old(incoming),
            ),
        ensures
            forall|s: Spot| #[trigger] r.keys().contains(s) <==> occurs(self.files(), s),
            recalled(self.answers(), r, *final(incoming)),
            asked(
                self.files(),
                self.answers(),
                sort::each(final(work)@),
                head,
                final(seen).keys(),
                *outgoing,
                *final(incoming),
            ),
            forall|s: Spot| #[trigger]
                sort::each(old(work)@).contains(s) ==> sort::each(final(work)@).contains(s),
    {
        let (files, _) = self.index();
        let ghost a = self.answers();
        let ghost first = sort::each(work@);
        let mut resolve: Table<(String, u32), Option<(String, u32)>> = Table::new();
        let mut i: usize = 0;
        while i < files.len()
            invariant
                i <= files@.len(),
                files@ == self.files(),
                a == self.answers(),
                forall|s: Spot| #[trigger]
                    resolve.keys().contains(s) <==> occurs(files@.take(i as int), s),
                recalled(a, resolve, *incoming),
                asked(
                    files@,
                    a,
                    sort::each(work@),
                    head,
                    seen.keys(),
                    *outgoing,
                    *incoming,
                ),
                forall|s: Spot| #[trigger] first.contains(s) ==> sort::each(work@).contains(s),
            decreases files@.len() - i,
        {
            let f = &files[i];
            proof {
                text::lemma_take_step(files@, i as int);
            }
            let ghost before = resolve.keys();
            let mut j: usize = 0;
            while j < f.refs.len()
                invariant
                    j <= f.refs@.len(),
                    i < files@.len(),
                    *f == files@[i as int],
                    files@ == self.files(),
                    a == self.answers(),
                    forall|s: Spot| #[trigger]
                        resolve.keys().contains(s) <==> before.contains(s) || used_in(
                            f.path@,
                            f.refs@.take(j as int),
                            s,
                        ),
                    recalled(a, resolve, *incoming),
                    asked(
                        files@,
                        a,
                        sort::each(work@),
                        head,
                        seen.keys(),
                        *outgoing,
                        *incoming,
                    ),
                    forall|s: Spot| #[trigger] first.contains(s) ==> sort::each(work@).contains(s),
                decreases f.refs@.len() - j,
            {
                proof {
                    text::lemma_take_step(f.refs@, j as int);
                    lemma_used_at(f.path@, f.refs@, j as int);
                    lemma_occurs_in(files@, i as int, (f.path@, f.refs@[j as int].offset));
                }
                self.record_occurrence(
                    &f.path,
                    f.refs[j].offset,
                    &mut resolve,
                    work,
                    seen,
                    outgoing,
                    incoming,
                    Ghost(head),
                );
                j = j + 1;
            }
            proof {
                text::lemma_take_all(f.refs@);
            }
            let ghost mid = resolve.keys();
            let mut k: usize = 0;
            while k < f.defs.len()
                invariant
                    k <= f.defs@.len(),
                    i < files@.len(),
                    *f == files@[i as int],
                    files@ == self.files(),
                    a == self.answers(),
                    forall|s: Spot| #[trigger]
                        resolve.keys().contains(s) <==> mid.contains(s) || imported_in(
                            f.path@,
                            f.defs@.take(k as int),
                            s,
                        ),
                    recalled(a, resolve, *incoming),
                    asked(
                        files@,
                        a,
                        sort::each(work@),
                        head,
                        seen.keys(),
                        *outgoing,
                        *incoming,
                    ),
                    forall|s: Spot| #[trigger] first.contains(s) ==> sort::each(work@).contains(s),
                decreases f.defs@.len() - k,
            {
                proof {
                    text::lemma_take_step(f.defs@, k as int);
                }
                match f.defs[k].kind {
                    DefKind::Import => {
                        proof {
                            lemma_imported_at(f.path@, f.defs@, k as int);
                            lemma_occurs_in(files@, i as int, (f.path@, f.defs@[k as int].offset));
                        }
                        self.record_occurrence(
                            &f.path,
                            f.defs[k].offset,
                            &mut resolve,
                            work,
                            seen,
                            outgoing,
                            incoming,
                            Ghost(head),
                        );
                    },
                    _ => {},
                }
                k = k + 1;
            }
            proof {
                text::lemma_take_all(f.defs@);
                assert forall|s: Spot| #[trigger] resolve.keys().contains(s) <==> occurs(
                    files@.take(i + 1),
                    s,
                ) by {
                    assert(mid.contains(s) <==> before.contains(s) || used_in(
                        f.path@,
                        f.refs@,
                        s,
                    ));
                    assert(before.contains(s) <==> occurs(files@.take(i as int), s));
                }
            }
            i = i + 1;
        }
        proof {
            text::lemma_take_all(files@);
        }
        resolve
    }

    /// Every answer that the traversals ask for, so that a recording can give it
    /// again: what is called from and calls each definition and all it is
    /// connected to, the bases of each class, what each occurrence means and
    /// what calls it, and the same of those callers as of the definitions.
    pub fn record(&self) -> (r: GraphRecording)
        ensures
            records(self.files(), self.answers(), r),
    {
        let (mut work, mut seen) = self.defined_spots();
        let mut outgoing: Table<(String, u32), Vec<NeighborData>> = Table::new();
        let mut incoming: Table<(String, u32), Vec<NeighborData>> = Table::new();
        let ghost files = self.files();
        let ghost a = self.answers();
        let ghost defs = sort::each(work@);
        proof {
            assert(defs.take(0) =~= Seq::<Spot>::empty());
            assert forall|s: Spot| #[trigger] defs.contains(s) implies touched(files, a, s) by {
                lemma_touched_def(files, a, s);
            }
        }
        self.record_edges(&mut work, &mut seen, 0, &mut outgoing, &mut incoming);
        let head: usize = work.len();
        let supertypes = self.record_supertypes();
        let resolve = self.record_occurrences(
            &mut work,
            &mut seen,
            &outgoing,
            &mut incoming,
            Ghost(head as int),
        );
        let ghost heard = incoming.keys();
        self.record_edges(&mut work, &mut seen, head, &mut outgoing, &mut incoming);
        proof {
            let all = sort::each(work@);
            text::lemma_take_all(all);
            assert forall|s: Spot| #[trigger] all.contains(s) <==> touched(files, a, s) by {
                if touched(files, a, s) {
                    let p = choose|p: Seq<Spot>| #[trigger] route(files, a, p) && p.last() == s;
                    assert forall|x: Spot| #[trigger] known_spot(files, a, x) implies all.contains(
                        x,
                    ) by {
                        if callgraph::name_at(files, x) is Some {
                            assert(defs.contains(x));
                        } else {
                            let o = choose|o: Spot|
                                occurs(files, o) && #[trigger] calls_there(a, o, x);
                            assert(resolve.keys().contains(o));
                            assert(heard.contains(o));
                            assert(incoming.keys().contains(o));
                            assert(callgraph::has_spot((a.incoming)(o), x));
                        }
                    }
                    assert forall|x: Spot, t: Spot|
                        all.contains(x) && #[trigger] adjacent(a, x, t) implies all.contains(t) by {
                        assert(outgoing.keys().contains(x));
                        assert(incoming.keys().contains(x));
                    }
                    lemma_touched_within(files, a, all, p);
                }
            }
            assert forall|s: Spot| #[trigger] incoming.keys().contains(s) <==> touched(files, a, s)
                || (occurs(files, s) && (a.resolve)(s) is Some) by {
                if touched(files, a, s) {
                    assert(all.take(all.len() as int).contains(s));
                }
                if occurs(files, s) && (a.resolve)(s) is Some {
                    assert(resolve.keys().contains(s));
                    assert(heard.contains(s));
                }
            }
        }
        GraphRecording { outgoing, incoming, resolve, supertypes }
    }
}

/// Whether what was asked of occurrences is as answered, and what calls those that mean
/// a definition was asked too.
spec fn recalled(
    a: Answers,
    resolve: Table<(String, u32), Option<(String, u32)>>,
    incoming: Table<(String, u32), Vec<NeighborData>>,
) -> bool {
    &&& forall|s: Spot| #[trigger]
        resolve.keys().contains(s) ==> target_of(resolve.map()[s]) == (a.resolve)(s)
    &&& forall|s: Spot| #[trigger]
        resolve.keys().contains(s) && (a.resolve)(s) is Some ==> incoming.keys().contains(s)
}

/// A use of a file is one where it uses a name.
proof fn lemma_used_at(path: Seq<char>, refs: Seq<Ref>, j: int)
    requires
        0 <= j < refs.len(),
    ensures
        used_in(path, refs, (path, refs[j].offset)),
    decreases refs.len(),
{
    if j < refs.len() - 1 {
        lemma_used_at(path, refs.drop_last(), j);
    }
}

/// An import of a file is one where it binds a name by import.
proof fn lemma_imported_at(path: Seq<char>, defs: Seq<Def>, k: int)
    requires
        0 <= k < defs.len(),
        defs[k].kind is Import,
    ensures
        imported_in(path, defs, (path, defs[k].offset)),
    decreases defs.len(),
{
    if k < defs.len() - 1 {
        lemma_imported_at(path, defs.drop_last(), k);
    }
}

/// What a file uses or imports occurs in the files.
proof fn lemma_occurs_in(files: Seq<FileIndex>, i: int, s: Spot)
    requires
        0 <= i < files.len(),
        used_in(files[i].path@, files[i].refs@, s) || imported_in(files[i].path@, files[i].defs@, s),
    ensures
        occurs(files, s),
    decreases files.len(),
{
    if i < files.len() - 1 {
        lemma_occurs_in(files.drop_last(), i, s);
    }
}

/// Whether every neighbour answered has a kind that a recording keeps.
pub open spec fn known_kinds(a: Answers) -> bool {
    &&& forall|s: Spot| restored_all(#[trigger] (a.outgoing)(s)) == (a.outgoing)(s)
    &&& forall|s: Spot| restored_all(#[trigger] (a.incoming)(s)) == (a.incoming)(s)
}

/// What a recording has, it answers as it was answered.
proof fn lemma_replayed(files: Seq<FileIndex>, a: Answers, rec: GraphRecording, s: Spot)
    requires
        records(files, a, rec),
        known_kinds(a),
    ensures
        touched(files, a, s) ==> (rec.replayed().outgoing)(s) == (a.outgoing)(s),
        touched(files, a, s) ==> (rec.replayed().incoming)(s) == (a.incoming)(s),
        occurs(files, s) ==> (rec.replayed().resolve)(s) == (a.resolve)(s),
        occurs(files, s) && (a.resolve)(s) is Some ==> (rec.replayed().incoming)(s) == (a.incoming)(
            s,
        ),
        class_at(files, s) ==> (rec.replayed().supertypes)(s) == (a.supertypes)(s),
{
    assert(rec.outgoing.keys().contains(s) <==> touched(files, a, s));
    assert(rec.incoming.keys().contains(s) <==> touched(files, a, s) || (occurs(files, s) && (
    a.resolve)(s) is Some));
    assert(rec.resolve.keys().contains(s) <==> occurs(files, s));
    assert(rec.supertypes.keys().contains(s) <==> class_at(files, s));
    assert(restored_all((a.outgoing)(s)) == (a.outgoing)(s));
    assert(restored_all((a.incoming)(s)) == (a.incoming)(s));
}

/// The spots where the files import or use a name are occurrences.
proof fn lemma_occurrences_occur(files: Seq<FileIndex>, name: Seq<char>)
    ensures
        forall|i: int|
            0 <= i < callgraph::occurrences(files, name).len() ==> occurs(
                files,
                #[trigger] callgraph::occurrences(files, name)[i],
            ),
    decreases files.len(),
{
    if files.len() > 0 {
        let f = files.last();
        let rest = files.drop_last();
        lemma_occurrences_occur(rest, name);
        lemma_imports_occur(f.path@, f.defs@, name);
        lemma_uses_occur(f.path@, f.refs@, name);
        let a = callgraph::occurrences(rest, name);
        let b = callgraph::import_spots(f.path@, f.defs@, name);
        let c = callgraph::use_spots(f.path@, f.refs@, name);
        assert forall|i: int| 0 <= i < callgraph::occurrences(files, name).len() implies occurs(
            files,
            #[trigger] callgraph::occurrences(files, name)[i],
        ) by {
            let s = callgraph::occurrences(files, name)[i];
            if i < a.len() {
                assert(s == a[i]);
            } else if i < a.len() + b.len() {
                assert(s == b[i - a.len()]);
            } else {
                assert(s == c[i - a.len() - b.len()]);
            }
        }
    }
}

proof fn lemma_imports_occur(path: Seq<char>, defs: Seq<Def>, name: Seq<char>)
    ensures
        forall|i: int|
            0 <= i < callgraph::import_spots(path, defs, name).len() ==> imported_in(
                path,
                defs,
                #[trigger] callgraph::import_spots(path, defs, name)[i],
            ),
    decreases defs.len(),
{
    if defs.len() > 0 {
        lemma_imports_occur(path, defs.drop_last(), name);
        let before = callgraph::import_spots(path, defs.drop_last(), name);
        assert forall|i: int| 0 <= i < callgraph::import_spots(path, defs, name).len() implies imported_in(
            path,
            defs,
            #[trigger] callgraph::import_spots(path, defs, name)[i],
        ) by {
            if i < before.len() {
                assert(callgraph::import_spots(path, defs, name)[i] == before[i]);
            }
        }
    }
}

proof fn lemma_uses_occur(path: Seq<char>, refs: Seq<Ref>, name: Seq<char>)
    ensures
        forall|i: int|
            0 <= i < callgraph::use_spots(path, refs, name).len() ==> used_in(
                path,
                refs,
                #[trigger] callgraph::use_spots(path, refs, name)[i],
            ),
    decreases refs.len(),
{
    if refs.len() > 0 {
        lemma_uses_occur(path, refs.drop_last(), name);
        let before = callgraph::use_spots(path, refs.drop_last(), name);
        assert forall|i: int| 0 <= i < callgraph::use_spots(path, refs, name).len() implies used_in(
            path,
            refs,
            #[trigger] callgraph::use_spots(path, refs, name)[i],
        ) by {
            if i < before.len() {
                assert(callgraph::use_spots(path, refs, name)[i] == before[i]);
            }
        }
    }
}

/// Taken neighbours come from the two lists.
proof fn lemma_taken_from(out: Seq<NeighborView>, nbs: Seq<NeighborView>, s: Spot)
    requires
        callgraph::has_spot(callgraph::taken(out, nbs), s),
    ensures
        callgraph::has_spot(out, s) || callgraph::has_spot(nbs, s),
    decreases nbs.len(),
{
    if nbs.len() > 0 {
        let before = callgraph::taken(out, nbs.drop_last());
        let now = callgraph::taken(out, nbs);
        let i = choose|i: int| 0 <= i < now.len() && (#[trigger] now[i]).spot() == s;
        if i < before.len() {
            assert(before[i].spot() == s);
            lemma_taken_from(out, nbs.drop_last(), s);
            if callgraph::has_spot(nbs.drop_last(), s) {
                let k = choose|k: int|
                    0 <= k < nbs.drop_last().len() && (#[trigger] nbs.drop_last()[k]).spot() == s;
                assert(nbs[k].spot() == s);
            }
        } else {
            assert(nbs[nbs.len() - 1].spot() == s);
        }
    }
}

/// A sweep asks only what a recording has, and leads only to touched spots.
proof fn lemma_swept_replayed(
    files: Seq<FileIndex>,
    a: Answers,
    rec: GraphRecording,
    spot: Spot,
    places: Seq<Spot>,
    out: Seq<NeighborView>,
)
    requires
        records(files, a, rec),
        known_kinds(a),
        forall|i: int| 0 <= i < places.len() ==> occurs(files, #[trigger] places[i]),
        forall|s: Spot| #[trigger] callgraph::has_spot(out, s) ==> touched(files, a, s),
    ensures
        callgraph::swept(a, spot, places, out) == callgraph::swept(rec.replayed(), spot, places, out),
        forall|s: Spot| #[trigger]
            callgraph::has_spot(callgraph::swept(a, spot, places, out), s) ==> touched(files, a, s),
    decreases places.len(),
{
    if places.len() > 0 {
        let t = places.drop_last();
        assert forall|i: int| 0 <= i < t.len() implies occurs(files, #[trigger] t[i]) by {
            assert(t[i] == places[i]);
        }
        lemma_swept_replayed(files, a, rec, spot, t, out);
        let o = places.last();
        assert(occurs(files, places[places.len() - 1]));
        lemma_replayed(files, a, rec, o);
        let before = callgraph::swept(a, spot, t, out);
        assert forall|s: Spot| #[trigger] callgraph::has_spot(
            callgraph::swept(a, spot, places, out),
            s,
        ) implies touched(files, a, s) by {
            if o != spot && (a.resolve)(o) == Some(spot) {
                lemma_taken_from(before, (a.incoming)(o), s);
                if callgraph::has_spot((a.incoming)(o), s) {
                    let i = choose|i: int|
                        0 <= i < (a.incoming)(o).len() && (#[trigger] (a.incoming)(o)[i]).spot()
                            == s;
                    assert(calls_there(a, o, s));
                    lemma_touched_caller(files, a, o, s);
                }
            }
        }
    }
}

/// The neighbours of a touched stop are as answered, and touched.
proof fn lemma_next_replayed(
    files: Seq<FileIndex>,
    a: Answers,
    rec: GraphRecording,
    dir: Direction,
    stop: Stop,
)
    requires
        records(files, a, rec),
        known_kinds(a),
        touched(files, a, stop.spot),
    ensures
        callgraph::next_to(files, a, dir, stop) == callgraph::next_to(files, rec.replayed(), dir, stop),
        forall|s: Spot| #[trigger]
            callgraph::has_spot(callgraph::next_to(files, a, dir, stop), s) ==> touched(files, a, s),
{
    lemma_replayed(files, a, rec, stop.spot);
    match dir {
        Direction::Forward => {
            assert forall|s: Spot| #[trigger] callgraph::has_spot(
                callgraph::next_to(files, a, dir, stop),
                s,
            ) implies touched(files, a, s) by {
                assert(adjacent(a, stop.spot, s));
                lemma_touched_step(files, a, stop.spot, s);
            }
        },
        Direction::Reverse => {
            let none = Seq::<NeighborView>::empty();
            let first = callgraph::taken(none, (a.incoming)(stop.spot));
            assert forall|s: Spot| #[trigger] callgraph::has_spot(first, s) implies touched(files, a, s) by {
                lemma_taken_from(none, (a.incoming)(stop.spot), s);
                assert(adjacent(a, stop.spot, s));
                lemma_touched_step(files, a, stop.spot, s);
            }
            let leaf = text::leaf_name(stop.fqn);
            lemma_occurrences_occur(files, leaf);
            lemma_swept_replayed(files, a, rec, stop.spot, callgraph::occurrences(files, leaf), first);
        },
    }
}

/// Meeting touched neighbours keeps all that is reached touched.
proof fn lemma_met_touched(
    files: Seq<FileIndex>,
    a: Answers,
    roots: Seq<Seq<char>>,
    found: Seq<Reached>,
    via: Seq<char>,
    depth: nat,
    nbs: Seq<NeighborView>,
)
    requires
        forall|i: int| 0 <= i < found.len() ==> touched(files, a, (#[trigger] found[i]).stop().spot),
        forall|i: int| 0 <= i < nbs.len() ==> touched(files, a, (#[trigger] nbs[i]).spot()),
    ensures
        forall|i: int|
            0 <= i < callgraph::met(files, roots, found, via, depth, nbs).len() ==> touched(
                files,
                a,
                (#[trigger] callgraph::met(files, roots, found, via, depth, nbs)[i]).stop().spot,
            ),
    decreases nbs.len(),
{
    if nbs.len() > 0 {
        let t = nbs.drop_last();
        assert forall|i: int| 0 <= i < t.len() implies touched(
            files,
            a,
            (#[trigger] t[i]).spot(),
        ) by {
            assert(t[i] == nbs[i]);
        }
        lemma_met_touched(files, a, roots, found, via, depth, t);
        let before = callgraph::met(files, roots, found, via, depth, t);
        let now = callgraph::met(files, roots, found, via, depth, nbs);
        assert(touched(files, a, nbs[nbs.len() - 1].spot()));
        assert forall|i: int| 0 <= i < now.len() implies touched(
            files,
            a,
            (#[trigger] now[i]).stop().spot,
        ) by {
            if i < before.len() {
                assert(now[i] == before[i]);
            }
        }
    }
}

/// A level of touched stops is walked alike.
proof fn lemma_level_replayed(
    files: Seq<FileIndex>,
    a: Answers,
    rec: GraphRecording,
    dir: Direction,
    roots: Seq<Seq<char>>,
    found: Seq<Reached>,
    level: Seq<Stop>,
    depth: nat,
)
    requires
        records(files, a, rec),
        known_kinds(a),
        forall|i: int| 0 <= i < found.len() ==> touched(files, a, (#[trigger] found[i]).stop().spot),
        forall|i: int| 0 <= i < level.len() ==> touched(files, a, (#[trigger] level[i]).spot),
    ensures
        callgraph::level_met(files, a, dir, roots, found, level, depth) == callgraph::level_met(
            files,
            rec.replayed(),
            dir,
            roots,
            found,
            level,
            depth,
        ),
        forall|i: int|
            0 <= i < callgraph::level_met(files, a, dir, roots, found, level, depth).len() ==> touched(
                files,
                a,
                (#[trigger] callgraph::level_met(files, a, dir, roots, found, level, depth)[i]).stop().spot,
            ),
    decreases level.len(),
{
    if level.len() > 0 {
        let t = level.drop_last();
        assert forall|i: int| 0 <= i < t.len() implies touched(files, a, (#[trigger] t[i]).spot) by {
            assert(t[i] == level[i]);
        }
        lemma_level_replayed(files, a, rec, dir, roots, found, t, depth);
        let stop = level.last();
        assert(touched(files, a, level[level.len() - 1].spot));
        lemma_next_replayed(files, a, rec, dir, stop);
        let before = callgraph::level_met(files, a, dir, roots, found, t, depth);
        let nbs = callgraph::next_to(files, a, dir, stop);
        assert forall|i: int| 0 <= i < nbs.len() implies touched(
            files,
            a,
            (#[trigger] nbs[i]).spot(),
        ) by {
            assert(callgraph::has_spot(nbs, nbs[i].spot()));
        }
        lemma_met_touched(files, a, roots, before, stop.fqn, depth, nbs);
    }
}

/// A walk from touched stops goes alike, level by level.
proof fn lemma_walk_replayed(
    files: Seq<FileIndex>,
    a: Answers,
    rec: GraphRecording,
    dir: Direction,
    starts: Seq<Stop>,
    n: nat,
)
    requires
        records(files, a, rec),
        known_kinds(a),
        forall|i: int| 0 <= i < starts.len() ==> touched(files, a, (#[trigger] starts[i]).spot),
    ensures
        callgraph::walked(files, a, dir, starts, n) == callgraph::walked(files, rec.replayed(), dir, starts, n),
        ({
            let (found, level) = callgraph::walked(files, a, dir, starts, n);
            &&& forall|i: int|
                0 <= i < found.len() ==> touched(files, a, (#[trigger] found[i]).stop().spot)
            &&& forall|i: int| 0 <= i < level.len() ==> touched(files, a, (#[trigger] level[i]).spot)
        }),
    decreases n,
{
    if n > 0 {
        let m = (n - 1) as nat;
        lemma_walk_replayed(files, a, rec, dir, starts, m);
        let (found, level) = callgraph::walked(files, a, dir, starts, m);
        lemma_level_replayed(files, a, rec, dir, callgraph::stop_names(starts), found, level, n);
        let now = callgraph::level_met(files, a, dir, callgraph::stop_names(starts), found, level, n);
        lemma_level_met_grows(files, a, dir, callgraph::stop_names(starts), found, level, n);
        let next = callgraph::stops_of(now.skip(found.len() as int));
        assert forall|i: int| 0 <= i < next.len() implies touched(
            files,
            a,
            (#[trigger] next[i]).spot,
        ) by {
            assert(now.skip(found.len() as int)[i] == now[found.len() + i]);
        }
    }
}

proof fn lemma_met_grows(
    files: Seq<FileIndex>,
    roots: Seq<Seq<char>>,
    found: Seq<Reached>,
    via: Seq<char>,
    depth: nat,
    nbs: Seq<NeighborView>,
)
    ensures
        found.len() <= callgraph::met(files, roots, found, via, depth, nbs).len(),
    decreases nbs.len(),
{
    if nbs.len() > 0 {
        lemma_met_grows(files, roots, found, via, depth, nbs.drop_last());
    }
}

proof fn lemma_level_met_grows(
    files: Seq<FileIndex>,
    a: Answers,
    dir: Direction,
    roots: Seq<Seq<char>>,
    found: Seq<Reached>,
    level: Seq<Stop>,
    depth: nat,
)
    ensures
        found.len() <= callgraph::level_met(files, a, dir, roots, found, level, depth).len(),
    decreases level.len(),
{
    if level.len() > 0 {
        let t = level.drop_last();
        lemma_level_met_grows(files, a, dir, roots, found, t, depth);
        lemma_met_grows(
            files,
            roots,
            callgraph::level_met(files, a, dir, roots, found, t, depth),
            level.last().fqn,
            depth,
            callgraph::next_to(files, a, dir, level.last()),
        );
    }
}

/// What a symbol names is defined in the files.
proof fn lemma_starts_defined(files: Seq<FileIndex>, symbol: Seq<char>, i: int)
    requires
        0 <= i < callgraph::start_stops(files, symbol).len(),
    ensures
        callgraph::name_at(files, callgraph::start_stops(files, symbol)[i].spot) is Some,
    decreases files.len(),
{
    if files.len() > 0 {
        let before = callgraph::start_stops(files.drop_last(), symbol);
        let f = files.last();
        if i < before.len() {
            lemma_starts_defined(files.drop_last(), symbol, i);
        } else {
            lemma_stops_defined(f.path@, f.defs@, symbol, i - before.len());
        }
    }
}

proof fn lemma_stops_defined(path: Seq<char>, defs: Seq<Def>, symbol: Seq<char>, i: int)
    requires
        0 <= i < crate::callgraph::stops_in(path, defs, symbol).len(),
    ensures
        callgraph::name_in_defs(path, defs, crate::callgraph::stops_in(path, defs, symbol)[i].spot) is Some,
    decreases defs.len(),
{
    if defs.len() > 0 {
        let before = crate::callgraph::stops_in(path, defs.drop_last(), symbol);
        if i < before.len() {
            lemma_stops_defined(path, defs.drop_last(), symbol, i);
        }
    }
}

/// A recording made of a graph replays its closures: what a symbol reaches going
/// forward is the same, node for node.
pub proof fn law_replay_forward(
    files: Seq<FileIndex>,
    a: Answers,
    rec: GraphRecording,
    symbol: Seq<char>,
    limit: Option<usize>,
    nodes: Seq<crate::callgraph::NodeView>,
)
    requires
        records(files, a, rec),
        known_kinds(a),
    ensures
        callgraph::closure_is(files, a, Direction::Forward, callgraph::start_stops(files, symbol), limit, nodes)
            <==> callgraph::closure_is(
            files,
            rec.replayed(),
            Direction::Forward,
            callgraph::start_stops(files, symbol),
            limit,
            nodes,
        ),
{
    lemma_replay_closure(files, a, rec, symbol, Direction::Forward, limit, nodes);
}

/// The same going backward.
pub proof fn law_replay_reverse(
    files: Seq<FileIndex>,
    a: Answers,
    rec: GraphRecording,
    symbol: Seq<char>,
    limit: Option<usize>,
    nodes: Seq<crate::callgraph::NodeView>,
)
    requires
        records(files, a, rec),
        known_kinds(a),
    ensures
        callgraph::closure_is(files, a, Direction::Reverse, callgraph::start_stops(files, symbol), limit, nodes)
            <==> callgraph::closure_is(
            files,
            rec.replayed(),
            Direction::Reverse,
            callgraph::start_stops(files, symbol),
            limit,
            nodes,
        ),
{
    lemma_replay_closure(files, a, rec, symbol, Direction::Reverse, limit, nodes);
}

proof fn lemma_replay_closure(
    files: Seq<FileIndex>,
    a: Answers,
    rec: GraphRecording,
    symbol: Seq<char>,
    dir: Direction,
    limit: Option<usize>,
    nodes: Seq<crate::callgraph::NodeView>,
)
    requires
        records(files, a, rec),
        known_kinds(a),
    ensures
        callgraph::closure_is(files, a, dir, callgraph::start_stops(files, symbol), limit, nodes) <==> callgraph::closure_is(
            files,
            rec.replayed(),
            dir,
            callgraph::start_stops(files, symbol),
            limit,
            nodes,
        ),
{
    let starts = callgraph::start_stops(files, symbol);
    let b = rec.replayed();
    assert forall|i: int| 0 <= i < starts.len() implies touched(
        files,
        a,
        (#[trigger] starts[i]).spot,
    ) by {
        lemma_starts_defined(files, symbol, i);
        lemma_touched_def(files, a, starts[i].spot);
    }
    assert forall|n: nat| #[trigger] callgraph::walk_ends(files, a, dir, starts, limit, n) == callgraph::walk_ends(
        files,
        b,
        dir,
        starts,
        limit,
        n,
    ) && callgraph::walked(files, a, dir, starts, n) == callgraph::walked(files, b, dir, starts, n) by {
        lemma_walk_replayed(files, a, rec, dir, starts, n);
    }
    if callgraph::closure_is(files, a, dir, starts, limit, nodes) {
        let n = choose|n: nat| #[trigger]
            callgraph::walk_ends(files, a, dir, starts, limit, n) && nodes == crate::sort::sorted::<
                crate::callgraph::GraphNode,
            >(crate::callgraph::nodes_of(callgraph::walked(files, a, dir, starts, n).0));
        assert(callgraph::walk_ends(files, b, dir, starts, limit, n));
    }
    if callgraph::closure_is(files, b, dir, starts, limit, nodes) {
        let n = choose|n: nat| #[trigger]
            callgraph::walk_ends(files, b, dir, starts, limit, n) && nodes == crate::sort::sorted::<
                crate::callgraph::GraphNode,
            >(crate::callgraph::nodes_of(callgraph::walked(files, b, dir, starts, n).0));
        assert(callgraph::walk_ends(files, a, dir, starts, limit, n));
    }
}

/// A recording replays who calls whom.
pub proof fn law_replay_callers(
    files: Seq<FileIndex>,
    a: Answers,
    rec: GraphRecording,
    caller: Seq<char>,
    callee: Seq<char>,
)
    requires
        records(files, a, rec),
        known_kinds(a),
    ensures
        callgraph::calls(files, a, caller, callee) <==> callgraph::calls(files, rec.replayed(), caller, callee),
{
    let b = rec.replayed();
    assert forall|spot: Spot, i: int| callgraph::call_site(files, a, caller, callee, spot, i) == callgraph::call_site(
        files,
        b,
        caller,
        callee,
        spot,
        i,
    ) by {
        if callgraph::name_at(files, spot) is Some {
            lemma_touched_def(files, a, spot);
            lemma_replayed(files, a, rec, spot);
        }
    }
    if callgraph::calls(files, a, caller, callee) {
        let (spot, i) = choose|spot: Spot, i: int| callgraph::call_site(files, a, caller, callee, spot, i);
        assert(callgraph::call_site(files, b, caller, callee, spot, i));
    }
    if callgraph::calls(files, b, caller, callee) {
        let (spot, i) = choose|spot: Spot, i: int| callgraph::call_site(files, b, caller, callee, spot, i);
        assert(callgraph::call_site(files, a, caller, callee, spot, i));
    }
}

/// Joined stops come from the two lists.
proof fn lemma_joined_touched(
    files: Seq<FileIndex>,
    a: Answers,
    found: Seq<Stop>,
    stops: Seq<Stop>,
)
    requires
        forall|i: int| 0 <= i < found.len() ==> touched(files, a, (#[trigger] found[i]).spot),
        forall|i: int| 0 <= i < stops.len() ==> touched(files, a, (#[trigger] stops[i]).spot),
    ensures
        forall|i: int|
            0 <= i < callgraph::joined(found, stops).len() ==> touched(
                files,
                a,
                (#[trigger] callgraph::joined(found, stops)[i]).spot,
            ),
    decreases stops.len(),
{
    if stops.len() > 0 {
        let t = stops.drop_last();
        assert forall|i: int| 0 <= i < t.len() implies touched(files, a, (#[trigger] t[i]).spot) by {
            assert(t[i] == stops[i]);
        }
        lemma_joined_touched(files, a, found, t);
        let before = callgraph::joined(found, t);
        let now = callgraph::joined(found, stops);
        assert(touched(files, a, stops[stops.len() - 1].spot));
        assert forall|i: int| 0 <= i < now.len() implies touched(
            files,
            a,
            (#[trigger] now[i]).spot,
        ) by {
            if i < before.len() {
                assert(now[i] == before[i]);
            }
        }
    }
}

/// Whether every place that `extra` lists is a definition or connected to one.
pub open spec fn extra_touched(
    files: Seq<FileIndex>,
    a: Answers,
    extra: Table<String, Vec<(String, u32)>>,
) -> bool {
    forall|name: Seq<char>, i: int|
        0 <= i < extra.list(name).len() ==> touched(files, a, #[trigger] extra.list(name)[i]@)
}

proof fn lemma_level_joined_replayed(
    files: Seq<FileIndex>,
    a: Answers,
    rec: GraphRecording,
    extra: Table<String, Vec<(String, u32)>>,
    found: Seq<Stop>,
    level: Seq<Stop>,
)
    requires
        records(files, a, rec),
        known_kinds(a),
        extra_touched(files, a, extra),
        forall|i: int| 0 <= i < found.len() ==> touched(files, a, (#[trigger] found[i]).spot),
        forall|i: int| 0 <= i < level.len() ==> touched(files, a, (#[trigger] level[i]).spot),
    ensures
        callgraph::level_joined(files, a, extra, found, level) == callgraph::level_joined(
            files,
            rec.replayed(),
            extra,
            found,
            level,
        ),
        forall|i: int|
            0 <= i < callgraph::level_joined(files, a, extra, found, level).len() ==> touched(
                files,
                a,
                (#[trigger] callgraph::level_joined(files, a, extra, found, level)[i]).spot,
            ),
    decreases level.len(),
{
    if level.len() > 0 {
        let t = level.drop_last();
        assert forall|i: int| 0 <= i < t.len() implies touched(files, a, (#[trigger] t[i]).spot) by {
            assert(t[i] == level[i]);
        }
        lemma_level_joined_replayed(files, a, rec, extra, found, t);
        let stop = level.last();
        assert(touched(files, a, level[level.len() - 1].spot));
        lemma_replayed(files, a, rec, stop.spot);
        let next = callgraph::leads_on(files, a, extra, stop);
        let heard = (a.outgoing)(stop.spot);
        assert(next =~= callgraph::leads_on(files, rec.replayed(), extra, stop));
        assert forall|i: int| 0 <= i < next.len() implies touched(
            files,
            a,
            (#[trigger] next[i]).spot,
        ) by {
            if i < heard.len() {
                assert(heard[i].spot() == next[i].spot);
                assert(callgraph::has_spot(heard, next[i].spot));
                assert(adjacent(a, stop.spot, next[i].spot));
                lemma_touched_step(files, a, stop.spot, next[i].spot);
            } else {
                let j = i - heard.len();
                assert(touched(files, a, extra.list(stop.fqn)[j]@));
            }
        }
        lemma_joined_touched(
            files,
            a,
            callgraph::level_joined(files, a, extra, found, t),
            next,
        );
    }
}

proof fn lemma_spread_replayed(
    files: Seq<FileIndex>,
    a: Answers,
    rec: GraphRecording,
    extra: Table<String, Vec<(String, u32)>>,
    seeds: Seq<Spot>,
    n: nat,
)
    requires
        records(files, a, rec),
        known_kinds(a),
        extra_touched(files, a, extra),
        forall|i: int| 0 <= i < seeds.len() ==> touched(files, a, #[trigger] seeds[i]),
    ensures
        callgraph::spread(files, a, extra, seeds, n) == callgraph::spread(files, rec.replayed(), extra, seeds, n),
        forall|i: int|
            0 <= i < callgraph::spread(files, a, extra, seeds, n).0.len() ==> touched(
                files,
                a,
                (#[trigger] callgraph::spread(files, a, extra, seeds, n).0[i]).spot,
            ),
        0 <= callgraph::spread(files, a, extra, seeds, n).1 <= callgraph::spread(files, a, extra, seeds, n).0.len(),
    decreases n,
{
    if n == 0 {
        let first = callgraph::landings(files, seeds);
        assert forall|i: int| 0 <= i < first.len() implies touched(
            files,
            a,
            (#[trigger] first[i]).spot,
        ) by {
            assert(touched(files, a, seeds[i]));
        }
        lemma_joined_touched(files, a, Seq::empty(), first);
    } else {
        let m = (n - 1) as nat;
        lemma_spread_replayed(files, a, rec, extra, seeds, m);
        let (found, from) = callgraph::spread(files, a, extra, seeds, m);
        let level = found.skip(from);
        assert forall|i: int| 0 <= i < level.len() implies touched(
            files,
            a,
            (#[trigger] level[i]).spot,
        ) by {
            assert(level[i] == found[from + i]);
        }
        lemma_level_joined_replayed(files, a, rec, extra, found, level);
        lemma_level_grows(files, a, extra, found, level);
    }
}

/// A level only adds.
proof fn lemma_level_grows(
    files: Seq<FileIndex>,
    a: Answers,
    extra: Table<String, Vec<(String, u32)>>,
    found: Seq<Stop>,
    level: Seq<Stop>,
)
    ensures
        found.len() <= callgraph::level_joined(files, a, extra, found, level).len(),
    decreases level.len(),
{
    if level.len() > 0 {
        lemma_level_grows(files, a, extra, found, level.drop_last());
        lemma_joined_grows(
            callgraph::level_joined(files, a, extra, found, level.drop_last()),
            callgraph::leads_on(files, a, extra, level.last()),
        );
    }
}

proof fn lemma_joined_grows(found: Seq<Stop>, stops: Seq<Stop>)
    ensures
        found.len() <= callgraph::joined(found, stops).len(),
    decreases stops.len(),
{
    if stops.len() > 0 {
        lemma_joined_grows(found, stops.drop_last());
    }
}

/// A recording replays what is reachable from definitions, along calls and
/// along extra edges to definitions.
pub proof fn law_replay_reachable(
    files: Seq<FileIndex>,
    a: Answers,
    rec: GraphRecording,
    extra: Table<String, Vec<(String, u32)>>,
    seeds: Seq<Spot>,
    names: Set<Seq<char>>,
)
    requires
        records(files, a, rec),
        known_kinds(a),
        extra_touched(files, a, extra),
        forall|i: int| 0 <= i < seeds.len() ==> touched(files, a, #[trigger] seeds[i]),
    ensures
        callgraph::reachable_is(files, a, extra, seeds, names) <==> callgraph::reachable_is(
            files,
            rec.replayed(),
            extra,
            seeds,
            names,
        ),
{
    let b = rec.replayed();
    assert forall|n: nat| #[trigger] callgraph::spread(files, a, extra, seeds, n) == callgraph::spread(
        files,
        b,
        extra,
        seeds,
        n,
    ) by {
        lemma_spread_replayed(files, a, rec, extra, seeds, n);
    }
    if callgraph::reachable_is(files, b, extra, seeds, names) {
        let n = choose|n: nat|
            {
                let (found, from) = #[trigger] callgraph::spread(files, b, extra, seeds, n);
                &&& from == found.len()
                &&& forall|x: Seq<char>| #[trigger]
                    names.contains(x) <==> crate::callgraph::arrived(found, x)
            };
        assert(callgraph::spread(files, a, extra, seeds, n) == callgraph::spread(files, b, extra, seeds, n));
    }
    if callgraph::reachable_is(files, a, extra, seeds, names) {
        let n = choose|n: nat|
            {
                let (found, from) = #[trigger] callgraph::spread(files, a, extra, seeds, n);
                &&& from == found.len()
                &&& forall|x: Seq<char>| #[trigger]
                    names.contains(x) <==> crate::callgraph::arrived(found, x)
            };
        assert(callgraph::spread(files, a, extra, seeds, n) == callgraph::spread(files, b, extra, seeds, n));
    }
}

/// A recording replays what each occurrence means, and the bases of each class.
pub proof fn law_replay_places(files: Seq<FileIndex>, a: Answers, rec: GraphRecording, s: Spot)
    requires
        records(files, a, rec),
    ensures
        occurs(files, s) ==> (rec.replayed().resolve)(s) == (a.resolve)(s),
        class_at(files, s) ==> (rec.replayed().supertypes)(s) == (a.supertypes)(s),
{
    assert(rec.resolve.keys().contains(s) <==> occurs(files, s));
    assert(rec.supertypes.keys().contains(s) <==> class_at(files, s));
}

} // verus!
