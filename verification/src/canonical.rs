//! An overview of a project: the helpers that are used most, the public callables
//! that no test reaches, and the tests.
use crate::callgraph::{Answers, CallGraph, CallGraphTy, Spot};
use crate::callgraph;
use crate::deadcode::{def_anchors, framework_entry_fqns, is_dunder, is_entrypoint_file, kind_of, override_edges};
use crate::deadcode;
use crate::hierarchy::Hierarchy;
use crate::json::{Json, JsonView};
use crate::json;
use crate::last_def::defs_by_name;
use crate::last_def;
use crate::model::{is_callable, Def, DefKind, FileIndex};
use crate::model;
use crate::names::{fqn_of, scope_fqn};
use crate::names;
use crate::output::{Envelope, EnvelopeView};
use crate::rows::{arrange, loc_str, one_text, two_texts, Entry, EntryView};
use crate::rows;
use crate::sort::{sort, Ranked};
use crate::sort;
use crate::table::Table;
use crate::table;
use crate::tests_map::{is_collected_test_def, is_test_file, test_class_fqns};
use crate::tests_map;
use crate::text::{cat, cat3, cat4, cat5, chars_of, count_text, find, join_with, leaf_of, listed, parent_of, plural, same, split_on, starts_with, string_of, text_before};
use crate::text;
use vstd::prelude::*;

verus! {

/// Whether a file belongs to the tests: a test file, a file below a `tests` or
/// `test` directory, or a `conftest.py`.
pub open spec fn test_tree(path: Seq<char>) -> bool {
    let parts = text::split(path, "/\\"@);
    tests_map::test_file(path) || parts.contains("tests"@) || parts.contains("test"@)
        || parts.last() == "conftest.py"@
}

/// Whether a file belongs to the tests.
pub fn in_test_tree(path: &str) -> (r: bool)
    ensures
        r == test_tree(path@),
{
    if is_test_file(path) {
        return true;
    }
    let comps = split_on(path, "/\\");
    proof {
        text::lemma_split_nonempty(path@, "/\\"@);
        assert(text::views(comps@).len() == comps@.len());
        assert(text::views(comps@).last() == comps@.last()@);
    }
    listed("tests", &comps) || listed("test", &comps) || same(
        comps[comps.len() - 1].as_str(),
        "conftest.py",
    )
}

/// Whether a definition is public: a callable at module scope whose name starts
/// with no underscore.
pub open spec fn public_surface(d: Def) -> bool {
    model::callable(d) && d.container@.len() == 0 && !text::starts(d.name@, "_"@)
}

/// Whether a definition is public.
pub fn is_public_surface(d: &Def) -> (r: bool)
    ensures
        r == public_surface(*d),
{
    is_callable(d) && d.container.len() == 0 && !starts_with(d.name.as_str(), "_")
}

/// Whether the last part of a name has the form `__name__`.
pub fn leaf_is_dunder(fqn: &str) -> (r: bool)
    ensures
        r == deadcode::dunder(text::leaf_name(fqn@)),
{
    let leaf = leaf_of(fqn);
    is_dunder(leaf.as_str())
}

/// Whether some definition is a callable of a name.
pub open spec fn defines_name(path: Seq<char>, defs: Seq<Def>, name: Seq<char>) -> bool
    decreases defs.len(),
{
    defs.len() > 0 && ((model::callable(defs.last()) && names::def_fqn(path, defs.last()) == name)
        || defines_name(path, defs.drop_last(), name))
}

/// Whether a callable of a name is defined in the tests.
pub open spec fn test_name(files: Seq<FileIndex>, name: Seq<char>) -> bool
    decreases files.len(),
{
    files.len() > 0 && ((test_tree(files.last().path@) && defines_name(
        files.last().path@,
        files.last().defs@,
        name,
    )) || test_name(files.drop_last(), name))
}

/// Whether a callable of a name is defined in a file that is an entrypoint.
pub open spec fn entry_name(files: Seq<FileIndex>, name: Seq<char>) -> bool
    decreases files.len(),
{
    files.len() > 0 && ((deadcode::entrypoint_file(files.last().path@) && defines_name(
        files.last().path@,
        files.last().defs@,
        name,
    )) || entry_name(files.drop_last(), name))
}

/// The names of callables in the tests, and in files that are entrypoints.
fn marked_names(files: &Vec<FileIndex>) -> (r: (Table<String, ()>, Table<String, ()>))
    ensures
        forall|n: Seq<char>| #[trigger] r.0.keys().contains(n) <==> test_name(files@, n),
        forall|n: Seq<char>| #[trigger] r.1.keys().contains(n) <==> entry_name(files@, n),
{
    let mut tests: Table<String, ()> = Table::new();
    let mut entries: Table<String, ()> = Table::new();
    let mut i: usize = 0;
    while i < files.len()
        invariant
            i <= files@.len(),
            forall|n: Seq<char>| #[trigger]
                tests.keys().contains(n) <==> test_name(files@.take(i as int), n),
            forall|n: Seq<char>| #[trigger]
                entries.keys().contains(n) <==> entry_name(files@.take(i as int), n),
        decreases files@.len() - i,
    {
        proof {
            text::lemma_take_step(files@, i as int);
        }
        let f = &files[i];
        let in_test = in_test_tree(f.path.as_str());
        let entry_file = is_entrypoint_file(f.path.as_str());
        let ghost tests0 = tests;
        let ghost entries0 = entries;
        let mut j: usize = 0;
        while j < f.defs.len()
            invariant
                j <= f.defs@.len(),
                in_test == test_tree(f.path@),
                entry_file == deadcode::entrypoint_file(f.path@),
                forall|n: Seq<char>| #[trigger]
                    tests.keys().contains(n) <==> tests0.keys().contains(n) || (in_test
                        && defines_name(f.path@, f.defs@.take(j as int), n)),
                forall|n: Seq<char>| #[trigger]
                    entries.keys().contains(n) <==> entries0.keys().contains(n) || (entry_file
                        && defines_name(f.path@, f.defs@.take(j as int), n)),
            decreases f.defs@.len() - j,
        {
            proof {
                text::lemma_take_step(f.defs@, j as int);
            }
            let d = &f.defs[j];
            if is_callable(d) {
                let name = fqn_of(f.path.as_str(), d);
                if in_test {
                    tests.insert(name.clone(), ());
                }
                if entry_file {
                    entries.insert(name, ());
                }
            }
            j = j + 1;
        }
        proof {
            text::lemma_take_all(f.defs@);
        }
        i = i + 1;
    }
    proof {
        text::lemma_take_all(files@);
    }
    (tests, entries)
}

/// Those that call a callable and are not defined in the tests.
pub open spec fn users(files: Seq<FileIndex>, a: Answers, callee: Seq<char>) -> Set<Seq<char>> {
    Set::new(|c: Seq<char>| callgraph::calls(files, a, c, callee) && !test_name(files, c))
}

/// Whether a callable is called by another.
pub open spec fn is_called(files: Seq<FileIndex>, a: Answers, callee: Seq<char>) -> bool {
    exists|c: Seq<char>| callgraph::calls(files, a, c, callee)
}

/// The callables that are called by others, ascending.
pub open spec fn callees(files: Seq<FileIndex>, a: Answers) -> Seq<Seq<char>> {
    table::in_turn(Set::new(|n: Seq<char>| is_called(files, a, n)))
}

/// A callable and how many use it.
pub struct Used {
    pub fqn: String,
    pub uses: usize,
}

/// A callable and how many use it, with a text in place of the string.
pub struct UsedView {
    pub fqn: Seq<char>,
    pub uses: nat,
}

impl View for Used {
    type V = UsedView;

    open spec fn view(&self) -> UsedView {
        UsedView { fqn: self.fqn@, uses: self.uses as nat }
    }
}

impl Ranked for Used {
    open spec fn precedes(a: UsedView, b: UsedView) -> bool {
        a.uses > b.uses || (a.uses == b.uses && text::text_lt(a.fqn, b.fqn))
    }

    fn is_before(&self, other: &Self) -> (r: bool) {
        self.uses > other.uses || (self.uses == other.uses && text_before(
            self.fqn.as_str(),
            other.fqn.as_str(),
        ))
    }

    proof fn precedes_is_an_order(a: UsedView, b: UsedView, c: UsedView) {
        callgraph::lemma_text_weak(a.fqn, b.fqn, c.fqn);
    }
}

/// Whether a callable may be a helper: it is defined neither in the tests nor in
/// an entrypoint, and its name is no `__name__`.
pub open spec fn candidate(files: Seq<FileIndex>, name: Seq<char>) -> bool {
    !test_name(files, name) && !entry_name(files, name) && !deadcode::dunder(text::leaf_name(name))
}

/// The helpers among names that at least two others use.
pub open spec fn helpers(files: Seq<FileIndex>, a: Answers, names: Seq<Seq<char>>) -> Seq<UsedView>
    decreases names.len(),
{
    if names.len() == 0 {
        Seq::empty()
    } else {
        let before = helpers(files, a, names.drop_last());
        let n = users(files, a, names.last()).len();
        if candidate(files, names.last()) && n >= 2 {
            before.push(UsedView { fqn: names.last(), uses: n })
        } else {
            before
        }
    }
}

/// The row of a helper.
pub open spec fn helper_row(path: Seq<char>, d: Def, u: UsedView) -> JsonView {
    let used = "used by "@ + text::decimal(u.uses);
    JsonView::object().with("loc"@, JsonView::Str(rows::place(path, d.pos.line, d.pos.col))).with(
        "label"@,
        JsonView::Str("most-used "@ + u.fqn + " ("@ + used + ")"@),
    ).with("section"@, JsonView::Str("most-used"@)).with("fqn"@, JsonView::Str(u.fqn)).with(
        "node_kind"@,
        JsonView::Str(deadcode::kind_name(d)),
    ).with("uses"@, JsonView::Num(u.uses)).with("group"@, JsonView::Str("most-used"@)).with(
        "cols"@,
        json::texts(seq![u.fqn, used]),
    )
}

/// The rows of helpers that are defined.
pub open spec fn helper_rows(files: Seq<FileIndex>, s: Seq<UsedView>) -> Seq<JsonView>
    decreases s.len(),
{
    if s.len() == 0 {
        Seq::empty()
    } else {
        let before = helper_rows(files, s.drop_last());
        match last_def::last_def(files, s.last().fqn) {
            Some((i, j)) => before.push(
                helper_row(files[i].path@, files[i].defs@[j], s.last()),
            ),
            None => before,
        }
    }
}

/// The rows of the helpers, those that are used most first.
pub open spec fn most_used(files: Seq<FileIndex>, a: Answers) -> Seq<JsonView> {
    helper_rows(files, sort::sorted::<Used>(helpers(files, a, callees(files, a))))
}

/// The callers in a list that are not defined in the tests.
spec fn outside_tests(files: Seq<FileIndex>, callers: Seq<Seq<char>>) -> Seq<Seq<char>>
    decreases callers.len(),
{
    if callers.len() == 0 {
        Seq::empty()
    } else if test_name(files, callers.last()) {
        outside_tests(files, callers.drop_last())
    } else {
        outside_tests(files, callers.drop_last()).push(callers.last())
    }
}

/// What the callers outside the tests are.
proof fn lemma_outside_tests(files: Seq<FileIndex>, callers: Seq<Seq<char>>)
    requires
        callers.no_duplicates(),
    ensures
        outside_tests(files, callers).no_duplicates(),
        forall|c: Seq<char>| #[trigger]
            outside_tests(files, callers).contains(c) <==> callers.contains(c) && !test_name(
                files,
                c,
            ),
    decreases callers.len(),
{
    if callers.len() > 0 {
        let less = callers.drop_last();
        lemma_outside_tests(files, less);
        let before = outside_tests(files, less);
        assert(callers =~= less.push(callers.last()));
        text::lemma_push_contains(less, callers.last());
        text::lemma_push_contains(before, callers.last());
        assert(!less.contains(callers.last())) by {
            if less.contains(callers.last()) {
                let k = choose|k: int| 0 <= k < less.len() && less[k] == callers.last();
                assert(callers[k] == callers[callers.len() - 1]);
            }
        }
        assert(!before.contains(callers.last()));
        assert(before.push(callers.last()).no_duplicates()) by {
            let s = before.push(callers.last());
            assert forall|i: int, j: int| 0 <= i < s.len() && 0 <= j < s.len() && i != j implies s[i]
                != s[j] by {
                if i == before.len() {
                    assert(before.contains(before[j]));
                } else if j == before.len() {
                    assert(before.contains(before[i]));
                }
            }
        }
    }
}

/// How many callers in a list are not defined in the tests.
fn count_outside(
    callers: &Vec<String>,
    tests: &Table<String, ()>,
    Ghost(files): Ghost<Seq<FileIndex>>,
) -> (r: usize)
    requires
        forall|n: Seq<char>| #[trigger] tests.keys().contains(n) <==> test_name(files, n),
    ensures
        r == outside_tests(files, text::views(callers@)).len(),
{
    let ghost all = text::views(callers@);
    let mut n: usize = 0;
    let mut i: usize = 0;
    while i < callers.len()
        invariant
            i <= callers@.len(),
            all == text::views(callers@),
            forall|n: Seq<char>| #[trigger] tests.keys().contains(n) <==> test_name(files, n),
            n == outside_tests(files, all.take(i as int)).len(),
            n <= i,
        decreases callers@.len() - i,
    {
        proof {
            text::lemma_take_step(all, i as int);
            assert(tests.keys().contains(all[i as int]) <==> test_name(files, all[i as int]));
        }
        if !tests.contains_key(&callers[i]) {
            n = n + 1;
        }
        i = i + 1;
    }
    proof {
        text::lemma_take_all(all);
    }
    n
}

/// The helpers that at least two others use.
fn find_helpers<T: CallGraphTy>(
    graph: &CallGraph<T>,
    tests: &Table<String, ()>,
    entries: &Table<String, ()>,
) -> (r: Vec<Used>)
    requires
        forall|n: Seq<char>| #[trigger] tests.keys().contains(n) <==> test_name(graph.files(), n),
        forall|n: Seq<char>| #[trigger] entries.keys().contains(n) <==> entry_name(graph.files(), n),
    ensures
        sort::each(r@) == helpers(
            graph.files(),
            graph.answers(),
            callees(graph.files(), graph.answers()),
        ),
{
    let ghost files = graph.files();
    let ghost a = graph.answers();
    let index = graph.caller_index();
    let n = index.len();
    let ghost keys = index.keys();
    proof {
        let all = Set::new(|n: Seq<char>| is_called(files, a, n));
        assert forall|n: Seq<char>| keys.to_set().contains(n) <==> all.contains(n) by {
            assert(keys.contains(n) <==> index.list(n).len() > 0);
            if index.list(n).len() > 0 {
                let c = text::views(index.list(n))[0];
                assert(text::views(index.list(n)).contains(c));
                assert(callgraph::calls(files, a, c, n));
            }
            if is_called(files, a, n) {
                let c = choose|c: Seq<char>| callgraph::calls(files, a, c, n);
                assert(text::views(index.list(n)).contains(c));
            }
        }
        assert(keys.to_set() =~= all);
        table::lemma_in_turn(keys);
        index.lemma_rows();
    }
    let mut out: Vec<Used> = Vec::new();
    let mut i: usize = 0;
    assert(sort::each(out@) =~= helpers(files, a, keys.take(0)));
    while i < n
        invariant
            i <= n,
            n == index.keys().len(),
            keys == index.keys(),
            files == graph.files(),
            a == graph.answers(),
            forall|n: Seq<char>| #[trigger] tests.keys().contains(n) <==> test_name(files, n),
            forall|n: Seq<char>| #[trigger] entries.keys().contains(n) <==> entry_name(files, n),
            forall|callee: Seq<char>, caller: Seq<char>|
                #![trigger text::views(index.list(callee)).contains(caller)]
                text::views(index.list(callee)).contains(caller) <==> callgraph::calls(
                    files,
                    a,
                    caller,
                    callee,
                ),
            forall|callee: Seq<char>| #[trigger] text::views(index.list(callee)).no_duplicates(),
            sort::each(out@) == helpers(files, a, keys.take(i as int)),
        decreases n - i,
    {
        let name = index.key(i);
        let uses = match index.get(name) {
            Some(list) => count_outside(list, tests, Ghost(files)),
            None => 0,
        };
        proof {
            text::lemma_take_step(keys, i as int);
            let list = text::views(index.list(name@));
            assert(list.no_duplicates());
            if !index.map().contains_key(name@) {
                assert(list =~= Seq::empty());
            }
            lemma_outside_tests(files, list);
            let o = outside_tests(files, list);
            assert(uses == o.len());
            o.unique_seq_to_set();
            assert forall|c: Seq<char>| o.to_set().contains(c) <==> users(
                files,
                a,
                name@,
            ).contains(c) by {
                assert(o.contains(c) <==> list.contains(c) && !test_name(files, c));
                assert(list.contains(c) <==> callgraph::calls(files, a, c, name@));
            }
            assert(o.to_set() =~= users(files, a, name@));
            assert(tests.keys().contains(name@) <==> test_name(files, name@));
            assert(entries.keys().contains(name@) <==> entry_name(files, name@));
        }
        if !tests.contains_key(name) && !entries.contains_key(name) && !leaf_is_dunder(
            name.as_str(),
        ) && uses >= 2 {
            let ghost held = out@;
            let u = Used { fqn: name.clone(), uses };
            out.push(u);
            proof {
                sort::lemma_each_push(held, u);
            }
        }
        i = i + 1;
    }
    proof {
        text::lemma_take_all(keys);
    }
    out
}

/// The row of a helper.
fn helper_json(path: &str, d: &Def, u: &Used) -> (r: Json)
    ensures
        r@ == helper_row(path@, *d, u@),
{
    let n = count_text(u.uses);
    let used = cat("used by ", n.as_str());
    let label = cat5("most-used ", u.fqn.as_str(), " (", used.as_str(), ")");
    Json::object().with("loc", Json::Str(loc_str(path, d.pos))).with("label", Json::Str(label)).with(
        "section",
        Json::text("most-used"),
    ).with("fqn", Json::text(u.fqn.as_str())).with("node_kind", Json::text(kind_of(d))).with(
        "uses",
        Json::count(u.uses),
    ).with("group", Json::text("most-used")).with(
        "cols",
        two_texts(u.fqn.as_str(), used.as_str()),
    )
}

/// The rows of the helpers, those that are used most first.
fn most_used_rows<T: CallGraphTy>(
    graph: &CallGraph<T>,
    tests: &Table<String, ()>,
    entries: &Table<String, ()>,
) -> (r: Vec<Json>)
    requires
        forall|n: Seq<char>| #[trigger] tests.keys().contains(n) <==> test_name(graph.files(), n),
        forall|n: Seq<char>| #[trigger] entries.keys().contains(n) <==> entry_name(graph.files(), n),
    ensures
        json::item_views(r@) == most_used(graph.files(), graph.answers()),
{
    let files = graph.index().0;
    let defs = defs_by_name(files);
    let found = find_helpers(graph, tests, entries);
    let ranked = sort(found);
    let ghost all = sort::each(ranked@);
    let mut out: Vec<Json> = Vec::new();
    let mut i: usize = 0;
    assert(json::item_views(out@) =~= helper_rows(files@, all.take(0)));
    while i < ranked.len()
        invariant
            i <= ranked@.len(),
            all == sort::each(ranked@),
            last_def::has_last(defs, files@),
            json::item_views(out@) == helper_rows(files@, all.take(i as int)),
        decreases ranked@.len() - i,
    {
        let u = &ranked[i];
        proof {
            text::lemma_take_step(all, i as int);
            assert(all[i as int] == u@);
            assert(last_def::pair_at(defs, u.fqn@) == last_def::last_def(files@, u.fqn@));
            last_def::lemma_last_def(files@, u.fqn@);
        }
        match defs.get(&u.fqn) {
            Some(at) => {
                let f = &files[at.0];
                let ghost seen = json::item_views(out@);
                let row = helper_json(f.path.as_str(), &f.defs[at.1], u);
                out.push(row);
                assert(json::item_views(out@) =~= seen.push(row@));
            },
            None => {},
        }
        i = i + 1;
    }
    proof {
        text::lemma_take_all(all);
    }
    out
}

/// The places of the tests among definitions.
pub open spec fn test_spots_in(
    path: Seq<char>,
    defs: Seq<Def>,
    classes: Set<Seq<char>>,
) -> Seq<Spot>
    decreases defs.len(),
{
    if defs.len() == 0 {
        Seq::empty()
    } else if tests_map::collected_test(defs.last(), path, classes) {
        test_spots_in(path, defs.drop_last(), classes).push((path, defs.last().offset))
    } else {
        test_spots_in(path, defs.drop_last(), classes)
    }
}

/// The places of the tests.
pub open spec fn test_spots(files: Seq<FileIndex>, classes: Set<Seq<char>>) -> Seq<Spot>
    decreases files.len(),
{
    if files.len() == 0 {
        Seq::empty()
    } else {
        test_spots(files.drop_last(), classes) + test_spots_in(
            files.last().path@,
            files.last().defs@,
            classes,
        )
    }
}

/// Whether `reached` are the names that the tests reach, along calls and along the
/// edges from methods to their overrides.
pub open spec fn tests_reach(files: Seq<FileIndex>, a: Answers, reached: Set<Seq<char>>) -> bool {
    exists|
        h: Hierarchy,
        t: Table<String, (String, u32)>,
        extra: Table<String, Vec<(String, u32)>>,
    | #[trigger] tests_reach_by(files, a, h, t, extra, reached)
}

/// The same, with what it is decided by.
pub open spec fn tests_reach_by(
    files: Seq<FileIndex>,
    a: Answers,
    h: Hierarchy,
    t: Table<String, (String, u32)>,
    extra: Table<String, Vec<(String, u32)>>,
    reached: Set<Seq<char>>,
) -> bool {
    &&& h.describes(files, a)
    &&& forall|n: Seq<char>| #[trigger] deadcode::place_of(t, n) == deadcode::anchor_of(files, n)
    &&& deadcode::override_edges_are(h, t, extra)
    &&& callgraph::reachable_is(
        files,
        a,
        extra,
        test_spots(files, tests_map::test_class_set(files)),
        reached,
    )
}

/// Whether something below a name is reached.
pub open spec fn owner_reached(reached: Set<Seq<char>>, owner: Seq<char>) -> bool {
    exists|n: Seq<char>| #[trigger] reached.contains(n) && text::parent_name(n) == Some(owner)
}

/// Whether a test reaches a definition: itself, or a member of the class.
pub open spec fn tested(reached: Set<Seq<char>>, name: Seq<char>, d: Def) -> bool {
    reached.contains(name) || (d.kind is Class && owner_reached(reached, name))
}

/// Whether a definition is public, and neither reached by a test nor entered by a
/// framework.
pub open spec fn untested(
    e: deadcode::Entry,
    reached: Set<Seq<char>>,
    path: Seq<char>,
    d: Def,
) -> bool {
    public_surface(d) && !tested(reached, names::def_fqn(path, d), d) && !e.entry_among(
        e.files,
        names::def_fqn(path, d),
    )
}

/// The row of a public definition that no test reaches, with its place in the
/// order.
pub open spec fn untested_entry(path: Seq<char>, d: Def) -> EntryView {
    let loc = rows::place(path, d.pos.line, d.pos.col);
    let name = names::def_fqn(path, d);
    EntryView {
        rank: 0,
        first: loc,
        second: ""@,
        row: JsonView::object().with("loc"@, JsonView::Str(loc)).with(
            "label"@,
            JsonView::Str("untested-public "@ + name),
        ).with("section"@, JsonView::Str("untested-public"@)).with("fqn"@, JsonView::Str(name)).with(
            "node_kind"@,
            JsonView::Str(deadcode::kind_name(d)),
        ).with("group"@, JsonView::Str("untested-public"@)).with("cols"@, json::texts(seq![name])),
    }
}

/// The rows of the public definitions of a file that no test reaches.
pub open spec fn untested_in(
    e: deadcode::Entry,
    reached: Set<Seq<char>>,
    path: Seq<char>,
    defs: Seq<Def>,
) -> Seq<EntryView>
    decreases defs.len(),
{
    if defs.len() == 0 {
        Seq::empty()
    } else if untested(e, reached, path, defs.last()) {
        untested_in(e, reached, path, defs.drop_last()).push(untested_entry(path, defs.last()))
    } else {
        untested_in(e, reached, path, defs.drop_last())
    }
}

/// The rows of the public definitions that no test reaches, outside the tests.
pub open spec fn untested_among(
    e: deadcode::Entry,
    reached: Set<Seq<char>>,
    some: Seq<FileIndex>,
) -> Seq<EntryView>
    decreases some.len(),
{
    if some.len() == 0 {
        Seq::empty()
    } else {
        let before = untested_among(e, reached, some.drop_last());
        if test_tree(some.last().path@) {
            before
        } else {
            before + untested_in(e, reached, some.last().path@, some.last().defs@)
        }
    }
}

/// The places of the tests.
fn test_places(files: &Vec<FileIndex>, classes: &Table<String, ()>) -> (r: Vec<(String, u32)>)
    ensures
        sort::each(r@) == test_spots(files@, classes.keys().to_set()),
{
    let ghost set = classes.keys().to_set();
    let mut out: Vec<(String, u32)> = Vec::new();
    let mut i: usize = 0;
    assert(sort::each(out@) =~= test_spots(files@.take(0), set));
    while i < files.len()
        invariant
            i <= files@.len(),
            set == classes.keys().to_set(),
            sort::each(out@) == test_spots(files@.take(i as int), set),
        decreases files@.len() - i,
    {
        proof {
            text::lemma_take_step(files@, i as int);
        }
        let f = &files[i];
        let ghost before = sort::each(out@);
        let mut j: usize = 0;
        assert(before + test_spots_in(f.path@, f.defs@.take(0), set) =~= before);
        while j < f.defs.len()
            invariant
                j <= f.defs@.len(),
                set == classes.keys().to_set(),
                sort::each(out@) == before + test_spots_in(f.path@, f.defs@.take(j as int), set),
            decreases f.defs@.len() - j,
        {
            proof {
                text::lemma_take_step(f.defs@, j as int);
            }
            let d = &f.defs[j];
            if is_collected_test_def(d, f.path.as_str(), classes) {
                let ghost held = out@;
                let ghost was = test_spots_in(f.path@, f.defs@.take(j as int), set);
                let one = (f.path.clone(), d.offset);
                out.push(one);
                proof {
                    sort::lemma_each_push(held, one);
                    assert((before + was).push(one@) =~= before + was.push(one@));
                }
            }
            j = j + 1;
        }
        proof {
            text::lemma_take_all(f.defs@);
        }
        i = i + 1;
    }
    proof {
        text::lemma_take_all(files@);
    }
    out
}

/// The names of which something below is reached.
fn owners_of(reached: &Table<String, ()>) -> (r: Table<String, ()>)
    ensures
        forall|o: Seq<char>| #[trigger]
            r.keys().contains(o) <==> owner_reached(reached.keys().to_set(), o),
{
    let n = reached.len();
    let ghost keys = reached.keys();
    let mut out: Table<String, ()> = Table::new();
    let mut i: usize = 0;
    while i < n
        invariant
            i <= n,
            n == reached.keys().len(),
            keys == reached.keys(),
            forall|o: Seq<char>| #[trigger]
                out.keys().contains(o) <==> exists|k: int|
                    0 <= k < i && text::parent_name(#[trigger] keys[k]) == Some(o),
        decreases n - i,
    {
        let ghost was = out;
        match parent_of(reached.key(i).as_str()) {
            Some(owner) => {
                out.insert(owner, ());
            },
            None => {},
        }
        proof {
            assert forall|o: Seq<char>| #[trigger]
                out.keys().contains(o) <==> exists|k: int|
                    0 <= k < i + 1 && text::parent_name(#[trigger] keys[k]) == Some(o) by {
                assert(was.keys().contains(o) <==> exists|k: int|
                    0 <= k < i && text::parent_name(#[trigger] keys[k]) == Some(o));
                if was.keys().contains(o) {
                    let k = choose|k: int|
                        0 <= k < i && text::parent_name(#[trigger] keys[k]) == Some(o);
                    assert(0 <= k < i + 1 && text::parent_name(keys[k]) == Some(o));
                }
                if text::parent_name(keys[i as int]) == Some(o) {
                    assert(out.keys().contains(o));
                }
            }
        }
        i = i + 1;
    }
    proof {
        let set = keys.to_set();
        assert forall|o: Seq<char>| #[trigger] out.keys().contains(o) <==> owner_reached(set, o) by {
            if out.keys().contains(o) {
                let k = choose|k: int|
                    0 <= k < n && text::parent_name(#[trigger] keys[k]) == Some(o);
                assert(keys.contains(keys[k]));
                assert(set.contains(keys[k]));
            }
            if owner_reached(set, o) {
                let m = choose|m: Seq<char>| #[trigger]
                    set.contains(m) && text::parent_name(m) == Some(o);
                let k = choose|k: int| 0 <= k < keys.len() && keys[k] == m;
                assert(text::parent_name(keys[k]) == Some(o));
            }
        }
    }
    out
}

/// The row of a public definition that no test reaches.
fn untested_json(path: &str, d: &Def, name: String) -> (r: Entry)
    requires
        name@ == names::def_fqn(path@, *d),
    ensures
        r@ == untested_entry(path@, *d),
{
    let loc = loc_str(path, d.pos);
    let label = cat("untested-public ", name.as_str());
    let row = Json::object().with("loc", Json::text(loc.as_str())).with(
        "label",
        Json::Str(label),
    ).with("section", Json::text("untested-public")).with("fqn", Json::text(name.as_str())).with(
        "node_kind",
        Json::text(kind_of(d)),
    ).with("group", Json::text("untested-public")).with("cols", one_text(name.as_str()));
    Entry { rank: 0, first: loc, second: "".to_owned(), row }
}

/// The rows of the public definitions that no test reaches.
fn untested_public_rows<T: CallGraphTy>(
    graph: &CallGraph<T>,
    classes: &Table<String, ()>,
    console: &Vec<String>,
) -> (r: Vec<Json>)
    requires
        classes.keys().to_set() == tests_map::test_class_set(graph.files()),
    ensures
        exists|reached: Set<Seq<char>>| #[trigger]
            tests_reach(graph.files(), graph.answers(), reached) && json::item_views(r@)
                == rows::arranged(
                untested_among(
                    (deadcode::Entry {
                        files: graph.files(),
                        answers: graph.answers(),
                        console: text::views(console@),
                    }),
                    reached,
                    graph.files(),
                ),
            ),
{
    let files = graph.index().0;
    let ghost a = graph.answers();
    let ghost e = deadcode::Entry { files: files@, answers: a, console: text::views(console@) };
    let seeds = test_places(files, classes);
    let hier = Hierarchy::build(files, graph);
    let anchors = def_anchors(files);
    let extra = override_edges(&hier, &anchors);
    let reached = graph.reachable_from(&seeds, &extra);
    let ghost set = reached.keys().to_set();
    proof {
        assert(tests_reach_by(files@, a, hier, anchors, extra, set));
    }
    let framework = framework_entry_fqns(files, graph, &hier, console);
    let owners = owners_of(&reached);
    let mut entries: Vec<Entry> = Vec::new();
    let mut i: usize = 0;
    assert(sort::each(entries@) =~= untested_among(e, set, files@.take(0)));
    while i < files.len()
        invariant
            i <= files@.len(),
            e.files == files@,
            set == reached.keys().to_set(),
            forall|o: Seq<char>| #[trigger] owners.keys().contains(o) <==> owner_reached(set, o),
            forall|n: Seq<char>| #[trigger]
                framework.keys().contains(n) <==> e.entry_among(files@, n),
            sort::each(entries@) == untested_among(e, set, files@.take(i as int)),
        decreases files@.len() - i,
    {
        proof {
            text::lemma_take_step(files@, i as int);
        }
        let f = &files[i];
        if !in_test_tree(f.path.as_str()) {
            let ghost before = sort::each(entries@);
            let mut j: usize = 0;
            assert(before + untested_in(e, set, f.path@, f.defs@.take(0)) =~= before);
            while j < f.defs.len()
                invariant
                    j <= f.defs@.len(),
                    e.files == files@,
                    set == reached.keys().to_set(),
                    forall|o: Seq<char>| #[trigger]
                        owners.keys().contains(o) <==> owner_reached(set, o),
                    forall|n: Seq<char>| #[trigger]
                        framework.keys().contains(n) <==> e.entry_among(files@, n),
                    sort::each(entries@) == before + untested_in(
                        e,
                        set,
                        f.path@,
                        f.defs@.take(j as int),
                    ),
                decreases f.defs@.len() - j,
            {
                proof {
                    text::lemma_take_step(f.defs@, j as int);
                }
                let d = &f.defs[j];
                if is_public_surface(d) {
                    let name = fqn_of(f.path.as_str(), d);
                    let class = match d.kind {
                        DefKind::Class => true,
                        _ => false,
                    };
                    proof {
                        assert(set.contains(name@) <==> reached.keys().contains(name@));
                        assert(owners.keys().contains(name@) <==> owner_reached(set, name@));
                        assert(framework.keys().contains(name@) <==> e.entry_among(files@, name@));
                    }
                    let is_tested = reached.contains_key(&name) || (class && owners.contains_key(
                        &name,
                    ));
                    if !is_tested && !framework.contains_key(&name) {
                        let ghost held = entries@;
                        let ghost was = untested_in(e, set, f.path@, f.defs@.take(j as int));
                        let one = untested_json(f.path.as_str(), d, name);
                        entries.push(one);
                        proof {
                            sort::lemma_each_push(held, one);
                            assert((before + was).push(one@) =~= before + was.push(one@));
                        }
                    }
                }
                j = j + 1;
            }
            proof {
                text::lemma_take_all(f.defs@);
            }
        }
        i = i + 1;
    }
    proof {
        text::lemma_take_all(files@);
    }
    let r = arrange(entries);
    proof {
        assert(tests_reach(graph.files(), graph.answers(), set));
    }
    r
}

/// The first place of a text in another.
pub open spec fn first_at(s: Seq<char>, p: Seq<char>, i: int) -> bool {
    text::occurs_at(p, s, i) && forall|j: int| 0 <= j < i ==> !text::occurs_at(p, s, j)
}

/// Whether a character may stand in a name.
pub open spec fn word_char(c: char) -> bool {
    text::alphanumeric(c) || c == '_'
}

/// The characters at the start of a text that may stand in a name.
pub open spec fn word(s: Seq<char>) -> Seq<char>
    decreases s.len(),
{
    if s.len() == 0 || !word_char(s[0]) {
        Seq::empty()
    } else {
        seq![s[0]] + word(s.skip(1))
    }
}

/// The marker that a decorator sets: what follows the first `mark.`, where that
/// stands at the start or behind a dot.
pub open spec fn marker(d: Seq<char>) -> Option<Seq<char>> {
    if !text::within(d, "mark."@) {
        None
    } else {
        let i = choose|i: int| first_at(d, "mark."@, i);
        let name = word(d.skip(i + "mark."@.len()));
        if (i != 0 && d[i - 1] != '.') || name.len() == 0 {
            None
        } else {
            Some(name)
        }
    }
}

/// The markers that decorators set.
pub open spec fn markers(decorators: Seq<Seq<char>>) -> Seq<Seq<char>>
    decreases decorators.len(),
{
    if decorators.len() == 0 {
        Seq::empty()
    } else {
        let before = markers(decorators.drop_last());
        match marker(decorators.last()) {
            Some(m) => before.push(m),
            None => before,
        }
    }
}

/// Characters that may stand in a name, up to one that may not, are the word at
/// the start.
pub proof fn lemma_word(s: Seq<char>, n: int)
    requires
        0 <= n <= s.len(),
        forall|k: int| 0 <= k < n ==> word_char(#[trigger] s[k]),
        n < s.len() ==> !word_char(s[n]),
    ensures
        word(s) == s.take(n),
    decreases s.len(),
{
    if n == 0 {
        assert(s.take(0) =~= Seq::empty());
    } else {
        let t = s.skip(1);
        assert forall|k: int| 0 <= k < n - 1 implies word_char(#[trigger] t[k]) by {
            assert(t[k] == s[k + 1]);
        }
        lemma_word(t, n - 1);
        assert(seq![s[0]] + t.take(n - 1) =~= s.take(n));
    }
}

/// The marker that a decorator sets.
fn marker_of(d: &str) -> (r: Option<String>)
    ensures
        match r {
            Some(m) => marker(d@) == Some(m@),
            None => marker(d@) is None,
        },
{
    let cs = chars_of(d);
    let ps = chars_of("mark.");
    let i = match find(&cs, &ps) {
        Some(i) => i,
        None => {
            return None;
        },
    };
    proof {
        let c = choose|c: int| first_at(d@, "mark."@, c);
        assert(first_at(d@, "mark."@, i as int));
        assert(text::within(d@, "mark."@));
        assert(c == i) by {
            if c < i {
                assert(!text::occurs_at("mark."@, d@, c));
            } else if i < c {
                assert(!text::occurs_at("mark."@, d@, i as int));
            }
        }
    }
    let total: usize = cs.len();
    assert(i + ps@.len() <= total);
    let from: usize = i + ps.len();
    let mut to: usize = from;
    while to < cs.len() && (cs[to].is_alphanumeric() || cs[to] == '_')
        invariant
            from <= to <= cs@.len(),
            forall|k: int| from <= k < to ==> word_char(#[trigger] cs@[k]),
        decreases cs@.len() - to,
    {
        to = to + 1;
    }
    proof {
        let rest = d@.skip(from as int);
        assert forall|k: int| 0 <= k < to - from implies word_char(#[trigger] rest[k]) by {
            assert(rest[k] == cs@[from + k]);
        }
        lemma_word(rest, to - from);
        assert(rest.take(to - from) =~= d@.subrange(from as int, to as int));
    }
    if i != 0 && cs[i - 1] != '.' {
        return None;
    }
    if to == from {
        return None;
    }
    Some(string_of(&cs, from, to))
}

/// The markers that decorators set.
pub fn pytest_markers(decorators: &Vec<String>) -> (r: Vec<String>)
    ensures
        text::views(r@) == markers(text::views(decorators@)),
{
    let ghost all = text::views(decorators@);
    let mut out: Vec<String> = Vec::new();
    let mut i: usize = 0;
    assert(text::views(out@) =~= markers(all.take(0)));
    while i < decorators.len()
        invariant
            i <= decorators@.len(),
            all == text::views(decorators@),
            text::views(out@) == markers(all.take(i as int)),
        decreases decorators@.len() - i,
    {
        proof {
            text::lemma_take_step(all, i as int);
        }
        match marker_of(decorators[i].as_str()) {
            Some(m) => {
                let ghost seen = text::views(out@);
                let ghost mv = m@;
                out.push(m);
                assert(text::views(out@) =~= seen.push(mv));
            },
            None => {},
        }
        i = i + 1;
    }
    proof {
        text::lemma_take_all(all);
    }
    out
}

/// The markers of the last class of a name among definitions.
pub open spec fn class_markers(path: Seq<char>, defs: Seq<Def>, name: Seq<char>) -> Seq<Seq<char>>
    decreases defs.len(),
{
    if defs.len() == 0 {
        Seq::empty()
    } else if defs.last().kind is Class && names::def_fqn(path, defs.last()) == name {
        markers(text::views(defs.last().decorators@))
    } else {
        class_markers(path, defs.drop_last(), name)
    }
}

/// All markers of a test: its own, and those of its class.
pub open spec fn marker_list(path: Seq<char>, defs: Seq<Def>, d: Def) -> Seq<Seq<char>> {
    markers(text::views(d.decorators@)) + if d.container@.len() > 0 {
        class_markers(path, defs, names::fqn(path, text::views(d.container@)))
    } else {
        Seq::empty()
    }
}

/// The markers of a test, ascending, each once.
pub open spec fn test_markers(path: Seq<char>, defs: Seq<Def>, d: Def) -> Seq<Seq<char>> {
    table::in_turn(marker_list(path, defs, d).to_set())
}

/// The row of a test, with its place in the order.
pub open spec fn inventory_entry(path: Seq<char>, defs: Seq<Def>, d: Def) -> EntryView {
    let name = names::def_fqn(path, d);
    let marks = test_markers(path, defs, d);
    let shown = "["@ + text::join(marks, ", "@) + "]"@;
    EntryView {
        rank: 0,
        first: name,
        second: ""@,
        row: JsonView::object().with(
            "loc"@,
            JsonView::Str(rows::place(path, d.pos.line, d.pos.col)),
        ).with(
            "label"@,
            JsonView::Str(
                if marks.len() == 0 {
                    "test "@ + name
                } else {
                    "test "@ + name + " "@ + shown
                },
            ),
        ).with("section"@, JsonView::Str("test"@)).with("fqn"@, JsonView::Str(name)).with(
            "markers"@,
            json::texts(marks),
        ).with("group"@, JsonView::Str("tests"@)).with(
            "cols"@,
            json::texts(
                if marks.len() == 0 {
                    seq![name]
                } else {
                    seq![name, shown]
                },
            ),
        ),
    }
}

/// The rows of the tests among the first definitions of a file.
pub open spec fn inventory_in(
    path: Seq<char>,
    all: Seq<Def>,
    defs: Seq<Def>,
    classes: Set<Seq<char>>,
) -> Seq<EntryView>
    decreases defs.len(),
{
    if defs.len() == 0 {
        Seq::empty()
    } else if tests_map::collected_test(defs.last(), path, classes) {
        inventory_in(path, all, defs.drop_last(), classes).push(
            inventory_entry(path, all, defs.last()),
        )
    } else {
        inventory_in(path, all, defs.drop_last(), classes)
    }
}

/// The rows of the tests.
pub open spec fn inventory(files: Seq<FileIndex>, classes: Set<Seq<char>>) -> Seq<EntryView>
    decreases files.len(),
{
    if files.len() == 0 {
        Seq::empty()
    } else {
        inventory(files.drop_last(), classes) + inventory_in(
            files.last().path@,
            files.last().defs@,
            files.last().defs@,
            classes,
        )
    }
}

/// The markers of the last class of a name among definitions.
fn markers_of_class(path: &str, defs: &Vec<Def>, name: &str) -> (r: Vec<String>)
    ensures
        text::views(r@) == class_markers(path@, defs@, name@),
{
    let mut out: Vec<String> = Vec::new();
    let mut i: usize = 0;
    assert(text::views(out@) =~= class_markers(path@, defs@.take(0), name@));
    while i < defs.len()
        invariant
            i <= defs@.len(),
            text::views(out@) == class_markers(path@, defs@.take(i as int), name@),
        decreases defs@.len() - i,
    {
        proof {
            text::lemma_take_step(defs@, i as int);
        }
        let d = &defs[i];
        let class = match d.kind {
            DefKind::Class => true,
            _ => false,
        };
        if class {
            let own = fqn_of(path, d);
            if same(own.as_str(), name) {
                out = pytest_markers(&d.decorators);
            }
        }
        i = i + 1;
    }
    proof {
        text::lemma_take_all(defs@);
    }
    out
}

/// Adds texts to a set of them.
fn add_texts(out: &mut Table<String, ()>, list: &Vec<String>)
    ensures
        forall|n: Seq<char>| #[trigger]
            final(out).keys().contains(n) <==> old(out).keys().contains(n) || text::views(
                list@,
            ).contains(n),
{
    let ghost was = *out;
    let ghost all = text::views(list@);
    let mut i: usize = 0;
    assert(all.take(0) =~= Seq::empty());
    while i < list.len()
        invariant
            i <= list@.len(),
            all == text::views(list@),
            forall|n: Seq<char>| #[trigger]
                out.keys().contains(n) <==> was.keys().contains(n) || all.take(i as int).contains(n),
        decreases list@.len() - i,
    {
        out.insert(list[i].clone(), ());
        proof {
            text::lemma_push_contains(all.take(i as int), all[i as int]);
            assert(all.take(i + 1) =~= all.take(i as int).push(all[i as int]));
        }
        i = i + 1;
    }
    proof {
        text::lemma_take_all(all);
    }
}

/// The markers of a test, ascending, each once.
fn markers_for(path: &str, defs: &Vec<Def>, d: &Def) -> (r: Vec<String>)
    ensures
        text::views(r@) == test_markers(path@, defs@, *d),
{
    let mut set: Table<String, ()> = Table::new();
    let own = pytest_markers(&d.decorators);
    add_texts(&mut set, &own);
    let ghost mut inherited = Seq::<Seq<char>>::empty();
    if d.container.len() > 0 {
        let class = scope_fqn(path, &d.container);
        let more = markers_of_class(path, defs, class.as_str());
        add_texts(&mut set, &more);
        proof {
            inherited = text::views(more@);
        }
    }
    let n = set.len();
    proof {
        let both = marker_list(path@, defs@, *d);
        let first = text::views(own@);
        assert(both == first + inherited);
        assert forall|m: Seq<char>| set.keys().to_set().contains(m) <==> both.to_set().contains(
            m,
        ) by {
            assert(set.keys().contains(m) <==> first.contains(m) || inherited.contains(m));
            if first.contains(m) {
                let k = choose|k: int| 0 <= k < first.len() && first[k] == m;
                assert(both[k] == m);
            }
            if inherited.contains(m) {
                let k = choose|k: int| 0 <= k < inherited.len() && inherited[k] == m;
                assert(both[first.len() + k] == m);
            }
            if both.contains(m) {
                let k = choose|k: int| 0 <= k < both.len() && both[k] == m;
                if k < first.len() {
                    assert(first[k] == m);
                } else {
                    assert(inherited[k - first.len()] == m);
                }
            }
        }
        assert(set.keys().to_set() =~= both.to_set());
        table::lemma_in_turn(set.keys());
    }
    let mut out: Vec<String> = Vec::new();
    let mut i: usize = 0;
    while i < n
        invariant
            i <= n,
            n == set.keys().len(),
            out@.len() == i,
            forall|k: int| 0 <= k < i ==> #[trigger] out@[k]@ == set.keys()[k],
        decreases n - i,
    {
        out.push(set.key(i).clone());
        i = i + 1;
    }
    assert(text::views(out@) =~= set.keys());
    out
}

/// The row of a test.
fn inventory_json(path: &str, defs: &Vec<Def>, d: &Def) -> (r: Entry)
    ensures
        r@ == inventory_entry(path@, defs@, *d),
{
    let name = fqn_of(path, d);
    let marks = markers_for(path, defs, d);
    assert(text::views(marks@).len() == marks@.len());
    let list = join_with(&marks, ", ");
    let shown = cat3("[", list.as_str(), "]");
    let (label, cols) = if marks.len() == 0 {
        (cat("test ", name.as_str()), one_text(name.as_str()))
    } else {
        (
            cat4("test ", name.as_str(), " ", shown.as_str()),
            two_texts(name.as_str(), shown.as_str()),
        )
    };
    let row = Json::object().with("loc", Json::Str(loc_str(path, d.pos))).with(
        "label",
        Json::Str(label),
    ).with("section", Json::text("test")).with("fqn", Json::text(name.as_str())).with(
        "markers",
        Json::texts(&marks),
    ).with("group", Json::text("tests")).with("cols", cols);
    Entry { rank: 0, first: name, second: "".to_owned(), row }
}

/// The rows of the tests.
fn test_inventory_rows(files: &Vec<FileIndex>, classes: &Table<String, ()>) -> (r: Vec<Json>)
    ensures
        json::item_views(r@) == rows::arranged(inventory(files@, classes.keys().to_set())),
{
    let ghost set = classes.keys().to_set();
    let mut entries: Vec<Entry> = Vec::new();
    let mut i: usize = 0;
    assert(sort::each(entries@) =~= inventory(files@.take(0), set));
    while i < files.len()
        invariant
            i <= files@.len(),
            set == classes.keys().to_set(),
            sort::each(entries@) == inventory(files@.take(i as int), set),
        decreases files@.len() - i,
    {
        proof {
            text::lemma_take_step(files@, i as int);
        }
        let f = &files[i];
        let ghost before = sort::each(entries@);
        let mut j: usize = 0;
        assert(before + inventory_in(f.path@, f.defs@, f.defs@.take(0), set) =~= before);
        while j < f.defs.len()
            invariant
                j <= f.defs@.len(),
                set == classes.keys().to_set(),
                sort::each(entries@) == before + inventory_in(
                    f.path@,
                    f.defs@,
                    f.defs@.take(j as int),
                    set,
                ),
            decreases f.defs@.len() - j,
        {
            proof {
                text::lemma_take_step(f.defs@, j as int);
            }
            let d = &f.defs[j];
            if is_collected_test_def(d, f.path.as_str(), classes) {
                let ghost held = entries@;
                let ghost was = inventory_in(f.path@, f.defs@, f.defs@.take(j as int), set);
                let one = inventory_json(f.path.as_str(), &f.defs, d);
                entries.push(one);
                proof {
                    sort::lemma_each_push(held, one);
                    assert((before + was).push(one@) =~= before + was.push(one@));
                }
            }
            j = j + 1;
        }
        proof {
            text::lemma_take_all(f.defs@);
        }
        i = i + 1;
    }
    proof {
        text::lemma_take_all(files@);
    }
    arrange(entries)
}

/// The first of values, at most `n`.
pub open spec fn at_most(s: Seq<JsonView>, n: nat) -> Seq<JsonView> {
    if s.len() <= n {
        s
    } else {
        s.take(n as int)
    }
}

/// What the overview warns of.
pub open spec fn canonical_warnings(cut: bool) -> Seq<Seq<char>> {
    let three = seq![
        "most-used = ranked by distinct callers defined outside the test tree (≥2 shown); calls made through dynamic/attribute dispatch are not counted, so a helper invoked only reflectively is undercounted."@,
        "untested-public = a top-level public (non-`_`) function/class no collected test statically reaches, with framework-driven symbols excluded (serializers, configs, migrations, commands, routers, decorated handlers, string-config targets — run through dispatch, not a direct test call). Other dynamic reach is still invisible, so a flagged symbol may yet be exercised at runtime (`change-coverage` is the oracle, not this)."@,
        "test collection uses pytest naming + unittest/TestCase-inheritance rules (custom python_files/python_classes config not read); markers are read from decorators on the test and its enclosing class — module-level `pytestmark` is not captured."@,
    ];
    if cut {
        three.push("most-used list truncated to the top 30 by use"@)
    } else {
        three
    }
}

/// The overview of a project, of which the tests reach `reached`.
pub open spec fn canonical_view(
    files: Seq<FileIndex>,
    a: Answers,
    console: Seq<Seq<char>>,
    reached: Set<Seq<char>>,
) -> EnvelopeView {
    let used = most_used(files, a);
    let shown = at_most(used, 30);
    let untested = rows::arranged(
        untested_among((deadcode::Entry { files, answers: a, console }), reached, files),
    );
    let tests = rows::arranged(inventory(files, tests_map::test_class_set(files)));
    EnvelopeView::of(
        JsonView::object().with("kind"@, JsonView::Str("canonical"@)).with(
            "target"@,
            JsonView::Null,
        ),
        shown + untested + tests,
    ).summarized(
        "canonical: "@ + text::decimal(shown.len()) + " most-used "@ + text::plural_of(
            shown.len(),
            "helper"@,
        ) + ", "@ + (text::decimal(untested.len()) + " untested public "@ + text::plural_of(
            untested.len(),
            "symbol"@,
        ) + ", "@ + (text::decimal(tests.len()) + " collected "@ + text::plural_of(
            tests.len(),
            "test"@,
        ))),
    ).warned(canonical_warnings(used.len() > 30))
}

/// Moves values to the end of others.
fn append_all(out: &mut Vec<Json>, more: Vec<Json>)
    ensures
        json::item_views(final(out)@) == json::item_views(old(out)@) + json::item_views(more@),
{
    let ghost was = out@;
    let ghost all = more@;
    let mut rest = sort::reversed(more);
    let ghost mut n: int = 0;
    while rest.len() > 0
        invariant
            0 <= n <= all.len(),
            rest@.len() == all.len() - n,
            forall|k: int| 0 <= k < rest@.len() ==> rest@[k] == all[all.len() - 1 - k],
            out@ == was + all.take(n),
        decreases rest@.len(),
    {
        match rest.pop() {
            Some(x) => {
                out.push(x);
                proof {
                    assert(all.take(n + 1) =~= all.take(n).push(all[n]));
                    assert((was + all.take(n)).push(all[n]) =~= was + all.take(n + 1));
                    n = n + 1;
                }
            },
            None => {},
        }
    }
    proof {
        text::lemma_take_all(all);
        assert(json::item_views(out@) =~= json::item_views(was) + json::item_views(all));
    }
}

/// An overview of a project. `console` are the targets of the console scripts.
pub fn query<T: CallGraphTy>(graph: &CallGraph<T>, console: &Vec<String>) -> (r: Envelope)
    ensures
        exists|reached: Set<Seq<char>>| #[trigger]
            tests_reach(graph.files(), graph.answers(), reached) && r@ == canonical_view(
                graph.files(),
                graph.answers(),
                text::views(console@),
                reached,
            ),
{
    let files = graph.index().0;
    let classes = test_class_fqns(files);
    let (tests_names, entries_names) = marked_names(files);
    let mut results = most_used_rows(graph, &tests_names, &entries_names);
    let ghost used = json::item_views(results@);
    assert(used.len() == results@.len());
    let cut = results.len() > 30;
    results.truncate(30);
    assert(json::item_views(results@) =~= at_most(used, 30));
    let n_used = results.len();
    let untested = untested_public_rows(graph, &classes, console);
    let n_untested = untested.len();
    let tests = test_inventory_rows(files, &classes);
    let n_tests = tests.len();
    assert(json::item_views(untested@).len() == untested@.len());
    assert(json::item_views(tests@).len() == tests@.len());
    append_all(&mut results, untested);
    append_all(&mut results, tests);
    let a = count_text(n_used);
    let a_word = plural(n_used, "helper");
    let b = count_text(n_untested);
    let b_word = plural(n_untested, "symbol");
    let c = count_text(n_tests);
    let c_word = plural(n_tests, "test");
    let head = cat5("canonical: ", a.as_str(), " most-used ", a_word.as_str(), ", ");
    let mid = cat4(b.as_str(), " untested public ", b_word.as_str(), ", ");
    let tail = cat3(c.as_str(), " collected ", c_word.as_str());
    let rest = cat(mid.as_str(), tail.as_str());
    let summary = cat(head.as_str(), rest.as_str());
    let mut warnings: Vec<String> = Vec::new();
    warnings.push(
        "most-used = ranked by distinct callers defined outside the test tree (≥2 shown); calls made through dynamic/attribute dispatch are not counted, so a helper invoked only reflectively is undercounted.".to_owned(),
    );
    warnings.push(
        "untested-public = a top-level public (non-`_`) function/class no collected test statically reaches, with framework-driven symbols excluded (serializers, configs, migrations, commands, routers, decorated handlers, string-config targets — run through dispatch, not a direct test call). Other dynamic reach is still invisible, so a flagged symbol may yet be exercised at runtime (`change-coverage` is the oracle, not this).".to_owned(),
    );
    warnings.push(
        "test collection uses pytest naming + unittest/TestCase-inheritance rules (custom python_files/python_classes config not read); markers are read from decorators on the test and its enclosing class — module-level `pytestmark` is not captured.".to_owned(),
    );
    if cut {
        warnings.push("most-used list truncated to the top 30 by use".to_owned());
    }
    assert(text::views(warnings@) =~= canonical_warnings(cut));
    let query = Json::object().with("kind", Json::text("canonical")).with("target", Json::Null);
    Envelope::new(query, results).with_summary(summary).with_warnings(warnings)
}

/// Each row of a file's public definitions that no test reaches is that of one.
proof fn lemma_untested_in(
    e: deadcode::Entry,
    reached: Set<Seq<char>>,
    path: Seq<char>,
    defs: Seq<Def>,
    i: int,
)
    requires
        0 <= i < untested_in(e, reached, path, defs).len(),
    ensures
        exists|k: int|
            0 <= k < defs.len() && untested(e, reached, path, #[trigger] defs[k])
                && untested_in(e, reached, path, defs)[i] == untested_entry(path, defs[k]),
    decreases defs.len(),
{
    let less = defs.drop_last();
    let before = untested_in(e, reached, path, less);
    if i < before.len() {
        lemma_untested_in(e, reached, path, less, i);
        let k = choose|k: int|
            0 <= k < less.len() && untested(e, reached, path, #[trigger] less[k]) && before[i]
                == untested_entry(path, less[k]);
        assert(defs[k] == less[k]);
    } else {
        assert(defs[defs.len() - 1] == defs.last());
    }
}

/// What is reported as untested is a public definition outside the tests that no test
/// reaches and no framework enters.
pub proof fn law_untested_is_unreached(
    e: deadcode::Entry,
    reached: Set<Seq<char>>,
    some: Seq<FileIndex>,
    i: int,
)
    requires
        0 <= i < untested_among(e, reached, some).len(),
    ensures
        exists|f: int, k: int|
            0 <= f < some.len() && 0 <= k < some[f].defs@.len() && !test_tree(some[f].path@)
                && untested(e, reached, some[f].path@, #[trigger] some[f].defs@[k])
                && untested_among(e, reached, some)[i] == untested_entry(
                some[f].path@,
                some[f].defs@[k],
            ),
    decreases some.len(),
{
    let less = some.drop_last();
    let before = untested_among(e, reached, less);
    let last = some.last();
    if i < before.len() {
        law_untested_is_unreached(e, reached, less, i);
        let (f, k) = choose|f: int, k: int|
            0 <= f < less.len() && 0 <= k < less[f].defs@.len() && !test_tree(less[f].path@)
                && untested(e, reached, less[f].path@, #[trigger] less[f].defs@[k]) && before[i]
                == untested_entry(less[f].path@, less[f].defs@[k]);
        assert(some[f] == less[f]);
        assert(some[f].defs@[k] == less[f].defs@[k]);
    } else {
        lemma_untested_in(e, reached, last.path@, last.defs@, i - before.len());
        let k = choose|k: int|
            0 <= k < last.defs@.len() && untested(e, reached, last.path@, #[trigger] last.defs@[k])
                && untested_in(e, reached, last.path@, last.defs@)[i - before.len()]
                == untested_entry(last.path@, last.defs@[k]);
        assert(some[some.len() - 1].defs@[k] == last.defs@[k]);
    }
}

} // verus!
