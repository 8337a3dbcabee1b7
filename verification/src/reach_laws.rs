//! What holds of the names that entrypoints and tests reach, and of what may call them unseen.
use crate::callgraph::{Answers, NeighborView, Spot, Stop};
use crate::callgraph;
use crate::canonical;
use crate::closure_laws;
use crate::deadcode::{DispatchKind, Entry};
use crate::deadcode;
use crate::hierarchy::Hierarchy;
use crate::hierarchy;
use crate::live_laws;
use crate::model::{Def, FileIndex, Ref};
use crate::names;
use crate::sort;
use crate::table::Table;
use crate::tests_map;
use crate::text;
use vstd::prelude::*;

verus! {

/// Whether all that is called at a spot is among names.
pub open spec fn calls_within(
    files: Seq<FileIndex>,
    a: Answers,
    spot: Spot,
    names: Set<Seq<char>>,
) -> bool {
    forall|nb: NeighborView| #[trigger]
        (a.outgoing)(spot).contains(nb) ==> names.contains(callgraph::label(files, nb))
}

/// Whether a name is called at a spot.
pub open spec fn called_at(files: Seq<FileIndex>, a: Answers, spot: Spot, name: Seq<char>) -> bool {
    exists|nb: NeighborView| #[trigger]
        (a.outgoing)(spot).contains(nb) && callgraph::label(files, nb) == name
}

/// Whether a name is reached at a spot, and all that is called there is reached too.
pub open spec fn runs_at(
    files: Seq<FileIndex>,
    a: Answers,
    spot: Spot,
    name: Seq<char>,
    names: Set<Seq<char>>,
) -> bool {
    &&& callgraph::landing(files, spot) == name || exists|nb: NeighborView|
        nb.spot() == spot && #[trigger] callgraph::label(files, nb) == name
    &&& calls_within(files, a, spot, names)
}

/// What is reached runs: it stands at a place, and what is called there is reached as well.
pub proof fn law_reached_runs(
    files: Seq<FileIndex>,
    a: Answers,
    extra: Table<String, Vec<(String, u32)>>,
    seeds: Seq<Spot>,
    names: Set<Seq<char>>,
    name: Seq<char>,
)
    requires
        callgraph::reachable_is(files, a, extra, seeds, names),
        names.contains(name),
    ensures
        exists|spot: Spot| #[trigger] runs_at(files, a, spot, name, names),
{
    closure_laws::law_reach_is_all_that_calls_lead_to(files, a, extra, seeds, names);
    let stops = choose|stops: Seq<Stop>|
        {
            &&& #[trigger] closure_laws::from_seeds(files, a, extra, seeds, stops)
            &&& closure_laws::led_home(files, a, extra, stops, stops.len() as int)
            &&& closure_laws::seeds_home(files, seeds, stops)
            &&& forall|x: Seq<char>| #[trigger]
                names.contains(x) <==> callgraph::arrived(stops, x)
        };
    let i = choose|i: int| 0 <= i < stops.len() && (#[trigger] stops[i]).fqn == name;
    lemma_stop_runs(files, a, extra, seeds, names, stops, i);
}

/// Whether a name is that of a seed, is called at a place, or is one that an extra edge of a
/// reached name leads to.
pub open spec fn has_reason(
    files: Seq<FileIndex>,
    a: Answers,
    extra: Table<String, Vec<(String, u32)>>,
    seeds: Seq<Spot>,
    names: Set<Seq<char>>,
    name: Seq<char>,
) -> bool {
    ||| exists|i: int|
        0 <= i < seeds.len() && callgraph::landing(files, #[trigger] seeds[i]) == name
    ||| exists|spot: Spot, from: Seq<char>|
        names.contains(from) && #[trigger] runs_at(files, a, spot, from, names) && called_at(
            files,
            a,
            spot,
            name,
        )
    ||| exists|from: Seq<char>, i: int|
        names.contains(from) && 0 <= i < extra.list(from).len() && callgraph::landing(
            files,
            (#[trigger] extra.list(from)[i])@,
        ) == name
}

/// Nothing is reached without a reason.
pub proof fn law_reached_has_a_reason(
    files: Seq<FileIndex>,
    a: Answers,
    extra: Table<String, Vec<(String, u32)>>,
    seeds: Seq<Spot>,
    names: Set<Seq<char>>,
    name: Seq<char>,
)
    requires
        callgraph::reachable_is(files, a, extra, seeds, names),
        names.contains(name),
    ensures
        has_reason(files, a, extra, seeds, names, name),
{
    closure_laws::law_reach_is_all_that_calls_lead_to(files, a, extra, seeds, names);
    let stops = choose|stops: Seq<Stop>|
        {
            &&& #[trigger] closure_laws::from_seeds(files, a, extra, seeds, stops)
            &&& closure_laws::led_home(files, a, extra, stops, stops.len() as int)
            &&& closure_laws::seeds_home(files, seeds, stops)
            &&& forall|x: Seq<char>| #[trigger]
                names.contains(x) <==> callgraph::arrived(stops, x)
        };
    let i = choose|i: int| 0 <= i < stops.len() && (#[trigger] stops[i]).fqn == name;
    if callgraph::landings(files, seeds).contains(stops[i]) {
        let k = choose|k: int|
            0 <= k < seeds.len() && callgraph::landings(files, seeds)[k] == stops[i];
        assert(callgraph::landing(files, seeds[k]) == name);
    } else {
        let j = choose|j: int|
            0 <= j < i && callgraph::leads_on(files, a, extra, #[trigger] stops[j]).contains(
                stops[i],
            );
        let from = stops[j];
        assert(callgraph::arrived(stops, from.fqn));
        let on = callgraph::leads_on(files, a, extra, from);
        let k = choose|k: int| 0 <= k < on.len() && on[k] == stops[i];
        let there = (a.outgoing)(from.spot);
        if k < there.len() {
            lemma_stop_runs(files, a, extra, seeds, names, stops, j);
            assert(there.contains(there[k]));
            assert(called_at(files, a, from.spot, name));
        } else {
            let m = k - there.len();
            let more = sort::each(extra.list(from.fqn));
            assert(on[k] == callgraph::landings(files, more)[m]);
            assert(callgraph::landing(files, extra.list(from.fqn)[m]@) == name);
        }
    }
}

proof fn lemma_stop_runs(
    files: Seq<FileIndex>,
    a: Answers,
    extra: Table<String, Vec<(String, u32)>>,
    seeds: Seq<Spot>,
    names: Set<Seq<char>>,
    stops: Seq<Stop>,
    i: int,
)
    requires
        closure_laws::from_seeds(files, a, extra, seeds, stops),
        closure_laws::led_home(files, a, extra, stops, stops.len() as int),
        forall|x: Seq<char>| #[trigger] names.contains(x) <==> callgraph::arrived(stops, x),
        0 <= i < stops.len(),
    ensures
        runs_at(files, a, stops[i].spot, stops[i].fqn, names),
{
    let spot = stops[i].spot;
    let name = stops[i].fqn;
    let calls = (a.outgoing)(spot);
    let on = callgraph::leads_on(files, a, extra, stops[i]);
    assert forall|nb: NeighborView| #[trigger] calls.contains(nb) implies names.contains(
        callgraph::label(files, nb),
    ) by {
        let k = choose|k: int| 0 <= k < calls.len() && calls[k] == nb;
        assert(on[k].fqn == callgraph::label(files, nb));
        assert(callgraph::arrived(stops, on[k].fqn));
    }
    if callgraph::landings(files, seeds).contains(stops[i]) {
        assert(callgraph::landing(files, spot) == name);
    } else {
        let j = choose|j: int|
            0 <= j < i && callgraph::leads_on(files, a, extra, #[trigger] stops[j]).contains(
                stops[i],
            );
        let from = callgraph::leads_on(files, a, extra, stops[j]);
        let k = choose|k: int| 0 <= k < from.len() && from[k] == stops[i];
        let there = (a.outgoing)(stops[j].spot);
        if k < there.len() {
            assert(there[k].spot() == spot && callgraph::label(files, there[k]) == name);
        } else {
            let more = sort::each(extra.list(stops[j].fqn));
            assert(from[k] == callgraph::landings(files, more)[k - there.len()]);
        }
    }
}

/// What is live runs: what is called where it stands is live as well.
pub proof fn law_calls_of_live_are_live(e: Entry, live: Set<Seq<char>>, name: Seq<char>)
    requires
        deadcode::live_names(e, live),
        live.contains(name),
    ensures
        exists|spot: Spot| #[trigger] runs_at(e.files, e.answers, spot, name, live),
{
    let (h, t, extra, seeds) = choose|
        h: Hierarchy,
        t: Table<String, (String, u32)>,
        extra: Table<String, Vec<(String, u32)>>,
        seeds: Seq<Spot>,
    | #[trigger] deadcode::live_by(e, h, t, extra, seeds, live);
    law_reached_runs(e.files, e.answers, extra, seeds, live, name);
}

proof fn lemma_base_hits(bases: Seq<Seq<char>>, method: Seq<char>, base: Seq<char>, spot: Spot)
    requires
        bases.contains(base),
    ensures
        deadcode::base_hits(bases, method, base + "."@ + method, spot).contains(spot),
    decreases bases.len(),
{
    let key = base + "."@ + method;
    let less = bases.drop_last();
    text::lemma_push_contains(deadcode::base_hits(less, method, key, spot), spot);
    text::lemma_push_contains(less, bases.last());
    assert(bases =~= less.push(bases.last()));
    if bases.last() != base {
        lemma_base_hits(less, method, base, spot);
    }
}

proof fn lemma_in_either<A>(a: Seq<A>, b: Seq<A>, x: A)
    ensures
        (a + b).contains(x) <==> a.contains(x) || b.contains(x),
{
    let s = a + b;
    if a.contains(x) {
        let k = choose|k: int| 0 <= k < a.len() && a[k] == x;
        assert(s[k] == x);
    }
    if b.contains(x) {
        let k = choose|k: int| 0 <= k < b.len() && b[k] == x;
        assert(s[a.len() + k] == x);
    }
    if s.contains(x) {
        let k = choose|k: int| 0 <= k < s.len() && s[k] == x;
        if k < a.len() {
            assert(a[k] == x);
        } else {
            assert(b[k - a.len()] == x);
        }
    }
}

proof fn lemma_class_overrides(
    h: Hierarchy,
    t: Table<String, (String, u32)>,
    class: Seq<char>,
    base: Seq<char>,
    methods: Seq<Seq<char>>,
    method: Seq<char>,
    spot: Spot,
)
    requires
        methods.contains(method),
        h.supers_of(class).contains(base),
        text::views(h.methods.list(base)).contains(method),
        deadcode::place_of(t, class + "."@ + method) == Some(spot),
    ensures
        deadcode::class_overrides(h, t, class, methods, base + "."@ + method).contains(spot),
    decreases methods.len(),
{
    let key = base + "."@ + method;
    let less = methods.drop_last();
    let m = methods.last();
    text::lemma_push_contains(less, m);
    assert(methods =~= less.push(m));
    let before = deadcode::class_overrides(h, t, class, less, key);
    if let Some(s) = deadcode::place_of(t, class + "."@ + m) {
        let bases = hierarchy::with_member(h.methods, h.supers_of(class), m);
        lemma_in_either(before, deadcode::base_hits(bases, m, key, s), spot);
        if m == method {
            hierarchy::lemma_with_member(h.methods, h.supers_of(class), m, base);
            lemma_base_hits(bases, m, base, s);
        }
    }
    if m != method {
        lemma_class_overrides(h, t, class, base, less, method, spot);
    }
}

proof fn lemma_overrides_among(
    h: Hierarchy,
    t: Table<String, (String, u32)>,
    classes: Seq<Seq<char>>,
    class: Seq<char>,
    base: Seq<char>,
    method: Seq<char>,
    spot: Spot,
)
    requires
        classes.contains(class),
        h.supers_of(class).contains(base),
        text::views(h.methods.list(class)).contains(method),
        text::views(h.methods.list(base)).contains(method),
        deadcode::place_of(t, class + "."@ + method) == Some(spot),
    ensures
        deadcode::overrides_among(h, t, classes, base + "."@ + method).contains(spot),
    decreases classes.len(),
{
    let key = base + "."@ + method;
    let less = classes.drop_last();
    let c = classes.last();
    text::lemma_push_contains(less, c);
    assert(classes =~= less.push(c));
    let methods = text::views(h.methods.list(c));
    lemma_in_either(
        deadcode::overrides_among(h, t, less, key),
        deadcode::class_overrides(h, t, c, methods, key),
        spot,
    );
    if c == class {
        lemma_class_overrides(h, t, c, base, methods, method, spot);
    } else {
        lemma_overrides_among(h, t, less, class, base, method, spot);
    }
}

/// Whether a class of the project overrides, at a spot, a method of one that it inherits from.
pub open spec fn overrides_at(
    files: Seq<FileIndex>,
    h: Hierarchy,
    class: Seq<char>,
    base: Seq<char>,
    method: Seq<char>,
    spot: Spot,
) -> bool {
    &&& h.anchor.keys().contains(class)
    &&& h.supers_of(class).contains(base)
    &&& text::views(h.methods.list(class)).contains(method)
    &&& text::views(h.methods.list(base)).contains(method)
    &&& deadcode::anchor_of(files, class + "."@ + method) == Some(spot)
}

/// Whether, with the classes of the project, what overrides a method that is reached is too.
pub open spec fn overrides_within(
    files: Seq<FileIndex>,
    a: Answers,
    h: Hierarchy,
    names: Set<Seq<char>>,
) -> bool {
    &&& h.describes(files, a)
    &&& forall|class: Seq<char>, base: Seq<char>, method: Seq<char>, spot: Spot|
        #[trigger] overrides_at(files, h, class, base, method, spot) && names.contains(
            base + "."@ + method,
        ) ==> names.contains(callgraph::landing(files, spot))
}

proof fn lemma_overrides_within(
    files: Seq<FileIndex>,
    a: Answers,
    h: Hierarchy,
    t: Table<String, (String, u32)>,
    extra: Table<String, Vec<(String, u32)>>,
    seeds: Seq<Spot>,
    names: Set<Seq<char>>,
)
    requires
        h.describes(files, a),
        forall|n: Seq<char>| #[trigger]
            deadcode::place_of(t, n) == deadcode::anchor_of(files, n),
        deadcode::override_edges_are(h, t, extra),
        callgraph::reachable_is(files, a, extra, seeds, names),
    ensures
        overrides_within(files, a, h, names),
{
    closure_laws::law_reach_is_all_that_calls_lead_to(files, a, extra, seeds, names);
    let stops = choose|stops: Seq<Stop>|
        {
            &&& #[trigger] closure_laws::from_seeds(files, a, extra, seeds, stops)
            &&& closure_laws::led_home(files, a, extra, stops, stops.len() as int)
            &&& closure_laws::seeds_home(files, seeds, stops)
            &&& forall|x: Seq<char>| #[trigger]
                names.contains(x) <==> callgraph::arrived(stops, x)
        };
    assert forall|class: Seq<char>, base: Seq<char>, method: Seq<char>, spot: Spot|
        #[trigger] overrides_at(files, h, class, base, method, spot) && names.contains(
            base + "."@ + method,
        ) implies names.contains(callgraph::landing(files, spot)) by {
        let key = base + "."@ + method;
        assert(deadcode::place_of(t, class + "."@ + method) == Some(spot));
        lemma_overrides_among(h, t, h.anchor.keys(), class, base, method, spot);
        let there = sort::each(extra.list(key));
        assert(there == deadcode::overrides_among(h, t, h.anchor.keys(), key));
        let i = choose|i: int| 0 <= i < there.len() && there[i] == spot;
        let j = choose|j: int| 0 <= j < stops.len() && (#[trigger] stops[j]).fqn == key;
        let calls = (a.outgoing)(stops[j].spot);
        let on = callgraph::leads_on(files, a, extra, stops[j]);
        let k = calls.len() + i;
        assert(on[k] == callgraph::landings(files, there)[i]);
        assert(callgraph::arrived(stops, on[k].fqn));
    }
}

/// What overrides a live method is live: a call of the method may run it.
pub proof fn law_override_of_live_is_live(e: Entry, live: Set<Seq<char>>)
    requires
        deadcode::live_names(e, live),
    ensures
        exists|h: Hierarchy| #[trigger] overrides_within(e.files, e.answers, h, live),
{
    let (h, t, extra, seeds) = choose|
        h: Hierarchy,
        t: Table<String, (String, u32)>,
        extra: Table<String, Vec<(String, u32)>>,
        seeds: Seq<Spot>,
    | #[trigger] deadcode::live_by(e, h, t, extra, seeds, live);
    lemma_overrides_within(e.files, e.answers, h, t, extra, seeds, live);
}

proof fn lemma_test_spots_in(path: Seq<char>, defs: Seq<Def>, classes: Set<Seq<char>>, s: Spot)
    ensures
        canonical::test_spots_in(path, defs, classes).contains(s) <==> exists|j: int|
            0 <= j < defs.len() && tests_map::collected_test(#[trigger] defs[j], path, classes)
                && s == (path, defs[j].offset),
    decreases defs.len(),
{
    if defs.len() > 0 {
        let less = defs.drop_last();
        let d = defs.last();
        lemma_test_spots_in(path, less, classes, s);
        text::lemma_push_contains(
            canonical::test_spots_in(path, less, classes),
            (path, d.offset),
        );
        assert(defs[defs.len() - 1] == d);
        assert forall|j: int| 0 <= j < less.len() implies #[trigger] defs[j] == less[j] by {}
        if exists|j: int|
            0 <= j < less.len() && tests_map::collected_test(#[trigger] less[j], path, classes)
                && s == (path, less[j].offset) {
            let j = choose|j: int|
                0 <= j < less.len() && tests_map::collected_test(#[trigger] less[j], path, classes)
                    && s == (path, less[j].offset);
            assert(defs[j] == less[j]);
        }
        if exists|j: int|
            0 <= j < defs.len() && tests_map::collected_test(#[trigger] defs[j], path, classes)
                && s == (path, defs[j].offset) {
            let j = choose|j: int|
                0 <= j < defs.len() && tests_map::collected_test(#[trigger] defs[j], path, classes)
                    && s == (path, defs[j].offset);
            if j < less.len() {
                assert(less[j] == defs[j]);
            }
        }
    }
}

/// The walk from the tests starts at the tests that are collected, and nowhere else.
pub proof fn law_walk_starts_at_the_tests(files: Seq<FileIndex>, classes: Set<Seq<char>>, s: Spot)
    ensures
        canonical::test_spots(files, classes).contains(s) <==> exists|i: int, j: int|
            0 <= i < files.len() && 0 <= j < files[i].defs@.len() && tests_map::collected_test(
                #[trigger] files[i].defs@[j],
                files[i].path@,
                classes,
            ) && s == (files[i].path@, files[i].defs@[j].offset),
    decreases files.len(),
{
    if files.len() > 0 {
        let less = files.drop_last();
        let f = files.last();
        let n = files.len() - 1;
        law_walk_starts_at_the_tests(less, classes, s);
        lemma_test_spots_in(f.path@, f.defs@, classes, s);
        lemma_in_either(
            canonical::test_spots(less, classes),
            canonical::test_spots_in(f.path@, f.defs@, classes),
            s,
        );
        assert(files[n] == f);
        if canonical::test_spots(less, classes).contains(s) {
            let (i, j) = choose|i: int, j: int|
                0 <= i < less.len() && 0 <= j < less[i].defs@.len() && tests_map::collected_test(
                    #[trigger] less[i].defs@[j],
                    less[i].path@,
                    classes,
                ) && s == (less[i].path@, less[i].defs@[j].offset);
            assert(files[i].defs@[j] == less[i].defs@[j]);
        }
        if canonical::test_spots_in(f.path@, f.defs@, classes).contains(s) {
            let j = choose|j: int|
                0 <= j < f.defs@.len() && tests_map::collected_test(
                    #[trigger] f.defs@[j],
                    f.path@,
                    classes,
                ) && s == (f.path@, f.defs@[j].offset);
            assert(files[n].defs@[j] == f.defs@[j]);
        }
        if exists|i: int, j: int|
            0 <= i < files.len() && 0 <= j < files[i].defs@.len() && tests_map::collected_test(
                #[trigger] files[i].defs@[j],
                files[i].path@,
                classes,
            ) && s == (files[i].path@, files[i].defs@[j].offset) {
            let (i, j) = choose|i: int, j: int|
                0 <= i < files.len() && 0 <= j < files[i].defs@.len() && tests_map::collected_test(
                    #[trigger] files[i].defs@[j],
                    files[i].path@,
                    classes,
                ) && s == (files[i].path@, files[i].defs@[j].offset);
            if i < n {
                assert(less[i].defs@[j] == files[i].defs@[j]);
            }
        }
    }
}

/// Every test that is collected is reached by the tests, and so is all that is called where
/// something reached stands, and what overrides a method that is reached.
pub proof fn law_tests_reach_what_they_call(
    files: Seq<FileIndex>,
    a: Answers,
    reached: Set<Seq<char>>,
    i: int,
    j: int,
    name: Seq<char>,
)
    requires
        canonical::tests_reach(files, a, reached),
    ensures
        0 <= i < files.len() && 0 <= j < files[i].defs@.len() && tests_map::collected_test(
            files[i].defs@[j],
            files[i].path@,
            tests_map::test_class_set(files),
        ) ==> reached.contains(
            callgraph::landing(files, (files[i].path@, files[i].defs@[j].offset)),
        ),
        reached.contains(name) ==> exists|spot: Spot| #[trigger]
            runs_at(files, a, spot, name, reached),
        exists|h: Hierarchy| #[trigger] overrides_within(files, a, h, reached),
{
    let (h, t, extra) = choose|
        h: Hierarchy,
        t: Table<String, (String, u32)>,
        extra: Table<String, Vec<(String, u32)>>,
    | #[trigger] canonical::tests_reach_by(files, a, h, t, extra, reached);
    let classes = tests_map::test_class_set(files);
    let seeds = canonical::test_spots(files, classes);
    lemma_overrides_within(files, a, h, t, extra, seeds, reached);
    if reached.contains(name) {
        law_reached_runs(files, a, extra, seeds, reached, name);
    }
    if 0 <= i < files.len() && 0 <= j < files[i].defs@.len() && tests_map::collected_test(
        files[i].defs@[j],
        files[i].path@,
        classes,
    ) {
        let s: Spot = (files[i].path@, files[i].defs@[j].offset);
        law_walk_starts_at_the_tests(files, classes, s);
        assert(seeds.contains(s));
        let k = choose|k: int| 0 <= k < seeds.len() && seeds[k] == s;
        closure_laws::law_reach_is_all_that_calls_lead_to(files, a, extra, seeds, reached);
        assert(reached.contains(callgraph::landing(files, seeds[k])));
    }
}

/// Whether a definition of a name shows why it is entered without a call.
pub open spec fn shows_why(e: Entry, i: int, j: int, n: Seq<char>, k: DispatchKind) -> bool {
    &&& 0 <= i < e.files.len()
    &&& 0 <= j < e.files[i].defs@.len()
    &&& names::def_fqn(e.files[i].path@, e.files[i].defs@[j]) == n
    &&& e.marked(e.files[i].path@, e.files[i].defs@[j]) == Some(k)
}

proof fn lemma_caveat_in(
    e: Entry,
    path: Seq<char>,
    defs: Seq<Def>,
    roots: Seq<Seq<char>>,
)
    ensures
        e.caveat_in(path, defs, roots) matches Some(c) ==> roots.contains(c.0) && exists|j: int|
            0 <= j < defs.len() && names::def_fqn(path, #[trigger] defs[j]) == c.0 && e.marked(
                path,
                defs[j],
            ) == Some(c.1),
        e.caveat_in(path, defs, roots) is None ==> forall|j: int|
            0 <= j < defs.len() && roots.contains(names::def_fqn(path, #[trigger] defs[j]))
                ==> e.marked(path, defs[j]) is None,
    decreases defs.len(),
{
    if defs.len() > 0 {
        let less = defs.drop_last();
        lemma_caveat_in(e, path, less, roots);
        assert(defs[defs.len() - 1] == defs.last());
        if let Some(c) = e.caveat_in(path, less, roots) {
            let j = choose|j: int|
                0 <= j < less.len() && names::def_fqn(path, #[trigger] less[j]) == c.0 && e.marked(
                    path,
                    less[j],
                ) == Some(c.1);
            assert(defs[j] == less[j]);
        } else if e.caveat_in(path, defs, roots) is None {
            assert forall|j: int|
                0 <= j < defs.len() && roots.contains(
                    names::def_fqn(path, #[trigger] defs[j]),
                ) implies e.marked(path, defs[j]) is None by {
                if j < less.len() {
                    assert(less[j] == defs[j]);
                }
            }
        }
    }
}

proof fn lemma_caveat_among(e: Entry, some: Seq<FileIndex>, roots: Seq<Seq<char>>)
    ensures
        e.caveat_among(some, roots) matches Some(c) ==> roots.contains(c.0) && exists|i: int, j: int|
            0 <= i < some.len() && 0 <= j < some[i].defs@.len() && names::def_fqn(
                some[i].path@,
                #[trigger] some[i].defs@[j],
            ) == c.0 && e.marked(some[i].path@, some[i].defs@[j]) == Some(c.1),
        e.caveat_among(some, roots) is None ==> forall|i: int, j: int|
            0 <= i < some.len() && 0 <= j < some[i].defs@.len() && roots.contains(
                names::def_fqn(some[i].path@, #[trigger] some[i].defs@[j]),
            ) ==> e.marked(some[i].path@, some[i].defs@[j]) is None,
    decreases some.len(),
{
    if some.len() > 0 {
        let less = some.drop_last();
        let f = some.last();
        let n = some.len() - 1;
        lemma_caveat_among(e, less, roots);
        lemma_caveat_in(e, f.path@, f.defs@, roots);
        assert(some[n] == f);
        if let Some(c) = e.caveat_among(less, roots) {
            let (i, j) = choose|i: int, j: int|
                0 <= i < less.len() && 0 <= j < less[i].defs@.len() && names::def_fqn(
                    less[i].path@,
                    #[trigger] less[i].defs@[j],
                ) == c.0 && e.marked(less[i].path@, less[i].defs@[j]) == Some(c.1);
            assert(some[i].defs@[j] == less[i].defs@[j]);
        } else if let Some(c) = e.caveat_in(f.path@, f.defs@, roots) {
            let j = choose|j: int|
                0 <= j < f.defs@.len() && names::def_fqn(f.path@, #[trigger] f.defs@[j]) == c.0
                    && e.marked(f.path@, f.defs@[j]) == Some(c.1);
            assert(some[n].defs@[j] == f.defs@[j]);
        } else {
            assert forall|i: int, j: int|
                0 <= i < some.len() && 0 <= j < some[i].defs@.len() && roots.contains(
                    names::def_fqn(some[i].path@, #[trigger] some[i].defs@[j]),
                ) implies e.marked(some[i].path@, some[i].defs@[j]) is None by {
                if i < n {
                    assert(less[i].defs@[j] == some[i].defs@[j]);
                } else {
                    assert(f.defs@[j] == some[i].defs@[j]);
                }
            }
        }
    }
}

proof fn lemma_first_entry(e: Entry, roots: Seq<Seq<char>>)
    ensures
        e.first_entry(roots) matches Some(n) ==> roots.contains(n) && e.entry_among(e.files, n),
        e.first_entry(roots) is None ==> forall|k: int|
            0 <= k < roots.len() ==> !e.entry_among(e.files, #[trigger] roots[k]),
    decreases roots.len(),
{
    if roots.len() > 0 {
        let less = roots.drop_last();
        lemma_first_entry(e, less);
        text::lemma_push_contains(less, roots.last());
        assert(roots =~= less.push(roots.last()));
        if e.first_entry(roots) is None {
            assert forall|k: int| 0 <= k < roots.len() implies !e.entry_among(
                e.files,
                #[trigger] roots[k],
            ) by {
                if k < less.len() {
                    assert(less[k] == roots[k]);
                }
            }
        }
    }
}

/// The callers of roots are said to be all that there are just where none of the roots is
/// entered without a call. Else one of the roots is named, with the reason.
pub proof fn law_caveat(e: Entry, roots: Seq<Seq<char>>)
    ensures
        e.caveat(roots) is None <==> {
            &&& forall|i: int, j: int|
                0 <= i < e.files.len() && 0 <= j < e.files[i].defs@.len() && roots.contains(
                    names::def_fqn(e.files[i].path@, #[trigger] e.files[i].defs@[j]),
                ) ==> e.marked(e.files[i].path@, e.files[i].defs@[j]) is None
            &&& forall|k: int|
                0 <= k < roots.len() ==> !e.entry_among(e.files, #[trigger] roots[k])
        },
        e.caveat(roots) matches Some(c) ==> {
            &&& roots.contains(c.0)
            &&& c.1 is Decorated || c.1 is FrameworkBase ==> exists|i: int, j: int|
                shows_why(e, i, j, c.0, c.1)
            &&& c.1 is FrameworkEntry ==> e.entry_among(e.files, c.0) || exists|i: int, j: int|
                shows_why(e, i, j, c.0, c.1)
        },
{
    lemma_caveat_among(e, e.files, roots);
    lemma_first_entry(e, roots);
    if let Some(c) = e.caveat_among(e.files, roots) {
        let (i, j) = choose|i: int, j: int|
            0 <= i < e.files.len() && 0 <= j < e.files[i].defs@.len() && names::def_fqn(
                e.files[i].path@,
                #[trigger] e.files[i].defs@[j],
            ) == c.0 && e.marked(e.files[i].path@, e.files[i].defs@[j]) == Some(c.1);
        assert(shows_why(e, i, j, c.0, c.1));
        if roots.len() > 0 {
            assert(e.caveat(roots) == Some(c));
        } else {
            assert(roots.contains(c.0));
        }
    } else if let Some(n) = e.first_entry(roots) {
        let k = choose|k: int| 0 <= k < roots.len() && roots[k] == n;
        assert(e.entry_among(e.files, roots[k]));
    }
}

/// A decorated definition, one in a file that a framework enters, and one inside a class that
/// a framework drives each show why they are entered without a call; the first of these
/// reasons counts, the decorator before the class before the file. No other does.
pub proof fn law_marks(e: Entry, path: Seq<char>, d: Def, k: int)
    ensures
        d.decorated ==> e.marked(path, d) == Some(DispatchKind::Decorated),
        !d.decorated && 1 <= k <= d.container@.len() && deadcode::managed(
            e.files,
            e.answers,
            names::fqn(path, text::views(d.container@).take(k)),
        ) ==> e.marked(path, d) == Some(DispatchKind::FrameworkBase),
        !d.decorated && d.kind is Class && deadcode::managed(
            e.files,
            e.answers,
            names::def_fqn(path, d),
        ) ==> e.marked(path, d) == Some(DispatchKind::FrameworkBase),
        deadcode::entrypoint_file(path) ==> e.marked(path, d) is Some,
        e.marked(path, d) == Some(DispatchKind::Decorated) ==> d.decorated,
        e.marked(path, d) == Some(DispatchKind::FrameworkEntry) ==> deadcode::entrypoint_file(path),
        e.marked(path, d) == Some(DispatchKind::FrameworkBase) ==> (d.kind is Class
            && deadcode::managed(e.files, e.answers, names::def_fqn(path, d))) || exists|m: int|
            1 <= m <= d.container@.len() && deadcode::managed(
                e.files,
                e.answers,
                names::fqn(path, #[trigger] text::views(d.container@).take(m)),
            ),
{
    let set = deadcode::managed_set(e.files, e.answers);
    let c = text::views(d.container@);
    if 1 <= k <= d.container@.len() && deadcode::managed(
        e.files,
        e.answers,
        names::fqn(path, c.take(k)),
    ) {
        assert(set.contains(names::fqn(path, c.take(k))));
        assert(deadcode::inside_class(path, c, set));
    }
    if deadcode::inside_class(path, c, set) {
        let m = choose|m: int|
            1 <= m <= c.len() && set.contains(names::fqn(path, #[trigger] c.take(m)));
        assert(deadcode::managed(e.files, e.answers, names::fqn(path, c.take(m))));
    }
}

proof fn lemma_entry_in(e: Entry, path: Seq<char>, defs: Seq<Def>, n: Seq<char>)
    ensures
        e.entry_in(path, defs, n) <==> exists|j: int|
            0 <= j < defs.len() && e.framework(path, #[trigger] defs[j]) && names::def_fqn(
                path,
                defs[j],
            ) == n,
    decreases defs.len(),
{
    if defs.len() > 0 {
        let less = defs.drop_last();
        lemma_entry_in(e, path, less, n);
        assert(defs[defs.len() - 1] == defs.last());
        if e.entry_in(path, less, n) {
            let j = choose|j: int|
                0 <= j < less.len() && e.framework(path, #[trigger] less[j]) && names::def_fqn(
                    path,
                    less[j],
                ) == n;
            assert(defs[j] == less[j]);
        }
        if exists|j: int|
            0 <= j < defs.len() && e.framework(path, #[trigger] defs[j]) && names::def_fqn(
                path,
                defs[j],
            ) == n {
            let j = choose|j: int|
                0 <= j < defs.len() && e.framework(path, #[trigger] defs[j]) && names::def_fqn(
                    path,
                    defs[j],
                ) == n;
            if j < less.len() {
                assert(less[j] == defs[j]);
            }
        }
    }
}

proof fn lemma_used_name_in(e: Entry, path: Seq<char>, refs: Seq<Ref>, n: Seq<char>, k: int)
    requires
        0 <= k < refs.len(),
        e.used(path, refs[k]) is Some,
        deadcode::owns(e.files, e.used(path, refs[k])->0, n),
    ensures
        e.used_name_in(path, refs, n),
    decreases refs.len(),
{
    if k < refs.len() - 1 {
        assert(refs.drop_last()[k] == refs[k]);
        lemma_used_name_in(e, path, refs.drop_last(), n, k);
    }
}

proof fn lemma_named_name_in(e: Entry, strings: Seq<String>, n: Seq<char>, k: int)
    requires
        0 <= k < strings.len(),
        deadcode::dotted_target(e.files, strings[k]@) is Some,
        deadcode::owns(e.files, deadcode::dotted_target(e.files, strings[k]@)->0, n),
    ensures
        e.named_name_in(strings, n),
    decreases strings.len(),
{
    if k < strings.len() - 1 {
        assert(strings.drop_last()[k] == strings[k]);
        lemma_named_name_in(e, strings.drop_last(), n, k);
    }
}

proof fn lemma_entry_among(e: Entry, some: Seq<FileIndex>, i: int, n: Seq<char>)
    requires
        0 <= i < some.len(),
        e.entry_in(some[i].path@, some[i].defs@, n) || e.used_name_in(
            some[i].path@,
            some[i].refs@,
            n,
        ) || e.named_name_in(some[i].dotted_strings@, n),
    ensures
        e.entry_among(some, n),
    decreases some.len(),
{
    if i < some.len() - 1 {
        assert(some.drop_last()[i] == some[i]);
        lemma_entry_among(e, some.drop_last(), i, n);
    }
}

/// A name is entered without a call where a definition of it is entered by a framework or by
/// convention, where a use outside every function means its callable, and where a dotted
/// string names its callable.
pub proof fn law_entered_names(e: Entry, i: int, k: int, n: Seq<char>)
    requires
        0 <= i < e.files.len(),
    ensures
        live_laws::callable_at(e, i, k) && names::def_fqn(e.files[i].path@, e.files[i].defs@[k])
            == n && (e.files[i].defs@[k].decorated || deadcode::dunder(e.files[i].defs@[k].name@)
            || deadcode::entrypoint_file(e.files[i].path@) || deadcode::console_entry(e.console, n))
            ==> e.entry_among(e.files, n),
        0 <= k < e.files[i].refs@.len() && e.used(e.files[i].path@, e.files[i].refs@[k]) is Some
            && deadcode::owns(e.files, e.used(e.files[i].path@, e.files[i].refs@[k])->0, n)
            ==> e.entry_among(e.files, n),
        0 <= k < e.files[i].dotted_strings@.len() && deadcode::dotted_target(
            e.files,
            e.files[i].dotted_strings@[k]@,
        ) is Some && deadcode::owns(
            e.files,
            deadcode::dotted_target(e.files, e.files[i].dotted_strings@[k]@)->0,
            n,
        ) ==> e.entry_among(e.files, n),
{
    let f = e.files[i];
    lemma_entry_in(e, f.path@, f.defs@, n);
    if live_laws::callable_at(e, i, k) && e.framework(f.path@, f.defs@[k]) && names::def_fqn(
        f.path@,
        f.defs@[k],
    ) == n {
        assert(e.entry_in(f.path@, f.defs@, n));
        lemma_entry_among(e, e.files, i, n);
    }
    if 0 <= k < f.refs@.len() && e.used(f.path@, f.refs@[k]) is Some && deadcode::owns(
        e.files,
        e.used(f.path@, f.refs@[k])->0,
        n,
    ) {
        lemma_used_name_in(e, f.path@, f.refs@, n, k);
        lemma_entry_among(e, e.files, i, n);
    }
    if 0 <= k < f.dotted_strings@.len() && deadcode::dotted_target(
        e.files,
        f.dotted_strings@[k]@,
    ) is Some && deadcode::owns(
        e.files,
        deadcode::dotted_target(e.files, f.dotted_strings@[k]@)->0,
        n,
    ) {
        lemma_named_name_in(e, f.dotted_strings@, n, k);
        lemma_entry_among(e, e.files, i, n);
    }
}

proof fn lemma_hits_from(bases: Seq<Seq<char>>, method: Seq<char>, key: Seq<char>, s: Spot, x: Spot)
    -> (i: int)
    requires
        deadcode::base_hits(bases, method, key, s).contains(x),
    ensures
        x == s,
        0 <= i < bases.len(),
        bases[i] + "."@ + method == key,
    decreases bases.len(),
{
    let less = bases.drop_last();
    text::lemma_push_contains(deadcode::base_hits(less, method, key, s), s);
    if bases.last() + "."@ + method == key {
        if deadcode::base_hits(less, method, key, s).contains(x) {
            lemma_hits_from(less, method, key, s, x)
        } else {
            bases.len() - 1
        }
    } else {
        lemma_hits_from(less, method, key, s, x)
    }
}

proof fn lemma_class_overrides_from(
    h: Hierarchy,
    t: Table<String, (String, u32)>,
    class: Seq<char>,
    methods: Seq<Seq<char>>,
    key: Seq<char>,
    x: Spot,
) -> (r: (int, Seq<char>))
    requires
        deadcode::class_overrides(h, t, class, methods, key).contains(x),
    ensures
        0 <= r.0 < methods.len(),
        deadcode::place_of(t, class + "."@ + methods[r.0]) == Some(x),
        h.supers_of(class).contains(r.1),
        text::views(h.methods.list(r.1)).contains(methods[r.0]),
        key == r.1 + "."@ + methods[r.0],
    decreases methods.len(),
{
    let less = methods.drop_last();
    let m = methods.last();
    let before = deadcode::class_overrides(h, t, class, less, key);
    if before.contains(x) {
        lemma_class_overrides_from(h, t, class, less, key, x)
    } else {
        let s = deadcode::place_of(t, class + "."@ + m)->0;
        let bases = hierarchy::with_member(h.methods, h.supers_of(class), m);
        lemma_in_either(before, deadcode::base_hits(bases, m, key, s), x);
        let i = lemma_hits_from(bases, m, key, s, x);
        assert(bases.contains(bases[i]));
        hierarchy::lemma_with_member(h.methods, h.supers_of(class), m, bases[i]);
        (methods.len() - 1, bases[i])
    }
}

proof fn lemma_overrides_from(
    files: Seq<FileIndex>,
    h: Hierarchy,
    t: Table<String, (String, u32)>,
    classes: Seq<Seq<char>>,
    key: Seq<char>,
    x: Spot,
) -> (r: (Seq<char>, Seq<char>, Seq<char>))
    requires
        deadcode::overrides_among(h, t, classes, key).contains(x),
        forall|n: Seq<char>| #[trigger]
            deadcode::place_of(t, n) == deadcode::anchor_of(files, n),
        forall|i: int| 0 <= i < classes.len() ==> h.anchor.keys().contains(#[trigger] classes[i]),
    ensures
        overrides_at(files, h, r.0, r.1, r.2, x),
        key == r.1 + "."@ + r.2,
    decreases classes.len(),
{
    let less = classes.drop_last();
    let c = classes.last();
    let methods = text::views(h.methods.list(c));
    lemma_in_either(
        deadcode::overrides_among(h, t, less, key),
        deadcode::class_overrides(h, t, c, methods, key),
        x,
    );
    if deadcode::overrides_among(h, t, less, key).contains(x) {
        assert forall|i: int| 0 <= i < less.len() implies h.anchor.keys().contains(
            #[trigger] less[i],
        ) by {
            assert(less[i] == classes[i]);
        }
        lemma_overrides_from(files, h, t, less, key, x)
    } else {
        let (k, base) = lemma_class_overrides_from(h, t, c, methods, key, x);
        assert(h.anchor.keys().contains(classes[classes.len() - 1]));
        assert(methods.contains(methods[k]));
        (c, base, methods[k])
    }
}

/// Whether a name is reached through another: it is called where one that is reached stands, or
/// it overrides a method that is reached.
pub open spec fn led_to(
    files: Seq<FileIndex>,
    a: Answers,
    names: Set<Seq<char>>,
    name: Seq<char>,
) -> bool {
    ||| exists|spot: Spot, from: Seq<char>|
        names.contains(from) && #[trigger] runs_at(files, a, spot, from, names) && called_at(
            files,
            a,
            spot,
            name,
        )
    ||| exists|h: Hierarchy, class: Seq<char>, base: Seq<char>, method: Seq<char>, spot: Spot|
        h.describes(files, a) && #[trigger] overrides_at(files, h, class, base, method, spot)
            && names.contains(base + "."@ + method) && callgraph::landing(files, spot) == name
}

proof fn lemma_reason(
    files: Seq<FileIndex>,
    a: Answers,
    h: Hierarchy,
    t: Table<String, (String, u32)>,
    extra: Table<String, Vec<(String, u32)>>,
    seeds: Seq<Spot>,
    names: Set<Seq<char>>,
    name: Seq<char>,
)
    requires
        h.describes(files, a),
        forall|n: Seq<char>| #[trigger]
            deadcode::place_of(t, n) == deadcode::anchor_of(files, n),
        deadcode::override_edges_are(h, t, extra),
        callgraph::reachable_is(files, a, extra, seeds, names),
        names.contains(name),
    ensures
        led_to(files, a, names, name) || exists|i: int|
            0 <= i < seeds.len() && callgraph::landing(files, #[trigger] seeds[i]) == name,
{
    law_reached_has_a_reason(files, a, extra, seeds, names, name);
    if !(exists|i: int|
        0 <= i < seeds.len() && callgraph::landing(files, #[trigger] seeds[i]) == name)
        && !(exists|spot: Spot, from: Seq<char>|
        names.contains(from) && #[trigger] runs_at(files, a, spot, from, names) && called_at(
            files,
            a,
            spot,
            name,
        )) {
        let (from, i) = choose|from: Seq<char>, i: int|
            names.contains(from) && 0 <= i < extra.list(from).len() && callgraph::landing(
                files,
                (#[trigger] extra.list(from)[i])@,
            ) == name;
        let there = sort::each(extra.list(from));
        assert(there == deadcode::overrides_among(h, t, h.anchor.keys(), from));
        let x: Spot = extra.list(from)[i]@;
        assert(there[i] == x);
        let keys = h.anchor.keys();
        assert forall|k: int| 0 <= k < keys.len() implies h.anchor.keys().contains(
            #[trigger] keys[k],
        ) by {}
        let (class, base, method) = lemma_overrides_from(files, h, t, keys, from, x);
        assert(overrides_at(files, h, class, base, method, x));
    }
}

/// Nothing is live without a reason: it is entered without a call, it is called where something
/// live stands, or it overrides a live method.
pub proof fn law_live_has_a_reason(e: Entry, live: Set<Seq<char>>, name: Seq<char>)
    requires
        deadcode::live_names(e, live),
        live.contains(name),
    ensures
        led_to(e.files, e.answers, live, name) || exists|i: int, k: int, s: Spot|
            #[trigger] live_laws::entered_at(e, i, k, s) && callgraph::landing(e.files, s) == name,
{
    let (h, t, extra, seeds) = choose|
        h: Hierarchy,
        t: Table<String, (String, u32)>,
        extra: Table<String, Vec<(String, u32)>>,
        seeds: Seq<Spot>,
    | #[trigger] deadcode::live_by(e, h, t, extra, seeds, live);
    lemma_reason(e.files, e.answers, h, t, extra, seeds, live, name);
    if !led_to(e.files, e.answers, live, name) {
        let i = choose|i: int|
            0 <= i < seeds.len() && callgraph::landing(e.files, #[trigger] seeds[i]) == name;
        assert(seeds.contains(seeds[i]));
        assert(e.seed_among(e.files, seeds[i]));
        let (p, k) = live_laws::law_nothing_else_starts_the_walk(e, seeds[i]);
        assert(live_laws::entered_at(e, p, k, seeds[i]));
    }
}

/// Nothing is reached by the tests without a reason: it is a test that is collected, it is
/// called where something stands that they reach, or it overrides a method that they reach.
pub proof fn law_reached_by_tests_has_a_reason(
    files: Seq<FileIndex>,
    a: Answers,
    reached: Set<Seq<char>>,
    name: Seq<char>,
)
    requires
        canonical::tests_reach(files, a, reached),
        reached.contains(name),
    ensures
        led_to(files, a, reached, name) || exists|i: int, j: int|
            0 <= i < files.len() && 0 <= j < files[i].defs@.len() && tests_map::collected_test(
                #[trigger] files[i].defs@[j],
                files[i].path@,
                tests_map::test_class_set(files),
            ) && callgraph::landing(files, (files[i].path@, files[i].defs@[j].offset)) == name,
{
    let (h, t, extra) = choose|
        h: Hierarchy,
        t: Table<String, (String, u32)>,
        extra: Table<String, Vec<(String, u32)>>,
    | #[trigger] canonical::tests_reach_by(files, a, h, t, extra, reached);
    let classes = tests_map::test_class_set(files);
    let seeds = canonical::test_spots(files, classes);
    lemma_reason(files, a, h, t, extra, seeds, reached, name);
    if !led_to(files, a, reached, name) {
        let k = choose|k: int|
            0 <= k < seeds.len() && callgraph::landing(files, #[trigger] seeds[k]) == name;
        let s = seeds[k];
        assert(seeds.contains(s));
        law_walk_starts_at_the_tests(files, classes, s);
        let (i, j) = choose|i: int, j: int|
            0 <= i < files.len() && 0 <= j < files[i].defs@.len() && tests_map::collected_test(
                #[trigger] files[i].defs@[j],
                files[i].path@,
                classes,
            ) && s == (files[i].path@, files[i].defs@[j].offset);
        assert(callgraph::landing(files, (files[i].path@, files[i].defs@[j].offset)) == name);
    }
}

} // verus!
