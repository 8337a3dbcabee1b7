//! What holds of the callables that a framework or the runtime enters.
use crate::callgraph::{Answers, Spot, SuperView};
use crate::callgraph;
use crate::deadcode::{Dead, DeadView, Entry};
use crate::deadcode;
use crate::hierarchy;
use crate::model::{Def, FileIndex};
use crate::model;
use crate::names;
use crate::sort;
use crate::tests_map;
use crate::text;
use vstd::prelude::*;

verus! {

/// Whether no callable stands where another is defined under another name: each is what
/// the project has at its place.
pub open spec fn each_at_its_place(files: Seq<FileIndex>) -> bool {
    forall|i: int, j: int|
        #![trigger files[i].defs@[j]]
        0 <= i < files.len() && 0 <= j < files[i].defs@.len() && model::callable(files[i].defs@[j])
            ==> callgraph::name_at(files, (files[i].path@, files[i].defs@[j].offset)) == Some(
            names::def_fqn(files[i].path@, files[i].defs@[j]),
        )
}

/// Where a callable of a name is first defined in a file is one of its definitions.
proof fn lemma_anchor_in(path: Seq<char>, defs: Seq<Def>, name: Seq<char>) -> (j: int)
    requires
        deadcode::anchor_in(path, defs, name) is Some,
    ensures
        0 <= j < defs.len(),
        model::callable(defs[j]),
        names::def_fqn(path, defs[j]) == name,
        deadcode::anchor_in(path, defs, name) == Some((path, defs[j].offset)),
    decreases defs.len(),
{
    if deadcode::anchor_in(path, defs.drop_last(), name) is Some {
        lemma_anchor_in(path, defs.drop_last(), name)
    } else {
        defs.len() - 1
    }
}

/// Where the files first define a callable of a name is one of their definitions.
proof fn lemma_anchor_of(files: Seq<FileIndex>, name: Seq<char>) -> (r: (int, int))
    requires
        deadcode::anchor_of(files, name) is Some,
    ensures
        0 <= r.0 < files.len(),
        0 <= r.1 < files[r.0].defs@.len(),
        model::callable(files[r.0].defs@[r.1]),
        names::def_fqn(files[r.0].path@, files[r.0].defs@[r.1]) == name,
        deadcode::anchor_of(files, name) == Some(
            (files[r.0].path@, files[r.0].defs@[r.1].offset),
        ),
    decreases files.len(),
{
    if deadcode::anchor_of(files.drop_last(), name) is Some {
        lemma_anchor_of(files.drop_last(), name)
    } else {
        let j = lemma_anchor_in(files.last().path@, files.last().defs@, name);
        (files.len() - 1, j)
    }
}

/// The owner of a place is what the project has there.
proof fn lemma_owner(files: Seq<FileIndex>, s: Spot, n: Seq<char>)
    requires
        each_at_its_place(files),
        deadcode::owns(files, s, n),
    ensures
        callgraph::landing(files, s) == n,
{
    let (i, j) = lemma_anchor_of(files, n);
    let d = files[i].defs@[j];
    assert(callgraph::name_at(files, (files[i].path@, d.offset)) == Some(n));
}

/// A definition that is entered is a seed, and what the project has at its place.
proof fn lemma_entry_in(e: Entry, i: int, defs: Seq<Def>, n: Seq<char>) -> (s: Spot)
    requires
        each_at_its_place(e.files),
        0 <= i < e.files.len(),
        defs.len() <= e.files[i].defs@.len(),
        e.files[i].defs@.take(defs.len() as int) == defs,
        e.entry_in(e.files[i].path@, defs, n),
    ensures
        e.root_in(e.files[i], defs, s),
        callgraph::landing(e.files, s) == n,
    decreases defs.len(),
{
    let f = e.files[i];
    let d = defs.last();
    let less = defs.drop_last();
    assert(f.defs@.take(less.len() as int) =~= less) by {
        assert(f.defs@.take(defs.len() as int).take(less.len() as int) =~= less);
    }
    if e.framework(f.path@, d) && names::def_fqn(f.path@, d) == n {
        let j = defs.len() - 1;
        assert(f.defs@.take(defs.len() as int)[j] == f.defs@[j]);
        assert(e.files[i].defs@[j] == d);
        (f.path@, d.offset)
    } else {
        lemma_entry_in(e, i, less, n)
    }
}

/// A use at module scope that means the owner of a name is a seed.
proof fn lemma_used_name(e: Entry, path: Seq<char>, refs: Seq<model::Ref>, n: Seq<char>) -> (s: Spot)
    requires
        each_at_its_place(e.files),
        e.used_name_in(path, refs, n),
    ensures
        e.used_in(path, refs, s),
        callgraph::landing(e.files, s) == n,
    decreases refs.len(),
{
    let u = e.used(path, refs.last());
    if u is Some && deadcode::owns(e.files, u->0, n) {
        lemma_owner(e.files, u->0, n);
        u->0
    } else {
        lemma_used_name(e, path, refs.drop_last(), n)
    }
}

/// A dotted string that names the owner of a name is a seed.
proof fn lemma_named_name(e: Entry, strings: Seq<String>, n: Seq<char>) -> (s: Spot)
    requires
        each_at_its_place(e.files),
        e.named_name_in(strings, n),
    ensures
        e.named_in(strings, s),
        callgraph::landing(e.files, s) == n,
    decreases strings.len(),
{
    let u = deadcode::dotted_target(e.files, strings.last()@);
    if u is Some && deadcode::owns(e.files, u->0, n) {
        lemma_owner(e.files, u->0, n);
        u->0
    } else {
        lemma_named_name(e, strings.drop_last(), n)
    }
}

/// A callable that is entered is where the walk for live code starts.
proof fn lemma_entry_seeds(e: Entry, k: int, n: Seq<char>) -> (s: Spot)
    requires
        each_at_its_place(e.files),
        0 <= k <= e.files.len(),
        e.entry_among(e.files.take(k), n),
    ensures
        e.seed_among(e.files.take(k), s),
        callgraph::landing(e.files, s) == n,
    decreases k,
{
    let some = e.files.take(k);
    let f = some.last();
    assert(f == e.files[k - 1]);
    assert(some.drop_last() =~= e.files.take(k - 1));
    if e.entry_in(f.path@, f.defs@, n) {
        text::lemma_take_all(f.defs@);
        lemma_entry_in(e, k - 1, f.defs@, n)
    } else if e.used_name_in(f.path@, f.refs@, n) {
        lemma_used_name(e, f.path@, f.refs@, n)
    } else if e.named_name_in(f.dotted_strings@, n) {
        lemma_named_name(e, f.dotted_strings@, n)
    } else {
        lemma_entry_seeds(e, k - 1, n)
    }
}

/// What a framework or the runtime enters is live, and is not reported dead.
pub proof fn law_entered_is_not_dead(
    e: Entry,
    live: Set<Seq<char>>,
    dead: Seq<DeadView>,
    n: Seq<char>,
)
    requires
        each_at_its_place(e.files),
        deadcode::live_names(e, live),
        dead == sort::sorted::<Dead>(
            deadcode::standing(
                deadcode::not_live(deadcode::callables(e.files), live),
                deadcode::not_live(deadcode::callables(e.files), live),
            ),
        ),
        e.entry_among(e.files, n),
    ensures
        live.contains(n),
        forall|d: DeadView| #[trigger] dead.contains(d) ==> d.fqn != n,
{
    text::lemma_take_all(e.files);
    let s = lemma_entry_seeds(e, e.files.len() as int, n);
    deadcode::law_entrypoints_are_live(e, live, s);
    assert forall|d: DeadView| #[trigger] dead.contains(d) implies d.fqn != n by {
        deadcode::law_reported_is_dead(e.files, live, dead, d);
    }
}

/// A callable with a decorator is entered.
pub proof fn law_decorated_is_entered(e: Entry, i: int, j: int)
    requires
        0 <= i < e.files.len(),
        0 <= j < e.files[i].defs@.len(),
        model::callable(e.files[i].defs@[j]),
        e.files[i].defs@[j].decorated,
    ensures
        e.entry_among(e.files, names::def_fqn(e.files[i].path@, e.files[i].defs@[j])),
{
    let f = e.files[i];
    lemma_decorated_in(e, f.path@, f.defs@, j);
    lemma_entry_file(e, e.files, i, names::def_fqn(f.path@, f.defs@[j]));
}

proof fn lemma_decorated_in(e: Entry, path: Seq<char>, defs: Seq<Def>, j: int)
    requires
        0 <= j < defs.len(),
        model::callable(defs[j]),
        defs[j].decorated,
    ensures
        e.entry_in(path, defs, names::def_fqn(path, defs[j])),
    decreases defs.len(),
{
    if j < defs.len() - 1 {
        lemma_decorated_in(e, path, defs.drop_last(), j);
    }
}

proof fn lemma_entry_file(e: Entry, some: Seq<FileIndex>, i: int, n: Seq<char>)
    requires
        0 <= i < some.len(),
        e.entry_in(some[i].path@, some[i].defs@, n),
    ensures
        e.entry_among(some, n),
    decreases some.len(),
{
    if i < some.len() - 1 {
        lemma_entry_file(e, some.drop_last(), i, n);
    }
}

/// Whether files have the same paths, definitions, uses and dotted strings. They may
/// export other names.
pub open spec fn alike(files: Seq<FileIndex>, others: Seq<FileIndex>) -> bool {
    &&& files.len() == others.len()
    &&& forall|i: int|
        0 <= i < files.len() ==> {
            &&& (#[trigger] files[i]).path@ == others[i].path@
            &&& files[i].defs@ == others[i].defs@
            &&& files[i].refs@ == others[i].refs@
            &&& files[i].dotted_strings@ == others[i].dotted_strings@
        }
}

proof fn lemma_less_alike(files: Seq<FileIndex>, others: Seq<FileIndex>)
    requires
        alike(files, others),
        files.len() > 0,
    ensures
        alike(files.drop_last(), others.drop_last()),
        files.last().path@ == others.last().path@,
        files.last().defs@ == others.last().defs@,
        files.last().refs@ == others.last().refs@,
        files.last().dotted_strings@ == others.last().dotted_strings@,
{
    assert(files[files.len() - 1].path@ == others[files.len() - 1].path@);
    assert forall|i: int| 0 <= i < files.len() - 1 implies {
        &&& (#[trigger] files.drop_last()[i]).path@ == others.drop_last()[i].path@
        &&& files.drop_last()[i].defs@ == others.drop_last()[i].defs@
        &&& files.drop_last()[i].refs@ == others.drop_last()[i].refs@
        &&& files.drop_last()[i].dotted_strings@ == others.drop_last()[i].dotted_strings@
    } by {
        assert(files.drop_last()[i] == files[i]);
    }
}

proof fn lemma_alike_classes(files: Seq<FileIndex>, others: Seq<FileIndex>, name: Seq<char>, s: Spot)
    requires
        alike(files, others),
    ensures
        hierarchy::class_named(files, name) == hierarchy::class_named(others, name),
        hierarchy::class_name_at(files, s) == hierarchy::class_name_at(others, s),
        tests_map::test_class(files, name) == tests_map::test_class(others, name),
        deadcode::bound(files, name) == deadcode::bound(others, name),
        deadcode::anchor_of(files, name) == deadcode::anchor_of(others, name),
    decreases files.len(),
{
    if files.len() > 0 {
        lemma_less_alike(files, others);
        lemma_alike_classes(files.drop_last(), others.drop_last(), name, s);
    }
}

proof fn lemma_alike_bases(files: Seq<FileIndex>, others: Seq<FileIndex>, s: Seq<SuperView>)
    requires
        alike(files, others),
    ensures
        hierarchy::project_bases(files, s) == hierarchy::project_bases(others, s),
    decreases s.len(),
{
    if s.len() > 0 {
        lemma_alike_bases(files, others, s.drop_last());
        if let Some(a) = s.last().anchor {
            lemma_alike_classes(files, others, Seq::empty(), a);
        }
    }
}

proof fn lemma_alike_class(files: Seq<FileIndex>, others: Seq<FileIndex>, a: Answers, name: Seq<char>)
    requires
        alike(files, others),
    ensures
        hierarchy::direct_bases(files, a, name) == hierarchy::direct_bases(others, a, name),
        hierarchy::extends_outside(files, a, name) == hierarchy::extends_outside(others, a, name),
{
    lemma_alike_classes(files, others, name, (Seq::empty(), 0));
    if let Some((path, d)) = hierarchy::class_named(files, name) {
        lemma_alike_bases(files, others, (a.supertypes)((path, d.offset)));
    }
}

proof fn lemma_alike_ancestry(
    files: Seq<FileIndex>,
    others: Seq<FileIndex>,
    a: Answers,
    p: Seq<Seq<char>>,
)
    requires
        alike(files, others),
    ensures
        hierarchy::ancestry(files, a, p) == hierarchy::ancestry(others, a, p),
{
    assert forall|i: int| 0 <= i < p.len() implies hierarchy::direct_bases(
        files,
        a,
        #[trigger] p[i],
    ) == hierarchy::direct_bases(others, a, p[i]) by {
        lemma_alike_class(files, others, a, p[i]);
    }
}

proof fn lemma_alike_inherits(
    files: Seq<FileIndex>,
    others: Seq<FileIndex>,
    a: Answers,
    class: Seq<char>,
    base: Seq<char>,
)
    requires
        alike(files, others),
    ensures
        hierarchy::inherits(files, a, class, base) == hierarchy::inherits(others, a, class, base),
{
    assert forall|p: Seq<Seq<char>>| #[trigger] hierarchy::ancestry(files, a, p)
        == hierarchy::ancestry(others, a, p) by {
        lemma_alike_ancestry(files, others, a, p);
    }
    assert forall|p: Seq<Seq<char>>| #[trigger] hierarchy::ancestry(others, a, p)
        == hierarchy::ancestry(files, a, p) by {
        lemma_alike_ancestry(files, others, a, p);
    }
}

proof fn lemma_alike_driven(
    files: Seq<FileIndex>,
    others: Seq<FileIndex>,
    a: Answers,
    class: Seq<char>,
)
    requires
        alike(files, others),
    ensures
        hierarchy::driven(files, a, class) == hierarchy::driven(others, a, class),
{
    lemma_alike_class(files, others, a, class);
    assert forall|b: Seq<char>| #[trigger] hierarchy::inherits(files, a, class, b)
        == hierarchy::inherits(others, a, class, b) && hierarchy::extends_outside(files, a, b)
        == hierarchy::extends_outside(others, a, b) by {
        lemma_alike_inherits(files, others, a, class, b);
        lemma_alike_class(files, others, a, b);
    }
    if hierarchy::driven(others, a, class) && !hierarchy::extends_outside(others, a, class) {
        let b = choose|b: Seq<char>| #[trigger]
            hierarchy::inherits(others, a, class, b) && hierarchy::extends_outside(others, a, b);
        assert(hierarchy::inherits(files, a, class, b));
    }
}

proof fn lemma_alike_managed_in(
    files: Seq<FileIndex>,
    others: Seq<FileIndex>,
    a: Answers,
    path: Seq<char>,
    defs: Seq<Def>,
    name: Seq<char>,
)
    requires
        alike(files, others),
    ensures
        deadcode::managed_in(files, a, path, defs, name) == deadcode::managed_in(
            others,
            a,
            path,
            defs,
            name,
        ),
    decreases defs.len(),
{
    if defs.len() > 0 {
        lemma_alike_managed_in(files, others, a, path, defs.drop_last(), name);
        lemma_alike_driven(files, others, a, name);
    }
}

proof fn lemma_alike_managed(
    files: Seq<FileIndex>,
    others: Seq<FileIndex>,
    a: Answers,
    some: Seq<FileIndex>,
    more: Seq<FileIndex>,
    name: Seq<char>,
)
    requires
        alike(files, others),
        alike(some, more),
    ensures
        deadcode::managed_among(files, a, some, name) == deadcode::managed_among(
            others,
            a,
            more,
            name,
        ),
    decreases some.len(),
{
    if some.len() > 0 {
        lemma_less_alike(some, more);
        lemma_alike_managed(files, others, a, some.drop_last(), more.drop_last(), name);
        lemma_alike_managed_in(files, others, a, some.last().path@, some.last().defs@, name);
    }
}

proof fn lemma_alike_set(files: Seq<FileIndex>, others: Seq<FileIndex>, a: Answers)
    requires
        alike(files, others),
    ensures
        deadcode::managed_set(files, a) == deadcode::managed_set(others, a),
{
    assert forall|n: Seq<char>| deadcode::managed_set(files, a).contains(n)
        == deadcode::managed_set(others, a).contains(n) by {
        lemma_alike_classes(files, others, n, (Seq::empty(), 0));
        lemma_alike_managed(files, others, a, files, others, n);
    }
    assert(deadcode::managed_set(files, a) =~= deadcode::managed_set(others, a));
}

proof fn lemma_alike_owner(files: Seq<FileIndex>, others: Seq<FileIndex>, s: Spot, n: Seq<char>)
    requires
        alike(files, others),
    ensures
        deadcode::owns(files, s, n) == deadcode::owns(others, s, n),
{
    assert forall|m: Seq<char>| #[trigger] deadcode::anchor_of(files, m) == deadcode::anchor_of(
        others,
        m,
    ) by {
        lemma_alike_classes(files, others, m, s);
    }
    assert forall|m: Seq<char>| #[trigger] deadcode::anchor_of(others, m) == deadcode::anchor_of(
        files,
        m,
    ) by {
        lemma_alike_classes(files, others, m, s);
    }
}

proof fn lemma_alike_target(files: Seq<FileIndex>, others: Seq<FileIndex>, t: Seq<char>)
    requires
        alike(files, others),
    ensures
        deadcode::dotted_target(files, t) == deadcode::dotted_target(others, t),
{
    let name = text::first_replaced(t, ':', "."@);
    let suffix = "."@ + name;
    assert forall|m: Seq<char>| #[trigger] deadcode::anchor_of(files, m) == deadcode::anchor_of(
        others,
        m,
    ) by {
        lemma_alike_classes(files, others, m, (Seq::empty(), 0));
    }
    assert forall|m: Seq<char>| #[trigger] deadcode::anchor_of(others, m) == deadcode::anchor_of(
        files,
        m,
    ) by {
        lemma_alike_classes(files, others, m, (Seq::empty(), 0));
    }
    assert forall|m: Seq<char>| #[trigger] deadcode::only_callable(files, suffix, m)
        == deadcode::only_callable(others, suffix, m) by {}
    if exists|m: Seq<char>| deadcode::only_callable(files, suffix, m) {
        let m = choose|m: Seq<char>| deadcode::only_callable(files, suffix, m);
        assert(deadcode::only_callable(others, suffix, m));
        let o = choose|o: Seq<char>| deadcode::only_callable(others, suffix, o);
        assert(deadcode::only_callable(files, suffix, o));
        assert(deadcode::anchor_of(files, o) is Some && text::ends(o, suffix));
        assert(o == m);
    } else if exists|m: Seq<char>| deadcode::only_callable(others, suffix, m) {
        let m = choose|m: Seq<char>| deadcode::only_callable(others, suffix, m);
        assert(deadcode::only_callable(files, suffix, m));
    }
}

proof fn lemma_alike_entry_in(e: Entry, o: Entry, path: Seq<char>, defs: Seq<Def>, n: Seq<char>)
    requires
        alike(e.files, o.files),
        e.answers == o.answers,
        e.console == o.console,
    ensures
        e.entry_in(path, defs, n) == o.entry_in(path, defs, n),
    decreases defs.len(),
{
    if defs.len() > 0 {
        lemma_alike_entry_in(e, o, path, defs.drop_last(), n);
        lemma_alike_set(e.files, o.files, e.answers);
    }
}

proof fn lemma_alike_used(e: Entry, o: Entry, path: Seq<char>, refs: Seq<model::Ref>, n: Seq<char>)
    requires
        alike(e.files, o.files),
        e.answers == o.answers,
        e.console == o.console,
    ensures
        e.used_name_in(path, refs, n) == o.used_name_in(path, refs, n),
    decreases refs.len(),
{
    if refs.len() > 0 {
        lemma_alike_used(e, o, path, refs.drop_last(), n);
        lemma_alike_classes(e.files, o.files, refs.last().name@, (Seq::empty(), 0));
        if let Some(s) = e.used(path, refs.last()) {
            lemma_alike_owner(e.files, o.files, s, n);
        }
    }
}

proof fn lemma_alike_named(e: Entry, o: Entry, strings: Seq<String>, n: Seq<char>)
    requires
        alike(e.files, o.files),
        e.answers == o.answers,
        e.console == o.console,
    ensures
        e.named_name_in(strings, n) == o.named_name_in(strings, n),
    decreases strings.len(),
{
    if strings.len() > 0 {
        lemma_alike_named(e, o, strings.drop_last(), n);
        lemma_alike_target(e.files, o.files, strings.last()@);
        if let Some(s) = deadcode::dotted_target(e.files, strings.last()@) {
            lemma_alike_owner(e.files, o.files, s, n);
        }
    }
}

proof fn lemma_alike_among(
    e: Entry,
    o: Entry,
    some: Seq<FileIndex>,
    more: Seq<FileIndex>,
    n: Seq<char>,
)
    requires
        alike(e.files, o.files),
        e.answers == o.answers,
        e.console == o.console,
        alike(some, more),
    ensures
        e.entry_among(some, n) == o.entry_among(more, n),
    decreases some.len(),
{
    if some.len() > 0 {
        lemma_less_alike(some, more);
        let f = some.last();
        lemma_alike_among(e, o, some.drop_last(), more.drop_last(), n);
        lemma_alike_entry_in(e, o, f.path@, f.defs@, n);
        lemma_alike_used(e, o, f.path@, f.refs@, n);
        lemma_alike_named(e, o, f.dotted_strings@, n);
    }
}

/// What `__all__` exports enters nothing: files that differ in no more than that have
/// the same entered callables.
pub proof fn law_exports_enter_nothing(e: Entry, o: Entry, n: Seq<char>)
    requires
        alike(e.files, o.files),
        e.answers == o.answers,
        e.console == o.console,
    ensures
        e.entry_among(e.files, n) == o.entry_among(o.files, n),
{
    lemma_alike_among(e, o, e.files, o.files, n);
}

} // verus!
