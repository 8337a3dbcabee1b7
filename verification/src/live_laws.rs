//! Which callables are never reported dead, and which always are.
use crate::callgraph::Spot;
use crate::callgraph;
use crate::deadcode::{Dead, DeadView, Entry};
use crate::deadcode;
use crate::entry_laws;
use crate::hierarchy;
use crate::model::{Def, FileIndex, Ref};
use crate::model;
use crate::name_laws;
use crate::names;
use crate::sort;
use crate::tests_map;
use crate::text;
use vstd::prelude::*;

verus! {

/// Whether `dead` is the report for a project of which `live` are the live names.
pub open spec fn reports(e: Entry, live: Set<Seq<char>>, dead: Seq<DeadView>) -> bool {
    let gone = deadcode::not_live(deadcode::callables(e.files), live);
    deadcode::live_names(e, live) && dead == sort::sorted::<Dead>(deadcode::standing(gone, gone))
}

/// Whether the project has a callable at an index, and none of the dead has its name.
pub open spec fn spared(e: Entry, dead: Seq<DeadView>, i: int, j: int) -> bool {
    forall|d: DeadView| #[trigger]
        dead.contains(d) ==> d.fqn != names::def_fqn(e.files[i].path@, e.files[i].defs@[j])
}

/// Whether the project has a callable at an index.
pub open spec fn callable_at(e: Entry, i: int, j: int) -> bool {
    0 <= i < e.files.len() && 0 <= j < e.files[i].defs@.len() && model::callable(
        e.files[i].defs@[j],
    )
}

proof fn lemma_root_in(e: Entry, f: FileIndex, defs: Seq<Def>, j: int)
    requires
        0 <= j < defs.len(),
        e.root(f, defs[j]),
    ensures
        e.root_in(f, defs, (f.path@, defs[j].offset)),
    decreases defs.len(),
{
    if j < defs.len() - 1 {
        assert(defs.drop_last()[j] == defs[j]);
        lemma_root_in(e, f, defs.drop_last(), j);
    }
}

proof fn lemma_seed_among(e: Entry, some: Seq<FileIndex>, i: int, s: callgraph::Spot)
    requires
        0 <= i < some.len(),
        e.root_in(some[i], some[i].defs@, s) || e.used_in(some[i].path@, some[i].refs@, s)
            || e.named_in(some[i].dotted_strings@, s),
    ensures
        e.seed_among(some, s),
    decreases some.len(),
{
    if i < some.len() - 1 {
        assert(some.drop_last()[i] == some[i]);
        lemma_seed_among(e, some.drop_last(), i, s);
    }
}

/// What stands where the walk for live code starts is not reported.
proof fn lemma_seed_spared(e: Entry, live: Set<Seq<char>>, dead: Seq<DeadView>, i: int, j: int)
    requires
        entry_laws::each_at_its_place(e.files),
        reports(e, live, dead),
        callable_at(e, i, j),
        e.seed_among(e.files, (e.files[i].path@, e.files[i].defs@[j].offset)),
    ensures
        spared(e, dead, i, j),
{
    let s = (e.files[i].path@, e.files[i].defs@[j].offset);
    let n = names::def_fqn(e.files[i].path@, e.files[i].defs@[j]);
    deadcode::law_entrypoints_are_live(e, live, s);
    assert(callgraph::landing(e.files, s) == n);
    assert forall|d: DeadView| #[trigger] dead.contains(d) implies d.fqn != n by {
        deadcode::law_reported_is_dead(e.files, live, dead, d);
    }
}

proof fn lemma_root_spared(e: Entry, live: Set<Seq<char>>, dead: Seq<DeadView>, i: int, j: int)
    requires
        entry_laws::each_at_its_place(e.files),
        reports(e, live, dead),
        callable_at(e, i, j),
        e.root(e.files[i], e.files[i].defs@[j]),
    ensures
        spared(e, dead, i, j),
{
    let f = e.files[i];
    lemma_root_in(e, f, f.defs@, j);
    lemma_seed_among(e, e.files, i, (f.path@, f.defs@[j].offset));
    lemma_seed_spared(e, live, dead, i, j);
}

/// Whether a name has two underscores at either end and something between them.
pub open spec fn runtime_name(s: Seq<char>) -> bool {
    &&& s.len() > 4
    &&& s[0] == '_' && s[1] == '_'
    &&& s[s.len() - 2] == '_' && s[s.len() - 1] == '_'
}

/// A name of the form `__name__` is called by the runtime: such a callable is never
/// reported dead. No name with other characters at its ends has that form.
pub proof fn law_runtime_names_are_never_dead(
    e: Entry,
    live: Set<Seq<char>>,
    dead: Seq<DeadView>,
    i: int,
    j: int,
)
    requires
        entry_laws::each_at_its_place(e.files),
        reports(e, live, dead),
        callable_at(e, i, j),
        runtime_name(e.files[i].defs@[j].name@),
    ensures
        spared(e, dead, i, j),
{
    lemma_dunder(e.files[i].defs@[j].name@);
    lemma_root_spared(e, live, dead, i, j);
}

/// A name is one of the runtime just where it has the form `__name__`.
pub proof fn lemma_dunder(s: Seq<char>)
    ensures
        deadcode::dunder(s) <==> runtime_name(s),
{
    reveal_strlit("__");
    if runtime_name(s) {
        assert(s.subrange(0, 2) =~= "__"@);
        assert(s.subrange(s.len() - 2, s.len() as int) =~= "__"@);
    }
    if deadcode::dunder(s) {
        assert(s.subrange(0, 2) == "__"@);
        assert(s.subrange(s.len() - 2, s.len() as int) == "__"@);
        assert(s.subrange(0, 2)[0] == s[0] && s.subrange(0, 2)[1] == s[1]);
        assert(s.subrange(s.len() - 2, s.len() as int)[0] == s[s.len() - 2]);
        assert(s.subrange(s.len() - 2, s.len() as int)[1] == s[s.len() - 1]);
        assert("__"@[0] == '_' && "__"@[1] == '_');
    }
}

/// A callable with a decorator is never reported dead.
pub proof fn law_decorated_is_never_dead(
    e: Entry,
    live: Set<Seq<char>>,
    dead: Seq<DeadView>,
    i: int,
    j: int,
)
    requires
        entry_laws::each_at_its_place(e.files),
        reports(e, live, dead),
        callable_at(e, i, j),
        e.files[i].defs@[j].decorated,
    ensures
        spared(e, dead, i, j),
{
    lemma_root_spared(e, live, dead, i, j);
}

/// What a console script names, by the full name or by the end of it after a dot, is
/// never reported dead.
pub proof fn law_console_scripts_are_never_dead(
    e: Entry,
    live: Set<Seq<char>>,
    dead: Seq<DeadView>,
    i: int,
    j: int,
    k: int,
)
    requires
        entry_laws::each_at_its_place(e.files),
        reports(e, live, dead),
        callable_at(e, i, j),
        0 <= k < e.console.len(),
        name_laws::ends_name(
            names::def_fqn(e.files[i].path@, e.files[i].defs@[j]),
            e.console[k],
        ),
    ensures
        spared(e, dead, i, j),
{
    let n = names::def_fqn(e.files[i].path@, e.files[i].defs@[j]);
    assert(deadcode::console_match(e.console[k], n));
    lemma_root_spared(e, live, dead, i, j);
}

/// What a module exports in `__all__` is never reported dead.
pub proof fn law_exports_are_never_dead(
    e: Entry,
    live: Set<Seq<char>>,
    dead: Seq<DeadView>,
    i: int,
    j: int,
    k: int,
)
    requires
        entry_laws::each_at_its_place(e.files),
        reports(e, live, dead),
        callable_at(e, i, j),
        e.files[i].defs@[j].container@.len() == 0,
        0 <= k < e.files[i].dunder_all@.len(),
        e.files[i].dunder_all@[k]@ == e.files[i].defs@[j].name@,
    ensures
        spared(e, dead, i, j),
{
    assert(text::views(e.files[i].dunder_all@)[k] == e.files[i].defs@[j].name@);
    lemma_root_spared(e, live, dead, i, j);
}

proof fn lemma_bound_in(defs: Seq<Def>, j: int)
    requires
        0 <= j < defs.len(),
    ensures
        deadcode::bound_in(defs, defs[j].name@),
    decreases defs.len(),
{
    if j < defs.len() - 1 {
        assert(defs.drop_last()[j] == defs[j]);
        lemma_bound_in(defs.drop_last(), j);
    }
}

proof fn lemma_bound(files: Seq<FileIndex>, i: int, j: int)
    requires
        0 <= i < files.len(),
        0 <= j < files[i].defs@.len(),
    ensures
        deadcode::bound(files, files[i].defs@[j].name@),
    decreases files.len(),
{
    if i < files.len() - 1 {
        assert(files.drop_last()[i] == files[i]);
        lemma_bound(files.drop_last(), i, j);
    } else {
        lemma_bound_in(files[i].defs@, j);
    }
}

proof fn lemma_used_in(e: Entry, path: Seq<char>, refs: Seq<model::Ref>, r: int, s: callgraph::Spot)
    requires
        0 <= r < refs.len(),
        e.used(path, refs[r]) == Some(s),
    ensures
        e.used_in(path, refs, s),
    decreases refs.len(),
{
    if r < refs.len() - 1 {
        assert(refs.drop_last()[r] == refs[r]);
        lemma_used_in(e, path, refs.drop_last(), r, s);
    }
}

/// What a use outside every function and class means is never reported dead, whatever
/// name of the project it is used under.
pub proof fn law_used_by_a_module_is_never_dead(
    e: Entry,
    live: Set<Seq<char>>,
    dead: Seq<DeadView>,
    i: int,
    j: int,
    f: int,
    r: int,
    g: int,
    b: int,
)
    requires
        entry_laws::each_at_its_place(e.files),
        reports(e, live, dead),
        callable_at(e, i, j),
        0 <= f < e.files.len(),
        0 <= r < e.files[f].refs@.len(),
        e.files[f].refs@[r].module_scope,
        0 <= g < e.files.len(),
        0 <= b < e.files[g].defs@.len(),
        e.files[g].defs@[b].name@ == e.files[f].refs@[r].name@,
        (e.answers.resolve)((e.files[f].path@, e.files[f].refs@[r].offset)) == Some(
            (e.files[i].path@, e.files[i].defs@[j].offset),
        ),
    ensures
        spared(e, dead, i, j),
{
    let s = (e.files[i].path@, e.files[i].defs@[j].offset);
    lemma_bound(e.files, g, b);
    lemma_used_in(e, e.files[f].path@, e.files[f].refs@, r, s);
    lemma_seed_among(e, e.files, f, s);
    lemma_seed_spared(e, live, dead, i, j);
}

proof fn lemma_named_in(e: Entry, strings: Seq<String>, k: int, s: callgraph::Spot)
    requires
        0 <= k < strings.len(),
        deadcode::dotted_target(e.files, strings[k]@) == Some(s),
    ensures
        e.named_in(strings, s),
    decreases strings.len(),
{
    if k < strings.len() - 1 {
        assert(strings.drop_last()[k] == strings[k]);
        lemma_named_in(e, strings.drop_last(), k, s);
    }
}

proof fn lemma_anchor_in(path: Seq<char>, defs: Seq<Def>, j: int)
    requires
        0 <= j < defs.len(),
        model::callable(defs[j]),
        forall|m: int|
            0 <= m < defs.len() && model::callable(#[trigger] defs[m]) && names::def_fqn(
                path,
                defs[m],
            ) == names::def_fqn(path, defs[j]) ==> defs[m].offset == defs[j].offset,
    ensures
        deadcode::anchor_in(path, defs, names::def_fqn(path, defs[j])) == Some(
            (path, defs[j].offset),
        ),
    decreases defs.len(),
{
    let less = defs.drop_last();
    let n = names::def_fqn(path, defs[j]);
    if j < less.len() {
        assert(less[j] == defs[j]);
        assert forall|m: int|
            0 <= m < less.len() && model::callable(#[trigger] less[m]) && names::def_fqn(
                path,
                less[m],
            ) == names::def_fqn(path, less[j]) implies less[m].offset == less[j].offset by {
            assert(less[m] == defs[m]);
        }
        lemma_anchor_in(path, less, j);
    } else if deadcode::anchor_in(path, less, n) is Some {
        let m = lemma_anchor_in_from(path, less, n);
        assert(defs[m] == less[m]);
    }
}

proof fn lemma_anchor_in_from(path: Seq<char>, defs: Seq<Def>, n: Seq<char>) -> (m: int)
    requires
        deadcode::anchor_in(path, defs, n) is Some,
    ensures
        0 <= m < defs.len(),
        model::callable(defs[m]),
        names::def_fqn(path, defs[m]) == n,
        deadcode::anchor_in(path, defs, n) == Some((path, defs[m].offset)),
    decreases defs.len(),
{
    if deadcode::anchor_in(path, defs.drop_last(), n) is Some {
        lemma_anchor_in_from(path, defs.drop_last(), n)
    } else {
        defs.len() - 1
    }
}

/// Whether the callable at an index is the only one of its name.
pub open spec fn only_of_its_name(files: Seq<FileIndex>, i: int, j: int) -> bool {
    forall|a: int, b: int|
        #![trigger files[a].defs@[b]]
        0 <= a < files.len() && 0 <= b < files[a].defs@.len() && model::callable(
            files[a].defs@[b],
        ) && names::def_fqn(files[a].path@, files[a].defs@[b]) == names::def_fqn(
            files[i].path@,
            files[i].defs@[j],
        ) ==> a == i && b == j
}

proof fn lemma_anchor_of(files: Seq<FileIndex>, i: int, j: int)
    requires
        0 <= i < files.len(),
        0 <= j < files[i].defs@.len(),
        model::callable(files[i].defs@[j]),
        only_of_its_name(files, i, j),
    ensures
        deadcode::anchor_of(files, names::def_fqn(files[i].path@, files[i].defs@[j])) == Some(
            (files[i].path@, files[i].defs@[j].offset),
        ),
    decreases files.len(),
{
    let less = files.drop_last();
    let n = names::def_fqn(files[i].path@, files[i].defs@[j]);
    if i < less.len() {
        assert(less[i] == files[i]);
        assert(only_of_its_name(less, i, j)) by {
            assert forall|a: int, b: int|
                #![trigger less[a].defs@[b]]
                0 <= a < less.len() && 0 <= b < less[a].defs@.len() && model::callable(
                    less[a].defs@[b],
                ) && names::def_fqn(less[a].path@, less[a].defs@[b]) == n implies a == i && b
                == j by {
                assert(files[a].defs@[b] == less[a].defs@[b]);
            }
        }
        lemma_anchor_of(less, i, j);
    } else {
        if deadcode::anchor_of(less, n) is Some {
            let (a, b) = lemma_anchor_of_from(less, n);
            assert(files[a].defs@[b] == less[a].defs@[b]);
        }
        let f = files[i];
        assert forall|m: int|
            0 <= m < f.defs@.len() && model::callable(#[trigger] f.defs@[m]) && names::def_fqn(
                f.path@,
                f.defs@[m],
            ) == names::def_fqn(f.path@, f.defs@[j]) implies f.defs@[m].offset
            == f.defs@[j].offset by {
            assert(files[i].defs@[m] == f.defs@[m]);
        }
        lemma_anchor_in(f.path@, f.defs@, j);
    }
}

proof fn lemma_anchor_of_from(files: Seq<FileIndex>, n: Seq<char>) -> (r: (int, int))
    requires
        deadcode::anchor_of(files, n) is Some,
    ensures
        0 <= r.0 < files.len(),
        0 <= r.1 < files[r.0].defs@.len(),
        model::callable(files[r.0].defs@[r.1]),
        names::def_fqn(files[r.0].path@, files[r.0].defs@[r.1]) == n,
    decreases files.len(),
{
    if deadcode::anchor_of(files.drop_last(), n) is Some {
        lemma_anchor_of_from(files.drop_last(), n)
    } else {
        let j = lemma_anchor_in_from(files.last().path@, files.last().defs@, n);
        (files.len() - 1, j)
    }
}

/// Where a character first stands in a text.
pub proof fn lemma_first_index(s: Seq<char>, c: char)
    ensures
        match text::first_index(s, c) {
            Some(i) => 0 <= i < s.len() && s[i] == c && forall|k: int|
                0 <= k < i ==> #[trigger] s[k] != c,
            None => forall|k: int| 0 <= k < s.len() ==> #[trigger] s[k] != c,
        },
    decreases s.len(),
{
    if s.len() > 0 {
        lemma_first_index(s.drop_last(), c);
        assert forall|k: int| 0 <= k < s.len() - 1 implies s.drop_last()[k] == #[trigger] s[k] by {}
    }
}

/// What a string of the project names in full is never reported dead, as `module.attr` or
/// as `module:attr`.
pub proof fn law_named_by_a_string_is_never_dead(
    e: Entry,
    live: Set<Seq<char>>,
    dead: Seq<DeadView>,
    i: int,
    j: int,
    f: int,
    k: int,
)
    requires
        entry_laws::each_at_its_place(e.files),
        reports(e, live, dead),
        callable_at(e, i, j),
        only_of_its_name(e.files, i, j),
        0 <= f < e.files.len(),
        0 <= k < e.files[f].dotted_strings@.len(),
        ({
            let n = names::def_fqn(e.files[i].path@, e.files[i].defs@[j]);
            let s = e.files[f].dotted_strings@[k]@;
            &&& forall|c: int| 0 <= c < n.len() ==> #[trigger] n[c] != ':'
            &&& s == n || exists|c: int|
                0 <= c < n.len() && n[c] == '.' && s == #[trigger] n.update(c, ':')
        }),
    ensures
        spared(e, dead, i, j),
{
    let n = names::def_fqn(e.files[i].path@, e.files[i].defs@[j]);
    let s = e.files[f].dotted_strings@[k]@;
    reveal_strlit(".");
    assert("."@ =~= seq!['.']);
    lemma_first_index(s, ':');
    assert(text::first_replaced(s, ':', "."@) == n) by {
        if s != n {
            let c = choose|c: int|
                0 <= c < n.len() && n[c] == '.' && s == #[trigger] n.update(c, ':');
            assert(s[c] == ':');
            let x = text::first_index(s, ':')->0;
            if x < c {
                assert(s[x] == n[x]);
            }
            assert(x == c);
            assert(s.take(c) + "."@ + s.skip(c + 1) =~= n);
        }
    }
    lemma_anchor_of(e.files, i, j);
    let at = (e.files[i].path@, e.files[i].defs@[j].offset);
    lemma_named_in(e, e.files[f].dotted_strings@, k, at);
    lemma_seed_among(e, e.files, f, at);
    lemma_seed_spared(e, live, dead, i, j);
}

/// Whether a file of the names on its path is entered by convention: by its own name, or
/// because it lies among migrations, settings, management commands or scripts.
pub open spec fn entered_by_place(parts: Seq<Seq<char>>) -> bool {
    ||| seq![
        "manage.py"@,
        "wsgi.py"@,
        "asgi.py"@,
        "conftest.py"@,
        "setup.py"@,
        "urls.py"@,
        "settings.py"@,
    ].contains(parts.last())
    ||| parts[0] == "scripts"@ || parts[0] == "bin"@
    ||| exists|k: int|
        0 <= k < parts.len() && (#[trigger] parts[k] == "migrations"@ || parts[k] == "settings"@
            || (parts[k] == "commands"@ && k > 0 && parts[k - 1] == "management"@))
}

/// A file is entered by convention just where its path says so.
pub proof fn law_entry_files(parts: Seq<Seq<char>>)
    requires
        parts.len() > 0,
        name_laws::path_names(parts),
        parts.last() != "."@,
        parts.last() != ".."@,
    ensures
        deadcode::entrypoint_file(text::join(parts, "/"@)) <==> entered_by_place(parts),
{
    let path = text::join(parts, "/"@);
    name_laws::law_base_name(parts);
    name_laws::law_path_parts(parts);
    let list = seq![
        "manage.py"@,
        "wsgi.py"@,
        "asgi.py"@,
        "conftest.py"@,
        "setup.py"@,
        "urls.py"@,
        "settings.py"@,
    ];
    assert(list[0] == "manage.py"@ && list[1] == "wsgi.py"@ && list[2] == "asgi.py"@);
    assert(list[3] == "conftest.py"@ && list[4] == "setup.py"@ && list[5] == "urls.py"@);
    assert(list[6] == "settings.py"@);
    if deadcode::follows(parts, "management"@, "commands"@) {
        let k = choose|k: int|
            0 <= k < parts.len() - 1 && #[trigger] parts[k] == "management"@ && parts[k + 1]
                == "commands"@;
        assert(parts[k + 1] == "commands"@ && parts[k + 1 - 1] == "management"@);
    }
    if parts.contains("migrations"@) {
        let k = choose|k: int| 0 <= k < parts.len() && parts[k] == "migrations"@;
        assert(parts[k] == "migrations"@);
    }
    if parts.contains("settings"@) {
        let k = choose|k: int| 0 <= k < parts.len() && parts[k] == "settings"@;
        assert(parts[k] == "settings"@);
    }
    assert forall|k: int|
        0 <= k < parts.len() && (#[trigger] parts[k] == "migrations"@ || parts[k] == "settings"@
            || (parts[k] == "commands"@ && k > 0 && parts[k - 1]
            == "management"@)) implies deadcode::entrypoint_file(path) by {
        if parts[k] == "commands"@ && k > 0 {
            let m = k - 1;
            assert(parts[m] == parts[k - 1] && parts[m + 1] == parts[k]);
        }
    }
}

/// A callable of a file that is entered by convention is never reported dead.
pub proof fn law_entry_files_are_never_dead(
    e: Entry,
    live: Set<Seq<char>>,
    dead: Seq<DeadView>,
    i: int,
    j: int,
    parts: Seq<Seq<char>>,
)
    requires
        entry_laws::each_at_its_place(e.files),
        reports(e, live, dead),
        callable_at(e, i, j),
        parts.len() > 0,
        name_laws::path_names(parts),
        parts.last() != "."@,
        parts.last() != ".."@,
        e.files[i].path@ == text::join(parts, "/"@),
        entered_by_place(parts),
    ensures
        spared(e, dead, i, j),
{
    law_entry_files(parts);
    lemma_root_spared(e, live, dead, i, j);
}

/// A definition that nothing marks is not entered: without a decorator, without the form
/// `__name__`, in a file that is not entered by convention, outside every class, no class
/// itself, and named by no console script.
pub proof fn law_nothing_else_is_entered(e: Entry, path: Seq<char>, d: Def)
    requires
        !d.decorated,
        !runtime_name(d.name@),
        !deadcode::entrypoint_file(path),
        d.kind is Function,
        d.container@.len() == 0,
        forall|k: int|
            0 <= k < e.console.len() ==> !name_laws::ends_name(
                names::def_fqn(path, d),
                #[trigger] e.console[k],
            ),
    ensures
        !e.framework(path, d),
{
    lemma_dunder(d.name@);
    let n = names::def_fqn(path, d);
    assert forall|k: int| 0 <= k < e.console.len() implies !deadcode::console_match(
        #[trigger] e.console[k],
        n,
    ) by {
        assert(!name_laws::ends_name(n, e.console[k]));
    }
}

/// Whether a scope is that of a class of a file, or lies in it at any depth.
pub open spec fn in_scope_of(f: FileIndex, c: int, j: int) -> bool {
    let class = text::views(f.defs@[c].container@).push(f.defs@[c].name@);
    let scope = text::views(f.defs@[j].container@);
    scope.len() >= class.len() && scope.take(class.len() as int) == class
}

proof fn lemma_in_managed(e: Entry, live: Set<Seq<char>>, dead: Seq<DeadView>, i: int, c: int, j: int)
    requires
        entry_laws::each_at_its_place(e.files),
        reports(e, live, dead),
        callable_at(e, i, j),
        callable_at(e, i, c),
        e.files[i].defs@[c].kind is Class,
        deadcode::managed(
            e.files,
            e.answers,
            names::def_fqn(e.files[i].path@, e.files[i].defs@[c]),
        ),
        j == c || in_scope_of(e.files[i], c, j),
    ensures
        spared(e, dead, i, j),
{
    let f = e.files[i];
    let set = deadcode::managed_set(e.files, e.answers);
    assert(set.contains(names::def_fqn(f.path@, f.defs@[c])));
    if j != c {
        let class = text::views(f.defs@[c].container@).push(f.defs@[c].name@);
        let scope = text::views(f.defs@[j].container@);
        assert(set.contains(names::fqn(f.path@, scope.take(class.len() as int))));
        assert(deadcode::inside_class(f.path@, scope, set));
    }
    lemma_root_spared(e, live, dead, i, j);
}

proof fn lemma_test_class_in(path: Seq<char>, defs: Seq<Def>, c: int)
    requires
        0 <= c < defs.len(),
        defs[c].kind is Class,
        tests_map::collected_class(defs[c]),
    ensures
        tests_map::test_class_in(path, defs, names::def_fqn(path, defs[c])),
    decreases defs.len(),
{
    if c < defs.len() - 1 {
        assert(defs.drop_last()[c] == defs[c]);
        lemma_test_class_in(path, defs.drop_last(), c);
    }
}

/// A class of tests in a test file is a test class of the project.
pub proof fn lemma_test_class(files: Seq<FileIndex>, i: int, c: int)
    requires
        0 <= i < files.len(),
        0 <= c < files[i].defs@.len(),
        files[i].defs@[c].kind is Class,
        tests_map::test_file(files[i].path@),
        tests_map::collected_class(files[i].defs@[c]),
    ensures
        tests_map::test_class(files, names::def_fqn(files[i].path@, files[i].defs@[c])),
    decreases files.len(),
{
    if i < files.len() - 1 {
        assert(files.drop_last()[i] == files[i]);
        lemma_test_class(files.drop_last(), i, c);
    } else {
        lemma_test_class_in(files[i].path@, files[i].defs@, c);
    }
}

/// Whether a class is one of tests: by its name, or because the last part of one of its
/// bases ends in `TestCase`.
pub open spec fn class_of_tests(d: Def) -> bool {
    ||| exists|t: Seq<char>| d.name@ == #[trigger] ("Test"@ + t)
    ||| exists|b: int, module: Seq<char>, own: Seq<char>|
        0 <= b < d.bases@.len() && (d.bases@[b]@ == own + "TestCase"@ || d.bases@[b]@ == module
            + "."@ + (own + "TestCase"@)) && #[trigger] base_shape(b, module, own)
}

/// Whether the last part of a base holds no dot.
pub open spec fn base_shape(b: int, module: Seq<char>, own: Seq<char>) -> bool {
    forall|k: int| 0 <= k < own.len() ==> #[trigger] own[k] != '.'
}

/// Where a character last stands in a text.
pub proof fn lemma_last_index(s: Seq<char>, c: char)
    ensures
        match text::last_index(s, c) {
            Some(i) => 0 <= i < s.len() && s[i] == c && forall|k: int|
                i < k < s.len() ==> #[trigger] s[k] != c,
            None => forall|k: int| 0 <= k < s.len() ==> #[trigger] s[k] != c,
        },
    decreases s.len(),
{
    if s.len() > 0 && s.last() != c {
        lemma_last_index(s.drop_last(), c);
        assert forall|k: int| 0 <= k < s.len() - 1 implies s.drop_last()[k] == #[trigger] s[k] by {}
    }
}

/// What stands after the last dot of a name is its last part.
pub proof fn law_last_part(module: Seq<char>, own: Seq<char>)
    requires
        forall|k: int| 0 <= k < own.len() ==> #[trigger] own[k] != '.',
    ensures
        text::leaf_name(own) == own,
        text::leaf_name(module + "."@ + own) == own,
        text::parent_name(own) is None,
        text::parent_name(module + "."@ + own) == Some(module),
{
    reveal_strlit(".");
    let s = module + "."@ + own;
    lemma_last_index(own, '.');
    lemma_last_index(s, '.');
    assert(s[module.len() as int] == '.');
    assert forall|k: int| module.len() < k < s.len() implies #[trigger] s[k] != '.' by {
        assert(s[k] == own[k - module.len() - 1]);
    }
    assert(s.skip((module.len() + 1) as int) =~= own);
    assert(s.take(module.len() as int) =~= module);
}

/// A class is collected just where it is one of tests.
pub proof fn law_classes_of_tests(d: Def)
    ensures
        tests_map::collected_class(d) <==> class_of_tests(d),
{
    reveal_strlit("Test");
    reveal_strlit("TestCase");
    if class_of_tests(d) {
        lemma_collected(d);
    }
    if text::starts(d.name@, "Test"@) {
        assert(d.name@ =~= "Test"@ + d.name@.skip(4)) by {
            assert(d.name@.subrange(0, 4) == "Test"@);
            assert(d.name@ =~= d.name@.subrange(0, 4) + d.name@.skip(4));
        }
    } else if tests_map::collected_class(d) {
        let b = choose|b: int|
            0 <= b < d.bases@.len() && tests_map::test_case((#[trigger] d.bases@[b])@);
        let base = d.bases@[b]@;
        let leaf = text::leaf_name(base);
        let own = leaf.take(leaf.len() - 8);
        lemma_last_index(base, '.');
        reveal_strlit(".");
        let tail = leaf.subrange(leaf.len() - 8, leaf.len() as int);
        assert(leaf =~= own + tail);
        match text::last_index(base, '.') {
            Some(x) => {
                let module = base.take(x);
                assert(base =~= module + "."@ + leaf);
                assert forall|k: int| 0 <= k < own.len() implies #[trigger] own[k] != '.' by {
                    assert(own[k] == base[x + 1 + k]);
                }
                assert(base_shape(b, module, own));
            },
            None => {
                assert forall|k: int| 0 <= k < own.len() implies #[trigger] own[k] != '.' by {
                    assert(own[k] == base[k]);
                }
                assert(base_shape(b, Seq::empty(), own));
            },
        }
    }
}

proof fn lemma_collected(d: Def)
    requires
        class_of_tests(d),
    ensures
        tests_map::collected_class(d),
{
    reveal_strlit("Test");
    reveal_strlit("TestCase");
    if exists|t: Seq<char>| d.name@ == #[trigger] ("Test"@ + t) {
        let t = choose|t: Seq<char>| d.name@ == #[trigger] ("Test"@ + t);
        assert(d.name@.subrange(0, 4) =~= "Test"@);
    } else {
        let (b, module, own) = choose|b: int, module: Seq<char>, own: Seq<char>|
            0 <= b < d.bases@.len() && (d.bases@[b]@ == own + "TestCase"@ || d.bases@[b]@ == module
                + "."@ + (own + "TestCase"@)) && #[trigger] base_shape(b, module, own);
        let leaf = own + "TestCase"@;
        assert forall|k: int| 0 <= k < leaf.len() implies #[trigger] leaf[k] != '.' by {
            if k < own.len() {
                assert(leaf[k] == own[k]);
            } else {
                assert(leaf[k] == "TestCase"@[k - own.len()]);
            }
        }
        law_last_part(module, leaf);
        assert(leaf.subrange(leaf.len() - 8, leaf.len() as int) =~= "TestCase"@);
        assert(tests_map::test_case(d.bases@[b]@));
    }
}

/// A class of tests in a test file is never reported dead, nor is anything in it: pytest
/// runs it, whatever the class is called.
pub proof fn law_test_classes_are_never_dead(
    e: Entry,
    live: Set<Seq<char>>,
    dead: Seq<DeadView>,
    i: int,
    c: int,
    j: int,
)
    requires
        entry_laws::each_at_its_place(e.files),
        reports(e, live, dead),
        callable_at(e, i, j),
        callable_at(e, i, c),
        e.files[i].defs@[c].kind is Class,
        tests_map::test_file(e.files[i].path@),
        class_of_tests(e.files[i].defs@[c]),
        j == c || in_scope_of(e.files[i], c, j),
    ensures
        spared(e, dead, i, j),
{
    law_classes_of_tests(e.files[i].defs@[c]);
    lemma_test_class(e.files, i, c);
    lemma_in_managed(e, live, dead, i, c, j);
}

/// Whether a base of a class is no class of the project.
pub open spec fn base_outside(e: Entry, spot: callgraph::Spot, k: int) -> bool {
    0 <= k < (e.answers.supertypes)(spot).len() && match (e.answers.supertypes)(spot)[k].anchor {
        Some(a) => hierarchy::class_name_at(e.files, a) is None,
        None => true,
    }
}

proof fn lemma_fewer(files: Seq<FileIndex>, s: Seq<callgraph::SuperView>, k: int)
    ensures
        hierarchy::project_bases(files, s).len() <= s.len(),
        0 <= k < s.len() && match s[k].anchor {
            Some(a) => hierarchy::class_name_at(files, a) is None,
            None => true,
        } ==> hierarchy::project_bases(files, s).len() < s.len(),
    decreases s.len(),
{
    if s.len() > 0 {
        if 0 <= k < s.len() - 1 {
            assert(s.drop_last()[k] == s[k]);
        }
        lemma_fewer(files, s.drop_last(), k);
    }
}

proof fn lemma_managed_in(e: Entry, path: Seq<char>, defs: Seq<Def>, c: int)
    requires
        0 <= c < defs.len(),
        defs[c].kind is Class,
        hierarchy::driven(e.files, e.answers, names::def_fqn(path, defs[c])),
    ensures
        deadcode::managed_in(e.files, e.answers, path, defs, names::def_fqn(path, defs[c])),
    decreases defs.len(),
{
    if c < defs.len() - 1 {
        assert(defs.drop_last()[c] == defs[c]);
        lemma_managed_in(e, path, defs.drop_last(), c);
    }
}

proof fn lemma_managed_among(e: Entry, some: Seq<FileIndex>, i: int, c: int)
    requires
        0 <= i < some.len(),
        0 <= c < some[i].defs@.len(),
        some[i].defs@[c].kind is Class,
        hierarchy::driven(
            e.files,
            e.answers,
            names::def_fqn(some[i].path@, some[i].defs@[c]),
        ),
    ensures
        deadcode::managed_among(
            e.files,
            e.answers,
            some,
            names::def_fqn(some[i].path@, some[i].defs@[c]),
        ),
    decreases some.len(),
{
    if i < some.len() - 1 {
        assert(some.drop_last()[i] == some[i]);
        lemma_managed_among(e, some.drop_last(), i, c);
    } else {
        lemma_managed_in(e, some[i].path@, some[i].defs@, c);
    }
}

/// A class that extends a base which is no class of the project is never reported dead, nor
/// is anything in it: a framework drives it. It is so of a base that stands for no class of
/// the project, and of one that nothing is known of.
pub proof fn law_framework_classes_are_never_dead(
    e: Entry,
    live: Set<Seq<char>>,
    dead: Seq<DeadView>,
    i: int,
    c: int,
    j: int,
    k: int,
)
    requires
        entry_laws::each_at_its_place(e.files),
        reports(e, live, dead),
        callable_at(e, i, j),
        callable_at(e, i, c),
        e.files[i].defs@[c].kind is Class,
        hierarchy::class_named(
            e.files,
            names::def_fqn(e.files[i].path@, e.files[i].defs@[c]),
        ) == Some((e.files[i].path@, e.files[i].defs@[c])),
        !text::views(e.files[i].defs@[c].bases@).contains("object"@),
        ({
            let d = e.files[i].defs@[c];
            let spot = (e.files[i].path@, d.offset);
            let known = (e.answers.supertypes)(spot).len();
            known < d.bases@.len() || (known == d.bases@.len() && base_outside(e, spot, k))
        }),
        j == c || in_scope_of(e.files[i], c, j),
    ensures
        spared(e, dead, i, j),
{
    let d = e.files[i].defs@[c];
    let spot = (e.files[i].path@, d.offset);
    lemma_fewer(e.files, (e.answers.supertypes)(spot), k);
    name_laws::lemma_except(text::views(d.bases@), "object"@);
    assert(hierarchy::extends_outside(e.files, e.answers, names::def_fqn(e.files[i].path@, d)));
    lemma_managed_among(e, e.files, i, c);
    lemma_in_managed(e, live, dead, i, c, j);
}

/// A test that pytest collects is never reported dead: a `test*` function of a test file.
pub proof fn law_tests_are_never_dead(
    e: Entry,
    live: Set<Seq<char>>,
    dead: Seq<DeadView>,
    i: int,
    j: int,
    rest: Seq<char>,
)
    requires
        entry_laws::each_at_its_place(e.files),
        reports(e, live, dead),
        callable_at(e, i, j),
        e.files[i].defs@[j].kind is Function,
        e.files[i].defs@[j].container@.len() == 0,
        tests_map::test_file(e.files[i].path@),
        e.files[i].defs@[j].name@ == "test"@ + rest,
    ensures
        spared(e, dead, i, j),
{
    reveal_strlit("test");
    assert(e.files[i].defs@[j].name@.subrange(0, 4) =~= "test"@);
    lemma_root_spared(e, live, dead, i, j);
}

proof fn lemma_callables_in(path: Seq<char>, defs: Seq<Def>, j: int)
    requires
        0 <= j < defs.len(),
        model::callable(defs[j]),
    ensures
        deadcode::callables_in(path, defs).contains(
            (DeadView {
                path,
                line: defs[j].pos.line,
                col: defs[j].pos.col,
                fqn: names::def_fqn(path, defs[j]),
                kind: deadcode::kind_name(defs[j]),
            }),
        ),
    decreases defs.len(),
{
    let d = defs.last();
    let before = deadcode::callables_in(path, defs.drop_last());
    text::lemma_push_contains(
        before,
        DeadView {
            path,
            line: d.pos.line,
            col: d.pos.col,
            fqn: names::def_fqn(path, d),
            kind: deadcode::kind_name(d),
        },
    );
    if j < defs.len() - 1 {
        assert(defs.drop_last()[j] == defs[j]);
        lemma_callables_in(path, defs.drop_last(), j);
    }
}

proof fn lemma_callables(files: Seq<FileIndex>, i: int, x: DeadView)
    requires
        0 <= i < files.len(),
        deadcode::callables_in(files[i].path@, files[i].defs@).contains(x),
    ensures
        deadcode::callables(files).contains(x),
    decreases files.len(),
{
    let before = deadcode::callables(files.drop_last());
    let here = deadcode::callables_in(files.last().path@, files.last().defs@);
    if i < files.len() - 1 {
        assert(files.drop_last()[i] == files[i]);
        lemma_callables(files.drop_last(), i, x);
        let k = choose|k: int| 0 <= k < before.len() && before[k] == x;
        assert((before + here)[k] == x);
    } else {
        let k = choose|k: int| 0 <= k < here.len() && here[k] == x;
        assert((before + here)[before.len() + k] == x);
    }
}

proof fn lemma_not_live(all: Seq<DeadView>, live: Set<Seq<char>>, x: DeadView)
    requires
        all.contains(x),
        !live.contains(x.fqn),
    ensures
        deadcode::not_live(all, live).contains(x),
    decreases all.len(),
{
    let less = all.drop_last();
    text::lemma_push_contains(deadcode::not_live(less, live), all.last());
    if all.last() != x {
        let k = choose|k: int| 0 <= k < all.len() && all[k] == x;
        assert(less[k] == x);
        lemma_not_live(less, live, x);
    }
}

proof fn lemma_standing(gone: Seq<DeadView>, some: Seq<DeadView>, x: DeadView)
    requires
        some.contains(x),
        !deadcode::subsumed(gone, x),
    ensures
        deadcode::standing(gone, some).contains(x),
    decreases some.len(),
{
    let less = some.drop_last();
    text::lemma_push_contains(deadcode::standing(gone, less), some.last());
    if some.last() != x {
        let k = choose|k: int| 0 <= k < some.len() && some[k] == x;
        assert(less[k] == x);
        lemma_standing(gone, less, x);
    }
}

/// A function or class outside every scope that is not live is reported dead, at its place
/// and under its name. One inside a scope is too, unless that scope's name is not live
/// either and it stands for it.
pub proof fn law_what_is_not_live_is_reported(
    e: Entry,
    live: Set<Seq<char>>,
    dead: Seq<DeadView>,
    i: int,
    j: int,
)
    requires
        reports(e, live, dead),
        callable_at(e, i, j),
        !live.contains(names::def_fqn(e.files[i].path@, e.files[i].defs@[j])),
        e.files[i].defs@[j].kind is Function && e.files[i].defs@[j].container@.len() > 0
            ==> live.contains(names::fqn(e.files[i].path@, text::views(e.files[i].defs@[j].container@))),
        name_laws::plain(e.files[i].defs@[j].name@),
    ensures
        exists|m: int|
            0 <= m < dead.len() && ({
                let d = e.files[i].defs@[j];
                &&& (#[trigger] dead[m]).path == e.files[i].path@
                &&& dead[m].line == d.pos.line
                &&& dead[m].col == d.pos.col
                &&& dead[m].fqn == names::def_fqn(e.files[i].path@, d)
            }),
{
    let f = e.files[i];
    let d = f.defs@[j];
    let x = DeadView {
        path: f.path@,
        line: d.pos.line,
        col: d.pos.col,
        fqn: names::def_fqn(f.path@, d),
        kind: deadcode::kind_name(d),
    };
    lemma_callables_in(f.path@, f.defs@, j);
    lemma_callables(e.files, i, x);
    let all = deadcode::callables(e.files);
    let gone = deadcode::not_live(all, live);
    lemma_not_live(all, live, x);
    reveal_strlit("method");
    reveal_strlit("class");
    reveal_strlit("function");
    assert(!deadcode::subsumed(gone, x)) by {
        if x.kind == "method"@ {
            assert("class"@.len() == 5 && "function"@.len() == 8);
            let scope = text::views(d.container@);
            lemma_parent(f.path@, scope, d.name@);
            let p = names::fqn(f.path@, scope);
            if deadcode::is_dead(gone, p) {
                let m = choose|m: int| 0 <= m < gone.len() && (#[trigger] gone[m]).fqn == p;
                assert(gone.contains(gone[m]));
                lemma_gone(all, live, gone[m]);
            }
        }
    }
    lemma_standing(gone, gone, x);
    sort::lemma_sorted_contains::<Dead>(deadcode::standing(gone, gone), x);
    let m = choose|m: int| 0 <= m < dead.len() && dead[m] == x;
    assert(dead[m].fqn == x.fqn);
}

proof fn lemma_gone(all: Seq<DeadView>, live: Set<Seq<char>>, x: DeadView)
    requires
        deadcode::not_live(all, live).contains(x),
    ensures
        !live.contains(x.fqn),
    decreases all.len(),
{
    if all.len() > 0 {
        let less = all.drop_last();
        text::lemma_push_contains(deadcode::not_live(less, live), all.last());
        if deadcode::not_live(less, live).contains(x) {
            lemma_gone(less, live, x);
        }
    }
}

/// What stands before the last dot of the full name of a definition is the full name of
/// the scope around it.
pub proof fn lemma_parent(path: Seq<char>, scope: Seq<Seq<char>>, name: Seq<char>)
    requires
        name_laws::plain(name),
        scope.len() > 0,
    ensures
        text::parent_name(names::fqn(path, scope.push(name))) == Some(names::fqn(path, scope)),
        text::leaf_name(names::fqn(path, scope.push(name))) == name,
{
    let all = names::components(path) + scope.push(name);
    assert(all.drop_last() =~= names::components(path) + scope);
    assert(all.len() > 1);
    assert(names::fqn(path, scope.push(name)) =~= names::fqn(path, scope) + "."@ + name);
    law_last_part(names::fqn(path, scope), name);
}

/// What stands after the last dot of the full name of a definition is its own name.
pub proof fn lemma_own_part(path: Seq<char>, scope: Seq<Seq<char>>, name: Seq<char>)
    requires
        name_laws::plain(name),
    ensures
        text::leaf_name(names::fqn(path, scope.push(name))) == name,
{
    let all = names::components(path) + scope.push(name);
    let head = names::components(path) + scope;
    assert(all.drop_last() =~= head);
    assert(all.last() == name);
    law_last_part(text::join(head, "."@), name);
    if all.len() > 1 {
        assert(text::join(all, "."@) =~= text::join(head, "."@) + "."@ + name);
    } else {
        assert(all[0] == name);
    }
}

proof fn lemma_root_from(e: Entry, f: FileIndex, defs: Seq<Def>, s: Spot) -> (j: int)
    requires
        e.root_in(f, defs, s),
    ensures
        0 <= j < defs.len(),
        e.root(f, defs[j]),
        s == (f.path@, defs[j].offset),
    decreases defs.len(),
{
    if e.root_in(f, defs.drop_last(), s) {
        lemma_root_from(e, f, defs.drop_last(), s)
    } else {
        defs.len() - 1
    }
}

proof fn lemma_used_from(e: Entry, path: Seq<char>, refs: Seq<Ref>, s: Spot) -> (k: int)
    requires
        e.used_in(path, refs, s),
    ensures
        0 <= k < refs.len(),
        e.used(path, refs[k]) == Some(s),
    decreases refs.len(),
{
    if e.used_in(path, refs.drop_last(), s) {
        lemma_used_from(e, path, refs.drop_last(), s)
    } else {
        refs.len() - 1
    }
}

proof fn lemma_named_from(e: Entry, strings: Seq<String>, s: Spot) -> (k: int)
    requires
        e.named_in(strings, s),
    ensures
        0 <= k < strings.len(),
        deadcode::dotted_target(e.files, strings[k]@) == Some(s),
    decreases strings.len(),
{
    if e.named_in(strings.drop_last(), s) {
        lemma_named_from(e, strings.drop_last(), s)
    } else {
        strings.len() - 1
    }
}

/// Whether the callable at a spot is entered: it is entered by a framework, by convention, as
/// a test or as an export, or a use outside every function and class means it, or a dotted
/// string names it.
pub open spec fn entered_at(e: Entry, i: int, k: int, s: Spot) -> bool {
    0 <= i < e.files.len() && {
        ||| callable_at(e, i, k) && s == (e.files[i].path@, e.files[i].defs@[k].offset) && e.root(
            e.files[i],
            e.files[i].defs@[k],
        )
        ||| 0 <= k < e.files[i].refs@.len() && e.files[i].refs@[k].module_scope && (
        e.answers.resolve)((e.files[i].path@, e.files[i].refs@[k].offset)) == Some(s)
        ||| 0 <= k < e.files[i].dotted_strings@.len() && deadcode::dotted_target(
            e.files,
            e.files[i].dotted_strings@[k]@,
        ) == Some(s)
    }
}

proof fn lemma_seed_from(e: Entry, some: Seq<FileIndex>, s: Spot) -> (r: (int, int))
    requires
        e.seed_among(some, s),
        some.len() <= e.files.len(),
        forall|i: int| 0 <= i < some.len() ==> #[trigger] some[i] == e.files[i],
    ensures
        entered_at(e, r.0, r.1, s),
    decreases some.len(),
{
    let less = some.drop_last();
    let n = some.len() - 1;
    let f = some[n];
    assert(f == e.files[n]);
    if e.seed_among(less, s) {
        assert forall|i: int| 0 <= i < less.len() implies #[trigger] less[i] == e.files[i] by {
            assert(less[i] == some[i]);
        }
        lemma_seed_from(e, less, s)
    } else if e.root_in(f, f.defs@, s) {
        (n, lemma_root_from(e, f, f.defs@, s))
    } else if e.used_in(f.path@, f.refs@, s) {
        (n, lemma_used_from(e, f.path@, f.refs@, s))
    } else {
        (n, lemma_named_from(e, f.dotted_strings@, s))
    }
}

/// The walk to what is live starts only at what is entered: a use inside a function or class
/// enters nothing by itself.
pub proof fn law_nothing_else_starts_the_walk(e: Entry, s: Spot) -> (r: (int, int))
    requires
        e.seed_among(e.files, s),
    ensures
        entered_at(e, r.0, r.1, s),
{
    lemma_seed_from(e, e.files, s)
}

/// A dotted string names a callable by its whole name. By the end of its name it names the one
/// callable that ends so, where none has the string for a name and no other ends so.
pub proof fn law_dotted_string_names(files: Seq<FileIndex>, s: Seq<char>, m: Seq<char>)
    requires
        !s.contains(':'),
    ensures
        deadcode::anchor_of(files, s) is Some ==> deadcode::dotted_target(files, s)
            == deadcode::anchor_of(files, s),
        deadcode::anchor_of(files, s) is None && deadcode::anchor_of(files, m) is Some
            && text::ends(m, "."@ + s) && (forall|o: Seq<char>| #[trigger]
            deadcode::anchor_of(files, o) is Some && text::ends(o, "."@ + s) ==> o == m)
            ==> deadcode::dotted_target(files, s) == deadcode::anchor_of(files, m),
        deadcode::anchor_of(files, s) is None && (forall|o: Seq<char>| #[trigger]
            deadcode::anchor_of(files, o) is Some ==> !text::ends(o, "."@ + s))
            ==> deadcode::dotted_target(files, s) is None,
{
    lemma_first_index(s, ':');
    assert(text::first_replaced(s, ':', "."@) == s);
    if deadcode::anchor_of(files, s) is None && deadcode::anchor_of(files, m) is Some
        && text::ends(m, "."@ + s) && (forall|o: Seq<char>| #[trigger]
        deadcode::anchor_of(files, o) is Some && text::ends(o, "."@ + s) ==> o == m) {
        assert(deadcode::only_callable(files, "."@ + s, m));
        let c = choose|c: Seq<char>| deadcode::only_callable(files, "."@ + s, c);
        assert(c == m);
    }
}

/// A string of the form `module:name` names what `module.name` does.
pub proof fn law_colon_counts_as_a_dot(files: Seq<FileIndex>, a: Seq<char>, b: Seq<char>)
    requires
        !a.contains(':'),
        !b.contains(':'),
    ensures
        deadcode::dotted_target(files, a.push(':') + b) == deadcode::dotted_target(
            files,
            a + "."@ + b,
        ),
{
    reveal_strlit(".");
    let s = a.push(':') + b;
    let t = a + "."@ + b;
    lemma_first_index(s, ':');
    lemma_first_index(t, ':');
    assert(s[a.len() as int] == ':');
    assert(s.contains(':'));
    let i = text::first_index(s, ':')->0;
    assert(i == a.len()) by {
        if i < a.len() {
            assert(a[i] == s[i]);
            assert(a.contains(':'));
        }
    }
    assert(s.take(i) =~= a);
    assert(s.skip(i + 1) =~= b);
    assert(!t.contains(':')) by {
        if t.contains(':') {
            let k = choose|k: int| 0 <= k < t.len() && t[k] == ':';
            if k < a.len() {
                assert(a[k] == ':');
            } else if k > a.len() {
                assert(b[k - a.len() - 1] == ':');
            }
        }
    }
    assert(text::first_replaced(s, ':', "."@) =~= t);
    assert(text::first_replaced(t, ':', "."@) == t);
}

proof fn lemma_first_in(path: Seq<char>, defs: Seq<Def>, name: Seq<char>)
    ensures
        deadcode::anchor_in(path, defs, name) matches Some(s) ==> exists|j: int|
            0 <= j < defs.len() && model::callable(#[trigger] defs[j]) && names::def_fqn(
                path,
                defs[j],
            ) == name && s == (path, defs[j].offset) && forall|o: int|
                0 <= o < j && model::callable(#[trigger] defs[o]) ==> names::def_fqn(path, defs[o])
                    != name,
        deadcode::anchor_in(path, defs, name) is None ==> forall|o: int|
            0 <= o < defs.len() && model::callable(#[trigger] defs[o]) ==> names::def_fqn(
                path,
                defs[o],
            ) != name,
    decreases defs.len(),
{
    if defs.len() > 0 {
        let less = defs.drop_last();
        let n = defs.len() - 1;
        lemma_first_in(path, less, name);
        assert(defs[n] == defs.last());
        assert forall|o: int| 0 <= o < less.len() implies #[trigger] defs[o] == less[o] by {}
        if let Some(s) = deadcode::anchor_in(path, less, name) {
            let j = choose|j: int|
                0 <= j < less.len() && model::callable(#[trigger] less[j]) && names::def_fqn(
                    path,
                    less[j],
                ) == name && s == (path, less[j].offset) && forall|o: int|
                    0 <= o < j && model::callable(#[trigger] less[o]) ==> names::def_fqn(
                        path,
                        less[o],
                    ) != name;
            assert(defs[j] == less[j]);
            assert forall|o: int| 0 <= o < j && model::callable(#[trigger] defs[o]) implies
                names::def_fqn(path, defs[o]) != name by {
                assert(less[o] == defs[o]);
            }
        }
    }
}

/// A name stands for the first function or class that has it; where none has it, for nothing.
pub proof fn law_name_stands_for_the_first(files: Seq<FileIndex>, name: Seq<char>)
    ensures
        deadcode::anchor_of(files, name) matches Some(s) ==> exists|i: int, j: int|
            first_of(files, name, i, j) && s == (
                #[trigger] files[i].path@,
                (#[trigger] files[i].defs@[j]).offset,
            ),
        deadcode::anchor_of(files, name) is None ==> forall|p: int, o: int|
            0 <= p < files.len() && 0 <= o < files[p].defs@.len() && model::callable(
                #[trigger] files[p].defs@[o],
            ) ==> names::def_fqn(files[p].path@, files[p].defs@[o]) != name,
    decreases files.len(),
{
    if files.len() > 0 {
        let less = files.drop_last();
        let f = files.last();
        let n = files.len() - 1;
        law_name_stands_for_the_first(less, name);
        lemma_first_in(f.path@, f.defs@, name);
        assert(files[n] == f);
        assert forall|p: int, o: int|
            0 <= p < n && 0 <= o < files[p].defs@.len() implies #[trigger] files[p].defs@[o]
            == less[p].defs@[o] by {}
        if let Some(s) = deadcode::anchor_of(less, name) {
            let (i, j) = choose|i: int, j: int|
                first_of(less, name, i, j) && s == (
                    #[trigger] less[i].path@,
                    (#[trigger] less[i].defs@[j]).offset,
                );
            assert forall|p: int, o: int|
                0 <= p <= i && 0 <= o < files[p].defs@.len() && (p < i || o < j)
                    && model::callable(#[trigger] files[p].defs@[o]) implies names::def_fqn(
                files[p].path@,
                files[p].defs@[o],
            ) != name by {
                assert(less[p].defs@[o] == files[p].defs@[o]);
            }
            assert(first_of(files, name, i, j));
            assert(s == (files[i].path@, files[i].defs@[j].offset));
        } else if let Some(s) = deadcode::anchor_in(f.path@, f.defs@, name) {
            let j = choose|j: int|
                0 <= j < f.defs@.len() && model::callable(#[trigger] f.defs@[j]) && names::def_fqn(
                    f.path@,
                    f.defs@[j],
                ) == name && s == (f.path@, f.defs@[j].offset) && forall|o: int|
                    0 <= o < j && model::callable(#[trigger] f.defs@[o]) ==> names::def_fqn(
                        f.path@,
                        f.defs@[o],
                    ) != name;
            assert forall|p: int, o: int|
                0 <= p <= n && 0 <= o < files[p].defs@.len() && (p < n || o < j)
                    && model::callable(#[trigger] files[p].defs@[o]) implies names::def_fqn(
                files[p].path@,
                files[p].defs@[o],
            ) != name by {
                if p < n {
                    assert(less[p].defs@[o] == files[p].defs@[o]);
                } else {
                    assert(f.defs@[o] == files[p].defs@[o]);
                }
            }
            assert(first_of(files, name, n, j));
            assert(s == (files[n].path@, files[n].defs@[j].offset));
        }
    }
}

/// Whether the definition at an index is the first function or class of a name.
pub open spec fn first_of(files: Seq<FileIndex>, name: Seq<char>, i: int, j: int) -> bool {
    &&& 0 <= i < files.len()
    &&& 0 <= j < files[i].defs@.len()
    &&& model::callable(files[i].defs@[j])
    &&& names::def_fqn(files[i].path@, files[i].defs@[j]) == name
    &&& forall|p: int, o: int|
        0 <= p <= i && 0 <= o < files[p].defs@.len() && (p < i || o < j) && model::callable(
            #[trigger] files[p].defs@[o],
        ) ==> names::def_fqn(files[p].path@, files[p].defs@[o]) != name
}

proof fn lemma_bound_among(defs: Seq<Def>, name: Seq<char>)
    ensures
        deadcode::bound_in(defs, name) <==> exists|j: int|
            0 <= j < defs.len() && (#[trigger] defs[j]).name@ == name,
    decreases defs.len(),
{
    if defs.len() > 0 {
        let less = defs.drop_last();
        lemma_bound_among(less, name);
        assert(defs[defs.len() - 1] == defs.last());
        if deadcode::bound_in(less, name) {
            let j = choose|j: int| 0 <= j < less.len() && (#[trigger] less[j]).name@ == name;
            assert(defs[j] == less[j]);
        }
        if exists|j: int| 0 <= j < defs.len() && (#[trigger] defs[j]).name@ == name {
            let j = choose|j: int| 0 <= j < defs.len() && (#[trigger] defs[j]).name@ == name;
            if j < less.len() {
                assert(less[j] == defs[j]);
            }
        }
    }
}

/// The names that are looked at are those that some file binds.
pub proof fn law_bound_names(files: Seq<FileIndex>, name: Seq<char>)
    ensures
        deadcode::bound(files, name) <==> exists|i: int, j: int|
            0 <= i < files.len() && 0 <= j < files[i].defs@.len() && (
            #[trigger] files[i].defs@[j]).name@ == name,
    decreases files.len(),
{
    if files.len() > 0 {
        let less = files.drop_last();
        let f = files.last();
        let n = files.len() - 1;
        law_bound_names(less, name);
        lemma_bound_among(f.defs@, name);
        assert(files[n] == f);
        if deadcode::bound(less, name) {
            let (i, j) = choose|i: int, j: int|
                0 <= i < less.len() && 0 <= j < less[i].defs@.len() && (
                #[trigger] less[i].defs@[j]).name@ == name;
            assert(files[i].defs@[j] == less[i].defs@[j]);
        }
        if deadcode::bound_in(f.defs@, name) {
            let j = choose|j: int| 0 <= j < f.defs@.len() && (#[trigger] f.defs@[j]).name@ == name;
            assert(files[n].defs@[j] == f.defs@[j]);
        }
        if exists|i: int, j: int|
            0 <= i < files.len() && 0 <= j < files[i].defs@.len() && (
            #[trigger] files[i].defs@[j]).name@ == name {
            let (i, j) = choose|i: int, j: int|
                0 <= i < files.len() && 0 <= j < files[i].defs@.len() && (
                #[trigger] files[i].defs@[j]).name@ == name;
            if i < n {
                assert(less[i].defs@[j] == files[i].defs@[j]);
            } else {
                assert(f.defs@[j] == files[i].defs@[j]);
            }
        }
    }
}

} // verus!
