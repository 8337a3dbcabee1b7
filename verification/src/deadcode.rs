//! Functions and classes that no entrypoint reaches.
//!
//! Everything reachable from the entrypoints is live; what is left is reported.
//! Entrypoints are what the runtime or a framework may enter without a call in
//! the project: tests, dunder methods, decorated callables, exports, names used
//! at module scope, entrypoint files, classes that extend a base outside the
//! project, console scripts, and callables that a dotted string names.
use crate::callgraph::{Answers, CallGraph, CallGraphTy, Spot};
use crate::callgraph;
use crate::closure_laws;
use crate::hierarchy::Hierarchy;
use crate::hierarchy;
use crate::model::{is_callable, Def, DefKind, FileIndex, Ref};
use crate::model;
use crate::names::{fqn_of, scope_fqn};
use crate::names;
use crate::sort::{sort, Ranked};
use crate::sort;
use crate::table::{Key, Table};
use crate::table;
use crate::tests_map::{is_collected_test_def, test_class_fqns};
use crate::tests_map;
use crate::text::{base_name_of, cat, cat3, ends_with, listed, parent_of, same, split_on, starts_with, text_before};
use crate::text;
use vstd::prelude::*;

verus! {

/// A callable that no entrypoint reaches.
pub struct Dead {
    pub path: String,
    pub line: usize,
    pub col: usize,
    pub fqn: String,
    pub kind: &'static str,
}

/// What a dead callable is, with texts in place of strings.
#[verifier::ext_equal]
pub struct DeadView {
    pub path: Seq<char>,
    pub line: usize,
    pub col: usize,
    pub fqn: Seq<char>,
    pub kind: Seq<char>,
}

impl View for Dead {
    type V = DeadView;

    open spec fn view(&self) -> DeadView {
        DeadView {
            path: self.path@,
            line: self.line,
            col: self.col,
            fqn: self.fqn@,
            kind: self.kind@,
        }
    }
}

/// Dead callables are ordered by where they stand.
impl Ranked for Dead {
    open spec fn precedes(a: DeadView, b: DeadView) -> bool {
        text::text_lt(a.path, b.path) || (a.path == b.path && (a.line < b.line || (a.line == b.line
            && a.col < b.col)))
    }

    fn is_before(&self, other: &Self) -> (r: bool) {
        text_before(self.path.as_str(), other.path.as_str()) || (same(
            self.path.as_str(),
            other.path.as_str(),
        ) && (self.line < other.line || (self.line == other.line && self.col < other.col)))
    }

    proof fn precedes_is_an_order(a: DeadView, b: DeadView, c: DeadView) {
        crate::callgraph::lemma_text_weak(a.path, b.path, c.path);
        String::less_is_a_total_order(a.path, b.path, c.path);
        String::less_is_a_total_order(b.path, c.path, a.path);
        String::less_is_a_total_order(a.path, c.path, b.path);
    }
}

/// The dead callables, and how many callables there are.
pub struct DeadCode {
    pub dead: Vec<Dead>,
    pub total: usize,
}

/// Whether a name is of the form `__name__`.
pub open spec fn dunder(name: Seq<char>) -> bool {
    text::starts(name, "__"@) && text::ends(name, "__"@) && name.len() > 4
}

/// Whether a name is of the form `__name__`.
pub fn is_dunder(name: &str) -> (r: bool)
    ensures
        r == dunder(name@),
{
    starts_with(name, "__") && ends_with(name, "__") && name.unicode_len() > 4
}

/// Whether `b` follows `a` somewhere in a path.
pub open spec fn follows(parts: Seq<Seq<char>>, a: Seq<char>, b: Seq<char>) -> bool {
    exists|i: int| 0 <= i < parts.len() - 1 && #[trigger] parts[i] == a && parts[i + 1] == b
}

/// Whether `b` follows `a` somewhere in a path.
fn windowed_contains(comps: &Vec<String>, a: &str, b: &str) -> (r: bool)
    ensures
        r == follows(text::views(comps@), a@, b@),
{
    let ghost parts = text::views(comps@);
    if comps.len() == 0 {
        return false;
    }
    let mut i: usize = 0;
    while i < comps.len() - 1
        invariant
            comps@.len() > 0,
            i <= comps@.len() - 1,
            parts == text::views(comps@),
            forall|k: int| 0 <= k < i ==> !(#[trigger] parts[k] == a@ && parts[k + 1] == b@),
        decreases comps@.len() - i,
    {
        if same(comps[i].as_str(), a) && same(comps[i + 1].as_str(), b) {
            assert(parts[i as int] == a@ && parts[i + 1] == b@);
            return true;
        }
        i = i + 1;
    }
    false
}

/// The components of a path.
pub open spec fn path_parts(path: Seq<char>) -> Seq<Seq<char>> {
    text::split(path, "/\\"@)
}

/// Whether every callable of a file is entered by convention.
pub open spec fn entrypoint_file(path: Seq<char>) -> bool {
    let base = text::base_name(path);
    let parts = path_parts(path);
    ||| base == "manage.py"@ || base == "wsgi.py"@ || base == "asgi.py"@ || base == "conftest.py"@
        || base == "setup.py"@ || base == "urls.py"@ || base == "settings.py"@
    ||| parts.contains("migrations"@)
    ||| parts.contains("settings"@)
    ||| follows(parts, "management"@, "commands"@)
    ||| parts[0] == "scripts"@
    ||| parts[0] == "bin"@
}

/// Whether every callable of a file is entered by convention: by its name, or
/// because it is a migration, a settings module, a management command or a
/// script.
pub fn is_entrypoint_file(path: &str) -> (r: bool)
    ensures
        r == entrypoint_file(path@),
{
    let base = base_name_of(path);
    let comps = split_on(path, "/\\");
    proof {
        text::lemma_split_nonempty(path@, "/\\"@);
        assert(text::views(comps@).len() == comps@.len());
    }
    let b = base.as_str();
    let named = same(b, "manage.py") || same(b, "wsgi.py") || same(b, "asgi.py") || same(
        b,
        "conftest.py",
    ) || same(b, "setup.py") || same(b, "urls.py") || same(b, "settings.py");
    named || listed("migrations", &comps) || listed("settings", &comps) || windowed_contains(
        &comps,
        "management",
        "commands",
    ) || same(comps[0].as_str(), "scripts") || same(comps[0].as_str(), "bin")
}

/// Whether a file is meant to be run on its own.
pub open spec fn script_file(path: Seq<char>, has_main_guard: bool) -> bool {
    let base = text::base_name(path);
    let parts = path_parts(path);
    &&& base != "__init__.py"@
    &&& has_main_guard || base == "manage.py"@ || follows(parts, "management"@, "commands"@)
        || parts[0] == "scripts"@ || parts[0] == "bin"@
}

/// Whether a file is meant to be run on its own: a management command, a file of
/// `scripts/` or `bin/`, `manage.py`, or one with a `__main__` block. Settings,
/// launch and URL modules belong to the application and are no scripts.
pub fn is_script_file(path: &str, has_main_guard: bool) -> (r: bool)
    ensures
        r == script_file(path@, has_main_guard),
{
    let base = base_name_of(path);
    if same(base.as_str(), "__init__.py") {
        return false;
    }
    let comps = split_on(path, "/\\");
    proof {
        text::lemma_split_nonempty(path@, "/\\"@);
        assert(text::views(comps@).len() == comps@.len());
    }
    has_main_guard || same(base.as_str(), "manage.py") || windowed_contains(
        &comps,
        "management",
        "commands",
    ) || same(comps[0].as_str(), "scripts") || same(comps[0].as_str(), "bin")
}

/// Whether a console script names the definition of a name.
pub open spec fn console_match(target: Seq<char>, name: Seq<char>) -> bool {
    name == target || text::ends(name, "."@ + target)
}

/// Whether one of the console scripts names the definition of a name.
pub open spec fn console_entry(console: Seq<Seq<char>>, name: Seq<char>) -> bool {
    exists|i: int| 0 <= i < console.len() && console_match(#[trigger] console[i], name)
}

/// Whether one of the console scripts names the definition of a name.
fn matches_console(console: &Vec<String>, name: &str) -> (r: bool)
    ensures
        r == console_entry(text::views(console@), name@),
{
    let ghost all = text::views(console@);
    let mut i: usize = 0;
    while i < console.len()
        invariant
            i <= console@.len(),
            all == text::views(console@),
            forall|k: int| 0 <= k < i ==> !console_match(#[trigger] all[k], name@),
        decreases console@.len() - i,
    {
        let tail = cat(".", console[i].as_str());
        if same(name, console[i].as_str()) || ends_with(name, tail.as_str()) {
            assert(console_match(all[i as int], name@));
            return true;
        }
        i = i + 1;
    }
    false
}

/// Whether the definitions of a file have a class of a name, and a framework
/// drives it or the file is an entrypoint.
pub open spec fn managed_in(
    files: Seq<FileIndex>,
    a: Answers,
    path: Seq<char>,
    defs: Seq<Def>,
    name: Seq<char>,
) -> bool
    decreases defs.len(),
{
    defs.len() > 0 && ((defs.last().kind is Class && names::def_fqn(path, defs.last()) == name && (
    entrypoint_file(path) || hierarchy::driven(files, a, name))) || managed_in(
        files,
        a,
        path,
        defs.drop_last(),
        name,
    ))
}

/// The same for the first files.
pub open spec fn managed_among(
    files: Seq<FileIndex>,
    a: Answers,
    some: Seq<FileIndex>,
    name: Seq<char>,
) -> bool
    decreases some.len(),
{
    some.len() > 0 && (managed_in(files, a, some.last().path@, some.last().defs@, name)
        || managed_among(files, a, some.drop_last(), name))
}

/// Whether every method of a class is entered without a call: a test class, a
/// class of an entrypoint file, or one that a framework drives.
pub open spec fn managed(files: Seq<FileIndex>, a: Answers, name: Seq<char>) -> bool {
    tests_map::test_class(files, name) || managed_among(files, a, files, name)
}

/// The classes whose every method is entered without a call.
fn framework_managed_classes(
    files: &Vec<FileIndex>,
    hier: &Hierarchy,
    Ghost(a): Ghost<Answers>,
) -> (r: Table<String, ()>)
    requires
        hier.describes(files@, a),
    ensures
        forall|n: Seq<char>| #[trigger] r.keys().contains(n) <==> managed(files@, a, n),
{
    let mut out = test_class_fqns(files);
    let mut i: usize = 0;
    while i < files.len()
        invariant
            i <= files@.len(),
            hier.describes(files@, a),
            forall|n: Seq<char>| #[trigger]
                out.keys().contains(n) <==> tests_map::test_class(files@, n) || managed_among(
                    files@,
                    a,
                    files@.take(i as int),
                    n,
                ),
        decreases files@.len() - i,
    {
        let f = &files[i];
        let entry = is_entrypoint_file(f.path.as_str());
        proof {
            text::lemma_take_step(files@, i as int);
        }
        let ghost before = out.keys();
        let mut j: usize = 0;
        while j < f.defs.len()
            invariant
                j <= f.defs@.len(),
                hier.describes(files@, a),
                entry == entrypoint_file(f.path@),
                forall|n: Seq<char>| #[trigger]
                    out.keys().contains(n) <==> before.contains(n) || managed_in(
                        files@,
                        a,
                        f.path@,
                        f.defs@.take(j as int),
                        n,
                    ),
            decreases f.defs@.len() - j,
        {
            let d = &f.defs[j];
            proof {
                text::lemma_take_step(f.defs@, j as int);
            }
            match d.kind {
                DefKind::Class => {
                    let name = fqn_of(f.path.as_str(), d);
                    if entry || hier.has_external_ancestor(name.as_str()) {
                        out.insert(name, ());
                    }
                },
                _ => {},
            }
            j = j + 1;
        }
        proof {
            text::lemma_take_all(f.defs@);
        }
        i = i + 1;
    }
    proof {
        text::lemma_take_all(files@);
    }
    out
}

/// Whether a scope lies in a class of a set, at any depth.
pub open spec fn inside_class(
    path: Seq<char>,
    container: Seq<Seq<char>>,
    classes: Set<Seq<char>>,
) -> bool {
    exists|k: int| 1 <= k <= container.len() && classes.contains(names::fqn(path, #[trigger] container.take(k)))
}

/// Whether a definition is entered by a framework or by convention.
pub open spec fn framework_entry(
    d: Def,
    path: Seq<char>,
    classes: Set<Seq<char>>,
    console: Seq<Seq<char>>,
) -> bool {
    ||| d.decorated
    ||| dunder(d.name@)
    ||| entrypoint_file(path)
    ||| inside_class(path, text::views(d.container@), classes)
    ||| d.kind is Class && classes.contains(names::def_fqn(path, d))
    ||| console_entry(console, names::def_fqn(path, d))
}

/// The classes whose every method is entered without a call.
pub open spec fn managed_set(files: Seq<FileIndex>, a: Answers) -> Set<Seq<char>> {
    Set::new(|n: Seq<char>| managed(files, a, n))
}

/// Whether a scope lies in a class of a table, at any depth.
fn in_entry_class(
    path: &str,
    container: &Vec<String>,
    classes: &Table<String, ()>,
    Ghost(set): Ghost<Set<Seq<char>>>,
) -> (r: bool)
    requires
        forall|n: Seq<char>| #[trigger] classes.keys().contains(n) <==> set.contains(n),
    ensures
        r == inside_class(path@, text::views(container@), set),
{
    let ghost all = text::views(container@);
    let mut scope: Vec<String> = Vec::new();
    let mut k: usize = 0;
    assert(text::views(scope@) =~= all.take(0));
    while k < container.len()
        invariant
            k <= container@.len(),
            all == text::views(container@),
            forall|n: Seq<char>| #[trigger] classes.keys().contains(n) <==> set.contains(n),
            text::views(scope@) == all.take(k as int),
            forall|q: int| 1 <= q <= k ==> !set.contains(names::fqn(path@, #[trigger] all.take(q))),
        decreases container@.len() - k,
    {
        let ghost before = text::views(scope@);
        scope.push(container[k].clone());
        proof {
            text::lemma_take_step(all, k as int);
            assert(text::views(scope@) =~= before.push(all[k as int]));
        }
        let name = scope_fqn(path, &scope);
        if classes.contains_key(&name) {
            assert(set.contains(names::fqn(path@, all.take(k + 1))));
            return true;
        }
        k = k + 1;
    }
    false
}

/// Whether a definition is entered by a framework or by convention: decorated, a
/// dunder method, in an entrypoint file, in a class that a framework drives, or
/// the target of a console script.
fn is_framework_entry(
    d: &Def,
    path: &str,
    entry_file: bool,
    classes: &Table<String, ()>,
    console: &Vec<String>,
    Ghost(set): Ghost<Set<Seq<char>>>,
) -> (r: bool)
    requires
        entry_file == entrypoint_file(path@),
        forall|n: Seq<char>| #[trigger] classes.keys().contains(n) <==> set.contains(n),
    ensures
        r == framework_entry(*d, path@, set, text::views(console@)),
{
    let name = fqn_of(path, d);
    let class = match d.kind {
        DefKind::Class => true,
        _ => false,
    };
    d.decorated || is_dunder(d.name.as_str()) || entry_file || in_entry_class(
        path,
        &d.container,
        classes,
        Ghost(set),
    ) || (class && classes.contains_key(&name)) || matches_console(console, name.as_str())
}


/// Where the definitions of a file first define a callable of a name.
pub open spec fn anchor_in(path: Seq<char>, defs: Seq<Def>, name: Seq<char>) -> Option<Spot>
    decreases defs.len(),
{
    if defs.len() == 0 {
        None
    } else {
        match anchor_in(path, defs.drop_last(), name) {
            Some(s) => Some(s),
            None => if model::callable(defs.last()) && names::def_fqn(path, defs.last()) == name {
                Some((path, defs.last().offset))
            } else {
                None
            },
        }
    }
}

/// Where the files first define a callable of a name.
pub open spec fn anchor_of(files: Seq<FileIndex>, name: Seq<char>) -> Option<Spot>
    decreases files.len(),
{
    if files.len() == 0 {
        None
    } else {
        match anchor_of(files.drop_last(), name) {
            Some(s) => Some(s),
            None => anchor_in(files.last().path@, files.last().defs@, name),
        }
    }
}

/// The place that a table has for a name.
pub open spec fn place_of(t: Table<String, (String, u32)>, name: Seq<char>) -> Option<Spot> {
    if t.map().contains_key(name) {
        Some(t.map()[name]@)
    } else {
        None
    }
}

/// Where each callable is defined; of two of one name, the first.
pub fn def_anchors(files: &Vec<FileIndex>) -> (r: Table<String, (String, u32)>)
    ensures
        forall|n: Seq<char>| #[trigger] place_of(r, n) == anchor_of(files@, n),
{
    let mut out: Table<String, (String, u32)> = Table::new();
    let mut i: usize = 0;
    while i < files.len()
        invariant
            i <= files@.len(),
            forall|n: Seq<char>| #[trigger] place_of(out, n) == anchor_of(files@.take(i as int), n),
        decreases files@.len() - i,
    {
        let f = &files[i];
        proof {
            text::lemma_take_step(files@, i as int);
        }
        let ghost before = out;
        let mut j: usize = 0;
        while j < f.defs.len()
            invariant
                j <= f.defs@.len(),
                forall|n: Seq<char>| #[trigger]
                    place_of(out, n) == (match place_of(before, n) {
                        Some(s) => Some(s),
                        None => anchor_in(f.path@, f.defs@.take(j as int), n),
                    }),
            decreases f.defs@.len() - j,
        {
            let d = &f.defs[j];
            let ghost mid = out;
            proof {
                text::lemma_take_step(f.defs@, j as int);
            }
            if is_callable(d) {
                let name = fqn_of(f.path.as_str(), d);
                if !out.contains_key(&name) {
                    out.insert(name, (f.path.clone(), d.offset));
                }
                proof {
                    assert forall|n: Seq<char>| #[trigger] place_of(out, n) == (match place_of(
                        before,
                        n,
                    ) {
                        Some(s) => Some(s),
                        None => anchor_in(f.path@, f.defs@.take(j + 1), n),
                    }) by {
                        assert(place_of(mid, n) == match place_of(before, n) {
                            Some(s) => Some(s),
                            None => anchor_in(f.path@, f.defs@.take(j as int), n),
                        });
                    }
                }
            }
            j = j + 1;
        }
        proof {
            text::lemma_take_all(f.defs@);
            assert forall|n: Seq<char>| #[trigger] place_of(out, n) == anchor_of(
                files@.take(i + 1),
                n,
            ) by {
                assert(place_of(before, n) == anchor_of(files@.take(i as int), n));
            }
        }
        i = i + 1;
    }
    proof {
        text::lemma_take_all(files@);
    }
    out
}

/// Whether `m` is the one callable whose name ends with `suffix`.
pub open spec fn only_callable(
    files: Seq<FileIndex>,
    suffix: Seq<char>,
    m: Seq<char>,
) -> bool {
    &&& anchor_of(files, m) is Some
    &&& text::ends(m, suffix)
    &&& forall|o: Seq<char>| #[trigger] anchor_of(files, o) is Some && text::ends(o, suffix) ==> o == m
}

/// The callable that a dotted string names: by its whole name, else as the one
/// whose name ends with it. The form `module:attr` counts as dotted.
pub open spec fn dotted_target(files: Seq<FileIndex>, s: Seq<char>) -> Option<Spot> {
    let name = text::first_replaced(s, ':', "."@);
    match anchor_of(files, name) {
        Some(a) => Some(a),
        None => if exists|m: Seq<char>| only_callable(files, "."@ + name, m) {
            anchor_of(files, choose|m: Seq<char>| only_callable(files, "."@ + name, m))
        } else {
            None
        },
    }
}

/// The callable that a dotted string names.
fn resolve_dotted(
    def_anchor: &Table<String, (String, u32)>,
    s: &str,
    Ghost(files): Ghost<Seq<FileIndex>>,
) -> (r: Option<(String, u32)>)
    requires
        forall|n: Seq<char>| #[trigger] place_of(*def_anchor, n) == anchor_of(files, n),
    ensures
        match r {
            Some(a) => dotted_target(files, s@) == Some(a@),
            None => dotted_target(files, s@) is None,
        },
{
    let name = text::replace_first(s, ':', ".");
    assert(place_of(*def_anchor, name@) == anchor_of(files, name@));
    match def_anchor.get(&name) {
        Some(a) => {
            return Some((a.0.clone(), a.1));
        },
        None => {},
    }
    let suffix = cat(".", name.as_str());
    let found = def_anchor.sole_match(suffix.as_str());
    proof {
        def_anchor.lemma_rows();
        assert forall|m: Seq<char>| only_callable(files, suffix@, m) <==> #[trigger]
            crate::table::sole(def_anchor.keys(), suffix@, m) by {
            assert forall|o: Seq<char>| #[trigger]
                anchor_of(files, o) is Some <==> def_anchor.keys().contains(o) by {
                assert(place_of(*def_anchor, o) == anchor_of(files, o));
            }
            if crate::table::sole(def_anchor.keys(), suffix@, m) {
                assert forall|o: Seq<char>| #[trigger] anchor_of(files, o) is Some && text::ends(
                    o,
                    suffix@,
                ) implies o == m by {
                    assert(def_anchor.keys().contains(o));
                }
            }
            if only_callable(files, suffix@, m) {
                assert(def_anchor.keys().contains(m));
                assert forall|o: Seq<char>| #[trigger] def_anchor.keys().contains(o) && text::ends(
                    o,
                    suffix@,
                ) implies o == m by {
                    assert(anchor_of(files, o) is Some);
                }
            }
        }
    }
    match found {
        Some(i) => {
            let a = def_anchor.value(i);
            proof {
                let m = def_anchor.keys()[i as int];
                assert(crate::table::sole(def_anchor.keys(), suffix@, m));
                assert(only_callable(files, suffix@, m));
                assert forall|o: Seq<char>| only_callable(files, suffix@, o) implies o == m by {
                    assert(anchor_of(files, o) is Some);
                }
                assert(place_of(*def_anchor, m) == anchor_of(files, m));
            }
            Some((a.0.clone(), a.1))
        },
        None => {
            proof {
                assert forall|m: Seq<char>| !only_callable(files, suffix@, m) by {
                    assert(!crate::table::sole(def_anchor.keys(), suffix@, m));
                }
            }
            None
        },
    }
}

/// `spot` for each base whose method `method` is called `key`.
pub open spec fn base_hits(
    bases: Seq<Seq<char>>,
    method: Seq<char>,
    key: Seq<char>,
    spot: Spot,
) -> Seq<Spot>
    decreases bases.len(),
{
    if bases.len() == 0 {
        Seq::empty()
    } else if bases.last() + "."@ + method == key {
        base_hits(bases.drop_last(), method, key, spot).push(spot)
    } else {
        base_hits(bases.drop_last(), method, key, spot)
    }
}

/// Where the methods of a class are defined that override the method `key`.
pub open spec fn class_overrides(
    h: Hierarchy,
    t: Table<String, (String, u32)>,
    class: Seq<char>,
    methods: Seq<Seq<char>>,
    key: Seq<char>,
) -> Seq<Spot>
    decreases methods.len(),
{
    if methods.len() == 0 {
        Seq::empty()
    } else {
        let before = class_overrides(h, t, class, methods.drop_last(), key);
        let m = methods.last();
        match place_of(t, class + "."@ + m) {
            Some(spot) => before + base_hits(
                crate::hierarchy::with_member(h.methods, h.supers_of(class), m),
                m,
                key,
                spot,
            ),
            None => before,
        }
    }
}

/// Where the methods of classes are defined that override the method `key`.
pub open spec fn overrides_among(
    h: Hierarchy,
    t: Table<String, (String, u32)>,
    classes: Seq<Seq<char>>,
    key: Seq<char>,
) -> Seq<Spot>
    decreases classes.len(),
{
    if classes.len() == 0 {
        Seq::empty()
    } else {
        overrides_among(h, t, classes.drop_last(), key) + class_overrides(
            h,
            t,
            classes.last(),
            text::views(h.methods.list(classes.last())),
            key,
        )
    }
}

/// Whether the edges lead from each method to where it is overridden.
pub open spec fn override_edges_are(
    h: Hierarchy,
    t: Table<String, (String, u32)>,
    edges: Table<String, Vec<(String, u32)>>,
) -> bool {
    &&& forall|key: Seq<char>| #[trigger]
        sort::each(edges.list(key)) == overrides_among(h, t, h.anchor.keys(), key)
    &&& none_idle(edges)
}

/// Whether the keys of a table are those with a list that is not empty.
pub open spec fn none_idle(edges: Table<String, Vec<(String, u32)>>) -> bool {
    forall|key: Seq<char>| #[trigger] edges.keys().contains(key) <==> edges.list(key).len() > 0
}

/// Edges from each method to where it is overridden: a call of the base method
/// may run any of them.
pub fn override_edges(hier: &Hierarchy, def_anchor: &Table<String, (String, u32)>) -> (r: Table<
    String,
    Vec<(String, u32)>,
>)
    ensures
        override_edges_are(*hier, *def_anchor, r),
{
    let h = hier;
    let classes = hier.class_fqns();
    let ghost names = text::views(classes@);
    let mut edges: Table<String, Vec<(String, u32)>> = Table::new();
    let mut i: usize = 0;
    proof {
        assert(names.take(0) =~= Seq::<Seq<char>>::empty());
        assert forall|key: Seq<char>| #[trigger] sort::each(edges.list(key)) == overrides_among(
            *h,
            *def_anchor,
            names.take(0),
            key,
        ) by {
            assert(sort::each(edges.list(key)) =~= Seq::<Spot>::empty());
        }
    }
    while i < classes.len()
        invariant
            i <= classes@.len(),
            names == text::views(classes@),
            h == hier,
            none_idle(edges),
            forall|key: Seq<char>| #[trigger]
                sort::each(edges.list(key)) == overrides_among(
                    *h,
                    *def_anchor,
                    names.take(i as int),
                    key,
                ),
        decreases classes@.len() - i,
    {
        let class = &classes[i];
        proof {
            text::lemma_take_step(names, i as int);
        }
        match hier.methods(class.as_str()) {
            Some(methods) => {
                let ghost list = text::views(methods@);
                let ghost before = edges;
                let mut j: usize = 0;
                proof {
                    assert(list.take(0) =~= Seq::<Seq<char>>::empty());
                    assert forall|key: Seq<char>| #[trigger] sort::each(edges.list(key)) == sort::each(
                        before.list(key),
                    ) + class_overrides(*h, *def_anchor, class@, list.take(0), key) by {
                        assert(sort::each(before.list(key)) + class_overrides(
                            *h,
                            *def_anchor,
                            class@,
                            list.take(0),
                            key,
                        ) =~= sort::each(before.list(key)));
                    }
                }
                while j < methods.len()
                    invariant
                        j <= methods@.len(),
                        list == text::views(methods@),
                        h == hier,
                        none_idle(edges),
                        forall|key: Seq<char>| #[trigger]
                            sort::each(edges.list(key)) == sort::each(before.list(key)) + class_overrides(
                                *h,
                                *def_anchor,
                                class@,
                                list.take(j as int),
                                key,
                            ),
                    decreases methods@.len() - j,
                {
                    let m = &methods[j];
                    proof {
                        text::lemma_take_step(list, j as int);
                    }
                    let own = cat3(class.as_str(), ".", m.as_str());
                    match def_anchor.get(&own) {
                        Some(a) => {
                            let ghost spot: Spot = a@;
                            let bases = hier.overrides(class.as_str(), m.as_str());
                            let ghost over = text::views(bases@);
                            proof {
                                assert(over == crate::hierarchy::with_member(
                                    h.methods,
                                    h.supers_of(class@),
                                    m@,
                                ));
                            }
                            let ghost mid = edges;
                            let mut k: usize = 0;
                            proof {
                                assert(over.take(0) =~= Seq::<Seq<char>>::empty());
                                assert forall|key: Seq<char>| #[trigger] sort::each(edges.list(key))
                                    == sort::each(mid.list(key)) + base_hits(
                                    over.take(0),
                                    m@,
                                    key,
                                    spot,
                                ) by {
                                    assert(sort::each(mid.list(key)) + base_hits(
                                        over.take(0),
                                        m@,
                                        key,
                                        spot,
                                    ) =~= sort::each(mid.list(key)));
                                }
                            }
                            while k < bases.len()
                                invariant
                                    k <= bases@.len(),
                                    over == text::views(bases@),
                                    spot == a@,
                                    none_idle(edges),
                                    forall|key: Seq<char>| #[trigger]
                                        sort::each(edges.list(key)) == sort::each(mid.list(key)) + base_hits(
                                            over.take(k as int),
                                            m@,
                                            key,
                                            spot,
                                        ),
                                decreases bases@.len() - k,
                            {
                                proof {
                                    text::lemma_take_step(over, k as int);
                                }
                                let ghost now = edges;
                                let target = cat3(bases[k].as_str(), ".", m.as_str());
                                let item = (a.0.clone(), a.1);
                                edges.push_to(target, (a.0.clone(), a.1));
                                proof {
                                    assert forall|key: Seq<char>| #[trigger] sort::each(
                                        edges.list(key),
                                    ) == sort::each(mid.list(key)) + base_hits(
                                        over.take(k + 1),
                                        m@,
                                        key,
                                        spot,
                                    ) by {
                                        assert(sort::each(now.list(key)) == sort::each(mid.list(key))
                                            + base_hits(over.take(k as int), m@, key, spot));
                                        if key == target@ {
                                            sort::lemma_each_push(now.list(key), item);
                                            assert(sort::each(edges.list(key)) =~= sort::each(mid.list(key))
                                                + base_hits(over.take(k + 1), m@, key, spot));
                                        } else {
                                            assert(edges.list(key) == now.list(key));
                                        }
                                    }
                                }
                                k = k + 1;
                            }
                            proof {
                                text::lemma_take_all(over);
                                assert forall|key: Seq<char>| #[trigger] sort::each(edges.list(key))
                                    == sort::each(before.list(key)) + class_overrides(
                                    *h,
                                    *def_anchor,
                                    class@,
                                    list.take(j + 1),
                                    key,
                                ) by {
                                    assert(sort::each(mid.list(key)) == sort::each(before.list(key))
                                        + class_overrides(
                                        *h,
                                        *def_anchor,
                                        class@,
                                        list.take(j as int),
                                        key,
                                    ));
                                    assert(sort::each(edges.list(key)) =~= sort::each(before.list(key))
                                        + class_overrides(
                                        *h,
                                        *def_anchor,
                                        class@,
                                        list.take(j + 1),
                                        key,
                                    ));
                                }
                            }
                        },
                        None => {},
                    }
                    j = j + 1;
                }
                proof {
                    text::lemma_take_all(list);
                    assert forall|key: Seq<char>| #[trigger] sort::each(edges.list(key))
                        == overrides_among(*h, *def_anchor, names.take(i + 1), key) by {
                        assert(sort::each(before.list(key)) == overrides_among(
                            *h,
                            *def_anchor,
                            names.take(i as int),
                            key,
                        ));
                    }
                }
            },
            None => {
                proof {
                    let list = text::views(h.methods.list(class@));
                    assert(list =~= Seq::<Seq<char>>::empty());
                    assert forall|key: Seq<char>| #[trigger] sort::each(edges.list(key))
                        == overrides_among(*h, *def_anchor, names.take(i + 1), key) by {
                        assert(overrides_among(*h, *def_anchor, names.take(i + 1), key)
                            =~= overrides_among(*h, *def_anchor, names.take(i as int), key));
                    }
                }
            },
        }
        i = i + 1;
    }
    proof {
        text::lemma_take_all(names);
    }
    edges
}


/// Whether a name is bound in the definitions.
pub open spec fn bound_in(defs: Seq<Def>, name: Seq<char>) -> bool
    decreases defs.len(),
{
    defs.len() > 0 && (defs.last().name@ == name || bound_in(defs.drop_last(), name))
}

/// Whether a name is bound in one of the files.
pub open spec fn bound(files: Seq<FileIndex>, name: Seq<char>) -> bool
    decreases files.len(),
{
    files.len() > 0 && (bound_in(files.last().defs@, name) || bound(files.drop_last(), name))
}

/// The names bound in the files.
fn bound_names(files: &Vec<FileIndex>) -> (r: Table<String, ()>)
    ensures
        forall|n: Seq<char>| #[trigger] r.keys().contains(n) <==> bound(files@, n),
{
    let mut out: Table<String, ()> = Table::new();
    let mut i: usize = 0;
    while i < files.len()
        invariant
            i <= files@.len(),
            forall|n: Seq<char>| #[trigger]
                out.keys().contains(n) <==> bound(files@.take(i as int), n),
        decreases files@.len() - i,
    {
        let f = &files[i];
        proof {
            text::lemma_take_step(files@, i as int);
        }
        let ghost before = out.keys();
        let mut j: usize = 0;
        while j < f.defs.len()
            invariant
                j <= f.defs@.len(),
                forall|n: Seq<char>| #[trigger]
                    out.keys().contains(n) <==> before.contains(n) || bound_in(
                        f.defs@.take(j as int),
                        n,
                    ),
            decreases f.defs@.len() - j,
        {
            proof {
                text::lemma_take_step(f.defs@, j as int);
            }
            out.insert(f.defs[j].name.clone(), ());
            j = j + 1;
        }
        proof {
            text::lemma_take_all(f.defs@);
        }
        i = i + 1;
    }
    proof {
        text::lemma_take_all(files@);
    }
    out
}

/// What the entrypoints of a project are decided by.
pub struct Entry {
    pub files: Seq<FileIndex>,
    pub answers: Answers,
    pub console: Seq<Seq<char>>,
}

impl Entry {
    /// Whether a definition is entered by a framework or by convention.
    pub open spec fn framework(self, path: Seq<char>, d: Def) -> bool {
        model::callable(d) && framework_entry(
            d,
            path,
            managed_set(self.files, self.answers),
            self.console,
        )
    }

    /// Whether a definition is an entrypoint: by framework or convention, as a
    /// test, or as an export.
    pub open spec fn root(self, f: FileIndex, d: Def) -> bool {
        model::callable(d) && (self.framework(f.path@, d) || tests_map::collected_test(
            d,
            f.path@,
            crate::tests_map::test_class_set(self.files),
        ) || (d.container@.len() == 0 && text::views(f.dunder_all@).contains(d.name@)))
    }

    /// Whether the definitions of a file have an entrypoint at a spot.
    pub open spec fn root_in(self, f: FileIndex, defs: Seq<Def>, s: Spot) -> bool
        decreases defs.len(),
    {
        defs.len() > 0 && ((self.root(f, defs.last()) && s == (f.path@, defs.last().offset))
            || self.root_in(f, defs.drop_last(), s))
    }

    /// The definition that a use at module scope means, where its name is one
    /// that the project binds.
    pub open spec fn used(self, path: Seq<char>, r: Ref) -> Option<Spot> {
        if r.module_scope && bound(self.files, r.name@) {
            (self.answers.resolve)((path, r.offset))
        } else {
            None
        }
    }

    /// Whether a use at module scope means the definition at a spot.
    pub open spec fn used_in(self, path: Seq<char>, refs: Seq<Ref>, s: Spot) -> bool
        decreases refs.len(),
    {
        refs.len() > 0 && (self.used(path, refs.last()) == Some(s) || self.used_in(
            path,
            refs.drop_last(),
            s,
        ))
    }

    /// Whether a dotted string names the callable at a spot.
    pub open spec fn named_in(self, strings: Seq<String>, s: Spot) -> bool
        decreases strings.len(),
    {
        strings.len() > 0 && (dotted_target(self.files, strings.last()@) == Some(s)
            || self.named_in(strings.drop_last(), s))
    }

    /// Whether the first files have an entrypoint at a spot.
    pub open spec fn seed_among(self, some: Seq<FileIndex>, s: Spot) -> bool
        decreases some.len(),
    {
        some.len() > 0 && (self.root_in(some.last(), some.last().defs@, s) || self.used_in(
            some.last().path@,
            some.last().refs@,
            s,
        ) || self.named_in(some.last().dotted_strings@, s) || self.seed_among(
            some.drop_last(),
            s,
        ))
    }
}

/// The places that the walk for live code starts from.
fn entry_seeds<T: CallGraphTy>(
    files: &Vec<FileIndex>,
    graph: &CallGraph<T>,
    console: &Vec<String>,
    classes: &Table<String, ()>,
    test_classes: &Table<String, ()>,
    names: &Table<String, ()>,
    anchors: &Table<String, (String, u32)>,
    Ghost(e): Ghost<Entry>,
) -> (r: Table<(String, u32), ()>)
    requires
        e == (Entry { files: files@, answers: graph.answers(), console: text::views(console@) }),
        forall|n: Seq<char>| #[trigger]
            classes.keys().contains(n) <==> managed_set(files@, graph.answers()).contains(n),
        test_classes.keys().to_set() == crate::tests_map::test_class_set(files@),
        forall|n: Seq<char>| #[trigger] names.keys().contains(n) <==> bound(files@, n),
        forall|n: Seq<char>| #[trigger] place_of(*anchors, n) == anchor_of(files@, n),
    ensures
        table::ascending::<(String, u32)>(r.keys()),
        forall|s: Spot| #[trigger] r.keys().contains(s) <==> e.seed_among(files@, s),
{
    let mut seeds: Table<(String, u32), ()> = Table::new();
    let mut i: usize = 0;
    while i < files.len()
        invariant
            i <= files@.len(),
            e == (Entry { files: files@, answers: graph.answers(), console: text::views(console@) }),
            forall|n: Seq<char>| #[trigger]
                classes.keys().contains(n) <==> managed_set(files@, graph.answers()).contains(n),
            test_classes.keys().to_set() == crate::tests_map::test_class_set(files@),
            forall|n: Seq<char>| #[trigger] names.keys().contains(n) <==> bound(files@, n),
            forall|n: Seq<char>| #[trigger] place_of(*anchors, n) == anchor_of(files@, n),
            forall|s: Spot| #[trigger]
                seeds.keys().contains(s) <==> e.seed_among(files@.take(i as int), s),
        decreases files@.len() - i,
    {
        let f = &files[i];
        let entry_file = is_entrypoint_file(f.path.as_str());
        proof {
            text::lemma_take_step(files@, i as int);
        }
        let ghost s0 = seeds.keys();
        let mut j: usize = 0;
        while j < f.defs.len()
            invariant
                j <= f.defs@.len(),
                e == (Entry { files: files@, answers: graph.answers(), console: text::views(console@) }),
                forall|n: Seq<char>| #[trigger]
                    classes.keys().contains(n) <==> managed_set(
                        files@,
                        graph.answers(),
                    ).contains(n),
                test_classes.keys().to_set() == crate::tests_map::test_class_set(files@),
                entry_file == entrypoint_file(f.path@),
                forall|s: Spot| #[trigger]
                    seeds.keys().contains(s) <==> s0.contains(s) || e.root_in(
                        *f,
                        f.defs@.take(j as int),
                        s,
                    ),
            decreases f.defs@.len() - j,
        {
            let d = &f.defs[j];
            proof {
                text::lemma_take_step(f.defs@, j as int);
            }
            if is_callable(d) {
                let root = is_framework_entry(
                    d,
                    f.path.as_str(),
                    entry_file,
                    classes,
                    console,
                    Ghost(managed_set(files@, graph.answers())),
                ) || is_collected_test_def(d, f.path.as_str(), test_classes) || (d.container.len()
                    == 0 && listed(d.name.as_str(), &f.dunder_all));
                assert(root == e.root(*f, *d));
                if root {
                    seeds.insert((f.path.clone(), d.offset), ());
                }
            }
            j = j + 1;
        }
        proof {
            text::lemma_take_all(f.defs@);
        }
        let ghost s1 = seeds.keys();
        let mut k: usize = 0;
        while k < f.refs.len()
            invariant
                k <= f.refs@.len(),
                e == (Entry { files: files@, answers: graph.answers(), console: text::views(console@) }),
                forall|n: Seq<char>| #[trigger] names.keys().contains(n) <==> bound(files@, n),
                forall|s: Spot| #[trigger]
                    seeds.keys().contains(s) <==> s1.contains(s) || e.used_in(
                        f.path@,
                        f.refs@.take(k as int),
                        s,
                    ),
            decreases f.refs@.len() - k,
        {
            let r = &f.refs[k];
            proof {
                text::lemma_take_step(f.refs@, k as int);
            }
            if r.module_scope && names.contains_key(&r.name) {
                match graph.resolve_anchor(f.path.as_str(), r.offset) {
                    Some(a) => {
                        seeds.insert(a, ());
                    },
                    None => {},
                }
            }
            k = k + 1;
        }
        proof {
            text::lemma_take_all(f.refs@);
        }
        let ghost s2 = seeds.keys();
        let mut m: usize = 0;
        while m < f.dotted_strings.len()
            invariant
                m <= f.dotted_strings@.len(),
                e == (Entry { files: files@, answers: graph.answers(), console: text::views(console@) }),
                forall|n: Seq<char>| #[trigger] place_of(*anchors, n) == anchor_of(files@, n),
                forall|s: Spot| #[trigger]
                    seeds.keys().contains(s) <==> s2.contains(s) || e.named_in(
                        f.dotted_strings@.take(m as int),
                        s,
                    ),
            decreases f.dotted_strings@.len() - m,
        {
            proof {
                text::lemma_take_step(f.dotted_strings@, m as int);
            }
            match resolve_dotted(anchors, f.dotted_strings[m].as_str(), Ghost(files@)) {
                Some(a) => {
                    seeds.insert(a, ());
                },
                None => {},
            }
            m = m + 1;
        }
        proof {
            text::lemma_take_all(f.dotted_strings@);
            assert forall|s: Spot| #[trigger] seeds.keys().contains(s) <==> e.seed_among(
                files@.take(i + 1),
                s,
            ) by {
                assert(s2.contains(s) <==> s1.contains(s) || e.used_in(f.path@, f.refs@, s));
                assert(s1.contains(s) <==> s0.contains(s) || e.root_in(*f, f.defs@, s));
                assert(s0.contains(s) <==> e.seed_among(files@.take(i as int), s));
            }
        }
        i = i + 1;
    }
    proof {
        text::lemma_take_all(files@);
    }
    let n: usize = seeds.len();
    seeds
}

/// The keys of a table as a list.
fn key_list(t: &Table<(String, u32), ()>) -> (r: Vec<(String, u32)>)
    ensures
        sort::each(r@) == t.keys(),
{
    let n: usize = t.len();
    let mut out: Vec<(String, u32)> = Vec::new();
    let mut i: usize = 0;
    while i < n
        invariant
            i <= n,
            n == t.keys().len(),
            out@.len() == i,
            forall|k: int| 0 <= k < i ==> (#[trigger] out@[k])@ == t.keys()[k],
        decreases n - i,
    {
        let k = t.key(i);
        out.push((k.0.clone(), k.1));
        i = i + 1;
    }
    assert(sort::each(out@) =~= t.keys());
    out
}

/// What a callable is called: a class, a function, or a method where it stands
/// inside another scope.
pub open spec fn kind_name(d: Def) -> Seq<char> {
    if d.kind is Class {
        "class"@
    } else if d.container@.len() == 0 {
        "function"@
    } else {
        "method"@
    }
}

/// What a callable is called.
pub fn kind_of(d: &Def) -> (r: &'static str)
    ensures
        r@ == kind_name(*d),
{
    match d.kind {
        DefKind::Class => "class",
        _ => if d.container.len() == 0 {
            "function"
        } else {
            "method"
        },
    }
}

/// The callables of a file.
pub open spec fn callables_in(path: Seq<char>, defs: Seq<Def>) -> Seq<DeadView>
    decreases defs.len(),
{
    if defs.len() == 0 {
        Seq::empty()
    } else {
        let d = defs.last();
        let before = callables_in(path, defs.drop_last());
        if model::callable(d) {
            before.push(
                DeadView {
                    path,
                    line: d.pos.line,
                    col: d.pos.col,
                    fqn: names::def_fqn(path, d),
                    kind: kind_name(d),
                },
            )
        } else {
            before
        }
    }
}

/// The callables of the files.
pub open spec fn callables(files: Seq<FileIndex>) -> Seq<DeadView>
    decreases files.len(),
{
    if files.len() == 0 {
        Seq::empty()
    } else {
        callables(files.drop_last()) + callables_in(files.last().path@, files.last().defs@)
    }
}

/// Those of `all` that are not live.
pub open spec fn not_live(all: Seq<DeadView>, live: Set<Seq<char>>) -> Seq<DeadView>
    decreases all.len(),
{
    if all.len() == 0 {
        Seq::empty()
    } else if live.contains(all.last().fqn) {
        not_live(all.drop_last(), live)
    } else {
        not_live(all.drop_last(), live).push(all.last())
    }
}

/// Whether a name is that of one of the dead.
pub open spec fn is_dead(dead: Seq<DeadView>, name: Seq<char>) -> bool {
    exists|i: int| 0 <= i < dead.len() && (#[trigger] dead[i]).fqn == name
}

/// Whether a dead callable is a method of a dead class, which stands for it.
pub open spec fn subsumed(dead: Seq<DeadView>, d: DeadView) -> bool {
    d.kind == "method"@ && match text::parent_name(d.fqn) {
        Some(p) => is_dead(dead, p),
        None => false,
    }
}

/// Those of `some` that no dead class stands for.
pub open spec fn standing(dead: Seq<DeadView>, some: Seq<DeadView>) -> Seq<DeadView>
    decreases some.len(),
{
    if some.len() == 0 {
        Seq::empty()
    } else if subsumed(dead, some.last()) {
        standing(dead, some.drop_last())
    } else {
        standing(dead, some.drop_last()).push(some.last())
    }
}

/// Whether `live` are the names that the entrypoints reach, along calls and
/// along the edges from methods to their overrides.
pub open spec fn live_names(e: Entry, live: Set<Seq<char>>) -> bool {
    exists|
        h: Hierarchy,
        t: Table<String, (String, u32)>,
        extra: Table<String, Vec<(String, u32)>>,
        seeds: Seq<Spot>,
    | #[trigger] live_by(e, h, t, extra, seeds, live)
}

/// The same, with what it is decided by.
pub open spec fn live_by(
    e: Entry,
    h: Hierarchy,
    t: Table<String, (String, u32)>,
    extra: Table<String, Vec<(String, u32)>>,
    seeds: Seq<Spot>,
    live: Set<Seq<char>>,
) -> bool {
    &&& h.describes(e.files, e.answers)
    &&& forall|n: Seq<char>| #[trigger] place_of(t, n) == anchor_of(e.files, n)
    &&& override_edges_are(h, t, extra)
    &&& table::ascending::<(String, u32)>(seeds)
    &&& forall|s: Spot| #[trigger] seeds.contains(s) <==> e.seed_among(e.files, s)
    &&& callgraph::reachable_is(e.files, e.answers, extra, seeds, live)
}

/// Those callables of a file that are not live, after `start`. Counts them all.
fn collect_dead(
    f: &FileIndex,
    live: &Table<String, ()>,
    out: &mut Vec<Dead>,
    total: usize,
    Ghost(before): Ghost<Seq<DeadView>>,
    Ghost(room): Ghost<nat>,
) -> (r: usize)
    requires
        sort::each(old(out)@) == not_live(before, live.keys().to_set()),
        total == before.len(),
        before.len() + f.defs@.len() <= room <= usize::MAX,
    ensures
        ({
            let all = before + callables_in(f.path@, f.defs@);
            &&& sort::each(final(out)@) == not_live(all, live.keys().to_set())
            &&& r == all.len()
            &&& r <= total + f.defs@.len()
        }),
{
    let mut n: usize = total;
    let mut j: usize = 0;
    proof {
        assert(before + callables_in(f.path@, f.defs@.take(0)) =~= before);
    }
    while j < f.defs.len()
        invariant
            j <= f.defs@.len(),
            before.len() + f.defs@.len() <= usize::MAX,
            n == before.len() + callables_in(f.path@, f.defs@.take(j as int)).len(),
            n <= before.len() + j,
            sort::each(out@) == not_live(
                before + callables_in(f.path@, f.defs@.take(j as int)),
                live.keys().to_set(),
            ),
        decreases f.defs@.len() - j,
    {
        let d = &f.defs[j];
        let ghost all = before + callables_in(f.path@, f.defs@.take(j as int));
        proof {
            text::lemma_take_step(f.defs@, j as int);
        }
        if is_callable(d) {
            n = n + 1;
            let name = fqn_of(f.path.as_str(), d);
            let reached = live.contains_key(&name);
            let item = Dead {
                path: f.path.clone(),
                line: d.pos.line,
                col: d.pos.col,
                fqn: name,
                kind: kind_of(d),
            };
            let ghost held = out@;
            let ghost more = before + callables_in(f.path@, f.defs@.take(j + 1));
            proof {
                assert(more.drop_last() =~= all);
                assert(more.last() == item@);
                sort::lemma_each_push(held, item);
            }
            if !reached {
                out.push(item);
            }
        }
        j = j + 1;
    }
    proof {
        text::lemma_take_all(f.defs@);
    }
    n
}

/// Those of the dead that no dead class stands for.
fn drop_subsumed(dead: Vec<Dead>) -> (r: Vec<Dead>)
    ensures
        sort::each(r@) == standing(sort::each(dead@), sort::each(dead@)),
{
    let ghost all = sort::each(dead@);
    let mut names: Table<String, ()> = Table::new();
    let mut i: usize = 0;
    while i < dead.len()
        invariant
            i <= dead@.len(),
            all == sort::each(dead@),
            forall|n: Seq<char>| #[trigger]
                names.keys().contains(n) <==> is_dead(all.take(i as int), n),
        decreases dead@.len() - i,
    {
        proof {
            text::lemma_take_step(all, i as int);
        }
        names.insert(dead[i].fqn.clone(), ());
        proof {
            let longer = all.take(i + 1);
            let shorter = all.take(i as int);
            assert forall|n: Seq<char>| #[trigger] names.keys().contains(n) <==> is_dead(
                longer,
                n,
            ) by {
                if is_dead(shorter, n) {
                    let k = choose|k: int| 0 <= k < shorter.len() && (#[trigger] shorter[k]).fqn == n;
                    assert(longer[k].fqn == n);
                }
                assert(longer[i as int].fqn == dead@[i as int].fqn@);
                if is_dead(longer, n) {
                    let k = choose|k: int| 0 <= k < longer.len() && (#[trigger] longer[k]).fqn == n;
                    if k < i {
                        assert(shorter[k].fqn == n);
                    }
                }
            }
        }
        i = i + 1;
    }
    proof {
        text::lemma_take_all(all);
    }
    let mut rest = crate::sort::reversed(dead);
    let mut out: Vec<Dead> = Vec::new();
    let ghost mut n: int = 0;
    assert(sort::each(out@) =~= standing(all, all.take(0)));
    while rest.len() > 0
        invariant
            0 <= n <= all.len(),
            rest@.len() == all.len() - n,
            forall|k: int| 0 <= k < rest@.len() ==> (#[trigger] rest@[k])@ == all[all.len() - 1 - k],
            forall|x: Seq<char>| #[trigger] names.keys().contains(x) <==> is_dead(all, x),
            sort::each(out@) == standing(all, all.take(n)),
        decreases rest@.len(),
    {
        match rest.pop() {
            Some(d) => {
                proof {
                    text::lemma_take_step(all, n);
                    assert(d@ == all[n]);
                }
                let gone = same(d.kind, "method") && match parent_of(d.fqn.as_str()) {
                    Some(p) => names.contains_key(&p),
                    None => false,
                };
                assert(gone == subsumed(all, d@));
                if !gone {
                    let ghost held = out@;
                    proof {
                        sort::lemma_each_push(held, d);
                    }
                    out.push(d);
                }
                proof {
                    n = n + 1;
                }
            },
            None => {},
        }
    }
    proof {
        text::lemma_take_all(all);
    }
    out
}

/// How many definitions the files have, at most what a count can hold.
pub open spec fn def_count(files: Seq<FileIndex>) -> nat
    decreases files.len(),
{
    if files.len() == 0 {
        0
    } else {
        def_count(files.drop_last()) + files.last().defs@.len()
    }
}

proof fn lemma_def_count(files: Seq<FileIndex>, i: int)
    requires
        0 <= i <= files.len(),
    ensures
        def_count(files.take(i)) <= def_count(files),
        callables(files.take(i)).len() <= def_count(files.take(i)),
    decreases files.len() - i,
{
    if i < files.len() {
        text::lemma_take_step(files, i);
        lemma_def_count(files, i + 1);
    } else {
        text::lemma_take_all(files);
    }
    lemma_callables_count(files.take(i));
}

proof fn lemma_callables_count(files: Seq<FileIndex>)
    ensures
        callables(files).len() <= def_count(files),
    decreases files.len(),
{
    if files.len() > 0 {
        lemma_callables_count(files.drop_last());
        lemma_callables_in_count(files.last().path@, files.last().defs@);
    }
}

proof fn lemma_callables_in_count(path: Seq<char>, defs: Seq<Def>)
    ensures
        callables_in(path, defs).len() <= defs.len(),
    decreases defs.len(),
{
    if defs.len() > 0 {
        lemma_callables_in_count(path, defs.drop_last());
    }
}

/// The callables that no entrypoint reaches. `graph` is over the same files, and
/// `console` are the targets of the console scripts.
pub fn find<T: CallGraphTy>(
    files: &Vec<FileIndex>,
    graph: &CallGraph<T>,
    console: &Vec<String>,
) -> (r: DeadCode)
    requires
        graph.files() == files@,
        def_count(files@) <= usize::MAX,
    ensures
        r.total == callables(files@).len(),
        exists|live: Set<Seq<char>>| #[trigger]
            live_names(
                (Entry { files: files@, answers: graph.answers(), console: text::views(console@) }),
                live,
            ) && ({
                let dead = not_live(callables(files@), live);
                sort::each(r.dead@) == sort::sorted::<Dead>(standing(dead, dead))
            }),
{
    let ghost e = Entry { files: files@, answers: graph.answers(), console: text::views(console@) };
    let test_classes = test_class_fqns(files);
    let hier = Hierarchy::build(files, graph);
    let classes = framework_managed_classes(files, &hier, Ghost(graph.answers()));
    let names = bound_names(files);
    let anchors = def_anchors(files);
    let seeds = entry_seeds(
        files,
        graph,
        console,
        &classes,
        &test_classes,
        &names,
        &anchors,
        Ghost(e),
    );
    let edges = override_edges(&hier, &anchors);
    let seed_list = key_list(&seeds);
    let live = graph.reachable_from(&seed_list, &edges);
    let ghost reached = live.keys().to_set();
    proof {
        assert(live_by(e, hier, anchors, edges, seeds.keys(), reached));
        assert(live_names(e, reached));
    }
    let mut dead: Vec<Dead> = Vec::new();
    let mut total: usize = 0;
    let mut i: usize = 0;
    assert(sort::each(dead@) =~= not_live(callables(files@.take(0)), reached));
    while i < files.len()
        invariant
            i <= files@.len(),
            def_count(files@) <= usize::MAX,
            reached == live.keys().to_set(),
            total == callables(files@.take(i as int)).len(),
            sort::each(dead@) == not_live(callables(files@.take(i as int)), reached),
        decreases files@.len() - i,
    {
        proof {
            text::lemma_take_step(files@, i as int);
            lemma_def_count(files@, i as int);
            lemma_def_count(files@, i + 1);
        }
        total = collect_dead(
            &files[i],
            &live,
            &mut dead,
            total,
            Ghost(callables(files@.take(i as int))),
            Ghost(def_count(files@)),
        );
        i = i + 1;
    }
    proof {
        text::lemma_take_all(files@);
    }
    let kept = drop_subsumed(dead);
    DeadCode { dead: sort(kept), total }
}


/// Whether `n` is the name of the callable at a spot; of several, the greatest.
pub open spec fn owns(files: Seq<FileIndex>, s: Spot, n: Seq<char>) -> bool {
    &&& anchor_of(files, n) == Some(s)
    &&& forall|m: Seq<char>| #[trigger] anchor_of(files, m) == Some(s) ==> !text::text_lt(n, m)
}

impl Entry {
    /// Whether the definitions have one of a name that is entered by a framework
    /// or by convention.
    pub open spec fn entry_in(self, path: Seq<char>, defs: Seq<Def>, n: Seq<char>) -> bool
        decreases defs.len(),
    {
        defs.len() > 0 && ((self.framework(path, defs.last()) && names::def_fqn(path, defs.last()) == n)
            || self.entry_in(path, defs.drop_last(), n))
    }

    /// Whether a use at module scope means the callable of a name.
    pub open spec fn used_name_in(self, path: Seq<char>, refs: Seq<Ref>, n: Seq<char>) -> bool
        decreases refs.len(),
    {
        refs.len() > 0 && (match self.used(path, refs.last()) {
            Some(s) => owns(self.files, s, n),
            None => false,
        } || self.used_name_in(path, refs.drop_last(), n))
    }

    /// Whether a dotted string names the callable of a name.
    pub open spec fn named_name_in(self, strings: Seq<String>, n: Seq<char>) -> bool
        decreases strings.len(),
    {
        strings.len() > 0 && (match dotted_target(self.files, strings.last()@) {
            Some(s) => owns(self.files, s, n),
            None => false,
        } || self.named_name_in(strings.drop_last(), n))
    }

    /// Whether the first files have a callable of a name that is entered by a
    /// framework, by convention, by a use at module scope or by a dotted string.
    pub open spec fn entry_among(self, some: Seq<FileIndex>, n: Seq<char>) -> bool
        decreases some.len(),
    {
        some.len() > 0 && (self.entry_in(some.last().path@, some.last().defs@, n)
            || self.used_name_in(some.last().path@, some.last().refs@, n) || self.named_name_in(
            some.last().dotted_strings@,
            n,
        ) || self.entry_among(some.drop_last(), n))
    }
}

/// The names of the callables by where they are defined.
fn names_by_place(anchors: &Table<String, (String, u32)>, Ghost(files): Ghost<Seq<FileIndex>>) -> (
r: Table<(String, u32), String>)
    requires
        forall|n: Seq<char>| #[trigger] place_of(*anchors, n) == anchor_of(files, n),
    ensures
        forall|s: Spot, n: Seq<char>|
            #![trigger owns(files, s, n)]
            owns(files, s, n) <==> crate::callgraph::table_name(r, s) == Some(n),
{
    let count: usize = anchors.len();
    let ghost keys = anchors.keys();
    proof {
        anchors.lemma_rows();
    }
    let mut out: Table<(String, u32), String> = Table::new();
    let mut i: usize = 0;
    while i < count
        invariant
            i <= count,
            count == keys.len(),
            keys == anchors.keys(),
            table::ascending::<String>(keys),
            forall|k: int|
                0 <= k < keys.len() ==> anchors.map().contains_key(#[trigger] keys[k])
                    && anchors.map()[keys[k]] == anchors.values()[k],
            forall|s: Spot|
                match #[trigger] crate::callgraph::table_name(out, s) {
                    Some(n) => exists|k: int|
                        0 <= k < i && keys[k] == n && (#[trigger] anchors.values()[k])@ == s
                            && forall|m: int|
                            k < m < i ==> (#[trigger] anchors.values()[m])@ != s,
                    None => forall|k: int| 0 <= k < i ==> (#[trigger] anchors.values()[k])@ != s,
                },
        decreases count - i,
    {
        let name = anchors.key(i);
        let place = anchors.value(i);
        let ghost before = out;
        out.insert((place.0.clone(), place.1), name.clone());
        proof {
            assert forall|s: Spot|
                match #[trigger] crate::callgraph::table_name(out, s) {
                    Some(n) => exists|k: int|
                        0 <= k < i + 1 && keys[k] == n && (#[trigger] anchors.values()[k])@ == s
                            && forall|m: int|
                            k < m < i + 1 ==> (#[trigger] anchors.values()[m])@ != s,
                    None => forall|k: int|
                        0 <= k < i + 1 ==> (#[trigger] anchors.values()[k])@ != s,
                } by {
                if s == place@ {
                    assert(anchors.values()[i as int]@ == s);
                } else {
                    assert(crate::callgraph::table_name(out, s) == crate::callgraph::table_name(
                        before,
                        s,
                    ));
                    match crate::callgraph::table_name(before, s) {
                        Some(n) => {
                            let k = choose|k: int|
                                0 <= k < i && keys[k] == n && (#[trigger] anchors.values()[k])@ == s
                                    && forall|m: int|
                                    k < m < i ==> (#[trigger] anchors.values()[m])@ != s;
                            assert(anchors.values()[k]@ == s);
                        },
                        None => {},
                    }
                }
            }
        }
        i = i + 1;
    }
    proof {
        assert forall|s: Spot, n: Seq<char>|
            #![trigger owns(files, s, n)]
            owns(files, s, n) <==> crate::callgraph::table_name(out, s) == Some(n) by {
            if crate::callgraph::table_name(out, s) == Some(n) {
                let k = choose|k: int|
                    0 <= k < count && keys[k] == n && (#[trigger] anchors.values()[k])@ == s
                        && forall|m: int|
                        k < m < count ==> (#[trigger] anchors.values()[m])@ != s;
                assert(place_of(*anchors, keys[k]) == anchor_of(files, keys[k]));
                assert forall|m: Seq<char>| #[trigger] anchor_of(files, m) == Some(s) implies !text::text_lt(
                    n,
                    m,
                ) by {
                    assert(place_of(*anchors, m) == anchor_of(files, m));
                    assert(anchors.map().contains_key(m));
                    assert(keys.contains(m));
                    let q = choose|q: int| 0 <= q < keys.len() && keys[q] == m;
                    assert(anchors.map()[keys[q]] == anchors.values()[q]);
                    assert(q <= k);
                    String::less_is_a_total_order(n, m, n);
                    if q < k {
                        assert(text::text_lt(keys[q], keys[k]));
                    }
                }
            }
            if owns(files, s, n) {
                assert(place_of(*anchors, n) == anchor_of(files, n));
                assert(anchors.map().contains_key(n));
                assert(keys.contains(n));
                let q = choose|q: int| 0 <= q < keys.len() && keys[q] == n;
                assert(anchors.map()[keys[q]] == anchors.values()[q]);
                assert(anchors.values()[q]@ == s);
                match crate::callgraph::table_name(out, s) {
                    Some(x) => {
                        let k = choose|k: int|
                            0 <= k < count && keys[k] == x && (#[trigger] anchors.values()[k])@ == s
                                && forall|m: int|
                                k < m < count ==> (#[trigger] anchors.values()[m])@ != s;
                        assert(place_of(*anchors, keys[k]) == anchor_of(files, keys[k]));
                        assert(q <= k);
                        if q < k {
                            assert(text::text_lt(keys[q], keys[k]));
                        }
                    },
                    None => {},
                }
            }
        }
    }
    out
}

/// Enters the name of the callable at a place.
fn enter_owner(
    out: &mut Table<String, ()>,
    owners: &Table<(String, u32), String>,
    place: &(String, u32),
    Ghost(files): Ghost<Seq<FileIndex>>,
)
    requires
        forall|s: Spot, n: Seq<char>|
            #![trigger owns(files, s, n)]
            owns(files, s, n) <==> crate::callgraph::table_name(*owners, s) == Some(n),
    ensures
        forall|n: Seq<char>| #[trigger]
            final(out).keys().contains(n) <==> old(out).keys().contains(n) || owns(
                files,
                place@,
                n,
            ),
{
    match owners.get(place) {
        Some(name) => {
            out.insert(name.clone(), ());
            assert(owns(files, place@, name@));
        },
        None => {},
    }
}

/// The names of the callables that a framework or the runtime enters without a
/// call in the project. Exports and tests are not among them.
pub fn framework_entry_fqns<T: CallGraphTy>(
    files: &Vec<FileIndex>,
    graph: &CallGraph<T>,
    hier: &Hierarchy,
    console: &Vec<String>,
) -> (r: Table<String, ()>)
    requires
        hier.describes(files@, graph.answers()),
    ensures
        forall|n: Seq<char>| #[trigger]
            r.keys().contains(n) <==> (Entry {
                files: files@,
                answers: graph.answers(),
                console: text::views(console@),
            }).entry_among(files@, n),
{
    let ghost e = Entry { files: files@, answers: graph.answers(), console: text::views(console@) };
    let classes = framework_managed_classes(files, hier, Ghost(graph.answers()));
    let anchors = def_anchors(files);
    let owners = names_by_place(&anchors, Ghost(files@));
    let names = bound_names(files);
    let ghost set = managed_set(files@, graph.answers());
    let mut out: Table<String, ()> = Table::new();
    let mut i: usize = 0;
    while i < files.len()
        invariant
            i <= files@.len(),
            e == (Entry { files: files@, answers: graph.answers(), console: text::views(console@) }),
            set == managed_set(files@, graph.answers()),
            forall|n: Seq<char>| #[trigger] classes.keys().contains(n) <==> set.contains(n),
            forall|n: Seq<char>| #[trigger] place_of(anchors, n) == anchor_of(files@, n),
            forall|s: Spot, n: Seq<char>|
                #![trigger owns(files@, s, n)]
                owns(files@, s, n) <==> crate::callgraph::table_name(owners, s) == Some(n),
            forall|n: Seq<char>| #[trigger] names.keys().contains(n) <==> bound(files@, n),
            forall|n: Seq<char>| #[trigger]
                out.keys().contains(n) <==> e.entry_among(files@.take(i as int), n),
        decreases files@.len() - i,
    {
        let f = &files[i];
        let entry_file = is_entrypoint_file(f.path.as_str());
        proof {
            text::lemma_take_step(files@, i as int);
        }
        let ghost s0 = out.keys();
        let mut j: usize = 0;
        while j < f.defs.len()
            invariant
                j <= f.defs@.len(),
                e == (Entry { files: files@, answers: graph.answers(), console: text::views(console@) }),
                set == managed_set(files@, graph.answers()),
                forall|n: Seq<char>| #[trigger] classes.keys().contains(n) <==> set.contains(n),
                entry_file == entrypoint_file(f.path@),
                forall|n: Seq<char>| #[trigger]
                    out.keys().contains(n) <==> s0.contains(n) || e.entry_in(
                        f.path@,
                        f.defs@.take(j as int),
                        n,
                    ),
            decreases f.defs@.len() - j,
        {
            let d = &f.defs[j];
            proof {
                text::lemma_take_step(f.defs@, j as int);
            }
            if is_callable(d) && is_framework_entry(
                d,
                f.path.as_str(),
                entry_file,
                &classes,
                console,
                Ghost(set),
            ) {
                out.insert(fqn_of(f.path.as_str(), d), ());
            }
            j = j + 1;
        }
        proof {
            text::lemma_take_all(f.defs@);
        }
        let ghost s1 = out.keys();
        let mut k: usize = 0;
        while k < f.refs.len()
            invariant
                k <= f.refs@.len(),
                e == (Entry { files: files@, answers: graph.answers(), console: text::views(console@) }),
                forall|s: Spot, n: Seq<char>|
                    #![trigger owns(files@, s, n)]
                    owns(files@, s, n) <==> crate::callgraph::table_name(owners, s) == Some(n),
                forall|n: Seq<char>| #[trigger] names.keys().contains(n) <==> bound(files@, n),
                forall|n: Seq<char>| #[trigger]
                    out.keys().contains(n) <==> s1.contains(n) || e.used_name_in(
                        f.path@,
                        f.refs@.take(k as int),
                        n,
                    ),
            decreases f.refs@.len() - k,
        {
            let r = &f.refs[k];
            proof {
                text::lemma_take_step(f.refs@, k as int);
            }
            if r.module_scope && names.contains_key(&r.name) {
                match graph.resolve_anchor(f.path.as_str(), r.offset) {
                    Some(a) => {
                        enter_owner(&mut out, &owners, &a, Ghost(files@));
                    },
                    None => {},
                }
            }
            k = k + 1;
        }
        proof {
            text::lemma_take_all(f.refs@);
        }
        let ghost s2 = out.keys();
        let mut m: usize = 0;
        while m < f.dotted_strings.len()
            invariant
                m <= f.dotted_strings@.len(),
                e == (Entry { files: files@, answers: graph.answers(), console: text::views(console@) }),
                forall|n: Seq<char>| #[trigger] place_of(anchors, n) == anchor_of(files@, n),
                forall|s: Spot, n: Seq<char>|
                    #![trigger owns(files@, s, n)]
                    owns(files@, s, n) <==> crate::callgraph::table_name(owners, s) == Some(n),
                forall|n: Seq<char>| #[trigger]
                    out.keys().contains(n) <==> s2.contains(n) || e.named_name_in(
                        f.dotted_strings@.take(m as int),
                        n,
                    ),
            decreases f.dotted_strings@.len() - m,
        {
            proof {
                text::lemma_take_step(f.dotted_strings@, m as int);
            }
            match resolve_dotted(&anchors, f.dotted_strings[m].as_str(), Ghost(files@)) {
                Some(a) => {
                    enter_owner(&mut out, &owners, &a, Ghost(files@));
                },
                None => {},
            }
            m = m + 1;
        }
        proof {
            text::lemma_take_all(f.dotted_strings@);
            assert forall|n: Seq<char>| #[trigger] out.keys().contains(n) <==> e.entry_among(
                files@.take(i + 1),
                n,
            ) by {
                assert(s2.contains(n) <==> s1.contains(n) || e.used_name_in(f.path@, f.refs@, n));
                assert(s1.contains(n) <==> s0.contains(n) || e.entry_in(f.path@, f.defs@, n));
                assert(s0.contains(n) <==> e.entry_among(files@.take(i as int), n));
            }
        }
        i = i + 1;
    }
    proof {
        text::lemma_take_all(files@);
    }
    out
}

/// Why the call graph cannot see all callers of a symbol.
#[derive(Clone, Copy, Debug, PartialEq, Eq, Structural)]
pub enum DispatchKind {
    /// It is decorated, and the framework calls it.
    Decorated,
    /// It belongs to a class that a framework drives.
    FrameworkBase,
    /// It is entered by convention or configuration.
    FrameworkEntry,
}

/// Why the call graph cannot see all callers, in words.
pub open spec fn reason_text(k: DispatchKind) -> Seq<char> {
    match k {
        DispatchKind::Decorated => "decorated, so the framework calls it"@,
        DispatchKind::FrameworkBase =>
            "a method on a framework-driven class (extends a non-project base)"@,
        DispatchKind::FrameworkEntry =>
            "entered by convention/config (entrypoint file, registry, or a dotted-string path)"@,
    }
}

impl DispatchKind {
    /// Why the call graph cannot see all callers, in words.
    pub fn reason(&self) -> (r: &'static str)
        ensures
            r@ == reason_text(*self),
    {
        match self {
            DispatchKind::Decorated => "decorated, so the framework calls it",
            DispatchKind::FrameworkBase =>
                "a method on a framework-driven class (extends a non-project base)",
            DispatchKind::FrameworkEntry =>
                "entered by convention/config (entrypoint file, registry, or a dotted-string path)",
        }
    }
}

impl Entry {
    /// Why a definition is entered without a call, where it shows on itself.
    pub open spec fn marked(self, path: Seq<char>, d: Def) -> Option<DispatchKind> {
        let set = managed_set(self.files, self.answers);
        if d.decorated {
            Some(DispatchKind::Decorated)
        } else if inside_class(path, text::views(d.container@), set) || (d.kind is Class && set.contains(
            names::def_fqn(path, d),
        )) {
            Some(DispatchKind::FrameworkBase)
        } else if entrypoint_file(path) {
            Some(DispatchKind::FrameworkEntry)
        } else {
            None
        }
    }

    /// The first definition of one of the roots that shows why it is entered.
    pub open spec fn caveat_in(
        self,
        path: Seq<char>,
        defs: Seq<Def>,
        roots: Seq<Seq<char>>,
    ) -> Option<(Seq<char>, DispatchKind)>
        decreases defs.len(),
    {
        if defs.len() == 0 {
            None
        } else {
            match self.caveat_in(path, defs.drop_last(), roots) {
                Some(c) => Some(c),
                None => {
                    let name = names::def_fqn(path, defs.last());
                    match self.marked(path, defs.last()) {
                        Some(k) => if roots.contains(name) {
                            Some((name, k))
                        } else {
                            None
                        },
                        None => None,
                    }
                },
            }
        }
    }

    /// The same among the first files.
    pub open spec fn caveat_among(self, some: Seq<FileIndex>, roots: Seq<Seq<char>>) -> Option<
        (Seq<char>, DispatchKind),
    >
        decreases some.len(),
    {
        if some.len() == 0 {
            None
        } else {
            match self.caveat_among(some.drop_last(), roots) {
                Some(c) => Some(c),
                None => self.caveat_in(some.last().path@, some.last().defs@, roots),
            }
        }
    }

    /// The first of the roots that is entered without a call.
    pub open spec fn first_entry(self, roots: Seq<Seq<char>>) -> Option<Seq<char>>
        decreases roots.len(),
    {
        if roots.len() == 0 {
            None
        } else {
            match self.first_entry(roots.drop_last()) {
                Some(n) => Some(n),
                None => if self.entry_among(self.files, roots.last()) {
                    Some(roots.last())
                } else {
                    None
                },
            }
        }
    }

    /// Why the callers of the roots may not all show, where they may not.
    pub open spec fn caveat(self, roots: Seq<Seq<char>>) -> Option<(Seq<char>, DispatchKind)> {
        if roots.len() == 0 {
            None
        } else {
            match self.caveat_among(self.files, roots) {
                Some(c) => Some(c),
                None => match self.first_entry(roots) {
                    Some(n) => Some((n, DispatchKind::FrameworkEntry)),
                    None => None,
                },
            }
        }
    }
}

/// What a caveat says, with a text in place of the string.
pub open spec fn caveat_view(c: Option<(String, DispatchKind)>) -> Option<
    (Seq<char>, DispatchKind),
> {
    match c {
        Some((n, k)) => Some((n@, k)),
        None => None,
    }
}

/// What is found among a prefix is found among all.
proof fn lemma_caveat_in_stays(
    e: Entry,
    path: Seq<char>,
    defs: Seq<Def>,
    roots: Seq<Seq<char>>,
    n: int,
)
    requires
        0 <= n <= defs.len(),
        e.caveat_in(path, defs.take(n), roots) is Some,
    ensures
        e.caveat_in(path, defs, roots) == e.caveat_in(path, defs.take(n), roots),
    decreases defs.len() - n,
{
    if n < defs.len() {
        text::lemma_take_step(defs, n);
        lemma_caveat_in_stays(e, path, defs, roots, n + 1);
    } else {
        text::lemma_take_all(defs);
    }
}

proof fn lemma_caveat_stays(e: Entry, files: Seq<FileIndex>, roots: Seq<Seq<char>>, n: int)
    requires
        0 <= n <= files.len(),
        e.caveat_among(files.take(n), roots) is Some,
    ensures
        e.caveat_among(files, roots) == e.caveat_among(files.take(n), roots),
    decreases files.len() - n,
{
    if n < files.len() {
        text::lemma_take_step(files, n);
        lemma_caveat_stays(e, files, roots, n + 1);
    } else {
        text::lemma_take_all(files);
    }
}

proof fn lemma_first_entry_stays(e: Entry, roots: Seq<Seq<char>>, n: int)
    requires
        0 <= n <= roots.len(),
        e.first_entry(roots.take(n)) is Some,
    ensures
        e.first_entry(roots) == e.first_entry(roots.take(n)),
    decreases roots.len() - n,
{
    if n < roots.len() {
        text::lemma_take_step(roots, n);
        lemma_first_entry_stays(e, roots, n + 1);
    } else {
        text::lemma_take_all(roots);
    }
}

/// Why the callers of `roots` may not all show: one of them is entered by a
/// framework, by convention or by configuration. Nothing where none is.
pub fn dispatch_caveat<T: CallGraphTy>(
    roots: &Vec<String>,
    files: &Vec<FileIndex>,
    graph: &CallGraph<T>,
    hier: &Hierarchy,
    console: &Vec<String>,
) -> (r: Option<(String, DispatchKind)>)
    requires
        hier.describes(files@, graph.answers()),
    ensures
        caveat_view(r) == (Entry {
            files: files@,
            answers: graph.answers(),
            console: text::views(console@),
        }).caveat(text::views(roots@)),
{
    let ghost e = Entry { files: files@, answers: graph.answers(), console: text::views(console@) };
    let ghost names = text::views(roots@);
    if roots.len() == 0 {
        return None;
    }
    let classes = framework_managed_classes(files, hier, Ghost(graph.answers()));
    let ghost set = managed_set(files@, graph.answers());
    let mut i: usize = 0;
    while i < files.len()
        invariant
            i <= files@.len(),
            names == text::views(roots@),
            names.len() > 0,
            e == (Entry { files: files@, answers: graph.answers(), console: text::views(console@) }),
            set == managed_set(files@, graph.answers()),
            forall|n: Seq<char>| #[trigger] classes.keys().contains(n) <==> set.contains(n),
            e.caveat_among(files@.take(i as int), names) is None,
        decreases files@.len() - i,
    {
        let f = &files[i];
        let entry_file = is_entrypoint_file(f.path.as_str());
        proof {
            text::lemma_take_step(files@, i as int);
        }
        let mut j: usize = 0;
        while j < f.defs.len()
            invariant
                j <= f.defs@.len(),
                i < files@.len(),
                *f == files@[i as int],
                names == text::views(roots@),
                names.len() > 0,
                e == (Entry { files: files@, answers: graph.answers(), console: text::views(console@) }),
                set == managed_set(files@, graph.answers()),
                forall|n: Seq<char>| #[trigger] classes.keys().contains(n) <==> set.contains(n),
                entry_file == entrypoint_file(f.path@),
                e.caveat_among(files@.take(i as int), names) is None,
                e.caveat_in(f.path@, f.defs@.take(j as int), names) is None,
            decreases f.defs@.len() - j,
        {
            let d = &f.defs[j];
            proof {
                text::lemma_take_step(f.defs@, j as int);
                text::lemma_take_step(files@, i as int);
            }
            let name = fqn_of(f.path.as_str(), d);
            if listed(name.as_str(), roots) {
                let class = match d.kind {
                    DefKind::Class => true,
                    _ => false,
                };
                let mark = if d.decorated {
                    Some(DispatchKind::Decorated)
                } else if in_entry_class(f.path.as_str(), &d.container, &classes, Ghost(set)) || (
                class && classes.contains_key(&name)) {
                    Some(DispatchKind::FrameworkBase)
                } else if entry_file {
                    Some(DispatchKind::FrameworkEntry)
                } else {
                    None
                };
                assert(mark == e.marked(f.path@, *d));
                match mark {
                    Some(k) => {
                        proof {
                            lemma_caveat_in_stays(e, f.path@, f.defs@, names, j + 1);
                            lemma_caveat_stays(e, files@, names, i + 1);
                        }
                        return Some((name, k));
                    },
                    None => {},
                }
            }
            j = j + 1;
        }
        proof {
            text::lemma_take_all(f.defs@);
        }
        i = i + 1;
    }
    proof {
        text::lemma_take_all(files@);
    }
    let entry = framework_entry_fqns(files, graph, hier, console);
    let mut k: usize = 0;
    while k < roots.len()
        invariant
            k <= roots@.len(),
            names == text::views(roots@),
            names.len() > 0,
            e == (Entry { files: files@, answers: graph.answers(), console: text::views(console@) }),
            forall|n: Seq<char>| #[trigger]
                entry.keys().contains(n) <==> e.entry_among(files@, n),
            e.caveat_among(files@, names) is None,
            e.first_entry(names.take(k as int)) is None,
        decreases roots@.len() - k,
    {
        proof {
            text::lemma_take_step(names, k as int);
        }
        if entry.contains_key(&roots[k]) {
            proof {
                lemma_first_entry_stays(e, names, k + 1);
            }
            return Some((roots[k].clone(), DispatchKind::FrameworkEntry));
        }
        k = k + 1;
    }
    proof {
        text::lemma_take_all(names);
    }
    None
}

/// An entrypoint is live.
pub proof fn law_entrypoints_are_live(e: Entry, live: Set<Seq<char>>, s: Spot)
    requires
        live_names(e, live),
        e.seed_among(e.files, s),
    ensures
        live.contains(callgraph::landing(e.files, s)),
{
    let (h, t, extra, seeds) = choose|
        h: Hierarchy,
        t: Table<String, (String, u32)>,
        extra: Table<String, Vec<(String, u32)>>,
        seeds: Seq<Spot>,
    | #[trigger] live_by(e, h, t, extra, seeds, live);
    assert(seeds.contains(s));
    let i = choose|i: int| 0 <= i < seeds.len() && seeds[i] == s;
    closure_laws::law_reach_is_all_that_calls_lead_to(e.files, e.answers, extra, seeds, live);
    assert(live.contains(callgraph::landing(e.files, seeds[i])));
}

/// Whether, by the classes and definitions of the project, what overrides a live
/// method is live.
pub open spec fn overrides_live(
    e: Entry,
    h: Hierarchy,
    t: Table<String, (String, u32)>,
    live: Set<Seq<char>>,
) -> bool {
    &&& h.describes(e.files, e.answers)
    &&& forall|n: Seq<char>| #[trigger] place_of(t, n) == anchor_of(e.files, n)
    &&& forall|key: Seq<char>, i: int|
        live.contains(key) && 0 <= i < overrides_among(h, t, h.anchor.keys(), key).len()
            ==> live.contains(
            callgraph::landing(e.files, #[trigger] overrides_among(h, t, h.anchor.keys(), key)[i]),
        )
}

/// Where a live method is overridden, the override is live too.
pub proof fn law_overrides_of_live_are_live(e: Entry, live: Set<Seq<char>>)
    requires
        live_names(e, live),
    ensures
        exists|h: Hierarchy, t: Table<String, (String, u32)>| #[trigger]
            overrides_live(e, h, t, live),
{
    let (h, t, extra, seeds) = choose|
        h: Hierarchy,
        t: Table<String, (String, u32)>,
        extra: Table<String, Vec<(String, u32)>>,
        seeds: Seq<Spot>,
    | #[trigger] live_by(e, h, t, extra, seeds, live);
    closure_laws::law_reach_is_all_that_calls_lead_to(e.files, e.answers, extra, seeds, live);
    let stops = choose|stops: Seq<callgraph::Stop>|
        {
            &&& #[trigger] closure_laws::from_seeds(e.files, e.answers, extra, seeds, stops)
            &&& closure_laws::led_home(e.files, e.answers, extra, stops, stops.len() as int)
            &&& closure_laws::seeds_home(e.files, seeds, stops)
            &&& forall|x: Seq<char>| #[trigger]
                live.contains(x) <==> callgraph::arrived(stops, x)
        };
    assert forall|key: Seq<char>, i: int|
        live.contains(key) && 0 <= i < overrides_among(
            h,
            t,
            h.anchor.keys(),
            key,
        ).len() implies live.contains(
        callgraph::landing(e.files, #[trigger] overrides_among(h, t, h.anchor.keys(), key)[i]),
    ) by {
        let j = choose|j: int| 0 <= j < stops.len() && (#[trigger] stops[j]).fqn == key;
        let there = sort::each(extra.list(key));
        assert(there == overrides_among(h, t, h.anchor.keys(), key));
        let calls = (e.answers.outgoing)(stops[j].spot);
        let on = callgraph::leads_on(e.files, e.answers, extra, stops[j]);
        let k = calls.len() + i;
        assert(on[k] == callgraph::landings(e.files, there)[i]);
        assert(callgraph::arrived(stops, on[k].fqn));
    }
    assert(overrides_live(e, h, t, live));
}

proof fn lemma_standing_from(dead: Seq<DeadView>, some: Seq<DeadView>, d: DeadView)
    requires
        standing(dead, some).contains(d),
    ensures
        some.contains(d),
        !subsumed(dead, d),
    decreases some.len(),
{
    if some.len() > 0 {
        let t = some.drop_last();
        text::lemma_push_contains(standing(dead, t), some.last());
        text::lemma_push_contains(t, some.last());
        assert(some =~= t.push(some.last()));
        if standing(dead, t).contains(d) {
            lemma_standing_from(dead, t, d);
        }
    }
}

proof fn lemma_not_live_from(all: Seq<DeadView>, live: Set<Seq<char>>, d: DeadView)
    requires
        not_live(all, live).contains(d),
    ensures
        all.contains(d),
        !live.contains(d.fqn),
    decreases all.len(),
{
    if all.len() > 0 {
        let t = all.drop_last();
        text::lemma_push_contains(not_live(t, live), all.last());
        text::lemma_push_contains(t, all.last());
        assert(all =~= t.push(all.last()));
        if not_live(t, live).contains(d) {
            lemma_not_live_from(t, live, d);
        }
    }
}

/// What is reported dead is a callable of the project, is not live, and is no
/// method of a class that is reported itself.
pub proof fn law_reported_is_dead(
    files: Seq<FileIndex>,
    live: Set<Seq<char>>,
    dead: Seq<DeadView>,
    d: DeadView,
)
    requires
        dead == sort::sorted::<Dead>(
            standing(not_live(callables(files), live), not_live(callables(files), live)),
        ),
        dead.contains(d),
    ensures
        callables(files).contains(d),
        !live.contains(d.fqn),
        !subsumed(not_live(callables(files), live), d),
{
    let gone = not_live(callables(files), live);
    crate::sort::lemma_sorted_contains::<Dead>(standing(gone, gone), d);
    lemma_standing_from(gone, gone, d);
    lemma_not_live_from(callables(files), live, d);
}

} // verus!
