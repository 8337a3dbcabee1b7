//! What holds of the modules that imports name, and of the edges between them.
use crate::imports::{EdgeView, Graph};
use crate::imports;
use crate::model::{FileIndex, ImportStmt};
use crate::name_laws;
use crate::text;
use vstd::prelude::*;

verus! {

/// Whether the path of a file is made up of directories and a name, and no part of it is
/// empty or holds a dot.
pub open spec fn lies_in(path: Seq<char>, dirs: Seq<Seq<char>>, stem: Seq<char>) -> bool {
    &&& name_laws::path_names(dirs)
    &&& name_laws::all_plain(dirs)
    &&& name_laws::path_name(stem)
    &&& name_laws::plain(stem)
    &&& path == text::join(dirs.push(stem), "/"@) + ".py"@ || path == text::join(
        dirs.push(stem),
        "/"@,
    ) + ".pyi"@
}

/// A file's module is called after its directories and its name; a package after its
/// directories alone.
pub proof fn law_module_name(path: Seq<char>, dirs: Seq<Seq<char>>, stem: Seq<char>)
    requires
        lies_in(path, dirs, stem),
    ensures
        stem != "__init__"@ ==> imports::module_name(path) == (
            text::join(dirs.push(stem), "."@),
            false,
        ),
        stem == "__init__"@ ==> imports::module_name(path) == (text::join(dirs, "."@), true),
{
    reveal_strlit("/");
    assert("/"@ =~= seq!['/']);
    let ending = if path == text::join(dirs.push(stem), "/"@) + ".py"@ {
        ".py"@
    } else {
        ".pyi"@
    };
    name_laws::lemma_path_names(dirs, stem, ending, '/');
    assert(dirs.push(stem).drop_last() =~= dirs);
}

/// Whether an import is relative, goes up a number of directories from that of its file, and
/// takes from the module that the parts make up there.
pub open spec fn relative(stmt: ImportStmt, up: nat, parts: Seq<Seq<char>>) -> bool {
    &&& stmt.level == up + 1
    &&& parts.len() > 0
    &&& name_laws::all_plain(parts)
    &&& stmt.module@ == text::join(parts, "."@)
}

/// What a relative import starts from: the directory of its file for one dot, and one
/// directory further up for each more.
proof fn lemma_anchor(path: Seq<char>, dirs: Seq<Seq<char>>, stem: Seq<char>, up: nat)
    requires
        lies_in(path, dirs, stem),
        up <= dirs.len(),
        stem == "__init__"@ ==> dirs.len() > 0,
    ensures
        ({
            let (importer, pkg) = imports::module_name(path);
            imports::anchor_parts(importer, pkg, up + 1) == dirs.take(dirs.len() - up)
        }),
{
    law_module_name(path, dirs, stem);
    let (importer, pkg) = imports::module_name(path);
    if pkg {
        name_laws::lemma_parts_again(dirs);
        assert(imports::anchor_parts(importer, pkg, up + 1) =~= dirs.take(dirs.len() - up));
    } else {
        let all = dirs.push(stem);
        assert forall|k: int| 0 <= k < all.len() implies name_laws::plain(#[trigger] all[k]) by {
            if k < dirs.len() {
                assert(name_laws::plain(dirs[k]));
            }
        }
        name_laws::lemma_parts_again(all);
        assert(imports::anchor_parts(importer, pkg, up + 1) =~= dirs.take(dirs.len() - up));
    }
}

/// A relative import takes from the module of its name in a directory of the project: in
/// that of its file for one dot, and one further up for each more. It is so in a module and
/// in the `__init__` of a package alike.
pub proof fn law_relative_import(
    path: Seq<char>,
    dirs: Seq<Seq<char>>,
    stem: Seq<char>,
    stmt: ImportStmt,
    up: nat,
    parts: Seq<Seq<char>>,
)
    requires
        lies_in(path, dirs, stem),
        up <= dirs.len(),
        stem == "__init__"@ ==> dirs.len() > 0,
        relative(stmt, up, parts),
    ensures
        ({
            let (importer, pkg) = imports::module_name(path);
            imports::targets(importer, pkg, stmt).0 == seq![
                text::join(dirs.take(dirs.len() - up) + parts, "."@),
            ]
        }),
{
    lemma_anchor(path, dirs, stem, up);
    name_laws::lemma_parts_again(parts);
    lemma_join_filled(parts);
}

/// What is joined from parts is not empty.
proof fn lemma_join_filled(parts: Seq<Seq<char>>)
    requires
        parts.len() > 0,
        name_laws::all_plain(parts),
    ensures
        text::join(parts, "."@).len() > 0,
{
    assert(name_laws::plain(parts[parts.len() - 1]));
}

/// A relative import and the absolute one of the same module make the same edges.
pub proof fn law_relative_is_absolute(
    f: FileIndex,
    dirs: Seq<Seq<char>>,
    stem: Seq<char>,
    stmt: ImportStmt,
    up: nat,
    parts: Seq<Seq<char>>,
    other: ImportStmt,
    before: Seq<ImportStmt>,
    modules: Set<Seq<char>>,
)
    requires
        lies_in(f.path@, dirs, stem),
        up <= dirs.len(),
        stem == "__init__"@ ==> dirs.len() > 0,
        relative(stmt, up, parts),
        other.level == 0,
        other.module@ == text::join(dirs.take(dirs.len() - up) + parts, "."@),
        text::views(other.names@) == text::views(stmt.names@),
        other.pos == stmt.pos,
        other.context == stmt.context,
    ensures
        imports::file_edges(f, before.push(stmt), modules) == imports::file_edges(
            f,
            before.push(other),
            modules,
        ),
{
    law_relative_import(f.path@, dirs, stem, stmt, up, parts);
    lemma_anchor(f.path@, dirs, stem, up);
    name_laws::lemma_parts_again(parts);
    lemma_join_filled(parts);
    let (importer, pkg) = imports::module_name(f.path@);
    let all = dirs.take(dirs.len() - up) + parts;
    assert(name_laws::plain(parts[parts.len() - 1]));
    assert(all.last() == parts.last());
    assert(text::join(all, "."@).len() > 0);
    assert(imports::targets(importer, pkg, other) == imports::targets(importer, pkg, stmt));
    assert(before.push(stmt).drop_last() =~= before);
    assert(before.push(other).drop_last() =~= before);
    let (primary, subs) = imports::targets(importer, pkg, stmt);
    assert(imports::primary_edges(importer, f, stmt, primary, modules)
        =~= imports::primary_edges(importer, f, other, primary, modules));
    lemma_same_subs(importer, f, stmt, other, subs, modules);
}

proof fn lemma_same_subs(
    importer: Seq<char>,
    f: FileIndex,
    stmt: ImportStmt,
    other: ImportStmt,
    list: Seq<Seq<char>>,
    modules: Set<Seq<char>>,
)
    requires
        other.pos == stmt.pos,
        other.context == stmt.context,
    ensures
        imports::submodule_edges(importer, f, stmt, list, modules) == imports::submodule_edges(
            importer,
            f,
            other,
            list,
            modules,
        ),
    decreases list.len(),
{
    if list.len() > 0 {
        lemma_same_subs(importer, f, stmt, other, list.drop_last(), modules);
    }
}

/// An import of bare names from dots alone takes each name as a module of the directory that
/// the dots lead to.
pub proof fn law_names_from_dots(
    path: Seq<char>,
    dirs: Seq<Seq<char>>,
    stem: Seq<char>,
    stmt: ImportStmt,
    up: nat,
)
    requires
        lies_in(path, dirs, stem),
        up <= dirs.len(),
        stem == "__init__"@ ==> dirs.len() > 0,
        stmt.level == up + 1,
        stmt.module@.len() == 0,
    ensures
        ({
            let (importer, pkg) = imports::module_name(path);
            let r = imports::targets(importer, pkg, stmt).0;
            &&& r.len() == stmt.names@.len()
            &&& forall|k: int|
                0 <= k < r.len() ==> #[trigger] r[k] == text::join(
                    dirs.take(dirs.len() - up).push(stmt.names@[k]@),
                    "."@,
                )
        }),
{
    lemma_anchor(path, dirs, stem, up);
}

proof fn lemma_in_sum<A>(a: Seq<A>, b: Seq<A>, c: Seq<A>, x: A)
    ensures
        (a + b + c).contains(x) <==> a.contains(x) || b.contains(x) || c.contains(x),
{
    let s = a + b + c;
    if s.contains(x) {
        let k = choose|k: int| 0 <= k < s.len() && s[k] == x;
        if k < a.len() {
            assert(a[k] == x);
        } else if k < a.len() + b.len() {
            assert(b[k - a.len()] == x);
        } else {
            assert(c[k - a.len() - b.len()] == x);
        }
    }
    if a.contains(x) {
        let k = choose|k: int| 0 <= k < a.len() && a[k] == x;
        assert(s[k] == x);
    }
    if b.contains(x) {
        let k = choose|k: int| 0 <= k < b.len() && b[k] == x;
        assert(s[a.len() + k] == x);
    }
    if c.contains(x) {
        let k = choose|k: int| 0 <= k < c.len() && c[k] == x;
        assert(s[a.len() + b.len() + k] == x);
    }
}

proof fn lemma_submodules(
    importer: Seq<char>,
    f: FileIndex,
    stmt: ImportStmt,
    list: Seq<Seq<char>>,
    modules: Set<Seq<char>>,
    e: EdgeView,
)
    ensures
        imports::submodule_edges(importer, f, stmt, list, modules).contains(e) <==> list.contains(
            e.target,
        ) && modules.contains(e.target) && e.importer == importer && e.importer_file == f.path@
            && e.pos == stmt.pos && e.internal && e.context == stmt.context,
    decreases list.len(),
{
    if list.len() > 0 {
        let less = list.drop_last();
        lemma_submodules(importer, f, stmt, less, modules, e);
        let before = imports::submodule_edges(importer, f, stmt, less, modules);
        let last = EdgeView {
            importer,
            importer_file: f.path@,
            target: list.last(),
            pos: stmt.pos,
            internal: true,
            context: stmt.context,
        };
        text::lemma_push_contains(before, last);
        text::lemma_push_contains(less, list.last());
        assert(list =~= less.push(list.last()));
    }
}

proof fn lemma_primary(
    importer: Seq<char>,
    f: FileIndex,
    stmt: ImportStmt,
    list: Seq<Seq<char>>,
    modules: Set<Seq<char>>,
    e: EdgeView,
)
    ensures
        imports::primary_edges(importer, f, stmt, list, modules).contains(e) <==> (exists|k: int|
            0 <= k < list.len() && imports::canonical(#[trigger] list[k], modules) == e.target)
            && e.importer == importer && e.importer_file == f.path@ && e.pos == stmt.pos
            && e.internal == imports::internal_target(e.target, modules) && e.context
            == stmt.context,
{
    let s = imports::primary_edges(importer, f, stmt, list, modules);
    if s.contains(e) {
        let k = choose|k: int| 0 <= k < s.len() && s[k] == e;
        assert(imports::canonical(list[k], modules) == e.target);
    }
    if (exists|k: int|
        0 <= k < list.len() && imports::canonical(#[trigger] list[k], modules) == e.target)
        && e.importer == importer && e.importer_file == f.path@ && e.pos == stmt.pos && e.internal
        == imports::internal_target(e.target, modules) && e.context == stmt.context {
        let k = choose|k: int|
            0 <= k < list.len() && imports::canonical(#[trigger] list[k], modules) == e.target;
        assert(s[k] =~= e);
    }
}

/// Whether an edge is that of an import of a file: it stands where the import does, runs when
/// it does, and leads to the module that the import takes from, or to one of the names it
/// takes that is a module of the project.
pub open spec fn edge_of(
    f: FileIndex,
    stmt: ImportStmt,
    modules: Set<Seq<char>>,
    e: EdgeView,
) -> bool {
    let (importer, pkg) = imports::module_name(f.path@);
    let (primary, subs) = imports::targets(importer, pkg, stmt);
    &&& e.importer == importer
    &&& e.importer_file == f.path@
    &&& e.pos == stmt.pos
    &&& e.context == stmt.context
    &&& ((exists|k: int|
        0 <= k < primary.len() && imports::canonical(#[trigger] primary[k], modules) == e.target)
        && e.internal == imports::internal_target(e.target, modules)) || (subs.contains(e.target)
        && modules.contains(e.target) && e.internal)
}

proof fn lemma_file_edges(
    f: FileIndex,
    stmts: Seq<ImportStmt>,
    modules: Set<Seq<char>>,
    e: EdgeView,
)
    ensures
        imports::file_edges(f, stmts, modules).contains(e) <==> exists|k: int|
            0 <= k < stmts.len() && edge_of(f, #[trigger] stmts[k], modules, e),
    decreases stmts.len(),
{
    if stmts.len() > 0 {
        let less = stmts.drop_last();
        let stmt = stmts.last();
        let (importer, pkg) = imports::module_name(f.path@);
        let (primary, subs) = imports::targets(importer, pkg, stmt);
        lemma_file_edges(f, less, modules, e);
        lemma_primary(importer, f, stmt, primary, modules, e);
        lemma_submodules(importer, f, stmt, subs, modules, e);
        lemma_in_sum(
            imports::file_edges(f, less, modules),
            imports::primary_edges(importer, f, stmt, primary, modules),
            imports::submodule_edges(importer, f, stmt, subs, modules),
            e,
        );
        if imports::file_edges(f, less, modules).contains(e) {
            let k = choose|k: int| 0 <= k < less.len() && edge_of(f, #[trigger] less[k], modules, e);
            assert(stmts[k] == less[k]);
        }
        if edge_of(f, stmt, modules, e) {
            assert(stmts[stmts.len() - 1] == stmt);
        }
        assert forall|k: int|
            0 <= k < stmts.len() && edge_of(
                f,
                #[trigger] stmts[k],
                modules,
                e,
            ) implies imports::file_edges(f, stmts, modules).contains(e) by {
            if k < less.len() {
                assert(less[k] == stmts[k]);
            }
        }
    }
}

/// Whether the files have an import at an index whose edge it is.
pub open spec fn from_import(
    files: Seq<FileIndex>,
    modules: Set<Seq<char>>,
    e: EdgeView,
    i: int,
    k: int,
) -> bool {
    0 <= i < files.len() && 0 <= k < files[i].imports@.len() && edge_of(
        files[i],
        files[i].imports@[k],
        modules,
        e,
    )
}

/// The edges are those of the imports of the files, and no others.
pub proof fn law_edges_are_imports(files: Seq<FileIndex>, modules: Set<Seq<char>>, e: EdgeView)
    ensures
        imports::all_edges(files, modules).contains(e) <==> exists|i: int, k: int|
            from_import(files, modules, e, i, k),
    decreases files.len(),
{
    if files.len() > 0 {
        let less = files.drop_last();
        let f = files.last();
        let n = files.len() - 1;
        let before = imports::all_edges(less, modules);
        let here = imports::file_edges(f, f.imports@, modules);
        law_edges_are_imports(less, modules, e);
        lemma_file_edges(f, f.imports@, modules, e);
        lemma_in_sum(before, here, Seq::empty(), e);
        assert(before + here + Seq::<EdgeView>::empty() =~= before + here);
        if before.contains(e) {
            let (i, k) = choose|i: int, k: int| from_import(less, modules, e, i, k);
            assert(from_import(files, modules, e, i, k));
        }
        if here.contains(e) {
            let k = choose|k: int|
                0 <= k < f.imports@.len() && edge_of(f, #[trigger] f.imports@[k], modules, e);
            assert(from_import(files, modules, e, n, k));
        }
        if exists|i: int, k: int| from_import(files, modules, e, i, k) {
            let (i, k) = choose|i: int, k: int| from_import(files, modules, e, i, k);
            if i < n {
                assert(from_import(less, modules, e, i, k));
            } else {
                assert(edge_of(f, f.imports@[k], modules, e));
            }
        }
    }
}

/// The modules of a project are those of its files.
pub proof fn law_modules_are_files(files: Seq<FileIndex>, m: Seq<char>)
    ensures
        imports::modules_of(files).contains_key(m) <==> exists|i: int|
            0 <= i < files.len() && imports::module_name((#[trigger] files[i]).path@).0 == m,
    decreases files.len(),
{
    if files.len() > 0 {
        let less = files.drop_last();
        law_modules_are_files(less, m);
        if imports::modules_of(less).contains_key(m) {
            let i = choose|i: int|
                0 <= i < less.len() && imports::module_name((#[trigger] less[i]).path@).0 == m;
            assert(files[i] == less[i]);
        }
        if imports::module_name(files.last().path@).0 == m {
            assert(files[files.len() - 1] == files.last());
        }
        assert forall|i: int|
            0 <= i < files.len() && imports::module_name(
                (#[trigger] files[i]).path@,
            ).0 == m implies imports::modules_of(files).contains_key(m) by {
            if i < less.len() {
                assert(less[i] == files[i]);
            }
        }
    }
}

/// An absolute import of a module of the project has an edge to it, at its place, that stays
/// in the project.
pub proof fn law_import_of_a_module_has_an_edge(
    files: Seq<FileIndex>,
    i: int,
    k: int,
    dirs: Seq<Seq<char>>,
    stem: Seq<char>,
    g: int,
)
    requires
        0 <= i < files.len(),
        0 <= k < files[i].imports@.len(),
        files[i].imports@[k].level == 0,
        0 <= g < files.len(),
        lies_in(files[g].path@, dirs, stem),
        stem != "__init__"@,
        files[i].imports@[k].module@ == text::join(dirs.push(stem), "."@),
    ensures
        imports::all_edges(files, imports::modules_of(files).dom()).contains(
            (EdgeView {
                importer: imports::module_name(files[i].path@).0,
                importer_file: files[i].path@,
                target: text::join(dirs.push(stem), "."@),
                pos: files[i].imports@[k].pos,
                internal: true,
                context: files[i].imports@[k].context,
            }),
        ),
{
    let m = text::join(dirs.push(stem), "."@);
    let modules = imports::modules_of(files).dom();
    law_module_name(files[g].path@, dirs, stem);
    law_modules_are_files(files, m);
    assert(imports::module_name(files[g].path@).0 == m);
    assert(modules.contains(m));
    let e = EdgeView {
        importer: imports::module_name(files[i].path@).0,
        importer_file: files[i].path@,
        target: m,
        pos: files[i].imports@[k].pos,
        internal: true,
        context: files[i].imports@[k].context,
    };
    let (importer, pkg) = imports::module_name(files[i].path@);
    let all = dirs.push(stem);
    assert(all.last() == stem);
    assert(m.len() > 0) by {
        assert(text::join(all, "."@).len() >= stem.len());
    }
    let primary = imports::targets(importer, pkg, files[i].imports@[k]).0;
    assert(primary[0] == m);
    assert(imports::canonical(primary[0], modules) == m);
    assert(edge_of(files[i], files[i].imports@[k], modules, e));
    assert(from_import(files, modules, e, i, k));
    law_edges_are_imports(files, modules, e);
}

/// A name taken from a module of the project that is a module itself has an edge as well.
pub proof fn law_import_of_a_submodule_has_an_edge(
    files: Seq<FileIndex>,
    i: int,
    k: int,
    n: int,
)
    requires
        0 <= i < files.len(),
        0 <= k < files[i].imports@.len(),
        files[i].imports@[k].level == 0,
        files[i].imports@[k].module@.len() > 0,
        0 <= n < files[i].imports@[k].names@.len(),
        imports::modules_of(files).contains_key(
            files[i].imports@[k].module@ + "."@ + files[i].imports@[k].names@[n]@,
        ),
    ensures
        imports::all_edges(files, imports::modules_of(files).dom()).contains(
            (EdgeView {
                importer: imports::module_name(files[i].path@).0,
                importer_file: files[i].path@,
                target: files[i].imports@[k].module@ + "."@ + files[i].imports@[k].names@[n]@,
                pos: files[i].imports@[k].pos,
                internal: true,
                context: files[i].imports@[k].context,
            }),
        ),
{
    let stmt = files[i].imports@[k];
    let m = stmt.module@ + "."@ + stmt.names@[n]@;
    let modules = imports::modules_of(files).dom();
    let e = EdgeView {
        importer: imports::module_name(files[i].path@).0,
        importer_file: files[i].path@,
        target: m,
        pos: stmt.pos,
        internal: true,
        context: stmt.context,
    };
    let (importer, pkg) = imports::module_name(files[i].path@);
    let subs = imports::targets(importer, pkg, stmt).1;
    assert(subs[n] == m);
    assert(edge_of(files[i], stmt, modules, e));
    assert(from_import(files, modules, e, i, k));
    law_edges_are_imports(files, modules, e);
}

/// A target that is no module of the project, but ends the name of just one after a dot,
/// means that one; one that ends none, or several, stays as it is.
pub proof fn law_short_names_of_modules(target: Seq<char>, modules: Set<Seq<char>>, m: Seq<char>)
    requires
        !modules.contains(target),
    ensures
        (modules.contains(m) && text::ends(m, "."@ + target) && (forall|o: Seq<char>| #[trigger]
            modules.contains(o) && text::ends(o, "."@ + target) ==> o == m)) ==> imports::canonical(
            target,
            modules,
        ) == m,
        (forall|o: Seq<char>| #[trigger] modules.contains(o) ==> !text::ends(o, "."@ + target))
            ==> imports::canonical(target, modules) == target,
        (exists|a: Seq<char>, b: Seq<char>|
            #![trigger modules.contains(a), modules.contains(b)]
            modules.contains(a) && modules.contains(b) && a != b && text::ends(a, "."@ + target)
                && text::ends(b, "."@ + target)) ==> imports::canonical(target, modules) == target,
{
    if modules.contains(m) && text::ends(m, "."@ + target) && (forall|o: Seq<char>| #[trigger]
        modules.contains(o) && text::ends(o, "."@ + target) ==> o == m) {
        assert(imports::only_match(modules, "."@ + target, m));
    }
}

/// A module of the project stays in it, and so does every package on the way to it. What is
/// neither leaves it.
pub proof fn law_packages_are_internal(parts: Seq<Seq<char>>, k: int, modules: Set<Seq<char>>)
    requires
        0 < k <= parts.len(),
        modules.contains(text::join(parts, "."@)),
    ensures
        imports::internal_target(text::join(parts.take(k), "."@), modules),
{
    let m = text::join(parts, "."@);
    let t = text::join(parts.take(k), "."@);
    if k == parts.len() {
        assert(parts.take(k) =~= parts);
    } else {
        let head = parts.take(k);
        let tail = parts.skip(k);
        assert(parts =~= head + tail);
        name_laws::lemma_join_at(head, tail, "."@);
        let p = t + "."@;
        assert(m.subrange(0, p.len() as int) =~= p);
        assert(text::starts(m, p));
    }
}

/// Whether a module imports another when it is imported itself: by a statement outside every
/// function, and not for types alone.
pub open spec fn imports_at_once(g: Graph, a: Seq<char>, b: Seq<char>) -> bool {
    exists|i: int|
        0 <= i < g.edges@.len() && (#[trigger] g.edges@[i]).importer@ == a && g.edges@[i].target@
            == b && g.edges@[i].context is TopLevel
}

proof fn lemma_reported_next(g: Graph, r: Seq<Seq<Seq<char>>>, k: int, i: int)
    requires
        g.cycles_are(r),
        0 <= k < r.len(),
        0 <= i < r[k].len(),
    ensures
        g.imports(r[k][i], r[k][(i + 1) % r[k].len() as int]),
{
    imports::law_reported_cycles_are_cycles(g, r, k);
}

/// A circle that is reported closes when it is imported: each module of it imports the next at
/// once, and the last the first. An import in a function, or for types alone, closes none.
pub proof fn law_cycles_close_at_once(g: Graph, r: Seq<Seq<Seq<char>>>, k: int, i: int)
    requires
        g.cycles_are(r),
        0 <= k < r.len(),
        0 <= i < r[k].len(),
    ensures
        i + 1 < r[k].len() ==> imports_at_once(g, r[k][i], r[k][i + 1]),
        i + 1 == r[k].len() ==> imports_at_once(g, r[k][i], r[k][0]),
{
    lemma_reported_next(g, r, k, i);
    let c = r[k];
    let n = c.len() as int;
    let next = c[(i + 1) % n];
    let e = choose|e: int| #[trigger]
        g.counts(e) && g.edges@[e].importer@ == c[i] && g.edges@[e].target@ == next;
    assert(g.edges@[e].importer@ == c[i]);
    if i + 1 < n {
        assert((i + 1) % n == i + 1) by (nonlinear_arith)
            requires
                0 <= i + 1 < n,
        ;
    } else {
        assert((i + 1) % n == 0) by (nonlinear_arith)
            requires
                i + 1 == n,
                n > 0,
        ;
    }
}

proof fn lemma_circle_of_one(g: Graph, a: Seq<char>)
    requires
        g.imports(a, a),
    ensures
        g.is_cycle(seq![a]),
{
    let c = seq![a];
    assert(c.no_duplicates());
    if !g.is_cycle(c) {
        let k = choose|k: int|
            0 <= k < c.len() && !g.imports(#[trigger] c[k], c[(k + 1) % c.len() as int]);
        assert(k == 0);
        assert((k + 1) % 1 == 0);
        assert(c[(k + 1) % c.len() as int] == a);
    }
}

proof fn lemma_circle_of_two(g: Graph, a: Seq<char>, b: Seq<char>)
    requires
        g.imports(a, b),
        g.imports(b, a),
        a != b,
    ensures
        g.is_cycle(seq![a, b]),
{
    let c = seq![a, b];
    assert(c.no_duplicates());
    if !g.is_cycle(c) {
        let k = choose|k: int|
            0 <= k < c.len() && !g.imports(#[trigger] c[k], c[(k + 1) % c.len() as int]);
        if k == 0 {
            assert((k + 1) % 2 == 1);
            assert(c[(k + 1) % c.len() as int] == b);
        } else {
            assert(k == 1);
            assert((k + 1) % 2 == 0);
            assert(c[(k + 1) % c.len() as int] == a);
        }
    }
}

proof fn lemma_counts(g: Graph, a: Seq<char>, b: Seq<char>)
    requires
        imports_at_once(g, a, b),
        g.modules().contains_key(b),
    ensures
        g.imports(a, b),
{
    let i = choose|i: int|
        0 <= i < g.edges@.len() && (#[trigger] g.edges@[i]).importer@ == a && g.edges@[i].target@
            == b && g.edges@[i].context is TopLevel;
    assert(g.counts(i));
}

/// Modules of the project that import each other at once are reported.
pub proof fn law_circle_is_reported(
    g: Graph,
    r: Seq<Seq<Seq<char>>>,
    a: Seq<char>,
    b: Seq<char>,
)
    requires
        g.cycles_are(r),
        imports_at_once(g, a, b),
        imports_at_once(g, b, a),
        g.modules().contains_key(a),
        g.modules().contains_key(b),
    ensures
        r.len() > 0,
{
    lemma_counts(g, a, b);
    lemma_counts(g, b, a);
    if a != b {
        lemma_circle_of_two(g, a, b);
        imports::law_every_cycle_is_reported(g, r, seq![a, b]);
    } else {
        lemma_circle_of_one(g, a);
        imports::law_every_cycle_is_reported(g, r, seq![a]);
    }
}

} // verus!
