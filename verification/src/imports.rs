//! The import graph of a project.
//!
//! Each file is a module; each import statement leads to one or more modules.
//! Targets that a project module matches, exactly or as a package, are
//! internal. Cycles are the strongly connected components over the imports that
//! run when a module is imported.
use crate::model::{FileIndex, ImportContext, ImportStmt, Pos};
use crate::names::{extended, path_names_of};
use crate::names;
use crate::scc::tarjan_scc;
use crate::scc;
use crate::table::Table;
use crate::table;
use crate::text::{cat, cat3, ends_with, has_char, join_with, same, split_on, starts_with, without_leading, without_trailing};
use crate::text;
use vstd::prelude::*;

verus! {

/// One import of a target by a module.
pub struct Edge {
    pub importer: String,
    pub importer_file: String,
    pub target: String,
    pub pos: Pos,
    pub internal: bool,
    /// When the import runs.
    pub context: ImportContext,
}

/// What an edge says, with texts in place of strings.
#[verifier::ext_equal]
pub struct EdgeView {
    pub importer: Seq<char>,
    pub importer_file: Seq<char>,
    pub target: Seq<char>,
    pub pos: Pos,
    pub internal: bool,
    pub context: ImportContext,
}

impl View for Edge {
    type V = EdgeView;

    open spec fn view(&self) -> EdgeView {
        EdgeView {
            importer: self.importer@,
            importer_file: self.importer_file@,
            target: self.target@,
            pos: self.pos,
            internal: self.internal,
            context: self.context,
        }
    }
}

/// What each edge of a list says.
pub open spec fn edge_views(s: Seq<Edge>) -> Seq<EdgeView> {
    Seq::new(s.len(), |i: int| s[i]@)
}

/// The import graph.
pub struct Graph {
    pub edges: Vec<Edge>,
    /// The file of each project module.
    pub module_file: Table<String, String>,
}

/// The name of a file's module, and whether it is a package.
pub open spec fn module_name(path: Seq<char>) -> (Seq<char>, bool) {
    let names = names::path_names(path);
    if names.len() > 0 && names.last() == "__init__"@ {
        (text::join(names.drop_last(), "."@), true)
    } else {
        (text::join(names, "."@), false)
    }
}

/// The file of each module; of two files with one module name, the later.
pub open spec fn modules_of(files: Seq<FileIndex>) -> Map<Seq<char>, String>
    decreases files.len(),
{
    if files.len() == 0 {
        Map::empty()
    } else {
        modules_of(files.drop_last()).insert(
            module_name(files.last().path@).0,
            files.last().path,
        )
    }
}

/// Whether `m` is the one module whose name ends with `suffix`.
pub open spec fn only_match(modules: Set<Seq<char>>, suffix: Seq<char>, m: Seq<char>) -> bool {
    &&& modules.contains(m)
    &&& text::ends(m, suffix)
    &&& forall|o: Seq<char>| #[trigger] modules.contains(o) && text::ends(o, suffix) ==> o == m
}

/// The module that a target names: itself where it is a module, else the one
/// module whose name ends with it, else the target as it is.
pub open spec fn canonical(target: Seq<char>, modules: Set<Seq<char>>) -> Seq<char> {
    if !modules.contains(target) && exists|m: Seq<char>|
        only_match(modules, "."@ + target, m) {
        choose|m: Seq<char>| only_match(modules, "."@ + target, m)
    } else {
        target
    }
}

/// Whether a target is a project module, or a package of one.
pub open spec fn internal_target(target: Seq<char>, modules: Set<Seq<char>>) -> bool {
    modules.contains(target) || exists|m: Seq<char>| #[trigger]
        modules.contains(m) && text::starts(m, target + "."@)
}

/// `module.name` for each of the names.
pub open spec fn members(module: Seq<char>, names: Seq<Seq<char>>) -> Seq<Seq<char>> {
    Seq::new(names.len(), |i: int| module + "."@ + names[i])
}

/// The parts of the package that a relative import starts from.
pub open spec fn anchor_parts(importer: Seq<char>, pkg: bool, level: nat) -> Seq<Seq<char>> {
    let parts = text::split(importer, "."@);
    let up = if pkg {
        (level - 1) as int
    } else {
        level as int
    };
    if up >= parts.len() {
        Seq::empty()
    } else {
        parts.take(parts.len() - up)
    }
}

/// The modules that an import takes from, and the names that may be modules
/// inside them.
pub open spec fn targets(importer: Seq<char>, pkg: bool, stmt: ImportStmt) -> (
    Seq<Seq<char>>,
    Seq<Seq<char>>,
) {
    let names = text::views(stmt.names@);
    if stmt.level == 0 {
        if stmt.module@.len() == 0 {
            (Seq::empty(), Seq::empty())
        } else {
            (seq![stmt.module@], members(stmt.module@, names))
        }
    } else {
        let base = anchor_parts(importer, pkg, stmt.level as nat);
        if stmt.module@.len() == 0 {
            (Seq::new(names.len(), |i: int| text::join(base.push(names[i]), "."@)), Seq::empty())
        } else {
            let target = text::join(base + text::split(stmt.module@, "."@), "."@);
            (seq![target], members(target, names))
        }
    }
}

/// The edges to the modules an import takes from.
pub open spec fn primary_edges(
    importer: Seq<char>,
    f: FileIndex,
    stmt: ImportStmt,
    list: Seq<Seq<char>>,
    modules: Set<Seq<char>>,
) -> Seq<EdgeView> {
    Seq::new(
        list.len(),
        |i: int|
            EdgeView {
                importer,
                importer_file: f.path@,
                target: canonical(list[i], modules),
                pos: stmt.pos,
                internal: internal_target(canonical(list[i], modules), modules),
                context: stmt.context,
            },
    )
}

/// The edges to the imported names that are project modules.
pub open spec fn submodule_edges(
    importer: Seq<char>,
    f: FileIndex,
    stmt: ImportStmt,
    list: Seq<Seq<char>>,
    modules: Set<Seq<char>>,
) -> Seq<EdgeView>
    decreases list.len(),
{
    if list.len() == 0 {
        Seq::empty()
    } else {
        let before = submodule_edges(importer, f, stmt, list.drop_last(), modules);
        if modules.contains(list.last()) {
            before.push(
                EdgeView {
                    importer,
                    importer_file: f.path@,
                    target: list.last(),
                    pos: stmt.pos,
                    internal: true,
                    context: stmt.context,
                },
            )
        } else {
            before
        }
    }
}

/// The edges of the first imports of a file.
pub open spec fn file_edges(
    f: FileIndex,
    imports: Seq<ImportStmt>,
    modules: Set<Seq<char>>,
) -> Seq<EdgeView>
    decreases imports.len(),
{
    if imports.len() == 0 {
        Seq::empty()
    } else {
        let (importer, pkg) = module_name(f.path@);
        let (primary, subs) = targets(importer, pkg, imports.last());
        file_edges(f, imports.drop_last(), modules) + primary_edges(
            importer,
            f,
            imports.last(),
            primary,
            modules,
        ) + submodule_edges(importer, f, imports.last(), subs, modules)
    }
}

/// The edges of all files.
pub open spec fn all_edges(files: Seq<FileIndex>, modules: Set<Seq<char>>) -> Seq<EdgeView>
    decreases files.len(),
{
    if files.len() == 0 {
        Seq::empty()
    } else {
        all_edges(files.drop_last(), modules) + file_edges(
            files.last(),
            files.last().imports@,
            modules,
        )
    }
}

/// The name of a file's module, and whether it is a package.
pub fn module_of(path: &str) -> (r: (String, bool))
    ensures
        (r.0@, r.1) == module_name(path@),
{
    let mut names = path_names_of(path);
    let ghost all = text::views(names@);
    let n: usize = names.len();
    if n > 0 && same(names[n - 1].as_str(), "__init__") {
        assert(all.last() == "__init__"@);
        let last = names.pop();
        assert(text::views(names@) =~= all.drop_last());
        (join_with(&names, "."), true)
    } else {
        (join_with(&names, "."), false)
    }
}

/// The module that a target names.
fn canonicalize_target(target: &str, module_file: &Table<String, String>) -> (r: String)
    ensures
        r@ == canonical(target@, module_file.map().dom()),
{
    let ghost modules = module_file.map().dom();
    let whole = target.to_owned();
    if module_file.contains_key(&whole) {
        return whole;
    }
    let suffix = cat(".", target);
    let found = module_file.sole_match(suffix.as_str());
    proof {
        module_file.lemma_rows();
        assert forall|m: Seq<char>| only_match(modules, suffix@, m) <==> #[trigger]
            crate::table::sole(module_file.keys(), suffix@, m) by {
            assert(forall|o: Seq<char>| #[trigger]
                modules.contains(o) <==> module_file.keys().contains(o));
        }
    }
    match found {
        Some(j) => {
            proof {
                let a = module_file.keys()[j as int];
                assert(only_match(modules, suffix@, a));
                assert forall|m: Seq<char>| only_match(modules, suffix@, m) implies m == a by {
                    assert(modules.contains(m));
                }
            }
            module_file.key(j).clone()
        },
        None => {
            proof {
                assert forall|m: Seq<char>| !only_match(modules, suffix@, m) by {
                    assert(!crate::table::sole(module_file.keys(), suffix@, m));
                }
            }
            whole
        },
    }
}

/// Whether a target is a project module, or a package of one.
fn is_internal(target: &str, module_file: &Table<String, String>) -> (r: bool)
    ensures
        r == internal_target(target@, module_file.map().dom()),
{
    let ghost modules = module_file.map().dom();
    let n: usize = module_file.len();
    proof {
        module_file.lemma_rows();
    }
    let whole = target.to_owned();
    if module_file.contains_key(&whole) {
        return true;
    }
    let prefix = cat(target, ".");
    let mut i: usize = 0;
    while i < n
        invariant
            n == module_file.keys().len(),
            i <= n,
            modules == module_file.map().dom(),
            forall|k: Seq<char>| #[trigger]
                module_file.map().contains_key(k) <==> module_file.keys().contains(k),
            prefix@ == target@ + "."@,
            !modules.contains(target@),
            forall|k: int| 0 <= k < i ==> !text::starts(#[trigger] module_file.keys()[k], prefix@),
        decreases n - i,
    {
        if starts_with(module_file.key(i).as_str(), prefix.as_str()) {
            proof {
                let m = module_file.keys()[i as int];
                assert(module_file.keys().contains(m));
                assert(modules.contains(m));
            }
            return true;
        }
        i = i + 1;
    }
    proof {
        assert forall|m: Seq<char>| #[trigger] modules.contains(m) implies !text::starts(m, prefix@) by {
            assert(module_file.keys().contains(m));
            let k = choose|k: int|
                0 <= k < module_file.keys().len() && module_file.keys()[k] == m;
            assert(!text::starts(module_file.keys()[k], prefix@));
        }
    }
    false
}

/// The module name that a query means: that of a file where it is a path, else
/// the query without the dots around it.
pub open spec fn query_module(arg: Seq<char>) -> Seq<char> {
    if text::ends(arg, ".py"@) || text::ends(arg, ".pyi"@) || arg.contains('/') || arg.contains('\\') {
        module_name(arg).0
    } else {
        text::drop_trailing(text::drop_leading(arg, '.'), '.')
    }
}

/// The module name that a query means.
pub fn normalize_query(arg: &str) -> (r: String)
    ensures
        r@ == query_module(arg@),
{
    if ends_with(arg, ".py") || ends_with(arg, ".pyi") || has_char(arg, '/') || has_char(arg, '\\') {
        module_of(arg).0
    } else {
        let head = without_leading(arg, '.');
        without_trailing(head.as_str(), '.')
    }
}

/// `module.name` for each of the names.
fn members_of(module: &str, names: &Vec<String>) -> (r: Vec<String>)
    ensures
        text::views(r@) == members(module@, text::views(names@)),
{
    let mut out: Vec<String> = Vec::new();
    let mut i: usize = 0;
    while i < names.len()
        invariant
            i <= names@.len(),
            out@.len() == i,
            forall|k: int|
                0 <= k < i ==> #[trigger] out@[k]@ == members(module@, text::views(names@))[k],
        decreases names@.len() - i,
    {
        out.push(cat3(module, ".", names[i].as_str()));
        i = i + 1;
    }
    assert(text::views(out@) =~= members(module@, text::views(names@)));
    out
}

/// The parts of the package that a relative import starts from.
fn anchor_of(importer: &str, pkg: bool, level: u32) -> (r: Vec<String>)
    requires
        level > 0,
    ensures
        text::views(r@) == anchor_parts(importer@, pkg, level as nat),
{
    let mut base = split_on(importer, ".");
    let ghost parts = text::views(base@);
    let up: u32 = if pkg {
        level - 1
    } else {
        level
    };
    let mut gone: u32 = 0;
    proof {
        text::lemma_take_all(parts);
    }
    while gone < up && base.len() > 0
        invariant
            gone <= up,
            parts == text::split(importer@, "."@),
            gone <= parts.len(),
            base@.len() == parts.len() - gone,
            text::views(base@) == parts.take(parts.len() - gone),
        decreases up - gone,
    {
        base.pop();
        assert(text::views(base@) =~= parts.take(parts.len() - gone - 1));
        gone = gone + 1;
    }
    proof {
        if up >= parts.len() {
            assert(text::views(base@) =~= Seq::<Seq<char>>::empty());
        }
    }
    base
}

/// The modules that an import takes from, and the names that may be modules
/// inside them.
fn resolve_targets(importer: &str, pkg: bool, stmt: &ImportStmt) -> (r: (Vec<String>, Vec<String>))
    ensures
        (text::views(r.0@), text::views(r.1@)) == targets(importer@, pkg, *stmt),
{
    let none: Vec<String> = Vec::new();
    assert(text::views(none@) =~= Seq::<Seq<char>>::empty());
    if stmt.level == 0 {
        if stmt.module.as_str().is_empty() {
            let other: Vec<String> = Vec::new();
            assert(text::views(other@) =~= Seq::<Seq<char>>::empty());
            return (none, other);
        }
        let mut primary: Vec<String> = Vec::new();
        primary.push(stmt.module.clone());
        assert(text::views(primary@) =~= seq![stmt.module@]);
        return (primary, members_of(stmt.module.as_str(), &stmt.names));
    }
    let base = anchor_of(importer, pkg, stmt.level);
    let ghost from = text::views(base@);
    if !stmt.module.as_str().is_empty() {
        let mut whole = base;
        let mut inner = split_on(stmt.module.as_str(), ".");
        let ghost tail = text::views(inner@);
        whole.append(&mut inner);
        assert(text::views(whole@) =~= from + tail);
        let target = join_with(&whole, ".");
        let subs = members_of(target.as_str(), &stmt.names);
        let mut primary: Vec<String> = Vec::new();
        primary.push(target);
        assert(text::views(primary@) =~= seq![target@]);
        (primary, subs)
    } else {
        let mut primary: Vec<String> = Vec::new();
        let ghost names = text::views(stmt.names@);
        let ghost want = Seq::new(names.len(), |i: int| text::join(from.push(names[i]), "."@));
        let mut i: usize = 0;
        while i < stmt.names.len()
            invariant
                i <= stmt.names@.len(),
                names == text::views(stmt.names@),
                from == text::views(base@),
                want == Seq::new(names.len(), |i: int| text::join(from.push(names[i]), "."@)),
                primary@.len() == i,
                forall|k: int| 0 <= k < i ==> #[trigger] primary@[k]@ == want[k],
            decreases stmt.names@.len() - i,
        {
            let parts = extended(&base, stmt.names[i].as_str());
            primary.push(join_with(&parts, "."));
            i = i + 1;
        }
        assert(text::views(primary@) =~= want);
        (primary, none)
    }
}


/// Appends the edges of one import statement.
fn add_statement(
    out: &mut Vec<Edge>,
    f: &FileIndex,
    importer: &String,
    pkg: bool,
    stmt: &ImportStmt,
    module_file: &Table<String, String>,
)
    requires
        (importer@, pkg) == module_name(f.path@),
    ensures
        ({
            let (primary, subs) = targets(importer@, pkg, *stmt);
            let modules = module_file.map().dom();
            edge_views(final(out)@) == edge_views(old(out)@) + primary_edges(
                importer@,
                *f,
                *stmt,
                primary,
                modules,
            ) + submodule_edges(importer@, *f, *stmt, subs, modules)
        }),
{
    let ghost modules = module_file.map().dom();
    let (primary, subs) = resolve_targets(importer.as_str(), pkg, stmt);
    let ghost start = edge_views(out@);
    let ghost first = primary_edges(importer@, *f, *stmt, text::views(primary@), modules);
    let mut i: usize = 0;
    assert(start + first.take(0) =~= start);
    while i < primary.len()
        invariant
            i <= primary@.len(),
            modules == module_file.map().dom(),
            first == primary_edges(importer@, *f, *stmt, text::views(primary@), modules),
            edge_views(out@) == start + first.take(i as int),
        decreases primary@.len() - i,
    {
        let target = canonicalize_target(primary[i].as_str(), module_file);
        let internal = is_internal(target.as_str(), module_file);
        let edge = Edge {
            importer: importer.clone(),
            importer_file: f.path.clone(),
            target,
            pos: stmt.pos,
            internal,
            context: stmt.context,
        };
        let ghost before = edge_views(out@);
        proof {
            text::lemma_take_step(first, i as int);
            assert(edge@ == first[i as int]);
        }
        out.push(edge);
        assert(edge_views(out@) =~= before.push(first[i as int]));
        assert(edge_views(out@) =~= start + first.take(i + 1));
        i = i + 1;
    }
    proof {
        text::lemma_take_all(first);
    }
    let ghost mid = start + first;
    let mut j: usize = 0;
    assert(mid + submodule_edges(importer@, *f, *stmt, text::views(subs@).take(0), modules) =~= mid);
    while j < subs.len()
        invariant
            j <= subs@.len(),
            modules == module_file.map().dom(),
            edge_views(out@) == mid + submodule_edges(
                importer@,
                *f,
                *stmt,
                text::views(subs@).take(j as int),
                modules,
            ),
        decreases subs@.len() - j,
    {
        proof {
            text::lemma_take_step(text::views(subs@), j as int);
        }
        if module_file.contains_key(&subs[j]) {
            let edge = Edge {
                importer: importer.clone(),
                importer_file: f.path.clone(),
                target: subs[j].clone(),
                pos: stmt.pos,
                internal: true,
                context: stmt.context,
            };
            let ghost before = edge_views(out@);
            out.push(edge);
            assert(edge_views(out@) =~= before.push(edge@));
            assert(edge_views(out@) =~= mid + submodule_edges(
                importer@,
                *f,
                *stmt,
                text::views(subs@).take(j + 1),
                modules,
            ));
        }
        j = j + 1;
    }
    proof {
        text::lemma_take_all(text::views(subs@));
    }
}

impl Graph {
    /// The file of each project module.
    pub open spec fn modules(self) -> Map<Seq<char>, String> {
        self.module_file.map()
    }

    /// The graph of the files: every module with its file, and an edge for each
    /// target of each import.
    pub fn build(files: &Vec<FileIndex>) -> (r: Self)
        ensures
            r.modules() == modules_of(files@),
            edge_views(r.edges@) == all_edges(files@, modules_of(files@).dom()),
    {
        let mut module_file: Table<String, String> = Table::new();
        let mut i: usize = 0;
        while i < files.len()
            invariant
                i <= files@.len(),
                module_file.map() == modules_of(files@.take(i as int)),
            decreases files@.len() - i,
        {
            proof {
                text::lemma_take_step(files@, i as int);
            }
            let (module, _) = module_of(files[i].path.as_str());
            module_file.insert(module, files[i].path.clone());
            i = i + 1;
        }
        proof {
            text::lemma_take_all(files@);
        }
        let ghost modules = module_file.map().dom();
        let mut edges: Vec<Edge> = Vec::new();
        let mut j: usize = 0;
        assert(edge_views(edges@) =~= all_edges(files@.take(0), modules));
        while j < files.len()
            invariant
                j <= files@.len(),
                modules == module_file.map().dom(),
                edge_views(edges@) == all_edges(files@.take(j as int), modules),
            decreases files@.len() - j,
        {
            proof {
                text::lemma_take_step(files@, j as int);
            }
            let f = &files[j];
            let (importer, pkg) = module_of(f.path.as_str());
            let ghost start = edge_views(edges@);
            let mut k: usize = 0;
            assert(start + file_edges(*f, f.imports@.take(0), modules) =~= start);
            while k < f.imports.len()
                invariant
                    k <= f.imports@.len(),
                    (importer@, pkg) == module_name(f.path@),
                    modules == module_file.map().dom(),
                    edge_views(edges@) == start + file_edges(
                        *f,
                        f.imports@.take(k as int),
                        modules,
                    ),
                decreases f.imports@.len() - k,
            {
                proof {
                    text::lemma_take_step(f.imports@, k as int);
                }
                add_statement(&mut edges, f, &importer, pkg, &f.imports[k], &module_file);
                assert(edge_views(edges@) =~= start + file_edges(
                    *f,
                    f.imports@.take(k + 1),
                    modules,
                ));
                k = k + 1;
            }
            proof {
                text::lemma_take_all(f.imports@);
            }
            j = j + 1;
        }
        proof {
            text::lemma_take_all(files@);
        }
        Graph { edges, module_file }
    }

    /// The file of a module.
    pub fn file_of(&self, module: &str) -> (r: Option<&str>)
        ensures
            match r {
                Some(p) => self.modules().contains_key(module@) && p@
                    == self.modules()[module@]@,
                None => !self.modules().contains_key(module@),
            },
    {
        let key = module.to_owned();
        match self.module_file.get(&key) {
            Some(p) => Some(p.as_str()),
            None => None,
        }
    }

    /// The module that a name means, in any spelling that an import accepts.
    pub fn resolve_module(&self, name: &str) -> (r: String)
        ensures
            r@ == canonical(name@, self.modules().dom()),
    {
        canonicalize_target(name, &self.module_file)
    }

    /// Whether the graph has a module: as a file, or at an end of an edge.
    pub open spec fn has_module(self, module: Seq<char>) -> bool {
        self.modules().contains_key(module) || exists|i: int|
            0 <= i < self.edges@.len() && ((#[trigger] self.edges@[i]).importer@ == module
                || self.edges@[i].target@ == module)
    }

    /// Whether the graph has a module.
    pub fn knows(&self, module: &str) -> (r: bool)
        ensures
            r == self.has_module(module@),
    {
        let key = module.to_owned();
        if self.module_file.contains_key(&key) {
            return true;
        }
        let mut i: usize = 0;
        while i < self.edges.len()
            invariant
                i <= self.edges@.len(),
                forall|k: int|
                    0 <= k < i ==> (#[trigger] self.edges@[k]).importer@ != module@
                        && self.edges@[k].target@ != module@,
            decreases self.edges@.len() - i,
        {
            if same(self.edges[i].importer.as_str(), module) || same(
                self.edges[i].target.as_str(),
                module,
            ) {
                assert(self.edges@[i as int].importer@ == module@ || self.edges@[i as int].target@
                    == module@);
                return true;
            }
            i = i + 1;
        }
        false
    }

    /// Whether edge `i` counts for cycles: it runs when the module is imported,
    /// and leads to a project module.
    pub open spec fn counts(self, i: int) -> bool {
        &&& 0 <= i < self.edges@.len()
        &&& self.edges@[i].context is TopLevel
        &&& self.modules().contains_key(self.edges@[i].target@)
    }

    /// Whether module `a` imports module `b` when it is imported.
    pub open spec fn imports(self, a: Seq<char>, b: Seq<char>) -> bool {
        exists|i: int| #[trigger]
            self.counts(i) && self.edges@[i].importer@ == a && self.edges@[i].target@ == b
    }

    /// Whether a module is a node: a file's, or one with an edge that counts.
    pub open spec fn is_node(self, m: Seq<char>) -> bool {
        self.modules().contains_key(m) || exists|i: int| #[trigger]
            self.counts(i) && self.edges@[i].importer@ == m
    }

    /// Whether `names` are the nodes, ascending, and `adj` for each the indices
    /// of the modules it imports.
    pub open spec fn adjacency(self, names: Seq<Seq<char>>, adj: Seq<Vec<usize>>) -> bool {
        &&& table::ascending::<String>(names)
        &&& forall|m: Seq<char>| #[trigger] names.contains(m) <==> self.is_node(m)
        &&& adj.len() == names.len()
        &&& scc::closed_graph(adj)
        &&& forall|a: int| 0 <= a < adj.len() ==> rising((#[trigger] adj[a])@)
        &&& forall|a: int, b: int|
            0 <= a < names.len() && 0 <= b < names.len() ==> (#[trigger] scc::arrow(adj, a, b)
                <==> self.imports(names[a], names[b]))
    }
}

/// Whether a list of numbers rises throughout.
pub open spec fn rising(s: Seq<usize>) -> bool {
    forall|i: int, j: int| 0 <= i < j < s.len() ==> #[trigger] s[i] < #[trigger] s[j]
}

/// Puts `x` into a rising list, unless it is there.
fn insert_number(v: &mut Vec<usize>, x: usize)
    requires
        rising(old(v)@),
    ensures
        rising(final(v)@),
        forall|y: usize| #[trigger] final(v)@.contains(y) <==> y == x || old(v)@.contains(y),
{
    let mut i: usize = v.len();
    let ghost was = v@;
    while i > 0 && v[i - 1] > x
        invariant
            i <= v@.len(),
            v@ == was,
            forall|k: int| i <= k < v@.len() ==> v@[k] > x,
        decreases i,
    {
        i = i - 1;
    }
    if i > 0 && v[i - 1] == x {
        assert(was.contains(x));
        return;
    }
    v.insert(i, x);
    assert forall|y: usize| #[trigger] v@.contains(y) <==> y == x || was.contains(y) by {
        if was.contains(y) {
            let k = choose|k: int| 0 <= k < was.len() && was[k] == y;
            let m = if k < i { k } else { k + 1 };
            assert(v@[m] == y);
        }
        assert(v@[i as int] == x);
        if v@.contains(y) && y != x {
            let k = choose|k: int| 0 <= k < v@.len() && v@[k] == y;
            let m = if k < i { k } else { k - 1 };
            assert(was[m] == y);
        }
    }
}

impl Graph {
    /// The nodes in order, and for each the indices of the modules it imports.
    fn internal_adjacency(&self) -> (r: (Table<String, ()>, Vec<Vec<usize>>))
        ensures
            self.adjacency(r.0.keys(), r.1@),
    {
        let mut nodes: Table<String, ()> = Table::new();
        let count: usize = self.module_file.len();
        proof {
            self.module_file.lemma_rows();
        }
        let mut i: usize = 0;
        while i < count
            invariant
                i <= count,
                count == self.module_file.keys().len(),
                forall|m: Seq<char>| #[trigger]
                    nodes.keys().contains(m) <==> self.module_file.keys().take(
                        i as int,
                    ).contains(m),
            decreases count - i,
        {
            let ghost before = nodes.keys();
            let ghost keys = self.module_file.keys();
            nodes.insert(self.module_file.key(i).clone(), ());
            proof {
                text::lemma_take_step(keys, i as int);
                assert forall|m: Seq<char>| #[trigger]
                    nodes.keys().contains(m) <==> keys.take(i + 1).contains(m) by {
                    let longer = keys.take(i + 1);
                    let shorter = keys.take(i as int);
                    if shorter.contains(m) {
                        let k = choose|k: int| 0 <= k < shorter.len() && shorter[k] == m;
                        assert(longer[k] == m);
                    }
                    if longer.contains(m) {
                        let k = choose|k: int| 0 <= k < longer.len() && longer[k] == m;
                        if k < i {
                            assert(shorter[k] == m);
                        }
                    }
                    assert(longer[i as int] == keys[i as int]);
                }
            }
            i = i + 1;
        }
        proof {
            text::lemma_take_all(self.module_file.keys());
        }
        let mut j: usize = 0;
        while j < self.edges.len()
            invariant
                j <= self.edges@.len(),
                forall|m: Seq<char>| #[trigger]
                    self.module_file.map().contains_key(m) <==> self.module_file.keys().contains(
                        m,
                    ),
                forall|m: Seq<char>| #[trigger]
                    nodes.keys().contains(m) <==> self.modules().contains_key(m) || exists|k: int|
                         #[trigger]
                        self.counts(k) && k < j && self.edges@[k].importer@ == m,
            decreases self.edges@.len() - j,
        {
            let e = &self.edges[j];
            let ghost before = nodes.keys();
            let top = match e.context {
                ImportContext::TopLevel => true,
                _ => false,
            };
            if top && self.module_file.contains_key(&e.target) {
                assert(self.counts(j as int));
                nodes.insert(e.importer.clone(), ());
            } else {
                assert(!self.counts(j as int));
            }
            assert forall|m: Seq<char>| #[trigger]
                nodes.keys().contains(m) <==> self.modules().contains_key(m) || exists|k: int|
                     #[trigger]
                    self.counts(k) && k < j + 1 && self.edges@[k].importer@ == m by {
                if before.contains(m) && !self.modules().contains_key(m) {
                    let k = choose|k: int| #[trigger]
                        self.counts(k) && k < j && self.edges@[k].importer@ == m;
                    assert(self.counts(k) && k < j + 1);
                }
                if exists|k: int| #[trigger]
                    self.counts(k) && k < j + 1 && self.edges@[k].importer@ == m {
                    let k = choose|k: int| #[trigger]
                        self.counts(k) && k < j + 1 && self.edges@[k].importer@ == m;
                    if k < j {
                        assert(before.contains(m));
                    }
                }
            }
            j = j + 1;
        }
        let n: usize = nodes.len();
        let ghost names = nodes.keys();
        assert forall|m: Seq<char>| #[trigger] names.contains(m) <==> self.is_node(m) by {
            if self.is_node(m) && !self.modules().contains_key(m) {
                let k = choose|k: int| #[trigger]
                    self.counts(k) && self.edges@[k].importer@ == m;
                assert(self.counts(k) && k < self.edges@.len());
            }
        }
        let mut adj: Vec<Vec<usize>> = Vec::new();
        let mut a: usize = 0;
        while a < n
            invariant
                a <= n,
                adj@.len() == a,
                forall|v: int| 0 <= v < a ==> (#[trigger] adj@[v])@.len() == 0,
            decreases n - a,
        {
            adj.push(Vec::new());
            a = a + 1;
        }
        let mut k: usize = 0;
        while k < self.edges.len()
            invariant
                k <= self.edges@.len(),
                n == names.len(),
                names == nodes.keys(),
                table::ascending::<String>(names),
                adj@.len() == n,
                forall|v: int| 0 <= v < n ==> rising((#[trigger] adj@[v])@),
                forall|m: Seq<char>| #[trigger] names.contains(m) <==> self.is_node(m),
                forall|v: int, y: usize|
                    0 <= v < n && #[trigger] adj@[v]@.contains(y) ==> y < n && exists|i: int|
                         #[trigger]
                        self.counts(i) && i < k && self.edges@[i].importer@ == names[v]
                            && self.edges@[i].target@ == names[y as int],
                forall|v: int, y: usize, i: int|
                    0 <= v < n && y < n && #[trigger] self.counts(i) && i < k
                        && self.edges@[i].importer@ == names[v] && self.edges@[i].target@
                        == names[y as int] ==> #[trigger] adj@[v]@.contains(y),
            decreases self.edges@.len() - k,
        {
            let e = &self.edges[k];
            let top = match e.context {
                ImportContext::TopLevel => true,
                _ => false,
            };
            let ghost before = adj@;
            if top && self.module_file.contains_key(&e.target) {
                proof {
                    assert(self.counts(k as int));
                    assert(self.is_node(e.importer@));
                    assert(self.is_node(e.target@));
                    assert(names.contains(e.importer@));
                    assert(names.contains(e.target@));
                }
                let from = nodes.search(&e.importer);
                let to = nodes.search(&e.target);
                match (from, to) {
                    (Ok(x), Ok(y)) => {
                        let row = &mut adj[x];
                        insert_number(row, y);
                        proof {
                            let now = adj@;
                            crate::table::lemma_ascending_distinct::<String>(names);
                            assert forall|v: int| 0 <= v < n && v != x implies now[v] == before[v] by {}
                            assert forall|v: int, z: usize|
                                0 <= v < n && #[trigger] now[v]@.contains(z) implies z < n
                                && exists|i: int| #[trigger]
                                self.counts(i) && i < k + 1 && self.edges@[i].importer@ == names[v]
                                    && self.edges@[i].target@ == names[z as int] by {
                                if before[v]@.contains(z) {
                                    let i = choose|i: int| #[trigger]
                                        self.counts(i) && i < k && self.edges@[i].importer@
                                            == names[v] && self.edges@[i].target@
                                            == names[z as int];
                                    assert(self.counts(i) && i < k + 1);
                                } else {
                                    assert(v == x && z == y);
                                    assert(self.counts(k as int));
                                }
                            }
                            assert forall|v: int, z: usize, i: int|
                                0 <= v < n && z < n && #[trigger] self.counts(i) && i < k + 1
                                    && self.edges@[i].importer@ == names[v]
                                    && self.edges@[i].target@
                                    == names[z as int] implies #[trigger] now[v]@.contains(z) by {
                                if i < k {
                                    assert(before[v]@.contains(z));
                                } else {
                                    assert(v == x);
                                    assert(z == y);
                                }
                            }
                        }
                    },
                    _ => {
                        assert(false);
                    },
                }
            } else {
                assert(!self.counts(k as int));
            }
            k = k + 1;
        }
        proof {
            assert(scc::closed_graph(adj@)) by {
                assert forall|v: int, i: int|
                    0 <= v < adj@.len() && 0 <= i < adj@[v]@.len() implies (
                #[trigger] adj@[v]@[i]) < adj@.len() by {
                    assert(adj@[v]@.contains(adj@[v]@[i]));
                }
            }
            assert forall|x: int, y: int|
                0 <= x < names.len() && 0 <= y < names.len() implies (#[trigger] scc::arrow(
                adj@,
                x,
                y,
            ) <==> self.imports(names[x], names[y])) by {
                if scc::arrow(adj@, x, y) {
                    let i = choose|i: int| 0 <= i < adj@[x]@.len() && #[trigger] adj@[x]@[i] == y;
                    assert(adj@[x]@.contains(y as usize));
                }
                if self.imports(names[x], names[y]) {
                    let i = choose|i: int| #[trigger]
                        self.counts(i) && self.edges@[i].importer@ == names[x]
                            && self.edges@[i].target@ == names[y];
                    assert(self.counts(i) && i < self.edges@.len());
                    assert(adj@[x]@.contains(y as usize));
                    let q = choose|q: int| 0 <= q < adj@[x]@.len() && adj@[x]@[q] == y as usize;
                    assert(adj@[x]@[q] == y);
                }
            }
        }
        (nodes, adj)
    }
}


/// The component of `a`.
pub open spec fn class(adj: Seq<Vec<usize>>, a: int) -> Set<int> {
    Set::new(|x: int| scc::mutual(adj, a, x))
}

/// Whether `a` leads back to itself by one step or more.
pub open spec fn on_cycle(adj: Seq<Vec<usize>>, a: int) -> bool {
    exists|w: int| #[trigger] scc::arrow(adj, a, w) && scc::reaches(adj, w, a)
}

/// Whether `w` is a successor of `v` that lies inside.
pub open spec fn inner(adj: Seq<Vec<usize>>, inside: Set<int>, v: int, w: int) -> bool {
    scc::arrow(adj, v, w) && inside.contains(w)
}

/// Whether the walk goes on from its `i`th node as it must: no successor inside
/// was walked before, and the next node is the greatest of them.
pub open spec fn walks_on(adj: Seq<Vec<usize>>, inside: Set<int>, p: Seq<int>, i: int) -> bool {
    &&& inner(adj, inside, p[i], p[i + 1])
    &&& forall|u: int|
        #[trigger] inner(adj, inside, p[i], u) ==> u <= p[i + 1] && !p.take(i + 1).contains(u)
}

/// Whether `p` is how a walk from the least node inside starts that goes to the
/// greatest successor inside until one was walked before.
pub open spec fn walk(adj: Seq<Vec<usize>>, inside: Set<int>, p: Seq<int>) -> bool {
    &&& p.len() > 0
    &&& inside.contains(p[0])
    &&& forall|u: int| #[trigger] inside.contains(u) ==> p[0] <= u
    &&& forall|i: int| 0 <= i < p.len() - 1 ==> #[trigger] walks_on(adj, inside, p, i)
}

/// Whether `c` is the rest of the walk `p` from `w`, the least successor of its
/// end that was walked before.
pub open spec fn closes(
    adj: Seq<Vec<usize>>,
    inside: Set<int>,
    p: Seq<int>,
    w: int,
    c: Seq<int>,
) -> bool {
    &&& walk(adj, inside, p)
    &&& inner(adj, inside, p.last(), w)
    &&& p.contains(w)
    &&& forall|u: int| #[trigger] inner(adj, inside, p.last(), u) && p.contains(u) ==> w <= u
    &&& c == p.skip(p.index_of(w))
}

/// Whether `c` is the cycle that is named for a component.
pub open spec fn cycle_of(adj: Seq<Vec<usize>>, inside: Set<int>, c: Seq<int>) -> bool {
    exists|p: Seq<int>, w: int| #[trigger] closes(adj, inside, p, w, c)
}

/// The nodes of `s` that lie on a cycle, in order.
pub open spec fn cyclic(adj: Seq<Vec<usize>>, s: Seq<int>) -> Seq<int>
    decreases s.len(),
{
    if s.len() == 0 {
        Seq::empty()
    } else if on_cycle(adj, s.last()) {
        cyclic(adj, s.drop_last()).push(s.last())
    } else {
        cyclic(adj, s.drop_last())
    }
}

/// The names of nodes.
pub open spec fn named(names: Seq<Seq<char>>, c: Seq<int>) -> Seq<Seq<char>> {
    Seq::new(c.len(), |i: int| names[c[i]])
}

/// Whether `r` names the cycle of the component of `a`.
pub open spec fn named_for(
    names: Seq<Seq<char>>,
    adj: Seq<Vec<usize>>,
    a: int,
    r: Seq<Seq<char>>,
) -> bool {
    exists|c: Seq<int>| #[trigger] cycle_of(adj, class(adj, a), c) && r == named(names, c)
}

/// One node for each component with a cycle, in the order in which a
/// depth-first search leaves the last node of each.
pub open spec fn cyclic_leads(adj: Seq<Vec<usize>>) -> Seq<int> {
    let left = scc::leaving_order(adj);
    cyclic(adj, scc::leads(adj, left, left.len() as int))
}

/// Whether `r` are the cycles named for the components of `cyclic_leads`.
pub open spec fn names_cycles(
    names: Seq<Seq<char>>,
    adj: Seq<Vec<usize>>,
    r: Seq<Seq<Seq<char>>>,
) -> bool {
    &&& r.len() == cyclic_leads(adj).len()
    &&& forall|k: int|
        0 <= k < r.len() ==> named_for(names, adj, cyclic_leads(adj)[k], #[trigger] r[k])
}

/// In a walk no node comes twice, and each is inside.
proof fn lemma_walk_distinct(adj: Seq<Vec<usize>>, inside: Set<int>, p: Seq<int>)
    requires
        walk(adj, inside, p),
    ensures
        p.no_duplicates(),
        forall|i: int| 0 <= i < p.len() ==> inside.contains(#[trigger] p[i]),
{
    assert forall|i: int| 0 <= i < p.len() implies inside.contains(#[trigger] p[i]) by {
        if i > 0 {
            assert(walks_on(adj, inside, p, i - 1));
        }
    }
    assert forall|i: int, j: int| 0 <= i < j < p.len() implies p[i] != p[j] by {
        assert(walks_on(adj, inside, p, j - 1));
        assert(inner(adj, inside, p[j - 1], p[j]));
        assert(!p.take(j).contains(p[j]));
        assert(p.take(j)[i] == p[i]);
    }
}

/// A node that leads to another of its component leads first to one inside.
proof fn lemma_inner_step(adj: Seq<Vec<usize>>, a: int, v: int) -> (w: int)
    requires
        class(adj, a).contains(v),
        on_cycle(adj, a),
    ensures
        inner(adj, class(adj, a), v, w),
{
    if v == a {
        let w = choose|w: int| #[trigger] scc::arrow(adj, a, w) && scc::reaches(adj, w, a);
        crate::scc::lemma_reaches_step(adj, a, w);
        assert(scc::mutual(adj, a, w));
        w
    } else {
        let only = Set::<int>::empty().insert(v);
        let (p, q) = crate::scc::lemma_exit(adj, only, v, a);
        crate::scc::lemma_reaches_step(adj, v, q);
        crate::scc::lemma_reaches_transitive(adj, a, v, q);
        assert(scc::mutual(adj, a, q));
        q
    }
}

/// The cycle named for a component, as its nodes in order, the closing one not
/// repeated.
fn extract_cycle(adj: &Vec<Vec<usize>>, part: &Vec<usize>, Ghost(a): Ghost<int>) -> (r: Vec<usize>)
    requires
        scc::closed_graph(adj@),
        0 <= a < adj@.len(),
        scc::is_component(adj@, part@, a),
        on_cycle(adj@, a),
    ensures
        cycle_of(adj@, class(adj@, a), Seq::new(r@.len(), |i: int| r@[i] as int)),
        forall|i: int| 0 <= i < r@.len() ==> #[trigger] r@[i] < adj@.len(),
{
    let n: usize = adj.len();
    let ghost inside = class(adj@, a);
    let mut marked: Vec<bool> = Vec::new();
    let mut on_path: Vec<bool> = Vec::new();
    let mut i: usize = 0;
    while i < n
        invariant
            i <= n,
            marked@.len() == i,
            on_path@.len() == i,
            forall|k: int| 0 <= k < i ==> !#[trigger] marked@[k],
            forall|k: int| 0 <= k < i ==> !#[trigger] on_path@[k],
        decreases n - i,
    {
        marked.push(false);
        on_path.push(false);
        i = i + 1;
    }
    proof {
        crate::scc::lemma_reaches_self(adj@, a);
        assert(scc::mutual(adj@, a, a));
        assert(part@.contains(a as usize));
    }
    let mut start: usize = part[0];
    let mut j: usize = 0;
    while j < part.len()
        invariant
            j <= part@.len(),
            n == adj@.len(),
            marked@.len() == n,
            forall|k: int| 0 <= k < part@.len() ==> (#[trigger] part@[k]) < n,
            part@.contains(start),
            forall|k: int| 0 <= k < j ==> start <= #[trigger] part@[k],
            forall|x: usize|
                x < n ==> (#[trigger] marked@[x as int] <==> part@.take(j as int).contains(x)),
        decreases part@.len() - j,
    {
        let v: usize = part[j];
        assert(part@[j as int] == v);
        assert(part@.contains(v));
        if v < start {
            start = v;
        }
        let ghost before = marked@;
        marked.set(v, true);
        proof {
            text::lemma_take_step(part@, j as int);
            assert forall|x: usize| x < n implies (#[trigger] marked@[x as int]
                <==> part@.take(j + 1).contains(x)) by {
                let longer = part@.take(j + 1);
                let shorter = part@.take(j as int);
                if shorter.contains(x) {
                    let k = choose|k: int| 0 <= k < shorter.len() && shorter[k] == x;
                    assert(longer[k] == x);
                }
                if longer.contains(x) {
                    let k = choose|k: int| 0 <= k < longer.len() && longer[k] == x;
                    if k < j {
                        assert(shorter[k] == x);
                    }
                }
                assert(longer[j as int] == v);
                if x != v {
                    assert(marked@[x as int] == before[x as int]);
                }
            }
        }
        j = j + 1;
    }
    proof {
        text::lemma_take_all(part@);
        assert forall|x: int| 0 <= x < n implies (#[trigger] marked@[x] <==> inside.contains(x)) by {
            assert(marked@[(x as usize) as int] <==> part@.contains(x as usize));
        }
        assert forall|x: int| #[trigger] inside.contains(x) implies 0 <= x < n && start <= x by {
            crate::scc::lemma_reaches_nodes(adj@, a, x);
            assert(part@.contains(x as usize));
            let k = choose|k: int| 0 <= k < part@.len() && part@[k] == x as usize;
            assert(start <= part@[k]);
        }
        assert(inside.contains(start as int)) by {
            assert(marked@[start as int]);
        }
    }
    let mut path: Vec<usize> = Vec::new();
    path.push(start);
    on_path.set(start, true);
    let ghost mut p: Seq<int> = seq![start as int];
    proof {
        assert(p[0] == start);
        assert forall|x: int| 0 <= x < n implies (#[trigger] on_path@[x] <==> p.contains(x)) by {
            if p.contains(x) {
                let k = choose|k: int| 0 <= k < p.len() && p[k] == x;
                assert(k == 0);
            }
        }
    }
    loop
        invariant
            scc::closed_graph(adj@),
            n == adj@.len(),
            0 <= a < n,
            inside == class(adj@, a),
            on_cycle(adj@, a),
            marked@.len() == n,
            on_path@.len() == n,
            forall|x: int| 0 <= x < n ==> (#[trigger] marked@[x] <==> inside.contains(x)),
            walk(adj@, inside, p),
            path@.len() == p.len(),
            forall|k: int| 0 <= k < p.len() ==> #[trigger] path@[k] == p[k] && 0 <= p[k] < n,
            forall|x: int| 0 <= x < n ==> (#[trigger] on_path@[x] <==> p.contains(x)),
        decreases n - p.len(),
    {
        let v: usize = path[path.len() - 1];
        proof {
            lemma_walk_distinct(adj@, inside, p);
            assert(inside.contains(p[p.len() - 1]));
        }
        let row = &adj[v];
        let mut best: Option<usize> = None;
        let mut back: Option<usize> = None;
        let mut k: usize = 0;
        while k < row.len()
            invariant
                scc::closed_graph(adj@),
                n == adj@.len(),
                v < n,
                row == adj@[v as int],
                k <= row@.len(),
                marked@.len() == n,
                on_path@.len() == n,
                match best {
                    Some(w) => {
                        &&& w < n && marked@[w as int]
                        &&& exists|q: int| 0 <= q < k && #[trigger] row@[q] == w
                        &&& forall|q: int|
                            0 <= q < k && marked@[#[trigger] row@[q] as int] ==> row@[q] <= w
                    },
                    None => forall|q: int| 0 <= q < k ==> !marked@[#[trigger] row@[q] as int],
                },
                match back {
                    Some(w) => {
                        &&& w < n && marked@[w as int] && on_path@[w as int]
                        &&& exists|q: int| 0 <= q < k && #[trigger] row@[q] == w
                        &&& forall|q: int|
                            0 <= q < k && marked@[#[trigger] row@[q] as int]
                                && on_path@[row@[q] as int] ==> w <= row@[q]
                    },
                    None => forall|q: int|
                        0 <= q < k && marked@[#[trigger] row@[q] as int] ==> !on_path@[row@[q] as int],
                },
            decreases row@.len() - k,
        {
            let w: usize = row[k];
            assert(row@[k as int] < n);
            if marked[w] {
                match best {
                    Some(b) => {
                        if b < w {
                            best = Some(w);
                        }
                    },
                    None => {
                        best = Some(w);
                    },
                }
                if on_path[w] {
                    match back {
                        Some(b) => {
                            if w < b {
                                back = Some(w);
                            }
                        },
                        None => {
                            back = Some(w);
                        },
                    }
                }
            }
            k = k + 1;
        }
        match back {
            Some(w) => {
                let mut at: usize = 0;
                let total: usize = path.len();
                while path[at] != w
                    invariant
                        at < total,
                        total == path@.len(),
                        path@.len() == p.len(),
                        forall|k: int| 0 <= k < p.len() ==> #[trigger] path@[k] == p[k],
                        forall|k: int| 0 <= k < at ==> #[trigger] p[k] != w,
                        p.contains(w as int),
                    decreases path@.len() - at,
                {
                    proof {
                        let q = choose|q: int| 0 <= q < p.len() && p[q] == w as int;
                        assert(path@[q] == p[q]);
                        assert(path@[at as int] == p[at as int]);
                        assert(q > at);
                    }
                    at = at + 1;
                }
                let mut out: Vec<usize> = Vec::new();
                let mut m: usize = at;
                while m < path.len()
                    invariant
                        at <= m <= path@.len(),
                        out@.len() == m - at,
                        forall|k: int| 0 <= k < out@.len() ==> #[trigger] out@[k] == path@[at + k],
                    decreases path@.len() - m,
                {
                    out.push(path[m]);
                    m = m + 1;
                }
                proof {
                    assert(p.index_of(w as int) == at) by {
                        assert(path@[at as int] == p[at as int]);
                        let q = p.index_of(w as int);
                        assert(p[q] == w);
                        assert(p.no_duplicates());
                    }
                    let c = Seq::new(out@.len(), |i: int| out@[i] as int);
                    assert(c =~= p.skip(at as int)) by {
                        assert forall|i: int| 0 <= i < c.len() implies c[i] == p.skip(
                            at as int,
                        )[i] by {
                            assert(path@[at + i] == p[at + i]);
                        }
                    }
                    assert(inner(adj@, inside, p.last(), w as int)) by {
                        let q = choose|q: int| 0 <= q < row@.len() && #[trigger] row@[q] == w;
                        assert(adj@[v as int]@[q] == w);
                    }
                    assert forall|u: int|
                        #[trigger] inner(adj@, inside, p.last(), u) && p.contains(u) implies w
                        <= u by {
                        let q = choose|q: int|
                            0 <= q < adj@[v as int]@.len() && #[trigger] adj@[v as int]@[q] == u;
                        assert(row@[q] == u);
                    }
                    assert(closes(adj@, inside, p, w as int, c));
                }
                return out;
            },
            None => {},
        }
        match best {
            Some(w) => {
                let ghost q = p.push(w as int);
                proof {
                    assert(inner(adj@, inside, p.last(), w as int)) by {
                        let k = choose|k: int| 0 <= k < row@.len() && #[trigger] row@[k] == w;
                        assert(adj@[v as int]@[k] == w);
                    }
                    assert forall|i: int| 0 <= i < q.len() - 1 implies #[trigger] walks_on(
                        adj@,
                        inside,
                        q,
                        i,
                    ) by {
                        if i < p.len() - 1 {
                            assert(walks_on(adj@, inside, p, i));
                            assert(q.take(i + 1) =~= p.take(i + 1));
                        } else {
                            assert(q.take(i + 1) =~= p);
                            assert forall|u: int| #[trigger]
                                inner(adj@, inside, q[i], u) implies u <= q[i + 1] && !q.take(
                                i + 1,
                            ).contains(u) by {
                                let k = choose|k: int|
                                    0 <= k < adj@[v as int]@.len()
                                        && #[trigger] adj@[v as int]@[k] == u;
                                assert(row@[k] == u);
                            }
                        }
                    }
                    assert(q[0] == p[0]);
                    assert(walk(adj@, inside, q));
                    lemma_walk_distinct(adj@, inside, q);
                    assert forall|k: int| 0 <= k < q.len() implies 0 <= #[trigger] q[k] < n by {
                        if k < p.len() {
                            assert(path@[k] == p[k]);
                        }
                    }
                    crate::scc::lemma_distinct_bound(q, n as nat);
                }
                let ghost before = on_path@;
                on_path.set(w, true);
                path.push(w);
                proof {
                    assert forall|x: int| 0 <= x < n implies (#[trigger] on_path@[x]
                        <==> q.contains(x)) by {
                        if p.contains(x) {
                            let k = choose|k: int| 0 <= k < p.len() && p[k] == x;
                            assert(q[k] == x);
                        }
                        assert(q[p.len() as int] == w);
                        if x != w {
                            assert(before[x] <==> p.contains(x));
                        }
                    }
                    p = q;
                }
            },
            None => {
                proof {
                    let w = lemma_inner_step(adj@, a, v as int);
                    let k = choose|k: int|
                        0 <= k < adj@[v as int]@.len() && #[trigger] adj@[v as int]@[k] == w;
                    assert(row@[k] == w);
                    assert(false);
                }
                return Vec::new();
            },
        }
    }
}


/// What each list of strings of a list holds.
pub open spec fn lists_of(s: Seq<Vec<String>>) -> Seq<Seq<Seq<char>>> {
    Seq::new(s.len(), |i: int| text::views(s[i]@))
}

/// Whether a component lies on a cycle, by its nodes.
fn has_cycle(adj: &Vec<Vec<usize>>, part: &Vec<usize>, Ghost(a): Ghost<int>) -> (r: bool)
    requires
        scc::closed_graph(adj@),
        0 <= a < adj@.len(),
        scc::is_component(adj@, part@, a),
    ensures
        r == on_cycle(adj@, a),
{
    proof {
        crate::scc::lemma_reaches_self(adj@, a);
        assert(scc::mutual(adj@, a, a));
        assert(part@.contains(a as usize));
    }
    if part.len() > 1 {
        proof {
            let x = part@[0] as int;
            let y = part@[1] as int;
            assert(part@[0] != part@[1]);
            let z = if x == a { y } else { x };
            assert(part@.contains(part@[0]));
            assert(part@.contains(part@[1]));
            assert(part@.contains(z as usize));
            assert(scc::mutual(adj@, a, z));
            let (p, q) = crate::scc::lemma_exit(adj@, Set::<int>::empty().insert(a), a, z);
            crate::scc::lemma_reaches_transitive(adj@, q, z, a);
            assert(scc::arrow(adj@, a, q) && scc::reaches(adj@, q, a));
        }
        return true;
    }
    let v: usize = part[0];
    assert(v == a);
    let row = &adj[v];
    let mut k: usize = 0;
    while k < row.len()
        invariant
            k <= row@.len(),
            row == adj@[a],
            v == a,
            0 <= a < adj@.len(),
            scc::reaches(adj@, a, a),
            forall|q: int| 0 <= q < k ==> #[trigger] row@[q] != v,
        decreases row@.len() - k,
    {
        if row[k] == v {
            assert(adj@[a]@[k as int] == a);
            assert(scc::arrow(adj@, a, a));
            return true;
        }
        k = k + 1;
    }
    proof {
        if on_cycle(adj@, a) {
            let w = choose|w: int| #[trigger] scc::arrow(adj@, a, w) && scc::reaches(adj@, w, a);
            crate::scc::lemma_reaches_step(adj@, a, w);
            assert(scc::mutual(adj@, a, w));
            assert(part@.contains(w as usize));
            let q = choose|q: int| 0 <= q < adj@[a]@.len() && #[trigger] adj@[a]@[q] == w;
            assert(row@[q] == w);
        }
    }
    false
}

impl Graph {
    /// Whether `r` names one cycle for each component of modules that import
    /// each other in a circle.
    pub open spec fn cycles_are(self, r: Seq<Seq<Seq<char>>>) -> bool {
        exists|names: Seq<Seq<char>>, adj: Seq<Vec<usize>>| #[trigger]
            self.adjacency(names, adj) && names_cycles(names, adj, r)
    }

    /// The import cycles: for each component of modules that import each other
    /// in a circle one concrete circle, in order, the closing module not
    /// repeated.
    pub fn cycles(&self) -> (r: Vec<Vec<String>>)
        ensures
            self.cycles_are(lists_of(r@)),
    {
        let (nodes, adj) = self.internal_adjacency();
        let parts = tarjan_scc(&adj);
        let ghost names = nodes.keys();
        let ghost left = scc::leaving_order(adj@);
        let ghost ls = scc::leads(adj@, left, left.len() as int);
        let mut out: Vec<Vec<String>> = Vec::new();
        let mut i: usize = 0;
        assert(ls.take(0) =~= Seq::<int>::empty());
        while i < parts.len()
            invariant
                i <= parts@.len(),
                parts@.len() == ls.len(),
                left == scc::leaving_order(adj@),
                ls == scc::leads(adj@, left, left.len() as int),
                names == nodes.keys(),
                self.adjacency(names, adj@),
                forall|k: int|
                    0 <= k < parts@.len() ==> scc::is_component(adj@, (#[trigger] parts@[k])@, ls[k]),
                forall|v: int| #[trigger] left.contains(v) <==> 0 <= v < adj@.len(),
                out@.len() == cyclic(adj@, ls.take(i as int)).len(),
                forall|k: int|
                    0 <= k < out@.len() ==> named_for(
                        names,
                        adj@,
                        cyclic(adj@, ls.take(i as int))[k],
                        text::views((#[trigger] out@[k])@),
                    ),
            decreases parts@.len() - i,
        {
            let ghost a = ls[i as int];
            proof {
                text::lemma_take_step(ls, i as int);
                lemma_leads_nodes(adj@, left, left.len() as int, i as int);
                assert(left.contains(a));
                assert(scc::is_component(adj@, parts@[i as int]@, a));
            }
            let ghost before = out@;
            if has_cycle(&adj, &parts[i], Ghost(a)) {
                let cycle = extract_cycle(&adj, &parts[i], Ghost(a));
                let ghost c = Seq::new(cycle@.len(), |q: int| cycle@[q] as int);
                let mut words: Vec<String> = Vec::new();
                let mut j: usize = 0;
                while j < cycle.len()
                    invariant
                        j <= cycle@.len(),
                        names == nodes.keys(),
                        names.len() == adj@.len(),
                        forall|q: int| 0 <= q < cycle@.len() ==> #[trigger] cycle@[q] < adj@.len(),
                        c == Seq::new(cycle@.len(), |q: int| cycle@[q] as int),
                        words@.len() == j,
                        forall|q: int| 0 <= q < j ==> #[trigger] words@[q]@ == named(names, c)[q],
                    decreases cycle@.len() - j,
                {
                    words.push(nodes.key(cycle[j]).clone());
                    j = j + 1;
                }
                assert(text::views(words@) =~= named(names, c));
                out.push(words);
                proof {
                    let now = cyclic(adj@, ls.take(i + 1));
                    let was = cyclic(adj@, ls.take(i as int));
                    assert(cycle_of(adj@, class(adj@, a), c));
                    assert forall|k: int| 0 <= k < out@.len() implies named_for(
                        names,
                        adj@,
                        now[k],
                        text::views((#[trigger] out@[k])@),
                    ) by {
                        if k < before.len() {
                            assert(now[k] == was[k]);
                            assert(out@[k] == before[k]);
                        }
                    }
                }
            }
            i = i + 1;
        }
        proof {
            text::lemma_take_all(ls);
            let r = lists_of(out@);
            assert forall|k: int| 0 <= k < r.len() implies named_for(
                names,
                adj@,
                cyclic_leads(adj@)[k],
                #[trigger] r[k],
            ) by {
                assert(r[k] == text::views(out@[k]@));
            }
            assert(names_cycles(names, adj@, r));
        }
        out
    }

    /// Whether each module of `c` imports the next, and the last the first.
    pub open spec fn is_cycle(self, c: Seq<Seq<char>>) -> bool {
        &&& c.len() > 0
        &&& c.no_duplicates()
        &&& forall|i: int| 0 <= i < c.len() ==> self.imports(#[trigger] c[i], c[(i + 1) % c.len() as int])
    }
}

/// A lead is one of the nodes left.
proof fn lemma_leads_nodes(adj: Seq<Vec<usize>>, left: Seq<int>, n: int, i: int)
    requires
        n <= left.len(),
        0 <= i < scc::leads(adj, left, n).len(),
    ensures
        left.contains(scc::leads(adj, left, n)[i]),
    decreases n,
{
    if n > 0 {
        let before = scc::leads(adj, left, n - 1);
        if i < before.len() {
            lemma_leads_nodes(adj, left, n - 1, i);
        } else {
            assert(left[n - 1] == scc::leads(adj, left, n)[i]);
        }
    }
}

/// The cycle named for a component runs in a circle and names no node twice.
proof fn lemma_cycle_closes(adj: Seq<Vec<usize>>, inside: Set<int>, c: Seq<int>)
    requires
        cycle_of(adj, inside, c),
    ensures
        c.len() > 0,
        c.no_duplicates(),
        forall|i: int| 0 <= i < c.len() ==> inside.contains(#[trigger] c[i]),
        forall|i: int| 0 <= i < c.len() - 1 ==> scc::arrow(adj, #[trigger] c[i], c[i + 1]),
        scc::arrow(adj, c.last(), c[0]),
{
    let (p, w) = choose|p: Seq<int>, w: int| #[trigger] closes(adj, inside, p, w, c);
    lemma_walk_distinct(adj, inside, p);
    let at = p.index_of(w);
    assert(p[at] == w);
    assert forall|i: int| 0 <= i < c.len() - 1 implies scc::arrow(adj, #[trigger] c[i], c[i + 1]) by {
        assert(walks_on(adj, inside, p, at + i));
    }
    assert(c[0] == w);
    assert(c.last() == p.last());
}

/// Every list that `cycles` reports is an import cycle.
pub proof fn law_reported_cycles_are_cycles(g: Graph, r: Seq<Seq<Seq<char>>>, k: int)
    requires
        g.cycles_are(r),
        0 <= k < r.len(),
    ensures
        g.is_cycle(r[k]),
{
    let (names, adj) = choose|names: Seq<Seq<char>>, adj: Seq<Vec<usize>>| #[trigger]
        g.adjacency(names, adj) && names_cycles(names, adj, r);
    let a = cyclic_leads(adj)[k];
    assert(named_for(names, adj, a, r[k]));
    let c = choose|c: Seq<int>| #[trigger]
        cycle_of(adj, class(adj, a), c) && r[k] == named(names, c);
    lemma_cycle_closes(adj, class(adj, a), c);
    crate::table::lemma_ascending_distinct::<String>(names);
    let n = c.len() as int;
    assert forall|i: int| 0 <= i < c.len() implies 0 <= #[trigger] c[i] < names.len() by {
        assert(class(adj, a).contains(c[i]));
        crate::scc::lemma_reaches_nodes(adj, a, c[i]);
    }
    assert forall|i: int| 0 <= i < r[k].len() implies g.imports(
        #[trigger] r[k][i],
        r[k][(i + 1) % r[k].len() as int],
    ) by {
        if i < n - 1 {
            assert((i + 1) % n == i + 1) by (nonlinear_arith)
                requires
                    0 <= i + 1 < n,
            ;
            assert(scc::arrow(adj, c[i], c[i + 1]));
            assert(0 <= c[i + 1] < names.len());
        } else {
            assert((i + 1) % n == 0) by (nonlinear_arith)
                requires
                    i + 1 == n,
                    n > 0,
            ;
            assert(scc::arrow(adj, c[i], c[0]));
            assert(0 <= c[0] < names.len());
        }
    }
    assert forall|i: int, j: int| 0 <= i < r[k].len() && 0 <= j < r[k].len() && i != j implies r[k][i]
        != r[k][j] by {
        assert(c[i] != c[j]);
        assert(names[c[i]] != names[c[j]]);
    }
}


/// Which of `s` stands at place `k` of those on a cycle.
proof fn lemma_cyclic_from(adj: Seq<Vec<usize>>, s: Seq<int>, k: int) -> (i: int)
    requires
        0 <= k < cyclic(adj, s).len(),
    ensures
        0 <= i < s.len(),
        s[i] == cyclic(adj, s)[k],
        on_cycle(adj, s[i]),
    decreases s.len(),
{
    let before = cyclic(adj, s.drop_last());
    if k < before.len() {
        let i = lemma_cyclic_from(adj, s.drop_last(), k);
        assert(s.drop_last()[i] == s[i]);
        i
    } else {
        s.len() - 1
    }
}

/// Where a node of `s` that lies on a cycle stands among those on a cycle.
proof fn lemma_cyclic_at(adj: Seq<Vec<usize>>, s: Seq<int>, i: int) -> (k: int)
    requires
        0 <= i < s.len(),
        on_cycle(adj, s[i]),
    ensures
        0 <= k < cyclic(adj, s).len(),
        s[i] == cyclic(adj, s)[k],
    decreases s.len(),
{
    if i < s.len() - 1 {
        assert(s.drop_last()[i] == s[i]);
        lemma_cyclic_at(adj, s.drop_last(), i)
    } else {
        cyclic(adj, s).len() - 1
    }
}

/// Of two places among those on a cycle the earlier came from the earlier node.
proof fn lemma_cyclic_order(adj: Seq<Vec<usize>>, s: Seq<int>, k: int, m: int) -> (r: (int, int))
    requires
        0 <= k < m < cyclic(adj, s).len(),
    ensures
        0 <= r.0 < r.1 < s.len(),
        s[r.0] == cyclic(adj, s)[k],
        s[r.1] == cyclic(adj, s)[m],
    decreases s.len(),
{
    let t = s.drop_last();
    let before = cyclic(adj, t);
    if m < before.len() {
        let r = lemma_cyclic_order(adj, t, k, m);
        assert(t[r.0] == s[r.0] && t[r.1] == s[r.1]);
        r
    } else {
        let i = lemma_cyclic_from(adj, t, k);
        assert(t[i] == s[i]);
        (i, s.len() - 1)
    }
}

impl Graph {
    /// Whether each module of `p` imports the next.
    pub open spec fn is_chain(self, p: Seq<Seq<char>>) -> bool {
        &&& p.len() > 0
        &&& forall|i: int| 0 <= i < p.len() - 1 ==> self.imports(#[trigger] p[i], p[i + 1])
    }

    /// Whether module `a` leads to `b` by imports, or is `b`.
    pub open spec fn leads_to(self, a: Seq<char>, b: Seq<char>) -> bool {
        exists|p: Seq<Seq<char>>| #[trigger] self.is_chain(p) && p[0] == a && p.last() == b
    }
}

/// What the nodes of an adjacency reach, the modules lead to.
proof fn lemma_reaches_leads(
    g: Graph,
    names: Seq<Seq<char>>,
    adj: Seq<Vec<usize>>,
    a: int,
    b: int,
)
    requires
        g.adjacency(names, adj),
        scc::reaches(adj, a, b),
    ensures
        g.leads_to(names[a], names[b]),
{
    reveal(crate::scc::reaches);
    let p = choose|p: Seq<int>| crate::scc::path_between(adj, p, a, b);
    let q = named(names, p);
    assert forall|i: int| 0 <= i < q.len() - 1 implies g.imports(#[trigger] q[i], q[i + 1]) by {
        assert(crate::scc::step(adj, p, i));
        assert(scc::arrow(adj, p[i], p[i + 1]));
    }
    assert(g.is_chain(q));
}

/// Every import cycle is accounted for: a reported cycle has a module that the
/// modules of the cycle lead to and that leads to them.
pub proof fn law_every_cycle_is_reported(g: Graph, r: Seq<Seq<Seq<char>>>, c: Seq<Seq<char>>)
    requires
        g.cycles_are(r),
        g.is_cycle(c),
    ensures
        exists|k: int|
            0 <= k < r.len() && g.leads_to(c[0], (#[trigger] r[k])[0]) && g.leads_to(r[k][0], c[0]),
{
    let (names, adj) = choose|names: Seq<Seq<char>>, adj: Seq<Vec<usize>>| #[trigger]
        g.adjacency(names, adj) && names_cycles(names, adj, r);
    let n = c.len() as int;
    assert forall|i: int| 0 <= i < n implies names.contains(#[trigger] c[i]) by {
        let next = c[(i + 1) % n];
        assert(g.imports(c[i], next));
        let e = choose|e: int| #[trigger]
            g.counts(e) && g.edges@[e].importer@ == c[i] && g.edges@[e].target@ == next;
        assert(g.is_node(c[i]));
    }
    let at = Seq::new(c.len(), |i: int| names.index_of(c[i]));
    assert forall|i: int| 0 <= i < n implies 0 <= #[trigger] at[i] < names.len() && names[at[i]]
        == c[i] by {
        assert(names.contains(c[i]));
    }
    let ring = at.push(at[0]);
    assert forall|i: int| 0 <= i < n implies scc::arrow(adj, #[trigger] ring[i], ring[i + 1]) by {
        if i < n - 1 {
            assert((i + 1) % n == i + 1) by (nonlinear_arith)
                requires
                    0 <= i + 1 < n,
            ;
            assert(0 <= at[i + 1] < names.len());
        } else {
            assert((i + 1) % n == 0) by (nonlinear_arith)
                requires
                    i + 1 == n,
                    n > 0,
            ;
        }
        assert(0 <= at[i] < names.len());
        assert(g.imports(c[i], c[(i + 1) % n]));
    }
    let v = at[0];
    lemma_ring_reaches(adj, ring, 1);
    assert(scc::arrow(adj, ring[0], ring[1]) && scc::reaches(adj, ring[1], v));
    assert(on_cycle(adj, v));
    let left = scc::leaving_order(adj);
    let ls = scc::leads(adj, left, left.len() as int);
    scc::lemma_all_left(adj, v);
    let i = crate::scc::lemma_lead_of(adj, left, v);
    let l = ls[i];
    // The lead lies on a cycle too: through `v` and back.
    assert(on_cycle(adj, l)) by {
        if l != v {
            let only = Set::<int>::empty().insert(l);
            let (p, q) = crate::scc::lemma_exit(adj, only, l, v);
            crate::scc::lemma_reaches_transitive(adj, q, v, l);
            assert(scc::arrow(adj, l, q));
        }
    }
    let k = lemma_cyclic_at(adj, ls, i);
    assert(named_for(names, adj, cyclic_leads(adj)[k], r[k]));
    let d = choose|d: Seq<int>| #[trigger]
        cycle_of(adj, class(adj, l), d) && r[k] == named(names, d);
    lemma_cycle_closes(adj, class(adj, l), d);
    let x = d[0];
    assert(class(adj, l).contains(x));
    crate::scc::lemma_reaches_transitive(adj, v, l, x);
    crate::scc::lemma_reaches_transitive(adj, x, l, v);
    lemma_reaches_leads(g, names, adj, v, x);
    lemma_reaches_leads(g, names, adj, x, v);
    assert(r[k][0] == names[x]);
    assert(c[0] == names[v]);
}

/// The nodes of a chain of arrows reach its end.
proof fn lemma_ring_reaches(adj: Seq<Vec<usize>>, ring: Seq<int>, i: int)
    requires
        0 <= i < ring.len(),
        ring.len() > 1,
        forall|j: int| 0 <= j < ring.len() - 1 ==> scc::arrow(adj, #[trigger] ring[j], ring[j + 1]),
    ensures
        scc::reaches(adj, ring[i], ring.last()),
    decreases ring.len() - i,
{
    if i == ring.len() - 1 {
        assert(scc::arrow(adj, ring[i - 1], ring[i - 1 + 1]));
        crate::scc::lemma_reaches_self(adj, ring[i]);
    } else {
        assert(scc::arrow(adj, ring[i], ring[i + 1]));
        crate::scc::lemma_reaches_step(adj, ring[i], ring[i + 1]);
        lemma_ring_reaches(adj, ring, i + 1);
        crate::scc::lemma_reaches_transitive(adj, ring[i], ring[i + 1], ring.last());
    }
}

/// No module stands in two of the reported cycles.
pub proof fn law_reported_cycles_are_apart(g: Graph, r: Seq<Seq<Seq<char>>>, k: int, m: int)
    requires
        g.cycles_are(r),
        0 <= k < m < r.len(),
    ensures
        forall|x: Seq<char>| !(#[trigger] r[k].contains(x) && r[m].contains(x)),
{
    let (names, adj) = choose|names: Seq<Seq<char>>, adj: Seq<Vec<usize>>| #[trigger]
        g.adjacency(names, adj) && names_cycles(names, adj, r);
    let left = scc::leaving_order(adj);
    let ls = scc::leads(adj, left, left.len() as int);
    let (i, j) = lemma_cyclic_order(adj, ls, k, m);
    let a = ls[i];
    let b = ls[j];
    crate::scc::lemma_leads_apart(adj, left, i, j);
    assert(named_for(names, adj, a, r[k]));
    assert(named_for(names, adj, b, r[m]));
    let c = choose|c: Seq<int>| #[trigger]
        cycle_of(adj, class(adj, a), c) && r[k] == named(names, c);
    let d = choose|d: Seq<int>| #[trigger]
        cycle_of(adj, class(adj, b), d) && r[m] == named(names, d);
    lemma_cycle_closes(adj, class(adj, a), c);
    lemma_cycle_closes(adj, class(adj, b), d);
    crate::table::lemma_ascending_distinct::<String>(names);
    assert forall|x: Seq<char>| !(#[trigger] r[k].contains(x) && r[m].contains(x)) by {
        if r[k].contains(x) && r[m].contains(x) {
            let p = choose|p: int| 0 <= p < r[k].len() && r[k][p] == x;
            let q = choose|q: int| 0 <= q < r[m].len() && r[m][q] == x;
            assert(class(adj, a).contains(c[p]));
            assert(class(adj, b).contains(d[q]));
            crate::scc::lemma_reaches_nodes(adj, a, c[p]);
            crate::scc::lemma_reaches_nodes(adj, b, d[q]);
            assert(c[p] == d[q]);
            crate::scc::lemma_reaches_transitive(adj, a, c[p], b);
            crate::scc::lemma_reaches_transitive(adj, b, c[p], a);
        }
    }
}

} // verus!
