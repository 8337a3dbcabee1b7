//! The classes of a project, their bases, and which methods override which.
//!
//! A base that is no class of the project is external: such a class is driven by
//! a framework that the project does not show.
use crate::callgraph::{push_new, Answers, CallGraph, CallGraphTy, Spot, SuperClass, SuperView};
use crate::model::{Def, DefKind, FileIndex};
use crate::names::{fqn_of, scope_fqn, without_item};
use crate::names;
use crate::sort;
use crate::table::Table;
use crate::table;
use crate::text::{copy_strings, listed};
use crate::text;
use vstd::prelude::*;

verus! {

/// Where the definitions of a file have the class of a name; of two, the later.
pub open spec fn class_spot_in(path: Seq<char>, defs: Seq<Def>, name: Seq<char>) -> Option<Def>
    decreases defs.len(),
{
    if defs.len() == 0 {
        None
    } else if defs.last().kind is Class && names::def_fqn(path, defs.last()) == name {
        Some(defs.last())
    } else {
        class_spot_in(path, defs.drop_last(), name)
    }
}

/// The class of a name: its path and its definition.
pub open spec fn class_named(files: Seq<FileIndex>, name: Seq<char>) -> Option<(Seq<char>, Def)>
    decreases files.len(),
{
    if files.len() == 0 {
        None
    } else {
        match class_spot_in(files.last().path@, files.last().defs@, name) {
            Some(d) => Some((files.last().path@, d)),
            None => class_named(files.drop_last(), name),
        }
    }
}

/// The name of the class that the definitions of a file have at a spot.
pub open spec fn class_name_in(path: Seq<char>, defs: Seq<Def>, s: Spot) -> Option<Seq<char>>
    decreases defs.len(),
{
    if defs.len() == 0 {
        None
    } else if defs.last().kind is Class && s == (path, defs.last().offset) {
        Some(names::def_fqn(path, defs.last()))
    } else {
        class_name_in(path, defs.drop_last(), s)
    }
}

/// The name of the class at a spot.
pub open spec fn class_name_at(files: Seq<FileIndex>, s: Spot) -> Option<Seq<char>>
    decreases files.len(),
{
    if files.len() == 0 {
        None
    } else {
        match class_name_in(files.last().path@, files.last().defs@, s) {
            Some(n) => Some(n),
            None => class_name_at(files.drop_last(), s),
        }
    }
}

/// `s` with `x` at its end, unless it is there.
pub open spec fn with_new(s: Seq<Seq<char>>, x: Seq<char>) -> Seq<Seq<char>> {
    if s.contains(x) {
        s
    } else {
        s.push(x)
    }
}

/// `start` with the names added of the functions that a file defines directly
/// in a scope, each once.
pub open spec fn methods_in(
    path: Seq<char>,
    defs: Seq<Def>,
    scope: Seq<char>,
    start: Seq<Seq<char>>,
) -> Seq<Seq<char>>
    decreases defs.len(),
{
    if defs.len() == 0 {
        start
    } else {
        let before = methods_in(path, defs.drop_last(), scope, start);
        let d = defs.last();
        if d.kind is Function && d.container@.len() > 0 && names::fqn(path, text::views(d.container@)) == scope {
            with_new(before, d.name@)
        } else {
            before
        }
    }
}

/// The names of the functions defined directly in a scope, each once.
pub open spec fn methods_of(files: Seq<FileIndex>, scope: Seq<char>) -> Seq<Seq<char>>
    decreases files.len(),
{
    if files.len() == 0 {
        Seq::empty()
    } else {
        methods_in(
            files.last().path@,
            files.last().defs@,
            scope,
            methods_of(files.drop_last(), scope),
        )
    }
}

/// The names of those bases that are classes of the project.
pub open spec fn project_bases(files: Seq<FileIndex>, s: Seq<SuperView>) -> Seq<Seq<char>>
    decreases s.len(),
{
    if s.len() == 0 {
        Seq::empty()
    } else {
        let before = project_bases(files, s.drop_last());
        match s.last().anchor {
            Some(a) => match class_name_at(files, a) {
                Some(n) => before.push(n),
                None => before,
            },
            None => before,
        }
    }
}

/// The names of those bases that are not.
pub open spec fn outside_bases(files: Seq<FileIndex>, s: Seq<SuperView>) -> Seq<Seq<char>>
    decreases s.len(),
{
    if s.len() == 0 {
        Seq::empty()
    } else {
        let before = outside_bases(files, s.drop_last());
        match s.last().anchor {
            Some(a) => match class_name_at(files, a) {
                Some(n) => before,
                None => before.push(s.last().name),
            },
            None => before.push(s.last().name),
        }
    }
}

/// The bases that a class writes, `object` left out.
pub open spec fn written(d: Def) -> Seq<Seq<char>> {
    names::except(text::views(d.bases@), "object"@)
}

/// The direct bases of a class that are classes of the project.
pub open spec fn direct_bases(files: Seq<FileIndex>, a: Answers, name: Seq<char>) -> Seq<Seq<char>> {
    match class_named(files, name) {
        Some((path, d)) => if written(d).len() == 0 {
            Seq::empty()
        } else {
            project_bases(files, (a.supertypes)((path, d.offset)))
        },
        None => Seq::empty(),
    }
}

/// The direct bases of a class that are not.
pub open spec fn direct_outside(
    files: Seq<FileIndex>,
    a: Answers,
    name: Seq<char>,
) -> Seq<Seq<char>> {
    match class_named(files, name) {
        Some((path, d)) => if written(d).len() == 0 {
            Seq::empty()
        } else {
            outside_bases(files, (a.supertypes)((path, d.offset)))
        },
        None => Seq::empty(),
    }
}

/// Whether a class writes more bases than are classes of the project.
pub open spec fn extends_outside(files: Seq<FileIndex>, a: Answers, name: Seq<char>) -> bool {
    match class_named(files, name) {
        Some((path, d)) => project_bases(files, (a.supertypes)((path, d.offset))).len() < written(
            d,
        ).len(),
        None => false,
    }
}

/// `name` as often as `base` is among its bases.
pub open spec fn repeats(
    bases: Seq<Seq<char>>,
    base: Seq<char>,
    name: Seq<char>,
) -> Seq<Seq<char>>
    decreases bases.len(),
{
    if bases.len() == 0 {
        Seq::empty()
    } else if bases.last() == base {
        repeats(bases.drop_last(), base, name).push(name)
    } else {
        repeats(bases.drop_last(), base, name)
    }
}

/// Those of `classes` that have a direct base.
pub open spec fn children_among(
    files: Seq<FileIndex>,
    a: Answers,
    classes: Seq<Seq<char>>,
    base: Seq<char>,
) -> Seq<Seq<char>>
    decreases classes.len(),
{
    if classes.len() == 0 {
        Seq::empty()
    } else {
        children_among(files, a, classes.drop_last(), base) + repeats(
            direct_bases(files, a, classes.last()),
            base,
            classes.last(),
        )
    }
}

/// The inheritance graph of a project.
pub struct Hierarchy {
    /// The direct bases of a class that are classes of the project.
    pub bases: Table<String, Vec<String>>,
    /// The classes with a direct base, in the order of their names.
    pub children: Table<String, Vec<String>>,
    /// The direct bases of a class that are not classes of the project.
    pub external_bases: Table<String, Vec<String>>,
    /// The classes that write more bases than are classes of the project.
    pub external: Table<String, ()>,
    /// The functions defined directly in a scope.
    pub methods: Table<String, Vec<String>>,
    /// Where each class is defined.
    pub anchor: Table<String, (String, u32)>,
}

impl Hierarchy {
    /// Whether this is the inheritance graph of the files.
    pub open spec fn describes(self, files: Seq<FileIndex>, a: Answers) -> bool {
        &&& table::ascending::<String>(self.anchor.keys())
        &&& forall|n: Seq<char>| #[trigger]
            self.anchor.keys().contains(n) <==> class_named(files, n) is Some
        &&& forall|n: Seq<char>| #[trigger]
            self.anchor.keys().contains(n) ==> self.anchor.map()[n]@ == (
                (class_named(files, n)->0).0,
                (class_named(files, n)->0).1.offset,
            )
        &&& forall|n: Seq<char>| #[trigger]
            text::views(self.bases.list(n)) == direct_bases(files, a, n)
        &&& forall|n: Seq<char>| #[trigger]
            text::views(self.external_bases.list(n)) == direct_outside(files, a, n)
        &&& forall|n: Seq<char>| #[trigger]
            self.external.keys().contains(n) <==> extends_outside(files, a, n)
        &&& forall|n: Seq<char>| #[trigger] text::views(self.methods.list(n)) == methods_of(files, n)
        &&& forall|n: Seq<char>| #[trigger]
            text::views(self.children.list(n)) == children_among(files, a, self.anchor.keys(), n)
    }
}

/// What is kept of a class while the graph is built.
struct ClassRow {
    path: String,
    offset: u32,
    bases: Vec<String>,
}

/// What a row keeps of a class: its path, its offset and its bases.
spec fn row_view(rows: Table<String, ClassRow>, n: Seq<char>) -> Option<
    (Seq<char>, u32, Seq<Seq<char>>),
> {
    if rows.map().contains_key(n) {
        let row = rows.map()[n];
        Some((row.path@, row.offset, text::views(row.bases@)))
    } else {
        None
    }
}

/// What is kept of the class of a definition.
spec fn def_view(path: Seq<char>, d: Def) -> (Seq<char>, u32, Seq<Seq<char>>) {
    (path, d.offset, text::views(d.bases@))
}

/// What is kept of the class of a name.
spec fn class_view(files: Seq<FileIndex>, n: Seq<char>) -> Option<
    (Seq<char>, u32, Seq<Seq<char>>),
> {
    match class_named(files, n) {
        Some((path, d)) => Some(def_view(path, d)),
        None => None,
    }
}

/// Whether the rows are the classes of the files.
spec fn rows_of(rows: Table<String, ClassRow>, files: Seq<FileIndex>) -> bool {
    forall|n: Seq<char>| #[trigger] row_view(rows, n) == class_view(files, n)
}

/// Whether the table has the names of the classes by spot.
spec fn names_by_spot(t: Table<(String, u32), String>, files: Seq<FileIndex>) -> bool {
    forall|s: Spot| #[trigger]
        crate::callgraph::table_name(t, s) == class_name_at(files, s)
}

/// Enters the classes and methods of one file.
fn enter_classes(
    f: &FileIndex,
    rows: &mut Table<String, ClassRow>,
    by_spot: &mut Table<(String, u32), String>,
    methods: &mut Table<String, Vec<String>>,
    Ghost(files): Ghost<Seq<FileIndex>>,
)
    requires
        rows_of(*old(rows), files),
        names_by_spot(*old(by_spot), files),
        forall|n: Seq<char>| #[trigger] text::views(old(methods).list(n)) == methods_of(files, n),
    ensures
        rows_of(*final(rows), files.push(*f)),
        names_by_spot(*final(by_spot), files.push(*f)),
        forall|n: Seq<char>| #[trigger]
            text::views(final(methods).list(n)) == methods_of(files.push(*f), n),
{
    let ghost rows0 = *rows;
    let ghost spots0 = *by_spot;
    let ghost methods0 = *methods;
    let mut j: usize = 0;
    while j < f.defs.len()
        invariant
            j <= f.defs@.len(),
            rows_of(rows0, files),
            names_by_spot(spots0, files),
            forall|n: Seq<char>| #[trigger] text::views(methods0.list(n)) == methods_of(files, n),
            forall|n: Seq<char>| #[trigger]
                row_view(*rows, n) == (match class_spot_in(f.path@, f.defs@.take(j as int), n) {
                    Some(d) => Some(def_view(f.path@, d)),
                    None => row_view(rows0, n),
                }),
            forall|s: Spot| #[trigger]
                crate::callgraph::table_name(*by_spot, s) == (match class_name_in(
                    f.path@,
                    f.defs@.take(j as int),
                    s,
                ) {
                    Some(n) => Some(n),
                    None => crate::callgraph::table_name(spots0, s),
                }),
            forall|n: Seq<char>| #[trigger]
                text::views(methods.list(n)) == methods_in(
                    f.path@,
                    f.defs@.take(j as int),
                    n,
                    text::views(methods0.list(n)),
                ),
        decreases f.defs@.len() - j,
    {
        let d = &f.defs[j];
        let ghost rows1 = *rows;
        let ghost spots1 = *by_spot;
        let ghost methods1 = *methods;
        proof {
            text::lemma_take_step(f.defs@, j as int);
        }
        match d.kind {
            DefKind::Class => {
                let name = fqn_of(f.path.as_str(), d);
                by_spot.insert((f.path.clone(), d.offset), name.clone());
                rows.insert(
                    name,
                    ClassRow {
                        path: f.path.clone(),
                        offset: d.offset,
                        bases: copy_strings(&d.bases),
                    },
                );
                proof {
                    assert forall|n: Seq<char>| #[trigger] row_view(*rows, n) == (
                    match class_spot_in(f.path@, f.defs@.take(j + 1), n) {
                        Some(d) => Some(def_view(f.path@, d)),
                        None => row_view(rows0, n),
                    }) by {
                        assert(row_view(rows1, n) == match class_spot_in(
                            f.path@,
                            f.defs@.take(j as int),
                            n,
                        ) {
                            Some(d) => Some(def_view(f.path@, d)),
                            None => row_view(rows0, n),
                        });
                    }
                    assert forall|s: Spot| #[trigger]
                        crate::callgraph::table_name(*by_spot, s) == (match class_name_in(
                            f.path@,
                            f.defs@.take(j + 1),
                            s,
                        ) {
                            Some(n) => Some(n),
                            None => crate::callgraph::table_name(spots0, s),
                        }) by {
                        assert(crate::callgraph::table_name(spots1, s) == match class_name_in(
                            f.path@,
                            f.defs@.take(j as int),
                            s,
                        ) {
                            Some(n) => Some(n),
                            None => crate::callgraph::table_name(spots0, s),
                        });
                    }
                }
            },
            DefKind::Function => {
                if d.container.len() > 0 {
                    let scope = scope_fqn(f.path.as_str(), &d.container);
                    push_new(methods, &scope, &d.name);
                    proof {
                        assert forall|n: Seq<char>| #[trigger] text::views(methods.list(n))
                            == methods_in(
                            f.path@,
                            f.defs@.take(j + 1),
                            n,
                            text::views(methods0.list(n)),
                        ) by {
                            assert(text::views(methods1.list(n)) == methods_in(
                                f.path@,
                                f.defs@.take(j as int),
                                n,
                                text::views(methods0.list(n)),
                            ));
                        }
                    }
                }
            },
            _ => {},
        }
        j = j + 1;
    }
    proof {
        text::lemma_take_all(f.defs@);
        let all = files.push(*f);
        assert(all.drop_last() =~= files);
        assert(all.last() == *f);
        assert forall|n: Seq<char>| #[trigger] row_view(*rows, n) == class_view(all, n) by {
            assert(row_view(rows0, n) == class_view(files, n));
        }
        assert forall|s: Spot| #[trigger]
            crate::callgraph::table_name(*by_spot, s) == class_name_at(all, s) by {
            assert(crate::callgraph::table_name(spots0, s) == class_name_at(files, s));
        }
        assert forall|n: Seq<char>| #[trigger] text::views(methods.list(n)) == methods_of(all, n) by {
            assert(text::views(methods0.list(n)) == methods_of(files, n));
        }
    }
}


/// The list of `key` is longer by `x`; the others are as they were.
proof fn lemma_pushed(
    was: Table<String, Vec<String>>,
    now: Table<String, Vec<String>>,
    key: Seq<char>,
    x: String,
)
    requires
        forall|k: Seq<char>| #[trigger]
            now.list(k) == (if k == key {
                was.list(k).push(x)
            } else {
                was.list(k)
            }),
    ensures
        forall|k: Seq<char>| #[trigger]
            text::views(now.list(k)) == (if k == key {
                text::views(was.list(k)).push(x@)
            } else {
                text::views(was.list(k))
            }),
{
    assert forall|k: Seq<char>| #[trigger] text::views(now.list(k)) == (if k == key {
        text::views(was.list(k)).push(x@)
    } else {
        text::views(was.list(k))
    }) by {
        if k == key {
            assert(text::views(was.list(k).push(x)) =~= text::views(was.list(k)).push(x@));
            assert(now.list(k) == was.list(k).push(x));
        } else {
            assert(now.list(k) == was.list(k));
        }
    }
}

impl Hierarchy {
    /// Enters the bases of one class. Returns how many of them are classes of
    /// the project.
    fn enter_bases(
        &mut self,
        name: &String,
        supers: Vec<SuperClass>,
        by_spot: &Table<(String, u32), String>,
        Ghost(files): Ghost<Seq<FileIndex>>,
    ) -> (count: usize)
        requires
            names_by_spot(*by_spot, files),
            text::views(old(self).bases.list(name@)).len() == 0,
            text::views(old(self).external_bases.list(name@)).len() == 0,
        ensures
            final(self).anchor == old(self).anchor,
            final(self).methods == old(self).methods,
            final(self).external == old(self).external,
            count == project_bases(files, sort::each(supers@)).len(),
            forall|n: Seq<char>| #[trigger]
                text::views(final(self).bases.list(n)) == (if n == name@ {
                    project_bases(files, sort::each(supers@))
                } else {
                    text::views(old(self).bases.list(n))
                }),
            forall|n: Seq<char>| #[trigger]
                text::views(final(self).external_bases.list(n)) == (if n == name@ {
                    outside_bases(files, sort::each(supers@))
                } else {
                    text::views(old(self).external_bases.list(n))
                }),
            forall|n: Seq<char>| #[trigger]
                text::views(final(self).children.list(n)) == text::views(old(self).children.list(n)) + repeats(
                    project_bases(files, sort::each(supers@)),
                    n,
                    name@,
                ),
    {
        let ghost h0 = *self;
        let ghost heard = sort::each(supers@);
        let mut count: usize = 0;
        let mut j: usize = 0;
        proof {
            assert(heard.take(0) =~= Seq::<SuperView>::empty());
            assert(text::views(h0.bases.list(name@)) =~= Seq::<Seq<char>>::empty());
            assert(text::views(h0.external_bases.list(name@)) =~= Seq::<Seq<char>>::empty());
            assert forall|n: Seq<char>| #[trigger] text::views(self.children.list(n)) == text::views(
                h0.children.list(n),
            ) + repeats(project_bases(files, heard.take(0)), n, name@) by {
                assert(text::views(h0.children.list(n)) + repeats(
                    project_bases(files, heard.take(0)),
                    n,
                    name@,
                ) =~= text::views(h0.children.list(n)));
            }
        }
        while j < supers.len()
            invariant
                j <= supers@.len(),
                heard == sort::each(supers@),
                names_by_spot(*by_spot, files),
                self.anchor == h0.anchor,
                self.methods == h0.methods,
                self.external == h0.external,
                count <= j,
                count == project_bases(files, heard.take(j as int)).len(),
                forall|n: Seq<char>| #[trigger]
                    text::views(self.bases.list(n)) == (if n == name@ {
                        project_bases(files, heard.take(j as int))
                    } else {
                        text::views(h0.bases.list(n))
                    }),
                forall|n: Seq<char>| #[trigger]
                    text::views(self.external_bases.list(n)) == (if n == name@ {
                        outside_bases(files, heard.take(j as int))
                    } else {
                        text::views(h0.external_bases.list(n))
                    }),
                forall|n: Seq<char>| #[trigger]
                    text::views(self.children.list(n)) == text::views(h0.children.list(n)) + repeats(
                        project_bases(files, heard.take(j as int)),
                        n,
                        name@,
                    ),
            decreases supers@.len() - j,
        {
            let sup = &supers[j];
            let ghost h1 = *self;
            proof {
                text::lemma_take_step(heard, j as int);
                assert(heard[j as int] == sup@);
            }
            let found = match &sup.anchor {
                Some(a) => {
                    proof {
                        assert(crate::callgraph::table_name(*by_spot, a@) == class_name_at(
                            files,
                            a@,
                        ));
                    }
                    by_spot.get(a)
                },
                None => None,
            };
            match found {
                Some(base) => {
                    assert(project_bases(files, heard.take(j + 1)) == project_bases(
                        files,
                        heard.take(j as int),
                    ).push(base@));
                    count = count + 1;
                    self.bases.push_to(name.clone(), base.clone());
                    self.children.push_to(base.clone(), name.clone());
                    proof {
                        lemma_pushed(h1.bases, self.bases, name@, *base);
                        lemma_pushed(h1.children, self.children, base@, *name);
                        let more = project_bases(files, heard.take(j + 1));
                        let less = project_bases(files, heard.take(j as int));
                        assert(more.drop_last() =~= less);
                        assert forall|n: Seq<char>| #[trigger] text::views(self.children.list(n))
                            == text::views(h0.children.list(n)) + repeats(more, n, name@) by {
                            assert(text::views(h1.children.list(n)) == text::views(h0.children.list(n))
                                + repeats(less, n, name@));
                            if n == base@ {
                                assert(text::views(h0.children.list(n)) + repeats(less, n, name@).push(
                                    name@,
                                ) =~= (text::views(h0.children.list(n)) + repeats(less, n, name@)).push(
                                    name@,
                                ));
                            }
                        }
                    }
                },
                None => {
                    self.external_bases.push_to(name.clone(), sup.name.clone());
                    proof {
                        lemma_pushed(h1.external_bases, self.external_bases, name@, sup.name);
                    }
                },
            }
            j = j + 1;
        }
        proof {
            text::lemma_take_all(heard);
        }
        count
    }

    /// The inheritance graph of the files, bases being resolved by `graph`.
    pub fn build<T: CallGraphTy>(files: &Vec<FileIndex>, graph: &CallGraph<T>) -> (r: Self)
        ensures
            r.describes(files@, graph.answers()),
    {
        let ghost a = graph.answers();
        let mut rows: Table<String, ClassRow> = Table::new();
        let mut by_spot: Table<(String, u32), String> = Table::new();
        let mut methods: Table<String, Vec<String>> = Table::new();
        let mut i: usize = 0;
        proof {
            assert(files@.take(0) =~= Seq::<FileIndex>::empty());
            assert forall|n: Seq<char>| #[trigger] text::views(methods.list(n)) == methods_of(
                files@.take(0),
                n,
            ) by {
                assert(text::views(methods.list(n)) =~= Seq::<Seq<char>>::empty());
            }
        }
        while i < files.len()
            invariant
                i <= files@.len(),
                rows_of(rows, files@.take(i as int)),
                names_by_spot(by_spot, files@.take(i as int)),
                forall|n: Seq<char>| #[trigger]
                    text::views(methods.list(n)) == methods_of(files@.take(i as int), n),
            decreases files@.len() - i,
        {
            proof {
                text::lemma_take_step(files@, i as int);
            }
            enter_classes(
                &files[i],
                &mut rows,
                &mut by_spot,
                &mut methods,
                Ghost(files@.take(i as int)),
            );
            i = i + 1;
        }
        proof {
            text::lemma_take_all(files@);
        }
        let count: usize = rows.len();
        let ghost classes = rows.keys();
        proof {
            rows.lemma_rows();
            crate::table::lemma_ascending_distinct::<String>(classes);
        }
        let mut h = Hierarchy {
            bases: Table::new(),
            children: Table::new(),
            external_bases: Table::new(),
            external: Table::new(),
            methods,
            anchor: Table::new(),
        };
        let ghost methods0 = h.methods;
        proof {
            assert(classes.take(0) =~= Seq::<Seq<char>>::empty());
            assert forall|n: Seq<char>| #[trigger] text::views(h.bases.list(n)) == Seq::<Seq<char>>::empty() by {
                assert(text::views(h.bases.list(n)) =~= Seq::<Seq<char>>::empty());
            }
            assert forall|n: Seq<char>| #[trigger] text::views(h.external_bases.list(n)) == Seq::<
                Seq<char>,
            >::empty() by {
                assert(text::views(h.external_bases.list(n)) =~= Seq::<Seq<char>>::empty());
            }
            assert forall|n: Seq<char>| #[trigger] text::views(h.children.list(n)) == Seq::<
                Seq<char>,
            >::empty() by {
                assert(text::views(h.children.list(n)) =~= Seq::<Seq<char>>::empty());
            }
        }
        let mut k: usize = 0;
        while k < count
            invariant
                k <= count,
                count == classes.len(),
                a == graph.answers(),
                classes == rows.keys(),
                classes.no_duplicates(),
                table::ascending::<String>(classes),
                rows_of(rows, files@),
                names_by_spot(by_spot, files@),
                forall|q: int|
                    0 <= q < classes.len() ==> rows.map().contains_key(#[trigger] classes[q])
                        && rows.map()[classes[q]] == rows.values()[q],
                h.methods == methods0,
                forall|n: Seq<char>| #[trigger]
                    h.anchor.keys().contains(n) <==> classes.take(k as int).contains(n),
                forall|n: Seq<char>| #[trigger]
                    h.anchor.keys().contains(n) ==> class_named(files@, n) is Some
                        && h.anchor.map()[n]@ == (
                        (class_named(files@, n)->0).0,
                        (class_named(files@, n)->0).1.offset,
                    ),
                forall|n: Seq<char>| #[trigger]
                    text::views(h.bases.list(n)) == (if classes.take(k as int).contains(n) {
                        direct_bases(files@, a, n)
                    } else {
                        Seq::empty()
                    }),
                forall|n: Seq<char>| #[trigger]
                    text::views(h.external_bases.list(n)) == (if classes.take(k as int).contains(n) {
                        direct_outside(files@, a, n)
                    } else {
                        Seq::empty()
                    }),
                forall|n: Seq<char>| #[trigger]
                    h.external.keys().contains(n) <==> classes.take(k as int).contains(n)
                        && extends_outside(files@, a, n),
                forall|n: Seq<char>| #[trigger]
                    text::views(h.children.list(n)) == children_among(
                        files@,
                        a,
                        classes.take(k as int),
                        n,
                    ),
            decreases count - k,
        {
            let name = rows.key(k);
            let row = rows.value(k);
            let ghost shorter = classes.take(k as int);
            let ghost longer = classes.take(k + 1);
            proof {
                text::lemma_take_step(classes, k as int);
                text::lemma_push_contains(shorter, name@);
                assert(rows.map().contains_key(classes[k as int]));
                assert(!shorter.contains(name@)) by {
                    if shorter.contains(name@) {
                        let q = choose|q: int| 0 <= q < shorter.len() && shorter[q] == name@;
                        assert(classes[q] == classes[k as int]);
                    }
                }
            }
            let ghost d = (class_named(files@, name@)->0).1;
            assert(row_view(rows, name@) == class_view(files@, name@));
            h.anchor.insert(name.clone(), (row.path.clone(), row.offset));
            let own = without_item(&row.bases, "object");
            assert(text::views(own@) == written(d));
            if own.len() > 0 {
                let supers = graph.supertypes_at(row.path.as_str(), row.offset);
                let found = h.enter_bases(name, supers, &by_spot, Ghost(files@));
                if found < own.len() {
                    h.external.insert(name.clone(), ());
                }
                assert(text::views(own@).len() == own@.len());
            } else {
                assert(text::views(own@).len() == own@.len());
                assert forall|n: Seq<char>| #[trigger] text::views(h.children.list(n))
                    == children_among(files@, a, longer, n) by {
                    assert(children_among(files@, a, longer, n) =~= children_among(
                        files@,
                        a,
                        shorter,
                        n,
                    ));
                }
            }
            k = k + 1;
        }
        proof {
            text::lemma_take_all(classes);
            let keys = h.anchor.keys();
            assert forall|n: Seq<char>| #[trigger] keys.contains(n) <==> class_named(
                files@,
                n,
            ) is Some by {
                assert(row_view(rows, n) == class_view(files@, n));
                assert(rows.map().contains_key(n) <==> classes.contains(n));
            }
            assert forall|n: Seq<char>| !#[trigger] classes.contains(n) implies class_named(
                files@,
                n,
            ) is None by {
                assert(row_view(rows, n) == class_view(files@, n));
                assert(rows.map().contains_key(n) <==> classes.contains(n));
            }
            assert forall|n: Seq<char>| #[trigger]
                text::views(h.bases.list(n)) == direct_bases(files@, a, n) by {
                assert(classes.contains(n) || !classes.contains(n));
            }
            assert forall|n: Seq<char>| #[trigger]
                text::views(h.external_bases.list(n)) == direct_outside(files@, a, n) by {
                assert(classes.contains(n) || !classes.contains(n));
            }
            assert forall|n: Seq<char>| #[trigger]
                h.external.keys().contains(n) <==> extends_outside(files@, a, n) by {
                assert(classes.contains(n) || !classes.contains(n));
            }
        }
        // Asking a table its length shows that its keys ascend.
        let _rows: usize = h.anchor.len();
        proof {
            crate::table::lemma_ascending_unique::<String>(h.anchor.keys(), classes);
        }
        h
    }
}


/// `out` with the names added that it does not have, in order.
pub open spec fn fresh(out: Seq<Seq<char>>, names: Seq<Seq<char>>) -> Seq<Seq<char>>
    decreases names.len(),
{
    if names.len() == 0 {
        out
    } else {
        with_new(fresh(out, names.drop_last()), names.last())
    }
}

/// `out` with the lists of all of `level` added.
pub open spec fn level_fresh(
    t: Table<String, Vec<String>>,
    out: Seq<Seq<char>>,
    level: Seq<Seq<char>>,
) -> Seq<Seq<char>>
    decreases level.len(),
{
    if level.len() == 0 {
        out
    } else {
        fresh(level_fresh(t, out, level.drop_last()), text::views(t.list(level.last())))
    }
}

/// What the lists of a table lead to from a name within `n + 1` steps, nearest
/// first, and how much of it within `n`.
pub open spec fn kin(t: Table<String, Vec<String>>, name: Seq<char>, n: nat) -> (
    Seq<Seq<char>>,
    int,
)
    decreases n,
{
    if n == 0 {
        (fresh(Seq::empty(), text::views(t.list(name))), 0)
    } else {
        let (out, from) = kin(t, name, (n - 1) as nat);
        (level_fresh(t, out, out.skip(from)), out.len() as int)
    }
}

/// Whether `out` is all that the lists of a table lead to from a name, nearest
/// first.
pub open spec fn kin_is(
    t: Table<String, Vec<String>>,
    name: Seq<char>,
    out: Seq<Seq<char>>,
) -> bool {
    exists|n: nat| #[trigger] kin(t, name, n) == (out, out.len() as int)
}

/// The names in all lists.
spec fn all_names(lists: Seq<Vec<String>>) -> Set<Seq<char>>
    decreases lists.len(),
{
    if lists.len() == 0 {
        Set::empty()
    } else {
        all_names(lists.drop_last()).union(text::views(lists.last()@).to_set())
    }
}

proof fn lemma_all_names(lists: Seq<Vec<String>>)
    ensures
        all_names(lists).finite(),
        forall|k: int, i: int|
            0 <= k < lists.len() && 0 <= i < lists[k]@.len() ==> all_names(lists).contains(
                #[trigger] lists[k]@[i]@,
            ),
    decreases lists.len(),
{
    if lists.len() > 0 {
        lemma_all_names(lists.drop_last());
        let last = text::views(lists.last()@);
        vstd::seq_lib::seq_to_set_is_finite(last);
        assert forall|k: int, i: int|
            0 <= k < lists.len() && 0 <= i < lists[k]@.len() implies all_names(lists).contains(
            #[trigger] lists[k]@[i]@,
        ) by {
            if k < lists.len() - 1 {
                assert(lists.drop_last()[k]@[i] == lists[k]@[i]);
            } else {
                assert(last[i] == lists[k]@[i]@);
                assert(last.contains(last[i]));
            }
        }
    }
}

/// The names of one list of a table are among those of all.
proof fn lemma_list_names(t: Table<String, Vec<String>>, name: Seq<char>)
    ensures
        all_names(t.values()).finite(),
        forall|i: int|
            0 <= i < text::views(t.list(name)).len() ==> all_names(t.values()).contains(
                #[trigger] text::views(t.list(name))[i],
            ),
{
    lemma_all_names(t.values());
    t.lemma_same_len();
    if t.map().contains_key(name) {
        let k = t.keys().index_of(name);
        assert(t.keys()[k] == name);
        assert forall|i: int| 0 <= i < text::views(t.list(name)).len() implies all_names(
            t.values(),
        ).contains(#[trigger] text::views(t.list(name))[i]) by {
            assert(t.values()[k]@[i]@ == text::views(t.list(name))[i]);
        }
    }
}

/// Whether all names lie in a set, each once.
spec fn names_within(s: Seq<Seq<char>>, all: Set<Seq<char>>) -> bool {
    &&& s.no_duplicates()
    &&& forall|i: int| 0 <= i < s.len() ==> all.contains(#[trigger] s[i])
}

proof fn lemma_names_bound(s: Seq<Seq<char>>, all: Set<Seq<char>>)
    requires
        names_within(s, all),
        all.finite(),
    ensures
        s.len() <= all.len(),
{
    s.unique_seq_to_set();
    assert(s.to_set().subset_of(all)) by {
        assert forall|x: Seq<char>| s.to_set().contains(x) implies all.contains(x) by {
            let k = choose|k: int| 0 <= k < s.len() && s[k] == x;
            assert(all.contains(s[k]));
        }
    }
    vstd::set_lib::lemma_len_subset(s.to_set(), all);
}

proof fn lemma_fresh(out: Seq<Seq<char>>, names: Seq<Seq<char>>, all: Set<Seq<char>>)
    requires
        names_within(out, all),
        forall|i: int| 0 <= i < names.len() ==> all.contains(#[trigger] names[i]),
    ensures
        names_within(fresh(out, names), all),
        out.len() <= fresh(out, names).len(),
        fresh(out, names).take(out.len() as int) == out,
    decreases names.len(),
{
    if names.len() == 0 {
        text::lemma_take_all(out);
    } else {
        let t = names.drop_last();
        assert forall|i: int| 0 <= i < t.len() implies all.contains(#[trigger] t[i]) by {
            assert(t[i] == names[i]);
        }
        lemma_fresh(out, t, all);
        let before = fresh(out, t);
        assert(all.contains(names[names.len() - 1]));
        assert(fresh(out, names).take(out.len() as int) =~= before.take(out.len() as int));
    }
}

/// Appends the names that `out` does not have.
fn append_fresh(out: &mut Vec<String>, seen: &mut Table<String, ()>, names: &Vec<String>)
    requires
        forall|n: Seq<char>| #[trigger] old(seen).keys().contains(n) <==> text::views(old(out)@).contains(n),
    ensures
        forall|n: Seq<char>| #[trigger]
            final(seen).keys().contains(n) <==> text::views(final(out)@).contains(n),
        text::views(final(out)@) == fresh(text::views(old(out)@), text::views(names@)),
{
    let ghost was = text::views(out@);
    let ghost all = text::views(names@);
    let mut i: usize = 0;
    assert(all.take(0) =~= Seq::<Seq<char>>::empty());
    while i < names.len()
        invariant
            i <= names@.len(),
            all == text::views(names@),
            forall|n: Seq<char>| #[trigger] seen.keys().contains(n) <==> text::views(out@).contains(n),
            text::views(out@) == fresh(was, all.take(i as int)),
        decreases names@.len() - i,
    {
        proof {
            text::lemma_take_step(all, i as int);
        }
        if !seen.contains_key(&names[i]) {
            let ghost before = text::views(out@);
            seen.insert(names[i].clone(), ());
            out.push(names[i].clone());
            proof {
                assert(text::views(out@) =~= before.push(all[i as int]));
                text::lemma_push_contains(before, all[i as int]);
            }
        }
        i = i + 1;
    }
    proof {
        text::lemma_take_all(all);
    }
}

/// All that the lists of a table lead to from a name, nearest first.
fn kin_of(t: &Table<String, Vec<String>>, name: &str) -> (r: Vec<String>)
    ensures
        kin_is(*t, name@, text::views(r@)),
{
    let mut out: Vec<String> = Vec::new();
    let mut seen: Table<String, ()> = Table::new();
    let key = name.to_owned();
    let ghost all = all_names(t.values());
    assert(text::views(out@) =~= Seq::<Seq<char>>::empty());
    proof {
        lemma_list_names(*t, name@);
        lemma_fresh(Seq::empty(), text::views(t.list(name@)), all);
    }
    match t.get(&key) {
        Some(list) => {
            append_fresh(&mut out, &mut seen, list);
        },
        None => {
            assert(text::views(t.list(name@)) =~= Seq::<Seq<char>>::empty());
        },
    }
    let mut from: usize = 0;
    let ghost mut n: nat = 0;
    proof {
        lemma_names_bound(text::views(out@), all);
    }
    while from < out.len()
        invariant
            from <= out@.len(),
            all == all_names(t.values()),
            all.finite(),
            names_within(text::views(out@), all),
            out@.len() <= all.len(),
            forall|x: Seq<char>| #[trigger] seen.keys().contains(x) <==> text::views(out@).contains(x),
            kin(*t, name@, n) == (text::views(out@), from as int),
        decreases all.len() - out@.len(), out@.len() - from,
    {
        let to: usize = out.len();
        let ghost before = text::views(out@);
        let ghost level = before.skip(from as int);
        let mut k: usize = from;
        proof {
            assert(level.take(0) =~= Seq::<Seq<char>>::empty());
            text::lemma_take_all(before);
        }
        while k < to
            invariant
                from <= k <= to <= out@.len(),
                to == before.len(),
                level == before.skip(from as int),
                all == all_names(t.values()),
                names_within(text::views(out@), all),
                forall|x: Seq<char>| #[trigger] seen.keys().contains(x) <==> text::views(out@).contains(x),
                text::views(out@).take(to as int) == before,
                text::views(out@) == level_fresh(*t, before, level.take(k - from)),
            decreases to - k,
        {
            let x = out[k].clone();
            let ghost mid = text::views(out@);
            proof {
                text::lemma_take_step(level, k - from);
                assert(mid[k as int] == mid.take(to as int)[k as int]);
                assert(level[k - from] == x@);
                lemma_list_names(*t, x@);
                lemma_fresh(mid, text::views(t.list(x@)), all);
            }
            match t.get(&x) {
                Some(list) => {
                    append_fresh(&mut out, &mut seen, list);
                },
                None => {
                    assert(text::views(t.list(x@)) =~= Seq::<Seq<char>>::empty());
                },
            }
            proof {
                let now = text::views(out@);
                assert(now.take(to as int) =~= now.take(mid.len() as int).take(to as int));
            }
            k = k + 1;
        }
        proof {
            text::lemma_take_all(level);
            lemma_names_bound(text::views(out@), all);
            n = n + 1;
            assert((n - 1) as nat + 1 == n);
        }
        from = to;
    }
    out
}

/// Those of `names` whose list has `x`.
pub open spec fn with_member(
    t: Table<String, Vec<String>>,
    names: Seq<Seq<char>>,
    x: Seq<char>,
) -> Seq<Seq<char>>
    decreases names.len(),
{
    if names.len() == 0 {
        Seq::empty()
    } else if text::views(t.list(names.last())).contains(x) {
        with_member(t, names.drop_last(), x).push(names.last())
    } else {
        with_member(t, names.drop_last(), x)
    }
}

/// Those of `names` whose list has `x`.
fn having(t: &Table<String, Vec<String>>, names: &Vec<String>, x: &str) -> (r: Vec<String>)
    ensures
        text::views(r@) == with_member(*t, text::views(names@), x@),
{
    let ghost all = text::views(names@);
    let mut out: Vec<String> = Vec::new();
    let mut i: usize = 0;
    assert(text::views(out@) =~= with_member(*t, all.take(0), x@));
    while i < names.len()
        invariant
            i <= names@.len(),
            all == text::views(names@),
            text::views(out@) == with_member(*t, all.take(i as int), x@),
        decreases names@.len() - i,
    {
        proof {
            text::lemma_take_step(all, i as int);
        }
        let has = match t.get(&names[i]) {
            Some(list) => listed(x, list),
            None => false,
        };
        proof {
            if !t.map().contains_key(all[i as int]) {
                assert(text::views(t.list(all[i as int])) =~= Seq::<Seq<char>>::empty());
            }
        }
        if has {
            let ghost before = text::views(out@);
            out.push(names[i].clone());
            assert(text::views(out@) =~= before.push(all[i as int]));
        }
        i = i + 1;
    }
    proof {
        text::lemma_take_all(all);
    }
    out
}

/// Whether one of `names` is in a table.
pub open spec fn any_in(t: Table<String, ()>, names: Seq<Seq<char>>) -> bool {
    exists|i: int| 0 <= i < names.len() && t.keys().contains(#[trigger] names[i])
}

impl Hierarchy {
    /// Whether a class extends a base that is no class of the project.
    pub fn has_external_base(&self, fqn: &str) -> (r: bool)
        ensures
            r == self.external.keys().contains(fqn@),
    {
        let key = fqn.to_owned();
        self.external.contains_key(&key)
    }

    /// The bases of a class, and their bases, and so on.
    pub open spec fn supers_are(self, fqn: Seq<char>, r: Seq<Seq<char>>) -> bool {
        kin_is(self.bases, fqn, r)
    }

    /// The subclasses of a class, and their subclasses, and so on.
    pub open spec fn subclasses_are(self, fqn: Seq<char>, r: Seq<Seq<char>>) -> bool {
        kin_is(self.children, fqn, r)
    }

    /// The classes that a class inherits from, nearest first.
    pub open spec fn supers_of(self, fqn: Seq<char>) -> Seq<Seq<char>> {
        choose|s: Seq<Seq<char>>| self.supers_are(fqn, s)
    }

    /// The subclasses of a class, nearest first.
    pub open spec fn subclasses_of(self, fqn: Seq<char>) -> Seq<Seq<char>> {
        choose|s: Seq<Seq<char>>| self.subclasses_are(fqn, s)
    }

    /// They are one list.
    pub proof fn lemma_supers_of(self, fqn: Seq<char>)
        ensures
            forall|s: Seq<Seq<char>>| #[trigger]
                self.supers_are(fqn, s) ==> s == self.supers_of(fqn),
            forall|s: Seq<Seq<char>>| #[trigger]
                self.subclasses_are(fqn, s) ==> s == self.subclasses_of(fqn),
    {
        assert forall|s: Seq<Seq<char>>| #[trigger] self.supers_are(fqn, s) implies s
            == self.supers_of(fqn) by {
            lemma_kin_unique(self.bases, fqn, s, self.supers_of(fqn));
        }
        assert forall|s: Seq<Seq<char>>| #[trigger] self.subclasses_are(fqn, s) implies s
            == self.subclasses_of(fqn) by {
            lemma_kin_unique(self.children, fqn, s, self.subclasses_of(fqn));
        }
    }

    /// All classes of the project that a class inherits from, nearest first.
    pub fn supers(&self, fqn: &str) -> (r: Vec<String>)
        ensures
            self.supers_are(fqn@, text::views(r@)),
            text::views(r@) == self.supers_of(fqn@),
    {
        let r = kin_of(&self.bases, fqn);
        proof {
            assert(self.supers_are(fqn@, text::views(r@)));
            self.lemma_supers_of(fqn@);
        }
        r
    }

    /// All classes of the project that inherit from a class, nearest first.
    pub fn subclasses(&self, fqn: &str) -> (r: Vec<String>)
        ensures
            self.subclasses_are(fqn@, text::views(r@)),
            text::views(r@) == self.subclasses_of(fqn@),
    {
        let r = kin_of(&self.children, fqn);
        proof {
            assert(self.subclasses_are(fqn@, text::views(r@)));
            self.lemma_supers_of(fqn@);
        }
        r
    }

    /// Whether a class, or one that it inherits from, extends a base that is no
    /// class of the project.
    pub open spec fn framework_driven(self, fqn: Seq<char>) -> bool {
        self.external.keys().contains(fqn) || exists|s: Seq<Seq<char>>| #[trigger]
            self.supers_are(fqn, s) && any_in(self.external, s)
    }

    /// Whether a class, or one that it inherits from, extends a base that is no
    /// class of the project.
    pub fn has_external_ancestor(&self, fqn: &str) -> (r: bool)
        ensures
            r == self.framework_driven(fqn@),
            forall|files: Seq<FileIndex>, a: Answers| #[trigger]
                self.describes(files, a) ==> r == driven(files, a, fqn@),
    {
        if self.has_external_base(fqn) {
            assert forall|files: Seq<FileIndex>, a: Answers| #[trigger]
                self.describes(files, a) implies driven(files, a, fqn@) by {
                assert(extends_outside(files, a, fqn@));
            }
            return true;
        }
        let supers = self.supers(fqn);
        let ghost names = text::views(supers@);
        proof {
            assert forall|files: Seq<FileIndex>, a: Answers| #[trigger]
                self.describes(files, a) implies self.framework_driven(fqn@) == driven(
                files,
                a,
                fqn@,
            ) by {
                lemma_driven(*self, files, a, fqn@, names);
            }
        }
        let mut i: usize = 0;
        while i < supers.len()
            invariant
                i <= supers@.len(),
                names == text::views(supers@),
                self.supers_are(fqn@, names),
                forall|files: Seq<FileIndex>, a: Answers| #[trigger]
                    self.describes(files, a) ==> self.framework_driven(fqn@) == driven(
                        files,
                        a,
                        fqn@,
                    ),
                forall|k: int| 0 <= k < i ==> !self.external.keys().contains(#[trigger] names[k]),
            decreases supers@.len() - i,
        {
            if self.external.contains_key(&supers[i]) {
                assert(self.external.keys().contains(names[i as int]));
                assert(any_in(self.external, names));
                return true;
            }
            i = i + 1;
        }
        proof {
            assert forall|s: Seq<Seq<char>>| #[trigger] self.supers_are(fqn@, s) implies !any_in(
                self.external,
                s,
            ) by {
                lemma_kin_unique(self.bases, fqn@, names, s);
            }
        }
        false
    }

    /// The bases of a class that are no classes of the project, as written.
    pub fn external_bases(&self, fqn: &str) -> (r: Vec<String>)
        ensures
            text::views(r@) == text::views(self.external_bases.list(fqn@)),
    {
        let key = fqn.to_owned();
        match self.external_bases.get(&key) {
            Some(list) => copy_strings(list),
            None => Vec::new(),
        }
    }

    /// The names of all classes, ascending.
    pub fn class_fqns(&self) -> (r: Vec<String>)
        ensures
            text::views(r@) == self.anchor.keys(),
    {
        let n: usize = self.anchor.len();
        let mut out: Vec<String> = Vec::new();
        let mut i: usize = 0;
        while i < n
            invariant
                i <= n,
                n == self.anchor.keys().len(),
                out@.len() == i,
                forall|k: int| 0 <= k < i ==> #[trigger] out@[k]@ == self.anchor.keys()[k],
            decreases n - i,
        {
            out.push(self.anchor.key(i).clone());
            i = i + 1;
        }
        assert(text::views(out@) =~= self.anchor.keys());
        out
    }

    /// The functions defined directly in a class, where it has any.
    pub fn methods(&self, fqn: &str) -> (r: Option<&Vec<String>>)
        ensures
            match r {
                Some(m) => self.methods.map().contains_key(fqn@) && m@ == self.methods.list(fqn@),
                None => !self.methods.map().contains_key(fqn@),
            },
    {
        let key = fqn.to_owned();
        self.methods.get(&key)
    }

    /// The classes that a class inherits from that define a method, nearest
    /// first: those whose method it overrides.
    pub fn overrides(&self, class_fqn: &str, method: &str) -> (r: Vec<String>)
        ensures
            text::views(r@) == with_member(self.methods, self.supers_of(class_fqn@), method@),
    {
        let supers = self.supers(class_fqn);
        proof {
            self.lemma_supers_of(class_fqn@);
        }
        having(&self.methods, &supers, method)
    }

    /// The classes that inherit from a class and define a method themselves.
    pub fn overridden_by(&self, class_fqn: &str, method: &str) -> (r: Vec<String>)
        ensures
            text::views(r@) == with_member(self.methods, self.subclasses_of(class_fqn@), method@),
    {
        let subs = self.subclasses(class_fqn);
        proof {
            self.lemma_supers_of(class_fqn@);
        }
        having(&self.methods, &subs, method)
    }
}

/// Once nothing is added, nothing is added later.
proof fn lemma_kin_settled(t: Table<String, Vec<String>>, name: Seq<char>, n: nat, m: nat)
    requires
        n <= m,
        kin(t, name, n).1 == kin(t, name, n).0.len(),
    ensures
        kin(t, name, m) == kin(t, name, n),
    decreases m,
{
    if m > n {
        lemma_kin_settled(t, name, n, (m - 1) as nat);
        let (out, from) = kin(t, name, (m - 1) as nat);
        assert(out.skip(from) =~= Seq::<Seq<char>>::empty());
    }
}

/// What the lists lead to from a name is one list.
pub proof fn lemma_kin_unique(
    t: Table<String, Vec<String>>,
    name: Seq<char>,
    a: Seq<Seq<char>>,
    b: Seq<Seq<char>>,
)
    requires
        kin_is(t, name, a),
        kin_is(t, name, b),
    ensures
        a == b,
{
    let n = choose|n: nat| #[trigger] kin(t, name, n) == (a, a.len() as int);
    let m = choose|m: nat| #[trigger] kin(t, name, m) == (b, b.len() as int);
    if n <= m {
        lemma_kin_settled(t, name, n, m);
    } else {
        lemma_kin_settled(t, name, m, n);
    }
}


/// Whether each name of `p` has the next in its list, by one step or more.
pub open spec fn line(t: Table<String, Vec<String>>, p: Seq<Seq<char>>) -> bool {
    &&& p.len() > 1
    &&& forall|i: int| 0 <= i < p.len() - 1 ==> text::views(t.list(#[trigger] p[i])).contains(p[i + 1])
}

/// Whether the lists lead from `a` to `b` by one step or more.
pub open spec fn descends(t: Table<String, Vec<String>>, a: Seq<char>, b: Seq<char>) -> bool {
    exists|p: Seq<Seq<char>>| #[trigger] line(t, p) && p[0] == a && p.last() == b
}

/// Fresh names are those of the two lists.
proof fn lemma_fresh_contains(out: Seq<Seq<char>>, names: Seq<Seq<char>>)
    ensures
        forall|x: Seq<char>| #[trigger]
            fresh(out, names).contains(x) <==> out.contains(x) || names.contains(x),
    decreases names.len(),
{
    if names.len() > 0 {
        let t = names.drop_last();
        lemma_fresh_contains(out, t);
        let before = fresh(out, t);
        text::lemma_push_contains(before, names.last());
        text::lemma_push_contains(t, names.last());
        assert(names =~= t.push(names.last()));
    }
}

proof fn lemma_level_contains(
    t: Table<String, Vec<String>>,
    out: Seq<Seq<char>>,
    level: Seq<Seq<char>>,
)
    ensures
        forall|x: Seq<char>| #[trigger]
            level_fresh(t, out, level).contains(x) <==> out.contains(x) || exists|i: int|
                0 <= i < level.len() && text::views(t.list(#[trigger] level[i])).contains(x),
    decreases level.len(),
{
    if level.len() > 0 {
        let l = level.drop_last();
        lemma_level_contains(t, out, l);
        let before = level_fresh(t, out, l);
        lemma_fresh_contains(before, text::views(t.list(level.last())));
        assert forall|x: Seq<char>| #[trigger] level_fresh(t, out, level).contains(x)
            <==> out.contains(x) || exists|i: int|
            0 <= i < level.len() && text::views(t.list(#[trigger] level[i])).contains(x) by {
            if before.contains(x) && !out.contains(x) {
                let i = choose|i: int|
                    0 <= i < l.len() && text::views(t.list(#[trigger] l[i])).contains(x);
                assert(level[i] == l[i]);
            }
            if text::views(t.list(level.last())).contains(x) {
                assert(level[level.len() - 1] == level.last());
            }
            if exists|i: int|
                0 <= i < level.len() && text::views(t.list(#[trigger] level[i])).contains(x) {
                let i = choose|i: int|
                    0 <= i < level.len() && text::views(t.list(#[trigger] level[i])).contains(x);
                if i < l.len() {
                    assert(l[i] == level[i]);
                }
            }
        }
    }
}

/// All that was reached is led to; and what was reached before the last level
/// has its lists in what was reached.
proof fn lemma_kin_steps(t: Table<String, Vec<String>>, name: Seq<char>, n: nat)
    ensures
        ({
            let (out, from) = kin(t, name, n);
            &&& 0 <= from <= out.len()
            &&& forall|x: Seq<char>| #[trigger] out.contains(x) ==> descends(t, name, x)
            &&& forall|x: Seq<char>| #[trigger] text::views(t.list(name)).contains(x) ==> out.contains(x)
            &&& forall|i: int, x: Seq<char>|
                0 <= i < from && #[trigger] text::views(t.list(out[i])).contains(x) ==> out.contains(x)
        }),
    decreases n,
{
    let (out, from) = kin(t, name, n);
    if n == 0 {
        let first = text::views(t.list(name));
        lemma_fresh_contains(Seq::empty(), first);
        assert forall|x: Seq<char>| #[trigger] out.contains(x) implies descends(t, name, x) by {
            assert(first.contains(x));
            let p = seq![name, x];
            assert(line(t, p));
        }
        assert forall|x: Seq<char>| #[trigger] first.contains(x) implies out.contains(x) by {}
    } else {
        let m = (n - 1) as nat;
        lemma_kin_steps(t, name, m);
        let (was, before) = kin(t, name, m);
        let level = was.skip(before);
        lemma_level_contains(t, was, level);
        lemma_level_prefix(t, was, level);
        assert(out.take(was.len() as int) == was);
        assert forall|x: Seq<char>| #[trigger] out.contains(x) implies descends(t, name, x) by {
            if !was.contains(x) {
                let i = choose|i: int|
                    0 <= i < level.len() && text::views(t.list(#[trigger] level[i])).contains(x);
                assert(was[before + i] == level[i]);
                assert(was.contains(level[i]));
                let p = choose|p: Seq<Seq<char>>| #[trigger]
                    line(t, p) && p[0] == name && p.last() == level[i];
                let q = p.push(x);
                assert forall|j: int| 0 <= j < q.len() - 1 implies text::views(
                    t.list(#[trigger] q[j]),
                ).contains(q[j + 1]) by {
                    if j < p.len() - 1 {
                        assert(text::views(t.list(p[j])).contains(p[j + 1]));
                    }
                }
                assert(line(t, q));
                assert(q[0] == name && q.last() == x);
            }
        }
        assert forall|x: Seq<char>| #[trigger] text::views(t.list(name)).contains(x) implies out.contains(
            x,
        ) by {
            assert(was.contains(x));
        }
        assert forall|i: int, x: Seq<char>|
            0 <= i < from && #[trigger] text::views(t.list(out[i])).contains(x) implies out.contains(
            x,
        ) by {
            assert(out[i] == out.take(was.len() as int)[i]);
            if i < before {
                assert(text::views(t.list(was[i])).contains(x));
                assert(was.contains(x));
            } else {
                assert(level[i - before] == was[i]);
            }
        }
    }
}

proof fn lemma_level_prefix(
    t: Table<String, Vec<String>>,
    out: Seq<Seq<char>>,
    level: Seq<Seq<char>>,
)
    ensures
        out.len() <= level_fresh(t, out, level).len(),
        level_fresh(t, out, level).take(out.len() as int) == out,
    decreases level.len(),
{
    if level.len() == 0 {
        text::lemma_take_all(out);
    } else {
        let l = level.drop_last();
        lemma_level_prefix(t, out, l);
        let before = level_fresh(t, out, l);
        lemma_fresh_prefix(before, text::views(t.list(level.last())));
        let now = level_fresh(t, out, level);
        assert(now.take(out.len() as int) =~= now.take(before.len() as int).take(out.len() as int));
    }
}

proof fn lemma_fresh_prefix(out: Seq<Seq<char>>, names: Seq<Seq<char>>)
    ensures
        out.len() <= fresh(out, names).len(),
        fresh(out, names).take(out.len() as int) == out,
    decreases names.len(),
{
    if names.len() == 0 {
        text::lemma_take_all(out);
    } else {
        lemma_fresh_prefix(out, names.drop_last());
        let before = fresh(out, names.drop_last());
        assert(fresh(out, names).take(out.len() as int) =~= before.take(out.len() as int));
    }
}

/// A set that has the list of a name, and with each of its names its list, has
/// all that the name leads to.
proof fn lemma_closed_contains(
    t: Table<String, Vec<String>>,
    name: Seq<char>,
    out: Seq<Seq<char>>,
    p: Seq<Seq<char>>,
)
    requires
        line(t, p),
        p[0] == name,
        forall|x: Seq<char>| #[trigger] text::views(t.list(name)).contains(x) ==> out.contains(x),
        forall|i: int, x: Seq<char>|
            0 <= i < out.len() && #[trigger] text::views(t.list(out[i])).contains(x) ==> out.contains(x),
    ensures
        out.contains(p.last()),
    decreases p.len(),
{
    let k = p.len() - 2;
    assert(text::views(t.list(p[k])).contains(p[k + 1]));
    if k > 0 {
        let q = p.drop_last();
        assert forall|j: int| 0 <= j < q.len() - 1 implies text::views(t.list(#[trigger] q[j])).contains(
            q[j + 1],
        ) by {
            assert(text::views(t.list(p[j])).contains(p[j + 1]));
        }
        lemma_closed_contains(t, name, out, q);
        let i = choose|i: int| 0 <= i < out.len() && out[i] == q.last();
        assert(text::views(t.list(out[i])).contains(p.last()));
    }
}

/// The classes that `supers` and `subclasses` list are those that inheritance
/// leads to, and no others.
pub proof fn law_kin_is_transitive(
    t: Table<String, Vec<String>>,
    name: Seq<char>,
    out: Seq<Seq<char>>,
    x: Seq<char>,
)
    requires
        kin_is(t, name, out),
    ensures
        out.contains(x) <==> descends(t, name, x),
{
    let n = choose|n: nat| #[trigger] kin(t, name, n) == (out, out.len() as int);
    lemma_kin_steps(t, name, n);
    if descends(t, name, x) {
        let p = choose|p: Seq<Seq<char>>| #[trigger] line(t, p) && p[0] == name && p.last() == x;
        lemma_closed_contains(t, name, out, p);
    }
}

proof fn lemma_repeats_contains(bases: Seq<Seq<char>>, base: Seq<char>, name: Seq<char>)
    ensures
        forall|x: Seq<char>| #[trigger]
            repeats(bases, base, name).contains(x) <==> x == name && bases.contains(base),
    decreases bases.len(),
{
    if bases.len() > 0 {
        let t = bases.drop_last();
        lemma_repeats_contains(t, base, name);
        text::lemma_push_contains(repeats(t, base, name), name);
        text::lemma_push_contains(t, bases.last());
        assert(bases =~= t.push(bases.last()));
    }
}

proof fn lemma_children_contains(
    files: Seq<FileIndex>,
    a: Answers,
    classes: Seq<Seq<char>>,
    base: Seq<char>,
)
    ensures
        forall|x: Seq<char>| #[trigger]
            children_among(files, a, classes, base).contains(x) <==> classes.contains(x)
                && direct_bases(files, a, x).contains(base),
    decreases classes.len(),
{
    if classes.len() > 0 {
        let t = classes.drop_last();
        let last = classes.last();
        lemma_children_contains(files, a, t, base);
        lemma_repeats_contains(direct_bases(files, a, last), base, last);
        text::lemma_push_contains(t, last);
        assert(classes =~= t.push(last));
        let p = children_among(files, a, t, base);
        let q = repeats(direct_bases(files, a, last), base, last);
        assert forall|x: Seq<char>| #[trigger]
            children_among(files, a, classes, base).contains(x) <==> classes.contains(x)
                && direct_bases(files, a, x).contains(base) by {
            let r = p + q;
            if p.contains(x) {
                let i = choose|i: int| 0 <= i < p.len() && p[i] == x;
                assert(r[i] == x);
            }
            if q.contains(x) {
                let i = choose|i: int| 0 <= i < q.len() && q[i] == x;
                assert(r[p.len() + i] == x);
            }
            if r.contains(x) {
                let i = choose|i: int| 0 <= i < r.len() && r[i] == x;
                if i < p.len() {
                    assert(p[i] == x);
                } else {
                    assert(q[i - p.len()] == x);
                }
            }
        }
    }
}

/// A class is among the subclasses of another just where that one is among its
/// bases, directly or not.
pub proof fn law_supers_and_subclasses_mirror(
    h: Hierarchy,
    files: Seq<FileIndex>,
    answers: Answers,
    class: Seq<char>,
    base: Seq<char>,
    supers: Seq<Seq<char>>,
    subs: Seq<Seq<char>>,
)
    requires
        h.describes(files, answers),
        h.supers_are(class, supers),
        h.subclasses_are(base, subs),
    ensures
        supers.contains(base) <==> subs.contains(class),
{
    law_kin_is_transitive(h.bases, class, supers, base);
    law_kin_is_transitive(h.children, base, subs, class);
    assert forall|c: Seq<char>, b: Seq<char>|
        #![trigger text::views(h.bases.list(c)).contains(b)]
        #![trigger text::views(h.children.list(b)).contains(c)]
        text::views(h.bases.list(c)).contains(b) <==> text::views(h.children.list(b)).contains(c) by {
        assert(text::views(h.bases.list(c)) == direct_bases(files, answers, c));
        assert(text::views(h.children.list(b)) == children_among(files, answers, h.anchor.keys(), b));
        lemma_children_contains(files, answers, h.anchor.keys(), b);
        assert(h.anchor.keys().contains(c) <==> class_named(files, c) is Some);
        assert(children_among(files, answers, h.anchor.keys(), b).contains(c)
            <==> h.anchor.keys().contains(c) && direct_bases(files, answers, c).contains(b));
    }
    if descends(h.bases, class, base) {
        let p = choose|p: Seq<Seq<char>>| #[trigger]
            line(h.bases, p) && p[0] == class && p.last() == base;
        lemma_line_turned(h.bases, h.children, p);
        assert(line(h.children, p.reverse()));
    }
    if descends(h.children, base, class) {
        let p = choose|p: Seq<Seq<char>>| #[trigger]
            line(h.children, p) && p[0] == base && p.last() == class;
        lemma_line_turned(h.children, h.bases, p);
        assert(line(h.bases, p.reverse()));
    }
}

proof fn lemma_line_turned(
    t: Table<String, Vec<String>>,
    u: Table<String, Vec<String>>,
    p: Seq<Seq<char>>,
)
    requires
        line(t, p),
        forall|c: Seq<char>, b: Seq<char>|
            text::views(t.list(c)).contains(b) ==> #[trigger] text::views(u.list(b)).contains(c),
    ensures
        line(u, p.reverse()),
        p.reverse()[0] == p.last(),
        p.reverse().last() == p[0],
{
    let q = p.reverse();
    assert forall|i: int| 0 <= i < q.len() - 1 implies text::views(u.list(#[trigger] q[i])).contains(
        q[i + 1],
    ) by {
        let j = p.len() - 2 - i;
        assert(q[i] == p[j + 1]);
        assert(q[i + 1] == p[j]);
        assert(text::views(t.list(p[j])).contains(p[j + 1]));
    }
}


/// Whether each class of `p` has the next as a direct base, by one step or more.
pub open spec fn ancestry(files: Seq<FileIndex>, a: Answers, p: Seq<Seq<char>>) -> bool {
    &&& p.len() > 1
    &&& forall|i: int|
        0 <= i < p.len() - 1 ==> direct_bases(files, a, #[trigger] p[i]).contains(p[i + 1])
}

/// Whether a class inherits from another, directly or not.
pub open spec fn inherits(
    files: Seq<FileIndex>,
    a: Answers,
    class: Seq<char>,
    base: Seq<char>,
) -> bool {
    exists|p: Seq<Seq<char>>| #[trigger] ancestry(files, a, p) && p[0] == class && p.last() == base
}

/// Whether a class, or one that it inherits from, extends a base that is no
/// class of the project.
pub open spec fn driven(files: Seq<FileIndex>, a: Answers, class: Seq<char>) -> bool {
    extends_outside(files, a, class) || exists|b: Seq<char>| #[trigger]
        inherits(files, a, class, b) && extends_outside(files, a, b)
}

/// The graph has the inheritance of the project.
proof fn lemma_inherits(
    h: Hierarchy,
    files: Seq<FileIndex>,
    a: Answers,
    class: Seq<char>,
    base: Seq<char>,
)
    requires
        h.describes(files, a),
    ensures
        descends(h.bases, class, base) <==> inherits(files, a, class, base),
{
    assert forall|p: Seq<Seq<char>>| #[trigger] line(h.bases, p) <==> ancestry(files, a, p) by {
        assert(forall|i: int|
            0 <= i < p.len() ==> text::views(h.bases.list(#[trigger] p[i])) == direct_bases(
                files,
                a,
                p[i],
            ));
    }
    if descends(h.bases, class, base) {
        let p = choose|p: Seq<Seq<char>>| #[trigger]
            line(h.bases, p) && p[0] == class && p.last() == base;
        assert(ancestry(files, a, p));
    }
    if inherits(files, a, class, base) {
        let p = choose|p: Seq<Seq<char>>| #[trigger]
            ancestry(files, a, p) && p[0] == class && p.last() == base;
        assert(line(h.bases, p));
    }
}

/// The classes that a class inherits from are those that `supers` lists.
pub proof fn law_supers_are_ancestors(
    h: Hierarchy,
    files: Seq<FileIndex>,
    a: Answers,
    class: Seq<char>,
    supers: Seq<Seq<char>>,
    base: Seq<char>,
)
    requires
        h.describes(files, a),
        h.supers_are(class, supers),
    ensures
        supers.contains(base) <==> inherits(files, a, class, base),
{
    law_kin_is_transitive(h.bases, class, supers, base);
    lemma_inherits(h, files, a, class, base);
}

/// Whether a class is driven by a framework is answered as defined.
pub proof fn lemma_driven(
    h: Hierarchy,
    files: Seq<FileIndex>,
    a: Answers,
    class: Seq<char>,
    supers: Seq<Seq<char>>,
)
    requires
        h.describes(files, a),
        h.supers_are(class, supers),
    ensures
        h.framework_driven(class) <==> driven(files, a, class),
{
    assert(h.external.keys().contains(class) <==> extends_outside(files, a, class));
    if h.framework_driven(class) && !extends_outside(files, a, class) {
        let s = choose|s: Seq<Seq<char>>| #[trigger]
            h.supers_are(class, s) && any_in(h.external, s);
        let i = choose|i: int| 0 <= i < s.len() && h.external.keys().contains(#[trigger] s[i]);
        assert(s.contains(s[i]));
        law_supers_are_ancestors(h, files, a, class, s, s[i]);
        assert(extends_outside(files, a, s[i]));
    }
    if driven(files, a, class) && !extends_outside(files, a, class) {
        let b = choose|b: Seq<char>| #[trigger]
            inherits(files, a, class, b) && extends_outside(files, a, b);
        law_supers_are_ancestors(h, files, a, class, supers, b);
        let i = choose|i: int| 0 <= i < supers.len() && supers[i] == b;
        assert(h.external.keys().contains(supers[i]));
        assert(any_in(h.external, supers));
    }
}

/// The names that have a member are those of the list that do.
pub proof fn lemma_with_member(t: Table<String, Vec<String>>, names: Seq<Seq<char>>, x: Seq<char>, n: Seq<char>)
    ensures
        with_member(t, names, x).contains(n) <==> names.contains(n) && text::views(
            t.list(n),
        ).contains(x),
    decreases names.len(),
{
    if names.len() > 0 {
        let less = names.drop_last();
        lemma_with_member(t, less, x, n);
        let before = with_member(t, less, x);
        let last = names.last();
        assert(names.contains(n) <==> less.contains(n) || n == last) by {
            if less.contains(n) {
                let i = choose|i: int| 0 <= i < less.len() && less[i] == n;
                assert(names[i] == n);
            }
            if n == last {
                assert(names[names.len() - 1] == n);
            }
            if names.contains(n) && n != last {
                let i = choose|i: int| 0 <= i < names.len() && names[i] == n;
                assert(less[i] == n);
            }
        }
        if text::views(t.list(last)).contains(x) {
            let now = before.push(last);
            if before.contains(n) {
                let i = choose|i: int| 0 <= i < before.len() && before[i] == n;
                assert(now[i] == n);
            }
            assert(now[now.len() - 1] == last);
            if now.contains(n) && n != last {
                let i = choose|i: int| 0 <= i < now.len() && now[i] == n;
                assert(before[i] == n);
            }
        }
    }
}

/// A class that defines a method overrides that of another that defines it just where
/// the other's is overridden by it.
pub proof fn law_overrides_mirror(
    h: Hierarchy,
    files: Seq<FileIndex>,
    answers: Answers,
    class: Seq<char>,
    base: Seq<char>,
    method: Seq<char>,
    supers: Seq<Seq<char>>,
    subs: Seq<Seq<char>>,
)
    requires
        h.describes(files, answers),
        h.supers_are(class, supers),
        h.subclasses_are(base, subs),
        text::views(h.methods.list(class)).contains(method),
        text::views(h.methods.list(base)).contains(method),
    ensures
        with_member(h.methods, h.supers_of(class), method).contains(base) <==> with_member(
            h.methods,
            h.subclasses_of(base),
            method,
        ).contains(class),
{
    h.lemma_supers_of(class);
    h.lemma_supers_of(base);
    law_supers_and_subclasses_mirror(h, files, answers, class, base, supers, subs);
    lemma_with_member(h.methods, supers, method, base);
    lemma_with_member(h.methods, subs, method, class);
}

} // verus!
