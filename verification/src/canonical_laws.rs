//! What holds of the helpers, of the untested surface and of the inventory of tests.
use crate::callgraph::Answers;
use crate::callgraph;
use crate::canonical::UsedView;
use crate::canonical;
use crate::deadcode::Entry;
use crate::deadcode;
use crate::json::JsonView;
use crate::json;
use crate::live_laws;
use crate::model::{Def, FileIndex};
use crate::model;
use crate::name_laws;
use crate::names;
use crate::rows;
use crate::test_laws;
use crate::tests_map;
use crate::text;
use vstd::prelude::*;

verus! {

/// A file is one of the tests just where its name or one of its directories says so.
pub proof fn law_test_tree(parts: Seq<Seq<char>>)
    requires
        parts.len() > 0,
        name_laws::path_names(parts),
        parts.last() != "."@,
        parts.last() != ".."@,
    ensures
        canonical::test_tree(text::join(parts, "/"@)) <==> test_laws::test_name(parts.last())
            || parts.contains("tests"@) || parts.contains("test"@) || parts.last()
            == "conftest.py"@,
{
    test_laws::law_test_files(parts);
    name_laws::law_path_parts(parts);
}

/// Whether a name begins with an underscore.
pub open spec fn hidden(s: Seq<char>) -> bool {
    s.len() > 0 && s[0] == '_'
}

/// The public surface is made of the functions and classes outside every scope whose name does
/// not begin with an underscore.
pub proof fn law_public_surface(d: Def)
    ensures
        canonical::public_surface(d) <==> (d.kind is Function || d.kind is Class)
            && d.container@.len() == 0 && !hidden(d.name@),
{
    reveal_strlit("_");
    if text::starts(d.name@, "_"@) {
        assert(d.name@.subrange(0, 1)[0] == d.name@[0]);
    }
    if hidden(d.name@) {
        assert(d.name@.subrange(0, 1) =~= "_"@);
    }
}

proof fn lemma_untested_in(e: Entry, reached: Set<Seq<char>>, path: Seq<char>, defs: Seq<Def>, j: int) -> (
    m: int)
    requires
        0 <= j < defs.len(),
        canonical::untested(e, reached, path, defs[j]),
    ensures
        0 <= m < canonical::untested_in(e, reached, path, defs).len(),
        canonical::untested_in(e, reached, path, defs)[m] == canonical::untested_entry(
            path,
            defs[j],
        ),
    decreases defs.len(),
{
    let less = defs.drop_last();
    if j < less.len() {
        assert(less[j] == defs[j]);
        lemma_untested_in(e, reached, path, less, j)
    } else {
        canonical::untested_in(e, reached, path, less).len() as int
    }
}

proof fn lemma_untested_among(
    e: Entry,
    reached: Set<Seq<char>>,
    some: Seq<FileIndex>,
    i: int,
    j: int,
) -> (m: int)
    requires
        0 <= i < some.len(),
        0 <= j < some[i].defs@.len(),
        !canonical::test_tree(some[i].path@),
        canonical::untested(e, reached, some[i].path@, some[i].defs@[j]),
    ensures
        0 <= m < canonical::untested_among(e, reached, some).len(),
        canonical::untested_among(e, reached, some)[m] == canonical::untested_entry(
            some[i].path@,
            some[i].defs@[j],
        ),
    decreases some.len(),
{
    let less = some.drop_last();
    if i < less.len() {
        assert(less[i] == some[i]);
        lemma_untested_among(e, reached, less, i, j)
    } else {
        let m = lemma_untested_in(e, reached, some[i].path@, some[i].defs@, j);
        canonical::untested_among(e, reached, less).len() + m
    }
}

proof fn lemma_section_row(
    loc: Seq<char>,
    label: Seq<char>,
    section: Seq<char>,
    name: Seq<char>,
    kind: Seq<char>,
    group: Seq<char>,
)
    ensures
        ({
            let row = JsonView::object().with("loc"@, JsonView::Str(loc)).with(
                "label"@,
                JsonView::Str(label),
            ).with("section"@, JsonView::Str(section)).with("fqn"@, JsonView::Str(name)).with(
                "node_kind"@,
                JsonView::Str(kind),
            ).with("group"@, JsonView::Str(group)).with("cols"@, json::texts(seq![name]));
            &&& row.get_text("loc"@) == Some(loc)
            &&& row.get_text("section"@) == Some(section)
            &&& row.get_text("fqn"@) == Some(name)
        }),
{
    reveal_strlit("loc");
    reveal_strlit("label");
    reveal_strlit("section");
    reveal_strlit("fqn");
    reveal_strlit("node_kind");
    reveal_strlit("group");
    reveal_strlit("cols");
    assert("loc"@[0] == 'l' && "fqn"@[0] == 'f');
    assert("label"@.len() == 5 && "section"@.len() == 7 && "node_kind"@.len() == 9 && "group"@.len()
        == 5 && "cols"@.len() == 4);
    let r0 = JsonView::object();
    assert(json::tidy(r0));
    let r1 = r0.with("loc"@, JsonView::Str(loc));
    json::lemma_with(r0, "loc"@, JsonView::Str(loc));
    let r2 = r1.with("label"@, JsonView::Str(label));
    json::lemma_with(r1, "label"@, JsonView::Str(label));
    let r3 = r2.with("section"@, JsonView::Str(section));
    json::lemma_with(r2, "section"@, JsonView::Str(section));
    let r4 = r3.with("fqn"@, JsonView::Str(name));
    json::lemma_with(r3, "fqn"@, JsonView::Str(name));
    let r5 = r4.with("node_kind"@, JsonView::Str(kind));
    json::lemma_with(r4, "node_kind"@, JsonView::Str(kind));
    let r6 = r5.with("group"@, JsonView::Str(group));
    json::lemma_with(r5, "group"@, JsonView::Str(group));
    json::lemma_with(r6, "cols"@, json::texts(seq![name]));
}

/// Whether rows have one of a section for a name at a place.
pub open spec fn listed(
    list: Seq<JsonView>,
    section: Seq<char>,
    name: Seq<char>,
    place: Seq<char>,
) -> bool {
    exists|m: int|
        0 <= m < list.len() && (#[trigger] list[m]).get_text("section"@) == Some(section)
            && list[m].get_text("fqn"@) == Some(name) && list[m].get_text("loc"@) == Some(place)
}

/// A public function that no test reaches and nothing enters without a call is reported as
/// untested. A class is too, where no test reaches a method of it either.
pub proof fn law_untested_public_is_reported(
    files: Seq<FileIndex>,
    a: Answers,
    console: Seq<Seq<char>>,
    reached: Set<Seq<char>>,
    i: int,
    j: int,
)
    requires
        0 <= i < files.len(),
        0 <= j < files[i].defs@.len(),
        !canonical::test_tree(files[i].path@),
        ({
            let d = files[i].defs@[j];
            let n = names::def_fqn(files[i].path@, d);
            &&& d.kind is Function || d.kind is Class
            &&& d.container@.len() == 0
            &&& !hidden(d.name@)
            &&& !reached.contains(n)
            &&& d.kind is Class ==> forall|m: Seq<char>| #[trigger]
                reached.contains(m) ==> text::parent_name(m) != Some(n)
            &&& !(Entry { files, answers: a, console }).entry_among(files, n)
        }),
    ensures
        listed(
            canonical::canonical_view(files, a, console, reached).results,
            "untested-public"@,
            names::def_fqn(files[i].path@, files[i].defs@[j]),
            rows::place(
                files[i].path@,
                files[i].defs@[j].pos.line,
                files[i].defs@[j].pos.col,
            ),
        ),
{
    let e = Entry { files, answers: a, console };
    let d = files[i].defs@[j];
    let n = names::def_fqn(files[i].path@, d);
    law_public_surface(d);
    assert(canonical::untested(e, reached, files[i].path@, d));
    let m = lemma_untested_among(e, reached, files, i, j);
    let entries = canonical::untested_among(e, reached, files);
    let row = canonical::untested_entry(files[i].path@, d).row;
    assert(entries[m].row == row);
    rows::lemma_arranged(entries, row);
    lemma_section_row(
        rows::place(files[i].path@, d.pos.line, d.pos.col),
        "untested-public "@ + n,
        "untested-public"@,
        n,
        deadcode::kind_name(d),
        "untested-public"@,
    );
    let used = canonical::at_most(canonical::most_used(files, a), 30);
    let untested = rows::arranged(entries);
    let tests = rows::arranged(canonical::inventory(files, tests_map::test_class_set(files)));
    let list = canonical::canonical_view(files, a, console, reached).results;
    assert(list == used + untested + tests);
    let q = choose|q: int| 0 <= q < untested.len() && untested[q] == row;
    assert(list[used.len() + q] == row);
    assert(list[used.len() + q].get_text("section"@) == Some("untested-public"@));
}

/// What is reported as untested is public, no test reaches it, and nothing enters it without a
/// call.
pub proof fn law_reported_is_untested(
    e: Entry,
    reached: Set<Seq<char>>,
    path: Seq<char>,
    d: Def,
)
    requires
        canonical::untested(e, reached, path, d),
    ensures
        d.kind is Function || d.kind is Class,
        d.container@.len() == 0,
        !hidden(d.name@),
        !reached.contains(names::def_fqn(path, d)),
        d.kind is Class ==> forall|m: Seq<char>| #[trigger]
            reached.contains(m) ==> text::parent_name(m) != Some(names::def_fqn(path, d)),
        !e.entry_among(e.files, names::def_fqn(path, d)),
{
    law_public_surface(d);
}

proof fn lemma_helpers(files: Seq<FileIndex>, a: Answers, list: Seq<Seq<char>>, u: UsedView)
    ensures
        canonical::helpers(files, a, list).contains(u) <==> list.contains(u.fqn)
            && canonical::candidate(files, u.fqn) && u.uses == canonical::users(
            files,
            a,
            u.fqn,
        ).len() && u.uses >= 2,
    decreases list.len(),
{
    if list.len() > 0 {
        let less = list.drop_last();
        lemma_helpers(files, a, less, u);
        let before = canonical::helpers(files, a, less);
        let n = canonical::users(files, a, list.last()).len();
        text::lemma_push_contains(before, UsedView { fqn: list.last(), uses: n });
        text::lemma_push_contains(less, list.last());
        assert(list =~= less.push(list.last()));
    }
}

/// Whether a callable of a name is defined in one of the files that a test holds of.
pub open spec fn defined_in(
    files: Seq<FileIndex>,
    n: Seq<char>,
    what: spec_fn(Seq<char>) -> bool,
) -> bool {
    exists|i: int, j: int|
        #![trigger files[i].defs@[j]]
        0 <= i < files.len() && what(files[i].path@) && 0 <= j < files[i].defs@.len()
            && model::callable(files[i].defs@[j]) && names::def_fqn(
            files[i].path@,
            files[i].defs@[j],
        ) == n
}

proof fn lemma_defines(path: Seq<char>, defs: Seq<Def>, n: Seq<char>)
    ensures
        canonical::defines_name(path, defs, n) <==> exists|j: int|
            0 <= j < defs.len() && model::callable(#[trigger] defs[j]) && names::def_fqn(
                path,
                defs[j],
            ) == n,
    decreases defs.len(),
{
    if defs.len() > 0 {
        let less = defs.drop_last();
        lemma_defines(path, less, n);
        if canonical::defines_name(path, less, n) {
            let j = choose|j: int|
                0 <= j < less.len() && model::callable(#[trigger] less[j]) && names::def_fqn(
                    path,
                    less[j],
                ) == n;
            assert(defs[j] == less[j]);
        }
        if model::callable(defs.last()) && names::def_fqn(path, defs.last()) == n {
            assert(defs[defs.len() - 1] == defs.last());
        }
        assert forall|j: int|
            0 <= j < defs.len() && model::callable(#[trigger] defs[j]) && names::def_fqn(
                path,
                defs[j],
            ) == n implies canonical::defines_name(path, defs, n) by {
            if j < less.len() {
                assert(less[j] == defs[j]);
            }
        }
    }
}

/// A callable is one of the tests just where a file of the tests defines it.
pub proof fn law_names_of_tests(files: Seq<FileIndex>, n: Seq<char>)
    ensures
        canonical::test_name(files, n) <==> defined_in(
            files,
            n,
            |p: Seq<char>| canonical::test_tree(p),
        ),
        canonical::entry_name(files, n) <==> defined_in(
            files,
            n,
            |p: Seq<char>| deadcode::entrypoint_file(p),
        ),
    decreases files.len(),
{
    if files.len() > 0 {
        let less = files.drop_last();
        let f = files.last();
        let t = |p: Seq<char>| canonical::test_tree(p);
        let x = |p: Seq<char>| deadcode::entrypoint_file(p);
        law_names_of_tests(less, n);
        lemma_defines(f.path@, f.defs@, n);
        lemma_defined_step(files, n, t);
        lemma_defined_step(files, n, x);
    }
}

proof fn lemma_defined_step(files: Seq<FileIndex>, n: Seq<char>, what: spec_fn(Seq<char>) -> bool)
    requires
        files.len() > 0,
    ensures
        defined_in(files, n, what) <==> defined_in(files.drop_last(), n, what) || (what(
            files.last().path@,
        ) && exists|j: int|
            0 <= j < files.last().defs@.len() && model::callable(
                #[trigger] files.last().defs@[j],
            ) && names::def_fqn(files.last().path@, files.last().defs@[j]) == n),
{
    let less = files.drop_last();
    let f = files.last();
    let k = files.len() - 1;
    if defined_in(less, n, what) {
        let (i, j) = choose|i: int, j: int|
            #![trigger less[i].defs@[j]]
            0 <= i < less.len() && what(less[i].path@) && 0 <= j < less[i].defs@.len()
                && model::callable(less[i].defs@[j]) && names::def_fqn(
                less[i].path@,
                less[i].defs@[j],
            ) == n;
        assert(files[i].defs@[j] == less[i].defs@[j]);
    }
    if what(f.path@) && exists|j: int|
        0 <= j < f.defs@.len() && model::callable(#[trigger] f.defs@[j]) && names::def_fqn(
            f.path@,
            f.defs@[j],
        ) == n {
        let j = choose|j: int|
            0 <= j < f.defs@.len() && model::callable(#[trigger] f.defs@[j]) && names::def_fqn(
                f.path@,
                f.defs@[j],
            ) == n;
        assert(files[k].defs@[j] == f.defs@[j]);
    }
    if defined_in(files, n, what) {
        let (i, j) = choose|i: int, j: int|
            #![trigger files[i].defs@[j]]
            0 <= i < files.len() && what(files[i].path@) && 0 <= j < files[i].defs@.len()
                && model::callable(files[i].defs@[j]) && names::def_fqn(
                files[i].path@,
                files[i].defs@[j],
            ) == n;
        if i < k {
            assert(less[i].defs@[j] == files[i].defs@[j]);
        } else {
            assert(f.defs@[j] == files[i].defs@[j]);
        }
    }
}

/// A helper is a callable, defined neither in the tests nor in a file that is entered by
/// convention and without the form `__name__`, that two callables or more outside the tests
/// call; it is ranked by how many do.
pub proof fn law_helpers(
    files: Seq<FileIndex>,
    a: Answers,
    list: Seq<Seq<char>>,
    u: UsedView,
)
    ensures
        canonical::helpers(files, a, list).contains(u) <==> {
            &&& list.contains(u.fqn)
            &&& !defined_in(files, u.fqn, |p: Seq<char>| canonical::test_tree(p))
            &&& !defined_in(files, u.fqn, |p: Seq<char>| deadcode::entrypoint_file(p))
            &&& !live_laws::runtime_name(text::leaf_name(u.fqn))
            &&& u.uses == Set::new(
                |c: Seq<char>|
                    callgraph::calls(files, a, c, u.fqn) && !defined_in(
                        files,
                        c,
                        |p: Seq<char>| canonical::test_tree(p),
                    ),
            ).len()
            &&& u.uses >= 2
        },
{
    lemma_helpers(files, a, list, u);
    law_names_of_tests(files, u.fqn);
    live_laws::lemma_dunder(text::leaf_name(u.fqn));
    let s = Set::new(
        |c: Seq<char>|
            callgraph::calls(files, a, c, u.fqn) && !defined_in(
                files,
                c,
                |p: Seq<char>| canonical::test_tree(p),
            ),
    );
    assert(canonical::users(files, a, u.fqn) =~= s) by {
        assert forall|c: Seq<char>| canonical::users(files, a, u.fqn).contains(c) <==> s.contains(
            c,
        ) by {
            law_names_of_tests(files, c);
        }
    }
}

proof fn lemma_inventory_in(
    path: Seq<char>,
    all: Seq<Def>,
    defs: Seq<Def>,
    classes: Set<Seq<char>>,
    j: int,
) -> (m: int)
    requires
        0 <= j < defs.len(),
        tests_map::collected_test(defs[j], path, classes),
    ensures
        0 <= m < canonical::inventory_in(path, all, defs, classes).len(),
        canonical::inventory_in(path, all, defs, classes)[m] == canonical::inventory_entry(
            path,
            all,
            defs[j],
        ),
    decreases defs.len(),
{
    let less = defs.drop_last();
    if j < less.len() {
        assert(less[j] == defs[j]);
        lemma_inventory_in(path, all, less, classes, j)
    } else {
        canonical::inventory_in(path, all, less, classes).len() as int
    }
}

proof fn lemma_inventory(files: Seq<FileIndex>, classes: Set<Seq<char>>, i: int, j: int) -> (m: int)
    requires
        0 <= i < files.len(),
        0 <= j < files[i].defs@.len(),
        tests_map::collected_test(files[i].defs@[j], files[i].path@, classes),
    ensures
        0 <= m < canonical::inventory(files, classes).len(),
        canonical::inventory(files, classes)[m] == canonical::inventory_entry(
            files[i].path@,
            files[i].defs@,
            files[i].defs@[j],
        ),
    decreases files.len(),
{
    let less = files.drop_last();
    if i < less.len() {
        assert(less[i] == files[i]);
        lemma_inventory(less, classes, i, j)
    } else {
        let m = lemma_inventory_in(
            files[i].path@,
            files[i].defs@,
            files[i].defs@,
            classes,
            j,
        );
        canonical::inventory(less, classes).len() + m
    }
}

proof fn lemma_inventory_row(path: Seq<char>, defs: Seq<Def>, d: Def)
    ensures
        canonical::inventory_entry(path, defs, d).row.get_text("loc"@) == Some(
            rows::place(path, d.pos.line, d.pos.col),
        ),
        canonical::inventory_entry(path, defs, d).row.get_text("section"@) == Some("test"@),
        canonical::inventory_entry(path, defs, d).row.get_text("fqn"@) == Some(
            names::def_fqn(path, d),
        ),
{
    reveal_strlit("loc");
    reveal_strlit("label");
    reveal_strlit("section");
    reveal_strlit("fqn");
    reveal_strlit("markers");
    reveal_strlit("group");
    reveal_strlit("cols");
    assert("loc"@[0] == 'l' && "fqn"@[0] == 'f');
    assert("section"@[0] == 's' && "markers"@[0] == 'm');
    assert("label"@.len() == 5 && "group"@.len() == 5 && "cols"@.len() == 4);
    let name = names::def_fqn(path, d);
    let marks = canonical::test_markers(path, defs, d);
    let shown = "["@ + text::join(marks, ", "@) + "]"@;
    let r0 = JsonView::object();
    assert(json::tidy(r0));
    let v1 = JsonView::Str(rows::place(path, d.pos.line, d.pos.col));
    let r1 = r0.with("loc"@, v1);
    json::lemma_with(r0, "loc"@, v1);
    let v2 = JsonView::Str(
        if marks.len() == 0 {
            "test "@ + name
        } else {
            "test "@ + name + " "@ + shown
        },
    );
    let r2 = r1.with("label"@, v2);
    json::lemma_with(r1, "label"@, v2);
    let v3 = JsonView::Str("test"@);
    let r3 = r2.with("section"@, v3);
    json::lemma_with(r2, "section"@, v3);
    let v4 = JsonView::Str(name);
    let r4 = r3.with("fqn"@, v4);
    json::lemma_with(r3, "fqn"@, v4);
    let v5 = json::texts(marks);
    let r5 = r4.with("markers"@, v5);
    json::lemma_with(r4, "markers"@, v5);
    let v6 = JsonView::Str("tests"@);
    let r6 = r5.with("group"@, v6);
    json::lemma_with(r5, "group"@, v6);
    let v7 = json::texts(
        if marks.len() == 0 {
            seq![name]
        } else {
            seq![name, shown]
        },
    );
    json::lemma_with(r6, "cols"@, v7);
    assert(canonical::inventory_entry(path, defs, d).row == r6.with("cols"@, v7));
}

/// Every test that pytest collects is in the inventory, whatever the class that it stands in is
/// called.
pub proof fn law_every_test_is_in_the_inventory(
    files: Seq<FileIndex>,
    a: Answers,
    console: Seq<Seq<char>>,
    reached: Set<Seq<char>>,
    i: int,
    j: int,
    rest: Seq<char>,
    c: Option<int>,
)
    requires
        0 <= i < files.len(),
        test_laws::is_test(files[i], j, rest, c),
    ensures
        listed(
            canonical::canonical_view(files, a, console, reached).results,
            "test"@,
            names::def_fqn(files[i].path@, files[i].defs@[j]),
            rows::place(
                files[i].path@,
                files[i].defs@[j].pos.line,
                files[i].defs@[j].pos.col,
            ),
        ),
{
    let f = files[i];
    let classes = tests_map::test_class_set(files);
    test_laws::law_tests_are_collected(files, i, j, rest, c);
    let m = lemma_inventory(files, classes, i, j);
    let entries = canonical::inventory(files, classes);
    let row = canonical::inventory_entry(f.path@, f.defs@, f.defs@[j]).row;
    assert(entries[m].row == row);
    rows::lemma_arranged(entries, row);
    lemma_inventory_row(f.path@, f.defs@, f.defs@[j]);
    let e = Entry { files, answers: a, console };
    let used = canonical::at_most(canonical::most_used(files, a), 30);
    let untested = rows::arranged(canonical::untested_among(e, reached, files));
    let tests = rows::arranged(entries);
    let list = canonical::canonical_view(files, a, console, reached).results;
    assert(list == used + untested + tests);
    let q = choose|q: int| 0 <= q < tests.len() && tests[q] == row;
    assert(list[used.len() + untested.len() + q] == row);
    assert(list[used.len() + untested.len() + q].get_text("section"@) == Some("test"@));
}

/// A marker is the word after `mark.` in a decorator, where `mark` begins it or stands after a
/// dot. Where it stands after anything else there is none.
pub proof fn law_marker(p: Seq<char>, name: Seq<char>, rest: Seq<char>)
    requires
        name.len() > 0,
        forall|k: int| 0 <= k < name.len() ==> canonical::word_char(#[trigger] name[k]),
        rest.len() == 0 || !canonical::word_char(rest[0]),
        forall|k: int|
            0 <= k < p.len() ==> !#[trigger] text::occurs_at(
                "mark."@,
                p + "mark."@ + name + rest,
                k,
            ),
    ensures
        p.len() == 0 || p.last() == '.' ==> canonical::marker(p + "mark."@ + name + rest) == Some(
            name,
        ),
        p.len() > 0 && p.last() != '.' ==> canonical::marker(p + "mark."@ + name + rest) is None,
{
    reveal_strlit("mark.");
    let m = "mark."@;
    let d = p + m + name + rest;
    let at = p.len() as int;
    assert(d.subrange(at, at + 5) =~= m);
    assert(text::occurs_at(m, d, at));
    assert(canonical::first_at(d, m, at));
    let i = choose|i: int| canonical::first_at(d, m, i);
    assert(i == at) by {
        if i < at {
            assert(!text::occurs_at(m, d, i));
        }
    }
    let s = d.skip(at + 5);
    assert(s =~= name + rest);
    canonical::lemma_word(s, name.len() as int);
    assert(s.take(name.len() as int) =~= name);
    if p.len() > 0 {
        assert(d[at - 1] == p.last());
    }
}

proof fn lemma_markers(decorators: Seq<Seq<char>>, m: Seq<char>)
    ensures
        canonical::markers(decorators).contains(m) <==> exists|k: int|
            0 <= k < decorators.len() && canonical::marker(#[trigger] decorators[k]) == Some(m),
    decreases decorators.len(),
{
    if decorators.len() > 0 {
        let less = decorators.drop_last();
        lemma_markers(less, m);
        assert(decorators[decorators.len() - 1] == decorators.last());
        if let Some(x) = canonical::marker(decorators.last()) {
            text::lemma_push_contains(canonical::markers(less), x);
        }
        if canonical::markers(less).contains(m) {
            let k = choose|k: int|
                0 <= k < less.len() && canonical::marker(#[trigger] less[k]) == Some(m);
            assert(decorators[k] == less[k]);
        }
        if exists|k: int|
            0 <= k < decorators.len() && canonical::marker(#[trigger] decorators[k]) == Some(m) {
            let k = choose|k: int|
                0 <= k < decorators.len() && canonical::marker(#[trigger] decorators[k]) == Some(m);
            if k < less.len() {
                assert(less[k] == decorators[k]);
            }
        }
    }
}

proof fn lemma_class_markers(path: Seq<char>, defs: Seq<Def>, name: Seq<char>, c: int)
    requires
        0 <= c < defs.len(),
        defs[c].kind is Class,
        names::def_fqn(path, defs[c]) == name,
        forall|o: int|
            c < o < defs.len() && (#[trigger] defs[o]).kind is Class ==> names::def_fqn(
                path,
                defs[o],
            ) != name,
    ensures
        canonical::class_markers(path, defs, name) == canonical::markers(
            text::views(defs[c].decorators@),
        ),
    decreases defs.len(),
{
    if c < defs.len() - 1 {
        let less = defs.drop_last();
        assert(defs[defs.len() - 1] == defs.last());
        assert(less[c] == defs[c]);
        assert forall|o: int| c < o < less.len() && (#[trigger] less[o]).kind is Class implies
            names::def_fqn(path, less[o]) != name by {
            assert(less[o] == defs[o]);
        }
        lemma_class_markers(path, less, name, c);
    }
}

/// A test has the markers of its own decorators and those of the decorators of its class.
pub proof fn law_markers_of_a_test(
    path: Seq<char>,
    defs: Seq<Def>,
    d: Def,
    c: int,
    k: int,
    m: Seq<char>,
)
    ensures
        0 <= k < d.decorators@.len() && canonical::marker(d.decorators@[k]@) == Some(m)
            ==> canonical::marker_list(path, defs, d).contains(m),
        0 <= c < defs.len() && defs[c].kind is Class && d.container@.len() > 0 && names::def_fqn(
            path,
            defs[c],
        ) == names::fqn(path, text::views(d.container@)) && (forall|o: int|
            c < o < defs.len() && (#[trigger] defs[o]).kind is Class ==> names::def_fqn(
                path,
                defs[o],
            ) != names::def_fqn(path, defs[c])) && 0 <= k < defs[c].decorators@.len()
            && canonical::marker(defs[c].decorators@[k]@) == Some(m) ==> canonical::marker_list(
            path,
            defs,
            d,
        ).contains(m),
{
    let own = canonical::markers(text::views(d.decorators@));
    let scope = names::fqn(path, text::views(d.container@));
    let more = if d.container@.len() > 0 {
        canonical::class_markers(path, defs, scope)
    } else {
        Seq::empty()
    };
    let all = canonical::marker_list(path, defs, d);
    assert(all =~= own + more);
    if 0 <= k < d.decorators@.len() && canonical::marker(d.decorators@[k]@) == Some(m) {
        lemma_markers(text::views(d.decorators@), m);
        assert(text::views(d.decorators@)[k] == d.decorators@[k]@);
        let i = choose|i: int| 0 <= i < own.len() && own[i] == m;
        assert(all[i] == m);
    }
    if 0 <= c < defs.len() && defs[c].kind is Class && d.container@.len() > 0 && names::def_fqn(
        path,
        defs[c],
    ) == scope && (forall|o: int|
        c < o < defs.len() && (#[trigger] defs[o]).kind is Class ==> names::def_fqn(path, defs[o])
            != names::def_fqn(path, defs[c])) && 0 <= k < defs[c].decorators@.len()
        && canonical::marker(defs[c].decorators@[k]@) == Some(m) {
        lemma_class_markers(path, defs, scope, c);
        lemma_markers(text::views(defs[c].decorators@), m);
        assert(text::views(defs[c].decorators@)[k] == defs[c].decorators@[k]@);
        let i = choose|i: int| 0 <= i < more.len() && more[i] == m;
        assert(all[own.len() + i] == m);
    }
}

proof fn lemma_inventory_in_from(
    path: Seq<char>,
    defs: Seq<Def>,
    some: Seq<Def>,
    classes: Set<Seq<char>>,
    k: int,
) -> (j: int)
    requires
        0 <= k < canonical::inventory_in(path, defs, some, classes).len(),
    ensures
        0 <= j < some.len(),
        tests_map::collected_test(some[j], path, classes),
        canonical::inventory_in(path, defs, some, classes)[k] == canonical::inventory_entry(
            path,
            defs,
            some[j],
        ),
    decreases some.len(),
{
    let less = some.drop_last();
    if k < canonical::inventory_in(path, defs, less, classes).len() {
        lemma_inventory_in_from(path, defs, less, classes, k)
    } else {
        some.len() - 1
    }
}

/// The inventory of tests has only tests that are collected.
pub proof fn law_inventory_has_only_tests(
    files: Seq<FileIndex>,
    classes: Set<Seq<char>>,
    k: int,
) -> (r: (int, int))
    requires
        0 <= k < canonical::inventory(files, classes).len(),
    ensures
        0 <= r.0 < files.len(),
        0 <= r.1 < files[r.0].defs@.len(),
        tests_map::collected_test(files[r.0].defs@[r.1], files[r.0].path@, classes),
        canonical::inventory(files, classes)[k] == canonical::inventory_entry(
            files[r.0].path@,
            files[r.0].defs@,
            files[r.0].defs@[r.1],
        ),
    decreases files.len(),
{
    let less = files.drop_last();
    let f = files.last();
    let before = canonical::inventory(less, classes);
    if k < before.len() {
        law_inventory_has_only_tests(less, classes, k)
    } else {
        let j = lemma_inventory_in_from(f.path@, f.defs@, f.defs@, classes, k - before.len());
        (files.len() - 1, j)
    }
}

/// The overview shows the most used helpers, at most thirty, and says where there are more.
pub proof fn law_overview_is_cut(
    files: Seq<FileIndex>,
    a: Answers,
    console: Seq<Seq<char>>,
    reached: Set<Seq<char>>,
    k: int,
)
    ensures
        ({
            let e = canonical::canonical_view(files, a, console, reached);
            let used = canonical::most_used(files, a);
            &&& 0 <= k < used.len() && k < 30 ==> k < e.results.len() && e.results[k] == used[k]
            &&& e.warnings.len() == if used.len() > 30 {
                4nat
            } else {
                3nat
            }
        }),
{
}

} // verus!
