//! What holds of the tests that reach a symbol.
use crate::callgraph::NodeView;
use crate::deadcode::DispatchKind;
use crate::graph_reports;
use crate::json::JsonView;
use crate::json;
use crate::live_laws;
use crate::model::FileIndex;
use crate::name_laws;
use crate::names;
use crate::rows;
use crate::tests_map;
use crate::text;
use vstd::prelude::*;

verus! {

/// Whether a file name is `test_*.py` or `*_test.py`.
pub open spec fn test_name(base: Seq<char>) -> bool {
    ||| exists|x: Seq<char>| base == #[trigger] ("test_"@ + x) + ".py"@
    ||| exists|x: Seq<char>| base == #[trigger] (x + "_test.py"@)
}

/// Tests are collected from the files named `test_*.py` and `*_test.py`, in whatever
/// directory, and from no others.
pub proof fn law_test_files(parts: Seq<Seq<char>>)
    requires
        parts.len() > 0,
        name_laws::path_names(parts),
        parts.last() != "."@,
        parts.last() != ".."@,
    ensures
        tests_map::test_file(text::join(parts, "/"@)) <==> test_name(parts.last()),
{
    name_laws::law_base_name(parts);
    let base = parts.last();
    reveal_strlit("test_");
    reveal_strlit(".py");
    reveal_strlit("_test.py");
    let n = base.len();
    if text::starts(base, "test_"@) && text::ends(base, ".py"@) {
        assert(base.subrange(0, 5) == "test_"@);
        assert(base.subrange(n - 3, n as int) == ".py"@);
        assert(base[0] == base.subrange(0, 5)[0]);
        assert(base[4] == base.subrange(0, 5)[4]);
        assert(base[3] == base.subrange(0, 5)[3]);
        assert(base[2] == base.subrange(0, 5)[2]);
        assert(base[n - 3] == base.subrange(n - 3, n as int)[0]);
        assert("test_"@[4] == '_' && "test_"@[3] == 't' && "test_"@[2] == 's');
        assert(n >= 8);
        let x = base.subrange(5, n - 3);
        assert(base =~= base.subrange(0, 5) + x + base.subrange(n - 3, n as int));
        assert(base == ("test_"@ + x) + ".py"@);
    }
    if text::ends(base, "_test.py"@) {
        let x = base.take(n - 8);
        assert(base =~= x + base.subrange(n - 8, n as int));
        assert(base == x + "_test.py"@);
    }
    if exists|x: Seq<char>| base == #[trigger] ("test_"@ + x) + ".py"@ {
        let x = choose|x: Seq<char>| base == #[trigger] ("test_"@ + x) + ".py"@;
        assert(base.subrange(0, 5) =~= "test_"@);
        assert(base.subrange(n - 3, n as int) =~= ".py"@);
    }
    if exists|x: Seq<char>| base == #[trigger] (x + "_test.py"@) {
        let x = choose|x: Seq<char>| base == #[trigger] (x + "_test.py"@);
        assert(base.subrange(n - 8, n as int) =~= "_test.py"@);
    }
}

/// The texts of the row of a test.
proof fn lemma_test_row(symbol: Seq<char>, n: NodeView)
    ensures
        graph_reports::test_row(symbol, n).get_text("loc"@) == Some(
            rows::place(n.path, n.line, n.col),
        ),
        graph_reports::test_row(symbol, n).get_text("fqn"@) == Some(n.fqn),
{
    reveal_strlit("loc");
    reveal_strlit("label");
    reveal_strlit("fqn");
    reveal_strlit("depth");
    reveal_strlit("via");
    reveal_strlit("group");
    reveal_strlit("cols");
    assert("loc"@[0] == 'l' && "fqn"@[0] == 'f' && "via"@[0] == 'v');
    assert("label"@.len() == 5 && "depth"@.len() == 5 && "group"@.len() == 5 && "cols"@.len() == 4);
    let r0 = JsonView::object();
    assert(json::tidy(r0));
    let v1 = JsonView::Str(rows::place(n.path, n.line, n.col));
    let r1 = r0.with("loc"@, v1);
    json::lemma_with(r0, "loc"@, v1);
    let v2 = JsonView::Str(n.fqn + " reaches `"@ + symbol + "`"@ + graph_reports::reached_by(n));
    let r2 = r1.with("label"@, v2);
    json::lemma_with(r1, "label"@, v2);
    let r3 = r2.with("fqn"@, JsonView::Str(n.fqn));
    json::lemma_with(r2, "fqn"@, JsonView::Str(n.fqn));
    let r4 = r3.with("depth"@, JsonView::Num(n.depth));
    json::lemma_with(r3, "depth"@, JsonView::Num(n.depth));
    let r5 = r4.with("via"@, JsonView::Str(n.via));
    json::lemma_with(r4, "via"@, JsonView::Str(n.via));
    let v6 = JsonView::Str(graph_reports::ring(n));
    let r6 = r5.with("group"@, v6);
    json::lemma_with(r5, "group"@, v6);
    let r7 = r6.with("cols"@, graph_reports::node_cols(n));
    json::lemma_with(r6, "cols"@, graph_reports::node_cols(n));
    assert(graph_reports::test_row(symbol, n) == r7);
}

proof fn lemma_test_rows(symbol: Seq<char>, nodes: Seq<NodeView>, classes: Set<Seq<char>>, k: int)
    requires
        0 <= k < nodes.len(),
        tests_map::test_node(nodes[k], classes),
    ensures
        graph_reports::test_rows(symbol, nodes, classes).contains(
            graph_reports::test_row(symbol, nodes[k]),
        ),
    decreases nodes.len(),
{
    let before = graph_reports::test_rows(symbol, nodes.drop_last(), classes);
    text::lemma_push_contains(before, graph_reports::test_row(symbol, nodes.last()));
    if k < nodes.len() - 1 {
        assert(nodes.drop_last()[k] == nodes[k]);
        lemma_test_rows(symbol, nodes.drop_last(), classes, k);
    }
}

proof fn lemma_test_row_from(
    symbol: Seq<char>,
    nodes: Seq<NodeView>,
    classes: Set<Seq<char>>,
    row: JsonView,
) -> (k: int)
    requires
        graph_reports::test_rows(symbol, nodes, classes).contains(row),
    ensures
        0 <= k < nodes.len(),
        tests_map::test_node(nodes[k], classes),
        row == graph_reports::test_row(symbol, nodes[k]),
    decreases nodes.len(),
{
    let before = graph_reports::test_rows(symbol, nodes.drop_last(), classes);
    text::lemma_push_contains(before, graph_reports::test_row(symbol, nodes.last()));
    if before.contains(row) {
        lemma_test_row_from(symbol, nodes.drop_last(), classes, row)
    } else {
        nodes.len() - 1
    }
}

/// Whether rows have one of a name at a place.
pub open spec fn lists(rows_: Seq<JsonView>, name: Seq<char>, place: Seq<char>) -> bool {
    exists|m: int|
        0 <= m < rows_.len() && (#[trigger] rows_[m]).get_text("fqn"@) == Some(name)
            && rows_[m].get_text("loc"@) == Some(place)
}

/// Whether a function of a file is a test: its name begins with `test`, it is in a test file,
/// and it stands alone or directly in a class of tests.
pub open spec fn is_test(f: FileIndex, j: int, rest: Seq<char>, c: Option<int>) -> bool {
    let d = f.defs@[j];
    &&& 0 <= j < f.defs@.len()
    &&& d.kind is Function
    &&& d.name@ == "test"@ + rest
    &&& name_laws::plain(d.name@)
    &&& tests_map::test_file(f.path@)
    &&& match c {
        None => d.container@.len() == 0,
        Some(k) => {
            &&& 0 <= k < f.defs@.len()
            &&& f.defs@[k].kind is Class
            &&& live_laws::class_of_tests(f.defs@[k])
            &&& text::views(d.container@) == text::views(f.defs@[k].container@).push(
                f.defs@[k].name@,
            )
        },
    }
}

/// A test is collected, whatever the class that it stands in is called.
pub proof fn law_tests_are_collected(
    files: Seq<FileIndex>,
    i: int,
    j: int,
    rest: Seq<char>,
    c: Option<int>,
)
    requires
        0 <= i < files.len(),
        is_test(files[i], j, rest, c),
    ensures
        tests_map::collected_test(
            files[i].defs@[j],
            files[i].path@,
            tests_map::test_class_set(files),
        ),
{
    reveal_strlit("test");
    let d = files[i].defs@[j];
    assert(d.name@.subrange(0, 4) =~= "test"@);
    if let Some(k) = c {
        live_laws::law_classes_of_tests(files[i].defs@[k]);
        live_laws::lemma_test_class(files, i, k);
    }
}

/// A test that reaches a symbol has a row, with its name and its place: a function, or a
/// method of a class of tests, whatever the class is called.
pub proof fn law_reaching_test_is_listed(
    files: Seq<FileIndex>,
    symbol: Seq<char>,
    roots: Seq<Seq<char>>,
    nodes: Seq<NodeView>,
    caveat: Option<(Seq<char>, DispatchKind)>,
    i: int,
    j: int,
    rest: Seq<char>,
    c: Option<int>,
    k: int,
)
    requires
        0 <= i < files.len(),
        is_test(files[i], j, rest, c),
        0 <= k < nodes.len(),
        nodes[k].fqn == names::def_fqn(files[i].path@, files[i].defs@[j]),
        nodes[k].path == files[i].path@,
        nodes[k].kind == if c is Some {
            "method"@
        } else {
            "function"@
        },
    ensures
        lists(
            graph_reports::tests_view(
                symbol,
                roots,
                nodes,
                tests_map::test_class_set(files),
                caveat,
            ).results,
            names::def_fqn(files[i].path@, files[i].defs@[j]),
            rows::place(nodes[k].path, nodes[k].line, nodes[k].col),
        ),
{
    let f = files[i];
    let d = f.defs@[j];
    let n = nodes[k];
    let classes = tests_map::test_class_set(files);
    let scope = text::views(d.container@);
    reveal_strlit("test");
    reveal_strlit("method");
    reveal_strlit("function");
    assert("method"@.len() == 6 && "function"@.len() == 8);
    assert(d.name@.subrange(0, 4) =~= "test"@);
    live_laws::lemma_own_part(f.path@, scope, d.name@);
    if let Some(at) = c {
        live_laws::law_classes_of_tests(f.defs@[at]);
        live_laws::lemma_test_class(files, i, at);
        live_laws::lemma_parent(f.path@, scope, d.name@);
    }
    assert(tests_map::test_node(n, classes));
    lemma_test_rows(symbol, nodes, classes, k);
    lemma_test_row(symbol, n);
    let found = graph_reports::test_rows(symbol, nodes, classes);
    let m = choose|m: int| 0 <= m < found.len() && found[m] == graph_reports::test_row(symbol, n);
    let results = graph_reports::tests_view(symbol, roots, nodes, classes, caveat).results;
    assert(results =~= found);
    assert(results[m].get_text("fqn"@) == Some(n.fqn));
}

/// Each row is that of something that reaches the symbol, in a test file, with a name that
/// begins with `test`; a method stands directly in a class that is collected.
pub proof fn law_listed_is_a_reaching_test(
    symbol: Seq<char>,
    roots: Seq<Seq<char>>,
    nodes: Seq<NodeView>,
    classes: Set<Seq<char>>,
    caveat: Option<(Seq<char>, DispatchKind)>,
    m: int,
) -> (k: int)
    requires
        0 <= m < graph_reports::tests_view(symbol, roots, nodes, classes, caveat).results.len(),
    ensures
        0 <= k < nodes.len(),
        ({
            let row = graph_reports::tests_view(symbol, roots, nodes, classes, caveat).results[m];
            &&& row.get_text("fqn"@) == Some(nodes[k].fqn)
            &&& row.get_text("loc"@) == Some(
                rows::place(nodes[k].path, nodes[k].line, nodes[k].col),
            )
            &&& tests_map::test_file(nodes[k].path)
            &&& nodes[k].kind == "function"@ || nodes[k].kind == "method"@
            &&& text::starts(text::leaf_name(nodes[k].fqn), "test"@)
            &&& nodes[k].kind == "method"@ && text::parent_name(nodes[k].fqn) is Some
                ==> classes.contains(text::parent_name(nodes[k].fqn)->0)
        }),
{
    let found = graph_reports::test_rows(symbol, nodes, classes);
    let results = graph_reports::tests_view(symbol, roots, nodes, classes, caveat).results;
    assert(results =~= found);
    assert(found.contains(found[m]));
    let k = lemma_test_row_from(symbol, nodes, classes, found[m]);
    lemma_test_row(symbol, nodes[k]);
    k
}

} // verus!
