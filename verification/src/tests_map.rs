//! Which definitions pytest collects as tests.
//!
//! A test lives in a file named `test_*.py` or `*_test.py`, is a function whose
//! name starts with `test`, and as a method sits in a class that is collected:
//! one named `Test*`, or one with a base named `*TestCase`.
use crate::callgraph::{GraphNode, NodeView};
use crate::model::{Def, DefKind, FileIndex};
use crate::names::{fqn_of, scope_fqn};
use crate::names;
use crate::table::Table;
use crate::table;
use crate::text::{base_name_of, cat3, count_text, ends_with, leaf_of, parent_of, plural, same, starts_with};
use crate::text;
use vstd::prelude::*;

verus! {

/// Whether pytest collects tests from a file.
pub open spec fn test_file(path: Seq<char>) -> bool {
    let base = text::base_name(path);
    (text::starts(base, "test_"@) && text::ends(base, ".py"@)) || text::ends(base, "_test.py"@)
}

/// Whether pytest collects tests from a file.
pub fn is_test_file(path: &str) -> (r: bool)
    ensures
        r == test_file(path@),
{
    let base = base_name_of(path);
    (starts_with(base.as_str(), "test_") && ends_with(base.as_str(), ".py")) || ends_with(
        base.as_str(),
        "_test.py",
    )
}

/// Whether a base class makes a class a test case.
pub open spec fn test_case(base: Seq<char>) -> bool {
    text::ends(text::leaf_name(base), "TestCase"@)
}

/// Whether pytest collects a class of a test file.
pub open spec fn collected_class(d: Def) -> bool {
    text::starts(d.name@, "Test"@) || exists|i: int|
        0 <= i < d.bases@.len() && test_case((#[trigger] d.bases@[i])@)
}

/// Whether pytest collects a class of a test file.
fn is_collected_class(d: &Def) -> (r: bool)
    ensures
        r == collected_class(*d),
{
    if starts_with(d.name.as_str(), "Test") {
        return true;
    }
    let mut i: usize = 0;
    while i < d.bases.len()
        invariant
            i <= d.bases@.len(),
            forall|k: int| 0 <= k < i ==> !test_case((#[trigger] d.bases@[k])@),
        decreases d.bases@.len() - i,
    {
        let leaf = leaf_of(d.bases[i].as_str());
        if ends_with(leaf.as_str(), "TestCase") {
            assert(test_case(d.bases@[i as int]@));
            return true;
        }
        i = i + 1;
    }
    false
}

/// Whether the definitions of a file have a collected class of a name.
pub open spec fn test_class_in(path: Seq<char>, defs: Seq<Def>, name: Seq<char>) -> bool
    decreases defs.len(),
{
    defs.len() > 0 && ((defs.last().kind is Class && collected_class(defs.last()) && names::def_fqn(
        path,
        defs.last(),
    ) == name) || test_class_in(path, defs.drop_last(), name))
}

/// Whether the files have a test class of a name.
pub open spec fn test_class(files: Seq<FileIndex>, name: Seq<char>) -> bool
    decreases files.len(),
{
    files.len() > 0 && ((test_file(files.last().path@) && test_class_in(
        files.last().path@,
        files.last().defs@,
        name,
    )) || test_class(files.drop_last(), name))
}

/// The names of all test classes.
pub open spec fn test_class_set(files: Seq<FileIndex>) -> Set<Seq<char>> {
    Set::new(|n: Seq<char>| test_class(files, n))
}

/// The names of all test classes.
pub fn test_class_fqns(files: &Vec<FileIndex>) -> (r: Table<String, ()>)
    ensures
        forall|n: Seq<char>| #[trigger] r.keys().contains(n) <==> test_class(files@, n),
        r.keys().to_set() == test_class_set(files@),
{
    let mut out: Table<String, ()> = Table::new();
    let mut i: usize = 0;
    while i < files.len()
        invariant
            i <= files@.len(),
            forall|n: Seq<char>| #[trigger]
                out.keys().contains(n) <==> test_class(files@.take(i as int), n),
        decreases files@.len() - i,
    {
        let f = &files[i];
        proof {
            text::lemma_take_step(files@, i as int);
        }
        if is_test_file(f.path.as_str()) {
            let ghost before = out.keys();
            let mut j: usize = 0;
            while j < f.defs.len()
                invariant
                    j <= f.defs@.len(),
                    forall|n: Seq<char>| #[trigger]
                        out.keys().contains(n) <==> before.contains(n) || test_class_in(
                            f.path@,
                            f.defs@.take(j as int),
                            n,
                        ),
                decreases f.defs@.len() - j,
            {
                let d = &f.defs[j];
                proof {
                    text::lemma_take_step(f.defs@, j as int);
                }
                match d.kind {
                    DefKind::Class => {
                        if is_collected_class(d) {
                            out.insert(fqn_of(f.path.as_str(), d), ());
                        }
                    },
                    _ => {},
                }
                j = j + 1;
            }
            proof {
                text::lemma_take_all(f.defs@);
            }
        }
        i = i + 1;
    }
    proof {
        text::lemma_take_all(files@);
        assert(out.keys().to_set() =~= test_class_set(files@));
    }
    out
}

/// Whether pytest collects a definition as a test.
pub open spec fn collected_test(d: Def, path: Seq<char>, classes: Set<Seq<char>>) -> bool {
    &&& test_file(path)
    &&& d.kind is Function
    &&& text::starts(d.name@, "test"@)
    &&& d.container@.len() == 0 || classes.contains(names::fqn(path, text::views(d.container@)))
}

/// Whether pytest collects a definition as a test.
pub fn is_collected_test_def(d: &Def, path: &str, test_classes: &Table<String, ()>) -> (r: bool)
    ensures
        r == collected_test(*d, path@, test_classes.keys().to_set()),
{
    let function = match d.kind {
        DefKind::Function => true,
        _ => false,
    };
    if !function || !is_test_file(path) || !starts_with(d.name.as_str(), "test") {
        return false;
    }
    if d.container.len() == 0 {
        return true;
    }
    let owner = scope_fqn(path, &d.container);
    test_classes.contains_key(&owner)
}

/// Whether a node of the call graph is a test.
pub open spec fn test_node(n: NodeView, classes: Set<Seq<char>>) -> bool {
    &&& test_file(n.path)
    &&& n.kind == "function"@ || n.kind == "method"@
    &&& text::starts(text::leaf_name(n.fqn), "test"@)
    &&& match text::parent_name(n.fqn) {
        Some(owner) => n.kind == "method"@ ==> classes.contains(owner),
        None => true,
    }
}

/// Whether a node of the call graph is a test: a `test*` function in a test
/// file, or such a method of a test class.
pub fn is_test_node(node: &GraphNode, test_classes: &Table<String, ()>) -> (r: bool)
    ensures
        r == test_node(node@, test_classes.keys().to_set()),
{
    if !is_test_file(node.path.as_str()) {
        return false;
    }
    let method = same(node.kind, "method");
    if !method && !same(node.kind, "function") {
        return false;
    }
    let leaf = leaf_of(node.fqn.as_str());
    if !starts_with(leaf.as_str(), "test") {
        return false;
    }
    match parent_of(node.fqn.as_str()) {
        Some(owner) => !method || test_classes.contains_key(&owner),
        None => true,
    }
}

/// What to say of the tests that reach a symbol.
pub open spec fn tests_summary(symbol: Seq<char>, unknown: bool, n: nat) -> Seq<char> {
    if unknown {
        "no function or class named `"@ + symbol + "` found"@
    } else if n == 0 {
        "no test statically reaches `"@ + symbol + "`"@
    } else {
        text::decimal(n) + " "@ + text::plural_of(n, "test"@) + (" reach `"@ + symbol + "`"@)
    }
}

/// What to say of the tests that reach a symbol.
pub fn summary(symbol: &str, roots_empty: bool, n: usize) -> (r: String)
    ensures
        r@ == tests_summary(symbol@, roots_empty, n as nat),
{
    if roots_empty {
        cat3("no function or class named `", symbol, "` found")
    } else if n == 0 {
        cat3("no test statically reaches `", symbol, "`")
    } else {
        let count = count_text(n);
        let word = plural(n, "test");
        let head = cat3(count.as_str(), " ", word.as_str());
        let tail = cat3(" reach `", symbol, "`");
        text::cat(head.as_str(), tail.as_str())
    }
}

} // verus!
