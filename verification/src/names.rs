//! Module names, scopes and fully qualified names.
use crate::text::{copy_strings, ends_with, join_with, same, split_on, string_of, without_empty, chars_of};
use crate::text;
use vstd::prelude::*;

verus! {

/// `s` without the suffix `t`, where it has it.
pub open spec fn without_suffix(s: Seq<char>, t: Seq<char>) -> Option<Seq<char>> {
    if text::ends(s, t) {
        Some(s.take(s.len() - t.len()))
    } else {
        None
    }
}

/// A path without its `.pyi` or `.py` ending.
pub open spec fn py_stem(path: Seq<char>) -> Seq<char> {
    match without_suffix(path, ".pyi"@) {
        Some(s) => s,
        None => match without_suffix(path, ".py"@) {
            Some(s) => s,
            None => path,
        },
    }
}

/// The names on the way to a file, directory by directory.
pub open spec fn path_names(path: Seq<char>) -> Seq<Seq<char>> {
    text::filled(text::split(py_stem(path), "/\\"@))
}

/// The items of `s` other than `x`.
pub open spec fn except(s: Seq<Seq<char>>, x: Seq<char>) -> Seq<Seq<char>>
    decreases s.len(),
{
    if s.len() == 0 {
        Seq::empty()
    } else if s.last() == x {
        except(s.drop_last(), x)
    } else {
        except(s.drop_last(), x).push(s.last())
    }
}

/// The components of a file's module name: `pkg/models.py` is `pkg`, `models`,
/// and a package's `__init__` adds none.
pub open spec fn components(path: Seq<char>) -> Seq<Seq<char>> {
    except(path_names(path), "__init__"@)
}

/// The fully qualified name of a scope in a file.
pub open spec fn fqn(path: Seq<char>, scope: Seq<Seq<char>>) -> Seq<char> {
    text::join(components(path) + scope, "."@)
}

/// The pieces of a dotted name that are not empty.
pub open spec fn dotted_parts(s: Seq<char>) -> Seq<Seq<char>> {
    text::filled(text::split(s, "."@))
}

/// What a query names: its last part, or all of it where it has no part.
pub open spec fn query_leaf(symbol: Seq<char>) -> Seq<char> {
    let parts = dotted_parts(symbol);
    if parts.len() == 0 {
        symbol
    } else {
        parts.last()
    }
}

/// What a query puts before its last part.
pub open spec fn query_qualifier(symbol: Seq<char>) -> Seq<Seq<char>> {
    let parts = dotted_parts(symbol);
    if parts.len() == 0 {
        parts
    } else {
        parts.drop_last()
    }
}

/// Whether `a` ends with the items of `b`.
pub open spec fn ends_in<A>(a: Seq<A>, b: Seq<A>) -> bool {
    a.len() >= b.len() && a.skip(a.len() - b.len()) == b
}

/// Whether `qualifier` ends the scope of a definition: its module's components
/// and what encloses it.
pub open spec fn scoped(
    qualifier: Seq<Seq<char>>,
    path: Seq<char>,
    container: Seq<Seq<char>>,
) -> bool {
    ends_in(components(path) + container, qualifier)
}

/// `s` without the suffix `t`, where it has it.
pub fn strip_suffix(s: &str, t: &str) -> (r: Option<String>)
    ensures
        match r {
            Some(x) => without_suffix(s@, t@) == Some(x@),
            None => without_suffix(s@, t@) is None,
        },
{
    if ends_with(s, t) {
        let cs = chars_of(s);
        let ts = chars_of(t);
        assert(cs@.subrange(0, cs@.len() - ts@.len()) =~= s@.take(s@.len() - t@.len()));
        let n: usize = cs.len() - ts.len();
        Some(string_of(&cs, 0, n))
    } else {
        None
    }
}

/// The names on the way to a file, directory by directory.
pub fn path_names_of(path: &str) -> (r: Vec<String>)
    ensures
        text::views(r@) == path_names(path@),
{
    let stem = match strip_suffix(path, ".pyi") {
        Some(s) => s,
        None => match strip_suffix(path, ".py") {
            Some(s) => s,
            None => path.to_owned(),
        },
    };
    let parts = split_on(stem.as_str(), "/\\");
    without_empty(&parts)
}

/// The strings of a list other than `x`.
pub fn without_item(list: &Vec<String>, x: &str) -> (r: Vec<String>)
    ensures
        text::views(r@) == except(text::views(list@), x@),
{
    let mut out: Vec<String> = Vec::new();
    let mut i: usize = 0;
    assert(text::views(out@) =~= except(text::views(list@).take(0), x@));
    while i < list.len()
        invariant
            i <= list@.len(),
            text::views(out@) == except(text::views(list@).take(i as int), x@),
        decreases list@.len() - i,
    {
        proof {
            text::lemma_take_step(text::views(list@), i as int);
        }
        if !same(list[i].as_str(), x) {
            let ghost before = text::views(out@);
            out.push(list[i].clone());
            assert(text::views(out@) =~= before.push(list@[i as int]@));
        }
        i = i + 1;
    }
    proof {
        text::lemma_take_all(text::views(list@));
    }
    out
}

/// The components of a file's module name.
pub fn module_components(path: &str) -> (r: Vec<String>)
    ensures
        text::views(r@) == components(path@),
{
    let names = path_names_of(path);
    without_item(&names, "__init__")
}

/// The items of two lists in a row.
pub fn chained(a: Vec<String>, b: &Vec<String>) -> (r: Vec<String>)
    ensures
        text::views(r@) == text::views(a@) + text::views(b@),
        r@ == a@ + b@,
{
    let mut out = a;
    let mut rest = copy_strings(b);
    out.append(&mut rest);
    assert(text::views(a@ + b@) =~= text::views(a@) + text::views(b@));
    out
}

/// The fully qualified name of a scope in a file: the components of its module,
/// then the enclosing classes and functions.
pub fn scope_fqn(path: &str, scope: &Vec<String>) -> (r: String)
    ensures
        r@ == fqn(path@, text::views(scope@)),
{
    let parts = chained(module_components(path), scope);
    join_with(&parts, ".")
}

/// `v` with `x` at its end.
pub fn extended(v: &Vec<String>, x: &str) -> (r: Vec<String>)
    ensures
        text::views(r@) == text::views(v@).push(x@),
{
    let mut out = copy_strings(v);
    out.push(x.to_owned());
    assert(text::views(out@) =~= text::views(v@).push(x@));
    out
}

/// The fully qualified name of a definition.
pub open spec fn def_fqn(path: Seq<char>, d: crate::model::Def) -> Seq<char> {
    fqn(path, text::views(d.container@).push(d.name@))
}

/// The fully qualified name of a definition.
pub fn fqn_of(path: &str, d: &crate::model::Def) -> (r: String)
    ensures
        r@ == def_fqn(path@, *d),
{
    let scope = extended(&d.container, d.name.as_str());
    scope_fqn(path, &scope)
}

/// The name of a callable that the index has no definition for: the module, and
/// the callable's own name unless it is the module itself.
pub open spec fn fallback(path: Seq<char>, name: Seq<char>, kind: Seq<char>) -> Seq<char> {
    if kind == "module"@ {
        text::join(components(path), "."@)
    } else {
        text::join(components(path).push(name), "."@)
    }
}

/// The name of a callable that the index has no definition for.
pub fn fallback_fqn(path: &str, name: &str, kind: &str) -> (r: String)
    ensures
        r@ == fallback(path@, name@, kind@),
{
    let parts = module_components(path);
    if same(kind, "module") {
        join_with(&parts, ".")
    } else {
        let all = extended(&parts, name);
        join_with(&all, ".")
    }
}

/// A query taken apart: `Alpha.process` is `process` with the qualifier `Alpha`.
pub fn parse_query(symbol: &str) -> (r: (String, Vec<String>))
    ensures
        r.0@ == query_leaf(symbol@),
        text::views(r.1@) == query_qualifier(symbol@),
{
    let pieces = split_on(symbol, ".");
    let mut parts = without_empty(&pieces);
    let ghost all = text::views(parts@);
    match parts.pop() {
        Some(leaf) => {
            assert(text::views(parts@) =~= all.drop_last());
            (leaf, parts)
        },
        None => (symbol.to_owned(), parts),
    }
}

/// Whether the last items of `all` are those of `tail`.
pub fn has_tail(all: &Vec<String>, tail: &Vec<String>) -> (r: bool)
    ensures
        r == ends_in(text::views(all@), text::views(tail@)),
{
    if tail.len() > all.len() {
        return false;
    }
    let from: usize = all.len() - tail.len();
    let mut i: usize = 0;
    while i < tail.len()
        invariant
            i <= tail@.len(),
            from + tail@.len() == all@.len(),
            all@.len() <= usize::MAX,
            forall|k: int| 0 <= k < i ==> #[trigger] tail@[k]@ == all@[from + k]@,
        decreases tail@.len() - i,
    {
        if !same(tail[i].as_str(), all[from + i].as_str()) {
            assert(text::views(all@).skip(from as int)[i as int] != text::views(tail@)[i as int]);
            return false;
        }
        i = i + 1;
    }
    assert(text::views(all@).skip(from as int) =~= text::views(tail@));
    true
}

/// Whether `qualifier` ends the scope of a definition. An empty one ends any.
pub fn scoped_by(qualifier: &Vec<String>, path: &str, container: &Vec<String>) -> (r: bool)
    ensures
        r == scoped(text::views(qualifier@), path@, text::views(container@)),
{
    let scope = chained(module_components(path), container);
    has_tail(&scope, qualifier)
}

/// A piece between separators has none.
proof fn lemma_piece_plain(s: Seq<char>, seps: Seq<char>, i: int, k: int)
    requires
        0 <= i < text::split(s, seps).len(),
        0 <= k < text::split(s, seps)[i].len(),
    ensures
        !seps.contains(text::split(s, seps)[i][k]),
    decreases s.len(),
{
    if s.len() > 0 {
        let before = text::split(s.drop_last(), seps);
        lemma_some_piece(s.drop_last(), seps);
        if seps.contains(s.last()) {
            if i < before.len() {
                lemma_piece_plain(s.drop_last(), seps, i, k);
            }
        } else if i < before.len() - 1 || k < before.last().len() {
            lemma_piece_plain(s.drop_last(), seps, i, k);
        }
    }
}

/// There is always a piece.
proof fn lemma_some_piece(s: Seq<char>, seps: Seq<char>)
    ensures
        text::split(s, seps).len() > 0,
    decreases s.len(),
{
    if s.len() > 0 {
        lemma_some_piece(s.drop_last(), seps);
    }
}

/// A text without separators is one piece.
proof fn lemma_one_piece(s: Seq<char>, seps: Seq<char>)
    requires
        forall|k: int| 0 <= k < s.len() ==> !seps.contains(#[trigger] s[k]),
    ensures
        text::split(s, seps) == seq![s],
    decreases s.len(),
{
    if s.len() > 0 {
        assert forall|k: int| 0 <= k < s.len() - 1 implies !seps.contains(
            #[trigger] s.drop_last()[k],
        ) by {
            assert(s.drop_last()[k] == s[k]);
        }
        lemma_one_piece(s.drop_last(), seps);
        assert(!seps.contains(s[s.len() - 1]));
        assert(s.drop_last().push(s.last()) =~= s);
        assert(text::split(s, seps) =~= seq![s]);
    } else {
        assert(s =~= Seq::<char>::empty());
    }
}

/// A filled piece is one of the pieces, and not empty.
proof fn lemma_filled_piece(parts: Seq<Seq<char>>, i: int)
    requires
        0 <= i < text::filled(parts).len(),
    ensures
        text::filled(parts)[i].len() > 0,
        parts.contains(text::filled(parts)[i]),
    decreases parts.len(),
{
    if parts.len() > 0 {
        let less = parts.drop_last();
        if i < text::filled(less).len() {
            lemma_filled_piece(less, i);
            let j = choose|j: int| 0 <= j < less.len() && less[j] == text::filled(less)[i];
            assert(parts[j] == less[j]);
        } else {
            assert(parts[parts.len() - 1] == text::filled(parts)[i]);
        }
    }
}

/// What a query names, asked for alone, is itself, with nothing before it.
pub proof fn lemma_leaf_alone(symbol: Seq<char>)
    ensures
        query_leaf(query_leaf(symbol)) == query_leaf(symbol),
        dotted_parts(symbol).len() > 0 ==> query_qualifier(query_leaf(symbol)) == Seq::<
            Seq<char>,
        >::empty(),
{
    let parts = dotted_parts(symbol);
    if parts.len() > 0 {
        let leaf = parts.last();
        let pieces = text::split(symbol, "."@);
        lemma_filled_piece(pieces, parts.len() - 1);
        let i = choose|i: int| 0 <= i < pieces.len() && pieces[i] == leaf;
        assert forall|k: int| 0 <= k < leaf.len() implies !"."@.contains(#[trigger] leaf[k]) by {
            lemma_piece_plain(symbol, "."@, i, k);
        }
        lemma_one_piece(leaf, "."@);
        reveal_with_fuel(text::filled, 2);
        assert(seq![leaf].drop_last() =~= Seq::<Seq<char>>::empty());
        assert(dotted_parts(leaf) =~= seq![leaf]);
    }
}

} // verus!
