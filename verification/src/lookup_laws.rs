//! What holds of the symbols that a dotted name finds, and of the places that are reported.
use crate::change_cov;
use crate::facts::DefView;
use crate::lookup::{Placed, SymbolView};
use crate::lookup;
use crate::resolve::LocView;
use crate::sort;
use crate::text;
use vstd::prelude::*;

verus! {

/// Of the symbols of a name that hold a range, the tightest is one, and none is tighter. Where
/// there is none, no symbol of the name holds the range.
pub proof fn law_tightest_holds(
    symbols: Seq<SymbolView>,
    name: Seq<char>,
    file: Seq<char>,
    inner: (u32, u32),
    k: int,
)
    requires
        0 <= k < symbols.len(),
    ensures
        lookup::tightest(symbols, name, file, inner) matches Some(r) ==> exists|m: int|
            0 <= m < symbols.len() && (#[trigger] symbols[m]).range == r && symbols[m].name == name
                && symbols[m].file == file && r != inner && r.0 <= inner.0 && inner.1 <= r.1,
        symbols[k].name == name && symbols[k].file == file && symbols[k].range != inner
            && symbols[k].range.0 <= inner.0 && inner.1 <= symbols[k].range.1 ==> (
        lookup::tightest(symbols, name, file, inner) matches Some(r) && r.1 - r.0
            <= symbols[k].range.1 - symbols[k].range.0),
    decreases symbols.len(),
{
    let less = symbols.drop_last();
    let s = symbols.last();
    if less.len() > 0 {
        law_tightest_holds(less, name, file, inner, if k < less.len() { k } else { 0 });
        if k < less.len() {
            assert(less[k] == symbols[k]);
        }
        if let Some(r) = lookup::tightest(less, name, file, inner) {
            let m = choose|m: int|
                0 <= m < less.len() && (#[trigger] less[m]).range == r && less[m].name == name
                    && less[m].file == file && r != inner && r.0 <= inner.0 && inner.1 <= r.1;
            assert(symbols[m] == less[m]);
        }
    }
    assert(symbols[symbols.len() - 1] == s);
}

proof fn lemma_meant(
    symbols: Seq<SymbolView>,
    found: Seq<Seq<SymbolView>>,
    leaf: Seq<char>,
    quals: Seq<Seq<char>>,
    k: int,
)
    requires
        0 <= k < symbols.len(),
        symbols[k].name == leaf,
        lookup::enclosed(found, quals, symbols[k].file, symbols[k].range),
    ensures
        lookup::meant(symbols, found, leaf, quals).contains((symbols[k].file, symbols[k].start)),
    decreases symbols.len(),
{
    let less = symbols.drop_last();
    let before = lookup::meant(less, found, leaf, quals);
    text::lemma_push_contains(before, (symbols.last().file, symbols.last().start));
    if k < less.len() {
        assert(less[k] == symbols[k]);
        lemma_meant(less, found, leaf, quals, k);
    }
}

/// Every symbol of a plain name is meant by it.
pub proof fn law_plain_name_means_all(
    symbols: Seq<SymbolView>,
    found: Seq<Seq<SymbolView>>,
    leaf: Seq<char>,
    k: int,
)
    requires
        0 <= k < symbols.len(),
        symbols[k].name == leaf,
    ensures
        lookup::meant(symbols, found, leaf, Seq::empty()).contains(
            (symbols[k].file, symbols[k].start),
        ),
{
    lemma_meant(symbols, found, leaf, Seq::empty(), k);
}

/// A symbol is meant by its name after that of one that holds it. It is not where nothing of
/// that name in its file does.
pub proof fn law_name_in_a_scope(
    symbols: Seq<SymbolView>,
    outer: Seq<SymbolView>,
    leaf: Seq<char>,
    scope: Seq<char>,
    k: int,
    m: int,
)
    requires
        0 <= k < symbols.len(),
        symbols[k].name == leaf,
    ensures
        0 <= m < outer.len() && outer[m].name == scope && outer[m].file == symbols[k].file
            && outer[m].range != symbols[k].range && outer[m].range.0 <= symbols[k].range.0
            && symbols[k].range.1 <= outer[m].range.1 ==> lookup::meant(
            symbols,
            seq![outer, symbols],
            leaf,
            seq![scope],
        ).contains((symbols[k].file, symbols[k].start)),
        (forall|q: int|
            0 <= q < outer.len() ==> !lookup::holds(
                #[trigger] outer[q],
                scope,
                symbols[k].file,
                symbols[k].range,
            )) ==> !lookup::enclosed(
            seq![outer, symbols],
            seq![scope],
            symbols[k].file,
            symbols[k].range,
        ),
{
    let found = seq![outer, symbols];
    let quals = seq![scope];
    assert(quals.drop_last() =~= Seq::empty());
    assert(found[0] == outer);
    let s = symbols[k];
    reveal_with_fuel(lookup::enclosed, 2);
    if 0 <= m < outer.len() && lookup::holds(outer[m], scope, s.file, s.range) {
        law_tightest_holds(outer, scope, s.file, s.range, m);
        assert(lookup::enclosed(found, quals, s.file, s.range));
        lemma_meant(symbols, found, leaf, quals, k);
    }
    if forall|q: int|
        0 <= q < outer.len() ==> !lookup::holds(#[trigger] outer[q], scope, s.file, s.range) {
        if let Some(r) = lookup::tightest(outer, scope, s.file, s.range) {
            if outer.len() > 0 {
                law_tightest_holds(outer, scope, s.file, s.range, 0);
                let q = choose|q: int|
                    0 <= q < outer.len() && (#[trigger] outer[q]).range == r && outer[q].name
                        == scope && outer[q].file == s.file && r != s.range && r.0 <= s.range.0
                        && s.range.1 <= r.1;
                assert(lookup::holds(outer[q], scope, s.file, s.range));
            }
        }
    }
}

/// A file below the root is reported by its path from there, and one elsewhere by its own path;
/// where the query is on some files, no other is reported.
pub proof fn law_reported_path(root: Seq<char>, rel: Seq<char>, scope: Set<Seq<char>>)
    requires
        root != "/"@,
    ensures
        scope == Set::<Seq<char>>::empty() || scope.contains(root + "/"@ + rel)
            ==> lookup::reported(root + "/"@ + rel, scope, root) == Some(rel),
        scope != Set::<Seq<char>>::empty() && !scope.contains(root + "/"@ + rel)
            ==> lookup::reported(root + "/"@ + rel, scope, root) is None,
{
    reveal_strlit("/");
    let path = root + "/"@ + rel;
    let p = root + "/"@;
    assert(path.subrange(0, p.len() as int) =~= p);
    assert(path.skip(p.len() as int) =~= rel);
    assert(path.len() > root.len());
    assert(change_cov::below(path, root) == Some(rel));
}

/// A module has a member just where it binds it at its top; where it answers for names itself,
/// it may have any.
pub proof fn law_membership(defs: Seq<DefView>, member: Seq<char>, k: int)
    ensures
        0 <= k < defs.len() && defs[k].container.len() == 0 && defs[k].name == member
            ==> lookup::membership(defs, member) is Present,
        lookup::membership(defs, member) is Present ==> exists|i: int|
            0 <= i < defs.len() && (#[trigger] defs[i]).container.len() == 0 && defs[i].name
                == member,
        lookup::membership(defs, member) is Absent ==> forall|i: int|
            0 <= i < defs.len() && (#[trigger] defs[i]).container.len() == 0 ==> defs[i].name
                != member && defs[i].name != "__getattr__"@,
        (forall|i: int|
            0 <= i < defs.len() && (#[trigger] defs[i]).container.len() == 0 ==> defs[i].name
                != member && defs[i].name != "__getattr__"@) ==> lookup::membership(
            defs,
            member,
        ) is Absent,
{
    if 0 <= k < defs.len() && defs[k].container.len() == 0 && defs[k].name == member {
        assert(lookup::bound_on_top(defs, member));
    }
}

/// No two places that are reported are one.
pub proof fn law_no_place_repeats(s: Seq<LocView>, i: int, j: int)
    requires
        0 <= i < j < lookup::tidied(s).len(),
    ensures
        lookup::tidied(s)[i].path != lookup::tidied(s)[j].path || lookup::tidied(s)[i].line
            != lookup::tidied(s)[j].line || lookup::tidied(s)[i].col != lookup::tidied(s)[j].col,
{
    let t = sort::sorted::<Placed>(s);
    sort::lemma_sorted::<Placed>(s);
    lookup::lemma_once(t);
    let a = lookup::tidied(s)[i];
    let b = lookup::tidied(s)[j];
    assert(lookup::comes_before(a, b));
    text::lemma_text_lt_irreflexive(a.path);
}

proof fn lemma_once_keeps(s: Seq<LocView>, k: int)
    requires
        0 <= k < s.len(),
    ensures
        lookup::once(s).len() > 0,
        lookup::same_place(lookup::once(s).last(), s.last()),
        exists|m: int|
            0 <= m < lookup::once(s).len() && lookup::same_place(
                #[trigger] lookup::once(s)[m],
                s[k],
            ),
    decreases s.len(),
{
    let less = s.drop_last();
    let now = lookup::once(s);
    if less.len() > 0 {
        lemma_once_keeps(less, if k < less.len() { k } else { 0 });
    }
    assert(lookup::same_place(now[now.len() - 1], s.last()));
    if k < less.len() {
        assert(less[k] == s[k]);
        let before = lookup::once(less);
        let m = choose|m: int|
            0 <= m < before.len() && lookup::same_place(#[trigger] before[m], less[k]);
        assert(now[m] == before[m]);
    }
}

/// Every place is reported.
pub proof fn law_every_place_is_reported(s: Seq<LocView>, k: int)
    requires
        0 <= k < s.len(),
    ensures
        exists|m: int|
            0 <= m < lookup::tidied(s).len() && (#[trigger] lookup::tidied(s)[m]).path == s[k].path
                && lookup::tidied(s)[m].line == s[k].line && lookup::tidied(s)[m].col == s[k].col,
{
    let t = sort::sorted::<Placed>(s);
    assert(s.contains(s[k]));
    sort::lemma_sorted_contains::<Placed>(s, s[k]);
    let i = choose|i: int| 0 <= i < t.len() && t[i] == s[k];
    lemma_once_keeps(t, i);
    let m = choose|m: int|
        0 <= m < lookup::once(t).len() && lookup::same_place(#[trigger] lookup::once(t)[m], t[i]);
    assert(lookup::tidied(s)[m].path == s[k].path);
}

/// A recording keeps the kinds that there are; any other is a callable.
pub proof fn law_kinds_are_kept(kind: Seq<char>)
    ensures
        kind == "class"@ || kind == "method"@ || kind == "function"@ || kind == "property"@ || kind
            == "module"@ || kind == "callable"@ ==> crate::recording::kind_of(kind) == kind,
        crate::recording::kind_of(kind) == kind || crate::recording::kind_of(kind) == "callable"@,
{
}

/// A name means no symbol but one of that name, in the scopes that the name has before it.
pub proof fn law_name_means_no_other(
    symbols: Seq<SymbolView>,
    found: Seq<Seq<SymbolView>>,
    leaf: Seq<char>,
    quals: Seq<Seq<char>>,
    k: int,
) -> (m: int)
    requires
        0 <= k < lookup::meant(symbols, found, leaf, quals).len(),
    ensures
        0 <= m < symbols.len(),
        symbols[m].name == leaf,
        lookup::enclosed(found, quals, symbols[m].file, symbols[m].range),
        lookup::meant(symbols, found, leaf, quals)[k] == (symbols[m].file, symbols[m].start),
    decreases symbols.len(),
{
    let less = symbols.drop_last();
    if k < lookup::meant(less, found, leaf, quals).len() {
        law_name_means_no_other(less, found, leaf, quals, k)
    } else {
        symbols.len() - 1
    }
}

} // verus!
