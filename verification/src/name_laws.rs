//! What holds of the names of definitions and of the symbols that ask for them.
use crate::callgraph::Stop;
use crate::callgraph;
use crate::model::{Def, FileIndex};
use crate::model;
use crate::names;
use crate::resolve::LocView;
use crate::resolve;
use crate::text;
use vstd::prelude::*;

verus! {

/// Whether a text can stand between the dots of a name: it is not empty and has no dot.
pub open spec fn plain(s: Seq<char>) -> bool {
    s.len() > 0 && forall|k: int| 0 <= k < s.len() ==> #[trigger] s[k] != '.'
}

/// Whether each of the texts can stand between the dots of a name.
pub open spec fn all_plain(parts: Seq<Seq<char>>) -> bool {
    forall|k: int| 0 <= k < parts.len() ==> plain(#[trigger] parts[k])
}

/// Whether no text holds a character of `seps`.
pub open spec fn all_apart(parts: Seq<Seq<char>>, seps: Seq<char>) -> bool {
    forall|i: int, k: int|
        0 <= i < parts.len() && 0 <= k < parts[i].len() ==> !seps.contains(#[trigger] parts[i][k])
}

/// The parts of two texts with a separator between them are those of the one and those
/// of the other.
pub proof fn lemma_split_at(a: Seq<char>, c: char, b: Seq<char>, seps: Seq<char>)
    requires
        seps.contains(c),
    ensures
        text::split(a.push(c) + b, seps) == text::split(a, seps) + text::split(b, seps),
    decreases b.len(),
{
    let whole = a.push(c) + b;
    text::lemma_split_nonempty(b, seps);
    if b.len() == 0 {
        assert(whole =~= a.push(c));
        assert(whole.drop_last() =~= a);
        assert(text::split(whole, seps) =~= text::split(a, seps) + text::split(b, seps));
    } else {
        lemma_split_at(a, c, b.drop_last(), seps);
        text::lemma_split_nonempty(b.drop_last(), seps);
        assert(whole.drop_last() =~= a.push(c) + b.drop_last());
        assert(whole.last() == b.last());
        let left = text::split(a, seps);
        let right = text::split(b.drop_last(), seps);
        assert((left + right).last() == right.last());
        assert((left + right).drop_last() =~= left + right.drop_last());
        assert(text::split(whole, seps) =~= left + text::split(b, seps));
    }
}

/// A text without separators is one piece.
pub proof fn lemma_whole(s: Seq<char>, seps: Seq<char>)
    requires
        forall|k: int| 0 <= k < s.len() ==> !seps.contains(#[trigger] s[k]),
    ensures
        text::split(s, seps) == seq![s],
    decreases s.len(),
{
    if s.len() > 0 {
        assert forall|k: int| 0 <= k < s.len() - 1 implies !seps.contains(
            #[trigger] s.drop_last()[k],
        ) by {
            assert(s.drop_last()[k] == s[k]);
        }
        lemma_whole(s.drop_last(), seps);
        assert(!seps.contains(s[s.len() - 1]));
        assert(s.drop_last().push(s.last()) =~= s);
        assert(text::split(s, seps) =~= seq![s]);
    } else {
        assert(s =~= Seq::<char>::empty());
    }
}

/// Splitting undoes joining: the pieces of texts that were joined with a separator are
/// the texts, where none of them holds a separator.
pub proof fn law_split_undoes_join(parts: Seq<Seq<char>>, c: char, seps: Seq<char>)
    requires
        parts.len() > 0,
        seps.contains(c),
        all_apart(parts, seps),
    ensures
        text::split(text::join(parts, seq![c]), seps) == parts,
    decreases parts.len(),
{
    let last = parts.last();
    assert forall|k: int| 0 <= k < last.len() implies !seps.contains(#[trigger] last[k]) by {
        assert(parts[parts.len() - 1][k] == last[k]);
    }
    lemma_whole(last, seps);
    if parts.len() == 1 {
        assert(parts =~= seq![last]);
    } else {
        let less = parts.drop_last();
        assert(all_apart(less, seps)) by {
            assert forall|i: int, k: int|
                0 <= i < less.len() && 0 <= k < less[i].len() implies !seps.contains(
                #[trigger] less[i][k],
            ) by {
                assert(parts[i][k] == less[i][k]);
            }
        }
        law_split_undoes_join(less, c, seps);
        let head = text::join(less, seq![c]);
        lemma_split_at(head, c, last, seps);
        assert(text::join(parts, seq![c]) =~= head.push(c) + last);
        assert(parts =~= less + seq![last]);
    }
}

/// Texts of which none is empty are all kept.
pub proof fn lemma_all_filled(parts: Seq<Seq<char>>)
    requires
        forall|k: int| 0 <= k < parts.len() ==> (#[trigger] parts[k]).len() > 0,
    ensures
        text::filled(parts) == parts,
    decreases parts.len(),
{
    if parts.len() > 0 {
        assert forall|k: int| 0 <= k < parts.len() - 1 implies (
        #[trigger] parts.drop_last()[k]).len() > 0 by {
            assert(parts[k].len() > 0);
        }
        lemma_all_filled(parts.drop_last());
        assert(parts[parts.len() - 1].len() > 0);
        assert(parts =~= parts.drop_last().push(parts.last()));
    }
}

/// A dotted name falls into the parts that it was joined from.
pub proof fn law_dotted_parts(parts: Seq<Seq<char>>)
    requires
        parts.len() > 0,
        all_plain(parts),
    ensures
        names::dotted_parts(text::join(parts, "."@)) == parts,
        names::query_leaf(text::join(parts, "."@)) == parts.last(),
        names::query_qualifier(text::join(parts, "."@)) == parts.drop_last(),
{
    reveal_strlit(".");
    assert("."@ =~= seq!['.']);
    assert forall|i: int, k: int|
        0 <= i < parts.len() && 0 <= k < parts[i].len() implies !"."@.contains(
        #[trigger] parts[i][k],
    ) by {
        assert(plain(parts[i]));
        assert(parts[i][k] != '.');
    }
    assert("."@[0] == '.');
    law_split_undoes_join(parts, '.', "."@);
    assert forall|k: int| 0 <= k < parts.len() implies (#[trigger] parts[k]).len() > 0 by {
        assert(plain(parts[k]));
    }
    lemma_all_filled(parts);
}

/// What is joined from two lists is what is joined from the one, a separator, and what
/// is joined from the other.
pub proof fn lemma_join_at(a: Seq<Seq<char>>, b: Seq<Seq<char>>, sep: Seq<char>)
    requires
        a.len() > 0,
        b.len() > 0,
    ensures
        text::join(a + b, sep) == text::join(a, sep) + sep + text::join(b, sep),
    decreases b.len(),
{
    let all = a + b;
    assert(all.last() == b.last());
    if b.len() == 1 {
        assert(all.drop_last() =~= a);
    } else {
        assert(all.drop_last() =~= a + b.drop_last());
        lemma_join_at(a, b.drop_last(), sep);
        assert(text::join(all, sep) =~= text::join(a, sep) + sep + text::join(b, sep));
    }
}

/// Whether `symbol` is `name`, or ends it after a dot.
pub open spec fn ends_name(name: Seq<char>, symbol: Seq<char>) -> bool {
    name == symbol || text::ends(name, "."@ + symbol)
}

/// Of two dotted names, the one ends the other just where its parts are the last of the
/// other's.
proof fn lemma_ends_name(all: Seq<Seq<char>>, some: Seq<Seq<char>>)
    requires
        all.len() > 0,
        some.len() > 0,
        all_plain(all),
        all_plain(some),
    ensures
        ends_name(text::join(all, "."@), text::join(some, "."@)) <==> names::ends_in(all, some),
{
    let name = text::join(all, "."@);
    let symbol = text::join(some, "."@);
    reveal_strlit(".");
    assert("."@ =~= seq!['.']);
    assert("."@[0] == '.');
    lemma_parts_again(all);
    lemma_parts_again(some);
    if names::ends_in(all, some) {
        let k = all.len() - some.len();
        if k == 0 {
            assert(all.skip(0) =~= all);
        } else {
            let head = all.take(k);
            assert(all =~= head + some);
            lemma_join_at(head, some, "."@);
            let t = "."@ + symbol;
            assert(name =~= text::join(head, "."@) + t);
            assert(name.subrange(name.len() - t.len(), name.len() as int) =~= t);
        }
    }
    if text::ends(name, "."@ + symbol) {
        let t = "."@ + symbol;
        let head = name.take(name.len() - t.len());
        assert(name =~= head + t) by {
            assert(name.subrange(name.len() - t.len(), name.len() as int) =~= t);
            assert(name =~= head + name.subrange(name.len() - t.len(), name.len() as int));
        }
        assert(name =~= head.push('.') + symbol);
        lemma_split_at(head, '.', symbol, "."@);
        let front = text::split(head, "."@);
        assert(all =~= front + some);
        assert(all.skip(all.len() - some.len()) =~= some);
    }
    if name == symbol {
        assert(all =~= some);
        assert(all.skip(0) =~= some);
    }
}

/// The pieces of a dotted name are the parts that it was joined from.
pub proof fn lemma_parts_again(parts: Seq<Seq<char>>)
    requires
        parts.len() > 0,
        all_plain(parts),
    ensures
        text::split(text::join(parts, "."@), "."@) == parts,
{
    reveal_strlit(".");
    assert("."@ =~= seq!['.']);
    assert forall|i: int, k: int|
        0 <= i < parts.len() && 0 <= k < parts[i].len() implies !"."@.contains(
        #[trigger] parts[i][k],
    ) by {
        assert(plain(parts[i]));
        assert(parts[i][k] != '.');
    }
    assert("."@[0] == '.');
    law_split_undoes_join(parts, '.', "."@);
}

/// The parts of the name of a definition: those of its module, the scopes around it, and
/// its own.
pub open spec fn def_parts(path: Seq<char>, d: Def) -> Seq<Seq<char>> {
    names::components(path) + text::views(d.container@).push(d.name@)
}

/// Whether the files have a callable of a name.
pub open spec fn has_callable(files: Seq<FileIndex>, n: Seq<char>) -> bool {
    exists|i: int, j: int|
        #![trigger files[i].defs@[j]]
        0 <= i < files.len() && 0 <= j < files[i].defs@.len() && model::callable(files[i].defs@[j])
            && names::def_fqn(files[i].path@, files[i].defs@[j]) == n
}

/// Whether no part of the name of a callable is empty or holds a dot.
pub open spec fn well_named(files: Seq<FileIndex>) -> bool {
    forall|i: int, j: int|
        #![trigger files[i].defs@[j]]
        0 <= i < files.len() && 0 <= j < files[i].defs@.len() && model::callable(files[i].defs@[j])
            ==> all_plain(def_parts(files[i].path@, files[i].defs@[j]))
}

/// The scope that a definition stands in ends with a qualifier, and its name is the
/// last part, just where its full name ends with the symbol.
proof fn lemma_meant(path: Seq<char>, d: Def, parts: Seq<Seq<char>>)
    requires
        parts.len() > 0,
        all_plain(parts),
        all_plain(def_parts(path, d)),
    ensures
        (d.name@ == parts.last() && names::scoped(
            parts.drop_last(),
            path,
            text::views(d.container@),
        )) <==> ends_name(names::def_fqn(path, d), text::join(parts, "."@)),
{
    let all = def_parts(path, d);
    let scope = names::components(path) + text::views(d.container@);
    lemma_ends_name(all, parts);
    assert(all =~= scope.push(d.name@));
    if names::ends_in(all, parts) {
        let k = all.len() - parts.len();
        assert(all.skip(k).last() == parts.last());
        assert(scope.skip(k) =~= all.skip(k).drop_last());
    }
    if d.name@ == parts.last() && names::ends_in(scope, parts.drop_last()) {
        let k = scope.len() - parts.drop_last().len();
        assert(all.skip(k) =~= scope.skip(k).push(d.name@));
        assert(parts =~= parts.drop_last().push(parts.last()));
    }
}

proof fn lemma_stops_in(path: Seq<char>, defs: Seq<Def>, symbol: Seq<char>, j: int)
    requires
        0 <= j < defs.len(),
        model::callable(defs[j]),
        defs[j].name@ == names::query_leaf(symbol),
        names::scoped(names::query_qualifier(symbol), path, text::views(defs[j].container@)),
    ensures
        callgraph::stops_in(path, defs, symbol).contains(
            (Stop { spot: (path, defs[j].offset), fqn: names::def_fqn(path, defs[j]) }),
        ),
    decreases defs.len(),
{
    let less = callgraph::stops_in(path, defs.drop_last(), symbol);
    let d = defs.last();
    text::lemma_push_contains(
        less,
        Stop { spot: (path, d.offset), fqn: names::def_fqn(path, d) },
    );
    if j < defs.len() - 1 {
        assert(defs.drop_last()[j] == defs[j]);
        lemma_stops_in(path, defs.drop_last(), symbol, j);
    }
}

proof fn lemma_stop_from(path: Seq<char>, defs: Seq<Def>, symbol: Seq<char>, s: Stop) -> (j: int)
    requires
        callgraph::stops_in(path, defs, symbol).contains(s),
    ensures
        0 <= j < defs.len(),
        model::callable(defs[j]),
        defs[j].name@ == names::query_leaf(symbol),
        names::scoped(names::query_qualifier(symbol), path, text::views(defs[j].container@)),
        s == (Stop { spot: (path, defs[j].offset), fqn: names::def_fqn(path, defs[j]) }),
    decreases defs.len(),
{
    let less = callgraph::stops_in(path, defs.drop_last(), symbol);
    let d = defs.last();
    text::lemma_push_contains(
        less,
        Stop { spot: (path, d.offset), fqn: names::def_fqn(path, d) },
    );
    if less.contains(s) {
        lemma_stop_from(path, defs.drop_last(), symbol, s)
    } else {
        defs.len() - 1
    }
}

proof fn lemma_start_stops(files: Seq<FileIndex>, symbol: Seq<char>, i: int, s: Stop)
    requires
        0 <= i < files.len(),
        callgraph::stops_in(files[i].path@, files[i].defs@, symbol).contains(s),
    ensures
        callgraph::start_stops(files, symbol).contains(s),
    decreases files.len(),
{
    let less = callgraph::start_stops(files.drop_last(), symbol);
    let more = callgraph::stops_in(files.last().path@, files.last().defs@, symbol);
    if i < files.len() - 1 {
        lemma_start_stops(files.drop_last(), symbol, i, s);
        let k = choose|k: int| 0 <= k < less.len() && less[k] == s;
        assert((less + more)[k] == s);
    } else {
        let k = choose|k: int| 0 <= k < more.len() && more[k] == s;
        assert((less + more)[less.len() + k] == s);
    }
}

proof fn lemma_start_from(files: Seq<FileIndex>, symbol: Seq<char>, s: Stop) -> (i: int)
    requires
        callgraph::start_stops(files, symbol).contains(s),
    ensures
        0 <= i < files.len(),
        callgraph::stops_in(files[i].path@, files[i].defs@, symbol).contains(s),
    decreases files.len(),
{
    let less = callgraph::start_stops(files.drop_last(), symbol);
    let more = callgraph::stops_in(files.last().path@, files.last().defs@, symbol);
    let k = choose|k: int|
        0 <= k < callgraph::start_stops(files, symbol).len() && callgraph::start_stops(
            files,
            symbol,
        )[k] == s;
    if k < less.len() {
        assert(less[k] == s);
        lemma_start_from(files.drop_last(), symbol, s)
    } else {
        assert(more[k - less.len()] == s);
        files.len() - 1
    }
}

/// A symbol names just those callables whose full name it is or ends after a dot: every
/// function and class is found by its full name, by its own name alone, and by every
/// dotted name between the two.
pub proof fn law_symbol_names_what_it_ends(
    files: Seq<FileIndex>,
    parts: Seq<Seq<char>>,
    n: Seq<char>,
)
    requires
        well_named(files),
        parts.len() > 0,
        all_plain(parts),
    ensures
        callgraph::roots_named(files, text::join(parts, "."@)).contains(n) <==> has_callable(
            files,
            n,
        ) && ends_name(n, text::join(parts, "."@)),
{
    let symbol = text::join(parts, "."@);
    let stops = callgraph::start_stops(files, symbol);
    let roots = callgraph::roots_named(files, symbol);
    law_dotted_parts(parts);
    if roots.contains(n) {
        let k = choose|k: int| 0 <= k < roots.len() && roots[k] == n;
        let s = stops[k];
        assert(stops.contains(s));
        let i = lemma_start_from(files, symbol, s);
        let j = lemma_stop_from(files[i].path@, files[i].defs@, symbol, s);
        let d = files[i].defs@[j];
        assert(names::def_fqn(files[i].path@, d) == n);
        lemma_meant(files[i].path@, d, parts);
    }
    if has_callable(files, n) && ends_name(n, symbol) {
        let (i, j) = choose|i: int, j: int|
            #![trigger files[i].defs@[j]]
            0 <= i < files.len() && 0 <= j < files[i].defs@.len() && model::callable(
                files[i].defs@[j],
            ) && names::def_fqn(files[i].path@, files[i].defs@[j]) == n;
        law_found_by_its_name(files, parts, i, j);
    }
}

/// A function or class is found where it stands by every dotted name that ends its full
/// name: `Alpha.process` finds the `process` of every class `Alpha`.
pub proof fn law_found_by_its_name(files: Seq<FileIndex>, parts: Seq<Seq<char>>, i: int, j: int)
    requires
        0 <= i < files.len(),
        0 <= j < files[i].defs@.len(),
        model::callable(files[i].defs@[j]),
        all_plain(def_parts(files[i].path@, files[i].defs@[j])),
        parts.len() > 0,
        all_plain(parts),
        ends_name(names::def_fqn(files[i].path@, files[i].defs@[j]), text::join(parts, "."@)),
    ensures
        callgraph::start_stops(files, text::join(parts, "."@)).contains(
            (Stop {
                spot: (files[i].path@, files[i].defs@[j].offset),
                fqn: names::def_fqn(files[i].path@, files[i].defs@[j]),
            }),
        ),
        callgraph::roots_named(files, text::join(parts, "."@)).contains(
            names::def_fqn(files[i].path@, files[i].defs@[j]),
        ),
{
    let f = files[i];
    let d = f.defs@[j];
    let symbol = text::join(parts, "."@);
    law_dotted_parts(parts);
    lemma_meant(f.path@, d, parts);
    lemma_stops_in(f.path@, f.defs@, symbol, j);
    let s = Stop { spot: (f.path@, d.offset), fqn: names::def_fqn(f.path@, d) };
    lemma_start_stops(files, symbol, i, s);
    let stops = callgraph::start_stops(files, symbol);
    let k = choose|k: int| 0 <= k < stops.len() && stops[k] == s;
    assert(callgraph::roots_named(files, symbol)[k] == s.fqn);
}

/// A function or class is found by its full name, by its own name, and by its own name
/// after that of the scope right around it.
pub proof fn law_found_by_scope_and_name(files: Seq<FileIndex>, i: int, j: int)
    requires
        0 <= i < files.len(),
        0 <= j < files[i].defs@.len(),
        model::callable(files[i].defs@[j]),
        all_plain(def_parts(files[i].path@, files[i].defs@[j])),
    ensures
        ({
            let d = files[i].defs@[j];
            let n = names::def_fqn(files[i].path@, d);
            &&& callgraph::roots_named(files, n).contains(n)
            &&& callgraph::roots_named(files, d.name@).contains(n)
            &&& d.container@.len() > 0 ==> callgraph::roots_named(
                files,
                d.container@.last()@ + "."@ + d.name@,
            ).contains(n)
        }),
{
    let f = files[i];
    let d = f.defs@[j];
    let all = def_parts(f.path@, d);
    let n = names::def_fqn(f.path@, d);
    assert(plain(all[all.len() - 1]));
    law_found_by_its_name(files, all, i, j);
    let own = seq![d.name@];
    assert(all_plain(own));
    assert(text::join(own, "."@) == d.name@);
    assert(all.skip(all.len() - 1) =~= own);
    lemma_ends_name(all, own);
    law_found_by_its_name(files, own, i, j);
    if d.container@.len() > 0 {
        let two = seq![d.container@.last()@, d.name@];
        assert(text::views(d.container@).last() == d.container@.last()@);
        assert(all.skip(all.len() - 2) =~= two);
        assert(plain(all[all.len() - 2]));
        assert(all_plain(two));
        reveal_with_fuel(text::join, 3);
        assert(two.drop_last() =~= seq![d.container@.last()@]);
        assert(text::join(two, "."@) =~= d.container@.last()@ + "."@ + d.name@);
        lemma_ends_name(all, two);
        law_found_by_its_name(files, two, i, j);
    }
}

/// Whether a name is bound in a file of the files at an index, and its full name is the
/// symbol that the parts make up or ends with it.
pub open spec fn binds(files: Seq<FileIndex>, i: int, j: int, parts: Seq<Seq<char>>) -> bool {
    &&& 0 <= i < files.len()
    &&& 0 <= j < files[i].defs@.len()
    &&& all_plain(def_parts(files[i].path@, files[i].defs@[j]))
    &&& ends_name(
        names::def_fqn(files[i].path@, files[i].defs@[j]),
        text::join(parts, "."@),
    )
}

proof fn lemma_defs_in(
    path: Seq<char>,
    defs: Seq<Def>,
    leaf: Seq<char>,
    qualifier: Seq<Seq<char>>,
    j: int,
)
    requires
        0 <= j < defs.len(),
        defs[j].name@ == leaf,
        names::scoped(qualifier, path, text::views(defs[j].container@)),
    ensures
        resolve::defs_in(path, defs, leaf, qualifier).contains(resolve::def_loc(path, defs[j])),
        resolve::bound_in(path, defs, leaf, qualifier, defs[j].kind is Import).contains(
            resolve::def_anchor(path, defs[j]),
        ),
    decreases defs.len(),
{
    let imports = defs[j].kind is Import;
    let less = resolve::defs_in(path, defs.drop_last(), leaf, qualifier);
    let fewer = resolve::bound_in(path, defs.drop_last(), leaf, qualifier, imports);
    text::lemma_push_contains(less, resolve::def_loc(path, defs.last()));
    text::lemma_push_contains(fewer, resolve::def_anchor(path, defs.last()));
    if j < defs.len() - 1 {
        assert(defs.drop_last()[j] == defs[j]);
        lemma_defs_in(path, defs.drop_last(), leaf, qualifier, j);
    }
}

proof fn lemma_left<A>(a: Seq<A>, b: Seq<A>, x: A)
    requires
        a.contains(x) || b.contains(x),
    ensures
        (a + b).contains(x),
{
    if a.contains(x) {
        let k = choose|k: int| 0 <= k < a.len() && a[k] == x;
        assert((a + b)[k] == x);
    } else {
        let k = choose|k: int| 0 <= k < b.len() && b[k] == x;
        assert((a + b)[a.len() + k] == x);
    }
}

proof fn lemma_either<A>(a: Seq<A>, b: Seq<A>, x: A)
    requires
        (a + b).contains(x),
    ensures
        a.contains(x) || b.contains(x),
{
    let k = choose|k: int| 0 <= k < (a + b).len() && (a + b)[k] == x;
    if k < a.len() {
        assert(a[k] == x);
    } else {
        assert(b[k - a.len()] == x);
    }
}

proof fn lemma_defs_of(
    files: Seq<FileIndex>,
    leaf: Seq<char>,
    qualifier: Seq<Seq<char>>,
    i: int,
    j: int,
)
    requires
        0 <= i < files.len(),
        0 <= j < files[i].defs@.len(),
        files[i].defs@[j].name@ == leaf,
        names::scoped(qualifier, files[i].path@, text::views(files[i].defs@[j].container@)),
    ensures
        resolve::defs_of(files, leaf, qualifier).contains(
            resolve::def_loc(files[i].path@, files[i].defs@[j]),
        ),
        !(files[i].defs@[j].kind is Import) ==> resolve::def_anchors(
            files,
            leaf,
            qualifier,
        ).contains(resolve::def_anchor(files[i].path@, files[i].defs@[j])),
        files[i].defs@[j].kind is Import ==> resolve::use_anchors(
            files,
            leaf,
            qualifier,
        ).contains(resolve::def_anchor(files[i].path@, files[i].defs@[j])),
    decreases files.len(),
{
    let f = files.last();
    let l = resolve::def_loc(files[i].path@, files[i].defs@[j]);
    let a = resolve::def_anchor(files[i].path@, files[i].defs@[j]);
    let less = files.drop_last();
    if i < files.len() - 1 {
        assert(less[i] == files[i]);
        lemma_defs_of(less, leaf, qualifier, i, j);
    } else {
        lemma_defs_in(f.path@, f.defs@, leaf, qualifier, j);
    }
    lemma_left(
        resolve::defs_of(less, leaf, qualifier),
        resolve::defs_in(f.path@, f.defs@, leaf, qualifier),
        l,
    );
    if files[i].defs@[j].kind is Import {
        let before = resolve::use_anchors(less, leaf, qualifier);
        let bound = resolve::bound_in(f.path@, f.defs@, leaf, qualifier, true);
        lemma_left(before, bound, a);
        lemma_left(before + bound, resolve::used_in(f.path@, f.refs@, leaf), a);
    } else {
        lemma_left(
            resolve::def_anchors(less, leaf, qualifier),
            resolve::bound_in(f.path@, f.defs@, leaf, qualifier, false),
            a,
        );
    }
}

/// Whatever binds a name is among the definitions of every symbol that its full name is
/// or ends with.
pub proof fn law_definition_is_reported(
    files: Seq<FileIndex>,
    parts: Seq<Seq<char>>,
    i: int,
    j: int,
)
    requires
        parts.len() > 0,
        all_plain(parts),
        binds(files, i, j, parts),
    ensures
        resolve::placed_at(
            resolve::definitions_of(files, text::join(parts, "."@)),
            crate::rows::place(
                files[i].path@,
                files[i].defs@[j].pos.line,
                files[i].defs@[j].pos.col,
            ),
        ),
{
    let f = files[i];
    let d = f.defs@[j];
    let symbol = text::join(parts, "."@);
    law_dotted_parts(parts);
    lemma_meant(f.path@, d, parts);
    let bound = resolve::bound_at(files, symbol);
    let l = resolve::def_loc(f.path@, d);
    lemma_defs_of(files, parts.last(), parts.drop_last(), i, j);
    let scope = names::components(f.path@) + text::views(d.container@);
    assert(scope.skip(scope.len() as int) =~= Seq::<Seq<char>>::empty());
    assert(names::scoped(Seq::empty(), f.path@, text::views(d.container@)));
    lemma_defs_of(files, parts.last(), Seq::empty(), i, j);
    assert(bound.contains(l));
    let k = choose|k: int| 0 <= k < bound.len() && bound[k] == l;
    resolve::law_all_bound_is_reported(files, symbol, k);
}

/// All that is said of a definition is reported for every symbol that its full name is
/// or ends with: its uses by `refs`, its calls by `callers`.
pub proof fn law_uses_of_a_definition_are_reported(
    files: Seq<FileIndex>,
    parts: Seq<Seq<char>>,
    i: int,
    j: int,
    says: spec_fn(callgraph::Spot) -> Seq<LocView>,
    key: Seq<char>,
)
    requires
        parts.len() > 0,
        all_plain(parts),
        binds(files, i, j, parts),
        resolve::says_alike(says, resolve::anchors_of(files, text::join(parts, "."@))),
        resolve::placed_at(says((files[i].path@, files[i].defs@[j].offset)), key),
    ensures
        resolve::placed_at(resolve::sweep_of(files, text::join(parts, "."@), says), key),
{
    let f = files[i];
    let d = f.defs@[j];
    let symbol = text::join(parts, "."@);
    law_dotted_parts(parts);
    lemma_meant(f.path@, d, parts);
    lemma_defs_of(files, parts.last(), parts.drop_last(), i, j);
    let a = resolve::def_anchor(f.path@, d);
    let defs = resolve::def_anchors(files, parts.last(), parts.drop_last());
    let uses = resolve::use_anchors(files, parts.last(), parts.drop_last());
    lemma_left(defs, uses, a);
    let all = resolve::anchors_of(files, symbol);
    let k = choose|k: int| 0 <= k < all.len() && all[k] == a;
    resolve::law_all_said_is_reported(files, symbol, says, k, key);
}

proof fn lemma_defs_in_from(
    path: Seq<char>,
    defs: Seq<Def>,
    leaf: Seq<char>,
    qualifier: Seq<Seq<char>>,
    l: LocView,
) -> (j: int)
    requires
        resolve::defs_in(path, defs, leaf, qualifier).contains(l),
    ensures
        0 <= j < defs.len(),
        l == resolve::def_loc(path, defs[j]),
        defs[j].name@ == leaf,
        names::scoped(qualifier, path, text::views(defs[j].container@)),
    decreases defs.len(),
{
    let less = resolve::defs_in(path, defs.drop_last(), leaf, qualifier);
    text::lemma_push_contains(less, resolve::def_loc(path, defs.last()));
    if less.contains(l) {
        lemma_defs_in_from(path, defs.drop_last(), leaf, qualifier, l)
    } else {
        defs.len() - 1
    }
}

proof fn lemma_defs_of_from(
    files: Seq<FileIndex>,
    leaf: Seq<char>,
    qualifier: Seq<Seq<char>>,
    l: LocView,
) -> (r: (int, int))
    requires
        resolve::defs_of(files, leaf, qualifier).contains(l),
    ensures
        0 <= r.0 < files.len(),
        0 <= r.1 < files[r.0].defs@.len(),
        l == resolve::def_loc(files[r.0].path@, files[r.0].defs@[r.1]),
        files[r.0].defs@[r.1].name@ == leaf,
        names::scoped(qualifier, files[r.0].path@, text::views(files[r.0].defs@[r.1].container@)),
    decreases files.len(),
{
    let less = resolve::defs_of(files.drop_last(), leaf, qualifier);
    let f = files.last();
    lemma_either(less, resolve::defs_in(f.path@, f.defs@, leaf, qualifier), l);
    if less.contains(l) {
        lemma_defs_of_from(files.drop_last(), leaf, qualifier, l)
    } else {
        (files.len() - 1, lemma_defs_in_from(f.path@, f.defs@, leaf, qualifier, l))
    }
}

/// Each place among the definitions of a symbol binds the last part of the symbol, as what
/// it is said to be: a definition, or an import that binds the name again. Where the name has
/// several definitions, its full name ends with the symbol.
pub proof fn law_reported_definition_binds(
    files: Seq<FileIndex>,
    parts: Seq<Seq<char>>,
    k: int,
) -> (r: (int, int))
    requires
        parts.len() > 0,
        all_plain(parts),
        0 <= k < resolve::definitions_of(files, text::join(parts, "."@)).len(),
    ensures
        0 <= r.0 < files.len(),
        0 <= r.1 < files[r.0].defs@.len(),
        ({
            let d = files[r.0].defs@[r.1];
            let l = resolve::definitions_of(files, text::join(parts, "."@))[k];
            &&& d.name@ == parts.last()
            &&& l.key() == crate::rows::place(files[r.0].path@, d.pos.line, d.pos.col)
            &&& l.role == if d.kind is Import {
                "binding"@
            } else {
                "definition"@
            }
            &&& resolve::sole_key(resolve::defs_of(files, parts.last(), Seq::empty())) is None
                && all_plain(def_parts(files[r.0].path@, d)) ==> ends_name(
                names::def_fqn(files[r.0].path@, d),
                text::join(parts, "."@),
            )
        }),
{
    let symbol = text::join(parts, "."@);
    law_dotted_parts(parts);
    let m = resolve::law_all_definitions_are_bound(files, symbol, k);
    let bound = resolve::bound_at(files, symbol);
    let l = bound[m];
    assert(bound.contains(l));
    let all = resolve::defs_of(files, parts.last(), Seq::empty());
    if resolve::sole_key(all) is Some && resolve::has_definition(
        resolve::defs_of(files, parts.last(), parts.drop_last()),
    ) {
        lemma_defs_of_from(files, parts.last(), Seq::empty(), l)
    } else {
        let r = lemma_defs_of_from(files, parts.last(), parts.drop_last(), l);
        if all_plain(def_parts(files[r.0].path@, files[r.0].defs@[r.1])) {
            lemma_meant(files[r.0].path@, files[r.0].defs@[r.1], parts);
        }
        r
    }
}

/// Whether a text can be the name of a directory or of a file: it is not empty and has no
/// slash in it.
pub open spec fn path_name(s: Seq<char>) -> bool {
    s.len() > 0 && forall|k: int| 0 <= k < s.len() ==> #[trigger] s[k] != '/' && s[k] != '\\'
}

/// Whether each of the texts can be the name of a directory.
pub open spec fn path_names(s: Seq<Seq<char>>) -> bool {
    forall|k: int| 0 <= k < s.len() ==> path_name(#[trigger] s[k])
}

/// Texts without one to leave out are all kept.
pub proof fn lemma_except(s: Seq<Seq<char>>, x: Seq<char>)
    requires
        !s.contains(x),
    ensures
        names::except(s, x) == s,
    decreases s.len(),
{
    if s.len() > 0 {
        assert(s[s.len() - 1] != x);
        assert(!s.drop_last().contains(x)) by {
            if s.drop_last().contains(x) {
                let k = choose|k: int| 0 <= k < s.drop_last().len() && s.drop_last()[k] == x;
                assert(s[k] == x);
            }
        }
        lemma_except(s.drop_last(), x);
        assert(s =~= s.drop_last().push(s.last()));
    }
}

/// The stem of a path is the path without its ending.
proof fn lemma_py_stem(s: Seq<char>, ending: Seq<char>)
    requires
        ending == ".py"@ || ending == ".pyi"@,
    ensures
        names::py_stem(s + ending) == s,
{
    reveal_strlit(".py");
    reveal_strlit(".pyi");
    let p = s + ending;
    assert(p.subrange(p.len() - ending.len(), p.len() as int) =~= ending);
    assert(p.take(p.len() - ending.len()) =~= s);
    if ending == ".py"@ && text::ends(p, ".pyi"@) {
        let t = p.subrange(p.len() - 4, p.len() as int);
        assert(t[3] == p[p.len() - 1]);
        assert(".pyi"@[3] == 'i');
        assert(p[p.len() - 1] == ending[2]);
    }
}

/// The names on the way to a file are its directories and its own name, without the ending.
pub proof fn lemma_path_names(dirs: Seq<Seq<char>>, stem: Seq<char>, ending: Seq<char>, slash: char)
    requires
        path_names(dirs),
        path_name(stem),
        slash == '/' || slash == '\\',
        ending == ".py"@ || ending == ".pyi"@,
    ensures
        names::path_names(text::join(dirs.push(stem), seq![slash]) + ending) == dirs.push(stem),
{
    reveal_strlit("/\\");
    let all = dirs.push(stem);
    let seps = "/\\"@;
    assert(seps[0] == '/' && seps[1] == '\\');
    assert(seps.contains(slash));
    assert forall|k: int| 0 <= k < all.len() implies path_name(#[trigger] all[k]) by {
        if k < dirs.len() {
            assert(path_name(dirs[k]));
        }
    }
    assert forall|i: int, k: int|
        0 <= i < all.len() && 0 <= k < all[i].len() implies !seps.contains(#[trigger] all[i][k]) by {
        assert(path_name(all[i]));
        assert(all[i][k] != '/' && all[i][k] != '\\');
    }
    law_split_undoes_join(all, slash, seps);
    assert forall|k: int| 0 <= k < all.len() implies (#[trigger] all[k]).len() > 0 by {
        assert(path_name(all[k]));
    }
    lemma_all_filled(all);
    let body = text::join(all, seq![slash]);
    lemma_py_stem(body, ending);
}

/// A module is called after the directories on the way to its file and the file itself,
/// without the ending; a package after the directory that holds its `__init__`.
pub proof fn law_module_of_path(dirs: Seq<Seq<char>>, stem: Seq<char>, ending: Seq<char>, slash: char)
    requires
        path_names(dirs),
        path_name(stem),
        slash == '/' || slash == '\\',
        ending == ".py"@ || ending == ".pyi"@,
        !dirs.contains("__init__"@),
    ensures
        names::components(text::join(dirs.push(stem), seq![slash]) + ending) == if stem
            == "__init__"@ {
            dirs
        } else {
            dirs.push(stem)
        },
{
    let all = dirs.push(stem);
    lemma_path_names(dirs, stem, ending, slash);
    let body = text::join(all, seq![slash]);
    let init = "__init__"@;
    assert(names::components(body + ending) == names::except(all, init));
    if stem == init {
        assert(all.drop_last() =~= dirs);
        lemma_except(dirs, init);
    } else {
        assert(!all.contains(init)) by {
            if all.contains(init) {
                let k = choose|k: int| 0 <= k < all.len() && all[k] == init;
                assert(dirs[k] == init);
            }
        }
        lemma_except(all, init);
    }
}

/// The full name of a definition is its module, the scopes around it and its own name,
/// with dots between them.
pub proof fn law_full_name(dirs: Seq<Seq<char>>, stem: Seq<char>, d: Def)
    requires
        path_names(dirs),
        path_name(stem),
        stem != "__init__"@,
        !dirs.contains("__init__"@),
    ensures
        names::def_fqn(text::join(dirs.push(stem), "/"@) + ".py"@, d) == text::join(
            dirs.push(stem) + text::views(d.container@).push(d.name@),
            "."@,
        ),
        names::def_fqn(text::join(dirs.push("__init__"@), "/"@) + ".py"@, d) == text::join(
            dirs + text::views(d.container@).push(d.name@),
            "."@,
        ),
{
    reveal_strlit("/");
    reveal_strlit("__init__");
    assert("/"@ =~= seq!['/']);
    law_module_of_path(dirs, stem, ".py"@, '/');
    law_module_of_path(dirs, "__init__"@, ".py"@, '/');
}

/// The base name of a path is the last of the names on it.
pub proof fn law_base_name(parts: Seq<Seq<char>>)
    requires
        parts.len() > 0,
        path_names(parts),
        parts.last() != "."@,
        parts.last() != ".."@,
    ensures
        text::base_name(text::join(parts, "/"@)) == parts.last(),
{
    reveal_strlit("/");
    reveal_strlit(".");
    reveal_strlit("..");
    assert("/"@ =~= seq!['/']);
    assert("."@ =~= seq!['.']);
    assert(".."@ =~= seq!['.', '.']);
    let seps = seq!['/'];
    assert(seps[0] == '/');
    assert forall|i: int, k: int|
        0 <= i < parts.len() && 0 <= k < parts[i].len() implies !seps.contains(
        #[trigger] parts[i][k],
    ) by {
        assert(path_name(parts[i]));
        assert(parts[i][k] != '/');
    }
    law_split_undoes_join(parts, '/', seps);
    assert(path_name(parts[parts.len() - 1]));
    assert(text::path_core(parts) == parts);
}

/// The names on a path are those that it was joined from.
pub proof fn law_path_parts(parts: Seq<Seq<char>>)
    requires
        parts.len() > 0,
        path_names(parts),
    ensures
        text::split(text::join(parts, "/"@), "/\\"@) == parts,
{
    reveal_strlit("/");
    reveal_strlit("/\\");
    assert("/"@ =~= seq!['/']);
    let seps = "/\\"@;
    assert(seps[0] == '/' && seps[1] == '\\');
    assert forall|i: int, k: int|
        0 <= i < parts.len() && 0 <= k < parts[i].len() implies !seps.contains(
        #[trigger] parts[i][k],
    ) by {
        assert(path_name(parts[i]));
        assert(parts[i][k] != '/' && parts[i][k] != '\\');
    }
    law_split_undoes_join(parts, '/', seps);
}

} // verus!
