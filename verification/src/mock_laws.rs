//! What holds of the targets that `mock.patch` names.
use crate::json::JsonView;
use crate::json;
use crate::mock::{Aid, StatusView};
use crate::mock;
use crate::model::{Def, FileIndex, MockTarget};
use crate::name_laws;
use crate::names;
use crate::rows;
use crate::surface_reports;
use crate::text;
use vstd::prelude::*;

verus! {

/// Whether a target that the parts make up is looked for in a module: the module is that of
/// the first `n` parts, and no more parts make up a module.
pub open spec fn looked_in(files: Seq<FileIndex>, parts: Seq<Seq<char>>, n: int) -> bool {
    &&& 0 < n <= parts.len()
    &&& mock::is_module(files, text::join(parts.take(n), "."@))
    &&& forall|q: int|
        n < q <= parts.len() ==> !mock::is_module(
            files,
            text::join(#[trigger] parts.take(q), "."@),
        )
}

/// A target is looked for in the module with the longest name that begins it.
pub proof fn law_longest_module_decides(
    files: Seq<FileIndex>,
    aid: Option<Aid>,
    parts: Seq<Seq<char>>,
    n: int,
)
    requires
        name_laws::all_plain(parts),
        looked_in(files, parts, n),
    ensures
        mock::patched(files, aid, Some(text::join(parts, "."@))) == mock::looked_up(
            files,
            aid,
            text::join(parts.take(n), "."@),
            parts.skip(n),
        ),
{
    name_laws::law_dotted_parts(parts);
    lemma_by_prefix(files, aid, parts, n, parts.len() as int);
}

proof fn lemma_by_prefix(
    files: Seq<FileIndex>,
    aid: Option<Aid>,
    parts: Seq<Seq<char>>,
    n: int,
    k: int,
)
    requires
        looked_in(files, parts, n),
        n <= k <= parts.len(),
    ensures
        mock::by_prefix(files, aid, parts, k) == mock::looked_up(
            files,
            aid,
            text::join(parts.take(n), "."@),
            parts.skip(n),
        ),
    decreases k,
{
    if k > n {
        assert(!mock::is_module(files, text::join(parts.take(k), "."@)));
        lemma_by_prefix(files, aid, parts, n, k - 1);
    }
}

/// A target that begins with no module of the project lies outside it.
pub proof fn law_target_outside_is_external(
    files: Seq<FileIndex>,
    aid: Option<Aid>,
    parts: Seq<Seq<char>>,
)
    requires
        parts.len() > 0,
        name_laws::all_plain(parts),
        forall|q: int|
            0 < q <= parts.len() ==> !mock::is_module(
                files,
                text::join(#[trigger] parts.take(q), "."@),
            ),
    ensures
        mock::patched(files, aid, Some(text::join(parts, "."@))) is External,
{
    name_laws::law_dotted_parts(parts);
    lemma_no_prefix(files, aid, parts, parts.len() as int);
}

proof fn lemma_no_prefix(files: Seq<FileIndex>, aid: Option<Aid>, parts: Seq<Seq<char>>, k: int)
    requires
        0 <= k <= parts.len(),
        forall|q: int|
            0 < q <= parts.len() ==> !mock::is_module(
                files,
                text::join(#[trigger] parts.take(q), "."@),
            ),
    ensures
        mock::by_prefix(files, aid, parts, k) is External,
    decreases k,
{
    if k > 0 {
        assert(!mock::is_module(files, text::join(parts.take(k), "."@)));
        lemma_no_prefix(files, aid, parts, k - 1);
    }
}

/// The modules of a project are those of its files.
proof fn lemma_is_module(files: Seq<FileIndex>, m: Seq<char>)
    ensures
        mock::is_module(files, m) <==> exists|i: int|
            0 <= i < files.len() && mock::module_id((#[trigger] files[i]).path@) == m,
    decreases files.len(),
{
    if files.len() > 0 {
        let less = files.drop_last();
        lemma_is_module(less, m);
        if mock::is_module(less, m) {
            let i = choose|i: int|
                0 <= i < less.len() && mock::module_id((#[trigger] less[i]).path@) == m;
            assert(files[i] == less[i]);
        }
        if mock::module_id(files.last().path@) == m {
            assert(files[files.len() - 1] == files.last());
        }
        assert forall|i: int|
            0 <= i < files.len() && mock::module_id(
                (#[trigger] files[i]).path@,
            ) == m implies mock::is_module(files, m) by {
            if i < less.len() {
                assert(less[i] == files[i]);
            }
        }
    }
}

/// Whether a definition stands at the top of its module under a name.
pub open spec fn tops(d: Def, name: Seq<char>) -> bool {
    d.container@.len() == 0 && d.name@ == name
}

/// Whether a module of the project has a definition at its top under a name.
pub open spec fn has_top(files: Seq<FileIndex>, m: Seq<char>, name: Seq<char>) -> bool {
    exists|i: int, j: int|
        #![trigger files[i].defs@[j]]
        0 <= i < files.len() && mock::module_id(files[i].path@) == m && 0 <= j
            < files[i].defs@.len() && tops(files[i].defs@[j], name)
}

/// Whether a module of the project defines a name directly in a scope at its top.
pub open spec fn has_member(
    files: Seq<FileIndex>,
    m: Seq<char>,
    scope: Seq<char>,
    name: Seq<char>,
) -> bool {
    exists|i: int, j: int|
        #![trigger files[i].defs@[j]]
        0 <= i < files.len() && mock::module_id(files[i].path@) == m && 0 <= j
            < files[i].defs@.len() && text::views(files[i].defs@[j].container@) == seq![scope]
            && files[i].defs@[j].name@ == name
}

proof fn lemma_binds_in(defs: Seq<Def>, name: Seq<char>)
    ensures
        mock::binds_in(defs, name) <==> exists|j: int|
            0 <= j < defs.len() && tops(#[trigger] defs[j], name),
    decreases defs.len(),
{
    if defs.len() > 0 {
        let less = defs.drop_last();
        lemma_binds_in(less, name);
        if mock::binds_in(less, name) {
            let j = choose|j: int| 0 <= j < less.len() && tops(#[trigger] less[j], name);
            assert(defs[j] == less[j]);
        }
        if tops(defs.last(), name) {
            assert(defs[defs.len() - 1] == defs.last());
        }
        assert forall|j: int| 0 <= j < defs.len() && tops(#[trigger] defs[j], name) implies mock::binds_in(
            defs,
            name,
        ) by {
            if j < less.len() {
                assert(less[j] == defs[j]);
            }
        }
    }
}

proof fn lemma_binds(files: Seq<FileIndex>, m: Seq<char>, name: Seq<char>)
    ensures
        mock::binds(files, m, name) <==> has_top(files, m, name),
    decreases files.len(),
{
    if files.len() > 0 {
        let less = files.drop_last();
        let f = files.last();
        let n = files.len() - 1;
        lemma_binds(less, m, name);
        lemma_binds_in(f.defs@, name);
        if mock::binds(less, m, name) {
            let (i, j) = choose|i: int, j: int|
                #![trigger less[i].defs@[j]]
                0 <= i < less.len() && mock::module_id(less[i].path@) == m && 0 <= j
                    < less[i].defs@.len() && tops(less[i].defs@[j], name);
            assert(files[i].defs@[j] == less[i].defs@[j]);
        }
        if mock::module_id(f.path@) == m && mock::binds_in(f.defs@, name) {
            let j = choose|j: int| 0 <= j < f.defs@.len() && tops(#[trigger] f.defs@[j], name);
            assert(files[n].defs@[j] == f.defs@[j]);
        }
        if has_top(files, m, name) {
            let (i, j) = choose|i: int, j: int|
                #![trigger files[i].defs@[j]]
                0 <= i < files.len() && mock::module_id(files[i].path@) == m && 0 <= j
                    < files[i].defs@.len() && tops(files[i].defs@[j], name);
            if i < n {
                assert(less[i].defs@[j] == files[i].defs@[j]);
            }
        }
    }
}

proof fn lemma_one_scope(d: Def, scope: Seq<char>)
    ensures
        (d.container@.len() == 1 && d.container@[0]@ == scope) <==> text::views(d.container@)
            == seq![scope],
{
    let v = text::views(d.container@);
    if d.container@.len() == 1 && d.container@[0]@ == scope {
        assert(v =~= seq![scope]);
    }
    if v == seq![scope] {
        assert(v.len() == 1);
        assert(v[0] == d.container@[0]@);
        assert(seq![scope][0] == scope);
    }
}

proof fn lemma_member_in(defs: Seq<Def>, scope: Seq<char>, name: Seq<char>)
    ensures
        mock::member_in(defs, scope, name) <==> exists|j: int|
            0 <= j < defs.len() && text::views((#[trigger] defs[j]).container@) == seq![scope]
                && defs[j].name@ == name,
    decreases defs.len(),
{
    if defs.len() > 0 {
        let less = defs.drop_last();
        lemma_member_in(less, scope, name);
        lemma_one_scope(defs.last(), scope);
        if mock::member_in(less, scope, name) {
            let j = choose|j: int|
                0 <= j < less.len() && text::views((#[trigger] less[j]).container@) == seq![scope]
                    && less[j].name@ == name;
            assert(defs[j] == less[j]);
        }
        if text::views(defs.last().container@) == seq![scope] && defs.last().name@ == name {
            assert(defs[defs.len() - 1] == defs.last());
        }
        assert forall|j: int|
            0 <= j < defs.len() && text::views((#[trigger] defs[j]).container@) == seq![scope]
                && defs[j].name@ == name implies mock::member_in(defs, scope, name) by {
            if j < less.len() {
                assert(less[j] == defs[j]);
            }
        }
    }
}

proof fn lemma_member_of(files: Seq<FileIndex>, m: Seq<char>, scope: Seq<char>, name: Seq<char>)
    ensures
        mock::member_of(files, m, scope, name) <==> has_member(files, m, scope, name),
    decreases files.len(),
{
    if files.len() > 0 {
        let less = files.drop_last();
        let f = files.last();
        let n = files.len() - 1;
        lemma_member_of(less, m, scope, name);
        lemma_member_in(f.defs@, scope, name);
        if mock::member_of(less, m, scope, name) {
            let (i, j) = choose|i: int, j: int|
                #![trigger less[i].defs@[j]]
                0 <= i < less.len() && mock::module_id(less[i].path@) == m && 0 <= j
                    < less[i].defs@.len() && text::views(less[i].defs@[j].container@)
                    == seq![scope] && less[i].defs@[j].name@ == name;
            assert(files[i].defs@[j] == less[i].defs@[j]);
        }
        if mock::module_id(f.path@) == m && mock::member_in(f.defs@, scope, name) {
            let j = choose|j: int|
                0 <= j < f.defs@.len() && text::views((#[trigger] f.defs@[j]).container@)
                    == seq![scope] && f.defs@[j].name@ == name;
            assert(files[n].defs@[j] == f.defs@[j]);
        }
        if has_member(files, m, scope, name) {
            let (i, j) = choose|i: int, j: int|
                #![trigger files[i].defs@[j]]
                0 <= i < files.len() && mock::module_id(files[i].path@) == m && 0 <= j
                    < files[i].defs@.len() && text::views(files[i].defs@[j].container@)
                    == seq![scope] && files[i].defs@[j].name@ == name;
            if i < n {
                assert(less[i].defs@[j] == files[i].defs@[j]);
            }
        }
    }
}

/// A target that names something at the top of a module of the project is valid.
pub proof fn law_top_of_a_module_is_valid(
    files: Seq<FileIndex>,
    aid: Option<Aid>,
    i: int,
    j: int,
)
    requires
        0 <= i < files.len(),
        0 <= j < files[i].defs@.len(),
        files[i].defs@[j].container@.len() == 0,
        names::components(files[i].path@).len() > 0,
        name_laws::all_plain(name_laws::def_parts(files[i].path@, files[i].defs@[j])),
    ensures
        mock::patched(
            files,
            aid,
            Some(names::def_fqn(files[i].path@, files[i].defs@[j])),
        ) is Valid,
{
    let f = files[i];
    let d = f.defs@[j];
    let comps = names::components(f.path@);
    let parts = name_laws::def_parts(f.path@, d);
    let n = comps.len() as int;
    let m = mock::module_id(f.path@);
    assert(text::views(d.container@) =~= Seq::empty());
    assert(parts =~= comps.push(d.name@));
    assert(comps + Seq::<Seq<char>>::empty() =~= comps);
    assert(parts.take(n) =~= comps);
    assert(parts.skip(n) =~= seq![d.name@]);
    assert(text::join(parts.take(n), "."@) == m);
    lemma_is_module(files, m);
    assert(mock::module_id(files[i].path@) == m);
    if mock::is_module(files, text::join(parts, "."@)) {
        assert(parts.take(n + 1) =~= parts);
        law_longest_module_decides(files, aid, parts, n + 1);
        assert(parts.skip(n + 1) =~= Seq::empty());
    } else {
        assert forall|q: int| n < q <= parts.len() implies !mock::is_module(
            files,
            text::join(#[trigger] parts.take(q), "."@),
        ) by {
            assert(parts.take(q) =~= parts);
        }
        law_longest_module_decides(files, aid, parts, n);
        lemma_binds(files, m, d.name@);
        assert(tops(files[i].defs@[j], d.name@));
    }
}

/// A target that names nothing that a module of the project binds at its top is drifted, save
/// for a builtin, which every module can look up.
pub proof fn law_unbound_name_is_drifted(
    files: Seq<FileIndex>,
    aid: Option<Aid>,
    parts: Seq<Seq<char>>,
    n: int,
)
    requires
        name_laws::all_plain(parts),
        looked_in(files, parts, n),
        n < parts.len(),
        !has_top(files, text::join(parts.take(n), "."@), parts[n]),
    ensures
        mock::builtin(parts[n]) ==> mock::patched(
            files,
            aid,
            Some(text::join(parts, "."@)),
        ) is Unverifiable,
        !mock::builtin(parts[n]) ==> mock::patched(
            files,
            aid,
            Some(text::join(parts, "."@)),
        ) is Drifted,
{
    law_longest_module_decides(files, aid, parts, n);
    lemma_binds(files, text::join(parts.take(n), "."@), parts[n]);
    assert(parts.skip(n)[0] == parts[n]);
}

/// A target that a module binds at its top and goes no further is valid.
pub proof fn law_bound_name_is_valid(
    files: Seq<FileIndex>,
    aid: Option<Aid>,
    parts: Seq<Seq<char>>,
    n: int,
)
    requires
        name_laws::all_plain(parts),
        looked_in(files, parts, n),
        parts.len() == n + 1,
        has_top(files, text::join(parts.take(n), "."@), parts[n]),
    ensures
        mock::patched(files, aid, Some(text::join(parts, "."@))) is Valid,
{
    law_longest_module_decides(files, aid, parts, n);
    lemma_binds(files, text::join(parts.take(n), "."@), parts[n]);
    assert(parts.skip(n)[0] == parts[n]);
    assert(parts.skip(n).len() == 1);
}

/// Whether a class writes a base other than `object`.
pub open spec fn extends(d: Def) -> bool {
    exists|b: int| 0 <= b < d.bases@.len() && (#[trigger] d.bases@[b])@ != "object"@
}

/// Whether the classes that a module has at its top under a name, of which there is at least
/// one, all write a base or all write none.
pub open spec fn classes_extend(
    files: Seq<FileIndex>,
    m: Seq<char>,
    name: Seq<char>,
    way: bool,
) -> bool {
    &&& exists|i: int, j: int|
        #![trigger files[i].defs@[j]]
        0 <= i < files.len() && mock::module_id(files[i].path@) == m && 0 <= j
            < files[i].defs@.len() && tops(files[i].defs@[j], name) && files[i].defs@[j].kind is Class
    &&& forall|i: int, j: int|
        #![trigger files[i].defs@[j]]
        0 <= i < files.len() && mock::module_id(files[i].path@) == m && 0 <= j
            < files[i].defs@.len() && tops(files[i].defs@[j], name)
            && files[i].defs@[j].kind is Class ==> extends(files[i].defs@[j]) == way
}

proof fn lemma_except_len(s: Seq<Seq<char>>, x: Seq<char>)
    ensures
        names::except(s, x).len() > 0 <==> exists|b: int|
            0 <= b < s.len() && #[trigger] s[b] != x,
    decreases s.len(),
{
    if s.len() > 0 {
        let less = s.drop_last();
        lemma_except_len(less, x);
        if names::except(less, x).len() > 0 {
            let b = choose|b: int| 0 <= b < less.len() && #[trigger] less[b] != x;
            assert(s[b] != x);
        }
        if s.last() != x {
            assert(s[s.len() - 1] != x);
        }
        assert forall|b: int| 0 <= b < s.len() && #[trigger] s[b] != x implies names::except(
            s,
            x,
        ).len() > 0 by {
            if b < less.len() {
                assert(less[b] != x);
            }
        }
    }
}

/// What is left of the bases without `object` is something just where a class extends another.
pub proof fn lemma_extends(d: Def)
    ensures
        names::except(text::views(d.bases@), "object"@).len() > 0 <==> extends(d),
{
    let v = text::views(d.bases@);
    lemma_except_len(v, "object"@);
    if extends(d) {
        let b = choose|b: int| 0 <= b < d.bases@.len() && (#[trigger] d.bases@[b])@ != "object"@;
        assert(v[b] != "object"@);
    }
    if exists|b: int| 0 <= b < v.len() && #[trigger] v[b] != "object"@ {
        let b = choose|b: int| 0 <= b < v.len() && #[trigger] v[b] != "object"@;
        assert(d.bases@[b]@ != "object"@);
    }
}

proof fn lemma_class_in(defs: Seq<Def>, name: Seq<char>) -> (j: int)
    ensures
        match mock::class_in(defs, name) {
            Some(w) => 0 <= j < defs.len() && tops(defs[j], name) && defs[j].kind is Class
                && extends(defs[j]) == w,
            None => forall|k: int|
                0 <= k < defs.len() ==> !(tops(#[trigger] defs[k], name) && defs[k].kind is Class),
        },
    decreases defs.len(),
{
    if defs.len() == 0 {
        0
    } else if tops(defs.last(), name) && defs.last().kind is Class {
        lemma_extends(defs.last());
        defs.len() - 1
    } else {
        let less = defs.drop_last();
        let j = lemma_class_in(less, name);
        assert forall|k: int| 0 <= k < less.len() implies less[k] == #[trigger] defs[k] by {}
        j
    }
}

proof fn lemma_class_of(files: Seq<FileIndex>, m: Seq<char>, name: Seq<char>, way: bool)
    requires
        forall|i: int, j: int|
            #![trigger files[i].defs@[j]]
            0 <= i < files.len() && mock::module_id(files[i].path@) == m && 0 <= j
                < files[i].defs@.len() && tops(files[i].defs@[j], name)
                && files[i].defs@[j].kind is Class ==> extends(files[i].defs@[j]) == way,
    ensures
        mock::class_of(files, m, name) is Some ==> mock::class_of(files, m, name) == Some(way),
        mock::class_of(files, m, name) is None ==> forall|i: int, j: int|
            #![trigger files[i].defs@[j]]
            0 <= i < files.len() && mock::module_id(files[i].path@) == m && 0 <= j
                < files[i].defs@.len() ==> !(tops(files[i].defs@[j], name)
                && files[i].defs@[j].kind is Class),
    decreases files.len(),
{
    if files.len() > 0 {
        let less = files.drop_last();
        let f = files.last();
        let n = files.len() - 1;
        assert forall|i: int, j: int|
            #![trigger less[i].defs@[j]]
            0 <= i < less.len() && mock::module_id(less[i].path@) == m && 0 <= j
                < less[i].defs@.len() && tops(less[i].defs@[j], name)
                && less[i].defs@[j].kind is Class implies extends(less[i].defs@[j]) == way by {
            assert(files[i].defs@[j] == less[i].defs@[j]);
        }
        lemma_class_of(less, m, name, way);
        let j = lemma_class_in(f.defs@, name);
        if mock::module_id(f.path@) == m && mock::class_in(f.defs@, name) is Some {
            assert(files[n].defs@[j] == f.defs@[j]);
        } else if mock::class_of(files, m, name) is None {
            assert forall|a: int, b: int|
                #![trigger files[a].defs@[b]]
                0 <= a < files.len() && mock::module_id(files[a].path@) == m && 0 <= b
                    < files[a].defs@.len() implies !(tops(files[a].defs@[b], name)
                && files[a].defs@[b].kind is Class) by {
                if a < n {
                    assert(less[a].defs@[b] == files[a].defs@[b]);
                } else {
                    assert(f.defs@[b] == files[a].defs@[b]);
                }
            }
        }
    }
}

proof fn lemma_class_at(
    files: Seq<FileIndex>,
    aid: Option<Aid>,
    parts: Seq<Seq<char>>,
    n: int,
    way: bool,
)
    requires
        name_laws::all_plain(parts),
        looked_in(files, parts, n),
        parts.len() >= n + 2,
        classes_extend(files, text::join(parts.take(n), "."@), parts[n], way),
    ensures
        mock::class_of(files, text::join(parts.take(n), "."@), parts[n]) == Some(way),
        mock::binds(files, text::join(parts.take(n), "."@), parts[n]),
        parts.skip(n)[0] == parts[n],
        parts.skip(n)[1] == parts[n + 1],
{
    let m = text::join(parts.take(n), "."@);
    lemma_binds(files, m, parts[n]);
    lemma_class_of(files, m, parts[n], way);
}

/// A target that names what a class at the top of a module defines directly is valid.
pub proof fn law_member_of_a_class_is_valid(
    files: Seq<FileIndex>,
    aid: Option<Aid>,
    parts: Seq<Seq<char>>,
    n: int,
    way: bool,
)
    requires
        name_laws::all_plain(parts),
        looked_in(files, parts, n),
        parts.len() == n + 2,
        classes_extend(files, text::join(parts.take(n), "."@), parts[n], way),
        has_member(files, text::join(parts.take(n), "."@), parts[n], parts[n + 1]),
    ensures
        mock::patched(files, aid, Some(text::join(parts, "."@))) is Valid,
{
    let m = text::join(parts.take(n), "."@);
    law_longest_module_decides(files, aid, parts, n);
    lemma_class_at(files, aid, parts, n, way);
    lemma_member_of(files, m, parts[n], parts[n + 1]);
}

/// A target that names what neither a class without bases nor anything above it defines is
/// drifted. Where the class writes a base, the name may be inherited: it is not drifted.
pub proof fn law_missing_member(
    files: Seq<FileIndex>,
    aid: Option<Aid>,
    parts: Seq<Seq<char>>,
    n: int,
    way: bool,
)
    requires
        name_laws::all_plain(parts),
        looked_in(files, parts, n),
        parts.len() >= n + 2,
        classes_extend(files, text::join(parts.take(n), "."@), parts[n], way),
        !has_member(files, text::join(parts.take(n), "."@), parts[n], parts[n + 1]),
        aid is None,
    ensures
        way ==> mock::patched(files, aid, Some(text::join(parts, "."@))) is Unverifiable,
        !way ==> mock::patched(files, aid, Some(text::join(parts, "."@))) is Drifted,
{
    let m = text::join(parts.take(n), "."@);
    law_longest_module_decides(files, aid, parts, n);
    lemma_class_at(files, aid, parts, n, way);
    lemma_member_of(files, m, parts[n], parts[n + 1]);
}

/// A target that names a method which a class inherits from another of the project is valid.
pub proof fn law_inherited_member_is_valid(
    files: Seq<FileIndex>,
    x: Aid,
    parts: Seq<Seq<char>>,
    n: int,
    way: bool,
    base: Seq<char>,
)
    requires
        name_laws::all_plain(parts),
        looked_in(files, parts, n),
        parts.len() == n + 2,
        classes_extend(files, text::join(parts.take(n), "."@), parts[n], way),
        x.hier.supers_of(text::join(parts.take(n), "."@) + "."@ + parts[n]).contains(base),
        text::views(x.hier.methods.list(base)).contains(parts[n + 1]),
    ensures
        mock::patched(files, Some(x), Some(text::join(parts, "."@))) is Valid,
{
    let m = text::join(parts.take(n), "."@);
    law_longest_module_decides(files, Some(x), parts, n);
    lemma_class_at(files, Some(x), parts, n, way);
    let supers = x.hier.supers_of(m + "."@ + parts[n]);
    let k = choose|k: int| 0 <= k < supers.len() && supers[k] == base;
    lemma_with_member(x, supers, parts[n + 1], k);
}

proof fn lemma_with_member(x: Aid, s: Seq<Seq<char>>, member: Seq<char>, k: int)
    requires
        0 <= k < s.len(),
        text::views(x.hier.methods.list(s[k])).contains(member),
    ensures
        crate::hierarchy::with_member(x.hier.methods, s, member).len() > 0,
    decreases s.len(),
{
    if k < s.len() - 1 {
        assert(s.drop_last()[k] == s[k]);
        lemma_with_member(x, s.drop_last(), member, k);
    }
}

/// The texts of the row of a patch.
proof fn lemma_patch_row(files: Seq<FileIndex>, aid: Option<Aid>, path: Seq<char>, m: MockTarget)
    ensures
        ({
            let row = surface_reports::patch_entry(files, aid, path, m).row;
            &&& row.get_text("loc"@) == Some(rows::place(path, m.pos.line, m.pos.col))
            &&& row.get_text("target"@) == surface_reports::target_of(m)
            &&& row.get_text("status"@) == Some(
                mock::patched(files, aid, surface_reports::target_of(m)).tag(),
            )
        }),
{
    reveal_strlit("loc");
    reveal_strlit("label");
    reveal_strlit("target");
    reveal_strlit("status");
    reveal_strlit("group");
    reveal_strlit("cols");
    assert("target"@[0] == 't' && "status"@[0] == 's');
    assert("loc"@.len() == 3 && "label"@.len() == 5 && "group"@.len() == 5 && "cols"@.len() == 4);
    let s = surface_reports::patch_status(files, aid, m);
    let shown = surface_reports::shown_target(m);
    let r0 = JsonView::object();
    assert(json::tidy(r0));
    let v1 = JsonView::Str(rows::place(path, m.pos.line, m.pos.col));
    let r1 = r0.with("loc"@, v1);
    json::lemma_with(r0, "loc"@, v1);
    let v2 = JsonView::Str(
        match surface_reports::reason_of(s) {
            Some(why) => s.tag() + " "@ + shown + " — "@ + why,
            None => s.tag() + " "@ + shown,
        },
    );
    let r2 = r1.with("label"@, v2);
    json::lemma_with(r1, "label"@, v2);
    let v3 = json::text_or_null(surface_reports::target_of(m));
    let r3 = r2.with("target"@, v3);
    json::lemma_with(r2, "target"@, v3);
    let v4 = JsonView::Str(s.tag());
    let r4 = r3.with("status"@, v4);
    json::lemma_with(r3, "status"@, v4);
    let r5 = r4.with("group"@, v4);
    json::lemma_with(r4, "group"@, v4);
    let v6 = json::texts(
        match surface_reports::reason_of(s) {
            Some(why) => seq![shown, why],
            None => seq![shown],
        },
    );
    let r6 = r5.with("cols"@, v6);
    json::lemma_with(r5, "cols"@, v6);
    assert(surface_reports::patch_entry(files, aid, path, m).row == r6);
}

proof fn lemma_patch_entries(
    files: Seq<FileIndex>,
    aid: Option<Aid>,
    some: Seq<FileIndex>,
    i: int,
    k: int,
) -> (p: int)
    requires
        0 <= i < some.len(),
        0 <= k < some[i].mocks@.len(),
    ensures
        0 <= p < surface_reports::patch_entries(files, aid, some).len(),
        surface_reports::patch_entries(files, aid, some)[p] == surface_reports::patch_entry(
            files,
            aid,
            some[i].path@,
            some[i].mocks@[k],
        ),
    decreases some.len(),
{
    let before = surface_reports::patch_entries(files, aid, some.drop_last());
    if i < some.len() - 1 {
        assert(some.drop_last()[i] == some[i]);
        lemma_patch_entries(files, aid, some.drop_last(), i, k)
    } else {
        before.len() + k
    }
}

/// Every patch of the project has a row, with its place, its target, and what became of it.
pub proof fn law_every_patch_has_a_row(
    files: Seq<FileIndex>,
    aid: Option<Aid>,
    i: int,
    k: int,
)
    requires
        0 <= i < files.len(),
        0 <= k < files[i].mocks@.len(),
    ensures
        exists|r: int|
            0 <= r < surface_reports::mock_view(files, aid).results.len() && ({
                let row = #[trigger] surface_reports::mock_view(files, aid).results[r];
                let m = files[i].mocks@[k];
                &&& row.get_text("loc"@) == Some(
                    rows::place(files[i].path@, m.pos.line, m.pos.col),
                )
                &&& row.get_text("target"@) == surface_reports::target_of(m)
                &&& row.get_text("status"@) == Some(
                    mock::patched(files, aid, surface_reports::target_of(m)).tag(),
                )
            }),
{
    let m = files[i].mocks@[k];
    let entries = surface_reports::patch_entries(files, aid, files);
    let p = lemma_patch_entries(files, aid, files, i, k);
    let row = surface_reports::patch_entry(files, aid, files[i].path@, m).row;
    assert(entries[p].row == row);
    rows::lemma_arranged(entries, row);
    lemma_patch_row(files, aid, files[i].path@, m);
    let results = surface_reports::mock_view(files, aid).results;
    assert(results =~= rows::arranged(entries));
    let r = choose|r: int| 0 <= r < results.len() && results[r] == row;
    assert(results[r].get_text("loc"@) == row.get_text("loc"@));
}

proof fn lemma_warned_in(
    files: Seq<FileIndex>,
    aid: Option<Aid>,
    path: Seq<char>,
    mocks: Seq<MockTarget>,
    k: int,
    w: Seq<char>,
)
    requires
        0 <= k < mocks.len(),
        surface_reports::patch_status(files, aid, mocks[k]) is Drifted,
        w == "drifted patch `"@ + surface_reports::shown_target(mocks[k]) + "` ("@ + rows::place(
            path,
            mocks[k].pos.line,
            mocks[k].pos.col,
        ) + ("): "@ + surface_reports::patch_status(files, aid, mocks[k])->Drifted_0),
    ensures
        surface_reports::drift_warnings_in(files, aid, path, mocks).contains(w),
    decreases mocks.len(),
{
    let before = surface_reports::drift_warnings_in(files, aid, path, mocks.drop_last());
    let now = surface_reports::drift_warnings_in(files, aid, path, mocks);
    if k < mocks.len() - 1 {
        assert(mocks.drop_last()[k] == mocks[k]);
        lemma_warned_in(files, aid, path, mocks.drop_last(), k, w);
        let q = choose|q: int| 0 <= q < before.len() && before[q] == w;
        assert(now[q] == w);
    } else {
        assert(now[now.len() - 1] == w);
    }
}

/// Every drifted patch is warned of.
pub proof fn law_drifted_is_warned_of(
    files: Seq<FileIndex>,
    aid: Option<Aid>,
    some: Seq<FileIndex>,
    i: int,
    k: int,
)
    requires
        0 <= i < some.len(),
        0 <= k < some[i].mocks@.len(),
        mock::patched(files, aid, surface_reports::target_of(some[i].mocks@[k])) is Drifted,
    ensures
        surface_reports::drift_warnings(files, aid, some).contains(
            "drifted patch `"@ + surface_reports::shown_target(some[i].mocks@[k]) + "` ("@
                + rows::place(
                some[i].path@,
                some[i].mocks@[k].pos.line,
                some[i].mocks@[k].pos.col,
            ) + ("): "@ + mock::patched(
                files,
                aid,
                surface_reports::target_of(some[i].mocks@[k]),
            )->Drifted_0),
        ),
    decreases some.len(),
{
    let m = some[i].mocks@[k];
    let w = "drifted patch `"@ + surface_reports::shown_target(m) + "` ("@ + rows::place(
        some[i].path@,
        m.pos.line,
        m.pos.col,
    ) + ("): "@ + mock::patched(files, aid, surface_reports::target_of(m))->Drifted_0);
    let less = some.drop_last();
    let f = some.last();
    let before = surface_reports::drift_warnings(files, aid, less);
    let here = surface_reports::drift_warnings_in(files, aid, f.path@, f.mocks@);
    if i < less.len() {
        assert(less[i] == some[i]);
        law_drifted_is_warned_of(files, aid, less, i, k);
        let q = choose|q: int| 0 <= q < before.len() && before[q] == w;
        assert((before + here)[q] == w);
    } else {
        lemma_warned_in(files, aid, f.path@, f.mocks@, k, w);
        let q = choose|q: int| 0 <= q < here.len() && here[q] == w;
        assert((before + here)[before.len() + q] == w);
    }
}

/// A target that goes on behind a member of a class cannot be checked further.
pub proof fn law_nested_member_is_not_checked(
    files: Seq<FileIndex>,
    aid: Option<Aid>,
    parts: Seq<Seq<char>>,
    n: int,
    way: bool,
)
    requires
        name_laws::all_plain(parts),
        looked_in(files, parts, n),
        parts.len() > n + 2,
        classes_extend(files, text::join(parts.take(n), "."@), parts[n], way),
        has_member(files, text::join(parts.take(n), "."@), parts[n], parts[n + 1]),
    ensures
        mock::patched(files, aid, Some(text::join(parts, "."@))) is Unverifiable,
{
    let m = text::join(parts.take(n), "."@);
    law_longest_module_decides(files, aid, parts, n);
    lemma_class_at(files, aid, parts, n, way);
    lemma_member_of(files, m, parts[n], parts[n + 1]);
}

/// A name that Python looks up for every module, one of those that the list of them has
/// between blanks, cannot be checked where the module does not bind it.
pub proof fn law_builtin_is_not_drifted(
    files: Seq<FileIndex>,
    aid: Option<Aid>,
    parts: Seq<Seq<char>>,
    n: int,
    a: Seq<char>,
    b: Seq<char>,
)
    requires
        name_laws::all_plain(parts),
        looked_in(files, parts, n),
        n < parts.len(),
        !has_top(files, text::join(parts.take(n), "."@), parts[n]),
        mock::BUILTINS@ == a.push(' ') + (parts[n].push(' ') + b),
        !parts[n].contains(' '),
    ensures
        mock::patched(files, aid, Some(text::join(parts, "."@))) is Unverifiable,
{
    reveal_strlit(" ");
    let seps = " "@;
    assert(seps[0] == ' ');
    let name = parts[n];
    assert forall|k: int| 0 <= k < name.len() implies !seps.contains(#[trigger] name[k]) by {
        assert(name.contains(name[k]));
    }
    let rest = name.push(' ') + b;
    name_laws::lemma_split_at(a, ' ', rest, seps);
    name_laws::lemma_split_at(name, ' ', b, seps);
    name_laws::lemma_whole(name, seps);
    let all = text::split(mock::BUILTINS@, seps);
    let k = text::split(a, seps).len() as int;
    assert(all[k] == name);
    law_unbound_name_is_drifted(files, aid, parts, n);
}

proof fn lemma_import_in(path: Seq<char>, defs: Seq<Def>, name: Seq<char>, j: int)
    requires
        0 <= j < defs.len(),
        tops(defs[j], name),
        defs[j].kind is Import,
        forall|o: int| j < o < defs.len() && (#[trigger] defs[o]).kind is Import ==> !tops(
            defs[o],
            name,
        ),
    ensures
        mock::import_in(path, defs, name) == Some((path, defs[j].offset)),
    decreases defs.len(),
{
    if j < defs.len() - 1 {
        let less = defs.drop_last();
        assert(defs[defs.len() - 1] == defs.last());
        assert(less[j] == defs[j]);
        assert forall|o: int| j < o < less.len() && (#[trigger] less[o]).kind is Import implies
            !tops(less[o], name) by {
            assert(less[o] == defs[o]);
        }
        lemma_import_in(path, less, name, j);
    }
}

proof fn lemma_import_of(files: Seq<FileIndex>, m: Seq<char>, name: Seq<char>, i: int, j: int)
    requires
        0 <= i < files.len(),
        mock::module_id(files[i].path@) == m,
        forall|o: int|
            0 <= o < files.len() && o != i ==> mock::module_id((#[trigger] files[o]).path@) != m,
        0 <= j < files[i].defs@.len(),
        tops(files[i].defs@[j], name),
        files[i].defs@[j].kind is Import,
        forall|o: int|
            j < o < files[i].defs@.len() && (#[trigger] files[i].defs@[o]).kind is Import ==> !tops(
                files[i].defs@[o],
                name,
            ),
    ensures
        mock::import_of(files, m, name) == Some((files[i].path@, files[i].defs@[j].offset)),
    decreases files.len(),
{
    if i < files.len() - 1 {
        let less = files.drop_last();
        assert(files[files.len() - 1] == files.last());
        assert(less[i] == files[i]);
        assert forall|o: int| 0 <= o < less.len() && o != i implies mock::module_id(
            (#[trigger] less[o]).path@,
        ) != m by {
            assert(less[o] == files[o]);
        }
        lemma_import_of(less, m, name, i, j);
    } else {
        lemma_import_in(files[i].path@, files[i].defs@, name, j);
    }
}

/// A target that goes through what the top of a module imports is as good as what is imported
/// says: valid where it has the member, drifted where it has not, and not to be checked where
/// it cannot tell.
pub proof fn law_member_of_an_import(
    files: Seq<FileIndex>,
    x: Aid,
    parts: Seq<Seq<char>>,
    n: int,
    i: int,
    j: int,
)
    requires
        name_laws::all_plain(parts),
        looked_in(files, parts, n),
        parts.len() == n + 2,
        0 <= i < files.len(),
        mock::module_id(files[i].path@) == text::join(parts.take(n), "."@),
        forall|o: int|
            0 <= o < files.len() && o != i ==> mock::module_id((#[trigger] files[o]).path@)
                != text::join(parts.take(n), "."@),
        0 <= j < files[i].defs@.len(),
        tops(files[i].defs@[j], parts[n]),
        files[i].defs@[j].kind is Import,
        forall|o: int|
            0 <= o < files[i].defs@.len() && o != j ==> !tops(#[trigger] files[i].defs@[o], parts[n]),
    ensures
        ({
            let said = (x.answers.member)(
                (files[i].path@, files[i].defs@[j].offset),
                parts[n + 1],
            );
            let s = mock::patched(files, Some(x), Some(text::join(parts, "."@)));
            &&& said is Present ==> s is Valid
            &&& said is Absent ==> s is Drifted
            &&& said is Unknown ==> s is Unverifiable
        }),
{
    let m = text::join(parts.take(n), "."@);
    let name = parts[n];
    law_longest_module_decides(files, Some(x), parts, n);
    lemma_import_of(files, m, name, i, j);
    lemma_binds_in(files[i].defs@, name);
    assert(has_top(files, m, name)) by {
        assert(tops(files[i].defs@[j], name));
    }
    lemma_binds(files, m, name);
    lemma_no_class_of(files, m, name);
    let chain = parts.skip(n);
    assert(chain.len() == 2 && chain[0] == name && chain[1] == parts[n + 1]);
}

proof fn lemma_no_class_in(defs: Seq<Def>, name: Seq<char>)
    requires
        forall|o: int| 0 <= o < defs.len() && tops(#[trigger] defs[o], name) ==> !(
        defs[o].kind is Class),
    ensures
        mock::class_in(defs, name) is None,
    decreases defs.len(),
{
    if defs.len() > 0 {
        let less = defs.drop_last();
        assert(defs[defs.len() - 1] == defs.last());
        assert forall|o: int| 0 <= o < less.len() && tops(#[trigger] less[o], name) implies !(
        less[o].kind is Class) by {
            assert(less[o] == defs[o]);
        }
        lemma_no_class_in(less, name);
    }
}

proof fn lemma_no_class_of(files: Seq<FileIndex>, m: Seq<char>, name: Seq<char>)
    requires
        forall|i: int, o: int|
            0 <= i < files.len() && mock::module_id(files[i].path@) == m && 0 <= o
                < files[i].defs@.len() && tops(#[trigger] files[i].defs@[o], name) ==> !(
            files[i].defs@[o].kind is Class),
    ensures
        mock::class_of(files, m, name) is None,
    decreases files.len(),
{
    if files.len() > 0 {
        let less = files.drop_last();
        let f = files.last();
        assert(files[files.len() - 1] == f);
        assert forall|i: int, o: int|
            0 <= i < less.len() && mock::module_id(less[i].path@) == m && 0 <= o
                < less[i].defs@.len() && tops(#[trigger] less[i].defs@[o], name) implies !(
        less[i].defs@[o].kind is Class) by {
            assert(files[i].defs@[o] == less[i].defs@[o]);
        }
        lemma_no_class_of(less, m, name);
        if mock::module_id(f.path@) == m {
            assert forall|o: int| 0 <= o < f.defs@.len() && tops(#[trigger] f.defs@[o], name) implies
                !(f.defs@[o].kind is Class) by {
                assert(files[files.len() - 1].defs@[o] == f.defs@[o]);
            }
            lemma_no_class_in(f.defs@, name);
        }
    }
}

/// What becomes of a target goes by names of its own, one for each outcome.
pub proof fn law_outcomes_differ(a: StatusView, b: StatusView)
    requires
        a.tag() == b.tag(),
    ensures
        a is Valid <==> b is Valid,
        a is Drifted <==> b is Drifted,
        a is External <==> b is External,
        a is Dynamic <==> b is Dynamic,
        a is Unverifiable <==> b is Unverifiable,
{
    reveal_strlit("valid");
    reveal_strlit("drifted");
    reveal_strlit("external");
    reveal_strlit("dynamic");
    reveal_strlit("unverifiable");
    assert("valid"@.len() == 5 && "drifted"@.len() == 7 && "external"@.len() == 8
        && "dynamic"@.len() == 7 && "unverifiable"@.len() == 12);
    assert("drifted"@[1] == 'r' && "dynamic"@[1] == 'y');
}

} // verus!
