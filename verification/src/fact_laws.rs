//! What holds of the facts that are read out of a file.
use crate::classify;
use crate::facts::{DefView, EffectView, Facts, ImportView, InputView, MockView, Place, RefView};
use crate::facts;
use crate::lines;
use crate::model::{DefKind, EffectKind, InputKind};
use crate::place_laws;
use crate::syntax::{AliasView, ExprView, FormView, PartView, ShapeView, StmtView, Test};
use crate::syntax;
use crate::text;
use crate::text_laws;
use vstd::prelude::*;

verus! {

/// Whether a scope lies in another.
pub open spec fn inner(scope: Seq<Seq<char>>, outer: Seq<Seq<char>>) -> bool {
    scope.len() >= outer.len() && scope.take(outer.len() as int) == outer
}

/// Whether facts are such as can be found at a place: what is defined or done lies in its
/// scope; in a function nothing happens on import; only outside every scope is a use one of
/// the module, a guard one of the file, an export one of the file; an import in a function
/// or for the type checker does not run on import.
pub open spec fn found_at(f: Facts, c: Place) -> bool {
    &&& forall|i: int|
        0 <= i < f.defs.len() ==> inner((#[trigger] f.defs[i]).container, c.scope)
            && f.defs[i].nested == (f.defs[i].container.len() > 0)
    &&& forall|i: int|
        0 <= i < f.effects.len() ==> inner((#[trigger] f.effects[i]).scope, c.scope) && (
        c.in_function ==> !f.effects[i].import_time)
    &&& forall|i: int|
        0 <= i < f.refs.len() ==> ((#[trigger] f.refs[i]).module_scope ==> c.scope.len() == 0)
    &&& forall|i: int|
        0 <= i < f.imports.len() ==> (c.typing ==> (
        #[trigger] f.imports[i]).context is TypeChecking) && (c.in_function ==> !(
        f.imports[i].context is TopLevel))
    &&& f.guarded ==> c.scope.len() == 0
    &&& f.exported.len() > 0 ==> c.scope.len() == 0
}

proof fn lemma_plus(a: Facts, b: Facts, c: Place)
    requires
        found_at(a, c),
        found_at(b, c),
    ensures
        found_at(a.plus(b), c),
{
    let p = a.plus(b);
    assert forall|i: int| 0 <= i < p.defs.len() implies inner((#[trigger] p.defs[i]).container, c.scope)
        && p.defs[i].nested == (p.defs[i].container.len() > 0) by {
        if i < a.defs.len() {
            assert(p.defs[i] == a.defs[i]);
        } else {
            assert(p.defs[i] == b.defs[i - a.defs.len()]);
        }
    }
    assert forall|i: int| 0 <= i < p.effects.len() implies inner(
        (#[trigger] p.effects[i]).scope,
        c.scope,
    ) && (c.in_function ==> !p.effects[i].import_time) by {
        if i < a.effects.len() {
            assert(p.effects[i] == a.effects[i]);
        } else {
            assert(p.effects[i] == b.effects[i - a.effects.len()]);
        }
    }
    assert forall|i: int|
        0 <= i < p.refs.len() && (#[trigger] p.refs[i]).module_scope implies c.scope.len() == 0 by {
        if i < a.refs.len() {
            assert(p.refs[i] == a.refs[i]);
        } else {
            assert(p.refs[i] == b.refs[i - a.refs.len()]);
        }
    }
    assert forall|i: int| 0 <= i < p.imports.len() implies (c.typing ==> (
    #[trigger] p.imports[i]).context is TypeChecking) && (c.in_function ==> !(
    p.imports[i].context is TopLevel)) by {
        if i < a.imports.len() {
            assert(p.imports[i] == a.imports[i]);
        } else {
            assert(p.imports[i] == b.imports[i - a.imports.len()]);
        }
    }
}

proof fn lemma_self(c: Place)
    ensures
        inner(c.scope, c.scope),
{
    assert(c.scope.take(c.scope.len() as int) =~= c.scope);
}

proof fn lemma_own(c: Place, e: ExprView)
    ensures
        found_at(facts::own_facts(c, e), c),
{
    lemma_self(c);
    let a = match facts::input_of(e) {
        Some((kind, value)) => Facts::of_input(c.input(kind, value, e.start)),
        None => Facts::none(),
    };
    let b = match facts::effect_of(e) {
        Some((kind, detail)) => Facts::of_effect(c.effect(kind, detail, e.start)),
        None => Facts::none(),
    };
    let m = match facts::mock_of(e) {
        Some(target) => Facts::of_mock(
            MockView { target, pos: lines::pos_at(c.source, e.start) },
        ),
        None => Facts::none(),
    };
    let d = match facts::literal(e) {
        Some(t) => if facts::dotted_path(t) {
            Facts::of_dotted(t)
        } else {
            Facts::none()
        },
        None => Facts::none(),
    };
    assert(found_at(a, c));
    assert(found_at(b, c));
    assert(found_at(m, c));
    assert(found_at(d, c));
    lemma_plus(a, b, c);
    lemma_plus(a.plus(b), m, c);
    lemma_plus(a.plus(b).plus(m), d, c);
}

proof fn lemma_ref(c: Place, name: Seq<char>, start: u32, is_call: bool)
    ensures
        found_at(Facts::of_ref(c.use_of(name, start, is_call)), c),
{
}

proof fn lemma_expr(c: Place, e: ExprView)
    ensures
        found_at(facts::expr_facts(c, e), c),
    decreases e,
{
    let own = facts::own_facts(c, e);
    lemma_own(c, e);
    match e.shape {
        ShapeView::Call(f, args, kws) => match f.shape {
            ShapeView::Name(id, _) => {
                let r = Facts::of_ref(c.use_of(id, f.start, true));
                lemma_ref(c, id, f.start, true);
                lemma_exprs(c, args);
                lemma_exprs(c, kws);
                lemma_plus(own, r, c);
                lemma_plus(own.plus(r), facts::exprs_facts(c, args), c);
                lemma_plus(
                    own.plus(r).plus(facts::exprs_facts(c, args)),
                    facts::exprs_facts(c, kws),
                    c,
                );
            },
            _ => {
                lemma_parts(c, e.parts);
                lemma_plus(own, facts::parts_facts(c, e.parts), c);
            },
        },
        ShapeView::Name(id, load) => {
            lemma_parts(c, e.parts);
            let r = Facts::of_ref(c.use_of(id, e.start, false));
            lemma_ref(c, id, e.start, false);
            lemma_plus(own, r, c);
            lemma_plus(own.plus(r), facts::parts_facts(c, e.parts), c);
            lemma_plus(own, facts::parts_facts(c, e.parts), c);
        },
        _ => {
            lemma_parts(c, e.parts);
            lemma_plus(own, facts::parts_facts(c, e.parts), c);
        },
    }
}

proof fn lemma_exprs(c: Place, s: Seq<ExprView>)
    ensures
        found_at(facts::exprs_facts(c, s), c),
    decreases s,
{
    if s.len() > 0 {
        lemma_exprs(c, s.drop_last());
        lemma_expr(c, s[s.len() - 1]);
        lemma_plus(
            facts::exprs_facts(c, s.drop_last()),
            facts::expr_facts(c, s[s.len() - 1]),
            c,
        );
    }
}

proof fn lemma_parts(c: Place, s: Seq<PartView>)
    ensures
        found_at(facts::parts_facts(c, s), c),
    decreases s,
{
    if s.len() > 0 {
        let last = match s[s.len() - 1] {
            PartView::Stmt(x) => facts::stmt_facts(c, x),
            PartView::Expr(x) => facts::expr_facts(c, x),
        };
        lemma_parts(c, s.drop_last());
        match s[s.len() - 1] {
            PartView::Stmt(x) => lemma_stmt(c, x),
            PartView::Expr(x) => lemma_expr(c, x),
        }
        lemma_plus(facts::parts_facts(c, s.drop_last()), last, c);
    }
}

proof fn lemma_stmts(c: Place, s: Seq<StmtView>)
    ensures
        found_at(facts::stmts_facts(c, s), c),
    decreases s,
{
    if s.len() > 0 {
        lemma_stmts(c, s.drop_last());
        lemma_stmt(c, s[s.len() - 1]);
        lemma_plus(
            facts::stmts_facts(c, s.drop_last()),
            facts::stmt_facts(c, s[s.len() - 1]),
            c,
        );
    }
}

proof fn lemma_branches(c: Place, s: Seq<(Option<ExprView>, Seq<StmtView>)>)
    ensures
        found_at(facts::branches_facts(c, s), c),
    decreases s,
{
    if s.len() > 0 {
        let b = s[s.len() - 1];
        let before = facts::branches_facts(c, s.drop_last());
        lemma_branches(c, s.drop_last());
        lemma_stmts(c, b.1);
        match b.0 {
            Some(test) => {
                lemma_expr(c, test);
                lemma_plus(before, facts::expr_facts(c, test), c);
                lemma_plus(
                    before.plus(facts::expr_facts(c, test)),
                    facts::stmts_facts(c, b.1),
                    c,
                );
            },
            None => {
                lemma_plus(before, facts::stmts_facts(c, b.1), c);
            },
        }
    }
}

proof fn lemma_targets(c: Place, targets: Seq<ExprView>)
    ensures
        found_at(facts::target_facts(c, targets), c),
    decreases targets.len(),
{
    if targets.len() > 0 {
        lemma_self(c);
        let before = facts::target_facts(c, targets.drop_last());
        lemma_targets(c, targets.drop_last());
        if let ShapeView::Name(id, _) = targets.last().shape {
            let d = Facts::of_def(c.binding(id, DefKind::Variable, targets.last().start));
            assert(found_at(d, c));
            lemma_plus(before, d, c);
        }
    }
}

proof fn lemma_settings(c: Place, body: Seq<StmtView>)
    ensures
        found_at(facts::settings_facts(c, body), c),
    decreases body.len(),
{
    if body.len() > 0 {
        let before = facts::settings_facts(c, body.drop_last());
        lemma_settings(c, body.drop_last());
        if let FormView::AnnAssign(t) = body.last().form {
            if let ShapeView::Name(id, _) = t.shape {
                let d = Facts::of_input(c.input(InputKind::Setting, id, t.start));
                assert(found_at(d, c));
                lemma_plus(before, d, c);
            }
        }
    }
}

proof fn lemma_import(c: Place, start: u32, list: Seq<AliasView>)
    ensures
        found_at(facts::import_facts(c, start, list), c),
    decreases list.len(),
{
    if list.len() > 0 {
        lemma_self(c);
        let a = list.last();
        let before = facts::import_facts(c, start, list.drop_last());
        lemma_import(c, start, list.drop_last());
        let d = Facts::of_def(
            c.binding(facts::bound_id(a).name, DefKind::Import, facts::bound_id(a).start),
        );
        let i = Facts::of_import(
            ImportView {
                module: a.name.name,
                level: 0,
                names: Seq::empty(),
                context: c.context(),
                pos: lines::pos_at(c.source, start),
            },
        );
        assert(found_at(d, c));
        assert(found_at(i, c));
        lemma_plus(before, d, c);
        lemma_plus(before.plus(d), i, c);
    }
}

proof fn lemma_from_defs(c: Place, list: Seq<AliasView>)
    ensures
        found_at(facts::from_defs(c, list), c),
    decreases list.len(),
{
    if list.len() > 0 {
        lemma_self(c);
        let b = facts::bound_id(list.last());
        let d = Facts::of_def(c.binding(b.name, DefKind::Import, b.start));
        lemma_from_defs(c, list.drop_last());
        assert(found_at(d, c));
        lemma_plus(facts::from_defs(c, list.drop_last()), d, c);
    }
}

proof fn lemma_stmt_own(c: Place, s: StmtView)
    ensures
        found_at(facts::stmt_own(c, s), c),
{
    lemma_self(c);
    match s.form {
        FormView::Function(name, decorators, params, annotation, body) => {
            let d = facts::function_def(c, s, name, decorators, params, annotation, body);
            assert(found_at(Facts::of_def(d), c));
        },
        FormView::Class(name, decorators, bases, body) => {
            let d = Facts::of_def(facts::class_def(c, s, name, decorators, bases, body));
            assert(found_at(d, c));
            lemma_settings(c, body);
            let more = if facts::has_settings(facts::dotted_names(bases)) {
                facts::settings_facts(c, body)
            } else {
                Facts::none()
            };
            assert(found_at(more, c));
            lemma_plus(d, more, c);
        },
        FormView::Assign(targets, value) => {
            lemma_targets(c, targets);
            let t = facts::target_facts(c, targets);
            let m = facts::mapping_facts(c, *value);
            let x = facts::export_facts(c, facts::targets_name(targets, "__all__"@), *value);
            assert(found_at(m, c));
            assert(found_at(x, c));
            lemma_plus(t, m, c);
            lemma_plus(t.plus(m), x, c);
        },
        FormView::Import(list) => {
            lemma_import(c, s.start, list);
        },
        FormView::ImportFrom(module, level, list) => {
            lemma_from_defs(c, list);
            let i = Facts::of_import(
                ImportView {
                    module: match module {
                        Some(m) => m.name,
                        None => Seq::empty(),
                    },
                    level,
                    names: Seq::new(list.len(), |i: int| list[i].name.name),
                    context: c.context(),
                    pos: lines::pos_at(c.source, s.start),
                },
            );
            assert(found_at(i, c));
            lemma_plus(facts::from_defs(c, list), i, c);
        },
        _ => {},
    }
}

/// Facts found further in are such as can be found further out.
proof fn lemma_outer(f: Facts, c: Place, name: Seq<char>, function: bool)
    requires
        found_at(f, c.within(name, function)),
    ensures
        found_at(f, c),
{
    let deep = c.within(name, function);
    let n = c.scope.len() as int;
    assert forall|s: Seq<Seq<char>>| inner(s, deep.scope) implies inner(s, c.scope) by {
        assert(s.take(n) =~= s.take(n + 1).take(n));
        assert(deep.scope.take(n) =~= c.scope);
    }
}

proof fn lemma_stmt(c: Place, s: StmtView)
    ensures
        found_at(facts::stmt_facts(c, s), c),
    decreases s,
{
    let own = facts::stmt_own(c, s);
    lemma_stmt_own(c, s);
    match s.form {
        FormView::Function(name, _, _, _, _) => {
            let deep = facts::parts_facts(c.within(name.name, true), s.parts);
            lemma_parts(c.within(name.name, true), s.parts);
            lemma_outer(deep, c, name.name, true);
            lemma_plus(own, deep, c);
        },
        FormView::Class(name, _, _, _) => {
            let deep = facts::parts_facts(c.within(name.name, false), s.parts);
            lemma_parts(c.within(name.name, false), s.parts);
            lemma_outer(deep, c, name.name, false);
            lemma_plus(own, deep, c);
        },
        FormView::If(test, body, branches) => {
            if facts::type_checking(*test) {
                lemma_expr(c, *test);
                lemma_stmts(c.typed(), body);
                lemma_branches(c, branches);
                let a = facts::expr_facts(c, *test);
                let b = facts::stmts_facts(c.typed(), body);
                assert(found_at(b, c));
                lemma_plus(a, b, c);
                lemma_plus(a.plus(b), facts::branches_facts(c, branches), c);
            } else {
                lemma_parts(c, s.parts);
                lemma_plus(own, facts::parts_facts(c, s.parts), c);
            }
        },
        _ => {
            lemma_parts(c, s.parts);
            lemma_plus(own, facts::parts_facts(c, s.parts), c);
        },
    }
}

/// What is read out of statements is such as can be found at their place.
pub proof fn law_facts_lie_in_their_place(c: Place, s: Seq<StmtView>)
    ensures
        found_at(facts::stmts_facts(c, s), c),
{
    lemma_stmts(c, s);
}

/// All that is read out of the body of a function lies in it: its definitions carry the
/// function in their scope, no effect happens on import, no use is one of the module, and no
/// import runs on import.
pub proof fn law_body_of_a_function(c: Place, name: Seq<char>, s: Seq<PartView>)
    ensures
        ({
            let f = facts::parts_facts(c.within(name, true), s);
            &&& forall|i: int|
                0 <= i < f.defs.len() ==> inner(
                    (#[trigger] f.defs[i]).container,
                    c.scope.push(name),
                ) && f.defs[i].nested
            &&& forall|i: int|
                0 <= i < f.effects.len() ==> inner(
                    (#[trigger] f.effects[i]).scope,
                    c.scope.push(name),
                ) && !f.effects[i].import_time
            &&& forall|i: int| 0 <= i < f.refs.len() ==> !(#[trigger] f.refs[i]).module_scope
            &&& forall|i: int|
                0 <= i < f.imports.len() ==> !((#[trigger] f.imports[i]).context is TopLevel)
            &&& !f.guarded
            &&& f.exported.len() == 0
        }),
{
    lemma_parts(c.within(name, true), s);
}

/// What is imported for the type checker is imported for nothing else.
pub proof fn law_typing_imports_never_run(c: Place, s: Seq<StmtView>)
    ensures
        forall|i: int|
            0 <= i < facts::stmts_facts(c.typed(), s).imports.len() ==> (
            #[trigger] facts::stmts_facts(c.typed(), s).imports[i]).context is TypeChecking,
{
    lemma_stmts(c.typed(), s);
}

/// Whether all of some facts are among others, in order.
pub open spec fn among(a: Facts, b: Facts) -> bool {
    &&& forall|i: int| 0 <= i < a.defs.len() ==> b.defs.contains(#[trigger] a.defs[i])
    &&& forall|i: int| 0 <= i < a.refs.len() ==> b.refs.contains(#[trigger] a.refs[i])
    &&& forall|i: int| 0 <= i < a.inputs.len() ==> b.inputs.contains(#[trigger] a.inputs[i])
    &&& forall|i: int| 0 <= i < a.imports.len() ==> b.imports.contains(#[trigger] a.imports[i])
    &&& forall|i: int| 0 <= i < a.effects.len() ==> b.effects.contains(#[trigger] a.effects[i])
    &&& forall|i: int| 0 <= i < a.mocks.len() ==> b.mocks.contains(#[trigger] a.mocks[i])
    &&& forall|i: int| 0 <= i < a.dotted.len() ==> b.dotted.contains(#[trigger] a.dotted[i])
    &&& forall|i: int|
        0 <= i < a.exported.len() ==> b.exported.contains(#[trigger] a.exported[i])
    &&& a.guarded ==> b.guarded
}

proof fn lemma_in_left<A>(a: Seq<A>, b: Seq<A>)
    ensures
        forall|i: int| 0 <= i < a.len() ==> (a + b).contains(#[trigger] a[i]),
        forall|i: int| 0 <= i < b.len() ==> (a + b).contains(#[trigger] b[i]),
{
    assert forall|i: int| 0 <= i < a.len() implies (a + b).contains(#[trigger] a[i]) by {
        assert((a + b)[i] == a[i]);
    }
    assert forall|i: int| 0 <= i < b.len() implies (a + b).contains(#[trigger] b[i]) by {
        assert((a + b)[a.len() + i] == b[i]);
    }
}

proof fn lemma_among_plus(a: Facts, b: Facts)
    ensures
        among(a, a.plus(b)),
        among(b, a.plus(b)),
{
    lemma_in_left(a.defs, b.defs);
    lemma_in_left(a.refs, b.refs);
    lemma_in_left(a.inputs, b.inputs);
    lemma_in_left(a.imports, b.imports);
    lemma_in_left(a.effects, b.effects);
    lemma_in_left(a.mocks, b.mocks);
    lemma_in_left(a.dotted, b.dotted);
    lemma_in_left(a.exported, b.exported);
}

proof fn lemma_among_chain(a: Facts, b: Facts, c: Facts)
    requires
        among(a, b),
        among(b, c),
    ensures
        among(a, c),
{
    assert forall|i: int| 0 <= i < a.defs.len() implies c.defs.contains(#[trigger] a.defs[i]) by {
        let k = choose|k: int| 0 <= k < b.defs.len() && b.defs[k] == a.defs[i];
        assert(c.defs.contains(b.defs[k]));
    }
    assert forall|i: int| 0 <= i < a.refs.len() implies c.refs.contains(#[trigger] a.refs[i]) by {
        let k = choose|k: int| 0 <= k < b.refs.len() && b.refs[k] == a.refs[i];
        assert(c.refs.contains(b.refs[k]));
    }
    assert forall|i: int| 0 <= i < a.inputs.len() implies c.inputs.contains(
        #[trigger] a.inputs[i],
    ) by {
        let k = choose|k: int| 0 <= k < b.inputs.len() && b.inputs[k] == a.inputs[i];
        assert(c.inputs.contains(b.inputs[k]));
    }
    assert forall|i: int| 0 <= i < a.imports.len() implies c.imports.contains(
        #[trigger] a.imports[i],
    ) by {
        let k = choose|k: int| 0 <= k < b.imports.len() && b.imports[k] == a.imports[i];
        assert(c.imports.contains(b.imports[k]));
    }
    assert forall|i: int| 0 <= i < a.effects.len() implies c.effects.contains(
        #[trigger] a.effects[i],
    ) by {
        let k = choose|k: int| 0 <= k < b.effects.len() && b.effects[k] == a.effects[i];
        assert(c.effects.contains(b.effects[k]));
    }
    assert forall|i: int| 0 <= i < a.mocks.len() implies c.mocks.contains(#[trigger] a.mocks[i]) by {
        let k = choose|k: int| 0 <= k < b.mocks.len() && b.mocks[k] == a.mocks[i];
        assert(c.mocks.contains(b.mocks[k]));
    }
    assert forall|i: int| 0 <= i < a.dotted.len() implies c.dotted.contains(
        #[trigger] a.dotted[i],
    ) by {
        let k = choose|k: int| 0 <= k < b.dotted.len() && b.dotted[k] == a.dotted[i];
        assert(c.dotted.contains(b.dotted[k]));
    }
    assert forall|i: int| 0 <= i < a.exported.len() implies c.exported.contains(
        #[trigger] a.exported[i],
    ) by {
        let k = choose|k: int| 0 <= k < b.exported.len() && b.exported[k] == a.exported[i];
        assert(c.exported.contains(b.exported[k]));
    }
}

/// What a statement shows is among what a list with it shows.
pub proof fn law_no_statement_is_missed(c: Place, s: Seq<StmtView>, i: int)
    requires
        0 <= i < s.len(),
    ensures
        among(facts::stmt_facts(c, s[i]), facts::stmts_facts(c, s)),
    decreases s.len(),
{
    let less = s.drop_last();
    let before = facts::stmts_facts(c, less);
    lemma_among_plus(before, facts::stmt_facts(c, s[s.len() - 1]));
    if i < less.len() {
        assert(less[i] == s[i]);
        law_no_statement_is_missed(c, less, i);
        lemma_among_chain(facts::stmt_facts(c, s[i]), before, facts::stmts_facts(c, s));
    }
}

/// What a statement or an expression shows is among what the parts with it show.
pub proof fn law_no_part_is_missed(c: Place, s: Seq<PartView>, i: int)
    requires
        0 <= i < s.len(),
    ensures
        s[i] matches PartView::Stmt(x) ==> among(
            facts::stmt_facts(c, x),
            facts::parts_facts(c, s),
        ),
        s[i] matches PartView::Expr(x) ==> among(
            facts::expr_facts(c, x),
            facts::parts_facts(c, s),
        ),
    decreases s.len(),
{
    let less = s.drop_last();
    let before = facts::parts_facts(c, less);
    let last = match s[s.len() - 1] {
        PartView::Stmt(x) => facts::stmt_facts(c, x),
        PartView::Expr(x) => facts::expr_facts(c, x),
    };
    lemma_among_plus(before, last);
    if i < less.len() {
        assert(less[i] == s[i]);
        law_no_part_is_missed(c, less, i);
        match s[i] {
            PartView::Stmt(x) => lemma_among_chain(
                facts::stmt_facts(c, x),
                before,
                facts::parts_facts(c, s),
            ),
            PartView::Expr(x) => lemma_among_chain(
                facts::expr_facts(c, x),
                before,
                facts::parts_facts(c, s),
            ),
        }
    }
}

/// Whether a definition is one of a kind and a name at a place.
pub open spec fn defined(
    d: DefView,
    name: Seq<char>,
    kind: DefKind,
    start: u32,
    scope: Seq<Seq<char>>,
) -> bool {
    &&& d.name == name
    &&& d.kind == kind
    &&& d.offset == start
    &&& d.container == scope
    &&& d.nested == (scope.len() > 0)
}

/// A function is defined in the scope that it stands in, and what its body shows is shown in
/// the scope of the function.
pub proof fn law_function_is_defined(c: Place, s: StmtView)
    requires
        s.form is Function,
    ensures
        ({
            let name = s.form->Function_0;
            let f = facts::stmt_facts(c, s);
            &&& f.defs.len() > 0
            &&& defined(f.defs[0], name.name, DefKind::Function, name.start, c.scope)
            &&& f.defs[0].decorated == (s.form->Function_1.len() > 0)
            &&& f.defs[0].decorators.len() == s.form->Function_1.len()
            &&& f.defs[0].signature is Some
            &&& among(facts::parts_facts(c.within(name.name, true), s.parts), f)
        }),
{
    let name = s.form->Function_0;
    lemma_among_plus(
        facts::stmt_own(c, s),
        facts::parts_facts(c.within(name.name, true), s.parts),
    );
}

/// A class is defined in the scope that it stands in, with the bases that it writes as dotted
/// names, and what its body shows is shown in the scope of the class.
pub proof fn law_class_is_defined(c: Place, s: StmtView)
    requires
        s.form is Class,
    ensures
        ({
            let name = s.form->Class_0;
            let f = facts::stmt_facts(c, s);
            &&& f.defs.len() > 0
            &&& defined(f.defs[0], name.name, DefKind::Class, name.start, c.scope)
            &&& f.defs[0].decorated == (s.form->Class_1.len() > 0)
            &&& forall|b: int|
                0 <= b < s.form->Class_2.len() && facts::dotted(
                    #[trigger] s.form->Class_2[b],
                ) is Some ==> f.defs[0].bases.contains(facts::dotted(s.form->Class_2[b])->0)
            &&& among(facts::parts_facts(c.within(name.name, false), s.parts), f)
        }),
{
    let name = s.form->Class_0;
    lemma_among_plus(
        facts::stmt_own(c, s),
        facts::parts_facts(c.within(name.name, false), s.parts),
    );
    assert forall|b: int|
        0 <= b < s.form->Class_2.len() && facts::dotted(
            #[trigger] s.form->Class_2[b],
        ) is Some implies facts::stmt_facts(c, s).defs[0].bases.contains(
        facts::dotted(s.form->Class_2[b])->0,
    ) by {
        lemma_dotted_names(s.form->Class_2, b);
    }
}

proof fn lemma_dotted_names(s: Seq<ExprView>, b: int)
    requires
        0 <= b < s.len(),
        facts::dotted(s[b]) is Some,
    ensures
        facts::dotted_names(s).contains(facts::dotted(s[b])->0),
    decreases s.len(),
{
    let less = s.drop_last();
    let before = facts::dotted_names(less);
    let x = facts::dotted(s[b])->0;
    if b < less.len() {
        assert(less[b] == s[b]);
        lemma_dotted_names(less, b);
        let k = choose|k: int| 0 <= k < before.len() && before[k] == x;
        assert(facts::dotted_names(s)[k] == x);
    } else {
        assert(facts::dotted_names(s)[before.len() as int] == x);
    }
}

/// A function inside another scope is defined in that scope: a method carries its class, a
/// local function the function around it.
pub proof fn law_inner_definition(c: Place, s: StmtView, k: int, t: StmtView)
    requires
        s.form is Function || s.form is Class,
        0 <= k < s.parts.len(),
        s.parts[k] == PartView::Stmt(t),
        t.form is Function,
    ensures
        ({
            let outer = if s.form is Function {
                s.form->Function_0.name
            } else {
                s.form->Class_0.name
            };
            exists|i: int|
                0 <= i < facts::stmt_facts(c, s).defs.len() && defined(
                    #[trigger] facts::stmt_facts(c, s).defs[i],
                    t.form->Function_0.name,
                    DefKind::Function,
                    t.form->Function_0.start,
                    c.scope.push(outer),
                )
        }),
{
    let f = facts::stmt_facts(c, s);
    let outer = if s.form is Function {
        s.form->Function_0.name
    } else {
        s.form->Class_0.name
    };
    let deep = c.within(outer, s.form is Function);
    if s.form is Function {
        law_function_is_defined(c, s);
    } else {
        law_class_is_defined(c, s);
    }
    law_no_part_is_missed(deep, s.parts, k);
    law_function_is_defined(deep, t);
    lemma_among_chain(
        facts::stmt_facts(deep, t),
        facts::parts_facts(deep, s.parts),
        f,
    );
    let d = facts::stmt_facts(deep, t).defs[0];
    assert(f.defs.contains(d));
    let i = choose|i: int| 0 <= i < f.defs.len() && f.defs[i] == d;
    assert(defined(
        f.defs[i],
        t.form->Function_0.name,
        DefKind::Function,
        t.form->Function_0.start,
        c.scope.push(outer),
    ));
}

/// A call by name is a use of the name as a callee, where the name stands; one outside every
/// scope is one of the module.
pub proof fn law_called_name_is_used(c: Place, e: ExprView)
    requires
        e.shape is Call,
        e.shape->Call_0.shape is Name,
    ensures
        facts::expr_facts(c, e).refs.contains(
            (RefView {
                name: e.shape->Call_0.shape->Name_0,
                pos: lines::pos_at(c.source, e.shape->Call_0.start),
                offset: e.shape->Call_0.start,
                is_call: true,
                module_scope: c.scope.len() == 0,
            }),
        ),
{
    let f = e.shape->Call_0;
    let id = f.shape->Name_0;
    let own = facts::own_facts(c, e);
    let r = Facts::of_ref(c.use_of(id, f.start, true));
    let a = facts::exprs_facts(c, e.shape->Call_1);
    let k = facts::exprs_facts(c, e.shape->Call_2);
    let all = own.plus(r).plus(a).plus(k);
    let x = c.use_of(id, f.start, true);
    let at = own.refs.len() as int;
    assert(r.refs[0] == x);
    assert(all.refs[at] == x);
}

/// A name that is read is a use of it, and no call.
pub proof fn law_read_name_is_used(c: Place, e: ExprView)
    requires
        e.shape is Name,
        e.shape->Name_1,
    ensures
        facts::expr_facts(c, e).refs.contains(
            (RefView {
                name: e.shape->Name_0,
                pos: lines::pos_at(c.source, e.start),
                offset: e.start,
                is_call: false,
                module_scope: c.scope.len() == 0,
            }),
        ),
{
    let own = facts::own_facts(c, e);
    let x = c.use_of(e.shape->Name_0, e.start, false);
    let r = Facts::of_ref(x);
    let all = own.plus(r).plus(facts::parts_facts(c, e.parts));
    assert(r.refs[0] == x);
    assert(all.refs[own.refs.len() as int] == x);
}

proof fn lemma_own_among(c: Place, e: ExprView)
    ensures
        among(facts::own_facts(c, e), facts::expr_facts(c, e)),
{
    let own = facts::own_facts(c, e);
    match e.shape {
        ShapeView::Call(f, args, kws) => match f.shape {
            ShapeView::Name(id, _) => {
                let r = Facts::of_ref(c.use_of(id, f.start, true));
                let a = facts::exprs_facts(c, args);
                let k = facts::exprs_facts(c, kws);
                lemma_among_plus(own, r);
                lemma_among_plus(own.plus(r), a);
                lemma_among_plus(own.plus(r).plus(a), k);
                lemma_among_chain(own, own.plus(r), own.plus(r).plus(a));
                lemma_among_chain(own, own.plus(r).plus(a), own.plus(r).plus(a).plus(k));
            },
            _ => {
                lemma_among_plus(own, facts::parts_facts(c, e.parts));
            },
        },
        ShapeView::Name(id, load) => {
            let r = Facts::of_ref(c.use_of(id, e.start, false));
            let p = facts::parts_facts(c, e.parts);
            lemma_among_plus(own, r);
            lemma_among_plus(own.plus(r), p);
            lemma_among_chain(own, own.plus(r), own.plus(r).plus(p));
            lemma_among_plus(own, p);
        },
        _ => {
            lemma_among_plus(own, facts::parts_facts(c, e.parts));
        },
    }
}

/// A call of something that is known to have an effect has it: of that kind, at its place, in
/// the scope around it, on import just where it stands in no function.
pub proof fn law_call_has_its_effect(c: Place, e: ExprView, callee: Seq<char>, kind: EffectKind)
    requires
        e.shape is Call,
        facts::dotted(*e.shape->Call_0) == Some(callee),
        classify::classified(callee) == Some(kind),
    ensures
        facts::expr_facts(c, e).effects.contains(
            (EffectView {
                kind,
                detail: callee,
                pos: lines::pos_at(c.source, e.start),
                scope: c.scope,
                import_time: !c.in_function,
            }),
        ),
{
    lemma_own_among(c, e);
    let own = facts::own_facts(c, e);
    let x = c.effect(kind, callee, e.start);
    assert(own.effects =~= seq![x]);
    assert(own.effects[0] == x);
    assert(facts::expr_facts(c, e).effects.contains(own.effects[0]));
}

/// Whether an environment variable is read at a place: by a literal name, or by one that is
/// computed.
pub open spec fn reads_variable(f: Facts, c: Place, e: ExprView, name: Option<Seq<char>>) -> bool {
    f.inputs.contains(
        (InputView {
            kind: InputKind::Env,
            value: match name {
                Some(n) => n,
                None => "<dynamic>"@,
            },
            pos: lines::pos_at(c.source, e.start),
        }),
    )
}

/// An item of `environ`, whatever stands before it, is an input from the environment, and an
/// effect on it.
pub proof fn law_item_of_environ_is_an_input(c: Place, e: ExprView, before: Seq<char>)
    requires
        e.shape is Subscript,
        facts::dotted(*e.shape->Subscript_0) == Some("environ"@) || facts::dotted(
            *e.shape->Subscript_0,
        ) == Some(before + ".environ"@),
    ensures
        reads_variable(facts::expr_facts(c, e), c, e, facts::literal(*e.shape->Subscript_1)),
        exists|i: int|
            0 <= i < facts::expr_facts(c, e).effects.len() && (
            #[trigger] facts::expr_facts(c, e).effects[i]).kind is Env
                && facts::expr_facts(c, e).effects[i].scope == c.scope,
{
    let v = facts::dotted(*e.shape->Subscript_0);
    lemma_tail(before, ".environ"@);
    assert(classify::environment(v));
    lemma_own_among(c, e);
    let own = facts::own_facts(c, e);
    let x = c.input(
        InputKind::Env,
        facts::or_dynamic(facts::literal(*e.shape->Subscript_1)),
        e.start,
    );
    assert(own.inputs =~= seq![x]);
    assert(own.inputs[0] == x);
    let y = c.effect(EffectKind::Env, v->0, e.start);
    assert(own.effects =~= seq![y]);
    assert(own.effects[0] == y);
    let all = facts::expr_facts(c, e);
    assert(all.effects.contains(own.effects[0]));
    let i = choose|i: int| 0 <= i < all.effects.len() && all.effects[i] == y;
    assert(all.effects[i].kind is Env);
}

proof fn lemma_tail(p: Seq<char>, t: Seq<char>)
    ensures
        text::ends(p + t, t),
{
    let s = p + t;
    assert(s.subrange(s.len() - t.len(), s.len() as int) =~= t);
}

/// A test for a name in `environ`, or for none, is an input from the environment.
pub proof fn law_test_of_environ_is_an_input(c: Place, e: ExprView, before: Seq<char>)
    requires
        e.shape is Compare,
        e.shape->Compare_1 == Test::In || e.shape->Compare_1 == Test::NotIn,
        e.shape->Compare_2.len() > 0,
        facts::dotted(e.shape->Compare_2[0]) == Some("environ"@) || facts::dotted(
            e.shape->Compare_2[0],
        ) == Some(before + ".environ"@),
    ensures
        reads_variable(facts::expr_facts(c, e), c, e, facts::literal(*e.shape->Compare_0)),
{
    lemma_tail(before, ".environ"@);
    lemma_own_among(c, e);
    let own = facts::own_facts(c, e);
    let x = c.input(
        InputKind::Env,
        facts::or_dynamic(facts::literal(*e.shape->Compare_0)),
        e.start,
    );
    assert(own.inputs =~= seq![x]);
    assert(own.inputs[0] == x);
}

/// A call of `getenv`, or of `get` or `setdefault` of `environ`, is an input from the
/// environment, by the name that is its first argument.
pub proof fn law_call_on_environ_is_an_input(
    c: Place,
    e: ExprView,
    before: Seq<char>,
    callee: Seq<char>,
)
    requires
        e.shape is Call,
        facts::dotted(*e.shape->Call_0) == Some(callee),
        callee == "getenv"@ || callee == before + ".getenv"@ || callee == before
            + "environ.get"@ || callee == before + "environ.setdefault"@,
    ensures
        reads_variable(
            facts::expr_facts(c, e),
            c,
            e,
            if e.shape->Call_1.len() > 0 {
                facts::literal(e.shape->Call_1[0])
            } else {
                None
            },
        ),
{
    lemma_tail(before, ".getenv"@);
    lemma_tail(before, "environ.get"@);
    lemma_tail(before, "environ.setdefault"@);
    lemma_own_among(c, e);
    let own = facts::own_facts(c, e);
    let x = c.input(
        InputKind::Env,
        facts::or_dynamic(facts::first_literal(e.shape->Call_1)),
        e.start,
    );
    assert(own.inputs =~= seq![x]);
    assert(own.inputs[0] == x);
}

/// A file opened by a literal path is an input from it.
pub proof fn law_opened_file_is_an_input(c: Place, e: ExprView, path: Seq<char>)
    requires
        e.shape is Call,
        facts::dotted(*e.shape->Call_0) == Some("open"@) || facts::dotted(*e.shape->Call_0)
            == Some("io.open"@),
        e.shape->Call_1.len() > 0,
        facts::literal(e.shape->Call_1[0]) == Some(path),
    ensures
        facts::expr_facts(c, e).inputs.contains(
            (InputView {
                kind: InputKind::File,
                value: path,
                pos: lines::pos_at(c.source, e.start),
            }),
        ),
{
    reveal_strlit("open");
    reveal_strlit("io.open");
    reveal_strlit("getenv");
    reveal_strlit(".getenv");
    reveal_strlit("environ.get");
    reveal_strlit("environ.setdefault");
    let callee = facts::dotted(*e.shape->Call_0)->0;
    assert(callee.last() == 'n');
    assert(!classify::reads_env(callee)) by {
        if text::ends(callee, ".getenv"@) {
            let n = callee.len() as int;
            assert(callee.subrange(n - 7, n)[6] == callee[n - 1]);
            assert(".getenv"@[6] == 'v');
        }
        assert("getenv"@[5] == 'v');
    }
    assert(!text::ends(callee, "environ.get"@)) by {
        assert("environ.get"@.len() == 11);
    }
    assert(!text::ends(callee, "environ.setdefault"@)) by {
        assert("environ.setdefault"@.len() == 18);
    }
    lemma_own_among(c, e);
    let own = facts::own_facts(c, e);
    let x = c.input(InputKind::File, path, e.start);
    assert(facts::first_literal(e.shape->Call_1) == Some(path));
    assert(own.inputs =~= seq![x]);
    assert(own.inputs[0] == x);
}

/// A call of `patch`, of `mock.patch` whatever stands before it, or of `mocker.patch` is one of
/// a target: its first argument where that is a string.
pub proof fn law_patch_is_found(c: Place, e: ExprView, before: Seq<char>, callee: Seq<char>)
    requires
        e.shape is Call,
        facts::dotted(*e.shape->Call_0) == Some(callee),
        callee == "patch"@ || callee == "mock.patch"@ || callee == "mocker.patch"@ || callee
            == before + ".mock.patch"@,
    ensures
        facts::expr_facts(c, e).mocks.contains(
            (MockView {
                target: if e.shape->Call_1.len() > 0 {
                    facts::literal(e.shape->Call_1[0])
                } else {
                    None
                },
                pos: lines::pos_at(c.source, e.start),
            }),
        ),
{
    lemma_tail(before, ".mock.patch"@);
    lemma_own_among(c, e);
    let own = facts::own_facts(c, e);
    let x = MockView {
        target: facts::first_literal(e.shape->Call_1),
        pos: lines::pos_at(c.source, e.start),
    };
    assert(own.mocks =~= seq![x]);
    assert(own.mocks[0] == x);
}

/// A `from` import binds each name that it takes, under its other name where it gives one,
/// and is recorded with its module, its dots and the names as they are called there. It runs
/// when its place does.
pub proof fn law_from_import(c: Place, s: StmtView, k: int)
    requires
        s.form is ImportFrom,
        0 <= k < s.form->ImportFrom_2.len(),
    ensures
        ({
            let list = s.form->ImportFrom_2;
            let f = facts::stmt_facts(c, s);
            let bound = match list[k].asname {
                Some(n) => n,
                None => list[k].name,
            };
            &&& exists|i: int|
                0 <= i < f.defs.len() && defined(
                    #[trigger] f.defs[i],
                    bound.name,
                    DefKind::Import,
                    bound.start,
                    c.scope,
                )
            &&& exists|i: int|
                0 <= i < f.imports.len() && (#[trigger] f.imports[i]).level
                    == s.form->ImportFrom_1 && f.imports[i].names.len() == list.len()
                    && f.imports[i].names[k] == list[k].name.name && f.imports[i].context
                    == c.context() && f.imports[i].module == (match s.form->ImportFrom_0 {
                    Some(m) => m.name,
                    None => Seq::<char>::empty(),
                })
        }),
{
    let list = s.form->ImportFrom_2;
    let f = facts::stmt_facts(c, s);
    let own = facts::stmt_own(c, s);
    let bound = facts::bound_id(list[k]);
    lemma_among_plus(own, facts::parts_facts(c, s.parts));
    let d = c.binding(bound.name, DefKind::Import, bound.start);
    lemma_from_def(c, list, k);
    let defs = facts::from_defs(c, list).defs;
    let q = choose|q: int| 0 <= q < defs.len() && defs[q] == d;
    assert(own.defs[q] == d);
    assert(f.defs.contains(own.defs[q]));
    let i = choose|i: int| 0 <= i < f.defs.len() && f.defs[i] == d;
    assert(defined(f.defs[i], bound.name, DefKind::Import, bound.start, c.scope));
    let at = facts::from_defs(c, list).imports.len() as int;
    let x = own.imports[at];
    assert(f.imports.contains(own.imports[at]));
    let p = choose|p: int| 0 <= p < f.imports.len() && f.imports[p] == x;
    assert(f.imports[p].level == s.form->ImportFrom_1);
}

proof fn lemma_from_def(c: Place, list: Seq<AliasView>, k: int)
    requires
        0 <= k < list.len(),
    ensures
        facts::from_defs(c, list).defs.contains(
            c.binding(
                facts::bound_id(list[k]).name,
                DefKind::Import,
                facts::bound_id(list[k]).start,
            ),
        ),
    decreases list.len(),
{
    let less = list.drop_last();
    let before = facts::from_defs(c, less);
    let b = facts::bound_id(list.last());
    let now = facts::from_defs(c, list);
    let x = c.binding(
        facts::bound_id(list[k]).name,
        DefKind::Import,
        facts::bound_id(list[k]).start,
    );
    if k < less.len() {
        assert(less[k] == list[k]);
        lemma_from_def(c, less, k);
        let q = choose|q: int| 0 <= q < before.defs.len() && before.defs[q] == x;
        assert(now.defs[q] == x);
    } else {
        assert(now.defs[before.defs.len() as int] == x);
    }
}

/// An import of modules binds each, under its other name where it gives one, and is recorded
/// by the name of the module.
pub proof fn law_plain_import(c: Place, s: StmtView, k: int)
    requires
        s.form is Import,
        0 <= k < s.form->Import_0.len(),
    ensures
        ({
            let a = s.form->Import_0[k];
            let f = facts::stmt_facts(c, s);
            let bound = match a.asname {
                Some(n) => n,
                None => a.name,
            };
            &&& exists|i: int|
                0 <= i < f.defs.len() && defined(
                    #[trigger] f.defs[i],
                    bound.name,
                    DefKind::Import,
                    bound.start,
                    c.scope,
                )
            &&& exists|i: int|
                0 <= i < f.imports.len() && (#[trigger] f.imports[i]).module == a.name.name
                    && f.imports[i].level == 0 && f.imports[i].context == c.context()
        }),
{
    let list = s.form->Import_0;
    let a = list[k];
    let f = facts::stmt_facts(c, s);
    let own = facts::stmt_own(c, s);
    let bound = facts::bound_id(a);
    lemma_among_plus(own, facts::parts_facts(c, s.parts));
    lemma_import_def(c, s.start, list, k);
    let d = c.binding(bound.name, DefKind::Import, bound.start);
    let q = choose|q: int| 0 <= q < own.defs.len() && own.defs[q] == d;
    assert(f.defs.contains(own.defs[q]));
    let i = choose|i: int| 0 <= i < f.defs.len() && f.defs[i] == d;
    assert(defined(f.defs[i], bound.name, DefKind::Import, bound.start, c.scope));
    let x = ImportView {
        module: a.name.name,
        level: 0,
        names: Seq::empty(),
        context: c.context(),
        pos: lines::pos_at(c.source, s.start),
    };
    let r = choose|r: int| 0 <= r < own.imports.len() && own.imports[r] == x;
    assert(f.imports.contains(own.imports[r]));
    let p = choose|p: int| 0 <= p < f.imports.len() && f.imports[p] == x;
    assert(f.imports[p].module == a.name.name);
}

proof fn lemma_import_def(c: Place, start: u32, list: Seq<AliasView>, k: int)
    requires
        0 <= k < list.len(),
    ensures
        facts::import_facts(c, start, list).defs.contains(
            c.binding(
                facts::bound_id(list[k]).name,
                DefKind::Import,
                facts::bound_id(list[k]).start,
            ),
        ),
        facts::import_facts(c, start, list).imports.contains(
            (ImportView {
                module: list[k].name.name,
                level: 0,
                names: Seq::empty(),
                context: c.context(),
                pos: lines::pos_at(c.source, start),
            }),
        ),
    decreases list.len(),
{
    let less = list.drop_last();
    let before = facts::import_facts(c, start, less);
    let now = facts::import_facts(c, start, list);
    let x = c.binding(
        facts::bound_id(list[k]).name,
        DefKind::Import,
        facts::bound_id(list[k]).start,
    );
    let y = ImportView {
        module: list[k].name.name,
        level: 0,
        names: Seq::empty(),
        context: c.context(),
        pos: lines::pos_at(c.source, start),
    };
    if k < less.len() {
        assert(less[k] == list[k]);
        lemma_import_def(c, start, less, k);
        let q = choose|q: int| 0 <= q < before.defs.len() && before.defs[q] == x;
        assert(now.defs[q] == x);
        let r = choose|r: int| 0 <= r < before.imports.len() && before.imports[r] == y;
        assert(now.imports[r] == y);
    } else {
        assert(now.defs[before.defs.len() as int] == x);
        assert(now.imports[before.imports.len() as int] == y);
    }
}

/// When an import runs: never where it stands under `if TYPE_CHECKING:`, else not on import
/// where it stands in a function, else on import.
pub proof fn law_import_context(c: Place, name: Seq<char>)
    ensures
        c.typed().context() is TypeChecking,
        !c.typing ==> c.within(name, true).context() is Deferred,
        c.within(name, false).context() == c.context(),
        !c.typing && !c.in_function ==> c.context() is TopLevel,
{
}

/// What stands under `if TYPE_CHECKING:` is for the type checker; what stands in its other
/// branches is not.
pub proof fn law_type_checking_block(c: Place, s: StmtView, before: Seq<char>, k: int)
    requires
        s.form is If,
        facts::dotted(*s.form->If_0) == Some("TYPE_CHECKING"@) || facts::dotted(*s.form->If_0)
            == Some(before + ".TYPE_CHECKING"@),
    ensures
        among(facts::stmts_facts(c.typed(), s.form->If_1), facts::stmt_facts(c, s)),
        0 <= k < s.form->If_2.len() ==> among(
            facts::stmts_facts(c, s.form->If_2[k].1),
            facts::stmt_facts(c, s),
        ),
{
    lemma_tail(before, ".TYPE_CHECKING"@);
    let t = facts::expr_facts(c, *s.form->If_0);
    let b = facts::stmts_facts(c.typed(), s.form->If_1);
    let r = facts::branches_facts(c, s.form->If_2);
    lemma_among_plus(t, b);
    lemma_among_plus(t.plus(b), r);
    lemma_among_chain(b, t.plus(b), t.plus(b).plus(r));
    if 0 <= k < s.form->If_2.len() {
        lemma_branch(c, s.form->If_2, k);
        lemma_among_chain(facts::stmts_facts(c, s.form->If_2[k].1), r, t.plus(b).plus(r));
    }
}

proof fn lemma_branch(c: Place, s: Seq<(Option<ExprView>, Seq<StmtView>)>, k: int)
    requires
        0 <= k < s.len(),
    ensures
        among(facts::stmts_facts(c, s[k].1), facts::branches_facts(c, s)),
    decreases s.len(),
{
    let less = s.drop_last();
    let b = s[s.len() - 1];
    let before = facts::branches_facts(c, less);
    let now = facts::branches_facts(c, s);
    let body = facts::stmts_facts(c, b.1);
    match b.0 {
        Some(test) => {
            let e = facts::expr_facts(c, test);
            lemma_among_plus(before, e);
            lemma_among_plus(before.plus(e), body);
            lemma_among_chain(before, before.plus(e), now);
        },
        None => {
            lemma_among_plus(before, body);
        },
    }
    if k < less.len() {
        assert(less[k] == s[k]);
        lemma_branch(c, less, k);
        lemma_among_chain(facts::stmts_facts(c, s[k].1), before, now);
    }
}

/// A block that runs where the file is run on its own marks the file, where it stands outside
/// every scope: `if __name__ == "__main__":`, or the two the other way round.
pub proof fn law_main_guard(c: Place, s: StmtView)
    requires
        s.form is If,
        s.form->If_0.shape is Compare,
        s.form->If_0.shape->Compare_1 == Test::Equality,
        s.form->If_0.shape->Compare_2.len() > 0,
        (facts::is_name(*s.form->If_0.shape->Compare_0, "__name__"@) && facts::literal(
            s.form->If_0.shape->Compare_2[0],
        ) == Some("__main__"@)) || (facts::literal(*s.form->If_0.shape->Compare_0) == Some(
            "__main__"@,
        ) && facts::is_name(s.form->If_0.shape->Compare_2[0], "__name__"@)),
    ensures
        c.scope.len() == 0 ==> facts::stmt_facts(c, s).guarded,
{
}

/// The names of a top-level `__all__` that is assigned or added to are exported.
pub proof fn law_all_is_exported(c: Place, s: StmtView, items: Seq<ExprView>, k: int, name: Seq<char>)
    requires
        c.scope.len() == 0,
        (s.form is AugAssign && facts::is_name(*s.form->AugAssign_0, "__all__"@)
            && s.form->AugAssign_1.shape == ShapeView::Items(items)) || (s.form is Assign
            && s.form->Assign_0.len() == 1 && facts::is_name(s.form->Assign_0[0], "__all__"@)
            && s.form->Assign_1.shape == ShapeView::Items(items)),
        0 <= k < items.len(),
        facts::literal(items[k]) == Some(name),
    ensures
        facts::stmt_facts(c, s).exported.contains(name),
{
    let own = facts::stmt_own(c, s);
    lemma_among_plus(own, facts::parts_facts(c, s.parts));
    lemma_literals(items, k);
    let all = facts::literals(items);
    let q = choose|q: int| 0 <= q < all.len() && all[q] == name;
    if s.form is Assign {
        let t = s.form->Assign_0;
        assert(facts::targets_name(t, "__all__"@)) by {
            assert(t.last() == t[0]);
        }
        lemma_target_exports(c, t);
        assert(own.exported =~= all) by {
            assert(facts::mapping_facts(c, *s.form->Assign_1).exported =~= Seq::empty());
        }
    } else {
        assert(own.exported =~= all);
    }
    assert(facts::stmt_facts(c, s).exported.contains(own.exported[q]));
}

proof fn lemma_target_exports(c: Place, t: Seq<ExprView>)
    ensures
        facts::target_facts(c, t).exported =~= Seq::<Seq<char>>::empty(),
    decreases t.len(),
{
    if t.len() > 0 {
        lemma_target_exports(c, t.drop_last());
    }
}

proof fn lemma_literals(s: Seq<ExprView>, k: int)
    requires
        0 <= k < s.len(),
        facts::literal(s[k]) is Some,
    ensures
        facts::literals(s).contains(facts::literal(s[k])->0),
    decreases s.len(),
{
    let less = s.drop_last();
    let before = facts::literals(less);
    let x = facts::literal(s[k])->0;
    if k < less.len() {
        assert(less[k] == s[k]);
        lemma_literals(less, k);
        let q = choose|q: int| 0 <= q < before.len() && before[q] == x;
        assert(facts::literals(s)[q] == x);
    } else {
        assert(facts::literals(s)[before.len() as int] == x);
    }
}

/// An option is called after the longest of its names that begins with two dashes; of two of
/// one length, the later.
pub proof fn law_option_is_its_longest_flag(list: Seq<Seq<char>>, k: int)
    requires
        0 <= k < list.len(),
        text::starts(list[k], "--"@),
    ensures
        facts::longest_flag(list) is Some,
        list.contains(facts::longest_flag(list)->0),
        text::starts(facts::longest_flag(list)->0, "--"@),
        syntax::byte_len(list[k]) <= syntax::byte_len(facts::longest_flag(list)->0),
    decreases list.len(),
{
    let less = list.drop_last();
    if k < less.len() {
        assert(less[k] == list[k]);
        law_option_is_its_longest_flag(less, k);
        let b = facts::longest_flag(less)->0;
        let q = choose|q: int| 0 <= q < less.len() && less[q] == b;
        assert(list[q] == b);
        assert(list[list.len() - 1] == list.last());
    } else {
        assert(list[list.len() - 1] == list.last());
        if facts::longest_flag(less) is Some && !(syntax::byte_len(facts::longest_flag(less)->0)
            <= syntax::byte_len(list.last())) {
            lemma_flag_from(less);
            let b = facts::longest_flag(less)->0;
            let q = choose|q: int| 0 <= q < less.len() && less[q] == b;
            assert(list[q] == b);
        }
    }
}

proof fn lemma_flag_from(list: Seq<Seq<char>>)
    requires
        facts::longest_flag(list) is Some,
    ensures
        list.contains(facts::longest_flag(list)->0),
        text::starts(facts::longest_flag(list)->0, "--"@),
    decreases list.len(),
{
    if list.len() > 0 {
        let less = list.drop_last();
        assert(list[list.len() - 1] == list.last());
        if facts::longest_flag(list) == facts::longest_flag(less) && facts::longest_flag(
            less,
        ) is Some {
            lemma_flag_from(less);
            let b = facts::longest_flag(less)->0;
            let q = choose|q: int| 0 <= q < less.len() && less[q] == b;
            assert(list[q] == b);
        }
    }
}

proof fn lemma_has_settings(names: Seq<Seq<char>>, k: int)
    requires
        0 <= k < names.len(),
        text::ends(names[k], "BaseSettings"@),
    ensures
        facts::has_settings(names),
    decreases names.len(),
{
    if k < names.len() - 1 {
        assert(names.drop_last()[k] == names[k]);
        lemma_has_settings(names.drop_last(), k);
    }
}

proof fn lemma_fields(c: Place, body: Seq<StmtView>, k: int)
    requires
        0 <= k < body.len(),
        body[k].form is AnnAssign,
        body[k].form->AnnAssign_0.shape is Name,
    ensures
        facts::settings_facts(c, body).inputs.contains(
            c.input(
                InputKind::Setting,
                body[k].form->AnnAssign_0.shape->Name_0,
                body[k].form->AnnAssign_0.start,
            ),
        ),
    decreases body.len(),
{
    let less = body.drop_last();
    let before = facts::settings_facts(c, less);
    let t = body[k].form->AnnAssign_0;
    let x = c.input(InputKind::Setting, t.shape->Name_0, t.start);
    if k < less.len() {
        assert(less[k] == body[k]);
        lemma_fields(c, less, k);
        let i = choose|i: int| 0 <= i < before.inputs.len() && before.inputs[i] == x;
        assert(facts::settings_facts(c, body).inputs[i] == x);
    } else {
        let now = facts::settings_facts(c, body).inputs;
        assert(now[before.inputs.len() as int] == x);
    }
}

/// Each annotated field of a class of settings is an input of its name.
pub proof fn law_fields_of_settings_are_inputs(c: Place, s: StmtView, b: int, k: int)
    requires
        s.form is Class,
        0 <= b < s.form->Class_2.len(),
        facts::dotted(s.form->Class_2[b]) is Some,
        text::ends(facts::dotted(s.form->Class_2[b])->0, "BaseSettings"@),
        0 <= k < s.form->Class_3.len(),
        s.form->Class_3[k].form is AnnAssign,
        s.form->Class_3[k].form->AnnAssign_0.shape is Name,
    ensures
        facts::stmt_facts(c, s).inputs.contains(
            (InputView {
                kind: InputKind::Setting,
                value: s.form->Class_3[k].form->AnnAssign_0.shape->Name_0,
                pos: lines::pos_at(c.source, s.form->Class_3[k].form->AnnAssign_0.start),
            }),
        ),
{
    let bases = facts::dotted_names(s.form->Class_2);
    lemma_dotted_names(s.form->Class_2, b);
    let i = choose|i: int|
        0 <= i < bases.len() && bases[i] == facts::dotted(s.form->Class_2[b])->0;
    lemma_has_settings(bases, i);
    lemma_fields(c, s.form->Class_3, k);
    let t = s.form->Class_3[k].form->AnnAssign_0;
    let x = c.input(InputKind::Setting, t.shape->Name_0, t.start);
    let name = s.form->Class_0;
    let own = facts::stmt_own(c, s);
    let fields = facts::settings_facts(c, s.form->Class_3).inputs;
    let m = choose|m: int| 0 <= m < fields.len() && fields[m] == x;
    assert(own.inputs =~= Seq::<InputView>::empty() + fields);
    assert(own.inputs[m] == x);
    lemma_among_plus(own, facts::parts_facts(c.within(name.name, false), s.parts));
    assert(facts::stmt_facts(c, s).inputs.contains(own.inputs[m]));
}

/// The doc line of a function is the first line of the string that its body starts with; white
/// space around the string does not count.
pub proof fn law_doc_line(
    c: Place,
    s: StmtView,
    before: Seq<char>,
    line: Seq<char>,
    rest: Seq<char>,
    behind: Seq<char>,
)
    requires
        s.form is Function,
        s.form->Function_4.len() > 0,
        s.form->Function_4[0].form is Value,
        facts::literal(*s.form->Function_4[0].form->Value_0) == Some(
            before + (if rest.len() > 0 {
                line.push('\n') + rest
            } else {
                line
            }) + behind,
        ),
        forall|k: int| 0 <= k < before.len() ==> text::white_space(#[trigger] before[k]),
        forall|k: int| 0 <= k < behind.len() ==> text::white_space(#[trigger] behind[k]),
        line.len() > 0,
        !line.contains('\n'),
        !text::white_space(line[0]),
        !text::white_space(line.last()),
        rest.len() > 0 ==> !text::white_space(rest.last()),
    ensures
        facts::stmt_facts(c, s).defs.len() > 0,
        facts::stmt_facts(c, s).defs[0].doc == Some(line),
{
    let t = facts::literal(*s.form->Function_4[0].form->Value_0)->0;
    text_laws::law_trim_leaves_the_rest(line);
    if rest.len() > 0 {
        let core = line.push('\n') + rest;
        assert(core[0] == line[0]);
        assert(core.last() == rest.last());
        text_laws::law_trim(before, core, behind);
        place_laws::law_first_line(line, rest);
        let all = text::lines(core);
        assert(all[0] == line);
    } else {
        text_laws::law_trim(before, line, behind);
        place_laws::law_only_line(line);
        assert(text::lines(line)[0] == line);
    }
    law_function_is_defined(c, s);
}

proof fn lemma_target_bound(c: Place, targets: Seq<ExprView>, k: int)
    requires
        0 <= k < targets.len(),
        targets[k].shape is Name,
    ensures
        facts::target_facts(c, targets).defs.contains(
            c.binding(targets[k].shape->Name_0, DefKind::Variable, targets[k].start),
        ),
    decreases targets.len(),
{
    let less = targets.drop_last();
    let before = facts::target_facts(c, less).defs;
    let now = facts::target_facts(c, targets).defs;
    let x = c.binding(targets[k].shape->Name_0, DefKind::Variable, targets[k].start);
    if k < less.len() {
        assert(less[k] == targets[k]);
        lemma_target_bound(c, less, k);
        let i = choose|i: int| 0 <= i < before.len() && before[i] == x;
        assert(now[i] == x);
    } else {
        assert(now[before.len() as int] == x);
    }
}

/// A name that is assigned is bound as a variable, where it stands and in the scope that it
/// stands in.
pub proof fn law_assigned_name_is_bound(c: Place, s: StmtView, k: int)
    requires
        s.form is Assign,
        0 <= k < s.form->Assign_0.len(),
        s.form->Assign_0[k].shape is Name,
    ensures
        exists|i: int|
            0 <= i < facts::stmt_facts(c, s).defs.len() && defined(
                #[trigger] facts::stmt_facts(c, s).defs[i],
                s.form->Assign_0[k].shape->Name_0,
                DefKind::Variable,
                s.form->Assign_0[k].start,
                c.scope,
            ),
{
    let targets = s.form->Assign_0;
    let value = *s.form->Assign_1;
    lemma_target_bound(c, targets, k);
    let x = c.binding(targets[k].shape->Name_0, DefKind::Variable, targets[k].start);
    let a = facts::target_facts(c, targets);
    let m = facts::mapping_facts(c, value);
    let e = facts::export_facts(c, facts::targets_name(targets, "__all__"@), value);
    let own = facts::stmt_own(c, s);
    let all = facts::stmt_facts(c, s);
    lemma_among_plus(a, m);
    lemma_among_plus(a.plus(m), e);
    lemma_among_chain(a, a.plus(m), own);
    lemma_among_plus(own, facts::parts_facts(c, s.parts));
    lemma_among_chain(a, own, all);
    let j = choose|j: int| 0 <= j < a.defs.len() && a.defs[j] == x;
    assert(all.defs.contains(a.defs[j]));
    let i = choose|i: int| 0 <= i < all.defs.len() && all.defs[i] == x;
    assert(defined(
        all.defs[i],
        targets[k].shape->Name_0,
        DefKind::Variable,
        targets[k].start,
        c.scope,
    ));
}

/// To bind the environment to a name is to take an input that is not known by name.
pub proof fn law_bound_environ_is_an_input(c: Place, s: StmtView, before: Seq<char>)
    requires
        s.form is Assign,
        facts::dotted(*s.form->Assign_1) == Some("environ"@) || facts::dotted(*s.form->Assign_1)
            == Some(before + ".environ"@),
    ensures
        facts::stmt_facts(c, s).inputs.contains(
            (InputView {
                kind: InputKind::Env,
                value: "<dynamic>"@,
                pos: lines::pos_at(c.source, s.form->Assign_1.start),
            }),
        ),
{
    let targets = s.form->Assign_0;
    let value = *s.form->Assign_1;
    lemma_tail(before, ".environ"@);
    assert(classify::environment(facts::dotted(value)));
    let x = c.input(InputKind::Env, "<dynamic>"@, value.start);
    let a = facts::target_facts(c, targets);
    let m = facts::mapping_facts(c, value);
    let e = facts::export_facts(c, facts::targets_name(targets, "__all__"@), value);
    let own = facts::stmt_own(c, s);
    let all = facts::stmt_facts(c, s);
    assert(m.inputs =~= seq![x]);
    lemma_among_plus(a, m);
    lemma_among_plus(a.plus(m), e);
    lemma_among_chain(m, a.plus(m), own);
    lemma_among_plus(own, facts::parts_facts(c, s.parts));
    lemma_among_chain(m, own, all);
    assert(all.inputs.contains(m.inputs[0]));
}

/// A `global` statement in a function is an effect on the state that modules share, of the
/// names that it has. At the top of a module it has none.
pub proof fn law_global_statement_has_its_effect(c: Place, s: StmtView)
    requires
        s.form is Global,
    ensures
        c.in_function ==> facts::stmt_facts(c, s).effects.contains(
            (EffectView {
                kind: EffectKind::GlobalState,
                detail: text::join(
                    Seq::new(s.form->Global_0.len(), |i: int| s.form->Global_0[i].name),
                    ", "@,
                ),
                pos: lines::pos_at(c.source, s.start),
                scope: c.scope,
                import_time: false,
            }),
        ),
        !c.in_function && s.parts.len() == 0 ==> facts::stmt_facts(c, s).effects.len() == 0,
{
    let own = facts::stmt_own(c, s);
    let p = facts::parts_facts(c, s.parts);
    lemma_among_plus(own, p);
    if c.in_function {
        let ids = s.form->Global_0;
        assert(facts::global_names(ids) =~= Seq::new(ids.len(), |i: int| ids[i].name));
        let x = c.effect(
            EffectKind::GlobalState,
            text::join(facts::global_names(ids), ", "@),
            s.start,
        );
        assert(own.effects =~= seq![x]);
        assert(facts::stmt_facts(c, s).effects.contains(own.effects[0]));
    }
}

/// The signature of a function is its parameters, with the words of their source one blank
/// apart, and behind an arrow its return annotation where it has one.
pub proof fn law_signature_of_a_function(c: Place, s: StmtView)
    requires
        s.form is Function,
    ensures
        ({
            let params = s.form->Function_2;
            let list = text::join(
                lines::words(lines::text_between(c.source, params.0, params.1)),
                " "@,
            );
            let d = facts::stmt_facts(c, s).defs[0];
            &&& s.form->Function_3 is None ==> d.signature == Some(list)
            &&& s.form->Function_3 matches Some(r) ==> d.signature == Some(
                list + " -> "@ + text::join(
                    lines::words(lines::text_between(c.source, r.start, r.end)),
                    " "@,
                ),
            )
        }),
{
    law_function_is_defined(c, s);
}

/// A function or class spans its lines from the one of its name to the one of its end.
pub proof fn law_lines_of_a_definition(c: Place, s: StmtView)
    requires
        s.form is Function || s.form is Class,
    ensures
        facts::stmt_facts(c, s).defs.len() > 0,
        facts::stmt_facts(c, s).defs[0].end_line == lines::pos_at(c.source, s.end).line,
{
    if s.form is Function {
        law_function_is_defined(c, s);
    } else {
        law_class_is_defined(c, s);
    }
}

/// A string of two or more names with dots between them may name a callable: it is kept. No
/// other string is.
pub proof fn law_dotted_string_is_kept(c: Place, e: ExprView, t: Seq<char>)
    requires
        e.shape == ShapeView::Text(t),
        e.parts.len() == 0,
    ensures
        facts::expr_facts(c, e).dotted.contains(t) <==> {
            &&& text::split(t, "."@).len() >= 2
            &&& forall|i: int|
                0 <= i < text::split(t, "."@).len() ==> python_name(
                    #[trigger] text::split(t, "."@)[i],
                )
        },
{
    let own = facts::own_facts(c, e);
    let all = facts::expr_facts(c, e);
    assert(all.dotted =~= own.dotted);
    let parts = text::split(t, "."@);
    assert forall|i: int| 0 <= i < parts.len() implies facts::identifier(#[trigger] parts[i])
        == python_name(parts[i]) by {}
    if facts::dotted_path(t) {
        assert(own.dotted =~= seq![t]);
        assert(own.dotted[0] == t);
    } else {
        assert(own.dotted =~= Seq::<Seq<char>>::empty());
    }
}

/// Whether a text may be a name in Python: letters, digits and underscores, no digit first.
pub open spec fn python_name(s: Seq<char>) -> bool {
    s.len() > 0 && !('0' <= s[0] <= '9') && forall|i: int|
        0 <= i < s.len() ==> (#[trigger] s[i] == '_' || text::alphanumeric(s[i]))
}

proof fn lemma_exprs_among(c: Place, s: Seq<ExprView>, k: int)
    requires
        0 <= k < s.len(),
    ensures
        among(facts::expr_facts(c, s[k]), facts::exprs_facts(c, s)),
    decreases s.len(),
{
    let less = s.drop_last();
    let before = facts::exprs_facts(c, less);
    lemma_among_plus(before, facts::expr_facts(c, s[s.len() - 1]));
    if k < less.len() {
        assert(less[k] == s[k]);
        lemma_exprs_among(c, less, k);
        lemma_among_chain(facts::expr_facts(c, s[k]), before, facts::exprs_facts(c, s));
    }
}

/// What the arguments of a call show, by place or by keyword, the call shows.
pub proof fn law_no_argument_is_missed(c: Place, e: ExprView, k: int)
    requires
        e.shape is Call,
        e.shape->Call_0.shape is Name,
    ensures
        0 <= k < e.shape->Call_1.len() ==> among(
            facts::expr_facts(c, e.shape->Call_1[k]),
            facts::expr_facts(c, e),
        ),
        0 <= k < e.shape->Call_2.len() ==> among(
            facts::expr_facts(c, e.shape->Call_2[k]),
            facts::expr_facts(c, e),
        ),
{
    let f = e.shape->Call_0;
    let own = facts::own_facts(c, e);
    let r = Facts::of_ref(c.use_of(f.shape->Name_0, f.start, true));
    let a = facts::exprs_facts(c, e.shape->Call_1);
    let w = facts::exprs_facts(c, e.shape->Call_2);
    let all = facts::expr_facts(c, e);
    lemma_among_plus(own.plus(r), a);
    lemma_among_plus(own.plus(r).plus(a), w);
    lemma_among_chain(a, own.plus(r).plus(a), all);
    if 0 <= k < e.shape->Call_1.len() {
        lemma_exprs_among(c, e.shape->Call_1, k);
        lemma_among_chain(facts::expr_facts(c, e.shape->Call_1[k]), a, all);
    }
    if 0 <= k < e.shape->Call_2.len() {
        lemma_exprs_among(c, e.shape->Call_2, k);
        lemma_among_chain(facts::expr_facts(c, e.shape->Call_2[k]), w, all);
    }
}

/// A call takes no input where its name is none of those that read the environment, open a file
/// or declare an argument.
pub proof fn law_other_calls_take_no_input(callee: Seq<char>, args: Seq<ExprView>)
    requires
        callee != "open"@,
        callee != "io.open"@,
        !classify::reads_env(callee),
        !text::ends(callee, "environ.get"@),
        !text::ends(callee, "environ.setdefault"@),
        !text::ends(callee, ".add_argument"@),
        !text::ends(callee, ".option"@),
        !text::ends(callee, ".argument"@),
    ensures
        facts::call_input(callee, args) is None,
{
}

/// A call patches nothing where its name is neither `patch` nor that of `mock` or `mocker`.
pub proof fn law_other_calls_patch_nothing(c: Place, e: ExprView, callee: Seq<char>)
    requires
        e.shape is Call,
        facts::dotted(*e.shape->Call_0) == Some(callee),
        callee != "patch"@,
        callee != "mock.patch"@,
        callee != "mocker.patch"@,
        !text::ends(callee, ".mock.patch"@),
    ensures
        facts::own_facts(c, e).mocks.len() == 0,
{
}

/// What is no call, no item of the environment and no test of it takes no input itself and has
/// no effect itself.
pub proof fn law_other_expressions_do_nothing(c: Place, e: ExprView)
    requires
        !(e.shape is Call),
        !(e.shape is Subscript),
        !(e.shape is Compare),
    ensures
        facts::own_facts(c, e).inputs.len() == 0,
        facts::own_facts(c, e).effects.len() == 0,
        facts::own_facts(c, e).mocks.len() == 0,
        facts::own_facts(c, e).defs.len() == 0,
{
}

} // verus!
