//! The facts that a syntax tree holds, stated over what its nodes hold.
use crate::canonical;
use crate::classify;
use crate::lines;
use crate::model::{Def, DefKind, Effect, EffectKind, FileIndex, ImportContext, ImportStmt, Input, InputKind, MockTarget, Pos, Ref};
use crate::syntax::{AliasView, ExprView, FormView, IdView, PartView, ShapeView, StmtView, Test};
use crate::syntax;
use crate::text;
use vstd::prelude::*;

verus! {

/// A binding, with texts in place of strings.
#[verifier::ext_equal]
pub struct DefView {
    pub name: Seq<char>,
    pub kind: DefKind,
    pub pos: Pos,
    pub offset: u32,
    pub container: Seq<Seq<char>>,
    pub nested: bool,
    pub bases: Seq<Seq<char>>,
    pub decorated: bool,
    pub decorators: Seq<Seq<char>>,
    pub signature: Option<Seq<char>>,
    pub doc: Option<Seq<char>>,
    pub end_line: usize,
}

/// A text, where there is one.
pub open spec fn text_if(s: Option<String>) -> Option<Seq<char>> {
    match s {
        Some(t) => Some(t@),
        None => None,
    }
}

impl View for Def {
    type V = DefView;

    open spec fn view(&self) -> DefView {
        DefView {
            name: self.name@,
            kind: self.kind,
            pos: self.pos,
            offset: self.offset,
            container: text::views(self.container@),
            nested: self.nested,
            bases: text::views(self.bases@),
            decorated: self.decorated,
            decorators: text::views(self.decorators@),
            signature: text_if(self.signature),
            doc: text_if(self.doc),
            end_line: self.end_line,
        }
    }
}

/// A use, with a text in place of the string.
pub struct RefView {
    pub name: Seq<char>,
    pub pos: Pos,
    pub offset: u32,
    pub is_call: bool,
    pub module_scope: bool,
}

impl View for Ref {
    type V = RefView;

    open spec fn view(&self) -> RefView {
        RefView {
            name: self.name@,
            pos: self.pos,
            offset: self.offset,
            is_call: self.is_call,
            module_scope: self.module_scope,
        }
    }
}

/// An input, with a text in place of the string.
pub struct InputView {
    pub kind: InputKind,
    pub value: Seq<char>,
    pub pos: Pos,
}

impl View for Input {
    type V = InputView;

    open spec fn view(&self) -> InputView {
        InputView { kind: self.kind, value: self.value@, pos: self.pos }
    }
}

/// An import, with texts in place of strings.
#[verifier::ext_equal]
pub struct ImportView {
    pub module: Seq<char>,
    pub level: u32,
    pub names: Seq<Seq<char>>,
    pub context: ImportContext,
    pub pos: Pos,
}

impl View for ImportStmt {
    type V = ImportView;

    open spec fn view(&self) -> ImportView {
        ImportView {
            module: self.module@,
            level: self.level,
            names: text::views(self.names@),
            context: self.context,
            pos: self.pos,
        }
    }
}

/// An effect, with texts in place of strings.
#[verifier::ext_equal]
pub struct EffectView {
    pub kind: EffectKind,
    pub detail: Seq<char>,
    pub pos: Pos,
    pub scope: Seq<Seq<char>>,
    pub import_time: bool,
}

impl View for Effect {
    type V = EffectView;

    open spec fn view(&self) -> EffectView {
        EffectView {
            kind: self.kind,
            detail: self.detail@,
            pos: self.pos,
            scope: text::views(self.scope@),
            import_time: self.import_time,
        }
    }
}

/// A patch, with a text in place of the string.
pub struct MockView {
    pub target: Option<Seq<char>>,
    pub pos: Pos,
}

impl View for MockTarget {
    type V = MockView;

    open spec fn view(&self) -> MockView {
        MockView { target: text_if(self.target), pos: self.pos }
    }
}

/// Facts of each kind, in the order in which they are met.
#[verifier::ext_equal]
pub struct Facts {
    pub defs: Seq<DefView>,
    pub refs: Seq<RefView>,
    pub inputs: Seq<InputView>,
    pub imports: Seq<ImportView>,
    pub effects: Seq<EffectView>,
    pub mocks: Seq<MockView>,
    pub dotted: Seq<Seq<char>>,
    pub exported: Seq<Seq<char>>,
    pub guarded: bool,
}

impl Facts {
    /// No facts.
    pub open spec fn none() -> Facts {
        Facts {
            defs: Seq::empty(),
            refs: Seq::empty(),
            inputs: Seq::empty(),
            imports: Seq::empty(),
            effects: Seq::empty(),
            mocks: Seq::empty(),
            dotted: Seq::empty(),
            exported: Seq::empty(),
            guarded: false,
        }
    }

    /// These facts, then those.
    pub open spec fn plus(self, more: Facts) -> Facts {
        Facts {
            defs: self.defs + more.defs,
            refs: self.refs + more.refs,
            inputs: self.inputs + more.inputs,
            imports: self.imports + more.imports,
            effects: self.effects + more.effects,
            mocks: self.mocks + more.mocks,
            dotted: self.dotted + more.dotted,
            exported: self.exported + more.exported,
            guarded: self.guarded || more.guarded,
        }
    }

    pub open spec fn of_def(d: DefView) -> Facts {
        Facts { defs: seq![d], ..Facts::none() }
    }

    pub open spec fn of_ref(r: RefView) -> Facts {
        Facts { refs: seq![r], ..Facts::none() }
    }

    pub open spec fn of_input(i: InputView) -> Facts {
        Facts { inputs: seq![i], ..Facts::none() }
    }

    pub open spec fn of_import(i: ImportView) -> Facts {
        Facts { imports: seq![i], ..Facts::none() }
    }

    pub open spec fn of_effect(e: EffectView) -> Facts {
        Facts { effects: seq![e], ..Facts::none() }
    }

    pub open spec fn of_mock(m: MockView) -> Facts {
        Facts { mocks: seq![m], ..Facts::none() }
    }

    pub open spec fn of_dotted(s: Seq<char>) -> Facts {
        Facts { dotted: seq![s], ..Facts::none() }
    }

    pub open spec fn of_exported(s: Seq<Seq<char>>) -> Facts {
        Facts { exported: s, ..Facts::none() }
    }

    pub open spec fn of_guard() -> Facts {
        Facts { guarded: true, ..Facts::none() }
    }
}

/// Facts add up in any grouping.
pub proof fn lemma_plus(a: Facts, b: Facts, c: Facts)
    ensures
        a.plus(b).plus(c) == a.plus(b.plus(c)),
        a.plus(Facts::none()) == a,
        Facts::none().plus(a) == a,
{
    assert(a.plus(b).plus(c) =~= a.plus(b.plus(c)));
    assert(a.plus(Facts::none()) =~= a);
    assert(Facts::none().plus(a) =~= a);
}

/// Where in a file something stands.
pub struct Place {
    pub source: Seq<char>,
    /// The enclosing classes and functions, outermost first.
    pub scope: Seq<Seq<char>>,
    /// Whether it stands in a function.
    pub in_function: bool,
    /// Whether it stands in an `if TYPE_CHECKING:` block.
    pub typing: bool,
}

impl Place {
    /// Inside a function or class of a name.
    pub open spec fn within(self, name: Seq<char>, function: bool) -> Place {
        Place {
            scope: self.scope.push(name),
            in_function: self.in_function || function,
            ..self
        }
    }

    /// Inside an `if TYPE_CHECKING:` block.
    pub open spec fn typed(self) -> Place {
        Place { typing: true, ..self }
    }

    /// When an import here runs.
    pub open spec fn context(self) -> ImportContext {
        if self.typing {
            ImportContext::TypeChecking
        } else if self.in_function {
            ImportContext::Deferred
        } else {
            ImportContext::TopLevel
        }
    }

    /// A plain binding.
    pub open spec fn binding(self, name: Seq<char>, kind: DefKind, start: u32) -> DefView {
        DefView {
            name,
            kind,
            pos: lines::pos_at(self.source, start),
            offset: start,
            container: self.scope,
            nested: self.scope.len() > 0,
            bases: Seq::empty(),
            decorated: false,
            decorators: Seq::empty(),
            signature: None,
            doc: None,
            end_line: lines::pos_at(self.source, start).line,
        }
    }

    pub open spec fn use_of(self, name: Seq<char>, start: u32, is_call: bool) -> RefView {
        RefView {
            name,
            pos: lines::pos_at(self.source, start),
            offset: start,
            is_call,
            module_scope: self.scope.len() == 0,
        }
    }

    pub open spec fn input(self, kind: InputKind, value: Seq<char>, start: u32) -> InputView {
        InputView { kind, value, pos: lines::pos_at(self.source, start) }
    }

    pub open spec fn effect(self, kind: EffectKind, detail: Seq<char>, start: u32) -> EffectView {
        EffectView {
            kind,
            detail,
            pos: lines::pos_at(self.source, start),
            scope: self.scope,
            import_time: !self.in_function,
        }
    }
}

/// The dotted name that an expression spells, where it is a chain of names.
pub open spec fn dotted(e: ExprView) -> Option<Seq<char>>
    decreases e,
{
    match e.shape {
        ShapeView::Name(id, _) => Some(id),
        ShapeView::Attribute(v, attr) => match dotted(*v) {
            Some(d) => Some(d + "."@ + attr),
            None => None,
        },
        _ => None,
    }
}

/// The string that an expression is, where it is one.
pub open spec fn literal(e: ExprView) -> Option<Seq<char>> {
    match e.shape {
        ShapeView::Text(t) => Some(t),
        _ => None,
    }
}

/// The string that the first of expressions is.
pub open spec fn first_literal(s: Seq<ExprView>) -> Option<Seq<char>> {
    if s.len() > 0 {
        literal(s[0])
    } else {
        None
    }
}

/// A text, or the mark of one that is computed.
pub open spec fn or_dynamic(t: Option<Seq<char>>) -> Seq<char> {
    match t {
        Some(s) => s,
        None => "<dynamic>"@,
    }
}

/// The strings among expressions.
pub open spec fn literals(s: Seq<ExprView>) -> Seq<Seq<char>>
    decreases s.len(),
{
    if s.len() == 0 {
        Seq::empty()
    } else {
        match literal(s.last()) {
            Some(t) => literals(s.drop_last()).push(t),
            None => literals(s.drop_last()),
        }
    }
}

/// The longest of the names that start with `--`, of equally long ones the last.
pub open spec fn longest_flag(names: Seq<Seq<char>>) -> Option<Seq<char>>
    decreases names.len(),
{
    if names.len() == 0 {
        None
    } else {
        let before = longest_flag(names.drop_last());
        let n = names.last();
        if text::starts(n, "--"@) && (before is None || syntax::byte_len(before->0)
            <= syntax::byte_len(n)) {
            Some(n)
        } else {
            before
        }
    }
}

/// The name of a command-line option: its longest `--` flag, else its first string.
pub open spec fn option_name(args: Seq<ExprView>) -> Option<Seq<char>> {
    let names = literals(args);
    match longest_flag(names) {
        Some(n) => Some(n),
        None => if names.len() > 0 {
            Some(names[0])
        } else {
            None
        },
    }
}

/// The input that a call of a callee takes.
pub open spec fn call_input(callee: Seq<char>, args: Seq<ExprView>) -> Option<
    (InputKind, Seq<char>),
> {
    if classify::reads_env(callee) || text::ends(callee, "environ.get"@) || text::ends(
        callee,
        "environ.setdefault"@,
    ) {
        Some((InputKind::Env, or_dynamic(first_literal(args))))
    } else if callee == "open"@ || callee == "io.open"@ {
        match first_literal(args) {
            Some(p) => Some((InputKind::File, p)),
            None => None,
        }
    } else if text::ends(callee, ".add_argument"@) || text::ends(callee, ".option"@) || text::ends(
        callee,
        ".argument"@,
    ) {
        match option_name(args) {
            Some(n) => Some((InputKind::Arg, n)),
            None => None,
        }
    } else {
        None
    }
}

/// The input that an expression takes itself.
pub open spec fn input_of(e: ExprView) -> Option<(InputKind, Seq<char>)> {
    match e.shape {
        ShapeView::Call(f, args, _) => match dotted(*f) {
            Some(callee) => call_input(callee, args),
            None => None,
        },
        ShapeView::Subscript(v, i) => if classify::environment(dotted(*v)) {
            Some((InputKind::Env, or_dynamic(literal(*i))))
        } else {
            None
        },
        ShapeView::Compare(l, t, cs) => if (t == Test::In || t == Test::NotIn) && cs.len() > 0
            && classify::environment(dotted(cs[0])) {
            Some((InputKind::Env, or_dynamic(literal(*l))))
        } else {
            None
        },
        _ => None,
    }
}

/// The effect that an expression has itself.
pub open spec fn effect_of(e: ExprView) -> Option<(EffectKind, Seq<char>)> {
    match e.shape {
        ShapeView::Call(f, _, _) => match dotted(*f) {
            Some(callee) => match classify::classified(callee) {
                Some(kind) => Some((kind, callee)),
                None => None,
            },
            None => None,
        },
        ShapeView::Subscript(v, _) => if classify::environment(dotted(*v)) {
            Some((EffectKind::Env, dotted(*v)->0))
        } else {
            None
        },
        _ => None,
    }
}

/// Whether a callee patches what its argument names.
pub open spec fn patches(callee: Seq<char>) -> bool {
    callee == "patch"@ || callee == "mock.patch"@ || callee == "mocker.patch"@ || text::ends(
        callee,
        ".mock.patch"@,
    )
}

/// The target of the patch that an expression is, where it is one; of a computed
/// one nothing.
pub open spec fn mock_of(e: ExprView) -> Option<Option<Seq<char>>> {
    match e.shape {
        ShapeView::Call(f, args, _) => match dotted(*f) {
            Some(callee) => if patches(callee) {
                Some(first_literal(args))
            } else {
                None
            },
            None => None,
        },
        _ => None,
    }
}

/// Whether a text may be a name in Python.
pub open spec fn identifier(s: Seq<char>) -> bool {
    s.len() > 0 && !('0' <= s[0] <= '9') && forall|i: int|
        0 <= i < s.len() ==> canonical::word_char(#[trigger] s[i])
}

/// Whether a text is shaped like a dotted path to a name.
pub open spec fn dotted_path(s: Seq<char>) -> bool {
    let parts = text::split(s, "."@);
    parts.len() >= 2 && forall|i: int| 0 <= i < parts.len() ==> identifier(#[trigger] parts[i])
}

/// The facts that an expression itself is, without what stands in it.
pub open spec fn own_facts(c: Place, e: ExprView) -> Facts {
    let a = match input_of(e) {
        Some((kind, value)) => Facts::of_input(c.input(kind, value, e.start)),
        None => Facts::none(),
    };
    let b = match effect_of(e) {
        Some((kind, detail)) => Facts::of_effect(c.effect(kind, detail, e.start)),
        None => Facts::none(),
    };
    let m = match mock_of(e) {
        Some(target) => Facts::of_mock(
            MockView { target, pos: lines::pos_at(c.source, e.start) },
        ),
        None => Facts::none(),
    };
    let d = match literal(e) {
        Some(t) => if dotted_path(t) {
            Facts::of_dotted(t)
        } else {
            Facts::none()
        },
        None => Facts::none(),
    };
    a.plus(b).plus(m).plus(d)
}

/// The facts of an expression and of all that stands in it. The name of a callee is
/// one use, a call.
pub open spec fn expr_facts(c: Place, e: ExprView) -> Facts
    decreases e,
{
    let own = own_facts(c, e);
    match e.shape {
        ShapeView::Call(f, args, kws) => match f.shape {
            ShapeView::Name(id, _) => own.plus(Facts::of_ref(c.use_of(id, f.start, true))).plus(
                exprs_facts(c, args),
            ).plus(exprs_facts(c, kws)),
            _ => own.plus(parts_facts(c, e.parts)),
        },
        ShapeView::Name(id, load) => if load {
            own.plus(Facts::of_ref(c.use_of(id, e.start, false))).plus(parts_facts(c, e.parts))
        } else {
            own.plus(parts_facts(c, e.parts))
        },
        _ => own.plus(parts_facts(c, e.parts)),
    }
}

/// The facts of expressions.
pub open spec fn exprs_facts(c: Place, s: Seq<ExprView>) -> Facts
    decreases s,
{
    if s.len() == 0 {
        Facts::none()
    } else {
        exprs_facts(c, s.drop_last()).plus(expr_facts(c, s[s.len() - 1]))
    }
}

/// The facts of what stands in a node.
pub open spec fn parts_facts(c: Place, s: Seq<PartView>) -> Facts
    decreases s,
{
    if s.len() == 0 {
        Facts::none()
    } else {
        parts_facts(c, s.drop_last()).plus(
            match s[s.len() - 1] {
                PartView::Stmt(x) => stmt_facts(c, x),
                PartView::Expr(x) => expr_facts(c, x),
            },
        )
    }
}

/// The facts of statements.
pub open spec fn stmts_facts(c: Place, s: Seq<StmtView>) -> Facts
    decreases s,
{
    if s.len() == 0 {
        Facts::none()
    } else {
        stmts_facts(c, s.drop_last()).plus(stmt_facts(c, s[s.len() - 1]))
    }
}

/// The facts of the other branches of an `if`.
pub open spec fn branches_facts(
    c: Place,
    s: Seq<(Option<ExprView>, Seq<StmtView>)>,
) -> Facts
    decreases s,
{
    if s.len() == 0 {
        Facts::none()
    } else {
        let b = s[s.len() - 1];
        let before = branches_facts(c, s.drop_last());
        match b.0 {
            Some(test) => before.plus(expr_facts(c, test)).plus(stmts_facts(c, b.1)),
            None => before.plus(stmts_facts(c, b.1)),
        }
    }
}

/// The source of expressions, each with its words one blank apart.
pub open spec fn sources(source: Seq<char>, s: Seq<ExprView>) -> Seq<Seq<char>> {
    Seq::new(s.len(), |i: int| lines::squeezed(lines::text_between(source, s[i].start, s[i].end)))
}

/// The first line of the string that a body starts with.
pub open spec fn doc_line(body: Seq<StmtView>) -> Option<Seq<char>> {
    if body.len() == 0 {
        None
    } else {
        match body[0].form {
            FormView::Value(v) => match literal(*v) {
                Some(t) => {
                    let ls = text::lines(text::trim(t));
                    if ls.len() == 0 {
                        None
                    } else {
                        Some(text::trim(ls[0]))
                    }
                },
                None => None,
            },
            _ => None,
        }
    }
}

/// The parameters and the return annotation of a function.
pub open spec fn signature(
    source: Seq<char>,
    params: (u32, u32),
    annotation: Option<Box<ExprView>>,
) -> Seq<char> {
    let list = lines::squeezed(lines::text_between(source, params.0, params.1));
    match annotation {
        Some(r) => list + " -> "@ + lines::squeezed(
            lines::text_between(source, r.start, r.end),
        ),
        None => list,
    }
}

/// The dotted names among expressions.
pub open spec fn dotted_names(s: Seq<ExprView>) -> Seq<Seq<char>>
    decreases s.len(),
{
    if s.len() == 0 {
        Seq::empty()
    } else {
        match dotted(s.last()) {
            Some(d) => dotted_names(s.drop_last()).push(d),
            None => dotted_names(s.drop_last()),
        }
    }
}

/// Whether one of the names is that of a class of settings.
pub open spec fn has_settings(names: Seq<Seq<char>>) -> bool
    decreases names.len(),
{
    names.len() > 0 && (text::ends(names.last(), "BaseSettings"@) || has_settings(
        names.drop_last(),
    ))
}

/// The annotated fields of a class as inputs.
pub open spec fn settings_facts(c: Place, body: Seq<StmtView>) -> Facts
    decreases body.len(),
{
    if body.len() == 0 {
        Facts::none()
    } else {
        let before = settings_facts(c, body.drop_last());
        match body.last().form {
            FormView::AnnAssign(t) => match t.shape {
                ShapeView::Name(id, _) => before.plus(
                    Facts::of_input(c.input(InputKind::Setting, id, t.start)),
                ),
                _ => before,
            },
            _ => before,
        }
    }
}

/// The names that targets bind.
pub open spec fn target_facts(c: Place, targets: Seq<ExprView>) -> Facts
    decreases targets.len(),
{
    if targets.len() == 0 {
        Facts::none()
    } else {
        let before = target_facts(c, targets.drop_last());
        match targets.last().shape {
            ShapeView::Name(id, _) => before.plus(
                Facts::of_def(c.binding(id, DefKind::Variable, targets.last().start)),
            ),
            _ => before,
        }
    }
}

/// Whether one of the targets is a name.
pub open spec fn targets_name(targets: Seq<ExprView>, name: Seq<char>) -> bool
    decreases targets.len(),
{
    targets.len() > 0 && (is_name(targets.last(), name) || targets_name(targets.drop_last(), name))
}

/// Whether an expression is a name.
pub open spec fn is_name(e: ExprView, name: Seq<char>) -> bool {
    match e.shape {
        ShapeView::Name(id, _) => id == name,
        _ => false,
    }
}

/// The names that a module exports by a list that it assigns or adds to `__all__`.
pub open spec fn export_facts(c: Place, assigned: bool, value: ExprView) -> Facts {
    match value.shape {
        ShapeView::Items(items) => if assigned && c.scope.len() == 0 {
            Facts::of_exported(literals(items))
        } else {
            Facts::none()
        },
        _ => Facts::none(),
    }
}

/// The environment bound to a name as an input.
pub open spec fn mapping_facts(c: Place, value: ExprView) -> Facts {
    if classify::environment(dotted(value)) {
        Facts::of_input(c.input(InputKind::Env, "<dynamic>"@, value.start))
    } else {
        Facts::none()
    }
}

/// The name that an import binds.
pub open spec fn bound_id(a: AliasView) -> IdView {
    match a.asname {
        Some(n) => n,
        None => a.name,
    }
}

/// The bindings and edges of an `import`.
pub open spec fn import_facts(c: Place, start: u32, names: Seq<AliasView>) -> Facts
    decreases names.len(),
{
    if names.len() == 0 {
        Facts::none()
    } else {
        let a = names.last();
        import_facts(c, start, names.drop_last()).plus(
            Facts::of_def(c.binding(bound_id(a).name, DefKind::Import, bound_id(a).start)),
        ).plus(
            Facts::of_import(
                ImportView {
                    module: a.name.name,
                    level: 0,
                    names: Seq::empty(),
                    context: c.context(),
                    pos: lines::pos_at(c.source, start),
                },
            ),
        )
    }
}

/// The bindings of a `from` import.
pub open spec fn from_defs(c: Place, names: Seq<AliasView>) -> Facts
    decreases names.len(),
{
    if names.len() == 0 {
        Facts::none()
    } else {
        let b = bound_id(names.last());
        from_defs(c, names.drop_last()).plus(
            Facts::of_def(c.binding(b.name, DefKind::Import, b.start)),
        )
    }
}

/// The bindings and the edge of a `from` import.
pub open spec fn from_facts(
    c: Place,
    start: u32,
    module: Option<IdView>,
    level: u32,
    names: Seq<AliasView>,
) -> Facts {
    from_defs(c, names).plus(
        Facts::of_import(
            ImportView {
                module: match module {
                    Some(m) => m.name,
                    None => Seq::empty(),
                },
                level,
                names: Seq::new(names.len(), |i: int| names[i].name.name),
                context: c.context(),
                pos: lines::pos_at(c.source, start),
            },
        ),
    )
}

/// Whether a test is `TYPE_CHECKING`.
pub open spec fn type_checking(test: ExprView) -> bool {
    match dotted(test) {
        Some(d) => d == "TYPE_CHECKING"@ || text::ends(d, ".TYPE_CHECKING"@),
        None => false,
    }
}

/// Whether a test is `__name__ == "__main__"`, either way round.
pub open spec fn main_guard(test: ExprView) -> bool {
    match test.shape {
        ShapeView::Compare(l, t, cs) => t == Test::Equality && cs.len() > 0 && ((is_name(
            *l,
            "__name__"@,
        ) && literal(cs[0]) == Some("__main__"@)) || (literal(*l) == Some("__main__"@) && is_name(
            cs[0],
            "__name__"@,
        ))),
        _ => false,
    }
}

/// The binding of a function.
pub open spec fn function_def(
    c: Place,
    s: StmtView,
    name: IdView,
    decorators: Seq<ExprView>,
    params: (u32, u32),
    annotation: Option<Box<ExprView>>,
    body: Seq<StmtView>,
) -> DefView {
    DefView {
        decorated: decorators.len() > 0,
        decorators: sources(c.source, decorators),
        signature: Some(signature(c.source, params, annotation)),
        doc: doc_line(body),
        end_line: lines::pos_at(c.source, s.end).line,
        ..c.binding(name.name, DefKind::Function, name.start)
    }
}

/// The binding of a class.
pub open spec fn class_def(
    c: Place,
    s: StmtView,
    name: IdView,
    decorators: Seq<ExprView>,
    bases: Seq<ExprView>,
    body: Seq<StmtView>,
) -> DefView {
    DefView {
        bases: dotted_names(bases),
        decorated: decorators.len() > 0,
        decorators: sources(c.source, decorators),
        doc: doc_line(body),
        end_line: lines::pos_at(c.source, s.end).line,
        ..c.binding(name.name, DefKind::Class, name.start)
    }
}

/// The names of a `global` statement.
pub open spec fn global_names(ids: Seq<IdView>) -> Seq<Seq<char>> {
    Seq::new(ids.len(), |i: int| ids[i].name)
}

/// The facts that a statement itself is, without what stands in it.
pub open spec fn stmt_own(c: Place, s: StmtView) -> Facts {
    match s.form {
        FormView::Function(name, decorators, params, annotation, body) => Facts::of_def(
            function_def(c, s, name, decorators, params, annotation, body),
        ),
        FormView::Class(name, decorators, bases, body) => Facts::of_def(
            class_def(c, s, name, decorators, bases, body),
        ).plus(
            if has_settings(dotted_names(bases)) {
                settings_facts(c, body)
            } else {
                Facts::none()
            },
        ),
        FormView::If(test, _, _) => if main_guard(*test) && c.scope.len() == 0 {
            Facts::of_guard()
        } else {
            Facts::none()
        },
        FormView::Assign(targets, value) => target_facts(c, targets).plus(
            mapping_facts(c, *value),
        ).plus(export_facts(c, targets_name(targets, "__all__"@), *value)),
        FormView::AugAssign(target, value) => export_facts(
            c,
            is_name(*target, "__all__"@),
            *value,
        ),
        FormView::Import(names) => import_facts(c, s.start, names),
        FormView::ImportFrom(module, level, names) => from_facts(c, s.start, module, level, names),
        FormView::Global(ids) => if c.in_function {
            Facts::of_effect(
                c.effect(EffectKind::GlobalState, text::join(global_names(ids), ", "@), s.start),
            )
        } else {
            Facts::none()
        },
        _ => Facts::none(),
    }
}

/// The facts of a statement and of all that stands in it.
pub open spec fn stmt_facts(c: Place, s: StmtView) -> Facts
    decreases s,
{
    let own = stmt_own(c, s);
    match s.form {
        FormView::Function(name, _, _, _, _) => own.plus(
            parts_facts(c.within(name.name, true), s.parts),
        ),
        FormView::Class(name, _, _, _) => own.plus(
            parts_facts(c.within(name.name, false), s.parts),
        ),
        FormView::If(test, body, branches) => if type_checking(*test) {
            expr_facts(c, *test).plus(stmts_facts(c.typed(), body)).plus(
                branches_facts(c, branches),
            )
        } else {
            own.plus(parts_facts(c, s.parts))
        },
        _ => own.plus(parts_facts(c, s.parts)),
    }
}

/// The place of what stands in no class or function.
pub open spec fn top(source: Seq<char>) -> Place {
    Place { source, scope: Seq::empty(), in_function: false, typing: false }
}

/// The facts that a file's facts are.
pub open spec fn facts_of(f: FileIndex) -> Facts {
    Facts {
        defs: crate::sort::each(f.defs@),
        refs: crate::sort::each(f.refs@),
        inputs: crate::sort::each(f.inputs@),
        imports: crate::sort::each(f.imports@),
        effects: crate::sort::each(f.effects@),
        mocks: crate::sort::each(f.mocks@),
        dotted: text::views(f.dotted_strings@),
        exported: text::views(f.dunder_all@),
        guarded: f.has_main_guard,
    }
}

} // verus!
