//! From the source of a Python file to its facts.
use crate::classify::{classify_effect, is_environ, is_getenv};
use crate::classify;
use crate::facts::{Facts, Place};
use crate::facts;
use crate::lines::{squeeze, Lines};
use crate::lines;
use crate::model::{Def, DefKind, Effect, EffectKind, FileIndex, ImportContext, ImportStmt, Input, InputKind, MockTarget, Ref};
use crate::sort;
use crate::syntax::{as_ann_assign, as_assign, as_aug_assign, as_class, as_function, as_global, as_if, as_import, as_import_from, as_value, expr_parts, expr_range, expr_shape, parse, stmt_parts, stmt_range, Bound, Branch, Class, Function, Id, Part, Shape, Test};
use crate::syntax;
use crate::text::{cat3, chars_of, copy_strings, ends_with, join_with, lines_of, same, split_on, starts_with, trimmed};
use crate::text;
use ruff_python_ast::{Expr, Stmt};
use vstd::prelude::*;

verus! {

/// The dotted name that an expression spells, where it is a chain of names.
fn dotted_name(e: &Expr) -> (r: Option<String>)
    ensures
        facts::text_if(r) == facts::dotted(syntax::expr_of(*e)),
    decreases syntax::expr_of(*e),
{
    let ghost v = syntax::expr_of(*e);
    match expr_shape(e) {
        Shape::Name(id, _) => Some(id),
        Shape::Attribute(value, attr) => {
            proof {
                assert(decreases_to!(v => v.shape));
                assert(decreases_to!(v.shape => v.shape->Attribute_0));
            }
            match dotted_name(value) {
                Some(d) => Some(cat3(d.as_str(), ".", attr.as_str())),
                None => None,
            }
        },
        _ => None,
    }
}

/// The string that an expression is, where it is one.
fn literal_str(e: &Expr) -> (r: Option<String>)
    ensures
        facts::text_if(r) == facts::literal(syntax::expr_of(*e)),
{
    match expr_shape(e) {
        Shape::Text(t) => Some(t),
        _ => None,
    }
}

/// The string that the first of expressions is.
fn first_str(args: &Vec<&Expr>) -> (r: Option<String>)
    ensures
        facts::text_if(r) == facts::first_literal(syntax::expr_list(args@)),
{
    if args.len() > 0 {
        assert(syntax::expr_list(args@)[0] == syntax::expr_of(*args@[0]));
        literal_str(args[0])
    } else {
        None
    }
}

/// A text, or the mark of one that is computed.
fn or_dynamic(t: Option<String>) -> (r: String)
    ensures
        r@ == facts::or_dynamic(facts::text_if(t)),
{
    match t {
        Some(s) => s,
        None => "<dynamic>".to_owned(),
    }
}

/// The strings among expressions.
fn literals_of(args: &Vec<&Expr>) -> (r: Vec<String>)
    ensures
        text::views(r@) == facts::literals(syntax::expr_list(args@)),
{
    let ghost all = syntax::expr_list(args@);
    let mut out: Vec<String> = Vec::new();
    let mut i: usize = 0;
    assert(text::views(out@) =~= facts::literals(all.take(0)));
    while i < args.len()
        invariant
            i <= args@.len(),
            all == syntax::expr_list(args@),
            text::views(out@) == facts::literals(all.take(i as int)),
        decreases args@.len() - i,
    {
        proof {
            text::lemma_take_step(all, i as int);
            assert(all[i as int] == syntax::expr_of(*args@[i as int]));
        }
        match literal_str(args[i]) {
            Some(t) => {
                let ghost seen = text::views(out@);
                let ghost tv = t@;
                out.push(t);
                assert(text::views(out@) =~= seen.push(tv));
            },
            None => {},
        }
        i = i + 1;
    }
    proof {
        text::lemma_take_all(all);
    }
    out
}

/// How many bytes a text takes in UTF-8.
fn bytes_of(s: &str) -> (r: u128)
    ensures
        r == syntax::byte_len(s@),
{
    let cs = chars_of(s);
    let total: usize = cs.len();
    let mut n: u128 = 0;
    let mut i: usize = 0;
    assert(cs@.take(0) =~= Seq::empty());
    while i < total
        invariant
            i <= total,
            total == cs@.len(),
            n == syntax::byte_len(cs@.take(i as int)),
            n <= 4 * i,
        decreases total - i,
    {
        proof {
            let t = cs@.take(i + 1);
            assert(t.drop_last() =~= cs@.take(i as int));
            assert(t.last() == cs@[i as int]);
        }
        let c: u32 = cs[i] as u32;
        let len: u128 = if c < 0x80 {
            1
        } else if c < 0x800 {
            2
        } else if c < 0x10000 {
            3
        } else {
            4
        };
        n = n + len;
        i = i + 1;
    }
    assert(cs@.take(total as int) =~= cs@);
    n
}

/// The longest of the names that start with `--`, of equally long ones the last.
fn longest_flag_of(names: &Vec<String>) -> (r: Option<usize>)
    ensures
        match r {
            Some(i) => i < names@.len() && facts::longest_flag(text::views(names@)) == Some(
                names@[i as int]@,
            ),
            None => facts::longest_flag(text::views(names@)) is None,
        },
{
    let ghost all = text::views(names@);
    let mut best: Option<usize> = None;
    let mut size: u128 = 0;
    let mut i: usize = 0;
    while i < names.len()
        invariant
            i <= names@.len(),
            all == text::views(names@),
            match best {
                Some(k) => k < i && facts::longest_flag(all.take(i as int)) == Some(all[k as int])
                    && size == syntax::byte_len(all[k as int]),
                None => facts::longest_flag(all.take(i as int)) is None,
            },
        decreases names@.len() - i,
    {
        proof {
            text::lemma_take_step(all, i as int);
        }
        let n = names[i].as_str();
        if starts_with(n, "--") {
            let len = bytes_of(n);
            let better = match best {
                Some(_) => size <= len,
                None => true,
            };
            if better {
                best = Some(i);
                size = len;
            }
        }
        i = i + 1;
    }
    proof {
        text::lemma_take_all(all);
    }
    best
}

/// The name of a command-line option: its longest `--` flag, else its first string.
fn canonical_option(args: &Vec<&Expr>) -> (r: Option<String>)
    ensures
        facts::text_if(r) == facts::option_name(syntax::expr_list(args@)),
{
    let names = literals_of(args);
    let ghost all = text::views(names@);
    assert(all.len() == names@.len());
    match longest_flag_of(&names) {
        Some(i) => Some(names[i].clone()),
        None => if names.len() > 0 {
            assert(all[0] == names@[0]@);
            Some(names[0].clone())
        } else {
            None
        },
    }
}

/// A kind and a value.
spec fn kinded<K>(x: Option<(K, String)>) -> Option<(K, Seq<char>)> {
    match x {
        Some((k, v)) => Some((k, v@)),
        None => None,
    }
}

/// The input that a call of a callee takes.
fn call_input(callee: &str, args: &Vec<&Expr>) -> (r: Option<(InputKind, String)>)
    ensures
        kinded(r) == facts::call_input(callee@, syntax::expr_list(args@)),
{
    if is_getenv(callee) || ends_with(callee, "environ.get") || ends_with(
        callee,
        "environ.setdefault",
    ) {
        return Some((InputKind::Env, or_dynamic(first_str(args))));
    }
    if same(callee, "open") || same(callee, "io.open") {
        return match first_str(args) {
            Some(p) => Some((InputKind::File, p)),
            None => None,
        };
    }
    if ends_with(callee, ".add_argument") || ends_with(callee, ".option") || ends_with(
        callee,
        ".argument",
    ) {
        return match canonical_option(args) {
            Some(n) => Some((InputKind::Arg, n)),
            None => None,
        };
    }
    None
}

/// The input that an expression takes itself.
fn input_of(e: &Expr) -> (r: Option<(InputKind, String)>)
    ensures
        kinded(r) == facts::input_of(syntax::expr_of(*e)),
{
    match expr_shape(e) {
        Shape::Call(f, args, _) => match dotted_name(f) {
            Some(callee) => call_input(callee.as_str(), &args),
            None => None,
        },
        Shape::Subscript(v, i) => {
            let name = dotted_name(v);
            if is_environ(&name) {
                Some((InputKind::Env, or_dynamic(literal_str(i))))
            } else {
                None
            }
        },
        Shape::Compare(l, t, cs) => {
            let member = match t {
                Test::In => true,
                Test::NotIn => true,
                _ => false,
            };
            if member && cs.len() > 0 {
                assert(syntax::expr_list(cs@)[0] == syntax::expr_of(*cs@[0]));
                let name = dotted_name(cs[0]);
                if is_environ(&name) {
                    return Some((InputKind::Env, or_dynamic(literal_str(l))));
                }
            }
            None
        },
        _ => None,
    }
}

/// The effect that an expression has itself.
fn effect_of(e: &Expr) -> (r: Option<(EffectKind, String)>)
    ensures
        kinded(r) == facts::effect_of(syntax::expr_of(*e)),
{
    match expr_shape(e) {
        Shape::Call(f, _, _) => match dotted_name(f) {
            Some(callee) => match classify_effect(callee.as_str()) {
                Some(kind) => Some((kind, callee)),
                None => None,
            },
            None => None,
        },
        Shape::Subscript(v, _) => {
            let name = dotted_name(v);
            if is_environ(&name) {
                match name {
                    Some(d) => Some((EffectKind::Env, d)),
                    None => None,
                }
            } else {
                None
            }
        },
        _ => None,
    }
}

/// The target of the patch that an expression is, where it is one.
fn mock_of(e: &Expr) -> (r: Option<Option<String>>)
    ensures
        match r {
            Some(t) => facts::mock_of(syntax::expr_of(*e)) == Some(facts::text_if(t)),
            None => facts::mock_of(syntax::expr_of(*e)) is None,
        },
{
    match expr_shape(e) {
        Shape::Call(f, args, _) => match dotted_name(f) {
            Some(callee) => {
                let c = callee.as_str();
                if same(c, "patch") || same(c, "mock.patch") || same(c, "mocker.patch") || ends_with(
                    c,
                    ".mock.patch",
                ) {
                    Some(first_str(&args))
                } else {
                    None
                }
            },
            None => None,
        },
        _ => None,
    }
}

/// Whether a text may be a name in Python.
fn is_identifier(s: &str) -> (r: bool)
    ensures
        r == facts::identifier(s@),
{
    let cs = chars_of(s);
    if cs.len() == 0 || ('0' <= cs[0] && cs[0] <= '9') {
        return false;
    }
    let mut i: usize = 0;
    while i < cs.len()
        invariant
            i <= cs@.len(),
            cs@ == s@,
            forall|k: int| 0 <= k < i ==> crate::canonical::word_char(#[trigger] s@[k]),
        decreases cs@.len() - i,
    {
        if !cs[i].is_alphanumeric() && cs[i] != '_' {
            assert(!crate::canonical::word_char(s@[i as int]));
            return false;
        }
        i = i + 1;
    }
    true
}

/// Whether a text is shaped like a dotted path to a name.
fn is_dotted_path(s: &str) -> (r: bool)
    ensures
        r == facts::dotted_path(s@),
{
    let parts = split_on(s, ".");
    let ghost all = text::views(parts@);
    assert(all.len() == parts@.len());
    if parts.len() < 2 {
        return false;
    }
    let mut i: usize = 0;
    while i < parts.len()
        invariant
            i <= parts@.len(),
            all == text::views(parts@),
            all == text::split(s@, "."@),
            parts@.len() >= 2,
            forall|k: int| 0 <= k < i ==> facts::identifier(#[trigger] all[k]),
        decreases parts@.len() - i,
    {
        assert(all[i as int] == parts@[i as int]@);
        if !is_identifier(parts[i].as_str()) {
            return false;
        }
        i = i + 1;
    }
    true
}

/// Whether an expression is a name.
fn is_named(e: &Expr, name: &str) -> (r: bool)
    ensures
        r == facts::is_name(syntax::expr_of(*e), name@),
{
    match expr_shape(e) {
        Shape::Name(id, _) => same(id.as_str(), name),
        _ => false,
    }
}

/// Whether an expression is a string.
fn is_text(e: &Expr, t: &str) -> (r: bool)
    ensures
        r == (facts::literal(syntax::expr_of(*e)) == Some(t@)),
{
    match expr_shape(e) {
        Shape::Text(s) => same(s.as_str(), t),
        _ => false,
    }
}

/// Whether a test is `TYPE_CHECKING`.
fn is_type_checking(test: &Expr) -> (r: bool)
    ensures
        r == facts::type_checking(syntax::expr_of(*test)),
{
    match dotted_name(test) {
        Some(d) => same(d.as_str(), "TYPE_CHECKING") || ends_with(d.as_str(), ".TYPE_CHECKING"),
        None => false,
    }
}

/// Whether a test is `__name__ == "__main__"`, either way round.
fn is_main_guard(test: &Expr) -> (r: bool)
    ensures
        r == facts::main_guard(syntax::expr_of(*test)),
{
    match expr_shape(test) {
        Shape::Compare(l, t, cs) => {
            let equal = match t {
                Test::Equality => true,
                _ => false,
            };
            if !equal || cs.len() == 0 {
                return false;
            }
            assert(syntax::expr_list(cs@)[0] == syntax::expr_of(*cs@[0]));
            (is_named(l, "__name__") && is_text(cs[0], "__main__")) || (is_text(l, "__main__")
                && is_named(cs[0], "__name__"))
        },
        _ => false,
    }
}

/// The dotted names of the base classes of a class.
fn class_bases(args: &Vec<&Expr>) -> (r: Vec<String>)
    ensures
        text::views(r@) == facts::dotted_names(syntax::expr_list(args@)),
{
    let ghost all = syntax::expr_list(args@);
    let mut out: Vec<String> = Vec::new();
    let mut i: usize = 0;
    assert(text::views(out@) =~= facts::dotted_names(all.take(0)));
    while i < args.len()
        invariant
            i <= args@.len(),
            all == syntax::expr_list(args@),
            text::views(out@) == facts::dotted_names(all.take(i as int)),
        decreases args@.len() - i,
    {
        proof {
            text::lemma_take_step(all, i as int);
            assert(all[i as int] == syntax::expr_of(*args@[i as int]));
        }
        match dotted_name(args[i]) {
            Some(d) => {
                let ghost seen = text::views(out@);
                let ghost dv = d@;
                out.push(d);
                assert(text::views(out@) =~= seen.push(dv));
            },
            None => {},
        }
        i = i + 1;
    }
    proof {
        text::lemma_take_all(all);
    }
    out
}

/// Whether one of the names is that of a class of settings.
fn names_settings(names: &Vec<String>) -> (r: bool)
    ensures
        r == facts::has_settings(text::views(names@)),
{
    let ghost all = text::views(names@);
    let mut any = false;
    let mut i: usize = 0;
    while i < names.len()
        invariant
            i <= names@.len(),
            all == text::views(names@),
            any == facts::has_settings(all.take(i as int)),
        decreases names@.len() - i,
    {
        proof {
            text::lemma_take_step(all, i as int);
        }
        if ends_with(names[i].as_str(), "BaseSettings") {
            any = true;
        }
        i = i + 1;
    }
    proof {
        text::lemma_take_all(all);
    }
    any
}

/// The first line of the string that a body starts with.
fn doc_of(body: &Vec<&Stmt>) -> (r: Option<String>)
    ensures
        facts::text_if(r) == facts::doc_line(syntax::stmt_list(body@)),
{
    if body.len() == 0 {
        return None;
    }
    assert(syntax::stmt_list(body@)[0] == syntax::stmt_of(*body@[0]));
    match as_value(body[0]) {
        Some(v) => match literal_str(v) {
            Some(t) => {
                let core = trimmed(t.as_str());
                let ls = lines_of(core.as_str());
                assert(text::views(ls@).len() == ls@.len());
                if ls.len() == 0 {
                    None
                } else {
                    assert(text::views(ls@)[0] == ls@[0]@);
                    Some(trimmed(ls[0].as_str()))
                }
            },
            None => None,
        },
        None => None,
    }
}

/// Collects the facts of a file while its syntax tree is walked.
struct Collector {
    lines: Lines,
    /// The enclosing classes and functions, outermost first.
    scope: Vec<String>,
    in_function: bool,
    type_checking: bool,
    out: FileIndex,
}

impl Collector {
    /// Where the walk is.
    spec fn place(self) -> Place {
        Place {
            source: self.lines.chars@,
            scope: text::views(self.scope@),
            in_function: self.in_function,
            typing: self.type_checking,
        }
    }

    /// What was collected.
    spec fn found(self) -> Facts {
        facts::facts_of(self.out)
    }

    /// Whether `now` is `was` with more facts.
    spec fn more(was: Self, now: Self, facts: Facts) -> bool {
        &&& now.lines == was.lines
        &&& now.lines.wf()
        &&& now.place() == was.place()
        &&& now.out.path == was.out.path
        &&& now.found() == was.found().plus(facts)
    }

    /// Adding facts twice is adding them together.
    proof fn lemma_more(a: Self, b: Self, c: Self, x: Facts, y: Facts)
        requires
            Self::more(a, b, x),
            Self::more(b, c, y),
        ensures
            Self::more(a, c, x.plus(y)),
    {
        facts::lemma_plus(a.found(), x, y);
    }

    fn push_input(&mut self, kind: InputKind, value: String, start: u32)
        requires
            old(self).lines.wf(),
        ensures
            Self::more(
                *old(self),
                *final(self),
                Facts::of_input(old(self).place().input(kind, value@, start)),
            ),
    {
        let ghost was = *self;
        let pos = self.lines.pos(start);
        let ghost held = self.out.inputs@;
        let one = Input { kind, value, pos };
        self.out.inputs.push(one);
        proof {
            sort::lemma_each_push(held, one);
            assert(self.found() =~= was.found().plus(
                Facts::of_input(was.place().input(kind, value@, start)),
            ));
        }
    }

    fn push_effect(&mut self, kind: EffectKind, detail: String, start: u32)
        requires
            old(self).lines.wf(),
        ensures
            Self::more(
                *old(self),
                *final(self),
                Facts::of_effect(old(self).place().effect(kind, detail@, start)),
            ),
    {
        let ghost was = *self;
        let pos = self.lines.pos(start);
        let ghost held = self.out.effects@;
        let one = Effect {
            kind,
            detail,
            pos,
            scope: copy_strings(&self.scope),
            import_time: !self.in_function,
        };
        self.out.effects.push(one);
        proof {
            sort::lemma_each_push(held, one);
            assert(one@ =~= was.place().effect(kind, detail@, start));
            assert(self.found() =~= was.found().plus(
                Facts::of_effect(was.place().effect(kind, detail@, start)),
            ));
        }
    }

    fn push_ref(&mut self, name: String, start: u32, is_call: bool)
        requires
            old(self).lines.wf(),
        ensures
            Self::more(
                *old(self),
                *final(self),
                Facts::of_ref(old(self).place().use_of(name@, start, is_call)),
            ),
    {
        let ghost was = *self;
        let pos = self.lines.pos(start);
        let ghost held = self.out.refs@;
        assert(text::views(self.scope@).len() == self.scope@.len());
        let one = Ref { name, pos, offset: start, is_call, module_scope: self.scope.len() == 0 };
        self.out.refs.push(one);
        proof {
            sort::lemma_each_push(held, one);
            assert(self.found() =~= was.found().plus(
                Facts::of_ref(was.place().use_of(name@, start, is_call)),
            ));
        }
    }

    /// A plain binding.
    fn binding(&self, name: String, kind: DefKind, start: u32) -> (r: Def)
        requires
            self.lines.wf(),
        ensures
            r@ == self.place().binding(name@, kind, start),
    {
        let pos = self.lines.pos(start);
        assert(text::views(self.scope@).len() == self.scope@.len());
        let r = Def {
            name,
            kind,
            pos,
            offset: start,
            container: copy_strings(&self.scope),
            nested: self.scope.len() > 0,
            bases: Vec::new(),
            decorated: false,
            decorators: Vec::new(),
            signature: None,
            doc: None,
            end_line: pos.line,
        };
        assert(r@ =~= self.place().binding(name@, kind, start));
        r
    }

    fn push_def(&mut self, d: Def)
        requires
            old(self).lines.wf(),
        ensures
            Self::more(*old(self), *final(self), Facts::of_def(d@)),
    {
        let ghost was = *self;
        let ghost held = self.out.defs@;
        self.out.defs.push(d);
        proof {
            sort::lemma_each_push(held, d);
            assert(self.found() =~= was.found().plus(Facts::of_def(d@)));
        }
    }

    /// When an import that is met now runs.
    fn import_context(&self) -> (r: ImportContext)
        ensures
            r == self.place().context(),
    {
        if self.type_checking {
            ImportContext::TypeChecking
        } else if self.in_function {
            ImportContext::Deferred
        } else {
            ImportContext::TopLevel
        }
    }

    fn push_import(&mut self, i: ImportStmt)
        requires
            old(self).lines.wf(),
        ensures
            Self::more(*old(self), *final(self), Facts::of_import(i@)),
    {
        let ghost was = *self;
        let ghost held = self.out.imports@;
        self.out.imports.push(i);
        proof {
            sort::lemma_each_push(held, i);
            assert(self.found() =~= was.found().plus(Facts::of_import(i@)));
        }
    }

    fn push_mock(&mut self, target: Option<String>, start: u32)
        requires
            old(self).lines.wf(),
        ensures
            Self::more(
                *old(self),
                *final(self),
                Facts::of_mock(
                    (facts::MockView {
                        target: facts::text_if(target),
                        pos: lines::pos_at(old(self).place().source, start),
                    }),
                ),
            ),
    {
        let ghost was = *self;
        let pos = self.lines.pos(start);
        let ghost held = self.out.mocks@;
        let one = MockTarget { target, pos };
        self.out.mocks.push(one);
        proof {
            sort::lemma_each_push(held, one);
            assert(self.found() =~= was.found().plus(Facts::of_mock(one@)));
        }
    }

    /// Notes the facts that an expression itself is.
    fn note_expr(&mut self, e: &Expr)
        requires
            old(self).lines.wf(),
        ensures
            Self::more(
                *old(self),
                *final(self),
                facts::own_facts(old(self).place(), syntax::expr_of(*e)),
            ),
    {
        let ghost v = syntax::expr_of(*e);
        let ghost c = self.place();
        let start = expr_range(e).0;
        let ghost s0 = *self;
        let ghost a = match facts::input_of(v) {
            Some((kind, value)) => Facts::of_input(c.input(kind, value, v.start)),
            None => Facts::none(),
        };
        match input_of(e) {
            Some((kind, value)) => {
                self.push_input(kind, value, start);
            },
            None => {
                proof {
                    facts::lemma_plus(self.found(), Facts::none(), Facts::none());
                }
            },
        }
        assert(Self::more(s0, *self, a));
        let ghost s1 = *self;
        let ghost b = match facts::effect_of(v) {
            Some((kind, detail)) => Facts::of_effect(c.effect(kind, detail, v.start)),
            None => Facts::none(),
        };
        match effect_of(e) {
            Some((kind, detail)) => {
                self.push_effect(kind, detail, start);
            },
            None => {
                proof {
                    facts::lemma_plus(self.found(), Facts::none(), Facts::none());
                }
            },
        }
        assert(Self::more(s1, *self, b));
        proof {
            Self::lemma_more(s0, s1, *self, a, b);
        }
        let ghost s2 = *self;
        let ghost m = match facts::mock_of(v) {
            Some(target) => Facts::of_mock(
                (facts::MockView { target, pos: lines::pos_at(c.source, v.start) }),
            ),
            None => Facts::none(),
        };
        match mock_of(e) {
            Some(target) => {
                self.push_mock(target, start);
            },
            None => {
                proof {
                    facts::lemma_plus(self.found(), Facts::none(), Facts::none());
                }
            },
        }
        assert(Self::more(s2, *self, m));
        proof {
            Self::lemma_more(s0, s2, *self, a.plus(b), m);
        }
        let ghost s3 = *self;
        let ghost d = match facts::literal(v) {
            Some(t) => if facts::dotted_path(t) {
                Facts::of_dotted(t)
            } else {
                Facts::none()
            },
            None => Facts::none(),
        };
        let mut noted = false;
        match literal_str(e) {
            Some(t) => {
                if is_dotted_path(t.as_str()) {
                    let ghost seen = text::views(self.out.dotted_strings@);
                    let ghost tv = t@;
                    self.out.dotted_strings.push(t);
                    noted = true;
                    proof {
                        assert(text::views(self.out.dotted_strings@) =~= seen.push(tv));
                        assert(self.found() =~= s3.found().plus(Facts::of_dotted(tv)));
                    }
                }
            },
            None => {},
        }
        proof {
            if !noted {
                facts::lemma_plus(self.found(), Facts::none(), Facts::none());
            }
            assert(Self::more(s3, *self, d));
            Self::lemma_more(s0, s3, *self, a.plus(b).plus(m), d);
        }
    }

    /// Walks an expression.
    fn visit_expr(&mut self, e: &Expr)
        requires
            old(self).lines.wf(),
        ensures
            Self::more(
                *old(self),
                *final(self),
                facts::expr_facts(old(self).place(), syntax::expr_of(*e)),
            ),
        decreases syntax::expr_of(*e),
    {
        let ghost v = syntax::expr_of(*e);
        let ghost c = self.place();
        let ghost own = facts::own_facts(c, v);
        let ghost s0 = *self;
        self.note_expr(e);
        let ghost s1 = *self;
        match expr_shape(e) {
            Shape::Call(f, args, kws) => {
                proof {
                    assert(decreases_to!(v => v.shape));
                    assert(decreases_to!(v.shape => v.shape->Call_1));
                    assert(decreases_to!(v.shape => v.shape->Call_2));
                }
                match expr_shape(f) {
                    Shape::Name(id, _) => {
                        let start = expr_range(f).0;
                        let ghost r = Facts::of_ref(c.use_of(id@, start, true));
                        self.push_ref(id, start, true);
                        proof {
                            Self::lemma_more(s0, s1, *self, own, r);
                        }
                        let ghost s2 = *self;
                        self.visit_exprs(&args);
                        proof {
                            Self::lemma_more(
                                s0,
                                s2,
                                *self,
                                own.plus(r),
                                facts::exprs_facts(c, syntax::expr_list(args@)),
                            );
                        }
                        let ghost s3 = *self;
                        self.visit_exprs(&kws);
                        proof {
                            Self::lemma_more(
                                s0,
                                s3,
                                *self,
                                own.plus(r).plus(facts::exprs_facts(c, syntax::expr_list(args@))),
                                facts::exprs_facts(c, syntax::expr_list(kws@)),
                            );
                        }
                    },
                    _ => {
                        self.visit_inside(e);
                        proof {
                            Self::lemma_more(s0, s1, *self, own, facts::parts_facts(c, v.parts));
                        }
                    },
                }
            },
            Shape::Name(id, load) => {
                if load {
                    let start = expr_range(e).0;
                    let ghost r = Facts::of_ref(c.use_of(id@, start, false));
                    self.push_ref(id, start, false);
                    proof {
                        Self::lemma_more(s0, s1, *self, own, r);
                    }
                    let ghost s2 = *self;
                    self.visit_inside(e);
                    proof {
                        Self::lemma_more(
                            s0,
                            s2,
                            *self,
                            own.plus(r),
                            facts::parts_facts(c, v.parts),
                        );
                    }
                } else {
                    self.visit_inside(e);
                    proof {
                        Self::lemma_more(s0, s1, *self, own, facts::parts_facts(c, v.parts));
                    }
                }
            },
            _ => {
                self.visit_inside(e);
                proof {
                    Self::lemma_more(s0, s1, *self, own, facts::parts_facts(c, v.parts));
                }
            },
        }
    }

    /// Walks what stands in an expression.
    fn visit_inside(&mut self, e: &Expr)
        requires
            old(self).lines.wf(),
        ensures
            Self::more(
                *old(self),
                *final(self),
                facts::parts_facts(old(self).place(), syntax::expr_of(*e).parts),
            ),
        decreases syntax::expr_of(*e).parts, 1nat,
    {
        let parts = expr_parts(e);
        self.visit_parts(&parts);
    }

    /// Walks expressions.
    fn visit_exprs(&mut self, list: &Vec<&Expr>)
        requires
            old(self).lines.wf(),
        ensures
            Self::more(
                *old(self),
                *final(self),
                facts::exprs_facts(old(self).place(), syntax::expr_list(list@)),
            ),
        decreases syntax::expr_list(list@),
    {
        let ghost all = syntax::expr_list(list@);
        let ghost s0 = *self;
        let ghost c = self.place();
        let mut i: usize = 0;
        proof {
            facts::lemma_plus(self.found(), Facts::none(), Facts::none());
            assert(all.take(0) =~= Seq::empty());
        }
        while i < list.len()
            invariant
                i <= list@.len(),
                all == syntax::expr_list(list@),
                c == s0.place(),
                self.lines.wf(),
                Self::more(s0, *self, facts::exprs_facts(c, all.take(i as int))),
            decreases list@.len() - i,
        {
            let ghost s1 = *self;
            proof {
                text::lemma_take_step(all, i as int);
                assert(all[i as int] == syntax::expr_of(*list@[i as int]));
                assert(decreases_to!(all => all[i as int]));
            }
            self.visit_expr(list[i]);
            proof {
                Self::lemma_more(
                    s0,
                    s1,
                    *self,
                    facts::exprs_facts(c, all.take(i as int)),
                    facts::expr_facts(c, all[i as int]),
                );
            }
            i = i + 1;
        }
        proof {
            text::lemma_take_all(all);
        }
    }

    /// Walks what stands in a node.
    fn visit_parts(&mut self, list: &Vec<Part>)
        requires
            old(self).lines.wf(),
        ensures
            Self::more(
                *old(self),
                *final(self),
                facts::parts_facts(old(self).place(), syntax::part_list(list@)),
            ),
        decreases syntax::part_list(list@), 0nat,
    {
        let ghost all = syntax::part_list(list@);
        let ghost s0 = *self;
        let ghost c = self.place();
        let mut i: usize = 0;
        proof {
            facts::lemma_plus(self.found(), Facts::none(), Facts::none());
            assert(all.take(0) =~= Seq::empty());
        }
        while i < list.len()
            invariant
                i <= list@.len(),
                all == syntax::part_list(list@),
                c == s0.place(),
                self.lines.wf(),
                Self::more(s0, *self, facts::parts_facts(c, all.take(i as int))),
            decreases list@.len() - i,
        {
            let ghost s1 = *self;
            let ghost before = facts::parts_facts(c, all.take(i as int));
            proof {
                text::lemma_take_step(all, i as int);
                assert(all[i as int] == syntax::part_of(list@[i as int]));
                assert(decreases_to!(all => all[i as int]));
            }
            match &list[i] {
                Part::Stmt(s) => {
                    proof {
                        assert(decreases_to!(all[i as int] => all[i as int]->Stmt_0));
                    }
                    self.visit_stmt(s);
                    proof {
                        Self::lemma_more(
                            s0,
                            s1,
                            *self,
                            before,
                            facts::stmt_facts(c, syntax::stmt_of(**s)),
                        );
                    }
                },
                Part::Expr(e) => {
                    proof {
                        assert(decreases_to!(all[i as int] => all[i as int]->Expr_0));
                    }
                    self.visit_expr(e);
                    proof {
                        Self::lemma_more(
                            s0,
                            s1,
                            *self,
                            before,
                            facts::expr_facts(c, syntax::expr_of(**e)),
                        );
                    }
                },
            }
            i = i + 1;
        }
        proof {
            text::lemma_take_all(all);
        }
    }

    /// The source of expressions, each with its words one blank apart.
    fn sources(&self, list: &Vec<&Expr>) -> (r: Vec<String>)
        requires
            self.lines.wf(),
        ensures
            text::views(r@) == facts::sources(self.place().source, syntax::expr_list(list@)),
    {
        let ghost all = facts::sources(self.place().source, syntax::expr_list(list@));
        let mut out: Vec<String> = Vec::new();
        let mut i: usize = 0;
        while i < list.len()
            invariant
                i <= list@.len(),
                self.lines.wf(),
                all == facts::sources(self.place().source, syntax::expr_list(list@)),
                text::views(out@) == all.take(i as int),
            decreases list@.len() - i,
        {
            let (from, to) = expr_range(list[i]);
            let raw = self.lines.slice(from, to);
            let ghost seen = text::views(out@);
            let one = squeeze(raw.as_str());
            out.push(one);
            proof {
                assert(syntax::expr_list(list@)[i as int] == syntax::expr_of(*list@[i as int]));
                assert(text::views(out@) =~= seen.push(all[i as int]));
                assert(all.take(i + 1) =~= all.take(i as int).push(all[i as int]));
            }
            i = i + 1;
        }
        assert(all.take(all.len() as int) =~= all);
        out
    }

    /// The parameters and the return annotation of a function.
    fn signature(&self, f: &Function) -> (r: String)
        requires
            self.lines.wf(),
        ensures
            r@ == facts::signature(
                self.place().source,
                f.params,
                syntax::expr_if(f.annotation),
            ),
    {
        let raw = self.lines.slice(f.params.0, f.params.1);
        let list = squeeze(raw.as_str());
        match f.annotation {
            Some(a) => {
                let (from, to) = expr_range(a);
                let shown = self.lines.slice(from, to);
                let tail = squeeze(shown.as_str());
                cat3(list.as_str(), " -> ", tail.as_str())
            },
            None => list,
        }
    }

    /// Notes a function.
    fn note_function(&mut self, s: &Stmt, f: &Function)
        requires
            old(self).lines.wf(),
            syntax::stmt_of(*s).form == syntax::FormView::Function(
                f.name@,
                syntax::expr_list(f.decorators@),
                f.params,
                syntax::expr_if(f.annotation),
                syntax::stmt_list(f.body@),
            ),
        ensures
            Self::more(
                *old(self),
                *final(self),
                facts::stmt_own(old(self).place(), syntax::stmt_of(*s)),
            ),
    {
        let ghost c = self.place();
        let (_, end) = stmt_range(s);
        let mut d = self.binding(f.name.name.clone(), DefKind::Function, f.name.start);
        assert(syntax::expr_list(f.decorators@).len() == f.decorators@.len());
        d.decorated = f.decorators.len() > 0;
        d.decorators = self.sources(&f.decorators);
        d.signature = Some(self.signature(f));
        d.doc = doc_of(&f.body);
        d.end_line = self.lines.pos(end).line;
        proof {
            assert(d@ =~= facts::function_def(
                c,
                syntax::stmt_of(*s),
                f.name@,
                syntax::expr_list(f.decorators@),
                f.params,
                syntax::expr_if(f.annotation),
                syntax::stmt_list(f.body@),
            ));
        }
        self.push_def(d);
    }

    /// Notes the annotated fields of a class of settings.
    fn note_settings(&mut self, body: &Vec<&Stmt>)
        requires
            old(self).lines.wf(),
        ensures
            Self::more(
                *old(self),
                *final(self),
                facts::settings_facts(old(self).place(), syntax::stmt_list(body@)),
            ),
    {
        let ghost all = syntax::stmt_list(body@);
        let ghost s0 = *self;
        let ghost c = self.place();
        let mut i: usize = 0;
        proof {
            facts::lemma_plus(self.found(), Facts::none(), Facts::none());
            assert(all.take(0) =~= Seq::empty());
        }
        while i < body.len()
            invariant
                i <= body@.len(),
                all == syntax::stmt_list(body@),
                c == s0.place(),
                self.lines.wf(),
                Self::more(s0, *self, facts::settings_facts(c, all.take(i as int))),
            decreases body@.len() - i,
        {
            let ghost s1 = *self;
            let ghost before = facts::settings_facts(c, all.take(i as int));
            proof {
                text::lemma_take_step(all, i as int);
                assert(all[i as int] == syntax::stmt_of(*body@[i as int]));
            }
            match as_ann_assign(body[i]) {
                Some(t) => match expr_shape(t) {
                    Shape::Name(id, _) => {
                        let start = expr_range(t).0;
                        let ghost one = Facts::of_input(c.input(InputKind::Setting, id@, start));
                        self.push_input(InputKind::Setting, id, start);
                        proof {
                            Self::lemma_more(s0, s1, *self, before, one);
                        }
                    },
                    _ => {},
                },
                None => {},
            }
            i = i + 1;
        }
        proof {
            text::lemma_take_all(all);
        }
    }

    /// Notes a class.
    fn note_class(&mut self, s: &Stmt, k: &Class)
        requires
            old(self).lines.wf(),
            syntax::stmt_of(*s).form == syntax::FormView::Class(
                k.name@,
                syntax::expr_list(k.decorators@),
                syntax::expr_list(k.bases@),
                syntax::stmt_list(k.body@),
            ),
        ensures
            Self::more(
                *old(self),
                *final(self),
                facts::stmt_own(old(self).place(), syntax::stmt_of(*s)),
            ),
    {
        let ghost c = self.place();
        let ghost s0 = *self;
        let (_, end) = stmt_range(s);
        let bases = class_bases(&k.bases);
        let settings = names_settings(&bases);
        let mut d = self.binding(k.name.name.clone(), DefKind::Class, k.name.start);
        assert(syntax::expr_list(k.decorators@).len() == k.decorators@.len());
        d.bases = bases;
        d.decorated = k.decorators.len() > 0;
        d.decorators = self.sources(&k.decorators);
        d.doc = doc_of(&k.body);
        d.end_line = self.lines.pos(end).line;
        let ghost def = facts::class_def(
            c,
            syntax::stmt_of(*s),
            k.name@,
            syntax::expr_list(k.decorators@),
            syntax::expr_list(k.bases@),
            syntax::stmt_list(k.body@),
        );
        assert(d@ =~= def);
        self.push_def(d);
        let ghost s1 = *self;
        if settings {
            self.note_settings(&k.body);
            proof {
                Self::lemma_more(
                    s0,
                    s1,
                    *self,
                    Facts::of_def(def),
                    facts::settings_facts(c, syntax::stmt_list(k.body@)),
                );
            }
        } else {
            proof {
                facts::lemma_plus(Facts::of_def(def), Facts::none(), Facts::none());
            }
        }
    }

    /// Notes the names that targets bind, and says whether one is `__all__`.
    fn note_targets(&mut self, targets: &Vec<&Expr>) -> (r: bool)
        requires
            old(self).lines.wf(),
        ensures
            Self::more(
                *old(self),
                *final(self),
                facts::target_facts(old(self).place(), syntax::expr_list(targets@)),
            ),
            r == facts::targets_name(syntax::expr_list(targets@), "__all__"@),
    {
        let ghost all = syntax::expr_list(targets@);
        let ghost s0 = *self;
        let ghost c = self.place();
        let mut exports = false;
        let mut i: usize = 0;
        proof {
            facts::lemma_plus(self.found(), Facts::none(), Facts::none());
            assert(all.take(0) =~= Seq::empty());
        }
        while i < targets.len()
            invariant
                i <= targets@.len(),
                all == syntax::expr_list(targets@),
                c == s0.place(),
                self.lines.wf(),
                Self::more(s0, *self, facts::target_facts(c, all.take(i as int))),
                exports == facts::targets_name(all.take(i as int), "__all__"@),
            decreases targets@.len() - i,
        {
            let ghost s1 = *self;
            let ghost before = facts::target_facts(c, all.take(i as int));
            proof {
                text::lemma_take_step(all, i as int);
                assert(all[i as int] == syntax::expr_of(*targets@[i as int]));
            }
            match expr_shape(targets[i]) {
                Shape::Name(id, _) => {
                    if same(id.as_str(), "__all__") {
                        exports = true;
                    }
                    let start = expr_range(targets[i]).0;
                    let d = self.binding(id, DefKind::Variable, start);
                    let ghost one = Facts::of_def(d@);
                    self.push_def(d);
                    proof {
                        Self::lemma_more(s0, s1, *self, before, one);
                    }
                },
                _ => {},
            }
            i = i + 1;
        }
        proof {
            text::lemma_take_all(all);
        }
        exports
    }

    /// Notes the names that a module exports by a list.
    fn note_exports(&mut self, assigned: bool, value: &Expr)
        requires
            old(self).lines.wf(),
        ensures
            Self::more(
                *old(self),
                *final(self),
                facts::export_facts(old(self).place(), assigned, syntax::expr_of(*value)),
            ),
    {
        let ghost s0 = *self;
        assert(text::views(self.scope@).len() == self.scope@.len());
        if assigned && self.scope.len() == 0 {
            match expr_shape(value) {
                Shape::Items(items) => {
                    let names = literals_of(&items);
                    let ghost list = text::views(names@);
                    let ghost held = text::views(self.out.dunder_all@);
                    let mut i: usize = 0;
                    assert(held + list.take(0) =~= held);
                    while i < names.len()
                        invariant
                            i <= names@.len(),
                            list == text::views(names@),
                            text::views(self.out.dunder_all@) == held + list.take(i as int),
                            self.lines == s0.lines,
                            self.scope == s0.scope,
                            self.in_function == s0.in_function,
                            self.type_checking == s0.type_checking,
                            self.out == (FileIndex { dunder_all: self.out.dunder_all, ..s0.out }),
                        decreases names@.len() - i,
                    {
                        let ghost seen = text::views(self.out.dunder_all@);
                        self.out.dunder_all.push(names[i].clone());
                        proof {
                            assert(text::views(self.out.dunder_all@) =~= seen.push(list[i as int]));
                            assert(list.take(i + 1) =~= list.take(i as int).push(list[i as int]));
                            assert((held + list.take(i as int)).push(list[i as int]) =~= held
                                + list.take(i + 1));
                        }
                        i = i + 1;
                    }
                    proof {
                        text::lemma_take_all(list);
                        assert(self.found() =~= s0.found().plus(Facts::of_exported(list)));
                    }
                    return;
                },
                _ => {},
            }
        }
        proof {
            facts::lemma_plus(self.found(), Facts::none(), Facts::none());
        }
    }

    /// Notes an assignment.
    fn note_assign(&mut self, targets: &Vec<&Expr>, value: &Expr)
        requires
            old(self).lines.wf(),
        ensures
            Self::more(
                *old(self),
                *final(self),
                facts::target_facts(old(self).place(), syntax::expr_list(targets@)).plus(
                    facts::mapping_facts(old(self).place(), syntax::expr_of(*value)),
                ).plus(
                    facts::export_facts(
                        old(self).place(),
                        facts::targets_name(syntax::expr_list(targets@), "__all__"@),
                        syntax::expr_of(*value),
                    ),
                ),
            ),
    {
        let ghost c = self.place();
        let ghost v = syntax::expr_of(*value);
        let ghost s0 = *self;
        let ghost a = facts::target_facts(c, syntax::expr_list(targets@));
        let exports = self.note_targets(targets);
        let ghost s1 = *self;
        let name = dotted_name(value);
        if is_environ(&name) {
            let start = expr_range(value).0;
            self.push_input(InputKind::Env, "<dynamic>".to_owned(), start);
        } else {
            proof {
                facts::lemma_plus(self.found(), Facts::none(), Facts::none());
            }
        }
        proof {
            Self::lemma_more(s0, s1, *self, a, facts::mapping_facts(c, v));
        }
        let ghost s2 = *self;
        self.note_exports(exports, value);
        proof {
            Self::lemma_more(
                s0,
                s2,
                *self,
                a.plus(facts::mapping_facts(c, v)),
                facts::export_facts(c, exports, v),
            );
        }
    }

    /// The binding of a name that an import binds.
    fn imported(&self, b: &Bound) -> (r: Def)
        requires
            self.lines.wf(),
        ensures
            r@ == self.place().binding(
                facts::bound_id(b@).name,
                DefKind::Import,
                facts::bound_id(b@).start,
            ),
    {
        match &b.asname {
            Some(n) => self.binding(n.name.clone(), DefKind::Import, n.start),
            None => self.binding(b.name.name.clone(), DefKind::Import, b.name.start),
        }
    }

    /// Notes an `import`.
    fn note_import(&mut self, start: u32, list: &Vec<Bound>)
        requires
            old(self).lines.wf(),
        ensures
            Self::more(
                *old(self),
                *final(self),
                facts::import_facts(old(self).place(), start, syntax::bounds_of(list@)),
            ),
    {
        let ghost all = syntax::bounds_of(list@);
        let ghost s0 = *self;
        let ghost c = self.place();
        let mut i: usize = 0;
        proof {
            facts::lemma_plus(self.found(), Facts::none(), Facts::none());
            assert(all.take(0) =~= Seq::empty());
        }
        while i < list.len()
            invariant
                i <= list@.len(),
                all == syntax::bounds_of(list@),
                c == s0.place(),
                self.lines.wf(),
                Self::more(s0, *self, facts::import_facts(c, start, all.take(i as int))),
            decreases list@.len() - i,
        {
            let ghost s1 = *self;
            let ghost before = facts::import_facts(c, start, all.take(i as int));
            proof {
                text::lemma_take_step(all, i as int);
                assert(all[i as int] == list@[i as int]@);
            }
            let d = self.imported(&list[i]);
            let ghost one = Facts::of_def(d@);
            self.push_def(d);
            proof {
                Self::lemma_more(s0, s1, *self, before, one);
            }
            let ghost s2 = *self;
            let none: Vec<String> = Vec::new();
            assert(text::views(none@) =~= Seq::empty());
            let edge = ImportStmt {
                module: list[i].name.name.clone(),
                level: 0,
                names: none,
                context: self.import_context(),
                pos: self.lines.pos(start),
            };
            self.push_import(edge);
            proof {
                Self::lemma_more(s0, s2, *self, before.plus(one), Facts::of_import(edge@));
            }
            i = i + 1;
        }
        proof {
            text::lemma_take_all(all);
        }
    }

    /// Notes a `from` import.
    fn note_from(&mut self, start: u32, module: &Option<Id>, level: u32, list: &Vec<Bound>)
        requires
            old(self).lines.wf(),
        ensures
            Self::more(
                *old(self),
                *final(self),
                facts::from_facts(
                    old(self).place(),
                    start,
                    match *module {
                        Some(m) => Some(m@),
                        None => None,
                    },
                    level,
                    syntax::bounds_of(list@),
                ),
            ),
    {
        let ghost all = syntax::bounds_of(list@);
        let ghost s0 = *self;
        let ghost c = self.place();
        let ghost shown = Seq::new(all.len(), |i: int| all[i].name.name);
        let mut names: Vec<String> = Vec::new();
        let mut i: usize = 0;
        proof {
            facts::lemma_plus(self.found(), Facts::none(), Facts::none());
            assert(all.take(0) =~= Seq::empty());
        }
        while i < list.len()
            invariant
                i <= list@.len(),
                all == syntax::bounds_of(list@),
                shown == Seq::new(all.len(), |i: int| all[i].name.name),
                c == s0.place(),
                self.lines.wf(),
                Self::more(s0, *self, facts::from_defs(c, all.take(i as int))),
                text::views(names@) == shown.take(i as int),
            decreases list@.len() - i,
        {
            let ghost s1 = *self;
            let ghost before = facts::from_defs(c, all.take(i as int));
            proof {
                text::lemma_take_step(all, i as int);
                assert(all[i as int] == list@[i as int]@);
            }
            let d = self.imported(&list[i]);
            let ghost one = Facts::of_def(d@);
            self.push_def(d);
            let ghost seen = text::views(names@);
            names.push(list[i].name.name.clone());
            proof {
                Self::lemma_more(s0, s1, *self, before, one);
                assert(text::views(names@) =~= seen.push(shown[i as int]));
                assert(shown.take(i + 1) =~= shown.take(i as int).push(shown[i as int]));
            }
            i = i + 1;
        }
        proof {
            text::lemma_take_all(all);
            text::lemma_take_all(shown);
        }
        let ghost s2 = *self;
        let from = match module {
            Some(m) => m.name.clone(),
            None => {
                let none = String::new();
                assert(none@ =~= Seq::empty());
                none
            },
        };
        let edge = ImportStmt {
            module: from,
            level,
            names,
            context: self.import_context(),
            pos: self.lines.pos(start),
        };
        self.push_import(edge);
        proof {
            Self::lemma_more(s0, s2, *self, facts::from_defs(c, all), Facts::of_import(edge@));
        }
    }

    /// Notes a `global` statement.
    fn note_global(&mut self, start: u32, ids: &Vec<Id>)
        requires
            old(self).lines.wf(),
            old(self).in_function,
        ensures
            Self::more(
                *old(self),
                *final(self),
                Facts::of_effect(
                    old(self).place().effect(
                        EffectKind::GlobalState,
                        text::join(facts::global_names(syntax::ids_of(ids@)), ", "@),
                        start,
                    ),
                ),
            ),
    {
        let ghost all = facts::global_names(syntax::ids_of(ids@));
        let mut names: Vec<String> = Vec::new();
        let mut i: usize = 0;
        while i < ids.len()
            invariant
                i <= ids@.len(),
                all == facts::global_names(syntax::ids_of(ids@)),
                text::views(names@) == all.take(i as int),
            decreases ids@.len() - i,
        {
            let ghost seen = text::views(names@);
            names.push(ids[i].name.clone());
            proof {
                assert(syntax::ids_of(ids@)[i as int] == ids@[i as int]@);
                assert(text::views(names@) =~= seen.push(all[i as int]));
                assert(all.take(i + 1) =~= all.take(i as int).push(all[i as int]));
            }
            i = i + 1;
        }
        assert(all.take(all.len() as int) =~= all);
        let detail = join_with(&names, ", ");
        self.push_effect(EffectKind::GlobalState, detail, start);
    }

    /// Notes the facts that a statement itself is, other than a function or a class.
    fn note_stmt(&mut self, s: &Stmt)
        requires
            old(self).lines.wf(),
            !(syntax::stmt_of(*s).form is Function),
            !(syntax::stmt_of(*s).form is Class),
        ensures
            Self::more(
                *old(self),
                *final(self),
                facts::stmt_own(old(self).place(), syntax::stmt_of(*s)),
            ),
    {
        let ghost s0 = *self;
        let start = stmt_range(s).0;
        if let Some(i) = as_if(s) {
            assert(text::views(self.scope@).len() == self.scope@.len());
            if is_main_guard(i.test) && self.scope.len() == 0 {
                self.out.has_main_guard = true;
                assert(self.found() =~= s0.found().plus(Facts::of_guard()));
                return;
            }
        } else if let Some((targets, value)) = as_assign(s) {
            self.note_assign(&targets, value);
            return;
        } else if let Some((target, value)) = as_aug_assign(s) {
            let exports = is_named(target, "__all__");
            self.note_exports(exports, value);
            return;
        } else if let Some(list) = as_import(s) {
            self.note_import(start, &list);
            return;
        } else if let Some((module, level, list)) = as_import_from(s) {
            self.note_from(start, &module, level, &list);
            return;
        } else if let Some(ids) = as_global(s) {
            if self.in_function {
                self.note_global(start, &ids);
                return;
            }
        }
        proof {
            facts::lemma_plus(self.found(), Facts::none(), Facts::none());
        }
    }

    /// Walks statements.
    fn visit_stmts(&mut self, list: &Vec<&Stmt>)
        requires
            old(self).lines.wf(),
        ensures
            Self::more(
                *old(self),
                *final(self),
                facts::stmts_facts(old(self).place(), syntax::stmt_list(list@)),
            ),
        decreases syntax::stmt_list(list@),
    {
        let ghost all = syntax::stmt_list(list@);
        let ghost s0 = *self;
        let ghost c = self.place();
        let mut i: usize = 0;
        proof {
            facts::lemma_plus(self.found(), Facts::none(), Facts::none());
            assert(all.take(0) =~= Seq::empty());
        }
        while i < list.len()
            invariant
                i <= list@.len(),
                all == syntax::stmt_list(list@),
                c == s0.place(),
                self.lines.wf(),
                Self::more(s0, *self, facts::stmts_facts(c, all.take(i as int))),
            decreases list@.len() - i,
        {
            let ghost s1 = *self;
            proof {
                text::lemma_take_step(all, i as int);
                assert(all[i as int] == syntax::stmt_of(*list@[i as int]));
                assert(decreases_to!(all => all[i as int]));
            }
            self.visit_stmt(list[i]);
            proof {
                Self::lemma_more(
                    s0,
                    s1,
                    *self,
                    facts::stmts_facts(c, all.take(i as int)),
                    facts::stmt_facts(c, all[i as int]),
                );
            }
            i = i + 1;
        }
        proof {
            text::lemma_take_all(all);
        }
    }

    /// Walks the other branches of an `if`.
    fn visit_branches(&mut self, list: &Vec<Branch>)
        requires
            old(self).lines.wf(),
        ensures
            Self::more(
                *old(self),
                *final(self),
                facts::branches_facts(old(self).place(), syntax::branches_of(list@)),
            ),
        decreases syntax::branches_of(list@),
    {
        let ghost all = syntax::branches_of(list@);
        let ghost s0 = *self;
        let ghost c = self.place();
        let mut i: usize = 0;
        proof {
            facts::lemma_plus(self.found(), Facts::none(), Facts::none());
            assert(all.take(0) =~= Seq::empty());
        }
        while i < list.len()
            invariant
                i <= list@.len(),
                all == syntax::branches_of(list@),
                c == s0.place(),
                self.lines.wf(),
                Self::more(s0, *self, facts::branches_facts(c, all.take(i as int))),
            decreases list@.len() - i,
        {
            let ghost s1 = *self;
            let b = &list[i];
            let ghost before = facts::branches_facts(c, all.take(i as int));
            let ghost one = all[i as int];
            proof {
                text::lemma_take_step(all, i as int);
                assert(decreases_to!(all => all[i as int]));
                assert(decreases_to!(one => one.0));
                assert(decreases_to!(one => one.1));
            }
            let ghost mut so_far = before;
            match b.test {
                Some(test) => {
                    proof {
                        assert(decreases_to!(one.0 => one.0->0));
                    }
                    self.visit_expr(test);
                    proof {
                        Self::lemma_more(
                            s0,
                            s1,
                            *self,
                            before,
                            facts::expr_facts(c, syntax::expr_of(*test)),
                        );
                        so_far = before.plus(facts::expr_facts(c, syntax::expr_of(*test)));
                    }
                },
                None => {},
            }
            let ghost s2 = *self;
            self.visit_stmts(&b.body);
            proof {
                Self::lemma_more(
                    s0,
                    s2,
                    *self,
                    so_far,
                    facts::stmts_facts(c, syntax::stmt_list(b.body@)),
                );
            }
            i = i + 1;
        }
        proof {
            text::lemma_take_all(all);
        }
    }

    /// Walks what stands in a function or class.
    fn visit_within(&mut self, s: &Stmt, name: &String, function: bool)
        requires
            old(self).lines.wf(),
        ensures
            Self::more(
                *old(self),
                *final(self),
                facts::parts_facts(
                    old(self).place().within(name@, function),
                    syntax::stmt_of(*s).parts,
                ),
            ),
        decreases syntax::stmt_of(*s).parts, 1nat,
    {
        let ghost c = self.place();
        let was = self.in_function;
        self.scope.push(name.clone());
        if function {
            self.in_function = true;
        }
        proof {
            assert(text::views(self.scope@) =~= c.scope.push(name@));
            assert(self.place() == c.within(name@, function));
        }
        let parts = stmt_parts(s);
        self.visit_parts(&parts);
        self.in_function = was;
        let ghost inside = self.scope@;
        let _last = self.scope.pop();
        proof {
            assert(text::views(inside) == c.scope.push(name@));
            assert(inside.len() == c.scope.len() + 1);
            assert forall|i: int| 0 <= i < c.scope.len() implies text::views(self.scope@)[i]
                == c.scope[i] by {
                assert(text::views(inside)[i] == c.scope.push(name@)[i]);
            }
            assert(text::views(self.scope@) =~= c.scope);
        }
    }

    /// Walks an `if TYPE_CHECKING:` statement. What its body imports is for types
    /// alone; its other branches run.
    fn visit_typing(&mut self, test: &Expr, body: &Vec<&Stmt>, branches: &Vec<Branch>, Ghost(s): Ghost<syntax::StmtView>)
        requires
            old(self).lines.wf(),
            s.form == syntax::FormView::If(
                Box::new(syntax::expr_of(*test)),
                syntax::stmt_list(body@),
                syntax::branches_of(branches@),
            ),
        ensures
            Self::more(
                *old(self),
                *final(self),
                facts::expr_facts(old(self).place(), syntax::expr_of(*test)).plus(
                    facts::stmts_facts(old(self).place().typed(), syntax::stmt_list(body@)),
                ).plus(
                    facts::branches_facts(old(self).place(), syntax::branches_of(branches@)),
                ),
            ),
        decreases s.form,
    {
        let ghost s0 = *self;
        let ghost c = self.place();
        proof {
            assert(decreases_to!(s.form => s.form->If_0));
            assert(decreases_to!(s.form => s.form->If_1));
            assert(decreases_to!(s.form => s.form->If_2));
        }
        let ghost a = facts::expr_facts(c, syntax::expr_of(*test));
        self.visit_expr(test);
        let ghost s1 = *self;
        let was = self.type_checking;
        self.type_checking = true;
        let ghost b = facts::stmts_facts(c.typed(), syntax::stmt_list(body@));
        assert(self.place() == c.typed());
        self.visit_stmts(body);
        self.type_checking = was;
        proof {
            assert(self.place() == c);
            assert(Self::more(s1, *self, b));
            Self::lemma_more(s0, s1, *self, a, b);
        }
        let ghost s2 = *self;
        self.visit_branches(branches);
        proof {
            Self::lemma_more(
                s0,
                s2,
                *self,
                a.plus(b),
                facts::branches_facts(c, syntax::branches_of(branches@)),
            );
        }
    }

    /// Walks a statement.
    fn visit_stmt(&mut self, s: &Stmt)
        requires
            old(self).lines.wf(),
        ensures
            Self::more(
                *old(self),
                *final(self),
                facts::stmt_facts(old(self).place(), syntax::stmt_of(*s)),
            ),
        decreases syntax::stmt_of(*s),
    {
        let ghost v = syntax::stmt_of(*s);
        let ghost c = self.place();
        let ghost s0 = *self;
        let ghost own = facts::stmt_own(c, v);
        proof {
            assert(decreases_to!(v => v.parts));
            assert(decreases_to!(v => v.form));
        }
        if let Some(f) = as_function(s) {
            self.note_function(s, &f);
            let ghost s1 = *self;
            self.visit_within(s, &f.name.name, true);
            proof {
                Self::lemma_more(
                    s0,
                    s1,
                    *self,
                    own,
                    facts::parts_facts(c.within(f.name.name@, true), v.parts),
                );
            }
            return;
        }
        if let Some(k) = as_class(s) {
            self.note_class(s, &k);
            let ghost s1 = *self;
            self.visit_within(s, &k.name.name, false);
            proof {
                Self::lemma_more(
                    s0,
                    s1,
                    *self,
                    own,
                    facts::parts_facts(c.within(k.name.name@, false), v.parts),
                );
            }
            return;
        }
        if let Some(i) = as_if(s) {
            if is_type_checking(i.test) {
                self.visit_typing(i.test, &i.body, &i.branches, Ghost(v));
                return;
            }
        }
        self.note_stmt(s);
        let ghost s1 = *self;
        let parts = stmt_parts(s);
        self.visit_parts(&parts);
        proof {
            Self::lemma_more(s0, s1, *self, own, facts::parts_facts(c, v.parts));
        }
    }
}

/// The facts of a file that parses to these statements.
pub fn collect(path: &str, source: &str, tree: &Vec<Stmt>) -> (r: FileIndex)
    requires
        syntax::byte_len(source@) <= u32::MAX,
        source@.len() < usize::MAX,
    ensures
        r.path@ == path@,
        facts::facts_of(r) == facts::stmts_facts(facts::top(source@), syntax::stmts_of(tree@)),
{
    let mut collector = Collector {
        lines: Lines::new(source),
        scope: Vec::new(),
        in_function: false,
        type_checking: false,
        out: FileIndex {
            path: path.to_owned(),
            defs: Vec::new(),
            refs: Vec::new(),
            inputs: Vec::new(),
            imports: Vec::new(),
            effects: Vec::new(),
            mocks: Vec::new(),
            dotted_strings: Vec::new(),
            dunder_all: Vec::new(),
            has_main_guard: false,
        },
    };
    let ghost c = facts::top(source@);
    let ghost all = syntax::stmts_of(tree@);
    proof {
        assert(collector.place().scope =~= Seq::empty());
        assert(collector.found() =~= Facts::none());
        assert(all.take(0) =~= Seq::empty());
    }
    let ghost s0 = collector;
    let mut i: usize = 0;
    proof {
        facts::lemma_plus(Facts::none(), Facts::none(), Facts::none());
    }
    while i < tree.len()
        invariant
            i <= tree@.len(),
            all == syntax::stmts_of(tree@),
            c == s0.place(),
            s0.found() == Facts::none(),
            s0.out.path@ == path@,
            Collector::more(s0, collector, facts::stmts_facts(c, all.take(i as int))),
        decreases tree@.len() - i,
    {
        let ghost s1 = collector;
        proof {
            text::lemma_take_step(all, i as int);
            assert(all[i as int] == syntax::stmt_of(tree@[i as int]));
        }
        collector.visit_stmt(&tree[i]);
        proof {
            Collector::lemma_more(
                s0,
                s1,
                collector,
                facts::stmts_facts(c, all.take(i as int)),
                facts::stmt_facts(c, all[i as int]),
            );
        }
        i = i + 1;
    }
    proof {
        text::lemma_take_all(all);
        facts::lemma_plus(facts::stmts_facts(c, all), Facts::none(), Facts::none());
    }
    collector.out
}

/// The facts of a file: its definitions, uses, inputs, imports, effects and patches,
/// as far as it parses. `path` is noted as it is; it ends in `.pyi` for a stub.
pub fn extract(path: &str, source: &str) -> (r: FileIndex)
    requires
        syntax::byte_len(source@) <= u32::MAX,
        source@.len() < usize::MAX,
    ensures
        r.path@ == path@,
        facts::facts_of(r) == facts::stmts_facts(
            facts::top(source@),
            syntax::parsed(source@, text::ends(path@, ".pyi"@)),
        ),
{
    let stub = ends_with(path, ".pyi");
    let tree = parse(source, stub);
    collect(path, source, &tree)
}

} // verus!
