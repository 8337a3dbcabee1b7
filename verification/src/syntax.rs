//! The syntax trees of Python files, as `ruff_python_parser` makes them.
//!
//! The nodes stay those of `ruff_python_ast`. What a node holds is a tree of this
//! module's own, of which each function here opens one level.
use ruff_python_ast::visitor::{walk_expr, walk_stmt, Visitor};
use ruff_python_ast::{Alias, CmpOp, Expr, ExprContext, Identifier, PySourceType, Stmt};
use ruff_text_size::Ranged;
use vstd::prelude::*;

verus! {

/// An expression of `ruff_python_ast`.
#[verifier::external_type_specification]
#[verifier::external_body]
pub struct ExExpr(ruff_python_ast::Expr);

/// A statement of `ruff_python_ast`.
#[verifier::external_type_specification]
#[verifier::external_body]
pub struct ExStmt(ruff_python_ast::Stmt);

/// How the first operator of a comparison compares.
#[derive(Clone, Copy, Debug, PartialEq, Eq, Structural)]
pub enum Test {
    /// `in`.
    In,
    /// `not in`.
    NotIn,
    /// `==`.
    Equality,
    Other,
}

/// What kind of expression a node is, with what matters of it.
pub enum ShapeView {
    /// A name, and whether it is read.
    Name(Seq<char>, bool),
    /// An attribute of a value.
    Attribute(Box<ExprView>, Seq<char>),
    /// A call: the callee, the positional arguments, the values of the keyword
    /// arguments.
    Call(Box<ExprView>, Seq<ExprView>, Seq<ExprView>),
    /// An item of a value.
    Subscript(Box<ExprView>, Box<ExprView>),
    /// A comparison: what is compared, how first, with what.
    Compare(Box<ExprView>, Test, Seq<ExprView>),
    /// A string.
    Text(Seq<char>),
    /// A list or a tuple.
    Items(Seq<ExprView>),
    Other,
}

/// An expression: the byte offsets of its ends, its kind, and all that stands
/// directly in it, in the order of evaluation.
pub struct ExprView {
    pub start: u32,
    pub end: u32,
    pub shape: ShapeView,
    pub parts: Seq<PartView>,
}

/// A name and its byte offset.
pub struct IdView {
    pub name: Seq<char>,
    pub start: u32,
}

/// A name that an import binds, and the name that it binds it to.
pub struct AliasView {
    pub name: IdView,
    pub asname: Option<IdView>,
}

/// What kind of statement a node is, with what matters of it.
pub enum FormView {
    /// A function: its name, its decorators, the byte offsets of the ends of its
    /// parameters, its return annotation, its body.
    Function(IdView, Seq<ExprView>, (u32, u32), Option<Box<ExprView>>, Seq<StmtView>),
    /// A class: its name, its decorators, its positional arguments, its body.
    Class(IdView, Seq<ExprView>, Seq<ExprView>, Seq<StmtView>),
    /// An `if`: its test, its body, its other branches.
    If(Box<ExprView>, Seq<StmtView>, Seq<(Option<ExprView>, Seq<StmtView>)>),
    /// An assignment: its targets, its value.
    Assign(Seq<ExprView>, Box<ExprView>),
    /// An augmented assignment: its target, its value.
    AugAssign(Box<ExprView>, Box<ExprView>),
    /// An annotated assignment: its target.
    AnnAssign(Box<ExprView>),
    Import(Seq<AliasView>),
    /// A `from` import: its module, its dots, its names.
    ImportFrom(Option<IdView>, u32, Seq<AliasView>),
    Global(Seq<IdView>),
    /// An expression as a statement.
    Value(Box<ExprView>),
    Other,
}

/// A statement: the byte offsets of its ends, its kind, and all that stands
/// directly in it, in the order of evaluation.
pub struct StmtView {
    pub start: u32,
    pub end: u32,
    pub form: FormView,
    pub parts: Seq<PartView>,
}

/// What stands directly in a node.
pub enum PartView {
    Stmt(StmtView),
    Expr(ExprView),
}

/// What an expression of `ruff_python_ast` holds.
pub uninterp spec fn expr_of(e: Expr) -> ExprView;

/// What a statement of `ruff_python_ast` holds.
pub uninterp spec fn stmt_of(s: Stmt) -> StmtView;

/// The statements of a module, from its source. A stub is parsed as one.
pub uninterp spec fn parsed(source: Seq<char>, stub: bool) -> Seq<StmtView>;

/// What expressions hold.
pub open spec fn expr_list(s: Seq<&Expr>) -> Seq<ExprView> {
    Seq::new(s.len(), |i: int| expr_of(*s[i]))
}

/// What statements hold.
pub open spec fn stmts_of(s: Seq<Stmt>) -> Seq<StmtView> {
    Seq::new(s.len(), |i: int| stmt_of(s[i]))
}

/// What statements hold.
pub open spec fn stmt_list(s: Seq<&Stmt>) -> Seq<StmtView> {
    Seq::new(s.len(), |i: int| stmt_of(*s[i]))
}

/// How many bytes a character takes in UTF-8.
pub open spec fn char_len(c: char) -> nat {
    let n = c as u32;
    if n < 0x80 {
        1
    } else if n < 0x800 {
        2
    } else if n < 0x10000 {
        3
    } else {
        4
    }
}

/// How many bytes a text takes in UTF-8.
pub open spec fn byte_len(s: Seq<char>) -> nat
    decreases s.len(),
{
    if s.len() == 0 {
        0
    } else {
        byte_len(s.drop_last()) + char_len(s.last())
    }
}

/// `parse_unchecked_source`: the statements of a module, as far as they parse; it
/// recovers from errors. Which statements it keeps of a source with errors is left
/// unsaid. Sources of more than `u32::MAX` bytes are refused by a panic there.
#[verifier::external_body]
pub(crate) fn parse(source: &str, stub: bool) -> (r: Vec<Stmt>)
    requires
        byte_len(source@) <= u32::MAX,
    ensures
        stmts_of(r@) == parsed(source@, stub),
{
    let source_type = if stub { PySourceType::Stub } else { PySourceType::Python };
    ruff_python_parser::parse_unchecked_source(source, source_type).into_suite().into_iter().collect()
}

/// What stands directly in a node.
pub enum Part<'a> {
    Stmt(&'a Stmt),
    Expr(&'a Expr),
}

/// What stands directly in a node.
pub open spec fn part_of(p: Part) -> PartView {
    match p {
        Part::Stmt(s) => PartView::Stmt(stmt_of(*s)),
        Part::Expr(e) => PartView::Expr(expr_of(*e)),
    }
}

/// What stands directly in a node.
pub open spec fn part_list(s: Seq<Part>) -> Seq<PartView> {
    Seq::new(s.len(), |i: int| part_of(s[i]))
}

/// Notes what a walk hands to it, and goes no deeper.
pub struct Gather<'a> {
    pub parts: Vec<Part<'a>>,
}

impl<'a> Visitor<'a> for Gather<'a> {
    fn visit_stmt(&mut self, stmt: &'a Stmt)
        ensures
            final(self).parts@ == old(self).parts@.push(Part::Stmt(stmt)),
    {
        self.parts.push(Part::Stmt(stmt));
    }

    fn visit_expr(&mut self, expr: &'a Expr)
        ensures
            final(self).parts@ == old(self).parts@.push(Part::Expr(expr)),
    {
        self.parts.push(Part::Expr(expr));
    }
}

/// `walk_expr`: hands all that stands directly in an expression to a visitor, in
/// the order of evaluation.
#[verifier::external_body]
pub(crate) fn expr_parts<'a>(e: &'a Expr) -> (r: Vec<Part<'a>>)
    ensures
        part_list(r@) == expr_of(*e).parts,
{
    let mut g = Gather { parts: Vec::new() };
    walk_expr(&mut g, e);
    g.parts
}

/// `walk_stmt`: hands all that stands directly in a statement to a visitor, in the
/// order of evaluation.
#[verifier::external_body]
pub(crate) fn stmt_parts<'a>(s: &'a Stmt) -> (r: Vec<Part<'a>>)
    ensures
        part_list(r@) == stmt_of(*s).parts,
{
    let mut g = Gather { parts: Vec::new() };
    walk_stmt(&mut g, s);
    g.parts
}

/// `Ranged::range` of an expression: the byte offsets of its ends.
#[verifier::external_body]
pub(crate) fn expr_range(e: &Expr) -> (r: (u32, u32))
    ensures
        r.0 == expr_of(*e).start,
        r.1 == expr_of(*e).end,
{
    (e.range().start().to_u32(), e.range().end().to_u32())
}

/// `Ranged::range` of a statement: the byte offsets of its ends.
#[verifier::external_body]
pub(crate) fn stmt_range(s: &Stmt) -> (r: (u32, u32))
    ensures
        r.0 == stmt_of(*s).start,
        r.1 == stmt_of(*s).end,
{
    (s.range().start().to_u32(), s.range().end().to_u32())
}

/// What kind of expression a node is.
pub enum Shape<'a> {
    Name(String, bool),
    Attribute(&'a Expr, String),
    Call(&'a Expr, Vec<&'a Expr>, Vec<&'a Expr>),
    Subscript(&'a Expr, &'a Expr),
    Compare(&'a Expr, Test, Vec<&'a Expr>),
    Text(String),
    Items(Vec<&'a Expr>),
    Other,
}

/// What kind of expression a node is.
pub open spec fn shape_of(s: Shape) -> ShapeView {
    match s {
        Shape::Name(id, load) => ShapeView::Name(id@, load),
        Shape::Attribute(v, attr) => ShapeView::Attribute(Box::new(expr_of(*v)), attr@),
        Shape::Call(f, args, kws) => ShapeView::Call(
            Box::new(expr_of(*f)),
            expr_list(args@),
            expr_list(kws@),
        ),
        Shape::Subscript(v, i) => ShapeView::Subscript(
            Box::new(expr_of(*v)),
            Box::new(expr_of(*i)),
        ),
        Shape::Compare(l, t, cs) => ShapeView::Compare(Box::new(expr_of(*l)), t, expr_list(cs@)),
        Shape::Text(t) => ShapeView::Text(t@),
        Shape::Items(v) => ShapeView::Items(expr_list(v@)),
        Shape::Other => ShapeView::Other,
    }
}

/// The variants `Name`, `Attribute`, `Call`, `Subscript` and `StringLiteral` of
/// `Expr`, with their fields; any other expression is left to `compound_shape`.
#[verifier::external_body]
fn plain_shape<'a>(e: &'a Expr) -> (r: Option<Shape<'a>>)
    ensures
        r matches Some(s) ==> shape_of(s) == expr_of(*e).shape,
        r is None ==> !(expr_of(*e).shape is Name || expr_of(*e).shape is Attribute || expr_of(
            *e,
        ).shape is Call || expr_of(*e).shape is Subscript || expr_of(*e).shape is Text),
{
    match e {
        Expr::Name(n) => Some(Shape::Name(n.id.to_string(), matches!(n.ctx, ExprContext::Load))),
        Expr::Attribute(a) => Some(Shape::Attribute(&a.value, a.attr.to_string())),
        Expr::Call(c) => Some(Shape::Call(
            &c.func,
            c.arguments.args.iter().collect(),
            c.arguments.keywords.iter().map(|k| &k.value).collect(),
        )),
        Expr::Subscript(s) => Some(Shape::Subscript(&s.value, &s.slice)),
        Expr::StringLiteral(s) => Some(Shape::Text(s.value.to_str().to_string())),
        _ => None,
    }
}

/// The variants `Compare`, `List` and `Tuple` of `Expr`, with their fields.
#[verifier::external_body]
fn compound_shape<'a>(e: &'a Expr) -> (r: Option<Shape<'a>>)
    ensures
        r matches Some(s) ==> shape_of(s) == expr_of(*e).shape,
        r is None ==> !(expr_of(*e).shape is Compare || expr_of(*e).shape is Items),
{
    match e {
        Expr::Compare(c) => Some(Shape::Compare(
            &c.left,
            match c.ops.first() {
                Some(CmpOp::In) => Test::In,
                Some(CmpOp::NotIn) => Test::NotIn,
                Some(CmpOp::Eq) => Test::Equality,
                _ => Test::Other,
            },
            c.comparators.iter().collect(),
        )),
        Expr::List(l) => Some(Shape::Items(l.elts.iter().collect())),
        Expr::Tuple(t) => Some(Shape::Items(t.elts.iter().collect())),
        _ => None,
    }
}

/// What kind of expression a node is.
pub(crate) fn expr_shape<'a>(e: &'a Expr) -> (r: Shape<'a>)
    ensures
        shape_of(r) == expr_of(*e).shape,
{
    match plain_shape(e) {
        Some(s) => s,
        None => match compound_shape(e) {
            Some(s) => s,
            None => Shape::Other,
        },
    }
}

/// A name and its byte offset.
pub struct Id {
    pub name: String,
    pub start: u32,
}

impl View for Id {
    type V = IdView;

    open spec fn view(&self) -> IdView {
        IdView { name: self.name@, start: self.start }
    }
}

/// A name that an import binds.
pub struct Bound {
    pub name: Id,
    pub asname: Option<Id>,
}

impl View for Bound {
    type V = AliasView;

    open spec fn view(&self) -> AliasView {
        AliasView {
            name: self.name@,
            asname: match self.asname {
                Some(a) => Some(a@),
                None => None,
            },
        }
    }
}

/// What names hold.
pub open spec fn ids_of(s: Seq<Id>) -> Seq<IdView> {
    Seq::new(s.len(), |i: int| s[i]@)
}

/// What the names of an import hold.
pub open spec fn bounds_of(s: Seq<Bound>) -> Seq<AliasView> {
    Seq::new(s.len(), |i: int| s[i]@)
}

/// What an expression holds, where there is one.
pub open spec fn expr_if(e: Option<&Expr>) -> Option<Box<ExprView>> {
    match e {
        Some(x) => Some(Box::new(expr_of(*x))),
        None => None,
    }
}

/// A function.
pub struct Function<'a> {
    pub name: Id,
    pub decorators: Vec<&'a Expr>,
    pub params: (u32, u32),
    pub annotation: Option<&'a Expr>,
    pub body: Vec<&'a Stmt>,
}

/// The variant `FunctionDef` of `Stmt`, with its name, its decorators, the range
/// of its parameters, its return annotation and its body.
#[verifier::external_body]
pub(crate) fn as_function<'a>(s: &'a Stmt) -> (r: Option<Function<'a>>)
    ensures
        match r {
            Some(f) => stmt_of(*s).form == FormView::Function(
                f.name@,
                expr_list(f.decorators@),
                f.params,
                expr_if(f.annotation),
                stmt_list(f.body@),
            ),
            None => !(stmt_of(*s).form is Function),
        },
{
    match s {
        Stmt::FunctionDef(f) => Some(Function {
            name: Id { name: f.name.to_string(), start: f.name.range.start().to_u32() },
            decorators: f.decorator_list.iter().map(|d| &d.expression).collect(),
            params: (f.parameters.range.start().to_u32(), f.parameters.range.end().to_u32()),
            annotation: f.returns.as_deref(),
            body: f.body.iter().collect(),
        }),
        _ => None,
    }
}

/// A class.
pub struct Class<'a> {
    pub name: Id,
    pub decorators: Vec<&'a Expr>,
    pub bases: Vec<&'a Expr>,
    pub body: Vec<&'a Stmt>,
}

/// The variant `ClassDef` of `Stmt`, with its name, its decorators, its positional
/// arguments and its body.
#[verifier::external_body]
pub(crate) fn as_class<'a>(s: &'a Stmt) -> (r: Option<Class<'a>>)
    ensures
        match r {
            Some(c) => stmt_of(*s).form == FormView::Class(
                c.name@,
                expr_list(c.decorators@),
                expr_list(c.bases@),
                stmt_list(c.body@),
            ),
            None => !(stmt_of(*s).form is Class),
        },
{
    match s {
        Stmt::ClassDef(c) => Some(Class {
            name: Id { name: c.name.to_string(), start: c.name.range.start().to_u32() },
            decorators: c.decorator_list.iter().map(|d| &d.expression).collect(),
            bases: c.arguments.iter().flat_map(|a| a.args.iter()).collect(),
            body: c.body.iter().collect(),
        }),
        _ => None,
    }
}

/// Another branch of an `if`.
pub struct Branch<'a> {
    pub test: Option<&'a Expr>,
    pub body: Vec<&'a Stmt>,
}

/// What the other branches of an `if` hold.
pub open spec fn branches_of(s: Seq<Branch>) -> Seq<(Option<ExprView>, Seq<StmtView>)> {
    Seq::new(
        s.len(),
        |i: int|
            (
                match s[i].test {
                    Some(e) => Some(expr_of(*e)),
                    None => None,
                },
                stmt_list(s[i].body@),
            ),
    )
}

/// An `if`.
pub struct If<'a> {
    pub test: &'a Expr,
    pub body: Vec<&'a Stmt>,
    pub branches: Vec<Branch<'a>>,
}

/// The variant `If` of `Stmt`, with its test, its body and its `elif` and `else`
/// clauses.
#[verifier::external_body]
pub(crate) fn as_if<'a>(s: &'a Stmt) -> (r: Option<If<'a>>)
    ensures
        match r {
            Some(i) => stmt_of(*s).form == FormView::If(
                Box::new(expr_of(*i.test)),
                stmt_list(i.body@),
                branches_of(i.branches@),
            ),
            None => !(stmt_of(*s).form is If),
        },
{
    match s {
        Stmt::If(i) => Some(If {
            test: &i.test,
            body: i.body.iter().collect(),
            branches: i
                .elif_else_clauses
                .iter()
                .map(|c| Branch { test: c.test.as_ref(), body: c.body.iter().collect() })
                .collect(),
        }),
        _ => None,
    }
}

/// The variant `Assign` of `Stmt`, with its targets and its value.
#[verifier::external_body]
pub(crate) fn as_assign<'a>(s: &'a Stmt) -> (r: Option<(Vec<&'a Expr>, &'a Expr)>)
    ensures
        match r {
            Some((targets, value)) => stmt_of(*s).form == FormView::Assign(
                expr_list(targets@),
                Box::new(expr_of(*value)),
            ),
            None => !(stmt_of(*s).form is Assign),
        },
{
    match s {
        Stmt::Assign(a) => Some((a.targets.iter().collect(), &a.value)),
        _ => None,
    }
}

/// The variant `AugAssign` of `Stmt`, with its target and its value.
#[verifier::external_body]
pub(crate) fn as_aug_assign<'a>(s: &'a Stmt) -> (r: Option<(&'a Expr, &'a Expr)>)
    ensures
        match r {
            Some((target, value)) => stmt_of(*s).form == FormView::AugAssign(
                Box::new(expr_of(*target)),
                Box::new(expr_of(*value)),
            ),
            None => !(stmt_of(*s).form is AugAssign),
        },
{
    match s {
        Stmt::AugAssign(a) => Some((&a.target, &a.value)),
        _ => None,
    }
}

/// The variant `AnnAssign` of `Stmt`, with its target.
#[verifier::external_body]
pub(crate) fn as_ann_assign<'a>(s: &'a Stmt) -> (r: Option<&'a Expr>)
    ensures
        match r {
            Some(target) => stmt_of(*s).form == FormView::AnnAssign(Box::new(expr_of(*target))),
            None => !(stmt_of(*s).form is AnnAssign),
        },
{
    match s {
        Stmt::AnnAssign(a) => Some(&a.target),
        _ => None,
    }
}

/// The variant `Import` of `Stmt`, with its names.
#[verifier::external_body]
pub(crate) fn as_import(s: &Stmt) -> (r: Option<Vec<Bound>>)
    ensures
        match r {
            Some(names) => stmt_of(*s).form == FormView::Import(bounds_of(names@)),
            None => !(stmt_of(*s).form is Import),
        },
{
    let id = |i: &Identifier| Id { name: i.to_string(), start: i.range.start().to_u32() };
    let bound = |a: &Alias| Bound { name: id(&a.name), asname: a.asname.as_ref().map(id) };
    match s {
        Stmt::Import(i) => Some(i.names.iter().map(bound).collect()),
        _ => None,
    }
}

/// The variant `ImportFrom` of `Stmt`, with its module, its level and its names.
#[verifier::external_body]
pub(crate) fn as_import_from(s: &Stmt) -> (r: Option<(Option<Id>, u32, Vec<Bound>)>)
    ensures
        match r {
            Some((module, level, names)) => stmt_of(*s).form == FormView::ImportFrom(
                match module {
                    Some(m) => Some(m@),
                    None => None,
                },
                level,
                bounds_of(names@),
            ),
            None => !(stmt_of(*s).form is ImportFrom),
        },
{
    let id = |i: &Identifier| Id { name: i.to_string(), start: i.range.start().to_u32() };
    let bound = |a: &Alias| Bound { name: id(&a.name), asname: a.asname.as_ref().map(id) };
    match s {
        Stmt::ImportFrom(i) => {
            Some((i.module.as_ref().map(id), i.level, i.names.iter().map(bound).collect()))
        }
        _ => None,
    }
}

/// The variant `Global` of `Stmt`, with its names.
#[verifier::external_body]
pub(crate) fn as_global(s: &Stmt) -> (r: Option<Vec<Id>>)
    ensures
        match r {
            Some(names) => stmt_of(*s).form == FormView::Global(ids_of(names@)),
            None => !(stmt_of(*s).form is Global),
        },
{
    let id = |i: &Identifier| Id { name: i.to_string(), start: i.range.start().to_u32() };
    match s {
        Stmt::Global(g) => Some(g.names.iter().map(id).collect()),
        _ => None,
    }
}

/// The variant `Expr` of `Stmt`, with its value.
#[verifier::external_body]
pub(crate) fn as_value<'a>(s: &'a Stmt) -> (r: Option<&'a Expr>)
    ensures
        match r {
            Some(value) => stmt_of(*s).form == FormView::Value(Box::new(expr_of(*value))),
            None => !(stmt_of(*s).form is Value),
        },
{
    match s {
        Stmt::Expr(e) => Some(&e.value),
        _ => None,
    }
}

} // verus!
