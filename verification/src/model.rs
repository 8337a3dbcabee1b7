//! The facts that extraction finds in one Python file.
use vstd::prelude::*;

verus! {

/// A place in a file: line and column, both counted from one, the column in
/// characters.
#[derive(Clone, Copy, Debug, PartialEq, Eq, Structural)]
pub struct Pos {
    pub line: usize,
    pub col: usize,
}

/// What kind of binding a definition is.
#[derive(Clone, Copy, Debug, PartialEq, Eq, Structural)]
pub enum DefKind {
    Function,
    Class,
    Variable,
    Import,
}

/// A name bound in a file.
#[derive(Clone, Debug)]
pub struct Def {
    pub name: String,
    pub kind: DefKind,
    pub pos: Pos,
    /// The byte offset of the name.
    pub offset: u32,
    /// The enclosing classes and functions, outermost first.
    pub container: Vec<String>,
    /// Whether the binding stands inside a function or class.
    pub nested: bool,
    /// The base classes of a class, as written.
    pub bases: Vec<String>,
    pub decorated: bool,
    /// The decorators as written, without the `@`.
    pub decorators: Vec<String>,
    /// A function's parameters and return annotation, as written.
    pub signature: Option<String>,
    /// The first line of the docstring.
    pub doc: Option<String>,
    /// The last line of the definition.
    pub end_line: usize,
}

/// A use of a name in a file.
#[derive(Clone, Debug)]
pub struct Ref {
    pub name: String,
    pub pos: Pos,
    pub offset: u32,
    /// Whether the name is the callee of a call (`name(...)`).
    pub is_call: bool,
    /// Whether the use stands outside every function and class.
    pub module_scope: bool,
}

/// What an input is read from.
#[derive(Clone, Copy, Debug, PartialEq, Eq, Structural)]
pub enum InputKind {
    /// An environment variable.
    Env,
    /// A file opened by a literal path.
    File,
    /// A command-line option or argument.
    Arg,
    /// A field of a settings class.
    Setting,
}

/// Something outside the module that it reads.
#[derive(Clone, Debug)]
pub struct Input {
    pub kind: InputKind,
    /// The name or path, or `<dynamic>` where it is computed.
    pub value: String,
    pub pos: Pos,
}

/// When an import runs.
#[derive(Clone, Copy, Debug, PartialEq, Eq, Structural)]
pub enum ImportContext {
    /// When the module is imported.
    TopLevel,
    /// Inside a function body.
    Deferred,
    /// Never: under `if TYPE_CHECKING:`.
    TypeChecking,
}

/// An import statement.
#[derive(Clone, Debug)]
pub struct ImportStmt {
    /// The module as written, empty in `from . import x`.
    pub module: String,
    /// How many leading dots a relative import has.
    pub level: u32,
    /// The names that a `from` import takes.
    pub names: Vec<String>,
    pub context: ImportContext,
    pub pos: Pos,
}

/// What a side effect touches.
#[derive(Clone, Copy, Debug, PartialEq, Eq, Structural)]
pub enum EffectKind {
    Fs,
    Network,
    Subprocess,
    Env,
    Db,
    Random,
    Clock,
    GlobalState,
}

/// A side effect that a place in the code appears to have.
#[derive(Clone, Debug)]
pub struct Effect {
    pub kind: EffectKind,
    /// The callee, or the names of a `global` statement.
    pub detail: String,
    pub pos: Pos,
    /// The enclosing classes and functions, outermost first.
    pub scope: Vec<String>,
    /// Whether it happens when the module is imported.
    pub import_time: bool,
}

/// A `mock.patch` call.
#[derive(Clone, Debug)]
pub struct MockTarget {
    /// The target, or nothing where it is computed.
    pub target: Option<String>,
    pub pos: Pos,
}

/// All facts of one Python file.
#[derive(Clone, Debug)]
pub struct FileIndex {
    pub path: String,
    pub defs: Vec<Def>,
    pub refs: Vec<Ref>,
    pub inputs: Vec<Input>,
    pub imports: Vec<ImportStmt>,
    pub effects: Vec<Effect>,
    pub mocks: Vec<MockTarget>,
    /// The string literals shaped like a dotted path to a name.
    pub dotted_strings: Vec<String>,
    /// The names listed in `__all__`.
    pub dunder_all: Vec<String>,
    /// Whether the file has an `if __name__ == "__main__":` block.
    pub has_main_guard: bool,
}

/// Whether a definition is a function or a class.
pub open spec fn callable(d: Def) -> bool {
    d.kind is Function || d.kind is Class
}

/// Whether a definition is a function or a class.
pub fn is_callable(d: &Def) -> (r: bool)
    ensures
        r == callable(*d),
{
    match d.kind {
        DefKind::Function => true,
        DefKind::Class => true,
        _ => false,
    }
}

} // verus!
