//! Whether the targets of `mock.patch` still exist.
//!
//! A patch replaces a name where it is looked up. A target has drifted where its
//! module is one of the project and the name is provably not there; whatever
//! cannot be decided is reported and never called drifted.
use crate::callgraph::{Answers, CallGraph, CallGraphTy, MemberCheck, Spot};
use crate::hierarchy::Hierarchy;
use crate::model::{Def, DefKind, FileIndex};
use crate::names::{scope_fqn, without_item};
use crate::names;
use crate::table::Table;
use crate::text::{cat, cat3, join_with, listed, split_on, without_empty};
use crate::text;
use vstd::prelude::*;

verus! {

/// What became of a patch target.
#[derive(Clone, Debug)]
pub enum Status {
    /// It names something of the project.
    Valid,
    /// Its module is one of the project, and the name is not there.
    Drifted(String),
    /// Its module is not one of the project.
    External,
    /// It is computed.
    Dynamic,
    /// It cannot be decided.
    Unverifiable(String),
}

/// What became of a patch target, with texts in place of strings.
pub enum StatusView {
    Valid,
    Drifted(Seq<char>),
    External,
    Dynamic,
    Unverifiable(Seq<char>),
}

impl View for Status {
    type V = StatusView;

    open spec fn view(&self) -> StatusView {
        match self {
            Status::Valid => StatusView::Valid,
            Status::Drifted(why) => StatusView::Drifted(why@),
            Status::External => StatusView::External,
            Status::Dynamic => StatusView::Dynamic,
            Status::Unverifiable(why) => StatusView::Unverifiable(why@),
        }
    }
}

impl StatusView {
    pub open spec fn tag(self) -> Seq<char> {
        match self {
            StatusView::Valid => "valid"@,
            StatusView::Drifted(_) => "drifted"@,
            StatusView::External => "external"@,
            StatusView::Dynamic => "dynamic"@,
            StatusView::Unverifiable(_) => "unverifiable"@,
        }
    }
}

impl Status {
    /// A short word for it.
    pub fn tag(&self) -> (r: &'static str)
        ensures
            r@ == self@.tag(),
    {
        match self {
            Status::Valid => "valid",
            Status::Drifted(_) => "drifted",
            Status::External => "external",
            Status::Dynamic => "dynamic",
            Status::Unverifiable(_) => "unverifiable",
        }
    }
}

/// The names of Python's `builtins`: functions and types, exceptions and warnings,
/// constants, and what the module itself binds.
pub const BUILTINS: &'static str = "abs aiter all anext any ascii bin bool breakpoint bytearray bytes callable chr classmethod \
    compile complex copyright credits delattr dict dir divmod enumerate eval exec exit filter \
    float format frozenset getattr globals hasattr hash help hex id input int isinstance \
    issubclass iter len license list locals map max memoryview min next object oct open ord pow \
    print property quit range repr reversed round set setattr slice sorted staticmethod str sum \
    super tuple type vars zip ArithmeticError AssertionError AttributeError BaseException \
    BaseExceptionGroup BlockingIOError BrokenPipeError BufferError BytesWarning \
    ChildProcessError ConnectionAbortedError ConnectionError ConnectionRefusedError \
    ConnectionResetError DeprecationWarning EOFError EncodingWarning EnvironmentError Exception \
    ExceptionGroup FileExistsError FileNotFoundError FloatingPointError FutureWarning \
    GeneratorExit IOError ImportError ImportWarning IndentationError IndexError InterruptedError \
    IsADirectoryError KeyError KeyboardInterrupt LookupError MemoryError ModuleNotFoundError \
    NameError NotADirectoryError NotImplementedError OSError OverflowError \
    PendingDeprecationWarning PermissionError ProcessLookupError PythonFinalizationError \
    RecursionError ReferenceError ResourceWarning RuntimeError RuntimeWarning StopAsyncIteration \
    StopIteration SyntaxError SyntaxWarning SystemError SystemExit TabError TimeoutError \
    TypeError UnboundLocalError UnicodeDecodeError UnicodeEncodeError UnicodeError \
    UnicodeTranslateError UnicodeWarning UserWarning ValueError Warning WindowsError \
    ZeroDivisionError Ellipsis False None NotImplemented True __build_class__ __debug__ __doc__ \
    __import__ __loader__ __name__ __package__ __spec__";

/// Whether a name is one that Python looks up for every module.
pub open spec fn builtin(name: Seq<char>) -> bool {
    text::split(BUILTINS@, " "@).contains(name)
}

/// Whether a name is one that Python looks up for every module.
fn is_builtin(name: &str) -> (r: bool)
    ensures
        r == builtin(name@),
{
    let all = split_on(BUILTINS, " ");
    listed(name, &all)
}

/// The name of a file's module.
pub open spec fn module_id(path: Seq<char>) -> Seq<char> {
    names::fqn(path, Seq::empty())
}

/// Whether one of the files is a module of a name.
pub open spec fn is_module(files: Seq<FileIndex>, m: Seq<char>) -> bool
    decreases files.len(),
{
    files.len() > 0 && (module_id(files.last().path@) == m || is_module(files.drop_last(), m))
}

/// Whether definitions bind a name at module scope.
pub open spec fn binds_in(defs: Seq<Def>, name: Seq<char>) -> bool
    decreases defs.len(),
{
    defs.len() > 0 && ((defs.last().container@.len() == 0 && defs.last().name@ == name)
        || binds_in(defs.drop_last(), name))
}

/// Whether a module binds a name.
pub open spec fn binds(files: Seq<FileIndex>, m: Seq<char>, name: Seq<char>) -> bool
    decreases files.len(),
{
    files.len() > 0 && ((module_id(files.last().path@) == m && binds_in(files.last().defs@, name))
        || binds(files.drop_last(), m, name))
}

/// Whether the last class of a name at module scope writes a base, where there
/// is such a class.
pub open spec fn class_in(defs: Seq<Def>, name: Seq<char>) -> Option<bool>
    decreases defs.len(),
{
    if defs.len() == 0 {
        None
    } else if defs.last().container@.len() == 0 && defs.last().kind is Class && defs.last().name@
        == name {
        Some(names::except(text::views(defs.last().bases@), "object"@).len() > 0)
    } else {
        class_in(defs.drop_last(), name)
    }
}

/// The same for the files of a module.
pub open spec fn class_of(files: Seq<FileIndex>, m: Seq<char>, name: Seq<char>) -> Option<bool>
    decreases files.len(),
{
    if files.len() == 0 {
        None
    } else if module_id(files.last().path@) == m && class_in(files.last().defs@, name) is Some {
        class_in(files.last().defs@, name)
    } else {
        class_of(files.drop_last(), m, name)
    }
}

/// Whether definitions bind a name directly in a scope of a name.
pub open spec fn member_in(defs: Seq<Def>, scope: Seq<char>, name: Seq<char>) -> bool
    decreases defs.len(),
{
    defs.len() > 0 && ((defs.last().container@.len() == 1 && defs.last().container@[0]@ == scope
        && defs.last().name@ == name) || member_in(defs.drop_last(), scope, name))
}

/// Whether a module binds a name directly in a scope of a name.
pub open spec fn member_of(
    files: Seq<FileIndex>,
    m: Seq<char>,
    scope: Seq<char>,
    name: Seq<char>,
) -> bool
    decreases files.len(),
{
    files.len() > 0 && ((module_id(files.last().path@) == m && member_in(
        files.last().defs@,
        scope,
        name,
    )) || member_of(files.drop_last(), m, scope, name))
}

/// Where the last import at module scope binds a name.
pub open spec fn import_in(path: Seq<char>, defs: Seq<Def>, name: Seq<char>) -> Option<Spot>
    decreases defs.len(),
{
    if defs.len() == 0 {
        None
    } else if defs.last().container@.len() == 0 && defs.last().kind is Import && defs.last().name@
        == name {
        Some((path, defs.last().offset))
    } else {
        import_in(path, defs.drop_last(), name)
    }
}

/// Where a module imports a name.
pub open spec fn import_of(files: Seq<FileIndex>, m: Seq<char>, name: Seq<char>) -> Option<Spot>
    decreases files.len(),
{
    if files.len() == 0 {
        None
    } else if module_id(files.last().path@) == m && import_in(
        files.last().path@,
        files.last().defs@,
        name,
    ) is Some {
        import_in(files.last().path@, files.last().defs@, name)
    } else {
        import_of(files.drop_last(), m, name)
    }
}

/// What helps to decide: the call graph and the inheritance graph.
pub struct Ctx<'a, T: CallGraphTy> {
    pub graph: &'a CallGraph<T>,
    pub hier: &'a Hierarchy,
}

/// What helps to decide.
pub struct Aid {
    pub answers: Answers,
    pub hier: Hierarchy,
}

/// Whether a base of a class defines a method.
pub open spec fn inherited(aid: Option<Aid>, class: Seq<char>, member: Seq<char>) -> bool {
    match aid {
        Some(x) => crate::hierarchy::with_member(
            x.hier.methods,
            x.hier.supers_of(class),
            member,
        ).len() > 0,
        None => false,
    }
}

/// What the module that a name was imported from says of a member.
pub open spec fn outside_member(
    aid: Option<Aid>,
    spot: Option<Spot>,
    member: Seq<char>,
) -> MemberCheck {
    match (aid, spot) {
        (Some(x), Some(s)) => (x.answers.member)(s, member),
        _ => MemberCheck::Unknown,
    }
}

/// A member that exists, and what may be looked up on it.
pub open spec fn beyond(chain: Seq<Seq<char>>, what: Seq<char>) -> StatusView {
    if chain.len() == 2 {
        StatusView::Valid
    } else {
        StatusView::Unverifiable("nested attribute `."@ + text::join(chain.skip(2), "."@) + what)
    }
}

/// What becomes of looking up a chain of names in a module.
pub open spec fn looked_up(
    files: Seq<FileIndex>,
    aid: Option<Aid>,
    m: Seq<char>,
    chain: Seq<Seq<char>>,
) -> StatusView {
    if chain.len() == 0 {
        StatusView::Valid
    } else if !binds(files, m, chain[0]) {
        if builtin(chain[0]) {
            StatusView::Unverifiable("`"@ + chain[0] + "` is a builtin looked up through `"@ + (m + "`"@))
        } else {
            StatusView::Drifted("`"@ + chain[0] + "` is not bound in module `"@ + (m + "`"@))
        }
    } else if chain.len() == 1 {
        StatusView::Valid
    } else {
        let owner = m + "."@ + chain[0];
        match class_of(files, m, chain[0]) {
            None => match outside_member(aid, import_of(files, m, chain[0]), chain[1]) {
                MemberCheck::Present => beyond(chain, "` beyond module member"@),
                MemberCheck::Absent => StatusView::Drifted(
                    "`"@ + chain[1] + "` is not a member of `"@ + (owner + "`"@),
                ),
                MemberCheck::Unknown => StatusView::Unverifiable(
                    "`"@ + owner + "` is not a project class; can't check `."@ + (text::join(
                        chain.skip(1),
                        "."@,
                    ) + "`"@),
                ),
            },
            Some(extends) => if member_of(files, m, chain[0], chain[1]) || inherited(
                aid,
                owner,
                chain[1],
            ) {
                beyond(chain, "` beyond class member"@)
            } else if extends {
                StatusView::Unverifiable(
                    "`"@ + chain[1] + "` may be inherited by `"@ + (owner + "`"@),
                )
            } else {
                StatusView::Drifted("`"@ + chain[1] + "` is not a member of `"@ + (owner + "`"@))
            },
        }
    }
}

/// What becomes of looking up the parts of a target, by the longest of its first
/// `k` parts that is a module.
pub open spec fn by_prefix(
    files: Seq<FileIndex>,
    aid: Option<Aid>,
    parts: Seq<Seq<char>>,
    k: int,
) -> StatusView
    decreases k,
{
    if k <= 0 {
        StatusView::External
    } else if is_module(files, text::join(parts.take(k), "."@)) {
        looked_up(files, aid, text::join(parts.take(k), "."@), parts.skip(k))
    } else {
        by_prefix(files, aid, parts, k - 1)
    }
}

/// What becomes of a patch target.
pub open spec fn patched(
    files: Seq<FileIndex>,
    aid: Option<Aid>,
    target: Option<Seq<char>>,
) -> StatusView {
    match target {
        None => StatusView::Dynamic,
        Some(t) => {
            let parts = names::dotted_parts(t);
            if parts.len() == 0 {
                StatusView::Dynamic
            } else {
                by_prefix(files, aid, parts, parts.len() as int)
            }
        },
    }
}

/// The modules of a project and what they bind.
pub struct PatchResolver {
    /// The modules.
    pub modules: Table<String, ()>,
    /// The names that modules bind.
    pub names: Table<(String, String), ()>,
    /// The classes of modules, and whether they write a base.
    pub classes: Table<(String, String), bool>,
    /// What is bound directly in a scope of a module.
    pub members: Table<(String, String), Vec<String>>,
    /// Where modules import names.
    pub imports: Table<(String, String), (String, u32)>,
    /// The files.
    pub files: Ghost<Seq<FileIndex>>,
}

/// What a table has for a pair.
pub open spec fn flag_of(t: Table<(String, String), bool>, k: (Seq<char>, Seq<char>)) -> Option<
    bool,
> {
    if t.map().contains_key(k) {
        Some(t.map()[k])
    } else {
        None
    }
}

/// The place that a table has for a pair.
pub open spec fn spot_of(
    t: Table<(String, String), (String, u32)>,
    k: (Seq<char>, Seq<char>),
) -> Option<Spot> {
    if t.map().contains_key(k) {
        Some(t.map()[k]@)
    } else {
        None
    }
}

impl PatchResolver {
    /// Whether this has what the modules of the files bind.
    pub open spec fn indexes(self, files: Seq<FileIndex>) -> bool {
        &&& forall|m: Seq<char>| #[trigger] self.modules.keys().contains(m) <==> is_module(files, m)
        &&& forall|k: (Seq<char>, Seq<char>)| #[trigger]
            self.names.keys().contains(k) <==> binds(files, k.0, k.1)
        &&& forall|k: (Seq<char>, Seq<char>)| #[trigger]
            flag_of(self.classes, k) == class_of(files, k.0, k.1)
        &&& forall|k: (Seq<char>, Seq<char>), n: Seq<char>|
            #![trigger text::views(self.members.list(k)).contains(n)]
            text::views(self.members.list(k)).contains(n) <==> member_of(files, k.0, k.1, n)
        &&& forall|k: (Seq<char>, Seq<char>)| #[trigger]
            spot_of(self.imports, k) == import_of(files, k.0, k.1)
    }

    /// Whether this has what the modules of its files bind.
    pub open spec fn wf(self) -> bool {
        self.indexes(self.files@)
    }

    /// Enters one definition.
    fn enter(&mut self, module: &String, path: &String, d: &Def)
        ensures
            final(self).modules == old(self).modules,
            final(self).files == old(self).files,
            forall|k: (Seq<char>, Seq<char>)| #[trigger]
                final(self).names.keys().contains(k) <==> old(self).names.keys().contains(k) || (
                d.container@.len() == 0 && k == (module@, d.name@)),
            forall|k: (Seq<char>, Seq<char>)| #[trigger]
                flag_of(final(self).classes, k) == (if d.container@.len() == 0 && d.kind is Class
                    && k == (module@, d.name@) {
                    Some(names::except(text::views(d.bases@), "object"@).len() > 0)
                } else {
                    flag_of(old(self).classes, k)
                }),
            forall|k: (Seq<char>, Seq<char>), n: Seq<char>|
                #![trigger text::views(final(self).members.list(k)).contains(n)]
                text::views(final(self).members.list(k)).contains(n) <==> text::views(
                    old(self).members.list(k),
                ).contains(n) || (d.container@.len() == 1 && k == (module@, d.container@[0]@) && n
                    == d.name@),
            forall|k: (Seq<char>, Seq<char>)| #[trigger]
                spot_of(final(self).imports, k) == (if d.container@.len() == 0 && d.kind is Import
                    && k == (module@, d.name@) {
                    Some((path@, d.offset))
                } else {
                    spot_of(old(self).imports, k)
                }),
    {
        let ghost was = *self;
        if d.container.len() == 0 {
            self.names.insert((module.clone(), d.name.clone()), ());
            match d.kind {
                DefKind::Class => {
                    let own = without_item(&d.bases, "object");
                    assert(text::views(own@).len() == own@.len());
                    self.classes.insert((module.clone(), d.name.clone()), own.len() > 0);
                },
                DefKind::Import => {
                    self.imports.insert(
                        (module.clone(), d.name.clone()),
                        (path.clone(), d.offset),
                    );
                },
                _ => {},
            }
        } else if d.container.len() == 1 {
            let key = (module.clone(), d.container[0].clone());
            let ghost k0: (Seq<char>, Seq<char>) = key@;
            self.members.push_to(key, d.name.clone());
            proof {
                assert forall|k: (Seq<char>, Seq<char>), n: Seq<char>|
                    #![trigger text::views(self.members.list(k)).contains(n)]
                    text::views(self.members.list(k)).contains(n) <==> text::views(
                        was.members.list(k),
                    ).contains(n) || (k == k0 && n == d.name@) by {
                    if k == k0 {
                        assert(self.members.list(k) == was.members.list(k).push(d.name));
                        assert(text::views(self.members.list(k)) =~= text::views(was.members.list(k)).push(
                            d.name@,
                        ));
                        text::lemma_push_contains(text::views(was.members.list(k)), d.name@);
                    } else {
                        assert(self.members.list(k) == was.members.list(k));
                    }
                }
            }
        }
    }

    /// What the modules of the files bind.
    pub fn build(files: &Vec<FileIndex>) -> (r: Self)
        ensures
            r.files@ == files@,
            r.wf(),
    {
        let mut r = PatchResolver {
            modules: Table::new(),
            names: Table::new(),
            classes: Table::new(),
            members: Table::new(),
            imports: Table::new(),
            files: Ghost(files@),
        };
        let none: Vec<String> = Vec::new();
        assert(text::views(none@) =~= Seq::<Seq<char>>::empty());
        let mut i: usize = 0;
        while i < files.len()
            invariant
                i <= files@.len(),
                text::views(none@) == Seq::<Seq<char>>::empty(),
                r.files@ == files@,
                r.indexes(files@.take(i as int)),
            decreases files@.len() - i,
        {
            let f = &files[i];
            proof {
                text::lemma_take_step(files@, i as int);
            }
            let module = scope_fqn(f.path.as_str(), &none);
            let ghost r0 = r;
            let ghost before = files@.take(i as int);
            r.modules.insert(module.clone(), ());
            let mut j: usize = 0;
            while j < f.defs.len()
                invariant
                    j <= f.defs@.len(),
                    r.files == r0.files,
                    module@ == module_id(f.path@),
                    forall|m: Seq<char>| #[trigger]
                        r.modules.keys().contains(m) <==> r0.modules.keys().contains(m) || m
                            == module@,
                    forall|k: (Seq<char>, Seq<char>)| #[trigger]
                        r.names.keys().contains(k) <==> r0.names.keys().contains(k) || (k.0
                            == module@ && binds_in(f.defs@.take(j as int), k.1)),
                    forall|k: (Seq<char>, Seq<char>)| #[trigger]
                        flag_of(r.classes, k) == (if k.0 == module@ && class_in(
                            f.defs@.take(j as int),
                            k.1,
                        ) is Some {
                            class_in(f.defs@.take(j as int), k.1)
                        } else {
                            flag_of(r0.classes, k)
                        }),
                    forall|k: (Seq<char>, Seq<char>), n: Seq<char>|
                        #![trigger text::views(r.members.list(k)).contains(n)]
                        text::views(r.members.list(k)).contains(n) <==> text::views(
                            r0.members.list(k),
                        ).contains(n) || (k.0 == module@ && member_in(
                            f.defs@.take(j as int),
                            k.1,
                            n,
                        )),
                    forall|k: (Seq<char>, Seq<char>)| #[trigger]
                        spot_of(r.imports, k) == (if k.0 == module@ && import_in(
                            f.path@,
                            f.defs@.take(j as int),
                            k.1,
                        ) is Some {
                            import_in(f.path@, f.defs@.take(j as int), k.1)
                        } else {
                            spot_of(r0.imports, k)
                        }),
                decreases f.defs@.len() - j,
            {
                proof {
                    text::lemma_take_step(f.defs@, j as int);
                }
                let ghost r1 = r;
                r.enter(&module, &f.path, &f.defs[j]);
                proof {
                    assert forall|k: (Seq<char>, Seq<char>)| #[trigger]
                        flag_of(r.classes, k) == (if k.0 == module@ && class_in(
                            f.defs@.take(j + 1),
                            k.1,
                        ) is Some {
                            class_in(f.defs@.take(j + 1), k.1)
                        } else {
                            flag_of(r0.classes, k)
                        }) by {
                        assert(flag_of(r1.classes, k) == (if k.0 == module@ && class_in(
                            f.defs@.take(j as int),
                            k.1,
                        ) is Some {
                            class_in(f.defs@.take(j as int), k.1)
                        } else {
                            flag_of(r0.classes, k)
                        }));
                    }
                    assert forall|k: (Seq<char>, Seq<char>)| #[trigger]
                        spot_of(r.imports, k) == (if k.0 == module@ && import_in(
                            f.path@,
                            f.defs@.take(j + 1),
                            k.1,
                        ) is Some {
                            import_in(f.path@, f.defs@.take(j + 1), k.1)
                        } else {
                            spot_of(r0.imports, k)
                        }) by {
                        assert(spot_of(r1.imports, k) == (if k.0 == module@ && import_in(
                            f.path@,
                            f.defs@.take(j as int),
                            k.1,
                        ) is Some {
                            import_in(f.path@, f.defs@.take(j as int), k.1)
                        } else {
                            spot_of(r0.imports, k)
                        }));
                    }
                    assert forall|k: (Seq<char>, Seq<char>), n: Seq<char>|
                        #![trigger text::views(r.members.list(k)).contains(n)]
                        text::views(r.members.list(k)).contains(n) <==> text::views(
                            r0.members.list(k),
                        ).contains(n) || (k.0 == module@ && member_in(
                            f.defs@.take(j + 1),
                            k.1,
                            n,
                        )) by {
                        assert(text::views(r1.members.list(k)).contains(n) <==> text::views(
                            r0.members.list(k),
                        ).contains(n) || (k.0 == module@ && member_in(
                            f.defs@.take(j as int),
                            k.1,
                            n,
                        )));
                    }
                }
                j = j + 1;
            }
            proof {
                text::lemma_take_all(f.defs@);
                let now = files@.take(i + 1);
                assert forall|k: (Seq<char>, Seq<char>)| #[trigger]
                    flag_of(r.classes, k) == class_of(now, k.0, k.1) by {
                    assert(flag_of(r0.classes, k) == class_of(before, k.0, k.1));
                }
                assert forall|k: (Seq<char>, Seq<char>)| #[trigger]
                    spot_of(r.imports, k) == import_of(now, k.0, k.1) by {
                    assert(spot_of(r0.imports, k) == import_of(before, k.0, k.1));
                }
                assert forall|k: (Seq<char>, Seq<char>), n: Seq<char>|
                    #![trigger text::views(r.members.list(k)).contains(n)]
                    text::views(r.members.list(k)).contains(n) <==> member_of(now, k.0, k.1, n) by {
                    assert(text::views(r0.members.list(k)).contains(n) <==> member_of(
                        before,
                        k.0,
                        k.1,
                        n,
                    ));
                }
                assert forall|k: (Seq<char>, Seq<char>)| #[trigger]
                    r.names.keys().contains(k) <==> binds(now, k.0, k.1) by {
                    assert(r0.names.keys().contains(k) <==> binds(before, k.0, k.1));
                }
                assert forall|m: Seq<char>| #[trigger] r.modules.keys().contains(m) <==> is_module(
                    now,
                    m,
                ) by {
                    assert(r0.modules.keys().contains(m) <==> is_module(before, m));
                }
            }
            i = i + 1;
        }
        proof {
            text::lemma_take_all(files@);
        }
        r
    }
}

/// What helps to decide, for contracts.
pub open spec fn aid_of<T: CallGraphTy>(ctx: Option<Ctx<T>>) -> Option<Aid> {
    match ctx {
        Some(c) => Some(Aid { answers: c.graph.answers(), hier: *c.hier }),
        None => None,
    }
}

/// A reason made of five parts, in order.
fn why(a: &str, b: &str, c: &str, d: &str, e: &str) -> (r: String)
    ensures
        r@ == a@ + b@ + c@ + (d@ + e@),
{
    let head = cat3(a, b, c);
    let tail = cat(d, e);
    cat(head.as_str(), tail.as_str())
}

/// A member that exists, and what may be looked up on it.
fn status_beyond(chain: &Vec<String>, what: &str) -> (r: Status)
    requires
        chain@.len() >= 2,
    ensures
        r@ == beyond(text::views(chain@), what@),
{
    if chain.len() == 2 {
        Status::Valid
    } else {
        let rest = tail_from(chain, 2);
        let path = join_with(&rest, ".");
        Status::Unverifiable(cat3("nested attribute `.", path.as_str(), what))
    }
}

/// The items of a list from the `n`th on.
fn tail_from(list: &Vec<String>, n: usize) -> (r: Vec<String>)
    requires
        n <= list@.len(),
    ensures
        text::views(r@) == text::views(list@).skip(n as int),
{
    let mut out: Vec<String> = Vec::new();
    let mut i: usize = n;
    while i < list.len()
        invariant
            n <= i <= list@.len(),
            out@.len() == i - n,
            forall|k: int| 0 <= k < out@.len() ==> #[trigger] out@[k]@ == list@[n + k]@,
        decreases list@.len() - i,
    {
        out.push(list[i].clone());
        i = i + 1;
    }
    assert(text::views(out@) =~= text::views(list@).skip(n as int));
    out
}

/// The first `n` items of a list.
fn head_to(list: &Vec<String>, n: usize) -> (r: Vec<String>)
    requires
        n <= list@.len(),
    ensures
        text::views(r@) == text::views(list@).take(n as int),
{
    let mut out: Vec<String> = Vec::new();
    let mut i: usize = 0;
    while i < n
        invariant
            i <= n <= list@.len(),
            out@.len() == i,
            forall|k: int| 0 <= k < i ==> #[trigger] out@[k]@ == list@[k]@,
        decreases n - i,
    {
        out.push(list[i].clone());
        i = i + 1;
    }
    assert(text::views(out@) =~= text::views(list@).take(n as int));
    out
}

impl PatchResolver {
    /// What becomes of looking up a chain of names in a module.
    fn resolve_attr<T: CallGraphTy>(
        &self,
        module: &String,
        chain: &Vec<String>,
        ctx: &Option<Ctx<T>>,
    ) -> (r: Status)
        requires
            self.wf(),
        ensures
            r@ == looked_up(self.files@, aid_of(*ctx), module@, text::views(chain@)),
    {
        let ghost files = self.files@;
        if chain.len() == 0 {
            return Status::Valid;
        }
        let first = &chain[0];
        let key = (module.clone(), first.clone());
        let ghost k: (Seq<char>, Seq<char>) = key@;
        assert(self.names.keys().contains(k) <==> binds(files, k.0, k.1));
        if !self.names.contains_key(&key) {
            if is_builtin(first.as_str()) {
                return Status::Unverifiable(
                    why(
                        "`",
                        first.as_str(),
                        "` is a builtin looked up through `",
                        module.as_str(),
                        "`",
                    ),
                );
            }
            return Status::Drifted(
                why("`", first.as_str(), "` is not bound in module `", module.as_str(), "`"),
            );
        }
        if chain.len() == 1 {
            return Status::Valid;
        }
        let owner = cat3(module.as_str(), ".", first.as_str());
        let member = &chain[1];
        assert(flag_of(self.classes, k) == class_of(files, k.0, k.1));
        match self.classes.get(&key) {
            None => {
                assert(spot_of(self.imports, k) == import_of(files, k.0, k.1));
                let check = match ctx {
                    Some(x) => match self.imports.get(&key) {
                        Some(s) => x.graph.module_member(s.0.as_str(), s.1, member.as_str()),
                        None => MemberCheck::Unknown,
                    },
                    None => MemberCheck::Unknown,
                };
                assert(check == outside_member(aid_of(*ctx), import_of(files, k.0, k.1), member@));
                match check {
                    MemberCheck::Present => status_beyond(chain, "` beyond module member"),
                    MemberCheck::Absent => Status::Drifted(
                        why(
                            "`",
                            member.as_str(),
                            "` is not a member of `",
                            owner.as_str(),
                            "`",
                        ),
                    ),
                    MemberCheck::Unknown => {
                        let rest = tail_from(chain, 1);
                        let path = join_with(&rest, ".");
                        Status::Unverifiable(
                            why(
                                "`",
                                owner.as_str(),
                                "` is not a project class; can't check `.",
                                path.as_str(),
                                "`",
                            ),
                        )
                    },
                }
            },
            Some(extends) => {
                let own = match self.members.get(&key) {
                    Some(list) => listed(member.as_str(), list),
                    None => false,
                };
                proof {
                    if !self.members.map().contains_key(k) {
                        assert(text::views(self.members.list(k)) =~= Seq::<Seq<char>>::empty());
                    }
                    assert(text::views(self.members.list(k)).contains(member@) <==> member_of(
                        files,
                        k.0,
                        k.1,
                        member@,
                    ));
                }
                let from_base = match ctx {
                    Some(x) => {
                        let bases = x.hier.overrides(owner.as_str(), member.as_str());
                        assert(text::views(bases@).len() == bases@.len());
                        bases.len() > 0
                    },
                    None => false,
                };
                if own || from_base {
                    status_beyond(chain, "` beyond class member")
                } else if *extends {
                    Status::Unverifiable(
                        why(
                            "`",
                            member.as_str(),
                            "` may be inherited by `",
                            owner.as_str(),
                            "`",
                        ),
                    )
                } else {
                    Status::Drifted(
                        why(
                            "`",
                            member.as_str(),
                            "` is not a member of `",
                            owner.as_str(),
                            "`",
                        ),
                    )
                }
            },
        }
    }

    /// What becomes of a patch target; nothing stands for one that is computed.
    pub fn resolve<T: CallGraphTy>(&self, target: Option<&str>, ctx: &Option<Ctx<T>>) -> (r: Status)
        requires
            self.wf(),
        ensures
            r@ == patched(
                self.files@,
                aid_of(*ctx),
                match target {
                    Some(t) => Some(t@),
                    None => None,
                },
            ),
    {
        let t = match target {
            Some(t) => t,
            None => {
                return Status::Dynamic;
            },
        };
        let pieces = split_on(t, ".");
        let parts = without_empty(&pieces);
        let ghost all = text::views(parts@);
        assert(all == names::dotted_parts(t@));
        if parts.len() == 0 {
            return Status::Dynamic;
        }
        let mut k: usize = parts.len();
        while k > 0
            invariant
                k <= parts@.len(),
                all == text::views(parts@),
                all == names::dotted_parts(t@),
                all.len() > 0,
                target == Some(t),
                self.wf(),
                by_prefix(self.files@, aid_of(*ctx), all, k as int) == by_prefix(
                    self.files@,
                    aid_of(*ctx),
                    all,
                    all.len() as int,
                ),
            decreases k,
        {
            let head = head_to(&parts, k);
            let module = join_with(&head, ".");
            assert(self.modules.keys().contains(module@) <==> is_module(self.files@, module@));
            if self.modules.contains_key(&module) {
                let chain = tail_from(&parts, k);
                return self.resolve_attr(&module, &chain, ctx);
            }
            k = k - 1;
        }
        Status::External
    }
}

/// Whether looking up a chain of names in a module provably fails: the module does
/// not bind the first, or the first is a class that writes no base and does not
/// define the second, or the module it was imported from is known not to have the
/// second.
pub open spec fn provably_absent(
    files: Seq<FileIndex>,
    aid: Option<Aid>,
    m: Seq<char>,
    chain: Seq<Seq<char>>,
) -> bool {
    ||| chain.len() > 0 && !binds(files, m, chain[0]) && !builtin(chain[0])
    ||| chain.len() > 1 && class_of(files, m, chain[0]) == Some(false) && !member_of(
        files,
        m,
        chain[0],
        chain[1],
    )
    ||| chain.len() > 1 && outside_member(aid, import_of(files, m, chain[0]), chain[1]) is Absent
}

/// A target is called drifted only where some of its first parts name a module of
/// the project and looking up the rest there provably fails.
pub proof fn law_drifted_is_provable(
    files: Seq<FileIndex>,
    aid: Option<Aid>,
    parts: Seq<Seq<char>>,
    k: int,
)
    requires
        by_prefix(files, aid, parts, k) is Drifted,
    ensures
        exists|n: int|
            0 < n <= k && is_module(files, #[trigger] text::join(parts.take(n), "."@))
                && provably_absent(files, aid, text::join(parts.take(n), "."@), parts.skip(n)),
    decreases k,
{
    if k > 0 {
        let m = text::join(parts.take(k), "."@);
        if is_module(files, m) {
            assert(provably_absent(files, aid, m, parts.skip(k)));
        } else {
            law_drifted_is_provable(files, aid, parts, k - 1);
            let n = choose|n: int|
                0 < n <= k - 1 && is_module(files, #[trigger] text::join(parts.take(n), "."@))
                    && provably_absent(files, aid, text::join(parts.take(n), "."@), parts.skip(n));
            assert(0 < n <= k && is_module(files, text::join(parts.take(n), "."@)));
        }
    }
}

} // verus!
