//! Where a symbol is defined, used and called.
//!
//! The facts of the files locate every place where a name is bound or used; a
//! source of sites then says, for each of those places, what else means the same
//! binding.
use crate::callgraph::Spot;
use crate::callgraph;
use crate::model::{Def, DefKind, FileIndex, Ref};
use crate::names::{parse_query, scoped_by};
use crate::names;
use crate::rows::place_text;
use crate::rows;
use crate::sort::{reversed, sort, Ranked};
use crate::sort;
use crate::table::Table;
use crate::text::{same, text_before};
use crate::text;
use vstd::prelude::*;

verus! {

/// A place in the code, and what it is to the symbol that was asked for.
#[derive(Debug)]
pub struct Loc {
    /// Relative to the root of the project.
    pub path: String,
    pub line: usize,
    pub col: usize,
    /// A short tag, or the name of the caller.
    pub kind: String,
    /// What the place is: `definition`, `binding`, `reference` or `call`.
    pub role: &'static str,
    /// The definition that the place means, where several have the name.
    pub resolves_to: Option<String>,
}

/// A place in the code, with texts in place of strings.
#[verifier::ext_equal]
pub struct LocView {
    pub path: Seq<char>,
    pub line: usize,
    pub col: usize,
    pub kind: Seq<char>,
    pub role: Seq<char>,
    pub resolves_to: Option<Seq<char>>,
}

impl View for Loc {
    type V = LocView;

    open spec fn view(&self) -> LocView {
        LocView {
            path: self.path@,
            line: self.line,
            col: self.col,
            kind: self.kind@,
            role: self.role@,
            resolves_to: match self.resolves_to {
                Some(t) => Some(t@),
                None => None,
            },
        }
    }
}

impl LocView {
    /// What tells places apart: file, line and column.
    pub open spec fn key(self) -> Seq<char> {
        rows::place(self.path, self.line, self.col)
    }
}

impl Loc {
    /// What tells places apart: file, line and column.
    pub fn key(&self) -> (r: String)
        ensures
            r@ == self@.key(),
    {
        place_text(self.path.as_str(), self.line, self.col)
    }

    /// The same place again.
    pub fn copy(&self) -> (r: Loc)
        ensures
            r@ == self@,
    {
        Loc {
            path: self.path.clone(),
            line: self.line,
            col: self.col,
            kind: self.kind.clone(),
            role: self.role,
            resolves_to: match &self.resolves_to {
                Some(t) => Some(t.clone()),
                None => None,
            },
        }
    }
}

/// Places in the order of their keys.
impl Ranked for Loc {
    open spec fn precedes(a: LocView, b: LocView) -> bool {
        text::text_lt(a.key(), b.key())
    }

    fn is_before(&self, other: &Self) -> (r: bool) {
        let a = self.key();
        let b = other.key();
        text_before(a.as_str(), b.as_str())
    }

    proof fn precedes_is_an_order(a: LocView, b: LocView, c: LocView) {
        callgraph::lemma_text_weak(a.key(), b.key(), c.key());
    }
}

/// What answers for a symbol.
pub trait Resolver {
    /// Every use of `symbol`.
    fn references(&self, symbol: &str) -> Vec<Loc>;

    /// Every definition of `symbol`.
    fn definitions(&self, symbol: &str) -> Vec<Loc>;

    /// Every call of `symbol`.
    fn callers(&self, symbol: &str) -> Vec<Loc>;
}

/// What a kind of definition is called.
pub open spec fn def_tag(k: DefKind) -> Seq<char> {
    match k {
        DefKind::Function => "function"@,
        DefKind::Class => "class"@,
        DefKind::Variable => "variable"@,
        DefKind::Import => "import"@,
    }
}

/// The place of a definition. An import binds the name again; it is not where the
/// name comes from.
pub open spec fn def_loc(path: Seq<char>, d: Def) -> LocView {
    LocView {
        path,
        line: d.pos.line,
        col: d.pos.col,
        kind: def_tag(d.kind),
        role: if d.kind is Import {
            "binding"@
        } else {
            "definition"@
        },
        resolves_to: None,
    }
}

/// The place of a definition.
fn loc_of_def(path: &String, d: &Def) -> (r: Loc)
    ensures
        r@ == def_loc(path@, *d),
{
    let (kind, role) = match d.kind {
        DefKind::Function => ("function", "definition"),
        DefKind::Class => ("class", "definition"),
        DefKind::Variable => ("variable", "definition"),
        DefKind::Import => ("import", "binding"),
    };
    Loc {
        path: path.clone(),
        line: d.pos.line,
        col: d.pos.col,
        kind: kind.to_owned(),
        role,
        resolves_to: None,
    }
}

/// The place of a use.
pub open spec fn ref_loc(path: Seq<char>, r: Ref) -> LocView {
    LocView {
        path,
        line: r.pos.line,
        col: r.pos.col,
        kind: if r.is_call {
            "call"@
        } else {
            "ref"@
        },
        role: if r.is_call {
            "call"@
        } else {
            "reference"@
        },
        resolves_to: None,
    }
}

/// The places of the uses of a name in a file.
pub open spec fn uses_in(
    path: Seq<char>,
    refs: Seq<Ref>,
    symbol: Seq<char>,
    calls_only: bool,
) -> Seq<LocView>
    decreases refs.len(),
{
    if refs.len() == 0 {
        Seq::empty()
    } else if refs.last().name@ == symbol && (!calls_only || refs.last().is_call) {
        uses_in(path, refs.drop_last(), symbol, calls_only).push(ref_loc(path, refs.last()))
    } else {
        uses_in(path, refs.drop_last(), symbol, calls_only)
    }
}

/// The places of the uses of a name.
pub open spec fn uses(files: Seq<FileIndex>, symbol: Seq<char>, calls_only: bool) -> Seq<LocView>
    decreases files.len(),
{
    if files.len() == 0 {
        Seq::empty()
    } else {
        uses(files.drop_last(), symbol, calls_only) + uses_in(
            files.last().path@,
            files.last().refs@,
            symbol,
            calls_only,
        )
    }
}

/// The places of the definitions of a name in a file. A qualified name has the
/// scopes before it as well.
pub open spec fn defs_in(
    path: Seq<char>,
    defs: Seq<Def>,
    leaf: Seq<char>,
    qualifier: Seq<Seq<char>>,
) -> Seq<LocView>
    decreases defs.len(),
{
    if defs.len() == 0 {
        Seq::empty()
    } else if defs.last().name@ == leaf && names::scoped(
        qualifier,
        path,
        text::views(defs.last().container@),
    ) {
        defs_in(path, defs.drop_last(), leaf, qualifier).push(def_loc(path, defs.last()))
    } else {
        defs_in(path, defs.drop_last(), leaf, qualifier)
    }
}

/// The places of the definitions of a name.
pub open spec fn defs_of(
    files: Seq<FileIndex>,
    leaf: Seq<char>,
    qualifier: Seq<Seq<char>>,
) -> Seq<LocView>
    decreases files.len(),
{
    if files.len() == 0 {
        Seq::empty()
    } else {
        defs_of(files.drop_last(), leaf, qualifier) + defs_in(
            files.last().path@,
            files.last().defs@,
            leaf,
            qualifier,
        )
    }
}

/// The places of the uses of a name.
fn collect_uses(files: &Vec<FileIndex>, symbol: &str, calls_only: bool) -> (r: Vec<Loc>)
    ensures
        sort::each(r@) == uses(files@, symbol@, calls_only),
{
    let mut out: Vec<Loc> = Vec::new();
    let mut i: usize = 0;
    assert(sort::each(out@) =~= uses(files@.take(0), symbol@, calls_only));
    while i < files.len()
        invariant
            i <= files@.len(),
            sort::each(out@) == uses(files@.take(i as int), symbol@, calls_only),
        decreases files@.len() - i,
    {
        proof {
            text::lemma_take_step(files@, i as int);
        }
        let f = &files[i];
        let ghost before = sort::each(out@);
        let mut j: usize = 0;
        assert(before + uses_in(f.path@, f.refs@.take(0), symbol@, calls_only) =~= before);
        while j < f.refs.len()
            invariant
                j <= f.refs@.len(),
                sort::each(out@) == before + uses_in(
                    f.path@,
                    f.refs@.take(j as int),
                    symbol@,
                    calls_only,
                ),
            decreases f.refs@.len() - j,
        {
            proof {
                text::lemma_take_step(f.refs@, j as int);
            }
            let x = &f.refs[j];
            if same(x.name.as_str(), symbol) && (!calls_only || x.is_call) {
                let (kind, role) = if x.is_call {
                    ("call", "call")
                } else {
                    ("ref", "reference")
                };
                let ghost held = out@;
                let ghost was = uses_in(f.path@, f.refs@.take(j as int), symbol@, calls_only);
                let one = Loc {
                    path: f.path.clone(),
                    line: x.pos.line,
                    col: x.pos.col,
                    kind: kind.to_owned(),
                    role,
                    resolves_to: None,
                };
                out.push(one);
                proof {
                    assert(one@ == ref_loc(f.path@, *x));
                    sort::lemma_each_push(held, one);
                    assert((before + was).push(one@) =~= before + was.push(one@));
                }
            }
            j = j + 1;
        }
        proof {
            text::lemma_take_all(f.refs@);
        }
        i = i + 1;
    }
    proof {
        text::lemma_take_all(files@);
    }
    out
}

/// The places of the definitions of a name.
fn collect_defs(files: &Vec<FileIndex>, leaf: &str, qualifier: &Vec<String>) -> (r: Vec<Loc>)
    ensures
        sort::each(r@) == defs_of(files@, leaf@, text::views(qualifier@)),
{
    let ghost q = text::views(qualifier@);
    let mut out: Vec<Loc> = Vec::new();
    let mut i: usize = 0;
    assert(sort::each(out@) =~= defs_of(files@.take(0), leaf@, q));
    while i < files.len()
        invariant
            i <= files@.len(),
            q == text::views(qualifier@),
            sort::each(out@) == defs_of(files@.take(i as int), leaf@, q),
        decreases files@.len() - i,
    {
        proof {
            text::lemma_take_step(files@, i as int);
        }
        let f = &files[i];
        let ghost before = sort::each(out@);
        let mut j: usize = 0;
        assert(before + defs_in(f.path@, f.defs@.take(0), leaf@, q) =~= before);
        while j < f.defs.len()
            invariant
                j <= f.defs@.len(),
                q == text::views(qualifier@),
                sort::each(out@) == before + defs_in(f.path@, f.defs@.take(j as int), leaf@, q),
            decreases f.defs@.len() - j,
        {
            proof {
                text::lemma_take_step(f.defs@, j as int);
            }
            let d = &f.defs[j];
            if same(d.name.as_str(), leaf) && scoped_by(qualifier, f.path.as_str(), &d.container) {
                let ghost held = out@;
                let ghost was = defs_in(f.path@, f.defs@.take(j as int), leaf@, q);
                let one = loc_of_def(&f.path, d);
                out.push(one);
                proof {
                    sort::lemma_each_push(held, one);
                    assert((before + was).push(one@) =~= before + was.push(one@));
                }
            }
            j = j + 1;
        }
        proof {
            text::lemma_take_all(f.defs@);
        }
        i = i + 1;
    }
    proof {
        text::lemma_take_all(files@);
    }
    out
}

/// Answers by names alone: every use and every definition of a name, whatever it
/// means.
pub struct SyntacticResolver {
    pub files: Vec<FileIndex>,
}

impl SyntacticResolver {
    /// A resolver over the facts of files.
    pub fn new(files: Vec<FileIndex>) -> (r: Self)
        ensures
            r.files == files,
    {
        SyntacticResolver { files }
    }
}

impl Resolver for SyntacticResolver {
    fn references(&self, symbol: &str) -> (r: Vec<Loc>)
        ensures
            sort::each(r@) == uses(self.files@, symbol@, false),
    {
        collect_uses(&self.files, symbol, false)
    }

    fn definitions(&self, symbol: &str) -> (r: Vec<Loc>)
        ensures
            sort::each(r@) == defs_of(self.files@, symbol@, Seq::empty()),
    {
        let none: Vec<String> = Vec::new();
        assert(text::views(none@) =~= Seq::empty());
        collect_defs(&self.files, symbol, &none)
    }

    fn callers(&self, symbol: &str) -> (r: Vec<Loc>)
        ensures
            sort::each(r@) == uses(self.files@, symbol@, true),
    {
        collect_uses(&self.files, symbol, true)
    }
}

/// A source of sites: what means the same as a place in a file, and what calls it.
pub trait Sites {
    /// The uses of what is bound at a place. Only verified implementations say which.
    open spec fn uses_of(&self, spot: Spot) -> Seq<LocView> {
        arbitrary()
    }

    /// The calls of what is bound at a place. Only verified implementations say which.
    open spec fn calls_of(&self, spot: Spot) -> Seq<LocView> {
        arbitrary()
    }

    /// The uses of the binding at an offset of a file.
    fn references_at(&self, path: &str, offset: u32) -> (r: Vec<Loc>)
        ensures
            sort::each(r@) == self.uses_of((path@, offset)),
    ;

    /// The calls of the binding at an offset of a file.
    fn callers_at(&self, path: &str, offset: u32) -> (r: Vec<Loc>)
        ensures
            sort::each(r@) == self.calls_of((path@, offset)),
    ;
}

/// Sites that were recorded before.
pub struct RecordedSites {
    pub uses: Table<(String, u32), Vec<Loc>>,
    pub calls: Table<(String, u32), Vec<Loc>>,
}

/// The same places again.
fn copy_locs(v: &Vec<Loc>) -> (r: Vec<Loc>)
    ensures
        sort::each(r@) == sort::each(v@),
{
    let mut out: Vec<Loc> = Vec::new();
    let mut i: usize = 0;
    while i < v.len()
        invariant
            i <= v@.len(),
            out@.len() == i,
            forall|k: int| 0 <= k < i ==> #[trigger] out@[k]@ == v@[k]@,
        decreases v@.len() - i,
    {
        out.push(v[i].copy());
        i = i + 1;
    }
    assert(sort::each(out@) =~= sort::each(v@));
    out
}

/// The places that a table has for a place; none where it has none.
fn recorded(t: &Table<(String, u32), Vec<Loc>>, path: &str, offset: u32) -> (r: Vec<Loc>)
    ensures
        sort::each(r@) == sort::each(t.list((path@, offset))),
{
    match t.get(&(path.to_owned(), offset)) {
        Some(list) => copy_locs(list),
        None => {
            let none: Vec<Loc> = Vec::new();
            assert(sort::each(none@) =~= sort::each(t.list((path@, offset))));
            none
        },
    }
}

impl Sites for RecordedSites {
    open spec fn uses_of(&self, spot: Spot) -> Seq<LocView> {
        sort::each(self.uses.list(spot))
    }

    open spec fn calls_of(&self, spot: Spot) -> Seq<LocView> {
        sort::each(self.calls.list(spot))
    }

    fn references_at(&self, path: &str, offset: u32) -> (r: Vec<Loc>) {
        recorded(&self.uses, path, offset)
    }

    fn callers_at(&self, path: &str, offset: u32) -> (r: Vec<Loc>) {
        recorded(&self.calls, path, offset)
    }
}

/// A place to ask at.
pub struct AnchorView {
    pub spot: Spot,
    pub key: Seq<char>,
    /// Whether it is a definition, no import.
    pub is_def: bool,
}

/// A place to ask at.
struct Anchor {
    path: String,
    offset: u32,
    key: String,
    is_def: bool,
}

impl View for Anchor {
    type V = AnchorView;

    closed spec fn view(&self) -> AnchorView {
        AnchorView { spot: (self.path@, self.offset), key: self.key@, is_def: self.is_def }
    }
}

/// The place of a definition, to ask at.
pub open spec fn def_anchor(path: Seq<char>, d: Def) -> AnchorView {
    AnchorView {
        spot: (path, d.offset),
        key: rows::place(path, d.pos.line, d.pos.col),
        is_def: !(d.kind is Import),
    }
}

/// The place of a use, to ask at.
pub open spec fn ref_anchor(path: Seq<char>, r: Ref) -> AnchorView {
    AnchorView {
        spot: (path, r.offset),
        key: rows::place(path, r.pos.line, r.pos.col),
        is_def: false,
    }
}

/// The definitions of a name in a file, or the imports of it, to ask at.
pub open spec fn bound_in(
    path: Seq<char>,
    defs: Seq<Def>,
    leaf: Seq<char>,
    qualifier: Seq<Seq<char>>,
    imports: bool,
) -> Seq<AnchorView>
    decreases defs.len(),
{
    if defs.len() == 0 {
        Seq::empty()
    } else if defs.last().name@ == leaf && names::scoped(
        qualifier,
        path,
        text::views(defs.last().container@),
    ) && (defs.last().kind is Import) == imports {
        bound_in(path, defs.drop_last(), leaf, qualifier, imports).push(
            def_anchor(path, defs.last()),
        )
    } else {
        bound_in(path, defs.drop_last(), leaf, qualifier, imports)
    }
}

/// The uses of a name in a file, to ask at.
pub open spec fn used_in(path: Seq<char>, refs: Seq<Ref>, leaf: Seq<char>) -> Seq<AnchorView>
    decreases refs.len(),
{
    if refs.len() == 0 {
        Seq::empty()
    } else if refs.last().name@ == leaf {
        used_in(path, refs.drop_last(), leaf).push(ref_anchor(path, refs.last()))
    } else {
        used_in(path, refs.drop_last(), leaf)
    }
}

/// The definitions of a name, to ask at.
pub open spec fn def_anchors(
    files: Seq<FileIndex>,
    leaf: Seq<char>,
    qualifier: Seq<Seq<char>>,
) -> Seq<AnchorView>
    decreases files.len(),
{
    if files.len() == 0 {
        Seq::empty()
    } else {
        def_anchors(files.drop_last(), leaf, qualifier) + bound_in(
            files.last().path@,
            files.last().defs@,
            leaf,
            qualifier,
            false,
        )
    }
}

/// The imports of a name and, where it is not qualified, its uses, to ask at.
pub open spec fn use_anchors(
    files: Seq<FileIndex>,
    leaf: Seq<char>,
    qualifier: Seq<Seq<char>>,
) -> Seq<AnchorView>
    decreases files.len(),
{
    if files.len() == 0 {
        Seq::empty()
    } else {
        let f = files.last();
        let before = use_anchors(files.drop_last(), leaf, qualifier);
        let bound = bound_in(f.path@, f.defs@, leaf, qualifier, true);
        if qualifier.len() == 0 {
            before + bound + used_in(f.path@, f.refs@, leaf)
        } else {
            before + bound
        }
    }
}

/// All places to ask at for a symbol: the definitions first, then the imports and
/// uses. A qualified symbol names definitions, so its uses are not asked at.
pub open spec fn anchors_of(files: Seq<FileIndex>, symbol: Seq<char>) -> Seq<AnchorView> {
    let leaf = names::query_leaf(symbol);
    let qualifier = names::query_qualifier(symbol);
    def_anchors(files, leaf, qualifier) + use_anchors(files, leaf, qualifier)
}

/// Adds the definitions of a name in a file to the one list, the imports to the
/// other.
fn enter_bound(
    defs_out: &mut Vec<Anchor>,
    uses_out: &mut Vec<Anchor>,
    f: &FileIndex,
    leaf: &str,
    qualifier: &Vec<String>,
)
    ensures
        sort::each(final(defs_out)@) == sort::each(old(defs_out)@) + bound_in(
            f.path@,
            f.defs@,
            leaf@,
            text::views(qualifier@),
            false,
        ),
        sort::each(final(uses_out)@) == sort::each(old(uses_out)@) + bound_in(
            f.path@,
            f.defs@,
            leaf@,
            text::views(qualifier@),
            true,
        ),
{
    let ghost q = text::views(qualifier@);
    let ghost d0 = sort::each(defs_out@);
    let ghost u0 = sort::each(uses_out@);
    let mut j: usize = 0;
    assert(d0 + bound_in(f.path@, f.defs@.take(0), leaf@, q, false) =~= d0);
    assert(u0 + bound_in(f.path@, f.defs@.take(0), leaf@, q, true) =~= u0);
    while j < f.defs.len()
        invariant
            j <= f.defs@.len(),
            q == text::views(qualifier@),
            sort::each(defs_out@) == d0 + bound_in(
                f.path@,
                f.defs@.take(j as int),
                leaf@,
                q,
                false,
            ),
            sort::each(uses_out@) == u0 + bound_in(
                f.path@,
                f.defs@.take(j as int),
                leaf@,
                q,
                true,
            ),
        decreases f.defs@.len() - j,
    {
        proof {
            text::lemma_take_step(f.defs@, j as int);
        }
        let d = &f.defs[j];
        if same(d.name.as_str(), leaf) && scoped_by(qualifier, f.path.as_str(), &d.container) {
            let is_def = match d.kind {
                DefKind::Import => false,
                _ => true,
            };
            let one = Anchor {
                path: f.path.clone(),
                offset: d.offset,
                key: place_text(f.path.as_str(), d.pos.line, d.pos.col),
                is_def,
            };
            assert(one@ == def_anchor(f.path@, *d));
            if is_def {
                let ghost held = defs_out@;
                let ghost was = bound_in(f.path@, f.defs@.take(j as int), leaf@, q, false);
                defs_out.push(one);
                proof {
                    sort::lemma_each_push(held, one);
                    assert((d0 + was).push(one@) =~= d0 + was.push(one@));
                }
            } else {
                let ghost held = uses_out@;
                let ghost was = bound_in(f.path@, f.defs@.take(j as int), leaf@, q, true);
                uses_out.push(one);
                proof {
                    sort::lemma_each_push(held, one);
                    assert((u0 + was).push(one@) =~= u0 + was.push(one@));
                }
            }
        }
        j = j + 1;
    }
    proof {
        text::lemma_take_all(f.defs@);
    }
}

/// Adds the uses of a name in a file.
fn enter_used(out: &mut Vec<Anchor>, f: &FileIndex, leaf: &str)
    ensures
        sort::each(final(out)@) == sort::each(old(out)@) + used_in(f.path@, f.refs@, leaf@),
{
    let ghost before = sort::each(out@);
    let mut j: usize = 0;
    assert(before + used_in(f.path@, f.refs@.take(0), leaf@) =~= before);
    while j < f.refs.len()
        invariant
            j <= f.refs@.len(),
            sort::each(out@) == before + used_in(f.path@, f.refs@.take(j as int), leaf@),
        decreases f.refs@.len() - j,
    {
        proof {
            text::lemma_take_step(f.refs@, j as int);
        }
        let x = &f.refs[j];
        if same(x.name.as_str(), leaf) {
            let ghost held = out@;
            let ghost was = used_in(f.path@, f.refs@.take(j as int), leaf@);
            let one = Anchor {
                path: f.path.clone(),
                offset: x.offset,
                key: place_text(f.path.as_str(), x.pos.line, x.pos.col),
                is_def: false,
            };
            out.push(one);
            proof {
                assert(one@ == ref_anchor(f.path@, *x));
                sort::lemma_each_push(held, one);
                assert((before + was).push(one@) =~= before + was.push(one@));
            }
        }
        j = j + 1;
    }
    proof {
        text::lemma_take_all(f.refs@);
    }
}

/// All places to ask at for a symbol, and how many of them are definitions.
fn occurrences(files: &Vec<FileIndex>, symbol: &str) -> (r: (Vec<Anchor>, usize))
    ensures
        sort::each(r.0@) == anchors_of(files@, symbol@),
        r.1 == def_anchors(
            files@,
            names::query_leaf(symbol@),
            names::query_qualifier(symbol@),
        ).len(),
{
    let (leaf, qualifier) = parse_query(symbol);
    let ghost q = text::views(qualifier@);
    assert(q.len() == qualifier@.len());
    let mut defs: Vec<Anchor> = Vec::new();
    let mut uses_out: Vec<Anchor> = Vec::new();
    let mut i: usize = 0;
    assert(sort::each(defs@) =~= def_anchors(files@.take(0), leaf@, q));
    assert(sort::each(uses_out@) =~= use_anchors(files@.take(0), leaf@, q));
    while i < files.len()
        invariant
            i <= files@.len(),
            q == text::views(qualifier@),
            q.len() == qualifier@.len(),
            sort::each(defs@) == def_anchors(files@.take(i as int), leaf@, q),
            sort::each(uses_out@) == use_anchors(files@.take(i as int), leaf@, q),
        decreases files@.len() - i,
    {
        proof {
            text::lemma_take_step(files@, i as int);
        }
        enter_bound(&mut defs, &mut uses_out, &files[i], leaf.as_str(), &qualifier);
        if qualifier.len() == 0 {
            enter_used(&mut uses_out, &files[i], leaf.as_str());
        }
        i = i + 1;
    }
    proof {
        text::lemma_take_all(files@);
        assert(sort::each(defs@).len() == defs@.len());
    }
    let n = defs.len();
    let ghost d0 = defs@;
    let ghost u0 = uses_out@;
    let mut rest = reversed(uses_out);
    let ghost mut k: int = 0;
    assert(d0 + u0.take(0) =~= d0);
    while rest.len() > 0
        invariant
            0 <= k <= u0.len(),
            rest@.len() == u0.len() - k,
            forall|m: int| 0 <= m < rest@.len() ==> rest@[m] == u0[u0.len() - 1 - m],
            defs@ == d0 + u0.take(k),
        decreases rest@.len(),
    {
        match rest.pop() {
            Some(x) => {
                defs.push(x);
                proof {
                    assert(u0.take(k + 1) =~= u0.take(k).push(u0[k]));
                    assert((d0 + u0.take(k)).push(u0[k]) =~= d0 + u0.take(k + 1));
                    k = k + 1;
                }
            },
            None => {},
        }
    }
    proof {
        text::lemma_take_all(u0);
        assert(sort::each(defs@) =~= sort::each(d0) + sort::each(u0));
    }
    (defs, n)
}

/// Whether a place is among others.
pub open spec fn covers(out: Seq<LocView>, key: Seq<char>) -> bool
    decreases out.len(),
{
    out.len() > 0 && (out.last().key() == key || covers(out.drop_last(), key))
}

/// A place that means `owner`, unless it is known to mean another.
pub open spec fn owned(l: LocView, owner: Option<Seq<char>>) -> LocView {
    if l.resolves_to is Some {
        l
    } else {
        LocView { resolves_to: owner, ..l }
    }
}

/// `out` with those places added that it does not have.
pub open spec fn absorbed(
    out: Seq<LocView>,
    owner: Option<Seq<char>>,
    locs: Seq<LocView>,
) -> Seq<LocView>
    decreases locs.len(),
{
    if locs.len() == 0 {
        out
    } else {
        let before = absorbed(out, owner, locs.drop_last());
        if covers(before, locs.last().key()) {
            before
        } else {
            before.push(owned(locs.last(), owner))
        }
    }
}

/// Whether one of the places to ask at has a key.
pub open spec fn asked(anchors: Seq<AnchorView>, key: Seq<char>) -> bool
    decreases anchors.len(),
{
    anchors.len() > 0 && (anchors.last().key == key || asked(anchors.drop_last(), key))
}

/// What asking at all places yields. A place is not asked at where one before it
/// had its key or yielded it. Where several definitions have the name, each place
/// says which of them it means.
pub open spec fn swept(
    anchors: Seq<AnchorView>,
    ambiguous: bool,
    says: spec_fn(Spot) -> Seq<LocView>,
) -> Seq<LocView>
    decreases anchors.len(),
{
    if anchors.len() == 0 {
        Seq::empty()
    } else {
        let before = swept(anchors.drop_last(), ambiguous, says);
        let a = anchors.last();
        if asked(anchors.drop_last(), a.key) || covers(before, a.key) {
            before
        } else {
            absorbed(
                before,
                if ambiguous && a.is_def {
                    Some(a.key)
                } else {
                    None
                },
                says(a.spot),
            )
        }
    }
}

/// Whether several definitions have the name of a symbol.
pub open spec fn ambiguous(files: Seq<FileIndex>, symbol: Seq<char>) -> bool {
    def_anchors(files, names::query_leaf(symbol), names::query_qualifier(symbol)).len() > 1
}

/// All that a symbol means, by what is said at its places, in order.
pub open spec fn sweep_of(
    files: Seq<FileIndex>,
    symbol: Seq<char>,
    says: spec_fn(Spot) -> Seq<LocView>,
) -> Seq<LocView> {
    sort::sorted::<Loc>(swept(anchors_of(files, symbol), ambiguous(files, symbol), says))
}

/// A call as a use.
pub open spec fn as_call(l: LocView) -> LocView {
    LocView { kind: "call"@, ..l }
}

/// The uses at a place: what means the same, and what calls it.
pub open spec fn both<S: Sites>(sites: S) -> spec_fn(Spot) -> Seq<LocView> {
    |spot: Spot|
        sites.uses_of(spot) + Seq::new(
            sites.calls_of(spot).len(),
            |i: int| as_call(sites.calls_of(spot)[i]),
        )
}

/// The calls at a place.
pub open spec fn only_calls<S: Sites>(sites: S) -> spec_fn(Spot) -> Seq<LocView> {
    |spot: Spot| sites.calls_of(spot)
}

/// The answer at a place: its calls, or its uses and its calls.
fn ask<S: Sites>(sites: &S, path: &str, offset: u32, calls_only: bool) -> (r: Vec<Loc>)
    ensures
        sort::each(r@) == (if calls_only {
            only_calls(*sites)
        } else {
            both(*sites)
        })((path@, offset)),
{
    let calls = sites.callers_at(path, offset);
    if calls_only {
        return calls;
    }
    let mut out = sites.references_at(path, offset);
    let ghost before = sort::each(out@);
    let ghost all = sort::each(calls@);
    let ghost tail = Seq::new(all.len(), |i: int| as_call(all[i]));
    let mut i: usize = 0;
    assert(before + tail.take(0) =~= before);
    while i < calls.len()
        invariant
            i <= calls@.len(),
            all == sort::each(calls@),
            tail == Seq::new(all.len(), |i: int| as_call(all[i])),
            sort::each(out@) == before + tail.take(i as int),
        decreases calls@.len() - i,
    {
        let ghost held = out@;
        let mut one = calls[i].copy();
        one.kind = "call".to_owned();
        out.push(one);
        proof {
            sort::lemma_each_push(held, one);
            assert(one@ == tail[i as int]);
            assert(tail.take(i + 1) =~= tail.take(i as int).push(tail[i as int]));
            assert((before + tail.take(i as int)).push(one@) =~= before + tail.take(i + 1));
        }
        i = i + 1;
    }
    assert(tail.take(tail.len() as int) =~= tail);
    out
}

/// A text, where there is one.
pub open spec fn text_if(s: Option<String>) -> Option<Seq<char>> {
    match s {
        Some(t) => Some(t@),
        None => None,
    }
}

/// Adds those places that are not there yet.
fn absorb(
    out: &mut Vec<Loc>,
    keys: &mut Table<String, ()>,
    owner: &Option<String>,
    locs: Vec<Loc>,
)
    requires
        forall|k: Seq<char>| #[trigger]
            old(keys).keys().contains(k) <==> covers(sort::each(old(out)@), k),
    ensures
        sort::each(final(out)@) == absorbed(
            sort::each(old(out)@),
            text_if(*owner),
            sort::each(locs@),
        ),
        forall|k: Seq<char>| #[trigger]
            final(keys).keys().contains(k) <==> covers(sort::each(final(out)@), k),
{
    let ghost before = sort::each(out@);
    let ghost who = text_if(*owner);
    let ghost all = sort::each(locs@);
    let ghost raw = locs@;
    let mut rest = reversed(locs);
    let ghost mut n: int = 0;
    assert(all.take(0) =~= Seq::empty());
    while rest.len() > 0
        invariant
            0 <= n <= all.len(),
            all == sort::each(raw),
            rest@.len() == all.len() - n,
            forall|m: int| 0 <= m < rest@.len() ==> rest@[m] == raw[raw.len() - 1 - m],
            who == text_if(*owner),
            sort::each(out@) == absorbed(before, who, all.take(n)),
            forall|k: Seq<char>| #[trigger]
                keys.keys().contains(k) <==> covers(sort::each(out@), k),
        decreases rest@.len(),
    {
        match rest.pop() {
            Some(l) => {
                let key = l.key();
                proof {
                    text::lemma_take_step(all, n);
                    assert(all[n] == l@);
                    assert(keys.keys().contains(key@) <==> covers(sort::each(out@), key@));
                }
                if !keys.contains_key(&key) {
                    let mut one = l;
                    if one.resolves_to.is_none() {
                        one.resolves_to = match owner {
                            Some(o) => Some(o.clone()),
                            None => None,
                        };
                    }
                    assert(one@ == owned(all[n], who));
                    assert(one@.key() == key@);
                    let ghost held = out@;
                    out.push(one);
                    keys.insert(key, ());
                    proof {
                        sort::lemma_each_push(held, one);
                        assert(sort::each(out@).drop_last() =~= sort::each(held));
                        assert(sort::each(out@).last() == one@);
                    }
                }
                proof {
                    n = n + 1;
                }
            },
            None => {},
        }
    }
    proof {
        text::lemma_take_all(all);
    }
}

/// All that a symbol means, by what the sites say at its places.
fn sweep<S: Sites>(files: &Vec<FileIndex>, sites: &S, symbol: &str, calls_only: bool) -> (r: Vec<Loc>)
    ensures
        sort::each(r@) == sweep_of(
            files@,
            symbol@,
            if calls_only {
                only_calls(*sites)
            } else {
                both(*sites)
            },
        ),
{
    let ghost says = if calls_only {
        only_calls(*sites)
    } else {
        both(*sites)
    };
    let (anchors, n_defs) = occurrences(files, symbol);
    let several = n_defs > 1;
    let ghost all = anchors_of(files@, symbol@);
    let mut out: Vec<Loc> = Vec::new();
    let mut visited: Table<String, ()> = Table::new();
    let mut keys: Table<String, ()> = Table::new();
    let mut i: usize = 0;
    assert(sort::each(out@) =~= swept(all.take(0), several, says));
    while i < anchors.len()
        invariant
            i <= anchors@.len(),
            sort::each(anchors@) == all,
            says == (if calls_only {
                only_calls(*sites)
            } else {
                both(*sites)
            }),
            sort::each(out@) == swept(all.take(i as int), several, says),
            forall|k: Seq<char>| #[trigger]
                visited.keys().contains(k) <==> asked(all.take(i as int), k),
            forall|k: Seq<char>| #[trigger]
                keys.keys().contains(k) <==> covers(sort::each(out@), k),
        decreases anchors@.len() - i,
    {
        let a = &anchors[i];
        proof {
            text::lemma_take_step(all, i as int);
            assert(sort::each(anchors@)[i as int] == a@);
            assert(visited.keys().contains(a.key@) <==> asked(all.take(i as int), a.key@));
            assert(keys.keys().contains(a.key@) <==> covers(sort::each(out@), a.key@));
        }
        let skip = visited.contains_key(&a.key) || keys.contains_key(&a.key);
        visited.insert(a.key.clone(), ());
        if !skip {
            let owner = if several && a.is_def {
                Some(a.key.clone())
            } else {
                None
            };
            let locs = ask(sites, a.path.as_str(), a.offset, calls_only);
            absorb(&mut out, &mut keys, &owner, locs);
        }
        i = i + 1;
    }
    proof {
        text::lemma_take_all(all);
    }
    sort(out)
}

/// The key that all definitions among places have, where there is just one.
pub open spec fn sole_key(locs: Seq<LocView>) -> Option<Seq<char>>
    decreases locs.len(),
{
    if locs.len() == 0 {
        None
    } else {
        let before = sole_key(locs.drop_last());
        if locs.last().role != "definition"@ {
            before
        } else if !has_definition(locs.drop_last()) {
            Some(locs.last().key())
        } else if before == Some(locs.last().key()) {
            before
        } else {
            None
        }
    }
}

/// Whether one of the places is a definition.
pub open spec fn has_definition(locs: Seq<LocView>) -> bool
    decreases locs.len(),
{
    locs.len() > 0 && (locs.last().role == "definition"@ || has_definition(locs.drop_last()))
}

/// A binding that means the one definition, where there is one.
pub open spec fn pointed(l: LocView, target: Option<Seq<char>>) -> LocView {
    if l.role == "binding"@ && target is Some {
        LocView { resolves_to: target, ..l }
    } else {
        l
    }
}

/// Places without those that have the key of the one before them.
pub open spec fn deduped(s: Seq<LocView>) -> Seq<LocView>
    decreases s.len(),
{
    if s.len() == 0 {
        Seq::empty()
    } else {
        let before = deduped(s.drop_last());
        if before.len() > 0 && before.last().key() == s.last().key() {
            before
        } else {
            before.push(s.last())
        }
    }
}

/// Places with each binding pointed to the one definition.
pub open spec fn all_pointed(s: Seq<LocView>) -> Seq<LocView> {
    Seq::new(s.len(), |i: int| pointed(s[i], sole_key(s)))
}

/// The places where a symbol is bound. A qualifier leaves those in its scope. Where the
/// name has just one definition, and that is in the scope, every import of the name
/// means it and counts too.
pub open spec fn bound_at(files: Seq<FileIndex>, symbol: Seq<char>) -> Seq<LocView> {
    let leaf = names::query_leaf(symbol);
    let all = defs_of(files, leaf, Seq::empty());
    let scoped = defs_of(files, leaf, names::query_qualifier(symbol));
    if sole_key(all) is Some && has_definition(scoped) {
        all
    } else {
        scoped
    }
}

/// The definitions of a symbol: in order, each place once, each import pointing to
/// the definition where there is just one.
pub open spec fn definitions_of(files: Seq<FileIndex>, symbol: Seq<char>) -> Seq<LocView> {
    deduped(sort::sorted::<Loc>(all_pointed(bound_at(files, symbol))))
}

/// Whether one of the places is a definition.
fn any_definition(locs: &Vec<Loc>) -> (r: bool)
    ensures
        r == has_definition(sort::each(locs@)),
{
    let ghost all = sort::each(locs@);
    let mut any = false;
    let mut i: usize = 0;
    while i < locs.len()
        invariant
            i <= locs@.len(),
            all == sort::each(locs@),
            any == has_definition(all.take(i as int)),
        decreases locs@.len() - i,
    {
        proof {
            text::lemma_take_step(all, i as int);
            assert(all[i as int] == locs@[i as int]@);
        }
        if same(locs[i].role, "definition") {
            any = true;
        }
        i = i + 1;
    }
    proof {
        text::lemma_take_all(all);
    }
    any
}

/// The key that all definitions among places have, where there is just one.
fn find_sole_key(locs: &Vec<Loc>) -> (r: Option<String>)
    ensures
        match r {
            Some(k) => sole_key(sort::each(locs@)) == Some(k@),
            None => sole_key(sort::each(locs@)) is None,
        },
{
    let ghost all = sort::each(locs@);
    let mut any = false;
    let mut target: Option<String> = None;
    let mut i: usize = 0;
    while i < locs.len()
        invariant
            i <= locs@.len(),
            all == sort::each(locs@),
            any == has_definition(all.take(i as int)),
            match target {
                Some(k) => sole_key(all.take(i as int)) == Some(k@),
                None => sole_key(all.take(i as int)) is None,
            },
        decreases locs@.len() - i,
    {
        let l = &locs[i];
        proof {
            text::lemma_take_step(all, i as int);
            assert(all[i as int] == l@);
        }
        if same(l.role, "definition") {
            let key = l.key();
            if !any {
                target = Some(key);
            } else {
                let agrees = match &target {
                    Some(t) => same(t.as_str(), key.as_str()),
                    None => false,
                };
                if !agrees {
                    target = None;
                }
            }
            any = true;
        }
        i = i + 1;
    }
    proof {
        text::lemma_take_all(all);
    }
    target
}

/// Places with each binding pointed to the one definition.
fn point_all(locs: Vec<Loc>) -> (r: Vec<Loc>)
    ensures
        sort::each(r@) == all_pointed(sort::each(locs@)),
{
    let ghost all = sort::each(locs@);
    let ghost want = all_pointed(all);
    let target = find_sole_key(&locs);
    let mut out: Vec<Loc> = Vec::new();
    let mut i: usize = 0;
    while i < locs.len()
        invariant
            i <= locs@.len(),
            all == sort::each(locs@),
            want == all_pointed(all),
            match target {
                Some(k) => sole_key(all) == Some(k@),
                None => sole_key(all) is None,
            },
            sort::each(out@) == want.take(i as int),
        decreases locs@.len() - i,
    {
        let ghost held = out@;
        let mut one = locs[i].copy();
        if let Some(t) = &target {
            if same(one.role, "binding") {
                one.resolves_to = Some(t.clone());
            }
        }
        out.push(one);
        proof {
            sort::lemma_each_push(held, one);
            assert(all[i as int] == locs@[i as int]@);
            assert(one@ == want[i as int]);
            assert(want.take(i + 1) =~= want.take(i as int).push(want[i as int]));
        }
        i = i + 1;
    }
    assert(want.take(want.len() as int) =~= want);
    out
}

/// Places without those that have the key of the one before them.
fn dedup(locs: Vec<Loc>) -> (r: Vec<Loc>)
    ensures
        sort::each(r@) == deduped(sort::each(locs@)),
{
    let ghost raw = locs@;
    let ghost all = sort::each(locs@);
    let mut rest = reversed(locs);
    let mut out: Vec<Loc> = Vec::new();
    let ghost mut n: int = 0;
    assert(sort::each(out@) =~= deduped(all.take(0)));
    while rest.len() > 0
        invariant
            0 <= n <= all.len(),
            all == sort::each(raw),
            rest@.len() == all.len() - n,
            forall|m: int| 0 <= m < rest@.len() ==> rest@[m] == raw[raw.len() - 1 - m],
            sort::each(out@) == deduped(all.take(n)),
        decreases rest@.len(),
    {
        match rest.pop() {
            Some(l) => {
                proof {
                    text::lemma_take_step(all, n);
                    assert(all[n] == l@);
                    assert(sort::each(out@).len() == out@.len());
                }
                let repeats = if out.len() > 0 {
                    let a = out[out.len() - 1].key();
                    let b = l.key();
                    assert(sort::each(out@).last() == out@.last()@);
                    same(a.as_str(), b.as_str())
                } else {
                    false
                };
                if !repeats {
                    let ghost held = out@;
                    out.push(l);
                    proof {
                        sort::lemma_each_push(held, l);
                    }
                }
                proof {
                    n = n + 1;
                }
            },
            None => {},
        }
    }
    proof {
        text::lemma_take_all(all);
    }
    out
}

/// Locates by the facts of the files and resolves by a source of sites.
pub struct UnifiedResolver<S: Sites> {
    pub sites: S,
    pub files: Vec<FileIndex>,
}

impl<S: Sites> UnifiedResolver<S> {
    /// A resolver over the facts of files and a source of sites.
    pub fn new(sites: S, files: Vec<FileIndex>) -> (r: Self)
        ensures
            r.sites == sites,
            r.files == files,
    {
        UnifiedResolver { sites, files }
    }
}

impl<S: Sites> Resolver for UnifiedResolver<S> {
    fn references(&self, symbol: &str) -> (r: Vec<Loc>)
        ensures
            sort::each(r@) == sweep_of(self.files@, symbol@, both(self.sites)),
    {
        sweep(&self.files, &self.sites, symbol, false)
    }

    fn definitions(&self, symbol: &str) -> (r: Vec<Loc>)
        ensures
            sort::each(r@) == definitions_of(self.files@, symbol@),
    {
        let (leaf, qualifier) = parse_query(symbol);
        let scoped = collect_defs(&self.files, leaf.as_str(), &qualifier);
        let none: Vec<String> = Vec::new();
        assert(text::views(none@) =~= Seq::empty());
        let all = collect_defs(&self.files, leaf.as_str(), &none);
        let found = if find_sole_key(&all).is_some() && any_definition(&scoped) {
            all
        } else {
            scoped
        };
        dedup(sort(point_all(found)))
    }

    fn callers(&self, symbol: &str) -> (r: Vec<Loc>)
        ensures
            sort::each(r@) == sweep_of(self.files@, symbol@, only_calls(self.sites)),
    {
        sweep(&self.files, &self.sites, symbol, true)
    }
}

/// Whether no two places have one key.
pub open spec fn apart(s: Seq<LocView>) -> bool {
    forall|i: int, j: int|
        0 <= i < j < s.len() ==> (#[trigger] s[i]).key() != (#[trigger] s[j]).key()
}

/// A place among others is covered by them.
proof fn lemma_covers(s: Seq<LocView>, i: int)
    requires
        0 <= i < s.len(),
    ensures
        covers(s, s[i].key()),
    decreases s.len(),
{
    if i < s.len() - 1 {
        assert(s.drop_last()[i] == s[i]);
        lemma_covers(s.drop_last(), i);
    }
}

/// Adding places keeps them apart.
proof fn lemma_absorbed_apart(out: Seq<LocView>, owner: Option<Seq<char>>, locs: Seq<LocView>)
    requires
        apart(out),
    ensures
        apart(absorbed(out, owner, locs)),
    decreases locs.len(),
{
    if locs.len() > 0 {
        lemma_absorbed_apart(out, owner, locs.drop_last());
        let before = absorbed(out, owner, locs.drop_last());
        if !covers(before, locs.last().key()) {
            let now = before.push(owned(locs.last(), owner));
            assert forall|i: int, j: int| 0 <= i < j < now.len() implies (
            #[trigger] now[i]).key() != (#[trigger] now[j]).key() by {
                assert(now[i] == before[i]);
                if j == before.len() {
                    lemma_covers(before, i);
                } else {
                    assert(now[j] == before[j]);
                }
            }
        }
    }
}

/// What asking at all places yields is apart.
proof fn lemma_swept_apart(
    anchors: Seq<AnchorView>,
    ambiguous: bool,
    says: spec_fn(Spot) -> Seq<LocView>,
)
    ensures
        apart(swept(anchors, ambiguous, says)),
    decreases anchors.len(),
{
    if anchors.len() > 0 {
        lemma_swept_apart(anchors.drop_last(), ambiguous, says);
        let before = swept(anchors.drop_last(), ambiguous, says);
        let a = anchors.last();
        let owner = if ambiguous && a.is_def {
            Some(a.key)
        } else {
            None
        };
        lemma_absorbed_apart(before, owner, says(a.spot));
    }
}

/// Sorting keeps places apart.
proof fn lemma_sorted_apart(s: Seq<LocView>)
    requires
        apart(s),
    ensures
        apart(sort::sorted::<Loc>(s)),
{
    let r = sort::sorted::<Loc>(s);
    sort::lemma_sorted::<Loc>(s);
    assert(s.no_duplicates()) by {
        assert forall|i: int, j: int|
            0 <= i < s.len() && 0 <= j < s.len() && i != j implies s[i] != s[j] by {
            if i < j {
                assert(s[i].key() != s[j].key());
            } else {
                assert(s[j].key() != s[i].key());
            }
        }
    }
    s.lemma_multiset_has_no_duplicates();
    r.lemma_multiset_has_no_duplicates_conv();
    assert forall|i: int, j: int| 0 <= i < j < r.len() implies (#[trigger] r[i]).key() != (
    #[trigger] r[j]).key() by {
        assert(r.contains(r[i]) && r.contains(r[j]));
        sort::lemma_sorted_contains::<Loc>(s, r[i]);
        sort::lemma_sorted_contains::<Loc>(s, r[j]);
        let p = choose|p: int| 0 <= p < s.len() && s[p] == r[i];
        let q = choose|q: int| 0 <= q < s.len() && s[q] == r[j];
        if p < q {
            assert(s[p].key() != s[q].key());
        } else if q < p {
            assert(s[q].key() != s[p].key());
        }
    }
}

/// The uses and calls of a symbol come in the order of their places, each place
/// once, whatever the source of sites says.
pub proof fn law_each_site_once(
    files: Seq<FileIndex>,
    symbol: Seq<char>,
    says: spec_fn(Spot) -> Seq<LocView>,
)
    ensures
        sort::in_order::<Loc>(sweep_of(files, symbol, says)),
        apart(sweep_of(files, symbol, says)),
{
    let s = swept(anchors_of(files, symbol), ambiguous(files, symbol), says);
    lemma_swept_apart(anchors_of(files, symbol), ambiguous(files, symbol), says);
    sort::lemma_sorted::<Loc>(s);
    lemma_sorted_apart(s);
}

/// Dropping repeats from places in order leaves them in order and apart.
proof fn lemma_deduped(s: Seq<LocView>)
    requires
        sort::in_order::<Loc>(s),
    ensures
        sort::in_order::<Loc>(deduped(s)),
        apart(deduped(s)),
        s.len() > 0 ==> deduped(s).len() > 0 && deduped(s).last().key() == s.last().key(),
        forall|i: int| 0 <= i < deduped(s).len() ==> s.contains(#[trigger] deduped(s)[i]),
    decreases s.len(),
{
    if s.len() > 0 {
        let less = s.drop_last();
        assert forall|i: int, j: int| 0 <= i < j < less.len() implies !Loc::precedes(
            #[trigger] less[j],
            #[trigger] less[i],
        ) by {
            assert(less[i] == s[i] && less[j] == s[j]);
        }
        lemma_deduped(less);
        let before = deduped(less);
        let now = deduped(s);
        assert forall|i: int| 0 <= i < now.len() implies s.contains(#[trigger] now[i]) by {
            if i < before.len() {
                assert(now[i] == before[i]);
                let k = choose|k: int| 0 <= k < less.len() && less[k] == before[i];
                assert(s[k] == now[i]);
            } else {
                assert(s[s.len() - 1] == now[i]);
            }
        }
        if before.len() == 0 || before.last().key() != s.last().key() {
            assert forall|i: int, j: int| 0 <= i < j < now.len() implies !Loc::precedes(
                #[trigger] now[j],
                #[trigger] now[i],
            ) && now[i].key() != now[j].key() by {
                assert(now[i] == before[i]);
                if j == before.len() {
                    assert(less.contains(before[i]));
                    let k = choose|k: int| 0 <= k < less.len() && less[k] == before[i];
                    assert(s[k] == before[i]);
                    assert(!Loc::precedes(s[s.len() - 1], s[k]));
                    if before[i].key() == s.last().key() {
                        assert(!Loc::precedes(s.last(), before.last())) by {
                            assert(less.contains(before[before.len() - 1]));
                            let m = choose|m: int|
                                0 <= m < less.len() && less[m] == before[before.len() - 1];
                            assert(s[m] == before.last());
                            assert(!Loc::precedes(s[s.len() - 1], s[m]));
                        }
                        if i < before.len() - 1 {
                            assert(!Loc::precedes(before[before.len() - 1], before[i]));
                        }
                        text::lemma_text_lt_total(before.last().key(), s.last().key());
                    }
                } else {
                    assert(now[j] == before[j]);
                }
            }
        }
    }
}

/// The definitions of a symbol come in the order of their places, each place once.
pub proof fn law_each_definition_once(files: Seq<FileIndex>, symbol: Seq<char>)
    ensures
        sort::in_order::<Loc>(definitions_of(files, symbol)),
        apart(definitions_of(files, symbol)),
{
    let s = all_pointed(bound_at(files, symbol));
    sort::lemma_sorted::<Loc>(s);
    lemma_deduped(sort::sorted::<Loc>(s));
}

/// A key that is covered is that of one of the places.
proof fn lemma_covered(s: Seq<LocView>, key: Seq<char>)
    requires
        covers(s, key),
    ensures
        exists|i: int| 0 <= i < s.len() && (#[trigger] s[i]).key() == key,
    decreases s.len(),
{
    if s.last().key() == key {
        assert(s[s.len() - 1].key() == key);
    } else {
        lemma_covered(s.drop_last(), key);
        let i = choose|i: int|
            0 <= i < s.drop_last().len() && (#[trigger] s.drop_last()[i]).key() == key;
        assert(s[i].key() == key);
    }
}

/// Adding places covers their keys and those that were covered, and no others.
proof fn lemma_absorbed_covers(
    out: Seq<LocView>,
    owner: Option<Seq<char>>,
    locs: Seq<LocView>,
    key: Seq<char>,
)
    ensures
        covers(absorbed(out, owner, locs), key) <==> covers(out, key) || covers(locs, key),
    decreases locs.len(),
{
    if locs.len() > 0 {
        lemma_absorbed_covers(out, owner, locs.drop_last(), key);
        let before = absorbed(out, owner, locs.drop_last());
        if !covers(before, locs.last().key()) {
            let now = before.push(owned(locs.last(), owner));
            assert(now.drop_last() =~= before);
        }
    }
}

/// Whether all that is said at a place to ask at is covered.
spec fn taken_in(
    anchors: Seq<AnchorView>,
    says: spec_fn(Spot) -> Seq<LocView>,
    out: Seq<LocView>,
    i: int,
) -> bool {
    &&& 0 <= i < anchors.len()
    &&& forall|key: Seq<char>| #[trigger] covers(says(anchors[i].spot), key) ==> covers(out, key)
}

/// Whether a place to ask at has the key of another, or is yielded there.
spec fn answers_for(
    anchors: Seq<AnchorView>,
    says: spec_fn(Spot) -> Seq<LocView>,
    i: int,
    key: Seq<char>,
) -> bool {
    anchors[i].key == key || covers(says(anchors[i].spot), key)
}

/// A key that was asked at is that of one of the places to ask at.
proof fn lemma_asked(anchors: Seq<AnchorView>, key: Seq<char>)
    requires
        asked(anchors, key),
    ensures
        exists|i: int| 0 <= i < anchors.len() && (#[trigger] anchors[i]).key == key,
    decreases anchors.len(),
{
    if anchors.last().key == key {
        assert(anchors[anchors.len() - 1].key == key);
    } else {
        lemma_asked(anchors.drop_last(), key);
        let i = choose|i: int|
            0 <= i < anchors.drop_last().len() && (#[trigger] anchors.drop_last()[i]).key == key;
        assert(anchors[i].key == key);
    }
}

/// What asking at all places covers is said at a place that is taken in as a whole;
/// and for each place to ask at there is one that answers for it.
proof fn lemma_swept_covers(
    anchors: Seq<AnchorView>,
    ambiguous: bool,
    says: spec_fn(Spot) -> Seq<LocView>,
)
    ensures
        forall|key: Seq<char>| #[trigger]
            covers(swept(anchors, ambiguous, says), key) ==> exists|i: int| #[trigger]
                taken_in(anchors, says, swept(anchors, ambiguous, says), i) && covers(
                    says(anchors[i].spot),
                    key,
                ),
        forall|k: int|
            0 <= k < anchors.len() ==> exists|i: int| #[trigger]
                taken_in(anchors, says, swept(anchors, ambiguous, says), i) && answers_for(
                    anchors,
                    says,
                    i,
                    (#[trigger] anchors[k]).key,
                ),
    decreases anchors.len(),
{
    if anchors.len() > 0 {
        let less = anchors.drop_last();
        let before = swept(less, ambiguous, says);
        let now = swept(anchors, ambiguous, says);
        let a = anchors.last();
        let n = anchors.len() - 1;
        lemma_swept_covers(less, ambiguous, says);
        let skipped = asked(less, a.key) || covers(before, a.key);
        let owner = if ambiguous && a.is_def {
            Some(a.key)
        } else {
            None
        };
        assert forall|key: Seq<char>| covers(before, key) implies covers(now, key) by {
            if !skipped {
                lemma_absorbed_covers(before, owner, says(a.spot), key);
            }
        }
        assert forall|i: int| taken_in(less, says, before, i) implies taken_in(
            anchors,
            says,
            now,
            i,
        ) by {
            assert(less[i] == anchors[i]);
        }
        if !skipped {
            assert forall|key: Seq<char>| #[trigger] covers(says(anchors[n].spot), key) implies covers(
                now,
                key,
            ) by {
                lemma_absorbed_covers(before, owner, says(a.spot), key);
            }
            assert(taken_in(anchors, says, now, n));
        }
        assert forall|key: Seq<char>| #[trigger] covers(now, key) implies exists|i: int| #[trigger]
            taken_in(anchors, says, now, i) && covers(says(anchors[i].spot), key) by {
            if !skipped {
                lemma_absorbed_covers(before, owner, says(a.spot), key);
            }
            if covers(before, key) {
                let i = choose|i: int| #[trigger]
                    taken_in(less, says, before, i) && covers(says(less[i].spot), key);
                assert(taken_in(anchors, says, now, i));
                assert(less[i] == anchors[i]);
            } else {
                assert(taken_in(anchors, says, now, n));
            }
        }
        assert forall|k: int| 0 <= k < anchors.len() implies exists|i: int| #[trigger]
            taken_in(anchors, says, now, i) && answers_for(
                anchors,
                says,
                i,
                (#[trigger] anchors[k]).key,
            ) by {
            if k < n {
                assert(less[k] == anchors[k]);
                let i = choose|i: int| #[trigger]
                    taken_in(less, says, before, i) && answers_for(less, says, i, less[k].key);
                assert(taken_in(anchors, says, now, i));
                assert(less[i] == anchors[i]);
                assert(answers_for(anchors, says, i, anchors[k].key));
            } else if !skipped {
                assert(taken_in(anchors, says, now, n));
                assert(answers_for(anchors, says, n, anchors[k].key));
            } else if covers(before, a.key) {
                let i = choose|i: int| #[trigger]
                    taken_in(less, says, before, i) && covers(says(less[i].spot), a.key);
                assert(taken_in(anchors, says, now, i));
                assert(less[i] == anchors[i]);
                assert(answers_for(anchors, says, i, anchors[k].key));
            } else {
                lemma_asked(less, a.key);
                let j = choose|j: int| 0 <= j < less.len() && (#[trigger] less[j]).key == a.key;
                let i = choose|i: int| #[trigger]
                    taken_in(less, says, before, i) && answers_for(less, says, i, less[j].key);
                assert(taken_in(anchors, says, now, i));
                assert(less[i] == anchors[i]);
                assert(answers_for(anchors, says, i, anchors[k].key));
            }
        }
    }
}

/// Sorting covers the same keys.
proof fn lemma_sorted_covers(s: Seq<LocView>, key: Seq<char>)
    ensures
        covers(sort::sorted::<Loc>(s), key) <==> covers(s, key),
{
    let r = sort::sorted::<Loc>(s);
    if covers(r, key) {
        lemma_covered(r, key);
        let i = choose|i: int| 0 <= i < r.len() && (#[trigger] r[i]).key() == key;
        assert(r.contains(r[i]));
        sort::lemma_sorted_contains::<Loc>(s, r[i]);
        let j = choose|j: int| 0 <= j < s.len() && s[j] == r[i];
        lemma_covers(s, j);
    }
    if covers(s, key) {
        lemma_covered(s, key);
        let i = choose|i: int| 0 <= i < s.len() && (#[trigger] s[i]).key() == key;
        assert(s.contains(s[i]));
        sort::lemma_sorted_contains::<Loc>(s, s[i]);
        let j = choose|j: int| 0 <= j < r.len() && r[j] == s[i];
        lemma_covers(r, j);
    }
}

/// Whether the calls found at one place to ask at are found at another as well.
pub open spec fn calls_within<S: Sites>(sites: S, spot: Spot, other: Spot) -> bool {
    forall|key: Seq<char>| #[trigger]
        covers(sites.calls_of(spot), key) ==> covers(both(sites)(other), key)
}

/// Whether a source of sites is of one mind on the places of a symbol: what one place
/// yields has no calls that this place does not yield.
pub open spec fn of_one_mind<S: Sites>(sites: S, anchors: Seq<AnchorView>) -> bool {
    forall|i: int, k: int|
        0 <= i < anchors.len() && 0 <= k < anchors.len() && (anchors[i].key == anchors[k].key
            || covers(both(sites)(anchors[i].spot), anchors[k].key)) ==> #[trigger] calls_within(
            sites,
            anchors[k].spot,
            anchors[i].spot,
        )
}

/// Every call of a symbol is among its uses, where the source of sites is of one mind.
pub proof fn law_calls_are_uses<S: Sites>(files: Seq<FileIndex>, symbol: Seq<char>, sites: S, i: int)
    requires
        of_one_mind(sites, anchors_of(files, symbol)),
        0 <= i < sweep_of(files, symbol, only_calls(sites)).len(),
    ensures
        covers(
            sweep_of(files, symbol, both(sites)),
            sweep_of(files, symbol, only_calls(sites))[i].key(),
        ),
{
    let anchors = anchors_of(files, symbol);
    let several = ambiguous(files, symbol);
    let calls = swept(anchors, several, only_calls(sites));
    let uses = swept(anchors, several, both(sites));
    let key = sweep_of(files, symbol, only_calls(sites))[i].key();
    lemma_covers(sweep_of(files, symbol, only_calls(sites)), i);
    lemma_sorted_covers(calls, key);
    lemma_swept_covers(anchors, several, only_calls(sites));
    let k = choose|k: int| #[trigger]
        taken_in(anchors, only_calls(sites), calls, k) && covers(
            only_calls(sites)(anchors[k].spot),
            key,
        );
    assert(covers(sites.calls_of(anchors[k].spot), key));
    lemma_swept_covers(anchors, several, both(sites));
    assert(0 <= k < anchors.len());
    let j = choose|j: int| #[trigger]
        taken_in(anchors, both(sites), uses, j) && answers_for(
            anchors,
            both(sites),
            j,
            anchors[k].key,
        );
    assert(calls_within(sites, anchors[k].spot, anchors[j].spot));
    assert(covers(both(sites)(anchors[j].spot), key));
    lemma_sorted_covers(uses, key);
}

/// A dotted symbol resolves by its last part: where that has just one definition, and
/// it is in the scope that the symbol names, the answer is that for the last part alone.
pub proof fn law_dotted_resolves_by_its_last_part(files: Seq<FileIndex>, symbol: Seq<char>)
    requires
        sole_key(defs_of(files, names::query_leaf(symbol), Seq::empty())) is Some,
        has_definition(
            defs_of(files, names::query_leaf(symbol), names::query_qualifier(symbol)),
        ),
    ensures
        definitions_of(files, symbol) == definitions_of(files, names::query_leaf(symbol)),
{
    names::lemma_leaf_alone(symbol);
}

/// Whether one of the places has a key.
pub open spec fn placed_at(locs: Seq<LocView>, key: Seq<char>) -> bool {
    exists|i: int| 0 <= i < locs.len() && (#[trigger] locs[i]).key() == key
}

/// Whether what is said at one place to ask at is said at another as well.
pub open spec fn said_within(says: spec_fn(Spot) -> Seq<LocView>, spot: Spot, other: Spot) -> bool {
    forall|key: Seq<char>| #[trigger] placed_at(says(spot), key) ==> placed_at(says(other), key)
}

/// Whether all places of a symbol that mean one thing say the same: one that has the
/// key of another, or yields it, yields all that the other does.
pub open spec fn says_alike(
    says: spec_fn(Spot) -> Seq<LocView>,
    anchors: Seq<AnchorView>,
) -> bool {
    forall|i: int, k: int|
        0 <= i < anchors.len() && 0 <= k < anchors.len() && (anchors[i].key == anchors[k].key
            || placed_at(says(anchors[i].spot), anchors[k].key)) ==> #[trigger] said_within(
            says,
            anchors[k].spot,
            anchors[i].spot,
        )
}

/// A key is covered just where one of the places has it.
proof fn lemma_placed_at(s: Seq<LocView>, key: Seq<char>)
    ensures
        covers(s, key) <==> placed_at(s, key),
{
    if covers(s, key) {
        lemma_covered(s, key);
    }
    if placed_at(s, key) {
        let i = choose|i: int| 0 <= i < s.len() && (#[trigger] s[i]).key() == key;
        lemma_covers(s, i);
    }
}

/// All that is said at a place of a symbol is reported for the symbol.
pub proof fn law_all_said_is_reported(
    files: Seq<FileIndex>,
    symbol: Seq<char>,
    says: spec_fn(Spot) -> Seq<LocView>,
    k: int,
    key: Seq<char>,
)
    requires
        says_alike(says, anchors_of(files, symbol)),
        0 <= k < anchors_of(files, symbol).len(),
        placed_at(says(anchors_of(files, symbol)[k].spot), key),
    ensures
        placed_at(sweep_of(files, symbol, says), key),
{
    let anchors = anchors_of(files, symbol);
    let several = ambiguous(files, symbol);
    let all = swept(anchors, several, says);
    lemma_swept_covers(anchors, several, says);
    let a = anchors[k];
    let j = choose|j: int| #[trigger]
        taken_in(anchors, says, all, j) && answers_for(anchors, says, j, a.key);
    lemma_placed_at(says(anchors[j].spot), a.key);
    assert(said_within(says, anchors[k].spot, anchors[j].spot));
    lemma_placed_at(says(anchors[j].spot), key);
    assert(covers(all, key));
    lemma_sorted_covers(all, key);
    lemma_placed_at(sweep_of(files, symbol, says), key);
}

/// All that is reported for a symbol is said at one of its places.
pub proof fn law_all_reported_is_said(
    files: Seq<FileIndex>,
    symbol: Seq<char>,
    says: spec_fn(Spot) -> Seq<LocView>,
    key: Seq<char>,
) -> (k: int)
    requires
        placed_at(sweep_of(files, symbol, says), key),
    ensures
        0 <= k < anchors_of(files, symbol).len(),
        placed_at(says(anchors_of(files, symbol)[k].spot), key),
{
    let anchors = anchors_of(files, symbol);
    let several = ambiguous(files, symbol);
    let all = swept(anchors, several, says);
    lemma_placed_at(sweep_of(files, symbol, says), key);
    lemma_sorted_covers(all, key);
    lemma_swept_covers(anchors, several, says);
    let k = choose|k: int| #[trigger]
        taken_in(anchors, says, all, k) && covers(says(anchors[k].spot), key);
    lemma_placed_at(says(anchors[k].spot), key);
    k
}

/// Dropping repeats leaves a place with each key.
proof fn lemma_deduped_keys(s: Seq<LocView>, i: int)
    requires
        0 <= i < s.len(),
    ensures
        placed_at(deduped(s), s[i].key()),
        deduped(s).len() > 0,
        deduped(s).last().key() == s.last().key(),
    decreases s.len(),
{
    let less = s.drop_last();
    let before = deduped(less);
    let now = deduped(s);
    if less.len() > 0 {
        lemma_deduped_keys(less, if i < less.len() { i } else { 0 });
    }
    assert(now[now.len() - 1].key() == s.last().key());
    if i < less.len() {
        assert(less[i] == s[i]);
        let k = choose|k: int| 0 <= k < before.len() && (#[trigger] before[k]).key() == s[i].key();
        assert(now[k] == before[k]);
    }
}

/// Where a symbol is bound is among its definitions.
pub proof fn law_all_bound_is_reported(files: Seq<FileIndex>, symbol: Seq<char>, k: int)
    requires
        0 <= k < bound_at(files, symbol).len(),
    ensures
        placed_at(definitions_of(files, symbol), bound_at(files, symbol)[k].key()),
{
    let s = bound_at(files, symbol);
    let p = all_pointed(s);
    assert(p[k].key() == s[k].key());
    assert(p.contains(p[k]));
    sort::lemma_sorted_contains::<Loc>(p, p[k]);
    let t = sort::sorted::<Loc>(p);
    let i = choose|i: int| 0 <= i < t.len() && t[i] == p[k];
    lemma_deduped_keys(t, i);
}

/// What is among the definitions of a symbol is where it is bound.
pub proof fn law_all_definitions_are_bound(files: Seq<FileIndex>, symbol: Seq<char>, k: int) -> (
    m: int)
    requires
        0 <= k < definitions_of(files, symbol).len(),
    ensures
        0 <= m < bound_at(files, symbol).len(),
        bound_at(files, symbol)[m].key() == definitions_of(files, symbol)[k].key(),
        bound_at(files, symbol)[m].role == definitions_of(files, symbol)[k].role,
        bound_at(files, symbol)[m].kind == definitions_of(files, symbol)[k].kind,
{
    let s = bound_at(files, symbol);
    let p = all_pointed(s);
    let t = sort::sorted::<Loc>(p);
    sort::lemma_sorted::<Loc>(p);
    lemma_deduped(t);
    let x = definitions_of(files, symbol)[k];
    assert(t.contains(deduped(t)[k]));
    sort::lemma_sorted_contains::<Loc>(p, x);
    choose|m: int| 0 <= m < p.len() && p[m] == x
}

/// Whether a place is one that was said at one of the places to ask at. Where the symbol has
/// several definitions and it was asked of one of them, a place that does not say what it
/// means is said to mean that one; else it stays as it is.
pub open spec fn comes_from(
    anchors: Seq<AnchorView>,
    ambiguous: bool,
    says: spec_fn(Spot) -> Seq<LocView>,
    i: int,
    k: int,
    l: LocView,
) -> bool {
    &&& 0 <= i < anchors.len()
    &&& 0 <= k < says(anchors[i].spot).len()
    &&& l.path == says(anchors[i].spot)[k].path
    &&& l.line == says(anchors[i].spot)[k].line
    &&& l.col == says(anchors[i].spot)[k].col
    &&& l.kind == says(anchors[i].spot)[k].kind
    &&& l.role == says(anchors[i].spot)[k].role
    &&& match says(anchors[i].spot)[k].resolves_to {
        Some(t) => l.resolves_to == Some(t),
        None => if ambiguous && anchors[i].is_def {
            l.resolves_to == Some(anchors[i].key)
        } else {
            l.resolves_to is None
        },
    }
}

proof fn lemma_absorbed_from(
    out: Seq<LocView>,
    owner: Option<Seq<char>>,
    locs: Seq<LocView>,
    m: int,
) -> (k: int)
    requires
        0 <= m < absorbed(out, owner, locs).len(),
    ensures
        k < 0 ==> m < out.len() && absorbed(out, owner, locs)[m] == out[m],
        k >= 0 ==> k < locs.len() && absorbed(out, owner, locs)[m] == owned(locs[k], owner),
    decreases locs.len(),
{
    if locs.len() == 0 {
        -1
    } else {
        let before = absorbed(out, owner, locs.drop_last());
        if m < before.len() {
            lemma_absorbed_from(out, owner, locs.drop_last(), m)
        } else {
            locs.len() - 1
        }
    }
}

/// What asking yields was said at a place that was asked at, and says what it means as far as
/// that is known.
pub proof fn law_yield_comes_from_asking(
    anchors: Seq<AnchorView>,
    ambiguous: bool,
    says: spec_fn(Spot) -> Seq<LocView>,
    m: int,
) -> (r: (int, int))
    requires
        0 <= m < swept(anchors, ambiguous, says).len(),
    ensures
        comes_from(anchors, ambiguous, says, r.0, r.1, swept(anchors, ambiguous, says)[m]),
    decreases anchors.len(),
{
    let less = anchors.drop_last();
    let a = anchors.last();
    let before = swept(less, ambiguous, says);
    if asked(less, a.key) || covers(before, a.key) {
        let r = law_yield_comes_from_asking(less, ambiguous, says, m);
        assert(less[r.0] == anchors[r.0]);
        r
    } else {
        let owner = if ambiguous && a.is_def {
            Some(a.key)
        } else {
            None
        };
        let k = lemma_absorbed_from(before, owner, says(a.spot), m);
        if k < 0 {
            let r = law_yield_comes_from_asking(less, ambiguous, says, m);
            assert(less[r.0] == anchors[r.0]);
            r
        } else {
            (anchors.len() - 1, k)
        }
    }
}

proof fn lemma_uses_in(path: Seq<char>, refs: Seq<Ref>, symbol: Seq<char>, calls_only: bool, l: LocView)
    ensures
        uses_in(path, refs, symbol, calls_only).contains(l) <==> exists|k: int|
            0 <= k < refs.len() && (#[trigger] refs[k]).name@ == symbol && (calls_only
                ==> refs[k].is_call) && l == ref_loc(path, refs[k]),
    decreases refs.len(),
{
    if refs.len() > 0 {
        let less = refs.drop_last();
        let r = refs.last();
        lemma_uses_in(path, less, symbol, calls_only, l);
        text::lemma_push_contains(uses_in(path, less, symbol, calls_only), ref_loc(path, r));
        assert(refs[refs.len() - 1] == r);
        if uses_in(path, less, symbol, calls_only).contains(l) {
            let k = choose|k: int|
                0 <= k < less.len() && (#[trigger] less[k]).name@ == symbol && (calls_only
                    ==> less[k].is_call) && l == ref_loc(path, less[k]);
            assert(refs[k] == less[k]);
        }
        if exists|k: int|
            0 <= k < refs.len() && (#[trigger] refs[k]).name@ == symbol && (calls_only
                ==> refs[k].is_call) && l == ref_loc(path, refs[k]) {
            let k = choose|k: int|
                0 <= k < refs.len() && (#[trigger] refs[k]).name@ == symbol && (calls_only
                    ==> refs[k].is_call) && l == ref_loc(path, refs[k]);
            if k < less.len() {
                assert(less[k] == refs[k]);
            }
        }
    }
}

/// Whether a place is that of a use of a name: where it stands, and whether it is a call.
pub open spec fn use_at(
    files: Seq<FileIndex>,
    symbol: Seq<char>,
    calls_only: bool,
    l: LocView,
    i: int,
    k: int,
) -> bool {
    &&& 0 <= i < files.len()
    &&& 0 <= k < files[i].refs@.len()
    &&& files[i].refs@[k].name@ == symbol
    &&& calls_only ==> files[i].refs@[k].is_call
    &&& l.path == files[i].path@
    &&& l.line == files[i].refs@[k].pos.line
    &&& l.col == files[i].refs@[k].pos.col
    &&& files[i].refs@[k].is_call ==> l.kind == "call"@ && l.role == "call"@
    &&& !files[i].refs@[k].is_call ==> l.kind == "ref"@ && l.role == "reference"@
    &&& l.resolves_to is None
}

/// By name alone, the uses of a symbol are those of the files that have its name, and its calls
/// are those of them that are calls.
pub proof fn law_uses_by_name(
    files: Seq<FileIndex>,
    symbol: Seq<char>,
    calls_only: bool,
    l: LocView,
)
    ensures
        uses(files, symbol, calls_only).contains(l) <==> exists|i: int, k: int|
            use_at(files, symbol, calls_only, l, i, k),
    decreases files.len(),
{
    if files.len() > 0 {
        let less = files.drop_last();
        let f = files.last();
        let n = files.len() - 1;
        law_uses_by_name(less, symbol, calls_only, l);
        lemma_uses_in(f.path@, f.refs@, symbol, calls_only, l);
        let a = uses(less, symbol, calls_only);
        let b = uses_in(f.path@, f.refs@, symbol, calls_only);
        let all = uses(files, symbol, calls_only);
        assert(all.contains(l) <==> a.contains(l) || b.contains(l)) by {
            if a.contains(l) {
                let x = choose|x: int| 0 <= x < a.len() && a[x] == l;
                assert(all[x] == l);
            }
            if b.contains(l) {
                let x = choose|x: int| 0 <= x < b.len() && b[x] == l;
                assert(all[a.len() + x] == l);
            }
            if all.contains(l) {
                let x = choose|x: int| 0 <= x < all.len() && all[x] == l;
                if x < a.len() {
                    assert(a[x] == l);
                } else {
                    assert(b[x - a.len()] == l);
                }
            }
        }
        if a.contains(l) {
            let (i, k) = choose|i: int, k: int| use_at(less, symbol, calls_only, l, i, k);
            assert(use_at(files, symbol, calls_only, l, i, k));
        }
        if b.contains(l) {
            let k = choose|k: int|
                0 <= k < f.refs@.len() && (#[trigger] f.refs@[k]).name@ == symbol && (calls_only
                    ==> f.refs@[k].is_call) && l == ref_loc(f.path@, f.refs@[k]);
            assert(use_at(files, symbol, calls_only, l, n, k));
        }
        if exists|i: int, k: int| use_at(files, symbol, calls_only, l, i, k) {
            let (i, k) = choose|i: int, k: int| use_at(files, symbol, calls_only, l, i, k);
            if i < n {
                assert(use_at(less, symbol, calls_only, l, i, k));
            } else {
                assert(l == ref_loc(f.path@, f.refs@[k]));
            }
        }
    }
}

/// The kinds of definitions go by names of their own.
pub proof fn law_kinds_of_definitions_differ(a: DefKind, b: DefKind)
    ensures
        def_tag(a) == def_tag(b) ==> a == b,
{
    reveal_strlit("function");
    reveal_strlit("class");
    reveal_strlit("variable");
    reveal_strlit("import");
    assert("function"@.len() == 8 && "class"@.len() == 5 && "variable"@.len() == 8
        && "import"@.len() == 6);
    assert("function"@[0] == 'f' && "variable"@[0] == 'v');
}

/// Functions and classes are callables, and nothing else is.
pub proof fn law_callables(d: Def)
    ensures
        crate::model::callable(d) <==> d.kind != DefKind::Variable && d.kind != DefKind::Import,
{
}

} // verus!
