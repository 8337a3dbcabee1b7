//! What to make of the answers of a type checker: which of its symbols a name
//! means, which of its places are reported, and how they are put together.
use crate::callgraph::{take_new, MemberCheck, Neighbor, Spot};
use crate::callgraph;
use crate::change_cov::below_dir;
use crate::change_cov;
use crate::extract::extract;
use crate::facts::DefView;
use crate::facts;
use crate::lines::Lines;
use crate::lines;
use crate::model::{FileIndex, Pos};
use crate::resolve::{Loc, LocView};
use crate::resolve;
use crate::sort::{reversed, sort, Ranked};
use crate::sort;
use crate::syntax;
use crate::table::Table;
use crate::text::{ends_with, same, split_on, text_before};
use crate::text;
use vstd::prelude::*;

verus! {

/// A symbol that the type checker knows.
#[derive(Debug)]
pub struct Symbol {
    pub file: String,
    pub name: String,
    /// The byte offset of the name.
    pub start: u32,
    /// The bytes that the whole definition takes, from the first to the one after
    /// the last.
    pub range: (u32, u32),
}

/// A symbol, with texts in place of strings.
pub struct SymbolView {
    pub file: Seq<char>,
    pub name: Seq<char>,
    pub start: u32,
    pub range: (u32, u32),
}

impl View for Symbol {
    type V = SymbolView;

    open spec fn view(&self) -> SymbolView {
        SymbolView { file: self.file@, name: self.name@, start: self.start, range: self.range }
    }
}

/// Whether a symbol of a name stands around a range in a file.
pub open spec fn holds(s: SymbolView, name: Seq<char>, file: Seq<char>, inner: (u32, u32)) -> bool {
    &&& s.name == name
    &&& s.file == file
    &&& s.range != inner
    &&& s.range.0 <= inner.0
    &&& inner.1 <= s.range.1
}

/// How many bytes a range takes.
pub open spec fn extent(range: (u32, u32)) -> int {
    range.1 - range.0
}

/// The range of the smallest symbol of a name around a range, the first of equals.
pub open spec fn tightest(
    symbols: Seq<SymbolView>,
    name: Seq<char>,
    file: Seq<char>,
    inner: (u32, u32),
) -> Option<(u32, u32)>
    decreases symbols.len(),
{
    if symbols.len() == 0 {
        None
    } else {
        let before = tightest(symbols.drop_last(), name, file, inner);
        let s = symbols.last();
        if !holds(s, name, file, inner) {
            before
        } else {
            match before {
                Some(r) => if extent(s.range) < extent(r) {
                    Some(s.range)
                } else {
                    before
                },
                None => Some(s.range),
            }
        }
    }
}

/// Whether a range stands in scopes of these names, outermost first: going outward,
/// the smallest symbol of the next name is around the one before. `found` has the
/// symbols to look among, for each name.
pub open spec fn enclosed(
    found: Seq<Seq<SymbolView>>,
    quals: Seq<Seq<char>>,
    file: Seq<char>,
    inner: (u32, u32),
) -> bool
    decreases quals.len(),
{
    if quals.len() == 0 {
        true
    } else {
        match tightest(found[quals.len() - 1], quals.last(), file, inner) {
            Some(outer) => enclosed(found, quals.drop_last(), file, outer),
            None => false,
        }
    }
}

/// The symbols that a name means, among those of its last part.
pub open spec fn meant(
    symbols: Seq<SymbolView>,
    found: Seq<Seq<SymbolView>>,
    leaf: Seq<char>,
    quals: Seq<Seq<char>>,
) -> Seq<Spot>
    decreases symbols.len(),
{
    if symbols.len() == 0 {
        Seq::empty()
    } else {
        let before = meant(symbols.drop_last(), found, leaf, quals);
        let s = symbols.last();
        if s.name == leaf && enclosed(found, quals, s.file, s.range) {
            before.push((s.file, s.start))
        } else {
            before
        }
    }
}

/// The symbols that a dotted name means. `found` has, for each part of the name,
/// the symbols that the type checker offers for it.
pub open spec fn exact(found: Seq<Seq<SymbolView>>, symbol: Seq<char>) -> Seq<Spot> {
    let parts = text::split(symbol, "."@);
    meant(found[parts.len() - 1], found, parts.last(), parts.drop_last())
}

/// What lists of symbols stand for.
pub open spec fn lists(s: Seq<Vec<Symbol>>) -> Seq<Seq<SymbolView>> {
    Seq::new(s.len(), |i: int| sort::each(s[i]@))
}

/// The range of the smallest symbol of a name around a range.
fn find_tightest(symbols: &Vec<Symbol>, name: &str, file: &str, inner: (u32, u32)) -> (r: Option<
    (u32, u32),
>)
    ensures
        r == tightest(sort::each(symbols@), name@, file@, inner),
{
    let ghost all = sort::each(symbols@);
    let mut best: Option<(u32, u32)> = None;
    let mut i: usize = 0;
    while i < symbols.len()
        invariant
            i <= symbols@.len(),
            all == sort::each(symbols@),
            best == tightest(all.take(i as int), name@, file@, inner),
        decreases symbols@.len() - i,
    {
        proof {
            text::lemma_take_step(all, i as int);
            assert(all[i as int] == symbols@[i as int]@);
        }
        let s = &symbols[i];
        let (a, b) = s.range;
        if same(s.name.as_str(), name) && same(s.file.as_str(), file) && !(a == inner.0 && b
            == inner.1) && a <= inner.0 && inner.1 <= b {
            let wider = match best {
                Some(r) => (b as i64 - a as i64) >= (r.1 as i64 - r.0 as i64),
                None => false,
            };
            if !wider {
                best = Some((a, b));
            }
        }
        i = i + 1;
    }
    proof {
        text::lemma_take_all(all);
    }
    best
}

/// Whether a range stands in scopes of these names, outermost first.
fn enclosed_by(found: &Vec<Vec<Symbol>>, quals: &Vec<String>, file: &str, target: (u32, u32)) -> (r:
    bool)
    requires
        quals@.len() <= found@.len(),
    ensures
        r == enclosed(lists(found@), text::views(quals@), file@, target),
{
    let ghost all = text::views(quals@);
    let mut inner = target;
    let mut n: usize = quals.len();
    proof {
        text::lemma_take_all(all);
    }
    while n > 0
        invariant
            n <= quals@.len() <= found@.len(),
            all == text::views(quals@),
            enclosed(lists(found@), all, file@, target) == enclosed(
                lists(found@),
                all.take(n as int),
                file@,
                inner,
            ),
        decreases n,
    {
        proof {
            text::lemma_take_step(all, n - 1);
            assert(lists(found@)[n - 1] == sort::each(found@[n - 1]@));
            assert(all[n - 1] == quals@[n - 1]@);
        }
        match find_tightest(&found[n - 1], quals[n - 1].as_str(), file, inner) {
            Some(outer) => {
                inner = outer;
            },
            None => {
                return false;
            },
        }
        n = n - 1;
    }
    true
}

/// The symbols that a dotted name means, by file and offset. `found` has, for each
/// part of the name, the symbols that the type checker offers for it; those of
/// another name do not count. Before the last part stand the scopes around it.
pub fn exact_symbols(found: &Vec<Vec<Symbol>>, symbol: &str) -> (r: Vec<(String, u32)>)
    requires
        found@.len() == text::split(symbol@, "."@).len(),
    ensures
        sort::each(r@) == exact(lists(found@), symbol@),
{
    let mut quals = split_on(symbol, ".");
    let ghost parts = text::split(symbol@, "."@);
    proof {
        text::lemma_split_nonempty(symbol@, "."@);
    }
    let last: usize = quals.len() - 1;
    assert(text::views(quals@)[last as int] == quals@[last as int]@);
    let leaf = match quals.pop() {
        Some(s) => s,
        None => String::new(),
    };
    assert(text::views(quals@) =~= parts.drop_last());
    let list = &found[last];
    let ghost all = sort::each(list@);
    let ghost offered = lists(found@);
    assert(offered[last as int] == all);
    let mut out: Vec<(String, u32)> = Vec::new();
    let mut i: usize = 0;
    assert(sort::each(out@) =~= meant(all.take(0), offered, leaf@, parts.drop_last()));
    while i < list.len()
        invariant
            i <= list@.len(),
            all == sort::each(list@),
            offered == lists(found@),
            text::views(quals@) == parts.drop_last(),
            quals@.len() <= found@.len(),
            sort::each(out@) == meant(all.take(i as int), offered, leaf@, parts.drop_last()),
        decreases list@.len() - i,
    {
        proof {
            text::lemma_take_step(all, i as int);
            assert(all[i as int] == list@[i as int]@);
        }
        let s = &list[i];
        if same(s.name.as_str(), leaf.as_str()) && enclosed_by(
            found,
            &quals,
            s.file.as_str(),
            s.range,
        ) {
            let ghost held = out@;
            let one = (s.file.clone(), s.start);
            out.push(one);
            proof {
                sort::lemma_each_push(held, one);
            }
        }
        i = i + 1;
    }
    proof {
        text::lemma_take_all(all);
    }
    out
}

/// The path under which a file is reported: relative to the root, and only where
/// the file is in scope. Without a scope every file is.
pub open spec fn reported(path: Seq<char>, scope: Set<Seq<char>>, root: Seq<char>) -> Option<
    Seq<char>,
> {
    if scope != Set::<Seq<char>>::empty() && !scope.contains(path) {
        None
    } else {
        match change_cov::below(path, root) {
            Some(rel) => Some(rel),
            None => Some(path),
        }
    }
}

/// The path under which a file is reported. `path`, the keys of `scope` and `root`
/// are absolute, without links and without `.` or `..`.
pub fn rel_path(path: &String, scope: &Table<String, ()>, root: &str) -> (r: Option<String>)
    ensures
        match r {
            Some(p) => reported(path@, scope.keys().to_set(), root@) == Some(p@),
            None => reported(path@, scope.keys().to_set(), root@) is None,
        },
{
    let ghost keys = scope.keys();
    let n = scope.len();
    proof {
        if n > 0 {
            assert(keys.contains(keys[0]));
            assert(keys.to_set().contains(keys[0]));
        } else {
            assert(keys.to_set() =~= Set::<Seq<char>>::empty());
        }
    }
    if n > 0 && !scope.contains_key(path) {
        assert(!keys.to_set().contains(path@));
        return None;
    }
    match below_dir(path.as_str(), root) {
        Some(rel) => Some(rel),
        None => Some(path.clone()),
    }
}

/// The line and column of a byte offset. An offset inside a character, or behind
/// the text, is in the first column.
pub open spec fn line_and_col(s: Seq<char>, byte: u32) -> Pos {
    let before = s.take(lines::index_at(s, byte as nat) as int);
    let at = lines::line_after(before);
    Pos {
        line: at.0 as usize,
        col: if syntax::byte_len(before) == byte {
            at.1 as usize
        } else {
            1
        },
    }
}

/// The line and column of a byte offset.
pub fn line_col(lines: &Lines, byte: u32) -> (r: Pos)
    requires
        lines.wf(),
    ensures
        r == line_and_col(lines.chars@, byte),
{
    let i = lines.index(byte);
    assert(lines.bytes@[i as int] == syntax::byte_len(lines.chars@.take(i as int)));
    assert(lines.spots@[i as int].line == lines::line_after(lines.chars@.take(i as int)).0);
    let p = lines.spots[i];
    if lines.bytes[i] == byte {
        p
    } else {
        Pos { line: p.line, col: 1 }
    }
}

/// A place, ordered by file, line and column.
#[derive(Debug)]
pub struct Placed {
    pub loc: Loc,
}

impl View for Placed {
    type V = LocView;

    open spec fn view(&self) -> LocView {
        self.loc@
    }
}

/// Whether a place comes before another: by file, line and column.
pub open spec fn comes_before(a: LocView, b: LocView) -> bool {
    text::text_lt(a.path, b.path) || (a.path == b.path && (a.line < b.line || (a.line == b.line
        && a.col < b.col)))
}

impl Ranked for Placed {
    open spec fn precedes(a: LocView, b: LocView) -> bool {
        comes_before(a, b)
    }

    fn is_before(&self, other: &Self) -> (r: bool) {
        let a = &self.loc;
        let b = &other.loc;
        text_before(a.path.as_str(), b.path.as_str()) || (same(a.path.as_str(), b.path.as_str())
            && (a.line < b.line || (a.line == b.line && a.col < b.col)))
    }

    proof fn precedes_is_an_order(a: LocView, b: LocView, c: LocView) {
        callgraph::lemma_text_weak(a.path, b.path, c.path);
        text::lemma_text_lt_irreflexive(a.path);
        text::lemma_text_lt_total(a.path, b.path);
        text::lemma_text_lt_total(b.path, c.path);
        text::lemma_text_lt_total(a.path, c.path);
        callgraph::lemma_text_weak(c.path, b.path, a.path);
        callgraph::lemma_text_weak(b.path, c.path, a.path);
        callgraph::lemma_text_weak(b.path, a.path, c.path);
    }
}

/// Whether two places are at the same file, line and column.
pub open spec fn same_place(a: LocView, b: LocView) -> bool {
    a.path == b.path && a.line == b.line && a.col == b.col
}

/// Places without those at the place of the one before them.
pub open spec fn once(s: Seq<LocView>) -> Seq<LocView>
    decreases s.len(),
{
    if s.len() == 0 {
        Seq::empty()
    } else {
        let before = once(s.drop_last());
        if before.len() > 0 && same_place(before.last(), s.last()) {
            before
        } else {
            before.push(s.last())
        }
    }
}

/// Places in the order of file, line and column, the first of each.
pub open spec fn tidied(s: Seq<LocView>) -> Seq<LocView> {
    once(sort::sorted::<Placed>(s))
}

/// Places in the order of file, line and column, the first of each.
pub fn dedupe(locs: Vec<Loc>) -> (r: Vec<Loc>)
    ensures
        sort::each(r@) == tidied(sort::each(locs@)),
{
    let ghost raw = locs@;
    let mut rest = reversed(locs);
    let mut list: Vec<Placed> = Vec::new();
    while rest.len() > 0
        invariant
            rest@.len() + list@.len() == raw.len(),
            forall|m: int| 0 <= m < rest@.len() ==> rest@[m] == raw[raw.len() - 1 - m],
            sort::each(list@) == sort::each(raw).take(list@.len() as int),
        decreases rest@.len(),
    {
        if let Some(loc) = rest.pop() {
            let ghost held = list@;
            let one = Placed { loc };
            assert(loc == raw[held.len() as int]);
            list.push(one);
            proof {
                sort::lemma_each_push(held, one);
                text::lemma_take_step(sort::each(raw), held.len() as int);
                assert(sort::each(list@) =~= sort::each(raw).take(list@.len() as int));
            }
        }
    }
    proof {
        text::lemma_take_all(sort::each(raw));
    }
    let ordered = sort(list);
    let ghost all = sort::each(ordered@);
    let ghost kept = ordered@;
    let mut rest = reversed(ordered);
    let mut out: Vec<Loc> = Vec::new();
    let ghost mut n: int = 0;
    assert(sort::each(out@) =~= once(all.take(0)));
    while rest.len() > 0
        invariant
            0 <= n <= all.len(),
            all == sort::each(kept),
            rest@.len() == all.len() - n,
            forall|m: int| 0 <= m < rest@.len() ==> rest@[m] == kept[kept.len() - 1 - m],
            sort::each(out@) == once(all.take(n)),
        decreases rest@.len(),
    {
        if let Some(p) = rest.pop() {
            let l = p.loc;
            proof {
                text::lemma_take_step(all, n);
                assert(all[n] == l@);
                assert(sort::each(out@).len() == out@.len());
            }
            let repeats = if out.len() > 0 {
                let a = &out[out.len() - 1];
                assert(sort::each(out@).last() == out@.last()@);
                same(a.path.as_str(), l.path.as_str()) && a.line == l.line && a.col == l.col
            } else {
                false
            };
            if !repeats {
                let ghost held = out@;
                out.push(l);
                proof {
                    sort::lemma_each_push(held, l);
                }
            }
            proof {
                n = n + 1;
            }
        }
    }
    proof {
        text::lemma_take_all(all);
    }
    out
}

/// Keeping the first of each place of a list in order puts every place strictly
/// before the next.
pub proof fn lemma_once(s: Seq<LocView>)
    requires
        sort::in_order::<Placed>(s),
    ensures
        s.len() > 0 ==> once(s).len() > 0 && same_place(once(s).last(), s.last()),
        forall|i: int, j: int|
            0 <= i < j < once(s).len() ==> comes_before(#[trigger] once(s)[i], #[trigger] once(s)[j]),
    decreases s.len(),
{
    if s.len() > 0 {
        let less = s.drop_last();
        assert(sort::in_order::<Placed>(less)) by {
            assert forall|i: int, j: int| 0 <= i < j < less.len() implies !Placed::precedes(
                #[trigger] less[j],
                #[trigger] less[i],
            ) by {
                assert(less[i] == s[i] && less[j] == s[j]);
            }
        }
        lemma_once(less);
        let before = once(less);
        let x = s.last();
        if before.len() > 0 && !same_place(before.last(), x) {
            let y = before.last();
            assert(less.len() > 0);
            assert(same_place(y, less.last()));
            assert(less.last() == s[s.len() - 2]);
            assert(!Placed::precedes(s[s.len() - 1], s[s.len() - 2]));
            assert(!comes_before(x, y));
            text::lemma_text_lt_total(x.path, y.path);
            assert(comes_before(y, x));
            assert forall|i: int, j: int| 0 <= i < j < once(s).len() implies comes_before(
                #[trigger] once(s)[i],
                #[trigger] once(s)[j],
            ) by {
                if j < before.len() {
                    assert(comes_before(before[i], before[j]));
                } else if i < before.len() - 1 {
                    assert(comes_before(before[i], y));
                    if text::text_lt(before[i].path, y.path) && text::text_lt(y.path, x.path) {
                        text::lemma_text_lt_transitive(before[i].path, y.path, x.path);
                    }
                }
            }
        }
    }
}

/// Among the places that are put together, none comes twice, and each comes before
/// the next.
pub proof fn law_places_in_turn(s: Seq<LocView>)
    ensures
        forall|i: int, j: int|
            0 <= i < j < tidied(s).len() ==> comes_before(
                #[trigger] tidied(s)[i],
                #[trigger] tidied(s)[j],
            ),
{
    sort::lemma_sorted::<Placed>(s);
    lemma_once(sort::sorted::<Placed>(s));
}

/// A place that means a definition.
pub open spec fn meaning(l: LocView, owner: Option<Seq<char>>) -> LocView {
    LocView { resolves_to: owner, ..l }
}

/// Places that mean a definition.
pub open spec fn all_meaning(s: Seq<LocView>, owner: Option<Seq<char>>) -> Seq<LocView> {
    Seq::new(s.len(), |i: int| meaning(s[i], owner))
}

/// What the uses of a definition are said to mean: the definition's place, where
/// several definitions have the name and this one is reported.
pub open spec fn owner_of(defs: Seq<Option<Loc>>, i: int) -> Option<Seq<char>> {
    match defs[i] {
        Some(d) => if defs.len() > 1 {
            Some(d@.key())
        } else {
            None
        },
        None => None,
    }
}

/// The uses of the first definitions, each with what it means.
pub open spec fn gathered(defs: Seq<Option<Loc>>, uses: Seq<Vec<Loc>>, n: int) -> Seq<LocView>
    decreases n,
{
    if n <= 0 {
        Seq::empty()
    } else {
        gathered(defs, uses, n - 1) + all_meaning(
            sort::each(uses[n - 1]@),
            owner_of(defs, n - 1),
        )
    }
}

/// The uses of a symbol, put together from those of each of its definitions. Where
/// there are several definitions, each use says which one it means.
pub fn attributed(defs: &Vec<Option<Loc>>, uses: &Vec<Vec<Loc>>) -> (r: Vec<Loc>)
    requires
        defs@.len() == uses@.len(),
    ensures
        sort::each(r@) == tidied(gathered(defs@, uses@, defs@.len() as int)),
{
    let mut out: Vec<Loc> = Vec::new();
    let mut i: usize = 0;
    assert(sort::each(out@) =~= Seq::empty());
    while i < uses.len()
        invariant
            i <= uses@.len(),
            defs@.len() == uses@.len(),
            sort::each(out@) == gathered(defs@, uses@, i as int),
        decreases uses@.len() - i,
    {
        let owner = match &defs[i] {
            Some(d) => if defs.len() > 1 {
                Some(d.key())
            } else {
                None
            },
            None => None,
        };
        let ghost mark = owner_of(defs@, i as int);
        assert(mark == resolve::text_if(owner));
        let list = &uses[i];
        let ghost before = sort::each(out@);
        let ghost all = all_meaning(sort::each(list@), mark);
        let mut j: usize = 0;
        assert(before + all.take(0) =~= before);
        while j < list.len()
            invariant
                j <= list@.len(),
                mark == resolve::text_if(owner),
                all == all_meaning(sort::each(list@), mark),
                sort::each(out@) == before + all.take(j as int),
            decreases list@.len() - j,
        {
            let ghost held = out@;
            let mut one = list[j].copy();
            one.resolves_to = match &owner {
                Some(k) => Some(k.clone()),
                None => None,
            };
            out.push(one);
            proof {
                sort::lemma_each_push(held, one);
                assert(one@ =~= all[j as int]);
                text::lemma_take_step(all, j as int);
                assert(all.take(j + 1) =~= all.take(j as int).push(all[j as int]));
                assert((before + all.take(j as int)).push(all[j as int]) =~= before + all.take(
                    j + 1,
                ));
            }
            j = j + 1;
        }
        proof {
            text::lemma_take_all(all);
        }
        i = i + 1;
    }
    dedupe(out)
}

/// The places that are reported.
pub open spec fn those_reported(s: Seq<Option<Loc>>) -> Seq<LocView>
    decreases s.len(),
{
    if s.len() == 0 {
        Seq::empty()
    } else {
        match s.last() {
            Some(l) => those_reported(s.drop_last()).push(l@),
            None => those_reported(s.drop_last()),
        }
    }
}

/// The definitions of a symbol that are reported.
pub fn definitions(defs: &Vec<Option<Loc>>) -> (r: Vec<Loc>)
    ensures
        sort::each(r@) == tidied(those_reported(defs@)),
{
    let mut out: Vec<Loc> = Vec::new();
    let mut i: usize = 0;
    assert(sort::each(out@) =~= those_reported(defs@.take(0)));
    while i < defs.len()
        invariant
            i <= defs@.len(),
            sort::each(out@) == those_reported(defs@.take(i as int)),
        decreases defs@.len() - i,
    {
        proof {
            text::lemma_take_step(defs@, i as int);
        }
        if let Some(l) = &defs[i] {
            let ghost held = out@;
            let one = l.copy();
            out.push(one);
            proof {
                sort::lemma_each_push(held, one);
            }
        }
        i = i + 1;
    }
    proof {
        text::lemma_take_all(defs@);
    }
    dedupe(out)
}

/// Callers without those at the spot of one before them.
pub fn each_caller_once(callers: Vec<Neighbor>) -> (r: Vec<Neighbor>)
    ensures
        sort::each(r@) == callgraph::taken(Seq::empty(), sort::each(callers@)),
{
    let mut out: Vec<Neighbor> = Vec::new();
    let mut seen: Table<(String, u32), ()> = Table::new();
    assert(sort::each(out@) =~= Seq::empty());
    take_new(&mut out, &mut seen, callers);
    out
}

/// Whether a name is bound outside every function and class.
pub open spec fn bound_on_top(defs: Seq<DefView>, name: Seq<char>) -> bool {
    exists|i: int| 0 <= i < defs.len() && (#[trigger] defs[i]).container.len() == 0 && defs[i].name
        == name
}

/// Whether a name is a member of a module with these definitions. One that
/// `__getattr__` may add is not known to be absent.
pub open spec fn membership(defs: Seq<DefView>, member: Seq<char>) -> MemberCheck {
    if bound_on_top(defs, member) {
        MemberCheck::Present
    } else if bound_on_top(defs, "__getattr__"@) {
        MemberCheck::Unknown
    } else {
        MemberCheck::Absent
    }
}

/// Whether a name is bound outside every function and class.
fn on_top(f: &FileIndex, name: &str) -> (r: bool)
    ensures
        r == bound_on_top(facts::facts_of(*f).defs, name@),
{
    let ghost all = sort::each(f.defs@);
    let mut i: usize = 0;
    while i < f.defs.len()
        invariant
            i <= f.defs@.len(),
            all == sort::each(f.defs@),
            forall|k: int|
                0 <= k < i ==> !((#[trigger] all[k]).container.len() == 0 && all[k].name == name@),
        decreases f.defs@.len() - i,
    {
        let d = &f.defs[i];
        assert(all[i as int] == d@);
        if d.container.len() == 0 && same(d.name.as_str(), name) {
            return true;
        }
        i = i + 1;
    }
    false
}

/// Whether a name is a member of the module that a file is.
pub fn member_of(f: &FileIndex, member: &str) -> (r: MemberCheck)
    ensures
        r == membership(facts::facts_of(*f).defs, member@),
{
    if on_top(f, member) {
        MemberCheck::Present
    } else if on_top(f, "__getattr__") {
        MemberCheck::Unknown
    } else {
        MemberCheck::Absent
    }
}

/// Whether a name is a member of what a binding leads to: the file at `path`, with
/// the range there and the source of the file. A module is a file of Python and has
/// the empty range at its start; what else a binding leads to is not looked into.
pub fn module_member(path: &str, range: (u32, u32), source: &str, member: &str) -> (r: MemberCheck)
    requires
        syntax::byte_len(source@) <= u32::MAX,
        source@.len() < usize::MAX,
    ensures
        r == if range == (0u32, 0u32) && (text::ends(path@, ".pyi"@) || text::ends(
            path@,
            ".py"@,
        )) {
            membership(
                facts::stmts_facts(
                    facts::top(source@),
                    syntax::parsed(source@, text::ends(path@, ".pyi"@)),
                ).defs,
                member@,
            )
        } else {
            MemberCheck::Unknown
        },
{
    if !(range.0 == 0 && range.1 == 0) {
        return MemberCheck::Unknown;
    }
    if !(ends_with(path, ".pyi") || ends_with(path, ".py")) {
        return MemberCheck::Unknown;
    }
    let f = extract(path, source);
    member_of(&f, member)
}

/// A qualifier only narrows what a name means: the symbols of a qualified name are
/// among those of its last part.
pub proof fn law_qualifier_narrows(
    symbols: Seq<SymbolView>,
    found: Seq<Seq<SymbolView>>,
    leaf: Seq<char>,
    quals: Seq<Seq<char>>,
    i: int,
)
    requires
        0 <= i < meant(symbols, found, leaf, quals).len(),
    ensures
        meant(symbols, found, leaf, Seq::empty()).contains(meant(symbols, found, leaf, quals)[i]),
    decreases symbols.len(),
{
    let less = symbols.drop_last();
    let narrow = meant(less, found, leaf, quals);
    let wide = meant(less, found, leaf, Seq::empty());
    let all = meant(symbols, found, leaf, Seq::empty());
    if i < narrow.len() {
        law_qualifier_narrows(less, found, leaf, quals, i);
        let j = choose|j: int| 0 <= j < wide.len() && wide[j] == narrow[i];
        assert(all[j] == wide[j]);
    } else {
        let s = symbols.last();
        assert(enclosed(found, Seq::empty(), s.file, s.range));
        assert(all[all.len() - 1] == (s.file, s.start));
    }
}

} // verus!
