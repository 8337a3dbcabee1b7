//! Reports on the structure of a project: classes and dead code.
use crate::callgraph::{CallGraph, CallGraphTy};
use crate::deadcode::{find, Dead, DeadCode, DeadView};
use crate::deadcode;
use crate::hierarchy::Hierarchy;
use crate::hierarchy;
use crate::json::{Json, JsonView};
use crate::json;
use crate::model::{is_callable, Def, FileIndex};
use crate::model;
use crate::names::fqn_of;
use crate::names;
use crate::output::{Envelope, EnvelopeView};
use crate::rows::{count_of, loc_str, one_text, place_text, Entry};
use crate::rows;
use crate::sort::sort_texts;
use crate::sort;
use crate::table::Table;
use crate::text::{cat, cat3, cat4, cat5, contains, copy_strings, count_text, ends_with, leaf_of, plural, same};
use crate::text;
use vstd::prelude::*;

verus! {

/// Where the last callable of a name among definitions stands.
pub open spec fn loc_in(path: Seq<char>, defs: Seq<Def>, name: Seq<char>) -> Option<Seq<char>>
    decreases defs.len(),
{
    if defs.len() == 0 {
        None
    } else if model::callable(defs.last()) && names::def_fqn(path, defs.last()) == name {
        Some(rows::place(path, defs.last().pos.line, defs.last().pos.col))
    } else {
        loc_in(path, defs.drop_last(), name)
    }
}

/// Where the last callable of a name stands.
pub open spec fn loc_named(files: Seq<FileIndex>, name: Seq<char>) -> Option<Seq<char>>
    decreases files.len(),
{
    if files.len() == 0 {
        None
    } else {
        match loc_in(files.last().path@, files.last().defs@, name) {
            Some(l) => Some(l),
            None => loc_named(files.drop_last(), name),
        }
    }
}

/// What a table has for a name.
pub open spec fn text_at(t: Table<String, String>, name: Seq<char>) -> Option<Seq<char>> {
    if t.map().contains_key(name) {
        Some(t.map()[name]@)
    } else {
        None
    }
}

/// Where the callables of all names stand.
fn locations(files: &Vec<FileIndex>) -> (r: Table<String, String>)
    ensures
        forall|n: Seq<char>| #[trigger] text_at(r, n) == loc_named(files@, n),
{
    let mut out: Table<String, String> = Table::new();
    let mut i: usize = 0;
    while i < files.len()
        invariant
            i <= files@.len(),
            forall|n: Seq<char>| #[trigger] text_at(out, n) == loc_named(files@.take(i as int), n),
        decreases files@.len() - i,
    {
        proof {
            text::lemma_take_step(files@, i as int);
        }
        let f = &files[i];
        let ghost was = out;
        let mut j: usize = 0;
        while j < f.defs.len()
            invariant
                j <= f.defs@.len(),
                forall|n: Seq<char>| #[trigger]
                    text_at(out, n) == match loc_in(f.path@, f.defs@.take(j as int), n) {
                        Some(l) => Some(l),
                        None => text_at(was, n),
                    },
            decreases f.defs@.len() - j,
        {
            proof {
                text::lemma_take_step(f.defs@, j as int);
            }
            let d = &f.defs[j];
            let ghost prev = out;
            if is_callable(d) {
                let name = fqn_of(f.path.as_str(), d);
                out.insert(name, loc_str(f.path.as_str(), d.pos));
            }
            proof {
                assert forall|n: Seq<char>| #[trigger]
                    text_at(out, n) == match loc_in(f.path@, f.defs@.take(j + 1), n) {
                        Some(l) => Some(l),
                        None => text_at(was, n),
                    } by {
                    assert(text_at(prev, n) == match loc_in(f.path@, f.defs@.take(j as int), n) {
                        Some(l) => Some(l),
                        None => text_at(was, n),
                    });
                }
            }
            j = j + 1;
        }
        proof {
            text::lemma_take_all(f.defs@);
            assert forall|n: Seq<char>| #[trigger] text_at(out, n) == loc_named(
                files@.take(i + 1),
                n,
            ) by {
                assert(text_at(was, n) == loc_named(files@.take(i as int), n));
            }
        }
        i = i + 1;
    }
    proof {
        text::lemma_take_all(files@);
    }
    out
}

/// Whether a symbol names a class: in full, by its last parts, or by its own
/// name.
pub open spec fn names_class(fqn: Seq<char>, symbol: Seq<char>) -> bool {
    fqn == symbol || text::ends(fqn, "."@ + symbol) || (!text::within(symbol, "."@)
        && text::leaf_name(fqn) == symbol)
}

/// Whether a symbol names a class.
pub fn fqn_names(fqn: &str, symbol: &str) -> (r: bool)
    ensures
        r == names_class(fqn@, symbol@),
{
    if same(fqn, symbol) {
        return true;
    }
    let tail = cat(".", symbol);
    if ends_with(fqn, tail.as_str()) {
        return true;
    }
    let leaf = leaf_of(fqn);
    !contains(symbol, ".") && same(leaf.as_str(), symbol)
}

/// How another class or method is tied to a class.
pub enum Tie {
    Super,
    External,
    Sub,
    /// The class overrides a method of the other.
    Overrides(Seq<char>),
    /// The other overrides a method of the class.
    OverriddenBy(Seq<char>),
}

/// The row of something tied to a class.
pub open spec fn tie_row(
    loc: Seq<char>,
    label: Seq<char>,
    relation: Seq<char>,
    fqn: Seq<char>,
    group: Seq<char>,
    shown: Seq<char>,
) -> JsonView {
    JsonView::object().with("loc"@, JsonView::Str(loc)).with("label"@, JsonView::Str(label)).with(
        "relation"@,
        JsonView::Str(relation),
    ).with("fqn"@, JsonView::Str(fqn)).with("group"@, JsonView::Str(group)).with(
        "cols"@,
        json::texts(seq![shown]),
    )
}

/// The row of something tied to a class.
fn tie_json(loc: &str, label: &str, relation: &str, fqn: &str, group: &str, shown: &str) -> (r: Json)
    ensures
        r@ == tie_row(loc@, label@, relation@, fqn@, group@, shown@),
{
    Json::object().with("loc", Json::text(loc)).with("label", Json::text(label)).with(
        "relation",
        Json::text(relation),
    ).with("fqn", Json::text(fqn)).with("group", Json::text(group)).with("cols", one_text(shown))
}

/// Where a name stands, or else another place.
pub open spec fn loc_or(files: Seq<FileIndex>, name: Seq<char>, other: Seq<char>) -> Seq<char> {
    match loc_named(files, name) {
        Some(l) => l,
        None => other,
    }
}

/// Where a class stands.
pub open spec fn class_loc(files: Seq<FileIndex>, root: Seq<char>) -> Seq<char> {
    loc_or(files, root, Seq::empty())
}

/// The row of `other`, tied to the class `root`.
pub open spec fn tied(
    files: Seq<FileIndex>,
    root: Seq<char>,
    tie: Tie,
    other: Seq<char>,
) -> JsonView {
    let here = class_loc(files, root);
    match tie {
        Tie::Super => tie_row(
            loc_or(files, other, here),
            "supertype "@ + other,
            "supertype"@,
            other,
            "supertypes"@,
            other,
        ),
        Tie::External => tie_row(
            here,
            "supertype "@ + other + " (external)"@,
            "supertype-external"@,
            other,
            "supertypes (external)"@,
            other,
        ),
        Tie::Sub => tie_row(
            loc_or(files, other, here),
            "subtype "@ + other,
            "subtype"@,
            other,
            "subtypes"@,
            other,
        ),
        Tie::Overrides(m) => {
            let mine = root + "."@ + m;
            let theirs = other + "."@ + m;
            tie_row(
                loc_or(files, mine, here),
                mine + " overrides "@ + theirs,
                "overrides"@,
                theirs,
                "overrides"@,
                mine + "  →  "@ + theirs,
            )
        },
        Tie::OverriddenBy(m) => {
            let mine = root + "."@ + m;
            let theirs = other + "."@ + m;
            tie_row(
                loc_or(files, theirs, here),
                theirs + " overrides "@ + mine,
                "overridden-by"@,
                theirs,
                "overridden by"@,
                theirs + "  →  "@ + mine,
            )
        },
    }
}

/// The rows of all that are tied to a class in one way.
pub open spec fn ties(
    files: Seq<FileIndex>,
    root: Seq<char>,
    tie: Tie,
    others: Seq<Seq<char>>,
) -> Seq<JsonView> {
    Seq::new(others.len(), |i: int| tied(files, root, tie, others[i]))
}

/// The rows of the methods of a class: what each overrides, and what overrides
/// it.
pub open spec fn method_ties(
    files: Seq<FileIndex>,
    h: Hierarchy,
    root: Seq<char>,
    methods: Seq<Seq<char>>,
) -> Seq<JsonView>
    decreases methods.len(),
{
    if methods.len() == 0 {
        Seq::empty()
    } else {
        let m = methods.last();
        method_ties(files, h, root, methods.drop_last()) + ties(
            files,
            root,
            Tie::Overrides(m),
            hierarchy::with_member(h.methods, h.supers_of(root), m),
        ) + ties(
            files,
            root,
            Tie::OverriddenBy(m),
            hierarchy::with_member(h.methods, h.subclasses_of(root), m),
        )
    }
}

/// The methods of a class, in order.
pub open spec fn ordered_methods(h: Hierarchy, root: Seq<char>) -> Seq<Seq<char>> {
    sort::sorted::<String>(text::views(h.methods.list(root)))
}

/// The rows of a class.
pub open spec fn class_ties(files: Seq<FileIndex>, h: Hierarchy, root: Seq<char>) -> Seq<JsonView> {
    ties(files, root, Tie::Super, h.supers_of(root)) + ties(
        files,
        root,
        Tie::External,
        text::views(h.external_bases.list(root)),
    ) + ties(files, root, Tie::Sub, h.subclasses_of(root)) + method_ties(
        files,
        h,
        root,
        ordered_methods(h, root),
    )
}

/// The rows of classes.
pub open spec fn all_ties(files: Seq<FileIndex>, h: Hierarchy, roots: Seq<Seq<char>>) -> Seq<
    JsonView,
>
    decreases roots.len(),
{
    if roots.len() == 0 {
        Seq::empty()
    } else {
        all_ties(files, h, roots.drop_last()) + class_ties(files, h, roots.last())
    }
}

/// The classes that a symbol names.
pub open spec fn classes_named(all: Seq<Seq<char>>, symbol: Seq<char>) -> Seq<Seq<char>>
    decreases all.len(),
{
    if all.len() == 0 {
        Seq::empty()
    } else if names_class(all.last(), symbol) {
        classes_named(all.drop_last(), symbol).push(all.last())
    } else {
        classes_named(all.drop_last(), symbol)
    }
}

/// The report on the classes that a symbol names.
pub open spec fn hierarchy_view(
    files: Seq<FileIndex>,
    h: Hierarchy,
    symbol: Seq<char>,
) -> EnvelopeView {
    let roots = classes_named(h.anchor.keys(), symbol);
    let results = all_ties(files, h, roots);
    let missing = "no class named `"@ + symbol + "` found"@;
    EnvelopeView::of(
        JsonView::object().with("kind"@, JsonView::Str("hierarchy"@)).with(
            "target"@,
            JsonView::Str(symbol),
        ).with("roots"@, json::texts(roots)),
        results,
    ).summarized(
        if roots.len() == 0 {
            missing
        } else {
            rows::counted(results.len(), "relation"@) + " for `"@ + symbol + "`"@
        },
    ).warned(
        if roots.len() == 0 {
            seq![missing]
        } else {
            Seq::empty()
        },
    )
}

/// How another class or method is tied to a class.
enum Bond<'a> {
    Super,
    External,
    Sub,
    Overrides(&'a str),
    OverriddenBy(&'a str),
}

/// How another class or method is tied to a class.
spec fn tie_of(b: Bond) -> Tie {
    match b {
        Bond::Super => Tie::Super,
        Bond::External => Tie::External,
        Bond::Sub => Tie::Sub,
        Bond::Overrides(m) => Tie::Overrides(m@),
        Bond::OverriddenBy(m) => Tie::OverriddenBy(m@),
    }
}

/// Where a name stands, or else another place.
fn place_or(
    locs: &Table<String, String>,
    name: &str,
    other: &str,
    Ghost(files): Ghost<Seq<FileIndex>>,
) -> (r: String)
    requires
        forall|n: Seq<char>| #[trigger] text_at(*locs, n) == loc_named(files, n),
    ensures
        r@ == loc_or(files, name@, other@),
{
    assert(text_at(*locs, name@) == loc_named(files, name@));
    match locs.get(&name.to_owned()) {
        Some(l) => l.clone(),
        None => other.to_owned(),
    }
}

/// The row of `other`, tied to the class `root` that stands at `here`.
fn bond_row(
    locs: &Table<String, String>,
    root: &str,
    here: &str,
    bond: &Bond,
    other: &str,
    Ghost(files): Ghost<Seq<FileIndex>>,
) -> (r: Json)
    requires
        forall|n: Seq<char>| #[trigger] text_at(*locs, n) == loc_named(files, n),
        here@ == class_loc(files, root@),
    ensures
        r@ == tied(files, root@, tie_of(*bond), other@),
{
    match bond {
        Bond::Super => {
            let loc = place_or(locs, other, here, Ghost(files));
            let label = cat("supertype ", other);
            tie_json(loc.as_str(), label.as_str(), "supertype", other, "supertypes", other)
        },
        Bond::External => {
            let label = cat3("supertype ", other, " (external)");
            tie_json(
                here,
                label.as_str(),
                "supertype-external",
                other,
                "supertypes (external)",
                other,
            )
        },
        Bond::Sub => {
            let loc = place_or(locs, other, here, Ghost(files));
            let label = cat("subtype ", other);
            tie_json(loc.as_str(), label.as_str(), "subtype", other, "subtypes", other)
        },
        Bond::Overrides(m) => {
            let mine = cat3(root, ".", m);
            let theirs = cat3(other, ".", m);
            let loc = place_or(locs, mine.as_str(), here, Ghost(files));
            let label = cat3(mine.as_str(), " overrides ", theirs.as_str());
            let shown = cat3(mine.as_str(), "  →  ", theirs.as_str());
            tie_json(
                loc.as_str(),
                label.as_str(),
                "overrides",
                theirs.as_str(),
                "overrides",
                shown.as_str(),
            )
        },
        Bond::OverriddenBy(m) => {
            let mine = cat3(root, ".", m);
            let theirs = cat3(other, ".", m);
            let loc = place_or(locs, theirs.as_str(), here, Ghost(files));
            let label = cat3(theirs.as_str(), " overrides ", mine.as_str());
            let shown = cat3(theirs.as_str(), "  →  ", mine.as_str());
            tie_json(
                loc.as_str(),
                label.as_str(),
                "overridden-by",
                theirs.as_str(),
                "overridden by",
                shown.as_str(),
            )
        },
    }
}

/// Adds the rows of all that are tied to a class in one way.
fn push_bonds(
    out: &mut Vec<Json>,
    locs: &Table<String, String>,
    root: &str,
    here: &str,
    bond: Bond,
    others: &Vec<String>,
    Ghost(files): Ghost<Seq<FileIndex>>,
)
    requires
        forall|n: Seq<char>| #[trigger] text_at(*locs, n) == loc_named(files, n),
        here@ == class_loc(files, root@),
    ensures
        json::item_views(final(out)@) == json::item_views(old(out)@) + ties(
            files,
            root@,
            tie_of(bond),
            text::views(others@),
        ),
{
    let ghost before = json::item_views(out@);
    let ghost all = ties(files, root@, tie_of(bond), text::views(others@));
    let mut i: usize = 0;
    assert(before + all.take(0) =~= before);
    while i < others.len()
        invariant
            i <= others@.len(),
            forall|n: Seq<char>| #[trigger] text_at(*locs, n) == loc_named(files, n),
            here@ == class_loc(files, root@),
            all == ties(files, root@, tie_of(bond), text::views(others@)),
            json::item_views(out@) == before + all.take(i as int),
        decreases others@.len() - i,
    {
        let ghost seen = json::item_views(out@);
        out.push(bond_row(locs, root, here, &bond, others[i].as_str(), Ghost(files)));
        proof {
            assert(text::views(others@)[i as int] == others@[i as int]@);
            assert(json::item_views(out@) =~= seen.push(all[i as int]));
            assert(all.take(i + 1) =~= all.take(i as int).push(all[i as int]));
            assert((before + all.take(i as int)).push(all[i as int]) =~= before + all.take(i + 1));
        }
        i = i + 1;
    }
    assert(all.take(all.len() as int) =~= all);
}

/// Adds the rows of the methods of a class.
fn push_methods(
    out: &mut Vec<Json>,
    locs: &Table<String, String>,
    h: &Hierarchy,
    root: &str,
    here: &str,
    names: &Vec<String>,
    Ghost(files): Ghost<Seq<FileIndex>>,
)
    requires
        forall|n: Seq<char>| #[trigger] text_at(*locs, n) == loc_named(files, n),
        here@ == class_loc(files, root@),
    ensures
        json::item_views(final(out)@) == json::item_views(old(out)@) + method_ties(
            files,
            *h,
            root@,
            text::views(names@),
        ),
{
    let ghost mid = json::item_views(out@);
    let ghost all = text::views(names@);
    let mut i: usize = 0;
    assert(mid + method_ties(files, *h, root@, all.take(0)) =~= mid);
    while i < names.len()
        invariant
            i <= names@.len(),
            text::views(names@) == all,
            forall|n: Seq<char>| #[trigger] text_at(*locs, n) == loc_named(files, n),
            here@ == class_loc(files, root@),
            json::item_views(out@) == mid + method_ties(files, *h, root@, all.take(i as int)),
        decreases names@.len() - i,
    {
        proof {
            text::lemma_take_step(all, i as int);
        }
        let ghost was = method_ties(files, *h, root@, all.take(i as int));
        let m = names[i].as_str();
        let bases = h.overrides(root, m);
        push_bonds(out, locs, root, here, Bond::Overrides(m), &bases, Ghost(files));
        let heirs = h.overridden_by(root, m);
        push_bonds(out, locs, root, here, Bond::OverriddenBy(m), &heirs, Ghost(files));
        proof {
            let a = ties(files, root@, Tie::Overrides(m@), text::views(bases@));
            let b = ties(files, root@, Tie::OverriddenBy(m@), text::views(heirs@));
            assert(mid + was + a + b =~= mid + (was + a + b));
            assert(method_ties(files, *h, root@, all.take(i + 1)) == was + a + b);
        }
        i = i + 1;
    }
    proof {
        text::lemma_take_all(all);
    }
}

/// The methods of a class, in order.
fn methods_for(h: &Hierarchy, root: &str) -> (r: Vec<String>)
    ensures
        text::views(r@) == ordered_methods(*h, root@),
{
    match h.methods(root) {
        Some(list) => sort_texts(copy_strings(list)),
        None => {
            let empty: Vec<String> = Vec::new();
            assert(text::views(empty@) =~= text::views(h.methods.list(root@)));
            sort_texts(empty)
        },
    }
}

/// Adds the rows of a class.
fn push_class(
    out: &mut Vec<Json>,
    locs: &Table<String, String>,
    h: &Hierarchy,
    root: &str,
    Ghost(files): Ghost<Seq<FileIndex>>,
)
    requires
        forall|n: Seq<char>| #[trigger] text_at(*locs, n) == loc_named(files, n),
    ensures
        json::item_views(final(out)@) == json::item_views(old(out)@) + class_ties(
            files,
            *h,
            root@,
        ),
{
    let ghost before = json::item_views(out@);
    let none = String::new();
    assert(none@ =~= Seq::empty());
    let spot = place_or(locs, root, none.as_str(), Ghost(files));
    let here = spot.as_str();
    let supers = h.supers(root);
    push_bonds(out, locs, root, here, Bond::Super, &supers, Ghost(files));
    let outside = h.external_bases(root);
    push_bonds(out, locs, root, here, Bond::External, &outside, Ghost(files));
    let subs = h.subclasses(root);
    push_bonds(out, locs, root, here, Bond::Sub, &subs, Ghost(files));
    let names = methods_for(h, root);
    push_methods(out, locs, h, root, here, &names, Ghost(files));
    proof {
        let a = ties(files, root@, Tie::Super, text::views(supers@));
        let b = ties(files, root@, Tie::External, text::views(outside@));
        let c = ties(files, root@, Tie::Sub, text::views(subs@));
        let d = method_ties(files, *h, root@, text::views(names@));
        assert(class_ties(files, *h, root@) == a + b + c + d);
        assert(before + a + b + c + d =~= before + (a + b + c + d));
    }
}

/// The classes that a symbol names.
fn classes_for(all: &Vec<String>, symbol: &str) -> (r: Vec<String>)
    ensures
        text::views(r@) == classes_named(text::views(all@), symbol@),
{
    let ghost names = text::views(all@);
    let mut out: Vec<String> = Vec::new();
    let mut i: usize = 0;
    assert(text::views(out@) =~= classes_named(names.take(0), symbol@));
    while i < all.len()
        invariant
            i <= all@.len(),
            names == text::views(all@),
            text::views(out@) == classes_named(names.take(i as int), symbol@),
        decreases all@.len() - i,
    {
        proof {
            text::lemma_take_step(names, i as int);
        }
        if fqn_names(all[i].as_str(), symbol) {
            let ghost seen = text::views(out@);
            out.push(all[i].clone());
            assert(text::views(out@) =~= seen.push(names[i as int]));
        }
        i = i + 1;
    }
    proof {
        text::lemma_take_all(names);
    }
    out
}

/// The report on the classes that a symbol names.
pub fn hierarchy_report(files: &Vec<FileIndex>, h: &Hierarchy, symbol: &str) -> (r: Envelope)
    ensures
        r@ == hierarchy_view(files@, *h, symbol@),
{
    let locs = locations(files);
    let all = h.class_fqns();
    let roots = classes_for(&all, symbol);
    let ghost names = text::views(roots@);
    assert(names.len() == roots@.len());
    let mut results: Vec<Json> = Vec::new();
    let mut i: usize = 0;
    assert(json::item_views(results@) =~= all_ties(files@, *h, names.take(0)));
    while i < roots.len()
        invariant
            i <= roots@.len(),
            names == text::views(roots@),
            forall|n: Seq<char>| #[trigger] text_at(locs, n) == loc_named(files@, n),
            json::item_views(results@) == all_ties(files@, *h, names.take(i as int)),
        decreases roots@.len() - i,
    {
        proof {
            text::lemma_take_step(names, i as int);
        }
        push_class(&mut results, &locs, h, roots[i].as_str(), Ghost(files@));
        i = i + 1;
    }
    proof {
        text::lemma_take_all(names);
    }
    assert(json::item_views(results@).len() == results@.len());
    let mut warnings: Vec<String> = Vec::new();
    let summary = if roots.len() == 0 {
        let missing = cat3("no class named `", symbol, "` found");
        warnings.push(missing.clone());
        missing
    } else {
        let n = count_of(results.len(), "relation");
        cat4(n.as_str(), " for `", symbol, "`")
    };
    assert(text::views(warnings@) =~= hierarchy_view(files@, *h, symbol@).warnings);
    let query = Json::object().with("kind", Json::text("hierarchy")).with(
        "target",
        Json::text(symbol),
    ).with("roots", Json::texts(&roots));
    Envelope::new(query, results).with_summary(summary).with_warnings(warnings)
}

/// The bases, subclasses and overrides of the classes that `symbol` names.
pub fn query_hierarchy<T: CallGraphTy>(graph: &CallGraph<T>, symbol: &str) -> (r: Envelope)
    ensures
        exists|h: Hierarchy| #[trigger]
            h.describes(graph.files(), graph.answers()) && r@ == hierarchy_view(
                graph.files(),
                h,
                symbol@,
            ),
{
    let files = graph.index().0;
    let h = Hierarchy::build(files, graph);
    hierarchy_report(files, &h, symbol)
}

/// The row of a callable that nothing reaches.
pub open spec fn dead_row(d: DeadView) -> JsonView {
    JsonView::object().with("loc"@, JsonView::Str(rows::place(d.path, d.line, d.col))).with(
        "label"@,
        JsonView::Str(d.kind + " "@ + d.fqn),
    ).with("fqn"@, JsonView::Str(d.fqn)).with("node_kind"@, JsonView::Str(d.kind)).with(
        "group"@,
        JsonView::Str(d.kind),
    ).with("cols"@, json::texts(seq![d.fqn]))
}

/// The rows of callables that nothing reaches.
pub open spec fn dead_rows(s: Seq<DeadView>) -> Seq<JsonView> {
    Seq::new(s.len(), |i: int| dead_row(s[i]))
}

/// The report of callables that nothing reaches.
pub open spec fn deadcode_view(dead: Seq<DeadView>, total: nat) -> EnvelopeView {
    EnvelopeView::of(
        JsonView::object().with("kind"@, JsonView::Str("deadcode"@)).with("target"@, JsonView::Null),
        dead_rows(dead),
    ).summarized(
        text::decimal(dead.len()) + " dead-code "@ + text::plural_of(dead.len(), "candidate"@)
            + " of "@ + rows::counted(total, "callable"@),
    ).warned(
        seq![
            "over-approximate — verify before deleting. A candidate is reported when no static call path reaches it from an entrypoint; it is NOT dead if it's reached dynamically: a dotted-string path in config (Django `EXCEPTION_HANDLER`/`MIDDLEWARE`, Celery task names), a callable passed as a value (`side_effect=`, callbacks, registries), getattr/reflection, or a plugin/entry-point system pyq doesn't read."@,
        ],
    )
}

/// The report of callables that nothing reaches.
pub fn deadcode_report(found: &DeadCode) -> (r: Envelope)
    ensures
        r@ == deadcode_view(sort::each(found.dead@), found.total as nat),
{
    let ghost all = dead_rows(sort::each(found.dead@));
    let mut results: Vec<Json> = Vec::new();
    let mut i: usize = 0;
    while i < found.dead.len()
        invariant
            i <= found.dead@.len(),
            all == dead_rows(sort::each(found.dead@)),
            json::item_views(results@) == all.take(i as int),
        decreases found.dead@.len() - i,
    {
        let d = &found.dead[i];
        let label = cat3(d.kind, " ", d.fqn.as_str());
        let ghost seen = results@;
        let row = Json::object().with(
            "loc",
            Json::Str(place_text(d.path.as_str(), d.line, d.col)),
        ).with("label", Json::Str(label)).with("fqn", Json::text(d.fqn.as_str())).with(
            "node_kind",
            Json::text(d.kind),
        ).with("group", Json::text(d.kind)).with("cols", one_text(d.fqn.as_str()));
        results.push(row);
        proof {
            assert(sort::each(found.dead@)[i as int] == found.dead@[i as int]@);
            assert(json::item_views(results@) =~= json::item_views(seen).push(all[i as int]));
            assert(all.take(i + 1) =~= all.take(i as int).push(all[i as int]));
        }
        i = i + 1;
    }
    assert(all.take(all.len() as int) =~= all);
    assert(sort::each(found.dead@).len() == found.dead@.len());
    let n = count_text(found.dead.len());
    let word = plural(found.dead.len(), "candidate");
    let total = count_of(found.total, "callable");
    let summary = cat5(n.as_str(), " dead-code ", word.as_str(), " of ", total.as_str());
    let mut warnings: Vec<String> = Vec::new();
    warnings.push(
        "over-approximate — verify before deleting. A candidate is reported when no static call path reaches it from an entrypoint; it is NOT dead if it's reached dynamically: a dotted-string path in config (Django `EXCEPTION_HANDLER`/`MIDDLEWARE`, Celery task names), a callable passed as a value (`side_effect=`, callbacks, registries), getattr/reflection, or a plugin/entry-point system pyq doesn't read.".to_owned(),
    );
    proof {
        assert(text::views(warnings@) =~= deadcode_view(
            sort::each(found.dead@),
            found.total as nat,
        ).warnings);
    }
    let query = Json::object().with("kind", Json::text("deadcode")).with("target", Json::Null);
    Envelope::new(query, results).with_summary(summary).with_warnings(warnings)
}

/// The callables that no entrypoint reaches. `console` are the targets of the
/// console scripts.
pub fn query_deadcode<T: CallGraphTy>(graph: &CallGraph<T>, console: &Vec<String>) -> (r: Envelope)
    requires
        deadcode::def_count(graph.files()) <= usize::MAX,
    ensures
        exists|live: Set<Seq<char>>| #[trigger]
            deadcode::live_names(
                (deadcode::Entry {
                    files: graph.files(),
                    answers: graph.answers(),
                    console: text::views(console@),
                }),
                live,
            ) && ({
                let dead = deadcode::not_live(deadcode::callables(graph.files()), live);
                r@ == deadcode_view(
                    sort::sorted::<Dead>(deadcode::standing(dead, dead)),
                    deadcode::callables(graph.files()).len(),
                )
            }),
{
    let files = graph.index().0;
    let found = find(files, graph, console);
    deadcode_report(&found)
}

} // verus!
