//! The side effects of a symbol, or of the whole project: what the code appears
//! to do, joined with what a run of the suite showed.
use crate::callgraph::{CallGraph, CallGraphTy, Closure, Direction, NodeView};
use crate::callgraph;
use crate::dynamic::Ledger;
use crate::json::{Json, JsonView};
use crate::json;
use crate::model::{is_callable, Def, Effect, EffectKind, FileIndex};
use crate::model;
use crate::names::{fqn_of, scope_fqn};
use crate::names;
use crate::output::{Envelope, EnvelopeView};
use crate::rows::{arrange, loc_str, Entry, EntryView};
use crate::rows;
use crate::sort;
use crate::table::Table;
use crate::table;
use crate::text::{cat, cat3, cat4, cat5, count_text, join_with, same};
use crate::text;
use vstd::prelude::*;

verus! {

/// The name of a category of effects.
pub open spec fn category(kind: EffectKind) -> Seq<char> {
    match kind {
        EffectKind::Fs => "fs"@,
        EffectKind::Network => "network"@,
        EffectKind::Subprocess => "subprocess"@,
        EffectKind::Env => "env"@,
        EffectKind::Db => "db"@,
        EffectKind::Random => "random"@,
        EffectKind::Clock => "clock"@,
        EffectKind::GlobalState => "global"@,
    }
}

/// The name of a category of effects.
pub fn effect_kind_str(kind: EffectKind) -> (r: &'static str)
    ensures
        r@ == category(kind),
{
    match kind {
        EffectKind::Fs => "fs",
        EffectKind::Network => "network",
        EffectKind::Subprocess => "subprocess",
        EffectKind::Env => "env",
        EffectKind::Db => "db",
        EffectKind::Random => "random",
        EffectKind::Clock => "clock",
        EffectKind::GlobalState => "global",
    }
}

/// Whether a run can show effects of a category at all.
pub open spec fn auditable(cat: Seq<char>) -> bool {
    cat == "fs"@ || cat == "network"@ || cat == "subprocess"@ || cat == "db"@
}

/// Whether a run can show effects of a category at all.
pub fn is_auditable(cat: &str) -> (r: bool)
    ensures
        r == auditable(cat@),
{
    same(cat, "fs") || same(cat, "network") || same(cat, "subprocess") || same(cat, "db")
}

/// A place in the code that appears to have an effect.
pub struct SiteView {
    pub loc: Seq<char>,
    pub path: Seq<char>,
    /// Who performs it.
    pub owner: Seq<char>,
    pub cat: Seq<char>,
    pub api: Seq<char>,
    pub import_time: bool,
}

/// A place in the code that appears to have an effect.
struct Site {
    loc: String,
    path: String,
    owner: String,
    cat: &'static str,
    api: String,
    import_time: bool,
}

impl View for Site {
    type V = SiteView;

    closed spec fn view(&self) -> SiteView {
        SiteView {
            loc: self.loc@,
            path: self.path@,
            owner: self.owner@,
            cat: self.cat@,
            api: self.api@,
            import_time: self.import_time,
        }
    }
}

/// Whether some definition is a callable among the names.
pub open spec fn defines(path: Seq<char>, defs: Seq<Def>, reach: Set<Seq<char>>) -> bool
    decreases defs.len(),
{
    defs.len() > 0 && ((model::callable(defs.last()) && reach.contains(
        names::def_fqn(path, defs.last()),
    )) || defines(path, defs.drop_last(), reach))
}

/// The place of an effect.
pub open spec fn site(path: Seq<char>, e: Effect) -> SiteView {
    SiteView {
        loc: rows::place(path, e.pos.line, e.pos.col),
        path,
        owner: names::fqn(path, text::views(e.scope@)),
        cat: category(e.kind),
        api: e.detail@,
        import_time: e.import_time,
    }
}

/// Whether an effect belongs to the names that are reached: it happens in one of
/// them, or when a file is imported that defines one of them. Without names
/// every effect does.
pub open spec fn concerns(f: FileIndex, e: Effect, reach: Option<Set<Seq<char>>>) -> bool {
    match reach {
        None => true,
        Some(names) => if e.import_time {
            defines(f.path@, f.defs@, names)
        } else {
            names.contains(names::fqn(f.path@, text::views(e.scope@)))
        },
    }
}

/// The places of the effects of a file.
pub open spec fn sites_in(
    f: FileIndex,
    effects: Seq<Effect>,
    reach: Option<Set<Seq<char>>>,
) -> Seq<SiteView>
    decreases effects.len(),
{
    if effects.len() == 0 {
        Seq::empty()
    } else if concerns(f, effects.last(), reach) {
        sites_in(f, effects.drop_last(), reach).push(site(f.path@, effects.last()))
    } else {
        sites_in(f, effects.drop_last(), reach)
    }
}

/// The places of effects.
pub open spec fn sites(files: Seq<FileIndex>, reach: Option<Set<Seq<char>>>) -> Seq<SiteView>
    decreases files.len(),
{
    if files.len() == 0 {
        Seq::empty()
    } else {
        sites(files.drop_last(), reach) + sites_in(files.last(), files.last().effects@, reach)
    }
}

/// Whether one of the places has a location and an api.
pub open spec fn site_at(s: Seq<SiteView>, k: (Seq<char>, Seq<char>)) -> bool
    decreases s.len(),
{
    s.len() > 0 && ((s.last().loc == k.0 && s.last().api == k.1) || site_at(s.drop_last(), k))
}

/// Whether one of the places has an owner and a category.
pub open spec fn predicts(s: Seq<SiteView>, k: (Seq<char>, Seq<char>)) -> bool
    decreases s.len(),
{
    s.len() > 0 && ((s.last().owner == k.0 && s.last().cat == k.1) || predicts(s.drop_last(), k))
}

/// The places, each location and api once.
pub open spec fn distinct(s: Seq<SiteView>) -> Seq<SiteView>
    decreases s.len(),
{
    if s.len() == 0 {
        Seq::empty()
    } else if site_at(s.drop_last(), (s.last().loc, s.last().api)) {
        distinct(s.drop_last())
    } else {
        distinct(s.drop_last()).push(s.last())
    }
}

/// How sure an effect that the code appears to have is.
pub open spec fn confidence(led: Ledger, owner: Seq<char>, cat: Seq<char>) -> Seq<char> {
    if led.available && led.effects.keys().contains((owner, cat)) {
        "confirmed"@
    } else if auditable(cat) {
        "predicted"@
    } else {
        "unverifiable"@
    }
}

/// The order of confidences: the certain first, then what only the run showed,
/// then what the code predicts, then what no run can show.
pub open spec fn rank_of(conf: Seq<char>) -> u8 {
    if conf == "confirmed"@ {
        0
    } else if conf == "observed"@ {
        1
    } else if conf == "predicted"@ {
        2
    } else {
        3
    }
}

/// Where an effect happens, for a label.
pub open spec fn whereabouts(s: SiteView) -> Seq<char> {
    if s.import_time {
        names::fqn(s.path, Seq::empty()) + " (import-time)"@
    } else {
        s.owner
    }
}

/// The row of an effect that the code appears to have.
pub open spec fn site_row(led: Ledger, s: SiteView) -> JsonView {
    let conf = confidence(led, s.owner, s.cat);
    JsonView::object().with("loc"@, JsonView::Str(s.loc)).with(
        "label"@,
        JsonView::Str(conf + " "@ + s.cat + " "@ + (s.api + "  in "@ + whereabouts(s))),
    ).with("confidence"@, JsonView::Str(conf)).with("effect"@, JsonView::Str(s.cat)).with(
        "api"@,
        JsonView::Str(s.api),
    ).with("owner"@, JsonView::Str(s.owner)).with("import_time"@, JsonView::Bool(s.import_time)).with(
        "group"@,
        JsonView::Str(conf),
    ).with(
        "cols"@,
        json::texts(
            seq![
                s.cat,
                s.api,
                s.owner,
                if s.import_time {
                    "import-time"@
                } else {
                    ""@
                },
            ],
        ),
    )
}

/// The row of an effect that the code appears to have, with its place in the
/// order.
pub open spec fn site_entry(led: Ledger, s: SiteView) -> EntryView {
    EntryView {
        rank: rank_of(confidence(led, s.owner, s.cat)),
        first: s.cat,
        second: s.loc,
        row: site_row(led, s),
    }
}

/// The rows of effects that the code appears to have.
pub open spec fn site_entries(led: Ledger, s: Seq<SiteView>) -> Seq<EntryView> {
    Seq::new(s.len(), |i: int| site_entry(led, s[i]))
}

/// The effects of a run that the code does not show, of the names that are
/// reached.
pub open spec fn surprises(
    keys: Seq<(Seq<char>, Seq<char>)>,
    known: Seq<SiteView>,
    reach: Option<Set<Seq<char>>>,
) -> Seq<(Seq<char>, Seq<char>)>
    decreases keys.len(),
{
    if keys.len() == 0 {
        Seq::empty()
    } else {
        let before = surprises(keys.drop_last(), known, reach);
        if !predicts(known, keys.last()) && match reach {
            None => true,
            Some(names) => names.contains(keys.last().0),
        } {
            before.push(keys.last())
        } else {
            before
        }
    }
}

/// The effects that only the run showed.
pub open spec fn observed_only(
    led: Ledger,
    known: Seq<SiteView>,
    reach: Option<Set<Seq<char>>>,
) -> Seq<(Seq<char>, Seq<char>)> {
    if led.available {
        surprises(led.effects.keys(), known, reach)
    } else {
        Seq::empty()
    }
}

/// The row of an effect that only the run showed.
pub open spec fn observed_row(k: (Seq<char>, Seq<char>)) -> JsonView {
    JsonView::object().with(
        "label"@,
        JsonView::Str("observed "@ + k.1 + "  in "@ + k.0 + " (static missed this edge)"@),
    ).with("confidence"@, JsonView::Str("observed"@)).with("effect"@, JsonView::Str(k.1)).with(
        "owner"@,
        JsonView::Str(k.0),
    ).with("import_time"@, JsonView::Bool(false)).with("group"@, JsonView::Str("observed"@)).with(
        "cols"@,
        json::texts(seq![k.1, ""@, k.0, ""@]),
    )
}

/// The row of an effect that only the run showed, with its place in the order.
pub open spec fn observed_entry(k: (Seq<char>, Seq<char>)) -> EntryView {
    EntryView { rank: 1, first: k.1, second: ""@, row: observed_row(k) }
}

/// The rows of effects that only the run showed.
pub open spec fn observed_entries(s: Seq<(Seq<char>, Seq<char>)>) -> Seq<EntryView> {
    Seq::new(s.len(), |i: int| observed_entry(s[i]))
}

/// How many effects have a confidence.
pub open spec fn how_many(led: Ledger, s: Seq<SiteView>, conf: Seq<char>) -> nat
    decreases s.len(),
{
    if s.len() == 0 {
        0
    } else {
        how_many(led, s.drop_last(), conf) + if confidence(led, s.last().owner, s.last().cat)
            == conf {
            1nat
        } else {
            0
        }
    }
}

/// The categories of effects.
pub open spec fn categories_of(
    s: Seq<SiteView>,
    extra: Seq<(Seq<char>, Seq<char>)>,
) -> Set<Seq<char>> {
    Set::new(|c: Seq<char>| site_cat(s, c) || pair_cat(extra, c))
}

/// Whether one of the places has a category.
pub open spec fn site_cat(s: Seq<SiteView>, c: Seq<char>) -> bool
    decreases s.len(),
{
    s.len() > 0 && (s.last().cat == c || site_cat(s.drop_last(), c))
}

/// Whether one of the pairs has a category.
pub open spec fn pair_cat(s: Seq<(Seq<char>, Seq<char>)>, c: Seq<char>) -> bool
    decreases s.len(),
{
    s.len() > 0 && (s.last().1 == c || pair_cat(s.drop_last(), c))
}

/// A count with what is counted, where there is any.
pub open spec fn tally(n: nat, what: Seq<char>) -> Seq<Seq<char>> {
    if n > 0 {
        seq![text::decimal(n) + " "@ + what]
    } else {
        Seq::empty()
    }
}

/// What was asked of: a symbol, whether it names anything, and all that it
/// reaches.
pub struct Asked {
    pub symbol: Seq<char>,
    pub named: bool,
    pub reach: Set<Seq<char>>,
}

/// The names that are reached, where a symbol was asked of.
pub open spec fn reach_of(asked: Option<Asked>) -> Option<Set<Seq<char>>> {
    match asked {
        Some(a) => Some(a.reach),
        None => None,
    }
}

/// What the report of effects says first.
pub open spec fn effects_summary(
    asked: Option<Asked>,
    led: Ledger,
    s: Seq<SiteView>,
    extra: Seq<(Seq<char>, Seq<char>)>,
) -> Seq<char> {
    if asked is Some && !asked->0.named {
        "no function or class named `"@ + asked->0.symbol + "` found"@
    } else if s.len() == 0 && extra.len() == 0 {
        match asked {
            Some(a) => "`"@ + a.symbol + "` is pure — no static effects across "@ + text::decimal(
                a.reach.len(),
            ) + (" reachable "@ + text::plural_of(a.reach.len(), "callable"@)),
            None => "no effects found"@,
        }
    } else {
        "effects"@ + (match asked {
            Some(a) => " of `"@ + a.symbol + "`"@,
            None => Seq::empty(),
        }) + ": "@ + text::join(
            tally(how_many(led, s, "confirmed"@), "confirmed"@) + tally(extra.len(), "observed"@)
                + tally(how_many(led, s, "predicted"@), "predicted"@) + tally(
                how_many(led, s, "unverifiable"@),
                "unverifiable"@,
            ),
            ", "@,
        )
    }
}

/// What the report of effects warns of.
pub open spec fn effects_warnings(asked: Option<Asked>, led: Ledger) -> Seq<Seq<char>> {
    if asked is Some && !asked->0.named {
        seq!["no function or class named `"@ + asked->0.symbol + "` found"@]
    } else {
        let footer =
            "static over-approximation: a `predicted` effect may be unexercised or behind dynamic dispatch; only `confirmed` is proven to run"@;
        if !led.available {
            text::views(led.warnings@).push(footer)
        } else if led.pytest_exit is Some && led.pytest_exit->0 != 0 && led.pytest_exit->0 != 5 {
            seq![
                "the test suite exited non-zero (code "@ + signed(led.pytest_exit->0)
                    + ") — the runtime ledger may be incomplete"@,
                footer,
            ]
        } else {
            seq![footer]
        }
    }
}

/// An integer in digits.
pub open spec fn signed(n: i32) -> Seq<char> {
    if n >= 0 {
        text::decimal(n as nat)
    } else {
        "-"@ + text::decimal((-n) as nat)
    }
}

/// What the report of effects was asked.
pub open spec fn effects_query(
    asked: Option<Asked>,
    s: Seq<SiteView>,
    extra: Seq<(Seq<char>, Seq<char>)>,
) -> JsonView {
    JsonView::object().with("kind"@, JsonView::Str("effects"@)).with(
        "target"@,
        json::text_or_null(
            match asked {
                Some(a) => Some(a.symbol),
                None => None,
            },
        ),
    ).with("categories"@, json::texts(table::in_turn(categories_of(s, extra))))
}

/// The report of effects.
pub open spec fn effects_report(
    files: Seq<FileIndex>,
    asked: Option<Asked>,
    led: Ledger,
) -> EnvelopeView {
    let all = sites(files, reach_of(asked));
    let s = distinct(all);
    let extra = observed_only(led, all, reach_of(asked));
    EnvelopeView::of(
        effects_query(asked, s, extra),
        rows::arranged(site_entries(led, s) + observed_entries(extra)),
    ).summarized(effects_summary(asked, led, s, extra)).warned(effects_warnings(asked, led))
}

/// The names of nodes.
pub open spec fn node_names(nodes: Seq<NodeView>) -> Seq<Seq<char>> {
    Seq::new(nodes.len(), |i: int| nodes[i].fqn)
}

/// All that a symbol stands for and reaches.
pub open spec fn reached(roots: Seq<Seq<char>>, nodes: Seq<NodeView>) -> Set<Seq<char>> {
    (roots + node_names(nodes)).to_set()
}

/// The names of a table.
pub open spec fn names_in(t: Table<String, ()>) -> Set<Seq<char>> {
    t.keys().to_set()
}

/// How many names a table has.
proof fn lemma_name_count(t: Table<String, ()>)
    requires
        table::ascending::<String>(t.keys()),
    ensures
        names_in(t).len() == t.keys().len(),
        names_in(t).finite(),
{
    table::lemma_ascending_distinct::<String>(t.keys());
    assert(t.keys().no_duplicates());
    t.keys().unique_seq_to_set();
}

/// All that a symbol stands for and reaches.
fn reach_table(c: &Closure) -> (r: Table<String, ()>)
    ensures
        names_in(r) == reached(text::views(c.roots@), sort::each(c.nodes@)),
{
    let mut out: Table<String, ()> = Table::new();
    let ghost roots = text::views(c.roots@);
    let ghost found = node_names(sort::each(c.nodes@));
    let mut i: usize = 0;
    while i < c.roots.len()
        invariant
            i <= c.roots@.len(),
            roots == text::views(c.roots@),
            forall|n: Seq<char>| #[trigger] out.keys().contains(n) <==> roots.take(i as int).contains(n),
        decreases c.roots@.len() - i,
    {
        out.insert(c.roots[i].clone(), ());
        proof {
            text::lemma_push_contains(roots.take(i as int), roots[i as int]);
            assert(roots.take(i + 1) =~= roots.take(i as int).push(roots[i as int]));
        }
        i = i + 1;
    }
    proof {
        text::lemma_take_all(roots);
    }
    let mut j: usize = 0;
    assert(found.take(0) =~= Seq::empty());
    while j < c.nodes.len()
        invariant
            j <= c.nodes@.len(),
            found == node_names(sort::each(c.nodes@)),
            forall|n: Seq<char>| #[trigger]
                out.keys().contains(n) <==> roots.contains(n) || found.take(j as int).contains(n),
        decreases c.nodes@.len() - j,
    {
        out.insert(c.nodes[j].fqn.clone(), ());
        proof {
            assert(found[j as int] == c.nodes@[j as int].fqn@);
            text::lemma_push_contains(found.take(j as int), found[j as int]);
            assert(found.take(j + 1) =~= found.take(j as int).push(found[j as int]));
        }
        j = j + 1;
    }
    proof {
        text::lemma_take_all(found);
        let want = reached(roots, sort::each(c.nodes@));
        assert forall|n: Seq<char>| names_in(out).contains(n) <==> want.contains(n) by {
            assert(out.keys().contains(n) <==> roots.contains(n) || found.contains(n));
            let both = roots + found;
            if roots.contains(n) {
                let k = choose|k: int| 0 <= k < roots.len() && roots[k] == n;
                assert(both[k] == n);
            }
            if found.contains(n) {
                let k = choose|k: int| 0 <= k < found.len() && found[k] == n;
                assert(both[roots.len() + k] == n);
            }
            if both.contains(n) {
                let k = choose|k: int| 0 <= k < both.len() && both[k] == n;
                if k < roots.len() {
                    assert(roots[k] == n);
                } else {
                    assert(found[k - roots.len()] == n);
                }
            }
        }
        assert(names_in(out) =~= want);
    }
    out
}

/// The names of a table, where there is one.
pub open spec fn names_if(t: Option<&Table<String, ()>>) -> Option<Set<Seq<char>>> {
    match t {
        Some(x) => Some(names_in(*x)),
        None => None,
    }
}

/// Whether some definition of a file is a callable among the names.
fn defines_any(f: &FileIndex, reach: &Table<String, ()>) -> (r: bool)
    ensures
        r == defines(f.path@, f.defs@, names_in(*reach)),
{
    let mut any = false;
    let mut i: usize = 0;
    while i < f.defs.len()
        invariant
            i <= f.defs@.len(),
            any == defines(f.path@, f.defs@.take(i as int), names_in(*reach)),
        decreases f.defs@.len() - i,
    {
        proof {
            text::lemma_take_step(f.defs@, i as int);
        }
        let d = &f.defs[i];
        if is_callable(d) {
            let name = fqn_of(f.path.as_str(), d);
            assert(names_in(*reach).contains(name@) <==> reach.keys().contains(name@));
            if reach.contains_key(&name) {
                any = true;
            }
        }
        i = i + 1;
    }
    proof {
        text::lemma_take_all(f.defs@);
    }
    any
}

/// The place of an effect.
fn site_of(path: &String, e: &Effect, owner: String) -> (r: Site)
    requires
        owner@ == names::fqn(path@, text::views(e.scope@)),
    ensures
        r@ == site(path@, *e),
{
    Site {
        loc: loc_str(path.as_str(), e.pos),
        path: path.clone(),
        owner,
        cat: effect_kind_str(e.kind),
        api: e.detail.clone(),
        import_time: e.import_time,
    }
}

/// Adds the places of the effects of a file.
fn enter_file(out: &mut Vec<Site>, f: &FileIndex, reach: Option<&Table<String, ()>>)
    ensures
        sort::each(final(out)@) == sort::each(old(out)@) + sites_in(*f, f.effects@, names_if(reach)),
{
    let ghost before = sort::each(out@);
    let ghost names = names_if(reach);
    let in_play = match reach {
        Some(t) => defines_any(f, t),
        None => true,
    };
    let mut i: usize = 0;
    assert(before =~= before + sites_in(*f, f.effects@.take(0), names));
    while i < f.effects.len()
        invariant
            i <= f.effects@.len(),
            names == names_if(reach),
            in_play == match reach {
                Some(t) => defines(f.path@, f.defs@, names_in(*t)),
                None => true,
            },
            sort::each(out@) == before + sites_in(*f, f.effects@.take(i as int), names),
        decreases f.effects@.len() - i,
    {
        proof {
            text::lemma_take_step(f.effects@, i as int);
        }
        let e = &f.effects[i];
        let owner = scope_fqn(f.path.as_str(), &e.scope);
        let keep = match reach {
            None => true,
            Some(t) => {
                assert(names_in(*t).contains(owner@) <==> t.keys().contains(owner@));
                if e.import_time {
                    in_play
                } else {
                    t.contains_key(&owner)
                }
            },
        };
        assert(keep == concerns(*f, *e, names));
        if keep {
            let ghost held = out@;
            let one = site_of(&f.path, e, owner);
            out.push(one);
            proof {
                sort::lemma_each_push(held, one);
                let s = sites_in(*f, f.effects@.take(i as int), names);
                assert((before + s).push(one@) =~= before + s.push(one@));
            }
        }
        i = i + 1;
    }
    proof {
        text::lemma_take_all(f.effects@);
    }
}

/// The places of effects.
fn collect(files: &Vec<FileIndex>, reach: Option<&Table<String, ()>>) -> (r: Vec<Site>)
    ensures
        sort::each(r@) == sites(files@, names_if(reach)),
{
    let mut out: Vec<Site> = Vec::new();
    let mut i: usize = 0;
    assert(sort::each(out@) =~= sites(files@.take(0), names_if(reach)));
    while i < files.len()
        invariant
            i <= files@.len(),
            sort::each(out@) == sites(files@.take(i as int), names_if(reach)),
        decreases files@.len() - i,
    {
        proof {
            text::lemma_take_step(files@, i as int);
        }
        enter_file(&mut out, &files[i], reach);
        i = i + 1;
    }
    proof {
        text::lemma_take_all(files@);
    }
    out
}

/// How sure an effect that the code appears to have is.
fn confidence_of(led: &Ledger, owner: &String, cat: &str) -> (r: &'static str)
    ensures
        r@ == confidence(*led, owner@, cat@),
{
    if led.available && led.effects.contains_key(&(owner.clone(), cat.to_owned())) {
        "confirmed"
    } else if is_auditable(cat) {
        "predicted"
    } else {
        "unverifiable"
    }
}

/// The order of confidences.
fn rank(conf: &str) -> (r: u8)
    ensures
        r == rank_of(conf@),
{
    if same(conf, "confirmed") {
        0
    } else if same(conf, "observed") {
        1
    } else if same(conf, "predicted") {
        2
    } else {
        3
    }
}

/// A list of four texts.
fn four_texts(a: &str, b: &str, c: &str, d: &str) -> (r: Json)
    ensures
        r@ == json::texts(seq![a@, b@, c@, d@]),
{
    let mut v: Vec<String> = Vec::new();
    v.push(a.to_owned());
    v.push(b.to_owned());
    v.push(c.to_owned());
    v.push(d.to_owned());
    assert(text::views(v@) =~= seq![a@, b@, c@, d@]);
    Json::texts(&v)
}

/// The row of an effect that the code appears to have.
fn entry_of(led: &Ledger, s: &Site) -> (r: Entry)
    ensures
        r@ == site_entry(*led, s@),
{
    let conf = confidence_of(led, &s.owner, s.cat);
    let within = if s.import_time {
        let none: Vec<String> = Vec::new();
        assert(text::views(none@) =~= Seq::empty());
        let module = scope_fqn(s.path.as_str(), &none);
        cat(module.as_str(), " (import-time)")
    } else {
        s.owner.clone()
    };
    let flag = if s.import_time {
        "import-time"
    } else {
        ""
    };
    let head = cat4(conf, " ", s.cat, " ");
    let tail = cat3(s.api.as_str(), "  in ", within.as_str());
    let label = cat(head.as_str(), tail.as_str());
    let row = Json::object().with("loc", Json::text(s.loc.as_str())).with(
        "label",
        Json::Str(label),
    ).with("confidence", Json::text(conf)).with("effect", Json::text(s.cat)).with(
        "api",
        Json::text(s.api.as_str()),
    ).with("owner", Json::text(s.owner.as_str())).with("import_time", Json::Bool(s.import_time)).with(
        "group",
        Json::text(conf),
    ).with("cols", four_texts(s.cat, s.api.as_str(), s.owner.as_str(), flag));
    Entry { rank: rank(conf), first: s.cat.to_owned(), second: s.loc.clone(), row }
}

/// The row of an effect that only the run showed.
fn observed_of(k: &(String, String)) -> (r: Entry)
    ensures
        r@ == observed_entry(k@),
{
    let label = cat5(
        "observed ",
        k.1.as_str(),
        "  in ",
        k.0.as_str(),
        " (static missed this edge)",
    );
    let row = Json::object().with("label", Json::Str(label)).with(
        "confidence",
        Json::text("observed"),
    ).with("effect", Json::text(k.1.as_str())).with("owner", Json::text(k.0.as_str())).with(
        "import_time",
        Json::Bool(false),
    ).with("group", Json::text("observed")).with(
        "cols",
        four_texts(k.1.as_str(), "", k.0.as_str(), ""),
    );
    Entry { rank: 1, first: k.1.clone(), second: "".to_owned(), row }
}

/// The rows of a report while it is put together.
struct Draft {
    entries: Vec<Entry>,
    categories: Table<String, ()>,
    confirmed: usize,
    observed: usize,
    predicted: usize,
    unverifiable: usize,
}

/// Whether a draft has the rows of the places and of the effects that only the
/// run showed.
spec fn drafted(
    d: Draft,
    led: Ledger,
    s: Seq<SiteView>,
    extra: Seq<(Seq<char>, Seq<char>)>,
) -> bool {
    &&& sort::each(d.entries@) == site_entries(led, s) + observed_entries(extra)
    &&& forall|c: Seq<char>| #[trigger]
        d.categories.keys().contains(c) <==> site_cat(s, c) || pair_cat(extra, c)
    &&& d.confirmed == how_many(led, s, "confirmed"@)
    &&& d.predicted == how_many(led, s, "predicted"@)
    &&& d.unverifiable == how_many(led, s, "unverifiable"@)
    &&& d.observed == extra.len()
    &&& d.confirmed + d.predicted + d.unverifiable == s.len()
}

/// Confidences are apart.
proof fn lemma_confidences()
    ensures
        "confirmed"@ != "predicted"@,
        "confirmed"@ != "unverifiable"@,
        "predicted"@ != "unverifiable"@,
{
    reveal_strlit("confirmed");
    reveal_strlit("predicted");
    reveal_strlit("unverifiable");
    assert("confirmed"@[0] != "predicted"@[0]);
    assert("confirmed"@[0] != "unverifiable"@[0]);
    assert("predicted"@[0] != "unverifiable"@[0]);
}

/// Drafts the rows of the places.
fn draft_sites(all: &Vec<Site>, led: &Ledger) -> (r: Draft)
    ensures
        drafted(r, *led, distinct(sort::each(all@)), Seq::empty()),
{
    let ghost views = sort::each(all@);
    let ghost none = Seq::<(Seq<char>, Seq<char>)>::empty();
    let mut d = Draft {
        entries: Vec::new(),
        categories: Table::new(),
        confirmed: 0,
        observed: 0,
        predicted: 0,
        unverifiable: 0,
    };
    let mut seen: Table<(String, String), ()> = Table::new();
    let mut i: usize = 0;
    proof {
        lemma_confidences();
        assert(sort::each(d.entries@) =~= site_entries(*led, Seq::empty()) + observed_entries(none));
        assert(views.take(0) =~= Seq::empty());
    }
    while i < all.len()
        invariant
            i <= all@.len(),
            views == sort::each(all@),
            none == Seq::<(Seq<char>, Seq<char>)>::empty(),
            drafted(d, *led, distinct(views.take(i as int)), none),
            distinct(views.take(i as int)).len() <= i,
            forall|k: (Seq<char>, Seq<char>)| #[trigger]
                seen.keys().contains(k) <==> site_at(views.take(i as int), k),
        decreases all@.len() - i,
    {
        let ghost s = distinct(views.take(i as int));
        let one = &all[i];
        proof {
            text::lemma_take_step(views, i as int);
            assert(views[i as int] == one@);
            lemma_confidences();
        }
        let key = (one.loc.clone(), one.api.clone());
        let ghost pair: (Seq<char>, Seq<char>) = key@;
        assert(seen.keys().contains(pair) <==> site_at(views.take(i as int), pair));
        if !seen.contains_key(&key) {
            seen.insert(key, ());
            d.categories.insert(one.cat.to_owned(), ());
            let conf = confidence_of(led, &one.owner, one.cat);
            if same(conf, "confirmed") {
                d.confirmed = d.confirmed + 1;
            } else if same(conf, "predicted") {
                d.predicted = d.predicted + 1;
            } else {
                d.unverifiable = d.unverifiable + 1;
            }
            let ghost held = d.entries@;
            let e = entry_of(led, one);
            d.entries.push(e);
            proof {
                sort::lemma_each_push(held, e);
                let s2 = s.push(one@);
                assert(distinct(views.take(i + 1)) == s2);
                assert(s2.drop_last() =~= s);
                assert(site_entries(*led, s2) + observed_entries(none) =~= (site_entries(*led, s)
                    + observed_entries(none)).push(e@));
                assert forall|c: Seq<char>| #[trigger]
                    d.categories.keys().contains(c) <==> site_cat(s2, c) || pair_cat(none, c) by {}
            }
        }
        i = i + 1;
    }
    proof {
        text::lemma_take_all(views);
    }
    d
}

/// Adds the rows of the effects that only the run showed.
fn draft_observed(
    d: &mut Draft,
    known: &Table<(String, String), ()>,
    led: &Ledger,
    reach: Option<&Table<String, ()>>,
    Ghost(all): Ghost<Seq<SiteView>>,
)
    requires
        drafted(*old(d), *led, distinct(all), Seq::empty()),
        forall|k: (Seq<char>, Seq<char>)| #[trigger] known.keys().contains(k) <==> predicts(all, k),
    ensures
        drafted(
            *final(d),
            *led,
            distinct(all),
            surprises(led.effects.keys(), all, names_if(reach)),
        ),
{
    let ghost s = distinct(all);
    let ghost names = names_if(reach);
    let ghost keys = led.effects.keys();
    let n = led.effects.len();
    let mut i: usize = 0;
    while i < n
        invariant
            i <= n,
            n == led.effects.keys().len(),
            keys == led.effects.keys(),
            s == distinct(all),
            names == names_if(reach),
            forall|k: (Seq<char>, Seq<char>)| #[trigger]
                known.keys().contains(k) <==> predicts(all, k),
            drafted(*d, *led, s, surprises(keys.take(i as int), all, names)),
            surprises(keys.take(i as int), all, names).len() <= i,
        decreases n - i,
    {
        proof {
            text::lemma_take_step(keys, i as int);
        }
        let k = led.effects.key(i);
        let ghost pair: (Seq<char>, Seq<char>) = k@;
        let ghost extra = surprises(keys.take(i as int), all, names);
        assert(pair == keys[i as int]);
        assert(known.keys().contains(pair) <==> predicts(all, pair));
        let in_reach = match reach {
            None => true,
            Some(t) => {
                assert(names_in(*t).contains(k.0@) <==> t.keys().contains(k.0@));
                t.contains_key(&k.0)
            },
        };
        if !known.contains_key(k) && in_reach {
            d.categories.insert(k.1.clone(), ());
            d.observed = d.observed + 1;
            let ghost held = d.entries@;
            let e = observed_of(k);
            d.entries.push(e);
            proof {
                sort::lemma_each_push(held, e);
                let extra2 = extra.push(pair);
                assert(surprises(keys.take(i + 1), all, names) == extra2);
                assert(extra2.drop_last() =~= extra);
                assert(site_entries(*led, s) + observed_entries(extra2) =~= (site_entries(*led, s)
                    + observed_entries(extra)).push(e@));
                assert forall|c: Seq<char>| #[trigger]
                    d.categories.keys().contains(c) <==> site_cat(s, c) || pair_cat(extra2, c) by {}
            }
        }
        i = i + 1;
    }
    proof {
        text::lemma_take_all(keys);
    }
}

/// What the code predicts: who performs an effect, and its category.
fn predicted(all: &Vec<Site>) -> (r: Table<(String, String), ()>)
    ensures
        forall|k: (Seq<char>, Seq<char>)| #[trigger]
            r.keys().contains(k) <==> predicts(sort::each(all@), k),
{
    let ghost views = sort::each(all@);
    let mut out: Table<(String, String), ()> = Table::new();
    let mut i: usize = 0;
    while i < all.len()
        invariant
            i <= all@.len(),
            views == sort::each(all@),
            forall|k: (Seq<char>, Seq<char>)| #[trigger]
                out.keys().contains(k) <==> predicts(views.take(i as int), k),
        decreases all@.len() - i,
    {
        proof {
            text::lemma_take_step(views, i as int);
            assert(views[i as int] == all@[i as int]@);
        }
        out.insert((all[i].owner.clone(), all[i].cat.to_owned()), ());
        i = i + 1;
    }
    proof {
        text::lemma_take_all(views);
    }
    out
}

/// The keys of a table of names.
fn key_list(t: &Table<String, ()>) -> (r: Vec<String>)
    ensures
        text::views(r@) == t.keys(),
        table::ascending::<String>(t.keys()),
{
    let n = t.len();
    let mut out: Vec<String> = Vec::new();
    let mut i: usize = 0;
    while i < n
        invariant
            i <= n,
            n == t.keys().len(),
            out@.len() == i,
            forall|k: int| 0 <= k < i ==> #[trigger] out@[k]@ == t.keys()[k],
        decreases n - i,
    {
        out.push(t.key(i).clone());
        i = i + 1;
    }
    assert(text::views(out@) =~= t.keys());
    out
}

/// A symbol that was asked of, with what it reaches.
pub struct Scope<'a> {
    pub symbol: &'a str,
    /// Whether it names anything.
    pub named: bool,
    /// What it stands for and reaches.
    pub reach: &'a Table<String, ()>,
}

/// What was asked of.
pub open spec fn asked_of(scope: Option<Scope>) -> Option<Asked> {
    match scope {
        Some(s) => Some(
            Asked { symbol: s.symbol@, named: s.named, reach: names_in(*s.reach) },
        ),
        None => None,
    }
}

/// Adds a count with what is counted, where there is any.
fn add_tally(parts: &mut Vec<String>, n: usize, what: &str)
    ensures
        text::views(final(parts)@) == text::views(old(parts)@) + tally(n as nat, what@),
{
    let ghost was = text::views(parts@);
    if n > 0 {
        let d = count_text(n);
        parts.push(cat3(d.as_str(), " ", what));
    }
    assert(text::views(parts@) =~= was + tally(n as nat, what@));
}

/// What the report of effects says first.
fn summary_of(scope: &Option<Scope>, d: &Draft, Ghost(led): Ghost<Ledger>, Ghost(s): Ghost<Seq<SiteView>>, Ghost(extra): Ghost<Seq<(Seq<char>, Seq<char>)>>) -> (r: String)
    requires
        drafted(*d, led, s, extra),
    ensures
        r@ == effects_summary(asked_of(*scope), led, s, extra),
{
    let named = match scope {
        Some(x) => x.named,
        None => true,
    };
    if !named {
        let symbol = match scope {
            Some(x) => x.symbol,
            None => "",
        };
        return cat3("no function or class named `", symbol, "` found");
    }
    assert(sort::each(d.entries@).len() == d.entries@.len());
    if d.entries.len() == 0 {
        assert(s.len() == 0 && extra.len() == 0);
        return match scope {
            Some(x) => {
                let n = x.reach.len();
                proof {
                    lemma_name_count(*x.reach);
                }
                let digits = count_text(n);
                let word = text::plural(n, "callable");
                let head = cat4(
                    "`",
                    x.symbol,
                    "` is pure — no static effects across ",
                    digits.as_str(),
                );
                let tail = cat(" reachable ", word.as_str());
                cat(head.as_str(), tail.as_str())
            },
            None => "no effects found".to_owned(),
        };
    }
    let mut parts: Vec<String> = Vec::new();
    add_tally(&mut parts, d.confirmed, "confirmed");
    add_tally(&mut parts, d.observed, "observed");
    add_tally(&mut parts, d.predicted, "predicted");
    add_tally(&mut parts, d.unverifiable, "unverifiable");
    proof {
        assert(text::views(parts@) =~= tally(how_many(led, s, "confirmed"@), "confirmed"@) + tally(
            extra.len(),
            "observed"@,
        ) + tally(how_many(led, s, "predicted"@), "predicted"@) + tally(
            how_many(led, s, "unverifiable"@),
            "unverifiable"@,
        ));
    }
    let list = join_with(&parts, ", ");
    let of = match scope {
        Some(x) => cat3(" of `", x.symbol, "`"),
        None => {
            let none = String::new();
            assert(none@ =~= Seq::empty());
            none
        },
    };
    cat4("effects", of.as_str(), ": ", list.as_str())
}

/// An integer in digits.
fn signed_text(n: i32) -> (r: String)
    ensures
        r@ == signed(n),
{
    if n >= 0 {
        text::decimal_of(n as u64)
    } else {
        let size: u64 = (-(n as i64)) as u64;
        let digits = text::decimal_of(size);
        cat("-", digits.as_str())
    }
}

/// What the report of effects warns of.
fn warnings_of(scope: &Option<Scope>, led: &Ledger) -> (r: Vec<String>)
    ensures
        text::views(r@) == effects_warnings(asked_of(*scope), *led),
{
    let mut out: Vec<String> = Vec::new();
    let named = match scope {
        Some(x) => x.named,
        None => true,
    };
    if !named {
        let symbol = match scope {
            Some(x) => x.symbol,
            None => "",
        };
        out.push(cat3("no function or class named `", symbol, "` found"));
        assert(text::views(out@) =~= effects_warnings(asked_of(*scope), *led));
        return out;
    }
    if !led.available {
        out = text::copy_strings(&led.warnings);
    } else {
        let code = match led.pytest_exit {
            Some(c) => c,
            None => 0,
        };
        if code != 0 && code != 5 {
            let digits = signed_text(code);
            out.push(
                cat3(
                    "the test suite exited non-zero (code ",
                    digits.as_str(),
                    ") — the runtime ledger may be incomplete",
                ),
            );
        }
    }
    let ghost before = text::views(out@);
    out.push(
        "static over-approximation: a `predicted` effect may be unexercised or behind dynamic dispatch; only `confirmed` is proven to run".to_owned(),
    );
    proof {
        assert(text::views(out@) =~= before.push(out@[out@.len() - 1]@));
        assert(text::views(out@) =~= effects_warnings(asked_of(*scope), *led));
    }
    out
}

/// The effects of all that a symbol reaches, or of the whole project.
pub fn effects_of(files: &Vec<FileIndex>, scope: Option<Scope>, led: &Ledger) -> (r: Envelope)
    ensures
        r@ == effects_report(files@, asked_of(scope), *led),
{
    let reach: Option<&Table<String, ()>> = match &scope {
        Some(x) => Some(x.reach),
        None => None,
    };
    let ghost names = reach_of(asked_of(scope));
    assert(names == names_if(reach));
    let all = collect(files, reach);
    let ghost views = sort::each(all@);
    let mut d = draft_sites(&all, led);
    let ghost s = distinct(views);
    let ghost extra = observed_only(*led, views, names);
    if led.available {
        let known = predicted(&all);
        draft_observed(&mut d, &known, led, reach, Ghost(views));
    }
    let summary = summary_of(&scope, &d, Ghost(*led), Ghost(s), Ghost(extra));
    let cats = key_list(&d.categories);
    proof {
        let keys = d.categories.keys();
        assert forall|c: Seq<char>| keys.to_set().contains(c) <==> categories_of(s, extra).contains(
            c,
        ) by {
            assert(keys.contains(c) <==> site_cat(s, c) || pair_cat(extra, c));
        }
        assert(keys.to_set() =~= categories_of(s, extra));
        table::lemma_in_turn(keys);
    }
    let target = match &scope {
        Some(x) => Some(x.symbol),
        None => None,
    };
    let query = Json::object().with("kind", Json::text("effects")).with(
        "target",
        Json::text_or_null(target),
    ).with("categories", Json::texts(&cats));
    let warnings = warnings_of(&scope, led);
    let results = arrange(d.entries);
    Envelope::new(query, results).with_summary(summary).with_warnings(warnings)
}

/// The effects of all that `symbol` reaches.
pub fn query_effects<T: CallGraphTy>(graph: &CallGraph<T>, symbol: &str, led: &Ledger) -> (r:
    Envelope)
    ensures
        exists|nodes: Seq<NodeView>| #[trigger]
            callgraph::is_closure(
                graph.files(),
                graph.answers(),
                Direction::Forward,
                symbol@,
                None,
                nodes,
            ) && r@ == effects_report(
                graph.files(),
                Some(
                    (Asked {
                        symbol: symbol@,
                        named: callgraph::roots_named(graph.files(), symbol@).len() > 0,
                        reach: reached(callgraph::roots_named(graph.files(), symbol@), nodes),
                    }),
                ),
                *led,
            ),
{
    let closure = graph.closure(symbol, Direction::Forward, None);
    let reach = reach_table(&closure);
    assert(text::views(closure.roots@).len() == closure.roots@.len());
    let scope = Scope { symbol, named: closure.roots.len() > 0, reach: &reach };
    effects_of(graph.index().0, Some(scope), led)
}

/// Where the suite did not run, nothing is confirmed, and nothing is said to be shown
/// by a run alone.
pub proof fn law_no_run_shows_nothing(
    led: Ledger,
    owner: Seq<char>,
    cat: Seq<char>,
    known: Seq<SiteView>,
    reach: Option<Set<Seq<char>>>,
)
    requires
        !led.available,
    ensures
        confidence(led, owner, cat) != "confirmed"@,
        observed_only(led, known, reach).len() == 0,
{
    reveal_strlit("confirmed");
    reveal_strlit("predicted");
    reveal_strlit("unverifiable");
    assert("confirmed"@[0] == 'c' && "predicted"@[0] == 'p' && "unverifiable"@[0] == 'u');
}

/// What only the run showed was shown by the run, and the code does not show it.
pub proof fn law_observed_only_is_new(
    keys: Seq<(Seq<char>, Seq<char>)>,
    known: Seq<SiteView>,
    reach: Option<Set<Seq<char>>>,
    i: int,
)
    requires
        0 <= i < surprises(keys, known, reach).len(),
    ensures
        keys.contains(surprises(keys, known, reach)[i]),
        !predicts(known, surprises(keys, known, reach)[i]),
        reach matches Some(names) ==> names.contains(surprises(keys, known, reach)[i].0),
    decreases keys.len(),
{
    let less = keys.drop_last();
    let before = surprises(less, known, reach);
    if i < before.len() {
        law_observed_only_is_new(less, known, reach, i);
        let j = choose|j: int| 0 <= j < less.len() && less[j] == before[i];
        assert(keys[j] == before[i]);
    } else {
        assert(keys[keys.len() - 1] == keys.last());
    }
}

/// Every effect that the code appears to have is confirmed, predicted or unverifiable.
pub proof fn law_confidences_add_up(led: Ledger, s: Seq<SiteView>)
    ensures
        how_many(led, s, "confirmed"@) + how_many(led, s, "predicted"@) + how_many(
            led,
            s,
            "unverifiable"@,
        ) == s.len(),
    decreases s.len(),
{
    reveal_strlit("confirmed");
    reveal_strlit("predicted");
    reveal_strlit("unverifiable");
    assert("confirmed"@[0] == 'c' && "predicted"@[0] == 'p' && "unverifiable"@[0] == 'u');
    if s.len() > 0 {
        law_confidences_add_up(led, s.drop_last());
    }
}

} // verus!
