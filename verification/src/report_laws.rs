//! What holds of the rows that reports have, and of what they say of themselves.
use crate::channel::{Build, ReleaseChannel};
use crate::cli;
use crate::deadcode::{DeadView, DispatchKind};
use crate::dynamic;
use crate::import_report::Shown;
use crate::import_report;
use crate::imports::{EdgeView, Graph};
use crate::imports;
use crate::json::JsonView;
use crate::json;
use crate::lookup;
use crate::model::{Def, FileIndex};
use crate::resolve::{Loc, LocView};
use crate::rows;
use crate::structure_reports;
use crate::symbol_reports;
use crate::text;
use crate::upgrade::StandingView;
use crate::upgrade;
use vstd::prelude::*;

verus! {

/// Every dead callable has its row: its place, its name and its kind. There are no others.
pub proof fn law_dead_has_its_row(dead: Seq<DeadView>, total: nat, i: int)
    requires
        0 <= i < dead.len(),
    ensures
        structure_reports::deadcode_view(dead, total).results.len() == dead.len(),
        ({
            let row = structure_reports::deadcode_view(dead, total).results[i];
            let d = dead[i];
            &&& row.get_text("loc"@) == Some(
                d.path + ":"@ + text::decimal(d.line as nat) + ":"@ + text::decimal(d.col as nat),
            )
            &&& row.get_text("fqn"@) == Some(d.fqn)
            &&& row.get_text("node_kind"@) == Some(d.kind)
            &&& row.get_text("group"@) == Some(d.kind)
        }),
{
    reveal_strlit("loc");
    reveal_strlit("label");
    reveal_strlit("fqn");
    reveal_strlit("node_kind");
    reveal_strlit("group");
    reveal_strlit("cols");
    assert("loc"@.len() == 3 && "label"@.len() == 5 && "fqn"@.len() == 3 && "node_kind"@.len() == 9
        && "group"@.len() == 5 && "cols"@.len() == 4);
    assert("loc"@[0] == 'l' && "fqn"@[0] == 'f' && "label"@[0] == 'l' && "group"@[0] == 'g');
    let d = dead[i];
    let r0 = JsonView::object();
    let place = JsonView::Str(rows::place(d.path, d.line, d.col));
    let r1 = r0.with("loc"@, place);
    json::lemma_with(r0, "loc"@, place);
    let label = JsonView::Str(d.kind + " "@ + d.fqn);
    let r2 = r1.with("label"@, label);
    json::lemma_with(r1, "label"@, label);
    let r3 = r2.with("fqn"@, JsonView::Str(d.fqn));
    json::lemma_with(r2, "fqn"@, JsonView::Str(d.fqn));
    let r4 = r3.with("node_kind"@, JsonView::Str(d.kind));
    json::lemma_with(r3, "node_kind"@, JsonView::Str(d.kind));
    let r5 = r4.with("group"@, JsonView::Str(d.kind));
    json::lemma_with(r4, "group"@, JsonView::Str(d.kind));
    json::lemma_with(r5, "cols"@, json::texts(seq![d.fqn]));
}

/// What a row says of a place: where it is, what it is, and what it means where that is known.
pub open spec fn says(row: JsonView, l: LocView) -> bool {
    &&& row.get_text("loc"@) == Some(
        l.path + ":"@ + text::decimal(l.line as nat) + ":"@ + text::decimal(l.col as nat),
    )
    &&& row.get_text("role"@) == Some(l.role)
    &&& row.get_text("group"@) == Some(l.kind)
    &&& row.get_text("label"@) == Some(l.kind)
    &&& row.get_text("resolves_to"@) == l.resolves_to
}

proof fn lemma_loc_row(l: LocView)
    ensures
        says(symbol_reports::loc_row(l), l),
{
    reveal_strlit("loc");
    reveal_strlit("label");
    reveal_strlit("role");
    reveal_strlit("group");
    reveal_strlit("cols");
    reveal_strlit("resolves_to");
    assert("loc"@.len() == 3 && "label"@.len() == 5 && "role"@.len() == 4 && "group"@.len() == 5
        && "cols"@.len() == 4 && "resolves_to"@.len() == 11);
    assert("role"@[0] == 'r' && "cols"@[0] == 'c' && "label"@[0] == 'l' && "group"@[0] == 'g');
    let r0 = JsonView::object();
    let r1 = r0.with("loc"@, JsonView::Str(l.key()));
    json::lemma_with(r0, "loc"@, JsonView::Str(l.key()));
    let r2 = r1.with("label"@, JsonView::Str(l.kind));
    json::lemma_with(r1, "label"@, JsonView::Str(l.kind));
    let r3 = r2.with("role"@, JsonView::Str(l.role));
    json::lemma_with(r2, "role"@, JsonView::Str(l.role));
    let r4 = r3.with("group"@, JsonView::Str(l.kind));
    json::lemma_with(r3, "group"@, JsonView::Str(l.kind));
    let cols = json::texts(
        match l.resolves_to {
            Some(t) => seq!["→ "@ + t],
            None => Seq::empty(),
        },
    );
    let r5 = r4.with("cols"@, cols);
    json::lemma_with(r4, "cols"@, cols);
    assert(r0.get("resolves_to"@) is None);
    if let Some(t) = l.resolves_to {
        json::lemma_with(r5, "resolves_to"@, JsonView::Str(t));
    }
}

/// Every place of a symbol has its row, in order. There are no others.
pub proof fn law_place_has_its_row(symbol: Seq<char>, kind: Seq<char>, locs: Seq<LocView>, i: int)
    requires
        0 <= i < locs.len(),
    ensures
        symbol_reports::places_view(symbol, kind, locs).results.len() == locs.len(),
        says(symbol_reports::places_view(symbol, kind, locs).results[i], locs[i]),
{
    lemma_loc_row(locs[i]);
}

/// Every caller has its row. The callers are said to be all that there are just where
/// nothing may call the symbol unseen; where something may, there is a warning.
pub proof fn law_callers_are_told(
    symbol: Seq<char>,
    locs: Seq<LocView>,
    caveat: Option<(Seq<char>, DispatchKind)>,
    i: int,
)
    ensures
        symbol_reports::callers_view(symbol, locs, caveat).results.len() == locs.len(),
        0 <= i < locs.len() ==> says(
            symbol_reports::callers_view(symbol, locs, caveat).results[i],
            locs[i],
        ),
        symbol_reports::callers_view(symbol, locs, caveat).query.get("exhaustive"@) == Some(
            JsonView::Bool(caveat is None),
        ),
        symbol_reports::callers_view(symbol, locs, caveat).query.get_text("caveat"@) is Some
            <==> caveat is Some,
        symbol_reports::callers_view(symbol, locs, caveat).warnings.len() == 0 <==> caveat is None,
{
    if 0 <= i < locs.len() {
        lemma_loc_row(locs[i]);
    }
    reveal_strlit("kind");
    reveal_strlit("target");
    reveal_strlit("exhaustive");
    reveal_strlit("caveat");
    assert("kind"@.len() == 4 && "target"@.len() == 6 && "exhaustive"@.len() == 10
        && "caveat"@.len() == 6);
    assert("target"@[0] == 't' && "caveat"@[0] == 'c');
    let q0 = JsonView::object();
    let q1 = q0.with("kind"@, JsonView::Str("callers"@));
    json::lemma_with(q0, "kind"@, JsonView::Str("callers"@));
    let q2 = q1.with("target"@, JsonView::Str(symbol));
    json::lemma_with(q1, "target"@, JsonView::Str(symbol));
    let q3 = q2.with("exhaustive"@, JsonView::Bool(caveat is None));
    json::lemma_with(q2, "exhaustive"@, JsonView::Bool(caveat is None));
    json::lemma_with(q3, "caveat"@, crate::graph_reports::caveat_mark(caveat));
}

proof fn lemma_edge_entries(shown: Shown, edges: Seq<EdgeView>, k: int) -> (m: int)
    requires
        0 <= k < edges.len(),
        import_report::shows(shown, edges[k]),
    ensures
        0 <= m < import_report::edge_entries(shown, edges).len(),
        import_report::edge_entries(shown, edges)[m] == import_report::edge_entry(shown, edges[k]),
    decreases edges.len(),
{
    let less = edges.drop_last();
    if k < less.len() {
        assert(less[k] == edges[k]);
        lemma_edge_entries(shown, less, k)
    } else {
        import_report::edge_entries(shown, less).len() as int
    }
}

/// Whether rows have one at a place that names modules.
pub open spec fn has_row(list: Seq<JsonView>, loc: Seq<char>, label: Seq<char>) -> bool {
    exists|m: int|
        0 <= m < list.len() && (#[trigger] list[m]).get_text("loc"@) == Some(loc)
            && list[m].get_text("label"@) == Some(label)
}

proof fn lemma_edge_row(shown: Shown, e: EdgeView)
    ensures
        import_report::edge_entry(shown, e).row.get_text("loc"@) == Some(
            rows::place(e.importer_file, e.pos.line, e.pos.col),
        ),
        import_report::edge_entry(shown, e).row.get_text("label"@) == Some(
            match shown {
                Shown::Into(_) => "imported by "@ + e.importer,
                Shown::From(_) => "imports "@ + e.target + import_report::edge_tag(e),
                Shown::All => e.importer + " → "@ + e.target + import_report::edge_tag(e),
            },
        ),
{
    reveal_strlit("loc");
    reveal_strlit("label");
    reveal_strlit("group");
    reveal_strlit("cols");
    assert("loc"@.len() == 3 && "label"@.len() == 5 && "group"@.len() == 5 && "cols"@.len() == 4);
    assert("label"@[0] == 'l' && "group"@[0] == 'g');
    let loc = JsonView::Str(import_report::edge_loc(e));
    let r0 = JsonView::object();
    let r1 = r0.with("loc"@, loc);
    json::lemma_with(r0, "loc"@, loc);
    match shown {
        Shown::Into(_) => {
            let label = JsonView::Str("imported by "@ + e.importer);
            json::lemma_with(r1, "label"@, label);
            json::lemma_with(r1.with("label"@, label), "cols"@, json::texts(seq![e.importer]));
        },
        Shown::From(_) => {
            let label = JsonView::Str("imports "@ + e.target + import_report::edge_tag(e));
            let group = JsonView::Str(
                if e.internal {
                    "internal"@
                } else {
                    "external"@
                },
            );
            let r2 = r1.with("label"@, label);
            json::lemma_with(r1, "label"@, label);
            json::lemma_with(r2, "group"@, group);
            json::lemma_with(r2.with("group"@, group), "cols"@, json::texts(seq![e.target]));
        },
        Shown::All => {
            let label = JsonView::Str(
                e.importer + " → "@ + e.target + import_report::edge_tag(e),
            );
            let r2 = r1.with("label"@, label);
            json::lemma_with(r1, "label"@, label);
            json::lemma_with(r2, "group"@, JsonView::Str(e.importer));
            json::lemma_with(
                r2.with("group"@, JsonView::Str(e.importer)),
                "cols"@,
                json::texts(seq!["→ "@ + e.target + import_report::edge_tag(e)]),
            );
        },
    }
}

proof fn lemma_shown(g: Graph, module: Option<Seq<char>>, reverse: bool, k: int)
    requires
        0 <= k < g.edges@.len(),
        import_report::shows(import_report::edges_asked(g, module, reverse), g.edges@[k]@),
    ensures
        has_row(
            import_report::edges_view(g, module, reverse).results,
            rows::place(
                g.edges@[k]@.importer_file,
                g.edges@[k]@.pos.line,
                g.edges@[k]@.pos.col,
            ),
            import_report::edge_entry(
                import_report::edges_asked(g, module, reverse),
                g.edges@[k]@,
            ).row.get_text("label"@)->0,
        ),
{
    let shown = import_report::edges_asked(g, module, reverse);
    let edges = imports::edge_views(g.edges@);
    let entries = import_report::edge_entries(shown, edges);
    let e = edges[k];
    let m = lemma_edge_entries(shown, edges, k);
    lemma_edge_row(shown, e);
    let row = import_report::edge_entry(shown, e).row;
    assert(entries[m].row == row);
    rows::lemma_arranged(entries, row);
    let list = rows::arranged(entries);
    let x = choose|x: int| 0 <= x < list.len() && list[x] == row;
    assert(list[x].get_text("loc"@) is Some);
}

/// What a module imports has a row in the report on that module, and what imports it one in
/// the report the other way. Asked of no module, the report has every import.
pub proof fn law_imports_have_their_rows(g: Graph, m: Seq<char>, k: int)
    requires
        0 <= k < g.edges@.len(),
    ensures
        ({
            let e = g.edges@[k]@;
            let loc = rows::place(e.importer_file, e.pos.line, e.pos.col);
            let tag = if e.internal {
                ""@
            } else {
                " (ext)"@
            };
            &&& import_report::module_asked(g, m) == e.importer ==> has_row(
                import_report::edges_view(g, Some(m), false).results,
                loc,
                "imports "@ + e.target + tag,
            )
            &&& import_report::module_asked(g, m) == e.target ==> has_row(
                import_report::edges_view(g, Some(m), true).results,
                loc,
                "imported by "@ + e.importer,
            )
            &&& has_row(
                import_report::edges_view(g, None, false).results,
                loc,
                e.importer + " → "@ + e.target + tag,
            )
        }),
{
    let e = g.edges@[k]@;
    if import_report::module_asked(g, m) == e.importer {
        lemma_shown(g, Some(m), false, k);
        lemma_edge_row(import_report::edges_asked(g, Some(m), false), e);
    }
    if import_report::module_asked(g, m) == e.target {
        lemma_shown(g, Some(m), true, k);
        lemma_edge_row(import_report::edges_asked(g, Some(m), true), e);
    }
    lemma_shown(g, None, false, k);
    lemma_edge_row(import_report::edges_asked(g, None, false), e);
}

proof fn lemma_entries_shown(shown: Shown, edges: Seq<EdgeView>, m: int) -> (k: int)
    requires
        0 <= m < import_report::edge_entries(shown, edges).len(),
    ensures
        0 <= k < edges.len(),
        import_report::shows(shown, edges[k]),
        import_report::edge_entries(shown, edges)[m] == import_report::edge_entry(shown, edges[k]),
    decreases edges.len(),
{
    let less = edges.drop_last();
    if m < import_report::edge_entries(shown, less).len() {
        lemma_entries_shown(shown, less, m)
    } else {
        edges.len() - 1
    }
}

/// A report on a module has no row but for an import of it, or, the other way, one by it.
pub proof fn law_rows_are_imports(g: Graph, m: Seq<char>, reverse: bool, x: int) -> (k: int)
    requires
        0 <= x < import_report::edges_view(g, Some(m), reverse).results.len(),
    ensures
        0 <= k < g.edges@.len(),
        import_report::edges_view(g, Some(m), reverse).results[x].get_text("loc"@) == Some(
            rows::place(
                g.edges@[k]@.importer_file,
                g.edges@[k]@.pos.line,
                g.edges@[k]@.pos.col,
            ),
        ),
        reverse ==> g.edges@[k]@.target == import_report::module_asked(g, m),
        !reverse ==> g.edges@[k]@.importer == import_report::module_asked(g, m),
{
    let shown = import_report::edges_asked(g, Some(m), reverse);
    let edges = imports::edge_views(g.edges@);
    let entries = import_report::edge_entries(shown, edges);
    let list = rows::arranged(entries);
    rows::lemma_arranged(entries, list[x]);
    assert(list.contains(list[x]));
    let i = choose|i: int| 0 <= i < entries.len() && (#[trigger] entries[i]).row == list[x];
    let k = lemma_entries_shown(shown, edges, i);
    lemma_edge_row(shown, edges[k]);
    k
}

/// A module of a graph is asked for by its name.
pub proof fn law_module_is_asked_by_name(g: Graph, m: Seq<char>)
    requires
        g.modules().contains_key(m),
        m.len() > 0,
        m[0] != '.',
        m.last() != '.',
        !text::ends(m, ".py"@),
        !text::ends(m, ".pyi"@),
        !m.contains('/'),
        !m.contains('\\'),
    ensures
        import_report::module_asked(g, m) == m,
{
    reveal_with_fuel(text::drop_leading, 2);
    reveal_with_fuel(text::drop_trailing, 2);
}

/// A module of a graph is asked for by the path of its file.
pub proof fn law_module_is_asked_by_path(g: Graph, path: Seq<char>)
    requires
        text::ends(path, ".py"@) || text::ends(path, ".pyi"@),
        g.modules().contains_key(imports::module_name(path).0),
    ensures
        import_report::module_asked(g, path) == imports::module_name(path).0,
{
}

/// A circle of imports has its row, at the first module's file and with the modules in order
/// back to the first.
pub proof fn law_cycle_has_its_row(g: Graph, cs: Seq<Seq<Seq<char>>>, i: int)
    requires
        0 <= i < cs.len(),
        cs[i].len() > 0,
        g.modules().contains_key(cs[i][0]),
    ensures
        import_report::cycles_view(g, cs).results.len() == cs.len(),
        import_report::cycles_view(g, cs).results[i].get_text("loc"@) == Some(
            g.modules()[cs[i][0]]@ + ":1:1"@,
        ),
        import_report::cycles_view(g, cs).results[i].get_text("label"@) == Some(
            "cycle: "@ + (text::join(cs[i], " → "@) + " → "@ + cs[i][0]),
        ),
{
    reveal_strlit("loc");
    reveal_strlit("label");
    reveal_strlit("cols");
    assert("loc"@.len() == 3 && "label"@.len() == 5 && "cols"@.len() == 4);
    let c = cs[i];
    let path = import_report::closed_path(c);
    assert(c.push(c[0]).drop_last() =~= c);
    let loc = JsonView::Str(g.modules()[c[0]]@ + ":1:1"@);
    let r0 = JsonView::object();
    let r1 = r0.with("loc"@, loc);
    json::lemma_with(r0, "loc"@, loc);
    let label = JsonView::Str("cycle: "@ + path);
    let r2 = r1.with("label"@, label);
    json::lemma_with(r1, "label"@, label);
    json::lemma_with(r2, "cols"@, json::texts(seq![path]));
}

proof fn lemma_all_meaning(
    defs: Seq<Option<Loc>>,
    uses: Seq<Vec<Loc>>,
    n: int,
    i: int,
    k: int,
) -> (m: int)
    requires
        0 <= i < n <= uses.len(),
        0 <= k < uses[i]@.len(),
    ensures
        0 <= m < lookup::gathered(defs, uses, n).len(),
        lookup::gathered(defs, uses, n)[m] == lookup::meaning(
            uses[i]@[k]@,
            lookup::owner_of(defs, i),
        ),
    decreases n,
{
    if i < n - 1 {
        lemma_all_meaning(defs, uses, n - 1, i, k)
    } else {
        lookup::gathered(defs, uses, n - 1).len() + k
    }
}

/// Whether places have one that stands where another does.
pub open spec fn has_place(list: Seq<LocView>, l: LocView, meant: Option<Seq<char>>) -> bool {
    exists|m: int|
        0 <= m < list.len() && ({
            &&& (#[trigger] list[m]).path == l.path
            &&& list[m].line == l.line
            &&& list[m].col == l.col
            &&& list[m].kind == l.kind
            &&& list[m].role == l.role
            &&& list[m].resolves_to == meant
        })
}

/// Every use of each definition is gathered. It says which definition it means just where a
/// name has several and that one is reported.
pub proof fn law_uses_are_gathered(defs: Seq<Option<Loc>>, uses: Seq<Vec<Loc>>, i: int, k: int)
    requires
        defs.len() == uses.len(),
        0 <= i < uses.len(),
        0 <= k < uses[i]@.len(),
    ensures
        defs.len() == 1 || defs[i] is None ==> has_place(
            lookup::gathered(defs, uses, uses.len() as int),
            uses[i]@[k]@,
            None,
        ),
        defs.len() > 1 && defs[i] is Some ==> has_place(
            lookup::gathered(defs, uses, uses.len() as int),
            uses[i]@[k]@,
            Some(
                rows::place(
                    (defs[i]->0)@.path,
                    (defs[i]->0)@.line,
                    (defs[i]->0)@.col,
                ),
            ),
        ),
{
    let m = lemma_all_meaning(defs, uses, uses.len() as int, i, k);
    let list = lookup::gathered(defs, uses, uses.len() as int);
    assert(list[m].path == uses[i]@[k]@.path);
}

/// Those that are reported are all that are places.
pub proof fn law_reported_are_places(s: Seq<Option<Loc>>, l: LocView)
    ensures
        lookup::those_reported(s).contains(l) <==> exists|i: int|
            0 <= i < s.len() && (#[trigger] s[i]) is Some && (s[i]->0)@ == l,
    decreases s.len(),
{
    if s.len() > 0 {
        let less = s.drop_last();
        law_reported_are_places(less, l);
        assert(s[s.len() - 1] == s.last());
        if let Some(x) = s.last() {
            text::lemma_push_contains(lookup::those_reported(less), x@);
        }
        if lookup::those_reported(less).contains(l) {
            let i = choose|i: int|
                0 <= i < less.len() && (#[trigger] less[i]) is Some && (less[i]->0)@ == l;
            assert(s[i] == less[i]);
        }
        if exists|i: int| 0 <= i < s.len() && (#[trigger] s[i]) is Some && (s[i]->0)@ == l {
            let i = choose|i: int|
                0 <= i < s.len() && (#[trigger] s[i]) is Some && (s[i]->0)@ == l;
            if i < less.len() {
                assert(less[i] == s[i]);
            }
        }
    }
}

/// An upgrade says that there is nothing to do just where the release is not newer and none
/// is forced; with a check only, it never says that one was made.
pub proof fn law_upgrade_says_what_was_done(
    ch: ReleaseChannel,
    b: Build,
    s: StandingView,
    check: bool,
    force: bool,
)
    ensures
        text::starts(upgrade::upgrade_answer(ch, b, s, check, force).summary, "already up to date"@)
            <==> !s.behind && !force,
        text::starts(upgrade::upgrade_answer(ch, b, s, check, force).summary, "upgraded "@) <==> (
        s.behind || force) && !check,
        text::starts(
            upgrade::upgrade_answer(ch, b, s, check, force).summary,
            "upgrade available: "@,
        ) <==> s.behind && check,
{
    let t = upgrade::upgrade_answer(ch, b, s, check, force).summary;
    reveal_strlit("already up to date");
    reveal_strlit("already up to date on ");
    reveal_strlit("upgraded ");
    reveal_strlit("upgrade available: ");
    reveal_strlit("upgrade reinstallable: ");
    assert("already up to date"@[0] == 'a' && "upgraded "@[0] == 'u' && "upgrade available: "@[0]
        == 'u');
    assert("upgraded "@[7] == 'd' && "upgrade available: "@[7] == ' ' && "upgrade available: "@[8]
        == 'a');
    if !s.behind && !force {
        assert(t[0] == 'a');
        assert(t.subrange(0, 18) =~= "already up to date"@);
    } else if check {
        assert(t[0] == 'u' && t[7] == ' ');
        if s.behind {
            assert(t.subrange(0, 19) =~= "upgrade available: "@);
        } else {
            assert(t[8] == 'r');
        }
    } else {
        assert(t[0] == 'u' && t[7] == 'd');
        assert(t.subrange(0, 9) =~= "upgraded "@);
    }
    if text::starts(t, "already up to date"@) {
        assert(t.subrange(0, 18)[0] == t[0]);
    }
    if text::starts(t, "upgraded "@) {
        assert(t.subrange(0, 9)[0] == t[0] && t.subrange(0, 9)[7] == t[7]);
    }
    if text::starts(t, "upgrade available: "@) {
        assert(t.subrange(0, 19)[0] == t[0] && t.subrange(0, 19)[7] == t[7] && t.subrange(0, 19)[8]
            == t[8]);
    }
}

/// The texts of a list of values are those of the values that are texts.
pub proof fn law_texts_of_values(items: Seq<JsonView>, s: Seq<char>)
    ensures
        json::texts_among(items).contains(s) <==> items.contains(JsonView::Str(s)),
    decreases items.len(),
{
    if items.len() > 0 {
        let less = items.drop_last();
        law_texts_of_values(less, s);
        text::lemma_push_contains(less, items.last());
        assert(items =~= less.push(items.last()));
        if let JsonView::Str(t) = items.last() {
            text::lemma_push_contains(json::texts_among(less), t);
        }
    }
}

/// A callable of a file counts among those to walk from; an import, and each use, among the
/// occurrences to resolve.
pub proof fn law_counts(files: Seq<FileIndex>, f: FileIndex, d: Def)
    ensures
        f.defs@.len() == 0 ==> cli::walked(files.push(f)) == cli::walked(files),
        cli::occurring(files.push(f)) >= cli::occurring(files) + f.refs@.len(),
        crate::model::callable(d) ==> cli::callable_count(f.defs@.push(d)) == cli::callable_count(
            f.defs@,
        ) + 1,
        !crate::model::callable(d) ==> cli::callable_count(f.defs@.push(d)) == cli::callable_count(
            f.defs@,
        ),
        d.kind is Import ==> cli::import_count(f.defs@.push(d)) == cli::import_count(f.defs@) + 1,
        !(d.kind is Import) ==> cli::import_count(f.defs@.push(d)) == cli::import_count(f.defs@),
        cli::walked(files.push(f)) == cli::walked(files) + cli::callable_count(f.defs@),
        cli::occurring(files.push(f)) == cli::occurring(files) + f.refs@.len() + cli::import_count(
            f.defs@,
        ),
{
    assert(files.push(f).drop_last() =~= files);
    assert(f.defs@.push(d).drop_last() =~= f.defs@);
}

/// The answer to `index` tells whether anything was kept; where nothing was, it warns.
pub proof fn law_index_tells_what_is_kept(n: nat, cached: bool, place: Seq<char>)
    ensures
        cli::index_answer(n, cached, place).query.get("files"@) == Some(JsonView::Num(n)),
        cli::index_answer(n, cached, place).query.get("cached"@) == Some(JsonView::Bool(cached)),
        cached ==> cli::index_answer(n, cached, place).query.get_text("cache"@) == Some(place),
        cli::index_answer(n, cached, place).warnings.len() == 0 <==> cached,
{
    reveal_strlit("kind");
    reveal_strlit("files");
    reveal_strlit("cached");
    reveal_strlit("cache");
    assert("kind"@.len() == 4 && "files"@.len() == 5 && "cached"@.len() == 6 && "cache"@.len() == 5);
    assert("files"@[0] == 'f' && "cache"@[0] == 'c');
    let q0 = JsonView::object();
    let q1 = q0.with("kind"@, JsonView::Str("index"@));
    json::lemma_with(q0, "kind"@, JsonView::Str("index"@));
    let q2 = q1.with("files"@, JsonView::Num(n));
    json::lemma_with(q1, "files"@, JsonView::Num(n));
    let q3 = q2.with("cached"@, JsonView::Bool(cached));
    json::lemma_with(q2, "cached"@, JsonView::Bool(cached));
    json::lemma_with(q3, "cache"@, JsonView::Str(place));
}

/// The answer to `index clean` tells what was removed.
pub proof fn law_clean_tells_what_is_removed(removed: Option<Seq<char>>)
    ensures
        cli::clean_answer(removed).query.get_text("removed"@) == removed,
{
    reveal_strlit("kind");
    reveal_strlit("removed");
    assert("kind"@.len() == 4 && "removed"@.len() == 7);
    let q0 = JsonView::object();
    let q1 = q0.with("kind"@, JsonView::Str("index-clean"@));
    json::lemma_with(q0, "kind"@, JsonView::Str("index-clean"@));
    json::lemma_with(q1, "removed"@, json::text_or_null(removed));
}

/// The answer of a run is what the run wrote: its results, its summary and its warnings that
/// are texts. The code that the suite exited with is added where it is known.
pub proof fn law_run_is_told(v: JsonView, exit_code: Option<i32>, s: Seq<char>)
    ensures
        v.get("results"@) matches Some(JsonView::Arr(a)) ==> dynamic::traced(
            v,
            exit_code,
        ).results == a,
        v.get_text("summary"@) == Some(s) ==> dynamic::traced(v, exit_code).summary == s,
        v.get("warnings"@) matches Some(JsonView::Arr(a)) ==> (dynamic::traced(
            v,
            exit_code,
        ).warnings.contains(s) <==> a.contains(JsonView::Str(s))),
        v.get("query"@) is Some && json::tidy(v.get("query"@)->0) && exit_code is Some
            ==> dynamic::traced(v, exit_code).query.get("pytest_exit"@) == Some(
            json::integer(exit_code->0 as int),
        ),
        v.get("query"@) is Some && exit_code is None ==> Some(dynamic::traced(v, exit_code).query)
            == v.get("query"@),
{
    if let Some(JsonView::Arr(a)) = v.get("warnings"@) {
        law_texts_of_values(a, s);
    }
    if v.get("query"@) is Some && json::tidy(v.get("query"@)->0) && exit_code is Some {
        json::lemma_with(
            v.get("query"@)->0,
            "pytest_exit"@,
            json::integer(exit_code->0 as int),
        );
    }
}

} // verus!
