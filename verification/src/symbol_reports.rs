//! Reports on where a symbol is defined, used and called.
use crate::callgraph::{CallGraph, CallGraphTy, Direction};
use crate::callgraph;
use crate::deadcode::{dispatch_caveat, DispatchKind};
use crate::deadcode;
use crate::graph_reports;
use crate::hierarchy::Hierarchy;
use crate::json::{Json, JsonView};
use crate::json;
use crate::output::{Envelope, EnvelopeView};
use crate::resolve::{Loc, LocView, Resolver, Sites, UnifiedResolver};
use crate::resolve;
use crate::rows::{count_of, no_texts, one_text};
use crate::rows;
use crate::sort;
use crate::text::{cat, cat5, count_text, leaf_of};
use crate::text;
use vstd::prelude::*;

verus! {

/// The row of a place.
pub open spec fn loc_row(l: LocView) -> JsonView {
    let row = JsonView::object().with("loc"@, JsonView::Str(l.key())).with(
        "label"@,
        JsonView::Str(l.kind),
    ).with("role"@, JsonView::Str(l.role)).with("group"@, JsonView::Str(l.kind)).with(
        "cols"@,
        json::texts(
            match l.resolves_to {
                Some(t) => seq!["→ "@ + t],
                None => Seq::empty(),
            },
        ),
    );
    match l.resolves_to {
        Some(t) => row.with("resolves_to"@, JsonView::Str(t)),
        None => row,
    }
}

/// The row of a place.
pub fn loc_to_json(l: &Loc) -> (r: Json)
    ensures
        r@ == loc_row(l@),
{
    let cols = match &l.resolves_to {
        Some(t) => {
            let shown = cat("→ ", t.as_str());
            one_text(shown.as_str())
        },
        None => no_texts(),
    };
    let row = Json::object().with("loc", Json::Str(l.key())).with(
        "label",
        Json::text(l.kind.as_str()),
    ).with("role", Json::text(l.role)).with("group", Json::text(l.kind.as_str())).with("cols", cols);
    match &l.resolves_to {
        Some(t) => row.with("resolves_to", Json::text(t.as_str())),
        None => row,
    }
}

/// The rows of places.
pub open spec fn loc_rows(s: Seq<LocView>) -> Seq<JsonView> {
    Seq::new(s.len(), |i: int| loc_row(s[i]))
}

/// The rows of places.
fn rows_for(locs: &Vec<Loc>) -> (r: Vec<Json>)
    ensures
        json::item_views(r@) == loc_rows(sort::each(locs@)),
{
    let ghost all = loc_rows(sort::each(locs@));
    let mut out: Vec<Json> = Vec::new();
    let mut i: usize = 0;
    while i < locs.len()
        invariant
            i <= locs@.len(),
            all == loc_rows(sort::each(locs@)),
            json::item_views(out@) == all.take(i as int),
        decreases locs@.len() - i,
    {
        let ghost seen = out@;
        out.push(loc_to_json(&locs[i]));
        proof {
            assert(sort::each(locs@)[i as int] == locs@[i as int]@);
            assert(json::item_views(out@) =~= json::item_views(seen).push(all[i as int]));
            assert(all.take(i + 1) =~= all.take(i as int).push(all[i as int]));
        }
        i = i + 1;
    }
    assert(all.take(all.len() as int) =~= all);
    out
}

/// The report of places of one kind.
pub open spec fn places_view(symbol: Seq<char>, kind: Seq<char>, locs: Seq<LocView>) -> EnvelopeView {
    EnvelopeView::of(
        JsonView::object().with("kind"@, JsonView::Str(kind)).with(
            "target"@,
            JsonView::Str(symbol),
        ),
        loc_rows(locs),
    ).summarized(text::decimal(locs.len()) + " "@ + kind + " of `"@ + (symbol + "`"@))
}

/// The report of places of one kind.
fn places_report(symbol: &str, kind: &str, locs: &Vec<Loc>) -> (r: Envelope)
    ensures
        r@ == places_view(symbol@, kind@, sort::each(locs@)),
{
    let results = rows_for(locs);
    assert(sort::each(locs@).len() == locs@.len());
    let n = count_text(locs.len());
    let tail = cat(symbol, "`");
    let summary = cat5(n.as_str(), " ", kind, " of `", tail.as_str());
    let query = Json::object().with("kind", Json::text(kind)).with("target", Json::text(symbol));
    Envelope::new(query, results).with_summary(summary)
}

/// Every use of `symbol`.
pub fn query_refs<S: Sites>(resolver: &UnifiedResolver<S>, symbol: &str) -> (r: Envelope)
    ensures
        r@ == places_view(
            symbol@,
            "refs"@,
            resolve::sweep_of(resolver.files@, symbol@, resolve::both(resolver.sites)),
        ),
{
    let locs = resolver.references(symbol);
    places_report(symbol, "refs", &locs)
}

/// Every definition of `symbol`.
pub fn query_defs<S: Sites>(resolver: &UnifiedResolver<S>, symbol: &str) -> (r: Envelope)
    ensures
        r@ == places_view(symbol@, "defs"@, resolve::definitions_of(resolver.files@, symbol@)),
{
    let locs = resolver.definitions(symbol);
    places_report(symbol, "defs", &locs)
}

/// What to warn of: that callers may be missed.
pub open spec fn callers_warnings(caveat: Option<(Seq<char>, DispatchKind)>) -> Seq<Seq<char>> {
    match caveat {
        Some(c) => seq![
            graph_reports::dispatched(c)
                + "callers that reach it only through that dispatch aren't shown, so a 0 here is not \"uncalled\"."@,
        ],
        None => Seq::empty(),
    }
}

/// The report of the calls of a symbol.
pub open spec fn callers_view(
    symbol: Seq<char>,
    locs: Seq<LocView>,
    caveat: Option<(Seq<char>, DispatchKind)>,
) -> EnvelopeView {
    EnvelopeView::of(
        JsonView::object().with("kind"@, JsonView::Str("callers"@)).with(
            "target"@,
            JsonView::Str(symbol),
        ).with("exhaustive"@, JsonView::Bool(caveat is None)).with(
            "caveat"@,
            graph_reports::caveat_mark(caveat),
        ),
        loc_rows(locs),
    ).summarized(rows::counted(locs.len(), "caller"@) + " of `"@ + symbol + "`"@).warned(
        callers_warnings(caveat),
    )
}

/// The report of the calls of a symbol.
pub fn callers_report(symbol: &str, locs: &Vec<Loc>, caveat: &Option<(String, DispatchKind)>) -> (r:
    Envelope)
    ensures
        r@ == callers_view(symbol@, sort::each(locs@), deadcode::caveat_view(*caveat)),
{
    let results = rows_for(locs);
    assert(sort::each(locs@).len() == locs@.len());
    let n = count_of(locs.len(), "caller");
    let summary = text::cat4(n.as_str(), " of `", symbol, "`");
    let mark = match caveat {
        Some(_) => Json::text("framework-dispatch"),
        None => Json::Null,
    };
    let query = Json::object().with("kind", Json::text("callers")).with(
        "target",
        Json::text(symbol),
    ).with("exhaustive", Json::Bool(caveat.is_none())).with("caveat", mark);
    let mut warnings: Vec<String> = Vec::new();
    match caveat {
        Some((name, kind)) => {
            let short = leaf_of(name.as_str());
            let head = cat5(
                "`",
                short.as_str(),
                "` is framework-dispatched (",
                kind.reason(),
                ") — ",
            );
            warnings.push(
                cat(
                    head.as_str(),
                    "callers that reach it only through that dispatch aren't shown, so a 0 here is not \"uncalled\".",
                ),
            );
        },
        None => {},
    }
    assert(text::views(warnings@) =~= callers_warnings(deadcode::caveat_view(*caveat)));
    Envelope::new(query, results).with_summary(summary).with_warnings(warnings)
}

/// Every call of `symbol`. `console` are the targets of the console scripts.
pub fn query_callers<T: CallGraphTy, S: Sites>(
    graph: &CallGraph<T>,
    resolver: &UnifiedResolver<S>,
    symbol: &str,
    console: &Vec<String>,
) -> (r: Envelope)
    ensures
        r@ == callers_view(
            symbol@,
            resolve::sweep_of(resolver.files@, symbol@, resolve::only_calls(resolver.sites)),
            graph_reports::entries_of(*graph, text::views(console@)).caveat(
                callgraph::roots_named(graph.files(), symbol@),
            ),
        ),
{
    let roots = graph.closure(symbol, Direction::Reverse, Some(0)).roots;
    assert(text::views(roots@).len() == roots@.len());
    let caveat = if roots.len() == 0 {
        None
    } else {
        let files = graph.index().0;
        let hier = Hierarchy::build(files, graph);
        dispatch_caveat(&roots, files, graph, &hier, console)
    };
    let locs = resolver.callers(symbol);
    callers_report(symbol, &locs, &caveat)
}

} // verus!
