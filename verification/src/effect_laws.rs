//! What holds of the report of side effects.
use crate::dynamic::Ledger;
use crate::effects::{Asked, SiteView};
use crate::effects;
use crate::json::JsonView;
use crate::json;
use crate::model::{Def, Effect, EffectKind, FileIndex};
use crate::model;
use crate::names;
use crate::rows;
use crate::text;
use vstd::prelude::*;

verus! {

/// The texts of a row of an effect that the code appears to have.
proof fn lemma_site_row(led: Ledger, s: SiteView)
    ensures
        effects::site_row(led, s).get_text("loc"@) == Some(s.loc),
        effects::site_row(led, s).get_text("api"@) == Some(s.api),
        effects::site_row(led, s).get_text("effect"@) == Some(s.cat),
        effects::site_row(led, s).get_text("owner"@) == Some(s.owner),
        effects::site_row(led, s).get_text("confidence"@) == Some(
            effects::confidence(led, s.owner, s.cat),
        ),
{
    reveal_strlit("loc");
    reveal_strlit("label");
    reveal_strlit("confidence");
    reveal_strlit("effect");
    reveal_strlit("api");
    reveal_strlit("owner");
    reveal_strlit("import_time");
    reveal_strlit("group");
    reveal_strlit("cols");
    assert("loc"@[0] == 'l' && "api"@[0] == 'a');
    assert("label"@[0] == 'l' && "owner"@[0] == 'o' && "group"@[0] == 'g');
    assert("confidence"@.len() == 10 && "import_time"@.len() == 11 && "cols"@.len() == 4);
    let conf = effects::confidence(led, s.owner, s.cat);
    let r0 = JsonView::object();
    assert(json::tidy(r0));
    let r1 = r0.with("loc"@, JsonView::Str(s.loc));
    json::lemma_with(r0, "loc"@, JsonView::Str(s.loc));
    let label = JsonView::Str(
        conf + " "@ + s.cat + " "@ + (s.api + "  in "@ + effects::whereabouts(s)),
    );
    let r2 = r1.with("label"@, label);
    json::lemma_with(r1, "label"@, label);
    let r3 = r2.with("confidence"@, JsonView::Str(conf));
    json::lemma_with(r2, "confidence"@, JsonView::Str(conf));
    let r4 = r3.with("effect"@, JsonView::Str(s.cat));
    json::lemma_with(r3, "effect"@, JsonView::Str(s.cat));
    let r5 = r4.with("api"@, JsonView::Str(s.api));
    json::lemma_with(r4, "api"@, JsonView::Str(s.api));
    let r6 = r5.with("owner"@, JsonView::Str(s.owner));
    json::lemma_with(r5, "owner"@, JsonView::Str(s.owner));
    let r7 = r6.with("import_time"@, JsonView::Bool(s.import_time));
    json::lemma_with(r6, "import_time"@, JsonView::Bool(s.import_time));
    let r8 = r7.with("group"@, JsonView::Str(conf));
    json::lemma_with(r7, "group"@, JsonView::Str(conf));
    let cols = json::texts(
        seq![
            s.cat,
            s.api,
            s.owner,
            if s.import_time {
                "import-time"@
            } else {
                ""@
            },
        ],
    );
    let r9 = r8.with("cols"@, cols);
    json::lemma_with(r8, "cols"@, cols);
    assert(effects::site_row(led, s) == r9);
}

/// The texts of a row of an effect that only the run showed. It has no location.
proof fn lemma_observed_row(k: (Seq<char>, Seq<char>))
    ensures
        effects::observed_row(k).get_text("loc"@) is None,
        effects::observed_row(k).get_text("effect"@) == Some(k.1),
        effects::observed_row(k).get_text("owner"@) == Some(k.0),
        effects::observed_row(k).get_text("confidence"@) == Some("observed"@),
{
    reveal_strlit("loc");
    reveal_strlit("label");
    reveal_strlit("confidence");
    reveal_strlit("effect");
    reveal_strlit("owner");
    reveal_strlit("import_time");
    reveal_strlit("group");
    reveal_strlit("cols");
    assert("label"@[0] == 'l' && "owner"@[0] == 'o' && "group"@[0] == 'g');
    assert("confidence"@.len() == 10 && "import_time"@.len() == 11 && "cols"@.len() == 4);
    let r0 = JsonView::object();
    assert(json::tidy(r0));
    assert(r0.get("loc"@) is None);
    let label = JsonView::Str("observed "@ + k.1 + "  in "@ + k.0 + " (static missed this edge)"@);
    let r1 = r0.with("label"@, label);
    json::lemma_with(r0, "label"@, label);
    let r2 = r1.with("confidence"@, JsonView::Str("observed"@));
    json::lemma_with(r1, "confidence"@, JsonView::Str("observed"@));
    let r3 = r2.with("effect"@, JsonView::Str(k.1));
    json::lemma_with(r2, "effect"@, JsonView::Str(k.1));
    let r4 = r3.with("owner"@, JsonView::Str(k.0));
    json::lemma_with(r3, "owner"@, JsonView::Str(k.0));
    let r5 = r4.with("import_time"@, JsonView::Bool(false));
    json::lemma_with(r4, "import_time"@, JsonView::Bool(false));
    let r6 = r5.with("group"@, JsonView::Str("observed"@));
    json::lemma_with(r5, "group"@, JsonView::Str("observed"@));
    let cols = json::texts(seq![k.1, ""@, k.0, ""@]);
    let r7 = r6.with("cols"@, cols);
    json::lemma_with(r6, "cols"@, cols);
    assert(effects::observed_row(k) == r7);
}

/// Whether a file defines a function or class of one of the names.
pub open spec fn has_one_of(f: FileIndex, reach: Set<Seq<char>>) -> bool {
    exists|j: int|
        0 <= j < f.defs@.len() && model::callable(#[trigger] f.defs@[j]) && reach.contains(
            names::def_fqn(f.path@, f.defs@[j]),
        )
}

/// Whether an effect of a file is asked for: every one is where no symbol was asked of;
/// else one that a reached callable performs, and one that importing a file performs which
/// defines a reached callable.
pub open spec fn asked_for(f: FileIndex, e: Effect, asked: Option<Asked>) -> bool {
    match asked {
        None => true,
        Some(a) => (e.import_time && has_one_of(f, a.reach)) || (!e.import_time && a.reach.contains(
            names::fqn(f.path@, text::views(e.scope@)),
        )),
    }
}

proof fn lemma_defines(path: Seq<char>, defs: Seq<Def>, reach: Set<Seq<char>>)
    ensures
        effects::defines(path, defs, reach) <==> exists|j: int|
            0 <= j < defs.len() && model::callable(#[trigger] defs[j]) && reach.contains(
                names::def_fqn(path, defs[j]),
            ),
    decreases defs.len(),
{
    if defs.len() > 0 {
        let less = defs.drop_last();
        lemma_defines(path, less, reach);
        if effects::defines(path, less, reach) {
            let j = choose|j: int|
                0 <= j < less.len() && model::callable(#[trigger] less[j]) && reach.contains(
                    names::def_fqn(path, less[j]),
                );
            assert(defs[j] == less[j]);
        }
        if model::callable(defs.last()) && reach.contains(names::def_fqn(path, defs.last())) {
            assert(defs[defs.len() - 1] == defs.last());
        }
        assert forall|j: int|
            0 <= j < defs.len() && model::callable(#[trigger] defs[j]) && reach.contains(
                names::def_fqn(path, defs[j]),
            ) implies effects::defines(path, defs, reach) by {
            if j < less.len() {
                assert(less[j] == defs[j]);
            }
        }
    }
}

proof fn lemma_concerns(f: FileIndex, e: Effect, asked: Option<Asked>)
    ensures
        effects::concerns(f, e, effects::reach_of(asked)) <==> asked_for(f, e, asked),
{
    if let Some(a) = asked {
        lemma_defines(f.path@, f.defs@, a.reach);
    }
}

proof fn lemma_sites_in(f: FileIndex, effects_: Seq<Effect>, asked: Option<Asked>, s: SiteView)
    ensures
        effects::sites_in(f, effects_, effects::reach_of(asked)).contains(s) <==> exists|k: int|
            0 <= k < effects_.len() && asked_for(f, #[trigger] effects_[k], asked) && s
                == effects::site(f.path@, effects_[k]),
    decreases effects_.len(),
{
    if effects_.len() > 0 {
        let less = effects_.drop_last();
        let e = effects_.last();
        lemma_sites_in(f, less, asked, s);
        lemma_concerns(f, e, asked);
        let before = effects::sites_in(f, less, effects::reach_of(asked));
        text::lemma_push_contains(before, effects::site(f.path@, e));
        if before.contains(s) {
            let k = choose|k: int|
                0 <= k < less.len() && asked_for(f, #[trigger] less[k], asked) && s
                    == effects::site(f.path@, less[k]);
            assert(effects_[k] == less[k]);
        }
        if asked_for(f, e, asked) && s == effects::site(f.path@, e) {
            assert(effects_[effects_.len() - 1] == e);
        }
        assert forall|k: int|
            0 <= k < effects_.len() && asked_for(f, #[trigger] effects_[k], asked) && s
                == effects::site(f.path@, effects_[k]) implies effects::sites_in(
            f,
            effects_,
            effects::reach_of(asked),
        ).contains(s) by {
            if k < less.len() {
                assert(less[k] == effects_[k]);
            }
        }
    }
}

/// Whether a place is that of an effect that is asked for.
pub open spec fn is_site(files: Seq<FileIndex>, asked: Option<Asked>, i: int, k: int, s: SiteView) -> bool {
    &&& 0 <= i < files.len()
    &&& 0 <= k < files[i].effects@.len()
    &&& asked_for(files[i], files[i].effects@[k], asked)
    &&& s == effects::site(files[i].path@, files[i].effects@[k])
}

proof fn lemma_sites(files: Seq<FileIndex>, asked: Option<Asked>, s: SiteView)
    ensures
        effects::sites(files, effects::reach_of(asked)).contains(s) <==> exists|i: int, k: int|
            is_site(files, asked, i, k, s),
    decreases files.len(),
{
    let reach = effects::reach_of(asked);
    let all = effects::sites(files, reach);
    if files.len() > 0 {
        let less = files.drop_last();
        let f = files.last();
        let n = files.len() - 1;
        let before = effects::sites(less, reach);
        let here = effects::sites_in(f, f.effects@, reach);
        lemma_sites(less, asked, s);
        lemma_sites_in(f, f.effects@, asked, s);
        if all.contains(s) {
            let m = choose|m: int| 0 <= m < all.len() && all[m] == s;
            if m < before.len() {
                assert(before[m] == s);
                let (i, k) = choose|i: int, k: int| is_site(less, asked, i, k, s);
                assert(is_site(files, asked, i, k, s));
            } else {
                assert(here[m - before.len()] == s);
                let k = choose|k: int|
                    0 <= k < f.effects@.len() && asked_for(f, #[trigger] f.effects@[k], asked) && s
                        == effects::site(f.path@, f.effects@[k]);
                assert(is_site(files, asked, n, k, s));
            }
        }
        if exists|i: int, k: int| is_site(files, asked, i, k, s) {
            let (i, k) = choose|i: int, k: int| is_site(files, asked, i, k, s);
            if i < n {
                assert(is_site(less, asked, i, k, s));
                let m = choose|m: int| 0 <= m < before.len() && before[m] == s;
                assert(all[m] == s);
            } else {
                assert(asked_for(f, f.effects@[k], asked));
                let m = choose|m: int| 0 <= m < here.len() && here[m] == s;
                assert(all[before.len() + m] == s);
            }
        }
    }
}

/// Whether one of the places has the location and api of another.
pub open spec fn stands_in(s: Seq<SiteView>, x: SiteView) -> bool {
    exists|j: int| 0 <= j < s.len() && (#[trigger] s[j]).loc == x.loc && s[j].api == x.api
}

/// Taking each location and api once leaves a place with each of them.
proof fn lemma_distinct_keeps(s: Seq<SiteView>, i: int)
    requires
        0 <= i < s.len(),
    ensures
        stands_in(effects::distinct(s), s[i]),
    decreases s.len(),
{
    let less = s.drop_last();
    let x = s.last();
    let before = effects::distinct(less);
    let now = effects::distinct(s);
    if i < less.len() {
        assert(less[i] == s[i]);
        lemma_distinct_keeps(less, i);
        let j = choose|j: int|
            0 <= j < before.len() && (#[trigger] before[j]).loc == less[i].loc && before[j].api
                == less[i].api;
        assert(now[j] == before[j]);
    } else {
        lemma_site_at(less, (x.loc, x.api));
        if effects::site_at(less, (x.loc, x.api)) {
            let m = choose|m: int|
                0 <= m < less.len() && (#[trigger] less[m]).loc == x.loc && less[m].api == x.api;
            lemma_distinct_keeps(less, m);
            let j = choose|j: int|
                0 <= j < before.len() && (#[trigger] before[j]).loc == less[m].loc
                    && before[j].api == less[m].api;
            assert(now[j] == before[j]);
        } else {
            assert(now[before.len() as int] == x);
        }
    }
}

/// Taking each location and api once adds no place.
proof fn lemma_distinct_from(s: Seq<SiteView>, j: int)
    requires
        0 <= j < effects::distinct(s).len(),
    ensures
        s.contains(effects::distinct(s)[j]),
    decreases s.len(),
{
    if s.len() > 0 {
        let less = s.drop_last();
        let before = effects::distinct(less);
        let now = effects::distinct(s);
        if j < before.len() {
            assert(now[j] == before[j]);
            lemma_distinct_from(less, j);
            let m = choose|m: int| 0 <= m < less.len() && less[m] == before[j];
            assert(s[m] == now[j]);
        } else {
            assert(s[s.len() - 1] == now[j]);
        }
    }
}

/// Taking each location and api once leaves no two places with the same.
proof fn lemma_distinct_apart(s: Seq<SiteView>, a: int, b: int)
    requires
        0 <= a < b < effects::distinct(s).len(),
    ensures
        effects::distinct(s)[a].loc != effects::distinct(s)[b].loc || effects::distinct(s)[a].api
            != effects::distinct(s)[b].api,
    decreases s.len(),
{
    if s.len() > 0 {
        let less = s.drop_last();
        let x = s.last();
        let before = effects::distinct(less);
        let now = effects::distinct(s);
        assert(now[a] == before[a]);
        if b < before.len() {
            assert(now[b] == before[b]);
            lemma_distinct_apart(less, a, b);
        } else {
            lemma_site_at(less, (x.loc, x.api));
            lemma_distinct_from(less, a);
            let m = choose|m: int| 0 <= m < less.len() && less[m] == before[a];
            assert(less[m].loc != x.loc || less[m].api != x.api);
        }
    }
}

proof fn lemma_site_at(s: Seq<SiteView>, k: (Seq<char>, Seq<char>))
    ensures
        effects::site_at(s, k) <==> exists|m: int|
            0 <= m < s.len() && (#[trigger] s[m]).loc == k.0 && s[m].api == k.1,
    decreases s.len(),
{
    if s.len() > 0 {
        let less = s.drop_last();
        lemma_site_at(less, k);
        if effects::site_at(less, k) {
            let m = choose|m: int|
                0 <= m < less.len() && (#[trigger] less[m]).loc == k.0 && less[m].api == k.1;
            assert(s[m] == less[m]);
        }
        if s.last().loc == k.0 && s.last().api == k.1 {
            assert(s[s.len() - 1] == s.last());
        }
        assert forall|m: int|
            0 <= m < s.len() && (#[trigger] s[m]).loc == k.0 && s[m].api == k.1 implies effects::site_at(
            s,
            k,
        ) by {
            if m < less.len() {
                assert(less[m] == s[m]);
            }
        }
    }
}

/// Every effect that is asked for has a row with its location and what performs it.
pub proof fn law_every_effect_has_a_row(
    files: Seq<FileIndex>,
    asked: Option<Asked>,
    led: Ledger,
    i: int,
    k: int,
)
    requires
        0 <= i < files.len(),
        0 <= k < files[i].effects@.len(),
        asked_for(files[i], files[i].effects@[k], asked),
    ensures
        exists|m: int|
            0 <= m < effects::effects_report(files, asked, led).results.len() && ({
                let row = #[trigger] effects::effects_report(files, asked, led).results[m];
                let e = files[i].effects@[k];
                &&& row.get_text("loc"@) == Some(
                    rows::place(files[i].path@, e.pos.line, e.pos.col),
                )
                &&& row.get_text("api"@) == Some(e.detail@)
            }),
{
    let reach = effects::reach_of(asked);
    let all = effects::sites(files, reach);
    let s = effects::distinct(all);
    let extra = effects::observed_only(led, all, reach);
    let want = effects::site(files[i].path@, files[i].effects@[k]);
    assert(is_site(files, asked, i, k, want));
    lemma_sites(files, asked, want);
    let m = choose|m: int| 0 <= m < all.len() && all[m] == want;
    lemma_distinct_keeps(all, m);
    let j = choose|j: int|
        0 <= j < s.len() && (#[trigger] s[j]).loc == all[m].loc && s[j].api == all[m].api;
    let entries = effects::site_entries(led, s) + effects::observed_entries(extra);
    assert(entries[j].row == effects::site_row(led, s[j]));
    rows::lemma_arranged(entries, effects::site_row(led, s[j]));
    lemma_site_row(led, s[j]);
    let results = effects::effects_report(files, asked, led).results;
    assert(results =~= rows::arranged(entries));
    let r = choose|r: int| 0 <= r < results.len() && results[r] == effects::site_row(led, s[j]);
    assert(results[r].get_text("loc"@) == Some(want.loc));
}

/// Whether a row is that of an effect of a file, with its location, what performs it, its
/// category, and who performs it.
pub open spec fn row_of_effect(row: JsonView, f: FileIndex, e: Effect) -> bool {
    &&& row.get_text("loc"@) == Some(rows::place(f.path@, e.pos.line, e.pos.col))
    &&& row.get_text("api"@) == Some(e.detail@)
    &&& row.get_text("effect"@) == Some(effects::category(e.kind))
    &&& row.get_text("owner"@) == Some(names::fqn(f.path@, text::views(e.scope@)))
}

/// Whether a row is that of an effect of a run, with its category and who performed it.
pub open spec fn row_of_run(row: JsonView, k: (Seq<char>, Seq<char>)) -> bool {
    &&& row.get_text("loc"@) is None
    &&& row.get_text("owner"@) == Some(k.0)
    &&& row.get_text("effect"@) == Some(k.1)
    &&& row.get_text("confidence"@) == Some("observed"@)
}

/// Whether a row shows an effect of the code that is asked for. It is confirmed just where
/// a run showed its owner at an effect of its category.
pub open spec fn shows_effect(
    files: Seq<FileIndex>,
    asked: Option<Asked>,
    led: Ledger,
    row: JsonView,
    i: int,
    k: int,
) -> bool {
    &&& 0 <= i < files.len()
    &&& 0 <= k < files[i].effects@.len()
    &&& asked_for(files[i], files[i].effects@[k], asked)
    &&& row_of_effect(row, files[i], files[i].effects@[k])
    &&& row.get_text("confidence"@) == Some("confirmed"@) <==> led.available
        && led.effects.keys().contains(
        (
            names::fqn(files[i].path@, text::views(files[i].effects@[k].scope@)),
            effects::category(files[i].effects@[k].kind),
        ),
    )
}

/// Whether a row shows an effect that only the run showed: the run showed it, it is asked
/// for, and the code does not show its owner at an effect of its category.
pub open spec fn shows_run(
    files: Seq<FileIndex>,
    asked: Option<Asked>,
    led: Ledger,
    row: JsonView,
    key: (Seq<char>, Seq<char>),
) -> bool {
    &&& led.available
    &&& led.effects.keys().contains(key)
    &&& asked matches Some(a) ==> a.reach.contains(key.0)
    &&& row_of_run(row, key)
    &&& forall|i: int, k: int|
        #![trigger files[i].effects@[k]]
        0 <= i < files.len() && 0 <= k < files[i].effects@.len() && asked_for(
            files[i],
            files[i].effects@[k],
            asked,
        ) ==> !(names::fqn(files[i].path@, text::views(files[i].effects@[k].scope@)) == key.0
            && effects::category(files[i].effects@[k].kind) == key.1)
}

proof fn lemma_predicts(s: Seq<SiteView>, k: (Seq<char>, Seq<char>))
    ensures
        effects::predicts(s, k) <==> exists|m: int|
            0 <= m < s.len() && (#[trigger] s[m]).owner == k.0 && s[m].cat == k.1,
    decreases s.len(),
{
    if s.len() > 0 {
        let less = s.drop_last();
        lemma_predicts(less, k);
        if effects::predicts(less, k) {
            let m = choose|m: int|
                0 <= m < less.len() && (#[trigger] less[m]).owner == k.0 && less[m].cat == k.1;
            assert(s[m] == less[m]);
        }
        if s.last().owner == k.0 && s.last().cat == k.1 {
            assert(s[s.len() - 1] == s.last());
        }
        assert forall|m: int|
            0 <= m < s.len() && (#[trigger] s[m]).owner == k.0 && s[m].cat == k.1 implies effects::predicts(
            s,
            k,
        ) by {
            if m < less.len() {
                assert(less[m] == s[m]);
            }
        }
    }
}

/// Each row shows an effect of the code that is asked for, or one that only the run showed.
pub proof fn law_every_row_is_an_effect(
    files: Seq<FileIndex>,
    asked: Option<Asked>,
    led: Ledger,
    m: int,
)
    requires
        0 <= m < effects::effects_report(files, asked, led).results.len(),
    ensures
        (exists|i: int, k: int|
            shows_effect(
                files,
                asked,
                led,
                effects::effects_report(files, asked, led).results[m],
                i,
                k,
            )) || (exists|key: (Seq<char>, Seq<char>)|
            shows_run(
                files,
                asked,
                led,
                effects::effects_report(files, asked, led).results[m],
                key,
            )),
{
    let reach = effects::reach_of(asked);
    let all = effects::sites(files, reach);
    let s = effects::distinct(all);
    let extra = effects::observed_only(led, all, reach);
    let entries = effects::site_entries(led, s) + effects::observed_entries(extra);
    let results = effects::effects_report(files, asked, led).results;
    assert(results =~= rows::arranged(entries));
    let row = results[m];
    assert(results.contains(row));
    rows::lemma_arranged(entries, row);
    let p = choose|p: int| 0 <= p < entries.len() && (#[trigger] entries[p]).row == row;
    if p < s.len() {
        assert(entries[p] == effects::site_entry(led, s[p]));
        lemma_distinct_from(all, p);
        lemma_sites(files, asked, s[p]);
        let (i, k) = choose|i: int, k: int| is_site(files, asked, i, k, s[p]);
        lemma_site_row(led, s[p]);
        law_confidence(led, files[i].path@, files[i].effects@[k]);
        assert(shows_effect(files, asked, led, row, i, k));
    } else {
        let key = extra[p - s.len()];
        assert(entries[p] == effects::observed_entry(key));
        lemma_observed_row(key);
        effects::law_observed_only_is_new(led.effects.keys(), all, reach, p - s.len());
        assert forall|i: int, k: int|
            #![trigger files[i].effects@[k]]
            0 <= i < files.len() && 0 <= k < files[i].effects@.len() && asked_for(
                files[i],
                files[i].effects@[k],
                asked,
            ) implies !(names::fqn(files[i].path@, text::views(files[i].effects@[k].scope@))
            == key.0 && effects::category(files[i].effects@[k].kind) == key.1) by {
            let one = effects::site(files[i].path@, files[i].effects@[k]);
            assert(is_site(files, asked, i, k, one));
            lemma_sites(files, asked, one);
            let q = choose|q: int| 0 <= q < all.len() && all[q] == one;
            lemma_predicts(all, key);
            assert(!(all[q].owner == key.0 && all[q].cat == key.1));
        }
        assert(shows_run(files, asked, led, row, key));
    }
}

/// How sure an effect of the code is: confirmed where a run showed its owner at an effect
/// of its category; else predicted where a run could have shown it, which is so of files,
/// the network, subprocesses and databases; else unverifiable.
pub proof fn law_confidence(led: Ledger, path: Seq<char>, e: Effect)
    ensures
        ({
            let owner = names::fqn(path, text::views(e.scope@));
            let cat = effects::category(e.kind);
            let shown = led.available && led.effects.keys().contains((owner, cat));
            let c = effects::confidence(led, owner, cat);
            &&& c == "confirmed"@ <==> shown
            &&& c == "predicted"@ <==> !shown && (e.kind is Fs || e.kind is Network
                || e.kind is Subprocess || e.kind is Db)
            &&& c == "unverifiable"@ <==> !shown && (e.kind is Env || e.kind is Random
                || e.kind is Clock || e.kind is GlobalState)
        }),
{
    reveal_strlit("confirmed");
    reveal_strlit("predicted");
    reveal_strlit("unverifiable");
    assert("confirmed"@[0] == 'c' && "predicted"@[0] == 'p' && "unverifiable"@[0] == 'u');
    reveal_strlit("fs");
    reveal_strlit("network");
    reveal_strlit("subprocess");
    reveal_strlit("env");
    reveal_strlit("db");
    reveal_strlit("random");
    reveal_strlit("clock");
    reveal_strlit("global");
    assert("env"@[0] == 'e' && "db"@[0] == 'd' && "fs"@[0] == 'f');
    assert("network"@[0] == 'n' && "random"@[0] == 'r' && "clock"@[0] == 'c' && "global"@[0]
        == 'g');
}

/// No two effects that the code shows have one location and one api.
pub proof fn law_no_row_repeats(
    files: Seq<FileIndex>,
    asked: Option<Asked>,
    a: int,
    b: int,
)
    requires
        0 <= a < b < effects::distinct(effects::sites(files, effects::reach_of(asked))).len(),
    ensures
        ({
            let s = effects::distinct(effects::sites(files, effects::reach_of(asked)));
            s[a].loc != s[b].loc || s[a].api != s[b].api
        }),
{
    lemma_distinct_apart(effects::sites(files, effects::reach_of(asked)), a, b);
}

proof fn lemma_surprises(
    keys: Seq<(Seq<char>, Seq<char>)>,
    known: Seq<SiteView>,
    reach: Option<Set<Seq<char>>>,
    key: (Seq<char>, Seq<char>),
)
    requires
        keys.contains(key),
        !effects::predicts(known, key),
        reach matches Some(names) ==> names.contains(key.0),
    ensures
        effects::surprises(keys, known, reach).contains(key),
    decreases keys.len(),
{
    let less = keys.drop_last();
    let before = effects::surprises(less, known, reach);
    text::lemma_push_contains(before, keys.last());
    if keys.last() != key {
        let j = choose|j: int| 0 <= j < keys.len() && keys[j] == key;
        assert(less[j] == key);
        lemma_surprises(less, known, reach, key);
    }
}

/// What a run showed is reported: where it is asked for, and the code does not show its
/// owner at an effect of its category, it has a row of its own.
pub proof fn law_every_observed_effect_has_a_row(
    files: Seq<FileIndex>,
    asked: Option<Asked>,
    led: Ledger,
    key: (Seq<char>, Seq<char>),
)
    requires
        led.available,
        led.effects.keys().contains(key),
        asked matches Some(a) ==> a.reach.contains(key.0),
        forall|i: int, k: int|
            #![trigger files[i].effects@[k]]
            0 <= i < files.len() && 0 <= k < files[i].effects@.len() && asked_for(
                files[i],
                files[i].effects@[k],
                asked,
            ) ==> !(names::fqn(files[i].path@, text::views(files[i].effects@[k].scope@)) == key.0
                && effects::category(files[i].effects@[k].kind) == key.1),
    ensures
        exists|m: int|
            0 <= m < effects::effects_report(files, asked, led).results.len() && row_of_run(
                #[trigger] effects::effects_report(files, asked, led).results[m],
                key,
            ),
{
    let reach = effects::reach_of(asked);
    let all = effects::sites(files, reach);
    let s = effects::distinct(all);
    let extra = effects::observed_only(led, all, reach);
    lemma_predicts(all, key);
    assert forall|q: int| 0 <= q < all.len() implies !((#[trigger] all[q]).owner == key.0
        && all[q].cat == key.1) by {
        assert(all.contains(all[q]));
        lemma_sites(files, asked, all[q]);
        let (i, k) = choose|i: int, k: int| is_site(files, asked, i, k, all[q]);
        assert(asked_for(files[i], files[i].effects@[k], asked));
    }
    lemma_surprises(led.effects.keys(), all, reach, key);
    let j = choose|j: int| 0 <= j < extra.len() && extra[j] == key;
    let entries = effects::site_entries(led, s) + effects::observed_entries(extra);
    assert(entries[s.len() + j] == effects::observed_entry(key));
    rows::lemma_arranged(entries, effects::observed_row(key));
    lemma_observed_row(key);
    let results = effects::effects_report(files, asked, led).results;
    assert(results =~= rows::arranged(entries));
    let r = choose|r: int| 0 <= r < results.len() && results[r] == effects::observed_row(key);
    assert(row_of_run(results[r], key));
}

/// A run whose tests all passed, or that had none, leaves nothing to warn of but that code is
/// read and not run. One that failed is warned of.
pub proof fn law_failed_run_is_warned_of(asked: Option<Asked>, led: Ledger)
    requires
        asked is None || asked->0.named,
        led.available,
    ensures
        led.pytest_exit is None || led.pytest_exit == Some(0i32) || led.pytest_exit == Some(5i32)
            ==> effects::effects_warnings(asked, led).len() == 1,
        led.pytest_exit is Some && led.pytest_exit != Some(0i32) && led.pytest_exit != Some(5i32)
            ==> effects::effects_warnings(asked, led).len() == 2,
{
}

/// The kinds of effects go by names of their own.
pub proof fn law_categories_differ(a: EffectKind, b: EffectKind)
    ensures
        effects::category(a) == effects::category(b) ==> a == b,
{
    reveal_strlit("fs");
    reveal_strlit("network");
    reveal_strlit("subprocess");
    reveal_strlit("env");
    reveal_strlit("db");
    reveal_strlit("random");
    reveal_strlit("clock");
    reveal_strlit("global");
    assert("fs"@[0] == 'f' && "db"@[0] == 'd' && "random"@[0] == 'r' && "global"@[0] == 'g');
    assert("fs"@.len() == 2 && "network"@.len() == 7 && "subprocess"@.len() == 10 && "env"@.len()
        == 3 && "db"@.len() == 2 && "random"@.len() == 6 && "clock"@.len() == 5 && "global"@.len()
        == 6);
}

/// What a run confirmed comes first, then what only the run showed, then what the code
/// predicts, then what no run can show.
pub proof fn law_the_surest_come_first(
    led: Ledger,
    a: SiteView,
    b: SiteView,
    k: (Seq<char>, Seq<char>),
)
    ensures
        ({
            let x = effects::confidence(led, a.owner, a.cat);
            let y = effects::confidence(led, b.owner, b.cat);
            let first = effects::site_entry(led, a).rank;
            let last = effects::site_entry(led, b).rank;
            &&& x == "confirmed"@ && y != "confirmed"@ ==> first < last
            &&& x == "predicted"@ && y == "unverifiable"@ ==> first < last
            &&& x == "confirmed"@ ==> first < effects::observed_entry(k).rank
            &&& y != "confirmed"@ ==> effects::observed_entry(k).rank < last
        }),
{
    reveal_strlit("confirmed");
    reveal_strlit("observed");
    reveal_strlit("predicted");
    reveal_strlit("unverifiable");
    assert("confirmed"@.len() == 9 && "observed"@.len() == 8 && "predicted"@.len() == 9
        && "unverifiable"@.len() == 12);
    assert("confirmed"@[0] == 'c' && "predicted"@[0] == 'p');
}

} // verus!
