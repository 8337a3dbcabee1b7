//! Reports on what a project takes in, and on what its tests replace.
use crate::callgraph::CallGraphTy;
use crate::deadcode::is_script_file;
use crate::deadcode;
use crate::json::{Json, JsonView};
use crate::json;
use crate::mock::{Aid, Ctx, PatchResolver, Status, StatusView};
use crate::mock;
use crate::model::{FileIndex, Input, InputKind, MockTarget};
use crate::output::{Envelope, EnvelopeView};
use crate::rows::{arrange, loc_str, one_text, two_texts, Entry, EntryView};
use crate::rows;
use crate::sort;
use crate::table::Table;
use crate::table;
use crate::tests_map::is_test_file;
use crate::tests_map;
use crate::text::{base_name_of, cat, cat3, cat4, cat5, contains, count_text, ends_with, join_with, plural, same, stem_name_of};
use crate::text;
use vstd::prelude::*;

verus! {

/// The name of a kind of input.
pub open spec fn input_kind(k: InputKind) -> Seq<char> {
    match k {
        InputKind::Env => "env"@,
        InputKind::File => "file"@,
        InputKind::Arg => "arg"@,
        InputKind::Setting => "setting"@,
    }
}

/// The name of a kind of input.
fn kind_of_input(k: InputKind) -> (r: &'static str)
    ensures
        r@ == input_kind(k),
{
    match k {
        InputKind::Env => "env",
        InputKind::File => "file",
        InputKind::Arg => "arg",
        InputKind::Setting => "setting",
    }
}

/// The row of an input.
pub open spec fn input_row(path: Seq<char>, i: Input) -> JsonView {
    JsonView::object().with("loc"@, JsonView::Str(rows::place(path, i.pos.line, i.pos.col))).with(
        "label"@,
        JsonView::Str(input_kind(i.kind) + " "@ + i.value@),
    ).with("group"@, JsonView::Str(input_kind(i.kind))).with("cols"@, json::texts(seq![i.value@]))
}

/// The rows of the inputs of a file.
pub open spec fn rows_in(f: FileIndex) -> Seq<JsonView> {
    Seq::new(f.inputs@.len(), |k: int| input_row(f.path@, f.inputs@[k]))
}

/// Adds the rows of the inputs of a file.
fn input_rows(f: &FileIndex, out: &mut Vec<Json>)
    ensures
        json::item_views(final(out)@) == json::item_views(old(out)@) + rows_in(*f),
{
    let ghost before = json::item_views(out@);
    let ghost all = rows_in(*f);
    let mut k: usize = 0;
    assert(before + all.take(0) =~= before);
    while k < f.inputs.len()
        invariant
            k <= f.inputs@.len(),
            all == rows_in(*f),
            json::item_views(out@) == before + all.take(k as int),
        decreases f.inputs@.len() - k,
    {
        let i = &f.inputs[k];
        let kind = kind_of_input(i.kind);
        let label = cat3(kind, " ", i.value.as_str());
        let row = Json::object().with("loc", Json::Str(loc_str(f.path.as_str(), i.pos))).with(
            "label",
            Json::Str(label),
        ).with("group", Json::text(kind)).with("cols", one_text(i.value.as_str()));
        let ghost seen = json::item_views(out@);
        out.push(row);
        proof {
            assert(json::item_views(out@) =~= seen.push(all[k as int]));
            assert(all.take(k + 1) =~= all.take(k as int).push(all[k as int]));
            assert((before + all.take(k as int)).push(all[k as int]) =~= before + all.take(k + 1));
        }
        k = k + 1;
    }
    assert(all.take(all.len() as int) =~= all);
}

/// Whether a target names a file: by its path, its name, its name without the
/// extension, or the last parts of its path.
pub open spec fn names_file(path: Seq<char>, target: Seq<char>) -> bool {
    path == target || text::base_name(path) == target || text::stem_name(path) == target || (
    text::within(target, "/"@) && text::ends(path, "/"@ + target))
}

/// Whether a target names a file.
pub fn file_matches(path: &str, target: &str) -> (r: bool)
    ensures
        r == names_file(path@, target@),
{
    let base = base_name_of(path);
    let stem = stem_name_of(path);
    if same(path, target) || same(base.as_str(), target) || same(stem.as_str(), target) {
        return true;
    }
    let tail = cat("/", target);
    contains(target, "/") && ends_with(path, tail.as_str())
}

/// The files that a target names.
pub open spec fn files_named(files: Seq<FileIndex>, target: Seq<char>) -> Seq<FileIndex>
    decreases files.len(),
{
    if files.len() == 0 {
        Seq::empty()
    } else if names_file(files.last().path@, target) {
        files_named(files.drop_last(), target).push(files.last())
    } else {
        files_named(files.drop_last(), target)
    }
}

/// The rows of the inputs of files.
pub open spec fn rows_among(files: Seq<FileIndex>) -> Seq<JsonView>
    decreases files.len(),
{
    if files.len() == 0 {
        Seq::empty()
    } else {
        rows_among(files.drop_last()) + rows_in(files.last())
    }
}

/// What a report of inputs was asked.
pub open spec fn inputs_query(target: Option<Seq<char>>) -> JsonView {
    JsonView::object().with("kind"@, JsonView::Str("inputs"@)).with(
        "target"@,
        json::text_or_null(target),
    )
}

/// The report of the inputs of the files that a target names.
pub open spec fn named_inputs_view(files: Seq<FileIndex>, target: Seq<char>) -> EnvelopeView {
    let matched = files_named(files, target);
    let results = rows_among(matched);
    EnvelopeView::of(inputs_query(Some(target)), results).summarized(
        if matched.len() == 0 {
            "no file matches `"@ + target + "`"@
        } else if matched.len() == 1 {
            text::decimal(results.len()) + " inputs in "@ + matched[0].path@
        } else {
            text::decimal(results.len()) + " inputs across "@ + text::decimal(matched.len())
                + " files matching `"@ + (target + "`"@)
        },
    )
}

/// Whether a file is part of the application: neither a script nor a test.
pub open spec fn app_file(f: FileIndex) -> bool {
    !deadcode::script_file(f.path@, f.has_main_guard) && !tests_map::test_file(f.path@)
}

/// The files of the application.
pub open spec fn app_files(files: Seq<FileIndex>) -> Seq<FileIndex>
    decreases files.len(),
{
    if files.len() == 0 {
        Seq::empty()
    } else if app_file(files.last()) {
        app_files(files.drop_last()).push(files.last())
    } else {
        app_files(files.drop_last())
    }
}

/// Whether a script with inputs has a name.
pub open spec fn script_named(files: Seq<FileIndex>, name: Seq<char>) -> bool
    decreases files.len(),
{
    files.len() > 0 && ((deadcode::script_file(files.last().path@, files.last().has_main_guard)
        && files.last().inputs@.len() > 0 && text::stem_name(files.last().path@) == name)
        || script_named(files.drop_last(), name))
}

/// The names of the scripts with inputs, ascending.
pub open spec fn script_names(files: Seq<FileIndex>) -> Seq<Seq<char>> {
    table::in_turn(Set::new(|n: Seq<char>| script_named(files, n)))
}

/// Hints at the scripts that have inputs of their own.
pub open spec fn script_notes(scripts: Seq<Seq<char>>) -> Seq<Seq<char>> {
    let n = scripts.len();
    if n == 0 {
        Seq::empty()
    } else {
        let shown = if n > 6 {
            scripts.take(6)
        } else {
            scripts
        };
        seq![
            text::decimal(n) + " script"@ + (if n == 1 {
                " has its"@
            } else {
                "s have their"@
            }) + " own inputs (management commands, scripts/) — query one by name:"@,
            "pyq inputs <name> — e.g. "@ + text::join(shown, ", "@) + (if n > 6 {
                ", … (+"@ + text::decimal((n - 6) as nat) + " more)"@
            } else {
                ""@
            }),
        ]
    }
}

/// The report of the inputs of the application.
pub open spec fn app_inputs_view(files: Seq<FileIndex>) -> EnvelopeView {
    let results = rows_among(app_files(files));
    EnvelopeView::of(inputs_query(None), results).summarized(
        text::decimal(results.len()) + " app inputs"@,
    ).noted(script_notes(script_names(files)))
}

/// What the report of inputs was asked.
fn query_json(target: Option<&str>) -> (r: Json)
    ensures
        r@ == inputs_query(
            match target {
                Some(t) => Some(t@),
                None => None,
            },
        ),
{
    Json::object().with("kind", Json::text("inputs")).with("target", Json::text_or_null(target))
}

/// The report of the inputs of the files that a target names.
fn named_inputs(files: &Vec<FileIndex>, target: &str) -> (r: Envelope)
    ensures
        r@ == named_inputs_view(files@, target@),
{
    let mut results: Vec<Json> = Vec::new();
    let mut n: usize = 0;
    let mut first = String::new();
    let mut i: usize = 0;
    assert(json::item_views(results@) =~= rows_among(files_named(files@.take(0), target@)));
    while i < files.len()
        invariant
            i <= files@.len(),
            json::item_views(results@) == rows_among(files_named(files@.take(i as int), target@)),
            n == files_named(files@.take(i as int), target@).len(),
            n <= i,
            n > 0 ==> first@ == files_named(files@.take(i as int), target@)[0].path@,
        decreases files@.len() - i,
    {
        proof {
            text::lemma_take_step(files@, i as int);
        }
        let f = &files[i];
        if file_matches(f.path.as_str(), target) {
            let ghost was = files_named(files@.take(i as int), target@);
            proof {
                assert(was.push(*f).drop_last() =~= was);
            }
            input_rows(f, &mut results);
            if n == 0 {
                first = f.path.clone();
            }
            n = n + 1;
        }
        i = i + 1;
    }
    proof {
        text::lemma_take_all(files@);
    }
    assert(json::item_views(results@).len() == results@.len());
    let count = count_text(results.len());
    let summary = if n == 0 {
        cat3("no file matches `", target, "`")
    } else if n == 1 {
        cat3(count.as_str(), " inputs in ", first.as_str())
    } else {
        let many = count_text(n);
        let tail = cat(target, "`");
        cat5(
            count.as_str(),
            " inputs across ",
            many.as_str(),
            " files matching `",
            tail.as_str(),
        )
    };
    Envelope::new(query_json(Some(target)), results).with_summary(summary)
}

/// Hints at the scripts that have inputs of their own.
fn notes_on(scripts: &Table<String, ()>) -> (r: Vec<String>)
    ensures
        text::views(r@) == script_notes(scripts.keys()),
{
    let n = scripts.len();
    let mut out: Vec<String> = Vec::new();
    if n == 0 {
        assert(text::views(out@) =~= script_notes(scripts.keys()));
        return out;
    }
    let mut shown: Vec<String> = Vec::new();
    let mut i: usize = 0;
    while i < n && i < 6
        invariant
            i <= n,
            i <= 6,
            n == scripts.keys().len(),
            text::views(shown@) == scripts.keys().take(i as int),
        decreases n - i,
    {
        let ghost seen = text::views(shown@);
        shown.push(scripts.key(i).clone());
        proof {
            assert(text::views(shown@) =~= seen.push(scripts.keys()[i as int]));
            assert(scripts.keys().take(i + 1) =~= scripts.keys().take(i as int).push(
                scripts.keys()[i as int],
            ));
        }
        i = i + 1;
    }
    proof {
        if n <= 6 {
            text::lemma_take_all(scripts.keys());
        }
    }
    let list = join_with(&shown, ", ");
    let more = if n > 6 {
        let rest = count_text(n - 6);
        cat3(", … (+", rest.as_str(), " more)")
    } else {
        "".to_owned()
    };
    let verb = if n == 1 {
        " has its"
    } else {
        "s have their"
    };
    let digits = count_text(n);
    out.push(
        cat4(
            digits.as_str(),
            " script",
            verb,
            " own inputs (management commands, scripts/) — query one by name:",
        ),
    );
    out.push(cat3("pyq inputs <name> — e.g. ", list.as_str(), more.as_str()));
    assert(text::views(out@) =~= script_notes(scripts.keys()));
    out
}

/// The report of the inputs of the application.
fn app_inputs(files: &Vec<FileIndex>) -> (r: Envelope)
    ensures
        r@ == app_inputs_view(files@),
{
    let mut results: Vec<Json> = Vec::new();
    let mut scripts: Table<String, ()> = Table::new();
    let mut i: usize = 0;
    assert(json::item_views(results@) =~= rows_among(app_files(files@.take(0))));
    while i < files.len()
        invariant
            i <= files@.len(),
            json::item_views(results@) == rows_among(app_files(files@.take(i as int))),
            forall|n: Seq<char>| #[trigger]
                scripts.keys().contains(n) <==> script_named(files@.take(i as int), n),
        decreases files@.len() - i,
    {
        proof {
            text::lemma_take_step(files@, i as int);
        }
        let f = &files[i];
        if is_script_file(f.path.as_str(), f.has_main_guard) {
            if f.inputs.len() > 0 {
                scripts.insert(stem_name_of(f.path.as_str()), ());
            }
        } else if !is_test_file(f.path.as_str()) {
            let ghost was = app_files(files@.take(i as int));
            proof {
                assert(was.push(*f).drop_last() =~= was);
            }
            input_rows(f, &mut results);
        }
        i = i + 1;
    }
    proof {
        text::lemma_take_all(files@);
        let all = Set::new(|n: Seq<char>| script_named(files@, n));
        assert forall|n: Seq<char>| scripts.keys().to_set().contains(n) <==> all.contains(n) by {
            assert(scripts.keys().contains(n) <==> script_named(files@, n));
        }
        assert(scripts.keys().to_set() =~= all);
    }
    // Asking a table its length shows that its keys ascend.
    let _rows: usize = scripts.len();
    proof {
        table::lemma_in_turn(scripts.keys());
    }
    assert(json::item_views(results@).len() == results@.len());
    let count = count_text(results.len());
    let summary = cat(count.as_str(), " app inputs");
    let notes = notes_on(&scripts);
    Envelope::new(query_json(None), results).with_summary(summary).with_notes(notes)
}

/// What the application takes in from outside, or what the files take in that
/// `target` names.
pub fn query_inputs(files: &Vec<FileIndex>, target: Option<&str>) -> (r: Envelope)
    ensures
        r@ == match target {
            Some(t) => named_inputs_view(files@, t@),
            None => app_inputs_view(files@),
        },
{
    match target {
        Some(t) => named_inputs(files, t),
        None => app_inputs(files),
    }
}

/// What became of a patch target.
pub open spec fn patch_status(files: Seq<FileIndex>, aid: Option<Aid>, m: MockTarget) -> StatusView {
    mock::patched(files, aid, target_of(m))
}

/// The target of a patch.
pub open spec fn target_of(m: MockTarget) -> Option<Seq<char>> {
    match m.target {
        Some(t) => Some(t@),
        None => None,
    }
}

/// The target of a patch, for a label.
pub open spec fn shown_target(m: MockTarget) -> Seq<char> {
    match m.target {
        Some(t) => t@,
        None => "<dynamic>"@,
    }
}

/// Why a target is drifted, or cannot be decided.
pub open spec fn reason_of(s: StatusView) -> Option<Seq<char>> {
    match s {
        StatusView::Drifted(why) => Some(why),
        StatusView::Unverifiable(why) => Some(why),
        _ => None,
    }
}

/// The row of a patch, with its place in the order.
pub open spec fn patch_entry(
    files: Seq<FileIndex>,
    aid: Option<Aid>,
    path: Seq<char>,
    m: MockTarget,
) -> EntryView {
    let s = patch_status(files, aid, m);
    let loc = rows::place(path, m.pos.line, m.pos.col);
    let shown = shown_target(m);
    EntryView {
        rank: 0,
        first: s.tag() + loc,
        second: ""@,
        row: JsonView::object().with("loc"@, JsonView::Str(loc)).with(
            "label"@,
            JsonView::Str(
                match reason_of(s) {
                    Some(why) => s.tag() + " "@ + shown + " — "@ + why,
                    None => s.tag() + " "@ + shown,
                },
            ),
        ).with("target"@, json::text_or_null(target_of(m))).with(
            "status"@,
            JsonView::Str(s.tag()),
        ).with("group"@, JsonView::Str(s.tag())).with(
            "cols"@,
            json::texts(
                match reason_of(s) {
                    Some(why) => seq![shown, why],
                    None => seq![shown],
                },
            ),
        ),
    }
}

/// The rows of the patches of a file.
pub open spec fn patch_entries_in(
    files: Seq<FileIndex>,
    aid: Option<Aid>,
    f: FileIndex,
) -> Seq<EntryView> {
    Seq::new(f.mocks@.len(), |k: int| patch_entry(files, aid, f.path@, f.mocks@[k]))
}

/// The rows of the patches of some of the files.
pub open spec fn patch_entries(
    files: Seq<FileIndex>,
    aid: Option<Aid>,
    some: Seq<FileIndex>,
) -> Seq<EntryView>
    decreases some.len(),
{
    if some.len() == 0 {
        Seq::empty()
    } else {
        patch_entries(files, aid, some.drop_last()) + patch_entries_in(files, aid, some.last())
    }
}

/// The warnings of drifted patches.
pub open spec fn drift_warnings_in(
    files: Seq<FileIndex>,
    aid: Option<Aid>,
    path: Seq<char>,
    mocks: Seq<MockTarget>,
) -> Seq<Seq<char>>
    decreases mocks.len(),
{
    if mocks.len() == 0 {
        Seq::empty()
    } else {
        let before = drift_warnings_in(files, aid, path, mocks.drop_last());
        let m = mocks.last();
        match patch_status(files, aid, m) {
            StatusView::Drifted(why) => before.push(
                "drifted patch `"@ + shown_target(m) + "` ("@ + rows::place(
                    path,
                    m.pos.line,
                    m.pos.col,
                ) + ("): "@ + why),
            ),
            _ => before,
        }
    }
}

/// The warnings of the drifted patches of some of the files.
pub open spec fn drift_warnings(
    files: Seq<FileIndex>,
    aid: Option<Aid>,
    some: Seq<FileIndex>,
) -> Seq<Seq<char>>
    decreases some.len(),
{
    if some.len() == 0 {
        Seq::empty()
    } else {
        drift_warnings(files, aid, some.drop_last()) + drift_warnings_in(
            files,
            aid,
            some.last().path@,
            some.last().mocks@,
        )
    }
}

/// The report of patches.
pub open spec fn mock_view(files: Seq<FileIndex>, aid: Option<Aid>) -> EnvelopeView {
    let entries = patch_entries(files, aid, files);
    let warnings = drift_warnings(files, aid, files);
    let head = text::decimal(entries.len()) + " patch "@ + text::plural_of(
        entries.len(),
        "target"@,
    );
    EnvelopeView::of(
        JsonView::object().with("kind"@, JsonView::Str("mock-targets"@)).with(
            "target"@,
            JsonView::Null,
        ),
        rows::arranged(entries),
    ).summarized(
        if entries.len() == 0 {
            "no mock.patch targets"@
        } else if warnings.len() == 0 {
            head + ", none drifted"@
        } else {
            head + ", "@ + text::decimal(warnings.len()) + " drifted"@
        },
    ).warned(warnings)
}

/// The row of a patch, and its warning where it is drifted.
fn patch_json<T: CallGraphTy>(
    resolver: &PatchResolver,
    ctx: &Option<Ctx<T>>,
    path: &str,
    m: &MockTarget,
) -> (r: (Entry, Option<String>))
    requires
        resolver.wf(),
    ensures
        r.0@ == patch_entry(resolver.files@, mock::aid_of(*ctx), path@, *m),
        match patch_status(resolver.files@, mock::aid_of(*ctx), *m) {
            StatusView::Drifted(why) => r.1 is Some && (r.1->0)@ == "drifted patch `"@
                + shown_target(*m) + "` ("@ + rows::place(path@, m.pos.line, m.pos.col) + ("): "@
                + why),
            _ => r.1 is None,
        },
{
    let target: Option<&str> = match &m.target {
        Some(t) => Some(t.as_str()),
        None => None,
    };
    let status = resolver.resolve(target, ctx);
    let loc = loc_str(path, m.pos);
    let shown = match target {
        Some(t) => t,
        None => "<dynamic>",
    };
    let tag = status.tag();
    let reason: Option<&str> = match &status {
        Status::Drifted(why) => Some(why.as_str()),
        Status::Unverifiable(why) => Some(why.as_str()),
        _ => None,
    };
    let (label, cols) = match reason {
        Some(why) => (cat5(tag, " ", shown, " — ", why), two_texts(shown, why)),
        None => (cat3(tag, " ", shown), one_text(shown)),
    };
    let warning = match &status {
        Status::Drifted(why) => {
            let tail = cat("): ", why.as_str());
            Some(cat5("drifted patch `", shown, "` (", loc.as_str(), tail.as_str()))
        },
        _ => None,
    };
    let row = Json::object().with("loc", Json::text(loc.as_str())).with(
        "label",
        Json::Str(label),
    ).with("target", Json::text_or_null(target)).with("status", Json::text(tag)).with(
        "group",
        Json::text(tag),
    ).with("cols", cols);
    let first = cat(tag, loc.as_str());
    (Entry { rank: 0, first, second: "".to_owned(), row }, warning)
}

/// Adds the rows and warnings of the patches of a file.
fn enter_patches<T: CallGraphTy>(
    resolver: &PatchResolver,
    ctx: &Option<Ctx<T>>,
    f: &FileIndex,
    entries: &mut Vec<Entry>,
    warnings: &mut Vec<String>,
)
    requires
        resolver.wf(),
    ensures
        sort::each(final(entries)@) == sort::each(old(entries)@) + patch_entries_in(
            resolver.files@,
            mock::aid_of(*ctx),
            *f,
        ),
        text::views(final(warnings)@) == text::views(old(warnings)@) + drift_warnings_in(
            resolver.files@,
            mock::aid_of(*ctx),
            f.path@,
            f.mocks@,
        ),
{
    let ghost files = resolver.files@;
    let ghost aid = mock::aid_of(*ctx);
    let ghost before = sort::each(entries@);
    let ghost said = text::views(warnings@);
    let ghost all = patch_entries_in(files, aid, *f);
    let mut k: usize = 0;
    assert(before + all.take(0) =~= before);
    assert(said + drift_warnings_in(files, aid, f.path@, f.mocks@.take(0)) =~= said);
    while k < f.mocks.len()
        invariant
            k <= f.mocks@.len(),
            resolver.wf(),
            files == resolver.files@,
            aid == mock::aid_of(*ctx),
            all == patch_entries_in(files, aid, *f),
            sort::each(entries@) == before + all.take(k as int),
            text::views(warnings@) == said + drift_warnings_in(
                files,
                aid,
                f.path@,
                f.mocks@.take(k as int),
            ),
        decreases f.mocks@.len() - k,
    {
        proof {
            text::lemma_take_step(f.mocks@, k as int);
        }
        let ghost held = entries@;
        let ghost warned = text::views(warnings@);
        let ghost was = drift_warnings_in(files, aid, f.path@, f.mocks@.take(k as int));
        let (e, w) = patch_json(resolver, ctx, f.path.as_str(), &f.mocks[k]);
        entries.push(e);
        proof {
            sort::lemma_each_push(held, e);
            assert(all.take(k + 1) =~= all.take(k as int).push(all[k as int]));
            assert((before + all.take(k as int)).push(all[k as int]) =~= before + all.take(k + 1));
        }
        match w {
            Some(text) => {
                let ghost t = text@;
                warnings.push(text);
                proof {
                    assert(text::views(warnings@) =~= warned.push(t));
                    assert((said + was).push(t) =~= said + was.push(t));
                }
            },
            None => {},
        }
        k = k + 1;
    }
    proof {
        text::lemma_take_all(f.mocks@);
        assert(all.take(all.len() as int) =~= all);
    }
}

/// What became of the target of every patch. `ctx` helps to decide.
pub fn query_mock_targets<T: CallGraphTy>(files: &Vec<FileIndex>, ctx: &Option<Ctx<T>>) -> (r:
    Envelope)
    ensures
        r@ == mock_view(files@, mock::aid_of(*ctx)),
{
    let resolver = PatchResolver::build(files);
    let ghost aid = mock::aid_of(*ctx);
    let mut entries: Vec<Entry> = Vec::new();
    let mut warnings: Vec<String> = Vec::new();
    let mut i: usize = 0;
    assert(sort::each(entries@) =~= patch_entries(files@, aid, files@.take(0)));
    assert(text::views(warnings@) =~= drift_warnings(files@, aid, files@.take(0)));
    while i < files.len()
        invariant
            i <= files@.len(),
            resolver.wf(),
            resolver.files@ == files@,
            aid == mock::aid_of(*ctx),
            sort::each(entries@) == patch_entries(files@, aid, files@.take(i as int)),
            text::views(warnings@) == drift_warnings(files@, aid, files@.take(i as int)),
        decreases files@.len() - i,
    {
        proof {
            text::lemma_take_step(files@, i as int);
        }
        enter_patches(&resolver, ctx, &files[i], &mut entries, &mut warnings);
        i = i + 1;
    }
    proof {
        text::lemma_take_all(files@);
    }
    assert(sort::each(entries@).len() == entries@.len());
    assert(text::views(warnings@).len() == warnings@.len());
    let n = count_text(entries.len());
    let word = plural(entries.len(), "target");
    let head = cat3(n.as_str(), " patch ", word.as_str());
    let summary = if entries.len() == 0 {
        "no mock.patch targets".to_owned()
    } else if warnings.len() == 0 {
        cat(head.as_str(), ", none drifted")
    } else {
        let d = count_text(warnings.len());
        cat4(head.as_str(), ", ", d.as_str(), " drifted")
    };
    let query = Json::object().with("kind", Json::text("mock-targets")).with("target", Json::Null);
    Envelope::new(query, arrange(entries)).with_summary(summary).with_warnings(warnings)
}

} // verus!
