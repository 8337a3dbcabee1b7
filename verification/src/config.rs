//! What a project's `pyproject.toml` says.
use crate::json::{texts_in, Json, JsonView};
use crate::json;
use crate::sort::reversed;
use crate::text::{cat3, chars_of, first_index_of, same, string_of};
use crate::text;
use vstd::prelude::*;

verus! {

/// A value as `toml` holds it.
#[verifier::external_type_specification]
#[verifier::external_body]
pub struct ExValue(toml::Value);

/// Why `toml` refuses a text.
#[verifier::external_type_specification]
#[verifier::external_body]
pub struct ExError(toml::de::Error);

/// What a `toml::Value` holds: texts, lists and tables. Numbers, truth values and
/// dates stand as null.
pub uninterp spec fn meant(v: toml::Value) -> JsonView;

/// What a text says, where it is a TOML document.
pub uninterp spec fn written(doc: Seq<char>) -> Option<JsonView>;

/// A `toml::Value`, one level opened.
enum Opened {
    Text(String),
    List(Vec<toml::Value>),
    Rows(Vec<(String, toml::Value)>),
    Other,
}

/// What values hold.
spec fn all_meant(s: Seq<toml::Value>) -> Seq<JsonView> {
    Seq::new(s.len(), |i: int| meant(s[i]))
}

/// What the values of rows hold, with their keys.
spec fn rows_meant(s: Seq<(String, toml::Value)>) -> Seq<(Seq<char>, JsonView)> {
    Seq::new(s.len(), |i: int| (s[i].0@, meant(s[i].1)))
}

/// `<toml::Table as FromStr>::from_str`: it succeeds just on a TOML document, and
/// the table, here as a `toml::Value`, holds what the document says.
#[verifier::external_body]
fn read(doc: &str) -> (r: Result<toml::Value, toml::de::Error>)
    ensures
        match r {
            Ok(v) => written(doc@) == Some(meant(v)),
            Err(_) => written(doc@) is None,
        },
{
    doc.parse::<toml::Table>().map(toml::Value::Table)
}

/// The variants of `toml::Value`: which of them a value is, with what it holds, the
/// rows of a table in the order that its map keeps.
#[verifier::external_body]
fn opened(v: toml::Value) -> (r: Opened)
    ensures
        match r {
            Opened::Text(s) => meant(v) == JsonView::Str(s@),
            Opened::List(items) => meant(v) == JsonView::Arr(all_meant(items@)),
            Opened::Rows(rows) => meant(v) == JsonView::Obj(rows_meant(rows@)),
            Opened::Other => meant(v) == JsonView::Null,
        },
{
    match v {
        toml::Value::String(s) => Opened::Text(s),
        toml::Value::Array(items) => Opened::List(items),
        toml::Value::Table(rows) => Opened::Rows(rows.into_iter().collect()),
        toml::Value::Integer(_) => Opened::Other,
        toml::Value::Float(_) => Opened::Other,
        toml::Value::Boolean(_) => Opened::Other,
        toml::Value::Datetime(_) => Opened::Other,
    }
}

/// A value of `toml` as a value of this library.
fn lifted(v: toml::Value) -> (r: Json)
    ensures
        r@ == meant(v),
    decreases meant(v),
{
    let ghost whole = meant(v);
    match opened(v) {
        Opened::Text(s) => Json::Str(s),
        Opened::List(items) => {
            assert(decreases_to!(whole => whole->Arr_0));
            let r = Json::Arr(lifted_items(items));
            proof {
                json::lemma_views(r);
            }
            r
        },
        Opened::Rows(rows) => {
            assert(decreases_to!(whole => whole->Obj_0));
            let r = Json::Obj(lifted_rows(rows));
            proof {
                json::lemma_views(r);
            }
            r
        },
        Opened::Other => Json::Null,
    }
}

/// Values of `toml` as values of this library.
fn lifted_items(items: Vec<toml::Value>) -> (r: Vec<Json>)
    ensures
        json::item_views(r@) == all_meant(items@),
    decreases all_meant(items@),
{
    let ghost all = all_meant(items@);
    let mut rest = reversed(items);
    let mut out: Vec<Json> = Vec::new();
    while rest.len() > 0
        invariant
            rest@.len() + out@.len() == all.len(),
            forall|k: int|
                0 <= k < rest@.len() ==> meant(#[trigger] rest@[k]) == all[all.len() - 1 - k],
            json::item_views(out@) == all.take(out@.len() as int),
            all == all_meant(items@),
        decreases rest@.len(),
    {
        match rest.pop() {
            Some(v) => {
                let ghost n = out@.len() as int;
                let ghost seen = out@;
                assert(meant(v) == all[n]);
                assert(decreases_to!(all => all[n]));
                out.push(lifted(v));
                assert(json::item_views(out@) =~= json::item_views(seen).push(all[n]));
                assert(all.take(n + 1) =~= all.take(n).push(all[n]));
            },
            None => {},
        }
    }
    assert(all.take(all.len() as int) =~= all);
    out
}

/// The rows of a table of `toml` as rows of this library.
fn lifted_rows(rows: Vec<(String, toml::Value)>) -> (r: Vec<(String, Json)>)
    ensures
        json::row_views(r@) == rows_meant(rows@),
    decreases rows_meant(rows@),
{
    let ghost all = rows_meant(rows@);
    let mut rest = reversed(rows);
    let mut out: Vec<(String, Json)> = Vec::new();
    while rest.len() > 0
        invariant
            rest@.len() + out@.len() == all.len(),
            forall|k: int|
                0 <= k < rest@.len() ==> ((#[trigger] rest@[k]).0@, meant(rest@[k].1))
                    == all[all.len() - 1 - k],
            json::row_views(out@) == all.take(out@.len() as int),
            all == rows_meant(rows@),
        decreases rest@.len(),
    {
        match rest.pop() {
            Some(row) => {
                let ghost n = out@.len() as int;
                let ghost seen = out@;
                assert((row.0@, meant(row.1)) == all[n]);
                assert(decreases_to!(all => all[n]));
                assert(decreases_to!(all[n] => all[n].1));
                let (key, value) = row;
                out.push((key, lifted(value)));
                assert(json::row_views(out@) =~= json::row_views(seen).push(all[n]));
                assert(all.take(n + 1) =~= all.take(n).push(all[n]));
            },
            None => {},
        }
    }
    assert(all.take(all.len() as int) =~= all);
    out
}

/// What a text says, where it is a TOML document.
pub fn parse(doc: &str) -> (r: Option<Json>)
    ensures
        match r {
            Some(j) => written(doc@) == Some(j@),
            None => written(doc@) is None,
        },
{
    match read(doc) {
        Ok(v) => Some(lifted(v)),
        Err(_) => None,
    }
}

/// What a value holds under a key, where there is a value.
pub open spec fn at(v: Option<JsonView>, key: Seq<char>) -> Option<JsonView> {
    match v {
        Some(j) => j.get(key),
        None => None,
    }
}

/// What a value holds under a key, where there is a value.
fn under<'a>(v: Option<&'a Json>, key: &str) -> (r: Option<&'a Json>)
    ensures
        match r {
            Some(j) => at(
                match v {
                    Some(w) => Some(w@),
                    None => None,
                },
                key@,
            ) == Some(j@),
            None => at(
                match v {
                    Some(w) => Some(w@),
                    None => None,
                },
                key@,
            ) is None,
        },
{
    match v {
        Some(j) => j.get(key),
        None => None,
    }
}

/// Whether a path adds a directory to search besides the root of the project.
pub open spec fn adds_root(path: Seq<char>) -> bool {
    path != "."@ && path != "./"@ && path.len() > 0
}

/// The paths that add a directory to search.
pub open spec fn added(paths: Seq<Seq<char>>) -> Seq<Seq<char>>
    decreases paths.len(),
{
    if paths.len() == 0 {
        Seq::empty()
    } else if adds_root(paths.last()) {
        added(paths.drop_last()).push(paths.last())
    } else {
        added(paths.drop_last())
    }
}

/// The directories that the `pythonpath` of `[tool.pytest.ini_options]` adds.
pub open spec fn pythonpath(doc: JsonView) -> Seq<Seq<char>> {
    match at(at(at(at(Some(doc), "tool"@), "pytest"@), "ini_options"@), "pythonpath"@) {
        Some(JsonView::Str(s)) => added(seq![s]),
        Some(JsonView::Arr(items)) => added(json::texts_among(items)),
        _ => Seq::empty(),
    }
}

/// The paths that add a directory to search.
fn only_added(paths: &Vec<String>) -> (r: Vec<String>)
    ensures
        text::views(r@) == added(text::views(paths@)),
{
    let ghost all = text::views(paths@);
    let mut out: Vec<String> = Vec::new();
    let mut i: usize = 0;
    assert(text::views(out@) =~= added(all.take(0)));
    while i < paths.len()
        invariant
            i <= paths@.len(),
            all == text::views(paths@),
            text::views(out@) == added(all.take(i as int)),
        decreases paths@.len() - i,
    {
        proof {
            text::lemma_take_step(all, i as int);
        }
        let p = paths[i].as_str();
        assert(p@ == all[i as int]);
        let empty = chars_of(p).len() == 0;
        if !same(p, ".") && !same(p, "./") && !empty {
            let ghost seen = text::views(out@);
            out.push(paths[i].clone());
            assert(text::views(out@) =~= seen.push(all[i as int]));
        }
        i = i + 1;
    }
    proof {
        text::lemma_take_all(all);
    }
    out
}

/// The directories that the `pythonpath` of `[tool.pytest.ini_options]` adds, one
/// or a list of them. The root of the project adds nothing.
pub fn pythonpath_of(doc: &Json) -> (r: Vec<String>)
    ensures
        text::views(r@) == pythonpath(doc@),
{
    let found = under(under(under(under(Some(doc), "tool"), "pytest"), "ini_options"), "pythonpath");
    match found {
        Some(Json::Str(s)) => {
            let mut one: Vec<String> = Vec::new();
            one.push(s.clone());
            assert(text::views(one@) =~= seq![s@]);
            only_added(&one)
        },
        Some(Json::Arr(items)) => {
            proof {
                json::lemma_views(*found->0);
            }
            let list = texts_in(items);
            only_added(&list)
        },
        _ => {
            let none: Vec<String> = Vec::new();
            assert(text::views(none@) =~= Seq::empty());
            none
        },
    }
}

/// The directories to search that a `pyproject.toml` declares for pytest. A text
/// that is no TOML document declares none.
pub fn pytest_pythonpath(doc: &str) -> (r: Vec<String>)
    ensures
        text::views(r@) == match written(doc@) {
            Some(j) => pythonpath(j),
            None => Seq::empty(),
        },
{
    match parse(doc) {
        Some(j) => pythonpath_of(&j),
        None => {
            let none: Vec<String> = Vec::new();
            assert(text::views(none@) =~= Seq::empty());
            none
        },
    }
}

/// The dotted name of what a script runs: `pkg.mod:func` and `pkg.mod:func.attr`
/// run `pkg.mod.func`.
pub open spec fn script_target(s: Seq<char>) -> Option<Seq<char>> {
    match text::first_index(s, ':') {
        None => None,
        Some(i) => {
            let attr = s.skip(i + 1);
            let func = match text::first_index(attr, '.') {
                Some(j) => attr.take(j),
                None => attr,
            };
            Some(s.take(i) + "."@ + func)
        },
    }
}

/// The dotted name of what a script runs.
fn target_of(s: &str) -> (r: Option<String>)
    ensures
        match r {
            Some(t) => script_target(s@) == Some(t@),
            None => script_target(s@) is None,
        },
{
    let cs = chars_of(s);
    match first_index_of(&cs, ':') {
        None => None,
        Some(i) => {
            let module = string_of(&cs, 0, i);
            let n: usize = cs.len();
            let attr = string_of(&cs, i + 1, n);
            proof {
                assert(module@ =~= s@.take(i as int));
                assert(attr@ =~= s@.skip(i + 1));
            }
            let rest = chars_of(attr.as_str());
            let func = match first_index_of(&rest, '.') {
                Some(j) => string_of(&rest, 0, j),
                None => attr,
            };
            assert(func@ =~= match text::first_index(s@.skip(i + 1), '.') {
                Some(j) => s@.skip(i + 1).take(j),
                None => s@.skip(i + 1),
            });
            Some(cat3(module.as_str(), ".", func.as_str()))
        },
    }
}

/// What the scripts of a table run.
pub open spec fn targets_in(rows: Seq<(Seq<char>, JsonView)>) -> Seq<Seq<char>>
    decreases rows.len(),
{
    if rows.len() == 0 {
        Seq::empty()
    } else {
        let before = targets_in(rows.drop_last());
        match rows.last().1 {
            JsonView::Str(s) => match script_target(s) {
                Some(t) => before.push(t),
                None => before,
            },
            _ => before,
        }
    }
}

/// What the scripts of a table run, where there is one.
pub open spec fn harvested(table: Option<JsonView>) -> Seq<Seq<char>> {
    match table {
        Some(JsonView::Obj(rows)) => targets_in(rows),
        _ => Seq::empty(),
    }
}

/// What the scripts of `[project.scripts]` and `[tool.poetry.scripts]` run.
pub open spec fn script_targets(doc: JsonView) -> Seq<Seq<char>> {
    harvested(at(at(Some(doc), "project"@), "scripts"@)) + harvested(
        at(at(at(Some(doc), "tool"@), "poetry"@), "scripts"@),
    )
}

/// Adds what the scripts of a table run.
fn harvest(out: &mut Vec<String>, table: Option<&Json>)
    ensures
        text::views(final(out)@) == text::views(old(out)@) + harvested(
            match table {
                Some(j) => Some(j@),
                None => None,
            },
        ),
{
    let ghost before = text::views(out@);
    match table {
        Some(Json::Obj(rows)) => {
            proof {
                json::lemma_views(*table->0);
            }
            let ghost all = json::row_views(rows@);
            let mut i: usize = 0;
            assert(before + targets_in(all.take(0)) =~= before);
            while i < rows.len()
                invariant
                    i <= rows@.len(),
                    all == json::row_views(rows@),
                    text::views(out@) == before + targets_in(all.take(i as int)),
                decreases rows@.len() - i,
            {
                proof {
                    text::lemma_take_step(all, i as int);
                    json::lemma_views(rows@[i as int].1);
                    assert(all[i as int].1 == rows@[i as int].1@);
                }
                if let Json::Str(s) = &rows[i].1 {
                    if let Some(t) = target_of(s.as_str()) {
                        let ghost seen = text::views(out@);
                        let ghost was = targets_in(all.take(i as int));
                        out.push(t);
                        proof {
                            assert(text::views(out@) =~= seen.push(t@));
                            assert((before + was).push(t@) =~= before + was.push(t@));
                        }
                    }
                }
                i = i + 1;
            }
            proof {
                text::lemma_take_all(all);
            }
        },
        _ => {
            assert(before + Seq::<Seq<char>>::empty() =~= before);
        },
    }
}

/// What the scripts of `[project.scripts]` and `[tool.poetry.scripts]` run, as
/// dotted names.
pub fn script_targets_of(doc: &Json) -> (r: Vec<String>)
    ensures
        text::views(r@) == script_targets(doc@),
{
    let mut out: Vec<String> = Vec::new();
    assert(text::views(out@) =~= Seq::empty());
    harvest(&mut out, under(under(Some(doc), "project"), "scripts"));
    assert(text::views(out@) =~= harvested(at(at(Some(doc@), "project"@), "scripts"@)));
    harvest(&mut out, under(under(under(Some(doc), "tool"), "poetry"), "scripts"));
    out
}

/// What the console scripts that a `pyproject.toml` declares run, as dotted names.
/// A text that is no TOML document declares none.
pub fn console_script_targets(doc: &str) -> (r: Vec<String>)
    ensures
        text::views(r@) == match written(doc@) {
            Some(j) => script_targets(j),
            None => Seq::empty(),
        },
{
    match parse(doc) {
        Some(j) => script_targets_of(&j),
        None => {
            let none: Vec<String> = Vec::new();
            assert(text::views(none@) =~= Seq::empty());
            none
        },
    }
}

} // verus!
