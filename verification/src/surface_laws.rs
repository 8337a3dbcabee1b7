//! What holds of the files that a query names, of the inputs that are reported, and of what
//! the configuration of a project sets.
use crate::config;
use crate::deadcode;
use crate::dynamic;
use crate::json::JsonView;
use crate::json;
use crate::live_laws;
use crate::model::{FileIndex, Input, InputKind};
use crate::name_laws;
use crate::rows;
use crate::surface_reports;
use crate::tests_map;
use crate::text;
use crate::walk;
use vstd::prelude::*;

verus! {

/// Whether texts can be the names on a path to a file.
pub open spec fn file_parts(parts: Seq<Seq<char>>) -> bool {
    &&& parts.len() > 0
    &&& name_laws::path_names(parts)
    &&& parts.last() != "."@
    &&& parts.last() != ".."@
}

proof fn lemma_final(parts: Seq<Seq<char>>)
    requires
        file_parts(parts),
    ensures
        text::final_component(text::join(parts, "/"@)) == Some(parts.last()),
{
    name_laws::law_base_name(parts);
    reveal_strlit("/");
    reveal_strlit(".");
    reveal_strlit("..");
    assert("/"@ =~= seq!['/']);
    assert("."@ =~= seq!['.']);
    assert(".."@ =~= seq!['.', '.']);
    let seps = seq!['/'];
    assert(seps[0] == '/');
    assert forall|i: int, k: int|
        0 <= i < parts.len() && 0 <= k < parts[i].len() implies !seps.contains(
        #[trigger] parts[i][k],
    ) by {
        assert(name_laws::path_name(parts[i]));
        assert(parts[i][k] != '/');
    }
    name_laws::law_split_undoes_join(parts, '/', seps);
    assert(name_laws::path_name(parts[parts.len() - 1]));
    assert(text::path_core(parts) == parts);
}

proof fn lemma_last_dot(stem: Seq<char>, ending: Seq<char>)
    requires
        ending.len() > 0,
        ending[0] == '.',
        forall|k: int| 1 <= k < ending.len() ==> #[trigger] ending[k] != '.',
    ensures
        text::last_index(stem + ending, '.') == Some(stem.len() as int),
{
    let s = stem + ending;
    live_laws::lemma_last_index(s, '.');
    assert(s[stem.len() as int] == '.');
    assert forall|k: int| stem.len() < k < s.len() implies #[trigger] s[k] != '.' by {
        assert(s[k] == ending[k - stem.len()]);
    }
}

/// A file is named by its path, by its name, by its name without the ending, and by the last
/// directories of its path with its name.
pub proof fn law_file_is_named(dirs: Seq<Seq<char>>, stem: Seq<char>, k: int)
    requires
        name_laws::path_names(dirs),
        name_laws::path_name(stem),
        0 <= k < dirs.len(),
    ensures
        ({
            let all = dirs.push(stem + ".py"@);
            let path = text::join(all, "/"@);
            &&& surface_reports::names_file(path, path)
            &&& surface_reports::names_file(path, stem + ".py"@)
            &&& surface_reports::names_file(path, stem)
            &&& surface_reports::names_file(path, text::join(all.skip(k), "/"@))
        }),
{
    let name = stem + ".py"@;
    let all = dirs.push(name);
    let path = text::join(all, "/"@);
    reveal_strlit(".py");
    reveal_strlit(".");
    reveal_strlit("..");
    reveal_strlit("/");
    assert(name.len() >= 4);
    assert(name_laws::path_name(name)) by {
        assert forall|i: int| 0 <= i < name.len() implies #[trigger] name[i] != '/' && name[i]
            != '\\' by {
            if i < stem.len() {
                assert(name[i] == stem[i]);
            } else {
                assert(name[i] == ".py"@[i - stem.len()]);
            }
        }
    }
    assert forall|i: int| 0 <= i < all.len() implies name_laws::path_name(#[trigger] all[i]) by {
        if i < dirs.len() {
            assert(name_laws::path_name(dirs[i]));
        }
    }
    assert(all.last() == name);
    lemma_final(all);
    assert(".py"@[0] == '.' && ".py"@[1] == 'p' && ".py"@[2] == 'y');
    lemma_last_dot(stem, ".py"@);
    assert(name.take(stem.len() as int) =~= stem);
    let tail = all.skip(k);
    let target = text::join(tail, "/"@);
    assert(tail.len() > 1);
    assert(text::within(target, "/"@)) by {
        let head = text::join(tail.drop_last(), "/"@);
        let i = head.len() as int;
        assert(target == head + "/"@ + tail.last());
        assert(target.subrange(i, i + 1) =~= "/"@);
        assert(text::occurs_at("/"@, target, i));
    }
    if k > 0 {
        let front = all.take(k);
        assert(all =~= front + tail);
        name_laws::lemma_join_at(front, tail, "/"@);
        let t = "/"@ + target;
        assert(path =~= text::join(front, "/"@) + t);
        assert(path.subrange(path.len() - t.len(), path.len() as int) =~= t);
    } else {
        assert(tail =~= all);
    }
}

/// A query with a slash in it names no file but those whose path it is or ends.
pub proof fn law_path_names_no_other(parts: Seq<Seq<char>>, target: Seq<char>, k: int)
    requires
        file_parts(parts),
        0 <= k < target.len(),
        target[k] == '/',
        surface_reports::names_file(text::join(parts, "/"@), target),
    ensures
        text::join(parts, "/"@) == target || text::ends(text::join(parts, "/"@), "/"@ + target),
{
    lemma_final(parts);
    let name = parts.last();
    assert(name_laws::path_name(parts[parts.len() - 1]));
    let stem = text::stem_name(text::join(parts, "/"@));
    if name == target {
        assert(name[k] != '/');
    }
    if stem == target {
        live_laws::lemma_last_index(name, '.');
        assert(stem[k] == name[k]);
        assert(name[k] != '/');
    }
}

/// The texts of the row of an input.
proof fn lemma_input_row(path: Seq<char>, i: Input)
    ensures
        surface_reports::input_row(path, i).get_text("loc"@) == Some(
            rows::place(path, i.pos.line, i.pos.col),
        ),
        surface_reports::input_row(path, i).get_text("label"@) == Some(
            surface_reports::input_kind(i.kind) + " "@ + i.value@,
        ),
        surface_reports::input_row(path, i).get_text("group"@) == Some(
            surface_reports::input_kind(i.kind),
        ),
{
    reveal_strlit("loc");
    reveal_strlit("label");
    reveal_strlit("group");
    reveal_strlit("cols");
    assert("loc"@.len() == 3 && "cols"@.len() == 4);
    assert("label"@[0] == 'l' && "group"@[0] == 'g');
    let r0 = JsonView::object();
    assert(json::tidy(r0));
    let v1 = JsonView::Str(rows::place(path, i.pos.line, i.pos.col));
    let r1 = r0.with("loc"@, v1);
    json::lemma_with(r0, "loc"@, v1);
    let v2 = JsonView::Str(surface_reports::input_kind(i.kind) + " "@ + i.value@);
    let r2 = r1.with("label"@, v2);
    json::lemma_with(r1, "label"@, v2);
    let v3 = JsonView::Str(surface_reports::input_kind(i.kind));
    let r3 = r2.with("group"@, v3);
    json::lemma_with(r2, "group"@, v3);
    let v4 = json::texts(seq![i.value@]);
    let r4 = r3.with("cols"@, v4);
    json::lemma_with(r3, "cols"@, v4);
    assert(surface_reports::input_row(path, i) == r4);
}

/// Whether rows have one of an input of a file: its place, its kind and its value.
pub open spec fn shows_input(list: Seq<JsonView>, path: Seq<char>, i: Input) -> bool {
    exists|m: int|
        0 <= m < list.len() && (#[trigger] list[m]).get_text("loc"@) == Some(
            rows::place(path, i.pos.line, i.pos.col),
        ) && list[m].get_text("label"@) == Some(
            surface_reports::input_kind(i.kind) + " "@ + i.value@,
        ) && list[m].get_text("group"@) == Some(surface_reports::input_kind(i.kind))
}

proof fn lemma_rows_among(files: Seq<FileIndex>, i: int, k: int)
    requires
        0 <= i < files.len(),
        0 <= k < files[i].inputs@.len(),
    ensures
        surface_reports::rows_among(files).contains(
            surface_reports::input_row(files[i].path@, files[i].inputs@[k]),
        ),
    decreases files.len(),
{
    let less = files.drop_last();
    let before = surface_reports::rows_among(less);
    let here = surface_reports::rows_in(files.last());
    let row = surface_reports::input_row(files[i].path@, files[i].inputs@[k]);
    if i < less.len() {
        assert(less[i] == files[i]);
        lemma_rows_among(less, i, k);
        let q = choose|q: int| 0 <= q < before.len() && before[q] == row;
        assert((before + here)[q] == row);
    } else {
        assert(here[k] == row);
        assert((before + here)[before.len() + k] == row);
    }
}

proof fn lemma_shown(list: Seq<JsonView>, path: Seq<char>, i: Input)
    requires
        list.contains(surface_reports::input_row(path, i)),
    ensures
        shows_input(list, path, i),
{
    lemma_input_row(path, i);
    let m = choose|m: int| 0 <= m < list.len() && list[m] == surface_reports::input_row(path, i);
    assert(list[m].get_text("loc"@) is Some);
}

proof fn lemma_files_named(files: Seq<FileIndex>, target: Seq<char>, i: int) -> (m: int)
    requires
        0 <= i < files.len(),
        surface_reports::names_file(files[i].path@, target),
    ensures
        0 <= m < surface_reports::files_named(files, target).len(),
        surface_reports::files_named(files, target)[m] == files[i],
    decreases files.len(),
{
    let less = files.drop_last();
    if i < less.len() {
        assert(less[i] == files[i]);
        lemma_files_named(less, target, i)
    } else {
        surface_reports::files_named(less, target).len() as int
    }
}

/// Every input of a file that a query names has a row.
pub proof fn law_inputs_of_a_named_file(
    files: Seq<FileIndex>,
    target: Seq<char>,
    i: int,
    k: int,
)
    requires
        0 <= i < files.len(),
        0 <= k < files[i].inputs@.len(),
        surface_reports::names_file(files[i].path@, target),
    ensures
        shows_input(
            surface_reports::named_inputs_view(files, target).results,
            files[i].path@,
            files[i].inputs@[k],
        ),
{
    let m = lemma_files_named(files, target, i);
    let list = surface_reports::files_named(files, target);
    lemma_rows_among(list, m, k);
    let results = surface_reports::named_inputs_view(files, target).results;
    assert(results =~= surface_reports::rows_among(list));
    lemma_shown(results, files[i].path@, files[i].inputs@[k]);
}

proof fn lemma_app_files(files: Seq<FileIndex>, i: int) -> (m: int)
    requires
        0 <= i < files.len(),
        surface_reports::app_file(files[i]),
    ensures
        0 <= m < surface_reports::app_files(files).len(),
        surface_reports::app_files(files)[m] == files[i],
    decreases files.len(),
{
    let less = files.drop_last();
    if i < less.len() {
        assert(less[i] == files[i]);
        lemma_app_files(less, i)
    } else {
        surface_reports::app_files(less).len() as int
    }
}

/// Every input of the application has a row: of a file that is neither a script nor one of
/// tests.
pub proof fn law_inputs_of_the_application(files: Seq<FileIndex>, i: int, k: int)
    requires
        0 <= i < files.len(),
        0 <= k < files[i].inputs@.len(),
        !deadcode::script_file(files[i].path@, files[i].has_main_guard),
        !tests_map::test_file(files[i].path@),
    ensures
        shows_input(
            surface_reports::app_inputs_view(files).results,
            files[i].path@,
            files[i].inputs@[k],
        ),
{
    let m = lemma_app_files(files, i);
    let list = surface_reports::app_files(files);
    lemma_rows_among(list, m, k);
    let results = surface_reports::app_inputs_view(files).results;
    assert(results =~= surface_reports::rows_among(list));
    lemma_shown(results, files[i].path@, files[i].inputs@[k]);
}

proof fn lemma_row_from(files: Seq<FileIndex>, row: JsonView) -> (r: (int, int))
    requires
        surface_reports::rows_among(files).contains(row),
    ensures
        0 <= r.0 < files.len(),
        0 <= r.1 < files[r.0].inputs@.len(),
        row == surface_reports::input_row(files[r.0].path@, files[r.0].inputs@[r.1]),
    decreases files.len(),
{
    let all = surface_reports::rows_among(files);
    let m = choose|m: int| 0 <= m < all.len() && all[m] == row;
    let less = files.drop_last();
    let before = surface_reports::rows_among(less);
    if m < before.len() {
        assert(before[m] == row);
        lemma_row_from(less, row)
    } else {
        (files.len() - 1, m - before.len())
    }
}

proof fn lemma_app_from(files: Seq<FileIndex>, m: int) -> (i: int)
    requires
        0 <= m < surface_reports::app_files(files).len(),
    ensures
        0 <= i < files.len(),
        surface_reports::app_files(files)[m] == files[i],
        surface_reports::app_file(files[i]),
    decreases files.len(),
{
    let less = files.drop_last();
    if m < surface_reports::app_files(less).len() {
        lemma_app_from(less, m)
    } else {
        files.len() - 1
    }
}

/// No input of a script or of a test is one of the application.
pub proof fn law_application_has_no_other_inputs(files: Seq<FileIndex>, row: JsonView) -> (r: (
    int,
    int,
))
    requires
        surface_reports::app_inputs_view(files).results.contains(row),
    ensures
        0 <= r.0 < files.len(),
        0 <= r.1 < files[r.0].inputs@.len(),
        !deadcode::script_file(files[r.0].path@, files[r.0].has_main_guard),
        !tests_map::test_file(files[r.0].path@),
        row == surface_reports::input_row(files[r.0].path@, files[r.0].inputs@[r.1]),
{
    let list = surface_reports::app_files(files);
    assert(surface_reports::app_inputs_view(files).results =~= surface_reports::rows_among(list));
    let (m, k) = lemma_row_from(list, row);
    let i = lemma_app_from(files, m);
    (i, k)
}

/// A file is a script just where its path says so or it has a block that runs where it is run
/// on its own. The `__init__` of a package is none.
pub proof fn law_script_files(parts: Seq<Seq<char>>, guarded: bool)
    requires
        file_parts(parts),
    ensures
        deadcode::script_file(text::join(parts, "/"@), guarded) <==> parts.last() != "__init__.py"@
            && (guarded || parts.last() == "manage.py"@ || parts[0] == "scripts"@ || parts[0]
            == "bin"@ || exists|k: int|
            0 < k < parts.len() && #[trigger] parts[k] == "commands"@ && parts[k - 1]
                == "management"@),
{
    name_laws::law_base_name(parts);
    name_laws::law_path_parts(parts);
    if deadcode::follows(parts, "management"@, "commands"@) {
        let k = choose|k: int|
            0 <= k < parts.len() - 1 && #[trigger] parts[k] == "management"@ && parts[k + 1]
                == "commands"@;
        assert(parts[k + 1] == "commands"@ && parts[k + 1 - 1] == "management"@);
    }
    assert forall|k: int|
        0 < k < parts.len() && #[trigger] parts[k] == "commands"@ && parts[k - 1]
            == "management"@ implies deadcode::follows(parts, "management"@, "commands"@) by {
        let m = k - 1;
        assert(parts[m] == "management"@ && parts[m + 1] == "commands"@);
    }
}

/// The files with the ending `.py` or `.pyi` are the ones of Python. A file that is called by
/// an ending alone is none.
pub proof fn law_python_files(dirs: Seq<Seq<char>>, stem: Seq<char>, ending: Seq<char>)
    requires
        name_laws::path_names(dirs),
        name_laws::path_name(stem + "."@ + ending),
        forall|k: int| 0 <= k < ending.len() ==> #[trigger] ending[k] != '.',
        ending.len() > 0,
    ensures
        walk::python_path(text::join(dirs.push(stem + "."@ + ending), "/"@)) <==> stem.len() > 0
            && (ending == "py"@ || ending == "pyi"@),
{
    let name = stem + "."@ + ending;
    let all = dirs.push(name);
    reveal_strlit(".");
    reveal_strlit("..");
    assert forall|i: int| 0 <= i < all.len() implies name_laws::path_name(#[trigger] all[i]) by {
        if i < dirs.len() {
            assert(name_laws::path_name(dirs[i]));
        }
    }
    assert(all.last() == name);
    assert(name[name.len() - 1] == ending[ending.len() - 1]);
    assert(name != "."@) by {
        assert(name.len() >= 2);
    }
    assert(name != ".."@) by {
        assert(".."@[".."@.len() - 1] == '.');
    }
    lemma_final(all);
    let tail = "."@ + ending;
    assert(name =~= stem + tail);
    assert forall|k: int| 1 <= k < tail.len() implies #[trigger] tail[k] != '.' by {
        assert(tail[k] == ending[k - 1]);
    }
    lemma_last_dot(stem, tail);
    assert(name.skip((stem.len() + 1) as int) =~= ending);
}

proof fn lemma_first_at(a: Seq<char>, c: char, b: Seq<char>)
    requires
        forall|k: int| 0 <= k < a.len() ==> #[trigger] a[k] != c,
    ensures
        text::first_index(a.push(c) + b, c) == Some(a.len() as int),
{
    let s = a.push(c) + b;
    live_laws::lemma_first_index(s, c);
    assert(s[a.len() as int] == c);
    let x = text::first_index(s, c)->0;
    if x < a.len() {
        assert(s[x] == a[x]);
    }
}

/// A console script `module:attr` names `module.attr`; one that goes on after the attribute
/// names the same. What has no colon names nothing.
pub proof fn law_script_target(module: Seq<char>, attr: Seq<char>, rest: Seq<char>)
    requires
        forall|k: int| 0 <= k < module.len() ==> #[trigger] module[k] != ':',
        forall|k: int| 0 <= k < attr.len() ==> #[trigger] attr[k] != '.',
    ensures
        config::script_target(module + ":"@ + attr) == Some(module + "."@ + attr),
        config::script_target(module + ":"@ + attr + "."@ + rest) == Some(module + "."@ + attr),
        config::script_target(module) is None,
{
    reveal_strlit(":");
    reveal_strlit(".");
    live_laws::lemma_first_index(module, ':');
    let s = module + ":"@ + attr;
    assert(s =~= module.push(':') + attr);
    lemma_first_at(module, ':', attr);
    assert(s.skip((module.len() + 1) as int) =~= attr);
    assert(s.take(module.len() as int) =~= module);
    live_laws::lemma_first_index(attr, '.');
    let t = module + ":"@ + attr + "."@ + rest;
    let more = attr.push('.') + rest;
    assert(t =~= module.push(':') + more);
    lemma_first_at(module, ':', more);
    assert(t.skip((module.len() + 1) as int) =~= more);
    assert(t.take(module.len() as int) =~= module);
    lemma_first_at(attr, '.', rest);
    assert(more.take(attr.len() as int) =~= attr);
}

proof fn lemma_targets_in(list: Seq<(Seq<char>, JsonView)>, k: int, s: Seq<char>, t: Seq<char>)
    requires
        0 <= k < list.len(),
        list[k].1 == JsonView::Str(s),
        config::script_target(s) == Some(t),
    ensures
        config::targets_in(list).contains(t),
    decreases list.len(),
{
    let less = list.drop_last();
    let before = config::targets_in(less);
    let now = config::targets_in(list);
    if k < less.len() {
        assert(less[k] == list[k]);
        lemma_targets_in(less, k, s, t);
        let q = choose|q: int| 0 <= q < before.len() && before[q] == t;
        assert(now[q] == t);
    } else {
        assert(now[before.len() as int] == t);
    }
}

/// Every console script that the configuration sets is read, under `project.scripts` and under
/// `tool.poetry.scripts`.
pub proof fn law_every_script_is_read(
    doc: JsonView,
    list: Seq<(Seq<char>, JsonView)>,
    k: int,
    s: Seq<char>,
    t: Seq<char>,
)
    requires
        config::at(config::at(Some(doc), "project"@), "scripts"@) == Some(JsonView::Obj(list))
            || config::at(config::at(config::at(Some(doc), "tool"@), "poetry"@), "scripts"@)
            == Some(JsonView::Obj(list)),
        0 <= k < list.len(),
        list[k].1 == JsonView::Str(s),
        config::script_target(s) == Some(t),
    ensures
        config::script_targets(doc).contains(t),
{
    lemma_targets_in(list, k, s, t);
    let a = config::harvested(config::at(config::at(Some(doc), "project"@), "scripts"@));
    let b = config::harvested(
        config::at(config::at(config::at(Some(doc), "tool"@), "poetry"@), "scripts"@),
    );
    if a.contains(t) {
        let q = choose|q: int| 0 <= q < a.len() && a[q] == t;
        assert((a + b)[q] == t);
    } else {
        let q = choose|q: int| 0 <= q < b.len() && b[q] == t;
        assert((a + b)[a.len() + q] == t);
    }
}

/// A path that pytest adds is read, unless it is the root of the project itself.
pub proof fn law_added_paths(list: Seq<Seq<char>>, p: Seq<char>)
    ensures
        config::added(list).contains(p) <==> list.contains(p) && p.len() > 0 && p != "."@ && p
            != "./"@,
    decreases list.len(),
{
    if list.len() > 0 {
        let less = list.drop_last();
        law_added_paths(less, p);
        text::lemma_push_contains(config::added(less), list.last());
        text::lemma_push_contains(less, list.last());
        assert(list =~= less.push(list.last()));
    }
}

/// The search path of a run has the tracer first, then the project, then what was set before.
pub proof fn law_search_path(
    sidecar: Seq<char>,
    root: Seq<char>,
    sep: Seq<char>,
    before: Seq<char>,
)
    ensures
        dynamic::search_path(sidecar, root, sep, None) == sidecar + sep + root,
        before.len() > 0 ==> dynamic::search_path(sidecar, root, sep, Some(before)) == sidecar
            + sep + root + sep + before,
        before.len() == 0 ==> dynamic::search_path(sidecar, root, sep, Some(before)) == sidecar
            + sep + root,
{
    reveal_with_fuel(text::join, 4);
    let two = seq![sidecar, root];
    let three = seq![sidecar, root, before];
    assert(three.drop_last() =~= two);
    assert(two.drop_last() =~= seq![sidecar]);
    assert(three.last() == before);
    assert(two.last() == root);
}

/// The scripts that the report on the application hints at are those with inputs of their own,
/// by the names of their files.
pub proof fn law_scripts_are_hinted_at(files: Seq<FileIndex>, name: Seq<char>)
    ensures
        surface_reports::script_named(files, name) <==> exists|i: int|
            0 <= i < files.len() && deadcode::script_file(
                (#[trigger] files[i]).path@,
                files[i].has_main_guard,
            ) && files[i].inputs@.len() > 0 && text::stem_name(files[i].path@) == name,
    decreases files.len(),
{
    if files.len() > 0 {
        let less = files.drop_last();
        law_scripts_are_hinted_at(less, name);
        assert(files[files.len() - 1] == files.last());
        if surface_reports::script_named(less, name) {
            let i = choose|i: int|
                0 <= i < less.len() && deadcode::script_file(
                    (#[trigger] less[i]).path@,
                    less[i].has_main_guard,
                ) && less[i].inputs@.len() > 0 && text::stem_name(less[i].path@) == name;
            assert(files[i] == less[i]);
        }
        if exists|i: int|
            0 <= i < files.len() && deadcode::script_file(
                (#[trigger] files[i]).path@,
                files[i].has_main_guard,
            ) && files[i].inputs@.len() > 0 && text::stem_name(files[i].path@) == name {
            let i = choose|i: int|
                0 <= i < files.len() && deadcode::script_file(
                    (#[trigger] files[i]).path@,
                    files[i].has_main_guard,
                ) && files[i].inputs@.len() > 0 && text::stem_name(files[i].path@) == name;
            if i < less.len() {
                assert(less[i] == files[i]);
            }
        }
    }
}

/// The kinds of inputs go by names of their own.
pub proof fn law_kinds_of_inputs_differ(a: InputKind, b: InputKind)
    ensures
        surface_reports::input_kind(a) == surface_reports::input_kind(b) ==> a == b,
{
    reveal_strlit("env");
    reveal_strlit("file");
    reveal_strlit("arg");
    reveal_strlit("setting");
    assert("env"@.len() == 3 && "file"@.len() == 4 && "arg"@.len() == 3 && "setting"@.len() == 7);
    assert("env"@[0] == 'e' && "arg"@[0] == 'a');
}

} // verus!
