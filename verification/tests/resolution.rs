use pyq::callgraph::{MemberCheck, Neighbor};
use pyq::extract::extract;
use pyq::lines::Lines;
use pyq::lookup::{
    attributed, dedupe, definitions, each_caller_once, exact_symbols, line_col, module_member,
    rel_path, Symbol,
};
use pyq::model::{FileIndex, Pos};
use pyq::resolve::{Loc, RecordedSites, Resolver, SyntacticResolver, UnifiedResolver};
use pyq::import_report::query_imports;
use pyq::surface_reports::query_inputs;
use pyq::symbol_reports::{loc_to_json, query_defs, query_refs};
use pyq::table::Table;

const APP: &str = "from pkg.models import User, make_user\n\n\ndef main():\n    u = make_user(\"ada\")\n    admin = User(\"root\")\n    print(u, admin)\n";
const MODELS: &str = "class User:\n    def __init__(self, name):\n        self.name = name\n\n\ndef make_user(name):\n    return User(name)\n";

fn sample() -> Vec<FileIndex> {
    vec![extract("app.py", APP), extract("pkg/models.py", MODELS)]
}

fn loc(path: &str, line: usize, col: usize, kind: &str, role: &'static str) -> Loc {
    Loc { path: path.to_string(), line, col, kind: kind.to_string(), role, resolves_to: None }
}

fn keys(locs: &[Loc]) -> Vec<String> {
    locs.iter().map(|l| l.key()).collect()
}

/// What a type checker says of `User` in the sample.
fn sites() -> RecordedSites {
    let files = sample();
    let mut uses: Table<(String, u32), Vec<Loc>> = Table::new();
    let mut calls: Table<(String, u32), Vec<Loc>> = Table::new();
    let at = files[1].defs.iter().find(|d| d.name == "User").unwrap().offset;
    uses.insert(
        ("pkg/models.py".to_string(), at),
        vec![
            loc("pkg/models.py", 1, 7, "write", "reference"),
            loc("app.py", 1, 24, "read", "reference"),
            loc("app.py", 6, 13, "read", "reference"),
            loc("pkg/models.py", 7, 12, "read", "reference"),
        ],
    );
    calls.insert(
        ("pkg/models.py".to_string(), at),
        vec![
            loc("app.py", 6, 13, "main", "call"),
            loc("pkg/models.py", 7, 12, "make_user", "call"),
        ],
    );
    RecordedSites { uses, calls }
}

fn unified() -> UnifiedResolver<RecordedSites> {
    UnifiedResolver::new(sites(), sample())
}

#[test]
fn defs_syntactic_finds_function_and_import_binding() {
    let e = query_defs(&unified(), "make_user");
    assert_eq!(e.query.get_text("kind"), Some("defs"));
    let locs: Vec<&str> = e.results.iter().map(|r| r.get_text("loc").unwrap()).collect();
    let labels: Vec<&str> = e.results.iter().map(|r| r.get_text("label").unwrap()).collect();
    // defined as a function in pkg/models.py
    assert!(locs.iter().any(|l| l.starts_with("pkg/models.py")));
    assert!(labels.iter().any(|l| *l == "function"));
    // bound by `from pkg.models import make_user` in app.py
    assert!(locs.iter().any(|l| l.starts_with("app.py")));
    assert!(labels.iter().any(|l| *l == "import"));
    let defs = SyntacticResolver::new(sample()).definitions("make_user");
    assert!(defs.iter().any(|l| l.path == "pkg/models.py" && l.kind == "function"));
    assert!(defs.iter().any(|l| l.path == "app.py" && l.kind == "import" && l.role == "binding"));
}

#[test]
fn dotted_symbol_resolves_by_last_component() {
    let dotted = query_defs(&unified(), "pkg.models.User");
    let bare = query_defs(&unified(), "User");
    assert_eq!(dotted.count, bare.count);
    assert!(dotted.count >= 1);
    // The qualified input is echoed back in the summary.
    assert!(dotted.summary.contains("pkg.models.User"));
    let places: Vec<&str> = dotted.results.iter().map(|r| r.get_text("loc").unwrap()).collect();
    assert_eq!(places, ["app.py:1:24", "pkg/models.py:1:7"]);
    assert_eq!(dotted.results[0].get_text("resolves_to"), Some("pkg/models.py:1:7"));
}

#[test]
fn a_qualifier_chooses_among_definitions_of_one_name() {
    let files = vec![
        extract("a.py", "class User:\n    pass\n"),
        extract("b.py", "class User:\n    pass\n"),
        extract("app.py", "from a import User\n"),
    ];
    let r = UnifiedResolver::new(RecordedSites { uses: Table::new(), calls: Table::new() }, files);
    assert_eq!(keys(&r.definitions("a.User")), ["a.py:1:7"]);
    assert_eq!(keys(&r.definitions("app.User")), ["app.py:1:15"]);
    assert_eq!(r.definitions("User").len(), 3);
    assert!(r.definitions("elsewhere.User").is_empty());
}

#[test]
fn defs_unified_tags_definition_and_binding() {
    let e = query_defs(&unified(), "make_user");
    let def = e.results.iter().find(|r| r.get_text("role") == Some("definition")).unwrap();
    assert!(def.get_text("loc").unwrap().starts_with("pkg/models.py"));
    let binding = e.results.iter().find(|r| r.get_text("role") == Some("binding")).unwrap();
    assert!(binding.get_text("loc").unwrap().starts_with("app.py"));
    // The binding resolves to the single canonical definition.
    assert_eq!(binding.get_text("resolves_to"), def.get_text("loc"));
}

#[test]
fn refs_via_ty_span_multiple_files() {
    let e = query_refs(&unified(), "User");
    // `User` is defined in pkg/models.py and used in app.py — cross-file.
    let locs: Vec<&str> = e.results.iter().map(|r| r.get_text("loc").unwrap()).collect();
    assert!(locs.iter().any(|l| l.starts_with("pkg/models.py")));
    assert!(locs.iter().any(|l| l.starts_with("app.py")));
    assert_eq!(e.summary, format!("{} refs of `User`", e.count));
}

#[test]
fn refs_include_every_call_site() {
    let r = unified();
    let refs = keys(&r.references("User"));
    let calls = r.callers("User");
    assert_eq!(calls.len(), 2);
    for call in keys(&calls) {
        assert!(refs.contains(&call), "{call} missing from {refs:?}");
    }
    let mut once = refs.clone();
    once.dedup();
    assert_eq!(once, refs);
}

#[test]
fn refs_includes_aliased_call_sites_that_callers_finds() {
    let core = "def make_widget():\n    return 1\n";
    let app = "from pkg.core import make_widget as mw\n\n\ndef main():\n    a = mw()\n    b = mw()\n    return a, b\n";
    let files = || vec![extract("pkg/core.py", core), extract("app.py", app)];
    let at = files()[0].defs.iter().find(|d| d.name == "make_widget").unwrap().offset;
    let mut uses: Table<(String, u32), Vec<Loc>> = Table::new();
    let mut calls: Table<(String, u32), Vec<Loc>> = Table::new();
    let spot = ("pkg/core.py".to_string(), at);
    uses.insert(spot.clone(), vec![loc("pkg/core.py", 1, 5, "write", "reference")]);
    calls.insert(
        spot,
        vec![loc("app.py", 5, 9, "main", "call"), loc("app.py", 6, 9, "main", "call")],
    );
    let r = UnifiedResolver::new(RecordedSites { uses, calls }, files());
    let refs = query_refs(&r, "make_widget");
    let ref_locs: Vec<&str> = refs.results.iter().map(|r| r.get_text("loc").unwrap()).collect();
    let callers = r.callers("make_widget");
    assert_eq!(callers.len(), 2);
    for call in keys(&callers) {
        assert!(ref_locs.contains(&call.as_str()), "callers ⊆ refs: {call} missing from refs");
    }
    // Both aliased `mw()` call sites are present as references.
    assert!(ref_locs.iter().any(|l| l.starts_with("app.py:5:")));
    assert!(ref_locs.iter().any(|l| l.starts_with("app.py:6:")));
}

#[test]
fn unknown_symbol_is_zero_results_not_an_error() {
    let e = query_defs(&unified(), "NoSuchSymbolAnywhere");
    assert_eq!(e.count, 0);
    assert_eq!(e.summary, "0 defs of `NoSuchSymbolAnywhere`");
    assert!(SyntacticResolver::new(sample()).definitions("NoSuchSymbolAnywhere").is_empty());
}

#[test]
fn a_place_is_a_row() {
    let mut l = loc("a.py", 3, 7, "read", "reference");
    assert_eq!(
        loc_to_json(&l).to_text(),
        "{\"cols\":[],\"group\":\"read\",\"label\":\"read\",\"loc\":\"a.py:3:7\",\"role\":\"reference\"}"
    );
    l.resolves_to = Some("b.py:1:1".to_string());
    assert!(loc_to_json(&l).to_text().contains("\"cols\":[\"→ b.py:1:1\"]"));
}

fn symbol(file: &str, name: &str, start: u32, range: (u32, u32)) -> Symbol {
    Symbol { file: file.to_string(), name: name.to_string(), start, range }
}

#[test]
fn a_qualified_name_means_the_symbol_in_its_scope() {
    let procs = || {
        vec![
            symbol("m.py", "proc", 20, (16, 40)),
            symbol("m.py", "proc", 70, (66, 90)),
            symbol("m.py", "process", 95, (91, 99)),
        ]
    };
    let bare = exact_symbols(&vec![procs()], "proc");
    assert_eq!(bare, vec![("m.py".to_string(), 20), ("m.py".to_string(), 70)]);
    let classes = vec![
        symbol("m.py", "A", 6, (0, 45)),
        symbol("m.py", "A", 6, (0, 200)),
        symbol("other.py", "A", 6, (0, 100)),
    ];
    let qualified = exact_symbols(&vec![classes, procs()], "A.proc");
    assert_eq!(qualified, vec![("m.py".to_string(), 20), ("m.py".to_string(), 70)]);
    let b = vec![symbol("m.py", "B", 56, (50, 95))];
    assert_eq!(exact_symbols(&vec![b, procs()], "B.proc"), vec![("m.py".to_string(), 70)]);
    assert!(exact_symbols(&vec![Vec::new(), procs()], "C.proc").is_empty());
}

#[test]
fn scopes_are_climbed_from_the_inside() {
    let outer = vec![symbol("m.py", "Outer", 6, (0, 300))];
    let inner = vec![symbol("m.py", "Inner", 30, (20, 100)), symbol("m.py", "Inner", 130, (120, 200))];
    let leaf = vec![symbol("m.py", "m", 150, (140, 160)), symbol("m.py", "m", 350, (340, 360))];
    assert_eq!(
        exact_symbols(&vec![outer, inner, leaf], "Outer.Inner.m"),
        vec![("m.py".to_string(), 150)]
    );
}

#[test]
fn definitions_resolve_to_the_real_class_not_the_import() {
    let at = sample()[1].defs.iter().find(|d| d.name == "User").unwrap().offset;
    let found = vec![symbol("pkg/models.py", "User", at, (0, 70)), symbol("x.py", "Users", 3, (0, 9))];
    let exact = exact_symbols(&vec![found], "User");
    assert_eq!(exact.len(), 1);
    let lines = Lines::new(MODELS);
    let p = line_col(&lines, exact[0].1);
    let defs = definitions(&vec![Some(loc(&exact[0].0, p.line, p.col, "def", "definition"))]);
    assert_eq!(defs.len(), 1, "got {defs:?}");
    assert!(defs[0].path.ends_with("models.py"));
    assert_eq!((defs[0].line, defs[0].col), (1, 7));
}

#[test]
fn references_span_files_via_the_import() {
    let refs = attributed(
        &vec![Some(loc("pkg/models.py", 1, 7, "def", "definition"))],
        &vec![vec![
            loc("pkg/models.py", 7, 12, "read", "reference"),
            loc("app.py", 6, 13, "read", "reference"),
        ]],
    );
    assert_eq!(keys(&refs), vec!["app.py:6:13".to_string(), "pkg/models.py:7:12".to_string()]);
    assert!(refs.iter().all(|l| l.resolves_to.is_none()));
}

#[test]
fn callers_name_the_enclosing_function() {
    let callers = attributed(
        &vec![Some(loc("pkg/models.py", 1, 7, "def", "definition"))],
        &vec![vec![
            loc("pkg/models.py", 7, 12, "make_user", "call"),
            loc("app.py", 6, 13, "main", "call"),
        ]],
    );
    let kinds: Vec<&str> = callers.iter().map(|l| l.kind.as_str()).collect();
    assert!(kinds.contains(&"main"), "got {callers:?}");
    assert!(kinds.contains(&"make_user"), "got {callers:?}");
}

#[test]
fn a_use_of_an_ambiguous_name_says_what_it_means() {
    let uses = attributed(
        &vec![Some(loc("a.py", 1, 5, "def", "definition")), None],
        &vec![
            vec![loc("m.py", 9, 1, "read", "reference"), loc("m.py", 10, 1, "read", "reference")],
            vec![loc("m.py", 2, 3, "read", "reference"), loc("m.py", 10, 1, "read", "reference")],
        ],
    );
    let seen: Vec<(String, Option<String>)> =
        uses.iter().map(|l| (l.key(), l.resolves_to.clone())).collect();
    assert_eq!(
        seen,
        vec![
            ("m.py:2:3".to_string(), None),
            ("m.py:9:1".to_string(), Some("a.py:1:5".to_string())),
            ("m.py:10:1".to_string(), Some("a.py:1:5".to_string())),
        ]
    );
}

#[test]
fn places_come_once_in_the_order_of_their_numbers() {
    let tidy = dedupe(vec![
        loc("a.py", 10, 1, "x", "reference"),
        loc("a.py", 9, 1, "y", "reference"),
        loc("a.py", 10, 1, "z", "reference"),
        loc("a", 50, 1, "w", "reference"),
    ]);
    let kinds: Vec<&str> = tidy.iter().map(|l| l.kind.as_str()).collect();
    assert_eq!(kinds, vec!["w", "y", "x"]);
}

#[test]
fn ty_refs_honor_root_scoping() {
    let mut scope: Table<String, ()> = Table::new();
    scope.insert("/w/pkg/models.py".to_string(), ());
    assert_eq!(
        rel_path(&"/w/pkg/models.py".to_string(), &scope, "/w/pkg"),
        Some("models.py".to_string())
    );
    assert_eq!(rel_path(&"/w/app.py".to_string(), &scope, "/w/pkg"), None);
    let all: Table<String, ()> = Table::new();
    assert_eq!(rel_path(&"/w/app.py".to_string(), &all, "/w"), Some("app.py".to_string()));
    assert_eq!(
        rel_path(&"/lib/x.py".to_string(), &all, "/w"),
        Some("/lib/x.py".to_string())
    );
    assert_eq!(rel_path(&"/wx/a.py".to_string(), &all, "/w"), Some("/wx/a.py".to_string()));
}

#[test]
fn offsets_become_lines_and_columns() {
    let lines = Lines::new("é = 1\nname\n");
    assert_eq!(line_col(&lines, 0), Pos { line: 1, col: 1 });
    assert_eq!(line_col(&lines, 1), Pos { line: 1, col: 1 });
    assert_eq!(line_col(&lines, 2), Pos { line: 1, col: 2 });
    assert_eq!(line_col(&lines, 7), Pos { line: 2, col: 1 });
    assert_eq!(line_col(&lines, 9), Pos { line: 2, col: 3 });
    assert_eq!(line_col(&lines, 99), Pos { line: 3, col: 1 });
}

#[test]
fn a_caller_is_kept_once() {
    let nb = |offset: u32, name: &str| Neighbor {
        path: "m.py".to_string(),
        offset,
        line: 1,
        col: 1,
        name: name.to_string(),
        kind: "function",
    };
    let kept = each_caller_once(vec![nb(3, "a"), nb(9, "b"), nb(3, "c")]);
    let names: Vec<&str> = kept.iter().map(|n| n.name.as_str()).collect();
    assert_eq!(names, vec!["a", "b"]);
}

#[test]
fn only_a_module_is_looked_into() {
    let stub = "def sleep(secs: float) -> None: ...\n";
    assert_eq!(module_member("time.pyi", (0, 0), stub, "sleep"), MemberCheck::Present);
    assert_eq!(module_member("time.pyi", (0, 0), stub, "nap"), MemberCheck::Absent);
    assert_eq!(module_member("time.pyi", (4, 9), stub, "nap"), MemberCheck::Unknown);
    assert_eq!(module_member("time.so", (0, 0), stub, "nap"), MemberCheck::Unknown);
    assert_eq!(
        module_member("m.py", (0, 0), "class C:\n    def nap(self): ...\n", "nap"),
        MemberCheck::Absent
    );
}

// The query block is uniform across verbs: every one carries kind, and target
// (null where there's no single target).
#[test]
fn query_block_is_uniform_across_verbs() {
    for e in [
        query_refs(&unified(), "User"),
        query_defs(&unified(), "User"),
        query_inputs(&sample(), None),
        query_imports(&sample(), None, false, false),
    ] {
        assert!(e.query.get("kind").is_some(), "kind missing: {}", e.summary);
        assert!(e.query.get("target").is_some(), "target key missing (null ok): {}", e.summary);
    }
}

// `admin` is local to app.py's `main`: its binding is found by the facts of the file and
// asked for at its place, so a used local is not reported as unused.
#[test]
fn refs_finds_function_local_via_syntactic_fallback() {
    let files = sample();
    let at = files[0].defs.iter().find(|d| d.name == "admin").unwrap().offset;
    let mut uses: Table<(String, u32), Vec<Loc>> = Table::new();
    uses.insert(
        ("app.py".to_string(), at),
        vec![loc("app.py", 6, 5, "write", "reference"), loc("app.py", 7, 14, "read", "reference")],
    );
    let r = UnifiedResolver::new(RecordedSites { uses, calls: Table::new() }, files);
    let e = query_refs(&r, "admin");
    assert!(e.count >= 1, "a used local must not report 0");
    assert_eq!(keys(&r.references("admin")), ["app.py:6:5", "app.py:7:14"]);
    assert!(!SyntacticResolver::new(sample()).references("admin").is_empty());
}

// Uses by bare name miss what is reached by attribute; places that are resolved do not.
#[test]
fn syntactic_refs_warns_about_attribute_blind_spot() {
    let source = "class User:\n    def save(self):\n        pass\n\n\ndef keep(u):\n    u.save()\n";
    let files = || vec![extract("m.py", source)];
    assert!(SyntacticResolver::new(files()).references("save").is_empty());
    let at = files()[0].defs.iter().find(|d| d.name == "save").unwrap().offset;
    let mut calls: Table<(String, u32), Vec<Loc>> = Table::new();
    calls.insert(("m.py".to_string(), at), vec![loc("m.py", 7, 7, "keep", "call")]);
    let r = UnifiedResolver::new(RecordedSites { uses: Table::new(), calls }, files());
    let e = query_refs(&r, "save");
    assert_eq!(e.count, 1);
    assert_eq!(e.results[0].get_text("loc"), Some("m.py:7:7"));
    // Nothing is left out, so there is nothing to warn of.
    assert!(e.warnings.is_empty());
}
