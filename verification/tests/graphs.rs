use pyq::callgraph::{CallGraph, Direction, GraphNode, SuperClass};
use pyq::canonical;
use pyq::cli::anchored;
use pyq::deadcode::{def_anchors, find, framework_entry_fqns, is_entrypoint_file, is_script_file, override_edges};
use pyq::describe;
use pyq::dynamic::{Coverage, Ledger};
use pyq::effects::{effects_of, query_effects};
use pyq::extract::extract;
use pyq::graph_reports::{query_graph, query_tests};
use pyq::hierarchy::Hierarchy;
use pyq::json::Json;
use pyq::mock::{Ctx, PatchResolver, Status};
use pyq::model::FileIndex;
use pyq::output::Envelope;
use pyq::recording::{GraphRecording, NeighborData, ReplayTy};
use pyq::resolve::{Loc, RecordedSites, UnifiedResolver};
use pyq::structure_reports::{query_deadcode, query_hierarchy};
use pyq::surface_reports::query_mock_targets;
use pyq::symbol_reports::query_callers;
use pyq::table::Table;
use pyq::tests_map::is_test_file;

/// The files of a project and what a type checker says of them.
struct Project {
    files: Vec<FileIndex>,
    rec: GraphRecording,
}

impl Project {
    fn new(sources: &[(&str, &str)]) -> Project {
        Project {
            files: sources.iter().map(|(path, source)| extract(path, source)).collect(),
            rec: GraphRecording {
                outgoing: Table::new(),
                incoming: Table::new(),
                resolve: Table::new(),
                supertypes: Table::new(),
            },
        }
    }

    fn file(&self, path: &str) -> &FileIndex {
        self.files.iter().find(|f| f.path == path).unwrap()
    }

    /// The callable of a name in a file.
    fn callable(&self, path: &str, name: &str) -> NeighborData {
        let d = self
            .file(path)
            .defs
            .iter()
            .find(|d| d.name == name && (d.signature.is_some() || d.kind == pyq::model::DefKind::Class))
            .unwrap();
        NeighborData {
            path: path.to_string(),
            offset: d.offset,
            line: d.pos.line,
            col: d.pos.col,
            name: name.to_string(),
            kind: if d.kind == pyq::model::DefKind::Class { "class" } else { "function" }.to_string(),
        }
    }

    /// One callable calls another. Where the callee is imported, it is its import
    /// that knows the caller.
    fn calls(mut self, from: (&str, &str), to: (&str, &str)) -> Project {
        let caller = self.callable(from.0, from.1);
        let callee = self.callable(to.0, to.1);
        let target = (callee.path.clone(), callee.offset);
        self.rec.outgoing.push_to((caller.path.clone(), caller.offset), callee);
        let mut known_at = target.clone();
        let mut seen: Vec<u32> = Vec::new();
        for d in &self.file(from.0).defs {
            if d.name == to.1 && d.kind == pyq::model::DefKind::Import {
                known_at = (from.0.to_string(), d.offset);
                seen.push(d.offset);
            }
        }
        for r in &self.file(from.0).refs {
            if r.name == to.1 {
                seen.push(r.offset);
            }
        }
        for offset in seen {
            self.rec.resolve.insert((from.0.to_string(), offset), Some(target.clone()));
        }
        self.rec.incoming.push_to(known_at, caller);
        self
    }

    /// A module calls a callable of its own.
    fn module_calls(mut self, path: &str, module: &str, name: &str) -> Project {
        let callee = self.callable(path, name);
        let caller = NeighborData {
            path: path.to_string(),
            offset: 0,
            line: 1,
            col: 1,
            name: module.to_string(),
            kind: "module".to_string(),
        };
        self.rec.incoming.push_to((path.to_string(), callee.offset), caller);
        let target = (path.to_string(), callee.offset);
        let seen: Vec<u32> =
            self.file(path).refs.iter().filter(|r| r.name == name).map(|r| r.offset).collect();
        for offset in seen {
            self.rec.resolve.insert((path.to_string(), offset), Some(target.clone()));
        }
        self
    }

    /// A class extends another, or one that is not of the project.
    fn extends(mut self, path: &str, class: &str, base: &str, at: Option<&str>) -> Project {
        let c = self.callable(path, class);
        let anchor = at.map(|p| {
            let b = self.callable(p, base);
            (b.path, b.offset)
        });
        self.rec
            .supertypes
            .push_to((c.path, c.offset), SuperClass { name: base.to_string(), anchor });
        self
    }

    fn graph(self) -> CallGraph<ReplayTy> {
        CallGraph::replay(self.files, self.rec)
    }
}

fn sample() -> CallGraph<ReplayTy> {
    Project::new(&[
        (
            "app.py",
            "from pkg.models import User, make_user\n\n\ndef main():\n    u = make_user(\"ada\")\n    admin = User(\"root\")\n    print(u, admin)\n\n\nif __name__ == \"__main__\":\n    main()\n",
        ),
        (
            "pkg/models.py",
            "class User:\n    def __init__(self, name):\n        self.name = name\n\n\ndef make_user(name):\n    return User(name)\n",
        ),
    ])
    .calls(("app.py", "main"), ("pkg/models.py", "make_user"))
    .calls(("app.py", "main"), ("pkg/models.py", "User"))
    .calls(("pkg/models.py", "make_user"), ("pkg/models.py", "User"))
    .module_calls("app.py", "app", "main")
    .graph()
}

fn fqns(nodes: &[GraphNode]) -> Vec<String> {
    nodes.iter().map(|n| n.fqn.clone()).collect()
}

fn holds(list: &[String], name: &str) -> bool {
    list.iter().any(|n| n == name)
}

#[test]
fn forward_closure_resolves_to_stable_fqns_across_files() {
    let closure = sample().closure("main", Direction::Forward, None);
    assert_eq!(closure.roots, vec!["app.main".to_string()]);
    let reached = fqns(&closure.nodes);
    assert!(holds(&reached, "pkg.models.make_user"), "{reached:?}");
    assert!(holds(&reached, "pkg.models.User"), "{reached:?}");
}

#[test]
fn reverse_closure_finds_transitive_callers() {
    let closure = sample().closure("User", Direction::Reverse, None);
    let reached = fqns(&closure.nodes);
    assert!(holds(&reached, "pkg.models.make_user"), "{reached:?}");
    assert!(holds(&reached, "app.main"), "transitive caller: {reached:?}");
}

#[test]
fn depth_one_keeps_only_direct_neighbours() {
    let g = sample();
    let direct = g.closure("User", Direction::Reverse, Some(1));
    assert!(direct.nodes.iter().all(|n| n.depth == 1));
    let reached = fqns(&direct.nodes);
    assert!(holds(&reached, "pkg.models.make_user"));
    assert!(holds(&reached, "app.main"));
    assert!(!holds(&reached, "app"), "depth-2 module caller dropped: {reached:?}");

    // Unbounded, the module's transitive reach is included.
    let full = fqns(&g.closure("User", Direction::Reverse, None).nodes);
    assert!(holds(&full, "app"), "transitive module caller: {full:?}");
}

#[test]
fn an_uncallable_name_yields_no_roots() {
    let closure = sample().closure("name", Direction::Forward, None);
    // `name` is a parameter/attribute, never a function or class def.
    assert!(closure.roots.is_empty(), "roots: {:?}", closure.roots);
    assert!(closure.nodes.is_empty());
}

#[test]
fn a_replayed_recording_gives_the_same_closures() {
    let live = sample();
    let rec = live.record();
    let warm = CallGraph::replay(
        vec![
            extract("app.py", "from pkg.models import User, make_user\n\n\ndef main():\n    u = make_user(\"ada\")\n    admin = User(\"root\")\n    print(u, admin)\n\n\nif __name__ == \"__main__\":\n    main()\n"),
            extract("pkg/models.py", "class User:\n    def __init__(self, name):\n        self.name = name\n\n\ndef make_user(name):\n    return User(name)\n"),
        ],
        rec,
    );
    for symbol in ["main", "User", "make_user", "pkg.models.User", "nothing"] {
        for dir in [Direction::Forward, Direction::Reverse] {
            let a = live.closure(symbol, dir, None);
            let b = warm.closure(symbol, dir, None);
            assert_eq!(a.roots, b.roots);
            assert_eq!(fqns(&a.nodes), fqns(&b.nodes));
        }
    }
    let callers = warm.caller_index();
    assert_eq!(
        callers.get(&"pkg.models.User".to_string()).unwrap().len(),
        2,
        "the two that call `User`"
    );
}

#[test]
fn what_is_reachable_counts_the_seeds_and_extra_edges() {
    let g = sample();
    let make_user = g.closure("make_user", Direction::Forward, Some(0)).roots;
    assert_eq!(make_user, vec!["pkg.models.make_user".to_string()]);
    let none: Table<String, Vec<(String, u32)>> = Table::new();
    let models = extract("pkg/models.py", "class User:\n    def __init__(self, name):\n        self.name = name\n\n\ndef make_user(name):\n    return User(name)\n");
    let at = models.defs.iter().find(|d| d.name == "make_user").unwrap().offset;
    let reached = g.reachable_from(&vec![("pkg/models.py".to_string(), at)], &none);
    assert!(reached.contains_key(&"pkg.models.make_user".to_string()));
    assert!(reached.contains_key(&"pkg.models.User".to_string()));
    assert!(!reached.contains_key(&"app.main".to_string()));
    let init = models.defs.iter().find(|d| d.name == "__init__").unwrap().offset;
    let mut extra: Table<String, Vec<(String, u32)>> = Table::new();
    extra.push_to("pkg.models.User".to_string(), ("pkg/models.py".to_string(), init));
    let more = g.reachable_from(&vec![("pkg/models.py".to_string(), at)], &extra);
    assert!(more.contains_key(&"pkg.models.User.__init__".to_string()));
}

#[test]
fn callers_via_ty_finds_the_call_site() {
    let app = extract("app.py", "from pkg.models import make_user\n\n\ndef main():\n    make_user(\"ada\")\n");
    let models = extract("pkg/models.py", "def make_user(name):\n    return name\n");
    let at = models.defs[0].offset;
    let mut calls: Table<(String, u32), Vec<Loc>> = Table::new();
    calls.insert(
        ("pkg/models.py".to_string(), at),
        vec![Loc {
            path: "app.py".to_string(),
            line: 5,
            col: 5,
            kind: "main".to_string(),
            role: "call",
            resolves_to: None,
        }],
    );
    let sites = RecordedSites { uses: Table::new(), calls };
    let resolver = UnifiedResolver::new(sites, vec![app, models]);
    let e = query_callers(&sample(), &resolver, "make_user", &Vec::new());
    assert_eq!(e.query.get_text("kind"), Some("callers"));
    // `make_user("ada")` is called inside app.py's `main`.
    assert!(e.results.iter().any(|r| r.get_text("loc").unwrap().starts_with("app.py")));
    assert_eq!(e.summary, "1 caller of `make_user`");
}

#[test]
fn the_graph_is_reported_forward_and_backward() {
    let g = sample();
    let none: Vec<String> = Vec::new();
    let e = query_graph(&g, "main", false, None, &none);
    assert_eq!(e.summary, "2 nodes reachable from `main`");
    assert_eq!(e.query.get("exhaustive").unwrap().to_text(), "true");
    let e = query_graph(&g, "make_user", true, Some(1), &none);
    assert_eq!(e.summary, "1 node statically reach `make_user`");
    assert_eq!(e.query.get_text("mode"), Some("reverse"));
    let e = query_graph(&g, "nope", true, None, &none);
    assert_eq!(e.warnings, vec!["no function or class named `nope` found".to_string()]);
    assert_eq!(e.query.get("exhaustive").unwrap().to_text(), "false");
}

fn ledger(effects: &[(&str, &str)], shapes: &[(&str, &[&str])]) -> Ledger {
    let mut seen: Table<(String, String), ()> = Table::new();
    for (owner, category) in effects {
        seen.insert((owner.to_string(), category.to_string()), ());
    }
    let mut types: Table<String, Vec<String>> = Table::new();
    for (owner, list) in shapes {
        types.insert(owner.to_string(), list.iter().map(|t| t.to_string()).collect());
    }
    Ledger {
        available: !effects.is_empty() || !shapes.is_empty(),
        effects: seen,
        shapes: types,
        coverage: Coverage {
            python: "3.12.0".to_string(),
            pytest_exit: Some(0),
            monitoring_available: true,
            hits: Table::new(),
        },
        pytest_exit: Some(0),
        warnings: Vec::new(),
    }
}

const CALC: &str = "import functools\n\n\n@functools.lru_cache\ndef add(a: int, b: int = 1) -> int:\n    \"\"\"Add two numbers.\"\"\"\n    return a + b\n\n\ndef total(xs):\n    s = 0\n    for x in xs:\n        s = add(s, x)\n    return s\n";
const TEST_CALC: &str =
    "from pkg.calc import total\n\n\ndef test_total():\n    assert total([1, 2, 3]) == 6\n";

fn calc() -> CallGraph<ReplayTy> {
    Project::new(&[
        ("pkg/__init__.py", ""),
        ("pkg/calc.py", CALC),
        ("tests/test_calc.py", TEST_CALC),
    ])
    .calls(("pkg/calc.py", "total"), ("pkg/calc.py", "add"))
    .calls(("tests/test_calc.py", "test_total"), ("pkg/calc.py", "total"))
    .graph()
}

fn with_role<'a>(e: &'a Envelope, role: &str) -> Vec<&'a Json> {
    e.results.iter().filter(|r| r.get_text("role") == Some(role)).collect()
}

fn names_with_role(e: &Envelope, role: &str) -> Vec<String> {
    with_role(e, role).iter().map(|r| r.get_text("fqn").unwrap().to_string()).collect()
}

#[test]
fn describe_packs_signature_decorators_doc_span_and_neighbourhood() {
    let g = calc();
    let led = ledger(&[], &[]);
    let e = describe::query(&g, "add", &led);
    assert_eq!(e.tool, "pyq");
    assert_eq!(e.query.get_text("kind"), Some("describe"));
    assert_eq!(e.query.get("roots").unwrap().to_text(), "[\"pkg.calc.add\"]");

    let defs = with_role(&e, "definition");
    assert_eq!(defs.len(), 1);
    let def = defs[0];
    assert_eq!(def.get_text("fqn"), Some("pkg.calc.add"));
    assert_eq!(def.get_text("node_kind"), Some("def"));
    assert_eq!(def.get_text("signature"), Some("(a: int, b: int = 1) -> int"));
    assert_eq!(def.get("decorators").unwrap().to_text(), "[\"functools.lru_cache\"]");
    assert_eq!(def.get_text("doc"), Some("Add two numbers."));
    assert_eq!(def.get("lines").unwrap().to_text(), "[5,7]");
    assert_eq!(def.get_text("loc"), Some("pkg/calc.py:5:5"));

    assert_eq!(names_with_role(&e, "caller"), vec!["pkg.calc.total".to_string()]);
    assert!(names_with_role(&e, "callee").is_empty());
    let tests = with_role(&e, "test");
    assert_eq!(tests.len(), 1);
    assert_eq!(tests[0].get_text("fqn"), Some("tests.test_calc.test_total"));
    assert_eq!(tests[0].get("depth").unwrap().to_text(), "2");

    let e = describe::query(&g, "total", &led);
    assert_eq!(names_with_role(&e, "callee"), vec!["pkg.calc.add".to_string()]);
    assert_eq!(names_with_role(&e, "caller"), vec!["tests.test_calc.test_total".to_string()]);
    assert_eq!(with_role(&e, "test")[0].get("depth").unwrap().to_text(), "1");
}

#[test]
fn describe_renders_a_class_with_bases_and_no_function_signature() {
    let g = Project::new(&[
        ("pkg/__init__.py", ""),
        (
            "pkg/models.py",
            "class Base:\n    pass\n\n\nclass User(Base):\n    \"\"\"A user.\"\"\"\n    def __init__(self, name):\n        self.name = name\n",
        ),
    ])
    .graph();
    let e = describe::query(&g, "User", &ledger(&[], &[]));
    let def = with_role(&e, "definition")[0];
    assert_eq!(def.get_text("node_kind"), Some("class"));
    assert_eq!(def.get_text("signature"), Some("(Base)"));
    assert_eq!(def.get_text("doc"), Some("A user."));
    assert!(def.get_text("label").unwrap().contains("class User(Base)"));
}

#[test]
fn unknown_symbol_is_zero_results_with_a_not_found_warning() {
    let g = Project::new(&[("pkg/m.py", "def real():\n    return 1\n")]).graph();
    let e = describe::query(&g, "nope", &ledger(&[], &[]));
    assert_eq!(e.count, 0);
    assert_eq!(e.query.get("roots").unwrap().to_text(), "[]");
    assert!(e.warnings.iter().any(|w| w.contains("no function or class named `nope`")));
}

#[test]
fn ambiguous_name_emits_a_definition_per_root_and_warns() {
    let g = Project::new(&[
        ("pkg/a.py", "def proc():\n    return 1\n"),
        ("pkg/b.py", "def proc():\n    return 2\n"),
    ])
    .graph();
    let e = describe::query(&g, "proc", &ledger(&[], &[]));
    let defs = names_with_role(&e, "definition");
    assert!(holds(&defs, "pkg.a.proc"), "{defs:?}");
    assert!(holds(&defs, "pkg.b.proc"), "{defs:?}");
    assert!(e.warnings.iter().any(|w| w.contains("ambiguous")), "{:?}", e.warnings);
}

#[test]
fn describe_shows_observed_return_type() {
    let g = Project::new(&[("pkg/calc.py", "def add(a, b):\n    return a + b\n")]).graph();
    let led = ledger(&[], &[("pkg.calc.add", &["float", "int"])]);
    let e = describe::query(&g, "add", &led);
    assert_eq!(
        with_role(&e, "definition")[0].get_text("observed_return"),
        Some("float | int")
    );
}

const OPS: &str = "\nimport os, socket\n\ndef confirmed_fs():\n    return open(os.devnull).read()\n\ndef dynamic_only_subprocess():\n    fn = getattr(os, \"sys\" + \"tem\")\n    fn(\"true\")\n\ndef static_only_net():\n    s = socket.socket()\n    s.close()\n\ndef reads_env():\n    return os.getenv(\"HOME\")\n";

#[test]
fn effects_labels_every_confidence_bucket() {
    let files = vec![extract("pkg/__init__.py", ""), extract("pkg/ops.py", OPS)];
    let led = ledger(
        &[
            ("pkg.ops.confirmed_fs", "fs"),
            ("pkg.ops.dynamic_only_subprocess", "subprocess"),
        ],
        &[],
    );
    let rows_of = |e: &Envelope| -> Vec<(String, String, String)> {
        e.results
            .iter()
            .map(|r| {
                (
                    r.get_text("confidence").unwrap_or("").to_string(),
                    r.get_text("effect").unwrap_or("").to_string(),
                    r.get_text("owner").unwrap_or("").to_string(),
                )
            })
            .collect()
    };
    let e = effects_of(&files, None, &led);
    let rows = rows_of(&e);
    let found = |c: &str, f: &str, o: &str| {
        rows.iter().any(|(a, b, d)| a == c && b == f && d == o)
    };
    assert!(found("observed", "subprocess", "pkg.ops.dynamic_only_subprocess"), "rows: {rows:?}");
    assert!(found("confirmed", "fs", "pkg.ops.confirmed_fs"), "rows: {rows:?}");
    assert!(found("predicted", "network", "pkg.ops.static_only_net"), "rows: {rows:?}");
    assert!(found("unverifiable", "env", "pkg.ops.reads_env"), "rows: {rows:?}");
    assert_eq!(e.query.get_text("kind"), Some("effects"));
    assert_eq!(rows_of(&effects_of(&files, None, &led)), rows);
}

#[test]
fn the_effects_of_a_symbol_are_those_of_what_it_reaches() {
    let g = Project::new(&[(
        "m.py",
        "import os\n\ndef outer():\n    inner()\n\ndef inner():\n    os.remove(\"x\")\n\ndef other():\n    os.mkdir(\"y\")\n",
    )])
    .calls(("m.py", "outer"), ("m.py", "inner"))
    .graph();
    let e = query_effects(&g, "outer", &ledger(&[], &[]));
    let owners: Vec<&str> = e.results.iter().map(|r| r.get_text("owner").unwrap()).collect();
    assert_eq!(owners, vec!["m.inner"]);
}

#[test]
fn tests_that_reach_a_symbol_come_with_their_path() {
    let e = query_tests(&calc(), "add", &Vec::new());
    assert_eq!(e.count, 1);
    assert!(e.results[0].to_text().contains("tests.test_calc.test_total"));
    let e = query_tests(&calc(), "nope", &Vec::new());
    assert_eq!(e.count, 0);
    assert!(!e.warnings.is_empty());
    assert!(is_test_file("tests/test_calc.py"));
    assert!(!is_test_file("pkg/calc.py"));
    assert!(is_test_file("pkg/calc_test.py"));
    assert!(!is_test_file("tests/test_models.pyi"));
    assert!(!is_test_file("tests/test_data"));
}

fn in_section(e: &Envelope, section: &str) -> Vec<String> {
    e.results
        .iter()
        .filter(|r| r.get_text("section") == Some(section))
        .map(|r| r.get_text("fqn").unwrap().to_string())
        .collect()
}

fn surface() -> CallGraph<ReplayTy> {
    Project::new(&[
        ("pkg/__init__.py", ""),
        (
            "pkg/core.py",
            "def normalize(s):\n    return s\n\n\ndef parse_name(s):\n    return normalize(s)\n\n\ndef parse_title(s):\n    return normalize(s)\n\n\ndef parse_tag(s):\n    return normalize(s)\n\n\ndef tested_public(s):\n    return parse_name(s)\n\n\ndef untested_public():\n    return 1\n\n\ndef _private():\n    return 2\n",
        ),
        (
            "pkg/api.py",
            "from rest_framework import serializers\nimport functools\n\n\nclass WidgetSerializer(serializers.Serializer):\n    pass\n\n\n@functools.cache\ndef cached_handler(request):\n    return request\n",
        ),
        (
            "tests/test_core.py",
            "import pytest\nfrom pkg.core import tested_public\n\n\n@pytest.mark.slow\ndef test_tested_public():\n    tested_public(\"x\")\n\n\n@pytest.mark.parametrize(\"x\", [1])\ndef test_param(x):\n    tested_public(x)\n\n\ndef not_a_test():\n    pass\n",
        ),
        (
            "tests/test_models.py",
            "import pytest\n\n\n@pytest.mark.django_db\nclass TestModels:\n    def test_one(self):\n        pass\n\n    def helper(self):\n        pass\n",
        ),
    ])
    .calls(("pkg/core.py", "parse_name"), ("pkg/core.py", "normalize"))
    .calls(("pkg/core.py", "parse_title"), ("pkg/core.py", "normalize"))
    .calls(("pkg/core.py", "parse_tag"), ("pkg/core.py", "normalize"))
    .calls(("pkg/core.py", "tested_public"), ("pkg/core.py", "parse_name"))
    .calls(("tests/test_core.py", "test_tested_public"), ("pkg/core.py", "tested_public"))
    .calls(("tests/test_core.py", "test_param"), ("pkg/core.py", "tested_public"))
    .extends("pkg/api.py", "WidgetSerializer", "Serializer", None)
    .graph()
}

#[test]
fn canonical_packs_most_used_untested_public_and_test_inventory() {
    let e = anchored(canonical::query(&surface(), &Vec::new()), "/work/canonical");
    assert_eq!(e.tool, "pyq");
    assert_eq!(e.query.get_text("kind"), Some("canonical"));
    assert!(e.query.get("root").is_some());
    assert!(e.query.get("target").is_some());

    let used = in_section(&e, "most-used");
    assert_eq!(used, vec!["pkg.core.normalize".to_string()]);
    let top = e.results.iter().find(|r| r.get_text("section") == Some("most-used")).unwrap();
    assert_eq!(top.get("uses").unwrap().to_text(), "3");

    let untested = in_section(&e, "untested-public");
    for fqn in ["pkg.core.parse_title", "pkg.core.parse_tag", "pkg.core.untested_public"] {
        assert!(holds(&untested, fqn), "`{fqn}` should be untested-public: {untested:?}");
    }
    for fqn in ["pkg.core.tested_public", "pkg.core.parse_name", "pkg.core.normalize"] {
        assert!(!holds(&untested, fqn), "`{fqn}` is test-reached: {untested:?}");
    }
    assert!(!holds(&untested, "pkg.core._private"));
    assert!(!untested.iter().any(|f| f.starts_with("tests.")));
    assert!(!holds(&untested, "pkg.api.WidgetSerializer"));
    assert!(!holds(&untested, "pkg.api.cached_handler"));

    let markers = |fqn: &str| {
        e.results
            .iter()
            .find(|r| r.get_text("section") == Some("test") && r.get_text("fqn") == Some(fqn))
            .map(|r| r.get("markers").unwrap().to_text())
    };
    assert_eq!(markers("tests.test_core.test_tested_public"), Some("[\"slow\"]".to_string()));
    assert_eq!(markers("tests.test_core.test_param"), Some("[\"parametrize\"]".to_string()));
    assert_eq!(
        markers("tests.test_models.TestModels.test_one"),
        Some("[\"django_db\"]".to_string())
    );
    let tests = in_section(&e, "test");
    assert!(!tests.iter().any(|k| k.ends_with("not_a_test")));
    assert!(!tests.iter().any(|k| k.ends_with("helper")));
}

#[test]
fn canonical_flags_its_static_boundaries() {
    let e = canonical::query(&surface(), &Vec::new());
    assert!(e.warnings.iter().any(|w| w.contains("untested-public")));
    assert!(e.warnings.iter().any(|w| w.contains("dynamic")));
    assert!(e.warnings.iter().any(|w| w.contains("pytestmark")));
}

#[test]
fn classifies_runnable_scripts_but_not_app_config() {
    // Runnable scripts.
    assert!(is_script_file("manage.py", false));
    assert!(is_script_file("app/management/commands/backfill.py", false));
    assert!(is_script_file("scripts/seed.py", false));
    assert!(is_script_file("bin/run.py", false));
    // A `__main__`-guarded module anywhere is a script.
    assert!(is_script_file("pkg/tool.py", true));

    // App config / launch surface is NOT a script — `inputs` shows it by
    // default. This is the distinction that separates this from
    // `is_entrypoint_file`, which lumps them together.
    assert!(!is_script_file("salessync/settings.py", false));
    assert!(!is_script_file("salessync/wsgi.py", false));
    assert!(!is_script_file("salessync/asgi.py", false));
    assert!(!is_script_file("api/urls.py", false));
    assert!(!is_script_file("api/migrations/0001_initial.py", false));
    assert!(!is_script_file("api/services/email_service.py", false));

    // A package marker is never a script, even under a commands/ tree.
    assert!(!is_script_file("app/management/commands/__init__.py", false));
}

#[test]
fn launch_files_are_entrypoints() {
    assert!(is_entrypoint_file("salessync/settings.py"));
    assert!(is_entrypoint_file("salessync/wsgi.py"));
    assert!(is_entrypoint_file("api/urls.py"));
    assert!(!is_entrypoint_file("api/services/email_service.py"));
}

#[test]
fn what_no_entrypoint_reaches_is_dead() {
    let p = Project::new(&[(
        "m.py",
        "__all__ = [\"exported\"]\n\ndef exported():\n    used()\n\ndef used():\n    pass\n\ndef dead():\n    pass\n\ndef scripted():\n    pass\n",
    )])
    .calls(("m.py", "exported"), ("m.py", "used"));
    let files: Vec<FileIndex> = p.files.iter().map(pyq::copies::file_again).collect();
    let g = p.graph();
    let found = find(&files, &g, &vec!["m.scripted".to_string()]);
    let names: Vec<&str> = found.dead.iter().map(|d| d.fqn.as_str()).collect();
    assert_eq!(names, vec!["m.dead"]);
    assert_eq!(found.total, 4);
    let e = query_deadcode(&g, &vec!["m.scripted".to_string()]);
    assert_eq!(e.count, 1);
}

fn animals() -> CallGraph<ReplayTy> {
    Project::new(&[(
        "zoo.py",
        "class Animal:\n    def speak(self):\n        pass\n\n    def eat(self):\n        pass\n\n\nclass Dog(Animal):\n    def speak(self):\n        pass\n\n\nclass Puppy(Dog):\n    def eat(self):\n        pass\n\n\nclass Robot(vendor.Machine):\n    def speak(self):\n        pass\n",
    )])
    .extends("zoo.py", "Dog", "Animal", Some("zoo.py"))
    .extends("zoo.py", "Puppy", "Dog", Some("zoo.py"))
    .extends("zoo.py", "Robot", "Machine", None)
    .graph()
}

#[test]
fn a_class_knows_its_family_and_its_overrides() {
    let g = animals();
    let files = vec![extract("zoo.py", "class Animal:\n    def speak(self):\n        pass\n\n    def eat(self):\n        pass\n\n\nclass Dog(Animal):\n    def speak(self):\n        pass\n\n\nclass Puppy(Dog):\n    def eat(self):\n        pass\n\n\nclass Robot(vendor.Machine):\n    def speak(self):\n        pass\n")];
    let h = Hierarchy::build(&files, &g);
    assert_eq!(h.supers("zoo.Puppy"), vec!["zoo.Dog".to_string(), "zoo.Animal".to_string()]);
    assert_eq!(h.subclasses("zoo.Animal"), vec!["zoo.Dog".to_string(), "zoo.Puppy".to_string()]);
    assert_eq!(h.overrides("zoo.Puppy", "eat"), vec!["zoo.Animal".to_string()]);
    assert_eq!(h.overridden_by("zoo.Animal", "speak"), vec!["zoo.Dog".to_string()]);
    assert!(h.has_external_base("zoo.Robot"));
    assert!(!h.has_external_ancestor("zoo.Puppy"));
    let e = query_hierarchy(&g, "Dog");
    assert!(e.count >= 3);
    assert!(e.render(pyq::output::Channel::Json).contains("zoo.Animal"));
}

fn patched() -> Vec<FileIndex> {
    vec![
        extract(
            "myapp/client.py",
            "import requests\n\nclass Client:\n    def get(self):\n        pass\n\nLIMIT = 3\n",
        ),
        extract(
            "tests/test_client.py",
            "from unittest.mock import patch\n\n@patch(\"myapp.client.requests\")\ndef test_a(m):\n    pass\n\n@patch(\"myapp.client.session\")\ndef test_b(m):\n    pass\n",
        ),
    ]
}

#[test]
fn a_patch_is_valid_drifted_or_not_checked() {
    let files = patched();
    let r = PatchResolver::build(&files);
    let none: Option<Ctx<ReplayTy>> = None;
    let tag = |t: Option<&str>| r.resolve(t, &none).tag();
    assert_eq!(tag(Some("myapp.client.requests")), "valid");
    assert_eq!(tag(Some("myapp.client.Client.get")), "valid");
    assert_eq!(tag(Some("myapp.client")), "valid");
    assert_eq!(tag(Some("os.path.exists")), "external");
    assert_eq!(tag(Some("myapp.client.LIMIT.real")), "unverifiable");
    assert_eq!(tag(None), "dynamic");
    assert_eq!(tag(Some("...")), "dynamic");
    // A builtin looked up through a module is never flagged, of whatever sort it is.
    for name in ["open", "ValueError", "UserWarning", "Ellipsis", "NotImplemented", "__import__", "__build_class__", "zip", "abs", "False"] {
        assert_eq!(tag(Some(&format!("myapp.client.{name}"))), "unverifiable", "{name}");
    }
    assert_eq!(tag(Some("myapp.client.ValueErrors")), "drifted");
    match r.resolve(Some("myapp.client.session"), &none) {
        Status::Drifted(why) => {
            assert_eq!(why, "`session` is not bound in module `myapp.client`")
        }
        other => panic!("{other:?}"),
    }
    let e = query_mock_targets(&files, &none);
    assert!(e.results.iter().any(|row| row.to_text().contains("drifted")));
}

fn chain() -> CallGraph<ReplayTy> {
    Project::new(&[(
        "m.py",
        "def a():\n    b()\n\ndef b():\n    c()\n    a()\n\ndef c():\n    d()\n\ndef d():\n    pass\n",
    )])
    .calls(("m.py", "a"), ("m.py", "b"))
    .calls(("m.py", "b"), ("m.py", "c"))
    .calls(("m.py", "b"), ("m.py", "a"))
    .calls(("m.py", "c"), ("m.py", "d"))
    .graph()
}

#[test]
fn a_limit_leaves_out_what_lies_deeper_and_nothing_else() {
    let g = chain();
    let all = g.closure("a", Direction::Forward, None);
    assert_eq!(fqns(&all.nodes), ["m.b", "m.c", "m.d"]);
    for limit in 0..5 {
        let some = g.closure("a", Direction::Forward, Some(limit));
        let near: Vec<String> =
            all.nodes.iter().filter(|n| n.depth <= limit).map(|n| n.fqn.clone()).collect();
        assert_eq!(fqns(&some.nodes), near);
    }
}

#[test]
fn each_node_is_reached_through_one_a_step_nearer() {
    let all = chain().closure("a", Direction::Forward, None);
    let via: Vec<(&str, usize)> = all.nodes.iter().map(|n| (n.via.as_str(), n.depth)).collect();
    assert_eq!(via, [("m.a", 1), ("m.b", 2), ("m.c", 3)]);
    let back = chain().closure("d", Direction::Reverse, None);
    let via: Vec<(&str, &str)> =
        back.nodes.iter().map(|n| (n.fqn.as_str(), n.via.as_str())).collect();
    assert_eq!(via, [("m.c", "m.d"), ("m.b", "m.c"), ("m.a", "m.b")]);
}

#[test]
fn what_overrides_a_live_method_is_live() {
    let p = Project::new(&[
        ("zoo.py", "class Animal:\n    def speak(self):\n        pass\n\nclass Dog(Animal):\n    def speak(self):\n        pass\n\n    def dig(self):\n        pass\n"),
        ("test_zoo.py", "from zoo import Animal, Dog\n\ndef test_it():\n    Dog()\n    Animal().speak()\n"),
    ])
    .extends("zoo.py", "Dog", "Animal", Some("zoo.py"))
    .calls(("test_zoo.py", "test_it"), ("zoo.py", "Animal"))
    .calls(("test_zoo.py", "test_it"), ("zoo.py", "Dog"))
    .calls(("test_zoo.py", "test_it"), ("zoo.py", "speak"));
    let files: Vec<FileIndex> = p.files.iter().map(pyq::copies::file_again).collect();
    let found = find(&files, &p.graph(), &Vec::new());
    let dead: Vec<&str> = found.dead.iter().map(|d| d.fqn.as_str()).collect();
    assert_eq!(dead, ["zoo.Dog.dig"]);
}

#[test]
fn a_caller_found_only_at_a_use_is_recorded_with_its_own_callers() {
    let sources = [("m.py", "def f():\n    pass\n"), ("u.py", "from m import f\n\nrun(lambda: f())\n")];
    let mut p = Project::new(&sources);
    let f = p.callable("m.py", "f");
    let at = |offset: u32, name: &str| NeighborData {
        path: "u.py".to_string(),
        offset,
        line: 3,
        col: 5,
        name: name.to_string(),
        kind: "callable".to_string(),
    };
    let used = p.file("u.py").refs.iter().find(|r| r.name == "f").unwrap().offset;
    p.rec.resolve.insert(("u.py".to_string(), used), Some((f.path.clone(), f.offset)));
    p.rec.incoming.push_to(("u.py".to_string(), used), at(21, "near"));
    p.rec.incoming.push_to(("u.py".to_string(), 21), at(90, "far"));
    let again: Vec<FileIndex> = p.files.iter().map(pyq::copies::file_again).collect();
    let live = p.graph();
    let back = live.closure("f", Direction::Reverse, None);
    assert_eq!(back.nodes.iter().map(|n| n.depth).collect::<Vec<_>>(), [1, 2]);
    let replayed = CallGraph::replay(again, live.record()).closure("f", Direction::Reverse, None);
    assert_eq!(fqns(&replayed.nodes), fqns(&back.nodes));
}

fn entered(all: &str) -> (Vec<String>, Vec<String>) {
    let source = format!(
        "__all__ = [{all}]\n\n@route\ndef view():\n    pass\n\ndef used():\n    pass\n\nTABLE = [used]\n\ndef plain():\n    pass\n"
    );
    let mut p = Project::new(&[("m.py", source.as_str())]);
    let used = p.callable("m.py", "used");
    let at = p.file("m.py").refs.iter().find(|r| r.name == "used").unwrap().offset;
    p.rec.resolve.insert(("m.py".to_string(), at), Some((used.path, used.offset)));
    let files: Vec<FileIndex> = p.files.iter().map(pyq::copies::file_again).collect();
    let g = p.graph();
    let hier = Hierarchy::build(&files, &g);
    let names = framework_entry_fqns(&files, &g, &hier, &Vec::new());
    let dead = find(&files, &g, &Vec::new()).dead.into_iter().map(|d| d.fqn).collect();
    ((0..names.len()).map(|i| names.key(i).clone()).collect(), dead)
}

#[test]
fn what_is_entered_is_never_dead_and_exports_do_not_count() {
    let (names, dead) = entered("");
    assert_eq!(names, ["m.used", "m.view"]);
    assert_eq!(dead, ["m.plain"]);
    let (names, dead) = entered("\"plain\"");
    assert_eq!(names, ["m.used", "m.view"]);
    assert!(dead.is_empty());
}

#[test]
fn only_overridden_methods_have_override_edges() {
    let p = Project::new(&[(
        "zoo.py",
        "class Animal:\n    def speak(self):\n        pass\n\n    def eat(self):\n        pass\n\nclass Dog(Animal):\n    def speak(self):\n        pass\n",
    )])
    .extends("zoo.py", "Dog", "Animal", Some("zoo.py"));
    let files: Vec<FileIndex> = p.files.iter().map(pyq::copies::file_again).collect();
    let hier = Hierarchy::build(&files, &p.graph());
    let edges = override_edges(&hier, &def_anchors(&files));
    assert_eq!(edges.len(), 1);
    assert_eq!(edges.key(0), "zoo.Animal.speak");
    assert_eq!(edges.value(0).len(), 1);
}
