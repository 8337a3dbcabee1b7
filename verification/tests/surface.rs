use pyq::copies::file_again;
use pyq::extract::extract;
use pyq::import_report::query_imports;
use pyq::imports::{normalize_query, Graph};
use pyq::json::Json;
use pyq::model::FileIndex;
use pyq::output::{Channel, Envelope};
use pyq::resolve::{Resolver, SyntacticResolver};
use pyq::surface_reports::{file_matches, query_inputs};

const APP: &str = "from pkg.models import User, make_user\n\n\ndef main():\n    u = make_user(\"ada\")\n    admin = User(\"root\")\n    print(u, admin)\n\n\nif __name__ == \"__main__\":\n    main()\n";
const MODELS: &str = "class User:\n    def __init__(self, name):\n        self.name = name\n\n\ndef make_user(name):\n    return User(name)\n";
const CONFIG: &str = "import os\n\nDEBUG = os.getenv(\"DEBUG\")\nDB_URL = os.environ[\"DATABASE_URL\"]\nTIMEOUT = os.environ.get(\"TIMEOUT\", \"30\")\nKEY = \"SECRET\"\nSECRET = os.getenv(KEY)\n\ndef load():\n    with open(\"settings.ini\") as f:\n        return f.read()\n";
const CLI: &str = "import argparse\n\nimport click\n\n\ndef build():\n    parser = argparse.ArgumentParser()\n    return parser\n\n\ndef parse():\n    parser = build()\n    # options\n    parser.add_argument(\"-v\", \"--verbose\")\n    parser.add_argument(\"path\")\n    return parser\n\n\n@click.command()\n@click.option(\"--count\", default=1)\n@click.argument(\"name\")\ndef hello(count, name):\n    pass\n";
const SETTINGS: &str = "from pydantic_settings import BaseSettings\n\n\nclass Settings(BaseSettings):\n    db_url: str\n    api_key: str\n    debug = False\n";

fn sample() -> Vec<FileIndex> {
    vec![
        extract("app.py", APP),
        extract("config.py", CONFIG),
        extract("cli.py", CLI),
        extract("pkg/__init__.py", ""),
        extract("pkg/models.py", MODELS),
        extract("settings.py", SETTINGS),
    ]
}

fn texts(e: &Envelope, key: &str) -> Vec<String> {
    e.results.iter().map(|r| r.get_text(key).unwrap().to_string()).collect()
}

fn labels(e: &Envelope) -> Vec<String> {
    texts(e, "label")
}

fn locs(e: &Envelope) -> Vec<String> {
    texts(e, "loc")
}

#[test]
fn envelope_has_the_shared_shape() {
    let e = query_inputs(&sample(), None);
    assert_eq!(e.tool, "pyq");
    assert_eq!(e.query.get_text("kind"), Some("inputs"));
    assert_eq!(e.count, e.results.len());
}

#[test]
fn inputs_surfaces_env_files_args_and_settings() {
    let labels = labels(&query_inputs(&sample(), None));
    assert!(labels.contains(&"env DATABASE_URL".to_string()));
    assert!(labels.contains(&"env <dynamic>".to_string()));
    assert!(labels.contains(&"file settings.ini".to_string()));
    assert!(labels.contains(&"arg --verbose".to_string()));
    assert!(labels.contains(&"arg --count".to_string()));
    assert!(labels.contains(&"setting db_url".to_string()));
    assert!(!labels.contains(&"setting debug".to_string()));
}

#[test]
fn human_view_is_a_summary_line_then_results() {
    let shown = query_inputs(&sample(), None).render(Channel::Human);
    let first = shown.lines().next().unwrap_or_default();
    assert!(first.ends_with("inputs"), "summary line was: {first:?}");
    assert!(shown.contains("settings.ini"));
    assert!(shown.starts_with("11 app inputs\n\nenv (4)\n  config.py:3:9   DEBUG\n  config.py:4:10  DATABASE_URL\n  config.py:5:11  TIMEOUT\n  config.py:7:10  <dynamic>\n\nfile (1)\n  config.py:10:10  settings.ini\n\narg (4)\n  cli.py:14:5  --verbose\n"), "{shown}");
}

#[test]
fn a_script_answers_for_its_own_inputs() {
    let files = vec![
        extract("scripts/seed.py", "import os\nos.getenv(\"SEED\")\n"),
        extract("app/config.py", "import os\nos.getenv(\"APP\")\n"),
    ];
    let app = query_inputs(&files, None);
    assert_eq!(labels(&app), vec!["env APP".to_string()]);
    assert!(!app.notes.is_empty());
    assert!(app.notes[1].contains("seed"));
    let seed = query_inputs(&files, Some("seed"));
    assert_eq!(labels(&seed), vec!["env SEED".to_string()]);
    assert!(file_matches("scripts/seed.py", "seed"));
    assert!(!file_matches("scripts/reseed.py", "seed"));
}

#[test]
fn broken_file_still_answers_for_pre_error_statements() {
    let broken = extract(
        "mod.py",
        "import os\n\nKEY = os.getenv(\"EARLY_KEY\")\n\n\ndef alpha():\n    return KEY\n\n\ndef beta(:\n    pass\n",
    );
    let defs = SyntacticResolver::new(vec![file_again(&broken)]).definitions("alpha");
    assert!(defs.iter().any(|l| l.kind == "function"));
    let e = query_inputs(&vec![broken], None);
    assert!(labels(&e).iter().any(|l| l == "env EARLY_KEY"), "{:?}", labels(&e));
}

#[test]
fn imports_lists_edges_and_marks_external() {
    let e = query_imports(&sample(), None, false, false);
    assert_eq!(e.query.get_text("mode"), Some("all"));
    let labels = labels(&e);
    assert!(labels.iter().any(|l| l == "app → pkg.models"));
    assert!(labels.iter().any(|l| l == "config → os (ext)"));
}

#[test]
fn imports_forward_and_reverse_are_inverse_views() {
    let fwd = query_imports(&sample(), Some("app"), false, false);
    assert_eq!(fwd.query.get_text("mode"), Some("forward"));
    assert!(labels(&fwd).iter().any(|l| l == "imports pkg.models"));

    // Reverse accepts a file path too, and points back at the importer.
    let rev = query_imports(&sample(), Some("pkg/models.py"), true, false);
    assert_eq!(rev.query.get_text("mode"), Some("reverse"));
    assert!(labels(&rev).iter().any(|l| l == "imported by app"));
    assert!(locs(&rev).iter().any(|l| l.starts_with("app.py")));
}

#[test]
fn cycles_detects_the_mutual_import() {
    let files = vec![
        extract("pkg/__init__.py", ""),
        extract("pkg/a.py", "from pkg.b import b\n\ndef a():\n    return b\n"),
        extract("pkg/b.py", "from pkg.a import a\n\ndef b():\n    return a\n"),
    ];
    let e = query_imports(&files, None, false, true);
    assert_eq!(e.count, 1);
    let label = e.results[0].get_text("label").unwrap();
    assert!(label.starts_with("cycle:"));
    assert!(label.contains("pkg.a"));
    assert!(label.contains("pkg.b"));
    assert!(label.contains('→'), "cycle should use directed arrows: {label}");
    assert!(!label.contains('↔'));
}

#[test]
fn type_checking_and_deferred_imports_are_not_cycles() {
    let files = vec![
        extract("pkg/__init__.py", ""),
        extract("pkg/a.py", "from typing import TYPE_CHECKING\nif TYPE_CHECKING:\n    from pkg.b import B\n"),
        extract("pkg/b.py", "from pkg.a import x\n"),
        extract("pkg/c.py", "def f():\n    from pkg.d import g\n"),
        extract("pkg/d.py", "from pkg.c import f\n"),
    ];
    assert_eq!(query_imports(&files, None, false, true).count, 0);
}

#[test]
fn imports_reverse_distinguishes_typo_from_real_leaf() {
    let real = query_imports(&sample(), Some("config"), true, false);
    assert_eq!(real.query.get("found").unwrap().to_text(), "true");
    assert_eq!(real.query.get_text("target"), Some("config"));
    assert_eq!(real.count, 0);

    let typo = query_imports(&sample(), Some("config_typo"), true, false);
    assert_eq!(typo.query.get("found").unwrap().to_text(), "false");
    assert!(typo.summary.contains("not found"));
}

#[test]
fn imports_compose_across_source_root_spellings() {
    let files = vec![
        extract("alice/main/__init__.py", ""),
        extract("alice/main/models.py", "class X:\n    pass\n"),
        extract("alice/other/__init__.py", ""),
        extract("alice/other/views.py", "from main.models import X\n"),
    ];
    let literal = query_imports(&files, Some("main.models"), true, false);
    let derived = query_imports(&files, Some("alice.main.models"), true, false);
    assert_eq!(literal.query.get_text("target"), Some("alice.main.models"));
    assert_eq!(derived.query.get_text("target"), Some("alice.main.models"));
    assert_eq!(literal.count, derived.count);
    assert_eq!(literal.count, 1);
    assert!(locs(&literal).iter().any(|l| l.starts_with("alice/other/views.py")));
}

#[test]
fn sample_has_no_cycles() {
    assert_eq!(query_imports(&sample(), None, false, true).count, 0);
}

#[test]
fn a_module_is_asked_for_by_name_or_file() {
    assert_eq!(normalize_query("pkg/models.py"), "pkg.models");
    assert_eq!(normalize_query("pkg.models"), "pkg.models");
    let g = Graph::build(&sample());
    assert!(g.knows("pkg.models"));
    assert!(!g.knows("pkg.missing"));
    assert_eq!(g.file_of("pkg.models"), Some("pkg/models.py"));
    assert_eq!(g.resolve_module("models"), "pkg.models");
}

#[test]
fn a_cycle_of_three_is_one_cycle() {
    let files = vec![
        extract("a.py", "import b\n"),
        extract("b.py", "import c\n"),
        extract("c.py", "import a\n"),
        extract("d.py", "import a\n"),
    ];
    let cycles = Graph::build(&files).cycles();
    assert_eq!(cycles.len(), 1);
    let mut names = cycles[0].clone();
    names.sort();
    names.dedup();
    assert_eq!(names, vec!["a".to_string(), "b".to_string(), "c".to_string()]);
}

#[test]
fn query_values_keep_the_order_of_their_keys() {
    let j = Json::object().with("b", Json::Null).with("a", Json::count(1)).with("b", Json::Bool(false));
    assert_eq!(j.to_text(), "{\"a\":1,\"b\":false}");
    assert_eq!(j.get("c").is_none(), true);
}
