use pyq::change_cov::{diff_files, hunk_new_range, parse_diff, query_change_cov, relativize};
use pyq::dynamic::{build_pythonpath, default_python, effects_in, envelope_of, parse_envelope, Coverage, Ledger, TraceOptions};
use pyq::json::Json;
use pyq::table::Table;

#[test]
fn a_ledger_becomes_an_envelope() {
    let raw = "{\"tool\":\"x\",\"query\":{\"kind\":\"trace\",\"driver\":\"pytest\"},\"summary\":\"2 effects\",\"results\":[{\"effect\":\"fs\"},{\"effect\":\"network\"}],\"warnings\":[\"w\",3]}";
    let e = parse_envelope(raw, Some(1)).unwrap();
    assert_eq!(e.tool, "pyq");
    assert_eq!(e.count, 2);
    assert_eq!(e.summary, "2 effects");
    assert_eq!(e.warnings, vec!["w".to_string()]);
    assert_eq!(e.query.to_text(), "{\"driver\":\"pytest\",\"kind\":\"trace\",\"pytest_exit\":1}");
    let e = parse_envelope("{}", None).unwrap();
    assert_eq!(e.query.to_text(), "null");
    assert_eq!(e.count, 0);
    assert!(parse_envelope("not json", Some(0)).is_none());
}

#[test]
fn a_signalled_run_has_no_exit_code() {
    let v = Json::object().with("query", Json::object().with("kind", Json::text("trace")));
    assert_eq!(envelope_of(&v, None).query.to_text(), "{\"kind\":\"trace\"}");
    assert_eq!(
        envelope_of(&v, Some(-2)).query.to_text(),
        "{\"kind\":\"trace\",\"pytest_exit\":-2}"
    );
}

#[test]
fn the_interpreter_is_the_named_one_or_python3() {
    assert_eq!(default_python(None), "python3");
    assert_eq!(default_python(Some("/v/bin/python".to_string())), "/v/bin/python");
    let o = TraceOptions::new("/r".to_string(), None);
    assert_eq!((o.root.as_str(), o.python.as_str()), ("/r", "python3"));
    assert!(o.pytest_args.is_empty());
}

#[test]
fn the_search_path_starts_with_the_sidecar() {
    assert_eq!(build_pythonpath("/s", "/r", ":", None), "/s:/r");
    assert_eq!(build_pythonpath("/s", "/r", ":", Some("")), "/s:/r");
    assert_eq!(build_pythonpath("/s", "/r", ";", Some("/x")), "/s;/r;/x");
}

#[test]
fn a_hunk_header_gives_the_new_range() {
    assert_eq!(hunk_new_range("@@ -1,2 +3,4 @@ def f"), Some((3, 4)));
    assert_eq!(hunk_new_range("@@ -1 +7 @@"), Some((7, 1)));
    assert_eq!(hunk_new_range("@@ -3,2 +2,0 @@"), Some((2, 0)));
    assert_eq!(hunk_new_range("@@ nonsense @@"), None);
}

const DIFF: &str = "diff --git a/pkg/ops.py b/pkg/ops.py\n--- a/pkg/ops.py\n+++ b/pkg/ops.py\n@@ -2 +2 @@ def f\n-    return x\n+    return x + 1\n@@ -5,0 +6,2 @@\n+a\n+b\ndiff --git a/gone.py b/gone.py\n--- a/gone.py\n+++ /dev/null\n@@ -1,3 +0,0 @@\n-x\n";

fn places() -> Table<String, String> {
    let mut t: Table<String, String> = Table::new();
    t.insert("pkg/ops.py".to_string(), "/repo/pkg/ops.py".to_string());
    t
}

fn changed() -> Table<(String, u32), ()> {
    parse_diff(DIFF, &places(), "/repo")
}

#[test]
fn a_diff_names_the_changed_lines() {
    let lines = changed();
    let mut keys: Vec<(String, u32)> = Vec::new();
    for i in 0..lines.len() {
        keys.push(lines.key(i).clone());
    }
    assert_eq!(
        keys,
        vec![
            ("pkg/ops.py".to_string(), 2),
            ("pkg/ops.py".to_string(), 6),
            ("pkg/ops.py".to_string(), 7),
        ]
    );
    assert_eq!(diff_files(DIFF), vec!["pkg/ops.py".to_string()]);
    assert_eq!(relativize("b/pkg/ops.py", &places(), "/repo/pkg"), Some("ops.py".to_string()));
    assert_eq!(relativize("b/pkg/ops.py", &places(), "/elsewhere"), None);
    assert_eq!(relativize("/dev/null", &places(), "/repo"), None);
}

fn ledger(monitoring: bool) -> Ledger {
    let mut hits: Table<(String, u32), Vec<String>> = Table::new();
    hits.insert(
        ("pkg/ops.py".to_string(), 2),
        vec!["tests/test_ops.py::test_covered".to_string()],
    );
    Ledger {
        available: true,
        effects: Table::new(),
        shapes: Table::new(),
        coverage: Coverage {
            python: "3.12.1".to_string(),
            pytest_exit: Some(0),
            monitoring_available: monitoring,
            hits,
        },
        pytest_exit: Some(0),
        warnings: Vec::new(),
    }
}

#[test]
fn change_coverage_splits_covered_and_uncovered() {
    let e = query_change_cov("HEAD", &changed(), &ledger(true));
    let status = |loc: &str| {
        e.results
            .iter()
            .find(|r| r.get_text("loc") == Some(loc))
            .and_then(|r| r.get_text("status"))
    };
    assert_eq!(status("pkg/ops.py:2"), Some("covered"));
    assert_eq!(status("pkg/ops.py:6"), Some("uncovered"));
    let covered = e.results.iter().find(|r| r.get_text("loc") == Some("pkg/ops.py:2")).unwrap();
    assert!(covered.get("tests").unwrap().to_text().contains("test_covered"));
    assert_eq!(
        e.summary,
        "change-coverage vs HEAD: 1/3 changed lines covered, 2 uncovered across 1 file(s)"
    );
}

#[test]
fn without_line_coverage_nothing_is_claimed() {
    let e = query_change_cov("HEAD", &changed(), &ledger(false));
    assert_eq!(e.count, 3);
    assert!(e.results.iter().all(|r| r.get_text("status") == Some("unknown")));
    assert_eq!(e.summary, "3 changed line(s); coverage unavailable on Python 3.12.1");
    assert_eq!(e.warnings.len(), 1);
    assert!(e.warnings[0].contains("ran under 3.12.1"), "{}", e.warnings[0]);
    let mut skipped = ledger(false);
    skipped.available = false;
    skipped.warnings = vec!["no pytest".to_string(), "skipped".to_string()];
    let e = query_change_cov("HEAD", &changed(), &skipped);
    assert_eq!(e.summary, "3 changed line(s); coverage unavailable");
    assert_eq!(e.warnings, ["no pytest; skipped"]);
}

#[test]
fn a_trace_shows_each_effect_once() {
    let raw = "{\"results\":[{\"owner\":\"m.f\",\"effect\":\"fs\"},{\"owner\":\"m.f\",\"effect\":\"fs\",\"at\":2},{\"owner\":\"m.a\",\"effect\":\"network\"},{\"owner\":\"m.g\"},{\"effect\":\"fs\"},{\"owner\":3,\"effect\":\"fs\"}]}";
    let seen = effects_in(&parse_envelope(raw, Some(0)).unwrap().results);
    assert_eq!(seen.len(), 2);
    assert!(seen.contains_key(&("m.f".to_string(), "fs".to_string())));
    assert!(seen.contains_key(&("m.a".to_string(), "network".to_string())));
    assert_eq!(effects_in(&Vec::new()).len(), 0);
}
