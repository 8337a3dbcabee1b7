use pyq::cli::{anchored, channel_for, check_symbol, help_menu, query_index, query_index_clean, tests_query, use_color, TestsQuery};
use pyq::channel::Build;
use pyq::json::Json;
use pyq::output::{render_result_line, Channel, Envelope};
use pyq::parse_json::parse;

#[test]
fn renders_loc_and_label() {
    let r = Json::object().with("loc", Json::text("a.py:1:1")).with("label", Json::text("fs open"));
    assert_eq!(render_result_line(&r), "a.py:1:1  fs open");
}

#[test]
fn renders_label_without_loc() {
    // A runtime-only observation has no source location but still reads as
    // its label, not a JSON dump.
    let r = Json::object()
        .with("label", Json::text("dynamic-only subprocess  pkg.ops.f"))
        .with("owner", Json::text("pkg.ops.f"));
    assert_eq!(render_result_line(&r), "dynamic-only subprocess  pkg.ops.f");
}

#[test]
fn falls_back_to_json_without_label() {
    let r = Json::object().with("owner", Json::text("pkg.ops.f"));
    assert_eq!(render_result_line(&r), r#"{"owner":"pkg.ops.f"}"#);
}

#[test]
fn a_result_with_only_a_location_is_its_location() {
    let r = Json::object().with("loc", Json::text("a.py:1:1"));
    assert_eq!(render_result_line(&r), "a.py:1:1");
}

fn row(loc: &str, group: &str, cols: &[&str]) -> Json {
    let list: Vec<String> = cols.iter().map(|c| c.to_string()).collect();
    Json::object()
        .with("loc", Json::text(loc))
        .with("group", Json::text(group))
        .with("cols", Json::texts(&list))
}

#[test]
fn the_terminal_view_has_sections_of_aligned_rows() {
    let e = Envelope::new(
        Json::object(),
        vec![
            row("config.py:3:9", "env", &["DEBUG"]),
            row("config.py:4:10", "env", &["DATABASE_URL"]),
            row("config.py:10:10", "file", &["settings.ini"]),
        ],
    )
    .with_summary("3 app inputs".to_string())
    .with_warnings(vec!["mind this".to_string()])
    .with_notes(vec!["and that".to_string()]);
    assert_eq!(
        e.render(Channel::Human),
        "3 app inputs\n\nenv (2)\n  config.py:3:9   DEBUG\n  config.py:4:10  DATABASE_URL\n\nfile (1)\n  config.py:10:10  settings.ini\n\nnotes\n  mind this\n  and that\n"
    );
}

#[test]
fn nothing_to_say_is_said() {
    assert_eq!(Envelope::new(Json::Null, Vec::new()).render(Channel::Human), "no results\n");
}

#[test]
fn the_structured_views_have_the_same_fields() {
    let e = Envelope::new(
        Json::object().with("kind", Json::text("defs")).with("target", Json::Null),
        vec![Json::object().with("n", Json::count(2)), Json::Arr(Vec::new()), Json::object()],
    )
    .with_summary("a \"b\"\n".to_string());
    assert_eq!(
        e.render(Channel::Json),
        "{\"tool\":\"pyq\",\"query\":{\"kind\":\"defs\",\"target\":null},\"summary\":\"a \\\"b\\\"\\n\",\"count\":3,\"results\":[{\"n\":2},[],{}]}"
    );
    assert_eq!(
        e.render(Channel::Pretty),
        "{\n  \"tool\": \"pyq\",\n  \"query\": {\n    \"kind\": \"defs\",\n    \"target\": null\n  },\n  \"summary\": \"a \\\"b\\\"\\n\",\n  \"count\": 3,\n  \"results\": [\n    {\n      \"n\": 2\n    },\n    [],\n    {}\n  ]\n}"
    );
    let warned = e.with_warnings(vec!["w".to_string()]);
    assert!(warned.render(Channel::Json).ends_with(",\"warnings\":[\"w\"]}"));
}

#[test]
fn a_rendered_envelope_is_json_again() {
    let e = Envelope::new(Json::object().with("k", Json::integer(-4)), vec![Json::Bool(true)])
        .with_summary("x".to_string());
    let a = parse(&e.render(Channel::Json)).unwrap();
    let b = parse(&e.render(Channel::Pretty)).unwrap();
    assert_eq!(a.to_text(), b.to_text());
    assert_eq!(a.get("query").unwrap().to_text(), "{\"k\":-4}");
    assert!(parse("{\"a\":").is_none());
    assert_eq!(parse("[1.5,18446744073709551615]").unwrap().to_text(), "[1.5,18446744073709551615]");
}

#[test]
fn query_echoes_the_resolved_absolute_root() {
    let e = Envelope::new(Json::object().with("kind", Json::text("defs")), Vec::new());
    let e = anchored(e, "/work/examples/sample");
    let root = e.query.get_text("root").expect("root in query");
    assert!(root.starts_with('/'), "root should be absolute: {root}");
    assert!(root.ends_with("examples/sample"), "root: {root}");
    assert_eq!(e.query.get_text("root"), Some("/work/examples/sample"));
    assert_eq!(e.query.get_text("kind"), Some("defs"));
    assert_eq!(anchored(Envelope::new(Json::Null, Vec::new()), "/r").query.to_text(), "null");
}

#[test]
fn cli_empty_symbol_is_a_usage_error() {
    for symbol in ["", "   ", "\t\n"] {
        assert_eq!(check_symbol(symbol), Err("symbol must not be empty".to_string()));
    }
    assert_eq!(check_symbol("User"), Ok(()));
}

#[test]
fn describe_empty_symbol_is_a_usage_error() {
    assert!(check_symbol("   ").unwrap_err().contains("symbol must not be empty"));
}

#[test]
fn tests_need_a_symbol_or_a_commit() {
    assert!(matches!(tests_query(Some("f"), Some("main")), Ok(TestsQuery::Since("main"))));
    assert!(matches!(tests_query(Some("f"), None), Ok(TestsQuery::Reaching("f"))));
    assert_eq!(
        tests_query(None, None).unwrap_err(),
        "`tests` needs a symbol (reaching tests) or `--base <ref>` (changed-line coverage)"
    );
}

#[test]
fn json_goes_before_pretty() {
    assert_eq!(channel_for(true, true), Channel::Json);
    assert_eq!(channel_for(false, true), Channel::Pretty);
    assert_eq!(channel_for(false, false), Channel::Human);
}

#[test]
fn colours_are_for_terminals() {
    assert!(use_color(true, false, None));
    assert!(use_color(true, false, Some("xterm")));
    assert!(!use_color(true, false, Some("dumb")));
    assert!(!use_color(true, true, None));
    assert!(!use_color(false, false, None));
}

fn build() -> Build {
    Build {
        version: "0.1.0".to_string(),
        channel: "canary".to_string(),
        date: "2026-01-31".to_string(),
        sha: "a1b2c3d".to_string(),
        target: "t".to_string(),
    }
}

#[test]
fn the_menu_lines_up_with_and_without_colours() {
    let plain = help_menu(false, &build());
    assert!(plain.starts_with("{about}\n\nUsage: {usage}\n\nFind & describe a symbol\n  refs <symbol>       Every reference (reads, writes, calls) to a symbol, cross-file.\n"));
    assert!(plain.contains("\n  mock-targets        Resolve every mock.patch(...) and flag drifted targets.\n"));
    assert!(plain.contains("\n  hierarchy <class>   Supertypes, subclasses, and the override map.\n"));
    assert!(plain.ends_with("\nOptions\n{options}\n\npyq 0.1.0 (canary 2026-01-31 a1b2c3d)\n\nRun `pyq <command> --help` for the full description of any command."));
    let colored = help_menu(true, &build());
    assert!(colored.contains("\n  \x1b[1mdeadcode\x1b[0m            \x1b[2mCallables reachable from no entrypoint (candidates).\x1b[0m\n"));
    let bare = colored
        .replace("\x1b[1;36m", "")
        .replace("\x1b[1m", "")
        .replace("\x1b[2m", "")
        .replace("\x1b[0m", "");
    assert_eq!(bare, plain);
}

#[test]
fn what_is_cached_is_reported() {
    let e = query_index(1, "", None);
    assert_eq!(e.summary, "parsed 1 file (caching disabled — nothing persisted)");
    assert_eq!(e.query.to_text(), "{\"cached\":false,\"files\":1,\"kind\":\"index\"}");
    assert_eq!(e.warnings.len(), 1);
    let e = query_index(2, "ab", Some("/c"));
    assert_eq!(e.summary, "indexed 2 files; call graph recorded → /c");
    assert_eq!(e.query.to_text(), "{\"cache\":\"/c\",\"cached\":true,\"files\":2,\"kind\":\"index\"}");
    assert_eq!(query_index(2, "ab", None).query.get_text("cache"), Some("<unavailable>"));
    assert_eq!(query_index_clean(None).summary, "no cached index to remove");
    assert_eq!(
        query_index_clean(Some("/c")).query.to_text(),
        "{\"kind\":\"index-clean\",\"removed\":\"/c\"}"
    );
}

#[test]
fn compact_json_is_on_one_line() {
    let row = Json::object().with("label", Json::text("a\nb\r\u{1}")).with("n", Json::Number("-3".to_string()));
    let e = Envelope::new(Json::object().with("kind", Json::text("x\ny")), vec![row]);
    let text = e.render(Channel::Json);
    assert!(!text.contains('\n') && !text.contains('\r'), "{text}");
    assert!(text.contains("\"label\":\"a\\nb\\r\\u0001\",\"n\":-3"), "{text}");
    assert!(e.render(Channel::Pretty).lines().count() > 5);
}
