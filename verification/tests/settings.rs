use pyq::config::{console_script_targets, parse, pytest_pythonpath, pythonpath_of, script_targets_of};
use pyq::json::Json;

#[test]
fn the_path_of_pytest_is_a_text_or_a_list() {
    assert_eq!(
        pytest_pythonpath("[tool.pytest.ini_options]\npythonpath = \"src\"\n"),
        vec!["src".to_string()]
    );
    assert_eq!(
        pytest_pythonpath("[tool.pytest.ini_options]\npythonpath = [\".\", \"mroi_matcher\", 3, \"./\", \"\", \"lib\"]\n"),
        vec!["mroi_matcher".to_string(), "lib".to_string()]
    );
    assert!(pytest_pythonpath("[tool.pytest.ini_options]\npythonpath = \".\"\n").is_empty());
    assert!(pytest_pythonpath("[tool]\nx = 1\n").is_empty());
    assert!(pytest_pythonpath("not toml at all").is_empty());
}

#[test]
fn console_scripts_run_dotted_names() {
    let doc = "[project.scripts]\nb = \"pkg.cli:main\"\na = \"pkg.app:App.run\"\nc = \"no-colon\"\n\n[tool.poetry.scripts]\nd = \"other.mod:go\"\ne = 7\n";
    assert_eq!(
        console_script_targets(doc),
        vec!["pkg.app.App".to_string(), "pkg.cli.main".to_string(), "other.mod.go".to_string()]
    );
    assert!(console_script_targets("= broken").is_empty());
}

#[test]
fn settings_are_read_from_given_values() {
    let doc = Json::object().with(
        "project",
        Json::object().with("scripts", Json::object().with("x", Json::text("m:f.g"))),
    );
    assert_eq!(script_targets_of(&doc), vec!["m.f".to_string()]);
    assert!(pythonpath_of(&doc).is_empty());
    assert!(pythonpath_of(&Json::Null).is_empty());
}

#[test]
fn a_document_is_texts_lists_and_tables() {
    let doc = parse("a = [\"x\", 1]\n[t]\nk = true\n").unwrap();
    assert_eq!(doc.to_text(), "{\"a\":[\"x\",null],\"t\":{\"k\":null}}");
    assert!(parse("a = ").is_none());
}
