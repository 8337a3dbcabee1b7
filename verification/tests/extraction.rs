use pyq::classify::classify_effect;
use pyq::extract::extract;
use pyq::lines::Lines;
use pyq::lookup::member_of;
use pyq::callgraph::MemberCheck;
use pyq::model::{DefKind, EffectKind, FileIndex, ImportContext, InputKind, Pos};

const SRC: &str = r#"
from pkg.models import User, make_user

GREETING = "hi"

def main():
    u = make_user("ada")
    admin = User("root")
    helper = inner
    def inner():
        return User
    print(u, admin, helper)
"#;

#[test]
fn captures_defs_with_kinds_and_nesting() {
    let idx = extract("app.py", SRC);

    let find = |name: &str| idx.defs.iter().find(|d| d.name == name).unwrap();

    assert_eq!(find("User").kind, DefKind::Import);
    assert_eq!(find("make_user").kind, DefKind::Import);
    assert_eq!(find("GREETING").kind, DefKind::Variable);
    assert_eq!(find("main").kind, DefKind::Function);

    // `inner` is defined inside `main`.
    let inner = find("inner");
    assert_eq!(inner.kind, DefKind::Function);
    assert!(inner.nested);
    assert!(!find("main").nested);
}

#[test]
fn distinguishes_calls_from_plain_refs() {
    let idx = extract("app.py", SRC);

    let calls: Vec<_> = idx.refs.iter().filter(|r| r.is_call).collect();
    assert!(calls.iter().any(|r| r.name == "make_user"));
    assert!(calls.iter().any(|r| r.name == "User")); // User("root")
    assert!(calls.iter().any(|r| r.name == "print"));

    // `inner` used as a value (not called) and `User` returned bare are refs.
    let bare: Vec<_> = idx.refs.iter().filter(|r| !r.is_call).collect();
    assert!(bare.iter().any(|r| r.name == "inner"));
    assert!(bare.iter().any(|r| r.name == "User")); // `return User`
}

#[test]
fn captures_env_and_file_inputs_and_buckets_dynamic() {
    let src = r#"
import os
a = os.getenv("DEBUG")
b = os.environ["DATABASE_URL"]
c = os.environ.get("TIMEOUT", "30")
d = os.getenv(some_var)
open("settings.ini")
"#;
    let idx = extract("config.py", src);
    let env: Vec<&str> = idx
        .inputs
        .iter()
        .filter(|i| i.kind == InputKind::Env)
        .map(|i| i.value.as_str())
        .collect();
    assert!(env.contains(&"DEBUG"));
    assert!(env.contains(&"DATABASE_URL"));
    assert!(env.contains(&"TIMEOUT"));
    assert!(env.contains(&"<dynamic>")); // computed key, not guessed

    let files: Vec<&str> = idx
        .inputs
        .iter()
        .filter(|i| i.kind == InputKind::File)
        .map(|i| i.value.as_str())
        .collect();
    assert_eq!(files, vec!["settings.ini"]);
}

#[test]
fn parse_errors_are_non_fatal() {
    // A half-written file an agent is mid-edit on still answers.
    let idx = extract("broken.py", "def f(:\n    User(");
    // Should not panic; may extract little, but must produce a FileIndex.
    assert_eq!(idx.path, "broken.py");
}

fn def<'a>(f: &'a FileIndex, name: &str) -> &'a pyq::model::Def {
    f.defs.iter().find(|d| d.name == name).unwrap()
}

#[test]
fn a_statement_before_the_error_is_found() {
    let f = extract("half.py", "import os\nos.getenv(\"EARLY_KEY\")\ndef alpha():\n    return 1\n\ndef beta(:\n");
    assert!(f.inputs.iter().any(|i| i.value == "EARLY_KEY"));
    assert_eq!(def(&f, "alpha").kind, DefKind::Function);
}

#[test]
fn a_function_has_its_signature_docstring_decorators_and_span() {
    let src = "import functools\n\n\n@functools.lru_cache\ndef add(a: int,\n        b: int = 1) -> int:\n    \"\"\"Add two numbers.\n\n    More.\n    \"\"\"\n    return a + b\n";
    let f = extract("pkg/calc.py", src);
    let d = def(&f, "add");
    assert_eq!(d.signature.as_deref(), Some("(a: int, b: int = 1) -> int"));
    assert_eq!(d.doc.as_deref(), Some("Add two numbers."));
    assert_eq!(d.decorators, vec!["functools.lru_cache".to_string()]);
    assert!(d.decorated);
    assert_eq!(d.pos, Pos { line: 5, col: 5 });
    assert_eq!(d.end_line, 11);
    assert_eq!(&src[d.offset as usize..d.offset as usize + 3], "add");
}

#[test]
fn a_class_has_its_bases_and_holds_its_methods() {
    let f = extract("m.py", "class User(Base, pkg.Mixin, make()):\n    def save(self):\n        x = 1\n");
    let c = def(&f, "User");
    assert_eq!(c.kind, DefKind::Class);
    assert_eq!(c.bases, vec!["Base".to_string(), "pkg.Mixin".to_string()]);
    assert_eq!(c.signature, None);
    let m = def(&f, "save");
    assert_eq!(m.container, vec!["User".to_string()]);
    let x = def(&f, "x");
    assert_eq!(x.container, vec!["User".to_string(), "save".to_string()]);
}

#[test]
fn columns_count_characters_and_offsets_count_bytes() {
    let f = extract("u.py", "é = \"ü\"; name = 1\n");
    let d = def(&f, "name");
    assert_eq!(d.pos, Pos { line: 1, col: 10 });
    assert_eq!(d.offset, 11);
}

#[test]
fn imports_know_when_they_run() {
    let src = "from typing import TYPE_CHECKING\nimport a.b as c\nif TYPE_CHECKING:\n    from .x import Y\nelse:\n    import z\n\ndef f():\n    import late\n";
    let f = extract("pkg/mod.py", src);
    let seen: Vec<(String, u32, ImportContext)> =
        f.imports.iter().map(|i| (i.module.clone(), i.level, i.context)).collect();
    assert!(seen.contains(&("a.b".to_string(), 0, ImportContext::TopLevel)));
    assert!(seen.contains(&("x".to_string(), 1, ImportContext::TypeChecking)));
    assert!(seen.contains(&("z".to_string(), 0, ImportContext::TopLevel)));
    assert!(seen.contains(&("late".to_string(), 0, ImportContext::Deferred)));
    let names: Vec<&str> = f
        .defs
        .iter()
        .filter(|d| d.kind == DefKind::Import)
        .map(|d| d.name.as_str())
        .collect();
    assert_eq!(names, vec!["TYPE_CHECKING", "c", "Y", "z", "late"]);
}

#[test]
fn effects_know_their_scope() {
    let src = "import os, subprocess, time, random\nSTART = time.time()\n\ndef run():\n    global COUNT, TOTAL\n    subprocess.run([\"ls\"])\n    os.remove(\"x\")\n    random.random()\n";
    let f = extract("ops.py", src);
    let seen: Vec<(EffectKind, String, bool)> =
        f.effects.iter().map(|e| (e.kind, e.detail.clone(), e.import_time)).collect();
    assert!(seen.contains(&(EffectKind::Clock, "time.time".to_string(), true)));
    assert!(seen.contains(&(EffectKind::Subprocess, "subprocess.run".to_string(), false)));
    assert!(seen.contains(&(EffectKind::Fs, "os.remove".to_string(), false)));
    assert!(seen.contains(&(EffectKind::Random, "random.random".to_string(), false)));
    assert!(seen.contains(&(EffectKind::GlobalState, "COUNT, TOTAL".to_string(), false)));
    let inside = f.effects.iter().find(|e| e.detail == "os.remove").unwrap();
    assert_eq!(inside.scope, vec!["run".to_string()]);
}

#[test]
fn only_annotated_fields_of_a_settings_class_are_settings() {
    let src = "class Settings(BaseSettings):\n    db_url: str\n    debug = False\n\nclass Plain:\n    size: int\n";
    let f = extract("settings.py", src);
    let values: Vec<&str> = f
        .inputs
        .iter()
        .filter(|i| i.kind == InputKind::Setting)
        .map(|i| i.value.as_str())
        .collect();
    assert_eq!(values, vec!["db_url"]);
}

#[test]
fn an_option_is_named_by_its_longest_flag() {
    let f = extract("cli.py", "parser.add_argument(\"-v\", \"--verbose\")\nparser.add_argument(\"path\")\n");
    let values: Vec<&str> = f.inputs.iter().map(|i| i.value.as_str()).collect();
    assert_eq!(values, vec!["--verbose", "path"]);
    assert!(f.inputs.iter().all(|i| i.kind == InputKind::Arg));
}

#[test]
fn exports_guards_patches_and_dotted_texts_are_found() {
    let src = "__all__ = [\"a\", \"b\"]\n__all__ += [\"c\"]\nHANDLER = \"api.utils.handler\"\nmock.patch(\"app.client.requests\")\npatch(target)\nif __name__ == \"__main__\":\n    main()\n";
    let f = extract("m.py", src);
    assert_eq!(f.dunder_all, vec!["a".to_string(), "b".to_string(), "c".to_string()]);
    assert!(f.has_main_guard);
    assert!(f.dotted_strings.contains(&"api.utils.handler".to_string()));
    let targets: Vec<Option<String>> = f.mocks.iter().map(|m| m.target.clone()).collect();
    assert_eq!(targets, vec![Some("app.client.requests".to_string()), None]);
}

#[test]
fn a_use_outside_every_function_is_at_module_scope() {
    let f = extract("m.py", "def g():\n    pass\n\ng()\n\ndef h():\n    g()\n");
    let scopes: Vec<bool> =
        f.refs.iter().filter(|r| r.name == "g").map(|r| r.module_scope).collect();
    assert_eq!(scopes, vec![true, false]);
}

#[test]
fn a_stub_parses_as_a_stub() {
    let f = extract("lib/time.pyi", "def sleep(secs: float) -> None: ...\ndef __getattr__(name: str) -> object: ...\n");
    assert_eq!(member_of(&f, "sleep"), MemberCheck::Present);
    assert_eq!(member_of(&f, "missing"), MemberCheck::Unknown);
    let g = extract("lib/plain.pyi", "x: int\ndef f() -> None: ...\n");
    assert_eq!(member_of(&g, "missing"), MemberCheck::Absent);
}

#[test]
fn places_count_characters_from_one() {
    let lines = Lines::new("\u{e9}x\ny");
    assert_eq!(lines.pos(0), Pos { line: 1, col: 1 });
    assert_eq!(lines.pos(2), Pos { line: 1, col: 2 });
    assert_eq!(lines.pos(3), Pos { line: 1, col: 3 });
    assert_eq!(lines.pos(4), Pos { line: 2, col: 1 });
    assert_eq!(lines.pos(5), Pos { line: 2, col: 2 });
}

#[test]
fn a_process_is_started_by_any_name_of_its_module() {
    for callee in ["subprocess.run", "run", "sp.run", "Popen", "sp.check_output", "check_call", "call", "o.system"] {
        assert_eq!(classify_effect(callee), Some(EffectKind::Subprocess), "{callee}");
    }
    for callee in ["runner", "rerun", "recall", "print"] {
        assert_eq!(classify_effect(callee), None, "{callee}");
    }
    let f = extract("m.py", "from subprocess import run\n\ndef go():\n    run([\"ls\"])\n");
    assert_eq!(f.effects.len(), 1);
    assert_eq!(f.effects[0].kind, EffectKind::Subprocess);
}
