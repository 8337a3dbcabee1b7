use pyq::cache::{fingerprint, root_key, CachedFile, ParseCache, Sweep, SCHEMA_VERSION};
use pyq::model::FileIndex;
use pyq::surface_reports::query_inputs;
use pyq::table::Table;
use pyq::walk::is_python;
use pyq::cli::{edges_total, resolve_total};
use pyq::extract::extract;

const ALPHA: &str = "import os\nos.getenv(\"ALPHA\")\n";
const GAMMA: &str = "import os\nos.getenv(\"GAMMA\")\n";
const BETA: &str = "import os\nos.getenv(\"BETA\")\n";

/// One run over files, each with its time of change and its source.
fn run(
    kept: Option<ParseCache>,
    files: &[(&str, u128, &str)],
) -> (Vec<FileIndex>, Option<ParseCache>, usize) {
    let mut sweep = Sweep::start(kept);
    let mut reads = 0;
    for (rel, mtime, source) in files {
        let size = source.len() as u64;
        let source = if sweep.needs_source(&rel.to_string(), size, *mtime) {
            reads += 1;
            Some(*source)
        } else {
            None
        };
        sweep.visit(rel.to_string(), size, *mtime, source);
    }
    let (out, cache) = sweep.finish();
    (out, cache, reads)
}

fn labels(files: &Vec<FileIndex>) -> Vec<String> {
    let mut v: Vec<String> = query_inputs(files, None)
        .results
        .iter()
        .map(|r| r.get_text("label").unwrap().to_string())
        .collect();
    v.sort();
    v
}

#[test]
fn warm_run_matches_cold_and_persists_a_cache() {
    let (cold, cache, reads) = run(None, &[("app.py", 1, ALPHA)]);
    assert!(labels(&cold).iter().any(|l| l == "env ALPHA"));
    assert_eq!(reads, 1);
    assert!(cache.is_some(), "cold run should persist what it read");

    let (warm, again, reads) = run(cache, &[("app.py", 1, ALPHA)]);
    assert_eq!(reads, 0);
    assert!(again.is_none());
    assert_eq!(labels(&cold), labels(&warm), "warm run must match cold run exactly");
    assert_eq!(format!("{cold:?}"), format!("{warm:?}"));
}

#[test]
fn an_edit_invalidates_only_that_file_even_at_equal_size() {
    let (_, cache, _) = run(None, &[("app.py", 1, ALPHA), ("b.py", 1, BETA)]);
    let (after, cache, reads) = run(cache, &[("app.py", 2, GAMMA), ("b.py", 1, BETA)]);
    assert_eq!(reads, 1);
    assert!(cache.is_some());
    let after = labels(&after);
    assert!(after.iter().any(|l| l == "env GAMMA"), "edit must be seen");
    assert!(!after.iter().any(|l| l == "env ALPHA"), "stale value must be gone");
}

#[test]
fn added_and_removed_files_update_the_cache() {
    let (_, cache, _) = run(None, &[("a.py", 1, ALPHA)]);
    let (two, cache, _) = run(cache, &[("a.py", 1, ALPHA), ("b.py", 1, BETA)]);
    let seen = labels(&two);
    assert!(seen.iter().any(|l| l == "env ALPHA"));
    assert!(seen.iter().any(|l| l == "env BETA"));

    let (one, cache, reads) = run(cache, &[("b.py", 1, BETA)]);
    assert_eq!(reads, 0);
    let seen = labels(&one);
    assert!(!seen.iter().any(|l| l == "env ALPHA"), "removed file must drop out");
    assert!(seen.iter().any(|l| l == "env BETA"));
    assert_eq!(cache.unwrap().entries.len(), 1);
}

#[test]
fn a_touch_without_a_change_keeps_the_facts() {
    let (_, cache, _) = run(None, &[("a.py", 1, ALPHA)]);
    let (same, cache, reads) = run(cache, &[("a.py", 2, ALPHA)]);
    assert_eq!(reads, 1);
    assert_eq!(labels(&same), vec!["env ALPHA".to_string()]);
    let kept = cache.unwrap();
    assert_eq!(kept.entries.get(&"a.py".to_string()).unwrap().mtime_ns, 2);
    let (_, again, reads) = run(Some(kept), &[("a.py", 2, ALPHA)]);
    assert_eq!(reads, 0);
    assert!(again.is_none());
}

#[test]
fn the_hash_decides_where_the_stat_moved() {
    let mut sweep = Sweep::start(None);
    sweep.visit_hashed("a.py".to_string(), 5, 1, Some((ALPHA, vec![7, 7])));
    let (_, cache) = sweep.finish();
    let mut sweep = Sweep::start(cache);
    sweep.visit_hashed("a.py".to_string(), 5, 2, Some((BETA, vec![7, 7])));
    let (out, cache) = sweep.finish();
    assert_eq!(labels(&out), vec!["env ALPHA".to_string()]);
    let mut sweep = Sweep::start(cache);
    sweep.visit_hashed("a.py".to_string(), 5, 3, Some((BETA, vec![7, 8])));
    assert_eq!(labels(&sweep.finish().0), vec!["env BETA".to_string()]);
}

#[test]
fn what_cannot_be_read_is_passed_over() {
    let mut sweep = Sweep::start(None);
    sweep.visit("a.py".to_string(), 5, 1, None);
    let (out, cache) = sweep.finish();
    assert!(out.is_empty());
    assert!(cache.is_none());
}

#[test]
fn another_form_is_not_used() {
    let (_, cache, _) = run(None, &[("a.py", 1, ALPHA)]);
    let old = ParseCache { schema: SCHEMA_VERSION + 1, entries: cache.unwrap().entries };
    let (_, cache, reads) = run(Some(old), &[("a.py", 1, ALPHA)]);
    assert_eq!(reads, 1);
    assert_eq!(cache.unwrap().schema, SCHEMA_VERSION);
}

#[test]
fn projects_are_told_apart_by_their_roots() {
    assert_eq!(
        root_key(""),
        "af1349b9f5f9a1a6a0404dea36dcc9499bcb25c9adc112b7cc9a93cae41f3262"
    );
    assert_ne!(root_key("/a"), root_key("/b"));
    assert_eq!(root_key("/a").len(), 64);
}

#[test]
fn the_fingerprint_moves_with_every_content() {
    let print = |files: &[(&str, u128, &str)]| fingerprint(&run(None, files).1.unwrap().entries);
    let one = print(&[("a.py", 1, ALPHA)]);
    assert_eq!(one, print(&[("a.py", 9, ALPHA)]));
    assert_ne!(one, print(&[("a.py", 1, GAMMA)]));
    assert_ne!(one, print(&[("b.py", 1, ALPHA)]));
    assert_eq!(
        print(&[("a.py", 1, ALPHA), ("b.py", 1, BETA)]),
        print(&[("b.py", 1, BETA), ("a.py", 1, ALPHA)])
    );
    let none: Table<String, CachedFile> = Table::new();
    assert_eq!(fingerprint(&none), root_key(""));
}

#[test]
fn python_files_are_told_by_their_extension() {
    assert!(is_python("pkg/models.py"));
    assert!(is_python("lib/time.pyi"));
    assert!(!is_python("lib/time.pyc"));
    assert!(!is_python("pkg/.py"));
    assert!(!is_python("py"));
    assert!(!is_python("pkg.py/readme.txt"));
    assert!(!is_python(".."));
}

#[test]
fn the_work_ahead_is_counted() {
    let files = vec![
        extract("a.py", "import os\nclass C:\n    def m(self):\n        return os\n"),
        extract("b.py", "x = 1\n"),
    ];
    assert_eq!(edges_total(&files), 2);
    assert_eq!(resolve_total(&files), files.iter().map(|f| f.refs.len()).sum::<usize>() as u64 + 1);
    assert_eq!(resolve_total(&Vec::new()), 1);
}

#[test]
fn a_whole_walk_gives_what_reading_every_file_gives() {
    let first = [("a.py", 1, ALPHA), ("b.py", 1, BETA), ("c.py", 1, GAMMA)];
    let (_, cache, _) = run(None, &first);
    // One file edited, one touched, one gone, one new, in another order.
    let second = [("d.py", 1, GAMMA), ("b.py", 2, BETA), ("a.py", 2, GAMMA)];
    let (warm, kept, reads) = run(cache, &second);
    let read: Vec<FileIndex> = second.iter().map(|(rel, _, source)| extract(rel, source)).collect();
    assert_eq!(format!("{warm:?}"), format!("{read:?}"));
    assert_eq!(reads, 3);
    let entries = kept.unwrap().entries;
    let keys: Vec<&str> = (0..entries.len()).map(|i| entries.key(i).as_str()).collect();
    assert_eq!(keys, ["a.py", "b.py", "d.py"]);
}
