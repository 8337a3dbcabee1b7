use pyq::channel::{configured, file_text, query, version_line, Build, ReleaseChannel};
use pyq::json::Json;
use pyq::output::Channel;
use pyq::parse_json::parse;
use pyq::upgrade::{
    check_digest, check_download, compare, endpoint, hex, is_newer, parse_sha_marker, release_of,
    run, Release, SumError,
};

fn build(version: &str, sha: &str, target: &str) -> Build {
    Build {
        version: version.to_string(),
        channel: "stable".to_string(),
        date: "2026-06-07".to_string(),
        sha: sha.to_string(),
        target: target.to_string(),
    }
}

fn release(tag: &str, sha: Option<&str>) -> Release {
    Release {
        tag: tag.to_string(),
        sha: sha.map(|s| s.to_string()),
        tarball_url: "t".to_string(),
        sha256_url: "s".to_string(),
    }
}

#[test]
fn newer_compares_numerically() {
    assert!(is_newer("0.2.0", "0.1.9"));
    assert!(is_newer("v1.0.0", "0.9.9"));
    assert!(is_newer("0.1.10", "0.1.9"));
    assert!(!is_newer("0.1.0", "0.1.0"));
    assert!(!is_newer("0.1.0", "0.2.0"));
}

#[test]
fn sha_marker_extracted_from_body() {
    let body = "Rolling canary build.\n\npyq-sha: a1b2c3d\nbuilt 2026-06-07\n";
    assert_eq!(parse_sha_marker(body), Some("a1b2c3d".to_string()));
    assert_eq!(parse_sha_marker("no marker here"), None);
}

#[test]
fn what_follows_three_numbers_does_not_count() {
    assert!(!is_newer("1.2.3-rc1", "1.2.3"));
    assert!(!is_newer("1.2.3+build", "1.2.3"));
    assert!(is_newer("1.2", "1.1.9"));
    assert!(!is_newer("1.x.9", "1.0.9"));
}

#[test]
fn an_empty_marker_names_no_commit() {
    assert_eq!(parse_sha_marker("pyq-sha:   \npyq-sha: later\n"), None);
    assert_eq!(parse_sha_marker("  pyq-sha:abc  "), Some("abc".to_string()));
}

#[test]
fn a_channel_is_named_in_any_case() {
    assert_eq!(ReleaseChannel::parse("  Stable\n"), Ok(ReleaseChannel::Stable));
    assert_eq!(ReleaseChannel::parse("CANARY"), Ok(ReleaseChannel::Canary));
    assert_eq!(ReleaseChannel::parse(" Nightly "), Err("nightly".to_string()));
    assert_eq!(ReleaseChannel::Stable.as_str(), "stable");
}

#[test]
fn the_stored_channel_goes_before_that_of_the_build() {
    assert_eq!(configured(Some("canary\n"), "stable"), ReleaseChannel::Canary);
    assert_eq!(configured(Some("junk"), "canary"), ReleaseChannel::Canary);
    assert_eq!(configured(None, "dev"), ReleaseChannel::Stable);
    for ch in [ReleaseChannel::Stable, ReleaseChannel::Canary] {
        assert_eq!(configured(Some(file_text(ch).as_str()), "dev"), ch);
    }
}

#[test]
fn a_switch_says_what_to_store() {
    let b = build("0.3.1", "abc1234", "x86_64-unknown-linux-gnu");
    let (answer, store) = query(Some("canary"), None, &b).unwrap();
    assert_eq!(store, Some(ReleaseChannel::Canary));
    assert_eq!(
        answer.summary,
        "channel set to canary — run `pyq upgrade` to move to the latest canary build"
    );
    assert!(query(Some("beta"), None, &b).is_err());
    let (shown, store) = query(None, Some("canary"), &b).unwrap();
    assert_eq!(store, None);
    assert_eq!(
        shown.summary,
        "channel: canary\nbuild:   pyq 0.3.1 (stable 2026-06-07 abc1234)"
    );
    assert_eq!(
        shown.query.to_text(),
        "{\"build\":{\"channel\":\"stable\",\"date\":\"2026-06-07\",\"sha\":\"abc1234\",\"target\":\"x86_64-unknown-linux-gnu\",\"version\":\"0.3.1\"},\"channel\":\"canary\",\"kind\":\"channel\"}"
    );
    assert_eq!(version_line(&b), "0.3.1 (stable 2026-06-07 abc1234)");
}

#[test]
fn the_canary_goes_by_the_shorter_commit() {
    let b = build("0.1.0", "a1b2c3d4e", "t");
    let (current, latest, behind) =
        compare(ReleaseChannel::Canary, &b, &release("canary", Some("a1b2c3d")));
    assert_eq!((current.as_str(), latest.as_str(), behind), ("a1b2c3d4e", "a1b2c3d", false));
    assert!(compare(ReleaseChannel::Canary, &b, &release("canary", Some("ffffff1"))).2);
    assert!(!compare(ReleaseChannel::Canary, &b, &release("unknown", None)).2);
    assert!(!compare(ReleaseChannel::Canary, &build("0.1.0", "", "t"), &release("canary", None)).2);
}

#[test]
fn an_upgrade_installs_only_when_due() {
    let b = build("0.1.0", "abc", "t");
    let newer = release("v0.2.0", None);
    let (e, install) = run(ReleaseChannel::Stable, &b, &newer, false, false);
    assert!(install);
    assert_eq!(e.summary, "upgraded 0.1.0 → 0.2.0 on stable");
    let (e, install) = run(ReleaseChannel::Stable, &b, &newer, true, false);
    assert!(!install);
    assert_eq!(
        e.summary,
        "upgrade available: 0.1.0 → 0.2.0 on stable\nrun `pyq upgrade` to install"
    );
    let same = release("v0.1.0", None);
    let (e, install) = run(ReleaseChannel::Stable, &b, &same, false, false);
    assert!(!install);
    assert_eq!(e.summary, "already up to date on stable (0.1.0)");
    let (e, install) = run(ReleaseChannel::Stable, &b, &same, true, true);
    assert!(!install);
    assert!(e.summary.starts_with("upgrade reinstallable: "));
    assert!(run(ReleaseChannel::Stable, &b, &same, false, true).1);
    assert_eq!(
        e.render(Channel::Json),
        "{\"tool\":\"pyq\",\"query\":{\"channel\":\"stable\",\"current\":\"0.1.0\",\"kind\":\"upgrade\",\"latest\":\"0.1.0\",\"target\":\"t\"},\"summary\":\"upgrade reinstallable: 0.1.0 → 0.1.0 on stable\\nrun `pyq upgrade` to install\",\"count\":0,\"results\":[]}"
    );
}

#[test]
fn a_build_without_a_target_has_nothing_to_ask() {
    assert_eq!(
        endpoint(ReleaseChannel::Stable, &build("0.1.0", "a", "x86")),
        Ok("https://api.github.com/repos/nickbeaulieu/pyq/releases/latest".to_string())
    );
    assert_eq!(
        endpoint(ReleaseChannel::Canary, &build("0.1.0", "a", "x86")),
        Ok("https://api.github.com/repos/nickbeaulieu/pyq/releases/tags/canary".to_string())
    );
    assert_eq!(
        endpoint(ReleaseChannel::Stable, &build("0.1.0", "a", "unknown")),
        Err("this build has no target triple recorded — `upgrade` can't pick an asset".to_string())
    );
}

fn body(text: &str) -> Json {
    parse(text).unwrap()
}

#[test]
fn a_release_names_the_assets_of_a_target() {
    let b = body("{\"tag_name\":\"v0.2.0\",\"body\":\"pyq-sha: beef\",\"assets\":[{\"name\":\"pyq-0.2.0-arm.tar.gz\",\"browser_download_url\":\"u0\"},{\"name\":\"pyq-0.2.0-x86.tar.gz\",\"browser_download_url\":\"u1\"},{\"name\":\"pyq-0.2.0-x86.tar.gz.sha256\",\"browser_download_url\":\"u2\"}]}");
    let r = release_of(&b, ReleaseChannel::Stable, "x86").unwrap();
    assert_eq!(r.tag, "v0.2.0");
    assert_eq!(r.sha, Some("beef".to_string()));
    assert_eq!(r.tarball_url, "u1");
    assert_eq!(r.sha256_url, "u2");
    assert_eq!(
        release_of(&b, ReleaseChannel::Stable, "riscv").unwrap_err(),
        "the stable release has no asset for target riscv"
    );
    assert_eq!(
        release_of(&b, ReleaseChannel::Canary, "arm").unwrap_err(),
        "the canary release is missing the .sha256 for arm"
    );
    assert_eq!(
        release_of(&body("{}"), ReleaseChannel::Stable, "x86").unwrap_err(),
        "no stable release found on nickbeaulieu/pyq — no stable release exists yet; try `pyq channel canary`"
    );
    assert_eq!(
        release_of(&body("{\"tag_name\":7}"), ReleaseChannel::Canary, "x86").unwrap_err(),
        "no canary release found on nickbeaulieu/pyq"
    );
}

#[test]
fn a_download_is_held_against_its_checksum() {
    let sum = "ba7816bf8f01cfea414140de5dae2223b00361a396177a9cb410ff61f20015ad";
    assert!(check_download(b"abc", &format!("{}  pyq.tar.gz\n", sum.to_uppercase())).is_ok());
    match check_download(b"abd", &format!("{sum}\n")) {
        Err(SumError::Mismatch(expected, got)) => {
            assert_eq!(expected, sum);
            assert_eq!(got.len(), 64);
            assert_ne!(got, sum);
        }
        other => panic!("{other:?}"),
    }
    assert!(matches!(check_download(b"abc", "  \n"), Err(SumError::Malformed)));
    assert!(matches!(check_digest(&[0xab, 0x01], "ab01"), Err(SumError::Malformed)));
}

#[test]
fn bytes_are_written_as_pairs_of_digits() {
    assert_eq!(hex(&[0x00, 0x0f, 0xa5, 0xff]), "000fa5ff");
    assert_eq!(hex(&[]), "");
}
