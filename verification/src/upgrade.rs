//! Whether there is a newer build on a channel, and whether what was downloaded is
//! that build.
use crate::channel::{Build, ReleaseChannel};
use crate::json::{Json, JsonView};
use crate::json;
use crate::lines::{split_words, takes_bytes};
use crate::lines;
use crate::output::{Envelope, EnvelopeView};
use crate::syntax;
use crate::text::{cat, cat3, cat5, chars_of, ends_with, lines_of, lowered, number_of, same, split_on, starts_with, string_of, trimmed, without_leading};
use crate::text;
use vstd::prelude::*;

verus! {

/// The repository that publishes the releases.
pub open spec fn repository() -> Seq<char> {
    "nickbeaulieu/pyq"@
}

/// A release, and what there is of it for one target.
#[derive(Debug)]
pub struct Release {
    pub tag: String,
    /// The commit that the notes of the release name.
    pub sha: Option<String>,
    pub tarball_url: String,
    pub sha256_url: String,
}

/// A release, with texts in place of strings.
#[verifier::ext_equal]
pub struct ReleaseView {
    pub tag: Seq<char>,
    pub sha: Option<Seq<char>>,
    pub tarball_url: Seq<char>,
    pub sha256_url: Seq<char>,
}

impl View for Release {
    type V = ReleaseView;

    open spec fn view(&self) -> ReleaseView {
        ReleaseView {
            tag: self.tag@,
            sha: match self.sha {
                Some(s) => Some(s@),
                None => None,
            },
            tarball_url: self.tarball_url@,
            sha256_url: self.sha256_url@,
        }
    }
}

/// The number that one part of a version is; zero where it is none.
pub open spec fn part_value(parts: Seq<Seq<char>>, i: int) -> nat {
    if 0 <= i < parts.len() {
        match text::number(parts[i], u64::MAX as nat) {
            Some(n) => n,
            None => 0,
        }
    } else {
        0
    }
}

/// The three numbers of a version, `v1.2.3` or `1.2.3`. Whatever follows them does
/// not count.
pub open spec fn version(s: Seq<char>) -> (nat, nat, nat) {
    let parts = text::split(text::drop_leading(text::trim(s), 'v'), ".-+"@);
    (part_value(parts, 0), part_value(parts, 1), part_value(parts, 2))
}

/// Whether a version comes after another, number by number.
pub open spec fn newer(remote: (nat, nat, nat), local: (nat, nat, nat)) -> bool {
    ||| remote.0 > local.0
    ||| remote.0 == local.0 && remote.1 > local.1
    ||| remote.0 == local.0 && remote.1 == local.1 && remote.2 > local.2
}

/// The number that one part of a version is.
fn value_at(parts: &Vec<String>, i: usize) -> (r: u64)
    ensures
        r == part_value(text::views(parts@), i as int),
{
    if i < parts.len() {
        assert(text::views(parts@)[i as int] == parts@[i as int]@);
        match number_of(parts[i].as_str(), u64::MAX) {
            Some(n) => n,
            None => 0,
        }
    } else {
        0
    }
}

/// The three numbers of a version.
fn parse_ver(s: &str) -> (r: (u64, u64, u64))
    ensures
        version(s@) == (r.0 as nat, r.1 as nat, r.2 as nat),
{
    let t = trimmed(s);
    let bare = without_leading(t.as_str(), 'v');
    let parts = split_on(bare.as_str(), ".-+");
    (value_at(&parts, 0), value_at(&parts, 1), value_at(&parts, 2))
}

/// Whether `remote` is a newer version than `local`.
pub fn is_newer(remote: &str, local: &str) -> (r: bool)
    ensures
        r == newer(version(remote@), version(local@)),
{
    let a = parse_ver(remote);
    let b = parse_ver(local);
    a.0 > b.0 || (a.0 == b.0 && a.1 > b.1) || (a.0 == b.0 && a.1 == b.1 && a.2 > b.2)
}

/// What a line says after `pyq-sha:`.
pub open spec fn marked(line: Seq<char>) -> Option<Seq<char>> {
    let t = text::trim(line);
    if text::starts(t, "pyq-sha:"@) {
        Some(text::trim(t.skip("pyq-sha:"@.len() as int)))
    } else {
        None
    }
}

/// What the first marked line says.
pub open spec fn first_marked(lines: Seq<Seq<char>>) -> Option<Seq<char>>
    decreases lines.len(),
{
    if lines.len() == 0 {
        None
    } else {
        match first_marked(lines.drop_last()) {
            Some(s) => Some(s),
            None => marked(lines.last()),
        }
    }
}

/// The commit that the first marked line of the notes of a release names.
pub open spec fn sha_marker(body: Seq<char>) -> Option<Seq<char>> {
    match first_marked(text::lines(body)) {
        Some(s) => if s.len() > 0 {
            Some(s)
        } else {
            None
        },
        None => None,
    }
}

/// What a line says after `pyq-sha:`.
fn mark_of(line: &str) -> (r: Option<String>)
    ensures
        match r {
            Some(s) => marked(line@) == Some(s@),
            None => marked(line@) is None,
        },
{
    let t = trimmed(line);
    if starts_with(t.as_str(), "pyq-sha:") {
        let cs = chars_of(t.as_str());
        let head: usize = chars_of("pyq-sha:").len();
        let n: usize = cs.len();
        let rest = string_of(&cs, head, n);
        assert(rest@ =~= t@.skip("pyq-sha:"@.len() as int));
        Some(trimmed(rest.as_str()))
    } else {
        None
    }
}

/// What the first marked line is stays so when lines follow.
proof fn lemma_marked_stays(lines: Seq<Seq<char>>, n: int)
    requires
        0 <= n <= lines.len(),
        first_marked(lines.take(n)) is Some,
    ensures
        first_marked(lines) == first_marked(lines.take(n)),
    decreases lines.len() - n,
{
    if n < lines.len() {
        text::lemma_take_step(lines, n);
        lemma_marked_stays(lines, n + 1);
    } else {
        text::lemma_take_all(lines);
    }
}

/// The commit that the notes of a release name by a line `pyq-sha: <sha>`.
pub fn parse_sha_marker(body: &str) -> (r: Option<String>)
    ensures
        match r {
            Some(s) => sha_marker(body@) == Some(s@),
            None => sha_marker(body@) is None,
        },
{
    let lines = lines_of(body);
    let ghost all = text::views(lines@);
    let mut i: usize = 0;
    while i < lines.len()
        invariant
            i <= lines@.len(),
            all == text::views(lines@),
            all == text::lines(body@),
            first_marked(all.take(i as int)) is None,
        decreases lines@.len() - i,
    {
        proof {
            text::lemma_take_step(all, i as int);
            assert(all[i as int] == lines@[i as int]@);
        }
        if let Some(s) = mark_of(lines[i].as_str()) {
            proof {
                lemma_marked_stays(all, i + 1);
            }
            if chars_of(s.as_str()).len() > 0 {
                return Some(s);
            }
            return None;
        }
        i = i + 1;
    }
    proof {
        text::lemma_take_all(all);
    }
    None
}

/// Where a release stands against a build: what is installed, what is published,
/// and whether the first is behind the second.
#[verifier::ext_equal]
pub struct StandingView {
    pub current: Seq<char>,
    pub latest: Seq<char>,
    pub behind: bool,
}

/// Where a release stands against a build. Stable releases go by their version. The
/// canary goes by the commit, as far as the shorter of the two commits reaches; one
/// that is not known is not ahead.
pub open spec fn standing(ch: ReleaseChannel, b: Build, release: ReleaseView) -> StandingView {
    match ch {
        ReleaseChannel::Stable => {
            let latest = text::drop_leading(release.tag, 'v');
            StandingView {
                current: b.version@,
                latest,
                behind: newer(version(latest), version(b.version@)),
            }
        },
        ReleaseChannel::Canary => {
            let current = b.sha@;
            let latest = match release.sha {
                Some(s) => s,
                None => release.tag,
            };
            StandingView {
                current,
                latest,
                behind: latest != "unknown"@ && current.len() > 0 && latest.len() > 0
                    && !text::starts(current, latest) && !text::starts(latest, current),
            }
        },
    }
}

/// Where a release stands against a build: what is installed, what is published,
/// and whether the first is behind the second.
pub fn compare(ch: ReleaseChannel, build: &Build, release: &Release) -> (r: (String, String, bool))
    ensures
        (StandingView { current: r.0@, latest: r.1@, behind: r.2 }) == standing(
            ch,
            *build,
            release@,
        ),
{
    match ch {
        ReleaseChannel::Stable => {
            let latest = without_leading(release.tag.as_str(), 'v');
            let behind = is_newer(latest.as_str(), build.version.as_str());
            (build.version.clone(), latest, behind)
        },
        ReleaseChannel::Canary => {
            let current = build.sha.clone();
            let latest = match &release.sha {
                Some(s) => s.clone(),
                None => release.tag.clone(),
            };
            let a = current.as_str();
            let b = latest.as_str();
            let behind = !same(b, "unknown") && chars_of(a).len() > 0 && chars_of(b).len() > 0
                && !starts_with(a, b) && !starts_with(b, a);
            (current, latest, behind)
        },
    }
}

/// Where the address of the releases starts.
pub open spec fn releases_url() -> Seq<char> {
    "https://api.github.com/repos/"@ + repository() + "/releases/"@
}

/// Where a channel's release is described; why there is nothing to ask for where
/// the build does not know its target.
pub fn endpoint(ch: ReleaseChannel, build: &Build) -> (r: Result<String, String>)
    ensures
        match r {
            Ok(url) => build.target@ != "unknown"@ && url@ == releases_url() + match ch {
                ReleaseChannel::Stable => "latest"@,
                ReleaseChannel::Canary => "tags/canary"@,
            },
            Err(e) => build.target@ == "unknown"@ && e@
                == "this build has no target triple recorded — `upgrade` can't pick an asset"@,
        },
{
    if same(build.target.as_str(), "unknown") {
        return Err(
            "this build has no target triple recorded — `upgrade` can't pick an asset".to_owned(),
        );
    }
    let head = cat3("https://api.github.com/repos/", "nickbeaulieu/pyq", "/releases/");
    Ok(
        match ch {
            ReleaseChannel::Stable => cat(head.as_str(), "latest"),
            ReleaseChannel::Canary => cat(head.as_str(), "tags/canary"),
        },
    )
}

/// The address of an asset whose name ends so.
pub open spec fn asset_url(asset: JsonView, suffix: Seq<char>) -> Option<Seq<char>> {
    match asset.get_text("name"@) {
        Some(name) => if text::ends(name, suffix) {
            asset.get_text("browser_download_url"@)
        } else {
            None
        },
        None => None,
    }
}

/// The address of the first asset whose name ends so.
pub open spec fn first_url(assets: Seq<JsonView>, suffix: Seq<char>) -> Option<Seq<char>>
    decreases assets.len(),
{
    if assets.len() == 0 {
        None
    } else {
        match first_url(assets.drop_last(), suffix) {
            Some(u) => Some(u),
            None => asset_url(assets.last(), suffix),
        }
    }
}

/// The assets of a release.
pub open spec fn assets_of(body: JsonView) -> Seq<JsonView> {
    match body.get("assets"@) {
        Some(JsonView::Arr(items)) => items,
        _ => Seq::empty(),
    }
}

/// The first address found stays so when assets follow.
proof fn lemma_url_stays(assets: Seq<JsonView>, suffix: Seq<char>, n: int)
    requires
        0 <= n <= assets.len(),
        first_url(assets.take(n), suffix) is Some,
    ensures
        first_url(assets, suffix) == first_url(assets.take(n), suffix),
    decreases assets.len() - n,
{
    if n < assets.len() {
        text::lemma_take_step(assets, n);
        lemma_url_stays(assets, suffix, n + 1);
    } else {
        text::lemma_take_all(assets);
    }
}

/// The address of the first asset of a release whose name ends so.
fn find_url(body: &Json, suffix: &str) -> (r: Option<String>)
    ensures
        match r {
            Some(u) => first_url(assets_of(body@), suffix@) == Some(u@),
            None => first_url(assets_of(body@), suffix@) is None,
        },
{
    let found = body.get("assets");
    if let Some(Json::Arr(items)) = found {
        let ghost all = json::item_views(items@);
        proof {
            json::lemma_views(*found->0);
        }
        let mut i: usize = 0;
        while i < items.len()
            invariant
                i <= items@.len(),
                all == json::item_views(items@),
                all == assets_of(body@),
                first_url(all.take(i as int), suffix@) is None,
            decreases items@.len() - i,
        {
            proof {
                text::lemma_take_step(all, i as int);
                assert(all[i as int] == items@[i as int]@);
            }
            if let Some(name) = items[i].get_text("name") {
                if ends_with(name, suffix) {
                    if let Some(u) = items[i].get_text("browser_download_url") {
                        proof {
                            lemma_url_stays(all, suffix@, i + 1);
                        }
                        return Some(u.to_owned());
                    }
                }
            }
            i = i + 1;
        }
        proof {
            text::lemma_take_all(all);
        }
    } else {
        proof {
            if let Some(j) = found {
                json::lemma_views(*j);
            }
        }
    }
    None
}

/// The release that an answer of the releases' host describes, as far as it is for
/// a target; or what it lacks.
pub open spec fn release_in(body: JsonView, ch: ReleaseChannel, target: Seq<char>) -> Result<
    ReleaseView,
    Seq<char>,
> {
    let tarball = first_url(assets_of(body), "-"@ + target + ".tar.gz"@);
    let sum = first_url(assets_of(body), "-"@ + target + ".tar.gz.sha256"@);
    match (body.get_text("tag_name"@), tarball, sum) {
        (None, _, _) => Err(
            "no "@ + ch.name() + " release found on "@ + repository() + match ch {
                ReleaseChannel::Stable => " — no stable release exists yet; try `pyq channel canary`"@,
                ReleaseChannel::Canary => ""@,
            },
        ),
        (Some(_), None, _) => Err(
            "the "@ + ch.name() + " release has no asset for target "@ + target,
        ),
        (Some(_), Some(_), None) => Err(
            "the "@ + ch.name() + " release is missing the .sha256 for "@ + target,
        ),
        (Some(tag), Some(tarball_url), Some(sha256_url)) => Ok(
            ReleaseView {
                tag,
                sha: match body.get_text("body"@) {
                    Some(notes) => sha_marker(notes),
                    None => None,
                },
                tarball_url,
                sha256_url,
            },
        ),
    }
}

/// The release that an answer of the releases' host describes, as far as it is for
/// a target; or what it lacks.
pub fn release_of(body: &Json, ch: ReleaseChannel, target: &str) -> (r: Result<Release, String>)
    ensures
        match r {
            Ok(release) => release_in(body@, ch, target@) == Ok::<ReleaseView, Seq<char>>(release@),
            Err(e) => release_in(body@, ch, target@) == Err::<ReleaseView, Seq<char>>(e@),
        },
{
    let tag = match body.get_text("tag_name") {
        Some(t) => t.to_owned(),
        None => {
            let hint = match ch {
                ReleaseChannel::Stable => " — no stable release exists yet; try `pyq channel canary`",
                ReleaseChannel::Canary => "",
            };
            return Err(cat5("no ", ch.as_str(), " release found on ", "nickbeaulieu/pyq", hint));
        },
    };
    let tar = cat3("-", target, ".tar.gz");
    let tarball_url = match find_url(body, tar.as_str()) {
        Some(u) => u,
        None => {
            let head = cat3("the ", ch.as_str(), " release has no asset for target ");
            return Err(cat(head.as_str(), target));
        },
    };
    let sum = cat3("-", target, ".tar.gz.sha256");
    let sha256_url = match find_url(body, sum.as_str()) {
        Some(u) => u,
        None => {
            let head = cat3("the ", ch.as_str(), " release is missing the .sha256 for ");
            return Err(cat(head.as_str(), target));
        },
    };
    let sha = match body.get_text("body") {
        Some(notes) => parse_sha_marker(notes),
        None => None,
    };
    Ok(Release { tag, sha, tarball_url, sha256_url })
}

/// The answer to an upgrade: what the release is against the build, and what was
/// done about it.
pub open spec fn upgrade_answer(
    ch: ReleaseChannel,
    b: Build,
    s: StandingView,
    check: bool,
    force: bool,
) -> EnvelopeView {
    let query = JsonView::object().with("kind"@, JsonView::Str("upgrade"@)).with(
        "channel"@,
        JsonView::Str(ch.name()),
    ).with("current"@, JsonView::Str(s.current)).with("latest"@, JsonView::Str(s.latest)).with(
        "target"@,
        JsonView::Str(b.target@),
    );
    EnvelopeView::of(query, Seq::empty()).summarized(
        if !s.behind && !force {
            "already up to date on "@ + ch.name() + " ("@ + s.current + ")"@
        } else if check {
            ((if s.behind {
                "upgrade available: "@
            } else {
                "upgrade reinstallable: "@
            }) + s.current + " → "@ + s.latest + " on "@) + (ch.name()
                + "\nrun `pyq upgrade` to install"@)
        } else {
            ("upgraded "@ + s.current + " → "@ + s.latest + " on "@) + ch.name()
        },
    )
}

/// Whether an upgrade installs the release: where the build is behind it or
/// installing is forced, unless it is only to check.
pub open spec fn installs(s: StandingView, check: bool, force: bool) -> bool {
    (s.behind || force) && !check
}

/// What an upgrade to a release comes to: the answer, and whether the release is
/// to be installed before it is given.
pub fn run(ch: ReleaseChannel, build: &Build, release: &Release, check: bool, force: bool) -> (r: (
    Envelope,
    bool,
))
    ensures
        r.0@ == upgrade_answer(ch, *build, standing(ch, *build, release@), check, force),
        r.1 == installs(standing(ch, *build, release@), check, force),
{
    let (current, latest, behind) = compare(ch, build, release);
    let none: Vec<Json> = Vec::new();
    assert(json::item_views(none@) =~= Seq::empty());
    let q = Json::object().with("kind", Json::text("upgrade")).with(
        "channel",
        Json::text(ch.as_str()),
    ).with("current", Json::text(current.as_str())).with("latest", Json::text(latest.as_str())).with(
        "target",
        Json::text(build.target.as_str()),
    );
    let envelope = Envelope::new(q, none);
    if !behind && !force {
        let summary = cat5("already up to date on ", ch.as_str(), " (", current.as_str(), ")");
        return (envelope.with_summary(summary), false);
    }
    if check {
        let verb = if behind {
            "upgrade available: "
        } else {
            "upgrade reinstallable: "
        };
        let head = cat5(verb, current.as_str(), " → ", latest.as_str(), " on ");
        let tail = cat(ch.as_str(), "\nrun `pyq upgrade` to install");
        return (envelope.with_summary(cat(head.as_str(), tail.as_str())), false);
    }
    let head = cat5("upgraded ", current.as_str(), " → ", latest.as_str(), " on ");
    (envelope.with_summary(cat(head.as_str(), ch.as_str())), true)
}

/// Bytes as pairs of hexadecimal digits.
pub open spec fn hexed(bytes: Seq<u8>) -> Seq<char>
    decreases bytes.len(),
{
    if bytes.len() == 0 {
        Seq::empty()
    } else {
        let b = bytes.last() as nat;
        hexed(bytes.drop_last()).push(text::hex_digit(b / 16)).push(text::hex_digit(b % 16))
    }
}

/// A hexadecimal digit.
fn digit_of(n: u8) -> (r: char)
    requires
        n < 16,
    ensures
        r == text::hex_digit(n as nat),
{
    if n < 10 {
        (48u8 + n) as char
    } else {
        (87u8 + n) as char
    }
}

/// Bytes as pairs of hexadecimal digits.
pub fn hex(bytes: &[u8]) -> (r: String)
    ensures
        r@ == hexed(bytes@),
{
    let mut out = String::new();
    let mut i: usize = 0;
    assert(out@ =~= hexed(bytes@.take(0)));
    while i < bytes.len()
        invariant
            i <= bytes@.len(),
            out@ == hexed(bytes@.take(i as int)),
        decreases bytes@.len() - i,
    {
        proof {
            text::lemma_take_step(bytes@, i as int);
        }
        let b = bytes[i];
        out.push(digit_of(b / 16));
        out.push(digit_of(b % 16));
        i = i + 1;
    }
    proof {
        text::lemma_take_all(bytes@);
    }
    out
}

/// The SHA-256 digest of bytes.
pub uninterp spec fn sha256(bytes: Seq<u8>) -> Seq<u8>;

/// `sha2::Sha256::digest`: the SHA-256 digest of the bytes, thirty-two bytes long.
#[verifier::external_body]
fn digest(bytes: &[u8]) -> (r: Vec<u8>)
    ensures
        r@ == sha256(bytes@),
        r@.len() == 32,
{
    <sha2::Sha256 as sha2::Digest>::digest(bytes).to_vec()
}

/// Why a download is not installed.
#[derive(Debug)]
pub enum SumError {
    /// The checksum file does not start with a checksum.
    Malformed,
    /// The checksum that is expected, and that of the download.
    Mismatch(String, String),
}

/// The checksum that a checksum file starts with.
pub open spec fn expected_sum(sha_text: Seq<char>) -> Seq<char> {
    let w = lines::words(sha_text);
    if w.len() > 0 {
        text::lower(w[0])
    } else {
        Seq::empty()
    }
}

/// Holds a digest against a checksum file.
pub fn check_digest(got: &[u8], sha_text: &str) -> (r: Result<(), SumError>)
    ensures
        match r {
            Ok(_) => syntax::byte_len(expected_sum(sha_text@)) == 64 && expected_sum(sha_text@)
                == hexed(got@),
            Err(SumError::Malformed) => syntax::byte_len(expected_sum(sha_text@)) != 64,
            Err(SumError::Mismatch(expected, seen)) => {
                &&& syntax::byte_len(expected_sum(sha_text@)) == 64
                &&& expected_sum(sha_text@) != hexed(got@)
                &&& expected@ == expected_sum(sha_text@)
                &&& seen@ == hexed(got@)
            },
        },
{
    let w = split_words(sha_text);
    let expected = if w.len() > 0 {
        assert(text::views(w@)[0] == w@[0]@);
        lowered(w[0].as_str())
    } else {
        let none = String::new();
        assert(none@ =~= Seq::empty());
        none
    };
    if !takes_bytes(expected.as_str(), 64) {
        return Err(SumError::Malformed);
    }
    let seen = hex(got);
    if same(seen.as_str(), expected.as_str()) {
        Ok(())
    } else {
        Err(SumError::Mismatch(expected, seen))
    }
}

/// Holds a download against its checksum file.
pub fn check_download(tarball: &[u8], sha_text: &str) -> (r: Result<(), SumError>)
    ensures
        match r {
            Ok(_) => syntax::byte_len(expected_sum(sha_text@)) == 64 && expected_sum(sha_text@)
                == hexed(sha256(tarball@)),
            Err(SumError::Malformed) => syntax::byte_len(expected_sum(sha_text@)) != 64,
            Err(SumError::Mismatch(expected, seen)) => {
                &&& syntax::byte_len(expected_sum(sha_text@)) == 64
                &&& expected_sum(sha_text@) != hexed(sha256(tarball@))
                &&& expected@ == expected_sum(sha_text@)
                &&& seen@ == hexed(sha256(tarball@))
            },
        },
{
    let got = digest(tarball);
    check_digest(got.as_slice(), sha_text)
}

/// No version is newer than itself, and of two versions only one is newer than the
/// other.
pub proof fn law_newer_is_strict(a: Seq<char>, b: Seq<char>)
    ensures
        !newer(version(a), version(a)),
        newer(version(a), version(b)) ==> !newer(version(b), version(a)),
{
}

/// A build that is not behind is left alone unless installing is forced, and a
/// check never installs.
pub proof fn law_install_only_when_due(s: StandingView, check: bool, force: bool)
    ensures
        installs(s, check, force) ==> !check && (s.behind || force),
        !installs(s, true, force),
        !s.behind && !force ==> !installs(s, check, force),
{
}

} // verus!
