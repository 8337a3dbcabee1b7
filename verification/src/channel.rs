//! The release channel that upgrades follow.
use crate::json::{Json, JsonView};
use crate::output::{Envelope, EnvelopeView};
use crate::text::{cat, cat3, cat5, lowered, same, trimmed};
use crate::text;
use vstd::prelude::*;

verus! {

/// A line of releases.
#[derive(Clone, Copy, Debug, PartialEq, Eq, Structural)]
pub enum ReleaseChannel {
    /// The tagged releases, by version.
    Stable,
    /// The rolling release that follows the main branch, by commit.
    Canary,
}

/// What a build says of itself.
#[derive(Debug)]
pub struct Build {
    pub version: String,
    /// The channel that it was built on.
    pub channel: String,
    pub date: String,
    /// The commit that it was built from.
    pub sha: String,
    /// The triple of the target that it was built for.
    pub target: String,
}

/// The channel of a name, in any case and with space around it.
pub open spec fn named(s: Seq<char>) -> Option<ReleaseChannel> {
    let t = text::lower(text::trim(s));
    if t == "stable"@ {
        Some(ReleaseChannel::Stable)
    } else if t == "canary"@ {
        Some(ReleaseChannel::Canary)
    } else {
        None
    }
}

impl ReleaseChannel {
    /// The name of a channel.
    pub open spec fn name(self) -> Seq<char> {
        match self {
            ReleaseChannel::Stable => "stable"@,
            ReleaseChannel::Canary => "canary"@,
        }
    }

    /// The name of a channel.
    pub fn as_str(self) -> (r: &'static str)
        ensures
            r@ == self.name(),
    {
        match self {
            ReleaseChannel::Stable => "stable",
            ReleaseChannel::Canary => "canary",
        }
    }

    /// The channel of a name; where it names none, the name in lower case and
    /// without the space around it.
    pub fn parse(s: &str) -> (r: Result<Self, String>)
        ensures
            match r {
                Ok(ch) => named(s@) == Some(ch),
                Err(other) => named(s@) is None && other@ == text::lower(text::trim(s@)),
            },
    {
        let t = trimmed(s);
        let name = lowered(t.as_str());
        if same(name.as_str(), "stable") {
            Ok(ReleaseChannel::Stable)
        } else if same(name.as_str(), "canary") {
            Ok(ReleaseChannel::Canary)
        } else {
            Err(name)
        }
    }
}

/// The channel that is set: that of the stored text where it names one, else that
/// of the build, else the stable one.
pub open spec fn set_channel(stored: Option<Seq<char>>, built: Seq<char>) -> ReleaseChannel {
    let first = match stored {
        Some(s) => named(s),
        None => None,
    };
    match (first, named(built)) {
        (Some(ch), _) => ch,
        (None, Some(ch)) => ch,
        (None, None) => ReleaseChannel::Stable,
    }
}

/// The channel that is set. `stored` is the text of the channel file, where it
/// could be read, and `built` the channel of the build.
pub fn configured(stored: Option<&str>, built: &str) -> (r: ReleaseChannel)
    ensures
        r == set_channel(
            match stored {
                Some(s) => Some(s@),
                None => None,
            },
            built@,
        ),
{
    if let Some(s) = stored {
        if let Ok(ch) = ReleaseChannel::parse(s) {
            return ch;
        }
    }
    match ReleaseChannel::parse(built) {
        Ok(ch) => ch,
        Err(_) => ReleaseChannel::Stable,
    }
}

/// What the channel file holds for a channel.
pub fn file_text(ch: ReleaseChannel) -> (r: String)
    ensures
        r@ == ch.name() + "\n"@,
{
    cat(ch.as_str(), "\n")
}

/// The answer to a switch.
pub open spec fn switched(ch: ReleaseChannel) -> EnvelopeView {
    EnvelopeView::of(
        JsonView::object().with("kind"@, JsonView::Str("channel"@)).with(
            "set"@,
            JsonView::Str(ch.name()),
        ),
        Seq::empty(),
    ).summarized(
        "channel set to "@ + ch.name() + " — run `pyq upgrade` to move to the latest "@ + ch.name()
            + " build"@,
    )
}

/// What a build says of itself, as a value.
pub open spec fn build_rows(b: Build) -> JsonView {
    JsonView::object().with("version"@, JsonView::Str(b.version@)).with(
        "channel"@,
        JsonView::Str(b.channel@),
    ).with("date"@, JsonView::Str(b.date@)).with("sha"@, JsonView::Str(b.sha@)).with(
        "target"@,
        JsonView::Str(b.target@),
    )
}

/// A version and where it comes from: `0.1.0 (canary 2026-01-31 a1b2c3d)`.
pub open spec fn build_line(b: Build) -> Seq<char> {
    (b.version@ + " ("@ + b.channel@ + " "@ + b.date@) + (" "@ + b.sha@ + ")"@)
}

/// A version and where it comes from.
pub fn version_line(b: &Build) -> (r: String)
    ensures
        r@ == build_line(*b),
{
    let head = cat5(b.version.as_str(), " (", b.channel.as_str(), " ", b.date.as_str());
    let tail = cat3(" ", b.sha.as_str(), ")");
    cat(head.as_str(), tail.as_str())
}

/// The answer to the question which channel is set.
pub open spec fn shown(ch: ReleaseChannel, b: Build) -> EnvelopeView {
    EnvelopeView::of(
        JsonView::object().with("kind"@, JsonView::Str("channel"@)).with(
            "channel"@,
            JsonView::Str(ch.name()),
        ).with("build"@, build_rows(b)),
        Seq::empty(),
    ).summarized(("channel: "@ + ch.name() + "\nbuild:   pyq "@) + build_line(b))
}

/// Shows the channel that is set, or switches to the one that is named. With the
/// answer comes the channel to store, where there is a switch.
pub fn query(arg: Option<&str>, stored: Option<&str>, build: &Build) -> (r: Result<
    (Envelope, Option<ReleaseChannel>),
    String,
>)
    ensures
        match arg {
            Some(name) => match named(name@) {
                Some(ch) => r matches Ok(answer) && answer.0@ == switched(ch) && answer.1 == Some(
                    ch,
                ),
                None => r matches Err(other) && other@ == text::lower(text::trim(name@)),
            },
            None => r matches Ok(answer) && answer.1 is None && answer.0@ == shown(
                set_channel(
                    match stored {
                        Some(s) => Some(s@),
                        None => None,
                    },
                    build.channel@,
                ),
                *build,
            ),
        },
{
    let none: Vec<Json> = Vec::new();
    assert(crate::json::item_views(none@) =~= Seq::empty());
    match arg {
        Some(name) => {
            let ch = match ReleaseChannel::parse(name) {
                Ok(ch) => ch,
                Err(other) => return Err(other),
            };
            let q = Json::object().with("kind", Json::text("channel")).with(
                "set",
                Json::text(ch.as_str()),
            );
            let summary = cat5(
                "channel set to ",
                ch.as_str(),
                " — run `pyq upgrade` to move to the latest ",
                ch.as_str(),
                " build",
            );
            Ok((Envelope::new(q, none).with_summary(summary), Some(ch)))
        },
        None => {
            let ch = configured(stored, build.channel.as_str());
            let rows = Json::object().with("version", Json::text(build.version.as_str())).with(
                "channel",
                Json::text(build.channel.as_str()),
            ).with("date", Json::text(build.date.as_str())).with(
                "sha",
                Json::text(build.sha.as_str()),
            ).with("target", Json::text(build.target.as_str()));
            let q = Json::object().with("kind", Json::text("channel")).with(
                "channel",
                Json::text(ch.as_str()),
            ).with("build", rows);
            let head = cat3("channel: ", ch.as_str(), "\nbuild:   pyq ");
            let line = version_line(build);
            let summary = cat(head.as_str(), line.as_str());
            Ok((Envelope::new(q, none).with_summary(summary), None))
        },
    }
}

/// What a switch stores is read back as the channel that was switched to.
pub proof fn law_stored_channel_is_read(ch: ReleaseChannel, built: Seq<char>)
    ensures
        set_channel(Some(ch.name() + "\n"@), built) == ch,
{
    reveal_strlit("stable");
    reveal_strlit("canary");
    reveal_strlit("\n");
    let name = ch.name();
    let stored = name + "\n"@;
    assert(text::trim_start(stored) == stored);
    assert(stored.drop_last() =~= name);
    assert(text::trim_end(name) == name);
    assert(text::trim(stored) == name);
    assert(text::lower(name) =~= name);
    assert("stable"@[0] == 's' && "canary"@[0] == 'c');
}

} // verus!
