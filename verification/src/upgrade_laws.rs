//! What holds of versions, releases, checksums and channels.
use crate::channel::{Build, ReleaseChannel};
use crate::channel;
use crate::json::JsonView;
use crate::lines;
use crate::name_laws;
use crate::place_laws;
use crate::text;
use crate::text_laws;
use crate::upgrade::ReleaseView;
use crate::upgrade;
use vstd::prelude::*;

verus! {

/// Whether a text writes a version: three numbers with dots between them, a `v` before them or
/// none, and nothing or a mark of a release after them.
pub open spec fn writes(
    s: Seq<char>,
    a: u64,
    b: u64,
    c: u64,
    rest: Seq<char>,
) -> bool {
    let core = text::decimal(a as nat) + "."@ + text::decimal(b as nat) + "."@ + text::decimal(
        c as nat,
    );
    &&& s == core + rest || s == "v"@ + core + rest
    &&& rest.len() == 0 || ((rest[0] == '-' || rest[0] == '+') && !text::white_space(
        rest[rest.len() - 1],
    ))
}

proof fn lemma_digits(n: nat)
    ensures
        text::decimal(n).len() > 0,
        forall|k: int|
            0 <= k < text::decimal(n).len() ==> '0' <= #[trigger] text::decimal(n)[k] <= '9',
        forall|k: int|
            0 <= k < text::decimal(n).len() ==> !".-+"@.contains(#[trigger] text::decimal(n)[k]),
{
    reveal_strlit(".-+");
    text_laws::law_decimal_stands_for_its_number(n);
    let s = text::decimal(n);
    assert forall|k: int| 0 <= k < s.len() implies !".-+"@.contains(#[trigger] s[k]) by {
        assert('0' <= s[k] <= '9');
    }
}

/// A version is read as it is written; a mark after it does not count.
pub proof fn law_version_is_read(s: Seq<char>, a: u64, b: u64, c: u64, rest: Seq<char>)
    requires
        writes(s, a, b, c, rest),
    ensures
        upgrade::version(s) == (a as nat, b as nat, c as nat),
{
    reveal_strlit(".");
    reveal_strlit("v");
    reveal_strlit(".-+");
    let seps = ".-+"@;
    assert(seps[0] == '.' && seps[1] == '-' && seps[2] == '+');
    let x = text::decimal(a as nat);
    let y = text::decimal(b as nat);
    let z = text::decimal(c as nat);
    lemma_digits(a as nat);
    lemma_digits(b as nat);
    lemma_digits(c as nat);
    let core = x + "."@ + y + "."@ + z;
    let plain = core + rest;
    assert(plain[0] == x[0]);
    assert('0' <= x[0] <= '9');
    assert('0' <= z[z.len() - 1] <= '9');
    assert(plain[plain.len() - 1] == if rest.len() == 0 {
        z[z.len() - 1]
    } else {
        rest[rest.len() - 1]
    });
    assert(s.len() > 0 && !text::white_space(s[0]) && !text::white_space(s[s.len() - 1])) by {
        if s != plain {
            assert(s =~= "v"@ + plain);
            assert(s[0] == 'v');
            assert(s[s.len() - 1] == plain[plain.len() - 1]);
        }
    }
    text_laws::law_trim_leaves_the_rest(s);
    reveal_with_fuel(text::drop_leading, 3);
    assert(text::drop_leading(s, 'v') == plain) by {
        if s != plain {
            assert(s =~= "v"@ + plain);
            assert(s.skip(1) =~= plain);
        }
    }
    let tail = z + rest;
    let mid = y.push('.') + tail;
    assert(plain =~= x.push('.') + mid);
    text_laws::law_piece_before_separator(x, '.', mid, seps);
    name_laws::lemma_split_at(x, '.', mid, seps);
    name_laws::lemma_whole(x, seps);
    name_laws::lemma_split_at(y, '.', tail, seps);
    name_laws::lemma_whole(y, seps);
    text_laws::law_first_piece(z, rest, seps);
    text::lemma_split_nonempty(rest, seps);
    let parts = text::split(plain, seps);
    assert(parts =~= seq![x] + (seq![y] + text::split(tail, seps)));
    assert(parts[0] == x && parts[1] == y && parts[2] == text::split(tail, seps)[0]);
    assert(text::split(tail, seps)[0] == z) by {
        if rest.len() > 0 {
            let more = rest.skip(1);
            assert(rest =~= Seq::<char>::empty().push(rest[0]) + more);
            text_laws::law_piece_before_separator(Seq::empty(), rest[0], more, seps);
            assert(z + Seq::<char>::empty() =~= z);
        } else {
            assert(rest =~= Seq::empty());
            assert(z + Seq::<char>::empty() =~= z);
        }
    }
    text_laws::law_decimal_reads_back(a as nat, u64::MAX as nat);
    text_laws::law_decimal_reads_back(b as nat, u64::MAX as nat);
    text_laws::law_decimal_reads_back(c as nat, u64::MAX as nat);
}

/// Of two versions the one is newer whose first number that differs is greater.
pub proof fn law_newer_by_the_first_that_differs(
    s: Seq<char>,
    a: u64,
    b: u64,
    c: u64,
    rest: Seq<char>,
    t: Seq<char>,
    x: u64,
    y: u64,
    z: u64,
    more: Seq<char>,
)
    requires
        writes(s, a, b, c, rest),
        writes(t, x, y, z, more),
    ensures
        a > x ==> upgrade::newer(upgrade::version(s), upgrade::version(t)),
        a < x ==> !upgrade::newer(upgrade::version(s), upgrade::version(t)),
        a == x && b > y ==> upgrade::newer(upgrade::version(s), upgrade::version(t)),
        a == x && b < y ==> !upgrade::newer(upgrade::version(s), upgrade::version(t)),
        a == x && b == y ==> (upgrade::newer(upgrade::version(s), upgrade::version(t)) <==> c > z),
{
    law_version_is_read(s, a, b, c, rest);
    law_version_is_read(t, x, y, z, more);
}

/// A build of the stable channel is behind just where the release is newer; one of the canary
/// channel where the release names another commit. Of two names of commits the shorter may be
/// the start of the longer. Where one of the commits is not known, nothing is behind.
pub proof fn law_behind(b: Build, release: ReleaseView)
    ensures
        upgrade::standing(ReleaseChannel::Stable, b, release).behind == upgrade::newer(
            upgrade::version(text::drop_leading(release.tag, 'v')),
            upgrade::version(b.version@),
        ),
        release.sha matches Some(s) ==> {
            let behind = upgrade::standing(ReleaseChannel::Canary, b, release).behind;
            &&& s == b.sha@ ==> !behind
            &&& s.len() <= b.sha@.len() && b.sha@.take(s.len() as int) == s ==> !behind
            &&& b.sha@.len() <= s.len() && s.take(b.sha@.len() as int) == b.sha@ ==> !behind
            &&& b.sha@.len() == s.len() && s.len() > 0 && s != b.sha@ && s != "unknown"@ ==> behind
            &&& s == "unknown"@ || s.len() == 0 || b.sha@.len() == 0 ==> !behind
        },
{
    if let Some(s) = release.sha {
        let cur = b.sha@;
        if s.len() <= cur.len() {
            assert(cur.subrange(0, s.len() as int) =~= cur.take(s.len() as int));
        }
        if cur.len() <= s.len() {
            assert(s.subrange(0, cur.len() as int) =~= s.take(cur.len() as int));
        }
        if cur.len() == s.len() {
            assert(cur.take(s.len() as int) =~= cur);
            assert(s.take(cur.len() as int) =~= s);
        }
        if s == cur {
            assert(cur.take(s.len() as int) =~= s);
        }
    }
}

/// The commit of a release is what the first line that names one names.
pub proof fn law_first_commit_counts(
    list: Seq<Seq<char>>,
    i: int,
    sha: Seq<char>,
    before: Seq<char>,
    between: Seq<char>,
    after: Seq<char>,
)
    requires
        0 <= i < list.len(),
        forall|k: int| 0 <= k < i ==> upgrade::marked(#[trigger] list[k]) is None,
        list[i] == before + ("pyq-sha:"@ + (between + sha)) + after,
        forall|k: int| 0 <= k < before.len() ==> text::white_space(#[trigger] before[k]),
        forall|k: int| 0 <= k < between.len() ==> text::white_space(#[trigger] between[k]),
        forall|k: int| 0 <= k < after.len() ==> text::white_space(#[trigger] after[k]),
        sha.len() > 0,
        !text::white_space(sha[0]),
        !text::white_space(sha[sha.len() - 1]),
    ensures
        upgrade::first_marked(list) == Some(sha),
    decreases list.len(),
{
    let less = list.drop_last();
    if i < less.len() {
        assert forall|k: int| 0 <= k < i implies upgrade::marked(#[trigger] less[k]) is None by {
            assert(less[k] == list[k]);
        }
        law_first_commit_counts(less, i, sha, before, between, after);
    } else {
        lemma_none_marked(less);
        reveal_strlit("pyq-sha:");
        let mark = "pyq-sha:"@;
        let t = mark + (between + sha);
        assert(t[0] == 'p');
        assert(t[t.len() - 1] == sha[sha.len() - 1]);
        text_laws::law_trim(before, t, after);
        assert(t.subrange(0, mark.len() as int) =~= mark);
        assert(t.skip(mark.len() as int) =~= between + sha);
        text_laws::law_trim(between, sha, Seq::empty());
        assert(between + sha + Seq::<char>::empty() =~= between + sha);
    }
}

proof fn lemma_none_marked(list: Seq<Seq<char>>)
    requires
        forall|k: int| 0 <= k < list.len() ==> upgrade::marked(#[trigger] list[k]) is None,
    ensures
        upgrade::first_marked(list) is None,
    decreases list.len(),
{
    if list.len() > 0 {
        let less = list.drop_last();
        assert forall|k: int| 0 <= k < less.len() implies upgrade::marked(
            #[trigger] less[k],
        ) is None by {
            assert(less[k] == list[k]);
        }
        lemma_none_marked(less);
        assert(list[list.len() - 1] == list.last());
    }
}

proof fn lemma_first_url(list: Seq<JsonView>, suffix: Seq<char>, i: int)
    requires
        0 <= i < list.len(),
        upgrade::asset_url(list[i], suffix) is Some,
    ensures
        upgrade::first_url(list, suffix) is Some,
    decreases list.len(),
{
    if i < list.len() - 1 {
        assert(list.drop_last()[i] == list[i]);
        lemma_first_url(list.drop_last(), suffix, i);
    }
}

proof fn lemma_url_from(list: Seq<JsonView>, suffix: Seq<char>) -> (i: int)
    requires
        upgrade::first_url(list, suffix) is Some,
    ensures
        0 <= i < list.len(),
        upgrade::asset_url(list[i], suffix) == upgrade::first_url(list, suffix),
    decreases list.len(),
{
    if upgrade::first_url(list.drop_last(), suffix) is Some {
        lemma_url_from(list.drop_last(), suffix)
    } else {
        list.len() - 1
    }
}

/// Whether a release has an asset with a name that ends so, at a URL.
pub open spec fn has_asset(body: JsonView, i: int, name: Seq<char>, url: Seq<char>) -> bool {
    &&& 0 <= i < upgrade::assets_of(body).len()
    &&& upgrade::assets_of(body)[i].get_text("name"@) == Some(name)
    &&& upgrade::assets_of(body)[i].get_text("browser_download_url"@) == Some(url)
}

/// A release with a tag, an archive for the target and a checksum of it is one to install: its
/// archive and its checksum are assets of it for the target. One without a tag, without the
/// archive or without the checksum is not.
pub proof fn law_release(
    body: JsonView,
    ch: ReleaseChannel,
    target: Seq<char>,
    tag: Seq<char>,
    p: Seq<char>,
    i: int,
    u: Seq<char>,
    q: Seq<char>,
    j: int,
    v: Seq<char>,
)
    requires
        body.get_text("tag_name"@) == Some(tag),
        has_asset(body, i, p + ("-"@ + target + ".tar.gz"@), u),
        has_asset(body, j, q + ("-"@ + target + ".tar.gz.sha256"@), v),
    ensures
        upgrade::release_in(body, ch, target) is Ok,
        ({
            let r = upgrade::release_in(body, ch, target)->Ok_0;
            &&& r.tag == tag
            &&& exists|k: int|
                0 <= k < upgrade::assets_of(body).len() && (
                #[trigger] upgrade::assets_of(body)[k]).get_text("browser_download_url"@) == Some(
                    r.tarball_url,
                ) && upgrade::assets_of(body)[k].get_text("name"@) is Some && text::ends(
                    upgrade::assets_of(body)[k].get_text("name"@)->0,
                    "-"@ + target + ".tar.gz"@,
                )
            &&& exists|k: int|
                0 <= k < upgrade::assets_of(body).len() && (
                #[trigger] upgrade::assets_of(body)[k]).get_text("browser_download_url"@) == Some(
                    r.sha256_url,
                ) && upgrade::assets_of(body)[k].get_text("name"@) is Some && text::ends(
                    upgrade::assets_of(body)[k].get_text("name"@)->0,
                    "-"@ + target + ".tar.gz.sha256"@,
                )
        }),
{
    let list = upgrade::assets_of(body);
    let a = "-"@ + target + ".tar.gz"@;
    let b = "-"@ + target + ".tar.gz.sha256"@;
    lemma_tail(p, a);
    lemma_tail(q, b);
    lemma_first_url(list, a, i);
    lemma_first_url(list, b, j);
    let k = lemma_url_from(list, a);
    let m = lemma_url_from(list, b);
    assert(list[k].get_text("name"@) is Some);
    assert(list[m].get_text("name"@) is Some);
}

proof fn lemma_tail(p: Seq<char>, t: Seq<char>)
    ensures
        text::ends(p + t, t),
{
    let s = p + t;
    assert(s.subrange(s.len() - t.len(), s.len() as int) =~= t);
}

/// A release that lacks its tag, or every archive for the target, is refused.
pub proof fn law_release_is_refused(body: JsonView, ch: ReleaseChannel, target: Seq<char>)
    requires
        body.get_text("tag_name"@) is None || forall|k: int|
            0 <= k < upgrade::assets_of(body).len() ==> match (
            #[trigger] upgrade::assets_of(body)[k]).get_text("name"@) {
                Some(n) => !text::ends(n, "-"@ + target + ".tar.gz"@),
                None => true,
            },
    ensures
        upgrade::release_in(body, ch, target) is Err,
{
    let list = upgrade::assets_of(body);
    let a = "-"@ + target + ".tar.gz"@;
    if upgrade::first_url(list, a) is Some {
        let k = lemma_url_from(list, a);
        assert(list[k].get_text("name"@) is Some);
    }
}

/// Each byte is written as two digits, the greater half first.
pub proof fn law_hex_digits(bytes: Seq<u8>, i: int)
    requires
        0 <= i < bytes.len(),
    ensures
        upgrade::hexed(bytes).len() == 2 * bytes.len(),
        upgrade::hexed(bytes)[2 * i] == text::hex_digit((bytes[i] / 16) as nat),
        upgrade::hexed(bytes)[2 * i + 1] == text::hex_digit((bytes[i] % 16) as nat),
    decreases bytes.len(),
{
    let less = bytes.drop_last();
    if less.len() > 0 {
        law_hex_digits(less, 0);
        if i < less.len() {
            law_hex_digits(less, i);
            assert(less[i] == bytes[i]);
        }
    } else {
        assert(upgrade::hexed(less).len() == 0);
    }
    assert(bytes.last() == bytes[bytes.len() - 1]);
}

/// The digits below ten are those of decimal numbers, the others the first letters.
pub proof fn law_hex_digit(n: nat)
    requires
        n < 16,
    ensures
        n < 10 ==> text::hex_digit(n) as u32 == '0' as u32 + n,
        n >= 10 ==> text::hex_digit(n) as u32 == 'a' as u32 + (n - 10),
{
}

/// Two contents of one checksum text are one checksum.
pub proof fn law_hex_tells_bytes_apart(a: Seq<u8>, b: Seq<u8>)
    requires
        upgrade::hexed(a) == upgrade::hexed(b),
    ensures
        a == b,
{
    lemma_hex_len(a);
    lemma_hex_len(b);
    assert(a.len() == b.len());
    assert forall|i: int| 0 <= i < a.len() implies a[i] == b[i] by {
        law_hex_digits(a, i);
        law_hex_digits(b, i);
        let p = (a[i] / 16) as nat;
        let q = (b[i] / 16) as nat;
        let r = (a[i] % 16) as nat;
        let s = (b[i] % 16) as nat;
        law_hex_digit(p);
        law_hex_digit(q);
        law_hex_digit(r);
        law_hex_digit(s);
        assert(p == q && r == s);
        assert(a[i] == 16 * p + r && b[i] == 16 * q + s);
    }
    assert(a =~= b);
}

pub proof fn lemma_hex_len(a: Seq<u8>)
    ensures
        upgrade::hexed(a).len() == 2 * a.len(),
{
    if a.len() > 0 {
        law_hex_digits(a, 0);
    }
}

/// The channel is the one that was stored; where none was, or none that is known, the one that
/// the build names; else the stable one.
pub proof fn law_channel_is_chosen(ch: ReleaseChannel, stored: Seq<char>, built: Seq<char>)
    ensures
        channel::named(stored) == Some(ch) ==> channel::set_channel(Some(stored), built) == ch,
        channel::named(stored) is None && channel::named(built) == Some(ch)
            ==> channel::set_channel(Some(stored), built) == ch,
        channel::named(built) == Some(ch) ==> channel::set_channel(None, built) == ch,
        channel::named(stored) is None && channel::named(built) is None ==> channel::set_channel(
            Some(stored),
            built,
        ) is Stable,
        channel::named(built) is None ==> channel::set_channel(None, built) is Stable,
{
}

/// A channel goes by its name, in capitals or not, with white space around it or not.
pub proof fn law_channel_names(ch: ReleaseChannel, a: Seq<char>, s: Seq<char>, b: Seq<char>)
    requires
        forall|k: int| 0 <= k < a.len() ==> text::white_space(#[trigger] a[k]),
        forall|k: int| 0 <= k < b.len() ==> text::white_space(#[trigger] b[k]),
        text::lower(s) == ch.name(),
    ensures
        channel::named(a + s + b) == Some(ch),
{
    reveal_strlit("stable");
    reveal_strlit("canary");
    let t = text::lower(s);
    assert(t.len() == s.len());
    assert(ch.name().len() == 6);
    assert(t[0] == text::lower_char(s[0]));
    assert(t[5] == text::lower_char(s[5]));
    text_laws::law_trim(a, s, b);
    assert("stable"@[0] == 's' && "canary"@[0] == 'c');
}

proof fn lemma_first_word(w: Seq<char>, c: char, rest: Seq<char>)
    requires
        place_laws::word(w),
        text::white_space(c),
    ensures
        lines::words(w.push(c) + rest).len() > 0,
        lines::words(w.push(c) + rest)[0] == w,
    decreases rest.len(),
{
    let s = w.push(c) + rest;
    if rest.len() == 0 {
        assert(s =~= w.push(c));
        place_laws::law_white_space_ends_words(w, c);
        place_laws::law_words(Seq::empty(), w);
        assert(Seq::<char>::empty() + w =~= w);
    } else {
        let less = rest.drop_last();
        lemma_first_word(w, c, less);
        assert(s.drop_last() =~= w.push(c) + less);
        assert(s.last() == rest.last());
        if less.len() == 0 {
            assert(s[s.len() - 2] == c);
        } else {
            lemma_many_words(w, c, less);
        }
    }
}

proof fn lemma_many_words(w: Seq<char>, c: char, rest: Seq<char>)
    requires
        place_laws::word(w),
        text::white_space(c),
    ensures
        lines::words(w.push(c) + rest).len() > 0,
        rest.len() > 0 && !text::white_space(rest.last()) ==> lines::words(
            w.push(c) + rest,
        ).len() > 1,
    decreases rest.len(),
{
    let s = w.push(c) + rest;
    if rest.len() == 0 {
        assert(s =~= w.push(c));
        place_laws::law_white_space_ends_words(w, c);
        place_laws::law_words(Seq::empty(), w);
        assert(Seq::<char>::empty() + w =~= w);
    } else {
        let less = rest.drop_last();
        lemma_many_words(w, c, less);
        assert(s.drop_last() =~= w.push(c) + less);
        assert(s.last() == rest.last());
        if less.len() == 0 {
            assert(s[s.len() - 2] == c);
        } else {
            assert(s[s.len() - 2] == less.last());
        }
    }
}

/// The checksum of a checksum file is its first word, in capitals or not; the name of the file
/// may follow.
pub proof fn law_checksum_is_the_first_word(w: Seq<char>, c: char, rest: Seq<char>)
    requires
        place_laws::word(w),
        text::white_space(c),
    ensures
        upgrade::expected_sum(w.push(c) + rest) == text::lower(w),
        upgrade::expected_sum(w) == text::lower(w),
{
    lemma_first_word(w, c, rest);
    place_laws::law_words(Seq::empty(), w);
    assert(Seq::<char>::empty() + w =~= w);
}

} // verus!
