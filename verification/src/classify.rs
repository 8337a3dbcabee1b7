//! What the name of a callee says of the effects of a call.
use crate::model::EffectKind;
use crate::text::{contains, ends_with, same, without_leading};
use crate::text;
use vstd::prelude::*;

verus! {

/// Whether a dotted name ends in `tail`, or is all of it but its leading dot.
pub open spec fn tailed(callee: Seq<char>, tail: Seq<char>) -> bool {
    callee == text::drop_leading(tail, '.') || text::ends(callee, tail)
}

/// Whether a dotted name ends in `tail`, or is all of it but its leading dot.
fn has_tail(callee: &str, tail: &str) -> (r: bool)
    ensures
        r == tailed(callee@, tail@),
{
    let bare = without_leading(tail, '.');
    same(callee, bare.as_str()) || ends_with(callee, tail)
}

/// Whether a callee reads an environment variable: `getenv`, by whatever name its
/// module has.
pub open spec fn reads_env(callee: Seq<char>) -> bool {
    callee == "getenv"@ || text::ends(callee, ".getenv"@)
}

/// Whether a callee reads an environment variable.
pub fn is_getenv(callee: &str) -> (r: bool)
    ensures
        r == reads_env(callee@),
{
    same(callee, "getenv") || ends_with(callee, ".getenv")
}

/// Whether a dotted name is the environment: `environ`, by whatever name its module
/// has.
pub open spec fn environment(dotted: Option<Seq<char>>) -> bool {
    match dotted {
        Some(d) => d == "environ"@ || text::ends(d, ".environ"@),
        None => false,
    }
}

/// Whether a dotted name is the environment.
pub fn is_environ(dotted: &Option<String>) -> (r: bool)
    ensures
        r == environment(
            match *dotted {
                Some(d) => Some(d@),
                None => None,
            },
        ),
{
    match dotted {
        Some(d) => same(d.as_str(), "environ") || ends_with(d.as_str(), ".environ"),
        None => false,
    }
}

/// Whether a callee touches the environment.
pub open spec fn on_env(c: Seq<char>) -> bool {
    reads_env(c) || tailed(c, ".environ.get"@) || tailed(c, ".environ.setdefault"@) || tailed(
        c,
        ".putenv"@,
    ) || tailed(c, ".setenv"@) || tailed(c, ".unsetenv"@)
}

/// Whether a callee starts a process.
pub open spec fn on_processes(c: Seq<char>) -> bool {
    text::within(c, "subprocess."@) || tailed(c, ".system"@) || tailed(c, ".popen"@) || tailed(
        c,
        ".execv"@,
    ) || tailed(c, ".execve"@) || tailed(c, ".execvp"@) || tailed(c, ".spawnl"@) || tailed(
        c,
        ".spawnv"@,
    ) || tailed(c, ".run"@) || tailed(c, ".Popen"@) || tailed(c, ".call"@) || tailed(
        c,
        ".check_call"@,
    ) || tailed(c, ".check_output"@)
}

/// Whether a callee uses the network.
pub open spec fn on_network(c: Seq<char>) -> bool {
    text::within(c, "requests."@) || text::within(c, "httpx."@) || text::within(c, "aiohttp."@)
        || text::within(c, "urllib.request"@) || tailed(c, ".urlopen"@) || text::within(
        c,
        "socket."@,
    ) || tailed(c, ".socket"@) || text::within(c, "http.client"@)
}

/// Whether a callee touches files.
pub open spec fn on_files(c: Seq<char>) -> bool {
    c == "open"@ || tailed(c, "io.open"@) || tailed(c, ".read_text"@) || tailed(c, ".write_text"@)
        || tailed(c, ".read_bytes"@) || tailed(c, ".write_bytes"@) || tailed(c, "os.remove"@)
        || tailed(c, "os.unlink"@) || tailed(c, "os.mkdir"@) || tailed(c, "os.makedirs"@)
        || tailed(c, "os.rmdir"@) || tailed(c, "os.rename"@) || tailed(c, "os.replace"@)
        || text::within(c, "shutil."@)
}

/// Whether a callee uses a database.
pub open spec fn on_database(c: Seq<char>) -> bool {
    tailed(c, ".execute"@) || tailed(c, ".executemany"@) || tailed(c, ".executescript"@) || tailed(
        c,
        ".fetchone"@,
    ) || tailed(c, ".fetchall"@) || tailed(c, "sqlite3.connect"@) || tailed(
        c,
        "psycopg2.connect"@,
    ) || tailed(c, "pymysql.connect"@) || text::within(c, "sqlalchemy."@)
}

/// Whether a callee is random.
pub open spec fn on_chance(c: Seq<char>) -> bool {
    text::within(c, "random."@) || text::within(c, "secrets."@) || tailed(c, "os.urandom"@)
        || text::within(c, "uuid."@) || tailed(c, ".uuid4"@) || tailed(c, ".uuid1"@)
}

/// Whether a callee reads the clock.
pub open spec fn on_clock(c: Seq<char>) -> bool {
    tailed(c, "time.time"@) || tailed(c, "time.monotonic"@) || tailed(c, "time.perf_counter"@)
        || tailed(c, "time.process_time"@) || tailed(c, "time.sleep"@) || tailed(c, "time.gmtime"@)
        || tailed(c, "time.localtime"@) || tailed(c, ".now"@) || tailed(c, ".utcnow"@) || tailed(
        c,
        ".today"@,
    ) || tailed(c, ".fromtimestamp"@)
}

/// The effect that a callee has by its name, the more specific first.
pub open spec fn classified(c: Seq<char>) -> Option<EffectKind> {
    if on_env(c) {
        Some(EffectKind::Env)
    } else if on_processes(c) {
        Some(EffectKind::Subprocess)
    } else if on_network(c) {
        Some(EffectKind::Network)
    } else if on_files(c) {
        Some(EffectKind::Fs)
    } else if on_database(c) {
        Some(EffectKind::Db)
    } else if on_chance(c) {
        Some(EffectKind::Random)
    } else if on_clock(c) {
        Some(EffectKind::Clock)
    } else {
        None
    }
}

/// The effect that a callee has by its name.
pub fn classify_effect(callee: &str) -> (r: Option<EffectKind>)
    ensures
        r == classified(callee@),
{
    let c = callee;
    if is_getenv(c) || has_tail(c, ".environ.get") || has_tail(c, ".environ.setdefault") || has_tail(
        c,
        ".putenv",
    ) || has_tail(c, ".setenv") || has_tail(c, ".unsetenv") {
        return Some(EffectKind::Env);
    }
    if contains(c, "subprocess.") || has_tail(c, ".system") || has_tail(c, ".popen") || has_tail(
        c,
        ".execv",
    ) || has_tail(c, ".execve") || has_tail(c, ".execvp") || has_tail(c, ".spawnl") || has_tail(
        c,
        ".spawnv",
    ) || has_tail(c, ".run") || has_tail(c, ".Popen") || has_tail(c, ".call") || has_tail(
        c,
        ".check_call",
    ) || has_tail(c, ".check_output") {
        return Some(EffectKind::Subprocess);
    }
    if contains(c, "requests.") || contains(c, "httpx.") || contains(c, "aiohttp.") || contains(
        c,
        "urllib.request",
    ) || has_tail(c, ".urlopen") || contains(c, "socket.") || has_tail(c, ".socket") || contains(
        c,
        "http.client",
    ) {
        return Some(EffectKind::Network);
    }
    if same(c, "open") || has_tail(c, "io.open") || has_tail(c, ".read_text") || has_tail(
        c,
        ".write_text",
    ) || has_tail(c, ".read_bytes") || has_tail(c, ".write_bytes") || has_tail(c, "os.remove")
        || has_tail(c, "os.unlink") || has_tail(c, "os.mkdir") || has_tail(c, "os.makedirs")
        || has_tail(c, "os.rmdir") || has_tail(c, "os.rename") || has_tail(c, "os.replace")
        || contains(c, "shutil.") {
        return Some(EffectKind::Fs);
    }
    if has_tail(c, ".execute") || has_tail(c, ".executemany") || has_tail(c, ".executescript")
        || has_tail(c, ".fetchone") || has_tail(c, ".fetchall") || has_tail(c, "sqlite3.connect")
        || has_tail(c, "psycopg2.connect") || has_tail(c, "pymysql.connect") || contains(
        c,
        "sqlalchemy.",
    ) {
        return Some(EffectKind::Db);
    }
    if contains(c, "random.") || contains(c, "secrets.") || has_tail(c, "os.urandom") || contains(
        c,
        "uuid.",
    ) || has_tail(c, ".uuid4") || has_tail(c, ".uuid1") {
        return Some(EffectKind::Random);
    }
    if has_tail(c, "time.time") || has_tail(c, "time.monotonic") || has_tail(
        c,
        "time.perf_counter",
    ) || has_tail(c, "time.process_time") || has_tail(c, "time.sleep") || has_tail(c, "time.gmtime")
        || has_tail(c, "time.localtime") || has_tail(c, ".now") || has_tail(c, ".utcnow")
        || has_tail(c, ".today") || has_tail(c, ".fromtimestamp") {
        return Some(EffectKind::Clock);
    }
    None
}

} // verus!
