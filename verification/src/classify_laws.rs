//! What holds of the effects that calls are known to have.
use crate::classify;
use crate::model::EffectKind;
use crate::text;
use vstd::prelude::*;

verus! {

proof fn lemma_end(p: Seq<char>, t: Seq<char>)
    ensures
        text::ends(p + t, t),
        classify::tailed(p + t, t),
{
    let s = p + t;
    assert(s.subrange(s.len() - t.len(), s.len() as int) =~= t);
}

proof fn lemma_middle(p: Seq<char>, t: Seq<char>, q: Seq<char>)
    ensures
        text::within(p + t + q, t),
{
    let s = p + t + q;
    let i = p.len() as int;
    assert(s.subrange(i, i + t.len()) =~= t);
    assert(text::occurs_at(t, s, i));
}

/// A call is known by the last part of what it calls, on its own or after a dot, and by
/// nothing else that ends so.
pub proof fn law_known_by_the_last_part(c: Seq<char>, own: Seq<char>, p: Seq<char>)
    requires
        own.len() > 0,
        own[0] != '.',
    ensures
        classify::tailed(own, "."@ + own),
        classify::tailed(p + ("."@ + own), "."@ + own),
        classify::tailed(c, "."@ + own) ==> c == own || text::ends(c, "."@ + own),
        own.len() > 1 ==> !classify::tailed(own.skip(1), "."@ + own),
{
    reveal_strlit(".");
    let t = "."@ + own;
    lemma_end(p, t);
    assert(t.skip(1) =~= own);
    reveal_with_fuel(text::drop_leading, 3);
    assert(text::drop_leading(t, '.') == own);
}

/// Of the kinds that a call is known as, the first counts, in this order: the environment,
/// processes, the network, files, databases, chance, the clock. A call that is known as none
/// has no effect that is known.
pub proof fn law_first_kind_counts(c: Seq<char>)
    ensures
        classify::on_env(c) ==> classify::classified(c) == Some(EffectKind::Env),
        classify::on_processes(c) && !classify::on_env(c) ==> classify::classified(c) == Some(
            EffectKind::Subprocess,
        ),
        classify::on_network(c) && !classify::on_env(c) && !classify::on_processes(c)
            ==> classify::classified(c) == Some(EffectKind::Network),
        classify::on_files(c) && !classify::on_env(c) && !classify::on_processes(c)
            && !classify::on_network(c) ==> classify::classified(c) == Some(EffectKind::Fs),
        classify::classified(c) == Some(EffectKind::Db) ==> classify::on_database(c)
            && !classify::on_files(c) && !classify::on_network(c) && !classify::on_processes(c)
            && !classify::on_env(c),
        classify::on_database(c) || classify::on_chance(c) || classify::on_clock(c)
            ==> classify::classified(c) is Some,
        classify::on_chance(c) && !classify::on_database(c) && !classify::on_files(c)
            && !classify::on_network(c) && !classify::on_processes(c) && !classify::on_env(c)
            ==> classify::classified(c) == Some(EffectKind::Random),
        classify::classified(c) == Some(EffectKind::Clock) ==> classify::on_clock(c)
            && !classify::on_chance(c),
        classify::classified(c) is Some ==> classify::on_env(c) || classify::on_processes(c)
            || classify::on_network(c) || classify::on_files(c) || classify::on_database(c)
            || classify::on_chance(c) || classify::on_clock(c),
{
}

/// A call that reads or sets the environment is known as one, whatever stands before it.
pub proof fn law_environment_calls(p: Seq<char>)
    ensures
        classify::on_env("getenv"@),
        classify::on_env(p + ".getenv"@),
        classify::on_env(p + ".environ.get"@),
        classify::on_env(p + ".environ.setdefault"@),
        classify::on_env(p + ".putenv"@),
        classify::on_env(p + ".setenv"@),
        classify::on_env(p + ".unsetenv"@),
{
    lemma_end(p, ".getenv"@);
    lemma_end(p, ".environ.get"@);
    lemma_end(p, ".environ.setdefault"@);
    lemma_end(p, ".putenv"@);
    lemma_end(p, ".setenv"@);
    lemma_end(p, ".unsetenv"@);
}

/// A call that runs a process is known as one, whatever stands around it.
pub proof fn law_processes_calls(p: Seq<char>, q: Seq<char>)
    ensures
        classify::on_processes(p + ".system"@),
        classify::on_processes(p + ".popen"@),
        classify::on_processes(p + ".execv"@),
        classify::on_processes(p + ".execve"@),
        classify::on_processes(p + ".execvp"@),
        classify::on_processes(p + ".spawnl"@),
        classify::on_processes(p + ".spawnv"@),
        classify::on_processes(p + ".run"@),
        classify::on_processes(p + ".Popen"@),
        classify::on_processes(p + ".call"@),
        classify::on_processes(p + ".check_call"@),
        classify::on_processes(p + ".check_output"@),
        classify::on_processes(p + "subprocess."@ + q),
{
    lemma_end(p, ".system"@);
    lemma_end(p, ".popen"@);
    lemma_end(p, ".execv"@);
    lemma_end(p, ".execve"@);
    lemma_end(p, ".execvp"@);
    lemma_end(p, ".spawnl"@);
    lemma_end(p, ".spawnv"@);
    lemma_end(p, ".run"@);
    lemma_end(p, ".Popen"@);
    lemma_end(p, ".call"@);
    lemma_end(p, ".check_call"@);
    lemma_end(p, ".check_output"@);
    lemma_middle(p, "subprocess."@, q);
}

/// A call that talks to the network is known as one, whatever stands around it.
pub proof fn law_network_calls(p: Seq<char>, q: Seq<char>)
    ensures
        classify::on_network(p + ".urlopen"@),
        classify::on_network(p + ".socket"@),
        classify::on_network(p + "requests."@ + q),
        classify::on_network(p + "httpx."@ + q),
        classify::on_network(p + "aiohttp."@ + q),
        classify::on_network(p + "urllib.request"@ + q),
        classify::on_network(p + "socket."@ + q),
        classify::on_network(p + "http.client"@ + q),
{
    lemma_end(p, ".urlopen"@);
    lemma_end(p, ".socket"@);
    lemma_middle(p, "requests."@, q);
    lemma_middle(p, "httpx."@, q);
    lemma_middle(p, "aiohttp."@, q);
    lemma_middle(p, "urllib.request"@, q);
    lemma_middle(p, "socket."@, q);
    lemma_middle(p, "http.client"@, q);
}

/// A call that touches files is known as one, whatever stands around it.
pub proof fn law_files_calls(p: Seq<char>, q: Seq<char>)
    ensures
        classify::on_files("open"@),
        classify::on_files(p + "io.open"@),
        classify::on_files(p + ".read_text"@),
        classify::on_files(p + ".write_text"@),
        classify::on_files(p + ".read_bytes"@),
        classify::on_files(p + ".write_bytes"@),
        classify::on_files(p + "os.remove"@),
        classify::on_files(p + "os.unlink"@),
        classify::on_files(p + "os.mkdir"@),
        classify::on_files(p + "os.makedirs"@),
        classify::on_files(p + "os.rmdir"@),
        classify::on_files(p + "os.rename"@),
        classify::on_files(p + "os.replace"@),
        classify::on_files(p + "shutil."@ + q),
{
    lemma_end(p, "io.open"@);
    lemma_end(p, ".read_text"@);
    lemma_end(p, ".write_text"@);
    lemma_end(p, ".read_bytes"@);
    lemma_end(p, ".write_bytes"@);
    lemma_end(p, "os.remove"@);
    lemma_end(p, "os.unlink"@);
    lemma_end(p, "os.mkdir"@);
    lemma_end(p, "os.makedirs"@);
    lemma_end(p, "os.rmdir"@);
    lemma_end(p, "os.rename"@);
    lemma_end(p, "os.replace"@);
    lemma_middle(p, "shutil."@, q);
}

/// A call that asks a database is known as one, whatever stands around it.
pub proof fn law_database_calls(p: Seq<char>, q: Seq<char>)
    ensures
        classify::on_database(p + ".execute"@),
        classify::on_database(p + ".executemany"@),
        classify::on_database(p + ".executescript"@),
        classify::on_database(p + ".fetchone"@),
        classify::on_database(p + ".fetchall"@),
        classify::on_database(p + "sqlite3.connect"@),
        classify::on_database(p + "psycopg2.connect"@),
        classify::on_database(p + "pymysql.connect"@),
        classify::on_database(p + "sqlalchemy."@ + q),
{
    lemma_end(p, ".execute"@);
    lemma_end(p, ".executemany"@);
    lemma_end(p, ".executescript"@);
    lemma_end(p, ".fetchone"@);
    lemma_end(p, ".fetchall"@);
    lemma_end(p, "sqlite3.connect"@);
    lemma_end(p, "psycopg2.connect"@);
    lemma_end(p, "pymysql.connect"@);
    lemma_middle(p, "sqlalchemy."@, q);
}

/// A call that rests on chance is known as one, whatever stands around it.
pub proof fn law_chance_calls(p: Seq<char>, q: Seq<char>)
    ensures
        classify::on_chance(p + "os.urandom"@),
        classify::on_chance(p + ".uuid4"@),
        classify::on_chance(p + ".uuid1"@),
        classify::on_chance(p + "random."@ + q),
        classify::on_chance(p + "secrets."@ + q),
        classify::on_chance(p + "uuid."@ + q),
{
    lemma_end(p, "os.urandom"@);
    lemma_end(p, ".uuid4"@);
    lemma_end(p, ".uuid1"@);
    lemma_middle(p, "random."@, q);
    lemma_middle(p, "secrets."@, q);
    lemma_middle(p, "uuid."@, q);
}

/// A call that reads or waits for the clock is known as one, whatever stands before it.
pub proof fn law_clock_calls(p: Seq<char>)
    ensures
        classify::on_clock(p + "time.time"@),
        classify::on_clock(p + "time.monotonic"@),
        classify::on_clock(p + "time.perf_counter"@),
        classify::on_clock(p + "time.process_time"@),
        classify::on_clock(p + "time.sleep"@),
        classify::on_clock(p + "time.gmtime"@),
        classify::on_clock(p + "time.localtime"@),
        classify::on_clock(p + ".now"@),
        classify::on_clock(p + ".utcnow"@),
        classify::on_clock(p + ".today"@),
        classify::on_clock(p + ".fromtimestamp"@),
{
    lemma_end(p, "time.time"@);
    lemma_end(p, "time.monotonic"@);
    lemma_end(p, "time.perf_counter"@);
    lemma_end(p, "time.process_time"@);
    lemma_end(p, "time.sleep"@);
    lemma_end(p, "time.gmtime"@);
    lemma_end(p, "time.localtime"@);
    lemma_end(p, ".now"@);
    lemma_end(p, ".utcnow"@);
    lemma_end(p, ".today"@);
    lemma_end(p, ".fromtimestamp"@);
}

} // verus!
