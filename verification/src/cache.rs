//! The facts of the files kept from one run to the next.
//!
//! A file whose size and time of change are as before is taken as it was. Where they
//! moved, its content decides: the same content keeps the facts, any other is read
//! anew.
use crate::copies::file_again;
use crate::extract::extract;
use crate::facts::Facts;
use crate::facts;
use crate::model::FileIndex;
use crate::syntax;
use crate::table::Table;
use crate::table;
use crate::text::{cat, cat4};
use crate::text;
use crate::upgrade::hex;
use crate::upgrade;
use crate::upgrade_laws;
use vstd::prelude::*;

verus! {

/// The form in which facts are kept. What was kept in another form is not used.
pub const SCHEMA_VERSION: u32 = 1;

/// The facts of a file, and what tells whether they still hold.
#[derive(Debug)]
pub struct CachedFile {
    pub size: u64,
    /// The time of the last change, in nanoseconds.
    pub mtime_ns: u128,
    /// The hash of the content.
    pub hash: Vec<u8>,
    pub index: FileIndex,
}

/// The facts of a file under its path.
pub struct FileFacts {
    pub path: Seq<char>,
    pub facts: Facts,
}

/// What is kept of a file.
pub struct CachedView {
    pub size: u64,
    pub mtime_ns: u128,
    pub hash: Seq<u8>,
    pub index: FileFacts,
}

/// The facts of a file under its path.
pub open spec fn file_facts(f: FileIndex) -> FileFacts {
    FileFacts { path: f.path@, facts: facts::facts_of(f) }
}

/// The facts of files under their paths.
pub open spec fn all_file_facts(s: Seq<FileIndex>) -> Seq<FileFacts> {
    Seq::new(s.len(), |i: int| file_facts(s[i]))
}

/// The facts that reading a source finds.
pub open spec fn read_facts(rel: Seq<char>, source: Seq<char>) -> FileFacts {
    FileFacts {
        path: rel,
        facts: facts::stmts_facts(
            facts::top(source),
            syntax::parsed(source, text::ends(rel, ".pyi"@)),
        ),
    }
}

impl View for CachedFile {
    type V = CachedView;

    open spec fn view(&self) -> CachedView {
        CachedView {
            size: self.size,
            mtime_ns: self.mtime_ns,
            hash: self.hash@,
            index: file_facts(self.index),
        }
    }
}

/// What is kept of the files of a project, by their paths.
pub struct ParseCache {
    pub schema: u32,
    pub entries: Table<String, CachedFile>,
}

/// What is kept, by path.
pub open spec fn kept(t: Table<String, CachedFile>) -> Map<Seq<char>, CachedView> {
    Map::new(|k: Seq<char>| t.keys().contains(k), |k: Seq<char>| t.map()[k]@)
}

/// A file that the walk comes to, with its source and the hash of it. They are
/// missing where the file could not be read, or need not be.
pub struct VisitView {
    pub rel: Seq<char>,
    pub size: u64,
    pub mtime_ns: u128,
    pub source: Option<(Seq<char>, Seq<u8>)>,
}

/// Whether a file is taken as it was, by its size and time of change.
pub open spec fn untouched(
    prev: Map<Seq<char>, CachedView>,
    rel: Seq<char>,
    size: u64,
    mtime_ns: u128,
) -> bool {
    prev.contains_key(rel) && prev[rel].size == size && prev[rel].mtime_ns == mtime_ns
}

/// The BLAKE3 hash of a text in UTF-8.
pub uninterp spec fn content_hash(source: Seq<char>) -> Seq<u8>;

/// `blake3::hash` of the bytes of a text: thirty-two bytes, which depend on nothing
/// but the text.
#[verifier::external_body]
fn hash_of(source: &str) -> (r: Vec<u8>)
    ensures
        r@ == content_hash(source@),
        r@.len() == 32,
{
    blake3::hash(source.as_bytes()).as_bytes().to_vec()
}

/// What is kept of a file from now on; nothing where it had to be read and could
/// not be.
pub open spec fn outcome(prev: Map<Seq<char>, CachedView>, v: VisitView) -> Option<CachedView> {
    if untouched(prev, v.rel, v.size, v.mtime_ns) {
        Some(prev[v.rel])
    } else {
        match v.source {
            None => None,
            Some((source, hash)) => Some(
                CachedView {
                    size: v.size,
                    mtime_ns: v.mtime_ns,
                    hash,
                    index: if prev.contains_key(v.rel) && prev[v.rel].hash == hash {
                        prev[v.rel].index
                    } else {
                        read_facts(v.rel, source)
                    },
                },
            ),
        }
    }
}

/// Whether what is kept of a file is other than before.
pub open spec fn moved(prev: Map<Seq<char>, CachedView>, v: VisitView) -> bool {
    !untouched(prev, v.rel, v.size, v.mtime_ns) && v.source is Some
}

/// A source and its hash, where there is one.
pub open spec fn with_hash(source: Option<(&str, Vec<u8>)>) -> Option<(Seq<char>, Seq<u8>)> {
    match source {
        Some(s) => Some((s.0@, s.1@)),
        None => None,
    }
}

/// Whether two lists of bytes are the same.
fn same_bytes(a: &Vec<u8>, b: &Vec<u8>) -> (r: bool)
    ensures
        r == (a@ == b@),
{
    if a.len() != b.len() {
        return false;
    }
    let mut i: usize = 0;
    while i < a.len()
        invariant
            i <= a@.len(),
            a@.len() == b@.len(),
            forall|k: int| 0 <= k < i ==> a@[k] == b@[k],
        decreases a@.len() - i,
    {
        if a[i] != b[i] {
            return false;
        }
        i = i + 1;
    }
    assert(a@ =~= b@);
    true
}

/// A list of bytes again.
fn bytes_again(v: &Vec<u8>) -> (r: Vec<u8>)
    ensures
        r@ == v@,
{
    let mut out: Vec<u8> = Vec::new();
    let mut i: usize = 0;
    while i < v.len()
        invariant
            i <= v@.len(),
            out@ == v@.take(i as int),
        decreases v@.len() - i,
    {
        out.push(v[i]);
        assert(v@.take(i + 1) =~= v@.take(i as int).push(v@[i as int]));
        i = i + 1;
    }
    proof {
        text::lemma_take_all(v@);
    }
    out
}

/// A walk over the files of a project.
pub struct Sweep {
    /// What was kept before.
    pub prev: Table<String, CachedFile>,
    /// What is kept from now on, of the files that the walk came to.
    pub next: Table<String, CachedFile>,
    /// The facts of the files that the walk came to.
    pub out: Vec<FileIndex>,
    /// Whether what is kept is other than before.
    pub dirty: bool,
}

impl Sweep {
    /// Starts a walk with what was kept before, where it was kept in the same form.
    pub fn start(loaded: Option<ParseCache>) -> (r: Self)
        ensures
            kept(r.prev) == match loaded {
                Some(c) => if c.schema == SCHEMA_VERSION {
                    kept(c.entries)
                } else {
                    Map::<Seq<char>, CachedView>::empty()
                },
                None => Map::<Seq<char>, CachedView>::empty(),
            },
            kept(r.next) == Map::<Seq<char>, CachedView>::empty(),
            r.out@.len() == 0,
            !r.dirty,
    {
        let fresh: Table<String, CachedFile> = Table::new();
        assert(kept(fresh) =~= Map::<Seq<char>, CachedView>::empty());
        let next: Table<String, CachedFile> = Table::new();
        assert(kept(next) =~= Map::<Seq<char>, CachedView>::empty());
        let prev = match loaded {
            Some(c) => if c.schema == SCHEMA_VERSION {
                c.entries
            } else {
                fresh
            },
            None => fresh,
        };
        Sweep { prev, next, out: Vec::new(), dirty: false }
    }

    /// Whether the source of a file is needed to tell what its facts are.
    pub fn needs_source(&self, rel: &String, size: u64, mtime_ns: u128) -> (r: bool)
        ensures
            r == !untouched(kept(self.prev), rel@, size, mtime_ns),
    {
        match self.prev.get(rel) {
            Some(hit) => {
                assert(kept(self.prev)[rel@] == hit@);
                !(hit.size == size && hit.mtime_ns == mtime_ns)
            },
            None => true,
        }
    }

    /// Takes up a file that the walk comes to.
    pub fn visit(&mut self, rel: String, size: u64, mtime_ns: u128, source: Option<&str>)
        requires
            source matches Some(s) ==> syntax::byte_len(s@) <= u32::MAX && s@.len() < usize::MAX,
        ensures
            Self::took_up(
                *old(self),
                *final(self),
                (VisitView {
                    rel: rel@,
                    size,
                    mtime_ns,
                    source: match source {
                        Some(s) => Some((s@, content_hash(s@))),
                        None => None,
                    },
                }),
            ),
    {
        match source {
            Some(s) => {
                let hash = if self.needs_source(&rel, size, mtime_ns) {
                    hash_of(s)
                } else {
                    Vec::new()
                };
                self.visit_hashed(rel, size, mtime_ns, Some((s, hash)));
            },
            None => {
                self.visit_hashed(rel, size, mtime_ns, None);
            },
        }
    }

    /// What taking up a file does to a walk: the file is kept as its outcome is, and
    /// its facts are given; a file without an outcome is passed over.
    pub open spec fn took_up(was: Self, now: Self, v: VisitView) -> bool {
        let prev = kept(was.prev);
        &&& now.prev == was.prev
        &&& now.dirty == (was.dirty || moved(prev, v))
        &&& match outcome(prev, v) {
            Some(e) => {
                &&& kept(now.next) == kept(was.next).insert(v.rel, e)
                &&& all_file_facts(now.out@) == all_file_facts(was.out@).push(e.index)
            },
            None => now.next == was.next && now.out@ == was.out@,
        }
    }

    /// Takes up a file that the walk comes to, given the hash of its source.
    pub fn visit_hashed(
        &mut self,
        rel: String,
        size: u64,
        mtime_ns: u128,
        source: Option<(&str, Vec<u8>)>,
    )
        requires
            source matches Some(s) ==> syntax::byte_len(s.0@) <= u32::MAX && s.0@.len()
                < usize::MAX,
        ensures
            Self::took_up(
                *old(self),
                *final(self),
                (VisitView {
                    rel: rel@,
                    size,
                    mtime_ns,
                    source: with_hash(source),
                }),
            ),
    {
        let ghost prev = kept(self.prev);
        let ghost v = VisitView {
            rel: rel@,
            size,
            mtime_ns,
            source: with_hash(source),
        };
        let mut again: Option<FileIndex> = None;
        let mut seen: Option<Vec<u8>> = None;
        if let Some(hit) = self.prev.get(&rel) {
            assert(prev[rel@] == hit@);
            if hit.size == size && hit.mtime_ns == mtime_ns {
                let one = CachedFile {
                    size,
                    mtime_ns,
                    hash: bytes_again(&hit.hash),
                    index: file_again(&hit.index),
                };
                assert(outcome(prev, v) == Some(one@));
                self.enter(rel, one);
                return;
            }
            again = Some(file_again(&hit.index));
            seen = Some(bytes_again(&hit.hash));
        }
        let (text, hash) = match source {
            Some(s) => s,
            None => {
                return;
            },
        };
        let unchanged = match &seen {
            Some(h) => same_bytes(h, &hash),
            None => false,
        };
        let index = if unchanged {
            match again {
                Some(f) => f,
                None => extract(rel.as_str(), text),
            }
        } else {
            extract(rel.as_str(), text)
        };
        let one = CachedFile { size, mtime_ns, hash, index };
        assert(outcome(prev, v) == Some(one@));
        self.dirty = true;
        self.enter(rel, one);
    }

    /// Keeps a file and gives its facts.
    fn enter(&mut self, rel: String, one: CachedFile)
        ensures
            final(self).prev == old(self).prev,
            final(self).dirty == old(self).dirty,
            kept(final(self).next) == kept(old(self).next).insert(rel@, one@),
            all_file_facts(final(self).out@) == all_file_facts(old(self).out@).push(one@.index),
    {
        let ghost was = kept(self.next);
        let ghost facts_before = all_file_facts(self.out@);
        let f = file_again(&one.index);
        self.out.push(f);
        assert(all_file_facts(self.out@) =~= facts_before.push(one@.index));
        let ghost key = rel@;
        self.next.insert(rel, one);
        assert(kept(self.next) =~= was.insert(key, one@));
    }

    /// Ends a walk: the facts of the files, and what to keep where it is other than
    /// before. Files that are gone are no longer kept.
    pub fn finish(self) -> (r: (Vec<FileIndex>, Option<ParseCache>))
        ensures
            r.0@ == self.out@,
            match r.1 {
                Some(c) => c.schema == SCHEMA_VERSION && kept(c.entries) == kept(self.next) && (
                self.dirty || self.next.keys().len() != self.prev.keys().len()),
                None => !self.dirty && self.next.keys().len() == self.prev.keys().len(),
            },
    {
        let stale = self.dirty || self.next.len() != self.prev.len();
        let cache = if stale {
            Some(ParseCache { schema: SCHEMA_VERSION, entries: self.next })
        } else {
            None
        };
        (self.out, cache)
    }
}

/// Where what is kept of a file was read from a source of its hash, and a file of
/// the same size and time of change has the same hash, a walk gives the facts that
/// reading the source gives: keeping facts changes no answer.
pub proof fn law_kept_facts_are_read_facts(
    prev: Map<Seq<char>, CachedView>,
    v: VisitView,
    source: Seq<char>,
    hash: Seq<u8>,
)
    requires
        v.source == Some((source, hash)),
        prev.contains_key(v.rel) && prev[v.rel].hash == hash ==> prev[v.rel].index == read_facts(
            v.rel,
            source,
        ),
        untouched(prev, v.rel, v.size, v.mtime_ns) ==> prev[v.rel].hash == hash,
    ensures
        outcome(prev, v) matches Some(e) && e.index == read_facts(v.rel, source) && e.hash == hash,
{
}

/// Coming to a file a second time, with its size and time of change as they were,
/// gives what the first time gave, whether or not the source is at hand, and moves
/// nothing.
pub proof fn law_second_run_moves_nothing(
    prev: Map<Seq<char>, CachedView>,
    v: VisitView,
    e: CachedView,
    source: Option<(Seq<char>, Seq<u8>)>,
)
    requires
        outcome(prev, v) == Some(e),
    ensures
        outcome(prev.insert(v.rel, e), (VisitView { source, ..v })) == Some(e),
        !moved(prev.insert(v.rel, e), (VisitView { source, ..v })),
{
}

/// A file whose content is other than before, by its hash, is read anew once its size
/// or time of change moved.
pub proof fn law_edit_is_seen(
    prev: Map<Seq<char>, CachedView>,
    v: VisitView,
    source: Seq<char>,
    hash: Seq<u8>,
)
    requires
        v.source == Some((source, hash)),
        !untouched(prev, v.rel, v.size, v.mtime_ns),
        prev.contains_key(v.rel) ==> prev[v.rel].hash != hash,
    ensures
        outcome(prev, v) matches Some(e) && e.index == read_facts(v.rel, source),
        moved(prev, v),
{
}

/// The name of the directory that keeps what belongs to a project: the hash of the
/// path of its root.
pub fn root_key(root: &str) -> (r: String)
    ensures
        r@ == upgrade::hexed(content_hash(root@)),
{
    let h = hash_of(root);
    hex(h.as_slice())
}

/// One line for each of the first files: its path and the hash of its content.
pub open spec fn manifest(t: Table<String, CachedFile>, n: int) -> Seq<char>
    decreases n,
{
    if n <= 0 {
        Seq::empty()
    } else {
        manifest(t, n - 1) + (t.keys()[n - 1] + " "@ + upgrade::hexed(t.values()[n - 1].hash@)
            + "\n"@)
    }
}

/// What stands for the content of all files: the hash of their paths and the hashes
/// of their contents, in the order of the paths.
pub fn fingerprint(entries: &Table<String, CachedFile>) -> (r: String)
    ensures
        r@ == upgrade::hexed(content_hash(manifest(*entries, entries.keys().len() as int))),
{
    let n = entries.len();
    let mut all = String::new();
    let mut i: usize = 0;
    assert(all@ =~= manifest(*entries, 0));
    while i < n
        invariant
            i <= n,
            n == entries.keys().len(),
            n == entries.values().len(),
            all@ == manifest(*entries, i as int),
        decreases n - i,
    {
        let sum = hex(entries.value(i).hash.as_slice());
        let line = cat4(entries.key(i).as_str(), " ", sum.as_str(), "\n");
        all = cat(all.as_str(), line.as_str());
        i = i + 1;
    }
    let h = hash_of(all.as_str());
    hex(h.as_slice())
}

/// A file as it is when the walk comes to it.
pub struct FileView {
    pub rel: Seq<char>,
    pub size: u64,
    pub mtime_ns: u128,
    pub content: Seq<char>,
}

/// Whether what is kept was read from the given sources: it has their hashes and facts,
/// and nothing else is kept.
pub open spec fn read_from(
    cache: Map<Seq<char>, CachedView>,
    sources: Map<Seq<char>, Seq<char>>,
) -> bool {
    &&& cache.dom() == sources.dom()
    &&& forall|rel: Seq<char>| #[trigger]
        cache.contains_key(rel) ==> cache[rel].hash == content_hash(sources[rel])
            && cache[rel].index == read_facts(rel, sources[rel])
}

/// Whether a visit tells of a file: its size and time of change, and its content where
/// that is needed.
pub open spec fn tells(prev: Map<Seq<char>, CachedView>, v: VisitView, f: FileView) -> bool {
    &&& v.rel == f.rel
    &&& v.size == f.size
    &&& v.mtime_ns == f.mtime_ns
    &&& v.source == Some((f.content, content_hash(f.content))) || (v.source is None && untouched(
        prev,
        f.rel,
        f.size,
        f.mtime_ns,
    ))
}

/// Whether what was kept tells a change of a file: a file of the size and time of change
/// that were kept, or of the hash, has the content that was read.
pub open spec fn tells_change(
    prev: Map<Seq<char>, CachedView>,
    sources: Map<Seq<char>, Seq<char>>,
    f: FileView,
) -> bool {
    prev.contains_key(f.rel) && (untouched(prev, f.rel, f.size, f.mtime_ns) || content_hash(
        sources[f.rel],
    ) == content_hash(f.content)) ==> sources[f.rel] == f.content
}

/// Whether a walk goes through states, taking up a file at each step.
pub open spec fn walk(states: Seq<Sweep>, visits: Seq<VisitView>) -> bool {
    &&& states.len() == visits.len() + 1
    &&& kept(states[0].next) == Map::<Seq<char>, CachedView>::empty()
    &&& states[0].out@.len() == 0
    &&& !states[0].dirty
    &&& forall|i: int|
        0 <= i < visits.len() ==> Sweep::took_up(states[i], states[i + 1], #[trigger] visits[i])
}

/// The facts that reading files finds, in their order.
pub open spec fn all_read(files: Seq<FileView>) -> Seq<FileFacts> {
    Seq::new(files.len(), |i: int| read_facts(files[i].rel, files[i].content))
}

/// The contents of files by their paths.
pub open spec fn contents(files: Seq<FileView>) -> Map<Seq<char>, Seq<char>>
    decreases files.len(),
{
    if files.len() == 0 {
        Map::empty()
    } else {
        contents(files.drop_last()).insert(files.last().rel, files.last().content)
    }
}

/// The paths of files.
pub open spec fn paths(files: Seq<FileView>) -> Set<Seq<char>> {
    Set::new(|rel: Seq<char>| exists|i: int| 0 <= i < files.len() && (#[trigger] files[i]).rel == rel)
}

proof fn lemma_contents(files: Seq<FileView>)
    ensures
        contents(files).dom() == paths(files),
    decreases files.len(),
{
    if files.len() == 0 {
        assert(contents(files).dom() =~= paths(files));
    } else {
        let less = files.drop_last();
        lemma_contents(less);
        assert forall|rel: Seq<char>| contents(files).dom().contains(rel) <==> paths(files).contains(
            rel,
        ) by {
            if paths(less).contains(rel) {
                let i = choose|i: int| 0 <= i < less.len() && (#[trigger] less[i]).rel == rel;
                assert(files[i].rel == rel);
            }
            if paths(files).contains(rel) {
                let i = choose|i: int| 0 <= i < files.len() && (#[trigger] files[i]).rel == rel;
                if i < less.len() {
                    assert(less[i].rel == rel);
                }
            }
            assert(files[files.len() - 1].rel == files.last().rel);
        }
        assert(contents(files).dom() =~= paths(files));
    }
}

/// A walk over the files of a project gives the facts that reading each file gives, in
/// the order of the walk, whatever was kept before: nothing, or what an earlier run
/// read. What it keeps is again what was read from these files, and of no others.
pub proof fn law_walk_gives_what_reading_gives(
    states: Seq<Sweep>,
    visits: Seq<VisitView>,
    files: Seq<FileView>,
    sources: Map<Seq<char>, Seq<char>>,
)
    requires
        walk(states, visits),
        read_from(kept(states[0].prev), sources),
        visits.len() == files.len(),
        forall|i: int|
            0 <= i < files.len() ==> tells(kept(states[0].prev), visits[i], #[trigger] files[i]),
        forall|i: int|
            0 <= i < files.len() ==> tells_change(
                kept(states[0].prev),
                sources,
                #[trigger] files[i],
            ),
    ensures
        all_file_facts(states.last().out@) == all_read(files),
        read_from(kept(states.last().next), contents(files)),
        kept(states.last().next).dom() == paths(files),
        states.last().prev == states[0].prev,
    decreases files.len(),
{
    let n = files.len() as int;
    let prev = kept(states[0].prev);
    lemma_contents(files);
    if n == 0 {
        assert(all_file_facts(states.last().out@) =~= all_read(files));
        assert(kept(states.last().next).dom() =~= contents(files).dom());
    } else {
        let less = files.drop_last();
        let before = states.drop_last();
        let seen = visits.drop_last();
        assert forall|i: int| 0 <= i < less.len() implies tells(prev, seen[i], #[trigger] less[i]) by {
            assert(tells(prev, visits[i], files[i]));
        }
        assert forall|i: int| 0 <= i < less.len() implies tells_change(
            prev,
            sources,
            #[trigger] less[i],
        ) by {
            assert(tells_change(prev, sources, files[i]));
        }
        assert forall|i: int| 0 <= i < seen.len() implies Sweep::took_up(
            before[i],
            before[i + 1],
            #[trigger] seen[i],
        ) by {
            assert(Sweep::took_up(states[i], states[i + 1], visits[i]));
        }
        law_walk_gives_what_reading_gives(before, seen, less, sources);
        let f = files[n - 1];
        let v = visits[n - 1];
        assert(tells(prev, v, f));
        assert(tells_change(prev, sources, f));
        assert(Sweep::took_up(states[n - 1], states[n - 1 + 1], visits[n - 1]));
        assert(before.last() == states[n - 1]);
        let e = outcome(prev, v)->0;
        assert(outcome(prev, v) is Some);
        assert(e.index == read_facts(f.rel, f.content));
        assert(e.hash == content_hash(f.content));
        assert(all_file_facts(states.last().out@) =~= all_read(files));
        let now = kept(states.last().next);
        assert(now.dom() =~= contents(files).dom());
        assert forall|rel: Seq<char>| #[trigger] now.contains_key(rel) implies now[rel].hash
            == content_hash(contents(files)[rel]) && now[rel].index == read_facts(
            rel,
            contents(files)[rel],
        ) by {
            if rel != f.rel {
                assert(kept(before.last().next).contains_key(rel));
            }
        }
    }
}

/// Where a walk has nothing new to keep, what was kept is what it would keep: files that
/// are gone, are new or have changed all make it store.
pub proof fn law_nothing_stored_is_nothing_new(states: Seq<Sweep>, visits: Seq<VisitView>)
    requires
        walk(states, visits),
        !states.last().dirty,
        table::ascending::<String>(states[0].prev.keys()),
        table::ascending::<String>(states.last().next.keys()),
        states.last().next.keys().len() == states[0].prev.keys().len(),
    ensures
        kept(states.last().next) == kept(states[0].prev),
{
    let prev = kept(states[0].prev);
    let now = kept(states.last().next);
    lemma_still_kept(states, visits);
    let a = states[0].prev.keys();
    let b = states.last().next.keys();
    table::lemma_ascending_distinct::<String>(a);
    table::lemma_ascending_distinct::<String>(b);
    a.unique_seq_to_set();
    b.unique_seq_to_set();
    assert(b.to_set().subset_of(a.to_set())) by {
        assert forall|x: Seq<char>| b.to_set().contains(x) implies a.to_set().contains(x) by {
            assert(now.contains_key(x));
        }
    }
    vstd::seq_lib::seq_to_set_is_finite(a);
    vstd::seq_lib::seq_to_set_is_finite(b);
    vstd::set_lib::lemma_subset_equality(b.to_set(), a.to_set());
    assert forall|x: Seq<char>| prev.contains_key(x) implies now.contains_key(x) by {
        assert(a.to_set().contains(x));
        assert(b.to_set().contains(x));
    }
    assert(now =~= prev);
}

/// A walk that moved nothing keeps only what was kept.
proof fn lemma_still_kept(states: Seq<Sweep>, visits: Seq<VisitView>)
    requires
        walk(states, visits),
        !states.last().dirty,
    ensures
        states.last().prev == states[0].prev,
        forall|x: Seq<char>| #[trigger]
            kept(states.last().next).contains_key(x) ==> kept(states[0].prev).contains_key(x)
                && kept(states.last().next)[x] == kept(states[0].prev)[x],
    decreases visits.len(),
{
    let n = visits.len() as int;
    if n > 0 {
        let before = states.drop_last();
        let seen = visits.drop_last();
        assert forall|i: int| 0 <= i < seen.len() implies Sweep::took_up(
            before[i],
            before[i + 1],
            #[trigger] seen[i],
        ) by {
            assert(Sweep::took_up(states[i], states[i + 1], visits[i]));
        }
        assert(Sweep::took_up(states[n - 1], states[n - 1 + 1], visits[n - 1]));
        assert(before.last() == states[n - 1]);
        lemma_still_kept(before, seen);
    }
}

/// A file whose size or whose time of change is other than it was is not taken as it was: where
/// its content is other too, by its hash, it is read anew.
pub proof fn law_touched_file_is_looked_at(
    prev: Map<Seq<char>, CachedView>,
    v: VisitView,
    source: Seq<char>,
    hash: Seq<u8>,
)
    requires
        v.source == Some((source, hash)),
        prev.contains_key(v.rel) ==> prev[v.rel].hash != hash && (prev[v.rel].size != v.size
            || prev[v.rel].mtime_ns != v.mtime_ns),
    ensures
        outcome(prev, v) matches Some(e) && e.index == read_facts(v.rel, source) && e.hash == hash
            && e.size == v.size && e.mtime_ns == v.mtime_ns,
        moved(prev, v),
{
}

/// A file that was looked at before, with the size and time of change that it had, is not read
/// again.
pub proof fn law_untouched_file_is_kept(prev: Map<Seq<char>, CachedView>, v: VisitView)
    requires
        prev.contains_key(v.rel),
        prev[v.rel].size == v.size,
        prev[v.rel].mtime_ns == v.mtime_ns,
    ensures
        outcome(prev, v) == Some(prev[v.rel]),
        !moved(prev, v),
{
}

proof fn lemma_manifest(t: Table<String, CachedFile>, u: Table<String, CachedFile>, n: int)
    requires
        t.keys() == u.keys(),
        0 <= n <= t.keys().len(),
        forall|i: int|
            0 <= i < n ==> (#[trigger] t.values()[i]).hash@.len() == u.values()[i].hash@.len(),
    ensures
        manifest(t, n).len() == manifest(u, n).len(),
        manifest(t, n) == manifest(u, n) ==> forall|i: int|
            0 <= i < n ==> (#[trigger] t.values()[i]).hash@ == u.values()[i].hash@,
    decreases n,
{
    if n > 0 {
        lemma_manifest(t, u, n - 1);
        let a = manifest(t, n - 1);
        let b = manifest(u, n - 1);
        let k = t.keys()[n - 1];
        let x = upgrade::hexed(t.values()[n - 1].hash@);
        let y = upgrade::hexed(u.values()[n - 1].hash@);
        assert(t.values()[n - 1].hash@.len() == u.values()[n - 1].hash@.len());
        upgrade_laws::lemma_hex_len(t.values()[n - 1].hash@);
        upgrade_laws::lemma_hex_len(u.values()[n - 1].hash@);
        if manifest(t, n) == manifest(u, n) {
            let p = k + " "@ + x + "\n"@;
            let q = k + " "@ + y + "\n"@;
            assert(manifest(t, n) == a + p && manifest(u, n) == b + q);
            assert(a =~= (a + p).take(a.len() as int));
            assert(b =~= (b + q).take(a.len() as int));
            assert(p =~= (a + p).skip(a.len() as int));
            assert(q =~= (b + q).skip(a.len() as int));
            let at = (k + " "@).len() as int;
            assert(x =~= p.subrange(at, at + x.len()));
            assert(y =~= q.subrange(at, at + x.len()));
            upgrade_laws::law_hex_tells_bytes_apart(
                t.values()[n - 1].hash@,
                u.values()[n - 1].hash@,
            );
        }
    }
}

/// What a fingerprint is taken of tells the contents of files apart, as far as their hashes do.
pub proof fn law_manifest_tells_contents_apart(
    t: Table<String, CachedFile>,
    u: Table<String, CachedFile>,
    i: int,
)
    requires
        t.keys() == u.keys(),
        0 <= i < t.keys().len(),
        forall|k: int|
            0 <= k < t.keys().len() ==> (#[trigger] t.values()[k]).hash@.len()
                == u.values()[k].hash@.len(),
        t.values()[i].hash@ != u.values()[i].hash@,
    ensures
        manifest(t, t.keys().len() as int) != manifest(u, t.keys().len() as int),
{
    lemma_manifest(t, u, t.keys().len() as int);
}

} // verus!
