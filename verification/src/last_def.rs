//! Which definition a name stands for: of several callables of one name, the last.
use crate::model::{is_callable, Def, FileIndex};
use crate::model;
use crate::names::fqn_of;
use crate::names;
use crate::table::Table;
use crate::text;
use vstd::prelude::*;

verus! {

/// The last callable of a name among definitions.
pub open spec fn last_in(path: Seq<char>, defs: Seq<Def>, name: Seq<char>) -> Option<int>
    decreases defs.len(),
{
    if defs.len() == 0 {
        None
    } else if model::callable(defs.last()) && names::def_fqn(path, defs.last()) == name {
        Some(defs.len() - 1)
    } else {
        last_in(path, defs.drop_last(), name)
    }
}

/// The last callable of a name: its file, and its place among the definitions
/// there.
pub open spec fn last_def(files: Seq<FileIndex>, name: Seq<char>) -> Option<(int, int)>
    decreases files.len(),
{
    if files.len() == 0 {
        None
    } else {
        match last_in(files.last().path@, files.last().defs@, name) {
            Some(j) => Some((files.len() - 1, j)),
            None => last_def(files.drop_last(), name),
        }
    }
}

/// The last callable of a name is one of the definitions.
pub proof fn lemma_last_in(path: Seq<char>, defs: Seq<Def>, name: Seq<char>)
    ensures
        last_in(path, defs, name) matches Some(j) ==> 0 <= j < defs.len() && model::callable(
            defs[j],
        ) && names::def_fqn(path, defs[j]) == name,
    decreases defs.len(),
{
    if defs.len() > 0 {
        lemma_last_in(path, defs.drop_last(), name);
    }
}

/// The last callable of a name is one of the definitions of the files.
pub proof fn lemma_last_def(files: Seq<FileIndex>, name: Seq<char>)
    ensures
        last_def(files, name) matches Some((i, j)) ==> 0 <= i < files.len() && 0 <= j
            < files[i].defs@.len() && model::callable(files[i].defs@[j]) && names::def_fqn(
            files[i].path@,
            files[i].defs@[j],
        ) == name,
    decreases files.len(),
{
    if files.len() > 0 {
        lemma_last_in(files.last().path@, files.last().defs@, name);
        lemma_last_def(files.drop_last(), name);
    }
}

/// What a table has for a name.
pub open spec fn pair_at(t: Table<String, (usize, usize)>, name: Seq<char>) -> Option<(int, int)> {
    if t.map().contains_key(name) {
        Some((t.map()[name].0 as int, t.map()[name].1 as int))
    } else {
        None
    }
}

/// Whether a table has the last callable of each name.
pub open spec fn has_last(t: Table<String, (usize, usize)>, files: Seq<FileIndex>) -> bool {
    forall|n: Seq<char>| #[trigger] pair_at(t, n) == last_def(files, n)
}

/// The last callable of each name.
pub fn defs_by_name(files: &Vec<FileIndex>) -> (r: Table<String, (usize, usize)>)
    ensures
        has_last(r, files@),
{
    let mut out: Table<String, (usize, usize)> = Table::new();
    let mut i: usize = 0;
    while i < files.len()
        invariant
            i <= files@.len(),
            has_last(out, files@.take(i as int)),
        decreases files@.len() - i,
    {
        proof {
            text::lemma_take_step(files@, i as int);
        }
        let f = &files[i];
        let ghost was = out;
        let ghost before = files@.take(i as int);
        let mut j: usize = 0;
        while j < f.defs.len()
            invariant
                j <= f.defs@.len(),
                forall|n: Seq<char>| #[trigger]
                    pair_at(out, n) == match last_in(f.path@, f.defs@.take(j as int), n) {
                        Some(k) => Some((i as int, k)),
                        None => pair_at(was, n),
                    },
            decreases f.defs@.len() - j,
        {
            proof {
                text::lemma_take_step(f.defs@, j as int);
            }
            let d = &f.defs[j];
            let ghost prev = out;
            if is_callable(d) {
                out.insert(fqn_of(f.path.as_str(), d), (i, j));
            }
            proof {
                assert forall|n: Seq<char>| #[trigger]
                    pair_at(out, n) == match last_in(f.path@, f.defs@.take(j + 1), n) {
                        Some(k) => Some((i as int, k)),
                        None => pair_at(was, n),
                    } by {
                    assert(pair_at(prev, n) == match last_in(f.path@, f.defs@.take(j as int), n) {
                        Some(k) => Some((i as int, k)),
                        None => pair_at(was, n),
                    });
                }
            }
            j = j + 1;
        }
        proof {
            text::lemma_take_all(f.defs@);
            assert forall|n: Seq<char>| #[trigger] pair_at(out, n) == last_def(
                files@.take(i + 1),
                n,
            ) by {
                assert(pair_at(was, n) == last_def(before, n));
            }
        }
        i = i + 1;
    }
    proof {
        text::lemma_take_all(files@);
    }
    out
}

} // verus!
