//! Which files of a tree are Python.
use crate::text::{chars_of, final_component_of, last_index_of, same, string_of};
use crate::text;
use vstd::prelude::*;

verus! {

/// What follows the last dot of a file's name; nothing where there is no dot behind
/// its first character.
pub open spec fn extension(path: Seq<char>) -> Option<Seq<char>> {
    match text::final_component(path) {
        None => None,
        Some(name) => match text::last_index(name, '.') {
            Some(i) => if i > 0 {
                Some(name.skip(i + 1))
            } else {
                None
            },
            None => None,
        },
    }
}

/// Whether a path is that of a Python source or stub.
pub open spec fn python_path(path: Seq<char>) -> bool {
    match extension(path) {
        Some(e) => e == "py"@ || e == "pyi"@,
        None => false,
    }
}

/// Whether a path is that of a Python source or stub, by its extension.
pub fn is_python(path: &str) -> (r: bool)
    ensures
        r == python_path(path@),
{
    let name = match final_component_of(path) {
        Some(n) => n,
        None => return false,
    };
    let cs = chars_of(name.as_str());
    match last_index_of(&cs, '.') {
        Some(i) => {
            if i == 0 {
                return false;
            }
            let n: usize = cs.len();
            let e = string_of(&cs, i + 1, n);
            assert(e@ =~= name@.skip(i + 1));
            same(e.as_str(), "py") || same(e.as_str(), "pyi")
        },
        None => false,
    }
}

} // verus!
