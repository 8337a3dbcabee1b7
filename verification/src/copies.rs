//! The facts of a file once more.
use crate::facts;
use crate::model::{Def, Effect, FileIndex, ImportStmt, Input, MockTarget, Ref};
use crate::sort;
use crate::text::copy_strings;
use crate::text;
use vstd::prelude::*;

verus! {

/// What can be had again.
pub trait Again: View + Sized {
    fn again(&self) -> (r: Self)
        ensures
            r@ == self@,
    ;
}

/// A text again, where there is one.
fn text_again(s: &Option<String>) -> (r: Option<String>)
    ensures
        facts::text_if(r) == facts::text_if(*s),
{
    match s {
        Some(t) => Some(t.clone()),
        None => None,
    }
}

impl Again for Def {
    fn again(&self) -> (r: Self) {
        let r = Def {
            name: self.name.clone(),
            kind: self.kind,
            pos: self.pos,
            offset: self.offset,
            container: copy_strings(&self.container),
            nested: self.nested,
            bases: copy_strings(&self.bases),
            decorated: self.decorated,
            decorators: copy_strings(&self.decorators),
            signature: text_again(&self.signature),
            doc: text_again(&self.doc),
            end_line: self.end_line,
        };
        assert(r@ == self@);
        r
    }
}

impl Again for Ref {
    fn again(&self) -> (r: Self) {
        Ref {
            name: self.name.clone(),
            pos: self.pos,
            offset: self.offset,
            is_call: self.is_call,
            module_scope: self.module_scope,
        }
    }
}

impl Again for Input {
    fn again(&self) -> (r: Self) {
        Input { kind: self.kind, value: self.value.clone(), pos: self.pos }
    }
}

impl Again for ImportStmt {
    fn again(&self) -> (r: Self) {
        ImportStmt {
            module: self.module.clone(),
            level: self.level,
            names: copy_strings(&self.names),
            context: self.context,
            pos: self.pos,
        }
    }
}

impl Again for Effect {
    fn again(&self) -> (r: Self) {
        Effect {
            kind: self.kind,
            detail: self.detail.clone(),
            pos: self.pos,
            scope: copy_strings(&self.scope),
            import_time: self.import_time,
        }
    }
}

impl Again for MockTarget {
    fn again(&self) -> (r: Self) {
        MockTarget { target: text_again(&self.target), pos: self.pos }
    }
}

/// Items again.
pub fn all_again<T: Again>(v: &Vec<T>) -> (r: Vec<T>)
    ensures
        sort::each(r@) == sort::each(v@),
{
    let ghost all = sort::each(v@);
    let mut out: Vec<T> = Vec::new();
    let mut i: usize = 0;
    assert(sort::each(out@) =~= all.take(0));
    while i < v.len()
        invariant
            i <= v@.len(),
            all == sort::each(v@),
            sort::each(out@) == all.take(i as int),
        decreases v@.len() - i,
    {
        let ghost held = out@;
        let one = v[i].again();
        out.push(one);
        proof {
            sort::lemma_each_push(held, one);
            assert(all.take(i + 1) =~= all.take(i as int).push(all[i as int]));
        }
        i = i + 1;
    }
    proof {
        text::lemma_take_all(all);
    }
    out
}

/// The facts of a file again.
pub fn file_again(f: &FileIndex) -> (r: FileIndex)
    ensures
        r.path@ == f.path@,
        facts::facts_of(r) == facts::facts_of(*f),
{
    FileIndex {
        path: f.path.clone(),
        defs: all_again(&f.defs),
        refs: all_again(&f.refs),
        inputs: all_again(&f.inputs),
        imports: all_again(&f.imports),
        effects: all_again(&f.effects),
        mocks: all_again(&f.mocks),
        dotted_strings: copy_strings(&f.dotted_strings),
        dunder_all: copy_strings(&f.dunder_all),
        has_main_guard: f.has_main_guard,
    }
}

} // verus!
