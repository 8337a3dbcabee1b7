//! What reports share: locations, and rows put in order.
use crate::callgraph;
use crate::json::{Json, JsonView};
use crate::json;
use crate::model::Pos;
use crate::sort::{reversed, sort, Ranked};
use crate::sort;
use crate::text::{cat3, cat5, count_text, text_before};
use crate::text;
use vstd::prelude::*;

verus! {

/// A location: a file, a line and a column.
pub open spec fn place(path: Seq<char>, line: usize, col: usize) -> Seq<char> {
    path + ":"@ + text::decimal(line as nat) + ":"@ + text::decimal(col as nat)
}

/// A location: a file, a line and a column.
pub fn place_text(path: &str, line: usize, col: usize) -> (r: String)
    ensures
        r@ == place(path@, line, col),
{
    let l = count_text(line);
    let c = count_text(col);
    cat5(path, ":", l.as_str(), ":", c.as_str())
}

/// A location of a place in a file.
pub fn loc_str(file: &str, pos: Pos) -> (r: String)
    ensures
        r@ == place(file@, pos.line, pos.col),
{
    place_text(file, pos.line, pos.col)
}

/// A row and what it is put in order by.
#[derive(Debug)]
pub struct Entry {
    pub rank: u8,
    pub first: String,
    pub second: String,
    pub row: Json,
}

/// A row and what it is put in order by, with texts in place of strings.
pub struct EntryView {
    pub rank: u8,
    pub first: Seq<char>,
    pub second: Seq<char>,
    pub row: JsonView,
}

impl View for Entry {
    type V = EntryView;

    open spec fn view(&self) -> EntryView {
        EntryView {
            rank: self.rank,
            first: self.first@,
            second: self.second@,
            row: self.row@,
        }
    }
}

impl Ranked for Entry {
    open spec fn precedes(a: EntryView, b: EntryView) -> bool {
        a.rank < b.rank || (a.rank == b.rank && (text::text_lt(a.first, b.first) || (a.first
            == b.first && text::text_lt(a.second, b.second))))
    }

    fn is_before(&self, other: &Self) -> (r: bool) {
        self.rank < other.rank || (self.rank == other.rank && (text_before(
            self.first.as_str(),
            other.first.as_str(),
        ) || (text::same(self.first.as_str(), other.first.as_str()) && text_before(
            self.second.as_str(),
            other.second.as_str(),
        ))))
    }

    proof fn precedes_is_an_order(a: EntryView, b: EntryView, c: EntryView) {
        callgraph::lemma_text_weak(a.first, b.first, c.first);
        callgraph::lemma_text_weak(a.second, b.second, c.second);
        text::lemma_text_lt_irreflexive(a.first);
        text::lemma_text_lt_total(a.first, b.first);
        text::lemma_text_lt_total(b.first, c.first);
        text::lemma_text_lt_total(a.first, c.first);
        callgraph::lemma_text_weak(c.first, b.first, a.first);
        callgraph::lemma_text_weak(b.first, c.first, a.first);
        callgraph::lemma_text_weak(b.first, a.first, c.first);
    }
}

/// The rows of entries.
pub open spec fn rows_of(s: Seq<EntryView>) -> Seq<JsonView> {
    Seq::new(s.len(), |i: int| s[i].row)
}

/// The rows of entries, in order.
pub open spec fn arranged(s: Seq<EntryView>) -> Seq<JsonView> {
    rows_of(sort::sorted::<Entry>(s))
}

/// The rows of entries, in order.
pub fn arrange(entries: Vec<Entry>) -> (r: Vec<Json>)
    ensures
        json::item_views(r@) == arranged(sort::each(entries@)),
{
    let ghost want = sort::sorted::<Entry>(sort::each(entries@));
    let ordered = sort(entries);
    let ghost all = ordered@;
    let mut rest = reversed(ordered);
    let mut out: Vec<Json> = Vec::new();
    while rest.len() > 0
        invariant
            rest@.len() + out@.len() == all.len(),
            sort::each(all) == want,
            forall|k: int| 0 <= k < rest@.len() ==> #[trigger] rest@[k] == all[all.len() - 1 - k],
            json::item_views(out@) == rows_of(want).take(out@.len() as int),
        decreases rest@.len(),
    {
        match rest.pop() {
            Some(e) => {
                let ghost n = out@.len() as int;
                let ghost seen = out@;
                assert(e == all[n]);
                assert(sort::each(all)[n] == e@);
                assert(rows_of(want)[n] == e.row@);
                out.push(e.row);
                assert(json::item_views(out@) =~= json::item_views(seen).push(rows_of(want)[n]));
                assert(rows_of(want).take(n + 1) =~= rows_of(want).take(n).push(rows_of(want)[n]));
            },
            None => {},
        }
    }
    assert(sort::each(all).len() == all.len());
    assert(rows_of(want).take(all.len() as int) =~= rows_of(want));
    out
}

/// A list of one text.
pub fn one_text(s: &str) -> (r: Json)
    ensures
        r@ == json::texts(seq![s@]),
{
    let mut v: Vec<String> = Vec::new();
    v.push(s.to_owned());
    assert(text::views(v@) =~= seq![s@]);
    Json::texts(&v)
}

/// A list of two texts.
pub fn two_texts(a: &str, b: &str) -> (r: Json)
    ensures
        r@ == json::texts(seq![a@, b@]),
{
    let mut v: Vec<String> = Vec::new();
    v.push(a.to_owned());
    v.push(b.to_owned());
    assert(text::views(v@) =~= seq![a@, b@]);
    Json::texts(&v)
}

/// A list without texts.
pub fn no_texts() -> (r: Json)
    ensures
        r@ == json::texts(Seq::empty()),
{
    let v: Vec<String> = Vec::new();
    assert(text::views(v@) =~= Seq::empty());
    Json::texts(&v)
}

/// A count and what is counted.
pub open spec fn counted(n: nat, word: Seq<char>) -> Seq<char> {
    text::decimal(n) + " "@ + text::plural_of(n, word)
}

/// A count and what is counted.
pub fn count_of(n: usize, word: &str) -> (r: String)
    ensures
        r@ == counted(n as nat, word@),
{
    let d = count_text(n);
    let w = text::plural(n, word);
    cat3(d.as_str(), " ", w.as_str())
}

/// The rows of entries in order are the rows of the entries.
pub proof fn lemma_arranged(s: Seq<EntryView>, row: JsonView)
    ensures
        arranged(s).contains(row) <==> exists|i: int| 0 <= i < s.len() && (#[trigger] s[i]).row
            == row,
{
    let t = sort::sorted::<Entry>(s);
    if arranged(s).contains(row) {
        let k = choose|k: int| 0 <= k < arranged(s).len() && arranged(s)[k] == row;
        assert(t.contains(t[k]));
        sort::lemma_sorted_contains::<Entry>(s, t[k]);
        let i = choose|i: int| 0 <= i < s.len() && s[i] == t[k];
        assert(s[i].row == row);
    }
    if exists|i: int| 0 <= i < s.len() && (#[trigger] s[i]).row == row {
        let i = choose|i: int| 0 <= i < s.len() && (#[trigger] s[i]).row == row;
        assert(s.contains(s[i]));
        sort::lemma_sorted_contains::<Entry>(s, s[i]);
        let k = choose|k: int| 0 <= k < t.len() && t[k] == s[i];
        assert(arranged(s)[k] == row);
    }
}

} // verus!
