//! Reading JSON text into structured values.
use crate::json::{Json, JsonView};
use crate::json;
use crate::sort::reversed;
use vstd::prelude::*;

verus! {

/// A value as `serde_json` holds it.
#[verifier::external_type_specification]
#[verifier::external_body]
pub struct ExValue(serde_json::Value);

/// Why `serde_json` refuses a text.
#[verifier::external_type_specification]
#[verifier::external_body]
pub struct ExError(serde_json::Error);

/// What a `serde_json::Value` holds.
pub uninterp spec fn held(v: serde_json::Value) -> JsonView;

/// What a text says, where it is JSON.
pub uninterp spec fn said(raw: Seq<char>) -> Option<JsonView>;

/// A `serde_json::Value`, one level opened.
enum Opened {
    Null,
    Bool(bool),
    /// The number as an unsigned integer where it is one, and as JSON writes it.
    Num(Option<u64>, String),
    Str(String),
    Arr(Vec<serde_json::Value>),
    Obj(Vec<(String, serde_json::Value)>),
}

/// What values hold.
spec fn all_held(s: Seq<serde_json::Value>) -> Seq<JsonView> {
    Seq::new(s.len(), |i: int| held(s[i]))
}

/// What the values of rows hold, with their keys.
spec fn rows_held(s: Seq<(String, serde_json::Value)>) -> Seq<(Seq<char>, JsonView)> {
    Seq::new(s.len(), |i: int| (s[i].0@, held(s[i].1)))
}

/// `serde_json::from_str` into a `serde_json::Value`: it succeeds just on JSON
/// text, and the value holds what the text says.
#[verifier::external_body]
fn read(raw: &str) -> (r: Result<serde_json::Value, serde_json::Error>)
    ensures
        match r {
            Ok(v) => said(raw@) == Some(held(v)),
            Err(_) => said(raw@) is None,
        },
{
    serde_json::from_str(raw)
}

/// The variants of `serde_json::Value`: which of them a value is, with what it
/// holds. Numbers come by `Number::as_u64` and as `Number` displays them, the
/// rows of an object in the order that its map keeps.
#[verifier::external_body]
fn opened(v: serde_json::Value) -> (r: Opened)
    ensures
        match r {
            Opened::Null => held(v) == JsonView::Null,
            Opened::Bool(b) => held(v) == JsonView::Bool(b),
            Opened::Num(Some(n), _) => held(v) == JsonView::Num(n as nat),
            Opened::Num(None, t) => held(v) == JsonView::Number(t@),
            Opened::Str(s) => held(v) == JsonView::Str(s@),
            Opened::Arr(items) => held(v) == JsonView::Arr(all_held(items@)),
            Opened::Obj(rows) => held(v) == JsonView::Obj(rows_held(rows@)),
        },
{
    match v {
        serde_json::Value::Null => Opened::Null,
        serde_json::Value::Bool(b) => Opened::Bool(b),
        serde_json::Value::Number(n) => Opened::Num(n.as_u64(), n.to_string()),
        serde_json::Value::String(s) => Opened::Str(s),
        serde_json::Value::Array(items) => Opened::Arr(items),
        serde_json::Value::Object(rows) => Opened::Obj(rows.into_iter().collect()),
    }
}

/// A value of `serde_json` as a value of this library.
fn lifted(v: serde_json::Value) -> (r: Json)
    ensures
        r@ == held(v),
    decreases held(v),
{
    let ghost whole = held(v);
    match opened(v) {
        Opened::Null => Json::Null,
        Opened::Bool(b) => Json::Bool(b),
        Opened::Num(Some(n), _) => Json::Num(n),
        Opened::Num(None, t) => Json::Number(t),
        Opened::Str(s) => Json::Str(s),
        Opened::Arr(items) => {
            assert(decreases_to!(whole => whole->Arr_0));
            let r = Json::Arr(lifted_items(items));
            proof {
                json::lemma_views(r);
            }
            r
        },
        Opened::Obj(rows) => {
            assert(decreases_to!(whole => whole->Obj_0));
            let r = Json::Obj(lifted_rows(rows));
            proof {
                json::lemma_views(r);
            }
            r
        },
    }
}

/// Values of `serde_json` as values of this library.
fn lifted_items(items: Vec<serde_json::Value>) -> (r: Vec<Json>)
    ensures
        json::item_views(r@) == all_held(items@),
    decreases all_held(items@),
{
    let ghost all = all_held(items@);
    let mut rest = reversed(items);
    let mut out: Vec<Json> = Vec::new();
    while rest.len() > 0
        invariant
            rest@.len() + out@.len() == all.len(),
            forall|k: int| 0 <= k < rest@.len() ==> held(#[trigger] rest@[k]) == all[all.len() - 1 - k],
            json::item_views(out@) == all.take(out@.len() as int),
            all == all_held(items@),
        decreases rest@.len(),
    {
        match rest.pop() {
            Some(v) => {
                let ghost n = out@.len() as int;
                let ghost seen = out@;
                assert(held(v) == all[n]);
                assert(decreases_to!(all => all[n]));
                out.push(lifted(v));
                assert(json::item_views(out@) =~= json::item_views(seen).push(all[n]));
                assert(all.take(n + 1) =~= all.take(n).push(all[n]));
            },
            None => {},
        }
    }
    assert(all.take(all.len() as int) =~= all);
    out
}

/// The rows of an object of `serde_json` as rows of this library.
fn lifted_rows(rows: Vec<(String, serde_json::Value)>) -> (r: Vec<(String, Json)>)
    ensures
        json::row_views(r@) == rows_held(rows@),
    decreases rows_held(rows@),
{
    let ghost all = rows_held(rows@);
    let mut rest = reversed(rows);
    let mut out: Vec<(String, Json)> = Vec::new();
    while rest.len() > 0
        invariant
            rest@.len() + out@.len() == all.len(),
            forall|k: int|
                0 <= k < rest@.len() ==> ((#[trigger] rest@[k]).0@, held(rest@[k].1)) == all[all.len()
                    - 1 - k],
            json::row_views(out@) == all.take(out@.len() as int),
            all == rows_held(rows@),
        decreases rest@.len(),
    {
        match rest.pop() {
            Some(row) => {
                let ghost n = out@.len() as int;
                let ghost seen = out@;
                assert((row.0@, held(row.1)) == all[n]);
                assert(decreases_to!(all => all[n]));
                assert(decreases_to!(all[n] => all[n].1));
                let (key, value) = row;
                out.push((key, lifted(value)));
                assert(json::row_views(out@) =~= json::row_views(seen).push(all[n]));
                assert(all.take(n + 1) =~= all.take(n).push(all[n]));
            },
            None => {},
        }
    }
    assert(all.take(all.len() as int) =~= all);
    out
}

/// What a text says, where it is JSON.
pub fn parse(raw: &str) -> (r: Option<Json>)
    ensures
        match r {
            Some(j) => said(raw@) == Some(j@),
            None => said(raw@) is None,
        },
{
    match read(raw) {
        Ok(v) => Some(lifted(v)),
        Err(_) => None,
    }
}

} // verus!
