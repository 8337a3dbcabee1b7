//! Structured values: the rows of results and the descriptions of queries.
use crate::text::{cat, cat3, cat4, cat5, decimal_of, same, text_before};
use crate::text;
use vstd::prelude::*;

verus! {

/// A structured value. The keys of an object ascend.
#[derive(Debug)]
pub enum Json {
    Null,
    Bool(bool),
    Num(u64),
    /// Any other number, as JSON writes it.
    Number(String),
    Str(String),
    Arr(Vec<Json>),
    Obj(Vec<(String, Json)>),
}

/// What a structured value is, with texts in place of strings.
#[verifier::ext_equal]
pub enum JsonView {
    Null,
    Bool(bool),
    Num(nat),
    Number(Seq<char>),
    Str(Seq<char>),
    Arr(Seq<JsonView>),
    Obj(Seq<(Seq<char>, JsonView)>),
}

/// What a structured value is.
pub open spec fn json_view(j: Json) -> JsonView
    decreases j,
{
    match j {
        Json::Null => JsonView::Null,
        Json::Bool(b) => JsonView::Bool(b),
        Json::Num(n) => JsonView::Num(n as nat),
        Json::Number(t) => JsonView::Number(t@),
        Json::Str(s) => JsonView::Str(s@),
        Json::Arr(v) => JsonView::Arr(
            Seq::new(
                v@.len(),
                |i: int|
                    if 0 <= i < v@.len() {
                        json_view(v@[i])
                    } else {
                        JsonView::Null
                    },
            ),
        ),
        Json::Obj(v) => JsonView::Obj(
            Seq::new(
                v@.len(),
                |i: int|
                    if 0 <= i < v@.len() {
                        (v@[i].0@, json_view(v@[i].1))
                    } else {
                        (Seq::empty(), JsonView::Null)
                    },
            ),
        ),
    }
}

impl View for Json {
    type V = JsonView;

    open spec fn view(&self) -> JsonView {
        json_view(*self)
    }
}

/// The rows of an object with `key` mapped to `value`, in the place that its
/// order gives it.
pub open spec fn put_row(
    rows: Seq<(Seq<char>, JsonView)>,
    key: Seq<char>,
    value: JsonView,
) -> Seq<(Seq<char>, JsonView)>
    decreases rows.len(),
{
    if rows.len() == 0 || text::text_lt(rows.last().0, key) {
        rows.push((key, value))
    } else if rows.last().0 == key {
        rows.drop_last().push((key, value))
    } else {
        put_row(rows.drop_last(), key, value).push(rows.last())
    }
}

/// Where a key stands among rows, the first place.
pub open spec fn row_of(rows: Seq<(Seq<char>, JsonView)>, key: Seq<char>) -> Option<JsonView>
    decreases rows.len(),
{
    if rows.len() == 0 {
        None
    } else {
        match row_of(rows.drop_last(), key) {
            Some(v) => Some(v),
            None => if rows.last().0 == key {
                Some(rows.last().1)
            } else {
                None
            },
        }
    }
}

impl JsonView {
    /// An object without rows.
    pub open spec fn object() -> JsonView {
        JsonView::Obj(Seq::empty())
    }

    /// An object with `key` mapped to `value`; any other value as it is.
    pub open spec fn with(self, key: Seq<char>, value: JsonView) -> JsonView {
        match self {
            JsonView::Obj(rows) => JsonView::Obj(put_row(rows, key, value)),
            _ => self,
        }
    }

    /// What an object maps `key` to.
    pub open spec fn get(self, key: Seq<char>) -> Option<JsonView> {
        match self {
            JsonView::Obj(rows) => row_of(rows, key),
            _ => None,
        }
    }

    /// The text that an object maps `key` to.
    pub open spec fn get_text(self, key: Seq<char>) -> Option<Seq<char>> {
        match self.get(key) {
            Some(JsonView::Str(s)) => Some(s),
            _ => None,
        }
    }
}

/// A list of texts as a value.
pub open spec fn texts(s: Seq<Seq<char>>) -> JsonView {
    JsonView::Arr(Seq::new(s.len(), |i: int| JsonView::Str(s[i])))
}

/// A text, or null.
pub open spec fn text_or_null(s: Option<Seq<char>>) -> JsonView {
    match s {
        Some(t) => JsonView::Str(t),
        None => JsonView::Null,
    }
}

/// An integer.
pub open spec fn integer(n: int) -> JsonView {
    if n >= 0 {
        JsonView::Num(n as nat)
    } else {
        JsonView::Number("-"@ + text::decimal((-n) as nat))
    }
}

/// An integer, or null.
pub open spec fn integer_or_null(n: Option<i32>) -> JsonView {
    match n {
        Some(v) => integer(v as int),
        None => JsonView::Null,
    }
}

/// A character as it stands in a JSON string. A quote, a backslash and the control
/// characters are escaped: those that have a letter by it, the others by their number.
pub open spec fn escaped(c: char) -> Seq<char> {
    let n = c as nat;
    if c == '"' {
        seq!['\\', '"']
    } else if c == '\\' {
        seq!['\\', '\\']
    } else if n == 8 {
        seq!['\\', 'b']
    } else if n == 9 {
        seq!['\\', 't']
    } else if n == 10 {
        seq!['\\', 'n']
    } else if n == 12 {
        seq!['\\', 'f']
    } else if n == 13 {
        seq!['\\', 'r']
    } else if n < 32 {
        seq!['\\', 'u', '0', '0', text::hex_digit(n / 16), text::hex_digit(n % 16)]
    } else {
        seq![c]
    }
}

/// The characters of a text as they stand in a JSON string.
pub open spec fn escaped_all(s: Seq<char>) -> Seq<char>
    decreases s.len(),
{
    if s.len() == 0 {
        Seq::empty()
    } else {
        escaped_all(s.drop_last()) + escaped(s.last())
    }
}

/// A text as a JSON string: in double quotes, with escapes.
pub open spec fn quoted(s: Seq<char>) -> Seq<char> {
    seq!['"'] + escaped_all(s) + seq!['"']
}

/// Whether a text is on one line.
pub open spec fn on_one_line(t: Seq<char>) -> bool {
    forall|i: int| 0 <= i < t.len() ==> #[trigger] t[i] != '\n' && t[i] != '\r'
}

/// `serde_json::to_string` of a string: the JSON string literal that stands for it,
/// in double quotes and with the escapes of `escaped`. It does not fail on a string.
#[verifier::external_body]
fn quote(s: &str) -> (r: String)
    ensures
        r@ == quoted(s@),
{
    serde_json::to_string(s).unwrap_or_default()
}

/// A value as compact JSON: no blanks, the keys of objects in their order.
pub open spec fn compact(j: JsonView) -> Seq<char>
    decreases j,
{
    match j {
        JsonView::Null => "null"@,
        JsonView::Bool(b) => if b {
            "true"@
        } else {
            "false"@
        },
        JsonView::Num(n) => text::decimal(n),
        JsonView::Number(t) => t,
        JsonView::Str(s) => quoted(s),
        JsonView::Arr(items) => "["@ + compact_items(items) + "]"@,
        JsonView::Obj(rows) => "{"@ + compact_rows(rows) + "}"@,
    }
}

/// Values as compact JSON, with commas between them.
pub open spec fn compact_items(items: Seq<JsonView>) -> Seq<char>
    decreases items,
{
    if items.len() == 0 {
        Seq::empty()
    } else if items.len() == 1 {
        compact(items[0])
    } else {
        compact_items(items.drop_last()) + ","@ + compact(items[items.len() - 1])
    }
}

/// Rows as compact JSON, with commas between them.
pub open spec fn compact_rows(rows: Seq<(Seq<char>, JsonView)>) -> Seq<char>
    decreases rows,
{
    if rows.len() == 0 {
        Seq::empty()
    } else if rows.len() == 1 {
        quoted(rows[0].0) + ":"@ + compact(rows[0].1)
    } else {
        compact_rows(rows.drop_last()) + ","@ + (quoted(rows[rows.len() - 1].0) + ":"@ + compact(
            rows[rows.len() - 1].1,
        ))
    }
}

/// Whether the numbers in a value that are held as texts are each on one line.
pub open spec fn numbers_on_one_line(j: JsonView) -> bool
    decreases j,
{
    match j {
        JsonView::Number(t) => on_one_line(t),
        JsonView::Arr(items) => item_numbers_on_one_line(items),
        JsonView::Obj(rows) => row_numbers_on_one_line(rows),
        _ => true,
    }
}

/// Whether the numbers in values are.
pub open spec fn item_numbers_on_one_line(items: Seq<JsonView>) -> bool
    decreases items,
{
    items.len() == 0 || (item_numbers_on_one_line(items.drop_last()) && numbers_on_one_line(
        items[items.len() - 1],
    ))
}

/// Whether the numbers in rows are.
pub open spec fn row_numbers_on_one_line(rows: Seq<(Seq<char>, JsonView)>) -> bool
    decreases rows,
{
    rows.len() == 0 || (row_numbers_on_one_line(rows.drop_last()) && numbers_on_one_line(
        rows[rows.len() - 1].1,
    ))
}

/// An item of an array whose numbers are on one line is such a value itself.
proof fn lemma_plain_item(items: Seq<JsonView>, i: int)
    requires
        item_numbers_on_one_line(items),
        0 <= i < items.len(),
    ensures
        numbers_on_one_line(items[i]),
    decreases items.len(),
{
    if i < items.len() - 1 {
        lemma_plain_item(items.drop_last(), i);
    }
}

/// So is a value of an object.
proof fn lemma_plain_row(rows: Seq<(Seq<char>, JsonView)>, i: int)
    requires
        row_numbers_on_one_line(rows),
        0 <= i < rows.len(),
    ensures
        numbers_on_one_line(rows[i].1),
    decreases rows.len(),
{
    if i < rows.len() - 1 {
        lemma_plain_row(rows.drop_last(), i);
    }
}

/// Texts on one line are together on one line.
proof fn lemma_one_line(a: Seq<char>, b: Seq<char>)
    requires
        on_one_line(a),
        on_one_line(b),
    ensures
        on_one_line(a + b),
{
    let t = a + b;
    assert forall|i: int| 0 <= i < t.len() implies #[trigger] t[i] != '\n' && t[i] != '\r' by {
        if i < a.len() {
            assert(t[i] == a[i]);
        } else {
            assert(t[i] == b[i - a.len()]);
        }
    }
}

/// Escaped characters are on one line.
proof fn lemma_escaped_line(s: Seq<char>)
    ensures
        on_one_line(escaped_all(s)),
    decreases s.len(),
{
    if s.len() > 0 {
        lemma_escaped_line(s.drop_last());
        assert(on_one_line(escaped(s.last())));
        lemma_one_line(escaped_all(s.drop_last()), escaped(s.last()));
    }
}

/// A JSON string is on one line.
proof fn lemma_quoted_line(s: Seq<char>)
    ensures
        on_one_line(quoted(s)),
{
    lemma_escaped_line(s);
    lemma_one_line(seq!['"'], escaped_all(s));
    lemma_one_line(seq!['"'] + escaped_all(s), seq!['"']);
}

/// A decimal is on one line.
proof fn lemma_decimal_line(n: nat)
    ensures
        on_one_line(text::decimal(n)),
    decreases n,
{
    if n >= 10 {
        lemma_decimal_line(n / 10);
        let t = text::decimal(n);
        let less = text::decimal(n / 10);
        assert forall|i: int| 0 <= i < t.len() implies #[trigger] t[i] != '\n' && t[i] != '\r' by {
            if i < less.len() {
                assert(t[i] == less[i]);
            }
        }
    }
}

/// A value as JSON on lines of its own, each item and row indented by two blanks more
/// than what holds it.
pub open spec fn pretty(j: JsonView, indent: Seq<char>) -> Seq<char>
    decreases j,
{
    match j {
        JsonView::Arr(items) => if items.len() == 0 {
            "[]"@
        } else {
            "[\n"@ + pretty_items(items, indent + "  "@) + "\n"@ + indent + "]"@
        },
        JsonView::Obj(rows) => if rows.len() == 0 {
            "{}"@
        } else {
            "{\n"@ + pretty_rows(rows, indent + "  "@) + "\n"@ + indent + "}"@
        },
        _ => compact(j),
    }
}

/// Values as JSON on lines of their own.
pub open spec fn pretty_items(items: Seq<JsonView>, indent: Seq<char>) -> Seq<char>
    decreases items,
{
    if items.len() == 0 {
        Seq::empty()
    } else if items.len() == 1 {
        indent + pretty(items[0], indent)
    } else {
        pretty_items(items.drop_last(), indent) + ",\n"@ + (indent + pretty(
            items[items.len() - 1],
            indent,
        ))
    }
}

/// Rows as JSON on lines of their own.
pub open spec fn pretty_rows(rows: Seq<(Seq<char>, JsonView)>, indent: Seq<char>) -> Seq<char>
    decreases rows,
{
    if rows.len() == 0 {
        Seq::empty()
    } else if rows.len() == 1 {
        indent + quoted(rows[0].0) + ": "@ + pretty(rows[0].1, indent)
    } else {
        pretty_rows(rows.drop_last(), indent) + ",\n"@ + (indent + quoted(rows[rows.len() - 1].0)
            + ": "@ + pretty(rows[rows.len() - 1].1, indent))
    }
}

/// What the items of a list are.
pub open spec fn item_views(s: Seq<Json>) -> Seq<JsonView> {
    Seq::new(s.len(), |i: int| json_view(s[i]))
}

/// What the rows of an object are.
pub open spec fn row_views(s: Seq<(String, Json)>) -> Seq<(Seq<char>, JsonView)> {
    Seq::new(s.len(), |i: int| (s[i].0@, json_view(s[i].1)))
}

/// What a list or an object is.
pub proof fn lemma_views(j: Json)
    ensures
        j matches Json::Arr(v) ==> j@ == JsonView::Arr(item_views(v@)),
        j matches Json::Obj(v) ==> j@ == JsonView::Obj(row_views(v@)),
{
    match j {
        Json::Arr(v) => {
            assert(json_view(j)->Arr_0 =~= item_views(v@));
        },
        Json::Obj(v) => {
            assert(json_view(j)->Obj_0 =~= row_views(v@));
        },
        _ => {},
    }
}

/// Puts a row in the place that its order gives it.
fn put(rows: &mut Vec<(String, Json)>, key: &str, value: Json)
    ensures
        row_views(final(rows)@) == put_row(row_views(old(rows)@), key@, value@),
{
    let ghost was = row_views(rows@);
    let ghost held = rows@;
    let mut i: usize = rows.len();
    proof {
        text::lemma_take_all(was);
        assert(was.skip(was.len() as int) =~= Seq::<(Seq<char>, JsonView)>::empty());
        assert(put_row(was, key@, value@) =~= put_row(was.take(i as int), key@, value@) + was.skip(
            i as int,
        ));
    }
    while i > 0 && !text_before(rows[i - 1].0.as_str(), key) && !same(
        rows[i - 1].0.as_str(),
        key,
    )
        invariant
            i <= was.len(),
            rows@ == held,
            was == row_views(held),
            put_row(was, key@, value@) == put_row(was.take(i as int), key@, value@) + was.skip(
                i as int,
            ),
        decreases i,
    {
        proof {
            let t = was.take(i as int);
            assert(t.drop_last() =~= was.take(i - 1));
            assert(t.last() == was[i - 1]);
            assert(put_row(was.take(i - 1), key@, value@).push(was[i - 1]) + was.skip(i as int)
                =~= put_row(was.take(i - 1), key@, value@) + was.skip(i - 1));
        }
        i = i - 1;
    }
    let ghost t = was.take(i as int);
    proof {
        if i > 0 {
            assert(t.last() == was[i - 1]);
            assert(t.drop_last() =~= was.take(i - 1));
        }
    }
    if i > 0 && same(rows[i - 1].0.as_str(), key) {
        proof {
            text::lemma_text_lt_irreflexive(key@);
        }
        rows.set(i - 1, (key.to_owned(), value));
        assert(row_views(rows@) =~= was.take(i - 1).push((key@, value@)) + was.skip(i as int));
    } else {
        rows.insert(i, (key.to_owned(), value));
        assert(row_views(rows@) =~= t.push((key@, value@)) + was.skip(i as int));
    }
}

impl Json {
    /// A text.
    pub fn text(s: &str) -> (r: Json)
        ensures
            r@ == JsonView::Str(s@),
    {
        Json::Str(s.to_owned())
    }

    /// A count.
    pub fn count(n: usize) -> (r: Json)
        ensures
            r@ == JsonView::Num(n as nat),
    {
        Json::Num(n as u64)
    }

    /// An integer.
    pub fn integer(n: i32) -> (r: Json)
        ensures
            r@ == integer(n as int),
    {
        if n >= 0 {
            Json::Num(n as u64)
        } else {
            let size: u64 = (-(n as i64)) as u64;
            let digits = decimal_of(size);
            Json::Number(cat("-", digits.as_str()))
        }
    }

    /// An integer, or null.
    pub fn integer_or_null(n: Option<i32>) -> (r: Json)
        ensures
            r@ == integer_or_null(n),
    {
        match n {
            Some(v) => Json::integer(v),
            None => Json::Null,
        }
    }

    /// The same value again.
    pub fn copy(&self) -> (r: Json)
        ensures
            r@ == self@,
        decreases self,
    {
        proof {
            lemma_views(*self);
        }
        match self {
            Json::Null => Json::Null,
            Json::Bool(b) => Json::Bool(*b),
            Json::Num(n) => Json::Num(*n),
            Json::Number(t) => Json::Number(t.clone()),
            Json::Str(s) => Json::Str(s.clone()),
            Json::Arr(items) => {
                let r = Json::Arr(Self::copy_items(items));
                proof {
                    lemma_views(r);
                }
                r
            },
            Json::Obj(rows) => {
                let r = Json::Obj(Self::copy_rows(rows));
                proof {
                    lemma_views(r);
                }
                r
            },
        }
    }

    /// The same values again.
    pub fn copy_items(items: &Vec<Json>) -> (r: Vec<Json>)
        ensures
            item_views(r@) == item_views(items@),
        decreases items,
    {
        let mut out: Vec<Json> = Vec::new();
        let mut i: usize = 0;
        while i < items.len()
            invariant
                i <= items@.len(),
                item_views(out@) == item_views(items@).take(i as int),
            decreases items@.len() - i,
        {
            assert(decreases_to!(items => items@));
            assert(decreases_to!(items@ => items@[i as int]));
            let one = items[i].copy();
            let ghost held = out@;
            out.push(one);
            assert(item_views(out@) =~= item_views(held).push(json_view(items@[i as int])));
            assert(item_views(items@).take(i + 1) =~= item_views(items@).take(i as int).push(
                json_view(items@[i as int]),
            ));
            i = i + 1;
        }
        proof {
            text::lemma_take_all(item_views(items@));
        }
        out
    }

    fn copy_rows(rows: &Vec<(String, Json)>) -> (r: Vec<(String, Json)>)
        ensures
            row_views(r@) == row_views(rows@),
        decreases rows,
    {
        let mut out: Vec<(String, Json)> = Vec::new();
        let mut i: usize = 0;
        while i < rows.len()
            invariant
                i <= rows@.len(),
                row_views(out@) == row_views(rows@).take(i as int),
            decreases rows@.len() - i,
        {
            assert(decreases_to!(rows => rows@));
            assert(decreases_to!(rows@ => rows@[i as int]));
            assert(decreases_to!(rows@[i as int] => rows@[i as int].1));
            let one = rows[i].1.copy();
            let ghost held = out@;
            out.push((rows[i].0.clone(), one));
            let ghost row = (rows@[i as int].0@, json_view(rows@[i as int].1));
            assert(row_views(out@) =~= row_views(held).push(row));
            assert(row_views(rows@).take(i + 1) =~= row_views(rows@).take(i as int).push(row));
            i = i + 1;
        }
        proof {
            text::lemma_take_all(row_views(rows@));
        }
        out
    }

    /// A text, or null.
    pub fn text_or_null(s: Option<&str>) -> (r: Json)
        ensures
            r@ == text_or_null(
                match s {
                    Some(t) => Some(t@),
                    None => None,
                },
            ),
    {
        match s {
            Some(t) => Json::text(t),
            None => Json::Null,
        }
    }

    /// A list of texts.
    pub fn texts(list: &Vec<String>) -> (r: Json)
        ensures
            r@ == texts(text::views(list@)),
    {
        let mut out: Vec<Json> = Vec::new();
        let mut i: usize = 0;
        while i < list.len()
            invariant
                i <= list@.len(),
                out@.len() == i,
                forall|k: int| 0 <= k < i ==> json_view(#[trigger] out@[k]) == JsonView::Str(list@[k]@),
            decreases list@.len() - i,
        {
            out.push(Json::text(list[i].as_str()));
            i = i + 1;
        }
        let r = Json::Arr(out);
        proof {
            lemma_views(r);
            assert(item_views(out@) =~= texts(text::views(list@))->Arr_0);
        }
        r
    }

    /// An object without rows.
    pub fn object() -> (r: Json)
        ensures
            r@ == JsonView::object(),
    {
        let r = Json::Obj(Vec::new());
        proof {
            lemma_views(r);
            assert(row_views(Seq::empty()) =~= Seq::empty());
        }
        r
    }

    /// An object with `key` mapped to `value`; any other value as it is.
    pub fn with(self, key: &str, value: Json) -> (r: Json)
        ensures
            r@ == self@.with(key@, value@),
    {
        proof {
            lemma_views(self);
        }
        match self {
            Json::Obj(rows) => {
                let mut rows = rows;
                put(&mut rows, key, value);
                let r = Json::Obj(rows);
                proof {
                    lemma_views(r);
                }
                r
            },
            other => other,
        }
    }

    /// What an object maps `key` to.
    pub fn get(&self, key: &str) -> (r: Option<&Json>)
        ensures
            match r {
                Some(v) => self@.get(key@) == Some(v@),
                None => self@.get(key@) is None,
            },
    {
        proof {
            lemma_views(*self);
        }
        match self {
            Json::Obj(rows) => {
                let ghost all = row_views(rows@);
                let mut i: usize = 0;
                while i < rows.len()
                    invariant
                        i <= rows@.len(),
                        all == row_views(rows@),
                        self@ == JsonView::Obj(all),
                        row_of(all.take(i as int), key@) is None,
                    decreases rows@.len() - i,
                {
                    proof {
                        text::lemma_take_step(all, i as int);
                    }
                    if same(rows[i].0.as_str(), key) {
                        proof {
                            lemma_row_stays(all, key@, i + 1);
                            text::lemma_take_all(all);
                        }
                        return Some(&rows[i].1);
                    }
                    i = i + 1;
                }
                proof {
                    text::lemma_take_all(all);
                }
                None
            },
            _ => None,
        }
    }

    /// The text that an object maps `key` to.
    pub fn get_text(&self, key: &str) -> (r: Option<&str>)
        ensures
            match r {
                Some(s) => self@.get_text(key@) == Some(s@),
                None => self@.get_text(key@) is None,
            },
    {
        match self.get(key) {
            Some(Json::Str(s)) => Some(s.as_str()),
            _ => None,
        }
    }

    /// The value as compact JSON, which is on one line.
    pub fn to_text(&self) -> (r: String)
        ensures
            r@ == compact(self@),
            numbers_on_one_line(self@) ==> on_one_line(r@),
        decreases self,
    {
        proof {
            lemma_views(*self);
            reveal_strlit("null");
            reveal_strlit("true");
            reveal_strlit("false");
            reveal_strlit("[");
            reveal_strlit("]");
            reveal_strlit("{");
            reveal_strlit("}");
            if let Json::Num(n) = *self {
                lemma_decimal_line(n as nat);
            }
            if let Json::Str(t) = self {
                lemma_quoted_line(t@);
            }
        }
        match self {
            Json::Null => "null".to_owned(),
            Json::Bool(b) => if *b {
                "true".to_owned()
            } else {
                "false".to_owned()
            },
            Json::Num(n) => decimal_of(*n),
            Json::Number(t) => t.clone(),
            Json::Str(s) => quote(s.as_str()),
            Json::Arr(items) => {
                let inner = Self::items_text(items);
                proof {
                    if numbers_on_one_line(self@) {
                        lemma_one_line("["@, inner@);
                        lemma_one_line("["@ + inner@, "]"@);
                    }
                }
                cat3("[", inner.as_str(), "]")
            },
            Json::Obj(rows) => {
                let inner = Self::rows_text(rows);
                proof {
                    if numbers_on_one_line(self@) {
                        lemma_one_line("{"@, inner@);
                        lemma_one_line("{"@ + inner@, "}"@);
                    }
                }
                cat3("{", inner.as_str(), "}")
            },
        }
    }

    fn items_text(items: &Vec<Json>) -> (r: String)
        ensures
            r@ == compact_items(item_views(items@)),
            item_numbers_on_one_line(item_views(items@)) ==> on_one_line(r@),
        decreases items,
    {
        let ghost all = item_views(items@);
        let ghost plain = item_numbers_on_one_line(all);
        proof {
            reveal_strlit(",");
        }
        let mut out = String::new();
        let mut i: usize = 0;
        assert(out@ =~= compact_items(all.take(0)));
        while i < items.len()
            invariant
                i <= items@.len(),
                all == item_views(items@),
                out@ == compact_items(all.take(i as int)),
                plain == item_numbers_on_one_line(all),
                plain ==> on_one_line(out@),
                on_one_line(","@),
            decreases items@.len() - i,
        {
            proof {
                text::lemma_take_step(all, i as int);
                if plain {
                    lemma_plain_item(all, i as int);
                }
            }
            let ghost before = out@;
            assert(decreases_to!(items => items@));
            assert(decreases_to!(items@ => items@[i as int]));
            let t = items[i].to_text();
            if i == 0 {
                out = t;
            } else {
                out.append(",");
                out.append(t.as_str());
                proof {
                    if plain {
                        lemma_one_line(before, ","@);
                        lemma_one_line(before + ","@, t@);
                    }
                }
            }
            i = i + 1;
        }
        proof {
            text::lemma_take_all(all);
        }
        out
    }

    fn rows_text(rows: &Vec<(String, Json)>) -> (r: String)
        ensures
            r@ == compact_rows(row_views(rows@)),
            row_numbers_on_one_line(row_views(rows@)) ==> on_one_line(r@),
        decreases rows,
    {
        let ghost all = row_views(rows@);
        let ghost plain = row_numbers_on_one_line(all);
        proof {
            reveal_strlit(",");
            reveal_strlit(":");
        }
        let mut out = String::new();
        let mut i: usize = 0;
        assert(out@ =~= compact_rows(all.take(0)));
        while i < rows.len()
            invariant
                i <= rows@.len(),
                all == row_views(rows@),
                out@ == compact_rows(all.take(i as int)),
                plain == row_numbers_on_one_line(all),
                plain ==> on_one_line(out@),
                on_one_line(","@),
                on_one_line(":"@),
            decreases rows@.len() - i,
        {
            proof {
                text::lemma_take_step(all, i as int);
                if plain {
                    lemma_plain_row(all, i as int);
                }
            }
            let ghost before = out@;
            assert(decreases_to!(rows => rows@));
            assert(decreases_to!(rows@ => rows@[i as int]));
            assert(decreases_to!(rows@[i as int] => rows@[i as int].1));
            let t = rows[i].1.to_text();
            let k = quote(rows[i].0.as_str());
            let one = cat3(k.as_str(), ":", t.as_str());
            proof {
                if plain {
                    lemma_quoted_line(rows@[i as int].0@);
                    lemma_one_line(k@, ":"@);
                    lemma_one_line(k@ + ":"@, t@);
                }
            }
            if i == 0 {
                out = one;
            } else {
                out.append(",");
                out.append(one.as_str());
                proof {
                    if plain {
                        lemma_one_line(before, ","@);
                        lemma_one_line(before + ","@, one@);
                    }
                }
            }
            i = i + 1;
        }
        proof {
            text::lemma_take_all(all);
        }
        out
    }

    /// The value as JSON on lines of its own.
    pub fn to_pretty(&self, indent: &str) -> (r: String)
        ensures
            r@ == pretty(self@, indent@),
        decreases self,
    {
        proof {
            lemma_views(*self);
        }
        match self {
            Json::Arr(items) => {
                if items.len() == 0 {
                    return "[]".to_owned();
                }
                let deeper = cat(indent, "  ");
                let inner = Self::items_pretty(items, deeper.as_str());
                cat5("[\n", inner.as_str(), "\n", indent, "]")
            },
            Json::Obj(rows) => {
                if rows.len() == 0 {
                    return "{}".to_owned();
                }
                let deeper = cat(indent, "  ");
                let inner = Self::rows_pretty(rows, deeper.as_str());
                cat5("{\n", inner.as_str(), "\n", indent, "}")
            },
            _ => self.to_text(),
        }
    }

    fn items_pretty(items: &Vec<Json>, indent: &str) -> (r: String)
        ensures
            r@ == pretty_items(item_views(items@), indent@),
        decreases items,
    {
        let ghost all = item_views(items@);
        let mut out = String::new();
        let mut i: usize = 0;
        assert(out@ =~= pretty_items(all.take(0), indent@));
        while i < items.len()
            invariant
                i <= items@.len(),
                all == item_views(items@),
                out@ == pretty_items(all.take(i as int), indent@),
            decreases items@.len() - i,
        {
            proof {
                text::lemma_take_step(all, i as int);
            }
            assert(decreases_to!(items => items@));
            assert(decreases_to!(items@ => items@[i as int]));
            let t = items[i].to_pretty(indent);
            let one = cat(indent, t.as_str());
            if i == 0 {
                out = one;
            } else {
                out.append(",\n");
                out.append(one.as_str());
            }
            i = i + 1;
        }
        proof {
            text::lemma_take_all(all);
        }
        out
    }

    fn rows_pretty(rows: &Vec<(String, Json)>, indent: &str) -> (r: String)
        ensures
            r@ == pretty_rows(row_views(rows@), indent@),
        decreases rows,
    {
        let ghost all = row_views(rows@);
        let mut out = String::new();
        let mut i: usize = 0;
        assert(out@ =~= pretty_rows(all.take(0), indent@));
        while i < rows.len()
            invariant
                i <= rows@.len(),
                all == row_views(rows@),
                out@ == pretty_rows(all.take(i as int), indent@),
            decreases rows@.len() - i,
        {
            proof {
                text::lemma_take_step(all, i as int);
            }
            assert(decreases_to!(rows => rows@));
            assert(decreases_to!(rows@ => rows@[i as int]));
            assert(decreases_to!(rows@[i as int] => rows@[i as int].1));
            let t = rows[i].1.to_pretty(indent);
            let k = quote(rows[i].0.as_str());
            let one = cat4(indent, k.as_str(), ": ", t.as_str());
            if i == 0 {
                out = one;
            } else {
                out.append(",\n");
                out.append(one.as_str());
            }
            i = i + 1;
        }
        proof {
            text::lemma_take_all(all);
        }
        out
    }
}

/// The texts among values.
pub open spec fn texts_among(items: Seq<JsonView>) -> Seq<Seq<char>>
    decreases items.len(),
{
    if items.len() == 0 {
        Seq::empty()
    } else {
        match items.last() {
            JsonView::Str(s) => texts_among(items.drop_last()).push(s),
            _ => texts_among(items.drop_last()),
        }
    }
}

/// The texts among values.
pub fn texts_in(items: &Vec<Json>) -> (r: Vec<String>)
    ensures
        text::views(r@) == texts_among(item_views(items@)),
{
    let ghost all = item_views(items@);
    let mut out: Vec<String> = Vec::new();
    let mut i: usize = 0;
    assert(text::views(out@) =~= texts_among(all.take(0)));
    while i < items.len()
        invariant
            i <= items@.len(),
            all == item_views(items@),
            text::views(out@) == texts_among(all.take(i as int)),
        decreases items@.len() - i,
    {
        proof {
            text::lemma_take_step(all, i as int);
        }
        match &items[i] {
            Json::Str(s) => {
                let ghost seen = text::views(out@);
                out.push(s.clone());
                assert(text::views(out@) =~= seen.push(s@));
            },
            _ => {},
        }
        i = i + 1;
    }
    proof {
        text::lemma_take_all(all);
    }
    out
}

/// A key found among the first rows is found the same among all.
proof fn lemma_row_stays(rows: Seq<(Seq<char>, JsonView)>, key: Seq<char>, n: int)
    requires
        0 <= n <= rows.len(),
        row_of(rows.take(n), key) is Some,
    ensures
        row_of(rows, key) == row_of(rows.take(n), key),
    decreases rows.len() - n,
{
    if n < rows.len() {
        text::lemma_take_step(rows, n);
        lemma_row_stays(rows, key, n + 1);
    } else {
        text::lemma_take_all(rows);
    }
}

/// Putting a row in, then looking its key up, gives the value put in.
proof fn lemma_put_row(rows: Seq<(Seq<char>, JsonView)>, key: Seq<char>, value: JsonView)
    requires
        rows_ascend(rows),
    ensures
        row_of(put_row(rows, key, value), key) == Some(value),
        rows_ascend(put_row(rows, key, value)),
        forall|i: int|
            0 <= i < put_row(rows, key, value).len() ==> (#[trigger] put_row(rows, key, value)[i]).0
                == key || exists|j: int|
                0 <= j < rows.len() && #[trigger] rows[j] == put_row(rows, key, value)[i],
        forall|k: Seq<char>| k != key ==> #[trigger] row_of(put_row(rows, key, value), k) == row_of(
            rows,
            k,
        ),
    decreases rows.len(),
{
    let made = put_row(rows, key, value);
    if rows.len() == 0 || text::text_lt(rows.last().0, key) {
        assert(made.drop_last() =~= rows);
        assert forall|i: int, j: int| 0 <= i < j < made.len() implies text::text_lt(
            (#[trigger] made[i]).0,
            (#[trigger] made[j]).0,
        ) by {
            if j == rows.len() && i < rows.len() - 1 {
                text::lemma_text_lt_transitive(rows[i].0, rows.last().0, key);
            }
        }
        assert forall|i: int| 0 <= i < made.len() implies (#[trigger] made[i]).0 == key || exists|
            j: int,
        |
            0 <= j < rows.len() && #[trigger] rows[j] == made[i] by {
            if i < rows.len() {
                assert(rows[i] == made[i]);
            }
        }
        lemma_absent(rows, key);
    } else if rows.last().0 == key {
        assert(made.drop_last() =~= rows.drop_last());
        lemma_absent_last(rows);
        assert forall|i: int| 0 <= i < made.len() implies (#[trigger] made[i]).0 == key || exists|
            j: int,
        |
            0 <= j < rows.len() && #[trigger] rows[j] == made[i] by {
            if i < rows.len() - 1 {
                assert(rows[i] == made[i]);
            }
        }
    } else {
        let less = rows.drop_last();
        let inner = put_row(less, key, value);
        lemma_put_row(less, key, value);
        assert(made.drop_last() =~= inner);
        text::lemma_text_lt_total(rows.last().0, key);
        assert forall|i: int, j: int| 0 <= i < j < made.len() implies text::text_lt(
            (#[trigger] made[i]).0,
            (#[trigger] made[j]).0,
        ) by {
            if j == inner.len() {
                assert(made[i] == inner[i]);
                if inner[i].0 != key {
                    let m = choose|m: int| 0 <= m < less.len() && #[trigger] less[m] == inner[i];
                    assert(rows[m] == less[m]);
                    assert(text::text_lt(rows[m].0, rows[rows.len() - 1].0));
                }
            } else {
                assert(made[i] == inner[i] && made[j] == inner[j]);
            }
        }
        assert forall|i: int| 0 <= i < made.len() implies (#[trigger] made[i]).0 == key || exists|
            j: int,
        |
            0 <= j < rows.len() && #[trigger] rows[j] == made[i] by {
            if i < inner.len() {
                assert(made[i] == inner[i]);
                if inner[i].0 != key {
                    let m = choose|m: int| 0 <= m < less.len() && #[trigger] less[m] == inner[i];
                    assert(rows[m] == made[i]);
                }
            } else {
                assert(rows[rows.len() - 1] == made[i]);
            }
        }
        assert forall|k: Seq<char>| k != key implies #[trigger] row_of(made, k) == row_of(rows, k) by {
            assert(row_of(inner, k) == row_of(less, k));
        }
    }
}

/// A key greater than the last is not among rows that ascend.
proof fn lemma_absent(rows: Seq<(Seq<char>, JsonView)>, key: Seq<char>)
    requires
        rows_ascend(rows),
        rows.len() == 0 || text::text_lt(rows.last().0, key),
    ensures
        row_of(rows, key) is None,
    decreases rows.len(),
{
    if rows.len() > 0 {
        text::lemma_text_lt_irreflexive(key);
        let less = rows.drop_last();
        if less.len() > 0 {
            assert(less.last() == rows[rows.len() - 2]);
            text::lemma_text_lt_transitive(less.last().0, rows.last().0, key);
        }
        lemma_absent(less, key);
    }
}

/// The last key of rows that ascend is not among the others.
proof fn lemma_absent_last(rows: Seq<(Seq<char>, JsonView)>)
    requires
        rows_ascend(rows),
        rows.len() > 0,
    ensures
        row_of(rows.drop_last(), rows.last().0) is None,
{
    let less = rows.drop_last();
    if less.len() > 0 {
        assert(less.last() == rows[rows.len() - 2]);
    }
    lemma_absent(less, rows.last().0);
}

/// Whether the keys of rows ascend.
pub open spec fn rows_ascend(rows: Seq<(Seq<char>, JsonView)>) -> bool {
    forall|i: int, j: int|
        0 <= i < j < rows.len() ==> text::text_lt((#[trigger] rows[i]).0, (#[trigger] rows[j]).0)
}

/// An object with a key mapped to a value maps that key to it and the others as
/// before, and its keys ascend again.
pub proof fn law_with_then_get(rows: Seq<(Seq<char>, JsonView)>, key: Seq<char>, value: JsonView)
    requires
        rows_ascend(rows),
    ensures
        JsonView::Obj(rows).with(key, value).get(key) == Some(value),
        forall|k: Seq<char>|
            k != key ==> #[trigger] JsonView::Obj(rows).with(key, value).get(k) == JsonView::Obj(
                rows,
            ).get(k),
        rows_ascend(JsonView::Obj(rows).with(key, value)->Obj_0),
{
    lemma_put_row(rows, key, value);
    assert forall|k: Seq<char>| k != key implies #[trigger] JsonView::Obj(rows).with(
        key,
        value,
    ).get(k) == JsonView::Obj(rows).get(k) by {
        assert(row_of(put_row(rows, key, value), k) == row_of(rows, k));
    }
}

/// Whether a value is an object whose keys ascend.
pub open spec fn tidy(j: JsonView) -> bool {
    j is Obj && rows_ascend(j->Obj_0)
}

/// An object with a key mapped to a value maps that key to it and the others as before.
pub proof fn lemma_with(j: JsonView, key: Seq<char>, value: JsonView)
    requires
        tidy(j),
    ensures
        tidy(j.with(key, value)),
        j.with(key, value).get(key) == Some(value),
        forall|k: Seq<char>| k != key ==> #[trigger] j.with(key, value).get(k) == j.get(k),
{
    law_with_then_get(j->Obj_0, key, value);
}

} // verus!
