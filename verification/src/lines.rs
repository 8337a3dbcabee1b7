//! Lines and columns of byte offsets.
use crate::model::Pos;
use crate::syntax;
use crate::text::{chars_of, string_of};
use crate::text;
use vstd::prelude::*;

verus! {

/// How many characters of a text start before a byte offset.
pub open spec fn index_at(s: Seq<char>, byte: nat) -> nat
    decreases s.len(),
{
    if s.len() == 0 {
        0
    } else if syntax::byte_len(s.drop_last()) < byte {
        s.len()
    } else {
        index_at(s.drop_last(), byte)
    }
}

/// The line and column that follow a text.
pub open spec fn line_after(s: Seq<char>) -> (nat, nat)
    decreases s.len(),
{
    if s.len() == 0 {
        (1, 1)
    } else {
        let (line, col) = line_after(s.drop_last());
        if s.last() == '\n' {
            (line + 1, 1)
        } else {
            (line, col + 1)
        }
    }
}

/// The line and column of a byte offset in a text, both counted from one.
pub open spec fn pos_at(s: Seq<char>, byte: u32) -> Pos {
    let (line, col) = line_after(s.take(index_at(s, byte as nat) as int));
    Pos { line: line as usize, col: col as usize }
}

/// The text between two byte offsets.
pub open spec fn text_between(s: Seq<char>, from: u32, to: u32) -> Seq<char> {
    let a = index_at(s, from as nat);
    let b = index_at(s, to as nat);
    if a <= b {
        s.subrange(a as int, b as int)
    } else {
        Seq::empty()
    }
}

/// No more characters start before an offset than there are.
proof fn lemma_index_bound(s: Seq<char>, byte: nat)
    ensures
        index_at(s, byte) <= s.len(),
    decreases s.len(),
{
    if s.len() > 0 {
        lemma_index_bound(s.drop_last(), byte);
    }
}

/// Lines and columns are no more than the characters before them.
proof fn lemma_line_bound(s: Seq<char>)
    ensures
        1 <= line_after(s).0 <= s.len() + 1,
        1 <= line_after(s).1 <= s.len() + 1,
    decreases s.len(),
{
    if s.len() > 0 {
        lemma_line_bound(s.drop_last());
    }
}

/// A longer start of a text takes more bytes.
proof fn lemma_bytes_grow(s: Seq<char>, i: int, j: int)
    requires
        0 <= i < j <= s.len(),
    ensures
        syntax::byte_len(s.take(i)) < syntax::byte_len(s.take(j)),
    decreases j - i,
{
    let t = s.take(j);
    assert(t.drop_last() =~= s.take(j - 1));
    if i < j - 1 {
        lemma_bytes_grow(s, i, j - 1);
    }
}

/// A place with all before it starting before an offset, and it not, is where the
/// offset is.
proof fn lemma_index_found(s: Seq<char>, byte: nat, n: int)
    requires
        0 <= n <= s.len(),
        n > 0 ==> syntax::byte_len(s.take(n - 1)) < byte,
        n < s.len() ==> syntax::byte_len(s.take(n)) >= byte,
    ensures
        index_at(s, byte) == n,
    decreases s.len(),
{
    if s.len() > 0 {
        let less = s.drop_last();
        assert(less =~= s.take(s.len() - 1));
        if n == s.len() {
        } else {
            if n < s.len() - 1 {
                lemma_bytes_grow(s, n, s.len() - 1);
            }
            assert(!(syntax::byte_len(less) < byte));
            if n > 0 {
                assert(less.take(n - 1) =~= s.take(n - 1));
            }
            if n < less.len() {
                assert(less.take(n) =~= s.take(n));
            }
            lemma_index_found(less, byte, n);
        }
    }
}

/// Where the characters of a text are.
pub struct Lines {
    pub chars: Vec<char>,
    /// The byte offset of each character, and that of the end.
    pub bytes: Vec<u32>,
    /// The line and column of each character, and those of the end.
    pub spots: Vec<Pos>,
}

/// How many bytes a character takes in UTF-8.
fn len_of(c: char) -> (r: u32)
    ensures
        r == syntax::char_len(c),
{
    let n: u32 = c as u32;
    if n < 0x80 {
        1
    } else if n < 0x800 {
        2
    } else if n < 0x10000 {
        3
    } else {
        4
    }
}

/// A start of a text takes no more bytes than the text.
pub proof fn lemma_bytes_within(s: Seq<char>, i: int)
    requires
        0 <= i <= s.len(),
    ensures
        syntax::byte_len(s.take(i)) <= syntax::byte_len(s),
{
    text::lemma_take_all(s);
    if i < s.len() {
        lemma_bytes_grow(s, i, s.len() as int);
    }
}

impl Lines {
    /// Whether this is where the characters of its text are.
    pub open spec fn wf(self) -> bool {
        &&& self.bytes@.len() == self.chars@.len() + 1
        &&& self.spots@.len() == self.chars@.len() + 1
        &&& forall|i: int|
            0 <= i <= self.chars@.len() ==> #[trigger] self.bytes@[i] == syntax::byte_len(
                self.chars@.take(i),
            )
        &&& forall|i: int|
            0 <= i <= self.chars@.len() ==> (#[trigger] self.spots@[i]).line == line_after(
                self.chars@.take(i),
            ).0 && self.spots@[i].col == line_after(self.chars@.take(i)).1
    }

    /// Where the characters of a text are.
    pub fn new(s: &str) -> (r: Self)
        requires
            syntax::byte_len(s@) <= u32::MAX,
            s@.len() < usize::MAX,
        ensures
            r.wf(),
            r.chars@ == s@,
    {
        let chars = chars_of(s);
        let mut bytes: Vec<u32> = Vec::new();
        let mut spots: Vec<Pos> = Vec::new();
        let mut byte: u32 = 0;
        let mut line: usize = 1;
        let mut col: usize = 1;
        bytes.push(0);
        spots.push(Pos { line: 1, col: 1 });
        let mut i: usize = 0;
        assert(chars@.take(0) =~= Seq::empty());
        while i < chars.len()
            invariant
                i <= chars@.len(),
                chars@ == s@,
                syntax::byte_len(s@) <= u32::MAX,
                s@.len() < usize::MAX,
                byte == syntax::byte_len(chars@.take(i as int)),
                (line as nat, col as nat) == line_after(chars@.take(i as int)),
                bytes@.len() == i + 1,
                spots@.len() == i + 1,
                forall|k: int|
                    0 <= k <= i ==> #[trigger] bytes@[k] == syntax::byte_len(chars@.take(k)),
                forall|k: int|
                    0 <= k <= i ==> (#[trigger] spots@[k]).line == line_after(chars@.take(k)).0
                        && spots@[k].col == line_after(chars@.take(k)).1,
            decreases chars@.len() - i,
        {
            let c = chars[i];
            proof {
                let t = chars@.take(i + 1);
                assert(t.drop_last() =~= chars@.take(i as int));
                assert(t.last() == c);
                lemma_bytes_within(chars@, i + 1);
                lemma_line_bound(chars@.take(i as int));
            }
            byte = byte + len_of(c);
            if c == '\n' {
                line = line + 1;
                col = 1;
            } else {
                col = col + 1;
            }
            bytes.push(byte);
            spots.push(Pos { line, col });
            i = i + 1;
        }
        Lines { chars, bytes, spots }
    }

    /// How many characters start before a byte offset.
    pub fn index(&self, byte: u32) -> (r: usize)
        requires
            self.wf(),
        ensures
            r == index_at(self.chars@, byte as nat),
            r <= self.chars@.len(),
    {
        let mut low: usize = 0;
        let mut high: usize = self.chars.len();
        while low < high
            invariant
                self.wf(),
                low <= high <= self.chars@.len(),
                low > 0 ==> syntax::byte_len(self.chars@.take(low - 1)) < byte,
                high < self.chars@.len() ==> syntax::byte_len(self.chars@.take(high as int)) >= byte,
            decreases high - low,
        {
            let mid = low + (high - low) / 2;
            assert(self.bytes@[mid as int] == syntax::byte_len(self.chars@.take(mid as int)));
            if self.bytes[mid] < byte {
                low = mid + 1;
            } else {
                high = mid;
            }
        }
        proof {
            lemma_index_found(self.chars@, byte as nat, low as int);
        }
        low
    }

    /// The line and column of a byte offset.
    pub fn pos(&self, byte: u32) -> (r: Pos)
        requires
            self.wf(),
        ensures
            r == pos_at(self.chars@, byte),
    {
        let i = self.index(byte);
        assert(self.spots@[i as int].line == line_after(self.chars@.take(i as int)).0);
        self.spots[i]
    }

    /// The text between two byte offsets.
    pub fn slice(&self, from: u32, to: u32) -> (r: String)
        requires
            self.wf(),
        ensures
            r@ == text_between(self.chars@, from, to),
    {
        let a = self.index(from);
        let b = self.index(to);
        if a <= b {
            string_of(&self.chars, a, b)
        } else {
            let none = String::new();
            assert(none@ =~= Seq::empty());
            none
        }
    }
}

/// The words of a text: its longest stretches without white space.
pub open spec fn words(s: Seq<char>) -> Seq<Seq<char>>
    decreases s.len(),
{
    if s.len() == 0 {
        Seq::empty()
    } else {
        let before = words(s.drop_last());
        let c = s.last();
        if text::white_space(c) {
            before
        } else if s.len() > 1 && !text::white_space(s[s.len() - 2]) && before.len() > 0 {
            before.drop_last().push(before.last().push(c))
        } else {
            before.push(seq![c])
        }
    }
}

/// A text with its words one blank apart.
pub open spec fn squeezed(s: Seq<char>) -> Seq<char> {
    text::join(words(s), " "@)
}

/// The words of a text.
pub fn split_words(s: &str) -> (r: Vec<String>)
    ensures
        text::views(r@) == words(s@),
{
    let cs = chars_of(s);
    let mut out: Vec<String> = Vec::new();
    let mut open = false;
    let mut i: usize = 0;
    assert(text::views(out@) =~= words(s@.take(0)));
    while i < cs.len()
        invariant
            i <= cs@.len(),
            cs@ == s@,
            text::views(out@) == words(s@.take(i as int)),
            open == (i > 0 && !text::white_space(s@[i - 1])),
            open ==> out@.len() > 0,
        decreases cs@.len() - i,
    {
        let c = cs[i];
        let ghost t = s@.take(i + 1);
        let ghost before = text::views(out@);
        proof {
            assert(t.drop_last() =~= s@.take(i as int));
            assert(t.last() == c);
            assert(before.len() == out@.len());
            if i > 0 {
                assert(t[t.len() - 2] == s@[i - 1]);
            }
        }
        if c.is_whitespace() {
            open = false;
        } else {
            if open {
                match out.pop() {
                    Some(w) => {
                        let mut longer = w;
                        longer.push(c);
                        out.push(longer);
                        assert(text::views(out@) =~= before.drop_last().push(before.last().push(c)));
                    },
                    None => {},
                }
            } else {
                let mut fresh = String::new();
                fresh.push(c);
                assert(fresh@ =~= seq![c]);
                out.push(fresh);
                assert(text::views(out@) =~= before.push(seq![c]));
            }
            open = true;
        }
        i = i + 1;
    }
    assert(s@.take(s@.len() as int) =~= s@);
    out
}

/// A text with its words one blank apart.
pub fn squeeze(s: &str) -> (r: String)
    ensures
        r@ == squeezed(s@),
{
    let parts = split_words(s);
    text::join_with(&parts, " ")
}

/// Whether a text takes just so many bytes in UTF-8.
pub fn takes_bytes(s: &str, n: u32) -> (r: bool)
    requires
        n < u32::MAX - 4,
    ensures
        r == (syntax::byte_len(s@) == n),
{
    let chars = chars_of(s);
    let mut total: u32 = 0;
    let mut i: usize = 0;
    assert(chars@.take(0) =~= Seq::empty());
    while i < chars.len()
        invariant
            i <= chars@.len(),
            chars@ == s@,
            n < u32::MAX - 4,
            total <= n,
            total == syntax::byte_len(chars@.take(i as int)),
        decreases chars@.len() - i,
    {
        proof {
            text::lemma_take_step(chars@, i as int);
            lemma_bytes_within(chars@, i + 1);
        }
        total = total + len_of(chars[i]);
        if total > n {
            return false;
        }
        i = i + 1;
    }
    proof {
        text::lemma_take_all(chars@);
    }
    total == n
}

/// Lines and columns count from one, and columns count characters: before a place stand
/// as many characters of its line as its column says, less one.
pub proof fn law_places_count_from_one(s: Seq<char>, byte: u32)
    requires
        s.len() < usize::MAX,
    ensures
        ({
            let i = index_at(s, byte as nat) as int;
            let p = pos_at(s, byte);
            &&& 1 <= p.line
            &&& 1 <= p.col <= i + 1
            &&& forall|k: int| i + 1 - p.col <= k < i ==> #[trigger] s[k] != '\n'
            &&& p.col <= i ==> s[i - p.col] == '\n'
        }),
{
    lemma_index_bound(s, byte as nat);
    let i = index_at(s, byte as nat) as int;
    let t = s.take(i);
    lemma_line_bound(t);
    lemma_column(t);
    let col = line_after(t).1 as int;
    assert forall|k: int| i + 1 - col <= k < i implies #[trigger] s[k] != '\n' by {
        assert(t[k] == s[k]);
    }
    if col <= i {
        assert(t[i - col] == s[i - col]);
    }
}

/// The column after a text is that of the characters after its last line break.
proof fn lemma_column(s: Seq<char>)
    ensures
        ({
            let n = s.len() as int;
            let col = line_after(s).1 as int;
            &&& 1 <= col <= n + 1
            &&& forall|k: int| n + 1 - col <= k < n ==> #[trigger] s[k] != '\n'
            &&& col <= n ==> s[n - col] == '\n'
        }),
    decreases s.len(),
{
    if s.len() > 0 {
        let less = s.drop_last();
        lemma_column(less);
        let n = s.len() as int;
        let col = line_after(s).1 as int;
        assert forall|k: int| n + 1 - col <= k < n implies #[trigger] s[k] != '\n' by {
            if k < n - 1 {
                assert(less[k] == s[k]);
            }
        }
        if col <= n && col > 1 {
            assert(less[n - col] == s[n - col]);
        }
    }
}

} // verus!
