//! Strings as sequences of characters: comparison, searching, splitting,
//! joining, and the decimal form of a number.
use vstd::prelude::*;

verus! {

/// `String::push` appends one character to the end of the string.
pub assume_specification[ String::push ](s: &mut String, c: char)
    ensures
        final(s)@ == old(s)@.push(c),
;

/// Whether a character has Unicode's `White_Space` property.
pub open spec fn white_space(c: char) -> bool {
    let n = c as u32;
    ||| 0x09 <= n <= 0x0d
    ||| n == 0x20 || n == 0x85 || n == 0xa0 || n == 0x1680
    ||| 0x2000 <= n <= 0x200a
    ||| n == 0x2028 || n == 0x2029 || n == 0x202f || n == 0x205f || n == 0x3000
}

/// Whether `c` has the Unicode `Alphabetic` property or is numeric: the value
/// of `char::is_alphanumeric`.
pub uninterp spec fn alphanumeric(c: char) -> bool;

/// `char::is_whitespace`: whether the character has Unicode's `White_Space`
/// property, which these characters have and no others.
pub assume_specification[ char::is_whitespace ](c: char) -> (r: bool)
    ensures
        r == white_space(c),
;

/// `char::is_alphanumeric`: a fixed property of the character. The letters and
/// digits of ASCII have it; its punctuation does not.
pub assume_specification[ char::is_alphanumeric ](c: char) -> (r: bool)
    ensures
        r == alphanumeric(c),
        'a' <= c <= 'z' || 'A' <= c <= 'Z' || '0' <= c <= '9' ==> r,
        ' ' <= c <= '/' || ':' <= c <= '@' || '[' <= c <= '`' || '{' <= c <= '~' ==> !r,
;

/// The text of each string of a list.
pub open spec fn views(s: Seq<String>) -> Seq<Seq<char>> {
    Seq::new(s.len(), |i: int| s[i]@)
}

/// Whether `p` stands in `s` at index `i`.
pub open spec fn occurs_at(p: Seq<char>, s: Seq<char>, i: int) -> bool {
    &&& 0 <= i
    &&& i + p.len() <= s.len()
    &&& s.subrange(i, i + p.len()) == p
}

/// Whether `s` begins with `p`.
pub open spec fn starts(s: Seq<char>, p: Seq<char>) -> bool {
    occurs_at(p, s, 0)
}

/// Whether `s` ends with `p`.
pub open spec fn ends(s: Seq<char>, p: Seq<char>) -> bool {
    occurs_at(p, s, s.len() - p.len())
}

/// Whether `p` stands anywhere in `s`.
pub open spec fn within(s: Seq<char>, p: Seq<char>) -> bool {
    exists|i: int| occurs_at(p, s, i)
}

/// The dictionary order of two texts by code point.
pub open spec fn text_lt(a: Seq<char>, b: Seq<char>) -> bool
    decreases a.len(),
{
    if b.len() == 0 {
        false
    } else if a.len() == 0 {
        true
    } else if a[0] != b[0] {
        a[0] < b[0]
    } else {
        text_lt(a.skip(1), b.skip(1))
    }
}

/// The pieces of `s` between the characters of `seps`: one more piece than
/// `s` has separators, empty ones included.
pub open spec fn split(s: Seq<char>, seps: Seq<char>) -> Seq<Seq<char>>
    decreases s.len(),
{
    if s.len() == 0 {
        seq![Seq::<char>::empty()]
    } else {
        let before = split(s.drop_last(), seps);
        if seps.contains(s.last()) {
            before.push(Seq::<char>::empty())
        } else {
            before.drop_last().push(before.last().push(s.last()))
        }
    }
}

/// The pieces that are not empty, in order.
pub open spec fn filled(parts: Seq<Seq<char>>) -> Seq<Seq<char>>
    decreases parts.len(),
{
    if parts.len() == 0 {
        Seq::empty()
    } else if parts.last().len() == 0 {
        filled(parts.drop_last())
    } else {
        filled(parts.drop_last()).push(parts.last())
    }
}

/// The parts with `sep` between each two of them.
pub open spec fn join(parts: Seq<Seq<char>>, sep: Seq<char>) -> Seq<char>
    decreases parts.len(),
{
    if parts.len() == 0 {
        Seq::empty()
    } else if parts.len() == 1 {
        parts[0]
    } else {
        join(parts.drop_last(), sep) + sep + parts.last()
    }
}

/// `s` without the white space at its start.
pub open spec fn trim_start(s: Seq<char>) -> Seq<char>
    decreases s.len(),
{
    if s.len() > 0 && white_space(s[0]) {
        trim_start(s.skip(1))
    } else {
        s
    }
}

/// `s` without the white space at its end.
pub open spec fn trim_end(s: Seq<char>) -> Seq<char>
    decreases s.len(),
{
    if s.len() > 0 && white_space(s.last()) {
        trim_end(s.drop_last())
    } else {
        s
    }
}

/// `s` without the white space at either end.
pub open spec fn trim(s: Seq<char>) -> Seq<char> {
    trim_end(trim_start(s))
}

/// `s` without the leading characters equal to `c`.
pub open spec fn drop_leading(s: Seq<char>, c: char) -> Seq<char>
    decreases s.len(),
{
    if s.len() > 0 && s[0] == c {
        drop_leading(s.skip(1), c)
    } else {
        s
    }
}

/// `s` without the trailing characters equal to `c`.
pub open spec fn drop_trailing(s: Seq<char>, c: char) -> Seq<char>
    decreases s.len(),
{
    if s.len() > 0 && s.last() == c {
        drop_trailing(s.drop_last(), c)
    } else {
        s
    }
}

/// `s` with every `from` replaced by `to`.
pub open spec fn replaced(s: Seq<char>, from: char, to: char) -> Seq<char> {
    Seq::new(s.len(), |i: int| if s[i] == from { to } else { s[i] })
}

/// A piece of a line-feed split without the carriage return at its end.
pub open spec fn without_return(s: Seq<char>) -> Seq<char> {
    if s.len() > 0 && s.last() == '\r' {
        s.drop_last()
    } else {
        s
    }
}

/// The lines of `s`: its pieces between line feeds, each without a carriage
/// return before the feed, and without the empty piece after a final feed.
pub open spec fn lines(s: Seq<char>) -> Seq<Seq<char>> {
    let parts = split(s, seq!['\n']);
    let whole = if parts.last().len() == 0 {
        parts.drop_last()
    } else {
        parts
    };
    Seq::new(
        whole.len(),
        |i: int|
            if i + 1 < parts.len() {
                without_return(whole[i])
            } else {
                whole[i]
            },
    )
}

/// The lower-case form of an ASCII capital; any other character as it is.
pub open spec fn lower_char(c: char) -> char {
    if 'A' <= c <= 'Z' {
        ((c as u32 + 32) as u32) as char
    } else {
        c
    }
}

/// `s` with its ASCII capitals in lower case.
pub open spec fn lower(s: Seq<char>) -> Seq<char> {
    Seq::new(s.len(), |i: int| lower_char(s[i]))
}

/// The decimal digit of a number below ten.
pub open spec fn digit_char(d: nat) -> char {
    (('0' as u32 + d) as u32) as char
}

/// A hexadecimal digit.
pub open spec fn hex_digit(n: nat) -> char {
    if n < 10 {
        ('0' as u32 + n) as char
    } else {
        ('a' as u32 + n - 10) as char
    }
}

/// The decimal form of a number, without leading zeros.
pub open spec fn decimal(n: nat) -> Seq<char>
    decreases n,
{
    if n < 10 {
        seq![digit_char(n)]
    } else {
        decimal(n / 10).push(digit_char(n % 10))
    }
}

/// Whether `s` is a run of one or more decimal digits.
pub open spec fn all_digits(s: Seq<char>) -> bool {
    &&& s.len() > 0
    &&& forall|i: int| 0 <= i < s.len() ==> '0' <= #[trigger] s[i] <= '9'
}

/// The number that a run of decimal digits stands for.
pub open spec fn digits_value(s: Seq<char>) -> nat
    decreases s.len(),
{
    if s.len() == 0 {
        0
    } else {
        10 * digits_value(s.drop_last()) + (s.last() as u32 - '0' as u32) as nat
    }
}

/// `s` without one leading plus sign.
pub open spec fn unsigned_digits(s: Seq<char>) -> Seq<char> {
    if s.len() > 0 && s[0] == '+' {
        s.skip(1)
    } else {
        s
    }
}

/// The number that `s` writes in decimal, where it is at most `max`: digits,
/// with one plus sign before them or none.
pub open spec fn number(s: Seq<char>, max: nat) -> Option<nat> {
    let d = unsigned_digits(s);
    if all_digits(d) && digits_value(d) <= max {
        Some(digits_value(d))
    } else {
        None
    }
}

/// The components of a `/`-separated path without the empty and `.` components
/// that end it.
pub open spec fn path_core(parts: Seq<Seq<char>>) -> Seq<Seq<char>>
    decreases parts.len(),
{
    if parts.len() > 0 && (parts.last().len() == 0 || parts.last() == seq!['.']) {
        path_core(parts.drop_last())
    } else {
        parts
    }
}

/// The final component of a `/`-separated path: nothing where there is none,
/// or where it is `..`.
pub open spec fn final_component(path: Seq<char>) -> Option<Seq<char>> {
    let core = path_core(split(path, seq!['/']));
    if core.len() == 0 || core.last() == seq!['.', '.'] {
        None
    } else {
        Some(core.last())
    }
}

/// The final component of a path, or the path itself where it has none.
pub open spec fn base_name(path: Seq<char>) -> Seq<char> {
    match final_component(path) {
        Some(b) => b,
        None => path,
    }
}

/// The index of the last `c` in `s`.
pub open spec fn last_index(s: Seq<char>, c: char) -> Option<int>
    decreases s.len(),
{
    if s.len() == 0 {
        None
    } else if s.last() == c {
        Some(s.len() - 1)
    } else {
        last_index(s.drop_last(), c)
    }
}

/// The index of the first `c` in `s`.
pub open spec fn first_index(s: Seq<char>, c: char) -> Option<int>
    decreases s.len(),
{
    if s.len() == 0 {
        None
    } else {
        match first_index(s.drop_last(), c) {
            Some(i) => Some(i),
            None => if s.last() == c {
                Some(s.len() - 1)
            } else {
                None
            },
        }
    }
}

/// `s` with its first `c` replaced by `with`.
pub open spec fn first_replaced(s: Seq<char>, c: char, with: Seq<char>) -> Seq<char> {
    match first_index(s, c) {
        Some(i) => s.take(i) + with + s.skip(i + 1),
        None => s,
    }
}

/// The final component of a path up to its last dot; the whole of it where
/// there is no dot after its first character. The path itself where it has no
/// final component.
pub open spec fn stem_name(path: Seq<char>) -> Seq<char> {
    match final_component(path) {
        None => path,
        Some(b) => match last_index(b, '.') {
            Some(i) => if i > 0 {
                b.take(i)
            } else {
                b
            },
            None => b,
        },
    }
}

/// What stands after the last dot of a dotted name; all of it where it has no
/// dot.
pub open spec fn leaf_name(s: Seq<char>) -> Seq<char> {
    match last_index(s, '.') {
        Some(i) => s.skip(i + 1),
        None => s,
    }
}

/// What stands before the last dot of a dotted name.
pub open spec fn parent_name(s: Seq<char>) -> Option<Seq<char>> {
    match last_index(s, '.') {
        Some(i) => Some(s.take(i)),
        None => None,
    }
}

/// `s.take(i + 1)` is `s.take(i)` followed by `s[i]`.
pub proof fn lemma_take_step<A>(s: Seq<A>, i: int)
    requires
        0 <= i < s.len(),
    ensures
        s.take(i + 1).len() == i + 1,
        s.take(i + 1).drop_last() == s.take(i),
        s.take(i + 1).last() == s[i],
        s.take(i + 1) == s.take(i).push(s[i]),
{
    assert(s.take(i + 1).drop_last() =~= s.take(i));
    assert(s.take(i + 1) =~= s.take(i).push(s[i]));
}

/// Taking all of a sequence gives it back.
pub proof fn lemma_take_all<A>(s: Seq<A>)
    ensures
        s.take(s.len() as int) == s,
{
    assert(s.take(s.len() as int) =~= s);
}

/// A longer list has one item more.
pub proof fn lemma_push_contains<A>(s: Seq<A>, x: A)
    ensures
        forall|y: A| #[trigger] s.push(x).contains(y) <==> s.contains(y) || y == x,
{
    let t = s.push(x);
    assert forall|y: A| #[trigger] t.contains(y) <==> s.contains(y) || y == x by {
        if s.contains(y) {
            let k = choose|k: int| 0 <= k < s.len() && s[k] == y;
            assert(t[k] == y);
        }
        assert(t[s.len() as int] == x);
    }
}

/// No text stands before itself.
pub proof fn lemma_text_lt_irreflexive(a: Seq<char>)
    ensures
        !text_lt(a, a),
    decreases a.len(),
{
    if a.len() > 0 {
        lemma_text_lt_irreflexive(a.skip(1));
    }
}

/// The order of texts is transitive.
pub proof fn lemma_text_lt_transitive(a: Seq<char>, b: Seq<char>, c: Seq<char>)
    requires
        text_lt(a, b),
        text_lt(b, c),
    ensures
        text_lt(a, c),
    decreases a.len(),
{
    if a.len() > 0 && b.len() > 0 && c.len() > 0 && a[0] == b[0] && b[0] == c[0] {
        lemma_text_lt_transitive(a.skip(1), b.skip(1), c.skip(1));
    }
}

/// Of two different texts one stands before the other.
pub proof fn lemma_text_lt_total(a: Seq<char>, b: Seq<char>)
    ensures
        text_lt(a, b) || text_lt(b, a) || a == b,
    decreases a.len(),
{
    if a.len() == 0 {
        if b.len() == 0 {
            assert(a =~= b);
        }
    } else if b.len() > 0 && a[0] == b[0] {
        lemma_text_lt_total(a.skip(1), b.skip(1));
        if a.skip(1) == b.skip(1) {
            assert(a.len() == a.skip(1).len() + 1);
            assert forall|i: int| 0 <= i < a.len() implies a[i] == b[i] by {
                if i > 0 {
                    assert(a[i] == a.skip(1)[i - 1]);
                    assert(b[i] == b.skip(1)[i - 1]);
                }
            }
            assert(a =~= b);
        }
    }
}

/// A split has at least one piece.
pub proof fn lemma_split_nonempty(s: Seq<char>, seps: Seq<char>)
    ensures
        split(s, seps).len() > 0,
    decreases s.len(),
{
    if s.len() > 0 {
        lemma_split_nonempty(s.drop_last(), seps);
    }
}

/// The characters of `s`.
pub fn chars_of(s: &str) -> (r: Vec<char>)
    ensures
        r@ == s@,
{
    let mut out: Vec<char> = Vec::new();
    for c in it: s.chars()
        invariant
            out@ == it.seq().take(it.index()),
            it.seq() == s@,
    {
        proof {
            lemma_take_step(s@, it.index());
        }
        out.push(c);
    }
    proof {
        lemma_take_all(s@);
    }
    out
}

/// Whether two strings hold the same text.
pub fn same(a: &str, b: &str) -> (r: bool)
    ensures
        r == (a@ == b@),
{
    let mut x = a.chars();
    let mut y = b.chars();
    let ghost mut n: int = 0;
    loop
        invariant
            0 <= n <= a@.len(),
            n <= b@.len(),
            a@.take(n) == b@.take(n),
            vstd::std_specs::iter::IteratorSpec::remaining(&x) == a@.skip(n),
            vstd::std_specs::iter::IteratorSpec::remaining(&y) == b@.skip(n),
            vstd::std_specs::iter::IteratorSpec::decrease(&x) is Some,
        decreases vstd::std_specs::iter::IteratorSpec::decrease(&x)->0,
    {
        let c = x.next();
        let d = y.next();
        match (c, d) {
            (None, None) => {
                proof {
                    lemma_take_all(a@);
                    lemma_take_all(b@);
                }
                return true;
            },
            (Some(c), Some(d)) => {
                proof {
                    assert(a@.skip(n)[0] == a@[n]);
                    assert(b@.skip(n)[0] == b@[n]);
                }
                if c != d {
                    return false;
                }
                proof {
                    lemma_take_step(a@, n);
                    lemma_take_step(b@, n);
                    assert(a@.skip(n).drop_first() =~= a@.skip(n + 1));
                    assert(b@.skip(n).drop_first() =~= b@.skip(n + 1));
                    n = n + 1;
                }
            },
            _ => {
                proof {
                    assert(a@.skip(n).len() != b@.skip(n).len());
                }
                return false;
            },
        }
    }
}

/// Whether `a` stands before `b` in the order of texts.
pub fn text_before(a: &str, b: &str) -> (r: bool)
    ensures
        r == text_lt(a@, b@),
{
    let mut x = a.chars();
    let mut y = b.chars();
    loop
        invariant
            text_lt(a@, b@) == text_lt(
                vstd::std_specs::iter::IteratorSpec::remaining(&x),
                vstd::std_specs::iter::IteratorSpec::remaining(&y),
            ),
            vstd::std_specs::iter::IteratorSpec::decrease(&x) is Some,
        decreases vstd::std_specs::iter::IteratorSpec::decrease(&x)->0,
    {
        let c = x.next();
        let d = y.next();
        match (c, d) {
            (_, None) => {
                return false;
            },
            (None, Some(_)) => {
                return true;
            },
            (Some(c), Some(d)) => {
                if c != d {
                    return c < d;
                }
            },
        }
    }
}

/// The string that holds `cs[from..to]`.
pub fn string_of(cs: &Vec<char>, from: usize, to: usize) -> (r: String)
    requires
        from <= to <= cs@.len(),
    ensures
        r@ == cs@.subrange(from as int, to as int),
{
    let mut out = String::new();
    let mut i: usize = from;
    while i < to
        invariant
            from <= i <= to <= cs@.len(),
            out@ == cs@.subrange(from as int, i as int),
        decreases to - i,
    {
        out.push(cs[i]);
        assert(cs@.subrange(from as int, i as int).push(cs@[i as int]) =~= cs@.subrange(
            from as int,
            i + 1,
        ));
        i = i + 1;
    }
    out
}

/// Two texts in a row.
pub fn cat(a: &str, b: &str) -> (r: String)
    ensures
        r@ == a@ + b@,
{
    let mut out = a.to_owned();
    out.append(b);
    out
}

/// Three texts in a row.
pub fn cat3(a: &str, b: &str, c: &str) -> (r: String)
    ensures
        r@ == a@ + b@ + c@,
{
    let mut out = a.to_owned();
    out.append(b);
    out.append(c);
    out
}

/// Four texts in a row.
pub fn cat4(a: &str, b: &str, c: &str, d: &str) -> (r: String)
    ensures
        r@ == a@ + b@ + c@ + d@,
{
    let mut out = cat3(a, b, c);
    out.append(d);
    out
}

/// Five texts in a row.
pub fn cat5(a: &str, b: &str, c: &str, d: &str, e: &str) -> (r: String)
    ensures
        r@ == a@ + b@ + c@ + d@ + e@,
{
    let mut out = cat4(a, b, c, d);
    out.append(e);
    out
}

/// Whether `p` stands in `s` at index `i`.
pub fn occurs_here(p: &Vec<char>, s: &Vec<char>, i: usize) -> (r: bool)
    ensures
        r == occurs_at(p@, s@, i as int),
{
    if p.len() > s.len() || i > s.len() - p.len() {
        return false;
    }
    let mut j: usize = 0;
    assert(s.len() == s@.len());
    while j < p.len()
        invariant
            j <= p@.len(),
            i + p@.len() <= s@.len(),
            i + p@.len() <= usize::MAX,
            forall|k: int| 0 <= k < j ==> p@[k] == s@[i + k],
        decreases p@.len() - j,
    {
        if p[j] != s[i + j] {
            assert(s@.subrange(i as int, i + p@.len())[j as int] != p@[j as int]);
            return false;
        }
        j = j + 1;
    }
    assert(s@.subrange(i as int, i + p@.len()) =~= p@);
    true
}

/// Whether `s` begins with `p`.
pub fn starts_with(s: &str, p: &str) -> (r: bool)
    ensures
        r == starts(s@, p@),
{
    let cs = chars_of(s);
    let ps = chars_of(p);
    occurs_here(&ps, &cs, 0)
}

/// Whether `s` ends with `p`.
pub fn ends_with(s: &str, p: &str) -> (r: bool)
    ensures
        r == ends(s@, p@),
{
    let cs = chars_of(s);
    let ps = chars_of(p);
    if ps.len() > cs.len() {
        return false;
    }
    occurs_here(&ps, &cs, cs.len() - ps.len())
}

/// The first index at which `p` stands in `s`.
pub fn find(s: &Vec<char>, p: &Vec<char>) -> (r: Option<usize>)
    ensures
        match r {
            Some(i) => occurs_at(p@, s@, i as int) && forall|j: int| 0 <= j < i ==> !occurs_at(
                p@,
                s@,
                j,
            ),
            None => !within(s@, p@),
        },
{
    if p.len() > s.len() {
        return None;
    }
    let last: usize = s.len() - p.len();
    let mut i: usize = 0;
    while i <= last
        invariant
            last == s@.len() - p@.len(),
            i <= last + 1,
            forall|j: int| 0 <= j < i ==> !occurs_at(p@, s@, j),
        decreases last + 1 - i,
    {
        if occurs_here(p, s, i) {
            return Some(i);
        }
        if i == last {
            assert(!within(s@, p@));
            return None;
        }
        i = i + 1;
    }
    None
}

/// Whether `p` stands anywhere in `s`.
pub fn contains(s: &str, p: &str) -> (r: bool)
    ensures
        r == within(s@, p@),
{
    let cs = chars_of(s);
    let ps = chars_of(p);
    find(&cs, &ps).is_some()
}

/// Whether `c` is one of the characters of `s`.
pub fn has_char(s: &str, c: char) -> (r: bool)
    ensures
        r == s@.contains(c),
{
    let cs = chars_of(s);
    among(c, &cs)
}

/// Whether `c` is one of `set`.
pub fn among(c: char, set: &Vec<char>) -> (r: bool)
    ensures
        r == set@.contains(c),
{
    let mut i: usize = 0;
    while i < set.len()
        invariant
            i <= set@.len(),
            forall|k: int| 0 <= k < i ==> set@[k] != c,
        decreases set@.len() - i,
    {
        if set[i] == c {
            return true;
        }
        i = i + 1;
    }
    false
}

/// The pieces of `s` between the characters of `seps`.
pub fn split_on(s: &str, seps: &str) -> (r: Vec<String>)
    ensures
        views(r@) == split(s@, seps@),
{
    let cs = chars_of(s);
    let marks = chars_of(seps);
    let mut done: Vec<String> = Vec::new();
    let mut piece = String::new();
    let mut i: usize = 0;
    assert(views(done@).push(piece@) =~= split(cs@.take(0), seps@));
    while i < cs.len()
        invariant
            i <= cs@.len(),
            marks@ == seps@,
            views(done@).push(piece@) == split(cs@.take(i as int), seps@),
        decreases cs@.len() - i,
    {
        let c = cs[i];
        let ghost before = views(done@).push(piece@);
        proof {
            lemma_take_step(cs@, i as int);
            assert(before.last() == piece@);
            assert(before.drop_last() =~= views(done@));
        }
        if among(c, &marks) {
            done.push(piece);
            piece = String::new();
            assert(views(done@) =~= before);
            assert(views(done@).push(piece@) =~= before.push(Seq::<char>::empty()));
        } else {
            piece.push(c);
        }
        i = i + 1;
    }
    proof {
        lemma_take_all(cs@);
    }
    let ghost all = views(done@).push(piece@);
    done.push(piece);
    assert(views(done@) =~= all);
    done
}

/// The strings of the list that are not empty.
pub fn without_empty(parts: &Vec<String>) -> (r: Vec<String>)
    ensures
        views(r@) == filled(views(parts@)),
{
    let mut out: Vec<String> = Vec::new();
    let mut i: usize = 0;
    assert(views(out@) =~= filled(views(parts@).take(0)));
    while i < parts.len()
        invariant
            i <= parts@.len(),
            views(out@) == filled(views(parts@).take(i as int)),
        decreases parts@.len() - i,
    {
        proof {
            lemma_take_step(views(parts@), i as int);
        }
        if !parts[i].as_str().is_empty() {
            let ghost before = views(out@);
            out.push(parts[i].clone());
            assert(views(out@) =~= before.push(parts@[i as int]@));
        }
        i = i + 1;
    }
    proof {
        lemma_take_all(views(parts@));
    }
    out
}

/// The strings of the list with `sep` between each two of them.
pub fn join_with(parts: &Vec<String>, sep: &str) -> (r: String)
    ensures
        r@ == join(views(parts@), sep@),
{
    let mut out = String::new();
    let mut i: usize = 0;
    while i < parts.len()
        invariant
            i <= parts@.len(),
            out@ == join(views(parts@).take(i as int), sep@),
        decreases parts@.len() - i,
    {
        proof {
            lemma_take_step(views(parts@), i as int);
        }
        if i > 0 {
            out.append(sep);
        }
        let ghost before = out@;
        out.append(parts[i].as_str());
        proof {
            if i == 0 {
                assert(before + parts@[0]@ =~= parts@[0]@);
                assert(views(parts@).take(1)[0] == parts@[0]@);
            }
        }
        i = i + 1;
    }
    proof {
        lemma_take_all(views(parts@));
    }
    out
}

/// `s` without the white space at either end.
pub fn trimmed(s: &str) -> (r: String)
    ensures
        r@ == trim(s@),
{
    let cs = chars_of(s);
    let mut from: usize = 0;
    assert(cs@.skip(0) =~= cs@);
    while from < cs.len() && cs[from].is_whitespace()
        invariant
            from <= cs@.len(),
            trim_start(cs@) == trim_start(cs@.skip(from as int)),
        decreases cs@.len() - from,
    {
        assert(cs@.skip(from as int).skip(1) =~= cs@.skip(from + 1));
        from = from + 1;
    }
    let ghost head = cs@.skip(from as int);
    assert(trim_start(cs@) == head);
    let mut to: usize = cs.len();
    assert(cs@.subrange(from as int, to as int) =~= head);
    while to > from && cs[to - 1].is_whitespace()
        invariant
            from <= to <= cs@.len(),
            head == cs@.skip(from as int),
            trim_end(head) == trim_end(cs@.subrange(from as int, to as int)),
        decreases to,
    {
        assert(cs@.subrange(from as int, to as int).drop_last() =~= cs@.subrange(
            from as int,
            to - 1,
        ));
        to = to - 1;
    }
    string_of(&cs, from, to)
}

/// `s` without the leading characters equal to `c`.
pub fn without_leading(s: &str, c: char) -> (r: String)
    ensures
        r@ == drop_leading(s@, c),
{
    let cs = chars_of(s);
    let mut from: usize = 0;
    assert(cs@.skip(0) =~= cs@);
    while from < cs.len() && cs[from] == c
        invariant
            from <= cs@.len(),
            drop_leading(cs@, c) == drop_leading(cs@.skip(from as int), c),
        decreases cs@.len() - from,
    {
        assert(cs@.skip(from as int).skip(1) =~= cs@.skip(from + 1));
        from = from + 1;
    }
    assert(cs@.subrange(from as int, cs@.len() as int) =~= cs@.skip(from as int));
    string_of(&cs, from, cs.len())
}

/// `s` without the trailing characters equal to `c`.
pub fn without_trailing(s: &str, c: char) -> (r: String)
    ensures
        r@ == drop_trailing(s@, c),
{
    let cs = chars_of(s);
    let mut to: usize = cs.len();
    assert(cs@.take(to as int) =~= cs@);
    while to > 0 && cs[to - 1] == c
        invariant
            to <= cs@.len(),
            drop_trailing(cs@, c) == drop_trailing(cs@.take(to as int), c),
        decreases to,
    {
        assert(cs@.take(to as int).drop_last() =~= cs@.take(to - 1));
        to = to - 1;
    }
    assert(cs@.subrange(0, to as int) =~= cs@.take(to as int));
    string_of(&cs, 0, to)
}

/// `s` with every `from` replaced by `to`.
pub fn replace_char(s: &str, from: char, to: char) -> (r: String)
    ensures
        r@ == replaced(s@, from, to),
{
    let cs = chars_of(s);
    let mut out = String::new();
    let mut i: usize = 0;
    while i < cs.len()
        invariant
            i <= cs@.len(),
            out@ == replaced(cs@.take(i as int), from, to),
        decreases cs@.len() - i,
    {
        proof {
            lemma_take_step(cs@, i as int);
        }
        out.push(if cs[i] == from { to } else { cs[i] });
        assert(out@ =~= replaced(cs@.take(i + 1), from, to));
        i = i + 1;
    }
    proof {
        lemma_take_all(cs@);
    }
    out
}

/// `s` with its ASCII capitals in lower case.
pub fn lowered(s: &str) -> (r: String)
    ensures
        r@ == lower(s@),
{
    let cs = chars_of(s);
    let mut out = String::new();
    let mut i: usize = 0;
    while i < cs.len()
        invariant
            i <= cs@.len(),
            out@ == lower(cs@.take(i as int)),
        decreases cs@.len() - i,
    {
        proof {
            lemma_take_step(cs@, i as int);
        }
        let c = cs[i];
        if 'A' <= c && c <= 'Z' {
            out.push(((c as u8) + 32u8) as char);
        } else {
            out.push(c);
        }
        assert(out@ =~= lower(cs@.take(i + 1)));
        i = i + 1;
    }
    proof {
        lemma_take_all(cs@);
    }
    out
}

/// The lines of `s`.
pub fn lines_of(s: &str) -> (r: Vec<String>)
    ensures
        views(r@) == lines(s@),
{
    let parts = split_on(s, "\n");
    proof {
        reveal_strlit("\n");
        assert("\n"@ =~= seq!['\n']);
        lemma_split_nonempty(s@, seq!['\n']);
    }
    let ghost pieces = split(s@, seq!['\n']);
    let n: usize = parts.len();
    assert(pieces.len() == n);
    let keep: usize = if parts[n - 1].as_str().is_empty() {
        n - 1
    } else {
        n
    };
    let mut out: Vec<String> = Vec::new();
    let mut i: usize = 0;
    while i < keep
        invariant
            i <= keep <= n,
            n == parts@.len(),
            keep == lines(s@).len(),
            pieces == split(s@, seq!['\n']),
            pieces == views(parts@),
            keep == n || keep == n - 1,
            out@.len() == i,
            forall|k: int| 0 <= k < i ==> #[trigger] out@[k]@ == lines(s@)[k],
        decreases keep - i,
    {
        let cs = chars_of(parts[i].as_str());
        assert(cs@ == pieces[i as int]);
        if i + 1 < n && cs.len() > 0 && cs[cs.len() - 1] == '\r' {
            assert(cs@.subrange(0, cs@.len() - 1) =~= cs@.drop_last());
            out.push(string_of(&cs, 0, cs.len() - 1));
        } else {
            out.push(parts[i].clone());
        }
        i = i + 1;
    }
    assert(views(out@) =~= lines(s@));
    out
}

/// The decimal form of a number.
pub fn decimal_of(n: u64) -> (r: String)
    ensures
        r@ == decimal(n as nat),
    decreases n,
{
    let d: u8 = (n % 10) as u8;
    let c: char = (48u8 + d) as char;
    if n < 10 {
        let mut out = String::new();
        out.push(c);
        assert(out@ =~= seq![c]);
        out
    } else {
        let mut out = decimal_of(n / 10);
        out.push(c);
        out
    }
}

/// The decimal form of a size.
pub fn count_text(n: usize) -> (r: String)
    ensures
        r@ == decimal(n as nat),
{
    decimal_of(n as u64)
}

/// The digits of a longer run stand for at least as much as those of a prefix.
proof fn lemma_digits_grow(s: Seq<char>, k: int)
    requires
        all_digits(s),
        0 <= k <= s.len(),
    ensures
        digits_value(s.take(k)) <= digits_value(s),
    decreases s.len() - k,
{
    if k < s.len() {
        lemma_take_step(s, k);
        lemma_digits_grow(s, k + 1);
    } else {
        lemma_take_all(s);
    }
}

/// The number that `s` writes in decimal, where it is at most `max`.
pub fn number_of(s: &str, max: u64) -> (r: Option<u64>)
    ensures
        match r {
            Some(n) => number(s@, max as nat) == Some(n as nat),
            None => number(s@, max as nat) is None,
        },
{
    let cs = chars_of(s);
    let from: usize = if cs.len() > 0 && cs[0] == '+' {
        1
    } else {
        0
    };
    let ghost d = unsigned_digits(s@);
    assert(d =~= cs@.skip(from as int));
    if from == cs.len() {
        return None;
    }
    let mut value: u64 = 0;
    let mut i: usize = from;
    assert(d.take(0) =~= Seq::<char>::empty());
    while i < cs.len()
        invariant
            from <= i <= cs@.len(),
            d == unsigned_digits(s@),
            d == cs@.skip(from as int),
            value == digits_value(d.take(i - from)),
            value <= max,
            forall|k: int| 0 <= k < i - from ==> '0' <= #[trigger] d[k] <= '9',
        decreases cs@.len() - i,
    {
        let c = cs[i];
        proof {
            lemma_take_step(d, i - from);
            assert(d[i - from] == c);
        }
        if !('0' <= c && c <= '9') {
            return None;
        }
        let step: u64 = ((c as u8) - 48u8) as u64;
        if value > max / 10 || max - value * 10 < step {
            proof {
                assert(digits_value(d.take(i - from + 1)) == 10 * value + step);
                if all_digits(d) {
                    lemma_digits_grow(d, i - from + 1);
                }
            }
            return None;
        }
        value = value * 10 + step;
        i = i + 1;
    }
    proof {
        lemma_take_all(d);
    }
    Some(value)
}

/// The final component of a `/`-separated path.
pub fn final_component_of(path: &str) -> (r: Option<String>)
    ensures
        match r {
            Some(b) => final_component(path@) == Some(b@),
            None => final_component(path@) is None,
        },
{
    let parts = split_on(path, "/");
    proof {
        reveal_strlit("/");
        assert("/"@ =~= seq!['/']);
        reveal_strlit(".");
        assert("."@ =~= seq!['.']);
        reveal_strlit("..");
        assert(".."@ =~= seq!['.', '.']);
    }
    let ghost all = views(parts@);
    let mut n: usize = parts.len();
    proof {
        lemma_take_all(all);
    }
    while n > 0 && (parts[n - 1].as_str().is_empty() || same(parts[n - 1].as_str(), "."))
        invariant
            n <= parts@.len(),
            all == views(parts@),
            "."@ == seq!['.'],
            path_core(all) == path_core(all.take(n as int)),
        decreases n,
    {
        assert(all.take(n as int).drop_last() =~= all.take(n - 1));
        assert(all.take(n as int).last() == parts@[n - 1]@);
        n = n - 1;
    }
    if n == 0 {
        return None;
    }
    assert(all.take(n as int).last() == parts@[n - 1]@);
    assert(path_core(all) == all.take(n as int));
    if same(parts[n - 1].as_str(), "..") {
        None
    } else {
        Some(parts[n - 1].clone())
    }
}

/// The final component of a path, or the path itself where it has none.
pub fn base_name_of(path: &str) -> (r: String)
    ensures
        r@ == base_name(path@),
{
    match final_component_of(path) {
        Some(b) => b,
        None => path.to_owned(),
    }
}

/// The index of the last `c`.
pub fn last_index_of(cs: &Vec<char>, c: char) -> (r: Option<usize>)
    ensures
        match r {
            Some(i) => last_index(cs@, c) == Some(i as int) && i < cs@.len(),
            None => last_index(cs@, c) is None,
        },
{
    let mut n: usize = cs.len();
    proof {
        lemma_take_all(cs@);
    }
    while n > 0
        invariant
            n <= cs@.len(),
            last_index(cs@, c) == last_index(cs@.take(n as int), c),
        decreases n,
    {
        assert(cs@.take(n as int).drop_last() =~= cs@.take(n - 1));
        if cs[n - 1] == c {
            return Some(n - 1);
        }
        n = n - 1;
    }
    None
}

/// The final component of a path up to its last dot.
pub fn stem_name_of(path: &str) -> (r: String)
    ensures
        r@ == stem_name(path@),
{
    match final_component_of(path) {
        None => path.to_owned(),
        Some(b) => {
            let cs = chars_of(b.as_str());
            match last_index_of(&cs, '.') {
                Some(i) => {
                    if i > 0 {
                        assert(cs@.subrange(0, i as int) =~= cs@.take(i as int));
                        string_of(&cs, 0, i)
                    } else {
                        b
                    }
                },
                None => b,
            }
        },
    }
}

/// The index of the first `c`.
pub fn first_index_of(cs: &Vec<char>, c: char) -> (r: Option<usize>)
    ensures
        match r {
            Some(i) => first_index(cs@, c) == Some(i as int) && i < cs@.len(),
            None => first_index(cs@, c) is None,
        },
{
    let mut n: usize = 0;
    let total: usize = cs.len();
    while n < total
        invariant
            n <= total,
            total == cs@.len(),
            first_index(cs@.take(n as int), c) is None,
        decreases total - n,
    {
        proof {
            lemma_take_step(cs@, n as int);
        }
        if cs[n] == c {
            proof {
                lemma_first_stays(cs@, c, n + 1);
            }
            return Some(n);
        }
        n = n + 1;
    }
    proof {
        lemma_take_all(cs@);
    }
    None
}

/// The first `c` of a prefix is the first of all.
proof fn lemma_first_stays(s: Seq<char>, c: char, n: int)
    requires
        0 <= n <= s.len(),
        first_index(s.take(n), c) is Some,
    ensures
        first_index(s, c) == first_index(s.take(n), c),
    decreases s.len() - n,
{
    if n < s.len() {
        lemma_take_step(s, n);
        lemma_first_stays(s, c, n + 1);
    } else {
        lemma_take_all(s);
    }
}

/// `s` with its first `c` replaced by `with`.
pub fn replace_first(s: &str, c: char, with: &str) -> (r: String)
    ensures
        r@ == first_replaced(s@, c, with@),
{
    let cs = chars_of(s);
    match first_index_of(&cs, c) {
        Some(i) => {
            let n: usize = cs.len();
            assert(cs@.subrange(0, i as int) =~= cs@.take(i as int));
            assert(cs@.subrange(i + 1, n as int) =~= cs@.skip(i + 1));
            let head = string_of(&cs, 0, i);
            let tail = string_of(&cs, i + 1, n);
            cat3(head.as_str(), with, tail.as_str())
        },
        None => s.to_owned(),
    }
}

/// What stands after the last dot of a dotted name.
pub fn leaf_of(s: &str) -> (r: String)
    ensures
        r@ == leaf_name(s@),
{
    let cs = chars_of(s);
    match last_index_of(&cs, '.') {
        Some(i) => {
            assert(cs@.subrange(i + 1, cs@.len() as int) =~= cs@.skip(i + 1));
            let n: usize = cs.len();
            string_of(&cs, i + 1, n)
        },
        None => s.to_owned(),
    }
}

/// What stands before the last dot of a dotted name.
pub fn parent_of(s: &str) -> (r: Option<String>)
    ensures
        match r {
            Some(p) => parent_name(s@) == Some(p@),
            None => parent_name(s@) is None,
        },
{
    let cs = chars_of(s);
    match last_index_of(&cs, '.') {
        Some(i) => {
            assert(cs@.subrange(0, i as int) =~= cs@.take(i as int));
            Some(string_of(&cs, 0, i))
        },
        None => None,
    }
}

/// A word for one thing, or for a number of them.
pub open spec fn plural_of(n: nat, word: Seq<char>) -> Seq<char> {
    if n == 1 {
        word
    } else {
        word + "s"@
    }
}

/// A word for one thing, or for a number of them.
pub fn plural(n: usize, word: &str) -> (r: String)
    ensures
        r@ == plural_of(n as nat, word@),
{
    if n == 1 {
        word.to_owned()
    } else {
        cat(word, "s")
    }
}

/// A copy of a list of strings.
pub fn copy_strings(v: &Vec<String>) -> (r: Vec<String>)
    ensures
        r@ == v@,
{
    let mut out: Vec<String> = Vec::new();
    let mut i: usize = 0;
    while i < v.len()
        invariant
            i <= v@.len(),
            out@ == v@.take(i as int),
        decreases v@.len() - i,
    {
        proof {
            lemma_take_step(v@, i as int);
        }
        out.push(v[i].clone());
        i = i + 1;
    }
    proof {
        lemma_take_all(v@);
    }
    out
}

/// Whether `s` is one of the list.
pub fn listed(s: &str, list: &Vec<String>) -> (r: bool)
    ensures
        r == views(list@).contains(s@),
{
    let mut i: usize = 0;
    while i < list.len()
        invariant
            i <= list@.len(),
            forall|k: int| 0 <= k < i ==> views(list@)[k] != s@,
        decreases list@.len() - i,
    {
        if same(s, list[i].as_str()) {
            assert(views(list@)[i as int] == s@);
            return true;
        }
        i = i + 1;
    }
    false
}

} // verus!
