//! A table from ordered keys to values, kept in the order of its keys.
use crate::text::{same, text_before};
use crate::text;
use vstd::prelude::*;

verus! {

/// A key: a value with a strict total order on what it stands for.
pub trait Key: View + Sized {
    spec fn less(a: Self::V, b: Self::V) -> bool;

    proof fn less_is_a_total_order(a: Self::V, b: Self::V, c: Self::V)
        ensures
            !Self::less(a, a),
            Self::less(a, b) && Self::less(b, c) ==> Self::less(a, c),
            Self::less(a, b) || Self::less(b, a) || a == b,
    ;

    fn before(&self, other: &Self) -> (r: bool)
        ensures
            r == Self::less(self@, other@),
    ;

    fn equals(&self, other: &Self) -> (r: bool)
        ensures
            r == (self@ == other@),
    ;

    fn copy(&self) -> (r: Self)
        ensures
            r == *self,
    ;
}

impl Key for String {
    open spec fn less(a: Seq<char>, b: Seq<char>) -> bool {
        text::text_lt(a, b)
    }

    proof fn less_is_a_total_order(a: Seq<char>, b: Seq<char>, c: Seq<char>) {
        text::lemma_text_lt_irreflexive(a);
        text::lemma_text_lt_total(a, b);
        if text::text_lt(a, b) && text::text_lt(b, c) {
            text::lemma_text_lt_transitive(a, b, c);
        }
        assert(Self::less(a, a) == text::text_lt(a, a));
        assert(Self::less(a, b) == text::text_lt(a, b));
        assert(Self::less(b, c) == text::text_lt(b, c));
        assert(Self::less(a, c) == text::text_lt(a, c));
    }

    fn before(&self, other: &Self) -> (r: bool) {
        text_before(self.as_str(), other.as_str())
    }

    fn equals(&self, other: &Self) -> (r: bool) {
        same(self.as_str(), other.as_str())
    }

    fn copy(&self) -> (r: Self) {
        self.clone()
    }
}

/// A place in a file: its path and a byte offset, ordered by path, then offset.
impl Key for (String, u32) {
    open spec fn less(a: (Seq<char>, u32), b: (Seq<char>, u32)) -> bool {
        text::text_lt(a.0, b.0) || (a.0 == b.0 && a.1 < b.1)
    }

    proof fn less_is_a_total_order(a: (Seq<char>, u32), b: (Seq<char>, u32), c: (Seq<char>, u32)) {
        text::lemma_text_lt_irreflexive(a.0);
        text::lemma_text_lt_total(a.0, b.0);
        if text::text_lt(a.0, b.0) && text::text_lt(b.0, c.0) {
            text::lemma_text_lt_transitive(a.0, b.0, c.0);
        }
    }

    fn before(&self, other: &Self) -> (r: bool) {
        text_before(self.0.as_str(), other.0.as_str()) || (same(self.0.as_str(), other.0.as_str())
            && self.1 < other.1)
    }

    fn equals(&self, other: &Self) -> (r: bool) {
        self.1 == other.1 && same(self.0.as_str(), other.0.as_str())
    }

    fn copy(&self) -> (r: Self) {
        (self.0.clone(), self.1)
    }
}

/// A pair of texts, ordered by the first, then by the second.
impl Key for (String, String) {
    open spec fn less(a: (Seq<char>, Seq<char>), b: (Seq<char>, Seq<char>)) -> bool {
        text::text_lt(a.0, b.0) || (a.0 == b.0 && text::text_lt(a.1, b.1))
    }

    proof fn less_is_a_total_order(
        a: (Seq<char>, Seq<char>),
        b: (Seq<char>, Seq<char>),
        c: (Seq<char>, Seq<char>),
    ) {
        text::lemma_text_lt_irreflexive(a.0);
        text::lemma_text_lt_irreflexive(a.1);
        text::lemma_text_lt_total(a.0, b.0);
        text::lemma_text_lt_total(a.1, b.1);
        if text::text_lt(a.0, b.0) && text::text_lt(b.0, c.0) {
            text::lemma_text_lt_transitive(a.0, b.0, c.0);
        }
        if text::text_lt(a.1, b.1) && text::text_lt(b.1, c.1) {
            text::lemma_text_lt_transitive(a.1, b.1, c.1);
        }
        assert(Self::less(a, b) || Self::less(b, a) || a == b);
    }

    fn before(&self, other: &Self) -> (r: bool) {
        text_before(self.0.as_str(), other.0.as_str()) || (same(self.0.as_str(), other.0.as_str())
            && text_before(self.1.as_str(), other.1.as_str()))
    }

    fn equals(&self, other: &Self) -> (r: bool) {
        same(self.0.as_str(), other.0.as_str()) && same(self.1.as_str(), other.1.as_str())
    }

    fn copy(&self) -> (r: Self) {
        (self.0.clone(), self.1.clone())
    }
}

/// Whether each key stands before all that follow it.
pub open spec fn ascending<K: Key>(s: Seq<K::V>) -> bool {
    forall|i: int, j: int| 0 <= i < j < s.len() ==> K::less(#[trigger] s[i], #[trigger] s[j])
}

/// In an ascending list no text occurs twice.
pub proof fn lemma_ascending_distinct<K: Key>(s: Seq<K::V>)
    requires
        ascending::<K>(s),
    ensures
        s.no_duplicates(),
{
    assert forall|i: int, j: int| 0 <= i < s.len() && 0 <= j < s.len() && i != j implies s[i]
        != s[j] by {
        K::less_is_a_total_order(s[i], s[j], s[i]);
        K::less_is_a_total_order(s[j], s[i], s[j]);
    }
}

/// Two ascending lists of the same texts are the same list.
pub proof fn lemma_ascending_unique<K: Key>(a: Seq<K::V>, b: Seq<K::V>)
    requires
        ascending::<K>(a),
        ascending::<K>(b),
        forall|x: K::V| a.contains(x) <==> b.contains(x),
    ensures
        a == b,
    decreases a.len(),
{
    if a.len() == 0 {
        if b.len() > 0 {
            assert(b.contains(b[0]));
        }
        assert(a =~= b);
    } else if b.len() == 0 {
        assert(a.contains(a[0]));
    } else {
        let x = a.last();
        let y = b.last();
        assert(a.contains(x));
        assert(b.contains(y));
        let i = choose|i: int| 0 <= i < b.len() && b[i] == x;
        let j = choose|j: int| 0 <= j < a.len() && a[j] == y;
        if i < b.len() - 1 && j < a.len() - 1 {
            K::less_is_a_total_order(x, y, x);
        }
        assert(x == y);
        let p = a.drop_last();
        let q = b.drop_last();
        lemma_ascending_distinct::<K>(a);
        lemma_ascending_distinct::<K>(b);
        assert forall|z: K::V| p.contains(z) <==> q.contains(z) by {
            if p.contains(z) {
                let k = choose|k: int| 0 <= k < p.len() && p[k] == z;
                assert(a[k] == z);
                assert(b.contains(z));
                let m = choose|m: int| 0 <= m < b.len() && b[m] == z;
                assert(a[k] != a[a.len() - 1]);
                assert(q[m] == z);
            }
            if q.contains(z) {
                let k = choose|k: int| 0 <= k < q.len() && q[k] == z;
                assert(b[k] == z);
                assert(a.contains(z));
                let m = choose|m: int| 0 <= m < a.len() && a[m] == z;
                assert(b[k] != b[b.len() - 1]);
                assert(p[m] == z);
            }
        }
        lemma_ascending_unique::<K>(p, q);
        assert(a =~= p.push(x));
        assert(b =~= q.push(y));
    }
}

/// The texts of a set, ascending.
pub open spec fn in_turn(s: Set<Seq<char>>) -> Seq<Seq<char>> {
    choose|k: Seq<Seq<char>>| #[trigger] ascending::<String>(k) && k.to_set() == s
}

/// Texts that ascend are their set's texts, ascending.
pub proof fn lemma_in_turn(k: Seq<Seq<char>>)
    requires
        ascending::<String>(k),
    ensures
        in_turn(k.to_set()) == k,
{
    let c = in_turn(k.to_set());
    assert(ascending::<String>(c) && c.to_set() == k.to_set());
    assert forall|x: Seq<char>| c.contains(x) <==> k.contains(x) by {
        assert(c.to_set().contains(x) <==> k.to_set().contains(x));
    }
    lemma_ascending_unique::<String>(c, k);
}

/// A table whose rows stand in the order of their keys, each key once.
#[verifier::reject_recursive_types(K)]
pub struct Table<K: Key, V> {
    rows: Vec<(K, V)>,
}

impl<K: Key, V> Table<K, V> {
    #[verifier::type_invariant]
    spec fn ordered(self) -> bool {
        ascending::<K>(self.keys())
    }

    /// The keys, ascending.
    pub closed spec fn keys(self) -> Seq<K::V> {
        Seq::new(self.rows@.len(), |i: int| self.rows@[i].0@)
    }

    /// The values, in the order of their keys.
    pub closed spec fn values(self) -> Seq<V> {
        Seq::new(self.rows@.len(), |i: int| self.rows@[i].1)
    }

    /// What the table maps each key to.
    pub open spec fn map(self) -> Map<K::V, V> {
        Map::new(
            |k: K::V| self.keys().contains(k),
            |k: K::V| self.values()[self.keys().index_of(k)],
        )
    }

    /// There are as many keys as values.
    pub proof fn lemma_same_len(self)
        ensures
            self.keys().len() == self.values().len(),
    {
    }

    /// Each row of a table in order maps its key to its value.
    pub proof fn lemma_rows(self)
        requires
            ascending::<K>(self.keys()),
        ensures
            self.keys().len() == self.values().len(),
            forall|i: int|
                0 <= i < self.keys().len() ==> self.map().contains_key(#[trigger] self.keys()[i])
                    && self.map()[self.keys()[i]] == self.values()[i],
            forall|k: K::V| #[trigger] self.map().contains_key(k) <==> self.keys().contains(k),
    {
        let keys = self.keys();
        lemma_ascending_distinct::<K>(keys);
        assert forall|i: int| 0 <= i < keys.len() implies self.map().contains_key(
            #[trigger] keys[i],
        ) && self.map()[keys[i]] == self.values()[i] by {
            assert(keys.contains(keys[i]));
            assert(keys.index_of(keys[i]) == i);
        }
    }

    pub fn new() -> (r: Self)
        ensures
            r.keys() == Seq::<K::V>::empty(),
            r.values() == Seq::<V>::empty(),
            r.map() == Map::<K::V, V>::empty(),
    {
        let r = Table { rows: Vec::new() };
        assert(r.keys() =~= Seq::<K::V>::empty());
        assert(r.values() =~= Seq::<V>::empty());
        assert(r.map() =~= Map::<K::V, V>::empty());
        r
    }

    pub fn len(&self) -> (r: usize)
        ensures
            r == self.keys().len(),
            r == self.values().len(),
            ascending::<K>(self.keys()),
    {
        proof {
            use_type_invariant(self);
        }
        self.rows.len()
    }

    /// The key of row `i`.
    pub fn key(&self, i: usize) -> (r: &K)
        requires
            i < self.keys().len(),
        ensures
            r@ == self.keys()[i as int],
    {
        &self.rows[i].0
    }

    /// The value of row `i`.
    pub fn value(&self, i: usize) -> (r: &V)
        requires
            i < self.keys().len(),
        ensures
            *r == self.values()[i as int],
    {
        &self.rows[i].1
    }

    /// The row of `key`, or the row it would take.
    pub fn search(&self, key: &K) -> (r: Result<usize, usize>)
        ensures
            ascending::<K>(self.keys()),
            self.keys().len() == self.values().len(),
            match r {
                Ok(i) => {
                    &&& i < self.keys().len()
                    &&& self.keys()[i as int] == key@
                },
                Err(i) => {
                    &&& i <= self.keys().len()
                    &&& forall|k: int| 0 <= k < i ==> K::less(#[trigger] self.keys()[k], key@)
                    &&& forall|k: int|
                        i <= k < self.keys().len() ==> K::less(key@, #[trigger] self.keys()[k])
                    &&& !self.keys().contains(key@)
                },
            },
    {
        proof {
            use_type_invariant(self);
        }
        let mut lo: usize = 0;
        let mut hi: usize = self.rows.len();
        while lo < hi
            invariant
                lo <= hi <= self.keys().len(),
                self.keys().len() == self.rows@.len(),
                ascending::<K>(self.keys()),
                forall|k: int| 0 <= k < lo ==> K::less(#[trigger] self.keys()[k], key@),
                forall|k: int|
                    hi <= k < self.keys().len() ==> K::less(key@, #[trigger] self.keys()[k]),
            decreases hi - lo,
        {
            let mid: usize = lo + (hi - lo) / 2;
            let here = &self.rows[mid].0;
            assert(here@ == self.keys()[mid as int]);
            if here.before(key) {
                assert forall|k: int| 0 <= k < mid + 1 implies K::less(
                    #[trigger] self.keys()[k],
                    key@,
                ) by {
                    if k < mid {
                        K::less_is_a_total_order(self.keys()[k], self.keys()[mid as int], key@);
                    }
                }
                lo = mid + 1;
            } else if here.equals(key) {
                return Ok(mid);
            } else {
                proof {
                    K::less_is_a_total_order(here@, key@, here@);
                }
                assert forall|k: int| mid <= k < self.keys().len() implies K::less(
                    key@,
                    #[trigger] self.keys()[k],
                ) by {
                    if k > mid {
                        K::less_is_a_total_order(key@, self.keys()[mid as int], self.keys()[k]);
                    }
                }
                hi = mid;
            }
        }
        proof {
            K::less_is_a_total_order(key@, key@, key@);
        }
        Err(lo)
    }

    /// Whether the table has `key`.
    pub fn contains_key(&self, key: &K) -> (r: bool)
        ensures
            r == self.keys().contains(key@),
            r == self.map().contains_key(key@),
    {
        match self.search(key) {
            Ok(i) => {
                assert(self.keys()[i as int] == key@);
                true
            },
            Err(_) => false,
        }
    }

    /// The value of `key`.
    pub fn get(&self, key: &K) -> (r: Option<&V>)
        ensures
            match r {
                Some(v) => self.map().contains_key(key@) && *v == self.map()[key@],
                None => !self.map().contains_key(key@),
            },
    {
        match self.search(key) {
            Ok(i) => {
                proof {
                    self.lemma_rows();
                    assert(self.map().contains_key(self.keys()[i as int]));
                    assert(self.values()[i as int] == self.rows@[i as int].1);
                }
                Some(&self.rows[i].1)
            },
            Err(_) => None,
        }
    }

    /// Maps `key` to `value`, in place of what it was mapped to before.
    pub fn insert(&mut self, key: K, value: V)
        ensures
            final(self).map() == old(self).map().insert(key@, value),
            ascending::<K>(final(self).keys()),
            forall|k: K::V| #[trigger]
                final(self).keys().contains(k) <==> k == key@ || old(self).keys().contains(k),
    {
        let found = self.search(&key);
        let ghost was = *self;
        let ghost keys = self.keys();
        let ghost vals = self.values();
        let mut rows: Vec<(K, V)> = Vec::new();
        std::mem::swap(&mut rows, &mut self.rows);
        match found {
            Ok(i) => {
                rows.set(i, (key, value));
                let ghost now = Table { rows };
                proof {
                    assert(now.keys() =~= keys);
                    assert(now.values() =~= vals.update(i as int, value));
                    was.lemma_rows();
                    now.lemma_rows();
                    lemma_ascending_distinct::<K>(keys);
                    assert(now.map() =~= was.map().insert(key@, value));
                }
            },
            Err(i) => {
                rows.insert(i, (key, value));
                let ghost now = Table { rows };
                proof {
                    assert(now.keys() =~= keys.insert(i as int, key@));
                    assert(now.values() =~= vals.insert(i as int, value));
                    assert(ascending::<K>(now.keys()));
                    was.lemma_rows();
                    now.lemma_rows();
                    assert forall|k: K::V| #[trigger] now.keys().contains(k) <==> k == key@
                        || keys.contains(k) by {
                        if keys.contains(k) {
                            let j = choose|j: int| 0 <= j < keys.len() && keys[j] == k;
                            let m = if j < i { j } else { j + 1 };
                            assert(now.keys()[m] == k);
                        }
                        if k == key@ {
                            assert(now.keys()[i as int] == k);
                        }
                        if now.keys().contains(k) {
                            let j = choose|j: int| 0 <= j < now.keys().len() && now.keys()[j] == k;
                            if j != i {
                                let m = if j < i { j } else { j - 1 };
                                assert(keys[m] == k);
                            }
                        }
                    }
                    assert forall|k: K::V| was.map().contains_key(k) implies now.map()[k]
                        == was.map()[k] by {
                        let j = choose|j: int| 0 <= j < keys.len() && keys[j] == k;
                        let m = if j < i { j } else { j + 1 };
                        assert(now.keys()[m] == k);
                        assert(now.values()[m] == vals[j]);
                    }
                    assert(now.keys()[i as int] == key@);
                    assert(now.values()[i as int] == value);
                    assert(now.map() =~= was.map().insert(key@, value));
                }
            },
        }
        self.rows = rows;
    }
}

/// Whether `m` is the one key that ends with `suffix`.
pub open spec fn sole(keys: Seq<Seq<char>>, suffix: Seq<char>, m: Seq<char>) -> bool {
    &&& keys.contains(m)
    &&& text::ends(m, suffix)
    &&& forall|o: Seq<char>| #[trigger] keys.contains(o) && text::ends(o, suffix) ==> o == m
}

impl<V> Table<String, V> {
    /// The row of the one key that ends with `suffix`.
    pub fn sole_match(&self, suffix: &str) -> (r: Option<usize>)
        ensures
            ascending::<String>(self.keys()),
            self.keys().len() == self.values().len(),
            match r {
                Some(i) => i < self.keys().len() && sole(
                    self.keys(),
                    suffix@,
                    self.keys()[i as int],
                ),
                None => forall|m: Seq<char>| !#[trigger] sole(self.keys(), suffix@, m),
            },
    {
        let ghost keys = self.keys();
        let n: usize = self.len();
        let mut found: Option<usize> = None;
        let mut i: usize = 0;
        while i < n
            invariant
                n == keys.len(),
                keys == self.keys(),
                keys.len() == self.values().len(),
                i <= n,
                ascending::<String>(keys),
                match found {
                    Some(j) => j < i && text::ends(keys[j as int], suffix@) && forall|k: int|
                        0 <= k < i && k != j ==> !text::ends(#[trigger] keys[k], suffix@),
                    None => forall|k: int|
                        0 <= k < i ==> !text::ends(#[trigger] keys[k], suffix@),
                },
            decreases n - i,
        {
            if text::ends_with(self.key(i).as_str(), suffix) {
                match found {
                    Some(j) => {
                        proof {
                            let a = keys[j as int];
                            let b = keys[i as int];
                            String::less_is_a_total_order(a, b, a);
                            assert(keys.contains(a));
                            assert(keys.contains(b));
                            assert(a != b);
                            assert forall|m: Seq<char>| !#[trigger] sole(keys, suffix@, m) by {
                                assert(keys.contains(a));
                                assert(keys.contains(b));
                            }
                        }
                        return None;
                    },
                    None => {
                        found = Some(i);
                    },
                }
            }
            i = i + 1;
        }
        proof {
            match found {
                Some(j) => {
                    let a = keys[j as int];
                    assert(keys.contains(a));
                    assert forall|o: Seq<char>| #[trigger]
                        keys.contains(o) && text::ends(o, suffix@) implies o == a by {
                        let k = choose|k: int| 0 <= k < keys.len() && keys[k] == o;
                    }
                },
                None => {
                    assert forall|m: Seq<char>| !#[trigger] sole(keys, suffix@, m) by {
                        if sole(keys, suffix@, m) {
                            let k = choose|k: int| 0 <= k < keys.len() && keys[k] == m;
                            assert(!text::ends(keys[k], suffix@));
                        }
                    }
                },
            }
        }
        found
    }
}

/// A table of lists.
impl<K: Key, X> Table<K, Vec<X>> {
    /// The list that `k` has, empty where it has none.
    pub open spec fn list(self, k: K::V) -> Seq<X> {
        if self.map().contains_key(k) {
            self.map()[k]@
        } else {
            Seq::empty()
        }
    }

    /// Puts `x` at the end of the list of `key`.
    pub fn push_to(&mut self, key: K, x: X)
        ensures
            ascending::<K>(final(self).keys()),
            forall|k: K::V| #[trigger]
                final(self).keys().contains(k) <==> k == key@ || old(self).keys().contains(k),
            forall|k: K::V| #[trigger]
                final(self).list(k) == (if k == key@ {
                    old(self).list(k).push(x)
                } else {
                    old(self).list(k)
                }),
    {
        let found = self.search(&key);
        let ghost was = *self;
        match found {
            Ok(i) => {
                let mut rows: Vec<(K, Vec<X>)> = Vec::new();
                std::mem::swap(&mut rows, &mut self.rows);
                let row = &mut rows[i];
                row.1.push(x);
                let ghost now = Table { rows };
                proof {
                    was.lemma_rows();
                    assert(now.keys() =~= was.keys());
                    now.lemma_rows();
                    lemma_ascending_distinct::<K>(was.keys());
                    assert forall|k: K::V| #[trigger] now.list(k) == (if k == key@ {
                        was.list(k).push(x)
                    } else {
                        was.list(k)
                    }) by {
                        if was.keys().contains(k) {
                            let j = choose|j: int| 0 <= j < was.keys().len() && was.keys()[j] == k;
                            assert(now.keys()[j] == k);
                            assert(now.values()[j] == now.rows@[j].1);
                            assert(was.values()[j] == was.rows@[j].1);
                        }
                    }
                }
                self.rows = rows;
            },
            Err(_) => {
                let mut one: Vec<X> = Vec::new();
                one.push(x);
                assert(one@ =~= Seq::<X>::empty().push(x));
                self.insert(key, one);
            },
        }
    }
}

} // verus!
