//! Stable sorting by an order that the items themselves define.
use crate::text::text_before;
use crate::text;
use vstd::prelude::*;

verus! {

/// What each item of a list stands for.
pub open spec fn each<T: View>(s: Seq<T>) -> Seq<T::V> {
    Seq::new(s.len(), |i: int| s[i]@)
}

/// What a longer list stands for.
pub proof fn lemma_each_push<T: View>(s: Seq<T>, x: T)
    ensures
        each(s.push(x)) == each(s).push(x@),
{
    assert(each(s.push(x)) =~= each(s).push(x@));
}

/// Items with an order to sort by. Two items of which neither precedes the
/// other keep the order they came in.
pub trait Ranked: View + Sized {
    spec fn precedes(a: Self::V, b: Self::V) -> bool;

    fn is_before(&self, other: &Self) -> (r: bool)
        ensures
            r == Self::precedes(self@, other@),
    ;

    proof fn precedes_is_an_order(a: Self::V, b: Self::V, c: Self::V)
        ensures
            !(Self::precedes(a, b) && Self::precedes(b, a)),
            !Self::precedes(a, b) && !Self::precedes(b, c) ==> !Self::precedes(a, c),
    ;
}

/// `s` with `x` put in behind the last item that `x` does not precede.
pub open spec fn placed<T: Ranked>(s: Seq<T::V>, x: T::V) -> Seq<T::V>
    decreases s.len(),
{
    if s.len() == 0 || !T::precedes(x, s.last()) {
        s.push(x)
    } else {
        placed::<T>(s.drop_last(), x).push(s.last())
    }
}

/// The items of `s` in order, those of equal rank as they came.
pub open spec fn sorted<T: Ranked>(s: Seq<T::V>) -> Seq<T::V>
    decreases s.len(),
{
    if s.len() == 0 {
        Seq::empty()
    } else {
        placed::<T>(sorted::<T>(s.drop_last()), s.last())
    }
}

/// Whether no item of `s` precedes one that stands before it.
pub open spec fn in_order<T: Ranked>(s: Seq<T::V>) -> bool {
    forall|i: int, j: int|
        0 <= i < j < s.len() ==> !T::precedes(#[trigger] s[j], #[trigger] s[i])
}

/// Placing an item keeps a list in order and adds just that item.
proof fn lemma_placed<T: Ranked>(s: Seq<T::V>, x: T::V)
    requires
        in_order::<T>(s),
    ensures
        in_order::<T>(placed::<T>(s, x)),
        placed::<T>(s, x).to_multiset() == s.to_multiset().insert(x),
        placed::<T>(s, x).len() == s.len() + 1,
    decreases s.len(),
{
    broadcast use vstd::seq_lib::group_to_multiset_ensures;

    if s.len() == 0 || !T::precedes(x, s.last()) {
        let r = s.push(x);
        assert forall|i: int, j: int| 0 <= i < j < r.len() implies !T::precedes(
            #[trigger] r[j],
            #[trigger] r[i],
        ) by {
            if j == s.len() && i < s.len() - 1 {
                assert(!T::precedes(s.last(), s[i]));
                T::precedes_is_an_order(x, s.last(), s[i]);
            }
        }
    } else {
        let t = s.drop_last();
        lemma_placed::<T>(t, x);
        let p = placed::<T>(t, x);
        let r = p.push(s.last());
        assert(s =~= t.push(s.last()));
        assert forall|i: int, j: int| 0 <= i < j < r.len() implies !T::precedes(
            #[trigger] r[j],
            #[trigger] r[i],
        ) by {
            if j == p.len() {
                assert(p.contains(p[i]));
                assert(p.to_multiset().count(p[i]) > 0);
                if p[i] == x {
                    T::precedes_is_an_order(x, s.last(), x);
                } else {
                    assert(t.to_multiset().count(p[i]) > 0);
                    assert(t.contains(p[i]));
                    let k = choose|k: int| 0 <= k < t.len() && t[k] == p[i];
                    assert(!T::precedes(s[s.len() - 1], s[k]));
                }
            }
        }
        assert(r.to_multiset() =~= s.to_multiset().insert(x));
    }
}

/// Sorting yields a list in order that holds exactly the items it was given.
pub proof fn lemma_sorted<T: Ranked>(s: Seq<T::V>)
    ensures
        in_order::<T>(sorted::<T>(s)),
        sorted::<T>(s).to_multiset() == s.to_multiset(),
        sorted::<T>(s).len() == s.len(),
    decreases s.len(),
{
    broadcast use vstd::seq_lib::group_to_multiset_ensures;

    if s.len() == 0 {
        assert(sorted::<T>(s) =~= s);
    } else {
        lemma_sorted::<T>(s.drop_last());
        lemma_placed::<T>(sorted::<T>(s.drop_last()), s.last());
        assert(s =~= s.drop_last().push(s.last()));
    }
}

/// A sorted list holds the same items.
pub proof fn lemma_sorted_contains<T: Ranked>(s: Seq<T::V>, x: T::V)
    ensures
        sorted::<T>(s).contains(x) <==> s.contains(x),
{
    broadcast use vstd::seq_lib::group_to_multiset_ensures;

    lemma_sorted::<T>(s);
    assert(sorted::<T>(s).contains(x) <==> sorted::<T>(s).to_multiset().count(x) > 0);
    assert(s.contains(x) <==> s.to_multiset().count(x) > 0);
}

/// Puts `x` in behind the last item that it does not precede.
pub fn place<T: Ranked>(v: &mut Vec<T>, x: T)
    ensures
        each(final(v)@) == placed::<T>(each(old(v)@), x@),
{
    let ghost s = each(v@);
    let ghost was = v@;
    let mut i: usize = v.len();
    proof {
        text::lemma_take_all(s);
        assert(s.skip(s.len() as int) =~= Seq::<T::V>::empty());
        assert(placed::<T>(s, x@) =~= placed::<T>(s.take(i as int), x@) + s.skip(i as int));
    }
    while i > 0 && x.is_before(&v[i - 1])
        invariant
            i <= s.len(),
            v@ == was,
            s == each(was),
            placed::<T>(s, x@) == placed::<T>(s.take(i as int), x@) + s.skip(i as int),
        decreases i,
    {
        proof {
            let t = s.take(i as int);
            assert(t.drop_last() =~= s.take(i - 1));
            assert(t.last() == s[i - 1]);
            assert(placed::<T>(s.take(i - 1), x@).push(s[i - 1]) + s.skip(i as int) =~= placed::<
                T,
            >(s.take(i - 1), x@) + s.skip(i - 1));
        }
        i = i - 1;
    }
    proof {
        assert(s.take(i as int).push(x@) + s.skip(i as int) =~= s.insert(i as int, x@));
        if i > 0 {
            assert(s.take(i as int).last() == s[i - 1]);
        }
    }
    v.insert(i, x);
    assert(each(v@) =~= s.insert(i as int, x@));
}

/// The items of `v` turned round.
pub fn reversed<T>(v: Vec<T>) -> (r: Vec<T>)
    ensures
        r@ == v@.reverse(),
{
    let ghost s = v@;
    let mut rest = v;
    let mut back: Vec<T> = Vec::new();
    while rest.len() > 0
        invariant
            rest@ + back@.reverse() == s,
        decreases rest@.len(),
    {
        let ghost before = rest@;
        let ghost tail = back@;
        match rest.pop() {
            Some(x) => {
                back.push(x);
                assert(rest@ + back@.reverse() =~= before + tail.reverse());
            },
            None => {},
        }
    }
    assert(back@.reverse() =~= s);
    assert(back@ =~= s.reverse());
    back
}

/// The items of `v` in order.
pub fn sort<T: Ranked>(v: Vec<T>) -> (r: Vec<T>)
    ensures
        each(r@) == sorted::<T>(each(v@)),
{
    let ghost s = v@;
    let mut back = reversed(v);
    let mut out: Vec<T> = Vec::new();
    let ghost mut n: int = 0;
    while back.len() > 0
        invariant
            0 <= n <= s.len(),
            back@.len() == s.len() - n,
            forall|k: int| 0 <= k < back@.len() ==> back@[k] == s[s.len() - 1 - k],
            each(out@) == sorted::<T>(each(s).take(n)),
        decreases back@.len(),
    {
        match back.pop() {
            Some(x) => {
                proof {
                    text::lemma_take_step(each(s), n);
                }
                place(&mut out, x);
                proof {
                    n = n + 1;
                }
            },
            None => {},
        }
    }
    proof {
        text::lemma_take_all(each(s));
    }
    out
}

/// Texts in their own order.
impl Ranked for String {
    open spec fn precedes(a: Seq<char>, b: Seq<char>) -> bool {
        text::text_lt(a, b)
    }

    fn is_before(&self, other: &Self) -> (r: bool) {
        text_before(self.as_str(), other.as_str())
    }

    proof fn precedes_is_an_order(a: Seq<char>, b: Seq<char>, c: Seq<char>) {
        text::lemma_text_lt_irreflexive(a);
        if text::text_lt(a, b) && text::text_lt(b, a) {
            text::lemma_text_lt_transitive(a, b, a);
        }
        text::lemma_text_lt_total(a, b);
        text::lemma_text_lt_total(b, c);
        if text::text_lt(a, c) && text::text_lt(b, a) {
            text::lemma_text_lt_transitive(b, a, c);
        }
        if text::text_lt(a, c) && text::text_lt(c, b) {
            text::lemma_text_lt_transitive(a, c, b);
        }
    }
}

/// Texts in order.
pub fn sort_texts(v: Vec<String>) -> (r: Vec<String>)
    ensures
        text::views(r@) == sorted::<String>(text::views(v@)),
{
    proof {
        assert(text::views(v@) =~= each(v@));
    }
    let r = sort(v);
    assert(text::views(r@) =~= each(r@));
    r
}

} // verus!
