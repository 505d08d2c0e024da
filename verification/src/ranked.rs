//! Ascending lists without repetitions, over any totally ordered items.

use vstd::prelude::*;

verus! {

/// Items that are ordered; items that are alike count as one.
pub trait Ranked: Sized {
    /// Whether this item comes strictly before another one.
    spec fn precedes(&self, other: &Self) -> bool;

    /// Whether two items count as the same.
    spec fn alike(&self, other: &Self) -> bool;

    /// The order is strict, transitive, and tells any two items apart that are not
    /// alike; items that are alike stand at the same place.
    proof fn order_laws(a: Self, b: Self, c: Self)
        ensures
            !a.precedes(&a),
            a.alike(&a),
            a.alike(&b) ==> b.alike(&a),
            a.precedes(&b) && b.precedes(&c) ==> a.precedes(&c),
            a.alike(&b) || a.precedes(&b) || b.precedes(&a),
            a.alike(&b) ==> (b.precedes(&c) ==> a.precedes(&c)),
            a.alike(&b) ==> (c.precedes(&b) ==> c.precedes(&a)),
            a.alike(&b) && b.alike(&c) ==> a.alike(&c),
    ;

    /// Whether this item comes strictly before another one.
    fn comes_before(&self, other: &Self) -> (r: bool)
        ensures
            r == self.precedes(other),
    ;

    /// Whether two items count as the same.
    fn same_as(&self, other: &Self) -> (r: bool)
        ensures
            r == self.alike(other),
    ;
}

/// Each item comes before the next one.
pub open spec fn ascends<T: Ranked>(v: Seq<T>) -> bool {
    forall|i: int, j: int|
        #![trigger v[i], v[j]]
        0 <= i < j < v.len() ==> v[i].precedes(&v[j])
}

/// How many items of an ascending list come before `x`.
pub open spec fn rank_in<T: Ranked>(v: Seq<T>, x: T) -> int
    decreases v.len(),
{
    if v.len() == 0 {
        0
    } else if v.last().precedes(&x) {
        v.len() as int
    } else {
        rank_in(v.drop_last(), x)
    }
}

/// Whether the list has an item like `x`.
pub open spec fn includes<T: Ranked>(v: Seq<T>, x: T) -> bool {
    exists|i: int| 0 <= i < v.len() && (#[trigger] v[i]).alike(&x)
}

/// An ascending list with one item more; one that it has already stays once.
pub open spec fn with<T: Ranked>(v: Seq<T>, x: T) -> Seq<T> {
    let p = rank_in(v, x);
    if p < v.len() && v[p].alike(&x) {
        v
    } else {
        v.insert(p, x)
    }
}

/// What the rank of an item says of the items around it.
pub proof fn rank_in_bounds<T: Ranked>(v: Seq<T>, x: T)
    requires
        ascends(v),
    ensures
        0 <= rank_in(v, x) <= v.len(),
        forall|i: int| 0 <= i < rank_in(v, x) ==> (#[trigger] v[i]).precedes(&x),
        forall|i: int| rank_in(v, x) <= i < v.len() ==> !(#[trigger] v[i]).precedes(&x),
    decreases v.len(),
{
    if v.len() > 0 {
        let n = v.len() - 1;
        if v[n].precedes(&x) {
            assert forall|i: int| 0 <= i < v.len() implies (#[trigger] v[i]).precedes(&x) by {
                if i < n {
                    T::order_laws(v[i], v[n], x);
                }
            }
        } else {
            let w = v.drop_last();
            assert(ascends(w)) by {
                assert forall|i: int, j: int|
                    #![trigger w[i], w[j]]
                    0 <= i < j < w.len() implies w[i].precedes(&w[j]) by {
                    assert(w[i] == v[i] && w[j] == v[j]);
                }
            }
            rank_in_bounds(w, x);
            assert forall|i: int| 0 <= i < rank_in(v, x) implies (#[trigger] v[i]).precedes(
                &x,
            ) by {
                assert(w[i] == v[i]);
            }
            assert forall|i: int| rank_in(v, x) <= i < v.len() implies !(#[trigger] v[i]).precedes(
                &x,
            ) by {
                if i < n {
                    assert(w[i] == v[i]);
                }
            }
        }
    }
}

/// Adding an item keeps the list ascending, adds the item and nothing else.
pub proof fn with_is_set_insert<T: Ranked>(v: Seq<T>, x: T)
    requires
        ascends(v),
    ensures
        ascends(with(v, x)),
        forall|y: T| #[trigger] includes(with(v, x), y) <==> (includes(v, y) || x.alike(&y)),
        forall|i: int|
            0 <= i < with(v, x).len() ==> v.contains(#[trigger] with(v, x)[i]) || with(v, x)[i]
                == x,
{
    rank_in_bounds(v, x);
    let p = rank_in(v, x);
    let w = with(v, x);
    if p < v.len() && v[p].alike(&x) {
        assert forall|y: T| #[trigger] includes(w, y) <==> (includes(v, y) || x.alike(&y)) by {
            if x.alike(&y) {
                T::order_laws(v[p], x, y);
                assert(v[p].alike(&y));
            }
        }
    } else {
        assert forall|i: int, j: int|
            #![trigger w[i], w[j]]
            0 <= i < j < w.len() implies w[i].precedes(&w[j]) by {
            let oi = if i < p { i } else { i - 1 };
            let oj = if j < p { j } else { j - 1 };
            if i != p {
                assert(w[i] == v[oi]);
            }
            if j != p {
                assert(w[j] == v[oj]);
            }
            if i == p {
                T::order_laws(x, v[oj], x);
                T::order_laws(v[oj], x, x);
                if oj > p {
                    T::order_laws(x, v[p], v[oj]);
                    T::order_laws(v[p], v[oj], x);
                    T::order_laws(v[p], x, x);
                }
            }
        }
        assert forall|y: T| #[trigger] includes(w, y) <==> (includes(v, y) || x.alike(&y)) by {
            if includes(v, y) {
                let i = choose|i: int| 0 <= i < v.len() && (#[trigger] v[i]).alike(&y);
                let k = if i < p { i } else { i + 1 };
                assert(w[k] == v[i]);
            }
            if x.alike(&y) {
                assert(w[p].alike(&y));
            }
            if includes(w, y) {
                let i = choose|i: int| 0 <= i < w.len() && (#[trigger] w[i]).alike(&y);
                if i < p {
                    assert(v[i].alike(&y));
                } else if i > p {
                    assert(v[i - 1].alike(&y));
                }
            }
        }
        assert forall|i: int| 0 <= i < w.len() implies v.contains(#[trigger] w[i]) || w[i] == x by {
            if i < p {
                assert(w[i] == v[i]);
            } else if i > p {
                assert(w[i] == v[i - 1]);
            }
        }
    }
}

/// Two positions of an ascending list with like items are one position.
pub proof fn ascends_is_distinct<T: Ranked>(v: Seq<T>, i: int, j: int)
    requires
        ascends(v),
        0 <= i < v.len(),
        0 <= j < v.len(),
        v[i].alike(&v[j]),
    ensures
        i == j,
{
    T::order_laws(v[i], v[j], v[j]);
    T::order_laws(v[j], v[i], v[i]);
    T::order_laws(v[i], v[j], v[i]);
    T::order_laws(v[j], v[i], v[j]);
}

/// Whether the list has an item like `x`.
pub fn holds<T: Ranked>(v: &[T], x: &T) -> (r: bool)
    ensures
        r == includes(v@, *x),
{
    let mut i: usize = 0;
    while i < v.len()
        invariant
            i <= v@.len(),
            forall|j: int| 0 <= j < i ==> !(#[trigger] v@[j]).alike(x),
        decreases v@.len() - i,
    {
        if v[i].same_as(x) {
            assert(v@[i as int].alike(x));
            return true;
        }
        i += 1;
    }
    false
}

/// How many items of an ascending list come before `x`.
pub fn rank<T: Ranked>(v: &[T], x: &T) -> (r: usize)
    ensures
        r == rank_in(v@, *x),
        r <= v@.len(),
{
    let mut p: usize = v.len();
    proof {
        assert(v@.take(v@.len() as int) =~= v@);
    }
    while p > 0 && !v[p - 1].comes_before(x)
        invariant
            p <= v@.len(),
            rank_in(v@, *x) == rank_in(v@.take(p as int), *x),
        decreases p,
    {
        proof {
            assert(v@.take(p as int).last() == v@[p - 1]);
            assert(v@.take(p as int).drop_last() =~= v@.take(p - 1));
        }
        p -= 1;
    }
    proof {
        assert(p > 0 ==> v@.take(p as int).last() == v@[p - 1]);
    }
    p
}

/// Put an item into an ascending list, unless one like it is there.
pub fn insert<T: Ranked>(v: &mut Vec<T>, x: T)
    requires
        ascends(old(v)@),
    ensures
        final(v)@ == with(old(v)@, x),
        ascends(final(v)@),
{
    proof {
        with_is_set_insert(v@, x);
    }
    let p: usize = rank(v, &x);
    if p < v.len() && v[p].same_as(&x) {
        return ;
    }
    v.insert(p, x);
}

/// An ascending list with the first `k` items of another list added.
pub open spec fn with_all<T: Ranked>(base: Seq<T>, list: Seq<T>, k: int) -> Seq<T>
    decreases k,
{
    if k <= 0 {
        base
    } else {
        with(with_all(base, list, k - 1), list[k - 1])
    }
}

/// Adding items keeps the list ascending.
pub proof fn with_all_ascends<T: Ranked>(base: Seq<T>, list: Seq<T>, k: int)
    requires
        ascends(base),
        0 <= k <= list.len(),
    ensures
        ascends(with_all(base, list, k)),
    decreases k,
{
    if k > 0 {
        with_all_ascends(base, list, k - 1);
        with_is_set_insert(with_all(base, list, k - 1), list[k - 1]);
    }
}

/// Put all items of a list into an ascending list.
pub fn insert_all<T: Ranked + Copy>(v: &mut Vec<T>, list: &[T])
    requires
        ascends(old(v)@),
    ensures
        final(v)@ == with_all(old(v)@, list@, list@.len() as int),
        ascends(final(v)@),
{
    let mut k: usize = 0;
    while k < list.len()
        invariant
            k <= list@.len(),
            ascends(v@),
            v@ == with_all(old(v)@, list@, k as int),
        decreases list@.len() - k,
    {
        insert(v, list[k]);
        k += 1;
    }
}

} // verus!
