//! Stable ordering by integer keys.
//!
//! Every sort of this crate goes through here: a caller computes one `u64` key
//! per item, and gets back the item indices in ascending key order, items of
//! equal key in their first order.

use vstd::prelude::*;

verus! {

/// Where an item of key `k` enters an already ordered list: behind every entry
/// whose key is not greater.
pub open spec fn slot_for(keys: Seq<u64>, order: Seq<usize>, k: u64) -> int
    decreases order.len(),
{
    if order.len() == 0 || keys[order.last() as int] <= k {
        order.len() as int
    } else {
        slot_for(keys, order.drop_last(), k)
    }
}

/// The first `n` indices, ordered by key.
pub open spec fn order_upto(keys: Seq<u64>, n: int) -> Seq<usize>
    decreases n,
{
    if n <= 0 {
        Seq::empty()
    } else {
        let o = order_upto(keys, n - 1);
        o.insert(slot_for(keys, o, keys[n - 1]), (n - 1) as usize)
    }
}

/// All indices, ordered by key.
pub open spec fn order_of(keys: Seq<u64>) -> Seq<usize> {
    order_upto(keys, keys.len() as int)
}

/// `o` lists each of the first `n` indices once, by ascending key, and equal
/// keys by ascending index. There is exactly one such list.
pub open spec fn is_stable_order(keys: Seq<u64>, o: Seq<usize>, n: int) -> bool {
    &&& o.len() == n
    &&& forall|i: int| 0 <= i < o.len() ==> (#[trigger] o[i]) < n
    &&& forall|i: int, j: int|
        0 <= i < j < o.len() ==> {
            let a = #[trigger] o[i];
            let b = #[trigger] o[j];
            keys[a as int] < keys[b as int] || (keys[a as int] == keys[b as int] && a < b)
        }
}

proof fn slot_for_bounds(keys: Seq<u64>, o: Seq<usize>, k: u64)
    requires
        is_stable_order(keys, o, o.len() as int),
    ensures
        0 <= slot_for(keys, o, k) <= o.len(),
        forall|i: int| 0 <= i < slot_for(keys, o, k) ==> keys[(#[trigger] o[i]) as int] <= k,
        forall|i: int| slot_for(keys, o, k) <= i < o.len() ==> keys[(#[trigger] o[i]) as int] > k,
{
    slot_for_bounds_any(keys, o, k);
}

spec fn keys_ascend(keys: Seq<u64>, o: Seq<usize>) -> bool {
    forall|i: int, j: int|
        0 <= i < j < o.len() ==> keys[(#[trigger] o[i]) as int] <= keys[(#[trigger] o[j]) as int]
}

proof fn slot_for_bounds_any(keys: Seq<u64>, o: Seq<usize>, k: u64)
    requires
        keys_ascend(keys, o),
    ensures
        0 <= slot_for(keys, o, k) <= o.len(),
        forall|i: int| 0 <= i < slot_for(keys, o, k) ==> keys[(#[trigger] o[i]) as int] <= k,
        forall|i: int| slot_for(keys, o, k) <= i < o.len() ==> keys[(#[trigger] o[i]) as int] > k,
    decreases o.len(),
{
    if o.len() > 0 && keys[o.last() as int] > k {
        let p = o.drop_last();
        assert(keys_ascend(keys, p)) by {
            assert forall|i: int, j: int| 0 <= i < j < p.len() implies keys[(#[trigger] p[i]) as int]
                <= keys[(#[trigger] p[j]) as int] by {
                assert(p[i] == o[i] && p[j] == o[j]);
            }
        }
        slot_for_bounds_any(keys, p, k);
        assert forall|i: int| 0 <= i < slot_for(keys, o, k) implies keys[(#[trigger] o[i]) as int]
            <= k by {
            assert(p[i] == o[i]);
        }
        assert forall|i: int| slot_for(keys, o, k) <= i < o.len() implies keys[(
        #[trigger] o[i]) as int] > k by {
            if i < p.len() {
                assert(p[i] == o[i]);
            }
        }
    }
}

/// The ordered list is a stable order.
pub proof fn order_upto_is_stable(keys: Seq<u64>, n: int)
    requires
        0 <= n <= keys.len(),
        keys.len() <= usize::MAX,
    ensures
        is_stable_order(keys, order_upto(keys, n), n),
    decreases n,
{
    if n > 0 {
        order_upto_is_stable(keys, n - 1);
        let o = order_upto(keys, n - 1);
        let k = keys[n - 1];
        slot_for_bounds(keys, o, k);
        let p = slot_for(keys, o, k);
        let r = order_upto(keys, n);
        assert forall|i: int| 0 <= i < r.len() implies (#[trigger] r[i]) < n by {
            if i < p {
                assert(r[i] == o[i]);
            } else if i > p {
                assert(r[i] == o[i - 1]);
            }
        }
        assert forall|i: int, j: int| 0 <= i < j < r.len() implies {
            let a = #[trigger] r[i];
            let b = #[trigger] r[j];
            keys[a as int] < keys[b as int] || (keys[a as int] == keys[b as int] && a < b)
        } by {
            let oi = if i < p { i } else { i - 1 };
            let oj = if j < p { j } else { j - 1 };
            if i != p {
                assert(r[i] == o[oi]);
            }
            if j != p {
                assert(r[j] == o[oj]);
            }
        }
    }
}

proof fn slot_for_range(keys: Seq<u64>, o: Seq<usize>, k: u64)
    ensures
        0 <= slot_for(keys, o, k) <= o.len(),
    decreases o.len(),
{
    if o.len() > 0 {
        slot_for_range(keys, o.drop_last(), k);
    }
}

/// The ordered list is as long as what it orders.
pub proof fn order_upto_len(keys: Seq<u64>, n: int)
    requires
        0 <= n,
    ensures
        order_upto(keys, n).len() == n,
    decreases n,
{
    if n > 0 {
        order_upto_len(keys, n - 1);
        slot_for_range(keys, order_upto(keys, n - 1), keys[n - 1]);
    }
}

/// The ordered list of all indices is a stable order of all of them.
pub proof fn order_of_is_stable(keys: Seq<u64>)
    requires
        keys.len() <= usize::MAX,
    ensures
        is_stable_order(keys, order_of(keys), keys.len() as int),
        order_of(keys).no_duplicates(),
{
    order_upto_is_stable(keys, keys.len() as int);
}

/// Every index occurs in a stable order.
pub proof fn stable_order_covers(keys: Seq<u64>, o: Seq<usize>, n: int, x: int)
    requires
        is_stable_order(keys, o, n),
        0 <= x < n,
        n <= usize::MAX,
    ensures
        o.contains(x as usize),
{
    assert(o.no_duplicates());
    let ints = o.map_values(|u: usize| u as int);
    assert(ints.no_duplicates());
    vstd::seq_lib::seq_to_set_is_finite(ints);
    ints.unique_seq_to_set();
    let all = vstd::set_lib::set_int_range(0, n);
    vstd::set_lib::lemma_int_range(0, n);
    assert(ints.to_set().subset_of(all)) by {
        assert forall|e: int| ints.to_set().contains(e) implies all.contains(e) by {
            let i = choose|i: int| 0 <= i < ints.len() && ints[i] == e;
            assert(o[i] < n);
        }
    }
    vstd::set_lib::lemma_subset_equality(ints.to_set(), all);
    assert(all.contains(x));
    assert(ints.to_set().contains(x));
    let i = choose|i: int| 0 <= i < ints.len() && ints[i] == x;
    assert(o[i] == x as usize);
}

/// The indices of `keys` in ascending key order, equal keys in index order.
pub fn stable_order(keys: &[u64]) -> (r: Vec<usize>)
    ensures
        r@ == order_of(keys@),
        is_stable_order(keys@, r@, keys@.len() as int),
{
    let mut o: Vec<usize> = Vec::new();
    let mut n: usize = 0;
    while n < keys.len()
        invariant
            n <= keys@.len(),
            o@ == order_upto(keys@, n as int),
            is_stable_order(keys@, o@, n as int),
        decreases keys@.len() - n,
    {
        let k: u64 = keys[n];
        let mut p: usize = o.len();
        proof {
            assert(o@.take(o@.len() as int) =~= o@);
        }
        while p > 0 && keys[o[p - 1]] > k
            invariant
                n < keys@.len(),
                p <= o@.len(),
                o@.len() == n,
                is_stable_order(keys@, o@, n as int),
                slot_for(keys@, o@, k) == slot_for(keys@, o@.take(p as int), k),
            decreases p,
        {
            proof {
                assert(o@.take(p as int).last() == o@[p - 1]);
                assert(o@.take(p as int).drop_last() =~= o@.take(p - 1));
            }
            p -= 1;
        }
        proof {
            assert(o@.take(o@.len() as int) =~= o@);
            assert(p > 0 ==> o@.take(p as int).last() == o@[p - 1]);
            order_upto_is_stable(keys@, n + 1);
        }
        o.insert(p, n);
        n += 1;
    }
    o
}

/// Whether each item goes before every later one.
pub open spec fn goes_up<T>(v: Seq<T>, lt: spec_fn(T, T) -> bool) -> bool {
    forall|i: int, j: int|
        #![trigger v[i], v[j]]
        0 <= i < j < v.len() ==> lt(v[i], v[j])
}

/// Whether each item is equal to every later one or goes before it.
pub open spec fn rises<T>(v: Seq<T>, lt: spec_fn(T, T) -> bool) -> bool {
    forall|i: int, j: int|
        #![trigger v[i], v[j]]
        0 <= i < j < v.len() ==> v[i] == v[j] || lt(v[i], v[j])
}

/// A list without the items that only repeat the one before them.
pub open spec fn once<T>(v: Seq<T>) -> Seq<T>
    decreases v.len(),
{
    if v.len() == 0 {
        v
    } else {
        let p = once(v.drop_last());
        if p.len() > 0 && p.last() == v.last() {
            p
        } else {
            p.push(v.last())
        }
    }
}

/// A list that rises goes up, and holds the same items, once its repeats are dropped.
pub proof fn once_goes_up<T>(v: Seq<T>, lt: spec_fn(T, T) -> bool)
    requires
        rises(v, lt),
        forall|x: T, y: T| #[trigger] lt(x, y) ==> !lt(y, x),
    ensures
        goes_up(once(v), lt),
        forall|x: T| #[trigger] once(v).contains(x) <==> v.contains(x),
        v.len() > 0 ==> once(v).len() > 0 && once(v).last() == v.last(),
    decreases v.len(),
{
    if v.len() > 0 {
        let u = v.drop_last();
        let p = once(u);
        let q = once(v);
        let x = v.last();
        assert(rises(u, lt)) by {
            assert forall|i: int, j: int|
                #![trigger u[i], u[j]]
                0 <= i < j < u.len() implies u[i] == u[j] || lt(u[i], u[j]) by {
                assert(v[i] == v[j] || lt(v[i], v[j]));
            }
        }
        once_goes_up(u, lt);
        assert forall|y: T| #[trigger] q.contains(y) <==> v.contains(y) by {
            if q.contains(y) {
                let k = choose|k: int| 0 <= k < q.len() && q[k] == y;
                if k < p.len() {
                    assert(p[k] == y);
                    assert(p.contains(y));
                    let l = choose|l: int| 0 <= l < u.len() && u[l] == y;
                    assert(v[l] == y);
                } else {
                    assert(v[v.len() - 1] == y);
                }
            }
            if v.contains(y) {
                let l = choose|l: int| 0 <= l < v.len() && v[l] == y;
                if l < u.len() {
                    assert(u[l] == y);
                    assert(p.contains(y));
                    let k = choose|k: int| 0 <= k < p.len() && p[k] == y;
                    assert(q[k] == y);
                } else {
                    assert(q[q.len() - 1] == y);
                }
            }
        }
        assert forall|i: int, j: int|
            #![trigger q[i], q[j]]
            0 <= i < j < q.len() implies lt(q[i], q[j]) by {
            if j < p.len() {
                assert(lt(p[i], p[j]));
            } else {
                assert(q[j] == x && q[i] == p[i]);
                assert(p.contains(p[i]));
                let l = choose|l: int| 0 <= l < u.len() && u[l] == p[i];
                assert(v[l] == x || lt(v[l], v[v.len() - 1]));
                if p[i] == x {
                    let z = p.last();
                    assert(z == u.last());
                    assert(v[u.len() - 1] == x || lt(v[u.len() - 1], v[v.len() - 1]));
                    assert(lt(p[i], p[p.len() - 1]));
                }
            }
        }
    }
}

/// Lists that go up and hold the same items are equal.
pub proof fn going_up_is_unique<T>(a: Seq<T>, b: Seq<T>, lt: spec_fn(T, T) -> bool)
    requires
        goes_up(a, lt),
        goes_up(b, lt),
        forall|x: T, y: T| #[trigger] lt(x, y) ==> !lt(y, x),
        forall|x: T| #[trigger] a.contains(x) <==> b.contains(x),
    ensures
        a == b,
    decreases a.len(),
{
    if a.len() == 0 {
        if b.len() > 0 {
            assert(b.contains(b[0]));
            assert(a.contains(b[0]));
        }
        assert(a =~= b);
    } else {
        assert(a.contains(a[0]));
        assert(b.contains(a[0]));
        let x = a.last();
        let y = b.last();
        assert(a.contains(x));
        assert(b.contains(y));
        assert(a.contains(y));
        let i = choose|i: int| 0 <= i < b.len() && b[i] == x;
        let j = choose|j: int| 0 <= j < a.len() && a[j] == y;
        if x != y {
            assert(lt(b[i], b[b.len() - 1]));
            assert(lt(a[j], a[a.len() - 1]));
        }
        let p = a.drop_last();
        let q = b.drop_last();
        assert(goes_up(p, lt)) by {
            assert forall|i: int, j: int|
                #![trigger p[i], p[j]]
                0 <= i < j < p.len() implies lt(p[i], p[j]) by {
                assert(lt(a[i], a[j]));
            }
        }
        assert(goes_up(q, lt)) by {
            assert forall|i: int, j: int|
                #![trigger q[i], q[j]]
                0 <= i < j < q.len() implies lt(q[i], q[j]) by {
                assert(lt(b[i], b[j]));
            }
        }
        assert forall|z: T| #[trigger] p.contains(z) <==> q.contains(z) by {
            if p.contains(z) {
                let k = choose|k: int| 0 <= k < p.len() && p[k] == z;
                assert(a[k] == z);
                assert(lt(a[k], a[a.len() - 1]));
                assert(a.contains(z));
                let l = choose|l: int| 0 <= l < b.len() && b[l] == z;
                assert(z != x);
                assert(l < b.len() - 1);
                assert(q[l] == z);
            }
            if q.contains(z) {
                let k = choose|k: int| 0 <= k < q.len() && q[k] == z;
                assert(b[k] == z);
                assert(lt(b[k], b[b.len() - 1]));
                assert(b.contains(z));
                assert(a.contains(z));
                let l = choose|l: int| 0 <= l < a.len() && a[l] == z;
                assert(z != y);
                assert(l < a.len() - 1);
                assert(p[l] == z);
            }
        }
        going_up_is_unique(p, q, lt);
        assert(a =~= p.push(x));
        assert(b =~= q.push(y));
    }
}

/// The items at the given positions, in that order.
pub open spec fn picked<T>(items: Seq<T>, order: Seq<usize>) -> Seq<T> {
    Seq::new(order.len(), |i: int| items[order[i] as int])
}

/// Take the items at the given positions, in that order.
pub fn pick<T: Copy>(items: &[T], order: &[usize]) -> (r: Vec<T>)
    requires
        forall|i: int| 0 <= i < order@.len() ==> (#[trigger] order@[i]) < items@.len(),
    ensures
        r@ == picked(items@, order@),
{
    let mut out: Vec<T> = Vec::new();
    let mut i: usize = 0;
    while i < order.len()
        invariant
            i <= order@.len(),
            forall|j: int| 0 <= j < order@.len() ==> (#[trigger] order@[j]) < items@.len(),
            out@.len() == i,
            forall|j: int| 0 <= j < i ==> out@[j] == items@[order@[j] as int],
        decreases order@.len() - i,
    {
        assert(order@[i as int] < items@.len());
        out.push(items[order[i]]);
        i += 1;
    }
    proof {
        assert(out@ =~= picked(items@, order@));
    }
    out
}

/// Put items in ascending order of their keys, items of equal key in their first
/// order.
pub fn sort_by_keys<T: Copy>(items: &[T], keys: &[u64]) -> (r: Vec<T>)
    requires
        items@.len() == keys@.len(),
    ensures
        r@ == picked(items@, order_of(keys@)),
{
    let o: Vec<usize> = stable_order(keys);
    pick(items, &o)
}

/// The numbers as keys.
pub open spec fn byte_keys(v: Seq<u8>) -> Seq<u64> {
    v.map_values(|b: u8| b as u64)
}

/// Bytes in ascending order.
pub open spec fn sorted_bytes(v: Seq<u8>) -> Seq<u8> {
    picked(v, order_of(byte_keys(v)))
}

/// A sorted list is ascending and has the items it was made of.
pub proof fn sorted_bytes_ascend(v: Seq<u8>)
    requires
        v.len() <= usize::MAX,
    ensures
        sorted_bytes(v).len() == v.len(),
        forall|i: int, j: int| 0 <= i < j < v.len() ==> sorted_bytes(v)[i] <= sorted_bytes(v)[j],
        forall|b: u8| v.contains(b) <==> sorted_bytes(v).contains(b),
{
    let keys = byte_keys(v);
    order_of_is_stable(keys);
    let o = order_of(keys);
    let s = sorted_bytes(v);
    assert forall|i: int, j: int| 0 <= i < j < v.len() implies s[i] <= s[j] by {
        assert(o[i] < v.len() && o[j] < v.len());
        assert(keys[o[i] as int] == v[o[i] as int] as u64);
        assert(keys[o[j] as int] == v[o[j] as int] as u64);
    }
    assert forall|b: u8| v.contains(b) <==> s.contains(b) by {
        if v.contains(b) {
            let x = choose|x: int| 0 <= x < v.len() && v[x] == b;
            stable_order_covers(keys, o, v.len() as int, x);
            let i = choose|i: int| 0 <= i < o.len() && o[i] == x as usize;
            assert(s[i] == b);
        }
        if s.contains(b) {
            let i = choose|i: int| 0 <= i < s.len() && s[i] == b;
            assert(o[i] < v.len());
            assert(v[o[i] as int] == b);
        }
    }
}

/// Sort bytes in ascending order.
pub fn sort_bytes(v: &[u8]) -> (r: Vec<u8>)
    ensures
        r@ == sorted_bytes(v@),
{
    let mut keys: Vec<u64> = Vec::new();
    let mut i: usize = 0;
    while i < v.len()
        invariant
            i <= v@.len(),
            keys@ =~= byte_keys(v@).take(i as int),
        decreases v@.len() - i,
    {
        keys.push(v[i] as u64);
        i += 1;
    }
    proof {
        assert(keys@ =~= byte_keys(v@));
    }
    let o: Vec<usize> = stable_order(&keys);
    pick(v, &o)
}

/// A list without the items that equal their predecessor.
pub open spec fn deduped(v: Seq<u8>) -> Seq<u8>
    decreases v.len(),
{
    if v.len() == 0 {
        v
    } else {
        let rest = deduped(v.drop_last());
        if v.len() >= 2 && v[v.len() - 2] == v.last() {
            rest
        } else {
            rest.push(v.last())
        }
    }
}

/// Drop items that equal their predecessor.
pub fn dedup_bytes(v: &[u8]) -> (r: Vec<u8>)
    ensures
        r@ == deduped(v@),
{
    let mut out: Vec<u8> = Vec::new();
    let mut i: usize = 0;
    while i < v.len()
        invariant
            i <= v@.len(),
            out@ == deduped(v@.take(i as int)),
        decreases v@.len() - i,
    {
        proof {
            assert(v@.take(i + 1).drop_last() =~= v@.take(i as int));
            assert(v@.take(i + 1).last() == v@[i as int]);
        }
        if i == 0 || v[i - 1] != v[i] {
            out.push(v[i]);
        }
        i += 1;
    }
    proof {
        assert(v@.take(i as int) =~= v@);
    }
    out
}

} // verus!
