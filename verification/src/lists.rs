//! What lists hold that grow by an item or by a list.

use vstd::prelude::*;

verus! {

/// What one item more adds to a prefix.
pub proof fn grows<T>(v: Seq<T>, n: int, x: T)
    requires
        0 < n <= v.len(),
    ensures
        v.take(n).contains(x) <==> v.take(n - 1).contains(x) || v[n - 1] == x,
{
    let a = v.take(n - 1);
    let b = v.take(n);
    assert(b[n - 1] == v[n - 1]);
    if a.contains(x) {
        let i = choose|i: int| 0 <= i < a.len() && a[i] == x;
        assert(b[i] == x);
    }
    if b.contains(x) {
        let i = choose|i: int| 0 <= i < b.len() && b[i] == x;
        if i < n - 1 {
            assert(a[i] == x);
        }
    }
}

/// What a pushed item adds to a list.
pub proof fn pushed<T>(a: Seq<T>, b: Seq<T>, y: T, x: T)
    requires
        b == a || b == a.push(y),
    ensures
        b == a ==> (b.contains(x) <==> a.contains(x)),
        b == a.push(y) ==> (b.contains(x) <==> a.contains(x) || x == y),
{
    if b == a.push(y) {
        assert(b[a.len() as int] == y);
        if a.contains(x) {
            let i = choose|i: int| 0 <= i < a.len() && a[i] == x;
            assert(b[i] == x);
        }
        if b.contains(x) {
            let i = choose|i: int| 0 <= i < b.len() && b[i] == x;
            if i < a.len() {
                assert(a[i] == x);
            }
        }
    }
}

/// What a joined list holds.
pub proof fn in_either<T>(a: Seq<T>, b: Seq<T>, x: T)
    ensures
        (a + b).contains(x) <==> a.contains(x) || b.contains(x),
{
    let v = a + b;
    if a.contains(x) {
        let i = choose|i: int| 0 <= i < a.len() && a[i] == x;
        assert(v[i] == x);
    }
    if b.contains(x) {
        let i = choose|i: int| 0 <= i < b.len() && b[i] == x;
        assert(v[a.len() + i] == x);
    }
    if v.contains(x) {
        let i = choose|i: int| 0 <= i < v.len() && v[i] == x;
        if i < a.len() {
            assert(a[i] == x);
        } else {
            assert(b[i - a.len()] == x);
        }
    }
}

/// What a list of one item holds.
pub proof fn in_one<T>(y: T, x: T)
    ensures
        seq![y].contains(x) <==> x == y,
        !Seq::<T>::empty().contains(x),
{
    assert(seq![y][0] == y);
}

} // verus!
