//! Lists of texts in lexicographic order.

use vstd::prelude::*;

use crate::order;
use crate::order::order_of;
use crate::order::picked;
use crate::text;
use crate::text::before;
use crate::text::before_irreflexive;
use crate::text::before_transitive;
use crate::text::views;

verus! {

/// How many of the first `n` texts come before `x`.
pub open spec fn count_before(v: Seq<Seq<char>>, x: Seq<char>, n: int) -> int
    decreases n,
{
    if n <= 0 {
        0
    } else {
        count_before(v, x, n - 1) + (if before(v[n - 1], x) {
            1int
        } else {
            0
        })
    }
}

/// The rank of each text: how many of the list come before it.
pub open spec fn text_ranks(v: Seq<Seq<char>>) -> Seq<u64> {
    Seq::new(v.len(), |i: int| count_before(v, v[i], v.len() as int) as u64)
}

/// The texts in order, equal ones in their first order.
pub open spec fn sorted_texts(v: Seq<Seq<char>>) -> Seq<Seq<char>> {
    picked(v, order_of(text_ranks(v)))
}

/// The count is no more than the texts counted.
pub proof fn count_before_bound(v: Seq<Seq<char>>, x: Seq<char>, n: int)
    requires
        0 <= n,
    ensures
        0 <= count_before(v, x, n) <= n,
    decreases n,
{
    if n > 0 {
        count_before_bound(v, x, n - 1);
    }
}

fn count_less(v: &[String], x: &str) -> (r: u64)
    ensures
        r == count_before(views(v@), x@, v@.len() as int),
{
    let mut r: u64 = 0;
    let mut i: usize = 0;
    while i < v.len()
        invariant
            i <= v@.len(),
            r <= i,
            r == count_before(views(v@), x@, i as int),
        decreases v@.len() - i,
    {
        if text::less(v[i].as_str(), x) {
            r += 1;
        }
        i += 1;
    }
    r
}

/// The rank of each text.
pub fn rank_texts(v: &[String]) -> (r: Vec<u64>)
    ensures
        r@ == text_ranks(views(v@)),
{
    let mut out: Vec<u64> = Vec::new();
    let mut i: usize = 0;
    while i < v.len()
        invariant
            i <= v@.len(),
            out@.len() == i,
            forall|k: int|
                0 <= k < i ==> #[trigger] out@[k] == count_before(
                    views(v@),
                    views(v@)[k],
                    v@.len() as int,
                ),
        decreases v@.len() - i,
    {
        out.push(count_less(v, v[i].as_str()));
        i += 1;
    }
    proof {
        assert(out@ =~= text_ranks(views(v@)));
    }
    out
}

/// The same text again.
pub fn copy_text(s: &str) -> (r: String)
    ensures
        r@ == s@,
{
    s.to_owned()
}

/// The same texts again.
pub fn copy_texts(v: &[String]) -> (r: Vec<String>)
    ensures
        views(r@) == views(v@),
        r@.len() == v@.len(),
{
    let mut out: Vec<String> = Vec::new();
    let mut i: usize = 0;
    while i < v.len()
        invariant
            i <= v@.len(),
            out@.len() == i,
            forall|k: int| 0 <= k < i ==> (#[trigger] out@[k])@ == v@[k]@,
        decreases v@.len() - i,
    {
        out.push(copy_text(v[i].as_str()));
        i += 1;
    }
    proof {
        assert(views(out@) =~= views(v@));
    }
    out
}

/// The texts in order.
pub fn sort_texts(v: &[String]) -> (r: Vec<String>)
    ensures
        views(r@) == sorted_texts(views(v@)),
{
    let keys: Vec<u64> = rank_texts(v);
    let o: Vec<usize> = order::stable_order(&keys);
    let mut out: Vec<String> = Vec::new();
    let mut k: usize = 0;
    while k < o.len()
        invariant
            k <= o@.len(),
            o@.len() == v@.len(),
            order::is_stable_order(keys@, o@, v@.len() as int),
            out@.len() == k,
            forall|j: int| 0 <= j < k ==> (#[trigger] out@[j])@ == v@[o@[j] as int]@,
        decreases o@.len() - k,
    {
        assert(o@[k as int] < v@.len());
        out.push(copy_text(v[o[k]].as_str()));
        k += 1;
    }
    proof {
        assert(views(out@) =~= picked(views(v@), o@));
    }
    out
}

proof fn count_grows(v: Seq<Seq<char>>, y: Seq<char>, x: Seq<char>, n: int, at: int)
    requires
        before(y, x),
        0 <= n,
        0 <= at,
        v[at] == y,
    ensures
        count_before(v, y, n) <= count_before(v, x, n),
        at < n ==> count_before(v, y, n) < count_before(v, x, n),
    decreases n,
{
    if n > 0 {
        count_grows(v, y, x, n - 1, at);
        if before(v[n - 1], y) {
            before_transitive(v[n - 1], y, x);
        }
        before_irreflexive(y);
    }
}

/// Sorted texts ascend: no later one comes before an earlier one.
pub proof fn sorted_texts_ascend(v: Seq<Seq<char>>)
    requires
        v.len() <= usize::MAX,
    ensures
        sorted_texts(v).len() == v.len(),
        forall|i: int, j: int|
            #![trigger sorted_texts(v)[i], sorted_texts(v)[j]]
            0 <= i < j < v.len() ==> !before(sorted_texts(v)[j], sorted_texts(v)[i]),
{
    let keys = text_ranks(v);
    order::order_of_is_stable(keys);
    let o = order_of(keys);
    let r = sorted_texts(v);
    let n = v.len() as int;
    assert forall|i: int, j: int|
        #![trigger r[i], r[j]]
        0 <= i < j < n implies !before(r[j], r[i]) by {
        let a = o[i] as int;
        let b = o[j] as int;
        assert(o[i] < n && o[j] < n);
        assert(keys[a] <= keys[b]);
        ranks_follow_texts(v);
        assert(r[i] == v[a] && r[j] == v[b]);
    }
}

/// The ranks of texts follow their order.
pub proof fn ranks_follow_texts(v: Seq<Seq<char>>)
    requires
        v.len() <= usize::MAX,
    ensures
        forall|i: int, j: int|
            #![trigger text_ranks(v)[i], text_ranks(v)[j]]
            0 <= i < v.len() && 0 <= j < v.len() && text_ranks(v)[i] <= text_ranks(v)[j]
                ==> !before(v[j], v[i]),
{
    let keys = text_ranks(v);
    let n = v.len() as int;
    assert forall|i: int, j: int|
        #![trigger keys[i], keys[j]]
        0 <= i < n && 0 <= j < n && keys[i] <= keys[j] implies !before(v[j], v[i]) by {
        if before(v[j], v[i]) {
            count_grows(v, v[j], v[i], n, j);
            count_before_bound(v, v[i], n);
            count_before_bound(v, v[j], n);
        }
    }
}

/// Whether two lists hold the same texts in the same order.
pub fn same_texts(a: &[String], b: &[String]) -> (r: bool)
    ensures
        r == (views(a@) == views(b@)),
{
    if a.len() != b.len() {
        assert(views(a@).len() != views(b@).len());
        return false;
    }
    let mut i: usize = 0;
    while i < a.len()
        invariant
            i <= a@.len(),
            a@.len() == b@.len(),
            forall|k: int| 0 <= k < i ==> (#[trigger] a@[k])@ == b@[k]@,
        decreases a@.len() - i,
    {
        if !text::same(a[i].as_str(), b[i].as_str()) {
            assert(views(a@)[i as int] != views(b@)[i as int]);
            return false;
        }
        i += 1;
    }
    proof {
        assert(views(a@) =~= views(b@));
    }
    true
}

/// Whether a list holds a text.
pub fn holds_text(v: &[String], s: &str) -> (r: bool)
    ensures
        r == views(v@).contains(s@),
{
    let mut i: usize = 0;
    while i < v.len()
        invariant
            i <= v@.len(),
            forall|k: int| 0 <= k < i ==> views(v@)[k] != s@,
        decreases v@.len() - i,
    {
        if text::same(v[i].as_str(), s) {
            assert(views(v@)[i as int] == s@);
            return true;
        }
        i += 1;
    }
    false
}

} // verus!
