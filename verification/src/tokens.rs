//! Sets of exclusion tokens.
//!
//! A token is opaque: all that is ever asked of it is whether it equals another
//! one. [`Token::key`] is what equality goes by.

use vstd::prelude::*;

verus! {

/// What tells one token from another.
pub ghost struct TokenKey {
    pub kind: int,
    pub name: Seq<char>,
    pub a: int,
    pub b: int,
    pub c: int,
}

/// A value that stands for one scarce thing.
pub trait Token: Sized + Copy {
    /// What this token is.
    spec fn key(&self) -> TokenKey;

    /// Whether two tokens stand for the same thing.
    fn is(&self, other: &Self) -> (r: bool)
        ensures
            r == (self.key() == other.key()),
    ;
}

/// The keys of a list of tokens.
pub open spec fn keys_of<T: Token>(items: Seq<T>) -> Set<TokenKey> {
    Set::new(|k: TokenKey| exists|i: int| 0 <= i < items.len() && (#[trigger] items[i]).key() == k)
}

/// A set of tokens.
#[derive(Clone, Debug)]
pub struct Bag<T> {
    items: Vec<T>,
}

impl<T: Token> View for Bag<T> {
    type V = Set<TokenKey>;

    closed spec fn view(&self) -> Set<TokenKey> {
        keys_of(self.items@)
    }
}

/// One token more adds its key.
pub proof fn keys_of_push<T: Token>(items: Seq<T>, t: T)
    ensures
        keys_of(items.push(t)) == keys_of(items).insert(t.key()),
{
    let s = items.push(t);
    assert forall|k: TokenKey| keys_of(s).contains(k) <==> keys_of(items).insert(t.key()).contains(
        k,
    ) by {
        if keys_of(items).contains(k) {
            let i = choose|i: int| 0 <= i < items.len() && (#[trigger] items[i]).key() == k;
            assert(s[i].key() == k);
        }
        if k == t.key() {
            assert(s[items.len() as int].key() == k);
        }
        if keys_of(s).contains(k) {
            let i = choose|i: int| 0 <= i < s.len() && (#[trigger] s[i]).key() == k;
            if i < items.len() {
                assert(items[i].key() == k);
            }
        }
    }
    assert(keys_of(s) =~= keys_of(items).insert(t.key()));
}

/// The keys of a list that grows by one.
pub proof fn keys_of_step<T: Token>(items: Seq<T>, i: int)
    requires
        0 <= i < items.len(),
    ensures
        keys_of(items.take(i + 1)) == keys_of(items.take(i)).insert(items[i].key()),
{
    assert(items.take(i + 1) =~= items.take(i).push(items[i]));
    keys_of_push(items.take(i), items[i]);
}

/// Different positions hold different tokens.
pub open spec fn distinct_keys<T: Token>(items: Seq<T>) -> bool {
    forall|i: int, j: int|
        0 <= i < j < items.len() ==> (#[trigger] items[i]).key() != (#[trigger] items[j]).key()
}

/// A list of different tokens has as many keys as items.
pub proof fn keys_of_len<T: Token>(items: Seq<T>)
    requires
        distinct_keys(items),
    ensures
        keys_of(items).finite(),
        keys_of(items).len() == items.len(),
    decreases items.len(),
{
    if items.len() == 0 {
        assert(keys_of(items) =~= Set::empty());
    } else {
        let p = items.drop_last();
        assert(distinct_keys(p)) by {
            assert forall|i: int, j: int| 0 <= i < j < p.len() implies (#[trigger] p[i]).key() != (
            #[trigger] p[j]).key() by {
                assert(p[i] == items[i] && p[j] == items[j]);
            }
        }
        keys_of_len(p);
        assert(items =~= p.push(items.last()));
        keys_of_push(p, items.last());
        assert(!keys_of(p).contains(items.last().key())) by {
            if keys_of(p).contains(items.last().key()) {
                let i = choose|i: int|
                    0 <= i < p.len() && (#[trigger] p[i]).key() == items.last().key();
                assert(p[i] == items[i]);
                assert(items[i].key() != items[items.len() - 1].key());
            }
        }
    }
}

impl<T: Token> Bag<T> {
    /// No token is stored twice.
    pub closed spec fn wf(&self) -> bool {
        distinct_keys(self.items@)
    }

    /// The empty set.
    pub fn new() -> (r: Self)
        ensures
            r.wf(),
            r@ == Set::<TokenKey>::empty(),
    {
        let r = Bag { items: Vec::new() };
        proof {
            assert(r@ =~= Set::<TokenKey>::empty());
        }
        r
    }

    /// How many tokens the set has.
    pub fn len(&self) -> (r: usize)
        requires
            self.wf(),
        ensures
            self@.finite(),
            r == self@.len(),
    {
        proof {
            keys_of_len(self.items@);
        }
        self.items.len()
    }

    /// Whether the set is empty.
    pub fn is_empty(&self) -> (r: bool)
        ensures
            r == (self@ == Set::<TokenKey>::empty()),
    {
        proof {
            if self.items@.len() > 0 {
                assert(self@.contains(self.items@[0].key()));
            } else {
                assert(self@ =~= Set::<TokenKey>::empty());
            }
        }
        self.items.len() == 0
    }

    /// Whether the set has the token.
    pub fn contains(&self, t: &T) -> (r: bool)
        ensures
            r == self@.contains(t.key()),
    {
        let mut i: usize = 0;
        while i < self.items.len()
            invariant
                i <= self.items@.len(),
                forall|j: int| 0 <= j < i ==> (#[trigger] self.items@[j]).key() != t.key(),
            decreases self.items@.len() - i,
        {
            if self.items[i].is(t) {
                assert(self.items@[i as int].key() == t.key());
                return true;
            }
            i += 1;
        }
        false
    }

    /// Add a token; false when it was there already.
    pub fn insert(&mut self, t: T) -> (r: bool)
        requires
            old(self).wf(),
        ensures
            final(self).wf(),
            final(self)@ == old(self)@.insert(t.key()),
            r == !old(self)@.contains(t.key()),
    {
        if self.contains(&t) {
            proof {
                assert(self@ =~= old(self)@.insert(t.key()));
            }
            return false;
        }
        proof {
            keys_of_push(self.items@, t);
        }
        self.items.push(t);
        proof {
            let s = self.items@;
            let o = old(self).items@;
            assert forall|i: int, j: int| 0 <= i < j < s.len() implies (#[trigger] s[i]).key() != (
            #[trigger] s[j]).key() by {
                assert(s[i] == o[i]);
                if j < o.len() {
                    assert(s[j] == o[j]);
                } else {
                    if o[i].key() == t.key() {
                        assert(old(self)@.contains(t.key()));
                    }
                }
            }
        }
        true
    }

    /// Add all tokens of a list.
    pub fn extend(&mut self, items: &[T])
        requires
            old(self).wf(),
        ensures
            final(self).wf(),
            final(self)@ == old(self)@.union(keys_of(items@)),
    {
        let mut i: usize = 0;
        proof {
            assert(keys_of(items@.take(0)) =~= Set::<TokenKey>::empty());
            assert(self@ =~= old(self)@.union(keys_of(items@.take(0))));
        }
        while i < items.len()
            invariant
                i <= items@.len(),
                self.wf(),
                self@ == old(self)@.union(keys_of(items@.take(i as int))),
            decreases items@.len() - i,
        {
            proof {
                keys_of_step(items@, i as int);
            }
            self.insert(items[i]);
            proof {
                assert(self@ =~= old(self)@.union(keys_of(items@.take(i + 1))));
            }
            i += 1;
        }
        proof {
            assert(items@.take(i as int) =~= items@);
        }
    }

    /// Take a token out.
    pub fn remove(&mut self, t: &T)
        requires
            old(self).wf(),
        ensures
            final(self).wf(),
            final(self)@ == old(self)@.remove(t.key()),
    {
        let ghost v = self.items@;
        let mut i: usize = 0;
        while i < self.items.len()
            invariant
                i <= self.items@.len(),
                self.items@ == v,
                v == old(self).items@,
                distinct_keys(v),
                forall|j: int| 0 <= j < i ==> (#[trigger] v[j]).key() != t.key(),
            decreases self.items@.len() - i,
        {
            if self.items[i].is(t) {
                self.items.remove(i);
                proof {
                    let w = self.items@;
                    assert forall|a: int, b: int| 0 <= a < b < w.len() implies (
                    #[trigger] w[a]).key() != (#[trigger] w[b]).key() by {
                        assert(w[a] == v[if a < i { a } else { a + 1 }]);
                        assert(w[b] == v[if b < i { b } else { b + 1 }]);
                    }
                    assert forall|k: TokenKey| self@.contains(k) <==> old(self)@.remove(
                        t.key(),
                    ).contains(k) by {
                        if self@.contains(k) {
                            let x = choose|x: int|
                                0 <= x < w.len() && (#[trigger] w[x]).key() == k;
                            let m = if x < i { x } else { x + 1 };
                            assert(v[m].key() == k);
                            if m < i {
                                assert(v[m].key() != v[i as int].key());
                            } else {
                                assert(v[i as int].key() != v[m].key());
                            }
                        }
                        if old(self)@.remove(t.key()).contains(k) {
                            let x = choose|x: int|
                                0 <= x < v.len() && (#[trigger] v[x]).key() == k;
                            assert(w[if x < i { x } else { x - 1 }].key() == k);
                        }
                    }
                    assert(self@ =~= old(self)@.remove(t.key()));
                }
                return ;
            }
            i += 1;
        }
        proof {
            assert(self@ =~= old(self)@.remove(t.key()));
        }
    }

    /// Take all tokens of a list out.
    pub fn remove_all(&mut self, items: &[T])
        requires
            old(self).wf(),
        ensures
            final(self).wf(),
            final(self)@ == old(self)@.difference(keys_of(items@)),
    {
        let mut i: usize = 0;
        proof {
            assert(keys_of(items@.take(0)) =~= Set::<TokenKey>::empty());
            assert(self@ =~= old(self)@.difference(keys_of(items@.take(0))));
        }
        while i < items.len()
            invariant
                i <= items@.len(),
                self.wf(),
                self@ == old(self)@.difference(keys_of(items@.take(i as int))),
            decreases items@.len() - i,
        {
            proof {
                keys_of_step(items@, i as int);
            }
            self.remove(&items[i]);
            proof {
                assert(self@ =~= old(self)@.difference(keys_of(items@.take(i + 1))));
            }
            i += 1;
        }
        proof {
            assert(items@.take(i as int) =~= items@);
        }
    }
}

} // verus!
