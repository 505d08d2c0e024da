//! Claims and conflicts over tokens.
//!
//! A [`Ledger`] accumulates claimed tokens and reports a conflict exactly when a
//! claim reuses a held token or repeats one within itself.

use vstd::prelude::*;

use super::tokens::Res;
use crate::frontend_plan::copy_list;
use crate::tokens::keys_of;
use crate::tokens::keys_of_step;
use crate::tokens::Bag;
use crate::tokens::TokenKey;
use crate::tokens::Token;

verus! {

/// Anything that reserves resources when it is placed.
pub trait Consume {
    /// The tokens that this consumer holds in its current placement.
    spec fn tokens(&self) -> Seq<Res>;

    /// The tokens that this consumer holds in its current placement.
    fn consumed(&self) -> (r: Vec<Res>)
        ensures
            r@ == self.tokens(),
    ;
}

/// A consumer that holds a fixed list of tokens.
#[derive(Clone, Debug)]
pub struct Holding {
    pub items: Vec<Res>,
}

impl Consume for Holding {
    open spec fn tokens(&self) -> Seq<Res> {
        self.items@
    }

    fn consumed(&self) -> (r: Vec<Res>) {
        copy_list(&self.items)
    }
}

/// A running tally of claimed tokens.
#[derive(Clone, Debug)]
pub struct Ledger {
    held: Bag<Res>,
}

/// Whether the token at position `i` cannot be claimed: it is held, or an earlier
/// one of the same claim is the same token.
pub open spec fn conflicts_at(held: Set<TokenKey>, items: Seq<Res>, i: int) -> bool {
    held.contains(items[i].key()) || keys_of(items.take(i)).contains(items[i].key())
}

/// The tokens among the first `n` that cannot be claimed, in order.
pub open spec fn conflicts_upto(held: Set<TokenKey>, items: Seq<Res>, n: int) -> Seq<Res>
    decreases n,
{
    if n <= 0 {
        Seq::empty()
    } else if conflicts_at(held, items, n - 1) {
        conflicts_upto(held, items, n - 1).push(items[n - 1])
    } else {
        conflicts_upto(held, items, n - 1)
    }
}

/// The tokens of a claim that cannot be claimed.
pub open spec fn conflicts_of(held: Set<TokenKey>, items: Seq<Res>) -> Seq<Res> {
    conflicts_upto(held, items, items.len() as int)
}

/// Whether a claim goes through: nothing in it is held or repeated.
pub open spec fn claimable(held: Set<TokenKey>, items: Seq<Res>) -> bool {
    conflicts_of(held, items).len() == 0
}

proof fn no_conflict_upto(held: Set<TokenKey>, items: Seq<Res>, n: int)
    requires
        0 <= n <= items.len(),
    ensures
        (conflicts_upto(held, items, n).len() == 0) <==> (forall|i: int|
            0 <= i < n ==> !#[trigger] conflicts_at(held, items, i)),
    decreases n,
{
    if n > 0 {
        no_conflict_upto(held, items, n - 1);
        assert(conflicts_at(held, items, n - 1) || !conflicts_at(held, items, n - 1));
    }
}

/// A claim goes through exactly when its tokens are free and different.
pub proof fn claimable_means_free_and_distinct(held: Set<TokenKey>, items: Seq<Res>)
    ensures
        claimable(held, items) <==> (keys_of(items).disjoint(held)
            && crate::tokens::distinct_keys(items)),
{
    no_conflict_upto(held, items, items.len() as int);
    if claimable(held, items) {
        assert forall|k: TokenKey| keys_of(items).contains(k) implies !held.contains(k) by {
            let i = choose|i: int| 0 <= i < items.len() && (#[trigger] items[i]).key() == k;
            assert(!conflicts_at(held, items, i));
        }
        assert forall|i: int, j: int| 0 <= i < j < items.len() implies (#[trigger] items[i]).key()
            != (#[trigger] items[j]).key() by {
            assert(!conflicts_at(held, items, j));
            assert(items.take(j)[i] == items[i]);
        }
    }
    if keys_of(items).disjoint(held) && crate::tokens::distinct_keys(items) {
        assert forall|i: int| 0 <= i < items.len() implies !#[trigger] conflicts_at(
            held,
            items,
            i,
        ) by {
            assert(keys_of(items).contains(items[i].key()));
            if keys_of(items.take(i)).contains(items[i].key()) {
                let j = choose|j: int|
                    0 <= j < items.take(i).len() && (#[trigger] items.take(i)[j]).key()
                        == items[i].key();
                assert(items[j].key() == items[i].key());
            }
        }
    }
}

/// Releasing a claim that went through gives back what was held before it.
pub proof fn release_undoes_claim(held: Set<TokenKey>, items: Seq<Res>)
    requires
        claimable(held, items),
    ensures
        held.union(keys_of(items)).difference(keys_of(items)) == held,
{
    claimable_means_free_and_distinct(held, items);
    assert(held.union(keys_of(items)).difference(keys_of(items)) =~= held);
}

impl Ledger {
    /// The keys of the tokens claimed so far.
    pub closed spec fn claimed(&self) -> Set<TokenKey> {
        self.held@
    }

    /// The tally is a set.
    pub closed spec fn wf(&self) -> bool {
        self.held.wf()
    }

    /// Nothing claimed.
    pub fn new() -> (r: Self)
        ensures
            r.wf(),
            r.claimed() == Set::<TokenKey>::empty(),
    {
        Ledger { held: Bag::new() }
    }

    /// The tokens claimed so far.
    pub fn held(&self) -> (r: &Bag<Res>)
        ensures
            r@ == self.claimed(),
            self.wf() ==> r.wf(),
    {
        &self.held
    }

    /// Whether nothing is claimed.
    pub fn is_empty(&self) -> (r: bool)
        ensures
            r == (self.claimed() == Set::<TokenKey>::empty()),
    {
        self.held.is_empty()
    }

    /// The tokens in `items` that cannot be claimed: held already, or repeated
    /// within `items`. In the order of `items`, a token once per extra use.
    pub fn conflicts(&self, items: &[Res]) -> (r: Vec<Res>)
        ensures
            r@ == conflicts_of(self.claimed(), items@),
    {
        let mut within: Bag<Res> = Bag::new();
        let mut out: Vec<Res> = Vec::new();
        let mut i: usize = 0;
        proof {
            assert(keys_of(items@.take(0)) =~= Set::<TokenKey>::empty());
        }
        while i < items.len()
            invariant
                i <= items@.len(),
                within.wf(),
                within@ == keys_of(items@.take(i as int)),
                out@ == conflicts_upto(self.claimed(), items@, i as int),
            decreases items@.len() - i,
        {
            let t: Res = items[i];
            proof {
                keys_of_step(items@, i as int);
            }
            let fresh: bool = within.insert(t);
            if self.held.contains(&t) || !fresh {
                out.push(t);
            }
            i += 1;
        }
        out
    }

    /// Whether `items` collides with nothing held and repeats nothing.
    pub fn can_claim(&self, items: &[Res]) -> (r: bool)
        ensures
            r == claimable(self.claimed(), items@),
    {
        self.conflicts(items).len() == 0
    }

    /// Claim all of `items` or, on any conflict, nothing; the error is the
    /// conflicting tokens.
    pub fn claim(&mut self, items: &[Res]) -> (r: Result<(), Vec<Res>>)
        requires
            old(self).wf(),
        ensures
            final(self).wf(),
            claimable(old(self).claimed(), items@) ==> r is Ok && final(self).claimed() == old(
                self,
            ).claimed().union(keys_of(items@)),
            !claimable(old(self).claimed(), items@) ==> final(self).claimed() == old(
                self,
            ).claimed() && r is Err && r->Err_0@ == conflicts_of(old(self).claimed(), items@),
    {
        let conflict: Vec<Res> = self.conflicts(items);
        if conflict.len() > 0 {
            return Err(conflict);
        }
        self.held.extend(items);
        Ok(())
    }

    /// Claim a consumer's current tokens.
    pub fn claim_consumer<C: Consume>(&mut self, c: &C) -> (r: Result<(), Vec<Res>>)
        requires
            old(self).wf(),
        ensures
            final(self).wf(),
            claimable(old(self).claimed(), c.tokens()) ==> r is Ok && final(self).claimed() == old(
                self,
            ).claimed().union(keys_of(c.tokens())),
            !claimable(old(self).claimed(), c.tokens()) ==> final(self).claimed() == old(
                self,
            ).claimed() && r is Err && r->Err_0@ == conflicts_of(old(self).claimed(), c.tokens()),
    {
        let items: Vec<Res> = c.consumed();
        self.claim(&items)
    }

    /// Release tokens; those that are not held are ignored.
    pub fn release(&mut self, items: &[Res])
        requires
            old(self).wf(),
        ensures
            final(self).wf(),
            final(self).claimed() == old(self).claimed().difference(keys_of(items@)),
    {
        self.held.remove_all(items);
    }
}

/// What the first `n` consumers hold together, but for the one at `skip`.
pub open spec fn held_excluding<C: Consume>(consumers: Seq<C>, skip: int, n: int) -> Set<TokenKey>
    decreases n,
{
    if n <= 0 {
        Set::empty()
    } else if n - 1 == skip {
        held_excluding(consumers, skip, n - 1)
    } else {
        held_excluding(consumers, skip, n - 1).union(keys_of(consumers[n - 1].tokens()))
    }
}

/// What all consumers hold together, but for the one at `skip`.
pub fn used_excluding<C: Consume>(consumers: &[C], skip: usize) -> (r: Bag<Res>)
    ensures
        r.wf(),
        r@ == held_excluding(consumers@, skip as int, consumers@.len() as int),
{
    let mut s: Bag<Res> = Bag::new();
    let mut i: usize = 0;
    while i < consumers.len()
        invariant
            i <= consumers@.len(),
            s.wf(),
            s@ == held_excluding(consumers@, skip as int, i as int),
        decreases consumers@.len() - i,
    {
        if i != skip {
            let items: Vec<Res> = consumers[i].consumed();
            s.extend(&items);
        }
        i += 1;
    }
    s
}

/// What the first `n` consumers hold together.
pub open spec fn held_together<C: Consume>(consumers: Seq<C>, n: int) -> Set<TokenKey>
    decreases n,
{
    if n <= 0 {
        Set::empty()
    } else {
        held_together(consumers, n - 1).union(keys_of(consumers[n - 1].tokens()))
    }
}

/// Whether consumer `i` can claim its tokens after all before it have.
pub open spec fn places<C: Consume>(consumers: Seq<C>, i: int) -> bool {
    claimable(held_together(consumers, i), consumers[i].tokens())
}

/// Claim each consumer's tokens in order. The ledger when they all fit; else the
/// first consumer that collides, with its conflicting tokens.
pub fn place_greedy<C: Consume>(consumers: &[C]) -> (r: Result<Ledger, (usize, Vec<Res>)>)
    ensures
        r is Ok <==> forall|i: int| 0 <= i < consumers@.len() ==> #[trigger] places(consumers@, i),
        r matches Ok(led) ==> led.wf() && led.claimed() == held_together(
            consumers@,
            consumers@.len() as int,
        ),
        r matches Err((i, conflict)) ==> {
            &&& i < consumers@.len()
            &&& !places(consumers@, i as int)
            &&& forall|j: int| 0 <= j < i ==> #[trigger] places(consumers@, j)
            &&& conflict@ == conflicts_of(
                held_together(consumers@, i as int),
                consumers@[i as int].tokens(),
            )
        },
{
    let mut led: Ledger = Ledger::new();
    let mut i: usize = 0;
    while i < consumers.len()
        invariant
            i <= consumers@.len(),
            led.wf(),
            led.claimed() == held_together(consumers@, i as int),
            forall|j: int| 0 <= j < i ==> #[trigger] places(consumers@, j),
        decreases consumers@.len() - i,
    {
        match led.claim_consumer(&consumers[i]) {
            Err(conflict) => {
                assert(!places(consumers@, i as int));
                return Err((i, conflict));
            },
            Ok(_) => {
                assert(places(consumers@, i as int));
            },
        }
        i += 1;
    }
    Ok(led)
}

} // verus!
