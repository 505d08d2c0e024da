//! Lists of signals that the user put on pins.

use vstd::prelude::*;

use crate::h523_design::pin_of;
use crate::h523_design::without;
use crate::h523_design::LockView;
use crate::mcu_pinout::OwnedSignal;
use crate::mcu_pinout::PinId;
use crate::text;

verus! {

/// The value of a lock.
pub open spec fn lock_of(l: (OwnedSignal, PinId)) -> LockView {
    LockView { key: l.0.key(), pin: l.1 }
}

/// The values of locks.
pub open spec fn locks_of(v: Seq<(OwnedSignal, PinId)>) -> Seq<LockView> {
    v.map_values(|l: (OwnedSignal, PinId)| lock_of(l))
}

fn same_signal(a: &OwnedSignal, b: &OwnedSignal) -> (r: bool)
    ensures
        r == (a.key() == b.key()),
{
    text::same(a.peripheral.as_str(), b.peripheral.as_str()) && text::same(
        a.role.as_str(),
        b.role.as_str(),
    )
}

/// The pin that a signal is on.
pub fn find_pin(locks: &[(OwnedSignal, PinId)], owned: &OwnedSignal) -> (r: Option<PinId>)
    ensures
        r == pin_of(locks_of(locks@), owned.key(), 0),
{
    let ghost v = locks_of(locks@);
    let mut k: usize = 0;
    while k < locks.len()
        invariant
            k <= locks@.len(),
            v == locks_of(locks@),
            pin_of(v, owned.key(), 0) == pin_of(v, owned.key(), k as int),
        decreases locks@.len() - k,
    {
        proof {
            assert(v[k as int] == lock_of(locks@[k as int]));
        }
        if same_signal(&locks[k].0, owned) {
            return Some(locks[k].1);
        }
        k += 1;
    }
    None
}

/// The locks of other signals, and on other pins than the given one.
pub fn kept_locks(
    locks: &[(OwnedSignal, PinId)],
    owned: &OwnedSignal,
    pin: Option<PinId>,
) -> (r: Vec<(OwnedSignal, PinId)>)
    ensures
        locks_of(r@) == without(locks_of(locks@), owned.key(), pin, locks@.len() as int),
{
    let ghost v = locks_of(locks@);
    let ghost key = owned.key();
    let mut out: Vec<(OwnedSignal, PinId)> = Vec::new();
    let mut i: usize = 0;
    proof {
        assert(locks_of(out@) =~= without(v, key, pin, 0));
    }
    while i < locks.len()
        invariant
            i <= locks@.len(),
            v == locks_of(locks@),
            key == owned.key(),
            locks_of(out@) == without(v, key, pin, i as int),
        decreases locks@.len() - i,
    {
        let ghost had = out@;
        let l: &(OwnedSignal, PinId) = &locks[i];
        proof {
            assert(v[i as int] == lock_of(*l));
        }
        let same_pin: bool = match pin {
            Some(p) => l.1 == p,
            None => false,
        };
        if !same_signal(&l.0, owned) && !same_pin {
            let signal: OwnedSignal = OwnedSignal::new(
                l.0.peripheral.as_str(),
                l.0.role.as_str(),
            );
            out.push((signal, l.1));
            proof {
                assert(locks_of(out@) =~= locks_of(had).push(v[i as int]));
            }
        }
        i += 1;
    }
    out
}

/// The same locks again.
pub fn copy_locks(locks: &[(OwnedSignal, PinId)]) -> (r: Vec<(OwnedSignal, PinId)>)
    ensures
        locks_of(r@) == locks_of(locks@),
{
    let mut out: Vec<(OwnedSignal, PinId)> = Vec::new();
    let mut i: usize = 0;
    while i < locks.len()
        invariant
            i <= locks@.len(),
            out@.len() == i,
            forall|k: int| 0 <= k < i ==> lock_of(#[trigger] out@[k]) == lock_of(locks@[k]),
        decreases locks@.len() - i,
    {
        let l: &(OwnedSignal, PinId) = &locks[i];
        let s: OwnedSignal = OwnedSignal::new(l.0.peripheral.as_str(), l.0.role.as_str());
        out.push((s, l.1));
        i += 1;
    }
    proof {
        assert(locks_of(out@) =~= locks_of(locks@));
    }
    out
}

/// Whether two lists hold the same locks in the same order.
pub fn same_locks(a: &[(OwnedSignal, PinId)], b: &[(OwnedSignal, PinId)]) -> (r: bool)
    ensures
        r == (locks_of(a@) == locks_of(b@)),
{
    let ghost x = locks_of(a@);
    let ghost y = locks_of(b@);
    if a.len() != b.len() {
        assert(x.len() != y.len());
        return false;
    }
    let mut i: usize = 0;
    while i < a.len()
        invariant
            i <= a@.len(),
            a@.len() == b@.len(),
            x == locks_of(a@),
            y == locks_of(b@),
            forall|k: int| 0 <= k < i ==> x[k] == y[k],
        decreases a@.len() - i,
    {
        proof {
            assert(x[i as int] == lock_of(a@[i as int]));
            assert(y[i as int] == lock_of(b@[i as int]));
        }
        if a[i].1 != b[i].1 || !same_signal(&a[i].0, &b[i].0) {
            assert(x[i as int] != y[i as int]);
            return false;
        }
        i += 1;
    }
    proof {
        assert(x =~= y);
    }
    true
}

} // verus!
