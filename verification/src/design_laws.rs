//! What editing a design does to its locks and uses, what it lacks on a chip, and what it is
//! lowered to.

use vstd::prelude::*;

use crate::h523_design::last_on_pins;
use crate::h523_design::locked;
use crate::h523_design::open_placements;
use crate::h523_design::other_locks;
use crate::h523_design::pin_of;
use crate::h523_design::pin_taken;
use crate::h523_design::plan_of;
use crate::h523_design::problems_of;
use crate::h523_design::problems_upto;
use crate::h523_design::signal_on;
use crate::h523_design::texts_but;
use crate::h523_design::unlocked;
use crate::h523_design::wanted;
use crate::h523_design::with_role;
use crate::h523_design::with_use;
use crate::h523_design::without;
use crate::h523_design::without_use;
use crate::h523_design::DesignView;
use crate::h523_design::LockView;
use crate::h523_design::ProblemView;
use crate::h523_design::UseView;
use crate::lists::grows;
use crate::lists::pushed;
use crate::lowering_laws::can_carry;
use crate::lowering_laws::row_offers;
use crate::lowering_laws::sorted_come_from;
use crate::mcu_pinout::rows_of;
use crate::mcu_pinout::AfRow;
use crate::mcu_pinout::PinId;
use crate::mcu_raw::RawMcuData;
use crate::pin_plan::PinOrigin;
use crate::pin_plan::PlacementView;

verus! {

proof fn without_keeps(
    locks: Seq<LockView>,
    key: (Seq<char>, Seq<char>),
    pin: Option<PinId>,
    n: int,
    l: LockView,
)
    requires
        0 <= n <= locks.len(),
    ensures
        without(locks, key, pin, n).contains(l) <==> locks.take(n).contains(l) && l.key != key
            && Some(l.pin) != pin,
    decreases n,
{
    let now = locks.take(n);
    let r = without(locks, key, pin, n);
    if n > 0 {
        without_keeps(locks, key, pin, n - 1, l);
        grows(locks, n, l);
        pushed(without(locks, key, pin, n - 1), r, locks[n - 1], l);
    }
}

/// Locking a signal to a pin takes away what was locked to that pin and where the signal was
/// locked, and nothing else; unlocking takes away the signal's locks and nothing else.
pub proof fn locking_moves_one_signal(
    locks: Seq<LockView>,
    key: (Seq<char>, Seq<char>),
    pin: PinId,
    l: LockView,
)
    ensures
        locked(locks, key, pin).contains(l) <==> (l.key == key && l.pin == pin) || (l.key != key
            && l.pin != pin && locks.contains(l)),
        unlocked(locks, key).contains(l) <==> l.key != key && locks.contains(l),
{
    let n = locks.len() as int;
    let u = without(locks, key, Some(pin), n);
    assert(locks.take(n) =~= locks);
    without_keeps(locks, key, Some(pin), n, l);
    without_keeps(locks, key, None, n, l);
    pushed(u, locked(locks, key, pin), LockView { key, pin }, l);
}

/// A signal is where its first lock says, and a pin carries what its first lock says.
pub proof fn the_first_lock_is_read(locks: Seq<LockView>, key: (Seq<char>, Seq<char>), pin: PinId)
    ensures
        pin_of(locks, key, 0) is None <==> forall|i: int|
            0 <= i < locks.len() ==> (#[trigger] locks[i]).key != key,
        pin_of(locks, key, 0) matches Some(p) ==> exists|i: int|
            0 <= i < locks.len() && (#[trigger] locks[i]).key == key && locks[i].pin == p
                && forall|j: int| 0 <= j < i ==> (#[trigger] locks[j]).key != key,
        signal_on(locks, pin, 0) is None <==> forall|i: int|
            0 <= i < locks.len() ==> (#[trigger] locks[i]).pin != pin,
        signal_on(locks, pin, 0) matches Some(k) ==> exists|i: int|
            0 <= i < locks.len() && (#[trigger] locks[i]).pin == pin && locks[i].key == k
                && forall|j: int| 0 <= j < i ==> (#[trigger] locks[j]).pin != pin,
{
    pin_is_first(locks, key, 0);
    signal_is_first(locks, pin, 0);
}

proof fn pin_is_first(locks: Seq<LockView>, key: (Seq<char>, Seq<char>), k: int)
    requires
        0 <= k,
        forall|j: int| 0 <= j < k && j < locks.len() ==> (#[trigger] locks[j]).key != key,
    ensures
        pin_of(locks, key, k) is None <==> forall|i: int|
            k <= i < locks.len() ==> (#[trigger] locks[i]).key != key,
        pin_of(locks, key, k) matches Some(p) ==> exists|i: int|
            0 <= i < locks.len() && (#[trigger] locks[i]).key == key && locks[i].pin == p
                && forall|j: int| 0 <= j < i ==> (#[trigger] locks[j]).key != key,
    decreases locks.len() - k,
{
    if k < locks.len() {
        if locks[k].key != key {
            pin_is_first(locks, key, k + 1);
        }
    }
}

proof fn signal_is_first(locks: Seq<LockView>, pin: PinId, k: int)
    requires
        0 <= k,
        forall|j: int| 0 <= j < k && j < locks.len() ==> (#[trigger] locks[j]).pin != pin,
    ensures
        signal_on(locks, pin, k) is None <==> forall|i: int|
            k <= i < locks.len() ==> (#[trigger] locks[i]).pin != pin,
        signal_on(locks, pin, k) matches Some(s) ==> exists|i: int|
            0 <= i < locks.len() && (#[trigger] locks[i]).pin == pin && locks[i].key == s
                && forall|j: int| 0 <= j < i ==> (#[trigger] locks[j]).pin != pin,
    decreases locks.len() - k,
{
    if k < locks.len() {
        if locks[k].pin != pin {
            signal_is_first(locks, pin, k + 1);
        }
    }
}

proof fn last_ones(locks: Seq<LockView>, n: int)
    requires
        0 <= n <= locks.len(),
    ensures
        ({
            let v = last_on_pins(locks, n);
            &&& forall|k: int|
                0 <= k < v.len() ==> exists|i: int|
                    0 <= i < n && locks[i] == #[trigger] v[k] && #[trigger] is_last_on_pin(locks, i)
            &&& forall|i: int|
                0 <= i < n && #[trigger] is_last_on_pin(locks, i) ==> v.contains(locks[i])
        }),
    decreases n,
{
    if n > 0 {
        last_ones(locks, n - 1);
        let had = last_on_pins(locks, n - 1);
        let v = last_on_pins(locks, n);
        assert(pin_taken(locks, locks[n - 1].pin, n) <==> !is_last_on_pin(locks, n - 1));
        assert forall|k: int| 0 <= k < v.len() implies exists|i: int|
            0 <= i < n && locks[i] == #[trigger] v[k] && #[trigger] is_last_on_pin(locks, i) by {
            if k < had.len() {
                let i = choose|i: int|
                    0 <= i < n - 1 && locks[i] == had[k] && #[trigger] is_last_on_pin(locks, i);
                assert(locks[i] == v[k] && is_last_on_pin(locks, i));
            } else {
                assert(locks[n - 1] == v[k] && is_last_on_pin(locks, n - 1));
            }
        }
        assert forall|i: int| 0 <= i < n && #[trigger] is_last_on_pin(locks, i) implies v.contains(
            locks[i],
        ) by {
            if i < n - 1 {
                let x = choose|x: int| 0 <= x < had.len() && had[x] == locks[i];
                assert(v[x] == locks[i]);
            } else {
                assert(v[v.len() - 1] == locks[i]);
            }
        }
    }
}

/// Whether no later lock is on a lock's pin.
pub open spec fn is_last_on_pin(locks: Seq<LockView>, i: int) -> bool {
    0 <= i < locks.len() && forall|j: int|
        i < j < locks.len() ==> (#[trigger] locks[j]).pin != locks[i].pin
}

/// Of several locks on one pin the last one stands, and only that one.
pub proof fn the_last_lock_on_a_pin_stands(locks: Seq<LockView>, l: LockView)
    ensures
        last_on_pins(locks, locks.len() as int).contains(l) <==> exists|i: int|
            #[trigger] is_last_on_pin(locks, i) && locks[i] == l,
{
    last_ones(locks, locks.len() as int);
    let v = last_on_pins(locks, locks.len() as int);
    if v.contains(l) {
        let k = choose|k: int| 0 <= k < v.len() && v[k] == l;
        assert(v[k] == l);
    }
}

/// Declaring a use adds it where its peripheral is not in use, and changes nothing else.
pub proof fn a_peripheral_is_used_once(d: DesignView, peripheral: Seq<char>, roles: Seq<Seq<char>>)
    ensures
        ({
            let e = with_use(d, peripheral, roles);
            let there = exists|i: int|
                0 <= i < d.uses.len() && (#[trigger] d.uses[i]).peripheral == peripheral;
            &&& e.locks == d.locks && e.format_version == d.format_version
            &&& there ==> e.uses == d.uses
            &&& !there ==> e.uses == d.uses.push(UseView { peripheral, roles, note: ""@ })
        }),
{
    reveal_strlit("");
    assert(""@ =~= Seq::<char>::empty());
}

proof fn others_stay(locks: Seq<LockView>, peripheral: Seq<char>, n: int, l: LockView)
    requires
        0 <= n <= locks.len(),
    ensures
        other_locks(locks, peripheral, n).contains(l) <==> locks.take(n).contains(l) && l.key.0
            != peripheral,
    decreases n,
{
    if n > 0 {
        others_stay(locks, peripheral, n - 1, l);
        grows(locks, n, l);
        pushed(
            other_locks(locks, peripheral, n - 1),
            other_locks(locks, peripheral, n),
            locks[n - 1],
            l,
        );
    }
}

/// Removing a use takes its peripheral's locks with it, and nothing else.
pub proof fn removing_a_use_frees_its_pins(d: DesignView, index: int, l: LockView)
    requires
        0 <= index < d.uses.len(),
    ensures
        without_use(d, index).uses == d.uses.take(index) + d.uses.skip(index + 1),
        without_use(d, index).locks.contains(l) <==> d.locks.contains(l) && l.key.0
            != d.uses[index].peripheral,
{
    others_stay(d.locks, d.uses[index].peripheral, d.locks.len() as int, l);
    assert(d.locks.take(d.locks.len() as int) =~= d.locks);
    assert(d.uses.remove(index) =~= d.uses.take(index) + d.uses.skip(index + 1));
}

proof fn texts_stay(v: Seq<Seq<char>>, s: Seq<char>, n: int, t: Seq<char>)
    requires
        0 <= n <= v.len(),
    ensures
        texts_but(v, s, n).contains(t) <==> v.take(n).contains(t) && t != s,
    decreases n,
{
    if n > 0 {
        texts_stay(v, s, n - 1, t);
        grows(v, n, t);
        pushed(texts_but(v, s, n - 1), texts_but(v, s, n), v[n - 1], t);
    }
}

/// Switching a role on lists it and leaves the locks; switching it off unlists it and takes
/// its lock away. The other roles, uses and locks stay.
pub proof fn switching_a_role(
    d: DesignView,
    index: int,
    role: Seq<char>,
    on: bool,
    other: Seq<char>,
    l: LockView,
)
    requires
        0 <= index < d.uses.len(),
    ensures
        ({
            let e = with_role(d, index, role, on);
            let was = d.uses[index];
            let is = e.uses[index];
            &&& e.uses.len() == d.uses.len()
            &&& forall|i: int|
                0 <= i < d.uses.len() && i != index ==> #[trigger] e.uses[i] == d.uses[i]
            &&& is.peripheral == was.peripheral && is.note == was.note
            &&& is.roles.contains(role) <==> on
            &&& other != role ==> (is.roles.contains(other) <==> was.roles.contains(other))
            &&& on ==> e.locks == d.locks
            &&& !on && was.roles.contains(role) ==> (e.locks.contains(l) <==> d.locks.contains(l)
                && l.key != (was.peripheral, role))
            &&& !on && !was.roles.contains(role) ==> e.locks == d.locks
        }),
{
    let u = d.uses[index];
    let e = with_role(d, index, role, on);
    locking_moves_one_signal(d.locks, (u.peripheral, role), l.pin, l);
    if on && !u.roles.contains(role) {
        pushed(u.roles, u.roles.push(role), role, role);
        pushed(u.roles, u.roles.push(role), role, other);
        assert(e.uses[index].roles == u.roles.push(role));
    } else if !on && u.roles.contains(role) {
        texts_stay(u.roles, role, u.roles.len() as int, role);
        texts_stay(u.roles, role, u.roles.len() as int, other);
        assert(u.roles.take(u.roles.len() as int) =~= u.roles);
    }
}

/// Whether a use wants a signal.
pub open spec fn wants(d: DesignView, key: (Seq<char>, Seq<char>)) -> bool {
    exists|i: int|
        0 <= i < d.uses.len() && (#[trigger] d.uses[i]).peripheral == key.0
            && d.uses[i].roles.contains(key.1)
}

proof fn wanted_are_wanted(uses: Seq<UseView>, n: int, key: (Seq<char>, Seq<char>))
    requires
        0 <= n <= uses.len(),
    ensures
        wanted(uses, n).contains(key) <==> exists|i: int|
            0 <= i < n && (#[trigger] uses[i]).peripheral == key.0 && uses[i].roles.contains(key.1),
    decreases n,
{
    if n > 0 {
        wanted_are_wanted(uses, n - 1, key);
        let had = wanted(uses, n - 1);
        let u = uses[n - 1];
        let v = wanted(uses, n);
        if u.peripheral == key.0 && u.roles.contains(key.1) {
            let x = choose|x: int| 0 <= x < u.roles.len() && u.roles[x] == key.1;
            assert(v[had.len() + x] == key);
        }
        if had.contains(key) {
            let x = choose|x: int| 0 <= x < had.len() && had[x] == key;
            assert(v[x] == key);
        }
        if v.contains(key) {
            let x = choose|x: int| 0 <= x < v.len() && v[x] == key;
            if x < had.len() {
                assert(had[x] == key);
            } else {
                assert(u.roles[x - had.len()] == key.1);
                assert(uses[n - 1].peripheral == key.0);
            }
        }
    }
}

proof fn problems_are_of_signals(
    signals: Seq<(Seq<char>, Seq<char>)>,
    locks: Seq<LockView>,
    rows: Seq<AfRow>,
    n: int,
    p: ProblemView,
)
    requires
        0 <= n <= signals.len(),
    ensures
        problems_upto(signals, locks, rows, n).contains(p) <==> match p {
            ProblemView::Unreachable { peripheral, role } => signals.take(n).contains(
                (peripheral, role),
            ) && !crate::h523_design::is_reachable(rows, (peripheral, role)),
            ProblemView::Unplaced { peripheral, role } => signals.take(n).contains(
                (peripheral, role),
            ) && crate::h523_design::is_reachable(rows, (peripheral, role))
                && !crate::h523_design::is_placed(locks, rows, (peripheral, role)),
        },
    decreases n,
{
    if n > 0 {
        problems_are_of_signals(signals, locks, rows, n - 1, p);
        let key = match p {
            ProblemView::Unreachable { peripheral, role } => (peripheral, role),
            ProblemView::Unplaced { peripheral, role } => (peripheral, role),
        };
        grows(signals, n, key);
        let had = problems_upto(signals, locks, rows, n - 1);
        let now = problems_upto(signals, locks, rows, n);
        let s = signals[n - 1];
        if !crate::h523_design::is_reachable(rows, s) {
            pushed(had, now, ProblemView::Unreachable { peripheral: s.0, role: s.1 }, p);
        } else {
            pushed(had, now, ProblemView::Unplaced { peripheral: s.0, role: s.1 }, p);
        }
    }
}

/// Whether a signal is on a pin of the chip.
pub open spec fn is_on_chip(raw: RawMcuData, key: (Seq<char>, Seq<char>)) -> bool {
    exists|p: PinId| #[trigger] can_carry(raw, key, p)
}

/// A wanted signal is reported as out of reach where the chip has it on no pin, as open where
/// it has one and the signal's lock is not on one of them; and nothing else is reported.
pub proof fn problems_are_what_is_missing(
    d: DesignView,
    raw: RawMcuData,
    peripheral: Seq<char>,
    role: Seq<char>,
)
    ensures
        problems_of(d, raw).contains(ProblemView::Unreachable { peripheral, role }) <==> wants(
            d,
            (peripheral, role),
        ) && !is_on_chip(raw, (peripheral, role)),
        problems_of(d, raw).contains(ProblemView::Unplaced { peripheral, role }) <==> wants(
            d,
            (peripheral, role),
        ) && is_on_chip(raw, (peripheral, role)) && !(pin_of(d.locks, (peripheral, role), 0) matches Some(
            p,
        ) && can_carry(raw, (peripheral, role), p)),
{
    let key = (peripheral, role);
    let rows = rows_of(raw);
    let signals = wanted(d.uses, d.uses.len() as int);
    wanted_are_wanted(d.uses, d.uses.len() as int, key);
    assert(signals.take(signals.len() as int) =~= signals);
    problems_are_of_signals(
        signals,
        d.locks,
        rows,
        signals.len() as int,
        ProblemView::Unreachable { peripheral, role },
    );
    problems_are_of_signals(
        signals,
        d.locks,
        rows,
        signals.len() as int,
        ProblemView::Unplaced { peripheral, role },
    );
    if crate::h523_design::is_reachable(rows, key) {
        let i = choose|i: int|
            0 <= i < rows.len() && (#[trigger] rows[i]).signal.peripheral@ == key.0
                && rows[i].signal.role@ == key.1;
        assert(row_offers(rows[i], key, rows[i].pin));
        assert(can_carry(raw, key, rows[i].pin));
    }
    if is_on_chip(raw, key) {
        let p = choose|p: PinId| #[trigger] can_carry(raw, key, p);
        let i = choose|i: int| 0 <= i < rows.len() && row_offers(#[trigger] rows[i], key, p);
        assert(rows[i].signal.role@ == key.1);
    }
    if let Some(p) = pin_of(d.locks, key, 0) {
        if can_carry(raw, key, p) {
            let i = choose|i: int| 0 <= i < rows.len() && row_offers(#[trigger] rows[i], key, p);
            assert(rows[i].pin == p);
        }
        if crate::h523_design::carries(rows, key, p) {
            let i = choose|i: int|
                0 <= i < rows.len() && (#[trigger] rows[i]).signal.peripheral@ == key.0
                    && rows[i].signal.role@ == key.1 && rows[i].pin == p;
            assert(row_offers(rows[i], key, p));
        }
    }
}

proof fn open_ones(
    signals: Seq<(Seq<char>, Seq<char>)>,
    locks: Seq<LockView>,
    n: int,
)
    requires
        0 <= n <= signals.len(),
    ensures
        ({
            let v = open_placements(signals, locks, n);
            &&& v.len() <= n
            &&& forall|k: int|
                0 <= k < v.len() ==> (#[trigger] v[k]).pin is None && v[k].af is None
                    && signals.contains(v[k].signal) && pin_of(locks, v[k].signal, 0) is None
            &&& forall|i: int|
                0 <= i < n && pin_of(locks, #[trigger] signals[i], 0) is None ==> has_signal(
                    v,
                    signals[i],
                )
        }),
    decreases n,
{
    if n > 0 {
        open_ones(signals, locks, n - 1);
        let had = open_placements(signals, locks, n - 1);
        let v = open_placements(signals, locks, n);
        assert forall|k: int| 0 <= k < v.len() implies (#[trigger] v[k]).pin is None
            && v[k].af is None && signals.contains(v[k].signal) && pin_of(locks, v[k].signal, 0) is None by {
            if k < had.len() {
                assert(v[k] == had[k]);
            } else {
                assert(v[k].signal == signals[n - 1]);
            }
        }
        assert forall|i: int| 0 <= i < n && pin_of(locks, #[trigger] signals[i], 0) is None implies has_signal(
            v,
            signals[i],
        ) by {
            if i < n - 1 {
                assert(has_signal(had, signals[i]));
                let k = choose|k: int|
                    0 <= k < had.len() && (#[trigger] had[k]).signal == signals[i];
                assert(v[k].signal == signals[i]);
            } else {
                assert(v[v.len() - 1].signal == signals[i]);
            }
        }
    }
}

/// Whether one of the placements is of a signal.
spec fn has_signal(v: Seq<PlacementView>, key: (Seq<char>, Seq<char>)) -> bool {
    exists|k: int| 0 <= k < v.len() && (#[trigger] v[k]).signal == key
}

/// Whether one of the placements has a signal on a pin, or on none.
pub open spec fn places(
    v: Seq<PlacementView>,
    key: (Seq<char>, Seq<char>),
    pin: Option<PinId>,
) -> bool {
    exists|k: int| 0 <= k < v.len() && (#[trigger] v[k]).signal == key && v[k].pin == pin
}

/// A lowered design has a signal on a pin exactly where a lock says so, and without a pin
/// exactly where a use wants it and nothing locks it.
pub proof fn a_lowered_design_has_its_locks(
    d: DesignView,
    raw: RawMcuData,
    package: Seq<char>,
    family: Seq<char>,
    key: (Seq<char>, Seq<char>),
    pin: PinId,
)
    requires
        d.locks.len() + wanted(d.uses, d.uses.len() as int).len() <= usize::MAX,
    ensures
        places(plan_of(d, raw, package, family).placements, key, Some(pin)) <==> d.locks.contains(
            LockView { key, pin },
        ),
        places(plan_of(d, raw, package, family).placements, key, None) <==> wants(d, key)
            && forall|i: int| 0 <= i < d.locks.len() ==> (#[trigger] d.locks[i]).key != key,
        forall|k: int|
            0 <= k < plan_of(d, raw, package, family).placements.len() ==> (
            #[trigger] plan_of(d, raw, package, family).placements[k]).origin == PinOrigin::Locked,
{
    let signals = wanted(d.uses, d.uses.len() as int);
    let a = crate::h523_design::lock_placements(d.locks, rows_of(raw), d.locks.len() as int);
    let b = open_placements(signals, d.locks, signals.len() as int);
    open_ones(signals, d.locks, signals.len() as int);
    open_are_locked(signals, d.locks, signals.len() as int);
    wanted_are_wanted(d.uses, d.uses.len() as int, key);
    the_first_lock_is_read(d.locks, key, pin);
    let v = a + b;
    let from = sorted_come_from(v);
    let w = plan_of(d, raw, package, family).placements;
    assert(w == crate::pin_plan::sorted_placements(v));
    assert forall|q: Option<PinId>| places(w, key, q) <==> #[trigger] places(v, key, q) by {
        if places(w, key, q) {
            let k = choose|k: int| 0 <= k < w.len() && (#[trigger] w[k]).signal == key && w[k].pin == q;
            assert(v[from[k]].signal == key);
        }
        if places(v, key, q) {
            let k = choose|k: int| 0 <= k < v.len() && (#[trigger] v[k]).signal == key && v[k].pin == q;
            assert(from.contains(k));
            let i = choose|i: int| 0 <= i < from.len() && from[i] == k;
            assert(w[i].signal == key);
        }
    }
    if places(v, key, Some(pin)) {
        let k = choose|k: int|
            0 <= k < v.len() && (#[trigger] v[k]).signal == key && v[k].pin == Some(pin);
        if k < a.len() {
            assert(v[k] == a[k]);
            assert(d.locks[k] == (LockView { key, pin }));
        } else {
            assert(v[k] == b[k - a.len()]);
        }
    }
    if d.locks.contains(LockView { key, pin }) {
        let k = choose|k: int| 0 <= k < d.locks.len() && d.locks[k] == (LockView { key, pin });
        assert(v[k] == a[k]);
        assert(v[k].signal == key && v[k].pin == Some(pin));
    }
    if places(v, key, None) {
        let k = choose|k: int|
            0 <= k < v.len() && (#[trigger] v[k]).signal == key && v[k].pin == None::<PinId>;
        if k < a.len() {
            assert(v[k] == a[k]);
        } else {
            assert(v[k] == b[k - a.len()]);
            assert(signals.contains(key));
        }
    }
    if wants(d, key) && pin_of(d.locks, key, 0) is None {
        let i = choose|i: int| 0 <= i < signals.len() && signals[i] == key;
        assert(has_signal(b, signals[i]));
        let k = choose|k: int| 0 <= k < b.len() && (#[trigger] b[k]).signal == key;
        assert(v[a.len() + k] == b[k]);
    }
    assert forall|k: int| 0 <= k < w.len() implies (#[trigger] w[k]).origin == PinOrigin::Locked by {
        let x = from[k];
        if x < a.len() {
            assert(v[x] == a[x]);
        } else {
            assert(v[x] == b[x - a.len()]);
        }
    }
}

proof fn open_are_locked(signals: Seq<(Seq<char>, Seq<char>)>, locks: Seq<LockView>, n: int)
    requires
        0 <= n <= signals.len(),
    ensures
        forall|k: int|
            0 <= k < open_placements(signals, locks, n).len() ==> (
            #[trigger] open_placements(signals, locks, n)[k]).origin == PinOrigin::Locked,
    decreases n,
{
    if n > 0 {
        open_are_locked(signals, locks, n - 1);
        let had = open_placements(signals, locks, n - 1);
        let v = open_placements(signals, locks, n);
        assert forall|k: int| 0 <= k < v.len() implies (#[trigger] v[k]).origin
            == PinOrigin::Locked by {
            if k < had.len() {
                assert(v[k] == had[k]);
            }
        }
    }
}

} // verus!
