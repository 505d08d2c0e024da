//! Where the signals of a lowered converter end up: on pins that can carry them, where the
//! user put them, and out of the way of each other.

use vstd::prelude::*;

use crate::c531_design::ConverterLeg;
use crate::c531_design::ConverterView;
use crate::c531_plan::converter_plan;
use crate::c531_plan::free_pin;
use crate::c531_plan::jobs_upto;
use crate::c531_plan::last_pin_of;
use crate::c531_plan::lay;
use crate::c531_plan::leg_jobs;
use crate::c531_plan::locked_pins;
use crate::c531_plan::pin_for;
use crate::c531_plan::pin_for_is_right;
use crate::c531_plan::Job;
use crate::h523_design::af_at;
use crate::h523_design::LockView;
use crate::mcu_pinout::rows_of;
use crate::mcu_pinout::AfRow;
use crate::mcu_pinout::PinId;
use crate::mcu_raw::RawMcuData;
use crate::order::order_of;
use crate::order::order_of_is_stable;
use crate::order::picked;
use crate::order::stable_order_covers;
use crate::pin_plan::sorted_placements;
use crate::pin_plan::PinOrigin;
use crate::pin_plan::PlacementView;
use crate::pinout::carriers;
use crate::pinout::carriers_are_right;
use crate::pinout::carries;
use crate::pinout::pins_carrying;
use crate::pinout::signal_key;
use crate::texts::text_ranks;

verus! {

/// Whether a row of the pin table puts a signal on a pin.
pub open spec fn row_offers(r: AfRow, key: (Seq<char>, Seq<char>), pin: PinId) -> bool {
    &&& r.pin == pin
    &&& r.signal.peripheral@ == key.0
    &&& r.signal.role@ == key.1
}

/// Whether a chip can put a signal on a pin.
pub open spec fn can_carry(raw: RawMcuData, key: (Seq<char>, Seq<char>), pin: PinId) -> bool {
    exists|i: int| 0 <= i < rows_of(raw).len() && row_offers(#[trigger] rows_of(raw)[i], key, pin)
}

/// Whether a lock holds a pin, for whatever signal.
pub open spec fn is_locked(locks: Seq<LockView>, pin: PinId) -> bool {
    exists|i: int| 0 <= i < locks.len() && (#[trigger] locks[i]).pin == pin
}

/// Whether a placement other than the `k`-th is on a pin.
pub open spec fn is_placed_by_another(v: Seq<PlacementView>, pin: PinId, k: int) -> bool {
    exists|m: int| 0 <= m < v.len() && m != k && (#[trigger] v[m]).pin == Some(pin)
}

/// Whether the `k`-th placement could not have had a pin: a lock or another placement is on
/// it.
pub open spec fn is_spoken_for(
    locks: Seq<LockView>,
    v: Seq<PlacementView>,
    pin: PinId,
    k: int,
) -> bool {
    is_locked(locks, pin) || is_placed_by_another(v, pin, k)
}

/// Whether a pin comes before another in the rows of a signal.
pub open spec fn is_listed_before(
    raw: RawMcuData,
    key: (Seq<char>, Seq<char>),
    a: PinId,
    b: PinId,
) -> bool {
    exists|i: int|
        0 <= i < rows_of(raw).len() && row_offers(#[trigger] rows_of(raw)[i], key, a)
            && forall|j: int| 0 <= j <= i ==> !row_offers(#[trigger] rows_of(raw)[j], key, b)
}

/// Whether a lock is the last one of a signal.
pub open spec fn is_last_lock(locks: Seq<LockView>, key: (Seq<char>, Seq<char>), i: int) -> bool {
    &&& 0 <= i < locks.len()
    &&& locks[i].key == key
    &&& forall|j: int| i < j < locks.len() ==> (#[trigger] locks[j]).key != key
}

/// The pins that carry a signal are those that the chip can put it on.
pub proof fn candidates_are_right(raw: RawMcuData, key: (Seq<char>, Seq<char>))
    ensures
        pins_carrying(raw, key).no_duplicates(),
        forall|p: PinId| #[trigger]
            pins_carrying(raw, key).contains(p) <==> can_carry(raw, key, p),
{
    let rows = rows_of(raw);
    carriers_are_right(rows, key, rows.len() as int);
    assert forall|p: PinId| #[trigger] pins_carrying(raw, key).contains(p) <==> can_carry(
        raw,
        key,
        p,
    ) by {
        if pins_carrying(raw, key).contains(p) {
            let i = choose|i: int| 0 <= i < rows.len() && #[trigger] carries(rows[i], key, p);
            assert(row_offers(rows[i], key, p));
        }
        if can_carry(raw, key, p) {
            let i = choose|i: int| 0 <= i < rows.len() && row_offers(#[trigger] rows[i], key, p);
            assert(carries(rows[i], key, p));
        }
    }
}

proof fn candidates_are_in_order(
    rows: Seq<AfRow>,
    key: (Seq<char>, Seq<char>),
    n: int,
    i: int,
    k: int,
)
    requires
        0 <= n <= rows.len(),
        0 <= i < n,
        0 <= k < carriers(rows, key, n).len(),
        row_offers(rows[i], key, rows[i].pin),
        forall|j: int|
            0 <= j <= i ==> !row_offers(#[trigger] rows[j], key, carriers(rows, key, n)[k]),
    ensures
        exists|x: int| 0 <= x < k && carriers(rows, key, n)[x] == rows[i].pin,
    decreases n,
{
    let all = carriers(rows, key, n);
    let some = carriers(rows, key, n - 1);
    carriers_are_right(rows, key, n - 1);
    carriers_are_right(rows, key, n);
    if i == n - 1 {
        assert(all.contains(all[k]));
        let j = choose|j: int| 0 <= j < n && #[trigger] carries(rows[j], key, all[k]);
        assert(row_offers(rows[j], key, all[k]));
    } else if k < some.len() {
        assert(some[k] == all[k]);
        candidates_are_in_order(rows, key, n - 1, i, k);
        let x = choose|x: int| 0 <= x < k && some[x] == rows[i].pin;
        assert(all[x] == rows[i].pin);
    } else {
        assert(carries(rows[i], key, rows[i].pin));
        assert(some.contains(rows[i].pin));
        let x = choose|x: int| 0 <= x < some.len() && some[x] == rows[i].pin;
        assert(all[x] == rows[i].pin);
    }
}

proof fn free_pin_is_first(pins: Seq<PinId>, taken: Set<PinId>, k: int)
    requires
        0 <= k,
    ensures
        free_pin(pins, taken, k) matches Some(p) ==> exists|j: int|
            k <= j < pins.len() && #[trigger] pins[j] == p && forall|x: int|
                k <= x < j ==> taken.contains(#[trigger] pins[x]),
    decreases pins.len() - k,
{
    if k < pins.len() {
        if taken.contains(pins[k]) {
            free_pin_is_first(pins, taken, k + 1);
            if let Some(p) = free_pin(pins, taken, k) {
                let j = choose|j: int|
                    k + 1 <= j < pins.len() && #[trigger] pins[j] == p && forall|x: int|
                        k + 1 <= x < j ==> taken.contains(#[trigger] pins[x]);
                assert(pins[j] == p);
            }
        } else {
            assert(pins[k] == pins[k]);
        }
    }
}

proof fn locked_pins_are_locked(locks: Seq<LockView>, n: int, p: PinId)
    requires
        0 <= n <= locks.len(),
    ensures
        locked_pins(locks, n).contains(p) <==> exists|i: int|
            0 <= i < n && (#[trigger] locks[i]).pin == p,
    decreases n,
{
    if n > 0 {
        locked_pins_are_locked(locks, n - 1, p);
        if locks[n - 1].pin == p {
            assert(locked_pins(locks, n).contains(p));
        }
    }
}

proof fn last_pin_is_last(locks: Seq<LockView>, key: (Seq<char>, Seq<char>), n: int)
    requires
        0 <= n <= locks.len(),
        forall|j: int| n <= j < locks.len() ==> (#[trigger] locks[j]).key != key,
    ensures
        last_pin_of(locks, key, n) is None ==> forall|j: int|
            0 <= j < locks.len() ==> (#[trigger] locks[j]).key != key,
        last_pin_of(locks, key, n) matches Some(p) ==> exists|i: int|
            #[trigger] is_last_lock(locks, key, i) && locks[i].pin == p,
    decreases n,
{
    if n > 0 {
        if locks[n - 1].key == key {
            assert(is_last_lock(locks, key, n - 1));
        } else {
            last_pin_is_last(locks, key, n - 1);
        }
    }
}

proof fn af_is_of_a_row(rows: Seq<AfRow>, key: (Seq<char>, Seq<char>), pin: PinId, k: int, i: int)
    requires
        0 <= k <= i < rows.len(),
        row_offers(rows[i], key, pin),
    ensures
        exists|j: int|
            k <= j < rows.len() && row_offers(#[trigger] rows[j], key, pin) && rows[j].af == af_at(
                rows,
                key,
                pin,
                k,
            ),
    decreases i - k,
{
    if row_offers(rows[k], key, pin) {
    } else {
        af_is_of_a_row(rows, key, pin, k + 1, i);
    }
}

/// What `lay` has taken and placed after `n` signals.
pub proof fn laid_so_far(raw: RawMcuData, locks: Seq<LockView>, jobs: Seq<Job>, n: int)
    requires
        0 <= n <= jobs.len(),
    ensures
        ({
            let l = lay(raw, locks, jobs, n);
            &&& l.placements.len() == n
            &&& forall|p: PinId| #[trigger]
                l.taken.contains(p) <==> is_locked(locks, p) || exists|i: int|
                    0 <= i < n && (#[trigger] l.placements[i]).pin == Some(p)
            &&& forall|i: int|
                0 <= i < n ==> l.placements[i] == (#[trigger] lay(raw, locks, jobs, i + 1)).placements[i]
        }),
    decreases n,
{
    let l = lay(raw, locks, jobs, n);
    if n > 0 {
        laid_so_far(raw, locks, jobs, n - 1);
        let b = lay(raw, locks, jobs, n - 1);
        assert forall|p: PinId| #[trigger] l.taken.contains(p) <==> is_locked(locks, p) || exists|
            i: int,
        |
            0 <= i < n && (#[trigger] l.placements[i]).pin == Some(p) by {
            assert(forall|i: int| 0 <= i < n - 1 ==> #[trigger] l.placements[i] == b.placements[i]);
            if l.taken.contains(p) && !is_locked(locks, p) {
                if b.taken.contains(p) {
                    let i = choose|i: int|
                        0 <= i < n - 1 && (#[trigger] b.placements[i]).pin == Some(p);
                    assert(l.placements[i].pin == Some(p));
                } else {
                    assert(l.placements[n - 1].pin == Some(p));
                }
            }
            if exists|i: int| 0 <= i < n && (#[trigger] l.placements[i]).pin == Some(p) {
                let i = choose|i: int| 0 <= i < n && (#[trigger] l.placements[i]).pin == Some(p);
                if i < n - 1 {
                    assert(b.placements[i].pin == Some(p));
                    assert(b.taken.contains(p));
                }
            }
            if is_locked(locks, p) {
                assert(b.taken.contains(p));
            }
        }
        assert forall|i: int| 0 <= i < n implies l.placements[i] == (#[trigger] lay(
            raw,
            locks,
            jobs,
            i + 1,
        )).placements[i] by {
            if i < n - 1 {
                assert(b.placements[i] == lay(raw, locks, jobs, i + 1).placements[i]);
                assert(l.placements[i] == b.placements[i]);
            }
        }
    } else {
        assert forall|p: PinId| #[trigger] l.taken.contains(p) <==> is_locked(locks, p) by {
            locked_pins_are_locked(locks, locks.len() as int, p);
        }
    }
}

/// Sorting placements only moves them: where each of them came from.
pub proof fn sorted_come_from(v: Seq<PlacementView>) -> (from: Seq<int>)
    requires
        v.len() <= usize::MAX,
    ensures
        from.len() == v.len(),
        sorted_placements(v).len() == v.len(),
        forall|i: int|
            0 <= i < v.len() ==> 0 <= #[trigger] from[i] < v.len() && sorted_placements(v)[i]
                == v[from[i]],
        forall|i: int, j: int|
            #![trigger from[i], from[j]]
            0 <= i < j < v.len() ==> from[i] != from[j],
        forall|k: int| 0 <= k < v.len() ==> from.contains(k),
{
    let keys = text_ranks(v.map_values(|p: PlacementView| p.signal.1));
    let a = order_of(keys);
    let by_role = picked(v, a);
    order_of_is_stable(keys);
    let then = text_ranks(by_role.map_values(|p: PlacementView| p.signal.0));
    let b = order_of(then);
    order_of_is_stable(then);
    let from = Seq::new(v.len(), |i: int| a[b[i] as int] as int);
    assert forall|i: int| 0 <= i < v.len() implies 0 <= #[trigger] from[i] < v.len()
        && sorted_placements(v)[i] == v[from[i]] by {
        assert(b[i] < v.len());
        assert(a[b[i] as int] < v.len());
    }
    assert forall|i: int, j: int|
        #![trigger from[i], from[j]]
        0 <= i < j < v.len() implies from[i] != from[j] by {
        assert(b[i] != b[j]);
        assert(b[i] < v.len() && b[j] < v.len());
        assert(a[b[i] as int] != a[b[j] as int]);
    }
    assert forall|k: int| 0 <= k < v.len() implies from.contains(k) by {
        stable_order_covers(keys, a, v.len() as int, k);
        let y = choose|y: int| 0 <= y < a.len() && a[y] == k as usize;
        stable_order_covers(then, b, v.len() as int, y);
        let x = choose|x: int| 0 <= x < b.len() && b[x] == y as usize;
        assert(from[x] == k);
    }
    from
}

/// A leg has no more than ten signals.
pub proof fn jobs_are_few(legs: Seq<ConverterLeg>, n: int)
    requires
        0 <= n <= legs.len(),
    ensures
        jobs_upto(legs, n).len() <= 10 * n,
    decreases n,
{
    if n > 0 {
        jobs_are_few(legs, n - 1);
        assert(leg_jobs(legs[n - 1]).len() <= 10);
    }
}

/// A pin that the planner chose among several is one that a lock holds, or that another
/// signal is on before it, only where each of the signal's pins is locked or another's; and
/// of the pins that are left it is the first in the table.
pub proof fn a_chosen_pin_is_free_where_one_is(
    d: ConverterView,
    raw: RawMcuData,
    package: Seq<char>,
    family: Seq<char>,
    k: int,
)
    requires
        10 * d.legs.len() <= usize::MAX,
        0 <= k < converter_plan(d, raw, package, family).placements.len(),
        converter_plan(d, raw, package, family).placements[k].origin == PinOrigin::Solver,
        converter_plan(d, raw, package, family).placements[k].pin is Some,
    ensures
        ({
            let v = converter_plan(d, raw, package, family).placements;
            let pin = v[k].pin->0;
            &&& is_locked(d.locks, pin) ==> forall|c: PinId| #[trigger]
                can_carry(raw, v[k].signal, c) ==> is_spoken_for(d.locks, v, c, k)
            &&& forall|c: PinId| #[trigger]
                is_listed_before(raw, v[k].signal, c, pin) ==> is_spoken_for(d.locks, v, c, k)
        }),
{
    let n = d.legs.len() as int;
    let jobs = jobs_upto(d.legs, n);
    jobs_are_few(d.legs, n);
    let l = lay(raw, d.locks, jobs, jobs.len() as int);
    laid_so_far(raw, d.locks, jobs, jobs.len() as int);
    let v = sorted_placements(l.placements);
    let from = sorted_come_from(l.placements);
    let j = from[k];
    let b = lay(raw, d.locks, jobs, j);
    laid_so_far(raw, d.locks, jobs, j);
    assert(v[k] == lay(raw, d.locks, jobs, j + 1).placements[j]);
    let key = signal_key(jobs[j].signal);
    let pin = v[k].pin->0;
    let pins = pins_carrying(raw, key);
    pin_for_is_right(raw, d.locks, key, b.taken);
    candidates_are_right(raw, key);
    assert forall|c: PinId| #[trigger] b.taken.contains(c) implies is_spoken_for(d.locks, v, c, k) by {
        if !is_locked(d.locks, c) {
            let i = choose|i: int| 0 <= i < j && (#[trigger] b.placements[i]).pin == Some(c);
            assert(b.placements[i] == lay(raw, d.locks, jobs, i + 1).placements[i]);
            assert(l.placements[i].pin == Some(c));
            assert(from.contains(i));
            let m = choose|m: int| 0 <= m < from.len() && from[m] == i;
            assert(v[m].pin == Some(c));
            assert(m != k);
        }
    }
    if is_locked(d.locks, pin) {
        assert(b.taken.contains(pin));
        assert forall|c: PinId| #[trigger] can_carry(raw, v[k].signal, c) implies is_spoken_for(
            d.locks,
            v,
            c,
            k,
        ) by {
            assert(pins.contains(c));
            let x = choose|x: int| 0 <= x < pins.len() && pins[x] == c;
            assert(b.taken.contains(pins[x]));
        }
    }
    assert forall|c: PinId| #[trigger] is_listed_before(raw, v[k].signal, c, pin) implies is_spoken_for(
        d.locks,
        v,
        c,
        k,
    ) by {
        free_pin_is_first(pins, b.taken, 0);
        let rows = rows_of(raw);
        let i = choose|i: int|
            0 <= i < rows.len() && row_offers(#[trigger] rows[i], key, c) && forall|j: int|
                0 <= j <= i ==> !row_offers(#[trigger] rows[j], key, pin);
        let y = match free_pin(pins, b.taken, 0) {
            Some(p) => choose|y: int|
                0 <= y < pins.len() && #[trigger] pins[y] == p && forall|x: int|
                    0 <= x < y ==> b.taken.contains(#[trigger] pins[x]),
            None => 0,
        };
        assert(pins[y] == pin);
        candidates_are_in_order(rows, key, rows.len() as int, i, y);
        let x = choose|x: int| 0 <= x < y && pins[x] == c;
        assert(b.taken.contains(pins[x]));
    }
}

/// Each signal of a lowered converter is on a pin that can carry it, if there is one: on the
/// one that its last lock names where that one can, on the only one where there is one, else
/// on one that the planner chose.
pub proof fn placements_are_right(
    d: ConverterView,
    raw: RawMcuData,
    package: Seq<char>,
    family: Seq<char>,
    k: int,
)
    requires
        10 * d.legs.len() <= usize::MAX,
        0 <= k < converter_plan(d, raw, package, family).placements.len(),
    ensures
        ({
            let p = converter_plan(d, raw, package, family).placements[k];
            &&& p.pin matches Some(q) ==> can_carry(raw, p.signal, q)
            &&& p.pin is None ==> forall|c: PinId| !#[trigger] can_carry(raw, p.signal, c)
            &&& forall|i: int| #[trigger]
                is_last_lock(d.locks, p.signal, i) && can_carry(raw, p.signal, d.locks[i].pin)
                    ==> p.origin == PinOrigin::Locked && p.pin == Some(d.locks[i].pin)
            &&& p.origin == PinOrigin::Locked ==> exists|i: int| #[trigger]
                is_last_lock(d.locks, p.signal, i) && p.pin == Some(d.locks[i].pin)
            &&& p.origin == PinOrigin::Forced ==> p.pin is Some && forall|c: PinId| #[trigger]
                can_carry(raw, p.signal, c) ==> p.pin == Some(c)
            &&& p.origin == PinOrigin::Solver && p.pin is Some ==> exists|c: PinId| #[trigger]
                can_carry(raw, p.signal, c) && p.pin != Some(c)
            &&& p.pin matches Some(q) ==> exists|i: int|
                0 <= i < rows_of(raw).len() && row_offers(#[trigger] rows_of(raw)[i], p.signal, q)
                    && rows_of(raw)[i].af == p.af
        }),
{
    let n = d.legs.len() as int;
    let jobs = jobs_upto(d.legs, n);
    jobs_are_few(d.legs, n);
    let l = lay(raw, d.locks, jobs, jobs.len() as int);
    laid_so_far(raw, d.locks, jobs, jobs.len() as int);
    let from = sorted_come_from(l.placements);
    let j = from[k];
    let b = lay(raw, d.locks, jobs, j);
    laid_so_far(raw, d.locks, jobs, j);
    let p = sorted_placements(l.placements)[k];
    assert(p == lay(raw, d.locks, jobs, j + 1).placements[j]);
    let key = signal_key(jobs[j].signal);
    let pins = pins_carrying(raw, key);
    let rows = rows_of(raw);
    pin_for_is_right(raw, d.locks, key, b.taken);
    candidates_are_right(raw, key);
    last_pin_is_last(d.locks, key, d.locks.len() as int);
    assert((p.pin, p.origin) == pin_for(raw, d.locks, key, b.taken));
    if p.pin is None {
        assert forall|c: PinId| !#[trigger] can_carry(raw, p.signal, c) by {
            assert(!pins.contains(c));
        }
    }
    assert forall|i: int| #[trigger]
        is_last_lock(d.locks, p.signal, i) && can_carry(raw, p.signal, d.locks[i].pin) implies p.origin
        == PinOrigin::Locked && p.pin == Some(d.locks[i].pin) by {
        let lock = last_pin_of(d.locks, key, d.locks.len() as int);
        assert(lock is Some);
        let x = choose|x: int| #[trigger] is_last_lock(d.locks, key, x) && d.locks[x].pin == lock->0;
        assert(x == i);
        assert(pins.contains(d.locks[i].pin));
    }
    if p.origin == PinOrigin::Forced {
        assert forall|c: PinId| #[trigger] can_carry(raw, p.signal, c) implies p.pin == Some(c) by {
            assert(pins.contains(c));
        }
    }
    if p.origin == PinOrigin::Solver && p.pin is Some {
        assert(pins.contains(pins[0]) && pins.contains(pins[1]));
        assert(can_carry(raw, key, pins[0]) && can_carry(raw, key, pins[1]));
        assert(pins[0] != pins[1]);
    }
    if let Some(q) = p.pin {
        assert(can_carry(raw, key, q));
        let i = choose|i: int| 0 <= i < rows.len() && row_offers(#[trigger] rows[i], key, q);
        af_is_of_a_row(rows, key, q, 0, i);
    }
    assert(p.signal == key);
    assert(p.pin matches Some(q) ==> can_carry(raw, p.signal, q));
    assert(p.origin == PinOrigin::Locked ==> exists|i: int| #[trigger]
        is_last_lock(d.locks, p.signal, i) && p.pin == Some(d.locks[i].pin));
    assert(p.origin == PinOrigin::Forced ==> p.pin is Some);
    assert(p.origin == PinOrigin::Solver && p.pin is Some ==> exists|c: PinId| #[trigger]
        can_carry(raw, p.signal, c) && p.pin != Some(c));
    assert(p.pin matches Some(q) ==> exists|i: int|
        0 <= i < rows_of(raw).len() && row_offers(#[trigger] rows_of(raw)[i], p.signal, q)
            && rows_of(raw)[i].af == p.af);
}

} // verus!
