//! What holds of a chip's analog capabilities.

use vstd::prelude::*;

use crate::analog_roles::adc_pos;
use crate::frontend_plan::analog_pins;
use crate::frontend_plan::are_caps_of;
use crate::frontend_plan::bonded_rows;
use crate::frontend_plan::cap_of;
use crate::frontend_plan::caps_upto;
use crate::frontend_plan::comps_on;
use crate::frontend_plan::is_usable;
use crate::frontend_plan::opamps_on;
use crate::frontend_plan::out_adc_of;
use crate::frontend_plan::out_slots;
use crate::frontend_plan::readable;
use crate::frontend_plan::slots_on;
use crate::frontend_plan::CapView;
use crate::frontend_plan::Slot;
use crate::mcu_pinout::pin_before;
use crate::mcu_pinout::pins_ascend;
use crate::mcu_pinout::rows_of;
use crate::mcu_pinout::AfRow;
use crate::mcu_pinout::PinId;
use crate::mcu_raw::RawMcuData;
use crate::order::goes_up;
use crate::order::going_up_is_unique;
use crate::ranked::ascends;
use crate::ranked::with_is_set_insert;

verus! {

/// Those of the first `n` capabilities whose pin is in a set.
pub open spec fn caps_within(caps: Seq<CapView>, pins: Set<PinId>, n: int) -> Seq<CapView>
    decreases n,
{
    if n <= 0 {
        Seq::empty()
    } else if pins.contains(caps[n - 1].pin) {
        caps_within(caps, pins, n - 1).push(caps[n - 1])
    } else {
        caps_within(caps, pins, n - 1)
    }
}

spec fn pins_within(v: Seq<PinId>, pins: Set<PinId>, n: int) -> Seq<PinId>
    decreases n,
{
    if n <= 0 {
        Seq::empty()
    } else if pins.contains(v[n - 1]) {
        pins_within(v, pins, n - 1).push(v[n - 1])
    } else {
        pins_within(v, pins, n - 1)
    }
}

proof fn on_prefix(a: Seq<AfRow>, b: Seq<AfRow>, pin: PinId, n: int)
    requires
        forall|i: int| 0 <= i < n ==> #[trigger] a[i] == b[i],
    ensures
        slots_on(a, pin, n) == slots_on(b, pin, n),
        comps_on(a, pin, n) == comps_on(b, pin, n),
        opamps_on(a, pin, n) == opamps_on(b, pin, n),
        analog_pins(a, n) == analog_pins(b, n),
    decreases n,
{
    if n > 0 {
        on_prefix(a, b, pin, n - 1);
        assert(a[n - 1] == b[n - 1]);
    }
}

proof fn bonded_alike(all: Seq<AfRow>, pins: Set<PinId>, pin: PinId, n: int)
    requires
        0 <= n <= all.len(),
    ensures
        ({
            let rows = bonded_rows(all, Some(pins), n);
            let m = rows.len() as int;
            &&& analog_pins(rows, m) == analog_pins(all, n).intersect(pins)
            &&& pins.contains(pin) ==> slots_on(rows, pin, m) == slots_on(all, pin, n)
            &&& pins.contains(pin) ==> comps_on(rows, pin, m) == comps_on(all, pin, n)
            &&& pins.contains(pin) ==> opamps_on(rows, pin, m) == opamps_on(all, pin, n)
        }),
    decreases n,
{
    if n > 0 {
        bonded_alike(all, pins, pin, n - 1);
        let had = bonded_rows(all, Some(pins), n - 1);
        let rows = bonded_rows(all, Some(pins), n);
        on_prefix(had, rows, pin, had.len() as int);
        assert(analog_pins(rows, rows.len() as int) =~= analog_pins(all, n).intersect(pins));
    } else {
        assert(analog_pins(all, 0).intersect(pins) =~= Set::empty());
    }
}

proof fn unbonded_is_all(all: Seq<AfRow>, n: int)
    requires
        0 <= n <= all.len(),
    ensures
        bonded_rows(all, None, n) == all.take(n),
    decreases n,
{
    if n > 0 {
        unbonded_is_all(all, n - 1);
        assert(all.take(n) =~= all.take(n - 1).push(all[n - 1]));
    } else {
        assert(all.take(0) =~= Seq::empty());
    }
}

proof fn ascending_is_unique(a: Seq<PinId>, b: Seq<PinId>)
    requires
        pins_ascend(a),
        pins_ascend(b),
        a.to_set() == b.to_set(),
    ensures
        a == b,
{
    let lt = |x: PinId, y: PinId| pin_before(x, y);
    assert forall|x: PinId| #[trigger] a.contains(x) <==> b.contains(x) by {
        assert(a.contains(x) <==> a.to_set().contains(x));
        assert(b.contains(x) <==> b.to_set().contains(x));
    }
    assert(goes_up(a, lt)) by {
        assert forall|i: int, j: int|
            #![trigger a[i], a[j]]
            0 <= i < j < a.len() implies lt(a[i], a[j]) by {}
    }
    assert(goes_up(b, lt)) by {
        assert forall|i: int, j: int|
            #![trigger b[i], b[j]]
            0 <= i < j < b.len() implies lt(b[i], b[j]) by {}
    }
    going_up_is_unique(a, b, lt);
}

proof fn within_ascends(v: Seq<PinId>, pins: Set<PinId>, n: int)
    requires
        pins_ascend(v),
        0 <= n <= v.len(),
    ensures
        pins_ascend(pins_within(v, pins, n)),
        forall|x: PinId| #[trigger]
            pins_within(v, pins, n).contains(x) <==> pins.contains(x) && exists|i: int|
                0 <= i < n && v[i] == x,
    decreases n,
{
    if n > 0 {
        within_ascends(v, pins, n - 1);
        let had = pins_within(v, pins, n - 1);
        let now = pins_within(v, pins, n);
        assert forall|i: int, j: int| 0 <= i < j < now.len() implies pin_before(
            #[trigger] now[i],
            #[trigger] now[j],
        ) by {
            assert(now[i] == had[i]);
            if j < had.len() {
                assert(now[j] == had[j]);
            } else {
                assert(had.contains(had[i]));
                let k = choose|k: int| 0 <= k < n - 1 && v[k] == had[i];
                assert(pin_before(v[k], v[n - 1]));
            }
        }
        assert forall|x: PinId| #[trigger]
            now.contains(x) <==> pins.contains(x) && exists|i: int| 0 <= i < n && v[i] == x by {
            if now.contains(x) {
                let k = choose|k: int| 0 <= k < now.len() && now[k] == x;
                if k < had.len() {
                    assert(had[k] == x);
                    assert(had.contains(x));
                    let i = choose|i: int| 0 <= i < n - 1 && v[i] == x;
                    assert(v[i] == x);
                } else {
                    assert(v[n - 1] == x);
                }
            }
            if pins.contains(x) && exists|i: int| 0 <= i < n && v[i] == x {
                let i = choose|i: int| 0 <= i < n && v[i] == x;
                if i < n - 1 {
                    assert(had.contains(x));
                    let k = choose|k: int| 0 <= k < had.len() && had[k] == x;
                    assert(now[k] == x);
                } else {
                    assert(now[had.len() as int] == x);
                }
            }
        }
    }
}

proof fn caps_prefix(
    rows: Seq<AfRow>,
    out: Seq<(&'static str, Seq<Slot>)>,
    a: Seq<PinId>,
    b: Seq<PinId>,
    n: int,
)
    requires
        forall|i: int| 0 <= i < n ==> #[trigger] a[i] == b[i],
    ensures
        caps_upto(rows, out, a, n) == caps_upto(rows, out, b, n),
    decreases n,
{
    if n > 0 {
        caps_prefix(rows, out, a, b, n - 1);
        assert(a[n - 1] == b[n - 1]);
    }
}

proof fn within_prefix(a: Seq<CapView>, b: Seq<CapView>, pins: Set<PinId>, n: int)
    requires
        forall|i: int| 0 <= i < n ==> #[trigger] a[i] == b[i],
    ensures
        caps_within(a, pins, n) == caps_within(b, pins, n),
    decreases n,
{
    if n > 0 {
        within_prefix(a, b, pins, n - 1);
        assert(a[n - 1] == b[n - 1]);
    }
}

proof fn cut_down_upto(
    all: Seq<AfRow>,
    out: Seq<(&'static str, Seq<Slot>)>,
    v: Seq<PinId>,
    pins: Set<PinId>,
    n: int,
)
    requires
        0 <= n <= v.len(),
    ensures
        ({
            let rows = bonded_rows(all, Some(pins), all.len() as int);
            let w = pins_within(v, pins, n);
            let caps = caps_upto(all, out, v, n);
            caps_upto(rows, out, w, w.len() as int) == caps_within(caps, pins, caps.len() as int)
        }),
    decreases n,
{
    if n > 0 {
        cut_down_upto(all, out, v, pins, n - 1);
        let rows = bonded_rows(all, Some(pins), all.len() as int);
        let had = pins_within(v, pins, n - 1);
        let now = pins_within(v, pins, n);
        let before = caps_upto(all, out, v, n - 1);
        let caps = caps_upto(all, out, v, n);
        let pin = v[n - 1];
        caps_prefix(rows, out, had, now, had.len() as int);
        within_prefix(before, caps, pins, before.len() as int);
        bonded_alike(all, pins, pin, all.len() as int);
        if pins.contains(pin) {
            assert(cap_of(rows, out, pin) == cap_of(all, out, pin));
        }
    }
}

/// The capabilities of a package are those of the whole chip, cut down to the pins that
/// the package bonds.
pub proof fn bonding_cuts_down(
    v: Seq<CapView>,
    whole: Seq<CapView>,
    raw: RawMcuData,
    pins: Set<PinId>,
)
    requires
        are_caps_of(v, raw, Some(pins)),
        are_caps_of(whole, raw, None),
    ensures
        v == caps_within(whole, pins, whole.len() as int),
{
    let all = rows_of(raw);
    let n = all.len() as int;
    let out = out_adc_of(raw);
    let rows = bonded_rows(all, Some(pins), n);
    unbonded_is_all(all, n);
    assert(all.take(n) =~= all);
    let p = choose|p: Seq<PinId>|
        pins_ascend(p) && p.to_set() == analog_pins(all, n) && whole == #[trigger] caps_upto(
            all,
            out,
            p,
            p.len() as int,
        );
    let q = choose|q: Seq<PinId>|
        pins_ascend(q) && q.to_set() == analog_pins(rows, rows.len() as int)
            && v == #[trigger] caps_upto(rows, out, q, q.len() as int);
    let w = pins_within(p, pins, p.len() as int);
    within_ascends(p, pins, p.len() as int);
    bonded_alike(all, pins, PinId { port: 'A', num: 0 }, n);
    assert forall|x: PinId| w.to_set().contains(x) <==> q.to_set().contains(x) by {
        assert(w.contains(x) <==> pins.contains(x) && exists|i: int| 0 <= i < p.len() && p[i] == x);
        assert(p.contains(x) <==> p.to_set().contains(x));
        assert(q.to_set().contains(x) <==> analog_pins(all, n).contains(x) && pins.contains(x));
    }
    assert(w.to_set() =~= q.to_set());
    ascending_is_unique(w, q);
    cut_down_upto(all, out, p, pins, p.len() as int);
}

proof fn lists_ascend(rows: Seq<AfRow>, pin: PinId, n: int)
    ensures
        ascends(slots_on(rows, pin, n)),
        ascends(comps_on(rows, pin, n)),
    decreases n,
{
    if n > 0 {
        lists_ascend(rows, pin, n - 1);
        let r = rows[n - 1];
        with_is_set_insert(
            slots_on(rows, pin, n - 1),
            (r.signal.peripheral, adc_pos(r.signal.role@)->0),
        );
        with_is_set_insert(comps_on(rows, pin, n - 1), r.signal.peripheral);
    }
}

proof fn readable_is_read(ops: Seq<&'static str>, out: Seq<(&'static str, Seq<Slot>)>, n: int)
    requires
        0 <= n <= ops.len(),
    ensures
        forall|k: int|
            0 <= k < readable(ops, out, n).len() ==> out_slots(
                out,
                (#[trigger] readable(ops, out, n)[k])@,
                0,
            ) is Some,
    decreases n,
{
    if n > 0 {
        readable_is_read(ops, out, n - 1);
    }
}

proof fn caps_upto_well(
    rows: Seq<AfRow>,
    out: Seq<(&'static str, Seq<Slot>)>,
    pins: Seq<PinId>,
    n: int,
)
    requires
        pins_ascend(pins),
        0 <= n <= pins.len(),
    ensures
        ({
            let v = caps_upto(rows, out, pins, n);
            &&& forall|i: int|
                0 <= i < v.len() ==> is_usable(#[trigger] v[i]) && ascends(v[i].adc) && ascends(
                    v[i].comp,
                ) && (exists|k: int| 0 <= k < n && pins[k] == v[i].pin) && forall|k: int|
                    0 <= k < v[i].opamp.len() ==> out_slots(
                        out,
                        (#[trigger] v[i].opamp[k])@,
                        0,
                    ) is Some
            &&& forall|i: int, j: int|
                0 <= i < j < v.len() ==> pin_before((#[trigger] v[i]).pin, (#[trigger] v[j]).pin)
        }),
    decreases n,
{
    if n > 0 {
        caps_upto_well(rows, out, pins, n - 1);
        let had = caps_upto(rows, out, pins, n - 1);
        let v = caps_upto(rows, out, pins, n);
        let ops = opamps_on(rows, pins[n - 1], rows.len() as int);
        readable_is_read(ops, out, ops.len() as int);
        lists_ascend(rows, pins[n - 1], rows.len() as int);
        assert forall|i: int| 0 <= i < v.len() implies is_usable(#[trigger] v[i]) && ascends(
            v[i].adc,
        ) && ascends(v[i].comp) && (exists|k: int| 0 <= k < n && pins[k] == v[i].pin) && forall|k: int|
            0 <= k < v[i].opamp.len() ==> out_slots(out, (#[trigger] v[i].opamp[k])@, 0) is Some by {
            if i < had.len() {
                assert(v[i] == had[i]);
                let k = choose|k: int| 0 <= k < n - 1 && pins[k] == had[i].pin;
                assert(pins[k] == v[i].pin);
            } else {
                assert(pins[n - 1] == v[i].pin);
            }
        }
        assert forall|i: int, j: int| 0 <= i < j < v.len() implies pin_before(
            (#[trigger] v[i]).pin,
            (#[trigger] v[j]).pin,
        ) by {
            assert(v[i] == had[i]);
            if j < had.len() {
                assert(v[j] == had[j]);
            } else {
                let k = choose|k: int| 0 <= k < n - 1 && pins[k] == had[i].pin;
                assert(pin_before(pins[k], pins[n - 1]));
            }
        }
    }
}

/// Capabilities come in pin order, each pin once, and their channels and comparators in
/// order, each once; each has an ADC channel or an amplifier, and every amplifier listed has
/// an output that can be read.
pub proof fn capabilities_are_usable(
    v: Seq<CapView>,
    raw: RawMcuData,
    bonded: Option<Set<PinId>>,
)
    requires
        are_caps_of(v, raw, bonded),
    ensures
        forall|i: int, j: int|
            0 <= i < j < v.len() ==> pin_before((#[trigger] v[i]).pin, (#[trigger] v[j]).pin),
        forall|i: int|
            0 <= i < v.len() ==> is_usable(#[trigger] v[i]) && ascends(v[i].adc) && ascends(
                v[i].comp,
            ),
        forall|i: int, k: int|
            0 <= i < v.len() && 0 <= k < v[i].opamp.len() ==> out_slots(
                out_adc_of(raw),
                (#[trigger] v[i].opamp[k])@,
                0,
            ) is Some,
{
    let all = rows_of(raw);
    let rows = bonded_rows(all, bonded, all.len() as int);
    let p = choose|p: Seq<PinId>|
        pins_ascend(p) && p.to_set() == analog_pins(rows, rows.len() as int)
            && v == #[trigger] caps_upto(rows, out_adc_of(raw), p, p.len() as int);
    caps_upto_well(rows, out_adc_of(raw), p, p.len() as int);
}

} // verus!
