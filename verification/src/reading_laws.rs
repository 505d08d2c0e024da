//! Chips that read the same have differential front ends that read the same.

use vstd::prelude::*;

use crate::analog_roles::adc_in;
use crate::analog_view::all_side_ends;
use crate::analog_view::analog_instances;
use crate::analog_view::channel_end;
use crate::analog_view::channel_ends;
use crate::analog_view::channel_of_pin;
use crate::analog_view::channel_row;
use crate::analog_view::ends_in_order;
use crate::analog_view::ends_of;
use crate::analog_view::ends_upto;
use crate::analog_view::in_slots;
use crate::analog_view::inputs;
use crate::analog_view::instance_ends;
use crate::analog_view::internal_note;
use crate::analog_view::kind_rank;
use crate::analog_view::one_per_pin;
use crate::analog_view::output_at;
use crate::analog_view::partner_ends;
use crate::analog_view::pins_key;
use crate::analog_view::route_note;
use crate::analog_view::rows_of_instance;
use crate::analog_view::same_end;
use crate::analog_view::same_ends;
use crate::analog_view::side;
use crate::analog_view::side_end;
use crate::analog_view::side_ends;
use crate::analog_view::slot_name;
use crate::analog_view::EndView;
use crate::frontend_plan::Slot;
use crate::mcu_pinout::pin_rows;
use crate::mcu_pinout::rows_of;
use crate::mcu_pinout::rows_upto;
use crate::mcu_pinout::AfRow;
use crate::mcu_pinout::PinId;
use crate::mcu_raw::same_chip;
use crate::mcu_raw::same_pin;
use crate::mcu_raw::same_pins;
use crate::mcu_raw::RawMcuData;
use crate::mcu_raw::RawPeripheral;
use crate::order;
use crate::order::order_of;
use crate::order::picked;
use crate::ranked::rank_in;
use crate::ranked::with;
use crate::ranked::Ranked;

verus! {

/// Whether two rows read the same.
spec fn same_row(a: AfRow, b: AfRow) -> bool {
    a.pin == b.pin && a.af == b.af && a.signal.peripheral@ == b.signal.peripheral@
        && a.signal.role@ == b.signal.role@
}

/// Whether two lists of rows read the same.
spec fn same_rows(a: Seq<AfRow>, b: Seq<AfRow>) -> bool {
    a.len() == b.len() && forall|i: int| 0 <= i < a.len() ==> same_row(#[trigger] a[i], b[i])
}

/// Whether two lists are alike, item by item.
spec fn same_list<T: Ranked>(v: Seq<T>, w: Seq<T>) -> bool {
    v.len() == w.len() && forall|i: int| 0 <= i < v.len() ==> (#[trigger] v[i]).alike(&w[i])
}

proof fn stands_alike<T: Ranked>(a: T, b: T, x: T, y: T)
    requires
        a.alike(&b),
        x.alike(&y),
    ensures
        a.precedes(&x) <==> b.precedes(&y),
        a.alike(&x) <==> b.alike(&y),
{
    T::order_laws(a, b, y);
    T::order_laws(x, y, a);
    T::order_laws(b, a, x);
    T::order_laws(y, x, b);
    T::order_laws(a, x, y);
    T::order_laws(b, a, y);
    T::order_laws(b, y, x);
    T::order_laws(a, b, x);
}

proof fn ranks_are_same<T: Ranked>(v: Seq<T>, w: Seq<T>, x: T, y: T)
    requires
        same_list(v, w),
        x.alike(&y),
    ensures
        rank_in(v, x) == rank_in(w, y),
        0 <= rank_in(v, x) <= v.len(),
    decreases v.len(),
{
    if v.len() > 0 {
        let n = v.len() - 1;
        assert(v[n].alike(&w[n]));
        stands_alike(v[n], w[n], x, y);
        let p = v.drop_last();
        let q = w.drop_last();
        assert(same_list(p, q)) by {
            assert forall|i: int| 0 <= i < p.len() implies (#[trigger] p[i]).alike(&q[i]) by {
                assert(v[i].alike(&w[i]));
            }
        }
        ranks_are_same(p, q, x, y);
    }
}

proof fn with_is_same<T: Ranked>(v: Seq<T>, w: Seq<T>, x: T, y: T)
    requires
        same_list(v, w),
        x.alike(&y),
    ensures
        same_list(with(v, x), with(w, y)),
{
    ranks_are_same(v, w, x, y);
    let p = rank_in(v, x);
    if p < v.len() {
        assert(v[p].alike(&w[p]));
        stands_alike(v[p], w[p], x, y);
    }
    let a = with(v, x);
    let b = with(w, y);
    assert(a.len() == b.len());
    assert forall|i: int| 0 <= i < a.len() implies (#[trigger] a[i]).alike(&b[i]) by {
        if a.len() == v.len() {
            assert(v[i].alike(&w[i]));
        } else if i < p {
            assert(a[i] == v[i] && b[i] == w[i]);
            assert(v[i].alike(&w[i]));
        } else if i > p {
            assert(a[i] == v[i - 1] && b[i] == w[i - 1]);
            assert(v[i - 1].alike(&w[i - 1]));
        }
    }
}

proof fn pin_rows_are_same(p: RawPeripheral, q: RawPeripheral, n: int)
    requires
        same_pins(p, q),
        0 <= n <= p.pins@.len(),
    ensures
        same_rows(pin_rows(p, n), pin_rows(q, n)),
    decreases n,
{
    if n > 0 {
        pin_rows_are_same(p, q, n - 1);
        assert(same_pin(p.pins@[n - 1], q.pins@[n - 1]));
    }
}

proof fn rows_upto_are_same(ps: Seq<RawPeripheral>, qs: Seq<RawPeripheral>, n: int)
    requires
        0 <= n <= ps.len(),
        ps.len() == qs.len(),
        forall|i: int| 0 <= i < ps.len() ==> same_pins(#[trigger] ps[i], qs[i]),
    ensures
        same_rows(rows_upto(ps, n), rows_upto(qs, n)),
    decreases n,
{
    if n > 0 {
        rows_upto_are_same(ps, qs, n - 1);
        assert(same_pins(ps[n - 1], qs[n - 1]));
        pin_rows_are_same(ps[n - 1], qs[n - 1], ps[n - 1].pins@.len() as int);
        let a = rows_upto(ps, n - 1);
        let b = pin_rows(ps[n - 1], ps[n - 1].pins@.len() as int);
        let c = rows_upto(qs, n - 1);
        let d = pin_rows(qs[n - 1], qs[n - 1].pins@.len() as int);
        assert forall|i: int| 0 <= i < (a + b).len() implies same_row(
            #[trigger] (a + b)[i],
            (c + d)[i],
        ) by {
            if i < a.len() {
                assert(same_row(a[i], c[i]));
            } else {
                assert(same_row(b[i - a.len()], d[i - a.len()]));
            }
        }
    }
}

proof fn instances_are_same(a: Seq<AfRow>, b: Seq<AfRow>, n: int)
    requires
        same_rows(a, b),
        0 <= n <= a.len(),
    ensures
        same_list(analog_instances(a, n), analog_instances(b, n)),
    decreases n,
{
    if n > 0 {
        instances_are_same(a, b, n - 1);
        assert(same_row(a[n - 1], b[n - 1]));
        if a[n - 1].af is None {
            with_is_same(
                analog_instances(a, n - 1),
                analog_instances(b, n - 1),
                a[n - 1].signal.peripheral,
                b[n - 1].signal.peripheral,
            );
        }
    }
}

proof fn instance_rows_are_same(a: Seq<AfRow>, b: Seq<AfRow>, inst: Seq<char>, n: int)
    requires
        same_rows(a, b),
        0 <= n <= a.len(),
    ensures
        same_rows(rows_of_instance(a, inst, n), rows_of_instance(b, inst, n)),
    decreases n,
{
    if n > 0 {
        instance_rows_are_same(a, b, inst, n - 1);
        assert(same_row(a[n - 1], b[n - 1]));
    }
}

proof fn channel_rows_are_same(a: Seq<AfRow>, b: Seq<AfRow>, positive: bool, m: u8, k: int)
    requires
        same_rows(a, b),
        0 <= k,
    ensures
        channel_row(a, positive, m, k) is Some <==> channel_row(b, positive, m, k) is Some,
        channel_row(a, positive, m, k) matches Some(r) ==> same_row(
            r,
            channel_row(b, positive, m, k)->0,
        ),
    decreases a.len() - k,
{
    if k < a.len() {
        assert(same_row(a[k], b[k]));
        channel_rows_are_same(a, b, positive, m, k + 1);
    }
}

proof fn pin_channels_are_same(a: Seq<AfRow>, b: Seq<AfRow>, pin: PinId, k: int)
    requires
        same_rows(a, b),
        0 <= k,
    ensures
        channel_of_pin(a, pin, k) == channel_of_pin(b, pin, k),
    decreases a.len() - k,
{
    if k < a.len() {
        assert(same_row(a[k], b[k]));
        pin_channels_are_same(a, b, pin, k + 1);
    }
}

proof fn outputs_are_same(a: Seq<AfRow>, b: Seq<AfRow>, pin: PinId, n: int)
    requires
        same_rows(a, b),
        0 <= n <= a.len(),
    ensures
        output_at(a, pin, n) is Some <==> output_at(b, pin, n) is Some,
        output_at(a, pin, n) matches Some(o) ==> o@ == output_at(b, pin, n)->0@,
    decreases n,
{
    if n > 0 {
        assert(same_row(a[n - 1], b[n - 1]));
        outputs_are_same(a, b, pin, n - 1);
    }
}

proof fn slots_are_same(a: Seq<AfRow>, b: Seq<AfRow>, pin: PinId, n: int)
    requires
        same_rows(a, b),
        0 <= n <= a.len(),
    ensures
        same_list(in_slots(a, pin, n), in_slots(b, pin, n)),
    decreases n,
{
    if n > 0 {
        assert(same_row(a[n - 1], b[n - 1]));
        slots_are_same(a, b, pin, n - 1);
        let r = a[n - 1];
        let s = b[n - 1];
        let x: Slot = (r.signal.peripheral, adc_in(r.signal.role@)->0);
        let y: Slot = (s.signal.peripheral, adc_in(s.signal.role@)->0);
        assert(x.alike(&y));
        with_is_same(in_slots(a, pin, n - 1), in_slots(b, pin, n - 1), x, y);
    }
}

proof fn routes_are_same(a: Seq<AfRow>, b: Seq<AfRow>, op: Seq<char>, n: int)
    requires
        same_rows(a, b),
        0 <= n <= a.len(),
    ensures
        route_note(a, op, n) == route_note(b, op, n),
    decreases n,
{
    if n > 0 {
        assert(same_row(a[n - 1], b[n - 1]));
        routes_are_same(a, b, op, n - 1);
        let pin = a[n - 1].pin;
        slots_are_same(a, b, pin, a.len() as int);
        let x = in_slots(a, pin, a.len() as int);
        let y = in_slots(b, pin, b.len() as int);
        assert(x.map_values(|s: Slot| slot_name(s)) =~= y.map_values(|s: Slot| slot_name(s))) by {
            assert forall|i: int| 0 <= i < x.len() implies slot_name(x[i]) == slot_name(y[i]) by {
                assert(x[i].alike(&y[i]));
            }
        }
    }
}

proof fn channel_ends_are_same(
    a: Seq<AfRow>,
    b: Seq<AfRow>,
    p: Seq<AfRow>,
    q: Seq<AfRow>,
    x: &'static str,
    y: &'static str,
    m: int,
)
    requires
        same_rows(a, b),
        same_rows(p, q),
        x@ == y@,
        0 <= m <= 256,
    ensures
        same_ends(channel_ends(a, p, x, m), channel_ends(b, q, y, m)),
    decreases m,
{
    if m > 0 {
        channel_ends_are_same(a, b, p, q, x, y, m - 1);
        let c = (m - 1) as u8;
        channel_rows_are_same(p, q, true, c, 0);
        channel_rows_are_same(p, q, false, c, 0);
        if channel_row(p, true, c, 0) is Some && channel_row(p, false, c, 0) is Some {
            let plus = channel_row(p, true, c, 0)->0;
            let minus = channel_row(p, false, c, 0)->0;
            pin_channels_are_same(p, q, minus.pin, 0);
            outputs_are_same(a, b, plus.pin, a.len() as int);
        }
        let e = channel_end(a, p, x, c);
        let f = channel_end(b, q, y, c);
        assert(e is Some <==> f is Some);
        if e is Some {
            assert(same_end(e->0, f->0));
        }
    }
}

proof fn sides_are_same(a: Seq<AfRow>, b: Seq<AfRow>, amp: bool, plus: bool, n: int)
    requires
        same_rows(a, b),
        0 <= n <= a.len(),
    ensures
        same_list(side(a, amp, plus, n), side(b, amp, plus, n)),
    decreases n,
{
    if n > 0 {
        assert(same_row(a[n - 1], b[n - 1]));
        sides_are_same(a, b, amp, plus, n - 1);
        let x = (a[n - 1].pin, a[n - 1].signal.role);
        let y = (b[n - 1].pin, b[n - 1].signal.role);
        assert(x.alike(&y));
        with_is_same(side(a, amp, plus, n - 1), side(b, amp, plus, n - 1), x, y);
    }
}

proof fn firsts_are_same(
    v: Seq<(PinId, &'static str)>,
    w: Seq<(PinId, &'static str)>,
    n: int,
)
    requires
        same_list(v, w),
        0 <= n <= v.len(),
    ensures
        same_list(one_per_pin(v, n), one_per_pin(w, n)),
    decreases n,
{
    if n > 0 {
        firsts_are_same(v, w, n - 1);
        assert(v[n - 1].alike(&w[n - 1]));
        if n > 1 {
            assert(v[n - 2].alike(&w[n - 2]));
        }
    }
}

proof fn partners_are_same(
    amp: bool,
    x: &'static str,
    y: &'static str,
    p: (PinId, &'static str),
    q: (PinId, &'static str),
    v: Seq<(PinId, &'static str)>,
    w: Seq<(PinId, &'static str)>,
    k: int,
)
    requires
        x@ == y@,
        p.alike(&q),
        same_list(v, w),
        0 <= k <= v.len(),
    ensures
        same_ends(partner_ends(amp, x, p, v, k), partner_ends(amp, y, q, w, k)),
    decreases k,
{
    if k > 0 {
        partners_are_same(amp, x, y, p, q, v, w, k - 1);
        assert(v[k - 1].alike(&w[k - 1]));
    }
}

proof fn ends_join(a: Seq<EndView>, b: Seq<EndView>, c: Seq<EndView>, d: Seq<EndView>)
    requires
        same_ends(a, b),
        same_ends(c, d),
    ensures
        same_ends(a + c, b + d),
{
    assert forall|i: int| 0 <= i < (a + c).len() implies same_end(#[trigger] (a + c)[i], (b + d)[i]) by {
        if i < a.len() {
            assert(same_end(a[i], b[i]));
        } else {
            assert(same_end(c[i - a.len()], d[i - a.len()]));
        }
    }
}

proof fn side_ends_are_same(
    amp: bool,
    x: &'static str,
    y: &'static str,
    plus: Seq<(PinId, &'static str)>,
    others: Seq<(PinId, &'static str)>,
    v: Seq<(PinId, &'static str)>,
    w: Seq<(PinId, &'static str)>,
    note: Seq<char>,
    k: int,
)
    requires
        x@ == y@,
        same_list(plus, others),
        same_list(v, w),
        0 <= k <= plus.len(),
    ensures
        same_ends(side_ends(amp, x, plus, v, note, k), side_ends(amp, y, others, w, note, k)),
    decreases k,
{
    if k > 0 {
        side_ends_are_same(amp, x, y, plus, others, v, w, note, k - 1);
        assert(plus[k - 1].alike(&others[k - 1]));
        partners_are_same(amp, x, y, plus[k - 1], others[k - 1], v, w, v.len() as int);
        let a = side_ends(amp, x, plus, v, note, k - 1).push(
            side_end(amp, x, plus[k - 1], None, note),
        );
        let b = side_ends(amp, y, others, w, note, k - 1).push(
            side_end(amp, y, others[k - 1], None, note),
        );
        assert(same_ends(a, b));
        ends_join(
            a,
            b,
            partner_ends(amp, x, plus[k - 1], v, v.len() as int),
            partner_ends(amp, y, others[k - 1], w, w.len() as int),
        );
    }
}

proof fn all_sides_are_same(
    a: Seq<AfRow>,
    b: Seq<AfRow>,
    p: Seq<AfRow>,
    q: Seq<AfRow>,
    amp: bool,
    x: &'static str,
    y: &'static str,
)
    requires
        same_rows(a, b),
        same_rows(p, q),
        x@ == y@,
    ensures
        same_ends(all_side_ends(a, p, amp, x), all_side_ends(b, q, amp, y)),
{
    sides_are_same(p, q, amp, true, p.len() as int);
    sides_are_same(p, q, amp, false, p.len() as int);
    let s = side(p, amp, true, p.len() as int);
    let t = side(q, amp, true, q.len() as int);
    firsts_are_same(s, t, s.len() as int);
    let u = side(p, amp, false, p.len() as int);
    let v = side(q, amp, false, q.len() as int);
    firsts_are_same(u, v, u.len() as int);
    routes_are_same(a, b, x@, a.len() as int);
    assert(internal_note(a, amp, x@) == internal_note(b, amp, y@));
    let plus = inputs(p, amp, true);
    side_ends_are_same(
        amp,
        x,
        y,
        plus,
        inputs(q, amp, true),
        inputs(p, amp, false),
        inputs(q, amp, false),
        internal_note(a, amp, x@),
        plus.len() as int,
    );
}

proof fn instance_ends_are_same(a: Seq<AfRow>, b: Seq<AfRow>, x: &'static str, y: &'static str)
    requires
        same_rows(a, b),
        x@ == y@,
    ensures
        same_ends(instance_ends(a, x), instance_ends(b, y)),
{
    let p = rows_of_instance(a, x@, a.len() as int);
    let q = rows_of_instance(b, y@, b.len() as int);
    instance_rows_are_same(a, b, x@, a.len() as int);
    channel_ends_are_same(a, b, p, q, x, y, 256);
    all_sides_are_same(a, b, p, q, false, x, y);
    all_sides_are_same(a, b, p, q, true, x, y);
}

proof fn ends_upto_are_same(
    a: Seq<AfRow>,
    b: Seq<AfRow>,
    x: Seq<&'static str>,
    y: Seq<&'static str>,
    n: int,
)
    requires
        same_rows(a, b),
        same_list(x, y),
        0 <= n <= x.len(),
    ensures
        same_ends(ends_upto(a, x, n), ends_upto(b, y, n)),
    decreases n,
{
    if n > 0 {
        ends_upto_are_same(a, b, x, y, n - 1);
        assert(x[n - 1].alike(&y[n - 1]));
        instance_ends_are_same(a, b, x[n - 1], y[n - 1]);
        ends_join(
            ends_upto(a, x, n - 1),
            ends_upto(b, y, n - 1),
            instance_ends(a, x[n - 1]),
            instance_ends(b, y[n - 1]),
        );
    }
}

proof fn picked_are_same(v: Seq<EndView>, w: Seq<EndView>, keys: Seq<u64>)
    requires
        same_ends(v, w),
        keys.len() == v.len(),
        keys.len() <= usize::MAX,
    ensures
        same_ends(picked(v, order_of(keys)), picked(w, order_of(keys))),
{
    let o = order_of(keys);
    order::order_of_is_stable(keys);
    assert forall|i: int| 0 <= i < o.len() implies same_end(
        #[trigger] picked(v, o)[i],
        picked(w, o)[i],
    ) by {
        assert(o[i] < v.len());
        assert(same_end(v[o[i] as int], w[o[i] as int]));
    }
}

proof fn order_is_same(
    v: Seq<EndView>,
    w: Seq<EndView>,
    x: Seq<&'static str>,
    y: Seq<&'static str>,
)
    requires
        same_ends(v, w),
        same_list(x, y),
        v.len() <= usize::MAX,
    ensures
        same_ends(ends_in_order(v, x), ends_in_order(w, y)),
{
    let k1 = v.map_values(|e: EndView| pins_key(e) as u64);
    assert(k1 =~= w.map_values(|e: EndView| pins_key(e) as u64)) by {
        assert forall|i: int| 0 <= i < v.len() implies pins_key(v[i]) == pins_key(w[i]) by {
            assert(same_end(v[i], w[i]));
        }
    }
    picked_are_same(v, w, k1);
    let a = picked(v, order_of(k1));
    let b = picked(w, order_of(k1));
    order::order_of_is_stable(k1);
    let k2 = a.map_values(|e: EndView| rank_in(x, e.instance) as u64);
    assert(k2 =~= b.map_values(|e: EndView| rank_in(y, e.instance) as u64)) by {
        assert forall|i: int| 0 <= i < a.len() implies rank_in(x, a[i].instance) == rank_in(
            y,
            b[i].instance,
        ) by {
            assert(same_end(a[i], b[i]));
            ranks_are_same(x, y, a[i].instance, b[i].instance);
        }
    }
    picked_are_same(a, b, k2);
    let c = picked(a, order_of(k2));
    let d = picked(b, order_of(k2));
    order::order_of_is_stable(k2);
    let k3 = c.map_values(|e: EndView| kind_rank(e.kind) as u64);
    assert(k3 =~= d.map_values(|e: EndView| kind_rank(e.kind) as u64)) by {
        assert forall|i: int| 0 <= i < c.len() implies kind_rank(c[i].kind) == kind_rank(
            d[i].kind,
        ) by {
            assert(same_end(c[i], d[i]));
        }
    }
    picked_are_same(c, d, k3);
}

proof fn ordering_keeps_length(v: Seq<EndView>, x: Seq<&'static str>)
    ensures
        ends_in_order(v, x).len() == v.len(),
{
    let k1 = v.map_values(|e: EndView| pins_key(e) as u64);
    let a = picked(v, order_of(k1));
    let k2 = a.map_values(|e: EndView| rank_in(x, e.instance) as u64);
    let b = picked(a, order_of(k2));
    let k3 = b.map_values(|e: EndView| kind_rank(e.kind) as u64);
    order::order_upto_len(k1, k1.len() as int);
    order::order_upto_len(k2, k2.len() as int);
    order::order_upto_len(k3, k3.len() as int);
}

/// Chips whose pin tables read the same have front ends that read the same, row by row.
pub proof fn same_chips_have_same_ends(a: RawMcuData, b: RawMcuData)
    requires
        same_chip(a, b),
        ends_of(a).len() <= usize::MAX,
    ensures
        same_ends(ends_of(a), ends_of(b)),
{
    rows_upto_are_same(a.peripherals@, b.peripherals@, a.peripherals@.len() as int);
    let p = rows_of(a);
    let q = rows_of(b);
    instances_are_same(p, q, p.len() as int);
    let x = analog_instances(p, p.len() as int);
    let y = analog_instances(q, q.len() as int);
    ends_upto_are_same(p, q, x, y, x.len() as int);
    ordering_keeps_length(ends_upto(p, x, x.len() as int), x);
    order_is_same(ends_upto(p, x, x.len() as int), ends_upto(q, y, y.len() as int), x, y);
}

} // verus!
