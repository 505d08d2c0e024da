//! What holds of every list of differential front ends.

use vstd::prelude::*;

use crate::analog_view::all_side_ends;
use crate::analog_view::analog_instances;
use crate::analog_view::channel_end;
use crate::analog_view::channel_ends;
use crate::analog_view::ends_of;
use crate::analog_view::ends_upto;
use crate::analog_view::inputs;
use crate::analog_view::instance_ends;
use crate::analog_view::internal_note;
use crate::analog_view::kind_rank;
use crate::analog_view::one_per_pin;
use crate::analog_view::partner_ends;
use crate::analog_view::pins_key;
use crate::analog_view::rows_of_instance;
use crate::analog_view::side;
use crate::analog_view::side_end;
use crate::analog_view::side_ends;
use crate::analog_view::EndView;
use crate::analog_view::Kind;
use crate::mcu_pinout::rows_of;
use crate::mcu_pinout::AfRow;
use crate::mcu_pinout::PinId;
use crate::mcu_raw::RawMcuData;
use crate::order;
use crate::order::order_of;
use crate::order::picked;
use crate::ranked;
use crate::ranked::ascends;
use crate::ranked::ascends_is_distinct;
use crate::ranked::rank_in;
use crate::ranked::Ranked;
use crate::text::has_prefix;

verus! {

/// What holds of each front end: its pins differ; a differential channel is of an
/// ADC; only those have a channel; a pin on the minus side is the unusual case on
/// the others.
pub open spec fn end_well(e: EndView) -> bool {
    &&& e.minus matches Some(q) ==> q.0 != e.plus_pin
    &&& e.kind == Kind::AdcDiff ==> has_prefix(e.instance@, "ADC"@) && e.minus is Some
    &&& e.channel is Some <==> e.kind == Kind::AdcDiff
    &&& e.external_minus <==> e.kind != Kind::AdcDiff && e.minus is Some
}

/// Whether two front ends are the same placement: kind, instance and pins agree.
pub open spec fn same_placement(a: EndView, b: EndView) -> bool {
    &&& a.kind == b.kind
    &&& a.instance@ == b.instance@
    &&& a.plus_pin == b.plus_pin
    &&& match (a.minus, b.minus) {
        (Some(p), Some(q)) => p.0 == q.0,
        (None, None) => true,
        _ => false,
    }
}

/// Each front end is well.
pub open spec fn all_well(v: Seq<EndView>) -> bool {
    forall|i: int| 0 <= i < v.len() ==> end_well(#[trigger] v[i])
}

/// No placement of a comparator or an amplifier is listed twice.
pub open spec fn listed_once(v: Seq<EndView>) -> bool {
    forall|i: int, j: int|
        #![trigger v[i], v[j]]
        0 <= i < j < v.len() && v[i].kind != Kind::AdcDiff ==> !same_placement(v[i], v[j])
}

/// Each front end is of the instance.
spec fn all_of(v: Seq<EndView>, inst: Seq<char>) -> bool {
    forall|i: int| 0 <= i < v.len() ==> (#[trigger] v[i]).instance@ == inst
}

/// Each front end is of the kind.
spec fn all_kind(v: Seq<EndView>, adc: bool, amp: bool) -> bool {
    forall|i: int|
        0 <= i < v.len() ==> (#[trigger] v[i]).kind == (if adc {
            Kind::AdcDiff
        } else if amp {
            Kind::OpampPlus
        } else {
            Kind::Comp
        })
}

proof fn channels_well(all: Seq<AfRow>, rows: Seq<AfRow>, inst: &'static str, m: int)
    requires
        has_prefix(inst@, "ADC"@),
    ensures
        all_well(channel_ends(all, rows, inst, m)),
        all_of(channel_ends(all, rows, inst, m), inst@),
        all_kind(channel_ends(all, rows, inst, m), true, false),
    decreases m,
{
    if m > 0 {
        channels_well(all, rows, inst, m - 1);
        let v = channel_ends(all, rows, inst, m);
        let u = channel_ends(all, rows, inst, m - 1);
        assert forall|i: int| 0 <= i < v.len() implies end_well(#[trigger] v[i])
            && v[i].instance@ == inst@ && v[i].kind == Kind::AdcDiff by {
            if i < u.len() {
                assert(v[i] == u[i]);
            } else {
                assert(v[i] == channel_end(all, rows, inst, (m - 1) as u8)->0);
            }
        }
    }
}

/// The pins of a list differ.
spec fn pins_differ(v: Seq<(PinId, &'static str)>) -> bool {
    forall|i: int, j: int|
        #![trigger v[i], v[j]]
        0 <= i < j < v.len() ==> v[i].0 != v[j].0
}

/// The inputs on one side ascend.
pub proof fn side_ascends(rows: Seq<AfRow>, amp: bool, plus: bool, n: int)
    ensures
        ascends(side(rows, amp, plus, n)),
    decreases n,
{
    if n > 0 {
        side_ascends(rows, amp, plus, n - 1);
        let v = side(rows, amp, plus, n - 1);
        ranked::with_is_set_insert(v, (rows[n - 1].pin, rows[n - 1].signal.role));
    }
}

proof fn one_per_pin_differs(v: Seq<(PinId, &'static str)>, n: int)
    requires
        ascends(v),
        0 <= n <= v.len(),
    ensures
        pins_differ(one_per_pin(v, n)),
        forall|i: int|
            0 <= i < one_per_pin(v, n).len() ==> v.take(n).contains(
                #[trigger] one_per_pin(v, n)[i],
            ),
        n > 0 ==> one_per_pin(v, n).len() > 0 && one_per_pin(v, n).last().0 == v[n - 1].0,
    decreases n,
{
    if n > 0 {
        one_per_pin_differs(v, n - 1);
        let u = one_per_pin(v, n - 1);
        let w = one_per_pin(v, n);
        let s = v.take(n - 1);
        let t = v.take(n);
        assert(t[n - 1] == v[n - 1]);
        assert forall|i: int| 0 <= i < w.len() implies t.contains(#[trigger] w[i]) by {
            if i < u.len() {
                assert(w[i] == u[i]);
                assert(s.contains(u[i]));
                let x = choose|x: int| 0 <= x < s.len() && s[x] == u[i];
                assert(t[x] == u[i]);
            } else {
                assert(w[i] == t[n - 1]);
            }
        }
        assert forall|i: int, j: int|
            #![trigger w[i], w[j]]
            0 <= i < j < w.len() implies w[i].0 != w[j].0 by {
            assert(w[i] == u[i]);
            if j < u.len() {
                assert(w[j] == u[j]);
            } else {
                assert(w[j] == v[n - 1]);
                let last = u.len() - 1;
                assert(s.contains(u[i]));
                let x = choose|x: int| 0 <= x < s.len() && s[x] == u[i];
                assert(v[x] == u[i]);
                assert(v[x].precedes(&v[n - 1]));
                if x < n - 2 {
                    assert(v[x].precedes(&v[n - 2]));
                    assert(v[n - 2].precedes(&v[n - 1]));
                }
            }
        }
    }
}

proof fn inputs_differ(rows: Seq<AfRow>, amp: bool, plus: bool)
    ensures
        pins_differ(inputs(rows, amp, plus)),
{
    let v = side(rows, amp, plus, rows.len() as int);
    side_ascends(rows, amp, plus, rows.len() as int);
    one_per_pin_differs(v, v.len() as int);
}

proof fn partners_well(
    amp: bool,
    inst: &'static str,
    p: (PinId, &'static str),
    minus: Seq<(PinId, &'static str)>,
    k: int,
)
    requires
        pins_differ(minus),
        0 <= k <= minus.len(),
    ensures
        all_well(partner_ends(amp, inst, p, minus, k)),
        all_of(partner_ends(amp, inst, p, minus, k), inst@),
        all_kind(partner_ends(amp, inst, p, minus, k), false, amp),
        listed_once(partner_ends(amp, inst, p, minus, k)),
        forall|i: int|
            0 <= i < partner_ends(amp, inst, p, minus, k).len() ==> {
                let e = #[trigger] partner_ends(amp, inst, p, minus, k)[i];
                e.plus_pin == p.0 && e.minus is Some && exists|x: int|
                    0 <= x < k && e.minus == Some(#[trigger] minus[x])
            },
    decreases k,
{
    if k > 0 {
        partners_well(amp, inst, p, minus, k - 1);
        let u = partner_ends(amp, inst, p, minus, k - 1);
        let v = partner_ends(amp, inst, p, minus, k);
        if minus[k - 1].0 != p.0 {
            assert forall|i: int| 0 <= i < v.len() implies end_well(#[trigger] v[i])
                && v[i].instance@ == inst@ && v[i].kind == (if amp {
                Kind::OpampPlus
            } else {
                Kind::Comp
            }) && v[i].plus_pin == p.0 && v[i].minus is Some && exists|x: int|
                0 <= x < k && v[i].minus == Some(#[trigger] minus[x]) by {
                if i < u.len() {
                    assert(v[i] == u[i]);
                    let x = choose|x: int| 0 <= x < k - 1 && u[i].minus == Some(#[trigger] minus[x]);
                    assert(v[i].minus == Some(minus[x]));
                } else {
                    assert(v[i].minus == Some(minus[k - 1]));
                }
            }
            assert forall|i: int, j: int|
                #![trigger v[i], v[j]]
                0 <= i < j < v.len() && v[i].kind != Kind::AdcDiff implies !same_placement(
                v[i],
                v[j],
            ) by {
                assert(v[i] == u[i]);
                if j < u.len() {
                    assert(v[j] == u[j]);
                } else {
                    let x = choose|x: int| 0 <= x < k - 1 && u[i].minus == Some(#[trigger] minus[x]);
                    assert(minus[x].0 != minus[k - 1].0);
                }
            }
        }
    }
}

proof fn sides_well(
    amp: bool,
    inst: &'static str,
    plus: Seq<(PinId, &'static str)>,
    minus: Seq<(PinId, &'static str)>,
    note: Seq<char>,
    k: int,
)
    requires
        pins_differ(plus),
        pins_differ(minus),
        0 <= k <= plus.len(),
    ensures
        all_well(side_ends(amp, inst, plus, minus, note, k)),
        all_of(side_ends(amp, inst, plus, minus, note, k), inst@),
        all_kind(side_ends(amp, inst, plus, minus, note, k), false, amp),
        listed_once(side_ends(amp, inst, plus, minus, note, k)),
        forall|i: int|
            0 <= i < side_ends(amp, inst, plus, minus, note, k).len() ==> exists|x: int|
                0 <= x < k && (#[trigger] side_ends(amp, inst, plus, minus, note, k)[i]).plus_pin
                    == (#[trigger] plus[x]).0,
    decreases k,
{
    if k > 0 {
        sides_well(amp, inst, plus, minus, note, k - 1);
        let p = plus[k - 1];
        partners_well(amp, inst, p, minus, minus.len() as int);
        let u = side_ends(amp, inst, plus, minus, note, k - 1);
        let alone = side_end(amp, inst, p, None, note);
        let w = partner_ends(amp, inst, p, minus, minus.len() as int);
        let v = side_ends(amp, inst, plus, minus, note, k);
        assert(v == u.push(alone) + w);
        let n = u.len() as int;
        assert forall|i: int| 0 <= i < v.len() implies v[i] == (if i < n {
            u[i]
        } else if i == n {
            alone
        } else {
            w[i - n - 1]
        }) by {}
        assert forall|i: int| 0 <= i < v.len() implies end_well(#[trigger] v[i])
            && v[i].instance@ == inst@ && v[i].kind == (if amp {
            Kind::OpampPlus
        } else {
            Kind::Comp
        }) && exists|x: int| 0 <= x < k && v[i].plus_pin == (#[trigger] plus[x]).0 by {
            if i < n {
                assert(end_well(u[i]));
                let x = choose|x: int| 0 <= x < k - 1 && u[i].plus_pin == (#[trigger] plus[x]).0;
                assert(v[i].plus_pin == plus[x].0);
            } else if i == n {
                assert(v[i].plus_pin == plus[k - 1].0);
            } else {
                assert(end_well(w[i - n - 1]));
                assert(v[i].plus_pin == plus[k - 1].0);
            }
        }
        assert forall|i: int, j: int|
            #![trigger v[i], v[j]]
            0 <= i < j < v.len() && v[i].kind != Kind::AdcDiff implies !same_placement(
            v[i],
            v[j],
        ) by {
            if j < n {
                assert(!same_placement(u[i], u[j]));
            } else if i < n {
                let x = choose|x: int| 0 <= x < k - 1 && u[i].plus_pin == (#[trigger] plus[x]).0;
                assert(plus[x].0 != plus[k - 1].0);
                if j > n {
                    assert(w[j - n - 1].plus_pin == p.0);
                }
            } else if i == n {
                assert(w[j - n - 1].minus is Some);
            } else {
                assert(!same_placement(w[i - n - 1], w[j - n - 1]));
            }
        }
    }
}

proof fn all_sides_well(all: Seq<AfRow>, rows: Seq<AfRow>, amp: bool, inst: &'static str)
    ensures
        all_well(all_side_ends(all, rows, amp, inst)),
        all_of(all_side_ends(all, rows, amp, inst), inst@),
        all_kind(all_side_ends(all, rows, amp, inst), false, amp),
        listed_once(all_side_ends(all, rows, amp, inst)),
{
    inputs_differ(rows, amp, true);
    inputs_differ(rows, amp, false);
    let plus = inputs(rows, amp, true);
    sides_well(
        amp,
        inst,
        plus,
        inputs(rows, amp, false),
        internal_note(all, amp, inst@),
        plus.len() as int,
    );
}

proof fn instance_well(all: Seq<AfRow>, inst: &'static str)
    ensures
        all_well(instance_ends(all, inst)),
        all_of(instance_ends(all, inst), inst@),
        listed_once(instance_ends(all, inst)),
{
    let rows = rows_of_instance(all, inst@, all.len() as int);
    let a = if has_prefix(inst@, "ADC"@) {
        channel_ends(all, rows, inst, 256)
    } else {
        Seq::empty()
    };
    let b = if has_prefix(inst@, "COMP"@) {
        all_side_ends(all, rows, false, inst)
    } else {
        Seq::empty()
    };
    let c = if has_prefix(inst@, "OPAMP"@) {
        all_side_ends(all, rows, true, inst)
    } else {
        Seq::empty()
    };
    if has_prefix(inst@, "ADC"@) {
        channels_well(all, rows, inst, 256);
    }
    all_sides_well(all, rows, false, inst);
    all_sides_well(all, rows, true, inst);
    let v = instance_ends(all, inst);
    assert(v == a + b + c);
    let n1 = a.len() as int;
    let n2 = n1 + b.len();
    assert forall|i: int| 0 <= i < v.len() implies v[i] == (if i < n1 {
        a[i]
    } else if i < n2 {
        b[i - n1]
    } else {
        c[i - n2]
    }) by {}
    assert forall|i: int| 0 <= i < v.len() implies end_well(#[trigger] v[i]) && v[i].instance@
        == inst@ by {
        if i < n1 {
            assert(end_well(a[i]));
        } else if i < n2 {
            assert(end_well(b[i - n1]));
        } else {
            assert(end_well(c[i - n2]));
        }
    }
    assert forall|i: int, j: int|
        #![trigger v[i], v[j]]
        0 <= i < j < v.len() && v[i].kind != Kind::AdcDiff implies !same_placement(v[i], v[j]) by {
        if i < n1 {
            assert(a[i].kind == Kind::AdcDiff);
        } else if j < n2 {
            assert(!same_placement(b[i - n1], b[j - n1]));
        } else if i < n2 {
            assert(b[i - n1].kind == Kind::Comp);
            assert(c[j - n2].kind == Kind::OpampPlus);
        } else {
            assert(!same_placement(c[i - n2], c[j - n2]));
        }
    }
}

proof fn upto_well(all: Seq<AfRow>, insts: Seq<&'static str>, n: int)
    requires
        0 <= n <= insts.len(),
        ascends(insts),
    ensures
        all_well(ends_upto(all, insts, n)),
        listed_once(ends_upto(all, insts, n)),
        forall|i: int|
            0 <= i < ends_upto(all, insts, n).len() ==> exists|x: int|
                0 <= x < n && (#[trigger] ends_upto(all, insts, n)[i]).instance@ == (
                #[trigger] insts[x])@,
    decreases n,
{
    if n > 0 {
        upto_well(all, insts, n - 1);
        instance_well(all, insts[n - 1]);
        let u = ends_upto(all, insts, n - 1);
        let w = instance_ends(all, insts[n - 1]);
        let v = ends_upto(all, insts, n);
        let m = u.len() as int;
        assert forall|i: int| 0 <= i < v.len() implies v[i] == (if i < m {
            u[i]
        } else {
            w[i - m]
        }) by {}
        assert forall|i: int| 0 <= i < v.len() implies end_well(#[trigger] v[i]) && exists|x: int|
            0 <= x < n && v[i].instance@ == (#[trigger] insts[x])@ by {
            if i < m {
                assert(end_well(u[i]));
                let x = choose|x: int| 0 <= x < n - 1 && u[i].instance@ == (#[trigger] insts[x])@;
                assert(v[i].instance@ == insts[x]@);
            } else {
                assert(end_well(w[i - m]));
                assert(w[i - m].instance@ == insts[n - 1]@);
            }
        }
        assert forall|i: int, j: int|
            #![trigger v[i], v[j]]
            0 <= i < j < v.len() && v[i].kind != Kind::AdcDiff implies !same_placement(
            v[i],
            v[j],
        ) by {
            if j < m {
                assert(!same_placement(u[i], u[j]));
            } else if i >= m {
                assert(!same_placement(w[i - m], w[j - m]));
            } else {
                let x = choose|x: int| 0 <= x < n - 1 && u[i].instance@ == (#[trigger] insts[x])@;
                assert(w[j - m].instance@ == insts[n - 1]@);
                if v[i].instance@ == v[j].instance@ {
                    assert(insts[x].alike(&insts[n - 1]));
                    ascends_is_distinct(insts, x, n - 1);
                }
            }
        }
    }
}

/// The instances ascend.
pub proof fn instances_ascend(rows: Seq<AfRow>, n: int)
    ensures
        ascends(analog_instances(rows, n)),
    decreases n,
{
    if n > 0 {
        instances_ascend(rows, n - 1);
        ranked::with_is_set_insert(analog_instances(rows, n - 1), rows[n - 1].signal.peripheral);
    }
}

proof fn picked_well(v: Seq<EndView>, keys: Seq<u64>)
    requires
        all_well(v),
        listed_once(v),
        keys.len() == v.len(),
        v.len() <= usize::MAX,
    ensures
        all_well(picked(v, order_of(keys))),
        listed_once(picked(v, order_of(keys))),
        picked(v, order_of(keys)).len() == v.len(),
{
    order::order_of_is_stable(keys);
    let o = order_of(keys);
    let r = picked(v, o);
    assert forall|i: int| 0 <= i < r.len() implies end_well(#[trigger] r[i]) by {
        assert(o[i] < v.len());
        assert(r[i] == v[o[i] as int]);
    }
    assert forall|i: int, j: int|
        #![trigger r[i], r[j]]
        0 <= i < j < r.len() && r[i].kind != Kind::AdcDiff implies !same_placement(r[i], r[j]) by {
        let x = o[i];
        let y = o[j];
        assert(x < v.len() && y < v.len() && x != y);
        assert(r[i] == v[x as int] && r[j] == v[y as int]);
        if x < y {
            assert(!same_placement(v[x as int], v[y as int]));
        } else if same_placement(r[i], r[j]) {
            assert(v[y as int].kind != Kind::AdcDiff);
            assert(!same_placement(v[y as int], v[x as int]));
        }
    }
}

/// Every listed front end has two different pins or one, a differential channel is
/// one of an ADC, and no placement of a comparator or an amplifier is listed twice.
pub proof fn ends_are_well(raw: RawMcuData)
    requires
        ({
            let all = rows_of(raw);
            let insts = analog_instances(all, all.len() as int);
            ends_upto(all, insts, insts.len() as int).len() <= usize::MAX
        }),
    ensures
        all_well(ends_of(raw)),
        listed_once(ends_of(raw)),
{
    let all = rows_of(raw);
    let insts = analog_instances(all, all.len() as int);
    instances_ascend(all, all.len() as int);
    upto_well(all, insts, insts.len() as int);
    let v = ends_upto(all, insts, insts.len() as int);
    let k1 = v.map_values(|e: EndView| pins_key(e) as u64);
    picked_well(v, k1);
    let a = picked(v, order_of(k1));
    let k2 = a.map_values(|e: EndView| rank_in(insts, e.instance) as u64);
    picked_well(a, k2);
    let b = picked(a, order_of(k2));
    let k3 = b.map_values(|e: EndView| kind_rank(e.kind) as u64);
    picked_well(b, k3);
}

} // verus!
