//! Which pins are the terminals of a differential front end: what the table lists is on the
//! chip, and what the chip has is listed.

use vstd::prelude::*;

use crate::analog_laws::instances_ascend;
use crate::analog_laws::side_ascends;
use crate::analog_roles::adc_neg;
use crate::analog_roles::adc_pos;
use crate::analog_view::all_side_ends;
use crate::analog_view::analog_instances;
use crate::analog_view::channel_end;
use crate::analog_view::channel_ends;
use crate::analog_view::channel_row;
use crate::analog_view::ends_of;
use crate::analog_view::ends_upto;
use crate::analog_view::inputs;
use crate::analog_view::instance_ends;
use crate::analog_view::internal_note;
use crate::analog_view::is_side;
use crate::analog_view::kind_rank;
use crate::analog_view::one_per_pin;
use crate::analog_view::partner_ends;
use crate::analog_view::pins_key;
use crate::analog_view::rows_of_instance;
use crate::analog_view::side;
use crate::analog_view::side_end;
use crate::analog_view::side_ends;
use crate::analog_view::EndView;
use crate::analog_view::Kind;
use crate::frontend_order_laws::rank_fits;
use crate::frontend_order_laws::sorted_holds_all;
use crate::mcu_pinout::pin_rank;
use crate::mcu_pinout::rows_of;
use crate::mcu_pinout::AfRow;
use crate::mcu_pinout::PinId;
use crate::mcu_raw::RawMcuData;
use crate::order::order_of;
use crate::order::order_of_is_stable;
use crate::order::picked;
use crate::ranked;
use crate::ranked::includes;
use crate::ranked::rank_in;
use crate::ranked::Ranked;
use crate::text::before;
use crate::text::digits_value;
use crate::text::is_digit;

verus! {

/// Whether a text begins with another.
pub open spec fn starts(s: Seq<char>, p: Seq<char>) -> bool {
    p.len() <= s.len() && s.take(p.len() as int) == p
}

/// Whether a text ends with another.
pub open spec fn ends(s: Seq<char>, p: Seq<char>) -> bool {
    p.len() <= s.len() && s.skip(s.len() - p.len()) == p
}

/// Whether a role is a name with digits behind it, or none.
pub open spec fn is_numbered(role: Seq<char>, name: Seq<char>) -> bool {
    starts(role, name) && forall|i: int|
        name.len() <= i < role.len() ==> 48 <= (#[trigger] role[i]) as u32 <= 57
}

/// Whether a role is a name and the number `m`.
pub open spec fn is_channel(role: Seq<char>, name: Seq<char>, m: u8) -> bool {
    &&& is_numbered(role, name)
    &&& role.len() > name.len()
    &&& digits_value(role.skip(name.len() as int)) == m
}

/// Whether a role is a plus terminal: `INP` of a comparator, `VINP` of an amplifier.
pub open spec fn is_plus(amp: bool, role: Seq<char>) -> bool {
    if amp {
        starts(role, "VINP"@) && !ends(role, "_SEC"@)
    } else {
        is_numbered(role, "INP"@)
    }
}

/// Whether a role is a minus terminal: `INM` of a comparator, `VINM` of an amplifier.
pub open spec fn is_minus(amp: bool, role: Seq<char>) -> bool {
    if amp {
        starts(role, "VINM"@) && !ends(role, "_SEC"@)
    } else {
        is_numbered(role, "INM"@)
    }
}

/// Whether a row has no alternate function and puts a role of an instance on a pin.
pub open spec fn is_analog_row(r: AfRow, inst: Seq<char>, role: Seq<char>, pin: PinId) -> bool {
    &&& r.af is None
    &&& r.signal.peripheral@ == inst
    &&& r.signal.role@ == role
    &&& r.pin == pin
}

/// Whether a chip has a role of an instance on a pin, without an alternate function.
pub open spec fn has_terminal(raw: RawMcuData, inst: Seq<char>, role: Seq<char>, pin: PinId) -> bool {
    exists|i: int|
        0 <= i < rows_of(raw).len() && is_analog_row(#[trigger] rows_of(raw)[i], inst, role, pin)
}

/// The name that the instances of a kind begin with.
pub open spec fn class_of_kind(k: Kind) -> Seq<char> {
    match k {
        Kind::AdcDiff => "ADC"@,
        Kind::Comp => "COMP"@,
        Kind::OpampPlus => "OPAMP"@,
    }
}

/// Whether the terminals of a front end are on the chip as it says: the plus terminal on the
/// plus pin, and the minus terminal, where it is a pin, on another one.
pub open spec fn is_on_chip(raw: RawMcuData, e: EndView) -> bool {
    &&& starts(e.instance@, class_of_kind(e.kind))
    &&& has_terminal(raw, e.instance@, e.plus_role@, e.plus_pin)
    &&& e.minus matches Some(q) ==> has_terminal(raw, e.instance@, q.1@, q.0) && q.0 != e.plus_pin
    &&& match e.kind {
        Kind::Comp => is_plus(false, e.plus_role@) && (e.minus matches Some(q) ==> is_minus(
            false,
            q.1@,
        )),
        Kind::OpampPlus => is_plus(true, e.plus_role@) && (e.minus matches Some(q) ==> is_minus(
            true,
            q.1@,
        )),
        Kind::AdcDiff => {
            &&& e.channel is Some && e.minus is Some
            &&& is_channel(e.plus_role@, "INP"@, e.channel->0) || is_channel(
                e.plus_role@,
                "IN"@,
                e.channel->0,
            )
            &&& is_channel((e.minus->0).1@, "INN"@, e.channel->0)
        },
    }
}

/// Whether a front end is of a kind and an instance, with these pins.
pub open spec fn is_end_at(
    e: EndView,
    kind: Kind,
    inst: Seq<char>,
    plus: PinId,
    minus: Option<PinId>,
) -> bool {
    &&& e.kind == kind
    &&& e.instance@ == inst
    &&& e.plus_pin == plus
    &&& match (e.minus, minus) {
        (Some(x), Some(q)) => x.0 == q,
        (None, None) => true,
        _ => false,
    }
}

/// Whether a list has a front end of a kind and an instance, with these pins.
pub open spec fn lists(
    v: Seq<EndView>,
    kind: Kind,
    inst: Seq<char>,
    plus: PinId,
    minus: Option<PinId>,
) -> bool {
    exists|i: int| 0 <= i < v.len() && is_end_at(#[trigger] v[i], kind, inst, plus, minus)
}

proof fn sides_are_named(amp: bool, role: Seq<char>)
    ensures
        is_side(amp, true, role) <==> is_plus(amp, role),
        is_side(amp, false, role) <==> is_minus(amp, role),
{
    if !amp {
        numbered_is_named(role, "INP"@);
        numbered_is_named(role, "INM"@);
    }
}

/// A numbered role is a name with digits behind it, or none.
pub proof fn numbered_is_named(role: Seq<char>, name: Seq<char>)
    ensures
        crate::analog_roles::numbered(role, name) <==> is_numbered(role, name),
{
    let tail = role.skip(name.len() as int);
    if role == name {
        assert(role.take(name.len() as int) =~= name);
    }
    if starts(role, name) {
        if role.len() == name.len() {
            assert(role.take(name.len() as int) =~= role);
        } else if is_numbered(role, name) {
            assert forall|i: int| 0 <= i < tail.len() implies is_digit(#[trigger] tail[i]) by {
                assert(tail[i] == role[i + name.len()]);
            }
        } else if crate::analog_roles::numbered(role, name) {
            assert forall|i: int| name.len() <= i < role.len() implies 48 <= (
            #[trigger] role[i]) as u32 <= 57 by {
                assert(is_digit(tail[i - name.len()]));
            }
        }
    }
}

proof fn own_rows(all: Seq<AfRow>, inst: Seq<char>, n: int)
    requires
        0 <= n <= all.len(),
    ensures
        ({
            let rows = rows_of_instance(all, inst, n);
            &&& forall|j: int|
                0 <= j < rows.len() ==> all.contains(#[trigger] rows[j]) && rows[j].af is None
                    && rows[j].signal.peripheral@ == inst
            &&& forall|i: int|
                0 <= i < n && (#[trigger] all[i]).af is None && all[i].signal.peripheral@ == inst
                    ==> rows.contains(all[i])
        }),
    decreases n,
{
    if n > 0 {
        own_rows(all, inst, n - 1);
        let had = rows_of_instance(all, inst, n - 1);
        let rows = rows_of_instance(all, inst, n);
        assert forall|j: int| 0 <= j < rows.len() implies all.contains(#[trigger] rows[j])
            && rows[j].af is None && rows[j].signal.peripheral@ == inst by {
            if j < had.len() {
                assert(rows[j] == had[j]);
            } else {
                assert(rows[j] == all[n - 1]);
            }
        }
        assert forall|i: int|
            0 <= i < n && (#[trigger] all[i]).af is None && all[i].signal.peripheral@
                == inst implies rows.contains(all[i]) by {
            if i < n - 1 {
                assert(had.contains(all[i]));
                let x = choose|x: int| 0 <= x < had.len() && had[x] == all[i];
                assert(rows[x] == all[i]);
            } else {
                assert(rows[rows.len() - 1] == all[i]);
            }
        }
    }
}

/// Whether an input is that of a row.
spec fn is_from(rows: Seq<AfRow>, j: int, x: (PinId, &'static str)) -> bool {
    0 <= j < rows.len() && rows[j].pin == x.0 && rows[j].signal.role == x.1
}

proof fn side_is_of_rows(rows: Seq<AfRow>, amp: bool, plus: bool, n: int)
    requires
        0 <= n <= rows.len(),
    ensures
        ({
            let v = side(rows, amp, plus, n);
            &&& forall|k: int|
                0 <= k < v.len() ==> is_side(amp, plus, (#[trigger] v[k]).1@) && exists|j: int|
                    #[trigger] is_from(rows, j, v[k])
            &&& forall|j: int|
                0 <= j < n && is_side(amp, plus, (#[trigger] rows[j]).signal.role@) ==> includes(
                    v,
                    (rows[j].pin, rows[j].signal.role),
                )
        }),
    decreases n,
{
    if n > 0 {
        side_is_of_rows(rows, amp, plus, n - 1);
        side_ascends(rows, amp, plus, n - 1);
        let had = side(rows, amp, plus, n - 1);
        let v = side(rows, amp, plus, n);
        let x = (rows[n - 1].pin, rows[n - 1].signal.role);
        ranked::with_is_set_insert(had, x);
        assert forall|k: int| 0 <= k < v.len() implies is_side(amp, plus, (#[trigger] v[k]).1@)
            && exists|j: int| #[trigger] is_from(rows, j, v[k]) by {
            if had.contains(v[k]) {
                let y = choose|y: int| 0 <= y < had.len() && had[y] == v[k];
                assert(is_side(amp, plus, had[y].1@));
                let j = choose|j: int| #[trigger] is_from(rows, j, had[y]);
                assert(is_from(rows, j, v[k]));
            } else {
                assert(is_from(rows, n - 1, v[k]));
            }
        }
        assert forall|j: int|
            0 <= j < n && is_side(amp, plus, (#[trigger] rows[j]).signal.role@) implies includes(
            v,
            (rows[j].pin, rows[j].signal.role),
        ) by {
            let y = (rows[j].pin, rows[j].signal.role);
            if j < n - 1 {
                assert(includes(had, y));
            } else {
                assert(x.alike(&y));
            }
        }
    }
}

proof fn each_pin_stays(v: Seq<(PinId, &'static str)>, n: int)
    requires
        0 <= n <= v.len(),
    ensures
        ({
            let u = one_per_pin(v, n);
            &&& forall|k: int| 0 <= k < u.len() ==> v.contains(#[trigger] u[k])
            &&& forall|i: int| 0 <= i < n ==> has_pin(u, (#[trigger] v[i]).0)
        }),
    decreases n,
{
    if n > 0 {
        each_pin_stays(v, n - 1);
        let had = one_per_pin(v, n - 1);
        let u = one_per_pin(v, n);
        assert forall|k: int| 0 <= k < u.len() implies v.contains(#[trigger] u[k]) by {
            if k < had.len() {
                assert(u[k] == had[k]);
            } else {
                assert(u[k] == v[n - 1]);
            }
        }
        assert forall|i: int| 0 <= i < n implies has_pin(u, (#[trigger] v[i]).0) by {
            if i < n - 1 {
                assert(has_pin(had, v[i].0));
                let k = choose|k: int| 0 <= k < had.len() && (#[trigger] had[k]).0 == v[i].0;
                assert(u[k].0 == v[i].0);
            } else if n > 1 && v[n - 2].0 == v[n - 1].0 {
                assert(has_pin(had, v[n - 2].0));
            } else {
                assert(u[u.len() - 1].0 == v[i].0);
            }
        }
    }
}

/// Whether one of the inputs is on a pin.
spec fn has_pin(v: Seq<(PinId, &'static str)>, pin: PinId) -> bool {
    exists|k: int| 0 <= k < v.len() && (#[trigger] v[k]).0 == pin
}

/// The inputs of an instance are its terminals: one for each pin that has one.
proof fn inputs_are_terminals(raw: RawMcuData, inst: Seq<char>, amp: bool, plus: bool)
    ensures
        ({
            let all = rows_of(raw);
            let v = inputs(rows_of_instance(all, inst, all.len() as int), amp, plus);
            &&& forall|k: int|
                0 <= k < v.len() ==> is_side(amp, plus, (#[trigger] v[k]).1@) && has_terminal(
                    raw,
                    inst,
                    v[k].1@,
                    v[k].0,
                )
            &&& forall|role: Seq<char>, pin: PinId| #[trigger]
                has_terminal(raw, inst, role, pin) && is_side(amp, plus, role) ==> has_pin(v, pin)
        }),
{
    let all = rows_of(raw);
    let rows = rows_of_instance(all, inst, all.len() as int);
    let s = side(rows, amp, plus, rows.len() as int);
    let v = inputs(rows, amp, plus);
    own_rows(all, inst, all.len() as int);
    side_is_of_rows(rows, amp, plus, rows.len() as int);
    each_pin_stays(s, s.len() as int);
    assert forall|k: int| 0 <= k < v.len() implies is_side(amp, plus, (#[trigger] v[k]).1@)
        && has_terminal(raw, inst, v[k].1@, v[k].0) by {
        assert(s.contains(v[k]));
        let x = choose|x: int| 0 <= x < s.len() && s[x] == v[k];
        assert(is_side(amp, plus, s[x].1@));
        let j = choose|j: int| #[trigger] is_from(rows, j, s[x]);
        assert(all.contains(rows[j]));
        let i = choose|i: int| 0 <= i < all.len() && all[i] == rows[j];
        assert(is_analog_row(all[i], inst, v[k].1@, v[k].0));
    }
    assert forall|role: Seq<char>, pin: PinId| #[trigger]
        has_terminal(raw, inst, role, pin) && is_side(amp, plus, role) implies has_pin(v, pin) by {
        let i = choose|i: int|
            0 <= i < all.len() && is_analog_row(#[trigger] all[i], inst, role, pin);
        assert(rows.contains(all[i]));
        let j = choose|j: int| 0 <= j < rows.len() && rows[j] == all[i];
        let y = (rows[j].pin, rows[j].signal.role);
        assert(includes(s, y));
        let x = choose|x: int| 0 <= x < s.len() && (#[trigger] s[x]).alike(&y);
        assert(has_pin(v, s[x].0));
    }
}

/// Whether a front end pairs two inputs.
spec fn pairs(
    e: EndView,
    amp: bool,
    inst: &'static str,
    p: (PinId, &'static str),
    m: Option<(PinId, &'static str)>,
) -> bool {
    &&& e.kind == (if amp {
        Kind::OpampPlus
    } else {
        Kind::Comp
    })
    &&& e.instance == inst
    &&& e.plus_pin == p.0
    &&& e.plus_role == p.1
    &&& e.minus == m
}

proof fn partners_are_all(
    amp: bool,
    inst: &'static str,
    p: (PinId, &'static str),
    minus: Seq<(PinId, &'static str)>,
    k: int,
)
    requires
        0 <= k <= minus.len(),
    ensures
        ({
            let v = partner_ends(amp, inst, p, minus, k);
            &&& forall|i: int|
                0 <= i < v.len() ==> (#[trigger] v[i]).minus is Some && minus.contains(v[i].minus->0)
                    && (v[i].minus->0).0 != p.0 && pairs(v[i], amp, inst, p, v[i].minus)
            &&& forall|x: int|
                0 <= x < k && (#[trigger] minus[x]).0 != p.0 ==> has_pair(
                    v,
                    amp,
                    inst,
                    p,
                    Some(minus[x]),
                )
        }),
    decreases k,
{
    if k > 0 {
        partners_are_all(amp, inst, p, minus, k - 1);
        let had = partner_ends(amp, inst, p, minus, k - 1);
        let v = partner_ends(amp, inst, p, minus, k);
        assert forall|i: int| 0 <= i < v.len() implies (#[trigger] v[i]).minus is Some
            && minus.contains(v[i].minus->0) && (v[i].minus->0).0 != p.0 && pairs(
            v[i],
            amp,
            inst,
            p,
            v[i].minus,
        ) by {
            if i < had.len() {
                assert(v[i] == had[i]);
            } else {
                assert(v[i].minus == Some(minus[k - 1]));
            }
        }
        assert forall|x: int| 0 <= x < k && (#[trigger] minus[x]).0 != p.0 implies has_pair(
            v,
            amp,
            inst,
            p,
            Some(minus[x]),
        ) by {
            if x < k - 1 {
                assert(has_pair(had, amp, inst, p, Some(minus[x])));
                let i = choose|i: int|
                    0 <= i < had.len() && pairs(#[trigger] had[i], amp, inst, p, Some(minus[x]));
                assert(pairs(v[i], amp, inst, p, Some(minus[x])));
            } else {
                assert(pairs(v[v.len() - 1], amp, inst, p, Some(minus[x])));
            }
        }
    }
}

/// Whether a list has a front end that pairs two inputs.
spec fn has_pair(
    v: Seq<EndView>,
    amp: bool,
    inst: &'static str,
    p: (PinId, &'static str),
    m: Option<(PinId, &'static str)>,
) -> bool {
    exists|i: int| 0 <= i < v.len() && pairs(#[trigger] v[i], amp, inst, p, m)
}

/// Whether a front end pairs an input of the one list with none, or one on another pin, of
/// the other.
spec fn is_of_sides(
    e: EndView,
    amp: bool,
    inst: &'static str,
    plus: Seq<(PinId, &'static str)>,
    minus: Seq<(PinId, &'static str)>,
) -> bool {
    &&& plus.contains((e.plus_pin, e.plus_role))
    &&& e.minus matches Some(q) ==> minus.contains(q) && q.0 != e.plus_pin
    &&& pairs(e, amp, inst, (e.plus_pin, e.plus_role), e.minus)
}

proof fn sides_are_all(
    amp: bool,
    inst: &'static str,
    plus: Seq<(PinId, &'static str)>,
    minus: Seq<(PinId, &'static str)>,
    note: Seq<char>,
    k: int,
)
    requires
        0 <= k <= plus.len(),
    ensures
        ({
            let v = side_ends(amp, inst, plus, minus, note, k);
            &&& forall|i: int|
                0 <= i < v.len() ==> is_of_sides(#[trigger] v[i], amp, inst, plus, minus)
            &&& forall|y: int|
                0 <= y < k ==> has_pair(v, amp, inst, #[trigger] plus[y], None)
            &&& forall|y: int, x: int|
                #![trigger plus[y], minus[x]]
                0 <= y < k && 0 <= x < minus.len() && minus[x].0 != plus[y].0 ==> has_pair(
                    v,
                    amp,
                    inst,
                    plus[y],
                    Some(minus[x]),
                )
        }),
    decreases k,
{
    if k > 0 {
        sides_are_all(amp, inst, plus, minus, note, k - 1);
        let p = plus[k - 1];
        partners_are_all(amp, inst, p, minus, minus.len() as int);
        let had = side_ends(amp, inst, plus, minus, note, k - 1);
        let alone = side_end(amp, inst, p, None, note);
        let more = partner_ends(amp, inst, p, minus, minus.len() as int);
        let v = side_ends(amp, inst, plus, minus, note, k);
        assert(v == had.push(alone) + more);
        let n = had.len() as int;
        assert forall|i: int| 0 <= i < n implies #[trigger] v[i] == had[i] by {}
        assert(v[n] == alone);
        assert forall|i: int| 0 <= i < more.len() implies #[trigger] more[i] == v[n + 1 + i] by {}
        assert forall|i: int| 0 <= i < v.len() implies is_of_sides(
            #[trigger] v[i],
            amp,
            inst,
            plus,
            minus,
        ) by {
            assert(plus.contains(p));
            if i < n {
                assert(is_of_sides(had[i], amp, inst, plus, minus));
            } else if i > n {
                assert(more[i - n - 1] == v[i]);
            }
        }
        assert forall|y: int| 0 <= y < k implies has_pair(
            v,
            amp,
            inst,
            #[trigger] plus[y],
            None,
        ) by {
            if y < k - 1 {
                assert(has_pair(had, amp, inst, plus[y], None));
                let i = choose|i: int|
                    0 <= i < had.len() && pairs(#[trigger] had[i], amp, inst, plus[y], None);
                assert(pairs(v[i], amp, inst, plus[y], None));
            } else {
                assert(pairs(v[n], amp, inst, plus[y], None));
            }
        }
        assert forall|y: int, x: int|
            #![trigger plus[y], minus[x]]
            0 <= y < k && 0 <= x < minus.len() && minus[x].0 != plus[y].0 implies has_pair(
            v,
            amp,
            inst,
            plus[y],
            Some(minus[x]),
        ) by {
            let m = Some(minus[x]);
            if y < k - 1 {
                assert(has_pair(had, amp, inst, plus[y], m));
                let i = choose|i: int|
                    0 <= i < had.len() && pairs(#[trigger] had[i], amp, inst, plus[y], m);
                assert(pairs(v[i], amp, inst, plus[y], m));
            } else {
                assert(has_pair(more, amp, inst, p, m));
                let i = choose|i: int|
                    0 <= i < more.len() && pairs(#[trigger] more[i], amp, inst, p, m);
                assert(pairs(v[n + 1 + i], amp, inst, plus[y], m));
            }
        }
    }
}

proof fn side_ends_are_on_chip(raw: RawMcuData, amp: bool, inst: &'static str)
    requires
        starts(
            inst@,
            class_of_kind(
                if amp {
                    Kind::OpampPlus
                } else {
                    Kind::Comp
                },
            ),
        ),
    ensures
        ({
            let all = rows_of(raw);
            let v = all_side_ends(all, rows_of_instance(all, inst@, all.len() as int), amp, inst);
            let kind = if amp {
                Kind::OpampPlus
            } else {
                Kind::Comp
            };
            &&& forall|i: int| 0 <= i < v.len() ==> is_on_chip(raw, #[trigger] v[i])
            &&& forall|role: Seq<char>, p: PinId| #[trigger]
                has_terminal(raw, inst@, role, p) && is_plus(amp, role) ==> lists(
                    v,
                    kind,
                    inst@,
                    p,
                    None,
                )
            &&& forall|a: Seq<char>, p: PinId, b: Seq<char>, q: PinId|
                #![trigger has_terminal(raw, inst@, a, p), has_terminal(raw, inst@, b, q)]
                has_terminal(raw, inst@, a, p) && is_plus(amp, a) && has_terminal(raw, inst@, b, q)
                    && is_minus(amp, b) && p != q ==> lists(v, kind, inst@, p, Some(q))
        }),
{
    let all = rows_of(raw);
    let rows = rows_of_instance(all, inst@, all.len() as int);
    let plus = inputs(rows, amp, true);
    let minus = inputs(rows, amp, false);
    let note = internal_note(all, amp, inst@);
    let v = all_side_ends(all, rows, amp, inst);
    let kind = if amp {
        Kind::OpampPlus
    } else {
        Kind::Comp
    };
    inputs_are_terminals(raw, inst@, amp, true);
    inputs_are_terminals(raw, inst@, amp, false);
    sides_are_all(amp, inst, plus, minus, note, plus.len() as int);
    assert forall|i: int| 0 <= i < v.len() implies is_on_chip(raw, #[trigger] v[i]) by {
        let e = v[i];
        assert(is_of_sides(e, amp, inst, plus, minus));
        let y = choose|y: int| 0 <= y < plus.len() && plus[y] == (e.plus_pin, e.plus_role);
        assert(is_side(amp, true, plus[y].1@));
        sides_are_named(amp, e.plus_role@);
        if let Some(q) = e.minus {
            let x = choose|x: int| 0 <= x < minus.len() && minus[x] == q;
            assert(is_side(amp, false, minus[x].1@));
            sides_are_named(amp, q.1@);
        }
    }
    assert forall|role: Seq<char>, p: PinId| #[trigger]
        has_terminal(raw, inst@, role, p) && is_plus(amp, role) implies lists(
        v,
        kind,
        inst@,
        p,
        None,
    ) by {
        sides_are_named(amp, role);
        assert(has_pin(plus, p));
        let y = choose|y: int| 0 <= y < plus.len() && (#[trigger] plus[y]).0 == p;
        assert(has_pair(v, amp, inst, plus[y], None));
        let i = choose|i: int| 0 <= i < v.len() && pairs(#[trigger] v[i], amp, inst, plus[y], None);
        assert(is_end_at(v[i], kind, inst@, p, None));
    }
    assert forall|a: Seq<char>, p: PinId, b: Seq<char>, q: PinId|
        #![trigger has_terminal(raw, inst@, a, p), has_terminal(raw, inst@, b, q)]
        has_terminal(raw, inst@, a, p) && is_plus(amp, a) && has_terminal(raw, inst@, b, q)
            && is_minus(amp, b) && p != q implies lists(v, kind, inst@, p, Some(q)) by {
        sides_are_named(amp, a);
        sides_are_named(amp, b);
        assert(has_pin(plus, p) && has_pin(minus, q));
        let y = choose|y: int| 0 <= y < plus.len() && (#[trigger] plus[y]).0 == p;
        let x = choose|x: int| 0 <= x < minus.len() && (#[trigger] minus[x]).0 == q;
        assert(has_pair(v, amp, inst, plus[y], Some(minus[x])));
        let i = choose|i: int|
            0 <= i < v.len() && pairs(#[trigger] v[i], amp, inst, plus[y], Some(minus[x]));
        assert(is_end_at(v[i], kind, inst@, p, Some(q)));
    }
}

proof fn row_of_channel(rows: Seq<AfRow>, positive: bool, m: u8, k: int)
    requires
        0 <= k,
    ensures
        channel_row(rows, positive, m, k) matches Some(r) ==> exists|j: int|
            k <= j < rows.len() && #[trigger] rows[j] == r && (if positive {
                adc_pos(r.signal.role@)
            } else {
                adc_neg(r.signal.role@)
            }) == Some(m),
        channel_row(rows, positive, m, k) is None ==> forall|j: int|
            k <= j < rows.len() ==> (if positive {
                adc_pos((#[trigger] rows[j]).signal.role@)
            } else {
                adc_neg(rows[j].signal.role@)
            }) != Some(m),
    decreases rows.len() - k,
{
    if k < rows.len() {
        row_of_channel(rows, positive, m, k + 1);
    }
}

/// The channel of a role is the number behind its name.
pub proof fn channels_are_named(role: Seq<char>, m: u8)
    ensures
        adc_pos(role) == Some(m) <==> is_channel(role, "INP"@, m) || is_channel(role, "IN"@, m),
        adc_neg(role) == Some(m) <==> is_channel(role, "INN"@, m),
{
    reveal_strlit("IN");
    reveal_strlit("INP");
    reveal_strlit("INN");
    named_by_number(role, "INP"@, m);
    named_by_number(role, "IN"@, m);
    named_by_number(role, "INN"@, m);
    if starts(role, "INP"@) {
        assert(role.take(3)[2] == 'P');
        assert(role[2] == 'P');
        assert(!is_numbered(role, "IN"@));
    }
}

/// A role is a name and a number exactly where what follows the name reads as that number.
pub proof fn named_by_number(role: Seq<char>, name: Seq<char>, m: u8)
    ensures
        is_channel(role, name, m) <==> starts(role, name) && crate::text::plain_number(
            role.skip(name.len() as int),
        ) == Some(m),
{
    let tail = role.skip(name.len() as int);
    if starts(role, name) {
        if is_numbered(role, name) {
            assert forall|i: int| 0 <= i < tail.len() implies is_digit(#[trigger] tail[i]) by {
                assert(tail[i] == role[i + name.len()]);
            }
            if tail.len() > 0 {
                value_is_positive(tail);
            }
        }
        if crate::text::all_digits(tail) {
            assert forall|i: int| name.len() <= i < role.len() implies 48 <= (
            #[trigger] role[i]) as u32 <= 57 by {
                assert(is_digit(tail[i - name.len()]));
            }
            value_is_positive(tail);
        }
    }
}

proof fn value_is_positive(s: Seq<char>)
    requires
        crate::text::all_digits(s),
    ensures
        digits_value(s) >= 0,
    decreases s.len(),
{
    if s.len() > 0 {
        assert(is_digit(s[s.len() - 1]));
        assert forall|i: int| 0 <= i < s.drop_last().len() implies is_digit(
            #[trigger] s.drop_last()[i],
        ) by {
            assert(is_digit(s[i]));
        }
        value_is_positive(s.drop_last());
    }
}

proof fn channel_ends_are(all: Seq<AfRow>, rows: Seq<AfRow>, inst: &'static str, n: int)
    requires
        0 <= n <= 256,
    ensures
        ({
            let v = channel_ends(all, rows, inst, n);
            &&& forall|i: int|
                0 <= i < v.len() ==> exists|m: u8|
                    m < n && #[trigger] channel_end(all, rows, inst, m) == Some(#[trigger] v[i])
            &&& forall|m: u8|
                m < n && (#[trigger] channel_end(all, rows, inst, m)) is Some ==> v.contains(
                    channel_end(all, rows, inst, m)->0,
                )
        }),
    decreases n,
{
    if n > 0 {
        channel_ends_are(all, rows, inst, n - 1);
        let had = channel_ends(all, rows, inst, n - 1);
        let v = channel_ends(all, rows, inst, n);
        assert forall|i: int| 0 <= i < v.len() implies exists|m: u8|
            m < n && #[trigger] channel_end(all, rows, inst, m) == Some(#[trigger] v[i]) by {
            if i < had.len() {
                let m = choose|m: u8|
                    m < n - 1 && #[trigger] channel_end(all, rows, inst, m) == Some(had[i]);
                assert(channel_end(all, rows, inst, m) == Some(v[i]));
            } else {
                assert(channel_end(all, rows, inst, (n - 1) as u8) == Some(v[i]));
            }
        }
        assert forall|m: u8| m < n && (#[trigger] channel_end(all, rows, inst, m)) is Some implies v.contains(
            channel_end(all, rows, inst, m)->0,
        ) by {
            let e = channel_end(all, rows, inst, m)->0;
            if m < n - 1 {
                let x = choose|x: int| 0 <= x < had.len() && had[x] == e;
                assert(v[x] == e);
            } else {
                assert(v[v.len() - 1] == e);
            }
        }
    }
}

/// Whether a list has a front end of an ADC's differential channel.
pub open spec fn lists_channel(v: Seq<EndView>, inst: Seq<char>, m: u8) -> bool {
    exists|i: int|
        0 <= i < v.len() && (#[trigger] v[i]).kind == Kind::AdcDiff && v[i].instance@ == inst
            && v[i].channel == Some(m)
}

proof fn channel_ends_are_on_chip(raw: RawMcuData, inst: &'static str)
    requires
        starts(inst@, "ADC"@),
    ensures
        ({
            let all = rows_of(raw);
            let v = channel_ends(all, rows_of_instance(all, inst@, all.len() as int), inst, 256);
            &&& forall|i: int| 0 <= i < v.len() ==> is_on_chip(raw, #[trigger] v[i])
            &&& forall|m: u8| #[trigger] has_channel(raw, inst@, m) ==> lists_channel(v, inst@, m)
        }),
{
    let all = rows_of(raw);
    let rows = rows_of_instance(all, inst@, all.len() as int);
    let v = channel_ends(all, rows, inst, 256);
    own_rows(all, inst@, all.len() as int);
    channel_ends_are(all, rows, inst, 256);
    assert forall|i: int| 0 <= i < v.len() implies is_on_chip(raw, #[trigger] v[i]) by {
        let e = v[i];
        let m = choose|m: u8| m < 256 && #[trigger] channel_end(all, rows, inst, m) == Some(v[i]);
        let p = channel_row(rows, true, m, 0)->0;
        let q = channel_row(rows, false, m, 0)->0;
        row_of_channel(rows, true, m, 0);
        row_of_channel(rows, false, m, 0);
        channels_are_named(p.signal.role@, m);
        channels_are_named(q.signal.role@, m);
        let j = choose|j: int| 0 <= j < rows.len() && #[trigger] rows[j] == p;
        let k = choose|k: int| 0 <= k < rows.len() && #[trigger] rows[k] == q;
        assert(all.contains(rows[j]) && all.contains(rows[k]));
        let a = choose|a: int| 0 <= a < all.len() && all[a] == p;
        let b = choose|b: int| 0 <= b < all.len() && all[b] == q;
        assert(is_analog_row(all[a], inst@, p.signal.role@, p.pin));
        assert(is_analog_row(all[b], inst@, q.signal.role@, q.pin));
    }
    assert forall|m: u8| #[trigger] has_channel(raw, inst@, m) implies lists_channel(v, inst@, m) by {
        let (a, b) = choose|a: int, b: int| #[trigger] is_channel_pair(raw, inst@, m, a, b);
        assert(rows.contains(all[a]) && rows.contains(all[b]));
        let x = choose|x: int| 0 <= x < rows.len() && rows[x] == all[a];
        let y = choose|y: int| 0 <= y < rows.len() && rows[y] == all[b];
        row_of_channel(rows, true, m, 0);
        row_of_channel(rows, false, m, 0);
        channels_are_named(rows[x].signal.role@, m);
        channels_are_named(rows[y].signal.role@, m);
        let p = channel_row(rows, true, m, 0)->0;
        let q = channel_row(rows, false, m, 0)->0;
        assert(channel_row(rows, true, m, 0) is Some && channel_row(rows, false, m, 0) is Some);
        channels_are_named(p.signal.role@, m);
        channels_are_named(q.signal.role@, m);
        let j = choose|j: int| 0 <= j < rows.len() && #[trigger] rows[j] == p;
        let k = choose|k: int| 0 <= k < rows.len() && #[trigger] rows[k] == q;
        assert(all.contains(rows[j]) && all.contains(rows[k]));
        let c = choose|c: int| 0 <= c < all.len() && all[c] == p;
        let d = choose|d: int| 0 <= d < all.len() && all[d] == q;
        assert(is_positive(all[c], inst@, m) && is_negative(all[d], inst@, m));
        assert(all[c].pin != all[d].pin);
        let e = channel_end(all, rows, inst, m)->0;
        assert(v.contains(e));
        let i = choose|i: int| 0 <= i < v.len() && v[i] == e;
        assert(v[i].channel == Some(m));
    }
}

/// Whether a row is the positive input of an ADC's channel.
pub open spec fn is_positive(r: AfRow, inst: Seq<char>, m: u8) -> bool {
    &&& r.af is None
    &&& r.signal.peripheral@ == inst
    &&& is_channel(r.signal.role@, "INP"@, m) || is_channel(r.signal.role@, "IN"@, m)
}

/// Whether a row is the negative input of an ADC's channel.
pub open spec fn is_negative(r: AfRow, inst: Seq<char>, m: u8) -> bool {
    r.af is None && r.signal.peripheral@ == inst && is_channel(r.signal.role@, "INN"@, m)
}

/// Whether two rows are the two inputs of an ADC's channel, and no pin is both.
pub open spec fn is_channel_pair(raw: RawMcuData, inst: Seq<char>, m: u8, a: int, b: int) -> bool {
    let rows = rows_of(raw);
    &&& 0 <= a < rows.len() && 0 <= b < rows.len()
    &&& is_positive(rows[a], inst, m)
    &&& is_negative(rows[b], inst, m)
    &&& forall|i: int, j: int|
        #![trigger rows[i], rows[j]]
        0 <= i < rows.len() && 0 <= j < rows.len() && is_positive(rows[i], inst, m) && is_negative(
            rows[j],
            inst,
            m,
        ) ==> rows[i].pin != rows[j].pin
}

/// Whether a chip has both inputs of an ADC's channel, on different pins.
pub open spec fn has_channel(raw: RawMcuData, inst: Seq<char>, m: u8) -> bool {
    exists|a: int, b: int| #[trigger] is_channel_pair(raw, inst, m, a, b)
}

proof fn upto_holds(all: Seq<AfRow>, insts: Seq<&'static str>, n: int, x: int)
    requires
        0 <= n <= insts.len(),
    ensures
        forall|i: int|
            0 <= i < ends_upto(all, insts, n).len() ==> exists|y: int|
                0 <= y < n && instance_ends(all, #[trigger] insts[y]).contains(
                    #[trigger] ends_upto(all, insts, n)[i],
                ),
        0 <= x < n ==> forall|e: EndView| #[trigger]
            instance_ends(all, insts[x]).contains(e) ==> ends_upto(all, insts, n).contains(e),
    decreases n,
{
    if n > 0 {
        upto_holds(all, insts, n - 1, x);
        let had = ends_upto(all, insts, n - 1);
        let more = instance_ends(all, insts[n - 1]);
        let v = ends_upto(all, insts, n);
        assert forall|i: int| 0 <= i < v.len() implies exists|y: int|
            0 <= y < n && instance_ends(all, #[trigger] insts[y]).contains(#[trigger] v[i]) by {
            if i < had.len() {
                assert(v[i] == had[i]);
                let y = choose|y: int|
                    0 <= y < n - 1 && instance_ends(all, #[trigger] insts[y]).contains(had[i]);
                assert(instance_ends(all, insts[y]).contains(v[i]));
            } else {
                assert(v[i] == more[i - had.len()]);
                assert(instance_ends(all, insts[n - 1]).contains(v[i]));
            }
        }
        if 0 <= x < n {
            assert forall|e: EndView| #[trigger] instance_ends(all, insts[x]).contains(e) implies v.contains(
                e,
            ) by {
                if x < n - 1 {
                    let i = choose|i: int| 0 <= i < had.len() && had[i] == e;
                    assert(v[i] == e);
                } else {
                    let i = choose|i: int| 0 <= i < more.len() && more[i] == e;
                    assert(v[had.len() + i] == e);
                }
            }
        }
    }
}

proof fn instances_are_all(rows: Seq<AfRow>, n: int)
    requires
        0 <= n <= rows.len(),
    ensures
        forall|i: int|
            0 <= i < n && (#[trigger] rows[i]).af is None ==> includes(
                analog_instances(rows, n),
                rows[i].signal.peripheral,
            ),
    decreases n,
{
    if n > 0 {
        instances_are_all(rows, n - 1);
        instances_ascend(rows, n - 1);
        let had = analog_instances(rows, n - 1);
        let x = rows[n - 1].signal.peripheral;
        ranked::with_is_set_insert(had, x);
        assert forall|i: int| 0 <= i < n && (#[trigger] rows[i]).af is None implies includes(
            analog_instances(rows, n),
            rows[i].signal.peripheral,
        ) by {
            if i == n - 1 {
                assert(x.alike(&x));
            } else {
                assert(includes(had, rows[i].signal.peripheral));
            }
        }
    }
}

/// The front ends of an instance's parts are in the list of all.
proof fn parts_are_listed(raw: RawMcuData, inst: Seq<char>, role: Seq<char>, pin: PinId) -> (r: &'static str)
    requires
        has_terminal(raw, inst, role, pin),
        fits(raw),
    ensures
        r@ == inst,
        forall|e: EndView| #[trigger]
            instance_ends(rows_of(raw), r).contains(e) ==> ends_of(raw).contains(e),
{
    let all = rows_of(raw);
    let insts = analog_instances(all, all.len() as int);
    instances_are_all(all, all.len() as int);
    let i = choose|i: int| 0 <= i < all.len() && is_analog_row(#[trigger] all[i], inst, role, pin);
    let y = all[i].signal.peripheral;
    let x = choose|x: int| 0 <= x < insts.len() && (#[trigger] insts[x]).alike(&y);
    upto_holds(all, insts, insts.len() as int, x);
    order_holds_all(raw);
    insts[x]
}

/// Whether the front ends of a chip can be counted.
pub open spec fn fits(raw: RawMcuData) -> bool {
    let all = rows_of(raw);
    let insts = analog_instances(all, all.len() as int);
    ends_upto(all, insts, insts.len() as int).len() <= usize::MAX
}

proof fn order_holds_all(raw: RawMcuData)
    requires
        fits(raw),
    ensures
        ({
            let all = rows_of(raw);
            let insts = analog_instances(all, all.len() as int);
            forall|e: EndView| #[trigger]
                ends_of(raw).contains(e) <==> ends_upto(all, insts, insts.len() as int).contains(e)
        }),
{
    let all = rows_of(raw);
    let insts = analog_instances(all, all.len() as int);
    let v = ends_upto(all, insts, insts.len() as int);
    let k1 = v.map_values(|e: EndView| pins_key(e) as u64);
    let a = picked(v, order_of(k1));
    sorted_holds_all(v, k1);
    let k2 = a.map_values(|e: EndView| rank_in(insts, e.instance) as u64);
    let b = picked(a, order_of(k2));
    sorted_holds_all(a, k2);
    let k3 = b.map_values(|e: EndView| kind_rank(e.kind) as u64);
    sorted_holds_all(b, k3);
    assert forall|e: EndView| #[trigger] ends_of(raw).contains(e) <==> v.contains(e) by {
        assert(a.contains(e) <==> v.contains(e));
        assert(b.contains(e) <==> a.contains(e));
    }
}

/// Each front end that is listed is on the chip: its plus terminal is on its plus pin, and
/// its minus terminal, if that is a pin, is on another pin.
pub proof fn what_is_listed_is_on_the_chip(raw: RawMcuData, i: int)
    requires
        fits(raw),
        0 <= i < ends_of(raw).len(),
    ensures
        is_on_chip(raw, ends_of(raw)[i]),
{
    let all = rows_of(raw);
    let insts = analog_instances(all, all.len() as int);
    let v = ends_upto(all, insts, insts.len() as int);
    let e = ends_of(raw)[i];
    order_holds_all(raw);
    assert(ends_of(raw).contains(e));
    let k = choose|k: int| 0 <= k < v.len() && v[k] == e;
    upto_holds(all, insts, insts.len() as int, 0);
    let y = choose|y: int|
        0 <= y < insts.len() && instance_ends(all, #[trigger] insts[y]).contains(v[k]);
    let inst = insts[y];
    let rows = rows_of_instance(all, inst@, all.len() as int);
    let u = instance_ends(all, inst);
    let j = choose|j: int| 0 <= j < u.len() && u[j] == e;
    let none = Seq::<EndView>::empty();
    let a = if starts(inst@, "ADC"@) {
        channel_ends(all, rows, inst, 256)
    } else {
        none
    };
    let b = if starts(inst@, "COMP"@) {
        all_side_ends(all, rows, false, inst)
    } else {
        none
    };
    let c = if starts(inst@, "OPAMP"@) {
        all_side_ends(all, rows, true, inst)
    } else {
        none
    };
    assert(u == a + b + c);
    if j < a.len() {
        assert(u[j] == a[j]);
        channel_ends_are_on_chip(raw, inst);
    } else if j < a.len() + b.len() {
        assert(u[j] == b[j - a.len()]);
        side_ends_are_on_chip(raw, false, inst);
    } else {
        assert(u[j] == c[j - a.len() - b.len()]);
        side_ends_are_on_chip(raw, true, inst);
    }
}

proof fn is_in_instance(all: Seq<AfRow>, inst: &'static str, amp: bool, e: EndView)
    requires
        starts(
            inst@,
            class_of_kind(
                if amp {
                    Kind::OpampPlus
                } else {
                    Kind::Comp
                },
            ),
        ),
        all_side_ends(all, rows_of_instance(all, inst@, all.len() as int), amp, inst).contains(e),
    ensures
        instance_ends(all, inst).contains(e),
{
    let rows = rows_of_instance(all, inst@, all.len() as int);
    let none = Seq::<EndView>::empty();
    let a = if starts(inst@, "ADC"@) {
        channel_ends(all, rows, inst, 256)
    } else {
        none
    };
    let b = if starts(inst@, "COMP"@) {
        all_side_ends(all, rows, false, inst)
    } else {
        none
    };
    let c = if starts(inst@, "OPAMP"@) {
        all_side_ends(all, rows, true, inst)
    } else {
        none
    };
    let u = instance_ends(all, inst);
    assert(u == a + b + c);
    if amp {
        let x = choose|x: int| 0 <= x < c.len() && c[x] == e;
        assert(u[a.len() + b.len() + x] == e);
    } else {
        let x = choose|x: int| 0 <= x < b.len() && b[x] == e;
        assert(u[a.len() + x] == e);
    }
}

/// Each plus terminal of a comparator or an amplifier is listed without a minus pin.
pub proof fn each_plus_is_listed_alone(
    raw: RawMcuData,
    amp: bool,
    inst: Seq<char>,
    role: Seq<char>,
    pin: PinId,
)
    requires
        fits(raw),
        has_terminal(raw, inst, role, pin),
        is_plus(amp, role),
        starts(
            inst,
            if amp {
                "OPAMP"@
            } else {
                "COMP"@
            },
        ),
    ensures
        lists(
            ends_of(raw),
            if amp {
                Kind::OpampPlus
            } else {
                Kind::Comp
            },
            inst,
            pin,
            None,
        ),
{
    let all = rows_of(raw);
    let kind = if amp {
        Kind::OpampPlus
    } else {
        Kind::Comp
    };
    let s = parts_are_listed(raw, inst, role, pin);
    let v = all_side_ends(all, rows_of_instance(all, s@, all.len() as int), amp, s);
    side_ends_are_on_chip(raw, amp, s);
    assert(lists(v, kind, inst, pin, None));
    let i = choose|i: int| 0 <= i < v.len() && is_end_at(#[trigger] v[i], kind, inst, pin, None);
    assert(v.contains(v[i]));
    is_in_instance(all, s, amp, v[i]);
    let w = ends_of(raw);
    assert(w.contains(v[i]));
    let k = choose|k: int| 0 <= k < w.len() && w[k] == v[i];
    assert(is_end_at(w[k], kind, inst, pin, None));
}

/// Each plus terminal of a comparator or an amplifier is listed with each minus terminal on
/// another pin.
pub proof fn each_plus_is_listed_with_each_minus(
    raw: RawMcuData,
    amp: bool,
    inst: Seq<char>,
    a: Seq<char>,
    p: PinId,
    b: Seq<char>,
    q: PinId,
)
    requires
        fits(raw),
        has_terminal(raw, inst, a, p),
        is_plus(amp, a),
        has_terminal(raw, inst, b, q),
        is_minus(amp, b),
        p != q,
        starts(
            inst,
            if amp {
                "OPAMP"@
            } else {
                "COMP"@
            },
        ),
    ensures
        lists(
            ends_of(raw),
            if amp {
                Kind::OpampPlus
            } else {
                Kind::Comp
            },
            inst,
            p,
            Some(q),
        ),
{
    let all = rows_of(raw);
    let kind = if amp {
        Kind::OpampPlus
    } else {
        Kind::Comp
    };
    let s = parts_are_listed(raw, inst, a, p);
    let v = all_side_ends(all, rows_of_instance(all, s@, all.len() as int), amp, s);
    side_ends_are_on_chip(raw, amp, s);
    assert(has_terminal(raw, s@, a, p) && has_terminal(raw, s@, b, q));
    assert(lists(v, kind, inst, p, Some(q)));
    let i = choose|i: int| 0 <= i < v.len() && is_end_at(#[trigger] v[i], kind, inst, p, Some(q));
    assert(v.contains(v[i]));
    is_in_instance(all, s, amp, v[i]);
    let w = ends_of(raw);
    assert(w.contains(v[i]));
    let k = choose|k: int| 0 <= k < w.len() && w[k] == v[i];
    assert(is_end_at(w[k], kind, inst, p, Some(q)));
}

/// Each differential channel of an ADC whose two inputs are on different pins is listed.
pub proof fn each_channel_is_listed(raw: RawMcuData, inst: Seq<char>, m: u8)
    requires
        fits(raw),
        starts(inst, "ADC"@),
        has_channel(raw, inst, m),
    ensures
        lists_channel(ends_of(raw), inst, m),
{
    let all = rows_of(raw);
    let (a, b) = choose|a: int, b: int| #[trigger] is_channel_pair(raw, inst, m, a, b);
    assert(is_analog_row(all[a], inst, all[a].signal.role@, all[a].pin));
    let s = parts_are_listed(raw, inst, all[a].signal.role@, all[a].pin);
    let v = channel_ends(all, rows_of_instance(all, s@, all.len() as int), s, 256);
    channel_ends_are_on_chip(raw, s);
    assert(has_channel(raw, s@, m));
    let i = choose|i: int|
        0 <= i < v.len() && (#[trigger] v[i]).kind == Kind::AdcDiff && v[i].instance@ == inst
            && v[i].channel == Some(m);
    let u = instance_ends(all, s);
    assert(u[i] == v[i]);
    assert(u.contains(v[i]));
    let w = ends_of(raw);
    assert(w.contains(v[i]));
    let k = choose|k: int| 0 <= k < w.len() && w[k] == v[i];
    assert(w[k].channel == Some(m));
}

/// Whether a pin comes before another: by port, then by number.
pub open spec fn is_earlier(a: PinId, b: PinId) -> bool {
    a.port < b.port || (a.port == b.port && a.num < b.num)
}

/// Whether one front end may stand before another: differential channels come first and
/// amplifiers last; in each kind the instances are in order, then the plus pins; and of one
/// plus pin the row without a minus pin comes first, the others by their minus pin.
pub open spec fn may_precede(a: EndView, b: EndView) -> bool {
    &&& b.kind == Kind::AdcDiff ==> a.kind == Kind::AdcDiff
    &&& a.kind == Kind::OpampPlus ==> b.kind == Kind::OpampPlus
    &&& a.kind == b.kind ==> !before(b.instance@, a.instance@)
    &&& a.kind == b.kind && a.instance@ == b.instance@ ==> {
        &&& !is_earlier(b.plus_pin, a.plus_pin)
        &&& a.plus_pin == b.plus_pin ==> match (a.minus, b.minus) {
            (Some(x), Some(y)) => !is_earlier(y.0, x.0),
            (Some(x), None) => false,
            _ => true,
        }
    }
}

/// Sorting by one key and then by a second and a third orders by the third, then the
/// second, then the first.
proof fn sorted_by_three(
    v: Seq<EndView>,
    f: spec_fn(EndView) -> u64,
    g: spec_fn(EndView) -> u64,
    h: spec_fn(EndView) -> u64,
)
    requires
        v.len() <= usize::MAX,
    ensures
        ({
            let a = picked(v, order_of(v.map_values(f)));
            let b = picked(a, order_of(a.map_values(g)));
            let c = picked(b, order_of(b.map_values(h)));
            &&& c.len() == v.len()
            &&& forall|i: int, j: int|
                #![trigger c[i], c[j]]
                0 <= i < j < c.len() ==> h(c[i]) < h(c[j]) || (h(c[i]) == h(c[j]) && (g(c[i])
                    < g(c[j]) || (g(c[i]) == g(c[j]) && f(c[i]) <= f(c[j]))))
        }),
{
    let k1 = v.map_values(f);
    let o1 = order_of(k1);
    let a = picked(v, o1);
    order_of_is_stable(k1);
    let k2 = a.map_values(g);
    let o2 = order_of(k2);
    let b = picked(a, o2);
    order_of_is_stable(k2);
    let k3 = b.map_values(h);
    let o3 = order_of(k3);
    let c = picked(b, o3);
    order_of_is_stable(k3);
    assert forall|i: int, j: int|
        #![trigger c[i], c[j]]
        0 <= i < j < c.len() implies h(c[i]) < h(c[j]) || (h(c[i]) == h(c[j]) && (g(c[i]) < g(
        c[j],
    ) || (g(c[i]) == g(c[j]) && f(c[i]) <= f(c[j])))) by {
        let x = o3[i] as int;
        let y = o3[j] as int;
        assert(o3[i] < b.len() && o3[j] < b.len());
        assert(c[i] == b[x] && c[j] == b[y]);
        assert(k3[x] == h(c[i]) && k3[y] == h(c[j]));
        if h(c[i]) == h(c[j]) {
            assert(x < y);
            let p = o2[x] as int;
            let q = o2[y] as int;
            assert(o2[x] < a.len() && o2[y] < a.len());
            assert(b[x] == a[p] && b[y] == a[q]);
            assert(k2[p] == g(c[i]) && k2[q] == g(c[j]));
            if g(c[i]) == g(c[j]) {
                assert(p < q);
                let s = o1[p] as int;
                let t = o1[q] as int;
                assert(o1[p] < v.len() && o1[q] < v.len());
                assert(a[p] == v[s] && a[q] == v[t]);
                assert(k1[s] == f(c[i]) && k1[t] == f(c[j]));
            }
        }
    }
}

proof fn ranks_follow_names(insts: Seq<&'static str>, x: &'static str, y: &'static str)
    requires
        ranked::ascends(insts),
        includes(insts, y),
    ensures
        0 <= rank_in(insts, x) <= insts.len(),
        0 <= rank_in(insts, y) <= insts.len(),
        rank_in(insts, x) <= rank_in(insts, y) ==> !before(y@, x@),
        x@ == y@ ==> rank_in(insts, x) == rank_in(insts, y),
{
    ranked::rank_in_bounds(insts, x);
    ranked::rank_in_bounds(insts, y);
    let b = choose|b: int| 0 <= b < insts.len() && (#[trigger] insts[b]).alike(&y);
    crate::text::before_irreflexive(y@);
    assert(!insts[b].precedes(&y));
    assert(rank_in(insts, y) <= b);
    if before(y@, x@) {
        assert(insts[b].precedes(&x));
        assert(b < rank_in(insts, x));
    }
    if x@ == y@ {
        let p = rank_in(insts, x);
        let q = rank_in(insts, y);
        if p < q {
            assert(insts[p].precedes(&y));
        } else if q < p {
            assert(insts[q].precedes(&x));
        }
    }
}

proof fn keys_follow_pins(a: EndView, b: EndView)
    requires
        pins_key(a) as u64 <= pins_key(b) as u64,
    ensures
        !is_earlier(b.plus_pin, a.plus_pin),
        a.plus_pin == b.plus_pin ==> match (a.minus, b.minus) {
            (Some(x), Some(y)) => !is_earlier(y.0, x.0),
            (Some(x), None) => false,
            _ => true,
        },
{
    rank_fits(a.plus_pin);
    rank_fits(b.plus_pin);
    if let Some(x) = a.minus {
        rank_fits(x.0);
    }
    if let Some(y) = b.minus {
        rank_fits(y.0);
    }
    assert(0 <= pins_key(a) <= u64::MAX && 0 <= pins_key(b) <= u64::MAX);
    assert(pin_rank(a.plus_pin) <= pin_rank(b.plus_pin));
}

/// The front ends are listed in order.
pub proof fn front_ends_are_in_order(raw: RawMcuData, i: int, j: int)
    requires
        fits(raw),
        rows_of(raw).len() <= usize::MAX,
        0 <= i < j < ends_of(raw).len(),
    ensures
        may_precede(ends_of(raw)[i], ends_of(raw)[j]),
{
    let all = rows_of(raw);
    let insts = analog_instances(all, all.len() as int);
    let v = ends_upto(all, insts, insts.len() as int);
    let w = ends_of(raw);
    let f = |e: EndView| pins_key(e) as u64;
    let g = |e: EndView| rank_in(insts, e.instance) as u64;
    let h = |e: EndView| kind_rank(e.kind) as u64;
    sorted_by_three(v, f, g, h);
    let a = w[i];
    let b = w[j];
    listed_instances(raw, i);
    listed_instances(raw, j);
    instances_ascend(all, all.len() as int);
    instances_are_few(all, all.len() as int);
    ranks_follow_names(insts, a.instance, b.instance);
    if a.kind == b.kind && a.instance@ == b.instance@ {
        keys_follow_pins(a, b);
    }
}

proof fn instances_are_few(rows: Seq<AfRow>, n: int)
    requires
        0 <= n <= rows.len(),
    ensures
        analog_instances(rows, n).len() <= n,
    decreases n,
{
    if n > 0 {
        instances_are_few(rows, n - 1);
        instances_ascend(rows, n - 1);
        ranked::rank_in_bounds(analog_instances(rows, n - 1), rows[n - 1].signal.peripheral);
    }
}

proof fn listed_instances(raw: RawMcuData, i: int)
    requires
        fits(raw),
        0 <= i < ends_of(raw).len(),
    ensures
        includes(
            analog_instances(rows_of(raw), rows_of(raw).len() as int),
            ends_of(raw)[i].instance,
        ),
{
    let all = rows_of(raw);
    let insts = analog_instances(all, all.len() as int);
    let e = ends_of(raw)[i];
    what_is_listed_is_on_the_chip(raw, i);
    instances_are_all(all, all.len() as int);
    let k = choose|k: int|
        0 <= k < all.len() && is_analog_row(
            #[trigger] all[k],
            e.instance@,
            e.plus_role@,
            e.plus_pin,
        );
    let y = all[k].signal.peripheral;
    let x = choose|x: int| 0 <= x < insts.len() && (#[trigger] insts[x]).alike(&y);
    assert(insts[x].alike(&e.instance));
}

} // verus!
