//! What a pin can do as a channel of a front end, read off the rows of the pin table.

use vstd::prelude::*;

use crate::frontend_plan::adc_pins;
use crate::frontend_plan::analog_pins;
use crate::frontend_plan::are_caps_of;
use crate::frontend_plan::are_options_of;
use crate::frontend_plan::bonded_rows;
use crate::frontend_plan::cap_of;
use crate::frontend_plan::caps_upto;
use crate::frontend_plan::comp_pins;
use crate::frontend_plan::comps_on;
use crate::frontend_plan::is_adc_row;
use crate::frontend_plan::is_comp_minus_row;
use crate::frontend_plan::is_comp_plus_row;
use crate::frontend_plan::is_opamp_plus_row;
use crate::frontend_plan::is_usable;
use crate::frontend_plan::is_vout_row;
use crate::frontend_plan::opamps_on;
use crate::frontend_plan::out_adc_of;
use crate::frontend_plan::out_adc_upto;
use crate::frontend_plan::out_slots;
use crate::frontend_plan::readable;
use crate::frontend_plan::slots_on;
use crate::frontend_plan::straddles;
use crate::frontend_plan::vout_opamps;
use crate::frontend_plan::vout_pin;
use crate::frontend_plan::CapView;
use crate::frontend_plan::Slot;
use crate::frontend_plan::ZeroCrossOption;
use crate::lists::pushed;
use crate::mcu_pinout::pins_ascend;
use crate::mcu_pinout::rows_of;
use crate::mcu_pinout::AfRow;
use crate::mcu_pinout::PinId;
use crate::mcu_raw::RawMcuData;
use crate::ranked;
use crate::ranked::ascends;
use crate::ranked::includes;
use crate::ranked::Ranked;
use crate::terminal_laws::channels_are_named;
use crate::terminal_laws::ends;
use crate::terminal_laws::is_channel;
use crate::terminal_laws::is_numbered;
use crate::terminal_laws::numbered_is_named;
use crate::terminal_laws::starts;

verus! {

/// Whether a row reads its pin on an ADC's channel.
pub open spec fn reads_adc(r: AfRow, adc: Seq<char>, m: u8) -> bool {
    &&& r.af is None
    &&& starts(r.signal.peripheral@, "ADC"@)
    &&& r.signal.peripheral@ == adc
    &&& is_channel(r.signal.role@, "INP"@, m) || is_channel(r.signal.role@, "IN"@, m)
}

/// Whether a row makes its pin the plus, or minus, input of a comparator.
pub open spec fn compares(r: AfRow, comp: Seq<char>, plus: bool) -> bool {
    &&& r.af is None
    &&& starts(r.signal.peripheral@, "COMP"@)
    &&& r.signal.peripheral@ == comp
    &&& is_numbered(
        r.signal.role@,
        if plus {
            "INP"@
        } else {
            "INM"@
        },
    )
}

/// Whether a row makes its pin the plus input of an amplifier.
pub open spec fn amplifies(r: AfRow, op: Seq<char>) -> bool {
    &&& r.af is None
    &&& starts(r.signal.peripheral@, "OPAMP"@)
    &&& r.signal.peripheral@ == op
    &&& starts(r.signal.role@, "VINP"@)
    &&& !ends(r.signal.role@, "_SEC"@)
}

/// Whether a row makes its pin the output of an amplifier.
pub open spec fn puts_out(r: AfRow, op: Seq<char>) -> bool {
    &&& r.af is None
    &&& starts(r.signal.peripheral@, "OPAMP"@)
    &&& r.signal.peripheral@ == op
    &&& r.signal.role@ == "VOUT"@
}

/// Whether a row is of a bonded pin.
pub open spec fn is_there(raw: RawMcuData, bonded: Option<Set<PinId>>, i: int) -> bool {
    0 <= i < rows_of(raw).len() && (bonded matches Some(b) ==> b.contains(rows_of(raw)[i].pin))
}

/// Whether a pin can be read on an ADC's channel.
pub open spec fn can_be_read(rows: Seq<AfRow>, pin: PinId, adc: Seq<char>, m: u8) -> bool {
    exists|i: int|
        0 <= i < rows.len() && (#[trigger] rows[i]).pin == pin && reads_adc(rows[i], adc, m)
}

/// Whether a pin can be an input of a comparator.
pub open spec fn can_compare(rows: Seq<AfRow>, pin: PinId, comp: Seq<char>, plus: bool) -> bool {
    exists|i: int|
        0 <= i < rows.len() && (#[trigger] rows[i]).pin == pin && compares(rows[i], comp, plus)
}

/// Whether a pin can be the plus input of an amplifier.
pub open spec fn can_be_amplified(rows: Seq<AfRow>, pin: PinId, op: Seq<char>) -> bool {
    exists|i: int|
        0 <= i < rows.len() && (#[trigger] rows[i]).pin == pin && amplifies(rows[i], op)
}

/// Whether a row is the last that gives the output of an amplifier.
pub open spec fn is_last_output(rows: Seq<AfRow>, op: Seq<char>, i: int) -> bool {
    &&& 0 <= i < rows.len()
    &&& puts_out(rows[i], op)
    &&& forall|j: int| i < j < rows.len() ==> !puts_out(#[trigger] rows[j], op)
}

/// Whether the output of an amplifier is on a pin that can be read on an ADC's channel.
pub open spec fn output_can_be_read(rows: Seq<AfRow>, op: Seq<char>, adc: Seq<char>, m: u8) -> bool {
    exists|i: int| #[trigger] is_last_output(rows, op, i) && can_be_read(rows, rows[i].pin, adc, m)
}

/// Whether a list has a name.
pub open spec fn has_text(v: Seq<&'static str>, s: Seq<char>) -> bool {
    exists|i: int| 0 <= i < v.len() && (#[trigger] v[i])@ == s
}

proof fn kinds_are_apart(s: Seq<char>)
    ensures
        starts(s, "COMP"@) ==> !starts(s, "ADC"@) && !starts(s, "OPAMP"@),
        starts(s, "OPAMP"@) ==> !starts(s, "ADC"@) && !starts(s, "COMP"@),
{
    reveal_strlit("ADC");
    reveal_strlit("COMP");
    reveal_strlit("OPAMP");
    if starts(s, "ADC"@) {
        assert(s.take(3)[0] == 'A');
    }
    if starts(s, "COMP"@) {
        assert(s.take(4)[0] == 'C');
    }
    if starts(s, "OPAMP"@) {
        assert(s.take(5)[0] == 'O');
    }
}

proof fn rows_are_named(r: AfRow, name: Seq<char>, m: u8)
    requires
        r.signal.peripheral@ == name,
    ensures
        is_adc_row(r) && crate::analog_roles::adc_pos(r.signal.role@) == Some(m) <==> reads_adc(
            r,
            name,
            m,
        ),
        is_comp_plus_row(r) <==> compares(r, name, true),
        is_comp_minus_row(r) <==> compares(r, name, false),
        is_opamp_plus_row(r) <==> amplifies(r, name),
        is_vout_row(r) <==> puts_out(r, name),
{
    kinds_are_apart(name);
    channels_are_named(r.signal.role@, m);
    numbered_is_named(r.signal.role@, "INP"@);
    numbered_is_named(r.signal.role@, "INM"@);
}

proof fn lists_are_of_rows(rows: Seq<AfRow>, pin: PinId, n: int, s: Slot)
    requires
        0 <= n <= rows.len(),
    ensures
        ascends(slots_on(rows, pin, n)),
        ascends(comps_on(rows, pin, n)),
        ascends(opamps_on(rows, pin, n)),
        includes(slots_on(rows, pin, n), s) <==> can_be_read(rows.take(n), pin, s.0@, s.1),
        includes(comps_on(rows, pin, n), s.0) <==> can_compare(rows.take(n), pin, s.0@, true),
        includes(opamps_on(rows, pin, n), s.0) <==> can_be_amplified(rows.take(n), pin, s.0@),
    decreases n,
{
    let now = rows.take(n);
    if n > 0 {
        lists_are_of_rows(rows, pin, n - 1, s);
        let had = rows.take(n - 1);
        let r = rows[n - 1];
        let name = r.signal.peripheral;
        let m = crate::analog_roles::adc_pos(r.signal.role@);
        rows_are_named(r, name@, s.1);
        if m is Some {
            rows_are_named(r, name@, m->0);
            ranked::with_is_set_insert(slots_on(rows, pin, n - 1), (name, m->0));
        }
        ranked::with_is_set_insert(comps_on(rows, pin, n - 1), name);
        ranked::with_is_set_insert(opamps_on(rows, pin, n - 1), name);
        assert(now[n - 1] == r);
        assert forall|i: int| 0 <= i < n - 1 implies #[trigger] now[i] == had[i] by {}
        if can_be_read(had, pin, s.0@, s.1) {
            let i = choose|i: int|
                0 <= i < had.len() && (#[trigger] had[i]).pin == pin && reads_adc(had[i], s.0@, s.1);
            assert(now[i].pin == pin);
        }
        if can_compare(had, pin, s.0@, true) {
            let i = choose|i: int|
                0 <= i < had.len() && (#[trigger] had[i]).pin == pin && compares(had[i], s.0@, true);
            assert(now[i].pin == pin);
        }
        if can_be_amplified(had, pin, s.0@) {
            let i = choose|i: int|
                0 <= i < had.len() && (#[trigger] had[i]).pin == pin && amplifies(had[i], s.0@);
            assert(now[i].pin == pin);
        }
        assert(can_be_read(now, pin, s.0@, s.1) <==> can_be_read(had, pin, s.0@, s.1) || (r.pin
            == pin && reads_adc(r, s.0@, s.1)));
        assert(can_compare(now, pin, s.0@, true) <==> can_compare(had, pin, s.0@, true) || (r.pin
            == pin && compares(r, s.0@, true)));
        assert(can_be_amplified(now, pin, s.0@) <==> can_be_amplified(had, pin, s.0@) || (r.pin
            == pin && amplifies(r, s.0@)));
    }
}

proof fn outputs_are_of_rows(rows: Seq<AfRow>, op: Seq<char>, n: int)
    requires
        0 <= n <= rows.len(),
        forall|j: int| n <= j < rows.len() ==> !puts_out(#[trigger] rows[j], op),
    ensures
        vout_pin(rows, op, n) matches Some(p) ==> exists|i: int|
            #[trigger] is_last_output(rows, op, i) && rows[i].pin == p,
        vout_pin(rows, op, n) is None ==> forall|j: int|
            0 <= j < rows.len() ==> !puts_out(#[trigger] rows[j], op),
    decreases n,
{
    if n > 0 {
        let r = rows[n - 1];
        rows_are_named(r, r.signal.peripheral@, 0);
        if is_vout_row(r) && r.signal.peripheral@ == op {
            assert(is_last_output(rows, op, n - 1));
        } else {
            assert(!puts_out(rows[n - 1], op));
            outputs_are_of_rows(rows, op, n - 1);
        }
    }
}

proof fn outputs_are_all(rows: Seq<AfRow>, n: int, x: &'static str)
    requires
        0 <= n <= rows.len(),
    ensures
        ascends(vout_opamps(rows, n)),
        includes(vout_opamps(rows, n), x) <==> exists|i: int|
            0 <= i < n && puts_out(#[trigger] rows[i], x@),
    decreases n,
{
    if n > 0 {
        outputs_are_all(rows, n - 1, x);
        let r = rows[n - 1];
        rows_are_named(r, r.signal.peripheral@, 0);
        ranked::with_is_set_insert(vout_opamps(rows, n - 1), r.signal.peripheral);
        if is_vout_row(r) && r.signal.peripheral@ == x@ {
            assert(puts_out(rows[n - 1], x@));
        }
    }
}

proof fn slots_of_outputs(rows: Seq<AfRow>, ops: Seq<&'static str>, n: int, name: Seq<char>, k: int)
    requires
        0 <= n <= ops.len(),
        0 <= k,
    ensures
        ({
            let out = out_adc_upto(rows, ops, n);
            let all = rows.len() as int;
            &&& out_slots(out, name, k) matches Some(v) ==> vout_pin(rows, name, all) matches Some(
                p,
            ) && v == slots_on(rows, p, all) && v.len() > 0
            &&& k == 0 && has_text(ops.take(n), name) && (vout_pin(rows, name, all) matches Some(p)
                && slots_on(rows, p, all).len() > 0) ==> out_slots(out, name, k) is Some
        }),
    decreases n + ops.len() + 1 - k,
{
    let out = out_adc_upto(rows, ops, n);
    let all = rows.len() as int;
    entries_are_outputs(rows, ops, n);
    if k < out.len() && out[k].0@ != name {
        slots_from(out, name, k + 1);
    }
    slots_from(out, name, k);
    if out_slots(out, name, k) is Some {
        let i = choose|i: int|
            k <= i < out.len() && (#[trigger] out[i]).0@ == name && out_slots(out, name, k) == Some(
                out[i].1,
            );
        assert(out[i].0@ == name);
    }
    if k == 0 && has_text(ops.take(n), name) {
        let x = choose|x: int| 0 <= x < ops.take(n).len() && (#[trigger] ops.take(n)[x])@ == name;
        assert(ops[x]@ == name);
        if vout_pin(rows, name, all) is Some && slots_on(rows, vout_pin(rows, name, all)->0, all).len()
            > 0 {
            assert(has_entry(out, name));
            let i = choose|i: int| 0 <= i < out.len() && (#[trigger] out[i]).0@ == name;
            assert(out[i].0@ == name);
        }
    }
}

/// Whether a table has an entry of a name.
spec fn has_entry(out: Seq<(&'static str, Seq<Slot>)>, name: Seq<char>) -> bool {
    exists|i: int| 0 <= i < out.len() && (#[trigger] out[i]).0@ == name
}

proof fn slots_from(out: Seq<(&'static str, Seq<Slot>)>, name: Seq<char>, k: int)
    requires
        0 <= k,
    ensures
        out_slots(out, name, k) is Some ==> exists|i: int|
            k <= i < out.len() && (#[trigger] out[i]).0@ == name && out_slots(out, name, k) == Some(
                out[i].1,
            ),
        out_slots(out, name, k) is None ==> forall|i: int|
            k <= i < out.len() ==> (#[trigger] out[i]).0@ != name,
    decreases out.len() - k,
{
    if k < out.len() && out[k].0@ != name {
        slots_from(out, name, k + 1);
    }
}

proof fn entries_are_outputs(rows: Seq<AfRow>, ops: Seq<&'static str>, n: int)
    requires
        0 <= n <= ops.len(),
    ensures
        ({
            let out = out_adc_upto(rows, ops, n);
            let all = rows.len() as int;
            &&& out.len() <= n
            &&& forall|i: int|
                0 <= i < out.len() ==> (vout_pin(rows, (#[trigger] out[i]).0@, all) matches Some(p)
                    && out[i].1 == slots_on(rows, p, all) && out[i].1.len() > 0)
            &&& forall|x: int|
                0 <= x < n && (vout_pin(rows, (#[trigger] ops[x])@, all) matches Some(p) && slots_on(
                    rows,
                    p,
                    all,
                ).len() > 0) ==> has_entry(out, ops[x]@)
        }),
    decreases n,
{
    if n > 0 {
        entries_are_outputs(rows, ops, n - 1);
        let had = out_adc_upto(rows, ops, n - 1);
        let out = out_adc_upto(rows, ops, n);
        let all = rows.len() as int;
        assert forall|i: int| 0 <= i < out.len() implies (vout_pin(
            rows,
            (#[trigger] out[i]).0@,
            all,
        ) matches Some(p) && out[i].1 == slots_on(rows, p, all) && out[i].1.len() > 0) by {
            if i < had.len() {
                assert(out[i] == had[i]);
            }
        }
        assert forall|x: int|
            0 <= x < n && (vout_pin(rows, (#[trigger] ops[x])@, all) matches Some(p) && slots_on(
                rows,
                p,
                all,
            ).len() > 0) implies has_entry(out, ops[x]@) by {
            if x < n - 1 {
                assert(has_entry(had, ops[x]@));
                let i = choose|i: int| 0 <= i < had.len() && (#[trigger] had[i]).0@ == ops[x]@;
                assert(out[i].0@ == ops[x]@);
            } else {
                assert(out[out.len() - 1].0@ == ops[x]@);
            }
        }
    }
}

/// The channels that read an amplifier are those on its output pin; an amplifier without
/// such a channel has none.
pub proof fn amplifiers_are_read_at_their_output(raw: RawMcuData, op: &'static str, s: Slot)
    ensures
        (out_slots(out_adc_of(raw), op@, 0) matches Some(v) && includes(v, s))
            <==> output_can_be_read(rows_of(raw), op@, s.0@, s.1),
        out_slots(out_adc_of(raw), op@, 0) is Some ==> exists|t: Slot|
            output_can_be_read(rows_of(raw), op@, #[trigger] t.0@, t.1),
{
    let rows = rows_of(raw);
    let n = rows.len() as int;
    let ops = vout_opamps(rows, n);
    outputs_are_of_rows(rows, op@, n);
    outputs_are_all(rows, n, op);
    slots_of_outputs(rows, ops, ops.len() as int, op@, 0);
    assert(ops.take(ops.len() as int) =~= ops);
    assert(rows.take(n) =~= rows);
    let v = out_slots(out_adc_of(raw), op@, 0);
    if v is Some {
        let p = vout_pin(rows, op@, n)->0;
        let i = choose|i: int| #[trigger] is_last_output(rows, op@, i) && rows[i].pin == p;
        lists_are_of_rows(rows, p, n, s);
        let t = v->0[0];
        lists_are_of_rows(rows, p, n, t);
        Slot::order_laws(t, t, t);
        assert(v->0[0].alike(&t));
        assert(includes(v->0, t));
        assert(is_last_output(rows, op@, i) && can_be_read(rows, rows[i].pin, t.0@, t.1));
        assert(output_can_be_read(rows, op@, t.0@, t.1));
        if output_can_be_read(rows, op@, s.0@, s.1) {
            let j = choose|j: int| #[trigger]
                is_last_output(rows, op@, j) && can_be_read(rows, rows[j].pin, s.0@, s.1);
            assert(i == j);
        }
    } else if output_can_be_read(rows, op@, s.0@, s.1) {
        let j = choose|j: int| #[trigger]
            is_last_output(rows, op@, j) && can_be_read(rows, rows[j].pin, s.0@, s.1);
        assert(puts_out(rows[j], op@));
        let p = vout_pin(rows, op@, n)->0;
        let i = choose|i: int| #[trigger] is_last_output(rows, op@, i) && rows[i].pin == p;
        assert(i == j);
        lists_are_of_rows(rows, p, n, s);
        assert(includes(ops, op));
        let x = choose|x: int| 0 <= x < ops.len() && (#[trigger] ops[x]).alike(&op);
        assert(ops[x]@ == op@);
        assert(has_text(ops, op@));
        assert(slots_on(rows, p, n).len() > 0);
    }
}

proof fn bonded_are_there(raw: RawMcuData, bonded: Option<Set<PinId>>, n: int, r: AfRow)
    requires
        0 <= n <= rows_of(raw).len(),
    ensures
        bonded_rows(rows_of(raw), bonded, n).contains(r) <==> exists|i: int|
            0 <= i < n && #[trigger] is_there(raw, bonded, i) && rows_of(raw)[i] == r,
    decreases n,
{
    let rows = rows_of(raw);
    if n > 0 {
        bonded_are_there(raw, bonded, n - 1, r);
        let had = bonded_rows(rows, bonded, n - 1);
        let now = bonded_rows(rows, bonded, n);
        if now != had {
            pushed(had, now, rows[n - 1], r);
            assert(is_there(raw, bonded, n - 1));
        }
        if exists|i: int| 0 <= i < n && #[trigger] is_there(raw, bonded, i) && rows[i] == r {
            let i = choose|i: int| 0 <= i < n && #[trigger] is_there(raw, bonded, i) && rows[i] == r;
            if i == n - 1 {
                assert(now == had.push(rows[n - 1]));
            } else {
                assert(is_there(raw, bonded, i));
            }
        }
    }
}

/// Whether a bonded row of a pin reads it on an ADC's channel.
pub open spec fn is_adc_pin(
    raw: RawMcuData,
    bonded: Option<Set<PinId>>,
    pin: PinId,
    adc: Seq<char>,
    m: u8,
) -> bool {
    exists|i: int| #[trigger]
        is_there(raw, bonded, i) && rows_of(raw)[i].pin == pin && reads_adc(rows_of(raw)[i], adc, m)
}

/// Whether a bonded row of a pin makes it an input of a comparator.
pub open spec fn is_comp_pin(
    raw: RawMcuData,
    bonded: Option<Set<PinId>>,
    pin: PinId,
    comp: Seq<char>,
    plus: bool,
) -> bool {
    exists|i: int| #[trigger]
        is_there(raw, bonded, i) && rows_of(raw)[i].pin == pin && compares(
            rows_of(raw)[i],
            comp,
            plus,
        )
}

/// Whether a bonded row of a pin makes it the plus input of an amplifier.
pub open spec fn is_amp_input(
    raw: RawMcuData,
    bonded: Option<Set<PinId>>,
    pin: PinId,
    op: Seq<char>,
) -> bool {
    exists|i: int| #[trigger]
        is_there(raw, bonded, i) && rows_of(raw)[i].pin == pin && amplifies(rows_of(raw)[i], op)
}

proof fn bonded_pins(
    raw: RawMcuData,
    bonded: Option<Set<PinId>>,
    pin: PinId,
    name: Seq<char>,
    m: u8,
    plus: bool,
)
    ensures
        ({
            let all = rows_of(raw);
            let rows = bonded_rows(all, bonded, all.len() as int);
            &&& can_be_read(rows, pin, name, m) <==> is_adc_pin(raw, bonded, pin, name, m)
            &&& can_compare(rows, pin, name, plus) <==> is_comp_pin(raw, bonded, pin, name, plus)
            &&& can_be_amplified(rows, pin, name) <==> is_amp_input(raw, bonded, pin, name)
        }),
{
    let all = rows_of(raw);
    let n = all.len() as int;
    let rows = bonded_rows(all, bonded, n);
    assert forall|k: int| 0 <= k < rows.len() implies exists|i: int| #[trigger]
        is_there(raw, bonded, i) && all[i] == #[trigger] rows[k] by {
        assert(rows.contains(rows[k]));
        bonded_are_there(raw, bonded, n, rows[k]);
    }
    assert forall|i: int| #[trigger] is_there(raw, bonded, i) implies rows.contains(all[i]) by {
        bonded_are_there(raw, bonded, n, all[i]);
    }
    if can_be_read(rows, pin, name, m) {
        let k = choose|k: int|
            0 <= k < rows.len() && (#[trigger] rows[k]).pin == pin && reads_adc(rows[k], name, m);
        let i = choose|i: int| #[trigger] is_there(raw, bonded, i) && all[i] == rows[k];
        assert(is_there(raw, bonded, i));
    }
    if can_compare(rows, pin, name, plus) {
        let k = choose|k: int|
            0 <= k < rows.len() && (#[trigger] rows[k]).pin == pin && compares(rows[k], name, plus);
        let i = choose|i: int| #[trigger] is_there(raw, bonded, i) && all[i] == rows[k];
        assert(is_there(raw, bonded, i));
    }
    if can_be_amplified(rows, pin, name) {
        let k = choose|k: int|
            0 <= k < rows.len() && (#[trigger] rows[k]).pin == pin && amplifies(rows[k], name);
        let i = choose|i: int| #[trigger] is_there(raw, bonded, i) && all[i] == rows[k];
        assert(is_there(raw, bonded, i));
    }
    if is_adc_pin(raw, bonded, pin, name, m) {
        let i = choose|i: int| #[trigger]
            is_there(raw, bonded, i) && all[i].pin == pin && reads_adc(all[i], name, m);
        let k = choose|k: int| 0 <= k < rows.len() && rows[k] == all[i];
        assert(rows[k].pin == pin);
    }
    if is_comp_pin(raw, bonded, pin, name, plus) {
        let i = choose|i: int| #[trigger]
            is_there(raw, bonded, i) && all[i].pin == pin && compares(all[i], name, plus);
        let k = choose|k: int| 0 <= k < rows.len() && rows[k] == all[i];
        assert(rows[k].pin == pin);
    }
    if is_amp_input(raw, bonded, pin, name) {
        let i = choose|i: int| #[trigger]
            is_there(raw, bonded, i) && all[i].pin == pin && amplifies(all[i], name);
        let k = choose|k: int| 0 <= k < rows.len() && rows[k] == all[i];
        assert(rows[k].pin == pin);
    }
}

proof fn readable_are(
    ops: Seq<&'static str>,
    out: Seq<(&'static str, Seq<Slot>)>,
    n: int,
    x: &'static str,
)
    requires
        0 <= n <= ops.len(),
    ensures
        includes(readable(ops, out, n), x) <==> includes(ops.take(n), x) && out_slots(
            out,
            x@,
            0,
        ) is Some,
    decreases n,
{
    let now = ops.take(n);
    if n > 0 {
        readable_are(ops, out, n - 1, x);
        let had = ops.take(n - 1);
        let a = readable(ops, out, n - 1);
        let b = readable(ops, out, n);
        let y = ops[n - 1];
        assert(now[n - 1] == y);
        if includes(had, x) {
            let i = choose|i: int| 0 <= i < had.len() && (#[trigger] had[i]).alike(&x);
            assert(now[i].alike(&x));
        }
        if includes(now, x) {
            let i = choose|i: int| 0 <= i < now.len() && (#[trigger] now[i]).alike(&x);
            if i < n - 1 {
                assert(had[i].alike(&x));
            }
        }
        if includes(a, x) {
            let i = choose|i: int| 0 <= i < a.len() && (#[trigger] a[i]).alike(&x);
            assert(b[i].alike(&x));
        }
        if includes(b, x) {
            let i = choose|i: int| 0 <= i < b.len() && (#[trigger] b[i]).alike(&x);
            if i < a.len() {
                assert(a[i].alike(&x));
            }
        }
        if b.len() > a.len() && y.alike(&x) {
            assert(b[a.len() as int].alike(&x));
        }
    }
}

proof fn caps_are_of_pins(
    rows: Seq<AfRow>,
    out: Seq<(&'static str, Seq<Slot>)>,
    pins: Seq<PinId>,
    n: int,
)
    requires
        0 <= n <= pins.len(),
    ensures
        ({
            let v = caps_upto(rows, out, pins, n);
            &&& forall|i: int|
                0 <= i < v.len() ==> #[trigger] v[i] == cap_of(rows, out, v[i].pin)
            &&& forall|k: int|
                0 <= k < n && is_usable(cap_of(rows, out, #[trigger] pins[k])) ==> v.contains(
                    cap_of(rows, out, pins[k]),
                )
        }),
    decreases n,
{
    if n > 0 {
        caps_are_of_pins(rows, out, pins, n - 1);
        let had = caps_upto(rows, out, pins, n - 1);
        let v = caps_upto(rows, out, pins, n);
        assert forall|i: int| 0 <= i < v.len() implies #[trigger] v[i] == cap_of(
            rows,
            out,
            v[i].pin,
        ) by {
            if i < had.len() {
                assert(v[i] == had[i]);
            }
        }
        assert forall|k: int| 0 <= k < n && is_usable(cap_of(rows, out, #[trigger] pins[k])) implies v.contains(
            cap_of(rows, out, pins[k]),
        ) by {
            let c = cap_of(rows, out, pins[k]);
            if k < n - 1 {
                let i = choose|i: int| 0 <= i < had.len() && had[i] == c;
                assert(v[i] == c);
            } else {
                assert(v[v.len() - 1] == c);
            }
        }
    }
}

/// What a capability lists is what the bonded rows of its pin say: the ADC channels that read
/// it, the comparators it is the plus input of, and the amplifiers it is the plus input of
/// whose output can be read.
pub proof fn capabilities_are_what_rows_say(
    v: Seq<CapView>,
    raw: RawMcuData,
    bonded: Option<Set<PinId>>,
    i: int,
    s: Slot,
)
    requires
        are_caps_of(v, raw, bonded),
        0 <= i < v.len(),
    ensures
        includes(v[i].adc, s) <==> is_adc_pin(raw, bonded, v[i].pin, s.0@, s.1),
        includes(v[i].comp, s.0) <==> is_comp_pin(raw, bonded, v[i].pin, s.0@, true),
        includes(v[i].opamp, s.0) <==> is_amp_input(raw, bonded, v[i].pin, s.0@) && exists|t: Slot|
            output_can_be_read(rows_of(raw), s.0@, #[trigger] t.0@, t.1),
{
    let all = rows_of(raw);
    let rows = bonded_rows(all, bonded, all.len() as int);
    let n = rows.len() as int;
    let out = out_adc_of(raw);
    let p = choose|p: Seq<PinId>|
        pins_ascend(p) && p.to_set() == analog_pins(rows, n) && v == #[trigger] caps_upto(
            rows,
            out,
            p,
            p.len() as int,
        );
    caps_are_of_pins(rows, out, p, p.len() as int);
    let pin = v[i].pin;
    assert(v[i] == cap_of(rows, out, pin));
    assert(rows.take(n) =~= rows);
    lists_are_of_rows(rows, pin, n, s);
    bonded_pins(raw, bonded, pin, s.0@, s.1, true);
    let ops = opamps_on(rows, pin, n);
    readable_are(ops, out, ops.len() as int, s.0);
    assert(ops.take(ops.len() as int) =~= ops);
    amplifiers_are_read_at_their_output(raw, s.0, s);
    if exists|t: Slot| output_can_be_read(rows_of(raw), s.0@, #[trigger] t.0@, t.1) {
        let t = choose|t: Slot| output_can_be_read(rows_of(raw), s.0@, #[trigger] t.0@, t.1);
        amplifiers_are_read_at_their_output(raw, s.0, t);
    }
}

proof fn analog_pins_are(rows: Seq<AfRow>, n: int, k: int)
    requires
        0 <= k < n <= rows.len(),
        is_adc_row(rows[k]),
    ensures
        analog_pins(rows, n).contains(rows[k].pin),
    decreases n,
{
    if k < n - 1 {
        analog_pins_are(rows, n - 1, k);
    }
}

/// Every bonded pin that an ADC reads has a capability.
pub proof fn every_adc_pin_has_a_capability(
    v: Seq<CapView>,
    raw: RawMcuData,
    bonded: Option<Set<PinId>>,
    pin: PinId,
    s: Slot,
)
    requires
        are_caps_of(v, raw, bonded),
        is_adc_pin(raw, bonded, pin, s.0@, s.1),
    ensures
        exists|i: int| 0 <= i < v.len() && (#[trigger] v[i]).pin == pin,
{
    let all = rows_of(raw);
    let rows = bonded_rows(all, bonded, all.len() as int);
    let n = rows.len() as int;
    let out = out_adc_of(raw);
    let p = choose|p: Seq<PinId>|
        pins_ascend(p) && p.to_set() == analog_pins(rows, n) && v == #[trigger] caps_upto(
            rows,
            out,
            p,
            p.len() as int,
        );
    caps_are_of_pins(rows, out, p, p.len() as int);
    bonded_pins(raw, bonded, pin, s.0@, s.1, true);
    let k = choose|k: int|
        0 <= k < rows.len() && (#[trigger] rows[k]).pin == pin && reads_adc(rows[k], s.0@, s.1);
    rows_are_named(rows[k], s.0@, s.1);
    analog_pins_are(rows, n, k);
    assert(p.to_set().contains(pin));
    assert(p.contains(pin));
    let x = choose|x: int| 0 <= x < p.len() && p[x] == pin;
    assert(rows.take(n) =~= rows);
    lists_are_of_rows(rows, pin, n, s);
    let c = cap_of(rows, out, p[x]);
    assert(is_usable(c));
    let i = choose|i: int| 0 <= i < v.len() && v[i] == c;
    assert(v[i].pin == pin);
}

proof fn sets_are_of_rows(rows: Seq<AfRow>, comp: Seq<char>, plus: bool, pin: PinId, n: int)
    requires
        0 <= n <= rows.len(),
    ensures
        comp_pins(rows, comp, plus, n).contains(pin) <==> exists|i: int|
            0 <= i < n && (#[trigger] rows[i]).pin == pin && compares(rows[i], comp, plus),
        adc_pins(rows, n).contains(pin) <==> exists|i: int|
            0 <= i < n && (#[trigger] rows[i]).pin == pin && is_adc_row(rows[i]),
    decreases n,
{
    if n > 0 {
        sets_are_of_rows(rows, comp, plus, pin, n - 1);
        let r = rows[n - 1];
        rows_are_named(r, r.signal.peripheral@, 0);
        if r.pin == pin {
            assert(rows[n - 1].pin == pin);
        }
    }
}

/// Whether a bonded pin is read by an ADC.
pub open spec fn is_read(raw: RawMcuData, bonded: Option<Set<PinId>>, pin: PinId) -> bool {
    exists|i: int| #[trigger]
        is_there(raw, bonded, i) && rows_of(raw)[i].pin == pin && reads_some(rows_of(raw)[i])
}

/// Whether a row reads its pin on a channel of an ADC.
pub open spec fn reads_some(r: AfRow) -> bool {
    exists|m: u8| #[trigger] reads_adc(r, r.signal.peripheral@, m)
}

/// A comparator can watch a pair for zero crossings exactly where one pin is its plus input,
/// another one its minus input, both are bonded, and an ADC reads both.
pub proof fn options_are_what_rows_say(
    v: Seq<ZeroCrossOption>,
    raw: RawMcuData,
    bonded: Option<Set<PinId>>,
    o: ZeroCrossOption,
)
    requires
        are_options_of(v, raw, bonded),
    ensures
        (exists|i: int|
            0 <= i < v.len() && (#[trigger] v[i]).comp@ == o.comp@ && v[i].plus == o.plus
                && v[i].minus == o.minus) <==> {
            &&& is_comp_pin(raw, bonded, o.plus, o.comp@, true)
            &&& is_comp_pin(raw, bonded, o.minus, o.comp@, false)
            &&& o.plus != o.minus
            &&& is_read(raw, bonded, o.plus)
            &&& is_read(raw, bonded, o.minus)
        },
{
    let all = rows_of(raw);
    let rows = bonded_rows(all, bonded, all.len() as int);
    let n = rows.len() as int;
    sets_are_of_rows(rows, o.comp@, true, o.plus, n);
    sets_are_of_rows(rows, o.comp@, false, o.minus, n);
    sets_are_of_rows(rows, o.comp@, true, o.minus, n);
    bonded_pins(raw, bonded, o.plus, o.comp@, 0, true);
    bonded_pins(raw, bonded, o.minus, o.comp@, 0, false);
    read_are_read(raw, bonded, o.plus);
    read_are_read(raw, bonded, o.minus);
    assert(straddles(rows, o) <==> {
        &&& is_comp_pin(raw, bonded, o.plus, o.comp@, true)
        &&& is_comp_pin(raw, bonded, o.minus, o.comp@, false)
        &&& o.plus != o.minus
        &&& is_read(raw, bonded, o.plus)
        &&& is_read(raw, bonded, o.minus)
    });
    if exists|i: int|
        0 <= i < v.len() && (#[trigger] v[i]).comp@ == o.comp@ && v[i].plus == o.plus && v[i].minus
            == o.minus {
        let i = choose|i: int|
            0 <= i < v.len() && (#[trigger] v[i]).comp@ == o.comp@ && v[i].plus == o.plus
                && v[i].minus == o.minus;
        assert(straddles(rows, v[i]));
    }
    if straddles(rows, o) {
        let i = choose|i: int|
            0 <= i < v.len() && crate::frontend_plan::same_option(#[trigger] v[i], o);
        assert(v[i].comp@ == o.comp@);
    }
}

proof fn read_are_read(raw: RawMcuData, bonded: Option<Set<PinId>>, pin: PinId)
    ensures
        ({
            let all = rows_of(raw);
            let rows = bonded_rows(all, bonded, all.len() as int);
            adc_pins(rows, rows.len() as int).contains(pin) <==> is_read(raw, bonded, pin)
        }),
{
    let all = rows_of(raw);
    let rows = bonded_rows(all, bonded, all.len() as int);
    let n = rows.len() as int;
    sets_are_of_rows(rows, ""@, true, pin, n);
    if adc_pins(rows, n).contains(pin) {
        let k = choose|k: int| 0 <= k < n && (#[trigger] rows[k]).pin == pin && is_adc_row(rows[k]);
        let m = crate::analog_roles::adc_pos(rows[k].signal.role@)->0;
        rows_are_named(rows[k], rows[k].signal.peripheral@, m);
        assert(rows.contains(rows[k]));
        bonded_are_there(raw, bonded, all.len() as int, rows[k]);
        let i = choose|i: int|
            0 <= i < all.len() && #[trigger] is_there(raw, bonded, i) && all[i] == rows[k];
        assert(is_there(raw, bonded, i));
        assert(reads_adc(all[i], all[i].signal.peripheral@, m));
    }
    if is_read(raw, bonded, pin) {
        let i = choose|i: int| #[trigger]
            is_there(raw, bonded, i) && rows_of(raw)[i].pin == pin && reads_some(rows_of(raw)[i]);
        let m = choose|m: u8| #[trigger] reads_adc(all[i], all[i].signal.peripheral@, m);
        bonded_are_there(raw, bonded, all.len() as int, all[i]);
        let k = choose|k: int| 0 <= k < rows.len() && rows[k] == all[i];
        rows_are_named(rows[k], rows[k].signal.peripheral@, m);
        assert(rows[k].pin == pin);
    }
}

} // verus!
