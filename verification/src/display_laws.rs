//! What the views show of what is there.

use vstd::prelude::*;

use crate::c531_design;
use crate::c531_design::routes_of;
use crate::c531_design::C531Design;
use crate::c531_view::advanced_upto;
use crate::c531_view::merged;
use crate::comms_view::row_of;
use crate::comms_view::RowView;
use crate::fabric_view::comps_to_eev;
use crate::fabric_view::comps_to_flt;
use crate::fabric_view::ramp_of;
use crate::fabric_view::slot_tags;
use crate::fabric_view::timer_tags_upto;
use crate::g474::all_capture_units_seq;
use crate::g474::all_comps_seq;
use crate::g474::all_cr_slots_seq;
use crate::g474::all_tims_seq;
use crate::g474::cpt_name;
use crate::g474::cr_name;
use crate::g474::eevs_of_comp;
use crate::g474::flts_of_comp;
use crate::g474::hrtim_name;
use crate::g474::tim_nr;
use crate::g474::CompId;
use crate::g474::CrossbarSource;
use crate::g474::DacId;
use crate::g474::HrtimFltId;
use crate::g474::HrtimId;
use crate::g474::TimerCaptureUnit;
use crate::g474::TimerCompareSlot;
use crate::h523_design::problems_of;
use crate::h523_design::DesignView;
use crate::mcu::Mcu;
use crate::mcu::Package;
use crate::mcu::TimerInstance;
use crate::mcu::TimerKind;
use crate::mcu_pinout::rows_of;
use crate::mcu_raw::RawMcuData;
use crate::pinout::Pin;
use crate::requirements::FabricView;
use crate::resources::crossbar_name;
use crate::resources::event_timer;
use crate::resources::Resource;
use crate::screen::after_keys;
use crate::screen::converter_status;
use crate::screen::fabric_status;
use crate::screen::lock_status;
use crate::screen::met_upto;
use crate::screen::planner_tabs;
use crate::screen::shared_tabs;
use crate::screen::tab_at;
use crate::screen::view_for;
use crate::session::redone;
use crate::session::tim_numbered;
use crate::session::undone;
use crate::session::AppView;
use crate::session::ViewMode;

verus! {

/// A row offers each pin that a signal can go to, and calls those taken that are neither free
/// nor its own; with no pin there is nothing to choose.
pub proof fn rows_offer_each_pin(all: Seq<Pin>, free: Seq<Pin>, current: Option<Pin>)
    ensures
        match row_of(all, free, current) {
            RowView::NoPin => all.len() == 0,
            RowView::Only(_) => all.len() == 1,
            RowView::Choice(_, v) => all.len() > 1 && v.len() == all.len() && (forall|i: int|
                0 <= i < all.len() ==> (#[trigger] v[i]).pin == all[i] && (v[i].taken <==> !(
                free.contains(all[i]) || current == Some(all[i])))),
        },
{
}

/// A design is called healthy exactly where it has no problem.
pub proof fn healthy_is_without_problems(
    d: DesignView,
    raw: RawMcuData,
    c: C531Design,
    package: Package,
    f: FabricView,
    warnings: int,
)
    ensures
        lock_status(d, raw).healthy <==> problems_of(d, raw).len() == 0,
        converter_status(c, package).healthy <==> c531_design::problems_of(
            rows_of(*package.info.raw),
            routes_of(package.info.mcu),
            c@.legs,
        ).len() == 0,
        fabric_status(f, warnings).healthy <==> warnings == 0,
{
}

/// As many requirements count as met as have an assignment.
pub proof fn met_are_those_with_an_assignment(d: FabricView, n: int)
    requires
        0 <= n <= d.assignments.len(),
    ensures
        0 <= met_upto(d, n) <= n,
        met_upto(d, n) == n <==> (forall|i: int| 0 <= i < n ==> (#[trigger] d.assignments[i]) is Some),
        met_upto(d, n) == 0 <==> (forall|i: int| 0 <= i < n ==> (#[trigger] d.assignments[i]) is None),
    decreases n,
{
    if n > 0 {
        met_are_those_with_an_assignment(d, n - 1);
        assert(d.assignments[n - 1] is Some || d.assignments[n - 1] is None);
    }
}

/// The keys undo and redo only with the command key; one of them undoes, and redoes with shift,
/// the other redoes.
pub proof fn keys_undo_and_redo(a: AppView, shift: bool, z: bool, y: bool)
    ensures
        after_keys(a, false, shift, z, y) == a,
        after_keys(a, true, false, true, false) == undone(a),
        after_keys(a, true, true, true, false) == redone(a),
        after_keys(a, true, shift, false, true) == redone(a),
        after_keys(a, true, shift, false, false) == a,
{
}

/// Moving to a family keeps a view that describes the part, and else shows what plans it.
pub proof fn a_family_opens_on_its_own_view(m: Mcu, view: ViewMode)
    ensures
        m == Mcu::G474 || view == ViewMode::Inventory || view == ViewMode::AfTable ==> view_for(
            m,
            view,
        ) == view,
        m != Mcu::G474 ==> exists|i: int| tab_at(m, false, i, view_for(m, view)),
{
    let all = planner_tabs(m, false) + shared_tabs();
    let n = planner_tabs(m, false).len() as int;
    let w = view_for(m, view);
    if m != Mcu::G474 {
        if w == ViewMode::Inventory {
            assert(all[n].view == w);
            assert(tab_at(m, false, n, w));
        } else if w == ViewMode::AfTable {
            assert(all[n + 1].view == w);
            assert(tab_at(m, false, n + 1, w));
        } else {
            assert(all[0].view == w);
            assert(tab_at(m, false, 0, w));
        }
    }
}

/// The timer that is shown at a DAC is the one of its first ramp.
pub proof fn the_first_ramp_is_shown(v: Seq<(DacId, HrtimId)>, d: DacId)
    ensures
        match ramp_of(v, d) {
            Some(t) => exists|i: int|
                0 <= i < v.len() && #[trigger] v[i] == (d, t) && (forall|j: int|
                    0 <= j < i ==> (#[trigger] v[j]).0 != d),
            None => forall|j: int| 0 <= j < v.len() ==> (#[trigger] v[j]).0 != d,
        },
    decreases v.len(),
{
    if v.len() > 0 {
        let w = v.skip(1);
        the_first_ramp_is_shown(w, d);
        assert forall|j: int| 0 <= j < w.len() implies w[j] == #[trigger] v[j + 1] by {}
        if v[0].0 == d {
            assert(v[0] == (d, v[0].1));
        } else {
            match ramp_of(w, d) {
                Some(t) => {
                    let i = choose|i: int|
                        0 <= i < w.len() && #[trigger] w[i] == (d, t) && (forall|j: int|
                            0 <= j < i ==> (#[trigger] w[j]).0 != d);
                    assert(v[i + 1] == (d, t));
                    assert forall|j: int| 0 <= j < i + 1 implies (#[trigger] v[j]).0 != d by {
                        if j > 0 {
                            assert(w[j - 1].0 != d);
                        }
                    }
                },
                None => {
                    assert forall|j: int| 0 <= j < v.len() implies (#[trigger] v[j]).0 != d by {
                        if j > 0 {
                            assert(w[j - 1].0 != d);
                        }
                    }
                },
            }
        }
    }
}

/// The events of a timer are those whose names begin with its name; the others are of none.
pub proof fn events_are_named_after_their_timer(ev: CrossbarSource)
    ensures
        match event_timer(ev) {
            Some(t) => crossbar_name(ev).len() > 4 && crossbar_name(ev).take(4) == hrtim_name(t),
            None => crossbar_name(ev)[0] != 'T',
        },
{
    reveal_strlit("Mcr1");
    reveal_strlit("Mcr2");
    reveal_strlit("Mcr3");
    reveal_strlit("Mcr4");
    reveal_strlit("Mper");
    reveal_strlit("Eev1");
    reveal_strlit("Eev2");
    reveal_strlit("Eev3");
    reveal_strlit("Eev4");
    reveal_strlit("Eev5");
    reveal_strlit("Eev6");
    reveal_strlit("Eev7");
    reveal_strlit("Eev8");
    reveal_strlit("Eev9");
    reveal_strlit("Eev10");
    reveal_strlit("TimACr2");
    reveal_strlit("TimACr3");
    reveal_strlit("TimACr4");
    reveal_strlit("TimACrPer");
    reveal_strlit("TimACrRst");
    reveal_strlit("TimBCr2");
    reveal_strlit("TimBCr3");
    reveal_strlit("TimBCr4");
    reveal_strlit("TimBCrPer");
    reveal_strlit("TimBCrRst");
    reveal_strlit("TimCCr2");
    reveal_strlit("TimCCr3");
    reveal_strlit("TimCCr4");
    reveal_strlit("TimCCrPer");
    reveal_strlit("TimCCrRst");
    reveal_strlit("TimDCr2");
    reveal_strlit("TimDCr3");
    reveal_strlit("TimDCr4");
    reveal_strlit("TimDCrPer");
    reveal_strlit("TimDCrRst");
    reveal_strlit("TimECr2");
    reveal_strlit("TimECr3");
    reveal_strlit("TimECr4");
    reveal_strlit("TimECrPer");
    reveal_strlit("TimECrRst");
    reveal_strlit("TimFCr2");
    reveal_strlit("TimFCr3");
    reveal_strlit("TimFCr4");
    reveal_strlit("TimFCrPer");
    reveal_strlit("TimFCrRst");
    reveal_strlit("TimA");
    reveal_strlit("TimB");
    reveal_strlit("TimC");
    reveal_strlit("TimD");
    reveal_strlit("TimE");
    reveal_strlit("TimF");
    if event_timer(ev) is Some {
        assert(crossbar_name(ev).take(4) =~= hrtim_name(event_timer(ev)->0));
    }
}

proof fn each_comp_is_listed(c: CompId)
    ensures
        exists|i: int| 0 <= i < 7 && #[trigger] all_comps_seq()[i] == c,
{
    let v = all_comps_seq();
    match c {
        CompId::Comp1 => {
            assert(v[0] == c);
        },
        CompId::Comp2 => {
            assert(v[1] == c);
        },
        CompId::Comp3 => {
            assert(v[2] == c);
        },
        CompId::Comp4 => {
            assert(v[3] == c);
        },
        CompId::Comp5 => {
            assert(v[4] == c);
        },
        CompId::Comp6 => {
            assert(v[5] == c);
        },
        CompId::Comp7 => {
            assert(v[6] == c);
        },
    }
}

proof fn comps_to_events_are(e: CrossbarSource, n: int, c: CompId)
    requires
        0 <= n <= 7,
    ensures
        comps_to_eev(e, n).contains(c) <==> eevs_of_comp(c).contains(e) && exists|i: int|
            0 <= i < n && #[trigger] all_comps_seq()[i] == c,
    decreases n,
{
    if n > 0 {
        comps_to_events_are(e, n - 1, c);
        let had = comps_to_eev(e, n - 1);
        let now = comps_to_eev(e, n);
        if had.contains(c) {
            let k = choose|k: int| 0 <= k < had.len() && had[k] == c;
            assert(now[k] == c);
        }
        if now != had && all_comps_seq()[n - 1] == c {
            assert(now[now.len() - 1] == c);
        }
        if now.contains(c) {
            let k = choose|k: int| 0 <= k < now.len() && now[k] == c;
            if k < had.len() {
                assert(had[k] == c);
            } else {
                assert(all_comps_seq()[n - 1] == c);
            }
        }
    }
}

proof fn comps_to_faults_are(f: HrtimFltId, n: int, c: CompId)
    requires
        0 <= n <= 7,
    ensures
        comps_to_flt(f, n).contains(c) <==> flts_of_comp(c).contains(f) && exists|i: int|
            0 <= i < n && #[trigger] all_comps_seq()[i] == c,
    decreases n,
{
    if n > 0 {
        comps_to_faults_are(f, n - 1, c);
        let had = comps_to_flt(f, n - 1);
        let now = comps_to_flt(f, n);
        if had.contains(c) {
            let k = choose|k: int| 0 <= k < had.len() && had[k] == c;
            assert(now[k] == c);
        }
        if now != had && all_comps_seq()[n - 1] == c {
            assert(now[now.len() - 1] == c);
        }
        if now.contains(c) {
            let k = choose|k: int| 0 <= k < now.len() && now[k] == c;
            if k < had.len() {
                assert(had[k] == c);
            } else {
                assert(all_comps_seq()[n - 1] == c);
            }
        }
    }
}

/// The comparators that are shown at an event or a fault are those that list it.
pub proof fn comparators_go_both_ways(c: CompId, e: CrossbarSource, f: HrtimFltId)
    ensures
        comps_to_eev(e, all_comps_seq().len() as int).contains(c) <==> eevs_of_comp(c).contains(e),
        comps_to_flt(f, all_comps_seq().len() as int).contains(c) <==> flts_of_comp(c).contains(f),
{
    each_comp_is_listed(c);
    comps_to_events_are(e, 7, c);
    comps_to_faults_are(f, 7, c);
}

proof fn slots_are_tagged(t: HrtimId, used: Seq<Resource>, n: int, s: int)
    requires
        0 <= s < n <= 4,
        used.contains(Resource::TimerSlot(t, all_cr_slots_seq()[s])),
    ensures
        slot_tags(t, used, n).contains(cr_name(all_cr_slots_seq()[s])),
    decreases n,
{
    let x = cr_name(all_cr_slots_seq()[s]);
    let now = slot_tags(t, used, n);
    if s < n - 1 {
        slots_are_tagged(t, used, n - 1, s);
        let had = slot_tags(t, used, n - 1);
        let k = choose|k: int| 0 <= k < had.len() && had[k] == x;
        assert(now[k] == x);
    } else {
        assert(now[now.len() - 1] == x);
    }
}

proof fn tags_come_from_slots(t: HrtimId, used: Seq<Resource>, n: int, k: int)
    requires
        0 <= n <= 4,
        0 <= k < slot_tags(t, used, n).len(),
    ensures
        exists|s: TimerCompareSlot|
            #[trigger] used.contains(Resource::TimerSlot(t, s)) && cr_name(s) == slot_tags(
                t,
                used,
                n,
            )[k],
    decreases n,
{
    if n > 0 {
        let had = slot_tags(t, used, n - 1);
        if k < had.len() {
            tags_come_from_slots(t, used, n - 1, k);
            assert(had[k] == slot_tags(t, used, n)[k]);
        } else {
            let s = all_cr_slots_seq()[n - 1];
            assert(used.contains(Resource::TimerSlot(t, s)));
        }
    }
}

/// A timer is tagged with each of its compare and capture units that is in use.
pub proof fn units_in_use_are_tagged(
    t: HrtimId,
    used: Seq<Resource>,
    s: TimerCompareSlot,
    u: TimerCaptureUnit,
)
    ensures
        ({
            let v = timer_tags_upto(t, used, all_capture_units_seq().len() as int);
            &&& used.contains(Resource::TimerSlot(t, s)) ==> v.contains(cr_name(s))
            &&& used.contains(Resource::TimerCapture(t, u)) ==> v.contains(cpt_name(u))
        }),
{
    let a = slot_tags(t, used, 4);
    let b = timer_tags_upto(t, used, 1);
    let v = timer_tags_upto(t, used, 2);
    assert(all_cr_slots_seq().len() == 4 && all_capture_units_seq().len() == 2);
    assert(timer_tags_upto(t, used, 0) == a);
    assert(b == if used.contains(Resource::TimerCapture(t, TimerCaptureUnit::Cpt1)) {
        a.push(cpt_name(TimerCaptureUnit::Cpt1))
    } else {
        a
    });
    assert(v == if used.contains(Resource::TimerCapture(t, TimerCaptureUnit::Cpt2)) {
        b.push(cpt_name(TimerCaptureUnit::Cpt2))
    } else {
        b
    });
    if used.contains(Resource::TimerSlot(t, s)) {
        let i: int = match s {
            TimerCompareSlot::Cr1 => 0,
            TimerCompareSlot::Cr2 => 1,
            TimerCompareSlot::Cr3 => 2,
            TimerCompareSlot::Cr4 => 3,
        };
        assert(all_cr_slots_seq()[i] == s);
        slots_are_tagged(t, used, 4, i);
        let k = choose|k: int| 0 <= k < a.len() && a[k] == cr_name(s);
        assert(b[k] == cr_name(s));
        assert(v[k] == cr_name(s));
    }
    if used.contains(Resource::TimerCapture(t, u)) {
        match u {
            TimerCaptureUnit::Cpt1 => {
                assert(b[b.len() - 1] == cpt_name(u));
                assert(v[b.len() - 1] == cpt_name(u));
            },
            TimerCaptureUnit::Cpt2 => {
                assert(v[v.len() - 1] == cpt_name(u));
            },
        }
    }
}

/// A timer is tagged with nothing that it does not use.
pub proof fn tags_are_of_units_in_use(t: HrtimId, used: Seq<Resource>, k: int)
    requires
        0 <= k < timer_tags_upto(t, used, all_capture_units_seq().len() as int).len(),
    ensures
        ({
            let x = timer_tags_upto(t, used, all_capture_units_seq().len() as int)[k];
            ||| exists|s: TimerCompareSlot|
                #[trigger] used.contains(Resource::TimerSlot(t, s)) && cr_name(s) == x
            ||| exists|u: TimerCaptureUnit|
                #[trigger] used.contains(Resource::TimerCapture(t, u)) && cpt_name(u) == x
        }),
{
    let a = slot_tags(t, used, 4);
    let b = timer_tags_upto(t, used, 1);
    let v = timer_tags_upto(t, used, 2);
    assert(all_cr_slots_seq().len() == 4 && all_capture_units_seq().len() == 2);
    assert(timer_tags_upto(t, used, 0) == a);
    assert(all_capture_units_seq()[0] == TimerCaptureUnit::Cpt1);
    assert(all_capture_units_seq()[1] == TimerCaptureUnit::Cpt2);
    if k < a.len() {
        tags_come_from_slots(t, used, 4, k);
        assert(b[k] == a[k]);
        assert(v[k] == a[k]);
    } else if k < b.len() {
        assert(used.contains(Resource::TimerCapture(t, TimerCaptureUnit::Cpt1)));
        assert(v[k] == b[k]);
    } else {
        assert(used.contains(Resource::TimerCapture(t, TimerCaptureUnit::Cpt2)));
    }
}

proof fn numbers_are_of_timers(n: u8, k: int)
    requires
        0 <= k <= 12,
    ensures
        tim_numbered(n, k) matches Some(t) ==> tim_nr(t) == n,
        tim_numbered(n, k) is None ==> forall|i: int|
            k <= i < 12 ==> tim_nr(#[trigger] all_tims_seq()[i]) != n,
    decreases 12 - k,
{
    assert(all_tims_seq().len() == 12);
    if k < 12 {
        numbers_are_of_timers(n, k + 1);
    }
}

/// The timers that a leg can go on are the advanced ones of the chip.
pub proof fn legs_go_on_advanced_timers(timers: Seq<TimerInstance>, n: int, k: int)
    requires
        0 <= n <= timers.len(),
        0 <= k < advanced_upto(timers, n).len(),
    ensures
        exists|i: int|
            0 <= i < n && (#[trigger] timers[i]).kind == TimerKind::Advanced && tim_nr(
                advanced_upto(timers, n)[k],
            ) == timers[i].number,
    decreases n,
{
    if n > 0 {
        let had = advanced_upto(timers, n - 1);
        numbers_are_of_timers(timers[n - 1].number, 0);
        if k < had.len() {
            legs_go_on_advanced_timers(timers, n - 1, k);
            assert(had[k] == advanced_upto(timers, n)[k]);
        } else {
            assert(timers[n - 1].kind == TimerKind::Advanced);
        }
    }
}

/// Two lists that are merged give what is in either, each once where the first holds none twice.
pub proof fn merged_holds_both(a: Seq<u8>, b: Seq<u8>, n: int, x: u8)
    requires
        0 <= n <= b.len(),
    ensures
        merged(a, b, n).contains(x) <==> a.contains(x) || b.take(n).contains(x),
        a.no_duplicates() ==> merged(a, b, n).no_duplicates(),
    decreases n,
{
    if n > 0 {
        merged_holds_both(a, b, n - 1, x);
        let had = merged(a, b, n - 1);
        let now = merged(a, b, n);
        assert(b.take(n) =~= b.take(n - 1).push(b[n - 1]));
        let c = b.take(n - 1);
        let d = b.take(n);
        if d.contains(x) {
            let k = choose|k: int| 0 <= k < d.len() && d[k] == x;
            if k < n - 1 {
                assert(c[k] == x);
            }
        }
        if c.contains(x) {
            let k = choose|k: int| 0 <= k < c.len() && c[k] == x;
            assert(d[k] == x);
        }
        assert(d[n - 1] == b[n - 1]);
        if had.contains(x) {
            let k = choose|k: int| 0 <= k < had.len() && had[k] == x;
            assert(now[k] == x);
        }
        if now.contains(x) && !had.contains(x) {
            let k = choose|k: int| 0 <= k < now.len() && now[k] == x;
            if k < had.len() {
                assert(had[k] == x);
            }
        }
        if !had.contains(b[n - 1]) {
            assert(now[now.len() - 1] == b[n - 1]);
        }
    } else {
        assert(b.take(0).len() == 0);
    }
}

} // verus!
