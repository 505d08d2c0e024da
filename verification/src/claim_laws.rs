//! What an assignment takes up, and what is read off the assignments.

use vstd::prelude::*;

use crate::fabric_selection::claims;
use crate::fabric_selection::first_master_event;
use crate::fabric_selection::outside_upto;
use crate::fabric_selection::phases_upto;
use crate::fabric_selection::ramps_upto;
use crate::fabric_selection::timers_upto;
use crate::g474::CrossbarSource;
use crate::g474::DacId;
use crate::g474::HrtimId;
use crate::g474::TimerCaptureUnit;
use crate::g474::TimerCompareSlot;
use crate::requirements::is_master;
use crate::requirements::Assignment;
use crate::requirements::PhaseAllocation;
use crate::requirements::TriggerSource;
use crate::resources::Resource;

verus! {

/// What a phase on a timer takes of it: its second compare unit, and where it follows the
/// current to zero its fourth one and its second capture unit, and nothing of another timer.
pub open spec fn takes_timer(v: Seq<Resource>, timer: HrtimId, dem: bool) -> bool {
    &&& v.contains(Resource::Timer(timer))
    &&& v.contains(Resource::TimerSlot(timer, TimerCompareSlot::Cr2))
    &&& dem <==> v.contains(Resource::TimerSlot(timer, TimerCompareSlot::Cr4))
    &&& dem <==> v.contains(Resource::TimerCapture(timer, TimerCaptureUnit::Cpt2))
    &&& forall|t: HrtimId| #[trigger] v.contains(Resource::Timer(t)) ==> t == timer
    &&& forall|t: HrtimId, s: TimerCompareSlot| #[trigger]
        v.contains(Resource::TimerSlot(t, s)) ==> t == timer && (s == TimerCompareSlot::Cr2 || s
            == TimerCompareSlot::Cr4)
    &&& forall|t: HrtimId, u: TimerCaptureUnit| #[trigger]
        v.contains(Resource::TimerCapture(t, u)) ==> t == timer && u == TimerCaptureUnit::Cpt2
}

/// A phase takes its timer, its DAC, its comparator and its events.
pub proof fn a_phase_takes_its_parts(
    timer: HrtimId,
    alloc: PhaseAllocation,
    dem: bool,
    zcd_eev: Option<CrossbarSource>,
)
    ensures
        ({
            let v = claims(Assignment::PcmPhase { timer, alloc, dem, zcd_eev });
            &&& takes_timer(v, timer, dem)
            &&& forall|d: DacId| #[trigger] v.contains(Resource::Dac(d)) <==> d == alloc.dac
            &&& v.contains(Resource::Comp(alloc.comp))
            &&& forall|e: CrossbarSource| #[trigger]
                v.contains(Resource::Eev(e)) <==> e == alloc.eev || zcd_eev == Some(e)
        }),
{
    let v = claims(Assignment::PcmPhase { timer, alloc, dem, zcd_eev });
    assert(v[0] == Resource::Timer(timer));
    assert(v[1] == Resource::TimerSlot(timer, TimerCompareSlot::Cr2));
    let k: int = if dem {
        4
    } else {
        2
    };
    if dem {
        assert(v[2] == Resource::TimerSlot(timer, TimerCompareSlot::Cr4));
        assert(v[3] == Resource::TimerCapture(timer, TimerCaptureUnit::Cpt2));
    }
    assert(v[k] == Resource::Dac(alloc.dac));
    assert(v[k + 1] == Resource::Comp(alloc.comp));
    assert(v[k + 2] == Resource::Eev(alloc.eev));
    if zcd_eev is Some {
        assert(v[k + 3] == Resource::Eev(zcd_eev->0));
    }
}

/// A phase with its comparator outside takes its timer, its DAC where it has one, and its
/// events, and no comparator.
#[verifier::rlimit(60)]
pub proof fn an_outside_phase_takes_its_parts(
    timer: HrtimId,
    dac: Option<DacId>,
    peak_eev: CrossbarSource,
    dem: bool,
    zcd_eev: Option<CrossbarSource>,
)
    ensures
        ({
            let v = claims(Assignment::PcmPhaseExternal { timer, dac, peak_eev, dem, zcd_eev });
            &&& takes_timer(v, timer, dem)
            &&& forall|d: DacId| #[trigger] v.contains(Resource::Dac(d)) <==> dac == Some(d)
            &&& forall|e: CrossbarSource| #[trigger]
                v.contains(Resource::Eev(e)) <==> e == peak_eev || zcd_eev == Some(e)
        }),
{
    let v = claims(Assignment::PcmPhaseExternal { timer, dac, peak_eev, dem, zcd_eev });
    assert(v[0] == Resource::Timer(timer));
    assert(v[1] == Resource::TimerSlot(timer, TimerCompareSlot::Cr2));
    let k: int = if dem {
        4
    } else {
        2
    };
    if dem {
        assert(v[2] == Resource::TimerSlot(timer, TimerCompareSlot::Cr4));
        assert(v[3] == Resource::TimerCapture(timer, TimerCaptureUnit::Cpt2));
    }
    let m: int = if dac is Some {
        k + 1
    } else {
        k
    };
    assert(v.len() == m + 1 + (if zcd_eev is Some {
        1int
    } else {
        0
    }));
    if dac is Some {
        assert(v[k] == Resource::Dac(dac->0));
    }
    assert(v[m] == Resource::Eev(peak_eev));
    if zcd_eev is Some {
        assert(v[m + 1] == Resource::Eev(zcd_eev->0));
    }
}

/// The one peripheral that an assignment other than a phase takes.
pub open spec fn what_it_uses(a: Assignment) -> Resource {
    match a {
        Assignment::AdcSequencer { adc, kind, .. } => Resource::AdcSequencer(adc, kind),
        Assignment::AdcConversion { adc, channel, .. } => Resource::AdcInput(adc, channel),
        Assignment::Spi { instance, .. } => Resource::Spi(instance),
        Assignment::I2c { instance, .. } => Resource::I2c(instance),
        Assignment::Usart { instance, .. } => Resource::Usart(instance),
        Assignment::Uart { instance, .. } => Resource::Uart(instance),
        Assignment::Lpuart { instance, .. } => Resource::Lpuart(instance),
        Assignment::Can { instance } => Resource::Can(instance),
        Assignment::Ucpd { instance } => Resource::Ucpd(instance),
        _ => Resource::Usb,
    }
}

/// Any other assignment takes the one peripheral that it is of.
pub proof fn a_peripheral_is_taken(a: Assignment, x: Resource)
    requires
        !(a is PcmPhase),
        !(a is PcmPhaseExternal),
    ensures
        claims(a).contains(x) <==> x == what_it_uses(a),
{
    assert(claims(a)[0] == what_it_uses(a));
    assert(claims(a).len() == 1);
}

/// Whether an assignment is a phase on a timer.
pub open spec fn is_phase_on(a: Option<Assignment>, timer: HrtimId, dem: bool) -> bool {
    match a {
        Some(Assignment::PcmPhase { timer: t, dem: d, .. }) => t == timer && d == dem,
        Some(Assignment::PcmPhaseExternal { timer: t, dem: d, .. }) => t == timer && d == dem,
        _ => false,
    }
}

/// The timers in use are those of the phases.
pub proof fn timers_are_of_phases(v: Seq<Option<Assignment>>, n: int, timer: HrtimId, dem: bool)
    requires
        0 <= n <= v.len(),
    ensures
        timers_upto(v, n).contains((timer, dem)) <==> exists|i: int|
            0 <= i < n && is_phase_on(#[trigger] v[i], timer, dem),
    decreases n,
{
    if n > 0 {
        timers_are_of_phases(v, n - 1, timer, dem);
        let had = timers_upto(v, n - 1);
        let now = timers_upto(v, n);
        let x = (timer, dem);
        if had.contains(x) {
            let k = choose|k: int| 0 <= k < had.len() && had[k] == x;
            assert(now[k] == x);
        }
        if is_phase_on(v[n - 1], timer, dem) {
            assert(now[now.len() - 1] == x);
        }
        if now.contains(x) {
            let k = choose|k: int| 0 <= k < now.len() && now[k] == x;
            if k < had.len() {
                assert(had[k] == x);
            } else {
                assert(is_phase_on(v[n - 1], timer, dem));
            }
        }
    }
}

/// Whether an assignment ramps a DAC from a timer.
pub open spec fn ramps(a: Option<Assignment>, d: DacId, timer: HrtimId) -> bool {
    match a {
        Some(Assignment::PcmPhase { timer: t, alloc, .. }) => t == timer && alloc.dac == d,
        Some(Assignment::PcmPhaseExternal { timer: t, dac, .. }) => t == timer && dac == Some(d),
        _ => false,
    }
}

/// The ramps are those of the phases that have a DAC.
pub proof fn ramps_are_of_phases(v: Seq<Option<Assignment>>, n: int, d: DacId, timer: HrtimId)
    requires
        0 <= n <= v.len(),
    ensures
        ramps_upto(v, n).contains((d, timer)) <==> exists|i: int|
            0 <= i < n && ramps(#[trigger] v[i], d, timer),
    decreases n,
{
    if n > 0 {
        ramps_are_of_phases(v, n - 1, d, timer);
        let had = ramps_upto(v, n - 1);
        let now = ramps_upto(v, n);
        let x = (d, timer);
        if had.contains(x) {
            let k = choose|k: int| 0 <= k < had.len() && had[k] == x;
            assert(now[k] == x);
        }
        if ramps(v[n - 1], d, timer) {
            assert(now[now.len() - 1] == x);
        }
        if now.contains(x) {
            let k = choose|k: int| 0 <= k < now.len() && now[k] == x;
            if k < had.len() {
                assert(had[k] == x);
            } else {
                assert(ramps(v[n - 1], d, timer));
            }
        }
    }
}

/// Whether an event comes to an assignment from outside of the chip.
pub open spec fn comes_in(a: Option<Assignment>, e: CrossbarSource) -> bool {
    match a {
        Some(Assignment::PcmPhase { zcd_eev, .. }) => zcd_eev == Some(e),
        Some(Assignment::PcmPhaseExternal { peak_eev, zcd_eev, .. }) => peak_eev == e || zcd_eev
            == Some(e),
        _ => false,
    }
}

/// The events from outside are the peaks of the phases with their comparator outside, and all
/// zero crossings.
pub proof fn outside_events_are_of_phases(v: Seq<Option<Assignment>>, n: int, e: CrossbarSource)
    requires
        0 <= n <= v.len(),
    ensures
        outside_upto(v, n).contains(e) <==> exists|i: int|
            0 <= i < n && comes_in(#[trigger] v[i], e),
    decreases n,
{
    if n > 0 {
        outside_events_are_of_phases(v, n - 1, e);
        let had = outside_upto(v, n - 1);
        let more = crate::fabric_selection::outside_events(v[n - 1]);
        let now = outside_upto(v, n);
        assert(now == had + more);
        if had.contains(e) {
            let k = choose|k: int| 0 <= k < had.len() && had[k] == e;
            assert(now[k] == e);
        }
        if comes_in(v[n - 1], e) {
            if more[0] == e {
                assert(now[had.len() as int] == e);
            } else {
                assert(more[1] == e);
                assert(now[had.len() as int + 1] == e);
            }
        }
        if now.contains(e) {
            let k = choose|k: int| 0 <= k < now.len() && now[k] == e;
            if k < had.len() {
                assert(had[k] == e);
            } else {
                assert(more[k - had.len()] == e);
                assert(comes_in(v[n - 1], e));
            }
        }
    }
}

/// The phases with their comparator inside are listed with what they were given.
pub proof fn phases_are_listed(v: Seq<Option<Assignment>>, n: int, p: PhaseAllocation)
    requires
        0 <= n <= v.len(),
    ensures
        phases_upto(v, n).contains(p) <==> exists|i: int|
            0 <= i < n && ((#[trigger] v[i]) matches Some(Assignment::PcmPhase { alloc, .. })
                && alloc == p),
    decreases n,
{
    if n > 0 {
        phases_are_listed(v, n - 1, p);
        let had = phases_upto(v, n - 1);
        let now = phases_upto(v, n);
        if had.contains(p) {
            let k = choose|k: int| 0 <= k < had.len() && had[k] == p;
            assert(now[k] == p);
        }
        if v[n - 1] matches Some(Assignment::PcmPhase { alloc, .. }) && alloc == p {
            assert(now[now.len() - 1] == p);
        }
        if now.contains(p) {
            let k = choose|k: int| 0 <= k < now.len() && now[k] == p;
            if k < had.len() {
                assert(had[k] == p);
            } else {
                assert(v[n - 1] is Some);
            }
        }
    }
}

/// Whether a sequencer is set off by an event of the master timer.
pub open spec fn is_set_off_by(a: Option<Assignment>, ev: CrossbarSource) -> bool {
    is_master(ev) && (a matches Some(Assignment::AdcSequencer { trigger, .. }) && trigger
        == TriggerSource::Event(ev))
}

/// The event of the master timer that is shown is the one of the first sequencer that has one.
pub proof fn the_first_master_event_is_shown(v: Seq<Option<Assignment>>, k: int)
    requires
        0 <= k <= v.len(),
    ensures
        match first_master_event(v, k) {
            Some(ev) => exists|i: int|
                k <= i < v.len() && is_set_off_by(#[trigger] v[i], ev) && (forall|j: int, e: CrossbarSource|
                    #![trigger is_set_off_by(v[j], e)]
                    k <= j < i ==> !is_set_off_by(v[j], e)),
            None => forall|j: int, e: CrossbarSource|
                #![trigger is_set_off_by(v[j], e)]
                k <= j < v.len() ==> !is_set_off_by(v[j], e),
        },
    decreases v.len() - k,
{
    if k < v.len() {
        the_first_master_event_is_shown(v, k + 1);
        match crate::fabric_selection::master_event_of(v[k]) {
            Some(ev) => {
                assert(is_set_off_by(v[k], ev));
            },
            None => {
                assert forall|e: CrossbarSource| !is_set_off_by(v[k], e) by {}
                if first_master_event(v, k + 1) is Some {
                    let ev = first_master_event(v, k + 1)->0;
                    let i = choose|i: int|
                        k + 1 <= i < v.len() && is_set_off_by(#[trigger] v[i], ev) && (forall|
                            j: int,
                            e: CrossbarSource,
                        |
                            #![trigger is_set_off_by(v[j], e)]
                            k + 1 <= j < i ==> !is_set_off_by(v[j], e));
                    assert(is_set_off_by(v[i], ev));
                }
            },
        }
    }
}

} // verus!
