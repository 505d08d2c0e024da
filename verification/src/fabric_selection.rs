//! What a design takes of the chip, as the picture of the power fabric shows it.

use vstd::prelude::*;

use crate::g474::CrossbarSource;
use crate::g474::DacId;
use crate::g474::HrtimId;
use crate::g474::TimerCaptureUnit;
use crate::g474::TimerCompareSlot;
use crate::requirements;
use crate::requirements::is_master;
use crate::requirements::Assignment;
use crate::requirements::Design;
use crate::requirements::FabricView;
use crate::requirements::PhaseAllocation;
use crate::requirements::TriggerSource;
use crate::resources::Resource;

verus! {

/// The slots and units of a sub-timer that a phase takes.
pub open spec fn timer_claims(timer: HrtimId, dem: bool) -> Seq<Resource> {
    if dem {
        seq![
            Resource::Timer(timer),
            Resource::TimerSlot(timer, TimerCompareSlot::Cr2),
            Resource::TimerSlot(timer, TimerCompareSlot::Cr4),
            Resource::TimerCapture(timer, TimerCaptureUnit::Cpt2),
        ]
    } else {
        seq![Resource::Timer(timer), Resource::TimerSlot(timer, TimerCompareSlot::Cr2)]
    }
}

/// An event input, where one is taken.
pub open spec fn event_claim(ev: Option<CrossbarSource>) -> Seq<Resource> {
    match ev {
        Some(e) => seq![Resource::Eev(e)],
        None => Seq::empty(),
    }
}

/// What an assignment takes.
pub open spec fn claims(a: Assignment) -> Seq<Resource> {
    match a {
        Assignment::PcmPhase { timer, alloc, dem, zcd_eev } => timer_claims(timer, dem) + seq![
            Resource::Dac(alloc.dac),
            Resource::Comp(alloc.comp),
            Resource::Eev(alloc.eev),
        ] + event_claim(zcd_eev),
        Assignment::PcmPhaseExternal { timer, dac, peak_eev, dem, zcd_eev } => timer_claims(
            timer,
            dem,
        ) + (match dac {
            Some(d) => seq![Resource::Dac(d)],
            None => Seq::empty(),
        }) + seq![Resource::Eev(peak_eev)] + event_claim(zcd_eev),
        Assignment::AdcSequencer { adc, kind, .. } => seq![Resource::AdcSequencer(adc, kind)],
        Assignment::AdcConversion { adc, channel, .. } => seq![Resource::AdcInput(adc, channel)],
        Assignment::Spi { instance, .. } => seq![Resource::Spi(instance)],
        Assignment::I2c { instance, .. } => seq![Resource::I2c(instance)],
        Assignment::Usart { instance, .. } => seq![Resource::Usart(instance)],
        Assignment::Uart { instance, .. } => seq![Resource::Uart(instance)],
        Assignment::Lpuart { instance, .. } => seq![Resource::Lpuart(instance)],
        Assignment::Can { instance } => seq![Resource::Can(instance)],
        Assignment::Usb => seq![Resource::Usb],
        Assignment::Ucpd { instance } => seq![Resource::Ucpd(instance)],
    }
}

fn push_timer(timer: HrtimId, dem: bool, out: &mut Vec<Resource>)
    ensures
        final(out)@ == old(out)@ + timer_claims(timer, dem),
{
    let ghost base = out@;
    out.push(Resource::Timer(timer));
    out.push(Resource::TimerSlot(timer, TimerCompareSlot::Cr2));
    if dem {
        out.push(Resource::TimerSlot(timer, TimerCompareSlot::Cr4));
        out.push(Resource::TimerCapture(timer, TimerCaptureUnit::Cpt2));
    }
    proof {
        assert(out@ =~= base + timer_claims(timer, dem));
    }
}

fn push_event(ev: Option<CrossbarSource>, out: &mut Vec<Resource>)
    ensures
        final(out)@ == old(out)@ + event_claim(ev),
{
    let ghost base = out@;
    if let Some(e) = ev {
        out.push(Resource::Eev(e));
    }
    proof {
        assert(out@ =~= base + event_claim(ev));
    }
}

fn push_claims(a: &Assignment, out: &mut Vec<Resource>)
    ensures
        final(out)@ == old(out)@ + claims(*a),
{
    let ghost base = out@;
    match *a {
        Assignment::PcmPhase { timer, alloc, dem, zcd_eev } => {
            push_timer(timer, dem, out);
            out.push(Resource::Dac(alloc.dac));
            out.push(Resource::Comp(alloc.comp));
            out.push(Resource::Eev(alloc.eev));
            push_event(zcd_eev, out);
        },
        Assignment::PcmPhaseExternal { timer, dac, peak_eev, dem, zcd_eev } => {
            push_timer(timer, dem, out);
            if let Some(d) = dac {
                out.push(Resource::Dac(d));
            }
            out.push(Resource::Eev(peak_eev));
            push_event(zcd_eev, out);
        },
        Assignment::AdcSequencer { adc, kind, .. } => {
            out.push(Resource::AdcSequencer(adc, kind));
        },
        Assignment::AdcConversion { adc, channel, .. } => {
            out.push(Resource::AdcInput(adc, channel));
        },
        Assignment::Spi { instance, .. } => {
            out.push(Resource::Spi(instance));
        },
        Assignment::I2c { instance, .. } => {
            out.push(Resource::I2c(instance));
        },
        Assignment::Usart { instance, .. } => {
            out.push(Resource::Usart(instance));
        },
        Assignment::Uart { instance, .. } => {
            out.push(Resource::Uart(instance));
        },
        Assignment::Lpuart { instance, .. } => {
            out.push(Resource::Lpuart(instance));
        },
        Assignment::Can { instance } => {
            out.push(Resource::Can(instance));
        },
        Assignment::Usb => {
            out.push(Resource::Usb);
        },
        Assignment::Ucpd { instance } => {
            out.push(Resource::Ucpd(instance));
        },
    }
    proof {
        assert(out@ =~= base + claims(*a));
    }
}

/// What the first `n` assignments take.
pub open spec fn claims_upto(v: Seq<Option<Assignment>>, n: int) -> Seq<Resource>
    decreases n,
{
    if n <= 0 {
        Seq::empty()
    } else {
        match v[n - 1] {
            Some(a) => claims_upto(v, n - 1) + claims(a),
            None => claims_upto(v, n - 1),
        }
    }
}

/// Whether a design's assignments take a resource, or the user locked it.
pub open spec fn is_used(d: FabricView, x: Resource) -> bool {
    claims_upto(d.assignments, d.assignments.len() as int).contains(x) || d.locks.contains(x)
}

fn push_new(v: &[Resource], out: &mut Vec<Resource>)
    requires
        old(out)@.no_duplicates(),
    ensures
        final(out)@.no_duplicates(),
        forall|x: Resource| #[trigger]
            final(out)@.contains(x) <==> old(out)@.contains(x) || v@.contains(x),
{
    let ghost base = out@;
    let mut i: usize = 0;
    while i < v.len()
        invariant
            i <= v@.len(),
            out@.no_duplicates(),
            forall|x: Resource| #[trigger]
                out@.contains(x) <==> base.contains(x) || exists|k: int| 0 <= k < i && v@[k] == x,
        decreases v@.len() - i,
    {
        let ghost had = out@;
        if !requirements::holds_resource(out, v[i]) {
            out.push(v[i]);
        }
        proof {
            let y = v@[i as int];
            assert forall|x: Resource| #[trigger] out@.contains(x) <==> base.contains(x) || exists|k: int|
                0 <= k < i + 1 && v@[k] == x by {
                assert(out@.contains(x) <==> had.contains(x) || x == y) by {
                    if had.contains(x) {
                        let k = choose|k: int| 0 <= k < had.len() && had[k] == x;
                        assert(out@[k] == x);
                    }
                    if x == y && !had.contains(y) {
                        assert(out@[had.len() as int] == y);
                    }
                }
                if had.contains(x) && !base.contains(x) {
                    let k = choose|k: int| 0 <= k < i && v@[k] == x;
                    assert(v@[k] == x);
                }
                if x == y {
                    assert(v@[i as int] == x);
                }
            }
        }
        i += 1;
    }
    proof {
        assert forall|x: Resource| #[trigger] out@.contains(x) <==> base.contains(x) || v@.contains(
            x,
        ) by {
            if v@.contains(x) {
                let k = choose|k: int| 0 <= k < v@.len() && v@[k] == x;
                assert(v@[k] == x);
            }
        }
    }
}

/// All that a design takes, each resource once.
pub fn all_used(design: &Design) -> (r: Vec<Resource>)
    ensures
        r@.no_duplicates(),
        forall|x: Resource| #[trigger] r@.contains(x) <==> is_used(design@, x),
{
    let mut claimed: Vec<Resource> = Vec::new();
    let mut i: usize = 0;
    while i < design.assignments.len()
        invariant
            i <= design.assignments@.len(),
            claimed@ == claims_upto(design.assignments@, i as int),
        decreases design.assignments@.len() - i,
    {
        if let Some(a) = &design.assignments[i] {
            push_claims(a, &mut claimed);
        }
        i += 1;
    }
    let mut r: Vec<Resource> = Vec::new();
    push_new(&claimed, &mut r);
    push_new(&design.locks, &mut r);
    r
}

/// A phase that an assignment runs with its comparator inside.
pub open spec fn phase_of(a: Option<Assignment>) -> Option<PhaseAllocation> {
    match a {
        Some(Assignment::PcmPhase { alloc, .. }) => Some(alloc),
        _ => None,
    }
}

/// The phases of the first `n` assignments.
pub open spec fn phases_upto(v: Seq<Option<Assignment>>, n: int) -> Seq<PhaseAllocation>
    decreases n,
{
    if n <= 0 {
        Seq::empty()
    } else {
        match phase_of(v[n - 1]) {
            Some(p) => phases_upto(v, n - 1).push(p),
            None => phases_upto(v, n - 1),
        }
    }
}

/// The phases with their comparators inside.
pub fn phases(design: &Design) -> (r: Vec<PhaseAllocation>)
    ensures
        r@ == phases_upto(design@.assignments, design@.assignments.len() as int),
{
    let mut r: Vec<PhaseAllocation> = Vec::new();
    let mut i: usize = 0;
    while i < design.assignments.len()
        invariant
            i <= design.assignments@.len(),
            r@ == phases_upto(design.assignments@, i as int),
        decreases design.assignments@.len() - i,
    {
        if let Some(Assignment::PcmPhase { alloc, .. }) = design.assignments[i] {
            r.push(alloc);
        }
        i += 1;
    }
    r
}

/// The events that an assignment takes from outside.
pub open spec fn outside_events(a: Option<Assignment>) -> Seq<CrossbarSource> {
    match a {
        Some(Assignment::PcmPhase { zcd_eev: Some(z), .. }) => seq![z],
        Some(Assignment::PcmPhaseExternal { peak_eev, zcd_eev: Some(z), .. }) => seq![peak_eev, z],
        Some(Assignment::PcmPhaseExternal { peak_eev, zcd_eev: None, .. }) => seq![peak_eev],
        _ => Seq::empty(),
    }
}

/// The events that the first `n` assignments take from outside.
pub open spec fn outside_upto(v: Seq<Option<Assignment>>, n: int) -> Seq<CrossbarSource>
    decreases n,
{
    if n <= 0 {
        Seq::empty()
    } else {
        outside_upto(v, n - 1) + outside_events(v[n - 1])
    }
}

/// The events that come from outside.
pub fn external_eevs(design: &Design) -> (r: Vec<CrossbarSource>)
    ensures
        r@ == outside_upto(design@.assignments, design@.assignments.len() as int),
{
    let mut r: Vec<CrossbarSource> = Vec::new();
    let mut i: usize = 0;
    while i < design.assignments.len()
        invariant
            i <= design.assignments@.len(),
            r@ == outside_upto(design.assignments@, i as int),
        decreases design.assignments@.len() - i,
    {
        let ghost base = r@;
        match design.assignments[i] {
            Some(Assignment::PcmPhase { zcd_eev, .. }) => {
                if let Some(z) = zcd_eev {
                    r.push(z);
                }
            },
            Some(Assignment::PcmPhaseExternal { peak_eev, zcd_eev, .. }) => {
                r.push(peak_eev);
                if let Some(z) = zcd_eev {
                    r.push(z);
                }
            },
            _ => {},
        }
        proof {
            assert(r@ =~= base + outside_events(design.assignments@[i as int]));
        }
        i += 1;
    }
    r
}

/// The sub-timer of a phase, and whether it has an auto-delayed dead time.
pub open spec fn timer_of(a: Option<Assignment>) -> Option<(HrtimId, bool)> {
    match a {
        Some(Assignment::PcmPhase { timer, dem, .. }) => Some((timer, dem)),
        Some(Assignment::PcmPhaseExternal { timer, dem, .. }) => Some((timer, dem)),
        _ => None,
    }
}

/// The sub-timers of the phases among the first `n` assignments.
pub open spec fn timers_upto(v: Seq<Option<Assignment>>, n: int) -> Seq<(HrtimId, bool)>
    decreases n,
{
    if n <= 0 {
        Seq::empty()
    } else {
        match timer_of(v[n - 1]) {
            Some(t) => timers_upto(v, n - 1).push(t),
            None => timers_upto(v, n - 1),
        }
    }
}

/// The sub-timers of the phases, each with whether it has an auto-delayed dead time.
pub fn phase_timers(design: &Design) -> (r: Vec<(HrtimId, bool)>)
    ensures
        r@ == timers_upto(design@.assignments, design@.assignments.len() as int),
{
    let mut r: Vec<(HrtimId, bool)> = Vec::new();
    let mut i: usize = 0;
    while i < design.assignments.len()
        invariant
            i <= design.assignments@.len(),
            r@ == timers_upto(design.assignments@, i as int),
        decreases design.assignments@.len() - i,
    {
        match design.assignments[i] {
            Some(Assignment::PcmPhase { timer, dem, .. }) => r.push((timer, dem)),
            Some(Assignment::PcmPhaseExternal { timer, dem, .. }) => r.push((timer, dem)),
            _ => {},
        }
        i += 1;
    }
    r
}

/// The DAC of a phase, with the sub-timer that steps its ramp.
pub open spec fn ramp_of(a: Option<Assignment>) -> Option<(DacId, HrtimId)> {
    match a {
        Some(Assignment::PcmPhase { timer, alloc, .. }) => Some((alloc.dac, timer)),
        Some(Assignment::PcmPhaseExternal { timer, dac: Some(d), .. }) => Some((d, timer)),
        _ => None,
    }
}

/// The ramps of the phases among the first `n` assignments.
pub open spec fn ramps_upto(v: Seq<Option<Assignment>>, n: int) -> Seq<(DacId, HrtimId)>
    decreases n,
{
    if n <= 0 {
        Seq::empty()
    } else {
        match ramp_of(v[n - 1]) {
            Some(t) => ramps_upto(v, n - 1).push(t),
            None => ramps_upto(v, n - 1),
        }
    }
}

/// The DACs of the phases, each with the sub-timer that steps its ramp.
pub fn phase_dac_timers(design: &Design) -> (r: Vec<(DacId, HrtimId)>)
    ensures
        r@ == ramps_upto(design@.assignments, design@.assignments.len() as int),
{
    let mut r: Vec<(DacId, HrtimId)> = Vec::new();
    let mut i: usize = 0;
    while i < design.assignments.len()
        invariant
            i <= design.assignments@.len(),
            r@ == ramps_upto(design.assignments@, i as int),
        decreases design.assignments@.len() - i,
    {
        match design.assignments[i] {
            Some(Assignment::PcmPhase { timer, alloc, .. }) => r.push((alloc.dac, timer)),
            Some(Assignment::PcmPhaseExternal { timer, dac, .. }) => {
                if let Some(d) = dac {
                    r.push((d, timer));
                }
            },
            _ => {},
        }
        i += 1;
    }
    r
}

/// The event of the master timer that starts an assignment's sequencer.
pub open spec fn master_event_of(a: Option<Assignment>) -> Option<CrossbarSource> {
    match a {
        Some(Assignment::AdcSequencer { trigger: TriggerSource::Event(ev), .. }) => if is_master(
            ev,
        ) {
            Some(ev)
        } else {
            None
        },
        _ => None,
    }
}

/// The first event of the master timer that starts a sequencer, from a place on.
pub open spec fn first_master_event(v: Seq<Option<Assignment>>, k: int) -> Option<CrossbarSource>
    decreases v.len() - k,
{
    if k < 0 || k >= v.len() {
        None
    } else {
        match master_event_of(v[k]) {
            Some(ev) => Some(ev),
            None => first_master_event(v, k + 1),
        }
    }
}

/// The first event of the master timer that starts a sequencer.
pub fn master_trigger_event(design: &Design) -> (r: Option<CrossbarSource>)
    ensures
        r == first_master_event(design@.assignments, 0),
{
    let mut i: usize = 0;
    while i < design.assignments.len()
        invariant
            i <= design.assignments@.len(),
            first_master_event(design.assignments@, 0) == first_master_event(
                design.assignments@,
                i as int,
            ),
        decreases design.assignments@.len() - i,
    {
        if let Some(Assignment::AdcSequencer { trigger: TriggerSource::Event(ev), .. }) =
            design.assignments[i] {
            if requirements::is_master_event(ev) {
                return Some(ev);
            }
        }
        i += 1;
    }
    None
}

/// What a requirement was given is in use.
pub proof fn claims_are_used(v: Seq<Option<Assignment>>, n: int, i: int, k: int)
    requires
        0 <= i < n <= v.len(),
        v[i] is Some,
        0 <= k < claims(v[i]->0).len(),
    ensures
        claims_upto(v, n).contains(claims(v[i]->0)[k]),
    decreases n,
{
    let rest = claims_upto(v, n - 1);
    if i == n - 1 {
        assert((rest + claims(v[i]->0))[rest.len() + k] == claims(v[i]->0)[k]);
    } else {
        claims_are_used(v, n - 1, i, k);
        let x = choose|x: int| 0 <= x < rest.len() && rest[x] == claims(v[i]->0)[k];
        match v[n - 1] {
            Some(a) => {
                assert((rest + claims(a))[x] == rest[x]);
            },
            None => {},
        }
    }
}

} // verus!
