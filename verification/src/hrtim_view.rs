//! The cards of the sub-timers: who runs a phase on which, and what a card asks for.

use vstd::prelude::*;

use crate::g474::adc_nr;
use crate::g474::comp_name;
use crate::g474::dac_name;
use crate::g474::CrossbarSource;
use crate::g474::HrtimId;
use crate::requirements;
use crate::requirements::is_master;
use crate::requirements::runs_phase;
use crate::requirements::sequencer_name;
use crate::requirements::Assignment;
use crate::requirements::Design;
use crate::requirements::FabricView;
use crate::requirements::HrtimRole;
use crate::requirements::RequirementSpec;
use crate::requirements::ThresholdSource;
use crate::requirements::TriggerSource;
use crate::resources;
use crate::resources::crossbar_name;
use crate::text;
use crate::text::decimal;
use crate::text::views;
use crate::texts::copy_text;

verus! {

/// An edit that a card asks for.
#[derive(Copy, Clone, Debug, PartialEq, Eq)]
pub enum HrtimAction {
    SetSpec(usize, RequirementSpec),
    Remove(usize),
    AddPhaseOn(HrtimId),
    AddRoleOn(HrtimId, HrtimRole),
}

/// The sub-timers, in order.
pub open spec fn sub_timers_seq() -> Seq<HrtimId> {
    seq![HrtimId::TimA, HrtimId::TimB, HrtimId::TimC, HrtimId::TimD, HrtimId::TimE, HrtimId::TimF]
}

/// The sub-timers, in order.
pub fn sub_timers() -> (r: Vec<HrtimId>)
    ensures
        r@ == sub_timers_seq(),
{
    let r: Vec<HrtimId> = vec![
        HrtimId::TimA,
        HrtimId::TimB,
        HrtimId::TimC,
        HrtimId::TimD,
        HrtimId::TimE,
        HrtimId::TimF,
    ];
    proof {
        assert(r@ =~= sub_timers_seq());
    }
    r
}

/// The line of a sequencer that the master timer starts.
pub open spec fn master_line(a: Option<Assignment>) -> Option<Seq<char>> {
    match a {
        Some(
            Assignment::AdcSequencer { adc, kind, trigger: TriggerSource::Event(ev) },
        ) => if is_master(ev) {
            Some(
                "ADC"@ + decimal(adc_nr(adc) as int) + " "@ + sequencer_name(kind) + " ← "@
                    + crossbar_name(ev),
            )
        } else {
            None
        },
        _ => None,
    }
}

/// The lines of the sequencers among the first `n` that the master timer starts.
pub open spec fn master_lines_upto(v: Seq<Option<Assignment>>, n: int) -> Seq<Seq<char>>
    decreases n,
{
    if n <= 0 {
        Seq::empty()
    } else {
        match master_line(v[n - 1]) {
            Some(s) => master_lines_upto(v, n - 1).push(s),
            None => master_lines_upto(v, n - 1),
        }
    }
}

/// The lines of the sequencers that the master timer starts.
pub fn master_lines(design: &Design) -> (r: Vec<String>)
    ensures
        views(r@) == master_lines_upto(
            design@.assignments,
            design@.assignments.len() as int,
        ),
{
    let mut r: Vec<String> = Vec::new();
    let mut i: usize = 0;
    proof {
        assert(views(r@) =~= master_lines_upto(design@.assignments, 0));
    }
    while i < design.assignments.len()
        invariant
            i <= design.assignments@.len(),
            views(r@) == master_lines_upto(design.assignments@, i as int),
        decreases design.assignments@.len() - i,
    {
        if let Some(
            Assignment::AdcSequencer { adc, kind, trigger: TriggerSource::Event(ev) },
        ) = design.assignments[i] {
            if requirements::is_master_event(ev) {
                let mut s: String = "ADC".to_owned();
                text::push_number(&mut s, adc.number() as u64);
                s.append(" ");
                s.append(kind.id());
                s.append(" ← ");
                s.append(resources::crossbar_id(ev));
                let ghost had = r@;
                let ghost t = s@;
                r.push(s);
                proof {
                    assert(views(r@) =~= views(had).push(t));
                }
            }
        }
        i += 1;
    }
    r
}

/// Whether a requirement asks for a phase on a sub-timer.
pub open spec fn asks_for(spec: RequirementSpec, timer: HrtimId) -> bool {
    match spec {
        RequirementSpec::PcmPhase { preferred_timer: Some(t), .. } => t == timer,
        _ => false,
    }
}

/// Whether a requirement asks for a phase on the sub-timer.
pub fn is_pinned(design: &Design, timer: HrtimId) -> (r: bool)
    ensures
        r == exists|i: int|
            0 <= i < design@.requirements.len() && asks_for(
                #[trigger] design@.requirements[i],
                timer,
            ),
{
    let mut i: usize = 0;
    while i < design.requirements.len()
        invariant
            i <= design.requirements@.len(),
            forall|k: int| 0 <= k < i ==> !asks_for(#[trigger] design.requirements@[k], timer),
        decreases design.requirements@.len() - i,
    {
        let here: bool = match design.requirements[i] {
            RequirementSpec::PcmPhase { preferred_timer: Some(t), .. } => t == timer,
            _ => false,
        };
        if here {
            proof {
                assert(asks_for(design@.requirements[i as int], timer));
            }
            return true;
        }
        i += 1;
    }
    false
}

/// What is added for the wishes of a phase.
pub open spec fn phase_tags(dem: bool, zcd: Option<CrossbarSource>) -> Seq<char> {
    (if dem {
        " +DEM"@
    } else {
        ""@
    }) + if zcd is Some {
        " +extZCD"@
    } else {
        ""@
    }
}

/// The text of an assignment that runs a phase.
pub open spec fn phase_text(a: Assignment) -> Option<Seq<char>> {
    match a {
        Assignment::PcmPhase { alloc, dem, zcd_eev, .. } => Some(
            dac_name(alloc.dac) + " → "@ + comp_name(alloc.comp) + " → "@ + crossbar_name(
                alloc.eev,
            ) + phase_tags(dem, zcd_eev),
        ),
        Assignment::PcmPhaseExternal { dac, peak_eev, dem, zcd_eev, .. } => Some(
            "[ext] "@ + (match dac {
                Some(d) => dac_name(d),
                None => "fixed-ref"@,
            }) + " → peak "@ + crossbar_name(peak_eev) + phase_tags(dem, zcd_eev),
        ),
        _ => None,
    }
}

fn write_tags(dem: bool, zcd: Option<CrossbarSource>) -> (r: String)
    ensures
        r@ == phase_tags(dem, zcd),
{
    let mut s: String = if dem {
        " +DEM".to_owned()
    } else {
        "".to_owned()
    };
    s.append(
        if zcd.is_some() {
            " +extZCD"
        } else {
            ""
        },
    );
    s
}

fn write_phase(a: &Assignment) -> (r: Option<String>)
    ensures
        (match r {
            Some(s) => Some(s@),
            None => None,
        }) == phase_text(*a),
{
    match a {
        Assignment::PcmPhase { alloc, dem, zcd_eev, .. } => {
            let mut s: String = copy_text(alloc.dac.id());
            s.append(" → ");
            s.append(alloc.comp.id());
            s.append(" → ");
            s.append(resources::crossbar_id(alloc.eev));
            let tags: String = write_tags(*dem, *zcd_eev);
            s.append(tags.as_str());
            Some(s)
        },
        Assignment::PcmPhaseExternal { dac, peak_eev, dem, zcd_eev, .. } => {
            let mut s: String = "[ext] ".to_owned();
            s.append(
                match dac {
                    Some(d) => d.id(),
                    None => "fixed-ref",
                },
            );
            s.append(" → peak ");
            s.append(resources::crossbar_id(*peak_eev));
            let tags: String = write_tags(*dem, *zcd_eev);
            s.append(tags.as_str());
            Some(s)
        },
        _ => None,
    }
}

/// The card of a sub-timer: the requirement that runs a phase on it, with the phase's
/// text, or nothing.
pub fn sub_card(design: &Design, timer: HrtimId) -> (r: Option<(usize, String)>)
    ensures
        match r {
            Some((i, s)) => is_card(design@, timer, i as int) && phase_text(
                design@.assignments[i as int]->0,
            ) == Some(s@),
            None => forall|k: int|
                0 <= k < design@.assignments.len() ==> !runs_phase(
                    #[trigger] design@.assignments[k],
                    timer,
                ),
        },
{
    match requirements::phase_owner(design, timer) {
        Some(i) => match &design.assignments[i] {
            Some(a) => match write_phase(a) {
                Some(s) => Some((i, s)),
                None => None,
            },
            None => None,
        },
        None => None,
    }
}

/// Whether a requirement is the first that runs a phase on a sub-timer.
pub open spec fn is_card(d: FabricView, timer: HrtimId, i: int) -> bool {
    0 <= i < d.assignments.len() && runs_phase(d.assignments[i], timer) && forall|k: int|
        0 <= k < i ==> !runs_phase(#[trigger] d.assignments[k], timer)
}

/// What new wishes for a phase ask for: nothing, where they are the same.
pub fn set_phase(
    index: usize,
    spec: RequirementSpec,
    dem: bool,
    threshold: ThresholdSource,
) -> (r: Option<HrtimAction>)
    ensures
        match spec {
            RequirementSpec::PcmPhase { dem: d, threshold: t, preferred_timer } => r == (if d == dem
                && t == threshold {
                None
            } else {
                Some(
                    HrtimAction::SetSpec(
                        index,
                        RequirementSpec::PcmPhase { dem, threshold, preferred_timer },
                    ),
                )
            }),
            _ => r is None,
        },
{
    match spec {
        RequirementSpec::PcmPhase { dem: d, threshold: t, preferred_timer } => if d == dem && t
            == threshold {
            None
        } else {
            Some(
                HrtimAction::SetSpec(
                    index,
                    RequirementSpec::PcmPhase { dem, threshold, preferred_timer },
                ),
            )
        },
        _ => None,
    }
}

/// What letting a phase run on any sub-timer asks for.
pub fn unpin_phase(index: usize, spec: RequirementSpec) -> (r: Option<HrtimAction>)
    ensures
        match spec {
            RequirementSpec::PcmPhase { dem, threshold, .. } => r == Some(
                HrtimAction::SetSpec(
                    index,
                    RequirementSpec::PcmPhase { dem, threshold, preferred_timer: None },
                ),
            ),
            _ => r is None,
        },
{
    match spec {
        RequirementSpec::PcmPhase { dem, threshold, .. } => Some(
            HrtimAction::SetSpec(
                index,
                RequirementSpec::PcmPhase { dem, threshold, preferred_timer: None },
            ),
        ),
        _ => None,
    }
}

} // verus!
