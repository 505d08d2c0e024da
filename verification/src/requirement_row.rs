//! The rows of the requirement list: what an edit makes of a requirement, and the texts
//! beside it.

use vstd::prelude::*;

use crate::g474::adc_nr;
use crate::g474::adc_triggers_of;
use crate::g474::cr_name;
use crate::g474::hrtim_name;
use crate::g474::AdcInstance;
use crate::g474::CrossbarSource;
use crate::g474::HrtimId;
use crate::g474::OpampId;
use crate::g474::TimerCompareSlot;
use crate::h523_design::lock_reads_back;
use crate::h523_design::pin_of;
use crate::hrtim_view::HrtimAction;
use crate::pinout::signal_key;
use crate::pinout::Pin;
use crate::pinout::Signal;
use crate::requirements::sequencer_name;
use crate::requirements::with_assignment;
use crate::requirements::with_lock_turned;
use crate::requirements::with_pin;
use crate::requirements::with_requirement;
use crate::requirements::with_spec;
use crate::requirements::without;
use crate::requirements::without_lock;
use crate::requirements::without_pin;
use crate::requirements::Assignment;
use crate::requirements::Design;
use crate::requirements::FabricView;
use crate::requirements::HrtimRole;
use crate::requirements::OutputMode;
use crate::requirements::RequirementSpec;
use crate::requirements::SpeedPref;
use crate::requirements::TriggerSource;
use crate::resources;
use crate::resources::adc_name;
use crate::resources::crossbar_name;
use crate::resources::free_upto;
use crate::resources::Resource;
use crate::session::mutated;
use crate::session::PeriPlannerApp;
use crate::text;
use crate::text::decimal;
use crate::text::joined;
use crate::text::views;
use crate::texts::copy_text;

verus! {

/// A change to one requirement.
#[derive(Copy, Clone, Debug, PartialEq, Eq)]
pub enum RowEdit {
    /// Make it the given one.
    Kind(RequirementSpec),
    /// Pin a sub-timer, or none.
    SubTimer(Option<HrtimId>),
    /// Start a sequencer by something else.
    Trigger(TriggerSource),
    /// Put a conversion on the sequencer with this id.
    Group(u32),
    /// Pin a conversion to an ADC, or to none.
    Adc(Option<AdcInstance>),
    Speed(SpeedPref),
    Opamp(OpampId),
    /// Which of an operational amplifier's terminals have pins: plus, minus, output.
    OpampPins(bool, bool, bool),
}

/// What an edit makes of a requirement. A sub-timer that changes its role keeps what it is
/// pinned to and its fault input; an edit of something that a requirement does not have
/// leaves it.
pub open spec fn edited_spec(spec: RequirementSpec, edit: RowEdit) -> RequirementSpec {
    match (spec, edit) {
        (
            RequirementSpec::UseHrtimSub { pinned_sub_timer, fault, .. },
            RowEdit::Kind(RequirementSpec::UseHrtimSub { role, outputs, .. }),
        ) => RequirementSpec::UseHrtimSub { pinned_sub_timer, role, outputs, fault },
        (_, RowEdit::Kind(new)) => new,
        (
            RequirementSpec::UseHrtimSub { role, outputs, fault, .. },
            RowEdit::SubTimer(pinned_sub_timer),
        ) => RequirementSpec::UseHrtimSub { pinned_sub_timer, role, outputs, fault },
        (
            RequirementSpec::AdcSequencer { adc, kind, .. },
            RowEdit::Trigger(trigger),
        ) => RequirementSpec::AdcSequencer { adc, kind, trigger },
        (
            RequirementSpec::AdcConversion { purpose, adc_pref, speed, .. },
            RowEdit::Group(group),
        ) => RequirementSpec::AdcConversion { group, purpose, adc_pref, speed },
        (
            RequirementSpec::AdcConversion { group, purpose, speed, .. },
            RowEdit::Adc(adc_pref),
        ) => RequirementSpec::AdcConversion { group, purpose, adc_pref, speed },
        (
            RequirementSpec::AdcConversion { group, purpose, adc_pref, .. },
            RowEdit::Speed(speed),
        ) => RequirementSpec::AdcConversion { group, purpose, adc_pref, speed },
        (
            RequirementSpec::UseOpamp { external_vinp, external_vinm, external_vout, .. },
            RowEdit::Opamp(instance),
        ) => RequirementSpec::UseOpamp { instance, external_vinp, external_vinm, external_vout },
        (
            RequirementSpec::UseOpamp { instance, .. },
            RowEdit::OpampPins(external_vinp, external_vinm, external_vout),
        ) => RequirementSpec::UseOpamp { instance, external_vinp, external_vinm, external_vout },
        _ => spec,
    }
}

/// What an edit makes of a requirement.
pub fn edited(spec: RequirementSpec, edit: RowEdit) -> (r: RequirementSpec)
    ensures
        r == edited_spec(spec, edit),
{
    match edit {
        RowEdit::Kind(new) => match (spec, new) {
            (
                RequirementSpec::UseHrtimSub { pinned_sub_timer, fault, .. },
                RequirementSpec::UseHrtimSub { role, outputs, .. },
            ) => RequirementSpec::UseHrtimSub { pinned_sub_timer, role, outputs, fault },
            _ => new,
        },
        RowEdit::SubTimer(pinned_sub_timer) => match spec {
            RequirementSpec::UseHrtimSub { role, outputs, fault, .. } =>
                RequirementSpec::UseHrtimSub { pinned_sub_timer, role, outputs, fault },
            _ => spec,
        },
        RowEdit::Trigger(trigger) => match spec {
            RequirementSpec::AdcSequencer { adc, kind, .. } => RequirementSpec::AdcSequencer {
                adc,
                kind,
                trigger,
            },
            _ => spec,
        },
        RowEdit::Group(group) => match spec {
            RequirementSpec::AdcConversion { purpose, adc_pref, speed, .. } =>
                RequirementSpec::AdcConversion { group, purpose, adc_pref, speed },
            _ => spec,
        },
        RowEdit::Adc(adc_pref) => match spec {
            RequirementSpec::AdcConversion { group, purpose, speed, .. } =>
                RequirementSpec::AdcConversion { group, purpose, adc_pref, speed },
            _ => spec,
        },
        RowEdit::Speed(speed) => match spec {
            RequirementSpec::AdcConversion { group, purpose, adc_pref, .. } =>
                RequirementSpec::AdcConversion { group, purpose, adc_pref, speed },
            _ => spec,
        },
        RowEdit::Opamp(instance) => match spec {
            RequirementSpec::UseOpamp { external_vinp, external_vinm, external_vout, .. } =>
                RequirementSpec::UseOpamp {
                instance,
                external_vinp,
                external_vinm,
                external_vout,
            },
            _ => spec,
        },
        RowEdit::OpampPins(external_vinp, external_vinm, external_vout) => match spec {
            RequirementSpec::UseOpamp { instance, .. } => RequirementSpec::UseOpamp {
                instance,
                external_vinp,
                external_vinm,
                external_vout,
            },
            _ => spec,
        },
    }
}

/// The sub-timer that a requirement is pinned to.
pub open spec fn pinned_to(spec: RequirementSpec) -> Option<HrtimId> {
    match spec {
        RequirementSpec::UseHrtimSub { pinned_sub_timer, .. } => pinned_sub_timer,
        _ => None,
    }
}

/// A change of role keeps the pinned sub-timer, and makes the role the new one.
pub proof fn role_change_keeps_the_pin(spec: RequirementSpec, new: RequirementSpec)
    requires
        spec is UseHrtimSub,
        new is UseHrtimSub,
    ensures
        pinned_to(edited_spec(spec, RowEdit::Kind(new))) == pinned_to(spec),
        edited_spec(spec, RowEdit::Kind(new))->role == new->role,
        edited_spec(spec, RowEdit::Kind(new))->fault == spec->fault,
{
}

/// An edit made twice is the edit made once.
pub proof fn edit_settles(spec: RequirementSpec, edit: RowEdit)
    ensures
        edited_spec(edited_spec(spec, edit), edit) == edited_spec(spec, edit),
{
}

/// The requirement that puts a role on a sub-timer: a voltage-mode PWM has one output, a
/// current-mode phase both.
pub fn role_on(timer: HrtimId, role: HrtimRole) -> (r: RequirementSpec)
    ensures
        r == (RequirementSpec::UseHrtimSub {
            pinned_sub_timer: Some(timer),
            role,
            outputs: if role is VoltageModePwm {
                OutputMode::Ch1Only
            } else {
                OutputMode::Ch1AndCh2
            },
            fault: None,
        }),
{
    let outputs: OutputMode = match role {
        HrtimRole::VoltageModePwm => OutputMode::Ch1Only,
        HrtimRole::PcmInternal { .. } => OutputMode::Ch1AndCh2,
    };
    RequirementSpec::UseHrtimSub { pinned_sub_timer: Some(timer), role, outputs, fault: None }
}

/// What a card of a sub-timer asks of a design.
pub open spec fn hrtim_edited(d: FabricView, action: HrtimAction) -> FabricView {
    match action {
        HrtimAction::SetSpec(i, spec) => with_spec(d, i as int, spec),
        HrtimAction::Remove(i) => without(d, i as int),
        HrtimAction::AddPhaseOn(timer) => with_requirement(
            d,
            RequirementSpec::UseHrtimSub {
                pinned_sub_timer: Some(timer),
                role: HrtimRole::PcmInternal { ext_zcd: false, dem: false },
                outputs: OutputMode::Ch1AndCh2,
                fault: None,
            },
        ),
        HrtimAction::AddRoleOn(timer, role) => with_requirement(
            d,
            RequirementSpec::UseHrtimSub {
                pinned_sub_timer: Some(timer),
                role,
                outputs: if role is VoltageModePwm {
                    OutputMode::Ch1Only
                } else {
                    OutputMode::Ch1AndCh2
                },
                fault: None,
            },
        ),
    }
}

impl PeriPlannerApp {
    /// Edit one requirement, as one step. Nothing is asked where there is no such
    /// requirement.
    pub fn edit_row(&mut self, i: usize, edit: RowEdit)
        requires
            old(self)@.active.design.wf(),
        ensures
            final(self)@.active.design.wf(),
            final(self)@ == (if i < old(self)@.active.design.requirements.len() {
                mutated(
                    old(self)@,
                    with_spec(
                        old(self)@.active.design,
                        i as int,
                        edited_spec(old(self)@.active.design.requirements[i as int], edit),
                    ),
                )
            } else {
                old(self)@
            }),
    {
        if i < self.active.design.requirements.len() {
            let mut d: Design = self.active.design.copy();
            let spec: RequirementSpec = edited(d.requirements[i], edit);
            d.set_spec(i, spec);
            self.mutate(d);
        }
    }

    /// Give a requirement something, as one step.
    pub fn assign_row(&mut self, i: usize, a: Assignment)
        requires
            old(self)@.active.design.wf(),
        ensures
            final(self)@.active.design.wf(),
            final(self)@ == mutated(
                old(self)@,
                with_assignment(old(self)@.active.design, i as int, a),
            ),
    {
        let mut d: Design = self.active.design.copy();
        d.set_assignment(i, a);
        self.mutate(d);
    }

    /// Take a requirement out, as one step.
    pub fn remove_row(&mut self, i: usize)
        requires
            old(self)@.active.design.wf(),
        ensures
            final(self)@.active.design.wf(),
            final(self)@ == mutated(old(self)@, without(old(self)@.active.design, i as int)),
    {
        let mut d: Design = self.active.design.copy();
        d.remove(i);
        self.mutate(d);
    }

    /// Add a requirement, as one step.
    pub fn add_row(&mut self, spec: RequirementSpec)
        requires
            old(self)@.active.design.wf(),
            old(self)@.active.design.next_id < u32::MAX,
        ensures
            final(self)@.active.design.wf(),
            final(self)@ == mutated(old(self)@, with_requirement(old(self)@.active.design, spec)),
    {
        let mut d: Design = self.active.design.copy();
        d.add(spec);
        self.mutate(d);
    }

    /// Put a signal on a pin, as one step.
    pub fn pin_signal(&mut self, signal: Signal, pin: Pin)
        ensures
            final(self)@ == mutated(old(self)@, with_pin(old(self)@.active.design, signal, pin)),
    {
        let mut d: Design = self.active.design.copy();
        d.set_pin(signal, pin);
        self.mutate(d);
    }

    /// Leave a signal's pin open, as one step.
    pub fn unpin_signal(&mut self, signal: Signal)
        ensures
            final(self)@ == mutated(old(self)@, without_pin(old(self)@.active.design, signal)),
    {
        let mut d: Design = self.active.design.copy();
        d.clear_pin(signal);
        self.mutate(d);
    }

    /// Leave all pins open, as one step.
    pub fn unpin_all(&mut self)
        ensures
            final(self)@ == mutated(
                old(self)@,
                (FabricView { pins: Seq::empty(), ..old(self)@.active.design }),
            ),
    {
        let mut d: Design = self.active.design.copy();
        d.clear_all_pins();
        self.mutate(d);
    }

    /// Lock a resource, or unlock it where it is locked, as one step.
    pub fn toggle_lock(&mut self, x: Resource)
        ensures
            final(self)@ == mutated(old(self)@, with_lock_turned(old(self)@.active.design, x)),
    {
        let mut d: Design = self.active.design.copy();
        d.toggle_lock(x);
        self.mutate(d);
    }

    /// Unlock a resource, as one step.
    pub fn clear_lock(&mut self, x: Resource)
        ensures
            final(self)@ == mutated(old(self)@, without_lock(old(self)@.active.design, x)),
    {
        let mut d: Design = self.active.design.copy();
        d.clear_lock(x);
        self.mutate(d);
    }

    /// Do what a card of a sub-timer asks for, as one step.
    pub fn apply_hrtim_action(&mut self, action: HrtimAction)
        requires
            old(self)@.active.design.wf(),
            old(self)@.active.design.next_id < u32::MAX,
        ensures
            final(self)@.active.design.wf(),
            final(self)@ == mutated(old(self)@, hrtim_edited(old(self)@.active.design, action)),
    {
        match action {
            HrtimAction::SetSpec(i, spec) => {
                let mut d: Design = self.active.design.copy();
                d.set_spec(i, spec);
                self.mutate(d);
            },
            HrtimAction::Remove(i) => self.remove_row(i),
            HrtimAction::AddPhaseOn(timer) => self.add_row(
                role_on(timer, HrtimRole::PcmInternal { ext_zcd: false, dem: false }),
            ),
            HrtimAction::AddRoleOn(timer, role) => self.add_row(role_on(timer, role)),
        }
    }
}

/// How many of `n` rows stand in the left of two columns: the half, rounded up.
pub fn left_rows(n: usize) -> (r: usize)
    ensures
        r == n - n / 2,
{
    n - n / 2
}

/// The events that can start a sequencer, in the order of the trigger crossbar.
pub open spec fn trigger_events_seq() -> Seq<CrossbarSource> {
    seq![
        CrossbarSource::Mcr1,
        CrossbarSource::Mcr2,
        CrossbarSource::Mcr3,
        CrossbarSource::Mcr4,
        CrossbarSource::Mper,
        CrossbarSource::Eev1,
        CrossbarSource::Eev2,
        CrossbarSource::Eev3,
        CrossbarSource::Eev4,
        CrossbarSource::Eev5,
        CrossbarSource::Eev6,
        CrossbarSource::Eev7,
        CrossbarSource::Eev8,
        CrossbarSource::Eev9,
        CrossbarSource::Eev10,
        CrossbarSource::TimACr2,
        CrossbarSource::TimACr3,
        CrossbarSource::TimACr4,
        CrossbarSource::TimACrPer,
        CrossbarSource::TimACrRst,
        CrossbarSource::TimBCr2,
        CrossbarSource::TimBCr3,
        CrossbarSource::TimBCr4,
        CrossbarSource::TimBCrPer,
        CrossbarSource::TimBCrRst,
        CrossbarSource::TimCCr2,
        CrossbarSource::TimCCr3,
        CrossbarSource::TimCCr4,
        CrossbarSource::TimCCrPer,
        CrossbarSource::TimCCrRst,
        CrossbarSource::TimDCr2,
        CrossbarSource::TimDCr3,
        CrossbarSource::TimDCr4,
        CrossbarSource::TimDCrPer,
        CrossbarSource::TimDCrRst,
        CrossbarSource::TimECr2,
        CrossbarSource::TimECr3,
        CrossbarSource::TimECr4,
        CrossbarSource::TimECrPer,
        CrossbarSource::TimECrRst,
        CrossbarSource::TimFCr2,
        CrossbarSource::TimFCr3,
        CrossbarSource::TimFCr4,
        CrossbarSource::TimFCrPer,
        CrossbarSource::TimFCrRst,
    ]
}

/// The events that can start a sequencer, in the order of the trigger crossbar.
pub fn trigger_events() -> (r: Vec<CrossbarSource>)
    ensures
        r@ == trigger_events_seq(),
{
    let r: Vec<CrossbarSource> = vec![
        CrossbarSource::Mcr1,
        CrossbarSource::Mcr2,
        CrossbarSource::Mcr3,
        CrossbarSource::Mcr4,
        CrossbarSource::Mper,
        CrossbarSource::Eev1,
        CrossbarSource::Eev2,
        CrossbarSource::Eev3,
        CrossbarSource::Eev4,
        CrossbarSource::Eev5,
        CrossbarSource::Eev6,
        CrossbarSource::Eev7,
        CrossbarSource::Eev8,
        CrossbarSource::Eev9,
        CrossbarSource::Eev10,
        CrossbarSource::TimACr2,
        CrossbarSource::TimACr3,
        CrossbarSource::TimACr4,
        CrossbarSource::TimACrPer,
        CrossbarSource::TimACrRst,
        CrossbarSource::TimBCr2,
        CrossbarSource::TimBCr3,
        CrossbarSource::TimBCr4,
        CrossbarSource::TimBCrPer,
        CrossbarSource::TimBCrRst,
        CrossbarSource::TimCCr2,
        CrossbarSource::TimCCr3,
        CrossbarSource::TimCCr4,
        CrossbarSource::TimCCrPer,
        CrossbarSource::TimCCrRst,
        CrossbarSource::TimDCr2,
        CrossbarSource::TimDCr3,
        CrossbarSource::TimDCr4,
        CrossbarSource::TimDCrPer,
        CrossbarSource::TimDCrRst,
        CrossbarSource::TimECr2,
        CrossbarSource::TimECr3,
        CrossbarSource::TimECr4,
        CrossbarSource::TimECrPer,
        CrossbarSource::TimECrRst,
        CrossbarSource::TimFCr2,
        CrossbarSource::TimFCr3,
        CrossbarSource::TimFCr4,
        CrossbarSource::TimFCrPer,
        CrossbarSource::TimFCrRst,
    ];
    proof {
        assert(r@ =~= trigger_events_seq());
    }
    r
}

/// What starts a sequencer, as it is shown.
pub open spec fn trigger_text(t: TriggerSource) -> Seq<char> {
    match t {
        TriggerSource::Software => "SW"@,
        TriggerSource::Event(ev) => crossbar_name(ev),
    }
}

/// What starts a sequencer, as it is shown.
pub fn trigger_label(t: TriggerSource) -> (r: &'static str)
    ensures
        r@ == trigger_text(t),
{
    match t {
        TriggerSource::Software => "SW",
        TriggerSource::Event(ev) => resources::crossbar_id(ev),
    }
}

/// The ADC that a conversion is pinned to, as it is shown.
pub fn adc_label(adc: Option<AdcInstance>) -> (r: String)
    ensures
        r@ == (match adc {
            None => "any ADC"@,
            Some(a) => "ADC"@ + decimal(adc_nr(a) as int),
        }),
{
    match adc {
        None => "any ADC".to_owned(),
        Some(a) => {
            let mut s: String = "ADC".to_owned();
            text::push_number(&mut s, a.number() as u64);
            s
        },
    }
}

/// The sequencers among the first `n` requirements: their ids and places.
pub open spec fn sequencers_among(d: FabricView, n: int) -> Seq<(u32, int)>
    decreases n,
{
    if n <= 0 {
        Seq::empty()
    } else if d.requirements[n - 1] is AdcSequencer {
        sequencers_among(d, n - 1).push((d.ids[n - 1], n - 1))
    } else {
        sequencers_among(d, n - 1)
    }
}

/// Ids with places, as mathematical values.
pub open spec fn id_views(v: Seq<(u32, usize)>) -> Seq<(u32, int)> {
    v.map_values(|x: (u32, usize)| (x.0, x.1 as int))
}

/// The sequencers of a design: their ids and places.
pub fn sequencer_ids(design: &Design) -> (r: Vec<(u32, usize)>)
    requires
        design@.wf(),
    ensures
        id_views(r@) == sequencers_among(design@, design@.requirements.len() as int),
{
    let mut r: Vec<(u32, usize)> = Vec::new();
    let mut i: usize = 0;
    proof {
        assert(id_views(r@) =~= Seq::<(u32, int)>::empty());
    }
    while i < design.requirements.len()
        invariant
            design@.wf(),
            i <= design.requirements@.len(),
            id_views(r@) == sequencers_among(design@, i as int),
        decreases design.requirements@.len() - i,
    {
        if let RequirementSpec::AdcSequencer { .. } = design.requirements[i] {
            let ghost had = r@;
            r.push((design.ids[i], i));
            proof {
                assert(id_views(r@) =~= id_views(had).push((design.ids@[i as int], i as int)));
            }
        }
        i += 1;
    }
    r
}

/// A sequencer in the list of those that a conversion can be put on.
pub open spec fn sequencer_text(id: u32, place: int) -> Seq<char> {
    "#"@ + decimal(place + 1) + " (id="@ + decimal(id as int) + ")"@
}

/// Whether the sequencer with an id stands at a place.
pub open spec fn sequencer_at(d: FabricView, id: u32, i: int) -> bool {
    0 <= i < d.requirements.len() && d.requirements[i] is AdcSequencer && d.ids[i] == id
}

/// The sequencer that a conversion is on, as it is shown.
pub fn group_label(design: &Design, group: u32) -> (r: String)
    requires
        design@.wf(),
    ensures
        forall|i: int|
            #[trigger] sequencer_at(design@, group, i) ==> r@ == "-> "@ + sequencer_text(group, i),
        (forall|i: int| !#[trigger] sequencer_at(design@, group, i)) ==> r@
            == "-> (no sequencer)"@,
{
    let mut i: usize = 0;
    while i < design.requirements.len()
        invariant
            design@.wf(),
            i <= design.requirements@.len(),
            forall|k: int| 0 <= k < i ==> !#[trigger] sequencer_at(design@, group, k),
        decreases design.requirements@.len() - i,
    {
        let here: bool = match design.requirements[i] {
            RequirementSpec::AdcSequencer { .. } => design.ids[i] == group,
            _ => false,
        };
        if here {
            let mut s: String = "-> ".to_owned();
            s.append(sequencer_label(group, i).as_str());
            proof {
                assert(sequencer_at(design@, group, i as int));
                assert forall|k: int| #[trigger] sequencer_at(design@, group, k) implies k == i by {
                    assert(design@.ids[k] == design@.ids[i as int]);
                }
            }
            return s;
        }
        proof {
            assert(!sequencer_at(design@, group, i as int));
        }
        i += 1;
    }
    "-> (no sequencer)".to_owned()
}

/// A sequencer in the list of those that a conversion can be put on.
pub fn sequencer_label(id: u32, place: usize) -> (r: String)
    requires
        place < usize::MAX,
    ensures
        r@ == sequencer_text(id, place as int),
{
    let mut s: String = "#".to_owned();
    text::push_number(&mut s, place as u64 + 1);
    s.append(" (id=");
    text::push_number(&mut s, id as u64);
    s.append(")");
    s
}

/// The line of a sequencer that is in use.
pub open spec fn claimed_line(a: Option<Assignment>) -> Option<Seq<char>> {
    match a {
        Some(Assignment::AdcSequencer { adc, kind, trigger }) => Some(
            adc_name(adc) + " "@ + sequencer_name(kind) + " trig="@ + (match trigger {
                TriggerSource::Software => "Software"@,
                TriggerSource::Event(ev) => "Event("@ + crossbar_name(ev) + ")"@,
            }),
        ),
        _ => None,
    }
}

/// The lines of the sequencers in use among the first `n` requirements.
pub open spec fn claimed_upto(v: Seq<Option<Assignment>>, n: int) -> Seq<Seq<char>>
    decreases n,
{
    if n <= 0 {
        Seq::empty()
    } else {
        match claimed_line(v[n - 1]) {
            Some(s) => claimed_upto(v, n - 1).push(s),
            None => claimed_upto(v, n - 1),
        }
    }
}

/// The lines of the sequencers in use.
pub fn claimed_sequencers(design: &Design) -> (r: Vec<String>)
    ensures
        views(r@) == claimed_upto(design@.assignments, design@.assignments.len() as int),
{
    let mut r: Vec<String> = Vec::new();
    let mut i: usize = 0;
    proof {
        assert(views(r@) =~= claimed_upto(design@.assignments, 0));
    }
    while i < design.assignments.len()
        invariant
            i <= design.assignments@.len(),
            views(r@) == claimed_upto(design.assignments@, i as int),
        decreases design.assignments@.len() - i,
    {
        if let Some(Assignment::AdcSequencer { adc, kind, trigger }) = design.assignments[i] {
            let mut s: String = copy_text(resources::adc_id(adc));
            s.append(" ");
            s.append(kind.id());
            s.append(" trig=");
            let ghost head = s@;
            match trigger {
                TriggerSource::Software => {
                    s.append("Software");
                },
                TriggerSource::Event(ev) => {
                    s.append("Event(");
                    s.append(resources::crossbar_id(ev));
                    s.append(")");
                    proof {
                        assert(s@ =~= head + ("Event("@ + crossbar_name(ev) + ")"@));
                    }
                },
            }
            let ghost had = r@;
            let ghost t = s@;
            r.push(s);
            proof {
                assert(views(r@) =~= views(had).push(t));
            }
        }
        i += 1;
    }
    r
}

/// The names of compare slots.
pub open spec fn slot_names(v: Seq<TimerCompareSlot>) -> Seq<Seq<char>> {
    v.map_values(|s: TimerCompareSlot| cr_name(s))
}

/// What a phase takes of its sub-timer's compare slots, as it is shown.
pub open spec fn budget_text(timer: HrtimId, dem: bool) -> Seq<Seq<char>> {
    let head = hrtim_name(timer) + (if dem {
        " (+DEM)"@
    } else {
        ""@
    }) + ":"@;
    let ramp = "Cr2: "@ + "DAC sawtooth step (CMP2, slope comp)"@;
    let free = "free: ["@ + joined(slot_names(free_upto(dem, 4)), ", "@) + "]"@;
    if dem {
        seq![head, ramp, "Cr4: "@ + "DEM auto-delayed deadtime (CMP4)"@, free]
    } else {
        seq![head, ramp, free]
    }
}

/// What a phase takes of its sub-timer's compare slots, as it is shown. Some slot is
/// always left.
pub fn budget_lines(timer: HrtimId, dem: bool) -> (r: Vec<String>)
    ensures
        views(r@) == budget_text(timer, dem),
        free_upto(dem, 4).len() > 0,
{
    let mut head: String = copy_text(timer.id());
    head.append(
        if dem {
            " (+DEM)"
        } else {
            ""
        },
    );
    head.append(":");
    let usage = resources::cr_usage_for(timer, dem);
    let mut ramp: String = copy_text(usage.claims[0].0.id());
    ramp.append(": ");
    ramp.append(usage.claims[0].1);
    let slots: Vec<TimerCompareSlot> = resources::free_slots(dem);
    let mut names: Vec<String> = Vec::new();
    let mut i: usize = 0;
    proof {
        assert(views(names@) =~= slot_names(slots@).take(0));
    }
    while i < slots.len()
        invariant
            i <= slots@.len(),
            views(names@) == slot_names(slots@).take(i as int),
        decreases slots@.len() - i,
    {
        let ghost had = names@;
        names.push(copy_text(slots[i].id()));
        proof {
            assert(views(names@) =~= views(had).push(cr_name(slots@[i as int])));
            assert(slot_names(slots@).take(i + 1) =~= slot_names(slots@).take(i as int).push(
                cr_name(slots@[i as int]),
            ));
        }
        i += 1;
    }
    proof {
        assert(slot_names(slots@).take(i as int) =~= slot_names(slots@));
        reveal_with_fuel(free_upto, 5);
    }
    let mut free: String = "free: [".to_owned();
    free.append(text::join(&names, ", ").as_str());
    free.append("]");
    let mut r: Vec<String> = vec![head, ramp];
    proof {
        reveal_strlit("Cr2");
        reveal_strlit(": ");
        reveal_strlit("Cr2: ");
        reveal_strlit("Cr4");
        reveal_strlit("Cr4: ");
        assert("Cr2: "@ =~= "Cr2"@ + ": "@);
        assert("Cr4: "@ =~= "Cr4"@ + ": "@);
    }
    if dem {
        let mut dead: String = copy_text(usage.claims[1].0.id());
        dead.append(": ");
        dead.append(usage.claims[1].1);
        r.push(dead);
    }
    r.push(free);
    proof {
        assert(views(r@) =~= budget_text(timer, dem));
    }
    r
}

/// A requirement that was added last and is taken out again leaves the design as it was,
/// but for the id that was given out.
pub proof fn remove_undoes_add(d: FabricView, spec: RequirementSpec)
    requires
        d.wf(),
    ensures
        without(with_requirement(d, spec), d.requirements.len() as int) == (FabricView {
            next_id: (d.next_id + 1) as u32,
            ..d
        }),
{
    let e = without(with_requirement(d, spec), d.requirements.len() as int);
    assert(e.requirements =~= d.requirements);
    assert(e.assignments =~= d.assignments);
    assert(e.ids =~= d.ids);
}

/// A signal that was put on a pin is found there, and one whose pin was left open on none;
/// neither touches a requirement.
pub proof fn pins_are_read_back(d: FabricView, signal: Signal, pin: Pin)
    ensures
        pin_of(with_pin(d, signal, pin).pins, signal_key(signal), 0) == Some(pin),
        pin_of(without_pin(d, signal).pins, signal_key(signal), 0) is None,
        with_pin(d, signal, pin).requirements == d.requirements,
        with_pin(d, signal, pin).assignments == d.assignments,
        without_pin(d, signal).requirements == d.requirements,
        without_pin(d, signal).assignments == d.assignments,
{
    lock_reads_back(d.pins, signal_key(signal), pin);
}

/// An edit of one requirement leaves all ids and every other requirement with what it was
/// given.
pub proof fn edit_is_local(d: FabricView, i: int, spec: RequirementSpec, j: int)
    requires
        d.wf(),
        0 <= j < d.requirements.len(),
        j != i,
    ensures
        with_spec(d, i, spec).ids == d.ids,
        with_spec(d, i, spec).requirements[j] == d.requirements[j],
        with_spec(d, i, spec).assignments[j] == d.assignments[j],
{
}

/// Every event in the list starts some converter.
pub proof fn listed_events_trigger(k: int)
    requires
        0 <= k < trigger_events_seq().len(),
    ensures
        adc_triggers_of(trigger_events_seq()[k]).len() > 0,
{
}

} // verus!
