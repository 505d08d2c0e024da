//! What the picture of the power fabric shows: which nodes are used and for what, what
//! the pointer tells of a node, and where lines begin.

use vstd::prelude::*;

use crate::fabric_layout::PhaseEdge;
use crate::fabric_layout::ShortCircuitFault;
use crate::g474;
use crate::g474::all_capture_units_seq;
use crate::g474::all_comps_seq;
use crate::g474::all_cr_slots_seq;
use crate::g474::all_dacs_seq;
use crate::g474::comp_name;
use crate::g474::comps_of_dac;
use crate::g474::cpt_name;
use crate::g474::cr_name;
use crate::g474::dac_is_fast;
use crate::g474::dac_name;
use crate::g474::dacs_upto;
use crate::g474::eevs_of_comp;
use crate::g474::flts_of_comp;
use crate::g474::hrtim_name;
use crate::g474::CompId;
use crate::g474::CrossbarSource;
use crate::g474::DacId;
use crate::g474::HrtimFltId;
use crate::g474::HrtimId;
use crate::g474::TimerCaptureUnit;
use crate::g474::TimerCompareSlot;
use crate::mcu_pinout::pin_name;
use crate::mcu_pinout::take_grows;
use crate::requirements::sequencer_name;
use crate::requirements::AdcConversionView;
use crate::requirements::AdcSequencerView;
use crate::requirements::PhaseAllocation;
use crate::requirements::TriggerSource;
use crate::resources;
use crate::resources::adc_name;
use crate::resources::crossbar_name;
use crate::resources::event_timer;
use crate::resources::flt_name;
use crate::resources::Resource;
use crate::resources::TimerInputSlot;
use crate::resources::Tooltip;
use crate::text;
use crate::text::decimal;
use crate::text::joined;
use crate::text::views;
use crate::texts::copy_text;

verus! {

/// What is shown in the picture.
pub struct Selection<'a> {
    pub phases: &'a [PhaseAllocation],
    pub external_eevs: &'a [CrossbarSource],
    /// Events that reach the inputs of sub-timers.
    pub phase_edges: &'a [PhaseEdge],
    pub used_timers: &'a [HrtimId],
    pub fault: Option<ShortCircuitFault>,
    pub drive_dac: Option<DacId>,
    /// All that is taken up or locked.
    pub used: &'a [Resource],
    /// The event of the master timer that starts a sequencer.
    pub master_trigger_event: Option<CrossbarSource>,
    /// A line on the sampling, below the master timer.
    pub plan_label: Option<String>,
    /// The sub-timer that steps the ramp of a phase's DAC.
    pub phase_dac_timers: &'a [(DacId, HrtimId)],
    pub adc_sequencers: &'a [AdcSequencerView],
    /// Sub-timers that run no phase, with what they do.
    pub non_pcm_hrtim: &'a [(HrtimId, String)],
    /// Sub-timers that run in step.
    pub phase_shift_links: &'a [(HrtimId, HrtimId)],
}

/// What a node is used for.
#[derive(Copy, Clone, Debug, PartialEq, Eq, Structural)]
pub enum Use {
    Free,
    Phase,
    External,
    Fault,
    Drive,
}

/// Whether a phase uses a DAC channel.
pub open spec fn phase_has_dac(phases: Seq<PhaseAllocation>, d: DacId) -> bool {
    exists|i: int| 0 <= i < phases.len() && (#[trigger] phases[i]).dac == d
}

/// Whether a phase uses a comparator.
pub open spec fn phase_has_comp(phases: Seq<PhaseAllocation>, c: CompId) -> bool {
    exists|i: int| 0 <= i < phases.len() && (#[trigger] phases[i]).comp == c
}

/// Whether a phase uses an event.
pub open spec fn phase_has_eev(phases: Seq<PhaseAllocation>, e: CrossbarSource) -> bool {
    exists|i: int| 0 <= i < phases.len() && (#[trigger] phases[i]).eev == e
}

/// Whether a sub-timer does something that is no phase.
pub open spec fn has_role(v: Seq<(HrtimId, String)>, t: HrtimId) -> bool {
    exists|i: int| 0 <= i < v.len() && (#[trigger] v[i]).0 == t
}

/// What a DAC channel is used for.
pub fn dac_use(sel: &Selection, d: DacId) -> (r: Use)
    ensures
        r == (if sel.drive_dac == Some(d) {
            Use::Drive
        } else if sel.fault matches Some(f) && f.dac == d {
            Use::Fault
        } else if phase_has_dac(sel.phases@, d) {
            Use::Phase
        } else {
            Use::Free
        }),
{
    if let Some(x) = sel.drive_dac {
        if x == d {
            return Use::Drive;
        }
    }
    if let Some(f) = sel.fault {
        if f.dac == d {
            return Use::Fault;
        }
    }
    let mut i: usize = 0;
    while i < sel.phases.len()
        invariant
            i <= sel.phases@.len(),
            forall|k: int| 0 <= k < i ==> (#[trigger] sel.phases@[k]).dac != d,
            sel.drive_dac != Some(d),
            !(sel.fault matches Some(f) && f.dac == d),
        decreases sel.phases@.len() - i,
    {
        if sel.phases[i].dac == d {
            return Use::Phase;
        }
        i += 1;
    }
    Use::Free
}

/// What a comparator is used for.
pub fn comp_use(sel: &Selection, c: CompId) -> (r: Use)
    ensures
        r == (if sel.fault matches Some(f) && f.comp == c {
            Use::Fault
        } else if phase_has_comp(sel.phases@, c) {
            Use::Phase
        } else {
            Use::Free
        }),
{
    if let Some(f) = sel.fault {
        if f.comp == c {
            return Use::Fault;
        }
    }
    let mut i: usize = 0;
    while i < sel.phases.len()
        invariant
            i <= sel.phases@.len(),
            forall|k: int| 0 <= k < i ==> (#[trigger] sel.phases@[k]).comp != c,
            !(sel.fault matches Some(f) && f.comp == c),
        decreases sel.phases@.len() - i,
    {
        if sel.phases[i].comp == c {
            return Use::Phase;
        }
        i += 1;
    }
    Use::Free
}

/// What an event is used for.
pub fn eev_use(sel: &Selection, e: CrossbarSource) -> (r: Use)
    ensures
        r == (if sel.external_eevs@.contains(e) {
            Use::External
        } else if phase_has_eev(sel.phases@, e) {
            Use::Phase
        } else {
            Use::Free
        }),
{
    let mut i: usize = 0;
    while i < sel.external_eevs.len()
        invariant
            i <= sel.external_eevs@.len(),
            forall|k: int| 0 <= k < i ==> #[trigger] sel.external_eevs@[k] != e,
        decreases sel.external_eevs@.len() - i,
    {
        if sel.external_eevs[i] == e {
            return Use::External;
        }
        i += 1;
    }
    let mut j: usize = 0;
    while j < sel.phases.len()
        invariant
            j <= sel.phases@.len(),
            forall|k: int| 0 <= k < j ==> (#[trigger] sel.phases@[k]).eev != e,
            !sel.external_eevs@.contains(e),
        decreases sel.phases@.len() - j,
    {
        if sel.phases[j].eev == e {
            return Use::Phase;
        }
        j += 1;
    }
    Use::Free
}

/// What a sub-timer is used for.
pub fn timer_use(sel: &Selection, t: HrtimId) -> (r: Use)
    ensures
        r == (if sel.used_timers@.contains(t) {
            Use::Phase
        } else if has_role(sel.non_pcm_hrtim@, t) {
            Use::External
        } else {
            Use::Free
        }),
{
    let mut i: usize = 0;
    while i < sel.used_timers.len()
        invariant
            i <= sel.used_timers@.len(),
            forall|k: int| 0 <= k < i ==> #[trigger] sel.used_timers@[k] != t,
        decreases sel.used_timers@.len() - i,
    {
        if sel.used_timers[i] == t {
            return Use::Phase;
        }
        i += 1;
    }
    let mut j: usize = 0;
    while j < sel.non_pcm_hrtim.len()
        invariant
            j <= sel.non_pcm_hrtim@.len(),
            forall|k: int| 0 <= k < j ==> (#[trigger] sel.non_pcm_hrtim@[k]).0 != t,
            !sel.used_timers@.contains(t),
        decreases sel.non_pcm_hrtim@.len() - j,
    {
        if sel.non_pcm_hrtim[j].0 == t {
            return Use::External;
        }
        j += 1;
    }
    Use::Free
}

/// What a fault input is used for.
pub fn flt_use(sel: &Selection, f: HrtimFltId) -> (r: Use)
    ensures
        r == (if sel.fault matches Some(x) && x.flt == f {
            Use::Fault
        } else {
            Use::Free
        }),
{
    match sel.fault {
        Some(x) => if x.flt == f {
            Use::Fault
        } else {
            Use::Free
        },
        None => Use::Free,
    }
}

/// The sub-timer that steps a channel's ramp: the first one listed.
pub open spec fn ramp_of(v: Seq<(DacId, HrtimId)>, d: DacId) -> Option<HrtimId>
    decreases v.len(),
{
    if v.len() == 0 {
        None
    } else if v[0].0 == d {
        Some(v[0].1)
    } else {
        ramp_of(v.skip(1), d)
    }
}

/// The sub-timer that steps the ramp of a fast channel.
pub fn ramp_timer(sel: &Selection, d: DacId) -> (r: Option<HrtimId>)
    ensures
        r == (if dac_is_fast(d) {
            ramp_of(sel.phase_dac_timers@, d)
        } else {
            None
        }),
{
    if !d.is_fast() {
        return None;
    }
    let ghost v = sel.phase_dac_timers@;
    let mut i: usize = 0;
    proof {
        assert(v.skip(0) =~= v);
    }
    while i < sel.phase_dac_timers.len()
        invariant
            i <= v.len(),
            v == sel.phase_dac_timers@,
            dac_is_fast(d),
            ramp_of(v, d) == ramp_of(v.skip(i as int), d),
        decreases v.len() - i,
    {
        proof {
            assert(v.skip(i as int)[0] == v[i as int]);
            assert(v.skip(i as int).skip(1) =~= v.skip(i + 1));
        }
        if sel.phase_dac_timers[i].0 == d {
            return Some(sel.phase_dac_timers[i].1);
        }
        i += 1;
    }
    None
}

fn add_text(lines: &mut Vec<String>, line: &str)
    ensures
        views(final(lines)@) == views(old(lines)@).push(line@),
{
    let ghost had = lines@;
    let s: String = copy_text(line);
    let ghost t = s@;
    lines.push(s);
    proof {
        assert(views(lines@) =~= views(had).push(t));
    }
}

/// The compare slots and capture units of a sub-timer that are claimed.
pub open spec fn slot_tags(t: HrtimId, used: Seq<Resource>, n: int) -> Seq<Seq<char>>
    decreases n,
{
    if n <= 0 {
        Seq::empty()
    } else {
        let s = all_cr_slots_seq()[n - 1];
        if used.contains(Resource::TimerSlot(t, s)) {
            slot_tags(t, used, n - 1).push(cr_name(s))
        } else {
            slot_tags(t, used, n - 1)
        }
    }
}

/// The slots' tags, then those of the first `n` capture units.
pub open spec fn timer_tags_upto(t: HrtimId, used: Seq<Resource>, n: int) -> Seq<Seq<char>>
    decreases n,
{
    if n <= 0 {
        slot_tags(t, used, all_cr_slots_seq().len() as int)
    } else {
        let c = all_capture_units_seq()[n - 1];
        if used.contains(Resource::TimerCapture(t, c)) {
            timer_tags_upto(t, used, n - 1).push(cpt_name(c))
        } else {
            timer_tags_upto(t, used, n - 1)
        }
    }
}

/// The compare slots and capture units of a sub-timer that are claimed.
pub fn timer_tags(t: HrtimId, used: &[Resource]) -> (r: Vec<String>)
    ensures
        views(r@) == timer_tags_upto(t, used@, all_capture_units_seq().len() as int),
{
    let mut r: Vec<String> = Vec::new();
    let slots: Vec<TimerCompareSlot> = g474::all_cr_slots();
    let mut i: usize = 0;
    proof {
        assert(views(r@) =~= slot_tags(t, used@, 0));
    }
    while i < slots.len()
        invariant
            i <= slots@.len(),
            slots@ == all_cr_slots_seq(),
            views(r@) == slot_tags(t, used@, i as int),
        decreases slots@.len() - i,
    {
        if resources::in_use(used, Resource::TimerSlot(t, slots[i])) {
            add_text(&mut r, slots[i].id());
        }
        i += 1;
    }
    let units: Vec<TimerCaptureUnit> = g474::all_capture_units();
    let mut j: usize = 0;
    while j < units.len()
        invariant
            j <= units@.len(),
            units@ == all_capture_units_seq(),
            views(r@) == timer_tags_upto(t, used@, j as int),
        decreases units@.len() - j,
    {
        if resources::in_use(used, Resource::TimerCapture(t, units[j])) {
            add_text(&mut r, units[j].id());
        }
        j += 1;
    }
    r
}

/// Whether two links join the same sub-timers.
pub open spec fn same_link(a: (HrtimId, HrtimId), b: (HrtimId, HrtimId)) -> bool {
    a == b || (a.0 == b.1 && a.1 == b.0)
}

/// Whether one of the first `n` links joins the same sub-timers.
pub open spec fn linked_before(v: Seq<(HrtimId, HrtimId)>, x: (HrtimId, HrtimId), n: int) -> bool {
    exists|k: int| 0 <= k < n && same_link(#[trigger] v[k], x)
}

/// The first `n` links, without those that join what an earlier one joins.
pub open spec fn links_upto(v: Seq<(HrtimId, HrtimId)>, n: int) -> Seq<(HrtimId, HrtimId)>
    decreases n,
{
    if n <= 0 {
        Seq::empty()
    } else if linked_before(v, v[n - 1], n - 1) {
        links_upto(v, n - 1)
    } else {
        links_upto(v, n - 1).push(v[n - 1])
    }
}

/// The links, each pair of sub-timers once.
pub fn links(v: &[(HrtimId, HrtimId)]) -> (r: Vec<(HrtimId, HrtimId)>)
    ensures
        r@ == links_upto(v@, v@.len() as int),
{
    let mut r: Vec<(HrtimId, HrtimId)> = Vec::new();
    let mut i: usize = 0;
    while i < v.len()
        invariant
            i <= v@.len(),
            r@ == links_upto(v@, i as int),
        decreases v@.len() - i,
    {
        let (a, b): (HrtimId, HrtimId) = v[i];
        let mut seen: bool = false;
        let mut k: usize = 0;
        while k < i
            invariant
                k <= i < v@.len(),
                (a, b) == v@[i as int],
                seen == linked_before(v@, (a, b), k as int),
            decreases i - k,
        {
            let (c, d): (HrtimId, HrtimId) = v[k];
            if (c == a && d == b) || (c == b && d == a) {
                proof {
                    assert(same_link(v@[k as int], (a, b)));
                }
                seen = true;
            }
            k += 1;
        }
        if !seen {
            r.push((a, b));
        }
        i += 1;
    }
    r
}

/// Where the line from an event begins.
#[derive(Copy, Clone, Debug, PartialEq, Eq, Structural)]
pub enum Origin {
    /// An output of the master timer, counted from the top.
    Master(u8),
    /// A place in the column of the sub-timers, counted from the top.
    Timer(usize),
    /// No block of its own.
    Elsewhere,
}

/// The output of the master timer that an event comes from.
pub open spec fn master_output(ev: CrossbarSource) -> Option<u8> {
    match ev {
        CrossbarSource::Mcr1 => Some(0u8),
        CrossbarSource::Mcr2 => Some(1u8),
        CrossbarSource::Mcr3 => Some(2u8),
        CrossbarSource::Mcr4 => Some(3u8),
        CrossbarSource::Mper => Some(4u8),
        _ => None,
    }
}

/// Where the line from an event begins, with the sub-timers in the given order.
pub fn trigger_source(ev: CrossbarSource, timers: &[HrtimId]) -> (r: Origin)
    ensures
        match (master_output(ev), event_timer(ev)) {
            (Some(n), _) => r == Origin::Master(n),
            (None, Some(t)) => match r {
                Origin::Timer(i) => i < timers@.len() && timers@[i as int] == t && forall|k: int|
                    0 <= k < i ==> #[trigger] timers@[k] != t,
                Origin::Elsewhere => !timers@.contains(t),
                Origin::Master(_) => false,
            },
            (None, None) => r == Origin::Elsewhere,
        },
{
    match ev {
        CrossbarSource::Mcr1 => {
            return Origin::Master(0);
        },
        CrossbarSource::Mcr2 => {
            return Origin::Master(1);
        },
        CrossbarSource::Mcr3 => {
            return Origin::Master(2);
        },
        CrossbarSource::Mcr4 => {
            return Origin::Master(3);
        },
        CrossbarSource::Mper => {
            return Origin::Master(4);
        },
        _ => {},
    }
    if let Some(t) = resources::timer_of_event(ev) {
        let mut i: usize = 0;
        while i < timers.len()
            invariant
                i <= timers@.len(),
                master_output(ev) is None,
                event_timer(ev) == Some(t),
                forall|k: int| 0 <= k < i ==> #[trigger] timers@[k] != t,
            decreases timers@.len() - i,
        {
            if timers[i] == t {
                return Origin::Timer(i);
            }
            i += 1;
        }
    }
    Origin::Elsewhere
}

/// Names in brackets.
pub open spec fn bracketed(names: Seq<Seq<char>>) -> Seq<char> {
    "["@ + joined(names, ", "@) + "]"@
}

fn bracket(names: &[String]) -> (r: String)
    ensures
        r@ == bracketed(views(names@)),
{
    let mut s: String = "[".to_owned();
    let list: String = text::join(names, ", ");
    s.append(list.as_str());
    s.append("]");
    s
}

/// The names of comparators.
pub open spec fn comp_names(v: Seq<CompId>) -> Seq<Seq<char>> {
    v.map_values(|c: CompId| comp_name(c))
}

/// The names of DAC channels.
pub open spec fn dac_channel_names(v: Seq<DacId>) -> Seq<Seq<char>> {
    v.map_values(|d: DacId| dac_name(d))
}

/// The names of events.
pub open spec fn eev_names(v: Seq<CrossbarSource>) -> Seq<Seq<char>> {
    v.map_values(|e: CrossbarSource| crossbar_name(e))
}

/// The names of fault inputs.
pub open spec fn flt_names(v: Seq<HrtimFltId>) -> Seq<Seq<char>> {
    v.map_values(|f: HrtimFltId| flt_name(f))
}

fn names_of_comps(v: &[CompId]) -> (r: Vec<String>)
    ensures
        views(r@) == comp_names(v@),
{
    let mut r: Vec<String> = Vec::new();
    let mut i: usize = 0;
    proof {
        assert(views(r@) =~= comp_names(v@).take(0));
    }
    while i < v.len()
        invariant
            i <= v@.len(),
            views(r@) == comp_names(v@).take(i as int),
        decreases v@.len() - i,
    {
        add_text(&mut r, v[i].id());
        proof {
            assert(views(r@) =~= comp_names(v@).take(i + 1));
        }
        i += 1;
    }
    proof {
        assert(comp_names(v@).take(i as int) =~= comp_names(v@));
    }
    r
}

fn names_of_dacs(v: &[DacId]) -> (r: Vec<String>)
    ensures
        views(r@) == dac_channel_names(v@),
{
    let mut r: Vec<String> = Vec::new();
    let mut i: usize = 0;
    proof {
        assert(views(r@) =~= dac_channel_names(v@).take(0));
    }
    while i < v.len()
        invariant
            i <= v@.len(),
            views(r@) == dac_channel_names(v@).take(i as int),
        decreases v@.len() - i,
    {
        add_text(&mut r, v[i].id());
        proof {
            assert(views(r@) =~= dac_channel_names(v@).take(i + 1));
        }
        i += 1;
    }
    proof {
        assert(dac_channel_names(v@).take(i as int) =~= dac_channel_names(v@));
    }
    r
}

fn names_of_eevs(v: &[CrossbarSource]) -> (r: Vec<String>)
    ensures
        views(r@) == eev_names(v@),
{
    let mut r: Vec<String> = Vec::new();
    let mut i: usize = 0;
    proof {
        assert(views(r@) =~= eev_names(v@).take(0));
    }
    while i < v.len()
        invariant
            i <= v@.len(),
            views(r@) == eev_names(v@).take(i as int),
        decreases v@.len() - i,
    {
        add_text(&mut r, resources::crossbar_id(v[i]));
        proof {
            assert(views(r@) =~= eev_names(v@).take(i + 1));
        }
        i += 1;
    }
    proof {
        assert(eev_names(v@).take(i as int) =~= eev_names(v@));
    }
    r
}

fn names_of_flts(v: &[HrtimFltId]) -> (r: Vec<String>)
    ensures
        views(r@) == flt_names(v@),
{
    let mut r: Vec<String> = Vec::new();
    let mut i: usize = 0;
    proof {
        assert(views(r@) =~= flt_names(v@).take(0));
    }
    while i < v.len()
        invariant
            i <= v@.len(),
            views(r@) == flt_names(v@).take(i as int),
        decreases v@.len() - i,
    {
        add_text(&mut r, resources::flt_id(v[i]));
        proof {
            assert(views(r@) =~= flt_names(v@).take(i + 1));
        }
        i += 1;
    }
    proof {
        assert(flt_names(v@).take(i as int) =~= flt_names(v@));
    }
    r
}

fn titled(title: &str, first: String) -> (r: Tooltip)
    ensures
        r.title@ == title@,
        views(r.lines@) == seq![first@],
{
    let mut lines: Vec<String> = Vec::new();
    let ghost t = first@;
    lines.push(first);
    proof {
        assert(views(lines@) =~= seq![t]);
    }
    Tooltip { title: copy_text(title), lines }
}

/// What the pointer tells of a DAC channel.
pub fn dac_tooltip(d: DacId) -> (r: Tooltip)
    ensures
        r.title@ == dac_name(d) + "  ("@ + (if dac_is_fast(d) {
            "fast (15 Msps)"@
        } else {
            "slow (1 Msps)"@
        }) + ")"@,
        views(r.lines@) == seq!["-> COMPs: "@ + bracketed(comp_names(comps_of_dac(d)))],
{
    let mut title: String = copy_text(d.id());
    title.append("  (");
    title.append(
        if d.is_fast() {
            "fast (15 Msps)"
        } else {
            "slow (1 Msps)"
        },
    );
    title.append(")");
    let mut s: String = "-> COMPs: ".to_owned();
    let list: String = bracket(&names_of_comps(&g474::comps_for_dac(d)));
    s.append(list.as_str());
    titled(title.as_str(), s)
}

/// What the pointer tells of a comparator.
pub fn comp_tooltip(c: CompId) -> (r: Tooltip)
    ensures
        r.title@ == comp_name(c),
        views(r.lines@) == seq![
            "<- DACs: "@ + bracketed(
                dac_channel_names(dacs_upto(c, all_dacs_seq().len() as int)),
            ),
            "-> EEVs: "@ + bracketed(eev_names(eevs_of_comp(c))),
            "-> FLTs: "@ + bracketed(flt_names(flts_of_comp(c))),
        ],
{
    let mut a: String = "<- DACs: ".to_owned();
    let dacs: String = bracket(&names_of_dacs(&g474::dacs_for_comp(c)));
    a.append(dacs.as_str());
    let mut b: String = "-> EEVs: ".to_owned();
    let eevs: String = bracket(&names_of_eevs(&g474::eevs_for_comp(c)));
    b.append(eevs.as_str());
    let mut d: String = "-> FLTs: ".to_owned();
    let flts: String = bracket(&names_of_flts(&g474::flts_for_comp(c)));
    d.append(flts.as_str());
    let mut r: Tooltip = titled(c.id(), a);
    add_text(&mut r.lines, b.as_str());
    add_text(&mut r.lines, d.as_str());
    proof {
        assert(views(r.lines@) =~= seq![a@, b@, d@]);
    }
    r
}

/// The comparators among the first `n` that lead to an event.
pub open spec fn comps_to_eev(e: CrossbarSource, n: int) -> Seq<CompId>
    decreases n,
{
    if n <= 0 {
        Seq::empty()
    } else if eevs_of_comp(all_comps_seq()[n - 1]).contains(e) {
        comps_to_eev(e, n - 1).push(all_comps_seq()[n - 1])
    } else {
        comps_to_eev(e, n - 1)
    }
}

/// The comparators among the first `n` that lead to a fault input.
pub open spec fn comps_to_flt(f: HrtimFltId, n: int) -> Seq<CompId>
    decreases n,
{
    if n <= 0 {
        Seq::empty()
    } else if flts_of_comp(all_comps_seq()[n - 1]).contains(f) {
        comps_to_flt(f, n - 1).push(all_comps_seq()[n - 1])
    } else {
        comps_to_flt(f, n - 1)
    }
}

/// The comparators that lead to an event.
pub fn comps_for_eev(e: CrossbarSource) -> (r: Vec<CompId>)
    ensures
        r@ == comps_to_eev(e, all_comps_seq().len() as int),
{
    let all: Vec<CompId> = g474::all_comps();
    let mut r: Vec<CompId> = Vec::new();
    let mut i: usize = 0;
    while i < all.len()
        invariant
            i <= all@.len(),
            all@ == all_comps_seq(),
            r@ == comps_to_eev(e, i as int),
        decreases all@.len() - i,
    {
        let reach: Vec<CrossbarSource> = g474::eevs_for_comp(all[i]);
        let mut found: bool = false;
        let mut k: usize = 0;
        while k < reach.len()
            invariant
                k <= reach@.len(),
                found == reach@.take(k as int).contains(e),
            decreases reach@.len() - k,
        {
            proof {
                take_grows(reach@, k as int);
            }
            if reach[k] == e {
                found = true;
            }
            k += 1;
        }
        proof {
            assert(reach@.take(k as int) =~= reach@);
        }
        if found {
            r.push(all[i]);
        }
        i += 1;
    }
    r
}

/// The comparators that lead to a fault input.
pub fn comps_for_flt(f: HrtimFltId) -> (r: Vec<CompId>)
    ensures
        r@ == comps_to_flt(f, all_comps_seq().len() as int),
{
    let all: Vec<CompId> = g474::all_comps();
    let mut r: Vec<CompId> = Vec::new();
    let mut i: usize = 0;
    while i < all.len()
        invariant
            i <= all@.len(),
            all@ == all_comps_seq(),
            r@ == comps_to_flt(f, i as int),
        decreases all@.len() - i,
    {
        let reach: Vec<HrtimFltId> = g474::flts_for_comp(all[i]);
        let mut found: bool = false;
        let mut k: usize = 0;
        while k < reach.len()
            invariant
                k <= reach@.len(),
                found == reach@.take(k as int).contains(f),
            decreases reach@.len() - k,
        {
            proof {
                take_grows(reach@, k as int);
            }
            if reach[k] == f {
                found = true;
            }
            k += 1;
        }
        proof {
            assert(reach@.take(k as int) =~= reach@);
        }
        if found {
            r.push(all[i]);
        }
        i += 1;
    }
    r
}

/// What the pointer tells of an event.
pub fn eev_tooltip(e: CrossbarSource) -> (r: Tooltip)
    ensures
        r.title@ == crossbar_name(e),
        views(r.lines@) == seq![
            "<- COMPs: "@ + bracketed(comp_names(comps_to_eev(e, all_comps_seq().len() as int))),
        ],
{
    let mut s: String = "<- COMPs: ".to_owned();
    let list: String = bracket(&names_of_comps(&comps_for_eev(e)));
    s.append(list.as_str());
    titled(resources::crossbar_id(e), s)
}

/// What the pointer tells of a fault input.
pub fn flt_tooltip(f: HrtimFltId) -> (r: Tooltip)
    ensures
        r.title@ == flt_name(f),
        views(r.lines@) == seq![
            "<- COMPs: "@ + bracketed(comp_names(comps_to_flt(f, all_comps_seq().len() as int)))
                + "  (placeholder data)"@,
        ],
{
    let mut s: String = "<- COMPs: ".to_owned();
    let list: String = bracket(&names_of_comps(&comps_for_flt(f)));
    s.append(list.as_str());
    s.append("  (placeholder data)");
    titled(resources::flt_id(f), s)
}

/// The events among the first `n` edges that reach an input.
pub open spec fn routed_upto(v: Seq<PhaseEdge>, t: HrtimId, slot: TimerInputSlot, n: int) -> Seq<
    Seq<char>,
>
    decreases n,
{
    if n <= 0 {
        Seq::empty()
    } else if v[n - 1].timer == t && v[n - 1].slot == slot {
        routed_upto(v, t, slot, n - 1).push(crossbar_name(v[n - 1].eev))
    } else {
        routed_upto(v, t, slot, n - 1)
    }
}

/// The output and the edge that an input is of.
pub open spec fn slot_words(s: TimerInputSlot) -> (Seq<char>, Seq<char>) {
    match s {
        TimerInputSlot::Set1 => ("CH1"@, "SET"@),
        TimerInputSlot::Rst1 => ("CH1"@, "RST"@),
        TimerInputSlot::Set2 => ("CH2"@, "SET"@),
        TimerInputSlot::Rst2 => ("CH2"@, "RST"@),
    }
}

/// What the pointer tells of an input of a sub-timer.
pub fn slot_tooltip(edges: &[PhaseEdge], t: HrtimId, slot: TimerInputSlot) -> (r: Tooltip)
    ensures
        r.title@ == hrtim_name(t) + ": "@ + slot_words(slot).0 + " "@ + slot_words(slot).1,
        views(r.lines@) == ({
            let routed = routed_upto(edges@, t, slot, edges@.len() as int);
            seq![
                "Output "@ + slot_words(slot).0 + " ("@ + slot_words(slot).1 + " event)"@,
                if routed.len() == 0 {
                    "Routed: (nothing from the crossbar)"@
                } else {
                    "Routed: "@ + joined(routed, ", "@)
                },
                "Eligible sources: own CMP1-4, PER, RST, EEV1-10, master CMP1-4/PER, other timers' events."@,
            ]
        }),
{
    let (ch, ev): (&'static str, &'static str) = match slot {
        TimerInputSlot::Set1 => ("CH1", "SET"),
        TimerInputSlot::Rst1 => ("CH1", "RST"),
        TimerInputSlot::Set2 => ("CH2", "SET"),
        TimerInputSlot::Rst2 => ("CH2", "RST"),
    };
    let mut routed: Vec<String> = Vec::new();
    let mut i: usize = 0;
    proof {
        assert(views(routed@) =~= routed_upto(edges@, t, slot, 0));
    }
    while i < edges.len()
        invariant
            i <= edges@.len(),
            views(routed@) == routed_upto(edges@, t, slot, i as int),
        decreases edges@.len() - i,
    {
        if edges[i].timer == t && edges[i].slot == slot {
            add_text(&mut routed, resources::crossbar_id(edges[i].eev));
        }
        i += 1;
    }
    proof {
        assert(views(routed@).len() == routed@.len());
    }
    let mut title: String = copy_text(t.id());
    title.append(": ");
    title.append(ch);
    title.append(" ");
    title.append(ev);
    let mut a: String = "Output ".to_owned();
    a.append(ch);
    a.append(" (");
    a.append(ev);
    a.append(" event)");
    let b: String = if routed.len() == 0 {
        "Routed: (nothing from the crossbar)".to_owned()
    } else {
        let mut s: String = "Routed: ".to_owned();
        let list: String = text::join(&routed, ", ");
        s.append(list.as_str());
        s
    };
    let ghost first = a@;
    let mut r: Tooltip = titled(title.as_str(), a);
    add_text(&mut r.lines, b.as_str());
    add_text(
        &mut r.lines,
        "Eligible sources: own CMP1-4, PER, RST, EEV1-10, master CMP1-4/PER, other timers' events.",
    );
    proof {
        assert(views(r.lines@) =~= seq![
            first,
            b@,
            "Eligible sources: own CMP1-4, PER, RST, EEV1-10, master CMP1-4/PER, other timers' events."@,
        ]);
    }
    r
}

/// The head of a sequencer's block: what it is, and what starts it.
pub fn sequencer_head(s: &AdcSequencerView) -> (r: (String, String))
    ensures
        r.0@ == adc_name(s.adc) + " "@ + sequencer_name(s.kind),
        r.1@ == (match s.trigger {
            TriggerSource::Software => "trig: SW"@,
            TriggerSource::Event(ev) => "trig: "@ + crossbar_name(ev),
        }),
{
    let mut head: String = copy_text(resources::adc_id(s.adc));
    head.append(" ");
    head.append(s.kind.id());
    let trig: String = match s.trigger {
        TriggerSource::Software => "trig: SW".to_owned(),
        TriggerSource::Event(ev) => {
            let mut t: String = "trig: ".to_owned();
            t.append(resources::crossbar_id(ev));
            t
        },
    };
    (head, trig)
}

/// The line of a conversion in its sequencer's block; `purpose` says what it is for.
pub fn conversion_line(c: &AdcConversionView, purpose: &str) -> (r: String)
    ensures
        r@ == purpose@ + " -> ADC"@ + decimal(g474::adc_nr(c.adc) as int) + "_IN"@ + decimal(
            c.channel as int,
        ) + " @ "@ + (match c.pin {
            Some(p) => pin_name(p),
            None => "?"@,
        }),
{
    let mut s: String = copy_text(purpose);
    s.append(" -> ADC");
    text::push_number(&mut s, c.adc.number() as u64);
    s.append("_IN");
    text::push_number(&mut s, c.channel as u64);
    s.append(" @ ");
    match c.pin {
        Some(p) => {
            let name: String = p.name();
            s.append(name.as_str());
        },
        None => {
            s.append("?");
        },
    }
    s
}

/// Every pair of sub-timers that is linked stays linked, and no two links that are kept
/// join the same sub-timers.
pub proof fn links_are_apart(v: Seq<(HrtimId, HrtimId)>, n: int)
    requires
        0 <= n <= v.len(),
    ensures
        forall|i: int, j: int|
            0 <= i < j < links_upto(v, n).len() ==> !same_link(
                #[trigger] links_upto(v, n)[i],
                #[trigger] links_upto(v, n)[j],
            ),
        forall|k: int|
            0 <= k < n ==> exists|i: int|
                0 <= i < links_upto(v, n).len() && same_link(
                    #[trigger] links_upto(v, n)[i],
                    #[trigger] v[k],
                ),
        forall|i: int|
            0 <= i < links_upto(v, n).len() ==> exists|k: int|
                0 <= k < n && v[k] == #[trigger] links_upto(v, n)[i],
    decreases n,
{
    if n > 0 {
        links_are_apart(v, n - 1);
        let before = links_upto(v, n - 1);
        let now = links_upto(v, n);
        let x = v[n - 1];
        if linked_before(v, x, n - 1) {
            let k = choose|k: int| 0 <= k < n - 1 && same_link(#[trigger] v[k], x);
            let i = choose|i: int| 0 <= i < before.len() && same_link(#[trigger] before[i], v[k]);
            assert(same_link(now[i], x));
        } else {
            assert(now[before.len() as int] == x);
            assert forall|i: int, j: int| 0 <= i < j < now.len() implies !same_link(
                #[trigger] now[i],
                #[trigger] now[j],
            ) by {
                if j == before.len() {
                    assert(now[i] == before[i]);
                    let k = choose|k: int| 0 <= k < n - 1 && v[k] == before[i];
                    assert(!same_link(v[k], x));
                } else {
                    assert(now[i] == before[i] && now[j] == before[j]);
                }
            }
            assert forall|k: int| 0 <= k < n implies exists|i: int|
                0 <= i < now.len() && same_link(#[trigger] now[i], #[trigger] v[k]) by {
                if k == n - 1 {
                    assert(same_link(now[before.len() as int], v[k]));
                } else {
                    let i = choose|i: int|
                        0 <= i < before.len() && same_link(#[trigger] before[i], v[k]);
                    assert(same_link(now[i], v[k]));
                }
            }
            assert forall|i: int| 0 <= i < now.len() implies exists|k: int|
                0 <= k < n && v[k] == #[trigger] now[i] by {
                if i < before.len() {
                    let k = choose|k: int| 0 <= k < n - 1 && v[k] == before[i];
                    assert(v[k] == now[i]);
                }
            }
        }
    }
}

} // verus!
