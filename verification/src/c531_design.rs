//! The design model of a timer-PWM converter: legs on advanced timers, each with an
//! optional over-current trip, threshold and ADC sense.

use vstd::prelude::*;

use crate::analog_roles;
use crate::analog_roles::adc_in;
use crate::g474::adc_nr;
use crate::g474::comp_nr;
use crate::g474::dac_channel;
use crate::g474::dac_instance;
use crate::g474::tim_nr;
use crate::g474::AdcInstance;
use crate::g474::CompId;
use crate::g474::DacId;
use crate::g474::TimCh;
use crate::g474::TimId;
use crate::h523_design::locked;
use crate::h523_design::pin_of;
use crate::h523_design::signal_on;
use crate::h523_design::unlocked;
use crate::h523_design::LockView;
use crate::fabric_data_c5::c5_comp_to_tim_break_table;
use crate::fabric_data_c5::c5_dac_to_comp_table;
use crate::mcu::break_comps;
use crate::mcu::g4_dac_to_comp_table;
use crate::mcu::threshold_dacs;
use crate::mcu::ChipFabric;
use crate::mcu::Mcu;
use crate::mcu::McuDescriptor;
use crate::mcu::Package;
use crate::mcu_pinout;
use crate::mcu_pinout::rows_of;
use crate::mcu_pinout::AfRow;
use crate::mcu_pinout::OwnedSignal;
use crate::mcu_pinout::PinId;
use crate::mcu_raw::RawMcuData;
use crate::order;
use crate::order::deduped;
use crate::order::sorted_bytes;
use crate::pin_locks;
use crate::pin_locks::lock_of;
use crate::pin_locks::locks_of;
use crate::pinout;
use crate::pinout::pins_carrying;
use crate::pinout::signal_key;
use crate::pinout::Pin;
use crate::pinout::Signal;
use crate::text;
use crate::text::decimal;
use crate::text::digit_char;

verus! {

/// The version of the design format.
pub const C531_DESIGN_FORMAT_VERSION: u32 = 1;

/// A timer's break input: 1 is BRK, 2 is BRK2.
pub type BreakInput = u8;

/// An over-current trip: a comparator that drives a timer's break input, and the DAC
/// channel that sets its threshold.
#[derive(Copy, Clone, Debug, PartialEq, Eq, Structural)]
pub struct Ocp {
    pub comp: CompId,
    pub break_input: BreakInput,
    pub threshold_dac: Option<DacId>,
}

/// One leg of a converter.
#[derive(Copy, Clone, Debug, PartialEq, Eq)]
pub struct ConverterLeg {
    pub tim: TimId,
    /// The channels as bits, bit 0 for the first.
    pub channels_mask: u8,
    /// The complementary outputs too.
    pub complementary: bool,
    pub dead_time: bool,
    /// The break-input pin, for a fault signal of the board.
    pub bkin: bool,
    pub ocp: Option<Ocp>,
    /// The ADC input that senses the leg.
    pub adc_sense: Option<(AdcInstance, u8)>,
}

/// Whether a channel bit is set.
pub open spec fn bit_set(mask: u8, i: int) -> bool {
    (mask as int / (if i == 0 {
        1int
    } else if i == 1 {
        2
    } else if i == 2 {
        4
    } else {
        8
    })) % 2 == 1
}

/// The signals of one channel.
pub open spec fn channel_signals(leg: ConverterLeg, i: int, ch: TimCh) -> Seq<Signal> {
    if !bit_set(leg.channels_mask, i) {
        Seq::empty()
    } else if leg.complementary {
        seq![Signal::TimCh(leg.tim, ch), Signal::TimChN(leg.tim, ch)]
    } else {
        seq![Signal::TimCh(leg.tim, ch)]
    }
}

/// The signals of a leg that need a pin, but for its ADC sense.
pub open spec fn leg_signals(leg: ConverterLeg) -> Seq<Signal> {
    channel_signals(leg, 0, TimCh::Ch1) + channel_signals(leg, 1, TimCh::Ch2) + channel_signals(
        leg,
        2,
        TimCh::Ch3,
    ) + channel_signals(leg, 3, TimCh::Ch4) + (if leg.bkin {
        seq![Signal::TimBkin(leg.tim)]
    } else {
        Seq::empty()
    })
}

fn push_channel(leg: &ConverterLeg, i: u8, ch: TimCh, out: &mut Vec<Signal>)
    requires
        i < 4,
    ensures
        final(out)@ == old(out)@ + channel_signals(*leg, i as int, ch),
{
    let ghost base = out@;
    let step: u8 = if i == 0 {
        1
    } else if i == 1 {
        2
    } else if i == 2 {
        4
    } else {
        8
    };
    if leg.channels_mask / step % 2 == 1 {
        out.push(Signal::TimCh(leg.tim, ch));
        if leg.complementary {
            out.push(Signal::TimChN(leg.tim, ch));
        }
    }
    proof {
        assert(out@ =~= base + channel_signals(*leg, i as int, ch));
    }
}

impl ConverterLeg {
    /// A bare leg that drives the first channel.
    pub fn pwm(tim: TimId) -> (r: ConverterLeg)
        ensures
            r == (ConverterLeg {
                tim,
                channels_mask: 1,
                complementary: false,
                dead_time: false,
                bkin: false,
                ocp: None,
                adc_sense: None,
            }),
    {
        ConverterLeg {
            tim,
            channels_mask: 1,
            complementary: false,
            dead_time: false,
            bkin: false,
            ocp: None,
            adc_sense: None,
        }
    }

    /// The signals of the leg that need a pin: its channels, with their complements,
    /// and the break input. Trips and thresholds are routes on the chip.
    pub fn signals(&self) -> (r: Vec<Signal>)
        ensures
            r@ == leg_signals(*self),
    {
        let mut out: Vec<Signal> = Vec::new();
        push_channel(self, 0, TimCh::Ch1, &mut out);
        push_channel(self, 1, TimCh::Ch2, &mut out);
        push_channel(self, 2, TimCh::Ch3, &mut out);
        push_channel(self, 3, TimCh::Ch4, &mut out);
        if self.bkin {
            out.push(Signal::TimBkin(self.tim));
        }
        proof {
            assert(out@ =~= leg_signals(*self));
        }
        out
    }

    /// Each signal with the pins that can carry it.
    pub fn pin_candidates(&self, package: Package) -> (r: Vec<(Signal, Vec<Pin>)>)
        ensures
            r@.len() == leg_signals(*self).len(),
            forall|i: int|
                0 <= i < r@.len() ==> (#[trigger] r@[i]).0 == leg_signals(*self)[i] && r@[i].1@
                    == pins_carrying(*package.info.raw, signal_key(leg_signals(*self)[i])),
    {
        let signals: Vec<Signal> = self.signals();
        let mut out: Vec<(Signal, Vec<Pin>)> = Vec::new();
        let mut i: usize = 0;
        while i < signals.len()
            invariant
                i <= signals@.len(),
                out@.len() == i,
                forall|k: int|
                    0 <= k < i ==> (#[trigger] out@[k]).0 == signals@[k] && out@[k].1@
                        == pins_carrying(*package.info.raw, signal_key(signals@[k])),
            decreases signals@.len() - i,
        {
            let pins: Vec<Pin> = pinout::pins_for_pkg(signals[i], package);
            out.push((signals[i], pins));
            i += 1;
        }
        out
    }
}

/// The number of a comparator.
pub fn comp_num(c: CompId) -> (r: u8)
    ensures
        r == comp_nr(c),
{
    c.number()
}

/// The comparator of a number.
pub open spec fn comp_numbered(n: u8) -> Option<CompId> {
    if n == 1 {
        Some(CompId::Comp1)
    } else if n == 2 {
        Some(CompId::Comp2)
    } else if n == 3 {
        Some(CompId::Comp3)
    } else if n == 4 {
        Some(CompId::Comp4)
    } else if n == 5 {
        Some(CompId::Comp5)
    } else if n == 6 {
        Some(CompId::Comp6)
    } else if n == 7 {
        Some(CompId::Comp7)
    } else {
        None
    }
}

/// The comparator of a number.
pub fn comp_from_num(n: u8) -> (r: Option<CompId>)
    ensures
        r == comp_numbered(n),
{
    match n {
        1 => Some(CompId::Comp1),
        2 => Some(CompId::Comp2),
        3 => Some(CompId::Comp3),
        4 => Some(CompId::Comp4),
        5 => Some(CompId::Comp5),
        6 => Some(CompId::Comp6),
        7 => Some(CompId::Comp7),
        _ => None,
    }
}

/// The instance and the channel of a DAC output.
pub fn dac_inst_ch(d: DacId) -> (r: (u8, u8))
    ensures
        r == (dac_instance(d), dac_channel(d)),
{
    (d.instance(), d.channel())
}

/// The DAC output of an instance and a channel.
pub open spec fn dac_numbered(inst: u8, ch: u8) -> Option<DacId> {
    if inst == 1 && ch == 1 {
        Some(DacId::Dac1Ch1)
    } else if inst == 1 && ch == 2 {
        Some(DacId::Dac1Ch2)
    } else if inst == 2 && ch == 1 {
        Some(DacId::Dac2Ch1)
    } else if inst == 3 && ch == 1 {
        Some(DacId::Dac3Ch1)
    } else if inst == 3 && ch == 2 {
        Some(DacId::Dac3Ch2)
    } else if inst == 4 && ch == 1 {
        Some(DacId::Dac4Ch1)
    } else if inst == 4 && ch == 2 {
        Some(DacId::Dac4Ch2)
    } else {
        None
    }
}

/// The DAC output of an instance and a channel.
pub fn dac_from_inst_ch(inst: u8, ch: u8) -> (r: Option<DacId>)
    ensures
        r == dac_numbered(inst, ch),
{
    match (inst, ch) {
        (1, 1) => Some(DacId::Dac1Ch1),
        (1, 2) => Some(DacId::Dac1Ch2),
        (2, 1) => Some(DacId::Dac2Ch1),
        (3, 1) => Some(DacId::Dac3Ch1),
        (3, 2) => Some(DacId::Dac3Ch2),
        (4, 1) => Some(DacId::Dac4Ch1),
        (4, 2) => Some(DacId::Dac4Ch2),
        _ => None,
    }
}

/// Numbers and comparators, and numbers and DAC outputs, are inverse.
pub proof fn numbers_are_inverse(c: CompId, n: u8, d: DacId, inst: u8, ch: u8)
    ensures
        comp_numbered(comp_nr(c)) == Some(c),
        comp_numbered(n) matches Some(x) ==> comp_nr(x) == n,
        dac_numbered(dac_instance(d), dac_channel(d)) == Some(d),
        dac_numbered(inst, ch) matches Some(x) ==> dac_instance(x) == inst && dac_channel(x) == ch,
{
}

/// Why a converter cannot be built on a chip.
#[derive(Copy, Clone, Debug, PartialEq, Eq)]
pub enum Problem {
    /// The comparator cannot drive the break input.
    OcpUnroutable { leg: usize, comp: CompId, tim: TimId, break_input: BreakInput },
    /// The DAC channel cannot set the comparator's threshold.
    ThresholdUnroutable { leg: usize, dac: DacId, comp: CompId },
    /// Two legs on one timer.
    TimerConflict { legs: (usize, usize), tim: TimId },
    /// Two legs on one comparator.
    CompConflict { legs: (usize, usize), comp: CompId },
    /// Two legs on one DAC channel.
    DacConflict { legs: (usize, usize), dac: DacId },
    /// Two legs on one ADC input.
    AdcConflict { legs: (usize, usize), adc: AdcInstance, channel: u8 },
    /// The ADC input has no pin.
    SenseChannelUnavailable { leg: usize, adc: AdcInstance, channel: u8 },
}

/// The input channels of an ADC that have a pin, among the first `n` rows.
pub open spec fn input_channels(rows: Seq<AfRow>, adc: Seq<char>, n: int) -> Seq<u8>
    decreases n,
{
    if n <= 0 {
        Seq::empty()
    } else {
        let r = rows[n - 1];
        if r.af is None && r.signal.peripheral@ == adc && adc_in(r.signal.role@) is Some {
            input_channels(rows, adc, n - 1).push(adc_in(r.signal.role@)->0)
        } else {
            input_channels(rows, adc, n - 1)
        }
    }
}

/// The input channels of an ADC that have a pin, ascending.
pub open spec fn bonded_channels(rows: Seq<AfRow>, adc: u8) -> Seq<u8> {
    deduped(
        sorted_bytes(input_channels(rows, "ADC"@ + decimal(adc as int), rows.len() as int)),
    )
}

/// The input channels of an ADC that have a pin, ascending.
pub fn adc_bonded_channels(rows: &[AfRow], adc: u8) -> (r: Vec<u8>)
    ensures
        r@ == bonded_channels(rows@, adc),
{
    let mut name: String = "ADC".to_owned();
    text::push_number(&mut name, adc as u64);
    let mut list: Vec<u8> = Vec::new();
    let mut i: usize = 0;
    while i < rows.len()
        invariant
            i <= rows@.len(),
            list@ == input_channels(rows@, name@, i as int),
        decreases rows@.len() - i,
    {
        let r: AfRow = rows[i];
        if r.af.is_none() && text::same(r.signal.peripheral, name.as_str()) {
            if let Some(c) = analog_roles::adc_in_ch(r.signal.role) {
                list.push(c);
            }
        }
        i += 1;
    }
    let sorted: Vec<u8> = order::sort_bytes(&list);
    order::dedup_bytes(&sorted)
}

/// Whether a list holds a byte.
pub fn holds_byte(v: &[u8], x: u8) -> (r: bool)
    ensures
        r == v@.contains(x),
{
    let mut i: usize = 0;
    while i < v.len()
        invariant
            i <= v@.len(),
            forall|k: int| 0 <= k < i ==> v@[k] != x,
        decreases v@.len() - i,
    {
        if v[i] == x {
            assert(v@[i as int] == x);
            return true;
        }
        i += 1;
    }
    false
}

/// Whether a list holds a pair of bytes.
pub fn holds_pair(v: &[(u8, u8)], x: (u8, u8)) -> (r: bool)
    ensures
        r == v@.contains(x),
{
    let mut i: usize = 0;
    while i < v.len()
        invariant
            i <= v@.len(),
            forall|k: int| 0 <= k < i ==> v@[k] != x,
        decreases v@.len() - i,
    {
        if v[i].0 == x.0 && v[i].1 == x.1 {
            assert(v@[i as int] == x);
            return true;
        }
        i += 1;
    }
    false
}

/// The routes of a chip: DAC to comparator, and comparator to break input.
pub ghost struct Routes {
    pub dacs: Seq<(u8, u8, u8)>,
    pub breaks: Seq<(u8, u8, u8)>,
}

/// The routes of a family, where they are known.
pub open spec fn routes_of(mcu: Mcu) -> Option<Routes> {
    match mcu {
        Mcu::G474 => Some(Routes { dacs: g4_dac_to_comp_table(), breaks: Seq::empty() }),
        Mcu::C531 => Some(
            Routes { dacs: c5_dac_to_comp_table(), breaks: c5_comp_to_tim_break_table() },
        ),
        _ => None,
    }
}

/// The routes of a fabric.
pub open spec fn fabric_routes(f: Option<ChipFabric>) -> Option<Routes> {
    match f {
        Some(x) => Some(Routes { dacs: x.dac_to_comp@, breaks: x.comp_to_tim_break@ }),
        None => None,
    }
}

/// The comparators that reach the break input.
pub open spec fn trip_comps(r: Routes, tim: u8, input: u8) -> Seq<u8> {
    break_comps(r.breaks, tim, input, r.breaks.len() as int)
}

/// The DAC channels that set the comparator's threshold.
pub open spec fn level_dacs(r: Routes, comp: u8) -> Seq<(u8, u8)> {
    threshold_dacs(r.dacs, comp, r.dacs.len() as int)
}

/// Whether the sensed input of a leg has a pin, or the leg senses nothing.
pub open spec fn sense_fits(rows: Seq<AfRow>, leg: ConverterLeg) -> bool {
    match leg.adc_sense {
        Some(s) => bonded_channels(rows, adc_nr(s.0)).contains(s.1),
        None => true,
    }
}

/// Whether the trip of a leg is routed.
pub open spec fn trip_fits(r: Routes, leg: ConverterLeg) -> bool {
    match leg.ocp {
        Some(o) => trip_comps(r, tim_nr(leg.tim), o.break_input).contains(comp_nr(o.comp)),
        None => true,
    }
}

/// Whether the threshold of a leg is routed.
pub open spec fn level_fits(r: Routes, leg: ConverterLeg) -> bool {
    match leg.ocp {
        Some(o) => match o.threshold_dac {
            Some(d) => level_dacs(r, comp_nr(o.comp)).contains((dac_instance(d), dac_channel(d))),
            None => true,
        },
        None => true,
    }
}

/// The sense problems of the first `n` legs.
pub open spec fn sense_problems(rows: Seq<AfRow>, legs: Seq<ConverterLeg>, n: int) -> Seq<Problem>
    decreases n,
{
    if n <= 0 {
        Seq::empty()
    } else if sense_fits(rows, legs[n - 1]) {
        sense_problems(rows, legs, n - 1)
    } else {
        let (adc, channel) = legs[n - 1].adc_sense->0;
        sense_problems(rows, legs, n - 1).push(
            Problem::SenseChannelUnavailable { leg: (n - 1) as usize, adc, channel },
        )
    }
}

/// The route problems of a leg.
pub open spec fn leg_route_problems(r: Routes, leg: ConverterLeg, i: int) -> Seq<Problem> {
    match leg.ocp {
        Some(o) => (if trip_fits(r, leg) {
            Seq::empty()
        } else {
            seq![
                Problem::OcpUnroutable {
                    leg: i as usize,
                    comp: o.comp,
                    tim: leg.tim,
                    break_input: o.break_input,
                },
            ]
        }) + (if level_fits(r, leg) {
            Seq::empty()
        } else {
            seq![
                Problem::ThresholdUnroutable {
                    leg: i as usize,
                    dac: o.threshold_dac->0,
                    comp: o.comp,
                },
            ]
        }),
        None => Seq::empty(),
    }
}

/// The route problems of the first `n` legs; none where the routes are not known.
pub open spec fn route_problems(r: Option<Routes>, legs: Seq<ConverterLeg>, n: int) -> Seq<Problem>
    decreases n,
{
    if n <= 0 || r is None {
        Seq::empty()
    } else {
        route_problems(r, legs, n - 1) + leg_route_problems(r->0, legs[n - 1], n - 1)
    }
}

/// The conflicts of two legs.
pub open spec fn leg_conflicts(p: ConverterLeg, q: ConverterLeg, a: int, b: int) -> Seq<Problem> {
    let legs = (a as usize, b as usize);
    let timer: Seq<Problem> = if p.tim == q.tim {
        seq![Problem::TimerConflict { legs, tim: p.tim }]
    } else {
        Seq::empty()
    };
    let trips: Seq<Problem> = match (p.ocp, q.ocp) {
        (Some(x), Some(y)) => (if x.comp == y.comp {
            seq![Problem::CompConflict { legs, comp: x.comp }]
        } else {
            Seq::empty()
        }) + (if x.threshold_dac is Some && x.threshold_dac == y.threshold_dac {
            seq![Problem::DacConflict { legs, dac: x.threshold_dac->0 }]
        } else {
            Seq::empty()
        }),
        _ => Seq::empty(),
    };
    let senses: Seq<Problem> = match (p.adc_sense, q.adc_sense) {
        (Some(s), Some(t)) => if s == t {
            seq![Problem::AdcConflict { legs, adc: s.0, channel: s.1 }]
        } else {
            Seq::empty()
        },
        _ => Seq::empty(),
    };
    timer + trips + senses
}

/// The conflicts of leg `a` with the legs after it, below `b`.
pub open spec fn conflicts_with(legs: Seq<ConverterLeg>, a: int, b: int) -> Seq<Problem>
    decreases b - a,
{
    if b <= a + 1 {
        Seq::empty()
    } else {
        conflicts_with(legs, a, b - 1) + leg_conflicts(legs[a], legs[b - 1], a, b - 1)
    }
}

/// The conflicts of the first `n` legs with the legs after them.
pub open spec fn conflicts_upto(legs: Seq<ConverterLeg>, n: int) -> Seq<Problem>
    decreases n,
{
    if n <= 0 {
        Seq::empty()
    } else {
        conflicts_upto(legs, n - 1) + conflicts_with(legs, n - 1, legs.len() as int)
    }
}

/// Every problem of a converter.
pub open spec fn problems_of(rows: Seq<AfRow>, r: Option<Routes>, legs: Seq<ConverterLeg>) -> Seq<
    Problem,
> {
    let n = legs.len() as int;
    sense_problems(rows, legs, n) + route_problems(r, legs, n) + conflicts_upto(legs, n)
}

/// A converter: its legs, and the pins that the user chose for their signals.
#[derive(Clone, Debug, PartialEq, Eq)]
pub struct C531Design {
    pub format_version: u32,
    pub legs: Vec<ConverterLeg>,
    pub pin_locks: Vec<(OwnedSignal, PinId)>,
}

/// A converter as a mathematical value.
pub ghost struct ConverterView {
    pub format_version: u32,
    pub legs: Seq<ConverterLeg>,
    pub locks: Seq<LockView>,
}

impl View for C531Design {
    type V = ConverterView;

    open spec fn view(&self) -> ConverterView {
        ConverterView {
            format_version: self.format_version,
            legs: self.legs@,
            locks: locks_of(self.pin_locks@),
        }
    }
}

fn find_sense_problems(rows: &[AfRow], legs: &[ConverterLeg]) -> (r: Vec<Problem>)
    ensures
        r@ == sense_problems(rows@, legs@, legs@.len() as int),
{
    let mut out: Vec<Problem> = Vec::new();
    let mut i: usize = 0;
    while i < legs.len()
        invariant
            i <= legs@.len(),
            out@ == sense_problems(rows@, legs@, i as int),
        decreases legs@.len() - i,
    {
        if let Some((adc, channel)) = legs[i].adc_sense {
            let chans: Vec<u8> = adc_bonded_channels(rows, adc.number());
            if !holds_byte(&chans, channel) {
                out.push(Problem::SenseChannelUnavailable { leg: i, adc, channel });
            }
        }
        i += 1;
    }
    out
}

fn push_route_problems(f: &ChipFabric, leg: &ConverterLeg, i: usize, out: &mut Vec<Problem>)
    ensures
        final(out)@ == old(out)@ + leg_route_problems(
            Routes { dacs: f.dac_to_comp@, breaks: f.comp_to_tim_break@ },
            *leg,
            i as int,
        ),
{
    let ghost base = out@;
    let ghost r = Routes { dacs: f.dac_to_comp@, breaks: f.comp_to_tim_break@ };
    if let Some(ocp) = leg.ocp {
        let comps: Vec<u8> = f.comps_for_tim_break(leg.tim.number(), ocp.break_input);
        if !holds_byte(&comps, comp_num(ocp.comp)) {
            out.push(
                Problem::OcpUnroutable {
                    leg: i,
                    comp: ocp.comp,
                    tim: leg.tim,
                    break_input: ocp.break_input,
                },
            );
        }
        if let Some(dac) = ocp.threshold_dac {
            let dacs: Vec<(u8, u8)> = f.dac_threshold_sources_for_comp(comp_num(ocp.comp));
            if !holds_pair(&dacs, dac_inst_ch(dac)) {
                out.push(Problem::ThresholdUnroutable { leg: i, dac, comp: ocp.comp });
            }
        }
    }
    proof {
        assert(out@ =~= base + leg_route_problems(r, *leg, i as int));
    }
}

fn push_conflicts(p: &ConverterLeg, q: &ConverterLeg, a: usize, b: usize, out: &mut Vec<Problem>)
    ensures
        final(out)@ == old(out)@ + leg_conflicts(*p, *q, a as int, b as int),
{
    let ghost base = out@;
    if p.tim == q.tim {
        out.push(Problem::TimerConflict { legs: (a, b), tim: p.tim });
    }
    if let (Some(x), Some(y)) = (p.ocp, q.ocp) {
        if x.comp == y.comp {
            out.push(Problem::CompConflict { legs: (a, b), comp: x.comp });
        }
        if let (Some(d), Some(e)) = (x.threshold_dac, y.threshold_dac) {
            if d == e {
                out.push(Problem::DacConflict { legs: (a, b), dac: d });
            }
        }
    }
    if let (Some((adc, channel)), Some((adc2, channel2))) = (p.adc_sense, q.adc_sense) {
        if adc == adc2 && channel == channel2 {
            out.push(Problem::AdcConflict { legs: (a, b), adc, channel });
        }
    }
    proof {
        assert(out@ =~= base + leg_conflicts(*p, *q, a as int, b as int));
    }
}

/// The routes that a descriptor's fabric gives are those of its family.
pub proof fn descriptor_routes(d: McuDescriptor, pkg: Package)
    requires
        crate::mcu::describes(d, pkg),
    ensures
        fabric_routes(d.fabric) == routes_of(pkg.info.mcu),
        *d.raw == *pkg.info.raw,
{
    match pkg.info.mcu {
        Mcu::G474 => {
            assert(d.fabric->0.comp_to_tim_break@ =~= Seq::<(u8, u8, u8)>::empty());
        },
        _ => {},
    }
}

impl C531Design {
    /// A converter without legs.
    pub fn new() -> (r: C531Design)
        ensures
            r@ == (ConverterView {
                format_version: C531_DESIGN_FORMAT_VERSION,
                legs: Seq::empty(),
                locks: Seq::empty(),
            }),
    {
        let r: C531Design = C531Design {
            format_version: C531_DESIGN_FORMAT_VERSION,
            legs: Vec::new(),
            pin_locks: Vec::new(),
        };
        proof {
            assert(r@.locks =~= Seq::<LockView>::empty());
            assert(r@.legs =~= Seq::<ConverterLeg>::empty());
        }
        r
    }

    /// The pin that the user chose for a signal.
    pub fn locked_pin(&self, signal: Signal) -> (r: Option<PinId>)
        ensures
            r == pin_of(self@.locks, signal_key(signal), 0),
    {
        let owned: OwnedSignal = pinout::signal_to_owned(signal);
        pin_locks::find_pin(&self.pin_locks, &owned)
    }

    /// The signal that the user put on a pin.
    pub fn occupant_of(&self, pin: PinId) -> (r: Option<&OwnedSignal>)
        ensures
            r is Some <==> signal_on(self@.locks, pin, 0) is Some,
            r matches Some(s) ==> signal_on(self@.locks, pin, 0) == Some(s.key()),
    {
        let mut k: usize = 0;
        while k < self.pin_locks.len()
            invariant
                k <= self.pin_locks@.len(),
                signal_on(self@.locks, pin, 0) == signal_on(self@.locks, pin, k as int),
            decreases self.pin_locks@.len() - k,
        {
            proof {
                assert(self@.locks[k as int] == lock_of(self.pin_locks@[k as int]));
            }
            if self.pin_locks[k].1 == pin {
                return Some(&self.pin_locks[k].0);
            }
            k += 1;
        }
        None
    }

    /// Put a signal on a pin. An earlier choice for the signal, or for another signal
    /// on the pin, goes.
    pub fn lock_pin(&mut self, signal: Signal, pin: PinId)
        ensures
            final(self)@ == (ConverterView {
                locks: locked(old(self)@.locks, signal_key(signal), pin),
                ..old(self)@
            }),
    {
        let owned: OwnedSignal = pinout::signal_to_owned(signal);
        let mut locks: Vec<(OwnedSignal, PinId)> = pin_locks::kept_locks(&self.pin_locks, &owned, Some(pin));
        let ghost had = locks@;
        let ghost l = LockView { key: signal_key(signal), pin };
        locks.push((owned, pin));
        proof {
            assert(locks_of(locks@) =~= locks_of(had).push(l));
        }
        self.pin_locks = locks;
    }

    /// Drop the user's choice for a signal.
    pub fn clear_pin(&mut self, signal: Signal)
        ensures
            final(self)@ == (ConverterView {
                locks: unlocked(old(self)@.locks, signal_key(signal)),
                ..old(self)@
            }),
    {
        let owned: OwnedSignal = pinout::signal_to_owned(signal);
        self.pin_locks = pin_locks::kept_locks(&self.pin_locks, &owned, None);
    }

    /// Append a leg.
    pub fn add_leg(&mut self, leg: ConverterLeg)
        ensures
            final(self)@ == (ConverterView { legs: old(self)@.legs.push(leg), ..old(self)@ }),
    {
        self.legs.push(leg);
    }

    /// Remove a leg; an index past the end changes nothing.
    pub fn remove_leg(&mut self, index: usize)
        ensures
            final(self)@ == (if index < old(self)@.legs.len() {
                ConverterView { legs: old(self)@.legs.remove(index as int), ..old(self)@ }
            } else {
                old(self)@
            }),
    {
        if index < self.legs.len() {
            self.legs.remove(index);
        }
    }

    /// Every reason why the converter cannot be built on a chip with this pin table and
    /// these routes.
    pub fn validate_on(&self, raw: &RawMcuData, fabric: &Option<ChipFabric>) -> (r: Vec<Problem>)
        ensures
            r@ == problems_of(rows_of(*raw), fabric_routes(*fabric), self@.legs),
    {
        let rows: Vec<AfRow> = mcu_pinout::af_rows(raw);
        let ghost legs = self.legs@;
        let ghost routes = fabric_routes(*fabric);
        let mut out: Vec<Problem> = find_sense_problems(&rows, &self.legs);
        let ghost first = out@;
        let n: usize = self.legs.len();
        if let Some(f) = fabric {
            let mut i: usize = 0;
            proof {
                assert(out@ =~= first + route_problems(routes, legs, 0));
            }
            while i < n
                invariant
                    i <= n,
                    n == self.legs@.len(),
                    legs == self.legs@,
                    routes == Some(Routes { dacs: f.dac_to_comp@, breaks: f.comp_to_tim_break@ }),
                    out@ == first + route_problems(routes, legs, i as int),
                decreases n - i,
            {
                push_route_problems(f, &self.legs[i], i, &mut out);
                proof {
                    assert(out@ =~= first + route_problems(routes, legs, i + 1));
                }
                i += 1;
            }
        }
        proof {
            assert(out@ =~= first + route_problems(routes, legs, n as int));
        }
        let ghost second = out@;
        let mut a: usize = 0;
        proof {
            assert(out@ =~= second + conflicts_upto(legs, 0));
        }
        while a < n
            invariant
                a <= n,
                n == self.legs@.len(),
                legs == self.legs@,
                out@ == second + conflicts_upto(legs, a as int),
            decreases n - a,
        {
            let ghost base = out@;
            let mut b: usize = a + 1;
            proof {
                assert(out@ =~= base + conflicts_with(legs, a as int, b as int));
            }
            while b < n
                invariant
                    a < b <= n,
                    n == self.legs@.len(),
                    legs == self.legs@,
                    out@ == base + conflicts_with(legs, a as int, b as int),
                decreases n - b,
            {
                push_conflicts(&self.legs[a], &self.legs[b], a, b, &mut out);
                proof {
                    assert(out@ =~= base + conflicts_with(legs, a as int, b + 1));
                }
                b += 1;
            }
            proof {
                assert(out@ =~= second + conflicts_upto(legs, a + 1));
            }
            a += 1;
        }
        proof {
            assert(out@ =~= problems_of(rows@, routes, legs));
        }
        out
    }

    /// Every reason why the converter cannot be built on a part.
    pub fn validate(&self, package: Package) -> (r: Vec<Problem>)
        ensures
            r@ == problems_of(
                rows_of(*package.info.raw),
                routes_of(package.info.mcu),
                self@.legs,
            ),
    {
        let d: McuDescriptor = package.descriptor();
        proof {
            descriptor_routes(d, package);
        }
        self.validate_on(d.raw, &d.fabric)
    }

    /// Whether the converter can be built on a part.
    pub fn is_valid(&self, package: Package) -> (r: bool)
        ensures
            r == (problems_of(
                rows_of(*package.info.raw),
                routes_of(package.info.mcu),
                self@.legs,
            ).len() == 0),
    {
        self.validate(package).len() == 0
    }

    /// The same converter again.
    pub fn copy(&self) -> (r: C531Design)
        ensures
            r@ == self@,
    {
        let locks: Vec<(OwnedSignal, PinId)> = pin_locks::copy_locks(&self.pin_locks);
        let legs: Vec<ConverterLeg> = crate::frontend_plan::copy_list(&self.legs);
        let r: C531Design = C531Design { format_version: self.format_version, legs, pin_locks: locks };
        proof {
            assert(r@.locks =~= self@.locks);
        }
        r
    }

    /// A summary of the legs to copy.
    pub fn export_summary(&self, part_name: &str) -> (r: String)
        ensures
            r@ == converter_summary(self@, part_name@),
    {
        let mut s: String = part_name.to_owned();
        s.append(" — converter plan (");
        text::push_number(&mut s, self.legs.len() as u64);
        s.append(" legs)\n");
        let ghost head = s@;
        let ghost legs = self.legs@;
        let mut i: usize = 0;
        proof {
            assert(s@ =~= head + leg_lines(legs, 0));
        }
        while i < self.legs.len()
            invariant
                i <= self.legs@.len(),
                legs == self.legs@,
                s@ == head + leg_lines(legs, i as int),
            decreases self.legs@.len() - i,
        {
            let line: String = write_leg(&self.legs[i], i);
            s.append(line.as_str());
            proof {
                assert(s@ =~= head + leg_lines(legs, i + 1));
            }
            i += 1;
        }
        s
    }
}

impl Default for C531Design {
    /// An empty converter, of format version 0.
    fn default() -> (r: Self)
        ensures
            r@ == (ConverterView { format_version: 0, legs: Seq::empty(), locks: Seq::empty() }),
    {
        let r: C531Design = C531Design {
            format_version: 0,
            legs: Vec::new(),
            pin_locks: Vec::new(),
        };
        proof {
            assert(r@.locks =~= Seq::<LockView>::empty());
            assert(r@.legs =~= Seq::<ConverterLeg>::empty());
        }
        r
    }
}

/// The binary digits of a number.
pub open spec fn binary(n: int) -> Seq<char>
    decreases n,
{
    if n < 2 {
        seq![digit_char(if n == 1 { 1 } else { 0 })]
    } else {
        binary(n / 2).push(digit_char(n % 2))
    }
}

/// A channel mask in binary, at least four digits.
pub open spec fn mask_text(mask: u8) -> Seq<char> {
    "0b"@ + (if mask < 2 {
        "000"@
    } else if mask < 4 {
        "00"@
    } else if mask < 8 {
        "0"@
    } else {
        ""@
    }) + binary(mask as int)
}

/// One line of a summary.
pub open spec fn leg_line(leg: ConverterLeg, i: int) -> Seq<char> {
    "  leg "@ + decimal(i + 1) + ": Tim"@ + decimal(tim_nr(leg.tim) as int) + " ch-mask="@
        + mask_text(leg.channels_mask) + (if leg.complementary {
        " complementary"@
    } else {
        ""@
    }) + (if leg.dead_time {
        " dead-time"@
    } else {
        ""@
    }) + (match leg.ocp {
        Some(o) => " OCP(Comp"@ + decimal(comp_nr(o.comp) as int) + "→BRK"@ + decimal(
            o.break_input as int,
        ) + ")"@,
        None => ""@,
    }) + (match leg.adc_sense {
        Some(x) => " sense(Adc"@ + decimal(adc_nr(x.0) as int) + "."@ + decimal(x.1 as int) + ")"@,
        None => ""@,
    }) + "\n"@
}

/// The lines of the first `n` legs.
pub open spec fn leg_lines(legs: Seq<ConverterLeg>, n: int) -> Seq<char>
    decreases n,
{
    if n <= 0 {
        Seq::empty()
    } else {
        leg_lines(legs, n - 1) + leg_line(legs[n - 1], n - 1)
    }
}

/// A summary of the legs.
pub open spec fn converter_summary(d: ConverterView, part: Seq<char>) -> Seq<char> {
    part + " — converter plan ("@ + decimal(d.legs.len() as int) + " legs)\n"@ + leg_lines(
        d.legs,
        d.legs.len() as int,
    )
}

fn write_binary(n: u8) -> (r: Vec<char>)
    ensures
        r@ == binary(n as int),
    decreases n,
{
    if n < 2 {
        let c: char = if n == 1 {
            '1'
        } else {
            '0'
        };
        let r: Vec<char> = vec![c];
        proof {
            assert(r@ =~= binary(n as int));
        }
        r
    } else {
        let mut r: Vec<char> = write_binary(n / 2);
        r.push(
            if n % 2 == 1 {
                '1'
            } else {
                '0'
            },
        );
        r
    }
}

fn write_leg(leg: &ConverterLeg, i: usize) -> (r: String)
    requires
        i < usize::MAX,
    ensures
        r@ == leg_line(*leg, i as int),
{
    let mut s: String = "  leg ".to_owned();
    text::push_number(&mut s, (i + 1) as u64);
    s.append(": Tim");
    text::push_number(&mut s, leg.tim.number() as u64);
    s.append(" ch-mask=");
    let ghost lead = s@;
    s.append("0b");
    let zeros: &'static str = if leg.channels_mask < 2 {
        "000"
    } else if leg.channels_mask < 4 {
        "00"
    } else if leg.channels_mask < 8 {
        "0"
    } else {
        ""
    };
    s.append(zeros);
    let bits: Vec<char> = write_binary(leg.channels_mask);
    let digits: String = text::string_of(&bits);
    s.append(digits.as_str());
    proof {
        assert(s@ =~= lead + mask_text(leg.channels_mask));
    }
    let complementary: &'static str = if leg.complementary {
        " complementary"
    } else {
        ""
    };
    s.append(complementary);
    let dead_time: &'static str = if leg.dead_time {
        " dead-time"
    } else {
        ""
    };
    s.append(dead_time);
    let mut trip: String = "".to_owned();
    if let Some(o) = leg.ocp {
        trip = " OCP(Comp".to_owned();
        text::push_number(&mut trip, comp_num(o.comp) as u64);
        trip.append("→BRK");
        text::push_number(&mut trip, o.break_input as u64);
        trip.append(")");
    }
    s.append(trip.as_str());
    let mut sense: String = "".to_owned();
    if let Some((adc, ch)) = leg.adc_sense {
        sense = " sense(Adc".to_owned();
        text::push_number(&mut sense, adc.number() as u64);
        sense.append(".");
        text::push_number(&mut sense, ch as u64);
        sense.append(")");
    }
    s.append(sense.as_str());
    s.append("\n");
    proof {
        assert(s@ =~= leg_line(*leg, i as int));
    }
    s
}

} // verus!
