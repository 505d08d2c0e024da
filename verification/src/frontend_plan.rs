//! Multi-channel analog front-end planner: pick single-ended input pins, grouped
//! in differential pairs, that keep the most options open.
//!
//! A pin may also be a comparator input (a hardware trigger) or an amplifier input
//! (a programmable-gain stage); the two ends of a pair should be read on different
//! ADCs. The planner works in stages (zero-cross pairs, amplifiers, comparators,
//! fill), each over what the stages before it have left.

use vstd::prelude::*;

use crate::analog_roles;
use crate::analog_roles::adc_pos;
use crate::analog_roles::numbered;
use crate::analog_roles::primary;
use crate::mcu_pinout;
use crate::mcu_pinout::pins_ascend;
use crate::mcu_pinout::rows_of;
use crate::mcu_pinout::AfRow;
use crate::mcu_pinout::PinId;
use crate::mcu_pinout::PinSet;
use crate::mcu_raw::RawMcuData;
use crate::names::has_name;
use crate::ranked;
use crate::ranked::ascends;
use crate::ranked::includes;
use crate::ranked::with;
use crate::ranked::Ranked;
use crate::text;
use crate::text::has_prefix;

verus! {

/// An ADC input: `(instance, channel)`, e.g. `("ADC1", 3)`.
pub type Slot = (&'static str, u8);

/// The analog capability of one pin.
#[derive(Clone, Debug, PartialEq, Eq)]
pub struct PinCap {
    pub pin: PinId,
    /// Direct single-ended ADC channels, ascending.
    pub adc: Vec<Slot>,
    /// Comparators whose non-inverting input the pin can drive, ascending.
    pub comp: Vec<&'static str>,
    /// Amplifiers whose input the pin can be, ascending.
    pub opamp: Vec<&'static str>,
}

/// A pin's capability as a mathematical value.
pub ghost struct CapView {
    pub pin: PinId,
    pub adc: Seq<Slot>,
    pub comp: Seq<&'static str>,
    pub opamp: Seq<&'static str>,
}

impl View for PinCap {
    type V = CapView;

    open spec fn view(&self) -> CapView {
        CapView { pin: self.pin, adc: self.adc@, comp: self.comp@, opamp: self.opamp@ }
    }
}

/// Capabilities as mathematical values.
pub open spec fn cap_views(v: Seq<PinCap>) -> Seq<CapView> {
    v.map_values(|c: PinCap| c@)
}

/// The first `n` items' distinct ADC instances, ascending.
pub open spec fn instances_in(adc: Seq<Slot>, n: int) -> Seq<&'static str>
    decreases n,
{
    if n <= 0 {
        Seq::empty()
    } else {
        with(instances_in(adc, n - 1), adc[n - 1].0)
    }
}

impl PinCap {
    /// The number of distinct ADC instances of this pin's direct channels.
    pub fn adc_instance_count(&self) -> (r: usize)
        ensures
            r == instances_in(self.adc@, self.adc@.len() as int).len(),
    {
        let mut seen: Vec<&'static str> = Vec::new();
        let mut i: usize = 0;
        while i < self.adc.len()
            invariant
                i <= self.adc@.len(),
                ascends(seen@),
                seen@ == instances_in(self.adc@, i as int),
            decreases self.adc@.len() - i,
        {
            ranked::insert(&mut seen, self.adc[i].0);
            i += 1;
        }
        seen.len()
    }

    /// A copy.
    pub fn copy(&self) -> (r: PinCap)
        ensures
            r@ == self@,
    {
        PinCap {
            pin: self.pin,
            adc: copy_list(&self.adc),
            comp: copy_list(&self.comp),
            opamp: copy_list(&self.opamp),
        }
    }
}

/// A list with the same items.
pub fn copy_list<T: Copy>(v: &[T]) -> (r: Vec<T>)
    ensures
        r@ == v@,
{
    let mut out: Vec<T> = Vec::new();
    let mut i: usize = 0;
    while i < v.len()
        invariant
            i <= v@.len(),
            out@ =~= v@.take(i as int),
        decreases v@.len() - i,
    {
        out.push(v[i]);
        i += 1;
    }
    proof {
        assert(out@ =~= v@);
    }
    out
}

/// Which amplifier output can be read on which ADC channels inside the chip.
#[derive(Clone, Debug, PartialEq, Eq)]
pub struct OpampOutAdc {
    pub entries: Vec<(&'static str, Vec<Slot>)>,
}

impl View for OpampOutAdc {
    type V = Seq<(&'static str, Seq<Slot>)>;

    open spec fn view(&self) -> Seq<(&'static str, Seq<Slot>)> {
        self.entries@.map_values(|e: (&'static str, Vec<Slot>)| (e.0, e.1@))
    }
}

/// The channels of the first entry from position `k` on with the given name.
pub open spec fn out_slots(out: Seq<(&'static str, Seq<Slot>)>, name: Seq<char>, k: int) -> Option<
    Seq<Slot>,
>
    decreases out.len() - k,
{
    if k < 0 || k >= out.len() {
        None
    } else if out[k].0@ == name {
        Some(out[k].1)
    } else {
        out_slots(out, name, k + 1)
    }
}

impl OpampOutAdc {
    /// The ADC channels that read the amplifier's output.
    pub fn get(&self, name: &str) -> (r: Option<&Vec<Slot>>)
        ensures
            r is Some <==> out_slots(self@, name@, 0) is Some,
            r matches Some(v) ==> v@ == out_slots(self@, name@, 0)->0,
    {
        let mut i: usize = 0;
        while i < self.entries.len()
            invariant
                i <= self.entries@.len(),
                out_slots(self@, name@, 0) == out_slots(self@, name@, i as int),
            decreases self.entries@.len() - i,
        {
            proof {
                assert(self@[i as int] == (
                    self.entries@[i as int].0,
                    self.entries@[i as int].1@,
                ));
            }
            if text::same(self.entries[i].0, name) {
                return Some(&self.entries[i].1);
            }
            i += 1;
        }
        None
    }
}

/// Whether a row is an analog one of an ADC's single-ended channel.
pub open spec fn is_adc_row(r: AfRow) -> bool {
    r.af is None && has_prefix(r.signal.peripheral@, "ADC"@) && adc_pos(r.signal.role@) is Some
}

/// Whether a row is an amplifier's output pin.
pub open spec fn is_vout_row(r: AfRow) -> bool {
    r.af is None && !has_prefix(r.signal.peripheral@, "ADC"@) && has_prefix(
        r.signal.peripheral@,
        "OPAMP"@,
    ) && r.signal.role@ == "VOUT"@
}

/// Whether a row is a comparator's non-inverting input.
pub open spec fn is_comp_plus_row(r: AfRow) -> bool {
    r.af is None && !has_prefix(r.signal.peripheral@, "ADC"@) && has_prefix(
        r.signal.peripheral@,
        "COMP"@,
    ) && numbered(r.signal.role@, "INP"@)
}

/// Whether a row is a comparator's external inverting input.
pub open spec fn is_comp_minus_row(r: AfRow) -> bool {
    r.af is None && has_prefix(r.signal.peripheral@, "COMP"@) && numbered(r.signal.role@, "INM"@)
}

/// Whether a row is an amplifier's non-inverting input.
pub open spec fn is_opamp_plus_row(r: AfRow) -> bool {
    r.af is None && !has_prefix(r.signal.peripheral@, "ADC"@) && !(has_prefix(
        r.signal.peripheral@,
        "COMP"@,
    ) && numbered(r.signal.role@, "INP"@)) && has_prefix(r.signal.peripheral@, "OPAMP"@)
        && primary(r.signal.role@, "VINP"@)
}

fn adc_row(r: &AfRow) -> (b: bool)
    ensures
        b == is_adc_row(*r),
{
    r.af.is_none() && text::starts_with(r.signal.peripheral, "ADC") && analog_roles::adc_pos_index(
        r.signal.role,
    ).is_some()
}

fn vout_row(r: &AfRow) -> (b: bool)
    ensures
        b == is_vout_row(*r),
{
    r.af.is_none() && !text::starts_with(r.signal.peripheral, "ADC") && text::starts_with(
        r.signal.peripheral,
        "OPAMP",
    ) && text::same(r.signal.role, "VOUT")
}

fn comp_plus_row(r: &AfRow) -> (b: bool)
    ensures
        b == is_comp_plus_row(*r),
{
    r.af.is_none() && !text::starts_with(r.signal.peripheral, "ADC") && text::starts_with(
        r.signal.peripheral,
        "COMP",
    ) && analog_roles::comp_plus(r.signal.role)
}

fn comp_minus_row(r: &AfRow) -> (b: bool)
    ensures
        b == is_comp_minus_row(*r),
{
    r.af.is_none() && text::starts_with(r.signal.peripheral, "COMP") && analog_roles::comp_minus(
        r.signal.role,
    )
}

fn opamp_plus_row(r: &AfRow) -> (b: bool)
    ensures
        b == is_opamp_plus_row(*r),
{
    r.af.is_none() && !text::starts_with(r.signal.peripheral, "ADC") && !(text::starts_with(
        r.signal.peripheral,
        "COMP",
    ) && analog_roles::comp_plus(r.signal.role)) && text::starts_with(
        r.signal.peripheral,
        "OPAMP",
    ) && analog_roles::opamp_plus(r.signal.role)
}

/// The single-ended ADC channels of a pin among the first `n` rows, ascending.
pub open spec fn slots_on(rows: Seq<AfRow>, pin: PinId, n: int) -> Seq<Slot>
    decreases n,
{
    if n <= 0 {
        Seq::empty()
    } else {
        let r = rows[n - 1];
        if r.pin == pin && is_adc_row(r) {
            with(slots_on(rows, pin, n - 1), (r.signal.peripheral, adc_pos(r.signal.role@)->0))
        } else {
            slots_on(rows, pin, n - 1)
        }
    }
}

fn collect_slots(rows: &[AfRow], pin: PinId) -> (r: Vec<Slot>)
    ensures
        r@ == slots_on(rows@, pin, rows@.len() as int),
        ascends(r@),
{
    let mut out: Vec<Slot> = Vec::new();
    let mut i: usize = 0;
    while i < rows.len()
        invariant
            i <= rows@.len(),
            ascends(out@),
            out@ == slots_on(rows@, pin, i as int),
        decreases rows@.len() - i,
    {
        let r: AfRow = rows[i];
        if r.pin == pin && adc_row(&r) {
            if let Some(c) = analog_roles::adc_pos_index(r.signal.role) {
                ranked::insert(&mut out, (r.signal.peripheral, c));
            }
        }
        i += 1;
    }
    out
}

/// The amplifiers with an output pin among the first `n` rows, ascending.
pub open spec fn vout_opamps(rows: Seq<AfRow>, n: int) -> Seq<&'static str>
    decreases n,
{
    if n <= 0 {
        Seq::empty()
    } else if is_vout_row(rows[n - 1]) {
        with(vout_opamps(rows, n - 1), rows[n - 1].signal.peripheral)
    } else {
        vout_opamps(rows, n - 1)
    }
}

/// The amplifier's output pin: that of the last such row among the first `n`.
pub open spec fn vout_pin(rows: Seq<AfRow>, op: Seq<char>, n: int) -> Option<PinId>
    decreases n,
{
    if n <= 0 {
        None
    } else if is_vout_row(rows[n - 1]) && rows[n - 1].signal.peripheral@ == op {
        Some(rows[n - 1].pin)
    } else {
        vout_pin(rows, op, n - 1)
    }
}

fn find_vout_pin(rows: &[AfRow], op: &str) -> (r: Option<PinId>)
    ensures
        r == vout_pin(rows@, op@, rows@.len() as int),
{
    let mut i: usize = rows.len();
    while i > 0
        invariant
            i <= rows@.len(),
            vout_pin(rows@, op@, rows@.len() as int) == vout_pin(rows@, op@, i as int),
        decreases i,
    {
        let r: AfRow = rows[i - 1];
        if vout_row(&r) && text::same(r.signal.peripheral, op) {
            return Some(r.pin);
        }
        i -= 1;
    }
    None
}

/// The first `n` amplifiers with the ADC channels on their output pins; those
/// without a channel are left out.
pub open spec fn out_adc_upto(rows: Seq<AfRow>, ops: Seq<&'static str>, n: int) -> Seq<
    (&'static str, Seq<Slot>),
>
    decreases n,
{
    if n <= 0 {
        Seq::empty()
    } else {
        let all = rows.len() as int;
        match vout_pin(rows, ops[n - 1]@, all) {
            Some(pin) => if slots_on(rows, pin, all).len() > 0 {
                out_adc_upto(rows, ops, n - 1).push((ops[n - 1], slots_on(rows, pin, all)))
            } else {
                out_adc_upto(rows, ops, n - 1)
            },
            None => out_adc_upto(rows, ops, n - 1),
        }
    }
}

/// The amplifier outputs of a chip and the ADC channels that read them.
pub open spec fn out_adc_of(raw: RawMcuData) -> Seq<(&'static str, Seq<Slot>)> {
    let rows = rows_of(raw);
    let ops = vout_opamps(rows, rows.len() as int);
    out_adc_upto(rows, ops, ops.len() as int)
}

/// Amplifier output to ADC channel routing of the whole die: an output pin shares
/// its channel with the internal path, which is there whether or not the package
/// bonds the pin.
pub fn opamp_out_adc(raw: &RawMcuData) -> (r: OpampOutAdc)
    ensures
        r@ == out_adc_of(*raw),
{
    let rows: Vec<AfRow> = mcu_pinout::af_rows(raw);
    let mut ops: Vec<&'static str> = Vec::new();
    let mut i: usize = 0;
    while i < rows.len()
        invariant
            i <= rows@.len(),
            ascends(ops@),
            ops@ == vout_opamps(rows@, i as int),
        decreases rows@.len() - i,
    {
        let r: AfRow = rows[i];
        if vout_row(&r) {
            ranked::insert(&mut ops, r.signal.peripheral);
        }
        i += 1;
    }
    let mut out: OpampOutAdc = OpampOutAdc { entries: Vec::new() };
    let mut k: usize = 0;
    proof {
        assert(out@ =~= Seq::<(&'static str, Seq<Slot>)>::empty());
    }
    while k < ops.len()
        invariant
            k <= ops@.len(),
            out@ == out_adc_upto(rows@, ops@, k as int),
        decreases ops@.len() - k,
    {
        if let Some(pin) = find_vout_pin(&rows, ops[k]) {
            let slots: Vec<Slot> = collect_slots(&rows, pin);
            if slots.len() > 0 {
                out.entries.push((ops[k], slots));
                proof {
                    assert(out@ =~= out_adc_upto(rows@, ops@, k + 1));
                }
            }
        }
        k += 1;
    }
    out
}

/// Whether a pin is bonded; all are where the package is not given.
pub open spec fn is_bonded(bonded: Option<Set<PinId>>, pin: PinId) -> bool {
    match bonded {
        Some(b) => b.contains(pin),
        None => true,
    }
}

/// The set that an optional pin set stands for.
pub open spec fn bonded_view(bonded: Option<&PinSet>) -> Option<Set<PinId>> {
    match bonded {
        Some(b) => Some(b@),
        None => None,
    }
}

/// The bonded ones among the first `n` rows.
pub open spec fn bonded_rows(rows: Seq<AfRow>, bonded: Option<Set<PinId>>, n: int) -> Seq<AfRow>
    decreases n,
{
    if n <= 0 {
        Seq::empty()
    } else if is_bonded(bonded, rows[n - 1].pin) {
        bonded_rows(rows, bonded, n - 1).push(rows[n - 1])
    } else {
        bonded_rows(rows, bonded, n - 1)
    }
}

fn keep_bonded(rows: &[AfRow], bonded: Option<&PinSet>) -> (r: Vec<AfRow>)
    ensures
        r@ == bonded_rows(rows@, bonded_view(bonded), rows@.len() as int),
{
    let mut out: Vec<AfRow> = Vec::new();
    let mut i: usize = 0;
    while i < rows.len()
        invariant
            i <= rows@.len(),
            out@ == bonded_rows(rows@, bonded_view(bonded), i as int),
        decreases rows@.len() - i,
    {
        let r: AfRow = rows[i];
        let keep: bool = match bonded {
            Some(b) => b.contains(&r.pin),
            None => true,
        };
        if keep {
            out.push(r);
        }
        i += 1;
    }
    out
}

/// Whether a row makes its pin an analog one.
pub open spec fn is_analog_row(r: AfRow) -> bool {
    is_adc_row(r) || is_comp_plus_row(r) || is_opamp_plus_row(r)
}

/// The pins of the first `n` rows that are analog ones.
pub open spec fn analog_pins(rows: Seq<AfRow>, n: int) -> Set<PinId>
    decreases n,
{
    if n <= 0 {
        Set::empty()
    } else if is_analog_row(rows[n - 1]) {
        analog_pins(rows, n - 1).insert(rows[n - 1].pin)
    } else {
        analog_pins(rows, n - 1)
    }
}

/// The comparators that the pin can trigger among the first `n` rows, ascending.
pub open spec fn comps_on(rows: Seq<AfRow>, pin: PinId, n: int) -> Seq<&'static str>
    decreases n,
{
    if n <= 0 {
        Seq::empty()
    } else if rows[n - 1].pin == pin && is_comp_plus_row(rows[n - 1]) {
        with(comps_on(rows, pin, n - 1), rows[n - 1].signal.peripheral)
    } else {
        comps_on(rows, pin, n - 1)
    }
}

/// The amplifiers that the pin can drive among the first `n` rows, ascending.
pub open spec fn opamps_on(rows: Seq<AfRow>, pin: PinId, n: int) -> Seq<&'static str>
    decreases n,
{
    if n <= 0 {
        Seq::empty()
    } else if rows[n - 1].pin == pin && is_opamp_plus_row(rows[n - 1]) {
        with(opamps_on(rows, pin, n - 1), rows[n - 1].signal.peripheral)
    } else {
        opamps_on(rows, pin, n - 1)
    }
}

/// The first `n` amplifiers that have a readable output.
pub open spec fn readable(ops: Seq<&'static str>, out: Seq<(&'static str, Seq<Slot>)>, n: int) -> Seq<
    &'static str,
>
    decreases n,
{
    if n <= 0 {
        Seq::empty()
    } else if out_slots(out, ops[n - 1]@, 0) is Some {
        readable(ops, out, n - 1).push(ops[n - 1])
    } else {
        readable(ops, out, n - 1)
    }
}

/// What a pin can do.
pub open spec fn cap_of(rows: Seq<AfRow>, out: Seq<(&'static str, Seq<Slot>)>, pin: PinId) -> CapView {
    let n = rows.len() as int;
    let ops = opamps_on(rows, pin, n);
    CapView {
        pin,
        adc: slots_on(rows, pin, n),
        comp: comps_on(rows, pin, n),
        opamp: readable(ops, out, ops.len() as int),
    }
}

/// Whether a capability makes its pin a channel: it has a direct ADC channel or an
/// amplifier whose output can be read.
pub open spec fn is_usable(c: CapView) -> bool {
    c.adc.len() > 0 || c.opamp.len() > 0
}

/// The usable capabilities of the first `n` pins.
pub open spec fn caps_upto(
    rows: Seq<AfRow>,
    out: Seq<(&'static str, Seq<Slot>)>,
    pins: Seq<PinId>,
    n: int,
) -> Seq<CapView>
    decreases n,
{
    if n <= 0 {
        Seq::empty()
    } else {
        let c = cap_of(rows, out, pins[n - 1]);
        if is_usable(c) {
            caps_upto(rows, out, pins, n - 1).push(c)
        } else {
            caps_upto(rows, out, pins, n - 1)
        }
    }
}

/// `v` lists the usable capabilities of a chip's bonded analog pins, in pin order.
pub open spec fn are_caps_of(v: Seq<CapView>, raw: RawMcuData, bonded: Option<Set<PinId>>) -> bool {
    let all = rows_of(raw);
    let rows = bonded_rows(all, bonded, all.len() as int);
    exists|pins: Seq<PinId>|
        pins_ascend(pins) && pins.to_set() == analog_pins(rows, rows.len() as int)
            && v == #[trigger] caps_upto(rows, out_adc_of(raw), pins, pins.len() as int)
}

/// Per-pin analog capabilities, of bonded pins when a package is given, in pin
/// order. Only pins that can be a channel are listed.
pub fn capabilities(raw: &RawMcuData, bonded: Option<&PinSet>) -> (r: Vec<PinCap>)
    ensures
        are_caps_of(cap_views(r@), *raw, bonded_view(bonded)),
{
    let out: OpampOutAdc = opamp_out_adc(raw);
    let all: Vec<AfRow> = mcu_pinout::af_rows(raw);
    let rows: Vec<AfRow> = keep_bonded(&all, bonded);
    let mut pins: PinSet = PinSet::new();
    let mut i: usize = 0;
    while i < rows.len()
        invariant
            i <= rows@.len(),
            pins.wf(),
            pins@ == analog_pins(rows@, i as int),
        decreases rows@.len() - i,
    {
        let r: AfRow = rows[i];
        if adc_row(&r) || comp_plus_row(&r) || opamp_plus_row(&r) {
            pins.insert(r.pin);
        }
        i += 1;
    }
    let mut caps: Vec<PinCap> = Vec::new();
    let mut k: usize = 0;
    proof {
        assert(cap_views(caps@) =~= Seq::<CapView>::empty());
    }
    while k < pins.pins.len()
        invariant
            k <= pins.pins@.len(),
            out@ == out_adc_of(*raw),
            cap_views(caps@) == caps_upto(rows@, out@, pins.pins@, k as int),
        decreases pins.pins@.len() - k,
    {
        let cap: PinCap = capability(&rows, &out, pins.pins[k]);
        if cap.adc.len() > 0 || cap.opamp.len() > 0 {
            caps.push(cap);
            proof {
                assert(cap_views(caps@) =~= caps_upto(rows@, out@, pins.pins@, k + 1));
            }
        }
        k += 1;
    }
    proof {
        assert(pins_ascend(pins.pins@));
        assert(pins.pins@.to_set() == analog_pins(rows@, rows@.len() as int));
    }
    caps
}

fn capability(rows: &[AfRow], out: &OpampOutAdc, pin: PinId) -> (r: PinCap)
    ensures
        r@ == cap_of(rows@, out@, pin),
{
    let adc: Vec<Slot> = collect_slots(rows, pin);
    let mut comp: Vec<&'static str> = Vec::new();
    let mut ops: Vec<&'static str> = Vec::new();
    let mut i: usize = 0;
    while i < rows.len()
        invariant
            i <= rows@.len(),
            ascends(comp@),
            ascends(ops@),
            comp@ == comps_on(rows@, pin, i as int),
            ops@ == opamps_on(rows@, pin, i as int),
        decreases rows@.len() - i,
    {
        let r: AfRow = rows[i];
        if r.pin == pin {
            if comp_plus_row(&r) {
                ranked::insert(&mut comp, r.signal.peripheral);
            }
            if opamp_plus_row(&r) {
                ranked::insert(&mut ops, r.signal.peripheral);
            }
        }
        i += 1;
    }
    let mut opamp: Vec<&'static str> = Vec::new();
    let mut k: usize = 0;
    while k < ops.len()
        invariant
            k <= ops@.len(),
            opamp@ == readable(ops@, out@, k as int),
        decreases ops@.len() - k,
    {
        if out.get(ops[k]).is_some() {
            opamp.push(ops[k]);
        }
        k += 1;
    }
    PinCap { pin, adc, comp, opamp }
}

/// One way in which a comparator can straddle a pair for zero-cross detection: its
/// non-inverting input on one pin, its external inverting input on the other.
#[derive(Clone, Copy, Debug, PartialEq, Eq)]
pub struct ZeroCrossOption {
    pub comp: &'static str,
    pub plus: PinId,
    pub minus: PinId,
}

/// The comparators with an input pin among the first `n` rows, ascending.
pub open spec fn comp_names(rows: Seq<AfRow>, n: int) -> Seq<&'static str>
    decreases n,
{
    if n <= 0 {
        Seq::empty()
    } else if is_comp_plus_row(rows[n - 1]) || is_comp_minus_row(rows[n - 1]) {
        with(comp_names(rows, n - 1), rows[n - 1].signal.peripheral)
    } else {
        comp_names(rows, n - 1)
    }
}

/// The non-inverting, or inverting, input pins of a comparator among the first `n`
/// rows.
pub open spec fn comp_pins(rows: Seq<AfRow>, comp: Seq<char>, plus: bool, n: int) -> Set<PinId>
    decreases n,
{
    if n <= 0 {
        Set::empty()
    } else {
        let r = rows[n - 1];
        let rest = comp_pins(rows, comp, plus, n - 1);
        if r.signal.peripheral@ == comp && (if plus {
            is_comp_plus_row(r)
        } else {
            is_comp_minus_row(r)
        }) {
            rest.insert(r.pin)
        } else {
            rest
        }
    }
}

/// The pins with a single-ended ADC channel among the first `n` rows.
pub open spec fn adc_pins(rows: Seq<AfRow>, n: int) -> Set<PinId>
    decreases n,
{
    if n <= 0 {
        Set::empty()
    } else if is_adc_row(rows[n - 1]) {
        adc_pins(rows, n - 1).insert(rows[n - 1].pin)
    } else {
        adc_pins(rows, n - 1)
    }
}

/// Whether a comparator can straddle the two pins: one is its non-inverting input,
/// the other, different one its external inverting input, both with an ADC channel.
pub open spec fn straddles(rows: Seq<AfRow>, o: ZeroCrossOption) -> bool {
    let n = rows.len() as int;
    &&& comp_pins(rows, o.comp@, true, n).contains(o.plus)
    &&& comp_pins(rows, o.comp@, false, n).contains(o.minus)
    &&& o.plus != o.minus
    &&& adc_pins(rows, n).contains(o.plus)
    &&& adc_pins(rows, n).contains(o.minus)
}

/// Options go by comparator, then by the non-inverting pin, then by the other one.
pub open spec fn option_before(a: ZeroCrossOption, b: ZeroCrossOption) -> bool {
    text::before(a.comp@, b.comp@) || (a.comp@ == b.comp@ && (mcu_pinout::pin_before(
        a.plus,
        b.plus,
    ) || (a.plus == b.plus && mcu_pinout::pin_before(a.minus, b.minus))))
}

fn comp_pin_set(rows: &[AfRow], comp: &str, plus: bool) -> (r: PinSet)
    ensures
        r.wf(),
        r@ == comp_pins(rows@, comp@, plus, rows@.len() as int),
{
    let mut out: PinSet = PinSet::new();
    let mut i: usize = 0;
    while i < rows.len()
        invariant
            i <= rows@.len(),
            out.wf(),
            out@ == comp_pins(rows@, comp@, plus, i as int),
        decreases rows@.len() - i,
    {
        let r: AfRow = rows[i];
        if text::same(r.signal.peripheral, comp) {
            let hit: bool = if plus {
                comp_plus_row(&r)
            } else {
                comp_minus_row(&r)
            };
            if hit {
                out.insert(r.pin);
            }
        }
        i += 1;
    }
    out
}

proof fn comp_is_listed(rows: Seq<AfRow>, comp: Seq<char>, plus: bool, n: int, pin: PinId)
    requires
        0 <= n <= rows.len(),
        comp_pins(rows, comp, plus, n).contains(pin),
    ensures
        has_name(comp_names(rows, n), comp),
    decreases n,
{
    comp_names_ascend(rows, n);
    if n > 0 {
        comp_names_ascend(rows, n - 1);
        let r = rows[n - 1];
        if comp_pins(rows, comp, plus, n - 1).contains(pin) {
            comp_is_listed(rows, comp, plus, n - 1, pin);
        }
        if is_comp_plus_row(r) || is_comp_minus_row(r) {
            ranked::with_is_set_insert(comp_names(rows, n - 1), r.signal.peripheral);
            if has_name(comp_names(rows, n - 1), comp) {
                let v = comp_names(rows, n - 1);
                let i = choose|i: int| 0 <= i < v.len() && (#[trigger] v[i])@ == comp;
                assert(includes(v, v[i]));
                assert(includes(comp_names(rows, n), v[i]));
            }
            assert(includes(comp_names(rows, n), r.signal.peripheral));
        }
    }
}

proof fn comp_names_ascend(rows: Seq<AfRow>, n: int)
    requires
        0 <= n <= rows.len(),
    ensures
        ascends(comp_names(rows, n)),
    decreases n,
{
    if n > 0 {
        comp_names_ascend(rows, n - 1);
        ranked::with_is_set_insert(comp_names(rows, n - 1), rows[n - 1].signal.peripheral);
    }
}

/// Whether two options name the same comparator and pins.
pub open spec fn same_option(a: ZeroCrossOption, b: ZeroCrossOption) -> bool {
    a.comp@ == b.comp@ && a.plus == b.plus && a.minus == b.minus
}

/// Whether one of the first `n` names has these characters.
spec fn among(v: Seq<&'static str>, n: int, s: Seq<char>) -> bool {
    exists|d: int| 0 <= d < n && (#[trigger] v[d])@ == s
}

/// `v` lists, once each and in order, every way in which a comparator of the chip can
/// straddle two bonded pins.
pub open spec fn are_options_of(
    v: Seq<ZeroCrossOption>,
    raw: RawMcuData,
    bonded: Option<Set<PinId>>,
) -> bool {
    let all = rows_of(raw);
    let rows = bonded_rows(all, bonded, all.len() as int);
    &&& forall|i: int| 0 <= i < v.len() ==> #[trigger] straddles(rows, v[i])
    &&& forall|o: ZeroCrossOption| #[trigger]
        straddles(rows, o) ==> exists|i: int| 0 <= i < v.len() && same_option(#[trigger] v[i], o)
    &&& forall|i: int, j: int|
        0 <= i < j < v.len() ==> option_before(#[trigger] v[i], #[trigger] v[j])
}

/// Every way in which a comparator can straddle two bonded, ADC-capable pins, each
/// once and in order.
pub fn zero_cross_options(raw: &RawMcuData, bonded: Option<&PinSet>) -> (r: Vec<ZeroCrossOption>)
    ensures
        are_options_of(r@, *raw, bonded_view(bonded)),
{
    let all: Vec<AfRow> = mcu_pinout::af_rows(raw);
    let rows: Vec<AfRow> = keep_bonded(&all, bonded);
    let ghost n = rows@.len() as int;
    let mut comps: Vec<&'static str> = Vec::new();
    let mut adc: PinSet = PinSet::new();
    let mut i: usize = 0;
    while i < rows.len()
        invariant
            i <= rows@.len(),
            ascends(comps@),
            comps@ == comp_names(rows@, i as int),
            adc.wf(),
            adc@ == adc_pins(rows@, i as int),
        decreases rows@.len() - i,
    {
        let r: AfRow = rows[i];
        if comp_plus_row(&r) || comp_minus_row(&r) {
            ranked::insert(&mut comps, r.signal.peripheral);
        }
        if adc_row(&r) {
            adc.insert(r.pin);
        }
        i += 1;
    }
    let mut out: Vec<ZeroCrossOption> = Vec::new();
    let mut c: usize = 0;
    while c < comps.len()
        invariant
            c <= comps@.len(),
            n == rows@.len(),
            ascends(comps@),
            adc@ == adc_pins(rows@, n),
            forall|x: int| 0 <= x < out@.len() ==> #[trigger] straddles(rows@, out@[x]),
            forall|x: int|
                0 <= x < out@.len() ==> among(comps@, c as int, (#[trigger] out@[x]).comp@),
            forall|o: ZeroCrossOption, d: int|
                #![trigger straddles(rows@, o), comps@[d]]
                straddles(rows@, o) && 0 <= d < c && comps@[d]@ == o.comp@ ==> exists|x: int|
                    0 <= x < out@.len() && same_option(#[trigger] out@[x], o),
            forall|x: int, y: int|
                0 <= x < y < out@.len() ==> option_before(#[trigger] out@[x], #[trigger] out@[y]),
        decreases comps@.len() - c,
    {
        let comp: &'static str = comps[c];
        let ps: PinSet = comp_pin_set(&rows, comp, true);
        let ms: PinSet = comp_pin_set(&rows, comp, false);
        let ghost base = out@;
        let mut p: usize = 0;
        while p < ps.pins.len()
            invariant
                c < comps@.len(),
                comp == comps@[c as int],
                p <= ps.pins@.len(),
                n == rows@.len(),
                ascends(comps@),
                ps.wf(),
                ms.wf(),
                ps@ == comp_pins(rows@, comp@, true, n),
                ms@ == comp_pins(rows@, comp@, false, n),
                adc@ == adc_pins(rows@, n),
                base.len() <= out@.len(),
                forall|x: int| 0 <= x < base.len() ==> base[x] == #[trigger] out@[x],
                forall|x: int|
                    base.len() <= x < out@.len() ==> (#[trigger] out@[x]).comp == comp && exists|
                        q: int,
                    |
                        0 <= q < p && ps.pins@[q] == out@[x].plus,
                forall|x: int|
                    0 <= x < base.len() ==> among(comps@, c as int, (#[trigger] base[x]).comp@),
                forall|x: int| 0 <= x < out@.len() ==> #[trigger] straddles(rows@, out@[x]),
                forall|o: ZeroCrossOption, q: int|
                    #![trigger straddles(rows@, o), ps.pins@[q]]
                    straddles(rows@, o) && o.comp@ == comp@ && 0 <= q < p && ps.pins@[q] == o.plus
                        ==> exists|x: int| 0 <= x < out@.len() && same_option(#[trigger] out@[x], o),
                forall|x: int, y: int|
                    0 <= x < y < out@.len() ==> option_before(
                        #[trigger] out@[x],
                        #[trigger] out@[y],
                    ),
            decreases ps.pins@.len() - p,
        {
            let plus: PinId = ps.pins[p];
            let ghost before_p = out@;
            let mut m: usize = 0;
            while m < ms.pins.len()
                invariant
                    c < comps@.len(),
                    comp == comps@[c as int],
                    p < ps.pins@.len(),
                    plus == ps.pins@[p as int],
                    m <= ms.pins@.len(),
                    n == rows@.len(),
                    ascends(comps@),
                    ps.wf(),
                    ms.wf(),
                    ps@ == comp_pins(rows@, comp@, true, n),
                    ms@ == comp_pins(rows@, comp@, false, n),
                    adc@ == adc_pins(rows@, n),
                    base.len() <= before_p.len() <= out@.len(),
                    forall|x: int| 0 <= x < base.len() ==> base[x] == #[trigger] before_p[x],
                    forall|x: int| 0 <= x < before_p.len() ==> before_p[x] == #[trigger] out@[x],
                    forall|x: int|
                        base.len() <= x < before_p.len() ==> (#[trigger] before_p[x]).comp == comp
                            && exists|q: int| 0 <= q < p && ps.pins@[q] == before_p[x].plus,
                    forall|x: int|
                        before_p.len() <= x < out@.len() ==> (#[trigger] out@[x]).comp == comp
                            && out@[x].plus == plus && exists|q: int|
                            0 <= q < m && ms.pins@[q] == out@[x].minus,
                    forall|x: int|
                        0 <= x < base.len() ==> among(comps@, c as int, (#[trigger] base[x]).comp@),
                    forall|x: int| 0 <= x < out@.len() ==> #[trigger] straddles(rows@, out@[x]),
                    forall|o: ZeroCrossOption, q: int|
                        #![trigger straddles(rows@, o), ms.pins@[q]]
                        straddles(rows@, o) && o.comp@ == comp@ && o.plus == plus && 0 <= q < m
                            && ms.pins@[q] == o.minus ==> exists|x: int|
                            0 <= x < out@.len() && same_option(#[trigger] out@[x], o),
                    forall|x: int, y: int|
                        0 <= x < y < out@.len() ==> option_before(
                            #[trigger] out@[x],
                            #[trigger] out@[y],
                        ),
                decreases ms.pins@.len() - m,
            {
                let minus: PinId = ms.pins[m];
                let o = ZeroCrossOption { comp, plus, minus };
                let ghost prev = out@;
                proof {
                    assert(ps@.contains(plus)) by {
                        assert(ps.pins@.contains(plus));
                    }
                    assert(ms@.contains(minus)) by {
                        assert(ms.pins@.contains(minus));
                    }
                }
                if plus != minus && adc.contains(&plus) && adc.contains(&minus) {
                    out.push(o);
                    proof {
                        assert(straddles(rows@, o));
                        assert forall|x: int, y: int| 0 <= x < y < out@.len() implies option_before(
                            #[trigger] out@[x],
                            #[trigger] out@[y],
                        ) by {
                            if y == prev.len() {
                                if x < base.len() {
                                    assert(out@[x] == base[x]);
                                    let d = choose|d: int|
                                        0 <= d < c && (#[trigger] comps@[d])@ == base[x].comp@;
                                    assert(comps@[d].precedes(&comps@[c as int]));
                                } else if x < before_p.len() {
                                    assert(out@[x] == before_p[x]);
                                    let q = choose|q: int|
                                        0 <= q < p && ps.pins@[q] == before_p[x].plus;
                                    assert(mcu_pinout::pin_before(
                                        ps.pins@[q],
                                        ps.pins@[p as int],
                                    ));
                                } else {
                                    let q = choose|q: int|
                                        0 <= q < m && ms.pins@[q] == out@[x].minus;
                                    assert(mcu_pinout::pin_before(
                                        ms.pins@[q],
                                        ms.pins@[m as int],
                                    ));
                                }
                            }
                        }
                        assert(out@[prev.len() as int] == o);
                        assert forall|x: int| 0 <= x < prev.len() implies prev[x]
                            == #[trigger] out@[x] by {}
                    }
                }
                proof {
                    assert forall|w: ZeroCrossOption, q: int|
                        #![trigger straddles(rows@, w), ms.pins@[q]]
                        straddles(rows@, w) && w.comp@ == comp@ && w.plus == plus && 0 <= q < m + 1
                            && ms.pins@[q] == w.minus implies exists|x: int|
                        0 <= x < out@.len() && same_option(#[trigger] out@[x], w) by {
                        if q < m {
                            let x = choose|x: int|
                                0 <= x < prev.len() && same_option(#[trigger] prev[x], w);
                            assert(same_option(out@[x], w));
                        } else {
                            assert(same_option(out@[prev.len() as int], w));
                        }
                    }
                }
                m += 1;
            }
            proof {
                assert forall|w: ZeroCrossOption, q: int|
                    #![trigger straddles(rows@, w), ps.pins@[q]]
                    straddles(rows@, w) && w.comp@ == comp@ && 0 <= q < p + 1 && ps.pins@[q]
                        == w.plus implies exists|x: int|
                    0 <= x < out@.len() && same_option(#[trigger] out@[x], w) by {
                    if q < p {
                        let x = choose|x: int|
                            0 <= x < before_p.len() && same_option(#[trigger] before_p[x], w);
                        assert(same_option(out@[x], w));
                    } else {
                        assert(ms@.contains(w.minus));
                        let k = choose|k: int| 0 <= k < ms.pins@.len() && ms.pins@[k] == w.minus;
                        assert(ms.pins@[k] == w.minus);
                    }
                }
                assert forall|x: int| base.len() <= x < out@.len() implies (
                #[trigger] out@[x]).comp == comp && exists|q: int|
                    0 <= q < p + 1 && ps.pins@[q] == out@[x].plus by {
                    if x < before_p.len() {
                        assert(out@[x] == before_p[x]);
                        let q = choose|q: int| 0 <= q < p && ps.pins@[q] == before_p[x].plus;
                        assert(ps.pins@[q] == out@[x].plus);
                    } else {
                        assert(ps.pins@[p as int] == out@[x].plus);
                    }
                }
            }
            p += 1;
        }
        proof {
            assert forall|w: ZeroCrossOption, d: int|
                #![trigger straddles(rows@, w), comps@[d]]
                straddles(rows@, w) && 0 <= d < c + 1 && comps@[d]@ == w.comp@ implies exists|
                x: int,
            |
                0 <= x < out@.len() && same_option(#[trigger] out@[x], w) by {
                if d < c {
                    let x = choose|x: int| 0 <= x < base.len() && same_option(#[trigger] base[x], w);
                    assert(same_option(out@[x], w));
                } else {
                    assert(ps@.contains(w.plus));
                    let k = choose|k: int| 0 <= k < ps.pins@.len() && ps.pins@[k] == w.plus;
                    assert(ps.pins@[k] == w.plus);
                }
            }
            assert forall|x: int| 0 <= x < out@.len() implies among(comps@, c + 1, (#[trigger] out@[x]).comp@) by {
                if x < base.len() {
                    let d = choose|d: int| 0 <= d < c && (#[trigger] comps@[d])@ == base[x].comp@;
                    assert(comps@[d]@ == out@[x].comp@);
                } else {
                    assert(comps@[c as int]@ == out@[x].comp@);
                }
            }
        }
        c += 1;
    }
    proof {
        assert forall|o: ZeroCrossOption| #[trigger] straddles(rows@, o) implies exists|x: int|
            0 <= x < out@.len() && same_option(#[trigger] out@[x], o) by {
            comp_is_listed(rows@, o.comp@, true, n, o.plus);
            let d = choose|d: int| 0 <= d < comps@.len() && (#[trigger] comps@[d])@ == o.comp@;
            assert(comps@[d]@ == o.comp@);
        }
    }
    out
}

/// How a channel's sample is digitized.
#[derive(Clone, Copy, Debug, PartialEq, Eq)]
pub enum AdcRead {
    /// The pin is sampled directly.
    Direct { adc: &'static str, ch: u8 },
    /// The pin drives an amplifier whose output is read inside the chip.
    ViaOpamp { opamp: &'static str, adc: &'static str, ch: u8 },
}

/// The ADC input that a read takes.
pub open spec fn slot_of(r: AdcRead) -> Slot {
    match r {
        AdcRead::Direct { adc, ch } => (adc, ch),
        AdcRead::ViaOpamp { opamp, adc, ch } => (adc, ch),
    }
}

impl AdcRead {
    /// The ADC instance that this read lands on.
    pub fn adc(&self) -> (r: &'static str)
        ensures
            r == slot_of(*self).0,
    {
        match *self {
            AdcRead::Direct { adc, ch } => adc,
            AdcRead::ViaOpamp { opamp, adc, ch } => adc,
        }
    }

    /// The ADC channel that this read lands on.
    pub fn ch(&self) -> (r: u8)
        ensures
            r == slot_of(*self).1,
    {
        match *self {
            AdcRead::Direct { adc, ch } => ch,
            AdcRead::ViaOpamp { opamp, adc, ch } => ch,
        }
    }

    /// The amplifier that this read goes through.
    pub fn opamp(&self) -> (r: Option<&'static str>)
        ensures
            r == amp_of(*self),
    {
        match *self {
            AdcRead::Direct { .. } => None,
            AdcRead::ViaOpamp { opamp, .. } => Some(opamp),
        }
    }

    /// The ADC input that this read takes.
    pub fn slot(&self) -> (r: Slot)
        ensures
            r == slot_of(*self),
    {
        (self.adc(), self.ch())
    }
}

/// One planned single-ended channel.
#[derive(Clone, Copy, Debug, PartialEq, Eq)]
pub struct ChannelPlan {
    pub pin: PinId,
    pub read: AdcRead,
    /// The comparator that watches this pin.
    pub comp: Option<&'static str>,
    /// The amplifier that this channel is read through.
    pub opamp: Option<&'static str>,
}

/// The amplifier that a read goes through.
pub open spec fn amp_of(r: AdcRead) -> Option<&'static str> {
    match r {
        AdcRead::Direct { .. } => None,
        AdcRead::ViaOpamp { opamp, .. } => Some(opamp),
    }
}

/// Whether a pair names the amplifiers that its ends are read through and no others, and is
/// a full-gain one exactly if these are two different ones.
pub open spec fn gain_is_read(p: PairPlan) -> bool {
    &&& p.pos.opamp == amp_of(p.pos.read)
    &&& p.neg.opamp == amp_of(p.neg.read)
    &&& p.full_pga <==> p.pos.read is ViaOpamp && p.neg.read is ViaOpamp && p.pos.opamp->0@
        != p.neg.opamp->0@
}

/// One planned pair. Where a channel has no partner it stands at both ends.
#[derive(Clone, Copy, Debug, PartialEq, Eq)]
pub struct PairPlan {
    pub index: usize,
    pub pos: ChannelPlan,
    pub neg: ChannelPlan,
    /// Both ends are read through an amplifier, and not the same one.
    pub full_pga: bool,
    /// The two ends are read on different ADCs.
    pub cross_adc: bool,
    /// The comparator that straddles the pair for zero-cross detection.
    pub zero_cross: Option<&'static str>,
}

/// Why not every channel can be rich.
#[derive(Clone, Copy, Debug, PartialEq, Eq)]
pub struct Ceiling {
    pub requested_channels: usize,
    /// Usable analog pins.
    pub adc_pins: usize,
    /// Comparators within reach.
    pub comps: usize,
    /// Amplifiers within reach.
    pub opamps: usize,
    /// Most pairs that can have two amplifiers.
    pub max_pga_pairs: usize,
    /// Most channels that can be a trigger.
    pub max_triggers: usize,
    /// Most pairs that a comparator can straddle.
    pub max_zero_cross_pairs: usize,
}

/// The solved plan and its diagnostics.
#[derive(Clone, Debug)]
pub struct FrontEndPlan {
    pub pairs: Vec<PairPlan>,
    pub ceiling: Ceiling,
    /// Channels that found no pin.
    pub unplaced_channels: usize,
    pub score: i32,
    /// Explanations for the user.
    pub notes: Vec<String>,
}

/// How many of the two flags are set.
pub open spec fn flags(a: bool, b: bool) -> int {
    (if a {
        1int
    } else {
        0
    }) + (if b {
        1int
    } else {
        0
    })
}

/// Whether a pair is one channel without a partner: both ends are the same pin, read on the
/// same input.
pub open spec fn is_lone(p: PairPlan) -> bool {
    &&& p.pos.pin == p.neg.pin
    &&& slot_of(p.pos.read).0@ == slot_of(p.neg.read).0@
    &&& slot_of(p.pos.read).1 == slot_of(p.neg.read).1
}

/// The channels of a pair with a comparator. A channel without a partner is one channel.
pub open spec fn pair_triggers(p: PairPlan) -> int {
    flags(p.pos.comp is Some, !is_lone(p) && p.neg.comp is Some)
}

/// The ends of a pair with a comparator.
pub open spec fn comp_ends(p: PairPlan) -> int {
    flags(p.pos.comp is Some, p.neg.comp is Some)
}

/// The ends of a pair with an amplifier.
pub open spec fn amp_ends(p: PairPlan) -> int {
    flags(p.pos.opamp is Some, p.neg.opamp is Some)
}

/// Channels with a comparator among the first `n` pairs.
pub open spec fn trigger_count(pairs: Seq<PairPlan>, n: int) -> int
    decreases n,
{
    if n <= 0 {
        0
    } else {
        trigger_count(pairs, n - 1) + pair_triggers(pairs[n - 1])
    }
}

/// Ends with an amplifier among the first `n` pairs.
pub open spec fn pga_count(pairs: Seq<PairPlan>, n: int) -> int
    decreases n,
{
    if n <= 0 {
        0
    } else {
        pga_count(pairs, n - 1) + amp_ends(pairs[n - 1])
    }
}

/// Pairs with two amplifiers among the first `n`.
pub open spec fn full_pga_count(pairs: Seq<PairPlan>, n: int) -> int
    decreases n,
{
    if n <= 0 {
        0
    } else {
        full_pga_count(pairs, n - 1) + flags(pairs[n - 1].full_pga, false)
    }
}

/// Zero-cross pairs among the first `n`.
pub open spec fn zero_cross_count(pairs: Seq<PairPlan>, n: int) -> int
    decreases n,
{
    if n <= 0 {
        0
    } else {
        zero_cross_count(pairs, n - 1) + flags(pairs[n - 1].zero_cross is Some, false)
    }
}

impl PairPlan {
    /// Whether the pair is one channel without a partner.
    pub fn is_lone(&self) -> (r: bool)
        ensures
            r == is_lone(*self),
    {
        let (a, x): Slot = self.pos.read.slot();
        let (b, y): Slot = self.neg.read.slot();
        self.pos.pin == self.neg.pin && text::same(a, b) && x == y
    }
}

impl FrontEndPlan {
    /// The channels that are a trigger. A channel without a partner is one, though it stands
    /// at both ends of its pair.
    pub fn triggers(&self) -> (r: usize)
        requires
            self.pairs@.len() <= usize::MAX / 2,
        ensures
            r == trigger_count(self.pairs@, self.pairs@.len() as int),
    {
        let mut n: usize = 0;
        let mut i: usize = 0;
        while i < self.pairs.len()
            invariant
                i <= self.pairs@.len(),
                self.pairs@.len() <= usize::MAX / 2,
                n <= 2 * i,
                n == trigger_count(self.pairs@, i as int),
            decreases self.pairs@.len() - i,
        {
            if self.pairs[i].pos.comp.is_some() {
                n += 1;
            }
            if !self.pairs[i].is_lone() && self.pairs[i].neg.comp.is_some() {
                n += 1;
            }
            i += 1;
        }
        n
    }

    /// The ends of pairs that have an amplifier.
    pub fn pga_channels(&self) -> (r: usize)
        requires
            self.pairs@.len() <= usize::MAX / 2,
        ensures
            r == pga_count(self.pairs@, self.pairs@.len() as int),
    {
        let mut n: usize = 0;
        let mut i: usize = 0;
        while i < self.pairs.len()
            invariant
                i <= self.pairs@.len(),
                self.pairs@.len() <= usize::MAX / 2,
                n <= 2 * i,
                n == pga_count(self.pairs@, i as int),
            decreases self.pairs@.len() - i,
        {
            if self.pairs[i].pos.opamp.is_some() {
                n += 1;
            }
            if self.pairs[i].neg.opamp.is_some() {
                n += 1;
            }
            i += 1;
        }
        n
    }

    /// The pairs that have two amplifiers.
    pub fn full_pga_pairs(&self) -> (r: usize)
        ensures
            r == full_pga_count(self.pairs@, self.pairs@.len() as int),
    {
        let mut n: usize = 0;
        let mut i: usize = 0;
        while i < self.pairs.len()
            invariant
                i <= self.pairs@.len(),
                n <= i,
                n == full_pga_count(self.pairs@, i as int),
            decreases self.pairs@.len() - i,
        {
            if self.pairs[i].full_pga {
                n += 1;
            }
            i += 1;
        }
        n
    }

    /// The pairs that a comparator straddles.
    pub fn zero_cross_pairs(&self) -> (r: usize)
        ensures
            r == zero_cross_count(self.pairs@, self.pairs@.len() as int),
    {
        let mut n: usize = 0;
        let mut i: usize = 0;
        while i < self.pairs.len()
            invariant
                i <= self.pairs@.len(),
                n <= i,
                n == zero_cross_count(self.pairs@, i as int),
            decreases self.pairs@.len() - i,
        {
            if self.pairs[i].zero_cross.is_some() {
                n += 1;
            }
            i += 1;
        }
        n
    }
}

/// The planner's weights and channel count.
#[derive(Clone, Copy, Debug, PartialEq, Eq, Structural)]
pub struct PlanConfig {
    /// Single-ended channels; an odd number is rounded up to whole pairs.
    pub channels: usize,
    pub w_pga_pair: i32,
    pub w_pga_single: i32,
    pub w_trigger: i32,
    pub w_cross_adc: i32,
    pub w_zero_cross: i32,
    /// How many pairs to give a straddling comparator; 0 for none.
    pub zero_cross_target: usize,
}

impl Default for PlanConfig {
    fn default() -> (r: Self)
        ensures
            r == (PlanConfig {
                channels: 16,
                w_pga_pair: 100,
                w_pga_single: 25,
                w_trigger: 30,
                w_cross_adc: 8,
                w_zero_cross: 40,
                zero_cross_target: 0,
            }),
    {
        PlanConfig {
            channels: 16,
            w_pga_pair: 100,
            w_pga_single: 25,
            w_trigger: 30,
            w_cross_adc: 8,
            w_zero_cross: 40,
            zero_cross_target: 0,
        }
    }
}

} // verus!
