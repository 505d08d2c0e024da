//! Pins that can be the two terminals of a differential analog front end, found in
//! a chip's pin table.

use vstd::prelude::*;

use crate::analog_roles;
use crate::analog_roles::adc_in;
use crate::analog_roles::adc_neg;
use crate::analog_roles::adc_pos;
use crate::analog_roles::numbered;
use crate::analog_roles::primary;
use crate::frontend_plan::Slot;
use crate::mcu_pinout;
use crate::mcu_pinout::pin_before;
use crate::mcu_pinout::pin_name;
use crate::mcu_pinout::pin_rank;
use crate::mcu_pinout::rows_of;
use crate::mcu_pinout::AfRow;
use crate::mcu_pinout::PinId;
use crate::mcu_raw;
use crate::mcu_raw::same_chip;
use crate::mcu_raw::RawMcuData;
use crate::order;
use crate::order::order_of;
use crate::order::picked;
use crate::ranked;
use crate::ranked::ascends;
use crate::ranked::rank_in;
use crate::ranked::with;
use crate::ranked::Ranked;
use crate::reading_laws::same_chips_have_same_ends;
use crate::text;
use crate::text::before;
use crate::text::before_irreflexive;
use crate::text::before_total;
use crate::text::before_transitive;
use crate::text::decimal;
use crate::text::has_part;
use crate::text::has_prefix;
use crate::text::joined;
use crate::text::lower;
use crate::text::views;

verus! {

/// How the pairs are displayed.
#[derive(Clone, Copy, Debug, PartialEq, Eq, Structural)]
pub enum Display {
    Table,
    Package,
}

impl Default for Display {
    fn default() -> (r: Self)
        ensures
            r == Display::Table,
    {
        Display::Table
    }
}

/// The three shapes of a differential front end.
#[derive(Copy, Clone, Debug, PartialEq, Eq, PartialOrd, Ord, Structural)]
pub enum Kind {
    AdcDiff,
    Comp,
    OpampPlus,
}

/// The place of a kind in their order.
pub open spec fn kind_rank(k: Kind) -> int {
    match k {
        Kind::AdcDiff => 0,
        Kind::Comp => 1,
        Kind::OpampPlus => 2,
    }
}

impl Kind {
    /// All kinds, in order.
    pub fn all() -> (r: Vec<Kind>)
        ensures
            r@ == seq![Kind::AdcDiff, Kind::Comp, Kind::OpampPlus],
    {
        vec![Kind::AdcDiff, Kind::Comp, Kind::OpampPlus]
    }

    /// A short name.
    pub fn label(self) -> (r: &'static str)
        ensures
            r@ == (match self {
                Kind::AdcDiff => "ADC +/-"@,
                Kind::Comp => "COMP +/-"@,
                Kind::OpampPlus => "OP+"@,
            }),
    {
        match self {
            Kind::AdcDiff => "ADC +/-",
            Kind::Comp => "COMP +/-",
            Kind::OpampPlus => "OP+",
        }
    }

    /// What to say when a chip has none of the kind.
    pub fn absent_note(self) -> (r: &'static str)
        ensures
            r@ == (match self {
                Kind::AdcDiff => "No ADC differential pairs on this chip (no INN inputs in the ADC data)."@,
                Kind::Comp => "No comparators on this chip."@,
                Kind::OpampPlus => "No op-amps on this chip."@,
            }),
    {
        match self {
            Kind::AdcDiff => "No ADC differential pairs on this chip (no INN inputs in the ADC data).",
            Kind::Comp => "No comparators on this chip.",
            Kind::OpampPlus => "No op-amps on this chip.",
        }
    }
}

/// One way to place a differential front end on one instance. Without a minus pin
/// the inverting side is on the chip.
#[derive(Clone, Debug)]
pub struct DiffFrontEnd {
    pub kind: Kind,
    pub instance: &'static str,
    pub plus_pin: PinId,
    pub plus_role: &'static str,
    pub minus: Option<(PinId, &'static str)>,
    /// The differential ADC channel, where there is one.
    pub channel: Option<u8>,
    /// The channel number is a label of the data: the negative pin's own channel is
    /// not the next one. The pins are right all the same.
    pub channel_hedge: bool,
    /// Both terminals are pins though the usual minus is on the chip.
    pub external_minus: bool,
    pub note: String,
}

/// A front end as a mathematical value.
pub ghost struct EndView {
    pub kind: Kind,
    pub instance: &'static str,
    pub plus_pin: PinId,
    pub plus_role: &'static str,
    pub minus: Option<(PinId, &'static str)>,
    pub channel: Option<u8>,
    pub channel_hedge: bool,
    pub external_minus: bool,
    pub note: Seq<char>,
}

impl View for DiffFrontEnd {
    type V = EndView;

    open spec fn view(&self) -> EndView {
        EndView {
            kind: self.kind,
            instance: self.instance,
            plus_pin: self.plus_pin,
            plus_role: self.plus_role,
            minus: self.minus,
            channel: self.channel,
            channel_hedge: self.channel_hedge,
            external_minus: self.external_minus,
            note: self.note@,
        }
    }
}

/// Whether two front ends read the same.
pub open spec fn same_end(a: EndView, b: EndView) -> bool {
    &&& a.kind == b.kind
    &&& a.instance@ == b.instance@
    &&& a.plus_pin == b.plus_pin
    &&& a.plus_role@ == b.plus_role@
    &&& match (a.minus, b.minus) {
        (Some(x), Some(y)) => x.0 == y.0 && x.1@ == y.1@,
        (None, None) => true,
        _ => false,
    }
    &&& a.channel == b.channel
    &&& a.channel_hedge == b.channel_hedge
    &&& a.external_minus == b.external_minus
    &&& a.note == b.note
}

/// Whether two lists of front ends read the same, row by row.
pub open spec fn same_ends(a: Seq<EndView>, b: Seq<EndView>) -> bool {
    a.len() == b.len() && forall|i: int| 0 <= i < a.len() ==> same_end(#[trigger] a[i], b[i])
}

/// The values of a list.
pub open spec fn end_views(v: Seq<DiffFrontEnd>) -> Seq<EndView> {
    v.map_values(|f: DiffFrontEnd| f@)
}

impl DiffFrontEnd {
    /// The same front end again.
    pub fn copy(&self) -> (r: DiffFrontEnd)
        ensures
            r@ == self@,
    {
        let mut note: String = String::new();
        note.append(self.note.as_str());
        proof {
            assert(note@ =~= self.note@);
        }
        DiffFrontEnd {
            kind: self.kind,
            instance: self.instance,
            plus_pin: self.plus_pin,
            plus_role: self.plus_role,
            minus: self.minus,
            channel: self.channel,
            channel_hedge: self.channel_hedge,
            external_minus: self.external_minus,
            note,
        }
    }
}

impl Ranked for (PinId, &'static str) {
    open spec fn precedes(&self, other: &Self) -> bool {
        pin_before(self.0, other.0) || (self.0 == other.0 && before(self.1@, other.1@))
    }

    open spec fn alike(&self, other: &Self) -> bool {
        self.0 == other.0 && self.1@ == other.1@
    }

    proof fn order_laws(a: Self, b: Self, c: Self) {
        before_irreflexive(a.1@);
        before_total(a.1@, b.1@);
        if before(a.1@, b.1@) && before(b.1@, c.1@) {
            before_transitive(a.1@, b.1@, c.1@);
        }
    }

    fn comes_before(&self, other: &Self) -> (r: bool) {
        self.0.is_before(other.0) || (self.0 == other.0 && text::less(self.1, other.1))
    }

    fn same_as(&self, other: &Self) -> (r: bool) {
        self.0 == other.0 && text::same(self.1, other.1)
    }
}

/// The instances with analog rows among the first `n`, ascending.
pub open spec fn analog_instances(rows: Seq<AfRow>, n: int) -> Seq<&'static str>
    decreases n,
{
    if n <= 0 {
        Seq::empty()
    } else if rows[n - 1].af is None {
        with(analog_instances(rows, n - 1), rows[n - 1].signal.peripheral)
    } else {
        analog_instances(rows, n - 1)
    }
}

/// The analog rows of an instance among the first `n`.
pub open spec fn rows_of_instance(rows: Seq<AfRow>, inst: Seq<char>, n: int) -> Seq<AfRow>
    decreases n,
{
    if n <= 0 {
        Seq::empty()
    } else if rows[n - 1].af is None && rows[n - 1].signal.peripheral@ == inst {
        rows_of_instance(rows, inst, n - 1).push(rows[n - 1])
    } else {
        rows_of_instance(rows, inst, n - 1)
    }
}

/// The first row, from position `k` on, of the instance's positive, or negative,
/// ADC channel `m`.
pub open spec fn channel_row(rows: Seq<AfRow>, positive: bool, m: u8, k: int) -> Option<AfRow>
    decreases rows.len() - k,
{
    if k < 0 || k >= rows.len() {
        None
    } else if (if positive {
        adc_pos(rows[k].signal.role@)
    } else {
        adc_neg(rows[k].signal.role@)
    }) == Some(m) {
        Some(rows[k])
    } else {
        channel_row(rows, positive, m, k + 1)
    }
}

/// The single-ended channel of a pin: that of its first positive row from position
/// `k` on.
pub open spec fn channel_of_pin(rows: Seq<AfRow>, pin: PinId, k: int) -> Option<u8>
    decreases rows.len() - k,
{
    if k < 0 || k >= rows.len() {
        None
    } else if rows[k].pin == pin && adc_pos(rows[k].signal.role@) is Some {
        adc_pos(rows[k].signal.role@)
    } else {
        channel_of_pin(rows, pin, k + 1)
    }
}

/// Whether a row is an amplifier's output pin.
pub open spec fn is_output_row(r: AfRow) -> bool {
    r.af is None && has_prefix(r.signal.peripheral@, "OPAMP"@) && r.signal.role@ == "VOUT"@
}

/// The amplifier whose output is on the pin, by the last such row of the first `n`.
pub open spec fn output_at(rows: Seq<AfRow>, pin: PinId, n: int) -> Option<&'static str>
    decreases n,
{
    if n <= 0 {
        None
    } else if is_output_row(rows[n - 1]) && rows[n - 1].pin == pin {
        Some(rows[n - 1].signal.peripheral)
    } else {
        output_at(rows, pin, n - 1)
    }
}

/// The channels named `IN` and a number on a pin among the first `n` rows, ascending.
pub open spec fn in_slots(rows: Seq<AfRow>, pin: PinId, n: int) -> Seq<Slot>
    decreases n,
{
    if n <= 0 {
        Seq::empty()
    } else {
        let r = rows[n - 1];
        if r.pin == pin && r.af is None && has_prefix(r.signal.peripheral@, "ADC"@) && adc_in(
            r.signal.role@,
        ) is Some {
            with(in_slots(rows, pin, n - 1), (r.signal.peripheral, adc_in(r.signal.role@)->0))
        } else {
            in_slots(rows, pin, n - 1)
        }
    }
}

/// An ADC input's name, e.g. `ADC1_IN3`.
pub open spec fn slot_name(s: Slot) -> Seq<char> {
    s.0@ + "_IN"@ + decimal(s.1 as int)
}

/// Where an amplifier's output is read, by the last output row of the first `n` whose
/// pin has a channel.
pub open spec fn route_note(all: Seq<AfRow>, op: Seq<char>, n: int) -> Option<Seq<char>>
    decreases n,
{
    if n <= 0 {
        None
    } else {
        let r = all[n - 1];
        let slots = in_slots(all, r.pin, all.len() as int);
        if is_output_row(r) && r.signal.peripheral@ == op && slots.len() > 0 {
            Some(
                "VOUT "@ + pin_name(r.pin) + " → "@ + joined(
                    slots.map_values(|s: Slot| slot_name(s)),
                    ", "@,
                ) + " (internal via OPAINTOEN)"@,
            )
        } else {
            route_note(all, op, n - 1)
        }
    }
}

/// The note of a differential channel.
pub open spec fn channel_note(m: u8, hedge: bool, op: Option<&'static str>) -> Seq<char> {
    let d = decimal(m as int);
    let head = "DIFSEL["@ + d + "]=1; VINP["@ + d + "]-VINN["@ + d + "]."@;
    let body = if hedge {
        head
            + " Channel # is data-derived at a shared-pin boundary — verify against RM0440."@
    } else {
        head + " Using ch"@ + d + " consumes ch"@ + decimal(m + 1) + "'s pin."@
    };
    match op {
        Some(o) => body + "  ← "@ + o@ + " output (internal)"@,
        None => body,
    }
}

/// The differential channel `m` of an ADC: both its pins must be there, and differ.
pub open spec fn channel_end(all: Seq<AfRow>, rows: Seq<AfRow>, inst: &'static str, m: u8) -> Option<
    EndView,
> {
    match (channel_row(rows, true, m, 0), channel_row(rows, false, m, 0)) {
        (Some(p), Some(q)) => if p.pin == q.pin {
            None
        } else {
            let own = channel_of_pin(rows, q.pin, 0);
            let hedge = !(own is Some && own->0 == m + 1);
            Some(
                EndView {
                    kind: Kind::AdcDiff,
                    instance: inst,
                    plus_pin: p.pin,
                    plus_role: p.signal.role,
                    minus: Some((q.pin, q.signal.role)),
                    channel: Some(m),
                    channel_hedge: hedge,
                    external_minus: false,
                    note: channel_note(m, hedge, output_at(all, p.pin, all.len() as int)),
                },
            )
        },
        _ => None,
    }
}

/// The differential channels of an ADC below `m`, ascending.
pub open spec fn channel_ends(all: Seq<AfRow>, rows: Seq<AfRow>, inst: &'static str, m: int) -> Seq<
    EndView,
>
    decreases m,
{
    if m <= 0 {
        Seq::empty()
    } else {
        let before = channel_ends(all, rows, inst, m - 1);
        match channel_end(all, rows, inst, (m - 1) as u8) {
            Some(e) => before.push(e),
            None => before,
        }
    }
}

/// Whether a role is a plus, or minus, input of a comparator or an amplifier.
pub open spec fn is_side(amp: bool, plus: bool, role: Seq<char>) -> bool {
    if amp {
        if plus {
            primary(role, "VINP"@)
        } else {
            primary(role, "VINM"@)
        }
    } else {
        if plus {
            numbered(role, "INP"@)
        } else {
            numbered(role, "INM"@)
        }
    }
}

/// The inputs on one side among the first `n` rows, by pin and then by role.
pub open spec fn side(rows: Seq<AfRow>, amp: bool, plus: bool, n: int) -> Seq<(PinId, &'static str)>
    decreases n,
{
    if n <= 0 {
        Seq::empty()
    } else if is_side(amp, plus, rows[n - 1].signal.role@) {
        with(side(rows, amp, plus, n - 1), (rows[n - 1].pin, rows[n - 1].signal.role))
    } else {
        side(rows, amp, plus, n - 1)
    }
}

/// The first entry of each pin among the first `n`.
pub open spec fn one_per_pin(v: Seq<(PinId, &'static str)>, n: int) -> Seq<(PinId, &'static str)>
    decreases n,
{
    if n <= 0 {
        Seq::empty()
    } else if n > 1 && v[n - 2].0 == v[n - 1].0 {
        one_per_pin(v, n - 1)
    } else {
        one_per_pin(v, n - 1).push(v[n - 1])
    }
}

/// A comparator's or an amplifier's front end.
pub open spec fn side_end(
    amp: bool,
    inst: &'static str,
    p: (PinId, &'static str),
    minus: Option<(PinId, &'static str)>,
    note: Seq<char>,
) -> EndView {
    EndView {
        kind: if amp {
            Kind::OpampPlus
        } else {
            Kind::Comp
        },
        instance: inst,
        plus_pin: p.0,
        plus_role: p.1,
        minus,
        channel: None,
        channel_hedge: false,
        external_minus: minus is Some,
        note,
    }
}

/// The note of a pair of two pins.
pub open spec fn external_note(amp: bool) -> Seq<char> {
    if amp {
        "external-gain / inverting mode (- is a pin)"@
    } else {
        "true two-pin compare (INMSEL 110/111) — the exception"@
    }
}

/// The note of a plus pin whose minus is on the chip.
pub open spec fn internal_note(all: Seq<AfRow>, amp: bool, inst: Seq<char>) -> Seq<char> {
    if amp {
        match route_note(all, inst, all.len() as int) {
            Some(route) => "PGA x2..64; - on-chip; "@ + route,
            None => "PGA x2..64; - on-chip; VOUT -> ADC (OPAINTOEN)"@,
        }
    } else {
        "- = internal DAC / VREFINT threshold (INMSEL 000-101)"@
    }
}

/// The pairs of a plus pin with the first `k` minus pins, but for itself.
pub open spec fn partner_ends(
    amp: bool,
    inst: &'static str,
    p: (PinId, &'static str),
    minus: Seq<(PinId, &'static str)>,
    k: int,
) -> Seq<EndView>
    decreases k,
{
    if k <= 0 {
        Seq::empty()
    } else if minus[k - 1].0 == p.0 {
        partner_ends(amp, inst, p, minus, k - 1)
    } else {
        partner_ends(amp, inst, p, minus, k - 1).push(
            side_end(amp, inst, p, Some(minus[k - 1]), external_note(amp)),
        )
    }
}

/// The front ends of the first `k` plus pins: each alone, then with its partners.
pub open spec fn side_ends(
    amp: bool,
    inst: &'static str,
    plus: Seq<(PinId, &'static str)>,
    minus: Seq<(PinId, &'static str)>,
    note: Seq<char>,
    k: int,
) -> Seq<EndView>
    decreases k,
{
    if k <= 0 {
        Seq::empty()
    } else {
        side_ends(amp, inst, plus, minus, note, k - 1).push(
            side_end(amp, inst, plus[k - 1], None, note),
        ) + partner_ends(amp, inst, plus[k - 1], minus, minus.len() as int)
    }
}

/// One input per pin on one side.
pub open spec fn inputs(rows: Seq<AfRow>, amp: bool, plus: bool) -> Seq<(PinId, &'static str)> {
    let v = side(rows, amp, plus, rows.len() as int);
    one_per_pin(v, v.len() as int)
}

/// All front ends of a comparator or an amplifier.
pub open spec fn all_side_ends(all: Seq<AfRow>, rows: Seq<AfRow>, amp: bool, inst: &'static str) -> Seq<
    EndView,
> {
    let plus = inputs(rows, amp, true);
    side_ends(
        amp,
        inst,
        plus,
        inputs(rows, amp, false),
        internal_note(all, amp, inst@),
        plus.len() as int,
    )
}

/// All front ends of an instance.
pub open spec fn instance_ends(all: Seq<AfRow>, inst: &'static str) -> Seq<EndView> {
    let rows = rows_of_instance(all, inst@, all.len() as int);
    (if has_prefix(inst@, "ADC"@) {
        channel_ends(all, rows, inst, 256)
    } else {
        Seq::empty()
    }) + (if has_prefix(inst@, "COMP"@) {
        all_side_ends(all, rows, false, inst)
    } else {
        Seq::empty()
    }) + (if has_prefix(inst@, "OPAMP"@) {
        all_side_ends(all, rows, true, inst)
    } else {
        Seq::empty()
    })
}

/// All front ends of the first `n` instances.
pub open spec fn ends_upto(all: Seq<AfRow>, insts: Seq<&'static str>, n: int) -> Seq<EndView>
    decreases n,
{
    if n <= 0 {
        Seq::empty()
    } else {
        ends_upto(all, insts, n - 1) + instance_ends(all, insts[n - 1])
    }
}

/// The place of a front end by its pins; no minus pin comes first.
pub open spec fn pins_key(e: EndView) -> int {
    pin_rank(e.plus_pin) * 0x4000_0000 + (match e.minus {
        Some(q) => 1 + pin_rank(q.0),
        None => 0,
    })
}

/// Front ends by kind, then instance, then plus pin, then minus pin.
pub open spec fn ends_in_order(v: Seq<EndView>, insts: Seq<&'static str>) -> Seq<EndView> {
    let a = picked(v, order_of(v.map_values(|e: EndView| pins_key(e) as u64)));
    let b = picked(a, order_of(a.map_values(|e: EndView| rank_in(insts, e.instance) as u64)));
    picked(b, order_of(b.map_values(|e: EndView| kind_rank(e.kind) as u64)))
}

/// Every differential front end of a chip, in order.
pub open spec fn ends_of(raw: RawMcuData) -> Seq<EndView> {
    let all = rows_of(raw);
    let insts = analog_instances(all, all.len() as int);
    ends_in_order(ends_upto(all, insts, insts.len() as int), insts)
}

fn find_channel_row(rows: &[AfRow], positive: bool, m: u8) -> (r: Option<AfRow>)
    ensures
        r == channel_row(rows@, positive, m, 0),
{
    let mut k: usize = 0;
    while k < rows.len()
        invariant
            k <= rows@.len(),
            channel_row(rows@, positive, m, 0) == channel_row(rows@, positive, m, k as int),
        decreases rows@.len() - k,
    {
        let c: Option<u8> = if positive {
            analog_roles::adc_pos_index(rows[k].signal.role)
        } else {
            analog_roles::adc_neg_index(rows[k].signal.role)
        };
        if let Some(x) = c {
            if x == m {
                return Some(rows[k]);
            }
        }
        k += 1;
    }
    None
}

fn find_channel_of_pin(rows: &[AfRow], pin: PinId) -> (r: Option<u8>)
    ensures
        r == channel_of_pin(rows@, pin, 0),
{
    let mut k: usize = 0;
    while k < rows.len()
        invariant
            k <= rows@.len(),
            channel_of_pin(rows@, pin, 0) == channel_of_pin(rows@, pin, k as int),
        decreases rows@.len() - k,
    {
        if rows[k].pin == pin {
            let c: Option<u8> = analog_roles::adc_pos_index(rows[k].signal.role);
            if c.is_some() {
                return c;
            }
        }
        k += 1;
    }
    None
}

fn output_row(r: &AfRow) -> (b: bool)
    ensures
        b == is_output_row(*r),
{
    r.af.is_none() && text::starts_with(r.signal.peripheral, "OPAMP") && text::same(
        r.signal.role,
        "VOUT",
    )
}

fn find_output_at(rows: &[AfRow], pin: PinId) -> (r: Option<&'static str>)
    ensures
        r == output_at(rows@, pin, rows@.len() as int),
{
    let mut i: usize = rows.len();
    while i > 0
        invariant
            i <= rows@.len(),
            output_at(rows@, pin, rows@.len() as int) == output_at(rows@, pin, i as int),
        decreases i,
    {
        let r: AfRow = rows[i - 1];
        if output_row(&r) && r.pin == pin {
            return Some(r.signal.peripheral);
        }
        i -= 1;
    }
    None
}

fn collect_in_slots(rows: &[AfRow], pin: PinId) -> (r: Vec<Slot>)
    ensures
        r@ == in_slots(rows@, pin, rows@.len() as int),
{
    let mut out: Vec<Slot> = Vec::new();
    let mut i: usize = 0;
    while i < rows.len()
        invariant
            i <= rows@.len(),
            ascends(out@),
            out@ == in_slots(rows@, pin, i as int),
        decreases rows@.len() - i,
    {
        let r: AfRow = rows[i];
        if r.pin == pin && r.af.is_none() && text::starts_with(r.signal.peripheral, "ADC") {
            if let Some(c) = analog_roles::adc_in_ch(r.signal.role) {
                ranked::insert(&mut out, (r.signal.peripheral, c));
            }
        }
        i += 1;
    }
    out
}

fn write_route(pin: PinId, slots: &[Slot]) -> (r: String)
    ensures
        r@ == "VOUT "@ + pin_name(pin) + " → "@ + joined(
            slots@.map_values(|s: Slot| slot_name(s)),
            ", "@,
        ) + " (internal via OPAINTOEN)"@,
{
    let ghost f = |s: Slot| slot_name(s);
    let mut names: Vec<String> = Vec::new();
    let mut i: usize = 0;
    while i < slots.len()
        invariant
            i <= slots@.len(),
            f == (|s: Slot| slot_name(s)),
            names@.len() == i,
            forall|k: int| 0 <= k < i ==> (#[trigger] names@[k])@ == slot_name(slots@[k]),
        decreases slots@.len() - i,
    {
        let mut s: String = slots[i].0.to_owned();
        s.append("_IN");
        text::push_number(&mut s, slots[i].1 as u64);
        names.push(s);
        i += 1;
    }
    proof {
        assert(views(names@) =~= slots@.map_values(f));
    }
    let list: String = text::join(&names, ", ");
    let mut r: String = "VOUT ".to_owned();
    let name: String = pin.name();
    r.append(name.as_str());
    r.append(" → ");
    r.append(list.as_str());
    r.append(" (internal via OPAINTOEN)");
    r
}

fn find_route_note(all: &[AfRow], op: &str) -> (r: Option<String>)
    ensures
        r is Some <==> route_note(all@, op@, all@.len() as int) is Some,
        r matches Some(s) ==> s@ == route_note(all@, op@, all@.len() as int)->0,
{
    let mut i: usize = all.len();
    while i > 0
        invariant
            i <= all@.len(),
            route_note(all@, op@, all@.len() as int) == route_note(all@, op@, i as int),
        decreases i,
    {
        let r: AfRow = all[i - 1];
        if output_row(&r) && text::same(r.signal.peripheral, op) {
            let slots: Vec<Slot> = collect_in_slots(all, r.pin);
            if slots.len() > 0 {
                return Some(write_route(r.pin, &slots));
            }
        }
        i -= 1;
    }
    None
}

fn write_channel_note(m: u8, hedge: bool, op: Option<&'static str>) -> (r: String)
    ensures
        r@ == channel_note(m, hedge, op),
{
    let mut r: String = "DIFSEL[".to_owned();
    text::push_number(&mut r, m as u64);
    r.append("]=1; VINP[");
    text::push_number(&mut r, m as u64);
    r.append("]-VINN[");
    text::push_number(&mut r, m as u64);
    r.append("].");
    if hedge {
        r.append(" Channel # is data-derived at a shared-pin boundary — verify against RM0440.");
    } else {
        r.append(" Using ch");
        text::push_number(&mut r, m as u64);
        r.append(" consumes ch");
        text::push_number(&mut r, m as u64 + 1);
        r.append("'s pin.");
    }
    if let Some(o) = op {
        r.append("  ← ");
        r.append(o);
        r.append(" output (internal)");
    }
    r
}

fn make_channel_end(all: &[AfRow], rows: &[AfRow], inst: &'static str, m: u8) -> (r: Option<
    DiffFrontEnd,
>)
    ensures
        r is Some <==> channel_end(all@, rows@, inst, m) is Some,
        r matches Some(e) ==> e@ == channel_end(all@, rows@, inst, m)->0,
{
    match (find_channel_row(rows, true, m), find_channel_row(rows, false, m)) {
        (Some(p), Some(q)) => {
            if p.pin == q.pin {
                return None;
            }
            let next: u16 = m as u16 + 1;
            let hedge: bool = match find_channel_of_pin(rows, q.pin) {
                Some(own) => own as u16 != next,
                None => true,
            };
            let note: String = write_channel_note(m, hedge, find_output_at(all, p.pin));
            Some(
                DiffFrontEnd {
                    kind: Kind::AdcDiff,
                    instance: inst,
                    plus_pin: p.pin,
                    plus_role: p.signal.role,
                    minus: Some((q.pin, q.signal.role)),
                    channel: Some(m),
                    channel_hedge: hedge,
                    external_minus: false,
                    note,
                },
            )
        },
        _ => None,
    }
}

fn push_channel_ends(all: &[AfRow], rows: &[AfRow], inst: &'static str, out: &mut Vec<DiffFrontEnd>)
    ensures
        end_views(final(out)@) == end_views(old(out)@) + channel_ends(all@, rows@, inst, 256),
{
    let ghost base = end_views(out@);
    let mut m: u16 = 0;
    proof {
        assert(end_views(out@) =~= base + channel_ends(all@, rows@, inst, 0));
    }
    while m < 256
        invariant
            m <= 256,
            end_views(out@) == base + channel_ends(all@, rows@, inst, m as int),
        decreases 256 - m,
    {
        let ghost had = out@;
        if let Some(e) = make_channel_end(all, rows, inst, m as u8) {
            out.push(e);
            proof {
                assert(end_views(out@) =~= end_views(had).push(e@));
                assert(end_views(out@) =~= base + channel_ends(all@, rows@, inst, m + 1));
            }
        }
        m += 1;
    }
}

fn side_role(amp: bool, plus: bool, role: &str) -> (r: bool)
    ensures
        r == is_side(amp, plus, role@),
{
    if amp {
        if plus {
            analog_roles::opamp_plus(role)
        } else {
            analog_roles::opamp_minus(role)
        }
    } else {
        if plus {
            analog_roles::comp_plus(role)
        } else {
            analog_roles::comp_minus(role)
        }
    }
}

fn collect_inputs(rows: &[AfRow], amp: bool, plus: bool) -> (r: Vec<(PinId, &'static str)>)
    ensures
        r@ == inputs(rows@, amp, plus),
{
    let mut v: Vec<(PinId, &'static str)> = Vec::new();
    let mut i: usize = 0;
    while i < rows.len()
        invariant
            i <= rows@.len(),
            ascends(v@),
            v@ == side(rows@, amp, plus, i as int),
        decreases rows@.len() - i,
    {
        let r: AfRow = rows[i];
        if side_role(amp, plus, r.signal.role) {
            ranked::insert(&mut v, (r.pin, r.signal.role));
        }
        i += 1;
    }
    let mut out: Vec<(PinId, &'static str)> = Vec::new();
    let mut k: usize = 0;
    while k < v.len()
        invariant
            k <= v@.len(),
            out@ == one_per_pin(v@, k as int),
        decreases v@.len() - k,
    {
        if k == 0 || v[k - 1].0 != v[k].0 {
            out.push(v[k]);
        }
        k += 1;
    }
    out
}

fn make_side_end(
    amp: bool,
    inst: &'static str,
    p: (PinId, &'static str),
    minus: Option<(PinId, &'static str)>,
    note: &str,
) -> (r: DiffFrontEnd)
    ensures
        r@ == side_end(amp, inst, p, minus, note@),
{
    DiffFrontEnd {
        kind: if amp {
            Kind::OpampPlus
        } else {
            Kind::Comp
        },
        instance: inst,
        plus_pin: p.0,
        plus_role: p.1,
        minus,
        channel: None,
        channel_hedge: false,
        external_minus: minus.is_some(),
        note: note.to_owned(),
    }
}

fn push_partner_ends(
    amp: bool,
    inst: &'static str,
    p: (PinId, &'static str),
    minus: &[(PinId, &'static str)],
    out: &mut Vec<DiffFrontEnd>,
)
    ensures
        end_views(final(out)@) == end_views(old(out)@) + partner_ends(
            amp,
            inst,
            p,
            minus@,
            minus@.len() as int,
        ),
{
    let ghost base = end_views(out@);
    let note: &'static str = if amp {
        "external-gain / inverting mode (- is a pin)"
    } else {
        "true two-pin compare (INMSEL 110/111) — the exception"
    };
    let mut k: usize = 0;
    proof {
        assert(end_views(out@) =~= base + partner_ends(amp, inst, p, minus@, 0));
    }
    while k < minus.len()
        invariant
            k <= minus@.len(),
            note@ == external_note(amp),
            end_views(out@) == base + partner_ends(amp, inst, p, minus@, k as int),
        decreases minus@.len() - k,
    {
        let ghost had = out@;
        if minus[k].0 != p.0 {
            let e: DiffFrontEnd = make_side_end(amp, inst, p, Some(minus[k]), note);
            out.push(e);
            proof {
                assert(end_views(out@) =~= end_views(had).push(e@));
                assert(end_views(out@) =~= base + partner_ends(amp, inst, p, minus@, k + 1));
            }
        }
        k += 1;
    }
}

fn push_side_ends(
    all: &[AfRow],
    rows: &[AfRow],
    amp: bool,
    inst: &'static str,
    out: &mut Vec<DiffFrontEnd>,
)
    ensures
        end_views(final(out)@) == end_views(old(out)@) + all_side_ends(all@, rows@, amp, inst),
{
    let ghost base = end_views(out@);
    let plus: Vec<(PinId, &'static str)> = collect_inputs(rows, amp, true);
    let minus: Vec<(PinId, &'static str)> = collect_inputs(rows, amp, false);
    let note: String = if amp {
        match find_route_note(all, inst) {
            Some(route) => {
                let mut s: String = "PGA x2..64; - on-chip; ".to_owned();
                s.append(route.as_str());
                s
            },
            None => "PGA x2..64; - on-chip; VOUT -> ADC (OPAINTOEN)".to_owned(),
        }
    } else {
        "- = internal DAC / VREFINT threshold (INMSEL 000-101)".to_owned()
    };
    let mut k: usize = 0;
    proof {
        assert(end_views(out@) =~= base + side_ends(amp, inst, plus@, minus@, note@, 0));
    }
    while k < plus.len()
        invariant
            k <= plus@.len(),
            end_views(out@) == base + side_ends(amp, inst, plus@, minus@, note@, k as int),
        decreases plus@.len() - k,
    {
        let ghost had = out@;
        let e: DiffFrontEnd = make_side_end(amp, inst, plus[k], None, note.as_str());
        out.push(e);
        proof {
            assert(end_views(out@) =~= end_views(had).push(e@));
        }
        push_partner_ends(amp, inst, plus[k], &minus, out);
        proof {
            assert(end_views(out@) =~= base + side_ends(amp, inst, plus@, minus@, note@, k + 1));
        }
        k += 1;
    }
}

fn push_instance_ends(all: &[AfRow], inst: &'static str, out: &mut Vec<DiffFrontEnd>)
    ensures
        end_views(final(out)@) == end_views(old(out)@) + instance_ends(all@, inst),
{
    let ghost base = end_views(out@);
    let mut rows: Vec<AfRow> = Vec::new();
    let mut i: usize = 0;
    while i < all.len()
        invariant
            i <= all@.len(),
            rows@ == rows_of_instance(all@, inst@, i as int),
        decreases all@.len() - i,
    {
        let r: AfRow = all[i];
        if r.af.is_none() && text::same(r.signal.peripheral, inst) {
            rows.push(r);
        }
        i += 1;
    }
    if text::starts_with(inst, "ADC") {
        push_channel_ends(all, &rows, inst, out);
    }
    if text::starts_with(inst, "COMP") {
        push_side_ends(all, &rows, false, inst, out);
    }
    if text::starts_with(inst, "OPAMP") {
        push_side_ends(all, &rows, true, inst, out);
    }
    proof {
        assert(end_views(out@) =~= base + instance_ends(all@, inst));
    }
}

fn pick_ends(v: &[DiffFrontEnd], keys: &[u64]) -> (r: Vec<DiffFrontEnd>)
    requires
        v@.len() == keys@.len(),
    ensures
        end_views(r@) == picked(end_views(v@), order_of(keys@)),
        r@.len() == v@.len(),
{
    let o: Vec<usize> = order::stable_order(keys);
    let mut out: Vec<DiffFrontEnd> = Vec::new();
    let mut k: usize = 0;
    while k < o.len()
        invariant
            k <= o@.len(),
            o@.len() == v@.len(),
            order::is_stable_order(keys@, o@, v@.len() as int),
            out@.len() == k,
            forall|j: int| 0 <= j < k ==> (#[trigger] out@[j])@ == v@[o@[j] as int]@,
        decreases o@.len() - k,
    {
        assert(o@[k as int] < v@.len());
        out.push(v[o[k]].copy());
        k += 1;
    }
    proof {
        assert(end_views(out@) =~= picked(end_views(v@), o@));
    }
    out
}

proof fn rank_is_small(p: PinId)
    ensures
        0 <= pin_rank(p) < 0x2000_0000,
{
    port_is_small(p.port);
}

proof fn port_is_small(c: char)
    ensures
        0 <= c as u32 as int <= 0x10ffff,
{
}

fn key_of_pins(e: &DiffFrontEnd) -> (r: u64)
    ensures
        r == pins_key(e@),
{
    proof {
        rank_is_small(e.plus_pin);
        if let Some(q) = e.minus {
            rank_is_small(q.0);
        }
    }
    let low: u64 = match e.minus {
        Some(q) => 1 + q.0.rank(),
        None => 0,
    };
    e.plus_pin.rank() * 0x4000_0000 + low
}

fn sort_ends(v: &[DiffFrontEnd], insts: &[&'static str]) -> (r: Vec<DiffFrontEnd>)
    requires
        ascends(insts@),
    ensures
        end_views(r@) == ends_in_order(end_views(v@), insts@),
{
    let ghost f1 = |e: EndView| pins_key(e) as u64;
    let mut k1: Vec<u64> = Vec::new();
    let mut i: usize = 0;
    while i < v.len()
        invariant
            i <= v@.len(),
            f1 == (|e: EndView| pins_key(e) as u64),
            k1@ =~= end_views(v@).map_values(f1).take(i as int),
        decreases v@.len() - i,
    {
        k1.push(key_of_pins(&v[i]));
        i += 1;
    }
    proof {
        assert(k1@ =~= end_views(v@).map_values(f1));
    }
    let a: Vec<DiffFrontEnd> = pick_ends(v, &k1);
    let ghost f2 = |e: EndView| rank_in(insts@, e.instance) as u64;
    let mut k2: Vec<u64> = Vec::new();
    let mut j: usize = 0;
    while j < a.len()
        invariant
            j <= a@.len(),
            ascends(insts@),
            f2 == (|e: EndView| rank_in(insts@, e.instance) as u64),
            k2@ =~= end_views(a@).map_values(f2).take(j as int),
        decreases a@.len() - j,
    {
        k2.push(ranked::rank(insts, &a[j].instance) as u64);
        j += 1;
    }
    proof {
        assert(k2@ =~= end_views(a@).map_values(f2));
    }
    let b: Vec<DiffFrontEnd> = pick_ends(&a, &k2);
    let ghost f3 = |e: EndView| kind_rank(e.kind) as u64;
    let mut k3: Vec<u64> = Vec::new();
    let mut m: usize = 0;
    while m < b.len()
        invariant
            m <= b@.len(),
            f3 == (|e: EndView| kind_rank(e.kind) as u64),
            k3@ =~= end_views(b@).map_values(f3).take(m as int),
        decreases b@.len() - m,
    {
        let key: u64 = match b[m].kind {
            Kind::AdcDiff => 0,
            Kind::Comp => 1,
            Kind::OpampPlus => 2,
        };
        k3.push(key);
        m += 1;
    }
    proof {
        assert(k3@ =~= end_views(b@).map_values(f3));
    }
    pick_ends(&b, &k3)
}

/// Every differential front end of a chip, by kind, instance and pins.
pub fn enumerate(raw: &RawMcuData) -> (r: Vec<DiffFrontEnd>)
    ensures
        end_views(r@) == ends_of(*raw),
{
    let all: Vec<AfRow> = mcu_pinout::af_rows(raw);
    let mut insts: Vec<&'static str> = Vec::new();
    let mut i: usize = 0;
    while i < all.len()
        invariant
            i <= all@.len(),
            ascends(insts@),
            insts@ == analog_instances(all@, i as int),
        decreases all@.len() - i,
    {
        if all[i].af.is_none() {
            ranked::insert(&mut insts, all[i].signal.peripheral);
        }
        i += 1;
    }
    let mut out: Vec<DiffFrontEnd> = Vec::new();
    let mut k: usize = 0;
    proof {
        assert(end_views(out@) =~= ends_upto(all@, insts@, 0));
    }
    while k < insts.len()
        invariant
            k <= insts@.len(),
            end_views(out@) == ends_upto(all@, insts@, k as int),
        decreases insts@.len() - k,
    {
        push_instance_ends(&all, insts[k], &mut out);
        k += 1;
    }
    sort_ends(&out, &insts)
}

/// What the user filters by.
#[derive(Debug)]
pub struct AnalogFilter {
    pub kind: Option<Kind>,
    pub plus_pin: Option<PinId>,
    pub query: String,
    /// Also the pairs whose usual minus is on the chip.
    pub advanced: bool,
    pub display: Display,
}

impl Default for AnalogFilter {
    fn default() -> (r: Self)
        ensures
            r.kind is None,
            r.plus_pin is None,
            r.query@ == Seq::<char>::empty(),
            !r.advanced,
            r.display == Display::Table,
    {
        AnalogFilter {
            kind: None,
            plus_pin: None,
            query: String::new(),
            advanced: false,
            display: Display::Table,
        }
    }
}

/// The words of a front end that a query looks through.
pub open spec fn searched(e: EndView) -> Seq<char> {
    lower(
        e.instance@ + " "@ + pin_name(e.plus_pin) + " "@ + e.plus_role@ + " "@ + (match e.minus {
            Some(q) => pin_name(q.0) + " "@ + q.1@,
            None => Seq::<char>::empty(),
        }),
    )
}

/// Whether a front end passes the filter's kind, its pairs of two pins, and the query.
pub open spec fn passes(
    e: EndView,
    kind: Option<Kind>,
    advanced: bool,
    q: Seq<char>,
) -> bool {
    &&& kind is Some ==> e.kind == kind->0
    &&& e.external_minus ==> advanced
    &&& q.len() > 0 ==> has_part(searched(e), q)
}

/// Whether a front end passes the filter, but for the chosen plus pin.
pub fn passes_base(f: &DiffFrontEnd, filter: &AnalogFilter, q: &str) -> (r: bool)
    ensures
        r == passes(f@, filter.kind, filter.advanced, q@),
{
    if let Some(k) = filter.kind {
        if f.kind != k {
            return false;
        }
    }
    if !filter.advanced && f.external_minus {
        return false;
    }
    if text::chars_of(q).len() > 0 {
        let mut hay: String = f.instance.to_owned();
        hay.append(" ");
        let plus: String = f.plus_pin.name();
        hay.append(plus.as_str());
        hay.append(" ");
        hay.append(f.plus_role);
        hay.append(" ");
        if let Some((p, role)) = f.minus {
            let minus: String = p.name();
            let mut tail: String = String::new();
            tail.append(minus.as_str());
            tail.append(" ");
            tail.append(role);
            proof {
                assert(tail@ =~= pin_name(p) + " "@ + role@);
            }
            hay.append(tail.as_str());
        }
        proof {
            assert(lower(hay@) =~= searched(f@));
        }
        let hay_lower: String = text::to_lower(hay.as_str());
        if !text::contains(hay_lower.as_str(), q) {
            return false;
        }
    }
    true
}

/// The front ends of the chip that was asked for last.
pub struct EnumCache {
    chip: Option<&'static RawMcuData>,
    ends: Vec<DiffFrontEnd>,
}

impl EnumCache {
    /// What is kept is of the kept chip.
    #[verifier::type_invariant]
    spec fn wf(&self) -> bool {
        self.chip matches Some(c) ==> end_views(self.ends@) == ends_of(*c)
    }

    /// The name of the chip whose front ends are kept.
    pub closed spec fn kept(&self) -> Option<Seq<char>> {
        match self.chip {
            Some(c) => Some(c.name@),
            None => None,
        }
    }

    /// The name of the chip whose front ends are kept.
    pub fn key(&self) -> (r: Option<&'static str>)
        ensures
            r is Some <==> self.kept() is Some,
            r matches Some(k) ==> self.kept() == Some(k@),
    {
        match self.chip {
            Some(c) => Some(c.name),
            None => None,
        }
    }

    /// Nothing kept yet, for a first chip.
    pub fn new() -> (r: EnumCache)
        ensures
            r.kept() is None,
    {
        EnumCache { chip: None, ends: Vec::new() }
    }

    /// The chip's front ends, found again only when its name or its pin table reads
    /// otherwise than last time.
    pub fn frontends(&mut self, raw: &'static RawMcuData) -> (r: &[DiffFrontEnd])
        ensures
            final(self).kept() == Some(raw.name@),
            same_ends(end_views(r@), ends_of(*raw)),
    {
        let known: bool = match self.chip {
            Some(c) => mcu_raw::are_same_chip(c, raw),
            None => false,
        };
        if !known {
            let ends: Vec<DiffFrontEnd> = enumerate(raw);
            *self = EnumCache { chip: Some(raw), ends };
        }
        proof {
            use_type_invariant(&*self);
            let c = *self.chip->0;
            assert(self.ends@.len() == self.ends.len());
            assert(end_views(self.ends@) == ends_of(c));
            assert(same_chip(c, *raw));
            same_chips_have_same_ends(c, *raw);
        }
        self.ends.as_slice()
    }
}

impl Default for EnumCache {
    fn default() -> (r: Self)
        ensures
            r.kept() is None,
    {
        EnumCache::new()
    }
}

} // verus!
