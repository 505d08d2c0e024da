//! What the converter editor offers and says.

use vstd::prelude::*;

use crate::c531_design;
use crate::c531_design::bit_set;
use crate::c531_design::comp_numbered;
use crate::c531_design::dac_numbered;
use crate::c531_design::BreakInput;
use crate::c531_design::Ocp;
use crate::c531_design::Problem;
use crate::g474;
use crate::g474::adc_nr;
use crate::g474::all_adcs_seq;
use crate::g474::comp_name;
use crate::g474::comp_nr;
use crate::g474::dac_name;
use crate::g474::tim_nr;
use crate::g474::AdcInstance;
use crate::g474::CompId;
use crate::g474::DacId;
use crate::g474::TimId;
use crate::mcu::break_comps;
use crate::mcu::threshold_dacs;
use crate::mcu::ChipFabric;
use crate::mcu::TimerInstance;
use crate::mcu::TimerKind;
use crate::order;
use crate::order::sorted_bytes;
use crate::session;
use crate::session::tim_numbered;
use crate::text;
use crate::text::decimal;
use crate::texts::copy_text;

verus! {

/// The ADC with a number, from place `k` on.
pub open spec fn adc_numbered(n: u8, k: int) -> Option<AdcInstance>
    decreases all_adcs_seq().len() - k,
{
    if k < 0 || k >= all_adcs_seq().len() {
        None
    } else if adc_nr(all_adcs_seq()[k]) == n {
        Some(all_adcs_seq()[k])
    } else {
        adc_numbered(n, k + 1)
    }
}

/// The ADC with a number.
pub fn adc_from_num(n: u8) -> (r: Option<AdcInstance>)
    ensures
        r == adc_numbered(n, 0),
{
    let all: Vec<AdcInstance> = g474::all_adcs();
    let mut i: usize = 0;
    while i < all.len()
        invariant
            i <= all@.len(),
            all@ == all_adcs_seq(),
            adc_numbered(n, 0) == adc_numbered(n, i as int),
        decreases all@.len() - i,
    {
        if all[i].number() == n {
            return Some(all[i]);
        }
        i += 1;
    }
    None
}

/// The advanced timers among the first `n`.
pub open spec fn advanced_upto(timers: Seq<TimerInstance>, n: int) -> Seq<TimId>
    decreases n,
{
    if n <= 0 {
        Seq::empty()
    } else if timers[n - 1].kind == TimerKind::Advanced && tim_numbered(
        timers[n - 1].number,
        0,
    ) is Some {
        advanced_upto(timers, n - 1).push(tim_numbered(timers[n - 1].number, 0)->0)
    } else {
        advanced_upto(timers, n - 1)
    }
}

/// The advanced timers of a chip: those with complementary outputs, dead time and break
/// inputs.
pub fn advanced_timers(timers: &[TimerInstance]) -> (r: Vec<TimId>)
    ensures
        r@ == advanced_upto(timers@, timers@.len() as int),
{
    let mut out: Vec<TimId> = Vec::new();
    let mut i: usize = 0;
    while i < timers.len()
        invariant
            i <= timers@.len(),
            out@ == advanced_upto(timers@, i as int),
        decreases timers@.len() - i,
    {
        if timers[i].kind == TimerKind::Advanced {
            if let Some(t) = session::tim_from_num(timers[i].number) {
                out.push(t);
            }
        }
        i += 1;
    }
    out
}

/// The first numbers with those of the first `n` more that are not there yet.
pub open spec fn merged(a: Seq<u8>, b: Seq<u8>, n: int) -> Seq<u8>
    decreases n,
{
    if n <= 0 {
        a
    } else {
        let had = merged(a, b, n - 1);
        if had.contains(b[n - 1]) {
            had
        } else {
            had.push(b[n - 1])
        }
    }
}

/// The comparators of the first `n` numbers.
pub open spec fn comps_numbered(v: Seq<u8>, n: int) -> Seq<CompId>
    decreases n,
{
    if n <= 0 {
        Seq::empty()
    } else {
        match comp_numbered(v[n - 1]) {
            Some(c) => comps_numbered(v, n - 1).push(c),
            None => comps_numbered(v, n - 1),
        }
    }
}

/// The comparators that reach a break input of a timer, by number.
pub open spec fn reaching(rows: Seq<(u8, u8, u8)>, tim: TimId) -> Seq<CompId> {
    let n = rows.len() as int;
    let one = break_comps(rows, tim_nr(tim), 1, n);
    let two = break_comps(rows, tim_nr(tim), 2, n);
    let v = sorted_bytes(merged(one, two, two.len() as int));
    comps_numbered(v, v.len() as int)
}

fn has_byte(v: &[u8], b: u8) -> (r: bool)
    ensures
        r == v@.contains(b),
{
    let mut i: usize = 0;
    while i < v.len()
        invariant
            i <= v@.len(),
            forall|k: int| 0 <= k < i ==> v@[k] != b,
        decreases v@.len() - i,
    {
        if v[i] == b {
            return true;
        }
        i += 1;
    }
    false
}

/// The comparators that reach a break input of a timer on a chip.
pub fn comps_reaching_break(fabric: Option<&ChipFabric>, tim: TimId) -> (r: Vec<CompId>)
    ensures
        r@ == (match fabric {
            Some(f) => reaching(f.comp_to_tim_break@, tim),
            None => Seq::empty(),
        }),
{
    match fabric {
        None => Vec::new(),
        Some(f) => {
            let one: Vec<u8> = f.comps_for_tim_break(tim.number(), 1);
            let two: Vec<u8> = f.comps_for_tim_break(tim.number(), 2);
            let ghost start = one@;
            let mut all: Vec<u8> = one;
            let mut i: usize = 0;
            while i < two.len()
                invariant
                    i <= two@.len(),
                    all@ == merged(start, two@, i as int),
                decreases two@.len() - i,
            {
                if !has_byte(&all, two[i]) {
                    all.push(two[i]);
                }
                i += 1;
            }
            let sorted: Vec<u8> = order::sort_bytes(&all);
            let mut out: Vec<CompId> = Vec::new();
            let mut j: usize = 0;
            while j < sorted.len()
                invariant
                    j <= sorted@.len(),
                    out@ == comps_numbered(sorted@, j as int),
                decreases sorted@.len() - j,
            {
                if let Some(c) = c531_design::comp_from_num(sorted[j]) {
                    out.push(c);
                }
                j += 1;
            }
            out
        },
    }
}

/// Whether a comparator reaches a break input.
pub open spec fn reaches(rows: Seq<(u8, u8, u8)>, tim: TimId, comp: CompId, input: u8) -> bool {
    break_comps(rows, tim_nr(tim), input, rows.len() as int).contains(comp_nr(comp))
}

/// The break inputs of a timer that a comparator reaches on a chip.
pub fn breaks_for_comp(fabric: Option<&ChipFabric>, tim: TimId, comp: CompId) -> (r: Vec<BreakInput>)
    ensures
        fabric is None ==> r@.len() == 0,
        fabric matches Some(f) ==> r@ == (if reaches(f.comp_to_tim_break@, tim, comp, 1) {
            seq![1u8]
        } else {
            Seq::empty()
        }) + (if reaches(f.comp_to_tim_break@, tim, comp, 2) {
            seq![2u8]
        } else {
            Seq::empty()
        }),
{
    let mut out: Vec<BreakInput> = Vec::new();
    if let Some(f) = fabric {
        let n: u8 = c531_design::comp_num(comp);
        let one: Vec<u8> = f.comps_for_tim_break(tim.number(), 1);
        let two: Vec<u8> = f.comps_for_tim_break(tim.number(), 2);
        if has_byte(&one, n) {
            out.push(1);
        }
        if has_byte(&two, n) {
            out.push(2);
        }
        proof {
            assert(out@ =~= (if reaches(f.comp_to_tim_break@, tim, comp, 1) {
                seq![1u8]
            } else {
                Seq::empty()
            }) + (if reaches(f.comp_to_tim_break@, tim, comp, 2) {
                seq![2u8]
            } else {
                Seq::empty()
            }));
        }
    }
    out
}

/// The DAC channels of the first `n` pairs.
pub open spec fn dacs_numbered(v: Seq<(u8, u8)>, n: int) -> Seq<DacId>
    decreases n,
{
    if n <= 0 {
        Seq::empty()
    } else {
        match dac_numbered(v[n - 1].0, v[n - 1].1) {
            Some(d) => dacs_numbered(v, n - 1).push(d),
            None => dacs_numbered(v, n - 1),
        }
    }
}

/// The DAC channels that can set a comparator's threshold on a chip.
pub fn threshold_sources(fabric: Option<&ChipFabric>, comp: CompId) -> (r: Vec<DacId>)
    ensures
        r@ == (match fabric {
            Some(f) => {
                let v = threshold_dacs(f.dac_to_comp@, comp_nr(comp), f.dac_to_comp@.len() as int);
                dacs_numbered(v, v.len() as int)
            },
            None => Seq::empty(),
        }),
{
    let mut out: Vec<DacId> = Vec::new();
    if let Some(f) = fabric {
        let v: Vec<(u8, u8)> = f.dac_threshold_sources_for_comp(c531_design::comp_num(comp));
        let mut i: usize = 0;
        while i < v.len()
            invariant
                i <= v@.len(),
                out@ == dacs_numbered(v@, i as int),
            decreases v@.len() - i,
        {
            if let Some(d) = c531_design::dac_from_inst_ch(v[i].0, v[i].1) {
                out.push(d);
            }
            i += 1;
        }
    }
    out
}

/// A break input, for the user.
pub open spec fn break_text(b: BreakInput) -> Seq<char> {
    if b == 1 {
        "BRK"@
    } else if b == 2 {
        "BRK2"@
    } else {
        "BRK"@ + decimal(b as int)
    }
}

/// A break input, for the user.
pub fn break_label(b: BreakInput) -> (r: String)
    ensures
        r@ == break_text(b),
{
    if b == 1 {
        copy_text("BRK")
    } else if b == 2 {
        copy_text("BRK2")
    } else {
        let mut s: String = copy_text("BRK");
        let n: String = text::number(b as u64);
        s.append(n.as_str());
        s
    }
}

/// A leg, counted from one.
pub open spec fn leg_text(leg: usize) -> Seq<char> {
    decimal(leg + 1)
}

/// Two legs, counted from one.
pub open spec fn legs_text(legs: (usize, usize)) -> Seq<char> {
    "Legs "@ + leg_text(legs.0) + " and "@ + leg_text(legs.1)
}

/// A problem, for the user.
pub open spec fn problem_text(p: Problem) -> Seq<char> {
    match p {
        Problem::OcpUnroutable { leg, comp, tim, break_input } => "Leg "@ + leg_text(leg) + ": "@
            + comp_name(comp) + " can't drive TIM"@ + decimal(tim_nr(tim) as int) + " "@
            + break_text(break_input) + " on this chip"@,
        Problem::ThresholdUnroutable { leg, dac, comp } => "Leg "@ + leg_text(leg) + ": "@
            + dac_name(dac) + " can't set "@ + comp_name(comp) + "'s threshold"@,
        Problem::TimerConflict { legs, tim } => legs_text(legs) + " both claim TIM"@ + decimal(
            tim_nr(tim) as int,
        ),
        Problem::CompConflict { legs, comp } => legs_text(legs) + " both route OCP through "@
            + comp_name(comp),
        Problem::DacConflict { legs, dac } => legs_text(legs) + " both use "@ + dac_name(dac)
            + " as threshold"@,
        Problem::AdcConflict { legs, adc, channel } => legs_text(legs) + " both sense ADC"@
            + decimal(adc_nr(adc) as int) + " IN"@ + decimal(channel as int),
        Problem::SenseChannelUnavailable { leg, adc, channel } => "Leg "@ + leg_text(leg)
            + ": ADC"@ + decimal(adc_nr(adc) as int) + " IN"@ + decimal(channel as int)
            + " is on no pin of this chip"@,
    }
}

/// Whether the legs of a problem can be counted from one.
pub open spec fn legs_count_up(p: Problem) -> bool {
    match p {
        Problem::OcpUnroutable { leg, .. } => leg < usize::MAX,
        Problem::ThresholdUnroutable { leg, .. } => leg < usize::MAX,
        Problem::TimerConflict { legs, .. } => legs.0 < usize::MAX && legs.1 < usize::MAX,
        Problem::CompConflict { legs, .. } => legs.0 < usize::MAX && legs.1 < usize::MAX,
        Problem::DacConflict { legs, .. } => legs.0 < usize::MAX && legs.1 < usize::MAX,
        Problem::AdcConflict { legs, .. } => legs.0 < usize::MAX && legs.1 < usize::MAX,
        Problem::SenseChannelUnavailable { leg, .. } => leg < usize::MAX,
    }
}

fn push_count(s: &mut String, n: u64)
    ensures
        final(s)@ == old(s)@ + decimal(n as int),
{
    let t: String = text::number(n);
    s.append(t.as_str());
}

fn start_leg(leg: usize) -> (r: String)
    requires
        leg < usize::MAX,
    ensures
        r@ == "Leg "@ + leg_text(leg),
{
    let mut s: String = copy_text("Leg ");
    push_count(&mut s, (leg + 1) as u64);
    s
}

fn start_legs(legs: (usize, usize)) -> (r: String)
    requires
        legs.0 < usize::MAX,
        legs.1 < usize::MAX,
    ensures
        r@ == legs_text(legs),
{
    let mut s: String = copy_text("Legs ");
    push_count(&mut s, (legs.0 + 1) as u64);
    s.append(" and ");
    push_count(&mut s, (legs.1 + 1) as u64);
    s
}

/// A problem, for the user.
pub fn describe_problem(p: &Problem) -> (r: String)
    requires
        legs_count_up(*p),
    ensures
        r@ == problem_text(*p),
{
    match *p {
        Problem::OcpUnroutable { leg, comp, tim, break_input } => {
            let mut s: String = start_leg(leg);
            let b: String = break_label(break_input);
            s.append(": ");
            s.append(comp.id());
            s.append(" can't drive TIM");
            push_count(&mut s, tim.number() as u64);
            s.append(" ");
            s.append(b.as_str());
            s.append(" on this chip");
            s
        },
        Problem::ThresholdUnroutable { leg, dac, comp } => {
            let mut s: String = start_leg(leg);
            s.append(": ");
            s.append(dac.id());
            s.append(" can't set ");
            s.append(comp.id());
            s.append("'s threshold");
            s
        },
        Problem::TimerConflict { legs, tim } => {
            let mut s: String = start_legs(legs);
            s.append(" both claim TIM");
            push_count(&mut s, tim.number() as u64);
            s
        },
        Problem::CompConflict { legs, comp } => {
            let mut s: String = start_legs(legs);
            s.append(" both route OCP through ");
            s.append(comp.id());
            s
        },
        Problem::DacConflict { legs, dac } => {
            let mut s: String = start_legs(legs);
            s.append(" both use ");
            s.append(dac.id());
            s.append(" as threshold");
            s
        },
        Problem::AdcConflict { legs, adc, channel } => {
            let mut s: String = start_legs(legs);
            s.append(" both sense ADC");
            push_count(&mut s, adc.number() as u64);
            s.append(" IN");
            push_count(&mut s, channel as u64);
            s
        },
        Problem::SenseChannelUnavailable { leg, adc, channel } => {
            let mut s: String = start_leg(leg);
            s.append(": ADC");
            push_count(&mut s, adc.number() as u64);
            s.append(" IN");
            push_count(&mut s, channel as u64);
            s.append(" is on no pin of this chip");
            s
        },
    }
}

/// A trip as it is first switched on: by the first comparator that reaches the timer.
pub fn fresh_trip(fabric: Option<&ChipFabric>, tim: TimId) -> (r: Ocp)
    ensures
        r.break_input == 1,
        r.threshold_dac is None,
        r.comp == (match fabric {
            Some(f) => if reaching(f.comp_to_tim_break@, tim).len() > 0 {
                reaching(f.comp_to_tim_break@, tim)[0]
            } else {
                CompId::Comp1
            },
            None => CompId::Comp1,
        }),
{
    let comps: Vec<CompId> = comps_reaching_break(fabric, tim);
    Ocp {
        comp: if comps.len() > 0 {
            comps[0]
        } else {
            CompId::Comp1
        },
        break_input: 1,
        threshold_dac: None,
    }
}

/// The break inputs to choose from: those that the comparator reaches, or both where it
/// reaches none.
pub fn offered_breaks(fabric: Option<&ChipFabric>, tim: TimId, comp: CompId) -> (r: Vec<BreakInput>)
    ensures
        fabric is None ==> r@ == seq![1u8, 2u8],
        fabric matches Some(f) ==> {
            let one = reaches(f.comp_to_tim_break@, tim, comp, 1);
            let two = reaches(f.comp_to_tim_break@, tim, comp, 2);
            r@ == (if one && !two {
                seq![1u8]
            } else if two && !one {
                seq![2u8]
            } else {
                seq![1u8, 2u8]
            })
        },
{
    let r: Vec<BreakInput> = breaks_for_comp(fabric, tim, comp);
    if r.len() == 0 {
        vec![1, 2]
    } else {
        r
    }
}

proof fn flipped(mask: u8, step: u8, r: u8)
    by (bit_vector)
    requires
        step == 1 || step == 2 || step == 4 || step == 8,
        (mask / step) % 2 == 0 ==> r == mask + step,
        (mask / step) % 2 == 1 ==> r == mask - step,
    ensures
        (r / step) % 2 != (mask / step) % 2,
        step != 1 ==> r % 2 == mask % 2,
        step != 2 ==> (r / 2) % 2 == (mask / 2) % 2,
        step != 4 ==> (r / 4) % 2 == (mask / 4) % 2,
        step != 8 ==> (r / 8) % 2 == (mask / 8) % 2,
        r / 16 == mask / 16,
{
}

proof fn room_for(mask: u8, step: u8)
    by (bit_vector)
    requires
        step == 1 || step == 2 || step == 4 || step == 8,
    ensures
        (mask / step) % 2 == 0 ==> mask + step <= 255,
        (mask / step) % 2 == 1 ==> mask >= step,
{
}

/// A channel mask with a channel switched on or off.
pub fn set_channel(mask: u8, i: u8, on: bool) -> (r: u8)
    requires
        i < 4,
    ensures
        bit_set(r, i as int) == on,
        forall|j: int| 0 <= j < 4 && j != i ==> #[trigger] bit_set(r, j) == bit_set(mask, j),
        r / 16 == mask / 16,
{
    let step: u8 = if i == 0 {
        1
    } else if i == 1 {
        2
    } else if i == 2 {
        4
    } else {
        8
    };
    proof {
        room_for(mask, step);
    }
    let r: u8 = if (mask / step % 2 == 1) == on {
        mask
    } else if on {
        mask + step
    } else {
        mask - step
    };
    proof {
        if r != mask {
            flipped(mask, step, r);
        }
        assert forall|j: int| 0 <= j < 4 && j != i implies #[trigger] bit_set(r, j) == bit_set(
            mask,
            j,
        ) by {
            if r != mask {
                assert(j == 0 || j == 1 || j == 2 || j == 3);
            }
        }
    }
    r
}

} // verus!
