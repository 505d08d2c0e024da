//! The channels that a conversion can be on, by ADC, fast channels first.

use vstd::prelude::*;

use crate::g474;
use crate::g474::all_adcs_seq;
use crate::g474::AdcInstance;
use crate::mcu_pinout::pin_name;
use crate::mcu_pinout::OwnedSignal;
use crate::mcu_pinout::PinId;
use crate::mcu_raw::RawMcuData;
use crate::order;
use crate::order::is_stable_order;
use crate::order::order_of;
use crate::order::order_of_is_stable;
use crate::order::picked;
use crate::pinout;
use crate::pinout::pins_carrying;
use crate::pinout::signal_key;
use crate::pinout::Signal;
use crate::requirements::first_pin;
use crate::requirements::Assignment;
use crate::text;
use crate::text::decimal;

verus! {

/// Whether an assignment is a conversion on an ADC.
pub open spec fn is_on(a: Assignment, adc: AdcInstance) -> bool {
    match a {
        Assignment::AdcConversion { adc: x, .. } => x == adc,
        _ => false,
    }
}

/// The channel of a conversion.
pub open spec fn channel_of(a: Assignment) -> u8 {
    match a {
        Assignment::AdcConversion { channel, .. } => channel,
        _ => 0,
    }
}

/// The channels of the ADC among the first `n` candidates.
pub open spec fn on_adc(v: Seq<Assignment>, adc: AdcInstance, n: int) -> Seq<Assignment>
    decreases n,
{
    if n <= 0 {
        Seq::empty()
    } else if is_on(v[n - 1], adc) {
        on_adc(v, adc, n - 1).push(v[n - 1])
    } else {
        on_adc(v, adc, n - 1)
    }
}

/// The place of a channel: fast ones first, then by number.
pub open spec fn place(channel: u8) -> u64 {
    if 1 <= channel <= 5 {
        channel as u64
    } else {
        (256 + channel) as u64
    }
}

/// The places of conversions.
pub open spec fn places(v: Seq<Assignment>) -> Seq<u64> {
    v.map_values(|a: Assignment| place(channel_of(a)))
}

/// The channels of an ADC, in order.
pub open spec fn ordered_on(v: Seq<Assignment>, adc: AdcInstance) -> Seq<Assignment> {
    let group = on_adc(v, adc, v.len() as int);
    picked(group, order_of(places(group)))
}

/// The text of a channel: how fast it is, its number, and the pin it is on.
pub open spec fn channel_text(adc: AdcInstance, channel: u8, raw: RawMcuData) -> Seq<char> {
    "  ["@ + (if 1 <= channel <= 5 {
        "fast"@
    } else {
        "slow"@
    }) + "] IN"@ + decimal(channel as int) + (if channel < 10 {
        " "@
    } else {
        ""@
    }) + " @ "@ + (match first_pin(pins_carrying(raw, signal_key(Signal::AdcIn { adc, channel }))) {
        Some(p) => pin_name(p),
        None => "?"@,
    })
}

/// A channel that can be chosen.
#[derive(Debug)]
pub struct AdcChoice {
    pub assignment: Assignment,
    pub label: String,
}

/// A choice as a mathematical value.
pub ghost struct AdcChoiceView {
    pub assignment: Assignment,
    pub label: Seq<char>,
}

impl View for AdcChoice {
    type V = AdcChoiceView;

    open spec fn view(&self) -> AdcChoiceView {
        AdcChoiceView { assignment: self.assignment, label: self.label@ }
    }
}

/// The values of choices.
pub open spec fn choice_views(v: Seq<AdcChoice>) -> Seq<AdcChoiceView> {
    v.map_values(|c: AdcChoice| c@)
}

/// The choices on an ADC.
pub open spec fn choices_of(v: Seq<Assignment>, adc: AdcInstance, raw: RawMcuData) -> Seq<
    AdcChoiceView,
> {
    ordered_on(v, adc).map_values(
        |a: Assignment|
            AdcChoiceView { assignment: a, label: channel_text(adc, channel_of(a), raw) },
    )
}

/// The choices on the first `n` ADCs, without those that have none.
pub open spec fn groups_upto(v: Seq<Assignment>, raw: RawMcuData, n: int) -> Seq<
    (AdcInstance, Seq<AdcChoiceView>),
>
    decreases n,
{
    if n <= 0 {
        Seq::empty()
    } else {
        let adc = all_adcs_seq()[n - 1];
        if on_adc(v, adc, v.len() as int).len() == 0 {
            groups_upto(v, raw, n - 1)
        } else {
            groups_upto(v, raw, n - 1).push((adc, choices_of(v, adc, raw)))
        }
    }
}

/// The values of groups.
pub open spec fn group_views(v: Seq<(AdcInstance, Vec<AdcChoice>)>) -> Seq<
    (AdcInstance, Seq<AdcChoiceView>),
> {
    v.map_values(|g: (AdcInstance, Vec<AdcChoice>)| (g.0, choice_views(g.1@)))
}

fn write_channel(adc: AdcInstance, channel: u8, raw: &RawMcuData) -> (r: String)
    ensures
        r@ == channel_text(adc, channel, *raw),
{
    let signal: OwnedSignal = pinout::signal_to_owned(Signal::AdcIn { adc, channel });
    let pins: Vec<PinId> = pinout::pins_for(raw, &signal);
    let mut s: String = "  [".to_owned();
    s.append(
        if g474::is_fast_adc_channel(channel) {
            "fast"
        } else {
            "slow"
        },
    );
    s.append("] IN");
    text::push_number(&mut s, channel as u64);
    s.append(
        if channel < 10 {
            " "
        } else {
            ""
        },
    );
    s.append(" @ ");
    if pins.len() > 0 {
        let p: PinId = pins[0];
        let name: String = p.name();
        s.append(name.as_str());
    } else {
        s.append("?");
    }
    s
}

fn channel_number(a: &Assignment) -> (r: u8)
    ensures
        r == channel_of(*a),
{
    match a {
        Assignment::AdcConversion { channel, .. } => *channel,
        _ => 0,
    }
}

fn collect_on(v: &[Assignment], adc: AdcInstance) -> (r: Vec<Assignment>)
    ensures
        r@ == on_adc(v@, adc, v@.len() as int),
{
    let mut r: Vec<Assignment> = Vec::new();
    let mut i: usize = 0;
    while i < v.len()
        invariant
            i <= v@.len(),
            r@ == on_adc(v@, adc, i as int),
        decreases v@.len() - i,
    {
        let here: bool = match v[i] {
            Assignment::AdcConversion { adc: x, .. } => x == adc,
            _ => false,
        };
        if here {
            r.push(v[i]);
        }
        i += 1;
    }
    r
}

fn sort_channels(group: &[Assignment]) -> (r: Vec<Assignment>)
    ensures
        r@ == picked(group@, order_of(places(group@))),
{
    let mut keys: Vec<u64> = Vec::new();
    let mut i: usize = 0;
    while i < group.len()
        invariant
            i <= group@.len(),
            keys@ =~= places(group@).take(i as int),
        decreases group@.len() - i,
    {
        let c: u8 = channel_number(&group[i]);
        keys.push(
            if g474::is_fast_adc_channel(c) {
                c as u64
            } else {
                256 + c as u64
            },
        );
        i += 1;
    }
    proof {
        assert(keys@ =~= places(group@));
    }
    order::sort_by_keys(group, &keys)
}

fn label_all(sorted: &[Assignment], adc: AdcInstance, raw: &RawMcuData) -> (r: Vec<AdcChoice>)
    ensures
        choice_views(r@) == sorted@.map_values(
            |a: Assignment|
                AdcChoiceView { assignment: a, label: channel_text(adc, channel_of(a), *raw) },
        ),
{
    let ghost want = sorted@.map_values(
        |a: Assignment|
            AdcChoiceView { assignment: a, label: channel_text(adc, channel_of(a), *raw) },
    );
    let mut r: Vec<AdcChoice> = Vec::new();
    let mut i: usize = 0;
    proof {
        assert(choice_views(r@) =~= want.take(0));
    }
    while i < sorted.len()
        invariant
            i <= sorted@.len(),
            want == sorted@.map_values(
                |a: Assignment|
                    AdcChoiceView { assignment: a, label: channel_text(adc, channel_of(a), *raw) },
            ),
            choice_views(r@) == want.take(i as int),
        decreases sorted@.len() - i,
    {
        let a: Assignment = sorted[i];
        let label: String = write_channel(adc, channel_number(&a), raw);
        let c: AdcChoice = AdcChoice { assignment: a, label };
        let ghost had = r@;
        let ghost x = c@;
        r.push(c);
        proof {
            assert(choice_views(r@) =~= choice_views(had).push(x));
            assert(choice_views(r@) =~= want.take(i + 1));
        }
        i += 1;
    }
    proof {
        assert(want.take(i as int) =~= want);
    }
    r
}

/// The channels that a conversion can be on, by ADC, with the pins of a chip.
pub fn adc_choices(candidates: &[Assignment], raw: &RawMcuData) -> (r: Vec<
    (AdcInstance, Vec<AdcChoice>),
>)
    ensures
        group_views(r@) == groups_upto(candidates@, *raw, all_adcs_seq().len() as int),
{
    let adcs: Vec<AdcInstance> = g474::all_adcs();
    let mut r: Vec<(AdcInstance, Vec<AdcChoice>)> = Vec::new();
    let mut i: usize = 0;
    proof {
        assert(group_views(r@) =~= groups_upto(candidates@, *raw, 0));
    }
    while i < adcs.len()
        invariant
            i <= adcs@.len(),
            adcs@ == all_adcs_seq(),
            group_views(r@) == groups_upto(candidates@, *raw, i as int),
        decreases adcs@.len() - i,
    {
        let group: Vec<Assignment> = collect_on(candidates, adcs[i]);
        if group.len() > 0 {
            let sorted: Vec<Assignment> = sort_channels(&group);
            let rows: Vec<AdcChoice> = label_all(&sorted, adcs[i], raw);
            let ghost had = r@;
            let ghost x = choice_views(rows@);
            r.push((adcs[i], rows));
            proof {
                assert(group_views(r@) =~= group_views(had).push((adcs@[i as int], x)));
            }
        }
        i += 1;
    }
    r
}

/// On every ADC the fast channels come before the slow ones, and each sort is in order.
pub proof fn fast_come_first(v: Seq<Assignment>, adc: AdcInstance, i: int, j: int)
    requires
        v.len() <= usize::MAX,
        0 <= i < j < ordered_on(v, adc).len(),
    ensures
        place(channel_of(ordered_on(v, adc)[i])) <= place(channel_of(ordered_on(v, adc)[j])),
{
    let group = on_adc(v, adc, v.len() as int);
    on_adc_fits(v, adc, v.len() as int);
    order_of_is_stable(places(group));
    let o = order_of(places(group));
    assert(is_stable_order(places(group), o, group.len() as int));
    let a = o[i];
    let b = o[j];
    assert(places(group)[a as int] == place(channel_of(group[a as int])));
    assert(places(group)[b as int] == place(channel_of(group[b as int])));
}

proof fn on_adc_fits(v: Seq<Assignment>, adc: AdcInstance, n: int)
    requires
        0 <= n <= v.len(),
    ensures
        on_adc(v, adc, n).len() <= n,
    decreases n,
{
    if n > 0 {
        on_adc_fits(v, adc, n - 1);
    }
}

} // verus!
