//! What a converter needs: the signals of its legs, what is wrong with them on a chip, and the
//! routes that they are lowered to.

use vstd::prelude::*;

use crate::analog_roles::adc_in;
use crate::c531_design::bit_set;
use crate::c531_design::bonded_channels;
use crate::c531_design::channel_signals;
use crate::c531_design::conflicts_upto;
use crate::c531_design::conflicts_with;
use crate::c531_design::input_channels;
use crate::c531_design::leg_conflicts;
use crate::c531_design::leg_route_problems;
use crate::c531_design::leg_signals;
use crate::c531_design::level_fits;
use crate::c531_design::problems_of;
use crate::c531_design::route_problems;
use crate::c531_design::sense_fits;
use crate::c531_design::sense_problems;
use crate::c531_design::trip_fits;
use crate::c531_design::ConverterLeg;
use crate::c531_design::ConverterView;
use crate::c531_design::Problem;
use crate::c531_design::Routes;
use crate::c531_plan::converter_plan;
use crate::c531_plan::edges_upto;
use crate::c531_plan::jobs_upto;
use crate::c531_plan::lay;
use crate::c531_plan::leg_edges;
use crate::c531_plan::leg_jobs;
use crate::c531_plan::role_of;
use crate::c531_plan::sense_job;
use crate::c531_plan::Job;
use crate::g474::adc_nr;
use crate::g474::comp_nr;
use crate::g474::dac_channel;
use crate::g474::dac_instance;
use crate::g474::tim_nr;
use crate::g474::TimCh;
use crate::lists::in_either;
use crate::lists::in_one;
use crate::lists::pushed;
use crate::lowering_laws::jobs_are_few;
use crate::lowering_laws::laid_so_far;
use crate::lowering_laws::sorted_come_from;
use crate::mcu::break_comps_hold;
use crate::mcu::threshold_dacs_hold;
use crate::mcu_pinout::AfRow;
use crate::mcu_raw::RawMcuData;
use crate::order::deduped;
use crate::order::sorted_bytes_ascend;
use crate::pin_plan::EdgeKind;
use crate::pin_plan::EdgeView;
use crate::pin_plan::NodeView;
use crate::pinout::signal_key;
use crate::pinout::Signal;
use crate::terminal_laws::is_channel;
use crate::text::decimal;

verus! {

/// The bit of a channel.
pub open spec fn bit_of(ch: TimCh) -> int {
    match ch {
        TimCh::Ch1 => 1,
        TimCh::Ch2 => 2,
        TimCh::Ch3 => 4,
        TimCh::Ch4 => 8,
    }
}

/// Whether a leg drives a channel.
pub open spec fn drives(leg: ConverterLeg, ch: TimCh) -> bool {
    (leg.channels_mask as int / bit_of(ch)) % 2 == 1
}

proof fn channel_has(leg: ConverterLeg, i: int, ch: TimCh, s: Signal)
    requires
        bit_set(leg.channels_mask, i) <==> drives(leg, ch),
    ensures
        channel_signals(leg, i, ch).contains(s) <==> drives(leg, ch) && (s == Signal::TimCh(
            leg.tim,
            ch,
        ) || (leg.complementary && s == Signal::TimChN(leg.tim, ch))),
{
    let a = Signal::TimCh(leg.tim, ch);
    let b = Signal::TimChN(leg.tim, ch);
    assert(seq![a, b][0] == a && seq![a, b][1] == b);
    assert(seq![a][0] == a);
}

/// A leg needs a pin for each channel that it drives, one more for the complement where it
/// has complements, one for the break input if it has that, and no other.
pub proof fn signals_of_a_leg(leg: ConverterLeg, s: Signal)
    ensures
        leg_signals(leg).contains(s) <==> match s {
            Signal::TimCh(t, ch) => t == leg.tim && drives(leg, ch),
            Signal::TimChN(t, ch) => t == leg.tim && drives(leg, ch) && leg.complementary,
            Signal::TimBkin(t) => t == leg.tim && leg.bkin,
            _ => false,
        },
{
    let a = channel_signals(leg, 0, TimCh::Ch1);
    let b = channel_signals(leg, 1, TimCh::Ch2);
    let c = channel_signals(leg, 2, TimCh::Ch3);
    let d = channel_signals(leg, 3, TimCh::Ch4);
    let e: Seq<Signal> = if leg.bkin {
        seq![Signal::TimBkin(leg.tim)]
    } else {
        Seq::empty()
    };
    channel_has(leg, 0, TimCh::Ch1, s);
    channel_has(leg, 1, TimCh::Ch2, s);
    channel_has(leg, 2, TimCh::Ch3, s);
    channel_has(leg, 3, TimCh::Ch4, s);
    in_either(a, b, s);
    in_either(a + b, c, s);
    in_either(a + b + c, d, s);
    in_either(a + b + c + d, e, s);
    in_one(Signal::TimBkin(leg.tim), s);
}

/// A list without repeats holds what the list holds.
pub proof fn deduped_holds(v: Seq<u8>, x: u8)
    ensures
        deduped(v).contains(x) <==> v.contains(x),
        v.len() > 0 ==> deduped(v).len() > 0 && deduped(v).last() == v.last(),
    decreases v.len(),
{
    if v.len() > 0 {
        let u = v.drop_last();
        deduped_holds(u, x);
        assert(v =~= u.push(v.last()));
        pushed(u, v, v.last(), x);
        let rest = deduped(u);
        pushed(rest, deduped(v), v.last(), x);
        if deduped(v) == rest && rest.len() > 0 {
            assert(rest[rest.len() - 1] == v.last());
            if x == v.last() {
                assert(rest.contains(x));
            }
        }
    }
}

/// Whether an ADC's input channel is on a pin.
pub open spec fn is_bonded_input(rows: Seq<AfRow>, adc: u8, m: u8) -> bool {
    exists|i: int|
        0 <= i < rows.len() && (#[trigger] rows[i]).af is None && rows[i].signal.peripheral@
            == "ADC"@ + decimal(adc as int) && is_channel(rows[i].signal.role@, "IN"@, m)
}

proof fn inputs_are_bonded(rows: Seq<AfRow>, adc: Seq<char>, n: int, m: u8)
    requires
        0 <= n <= rows.len(),
    ensures
        input_channels(rows, adc, n).len() <= n,
        input_channels(rows, adc, n).contains(m) <==> exists|i: int|
            0 <= i < n && (#[trigger] rows[i]).af is None && rows[i].signal.peripheral@ == adc
                && is_channel(rows[i].signal.role@, "IN"@, m),
    decreases n,
{
    if n > 0 {
        inputs_are_bonded(rows, adc, n - 1, m);
        let r = rows[n - 1];
        let had = input_channels(rows, adc, n - 1);
        let now = input_channels(rows, adc, n);
        crate::terminal_laws::named_by_number(r.signal.role@, "IN"@, m);
        if r.af is None && r.signal.peripheral@ == adc && adc_in(r.signal.role@) is Some {
            pushed(had, now, adc_in(r.signal.role@)->0, m);
        }
    }
}

/// The channels that an ADC can sense are those with an input on a pin.
pub proof fn sensed_channels_are_bonded(rows: Seq<AfRow>, adc: u8, m: u8)
    requires
        rows.len() <= usize::MAX,
    ensures
        bonded_channels(rows, adc).contains(m) <==> is_bonded_input(rows, adc, m),
{
    let name = "ADC"@ + decimal(adc as int);
    let v = input_channels(rows, name, rows.len() as int);
    inputs_are_bonded(rows, name, rows.len() as int, m);
    sorted_bytes_ascend(v);
    deduped_holds(crate::order::sorted_bytes(v), m);
}

/// Whether something is wrong with the legs of a converter on a chip.
pub open spec fn is_wrong(
    rows: Seq<AfRow>,
    r: Option<Routes>,
    legs: Seq<ConverterLeg>,
    p: Problem,
) -> bool {
    match p {
        Problem::SenseChannelUnavailable { leg, adc, channel } => {
            &&& leg < legs.len()
            &&& legs[leg as int].adc_sense == Some((adc, channel))
            &&& !is_bonded_input(rows, adc_nr(adc), channel)
        },
        Problem::OcpUnroutable { leg, comp, tim, break_input } => {
            &&& leg < legs.len()
            &&& r is Some
            &&& legs[leg as int].tim == tim
            &&& legs[leg as int].ocp matches Some(o) && o.comp == comp && o.break_input
                == break_input
            &&& !r->0.breaks.contains((comp_nr(comp), tim_nr(tim), break_input))
        },
        Problem::ThresholdUnroutable { leg, dac, comp } => {
            &&& leg < legs.len()
            &&& r is Some
            &&& legs[leg as int].ocp matches Some(o) && o.comp == comp && o.threshold_dac
                == Some(dac)
            &&& !r->0.dacs.contains((dac_instance(dac), dac_channel(dac), comp_nr(comp)))
        },
        Problem::TimerConflict { legs: (a, b), tim } => {
            &&& a < b < legs.len()
            &&& legs[a as int].tim == tim && legs[b as int].tim == tim
        },
        Problem::CompConflict { legs: (a, b), comp } => {
            &&& a < b < legs.len()
            &&& legs[a as int].ocp matches Some(o) && o.comp == comp
            &&& legs[b as int].ocp matches Some(o) && o.comp == comp
        },
        Problem::DacConflict { legs: (a, b), dac } => {
            &&& a < b < legs.len()
            &&& legs[a as int].ocp matches Some(o) && o.threshold_dac == Some(dac)
            &&& legs[b as int].ocp matches Some(o) && o.threshold_dac == Some(dac)
        },
        Problem::AdcConflict { legs: (a, b), adc, channel } => {
            &&& a < b < legs.len()
            &&& legs[a as int].adc_sense == Some((adc, channel))
            &&& legs[b as int].adc_sense == Some((adc, channel))
        },
    }
}

/// Whether a problem is of one kind of list.
spec fn is_of_sense(p: Problem) -> bool {
    p is SenseChannelUnavailable
}

spec fn is_of_routes(p: Problem) -> bool {
    p is OcpUnroutable || p is ThresholdUnroutable
}

spec fn leg_of(p: Problem) -> int {
    match p {
        Problem::SenseChannelUnavailable { leg, adc, channel } => leg as int,
        Problem::OcpUnroutable { leg, comp, tim, break_input } => leg as int,
        Problem::ThresholdUnroutable { leg, dac, comp } => leg as int,
        Problem::TimerConflict { legs, tim } => legs.1 as int,
        Problem::CompConflict { legs, comp } => legs.1 as int,
        Problem::DacConflict { legs, dac } => legs.1 as int,
        Problem::AdcConflict { legs, adc, channel } => legs.1 as int,
    }
}

spec fn first_leg_of(p: Problem) -> int {
    match p {
        Problem::TimerConflict { legs, tim } => legs.0 as int,
        Problem::CompConflict { legs, comp } => legs.0 as int,
        Problem::DacConflict { legs, dac } => legs.0 as int,
        Problem::AdcConflict { legs, adc, channel } => legs.0 as int,
        _ => 0,
    }
}

proof fn senses_are_right(rows: Seq<AfRow>, legs: Seq<ConverterLeg>, n: int, p: Problem)
    requires
        0 <= n <= legs.len(),
        legs.len() <= usize::MAX,
        rows.len() <= usize::MAX,
    ensures
        sense_problems(rows, legs, n).contains(p) <==> is_of_sense(p) && leg_of(p) < n && is_wrong(
            rows,
            None,
            legs,
            p,
        ),
    decreases n,
{
    if n > 0 {
        senses_are_right(rows, legs, n - 1, p);
        let leg = legs[n - 1];
        if let Some(s) = leg.adc_sense {
            sensed_channels_are_bonded(rows, adc_nr(s.0), s.1);
            if !sense_fits(rows, leg) {
                pushed(
                    sense_problems(rows, legs, n - 1),
                    sense_problems(rows, legs, n),
                    Problem::SenseChannelUnavailable { leg: (n - 1) as usize, adc: s.0, channel: s.1 },
                    p,
                );
            }
        }
    }
}

proof fn leg_routes_are_right(r: Routes, legs: Seq<ConverterLeg>, i: int, p: Problem)
    requires
        0 <= i < legs.len() <= usize::MAX,
    ensures
        leg_route_problems(r, legs[i], i).contains(p) <==> is_of_routes(p) && leg_of(p) == i
            && is_wrong(Seq::empty(), Some(r), legs, p),
{
    let leg = legs[i];
    if let Some(o) = leg.ocp {
        let c = comp_nr(o.comp);
        let t = tim_nr(leg.tim);
        break_comps_hold(r.breaks, t, o.break_input, r.breaks.len() as int, c);
        let a: Seq<Problem> = if trip_fits(r, leg) {
            Seq::empty()
        } else {
            seq![
                Problem::OcpUnroutable {
                    leg: i as usize,
                    comp: o.comp,
                    tim: leg.tim,
                    break_input: o.break_input,
                },
            ]
        };
        let b: Seq<Problem> = if level_fits(r, leg) {
            Seq::empty()
        } else {
            seq![
                Problem::ThresholdUnroutable {
                    leg: i as usize,
                    dac: o.threshold_dac->0,
                    comp: o.comp,
                },
            ]
        };
        if let Some(d) = o.threshold_dac {
            threshold_dacs_hold(
                r.dacs,
                c,
                r.dacs.len() as int,
                (dac_instance(d), dac_channel(d)),
            );
        }
        in_either(a, b, p);
        in_one(
            Problem::OcpUnroutable {
                leg: i as usize,
                comp: o.comp,
                tim: leg.tim,
                break_input: o.break_input,
            },
            p,
        );
        in_one(
            Problem::ThresholdUnroutable {
                leg: i as usize,
                dac: o.threshold_dac->0,
                comp: o.comp,
            },
            p,
        );
    }
}

proof fn routes_are_right(r: Option<Routes>, legs: Seq<ConverterLeg>, n: int, p: Problem)
    requires
        0 <= n <= legs.len(),
        legs.len() <= usize::MAX,
    ensures
        route_problems(r, legs, n).contains(p) <==> is_of_routes(p) && leg_of(p) < n && is_wrong(
            Seq::empty(),
            r,
            legs,
            p,
        ),
    decreases n,
{
    if n > 0 && r is Some {
        routes_are_right(r, legs, n - 1, p);
        leg_routes_are_right(r->0, legs, n - 1, p);
        in_either(
            route_problems(r, legs, n - 1),
            leg_route_problems(r->0, legs[n - 1], n - 1),
            p,
        );
    }
}

proof fn leg_conflicts_are_right(legs: Seq<ConverterLeg>, a: int, b: int, p: Problem)
    requires
        0 <= a < b < legs.len() <= usize::MAX,
    ensures
        leg_conflicts(legs[a], legs[b], a, b).contains(p) <==> !is_of_sense(p) && !is_of_routes(p)
            && first_leg_of(p) == a && leg_of(p) == b && is_wrong(Seq::empty(), None, legs, p),
{
    let x = legs[a];
    let y = legs[b];
    let at = (a as usize, b as usize);
    let none = Seq::<Problem>::empty();
    let t: Seq<Problem> = if x.tim == y.tim {
        seq![Problem::TimerConflict { legs: at, tim: x.tim }]
    } else {
        none
    };
    in_one(Problem::TimerConflict { legs: at, tim: x.tim }, p);
    let (c, d): (Seq<Problem>, Seq<Problem>) = match (x.ocp, y.ocp) {
        (Some(v), Some(w)) => (
            if v.comp == w.comp {
                seq![Problem::CompConflict { legs: at, comp: v.comp }]
            } else {
                none
            },
            if v.threshold_dac is Some && v.threshold_dac == w.threshold_dac {
                seq![Problem::DacConflict { legs: at, dac: v.threshold_dac->0 }]
            } else {
                none
            },
        ),
        _ => (none, none),
    };
    if let Some(v) = x.ocp {
        in_one(Problem::CompConflict { legs: at, comp: v.comp }, p);
        if let Some(w) = v.threshold_dac {
            in_one(Problem::DacConflict { legs: at, dac: w }, p);
        }
    }
    let s: Seq<Problem> = match (x.adc_sense, y.adc_sense) {
        (Some(v), Some(w)) => if v == w {
            seq![Problem::AdcConflict { legs: at, adc: v.0, channel: v.1 }]
        } else {
            none
        },
        _ => none,
    };
    if let Some(v) = x.adc_sense {
        in_one(Problem::AdcConflict { legs: at, adc: v.0, channel: v.1 }, p);
    }
    in_either(c, d, p);
    in_either(t, c + d, p);
    in_either(t + (c + d), s, p);
    assert(none + none =~= none);
    assert(leg_conflicts(x, y, a, b) == t + (c + d) + s);
}

proof fn conflicts_of_one_are_right(legs: Seq<ConverterLeg>, a: int, b: int, p: Problem)
    requires
        0 <= a < legs.len() <= usize::MAX,
        b <= legs.len(),
    ensures
        conflicts_with(legs, a, b).contains(p) <==> !is_of_sense(p) && !is_of_routes(p)
            && first_leg_of(p) == a && leg_of(p) < b && is_wrong(Seq::empty(), None, legs, p),
    decreases b - a,
{
    if b > a + 1 {
        conflicts_of_one_are_right(legs, a, b - 1, p);
        leg_conflicts_are_right(legs, a, b - 1, p);
        in_either(
            conflicts_with(legs, a, b - 1),
            leg_conflicts(legs[a], legs[b - 1], a, b - 1),
            p,
        );
    }
}

proof fn conflicts_are_right(legs: Seq<ConverterLeg>, n: int, p: Problem)
    requires
        0 <= n <= legs.len(),
        legs.len() <= usize::MAX,
    ensures
        conflicts_upto(legs, n).contains(p) <==> !is_of_sense(p) && !is_of_routes(p)
            && first_leg_of(p) < n && is_wrong(Seq::empty(), None, legs, p),
    decreases n,
{
    if n > 0 {
        conflicts_are_right(legs, n - 1, p);
        conflicts_of_one_are_right(legs, n - 1, legs.len() as int, p);
        in_either(
            conflicts_upto(legs, n - 1),
            conflicts_with(legs, n - 1, legs.len() as int),
            p,
        );
    }
}

/// What is reported of a converter is what is wrong with it: a sense without a pin, a trip or
/// a threshold without a route where the routes are known, and two legs on one timer,
/// comparator, DAC channel or ADC input.
pub proof fn what_is_reported_is_wrong(
    rows: Seq<AfRow>,
    r: Option<Routes>,
    legs: Seq<ConverterLeg>,
    p: Problem,
)
    requires
        rows.len() <= usize::MAX,
        legs.len() <= usize::MAX,
    ensures
        problems_of(rows, r, legs).contains(p) <==> is_wrong(rows, r, legs, p),
{
    let n = legs.len() as int;
    let a = sense_problems(rows, legs, n);
    let b = route_problems(r, legs, n);
    let c = conflicts_upto(legs, n);
    senses_are_right(rows, legs, n, p);
    routes_are_right(r, legs, n, p);
    conflicts_are_right(legs, n, p);
    in_either(a, b, p);
    in_either(a + b, c, p);
}

/// Whether a route is the trip of a leg: from its comparator to its timer's break input.
pub open spec fn is_trip(e: EdgeView, leg: ConverterLeg, i: int) -> bool {
    &&& leg.ocp matches Some(o) && {
        &&& e.from == (NodeView {
            class: "COMP"@,
            instance: comp_nr(o.comp),
            channel: None,
            event: None,
        })
        &&& e.kind == (EdgeKind::CompToTimBreak { break_input: o.break_input })
    }
    &&& e.to == (NodeView { class: "TIM"@, instance: tim_nr(leg.tim), channel: None, event: None })
    &&& e.group == Some(i as u32)
}

/// Whether a route is the threshold of a leg: from its DAC channel to its comparator.
pub open spec fn is_threshold(e: EdgeView, leg: ConverterLeg, i: int) -> bool {
    &&& leg.ocp matches Some(o) && o.threshold_dac matches Some(d) && {
        &&& e.from == (NodeView {
            class: "DAC"@,
            instance: dac_instance(d),
            channel: Some(dac_channel(d)),
            event: None,
        })
        &&& e.to == (NodeView {
            class: "COMP"@,
            instance: comp_nr(o.comp),
            channel: None,
            event: None,
        })
        &&& e.kind == EdgeKind::DacToComp
    }
    &&& e.group == Some(i as u32)
}

/// Whether a route is one that a leg needs.
pub open spec fn is_route_of(e: EdgeView, legs: Seq<ConverterLeg>, i: int) -> bool {
    0 <= i < legs.len() && (is_trip(e, legs[i], i) || is_threshold(e, legs[i], i))
}

proof fn edges_of_a_leg(leg: ConverterLeg, i: int, e: EdgeView)
    ensures
        leg_edges(leg, i).contains(e) <==> is_trip(e, leg, i) || is_threshold(e, leg, i),
{
    let v = leg_edges(leg, i);
    if v.contains(e) {
        let k = choose|k: int| 0 <= k < v.len() && v[k] == e;
        assert(k == 0 || k == 1);
    }
    if is_trip(e, leg, i) {
        assert(v[0] == e);
    }
    if is_threshold(e, leg, i) {
        assert(v[1] == e);
    }
}

proof fn edges_of_legs(legs: Seq<ConverterLeg>, n: int, e: EdgeView)
    requires
        0 <= n <= legs.len(),
    ensures
        edges_upto(legs, n).contains(e) <==> exists|i: int| i < n && #[trigger] is_route_of(e, legs, i),
    decreases n,
{
    if n > 0 {
        edges_of_legs(legs, n - 1, e);
        edges_of_a_leg(legs[n - 1], n - 1, e);
        in_either(edges_upto(legs, n - 1), leg_edges(legs[n - 1], n - 1), e);
        if leg_edges(legs[n - 1], n - 1).contains(e) {
            assert(is_route_of(e, legs, n - 1));
        }
        if edges_upto(legs, n - 1).contains(e) {
            let i = choose|i: int| i < n - 1 && #[trigger] is_route_of(e, legs, i);
            assert(is_route_of(e, legs, i));
        }
    }
}

/// A lowered converter has a route for each trip and each threshold of its legs, and no
/// other.
pub proof fn routes_are_trips_and_thresholds(
    d: ConverterView,
    raw: RawMcuData,
    package: Seq<char>,
    family: Seq<char>,
    e: EdgeView,
)
    ensures
        converter_plan(d, raw, package, family).routes.contains(e) <==> exists|i: int| #[trigger]
            is_route_of(e, d.legs, i),
{
    edges_of_legs(d.legs, d.legs.len() as int, e);
}

/// Whether a leg needs a pin for a signal.
pub open spec fn needs(leg: ConverterLeg, key: (Seq<char>, Seq<char>)) -> bool {
    ||| exists|s: Signal| #[trigger] leg_signals(leg).contains(s) && signal_key(s) == key
    ||| leg.adc_sense matches Some(x) && signal_key(Signal::AdcIn { adc: x.0, channel: x.1 }) == key
}

/// Whether one of the legs needs a pin for a signal.
pub open spec fn is_needed(legs: Seq<ConverterLeg>, key: (Seq<char>, Seq<char>)) -> bool {
    exists|i: int| 0 <= i < legs.len() && needs(#[trigger] legs[i], key)
}

/// Whether one of the jobs is of a signal.
spec fn has_job(v: Seq<Job>, key: (Seq<char>, Seq<char>)) -> bool {
    exists|k: int| 0 <= k < v.len() && signal_key((#[trigger] v[k]).signal) == key
}

proof fn jobs_of_a_leg(leg: ConverterLeg, key: (Seq<char>, Seq<char>))
    ensures
        has_job(leg_jobs(leg), key) <==> needs(leg, key),
{
    let s = leg_signals(leg);
    let v = leg_jobs(leg);
    let a = s.map_values(|x: Signal| Job { signal: x, role: role_of(leg, x) });
    let b = sense_job(leg);
    if has_job(v, key) {
        let k = choose|k: int| 0 <= k < v.len() && signal_key((#[trigger] v[k]).signal) == key;
        if k < a.len() {
            assert(v[k] == a[k]);
            assert(s.contains(s[k]));
        } else {
            assert(v[k] == b[k - a.len()]);
        }
    }
    if exists|x: Signal| #[trigger] s.contains(x) && signal_key(x) == key {
        let x = choose|x: Signal| #[trigger] s.contains(x) && signal_key(x) == key;
        let k = choose|k: int| 0 <= k < s.len() && s[k] == x;
        assert(v[k] == a[k]);
        assert(signal_key(v[k].signal) == key);
    } else if needs(leg, key) {
        assert(v[a.len() as int] == b[0]);
    }
}

proof fn jobs_of_legs(legs: Seq<ConverterLeg>, n: int, key: (Seq<char>, Seq<char>))
    requires
        0 <= n <= legs.len(),
    ensures
        has_job(jobs_upto(legs, n), key) <==> exists|i: int|
            0 <= i < n && needs(#[trigger] legs[i], key),
    decreases n,
{
    if n > 0 {
        jobs_of_legs(legs, n - 1, key);
        jobs_of_a_leg(legs[n - 1], key);
        let a = jobs_upto(legs, n - 1);
        let b = leg_jobs(legs[n - 1]);
        let v = jobs_upto(legs, n);
        if has_job(v, key) {
            let k = choose|k: int| 0 <= k < v.len() && signal_key((#[trigger] v[k]).signal) == key;
            if k < a.len() {
                assert(v[k] == a[k]);
                assert(has_job(a, key));
            } else {
                assert(v[k] == b[k - a.len()]);
                assert(has_job(b, key));
                assert(needs(legs[n - 1], key));
            }
        }
        if has_job(a, key) {
            let k = choose|k: int| 0 <= k < a.len() && signal_key((#[trigger] a[k]).signal) == key;
            assert(v[k] == a[k]);
        }
        if has_job(b, key) {
            let k = choose|k: int| 0 <= k < b.len() && signal_key((#[trigger] b[k]).signal) == key;
            assert(v[a.len() + k] == b[k]);
        }
    }
}

/// A lowered converter places each signal that one of its legs needs a pin for, and no other.
pub proof fn what_is_needed_is_placed(
    d: ConverterView,
    raw: RawMcuData,
    package: Seq<char>,
    family: Seq<char>,
    key: (Seq<char>, Seq<char>),
)
    requires
        10 * d.legs.len() <= usize::MAX,
    ensures
        is_needed(d.legs, key) <==> exists|k: int|
            0 <= k < converter_plan(d, raw, package, family).placements.len() && (
            #[trigger] converter_plan(d, raw, package, family).placements[k]).signal == key,
{
    let n = d.legs.len() as int;
    let jobs = jobs_upto(d.legs, n);
    let m = jobs.len() as int;
    jobs_are_few(d.legs, n);
    jobs_of_legs(d.legs, n, key);
    let l = lay(raw, d.locks, jobs, m);
    laid_so_far(raw, d.locks, jobs, m);
    let from = sorted_come_from(l.placements);
    let w = converter_plan(d, raw, package, family).placements;
    assert forall|j: int| 0 <= j < m implies (#[trigger] l.placements[j]).signal == signal_key(
        jobs[j].signal,
    ) by {
        assert(l.placements[j] == lay(raw, d.locks, jobs, j + 1).placements[j]);
        laid_so_far(raw, d.locks, jobs, j);
    }
    if has_job(jobs, key) {
        let j = choose|j: int| 0 <= j < m && signal_key((#[trigger] jobs[j]).signal) == key;
        assert(l.placements[j].signal == key);
        assert(from.contains(j));
        let k = choose|k: int| 0 <= k < from.len() && from[k] == j;
        assert(w[k].signal == key);
    }
    if exists|k: int| 0 <= k < w.len() && (#[trigger] w[k]).signal == key {
        let k = choose|k: int| 0 <= k < w.len() && (#[trigger] w[k]).signal == key;
        let j = from[k];
        assert(l.placements[j].signal == key);
        assert(signal_key(jobs[j].signal) == key);
    }
}

} // verus!
