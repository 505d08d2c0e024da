//! What holds of automatic routing.

use vstd::prelude::*;

use crate::c531_assign::again_facts;
use crate::c531_assign::assigned;
use crate::c531_assign::auto_assigned;
use crate::c531_assign::best_routing;
use crate::c531_assign::brk_cands;
use crate::c531_assign::cand_known;
use crate::c531_assign::cand_well;
use crate::c531_assign::comp_cand;
use crate::c531_assign::comp_cands;
use crate::c531_assign::compatible;
use crate::c531_assign::family_routes_known;
use crate::c531_assign::free_channel;
use crate::c531_assign::is_routing;
use crate::c531_assign::kept_senses;
use crate::c531_assign::leg_cands;
use crate::c531_assign::ocp_cands;
use crate::c531_assign::ocp_cands_well;
use crate::c531_assign::resensed;
use crate::c531_assign::route_leg;
use crate::c531_assign::routed_legs;
use crate::c531_assign::routes_known;
use crate::c531_assign::routing_is_maximum;
use crate::c531_assign::routing_is_sound;
use crate::c531_assign::sense_adc;
use crate::c531_assign::trip_legs;
use crate::c531_assign::trip_legs_facts;
use crate::c531_assign::unrouted;
use crate::c531_assign::wants_dac;
use crate::c531_assign::Assigned;
use crate::c531_assign::OcpCand;
use crate::c531_assign::Senses;
use crate::c531_design::bonded_channels;
use crate::c531_design::conflicts_upto;
use crate::c531_design::conflicts_with;
use crate::c531_design::leg_conflicts;
use crate::c531_design::leg_route_problems;
use crate::c531_design::level_dacs;
use crate::c531_design::level_fits;
use crate::c531_design::numbers_are_inverse;
use crate::c531_design::problems_of;
use crate::c531_design::route_problems;
use crate::c531_design::routes_of;
use crate::c531_design::sense_fits;
use crate::c531_design::sense_problems;
use crate::c531_design::trip_comps;
use crate::c531_design::trip_fits;
use crate::c531_design::ConverterLeg;
use crate::c531_design::Problem;
use crate::c531_design::Routes;
use crate::frontend_solver::count_some;
use crate::g474::adc_nr;
use crate::g474::comp_nr;
use crate::g474::dac_channel;
use crate::g474::dac_instance;
use crate::g474::tim_nr;
use crate::g474::CompId;
use crate::g474::DacId;
use crate::mcu::break_comps_hold;
use crate::mcu::Mcu;
use crate::mcu_pinout::AfRow;

verus! {

/// Whether a leg wants what another wants: the same timer and channels, a trip or
/// none, a threshold or none, and a sense on the same ADC or none.
pub open spec fn same_intent(a: ConverterLeg, b: ConverterLeg) -> bool {
    &&& a.tim == b.tim
    &&& a.channels_mask == b.channels_mask
    &&& a.complementary == b.complementary
    &&& a.dead_time == b.dead_time
    &&& a.bkin == b.bkin
    &&& a.ocp is Some <==> b.ocp is Some
    &&& wants_dac(a) <==> wants_dac(b)
    &&& a.adc_sense is Some <==> b.adc_sense is Some
    &&& a.adc_sense is Some ==> sense_adc(a) == sense_adc(b)
}

/// Whether two legs share a comparator, a DAC channel or an ADC input.
pub open spec fn legs_clash(a: ConverterLeg, b: ConverterLeg) -> bool {
    ||| a.ocp is Some && b.ocp is Some && a.ocp->0.comp == b.ocp->0.comp
    ||| wants_dac(a) && wants_dac(b) && a.ocp->0.threshold_dac == b.ocp->0.threshold_dac
    ||| a.adc_sense is Some && a.adc_sense == b.adc_sense
}

spec fn ascending(list: Seq<usize>, bound: int) -> bool {
    &&& forall|k: int| 0 <= k < list.len() ==> (#[trigger] list[k]) < bound
    &&& forall|j: int, k: int|
        #![trigger list[j], list[k]]
        0 <= j < k < list.len() ==> list[j] < list[k]
}

proof fn routed_facts(
    legs: Seq<ConverterLeg>,
    list: Seq<usize>,
    pick: Seq<Option<OcpCand>>,
    n: int,
)
    requires
        ascending(list, legs.len() as int),
        pick.len() == list.len(),
        0 <= n <= list.len(),
    ensures
        routed_legs(legs, list, pick, n).len() == legs.len(),
        forall|k: int|
            0 <= k < n ==> routed_legs(legs, list, pick, n)[(#[trigger] list[k]) as int] == (
            match pick[k] {
                Some(c) => route_leg(legs[list[k] as int], c),
                None => legs[list[k] as int],
            }),
        forall|i: int|
            0 <= i < legs.len() && (forall|k: int| 0 <= k < n ==> #[trigger] list[k] != i)
                ==> #[trigger] routed_legs(legs, list, pick, n)[i] == legs[i],
    decreases n,
{
    if n > 0 {
        routed_facts(legs, list, pick, n - 1);
        let a = routed_legs(legs, list, pick, n - 1);
        let b = routed_legs(legs, list, pick, n);
        let at = list[n - 1] as int;
        assert(list[n - 1] < legs.len());
        assert(a[at] == legs[at]) by {
            assert forall|k: int| 0 <= k < n - 1 implies #[trigger] list[k] != at by {
                assert(list[k] < list[n - 1]);
            }
        }
        assert forall|k: int| 0 <= k < n implies b[(#[trigger] list[k]) as int] == (match pick[k] {
            Some(c) => route_leg(legs[list[k] as int], c),
            None => legs[list[k] as int],
        }) by {
            if k < n - 1 {
                assert(list[k] < list[n - 1]);
                assert(b[list[k] as int] == a[list[k] as int]);
            }
        }
        assert forall|i: int|
            0 <= i < legs.len() && (forall|k: int| 0 <= k < n ==> #[trigger] list[k]
                != i) implies #[trigger] b[i] == legs[i] by {
            assert(list[n - 1] != i);
            assert(b[i] == a[i]);
        }
    }
}

proof fn unrouted_empty(list: Seq<usize>, pick: Seq<Option<OcpCand>>, n: int)
    requires
        0 <= n <= pick.len(),
        unrouted(list, pick, n).len() == 0,
    ensures
        forall|k: int| 0 <= k < n ==> (#[trigger] pick[k]) is Some,
    decreases n,
{
    if n > 0 {
        unrouted_empty(list, pick, n - 1);
    }
}

spec fn input_of(leg: ConverterLeg) -> (u8, u8) {
    let (adc, ch) = leg.adc_sense->0;
    (adc_nr(adc), ch)
}

proof fn kept_facts(rows: Seq<AfRow>, legs: Seq<ConverterLeg>, n: int)
    requires
        0 <= n <= legs.len(),
        legs.len() <= usize::MAX,
    ensures
        ({
            let s = kept_senses(rows, legs, n);
            &&& forall|i: int|
                0 <= i < n && (#[trigger] legs[i]).adc_sense is Some && !s.again.contains(i as usize)
                    ==> s.used.contains(input_of(legs[i])) && sense_fits(rows, legs[i])
            &&& forall|i: int, j: int|
                #![trigger legs[i], legs[j]]
                0 <= i < j < n && legs[i].adc_sense is Some && legs[j].adc_sense is Some
                    && !s.again.contains(i as usize) && !s.again.contains(j as usize) ==> input_of(
                    legs[i],
                ) != input_of(legs[j])
        }),
    decreases n,
{
    if n > 0 {
        kept_facts(rows, legs, n - 1);
        again_facts(rows, legs, n - 1);
        let s = kept_senses(rows, legs, n - 1);
        let t = kept_senses(rows, legs, n);
        let last = legs[n - 1];
        let push = t.again.len() > s.again.len();
        assert forall|i: int| 0 <= i < n - 1 implies (t.again.contains(i as usize)
            <==> #[trigger] s.again.contains(i as usize)) by {
            if s.again.contains(i as usize) {
                let x = choose|x: int| 0 <= x < s.again.len() && s.again[x] == i as usize;
                assert(t.again[x] == i as usize);
            }
            if t.again.contains(i as usize) {
                let x = choose|x: int| 0 <= x < t.again.len() && t.again[x] == i as usize;
                assert(x < s.again.len());
                assert(s.again[x] == i as usize);
            }
        }
        if push {
            assert(t.again[s.again.len() as int] == (n - 1) as usize);
        }
        assert forall|p: (u8, u8)| s.used.contains(p) implies t.used.contains(p) by {
            let x = choose|x: int| 0 <= x < s.used.len() && s.used[x] == p;
            assert(t.used[x] == p);
        }
        if last.adc_sense is Some && !push {
            assert(t.used[s.used.len() as int] == input_of(last));
        }
        assert forall|i: int|
            0 <= i < n && (#[trigger] legs[i]).adc_sense is Some && !t.again.contains(
                i as usize,
            ) implies t.used.contains(input_of(legs[i])) && sense_fits(rows, legs[i]) by {
            if i < n - 1 {
                assert(!s.again.contains(i as usize));
            }
        }
        assert forall|i: int, j: int|
            #![trigger legs[i], legs[j]]
            0 <= i < j < n && legs[i].adc_sense is Some && legs[j].adc_sense is Some
                && !t.again.contains(i as usize) && !t.again.contains(
                j as usize,
            ) implies input_of(legs[i]) != input_of(legs[j]) by {
            assert(!s.again.contains(i as usize));
            if j < n - 1 {
                assert(!s.again.contains(j as usize));
            } else {
                assert(s.used.contains(input_of(legs[i])));
            }
        }
    }
}

/// Whether a leg's sense is settled after the first `m` reassignments.
spec fn settled(s: Senses, m: int, i: int) -> bool {
    !s.again.contains(i as usize) || exists|x: int|
        0 <= x < m && #[trigger] s.again[x] == i as usize
}

proof fn free_channel_is_free(list: Seq<u8>, adc: u8, used: Seq<(u8, u8)>, k: int)
    requires
        0 <= k,
    ensures
        free_channel(list, adc, used, k) matches Some(c) ==> list.contains(c) && !used.contains(
            (adc, c),
        ),
    decreases list.len() - k,
{
    if k < list.len() && used.contains((adc, list[k])) {
        free_channel_is_free(list, adc, used, k + 1);
    }
}

/// Only the sense of a leg differs, and it stays on its ADC.
spec fn same_but_sense(a: ConverterLeg, b: ConverterLeg) -> bool {
    &&& b == (ConverterLeg { adc_sense: b.adc_sense, ..a })
    &&& a.adc_sense is Some <==> b.adc_sense is Some
    &&& a.adc_sense is Some ==> sense_adc(a) == sense_adc(b)
}

proof fn resensed_facts(rows: Seq<AfRow>, legs: Seq<ConverterLeg>, m: int)
    requires
        legs.len() <= usize::MAX,
        0 <= m <= kept_senses(rows, legs, legs.len() as int).again.len(),
    ensures
        ({
            let s = kept_senses(rows, legs, legs.len() as int);
            let t = resensed(rows, legs, s, m);
            &&& t.legs.len() == legs.len()
            &&& forall|i: int|
                0 <= i < legs.len() ==> same_but_sense(legs[i], #[trigger] t.legs[i])
            &&& forall|i: int|
                0 <= i < legs.len() && !settled(s, m, i) ==> #[trigger] t.legs[i] == legs[i]
            &&& t.failed.len() == 0 ==> {
                &&& forall|i: int|
                    0 <= i < legs.len() && (#[trigger] t.legs[i]).adc_sense is Some && settled(
                        s,
                        m,
                        i,
                    ) ==> t.used.contains(input_of(t.legs[i])) && sense_fits(rows, t.legs[i])
                &&& forall|i: int, j: int|
                    #![trigger t.legs[i], t.legs[j]]
                    0 <= i < legs.len() && 0 <= j < legs.len() && i != j
                        && t.legs[i].adc_sense is Some && t.legs[j].adc_sense is Some && settled(
                        s,
                        m,
                        i,
                    ) && settled(s, m, j) ==> input_of(t.legs[i]) != input_of(t.legs[j])
            }
        }),
    decreases m,
{
    let n = legs.len() as int;
    let s = kept_senses(rows, legs, n);
    kept_facts(rows, legs, n);
    again_facts(rows, legs, n);
    if m <= 0 {
        let t = resensed(rows, legs, s, 0);
        assert forall|i: int, j: int|
            #![trigger t.legs[i], t.legs[j]]
            0 <= i < n && 0 <= j < n && i != j && t.legs[i].adc_sense is Some
                && t.legs[j].adc_sense is Some && settled(s, 0, i) && settled(
                s,
                0,
                j,
            ) implies input_of(t.legs[i]) != input_of(t.legs[j]) by {
            if i < j {
                assert(input_of(legs[i]) != input_of(legs[j]));
            } else {
                assert(input_of(legs[j]) != input_of(legs[i]));
            }
        }
    } else {
        resensed_facts(rows, legs, m - 1);
        let q = resensed(rows, legs, s, m - 1);
        let t = resensed(rows, legs, s, m);
        let at = s.again[m - 1] as int;
        assert(s.again[m - 1] < n);
        assert(s.again.contains(at as usize));
        assert(!settled(s, m - 1, at)) by {
            if exists|x: int| 0 <= x < m - 1 && #[trigger] s.again[x] == at as usize {
                let x = choose|x: int| 0 <= x < m - 1 && #[trigger] s.again[x] == at as usize;
                assert(s.again[x] < s.again[m - 1]);
            }
        }
        let adc = sense_adc(q.legs[at]);
        let list = bonded_channels(rows, adc_nr(adc));
        free_channel_is_free(list, adc_nr(adc), q.used, 0);
        assert forall|i: int| 0 <= i < n && i != at implies (settled(s, m, i) <==> #[trigger] settled(
            s,
            m - 1,
            i,
        )) by {
            if settled(s, m, i) && s.again.contains(i as usize) {
                let x = choose|x: int| 0 <= x < m && #[trigger] s.again[x] == i as usize;
                assert(x < m - 1);
                assert(s.again[x] == i as usize);
            }
            if settled(s, m - 1, i) && s.again.contains(i as usize) {
                let x = choose|x: int| 0 <= x < m - 1 && #[trigger] s.again[x] == i as usize;
                assert(s.again[x] == i as usize);
            }
        }
        assert forall|i: int| 0 <= i < n implies same_but_sense(legs[i], #[trigger] t.legs[i]) by {
            assert(same_but_sense(legs[i], q.legs[i]));
        }
        assert(settled(s, m, at)) by {
            assert(s.again[m - 1] == at as usize);
        }
        assert forall|i: int| 0 <= i < n && !settled(s, m, i) implies #[trigger] t.legs[i]
            == legs[i] by {
            assert(i != at);
            assert(!settled(s, m - 1, i));
            assert(t.legs[i] == q.legs[i]);
        }
        if t.failed.len() == 0 {
            let ch = free_channel(list, adc_nr(adc), q.used, 0)->0;
            assert(q.failed.len() == 0);
            assert(t.used[q.used.len() as int] == (adc_nr(adc), ch));
            assert forall|p: (u8, u8)| q.used.contains(p) implies t.used.contains(p) by {
                let x = choose|x: int| 0 <= x < q.used.len() && q.used[x] == p;
                assert(t.used[x] == p);
            }
            assert forall|i: int|
                0 <= i < n && (#[trigger] t.legs[i]).adc_sense is Some && settled(
                    s,
                    m,
                    i,
                ) implies t.used.contains(input_of(t.legs[i])) && sense_fits(rows, t.legs[i]) by {
                if i != at {
                    assert(t.legs[i] == q.legs[i]);
                    assert(settled(s, m - 1, i));
                }
            }
            assert forall|i: int, j: int|
                #![trigger t.legs[i], t.legs[j]]
                0 <= i < n && 0 <= j < n && i != j && t.legs[i].adc_sense is Some
                    && t.legs[j].adc_sense is Some && settled(s, m, i) && settled(
                    s,
                    m,
                    j,
                ) implies input_of(t.legs[i]) != input_of(t.legs[j]) by {
                if i != at {
                    assert(t.legs[i] == q.legs[i]);
                    assert(settled(s, m - 1, i));
                    assert(q.used.contains(input_of(q.legs[i])));
                }
                if j != at {
                    assert(t.legs[j] == q.legs[j]);
                    assert(settled(s, m - 1, j));
                    assert(q.used.contains(input_of(q.legs[j])));
                }
            }
        }
    }
}

proof fn route_keeps_intent(r: Routes, leg: ConverterLeg, c: OcpCand)
    requires
        routes_known(r),
        cand_well(r, tim_nr(leg.tim), wants_dac(leg), c),
        leg.ocp is Some,
    ensures
        same_intent(leg, route_leg(leg, c)),
        trip_fits(r, route_leg(leg, c)),
        level_fits(r, route_leg(leg, c)),
        comp_nr(route_leg(leg, c).ocp->0.comp) == c.comp,
        c.dac matches Some(d) ==> wants_dac(route_leg(leg, c)) && dac_instance(
            route_leg(leg, c).ocp->0.threshold_dac->0,
        ) == d.0 && dac_channel(route_leg(leg, c).ocp->0.threshold_dac->0) == d.1,
{
    cand_known(r, tim_nr(leg.tim), wants_dac(leg), c);
    let d = c.dac->0;
    numbers_are_inverse(CompId::Comp1, c.comp, DacId::Dac1Ch1, d.0, d.1);
}

/// What automatic routing does to each leg: what the leg wants stays.
pub proof fn assigning_keeps_intent(rows: Seq<AfRow>, r: Routes, legs: Seq<ConverterLeg>)
    requires
        routes_known(r),
        legs.len() <= usize::MAX,
    ensures
        assigned(rows, r, legs).legs.len() == legs.len(),
        forall|i: int|
            0 <= i < legs.len() ==> same_intent(legs[i], #[trigger] assigned(rows, r, legs).legs[i]),
{
    let n = legs.len() as int;
    let list = trip_legs(legs, n);
    trip_legs_facts(legs, n);
    let cands = leg_cands(r, legs, list);
    let pick = best_routing(cands);
    routing_is_sound(cands);
    routed_facts(legs, list, pick, list.len() as int);
    let routed = routed_legs(legs, list, pick, list.len() as int);
    let s = kept_senses(rows, routed, n);
    resensed_facts(rows, routed, s.again.len() as int);
    let out = assigned(rows, r, legs).legs;
    assert forall|i: int| 0 <= i < n implies same_intent(legs[i], #[trigger] out[i]) by {
        routed_leg_facts(r, legs, i);
        assert(same_but_sense(routed[i], out[i]));
    }
}

/// What routing does to one leg.
proof fn routed_leg_facts(r: Routes, legs: Seq<ConverterLeg>, i: int)
    requires
        routes_known(r),
        legs.len() <= usize::MAX,
        0 <= i < legs.len(),
    ensures
        ({
            let list = trip_legs(legs, legs.len() as int);
            let pick = best_routing(leg_cands(r, legs, list));
            let routed = routed_legs(legs, list, pick, list.len() as int);
            &&& same_intent(legs[i], routed[i])
            &&& routed[i].adc_sense == legs[i].adc_sense
            &&& unrouted(list, pick, list.len() as int).len() == 0 ==> trip_fits(r, routed[i])
                && level_fits(r, routed[i]) && (legs[i].ocp is Some ==> exists|k: int|
                0 <= k < list.len() && #[trigger] list[k] == i && pick[k] is Some && comp_nr(
                    routed[i].ocp->0.comp,
                ) == pick[k]->0.comp && (wants_dac(routed[i]) ==> pick[k]->0.dac == Some(
                    (
                        dac_instance(routed[i].ocp->0.threshold_dac->0),
                        dac_channel(routed[i].ocp->0.threshold_dac->0),
                    ),
                )))
        }),
{
    let n = legs.len() as int;
    let list = trip_legs(legs, n);
    trip_legs_facts(legs, n);
    let cands = leg_cands(r, legs, list);
    let pick = best_routing(cands);
    routing_is_sound(cands);
    routed_facts(legs, list, pick, list.len() as int);
    let routed = routed_legs(legs, list, pick, list.len() as int);
    if legs[i].ocp is Some {
        assert(list.contains(i as usize));
        let k = choose|k: int| 0 <= k < list.len() && list[k] == i as usize;
        assert(list[k] == i);
        assert(routed[list[k] as int] == (match pick[k] {
            Some(c) => route_leg(legs[list[k] as int], c),
            None => legs[list[k] as int],
        }));
        if pick[k] is Some {
            let c = pick[k]->0;
            assert(cands[k].contains(c));
            ocp_cands_well(r, tim_nr(legs[i].tim), wants_dac(legs[i]), c);
            route_keeps_intent(r, legs[i], c);
        }
        if unrouted(list, pick, list.len() as int).len() == 0 {
            unrouted_empty(list, pick, list.len() as int);
            assert(pick[k] is Some);
        }
    } else {
        assert forall|k: int| 0 <= k < list.len() implies #[trigger] list[k] != i by {
            assert(legs[list[k] as int].ocp is Some);
        }
        assert(routed[i] == legs[i]);
    }
}

/// When every leg was routed, each trip, threshold and sense is one that the chip has,
/// and no two legs share a comparator, a DAC channel or an ADC input.
pub proof fn solved_means_conflict_free(rows: Seq<AfRow>, r: Routes, legs: Seq<ConverterLeg>)
    requires
        routes_known(r),
        legs.len() <= usize::MAX,
        assigned(rows, r, legs).ocp_unassignable.len() == 0,
        assigned(rows, r, legs).sense_unassignable.len() == 0,
    ensures
        forall|i: int|
            0 <= i < legs.len() ==> {
                let leg = #[trigger] assigned(rows, r, legs).legs[i];
                trip_fits(r, leg) && level_fits(r, leg) && sense_fits(rows, leg)
            },
        forall|i: int, j: int|
            #![trigger assigned(rows, r, legs).legs[i], assigned(rows, r, legs).legs[j]]
            0 <= i < j < legs.len() ==> !legs_clash(
                assigned(rows, r, legs).legs[i],
                assigned(rows, r, legs).legs[j],
            ),
{
    let n = legs.len() as int;
    let list = trip_legs(legs, n);
    trip_legs_facts(legs, n);
    let cands = leg_cands(r, legs, list);
    let pick = best_routing(cands);
    routing_is_sound(cands);
    routed_facts(legs, list, pick, list.len() as int);
    let routed = routed_legs(legs, list, pick, list.len() as int);
    let s = kept_senses(rows, routed, n);
    let m = s.again.len() as int;
    resensed_facts(rows, routed, m);
    let t = resensed(rows, routed, s, m);
    let out = assigned(rows, r, legs).legs;
    assert forall|i: int| 0 <= i < n implies settled(s, m, i) by {
        if s.again.contains(i as usize) {
            let x = choose|x: int| 0 <= x < s.again.len() && s.again[x] == i as usize;
            assert(s.again[x] == i as usize);
        }
    }
    assert forall|i: int| 0 <= i < n implies trip_fits(r, #[trigger] out[i]) && level_fits(
        r,
        out[i],
    ) && sense_fits(rows, out[i]) by {
        routed_leg_facts(r, legs, i);
        assert(same_but_sense(routed[i], out[i]));
        assert(settled(s, m, i));
    }
    assert forall|i: int, j: int|
        #![trigger out[i], out[j]]
        0 <= i < j < n implies !legs_clash(out[i], out[j]) by {
        routed_leg_facts(r, legs, i);
        routed_leg_facts(r, legs, j);
        assert(same_but_sense(routed[i], out[i]));
        assert(same_but_sense(routed[j], out[j]));
        assert(settled(s, m, i) && settled(s, m, j));
        if out[i].ocp is Some && out[j].ocp is Some {
            let k = choose|k: int|
                0 <= k < list.len() && #[trigger] list[k] == i && pick[k] is Some && comp_nr(
                    routed[i].ocp->0.comp,
                ) == pick[k]->0.comp && (wants_dac(routed[i]) ==> pick[k]->0.dac == Some(
                    (
                        dac_instance(routed[i].ocp->0.threshold_dac->0),
                        dac_channel(routed[i].ocp->0.threshold_dac->0),
                    ),
                ));
            let l = choose|l: int|
                0 <= l < list.len() && #[trigger] list[l] == j && pick[l] is Some && comp_nr(
                    routed[j].ocp->0.comp,
                ) == pick[l]->0.comp && (wants_dac(routed[j]) ==> pick[l]->0.dac == Some(
                    (
                        dac_instance(routed[j].ocp->0.threshold_dac->0),
                        dac_channel(routed[j].ocp->0.threshold_dac->0),
                    ),
                ));
            assert(k != l);
            if k < l {
                assert(compatible(pick[k]->0, pick[l]->0));
            } else {
                assert(compatible(pick[l]->0, pick[k]->0));
            }
        }
        if out[i].adc_sense is Some && out[i].adc_sense == out[j].adc_sense {
            assert(input_of(t.legs[i]) != input_of(t.legs[j]));
        }
    }
}

/// Whether every problem of a list is a shared timer.
pub open spec fn only_timers(v: Seq<Problem>) -> bool {
    forall|k: int| 0 <= k < v.len() ==> (#[trigger] v[k]) is TimerConflict
}

proof fn no_sense_problems(rows: Seq<AfRow>, legs: Seq<ConverterLeg>, n: int)
    requires
        0 <= n <= legs.len(),
        forall|i: int| 0 <= i < n ==> sense_fits(rows, #[trigger] legs[i]),
    ensures
        sense_problems(rows, legs, n).len() == 0,
    decreases n,
{
    if n > 0 {
        no_sense_problems(rows, legs, n - 1);
        assert(sense_fits(rows, legs[n - 1]));
    }
}

proof fn no_route_problems(r: Routes, legs: Seq<ConverterLeg>, n: int)
    requires
        0 <= n <= legs.len(),
        forall|i: int| 0 <= i < n ==> trip_fits(r, #[trigger] legs[i]) && level_fits(r, legs[i]),
    ensures
        route_problems(Some(r), legs, n).len() == 0,
    decreases n,
{
    if n > 0 {
        no_route_problems(r, legs, n - 1);
        assert(trip_fits(r, legs[n - 1]));
        assert(leg_route_problems(r, legs[n - 1], n - 1).len() == 0);
    }
}

proof fn timer_conflicts_with(legs: Seq<ConverterLeg>, a: int, b: int)
    requires
        0 <= a,
        b <= legs.len(),
        forall|j: int| a < j < b ==> !legs_clash(legs[a], #[trigger] legs[j]),
    ensures
        only_timers(conflicts_with(legs, a, b)),
    decreases b - a,
{
    if b > a + 1 {
        timer_conflicts_with(legs, a, b - 1);
        let x = conflicts_with(legs, a, b - 1);
        let y = leg_conflicts(legs[a], legs[b - 1], a, b - 1);
        assert(!legs_clash(legs[a], legs[b - 1]));
        let v = conflicts_with(legs, a, b);
        assert forall|k: int| 0 <= k < v.len() implies (#[trigger] v[k]) is TimerConflict by {
            if k < x.len() {
                assert(v[k] == x[k]);
            } else {
                assert(v[k] == y[k - x.len()]);
            }
        }
    }
}

proof fn timer_conflicts_upto(legs: Seq<ConverterLeg>, n: int)
    requires
        0 <= n <= legs.len(),
        forall|i: int, j: int|
            #![trigger legs[i], legs[j]]
            0 <= i < j < legs.len() ==> !legs_clash(legs[i], legs[j]),
    ensures
        only_timers(conflicts_upto(legs, n)),
    decreases n,
{
    if n > 0 {
        timer_conflicts_upto(legs, n - 1);
        timer_conflicts_with(legs, n - 1, legs.len() as int);
        let x = conflicts_upto(legs, n - 1);
        let y = conflicts_with(legs, n - 1, legs.len() as int);
        let v = conflicts_upto(legs, n);
        assert forall|k: int| 0 <= k < v.len() implies (#[trigger] v[k]) is TimerConflict by {
            if k < x.len() {
                assert(v[k] == x[k]);
            } else {
                assert(v[k] == y[k - x.len()]);
            }
        }
    }
}

/// When every leg was routed, what is left to complain of is at most that two legs are
/// on one timer, which routing does not touch.
pub proof fn solved_means_valid_but_for_timers(
    rows: Seq<AfRow>,
    r: Routes,
    legs: Seq<ConverterLeg>,
)
    requires
        routes_known(r),
        legs.len() <= usize::MAX,
        assigned(rows, r, legs).ocp_unassignable.len() == 0,
        assigned(rows, r, legs).sense_unassignable.len() == 0,
    ensures
        only_timers(problems_of(rows, Some(r), assigned(rows, r, legs).legs)),
{
    let out = assigned(rows, r, legs).legs;
    solved_means_conflict_free(rows, r, legs);
    assigning_keeps_intent(rows, r, legs);
    let n = out.len() as int;
    no_sense_problems(rows, out, n);
    no_route_problems(r, out, n);
    timer_conflicts_upto(out, n);
    let v = problems_of(rows, Some(r), out);
    assert(v =~= conflicts_upto(out, n));
}

/// Every break route leads to one of a timer's two break inputs.
pub open spec fn breaks_numbered(r: Routes) -> bool {
    forall|i: int|
        0 <= i < r.breaks.len() ==> 1 <= (#[trigger] r.breaks[i]).2 <= 2
}

/// Legs that want what the given ones want, every trip, threshold and sense of which the
/// chip has, and no two of which share a comparator, a DAC channel or an ADC input.
pub open spec fn is_solution(
    rows: Seq<AfRow>,
    r: Routes,
    legs: Seq<ConverterLeg>,
    out: Seq<ConverterLeg>,
) -> bool {
    &&& out.len() == legs.len()
    &&& forall|i: int|
        0 <= i < legs.len() ==> same_intent(legs[i], #[trigger] out[i]) && trip_fits(r, out[i])
            && level_fits(r, out[i]) && sense_fits(rows, out[i])
    &&& forall|i: int, j: int|
        #![trigger out[i], out[j]]
        0 <= i < j < out.len() ==> !legs_clash(out[i], out[j])
}

/// Whether every leg was routed.
pub open spec fn all_routed(a: Assigned) -> bool {
    a.ocp_unassignable.len() == 0 && a.sense_unassignable.len() == 0
}

proof fn comp_cands_hold(r: Routes, tim: u8, want_dac: bool, c: OcpCand, k: int, n: int)
    requires
        cand_well(r, tim, want_dac, c),
        0 <= k < n <= trip_comps(r, tim, c.brk).len(),
        trip_comps(r, tim, c.brk)[k] == c.comp,
    ensures
        comp_cands(r, trip_comps(r, tim, c.brk), c.brk, want_dac, n).contains(c),
    decreases n,
{
    let comps = trip_comps(r, tim, c.brk);
    let a = comp_cands(r, comps, c.brk, want_dac, n - 1);
    let b = comp_cand(r, comps[n - 1], c.brk, want_dac);
    if k < n - 1 {
        comp_cands_hold(r, tim, want_dac, c, k, n - 1);
        let x = choose|x: int| 0 <= x < a.len() && a[x] == c;
        assert((a + b)[x] == c);
    } else {
        if want_dac {
            let dacs = level_dacs(r, c.comp);
            let x = choose|x: int| 0 <= x < dacs.len() && dacs[x] == c.dac->0;
            assert(b[x] == c);
            assert((a + b)[a.len() + x] == c);
        } else {
            assert(b[0] == c);
            assert((a + b)[a.len() as int] == c);
        }
    }
}

proof fn ocp_cands_hold(r: Routes, tim: u8, want_dac: bool, c: OcpCand)
    requires
        breaks_numbered(r),
        cand_well(r, tim, want_dac, c),
    ensures
        ocp_cands(r, tim, want_dac).contains(c),
{
    let comps = trip_comps(r, tim, c.brk);
    break_comps_hold(r.breaks, tim, c.brk, r.breaks.len() as int, c.comp);
    let i = choose|i: int| 0 <= i < r.breaks.len() && #[trigger] r.breaks[i] == (c.comp, tim, c.brk);
    assert(1 <= r.breaks[i].2 <= 2);
    let k = choose|k: int| 0 <= k < comps.len() && comps[k] == c.comp;
    comp_cands_hold(r, tim, want_dac, c, k, comps.len() as int);
    let a = brk_cands(r, tim, 1, want_dac);
    let b = brk_cands(r, tim, 2, want_dac);
    let mine = brk_cands(r, tim, c.brk, want_dac);
    let x = choose|x: int| 0 <= x < mine.len() && mine[x] == c;
    if c.brk == 1 {
        assert((a + b)[x] == c);
    } else {
        assert((a + b)[a.len() + x] == c);
    }
}

/// The route of a leg.
spec fn route_of(leg: ConverterLeg) -> OcpCand {
    OcpCand {
        comp: comp_nr(leg.ocp->0.comp),
        brk: leg.ocp->0.break_input,
        dac: match leg.ocp->0.threshold_dac {
            Some(d) => Some((dac_instance(d), dac_channel(d))),
            None => None,
        },
    }
}

proof fn all_some_counted(m: Seq<Option<OcpCand>>, n: int)
    requires
        0 <= n <= m.len(),
    ensures
        count_some(m, n) <= n,
        count_some(m, n) == n <==> forall|k: int| 0 <= k < n ==> (#[trigger] m[k]) is Some,
    decreases n,
{
    if n > 0 {
        all_some_counted(m, n - 1);
        assert(m[n - 1] is Some || m[n - 1] is None);
    }
}

proof fn all_some_routed(list: Seq<usize>, pick: Seq<Option<OcpCand>>, n: int)
    requires
        0 <= n <= pick.len(),
        forall|k: int| 0 <= k < n ==> (#[trigger] pick[k]) is Some,
    ensures
        unrouted(list, pick, n).len() == 0,
    decreases n,
{
    if n > 0 {
        all_some_routed(list, pick, n - 1);
        assert(pick[n - 1] is Some);
    }
}

proof fn solvable_trips_are_routed(
    rows: Seq<AfRow>,
    r: Routes,
    legs: Seq<ConverterLeg>,
    out: Seq<ConverterLeg>,
)
    requires
        breaks_numbered(r),
        legs.len() <= usize::MAX,
        is_solution(rows, r, legs, out),
    ensures
        assigned(rows, r, legs).ocp_unassignable.len() == 0,
{
    let n = legs.len() as int;
    let list = trip_legs(legs, n);
    trip_legs_facts(legs, n);
    let cands = leg_cands(r, legs, list);
    let pick = best_routing(cands);
    let m = Seq::new(list.len(), |k: int| Some(route_of(out[list[k] as int])));
    assert forall|k: int| 0 <= k < m.len() implies (#[trigger] m[k] matches Some(c)
        ==> cands[k].contains(c)) by {
        let i = list[k] as int;
        assert(list[k] < n && legs[i].ocp is Some);
        let o = out[i];
        assert(same_intent(legs[i], o) && trip_fits(r, o) && level_fits(r, o));
        assert(cand_well(r, tim_nr(legs[i].tim), wants_dac(legs[i]), route_of(o)));
        ocp_cands_hold(r, tim_nr(legs[i].tim), wants_dac(legs[i]), route_of(o));
    }
    assert forall|j: int, k: int|
        #![trigger m[j], m[k]]
        0 <= j < k < m.len() && m[j] is Some && m[k] is Some implies compatible(m[j]->0, m[k]->0) by {
        assert(list[j] < list[k]);
        assert(list[k] < n);
        let a = out[list[j] as int];
        let b = out[list[k] as int];
        assert(legs[list[j] as int].ocp is Some && legs[list[k] as int].ocp is Some);
        assert(same_intent(legs[list[j] as int], a) && same_intent(legs[list[k] as int], b));
        assert(!legs_clash(a, b));
        let x = a.ocp->0;
        let y = b.ocp->0;
        numbers_are_inverse(x.comp, 0, DacId::Dac1Ch1, 0, 0);
        numbers_are_inverse(y.comp, 0, DacId::Dac1Ch1, 0, 0);
        assert(comp_nr(x.comp) != comp_nr(y.comp));
        if x.threshold_dac is Some && y.threshold_dac is Some {
            numbers_are_inverse(x.comp, 0, x.threshold_dac->0, 0, 0);
            numbers_are_inverse(x.comp, 0, y.threshold_dac->0, 0, 0);
        }
    }
    assert(is_routing(cands, m));
    routing_is_maximum(cands, m);
    let len = list.len() as int;
    all_some_counted(m, len);
    all_some_counted(pick, len);
    all_some_routed(list, pick, len);
}

/// The legs among the first `n` whose input is kept.
spec fn kept_by(rows: Seq<AfRow>, legs: Seq<ConverterLeg>, n: int) -> Seq<int>
    decreases n,
{
    if n <= 0 {
        Seq::empty()
    } else if kept_senses(rows, legs, n).used.len() > kept_senses(rows, legs, n - 1).used.len() {
        kept_by(rows, legs, n - 1).push(n - 1)
    } else {
        kept_by(rows, legs, n - 1)
    }
}

/// The legs that the inputs in use belong to.
spec fn used_by(rows: Seq<AfRow>, legs: Seq<ConverterLeg>, s: Senses, m: int) -> Seq<int>
    decreases m,
{
    if m <= 0 {
        kept_by(rows, legs, legs.len() as int)
    } else if resensed(rows, legs, s, m).used.len() > resensed(rows, legs, s, m - 1).used.len() {
        used_by(rows, legs, s, m - 1).push(s.again[m - 1] as int)
    } else {
        used_by(rows, legs, s, m - 1)
    }
}

proof fn kept_by_facts(rows: Seq<AfRow>, legs: Seq<ConverterLeg>, n: int)
    requires
        0 <= n <= legs.len(),
        legs.len() <= usize::MAX,
    ensures
        kept_by(rows, legs, n).len() == kept_senses(rows, legs, n).used.len(),
        forall|x: int|
            0 <= x < kept_by(rows, legs, n).len() ==> {
                let i = #[trigger] kept_by(rows, legs, n)[x];
                &&& 0 <= i < n
                &&& legs[i].adc_sense is Some
                &&& kept_senses(rows, legs, n).used[x] == input_of(legs[i])
                &&& !kept_senses(rows, legs, n).again.contains(i as usize)
            },
        kept_by(rows, legs, n).no_duplicates(),
    decreases n,
{
    if n > 0 {
        kept_by_facts(rows, legs, n - 1);
        again_facts(rows, legs, n - 1);
        let s = kept_senses(rows, legs, n - 1);
        let t = kept_senses(rows, legs, n);
        let a = kept_by(rows, legs, n - 1);
        let b = kept_by(rows, legs, n);
        assert forall|i: int| 0 <= i < n - 1 && #[trigger] t.again.contains(i as usize) implies s.again.contains(
            i as usize,
        ) by {
            let x = choose|x: int| 0 <= x < t.again.len() && t.again[x] == i as usize;
            if x < s.again.len() {
                assert(s.again[x] == i as usize);
            }
        }
        if t.used.len() > s.used.len() {
            assert(!t.again.contains((n - 1) as usize)) by {
                if t.again.contains((n - 1) as usize) {
                    let x = choose|x: int| 0 <= x < t.again.len() && t.again[x] == (n - 1) as usize;
                    assert(s.again[x] < n - 1);
                }
            }
        }
        assert forall|x: int| 0 <= x < b.len() implies {
            let i = #[trigger] b[x];
            &&& 0 <= i < n
            &&& legs[i].adc_sense is Some
            &&& t.used[x] == input_of(legs[i])
            &&& !t.again.contains(i as usize)
        } by {
            if x < a.len() {
                assert(b[x] == a[x]);
            }
        }
        assert forall|x: int, y: int| 0 <= x < b.len() && 0 <= y < b.len() && x != y implies b[x]
            != b[y] by {
            if x < a.len() {
                assert(b[x] == a[x]);
            }
            if y < a.len() {
                assert(b[y] == a[y]);
            }
        }
    }
}

proof fn used_by_facts(rows: Seq<AfRow>, legs: Seq<ConverterLeg>, m: int)
    requires
        legs.len() <= usize::MAX,
        0 <= m <= kept_senses(rows, legs, legs.len() as int).again.len(),
    ensures
        ({
            let s = kept_senses(rows, legs, legs.len() as int);
            let t = resensed(rows, legs, s, m);
            let o = used_by(rows, legs, s, m);
            &&& o.len() == t.used.len()
            &&& forall|x: int|
                0 <= x < o.len() ==> {
                    let i = #[trigger] o[x];
                    &&& 0 <= i < legs.len()
                    &&& legs[i].adc_sense is Some
                    &&& t.used[x].0 == adc_nr(sense_adc(legs[i]))
                    &&& settled(s, m, i)
                }
            &&& o.no_duplicates()
        }),
    decreases m,
{
    let n = legs.len() as int;
    let s = kept_senses(rows, legs, n);
    kept_by_facts(rows, legs, n);
    again_facts(rows, legs, n);
    if m > 0 {
        used_by_facts(rows, legs, m - 1);
        resensed_facts(rows, legs, m - 1);
        let q = resensed(rows, legs, s, m - 1);
        let t = resensed(rows, legs, s, m);
        let a = used_by(rows, legs, s, m - 1);
        let b = used_by(rows, legs, s, m);
        let at = s.again[m - 1] as int;
        assert(s.again[m - 1] < n && legs[at].adc_sense is Some);
        assert(s.again.contains(at as usize));
        assert(!settled(s, m - 1, at)) by {
            if exists|x: int| 0 <= x < m - 1 && #[trigger] s.again[x] == at as usize {
                let x = choose|x: int| 0 <= x < m - 1 && #[trigger] s.again[x] == at as usize;
                assert(s.again[x] < s.again[m - 1]);
            }
        }
        assert(same_but_sense(legs[at], q.legs[at]));
        assert(settled(s, m, at)) by {
            assert(s.again[m - 1] == at as usize);
        }
        assert forall|x: int| 0 <= x < b.len() implies {
            let i = #[trigger] b[x];
            &&& 0 <= i < n
            &&& legs[i].adc_sense is Some
            &&& t.used[x].0 == adc_nr(sense_adc(legs[i]))
            &&& settled(s, m, i)
        } by {
            if x < a.len() {
                assert(b[x] == a[x]);
                let i = a[x];
                if s.again.contains(i as usize) {
                    let y = choose|y: int| 0 <= y < m - 1 && #[trigger] s.again[y] == i as usize;
                    assert(s.again[y] == i as usize);
                }
            }
        }
        assert forall|x: int, y: int| 0 <= x < b.len() && 0 <= y < b.len() && x != y implies b[x]
            != b[y] by {
            if x < a.len() {
                assert(b[x] == a[x]);
                assert(settled(s, m - 1, a[x]));
            }
            if y < a.len() {
                assert(b[y] == a[y]);
                assert(settled(s, m - 1, a[y]));
            }
        }
    }
}

proof fn none_free(list: Seq<u8>, adc: u8, used: Seq<(u8, u8)>, k: int, x: int)
    requires
        0 <= k <= x < list.len(),
        free_channel(list, adc, used, k) is None,
    ensures
        used.contains((adc, list[x])),
    decreases list.len() - k,
{
    if k < x {
        none_free(list, adc, used, k + 1, x);
    }
}

/// Whether a leg's sense is on the ADC of a number.
spec fn senses_on(legs: Seq<ConverterLeg>, adc: u8, i: int) -> bool {
    0 <= i < legs.len() && legs[i].adc_sense is Some && adc_nr(sense_adc(legs[i])) == adc
}

/// A leg that needs an input finds one where there is a solution: else every input of its
/// ADC would be in use by another leg, and the solution would have to give two legs one.
proof fn a_channel_is_free(
    rows: Seq<AfRow>,
    legs: Seq<ConverterLeg>,
    out: Seq<ConverterLeg>,
    m: int,
)
    requires
        legs.len() <= usize::MAX,
        0 < m <= kept_senses(rows, legs, legs.len() as int).again.len(),
        out.len() == legs.len(),
        forall|i: int|
            0 <= i < legs.len() ==> sense_fits(rows, #[trigger] out[i]) && (legs[i].adc_sense is Some
                <==> out[i].adc_sense is Some) && (legs[i].adc_sense is Some ==> sense_adc(legs[i])
                == sense_adc(out[i])),
        forall|i: int, j: int|
            #![trigger out[i], out[j]]
            0 <= i < j < out.len() ==> !legs_clash(out[i], out[j]),
    ensures
        ({
            let s = kept_senses(rows, legs, legs.len() as int);
            let q = resensed(rows, legs, s, m - 1);
            let adc = adc_nr(sense_adc(q.legs[s.again[m - 1] as int]));
            free_channel(bonded_channels(rows, adc), adc, q.used, 0) is Some
        }),
{
    let n = legs.len() as int;
    let s = kept_senses(rows, legs, n);
    let q = resensed(rows, legs, s, m - 1);
    let at = s.again[m - 1] as int;
    again_facts(rows, legs, n);
    assert(s.again[m - 1] < n && legs[at].adc_sense is Some);
    resensed_facts(rows, legs, m - 1);
    assert(same_but_sense(legs[at], q.legs[at]));
    let adc = adc_nr(sense_adc(q.legs[at]));
    let list = bonded_channels(rows, adc);
    if free_channel(list, adc, q.used, 0) is None {
        let o = used_by(rows, legs, s, m - 1);
        used_by_facts(rows, legs, m - 1);
        assert(!settled(s, m - 1, at)) by {
            assert(s.again.contains(at as usize));
            if exists|x: int| 0 <= x < m - 1 && #[trigger] s.again[x] == at as usize {
                let x = choose|x: int| 0 <= x < m - 1 && #[trigger] s.again[x] == at as usize;
                assert(s.again[x] < s.again[m - 1]);
            }
        }
        let mine = vstd::set_lib::set_int_range(0, n).filter(|i: int| senses_on(legs, adc, i));
        vstd::set_lib::lemma_int_range(0, n);
        let slot = |i: int| choose|x: int|
            0 <= x < q.used.len() && #[trigger] q.used[x] == (adc, input_of(out[i]).1);
        let g = |i: int| o[slot(i)];
        assert forall|i: int| mine.contains(i) implies 0 <= #[trigger] slot(i) < q.used.len()
            && q.used[slot(i)] == (adc, input_of(out[i]).1) by {
            assert(senses_on(legs, adc, i));
            assert(sense_fits(rows, out[i]));
            let ch = input_of(out[i]).1;
            assert(sense_adc(out[i]) == sense_adc(legs[i]));
            assert(list.contains(ch));
            let x = choose|x: int| 0 <= x < list.len() && list[x] == ch;
            none_free(list, adc, q.used, 0, x);
            let y = choose|y: int| 0 <= y < q.used.len() && q.used[y] == (adc, ch);
            assert(q.used[y] == (adc, input_of(out[i]).1));
        }
        assert(vstd::relations::injective_on(g, mine)) by {
            assert forall|i: int, j: int|
                mine.contains(i) && mine.contains(j) && #[trigger] g(i) == #[trigger] g(j) implies i
                == j by {
                assert(0 <= slot(i) < q.used.len() && 0 <= slot(j) < q.used.len());
                assert(slot(i) == slot(j));
                assert(q.used[slot(i)] == (adc, input_of(out[i]).1));
                assert(q.used[slot(j)] == (adc, input_of(out[j]).1));
                assert(senses_on(legs, adc, i) && senses_on(legs, adc, j));
                assert(sense_fits(rows, out[i]) && sense_fits(rows, out[j]));
                assert(sense_adc(out[i]) == sense_adc(out[j]));
                if i < j {
                    assert(!legs_clash(out[i], out[j]));
                } else if j < i {
                    assert(!legs_clash(out[j], out[i]));
                }
            }
        }
        let image = mine.map(g);
        vstd::set_lib::lemma_map_size(mine, image, g);
        let rest = mine.remove(at);
        assert(image.subset_of(rest)) by {
            assert forall|y: int| image.contains(y) implies rest.contains(y) by {
                let i = choose|i: int| mine.contains(i) && g(i) == y;
                assert(0 <= slot(i) < q.used.len());
                let x = slot(i);
                assert(o[x] == y);
                assert(q.used[x].0 == adc);
                assert(senses_on(legs, adc, y));
                assert(settled(s, m - 1, y));
                assert(mine.contains(y));
            }
        }
        assert(senses_on(legs, adc, at));
        assert(mine.contains(at));
        vstd::set_lib::lemma_len_subset(image, rest);
    }
}

proof fn solvable_senses_are_routed(
    rows: Seq<AfRow>,
    legs: Seq<ConverterLeg>,
    out: Seq<ConverterLeg>,
    m: int,
)
    requires
        legs.len() <= usize::MAX,
        0 <= m <= kept_senses(rows, legs, legs.len() as int).again.len(),
        out.len() == legs.len(),
        forall|i: int|
            0 <= i < legs.len() ==> sense_fits(rows, #[trigger] out[i]) && (legs[i].adc_sense is Some
                <==> out[i].adc_sense is Some) && (legs[i].adc_sense is Some ==> sense_adc(legs[i])
                == sense_adc(out[i])),
        forall|i: int, j: int|
            #![trigger out[i], out[j]]
            0 <= i < j < out.len() ==> !legs_clash(out[i], out[j]),
    ensures
        resensed(rows, legs, kept_senses(rows, legs, legs.len() as int), m).failed.len() == 0,
    decreases m,
{
    if m > 0 {
        solvable_senses_are_routed(rows, legs, out, m - 1);
        a_channel_is_free(rows, legs, out, m);
    }
}

/// Automatic routing routes every leg exactly where the chip allows it at all, and what
/// it then gives is such a routing.
pub proof fn solved_where_solvable(rows: Seq<AfRow>, r: Routes, legs: Seq<ConverterLeg>)
    requires
        routes_known(r),
        breaks_numbered(r),
        legs.len() <= usize::MAX,
    ensures
        all_routed(assigned(rows, r, legs)) <==> exists|out: Seq<ConverterLeg>|
            is_solution(rows, r, legs, out),
        all_routed(assigned(rows, r, legs)) ==> is_solution(
            rows,
            r,
            legs,
            assigned(rows, r, legs).legs,
        ),
{
    if all_routed(assigned(rows, r, legs)) {
        solved_means_conflict_free(rows, r, legs);
        assigning_keeps_intent(rows, r, legs);
        assert(is_solution(rows, r, legs, assigned(rows, r, legs).legs));
    }
    if exists|out: Seq<ConverterLeg>| is_solution(rows, r, legs, out) {
        let out = choose|out: Seq<ConverterLeg>| is_solution(rows, r, legs, out);
        solvable_trips_are_routed(rows, r, legs, out);
        let n = legs.len() as int;
        let list = trip_legs(legs, n);
        trip_legs_facts(legs, n);
        let cands = leg_cands(r, legs, list);
        let pick = best_routing(cands);
        routing_is_sound(cands);
        routed_facts(legs, list, pick, list.len() as int);
        let routed = routed_legs(legs, list, pick, list.len() as int);
        assert forall|i: int| 0 <= i < n implies sense_fits(rows, #[trigger] out[i]) && (
        routed[i].adc_sense is Some <==> out[i].adc_sense is Some) && (routed[i].adc_sense is Some
            ==> sense_adc(routed[i]) == sense_adc(out[i])) by {
            routed_leg_facts(r, legs, i);
            assert(same_intent(legs[i], out[i]));
        }
        let s = kept_senses(rows, routed, n);
        solvable_senses_are_routed(rows, routed, out, s.again.len() as int);
    }
}

/// Whether no two legs are on one timer.
pub open spec fn timers_differ(legs: Seq<ConverterLeg>) -> bool {
    forall|i: int, j: int|
        #![trigger legs[i], legs[j]]
        0 <= i < j < legs.len() ==> legs[i].tim != legs[j].tim
}

proof fn no_conflicts_with(legs: Seq<ConverterLeg>, a: int, b: int)
    requires
        0 <= a < legs.len(),
        b <= legs.len(),
    ensures
        conflicts_with(legs, a, b).len() == 0 <==> forall|j: int|
            #![trigger legs[j]]
            a < j < b ==> !legs_clash(legs[a], legs[j]) && legs[a].tim != legs[j].tim,
    decreases b - a,
{
    if b > a + 1 {
        no_conflicts_with(legs, a, b - 1);
        let p = legs[a];
        let q = legs[b - 1];
        assert(leg_conflicts(p, q, a, b - 1).len() == 0 <==> !legs_clash(p, q) && p.tim != q.tim);
    }
}

proof fn no_conflicts_upto(legs: Seq<ConverterLeg>, n: int)
    requires
        0 <= n <= legs.len(),
    ensures
        conflicts_upto(legs, n).len() == 0 <==> forall|i: int, j: int|
            #![trigger legs[i], legs[j]]
            0 <= i < n && i < j < legs.len() ==> !legs_clash(legs[i], legs[j]) && legs[i].tim
                != legs[j].tim,
    decreases n,
{
    if n > 0 {
        no_conflicts_upto(legs, n - 1);
        no_conflicts_with(legs, n - 1, legs.len() as int);
        if conflicts_upto(legs, n).len() != 0 && conflicts_upto(legs, n - 1).len() == 0 {
            let j = choose|j: int|
                #![trigger legs[j]]
                n - 1 < j < legs.len() && !(!legs_clash(legs[n - 1], legs[j]) && legs[n - 1].tim
                    != legs[j].tim);
            assert(legs[n - 1] == legs[n - 1] && legs[j] == legs[j]);
        }
    }
}

proof fn senses_fit(rows: Seq<AfRow>, legs: Seq<ConverterLeg>, n: int)
    requires
        0 <= n <= legs.len(),
        sense_problems(rows, legs, n).len() == 0,
    ensures
        forall|i: int| 0 <= i < n ==> sense_fits(rows, #[trigger] legs[i]),
    decreases n,
{
    if n > 0 {
        senses_fit(rows, legs, n - 1);
    }
}

proof fn routes_fit(r: Routes, legs: Seq<ConverterLeg>, n: int)
    requires
        0 <= n <= legs.len(),
        route_problems(Some(r), legs, n).len() == 0,
    ensures
        forall|i: int|
            0 <= i < n ==> trip_fits(r, #[trigger] legs[i]) && level_fits(r, legs[i]),
    decreases n,
{
    if n > 0 {
        routes_fit(r, legs, n - 1);
        assert(leg_route_problems(r, legs[n - 1], n - 1).len() == 0);
    }
}

/// Where no two legs are on one timer, automatic routing routes every leg exactly if the
/// converter has no problem afterwards.
pub proof fn solved_means_valid(rows: Seq<AfRow>, r: Routes, legs: Seq<ConverterLeg>)
    requires
        routes_known(r),
        breaks_numbered(r),
        legs.len() <= usize::MAX,
        timers_differ(legs),
    ensures
        all_routed(assigned(rows, r, legs)) <==> problems_of(
            rows,
            Some(r),
            assigned(rows, r, legs).legs,
        ).len() == 0,
{
    let out = assigned(rows, r, legs).legs;
    let n = legs.len() as int;
    assigning_keeps_intent(rows, r, legs);
    assert forall|i: int, j: int|
        #![trigger out[i], out[j]]
        0 <= i < j < out.len() implies out[i].tim != out[j].tim by {
        assert(same_intent(legs[i], out[i]) && same_intent(legs[j], out[j]));
    }
    no_conflicts_upto(out, n);
    if all_routed(assigned(rows, r, legs)) {
        solved_means_conflict_free(rows, r, legs);
        no_sense_problems(rows, out, n);
        no_route_problems(r, out, n);
    }
    if problems_of(rows, Some(r), out).len() == 0 {
        senses_fit(rows, out, n);
        routes_fit(r, out, n);
        assert(is_solution(rows, r, legs, out));
        solved_where_solvable(rows, r, legs);
    }
}

proof fn family_breaks_are_numbered(mcu: Mcu)
    ensures
        routes_of(mcu) matches Some(r) ==> breaks_numbered(r),
{
    if mcu == Mcu::C531 {
        let r = routes_of(mcu)->0;
        assert forall|i: int| 0 <= i < r.breaks.len() implies 1 <= (#[trigger] r.breaks[i]).2
            <= 2 by {}
    }
}

/// On a family with known routes, automatic routing routes every leg exactly where that is
/// possible at all, and, where no two legs are on one timer, exactly if the converter is
/// valid afterwards.
pub proof fn auto_assign_solves_what_it_can(rows: Seq<AfRow>, mcu: Mcu, legs: Seq<ConverterLeg>)
    requires
        routes_of(mcu) is Some,
        legs.len() <= usize::MAX,
    ensures
        ({
            let a = auto_assigned(rows, routes_of(mcu), legs);
            &&& all_routed(a) <==> exists|out: Seq<ConverterLeg>|
                is_solution(rows, routes_of(mcu)->0, legs, out)
            &&& timers_differ(legs) ==> (all_routed(a) <==> problems_of(
                rows,
                routes_of(mcu),
                a.legs,
            ).len() == 0)
        }),
{
    let r = routes_of(mcu)->0;
    family_routes_known(mcu);
    family_breaks_are_numbered(mcu);
    solved_where_solvable(rows, r, legs);
    if timers_differ(legs) {
        solved_means_valid(rows, r, legs);
    }
}

} // verus!
