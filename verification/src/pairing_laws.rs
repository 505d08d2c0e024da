//! How the planner groups channels into pairs: what is left after the zero-cross and the gain
//! pairs goes two by two in pin order, a channel with the next one on another ADC.

use vstd::prelude::*;

use crate::frontend_laws::amps_facts;
use crate::frontend_laws::apart;
use crate::frontend_laws::both_read;
use crate::frontend_laws::carve_keeps;
use crate::frontend_laws::comps_facts;
use crate::frontend_laws::fillers_facts;
use crate::frontend_laws::in_pair;
use crate::frontend_laws::marked;
use crate::frontend_laws::marked_facts;
use crate::frontend_laws::pairs_are_apart;
use crate::frontend_laws::reads_well;
use crate::frontend_laws::same_slot;
use crate::frontend_laws::solve_is_sound;
use crate::frontend_laws::tells_amp;
use crate::frontend_order_laws::pin_order_goes_up;
use crate::frontend_order_laws::pins_differ;
use crate::frontend_order_laws::rank_fits;
use crate::frontend_order_laws::sorted_holds_all;
use crate::frontend_plan::instances_in;
use crate::frontend_plan::slot_of;
use crate::frontend_plan::AdcRead;
use crate::frontend_plan::CapView;
use crate::frontend_plan::ChannelPlan;
use crate::frontend_plan::FrontEndPlan;
use crate::frontend_plan::PairPlan;
use crate::frontend_plan::PlanConfig;
use crate::frontend_plan::Slot;
use crate::frontend_plan::ZeroCrossOption;
use crate::frontend_slots::cross_slots;
use crate::frontend_slots::free_slot;
use crate::frontend_slots::opt_free;
use crate::frontend_solver::amp_lists;
use crate::frontend_solver::at_pin;
use crate::frontend_solver::carve;
use crate::frontend_solver::choose_from;
use crate::frontend_solver::comp_lists;
use crate::frontend_solver::count_some;
use crate::frontend_solver::direct;
use crate::frontend_solver::fillers;
use crate::frontend_solver::gain;
use crate::frontend_solver::gain_all;
use crate::frontend_solver::in_pin_order;
use crate::frontend_solver::index_of_finds;
use crate::frontend_solver::is_plan;
use crate::frontend_solver::options_fit;
use crate::frontend_solver::output_of;
use crate::frontend_solver::pair_indices;
use crate::frontend_solver::pair_plans;
use crate::frontend_solver::pair_up;
use crate::frontend_solver::part_names;
use crate::frontend_solver::partner;
use crate::frontend_solver::place_names;
use crate::frontend_solver::singles;
use crate::frontend_solver::solve;
use crate::frontend_solver::somes;
use crate::frontend_solver::somes_facts;
use crate::frontend_solver::spare;
use crate::frontend_solver::thrifty;
use crate::frontend_solver::thrifty_fit;
use crate::frontend_solver::through;
use crate::frontend_solver::unpaired;
use crate::frontend_solver::unspent;
use crate::frontend_solver::usable_fit;
use crate::frontend_solver::usable_options;
use crate::frontend_solver::OutView;
use crate::frontend_solver::Sketch;
use crate::frontend_solver::Solved;
use crate::matching;
use crate::mcu_pinout::pin_rank;
use crate::mcu_pinout::PinId;
use crate::order;
use crate::order::order_of;
use crate::order::picked;
use crate::ranked::includes;
use crate::ranked::Ranked;

verus! {

/// The ADC that a channel is read on.
pub open spec fn adc_of(c: ChannelPlan) -> Seq<char> {
    match c.read {
        AdcRead::Direct { adc, ch } => adc@,
        AdcRead::ViaOpamp { opamp, adc, ch } => adc@,
    }
}

/// Whether a pin comes before another: by port, then by number.
pub open spec fn pin_earlier(a: PinId, b: PinId) -> bool {
    a.port < b.port || (a.port == b.port && a.num < b.num)
}

/// Whether a pair is neither a zero-cross pair nor one with two amplifiers.
pub open spec fn is_plain_pair(p: PairPlan) -> bool {
    p.zero_cross is None && !p.full_pga
}

spec fn adc_at(reads: Seq<Option<AdcRead>>, x: usize) -> Seq<char> {
    match reads[x as int]->0 {
        AdcRead::Direct { adc, ch } => adc@,
        AdcRead::ViaOpamp { opamp, adc, ch } => adc@,
    }
}

proof fn partner_is_first(list: Seq<usize>, reads: Seq<Option<AdcRead>>, adc: Seq<char>, k: int)
    requires
        0 <= k <= list.len(),
    ensures
        ({
            let p = partner(list, reads, adc, k);
            ||| p == 0 && forall|j: int|
                k <= j < list.len() ==> adc_at(reads, #[trigger] list[j]) == adc
            ||| k <= p < list.len() && adc_at(reads, list[p]) != adc && forall|j: int|
                k <= j < p ==> adc_at(reads, #[trigger] list[j]) == adc
        }),
    decreases list.len() - k,
{
    if k < list.len() && adc_at(reads, list[k]) == adc {
        partner_is_first(list, reads, adc, k + 1);
    }
}

/// What holds of an early pair and an end of a later one.
spec fn greedy_step(
    reads: Seq<Option<AdcRead>>,
    rank: spec_fn(usize) -> int,
    a: (usize, usize),
    x: usize,
) -> bool {
    let here = adc_at(reads, a.0);
    let there = adc_at(reads, a.1);
    &&& here == there ==> adc_at(reads, x) == here
    &&& rank(a.0) < rank(x)
    &&& here == there || adc_at(reads, x) != here ==> rank(a.1) < rank(x)
}

proof fn pair_up_is_greedy(list: Seq<usize>, reads: Seq<Option<AdcRead>>, rank: spec_fn(usize) -> int)
    requires
        forall|i: int, j: int|
            #![trigger list[i], list[j]]
            0 <= i < j < list.len() ==> rank(list[i]) < rank(list[j]),
    ensures
        ({
            let r = pair_up(list, reads);
            &&& forall|k: int|
                0 <= k < r.len() ==> list.contains((#[trigger] r[k]).0) && list.contains(r[k].1)
            &&& forall|k: int|
                0 <= k < r.len() ==> rank((#[trigger] r[k]).0) < rank(r[k].1) || (r[k].0 == r[k].1
                    && k == r.len() - 1)
            &&& forall|k: int, l: int|
                #![trigger r[k], r[l]]
                0 <= k < l < r.len() ==> greedy_step(reads, rank, r[k], r[l].0) && greedy_step(
                    reads,
                    rank,
                    r[k],
                    r[l].1,
                )
        }),
    decreases list.len(),
{
    let r = pair_up(list, reads);
    if list.len() == 1 {
        assert(r[0] == (list[0], list[0]));
    } else if list.len() > 1 {
        let rest = list.skip(1);
        let adc = adc_at(reads, list[0]);
        partner_is_first(rest, reads, adc, 0);
        let p = partner(rest, reads, adc, 0);
        let tail = rest.remove(p);
        let t = pair_up(tail, reads);
        let head = (list[0], rest[p]);
        assert(r == seq![head] + t);
        assert forall|j: int| 0 <= j < rest.len() implies #[trigger] rest[j] == list[j + 1] by {}
        assert forall|i: int, j: int|
            #![trigger tail[i], tail[j]]
            0 <= i < j < tail.len() implies rank(tail[i]) < rank(tail[j]) by {
            let x = 1 + (if i < p {
                i
            } else {
                i + 1
            });
            let y = 1 + (if j < p {
                j
            } else {
                j + 1
            });
            assert(tail[i] == list[x] && tail[j] == list[y]);
        }
        pair_up_is_greedy(tail, reads, rank);
        assert forall|x: usize| tail.contains(x) implies list.contains(x) && greedy_step(
            reads,
            rank,
            head,
            x,
        ) by {
            let i = choose|i: int| 0 <= i < tail.len() && tail[i] == x;
            let j = if i < p {
                i
            } else {
                i + 1
            };
            assert(tail[i] == rest[j] && rest[j] == list[j + 1]);
            assert(rank(list[0]) < rank(list[j + 1]));
            assert(rest[p] == list[p + 1]);
            if i < p {
                assert(adc_at(reads, rest[j]) == adc);
            } else {
                assert(rank(list[p + 1]) < rank(list[j + 1]));
            }
        }
        assert forall|k: int| 0 <= k < r.len() implies list.contains((#[trigger] r[k]).0)
            && list.contains(r[k].1) by {
            if k == 0 {
                assert(list[0] == r[k].0 && list[p + 1] == r[k].1);
            } else {
                assert(r[k] == t[k - 1]);
            }
        }
        assert forall|k: int| 0 <= k < r.len() implies rank((#[trigger] r[k]).0) < rank(r[k].1) || (
        r[k].0 == r[k].1 && k == r.len() - 1) by {
            if k == 0 {
                assert(rank(list[0]) < rank(list[p + 1]));
            } else {
                assert(r[k] == t[k - 1]);
            }
        }
        assert forall|k: int, l: int|
            #![trigger r[k], r[l]]
            0 <= k < l < r.len() implies greedy_step(reads, rank, r[k], r[l].0) && greedy_step(
            reads,
            rank,
            r[k],
            r[l].1,
        ) by {
            assert(r[l] == t[l - 1]);
            assert(tail.contains(t[l - 1].0) && tail.contains(t[l - 1].1));
            if k > 0 {
                assert(r[k] == t[k - 1]);
            }
        }
    }
}

proof fn singles_go_up(caps: Seq<CapView>, d: Sketch)
    requires
        pins_differ(caps),
        d.chosen.no_duplicates(),
        d.chosen.len() <= usize::MAX,
        forall|k: int| 0 <= k < d.chosen.len() ==> (#[trigger] d.chosen[k]) < caps.len(),
    ensures
        ({
            let v = singles(caps, d);
            forall|i: int, j: int|
                #![trigger v[i], v[j]]
                0 <= i < j < v.len() ==> pin_rank(caps[v[i] as int].pin) < pin_rank(
                    caps[v[j] as int].pin,
                )
        }),
{
    let list = unpaired(d, d.chosen.len() as int);
    let keys = list.map_values(|i: usize| pin_rank(caps[i as int].pin) as u64);
    unpaired_are_chosen(d, d.chosen.len() as int);
    order::order_of_is_stable(keys);
    let o = order_of(keys);
    let v = singles(caps, d);
    assert forall|i: int, j: int|
        #![trigger v[i], v[j]]
        0 <= i < j < v.len() implies pin_rank(caps[v[i] as int].pin) < pin_rank(
        caps[v[j] as int].pin,
    ) by {
        let a = o[i] as int;
        let b = o[j] as int;
        assert(o[i] < list.len() && o[j] < list.len());
        assert(a != b);
        assert(v[i] == list[a] && v[j] == list[b]);
        let p = caps[list[a] as int].pin;
        let q = caps[list[b] as int].pin;
        rank_fits(p);
        rank_fits(q);
        assert(keys[a] == pin_rank(p) && keys[b] == pin_rank(q));
        assert(list[a] != list[b]) by {
            if a < b {
                assert(list[a] != list[b]);
            } else {
                assert(list[b] != list[a]);
            }
        }
        if pin_rank(p) == pin_rank(q) {
            crate::frontend_order_laws::rank_tells_apart(p, q);
            if list[a] < list[b] {
                assert(caps[list[a] as int].pin != caps[list[b] as int].pin);
            } else {
                assert(caps[list[b] as int].pin != caps[list[a] as int].pin);
            }
        }
    }
}

proof fn singles_come_once(caps: Seq<CapView>, d: Sketch)
    requires
        d.chosen.no_duplicates(),
        d.chosen.len() <= usize::MAX,
        forall|k: int| 0 <= k < d.chosen.len() ==> (#[trigger] d.chosen[k]) < caps.len(),
    ensures
        singles(caps, d).no_duplicates(),
{
    let list = unpaired(d, d.chosen.len() as int);
    let keys = list.map_values(|i: usize| pin_rank(caps[i as int].pin) as u64);
    unpaired_are_chosen(d, d.chosen.len() as int);
    order::order_of_is_stable(keys);
    let o = order_of(keys);
    let v = singles(caps, d);
    assert forall|i: int, j: int| 0 <= i < v.len() && 0 <= j < v.len() && i != j implies v[i]
        != v[j] by {
        let a = o[i] as int;
        let b = o[j] as int;
        assert(o[i] < list.len() && o[j] < list.len());
        assert(a != b);
        assert(v[i] == list[a] && v[j] == list[b]);
        if a < b {
            assert(list[a] != list[b]);
        } else {
            assert(list[b] != list[a]);
        }
    }
}

proof fn unpaired_are_chosen(d: Sketch, k: int)
    requires
        0 <= k <= d.chosen.len(),
        d.chosen.no_duplicates(),
    ensures
        unpaired(d, k).len() <= k,
        forall|i: int|
            0 <= i < unpaired(d, k).len() ==> exists|j: int|
                0 <= j < k && #[trigger] unpaired(d, k)[i] == d.chosen[j],
        forall|i: int, j: int|
            #![trigger unpaired(d, k)[i], unpaired(d, k)[j]]
            0 <= i < j < unpaired(d, k).len() ==> unpaired(d, k)[i] != unpaired(d, k)[j],
    decreases k,
{
    if k > 0 {
        unpaired_are_chosen(d, k - 1);
        let u = unpaired(d, k - 1);
        let v = unpaired(d, k);
        assert forall|i: int| 0 <= i < v.len() implies exists|j: int|
            0 <= j < k && #[trigger] v[i] == d.chosen[j] by {
            if i < u.len() {
                assert(v[i] == u[i]);
                let j = choose|j: int| 0 <= j < k - 1 && u[i] == d.chosen[j];
                assert(v[i] == d.chosen[j]);
            } else {
                assert(v[i] == d.chosen[k - 1]);
            }
        }
        assert forall|i: int, j: int|
            #![trigger v[i], v[j]]
            0 <= i < j < v.len() implies v[i] != v[j] by {
            assert(v[i] == u[i]);
            if j < u.len() {
                assert(v[j] == u[j]);
            } else {
                let x = choose|x: int| 0 <= x < k - 1 && u[i] == d.chosen[x];
                assert(d.chosen[x] != d.chosen[k - 1]);
            }
        }
    }
}

/// The gain pairs are read through two amplifiers.
pub closed spec fn gained_through(d: Sketch) -> bool {
    forall|k: int|
        0 <= k < d.gained.len() ==> {
            let g = #[trigger] d.gained[k];
            &&& g.0 != g.1
            &&& g.0 < d.reads.len()
            &&& g.1 < d.reads.len()
            &&& d.reads[g.0 as int] matches Some(r) && r is ViaOpamp
            &&& d.reads[g.1 as int] matches Some(r) && r is ViaOpamp
        }
}

proof fn gain_goes_through(out: OutView, amps: Seq<Option<&'static str>>, d: Sketch, k: int)
    requires
        d.gained.len() == 0,
        amps.len() <= usize::MAX,
        d.reads.len() == amps.len(),
        0 <= 2 * k <= somes(amps, amps.len() as int).len(),
    ensures
        gained_through(gain(out, amps, somes(amps, amps.len() as int), d, k)),
        gain(out, amps, somes(amps, amps.len() as int), d, k).reads.len() == amps.len(),
    decreases k,
{
    let pins = somes(amps, amps.len() as int);
    somes_facts(amps, amps.len() as int);
    if k > 0 {
        gain_goes_through(out, amps, d, k - 1);
        let e = gain(out, amps, pins, d, k - 1);
        let f = gain(out, amps, pins, d, k);
        let a = pins[2 * (k - 1)];
        let b = pins[2 * k - 1];
        assert(a < b);
        assert forall|x: int| 0 <= x < f.gained.len() implies {
            let g = #[trigger] f.gained[x];
            &&& g.0 != g.1
            &&& g.0 < f.reads.len()
            &&& g.1 < f.reads.len()
            &&& f.reads[g.0 as int] matches Some(r) && r is ViaOpamp
            &&& f.reads[g.1 as int] matches Some(r) && r is ViaOpamp
        } by {
            if x < e.gained.len() {
                assert(f.gained[x] == e.gained[x]);
            }
        }
    }
}

proof fn choosing_keeps_gain(caps: Seq<CapView>, channels: int, list: Seq<usize>, d: Sketch, k: int)
    requires
        gained_through(d),
        d.reads.len() == caps.len(),
        forall|i: int| 0 <= i < list.len() ==> (#[trigger] list[i]) < caps.len(),
        0 <= k <= list.len(),
    ensures
        gained_through(choose_from(caps, channels, list, d, k)),
        choose_from(caps, channels, list, d, k).reads.len() == caps.len(),
    decreases k,
{
    if k > 0 {
        choosing_keeps_gain(caps, channels, list, d, k - 1);
        let e = choose_from(caps, channels, list, d, k - 1);
        let f = choose_from(caps, channels, list, d, k);
        assert(f.gained == e.gained);
        assert forall|x: int| 0 <= x < f.gained.len() implies {
            let g = #[trigger] f.gained[x];
            &&& g.0 != g.1
            &&& g.0 < f.reads.len()
            &&& g.1 < f.reads.len()
            &&& f.reads[g.0 as int] matches Some(r) && r is ViaOpamp
            &&& f.reads[g.1 as int] matches Some(r) && r is ViaOpamp
        } by {
            assert(f.gained[x] == e.gained[x]);
        }
    }
}

/// Whether every input that is noted as used is one that a pin is read on.
pub closed spec fn used_are_read(d: Sketch) -> bool {
    forall|u: int| 0 <= u < d.used.len() ==> is_read_on(d.reads, #[trigger] d.used[u])
}

spec fn is_read_on(reads: Seq<Option<AdcRead>>, s: Slot) -> bool {
    exists|i: int| 0 <= i < reads.len() && #[trigger] reads_on(reads, i, s)
}

spec fn reads_on(reads: Seq<Option<AdcRead>>, i: int, s: Slot) -> bool {
    reads[i] matches Some(r) && slot_of(r) == s
}

proof fn one_more_is_read(d: Sketch, e: Sketch, i: int, r: AdcRead)
    requires
        used_are_read(d),
        0 <= i < d.reads.len(),
        d.reads[i] is None,
        e.reads == d.reads.update(i, Some(r)),
        e.used == d.used.push(slot_of(r)),
    ensures
        used_are_read(e),
{
    assert forall|u: int| 0 <= u < e.used.len() implies is_read_on(
        e.reads,
        #[trigger] e.used[u],
    ) by {
        if u < d.used.len() {
            assert(e.used[u] == d.used[u]);
            assert(is_read_on(d.reads, d.used[u]));
            let j = choose|j: int|
                0 <= j < d.reads.len() && #[trigger] reads_on(d.reads, j, d.used[u]);
            assert(reads_on(e.reads, j, e.used[u]));
        } else {
            assert(reads_on(e.reads, i, e.used[u]));
        }
    }
}

proof fn carving_reads_what_it_uses(
    caps: Seq<CapView>,
    want: int,
    opts: Seq<ZeroCrossOption>,
    n: int,
)
    requires
        0 <= n <= opts.len(),
        options_fit(opts, caps),
        forall|i: int| 0 <= i < opts.len() ==> (#[trigger] opts[i]).plus != opts[i].minus,
    ensures
        used_are_read(carve(caps, want, opts, n)),
        carve(caps, want, opts, n).reads.len() == caps.len(),
    decreases n,
{
    if n > 0 {
        carving_reads_what_it_uses(caps, want, opts, n - 1);
        let d = carve(caps, want, opts, n - 1);
        let e = carve(caps, want, opts, n);
        let o = opts[n - 1];
        index_of_finds(caps, o.plus, caps.len() as int);
        index_of_finds(caps, o.minus, caps.len() as int);
        let a = at_pin(caps, o.plus)->0;
        let b = at_pin(caps, o.minus)->0;
        if e != d {
            let picks = cross_slots(Some(caps[a].adc), Some(caps[b].adc), d.used);
            let s = picks.0->0;
            let t = picks.1->0;
            assert(a != b);
            let f = Sketch {
                used: d.used.push(s),
                reads: d.reads.update(a, direct(s)),
                ..d
            };
            one_more_is_read(d, f, a, direct(s)->0);
            one_more_is_read(f, e, b, direct(t)->0);
        }
    }
}

proof fn gaining_reads_what_it_uses(
    out: OutView,
    amps: Seq<Option<&'static str>>,
    d: Sketch,
    k: int,
)
    requires
        used_are_read(d),
        amps.len() <= usize::MAX,
        d.reads.len() == amps.len(),
        forall|i: int| 0 <= i < amps.len() && (#[trigger] amps[i]) is Some ==> d.reads[i] is None,
        0 <= 2 * k <= somes(amps, amps.len() as int).len(),
    ensures
        ({
            let pins = somes(amps, amps.len() as int);
            let e = gain(out, amps, pins, d, k);
            &&& used_are_read(e)
            &&& e.reads.len() == amps.len()
            &&& forall|j: int| 2 * k <= j < pins.len() ==> e.reads[(#[trigger] pins[j]) as int] is None
        }),
    decreases k,
{
    let pins = somes(amps, amps.len() as int);
    somes_facts(amps, amps.len() as int);
    if k > 0 {
        gaining_reads_what_it_uses(out, amps, d, k - 1);
        let e = gain(out, amps, pins, d, k - 1);
        let f = gain(out, amps, pins, d, k);
        let a = pins[2 * (k - 1)];
        let b = pins[2 * k - 1];
        assert(a < b);
        assert(e.reads[a as int] is None && e.reads[b as int] is None);
        let picks = cross_slots(
            output_of(out, amps, a as int),
            output_of(out, amps, b as int),
            e.used,
        );
        if picks.0 is Some && picks.1 is Some {
            let s = picks.0->0;
            let t = picks.1->0;
            let g = Sketch {
                used: e.used.push(s),
                reads: e.reads.update(a as int, through(amps[a as int]->0, s)),
                ..e
            };
            one_more_is_read(e, g, a as int, through(amps[a as int]->0, s)->0);
            one_more_is_read(g, f, b as int, through(amps[b as int]->0, t)->0);
        }
        assert forall|j: int| 2 * k <= j < pins.len() implies f.reads[(
        #[trigger] pins[j]) as int] is None by {
            assert(b < pins[j]);
            assert(e.reads[pins[j] as int] is None);
        }
    } else {
        assert forall|j: int| 0 <= j < pins.len() implies d.reads[(#[trigger] pins[j]) as int] is None by {
            assert(amps[pins[j] as int] is Some);
        }
    }
}

proof fn gaining_all_reads_what_it_uses(out: OutView, amps: Seq<Option<&'static str>>, d: Sketch)
    requires
        d.gained.len() == 0,
        amps.len() <= usize::MAX,
        d.reads.len() == amps.len(),
        forall|i: int| 0 <= i < amps.len() && (#[trigger] amps[i]) is Some ==> d.reads[i] is None,
    ensures
        used_are_read(d) ==> used_are_read(gain_all(out, amps, d)),
        gained_through(gain_all(out, amps, d)),
        gain_all(out, amps, d).reads.len() == amps.len(),
{
    let pins = somes(amps, amps.len() as int);
    somes_facts(amps, amps.len() as int);
    let half = (pins.len() / 2) as int;
    if used_are_read(d) {
        gaining_reads_what_it_uses(out, amps, d, half);
    }
    gain_goes_through(out, amps, d, half);
    let e = gain(out, amps, pins, d, half);
    let f = gain_all(out, amps, d);
    if pins.len() % 2 == 1 {
        let i = pins.last();
        assert(i == pins[2 * half]);
        if let Some(s) = opt_free(output_of(out, amps, i as int), e.used) {
            if used_are_read(d) {
                one_more_is_read(e, f, i as int, through(amps[i as int]->0, s)->0);
            }
            assert(f.gained == e.gained);
            assert forall|x: int| 0 <= x < f.gained.len() implies {
                let g = #[trigger] f.gained[x];
                &&& g.0 != g.1
                &&& g.0 < f.reads.len()
                &&& g.1 < f.reads.len()
                &&& f.reads[g.0 as int] matches Some(r) && r is ViaOpamp
                &&& f.reads[g.1 as int] matches Some(r) && r is ViaOpamp
            } by {
                assert(f.gained[x] == e.gained[x]);
            }
        }
    }
}

proof fn free_or_used(list: Seq<Slot>, used: Seq<Slot>, k: int)
    requires
        0 <= k,
    ensures
        free_slot(list, used, k) is None ==> forall|j: int|
            k <= j < list.len() ==> includes(used, #[trigger] list[j]),
    decreases list.len() - k,
{
    if k < list.len() {
        free_or_used(list, used, k + 1);
    }
}

proof fn choosing_reads_what_it_uses(
    caps: Seq<CapView>,
    channels: int,
    list: Seq<usize>,
    d: Sketch,
    k: int,
)
    requires
        used_are_read(d),
        d.reads.len() == caps.len(),
        forall|i: int| 0 <= i < list.len() ==> (#[trigger] list[i]) < caps.len(),
        0 <= k <= list.len(),
    ensures
        ({
            let e = choose_from(caps, channels, list, d, k);
            &&& used_are_read(e)
            &&& e.reads.len() == caps.len()
            &&& forall|i: int|
                0 <= i < caps.len() && (#[trigger] d.reads[i]) is Some ==> e.reads[i] is Some
            &&& forall|j: int|
                0 <= j < k ==> tried(caps, channels, e, #[trigger] list[j])
        }),
    decreases k,
{
    if k > 0 {
        choosing_reads_what_it_uses(caps, channels, list, d, k - 1);
        let e = choose_from(caps, channels, list, d, k - 1);
        let f = choose_from(caps, channels, list, d, k);
        let i = list[k - 1];
        free_or_used(caps[i as int].adc, e.used, 0);
        if f != e {
            let s = free_slot(caps[i as int].adc, e.used, 0)->0;
            one_more_is_read(e, f, i as int, direct(s)->0);
        }
        assert forall|j: int| 0 <= j < k implies tried(caps, channels, f, #[trigger] list[j]) by {
            if j < k - 1 {
                assert(tried(caps, channels, e, list[j]));
                if f != e && e.chosen.len() < channels && e.reads[list[j] as int] is None
                    && f.reads[list[j] as int] is None {
                    assert forall|x: int|
                        0 <= x < caps[list[j] as int].adc.len() implies includes(
                        f.used,
                        #[trigger] caps[list[j] as int].adc[x],
                    ) by {
                        let t = caps[list[j] as int].adc[x];
                        assert(includes(e.used, t));
                        let y = choose|y: int|
                            0 <= y < e.used.len() && (#[trigger] e.used[y]).alike(&t);
                        assert(f.used[y] == e.used[y]);
                    }
                }
            }
        }
    }
}

/// Whether a pin is read, or could not be: no channel was left, or no input of its own.
pub closed spec fn tried(caps: Seq<CapView>, channels: int, d: Sketch, i: usize) -> bool {
    ||| d.chosen.len() >= channels
    ||| d.reads[i as int] is Some
    ||| forall|x: int|
        0 <= x < caps[i as int].adc.len() ==> includes(d.used, #[trigger] caps[i as int].adc[x])
}

proof fn fillers_hold_all(caps: Seq<CapView>, reads: Seq<Option<AdcRead>>, i: int)
    requires
        caps.len() <= usize::MAX,
        0 <= i < caps.len(),
        reads[i] is None,
        caps[i].adc.len() > 0,
    ensures
        fillers(caps, reads).contains(i as usize),
{
    let list = spare(caps, reads, caps.len() as int);
    spare_holds(caps, reads, caps.len() as int, i);
    let keys = list.map_values(
        |i: usize|
            instances_in(caps[i as int].adc, caps[i as int].adc.len() as int).len() as u64,
    );
    spare_is_short(caps, reads, caps.len() as int);
    sorted_holds_all(list, keys);
    assert(list.contains(i as usize));
    assert(picked(list, order_of(keys)).contains(i as usize));
}

proof fn spare_is_short(caps: Seq<CapView>, reads: Seq<Option<AdcRead>>, n: int)
    requires
        0 <= n,
    ensures
        spare(caps, reads, n).len() <= n,
    decreases n,
{
    if n > 0 {
        spare_is_short(caps, reads, n - 1);
    }
}

proof fn spare_holds(caps: Seq<CapView>, reads: Seq<Option<AdcRead>>, n: int, i: int)
    requires
        0 <= i < n <= caps.len(),
        reads[i] is None,
        caps[i].adc.len() > 0,
    ensures
        spare(caps, reads, n).contains(i as usize),
    decreases n,
{
    let v = spare(caps, reads, n);
    if i < n - 1 {
        spare_holds(caps, reads, n - 1, i);
        let u = spare(caps, reads, n - 1);
        let k = choose|k: int| 0 <= k < u.len() && u[k] == i as usize;
        assert(v[k] == i as usize);
    } else {
        assert(v[v.len() - 1] == i as usize);
    }
}

/// Whether each option has two different pins.
pub open spec fn pins_apart(opts: Seq<ZeroCrossOption>) -> bool {
    forall|i: int| 0 <= i < opts.len() ==> (#[trigger] opts[i]).plus != opts[i].minus
}

/// What the stages of the planner come to.
pub proof fn stages_come_to(
    caps: Seq<CapView>,
    out: OutView,
    opts: Seq<ZeroCrossOption>,
    channels: int,
    target: int,
)
    requires
        caps.len() <= usize::MAX,
        opts.len() <= usize::MAX,
        0 <= channels,
        0 <= target,
        part_names(caps, true, caps.len() as int).len() <= usize::MAX,
        part_names(caps, false, caps.len() as int).len() <= usize::MAX,
    ensures
        ({
            let d = solve(caps, out, opts, channels, target).d;
            &&& d.reads.len() == caps.len()
            &&& gained_through(d)
            &&& pins_apart(opts) ==> used_are_read(d)
            &&& pins_apart(opts) ==> forall|i: int|
                0 <= i < caps.len() && caps[i].adc.len() > 0 ==> #[trigger] tried(
                    caps,
                    channels,
                    d,
                    i as usize,
                )
        }),
{
    let n = caps.len() as int;
    let fit = usable_options(opts, caps, opts.len() as int);
    usable_fit(opts, caps, opts.len() as int);
    thrifty_fit(fit, caps);
    let want = if target < channels / 2 {
        target
    } else {
        channels / 2
    };
    let list = thrifty(fit, caps);
    carve_keeps(caps, out, want, list, list.len() as int);
    if pins_apart(opts) {
        assert forall|i: int| 0 <= i < list.len() implies (#[trigger] list[i]).plus
            != list[i].minus by {
            assert(fit.contains(list[i]));
            let j = choose|j: int| 0 <= j < fit.len() && fit[j] == list[i];
            assert(opts.contains(fit[j]));
        }
        carving_reads_what_it_uses(caps, want, list, list.len() as int);
    }
    let z = carve(caps, want, list, list.len() as int);
    let left = channels - count_some(z.reads, n);
    let budget = if left > 0 {
        left
    } else {
        0
    };
    let ops = part_names(caps, true, n);
    amps_facts(caps, z.reads, budget);
    let am = matching::matching(amp_lists(caps, ops, z.reads), n);
    let amps = place_names(ops, am, budget, ops.len() as int, n).at;
    gaining_all_reads_what_it_uses(out, amps, z);
    let a = gain_all(out, amps, z);
    let every = part_names(caps, false, n);
    comps_facts(caps, z.comps, z.reads, a.reads);
    let cn = unspent(every, z.comps, every.len() as int);
    let cm = matching::matching(comp_lists(caps, cn, z.reads, a.reads), n);
    let comps = place_names(cn, cm, cn.len() as int, cn.len() as int, n).at;
    let b = Sketch { chosen: somes(a.reads, n), ..a };
    assert(gained_through(b)) by {
        assert(b.gained == a.gained && b.reads == a.reads);
    }
    assert(used_are_read(a) ==> used_are_read(b)) by {
        assert(b.used == a.used && b.reads == a.reads);
    }
    let watched = somes(comps, n);
    somes_facts(comps, n);
    choosing_keeps_gain(caps, channels, watched, b, watched.len() as int);
    if pins_apart(opts) {
        choosing_reads_what_it_uses(caps, channels, watched, b, watched.len() as int);
    }
    let c = choose_from(caps, channels, watched, b, watched.len() as int);
    let more = fillers(caps, c.reads);
    fillers_facts(caps, c.reads);
    choosing_keeps_gain(caps, channels, more, c, more.len() as int);
    if pins_apart(opts) {
        choosing_reads_what_it_uses(caps, channels, more, c, more.len() as int);
    }
    let d = choose_from(caps, channels, more, c, more.len() as int);
    assert(d == solve(caps, out, opts, channels, target).d);
    assert forall|i: int|
        pins_apart(opts) && 0 <= i < caps.len() && caps[i].adc.len() > 0 implies #[trigger] tried(
        caps,
        channels,
        d,
        i as usize,
    ) by {
        if c.reads[i] is None {
            fillers_hold_all(caps, c.reads, i);
            let j = choose|j: int| 0 <= j < more.len() && more[j] == i as usize;
            assert(tried(caps, channels, d, more[j]));
        }
    }
}

proof fn plain_pairs_come_last(
    caps: Seq<CapView>,
    out: OutView,
    opts: Seq<ZeroCrossOption>,
    channels: int,
    target: int,
)
    requires
        caps.len() <= usize::MAX,
        opts.len() <= usize::MAX,
        0 <= channels <= usize::MAX,
        0 <= target,
        part_names(caps, true, caps.len() as int).len() <= usize::MAX,
        part_names(caps, false, caps.len() as int).len() <= usize::MAX,
    ensures
        ({
            let s = solve(caps, out, opts, channels, target);
            forall|k: int|
                0 <= k < pair_indices(caps, s.d).len() && is_plain_pair(
                    #[trigger] pair_plans(caps, s)[k],
                ) ==> k >= s.d.crossed.len() + s.d.gained.len()
        }),
{
    let s = solve(caps, out, opts, channels, target);
    solve_is_sound(caps, out, opts, channels, target);
    stages_come_to(caps, out, opts, channels, target);
    pairs_are_apart(caps, out, opts, channels, s);
    let d = s.d;
    let idx = pair_indices(caps, d);
    let n1 = d.crossed.len() as int;
    let n2 = n1 + d.gained.len();
    assert forall|k: int|
        0 <= k < idx.len() && is_plain_pair(#[trigger] pair_plans(caps, s)[k]) implies k >= n2 by {
        if n1 <= k < n2 {
            let g = d.gained[k - n1];
            assert(idx[k] == g);
            let (a, b) = (g.0 as int, g.1 as int);
            assert(tells_amp(s.amps, d.reads, a) && tells_amp(s.amps, d.reads, b));
            if a < b {
                assert(s.amps[a]->0@ != s.amps[b]->0@);
            } else {
                assert(s.amps[b]->0@ != s.amps[a]->0@);
            }
        }
    }
}

/// Of the pairs that are neither zero-cross nor gain pairs, one has both ends on one ADC only
/// where no channel on another ADC was left: every channel paired after it is on that ADC too.
pub proof fn one_adc_only_when_no_other_is_left(
    r: FrontEndPlan,
    caps: Seq<CapView>,
    out: OutView,
    opts: Seq<ZeroCrossOption>,
    channels: int,
    cfg: PlanConfig,
)
    requires
        is_plan(r, caps, out, opts, channels, cfg),
        caps.len() <= usize::MAX,
        opts.len() <= usize::MAX,
        0 <= channels <= usize::MAX,
        part_names(in_pin_order(caps), true, caps.len() as int).len() <= usize::MAX,
        part_names(in_pin_order(caps), false, caps.len() as int).len() <= usize::MAX,
    ensures
        forall|k: int, l: int|
            #![trigger r.pairs@[k], r.pairs@[l]]
            0 <= k < l < r.pairs@.len() && is_plain_pair(r.pairs@[k]) && adc_of(r.pairs@[k].pos)
                == adc_of(r.pairs@[k].neg) ==> adc_of(r.pairs@[l].pos) == adc_of(r.pairs@[k].pos)
                && adc_of(r.pairs@[l].neg) == adc_of(r.pairs@[k].pos),
        forall|k: int, l: int|
            #![trigger r.pairs@[k], r.pairs@[l]]
            0 <= k < l < r.pairs@.len() && is_plain_pair(r.pairs@[k])
                ==> r.pairs@[l].zero_cross is None,
{
    let sorted = in_pin_order(caps);
    let s = solve(sorted, out, opts, channels, cfg.zero_cross_target as int);
    let keys = caps.map_values(|c: CapView| pin_rank(c.pin) as u64);
    sorted_holds_all(caps, keys);
    solve_is_sound(sorted, out, opts, channels, cfg.zero_cross_target as int);
    stages_come_to(sorted, out, opts, channels, cfg.zero_cross_target as int);
    pairs_are_apart(sorted, out, opts, channels, s);
    let d = s.d;
    let idx = pair_indices(sorted, d);
    let list = singles(sorted, d);
    let t = pair_up(list, d.reads);
    let n2 = d.crossed.len() + d.gained.len();
    let rank = |x: usize| list.index_of(x);
    singles_come_once(sorted, d);
    assert forall|i: int, j: int|
        #![trigger list[i], list[j]]
        0 <= i < j < list.len() implies rank(list[i]) < rank(list[j]) by {
        assert(list.contains(list[i]) && list.contains(list[j]));
        let a = list.index_of(list[i]);
        let b = list.index_of(list[j]);
        assert(list[a] == list[i] && list[b] == list[j]);
        assert(a == i && b == j);
    }
    pair_up_is_greedy(list, d.reads, rank);
    plain_pairs_come_last(sorted, out, opts, channels, cfg.zero_cross_target as int);
    assert forall|k: int| 0 <= k < idx.len() implies {
        let p = #[trigger] r.pairs@[k];
        &&& adc_of(p.pos) == adc_at(d.reads, idx[k].0)
        &&& adc_of(p.neg) == adc_at(d.reads, idx[k].1)
    } by {}
    assert forall|k: int, l: int|
        #![trigger r.pairs@[k], r.pairs@[l]]
        0 <= k < l < r.pairs@.len() && is_plain_pair(r.pairs@[k]) && adc_of(r.pairs@[k].pos)
            == adc_of(r.pairs@[k].neg) implies adc_of(r.pairs@[l].pos) == adc_of(r.pairs@[k].pos)
        && adc_of(r.pairs@[l].neg) == adc_of(r.pairs@[k].pos) by {
        assert(k >= n2);
        assert(idx[k] == t[k - n2] && idx[l] == t[l - n2]);
        assert(greedy_step(d.reads, rank, t[k - n2], t[l - n2].0));
        assert(greedy_step(d.reads, rank, t[k - n2], t[l - n2].1));
    }
}

/// Whether two pairs are grouped as the planner prefers: while the earlier one is on one ADC,
/// so is every end of the later one.
pub open spec fn prefers_other_adc(a: PairPlan, b: PairPlan) -> bool {
    adc_of(a.pos) == adc_of(a.neg) ==> adc_of(b.pos) == adc_of(a.pos) && adc_of(b.neg) == adc_of(
        a.pos,
    )
}

/// Whether the ends of a pair were the first that would do, an end of a later pair being left:
/// the plus end is an earlier pin, and so is the minus end unless it alone is on another ADC.
pub open spec fn came_first(a: PairPlan, c: ChannelPlan) -> bool {
    &&& pin_earlier(a.pos.pin, c.pin)
    &&& adc_of(a.pos) == adc_of(a.neg) || adc_of(c) != adc_of(a.pos) ==> pin_earlier(a.neg.pin, c.pin)
}

/// Of the pairs that are neither zero-cross nor gain pairs, one stays on a single ADC only
/// where no channel on another ADC was left for it; they follow all others, are formed in pin
/// order with the first partner that will do, and only the last one can be a channel alone.
pub proof fn pairs_are_formed_in_order(
    r: FrontEndPlan,
    caps: Seq<CapView>,
    out: OutView,
    opts: Seq<ZeroCrossOption>,
    channels: int,
    cfg: PlanConfig,
)
    requires
        is_plan(r, caps, out, opts, channels, cfg),
        caps.len() <= usize::MAX,
        opts.len() <= usize::MAX,
        0 <= channels <= usize::MAX,
        part_names(in_pin_order(caps), true, caps.len() as int).len() <= usize::MAX,
        part_names(in_pin_order(caps), false, caps.len() as int).len() <= usize::MAX,
        pins_differ(caps),
    ensures
        forall|k: int, l: int|
            #![trigger r.pairs@[k], r.pairs@[l]]
            0 <= k < l < r.pairs@.len() && is_plain_pair(r.pairs@[k]) ==> {
                &&& prefers_other_adc(r.pairs@[k], r.pairs@[l])
                &&& came_first(r.pairs@[k], r.pairs@[l].pos)
                &&& came_first(r.pairs@[k], r.pairs@[l].neg)
                &&& r.pairs@[l].zero_cross is None
                &&& r.pairs@[k].pos.pin != r.pairs@[k].neg.pin
            },
        forall|k: int|
            0 <= k < r.pairs@.len() && is_plain_pair(#[trigger] r.pairs@[k]) && r.pairs@[k].pos.pin
                != r.pairs@[k].neg.pin ==> pin_earlier(r.pairs@[k].pos.pin, r.pairs@[k].neg.pin),
        forall|k: int|
            0 <= k < r.pairs@.len() ==> ((#[trigger] r.pairs@[k]).cross_adc <==> adc_of(
                r.pairs@[k].pos,
            ) != adc_of(r.pairs@[k].neg)),
{
    let sorted = in_pin_order(caps);
    let s = solve(sorted, out, opts, channels, cfg.zero_cross_target as int);
    let keys = caps.map_values(|c: CapView| pin_rank(c.pin) as u64);
    sorted_holds_all(caps, keys);
    pin_order_goes_up(caps);
    assert(pins_differ(sorted)) by {
        assert forall|i: int, j: int|
            #![trigger sorted[i], sorted[j]]
            0 <= i < j < sorted.len() implies sorted[i].pin != sorted[j].pin by {
            assert(pin_rank(sorted[i].pin) < pin_rank(sorted[j].pin));
        }
    }
    solve_is_sound(sorted, out, opts, channels, cfg.zero_cross_target as int);
    stages_come_to(sorted, out, opts, channels, cfg.zero_cross_target as int);
    pairs_are_apart(sorted, out, opts, channels, s);
    let d = s.d;
    let idx = pair_indices(sorted, d);
    let list = singles(sorted, d);
    let t = pair_up(list, d.reads);
    let n1 = d.crossed.len() as int;
    let n2 = n1 + d.gained.len();
    let rank = |x: usize| pin_rank(sorted[x as int].pin);
    singles_go_up(sorted, d);
    pair_up_is_greedy(list, d.reads, rank);
    plain_pairs_come_last(sorted, out, opts, channels, cfg.zero_cross_target as int);
    assert forall|k: int| n2 <= k < idx.len() implies #[trigger] idx[k] == t[k - n2] by {}
    assert forall|k: int| 0 <= k < idx.len() implies {
        let p = #[trigger] r.pairs@[k];
        &&& adc_of(p.pos) == adc_at(d.reads, idx[k].0)
        &&& adc_of(p.neg) == adc_at(d.reads, idx[k].1)
        &&& p.pos.pin == sorted[idx[k].0 as int].pin
        &&& p.neg.pin == sorted[idx[k].1 as int].pin
    } by {}
    assert forall|k: int, l: int|
        #![trigger r.pairs@[k], r.pairs@[l]]
        0 <= k < l < r.pairs@.len() && is_plain_pair(r.pairs@[k]) implies {
        &&& prefers_other_adc(r.pairs@[k], r.pairs@[l])
        &&& came_first(r.pairs@[k], r.pairs@[l].pos)
        &&& came_first(r.pairs@[k], r.pairs@[l].neg)
        &&& r.pairs@[l].zero_cross is None
        &&& r.pairs@[k].pos.pin != r.pairs@[k].neg.pin
    } by {
        assert(idx[k] == t[k - n2] && idx[l] == t[l - n2]);
        assert(greedy_step(d.reads, rank, t[k - n2], t[l - n2].0));
        assert(greedy_step(d.reads, rank, t[k - n2], t[l - n2].1));
    }
    assert forall|k: int|
        0 <= k < r.pairs@.len() && is_plain_pair(#[trigger] r.pairs@[k]) && r.pairs@[k].pos.pin
            != r.pairs@[k].neg.pin implies pin_earlier(r.pairs@[k].pos.pin, r.pairs@[k].neg.pin) by {
        assert(idx[k] == t[k - n2]);
    }
}

/// How many channels the first `n` pairs hold: two each, but for a channel alone.
pub open spec fn channels_held(pairs: Seq<PairPlan>, n: int) -> int
    decreases n,
{
    if n <= 0 {
        0
    } else if pairs[n - 1].pos == pairs[n - 1].neg {
        channels_held(pairs, n - 1) + 1
    } else {
        channels_held(pairs, n - 1) + 2
    }
}

/// Whether a channel of the plan is read on an input.
pub open spec fn reads_input(pairs: Seq<PairPlan>, s: Slot) -> bool {
    exists|k: int|
        0 <= k < pairs.len() && (is_input((#[trigger] pairs[k]).pos, s) || is_input(
            pairs[k].neg,
            s,
        ))
}

/// Whether a channel is read on an input.
pub open spec fn is_input(c: ChannelPlan, s: Slot) -> bool {
    match c.read {
        AdcRead::Direct { adc, ch } => adc@ == s.0@ && ch == s.1,
        AdcRead::ViaOpamp { opamp, adc, ch } => adc@ == s.0@ && ch == s.1,
    }
}

/// Whether a pin is one of the plan's.
pub open spec fn holds_pin(pairs: Seq<PairPlan>, p: PinId) -> bool {
    exists|k: int|
        0 <= k < pairs.len() && ((#[trigger] pairs[k]).pos.pin == p || pairs[k].neg.pin == p)
}

/// An input that the planner counts as used is read by a channel of the plan.
pub proof fn used_inputs_are_read(
    r: FrontEndPlan,
    caps: Seq<CapView>,
    out: OutView,
    opts: Seq<ZeroCrossOption>,
    channels: int,
    cfg: PlanConfig,
    t: Slot,
)
    requires
        is_plan(r, caps, out, opts, channels, cfg),
        caps.len() <= usize::MAX,
        opts.len() <= usize::MAX,
        0 <= channels <= usize::MAX,
        part_names(in_pin_order(caps), true, caps.len() as int).len() <= usize::MAX,
        part_names(in_pin_order(caps), false, caps.len() as int).len() <= usize::MAX,
        pins_apart(opts),
        includes(
            solve(in_pin_order(caps), out, opts, channels, cfg.zero_cross_target as int).d.used,
            t,
        ),
    ensures
        reads_input(r.pairs@, t),
{
    let sorted = in_pin_order(caps);
    let s = solve(sorted, out, opts, channels, cfg.zero_cross_target as int);
    let keys = caps.map_values(|c: CapView| pin_rank(c.pin) as u64);
    sorted_holds_all(caps, keys);
    solve_is_sound(sorted, out, opts, channels, cfg.zero_cross_target as int);
    stages_come_to(sorted, out, opts, channels, cfg.zero_cross_target as int);
    pairs_are_apart(sorted, out, opts, channels, s);
    let d = s.d;
    let idx = pair_indices(sorted, d);
    let u = choose|u: int| 0 <= u < d.used.len() && (#[trigger] d.used[u]).alike(&t);
    assert(is_read_on(d.reads, d.used[u]));
    let x = choose|x: int| 0 <= x < d.reads.len() && #[trigger] reads_on(d.reads, x, d.used[u]);
    assert(d.chosen.contains(x as usize));
    assert(in_pair(idx, x as usize));
    let k = choose|k: int|
        0 <= k < idx.len() && ((#[trigger] idx[k]).0 == x as usize || idx[k].1 == x as usize);
    assert(is_input(r.pairs@[k].pos, t) || is_input(r.pairs@[k].neg, t));
}

/// A plan gives up on a channel only when nothing is left for it: where channels are unplaced,
/// each input of each pin that the plan does not use is read by another channel.
pub proof fn unplaced_only_when_full(
    r: FrontEndPlan,
    caps: Seq<CapView>,
    out: OutView,
    opts: Seq<ZeroCrossOption>,
    channels: int,
    cfg: PlanConfig,
    c: CapView,
    j: int,
)
    requires
        is_plan(r, caps, out, opts, channels, cfg),
        caps.len() <= usize::MAX,
        opts.len() <= usize::MAX,
        0 <= channels <= usize::MAX,
        part_names(in_pin_order(caps), true, caps.len() as int).len() <= usize::MAX,
        part_names(in_pin_order(caps), false, caps.len() as int).len() <= usize::MAX,
        pins_apart(opts),
        r.unplaced_channels > 0,
        caps.contains(c),
        !holds_pin(r.pairs@, c.pin),
        0 <= j < c.adc.len(),
    ensures
        reads_input(r.pairs@, c.adc[j]),
{
    let sorted = in_pin_order(caps);
    let s = solve(sorted, out, opts, channels, cfg.zero_cross_target as int);
    let keys = caps.map_values(|c: CapView| pin_rank(c.pin) as u64);
    sorted_holds_all(caps, keys);
    solve_is_sound(sorted, out, opts, channels, cfg.zero_cross_target as int);
    stages_come_to(sorted, out, opts, channels, cfg.zero_cross_target as int);
    pairs_are_apart(sorted, out, opts, channels, s);
    let d = s.d;
    let idx = pair_indices(sorted, d);
    assert(sorted.contains(c));
    let i = choose|i: int| 0 <= i < sorted.len() && sorted[i] == c;
    if d.reads[i] is Some {
        assert(d.chosen.contains(i as usize));
        assert(in_pair(idx, i as usize));
        let k = choose|k: int|
            0 <= k < idx.len() && ((#[trigger] idx[k]).0 == i as usize || idx[k].1 == i as usize);
        assert(r.pairs@[k].pos.pin == c.pin || r.pairs@[k].neg.pin == c.pin);
    }
    assert(tried(sorted, channels, d, i as usize));
    assert(includes(d.used, sorted[i].adc[j]));
    used_inputs_are_read(r, caps, out, opts, channels, cfg, c.adc[j]);
}

proof fn held_are_chosen(caps: Seq<CapView>, out: OutView, s: Solved, k: int)
    requires
        reads_well(caps, out, s.d.used, s.d.reads),
        0 <= k <= pair_indices(caps, s.d).len(),
        ({
            let idx = pair_indices(caps, s.d);
            &&& forall|k: int| 0 <= k < idx.len() ==> both_read(s.d.reads, #[trigger] idx[k])
            &&& forall|k: int, l: int|
                #![trigger idx[k], idx[l]]
                0 <= k < l < idx.len() ==> apart(idx[k], idx[l])
        }),
    ensures
        ({
            let all = Seq::new(caps.len(), |i: int| true);
            channels_held(pair_plans(caps, s), k) == marked(pair_indices(caps, s.d), all, k).len()
        }),
    decreases k,
{
    let idx = pair_indices(caps, s.d);
    let all = Seq::new(caps.len(), |i: int| true);
    marked_facts(idx, all, k);
    if k > 0 {
        held_are_chosen(caps, out, s, k - 1);
        assert(both_read(s.d.reads, idx[k - 1]));
        let (a, b) = (idx[k - 1].0 as int, idx[k - 1].1 as int);
        let p = pair_plans(caps, s)[k - 1];
        assert(p.pos == p.neg <==> a == b) by {
            if a < b {
                assert(!same_slot(slot_of(s.d.reads[a]->0), slot_of(s.d.reads[b]->0)));
            } else if b < a {
                assert(!same_slot(slot_of(s.d.reads[b]->0), slot_of(s.d.reads[a]->0)));
            }
        }
    }
}

/// Every channel that was asked for is in a pair or counted as unplaced.
pub proof fn channels_add_up(
    r: FrontEndPlan,
    caps: Seq<CapView>,
    out: OutView,
    opts: Seq<ZeroCrossOption>,
    channels: int,
    cfg: PlanConfig,
)
    requires
        is_plan(r, caps, out, opts, channels, cfg),
        caps.len() <= usize::MAX,
        opts.len() <= usize::MAX,
        0 <= channels <= usize::MAX,
        part_names(in_pin_order(caps), true, caps.len() as int).len() <= usize::MAX,
        part_names(in_pin_order(caps), false, caps.len() as int).len() <= usize::MAX,
    ensures
        channels_held(r.pairs@, r.pairs@.len() as int) + r.unplaced_channels == channels,
{
    let sorted = in_pin_order(caps);
    let s = solve(sorted, out, opts, channels, cfg.zero_cross_target as int);
    let keys = caps.map_values(|c: CapView| pin_rank(c.pin) as u64);
    sorted_holds_all(caps, keys);
    solve_is_sound(sorted, out, opts, channels, cfg.zero_cross_target as int);
    pairs_are_apart(sorted, out, opts, channels, s);
    let idx = pair_indices(sorted, s.d);
    let n = idx.len() as int;
    held_are_chosen(sorted, out, s, n);
    let all = Seq::new(sorted.len(), |i: int| true);
    marked_facts(idx, all, n);
    let m = marked(idx, all, n);
    s.d.chosen.unique_seq_to_set();
    assert(m =~= s.d.chosen.to_set()) by {
        assert forall|x: usize| m.contains(x) <==> s.d.chosen.contains(x) by {
            if m.contains(x) {
                let j = choose|j: int|
                    0 <= j < n && ((#[trigger] idx[j]).0 == x || idx[j].1 == x);
                assert(both_read(s.d.reads, idx[j]));
                assert(s.d.reads[x as int] is Some);
            }
            if s.d.chosen.contains(x) {
                assert(in_pair(idx, x));
                let j = choose|j: int|
                    0 <= j < n && ((#[trigger] idx[j]).0 == x || idx[j].1 == x);
                assert(both_read(s.d.reads, idx[j]));
                marked_holds(idx, all, n, j);
            }
        }
    }
}

proof fn marked_holds(idx: Seq<(usize, usize)>, mark: Seq<bool>, n: int, j: int)
    requires
        0 <= j < n <= idx.len(),
    ensures
        mark[idx[j].0 as int] ==> marked(idx, mark, n).contains(idx[j].0),
        mark[idx[j].1 as int] ==> marked(idx, mark, n).contains(idx[j].1),
    decreases n,
{
    if j < n - 1 {
        marked_holds(idx, mark, n - 1, j);
    }
}

} // verus!
