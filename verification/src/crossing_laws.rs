//! How many zero-cross pairs a plan has, when it gives up on one, and what its score is made
//! of.

use vstd::prelude::*;

use crate::frontend_laws::pairs_are_apart;
use crate::frontend_laws::solve_is_sound;
use crate::frontend_order_laws::pins_differ;
use crate::frontend_order_laws::sorted_holds_all;
use crate::frontend_plan::CapView;
use crate::frontend_plan::FrontEndPlan;
use crate::frontend_plan::PairPlan;
use crate::frontend_plan::PlanConfig;
use crate::frontend_plan::Slot;
use crate::frontend_plan::ZeroCrossOption;
use crate::frontend_slots::cross_pair;
use crate::frontend_slots::cross_slots;
use crate::frontend_slots::other_adc;
use crate::frontend_solver::amp_lists;
use crate::frontend_solver::at_pin;
use crate::frontend_solver::carve;
use crate::frontend_solver::choose_from;
use crate::frontend_solver::comp_lists;
use crate::frontend_solver::count_some;
use crate::frontend_solver::fillers;
use crate::frontend_solver::gain;
use crate::frontend_solver::gain_all;
use crate::frontend_solver::index_of_finds;
use crate::frontend_solver::in_pin_order;
use crate::frontend_solver::is_amp_pin;
use crate::frontend_solver::is_plan;
use crate::frontend_solver::options_fit;
use crate::frontend_solver::option_comps;
use crate::frontend_solver::pair_indices;
use crate::frontend_solver::pair_score;
use crate::frontend_solver::part_names;
use crate::frontend_solver::place_names;
use crate::frontend_solver::score_of;
use crate::frontend_solver::solve;
use crate::frontend_solver::somes;
use crate::frontend_solver::thrifty;
use crate::frontend_solver::thrifty_fit;
use crate::frontend_solver::unspent;
use crate::frontend_solver::usable_fit;
use crate::frontend_solver::usable_options;
use crate::frontend_solver::OutView;
use crate::frontend_solver::Sketch;
use crate::matching;
use crate::mcu_pinout::pin_rank;
use crate::mcu_pinout::PinId;
use crate::names::has_name;
use crate::order::order_of;
use crate::order::picked;
use crate::pairing_laws::pins_apart;
use crate::pairing_laws::reads_input;
use crate::pairing_laws::stages_come_to;
use crate::ranked::includes;
use crate::ranked::rank_in;
use crate::ranked::Ranked;

verus! {

/// How many of the first `n` pairs are watched for zero crossings.
pub open spec fn crossings(pairs: Seq<PairPlan>, n: int) -> int
    decreases n,
{
    if n <= 0 {
        0
    } else if pairs[n - 1].zero_cross is Some {
        crossings(pairs, n - 1) + 1
    } else {
        crossings(pairs, n - 1)
    }
}

/// The lesser of what is asked for and half of the channels.
pub open spec fn wanted_crossings(channels: int, cfg: PlanConfig) -> int {
    if cfg.zero_cross_target < channels / 2 {
        cfg.zero_cross_target as int
    } else {
        channels / 2
    }
}

/// Whether one list begins another.
spec fn begins(a: Seq<Slot>, b: Seq<Slot>) -> bool {
    a.len() <= b.len() && forall|i: int| 0 <= i < a.len() ==> #[trigger] b[i] == a[i]
}

proof fn still_in(a: Seq<Slot>, b: Seq<Slot>, s: Slot)
    requires
        begins(a, b),
        includes(a, s),
    ensures
        includes(b, s),
{
    let i = choose|i: int| 0 <= i < a.len() && (#[trigger] a[i]).alike(&s);
    assert(b[i].alike(&s));
}

/// Whether no two free inputs of the lists are on different ADCs.
spec fn no_cross(a: Seq<Slot>, b: Seq<Slot>, used: Seq<Slot>) -> bool {
    forall|i: int, j: int|
        #![trigger a[i], b[j]]
        0 <= i < a.len() && 0 <= j < b.len() ==> includes(used, a[i]) || includes(used, b[j])
            || a[i].0@ == b[j].0@
}

proof fn no_other(a: Slot, b: Seq<Slot>, used: Seq<Slot>, k: int)
    requires
        0 <= k,
        other_adc(a, b, used, k) is None,
    ensures
        forall|j: int| k <= j < b.len() ==> includes(used, #[trigger] b[j]) || a.0@ == b[j].0@,
    decreases b.len() - k,
{
    if k < b.len() {
        no_other(a, b, used, k + 1);
    }
}

proof fn no_pair(a: Seq<Slot>, b: Seq<Slot>, used: Seq<Slot>, k: int)
    requires
        0 <= k,
        cross_pair(a, b, used, k) is None,
    ensures
        forall|i: int, j: int|
            #![trigger a[i], b[j]]
            k <= i < a.len() && 0 <= j < b.len() ==> includes(used, a[i]) || includes(used, b[j])
                || a[i].0@ == b[j].0@,
    decreases a.len() - k,
{
    if k < a.len() {
        no_pair(a, b, used, k + 1);
        if !includes(used, a[k]) {
            no_other(a[k], b, used, 0);
        }
    }
}

/// Whether a pin is an end of a pair that was carved.
spec fn is_crossed(d: Sketch, i: int) -> bool {
    exists|k: int|
        0 <= k < d.crossed.len() && ((#[trigger] d.crossed[k]).0 == i || d.crossed[k].1 == i)
}

/// Whether a comparator was taken for a pair.
spec fn is_watching(d: Sketch, c: Seq<char>) -> bool {
    exists|k: int| 0 <= k < d.crossed.len() && (#[trigger] d.crossed[k]).2@ == c
}

/// Why an option was not taken, or that it was.
spec fn is_settled(caps: Seq<CapView>, want: int, d: Sketch, o: ZeroCrossOption) -> bool {
    let a = at_pin(caps, o.plus)->0;
    let b = at_pin(caps, o.minus)->0;
    ||| d.crossed.len() >= want
    ||| is_watching(d, o.comp@)
    ||| is_crossed(d, a)
    ||| is_crossed(d, b)
    ||| no_cross(caps[a].adc, caps[b].adc, d.used)
}

proof fn carving_settles(caps: Seq<CapView>, want: int, opts: Seq<ZeroCrossOption>, n: int)
    requires
        0 <= n <= opts.len(),
        options_fit(opts, caps),
        caps.len() <= usize::MAX,
    ensures
        ({
            let d = carve(caps, want, opts, n);
            &&& d.reads.len() == caps.len()
            &&& d.comps.len() == d.crossed.len()
            &&& forall|k: int| 0 <= k < d.crossed.len() ==> d.comps[k] == (#[trigger] d.crossed[k]).2
            &&& forall|i: int|
                0 <= i < caps.len() && (#[trigger] d.reads[i]) is Some ==> is_crossed(d, i)
            &&& forall|i: int| 0 <= i < n ==> is_settled(caps, want, d, #[trigger] opts[i])
            &&& d.crossed.len() <= want || d.crossed.len() == 0
        }),
    decreases n,
{
    let d = carve(caps, want, opts, n);
    if n > 0 {
        carving_settles(caps, want, opts, n - 1);
        let e = carve(caps, want, opts, n - 1);
        let o = opts[n - 1];
        index_of_finds(caps, o.plus, caps.len() as int);
        index_of_finds(caps, o.minus, caps.len() as int);
        let a = at_pin(caps, o.plus)->0;
        let b = at_pin(caps, o.minus)->0;
        if d == e {
            assert(is_settled(caps, want, d, o)) by {
                if e.crossed.len() < want && !is_crossed(e, a) && !is_crossed(e, b) {
                    assert(e.reads[a] is None && e.reads[b] is None);
                    if has_name(e.comps, o.comp@) {
                        let k = choose|k: int|
                            0 <= k < e.comps.len() && (#[trigger] e.comps[k])@ == o.comp@;
                        assert(e.crossed[k].2@ == o.comp@);
                    } else {
                        let picks = cross_slots(Some(caps[a].adc), Some(caps[b].adc), e.used);
                        if picks.0 is Some && picks.1 is Some {
                            assert(d.crossed.len() == e.crossed.len() + 1);
                        }
                        no_pair(caps[a].adc, caps[b].adc, e.used, 0);
                    }
                }
            }
        } else {
            let picks = cross_slots(Some(caps[a].adc), Some(caps[b].adc), e.used);
            let last = e.crossed.len() as int;
            assert(d.crossed == e.crossed.push((a as usize, b as usize, o.comp)));
            assert(d.crossed[last] == (a as usize, b as usize, o.comp));
            assert(begins(e.used, d.used));
            assert forall|i: int| is_crossed(e, i) implies is_crossed(d, i) by {
                let k = choose|k: int|
                    0 <= k < e.crossed.len() && ((#[trigger] e.crossed[k]).0 == i || e.crossed[k].1
                        == i);
                assert(d.crossed[k] == e.crossed[k]);
            }
            assert forall|i: int| 0 <= i < caps.len() && (#[trigger] d.reads[i]) is Some implies is_crossed(
                d,
                i,
            ) by {
                if i == a || i == b {
                    assert(d.crossed[last].0 == a && d.crossed[last].1 == b);
                } else {
                    assert(e.reads[i] is Some);
                }
            }
            assert forall|i: int| 0 <= i < n implies is_settled(caps, want, d, #[trigger] opts[i]) by {
                if i == n - 1 {
                    assert(d.crossed[last].2@ == o.comp@);
                } else {
                    assert(is_settled(caps, want, e, opts[i]));
                    let p = at_pin(caps, opts[i].plus)->0;
                    let q = at_pin(caps, opts[i].minus)->0;
                    if is_watching(e, opts[i].comp@) {
                        let k = choose|k: int|
                            0 <= k < e.crossed.len() && (#[trigger] e.crossed[k]).2@ == opts[i].comp@;
                        assert(d.crossed[k] == e.crossed[k]);
                    } else if no_cross(caps[p].adc, caps[q].adc, e.used) {
                        let x = caps[p].adc;
                        let y = caps[q].adc;
                        assert forall|s: int, t: int|
                            #![trigger x[s], y[t]]
                            0 <= s < x.len() && 0 <= t < y.len() implies includes(d.used, x[s])
                            || includes(d.used, y[t]) || x[s].0@ == y[t].0@ by {
                            if includes(e.used, x[s]) {
                                still_in(e.used, d.used, x[s]);
                            }
                            if includes(e.used, y[t]) {
                                still_in(e.used, d.used, y[t]);
                            }
                        }
                    }
                }
            }
            assert forall|k: int| 0 <= k < d.crossed.len() implies d.comps[k] == (
            #[trigger] d.crossed[k]).2 by {
                if k < last {
                    assert(d.crossed[k] == e.crossed[k]);
                }
            }
        }
    }
}

proof fn choosing_uses_more(caps: Seq<CapView>, channels: int, list: Seq<usize>, d: Sketch, k: int)
    requires
        0 <= k <= list.len(),
    ensures
        begins(d.used, choose_from(caps, channels, list, d, k).used),
        choose_from(caps, channels, list, d, k).crossed == d.crossed,
    decreases k,
{
    if k > 0 {
        choosing_uses_more(caps, channels, list, d, k - 1);
    }
}

proof fn gaining_uses_more(
    out: OutView,
    amps: Seq<Option<&'static str>>,
    pins: Seq<usize>,
    d: Sketch,
    k: int,
)
    ensures
        begins(d.used, gain(out, amps, pins, d, k).used),
        gain(out, amps, pins, d, k).crossed == d.crossed,
    decreases k,
{
    if k > 0 {
        gaining_uses_more(out, amps, pins, d, k - 1);
    }
}

proof fn thrifty_keeps(opts: Seq<ZeroCrossOption>, caps: Seq<CapView>, o: ZeroCrossOption)
    requires
        opts.len() <= usize::MAX,
    ensures
        thrifty(opts, caps).contains(o) <==> opts.contains(o),
{
    let k1 = opts.map_values(
        |o: ZeroCrossOption| (pin_rank(o.plus) * 0x2000_0000 + pin_rank(o.minus)) as u64,
    );
    let a = picked(opts, order_of(k1));
    sorted_holds_all(opts, k1);
    let comps = option_comps(opts, opts.len() as int);
    let k2 = a.map_values(|o: ZeroCrossOption| rank_in(comps, o.comp) as u64);
    let b = picked(a, order_of(k2));
    sorted_holds_all(a, k2);
    let k3 = b.map_values(
        |o: ZeroCrossOption|
            crate::frontend_plan::flags(is_amp_pin(caps, o.plus), is_amp_pin(caps, o.minus)) as u64,
    );
    sorted_holds_all(b, k3);
    assert(a.contains(o) <==> opts.contains(o));
    assert(b.contains(o) <==> a.contains(o));
    assert(picked(b, order_of(k3)).contains(o) <==> b.contains(o));
}

proof fn usable_are(opts: Seq<ZeroCrossOption>, caps: Seq<CapView>, n: int, i: int)
    requires
        0 <= i < n <= opts.len(),
        at_pin(caps, opts[i].plus) is Some,
        at_pin(caps, opts[i].minus) is Some,
    ensures
        usable_options(opts, caps, n).contains(opts[i]),
    decreases n,
{
    let now = usable_options(opts, caps, n);
    if i < n - 1 {
        usable_are(opts, caps, n - 1, i);
        let had = usable_options(opts, caps, n - 1);
        let x = choose|x: int| 0 <= x < had.len() && had[x] == opts[i];
        assert(now[x] == opts[i]);
    } else {
        assert(now[now.len() - 1] == opts[i]);
    }
}

/// What carving comes to in the end.
proof fn crossed_in_the_end(
    caps: Seq<CapView>,
    out: OutView,
    opts: Seq<ZeroCrossOption>,
    channels: int,
    target: int,
)
    requires
        caps.len() <= usize::MAX,
        opts.len() <= usize::MAX,
        0 <= channels,
        0 <= target,
    ensures
        ({
            let d = solve(caps, out, opts, channels, target).d;
            let want = if target < channels / 2 {
                target
            } else {
                channels / 2
            };
            &&& d.crossed.len() <= want
            &&& forall|i: int|
                0 <= i < opts.len() && at_pin(caps, (#[trigger] opts[i]).plus) is Some && at_pin(
                    caps,
                    opts[i].minus,
                ) is Some ==> is_settled(caps, want, d, opts[i])
        }),
{
    let n = caps.len() as int;
    let fit = usable_options(opts, caps, opts.len() as int);
    usable_fit(opts, caps, opts.len() as int);
    thrifty_fit(fit, caps);
    let want = if target < channels / 2 {
        target
    } else {
        channels / 2
    };
    let list = thrifty(fit, caps);
    let z = carve(caps, want, list, list.len() as int);
    carving_settles(caps, want, list, list.len() as int);
    let left = channels - count_some(z.reads, n);
    let budget = if left > 0 {
        left
    } else {
        0
    };
    let ops = part_names(caps, true, n);
    let am = matching::matching(amp_lists(caps, ops, z.reads), n);
    let amps = place_names(ops, am, budget, ops.len() as int, n).at;
    let pins = somes(amps, amps.len() as int);
    gaining_uses_more(out, amps, pins, z, (pins.len() / 2) as int);
    let a = gain_all(out, amps, z);
    assert(begins(z.used, a.used) && a.crossed == z.crossed);
    let every = part_names(caps, false, n);
    let cn = unspent(every, z.comps, every.len() as int);
    let cm = matching::matching(comp_lists(caps, cn, z.reads, a.reads), n);
    let comps = place_names(cn, cm, cn.len() as int, cn.len() as int, n).at;
    let b = Sketch { chosen: somes(a.reads, n), ..a };
    let watched = somes(comps, n);
    choosing_uses_more(caps, channels, watched, b, watched.len() as int);
    let c = choose_from(caps, channels, watched, b, watched.len() as int);
    let more = fillers(caps, c.reads);
    choosing_uses_more(caps, channels, more, c, more.len() as int);
    let d = solve(caps, out, opts, channels, target).d;
    assert(d == choose_from(caps, channels, more, c, more.len() as int));
    assert(begins(z.used, d.used)) by {
        assert forall|i: int| 0 <= i < z.used.len() implies #[trigger] d.used[i] == z.used[i] by {
            assert(a.used[i] == z.used[i]);
            assert(c.used[i] == b.used[i]);
        }
    }
    assert forall|i: int|
        0 <= i < opts.len() && at_pin(caps, (#[trigger] opts[i]).plus) is Some && at_pin(
            caps,
            opts[i].minus,
        ) is Some implies is_settled(caps, want, d, opts[i]) by {
        let o = opts[i];
        usable_are(opts, caps, opts.len() as int, i);
        thrifty_keeps(fit, caps, o);
        let x = choose|x: int| 0 <= x < list.len() && list[x] == o;
        assert(is_settled(caps, want, z, list[x]));
        let p = at_pin(caps, o.plus)->0;
        let q = at_pin(caps, o.minus)->0;
        if is_watching(z, o.comp@) {
            assert(is_watching(d, o.comp@));
        }
        if no_cross(caps[p].adc, caps[q].adc, z.used) {
            let v = caps[p].adc;
            let w = caps[q].adc;
            assert forall|s: int, t: int|
                #![trigger v[s], w[t]]
                0 <= s < v.len() && 0 <= t < w.len() implies includes(d.used, v[s]) || includes(
                d.used,
                w[t],
            ) || v[s].0@ == w[t].0@ by {
                if includes(z.used, v[s]) {
                    still_in(z.used, d.used, v[s]);
                }
                if includes(z.used, w[t]) {
                    still_in(z.used, d.used, w[t]);
                }
            }
        }
    }
}

proof fn crossings_are(pairs: Seq<PairPlan>, m: int, n: int)
    requires
        0 <= n <= pairs.len(),
        0 <= m,
        forall|k: int| 0 <= k < pairs.len() ==> ((#[trigger] pairs[k]).zero_cross is Some <==> k < m),
    ensures
        crossings(pairs, n) == (if n < m {
            n
        } else {
            m
        }),
    decreases n,
{
    if n > 0 {
        crossings_are(pairs, m, n - 1);
        assert(pairs[n - 1].zero_cross is Some <==> n - 1 < m);
    }
}

/// A plan has no more zero-cross pairs than were asked for, and than half of the channels.
pub proof fn no_more_crossings_than_wanted(
    r: FrontEndPlan,
    caps: Seq<CapView>,
    out: OutView,
    opts: Seq<ZeroCrossOption>,
    channels: int,
    cfg: PlanConfig,
)
    requires
        is_plan(r, caps, out, opts, channels, cfg),
        caps.len() <= usize::MAX,
        opts.len() <= usize::MAX,
        0 <= channels,
    ensures
        crossings(r.pairs@, r.pairs@.len() as int) <= wanted_crossings(channels, cfg),
{
    let sorted = in_pin_order(caps);
    let s = solve(sorted, out, opts, channels, cfg.zero_cross_target as int);
    let keys = caps.map_values(|c: CapView| pin_rank(c.pin) as u64);
    sorted_holds_all(caps, keys);
    crossed_in_the_end(sorted, out, opts, channels, cfg.zero_cross_target as int);
    crossings_are(r.pairs@, s.d.crossed.len() as int, r.pairs@.len() as int);
}

/// Whether a zero-cross pair of a plan has a comparator.
pub open spec fn watches(pairs: Seq<PairPlan>, comp: Seq<char>) -> bool {
    exists|k: int|
        0 <= k < pairs.len() && ((#[trigger] pairs[k]).zero_cross matches Some(c) && c@ == comp)
}

/// Whether a zero-cross pair of a plan has an end on a pin.
pub open spec fn crosses_at(pairs: Seq<PairPlan>, pin: PinId) -> bool {
    exists|k: int|
        0 <= k < pairs.len() && (#[trigger] pairs[k]).zero_cross is Some && (pairs[k].pos.pin == pin
            || pairs[k].neg.pin == pin)
}

/// A plan gives up on a zero-cross pair that it has pins for only where its comparator or one
/// of its pins is in another one, or no two free inputs of its pins are on different ADCs.
pub proof fn crossings_are_given_up_only_when_blocked(
    r: FrontEndPlan,
    caps: Seq<CapView>,
    out: OutView,
    opts: Seq<ZeroCrossOption>,
    channels: int,
    cfg: PlanConfig,
    o: ZeroCrossOption,
    a: CapView,
    b: CapView,
    i: int,
    j: int,
)
    requires
        is_plan(r, caps, out, opts, channels, cfg),
        caps.len() <= usize::MAX,
        opts.len() <= usize::MAX,
        0 <= channels <= usize::MAX,
        part_names(in_pin_order(caps), true, caps.len() as int).len() <= usize::MAX,
        part_names(in_pin_order(caps), false, caps.len() as int).len() <= usize::MAX,
        pins_differ(caps),
        pins_apart(opts),
        opts.contains(o),
        caps.contains(a),
        caps.contains(b),
        a.pin == o.plus,
        b.pin == o.minus,
        0 <= i < a.adc.len(),
        0 <= j < b.adc.len(),
        crossings(r.pairs@, r.pairs@.len() as int) < wanted_crossings(channels, cfg),
    ensures
        ({
            ||| watches(r.pairs@, o.comp@)
            ||| crosses_at(r.pairs@, o.plus)
            ||| crosses_at(r.pairs@, o.minus)
            ||| reads_input(r.pairs@, a.adc[i])
            ||| reads_input(r.pairs@, b.adc[j])
            ||| a.adc[i].0@ == b.adc[j].0@
        }),
{
    let sorted = in_pin_order(caps);
    let target = cfg.zero_cross_target as int;
    let s = solve(sorted, out, opts, channels, target);
    let d = s.d;
    let keys = caps.map_values(|c: CapView| pin_rank(c.pin) as u64);
    sorted_holds_all(caps, keys);
    crate::frontend_order_laws::pin_order_goes_up(caps);
    crossed_in_the_end(sorted, out, opts, channels, target);
    crossings_are(r.pairs@, d.crossed.len() as int, r.pairs@.len() as int);
    solve_is_sound(sorted, out, opts, channels, target);
    stages_come_to(sorted, out, opts, channels, target);
    pairs_are_apart(sorted, out, opts, channels, s);
    let idx = pair_indices(sorted, d);
    assert(sorted.contains(a) && sorted.contains(b));
    let x = choose|x: int| 0 <= x < sorted.len() && sorted[x] == a;
    let y = choose|y: int| 0 <= y < sorted.len() && sorted[y] == b;
    index_of_finds(sorted, o.plus, sorted.len() as int);
    index_of_finds(sorted, o.minus, sorted.len() as int);
    assert(sorted[x].pin == o.plus && sorted[y].pin == o.minus);
    let p = at_pin(sorted, o.plus)->0;
    let q = at_pin(sorted, o.minus)->0;
    only_one_at_a_pin(sorted, x, p);
    only_one_at_a_pin(sorted, y, q);
    let k = choose|k: int| 0 <= k < opts.len() && opts[k] == o;
    assert(is_settled(sorted, wanted_crossings(channels, cfg), d, opts[k]));
    assert forall|m: int| 0 <= m < d.crossed.len() implies {
        let e = #[trigger] r.pairs@[m];
        &&& e.zero_cross == Some(d.crossed[m].2)
        &&& e.pos.pin == sorted[d.crossed[m].0 as int].pin
        &&& e.neg.pin == sorted[d.crossed[m].1 as int].pin
    } by {
        assert(idx[m] == (d.crossed[m].0, d.crossed[m].1));
    }
    assert(r.pairs@.len() == idx.len() && d.crossed.len() <= idx.len());
    if is_watching(d, o.comp@) {
        let m = choose|m: int| 0 <= m < d.crossed.len() && (#[trigger] d.crossed[m]).2@ == o.comp@;
        assert(r.pairs@[m].zero_cross == Some(d.crossed[m].2));
    } else if is_crossed(d, p) {
        let m = choose|m: int|
            0 <= m < d.crossed.len() && ((#[trigger] d.crossed[m]).0 == p || d.crossed[m].1 == p);
        assert(r.pairs@[m].zero_cross is Some);
        assert(crosses_at(r.pairs@, o.plus));
    } else if is_crossed(d, q) {
        let m = choose|m: int|
            0 <= m < d.crossed.len() && ((#[trigger] d.crossed[m]).0 == q || d.crossed[m].1 == q);
        assert(r.pairs@[m].zero_cross is Some);
        assert(crosses_at(r.pairs@, o.minus));
    } else {
        assert(no_cross(sorted[p].adc, sorted[q].adc, d.used));
        let v = sorted[p].adc;
        let w = sorted[q].adc;
        assert(v == a.adc && w == b.adc);
        assert(includes(d.used, v[i]) || includes(d.used, w[j]) || v[i].0@ == w[j].0@);
        if includes(d.used, v[i]) {
            crate::pairing_laws::used_inputs_are_read(r, caps, out, opts, channels, cfg, v[i]);
        }
        if includes(d.used, w[j]) {
            crate::pairing_laws::used_inputs_are_read(r, caps, out, opts, channels, cfg, w[j]);
        }
    }
}

proof fn only_one_at_a_pin(caps: Seq<CapView>, x: int, y: int)
    requires
        forall|i: int, j: int|
            #![trigger caps[i], caps[j]]
            0 <= i < j < caps.len() ==> pin_rank(caps[i].pin) < pin_rank(caps[j].pin),
        0 <= x < caps.len(),
        0 <= y < caps.len(),
        caps[x].pin == caps[y].pin,
    ensures
        x == y,
{
    if x < y {
        assert(pin_rank(caps[x].pin) < pin_rank(caps[y].pin));
    } else if y < x {
        assert(pin_rank(caps[y].pin) < pin_rank(caps[x].pin));
    }
}

/// The sum over the first `n` pairs.
pub open spec fn sum_of(pairs: Seq<PairPlan>, f: spec_fn(PairPlan) -> int, n: int) -> int
    decreases n,
{
    if n <= 0 {
        0
    } else {
        sum_of(pairs, f, n - 1) + f(pairs[n - 1])
    }
}

/// One where a condition holds, else none.
pub open spec fn one_if(b: bool) -> int {
    if b {
        1
    } else {
        0
    }
}

proof fn score_is_sums(pairs: Seq<PairPlan>, cfg: PlanConfig, n: int)
    requires
        0 <= n <= pairs.len(),
    ensures
        score_of(pairs, cfg, n) == cfg.w_zero_cross * sum_of(
            pairs,
            |p: PairPlan| one_if(p.zero_cross is Some),
            n,
        ) + cfg.w_pga_pair * sum_of(pairs, |p: PairPlan| one_if(p.full_pga), n) + cfg.w_pga_single
            * sum_of(
            pairs,
            |p: PairPlan|
                if p.full_pga {
                    0
                } else {
                    one_if(p.pos.opamp is Some) + one_if(p.neg.opamp is Some)
                },
            n,
        ) + cfg.w_trigger * sum_of(
            pairs,
            |p: PairPlan| one_if(p.pos.comp is Some) + one_if(p.neg.comp is Some),
            n,
        ) + cfg.w_cross_adc * sum_of(pairs, |p: PairPlan| one_if(p.cross_adc), n),
    decreases n,
{
    let f1 = |p: PairPlan| one_if(p.zero_cross is Some);
    let f2 = |p: PairPlan| one_if(p.full_pga);
    let f3 = |p: PairPlan|
        if p.full_pga {
            0
        } else {
            one_if(p.pos.opamp is Some) + one_if(p.neg.opamp is Some)
        };
    let f4 = |p: PairPlan| one_if(p.pos.comp is Some) + one_if(p.neg.comp is Some);
    let f5 = |p: PairPlan| one_if(p.cross_adc);
    if n > 0 {
        score_is_sums(pairs, cfg, n - 1);
        let p = pairs[n - 1];
        grown(cfg.w_zero_cross as int, sum_of(pairs, f1, n - 1), f1(p));
        grown(cfg.w_pga_pair as int, sum_of(pairs, f2, n - 1), f2(p));
        grown(cfg.w_pga_single as int, sum_of(pairs, f3, n - 1), f3(p));
        grown(cfg.w_trigger as int, sum_of(pairs, f4, n - 1), f4(p));
        grown(cfg.w_cross_adc as int, sum_of(pairs, f5, n - 1), f5(p));
        few(cfg.w_zero_cross as int);
        few(cfg.w_pga_pair as int);
        few(cfg.w_pga_single as int);
        few(cfg.w_trigger as int);
        few(cfg.w_cross_adc as int);
        assert(pair_score(p, cfg) == cfg.w_zero_cross * f1(p) + cfg.w_pga_pair * f2(p)
            + cfg.w_pga_single * f3(p) + cfg.w_trigger * f4(p) + cfg.w_cross_adc * f5(p));
    }
}

proof fn grown(w: int, a: int, b: int)
    by (nonlinear_arith)
    ensures
        w * (a + b) == w * a + w * b,
{
}

proof fn few(w: int)
    by (nonlinear_arith)
    ensures
        w * 0 == 0,
        w * 1 == w,
        w * 2 == 2 * w,
        0 * w == 0,
        1 * w == w,
        2 * w == w * 2,
{
}

/// The score of a plan weighs its zero-cross pairs, its pairs with two amplifiers, the single
/// amplifiers of the others, its ends with a comparator, and its pairs over two ADCs.
pub proof fn the_score_weighs_what_a_plan_has(
    r: FrontEndPlan,
    caps: Seq<CapView>,
    out: OutView,
    opts: Seq<ZeroCrossOption>,
    channels: int,
    cfg: PlanConfig,
)
    requires
        is_plan(r, caps, out, opts, channels, cfg),
    ensures
        ({
            let v = r.pairs@;
            let n = v.len() as int;
            r.score == cfg.w_zero_cross * sum_of(v, |p: PairPlan| one_if(p.zero_cross is Some), n)
                + cfg.w_pga_pair * sum_of(v, |p: PairPlan| one_if(p.full_pga), n)
                + cfg.w_pga_single * sum_of(
                v,
                |p: PairPlan|
                    if p.full_pga {
                        0
                    } else {
                        one_if(p.pos.opamp is Some) + one_if(p.neg.opamp is Some)
                    },
                n,
            ) + cfg.w_trigger * sum_of(
                v,
                |p: PairPlan| one_if(p.pos.comp is Some) + one_if(p.neg.comp is Some),
                n,
            ) + cfg.w_cross_adc * sum_of(v, |p: PairPlan| one_if(p.cross_adc), n)
        }),
{
    score_is_sums(r.pairs@, cfg, r.pairs@.len() as int);
}

} // verus!
