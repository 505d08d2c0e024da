//! What holds of every plan that the front-end planner makes.

use vstd::prelude::*;

use crate::frontend_plan::amp_of;
use crate::frontend_plan::analog_pins;
use crate::frontend_plan::are_caps_of;
use crate::frontend_plan::bonded_rows;
use crate::frontend_plan::caps_upto;
use crate::frontend_plan::flags;
use crate::frontend_plan::is_lone;
use crate::frontend_plan::out_adc_of;
use crate::frontend_plan::out_slots;
use crate::frontend_plan::slot_of;
use crate::frontend_plan::trigger_count;
use crate::frontend_plan::AdcRead;
use crate::frontend_plan::CapView;
use crate::frontend_plan::ChannelPlan;
use crate::frontend_plan::PairPlan;
use crate::frontend_plan::Slot;
use crate::frontend_plan::ZeroCrossOption;
use crate::frontend_slots::cross_slots;
use crate::frontend_slots::cross_slots_are_free;
use crate::frontend_slots::free_slot;
use crate::frontend_slots::free_slot_is_free;
use crate::frontend_slots::opt_free;
use crate::frontend_solver::amp_lists;
use crate::frontend_solver::at_pin;
use crate::frontend_solver::best_cross;
use crate::frontend_solver::best_option;
use crate::frontend_solver::blank;
use crate::frontend_solver::carve;
use crate::frontend_solver::carve_one;
use crate::frontend_solver::ceiling_of;
use crate::frontend_solver::choose_from;
use crate::frontend_solver::choose_one;
use crate::frontend_solver::comp_lists;
use crate::frontend_solver::count_some;
use crate::frontend_solver::fillers;
use crate::frontend_solver::gain;
use crate::frontend_solver::gain_all;
use crate::frontend_solver::gain_last;
use crate::frontend_solver::gain_one;
use crate::frontend_solver::index_of_finds;
use crate::frontend_solver::is_paired;
use crate::frontend_solver::most_crossed;
use crate::frontend_solver::option_comps;
use crate::frontend_solver::options_fit;
use crate::frontend_solver::output_of;
use crate::frontend_solver::pair_indices;
use crate::frontend_solver::pair_plans;
use crate::frontend_solver::pair_up;
use crate::frontend_solver::part_names;
use crate::frontend_solver::part_names_ascend;
use crate::frontend_solver::partner;
use crate::frontend_solver::partner_in_range;
use crate::frontend_solver::place_names;
use crate::frontend_solver::reach;
use crate::frontend_solver::reach_facts;
use crate::frontend_solver::read_first;
use crate::frontend_solver::read_or_not;
use crate::frontend_solver::read_or_not_facts;
use crate::frontend_solver::singles;
use crate::frontend_solver::solve;
use crate::frontend_solver::somes;
use crate::frontend_solver::somes_facts;
use crate::frontend_solver::spare;
use crate::frontend_solver::thrifty;
use crate::frontend_solver::thrifty_fit;
use crate::frontend_solver::unpaired;
use crate::frontend_solver::unspent;
use crate::frontend_solver::usable_fit;
use crate::frontend_solver::usable_options;
use crate::frontend_solver::OutView;
use crate::frontend_solver::Sketch;
use crate::frontend_solver::Solved;
use crate::matching;
use crate::mcu_pinout::pins_ascend;
use crate::mcu_pinout::rows_of;
use crate::mcu_pinout::AfRow;
use crate::mcu_pinout::PinId;
use crate::mcu_raw::RawMcuData;
use crate::names::has_name;
use crate::order;
use crate::order::order_of;
use crate::order::picked;
use crate::ranked::ascends_is_distinct;
use crate::ranked::includes;
use crate::ranked::Ranked;

verus! {

/// Whether two slots are the same ADC input.
pub open spec fn same_slot(a: Slot, b: Slot) -> bool {
    a.0@ == b.0@ && a.1 == b.1
}

/// Whether a pin can be read this way: on a direct input of its own, or on an
/// output input of an amplifier that it drives.
pub open spec fn legitimate(caps: Seq<CapView>, out: OutView, i: int, read: AdcRead) -> bool {
    match read {
        AdcRead::Direct { adc, ch } => caps[i].adc.contains((adc, ch)),
        AdcRead::ViaOpamp { opamp, adc, ch } => has_name(caps[i].opamp, opamp@) && out_slots(
            out,
            opamp@,
            0,
        ) is Some && out_slots(out, opamp@, 0)->0.contains((adc, ch)),
    }
}

/// The reads are legitimate, on inputs that are noted as used, and no input is read
/// twice.
pub open spec fn reads_well(
    caps: Seq<CapView>,
    out: OutView,
    used: Seq<Slot>,
    reads: Seq<Option<AdcRead>>,
) -> bool {
    &&& reads.len() == caps.len()
    &&& forall|i: int|
        0 <= i < reads.len() && (#[trigger] reads[i]) is Some ==> includes(
            used,
            slot_of(reads[i]->0),
        ) && legitimate(caps, out, i, reads[i]->0)
    &&& no_slot_twice(reads)
}

/// No input is read twice.
pub open spec fn no_slot_twice(reads: Seq<Option<AdcRead>>) -> bool {
    forall|i: int, j: int|
        #![trigger reads[i], reads[j]]
        0 <= i < j < reads.len() && reads[i] is Some && reads[j] is Some ==> !same_slot(
            slot_of(reads[i]->0),
            slot_of(reads[j]->0),
        )
}

/// Two pairs of pins share none.
pub open spec fn apart(a: (usize, usize), b: (usize, usize)) -> bool {
    a.0 != b.0 && a.0 != b.1 && a.1 != b.0 && a.1 != b.1
}

/// The two pins of a zero-cross pair.
pub open spec fn ends(x: (usize, usize, &'static str)) -> (usize, usize) {
    (x.0, x.1)
}

/// A pair of pins that are read.
pub open spec fn both_read(reads: Seq<Option<AdcRead>>, p: (usize, usize)) -> bool {
    p.0 < reads.len() && p.1 < reads.len() && reads[p.0 as int] is Some && reads[p.1 as int] is Some
}

/// The pairs formed so far are of pins that are read, and share none.
pub open spec fn pairs_well(d: Sketch) -> bool {
    &&& forall|k: int|
        0 <= k < d.crossed.len() ==> both_read(d.reads, ends(#[trigger] d.crossed[k]))
    &&& forall|k: int| 0 <= k < d.gained.len() ==> both_read(d.reads, #[trigger] d.gained[k])
    &&& forall|k: int, l: int|
        #![trigger d.crossed[k], d.crossed[l]]
        0 <= k < l < d.crossed.len() ==> apart(ends(d.crossed[k]), ends(d.crossed[l]))
    &&& forall|k: int, l: int|
        #![trigger d.gained[k], d.gained[l]]
        0 <= k < l < d.gained.len() ==> apart(d.gained[k], d.gained[l])
    &&& forall|k: int, l: int|
        #![trigger d.crossed[k], d.gained[l]]
        0 <= k < d.crossed.len() && 0 <= l < d.gained.len() ==> apart(
            ends(d.crossed[k]),
            d.gained[l],
        )
}

proof fn read_one(
    caps: Seq<CapView>,
    out: OutView,
    used: Seq<Slot>,
    reads: Seq<Option<AdcRead>>,
    i: int,
    r: AdcRead,
)
    requires
        reads_well(caps, out, used, reads),
        0 <= i < reads.len(),
        !includes(used, slot_of(r)),
        legitimate(caps, out, i, r),
    ensures
        reads_well(caps, out, used.push(slot_of(r)), reads.update(i, Some(r))),
{
    let more = used.push(slot_of(r));
    let next = reads.update(i, Some(r));
    assert forall|j: int| 0 <= j < next.len() && (#[trigger] next[j]) is Some implies includes(
        more,
        slot_of(next[j]->0),
    ) && legitimate(caps, out, j, next[j]->0) by {
        if j == i {
            assert(more[used.len() as int].alike(&slot_of(r)));
        } else {
            assert(next[j] == reads[j]);
            let x = choose|x: int|
                0 <= x < used.len() && (#[trigger] used[x]).alike(&slot_of(reads[j]->0));
            assert(more[x].alike(&slot_of(reads[j]->0)));
        }
    }
    assert forall|a: int, b: int|
        #![trigger next[a], next[b]]
        0 <= a < b < next.len() && next[a] is Some && next[b] is Some implies !same_slot(
        slot_of(next[a]->0),
        slot_of(next[b]->0),
    ) by {
        if a != i && b != i {
            assert(next[a] == reads[a] && next[b] == reads[b]);
        } else {
            let o = if a == i {
                b
            } else {
                a
            };
            assert(next[o] == reads[o]);
            let x = choose|x: int|
                0 <= x < used.len() && (#[trigger] used[x]).alike(&slot_of(reads[o]->0));
            if same_slot(slot_of(reads[o]->0), slot_of(r)) {
                assert(used[x].alike(&slot_of(r)));
            }
        }
    }
}

proof fn still_free(used: Seq<Slot>, s: Slot, t: Slot)
    requires
        !includes(used, t),
        !same_slot(s, t),
    ensures
        !includes(used.push(s), t),
{
    let more = used.push(s);
    if includes(more, t) {
        let x = choose|x: int| 0 <= x < more.len() && (#[trigger] more[x]).alike(&t);
        if x < used.len() {
            assert(used[x].alike(&t));
        }
    }
}

proof fn count_after<T>(v: Seq<Option<T>>, i: int, x: T, n: int)
    requires
        0 <= i < v.len(),
        0 <= n <= v.len(),
    ensures
        count_some(v.update(i, Some(x)), n) <= count_some(v, n) + 1,
        i >= n ==> count_some(v.update(i, Some(x)), n) == count_some(v, n),
        i < n && v[i] is None ==> count_some(v.update(i, Some(x)), n) == count_some(v, n) + 1,
    decreases n,
{
    if n > 0 {
        count_after(v, i, x, n - 1);
    }
}

/// What carving zero-cross pairs keeps.
pub open spec fn carved_well(
    caps: Seq<CapView>,
    out: OutView,
    want: int,
    opts: Seq<ZeroCrossOption>,
    d: Sketch,
) -> bool {
    &&& reads_well(caps, out, d.used, d.reads)
    &&& pairs_well(d)
    &&& d.gained.len() == 0
    &&& d.chosen.len() == 0
    &&& d.crossed.len() <= want
    &&& d.comps.len() == d.crossed.len()
    &&& count_some(d.reads, caps.len() as int) <= 2 * d.crossed.len()
    &&& forall|k: int|
        0 <= k < d.crossed.len() ==> d.comps[k] == (#[trigger] d.crossed[k]).2 && from_option(
            caps,
            opts,
            d.crossed[k],
        )
    &&& forall|k: int, l: int|
        #![trigger d.crossed[k], d.crossed[l]]
        0 <= k < l < d.crossed.len() ==> d.crossed[k].2@ != d.crossed[l].2@
    &&& forall|i: int|
        0 <= i < d.reads.len() && (#[trigger] d.reads[i]) is Some ==> d.reads[i]->0 is Direct
}

/// Whether a zero-cross pair is one of the options.
pub open spec fn from_option(
    caps: Seq<CapView>,
    opts: Seq<ZeroCrossOption>,
    x: (usize, usize, &'static str),
) -> bool {
    exists|o: ZeroCrossOption| #[trigger]
        opts.contains(o) && x.2 == o.comp && x.0 < caps.len() && x.1 < caps.len()
            && caps[x.0 as int].pin == o.plus && caps[x.1 as int].pin == o.minus
}

proof fn blank_count(n: int, k: int)
    requires
        0 <= k <= n,
    ensures
        count_some(blank(n).reads, k) == 0,
    decreases k,
{
    if k > 0 {
        blank_count(n, k - 1);
    }
}

/// What carving keeps.
pub proof fn carve_keeps(
    caps: Seq<CapView>,
    out: OutView,
    want: int,
    opts: Seq<ZeroCrossOption>,
    n: int,
)
    requires
        options_fit(opts, caps),
        0 <= n <= opts.len(),
        0 <= want,
        caps.len() <= usize::MAX,
    ensures
        carved_well(caps, out, want, opts, carve(caps, want, opts, n)),
    decreases n,
{
    let size = caps.len() as int;
    if n <= 0 {
        blank_count(size, size);
    } else {
        carve_keeps(caps, out, want, opts, n - 1);
        let d = carve(caps, want, opts, n - 1);
        let o = opts[n - 1];
        let e = carve_one(caps, want, d, o);
        index_of_finds(caps, o.plus, size);
        index_of_finds(caps, o.minus, size);
        let a = at_pin(caps, o.plus)->0;
        let b = at_pin(caps, o.minus)->0;
        let picks = cross_slots(Some(caps[a].adc), Some(caps[b].adc), d.used);
        if e != d {
            let s = picks.0->0;
            let t = picks.1->0;
            cross_slots_are_free(caps[a].adc, caps[b].adc, d.used);
            still_free(d.used, s, t);
            let r1 = AdcRead::Direct { adc: s.0, ch: s.1 };
            let r2 = AdcRead::Direct { adc: t.0, ch: t.1 };
            read_one(caps, out, d.used, d.reads, a, r1);
            let mid = d.reads.update(a, Some(r1));
            read_one(caps, out, d.used.push(s), mid, b, r2);
            count_after(d.reads, a, r1, size);
            count_after(mid, b, r2, size);
            assert(e.reads == mid.update(b, Some(r2)));
            assert(e.used == d.used.push(s).push(t));
            assert(opts.contains(o));
            assert forall|k: int| 0 <= k < e.crossed.len() implies both_read(
                e.reads,
                ends(#[trigger] e.crossed[k]),
            ) && e.comps[k] == e.crossed[k].2 && from_option(caps, opts, e.crossed[k]) by {
                if k < d.crossed.len() {
                    assert(e.crossed[k] == d.crossed[k]);
                }
            }
            assert forall|k: int, l: int|
                #![trigger e.crossed[k], e.crossed[l]]
                0 <= k < l < e.crossed.len() implies apart(ends(e.crossed[k]), ends(e.crossed[l]))
                && e.crossed[k].2@ != e.crossed[l].2@ by {
                assert(e.crossed[k] == d.crossed[k]);
                assert(both_read(d.reads, ends(d.crossed[k])));
                if l < d.crossed.len() {
                    assert(e.crossed[l] == d.crossed[l]);
                } else {
                    assert(d.comps[k] == d.crossed[k].2);
                    assert(d.comps[k]@ != o.comp@);
                }
            }
        }
    }
}

/// What placing names at pins keeps: each placed name has the pin on its list, and
/// no more are placed than the budget allows.
proof fn place_facts(
    names: Seq<&'static str>,
    lists: Seq<Seq<usize>>,
    m: Seq<Option<usize>>,
    budget: int,
    l: int,
    n: int,
)
    requires
        0 <= l <= names.len(),
        names.len() == m.len(),
        matching::is_matching(lists, m),
        forall|u: int| 0 <= u < m.len() ==> (#[trigger] m[u] matches Some(v) ==> v < n),
        0 <= budget,
        0 <= n <= usize::MAX,
    ensures
        ({
            let p = place_names(names, m, budget, l, n);
            &&& p.at.len() == n
            &&& count_some(p.at, n) <= p.count <= budget
            &&& p.count <= l
            &&& forall|i: int|
                0 <= i < n && (#[trigger] p.at[i]) is Some ==> placed_by(names, m, l, p.at, i)
        }),
    decreases l,
{
    if l > 0 {
        place_facts(names, lists, m, budget, l - 1, n);
        let q = place_names(names, m, budget, l - 1, n);
        let p = place_names(names, m, budget, l, n);
        assert(m[l - 1] matches Some(v) ==> v < n);
        if let Some(v) = m[l - 1] {
            if q.count < budget {
                count_after(q.at, v as int, names[l - 1], n);
            }
        }
        assert forall|i: int| 0 <= i < n && (#[trigger] p.at[i]) is Some implies placed_by(
            names,
            m,
            l,
            p.at,
            i,
        ) by {
            if p.at[i] == q.at[i] && q.at[i] is Some {
                assert(placed_by(names, m, l - 1, q.at, i));
                let u = choose|u: int|
                    0 <= u < l - 1 && #[trigger] m[u] == Some(i as usize) && q.at[i] == Some(
                        names[u],
                    );
                assert(m[u] == Some(i as usize));
            } else {
                assert(m[l - 1] == Some(i as usize));
            }
        }
    } else {
        none_count(n, n);
    }
}

proof fn none_count(n: int, k: int)
    requires
        0 <= k <= n,
    ensures
        count_some(Seq::new(n as nat, |i: int| None::<&'static str>), k) == 0,
    decreases k,
{
    if k > 0 {
        none_count(n, k - 1);
    }
}

/// The name at a pin is that of a matched one.
pub open spec fn placed_by(
    names: Seq<&'static str>,
    m: Seq<Option<usize>>,
    l: int,
    at: Seq<Option<&'static str>>,
    i: int,
) -> bool {
    exists|u: int|
        0 <= u < l && #[trigger] m[u] == Some(i as usize) && at[i] == Some(names[u])
}

/// No name stands at two pins.
pub open spec fn placed_once(at: Seq<Option<&'static str>>) -> bool {
    forall|i: int, j: int|
        #![trigger at[i], at[j]]
        0 <= i < j < at.len() && at[i] is Some && at[j] is Some ==> at[i]->0@ != at[j]->0@
}

proof fn place_is_once(
    names: Seq<&'static str>,
    m: Seq<Option<usize>>,
    l: int,
    at: Seq<Option<&'static str>>,
)
    requires
        forall|i: int, j: int|
            #![trigger names[i], names[j]]
            0 <= i < j < names.len() ==> names[i]@ != names[j]@,
        l <= names.len(),
        at.len() <= usize::MAX,
        forall|i: int|
            0 <= i < at.len() && (#[trigger] at[i]) is Some ==> placed_by(names, m, l, at, i),
    ensures
        placed_once(at),
{
    assert forall|i: int, j: int|
        #![trigger at[i], at[j]]
        0 <= i < j < at.len() && at[i] is Some && at[j] is Some implies at[i]->0@ != at[j]->0@ by {
        assert(placed_by(names, m, l, at, i));
        assert(placed_by(names, m, l, at, j));
        let u = choose|u: int|
            0 <= u < l && #[trigger] m[u] == Some(i as usize) && at[i] == Some(names[u]);
        let w = choose|w: int|
            0 <= w < l && #[trigger] m[w] == Some(j as usize) && at[j] == Some(names[w]);
        assert(u != w);
        if u < w {
            assert(names[u]@ != names[w]@);
        } else {
            assert(names[w]@ != names[u]@);
        }
    }
}

proof fn part_names_distinct(caps: Seq<CapView>, amp: bool, n: int)
    ensures
        ({
            let v = part_names(caps, amp, n);
            forall|i: int, j: int|
                #![trigger v[i], v[j]]
                0 <= i < j < v.len() ==> v[i]@ != v[j]@
        }),
{
    part_names_ascend(caps, amp, n);
    let v = part_names(caps, amp, n);
    assert forall|i: int, j: int|
        #![trigger v[i], v[j]]
        0 <= i < j < v.len() implies v[i]@ != v[j]@ by {
        if v[i]@ == v[j]@ {
            assert(v[i].alike(&v[j]));
            ascends_is_distinct(v, i, j);
        }
    }
}

proof fn unspent_facts(names: Seq<&'static str>, spent: Seq<&'static str>, n: int)
    requires
        0 <= n <= names.len(),
        forall|i: int, j: int|
            #![trigger names[i], names[j]]
            0 <= i < j < names.len() ==> names[i]@ != names[j]@,
    ensures
        ({
            let v = unspent(names, spent, n);
            &&& v.len() <= n
            &&& forall|i: int|
                0 <= i < v.len() ==> !has_name(spent, (#[trigger] v[i])@) && names.take(
                    n,
                ).contains(v[i])
            &&& forall|i: int, j: int|
                #![trigger v[i], v[j]]
                0 <= i < j < v.len() ==> v[i]@ != v[j]@
        }),
    decreases n,
{
    if n > 0 {
        unspent_facts(names, spent, n - 1);
        let u = unspent(names, spent, n - 1);
        let v = unspent(names, spent, n);
        let t = names.take(n);
        let s = names.take(n - 1);
        assert(t[n - 1] == names[n - 1]);
        assert forall|i: int| 0 <= i < v.len() implies !has_name(spent, (#[trigger] v[i])@)
            && t.contains(v[i]) by {
            if i < u.len() {
                assert(v[i] == u[i]);
                let x = choose|x: int| 0 <= x < s.len() && s[x] == u[i];
                assert(t[x] == v[i]);
            } else {
                assert(v[i] == t[n - 1]);
            }
        }
        assert forall|i: int, j: int|
            #![trigger v[i], v[j]]
            0 <= i < j < v.len() implies v[i]@ != v[j]@ by {
            assert(v[i] == u[i]);
            if j < u.len() {
                assert(v[j] == u[j]);
            } else {
                let x = choose|x: int| 0 <= x < s.len() && s[x] == u[i];
                assert(names[x] == u[i]);
                assert(names[x]@ != names[n - 1]@);
            }
        }
    }
}

/// The pins at which amplifiers are placed can drive them and were not read.
pub proof fn amps_facts(
    caps: Seq<CapView>,
    blocked: Seq<Option<AdcRead>>,
    budget: int,
)
    requires
        caps.len() <= usize::MAX,
        blocked.len() == caps.len(),
        0 <= budget,
        part_names(caps, true, caps.len() as int).len() <= usize::MAX,
    ensures
        ({
            let n = caps.len() as int;
            let ops = part_names(caps, true, n);
            let m = matching::matching(amp_lists(caps, ops, blocked), n);
            let at = place_names(ops, m, budget, ops.len() as int, n).at;
            &&& m.len() == ops.len()
            &&& forall|u: int| 0 <= u < m.len() ==> (#[trigger] m[u] matches Some(v) ==> v < n)
            &&& at.len() == n
            &&& count_some(at, n) <= budget
            &&& count_some(at, n) <= ops.len()
            &&& placed_once(at)
            &&& forall|i: int|
                0 <= i < n && (#[trigger] at[i]) is Some ==> blocked[i] is None && has_name(
                    caps[i].opamp,
                    at[i]->0@,
                )
        }),
{
    let n = caps.len() as int;
    let ops = part_names(caps, true, n);
    let adj = amp_lists(caps, ops, blocked);
    assert forall|u: int, k: int| 0 <= u < adj.len() && 0 <= k < adj[u].len() implies (
    #[trigger] adj[u][k]) < n by {
        reach_facts(caps, ops[u]@, true, blocked, n);
        assert(adj[u] == reach(caps, ops[u]@, true, blocked, n));
    }
    matching::matching_is_valid(adj, n);
    let m = matching::matching(adj, n);
    place_facts(ops, adj, m, budget, ops.len() as int, n);
    let at = place_names(ops, m, budget, ops.len() as int, n).at;
    part_names_distinct(caps, true, n);
    place_is_once(ops, m, ops.len() as int, at);
    assert forall|i: int| 0 <= i < n && (#[trigger] at[i]) is Some implies blocked[i] is None
        && has_name(caps[i].opamp, at[i]->0@) by {
        assert(placed_by(ops, m, ops.len() as int, at, i));
        let u = choose|u: int|
            0 <= u < ops.len() && #[trigger] m[u] == Some(i as usize) && at[i] == Some(ops[u]);
        assert(adj[u].contains(i as usize));
        reach_facts(caps, ops[u]@, true, blocked, n);
        let k = choose|k: int| 0 <= k < adj[u].len() && adj[u][k] == i as usize;
        assert(reach(caps, ops[u]@, true, blocked, n)[k] == i as usize);
    }
}

/// The pins at which comparators are placed can drive them and are in no
/// zero-cross pair.
pub proof fn comps_facts(
    caps: Seq<CapView>,
    spent: Seq<&'static str>,
    blocked: Seq<Option<AdcRead>>,
    reads: Seq<Option<AdcRead>>,
)
    requires
        caps.len() <= usize::MAX,
        blocked.len() == caps.len(),
        part_names(caps, false, caps.len() as int).len() <= usize::MAX,
    ensures
        ({
            let n = caps.len() as int;
            let every = part_names(caps, false, n);
            let cn = unspent(every, spent, every.len() as int);
            let m = matching::matching(comp_lists(caps, cn, blocked, reads), n);
            let at = place_names(cn, m, cn.len() as int, cn.len() as int, n).at;
            &&& m.len() == cn.len()
            &&& forall|u: int| 0 <= u < m.len() ==> (#[trigger] m[u] matches Some(v) ==> v < n)
            &&& at.len() == n
            &&& count_some(at, n) <= every.len()
            &&& placed_once(at)
            &&& forall|i: int|
                0 <= i < n && (#[trigger] at[i]) is Some ==> blocked[i] is None && has_name(
                    caps[i].comp,
                    at[i]->0@,
                ) && !has_name(spent, at[i]->0@)
        }),
{
    let n = caps.len() as int;
    let every = part_names(caps, false, n);
    part_names_distinct(caps, false, n);
    unspent_facts(every, spent, every.len() as int);
    let cn = unspent(every, spent, every.len() as int);
    let adj = comp_lists(caps, cn, blocked, reads);
    assert forall|u: int, k: int| 0 <= u < adj.len() && 0 <= k < adj[u].len() implies (
    #[trigger] adj[u][k]) < n && blocked[adj[u][k] as int] is None && has_name(
        caps[adj[u][k] as int].comp,
        cn[u]@,
    ) by {
        reach_facts(caps, cn[u]@, false, blocked, n);
        let list = reach(caps, cn[u]@, false, blocked, n);
        read_first_facts(list, reads);
        assert(adj[u] == read_first(list, reads));
        assert(list.contains(adj[u][k]));
        let x = choose|x: int| 0 <= x < list.len() && list[x] == adj[u][k];
        assert(list[x] < n);
    }
    matching::matching_is_valid(adj, n);
    let m = matching::matching(adj, n);
    place_facts(cn, adj, m, cn.len() as int, cn.len() as int, n);
    let at = place_names(cn, m, cn.len() as int, cn.len() as int, n).at;
    place_is_once(cn, m, cn.len() as int, at);
    assert forall|i: int| 0 <= i < n && (#[trigger] at[i]) is Some implies blocked[i] is None
        && has_name(caps[i].comp, at[i]->0@) && !has_name(spent, at[i]->0@) by {
        assert(placed_by(cn, m, cn.len() as int, at, i));
        let u = choose|u: int|
            0 <= u < cn.len() && #[trigger] m[u] == Some(i as usize) && at[i] == Some(cn[u]);
        assert(adj[u].contains(i as usize));
        let k = choose|k: int| 0 <= k < adj[u].len() && adj[u][k] == i as usize;
        assert(adj[u][k] == i as usize);
        assert(!has_name(spent, cn[u]@));
    }
}

proof fn read_first_facts(list: Seq<usize>, reads: Seq<Option<AdcRead>>)
    ensures
        forall|j: int|
            0 <= j < read_first(list, reads).len() ==> list.contains(
                #[trigger] read_first(list, reads)[j],
            ),
{
    let k = list.len() as int;
    read_or_not_facts(list, reads, true, k);
    read_or_not_facts(list, reads, false, k);
    let a = read_or_not(list, reads, true, k);
    let b = read_or_not(list, reads, false, k);
    let r = read_first(list, reads);
    assert forall|j: int| 0 <= j < r.len() implies list.contains(#[trigger] r[j]) by {
        if j < a.len() {
            assert(r[j] == a[j]);
        } else {
            assert(r[j] == b[j - a.len()]);
        }
    }
}

/// What reading amplifier pins keeps, after the first `k` pairs.
spec fn gained_well(
    caps: Seq<CapView>,
    out: OutView,
    amps: Seq<Option<&'static str>>,
    pins: Seq<usize>,
    z: Sketch,
    d: Sketch,
    k: int,
) -> bool {
    &&& reads_well(caps, out, d.used, d.reads)
    &&& pairs_well(d)
    &&& d.crossed == z.crossed
    &&& d.comps == z.comps
    &&& d.chosen == z.chosen
    &&& d.gained.len() <= k
    &&& count_some(d.reads, caps.len() as int) <= count_some(z.reads, caps.len() as int) + 2 * k
    &&& forall|i: int| 0 <= i < d.reads.len() && (#[trigger] d.reads[i]) is Some ==> tells_amp(
        amps,
        d.reads,
        i,
    )
    &&& forall|i: int| 0 <= i < z.reads.len() && (#[trigger] z.reads[i]) is Some ==> d.reads[i]
        == z.reads[i]
    &&& forall|j: int| 2 * k <= j < pins.len() ==> d.reads[(#[trigger] pins[j]) as int] is None
}

/// A read through an amplifier names the one at its pin.
pub open spec fn tells_amp(
    amps: Seq<Option<&'static str>>,
    reads: Seq<Option<AdcRead>>,
    i: int,
) -> bool {
    reads[i]->0 matches AdcRead::ViaOpamp { opamp, adc, ch } ==> amps[i] == Some(opamp)
}

proof fn gain_keeps(
    caps: Seq<CapView>,
    out: OutView,
    amps: Seq<Option<&'static str>>,
    z: Sketch,
    k: int,
)
    requires
        reads_well(caps, out, z.used, z.reads),
        pairs_well(z),
        z.gained.len() == 0,
        forall|i: int|
            0 <= i < z.reads.len() && (#[trigger] z.reads[i]) is Some ==> z.reads[i]->0 is Direct,
        caps.len() <= usize::MAX,
        amps.len() == caps.len(),
        forall|i: int|
            0 <= i < amps.len() && (#[trigger] amps[i]) is Some ==> z.reads[i] is None && has_name(
                caps[i].opamp,
                amps[i]->0@,
            ),
        0 <= 2 * k <= somes(amps, amps.len() as int).len(),
    ensures
        gained_well(
            caps,
            out,
            amps,
            somes(amps, amps.len() as int),
            z,
            gain(out, amps, somes(amps, amps.len() as int), z, k),
            k,
        ),
    decreases k,
{
    let n = caps.len() as int;
    let pins = somes(amps, n);
    somes_facts(amps, n);
    assert forall|j: int| 0 <= j < pins.len() implies z.reads[(#[trigger] pins[j]) as int] is None by {
        assert(amps[pins[j] as int] is Some);
    }
    if k > 0 {
        gain_keeps(caps, out, amps, z, k - 1);
        let d = gain(out, amps, pins, z, k - 1);
        let a = pins[2 * (k - 1)];
        let b = pins[2 * k - 1];
        let e = gain_one(out, amps, d, a, b);
        assert(a < b);
        assert(d.reads[a as int] is None);
        assert(d.reads[b as int] is None);
        let la = output_of(out, amps, a as int);
        let lb = output_of(out, amps, b as int);
        let picks = cross_slots(la, lb, d.used);
        if picks.0 is Some && picks.1 is Some {
            let s = picks.0->0;
            let t = picks.1->0;
            assert(la is Some && lb is Some);
            cross_slots_are_free(la->0, lb->0, d.used);
            still_free(d.used, s, t);
            let r1 = AdcRead::ViaOpamp { opamp: amps[a as int]->0, adc: s.0, ch: s.1 };
            let r2 = AdcRead::ViaOpamp { opamp: amps[b as int]->0, adc: t.0, ch: t.1 };
            read_one(caps, out, d.used, d.reads, a as int, r1);
            let mid = d.reads.update(a as int, Some(r1));
            read_one(caps, out, d.used.push(s), mid, b as int, r2);
            count_after(d.reads, a as int, r1, n);
            count_after(mid, b as int, r2, n);
            assert(e.reads == mid.update(b as int, Some(r2)));
            assert(e.used == d.used.push(s).push(t));
            assert forall|x: int| 0 <= x < e.gained.len() implies both_read(
                e.reads,
                #[trigger] e.gained[x],
            ) by {
                if x < d.gained.len() {
                    assert(e.gained[x] == d.gained[x]);
                }
            }
            assert forall|x: int, y: int|
                #![trigger e.gained[x], e.gained[y]]
                0 <= x < y < e.gained.len() implies apart(e.gained[x], e.gained[y]) by {
                assert(e.gained[x] == d.gained[x]);
                assert(both_read(d.reads, d.gained[x]));
                if y < d.gained.len() {
                    assert(e.gained[y] == d.gained[y]);
                }
            }
            assert forall|x: int, y: int|
                #![trigger e.crossed[x], e.gained[y]]
                0 <= x < e.crossed.len() && 0 <= y < e.gained.len() implies apart(
                ends(e.crossed[x]),
                e.gained[y],
            ) by {
                assert(e.crossed[x] == d.crossed[x]);
                assert(both_read(d.reads, ends(d.crossed[x])));
                if y < d.gained.len() {
                    assert(e.gained[y] == d.gained[y]);
                }
            }
            assert forall|x: int| 0 <= x < e.crossed.len() implies both_read(
                e.reads,
                ends(#[trigger] e.crossed[x]),
            ) by {
                assert(both_read(d.reads, ends(d.crossed[x])));
            }
            assert forall|i: int| 0 <= i < e.reads.len() && (#[trigger] e.reads[i]) is Some implies
                tells_amp(amps, e.reads, i) by {
                if i != a && i != b {
                    assert(e.reads[i] == d.reads[i]);
                    assert(tells_amp(amps, d.reads, i));
                }
            }
            assert forall|j: int| 2 * k <= j < pins.len() implies e.reads[(
            #[trigger] pins[j]) as int] is None by {
                assert(b < pins[j]);
            }
            assert forall|i: int| 0 <= i < z.reads.len() && (#[trigger] z.reads[i]) is Some implies
                e.reads[i] == z.reads[i] by {
                assert(d.reads[i] == z.reads[i]);
            }
        }
    }
}

/// What reading through amplifiers keeps.
pub proof fn gain_all_keeps(
    caps: Seq<CapView>,
    out: OutView,
    amps: Seq<Option<&'static str>>,
    z: Sketch,
)
    requires
        reads_well(caps, out, z.used, z.reads),
        pairs_well(z),
        z.gained.len() == 0,
        forall|i: int|
            0 <= i < z.reads.len() && (#[trigger] z.reads[i]) is Some ==> z.reads[i]->0 is Direct,
        caps.len() <= usize::MAX,
        amps.len() == caps.len(),
        forall|i: int|
            0 <= i < amps.len() && (#[trigger] amps[i]) is Some ==> z.reads[i] is None && has_name(
                caps[i].opamp,
                amps[i]->0@,
            ),
    ensures
        ({
            let a = gain_all(out, amps, z);
            let n = caps.len() as int;
            &&& reads_well(caps, out, a.used, a.reads)
            &&& pairs_well(a)
            &&& a.crossed == z.crossed
            &&& a.comps == z.comps
            &&& a.chosen == z.chosen
            &&& a.gained.len() <= n
            &&& count_some(a.reads, n) <= count_some(z.reads, n) + count_some(amps, n)
            &&& forall|i: int|
                0 <= i < a.reads.len() && (#[trigger] a.reads[i]) is Some ==> tells_amp(
                    amps,
                    a.reads,
                    i,
                )
            &&& forall|i: int|
                0 <= i < z.reads.len() && (#[trigger] z.reads[i]) is Some ==> a.reads[i]
                    == z.reads[i]
        }),
{
    let n = caps.len() as int;
    let pins = somes(amps, n);
    somes_facts(amps, n);
    let half = (pins.len() / 2) as int;
    gain_keeps(caps, out, amps, z, half);
    let d = gain(out, amps, pins, z, half);
    let e = gain_last(out, amps, pins, d);
    if pins.len() % 2 == 1 {
        let i = pins.last();
        assert(i == pins[2 * half]);
        assert(d.reads[i as int] is None);
        assert(amps[i as int] is Some);
        let la = output_of(out, amps, i as int);
        if opt_free(la, d.used) is Some {
            let s = opt_free(la, d.used)->0;
            free_slot_is_free(la->0, d.used, 0);
            let r = AdcRead::ViaOpamp { opamp: amps[i as int]->0, adc: s.0, ch: s.1 };
            read_one(caps, out, d.used, d.reads, i as int, r);
            count_after(d.reads, i as int, r, n);
            assert forall|x: int| 0 <= x < e.crossed.len() implies both_read(
                e.reads,
                ends(#[trigger] e.crossed[x]),
            ) by {
                assert(both_read(d.reads, ends(d.crossed[x])));
            }
            assert forall|x: int| 0 <= x < e.gained.len() implies both_read(
                e.reads,
                #[trigger] e.gained[x],
            ) by {
                assert(both_read(d.reads, d.gained[x]));
            }
            assert forall|x: int| 0 <= x < e.reads.len() && (#[trigger] e.reads[x]) is Some implies
                tells_amp(amps, e.reads, x) by {
                if x != i {
                    assert(e.reads[x] == d.reads[x]);
                    assert(tells_amp(amps, d.reads, x));
                }
            }
            assert forall|x: int| 0 <= x < z.reads.len() && (#[trigger] z.reads[x]) is Some implies
                e.reads[x] == z.reads[x] by {
                assert(d.reads[x] == z.reads[x]);
                assert(z.reads[i as int] is None);
            }
        }
    }
}

/// The chosen pins are the ones that are read, each once.
pub open spec fn chosen_well(d: Sketch) -> bool {
    &&& d.chosen.len() == count_some(d.reads, d.reads.len() as int)
    &&& d.chosen.no_duplicates()
    &&& forall|k: int|
        0 <= k < d.chosen.len() ==> (#[trigger] d.chosen[k]) < d.reads.len()
            && d.reads[d.chosen[k] as int] is Some
    &&& forall|i: int|
        0 <= i < d.reads.len() && (#[trigger] d.reads[i]) is Some ==> d.chosen.contains(i as usize)
}

/// What choosing further pins keeps.
spec fn chosen_keeps(
    caps: Seq<CapView>,
    out: OutView,
    channels: int,
    amps: Seq<Option<&'static str>>,
    b: Sketch,
    d: Sketch,
) -> bool {
    &&& reads_well(caps, out, d.used, d.reads)
    &&& pairs_well(d)
    &&& chosen_well(d)
    &&& d.crossed == b.crossed
    &&& d.gained == b.gained
    &&& b.chosen.len() <= channels ==> d.chosen.len() <= channels
    &&& forall|i: int| 0 <= i < d.reads.len() && (#[trigger] d.reads[i]) is Some ==> tells_amp(
        amps,
        d.reads,
        i,
    )
    &&& forall|i: int| 0 <= i < b.reads.len() && (#[trigger] b.reads[i]) is Some ==> d.reads[i]
        == b.reads[i]
}

proof fn choose_keeps(
    caps: Seq<CapView>,
    out: OutView,
    channels: int,
    amps: Seq<Option<&'static str>>,
    list: Seq<usize>,
    b: Sketch,
    k: int,
)
    requires
        chosen_keeps(caps, out, channels, amps, b, b),
        caps.len() <= usize::MAX,
        0 <= k <= list.len(),
        forall|j: int| 0 <= j < list.len() ==> (#[trigger] list[j]) < caps.len(),
    ensures
        chosen_keeps(caps, out, channels, amps, b, choose_from(caps, channels, list, b, k)),
    decreases k,
{
    if k > 0 {
        choose_keeps(caps, out, channels, amps, list, b, k - 1);
        let d = choose_from(caps, channels, list, b, k - 1);
        let i = list[k - 1];
        let e = choose_one(caps, channels, d, i);
        let pick = free_slot(caps[i as int].adc, d.used, 0);
        if !(d.chosen.len() >= channels || d.reads[i as int] is Some) && pick is Some {
            let s = pick->0;
            free_slot_is_free(caps[i as int].adc, d.used, 0);
            let r = AdcRead::Direct { adc: s.0, ch: s.1 };
            read_one(caps, out, d.used, d.reads, i as int, r);
            count_after(d.reads, i as int, r, d.reads.len() as int);
            assert forall|x: int| 0 <= x < e.chosen.len() implies (#[trigger] e.chosen[x])
                < e.reads.len() && e.reads[e.chosen[x] as int] is Some by {
                if x < d.chosen.len() {
                    assert(e.chosen[x] == d.chosen[x]);
                }
            }
            assert forall|x: int| 0 <= x < e.reads.len() && (#[trigger] e.reads[x]) is Some implies
                e.chosen.contains(x as usize) by {
                if x == i {
                    assert(e.chosen[d.chosen.len() as int] == i);
                } else {
                    assert(d.reads[x] is Some);
                    let y = choose|y: int| 0 <= y < d.chosen.len() && d.chosen[y] == x as usize;
                    assert(e.chosen[y] == x as usize);
                }
            }
            assert(e.chosen.no_duplicates()) by {
                assert forall|x: int, y: int|
                    0 <= x < e.chosen.len() && 0 <= y < e.chosen.len() && x != y implies e.chosen[x]
                    != e.chosen[y] by {
                    if x < d.chosen.len() {
                        assert(d.reads[d.chosen[x] as int] is Some);
                    }
                    if y < d.chosen.len() {
                        assert(d.reads[d.chosen[y] as int] is Some);
                    }
                }
            }
            assert forall|x: int| 0 <= x < e.crossed.len() implies both_read(
                e.reads,
                ends(#[trigger] e.crossed[x]),
            ) by {
                assert(both_read(d.reads, ends(d.crossed[x])));
            }
            assert forall|x: int| 0 <= x < e.gained.len() implies both_read(
                e.reads,
                #[trigger] e.gained[x],
            ) by {
                assert(both_read(d.reads, d.gained[x]));
            }
            assert forall|x: int| 0 <= x < e.reads.len() && (#[trigger] e.reads[x]) is Some implies
                tells_amp(amps, e.reads, x) by {
                if x != i {
                    assert(e.reads[x] == d.reads[x]);
                    assert(tells_amp(amps, d.reads, x));
                }
            }
            assert forall|x: int| 0 <= x < b.reads.len() && (#[trigger] b.reads[x]) is Some implies
                e.reads[x] == b.reads[x] by {
                assert(d.reads[x] == b.reads[x]);
            }
        }
    }
}

/// What holds of a solved plan: the reads and pairs are well, the chosen pins are
/// the ones read and no more than asked for, each amplifier and comparator stands at
/// one pin that can drive it, and a zero-cross pair is one of the options, read
/// directly, with no comparator or amplifier at its ends.
pub open spec fn solved_well(
    caps: Seq<CapView>,
    out: OutView,
    opts: Seq<ZeroCrossOption>,
    channels: int,
    s: Solved,
) -> bool {
    let n = caps.len() as int;
    &&& reads_well(caps, out, s.d.used, s.d.reads)
    &&& pairs_well(s.d)
    &&& chosen_well(s.d)
    &&& s.d.chosen.len() <= channels
    &&& 2 * s.d.crossed.len() <= channels
    &&& s.d.gained.len() <= n
    &&& s.amps.len() == n
    &&& s.comps.len() == n
    &&& placed_once(s.amps)
    &&& placed_once(s.comps)
    &&& count_some(s.amps, n) <= part_names(caps, true, n).len()
    &&& count_some(s.comps, n) <= part_names(caps, false, n).len()
    &&& forall|i: int|
        0 <= i < n && (#[trigger] s.amps[i]) is Some ==> has_name(caps[i].opamp, s.amps[i]->0@)
    &&& forall|i: int|
        0 <= i < n && (#[trigger] s.comps[i]) is Some ==> has_name(caps[i].comp, s.comps[i]->0@)
    &&& forall|i: int| 0 <= i < n && (#[trigger] s.d.reads[i]) is Some ==> tells_amp(
        s.amps,
        s.d.reads,
        i,
    )
    &&& forall|k: int| 0 <= k < s.d.crossed.len() ==> crossed_well(caps, opts, s, k)
    &&& forall|k: int, l: int|
        #![trigger s.d.crossed[k], s.d.crossed[l]]
        0 <= k < l < s.d.crossed.len() ==> s.d.crossed[k].2@ != s.d.crossed[l].2@
}

/// What holds of a zero-cross pair.
pub open spec fn crossed_well(
    caps: Seq<CapView>,
    opts: Seq<ZeroCrossOption>,
    s: Solved,
    k: int,
) -> bool {
    let x = s.d.crossed[k];
    &&& from_option(caps, opts, x)
    &&& s.d.reads[x.0 as int]->0 is Direct
    &&& s.d.reads[x.1 as int]->0 is Direct
    &&& s.comps[x.0 as int] is None
    &&& s.comps[x.1 as int] is None
    &&& s.amps[x.0 as int] is None
    &&& s.amps[x.1 as int] is None
    &&& forall|i: int|
        0 <= i < s.comps.len() && (#[trigger] s.comps[i]) is Some ==> s.comps[i]->0@ != x.2@
}

proof fn spare_facts(caps: Seq<CapView>, reads: Seq<Option<AdcRead>>, n: int)
    requires
        0 <= n <= caps.len(),
        caps.len() <= usize::MAX,
    ensures
        spare(caps, reads, n).len() <= n,
        forall|k: int|
            0 <= k < spare(caps, reads, n).len() ==> (#[trigger] spare(caps, reads, n)[k]) < n,
    decreases n,
{
    if n > 0 {
        spare_facts(caps, reads, n - 1);
    }
}

/// The fillers are pins.
pub proof fn fillers_facts(caps: Seq<CapView>, reads: Seq<Option<AdcRead>>)
    requires
        caps.len() <= usize::MAX,
    ensures
        forall|k: int|
            0 <= k < fillers(caps, reads).len() ==> (#[trigger] fillers(caps, reads)[k])
                < caps.len(),
{
    let list = spare(caps, reads, caps.len() as int);
    spare_facts(caps, reads, caps.len() as int);
    let keys = list.map_values(
        |i: usize|
            crate::frontend_plan::instances_in(
                caps[i as int].adc,
                caps[i as int].adc.len() as int,
            ).len() as u64,
    );
    order::order_of_is_stable(keys);
    let o = order_of(keys);
    let f = fillers(caps, reads);
    assert(f == picked(list, o));
    assert forall|k: int| 0 <= k < f.len() implies (#[trigger] f[k]) < caps.len() by {
        assert(o[k] < list.len());
        assert(list[o[k] as int] < caps.len());
    }
}

/// Every plan that the stages arrive at is well.
pub proof fn solve_is_sound(
    caps: Seq<CapView>,
    out: OutView,
    opts: Seq<ZeroCrossOption>,
    channels: int,
    target: int,
)
    requires
        caps.len() <= usize::MAX,
        opts.len() <= usize::MAX,
        0 <= channels,
        0 <= target,
        part_names(caps, true, caps.len() as int).len() <= usize::MAX,
        part_names(caps, false, caps.len() as int).len() <= usize::MAX,
    ensures
        solved_well(caps, out, opts, channels, solve(caps, out, opts, channels, target)),
{
    let n = caps.len() as int;
    let fit = usable_options(opts, caps, opts.len() as int);
    usable_fit(opts, caps, opts.len() as int);
    thrifty_fit(fit, caps);
    let want = if target < channels / 2 {
        target
    } else {
        channels / 2
    };
    let list = thrifty(fit, caps);
    carve_keeps(caps, out, want, list, list.len() as int);
    let z = carve(caps, want, list, list.len() as int);
    let left = channels - count_some(z.reads, n);
    let budget = if left > 0 {
        left
    } else {
        0
    };
    let ops = part_names(caps, true, n);
    amps_facts(caps, z.reads, budget);
    let am = matching::matching(amp_lists(caps, ops, z.reads), n);
    let amps = place_names(ops, am, budget, ops.len() as int, n).at;
    gain_all_keeps(caps, out, amps, z);
    let a = gain_all(out, amps, z);
    let every = part_names(caps, false, n);
    comps_facts(caps, z.comps, z.reads, a.reads);
    let cn = unspent(every, z.comps, every.len() as int);
    let cm = matching::matching(comp_lists(caps, cn, z.reads, a.reads), n);
    let comps = place_names(cn, cm, cn.len() as int, cn.len() as int, n).at;
    let b = Sketch { chosen: somes(a.reads, n), ..a };
    somes_facts(a.reads, n);
    assert(b.chosen.no_duplicates()) by {
        assert forall|x: int, y: int|
            0 <= x < b.chosen.len() && 0 <= y < b.chosen.len() && x != y implies b.chosen[x]
            != b.chosen[y] by {
            if x < y {
                assert(b.chosen[x] < b.chosen[y]);
            } else {
                assert(b.chosen[y] < b.chosen[x]);
            }
        }
    }
    assert(chosen_keeps(caps, out, channels, amps, b, b));
    let watched = somes(comps, n);
    somes_facts(comps, n);
    choose_keeps(caps, out, channels, amps, watched, b, watched.len() as int);
    let c = choose_from(caps, channels, watched, b, watched.len() as int);
    let more = fillers(caps, c.reads);
    fillers_facts(caps, c.reads);
    choose_keeps(caps, out, channels, amps, more, c, more.len() as int);
    let d = choose_from(caps, channels, more, c, more.len() as int);
    let s = solve(caps, out, opts, channels, target);
    assert(s == (Solved { d, amps, comps }));
    assert forall|k: int| 0 <= k < s.d.crossed.len() implies crossed_well(caps, opts, s, k) by {
        let x = z.crossed[k];
        assert(d.crossed[k] == x);
        assert(both_read(z.reads, ends(x)));
        assert(from_option(caps, list, x));
        let o = choose|o: ZeroCrossOption| #[trigger]
            list.contains(o) && x.2 == o.comp && x.0 < caps.len() && x.1 < caps.len()
                && caps[x.0 as int].pin == o.plus && caps[x.1 as int].pin == o.minus;
        let y = choose|y: int| 0 <= y < list.len() && list[y] == o;
        assert(fit.contains(list[y]));
        let w = choose|w: int| 0 <= w < fit.len() && fit[w] == o;
        assert(opts.contains(fit[w]));
        assert(from_option(caps, opts, x));
        let p = x.0 as int;
        let q = x.1 as int;
        assert(a.reads[p] == z.reads[p] && a.reads[q] == z.reads[q]);
        assert(b.reads[p] is Some && b.reads[q] is Some);
        assert(c.reads[p] == b.reads[p] && c.reads[q] == b.reads[q]);
        assert(d.reads[p] == c.reads[p] && d.reads[q] == c.reads[q]);
        assert(amps[p] is None) by {
            if amps[p] is Some {
                assert(z.reads[p] is None);
            }
        }
        assert(amps[q] is None) by {
            if amps[q] is Some {
                assert(z.reads[q] is None);
            }
        }
        assert(comps[p] is None) by {
            if comps[p] is Some {
                assert(z.reads[p] is None);
            }
        }
        assert(comps[q] is None) by {
            if comps[q] is Some {
                assert(z.reads[q] is None);
            }
        }
        assert forall|i: int| 0 <= i < comps.len() && (#[trigger] comps[i]) is Some implies comps[i]->0@
            != x.2@ by {
            assert(z.comps[k] == x.2);
            assert(!has_name(z.comps, comps[i]->0@));
        }
    }
}

proof fn pair_up_facts(list: Seq<usize>, reads: Seq<Option<AdcRead>>)
    requires
        list.no_duplicates(),
    ensures
        ({
            let r = pair_up(list, reads);
            &&& r.len() <= list.len()
            &&& forall|k: int|
                0 <= k < r.len() ==> list.contains((#[trigger] r[k]).0) && list.contains(r[k].1)
            &&& forall|k: int, l: int|
                #![trigger r[k], r[l]]
                0 <= k < l < r.len() ==> apart(r[k], r[l])
            &&& forall|x: usize| list.contains(x) ==> in_pair(r, x)
            &&& forall|k: int| 0 <= k < r.len() && (#[trigger] r[k]).0 == r[k].1 ==> k == r.len() - 1
            &&& 2 * r.len() <= list.len() + 1
        }),
    decreases list.len(),
{
    let r = pair_up(list, reads);
    if list.len() == 1 {
        assert(r == seq![(list[0], list[0])]);
        assert(r[0] == (list[0], list[0]));
    } else if list.len() > 1 {
        let rest = list.skip(1);
        let adc = slot_of(reads[list[0] as int]->0).0@;
        partner_in_range(rest, reads, adc, 0);
        let p = partner(rest, reads, adc, 0);
        let tail = rest.remove(p);
        assert(tail.no_duplicates()) by {
            assert forall|x: int, y: int|
                0 <= x < tail.len() && 0 <= y < tail.len() && x != y implies tail[x] != tail[y] by {
                assert(tail[x] == list[1 + (if x < p { x } else { x + 1 })]);
                assert(tail[y] == list[1 + (if y < p { y } else { y + 1 })]);
            }
        }
        pair_up_facts(tail, reads);
        let t = pair_up(tail, reads);
        assert(r == seq![(list[0], rest[p])] + t);
        assert(rest[p] == list[p + 1]);
        assert forall|x: usize| tail.contains(x) implies list.contains(x) && x != list[0] && x
            != rest[p] by {
            let y = choose|y: int| 0 <= y < tail.len() && tail[y] == x;
            assert(tail[y] == list[1 + (if y < p { y } else { y + 1 })]);
        }
        assert forall|k: int| 0 <= k < r.len() implies list.contains((#[trigger] r[k]).0)
            && list.contains(r[k].1) by {
            if k == 0 {
                assert(r[0] == (list[0], rest[p]));
                assert(list.contains(list[0]) && list.contains(list[p + 1]));
            } else {
                assert(r[k] == t[k - 1]);
            }
        }
        assert forall|k: int, l: int|
            #![trigger r[k], r[l]]
            0 <= k < l < r.len() implies apart(r[k], r[l]) by {
            assert(r[l] == t[l - 1]);
            assert(tail.contains(t[l - 1].0) && tail.contains(t[l - 1].1));
            if k > 0 {
                assert(r[k] == t[k - 1]);
            } else {
                assert(r[0] == (list[0], rest[p]));
            }
        }
        assert forall|x: usize| list.contains(x) implies in_pair(r, x) by {
            let y = choose|y: int| 0 <= y < list.len() && list[y] == x;
            if y == 0 || y == p + 1 {
                assert(r[0] == (list[0], rest[p]));
            } else {
                let w = if y - 1 < p {
                    y - 1
                } else {
                    y - 2
                };
                assert(tail[w] == x);
                assert(in_pair(t, x));
                let k = choose|k: int| 0 <= k < t.len() && ((#[trigger] t[k]).0 == x || t[k].1 == x);
                assert(r[k + 1] == t[k]);
            }
        }
        assert forall|k: int| 0 <= k < r.len() && (#[trigger] r[k]).0 == r[k].1 implies k == r.len()
            - 1 by {
            if k > 0 {
                assert(r[k] == t[k - 1]);
            } else {
                assert(r[0] == (list[0], rest[p]));
                assert(list[0] != list[p + 1]);
            }
        }
    }
}

/// Whether a pin is in one of the pairs.
pub open spec fn in_pair(r: Seq<(usize, usize)>, x: usize) -> bool {
    exists|k: int| 0 <= k < r.len() && ((#[trigger] r[k]).0 == x || r[k].1 == x)
}

proof fn unpaired_well(d: Sketch, k: int)
    requires
        d.chosen.no_duplicates(),
        0 <= k <= d.chosen.len(),
    ensures
        ({
            let u = unpaired(d, k);
            &&& u.len() <= k
            &&& u.no_duplicates()
            &&& forall|j: int|
                0 <= j < u.len() ==> !is_paired(d, (#[trigger] u[j]) as int) && d.chosen.take(
                    k,
                ).contains(u[j])
            &&& forall|x: int|
                0 <= x < k && !is_paired(d, (#[trigger] d.chosen[x]) as int) ==> u.contains(
                    d.chosen[x],
                )
        }),
    decreases k,
{
    if k > 0 {
        unpaired_well(d, k - 1);
        let v = unpaired(d, k - 1);
        let u = unpaired(d, k);
        let s = d.chosen.take(k - 1);
        let t = d.chosen.take(k);
        assert(t[k - 1] == d.chosen[k - 1]);
        assert forall|j: int| 0 <= j < u.len() implies !is_paired(d, (#[trigger] u[j]) as int)
            && t.contains(u[j]) by {
            if j < v.len() {
                assert(u[j] == v[j]);
                let x = choose|x: int| 0 <= x < s.len() && s[x] == v[j];
                assert(t[x] == v[j]);
            } else {
                assert(u[j] == t[k - 1]);
            }
        }
        assert(u.no_duplicates()) by {
            assert forall|x: int, y: int|
                0 <= x < u.len() && 0 <= y < u.len() && x != y implies u[x] != u[y] by {
                let lo = if x < y {
                    x
                } else {
                    y
                };
                let hi = if x < y {
                    y
                } else {
                    x
                };
                assert(u[lo] == v[lo]);
                if hi < v.len() {
                    assert(u[hi] == v[hi]);
                } else {
                    let w = choose|w: int| 0 <= w < s.len() && s[w] == v[lo];
                    assert(d.chosen[w] == v[lo]);
                }
            }
        }
        assert forall|x: int| 0 <= x < k && !is_paired(d, (#[trigger] d.chosen[x]) as int) implies
            u.contains(d.chosen[x]) by {
            if x < k - 1 {
                assert(v.contains(d.chosen[x]));
                let w = choose|w: int| 0 <= w < v.len() && v[w] == d.chosen[x];
                assert(u[w] == v[w]);
            } else {
                assert(u[v.len() as int] == d.chosen[x]);
            }
        }
    }
}

proof fn singles_well(caps: Seq<CapView>, d: Sketch)
    requires
        chosen_well(d),
        d.chosen.len() <= usize::MAX,
    ensures
        singles(caps, d).no_duplicates(),
        singles(caps, d).len() <= d.chosen.len(),
        forall|k: int|
            0 <= k < singles(caps, d).len() ==> d.chosen.contains(#[trigger] singles(caps, d)[k])
                && !is_paired(d, singles(caps, d)[k] as int),
        forall|x: usize|
            d.chosen.contains(x) && !is_paired(d, x as int) ==> singles(caps, d).contains(x),
{
    let list = unpaired(d, d.chosen.len() as int);
    unpaired_well(d, d.chosen.len() as int);
    assert(d.chosen.take(d.chosen.len() as int) =~= d.chosen);
    let keys = list.map_values(|i: usize| crate::mcu_pinout::pin_rank(caps[i as int].pin) as u64);
    order::order_of_is_stable(keys);
    let o = order_of(keys);
    let r = singles(caps, d);
    assert(r == picked(list, o));
    assert forall|k: int| 0 <= k < r.len() implies d.chosen.contains(#[trigger] r[k]) && !is_paired(
        d,
        r[k] as int,
    ) by {
        assert(o[k] < list.len());
        assert(r[k] == list[o[k] as int]);
    }
    assert forall|x: int, y: int|
        0 <= x < r.len() && 0 <= y < r.len() && x != y implies r[x] != r[y] by {
        assert(o[x] < list.len() && o[y] < list.len());
        assert(o[x] != o[y]) by {
            if x < y {
                assert(o[x] != o[y]);
            } else {
                assert(o[y] != o[x]);
            }
        }
        assert(r[x] == list[o[x] as int]);
        assert(r[y] == list[o[y] as int]);
    }
    assert forall|x: usize| d.chosen.contains(x) && !is_paired(d, x as int) implies r.contains(x) by {
        let y = choose|y: int| 0 <= y < d.chosen.len() && d.chosen[y] == x;
        assert(list.contains(d.chosen[y]));
        let w = choose|w: int| 0 <= w < list.len() && list[w] == x;
        order::stable_order_covers(keys, o, keys.len() as int, w);
        let v = choose|v: int| 0 <= v < o.len() && o[v] == w;
        assert(r[v] == list[w]);
    }
}

/// The pairs of a plan share no pin, hold only pins that are read, and hold every
/// chosen pin.
pub proof fn pairs_are_apart(
    caps: Seq<CapView>,
    out: OutView,
    opts: Seq<ZeroCrossOption>,
    channels: int,
    s: Solved,
)
    requires
        solved_well(caps, out, opts, channels, s),
        caps.len() <= usize::MAX,
        s.d.chosen.len() <= usize::MAX,
    ensures
        ({
            let idx = pair_indices(caps, s.d);
            &&& forall|k: int| 0 <= k < idx.len() ==> both_read(s.d.reads, #[trigger] idx[k])
            &&& forall|k: int, l: int|
                #![trigger idx[k], idx[l]]
                0 <= k < l < idx.len() ==> apart(idx[k], idx[l])
            &&& forall|x: usize| s.d.chosen.contains(x) ==> in_pair(idx, x)
            &&& idx.len() <= caps.len()
        }),
{
    let d = s.d;
    let list = singles(caps, d);
    singles_well(caps, d);
    pair_up_facts(list, d.reads);
    somes_facts(d.reads, d.reads.len() as int);
    let a = d.crossed.map_values(|x: (usize, usize, &'static str)| (x.0, x.1));
    let b = d.gained;
    let c = pair_up(list, d.reads);
    let idx = pair_indices(caps, d);
    let n1 = a.len() as int;
    let n2 = n1 + b.len();
    assert(idx == a + b + c);
    assert forall|k: int| 0 <= k < idx.len() implies idx[k] == (if k < n1 {
        ends(d.crossed[k])
    } else if k < n2 {
        b[k - n1]
    } else {
        c[k - n2]
    }) by {}
    assert forall|k: int| 0 <= k < idx.len() implies both_read(d.reads, #[trigger] idx[k]) by {
        if k < n1 {
            assert(both_read(d.reads, ends(d.crossed[k])));
        } else if k < n2 {
            assert(both_read(d.reads, b[k - n1]));
        } else {
            let p = c[k - n2];
            single_is_read(d, list, p.0);
            single_is_read(d, list, p.1);
        }
    }
    assert forall|k: int, l: int|
        #![trigger idx[k], idx[l]]
        0 <= k < l < idx.len() implies apart(idx[k], idx[l]) by {
        if l < n1 {
            assert(apart(ends(d.crossed[k]), ends(d.crossed[l])));
        } else if l < n2 {
            if k < n1 {
                assert(apart(ends(d.crossed[k]), b[l - n1]));
            } else {
                assert(apart(b[k - n1], b[l - n1]));
            }
        } else {
            let p = c[l - n2];
            if k >= n2 {
                assert(apart(c[k - n2], p));
            } else {
                single_not_paired(caps, d, list, p.0);
                single_not_paired(caps, d, list, p.1);
                if k < n1 {
                    assert(d.crossed[k].0 == idx[k].0 && d.crossed[k].1 == idx[k].1);
                } else {
                    assert(d.gained[k - n1] == idx[k]);
                }
            }
        }
    }
    assert forall|x: usize| d.chosen.contains(x) implies in_pair(idx, x) by {
        if is_paired(d, x as int) {
            if exists|k: int|
                0 <= k < d.crossed.len() && ((#[trigger] d.crossed[k]).0 == x || d.crossed[k].1
                    == x) {
                let k = choose|k: int|
                    0 <= k < d.crossed.len() && ((#[trigger] d.crossed[k]).0 == x || d.crossed[k].1
                        == x);
                assert(idx[k] == ends(d.crossed[k]));
            } else {
                let k = choose|k: int|
                    0 <= k < d.gained.len() && ((#[trigger] d.gained[k]).0 == x || d.gained[k].1
                        == x);
                assert(idx[n1 + k] == d.gained[k]);
            }
        } else {
            assert(list.contains(x));
            assert(in_pair(c, x));
            let k = choose|k: int| 0 <= k < c.len() && ((#[trigger] c[k]).0 == x || c[k].1 == x);
            assert(idx[n2 + k] == c[k]);
        }
    }
    apart_are_few(idx, caps.len() as int);
}

/// Pairs of indices below `n` that share none are at most `n`.
proof fn apart_are_few(idx: Seq<(usize, usize)>, n: int)
    requires
        0 <= n,
        forall|k: int| 0 <= k < idx.len() ==> (#[trigger] idx[k]).0 < n,
        forall|k: int, l: int|
            #![trigger idx[k], idx[l]]
            0 <= k < l < idx.len() ==> apart(idx[k], idx[l]),
    ensures
        idx.len() <= n,
{
    let firsts = Seq::new(idx.len(), |k: int| idx[k].0 as int);
    assert(firsts.no_duplicates()) by {
        assert forall|k: int, l: int|
            0 <= k < firsts.len() && 0 <= l < firsts.len() && k != l implies firsts[k]
            != firsts[l] by {
            if k < l {
                assert(apart(idx[k], idx[l]));
            } else {
                assert(apart(idx[l], idx[k]));
            }
        }
    }
    firsts.unique_seq_to_set();
    let all = vstd::set_lib::set_int_range(0, n);
    vstd::set_lib::lemma_int_range(0, n);
    assert(firsts.to_set().subset_of(all)) by {
        assert forall|x: int| firsts.to_set().contains(x) implies all.contains(x) by {
            let k = choose|k: int| 0 <= k < firsts.len() && firsts[k] == x;
            assert(idx[k].0 < n);
        }
    }
    vstd::set_lib::lemma_len_subset(firsts.to_set(), all);
}

proof fn single_is_read(d: Sketch, list: Seq<usize>, x: usize)
    requires
        chosen_well(d),
        list.contains(x),
        forall|k: int| 0 <= k < list.len() ==> d.chosen.contains(#[trigger] list[k]),
    ensures
        x < d.reads.len(),
        d.reads[x as int] is Some,
{
    let k = choose|k: int| 0 <= k < list.len() && list[k] == x;
    assert(d.chosen.contains(list[k]));
    let y = choose|y: int| 0 <= y < d.chosen.len() && d.chosen[y] == x;
    assert(d.chosen[y] < d.reads.len());
}

proof fn single_not_paired(caps: Seq<CapView>, d: Sketch, list: Seq<usize>, x: usize)
    requires
        list.contains(x),
        forall|k: int| 0 <= k < list.len() ==> !is_paired(d, (#[trigger] list[k]) as int),
    ensures
        !is_paired(d, x as int),
{
    let k = choose|k: int| 0 <= k < list.len() && list[k] == x;
    assert(!is_paired(d, list[k] as int));
}

/// Whether two channels share neither pin nor ADC input.
pub open spec fn channels_differ(
    a: ChannelPlan,
    b: ChannelPlan,
) -> bool {
    a.pin != b.pin && !same_slot(slot_of(a.read), slot_of(b.read))
}

/// Whether a channel's amplifier is the one that it is read through, if any, on one of the
/// inputs that the amplifier's output is wired to.
pub open spec fn amp_is_read(out: OutView, c: ChannelPlan) -> bool {
    &&& c.opamp is Some <==> c.read is ViaOpamp
    &&& c.read matches AdcRead::ViaOpamp { opamp, adc, ch } ==> c.opamp == Some(opamp)
        && out_slots(out, opamp@, 0) is Some && out_slots(out, opamp@, 0)->0.contains((adc, ch))
}

/// What holds of one pair of a plan: its two ends share neither pin nor input,
/// unless the pair is a single channel; a channel has an amplifier exactly when it is
/// read through one, on an input that its output is wired to; a full-gain pair is one
/// whose ends are read through two different amplifiers; a zero-cross pair is an option,
/// read directly, with no trigger of its own.
pub open spec fn pair_well(out: OutView, opts: Seq<ZeroCrossOption>, p: PairPlan) -> bool {
    &&& p.pos == p.neg || channels_differ(p.pos, p.neg)
    &&& amp_is_read(out, p.pos)
    &&& amp_is_read(out, p.neg)
    &&& p.full_pga <==> p.pos.read is ViaOpamp && p.neg.read is ViaOpamp && p.pos.opamp->0@
        != p.neg.opamp->0@
    &&& p.cross_adc ==> slot_of(p.pos.read).0@ != slot_of(p.neg.read).0@
    &&& p.zero_cross matches Some(c) ==> {
        &&& exists|o: ZeroCrossOption| #[trigger]
            opts.contains(o) && o.comp == c && o.plus == p.pos.pin && o.minus == p.neg.pin
        &&& p.pos.read is Direct
        &&& p.neg.read is Direct
        &&& p.pos.comp is None
        &&& p.neg.comp is None
        &&& p.pos.opamp is None
        &&& p.neg.opamp is None
    }
}

/// Every pair of a plan is well, and no two pairs share a pin or an ADC input.
pub proof fn plan_is_sound(
    caps: Seq<CapView>,
    out: OutView,
    opts: Seq<ZeroCrossOption>,
    channels: int,
    target: int,
)
    requires
        caps.len() <= usize::MAX,
        opts.len() <= usize::MAX,
        0 <= channels <= usize::MAX,
        0 <= target,
        part_names(caps, true, caps.len() as int).len() <= usize::MAX,
        part_names(caps, false, caps.len() as int).len() <= usize::MAX,
        forall|i: int, j: int|
            #![trigger caps[i], caps[j]]
            0 <= i < j < caps.len() ==> caps[i].pin != caps[j].pin,
    ensures
        ({
            let pairs = pair_plans(caps, solve(caps, out, opts, channels, target));
            &&& forall|k: int| 0 <= k < pairs.len() ==> pair_well(out, opts, #[trigger] pairs[k])
            &&& forall|k: int, l: int|
                #![trigger pairs[k], pairs[l]]
                0 <= k < l < pairs.len() ==> channels_differ(pairs[k].pos, pairs[l].pos)
                    && channels_differ(pairs[k].pos, pairs[l].neg) && channels_differ(
                    pairs[k].neg,
                    pairs[l].pos,
                ) && channels_differ(pairs[k].neg, pairs[l].neg)
        }),
{
    let s = solve(caps, out, opts, channels, target);
    solve_is_sound(caps, out, opts, channels, target);
    pairs_are_apart(caps, out, opts, channels, s);
    let idx = pair_indices(caps, s.d);
    let pairs = pair_plans(caps, s);
    assert forall|k: int| 0 <= k < pairs.len() implies pair_well(out, opts, #[trigger] pairs[k]) by {
        let p = pairs[k];
        let a = idx[k].0 as int;
        let b = idx[k].1 as int;
        assert(both_read(s.d.reads, idx[k]));
        if a != b {
            ends_differ(caps, out, s, a, b);
        }
        assert(legitimate(caps, out, a, s.d.reads[a]->0));
        assert(legitimate(caps, out, b, s.d.reads[b]->0));
        if k < s.d.crossed.len() {
            let x = s.d.crossed[k];
            assert(idx[k] == (x.0, x.1));
            assert(crossed_well(caps, opts, s, k));
            assert(from_option(caps, opts, x));
        }
    }
    assert forall|k: int, l: int|
        #![trigger pairs[k], pairs[l]]
        0 <= k < l < pairs.len() implies channels_differ(pairs[k].pos, pairs[l].pos)
        && channels_differ(pairs[k].pos, pairs[l].neg) && channels_differ(
        pairs[k].neg,
        pairs[l].pos,
    ) && channels_differ(pairs[k].neg, pairs[l].neg) by {
        assert(apart(idx[k], idx[l]));
        assert(both_read(s.d.reads, idx[k]));
        assert(both_read(s.d.reads, idx[l]));
        ends_differ(caps, out, s, idx[k].0 as int, idx[l].0 as int);
        ends_differ(caps, out, s, idx[k].0 as int, idx[l].1 as int);
        ends_differ(caps, out, s, idx[k].1 as int, idx[l].0 as int);
        ends_differ(caps, out, s, idx[k].1 as int, idx[l].1 as int);
    }
}

/// The pins of the first `k` pairs that are marked.
pub open spec fn marked(idx: Seq<(usize, usize)>, mark: Seq<bool>, k: int) -> Set<usize>
    decreases k,
{
    if k <= 0 {
        Set::empty()
    } else {
        let (a, b) = idx[k - 1];
        let one = if mark[a as int] {
            marked(idx, mark, k - 1).insert(a)
        } else {
            marked(idx, mark, k - 1)
        };
        if mark[b as int] {
            one.insert(b)
        } else {
            one
        }
    }
}

/// What `marked` holds.
pub proof fn marked_facts(idx: Seq<(usize, usize)>, mark: Seq<bool>, k: int)
    requires
        0 <= k <= idx.len(),
        forall|i: int, j: int|
            #![trigger idx[i], idx[j]]
            0 <= i < j < idx.len() ==> apart(idx[i], idx[j]),
    ensures
        marked(idx, mark, k).finite(),
        forall|x: usize| #[trigger]
            marked(idx, mark, k).contains(x) ==> mark[x as int] && exists|j: int|
                0 <= j < k && ((#[trigger] idx[j]).0 == x || idx[j].1 == x),
        k > 0 ==> marked(idx, mark, k).len() == marked(idx, mark, k - 1).len() + flags(
            mark[idx[k - 1].0 as int],
            idx[k - 1].0 != idx[k - 1].1 && mark[idx[k - 1].1 as int],
        ),
    decreases k,
{
    if k > 0 {
        marked_facts(idx, mark, k - 1);
        let (a, b) = idx[k - 1];
        let m = marked(idx, mark, k - 1);
        assert(!m.contains(a) && !m.contains(b)) by {
            if m.contains(a) {
                let j = choose|j: int| 0 <= j < k - 1 && ((#[trigger] idx[j]).0 == a || idx[j].1 == a);
                assert(apart(idx[j], idx[k - 1]));
            }
            if m.contains(b) {
                let j = choose|j: int| 0 <= j < k - 1 && ((#[trigger] idx[j]).0 == b || idx[j].1 == b);
                assert(apart(idx[j], idx[k - 1]));
            }
        }
        assert forall|x: usize| #[trigger] marked(idx, mark, k).contains(x) implies mark[x as int]
            && exists|j: int| 0 <= j < k && ((#[trigger] idx[j]).0 == x || idx[j].1 == x) by {
            if m.contains(x) {
                let j = choose|j: int| 0 <= j < k - 1 && ((#[trigger] idx[j]).0 == x || idx[j].1 == x);
                assert(idx[j].0 == x || idx[j].1 == x);
            } else {
                assert(idx[k - 1].0 == x || idx[k - 1].1 == x);
            }
        }
    }
}

proof fn at_most_list(m: Set<usize>, list: Seq<usize>)
    requires
        m.finite(),
        forall|x: usize| #[trigger] m.contains(x) ==> list.contains(x),
    ensures
        m.len() <= list.len(),
{
    list.lemma_cardinality_of_set();
    assert(m.subset_of(list.to_set()));
    vstd::set_lib::lemma_len_subset(m, list.to_set());
}

/// Channels with an amplifier among the first `n` pairs. A channel without a partner is one.
pub open spec fn gained_count(pairs: Seq<PairPlan>, n: int) -> int
    decreases n,
{
    if n <= 0 {
        0
    } else {
        let p = pairs[n - 1];
        gained_count(pairs, n - 1) + flags(p.pos.opamp is Some, !is_lone(p) && p.neg.opamp is Some)
    }
}

/// The channels of a plan that are triggers are no more than its ceiling says, and those
/// with an amplifier no more than there are amplifiers and channels.
pub proof fn counts_are_bounded(
    caps: Seq<CapView>,
    out: OutView,
    opts: Seq<ZeroCrossOption>,
    channels: int,
    s: Solved,
)
    requires
        solved_well(caps, out, opts, channels, s),
        caps.len() <= usize::MAX,
        channels <= usize::MAX,
        part_names(caps, true, caps.len() as int).len() <= usize::MAX,
        part_names(caps, false, caps.len() as int).len() <= usize::MAX,
    ensures
        ({
            let p = pair_plans(caps, s);
            let c = ceiling_of(caps, opts, channels);
            &&& trigger_count(p, p.len() as int) <= c.max_triggers
            &&& gained_count(p, p.len() as int) <= c.opamps
            &&& gained_count(p, p.len() as int) <= channels
        }),
{
    let n = caps.len() as int;
    let p = pair_plans(caps, s);
    let idx = pair_indices(caps, s.d);
    pairs_are_apart(caps, out, opts, channels, s);
    let watched = Seq::new(n as nat, |i: int| s.comps[i] is Some);
    let gained = Seq::new(n as nat, |i: int| amp_of(s.d.reads[i]->0) is Some);
    counts_are_marked(caps, s, watched, gained, p.len() as int);
    marked_facts(idx, watched, idx.len() as int);
    marked_facts(idx, gained, idx.len() as int);
    let w = marked(idx, watched, idx.len() as int);
    let g = marked(idx, gained, idx.len() as int);
    somes_facts(s.comps, n);
    somes_facts(s.amps, n);
    assert forall|x: usize| #[trigger] w.contains(x) implies s.d.chosen.contains(x) && somes(
        s.comps,
        n,
    ).contains(x) by {
        let j = choose|j: int| 0 <= j < idx.len() && ((#[trigger] idx[j]).0 == x || idx[j].1 == x);
        assert(both_read(s.d.reads, idx[j]));
        assert(s.d.reads[x as int] is Some);
        assert(s.comps[x as int] is Some);
    }
    assert forall|x: usize| #[trigger] g.contains(x) implies s.d.chosen.contains(x) && somes(
        s.amps,
        n,
    ).contains(x) by {
        let j = choose|j: int| 0 <= j < idx.len() && ((#[trigger] idx[j]).0 == x || idx[j].1 == x);
        assert(both_read(s.d.reads, idx[j]));
        assert(s.d.reads[x as int] is Some);
        assert(tells_amp(s.amps, s.d.reads, x as int));
        assert(s.amps[x as int] is Some);
    }
    at_most_list(w, s.d.chosen);
    at_most_list(w, somes(s.comps, n));
    at_most_list(g, s.d.chosen);
    at_most_list(g, somes(s.amps, n));
}

proof fn counts_are_marked(
    caps: Seq<CapView>,
    s: Solved,
    watched: Seq<bool>,
    gained: Seq<bool>,
    k: int,
)
    requires
        watched == Seq::new(caps.len(), |i: int| s.comps[i] is Some),
        gained == Seq::new(caps.len(), |i: int| amp_of(s.d.reads[i]->0) is Some),
        s.d.reads.len() == caps.len(),
        no_slot_twice(s.d.reads),
        0 <= k <= pair_indices(caps, s.d).len(),
        ({
            let idx = pair_indices(caps, s.d);
            &&& forall|k: int| 0 <= k < idx.len() ==> both_read(s.d.reads, #[trigger] idx[k])
            &&& forall|k: int, l: int|
                #![trigger idx[k], idx[l]]
                0 <= k < l < idx.len() ==> apart(idx[k], idx[l])
        }),
    ensures
        trigger_count(pair_plans(caps, s), k) <= marked(pair_indices(caps, s.d), watched, k).len(),
        gained_count(pair_plans(caps, s), k) <= marked(pair_indices(caps, s.d), gained, k).len(),
    decreases k,
{
    if k > 0 {
        counts_are_marked(caps, s, watched, gained, k - 1);
        let idx = pair_indices(caps, s.d);
        marked_facts(idx, watched, k);
        marked_facts(idx, gained, k);
        assert(both_read(s.d.reads, idx[k - 1]));
        let (a, b) = (idx[k - 1].0 as int, idx[k - 1].1 as int);
        assert(is_lone(pair_plans(caps, s)[k - 1]) <==> a == b) by {
            if a < b {
                assert(!same_slot(slot_of(s.d.reads[a]->0), slot_of(s.d.reads[b]->0)));
            } else if b < a {
                assert(!same_slot(slot_of(s.d.reads[b]->0), slot_of(s.d.reads[a]->0)));
            }
        }
    }
}

proof fn ends_differ(caps: Seq<CapView>, out: OutView, s: Solved, a: int, b: int)
    requires
        reads_well(caps, out, s.d.used, s.d.reads),
        0 <= a < caps.len(),
        0 <= b < caps.len(),
        a != b,
        s.d.reads[a] is Some,
        s.d.reads[b] is Some,
        forall|i: int, j: int|
            #![trigger caps[i], caps[j]]
            0 <= i < j < caps.len() ==> caps[i].pin != caps[j].pin,
    ensures
        channels_differ(
            crate::frontend_solver::channel(caps, s, a),
            crate::frontend_solver::channel(caps, s, b),
        ),
{
    if a < b {
        assert(caps[a].pin != caps[b].pin);
        assert(!same_slot(slot_of(s.d.reads[a]->0), slot_of(s.d.reads[b]->0)));
    } else {
        assert(caps[b].pin != caps[a].pin);
        assert(!same_slot(slot_of(s.d.reads[b]->0), slot_of(s.d.reads[a]->0)));
    }
}

proof fn bonded_are_fewer(rows: Seq<AfRow>, bonded: Option<Set<PinId>>, n: int)
    requires
        0 <= n,
    ensures
        bonded_rows(rows, bonded, n).len() <= n,
    decreases n,
{
    if n > 0 {
        bonded_are_fewer(rows, bonded, n - 1);
    }
}

proof fn analog_are_few(rows: Seq<AfRow>, n: int)
    requires
        0 <= n,
    ensures
        analog_pins(rows, n).finite(),
        analog_pins(rows, n).len() <= n,
    decreases n,
{
    if n > 0 {
        analog_are_few(rows, n - 1);
    }
}

proof fn caps_upto_facts(rows: Seq<AfRow>, out: OutView, pins: Seq<PinId>, n: int)
    requires
        0 <= n <= pins.len(),
        pins_ascend(pins),
    ensures
        ({
            let v = caps_upto(rows, out, pins, n);
            &&& v.len() <= n
            &&& forall|i: int|
                0 <= i < v.len() ==> exists|k: int|
                    0 <= k < n && (#[trigger] v[i]).pin == #[trigger] pins[k]
            &&& forall|i: int, j: int|
                #![trigger v[i], v[j]]
                0 <= i < j < v.len() ==> v[i].pin != v[j].pin
        }),
    decreases n,
{
    if n > 0 {
        caps_upto_facts(rows, out, pins, n - 1);
        let u = caps_upto(rows, out, pins, n - 1);
        let v = caps_upto(rows, out, pins, n);
        assert forall|i: int| 0 <= i < v.len() implies exists|k: int|
            0 <= k < n && (#[trigger] v[i]).pin == #[trigger] pins[k] by {
            if i < u.len() {
                assert(v[i] == u[i]);
                let k = choose|k: int| 0 <= k < n - 1 && u[i].pin == #[trigger] pins[k];
                assert(v[i].pin == pins[k]);
            } else {
                assert(v[i].pin == pins[n - 1]);
            }
        }
        assert forall|i: int, j: int|
            #![trigger v[i], v[j]]
            0 <= i < j < v.len() implies v[i].pin != v[j].pin by {
            assert(v[i] == u[i]);
            if j < u.len() {
                assert(v[j] == u[j]);
            } else {
                let k = choose|k: int| 0 <= k < n - 1 && u[i].pin == #[trigger] pins[k];
                assert(v[j].pin == pins[n - 1]);
                assert(crate::mcu_pinout::pin_before(pins[k], pins[n - 1]));
            }
        }
    }
}

/// A chip's capabilities are no more than its signal rows, and no pin is listed
/// twice.
pub proof fn caps_are_few(v: Seq<CapView>, raw: RawMcuData, bonded: Option<Set<PinId>>)
    requires
        are_caps_of(v, raw, bonded),
    ensures
        v.len() <= rows_of(raw).len(),
        forall|i: int, j: int|
            #![trigger v[i], v[j]]
            0 <= i < j < v.len() ==> v[i].pin != v[j].pin,
{
    let all = rows_of(raw);
    let rows = bonded_rows(all, bonded, all.len() as int);
    let out = out_adc_of(raw);
    let pins = choose|pins: Seq<PinId>|
        pins_ascend(pins) && pins.to_set() == analog_pins(rows, rows.len() as int)
            && v == #[trigger] caps_upto(rows, out, pins, pins.len() as int);
    bonded_are_fewer(all, bonded, all.len() as int);
    analog_are_few(rows, rows.len() as int);
    caps_upto_facts(rows, out, pins, pins.len() as int);
    assert(pins.no_duplicates()) by {
        assert forall|i: int, j: int|
            0 <= i < pins.len() && 0 <= j < pins.len() && i != j implies pins[i] != pins[j] by {
            if i < j {
                assert(crate::mcu_pinout::pin_before(pins[i], pins[j]));
            } else {
                assert(crate::mcu_pinout::pin_before(pins[j], pins[i]));
            }
        }
    }
    pins.unique_seq_to_set();
}

/// Whether two options share no pin.
pub open spec fn pins_apart(a: ZeroCrossOption, b: ZeroCrossOption) -> bool {
    a.plus != b.plus && a.plus != b.minus && a.minus != b.plus && a.minus != b.minus
}

/// A choice of one option or none for each comparator from position `i` on, that
/// uses no pin of `pins` and no pin for two comparators.
pub open spec fn is_choice(
    opts: Seq<ZeroCrossOption>,
    comps: Seq<&'static str>,
    c: Seq<Option<int>>,
    i: int,
    pins: Set<PinId>,
) -> bool {
    &&& c.len() == comps.len()
    &&& forall|j: int|
        i <= j < c.len() ==> (#[trigger] c[j] matches Some(k) ==> 0 <= k < opts.len()
            && opts[k].comp@ == comps[j]@ && !pins.contains(opts[k].plus) && !pins.contains(
            opts[k].minus,
        ))
    &&& forall|j: int, l: int|
        #![trigger c[j], c[l]]
        i <= j < l < c.len() && c[j] is Some && c[l] is Some ==> pins_apart(
            opts[c[j]->0],
            opts[c[l]->0],
        )
}

/// How many comparators from position `i` on got an option.
pub open spec fn count_choice(c: Seq<Option<int>>, i: int) -> int
    decreases c.len() - i,
{
    if i < 0 || i >= c.len() {
        0
    } else {
        (if c[i] is Some {
            1int
        } else {
            0
        }) + count_choice(c, i + 1)
    }
}

proof fn option_at_least(
    opts: Seq<ZeroCrossOption>,
    comps: Seq<&'static str>,
    i: int,
    k: int,
    x: int,
    pins: Set<PinId>,
    taken: int,
    cap: int,
    best: int,
)
    requires
        0 <= i < comps.len(),
        0 <= k <= x <= opts.len(),
    ensures
        best_option(opts, comps, i, k, pins, taken, cap, best) >= best,
        x < opts.len() && opts[x].comp@ == comps[i]@ && !pins.contains(opts[x].plus)
            && !pins.contains(opts[x].minus) ==> best_option(
            opts,
            comps,
            i,
            k,
            pins,
            taken,
            cap,
            best,
        ) >= best_cross(
            opts,
            comps,
            i + 1,
            pins.insert(opts[x].plus).insert(opts[x].minus),
            taken + 1,
            cap,
        ),
    decreases opts.len() - k,
{
    if k < opts.len() {
        let sub = best_cross(
            opts,
            comps,
            i + 1,
            pins.insert(opts[k].plus).insert(opts[k].minus),
            taken + 1,
            cap,
        );
        let fits = opts[k].comp@ == comps[i]@ && !pins.contains(opts[k].plus) && !pins.contains(
            opts[k].minus,
        );
        let next = if fits && sub > best {
            sub
        } else {
            best
        };
        let y = if x > k {
            x
        } else {
            k + 1
        };
        option_at_least(opts, comps, i, k + 1, y, pins, taken, cap, next);
    }
}

proof fn cross_at_least(
    opts: Seq<ZeroCrossOption>,
    comps: Seq<&'static str>,
    i: int,
    pins: Set<PinId>,
    taken: int,
    cap: int,
    c: Seq<Option<int>>,
)
    requires
        0 <= i <= comps.len(),
        is_choice(opts, comps, c, i, pins),
        0 <= taken,
    ensures
        best_cross(opts, comps, i, pins, taken, cap) >= cap || best_cross(
            opts,
            comps,
            i,
            pins,
            taken,
            cap,
        ) >= taken + count_choice(c, i),
    decreases comps.len() - i,
{
    if taken < cap && i < comps.len() {
        let skip = best_cross(opts, comps, i + 1, pins, taken, cap);
        match c[i] {
            None => {
                cross_at_least(opts, comps, i + 1, pins, taken, cap, c);
                option_at_least(opts, comps, i, 0, opts.len() as int, pins, taken, cap, skip);
            },
            Some(k) => {
                let more = pins.insert(opts[k].plus).insert(opts[k].minus);
                assert forall|j: int| i + 1 <= j < c.len() implies (#[trigger] c[j] matches Some(x)
                    ==> !more.contains(opts[x].plus) && !more.contains(opts[x].minus)) by {
                    if c[j] is Some {
                        assert(pins_apart(opts[c[i]->0], opts[c[j]->0]));
                    }
                }
                cross_at_least(opts, comps, i + 1, more, taken + 1, cap, c);
                option_at_least(opts, comps, i, 0, k, pins, taken, cap, skip);
            },
        }
    }
}

/// The reported maximum is one: no choice of options with different comparators and
/// pins is larger, unless it is larger than the cap.
pub proof fn most_crossed_is_bound(opts: Seq<ZeroCrossOption>, cap: int, c: Seq<Option<int>>)
    requires
        is_choice(opts, option_comps(opts, opts.len() as int), c, 0, Set::empty()),
    ensures
        most_crossed(opts, cap) >= cap || most_crossed(opts, cap) >= count_choice(c, 0),
{
    let comps = option_comps(opts, opts.len() as int);
    cross_at_least(opts, comps, 0, Set::empty(), 0, cap, c);
}

proof fn none_counts_zero(c: Seq<Option<int>>, i: int)
    requires
        forall|j: int| i <= j < c.len() ==> (#[trigger] c[j]) is None,
        0 <= i,
    ensures
        count_choice(c, i) == 0,
    decreases c.len() - i,
{
    if i < c.len() {
        none_counts_zero(c, i + 1);
    }
}

proof fn count_ignores_front(a: Seq<Option<int>>, b: Seq<Option<int>>, i: int)
    requires
        a.len() == b.len(),
        0 <= i,
        forall|j: int| i <= j < a.len() ==> #[trigger] a[j] == b[j],
    ensures
        count_choice(a, i) == count_choice(b, i),
    decreases a.len() - i,
{
    if i < a.len() {
        count_ignores_front(a, b, i + 1);
    }
}

proof fn cross_is_reached(
    opts: Seq<ZeroCrossOption>,
    comps: Seq<&'static str>,
    i: int,
    pins: Set<PinId>,
    taken: int,
    cap: int,
) -> (c: Seq<Option<int>>)
    requires
        0 <= i <= comps.len(),
        0 <= taken <= cap,
    ensures
        is_choice(opts, comps, c, i, pins),
        best_cross(opts, comps, i, pins, taken, cap) == taken + count_choice(c, i),
    decreases comps.len() - i, opts.len() + 1,
{
    if taken >= cap || i >= comps.len() {
        let c = Seq::new(comps.len(), |j: int| None::<int>);
        none_counts_zero(c, i);
        c
    } else {
        let skip = best_cross(opts, comps, i + 1, pins, taken, cap);
        let s = cross_is_reached(opts, comps, i + 1, pins, taken, cap);
        let c = s.update(i, None);
        count_ignores_front(c, s, i + 1);
        assert forall|j: int| i <= j < c.len() implies (#[trigger] c[j] matches Some(k) ==> 0 <= k
            < opts.len() && opts[k].comp@ == comps[j]@ && !pins.contains(opts[k].plus)
            && !pins.contains(opts[k].minus)) by {
            if j > i {
                assert(c[j] == s[j]);
            }
        }
        assert forall|j: int, l: int|
            #![trigger c[j], c[l]]
            i <= j < l < c.len() && c[j] is Some && c[l] is Some implies pins_apart(
            opts[c[j]->0],
            opts[c[l]->0],
        ) by {
            assert(c[j] == s[j] && c[l] == s[l]);
        }
        option_is_reached(opts, comps, i, 0, pins, taken, cap, skip, c)
    }
}

proof fn option_is_reached(
    opts: Seq<ZeroCrossOption>,
    comps: Seq<&'static str>,
    i: int,
    k: int,
    pins: Set<PinId>,
    taken: int,
    cap: int,
    best: int,
    b: Seq<Option<int>>,
) -> (c: Seq<Option<int>>)
    requires
        0 <= i < comps.len(),
        0 <= k <= opts.len(),
        0 <= taken < cap,
        is_choice(opts, comps, b, i, pins),
        best == taken + count_choice(b, i),
    ensures
        is_choice(opts, comps, c, i, pins),
        best_option(opts, comps, i, k, pins, taken, cap, best) == taken + count_choice(c, i),
    decreases comps.len() - i, opts.len() - k,
{
    if k >= opts.len() {
        b
    } else {
        let fits = opts[k].comp@ == comps[i]@ && !pins.contains(opts[k].plus) && !pins.contains(
            opts[k].minus,
        );
        let more = pins.insert(opts[k].plus).insert(opts[k].minus);
        let sub = best_cross(opts, comps, i + 1, more, taken + 1, cap);
        if fits && sub > best {
            let s = cross_is_reached(opts, comps, i + 1, more, taken + 1, cap);
            let t = s.update(i, Some(k));
            count_ignores_front(t, s, i + 1);
            assert forall|j: int| i <= j < t.len() implies (#[trigger] t[j] matches Some(x) ==> 0
                <= x < opts.len() && opts[x].comp@ == comps[j]@ && !pins.contains(opts[x].plus)
                && !pins.contains(opts[x].minus)) by {
                if j > i {
                    assert(t[j] == s[j]);
                }
            }
            assert forall|j: int, l: int|
                #![trigger t[j], t[l]]
                i <= j < l < t.len() && t[j] is Some && t[l] is Some implies pins_apart(
                opts[t[j]->0],
                opts[t[l]->0],
            ) by {
                assert(t[l] == s[l]);
                if j > i {
                    assert(t[j] == s[j]);
                } else {
                    assert(!more.contains(opts[s[l]->0].plus));
                    assert(!more.contains(opts[s[l]->0].minus));
                }
            }
            option_is_reached(opts, comps, i, k + 1, pins, taken, cap, sub, t)
        } else {
            option_is_reached(opts, comps, i, k + 1, pins, taken, cap, best, b)
        }
    }
}

/// The reported maximum is reached by a choice of options with different comparators
/// and pins.
pub proof fn most_crossed_is_reached(opts: Seq<ZeroCrossOption>, cap: int) -> (c: Seq<Option<int>>)
    requires
        0 <= cap,
    ensures
        is_choice(opts, option_comps(opts, opts.len() as int), c, 0, Set::empty()),
        most_crossed(opts, cap) == count_choice(c, 0),
{
    let comps = option_comps(opts, opts.len() as int);
    cross_is_reached(opts, comps, 0, Set::empty(), 0, cap)
}

} // verus!
