//! What holds of a plan's ceiling: it counts the parts that the pins name, and bounds the
//! triggers.

use vstd::prelude::*;

use crate::frontend_laws::counts_are_bounded;
use crate::frontend_laws::solve_is_sound;
use crate::frontend_order_laws::sorted_holds_all;
use crate::frontend_plan::trigger_count;
use crate::frontend_plan::CapView;
use crate::frontend_plan::FrontEndPlan;
use crate::frontend_plan::PlanConfig;
use crate::frontend_plan::ZeroCrossOption;
use crate::frontend_solver::in_pin_order;
use crate::frontend_solver::is_plan;
use crate::frontend_solver::part_names;
use crate::frontend_solver::part_names_ascend;
use crate::frontend_solver::parts_of;
use crate::frontend_solver::solve;
use crate::frontend_solver::OutView;
use crate::mcu_pinout::pin_rank;
use crate::names::has_name;
use crate::order;
use crate::ranked;
use crate::ranked::ascends;
use crate::ranked::ascends_is_distinct;
use crate::ranked::rank_in;
use crate::ranked::with;
use crate::ranked::with_all;
use crate::ranked::Ranked;

verus! {

/// The amplifiers, or comparators, that the pins name.
pub open spec fn named_parts(caps: Seq<CapView>, amp: bool) -> Set<Seq<char>> {
    Set::new(
        |s: Seq<char>|
            exists|i: int| 0 <= i < caps.len() && has_name(parts_of(#[trigger] caps[i], amp), s),
    )
}

proof fn with_adds_one(v: Seq<&'static str>, x: &'static str, s: Seq<char>)
    requires
        ascends(v),
    ensures
        has_name(with(v, x), s) <==> has_name(v, s) || x@ == s,
{
    ranked::rank_in_bounds(v, x);
    let p = rank_in(v, x);
    let w = with(v, x);
    if p < v.len() && v[p].alike(&x) {
        assert(v[p]@ == x@);
    } else {
        assert(w == v.insert(p, x));
        assert(w[p] == x);
        if has_name(v, s) {
            let i = choose|i: int| 0 <= i < v.len() && (#[trigger] v[i])@ == s;
            if i < p {
                assert(w[i]@ == s);
            } else {
                assert(w[i + 1]@ == s);
            }
        }
        if has_name(w, s) {
            let i = choose|i: int| 0 <= i < w.len() && (#[trigger] w[i])@ == s;
            if i < p {
                assert(v[i]@ == s);
            } else if i > p {
                assert(v[i - 1]@ == s);
            }
        }
    }
}

proof fn with_all_adds_all(v: Seq<&'static str>, list: Seq<&'static str>, k: int, s: Seq<char>)
    requires
        ascends(v),
        0 <= k <= list.len(),
    ensures
        has_name(with_all(v, list, k), s) <==> has_name(v, s) || exists|i: int|
            0 <= i < k && (#[trigger] list[i])@ == s,
    decreases k,
{
    if k > 0 {
        with_all_adds_all(v, list, k - 1, s);
        ranked::with_all_ascends(v, list, k - 1);
        with_adds_one(with_all(v, list, k - 1), list[k - 1], s);
        if has_name(with_all(v, list, k), s) && !has_name(v, s) {
            if list[k - 1]@ != s {
                let i = choose|i: int| 0 <= i < k - 1 && (#[trigger] list[i])@ == s;
                assert(list[i]@ == s);
            }
        }
    }
}

proof fn part_names_are_named(caps: Seq<CapView>, amp: bool, n: int, s: Seq<char>)
    requires
        0 <= n <= caps.len(),
    ensures
        has_name(part_names(caps, amp, n), s) <==> exists|i: int|
            0 <= i < n && has_name(parts_of(#[trigger] caps[i], amp), s),
    decreases n,
{
    if n > 0 {
        part_names_are_named(caps, amp, n - 1, s);
        part_names_ascend(caps, amp, n - 1);
        let list = parts_of(caps[n - 1], amp);
        let had = part_names(caps, amp, n - 1);
        with_all_adds_all(had, list, list.len() as int, s);
        if has_name(had, s) {
            let i = choose|i: int|
                0 <= i < n - 1 && has_name(parts_of(#[trigger] caps[i], amp), s);
            assert(has_name(parts_of(caps[i], amp), s));
        }
        if exists|i: int| 0 <= i < n && has_name(parts_of(#[trigger] caps[i], amp), s) {
            let i = choose|i: int| 0 <= i < n && has_name(parts_of(#[trigger] caps[i], amp), s);
            if i == n - 1 {
                assert(has_name(list, s));
            }
        }
    }
}

/// The planner's list of parts has one entry for each part that is named.
proof fn part_names_count(caps: Seq<CapView>, amp: bool)
    ensures
        part_names(caps, amp, caps.len() as int).len() == named_parts(caps, amp).len(),
        named_parts(caps, amp).finite(),
{
    let n = caps.len() as int;
    let v = part_names(caps, amp, n);
    let t = v.map_values(|s: &'static str| s@);
    part_names_ascend(caps, amp, n);
    assert(t.no_duplicates()) by {
        assert forall|i: int, j: int|
            0 <= i < t.len() && 0 <= j < t.len() && i != j implies t[i] != t[j] by {
            if t[i] == t[j] {
                if i < j {
                    assert(v[i].alike(&v[j]));
                    ascends_is_distinct(v, i, j);
                } else {
                    assert(v[j].alike(&v[i]));
                    ascends_is_distinct(v, j, i);
                }
            }
        }
    }
    t.unique_seq_to_set();
    assert(t.to_set() =~= named_parts(caps, amp)) by {
        assert forall|s: Seq<char>| t.to_set().contains(s) <==> named_parts(caps, amp).contains(
            s,
        ) by {
            part_names_are_named(caps, amp, n, s);
            if t.contains(s) {
                let k = choose|k: int| 0 <= k < t.len() && t[k] == s;
                assert(v[k]@ == s);
            }
            if has_name(v, s) {
                let k = choose|k: int| 0 <= k < v.len() && (#[trigger] v[k])@ == s;
                assert(t[k] == s);
            }
        }
    }
}

/// A plan's ceiling counts the amplifiers and the comparators that its pins name. Its triggers
/// are bounded by the smaller of the comparators and the channels, and the plan keeps to it.
pub proof fn triggers_stay_below_ceiling(
    r: FrontEndPlan,
    caps: Seq<CapView>,
    out: OutView,
    opts: Seq<ZeroCrossOption>,
    channels: int,
    cfg: PlanConfig,
)
    requires
        is_plan(r, caps, out, opts, channels, cfg),
        caps.len() <= usize::MAX,
        opts.len() <= usize::MAX,
        0 <= channels <= usize::MAX,
        named_parts(caps, true).len() <= usize::MAX,
        named_parts(caps, false).len() <= usize::MAX,
    ensures
        r.ceiling.opamps == named_parts(caps, true).len(),
        r.ceiling.comps == named_parts(caps, false).len(),
        r.ceiling.max_triggers == (if named_parts(caps, false).len() < channels {
            named_parts(caps, false).len() as int
        } else {
            channels
        }),
        trigger_count(r.pairs@, r.pairs@.len() as int) <= r.ceiling.max_triggers,
{
    let sorted = in_pin_order(caps);
    let s = solve(sorted, out, opts, channels, cfg.zero_cross_target as int);
    let keys = caps.map_values(|c: CapView| pin_rank(c.pin) as u64);
    order::order_upto_len(keys, caps.len() as int);
    sorted_holds_all(caps, keys);
    sorted_names_the_same(caps, sorted, true);
    sorted_names_the_same(caps, sorted, false);
    part_names_count(sorted, true);
    part_names_count(sorted, false);
    solve_is_sound(sorted, out, opts, channels, cfg.zero_cross_target as int);
    counts_are_bounded(sorted, out, opts, channels, s);
}

proof fn sorted_names_the_same(caps: Seq<CapView>, sorted: Seq<CapView>, amp: bool)
    requires
        forall|c: CapView| #[trigger] sorted.contains(c) <==> caps.contains(c),
    ensures
        named_parts(sorted, amp) == named_parts(caps, amp),
{
    assert forall|s: Seq<char>| named_parts(sorted, amp).contains(s) <==> named_parts(
        caps,
        amp,
    ).contains(s) by {
        if named_parts(sorted, amp).contains(s) {
            let i = choose|i: int|
                0 <= i < sorted.len() && has_name(parts_of(#[trigger] sorted[i], amp), s);
            assert(sorted.contains(sorted[i]));
            assert(caps.contains(sorted[i]));
            let k = choose|k: int| 0 <= k < caps.len() && caps[k] == sorted[i];
            assert(has_name(parts_of(caps[k], amp), s));
        }
        if named_parts(caps, amp).contains(s) {
            let i = choose|i: int|
                0 <= i < caps.len() && has_name(parts_of(#[trigger] caps[i], amp), s);
            assert(caps.contains(caps[i]));
            assert(sorted.contains(caps[i]));
            let k = choose|k: int| 0 <= k < sorted.len() && sorted[k] == caps[i];
            assert(has_name(parts_of(sorted[k], amp), s));
        }
    }
    assert(named_parts(sorted, amp) =~= named_parts(caps, amp));
}

} // verus!
