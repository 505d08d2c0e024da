//! What a generated board promises: nothing is moved twice, nothing kept is lost, and
//! names do not depend on pins.

use vstd::prelude::*;

use crate::codegen::bundles_of;
use crate::codegen::comes_first;
use crate::codegen::drives_dead_time;
use crate::codegen::drives_pwm;
use crate::codegen::entries_upto;
use crate::codegen::fabric_instances;
use crate::codegen::fabric_upto;
use crate::codegen::first_at;
use crate::codegen::holes_of;
use crate::codegen::holes_upto;
use crate::codegen::instances_upto;
use crate::codegen::is_bound;
use crate::codegen::keeps;
use crate::codegen::leader;
use crate::codegen::placed_bundle;
use crate::codegen::placed_instances;
use crate::codegen::same_pin;
use crate::codegen::singleton_of;
use crate::codegen::with_node;
use crate::codegen::BundleView;
use crate::mcu_pinout::pin_name;
use crate::mcu_pinout::PinId;
use crate::pin_plan::EdgeView;
use crate::pin_plan::NodeView;
use crate::pin_plan::PlacementView;
use crate::pin_plan::PlanView;

verus! {

/// The first placement of an instance is one of its own, and none later.
pub proof fn first_is_first(ps: Seq<PlacementView>, s: Seq<char>, k: int, i: int)
    requires
        0 <= k <= i < ps.len(),
        ps[i].signal.0 == s,
    ensures
        k <= first_at(ps, s, k) <= i,
        ps[first_at(ps, s, k)].signal.0 == s,
    decreases i - k,
{
    if ps[k].signal.0 != s {
        first_is_first(ps, s, k + 1, i);
    }
}

/// The instances are those of the placements, each once.
pub proof fn instances_are_right(ps: Seq<PlacementView>, n: int)
    requires
        0 <= n <= ps.len(),
    ensures
        instances_upto(ps, n).no_duplicates(),
        forall|k: int|
            0 <= k < instances_upto(ps, n).len() ==> exists|i: int|
                0 <= i < n && (#[trigger] ps[i]).signal.0 == #[trigger] instances_upto(ps, n)[k],
        forall|i: int|
            0 <= i < n ==> instances_upto(ps, n).contains((#[trigger] ps[i]).signal.0),
    decreases n,
{
    if n > 0 {
        instances_are_right(ps, n - 1);
        let had = instances_upto(ps, n - 1);
        let v = instances_upto(ps, n);
        let s = ps[n - 1].signal.0;
        first_is_first(ps, s, 0, n - 1);
        if leader(ps, n - 1) == n - 1 {
            assert(v == had.push(s));
            assert forall|k: int| 0 <= k < had.len() implies had[k] != s by {
                let i = choose|i: int| 0 <= i < n - 1 && (#[trigger] ps[i]).signal.0 == had[k];
                if had[k] == s {
                    first_is_first(ps, s, 0, i);
                }
            }
            assert forall|k: int| 0 <= k < v.len() implies exists|i: int|
                0 <= i < n && (#[trigger] ps[i]).signal.0 == #[trigger] v[k] by {
                if k < had.len() {
                    let i = choose|i: int| 0 <= i < n - 1 && (#[trigger] ps[i]).signal.0 == had[k];
                    assert(ps[i].signal.0 == v[k]);
                } else {
                    assert(ps[n - 1].signal.0 == v[k]);
                }
            }
            assert forall|i: int| 0 <= i < n implies v.contains((#[trigger] ps[i]).signal.0) by {
                if i < n - 1 {
                    assert(had.contains(ps[i].signal.0));
                    let k = had.index_of(ps[i].signal.0);
                    assert(v[k] == ps[i].signal.0);
                } else {
                    assert(v[had.len() as int] == s);
                }
            }
        } else {
            let l = leader(ps, n - 1);
            assert(l < n - 1);
            assert(had.contains(ps[l].signal.0));
        }
    }
}

proof fn node_is_new(placed: Seq<Seq<char>>, acc: Seq<Seq<char>>, n: NodeView)
    requires
        acc.no_duplicates(),
        forall|k: int| 0 <= k < acc.len() ==> !placed.contains(#[trigger] acc[k]),
    ensures
        with_node(placed, acc, n).no_duplicates(),
        forall|k: int|
            0 <= k < with_node(placed, acc, n).len() ==> !placed.contains(
                #[trigger] with_node(placed, acc, n)[k],
            ),
{
    if let Some(s) = singleton_of(n) {
        if !placed.contains(s) && !acc.contains(s) {
            assert forall|k: int| 0 <= k < acc.len() implies acc[k] != s by {}
        }
    }
}

proof fn fabric_is_new(placed: Seq<Seq<char>>, es: Seq<EdgeView>, n: int)
    ensures
        fabric_upto(placed, es, n).no_duplicates(),
        forall|k: int|
            0 <= k < fabric_upto(placed, es, n).len() ==> !placed.contains(
                #[trigger] fabric_upto(placed, es, n)[k],
            ),
    decreases n,
{
    if n > 0 {
        fabric_is_new(placed, es, n - 1);
        let a = fabric_upto(placed, es, n - 1);
        node_is_new(placed, a, es[n - 1].from);
        node_is_new(placed, with_node(placed, a, es[n - 1].from), es[n - 1].to);
    }
}

/// The placements that the fields of an instance come from.
spec fn kept_upto(ps: Seq<PlacementView>, instance: Seq<char>, n: int) -> Seq<int>
    decreases n,
{
    if n <= 0 {
        Seq::empty()
    } else if ps[n - 1].signal.0 == instance && keeps(ps, n - 1) {
        kept_upto(ps, instance, n - 1).push(n - 1)
    } else {
        kept_upto(ps, instance, n - 1)
    }
}

proof fn kept_are_right(ps: Seq<PlacementView>, instance: Seq<char>, n: int)
    requires
        0 <= n <= ps.len(),
    ensures
        kept_upto(ps, instance, n).len() == entries_upto(ps, instance, n).len(),
        forall|x: int|
            0 <= x < kept_upto(ps, instance, n).len() ==> {
                let i = #[trigger] kept_upto(ps, instance, n)[x];
                &&& 0 <= i < n
                &&& ps[i].signal.0 == instance
                &&& keeps(ps, i)
                &&& entries_upto(ps, instance, n)[x] == (ps[i].signal.1, ps[i].pin)
            },
        forall|x: int, y: int|
            0 <= x < y < kept_upto(ps, instance, n).len() ==> #[trigger] kept_upto(ps, instance, n)[x]
                < #[trigger] kept_upto(ps, instance, n)[y],
    decreases n,
{
    if n > 0 {
        kept_are_right(ps, instance, n - 1);
    }
}

proof fn kept_are_all(ps: Seq<PlacementView>, instance: Seq<char>, n: int, i: int)
    requires
        0 <= i < n <= ps.len(),
        ps[i].signal.0 == instance,
        keeps(ps, i),
    ensures
        entries_upto(ps, instance, n).contains((ps[i].signal.1, ps[i].pin)),
    decreases n,
{
    let v = entries_upto(ps, instance, n);
    if i < n - 1 {
        kept_are_all(ps, instance, n - 1, i);
        let had = entries_upto(ps, instance, n - 1);
        let x = had.index_of((ps[i].signal.1, ps[i].pin));
        assert(v[x] == had[x]);
    } else {
        assert(v.last() == (ps[i].signal.1, ps[i].pin));
    }
}

/// The bundle at an index, by its instance.
proof fn bundle_at(p: PlanView, a: int)
    requires
        0 <= a < bundles_of(p).len(),
    ensures
        a < placed_instances(p).len() ==> bundles_of(p)[a] == placed_bundle(
            p,
            placed_instances(p)[a],
        ),
        a >= placed_instances(p).len() ==> bundles_of(p)[a].instance == fabric_instances(p)[a
            - placed_instances(p).len()] && bundles_of(p)[a].entries.len() == 0,
{
}

/// Every instance has one bundle.
pub proof fn bundles_are_apart(p: PlanView)
    ensures
        forall|a: int, b: int|
            0 <= a < b < bundles_of(p).len() ==> (#[trigger] bundles_of(p)[a]).instance != (
            #[trigger] bundles_of(p)[b]).instance,
{
    let placed = placed_instances(p);
    instances_are_right(p.placements, p.placements.len() as int);
    fabric_is_new(placed, p.routes, p.routes.len() as int);
    assert forall|a: int, b: int| 0 <= a < b < bundles_of(p).len() implies (#[trigger] bundles_of(
        p,
    )[a]).instance != (#[trigger] bundles_of(p)[b]).instance by {
        bundle_at(p, a);
        bundle_at(p, b);
        if a < placed.len() {
            assert(placed.contains(placed[a]));
        }
    }
}

/// Two fields that are kept are on different pins, and differ in their role if they are
/// of one instance.
pub proof fn kept_are_apart(ps: Seq<PlacementView>, i: int, j: int)
    requires
        0 <= i < ps.len(),
        0 <= j < ps.len(),
        i != j,
        keeps(ps, i),
        keeps(ps, j),
    ensures
        ps[i].signal != ps[j].signal,
        !same_pin(ps[i], ps[j]),
{
    if comes_first(ps, i, j) {
        assert(ps[i].signal != ps[j].signal);
    } else {
        assert(comes_first(ps, j, i));
        assert(ps[j].signal != ps[i].signal);
    }
}

/// Whether two fields are one.
pub open spec fn is_same_field(a: int, x: int, b: int, y: int) -> bool {
    a == b && x == y
}

/// Nothing is moved out of the peripherals twice, and no bundle has a field twice: the
/// instances differ, the pins of any two fields differ, and so do the roles in a bundle.
pub proof fn each_singleton_moves_once(p: PlanView, a: int, x: int, b: int, y: int)
    requires
        0 <= a < bundles_of(p).len(),
        0 <= b < bundles_of(p).len(),
        0 <= x < bundles_of(p)[a].entries.len(),
        0 <= y < bundles_of(p)[b].entries.len(),
        !is_same_field(a, x, b, y),
    ensures
        a != b ==> bundles_of(p)[a].instance != bundles_of(p)[b].instance,
        a == b ==> bundles_of(p)[a].entries[x].0 != bundles_of(p)[b].entries[y].0,
        bundles_of(p)[a].entries[x].1 matches Some(q) ==> bundles_of(p)[b].entries[y].1 matches Some(
            r,
        ) ==> pin_name(q) != pin_name(r),
{
    let ps = p.placements;
    let n = ps.len() as int;
    bundles_are_apart(p);
    bundle_at(p, a);
    bundle_at(p, b);
    let s = bundles_of(p)[a].instance;
    let t = bundles_of(p)[b].instance;
    kept_are_right(ps, s, n);
    kept_are_right(ps, t, n);
    let i = kept_upto(ps, s, n)[x];
    let j = kept_upto(ps, t, n)[y];
    if a == b {
        if x < y {
            assert(i < j);
        } else {
            assert(j < i);
        }
    } else {
        assert(s != t);
    }
    kept_are_apart(ps, i, j);
}

/// Whether a bundle has a field.
pub open spec fn has_field(b: BundleView, instance: Seq<char>, e: (Seq<char>, Option<PinId>)) -> bool {
    b.instance == instance && b.entries.contains(e)
}

/// Every placement that is kept is a field of the bundle of its instance.
pub proof fn nothing_kept_is_lost(p: PlanView, i: int)
    requires
        0 <= i < p.placements.len(),
        keeps(p.placements, i),
    ensures
        exists|a: int|
            0 <= a < bundles_of(p).len() && has_field(
                #[trigger] bundles_of(p)[a],
                p.placements[i].signal.0,
                (p.placements[i].signal.1, p.placements[i].pin),
            ),
{
    let ps = p.placements;
    let n = ps.len() as int;
    let s = ps[i].signal.0;
    instances_are_right(ps, n);
    let placed = placed_instances(p);
    assert(placed.contains(ps[i].signal.0));
    let a = placed.index_of(s);
    bundle_at(p, a);
    kept_are_all(ps, s, n, i);
    assert(has_field(bundles_of(p)[a], s, (ps[i].signal.1, ps[i].pin)));
}

/// Whether two plans differ in nothing but where their signals are placed.
pub open spec fn same_but_pins(a: Seq<PlacementView>, b: Seq<PlacementView>) -> bool {
    a.len() == b.len() && forall|i: int|
        0 <= i < a.len() ==> (#[trigger] a[i]).signal == b[i].signal && keeps(a, i) == keeps(b, i)
}

/// Fields keep their names and their order when pins are reassigned.
pub proof fn names_survive_new_pins(
    a: Seq<PlacementView>,
    b: Seq<PlacementView>,
    instance: Seq<char>,
    n: int,
)
    requires
        same_but_pins(a, b),
        0 <= n <= a.len(),
    ensures
        instances_upto(a, n) == instances_upto(b, n),
        entries_upto(a, instance, n).len() == entries_upto(b, instance, n).len(),
        forall|x: int|
            0 <= x < entries_upto(a, instance, n).len() ==> (#[trigger] entries_upto(a, instance, n)[x]).0
                == entries_upto(b, instance, n)[x].0,
    decreases n,
{
    if n > 0 {
        names_survive_new_pins(a, b, instance, n - 1);
        assert(a[n - 1].signal == b[n - 1].signal);
        same_first(a, b, a[n - 1].signal.0, 0);
    }
}

proof fn same_first(a: Seq<PlacementView>, b: Seq<PlacementView>, s: Seq<char>, k: int)
    requires
        a.len() == b.len(),
        0 <= k,
        forall|i: int| 0 <= i < a.len() ==> (#[trigger] a[i]).signal == b[i].signal,
    ensures
        first_at(a, s, k) == first_at(b, s, k),
    decreases a.len() - k,
{
    if k < a.len() {
        assert(a[k].signal == b[k].signal);
        same_first(a, b, s, k + 1);
    }
}

proof fn first_in_more(a: Seq<PlacementView>, p: PlacementView, s: Seq<char>, k: int)
    requires
        0 <= k <= a.len(),
    ensures
        first_at(a, s, k) < a.len() ==> first_at(a.push(p), s, k) == first_at(a, s, k),
        first_at(a, s, k) >= a.len() && p.signal.0 == s ==> first_at(a.push(p), s, k) == a.len(),
    decreases a.len() - k,
{
    let b = a.push(p);
    if k < a.len() {
        assert(b[k] == a[k]);
        first_in_more(a, p, s, k + 1);
    } else {
        assert(b[k] == p);
    }
}

proof fn first_is_there(a: Seq<PlacementView>, s: Seq<char>, k: int)
    requires
        0 <= k,
        first_at(a, s, k) < a.len(),
    ensures
        k <= first_at(a, s, k),
        a[first_at(a, s, k)].signal.0 == s,
    decreases a.len() - k,
{
    if k < a.len() && a[k].signal.0 != s {
        first_is_there(a, s, k + 1);
    }
}

proof fn holes_of_others(a: Seq<PlacementView>, p: PlacementView, s: Seq<char>)
    requires
        p.signal.0 != s,
    ensures
        holes_of(a.push(p), s) == holes_of(a, s),
{
    let b = a.push(p);
    if drives_pwm(b, s) {
        let i = choose|i: int|
            0 <= i < b.len() && (#[trigger] b[i]).signal.0 == s && b[i].role_kind is PwmOut;
        assert(a[i] == b[i]);
    }
    if drives_pwm(a, s) {
        let i = choose|i: int|
            0 <= i < a.len() && (#[trigger] a[i]).signal.0 == s && a[i].role_kind is PwmOut;
        assert(a[i] == b[i]);
    }
    if drives_dead_time(b, s) {
        let i = choose|i: int|
            0 <= i < b.len() && (#[trigger] b[i]).signal.0 == s && b[i].role_kind is PwmOut
                && b[i].role_kind->PwmOut_dead_time;
        assert(a[i] == b[i]);
    }
    if drives_dead_time(a, s) {
        let i = choose|i: int|
            0 <= i < a.len() && (#[trigger] a[i]).signal.0 == s && a[i].role_kind is PwmOut
                && a[i].role_kind->PwmOut_dead_time;
        assert(a[i] == b[i]);
    }
}

proof fn holes_in_more(a: Seq<PlacementView>, p: PlacementView, n: int)
    requires
        0 <= n <= a.len(),
        forall|i: int| 0 <= i < a.len() ==> (#[trigger] a[i]).signal.0 != p.signal.0,
    ensures
        holes_upto(a.push(p), n) == holes_upto(a, n),
    decreases n,
{
    if n > 0 {
        let b = a.push(p);
        holes_in_more(a, p, n - 1);
        assert(b[n - 1] == a[n - 1]);
        let s = a[n - 1].signal.0;
        first_is_first(a, s, 0, n - 1);
        first_in_more(a, p, s, 0);
        holes_of_others(a, p, s);
    }
}

/// A plan that gains a peripheral gains the values of that peripheral, after all others
/// and without touching them.
pub proof fn new_peripheral_adds_its_holes(a: Seq<PlacementView>, p: PlacementView)
    requires
        forall|i: int| 0 <= i < a.len() ==> (#[trigger] a[i]).signal.0 != p.signal.0,
        is_bound(p.signal.0),
    ensures
        holes_upto(a.push(p), a.len() as int + 1) == holes_upto(a, a.len() as int) + holes_of(
            a.push(p),
            p.signal.0,
        ),
{
    let b = a.push(p);
    let n = a.len() as int;
    let s = p.signal.0;
    holes_in_more(a, p, n);
    if first_at(a, s, 0) < n {
        first_is_there(a, s, 0);
    }
    first_in_more(a, p, s, 0);
    first_end(a, s, 0);
    assert(b[n] == p);
    assert(leader(b, n) == n);
}

proof fn first_end(a: Seq<PlacementView>, s: Seq<char>, k: int)
    requires
        0 <= k,
    ensures
        first_at(a, s, k) <= a.len(),
    decreases a.len() - k,
{
    if k < a.len() {
        first_end(a, s, k + 1);
    }
}

} // verus!
