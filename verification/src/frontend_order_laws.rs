//! A plan does not depend on the order in which pins and options are listed.

use vstd::prelude::*;

use crate::frontend_plan::flags;
use crate::frontend_plan::same_option;
use crate::frontend_plan::CapView;
use crate::frontend_plan::FrontEndPlan;
use crate::frontend_plan::PlanConfig;
use crate::frontend_plan::ZeroCrossOption;
use crate::frontend_solver::at_pin;
use crate::frontend_solver::best_cross;
use crate::frontend_solver::best_option;
use crate::frontend_solver::carve;
use crate::frontend_solver::carve_one;
use crate::frontend_solver::in_pin_order;
use crate::frontend_solver::is_amp_pin;
use crate::frontend_solver::is_plan;
use crate::frontend_solver::most_crossed;
use crate::frontend_solver::option_comps;
use crate::frontend_solver::thrifty;
use crate::frontend_solver::usable_options;
use crate::frontend_solver::OutView;
use crate::frontend_solver::Sketch;
use crate::mcu_pinout::pin_rank;
use crate::mcu_pinout::PinId;
use crate::names::has_name;
use crate::order;
use crate::order::goes_up;
use crate::order::going_up_is_unique;
use crate::order::once;
use crate::order::once_goes_up;
use crate::order::order_of;
use crate::order::picked;
use crate::order::rises;
use crate::ranked;
use crate::ranked::ascends;
use crate::ranked::includes;
use crate::ranked::rank_in;
use crate::ranked::Ranked;
use crate::text::before;
use crate::text::before_irreflexive;
use crate::text::before_transitive;

verus! {

/// Sorting keeps the items.
pub proof fn sorted_holds_all<T>(v: Seq<T>, keys: Seq<u64>)
    requires
        v.len() == keys.len(),
        keys.len() <= usize::MAX,
    ensures
        picked(v, order_of(keys)).len() == v.len(),
        forall|x: T| #[trigger] picked(v, order_of(keys)).contains(x) <==> v.contains(x),
{
    let o = order_of(keys);
    order::order_of_is_stable(keys);
    let r = picked(v, o);
    assert forall|x: T| #[trigger] r.contains(x) <==> v.contains(x) by {
        if r.contains(x) {
            let i = choose|i: int| 0 <= i < r.len() && r[i] == x;
            assert(o[i] < v.len());
            assert(v[o[i] as int] == x);
        }
        if v.contains(x) {
            let k = choose|k: int| 0 <= k < v.len() && v[k] == x;
            order::stable_order_covers(keys, o, keys.len() as int, k);
            let i = choose|i: int| 0 <= i < o.len() && o[i] == k as usize;
            assert(r[i] == x);
        }
    }
}

/// A pin's rank is small.
pub proof fn rank_fits(p: PinId)
    ensures
        0 <= pin_rank(p) < 0x2000_0000,
{
    let c = p.port;
    assert(0 <= c as u32 as int <= 0x10ffff);
}

/// Pins of one rank are one pin.
pub proof fn rank_tells_apart(p: PinId, q: PinId)
    requires
        pin_rank(p) == pin_rank(q),
    ensures
        p == q,
{
    assert(p.port as u32 == q.port as u32);
    assert(p.num == q.num);
    assert(p.port as int == q.port as int);
    assert(p.port == q.port);
}

/// Whether no two capabilities are of one pin.
pub open spec fn pins_differ(caps: Seq<CapView>) -> bool {
    forall|i: int, j: int|
        #![trigger caps[i], caps[j]]
        0 <= i < j < caps.len() ==> caps[i].pin != caps[j].pin
}

/// In pin order each pin has a larger rank than the ones before it.
pub proof fn pin_order_goes_up(caps: Seq<CapView>)
    requires
        pins_differ(caps),
        caps.len() <= usize::MAX,
    ensures
        goes_up(in_pin_order(caps), |a: CapView, b: CapView| pin_rank(a.pin) < pin_rank(b.pin)),
        forall|c: CapView| #[trigger] in_pin_order(caps).contains(c) <==> caps.contains(c),
{
    let keys = caps.map_values(|c: CapView| pin_rank(c.pin) as u64);
    let o = order_of(keys);
    order::order_of_is_stable(keys);
    sorted_holds_all(caps, keys);
    let r = in_pin_order(caps);
    assert forall|i: int, j: int|
        #![trigger r[i], r[j]]
        0 <= i < j < r.len() implies pin_rank(r[i].pin) < pin_rank(r[j].pin) by {
        let a = o[i] as int;
        let b = o[j] as int;
        assert(o[i] < caps.len() && o[j] < caps.len());
        assert(a != b);
        rank_fits(caps[a].pin);
        rank_fits(caps[b].pin);
        assert(keys[a] == pin_rank(caps[a].pin) && keys[b] == pin_rank(caps[b].pin));
        assert(r[i] == caps[a] && r[j] == caps[b]);
        if pin_rank(caps[a].pin) == pin_rank(caps[b].pin) {
            rank_tells_apart(caps[a].pin, caps[b].pin);
            if a < b {
                assert(caps[a].pin != caps[b].pin);
            } else {
                assert(caps[b].pin != caps[a].pin);
            }
        }
    }
}

proof fn pin_order_is_unique(caps: Seq<CapView>, other: Seq<CapView>)
    requires
        pins_differ(caps),
        pins_differ(other),
        caps.len() <= usize::MAX,
        other.len() <= usize::MAX,
        forall|c: CapView| #[trigger] other.contains(c) <==> caps.contains(c),
    ensures
        in_pin_order(other) == in_pin_order(caps),
{
    pin_order_goes_up(caps);
    pin_order_goes_up(other);
    assert forall|c: CapView| #[trigger] in_pin_order(other).contains(c) <==> in_pin_order(
        caps,
    ).contains(c) by {
        assert(other.contains(c) <==> caps.contains(c));
    }
    going_up_is_unique(
        in_pin_order(other),
        in_pin_order(caps),
        |a: CapView, b: CapView| pin_rank(a.pin) < pin_rank(b.pin),
    );
}

/// Whether options that read the same are equal. They are wherever texts that read the same
/// are; equality of values does not say that of text constants.
pub open spec fn reading_tells(opts: Seq<ZeroCrossOption>) -> bool {
    forall|i: int, j: int|
        #![trigger opts[i], opts[j]]
        0 <= i < opts.len() && 0 <= j < opts.len() && same_option(opts[i], opts[j]) ==> opts[i]
            == opts[j]
}

proof fn usable_facts(opts: Seq<ZeroCrossOption>, caps: Seq<CapView>, n: int)
    requires
        0 <= n <= opts.len(),
    ensures
        usable_options(opts, caps, n).len() <= n,
        forall|o: ZeroCrossOption| #[trigger]
            usable_options(opts, caps, n).contains(o) <==> at_pin(caps, o.plus) is Some && at_pin(
                caps,
                o.minus,
            ) is Some && exists|i: int| 0 <= i < n && opts[i] == o,
    decreases n,
{
    if n > 0 {
        usable_facts(opts, caps, n - 1);
        let had = usable_options(opts, caps, n - 1);
        let now = usable_options(opts, caps, n);
        assert forall|o: ZeroCrossOption| #[trigger]
            now.contains(o) <==> at_pin(caps, o.plus) is Some && at_pin(caps, o.minus) is Some
                && exists|i: int| 0 <= i < n && opts[i] == o by {
            if now.contains(o) {
                let k = choose|k: int| 0 <= k < now.len() && now[k] == o;
                if k < had.len() {
                    assert(had[k] == o);
                    assert(had.contains(o));
                    let i = choose|i: int| 0 <= i < n - 1 && opts[i] == o;
                    assert(opts[i] == o);
                } else {
                    assert(opts[n - 1] == o);
                }
            }
            if at_pin(caps, o.plus) is Some && at_pin(caps, o.minus) is Some && exists|i: int|
                0 <= i < n && opts[i] == o {
                let i = choose|i: int| 0 <= i < n && opts[i] == o;
                if i < n - 1 {
                    assert(had.contains(o));
                    let k = choose|k: int| 0 <= k < had.len() && had[k] == o;
                    assert(now[k] == o);
                } else {
                    assert(now[had.len() as int] == o);
                }
            }
        }
    }
}

proof fn option_comps_facts(opts: Seq<ZeroCrossOption>, n: int)
    requires
        0 <= n <= opts.len(),
    ensures
        ascends(option_comps(opts, n)),
        forall|s: &'static str| #[trigger]
            includes(option_comps(opts, n), s) <==> exists|i: int|
                0 <= i < n && (#[trigger] opts[i]).comp@ == s@,
        option_comps(opts, n).len() <= n,
    decreases n,
{
    if n > 0 {
        option_comps_facts(opts, n - 1);
        let had = option_comps(opts, n - 1);
        ranked::with_is_set_insert(had, opts[n - 1].comp);
        ranked::rank_in_bounds(had, opts[n - 1].comp);
        assert forall|s: &'static str| #[trigger]
            includes(option_comps(opts, n), s) <==> exists|i: int|
                0 <= i < n && (#[trigger] opts[i]).comp@ == s@ by {
            if includes(had, s) {
                let i = choose|i: int| 0 <= i < n - 1 && (#[trigger] opts[i]).comp@ == s@;
                assert(opts[i].comp@ == s@);
            }
            if opts[n - 1].comp@ == s@ {
                assert(opts[n - 1].comp.alike(&s));
            }
            if exists|i: int| 0 <= i < n && (#[trigger] opts[i]).comp@ == s@ {
                let i = choose|i: int| 0 <= i < n && (#[trigger] opts[i]).comp@ == s@;
                if i < n - 1 {
                    assert(includes(had, s));
                } else {
                    assert(opts[n - 1].comp.alike(&s));
                }
            }
        }
    }
}

/// The key of an option's pins.
spec fn option_pins(o: ZeroCrossOption) -> int {
    pin_rank(o.plus) * 0x2000_0000 + pin_rank(o.minus)
}

/// Whether an option is tried before another one.
spec fn tried_before(caps: Seq<CapView>, a: ZeroCrossOption, b: ZeroCrossOption) -> bool {
    let x = flags(is_amp_pin(caps, a.plus), is_amp_pin(caps, a.minus));
    let y = flags(is_amp_pin(caps, b.plus), is_amp_pin(caps, b.minus));
    x < y || (x == y && (before(a.comp@, b.comp@) || (a.comp@ == b.comp@ && option_pins(a)
        < option_pins(b))))
}

proof fn ranks_tell_apart(comps: Seq<&'static str>, a: &'static str, b: &'static str)
    requires
        ascends(comps),
        includes(comps, a),
        includes(comps, b),
    ensures
        rank_in(comps, a) < rank_in(comps, b) ==> before(a@, b@),
        rank_in(comps, a) == rank_in(comps, b) ==> a@ == b@,
        0 <= rank_in(comps, a) <= comps.len(),
{
    ranked::rank_in_bounds(comps, a);
    ranked::rank_in_bounds(comps, b);
    let i = choose|i: int| 0 <= i < comps.len() && (#[trigger] comps[i]).alike(&a);
    let j = choose|j: int| 0 <= j < comps.len() && (#[trigger] comps[j]).alike(&b);
    assert(comps[i]@ == a@ && comps[j]@ == b@);
    before_irreflexive(a@);
    before_irreflexive(b@);
    assert(i == rank_in(comps, a)) by {
        if i < rank_in(comps, a) {
            assert(comps[i].precedes(&a));
        } else if i > rank_in(comps, a) {
            let k = rank_in(comps, a);
            assert(comps[k].precedes(&comps[i]));
            assert(!comps[k].precedes(&a));
        }
    }
    assert(j == rank_in(comps, b)) by {
        if j < rank_in(comps, b) {
            assert(comps[j].precedes(&b));
        } else if j > rank_in(comps, b) {
            let k = rank_in(comps, b);
            assert(comps[k].precedes(&comps[j]));
            assert(!comps[k].precedes(&b));
        }
    }
    if i < j {
        assert(comps[i].precedes(&comps[j]));
    }
}

proof fn thrifty_rises(opts: Seq<ZeroCrossOption>, caps: Seq<CapView>)
    requires
        reading_tells(opts),
        opts.len() <= usize::MAX,
    ensures
        rises(
            thrifty(opts, caps),
            |a: ZeroCrossOption, b: ZeroCrossOption| tried_before(caps, a, b),
        ),
        forall|o: ZeroCrossOption| #[trigger]
            thrifty(opts, caps).contains(o) <==> opts.contains(o),
{
    let n = opts.len() as int;
    let k1 = opts.map_values(
        |o: ZeroCrossOption| (pin_rank(o.plus) * 0x2000_0000 + pin_rank(o.minus)) as u64,
    );
    let o1 = order_of(k1);
    let a = picked(opts, o1);
    let comps = option_comps(opts, n);
    let k2 = a.map_values(|o: ZeroCrossOption| rank_in(comps, o.comp) as u64);
    let o2 = order_of(k2);
    let b = picked(a, o2);
    let k3 = b.map_values(
        |o: ZeroCrossOption| flags(is_amp_pin(caps, o.plus), is_amp_pin(caps, o.minus)) as u64,
    );
    let o3 = order_of(k3);
    let r = picked(b, o3);
    order::order_of_is_stable(k1);
    order::order_of_is_stable(k2);
    order::order_of_is_stable(k3);
    sorted_holds_all(opts, k1);
    sorted_holds_all(a, k2);
    sorted_holds_all(b, k3);
    option_comps_facts(opts, n);
    assert(r == thrifty(opts, caps));
    assert forall|o: ZeroCrossOption| #[trigger] r.contains(o) <==> opts.contains(o) by {
        assert(b.contains(o) <==> a.contains(o));
        assert(a.contains(o) <==> opts.contains(o));
    }
    assert forall|i: int, j: int|
        #![trigger r[i], r[j]]
        0 <= i < j < r.len() implies r[i] == r[j] || tried_before(caps, r[i], r[j]) by {
        let bi = o3[i] as int;
        let bj = o3[j] as int;
        assert(o3[i] < n && o3[j] < n);
        let ai = o2[bi] as int;
        let aj = o2[bj] as int;
        assert(o2[bi] < n && o2[bj] < n);
        let pi = o1[ai] as int;
        let pj = o1[aj] as int;
        assert(o1[ai] < n && o1[aj] < n);
        let p = opts[pi];
        let q = opts[pj];
        assert(r[i] == p && r[j] == q);
        assert(b[bi] == p && b[bj] == q && a[ai] == p && a[aj] == q);
        assert(opts[pi].comp@ == p.comp@ && opts[pj].comp@ == q.comp@);
        assert(includes(comps, p.comp) && includes(comps, q.comp));
        ranks_tell_apart(comps, p.comp, q.comp);
        ranks_tell_apart(comps, q.comp, p.comp);
        rank_fits(p.plus);
        rank_fits(p.minus);
        rank_fits(q.plus);
        rank_fits(q.minus);
        assert(k1[pi] == option_pins(p) && k1[pj] == option_pins(q));
        assert(k2[ai] == rank_in(comps, p.comp) && k2[aj] == rank_in(comps, q.comp));
        assert(bi != bj && ai != aj && pi != pj);
        if k3[bi] == k3[bj] && k2[ai] == k2[aj] && k1[pi] == k1[pj] {
            assert(pin_rank(p.plus) == pin_rank(q.plus) && pin_rank(p.minus) == pin_rank(q.minus));
            rank_tells_apart(p.plus, q.plus);
            rank_tells_apart(p.minus, q.minus);
            assert(same_option(opts[pi], opts[pj]));
        }
    }
}

proof fn thrifty_once_is_unique(
    a: Seq<ZeroCrossOption>,
    b: Seq<ZeroCrossOption>,
    caps: Seq<CapView>,
)
    requires
        reading_tells(a),
        reading_tells(b),
        a.len() <= usize::MAX,
        b.len() <= usize::MAX,
        forall|o: ZeroCrossOption| #[trigger] a.contains(o) <==> b.contains(o),
    ensures
        once(thrifty(a, caps)) == once(thrifty(b, caps)),
{
    let lt = |x: ZeroCrossOption, y: ZeroCrossOption| tried_before(caps, x, y);
    thrifty_rises(a, caps);
    thrifty_rises(b, caps);
    assert forall|x: ZeroCrossOption, y: ZeroCrossOption| #[trigger] lt(x, y) implies !lt(y, x) by {
        before_irreflexive(x.comp@);
        if before(x.comp@, y.comp@) && before(y.comp@, x.comp@) {
            before_transitive(x.comp@, y.comp@, x.comp@);
        }
    }
    let p = thrifty(a, caps);
    let q = thrifty(b, caps);
    once_goes_up(p, lt);
    once_goes_up(q, lt);
    assert forall|o: ZeroCrossOption| #[trigger] once(p).contains(o) <==> once(q).contains(o) by {
        assert(p.contains(o) <==> a.contains(o));
        assert(q.contains(o) <==> b.contains(o));
    }
    going_up_is_unique(once(p), once(q), lt);
}

proof fn carve_reads_a_prefix(
    caps: Seq<CapView>,
    want: int,
    a: Seq<ZeroCrossOption>,
    b: Seq<ZeroCrossOption>,
    n: int,
)
    requires
        0 <= n <= a.len(),
        n <= b.len(),
        forall|i: int| 0 <= i < n ==> a[i] == b[i],
    ensures
        carve(caps, want, a, n) == carve(caps, want, b, n),
    decreases n,
{
    if n > 0 {
        carve_reads_a_prefix(caps, want, a, b, n - 1);
    }
}

/// Trying an option a second time carves nothing.
proof fn carve_one_once(caps: Seq<CapView>, want: int, d: Sketch, o: ZeroCrossOption)
    ensures
        carve_one(caps, want, carve_one(caps, want, d, o), o) == carve_one(caps, want, d, o),
{
    let e = carve_one(caps, want, d, o);
    if e != d {
        assert(e.comps[d.comps.len() as int]@ == o.comp@);
        assert(has_name(e.comps, o.comp@));
    }
}

/// An option that only repeats the one before it carves nothing.
proof fn carve_ignores_repeats(
    caps: Seq<CapView>,
    want: int,
    list: Seq<ZeroCrossOption>,
)
    ensures
        carve(caps, want, list, list.len() as int) == carve(
            caps,
            want,
            once(list),
            once(list).len() as int,
        ),
    decreases list.len(),
{
    if list.len() > 0 {
        let u = list.drop_last();
        let n = u.len() as int;
        let p = once(u);
        let k = p.len() as int;
        let x = list.last();
        carve_ignores_repeats(caps, want, u);
        carve_reads_a_prefix(caps, want, list, u, n);
        if k > 0 && p.last() == x {
            carve_one_once(caps, want, carve(caps, want, p, k - 1), x);
        } else {
            carve_reads_a_prefix(caps, want, p.push(x), p, k);
        }
    }
}

/// What a choice of an option adds.
spec fn taking(
    opts: Seq<ZeroCrossOption>,
    comps: Seq<&'static str>,
    i: int,
    x: int,
    pins: Set<PinId>,
    taken: int,
    cap: int,
) -> int {
    best_cross(
        opts,
        comps,
        i + 1,
        pins.insert(opts[x].plus).insert(opts[x].minus),
        taken + 1,
        cap,
    )
}

spec fn can_take(
    opts: Seq<ZeroCrossOption>,
    comps: Seq<&'static str>,
    i: int,
    x: int,
    pins: Set<PinId>,
) -> bool {
    opts[x].comp@ == comps[i]@ && !pins.contains(opts[x].plus) && !pins.contains(opts[x].minus)
}

proof fn best_option_is_best(
    opts: Seq<ZeroCrossOption>,
    comps: Seq<&'static str>,
    i: int,
    k: int,
    pins: Set<PinId>,
    taken: int,
    cap: int,
    best: int,
)
    requires
        0 <= i < comps.len(),
        0 <= k,
    ensures
        ({
            let r = best_option(opts, comps, i, k, pins, taken, cap, best);
            &&& r >= best
            &&& forall|x: int|
                k <= x < opts.len() && #[trigger] can_take(opts, comps, i, x, pins) ==> r >= taking(
                    opts,
                    comps,
                    i,
                    x,
                    pins,
                    taken,
                    cap,
                )
            &&& r == best || exists|x: int|
                k <= x < opts.len() && #[trigger] can_take(opts, comps, i, x, pins) && r == taking(
                    opts,
                    comps,
                    i,
                    x,
                    pins,
                    taken,
                    cap,
                )
        }),
    decreases opts.len() - k,
{
    if k < opts.len() {
        let sub = taking(opts, comps, i, k, pins, taken, cap);
        if can_take(opts, comps, i, k, pins) {
            let more = if sub > best {
                sub
            } else {
                best
            };
            best_option_is_best(opts, comps, i, k + 1, pins, taken, cap, more);
        } else {
            best_option_is_best(opts, comps, i, k + 1, pins, taken, cap, best);
        }
    }
}

proof fn crossing_is_no_better(
    a: Seq<ZeroCrossOption>,
    b: Seq<ZeroCrossOption>,
    comps: Seq<&'static str>,
    others: Seq<&'static str>,
    i: int,
    pins: Set<PinId>,
    taken: int,
    cap: int,
)
    requires
        comps.len() == others.len(),
        forall|k: int| 0 <= k < comps.len() ==> (#[trigger] comps[k])@ == others[k]@,
        forall|o: ZeroCrossOption| #[trigger] a.contains(o) <==> b.contains(o),
        0 <= i,
    ensures
        best_cross(a, comps, i, pins, taken, cap) <= best_cross(b, others, i, pins, taken, cap),
    decreases comps.len() - i,
{
    if taken < cap && i < comps.len() {
        let p = best_cross(a, comps, i + 1, pins, taken, cap);
        let q = best_cross(b, others, i + 1, pins, taken, cap);
        crossing_is_no_better(a, b, comps, others, i + 1, pins, taken, cap);
        best_option_is_best(a, comps, i, 0, pins, taken, cap, p);
        best_option_is_best(b, others, i, 0, pins, taken, cap, q);
        let r = best_option(a, comps, i, 0, pins, taken, cap, p);
        if r != p {
            let x = choose|x: int|
                0 <= x < a.len() && #[trigger] can_take(a, comps, i, x, pins) && r == taking(
                    a,
                    comps,
                    i,
                    x,
                    pins,
                    taken,
                    cap,
                );
            assert(a.contains(a[x]));
            assert(b.contains(a[x]));
            let y = choose|y: int| 0 <= y < b.len() && b[y] == a[x];
            assert(comps[i]@ == others[i]@);
            assert(can_take(b, others, i, y, pins));
            crossing_is_no_better(
                a,
                b,
                comps,
                others,
                i + 1,
                pins.insert(a[x].plus).insert(a[x].minus),
                taken + 1,
                cap,
            );
            assert(taking(a, comps, i, x, pins, taken, cap) <= taking(
                b,
                others,
                i,
                y,
                pins,
                taken,
                cap,
            ));
        }
    }
}

proof fn crossing_is_unique(a: Seq<ZeroCrossOption>, b: Seq<ZeroCrossOption>, cap: int)
    requires
        forall|o: ZeroCrossOption| #[trigger] a.contains(o) <==> b.contains(o),
    ensures
        most_crossed(a, cap) == most_crossed(b, cap),
{
    let x = option_comps(a, a.len() as int);
    let y = option_comps(b, b.len() as int);
    option_comps_facts(a, a.len() as int);
    option_comps_facts(b, b.len() as int);
    let p = x.map_values(|s: &'static str| s@);
    let q = y.map_values(|s: &'static str| s@);
    let lt = |s: Seq<char>, t: Seq<char>| before(s, t);
    assert(goes_up(p, lt)) by {
        assert forall|i: int, j: int|
            #![trigger p[i], p[j]]
            0 <= i < j < p.len() implies lt(p[i], p[j]) by {
            assert(x[i].precedes(&x[j]));
        }
    }
    assert(goes_up(q, lt)) by {
        assert forall|i: int, j: int|
            #![trigger q[i], q[j]]
            0 <= i < j < q.len() implies lt(q[i], q[j]) by {
            assert(y[i].precedes(&y[j]));
        }
    }
    assert forall|s: Seq<char>, t: Seq<char>| #[trigger] lt(s, t) implies !lt(t, s) by {
        before_irreflexive(s);
        if before(s, t) && before(t, s) {
            before_transitive(s, t, s);
        }
    }
    assert forall|s: Seq<char>| #[trigger] p.contains(s) <==> q.contains(s) by {
        if p.contains(s) {
            let i = choose|i: int| 0 <= i < p.len() && p[i] == s;
            names_are_shared(a, b, x[i]);
            assert(includes(x, x[i])) by {
                assert(x[i].alike(&x[i]));
            }
            let j = choose|j: int| 0 <= j < y.len() && (#[trigger] y[j]).alike(&x[i]);
            assert(q[j] == s);
        }
        if q.contains(s) {
            let i = choose|i: int| 0 <= i < q.len() && q[i] == s;
            names_are_shared(b, a, y[i]);
            assert(includes(y, y[i])) by {
                assert(y[i].alike(&y[i]));
            }
            let j = choose|j: int| 0 <= j < x.len() && (#[trigger] x[j]).alike(&y[i]);
            assert(p[j] == s);
        }
    }
    going_up_is_unique(p, q, lt);
    assert forall|k: int| 0 <= k < x.len() implies (#[trigger] x[k])@ == y[k]@ by {
        assert(p[k] == q[k]);
    }
    assert forall|k: int| 0 <= k < y.len() implies (#[trigger] y[k])@ == x[k]@ by {
        assert(p[k] == q[k]);
    }
    crossing_is_no_better(a, b, x, y, 0, Set::empty(), 0, cap);
    crossing_is_no_better(b, a, y, x, 0, Set::empty(), 0, cap);
}

proof fn names_are_shared(a: Seq<ZeroCrossOption>, b: Seq<ZeroCrossOption>, s: &'static str)
    requires
        forall|o: ZeroCrossOption| #[trigger] a.contains(o) <==> b.contains(o),
    ensures
        includes(option_comps(a, a.len() as int), s) ==> includes(
            option_comps(b, b.len() as int),
            s,
        ),
{
    option_comps_facts(a, a.len() as int);
    option_comps_facts(b, b.len() as int);
    if includes(option_comps(a, a.len() as int), s) {
        let i = choose|i: int| 0 <= i < a.len() && (#[trigger] a[i]).comp@ == s@;
        assert(a.contains(a[i]));
        assert(b.contains(a[i]));
        let j = choose|j: int| 0 <= j < b.len() && b[j] == a[i];
        assert(b[j].comp@ == s@);
    }
}

/// A plan is the same in whatever order its pins and its zero-cross options are listed, and
/// however often an option is listed: what is a plan for one list is one, pair by pair, for
/// any other that holds the same.
pub proof fn plan_ignores_order(
    r: FrontEndPlan,
    caps: Seq<CapView>,
    other_caps: Seq<CapView>,
    out: OutView,
    opts: Seq<ZeroCrossOption>,
    other_opts: Seq<ZeroCrossOption>,
    channels: int,
    cfg: PlanConfig,
)
    requires
        caps.len() <= usize::MAX,
        other_caps.len() <= usize::MAX,
        opts.len() <= usize::MAX,
        other_opts.len() <= usize::MAX,
        pins_differ(caps),
        pins_differ(other_caps),
        reading_tells(opts),
        reading_tells(other_opts),
        forall|c: CapView| #[trigger] other_caps.contains(c) <==> caps.contains(c),
        forall|o: ZeroCrossOption| #[trigger] other_opts.contains(o) <==> opts.contains(o),
    ensures
        is_plan(r, other_caps, out, other_opts, channels, cfg) <==> is_plan(
            r,
            caps,
            out,
            opts,
            channels,
            cfg,
        ),
{
    let sorted = in_pin_order(caps);
    pin_order_is_unique(caps, other_caps);
    let a = usable_options(opts, sorted, opts.len() as int);
    let b = usable_options(other_opts, sorted, other_opts.len() as int);
    usable_facts(opts, sorted, opts.len() as int);
    usable_facts(other_opts, sorted, other_opts.len() as int);
    usable_keeps_reading(opts, sorted);
    usable_keeps_reading(other_opts, sorted);
    assert forall|o: ZeroCrossOption| #[trigger] a.contains(o) <==> b.contains(o) by {
        assert(other_opts.contains(o) <==> opts.contains(o));
    }
    thrifty_once_is_unique(a, b, sorted);
    let want = if cfg.zero_cross_target < channels / 2 {
        cfg.zero_cross_target as int
    } else {
        channels / 2
    };
    carve_ignores_repeats(sorted, want, thrifty(a, sorted));
    carve_ignores_repeats(sorted, want, thrifty(b, sorted));
    crossing_is_unique(a, b, channels / 2);
}

proof fn usable_keeps_reading(opts: Seq<ZeroCrossOption>, caps: Seq<CapView>)
    requires
        reading_tells(opts),
    ensures
        reading_tells(usable_options(opts, caps, opts.len() as int)),
{
    let r = usable_options(opts, caps, opts.len() as int);
    usable_facts(opts, caps, opts.len() as int);
    assert forall|i: int, j: int|
        #![trigger r[i], r[j]]
        0 <= i < r.len() && 0 <= j < r.len() && same_option(r[i], r[j]) implies r[i] == r[j] by {
        assert(r.contains(r[i]) && r.contains(r[j]));
        let x = choose|x: int| 0 <= x < opts.len() && opts[x] == r[i];
        let y = choose|y: int| 0 <= y < opts.len() && opts[y] == r[j];
        assert(same_option(opts[x], opts[y]));
    }
}

} // verus!
