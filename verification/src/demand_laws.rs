//! What filling up to demands promises: it adds what is missing, and only that, and it
//! leaves what is there alone.

use vstd::prelude::*;

use crate::c531_design::ConverterLeg;
use crate::demand::demand_seeded;
use crate::demand::fabric_seeded;
use crate::demand::first_free;
use crate::demand::have_count;
use crate::demand::instance_seeded;
use crate::demand::instances_of;
use crate::demand::instances_seeded;
use crate::demand::legs_seeded;
use crate::demand::locked_pins;
use crate::demand::pins_seeded;
use crate::demand::required_roles;
use crate::demand::role_seeded;
use crate::demand::roles_seeded;
use crate::demand::specs_for;
use crate::demand::AdcTemplates;
use crate::demand::DemandView;
use crate::demand::Seeding;
use crate::h523_design::in_use;
use crate::h523_design::one_each;
use crate::h523_design::pin_of;
use crate::h523_design::with_use;
use crate::h523_design::without;
use crate::h523_design::DesignView;
use crate::h523_design::LockView;
use crate::mcu_pinout::PinId;
use crate::mcu_raw::RawMcuData;
use crate::pinout::pins_carrying;
use crate::requirements::FabricView;
use crate::select::classes_of_kind;

verus! {

/// Whether every demand is met already.
pub open spec fn all_met(demands: Seq<DemandView>, have: Seq<(&'static str, u8)>) -> bool {
    forall|i: int|
        0 <= i < demands.len() ==> have_count(have, (#[trigger] demands[i]).kind)
            >= demands[i].count
}

/// A G474 design that meets the demands is left as it is.
pub proof fn met_fabric_stays(
    d: FabricView,
    demands: Seq<DemandView>,
    have: Seq<(&'static str, u8)>,
    t: AdcTemplates,
    n: int,
)
    requires
        all_met(demands, have),
        0 <= n <= demands.len(),
    ensures
        fabric_seeded(d, demands, have, t, n) == d,
    decreases n,
{
    if n > 0 {
        met_fabric_stays(d, demands, have, t, n - 1);
        let dem = demands[n - 1];
        assert(have_count(have, dem.kind) >= dem.count);
        assert(specs_for(dem, have_count(have, dem.kind) as int, t, d.next_id).len() == 0);
    }
}

/// A converter that has the legs is left as it is.
pub proof fn met_legs_stay(legs: Seq<ConverterLeg>, lo: int, hi: int)
    requires
        hi <= lo,
    ensures
        legs_seeded(legs, lo, hi) == legs,
{
}

/// A design that meets the demands is left as it is.
pub proof fn met_pins_stay(
    s: Seeding,
    raw: RawMcuData,
    demands: Seq<DemandView>,
    have: Seq<(&'static str, u8)>,
    n: int,
)
    requires
        all_met(demands, have),
        0 <= n <= demands.len(),
    ensures
        pins_seeded(s, raw, demands, have, n) == s,
    decreases n,
{
    if n > 0 {
        met_pins_stay(s, raw, demands, have, n - 1);
        let dem = demands[n - 1];
        assert(have_count(have, dem.kind) >= dem.count);
    }
}

/// Whether the pins that are taken include all that locks are on.
pub open spec fn knows_locks(s: Seeding) -> bool {
    forall|i: int|
        0 <= i < s.design.locks.len() ==> s.taken.contains((#[trigger] s.design.locks[i]).pin)
}

/// Whether one seeding extends another: its locks come first and are unchanged, and so
/// do its uses; no pin that is taken is given back.
pub open spec fn extends(a: Seeding, b: Seeding) -> bool {
    &&& a.design.locks.len() <= b.design.locks.len()
    &&& b.design.locks.take(a.design.locks.len() as int) == a.design.locks
    &&& a.design.uses.len() <= b.design.uses.len()
    &&& b.design.uses.take(a.design.uses.len() as int) == a.design.uses
    &&& one_each(a.design.locks) ==> one_each(b.design.locks)
    &&& a.taken.subset_of(b.taken)
}

proof fn extends_on(a: Seeding, b: Seeding, c: Seeding)
    requires
        extends(a, b),
        extends(b, c),
    ensures
        extends(a, c),
{
    let n = a.design.locks.len() as int;
    let m = a.design.uses.len() as int;
    assert(c.design.locks.take(n) =~= c.design.locks.take(b.design.locks.len() as int).take(n));
    assert(c.design.uses.take(m) =~= c.design.uses.take(b.design.uses.len() as int).take(m));
}

proof fn extends_self(a: Seeding)
    ensures
        extends(a, a),
{
    assert(a.design.locks.take(a.design.locks.len() as int) =~= a.design.locks);
    assert(a.design.uses.take(a.design.uses.len() as int) =~= a.design.uses);
}

proof fn no_lock_of(locks: Seq<LockView>, key: (Seq<char>, Seq<char>), k: int, i: int)
    requires
        pin_of(locks, key, k) is None,
        0 <= k <= i < locks.len(),
    ensures
        locks[i].key != key,
    decreases i - k,
{
    if k < i {
        no_lock_of(locks, key, k + 1, i);
    }
}

proof fn free_is_free(pins: Seq<PinId>, taken: Set<PinId>, k: int)
    requires
        0 <= k,
    ensures
        first_free(pins, taken, k) matches Some(p) ==> !taken.contains(p),
    decreases pins.len() - k,
{
    if k < pins.len() {
        free_is_free(pins, taken, k + 1);
    }
}

proof fn nothing_goes(locks: Seq<LockView>, key: (Seq<char>, Seq<char>), pin: PinId, n: int)
    requires
        0 <= n <= locks.len(),
        forall|i: int|
            0 <= i < locks.len() ==> (#[trigger] locks[i]).key != key && locks[i].pin != pin,
    ensures
        without(locks, key, Some(pin), n) == locks.take(n),
    decreases n,
{
    if n > 0 {
        nothing_goes(locks, key, pin, n - 1);
        assert(locks.take(n) =~= locks.take(n - 1).push(locks[n - 1]));
    } else {
        assert(locks.take(0) =~= Seq::<LockView>::empty());
    }
}

proof fn role_extends(s: Seeding, raw: RawMcuData, key: (Seq<char>, Seq<char>))
    requires
        knows_locks(s),
    ensures
        knows_locks(role_seeded(s, raw, key)),
        extends(s, role_seeded(s, raw, key)),
{
    let r = role_seeded(s, raw, key);
    let locks = s.design.locks;
    extends_self(s);
    if pin_of(locks, key, 0) is None {
        free_is_free(pins_carrying(raw, key), s.taken, 0);
        if let Some(p) = first_free(pins_carrying(raw, key), s.taken, 0) {
            assert forall|i: int| 0 <= i < locks.len() implies (#[trigger] locks[i]).key != key
                && locks[i].pin != p by {
                no_lock_of(locks, key, 0, i);
                assert(s.taken.contains(locks[i].pin));
            }
            nothing_goes(locks, key, p, locks.len() as int);
            assert(locks.take(locks.len() as int) =~= locks);
            assert(r.design.locks == locks.push(LockView { key, pin: p }));
            assert(r.design.locks.take(locks.len() as int) =~= locks);
            assert forall|i: int| 0 <= i < r.design.locks.len() implies r.taken.contains(
                (#[trigger] r.design.locks[i]).pin,
            ) by {
                if i < locks.len() {
                    assert(r.design.locks[i] == locks[i]);
                    assert(s.taken.contains(locks[i].pin));
                }
            }
            if one_each(locks) {
                assert forall|i: int, j: int|
                    #![trigger r.design.locks[i], r.design.locks[j]]
                    0 <= i < j < r.design.locks.len() implies r.design.locks[i].key
                    != r.design.locks[j].key && r.design.locks[i].pin != r.design.locks[j].pin by {
                    assert(r.design.locks[i] == locks[i]);
                    assert(locks[i].key != key && locks[i].pin != p);
                    if j < locks.len() {
                        assert(r.design.locks[j] == locks[j]);
                    }
                }
            }
        }
    }
}

proof fn roles_extend(
    s: Seeding,
    raw: RawMcuData,
    instance: Seq<char>,
    roles: Seq<Seq<char>>,
    n: int,
)
    requires
        knows_locks(s),
    ensures
        knows_locks(roles_seeded(s, raw, instance, roles, n)),
        extends(s, roles_seeded(s, raw, instance, roles, n)),
    decreases n,
{
    if n > 0 {
        roles_extend(s, raw, instance, roles, n - 1);
        let b = roles_seeded(s, raw, instance, roles, n - 1);
        role_extends(b, raw, (instance, roles[n - 1]));
        extends_on(s, b, roles_seeded(s, raw, instance, roles, n));
    } else {
        extends_self(s);
    }
}

proof fn instance_extends(s: Seeding, raw: RawMcuData, instance: Seq<char>, roles: Seq<Seq<char>>)
    requires
        knows_locks(s),
    ensures
        knows_locks(instance_seeded(s, raw, instance, roles)),
        extends(s, instance_seeded(s, raw, instance, roles)),
{
    let b = Seeding { design: with_use(s.design, instance, roles), ..s };
    extends_self(s);
    assert(b.design.uses.take(s.design.uses.len() as int) =~= s.design.uses);
    assert(extends(s, b));
    roles_extend(b, raw, instance, roles, roles.len() as int);
    extends_on(s, b, instance_seeded(s, raw, instance, roles));
}

proof fn instances_extend(
    s: Seeding,
    raw: RawMcuData,
    instances: Seq<Seq<char>>,
    roles: Seq<Seq<char>>,
    lo: int,
    hi: int,
)
    requires
        knows_locks(s),
    ensures
        knows_locks(instances_seeded(s, raw, instances, roles, lo, hi)),
        extends(s, instances_seeded(s, raw, instances, roles, lo, hi)),
    decreases hi - lo,
{
    if hi > lo {
        instances_extend(s, raw, instances, roles, lo, hi - 1);
        let b = instances_seeded(s, raw, instances, roles, lo, hi - 1);
        if hi - 1 < instances.len() {
            instance_extends(b, raw, instances[hi - 1], roles);
            extends_on(s, b, instances_seeded(s, raw, instances, roles, lo, hi));
        }
    } else {
        extends_self(s);
    }
}

proof fn demands_extend(
    s: Seeding,
    raw: RawMcuData,
    demands: Seq<DemandView>,
    have: Seq<(&'static str, u8)>,
    n: int,
)
    requires
        knows_locks(s),
    ensures
        knows_locks(pins_seeded(s, raw, demands, have, n)),
        extends(s, pins_seeded(s, raw, demands, have, n)),
    decreases n,
{
    if n > 0 {
        demands_extend(s, raw, demands, have, n - 1);
        let b = pins_seeded(s, raw, demands, have, n - 1);
        let dem = demands[n - 1];
        instances_extend(
            b,
            raw,
            instances_of(raw, dem.kind),
            required_roles(dem.kind, dem.options),
            have_count(have, dem.kind) as int,
            dem.count as int,
        );
        extends_self(b);
        extends_on(s, b, demand_seeded(b, raw, dem, have_count(have, dem.kind) as int));
    } else {
        extends_self(s);
    }
}

/// Filling a design up moves no lock and changes no use: what was there comes first, as
/// it was. No pin or signal that was locked once is then locked twice.
pub proof fn seeding_only_adds(
    d: DesignView,
    raw: RawMcuData,
    demands: Seq<DemandView>,
    have: Seq<(&'static str, u8)>,
)
    ensures
        extends(
            Seeding { design: d, taken: locked_pins(d.locks) },
            pins_seeded(
                Seeding { design: d, taken: locked_pins(d.locks) },
                raw,
                demands,
                have,
                demands.len() as int,
            ),
        ),
{
    demands_extend(
        Seeding { design: d, taken: locked_pins(d.locks) },
        raw,
        demands,
        have,
        demands.len() as int,
    );
}

/// Whether placing a role again would change nothing: it is placed, or has no free pin.
pub open spec fn role_settled(s: Seeding, raw: RawMcuData, key: (Seq<char>, Seq<char>)) -> bool {
    pin_of(s.design.locks, key, 0) is Some || first_free(pins_carrying(raw, key), s.taken, 0) is None
}

/// Whether an instance is declared and its roles are settled.
pub open spec fn settled(
    s: Seeding,
    raw: RawMcuData,
    instance: Seq<char>,
    roles: Seq<Seq<char>>,
) -> bool {
    &&& in_use(s.design.uses, instance)
    &&& forall|k: int|
        0 <= k < roles.len() ==> #[trigger] role_settled(s, raw, (instance, roles[k]))
}

/// Whether the pins that are taken are those that locks are on.
pub open spec fn takes_locks(s: Seeding) -> bool {
    s.taken == locked_pins(s.design.locks)
}

proof fn pin_of_finds(locks: Seq<LockView>, key: (Seq<char>, Seq<char>), k: int, i: int)
    requires
        0 <= k <= i < locks.len(),
        locks[i].key == key,
    ensures
        pin_of(locks, key, k) is Some,
    decreases i - k,
{
    if k < i {
        pin_of_finds(locks, key, k + 1, i);
    }
}

proof fn pin_of_is_there(locks: Seq<LockView>, key: (Seq<char>, Seq<char>), k: int) -> (i: int)
    requires
        0 <= k,
        pin_of(locks, key, k) is Some,
    ensures
        k <= i < locks.len(),
        locks[i].key == key,
    decreases locks.len() - k,
{
    if locks[k].key == key {
        k
    } else {
        pin_of_is_there(locks, key, k + 1)
    }
}

proof fn none_free_stays(pins: Seq<PinId>, a: Set<PinId>, b: Set<PinId>, k: int)
    requires
        0 <= k,
        a.subset_of(b),
        first_free(pins, a, k) is None,
    ensures
        first_free(pins, b, k) is None,
    decreases pins.len() - k,
{
    if k < pins.len() {
        none_free_stays(pins, a, b, k + 1);
    }
}

proof fn role_stays_settled(a: Seeding, b: Seeding, raw: RawMcuData, key: (Seq<char>, Seq<char>))
    requires
        role_settled(a, raw, key),
        extends(a, b),
    ensures
        role_settled(b, raw, key),
{
    let locks = a.design.locks;
    if pin_of(locks, key, 0) is Some {
        let i = pin_of_is_there(locks, key, 0);
        assert(b.design.locks.take(locks.len() as int)[i] == b.design.locks[i]);
        pin_of_finds(b.design.locks, key, 0, i);
    } else {
        none_free_stays(pins_carrying(raw, key), a.taken, b.taken, 0);
    }
}

proof fn use_stays(a: Seeding, b: Seeding, instance: Seq<char>)
    requires
        in_use(a.design.uses, instance),
        extends(a, b),
    ensures
        in_use(b.design.uses, instance),
{
    let n = a.design.uses.len() as int;
    let i = choose|i: int|
        0 <= i < n && (#[trigger] a.design.uses[i]).peripheral == instance;
    assert(b.design.uses.take(n)[i] == b.design.uses[i]);
}

proof fn stays_settled(
    a: Seeding,
    b: Seeding,
    raw: RawMcuData,
    instance: Seq<char>,
    roles: Seq<Seq<char>>,
)
    requires
        settled(a, raw, instance, roles),
        extends(a, b),
    ensures
        settled(b, raw, instance, roles),
{
    use_stays(a, b, instance);
    assert forall|k: int| 0 <= k < roles.len() implies #[trigger] role_settled(
        b,
        raw,
        (instance, roles[k]),
    ) by {
        assert(role_settled(a, raw, (instance, roles[k])));
        role_stays_settled(a, b, raw, (instance, roles[k]));
    }
}

proof fn role_settles(s: Seeding, raw: RawMcuData, key: (Seq<char>, Seq<char>))
    requires
        takes_locks(s),
    ensures
        role_settled(role_seeded(s, raw, key), raw, key),
        takes_locks(role_seeded(s, raw, key)),
{
    let r = role_seeded(s, raw, key);
    let locks = s.design.locks;
    if pin_of(locks, key, 0) is None {
        free_is_free(pins_carrying(raw, key), s.taken, 0);
        if let Some(p) = first_free(pins_carrying(raw, key), s.taken, 0) {
            assert forall|i: int| 0 <= i < locks.len() implies (#[trigger] locks[i]).key != key
                && locks[i].pin != p by {
                no_lock_of(locks, key, 0, i);
                assert(s.taken.contains(locks[i].pin));
            }
            nothing_goes(locks, key, p, locks.len() as int);
            assert(locks.take(locks.len() as int) =~= locks);
            let more = r.design.locks;
            assert(more == locks.push(LockView { key, pin: p }));
            pin_of_finds(more, key, 0, locks.len() as int);
            assert forall|q: PinId| locked_pins(more).contains(q) == r.taken.contains(q) by {
                if r.taken.contains(q) {
                    if q == p {
                        assert(more[locks.len() as int].pin == q);
                    } else {
                        let i = choose|i: int| 0 <= i < locks.len() && (#[trigger] locks[i]).pin == q;
                        assert(more[i].pin == q);
                    }
                }
                if locked_pins(more).contains(q) {
                    let i = choose|i: int| 0 <= i < more.len() && (#[trigger] more[i]).pin == q;
                    if i < locks.len() {
                        assert(locks[i].pin == q);
                    }
                }
            }
            assert(r.taken =~= locked_pins(more));
        }
    }
}

proof fn roles_settle(
    s: Seeding,
    raw: RawMcuData,
    instance: Seq<char>,
    roles: Seq<Seq<char>>,
    n: int,
)
    requires
        takes_locks(s),
        0 <= n <= roles.len(),
    ensures
        takes_locks(roles_seeded(s, raw, instance, roles, n)),
        forall|k: int|
            0 <= k < n ==> #[trigger] role_settled(
                roles_seeded(s, raw, instance, roles, n),
                raw,
                (instance, roles[k]),
            ),
    decreases n,
{
    if n > 0 {
        roles_settle(s, raw, instance, roles, n - 1);
        let b = roles_seeded(s, raw, instance, roles, n - 1);
        let c = roles_seeded(s, raw, instance, roles, n);
        knows_its_locks(b);
        role_extends(b, raw, (instance, roles[n - 1]));
        role_settles(b, raw, (instance, roles[n - 1]));
        assert forall|k: int| 0 <= k < n implies #[trigger] role_settled(
            c,
            raw,
            (instance, roles[k]),
        ) by {
            if k < n - 1 {
                assert(role_settled(b, raw, (instance, roles[k])));
                role_stays_settled(b, c, raw, (instance, roles[k]));
            }
        }
    }
}

proof fn knows_its_locks(s: Seeding)
    requires
        takes_locks(s),
    ensures
        knows_locks(s),
{
    assert forall|i: int| 0 <= i < s.design.locks.len() implies s.taken.contains(
        (#[trigger] s.design.locks[i]).pin,
    ) by {}
}

proof fn instance_settles(s: Seeding, raw: RawMcuData, instance: Seq<char>, roles: Seq<Seq<char>>)
    requires
        takes_locks(s),
    ensures
        takes_locks(instance_seeded(s, raw, instance, roles)),
        settled(instance_seeded(s, raw, instance, roles), raw, instance, roles),
{
    let b = Seeding { design: with_use(s.design, instance, roles), ..s };
    if !in_use(s.design.uses, instance) {
        assert(b.design.uses[s.design.uses.len() as int].peripheral == instance);
    }
    knows_its_locks(b);
    roles_settle(b, raw, instance, roles, roles.len() as int);
    roles_extend(b, raw, instance, roles, roles.len() as int);
    use_stays(b, instance_seeded(s, raw, instance, roles), instance);
}

proof fn instances_settle(
    s: Seeding,
    raw: RawMcuData,
    instances: Seq<Seq<char>>,
    roles: Seq<Seq<char>>,
    lo: int,
    hi: int,
)
    requires
        takes_locks(s),
        0 <= lo,
    ensures
        takes_locks(instances_seeded(s, raw, instances, roles, lo, hi)),
        forall|j: int|
            lo <= j < hi && j < instances.len() ==> settled(
                instances_seeded(s, raw, instances, roles, lo, hi),
                raw,
                #[trigger] instances[j],
                roles,
            ),
    decreases hi - lo,
{
    if hi > lo {
        instances_settle(s, raw, instances, roles, lo, hi - 1);
        let b = instances_seeded(s, raw, instances, roles, lo, hi - 1);
        let c = instances_seeded(s, raw, instances, roles, lo, hi);
        if hi - 1 < instances.len() {
            knows_its_locks(b);
            instance_extends(b, raw, instances[hi - 1], roles);
            instance_settles(b, raw, instances[hi - 1], roles);
            assert forall|j: int| lo <= j < hi && j < instances.len() implies settled(
                c,
                raw,
                #[trigger] instances[j],
                roles,
            ) by {
                if j < hi - 1 {
                    stays_settled(b, c, raw, instances[j], roles);
                }
            }
        }
    }
}

/// Whether filling up to a demand again, from the `lo`th instance on, would change nothing.
pub open spec fn demand_settled(s: Seeding, raw: RawMcuData, dem: DemandView, lo: int) -> bool {
    let roles = required_roles(dem.kind, dem.options);
    let instances = instances_of(raw, dem.kind);
    classes_of_kind(dem.kind).len() == 0 || roles.len() == 0 || forall|j: int|
        lo <= j < dem.count && j < instances.len() ==> settled(
            s,
            raw,
            #[trigger] instances[j],
            roles,
        )
}

proof fn demands_settle(
    s: Seeding,
    raw: RawMcuData,
    demands: Seq<DemandView>,
    have: Seq<(&'static str, u8)>,
    n: int,
)
    requires
        takes_locks(s),
        0 <= n <= demands.len(),
    ensures
        takes_locks(pins_seeded(s, raw, demands, have, n)),
        forall|i: int|
            0 <= i < n ==> demand_settled(
                pins_seeded(s, raw, demands, have, n),
                raw,
                #[trigger] demands[i],
                have_count(have, demands[i].kind) as int,
            ),
    decreases n,
{
    if n > 0 {
        demands_settle(s, raw, demands, have, n - 1);
        let b = pins_seeded(s, raw, demands, have, n - 1);
        let c = pins_seeded(s, raw, demands, have, n);
        let dem = demands[n - 1];
        let cur = have_count(have, dem.kind) as int;
        let roles = required_roles(dem.kind, dem.options);
        let instances = instances_of(raw, dem.kind);
        knows_its_locks(b);
        extends_self(b);
        instances_settle(b, raw, instances, roles, cur, dem.count as int);
        instances_extend(b, raw, instances, roles, cur, dem.count as int);
        assert(extends(b, c));
        assert forall|i: int| 0 <= i < n implies demand_settled(
            c,
            raw,
            #[trigger] demands[i],
            have_count(have, demands[i].kind) as int,
        ) by {
            if i < n - 1 {
                let x = demands[i];
                let old_roles = required_roles(x.kind, x.options);
                let old_instances = instances_of(raw, x.kind);
                let lo = have_count(have, x.kind) as int;
                assert(demand_settled(b, raw, x, lo));
                if classes_of_kind(x.kind).len() != 0 && old_roles.len() != 0 {
                    assert forall|j: int| lo <= j < x.count && j < old_instances.len() implies settled(
                        c,
                        raw,
                        #[trigger] old_instances[j],
                        old_roles,
                    ) by {
                        stays_settled(b, c, raw, old_instances[j], old_roles);
                    }
                }
            }
        }
    }
}

proof fn settled_roles_stay(
    s: Seeding,
    raw: RawMcuData,
    instance: Seq<char>,
    roles: Seq<Seq<char>>,
    n: int,
)
    requires
        settled(s, raw, instance, roles),
        0 <= n <= roles.len(),
    ensures
        roles_seeded(s, raw, instance, roles, n) == s,
    decreases n,
{
    if n > 0 {
        settled_roles_stay(s, raw, instance, roles, n - 1);
        assert(role_settled(s, raw, (instance, roles[n - 1])));
    }
}

proof fn settled_instances_stay(
    s: Seeding,
    raw: RawMcuData,
    instances: Seq<Seq<char>>,
    roles: Seq<Seq<char>>,
    lo: int,
    hi: int,
)
    requires
        0 <= lo,
        forall|j: int|
            lo <= j < hi && j < instances.len() ==> settled(s, raw, #[trigger] instances[j], roles),
    ensures
        instances_seeded(s, raw, instances, roles, lo, hi) == s,
    decreases hi - lo,
{
    if hi > lo {
        settled_instances_stay(s, raw, instances, roles, lo, hi - 1);
        if hi - 1 < instances.len() {
            settled_roles_stay(s, raw, instances[hi - 1], roles, roles.len() as int);
        }
    }
}

proof fn settled_demands_stay(
    s: Seeding,
    raw: RawMcuData,
    demands: Seq<DemandView>,
    have: Seq<(&'static str, u8)>,
    n: int,
)
    requires
        0 <= n <= demands.len(),
        forall|i: int|
            0 <= i < demands.len() ==> demand_settled(
                s,
                raw,
                #[trigger] demands[i],
                have_count(have, demands[i].kind) as int,
            ),
    ensures
        pins_seeded(s, raw, demands, have, n) == s,
    decreases n,
{
    if n > 0 {
        settled_demands_stay(s, raw, demands, have, n - 1);
        let dem = demands[n - 1];
        let cur = have_count(have, dem.kind) as int;
        assert(demand_settled(s, raw, dem, cur));
        if classes_of_kind(dem.kind).len() != 0 && required_roles(dem.kind, dem.options).len() != 0 {
            settled_instances_stay(
                s,
                raw,
                instances_of(raw, dem.kind),
                required_roles(dem.kind, dem.options),
                cur,
                dem.count as int,
            );
        }
    }
}

/// The design after it is filled up, from its own locks.
pub open spec fn pins_filled(
    d: DesignView,
    raw: RawMcuData,
    demands: Seq<DemandView>,
    have: Seq<(&'static str, u8)>,
) -> DesignView {
    pins_seeded(
        Seeding { design: d, taken: locked_pins(d.locks) },
        raw,
        demands,
        have,
        demands.len() as int,
    ).design
}

/// Filling a design up a second time changes nothing, where no less is counted than the
/// first time.
pub proof fn filling_pins_settles(
    d: DesignView,
    raw: RawMcuData,
    demands: Seq<DemandView>,
    have: Seq<(&'static str, u8)>,
    again: Seq<(&'static str, u8)>,
)
    requires
        forall|i: int|
            0 <= i < demands.len() ==> have_count(have, (#[trigger] demands[i]).kind)
                <= have_count(again, demands[i].kind),
    ensures
        pins_filled(pins_filled(d, raw, demands, have), raw, demands, again) == pins_filled(
            d,
            raw,
            demands,
            have,
        ),
{
    let s = Seeding { design: d, taken: locked_pins(d.locks) };
    let n = demands.len() as int;
    let r = pins_seeded(s, raw, demands, have, n);
    demands_settle(s, raw, demands, have, n);
    assert(r == (Seeding { design: r.design, taken: locked_pins(r.design.locks) }));
    assert forall|i: int| 0 <= i < demands.len() implies demand_settled(
        r,
        raw,
        #[trigger] demands[i],
        have_count(again, demands[i].kind) as int,
    ) by {
        assert(demand_settled(r, raw, demands[i], have_count(have, demands[i].kind) as int));
    }
    settled_demands_stay(r, raw, demands, again, n);
}

} // verus!
