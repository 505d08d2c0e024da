//! When a requirement goes without a place, and which tokens are one token.

use vstd::prelude::*;

use crate::constraint;
use crate::converter_laws::deduped_holds;
use crate::kernel::engine::conflicts_at;
use crate::kernel::engine::conflicts_of;
use crate::kernel::engine::conflicts_upto;
use crate::kernel::engine::held_excluding;
use crate::kernel::lower::allowed_pools;
use crate::kernel::lower::capacity;
use crate::kernel::lower::channel_key;
use crate::kernel::lower::class_numbers;
use crate::kernel::lower::class_of;
use crate::kernel::lower::demand_of;
use crate::kernel::lower::first_place;
use crate::kernel::lower::free_channels;
use crate::kernel::lower::free_for;
use crate::kernel::lower::free_in;
use crate::kernel::lower::instance_key;
use crate::kernel::lower::instances;
use crate::kernel::lower::place_for;
use crate::kernel::lower::place_of;
use crate::kernel::lower::placement;
use crate::kernel::lower::unplaced_upto;
use crate::kernel::tokens::Class;
use crate::kernel::tokens::Res;
use crate::kernel::Consume;
use crate::kernel::Requirement;
use crate::lists::in_either;
use crate::lists::pushed;
use crate::mcu::number_after;
use crate::mcu_raw::RawMcuData;
use crate::mcu_raw::RawPeripheral;
use crate::order::sorted_bytes;
use crate::order::sorted_bytes_ascend;
use crate::tokens::keys_of;
use crate::tokens::Token;
use crate::tokens::TokenKey;

verus! {

/// Whether two tokens are one: of the same sort, name and numbers.
pub open spec fn is_one_token(a: Res, b: Res) -> bool {
    match (a, b) {
        (Res::Inst(s, i), Res::Inst(t, j)) => s@ == t@ && i == j,
        (Res::SubChannel(s, i, c), Res::SubChannel(t, j, d)) => s@ == t@ && i == j && c == d,
        (Res::Route(k, i, j, l), Res::Route(m, x, y, z)) => k == m && i == x && j == y && l == z,
        (Res::Pin(p), Res::Pin(q)) => p == q,
        (Res::Pool(s, i), Res::Pool(t, j)) => s@ == t@ && i == j,
        _ => false,
    }
}

/// Two tokens exclude each other exactly where they are one.
pub proof fn tokens_exclude_only_themselves(a: Res, b: Res)
    ensures
        a.key() == b.key() <==> is_one_token(a, b),
{
}

/// Whether two tokens of a search are one: of the same sort, name and numbers.
pub open spec fn is_one_lock(a: constraint::Res, b: constraint::Res) -> bool {
    match (a, b) {
        (constraint::Res::Inst(s, i), constraint::Res::Inst(t, j)) => s@ == t@ && i == j,
        (constraint::Res::Pool(s, i), constraint::Res::Pool(t, j)) => s@ == t@ && i == j,
        (constraint::Res::Pin(p), constraint::Res::Pin(q)) => p == q,
        (constraint::Res::Sub(s, i, c), constraint::Res::Sub(t, j, d)) => s@ == t@ && i == j && c
            == d,
        (constraint::Res::Route(s, i, j, l), constraint::Res::Route(t, x, y, z)) => s@ == t@ && i
            == x && j == y && l == z,
        _ => false,
    }
}

/// Two tokens of a search exclude each other exactly where they are one.
pub proof fn locks_exclude_only_themselves(a: constraint::Res, b: constraint::Res)
    ensures
        a.key() == b.key() <==> is_one_lock(a, b),
{
}

proof fn numbers_are_of_names(ps: Seq<RawPeripheral>, class: Seq<char>, n: int, x: u8)
    requires
        0 <= n <= ps.len(),
    ensures
        class_numbers(ps, class, n).len() <= n,
        class_numbers(ps, class, n).contains(x) <==> exists|i: int|
            0 <= i < n && number_after((#[trigger] ps[i]).name@, class) == Some(x),
    decreases n,
{
    if n > 0 {
        numbers_are_of_names(ps, class, n - 1, x);
        if let Some(y) = number_after(ps[n - 1].name@, class) {
            pushed(class_numbers(ps, class, n - 1), class_numbers(ps, class, n), y, x);
        }
    }
}

/// A chip has an instance of a class for each peripheral that is named by the class and a
/// number.
pub proof fn instances_are_named(raw: RawMcuData, class: Seq<char>, x: u8)
    requires
        raw.peripherals@.len() <= usize::MAX,
    ensures
        instances(raw, class).contains(x) <==> exists|i: int|
            0 <= i < raw.peripherals@.len() && number_after(
                (#[trigger] raw.peripherals@[i]).name@,
                class,
            ) == Some(x),
{
    let ps = raw.peripherals@;
    let v = class_numbers(ps, class, ps.len() as int);
    numbers_are_of_names(ps, class, ps.len() as int, x);
    sorted_bytes_ascend(v);
    deduped_holds(sorted_bytes(v), x);
}

/// Whether an instance has room for a requirement: it is free, and so are as many channels of
/// its pools as are asked for.
pub open spec fn has_room(held: Set<TokenKey>, raw: RawMcuData, class: Class, dma: u8, x: u8) -> bool {
    !held.contains(instance_key(class, x)) && (dma == 0 || free_for(held, raw, class, x).len() >= dma)
}

proof fn the_first_with_room(
    held: Set<TokenKey>,
    raw: RawMcuData,
    class: Class,
    dma: u8,
    insts: Seq<u8>,
    k: int,
)
    requires
        0 <= k,
        forall|j: int| 0 <= j < k && j < insts.len() ==> !has_room(held, raw, class, dma, #[trigger] insts[j]),
    ensures
        first_place(held, raw, class, dma, insts, k) is None ==> forall|j: int|
            0 <= j < insts.len() ==> !has_room(held, raw, class, dma, #[trigger] insts[j]),
        first_place(held, raw, class, dma, insts, k) matches Some((i, chans)) ==> chans.len() == dma
            && exists|j: int|
            0 <= j < insts.len() && #[trigger] insts[j] == i && has_room(held, raw, class, dma, i)
                && forall|x: int|
                0 <= x < j ==> !has_room(held, raw, class, dma, #[trigger] insts[x]),
    decreases insts.len() - k,
{
    if k < insts.len() {
        if placement(held, raw, class, dma, insts[k]) is None {
            the_first_with_room(held, raw, class, dma, insts, k + 1);
        }
    }
}

/// A requirement goes without a place only where no instance has room for it; else it gets
/// the lowest one that has, with as many channels as it asks for.
pub proof fn the_first_instance_with_room(held: Set<TokenKey>, raw: RawMcuData, req: Requirement)
    ensures
        ({
            let class = class_of(req);
            let dma = demand_of(req);
            let insts = instances(raw, class@);
            &&& place_for(held, raw, req) is None <==> forall|j: int|
                0 <= j < insts.len() ==> !has_room(held, raw, class, dma, #[trigger] insts[j])
            &&& place_for(held, raw, req) matches Some((i, chans)) ==> chans.len() == dma
                && exists|j: int|
                0 <= j < insts.len() && #[trigger] insts[j] == i && has_room(
                    held,
                    raw,
                    class,
                    dma,
                    i,
                ) && forall|x: int|
                    0 <= x < j ==> !has_room(held, raw, class, dma, #[trigger] insts[x])
        }),
{
    the_first_with_room(
        held,
        raw,
        class_of(req),
        demand_of(req),
        instances(raw, class_of(req)@),
        0,
    );
}

proof fn free_ones_are_listed(held: Set<TokenKey>, pool: &'static str, n: int, c: u8)
    requires
        0 <= n <= 255,
        c < n,
        !held.contains(channel_key((pool, c))),
    ensures
        free_in(held, pool, n).contains((pool, c)),
    decreases n,
{
    let now = free_in(held, pool, n);
    if c < n - 1 {
        free_ones_are_listed(held, pool, n - 1, c);
        let had = free_in(held, pool, n - 1);
        let i = choose|i: int| 0 <= i < had.len() && had[i] == (pool, c);
        assert(now[i] == (pool, c));
    } else {
        assert(now[now.len() - 1] == (pool, c));
    }
}

proof fn free_ones_of_pools(
    held: Set<TokenKey>,
    raw: RawMcuData,
    pools: Seq<&'static str>,
    n: int,
    p: int,
    c: u8,
)
    requires
        0 <= p < n <= pools.len(),
        c < capacity(raw, pools[p]@),
        !held.contains(channel_key((pools[p], c))),
    ensures
        free_channels(held, raw, pools, n).contains((pools[p], c)),
    decreases n,
{
    let a = free_channels(held, raw, pools, n - 1);
    let b = free_in(held, pools[n - 1], capacity(raw, pools[n - 1]@) as int);
    in_either(a, b, (pools[p], c));
    if p < n - 1 {
        free_ones_of_pools(held, raw, pools, n - 1, p, c);
    } else {
        free_ones_are_listed(held, pools[p], capacity(raw, pools[p]@) as int, c);
    }
}

/// Every channel of an instance's pools that nothing holds can be given to it.
pub proof fn every_free_channel_counts(
    held: Set<TokenKey>,
    raw: RawMcuData,
    class: Class,
    x: u8,
    p: int,
    c: u8,
)
    requires
        0 <= p < allowed_pools(raw, class@, x).len(),
        c < capacity(raw, allowed_pools(raw, class@, x)[p]@),
        !held.contains(channel_key((allowed_pools(raw, class@, x)[p], c))),
    ensures
        free_for(held, raw, class, x).contains((allowed_pools(raw, class@, x)[p], c)),
{
    let pools = allowed_pools(raw, class@, x);
    free_ones_of_pools(held, raw, pools, pools.len() as int, p, c);
}

/// The requirements that are reported as unmet are those without a place.
pub proof fn unmet_are_those_without_a_place(
    raw: RawMcuData,
    reqs: Seq<Requirement>,
    n: int,
    id: u32,
)
    requires
        0 <= n <= reqs.len(),
    ensures
        unplaced_upto(raw, reqs, n).contains(id) <==> exists|k: int|
            0 <= k < n && (#[trigger] reqs[k]).id == id && place_of(raw, reqs, k) is None,
    decreases n,
{
    if n > 0 {
        unmet_are_those_without_a_place(raw, reqs, n - 1, id);
        if place_of(raw, reqs, n - 1) is None {
            pushed(
                unplaced_upto(raw, reqs, n - 1),
                unplaced_upto(raw, reqs, n),
                reqs[n - 1].id,
                id,
            );
            assert(reqs[n - 1].id == reqs[n - 1].id);
        }
    }
}

proof fn conflicts_are(held: Set<TokenKey>, items: Seq<Res>, n: int, r: Res)
    requires
        0 <= n <= items.len(),
    ensures
        conflicts_upto(held, items, n).contains(r) <==> exists|i: int|
            0 <= i < n && #[trigger] items[i] == r && conflicts_at(held, items, i),
    decreases n,
{
    if n > 0 {
        conflicts_are(held, items, n - 1, r);
        if conflicts_at(held, items, n - 1) {
            pushed(conflicts_upto(held, items, n - 1), conflicts_upto(held, items, n), items[n - 1], r);
        }
    }
}

/// A token of a claim is refused exactly where it is held, or an earlier one of the claim is
/// the same.
pub proof fn refused_are_held_or_repeated(held: Set<TokenKey>, items: Seq<Res>, r: Res)
    ensures
        conflicts_of(held, items).contains(r) <==> exists|i: int|
            0 <= i < items.len() && #[trigger] items[i] == r && (held.contains(r.key())
                || is_repeated(items, i)),
{
    conflicts_are(held, items, items.len() as int, r);
    assert forall|i: int| 0 <= i < items.len() implies (conflicts_at(held, items, i) <==> held.contains(
        (#[trigger] items[i]).key(),
    ) || is_repeated(items, i)) by {
        let v = items.take(i);
        if keys_of(v).contains(items[i].key()) {
            let j = choose|j: int| 0 <= j < v.len() && (#[trigger] v[j]).key() == items[i].key();
            assert(items[j].key() == items[i].key());
        }
        if is_repeated(items, i) {
            let j = choose|j: int| 0 <= j < i && (#[trigger] items[j]).key() == items[i].key();
            assert(v[j].key() == items[i].key());
        }
    }
}

/// Whether an earlier token is the same.
pub open spec fn is_repeated(items: Seq<Res>, i: int) -> bool {
    exists|j: int| 0 <= j < i && (#[trigger] items[j]).key() == items[i].key()
}

/// What is held but for one consumer is what the others hold.
pub proof fn the_others_hold<C: Consume>(consumers: Seq<C>, skip: int, n: int, k: TokenKey)
    requires
        0 <= n <= consumers.len(),
    ensures
        held_excluding(consumers, skip, n).contains(k) <==> exists|i: int|
            0 <= i < n && i != skip && keys_of((#[trigger] consumers[i]).tokens()).contains(k),
    decreases n,
{
    if n > 0 {
        the_others_hold(consumers, skip, n - 1, k);
        if n - 1 != skip && keys_of(consumers[n - 1].tokens()).contains(k) {
            assert(consumers[n - 1] == consumers[n - 1]);
        }
    }
}

} // verus!
