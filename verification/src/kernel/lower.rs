//! Lower requirements onto a chip: find an instance and DMA channels for each,
//! greedily.
//!
//! The error is one-sided. An [`Outcome::Allocated`] is always a real, conflict-free
//! allocation; an [`Outcome::Infeasible`] can be pessimistic, since an early choice
//! is never taken back.

use vstd::prelude::*;

use super::engine::claimable;
use super::engine::claimable_means_free_and_distinct;
use super::engine::Ledger;
use super::requirement::ReqKind;
use super::requirement::Requirement;
use super::tokens::Class;
use super::tokens::Res;
use crate::mcu::legs_of;
use crate::mcu::number_after;
use crate::mcu::strip_prefix_num;
use crate::mcu::McuDescriptor;
use crate::mcu_raw::DmaPoolDef;
use crate::mcu_raw::RawDmaLeg;
use crate::mcu_raw::RawMcuData;
use crate::mcu_raw::RawPeripheral;
use crate::ranked;
use crate::ranked::ascends;
use crate::ranked::ascends_is_distinct;
use crate::ranked::with_all;
use crate::order;
use crate::order::deduped;
use crate::order::sorted_bytes;
use crate::text;
use crate::text::decimal;
use crate::tokens::keys_of;
use crate::tokens::TokenKey;
use crate::tokens::Token;

verus! {

/// One satisfied requirement: the instance it took and the DMA channels it holds.
#[derive(Clone, Debug, PartialEq, Eq)]
pub struct Placed {
    pub req_id: u32,
    pub class: Class,
    pub instance: u8,
    /// `(controller pool, channel)` pairs.
    pub dma: Vec<(&'static str, u8)>,
}

/// A satisfied requirement as a mathematical value.
pub ghost struct PlacedView {
    pub req_id: u32,
    pub class: Class,
    pub instance: u8,
    pub dma: Seq<(&'static str, u8)>,
}

impl View for Placed {
    type V = PlacedView;

    open spec fn view(&self) -> PlacedView {
        PlacedView {
            req_id: self.req_id,
            class: self.class,
            instance: self.instance,
            dma: self.dma@,
        }
    }
}

/// The verdict for a set of requirements on one chip.
#[derive(Clone, Debug, PartialEq, Eq)]
pub enum Outcome {
    /// Every requirement is placed; the witness is a conflict-free allocation.
    Allocated(Vec<Placed>),
    /// The requirements that could not be placed, by id.
    Infeasible { unmet: Vec<u32> },
}

/// The instance numbers of a class among the first `n` peripherals.
pub open spec fn class_numbers(ps: Seq<RawPeripheral>, class: Seq<char>, n: int) -> Seq<u8>
    decreases n,
{
    if n <= 0 {
        Seq::empty()
    } else {
        match number_after(ps[n - 1].name@, class) {
            Some(x) => class_numbers(ps, class, n - 1).push(x),
            None => class_numbers(ps, class, n - 1),
        }
    }
}

/// The instances of a class on a chip, ascending, each once.
pub open spec fn instances(raw: RawMcuData, class: Seq<char>) -> Seq<u8> {
    deduped(
        sorted_bytes(class_numbers(raw.peripherals@, class, raw.peripherals@.len() as int)),
    )
}

/// The instance numbers of `class` on the chip, ascending: `"USART"` gives 1, 2, 3.
/// A name is one only if what follows the class is a number.
pub fn instances_of(desc: &McuDescriptor, class: Class) -> (r: Vec<u8>)
    ensures
        r@ == instances(*desc.raw, class@),
{
    let ps: &'static [RawPeripheral] = desc.raw.peripherals;
    let mut v: Vec<u8> = Vec::new();
    let mut i: usize = 0;
    while i < ps.len()
        invariant
            i <= ps@.len(),
            v@ == class_numbers(ps@, class@, i as int),
        decreases ps@.len() - i,
    {
        if let Some(n) = strip_prefix_num(ps[i].name, class) {
            v.push(n);
        }
        i += 1;
    }
    let sorted: Vec<u8> = order::sort_bytes(&v);
    order::dedup_bytes(&sorted)
}

/// The channel count of the first pool from position `k` on with the given name; 0
/// where there is none.
pub open spec fn capacity_from(pools: Seq<DmaPoolDef>, pool: Seq<char>, k: int) -> u8
    decreases pools.len() - k,
{
    if k < 0 || k >= pools.len() {
        0
    } else if pools[k].name@ == pool {
        pools[k].channels
    } else {
        capacity_from(pools, pool, k + 1)
    }
}

/// The channel count of a pool.
pub open spec fn capacity(raw: RawMcuData, pool: Seq<char>) -> u8 {
    capacity_from(raw.dma_pools@, pool, 0)
}

/// The channel count of a pool; 0 when the chip's tables do not know it.
pub fn pool_capacity(desc: &McuDescriptor, pool: &str) -> (r: u8)
    ensures
        r == capacity(*desc.raw, pool@),
{
    let pools: &'static [DmaPoolDef] = desc.dma_pools();
    let mut i: usize = 0;
    while i < pools.len()
        invariant
            i <= pools@.len(),
            pools@ == desc.raw.dma_pools@,
            capacity_from(pools@, pool@, 0) == capacity_from(pools@, pool@, i as int),
        decreases pools@.len() - i,
    {
        if text::same(pools[i].name, pool) {
            return pools[i].channels;
        }
        i += 1;
    }
    0
}

/// The distinct pools of the first `n` legs, ascending.
pub open spec fn pools_of(legs: Seq<RawDmaLeg>, n: int) -> Seq<&'static str>
    decreases n,
{
    if n <= 0 {
        Seq::empty()
    } else {
        with_all(
            pools_of(legs, n - 1),
            legs[n - 1].pools@,
            legs[n - 1].pools@.len() as int,
        )
    }
}

/// The pools that an instance may draw channels from.
pub open spec fn allowed_pools(raw: RawMcuData, class: Seq<char>, i: u8) -> Seq<&'static str> {
    let legs = legs_of(raw, class + decimal(i as int));
    pools_of(legs, legs.len() as int)
}

fn collect_pools(legs: &[RawDmaLeg]) -> (r: Vec<&'static str>)
    ensures
        r@ == pools_of(legs@, legs@.len() as int),
        ascends(r@),
{
    let mut out: Vec<&'static str> = Vec::new();
    let mut i: usize = 0;
    while i < legs.len()
        invariant
            i <= legs@.len(),
            ascends(out@),
            out@ == pools_of(legs@, i as int),
        decreases legs@.len() - i,
    {
        ranked::insert_all(&mut out, legs[i].pools);
        i += 1;
    }
    out
}

/// The key of a pool's channel.
pub open spec fn channel_key(c: (&'static str, u8)) -> TokenKey {
    Res::Pool(c.0, c.1).key()
}

/// The key of an instance.
pub open spec fn instance_key(class: Class, i: u8) -> TokenKey {
    Res::Inst(class, i).key()
}

/// The free ones among the first `n` channels of a pool.
pub open spec fn free_in(held: Set<TokenKey>, pool: &'static str, n: int) -> Seq<(&'static str, u8)>
    decreases n,
{
    if n <= 0 {
        Seq::empty()
    } else if held.contains(channel_key((pool, (n - 1) as u8))) {
        free_in(held, pool, n - 1)
    } else {
        free_in(held, pool, n - 1).push((pool, (n - 1) as u8))
    }
}

/// The free channels of the first `n` pools, pool by pool.
pub open spec fn free_channels(
    held: Set<TokenKey>,
    raw: RawMcuData,
    pools: Seq<&'static str>,
    n: int,
) -> Seq<(&'static str, u8)>
    decreases n,
{
    if n <= 0 {
        Seq::empty()
    } else {
        free_channels(held, raw, pools, n - 1) + free_in(
            held,
            pools[n - 1],
            capacity(raw, pools[n - 1]@) as int,
        )
    }
}

/// The free channels that an instance may use.
pub open spec fn free_for(held: Set<TokenKey>, raw: RawMcuData, class: Class, i: u8) -> Seq<
    (&'static str, u8),
> {
    let pools = allowed_pools(raw, class@, i);
    free_channels(held, raw, pools, pools.len() as int)
}

/// What a requirement gets on one instance: nothing if the instance is held or its
/// pools have too few free channels, else the first free channels.
pub open spec fn placement(
    held: Set<TokenKey>,
    raw: RawMcuData,
    class: Class,
    dma: u8,
    i: u8,
) -> Option<Seq<(&'static str, u8)>> {
    if held.contains(instance_key(class, i)) {
        None
    } else if dma == 0 {
        Some(Seq::empty())
    } else if free_for(held, raw, class, i).len() < dma {
        None
    } else {
        Some(free_for(held, raw, class, i).take(dma as int))
    }
}

/// The first instance from position `k` on where the requirement finds a place.
pub open spec fn first_place(
    held: Set<TokenKey>,
    raw: RawMcuData,
    class: Class,
    dma: u8,
    insts: Seq<u8>,
    k: int,
) -> Option<(u8, Seq<(&'static str, u8)>)>
    decreases insts.len() - k,
{
    if k < 0 || k >= insts.len() {
        None
    } else {
        match placement(held, raw, class, dma, insts[k]) {
            Some(chans) => Some((insts[k], chans)),
            None => first_place(held, raw, class, dma, insts, k + 1),
        }
    }
}

/// The keys of a list of channels.
pub open spec fn channel_keys(chans: Seq<(&'static str, u8)>) -> Set<TokenKey> {
    Set::new(
        |k: TokenKey|
            exists|j: int| 0 <= j < chans.len() && channel_key(#[trigger] chans[j]) == k,
    )
}

/// Where requirement `req` goes when `held` is taken.
pub open spec fn place_for(held: Set<TokenKey>, raw: RawMcuData, req: Requirement) -> Option<
    (u8, Seq<(&'static str, u8)>),
> {
    match req.kind {
        ReqKind::UsePeripheral { class, dma } => first_place(
            held,
            raw,
            class,
            dma,
            instances(raw, class@),
            0,
        ),
    }
}

/// The class that a requirement asks for.
pub open spec fn class_of(req: Requirement) -> Class {
    match req.kind {
        ReqKind::UsePeripheral { class, dma } => class,
    }
}

/// The DMA channels that a requirement asks for.
pub open spec fn demand_of(req: Requirement) -> u8 {
    match req.kind {
        ReqKind::UsePeripheral { class, dma } => dma,
    }
}

/// What is held when the first `n` requirements have been placed in turn.
pub open spec fn held_after(raw: RawMcuData, reqs: Seq<Requirement>, n: int) -> Set<TokenKey>
    decreases n,
{
    if n <= 0 {
        Set::empty()
    } else {
        let held = held_after(raw, reqs, n - 1);
        match place_for(held, raw, reqs[n - 1]) {
            Some((i, chans)) => held.insert(instance_key(class_of(reqs[n - 1]), i)).union(
                channel_keys(chans),
            ),
            None => held,
        }
    }
}

/// Where requirement `k` goes.
pub open spec fn place_of(raw: RawMcuData, reqs: Seq<Requirement>, k: int) -> Option<
    (u8, Seq<(&'static str, u8)>),
> {
    place_for(held_after(raw, reqs, k), raw, reqs[k])
}

/// The placements of the first `n` requirements.
pub open spec fn placed_upto(raw: RawMcuData, reqs: Seq<Requirement>, n: int) -> Seq<PlacedView>
    decreases n,
{
    if n <= 0 {
        Seq::empty()
    } else {
        match place_of(raw, reqs, n - 1) {
            Some((i, chans)) => placed_upto(raw, reqs, n - 1).push(
                PlacedView {
                    req_id: reqs[n - 1].id,
                    class: class_of(reqs[n - 1]),
                    instance: i,
                    dma: chans,
                },
            ),
            None => placed_upto(raw, reqs, n - 1),
        }
    }
}

/// The ids among the first `n` requirements that find no place.
pub open spec fn unplaced_upto(raw: RawMcuData, reqs: Seq<Requirement>, n: int) -> Seq<u32>
    decreases n,
{
    if n <= 0 {
        Seq::empty()
    } else if place_of(raw, reqs, n - 1) is None {
        unplaced_upto(raw, reqs, n - 1).push(reqs[n - 1].id)
    } else {
        unplaced_upto(raw, reqs, n - 1)
    }
}

/// The placements as mathematical values.
pub open spec fn placed_views(v: Seq<Placed>) -> Seq<PlacedView> {
    v.map_values(|p: Placed| p@)
}

proof fn free_in_facts(held: Set<TokenKey>, pool: &'static str, n: int)
    requires
        0 <= n <= 255,
    ensures
        forall|j: int|
            0 <= j < free_in(held, pool, n).len() ==> {
                let c = #[trigger] free_in(held, pool, n)[j];
                c.0 == pool && c.1 < n && !held.contains(channel_key(c))
            },
        forall|j: int, k: int|
            0 <= j < k < free_in(held, pool, n).len() ==> (#[trigger] free_in(held, pool, n)[j]).1
                < (#[trigger] free_in(held, pool, n)[k]).1,
    decreases n,
{
    if n > 0 {
        free_in_facts(held, pool, n - 1);
        let a = free_in(held, pool, n - 1);
        let b = free_in(held, pool, n);
        assert forall|j: int| 0 <= j < b.len() implies {
            let c = #[trigger] b[j];
            c.0 == pool && c.1 < n && !held.contains(channel_key(c))
        } by {
            if j < a.len() {
                assert(b[j] == a[j]);
            }
        }
        assert forall|j: int, k: int| 0 <= j < k < b.len() implies (#[trigger] b[j]).1 < (
        #[trigger] b[k]).1 by {
            assert(b[j] == a[j]);
            if k < a.len() {
                assert(b[k] == a[k]);
            }
        }
    }
}

/// Free channels are free, lie within their pool's capacity, come from the given
/// pools, and are all different.
pub proof fn free_channels_facts(
    held: Set<TokenKey>,
    raw: RawMcuData,
    pools: Seq<&'static str>,
    n: int,
)
    requires
        ascends(pools),
        0 <= n <= pools.len(),
    ensures
        forall|j: int|
            0 <= j < free_channels(held, raw, pools, n).len() ==> {
                let c = #[trigger] free_channels(held, raw, pools, n)[j];
                &&& !held.contains(channel_key(c))
                &&& c.1 < capacity(raw, c.0@)
                &&& exists|p: int| 0 <= p < n && #[trigger] pools[p] == c.0
            },
        forall|j: int, k: int|
            0 <= j < k < free_channels(held, raw, pools, n).len() ==> channel_key(
                #[trigger] free_channels(held, raw, pools, n)[j],
            ) != channel_key(#[trigger] free_channels(held, raw, pools, n)[k]),
    decreases n,
{
    if n > 0 {
        free_channels_facts(held, raw, pools, n - 1);
        let a = free_channels(held, raw, pools, n - 1);
        let cap = capacity(raw, pools[n - 1]@) as int;
        let b = free_in(held, pools[n - 1], cap);
        free_in_facts(held, pools[n - 1], cap);
        let all = free_channels(held, raw, pools, n);
        assert(all =~= a + b);
        assert forall|j: int| 0 <= j < all.len() implies {
            let c = #[trigger] all[j];
            &&& !held.contains(channel_key(c))
            &&& c.1 < capacity(raw, c.0@)
            &&& exists|p: int| 0 <= p < n && #[trigger] pools[p] == c.0
        } by {
            if j < a.len() {
                assert(all[j] == a[j]);
                let p = choose|p: int| 0 <= p < n - 1 && #[trigger] pools[p] == a[j].0;
                assert(pools[p] == all[j].0);
            } else {
                assert(all[j] == b[j - a.len()]);
                assert(pools[n - 1] == all[j].0);
            }
        }
        assert forall|j: int, k: int| 0 <= j < k < all.len() implies channel_key(
            #[trigger] all[j],
        ) != channel_key(#[trigger] all[k]) by {
            if k < a.len() {
                assert(all[j] == a[j] && all[k] == a[k]);
            } else if j >= a.len() {
                assert(all[j] == b[j - a.len()] && all[k] == b[k - a.len()]);
            } else {
                assert(all[j] == a[j] && all[k] == b[k - a.len()]);
                let p = choose|p: int| 0 <= p < n - 1 && #[trigger] pools[p] == a[j].0;
                if pools[p]@ == pools[n - 1]@ {
                    ascends_is_distinct(pools, p, n - 1);
                }
            }
        }
    }
}

proof fn pools_of_ascend(legs: Seq<RawDmaLeg>, n: int)
    requires
        0 <= n <= legs.len(),
    ensures
        ascends(pools_of(legs, n)),
    decreases n,
{
    if n > 0 {
        pools_of_ascend(legs, n - 1);
        ranked::with_all_ascends(
            pools_of(legs, n - 1),
            legs[n - 1].pools@,
            legs[n - 1].pools@.len() as int,
        );
    }
}

/// A placement takes a free instance and as many different, free channels as were
/// asked for, each within the capacity of a pool that the instance may use.
pub proof fn placement_is_sound(
    held: Set<TokenKey>,
    raw: RawMcuData,
    class: Class,
    dma: u8,
    i: u8,
)
    requires
        placement(held, raw, class, dma, i) is Some,
    ensures
        ({
            let chans = placement(held, raw, class, dma, i)->0;
            &&& !held.contains(instance_key(class, i))
            &&& chans.len() == dma
            &&& forall|j: int|
                0 <= j < chans.len() ==> {
                    let c = #[trigger] chans[j];
                    &&& !held.contains(channel_key(c))
                    &&& c.1 < capacity(raw, c.0@)
                    &&& allowed_pools(raw, class@, i).contains(c.0)
                }
            &&& forall|j: int, k: int|
                0 <= j < k < chans.len() ==> channel_key(#[trigger] chans[j]) != channel_key(
                    #[trigger] chans[k],
                )
        }),
{
    let pools = allowed_pools(raw, class@, i);
    let legs = legs_of(raw, class@ + decimal(i as int));
    pools_of_ascend(legs, legs.len() as int);
    free_channels_facts(held, raw, pools, pools.len() as int);
    let all = free_for(held, raw, class, i);
    let chans = placement(held, raw, class, dma, i)->0;
    assert forall|j: int| 0 <= j < chans.len() implies {
        let c = #[trigger] chans[j];
        &&& !held.contains(channel_key(c))
        &&& c.1 < capacity(raw, c.0@)
        &&& pools.contains(c.0)
    } by {
        assert(chans[j] == all[j]);
    }
    assert forall|j: int, k: int| 0 <= j < k < chans.len() implies channel_key(#[trigger] chans[j])
        != channel_key(#[trigger] chans[k]) by {
        assert(chans[j] == all[j] && chans[k] == all[k]);
    }
}

/// Take the first `need` free channels of an instance's pools; `None` when there
/// are fewer.
fn grab_channels(led: &Ledger, desc: &McuDescriptor, class: Class, i: u8, need: u8) -> (r: Option<
    Vec<(&'static str, u8)>,
>)
    ensures
        ({
            let free = free_for(led.claimed(), *desc.raw, class, i);
            &&& r is Some <==> free.len() >= need
            &&& r matches Some(chans) ==> chans@ == free.take(need as int)
        }),
{
    let mut name: String = class.to_owned();
    text::push_number(&mut name, i as u64);
    let legs: Vec<RawDmaLeg> = desc.dma_routes(name.as_str());
    let pools: Vec<&'static str> = collect_pools(&legs);
    let ghost held = led.claimed();
    let ghost raw = *desc.raw;
    let ghost free = free_for(held, raw, class, i);
    let mut chans: Vec<(&'static str, u8)> = Vec::new();
    let mut p: usize = 0;
    proof {
        assert(name@ == class@ + decimal(i as int));
        assert(pools@ == allowed_pools(raw, class@, i));
    }
    while p < pools.len() && chans.len() < need as usize
        invariant
            p <= pools@.len(),
            held == led.claimed(),
            raw == *desc.raw,
            chans@.len() <= need,
            chans@.len() < need ==> chans@ == free_channels(held, raw, pools@, p as int),
            chans@.len() == need ==> chans@.is_prefix_of(
                free_channels(held, raw, pools@, p as int),
            ),
        decreases pools@.len() - p,
    {
        let pool: &'static str = pools[p];
        let cap: u8 = pool_capacity(desc, pool);
        let ghost base = free_channels(held, raw, pools@, p as int);
        let mut ch: u8 = 0;
        proof {
            assert(chans@ =~= base + free_in(held, pool, 0));
        }
        while ch < cap && chans.len() < need as usize
            invariant
                ch <= cap,
                held == led.claimed(),
                chans@.len() <= need,
                chans@ == base + free_in(held, pool, ch as int),
            decreases cap - ch,
        {
            let tok: Res = Res::Pool(pool, ch);
            if !led.held().contains(&tok) {
                chans.push((pool, ch));
                proof {
                    assert(chans@ =~= base + free_in(held, pool, ch + 1));
                }
            }
            ch += 1;
        }
        proof {
            free_in_prefix(held, pool, ch as int, cap as int);
            let full = free_channels(held, raw, pools@, p + 1);
            assert(full =~= base + free_in(held, pool, cap as int));
            let part = free_in(held, pool, ch as int);
            let whole = free_in(held, pool, cap as int);
            assert(chans@.is_prefix_of(full)) by {
                assert forall|x: int| 0 <= x < chans@.len() implies chans@[x] == full[x] by {
                    if x >= base.len() {
                        assert(part[x - base.len()] == whole[x - base.len()]);
                    }
                }
                assert(chans@ =~= full.subrange(0, chans@.len() as int));
            }
            if chans@.len() < need {
                assert(ch == cap);
            }
        }
        p += 1;
    }
    proof {
        free_prefix(held, raw, pools@, p as int, pools@.len() as int);
        let here = free_channels(held, raw, pools@, p as int);
        if chans@.len() == need {
            assert(chans@ =~= free.take(need as int)) by {
                assert forall|x: int| 0 <= x < chans@.len() implies chans@[x] == free[x] by {
                    assert(chans@[x] == here.subrange(0, chans@.len() as int)[x]);
                    assert(here[x] == free.subrange(0, here.len() as int)[x]);
                }
            }
        }
    }
    if chans.len() == need as usize {
        Some(chans)
    } else {
        None
    }
}

proof fn free_in_prefix(held: Set<TokenKey>, pool: &'static str, m: int, n: int)
    requires
        0 <= m <= n,
    ensures
        free_in(held, pool, m).len() <= free_in(held, pool, n).len(),
        forall|x: int|
            0 <= x < free_in(held, pool, m).len() ==> #[trigger] free_in(held, pool, m)[x]
                == free_in(held, pool, n)[x],
    decreases n,
{
    if m < n {
        free_in_prefix(held, pool, m, n - 1);
    }
}

proof fn free_prefix(
    held: Set<TokenKey>,
    raw: RawMcuData,
    pools: Seq<&'static str>,
    m: int,
    n: int,
)
    requires
        0 <= m <= n,
    ensures
        free_channels(held, raw, pools, m).is_prefix_of(free_channels(held, raw, pools, n)),
    decreases n,
{
    if m < n {
        free_prefix(held, raw, pools, m, n - 1);
        let a = free_channels(held, raw, pools, m);
        let b = free_channels(held, raw, pools, n - 1);
        let c = free_channels(held, raw, pools, n);
        assert(a =~= c.subrange(0, a.len() as int)) by {
            assert forall|x: int| 0 <= x < a.len() implies a[x] == c[x] by {
                assert(a[x] == b.subrange(0, a.len() as int)[x]);
            }
        }
    } else {
        let a = free_channels(held, raw, pools, m);
        assert(a =~= a.subrange(0, a.len() as int));
    }
}

/// Whether the requirements fit on the chip, greedily: each claims a fresh instance
/// of its class and its DMA channels.
pub fn feasible(desc: &McuDescriptor, reqs: &[Requirement]) -> (r: Outcome)
    ensures
        ({
            let raw = *desc.raw;
            let n = reqs@.len() as int;
            match r {
                Outcome::Allocated(placed) => unplaced_upto(raw, reqs@, n).len() == 0
                    && placed_views(placed@) == placed_upto(raw, reqs@, n),
                Outcome::Infeasible { unmet } => unmet@.len() > 0 && unmet@ == unplaced_upto(
                    raw,
                    reqs@,
                    n,
                ),
            }
        }),
{
    let ghost raw = *desc.raw;
    let mut led: Ledger = Ledger::new();
    let mut placed: Vec<Placed> = Vec::new();
    let mut unmet: Vec<u32> = Vec::new();
    let mut q: usize = 0;
    proof {
        assert(placed_views(placed@) =~= Seq::<PlacedView>::empty());
    }
    while q < reqs.len()
        invariant
            q <= reqs@.len(),
            raw == *desc.raw,
            led.wf(),
            led.claimed() == held_after(raw, reqs@, q as int),
            placed_views(placed@) == placed_upto(raw, reqs@, q as int),
            unmet@ == unplaced_upto(raw, reqs@, q as int),
        decreases reqs@.len() - q,
    {
        let ReqKind::UsePeripheral { class, dma } = reqs[q].kind;
        let id: u32 = reqs[q].id;
        let insts: Vec<u8> = instances_of(desc, class);
        let ghost held = led.claimed();
        let ghost placed0 = placed@;
        let mut done: bool = false;
        let mut k: usize = 0;
        while k < insts.len() && !done
            invariant
                q < reqs@.len(),
                k <= insts@.len(),
                raw == *desc.raw,
                insts@ == instances(raw, class@),
                reqs@[q as int].kind == (ReqKind::UsePeripheral { class, dma }),
                reqs@[q as int].id == id,
                held == held_after(raw, reqs@, q as int),
                led.wf(),
                placed_views(placed0) == placed_upto(raw, reqs@, q as int),
                !done ==> led.claimed() == held && placed@ == placed0 && place_for(
                    held,
                    raw,
                    reqs@[q as int],
                ) == first_place(held, raw, class, dma, insts@, k as int),
                done ==> place_for(held, raw, reqs@[q as int]) is Some && led.claimed()
                    == held_after(raw, reqs@, q + 1) && placed_views(placed@) == placed_upto(
                    raw,
                    reqs@,
                    q + 1,
                ),
            decreases insts@.len() - k,
        {
            let i: u8 = insts[k];
            let got: Option<Vec<(&'static str, u8)>> = if dma > 0 {
                grab_channels(&led, desc, class, i, dma)
            } else {
                Some(Vec::new())
            };
            if let Some(chans) = got {
                let mut claim: Vec<Res> = vec![Res::Inst(class, i)];
                let mut c: usize = 0;
                while c < chans.len()
                    invariant
                        c <= chans@.len(),
                        claim@.len() == c + 1,
                        claim@[0] == Res::Inst(class, i),
                        forall|j: int|
                            0 <= j < c ==> #[trigger] claim@[j + 1] == Res::Pool(
                                chans@[j].0,
                                chans@[j].1,
                            ),
                    decreases chans@.len() - c,
                {
                    claim.push(Res::Pool(chans[c].0, chans[c].1));
                    c += 1;
                }
                proof {
                    claim_is_exact(held, raw, class, dma, i, chans@, claim@);
                }
                if led.claim(&claim).is_ok() {
                    placed.push(Placed { req_id: id, class, instance: i, dma: chans });
                    done = true;
                    proof {
                        assert(place_of(raw, reqs@, q as int) == Some((i, chans@)));
                        assert(placed_views(placed@) =~= placed_upto(raw, reqs@, q + 1));
                        assert(led.claimed() =~= held_after(raw, reqs@, q + 1));
                    }
                }
            }
            k += 1;
        }
        if !done {
            unmet.push(id);
        }
        q += 1;
    }
    if unmet.len() == 0 {
        Outcome::Allocated(placed)
    } else {
        Outcome::Infeasible { unmet }
    }
}

/// Claiming an instance with its free channels goes through exactly when the
/// instance is free, and adds the instance and the channels.
proof fn claim_is_exact(
    held: Set<TokenKey>,
    raw: RawMcuData,
    class: Class,
    dma: u8,
    i: u8,
    chans: Seq<(&'static str, u8)>,
    claim: Seq<Res>,
)
    requires
        dma == 0 ==> chans.len() == 0,
        dma > 0 ==> free_for(held, raw, class, i).len() >= dma && chans == free_for(
            held,
            raw,
            class,
            i,
        ).take(dma as int),
        claim.len() == chans.len() + 1,
        claim[0] == Res::Inst(class, i),
        forall|j: int|
            0 <= j < chans.len() ==> #[trigger] claim[j + 1] == Res::Pool(chans[j].0, chans[j].1),
    ensures
        claimable(held, claim) <==> !held.contains(instance_key(class, i)),
        claimable(held, claim) <==> placement(held, raw, class, dma, i) == Some(chans),
        keys_of(claim) == set![instance_key(class, i)].union(channel_keys(chans)),
{
    claimable_means_free_and_distinct(held, claim);
    if dma == 0 {
        assert(chans =~= Seq::empty());
    }
    if !held.contains(instance_key(class, i)) {
        placement_is_sound(held, raw, class, dma, i);
        assert(chans == placement(held, raw, class, dma, i)->0);
        assert forall|k: TokenKey| keys_of(claim).contains(k) implies !held.contains(k) by {
            let j = choose|j: int| 0 <= j < claim.len() && (#[trigger] claim[j]).key() == k;
            if j > 0 {
                assert(claim[(j - 1) + 1] == Res::Pool(chans[j - 1].0, chans[j - 1].1));
                assert(!held.contains(channel_key(chans[j - 1])));
            }
        }
        assert forall|a: int, b: int| 0 <= a < b < claim.len() implies (#[trigger] claim[a]).key()
            != (#[trigger] claim[b]).key() by {
            assert(claim[(b - 1) + 1] == Res::Pool(chans[b - 1].0, chans[b - 1].1));
            if a > 0 {
                assert(claim[(a - 1) + 1] == Res::Pool(chans[a - 1].0, chans[a - 1].1));
                assert(channel_key(chans[a - 1]) != channel_key(chans[b - 1]));
            }
        }
    } else {
        assert(claim[0].key() == instance_key(class, i));
        assert(keys_of(claim).contains(instance_key(class, i)));
    }
    let both = set![instance_key(class, i)].union(channel_keys(chans));
    assert forall|k: TokenKey| keys_of(claim).contains(k) <==> both.contains(k) by {
        if keys_of(claim).contains(k) {
            let j = choose|j: int| 0 <= j < claim.len() && (#[trigger] claim[j]).key() == k;
            if j > 0 {
                assert(claim[(j - 1) + 1] == Res::Pool(chans[j - 1].0, chans[j - 1].1));
                assert(channel_key(chans[j - 1]) == k);
            }
        }
        if k == instance_key(class, i) {
            assert(claim[0].key() == k);
        }
        if channel_keys(chans).contains(k) {
            let j = choose|j: int| 0 <= j < chans.len() && channel_key(#[trigger] chans[j]) == k;
            assert(claim[j + 1].key() == k);
        }
    }
    assert(keys_of(claim) =~= both);
}

/// The instance and the channels of a requirement that has a place.
pub open spec fn spot(raw: RawMcuData, reqs: Seq<Requirement>, k: int) -> (u8, Seq<
    (&'static str, u8),
>) {
    place_of(raw, reqs, k)->0
}

proof fn held_after_grows(raw: RawMcuData, reqs: Seq<Requirement>, a: int, n: int)
    requires
        0 <= a < n,
        place_of(raw, reqs, a) is Some,
    ensures
        held_after(raw, reqs, n).contains(
            instance_key(class_of(reqs[a]), spot(raw, reqs, a).0),
        ),
        channel_keys(spot(raw, reqs, a).1).subset_of(held_after(raw, reqs, n)),
    decreases n,
{
    if a < n - 1 {
        held_after_grows(raw, reqs, a, n - 1);
    }
}

proof fn first_place_is_placement(
    held: Set<TokenKey>,
    raw: RawMcuData,
    class: Class,
    dma: u8,
    insts: Seq<u8>,
    k: int,
)
    ensures
        first_place(held, raw, class, dma, insts, k) matches Some((i, chans)) ==> insts.contains(i)
            && placement(held, raw, class, dma, i) == Some(chans),
    decreases insts.len() - k,
{
    if 0 <= k < insts.len() && placement(held, raw, class, dma, insts[k]) is None {
        first_place_is_placement(held, raw, class, dma, insts, k + 1);
    }
}

/// The allocation is sound: two placed requirements never share an instance or a
/// DMA channel, and each has an instance of the chip and the channels it asked for,
/// within the capacity of their pools.
pub proof fn allocation_is_sound(raw: RawMcuData, reqs: Seq<Requirement>, a: int, b: int)
    requires
        0 <= a < b < reqs.len(),
        place_of(raw, reqs, a) is Some,
        place_of(raw, reqs, b) is Some,
    ensures
        instances(raw, class_of(reqs[b])@).contains(spot(raw, reqs, b).0),
        spot(raw, reqs, b).1.len() == demand_of(reqs[b]),
        forall|j: int|
            0 <= j < spot(raw, reqs, b).1.len() ==> {
                let c = #[trigger] spot(raw, reqs, b).1[j];
                c.1 < capacity(raw, c.0@)
            },
        instance_key(class_of(reqs[a]), spot(raw, reqs, a).0) != instance_key(
            class_of(reqs[b]),
            spot(raw, reqs, b).0,
        ),
        channel_keys(spot(raw, reqs, a).1).disjoint(
            channel_keys(spot(raw, reqs, b).1),
        ),
{
    let held = held_after(raw, reqs, b);
    held_after_grows(raw, reqs, a, b);
    let class = class_of(reqs[b]);
    let dma = demand_of(reqs[b]);
    first_place_is_placement(held, raw, class, dma, instances(raw, class@), 0);
    let (i, chans) = spot(raw, reqs, b);
    placement_is_sound(held, raw, class, dma, i);
    assert forall|k: TokenKey| channel_keys(
        spot(raw, reqs, a).1,
    ).contains(k) implies !channel_keys(chans).contains(k) by {
        if channel_keys(chans).contains(k) {
            let j = choose|j: int| 0 <= j < chans.len() && channel_key(#[trigger] chans[j]) == k;
            assert(!held.contains(channel_key(chans[j])));
        }
    }
}

} // verus!
