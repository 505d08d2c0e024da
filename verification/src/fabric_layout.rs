//! The order of the nodes in the picture of the power fabric. What the phases use comes
//! first, in the order of the phases; the rest follows by where its connections in the
//! column before it are, so that few lines cross.

use vstd::prelude::*;

use crate::g474;
use crate::g474::all_comps_seq;
use crate::g474::all_dacs_seq;
use crate::g474::comps_of_dac;
use crate::g474::eevs_of_comp;
use crate::g474::flts_of_comp;
use crate::g474::CompId;
use crate::g474::CrossbarSource;
use crate::g474::DacId;
use crate::g474::HrtimFltId;
use crate::g474::HrtimId;
use crate::order;
use crate::order::order_of;
use crate::order::order_of_is_stable;
use crate::order::picked;
use crate::order::stable_order_covers;
use crate::requirements::PhaseAllocation;
use crate::resources::TimerInputSlot;

verus! {

/// An event that reaches an input of a sub-timer.
#[derive(Copy, Clone, Debug, PartialEq, Eq, Structural)]
pub struct PhaseEdge {
    pub eev: CrossbarSource,
    pub timer: HrtimId,
    pub slot: TimerInputSlot,
}

/// The parts of a fault.
#[derive(Copy, Clone, Debug, PartialEq, Eq, Structural)]
pub struct ShortCircuitFault {
    pub dac: DacId,
    pub comp: CompId,
    pub flt: HrtimFltId,
}

/// Where the connections of a node stand on average, in 420ths, so that the average of
/// up to seven places is exact; last of all where it has none.
pub open spec fn average(links: Seq<bool>) -> u64 {
    let n = links.len() as int;
    if linked(links, n) == 0 {
        u64::MAX
    } else {
        (420 * place_sum(links, n) / linked(links, n)) as u64
    }
}

/// How many of the first `n` places are connected.
pub open spec fn linked(links: Seq<bool>, n: int) -> int
    decreases n,
{
    if n <= 0 {
        0
    } else {
        linked(links, n - 1) + (if links[n - 1] {
            1int
        } else {
            0
        })
    }
}

/// The sum of the connected places among the first `n`.
pub open spec fn place_sum(links: Seq<bool>, n: int) -> int
    decreases n,
{
    if n <= 0 {
        0
    } else {
        place_sum(links, n - 1) + (if links[n - 1] {
            n - 1
        } else {
            0
        })
    }
}

proof fn sums_fit(links: Seq<bool>, n: int)
    requires
        0 <= n <= 16,
    ensures
        0 <= linked(links, n) <= n,
        0 <= place_sum(links, n) <= 16 * n,
    decreases n,
{
    if n > 0 {
        sums_fit(links, n - 1);
    }
}

fn average_of(links: &[bool]) -> (r: u64)
    requires
        links@.len() <= 16,
    ensures
        r == average(links@),
{
    let mut sum: u64 = 0;
    let mut count: u64 = 0;
    let mut i: usize = 0;
    while i < links.len()
        invariant
            i <= links@.len(),
            links@.len() <= 16,
            sum == place_sum(links@, i as int),
            count == linked(links@, i as int),
        decreases links@.len() - i,
    {
        proof {
            sums_fit(links@, i as int);
            sums_fit(links@, i + 1);
        }
        if links[i] {
            sum = sum + i as u64;
            count = count + 1;
        }
        i += 1;
    }
    proof {
        sums_fit(links@, links@.len() as int);
    }
    if count == 0 {
        u64::MAX
    } else {
        420 * sum / count
    }
}

/// The key of a node within its tier: the phase that uses it, or where its connections
/// are.
pub open spec fn inner_key(active: Option<usize>, average: u64) -> u64 {
    match active {
        Some(i) => i as u64,
        None => average,
    }
}

/// The tier of a node: in use or not.
pub open spec fn tier_key(active: Option<usize>) -> u64 {
    match active {
        Some(_) => 0,
        None => 1,
    }
}

/// The inner keys of nodes.
pub open spec fn inner_keys(active: Seq<Option<usize>>, averages: Seq<u64>) -> Seq<u64> {
    Seq::new(active.len(), |i: int| inner_key(active[i], averages[i]))
}

/// The tiers of nodes.
pub open spec fn tier_keys(active: Seq<Option<usize>>) -> Seq<u64> {
    active.map_values(|a: Option<usize>| tier_key(a))
}

/// A column: what is in use first, by phase; then the rest, by where its connections
/// are; equal ones in their first order.
pub open spec fn column<T>(items: Seq<T>, active: Seq<Option<usize>>, averages: Seq<u64>) -> Seq<T> {
    let o = order_of(inner_keys(active, averages));
    picked(picked(items, o), order_of(picked(tier_keys(active), o)))
}

/// Put a column in order: what is in use first.
pub fn sort_active_first<T: Copy>(items: &[T], active: &[Option<usize>], averages: &[u64]) -> (r: Vec<T>)
    requires
        items@.len() == active@.len(),
        items@.len() == averages@.len(),
    ensures
        r@ == column(items@, active@, averages@),
{
    let mut inner: Vec<u64> = Vec::new();
    let mut tiers: Vec<u64> = Vec::new();
    let mut i: usize = 0;
    while i < active.len()
        invariant
            i <= active@.len(),
            active@.len() == averages@.len(),
            inner@ =~= inner_keys(active@, averages@).take(i as int),
            tiers@ =~= tier_keys(active@).take(i as int),
        decreases active@.len() - i,
    {
        match active[i] {
            Some(k) => {
                inner.push(k as u64);
                tiers.push(0);
            },
            None => {
                inner.push(averages[i]);
                tiers.push(1);
            },
        }
        i += 1;
    }
    proof {
        assert(inner@ =~= inner_keys(active@, averages@));
        assert(tiers@ =~= tier_keys(active@));
    }
    let first: Vec<T> = order::sort_by_keys(items, &inner);
    let keys: Vec<u64> = order::sort_by_keys(&tiers, &inner);
    order::sort_by_keys(&first, &keys)
}

/// A column has every node once.
pub proof fn column_has_all<T>(items: Seq<T>, active: Seq<Option<usize>>, averages: Seq<u64>, x: int)
    requires
        items.len() == active.len(),
        items.len() == averages.len(),
        items.len() <= usize::MAX,
        0 <= x < items.len(),
    ensures
        column(items, active, averages).len() == items.len(),
        column(items, active, averages).contains(items[x]),
{
    let n = items.len() as int;
    let k1 = inner_keys(active, averages);
    let o1 = order_of(k1);
    let k2 = picked(tier_keys(active), o1);
    let o2 = order_of(k2);
    order_of_is_stable(k1);
    order_of_is_stable(k2);
    stable_order_covers(k1, o1, n, x);
    let a = o1.index_of(x as usize);
    assert(o1[a] == x);
    stable_order_covers(k2, o2, n, a);
    let b = o2.index_of(a as usize);
    assert(o2[b] == a);
    assert(column(items, active, averages)[b] == items[x]);
}

/// In a column of its own places, a node in use stands before one that is not, and two
/// nodes in use stand in the order of their phases.
pub proof fn active_come_first(active: Seq<Option<usize>>, averages: Seq<u64>, i: int, j: int)
    requires
        active.len() == averages.len(),
        active.len() <= usize::MAX,
        0 <= i < j < active.len(),
    ensures
        ({
            let places = Seq::new(active.len(), |k: int| k);
            let a = column(places, active, averages)[i];
            let b = column(places, active, averages)[j];
            &&& 0 <= a < active.len()
            &&& 0 <= b < active.len()
            &&& active[b] is Some ==> active[a] is Some && active[a]->0 <= active[b]->0
            &&& active[a] is None ==> active[b] is None && averages[a] <= averages[b]
        }),
{
    let n = active.len() as int;
    let places = Seq::new(active.len(), |k: int| k);
    let k1 = inner_keys(active, averages);
    let o1 = order_of(k1);
    let k2 = picked(tier_keys(active), o1);
    let o2 = order_of(k2);
    order_of_is_stable(k1);
    order_of_is_stable(k2);
    let p = o2[i] as int;
    let q = o2[j] as int;
    assert(p < n && q < n);
    let a = o1[p] as int;
    let b = o1[q] as int;
    assert(a < n && b < n);
    assert(k2[p] == tier_key(active[a]));
    assert(k2[q] == tier_key(active[b]));
    assert(k2[p] < k2[q] || (k2[p] == k2[q] && p < q));
    if k2[p] == k2[q] {
        assert(k1[a] <= k1[b]);
    }
}

/// The external events, in order.
pub open spec fn all_eevs_seq() -> Seq<CrossbarSource> {
    seq![
        CrossbarSource::Eev1,
        CrossbarSource::Eev2,
        CrossbarSource::Eev3,
        CrossbarSource::Eev4,
        CrossbarSource::Eev5,
        CrossbarSource::Eev6,
        CrossbarSource::Eev7,
        CrossbarSource::Eev8,
        CrossbarSource::Eev9,
        CrossbarSource::Eev10,
    ]
}

fn all_eevs() -> (r: Vec<CrossbarSource>)
    ensures
        r@ == all_eevs_seq(),
{
    let r: Vec<CrossbarSource> = vec![
        CrossbarSource::Eev1,
        CrossbarSource::Eev2,
        CrossbarSource::Eev3,
        CrossbarSource::Eev4,
        CrossbarSource::Eev5,
        CrossbarSource::Eev6,
        CrossbarSource::Eev7,
        CrossbarSource::Eev8,
        CrossbarSource::Eev9,
        CrossbarSource::Eev10,
    ];
    proof {
        assert(r@ =~= all_eevs_seq());
    }
    r
}

/// The fault inputs, in order.
pub open spec fn all_flts_seq() -> Seq<HrtimFltId> {
    seq![
        HrtimFltId::Flt1,
        HrtimFltId::Flt2,
        HrtimFltId::Flt3,
        HrtimFltId::Flt4,
        HrtimFltId::Flt5,
        HrtimFltId::Flt6,
    ]
}

fn all_flts() -> (r: Vec<HrtimFltId>)
    ensures
        r@ == all_flts_seq(),
{
    let r: Vec<HrtimFltId> = vec![
        HrtimFltId::Flt1,
        HrtimFltId::Flt2,
        HrtimFltId::Flt3,
        HrtimFltId::Flt4,
        HrtimFltId::Flt5,
        HrtimFltId::Flt6,
    ];
    proof {
        assert(r@ =~= all_flts_seq());
    }
    r
}

/// The sub-timers, in order.
pub open spec fn all_sub_timers_seq() -> Seq<HrtimId> {
    seq![
        HrtimId::TimA,
        HrtimId::TimB,
        HrtimId::TimC,
        HrtimId::TimD,
        HrtimId::TimE,
        HrtimId::TimF,
    ]
}

fn all_sub_timers() -> (r: Vec<HrtimId>)
    ensures
        r@ == all_sub_timers_seq(),
{
    let r: Vec<HrtimId> = vec![
        HrtimId::TimA,
        HrtimId::TimB,
        HrtimId::TimC,
        HrtimId::TimD,
        HrtimId::TimE,
        HrtimId::TimF,
    ];
    proof {
        assert(r@ =~= all_sub_timers_seq());
    }
    r
}

/// The first place from `k` on that is set.
pub open spec fn first_set(flags: Seq<bool>, k: int) -> Option<usize>
    decreases flags.len() - k,
{
    if k >= flags.len() {
        None
    } else if flags[k] {
        Some(k as usize)
    } else {
        first_set(flags, k + 1)
    }
}

fn find_set(flags: &[bool]) -> (r: Option<usize>)
    ensures
        r == first_set(flags@, 0),
{
    let mut i: usize = 0;
    while i < flags.len()
        invariant
            i <= flags@.len(),
            first_set(flags@, 0) == first_set(flags@, i as int),
        decreases flags@.len() - i,
    {
        if flags[i] {
            return Some(i);
        }
        i += 1;
    }
    None
}

/// The first phase that uses the DAC channel.
pub open spec fn phase_of_dac(phases: Seq<PhaseAllocation>, x: DacId) -> Option<usize> {
    first_set(phases.map_values(|p: PhaseAllocation| p.dac == x), 0)
}

fn find_phase_of_dac(phases: &[PhaseAllocation], x: DacId) -> (r: Option<usize>)
    ensures
        r == phase_of_dac(phases@, x),
{
    let mut flags: Vec<bool> = Vec::new();
    let mut i: usize = 0;
    while i < phases.len()
        invariant
            i <= phases@.len(),
            flags@.len() == i,
            forall|k: int| 0 <= k < i ==> flags@[k] == (phases@[k].dac == x),
        decreases phases@.len() - i,
    {
        flags.push(phases[i].dac == x);
        i += 1;
    }
    proof {
        assert(flags@ =~= phases@.map_values(|p: PhaseAllocation| p.dac == x));
    }
    find_set(&flags)
}

/// The first phase that uses the comparator.
pub open spec fn phase_of_comp(phases: Seq<PhaseAllocation>, x: CompId) -> Option<usize> {
    first_set(phases.map_values(|p: PhaseAllocation| p.comp == x), 0)
}

fn find_phase_of_comp(phases: &[PhaseAllocation], x: CompId) -> (r: Option<usize>)
    ensures
        r == phase_of_comp(phases@, x),
{
    let mut flags: Vec<bool> = Vec::new();
    let mut i: usize = 0;
    while i < phases.len()
        invariant
            i <= phases@.len(),
            flags@.len() == i,
            forall|k: int| 0 <= k < i ==> flags@[k] == (phases@[k].comp == x),
        decreases phases@.len() - i,
    {
        flags.push(phases[i].comp == x);
        i += 1;
    }
    proof {
        assert(flags@ =~= phases@.map_values(|p: PhaseAllocation| p.comp == x));
    }
    find_set(&flags)
}

/// The first phase that uses the event.
pub open spec fn phase_of_eev(phases: Seq<PhaseAllocation>, x: CrossbarSource) -> Option<usize> {
    first_set(phases.map_values(|p: PhaseAllocation| p.eev == x), 0)
}

fn find_phase_of_eev(phases: &[PhaseAllocation], x: CrossbarSource) -> (r: Option<usize>)
    ensures
        r == phase_of_eev(phases@, x),
{
    let mut flags: Vec<bool> = Vec::new();
    let mut i: usize = 0;
    while i < phases.len()
        invariant
            i <= phases@.len(),
            flags@.len() == i,
            forall|k: int| 0 <= k < i ==> flags@[k] == (phases@[k].eev == x),
        decreases phases@.len() - i,
    {
        flags.push(phases[i].eev == x);
        i += 1;
    }
    proof {
        assert(flags@ =~= phases@.map_values(|p: PhaseAllocation| p.eev == x));
    }
    find_set(&flags)
}

/// Which of the DAC channels reach a comparator.
pub open spec fn dac_links(from: Seq<DacId>, x: CompId) -> Seq<bool> {
    from.map_values(|s: DacId| comps_of_dac(s).contains(x))
}

fn find_dac_links(from: &[DacId], x: CompId) -> (r: Vec<bool>)
    ensures
        r@ == dac_links(from@, x),
{
    let mut out: Vec<bool> = Vec::new();
    let mut i: usize = 0;
    while i < from.len()
        invariant
            i <= from@.len(),
            out@.len() == i,
            forall|k: int| 0 <= k < i ==> out@[k] == comps_of_dac(from@[k]).contains(x),
        decreases from@.len() - i,
    {
        let reach: Vec<CompId> = g474::comps_for_dac(from[i]);
        let mut hit: bool = false;
        let mut j: usize = 0;
        while j < reach.len()
            invariant
                i < from@.len(),
                j <= reach@.len(),
                reach@ == comps_of_dac(from@[i as int]),
                hit == reach@.take(j as int).contains(x),
            decreases reach@.len() - j,
        {
            let ghost had = reach@.take(j as int);
            let ghost more = reach@.take(j + 1);
            proof {
                assert(more =~= had.push(reach@[j as int]));
                if had.contains(x) {
                    let k = had.index_of(x);
                    assert(more[k] == x);
                }
                if reach@[j as int] == x {
                    assert(more[j as int] == x);
                }
            }
            if reach[j] == x {
                hit = true;
            }
            j += 1;
        }
        proof {
            assert(reach@.take(reach@.len() as int) =~= reach@);
        }
        out.push(hit);
        i += 1;
    }
    proof {
        assert(out@ =~= dac_links(from@, x));
    }
    out
}

/// Which of the comparators reach an event.
pub open spec fn eev_links(from: Seq<CompId>, x: CrossbarSource) -> Seq<bool> {
    from.map_values(|s: CompId| eevs_of_comp(s).contains(x))
}

fn find_eev_links(from: &[CompId], x: CrossbarSource) -> (r: Vec<bool>)
    ensures
        r@ == eev_links(from@, x),
{
    let mut out: Vec<bool> = Vec::new();
    let mut i: usize = 0;
    while i < from.len()
        invariant
            i <= from@.len(),
            out@.len() == i,
            forall|k: int| 0 <= k < i ==> out@[k] == eevs_of_comp(from@[k]).contains(x),
        decreases from@.len() - i,
    {
        let reach: Vec<CrossbarSource> = g474::eevs_for_comp(from[i]);
        let mut hit: bool = false;
        let mut j: usize = 0;
        while j < reach.len()
            invariant
                i < from@.len(),
                j <= reach@.len(),
                reach@ == eevs_of_comp(from@[i as int]),
                hit == reach@.take(j as int).contains(x),
            decreases reach@.len() - j,
        {
            let ghost had = reach@.take(j as int);
            let ghost more = reach@.take(j + 1);
            proof {
                assert(more =~= had.push(reach@[j as int]));
                if had.contains(x) {
                    let k = had.index_of(x);
                    assert(more[k] == x);
                }
                if reach@[j as int] == x {
                    assert(more[j as int] == x);
                }
            }
            if reach[j] == x {
                hit = true;
            }
            j += 1;
        }
        proof {
            assert(reach@.take(reach@.len() as int) =~= reach@);
        }
        out.push(hit);
        i += 1;
    }
    proof {
        assert(out@ =~= eev_links(from@, x));
    }
    out
}

/// Which of the comparators reach a fault input.
pub open spec fn flt_links(from: Seq<CompId>, x: HrtimFltId) -> Seq<bool> {
    from.map_values(|s: CompId| flts_of_comp(s).contains(x))
}

fn find_flt_links(from: &[CompId], x: HrtimFltId) -> (r: Vec<bool>)
    ensures
        r@ == flt_links(from@, x),
{
    let mut out: Vec<bool> = Vec::new();
    let mut i: usize = 0;
    while i < from.len()
        invariant
            i <= from@.len(),
            out@.len() == i,
            forall|k: int| 0 <= k < i ==> out@[k] == flts_of_comp(from@[k]).contains(x),
        decreases from@.len() - i,
    {
        let reach: Vec<HrtimFltId> = g474::flts_for_comp(from[i]);
        let mut hit: bool = false;
        let mut j: usize = 0;
        while j < reach.len()
            invariant
                i < from@.len(),
                j <= reach@.len(),
                reach@ == flts_of_comp(from@[i as int]),
                hit == reach@.take(j as int).contains(x),
            decreases reach@.len() - j,
        {
            let ghost had = reach@.take(j as int);
            let ghost more = reach@.take(j + 1);
            proof {
                assert(more =~= had.push(reach@[j as int]));
                if had.contains(x) {
                    let k = had.index_of(x);
                    assert(more[k] == x);
                }
                if reach@[j as int] == x {
                    assert(more[j as int] == x);
                }
            }
            if reach[j] == x {
                hit = true;
            }
            j += 1;
        }
        proof {
            assert(reach@.take(reach@.len() as int) =~= reach@);
        }
        out.push(hit);
        i += 1;
    }
    proof {
        assert(out@ =~= flt_links(from@, x));
    }
    out
}

/// The phase whose event is the first, from `k` on, to reach a sub-timer.
pub open spec fn phase_of_timer(
    edges: Seq<PhaseEdge>,
    phases: Seq<PhaseAllocation>,
    t: HrtimId,
    k: int,
) -> Option<usize>
    decreases edges.len() - k,
{
    if k >= edges.len() {
        None
    } else if edges[k].timer == t && phase_of_eev(phases, edges[k].eev) is Some {
        phase_of_eev(phases, edges[k].eev)
    } else {
        phase_of_timer(edges, phases, t, k + 1)
    }
}

fn find_phase_of_timer(edges: &[PhaseEdge], phases: &[PhaseAllocation], t: HrtimId) -> (r: Option<usize>)
    ensures
        r == phase_of_timer(edges@, phases@, t, 0),
{
    let mut i: usize = 0;
    while i < edges.len()
        invariant
            i <= edges@.len(),
            phase_of_timer(edges@, phases@, t, 0) == phase_of_timer(edges@, phases@, t, i as int),
        decreases edges@.len() - i,
    {
        if edges[i].timer == t {
            let p: Option<usize> = find_phase_of_eev(phases, edges[i].eev);
            if p.is_some() {
                return p;
            }
        }
        i += 1;
    }
    None
}

/// Whether a fault goes through an input: it then comes first.
pub open spec fn fault_place(fault: Option<ShortCircuitFault>, f: HrtimFltId) -> Option<usize> {
    match fault {
        Some(x) => if x.flt == f {
            Some(0)
        } else {
            None
        },
        None => None,
    }
}

/// The averages of nodes that stand in their own order.
pub open spec fn own_averages(n: nat) -> Seq<u64> {
    Seq::new(n, |i: int| (420 * i) as u64)
}

fn own_order(n: usize) -> (r: Vec<u64>)
    requires
        n <= 16,
    ensures
        r@ == own_averages(n as nat),
{
    let mut out: Vec<u64> = Vec::new();
    let mut i: usize = 0;
    while i < n
        invariant
            i <= n <= 16,
            out@ =~= own_averages(i as nat),
        decreases n - i,
    {
        out.push(420 * i as u64);
        i += 1;
    }
    out
}

/// The columns of the picture.
#[derive(Clone, Debug)]
pub struct Layout {
    pub dacs: Vec<DacId>,
    pub comps: Vec<CompId>,
    pub eevs: Vec<CrossbarSource>,
    pub timers: Vec<HrtimId>,
    pub flts: Vec<HrtimFltId>,
}

/// The column of DAC channels.
pub open spec fn dac_column(phases: Seq<PhaseAllocation>) -> Seq<DacId> {
    let v = all_dacs_seq();
    column(v, v.map_values(|d: DacId| phase_of_dac(phases, d)), own_averages(v.len()))
}

/// The column of comparators.
pub open spec fn comp_column(phases: Seq<PhaseAllocation>) -> Seq<CompId> {
    let v = all_comps_seq();
    let dacs = dac_column(phases);
    column(
        v,
        v.map_values(|c: CompId| phase_of_comp(phases, c)),
        v.map_values(|c: CompId| average(dac_links(dacs, c))),
    )
}

/// The column of events.
pub open spec fn eev_column(phases: Seq<PhaseAllocation>) -> Seq<CrossbarSource> {
    let v = all_eevs_seq();
    let comps = comp_column(phases);
    column(
        v,
        v.map_values(|e: CrossbarSource| phase_of_eev(phases, e)),
        v.map_values(|e: CrossbarSource| average(eev_links(comps, e))),
    )
}

/// The column of sub-timers.
pub open spec fn timer_column(phases: Seq<PhaseAllocation>, edges: Seq<PhaseEdge>) -> Seq<HrtimId> {
    let v = all_sub_timers_seq();
    column(
        v,
        v.map_values(|t: HrtimId| phase_of_timer(edges, phases, t, 0)),
        own_averages(v.len()),
    )
}

/// The column of fault inputs.
pub open spec fn flt_column(phases: Seq<PhaseAllocation>, fault: Option<ShortCircuitFault>) -> Seq<
    HrtimFltId,
> {
    let v = all_flts_seq();
    let comps = comp_column(phases);
    column(
        v,
        v.map_values(|f: HrtimFltId| fault_place(fault, f)),
        v.map_values(|f: HrtimFltId| average(flt_links(comps, f))),
    )
}

fn sort_dacs(phases: &[PhaseAllocation]) -> (r: Vec<DacId>)
    ensures
        r@ == dac_column(phases@),
        r@.len() == all_dacs_seq().len(),
{
    let v: Vec<DacId> = g474::all_dacs();
    let mut active: Vec<Option<usize>> = Vec::new();
    let averages: Vec<u64> = own_order(v.len());
    let mut i: usize = 0;
    while i < v.len()
        invariant
            i <= v@.len(),
            v@ == all_dacs_seq(),
            active@.len() == i,
            forall|k: int| 0 <= k < i ==> active@[k] == phase_of_dac(phases@, v@[k]),
        decreases v@.len() - i,
    {
        active.push(find_phase_of_dac(phases, v[i]));
        i += 1;
    }
    proof {
        assert(active@ =~= v@.map_values(|x: DacId| phase_of_dac(phases@, x)));
        order_of_is_stable(inner_keys(active@, averages@));
        let o = order_of(inner_keys(active@, averages@));
        order_of_is_stable(picked(tier_keys(active@), o));
    }
    sort_active_first(&v, &active, &averages)
}

fn sort_comps(phases: &[PhaseAllocation], prev: &[DacId]) -> (r: Vec<CompId>)
    requires
        prev@ == dac_column(phases@),
        prev@.len() <= 16,
    ensures
        r@ == comp_column(phases@),
        r@.len() == all_comps_seq().len(),
{
    let v: Vec<CompId> = g474::all_comps();
    let mut active: Vec<Option<usize>> = Vec::new();
    let mut averages: Vec<u64> = Vec::new();
    let mut i: usize = 0;
    while i < v.len()
        invariant
            i <= v@.len(),
            v@ == all_comps_seq(),
            active@.len() == i,
            forall|k: int| 0 <= k < i ==> active@[k] == phase_of_comp(phases@, v@[k]),
            forall|k: int| 0 <= k < i ==> averages@[k] == average(dac_links(prev@, v@[k])),
            averages@.len() == i,
            prev@.len() <= 16,
        decreases v@.len() - i,
    {
        active.push(find_phase_of_comp(phases, v[i]));
        let links: Vec<bool> = find_dac_links(prev, v[i]);
        averages.push(average_of(&links));
        i += 1;
    }
    proof {
        assert(active@ =~= v@.map_values(|x: CompId| phase_of_comp(phases@, x)));
        assert(averages@ =~= v@.map_values(|x: CompId| average(dac_links(prev@, x))));
        order_of_is_stable(inner_keys(active@, averages@));
        let o = order_of(inner_keys(active@, averages@));
        order_of_is_stable(picked(tier_keys(active@), o));
    }
    sort_active_first(&v, &active, &averages)
}

fn sort_eevs(phases: &[PhaseAllocation], prev: &[CompId]) -> (r: Vec<CrossbarSource>)
    requires
        prev@ == comp_column(phases@),
        prev@.len() <= 16,
    ensures
        r@ == eev_column(phases@),
        r@.len() == all_eevs_seq().len(),
{
    let v: Vec<CrossbarSource> = all_eevs();
    let mut active: Vec<Option<usize>> = Vec::new();
    let mut averages: Vec<u64> = Vec::new();
    let mut i: usize = 0;
    while i < v.len()
        invariant
            i <= v@.len(),
            v@ == all_eevs_seq(),
            active@.len() == i,
            forall|k: int| 0 <= k < i ==> active@[k] == phase_of_eev(phases@, v@[k]),
            forall|k: int| 0 <= k < i ==> averages@[k] == average(eev_links(prev@, v@[k])),
            averages@.len() == i,
            prev@.len() <= 16,
        decreases v@.len() - i,
    {
        active.push(find_phase_of_eev(phases, v[i]));
        let links: Vec<bool> = find_eev_links(prev, v[i]);
        averages.push(average_of(&links));
        i += 1;
    }
    proof {
        assert(active@ =~= v@.map_values(|x: CrossbarSource| phase_of_eev(phases@, x)));
        assert(averages@ =~= v@.map_values(|x: CrossbarSource| average(eev_links(prev@, x))));
        order_of_is_stable(inner_keys(active@, averages@));
        let o = order_of(inner_keys(active@, averages@));
        order_of_is_stable(picked(tier_keys(active@), o));
    }
    sort_active_first(&v, &active, &averages)
}

fn sort_timers(phases: &[PhaseAllocation], edges: &[PhaseEdge]) -> (r: Vec<HrtimId>)
    ensures
        r@ == timer_column(phases@, edges@),
        r@.len() == all_sub_timers_seq().len(),
{
    let v: Vec<HrtimId> = all_sub_timers();
    let mut active: Vec<Option<usize>> = Vec::new();
    let averages: Vec<u64> = own_order(v.len());
    let mut i: usize = 0;
    while i < v.len()
        invariant
            i <= v@.len(),
            v@ == all_sub_timers_seq(),
            active@.len() == i,
            forall|k: int| 0 <= k < i ==> active@[k] == phase_of_timer(edges@, phases@, v@[k], 0),
        decreases v@.len() - i,
    {
        active.push(find_phase_of_timer(edges, phases, v[i]));
        i += 1;
    }
    proof {
        assert(active@ =~= v@.map_values(|x: HrtimId| phase_of_timer(edges@, phases@, x, 0)));
        order_of_is_stable(inner_keys(active@, averages@));
        let o = order_of(inner_keys(active@, averages@));
        order_of_is_stable(picked(tier_keys(active@), o));
    }
    sort_active_first(&v, &active, &averages)
}

fn sort_flts(phases: Ghost<Seq<PhaseAllocation>>, fault: Option<ShortCircuitFault>, prev: &[CompId]) -> (r: Vec<HrtimFltId>)
    requires
        prev@ == comp_column(phases@),
        prev@.len() <= 16,
    ensures
        r@ == flt_column(phases@, fault),
        r@.len() == all_flts_seq().len(),
{
    let v: Vec<HrtimFltId> = all_flts();
    let mut active: Vec<Option<usize>> = Vec::new();
    let mut averages: Vec<u64> = Vec::new();
    let mut i: usize = 0;
    while i < v.len()
        invariant
            i <= v@.len(),
            v@ == all_flts_seq(),
            active@.len() == i,
            forall|k: int| 0 <= k < i ==> active@[k] == fault_place(fault, v@[k]),
            forall|k: int| 0 <= k < i ==> averages@[k] == average(flt_links(prev@, v@[k])),
            averages@.len() == i,
            prev@.len() <= 16,
        decreases v@.len() - i,
    {
        active.push(fault_at(fault, v[i]));
        let links: Vec<bool> = find_flt_links(prev, v[i]);
        averages.push(average_of(&links));
        i += 1;
    }
    proof {
        assert(active@ =~= v@.map_values(|x: HrtimFltId| fault_place(fault, x)));
        assert(averages@ =~= v@.map_values(|x: HrtimFltId| average(flt_links(prev@, x))));
        order_of_is_stable(inner_keys(active@, averages@));
        let o = order_of(inner_keys(active@, averages@));
        order_of_is_stable(picked(tier_keys(active@), o));
    }
    sort_active_first(&v, &active, &averages)
}

fn fault_at(fault: Option<ShortCircuitFault>, f: HrtimFltId) -> (r: Option<usize>)
    ensures
        r == fault_place(fault, f),
{
    match fault {
        Some(x) => if x.flt == f {
            Some(0)
        } else {
            None
        },
        None => None,
    }
}

impl Layout {
    /// The columns for what is selected. Each is ordered after the one before it.
    pub fn with_selection(
        phases: &[PhaseAllocation],
        edges: &[PhaseEdge],
        fault: Option<ShortCircuitFault>,
    ) -> (r: Layout)
        ensures
            r.dacs@ == dac_column(phases@),
            r.comps@ == comp_column(phases@),
            r.eevs@ == eev_column(phases@),
            r.timers@ == timer_column(phases@, edges@),
            r.flts@ == flt_column(phases@, fault),
    {
        let dacs: Vec<DacId> = sort_dacs(phases);
        let comps: Vec<CompId> = sort_comps(phases, &dacs);
        let eevs: Vec<CrossbarSource> = sort_eevs(phases, &comps);
        let timers: Vec<HrtimId> = sort_timers(phases, edges);
        let flts: Vec<HrtimFltId> = sort_flts(Ghost(phases@), fault, &comps);
        Layout { dacs, comps, eevs, timers, flts }
    }
}

/// Every node is in its column, whatever is selected: it can be found there and drawn.
pub proof fn every_node_is_drawn(
    phases: Seq<PhaseAllocation>,
    edges: Seq<PhaseEdge>,
    fault: Option<ShortCircuitFault>,
    d: int,
    c: int,
    e: int,
    t: int,
    f: int,
)
    requires
        0 <= d < all_dacs_seq().len(),
        0 <= c < all_comps_seq().len(),
        0 <= e < all_eevs_seq().len(),
        0 <= t < all_sub_timers_seq().len(),
        0 <= f < all_flts_seq().len(),
    ensures
        dac_column(phases).contains(all_dacs_seq()[d]),
        comp_column(phases).contains(all_comps_seq()[c]),
        eev_column(phases).contains(all_eevs_seq()[e]),
        timer_column(phases, edges).contains(all_sub_timers_seq()[t]),
        flt_column(phases, fault).contains(all_flts_seq()[f]),
{
    let dacs = dac_column(phases);
    let comps = comp_column(phases);
    let v = all_dacs_seq();
    column_has_all(v, v.map_values(|x: DacId| phase_of_dac(phases, x)), own_averages(v.len()), d);
    let w = all_comps_seq();
    column_has_all(
        w,
        w.map_values(|x: CompId| phase_of_comp(phases, x)),
        w.map_values(|x: CompId| average(dac_links(dacs, x))),
        c,
    );
    let u = all_eevs_seq();
    column_has_all(
        u,
        u.map_values(|x: CrossbarSource| phase_of_eev(phases, x)),
        u.map_values(|x: CrossbarSource| average(eev_links(comps, x))),
        e,
    );
    let s = all_sub_timers_seq();
    column_has_all(
        s,
        s.map_values(|x: HrtimId| phase_of_timer(edges, phases, x, 0)),
        own_averages(s.len()),
        t,
    );
    let r = all_flts_seq();
    column_has_all(
        r,
        r.map_values(|x: HrtimFltId| fault_place(fault, x)),
        r.map_values(|x: HrtimFltId| average(flt_links(comps, x))),
        f,
    );
}

} // verus!
