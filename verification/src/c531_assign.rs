//! Automatic routing of a converter: trips, thresholds and sense inputs that do not
//! conflict.

use vstd::prelude::*;

use crate::c531_design;
use crate::c531_design::bonded_channels;
use crate::c531_design::comp_numbered;
use crate::c531_design::dac_numbered;
use crate::c531_design::fabric_routes;
use crate::c531_design::holds_byte;
use crate::c531_design::holds_pair;
use crate::c531_design::level_dacs;
use crate::c531_design::routes_of;
use crate::c531_design::trip_comps;
use crate::c531_design::C531Design;
use crate::c531_design::ConverterLeg;
use crate::c531_design::ConverterView;
use crate::c531_design::Ocp;
use crate::c531_design::Routes;
use crate::frontend_plan::copy_list;
use crate::frontend_solver::count_some;
use crate::g474::adc_nr;
use crate::g474::tim_nr;
use crate::g474::AdcInstance;
use crate::mcu::ChipFabric;
use crate::mcu::Mcu;
use crate::mcu::McuDescriptor;
use crate::mcu::Package;
use crate::mcu_pinout;
use crate::mcu_pinout::rows_of;
use crate::mcu_pinout::AfRow;
use crate::mcu_raw::RawMcuData;

verus! {

/// The legs that could not be routed.
#[derive(Clone, Debug, PartialEq, Eq)]
pub struct AutoAssign {
    /// Legs whose trip has no free route.
    pub ocp_unassignable: Vec<usize>,
    /// Legs whose sense has no free input.
    pub sense_unassignable: Vec<usize>,
}

impl AutoAssign {
    /// Whether every leg was routed.
    pub fn fully_solved(&self) -> (r: bool)
        ensures
            r == (self.ocp_unassignable@.len() == 0 && self.sense_unassignable@.len() == 0),
    {
        self.ocp_unassignable.len() == 0 && self.sense_unassignable.len() == 0
    }
}

/// One route of a trip, with its threshold.
#[derive(Clone, Copy, Debug)]
pub struct OcpCand {
    pub comp: u8,
    pub brk: u8,
    pub dac: Option<(u8, u8)>,
}

/// The routes through one comparator: one without a threshold, or one for each DAC
/// channel that sets it.
pub open spec fn comp_cand(r: Routes, comp: u8, brk: u8, want_dac: bool) -> Seq<OcpCand> {
    if want_dac {
        level_dacs(r, comp).map_values(|d: (u8, u8)| OcpCand { comp, brk, dac: Some(d) })
    } else {
        seq![OcpCand { comp, brk, dac: None }]
    }
}

/// The routes through the first `n` comparators.
pub open spec fn comp_cands(r: Routes, comps: Seq<u8>, brk: u8, want_dac: bool, n: int) -> Seq<OcpCand>
    decreases n,
{
    if n <= 0 {
        Seq::empty()
    } else {
        comp_cands(r, comps, brk, want_dac, n - 1) + comp_cand(r, comps[n - 1], brk, want_dac)
    }
}

/// The routes to one break input.
pub open spec fn brk_cands(r: Routes, tim: u8, brk: u8, want_dac: bool) -> Seq<OcpCand> {
    let comps = trip_comps(r, tim, brk);
    comp_cands(r, comps, brk, want_dac, comps.len() as int)
}

/// The routes to a timer's break inputs, the first input first.
pub open spec fn ocp_cands(r: Routes, tim: u8, want_dac: bool) -> Seq<OcpCand> {
    brk_cands(r, tim, 1, want_dac) + brk_cands(r, tim, 2, want_dac)
}

fn push_brk_cands(f: &ChipFabric, tim: u8, brk: u8, want_dac: bool, out: &mut Vec<OcpCand>)
    ensures
        final(out)@ == old(out)@ + brk_cands(
            Routes { dacs: f.dac_to_comp@, breaks: f.comp_to_tim_break@ },
            tim,
            brk,
            want_dac,
        ),
{
    let ghost r = Routes { dacs: f.dac_to_comp@, breaks: f.comp_to_tim_break@ };
    let ghost base = out@;
    let comps: Vec<u8> = f.comps_for_tim_break(tim, brk);
    let mut i: usize = 0;
    proof {
        assert(out@ =~= base + comp_cands(r, comps@, brk, want_dac, 0));
    }
    while i < comps.len()
        invariant
            i <= comps@.len(),
            r == (Routes { dacs: f.dac_to_comp@, breaks: f.comp_to_tim_break@ }),
            out@ == base + comp_cands(r, comps@, brk, want_dac, i as int),
        decreases comps@.len() - i,
    {
        let comp: u8 = comps[i];
        let ghost had = out@;
        if want_dac {
            let dacs: Vec<(u8, u8)> = f.dac_threshold_sources_for_comp(comp);
            let ghost g = |d: (u8, u8)| OcpCand { comp, brk, dac: Some(d) };
            let mut k: usize = 0;
            proof {
                assert(out@ =~= had + dacs@.map_values(g).take(0));
            }
            while k < dacs.len()
                invariant
                    k <= dacs@.len(),
                    g == (|d: (u8, u8)| OcpCand { comp, brk, dac: Some(d) }),
                    out@ =~= had + dacs@.map_values(g).take(k as int),
                decreases dacs@.len() - k,
            {
                out.push(OcpCand { comp, brk, dac: Some(dacs[k]) });
                k += 1;
            }
            proof {
                assert(dacs@.map_values(g).take(k as int) =~= comp_cand(r, comp, brk, want_dac));
            }
        } else {
            out.push(OcpCand { comp, brk, dac: None });
        }
        proof {
            assert(out@ =~= had + comp_cand(r, comp, brk, want_dac));
            assert(out@ =~= base + comp_cands(r, comps@, brk, want_dac, i + 1));
        }
        i += 1;
    }
}

/// The routes to a timer's break inputs, the first input first.
pub fn ocp_candidates(f: &ChipFabric, tim: u8, want_dac: bool) -> (r: Vec<OcpCand>)
    ensures
        r@ == ocp_cands(
            Routes { dacs: f.dac_to_comp@, breaks: f.comp_to_tim_break@ },
            tim,
            want_dac,
        ),
{
    let mut out: Vec<OcpCand> = Vec::new();
    push_brk_cands(f, tim, 1, want_dac, &mut out);
    push_brk_cands(f, tim, 2, want_dac, &mut out);
    proof {
        assert(out@ =~= ocp_cands(
            Routes { dacs: f.dac_to_comp@, breaks: f.comp_to_tim_break@ },
            tim,
            want_dac,
        ));
    }
    out
}

/// The lists of candidates.
pub open spec fn cand_lists(v: Seq<Vec<OcpCand>>) -> Seq<Seq<OcpCand>> {
    v.map_values(|x: Vec<OcpCand>| x@)
}

/// The best routing found so far.
pub ghost struct Best {
    pub pick: Seq<Option<OcpCand>>,
    pub count: int,
}

/// Whether a candidate's comparator and DAC channel are free.
pub open spec fn is_free(c: OcpCand, comps: Seq<u8>, dacs: Seq<(u8, u8)>) -> bool {
    !comps.contains(c.comp) && (c.dac is Some ==> !dacs.contains(c.dac->0))
}

/// The DAC channels in use with a candidate's.
pub open spec fn dacs_with(dacs: Seq<(u8, u8)>, c: OcpCand) -> Seq<(u8, u8)> {
    match c.dac {
        Some(d) => dacs.push(d),
        None => dacs,
    }
}

/// The best routing after all ways to route the legs from `idx` on have been tried.
pub open spec fn explore(
    cands: Seq<Seq<OcpCand>>,
    idx: int,
    cur: Seq<Option<OcpCand>>,
    comps: Seq<u8>,
    dacs: Seq<(u8, u8)>,
    best: Best,
) -> Best
    decreases
            cands.len() - idx,
            (if 0 <= idx < cands.len() {
                cands[idx].len() as int
            } else {
                0
            }) + 1,
{
    if idx < 0 || idx >= cands.len() {
        let count = count_some(cur, cur.len() as int);
        if count > best.count {
            Best { pick: cur, count }
        } else {
            best
        }
    } else {
        let skipped = explore(cands, idx + 1, cur, comps, dacs, best);
        explore_from(cands, idx, 0, cur, comps, dacs, skipped)
    }
}

/// The best routing after the candidates of leg `idx` from `k` on have been tried too.
pub open spec fn explore_from(
    cands: Seq<Seq<OcpCand>>,
    idx: int,
    k: int,
    cur: Seq<Option<OcpCand>>,
    comps: Seq<u8>,
    dacs: Seq<(u8, u8)>,
    best: Best,
) -> Best
    decreases
            cands.len() - idx,
            (if 0 <= idx < cands.len() {
                cands[idx].len() as int
            } else {
                0
            }) - k,
{
    if idx < 0 || idx >= cands.len() || k < 0 || k >= cands[idx].len() {
        best
    } else {
        let c = cands[idx][k];
        let next = if is_free(c, comps, dacs) {
            explore(
                cands,
                idx + 1,
                cur.update(idx, Some(c)),
                comps.push(c.comp),
                dacs_with(dacs, c),
                best,
            )
        } else {
            best
        };
        explore_from(cands, idx, k + 1, cur, comps, dacs, next)
    }
}

/// No leg routed.
pub open spec fn none_routed(n: int) -> Seq<Option<OcpCand>> {
    Seq::new(n as nat, |i: int| None)
}

/// The routing of as many legs as possible.
pub open spec fn best_routing(cands: Seq<Seq<OcpCand>>) -> Seq<Option<OcpCand>> {
    let none = none_routed(cands.len() as int);
    explore(cands, 0, none, Seq::empty(), Seq::empty(), Best { pick: none, count: 0 }).pick
}

fn count_routed(v: &[Option<OcpCand>]) -> (r: usize)
    ensures
        r == count_some(v@, v@.len() as int),
{
    let mut r: usize = 0;
    let mut i: usize = 0;
    while i < v.len()
        invariant
            i <= v@.len(),
            r <= i,
            r == count_some(v@, i as int),
        decreases v@.len() - i,
    {
        if v[i].is_some() {
            r += 1;
        }
        i += 1;
    }
    r
}

fn rec_ocp(
    cands: &[Vec<OcpCand>],
    idx: usize,
    cur: &mut Vec<Option<OcpCand>>,
    comps: &mut Vec<u8>,
    dacs: &mut Vec<(u8, u8)>,
    best: &mut Vec<Option<OcpCand>>,
    best_count: &mut usize,
)
    requires
        idx <= cands@.len(),
        old(cur)@.len() == cands@.len(),
        forall|j: int| idx <= j < cands@.len() ==> (#[trigger] old(cur)@[j]) is None,
    ensures
        final(cur)@ == old(cur)@,
        final(comps)@ == old(comps)@,
        final(dacs)@ == old(dacs)@,
        (Best { pick: final(best)@, count: *final(best_count) as int }) == explore(
            cand_lists(cands@),
            idx as int,
            old(cur)@,
            old(comps)@,
            old(dacs)@,
            Best { pick: old(best)@, count: *old(best_count) as int },
        ),
    decreases cands@.len() - idx,
{
    let ghost lists = cand_lists(cands@);
    let ghost cur0 = cur@;
    let ghost comps0 = comps@;
    let ghost dacs0 = dacs@;
    let ghost best0 = Best { pick: best@, count: *best_count as int };
    let total: usize = cands.len();
    if idx == total {
        let count: usize = count_routed(cur);
        if count > *best_count {
            *best_count = count;
            *best = copy_list(cur);
        }
        return;
    }
    rec_ocp(cands, idx + 1, cur, comps, dacs, best, best_count);
    let list: &Vec<OcpCand> = &cands[idx];
    proof {
        assert(lists[idx as int] == list@);
    }
    let mut k: usize = 0;
    while k < list.len()
        invariant
            k <= list@.len(),
            idx < total,
            total == cands@.len(),
            lists == cand_lists(cands@),
            lists[idx as int] == list@,
            cur@ == cur0,
            comps@ == comps0,
            dacs@ == dacs0,
            cur0.len() == cands@.len(),
            forall|j: int| idx <= j < cands@.len() ==> (#[trigger] cur0[j]) is None,
            explore(lists, idx as int, cur0, comps0, dacs0, best0) == explore_from(
                lists,
                idx as int,
                k as int,
                cur0,
                comps0,
                dacs0,
                Best { pick: best@, count: *best_count as int },
            ),
        decreases list@.len() - k,
    {
        let c: OcpCand = list[k];
        let dac_free: bool = match c.dac {
            Some(d) => !holds_pair(dacs, d),
            None => true,
        };
        if !holds_byte(comps, c.comp) && dac_free {
            cur.set(idx, Some(c));
            comps.push(c.comp);
            if let Some(d) = c.dac {
                dacs.push(d);
            }
            proof {
                assert(dacs@ == dacs_with(dacs0, c));
            }
            rec_ocp(cands, idx + 1, cur, comps, dacs, best, best_count);
            comps.pop();
            if c.dac.is_some() {
                dacs.pop();
            }
            cur.set(idx, None);
            proof {
                assert(comps@ =~= comps0);
                assert(dacs@ =~= dacs0);
                assert(cur@ =~= cur0);
            }
        }
        k += 1;
    }
}

/// Route as many legs as possible on different comparators and DAC channels.
pub fn max_ocp_assignment(cands: &[Vec<OcpCand>]) -> (r: Vec<Option<OcpCand>>)
    ensures
        r@ == best_routing(cand_lists(cands@)),
        r@.len() == cands@.len(),
{
    let n: usize = cands.len();
    let mut cur: Vec<Option<OcpCand>> = Vec::new();
    let mut best: Vec<Option<OcpCand>> = Vec::new();
    let mut i: usize = 0;
    while i < n
        invariant
            i <= n,
            cur@ =~= none_routed(i as int),
            best@ =~= none_routed(i as int),
        decreases n - i,
    {
        cur.push(None);
        best.push(None);
        i += 1;
    }
    let mut comps: Vec<u8> = Vec::new();
    let mut dacs: Vec<(u8, u8)> = Vec::new();
    let mut count: usize = 0;
    let ghost lists = cand_lists(cands@);
    proof {
        assert(comps@ =~= Seq::<u8>::empty());
        assert(dacs@ =~= Seq::<(u8, u8)>::empty());
        explore_keeps(
            lists,
            0,
            cur@,
            comps@,
            dacs@,
            Best { pick: best@, count: 0 },
        );
    }
    rec_ocp(cands, 0, &mut cur, &mut comps, &mut dacs, &mut best, &mut count);
    best
}

/// Whether a routing takes each leg's route from its candidates, and no comparator or
/// DAC channel twice.
pub open spec fn is_routing(cands: Seq<Seq<OcpCand>>, m: Seq<Option<OcpCand>>) -> bool {
    &&& m.len() == cands.len()
    &&& forall|i: int|
        0 <= i < m.len() ==> (#[trigger] m[i] matches Some(c) ==> cands[i].contains(c))
    &&& forall|i: int, j: int|
        #![trigger m[i], m[j]]
        0 <= i < j < m.len() && m[i] is Some && m[j] is Some ==> compatible(m[i]->0, m[j]->0)
}

/// Whether two routes share neither comparator nor DAC channel.
pub open spec fn compatible(a: OcpCand, b: OcpCand) -> bool {
    a.comp != b.comp && (a.dac is Some ==> a.dac != b.dac)
}

/// A routing of the legs before `idx`, and what it uses.
spec fn is_partial(
    cands: Seq<Seq<OcpCand>>,
    idx: int,
    cur: Seq<Option<OcpCand>>,
    comps: Seq<u8>,
    dacs: Seq<(u8, u8)>,
) -> bool {
    &&& is_routing(cands, cur)
    &&& forall|j: int| idx <= j < cur.len() ==> (#[trigger] cur[j]) is None
    &&& forall|j: int|
        0 <= j < cur.len() && (#[trigger] cur[j]) is Some ==> comps.contains(cur[j]->0.comp) && (
        cur[j]->0.dac is Some ==> dacs.contains(cur[j]->0.dac->0))
    &&& forall|x: int| 0 <= x < comps.len() ==> uses_comp(cur, #[trigger] comps[x])
    &&& forall|x: int| 0 <= x < dacs.len() ==> uses_dac(cur, #[trigger] dacs[x])
}

/// Whether a routed leg uses the comparator.
spec fn uses_comp(cur: Seq<Option<OcpCand>>, comp: u8) -> bool {
    exists|j: int| 0 <= j < cur.len() && (#[trigger] cur[j]) is Some && cur[j]->0.comp == comp
}

/// Whether a routed leg uses the DAC channel.
spec fn uses_dac(cur: Seq<Option<OcpCand>>, dac: (u8, u8)) -> bool {
    exists|j: int|
        0 <= j < cur.len() && (#[trigger] cur[j]) is Some && cur[j]->0.dac == Some(dac)
}

/// The best routing so far is one, and is counted rightly.
spec fn best_well(cands: Seq<Seq<OcpCand>>, b: Best) -> bool {
    b.pick.len() == cands.len() && is_routing(cands, b.pick) && b.count == count_some(
        b.pick,
        b.pick.len() as int,
    )
}

proof fn step_partial(
    cands: Seq<Seq<OcpCand>>,
    idx: int,
    cur: Seq<Option<OcpCand>>,
    comps: Seq<u8>,
    dacs: Seq<(u8, u8)>,
    c: OcpCand,
)
    requires
        is_partial(cands, idx, cur, comps, dacs),
        0 <= idx < cands.len(),
        cands[idx].contains(c),
        is_free(c, comps, dacs),
    ensures
        is_partial(cands, idx + 1, cur.update(idx, Some(c)), comps.push(c.comp), dacs_with(dacs, c)),
{
    let next = cur.update(idx, Some(c));
    let cs = comps.push(c.comp);
    let ds = dacs_with(dacs, c);
    assert(cs[comps.len() as int] == c.comp);
    if c.dac is Some {
        assert(ds[dacs.len() as int] == c.dac->0);
    }
    assert forall|j: int| 0 <= j < next.len() && (#[trigger] next[j]) is Some implies cs.contains(
        next[j]->0.comp,
    ) && (next[j]->0.dac is Some ==> ds.contains(next[j]->0.dac->0)) by {
        if j != idx {
            assert(next[j] == cur[j]);
            let x = choose|x: int| 0 <= x < comps.len() && comps[x] == cur[j]->0.comp;
            assert(cs[x] == cur[j]->0.comp);
            if cur[j]->0.dac is Some {
                let y = choose|y: int| 0 <= y < dacs.len() && dacs[y] == cur[j]->0.dac->0;
                assert(ds[y] == cur[j]->0.dac->0);
            }
        }
    }
    assert forall|i: int, j: int|
        #![trigger next[i], next[j]]
        0 <= i < j < next.len() && next[i] is Some && next[j] is Some implies compatible(
        next[i]->0,
        next[j]->0,
    ) by {
        if i != idx && j != idx {
            assert(next[i] == cur[i] && next[j] == cur[j]);
        } else if j == idx {
            assert(next[i] == cur[i]);
            assert(comps.contains(cur[i]->0.comp));
        } else {
            assert(next[j] == cur[j]);
            assert(cur[j] is None);
        }
    }
    assert forall|x: int| 0 <= x < cs.len() implies uses_comp(next, #[trigger] cs[x]) by {
        if x < comps.len() {
            assert(uses_comp(cur, comps[x]));
            let j = choose|j: int|
                0 <= j < cur.len() && (#[trigger] cur[j]) is Some && cur[j]->0.comp == comps[x];
            assert(next[j] == cur[j]);
        } else {
            assert(next[idx] is Some);
        }
    }
    assert forall|x: int| 0 <= x < ds.len() implies uses_dac(next, #[trigger] ds[x]) by {
        if x < dacs.len() {
            assert(uses_dac(cur, dacs[x]));
            let j = choose|j: int|
                0 <= j < cur.len() && (#[trigger] cur[j]) is Some && cur[j]->0.dac == Some(dacs[x]);
            assert(next[j] == cur[j]);
        } else {
            assert(next[idx] is Some);
        }
    }
    assert forall|i: int| 0 <= i < next.len() implies (#[trigger] next[i] matches Some(x)
        ==> cands[i].contains(x)) by {
        if i != idx {
            assert(next[i] == cur[i]);
        }
    }
}

proof fn explore_keeps(
    cands: Seq<Seq<OcpCand>>,
    idx: int,
    cur: Seq<Option<OcpCand>>,
    comps: Seq<u8>,
    dacs: Seq<(u8, u8)>,
    best: Best,
)
    requires
        0 <= idx <= cands.len(),
        cur.len() == cands.len(),
        best.pick.len() == cands.len(),
    ensures
        explore(cands, idx, cur, comps, dacs, best).pick.len() == cands.len(),
    decreases
            cands.len() - idx,
            (if 0 <= idx < cands.len() {
                cands[idx].len() as int
            } else {
                0
            }) + 1,
{
    if idx < cands.len() {
        explore_keeps(cands, idx + 1, cur, comps, dacs, best);
        explore_from_keeps(
            cands,
            idx,
            0,
            cur,
            comps,
            dacs,
            explore(cands, idx + 1, cur, comps, dacs, best),
        );
    }
}

proof fn explore_from_keeps(
    cands: Seq<Seq<OcpCand>>,
    idx: int,
    k: int,
    cur: Seq<Option<OcpCand>>,
    comps: Seq<u8>,
    dacs: Seq<(u8, u8)>,
    best: Best,
)
    requires
        0 <= idx < cands.len(),
        0 <= k,
        cur.len() == cands.len(),
        best.pick.len() == cands.len(),
    ensures
        explore_from(cands, idx, k, cur, comps, dacs, best).pick.len() == cands.len(),
    decreases cands.len() - idx, cands[idx].len() - k,
{
    if k < cands[idx].len() {
        let c = cands[idx][k];
        if is_free(c, comps, dacs) {
            explore_keeps(
                cands,
                idx + 1,
                cur.update(idx, Some(c)),
                comps.push(c.comp),
                dacs_with(dacs, c),
                best,
            );
            explore_from_keeps(
                cands,
                idx,
                k + 1,
                cur,
                comps,
                dacs,
                explore(
                    cands,
                    idx + 1,
                    cur.update(idx, Some(c)),
                    comps.push(c.comp),
                    dacs_with(dacs, c),
                    best,
                ),
            );
        } else {
            explore_from_keeps(cands, idx, k + 1, cur, comps, dacs, best);
        }
    }
}

/// Whether a routing continues another that is fixed before `idx`.
spec fn continues(m: Seq<Option<OcpCand>>, cur: Seq<Option<OcpCand>>, idx: int) -> bool {
    m.len() == cur.len() && forall|j: int| 0 <= j < idx ==> #[trigger] m[j] == cur[j]
}

proof fn explore_is_best(
    cands: Seq<Seq<OcpCand>>,
    idx: int,
    cur: Seq<Option<OcpCand>>,
    comps: Seq<u8>,
    dacs: Seq<(u8, u8)>,
    best: Best,
    m: Seq<Option<OcpCand>>,
)
    requires
        0 <= idx <= cands.len(),
        is_partial(cands, idx, cur, comps, dacs),
        best_well(cands, best),
    ensures
        best_well(cands, explore(cands, idx, cur, comps, dacs, best)),
        explore(cands, idx, cur, comps, dacs, best).count >= best.count,
        is_routing(cands, m) && continues(m, cur, idx) ==> explore(
            cands,
            idx,
            cur,
            comps,
            dacs,
            best,
        ).count >= count_some(m, m.len() as int),
    decreases
            cands.len() - idx,
            (if 0 <= idx < cands.len() {
                cands[idx].len() as int
            } else {
                0
            }) + 1,
{
    if idx >= cands.len() {
        if continues(m, cur, idx) {
            assert(m =~= cur);
        }
    } else {
        explore_is_best(cands, idx + 1, cur, comps, dacs, best, m);
        let skipped = explore(cands, idx + 1, cur, comps, dacs, best);
        explore_from_is_best(cands, idx, 0, cur, comps, dacs, skipped, m);
        if is_routing(cands, m) && continues(m, cur, idx) {
            if m[idx] is None {
                assert forall|j: int| 0 <= j < idx + 1 implies #[trigger] m[j] == cur[j] by {}
                assert(continues(m, cur, idx + 1));
            } else {
                let c = m[idx]->0;
                assert(cands[idx].contains(c));
                let k = choose|k: int| 0 <= k < cands[idx].len() && cands[idx][k] == c;
                assert(cands[idx][k] == c);
            }
        }
    }
}

proof fn explore_from_is_best(
    cands: Seq<Seq<OcpCand>>,
    idx: int,
    k: int,
    cur: Seq<Option<OcpCand>>,
    comps: Seq<u8>,
    dacs: Seq<(u8, u8)>,
    best: Best,
    m: Seq<Option<OcpCand>>,
)
    requires
        0 <= idx < cands.len(),
        0 <= k,
        is_partial(cands, idx, cur, comps, dacs),
        best_well(cands, best),
    ensures
        best_well(cands, explore_from(cands, idx, k, cur, comps, dacs, best)),
        explore_from(cands, idx, k, cur, comps, dacs, best).count >= best.count,
        is_routing(cands, m) && continues(m, cur, idx) && m[idx] is Some && (exists|x: int|
            k <= x < cands[idx].len() && #[trigger] cands[idx][x] == m[idx]->0) ==> explore_from(
            cands,
            idx,
            k,
            cur,
            comps,
            dacs,
            best,
        ).count >= count_some(m, m.len() as int),
    decreases cands.len() - idx, cands[idx].len() - k,
{
    if k < cands[idx].len() {
        let c = cands[idx][k];
        assert(cands[idx].contains(c));
        let next = if is_free(c, comps, dacs) {
            explore(
                cands,
                idx + 1,
                cur.update(idx, Some(c)),
                comps.push(c.comp),
                dacs_with(dacs, c),
                best,
            )
        } else {
            best
        };
        if is_free(c, comps, dacs) {
            step_partial(cands, idx, cur, comps, dacs, c);
            explore_is_best(
                cands,
                idx + 1,
                cur.update(idx, Some(c)),
                comps.push(c.comp),
                dacs_with(dacs, c),
                best,
                m,
            );
        }
        explore_from_is_best(cands, idx, k + 1, cur, comps, dacs, next, m);
        if is_routing(cands, m) && continues(m, cur, idx) && m[idx] is Some && (exists|x: int|
            k <= x < cands[idx].len() && #[trigger] cands[idx][x] == m[idx]->0) {
            let x = choose|x: int|
                k <= x < cands[idx].len() && #[trigger] cands[idx][x] == m[idx]->0;
            if x == k {
                continued_is_free(cands, idx, cur, comps, dacs, m);
                let cur2 = cur.update(idx, Some(c));
                assert forall|j: int| 0 <= j < idx + 1 implies #[trigger] m[j] == cur2[j] by {}
                assert(continues(m, cur2, idx + 1));
            } else {
                assert(cands[idx][x] == m[idx]->0);
            }
        }
    }
}

proof fn continued_is_free(
    cands: Seq<Seq<OcpCand>>,
    idx: int,
    cur: Seq<Option<OcpCand>>,
    comps: Seq<u8>,
    dacs: Seq<(u8, u8)>,
    m: Seq<Option<OcpCand>>,
)
    requires
        0 <= idx < cands.len(),
        is_partial(cands, idx, cur, comps, dacs),
        is_routing(cands, m),
        continues(m, cur, idx),
        m[idx] is Some,
    ensures
        is_free(m[idx]->0, comps, dacs),
{
    let c = m[idx]->0;
    if comps.contains(c.comp) {
        let x = choose|x: int| 0 <= x < comps.len() && comps[x] == c.comp;
        assert(uses_comp(cur, comps[x]));
        let j = choose|j: int|
            0 <= j < cur.len() && (#[trigger] cur[j]) is Some && cur[j]->0.comp == c.comp;
        assert(j < idx);
        assert(m[j] == cur[j]);
        assert(compatible(m[j]->0, m[idx]->0));
    }
    if c.dac is Some && dacs.contains(c.dac->0) {
        let x = choose|x: int| 0 <= x < dacs.len() && dacs[x] == c.dac->0;
        assert(uses_dac(cur, dacs[x]));
        let j = choose|j: int|
            0 <= j < cur.len() && (#[trigger] cur[j]) is Some && cur[j]->0.dac == c.dac;
        assert(j < idx);
        assert(m[j] == cur[j]);
        assert(compatible(m[j]->0, m[idx]->0));
    }
}

proof fn none_counts(n: int, k: int)
    requires
        0 <= k <= n,
    ensures
        count_some(none_routed(n), k) == 0,
    decreases k,
{
    if k > 0 {
        none_counts(n, k - 1);
    }
}

/// The routing found is one, and no routing routes more legs.
pub proof fn routing_is_maximum(cands: Seq<Seq<OcpCand>>, m: Seq<Option<OcpCand>>)
    requires
        is_routing(cands, m),
    ensures
        is_routing(cands, best_routing(cands)),
        count_some(best_routing(cands), cands.len() as int) >= count_some(m, cands.len() as int),
{
    let n = cands.len() as int;
    let none = none_routed(n);
    none_counts(n, n);
    let b = Best { pick: none, count: 0 };
    assert(is_partial(cands, 0, none, Seq::empty(), Seq::empty()));
    explore_is_best(cands, 0, none, Seq::empty(), Seq::empty(), b, m);
}

/// The routing found is one.
pub proof fn routing_is_sound(cands: Seq<Seq<OcpCand>>)
    ensures
        is_routing(cands, best_routing(cands)),
        best_routing(cands).len() == cands.len(),
{
    let none = none_routed(cands.len() as int);
    assert(is_routing(cands, none));
    routing_is_maximum(cands, none);
}

/// The legs among the first `n` that have a trip.
pub open spec fn trip_legs(legs: Seq<ConverterLeg>, n: int) -> Seq<usize>
    decreases n,
{
    if n <= 0 {
        Seq::empty()
    } else if legs[n - 1].ocp is Some {
        trip_legs(legs, n - 1).push((n - 1) as usize)
    } else {
        trip_legs(legs, n - 1)
    }
}

/// Whether a leg's trip wants a threshold.
pub open spec fn wants_dac(leg: ConverterLeg) -> bool {
    leg.ocp is Some && leg.ocp->0.threshold_dac is Some
}

/// The candidates of the listed legs.
pub open spec fn leg_cands(r: Routes, legs: Seq<ConverterLeg>, list: Seq<usize>) -> Seq<Seq<OcpCand>> {
    list.map_values(
        |i: usize| ocp_cands(r, tim_nr(legs[i as int].tim), wants_dac(legs[i as int])),
    )
}

/// A leg with its trip on a route.
pub open spec fn route_leg(leg: ConverterLeg, c: OcpCand) -> ConverterLeg {
    ConverterLeg {
        ocp: Some(
            Ocp {
                comp: comp_numbered(c.comp)->0,
                break_input: c.brk,
                threshold_dac: match c.dac {
                    Some(d) => dac_numbered(d.0, d.1),
                    None => None,
                },
            },
        ),
        ..leg
    }
}

/// The legs after the first `n` listed ones are routed.
pub open spec fn routed_legs(
    legs: Seq<ConverterLeg>,
    list: Seq<usize>,
    pick: Seq<Option<OcpCand>>,
    n: int,
) -> Seq<ConverterLeg>
    decreases n,
{
    if n <= 0 {
        legs
    } else {
        let before = routed_legs(legs, list, pick, n - 1);
        match pick[n - 1] {
            Some(c) => before.update(
                list[n - 1] as int,
                route_leg(before[list[n - 1] as int], c),
            ),
            None => before,
        }
    }
}

/// The first `n` listed legs that found no route.
pub open spec fn unrouted(list: Seq<usize>, pick: Seq<Option<OcpCand>>, n: int) -> Seq<usize>
    decreases n,
{
    if n <= 0 {
        Seq::empty()
    } else if pick[n - 1] is None {
        unrouted(list, pick, n - 1).push(list[n - 1])
    } else {
        unrouted(list, pick, n - 1)
    }
}

/// The inputs in use, and the legs that need another one.
pub ghost struct Senses {
    pub used: Seq<(u8, u8)>,
    pub again: Seq<usize>,
}

/// Keep the inputs of the first `n` legs that have a pin and are not in use.
pub open spec fn kept_senses(rows: Seq<AfRow>, legs: Seq<ConverterLeg>, n: int) -> Senses
    decreases n,
{
    if n <= 0 {
        Senses { used: Seq::empty(), again: Seq::empty() }
    } else {
        let s = kept_senses(rows, legs, n - 1);
        match legs[n - 1].adc_sense {
            Some(x) => if bonded_channels(rows, adc_nr(x.0)).contains(x.1) && !s.used.contains(
                (adc_nr(x.0), x.1),
            ) {
                Senses { used: s.used.push((adc_nr(x.0), x.1)), ..s }
            } else {
                Senses { again: s.again.push((n - 1) as usize), ..s }
            },
            None => s,
        }
    }
}

/// The first channel of a list, from position `k` on, that is not in use.
pub open spec fn free_channel(list: Seq<u8>, adc: u8, used: Seq<(u8, u8)>, k: int) -> Option<u8>
    decreases list.len() - k,
{
    if k < 0 || k >= list.len() {
        None
    } else if !used.contains((adc, list[k])) {
        Some(list[k])
    } else {
        free_channel(list, adc, used, k + 1)
    }
}

/// The legs, the inputs in use, and the legs that found none.
pub ghost struct Resensed {
    pub legs: Seq<ConverterLeg>,
    pub used: Seq<(u8, u8)>,
    pub failed: Seq<usize>,
}

/// Give the first `n` listed legs a free input of their ADC.
pub open spec fn resensed(rows: Seq<AfRow>, legs: Seq<ConverterLeg>, s: Senses, n: int) -> Resensed
    decreases n,
{
    if n <= 0 {
        Resensed { legs, used: s.used, failed: Seq::empty() }
    } else {
        let t = resensed(rows, legs, s, n - 1);
        let i = s.again[n - 1];
        let adc = sense_adc(t.legs[i as int]);
        match free_channel(bonded_channels(rows, adc_nr(adc)), adc_nr(adc), t.used, 0) {
            Some(ch) => Resensed {
                legs: t.legs.update(
                    i as int,
                    ConverterLeg { adc_sense: Some((adc, ch)), ..t.legs[i as int] },
                ),
                used: t.used.push((adc_nr(adc), ch)),
                ..t
            },
            None => Resensed { failed: t.failed.push(i), ..t },
        }
    }
}

/// The ADC that senses a leg.
pub open spec fn sense_adc(leg: ConverterLeg) -> AdcInstance {
    let (adc, ch) = leg.adc_sense->0;
    adc
}

/// The outcome of automatic routing.
pub ghost struct Assigned {
    pub legs: Seq<ConverterLeg>,
    pub ocp_unassignable: Seq<usize>,
    pub sense_unassignable: Seq<usize>,
}

/// Route the legs on a chip with known routes.
pub open spec fn assigned(rows: Seq<AfRow>, r: Routes, legs: Seq<ConverterLeg>) -> Assigned {
    let list = trip_legs(legs, legs.len() as int);
    let pick = best_routing(leg_cands(r, legs, list));
    let routed = routed_legs(legs, list, pick, list.len() as int);
    let s = kept_senses(rows, routed, routed.len() as int);
    let t = resensed(rows, routed, s, s.again.len() as int);
    Assigned {
        legs: t.legs,
        ocp_unassignable: unrouted(list, pick, list.len() as int),
        sense_unassignable: t.failed,
    }
}

/// Route the legs; where the routes are not known, nothing changes.
pub open spec fn auto_assigned(rows: Seq<AfRow>, r: Option<Routes>, legs: Seq<ConverterLeg>) -> Assigned {
    match r {
        Some(x) => assigned(rows, x, legs),
        None => Assigned {
            legs,
            ocp_unassignable: Seq::empty(),
            sense_unassignable: Seq::empty(),
        },
    }
}

/// Every comparator and DAC channel of the routes is one that a converter can name.
pub open spec fn routes_known(r: Routes) -> bool {
    &&& forall|i: int|
        0 <= i < r.breaks.len() ==> comp_numbered((#[trigger] r.breaks[i]).0) is Some
    &&& forall|i: int|
        0 <= i < r.dacs.len() ==> dac_numbered((#[trigger] r.dacs[i]).0, r.dacs[i].1) is Some
}

proof fn trip_comps_known(r: Routes, tim: u8, input: u8, n: int)
    requires
        routes_known(r),
        0 <= n <= r.breaks.len(),
    ensures
        forall|k: int|
            0 <= k < crate::mcu::break_comps(r.breaks, tim, input, n).len() ==> comp_numbered(
                #[trigger] crate::mcu::break_comps(r.breaks, tim, input, n)[k],
            ) is Some,
    decreases n,
{
    if n > 0 {
        trip_comps_known(r, tim, input, n - 1);
        assert(comp_numbered(r.breaks[n - 1].0) is Some);
    }
}

proof fn level_dacs_known(r: Routes, comp: u8, n: int)
    requires
        routes_known(r),
        0 <= n <= r.dacs.len(),
    ensures
        forall|k: int|
            0 <= k < crate::mcu::threshold_dacs(r.dacs, comp, n).len() ==> {
                let d = #[trigger] crate::mcu::threshold_dacs(r.dacs, comp, n)[k];
                dac_numbered(d.0, d.1) is Some
            },
    decreases n,
{
    if n > 0 {
        level_dacs_known(r, comp, n - 1);
        assert(dac_numbered(r.dacs[n - 1].0, r.dacs[n - 1].1) is Some);
    }
}

/// What holds of a candidate: its comparator reaches the break input, its DAC channel
/// the comparator, and it has one exactly if one is wanted.
pub open spec fn cand_well(r: Routes, tim: u8, want_dac: bool, c: OcpCand) -> bool {
    &&& trip_comps(r, tim, c.brk).contains(c.comp)
    &&& c.dac is Some <==> want_dac
    &&& c.dac is Some ==> level_dacs(r, c.comp).contains(c.dac->0)
}

proof fn comp_cands_well(r: Routes, tim: u8, brk: u8, want_dac: bool, n: int)
    requires
        0 <= n <= trip_comps(r, tim, brk).len(),
    ensures
        forall|k: int|
            0 <= k < comp_cands(r, trip_comps(r, tim, brk), brk, want_dac, n).len() ==> cand_well(
                r,
                tim,
                want_dac,
                #[trigger] comp_cands(r, trip_comps(r, tim, brk), brk, want_dac, n)[k],
            ),
    decreases n,
{
    if n > 0 {
        comp_cands_well(r, tim, brk, want_dac, n - 1);
        let comps = trip_comps(r, tim, brk);
        let a = comp_cands(r, comps, brk, want_dac, n - 1);
        let b = comp_cand(r, comps[n - 1], brk, want_dac);
        let v = comp_cands(r, comps, brk, want_dac, n);
        assert forall|k: int| 0 <= k < v.len() implies cand_well(
            r,
            tim,
            want_dac,
            #[trigger] v[k],
        ) by {
            if k < a.len() {
                assert(v[k] == a[k]);
            } else {
                assert(v[k] == b[k - a.len()]);
                assert(comps.contains(comps[n - 1]));
                if want_dac {
                    let d = level_dacs(r, comps[n - 1])[k - a.len()];
                    assert(level_dacs(r, comps[n - 1]).contains(d));
                }
            }
        }
    }
}

/// Every candidate is well.
pub proof fn ocp_cands_well(r: Routes, tim: u8, want_dac: bool, c: OcpCand)
    requires
        ocp_cands(r, tim, want_dac).contains(c),
    ensures
        cand_well(r, tim, want_dac, c),
{
    let a = brk_cands(r, tim, 1, want_dac);
    let b = brk_cands(r, tim, 2, want_dac);
    comp_cands_well(r, tim, 1, want_dac, trip_comps(r, tim, 1).len() as int);
    comp_cands_well(r, tim, 2, want_dac, trip_comps(r, tim, 2).len() as int);
    let v = ocp_cands(r, tim, want_dac);
    let k = choose|k: int| 0 <= k < v.len() && v[k] == c;
    if k < a.len() {
        assert(v[k] == a[k]);
    } else {
        assert(v[k] == b[k - a.len()]);
    }
}

/// A candidate's comparator and DAC channel can be named.
pub proof fn cand_known(r: Routes, tim: u8, want_dac: bool, c: OcpCand)
    requires
        routes_known(r),
        cand_well(r, tim, want_dac, c),
    ensures
        comp_numbered(c.comp) is Some,
        c.dac matches Some(d) ==> dac_numbered(d.0, d.1) is Some,
{
    trip_comps_known(r, tim, c.brk, r.breaks.len() as int);
    let comps = trip_comps(r, tim, c.brk);
    let k = choose|k: int| 0 <= k < comps.len() && comps[k] == c.comp;
    assert(comp_numbered(comps[k]) is Some);
    if c.dac is Some {
        level_dacs_known(r, c.comp, r.dacs.len() as int);
        let dacs = level_dacs(r, c.comp);
        let x = choose|x: int| 0 <= x < dacs.len() && dacs[x] == c.dac->0;
        assert(dac_numbered(dacs[x].0, dacs[x].1) is Some);
    }
}

/// What `trip_legs` lists: each leg with a trip once, ascending.
pub proof fn trip_legs_facts(legs: Seq<ConverterLeg>, n: int)
    requires
        0 <= n <= legs.len(),
        legs.len() <= usize::MAX,
    ensures
        forall|k: int|
            0 <= k < trip_legs(legs, n).len() ==> (#[trigger] trip_legs(legs, n)[k]) < n
                && legs[trip_legs(legs, n)[k] as int].ocp is Some,
        forall|j: int, k: int|
            #![trigger trip_legs(legs, n)[j], trip_legs(legs, n)[k]]
            0 <= j < k < trip_legs(legs, n).len() ==> trip_legs(legs, n)[j] < trip_legs(legs, n)[k],
        forall|i: int|
            0 <= i < n && (#[trigger] legs[i]).ocp is Some ==> trip_legs(legs, n).contains(
                i as usize,
            ),
    decreases n,
{
    if n > 0 {
        trip_legs_facts(legs, n - 1);
        let a = trip_legs(legs, n - 1);
        let b = trip_legs(legs, n);
        assert forall|i: int| 0 <= i < n && (#[trigger] legs[i]).ocp is Some implies b.contains(
            i as usize,
        ) by {
            if i < n - 1 {
                assert(a.contains(i as usize));
                let k = choose|k: int| 0 <= k < a.len() && a[k] == i as usize;
                assert(b[k] == i as usize);
            } else {
                assert(b[a.len() as int] == i as usize);
            }
        }
    }
}

/// The routes of the families are known ones.
pub proof fn family_routes_known(mcu: Mcu)
    ensures
        routes_of(mcu) matches Some(r) ==> routes_known(r),
{
    match mcu {
        Mcu::G474 => {
            let r = routes_of(mcu)->0;
            assert forall|i: int| 0 <= i < r.dacs.len() implies dac_numbered(
                (#[trigger] r.dacs[i]).0,
                r.dacs[i].1,
            ) is Some by {}
        },
        Mcu::C531 => {
            let r = routes_of(mcu)->0;
            assert forall|i: int| 0 <= i < r.breaks.len() implies comp_numbered(
                (#[trigger] r.breaks[i]).0,
            ) is Some by {}
            assert forall|i: int| 0 <= i < r.dacs.len() implies dac_numbered(
                (#[trigger] r.dacs[i]).0,
                r.dacs[i].1,
            ) is Some by {}
        },
        _ => {},
    }
}

fn route_legs(f: &ChipFabric, legs: &mut Vec<ConverterLeg>) -> (r: Vec<usize>)
    requires
        routes_known(Routes { dacs: f.dac_to_comp@, breaks: f.comp_to_tim_break@ }),
    ensures
        ({
            let routes = Routes { dacs: f.dac_to_comp@, breaks: f.comp_to_tim_break@ };
            let list = trip_legs(old(legs)@, old(legs)@.len() as int);
            let pick = best_routing(leg_cands(routes, old(legs)@, list));
            &&& final(legs)@ == routed_legs(old(legs)@, list, pick, list.len() as int)
            &&& r@ == unrouted(list, pick, list.len() as int)
        }),
{
    let ghost routes = Routes { dacs: f.dac_to_comp@, breaks: f.comp_to_tim_break@ };
    let ghost legs0 = legs@;
    let total: usize = legs.len();
    let mut list: Vec<usize> = Vec::new();
    let mut i: usize = 0;
    while i < legs.len()
        invariant
            i <= legs@.len(),
            legs@ == legs0,
            list@ == trip_legs(legs0, i as int),
        decreases legs@.len() - i,
    {
        if legs[i].ocp.is_some() {
            list.push(i);
        }
        i += 1;
    }
    proof {
        trip_legs_facts(legs0, legs0.len() as int);
    }
    let ghost g = |x: usize| ocp_cands(
        routes,
        tim_nr(legs0[x as int].tim),
        wants_dac(legs0[x as int]),
    );
    let mut cands: Vec<Vec<OcpCand>> = Vec::new();
    let mut k: usize = 0;
    while k < list.len()
        invariant
            k <= list@.len(),
            legs@ == legs0,
            total == legs0.len(),
            routes == (Routes { dacs: f.dac_to_comp@, breaks: f.comp_to_tim_break@ }),
            forall|j: int| 0 <= j < list@.len() ==> (#[trigger] list@[j]) < total,
            cands@.len() == k,
            forall|j: int|
                0 <= j < k ==> (#[trigger] cands@[j])@ == ocp_cands(
                    routes,
                    tim_nr(legs0[list@[j] as int].tim),
                    wants_dac(legs0[list@[j] as int]),
                ),
        decreases list@.len() - k,
    {
        assert(list@[k as int] < total);
        let leg: ConverterLeg = legs[list[k]];
        let want: bool = match leg.ocp {
            Some(o) => o.threshold_dac.is_some(),
            None => false,
        };
        let c: Vec<OcpCand> = ocp_candidates(f, leg.tim.number(), want);
        cands.push(c);
        k += 1;
    }
    let ghost lists = leg_cands(routes, legs0, list@);
    proof {
        assert(cand_lists(cands@) =~= lists);
        routing_is_sound(lists);
    }
    let pick: Vec<Option<OcpCand>> = max_ocp_assignment(&cands);
    let mut failed: Vec<usize> = Vec::new();
    let mut s: usize = 0;
    while s < list.len()
        invariant
            s <= list@.len(),
            pick@.len() == list@.len(),
            total == legs0.len(),
            legs@.len() == total,
            forall|j: int| 0 <= j < list@.len() ==> (#[trigger] list@[j]) < total,
            lists == leg_cands(routes, legs0, list@),
            is_routing(lists, pick@),
            routes_known(routes),
            legs@ == routed_legs(legs0, list@, pick@, s as int),
            failed@ == unrouted(list@, pick@, s as int),
        decreases list@.len() - s,
    {
        let i: usize = list[s];
        assert(list@[s as int] < total);
        match pick[s] {
            Some(c) => {
                proof {
                    assert(pick@[s as int] == Some(c));
                    assert(lists[s as int].contains(c));
                    let tim = tim_nr(legs0[i as int].tim);
                    let want = wants_dac(legs0[i as int]);
                    ocp_cands_well(routes, tim, want, c);
                    cand_known(routes, tim, want, c);
                }
                if let Some(comp) = c531_design::comp_from_num(c.comp) {
                    let threshold_dac = match c.dac {
                        Some(d) => c531_design::dac_from_inst_ch(d.0, d.1),
                        None => None,
                    };
                    let mut leg: ConverterLeg = legs[i];
                    leg.ocp = Some(Ocp { comp, break_input: c.brk, threshold_dac });
                    legs.set(i, leg);
                }
            },
            None => {
                failed.push(i);
            },
        }
        s += 1;
    }
    failed
}

fn find_free(list: &[u8], adc: u8, used: &[(u8, u8)]) -> (r: Option<u8>)
    ensures
        r == free_channel(list@, adc, used@, 0),
{
    let mut k: usize = 0;
    while k < list.len()
        invariant
            k <= list@.len(),
            free_channel(list@, adc, used@, 0) == free_channel(list@, adc, used@, k as int),
        decreases list@.len() - k,
    {
        if !holds_pair(used, (adc, list[k])) {
            return Some(list[k]);
        }
        k += 1;
    }
    None
}

/// What the legs are that need another input: legs with a sense, ascending.
pub proof fn again_facts(rows: Seq<AfRow>, legs: Seq<ConverterLeg>, n: int)
    requires
        0 <= n <= legs.len(),
        legs.len() <= usize::MAX,
    ensures
        forall|k: int|
            0 <= k < kept_senses(rows, legs, n).again.len() ==> (#[trigger] kept_senses(
                rows,
                legs,
                n,
            ).again[k]) < n && legs[kept_senses(rows, legs, n).again[k] as int].adc_sense is Some,
        forall|j: int, k: int|
            #![trigger kept_senses(rows, legs, n).again[j], kept_senses(rows, legs, n).again[k]]
            0 <= j < k < kept_senses(rows, legs, n).again.len() ==> kept_senses(
                rows,
                legs,
                n,
            ).again[j] < kept_senses(rows, legs, n).again[k],
    decreases n,
{
    if n > 0 {
        again_facts(rows, legs, n - 1);
    }
}

fn sense_legs(rows: &[AfRow], legs: &mut Vec<ConverterLeg>) -> (r: Vec<usize>)
    ensures
        ({
            let s = kept_senses(rows@, old(legs)@, old(legs)@.len() as int);
            let t = resensed(rows@, old(legs)@, s, s.again.len() as int);
            &&& final(legs)@ == t.legs
            &&& r@ == t.failed
        }),
{
    let ghost legs0 = legs@;
    let total: usize = legs.len();
    let mut used: Vec<(u8, u8)> = Vec::new();
    let mut again: Vec<usize> = Vec::new();
    let mut i: usize = 0;
    proof {
        assert(used@ =~= Seq::<(u8, u8)>::empty());
        assert(again@ =~= Seq::<usize>::empty());
    }
    while i < legs.len()
        invariant
            i <= legs@.len(),
            legs@ == legs0,
            (Senses { used: used@, again: again@ }) == kept_senses(rows@, legs0, i as int),
        decreases legs@.len() - i,
    {
        if let Some((adc, ch)) = legs[i].adc_sense {
            let chans: Vec<u8> = c531_design::adc_bonded_channels(rows, adc.number());
            if holds_byte(&chans, ch) && !holds_pair(&used, (adc.number(), ch)) {
                used.push((adc.number(), ch));
            } else {
                again.push(i);
            }
        }
        i += 1;
    }
    let ghost s = kept_senses(rows@, legs0, legs0.len() as int);
    proof {
        again_facts(rows@, legs0, legs0.len() as int);
    }
    let mut failed: Vec<usize> = Vec::new();
    let mut k: usize = 0;
    proof {
        assert(failed@ =~= Seq::<usize>::empty());
    }
    while k < again.len()
        invariant
            k <= again@.len(),
            again@ == s.again,
            total == legs0.len(),
            legs@.len() == total,
            forall|j: int|
                0 <= j < again@.len() ==> (#[trigger] again@[j]) < total
                    && legs@[again@[j] as int].adc_sense is Some,
            (Resensed { legs: legs@, used: used@, failed: failed@ }) == resensed(
                rows@,
                legs0,
                s,
                k as int,
            ),
        decreases again@.len() - k,
    {
        let i: usize = again[k];
        assert(again@[k as int] < total);
        let ghost had = legs@;
        if let Some((adc, _)) = legs[i].adc_sense {
            let chans: Vec<u8> = c531_design::adc_bonded_channels(rows, adc.number());
            match find_free(&chans, adc.number(), &used) {
                Some(ch) => {
                    let mut leg: ConverterLeg = legs[i];
                    leg.adc_sense = Some((adc, ch));
                    legs.set(i, leg);
                    used.push((adc.number(), ch));
                },
                None => {
                    failed.push(i);
                },
            }
        }
        proof {
            assert forall|j: int| 0 <= j < again@.len() implies (#[trigger] again@[j]) < total
                && legs@[again@[j] as int].adc_sense is Some by {
                assert(had[again@[j] as int].adc_sense is Some);
            }
        }
        k += 1;
    }
    failed
}

impl C531Design {
    /// Route every leg's trip and sense on a chip with this pin table and these routes.
    /// What a leg wants stays; a leg that cannot be routed stays as it is and is
    /// reported.
    pub fn auto_assign_on(&mut self, raw: &RawMcuData, fabric: &Option<ChipFabric>) -> (r: AutoAssign)
        requires
            fabric_routes(*fabric) matches Some(x) ==> routes_known(x),
        ensures
            ({
                let a = auto_assigned(rows_of(*raw), fabric_routes(*fabric), old(self)@.legs);
                &&& final(self)@ == (ConverterView { legs: a.legs, ..old(self)@ })
                &&& r.ocp_unassignable@ == a.ocp_unassignable
                &&& r.sense_unassignable@ == a.sense_unassignable
            }),
    {
        match fabric {
            Some(f) => {
                let rows: Vec<AfRow> = mcu_pinout::af_rows(raw);
                let ocp_unassignable: Vec<usize> = route_legs(f, &mut self.legs);
                let sense_unassignable: Vec<usize> = sense_legs(&rows, &mut self.legs);
                AutoAssign { ocp_unassignable, sense_unassignable }
            },
            None => {
                let r: AutoAssign = AutoAssign {
                    ocp_unassignable: Vec::new(),
                    sense_unassignable: Vec::new(),
                };
                proof {
                    assert(r.ocp_unassignable@ =~= Seq::<usize>::empty());
                    assert(r.sense_unassignable@ =~= Seq::<usize>::empty());
                }
                r
            },
        }
    }

    /// Route every leg's trip and sense on a part.
    pub fn auto_assign(&mut self, package: Package) -> (r: AutoAssign)
        ensures
            ({
                let a = auto_assigned(
                    rows_of(*package.info.raw),
                    routes_of(package.info.mcu),
                    old(self)@.legs,
                );
                &&& final(self)@ == (ConverterView { legs: a.legs, ..old(self)@ })
                &&& r.ocp_unassignable@ == a.ocp_unassignable
                &&& r.sense_unassignable@ == a.sense_unassignable
            }),
    {
        let d: McuDescriptor = package.descriptor();
        proof {
            c531_design::descriptor_routes(d, package);
            family_routes_known(package.info.mcu);
        }
        self.auto_assign_on(d.raw, &d.fabric)
    }
}

} // verus!
