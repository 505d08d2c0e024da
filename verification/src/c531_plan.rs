//! A converter lowered to pins and internal routes.

use vstd::prelude::*;

use crate::c531_design;
use crate::c531_design::leg_signals;
use crate::pin_locks::lock_of;
use crate::c531_design::C531Design;
use crate::c531_design::ConverterLeg;
use crate::c531_design::ConverterView;
use crate::g474::comp_nr;
use crate::g474::dac_channel;
use crate::g474::dac_instance;
use crate::g474::tim_nr;
use crate::h523_design;
use crate::h523_design::af_at;
use crate::h523_design::LockView;
use crate::mcu::Package;
use crate::mcu_pinout::rows_of;
use crate::mcu_pinout::OwnedSignal;
use crate::mcu_pinout::PinId;
use crate::mcu_pinout::PinSet;
use crate::mcu_raw::RawMcuData;
use crate::pin_plan::edge_views;
use crate::pin_plan::empty_plan;
use crate::pin_plan::placement_views;
use crate::pin_plan::plain_placement;
use crate::pin_plan::sorted_placements;
use crate::pin_plan::EdgeKind;
use crate::pin_plan::EdgeView;
use crate::pin_plan::FabricNode;
use crate::pin_plan::NodeView;
use crate::pin_plan::PinOrigin;
use crate::pin_plan::PinPlan;
use crate::pin_plan::Placement;
use crate::pin_plan::PlacementView;
use crate::pin_plan::PlanView;
use crate::pin_plan::RoleKind;
use crate::pin_plan::RoleView;
use crate::pin_plan::RouteEdge;
use crate::pin_plan::Target;
use crate::pinout;
use crate::pinout::carriers_are_right;
use crate::pinout::carries;
use crate::pinout::pins_carrying;
use crate::pinout::signal_key;
use crate::pinout::signal_peripheral;
use crate::pinout::Signal;
use crate::text;

verus! {

/// A signal that needs a pin, and what it is for.
pub ghost struct Job {
    pub signal: Signal,
    pub role: RoleView,
}

/// What a signal of a leg is for.
pub open spec fn role_of(leg: ConverterLeg, s: Signal) -> RoleView {
    match s {
        Signal::TimCh(_, _) => RoleView::PwmOut {
            complementary: leg.complementary,
            dead_time: leg.dead_time,
            etr: false,
        },
        Signal::TimChN(_, _) => RoleView::PwmOut {
            complementary: leg.complementary,
            dead_time: leg.dead_time,
            etr: false,
        },
        Signal::TimBkin(_) => RoleView::FaultIn,
        _ => RoleView::Gpio,
    }
}

/// The sense of a leg, if it has one.
pub open spec fn sense_job(leg: ConverterLeg) -> Seq<Job> {
    match leg.adc_sense {
        Some(x) => {
            let signal = Signal::AdcIn { adc: x.0, channel: x.1 };
            seq![
                Job {
                    signal,
                    role: RoleView::AdcInput {
                        adc: signal_peripheral(signal),
                        channel: x.1,
                        purpose: "sense"@,
                        sequencer_group: None,
                    },
                },
            ]
        },
        None => Seq::empty(),
    }
}

/// The signals of a leg that need a pin.
pub open spec fn leg_jobs(leg: ConverterLeg) -> Seq<Job> {
    leg_signals(leg).map_values(|s: Signal| Job { signal: s, role: role_of(leg, s) }) + sense_job(leg)
}

/// The signals of the first `n` legs that need a pin.
pub open spec fn jobs_upto(legs: Seq<ConverterLeg>, n: int) -> Seq<Job>
    decreases n,
{
    if n <= 0 {
        Seq::empty()
    } else {
        jobs_upto(legs, n - 1) + leg_jobs(legs[n - 1])
    }
}

/// The pin of the last lock of the signal among the first `n`.
pub open spec fn last_pin_of(locks: Seq<LockView>, key: (Seq<char>, Seq<char>), n: int) -> Option<PinId>
    decreases n,
{
    if n <= 0 {
        None
    } else if locks[n - 1].key == key {
        Some(locks[n - 1].pin)
    } else {
        last_pin_of(locks, key, n - 1)
    }
}

/// The pins of the first `n` locks.
pub open spec fn locked_pins(locks: Seq<LockView>, n: int) -> Set<PinId>
    decreases n,
{
    if n <= 0 {
        Set::empty()
    } else {
        locked_pins(locks, n - 1).insert(locks[n - 1].pin)
    }
}

/// The first pin of a list, from position `k` on, that is not taken.
pub open spec fn free_pin(pins: Seq<PinId>, taken: Set<PinId>, k: int) -> Option<PinId>
    decreases pins.len() - k,
{
    if k < 0 || k >= pins.len() {
        None
    } else if !taken.contains(pins[k]) {
        Some(pins[k])
    } else {
        free_pin(pins, taken, k + 1)
    }
}

/// The pin of a signal, and who chose it: the user's choice where the pin can carry
/// the signal, else the only candidate, else the first one that is free, else the
/// first.
pub open spec fn pin_for(
    raw: RawMcuData,
    locks: Seq<LockView>,
    key: (Seq<char>, Seq<char>),
    taken: Set<PinId>,
) -> (Option<PinId>, PinOrigin) {
    let pins = pins_carrying(raw, key);
    let lock = last_pin_of(locks, key, locks.len() as int);
    if lock is Some && pins.contains(lock->0) {
        (lock, PinOrigin::Locked)
    } else if pins.len() == 0 {
        (None, PinOrigin::Solver)
    } else if pins.len() == 1 {
        (Some(pins[0]), PinOrigin::Forced)
    } else {
        match free_pin(pins, taken, 0) {
            Some(p) => (Some(p), PinOrigin::Solver),
            None => (Some(pins[0]), PinOrigin::Solver),
        }
    }
}

/// The pins taken, and the placements made.
pub ghost struct Laid {
    pub taken: Set<PinId>,
    pub placements: Seq<PlacementView>,
}

/// Place one signal.
pub open spec fn lay_one(raw: RawMcuData, locks: Seq<LockView>, l: Laid, job: Job) -> Laid {
    let key = signal_key(job.signal);
    let (pin, origin) = pin_for(raw, locks, key, l.taken);
    let af = match pin {
        Some(p) => af_at(rows_of(raw), key, p, 0),
        None => None,
    };
    Laid {
        taken: match pin {
            Some(p) => l.taken.insert(p),
            None => l.taken,
        },
        placements: l.placements.push(plain_placement(key, pin, origin, af, job.role)),
    }
}

/// Place the first `n` signals.
pub open spec fn lay(raw: RawMcuData, locks: Seq<LockView>, jobs: Seq<Job>, n: int) -> Laid
    decreases n,
{
    if n <= 0 {
        Laid { taken: locked_pins(locks, locks.len() as int), placements: Seq::empty() }
    } else {
        lay_one(raw, locks, lay(raw, locks, jobs, n - 1), jobs[n - 1])
    }
}

/// A comparator, timer or DAC as the end of a route.
pub open spec fn node(class: Seq<char>, instance: u8, channel: Option<u8>) -> NodeView {
    NodeView { class, instance, channel, event: None }
}

/// The internal routes of a leg.
pub open spec fn leg_edges(leg: ConverterLeg, i: int) -> Seq<EdgeView> {
    let group = Some(i as u32);
    match leg.ocp {
        Some(o) => {
            let comp = node("COMP"@, comp_nr(o.comp), None);
            let trip = EdgeView {
                from: comp,
                to: node("TIM"@, tim_nr(leg.tim), None),
                kind: EdgeKind::CompToTimBreak { break_input: o.break_input },
                group,
            };
            match o.threshold_dac {
                Some(d) => seq![
                    trip,
                    EdgeView {
                        from: node("DAC"@, dac_instance(d), Some(dac_channel(d))),
                        to: comp,
                        kind: EdgeKind::DacToComp,
                        group,
                    },
                ],
                None => seq![trip],
            }
        },
        None => Seq::empty(),
    }
}

/// The internal routes of the first `n` legs.
pub open spec fn edges_upto(legs: Seq<ConverterLeg>, n: int) -> Seq<EdgeView>
    decreases n,
{
    if n <= 0 {
        Seq::empty()
    } else {
        edges_upto(legs, n - 1) + leg_edges(legs[n - 1], n - 1)
    }
}

/// The lowered converter.
pub open spec fn converter_plan(
    d: ConverterView,
    raw: RawMcuData,
    package: Seq<char>,
    family: Seq<char>,
) -> PlanView {
    let n = d.legs.len() as int;
    let jobs = jobs_upto(d.legs, n);
    PlanView {
        placements: sorted_placements(lay(raw, d.locks, jobs, jobs.len() as int).placements),
        routes: edges_upto(d.legs, n),
        ..empty_plan(package, family)
    }
}

/// The values of jobs.
spec fn job_views(v: Seq<(Signal, RoleKind)>) -> Seq<Job> {
    v.map_values(|j: (Signal, RoleKind)| Job { signal: j.0, role: j.1@ })
}

fn push_jobs(leg: &ConverterLeg, out: &mut Vec<(Signal, RoleKind)>)
    ensures
        job_views(final(out)@) == job_views(old(out)@) + leg_jobs(*leg),
{
    let ghost base = job_views(out@);
    let signals: Vec<Signal> = leg.signals();
    let ghost f = |s: Signal| Job { signal: s, role: role_of(*leg, s) };
    let mut i: usize = 0;
    proof {
        assert(job_views(out@) =~= base + signals@.map_values(f).take(0));
    }
    while i < signals.len()
        invariant
            i <= signals@.len(),
            f == (|s: Signal| Job { signal: s, role: role_of(*leg, s) }),
            job_views(out@) =~= base + signals@.map_values(f).take(i as int),
        decreases signals@.len() - i,
    {
        let s: Signal = signals[i];
        let role: RoleKind = match s {
            Signal::TimCh(_, _) => RoleKind::PwmOut {
                complementary: leg.complementary,
                dead_time: leg.dead_time,
                etr: false,
            },
            Signal::TimChN(_, _) => RoleKind::PwmOut {
                complementary: leg.complementary,
                dead_time: leg.dead_time,
                etr: false,
            },
            Signal::TimBkin(_) => RoleKind::FaultIn,
            _ => RoleKind::Gpio,
        };
        let ghost had = out@;
        let ghost rv = role@;
        out.push((s, role));
        proof {
            assert(job_views(out@) =~= job_views(had).push(Job { signal: s, role: rv }));
        }
        i += 1;
    }
    proof {
        assert(signals@.map_values(f).take(i as int) =~= signals@.map_values(f));
    }
    if let Some((adc, channel)) = leg.adc_sense {
        let signal: Signal = Signal::AdcIn { adc, channel };
        let owned: OwnedSignal = pinout::signal_to_owned(signal);
        let ghost had = out@;
        let role: RoleKind = RoleKind::AdcInput {
            adc: owned.peripheral,
            channel,
            purpose: "sense".to_owned(),
            sequencer_group: None,
        };
        let ghost rv = role@;
        out.push((signal, role));
        proof {
            assert(job_views(out@) =~= job_views(had).push(Job { signal, role: rv }));
        }
    }
    proof {
        assert(job_views(out@) =~= base + leg_jobs(*leg));
    }
}

fn find_free_pin(pins: &[PinId], taken: &PinSet) -> (r: Option<PinId>)
    requires
        taken.wf(),
    ensures
        r == free_pin(pins@, taken@, 0),
{
    let mut k: usize = 0;
    while k < pins.len()
        invariant
            k <= pins@.len(),
            taken.wf(),
            free_pin(pins@, taken@, 0) == free_pin(pins@, taken@, k as int),
        decreases pins@.len() - k,
    {
        if !taken.contains(&pins[k]) {
            return Some(pins[k]);
        }
        k += 1;
    }
    None
}

fn holds_pin(v: &[PinId], p: PinId) -> (r: bool)
    ensures
        r == v@.contains(p),
{
    let mut i: usize = 0;
    while i < v.len()
        invariant
            i <= v@.len(),
            forall|k: int| 0 <= k < i ==> v@[k] != p,
        decreases v@.len() - i,
    {
        if v[i] == p {
            assert(v@[i as int] == p);
            return true;
        }
        i += 1;
    }
    false
}

fn push_edges(leg: &ConverterLeg, i: usize, out: &mut Vec<RouteEdge>)
    ensures
        edge_views(final(out)@) == edge_views(old(out)@) + leg_edges(*leg, i as int),
{
    let ghost base = edge_views(out@);
    let group: Option<u32> = Some(i as u32);
    if let Some(o) = leg.ocp {
        let comp: u8 = c531_design::comp_num(o.comp);
        let trip: RouteEdge = RouteEdge {
            from: FabricNode { class: "COMP".to_owned(), instance: comp, channel: None, event: None },
            to: FabricNode {
                class: "TIM".to_owned(),
                instance: leg.tim.number(),
                channel: None,
                event: None,
            },
            kind: EdgeKind::CompToTimBreak { break_input: o.break_input },
            group,
        };
        let ghost had = out@;
        let ghost tv = trip@;
        out.push(trip);
        proof {
            assert(edge_views(out@) =~= edge_views(had).push(tv));
        }
        if let Some(d) = o.threshold_dac {
            let (inst, ch): (u8, u8) = c531_design::dac_inst_ch(d);
            let level: RouteEdge = RouteEdge {
                from: FabricNode {
                    class: "DAC".to_owned(),
                    instance: inst,
                    channel: Some(ch),
                    event: None,
                },
                to: FabricNode {
                    class: "COMP".to_owned(),
                    instance: comp,
                    channel: None,
                    event: None,
                },
                kind: EdgeKind::DacToComp,
                group,
            };
            let ghost had2 = out@;
            let ghost lv = level@;
            out.push(level);
            proof {
                assert(edge_views(out@) =~= edge_views(had2).push(lv));
            }
        }
    }
    proof {
        assert(edge_views(out@) =~= base + leg_edges(*leg, i as int));
    }
}

impl C531Design {
    fn last_locked_pin(&self, owned: &OwnedSignal) -> (r: Option<PinId>)
        ensures
            r == last_pin_of(self@.locks, owned.key(), self@.locks.len() as int),
    {
        let ghost key = owned.key();
        let mut i: usize = self.pin_locks.len();
        while i > 0
            invariant
                i <= self.pin_locks@.len(),
                key == owned.key(),
                last_pin_of(self@.locks, key, self@.locks.len() as int) == last_pin_of(
                    self@.locks,
                    key,
                    i as int,
                ),
            decreases i,
        {
            proof {
                assert(self@.locks[i - 1] == lock_of(self.pin_locks@[i - 1]));
            }
            let l: &(OwnedSignal, PinId) = &self.pin_locks[i - 1];
            if text::same(l.0.peripheral.as_str(), owned.peripheral.as_str()) && text::same(
                l.0.role.as_str(),
                owned.role.as_str(),
            ) {
                return Some(l.1);
            }
            i -= 1;
        }
        None
    }

    fn choose_pin(&self, raw: &RawMcuData, owned: &OwnedSignal, taken: &PinSet) -> (r: (
        Option<PinId>,
        PinOrigin,
    ))
        requires
            taken.wf(),
        ensures
            r == pin_for(*raw, self@.locks, owned.key(), taken@),
    {
        let pins: Vec<PinId> = pinout::pins_for(raw, owned);
        if let Some(p) = self.last_locked_pin(owned) {
            if holds_pin(&pins, p) {
                return (Some(p), PinOrigin::Locked);
            }
        }
        if pins.len() == 0 {
            (None, PinOrigin::Solver)
        } else if pins.len() == 1 {
            (Some(pins[0]), PinOrigin::Forced)
        } else {
            match find_free_pin(&pins, taken) {
                Some(p) => (Some(p), PinOrigin::Solver),
                None => (Some(pins[0]), PinOrigin::Solver),
            }
        }
    }

    fn place_jobs(&self, raw: &RawMcuData, jobs: &[(Signal, RoleKind)]) -> (r: Vec<Placement>)
        ensures
            placement_views(r@) == lay(
                *raw,
                self@.locks,
                job_views(jobs@),
                jobs@.len() as int,
            ).placements,
    {
        let ghost locks = self@.locks;
        let ghost jv = job_views(jobs@);
        let mut taken: PinSet = PinSet::new();
        let mut i: usize = 0;
        while i < self.pin_locks.len()
            invariant
                i <= self.pin_locks@.len(),
                locks == self@.locks,
                taken.wf(),
                taken@ == locked_pins(locks, i as int),
            decreases self.pin_locks@.len() - i,
        {
            proof {
                assert(locks[i as int] == lock_of(self.pin_locks@[i as int]));
            }
            taken.insert(self.pin_locks[i].1);
            i += 1;
        }
        let mut out: Vec<Placement> = Vec::new();
        let mut k: usize = 0;
        proof {
            assert(placement_views(out@) =~= lay(*raw, locks, jv, 0).placements);
        }
        while k < jobs.len()
            invariant
                k <= jobs@.len(),
                locks == self@.locks,
                jv == job_views(jobs@),
                taken.wf(),
                taken@ == lay(*raw, locks, jv, k as int).taken,
                placement_views(out@) == lay(*raw, locks, jv, k as int).placements,
            decreases jobs@.len() - k,
        {
            proof {
                assert(jv[k as int] == (Job { signal: jobs@[k as int].0, role: jobs@[k as int].1@ }));
            }
            let owned: OwnedSignal = pinout::signal_to_owned(jobs[k].0);
            let (pin, origin): (Option<PinId>, PinOrigin) = self.choose_pin(raw, &owned, &taken);
            let af: Option<u8> = match pin {
                Some(p) => h523_design::af_of(
                    raw,
                    owned.peripheral.as_str(),
                    owned.role.as_str(),
                    p,
                ),
                None => None,
            };
            if let Some(p) = pin {
                taken.insert(p);
            }
            let p: Placement = Placement::plain(owned, pin, origin, af, jobs[k].1.copy());
            let ghost had = out@;
            let ghost pv = p@;
            out.push(p);
            proof {
                assert(placement_views(out@) =~= placement_views(had).push(pv));
            }
            k += 1;
        }
        out
    }

    /// Lower the converter onto a chip: a pin for each signal, and an internal route for
    /// each trip and threshold.
    pub fn to_pin_plan_on(&self, raw: &RawMcuData, target: Target) -> (r: PinPlan)
        ensures
            r@ == converter_plan(self@, *raw, target.package@, target.family@),
    {
        let ghost package = target.package@;
        let ghost family = target.family@;
        let ghost legs = self.legs@;
        let mut jobs: Vec<(Signal, RoleKind)> = Vec::new();
        let mut edges: Vec<RouteEdge> = Vec::new();
        let mut i: usize = 0;
        proof {
            assert(job_views(jobs@) =~= jobs_upto(legs, 0));
            assert(edge_views(edges@) =~= edges_upto(legs, 0));
        }
        while i < self.legs.len()
            invariant
                i <= self.legs@.len(),
                legs == self.legs@,
                job_views(jobs@) == jobs_upto(legs, i as int),
                edge_views(edges@) == edges_upto(legs, i as int),
            decreases self.legs@.len() - i,
        {
            push_jobs(&self.legs[i], &mut jobs);
            push_edges(&self.legs[i], i, &mut edges);
            i += 1;
        }
        let mut plan: PinPlan = PinPlan::empty(target);
        plan.placements = self.place_jobs(raw, &jobs);
        plan.routes = edges;
        plan.sort_placements();
        plan
    }

    /// Lower the converter onto a part.
    pub fn to_pin_plan(&self, package: Package, target: Target) -> (r: PinPlan)
        ensures
            r@ == converter_plan(self@, *package.info.raw, target.package@, target.family@),
    {
        self.to_pin_plan_on(package.info.raw, target)
    }
}

proof fn free_pin_is_free(pins: Seq<PinId>, taken: Set<PinId>, k: int)
    requires
        0 <= k,
    ensures
        free_pin(pins, taken, k) matches Some(p) ==> pins.contains(p) && !taken.contains(p),
        free_pin(pins, taken, k) is None ==> forall|j: int|
            k <= j < pins.len() ==> taken.contains(#[trigger] pins[j]),
    decreases pins.len() - k,
{
    if k < pins.len() && taken.contains(pins[k]) {
        free_pin_is_free(pins, taken, k + 1);
    }
}

/// A chosen pin can carry its signal; the user's choice stands where it can; and a pin
/// that the planner chose among several is free unless all of them are taken.
pub proof fn pin_for_is_right(
    raw: RawMcuData,
    locks: Seq<LockView>,
    key: (Seq<char>, Seq<char>),
    taken: Set<PinId>,
)
    ensures
        ({
            let (pin, origin) = pin_for(raw, locks, key, taken);
            let pins = pins_carrying(raw, key);
            let lock = last_pin_of(locks, key, locks.len() as int);
            &&& pin is Some <==> exists|i: int|
                0 <= i < rows_of(raw).len() && carries(
                    #[trigger] rows_of(raw)[i],
                    key,
                    rows_of(raw)[i].pin,
                )
            &&& pin is Some ==> pins.contains(pin->0)
            &&& origin == PinOrigin::Locked <==> lock is Some && pins.contains(lock->0)
            &&& origin == PinOrigin::Locked ==> pin == lock
            &&& origin == PinOrigin::Solver && pin is Some && taken.contains(pin->0) ==> forall|j: int|
                0 <= j < pins.len() ==> taken.contains(#[trigger] pins[j])
        }),
{
    let rows = rows_of(raw);
    let pins = pins_carrying(raw, key);
    carriers_are_right(rows, key, rows.len() as int);
    free_pin_is_free(pins, taken, 0);
    if pins.len() > 0 {
        assert(pins.contains(pins[0]));
        let p = pins[0];
        let i = choose|i: int| 0 <= i < rows.len() && #[trigger] carries(rows[i], key, p);
        assert(carries(rows[i], key, rows[i].pin));
    }
    if exists|i: int| 0 <= i < rows.len() && carries(#[trigger] rows[i], key, rows[i].pin) {
        let i = choose|i: int|
            0 <= i < rows.len() && carries(#[trigger] rows[i], key, rows[i].pin);
        assert(carries(rows[i], key, rows[i].pin));
        assert(pins.contains(rows[i].pin));
    }
    let lock = last_pin_of(locks, key, locks.len() as int);
    if lock is Some && pins.contains(lock->0) {
        assert(pins.len() > 0);
    }
}

} // verus!
