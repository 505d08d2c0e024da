//! A design lowered to pins, internal routes and DMA channels: what the firmware
//! generator reads, whatever family the design is of.

use vstd::prelude::*;

use crate::mcu_pinout::OwnedSignal;
use crate::mcu_pinout::PinId;
use crate::order;
use crate::order::order_of;
use crate::order::picked;
use crate::text::views;
use crate::texts;
use crate::texts::copy_text;
use crate::texts::copy_texts;
use crate::texts::text_ranks;

verus! {

/// The version of the plan format.
pub const PIN_PLAN_FORMAT_VERSION: u32 = 1;

/// What the plan is for.
#[derive(Clone, Debug, PartialEq, Eq)]
pub struct Target {
    pub package: String,
    pub family: String,
}

/// Who chose a pin.
#[derive(Copy, Clone, Debug, PartialEq, Eq, Structural)]
pub enum PinOrigin {
    /// The user.
    Locked,
    /// The planner, among several.
    Solver,
    /// Nobody: the signal has only this pin.
    Forced,
}

/// What a placed signal is for.
#[derive(Clone, Debug, PartialEq, Eq)]
pub enum RoleKind {
    Gpio,
    PwmOut { complementary: bool, dead_time: bool, etr: bool },
    FaultIn,
    AdcInput { adc: String, channel: u8, purpose: String, sequencer_group: Option<u32> },
}

/// A role kind as a mathematical value.
pub ghost enum RoleView {
    Gpio,
    PwmOut { complementary: bool, dead_time: bool, etr: bool },
    FaultIn,
    AdcInput { adc: Seq<char>, channel: u8, purpose: Seq<char>, sequencer_group: Option<u32> },
}

impl View for RoleKind {
    type V = RoleView;

    open spec fn view(&self) -> RoleView {
        match self {
            RoleKind::Gpio => RoleView::Gpio,
            RoleKind::PwmOut { complementary, dead_time, etr } => RoleView::PwmOut {
                complementary: *complementary,
                dead_time: *dead_time,
                etr: *etr,
            },
            RoleKind::FaultIn => RoleView::FaultIn,
            RoleKind::AdcInput { adc, channel, purpose, sequencer_group } => RoleView::AdcInput {
                adc: adc@,
                channel: *channel,
                purpose: purpose@,
                sequencer_group: *sequencer_group,
            },
        }
    }
}

impl RoleKind {
    /// The same kind again.
    pub fn copy(&self) -> (r: RoleKind)
        ensures
            r@ == self@,
    {
        match self {
            RoleKind::Gpio => RoleKind::Gpio,
            RoleKind::PwmOut { complementary, dead_time, etr } => RoleKind::PwmOut {
                complementary: *complementary,
                dead_time: *dead_time,
                etr: *etr,
            },
            RoleKind::FaultIn => RoleKind::FaultIn,
            RoleKind::AdcInput { adc, channel, purpose, sequencer_group } => RoleKind::AdcInput {
                adc: copy_text(adc.as_str()),
                channel: *channel,
                purpose: copy_text(purpose.as_str()),
                sequencer_group: *sequencer_group,
            },
        }
    }
}

/// A signal and the pin it is on, if any.
#[derive(Clone, Debug, PartialEq, Eq)]
pub struct Placement {
    pub signal: OwnedSignal,
    pub pin: Option<PinId>,
    pub origin: PinOrigin,
    pub af: Option<u8>,
    pub role_kind: RoleKind,
    pub irqs: Vec<String>,
    pub package_pin: Option<String>,
    pub net: Option<String>,
}

/// A placement as a mathematical value.
pub ghost struct PlacementView {
    pub signal: (Seq<char>, Seq<char>),
    pub pin: Option<PinId>,
    pub origin: PinOrigin,
    pub af: Option<u8>,
    pub role_kind: RoleView,
    pub irqs: Seq<Seq<char>>,
    pub package_pin: Option<Seq<char>>,
    pub net: Option<Seq<char>>,
}

/// An optional text's characters.
pub open spec fn opt_text(s: Option<String>) -> Option<Seq<char>> {
    match s {
        Some(t) => Some(t@),
        None => None,
    }
}

impl View for Placement {
    type V = PlacementView;

    open spec fn view(&self) -> PlacementView {
        PlacementView {
            signal: self.signal.key(),
            pin: self.pin,
            origin: self.origin,
            af: self.af,
            role_kind: self.role_kind@,
            irqs: views(self.irqs@),
            package_pin: opt_text(self.package_pin),
            net: opt_text(self.net),
        }
    }
}

/// The values of placements.
pub open spec fn placement_views(v: Seq<Placement>) -> Seq<PlacementView> {
    v.map_values(|p: Placement| p@)
}

/// A placement with nothing but signal, pin and role.
pub open spec fn plain_placement(
    signal: (Seq<char>, Seq<char>),
    pin: Option<PinId>,
    origin: PinOrigin,
    af: Option<u8>,
    role_kind: RoleView,
) -> PlacementView {
    PlacementView {
        signal,
        pin,
        origin,
        af,
        role_kind,
        irqs: Seq::empty(),
        package_pin: None,
        net: None,
    }
}

fn copy_opt(s: &Option<String>) -> (r: Option<String>)
    ensures
        opt_text(r) == opt_text(*s),
{
    match s {
        Some(t) => Some(copy_text(t.as_str())),
        None => None,
    }
}

impl Placement {
    /// A placement with nothing but signal, pin and role.
    pub fn plain(
        signal: OwnedSignal,
        pin: Option<PinId>,
        origin: PinOrigin,
        af: Option<u8>,
        role_kind: RoleKind,
    ) -> (r: Placement)
        ensures
            r@ == plain_placement(signal.key(), pin, origin, af, role_kind@),
    {
        let irqs: Vec<String> = Vec::new();
        proof {
            assert(views(irqs@) =~= Seq::<Seq<char>>::empty());
        }
        Placement { signal, pin, origin, af, role_kind, irqs, package_pin: None, net: None }
    }

    /// The same placement again.
    pub fn copy(&self) -> (r: Placement)
        ensures
            r@ == self@,
    {
        Placement {
            signal: OwnedSignal::new(self.signal.peripheral.as_str(), self.signal.role.as_str()),
            pin: self.pin,
            origin: self.origin,
            af: self.af,
            role_kind: self.role_kind.copy(),
            irqs: copy_texts(&self.irqs),
            package_pin: copy_opt(&self.package_pin),
            net: copy_opt(&self.net),
        }
    }
}

/// One end of an internal route.
#[derive(Clone, Debug, PartialEq, Eq)]
pub struct FabricNode {
    pub class: String,
    pub instance: u8,
    pub channel: Option<u8>,
    pub event: Option<u8>,
}

/// A node as a mathematical value.
pub ghost struct NodeView {
    pub class: Seq<char>,
    pub instance: u8,
    pub channel: Option<u8>,
    pub event: Option<u8>,
}

impl View for FabricNode {
    type V = NodeView;

    open spec fn view(&self) -> NodeView {
        NodeView {
            class: self.class@,
            instance: self.instance,
            channel: self.channel,
            event: self.event,
        }
    }
}

/// What an internal route does.
#[derive(Copy, Clone, Debug, PartialEq, Eq, Structural)]
pub enum EdgeKind {
    CompToTimBreak { break_input: u8 },
    DacToComp,
}

/// An internal route.
#[derive(Clone, Debug, PartialEq, Eq)]
pub struct RouteEdge {
    pub from: FabricNode,
    pub to: FabricNode,
    pub kind: EdgeKind,
    /// The leg or use that the route belongs to.
    pub group: Option<u32>,
}

/// A route as a mathematical value.
pub ghost struct EdgeView {
    pub from: NodeView,
    pub to: NodeView,
    pub kind: EdgeKind,
    pub group: Option<u32>,
}

impl View for RouteEdge {
    type V = EdgeView;

    open spec fn view(&self) -> EdgeView {
        EdgeView { from: self.from@, to: self.to@, kind: self.kind, group: self.group }
    }
}

/// The values of routes.
pub open spec fn edge_views(v: Seq<RouteEdge>) -> Seq<EdgeView> {
    v.map_values(|e: RouteEdge| e@)
}

/// A DMA channel given to a function of a peripheral.
#[derive(Clone, Debug, PartialEq, Eq)]
pub struct DmaAssignment {
    pub peripheral: String,
    pub function: String,
    pub channel: String,
}

/// An assignment as a mathematical value.
pub ghost struct DmaView {
    pub peripheral: Seq<char>,
    pub function: Seq<char>,
    pub channel: Seq<char>,
}

impl View for DmaAssignment {
    type V = DmaView;

    open spec fn view(&self) -> DmaView {
        DmaView {
            peripheral: self.peripheral@,
            function: self.function@,
            channel: self.channel@,
        }
    }
}

/// The values of assignments.
pub open spec fn dma_views(v: Seq<DmaAssignment>) -> Seq<DmaView> {
    v.map_values(|d: DmaAssignment| d@)
}

/// A lowered design.
#[derive(Clone, Debug, PartialEq, Eq)]
pub struct PinPlan {
    pub format_version: u32,
    pub target: Target,
    pub placements: Vec<Placement>,
    pub routes: Vec<RouteEdge>,
    /// Timer slots that are claimed; none where a family has no such slots.
    pub slot_claims: Vec<String>,
    pub dma_assignments: Vec<DmaAssignment>,
}

/// A lowered design as a mathematical value.
pub ghost struct PlanView {
    pub format_version: u32,
    pub package: Seq<char>,
    pub family: Seq<char>,
    pub placements: Seq<PlacementView>,
    pub routes: Seq<EdgeView>,
    pub slot_claims: Seq<Seq<char>>,
    pub dma_assignments: Seq<DmaView>,
}

impl View for PinPlan {
    type V = PlanView;

    open spec fn view(&self) -> PlanView {
        PlanView {
            format_version: self.format_version,
            package: self.target.package@,
            family: self.target.family@,
            placements: placement_views(self.placements@),
            routes: edge_views(self.routes@),
            slot_claims: views(self.slot_claims@),
            dma_assignments: dma_views(self.dma_assignments@),
        }
    }
}

/// A plan with nothing in it.
pub open spec fn empty_plan(package: Seq<char>, family: Seq<char>) -> PlanView {
    PlanView {
        format_version: PIN_PLAN_FORMAT_VERSION,
        package,
        family,
        placements: Seq::empty(),
        routes: Seq::empty(),
        slot_claims: Seq::empty(),
        dma_assignments: Seq::empty(),
    }
}

/// Placements by peripheral, then role, equal ones in their first order.
pub open spec fn sorted_placements(v: Seq<PlacementView>) -> Seq<PlacementView> {
    let by_role = picked(
        v,
        order_of(text_ranks(v.map_values(|p: PlacementView| p.signal.1))),
    );
    picked(
        by_role,
        order_of(text_ranks(by_role.map_values(|p: PlacementView| p.signal.0))),
    )
}

fn pick_placements(v: &[Placement], keys: &[u64]) -> (r: Vec<Placement>)
    requires
        v@.len() == keys@.len(),
    ensures
        placement_views(r@) == picked(placement_views(v@), order_of(keys@)),
        r@.len() == v@.len(),
{
    let o: Vec<usize> = order::stable_order(keys);
    let mut out: Vec<Placement> = Vec::new();
    let mut k: usize = 0;
    while k < o.len()
        invariant
            k <= o@.len(),
            o@.len() == v@.len(),
            order::is_stable_order(keys@, o@, v@.len() as int),
            out@.len() == k,
            forall|j: int| 0 <= j < k ==> (#[trigger] out@[j])@ == v@[o@[j] as int]@,
        decreases o@.len() - k,
    {
        assert(o@[k as int] < v@.len());
        out.push(v[o[k]].copy());
        k += 1;
    }
    proof {
        assert(placement_views(out@) =~= picked(placement_views(v@), o@));
    }
    out
}

impl PinPlan {
    /// A plan with nothing in it.
    pub fn empty(target: Target) -> (r: PinPlan)
        ensures
            r@ == empty_plan(target.package@, target.family@),
    {
        let r: PinPlan = PinPlan {
            format_version: PIN_PLAN_FORMAT_VERSION,
            target,
            placements: Vec::new(),
            routes: Vec::new(),
            slot_claims: Vec::new(),
            dma_assignments: Vec::new(),
        };
        proof {
            let e = empty_plan(target.package@, target.family@);
            assert(r@.placements =~= e.placements);
            assert(r@.routes =~= e.routes);
            assert(r@.slot_claims =~= e.slot_claims);
            assert(r@.dma_assignments =~= e.dma_assignments);
        }
        r
    }

    /// Put the placements in order of peripheral and role.
    pub fn sort_placements(&mut self)
        ensures
            final(self)@ == (PlanView {
                placements: sorted_placements(old(self)@.placements),
                ..old(self)@
            }),
    {
        let ghost v = placement_views(self.placements@);
        let mut roles: Vec<String> = Vec::new();
        let mut i: usize = 0;
        while i < self.placements.len()
            invariant
                i <= self.placements@.len(),
                roles@.len() == i,
                v == placement_views(self.placements@),
                forall|k: int| 0 <= k < i ==> (#[trigger] roles@[k])@ == v[k].signal.1,
            decreases self.placements@.len() - i,
        {
            roles.push(copy_text(self.placements[i].signal.role.as_str()));
            i += 1;
        }
        proof {
            assert(views(roles@) =~= v.map_values(|p: PlacementView| p.signal.1));
        }
        let k1: Vec<u64> = texts::rank_texts(&roles);
        let by_role: Vec<Placement> = pick_placements(&self.placements, &k1);
        let ghost w = placement_views(by_role@);
        let mut names: Vec<String> = Vec::new();
        let mut j: usize = 0;
        while j < by_role.len()
            invariant
                j <= by_role@.len(),
                names@.len() == j,
                w == placement_views(by_role@),
                forall|k: int| 0 <= k < j ==> (#[trigger] names@[k])@ == w[k].signal.0,
            decreases by_role@.len() - j,
        {
            names.push(copy_text(by_role[j].signal.peripheral.as_str()));
            j += 1;
        }
        proof {
            assert(views(names@) =~= w.map_values(|p: PlacementView| p.signal.0));
        }
        let k2: Vec<u64> = texts::rank_texts(&names);
        self.placements = pick_placements(&by_role, &k2);
    }
}

} // verus!
