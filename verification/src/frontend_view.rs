//! The state of the front-end planner's screen: what is asked for, which pins may be
//! used, and the plan, which is made anew only when something changes.

use vstd::prelude::*;

use crate::board::labelled;
use crate::board::taken_up;
use crate::board::BoardProfile;
use crate::board::BoardView;
use crate::board::Connector;
use crate::frontend_plan;
use crate::frontend_plan::are_caps_of;
use crate::frontend_plan::are_options_of;
use crate::frontend_plan::cap_views;
use crate::frontend_plan::out_adc_of;
use crate::frontend_plan::CapView;
use crate::frontend_plan::FrontEndPlan;
use crate::frontend_plan::PinCap;
use crate::frontend_plan::PlanConfig;
use crate::frontend_plan::ZeroCrossOption;
use crate::frontend_solver;
use crate::frontend_solver::even_channels;
use crate::frontend_solver::is_plan;
use crate::frontend_solver::weight_bound;
use crate::mcu_pinout::rows_of;
use crate::mcu_pinout::PinId;
use crate::mcu_pinout::PinSet;
use crate::mcu_raw;
use crate::mcu_raw::same_chip;
use crate::mcu_raw::RawMcuData;
use crate::phys_pinout;
use crate::phys_pinout::bonded_upto;
use crate::phys_pinout::phys_views;
use crate::phys_pinout::PinoutRecord;
use crate::text;

verus! {

/// A choice of weights: programmable-gain pairs, single programmable-gain channels,
/// triggers, and pairs on two ADCs.
#[derive(Copy, Clone, Debug, PartialEq, Eq, Structural)]
pub enum Priority {
    Balanced,
    Triggers,
    Pga,
}

/// The weights of a choice.
pub open spec fn priority_weights(p: Priority) -> (i32, i32, i32, i32) {
    match p {
        Priority::Balanced => (100i32, 25i32, 30i32, 8i32),
        Priority::Triggers => (70i32, 15i32, 60i32, 8i32),
        Priority::Pga => (150i32, 45i32, 15i32, 8i32),
    }
}

/// The weights of a choice.
pub fn weights_of(p: Priority) -> (r: (i32, i32, i32, i32))
    ensures
        r == priority_weights(p),
{
    match p {
        Priority::Balanced => (100, 25, 30, 8),
        Priority::Triggers => (70, 15, 60, 8),
        Priority::Pga => (150, 45, 15, 8),
    }
}

/// The weights that a choice sets.
pub fn weights(cfg: &PlanConfig) -> (r: (i32, i32, i32, i32))
    ensures
        r == (cfg.w_pga_pair, cfg.w_pga_single, cfg.w_trigger, cfg.w_cross_adc),
{
    (cfg.w_pga_pair, cfg.w_pga_single, cfg.w_trigger, cfg.w_cross_adc)
}

/// Set the weights of a choice; the rest stays.
pub fn set_weights(cfg: &mut PlanConfig, w: (i32, i32, i32, i32))
    ensures
        *final(cfg) == (PlanConfig {
            w_pga_pair: w.0,
            w_pga_single: w.1,
            w_trigger: w.2,
            w_cross_adc: w.3,
            ..*old(cfg)
        }),
{
    cfg.w_pga_pair = w.0;
    cfg.w_pga_single = w.1;
    cfg.w_trigger = w.2;
    cfg.w_cross_adc = w.3;
}

/// The pins of capabilities.
pub open spec fn pins_of(caps: Seq<CapView>) -> Set<PinId> {
    Set::new(|p: PinId| exists|i: int| 0 <= i < caps.len() && (#[trigger] caps[i]).pin == p)
}

/// Whether a set is what a chip bonds: the pins of its footprint, or all analog pins
/// where the footprint is not known.
pub open spec fn is_bonded(s: Set<PinId>, raw: RawMcuData, footprint: Option<PinoutRecord>) -> bool {
    match footprint {
        Some(r) => s == bonded_upto(phys_views(r.pins@), r.pins@.len() as int),
        None => exists|caps: Seq<CapView>| #[trigger]
            are_caps_of(caps, raw, None) && s == pins_of(caps),
    }
}

/// The pins that may be used: those that are bonded and that the board brings out,
/// without those that are set aside.
pub open spec fn usable(
    bonded: Set<PinId>,
    board: Option<BoardView>,
    connector: Connector,
    exclude: Set<PinId>,
) -> Set<PinId> {
    let base = match board {
        Some(b) => match connector {
            Connector::Morpho => bonded,
            Connector::Arduino => bonded.intersect(labelled(b.pins)),
        },
        None => bonded,
    };
    base.difference(exclude)
}

fn pins_of_caps(caps: &[PinCap]) -> (r: PinSet)
    ensures
        r.wf(),
        r@ == pins_of(cap_views(caps@)),
{
    let ghost v = cap_views(caps@);
    let mut r: PinSet = PinSet::new();
    let mut i: usize = 0;
    while i < caps.len()
        invariant
            i <= caps@.len(),
            v == cap_views(caps@),
            r.wf(),
            forall|p: PinId|
                r@.contains(p) <==> exists|k: int| 0 <= k < i && (#[trigger] v[k]).pin == p,
        decreases caps@.len() - i,
    {
        let ghost had = r@;
        proof {
            assert(v[i as int] == caps@[i as int]@);
        }
        r.insert(caps[i].pin);
        proof {
            assert forall|p: PinId| r@.contains(p) <==> exists|k: int|
                0 <= k < i + 1 && (#[trigger] v[k]).pin == p by {
                if had.contains(p) {
                    let k = choose|k: int| 0 <= k < i && (#[trigger] v[k]).pin == p;
                    assert(v[k].pin == p);
                }
                assert(v[i as int].pin == caps@[i as int].pin);
            }
        }
        i += 1;
    }
    proof {
        assert(r@ =~= pins_of(v));
    }
    r
}

/// An optional board's value.
pub open spec fn board_view(b: Option<BoardProfile>) -> Option<BoardView> {
    match b {
        Some(x) => Some(x@),
        None => None,
    }
}

/// An optional footprint's value.
pub open spec fn record_view(r: Option<&PinoutRecord>) -> Option<PinoutRecord> {
    match r {
        Some(x) => Some(*x),
        None => None,
    }
}

/// The pins that may be used.
pub fn usable_pins(
    raw: &RawMcuData,
    footprint: Option<&PinoutRecord>,
    board: &Option<BoardProfile>,
    connector: Connector,
    exclude: &PinSet,
) -> (r: PinSet)
    ensures
        r.wf(),
        exists|bonded: Set<PinId>|
            is_bonded(bonded, *raw, record_view(footprint)) && r@ == #[trigger] usable(
                bonded,
                board_view(*board),
                connector,
                exclude@,
            ),
{
    let bonded: PinSet = match footprint {
        Some(x) => phys_pinout::bonded_pins(x),
        None => {
            let caps: Vec<PinCap> = frontend_plan::capabilities(raw, None);
            let r: PinSet = pins_of_caps(&caps);
            proof {
                assert(are_caps_of(cap_views(caps@), *raw, None));
            }
            r
        },
    };
    let ghost b = bonded@;
    proof {
        assert(is_bonded(b, *raw, record_view(footprint)));
    }
    let base: PinSet = match board {
        Some(x) => x.usable_pins(connector, &bonded),
        None => bonded,
    };
    let r: PinSet = base.difference(exclude);
    proof {
        assert(r@ == usable(b, board_view(*board), connector, exclude@));
    }
    r
}

/// A plan, and the chip, the pins and the wishes that it was made for.
pub struct KeptPlan {
    chip: &'static RawMcuData,
    pins: PinSet,
    cfg: PlanConfig,
    plan: FrontEndPlan,
}

impl KeptPlan {
    /// The plan is one for what it was made for.
    #[verifier::type_invariant]
    spec fn wf(&self) -> bool {
        is_planned_on(self.plan, *self.chip, self.pins@, self.cfg)
    }
}

/// The state of the screen.
pub struct FrontEndState {
    pub cfg: PlanConfig,
    /// Pins set aside for the rest of the system.
    pub exclude: PinSet,
    pub board: Option<BoardProfile>,
    pub connector: Connector,
    /// The plan at hand.
    pub kept: Option<KeptPlan>,
}

fn same_pins(a: &PinSet, b: &PinSet) -> (r: bool)
    ensures
        r == (a.pins@ == b.pins@),
{
    if a.pins.len() != b.pins.len() {
        return false;
    }
    let mut i: usize = 0;
    while i < a.pins.len()
        invariant
            i <= a.pins@.len(),
            a.pins@.len() == b.pins@.len(),
            forall|k: int| 0 <= k < i ==> a.pins@[k] == b.pins@[k],
        decreases a.pins@.len() - i,
    {
        if a.pins[i] != b.pins[i] {
            return false;
        }
        i += 1;
    }
    proof {
        assert(a.pins@ =~= b.pins@);
    }
    true
}

/// Whether a board is the one chosen.
pub open spec fn is_chosen(board: Option<BoardProfile>, name: Seq<char>) -> bool {
    board matches Some(x) && x.name@ == name
}

impl FrontEndState {
    /// The plan at hand.
    pub closed spec fn planned(&self) -> Option<FrontEndPlan> {
        match self.kept {
            Some(k) => Some(k.plan),
            None => None,
        }
    }

    /// The plan at hand.
    pub fn plan(&self) -> (r: Option<&FrontEndPlan>)
        ensures
            r is Some <==> self.planned() is Some,
            r matches Some(p) ==> self.planned() == Some(*p),
    {
        match &self.kept {
            Some(k) => Some(&k.plan),
            None => None,
        }
    }

    /// No plan yet.
    pub fn new() -> (r: FrontEndState)
        ensures
            r.planned() is None,
            r.board is None,
            r.connector == Connector::Morpho,
            r.exclude.wf(),
            r.exclude@ == Set::<PinId>::empty(),
            r.cfg == (PlanConfig {
                channels: 16,
                w_pga_pair: 100,
                w_pga_single: 25,
                w_trigger: 30,
                w_cross_adc: 8,
                w_zero_cross: 40,
                zero_cross_target: 0,
            }),
    {
        FrontEndState {
            cfg: PlanConfig::default(),
            exclude: PinSet::new(),
            board: None,
            connector: Connector::Morpho,
            kept: None,
        }
    }

    /// Plan for the bare chip. Where a board was chosen, its pins are no longer set aside.
    pub fn choose_bare(&mut self)
        ensures
            final(self).cfg == old(self).cfg,
            final(self).connector == old(self).connector,
            final(self).planned() == old(self).planned(),
            final(self).board is None,
            old(self).board is None ==> final(self).exclude == old(self).exclude,
            old(self).board is Some ==> final(self).exclude.wf() && final(self).exclude@ == Set::<
                PinId,
            >::empty(),
    {
        if self.board.is_some() {
            self.board = None;
            self.exclude = PinSet::new();
        }
    }

    /// Plan for a board. The pins that it uses itself are set aside, unless it was chosen
    /// already.
    pub fn choose_board(&mut self, b: BoardProfile)
        ensures
            final(self).cfg == old(self).cfg,
            final(self).connector == old(self).connector,
            final(self).planned() == old(self).planned(),
            is_chosen(old(self).board, b.name@) ==> *final(self) == *old(self),
            !is_chosen(old(self).board, b.name@) ==> final(self).board == Some(b)
                && final(self).exclude.wf() && final(self).exclude@ == taken_up(b@.pins),
    {
        let chosen: bool = match &self.board {
            Some(x) => text::same(x.name, b.name),
            None => false,
        };
        if !chosen {
            self.exclude = b.reserved_pins();
            self.board = Some(b);
        }
    }

    /// Ask for no more zero-cross pairs than there are pairs.
    pub fn limit_zero_cross(&mut self)
        ensures
            final(self).cfg == (PlanConfig {
                zero_cross_target: if old(self).cfg.zero_cross_target > old(self).cfg.channels / 2 {
                    old(self).cfg.channels / 2
                } else {
                    old(self).cfg.zero_cross_target
                },
                ..old(self).cfg
            }),
            final(self).exclude == old(self).exclude,
            final(self).board == old(self).board,
            final(self).connector == old(self).connector,
            final(self).planned() == old(self).planned(),
    {
        let max: usize = self.cfg.channels / 2;
        if self.cfg.zero_cross_target > max {
            self.cfg.zero_cross_target = max;
        }
    }

    /// Make the plan, unless the one at hand is for the same pins of a chip that reads
    /// the same, and for the same wishes.
    pub fn ensure(&mut self, raw: &'static RawMcuData, footprint: Option<&PinoutRecord>)
        requires
            old(self).cfg.channels < usize::MAX,
            weight_bound(old(self).cfg) * rows_of(*raw).len() <= i32::MAX,
        ensures
            final(self).cfg == old(self).cfg,
            final(self).exclude == old(self).exclude,
            final(self).board == old(self).board,
            final(self).connector == old(self).connector,
            final(self).planned() matches Some(p) && is_planned(
                p,
                *raw,
                record_view(footprint),
                board_view(old(self).board),
                old(self).connector,
                old(self).exclude@,
                old(self).cfg,
            ),
    {
        let pins: PinSet = usable_pins(raw, footprint, &self.board, self.connector, &self.exclude);
        let ghost bonded = choose|bonded: Set<PinId>|
            is_bonded(bonded, *raw, record_view(footprint)) && pins@ == #[trigger] usable(
                bonded,
                board_view(self.board),
                self.connector,
                self.exclude@,
            );
        let ghost wished = usable(bonded, board_view(self.board), self.connector, self.exclude@);
        let current: bool = match &self.kept {
            Some(k) => {
                proof {
                    use_type_invariant(k);
                }
                mcu_raw::are_same_chip(k.chip, raw) && k.cfg == self.cfg && same_pins(&k.pins, &pins)
            },
            None => false,
        };
        if current {
            proof {
                let k = self.kept->0;
                assert(is_planned_on(k.plan, *k.chip, wished, self.cfg));
                assert(same_chip(*k.chip, *raw));
            }
            return;
        }
        let plan: FrontEndPlan = frontend_solver::plan(raw, Some(&pins), self.cfg);
        proof {
            assert(is_planned_on(plan, *raw, wished, self.cfg));
            assert(same_chip(*raw, *raw));
        }
        self.kept = Some(KeptPlan { chip: raw, pins, cfg: self.cfg, plan });
    }
}

/// Whether a plan is that of a chip on some pins.
pub open spec fn is_planned_on(p: FrontEndPlan, raw: RawMcuData, pins: Set<PinId>, cfg: PlanConfig) -> bool {
    exists|caps: Seq<CapView>, opts: Seq<ZeroCrossOption>|
        are_caps_of(caps, raw, Some(pins)) && are_options_of(opts, raw, Some(pins))
            && #[trigger] is_plan(
            p,
            caps,
            out_adc_of(raw),
            opts,
            even_channels(cfg.channels as int),
            cfg,
        )
}

/// Whether a plan is that of a chip that reads as the given one, on the pins that may be
/// used.
pub open spec fn is_planned(
    p: FrontEndPlan,
    raw: RawMcuData,
    footprint: Option<PinoutRecord>,
    board: Option<BoardView>,
    connector: Connector,
    exclude: Set<PinId>,
    cfg: PlanConfig,
) -> bool {
    exists|bonded: Set<PinId>, chip: RawMcuData|
        #[trigger] same_chip(chip, raw) && is_bonded(bonded, raw, footprint) && is_planned_on(
            p,
            chip,
            #[trigger] usable(bonded, board, connector, exclude),
            cfg,
        )
}

/// No pin that is set aside may be used, whatever the board.
pub proof fn excluded_is_unused(
    bonded: Set<PinId>,
    board: Option<BoardView>,
    connector: Connector,
    exclude: Set<PinId>,
    p: PinId,
)
    ensures
        usable(bonded, board, connector, exclude).contains(p) ==> bonded.contains(p)
            && !exclude.contains(p),
{
}

} // verus!
