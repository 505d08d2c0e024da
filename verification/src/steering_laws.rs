//! What the actions of a session do to what is open, and which design a plan is made from.

use vstd::prelude::*;

use crate::c531_assign::auto_assigned;
use crate::c531_design::routes_of;
use crate::c531_design::ConverterLeg;
use crate::g474::HrtimId;
use crate::g474::TimId;
use crate::hrtim_view::HrtimAction;
use crate::mcu::Mcu;
use crate::mcu::Package;
use crate::mcu_pinout::rows_of;
use crate::mcu_raw::RawMcuData;
use crate::pin_plan::PlanView;
use crate::project::lowered;
use crate::project::part_key;
use crate::project::short_family;
use crate::project::ProjectView;
use crate::requirements::FabricView;
use crate::requirements::HrtimRole;
use crate::requirements::OutputMode;
use crate::requirements::RequirementSpec;
use crate::requirement_row::hrtim_edited;
use crate::session::converted;
use crate::session::with_package;
use crate::session::AppView;
use crate::session::ConverterAction;
use crate::session::ViewMode;
use crate::startup::with_single;
use crate::startup::SingleKeys;
use crate::text::has_prefix;

verus! {

/// A converter leg that is added comes last, with its first channel alone and nothing more on
/// it; removing it again leaves the legs that were there.
pub proof fn an_added_leg_is_plain(a: AppView, timer: TimId)
    requires
        a.active.c531_design.legs.len() < usize::MAX,
    ensures
        ({
            let was = a.active.c531_design.legs;
            let b = converted(a, ConverterAction::AddLeg, timer);
            let now = b.active.c531_design.legs;
            let leg = now[now.len() - 1];
            &&& now.len() == was.len() + 1
            &&& forall|i: int| 0 <= i < was.len() ==> #[trigger] now[i] == was[i]
            &&& leg.tim == timer
            &&& leg.channels_mask == 1
            &&& !leg.complementary && !leg.dead_time && !leg.bkin
            &&& leg.ocp is None && leg.adc_sense is None
            &&& b.c531_status is None
            &&& converted(
                b,
                ConverterAction::RemoveLeg(was.len() as usize),
                timer,
            ).active.c531_design == a.active.c531_design
        }),
{
    let was = a.active.c531_design.legs;
    let b = converted(a, ConverterAction::AddLeg, timer);
    let c = converted(b, ConverterAction::RemoveLeg(was.len() as usize), timer);
    assert(c.active.c531_design.legs =~= was);
}

/// A converter leg that is set is read back and the others are kept; removing one moves those
/// after it up by one; a leg that is not there changes nothing.
pub proof fn edits_of_legs(a: AppView, i: usize, leg: ConverterLeg, timer: TimId)
    ensures
        ({
            let was = a.active.c531_design.legs;
            let set = converted(a, ConverterAction::SetLeg(i, leg), timer);
            let gone = converted(a, ConverterAction::RemoveLeg(i), timer);
            let s = set.active.c531_design.legs;
            let g = gone.active.c531_design.legs;
            &&& s.len() == was.len()
            &&& i < was.len() ==> s[i as int] == leg && g.len() == was.len() - 1
            &&& i >= was.len() ==> g == was
            &&& forall|j: int| 0 <= j < was.len() && j != i ==> #[trigger] s[j] == was[j]
            &&& forall|j: int|
                0 <= j < g.len() ==> #[trigger] g[j] == was[if j < i {
                    j
                } else {
                    j + 1
                }]
            &&& set.active.design == a.active.design && gone.active.design == a.active.design
            &&& set.c531_status is None && gone.c531_status is None
        }),
{
}

/// Legs that are assigned anew are complained of exactly where a trip or a sense of theirs found
/// no place, and only the legs change.
pub proof fn what_could_not_be_routed_is_said(a: AppView, timer: TimId)
    ensures
        ({
            let p = a.active.package.info;
            let x = auto_assigned(rows_of(*p.raw), routes_of(p.mcu), a.active.c531_design.legs);
            let b = converted(a, ConverterAction::AutoAssign, timer);
            &&& b.c531_status is None <==> x.ocp_unassignable.len() == 0
                && x.sense_unassignable.len() == 0
            &&& b.active.c531_design.legs == x.legs
            &&& b.active.c531_design.locks == a.active.c531_design.locks
            &&& b.active.design == a.active.design
            &&& b.history == a.history
        }),
{
}

/// The plan of a part that is browsed is made from the design of that part alone.
pub proof fn a_browsed_part_has_its_own_plan(
    p: ProjectView,
    q: ProjectView,
    raw: RawMcuData,
    f: PlanView,
    g: PlanView,
)
    requires
        p.asset_chip is Some,
        q.asset_chip is Some,
        p.asset_designs == q.asset_designs,
    ensures
        lowered(p, Some(raw), f) == lowered(q, Some(raw), g),
        lowered(p, Some(raw), f).package == raw.name@,
{
}

/// The plan of a part of a family is made from the design of that family alone.
pub proof fn a_family_has_its_own_plan(
    p: ProjectView,
    q: ProjectView,
    part: Option<RawMcuData>,
    f: PlanView,
    g: PlanView,
)
    requires
        p.asset_chip is None || part is None,
        q.asset_chip is None || part is None,
        p.mcu == q.mcu,
        p.package == q.package,
        p.mcu == Mcu::C531 ==> p.c531_design == q.c531_design,
        p.mcu == Mcu::H523 || p.mcu == Mcu::C5A3 ==> {
            &&& p.h523_designs.dom().contains(p.mcu)
            &&& q.h523_designs.dom().contains(p.mcu)
            &&& p.h523_designs[p.mcu] == q.h523_designs[p.mcu]
        },
        p.mcu == Mcu::G474 ==> f == g,
    ensures
        lowered(p, part, f) == lowered(q, part, g),
        p.mcu == Mcu::G474 ==> lowered(p, part, f) == f,
        p.mcu != Mcu::G474 ==> lowered(p, part, f).package == p.package.info.raw.name@,
        p.mcu == Mcu::H523 ==> lowered(p, part, f).family == "H5"@,
        p.mcu == Mcu::C5A3 || p.mcu == Mcu::C531 ==> lowered(p, part, f).family == "C5"@,
{
}

/// The short name of a family leaves out the name of the maker's line, and nothing else.
pub proof fn short_names_leave_out_the_line(s: Seq<char>)
    ensures
        short_family("STM32"@ + s) == s,
        !"STM32"@.is_prefix_of(s) ==> short_family(s) == s,
{
    let t = "STM32"@;
    assert(has_prefix(t + s, t)) by {
        assert((t + s).take(t.len() as int) =~= t);
    }
    assert((t + s).skip(t.len() as int) =~= s);
    if has_prefix(s, t) {
        assert(t =~= s.subrange(0, t.len() as int));
    }
}

/// Designs of parts go by the first ten characters of their names, so that the packages of a
/// part share one.
pub proof fn packages_of_a_part_share_a_design(a: Seq<char>, b: Seq<char>)
    requires
        a.len() >= 10,
        b.len() >= 10,
    ensures
        part_key(a) == part_key(b) <==> (forall|i: int| 0 <= i < 10 ==> a[i] == b[i]),
{
    if part_key(a) == part_key(b) {
        assert forall|i: int| 0 <= i < 10 implies a[i] == b[i] by {
            assert(part_key(a)[i] == a[i]);
            assert(part_key(b)[i] == b[i]);
        }
    } else {
        if forall|i: int| 0 <= i < 10 ==> a[i] == b[i] {
            assert(part_key(a) =~= part_key(b));
        }
    }
}

/// A phase that is added on a timer is the last requirement, pinned to that timer, and drives
/// both outputs.
pub proof fn a_phase_is_added_on_its_timer(d: FabricView, timer: HrtimId)
    ensures
        ({
            let e = hrtim_edited(d, HrtimAction::AddPhaseOn(timer));
            let n = d.requirements.len() as int;
            &&& e.requirements.len() == n + 1
            &&& forall|i: int| 0 <= i < n ==> #[trigger] e.requirements[i] == d.requirements[i]
            &&& e.requirements[n] matches RequirementSpec::UseHrtimSub {
                pinned_sub_timer,
                role,
                outputs,
                fault,
            } && pinned_sub_timer == Some(timer) && role is PcmInternal && outputs
                == OutputMode::Ch1AndCh2 && fault is None
            &&& e.pins == d.pins && e.locks == d.locks
        }),
{
}

/// A role that is added on a timer is the last requirement, pinned to that timer; only plain
/// pulses drive one output alone.
pub proof fn a_role_is_added_on_its_timer(d: FabricView, timer: HrtimId, r: HrtimRole)
    ensures
        ({
            let e = hrtim_edited(d, HrtimAction::AddRoleOn(timer, r));
            let n = d.requirements.len() as int;
            &&& e.requirements.len() == n + 1
            &&& forall|i: int| 0 <= i < n ==> #[trigger] e.requirements[i] == d.requirements[i]
            &&& e.requirements[n] matches RequirementSpec::UseHrtimSub {
                pinned_sub_timer,
                role,
                outputs,
                fault,
            } && pinned_sub_timer == Some(timer) && role == r && fault is None && (outputs
                == OutputMode::Ch1Only <==> r == HrtimRole::VoltageModePwm)
        }),
{
}

/// A package that is chosen is open, in its family, with its inventory shown; the designs and
/// the other projects are kept.
pub proof fn a_chosen_package_is_open(a: AppView, p: Package)
    ensures
        ({
            let b = with_package(a, p);
            &&& b.active.package == p
            &&& b.active.mcu == p.info.mcu
            &&& b.active.asset_chip is None && b.asset_part is None
            &&& b.view == ViewMode::Inventory
            &&& b.active.design == a.active.design
            &&& b.active.h523_designs == a.active.h523_designs
            &&& b.active.c531_design == a.active.c531_design
            &&& b.others == a.others
            &&& p.info.mcu != a.active.mcu ==> b.history.len() == 0 && b.redo.len() == 0
        }),
{
}

/// What was stored takes the place of what is open, and what was not is kept.
pub proof fn what_was_stored_is_open(p: ProjectView, k: SingleKeys, all: Seq<Package>)
    ensures
        ({
            let q = with_single(p, k, all);
            &&& q.design == (if k.design is Some {
                (k.design->0).0@
            } else {
                p.design
            })
            &&& k.mcu is Some ==> q.mcu == k.mcu->0
            &&& k.mcu is None ==> q.mcu == p.mcu
            &&& k.variant is Some ==> q.variant == k.variant->0
            &&& k.variant is None && k.design is Some ==> q.variant == (k.design->0).1
            &&& k.h523_designs is Some ==> q.h523_designs == (k.h523_designs->0)@
            &&& k.h523_designs is None ==> q.h523_designs == p.h523_designs
            &&& k.c531_design is Some ==> q.c531_design == (k.c531_design->0)@
            &&& k.c531_design is None ==> q.c531_design == p.c531_design
            &&& k.package is Some ==> q.package == k.package->0
            &&& q.name == p.name && q.demands == p.demands
        }),
{
}

} // verus!
