//! Moving a role from pin to pin: the first click picks it up, the second puts it down.

use vstd::prelude::*;

use crate::mcu_pinout::PinId;

verus! {

/// A click on the drawing of the package.
#[derive(Copy, Clone, Debug, PartialEq, Eq, Structural)]
pub enum PackageClick {
    Pin(PinId),
    Empty,
}

/// What a click comes to.
#[derive(Copy, Clone, Debug, PartialEq, Eq, Structural)]
pub enum PickStep {
    /// Nothing changes.
    Stay,
    /// Pick up the role on this pin, if there is one.
    PickUp(PinId),
    /// Put the role back.
    PutBack,
    /// Move the role from the first pin to the second, if it can be; either way it is held
    /// no longer.
    Move(PinId, PinId),
}

/// What a click comes to while the role of a pin is held, or none is.
pub open spec fn step_for(held: Option<PinId>, click: Option<PackageClick>) -> PickStep {
    match (held, click) {
        (_, None) => PickStep::Stay,
        (_, Some(PackageClick::Empty)) => PickStep::PutBack,
        (None, Some(PackageClick::Pin(p))) => PickStep::PickUp(p),
        (Some(from), Some(PackageClick::Pin(p))) => if p == from {
            PickStep::PutBack
        } else {
            PickStep::Move(from, p)
        },
    }
}

/// What a click comes to while the role of a pin is held, or none is.
pub fn pick_step(held: Option<PinId>, click: Option<PackageClick>) -> (r: PickStep)
    ensures
        r == step_for(held, click),
{
    match click {
        None => PickStep::Stay,
        Some(PackageClick::Empty) => PickStep::PutBack,
        Some(PackageClick::Pin(p)) => match held {
            None => PickStep::PickUp(p),
            Some(from) => if p == from {
                PickStep::PutBack
            } else {
                PickStep::Move(from, p)
            },
        },
    }
}

/// The pin whose role is held after a step; `role` says whether the pin that was clicked
/// has one.
pub open spec fn held_after(held: Option<PinId>, step: PickStep, role: bool) -> Option<PinId> {
    match step {
        PickStep::Stay => held,
        PickStep::PickUp(p) => if role {
            Some(p)
        } else {
            None
        },
        PickStep::PutBack | PickStep::Move(_, _) => None,
    }
}

/// The pin whose role is held after a step.
pub fn now_held(held: Option<PinId>, step: PickStep, role: bool) -> (r: Option<PinId>)
    ensures
        r == held_after(held, step, role),
{
    match step {
        PickStep::Stay => held,
        PickStep::PickUp(p) => if role {
            Some(p)
        } else {
            None
        },
        PickStep::PutBack | PickStep::Move(_, _) => None,
    }
}

/// The second click ends what the first began, wherever it falls; on the same pin it moves
/// nothing.
pub proof fn second_click_ends(from: PinId, click: PackageClick, role: bool)
    ensures
        held_after(Some(from), step_for(Some(from), Some(click)), role) is None,
        step_for(Some(from), Some(PackageClick::Pin(from))) == PickStep::PutBack,
{
}

} // verus!
