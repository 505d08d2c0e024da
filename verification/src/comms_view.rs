//! The cards of the buses: what can be switched on, and which pins a signal can be on.

use vstd::prelude::*;

use crate::mcu_pinout::pin_name;
use crate::mcu_pinout::PinId;
use crate::pinout::Pin;
use crate::pinout::Signal;
use crate::requirements::RequirementSpec;
use crate::text;
use crate::text::decimal;

verus! {

/// An edit that a card asks for.
#[derive(Copy, Clone, Debug, PartialEq, Eq)]
pub enum CommsAction {
    SetSpec(usize, RequirementSpec),
    Remove(usize),
    SetPin(Signal, Pin),
    ClearPin(Signal),
}

/// A part of a bus that can be switched on, and whether it is.
#[derive(Copy, Clone, Debug)]
pub struct Switch {
    pub title: &'static str,
    pub on: bool,
}

/// The switches of a card.
pub open spec fn card_switches(spec: RequirementSpec) -> Seq<Switch> {
    match spec {
        RequirementSpec::UseSpi { needs_miso, needs_nss, .. } => seq![
            Switch { title: "MISO", on: needs_miso },
            Switch { title: "NSS", on: needs_nss },
        ],
        RequirementSpec::UseI2c { needs_smba, .. } => seq![Switch { title: "SMBA", on: needs_smba }],
        RequirementSpec::UseUsart { flow_control, synchronous, .. } => seq![
            Switch { title: "CTS/RTS", on: flow_control },
            Switch { title: "CK (sync)", on: synchronous },
        ],
        RequirementSpec::UseUart { flow_control, .. } => seq![
            Switch { title: "CTS/RTS", on: flow_control },
        ],
        RequirementSpec::UseLpuart { flow_control, .. } => seq![
            Switch { title: "CTS/RTS", on: flow_control },
        ],
        _ => Seq::empty(),
    }
}

/// The switches of a card.
pub fn switches(spec: RequirementSpec) -> (r: Vec<Switch>)
    ensures
        r@ == card_switches(spec),
{
    let mut r: Vec<Switch> = Vec::new();
    match spec {
        RequirementSpec::UseSpi { needs_miso, needs_nss, .. } => {
            r.push(Switch { title: "MISO", on: needs_miso });
            r.push(Switch { title: "NSS", on: needs_nss });
        },
        RequirementSpec::UseI2c { needs_smba, .. } => {
            r.push(Switch { title: "SMBA", on: needs_smba });
        },
        RequirementSpec::UseUsart { flow_control, synchronous, .. } => {
            r.push(Switch { title: "CTS/RTS", on: flow_control });
            r.push(Switch { title: "CK (sync)", on: synchronous });
        },
        RequirementSpec::UseUart { flow_control, .. } => {
            r.push(Switch { title: "CTS/RTS", on: flow_control });
        },
        RequirementSpec::UseLpuart { flow_control, .. } => {
            r.push(Switch { title: "CTS/RTS", on: flow_control });
        },
        _ => {},
    }
    proof {
        assert(r@ =~= card_switches(spec));
    }
    r
}

/// A requirement with its `k`-th switch set.
pub open spec fn switched_spec(spec: RequirementSpec, k: int, on: bool) -> RequirementSpec {
    match spec {
        RequirementSpec::UseSpi { instance, needs_miso, needs_nss } => RequirementSpec::UseSpi {
            instance,
            needs_miso: if k == 0 {
                on
            } else {
                needs_miso
            },
            needs_nss: if k == 1 {
                on
            } else {
                needs_nss
            },
        },
        RequirementSpec::UseI2c { instance, needs_smba } => RequirementSpec::UseI2c {
            instance,
            needs_smba: if k == 0 {
                on
            } else {
                needs_smba
            },
        },
        RequirementSpec::UseUsart { instance, flow_control, synchronous } =>
            RequirementSpec::UseUsart {
            instance,
            flow_control: if k == 0 {
                on
            } else {
                flow_control
            },
            synchronous: if k == 1 {
                on
            } else {
                synchronous
            },
        },
        RequirementSpec::UseUart { instance, flow_control } => RequirementSpec::UseUart {
            instance,
            flow_control: if k == 0 {
                on
            } else {
                flow_control
            },
        },
        RequirementSpec::UseLpuart { instance, flow_control } => RequirementSpec::UseLpuart {
            instance,
            flow_control: if k == 0 {
                on
            } else {
                flow_control
            },
        },
        _ => spec,
    }
}

/// What setting the `k`-th switch of the card of a requirement asks for: nothing, where it
/// is set so already.
pub fn set_switch(index: usize, spec: RequirementSpec, k: usize, on: bool) -> (r: Option<
    CommsAction,
>)
    ensures
        r == (if switched_spec(spec, k as int, on) == spec {
            None
        } else {
            Some(CommsAction::SetSpec(index, switched_spec(spec, k as int, on)))
        }),
{
    let new: RequirementSpec = match spec {
        RequirementSpec::UseSpi { instance, needs_miso, needs_nss } => RequirementSpec::UseSpi {
            instance,
            needs_miso: if k == 0 {
                on
            } else {
                needs_miso
            },
            needs_nss: if k == 1 {
                on
            } else {
                needs_nss
            },
        },
        RequirementSpec::UseI2c { instance, needs_smba } => RequirementSpec::UseI2c {
            instance,
            needs_smba: if k == 0 {
                on
            } else {
                needs_smba
            },
        },
        RequirementSpec::UseUsart { instance, flow_control, synchronous } =>
            RequirementSpec::UseUsart {
            instance,
            flow_control: if k == 0 {
                on
            } else {
                flow_control
            },
            synchronous: if k == 1 {
                on
            } else {
                synchronous
            },
        },
        RequirementSpec::UseUart { instance, flow_control } => RequirementSpec::UseUart {
            instance,
            flow_control: if k == 0 {
                on
            } else {
                flow_control
            },
        },
        RequirementSpec::UseLpuart { instance, flow_control } => RequirementSpec::UseLpuart {
            instance,
            flow_control: if k == 0 {
                on
            } else {
                flow_control
            },
        },
        _ => spec,
    };
    if new == spec {
        None
    } else {
        Some(CommsAction::SetSpec(index, new))
    }
}

/// A switch shows what it was set to, and the others stay.
pub proof fn switch_is_set(spec: RequirementSpec, k: int, on: bool)
    requires
        0 <= k < card_switches(spec).len(),
    ensures
        card_switches(switched_spec(spec, k, on)).len() == card_switches(spec).len(),
        card_switches(switched_spec(spec, k, on))[k].on == on,
        forall|j: int|
            0 <= j < card_switches(spec).len() && j != k ==> card_switches(
                switched_spec(spec, k, on),
            )[j] == #[trigger] card_switches(spec)[j],
{
}

/// A pin that a signal can be put on, and whether something else is there.
#[derive(Debug)]
pub struct PinChoice {
    pub pin: Pin,
    pub taken: bool,
    pub label: String,
}

/// A choice as a mathematical value.
pub ghost struct ChoiceView {
    pub pin: Pin,
    pub taken: bool,
    pub label: Seq<char>,
}

impl View for PinChoice {
    type V = ChoiceView;

    open spec fn view(&self) -> ChoiceView {
        ChoiceView { pin: self.pin, taken: self.taken, label: self.label@ }
    }
}

/// The pins of a signal as they are shown.
#[derive(Debug)]
pub enum PinRow {
    /// The chip has it on no pin.
    NoPin,
    /// The chip has it on one pin.
    Only(String),
    /// A choice, under a label.
    Choice(String, Vec<PinChoice>),
}

/// The row of a signal as a mathematical value.
pub ghost enum RowView {
    NoPin,
    Only(Seq<char>),
    Choice(Seq<char>, Seq<ChoiceView>),
}

impl View for PinRow {
    type V = RowView;

    open spec fn view(&self) -> RowView {
        match self {
            PinRow::NoPin => RowView::NoPin,
            PinRow::Only(s) => RowView::Only(s@),
            PinRow::Choice(s, v) => RowView::Choice(s@, v@.map_values(|c: PinChoice| c@)),
        }
    }
}

/// A pin in the choice of a signal: taken, unless it is free or the signal is on it.
pub open spec fn choice_of(p: Pin, free: Seq<Pin>, current: Option<Pin>) -> ChoiceView {
    let taken = !free.contains(p) && current != Some(p);
    ChoiceView {
        pin: p,
        taken,
        label: if taken {
            pin_name(p) + " (taken)"@
        } else {
            pin_name(p)
        },
    }
}

/// The row of a signal: `all` are its pins on the chip, `free` those that it could be put
/// on, and `current` the one it is on.
pub open spec fn row_of(all: Seq<Pin>, free: Seq<Pin>, current: Option<Pin>) -> RowView {
    if all.len() == 0 {
        RowView::NoPin
    } else if all.len() == 1 {
        RowView::Only(pin_name(all[0]))
    } else {
        RowView::Choice(
            match current {
                Some(p) => pin_name(p),
                None => decimal(free.len() as int) + " opts"@,
            },
            all.map_values(|p: Pin| choice_of(p, free, current)),
        )
    }
}

fn holds(v: &[Pin], p: Pin) -> (r: bool)
    ensures
        r == v@.contains(p),
{
    let mut i: usize = 0;
    while i < v.len()
        invariant
            i <= v@.len(),
            forall|k: int| 0 <= k < i ==> #[trigger] v@[k] != p,
        decreases v@.len() - i,
    {
        if v[i] == p {
            return true;
        }
        i += 1;
    }
    false
}

/// The row of a signal.
pub fn pin_row(all: &[Pin], free: &[Pin], current: Option<Pin>) -> (r: PinRow)
    ensures
        r@ == row_of(all@, free@, current),
{
    if all.len() == 0 {
        return PinRow::NoPin;
    }
    if all.len() == 1 {
        let p: PinId = all[0];
        return PinRow::Only(p.name());
    }
    let label: String = match current {
        Some(p) => p.name(),
        None => {
            let mut s: String = text::number(free.len() as u64);
            s.append(" opts");
            s
        },
    };
    let ghost want = all@.map_values(|p: Pin| choice_of(p, free@, current));
    let mut v: Vec<PinChoice> = Vec::new();
    let mut i: usize = 0;
    proof {
        assert(v@.map_values(|c: PinChoice| c@) =~= want.take(0));
    }
    while i < all.len()
        invariant
            i <= all@.len(),
            want == all@.map_values(|p: Pin| choice_of(p, free@, current)),
            v@.map_values(|c: PinChoice| c@) == want.take(i as int),
        decreases all@.len() - i,
    {
        let p: PinId = all[i];
        let here: bool = match current {
            Some(c) => c == p,
            None => false,
        };
        let taken: bool = !holds(free, p) && !here;
        let mut s: String = p.name();
        if taken {
            s.append(" (taken)");
        }
        let c: PinChoice = PinChoice { pin: p, taken, label: s };
        let ghost had = v@;
        let ghost x = c@;
        v.push(c);
        proof {
            assert(x == choice_of(p, free@, current));
            assert(v@.map_values(|c: PinChoice| c@) =~= had.map_values(|c: PinChoice| c@).push(x));
            assert(v@.map_values(|c: PinChoice| c@) =~= want.take(i + 1));
        }
        i += 1;
    }
    proof {
        assert(want.take(i as int) =~= want);
    }
    PinRow::Choice(label, v)
}

} // verus!
