//! The requirements of a G474 design and what is assigned to them.

use vstd::prelude::*;

use crate::g474;
use crate::g474::comms_kinds_seq;
use crate::g474::AdcInstance;
use crate::g474::CanId;
use crate::g474::CompId;
use crate::g474::CrossbarSource;
use crate::g474::DacId;
use crate::g474::HrtimFltId;
use crate::g474::HrtimId;
use crate::g474::I2cId;
use crate::g474::LpuartId;
use crate::g474::OpampId;
use crate::g474::PeripheralKind;
use crate::g474::SpiId;
use crate::g474::UartId;
use crate::g474::UcpdId;
use crate::g474::UsartId;
use crate::h523_design::empty_design;
use crate::h523_design::lock_views;
use crate::h523_design::locked;
use crate::h523_design::pin_of;
use crate::h523_design::plan_of;
use crate::h523_design::unlocked;
use crate::h523_design::DesignView;
use crate::h523_design::H523Design;
use crate::h523_design::LockView;
use crate::h523_design::PinLock;
use crate::mcu_pinout::OwnedSignal;
use crate::mcu_pinout::PinId;
use crate::mcu_raw::RawMcuData;
use crate::pin_locks;
use crate::pin_locks::lock_of;
use crate::pin_locks::locks_of;
use crate::pin_plan::PinPlan;
use crate::pin_plan::Target;
use crate::pinout;
use crate::pinout::pins_carrying;
use crate::pinout::signal_key;
use crate::pinout::Pin;
use crate::pinout::Signal;
use crate::resources::Resource;
use crate::texts::copy_text;

verus! {

/// Where a current-mode phase takes its threshold from.
#[derive(Copy, Clone, Debug, PartialEq, Eq, Structural)]
pub enum ThresholdSource {
    Internal,
    /// The peak inside, the zero crossing outside.
    InternalExtZcd,
    External,
}

/// What starts a sequencer.
#[derive(Copy, Clone, Debug, PartialEq, Eq, Structural)]
pub enum TriggerSource {
    Software,
    Event(CrossbarSource),
}

/// Which of an ADC's sequencers.
#[derive(Copy, Clone, Debug, PartialEq, Eq, Structural)]
pub enum SequencerKind {
    Regular,
    Injected,
}

/// The name of a sequencer in messages.
pub open spec fn sequencer_name(k: SequencerKind) -> Seq<char> {
    match k {
        SequencerKind::Regular => "Regular"@,
        SequencerKind::Injected => "Injected"@,
    }
}

impl SequencerKind {
    /// The name of the sequencer in messages.
    pub fn id(self) -> (r: &'static str)
        ensures
            r@ == sequencer_name(self),
    {
        match self {
            SequencerKind::Regular => "Regular",
            SequencerKind::Injected => "Injected",
        }
    }
}

/// Which channels a conversion may use.
#[derive(Copy, Clone, Debug, PartialEq, Eq, Structural)]
pub enum SpeedPref {
    Any,
    Fast,
    Slow,
}

/// What a conversion is for: an entry of the user's list of purposes.
#[derive(Copy, Clone, Debug, PartialEq, Eq, Structural)]
pub struct MonitorPurpose {
    pub id: u8,
}

/// What a sub-timer is run as.
#[derive(Copy, Clone, Debug, PartialEq, Eq, Structural)]
pub enum HrtimRole {
    /// A current-mode phase with its comparator inside.
    PcmInternal { ext_zcd: bool, dem: bool },
    VoltageModePwm,
}

/// Which outputs of a sub-timer are in use.
#[derive(Copy, Clone, Debug, PartialEq, Eq, Structural)]
pub enum OutputMode {
    Ch1Only,
    Ch1AndCh2,
}

/// One thing that a design needs.
#[allow(inconsistent_fields)]
#[derive(Copy, Clone, Debug, PartialEq, Eq, Structural)]
pub enum RequirementSpec {
    PcmPhase { dem: bool, threshold: ThresholdSource, preferred_timer: Option<HrtimId> },
    /// A sub-timer, of the user's choice where one is pinned.
    UseHrtimSub {
        pinned_sub_timer: Option<HrtimId>,
        role: HrtimRole,
        outputs: OutputMode,
        fault: Option<HrtimFltId>,
    },
    ShortCircuitFault,
    AdcSequencer { adc: AdcInstance, kind: SequencerKind, trigger: TriggerSource },
    /// `group` is the id of its sequencer.
    AdcConversion {
        group: u32,
        purpose: MonitorPurpose,
        adc_pref: Option<AdcInstance>,
        speed: SpeedPref,
    },
    UseOpamp { instance: OpampId, external_vinp: bool, external_vinm: bool, external_vout: bool },
    UseSpi { instance: SpiId, needs_miso: bool, needs_nss: bool },
    UseI2c { instance: I2cId, needs_smba: bool },
    UseUsart { instance: UsartId, flow_control: bool, synchronous: bool },
    UseUart { instance: UartId, flow_control: bool },
    UseLpuart { instance: LpuartId, flow_control: bool },
    UseCan { instance: CanId },
    UseUsb,
    UseUcpd { instance: UcpdId },
}

/// The parts of a current-mode phase.
#[derive(Copy, Clone, Debug, PartialEq, Eq, Structural)]
pub struct PhaseAllocation {
    pub dac: DacId,
    pub comp: CompId,
    pub eev: CrossbarSource,
}

/// What a requirement has been given.
#[allow(inconsistent_fields)]
#[derive(Copy, Clone, Debug, PartialEq, Eq, Structural)]
pub enum Assignment {
    PcmPhase {
        timer: HrtimId,
        alloc: PhaseAllocation,
        dem: bool,
        zcd_eev: Option<CrossbarSource>,
    },
    PcmPhaseExternal {
        timer: HrtimId,
        dac: Option<DacId>,
        peak_eev: CrossbarSource,
        dem: bool,
        zcd_eev: Option<CrossbarSource>,
    },
    AdcSequencer { adc: AdcInstance, kind: SequencerKind, trigger: TriggerSource },
    AdcConversion { adc: AdcInstance, channel: u8, purpose: MonitorPurpose },
    Spi { instance: SpiId, needs_miso: bool, needs_nss: bool },
    I2c { instance: I2cId, needs_smba: bool },
    Usart { instance: UsartId, flow_control: bool, synchronous: bool },
    Uart { instance: UartId, flow_control: bool },
    Lpuart { instance: LpuartId, flow_control: bool },
    Can { instance: CanId },
    Usb,
    Ucpd { instance: UcpdId },
}

/// A design: its requirements, each with an id and what it has been given.
#[derive(Clone, Debug, PartialEq, Eq)]
pub struct Design {
    pub requirements: Vec<RequirementSpec>,
    pub assignments: Vec<Option<Assignment>>,
    pub ids: Vec<u32>,
    pub next_id: u32,
    /// The signals that the user put on pins.
    pub pin_assignments: Vec<(OwnedSignal, PinId)>,
    /// What the user locked.
    pub locks: Vec<Resource>,
}

/// A design as a mathematical value.
pub ghost struct FabricView {
    pub requirements: Seq<RequirementSpec>,
    pub assignments: Seq<Option<Assignment>>,
    pub ids: Seq<u32>,
    pub next_id: u32,
    pub pins: Seq<LockView>,
    pub locks: Set<Resource>,
}

impl View for Design {
    type V = FabricView;

    open spec fn view(&self) -> FabricView {
        FabricView {
            requirements: self.requirements@,
            assignments: self.assignments@,
            ids: self.ids@,
            next_id: self.next_id,
            pins: locks_of(self.pin_assignments@),
            locks: self.locks@.to_set(),
        }
    }
}

/// A design with one more requirement, not yet assigned.
pub open spec fn with_requirement(d: FabricView, spec: RequirementSpec) -> FabricView {
    FabricView {
        requirements: d.requirements.push(spec),
        assignments: d.assignments.push(None),
        ids: d.ids.push(d.next_id),
        next_id: (d.next_id + 1) as u32,
        ..d
    }
}

/// A design with another requirement at a place, not yet assigned.
pub open spec fn with_spec(d: FabricView, i: int, spec: RequirementSpec) -> FabricView {
    if 0 <= i < d.requirements.len() {
        FabricView {
            requirements: d.requirements.update(i, spec),
            assignments: d.assignments.update(i, None),
            ..d
        }
    } else {
        d
    }
}

/// A design with something given to a requirement.
pub open spec fn with_assignment(d: FabricView, i: int, a: Assignment) -> FabricView {
    if 0 <= i < d.assignments.len() {
        FabricView { assignments: d.assignments.update(i, Some(a)), ..d }
    } else {
        d
    }
}

/// A design without one of its requirements.
pub open spec fn without(d: FabricView, i: int) -> FabricView {
    if 0 <= i < d.requirements.len() {
        FabricView {
            requirements: d.requirements.remove(i),
            assignments: d.assignments.remove(i),
            ids: d.ids.remove(i),
            ..d
        }
    } else {
        d
    }
}

/// A design with a signal on a pin, and nothing else there.
pub open spec fn with_pin(d: FabricView, signal: Signal, pin: PinId) -> FabricView {
    FabricView { pins: locked(d.pins, signal_key(signal), pin), ..d }
}

/// A design that leaves a signal's pin open.
pub open spec fn without_pin(d: FabricView, signal: Signal) -> FabricView {
    FabricView { pins: unlocked(d.pins, signal_key(signal)), ..d }
}

/// A design with a resource locked.
pub open spec fn with_lock(d: FabricView, x: Resource) -> FabricView {
    FabricView { locks: d.locks.insert(x), ..d }
}

/// A design with a resource not locked.
pub open spec fn without_lock(d: FabricView, x: Resource) -> FabricView {
    FabricView { locks: d.locks.remove(x), ..d }
}

/// A design with a resource locked if it was not, and not locked if it was.
pub open spec fn with_lock_turned(d: FabricView, x: Resource) -> FabricView {
    if d.locks.contains(x) {
        without_lock(d, x)
    } else {
        with_lock(d, x)
    }
}

/// Turning a lock twice leaves the design as it was.
pub proof fn lock_turned_twice(d: FabricView, x: Resource)
    ensures
        with_lock_turned(with_lock_turned(d, x), x) == d,
{
    if d.locks.contains(x) {
        assert(d.locks.remove(x).insert(x) =~= d.locks);
    } else {
        assert(d.locks.insert(x).remove(x) =~= d.locks);
    }
}

/// Whether one of the first `n` locks is on the pin.
pub open spec fn is_held(locks: Seq<LockView>, pin: PinId, n: int) -> bool {
    exists|k: int| 0 <= k < n && (#[trigger] locks[k]).pin == pin
}

/// Those of the first `n` pins that no other signal is on.
pub open spec fn untaken(
    locks: Seq<LockView>,
    key: (Seq<char>, Seq<char>),
    all: Seq<PinId>,
    n: int,
) -> Seq<PinId>
    decreases n,
{
    let others = unlocked(locks, key);
    if n <= 0 {
        Seq::empty()
    } else if is_held(others, all[n - 1], others.len() as int) {
        untaken(locks, key, all, n - 1)
    } else {
        untaken(locks, key, all, n - 1).push(all[n - 1])
    }
}

/// A design of locks and nothing else.
pub open spec fn only_locks(locks: Seq<LockView>) -> DesignView {
    DesignView { locks, ..empty_design() }
}

impl FabricView {
    /// Every requirement has an id of its own and a place for its assignment.
    pub open spec fn wf(self) -> bool {
        &&& self.assignments.len() == self.requirements.len()
        &&& self.ids.len() == self.requirements.len()
        &&& self.ids.no_duplicates()
        &&& forall|i: int| 0 <= i < self.ids.len() ==> (#[trigger] self.ids[i]) < self.next_id
    }
}

/// A design without requirements.
pub open spec fn no_requirements() -> FabricView {
    FabricView {
        requirements: Seq::empty(),
        assignments: Seq::empty(),
        ids: Seq::empty(),
        next_id: 0,
        pins: Seq::empty(),
        locks: Set::empty(),
    }
}

fn same_ids(a: &[u32], b: &[u32]) -> (r: bool)
    ensures
        r == (a@ == b@),
{
    if a.len() != b.len() {
        return false;
    }
    let mut i: usize = 0;
    while i < a.len()
        invariant
            i <= a@.len(),
            a@.len() == b@.len(),
            forall|k: int| 0 <= k < i ==> a@[k] == b@[k],
        decreases a@.len() - i,
    {
        if a[i] != b[i] {
            return false;
        }
        i += 1;
    }
    proof {
        assert(a@ =~= b@);
    }
    true
}

/// Whether the list holds the resource.
pub fn holds_resource(v: &[Resource], x: Resource) -> (r: bool)
    ensures
        r == v@.contains(x),
{
    let mut i: usize = 0;
    while i < v.len()
        invariant
            i <= v@.len(),
            forall|k: int| 0 <= k < i ==> v@[k] != x,
        decreases v@.len() - i,
    {
        if v[i] == x {
            assert(v@[i as int] == x);
            return true;
        }
        i += 1;
    }
    false
}

fn holds_all(a: &[Resource], b: &[Resource]) -> (r: bool)
    ensures
        r == b@.to_set().subset_of(a@.to_set()),
{
    let mut i: usize = 0;
    while i < b.len()
        invariant
            i <= b@.len(),
            forall|k: int| 0 <= k < i ==> a@.contains(#[trigger] b@[k]),
        decreases b@.len() - i,
    {
        if !holds_resource(a, b[i]) {
            proof {
                assert(b@.to_set().contains(b@[i as int]));
            }
            return false;
        }
        i += 1;
    }
    true
}

/// The locks but one.
fn locks_but(v: &[Resource], x: Option<Resource>) -> (r: Vec<Resource>)
    ensures
        x is None ==> r@.to_set() == v@.to_set(),
        x matches Some(y) ==> r@.to_set() == v@.to_set().remove(y),
{
    let mut r: Vec<Resource> = Vec::new();
    let mut i: usize = 0;
    while i < v.len()
        invariant
            i <= v@.len(),
            forall|y: Resource| #[trigger]
                r@.contains(y) <==> x != Some(y) && exists|k: int| 0 <= k < i && v@[k] == y,
        decreases v@.len() - i,
    {
        let ghost had = r@;
        let y: Resource = v[i];
        let keep: bool = match x {
            Some(z) => y != z,
            None => true,
        };
        if keep {
            r.push(y);
        }
        proof {
            assert forall|z: Resource| #[trigger] r@.contains(z) <==> x != Some(z) && exists|k: int|
                0 <= k < i + 1 && v@[k] == z by {
                if r@.contains(z) {
                    let k = choose|k: int| 0 <= k < r@.len() && r@[k] == z;
                    if k < had.len() {
                        assert(had[k] == z);
                        assert(had.contains(z));
                        let l = choose|l: int| 0 <= l < i && v@[l] == z;
                        assert(v@[l] == z);
                    } else {
                        assert(v@[i as int] == z);
                    }
                }
                if x != Some(z) && exists|k: int| 0 <= k < i + 1 && v@[k] == z {
                    let k = choose|k: int| 0 <= k < i + 1 && v@[k] == z;
                    if k < i {
                        assert(had.contains(z));
                        let l = choose|l: int| 0 <= l < had.len() && had[l] == z;
                        assert(r@[l] == z);
                    } else {
                        assert(r@[had.len() as int] == z);
                    }
                }
            }
        }
        i += 1;
    }
    proof {
        match x {
            Some(y) => {
                assert(r@.to_set() =~= v@.to_set().remove(y)) by {
                    assert forall|z: Resource| v@.contains(z) implies exists|k: int|
                        0 <= k < v@.len() && v@[k] == z by {}
                }
            },
            None => {
                assert(r@.to_set() =~= v@.to_set());
            },
        }
    }
    r
}

impl Design {
    /// A design without requirements.
    pub fn new() -> (r: Design)
        ensures
            r@ == no_requirements(),
            r@.wf(),
    {
        let r: Design = Design {
            requirements: Vec::new(),
            assignments: Vec::new(),
            ids: Vec::new(),
            next_id: 0,
            pin_assignments: Vec::new(),
            locks: Vec::new(),
        };
        proof {
            assert(r@.requirements =~= Seq::<RequirementSpec>::empty());
            assert(r@.assignments =~= Seq::<Option<Assignment>>::empty());
            assert(r@.ids =~= Seq::<u32>::empty());
            assert(r@.pins =~= Seq::<LockView>::empty());
            assert(r@.locks =~= Set::<Resource>::empty());
        }
        r
    }

    /// Add a requirement. The result is its id.
    pub fn add(&mut self, spec: RequirementSpec) -> (r: u32)
        requires
            old(self)@.wf(),
            old(self).next_id < u32::MAX,
        ensures
            r == old(self)@.next_id,
            final(self)@ == with_requirement(old(self)@, spec),
            final(self)@.wf(),
    {
        let id: u32 = self.next_id;
        let ghost had = self@;
        self.requirements.push(spec);
        self.assignments.push(None);
        self.ids.push(id);
        self.next_id = id + 1;
        proof {
            assert(self@.ids.no_duplicates()) by {
                assert forall|i: int, j: int|
                    0 <= i < self@.ids.len() && 0 <= j < self@.ids.len() && i
                        != j implies self@.ids[i] != self@.ids[j] by {
                    if i < had.ids.len() {
                        assert(had.ids[i] < had.next_id);
                    }
                    if j < had.ids.len() {
                        assert(had.ids[j] < had.next_id);
                    }
                }
            }
            assert forall|i: int| 0 <= i < self@.ids.len() implies (#[trigger] self@.ids[i])
                < self@.next_id by {
                if i < had.ids.len() {
                    assert(had.ids[i] < had.next_id);
                }
            }
        }
        id
    }

    /// Put another requirement in the place of one, to be assigned afresh. Nothing changes
    /// where there is no such place.
    pub fn set_spec(&mut self, i: usize, spec: RequirementSpec)
        requires
            old(self)@.wf(),
        ensures
            final(self)@ == with_spec(old(self)@, i as int, spec),
            final(self)@.wf(),
    {
        if i < self.requirements.len() {
            self.requirements.set(i, spec);
            self.assignments.set(i, None);
        }
    }

    /// Give a requirement something. Nothing changes where there is no such requirement.
    pub fn set_assignment(&mut self, i: usize, a: Assignment)
        requires
            old(self)@.wf(),
        ensures
            final(self)@ == with_assignment(old(self)@, i as int, a),
            final(self)@.wf(),
    {
        if i < self.assignments.len() {
            self.assignments.set(i, Some(a));
        }
    }

    /// Take a requirement out; the others keep their ids. Nothing changes where there is no
    /// such requirement.
    pub fn remove(&mut self, i: usize)
        requires
            old(self)@.wf(),
        ensures
            final(self)@ == without(old(self)@, i as int),
            final(self)@.wf(),
    {
        let ghost had = self@;
        if i < self.requirements.len() {
            self.requirements.remove(i);
            self.assignments.remove(i);
            self.ids.remove(i);
            proof {
                assert forall|k: int| 0 <= k < self@.ids.len() implies (#[trigger] self@.ids[k])
                    < self@.next_id by {
                    assert(self@.ids[k] == had.ids[if k < i {
                        k
                    } else {
                        k + 1
                    }]);
                }
                assert(self@.ids.no_duplicates()) by {
                    assert forall|a: int, b: int|
                        0 <= a < self@.ids.len() && 0 <= b < self@.ids.len() && a
                            != b implies self@.ids[a] != self@.ids[b] by {
                        let x = if a < i {
                            a
                        } else {
                            a + 1
                        };
                        let y = if b < i {
                            b
                        } else {
                            b + 1
                        };
                        assert(self@.ids[a] == had.ids[x] && self@.ids[b] == had.ids[y]);
                    }
                }
            }
        }
    }

    /// Whether the user locked a resource.
    pub fn is_locked(&self, x: Resource) -> (r: bool)
        ensures
            r == self@.locks.contains(x),
    {
        holds_resource(&self.locks, x)
    }

    /// Lock a resource, or unlock it where it is locked.
    pub fn toggle_lock(&mut self, x: Resource)
        ensures
            final(self)@ == with_lock_turned(old(self)@, x),
    {
        if self.is_locked(x) {
            self.clear_lock(x);
        } else {
            let ghost had = self.locks@;
            self.locks.push(x);
            proof {
                assert(self.locks@.to_set() =~= had.to_set().insert(x)) by {
                    assert forall|y: Resource| self.locks@.contains(y) <==> had.contains(y) || y
                        == x by {
                        if had.contains(y) {
                            let k = choose|k: int| 0 <= k < had.len() && had[k] == y;
                            assert(self.locks@[k] == y);
                        }
                        assert(self.locks@[had.len() as int] == x);
                    }
                }
            }
        }
    }

    /// Unlock a resource. Nothing changes where it is not locked.
    pub fn clear_lock(&mut self, x: Resource)
        ensures
            final(self)@ == without_lock(old(self)@, x),
    {
        self.locks = locks_but(&self.locks, Some(x));
    }

    /// The pin that the user put a signal on.
    pub fn pinned(&self, signal: Signal) -> (r: Option<Pin>)
        ensures
            r == pin_of(self@.pins, signal_key(signal), 0),
    {
        let owned: OwnedSignal = pinout::signal_to_owned(signal);
        pin_locks::find_pin(&self.pin_assignments, &owned)
    }

    /// Whether the user put a signal on a pin.
    pub fn is_pinned(&self, signal: Signal) -> (r: bool)
        ensures
            r == (pin_of(self@.pins, signal_key(signal), 0) is Some),
    {
        self.pinned(signal).is_some()
    }

    /// Whether the user put any signal on a pin.
    pub fn has_pins(&self) -> (r: bool)
        ensures
            r == (self@.pins.len() > 0),
    {
        self.pin_assignments.len() > 0
    }

    /// Put a signal on a pin. An earlier choice for the signal, or for another signal on
    /// the pin, goes.
    pub fn set_pin(&mut self, signal: Signal, pin: Pin)
        ensures
            final(self)@ == with_pin(old(self)@, signal, pin),
    {
        let owned: OwnedSignal = pinout::signal_to_owned(signal);
        let mut pins: Vec<(OwnedSignal, PinId)> = pin_locks::kept_locks(
            &self.pin_assignments,
            &owned,
            Some(pin),
        );
        let ghost had = pins@;
        let ghost l = LockView { key: signal_key(signal), pin };
        pins.push((owned, pin));
        proof {
            assert(locks_of(pins@) =~= locks_of(had).push(l));
        }
        self.pin_assignments = pins;
    }

    /// Drop the user's choice for a signal.
    pub fn clear_pin(&mut self, signal: Signal)
        ensures
            final(self)@ == without_pin(old(self)@, signal),
    {
        let owned: OwnedSignal = pinout::signal_to_owned(signal);
        self.pin_assignments = pin_locks::kept_locks(&self.pin_assignments, &owned, None);
    }

    /// Drop all choices of pins.
    pub fn clear_all_pins(&mut self)
        ensures
            final(self)@ == (FabricView { pins: Seq::empty(), ..old(self)@ }),
    {
        self.pin_assignments = Vec::new();
        proof {
            assert(self@.pins =~= Seq::<LockView>::empty());
        }
    }

    /// The pins among the given ones that no other signal is on.
    pub fn pin_candidates(&self, signal: Signal, all: &[Pin]) -> (r: Vec<Pin>)
        ensures
            r@ == untaken(self@.pins, signal_key(signal), all@, all@.len() as int),
    {
        let owned: OwnedSignal = pinout::signal_to_owned(signal);
        let ghost key = signal_key(signal);
        let others: Vec<(OwnedSignal, PinId)> = pin_locks::kept_locks(
            &self.pin_assignments,
            &owned,
            None,
        );
        let ghost v = locks_of(others@);
        let mut out: Vec<Pin> = Vec::new();
        let mut i: usize = 0;
        while i < all.len()
            invariant
                i <= all@.len(),
                v == locks_of(others@),
                v == unlocked(self@.pins, key),
                out@ == untaken(self@.pins, key, all@, i as int),
            decreases all@.len() - i,
        {
            let mut taken: bool = false;
            let mut k: usize = 0;
            while k < others.len()
                invariant
                    i < all@.len(),
                    k <= others@.len(),
                    v == locks_of(others@),
                    taken <==> is_held(v, all@[i as int], k as int),
                decreases others@.len() - k,
            {
                proof {
                    assert(v[k as int] == lock_of(others@[k as int]));
                }
                if others[k].1 == all[i] {
                    taken = true;
                }
                k += 1;
            }
            if !taken {
                out.push(all[i]);
            }
            i += 1;
        }
        out
    }

    /// Lower the user's choices of pins: a placement for each.
    pub fn pins_plan(&self, target: Target, raw: &RawMcuData) -> (r: PinPlan)
        ensures
            r@ == plan_of(only_locks(self@.pins), *raw, target.package@, target.family@),
    {
        let ghost v = self@.pins;
        let mut d: H523Design = H523Design::new();
        let mut locks: Vec<PinLock> = Vec::new();
        let mut i: usize = 0;
        while i < self.pin_assignments.len()
            invariant
                i <= self.pin_assignments@.len(),
                v == locks_of(self.pin_assignments@),
                locks@.len() == i,
                forall|k: int| 0 <= k < i ==> (#[trigger] locks@[k])@ == v[k],
            decreases self.pin_assignments@.len() - i,
        {
            let l: &(OwnedSignal, PinId) = &self.pin_assignments[i];
            locks.push(
                PinLock {
                    peripheral: copy_text(l.0.peripheral.as_str()),
                    role: copy_text(l.0.role.as_str()),
                    port: l.1.port,
                    num: l.1.num,
                },
            );
            i += 1;
        }
        proof {
            assert(lock_views(locks@) =~= v);
        }
        d.pin_locks = locks;
        d.to_pin_plan(target, raw)
    }

    /// The same design again.
    pub fn copy(&self) -> (r: Design)
        ensures
            r@ == self@,
    {
        let mut requirements: Vec<RequirementSpec> = Vec::new();
        let mut i: usize = 0;
        while i < self.requirements.len()
            invariant
                i <= self.requirements@.len(),
                requirements@ =~= self.requirements@.take(i as int),
            decreases self.requirements@.len() - i,
        {
            requirements.push(self.requirements[i]);
            i += 1;
        }
        let mut assignments: Vec<Option<Assignment>> = Vec::new();
        let mut j: usize = 0;
        while j < self.assignments.len()
            invariant
                j <= self.assignments@.len(),
                assignments@ =~= self.assignments@.take(j as int),
            decreases self.assignments@.len() - j,
        {
            assignments.push(self.assignments[j]);
            j += 1;
        }
        let mut ids: Vec<u32> = Vec::new();
        let mut k: usize = 0;
        while k < self.ids.len()
            invariant
                k <= self.ids@.len(),
                ids@ =~= self.ids@.take(k as int),
            decreases self.ids@.len() - k,
        {
            ids.push(self.ids[k]);
            k += 1;
        }
        proof {
            assert(requirements@ =~= self.requirements@);
            assert(assignments@ =~= self.assignments@);
            assert(ids@ =~= self.ids@);
        }
        let pin_assignments: Vec<(OwnedSignal, PinId)> = pin_locks::copy_locks(
            &self.pin_assignments,
        );
        let locks: Vec<Resource> = locks_but(&self.locks, None);
        Design { requirements, assignments, ids, next_id: self.next_id, pin_assignments, locks }
    }

    /// Whether two designs are the same.
    pub fn same_as(&self, other: &Design) -> (r: bool)
        ensures
            r == (self@ == other@),
    {
        if self.next_id != other.next_id || self.requirements.len() != other.requirements.len()
            || self.assignments.len() != other.assignments.len() || !same_ids(&self.ids, &other.ids)
            || !pin_locks::same_locks(&self.pin_assignments, &other.pin_assignments)
            || !holds_all(&self.locks, &other.locks) || !holds_all(&other.locks, &self.locks) {
            return false;
        }
        let mut i: usize = 0;
        while i < self.requirements.len()
            invariant
                i <= self.requirements@.len(),
                self.requirements@.len() == other.requirements@.len(),
                forall|k: int| 0 <= k < i ==> self.requirements@[k] == other.requirements@[k],
            decreases self.requirements@.len() - i,
        {
            if self.requirements[i] != other.requirements[i] {
                return false;
            }
            i += 1;
        }
        let mut j: usize = 0;
        while j < self.assignments.len()
            invariant
                j <= self.assignments@.len(),
                self.assignments@.len() == other.assignments@.len(),
                forall|k: int| 0 <= k < j ==> self.assignments@[k] == other.assignments@[k],
            decreases self.assignments@.len() - j,
        {
            let same: bool = match (self.assignments[j], other.assignments[j]) {
                (Some(a), Some(b)) => a == b,
                (None, None) => true,
                _ => false,
            };
            if !same {
                return false;
            }
            j += 1;
        }
        proof {
            assert(self.requirements@ =~= other.requirements@);
            assert(self.assignments@ =~= other.assignments@);
            assert(self@.locks =~= other@.locks);
        }
        true
    }
}

/// The kind of a communication requirement.
pub open spec fn comms_kind(spec: RequirementSpec) -> Option<PeripheralKind> {
    match spec {
        RequirementSpec::UseSpi { .. } => Some(PeripheralKind::Spi),
        RequirementSpec::UseI2c { .. } => Some(PeripheralKind::I2c),
        RequirementSpec::UseUsart { .. } => Some(PeripheralKind::Usart),
        RequirementSpec::UseUart { .. } => Some(PeripheralKind::Uart),
        RequirementSpec::UseLpuart { .. } => Some(PeripheralKind::Lpuart),
        RequirementSpec::UseCan { .. } => Some(PeripheralKind::Can),
        RequirementSpec::UseUsb => Some(PeripheralKind::Usb),
        RequirementSpec::UseUcpd { .. } => Some(PeripheralKind::Ucpd),
        _ => None,
    }
}

/// The kind of a communication requirement.
pub fn comms_kind_of(spec: &RequirementSpec) -> (r: Option<PeripheralKind>)
    ensures
        r == comms_kind(*spec),
{
    match spec {
        RequirementSpec::UseSpi { .. } => Some(PeripheralKind::Spi),
        RequirementSpec::UseI2c { .. } => Some(PeripheralKind::I2c),
        RequirementSpec::UseUsart { .. } => Some(PeripheralKind::Usart),
        RequirementSpec::UseUart { .. } => Some(PeripheralKind::Uart),
        RequirementSpec::UseLpuart { .. } => Some(PeripheralKind::Lpuart),
        RequirementSpec::UseCan { .. } => Some(PeripheralKind::Can),
        RequirementSpec::UseUsb => Some(PeripheralKind::Usb),
        RequirementSpec::UseUcpd { .. } => Some(PeripheralKind::Ucpd),
        _ => None,
    }
}

/// The requirements of a kind among the first `n`, by index.
pub open spec fn of_kind(specs: Seq<RequirementSpec>, kind: PeripheralKind, n: int) -> Seq<int>
    decreases n,
{
    if n <= 0 {
        Seq::empty()
    } else if comms_kind(specs[n - 1]) == Some(kind) {
        of_kind(specs, kind, n - 1).push(n - 1)
    } else {
        of_kind(specs, kind, n - 1)
    }
}

/// Indices as integers.
pub open spec fn index_views(v: Seq<usize>) -> Seq<int> {
    v.map_values(|x: usize| x as int)
}

fn indices_of_kind(specs: &[RequirementSpec], kind: PeripheralKind) -> (r: Vec<usize>)
    ensures
        index_views(r@) == of_kind(specs@, kind, specs@.len() as int),
{
    let mut out: Vec<usize> = Vec::new();
    let mut i: usize = 0;
    proof {
        assert(index_views(out@) =~= of_kind(specs@, kind, 0));
    }
    while i < specs.len()
        invariant
            i <= specs@.len(),
            index_views(out@) == of_kind(specs@, kind, i as int),
        decreases specs@.len() - i,
    {
        let listed: bool = match comms_kind_of(&specs[i]) {
            Some(k) => k == kind,
            None => false,
        };
        if listed {
            let ghost had = out@;
            out.push(i);
            proof {
                assert(index_views(out@) =~= index_views(had).push(i as int));
            }
        }
        i += 1;
    }
    out
}

/// The communication requirements by kind, in the order the kinds are shown.
pub fn comms_groups(design: &Design) -> (r: Vec<(PeripheralKind, Vec<usize>)>)
    ensures
        r@.len() == comms_kinds_seq().len(),
        forall|k: int|
            0 <= k < r@.len() ==> (#[trigger] r@[k]).0 == comms_kinds_seq()[k] && index_views(
                r@[k].1@,
            ) == of_kind(
                design@.requirements,
                comms_kinds_seq()[k],
                design@.requirements.len() as int,
            ),
{
    let kinds: Vec<PeripheralKind> = g474::comms_kinds();
    let mut out: Vec<(PeripheralKind, Vec<usize>)> = Vec::new();
    let mut i: usize = 0;
    while i < kinds.len()
        invariant
            i <= kinds@.len(),
            kinds@ == comms_kinds_seq(),
            out@.len() == i,
            forall|k: int|
                0 <= k < i ==> (#[trigger] out@[k]).0 == comms_kinds_seq()[k] && index_views(
                    out@[k].1@,
                ) == of_kind(
                    design@.requirements,
                    comms_kinds_seq()[k],
                    design@.requirements.len() as int,
                ),
        decreases kinds@.len() - i,
    {
        out.push((kinds[i], indices_of_kind(&design.requirements, kinds[i])));
        i += 1;
    }
    out
}

/// Signals, and more where they are wanted.
pub open spec fn and_if(v: Seq<Signal>, wanted: bool, more: Seq<Signal>) -> Seq<Signal> {
    if wanted {
        v + more
    } else {
        v
    }
}

/// The signals that a communication assignment claims.
pub open spec fn claimed_signals(a: Option<Assignment>) -> Seq<Signal> {
    match a {
        Some(Assignment::Spi { instance, needs_miso, needs_nss }) => and_if(
            and_if(
                seq![Signal::SpiMosi(instance), Signal::SpiSck(instance)],
                needs_miso,
                seq![Signal::SpiMiso(instance)],
            ),
            needs_nss,
            seq![Signal::SpiNss(instance)],
        ),
        Some(Assignment::I2c { instance, needs_smba }) => and_if(
            seq![Signal::I2cSda(instance), Signal::I2cScl(instance)],
            needs_smba,
            seq![Signal::I2cSmba(instance)],
        ),
        Some(Assignment::Usart { instance, flow_control, synchronous }) => and_if(
            and_if(
                seq![Signal::UsartTx(instance), Signal::UsartRx(instance)],
                flow_control,
                seq![Signal::UsartCts(instance), Signal::UsartRts(instance)],
            ),
            synchronous,
            seq![Signal::UsartCk(instance)],
        ),
        Some(Assignment::Uart { instance, flow_control }) => and_if(
            seq![Signal::UartTx(instance), Signal::UartRx(instance)],
            flow_control,
            seq![Signal::UartCts(instance), Signal::UartRts(instance)],
        ),
        Some(Assignment::Lpuart { instance, flow_control }) => and_if(
            seq![Signal::LpuartTx(instance), Signal::LpuartRx(instance)],
            flow_control,
            seq![Signal::LpuartCts(instance), Signal::LpuartRts(instance)],
        ),
        Some(Assignment::Can { instance }) => seq![Signal::CanTx(instance), Signal::CanRx(instance)],
        Some(Assignment::Usb) => seq![Signal::UsbDp, Signal::UsbDm],
        Some(Assignment::Ucpd { instance }) => seq![
            Signal::UcpdCc1(instance),
            Signal::UcpdCc2(instance),
        ],
        _ => Seq::empty(),
    }
}

/// The signals that a communication assignment claims.
pub fn signals_of(asn: Option<&Assignment>) -> (r: Vec<Signal>)
    ensures
        r@ == claimed_signals(
            match asn {
                Some(a) => Some(*a),
                None => None,
            },
        ),
{
    let mut s: Vec<Signal> = Vec::new();
    if let Some(a) = asn {
        match *a {
            Assignment::Spi { instance, needs_miso, needs_nss } => {
                s.push(Signal::SpiMosi(instance));
                s.push(Signal::SpiSck(instance));
                if needs_miso {
                    s.push(Signal::SpiMiso(instance));
                }
                if needs_nss {
                    s.push(Signal::SpiNss(instance));
                }
            },
            Assignment::I2c { instance, needs_smba } => {
                s.push(Signal::I2cSda(instance));
                s.push(Signal::I2cScl(instance));
                if needs_smba {
                    s.push(Signal::I2cSmba(instance));
                }
            },
            Assignment::Usart { instance, flow_control, synchronous } => {
                s.push(Signal::UsartTx(instance));
                s.push(Signal::UsartRx(instance));
                if flow_control {
                    s.push(Signal::UsartCts(instance));
                    s.push(Signal::UsartRts(instance));
                }
                if synchronous {
                    s.push(Signal::UsartCk(instance));
                }
            },
            Assignment::Uart { instance, flow_control } => {
                s.push(Signal::UartTx(instance));
                s.push(Signal::UartRx(instance));
                if flow_control {
                    s.push(Signal::UartCts(instance));
                    s.push(Signal::UartRts(instance));
                }
            },
            Assignment::Lpuart { instance, flow_control } => {
                s.push(Signal::LpuartTx(instance));
                s.push(Signal::LpuartRx(instance));
                if flow_control {
                    s.push(Signal::LpuartCts(instance));
                    s.push(Signal::LpuartRts(instance));
                }
            },
            Assignment::Can { instance } => {
                s.push(Signal::CanTx(instance));
                s.push(Signal::CanRx(instance));
            },
            Assignment::Usb => {
                s.push(Signal::UsbDp);
                s.push(Signal::UsbDm);
            },
            Assignment::Ucpd { instance } => {
                s.push(Signal::UcpdCc1(instance));
                s.push(Signal::UcpdCc2(instance));
            },
            _ => {},
        }
    }
    proof {
        let want = claimed_signals(
            match asn {
                Some(a) => Some(*a),
                None => None,
            },
        );
        assert(s@ =~= want);
    }
    s
}

/// Whether an event comes from the master timer.
pub open spec fn is_master(ev: CrossbarSource) -> bool {
    ev == CrossbarSource::Mcr1 || ev == CrossbarSource::Mcr2 || ev == CrossbarSource::Mcr3 || ev
        == CrossbarSource::Mcr4 || ev == CrossbarSource::Mper
}

/// Whether an event comes from the master timer.
pub fn is_master_event(ev: CrossbarSource) -> (r: bool)
    ensures
        r == is_master(ev),
{
    match ev {
        CrossbarSource::Mcr1 => true,
        CrossbarSource::Mcr2 => true,
        CrossbarSource::Mcr3 => true,
        CrossbarSource::Mcr4 => true,
        CrossbarSource::Mper => true,
        _ => false,
    }
}

/// A threshold source for the user.
pub fn threshold_label(t: ThresholdSource) -> (r: &'static str)
    ensures
        r@ == (match t {
            ThresholdSource::Internal => "internal COMP"@,
            ThresholdSource::InternalExtZcd => "int peak + ext ZCD"@,
            ThresholdSource::External => "external COMP"@,
        }),
{
    match t {
        ThresholdSource::Internal => "internal COMP",
        ThresholdSource::InternalExtZcd => "int peak + ext ZCD",
        ThresholdSource::External => "external COMP",
    }
}

/// Whether an assignment runs a phase on a sub-timer.
pub open spec fn runs_phase(a: Option<Assignment>, timer: HrtimId) -> bool {
    match a {
        Some(Assignment::PcmPhase { timer: t, .. }) => t == timer,
        Some(Assignment::PcmPhaseExternal { timer: t, .. }) => t == timer,
        _ => false,
    }
}

/// The first requirement that runs a phase on a sub-timer.
pub fn phase_owner(design: &Design, timer: HrtimId) -> (r: Option<usize>)
    ensures
        r matches Some(i) ==> i < design@.assignments.len() && runs_phase(
            design@.assignments[i as int],
            timer,
        ) && forall|k: int| 0 <= k < i ==> !runs_phase(#[trigger] design@.assignments[k], timer),
        r is None ==> forall|k: int|
            0 <= k < design@.assignments.len() ==> !runs_phase(
                #[trigger] design@.assignments[k],
                timer,
            ),
{
    let mut i: usize = 0;
    while i < design.assignments.len()
        invariant
            i <= design.assignments@.len(),
            forall|k: int| 0 <= k < i ==> !runs_phase(#[trigger] design.assignments@[k], timer),
        decreases design.assignments@.len() - i,
    {
        let here: bool = match design.assignments[i] {
            Some(Assignment::PcmPhase { timer: t, .. }) => t == timer,
            Some(Assignment::PcmPhaseExternal { timer: t, .. }) => t == timer,
            _ => false,
        };
        if here {
            return Some(i);
        }
        i += 1;
    }
    None
}

/// A conversion as it is shown.
#[derive(Copy, Clone, Debug)]
pub struct AdcConversionView {
    pub adc: AdcInstance,
    pub channel: u8,
    pub purpose: MonitorPurpose,
    pub pin: Option<Pin>,
}

/// A sequencer as it is shown, with its conversions.
#[derive(Clone, Debug)]
pub struct AdcSequencerView {
    pub adc: AdcInstance,
    pub kind: SequencerKind,
    pub trigger: TriggerSource,
    pub conversions: Vec<AdcConversionView>,
}

/// A sequencer as a mathematical value.
pub ghost struct SequencerModel {
    pub adc: AdcInstance,
    pub kind: SequencerKind,
    pub trigger: TriggerSource,
    pub conversions: Seq<AdcConversionView>,
}

impl View for AdcSequencerView {
    type V = SequencerModel;

    open spec fn view(&self) -> SequencerModel {
        SequencerModel {
            adc: self.adc,
            kind: self.kind,
            trigger: self.trigger,
            conversions: self.conversions@,
        }
    }
}

/// The values of sequencers.
pub open spec fn sequencer_models(v: Seq<AdcSequencerView>) -> Seq<SequencerModel> {
    v.map_values(|s: AdcSequencerView| s@)
}

/// The first of some pins.
pub open spec fn first_pin(v: Seq<PinId>) -> Option<PinId> {
    if v.len() > 0 {
        Some(v[0])
    } else {
        None
    }
}

/// The conversion of a requirement, where it is one that belongs to the sequencer.
pub open spec fn conversion_of(d: FabricView, raw: RawMcuData, group: u32, i: int) -> Option<
    AdcConversionView,
> {
    match (d.assignments[i], d.requirements[i]) {
        (
            Some(Assignment::AdcConversion { adc, channel, purpose }),
            RequirementSpec::AdcConversion { group: g, .. },
        ) => if g == group {
            Some(
                AdcConversionView {
                    adc,
                    channel,
                    purpose,
                    pin: first_pin(pins_carrying(raw, signal_key(Signal::AdcIn { adc, channel }))),
                },
            )
        } else {
            None
        },
        _ => None,
    }
}

/// The conversions of a sequencer among the first `n` requirements.
pub open spec fn conversions_upto(d: FabricView, raw: RawMcuData, group: u32, n: int) -> Seq<
    AdcConversionView,
>
    decreases n,
{
    if n <= 0 {
        Seq::empty()
    } else {
        match conversion_of(d, raw, group, n - 1) {
            Some(c) => conversions_upto(d, raw, group, n - 1).push(c),
            None => conversions_upto(d, raw, group, n - 1),
        }
    }
}

/// The sequencers of the first `n` requirements, each with all its conversions.
pub open spec fn sequencers_upto(d: FabricView, raw: RawMcuData, n: int) -> Seq<SequencerModel>
    decreases n,
{
    if n <= 0 {
        Seq::empty()
    } else {
        match d.assignments[n - 1] {
            Some(Assignment::AdcSequencer { adc, kind, trigger }) => sequencers_upto(
                d,
                raw,
                n - 1,
            ).push(
                SequencerModel {
                    adc,
                    kind,
                    trigger,
                    conversions: conversions_upto(
                        d,
                        raw,
                        d.ids[n - 1],
                        d.assignments.len() as int,
                    ),
                },
            ),
            _ => sequencers_upto(d, raw, n - 1),
        }
    }
}

fn conversions_for(design: &Design, raw: &RawMcuData, group: u32) -> (r: Vec<AdcConversionView>)
    requires
        design@.wf(),
    ensures
        r@ == conversions_upto(design@, *raw, group, design@.assignments.len() as int),
{
    let mut out: Vec<AdcConversionView> = Vec::new();
    let mut i: usize = 0;
    while i < design.assignments.len()
        invariant
            design@.wf(),
            i <= design.assignments@.len(),
            out@ == conversions_upto(design@, *raw, group, i as int),
        decreases design.assignments@.len() - i,
    {
        if let Some(Assignment::AdcConversion { adc, channel, purpose }) = design.assignments[i] {
            if let RequirementSpec::AdcConversion { group: g, .. } = design.requirements[i] {
                if g == group {
                    let s: OwnedSignal = pinout::signal_to_owned(Signal::AdcIn { adc, channel });
                    let pins: Vec<PinId> = pinout::pins_for(raw, &s);
                    let pin: Option<PinId> = if pins.len() > 0 {
                        Some(pins[0])
                    } else {
                        None
                    };
                    out.push(AdcConversionView { adc, channel, purpose, pin });
                }
            }
        }
        i += 1;
    }
    out
}

/// The sequencers of a design in order, each with the conversions that name it and the
/// pin that each is on.
pub fn build_adc_sequencer_views(design: &Design, raw: &RawMcuData) -> (r: Vec<AdcSequencerView>)
    requires
        design@.wf(),
    ensures
        sequencer_models(r@) == sequencers_upto(
            design@,
            *raw,
            design@.assignments.len() as int,
        ),
{
    let mut out: Vec<AdcSequencerView> = Vec::new();
    let mut i: usize = 0;
    proof {
        assert(sequencer_models(out@) =~= sequencers_upto(design@, *raw, 0));
    }
    while i < design.assignments.len()
        invariant
            design@.wf(),
            i <= design.assignments@.len(),
            sequencer_models(out@) == sequencers_upto(design@, *raw, i as int),
        decreases design.assignments@.len() - i,
    {
        if let Some(Assignment::AdcSequencer { adc, kind, trigger }) = design.assignments[i] {
            let conversions: Vec<AdcConversionView> = conversions_for(design, raw, design.ids[i]);
            let view: AdcSequencerView = AdcSequencerView { adc, kind, trigger, conversions };
            let ghost had = out@;
            let ghost model = view@;
            out.push(view);
            proof {
                assert(sequencer_models(out@) =~= sequencer_models(had).push(model));
            }
        }
        i += 1;
    }
    out
}

/// Every conversion that is shown is shown once: with ids that differ, no requirement is
/// a conversion of two sequencers.
pub proof fn conversion_has_one_sequencer(d: FabricView, raw: RawMcuData, i: int, a: u32, b: u32)
    requires
        d.wf(),
        0 <= i < d.requirements.len(),
        conversion_of(d, raw, a, i) is Some,
        conversion_of(d, raw, b, i) is Some,
    ensures
        a == b,
{
}

} // verus!
