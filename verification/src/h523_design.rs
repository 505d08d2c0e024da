//! The design model of the families that are planned from their pin table alone: the
//! peripherals in use, and the pins locked for their signals.

use vstd::prelude::*;

use crate::mcu_pinout;
use crate::mcu_pinout::pin_name;
use crate::mcu_pinout::rows_of;
use crate::mcu_pinout::AfRow;
use crate::mcu_pinout::OwnedSignal;
use crate::mcu_pinout::PinId;
use crate::mcu_raw::RawMcuData;
use crate::order;
use crate::order::order_of;
use crate::order::picked;
use crate::pin_plan::empty_plan;
use crate::pin_plan::placement_views;
use crate::pin_plan::plain_placement;
use crate::pin_plan::sorted_placements;
use crate::pin_plan::PinOrigin;
use crate::pin_plan::PinPlan;
use crate::pin_plan::Placement;
use crate::pin_plan::PlacementView;
use crate::pin_plan::PlanView;
use crate::pin_plan::RoleKind;
use crate::pin_plan::RoleView;
use crate::pin_plan::Target;
use crate::text;
use crate::text::decimal;
use crate::text::str_views;
use crate::text::views;
use crate::texts;
use crate::texts::copy_text;
use crate::texts::holds_text;
use crate::texts::same_texts;
use crate::texts::copy_texts;
use crate::texts::text_ranks;

verus! {

/// The version of the design format.
pub const H523_DESIGN_FORMAT_VERSION: u32 = 1;

/// A signal locked to a pin.
#[derive(Clone, Debug, PartialEq, Eq, Hash)]
pub struct PinLock {
    pub peripheral: String,
    pub role: String,
    pub port: char,
    pub num: u8,
}

/// A lock as a mathematical value.
pub ghost struct LockView {
    pub key: (Seq<char>, Seq<char>),
    pub pin: PinId,
}

impl View for PinLock {
    type V = LockView;

    open spec fn view(&self) -> LockView {
        LockView {
            key: (self.peripheral@, self.role@),
            pin: PinId { port: self.port, num: self.num },
        }
    }
}

/// The values of locks.
pub open spec fn lock_views(v: Seq<PinLock>) -> Seq<LockView> {
    v.map_values(|l: PinLock| l@)
}

impl PinLock {
    /// The pin.
    pub fn pin(&self) -> (r: PinId)
        ensures
            r == self@.pin,
    {
        PinId { port: self.port, num: self.num }
    }

    /// The peripheral and the role.
    pub fn signal_key(&self) -> (r: (&str, &str))
        ensures
            (r.0@, r.1@) == self@.key,
    {
        (self.peripheral.as_str(), self.role.as_str())
    }

    /// The same lock again.
    pub fn copy(&self) -> (r: PinLock)
        ensures
            r@ == self@,
    {
        PinLock {
            peripheral: copy_text(self.peripheral.as_str()),
            role: copy_text(self.role.as_str()),
            port: self.port,
            num: self.num,
        }
    }
}

/// A peripheral in use, and the roles wanted of it.
#[derive(Clone, Debug, PartialEq, Eq)]
pub struct PeripheralUse {
    pub peripheral: String,
    pub roles: Vec<String>,
    pub note: String,
}

/// A use as a mathematical value.
pub ghost struct UseView {
    pub peripheral: Seq<char>,
    pub roles: Seq<Seq<char>>,
    pub note: Seq<char>,
}

impl View for PeripheralUse {
    type V = UseView;

    open spec fn view(&self) -> UseView {
        UseView { peripheral: self.peripheral@, roles: views(self.roles@), note: self.note@ }
    }
}

/// The values of uses.
pub open spec fn use_views(v: Seq<PeripheralUse>) -> Seq<UseView> {
    v.map_values(|u: PeripheralUse| u@)
}

/// Why a design is not complete on a chip.
#[derive(Clone, Debug, PartialEq, Eq)]
pub enum H523Problem {
    /// A wanted role has no pin yet.
    Unplaced { peripheral: String, role: String },
    /// A wanted role is on no pin of the chip.
    Unreachable { peripheral: String, role: String },
}

/// A problem as a mathematical value.
pub ghost enum ProblemView {
    Unplaced { peripheral: Seq<char>, role: Seq<char> },
    Unreachable { peripheral: Seq<char>, role: Seq<char> },
}

impl View for H523Problem {
    type V = ProblemView;

    open spec fn view(&self) -> ProblemView {
        match self {
            H523Problem::Unplaced { peripheral, role } => ProblemView::Unplaced {
                peripheral: peripheral@,
                role: role@,
            },
            H523Problem::Unreachable { peripheral, role } => ProblemView::Unreachable {
                peripheral: peripheral@,
                role: role@,
            },
        }
    }
}

/// The values of problems.
pub open spec fn problem_views(v: Seq<H523Problem>) -> Seq<ProblemView> {
    v.map_values(|p: H523Problem| p@)
}

/// A design: locks, and the uses they serve.
#[derive(Clone, Debug, PartialEq, Eq)]
pub struct H523Design {
    pub format_version: u32,
    pub pin_locks: Vec<PinLock>,
    pub uses: Vec<PeripheralUse>,
}

/// A design as a mathematical value.
pub ghost struct DesignView {
    pub format_version: u32,
    pub locks: Seq<LockView>,
    pub uses: Seq<UseView>,
}

impl View for H523Design {
    type V = DesignView;

    open spec fn view(&self) -> DesignView {
        DesignView {
            format_version: self.format_version,
            locks: lock_views(self.pin_locks@),
            uses: use_views(self.uses@),
        }
    }
}

/// A design with nothing in it.
pub open spec fn empty_design() -> DesignView {
    DesignView {
        format_version: H523_DESIGN_FORMAT_VERSION,
        locks: Seq::empty(),
        uses: Seq::empty(),
    }
}

/// The pin of the first lock of the signal, from position `k` on.
pub open spec fn pin_of(locks: Seq<LockView>, key: (Seq<char>, Seq<char>), k: int) -> Option<PinId>
    decreases locks.len() - k,
{
    if k < 0 || k >= locks.len() {
        None
    } else if locks[k].key == key {
        Some(locks[k].pin)
    } else {
        pin_of(locks, key, k + 1)
    }
}

/// The signal of the first lock on the pin, from position `k` on.
pub open spec fn signal_on(locks: Seq<LockView>, pin: PinId, k: int) -> Option<
    (Seq<char>, Seq<char>),
>
    decreases locks.len() - k,
{
    if k < 0 || k >= locks.len() {
        None
    } else if locks[k].pin == pin {
        Some(locks[k].key)
    } else {
        signal_on(locks, pin, k + 1)
    }
}

/// Whether a lock from position `k` on is on the pin.
pub open spec fn pin_taken(locks: Seq<LockView>, pin: PinId, k: int) -> bool {
    exists|i: int| k <= i < locks.len() && (#[trigger] locks[i]).pin == pin
}

/// The last lock on each taken pin among the first `n`, in order.
pub open spec fn last_on_pins(locks: Seq<LockView>, n: int) -> Seq<LockView>
    decreases n,
{
    if n <= 0 {
        Seq::empty()
    } else if pin_taken(locks, locks[n - 1].pin, n) {
        last_on_pins(locks, n - 1)
    } else {
        last_on_pins(locks, n - 1).push(locks[n - 1])
    }
}

/// The locks among the first `n` that hold neither the signal nor the pin.
pub open spec fn without(
    locks: Seq<LockView>,
    key: (Seq<char>, Seq<char>),
    pin: Option<PinId>,
    n: int,
) -> Seq<LockView>
    decreases n,
{
    if n <= 0 {
        Seq::empty()
    } else if locks[n - 1].key == key || Some(locks[n - 1].pin) == pin {
        without(locks, key, pin, n - 1)
    } else {
        without(locks, key, pin, n - 1).push(locks[n - 1])
    }
}

/// The locks after the signal is locked to the pin.
pub open spec fn locked(locks: Seq<LockView>, key: (Seq<char>, Seq<char>), pin: PinId) -> Seq<
    LockView,
> {
    without(locks, key, Some(pin), locks.len() as int).push(LockView { key, pin })
}

/// The locks after the signal is unlocked.
pub open spec fn unlocked(locks: Seq<LockView>, key: (Seq<char>, Seq<char>)) -> Seq<LockView> {
    without(locks, key, None, locks.len() as int)
}

/// The locks among the first `n` that are of other peripherals.
pub open spec fn other_locks(locks: Seq<LockView>, peripheral: Seq<char>, n: int) -> Seq<LockView>
    decreases n,
{
    if n <= 0 {
        Seq::empty()
    } else if locks[n - 1].key.0 == peripheral {
        other_locks(locks, peripheral, n - 1)
    } else {
        other_locks(locks, peripheral, n - 1).push(locks[n - 1])
    }
}

/// No signal has two locks, and no pin has two.
pub open spec fn one_each(locks: Seq<LockView>) -> bool {
    forall|i: int, j: int|
        #![trigger locks[i], locks[j]]
        0 <= i < j < locks.len() ==> locks[i].key != locks[j].key && locks[i].pin != locks[j].pin
}

/// Whether the peripheral is in use.
pub open spec fn in_use(uses: Seq<UseView>, peripheral: Seq<char>) -> bool {
    exists|i: int| 0 <= i < uses.len() && (#[trigger] uses[i]).peripheral == peripheral
}

/// The design after a use is declared; one that is declared already stays.
pub open spec fn with_use(d: DesignView, peripheral: Seq<char>, roles: Seq<Seq<char>>) -> DesignView {
    if in_use(d.uses, peripheral) {
        d
    } else {
        DesignView {
            uses: d.uses.push(UseView { peripheral, roles, note: Seq::empty() }),
            ..d
        }
    }
}

/// The design after a use is removed, its locks with it.
pub open spec fn without_use(d: DesignView, index: int) -> DesignView {
    if 0 <= index < d.uses.len() {
        DesignView {
            locks: other_locks(d.locks, d.uses[index].peripheral, d.locks.len() as int),
            uses: d.uses.remove(index),
            ..d
        }
    } else {
        d
    }
}

/// The texts among the first `n` that are not the given one.
pub open spec fn texts_but(v: Seq<Seq<char>>, s: Seq<char>, n: int) -> Seq<Seq<char>>
    decreases n,
{
    if n <= 0 {
        Seq::empty()
    } else if v[n - 1] == s {
        texts_but(v, s, n - 1)
    } else {
        texts_but(v, s, n - 1).push(v[n - 1])
    }
}

/// The design after a role of a use is switched on or off; switched off, it is
/// unlocked too.
pub open spec fn with_role(d: DesignView, index: int, role: Seq<char>, on: bool) -> DesignView {
    if 0 <= index < d.uses.len() {
        let u = d.uses[index];
        let listed = u.roles.contains(role);
        if on && !listed {
            DesignView {
                uses: d.uses.update(index, UseView { roles: u.roles.push(role), ..u }),
                ..d
            }
        } else if !on && listed {
            DesignView {
                locks: unlocked(d.locks, (u.peripheral, role)),
                uses: d.uses.update(
                    index,
                    UseView { roles: texts_but(u.roles, role, u.roles.len() as int), ..u },
                ),
                ..d
            }
        } else {
            d
        }
    } else {
        d
    }
}

/// The first `n` roles of a use, each with the peripheral.
pub open spec fn use_signals(u: UseView, n: int) -> Seq<(Seq<char>, Seq<char>)> {
    Seq::new(n as nat, |i: int| (u.peripheral, u.roles[i]))
}

/// The wanted signals of the first `n` uses.
pub open spec fn wanted(uses: Seq<UseView>, n: int) -> Seq<(Seq<char>, Seq<char>)>
    decreases n,
{
    if n <= 0 {
        Seq::empty()
    } else {
        wanted(uses, n - 1) + use_signals(uses[n - 1], uses[n - 1].roles.len() as int)
    }
}

/// The alternate function of the first row, from position `k` on, that carries the
/// signal on the pin.
pub open spec fn af_at(rows: Seq<AfRow>, key: (Seq<char>, Seq<char>), pin: PinId, k: int) -> Option<u8>
    decreases rows.len() - k,
{
    if k < 0 || k >= rows.len() {
        None
    } else if rows[k].pin == pin && rows[k].signal.peripheral@ == key.0 && rows[k].signal.role@
        == key.1 {
        rows[k].af
    } else {
        af_at(rows, key, pin, k + 1)
    }
}

/// The placements of the first `n` locks.
pub open spec fn lock_placements(locks: Seq<LockView>, rows: Seq<AfRow>, n: int) -> Seq<
    PlacementView,
> {
    Seq::new(
        n as nat,
        |i: int|
            plain_placement(
                locks[i].key,
                Some(locks[i].pin),
                PinOrigin::Locked,
                af_at(rows, locks[i].key, locks[i].pin, 0),
                RoleView::Gpio,
            ),
    )
}

/// The placements of the wanted signals among the first `n` that have no lock.
pub open spec fn open_placements(
    signals: Seq<(Seq<char>, Seq<char>)>,
    locks: Seq<LockView>,
    n: int,
) -> Seq<PlacementView>
    decreases n,
{
    if n <= 0 {
        Seq::empty()
    } else if pin_of(locks, signals[n - 1], 0) is None {
        open_placements(signals, locks, n - 1).push(
            plain_placement(signals[n - 1], None, PinOrigin::Locked, None, RoleView::Gpio),
        )
    } else {
        open_placements(signals, locks, n - 1)
    }
}

/// The lowered design.
pub open spec fn plan_of(
    d: DesignView,
    raw: RawMcuData,
    package: Seq<char>,
    family: Seq<char>,
) -> PlanView {
    let signals = wanted(d.uses, d.uses.len() as int);
    PlanView {
        placements: sorted_placements(
            lock_placements(d.locks, rows_of(raw), d.locks.len() as int) + open_placements(
                signals,
                d.locks,
                signals.len() as int,
            ),
        ),
        ..empty_plan(package, family)
    }
}

/// Whether a row carries the signal.
pub open spec fn is_reachable(rows: Seq<AfRow>, key: (Seq<char>, Seq<char>)) -> bool {
    exists|i: int|
        0 <= i < rows.len() && (#[trigger] rows[i]).signal.peripheral@ == key.0
            && rows[i].signal.role@ == key.1
}

/// Whether a row has the signal on the pin.
pub open spec fn carries(rows: Seq<AfRow>, key: (Seq<char>, Seq<char>), pin: PinId) -> bool {
    exists|i: int|
        0 <= i < rows.len() && (#[trigger] rows[i]).signal.peripheral@ == key.0
            && rows[i].signal.role@ == key.1 && rows[i].pin == pin
}

/// Whether a signal is locked to a pin that the chip has it on.
pub open spec fn is_placed(
    locks: Seq<LockView>,
    rows: Seq<AfRow>,
    key: (Seq<char>, Seq<char>),
) -> bool {
    pin_of(locks, key, 0) matches Some(p) && carries(rows, key, p)
}

/// The problems of the first `n` wanted signals.
pub open spec fn problems_upto(
    signals: Seq<(Seq<char>, Seq<char>)>,
    locks: Seq<LockView>,
    rows: Seq<AfRow>,
    n: int,
) -> Seq<ProblemView>
    decreases n,
{
    if n <= 0 {
        Seq::empty()
    } else {
        let key = signals[n - 1];
        let before = problems_upto(signals, locks, rows, n - 1);
        if !is_reachable(rows, key) {
            before.push(ProblemView::Unreachable { peripheral: key.0, role: key.1 })
        } else if !is_placed(locks, rows, key) {
            before.push(ProblemView::Unplaced { peripheral: key.0, role: key.1 })
        } else {
            before
        }
    }
}

/// The problems of a design on a chip.
pub open spec fn problems_of(d: DesignView, raw: RawMcuData) -> Seq<ProblemView> {
    let signals = wanted(d.uses, d.uses.len() as int);
    problems_upto(signals, d.locks, rows_of(raw), signals.len() as int)
}

/// Whether two designs are the same, notes aside.
pub open spec fn same_but_notes(a: DesignView, b: DesignView) -> bool {
    &&& a.format_version == b.format_version
    &&& a.locks == b.locks
    &&& a.uses.len() == b.uses.len()
    &&& forall|i: int|
        0 <= i < a.uses.len() ==> (#[trigger] a.uses[i]).peripheral == b.uses[i].peripheral
            && a.uses[i].roles == b.uses[i].roles
}

/// Locks by peripheral, then role, equal ones in their first order.
pub open spec fn sorted_locks(v: Seq<LockView>) -> Seq<LockView> {
    let by_role = picked(v, order_of(text_ranks(v.map_values(|l: LockView| l.key.1))));
    picked(by_role, order_of(text_ranks(by_role.map_values(|l: LockView| l.key.0))))
}

/// One line of a summary.
pub open spec fn lock_line(l: LockView) -> Seq<char> {
    "  "@ + l.key.0 + " "@ + l.key.1 + ": "@ + pin_name(l.pin) + "\n"@
}

/// The lines of the first `n` locks.
pub open spec fn lock_lines(v: Seq<LockView>, n: int) -> Seq<char>
    decreases n,
{
    if n <= 0 {
        Seq::empty()
    } else {
        lock_lines(v, n - 1) + lock_line(v[n - 1])
    }
}

/// A summary of the pins.
pub open spec fn summary_of(d: DesignView, part: Seq<char>) -> Seq<char> {
    let v = sorted_locks(d.locks);
    part + " — pin allocation ("@ + decimal(d.locks.len() as int) + " locks)\n"@ + lock_lines(
        v,
        v.len() as int,
    )
}

fn pick_locks(v: &[PinLock], keys: &[u64]) -> (r: Vec<PinLock>)
    requires
        v@.len() == keys@.len(),
    ensures
        lock_views(r@) == picked(lock_views(v@), order_of(keys@)),
        r@.len() == v@.len(),
{
    let o: Vec<usize> = order::stable_order(keys);
    let mut out: Vec<PinLock> = Vec::new();
    let mut k: usize = 0;
    while k < o.len()
        invariant
            k <= o@.len(),
            o@.len() == v@.len(),
            order::is_stable_order(keys@, o@, v@.len() as int),
            out@.len() == k,
            forall|j: int| 0 <= j < k ==> (#[trigger] out@[j])@ == v@[o@[j] as int]@,
        decreases o@.len() - k,
    {
        assert(o@[k as int] < v@.len());
        out.push(v[o[k]].copy());
        k += 1;
    }
    proof {
        assert(lock_views(out@) =~= picked(lock_views(v@), o@));
    }
    out
}

fn sort_locks(v: &[PinLock]) -> (r: Vec<PinLock>)
    ensures
        lock_views(r@) == sorted_locks(lock_views(v@)),
        r@.len() == v@.len(),
{
    let ghost a = lock_views(v@);
    let mut roles: Vec<String> = Vec::new();
    let mut i: usize = 0;
    while i < v.len()
        invariant
            i <= v@.len(),
            roles@.len() == i,
            a == lock_views(v@),
            forall|k: int| 0 <= k < i ==> (#[trigger] roles@[k])@ == a[k].key.1,
        decreases v@.len() - i,
    {
        roles.push(copy_text(v[i].role.as_str()));
        i += 1;
    }
    proof {
        assert(views(roles@) =~= a.map_values(|l: LockView| l.key.1));
    }
    let k1: Vec<u64> = texts::rank_texts(&roles);
    let by_role: Vec<PinLock> = pick_locks(v, &k1);
    let ghost b = lock_views(by_role@);
    let mut names: Vec<String> = Vec::new();
    let mut j: usize = 0;
    while j < by_role.len()
        invariant
            j <= by_role@.len(),
            names@.len() == j,
            b == lock_views(by_role@),
            forall|k: int| 0 <= k < j ==> (#[trigger] names@[k])@ == b[k].key.0,
        decreases by_role@.len() - j,
    {
        names.push(copy_text(by_role[j].peripheral.as_str()));
        j += 1;
    }
    proof {
        assert(views(names@) =~= b.map_values(|l: LockView| l.key.0));
    }
    let k2: Vec<u64> = texts::rank_texts(&names);
    pick_locks(&by_role, &k2)
}

fn find_af(rows: &[AfRow], peripheral: &str, role: &str, pin: PinId) -> (r: Option<u8>)
    ensures
        r == af_at(rows@, (peripheral@, role@), pin, 0),
{
    let ghost key = (peripheral@, role@);
    let mut k: usize = 0;
    while k < rows.len()
        invariant
            k <= rows@.len(),
            key == (peripheral@, role@),
            af_at(rows@, key, pin, 0) == af_at(rows@, key, pin, k as int),
        decreases rows@.len() - k,
    {
        if rows[k].pin == pin && text::same(rows[k].signal.peripheral, peripheral) && text::same(
            rows[k].signal.role,
            role,
        ) {
            return rows[k].af;
        }
        k += 1;
    }
    None
}

/// The alternate function with which a chip carries the signal on the pin.
pub fn af_of(raw: &RawMcuData, peripheral: &str, role: &str, pin: PinId) -> (r: Option<u8>)
    ensures
        r == af_at(rows_of(*raw), (peripheral@, role@), pin, 0),
{
    let rows: Vec<AfRow> = mcu_pinout::af_rows(raw);
    find_af(&rows, peripheral, role, pin)
}

fn reachable(rows: &[AfRow], peripheral: &str, role: &str) -> (r: bool)
    ensures
        r == is_reachable(rows@, (peripheral@, role@)),
{
    let mut k: usize = 0;
    while k < rows.len()
        invariant
            k <= rows@.len(),
            forall|i: int|
                0 <= i < k ==> !((#[trigger] rows@[i]).signal.peripheral@ == peripheral@
                    && rows@[i].signal.role@ == role@),
        decreases rows@.len() - k,
    {
        if text::same(rows[k].signal.peripheral, peripheral) && text::same(
            rows[k].signal.role,
            role,
        ) {
            assert(rows@[k as int].signal.peripheral@ == peripheral@);
            return true;
        }
        k += 1;
    }
    false
}

fn row_carries(rows: &[AfRow], peripheral: &str, role: &str, pin: PinId) -> (r: bool)
    ensures
        r == carries(rows@, (peripheral@, role@), pin),
{
    let mut k: usize = 0;
    while k < rows.len()
        invariant
            k <= rows@.len(),
            forall|i: int|
                0 <= i < k ==> !((#[trigger] rows@[i]).signal.peripheral@ == peripheral@
                    && rows@[i].signal.role@ == role@ && rows@[i].pin == pin),
        decreases rows@.len() - k,
    {
        if rows[k].pin == pin && text::same(rows[k].signal.peripheral, peripheral) && text::same(
            rows[k].signal.role,
            role,
        ) {
            assert(rows@[k as int].pin == pin);
            return true;
        }
        k += 1;
    }
    false
}

fn drop_text(v: &[String], s: &str) -> (r: Vec<String>)
    ensures
        views(r@) == texts_but(views(v@), s@, v@.len() as int),
{
    let mut out: Vec<String> = Vec::new();
    let mut i: usize = 0;
    proof {
        assert(views(out@) =~= texts_but(views(v@), s@, 0));
    }
    while i < v.len()
        invariant
            i <= v@.len(),
            views(out@) == texts_but(views(v@), s@, i as int),
        decreases v@.len() - i,
    {
        let ghost had = out@;
        if !text::same(v[i].as_str(), s) {
            out.push(copy_text(v[i].as_str()));
            proof {
                assert(views(out@) =~= views(had).push(v@[i as int]@));
            }
        }
        i += 1;
    }
    out
}

impl H523Design {
    /// A design with nothing in it.
    pub fn new() -> (r: H523Design)
        ensures
            r@ == empty_design(),
    {
        let r: H523Design = H523Design {
            format_version: H523_DESIGN_FORMAT_VERSION,
            pin_locks: Vec::new(),
            uses: Vec::new(),
        };
        proof {
            assert(r@.locks =~= empty_design().locks);
            assert(r@.uses =~= empty_design().uses);
        }
        r
    }

    /// The pin locked for the signal.
    pub fn locked_pin(&self, peripheral: &str, role: &str) -> (r: Option<PinId>)
        ensures
            r == pin_of(self@.locks, (peripheral@, role@), 0),
    {
        let ghost key = (peripheral@, role@);
        let mut k: usize = 0;
        while k < self.pin_locks.len()
            invariant
                k <= self.pin_locks@.len(),
                key == (peripheral@, role@),
                pin_of(self@.locks, key, 0) == pin_of(self@.locks, key, k as int),
            decreases self.pin_locks@.len() - k,
        {
            let l: &PinLock = &self.pin_locks[k];
            if text::same(l.peripheral.as_str(), peripheral) && text::same(l.role.as_str(), role) {
                return Some(l.pin());
            }
            k += 1;
        }
        None
    }

    /// The signal that occupies the pin.
    pub fn occupant_of(&self, pin: PinId) -> (r: Option<(&str, &str)>)
        ensures
            r is Some <==> signal_on(self@.locks, pin, 0) is Some,
            r matches Some(s) ==> signal_on(self@.locks, pin, 0) == Some((s.0@, s.1@)),
    {
        let mut k: usize = 0;
        while k < self.pin_locks.len()
            invariant
                k <= self.pin_locks@.len(),
                signal_on(self@.locks, pin, 0) == signal_on(self@.locks, pin, k as int),
            decreases self.pin_locks@.len() - k,
        {
            if self.pin_locks[k].pin() == pin {
                return Some(self.pin_locks[k].signal_key());
            }
            k += 1;
        }
        None
    }

    fn taken_later(&self, pin: PinId, from: usize) -> (r: bool)
        ensures
            r == pin_taken(self@.locks, pin, from as int),
    {
        let mut k: usize = from;
        while k < self.pin_locks.len()
            invariant
                from <= k,
                forall|i: int| from <= i < k && i < self@.locks.len() ==> (#[trigger] self@.locks[i]).pin != pin,
            decreases self.pin_locks@.len() - k,
        {
            if self.pin_locks[k].pin() == pin {
                assert(self@.locks[k as int].pin == pin);
                return true;
            }
            k += 1;
        }
        false
    }

    /// The taken pins, each with the lock that took it last.
    pub fn taken_pins(&self) -> (r: Vec<PinLock>)
        ensures
            lock_views(r@) == last_on_pins(self@.locks, self@.locks.len() as int),
    {
        let mut out: Vec<PinLock> = Vec::new();
        let mut i: usize = 0;
        proof {
            assert(lock_views(out@) =~= last_on_pins(self@.locks, 0));
        }
        while i < self.pin_locks.len()
            invariant
                i <= self.pin_locks@.len(),
                lock_views(out@) == last_on_pins(self@.locks, i as int),
            decreases self.pin_locks@.len() - i,
        {
            let ghost had = out@;
            if !self.taken_later(self.pin_locks[i].pin(), i + 1) {
                out.push(self.pin_locks[i].copy());
                proof {
                    assert(lock_views(out@) =~= lock_views(had).push(self@.locks[i as int]));
                }
            }
            i += 1;
        }
        out
    }

    fn kept_locks(&self, peripheral: &str, role: &str, pin: Option<PinId>) -> (r: Vec<PinLock>)
        ensures
            lock_views(r@) == without(
                self@.locks,
                (peripheral@, role@),
                pin,
                self@.locks.len() as int,
            ),
    {
        let ghost key = (peripheral@, role@);
        let mut out: Vec<PinLock> = Vec::new();
        let mut i: usize = 0;
        proof {
            assert(lock_views(out@) =~= without(self@.locks, key, pin, 0));
        }
        while i < self.pin_locks.len()
            invariant
                i <= self.pin_locks@.len(),
                key == (peripheral@, role@),
                lock_views(out@) == without(self@.locks, key, pin, i as int),
            decreases self.pin_locks@.len() - i,
        {
            let ghost had = out@;
            let l: &PinLock = &self.pin_locks[i];
            let same_signal: bool = text::same(l.peripheral.as_str(), peripheral) && text::same(
                l.role.as_str(),
                role,
            );
            let same_pin: bool = match pin {
                Some(p) => l.pin() == p,
                None => false,
            };
            if !same_signal && !same_pin {
                out.push(l.copy());
                proof {
                    assert(lock_views(out@) =~= lock_views(had).push(self@.locks[i as int]));
                }
            }
            i += 1;
        }
        out
    }

    /// Lock the signal to the pin. An earlier lock of the signal, or of another signal
    /// on the pin, goes.
    pub fn lock(&mut self, peripheral: &str, role: &str, pin: PinId)
        ensures
            final(self)@ == (DesignView {
                locks: locked(old(self)@.locks, (peripheral@, role@), pin),
                ..old(self)@
            }),
    {
        let ghost before = self@;
        let mut locks: Vec<PinLock> = self.kept_locks(peripheral, role, Some(pin));
        let ghost had = locks@;
        let l: PinLock = PinLock {
            peripheral: copy_text(peripheral),
            role: copy_text(role),
            port: pin.port,
            num: pin.num,
        };
        locks.push(l);
        proof {
            assert(lock_views(locks@) =~= lock_views(had).push(l@));
        }
        self.pin_locks = locks;
    }

    /// Drop the signal's lock.
    pub fn unlock(&mut self, peripheral: &str, role: &str)
        ensures
            final(self)@ == (DesignView {
                locks: unlocked(old(self)@.locks, (peripheral@, role@)),
                ..old(self)@
            }),
    {
        self.pin_locks = self.kept_locks(peripheral, role, None);
    }

    /// A summary of the pins to copy.
    pub fn export_summary(&self, part_name: &str) -> (r: String)
        ensures
            r@ == summary_of(self@, part_name@),
    {
        let mut s: String = part_name.to_owned();
        s.append(" — pin allocation (");
        text::push_number(&mut s, self.pin_locks.len() as u64);
        s.append(" locks)\n");
        let ghost head = s@;
        let locks: Vec<PinLock> = sort_locks(&self.pin_locks);
        let ghost v = lock_views(locks@);
        let mut i: usize = 0;
        proof {
            assert(s@ =~= head + lock_lines(v, 0));
        }
        while i < locks.len()
            invariant
                i <= locks@.len(),
                v == lock_views(locks@),
                s@ == head + lock_lines(v, i as int),
            decreases locks@.len() - i,
        {
            let l: &PinLock = &locks[i];
            let ghost had = s@;
            s.append("  ");
            s.append(l.peripheral.as_str());
            s.append(" ");
            s.append(l.role.as_str());
            s.append(": ");
            let name: String = l.pin().name();
            s.append(name.as_str());
            s.append("\n");
            proof {
                assert(s@ =~= had + lock_line(v[i as int]));
                assert(s@ =~= head + lock_lines(v, i + 1));
            }
            i += 1;
        }
        s
    }

    fn uses_peripheral(&self, peripheral: &str) -> (r: bool)
        ensures
            r == in_use(self@.uses, peripheral@),
    {
        let mut i: usize = 0;
        while i < self.uses.len()
            invariant
                i <= self.uses@.len(),
                forall|k: int| 0 <= k < i ==> (#[trigger] self@.uses[k]).peripheral != peripheral@,
            decreases self.uses@.len() - i,
        {
            if text::same(self.uses[i].peripheral.as_str(), peripheral) {
                assert(self@.uses[i as int].peripheral == peripheral@);
                return true;
            }
            i += 1;
        }
        false
    }

    /// Declare a use. A peripheral that is in use already stays as it is.
    pub fn add_use(&mut self, peripheral: &str, roles: &[&str])
        ensures
            final(self)@ == with_use(old(self)@, peripheral@, str_views(roles@)),
    {
        if self.uses_peripheral(peripheral) {
            return;
        }
        let ghost before = self@;
        let mut list: Vec<String> = Vec::new();
        let mut i: usize = 0;
        while i < roles.len()
            invariant
                i <= roles@.len(),
                list@.len() == i,
                forall|k: int| 0 <= k < i ==> (#[trigger] list@[k])@ == roles@[k]@,
            decreases roles@.len() - i,
        {
            list.push(copy_text(roles[i]));
            i += 1;
        }
        let note: String = String::new();
        proof {
            assert(views(list@) =~= str_views(roles@));
            assert(note@ =~= Seq::<char>::empty());
        }
        let u: PeripheralUse = PeripheralUse { peripheral: copy_text(peripheral), roles: list, note };
        self.uses.push(u);
        proof {
            assert(self@.uses =~= before.uses.push(u@));
        }
    }

    /// Remove a use and its locks; an index past the end changes nothing.
    pub fn remove_use(&mut self, index: usize)
        ensures
            final(self)@ == without_use(old(self)@, index as int),
    {
        if index < self.uses.len() {
            let ghost before = self@;
            let u: PeripheralUse = self.uses.remove(index);
            proof {
                assert(self@.uses =~= before.uses.remove(index as int));
            }
            let mut out: Vec<PinLock> = Vec::new();
            let mut i: usize = 0;
            proof {
                assert(lock_views(out@) =~= other_locks(before.locks, u@.peripheral, 0));
            }
            while i < self.pin_locks.len()
                invariant
                    i <= self.pin_locks@.len(),
                    self@.locks == before.locks,
                    lock_views(out@) == other_locks(before.locks, u@.peripheral, i as int),
                decreases self.pin_locks@.len() - i,
            {
                let ghost had = out@;
                let l: &PinLock = &self.pin_locks[i];
                proof {
                    assert(before.locks[i as int] == l@);
                }
                if !text::same(l.peripheral.as_str(), u.peripheral.as_str()) {
                    out.push(l.copy());
                    proof {
                        assert(lock_views(out@) =~= lock_views(had).push(before.locks[i as int]));
                    }
                }
                i += 1;
            }
            self.pin_locks = out;
        }
    }

    /// Switch a role of a use on or off; switched off, it is unlocked too.
    pub fn set_role(&mut self, index: usize, role: &str, on: bool)
        ensures
            final(self)@ == with_role(old(self)@, index as int, role@, on),
    {
        if index < self.uses.len() {
            let ghost before = self@;
            let listed: bool = holds_text(&self.uses[index].roles, role);
            if on && !listed {
                let mut u: PeripheralUse = self.uses.remove(index);
                let ghost had = u@;
                let ghost list = u.roles@;
                u.roles.push(copy_text(role));
                proof {
                    assert(views(u.roles@) =~= views(list).push(role@));
                }
                self.uses.insert(index, u);
                proof {
                    assert(self@.uses =~= before.uses.update(index as int, u@));
                }
            } else if !on && listed {
                let mut u: PeripheralUse = self.uses.remove(index);
                u.roles = drop_text(&u.roles, role);
                let peripheral: String = copy_text(u.peripheral.as_str());
                self.uses.insert(index, u);
                proof {
                    assert(self@.uses =~= before.uses.update(index as int, u@));
                }
                self.unlock(peripheral.as_str(), role);
            }
        }
    }

    /// Whether two designs are the same but for the notes.
    pub fn eq_ignoring_notes(&self, other: &H523Design) -> (r: bool)
        ensures
            r == same_but_notes(self@, other@),
    {
        if self.format_version != other.format_version {
            return false;
        }
        if self.pin_locks.len() != other.pin_locks.len() || self.uses.len() != other.uses.len() {
            assert(self@.locks.len() != other@.locks.len() || self@.uses.len() != other@.uses.len());
            return false;
        }
        let mut i: usize = 0;
        while i < self.pin_locks.len()
            invariant
                i <= self.pin_locks@.len(),
                self.pin_locks@.len() == other.pin_locks@.len(),
                forall|k: int| 0 <= k < i ==> (#[trigger] self@.locks[k]) == other@.locks[k],
            decreases self.pin_locks@.len() - i,
        {
            let a: &PinLock = &self.pin_locks[i];
            let b: &PinLock = &other.pin_locks[i];
            if !(text::same(a.peripheral.as_str(), b.peripheral.as_str()) && text::same(
                a.role.as_str(),
                b.role.as_str(),
            ) && a.pin() == b.pin()) {
                assert(self@.locks[i as int] != other@.locks[i as int]);
                return false;
            }
            i += 1;
        }
        proof {
            assert(self@.locks =~= other@.locks);
        }
        let mut j: usize = 0;
        while j < self.uses.len()
            invariant
                j <= self.uses@.len(),
                self.uses@.len() == other.uses@.len(),
                forall|k: int|
                    0 <= k < j ==> (#[trigger] self@.uses[k]).peripheral == other@.uses[k].peripheral
                        && self@.uses[k].roles == other@.uses[k].roles,
            decreases self.uses@.len() - j,
        {
            let a: &PeripheralUse = &self.uses[j];
            let b: &PeripheralUse = &other.uses[j];
            if !(text::same(a.peripheral.as_str(), b.peripheral.as_str()) && same_texts(
                &a.roles,
                &b.roles,
            )) {
                assert(self@.uses[j as int].peripheral != other@.uses[j as int].peripheral
                    || self@.uses[j as int].roles != other@.uses[j as int].roles);
                return false;
            }
            j += 1;
        }
        true
    }

    /// Every wanted signal.
    pub fn declared_signals(&self) -> (r: Vec<OwnedSignal>)
        ensures
            r@.map_values(|s: OwnedSignal| s.key()) == wanted(self@.uses, self@.uses.len() as int),
    {
        let ghost f = |s: OwnedSignal| s.key();
        let mut out: Vec<OwnedSignal> = Vec::new();
        let mut i: usize = 0;
        proof {
            assert(out@.map_values(f) =~= wanted(self@.uses, 0));
        }
        while i < self.uses.len()
            invariant
                i <= self.uses@.len(),
                f == (|s: OwnedSignal| s.key()),
                out@.map_values(f) == wanted(self@.uses, i as int),
            decreases self.uses@.len() - i,
        {
            let u: &PeripheralUse = &self.uses[i];
            let ghost base = out@.map_values(f);
            let mut k: usize = 0;
            proof {
                assert(u@ == self@.uses[i as int]);
                assert(out@.map_values(f) =~= base + use_signals(u@, 0));
            }
            while k < u.roles.len()
                invariant
                    k <= u.roles@.len(),
                    f == (|s: OwnedSignal| s.key()),
                    out@.map_values(f) == base + use_signals(u@, k as int),
                decreases u.roles@.len() - k,
            {
                let ghost had = out@;
                let s: OwnedSignal = OwnedSignal::new(u.peripheral.as_str(), u.roles[k].as_str());
                out.push(s);
                proof {
                    assert(out@.map_values(f) =~= had.map_values(f).push(s.key()));
                    assert(out@.map_values(f) =~= base + use_signals(u@, k + 1));
                }
                k += 1;
            }
            i += 1;
        }
        out
    }

    /// Lower the design: a placement for each lock, and one without a pin for each
    /// wanted signal that has no lock.
    pub fn to_pin_plan(&self, target: Target, raw: &RawMcuData) -> (r: PinPlan)
        ensures
            r@ == plan_of(self@, *raw, target.package@, target.family@),
    {
        let ghost package = target.package@;
        let ghost family = target.family@;
        let rows: Vec<AfRow> = mcu_pinout::af_rows(raw);
        let mut plan: PinPlan = PinPlan::empty(target);
        let mut placements: Vec<Placement> = Vec::new();
        let ghost locks = self@.locks;
        let mut i: usize = 0;
        proof {
            assert(placement_views(placements@) =~= lock_placements(locks, rows@, 0));
        }
        while i < self.pin_locks.len()
            invariant
                i <= self.pin_locks@.len(),
                locks == self@.locks,
                placement_views(placements@) == lock_placements(locks, rows@, i as int),
            decreases self.pin_locks@.len() - i,
        {
            let l: &PinLock = &self.pin_locks[i];
            let ghost had = placements@;
            let af: Option<u8> = find_af(&rows, l.peripheral.as_str(), l.role.as_str(), l.pin());
            let signal: OwnedSignal = OwnedSignal::new(l.peripheral.as_str(), l.role.as_str());
            let p: Placement = Placement::plain(
                signal,
                Some(l.pin()),
                PinOrigin::Locked,
                af,
                RoleKind::Gpio,
            );
            placements.push(p);
            proof {
                assert(locks[i as int] == l@);
                assert(placement_views(placements@) =~= placement_views(had).push(p@));
                assert(placement_views(placements@) =~= lock_placements(locks, rows@, i + 1));
            }
            i += 1;
        }
        let ghost first = placement_views(placements@);
        let declared: Vec<OwnedSignal> = self.declared_signals();
        let ghost signals = declared@.map_values(|s: OwnedSignal| s.key());
        let mut k: usize = 0;
        proof {
            assert(placement_views(placements@) =~= first + open_placements(signals, locks, 0));
        }
        while k < declared.len()
            invariant
                k <= declared@.len(),
                locks == self@.locks,
                signals == declared@.map_values(|s: OwnedSignal| s.key()),
                placement_views(placements@) == first + open_placements(signals, locks, k as int),
            decreases declared@.len() - k,
        {
            let s: &OwnedSignal = &declared[k];
            let ghost had = placements@;
            proof {
                assert(signals[k as int] == s.key());
            }
            if self.locked_pin(s.peripheral.as_str(), s.role.as_str()).is_none() {
                let signal: OwnedSignal = OwnedSignal::new(s.peripheral.as_str(), s.role.as_str());
                let p: Placement = Placement::plain(
                    signal,
                    None,
                    PinOrigin::Locked,
                    None,
                    RoleKind::Gpio,
                );
                placements.push(p);
                proof {
                    assert(placement_views(placements@) =~= placement_views(had).push(p@));
                    assert(placement_views(placements@) =~= first + open_placements(
                        signals,
                        locks,
                        k + 1,
                    ));
                }
            }
            k += 1;
        }
        plan.placements = placements;
        plan.sort_placements();
        plan
    }

    /// What keeps the design from being complete on a chip: wanted roles that the chip
    /// has on no pin, and wanted roles that are not locked to a pin which the chip has them on.
    pub fn validate(&self, raw: &RawMcuData) -> (r: Vec<H523Problem>)
        ensures
            problem_views(r@) == problems_of(self@, *raw),
    {
        let rows: Vec<AfRow> = mcu_pinout::af_rows(raw);
        let declared: Vec<OwnedSignal> = self.declared_signals();
        let ghost signals = declared@.map_values(|s: OwnedSignal| s.key());
        let ghost locks = self@.locks;
        let mut out: Vec<H523Problem> = Vec::new();
        let mut k: usize = 0;
        proof {
            assert(problem_views(out@) =~= problems_upto(signals, locks, rows@, 0));
        }
        while k < declared.len()
            invariant
                k <= declared@.len(),
                locks == self@.locks,
                signals == declared@.map_values(|s: OwnedSignal| s.key()),
                problem_views(out@) == problems_upto(signals, locks, rows@, k as int),
            decreases declared@.len() - k,
        {
            let s: &OwnedSignal = &declared[k];
            let ghost had = out@;
            proof {
                assert(signals[k as int] == s.key());
            }
            if !reachable(&rows, s.peripheral.as_str(), s.role.as_str()) {
                let p: H523Problem = H523Problem::Unreachable {
                    peripheral: copy_text(s.peripheral.as_str()),
                    role: copy_text(s.role.as_str()),
                };
                out.push(p);
                proof {
                    assert(problem_views(out@) =~= problem_views(had).push(p@));
                }
                k += 1;
                continue;
            }
            let placed: bool = match self.locked_pin(s.peripheral.as_str(), s.role.as_str()) {
                Some(pin) => row_carries(&rows, s.peripheral.as_str(), s.role.as_str(), pin),
                None => false,
            };
            if !placed {
                let p: H523Problem = H523Problem::Unplaced {
                    peripheral: copy_text(s.peripheral.as_str()),
                    role: copy_text(s.role.as_str()),
                };
                out.push(p);
                proof {
                    assert(problem_views(out@) =~= problem_views(had).push(p@));
                }
            }
            k += 1;
        }
        out
    }

    /// The same design again.
    pub fn copy(&self) -> (r: H523Design)
        ensures
            r@ == self@,
    {
        let mut locks: Vec<PinLock> = Vec::new();
        let mut i: usize = 0;
        while i < self.pin_locks.len()
            invariant
                i <= self.pin_locks@.len(),
                locks@.len() == i,
                forall|k: int| 0 <= k < i ==> (#[trigger] locks@[k])@ == self.pin_locks@[k]@,
            decreases self.pin_locks@.len() - i,
        {
            locks.push(self.pin_locks[i].copy());
            i += 1;
        }
        let mut uses: Vec<PeripheralUse> = Vec::new();
        let mut j: usize = 0;
        while j < self.uses.len()
            invariant
                j <= self.uses@.len(),
                uses@.len() == j,
                forall|k: int| 0 <= k < j ==> (#[trigger] uses@[k])@ == self.uses@[k]@,
            decreases self.uses@.len() - j,
        {
            let u: &PeripheralUse = &self.uses[j];
            uses.push(
                PeripheralUse {
                    peripheral: copy_text(u.peripheral.as_str()),
                    roles: copy_texts(&u.roles),
                    note: copy_text(u.note.as_str()),
                },
            );
            j += 1;
        }
        let r: H523Design = H523Design { format_version: self.format_version, pin_locks: locks, uses };
        proof {
            assert(r@.locks =~= self@.locks);
            assert(r@.uses =~= self@.uses);
        }
        r
    }
}

impl Default for H523Design {
    fn default() -> (r: Self)
        ensures
            r@ == empty_design(),
    {
        H523Design::new()
    }
}

proof fn without_facts(
    locks: Seq<LockView>,
    key: (Seq<char>, Seq<char>),
    pin: Option<PinId>,
    n: int,
)
    requires
        0 <= n <= locks.len(),
    ensures
        ({
            let v = without(locks, key, pin, n);
            &&& forall|i: int|
                0 <= i < v.len() ==> (#[trigger] v[i]).key != key && Some(v[i].pin) != pin
                    && locks.take(n).contains(v[i])
            &&& forall|i: int|
                0 <= i < n && (#[trigger] locks[i]).key != key && Some(locks[i].pin) != pin
                    ==> v.contains(locks[i])
            &&& one_each(locks) ==> one_each(v)
        }),
    decreases n,
{
    if n > 0 {
        without_facts(locks, key, pin, n - 1);
        let u = without(locks, key, pin, n - 1);
        let v = without(locks, key, pin, n);
        let s = locks.take(n - 1);
        let t = locks.take(n);
        assert(t[n - 1] == locks[n - 1]);
        assert forall|i: int| 0 <= i < v.len() implies (#[trigger] v[i]).key != key && Some(
            v[i].pin,
        ) != pin && t.contains(v[i]) by {
            if i < u.len() {
                assert(v[i] == u[i]);
                assert(s.contains(u[i]));
                let x = choose|x: int| 0 <= x < s.len() && s[x] == u[i];
                assert(t[x] == u[i]);
            } else {
                assert(v[i] == t[n - 1]);
            }
        }
        assert forall|i: int|
            0 <= i < n && (#[trigger] locks[i]).key != key && Some(locks[i].pin)
                != pin implies v.contains(locks[i]) by {
            if i < n - 1 {
                assert(u.contains(locks[i]));
                let x = choose|x: int| 0 <= x < u.len() && u[x] == locks[i];
                assert(v[x] == locks[i]);
            } else {
                assert(v[u.len() as int] == locks[i]);
            }
        }
        if one_each(locks) {
            assert forall|i: int, j: int|
                #![trigger v[i], v[j]]
                0 <= i < j < v.len() implies v[i].key != v[j].key && v[i].pin != v[j].pin by {
                assert(v[i] == u[i]);
                if j < u.len() {
                    assert(v[j] == u[j]);
                } else {
                    assert(s.contains(u[i]));
                    let x = choose|x: int| 0 <= x < s.len() && s[x] == u[i];
                    assert(locks[x] == u[i]);
                    assert(locks[n - 1] == v[j]);
                }
            }
        }
    }
}

/// Locking keeps one lock per signal and per pin.
pub proof fn locking_keeps_one_each(
    locks: Seq<LockView>,
    key: (Seq<char>, Seq<char>),
    pin: PinId,
)
    requires
        one_each(locks),
    ensures
        one_each(locked(locks, key, pin)),
        one_each(unlocked(locks, key)),
{
    without_facts(locks, key, Some(pin), locks.len() as int);
    without_facts(locks, key, None, locks.len() as int);
    let u = without(locks, key, Some(pin), locks.len() as int);
    let v = locked(locks, key, pin);
    assert forall|i: int, j: int|
        #![trigger v[i], v[j]]
        0 <= i < j < v.len() implies v[i].key != v[j].key && v[i].pin != v[j].pin by {
        assert(v[i] == u[i]);
        if j < u.len() {
            assert(v[j] == u[j]);
        }
    }
}

proof fn pin_of_absent(locks: Seq<LockView>, key: (Seq<char>, Seq<char>), k: int)
    requires
        0 <= k,
        forall|i: int| k <= i < locks.len() ==> (#[trigger] locks[i]).key != key,
    ensures
        pin_of(locks, key, k) is None,
    decreases locks.len() - k,
{
    if k < locks.len() {
        pin_of_absent(locks, key, k + 1);
    }
}

proof fn pin_of_last(locks: Seq<LockView>, key: (Seq<char>, Seq<char>), k: int)
    requires
        0 <= k < locks.len(),
        locks.last().key == key,
        forall|i: int| k <= i < locks.len() - 1 ==> (#[trigger] locks[i]).key != key,
    ensures
        pin_of(locks, key, k) == Some(locks.last().pin),
    decreases locks.len() - k,
{
    if k < locks.len() - 1 {
        pin_of_last(locks, key, k + 1);
    }
}

/// A locked signal is read back on its pin, and an unlocked one on none.
pub proof fn lock_reads_back(locks: Seq<LockView>, key: (Seq<char>, Seq<char>), pin: PinId)
    ensures
        pin_of(locked(locks, key, pin), key, 0) == Some(pin),
        pin_of(unlocked(locks, key), key, 0) is None,
{
    without_facts(locks, key, Some(pin), locks.len() as int);
    without_facts(locks, key, None, locks.len() as int);
    let u = without(locks, key, Some(pin), locks.len() as int);
    let v = locked(locks, key, pin);
    assert forall|i: int| 0 <= i < v.len() - 1 implies (#[trigger] v[i]).key != key by {
        assert(v[i] == u[i]);
    }
    pin_of_last(v, key, 0);
    pin_of_absent(unlocked(locks, key), key, 0);
}

proof fn without_again(
    locks: Seq<LockView>,
    key: (Seq<char>, Seq<char>),
    pin: Option<PinId>,
    n: int,
)
    requires
        0 <= n <= locks.len(),
        forall|i: int|
            0 <= i < n ==> (#[trigger] locks[i]).key != key && Some(locks[i].pin) != pin,
    ensures
        without(locks, key, pin, n) == locks.take(n),
    decreases n,
{
    if n > 0 {
        without_again(locks, key, pin, n - 1);
        assert(locks.take(n) =~= locks.take(n - 1).push(locks[n - 1]));
    } else {
        assert(locks.take(0) =~= Seq::<LockView>::empty());
    }
}

/// Locking twice is locking once.
pub proof fn lock_is_idempotent(locks: Seq<LockView>, key: (Seq<char>, Seq<char>), pin: PinId)
    ensures
        locked(locked(locks, key, pin), key, pin) == locked(locks, key, pin),
{
    let u = without(locks, key, Some(pin), locks.len() as int);
    let v = locked(locks, key, pin);
    without_facts(locks, key, Some(pin), locks.len() as int);
    assert forall|i: int| 0 <= i < u.len() implies (#[trigger] v[i]).key != key && Some(v[i].pin)
        != Some(pin) by {
        assert(v[i] == u[i]);
    }
    without_again(v, key, Some(pin), u.len() as int);
    assert(v.take(u.len() as int) =~= u);
    assert(without(v, key, Some(pin), v.len() as int) == u);
}

/// A design has no problems exactly when every wanted role is locked to a pin that the chip
/// has it on.
pub proof fn no_problems_means_placed(d: DesignView, raw: RawMcuData)
    ensures
        problems_of(d, raw).len() == 0 <==> forall|i: int|
            0 <= i < wanted(d.uses, d.uses.len() as int).len() ==> is_placed(
                d.locks,
                rows_of(raw),
                #[trigger] wanted(d.uses, d.uses.len() as int)[i],
            ),
{
    let signals = wanted(d.uses, d.uses.len() as int);
    no_problems_upto(signals, d.locks, rows_of(raw), signals.len() as int);
}

proof fn no_problems_upto(
    signals: Seq<(Seq<char>, Seq<char>)>,
    locks: Seq<LockView>,
    rows: Seq<AfRow>,
    n: int,
)
    requires
        0 <= n <= signals.len(),
    ensures
        problems_upto(signals, locks, rows, n).len() == 0 <==> forall|i: int|
            0 <= i < n ==> is_placed(locks, rows, #[trigger] signals[i]),
    decreases n,
{
    if n > 0 {
        no_problems_upto(signals, locks, rows, n - 1);
        let key = signals[n - 1];
        if is_placed(locks, rows, key) {
            let p = pin_of(locks, key, 0)->0;
            let i = choose|i: int|
                0 <= i < rows.len() && (#[trigger] rows[i]).signal.peripheral@ == key.0
                    && rows[i].signal.role@ == key.1 && rows[i].pin == p;
            assert(rows[i].signal.peripheral@ == key.0);
            assert(is_reachable(rows, key));
        }
        if forall|i: int| 0 <= i < n ==> is_placed(locks, rows, #[trigger] signals[i]) {
            assert(is_placed(locks, rows, signals[n - 1]));
        }
    }
}

/// A design without its notes.
pub open spec fn without_notes(d: DesignView) -> DesignView {
    DesignView {
        uses: d.uses.map_values(|u: UseView| UseView { note: Seq::empty(), ..u }),
        ..d
    }
}

/// Two designs are the same but for the notes exactly when they are equal without them.
pub proof fn notes_are_all_that_is_ignored(a: DesignView, b: DesignView)
    ensures
        same_but_notes(a, b) <==> without_notes(a) == without_notes(b),
{
    let x = without_notes(a);
    let y = without_notes(b);
    if same_but_notes(a, b) {
        assert(x.uses =~= y.uses);
    }
    if x == y {
        assert(x.uses.len() == a.uses.len() && y.uses.len() == b.uses.len());
        assert forall|i: int| 0 <= i < a.uses.len() implies (#[trigger] a.uses[i]).peripheral
            == b.uses[i].peripheral && a.uses[i].roles == b.uses[i].roles by {
            assert(x.uses[i] == y.uses[i]);
        }
    }
}

} // verus!
