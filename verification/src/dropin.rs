//! Drop-in replacements: parts that can take a part's place on a board, because every
//! position of the footprint keeps its supply and every wired function stays where it
//! is.

use vstd::prelude::*;

use crate::c531_design::C531Design;
use crate::h523_design::lock_views;
use crate::h523_design::H523Design;
use crate::h523_design::LockView;
use crate::mcu_pinout;
use crate::mcu_pinout::pin_name;
use crate::mcu_pinout::rows_of;
use crate::mcu_pinout::AfRow;
use crate::mcu_pinout::OwnedSignal;
use crate::mcu_pinout::PinId;
use crate::mcu_pinout::PinSet;
use crate::mcu_raw::RawMcuData;
use crate::phys_pinout;
use crate::phys_pinout::bonded_upto;
use crate::phys_pinout::function_of;
use crate::phys_pinout::phys_views;
use crate::phys_pinout::position_at;
use crate::phys_pinout::FnView;
use crate::phys_pinout::PhysPin;
use crate::phys_pinout::PhysView;
use crate::phys_pinout::PinFunction;
use crate::phys_pinout::PinoutRecord;
use crate::pin_locks::locks_of;
use crate::requirements::Design;
use crate::select;
use crate::select::class_name;
use crate::select::kind_of_class;
use crate::text;
use crate::text::decimal;
use crate::text::joined;
use crate::text::views;
use crate::texts;
use crate::texts::copy_text;
use crate::texts::same_texts;
use crate::texts::sorted_texts;

verus! {

/// How well a candidate's signal must match the wired one.
#[derive(Copy, Clone, Debug, PartialEq, Eq, Structural)]
pub enum Strictness {
    /// Same instance and role.
    ExactInstanceRole,
    /// Same kind and role.
    ClassRole,
    /// Same kind.
    ClassOnly,
}

impl Strictness {
    /// All of them, strictest first.
    pub fn all() -> (r: Vec<Strictness>)
        ensures
            r@ == seq![
                Strictness::ExactInstanceRole,
                Strictness::ClassRole,
                Strictness::ClassOnly,
            ],
    {
        vec![Strictness::ExactInstanceRole, Strictness::ClassRole, Strictness::ClassOnly]
    }

    /// A name for the user.
    pub fn label(self) -> (r: &'static str)
        ensures
            r@ == (match self {
                Strictness::ExactInstanceRole => "Exact instance+role"@,
                Strictness::ClassRole => "Class + role"@,
                Strictness::ClassOnly => "Class only"@,
            }),
    {
        match self {
            Strictness::ExactInstanceRole => "Exact instance+role",
            Strictness::ClassRole => "Class + role",
            Strictness::ClassOnly => "Class only",
        }
    }
}

/// What to do about a position that is unused on the source and a supply on the
/// candidate.
#[derive(Copy, Clone, Debug, PartialEq, Eq, Structural)]
pub enum PowerMode {
    /// Flag it.
    Warn,
    /// Rule the part out.
    Reject,
    /// Nothing.
    Ignore,
}

impl PowerMode {
    /// All of them.
    pub fn all() -> (r: Vec<PowerMode>)
        ensures
            r@ == seq![PowerMode::Warn, PowerMode::Reject, PowerMode::Ignore],
    {
        vec![PowerMode::Warn, PowerMode::Reject, PowerMode::Ignore]
    }

    /// A name for the user.
    pub fn label(self) -> (r: &'static str)
        ensures
            r@ == (match self {
                PowerMode::Warn => "Warn"@,
                PowerMode::Reject => "Reject"@,
                PowerMode::Ignore => "Ignore"@,
            }),
    {
        match self {
            PowerMode::Warn => "Warn",
            PowerMode::Reject => "Reject",
            PowerMode::Ignore => "Ignore",
        }
    }
}

/// How to match.
#[derive(Copy, Clone, Debug, PartialEq, Eq, Structural)]
pub struct MatchConfig {
    pub strictness: Strictness,
    pub power_mode: PowerMode,
}

impl Default for MatchConfig {
    fn default() -> (r: Self)
        ensures
            r == (MatchConfig {
                strictness: Strictness::ClassRole,
                power_mode: PowerMode::Warn,
            }),
    {
        MatchConfig { strictness: Strictness::ClassRole, power_mode: PowerMode::Warn }
    }
}

/// How well a pin is served, best first.
#[derive(Copy, Clone, Debug, PartialEq, Eq, PartialOrd, Ord, Structural)]
pub enum MatchTier {
    Exact,
    ClassRole,
    ClassOnly,
}

/// The place of a tier, best first.
pub open spec fn tier_rank(t: MatchTier) -> int {
    match t {
        MatchTier::Exact => 0,
        MatchTier::ClassRole => 1,
        MatchTier::ClassOnly => 2,
    }
}

fn rank_of(t: MatchTier) -> (r: u8)
    ensures
        r == tier_rank(t),
{
    match t {
        MatchTier::Exact => 0,
        MatchTier::ClassRole => 1,
        MatchTier::ClassOnly => 2,
    }
}

/// A function wired to a pin.
#[derive(Clone, Debug, PartialEq, Eq)]
pub struct WiredFn {
    pub sig: OwnedSignal,
    pub pin: PinId,
}

impl View for WiredFn {
    type V = LockView;

    open spec fn view(&self) -> LockView {
        LockView { key: self.sig.key(), pin: self.pin }
    }
}

/// The values of wired functions.
pub open spec fn wired_views(v: Seq<WiredFn>) -> Seq<LockView> {
    v.map_values(|w: WiredFn| w@)
}

/// The design at hand.
pub enum DesignSource<'a> {
    /// The pins that a G474 design assigns.
    G474(&'a Design),
    H523(&'a H523Design),
    /// A converter has no pins of its own: it is matched by footprint and supply.
    C531(&'a C531Design),
}

/// What a design wires.
pub open spec fn wired_of(d: DesignSource) -> Seq<LockView> {
    match d {
        DesignSource::G474(x) => x@.pins,
        DesignSource::H523(x) => lock_views(x.pin_locks@),
        DesignSource::C531(_) => Seq::empty(),
    }
}

impl<'a> DesignSource<'a> {
    /// The functions that the design wires to pins.
    pub fn wired(&self) -> (r: Vec<WiredFn>)
        ensures
            wired_views(r@) == wired_of(*self),
    {
        let mut out: Vec<WiredFn> = Vec::new();
        match self {
            DesignSource::G474(d) => {
                let v: &Vec<(OwnedSignal, PinId)> = &d.pin_assignments;
                let ghost s = d@.pins;
                let mut i: usize = 0;
                while i < v.len()
                    invariant
                        i <= v@.len(),
                        s == locks_of(v@),
                        out@.len() == i,
                        forall|k: int| 0 <= k < i ==> (#[trigger] out@[k])@ == s[k],
                    decreases v@.len() - i,
                {
                    let l: &(OwnedSignal, PinId) = &v[i];
                    let sig: OwnedSignal = OwnedSignal::new(
                        l.0.peripheral.as_str(),
                        l.0.role.as_str(),
                    );
                    out.push(WiredFn { sig, pin: l.1 });
                    i += 1;
                }
                proof {
                    assert(wired_views(out@) =~= s);
                }
            },
            DesignSource::H523(d) => {
                let ghost s = lock_views(d.pin_locks@);
                let mut i: usize = 0;
                while i < d.pin_locks.len()
                    invariant
                        i <= d.pin_locks@.len(),
                        s == lock_views(d.pin_locks@),
                        out@.len() == i,
                        forall|k: int| 0 <= k < i ==> (#[trigger] out@[k])@ == s[k],
                    decreases d.pin_locks@.len() - i,
                {
                    let l = &d.pin_locks[i];
                    let sig: OwnedSignal = OwnedSignal::new(l.peripheral.as_str(), l.role.as_str());
                    out.push(WiredFn { sig, pin: l.pin() });
                    i += 1;
                }
                proof {
                    assert(wired_views(out@) =~= s);
                }
            },
            DesignSource::C531(_) => {
                proof {
                    assert(wired_views(out@) =~= Seq::<LockView>::empty());
                }
            },
        }
        out
    }
}

/// The part to be replaced: its footprint, and what is wired to it.
pub struct SourceProfile {
    pub name: String,
    pub footprint: &'static PinoutRecord,
    pub wired: Vec<WiredFn>,
}

/// What the first `n` entries wire to a pin.
pub open spec fn wired_at(wired: Seq<LockView>, pin: PinId, n: int) -> Seq<LockView>
    decreases n,
{
    if n <= 0 {
        Seq::empty()
    } else if wired[n - 1].pin == pin {
        wired_at(wired, pin, n - 1).push(wired[n - 1])
    } else {
        wired_at(wired, pin, n - 1)
    }
}

/// All that is wired to the first `n` pins of a position.
pub open spec fn wires(wired: Seq<LockView>, pins: Seq<PinId>, n: int) -> Seq<LockView>
    decreases n,
{
    if n <= 0 {
        Seq::empty()
    } else {
        wires(wired, pins, n - 1) + wired_at(wired, pins[n - 1], wired.len() as int)
    }
}

/// Whether a position must be matched: a supply, or a pin with something wired.
pub open spec fn is_required(wired: Seq<LockView>, p: PhysView) -> bool {
    match function_of(p.s) {
        FnView::Power(_) => true,
        FnView::Gpio(v) => wires(wired, v, v.len() as int).len() > 0,
        _ => false,
    }
}

/// How many of the first `n` positions must be matched.
pub open spec fn required_upto(wired: Seq<LockView>, pins: Seq<PhysView>, n: int) -> int
    decreases n,
{
    if n <= 0 {
        0
    } else {
        required_upto(wired, pins, n - 1) + (if is_required(wired, pins[n - 1]) {
            1int
        } else {
            0
        })
    }
}

/// One wired function, as it enters a fingerprint.
pub open spec fn wire_text(w: LockView) -> Seq<char> {
    w.key.0 + "."@ + w.key.1 + "@"@ + seq![w.pin.port] + decimal(w.pin.num as int)
}

/// What tells two profiles apart.
pub open spec fn fingerprint_of(name: Seq<char>, h: Seq<char>, wired: Seq<LockView>) -> Seq<char> {
    name + "|"@ + h + "|"@ + joined(
        sorted_texts(wired.map_values(|w: LockView| wire_text(w))),
        ","@,
    )
}

fn copy_wired(w: &WiredFn) -> (r: WiredFn)
    ensures
        r@ == w@,
{
    WiredFn {
        sig: OwnedSignal::new(w.sig.peripheral.as_str(), w.sig.role.as_str()),
        pin: w.pin,
    }
}

impl SourceProfile {
    /// The same profile again.
    pub fn copy(&self) -> (r: SourceProfile)
        ensures
            r.name@ == self.name@,
            r.footprint == self.footprint,
            wired_views(r.wired@) == wired_views(self.wired@),
    {
        let ghost v = wired_views(self.wired@);
        let mut wired: Vec<WiredFn> = Vec::new();
        let mut i: usize = 0;
        while i < self.wired.len()
            invariant
                i <= self.wired@.len(),
                v == wired_views(self.wired@),
                wired_views(wired@) =~= v.take(i as int),
            decreases self.wired@.len() - i,
        {
            let ghost had = wired@;
            let w: WiredFn = copy_wired(&self.wired[i]);
            let ghost wv = w@;
            wired.push(w);
            proof {
                assert(v[i as int] == wv);
                assert(wired_views(wired@) =~= wired_views(had).push(wv));
            }
            i += 1;
        }
        proof {
            assert(v.take(v.len() as int) =~= v);
        }
        SourceProfile { name: copy_text(self.name.as_str()), footprint: self.footprint, wired }
    }

    /// A text that changes when the part, its footprint or a wired pin changes.
    pub fn fingerprint(&self) -> (r: String)
        ensures
            r@ == fingerprint_of(self.name@, self.footprint.h@, wired_views(self.wired@)),
    {
        let ghost v = wired_views(self.wired@);
        let mut parts: Vec<String> = Vec::new();
        let mut i: usize = 0;
        while i < self.wired.len()
            invariant
                i <= self.wired@.len(),
                v == wired_views(self.wired@),
                parts@.len() == i,
                forall|k: int| 0 <= k < i ==> (#[trigger] parts@[k])@ == wire_text(v[k]),
            decreases self.wired@.len() - i,
        {
            let w: &WiredFn = &self.wired[i];
            let mut s: String = copy_text(w.sig.peripheral.as_str());
            s.append(".");
            s.append(w.sig.role.as_str());
            s.append("@");
            let port: Vec<char> = vec![w.pin.port];
            let letter: String = text::string_of(&port);
            s.append(letter.as_str());
            text::push_number(&mut s, w.pin.num as u64);
            proof {
                assert(v[i as int] == w@);
                assert(port@ =~= seq![w.pin.port]);
                assert(s@ =~= wire_text(v[i as int]));
            }
            parts.push(s);
            i += 1;
        }
        proof {
            assert(views(parts@) =~= v.map_values(|w: LockView| wire_text(w)));
        }
        let sorted: Vec<String> = texts::sort_texts(&parts);
        let list: String = text::join(&sorted, ",");
        let mut r: String = copy_text(self.name.as_str());
        r.append("|");
        r.append(self.footprint.h.as_str());
        r.append("|");
        r.append(list.as_str());
        r
    }

    fn push_wires(&self, pin: PinId, out: &mut Vec<WiredFn>)
        ensures
            wired_views(final(out)@) == wired_views(old(out)@) + wired_at(
                wired_views(self.wired@),
                pin,
                self.wired@.len() as int,
            ),
    {
        let ghost v = wired_views(self.wired@);
        let ghost base = wired_views(out@);
        let mut i: usize = 0;
        proof {
            assert(base =~= base + wired_at(v, pin, 0));
        }
        while i < self.wired.len()
            invariant
                i <= self.wired@.len(),
                v == wired_views(self.wired@),
                wired_views(out@) == base + wired_at(v, pin, i as int),
            decreases self.wired@.len() - i,
        {
            let ghost had = out@;
            proof {
                assert(v[i as int] == self.wired@[i as int]@);
            }
            if self.wired[i].pin == pin {
                let w: WiredFn = copy_wired(&self.wired[i]);
                let ghost wv = w@;
                out.push(w);
                proof {
                    assert(wired_views(out@) =~= wired_views(had).push(wv));
                    assert(wired_views(out@) =~= base + wired_at(v, pin, i + 1));
                }
            }
            i += 1;
        }
    }

    fn find_wires(&self, pins: &[PinId]) -> (r: Vec<WiredFn>)
        ensures
            wired_views(r@) == wires(wired_views(self.wired@), pins@, pins@.len() as int),
    {
        let ghost v = wired_views(self.wired@);
        let mut out: Vec<WiredFn> = Vec::new();
        let mut i: usize = 0;
        proof {
            assert(wired_views(out@) =~= wires(v, pins@, 0));
        }
        while i < pins.len()
            invariant
                i <= pins@.len(),
                v == wired_views(self.wired@),
                wired_views(out@) == wires(v, pins@, i as int),
            decreases pins@.len() - i,
        {
            self.push_wires(pins[i], &mut out);
            i += 1;
        }
        out
    }

    /// How many positions a candidate must match.
    pub fn required_count(&self) -> (r: u16)
        requires
            self.footprint.pins@.len() <= u16::MAX,
        ensures
            r == required_upto(
                wired_views(self.wired@),
                phys_views(self.footprint.pins@),
                self.footprint.pins@.len() as int,
            ),
    {
        let ghost v = wired_views(self.wired@);
        let ghost pins = phys_views(self.footprint.pins@);
        let mut r: u16 = 0;
        let mut i: usize = 0;
        while i < self.footprint.pins.len()
            invariant
                i <= self.footprint.pins@.len(),
                self.footprint.pins@.len() <= u16::MAX,
                v == wired_views(self.wired@),
                pins == phys_views(self.footprint.pins@),
                r <= i,
                r == required_upto(v, pins, i as int),
            decreases self.footprint.pins@.len() - i,
        {
            proof {
                assert(pins[i as int] == self.footprint.pins@[i as int]@);
            }
            let needed: bool = match self.footprint.pins[i].function() {
                PinFunction::Power(_) => true,
                PinFunction::Gpio(list) => {
                    let found: Vec<WiredFn> = self.find_wires(&list);
                    proof {
                        assert(wired_views(found@).len() == found@.len());
                    }
                    found.len() > 0
                },
                _ => false,
            };
            if needed {
                r += 1;
            }
            i += 1;
        }
        r
    }
}

/// The wired functions among the first `n` whose pin is bonded.
pub open spec fn wired_on(wired: Seq<LockView>, bonded: Set<PinId>, n: int) -> Seq<LockView>
    decreases n,
{
    if n <= 0 {
        Seq::empty()
    } else if bonded.contains(wired[n - 1].pin) {
        wired_on(wired, bonded, n - 1).push(wired[n - 1])
    } else {
        wired_on(wired, bonded, n - 1)
    }
}

/// The profile of a part with a known footprint: what the design wires to pins that
/// the footprint bonds.
pub fn build_source_profile(src: &DesignSource, name: &str, footprint: Option<&'static PinoutRecord>) -> (r: Option<
    SourceProfile,
>)
    ensures
        r is Some <==> footprint is Some,
        r matches Some(p) ==> {
            let pins = phys_views(footprint->0.pins@);
            let all = wired_of(*src);
            &&& p.name@ == name@
            &&& *p.footprint == *footprint->0
            &&& wired_views(p.wired@) == wired_on(
                all,
                bonded_upto(pins, pins.len() as int),
                all.len() as int,
            )
        },
{
    match footprint {
        Some(f) => {
            let bonded: PinSet = phys_pinout::bonded_pins(f);
            let all: Vec<WiredFn> = src.wired();
            let ghost v = wired_views(all@);
            let mut wired: Vec<WiredFn> = Vec::new();
            let mut i: usize = 0;
            proof {
                assert(wired_views(wired@) =~= wired_on(v, bonded@, 0));
            }
            while i < all.len()
                invariant
                    i <= all@.len(),
                    v == wired_views(all@),
                    bonded.wf(),
                    wired_views(wired@) == wired_on(v, bonded@, i as int),
                decreases all@.len() - i,
            {
                let ghost had = wired@;
                proof {
                    assert(v[i as int] == all@[i as int]@);
                }
                if bonded.contains(&all[i].pin) {
                    let w: WiredFn = copy_wired(&all[i]);
                    let ghost wv = w@;
                    wired.push(w);
                    proof {
                        assert(wired_views(wired@) =~= wired_views(had).push(wv));
                    }
                }
                i += 1;
            }
            Some(SourceProfile { name: copy_text(name), footprint: f, wired })
        },
        None => None,
    }
}

/// What becomes of a position.
#[derive(Copy, Clone, Debug, PartialEq, Eq, Structural)]
pub enum PosOutcome {
    /// The same supply rails.
    PowerOk,
    /// Not the same supply rails.
    PowerMismatch,
    /// Served by the same instance and role.
    ServiceableExact,
    /// Served by the same kind and role.
    ServiceableClassRole,
    /// Served by the same kind.
    ServiceableClassOnly,
    /// Not served.
    FunctionFail,
    /// Unused, and still a pin.
    UnusedOk,
    /// Unused, and a supply on the candidate.
    PowerAsym,
    /// Unused, and something else on the candidate.
    UnusedRepurposed,
    /// The same dedicated function.
    DedicatedOk,
    /// Another function.
    DedicatedMismatch,
    /// The candidate's data does not say.
    DedicatedUnverified,
    /// Not connected.
    DontCare,
}

/// Whether an outcome rules the candidate out.
pub open spec fn blocks(o: PosOutcome, mode: PowerMode) -> bool {
    o == PosOutcome::PowerMismatch || o == PosOutcome::FunctionFail || o
        == PosOutcome::DedicatedMismatch || (o == PosOutcome::PowerAsym && mode == PowerMode::Reject)
}

/// Whether an outcome satisfies a position that must be matched.
pub open spec fn satisfies(o: PosOutcome) -> bool {
    o == PosOutcome::PowerOk || o == PosOutcome::ServiceableExact || o
        == PosOutcome::ServiceableClassRole || o == PosOutcome::ServiceableClassOnly
}

impl PosOutcome {
    /// Whether the outcome rules the candidate out.
    pub fn is_blocker(&self, power_mode: PowerMode) -> (r: bool)
        ensures
            r == blocks(*self, power_mode),
    {
        match self {
            PosOutcome::PowerMismatch => true,
            PosOutcome::FunctionFail => true,
            PosOutcome::DedicatedMismatch => true,
            PosOutcome::PowerAsym => power_mode == PowerMode::Reject,
            _ => false,
        }
    }

    /// Whether the outcome satisfies a position that must be matched.
    pub fn is_satisfied(&self) -> (r: bool)
        ensures
            r == satisfies(*self),
    {
        match self {
            PosOutcome::PowerOk => true,
            PosOutcome::ServiceableExact => true,
            PosOutcome::ServiceableClassRole => true,
            PosOutcome::ServiceableClassOnly => true,
            _ => false,
        }
    }
}

/// What a position is on the source.
#[derive(Copy, Clone, Debug, PartialEq, Eq, Structural)]
pub enum SourceKind {
    Power,
    Allocated,
    UnusedGpio,
    Dedicated,
    Nc,
}

/// The verdict on one position.
#[derive(Clone, Debug)]
pub struct PosResult {
    pub position: String,
    pub kind: SourceKind,
    pub outcome: PosOutcome,
    pub detail: String,
}

/// A verdict as a mathematical value.
pub ghost struct PosView {
    pub position: Seq<char>,
    pub kind: SourceKind,
    pub outcome: PosOutcome,
    pub detail: Seq<char>,
}

impl View for PosResult {
    type V = PosView;

    open spec fn view(&self) -> PosView {
        PosView {
            position: self.position@,
            kind: self.kind,
            outcome: self.outcome,
            detail: self.detail@,
        }
    }
}

/// The values of verdicts.
pub open spec fn pos_views(v: Seq<PosResult>) -> Seq<PosView> {
    v.map_values(|p: PosResult| p@)
}

/// One signal that a candidate's pin can carry.
#[derive(Clone, Debug)]
pub struct AfCap {
    pub pin: PinId,
    pub peripheral: String,
    pub role: String,
    pub af: Option<u8>,
}

/// A capability as a mathematical value.
pub ghost struct CapRow {
    pub pin: PinId,
    pub key: (Seq<char>, Seq<char>),
    pub af: Option<u8>,
}

impl View for AfCap {
    type V = CapRow;

    open spec fn view(&self) -> CapRow {
        CapRow { pin: self.pin, key: (self.peripheral@, self.role@), af: self.af }
    }
}

/// The values of capabilities.
pub open spec fn cap_rows(v: Seq<AfCap>) -> Seq<CapRow> {
    v.map_values(|c: AfCap| c@)
}

/// What a chip's pins can carry.
pub open spec fn caps_of(raw: RawMcuData) -> Seq<CapRow> {
    rows_of(raw).map_values(
        |r: AfRow| CapRow { pin: r.pin, key: (r.signal.peripheral@, r.signal.role@), af: r.af },
    )
}

/// What a chip's pins can carry, row by row.
pub fn build_af_oracle(raw: &RawMcuData) -> (r: Vec<AfCap>)
    ensures
        cap_rows(r@) == caps_of(*raw),
{
    let rows: Vec<AfRow> = mcu_pinout::af_rows(raw);
    let mut out: Vec<AfCap> = Vec::new();
    let mut i: usize = 0;
    while i < rows.len()
        invariant
            i <= rows@.len(),
            out@.len() == i,
            forall|k: int|
                0 <= k < i ==> (#[trigger] out@[k])@ == (CapRow {
                    pin: rows@[k].pin,
                    key: (rows@[k].signal.peripheral@, rows@[k].signal.role@),
                    af: rows@[k].af,
                }),
        decreases rows@.len() - i,
    {
        let r: AfRow = rows[i];
        out.push(
            AfCap {
                pin: r.pin,
                peripheral: copy_text(r.signal.peripheral),
                role: copy_text(r.signal.role),
                af: r.af,
            },
        );
        i += 1;
    }
    proof {
        assert(cap_rows(out@) =~= caps_of(*raw));
    }
    out
}

/// The kind of a peripheral, or its class where it has no kind.
pub open spec fn kind_or_class_of(s: Seq<char>) -> Seq<char> {
    match kind_of_class(class_name(s)) {
        Some(k) => k,
        None => class_name(s),
    }
}

fn kind_or_class(peripheral: &str) -> (r: String)
    ensures
        r@ == kind_or_class_of(peripheral@),
{
    match select::kind_of(peripheral) {
        Some(k) => copy_text(k),
        None => select::class_of(peripheral),
    }
}

/// Whether a class is analog: its signals are fixed to their pins.
pub open spec fn is_analog(class: Seq<char>) -> bool {
    class == "ADC"@ || class == "COMP"@ || class == "OPAMP"@ || class == "DAC"@
}

fn is_analog_class(class: &str) -> (r: bool)
    ensures
        r == is_analog(class@),
{
    text::same(class, "ADC") || text::same(class, "COMP") || text::same(class, "OPAMP")
        || text::same(class, "DAC")
}

/// How well a candidate's signal serves the wired one. Analog signals must be the very
/// same.
pub open spec fn tier_of(
    want: (Seq<char>, Seq<char>),
    cap: (Seq<char>, Seq<char>),
    af: Option<u8>,
    mode: Strictness,
) -> Option<MatchTier> {
    if want == cap {
        Some(MatchTier::Exact)
    } else if af is None || is_analog(class_name(want.0)) {
        None
    } else {
        let same_class = kind_or_class_of(want.0) == kind_or_class_of(cap.0);
        match mode {
            Strictness::ExactInstanceRole => None,
            Strictness::ClassRole => if same_class && want.1 == cap.1 {
                Some(MatchTier::ClassRole)
            } else {
                None
            },
            Strictness::ClassOnly => if !same_class {
                None
            } else if want.1 == cap.1 {
                Some(MatchTier::ClassRole)
            } else {
                Some(MatchTier::ClassOnly)
            },
        }
    }
}

/// How well a candidate's signal serves the wired one.
pub fn serve_tier(
    want: &OwnedSignal,
    cap_peri: &str,
    cap_role: &str,
    cap_af: Option<u8>,
    mode: Strictness,
) -> (r: Option<MatchTier>)
    ensures
        r == tier_of(want.key(), (cap_peri@, cap_role@), cap_af, mode),
{
    let same_role: bool = text::same(want.role.as_str(), cap_role);
    if text::same(want.peripheral.as_str(), cap_peri) && same_role {
        return Some(MatchTier::Exact);
    }
    let class: String = select::class_of(want.peripheral.as_str());
    if cap_af.is_none() || is_analog_class(class.as_str()) {
        return None;
    }
    let a: String = kind_or_class(want.peripheral.as_str());
    let b: String = kind_or_class(cap_peri);
    let same_class: bool = text::same(a.as_str(), b.as_str());
    match mode {
        Strictness::ExactInstanceRole => None,
        Strictness::ClassRole => if same_class && same_role {
            Some(MatchTier::ClassRole)
        } else {
            None
        },
        Strictness::ClassOnly => if !same_class {
            None
        } else if same_role {
            Some(MatchTier::ClassRole)
        } else {
            Some(MatchTier::ClassOnly)
        },
    }
}

/// The best match so far, after the first `n` rows of the candidate's pin.
pub open spec fn best_row(
    want: (Seq<char>, Seq<char>),
    caps: Seq<CapRow>,
    pin: PinId,
    mode: Strictness,
    acc: Option<(MatchTier, int)>,
    n: int,
) -> Option<(MatchTier, int)>
    decreases n,
{
    if n <= 0 {
        acc
    } else {
        let before = best_row(want, caps, pin, mode, acc, n - 1);
        let c = caps[n - 1];
        if c.pin != pin {
            before
        } else {
            match tier_of(want, c.key, c.af, mode) {
                Some(t) => match before {
                    Some(b) => if tier_rank(t) < tier_rank(b.0) {
                        Some((t, n - 1))
                    } else {
                        before
                    },
                    None => Some((t, n - 1)),
                },
                None => before,
            }
        }
    }
}

/// The best match on the first `n` pins of the candidate's position; the first of equal
/// ones.
pub open spec fn best_match(
    want: (Seq<char>, Seq<char>),
    caps: Seq<CapRow>,
    pins: Seq<PinId>,
    mode: Strictness,
    n: int,
) -> Option<(MatchTier, int)>
    decreases n,
{
    if n <= 0 {
        None
    } else {
        best_row(
            want,
            caps,
            pins[n - 1],
            mode,
            best_match(want, caps, pins, mode, n - 1),
            caps.len() as int,
        )
    }
}

fn find_best(want: &OwnedSignal, caps: &[AfCap], pins: &[PinId], mode: Strictness) -> (r: Option<
    (MatchTier, usize),
>)
    ensures
        ({
            let b = best_match(want.key(), cap_rows(caps@), pins@, mode, pins@.len() as int);
            &&& r is Some <==> b is Some
            &&& r matches Some(x) ==> x.1 < caps@.len() && b == Some((x.0, x.1 as int))
        }),
{
    let ghost key = want.key();
    let ghost rows = cap_rows(caps@);
    let mut best: Option<(MatchTier, usize)> = None;
    let mut p: usize = 0;
    while p < pins.len()
        invariant
            p <= pins@.len(),
            key == want.key(),
            rows == cap_rows(caps@),
            best is Some <==> best_match(key, rows, pins@, mode, p as int) is Some,
            best matches Some(x) ==> x.1 < caps@.len() && best_match(
                key,
                rows,
                pins@,
                mode,
                p as int,
            ) == Some((x.0, x.1 as int)),
        decreases pins@.len() - p,
    {
        let pin: PinId = pins[p];
        let ghost acc = best_match(key, rows, pins@, mode, p as int);
        let mut i: usize = 0;
        while i < caps.len()
            invariant
                i <= caps@.len(),
                key == want.key(),
                rows == cap_rows(caps@),
                best is Some <==> best_row(key, rows, pin, mode, acc, i as int) is Some,
                best matches Some(x) ==> x.1 < caps@.len() && best_row(
                    key,
                    rows,
                    pin,
                    mode,
                    acc,
                    i as int,
                ) == Some((x.0, x.1 as int)),
            decreases caps@.len() - i,
        {
            proof {
                assert(rows[i as int] == caps@[i as int]@);
            }
            if caps[i].pin == pin {
                let tier: Option<MatchTier> = serve_tier(
                    want,
                    caps[i].peripheral.as_str(),
                    caps[i].role.as_str(),
                    caps[i].af,
                    mode,
                );
                if let Some(t) = tier {
                    let better: bool = match best {
                        Some((b, _)) => rank_of(t) < rank_of(b),
                        None => true,
                    };
                    if better {
                        best = Some((t, i));
                    }
                }
            }
            i += 1;
        }
        p += 1;
    }
    best
}

/// The names of pins.
pub open spec fn pin_names(v: Seq<PinId>) -> Seq<Seq<char>> {
    v.map_values(|p: PinId| pin_name(p))
}

/// A set of rails, for the user.
pub open spec fn rails_text(v: Seq<Seq<char>>) -> Seq<char> {
    "{"@ + joined(v, ", "@) + "}"@
}

/// What a candidate's position is, for the user.
pub open spec fn describe_of(f: Option<FnView>) -> Seq<char> {
    match f {
        None => "absent"@,
        Some(FnView::Gpio(p)) => joined(pin_names(p), "/"@),
        Some(FnView::Power(r)) => rails_text(r),
        Some(FnView::Dedicated(t)) => joined(t, "/"@),
        Some(FnView::Nc) => "NC"@,
    }
}

/// An optional function's value.
pub open spec fn fn_view(f: Option<PinFunction>) -> Option<FnView> {
    match f {
        Some(x) => Some(x@),
        None => None,
    }
}

fn write_rails(v: &[String]) -> (r: String)
    ensures
        r@ == rails_text(views(v@)),
{
    let list: String = text::join(v, ", ");
    let mut r: String = "{".to_owned();
    r.append(list.as_str());
    r.append("}");
    r
}

/// What a candidate's position is, for the user.
pub fn describe(f: &Option<PinFunction>) -> (r: String)
    ensures
        r@ == describe_of(fn_view(*f)),
{
    match f {
        None => "absent".to_owned(),
        Some(PinFunction::Gpio(p)) => {
            let mut names: Vec<String> = Vec::new();
            let mut i: usize = 0;
            while i < p.len()
                invariant
                    i <= p@.len(),
                    names@.len() == i,
                    forall|k: int| 0 <= k < i ==> (#[trigger] names@[k])@ == pin_name(p@[k]),
                decreases p@.len() - i,
            {
                names.push(p[i].name());
                i += 1;
            }
            proof {
                assert(views(names@) =~= pin_names(p@));
            }
            text::join(&names, "/")
        },
        Some(PinFunction::Power(r)) => write_rails(r),
        Some(PinFunction::Dedicated(t)) => text::join(t, "/"),
        Some(PinFunction::Nc) => "NC".to_owned(),
    }
}

/// What serves one wired function, for the user.
pub open spec fn served_text(
    w: LockView,
    caps: Seq<CapRow>,
    found: Option<(MatchTier, int)>,
    cand: Option<FnView>,
) -> Seq<char> {
    let name = w.key.0 + "."@ + w.key.1;
    match found {
        Some(x) => name + " → "@ + caps[x.1].key.0 + "."@ + caps[x.1].key.1 + " @ "@ + pin_name(
            caps[x.1].pin,
        ),
        None => name + " not serviceable → "@ + describe_of(cand),
    }
}

/// The worse of the tiers of the first `n` wired functions; `None` once one is not
/// served.
pub open spec fn worst_tier(
    ws: Seq<LockView>,
    caps: Seq<CapRow>,
    pins: Seq<PinId>,
    mode: Strictness,
    n: int,
) -> Option<MatchTier>
    decreases n,
{
    if n <= 0 {
        Some(MatchTier::Exact)
    } else {
        match (
            worst_tier(ws, caps, pins, mode, n - 1),
            best_match(ws[n - 1].key, caps, pins, mode, pins.len() as int),
        ) {
            (Some(a), Some(b)) => if tier_rank(a) < tier_rank(b.0) {
                Some(b.0)
            } else {
                Some(a)
            },
            _ => None,
        }
    }
}

/// The outcome of a tier.
pub open spec fn outcome_of_tier(t: Option<MatchTier>) -> PosOutcome {
    match t {
        Some(MatchTier::Exact) => PosOutcome::ServiceableExact,
        Some(MatchTier::ClassRole) => PosOutcome::ServiceableClassRole,
        Some(MatchTier::ClassOnly) => PosOutcome::ServiceableClassOnly,
        None => PosOutcome::FunctionFail,
    }
}

/// The pins of a candidate's position.
pub open spec fn cand_pins(f: Option<FnView>) -> Seq<PinId> {
    match f {
        Some(FnView::Gpio(v)) => v,
        _ => Seq::empty(),
    }
}

/// The details of the wired functions.
pub open spec fn served_texts(
    ws: Seq<LockView>,
    caps: Seq<CapRow>,
    cand: Option<FnView>,
    mode: Strictness,
) -> Seq<Seq<char>> {
    let pins = cand_pins(cand);
    ws.map_values(
        |w: LockView|
            served_text(w, caps, best_match(w.key, caps, pins, mode, pins.len() as int), cand),
    )
}

/// The verdict on one position of the source, given what the candidate has there.
pub open spec fn verdict(
    wired: Seq<LockView>,
    p: PhysView,
    cand: Option<FnView>,
    caps: Seq<CapRow>,
    cfg: MatchConfig,
) -> PosView {
    match function_of(p.s) {
        FnView::Power(want) => PosView {
            position: p.p,
            kind: SourceKind::Power,
            outcome: if cand == Some(FnView::Power(want)) {
                PosOutcome::PowerOk
            } else {
                PosOutcome::PowerMismatch
            },
            detail: "power "@ + rails_text(want) + " → "@ + describe_of(cand),
        },
        FnView::Gpio(pins) => {
            let ws = wires(wired, pins, pins.len() as int);
            if ws.len() == 0 {
                PosView {
                    position: p.p,
                    kind: SourceKind::UnusedGpio,
                    outcome: match cand {
                        Some(FnView::Gpio(_)) => PosOutcome::UnusedOk,
                        Some(FnView::Power(_)) => if cfg.power_mode == PowerMode::Ignore {
                            PosOutcome::UnusedOk
                        } else {
                            PosOutcome::PowerAsym
                        },
                        _ => PosOutcome::UnusedRepurposed,
                    },
                    detail: "unused "@ + pin_name(pins[0]) + " → "@ + describe_of(cand),
                }
            } else {
                PosView {
                    position: p.p,
                    kind: SourceKind::Allocated,
                    outcome: outcome_of_tier(
                        worst_tier(
                            ws,
                            caps,
                            cand_pins(cand),
                            cfg.strictness,
                            ws.len() as int,
                        ),
                    ),
                    detail: joined(served_texts(ws, caps, cand, cfg.strictness), "; "@),
                }
            }
        },
        FnView::Dedicated(tokens) => PosView {
            position: p.p,
            kind: SourceKind::Dedicated,
            outcome: match cand {
                Some(FnView::Dedicated(have)) => if sorted_texts(tokens) == sorted_texts(have) {
                    PosOutcome::DedicatedOk
                } else {
                    PosOutcome::DedicatedMismatch
                },
                Some(FnView::Gpio(_)) => PosOutcome::DedicatedMismatch,
                Some(FnView::Power(_)) => PosOutcome::DedicatedMismatch,
                _ => PosOutcome::DedicatedUnverified,
            },
            detail: joined(tokens, "/"@) + " → "@ + describe_of(cand),
        },
        FnView::Nc => PosView {
            position: p.p,
            kind: SourceKind::Nc,
            outcome: PosOutcome::DontCare,
            detail: Seq::empty(),
        },
    }
}

/// What the candidate has at a position of the source.
pub open spec fn cand_at(pins: Seq<PhysView>, p: Seq<char>) -> Option<FnView> {
    match position_at(pins, p, 0) {
        Some(x) => Some(function_of(x.s)),
        None => None,
    }
}

/// The verdicts on all positions of the source.
pub open spec fn verdicts(
    wired: Seq<LockView>,
    source: Seq<PhysView>,
    cand: Seq<PhysView>,
    caps: Seq<CapRow>,
    cfg: MatchConfig,
) -> Seq<PosView> {
    source.map_values(|p: PhysView| verdict(wired, p, cand_at(cand, p.p), caps, cfg))
}

fn judge_power(want: &[String], cand: &Option<PinFunction>) -> (r: (PosOutcome, String))
    ensures
        r.0 == (if fn_view(*cand) == Some(FnView::Power(views(want@))) {
            PosOutcome::PowerOk
        } else {
            PosOutcome::PowerMismatch
        }),
        r.1@ == "power "@ + rails_text(views(want@)) + " → "@ + describe_of(fn_view(*cand)),
{
    let ok: bool = match cand {
        Some(PinFunction::Power(have)) => same_texts(want, have),
        _ => false,
    };
    let mut s: String = "power ".to_owned();
    let rails: String = write_rails(want);
    s.append(rails.as_str());
    s.append(" → ");
    let d: String = describe(cand);
    s.append(d.as_str());
    (
        if ok {
            PosOutcome::PowerOk
        } else {
            PosOutcome::PowerMismatch
        },
        s,
    )
}

fn judge_unused(first: PinId, cand: &Option<PinFunction>, mode: PowerMode) -> (r: (PosOutcome, String))
    ensures
        r.0 == (match fn_view(*cand) {
            Some(FnView::Gpio(_)) => PosOutcome::UnusedOk,
            Some(FnView::Power(_)) => if mode == PowerMode::Ignore {
                PosOutcome::UnusedOk
            } else {
                PosOutcome::PowerAsym
            },
            _ => PosOutcome::UnusedRepurposed,
        }),
        r.1@ == "unused "@ + pin_name(first) + " → "@ + describe_of(fn_view(*cand)),
{
    let outcome: PosOutcome = match cand {
        Some(PinFunction::Gpio(_)) => PosOutcome::UnusedOk,
        Some(PinFunction::Power(_)) => if mode == PowerMode::Ignore {
            PosOutcome::UnusedOk
        } else {
            PosOutcome::PowerAsym
        },
        _ => PosOutcome::UnusedRepurposed,
    };
    let mut s: String = "unused ".to_owned();
    let name: String = first.name();
    s.append(name.as_str());
    s.append(" → ");
    let d: String = describe(cand);
    s.append(d.as_str());
    (outcome, s)
}

fn judge_dedicated(tokens: &[String], cand: &Option<PinFunction>) -> (r: (PosOutcome, String))
    ensures
        r.0 == (match fn_view(*cand) {
            Some(FnView::Dedicated(have)) => if sorted_texts(views(tokens@)) == sorted_texts(have) {
                PosOutcome::DedicatedOk
            } else {
                PosOutcome::DedicatedMismatch
            },
            Some(FnView::Gpio(_)) => PosOutcome::DedicatedMismatch,
            Some(FnView::Power(_)) => PosOutcome::DedicatedMismatch,
            _ => PosOutcome::DedicatedUnverified,
        }),
        r.1@ == joined(views(tokens@), "/"@) + " → "@ + describe_of(fn_view(*cand)),
{
    let outcome: PosOutcome = match cand {
        Some(PinFunction::Dedicated(have)) => {
            let a: Vec<String> = texts::sort_texts(tokens);
            let b: Vec<String> = texts::sort_texts(have);
            if same_texts(&a, &b) {
                PosOutcome::DedicatedOk
            } else {
                PosOutcome::DedicatedMismatch
            }
        },
        Some(PinFunction::Gpio(_)) => PosOutcome::DedicatedMismatch,
        Some(PinFunction::Power(_)) => PosOutcome::DedicatedMismatch,
        _ => PosOutcome::DedicatedUnverified,
    };
    let mut s: String = text::join(tokens, "/");
    s.append(" → ");
    let d: String = describe(cand);
    s.append(d.as_str());
    (outcome, s)
}

fn write_served(
    w: &WiredFn,
    caps: &[AfCap],
    found: Option<(MatchTier, usize)>,
    cand: &Option<PinFunction>,
) -> (r: String)
    requires
        found matches Some(x) ==> x.1 < caps@.len(),
    ensures
        r@ == served_text(
            w@,
            cap_rows(caps@),
            match found {
                Some(x) => Some((x.0, x.1 as int)),
                None => None,
            },
            fn_view(*cand),
        ),
{
    let mut s: String = copy_text(w.sig.peripheral.as_str());
    s.append(".");
    s.append(w.sig.role.as_str());
    match found {
        Some((_, i)) => {
            proof {
                assert(cap_rows(caps@)[i as int] == caps@[i as int]@);
            }
            s.append(" → ");
            s.append(caps[i].peripheral.as_str());
            s.append(".");
            s.append(caps[i].role.as_str());
            s.append(" @ ");
            let name: String = caps[i].pin.name();
            s.append(name.as_str());
        },
        None => {
            s.append(" not serviceable → ");
            let d: String = describe(cand);
            s.append(d.as_str());
        },
    }
    s
}

fn judge_allocated(ws: &[WiredFn], caps: &[AfCap], cand: &Option<PinFunction>, mode: Strictness) -> (r: (
    PosOutcome,
    String,
))
    ensures
        ({
            let c = fn_view(*cand);
            let v = wired_views(ws@);
            &&& r.0 == outcome_of_tier(
                worst_tier(v, cap_rows(caps@), cand_pins(c), mode, v.len() as int),
            )
            &&& r.1@ == joined(served_texts(v, cap_rows(caps@), c, mode), "; "@)
        }),
{
    let ghost c = fn_view(*cand);
    let ghost v = wired_views(ws@);
    let ghost rows = cap_rows(caps@);
    let none: Vec<PinId> = Vec::new();
    let pins: &Vec<PinId> = match cand {
        Some(PinFunction::Gpio(list)) => list,
        _ => &none,
    };
    proof {
        assert(pins@ =~= cand_pins(c));
    }
    let mut details: Vec<String> = Vec::new();
    let mut worst: Option<MatchTier> = Some(MatchTier::Exact);
    let mut i: usize = 0;
    while i < ws.len()
        invariant
            i <= ws@.len(),
            c == fn_view(*cand),
            v == wired_views(ws@),
            rows == cap_rows(caps@),
            pins@ == cand_pins(c),
            details@.len() == i,
            worst == worst_tier(v, rows, pins@, mode, i as int),
            forall|k: int|
                0 <= k < i ==> (#[trigger] details@[k])@ == served_text(
                    v[k],
                    rows,
                    best_match(v[k].key, rows, pins@, mode, pins@.len() as int),
                    c,
                ),
        decreases ws@.len() - i,
    {
        proof {
            assert(v[i as int] == ws@[i as int]@);
        }
        let found: Option<(MatchTier, usize)> = find_best(&ws[i].sig, caps, pins, mode);
        details.push(write_served(&ws[i], caps, found, cand));
        worst = match (worst, found) {
            (Some(a), Some((b, _))) => if rank_of(a) < rank_of(b) {
                Some(b)
            } else {
                Some(a)
            },
            _ => None,
        };
        i += 1;
    }
    proof {
        assert(views(details@) =~= served_texts(v, rows, c, mode));
    }
    let outcome: PosOutcome = match worst {
        Some(MatchTier::Exact) => PosOutcome::ServiceableExact,
        Some(MatchTier::ClassRole) => PosOutcome::ServiceableClassRole,
        Some(MatchTier::ClassOnly) => PosOutcome::ServiceableClassOnly,
        None => PosOutcome::FunctionFail,
    };
    (outcome, text::join(&details, "; "))
}

pub(crate) fn judge(
    src: &SourceProfile,
    p: &PhysPin,
    cand: &Option<PinFunction>,
    caps: &[AfCap],
    cfg: MatchConfig,
) -> (r: PosResult)
    ensures
        r@ == verdict(wired_views(src.wired@), p@, fn_view(*cand), cap_rows(caps@), cfg),
{
    let (kind, outcome, detail): (SourceKind, PosOutcome, String) = match p.function() {
        PinFunction::Power(want) => {
            let (o, d): (PosOutcome, String) = judge_power(&want, cand);
            (SourceKind::Power, o, d)
        },
        PinFunction::Gpio(pins) => {
            let ws: Vec<WiredFn> = src.find_wires(&pins);
            proof {
                assert(wired_views(ws@).len() == ws@.len());
            }
            if ws.len() == 0 {
                let (o, d): (PosOutcome, String) = judge_unused(pins[0], cand, cfg.power_mode);
                (SourceKind::UnusedGpio, o, d)
            } else {
                let (o, d): (PosOutcome, String) = judge_allocated(
                    &ws,
                    caps,
                    cand,
                    cfg.strictness,
                );
                (SourceKind::Allocated, o, d)
            }
        },
        PinFunction::Dedicated(tokens) => {
            let (o, d): (PosOutcome, String) = judge_dedicated(&tokens, cand);
            (SourceKind::Dedicated, o, d)
        },
        PinFunction::Nc => {
            let none: String = String::new();
            proof {
                assert(none@ =~= Seq::<char>::empty());
            }
            (SourceKind::Nc, PosOutcome::DontCare, none)
        },
    };
    PosResult { position: copy_text(p.p.as_str()), kind, outcome, detail }
}

} // verus!
