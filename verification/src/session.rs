//! The state of a planning session: the active project and the others, the view, and
//! what can be undone.

use vstd::prelude::*;

use crate::c531_assign::auto_assigned;
use crate::c531_assign::AutoAssign;
use crate::c531_design::routes_of;
use crate::c531_design::C531Design;
use crate::c531_design::ConverterLeg;
use crate::c531_design::ConverterView;
use crate::desc_asset::entry_for;
use crate::desc_asset::AssetEntry;
use crate::desc_asset::AssetRegistry;
use crate::g474;
use crate::g474::all_tims_seq;
use crate::g474::tim_nr;
use crate::g474::TimId;
use crate::h523_design::same_but_notes;
use crate::h523_design::DesignView;
use crate::h523_design::H523Design;
use crate::mcu::variant_of_letter;
use crate::mcu::Mcu;
use crate::mcu::Package;
use crate::mcu::TimerInstance;
use crate::mcu::TimerKind;
use crate::mcu_pinout::rows_of;
use crate::mcu_pinout::OwnedSignal;
use crate::mcu_pinout::PinId;
use crate::pinout::ChipVariant;
use crate::project;
use crate::project::family_design;
use crate::project::fresh_project;
use crate::project::part_design;
use crate::project::part_key;
use crate::project::project_views;
use crate::project::Project;
use crate::project::ProjectView;
use crate::requirements::Design;
use crate::requirements::FabricView;
use crate::text;
use crate::text::decimal;
use crate::text::joined;
use crate::text::views;
use crate::texts::copy_text;
use vstd::utf8::encode_utf8;
use vstd::utf8::is_char_boundary;

verus! {

/// How many steps can be undone.
pub const HISTORY_CAP: usize = 40;

/// A design at a point in time.
#[derive(Clone, Debug)]
pub enum DesignSnapshot {
    G474(Design),
    /// Of the active family among those that share the pin-lock model.
    H523(H523Design),
    C531(C531Design),
    /// Of an arbitrary part, with its key.
    Asset(String, H523Design),
}

/// A snapshot as a mathematical value.
pub ghost enum SnapView {
    G474(FabricView),
    H523(DesignView),
    C531(ConverterView),
    Asset(Seq<char>, DesignView),
}

impl View for DesignSnapshot {
    type V = SnapView;

    open spec fn view(&self) -> SnapView {
        match self {
            DesignSnapshot::G474(d) => SnapView::G474(d@),
            DesignSnapshot::H523(d) => SnapView::H523(d@),
            DesignSnapshot::C531(d) => SnapView::C531(d@),
            DesignSnapshot::Asset(k, d) => SnapView::Asset(k@, d@),
        }
    }
}

/// The values of snapshots.
pub open spec fn snap_views(v: Seq<DesignSnapshot>) -> Seq<SnapView> {
    v.map_values(|s: DesignSnapshot| s@)
}

/// What is on the screen.
#[derive(Copy, Clone, Debug, PartialEq, Eq, Structural)]
pub enum ViewMode {
    Fabric,
    Hrtim,
    Comms,
    Timers,
    Waveforms,
    Package,
    Inventory,
    AfTable,
    Catalog,
    Dropin,
    Converter,
    Peripherals,
    Analog,
}

/// The session.
#[derive(Debug)]
pub struct PeriPlannerApp {
    pub active: Project,
    pub others: Vec<Project>,
    pub view: ViewMode,
    pub history: Vec<DesignSnapshot>,
    pub redo: Vec<DesignSnapshot>,
    /// Changes whenever the active project or chip does.
    pub nav_epoch: u64,
    /// The signal that is picked up in the pin map.
    pub pin_map_pick: Option<(String, String)>,
    /// What the last routing of a converter could not do.
    pub c531_status: Option<String>,
    /// The name of the arbitrary part whose tables are known, while one is active.
    pub asset_part: Option<&'static str>,
    /// Stored projects that could not be read.
    pub corrupt_blob: Option<String>,
}

/// A session as a mathematical value.
pub ghost struct AppView {
    pub active: ProjectView,
    pub others: Seq<ProjectView>,
    pub view: ViewMode,
    pub history: Seq<SnapView>,
    pub redo: Seq<SnapView>,
    pub nav_epoch: u64,
    pub pin_map_pick: Option<(Seq<char>, Seq<char>)>,
    pub c531_status: Option<Seq<char>>,
    pub asset_part: Option<Seq<char>>,
    pub corrupt_blob: Option<Seq<char>>,
}

impl View for PeriPlannerApp {
    type V = AppView;

    open spec fn view(&self) -> AppView {
        AppView {
            active: self.active@,
            others: project_views(self.others@),
            view: self.view,
            history: snap_views(self.history@),
            redo: snap_views(self.redo@),
            nav_epoch: self.nav_epoch,
            pin_map_pick: match self.pin_map_pick {
                Some(p) => Some((p.0@, p.1@)),
                None => None,
            },
            c531_status: match self.c531_status {
                Some(s) => Some(s@),
                None => None,
            },
            asset_part: match self.asset_part {
                Some(s) => Some(s@),
                None => None,
            },
            corrupt_blob: match self.corrupt_blob {
                Some(s) => Some(s@),
                None => None,
            },
        }
    }
}

/// A session with one project that starts with a design.
pub open spec fn fresh_app(package: Package, design: FabricView) -> AppView {
    AppView {
        active: fresh_project("Untitled"@, package, design),
        others: Seq::empty(),
        view: ViewMode::Fabric,
        history: Seq::empty(),
        redo: Seq::empty(),
        nav_epoch: 0,
        pin_map_pick: None,
        c531_status: None,
        asset_part: None,
        corrupt_blob: None,
    }
}

/// One more, starting over after the largest.
pub open spec fn next_epoch(n: u64) -> u64 {
    if n == u64::MAX {
        0
    } else {
        (n + 1) as u64
    }
}

/// After a change of project or chip: nothing to undo, nothing picked up.
pub open spec fn navigated(a: AppView) -> AppView {
    AppView {
        history: Seq::empty(),
        redo: Seq::empty(),
        nav_epoch: next_epoch(a.nav_epoch),
        pin_map_pick: None,
        c531_status: None,
        ..a
    }
}

/// After a family is made active.
pub open spec fn with_mcu(a: AppView, m: Mcu) -> AppView {
    let b = if m != a.active.mcu || a.active.asset_chip is Some {
        navigated(a)
    } else {
        a
    };
    AppView { active: ProjectView { mcu: m, asset_chip: None, ..b.active }, ..b }
}

/// After an arbitrary part is made active; `part` is the name its tables have.
pub open spec fn with_asset(a: AppView, name: Seq<char>, part: Option<Seq<char>>) -> AppView {
    let keep = a.view == ViewMode::Inventory || a.view == ViewMode::AfTable || a.view
        == ViewMode::Analog || a.view == ViewMode::Catalog;
    AppView {
        active: ProjectView { asset_chip: Some(name), ..a.active },
        view: if keep {
            a.view
        } else {
            ViewMode::Peripherals
        },
        ..with_part(navigated(a), part)
    }
}

/// The variant of a G474 package.
pub open spec fn g474_variant(p: Package) -> Option<ChipVariant> {
    if p.info.mcu == Mcu::G474 {
        variant_of_letter(p.info.raw.name@)
    } else {
        None
    }
}

/// After a planned part is opened.
pub open spec fn with_package(a: AppView, p: Package) -> AppView {
    let b = with_mcu(a, p.info.mcu);
    AppView {
        view: ViewMode::Inventory,
        asset_part: None,
        active: ProjectView {
            package: p,
            variant: match g474_variant(p) {
                Some(v) => v,
                None => b.active.variant,
            },
            ..b.active
        },
        ..b
    }
}

/// The view that a project starts on.
pub open spec fn landing_view(p: ProjectView) -> ViewMode {
    if p.asset_chip is Some {
        ViewMode::Peripherals
    } else {
        match p.mcu {
            Mcu::G474 => ViewMode::Fabric,
            Mcu::C531 => ViewMode::Converter,
            Mcu::H523 => ViewMode::Peripherals,
            Mcu::C5A3 => ViewMode::Peripherals,
        }
    }
}

/// Whether a view suits every chip.
pub open spec fn is_shared(v: ViewMode) -> bool {
    v == ViewMode::Inventory || v == ViewMode::AfTable || v == ViewMode::Analog || v
        == ViewMode::Catalog || v == ViewMode::Dropin
}

/// After the view is brought in line with the active chip.
pub open spec fn landed(a: AppView) -> AppView {
    if is_shared(a.view) {
        a
    } else {
        AppView { view: landing_view(a.active), ..a }
    }
}

/// After the arbitrary part is looked up again: `part` is the name found.
pub open spec fn with_part(a: AppView, part: Option<Seq<char>>) -> AppView {
    AppView { asset_part: part, ..a }
}

/// After another project is made active.
pub open spec fn moved(a: AppView, active: ProjectView, others: Seq<ProjectView>, part: Option<Seq<char>>) -> AppView {
    landed(with_part(navigated(AppView { active, others, ..a }), part))
}

/// The design that is active.
pub open spec fn snapshot(a: AppView) -> SnapView {
    match a.asset_part {
        Some(name) => SnapView::Asset(
            part_key(name),
            part_design(a.active.asset_designs, part_key(name)),
        ),
        None => match a.active.mcu {
            Mcu::G474 => SnapView::G474(a.active.design),
            Mcu::C531 => SnapView::C531(a.active.c531_design),
            m => SnapView::H523(family_design(a.active.h523_designs, m)),
        },
    }
}

/// After a snapshot is put back.
pub open spec fn restored(a: AppView, s: SnapView) -> AppView {
    let p = match s {
        SnapView::G474(d) => ProjectView { design: d, ..a.active },
        SnapView::H523(d) => ProjectView {
            h523_designs: a.active.h523_designs.insert(a.active.mcu, d),
            ..a.active
        },
        SnapView::C531(d) => ProjectView { c531_design: d, ..a.active },
        SnapView::Asset(k, d) => ProjectView {
            asset_designs: a.active.asset_designs.insert(k, d),
            ..a.active
        },
    };
    AppView { active: p, ..a }
}

/// After a step that can be undone: the oldest goes when there are too many.
pub open spec fn recorded(a: AppView, s: SnapView) -> AppView {
    let h = a.history.push(s);
    AppView {
        history: if h.len() > HISTORY_CAP {
            h.remove(0)
        } else {
            h
        },
        redo: Seq::empty(),
        ..a
    }
}

/// After the G474 design is replaced; a change is a step that can be undone.
pub open spec fn mutated(a: AppView, design: FabricView) -> AppView {
    let b = AppView { active: ProjectView { design, ..a.active }, ..a };
    if design == a.active.design {
        b
    } else {
        recorded(b, SnapView::G474(a.active.design))
    }
}

/// After undoing a step.
pub open spec fn undone(a: AppView) -> AppView {
    if a.history.len() == 0 {
        a
    } else {
        let b = AppView {
            history: a.history.drop_last(),
            redo: a.redo.push(snapshot(a)),
            ..a
        };
        restored(b, a.history.last())
    }
}

/// After doing a step again.
pub open spec fn redone(a: AppView) -> AppView {
    if a.redo.len() == 0 {
        a
    } else {
        let b = AppView {
            redo: a.redo.drop_last(),
            history: a.history.push(snapshot(a)),
            ..a
        };
        restored(b, a.redo.last())
    }
}

/// Whether the active design differs from an earlier one, notes aside. Steps of the G474
/// design are recorded where they are made.
pub open spec fn has_changed(a: AppView, before: SnapView) -> bool {
    match before {
        SnapView::G474(_) => false,
        SnapView::H523(b) => !same_but_notes(family_design(a.active.h523_designs, a.active.mcu), b),
        SnapView::C531(b) => a.active.c531_design != b,
        SnapView::Asset(k, b) => !same_but_notes(part_design(a.active.asset_designs, k), b),
    }
}

/// After a frame: what changed in it is one step, unless the project or chip changed.
pub open spec fn framed(a: AppView, before: SnapView, epoch: u64) -> AppView {
    if a.nav_epoch == epoch && has_changed(a, before) {
        recorded(a, before)
    } else {
        a
    }
}

fn same_leg(a: &ConverterLeg, b: &ConverterLeg) -> (r: bool)
    ensures
        r == (*a == *b),
{
    let ocp: bool = match (a.ocp, b.ocp) {
        (Some(x), Some(y)) => x == y,
        (None, None) => true,
        _ => false,
    };
    let sense: bool = match (a.adc_sense, b.adc_sense) {
        (Some(x), Some(y)) => x.0 == y.0 && x.1 == y.1,
        (None, None) => true,
        _ => false,
    };
    a.tim == b.tim && a.channels_mask == b.channels_mask && a.complementary == b.complementary
        && a.dead_time == b.dead_time && a.bkin == b.bkin && ocp && sense
}

fn same_converter(a: &C531Design, b: &C531Design) -> (r: bool)
    ensures
        r == (a@ == b@),
{
    if a.format_version != b.format_version || a.legs.len() != b.legs.len() || a.pin_locks.len()
        != b.pin_locks.len() {
        proof {
            assert(a@.locks.len() == a.pin_locks@.len());
            assert(b@.locks.len() == b.pin_locks@.len());
        }
        return false;
    }
    let mut i: usize = 0;
    while i < a.legs.len()
        invariant
            i <= a.legs@.len(),
            a.legs@.len() == b.legs@.len(),
            forall|k: int| 0 <= k < i ==> a.legs@[k] == b.legs@[k],
        decreases a.legs@.len() - i,
    {
        if !same_leg(&a.legs[i], &b.legs[i]) {
            return false;
        }
        i += 1;
    }
    let mut j: usize = 0;
    while j < a.pin_locks.len()
        invariant
            j <= a.pin_locks@.len(),
            a.pin_locks@.len() == b.pin_locks@.len(),
            forall|k: int| 0 <= k < j ==> (#[trigger] a@.locks[k]) == b@.locks[k],
        decreases a.pin_locks@.len() - j,
    {
        let x: &(OwnedSignal, PinId) = &a.pin_locks[j];
        let y: &(OwnedSignal, PinId) = &b.pin_locks[j];
        let same: bool = x.1 == y.1 && text::same(
            x.0.peripheral.as_str(),
            y.0.peripheral.as_str(),
        ) && text::same(x.0.role.as_str(), y.0.role.as_str());
        if !same {
            assert(a@.locks[j as int] != b@.locks[j as int]);
            return false;
        }
        j += 1;
    }
    proof {
        assert(a@.legs =~= b@.legs);
        assert(a@.locks =~= b@.locks);
    }
    true
}

/// Whether a name could be a part's: its tenth byte, if it has one, ends a character.
pub open spec fn is_part_name(name: Seq<char>) -> bool {
    encode_utf8(name).len() >= 10 ==> is_char_boundary(encode_utf8(name), 10)
}

/// The name that the tables of an arbitrary part have; none where they are not known.
pub open spec fn known_part(v: Seq<AssetEntry>, chip: Option<Seq<char>>) -> Option<Seq<char>> {
    match chip {
        Some(name) => if is_part_name(name) && entry_for(v, name) is Some {
            Some(v[entry_for(v, name)->0].desc.name@)
        } else {
            None
        },
        None => None,
    }
}

/// The name that the tables of an arbitrary part have; none where they are not known.
pub fn part_name(registry: &AssetRegistry, chip: &Option<String>) -> (r: Option<&'static str>)
    ensures
        (match r {
            Some(n) => Some(n@),
            None => None,
        }) == known_part(
            registry.entries@,
            match *chip {
                Some(s) => Some(s@),
                None => None,
            },
        ),
{
    match chip {
        Some(name) => {
            if name.as_str().as_bytes().len() >= 10 && !name.as_str().is_char_boundary(10) {
                return None;
            }
            match registry.descriptor_for(name.as_str()) {
                Some(d) => Some(d.name),
                None => None,
            }
        },
        None => None,
    }
}

impl DesignSnapshot {
    /// The same snapshot again.
    pub fn copy(&self) -> (r: DesignSnapshot)
        ensures
            r@ == self@,
    {
        match self {
            DesignSnapshot::G474(d) => DesignSnapshot::G474(d.copy()),
            DesignSnapshot::H523(d) => DesignSnapshot::H523(d.copy()),
            DesignSnapshot::C531(d) => DesignSnapshot::C531(d.copy()),
            DesignSnapshot::Asset(k, d) => DesignSnapshot::Asset(copy_text(k.as_str()), d.copy()),
        }
    }
}

/// An edit of a converter.
#[derive(Copy, Clone, Debug)]
pub enum ConverterAction {
    AddLeg,
    RemoveLeg(usize),
    SetLeg(usize, ConverterLeg),
    AutoAssign,
}

/// The timer with a number, from place `k` on.
pub open spec fn tim_numbered(n: u8, k: int) -> Option<TimId>
    decreases all_tims_seq().len() - k,
{
    if k < 0 || k >= all_tims_seq().len() {
        None
    } else if tim_nr(all_tims_seq()[k]) == n {
        Some(all_tims_seq()[k])
    } else {
        tim_numbered(n, k + 1)
    }
}

/// The timer with a number.
pub fn tim_from_num(n: u8) -> (r: Option<TimId>)
    ensures
        r == tim_numbered(n, 0),
{
    let all: Vec<TimId> = g474::all_tims();
    let mut i: usize = 0;
    while i < all.len()
        invariant
            i <= all@.len(),
            all@ == all_tims_seq(),
            tim_numbered(n, 0) == tim_numbered(n, i as int),
        decreases all@.len() - i,
    {
        if all[i].number() == n {
            return Some(all[i]);
        }
        i += 1;
    }
    None
}

/// The first advanced timer from place `k` on; TIM1 where there is none.
pub open spec fn first_advanced(timers: Seq<TimerInstance>, k: int) -> TimId
    decreases timers.len() - k,
{
    if k < 0 || k >= timers.len() {
        TimId::Tim1
    } else if timers[k].kind == TimerKind::Advanced && tim_numbered(timers[k].number, 0) is Some {
        tim_numbered(timers[k].number, 0)->0
    } else {
        first_advanced(timers, k + 1)
    }
}

/// The timer that a new leg starts on.
pub fn default_timer(timers: &[TimerInstance]) -> (r: TimId)
    ensures
        r == first_advanced(timers@, 0),
{
    let mut i: usize = 0;
    while i < timers.len()
        invariant
            i <= timers@.len(),
            first_advanced(timers@, 0) == first_advanced(timers@, i as int),
        decreases timers@.len() - i,
    {
        if timers[i].kind == TimerKind::Advanced {
            if let Some(t) = tim_from_num(timers[i].number) {
                return t;
            }
        }
        i += 1;
    }
    TimId::Tim1
}

/// What could not be routed, by how many trips and senses.
pub open spec fn routing_parts(ocp: int, sense: int) -> Seq<Seq<char>> {
    let none = Seq::<Seq<char>>::empty();
    let a = if ocp > 0 {
        none.push(decimal(ocp) + " OCP"@)
    } else {
        none
    };
    if sense > 0 {
        a.push(decimal(sense) + " ADC-sense"@)
    } else {
        a
    }
}

/// What a routing could not do, for the user; nothing where it did all.
pub open spec fn routing_status(ocp: int, sense: int) -> Option<Seq<char>> {
    if ocp == 0 && sense == 0 {
        None
    } else {
        Some(
            "⚠ Auto-assign couldn't route "@ + joined(routing_parts(ocp, sense), " + "@)
                + " — this chip's fabric can't satisfy them all (see problems)."@,
        )
    }
}

fn write_status(r: &AutoAssign) -> (s: Option<String>)
    ensures
        (match s {
            Some(t) => Some(t@),
            None => None,
        }) == routing_status(
            r.ocp_unassignable@.len() as int,
            r.sense_unassignable@.len() as int,
        ),
{
    let a: usize = r.ocp_unassignable.len();
    let b: usize = r.sense_unassignable.len();
    if a == 0 && b == 0 {
        return None;
    }
    let mut parts: Vec<String> = Vec::new();
    proof {
        assert(views(parts@) =~= Seq::<Seq<char>>::empty());
    }
    if a > 0 {
        let mut s: String = text::number(a as u64);
        s.append(" OCP");
        let ghost had = parts@;
        let ghost t = s@;
        parts.push(s);
        proof {
            assert(views(parts@) =~= views(had).push(t));
        }
    }
    if b > 0 {
        let mut s: String = text::number(b as u64);
        s.append(" ADC-sense");
        let ghost had = parts@;
        let ghost t = s@;
        parts.push(s);
        proof {
            assert(views(parts@) =~= views(had).push(t));
        }
    }
    let list: String = text::join(&parts, " + ");
    let mut s: String = "⚠ Auto-assign couldn't route ".to_owned();
    s.append(list.as_str());
    s.append(" — this chip's fabric can't satisfy them all (see problems).");
    Some(s)
}

/// After an edit of the converter.
pub open spec fn converted(a: AppView, action: ConverterAction, timer: TimId) -> AppView {
    let c = a.active.c531_design;
    match action {
        ConverterAction::AddLeg => AppView {
            active: ProjectView {
                c531_design: ConverterView {
                    legs: c.legs.push(
                        ConverterLeg {
                            tim: timer,
                            channels_mask: 1,
                            complementary: false,
                            dead_time: false,
                            bkin: false,
                            ocp: None,
                            adc_sense: None,
                        },
                    ),
                    ..c
                },
                ..a.active
            },
            c531_status: None,
            ..a
        },
        ConverterAction::RemoveLeg(i) => AppView {
            active: ProjectView {
                c531_design: if i < c.legs.len() {
                    ConverterView { legs: c.legs.remove(i as int), ..c }
                } else {
                    c
                },
                ..a.active
            },
            c531_status: None,
            ..a
        },
        ConverterAction::SetLeg(i, leg) => AppView {
            active: ProjectView {
                c531_design: if i < c.legs.len() {
                    ConverterView { legs: c.legs.update(i as int, leg), ..c }
                } else {
                    c
                },
                ..a.active
            },
            c531_status: None,
            ..a
        },
        ConverterAction::AutoAssign => {
            let p = a.active.package.info;
            let x = auto_assigned(rows_of(*p.raw), routes_of(p.mcu), c.legs);
            AppView {
                active: ProjectView {
                    c531_design: ConverterView { legs: x.legs, ..c },
                    ..a.active
                },
                c531_status: routing_status(
                    x.ocp_unassignable.len() as int,
                    x.sense_unassignable.len() as int,
                ),
                ..a
            }
        },
    }
}

impl PeriPlannerApp {
    /// A session with one project that starts with the given design.
    pub fn new(package: Package, design: Design) -> (r: PeriPlannerApp)
        ensures
            r@ == fresh_app(package, design@),
    {
        let r: PeriPlannerApp = PeriPlannerApp {
            active: Project::new("Untitled", package, design),
            others: Vec::new(),
            view: ViewMode::Fabric,
            history: Vec::new(),
            redo: Vec::new(),
            nav_epoch: 0,
            pin_map_pick: None,
            c531_status: None,
            asset_part: None,
            corrupt_blob: None,
        };
        proof {
            assert(r@.others =~= Seq::<ProjectView>::empty());
            assert(r@.history =~= Seq::<SnapView>::empty());
            assert(r@.redo =~= Seq::<SnapView>::empty());
        }
        r
    }

    /// Forget what can be undone, for a change of project or chip.
    pub fn clear_undo_for_nav(&mut self)
        ensures
            final(self)@ == navigated(old(self)@),
    {
        self.history = Vec::new();
        self.redo = Vec::new();
        self.nav_epoch = if self.nav_epoch == u64::MAX {
            0
        } else {
            self.nav_epoch + 1
        };
        self.pin_map_pick = None;
        self.c531_status = None;
        proof {
            assert(self@.history =~= Seq::<SnapView>::empty());
            assert(self@.redo =~= Seq::<SnapView>::empty());
        }
    }

    /// Make a family active. Undo starts over, unless it was active already.
    pub fn set_active_mcu(&mut self, m: Mcu)
        ensures
            final(self)@ == with_mcu(old(self)@, m),
    {
        if m != self.active.mcu || self.active.asset_chip.is_some() {
            self.clear_undo_for_nav();
        }
        self.active.mcu = m;
        self.active.asset_chip = None;
    }

    /// Look the arbitrary part up again. `part` is what was found.
    pub fn sync_asset_part(&mut self, part: Option<&'static str>)
        ensures
            final(self)@ == with_part(
                old(self)@,
                match part {
                    Some(n) => Some(n@),
                    None => None,
                },
            ),
    {
        self.asset_part = part;
    }

    /// Make an arbitrary part the active chip. `part` is what the lookup found.
    pub fn set_active_asset(&mut self, name: &str, part: Option<&'static str>)
        ensures
            final(self)@ == with_asset(
                old(self)@,
                name@,
                match part {
                    Some(n) => Some(n@),
                    None => None,
                },
            ),
    {
        self.clear_undo_for_nav();
        self.active.asset_chip = Some(copy_text(name));
        self.sync_asset_part(part);
        let keep: bool = self.view == ViewMode::Inventory || self.view == ViewMode::AfTable
            || self.view == ViewMode::Analog || self.view == ViewMode::Catalog;
        if !keep {
            self.view = ViewMode::Peripherals;
        }
    }

    /// Bring the view in line with the active chip; views that suit every chip stay.
    pub fn land_on_active_view(&mut self)
        ensures
            final(self)@ == landed(old(self)@),
    {
        let shared: bool = self.view == ViewMode::Inventory || self.view == ViewMode::AfTable
            || self.view == ViewMode::Analog || self.view == ViewMode::Catalog || self.view
            == ViewMode::Dropin;
        if !shared {
            self.view = if self.active.asset_chip.is_some() {
                ViewMode::Peripherals
            } else {
                match self.active.mcu {
                    Mcu::G474 => ViewMode::Fabric,
                    Mcu::C531 => ViewMode::Converter,
                    Mcu::H523 => ViewMode::Peripherals,
                    Mcu::C5A3 => ViewMode::Peripherals,
                }
            };
        }
    }

    /// Make another project active; the active one takes its place.
    pub fn switch_project(&mut self, i: usize, registry: &AssetRegistry)
        ensures
            i >= old(self)@.others.len() ==> final(self)@ == old(self)@,
            i < old(self)@.others.len() ==> final(self)@ == moved(
                old(self)@,
                old(self)@.others[i as int],
                old(self)@.others.update(i as int, old(self)@.active),
                known_part(registry.entries@, old(self)@.others[i as int].asset_chip),
            ),
    {
        let ghost start = self@;
        if i < self.others.len() {
            let mut p: Project = self.others.remove(i);
            std::mem::swap(&mut self.active, &mut p);
            self.others.insert(i, p);
            proof {
                assert(self@.others =~= start.others.update(i as int, start.active));
            }
            self.clear_undo_for_nav();
            let part: Option<&'static str> = part_name(registry, &self.active.asset_chip);
            self.sync_asset_part(part);
            self.land_on_active_view();
        }
    }

    /// Start a project with the given design and make it active.
    pub fn new_project(&mut self, package: Package, design: Design)
        requires
            old(self)@.others.len() < usize::MAX - 1,
        ensures
            final(self)@ == moved(
                old(self)@,
                fresh_project(
                    "Untitled "@ + decimal(old(self)@.others.len() as int + 2),
                    package,
                    design@,
                ),
                old(self)@.others.push(old(self)@.active),
                None,
            ),
    {
        let ghost start = self@;
        proof {
            assert(start.others.len() == self.others@.len());
        }
        let mut name: String = "Untitled ".to_owned();
        let n: String = text::number((self.others.len() + 2) as u64);
        name.append(n.as_str());
        let mut p: Project = Project::new(name.as_str(), package, design);
        std::mem::swap(&mut self.active, &mut p);
        self.others.push(p);
        proof {
            assert(self@.others =~= start.others.push(start.active));
        }
        self.clear_undo_for_nav();
        self.sync_asset_part(None);
        self.land_on_active_view();
    }

    /// Copy the active project under another name and make the copy active.
    pub fn duplicate_active(&mut self, registry: &AssetRegistry)
        ensures
            final(self)@ == moved(
                old(self)@,
                ProjectView { name: old(self)@.active.name + " copy"@, ..old(self)@.active },
                old(self)@.others.push(old(self)@.active),
                known_part(registry.entries@, old(self)@.active.asset_chip),
            ),
    {
        let ghost start = self@;
        let mut copy: Project = self.active.copy();
        copy.name.append(" copy");
        std::mem::swap(&mut self.active, &mut copy);
        self.others.push(copy);
        proof {
            assert(self@.others =~= start.others.push(start.active));
        }
        self.clear_undo_for_nav();
        let part: Option<&'static str> = part_name(registry, &self.active.asset_chip);
        self.sync_asset_part(part);
        self.land_on_active_view();
    }

    /// Delete the active project; the first of the others becomes active. The only
    /// project stays.
    pub fn delete_active(&mut self, registry: &AssetRegistry)
        ensures
            old(self)@.others.len() == 0 ==> final(self)@ == old(self)@,
            old(self)@.others.len() > 0 ==> final(self)@ == moved(
                old(self)@,
                old(self)@.others[0],
                old(self)@.others.remove(0),
                known_part(registry.entries@, old(self)@.others[0].asset_chip),
            ),
    {
        let ghost start = self@;
        if self.others.len() > 0 {
            self.active = self.others.remove(0);
            proof {
                assert(self@.others =~= start.others.remove(0));
            }
            self.clear_undo_for_nav();
            let part: Option<&'static str> = part_name(registry, &self.active.asset_chip);
            self.sync_asset_part(part);
            self.land_on_active_view();
        }
    }

    /// The design that is active.
    pub fn snapshot_active(&self) -> (r: DesignSnapshot)
        ensures
            r@ == snapshot(self@),
    {
        if let Some(name) = self.asset_part {
            let key: String = project::asset_key(name);
            let d: H523Design = self.active.asset_designs.get_or_empty(key.as_str());
            return DesignSnapshot::Asset(key, d);
        }
        match self.active.mcu {
            Mcu::G474 => DesignSnapshot::G474(self.active.design.copy()),
            Mcu::C531 => DesignSnapshot::C531(self.active.c531_design.copy()),
            m => DesignSnapshot::H523(self.active.h523_designs.get_or_empty(m)),
        }
    }

    /// Put a snapshot back in its place.
    pub fn restore_snapshot(&mut self, snap: DesignSnapshot)
        ensures
            final(self)@ == restored(old(self)@, snap@),
    {
        match snap {
            DesignSnapshot::G474(d) => {
                self.active.design = d;
            },
            DesignSnapshot::H523(d) => {
                let m: Mcu = self.active.mcu;
                self.active.h523_designs.insert(m, d);
            },
            DesignSnapshot::C531(d) => {
                self.active.c531_design = d;
            },
            DesignSnapshot::Asset(k, d) => {
                self.active.asset_designs.insert(k.as_str(), d);
            },
        }
    }

    /// Whether the active design differs from an earlier one, notes aside.
    pub fn non_g474_changed(&self, before: &DesignSnapshot) -> (r: bool)
        ensures
            r == has_changed(self@, before@),
    {
        match before {
            DesignSnapshot::G474(_) => false,
            DesignSnapshot::H523(b) => {
                let d: H523Design = self.active.h523_designs.get_or_empty(self.active.mcu);
                !d.eq_ignoring_notes(b)
            },
            DesignSnapshot::C531(b) => !same_converter(&self.active.c531_design, b),
            DesignSnapshot::Asset(k, b) => {
                let d: H523Design = self.active.asset_designs.get_or_empty(k.as_str());
                !d.eq_ignoring_notes(b)
            },
        }
    }

    /// Record a step that can be undone.
    pub fn push_history(&mut self, snap: DesignSnapshot)
        ensures
            final(self)@ == recorded(old(self)@, snap@),
    {
        let ghost start = self@;
        let ghost s = snap@;
        self.history.push(snap);
        proof {
            assert(self@.history =~= start.history.push(s));
        }
        if self.history.len() > HISTORY_CAP {
            self.history.remove(0);
            proof {
                assert(self@.history =~= start.history.push(s).remove(0));
            }
        }
        self.redo = Vec::new();
        proof {
            assert(self@.redo =~= Seq::<SnapView>::empty());
        }
    }

    /// Change the G474 design; a change is a step that can be undone.
    pub fn mutate(&mut self, design: Design)
        ensures
            final(self)@ == mutated(old(self)@, design@),
    {
        let mut d: Design = design;
        std::mem::swap(&mut self.active.design, &mut d);
        if !self.active.design.same_as(&d) {
            self.push_history(DesignSnapshot::G474(d));
        }
    }

    /// Undo the last step.
    pub fn undo(&mut self)
        ensures
            final(self)@ == undone(old(self)@),
    {
        let ghost start = self@;
        if let Some(prev) = self.history.pop() {
            proof {
                assert(self@.history =~= start.history.drop_last());
                assert(prev@ == start.history.last());
            }
            let current: DesignSnapshot = self.snapshot_active();
            let ghost c = current@;
            self.restore_snapshot(prev);
            let ghost mid = self@;
            self.redo.push(current);
            proof {
                assert(self@.redo =~= mid.redo.push(c));
            }
        }
    }

    /// Do the last undone step again.
    pub fn redo_op(&mut self)
        ensures
            final(self)@ == redone(old(self)@),
    {
        let ghost start = self@;
        if let Some(next) = self.redo.pop() {
            proof {
                assert(self@.redo =~= start.redo.drop_last());
                assert(next@ == start.redo.last());
            }
            let current: DesignSnapshot = self.snapshot_active();
            let ghost c = current@;
            self.restore_snapshot(next);
            let ghost mid = self@;
            self.history.push(current);
            proof {
                assert(self@.history =~= mid.history.push(c));
            }
        }
    }

    /// End a frame that began with the given design and epoch: what changed in it is one
    /// step, unless the project or chip changed.
    pub fn end_frame(&mut self, before: DesignSnapshot, epoch: u64)
        ensures
            final(self)@ == framed(old(self)@, before@, epoch),
    {
        if self.nav_epoch == epoch && self.non_g474_changed(&before) {
            self.push_history(before);
        }
    }

    /// Apply an edit of the converter. `timer` is the timer that a new leg starts on.
    pub fn apply_converter_action(&mut self, action: Option<ConverterAction>, timer: TimId)
        ensures
            action is None ==> final(self)@ == old(self)@,
            action matches Some(x) ==> final(self)@ == converted(old(self)@, x, timer),
    {
        if let Some(a) = action {
            match a {
                ConverterAction::AddLeg => {
                    self.c531_status = None;
                    self.active.c531_design.add_leg(ConverterLeg::pwm(timer));
                },
                ConverterAction::RemoveLeg(i) => {
                    self.c531_status = None;
                    self.active.c531_design.remove_leg(i);
                },
                ConverterAction::SetLeg(i, leg) => {
                    self.c531_status = None;
                    if i < self.active.c531_design.legs.len() {
                        self.active.c531_design.legs.set(i, leg);
                    }
                },
                ConverterAction::AutoAssign => {
                    let pkg: Package = self.active.package;
                    let r: AutoAssign = self.active.c531_design.auto_assign(pkg);
                    self.c531_status = write_status(&r);
                },
            }
        }
    }

    /// Open a part that was chosen in a finder: one of the planned parts, or else an
    /// arbitrary one whose tables are known.
    pub fn open_part(&mut self, name: &str, package: Option<Package>, part: Option<&'static str>)
        ensures
            package is None && part is None ==> final(self)@ == old(self)@,
            package is None ==> (part matches Some(n) ==> final(self)@ == with_asset(
                old(self)@,
                name@,
                Some(n@),
            )),
            package matches Some(p) ==> final(self)@ == with_package(old(self)@, p),
    {
        match package {
            Some(p) => {
                self.set_active_mcu(p.mcu());
                self.active.package = p;
                if let Some(v) = p.to_g474_variant() {
                    self.active.variant = v;
                }
                self.sync_asset_part(None);
                self.view = ViewMode::Inventory;
            },
            None => {
                if part.is_some() {
                    self.set_active_asset(name, part);
                }
            },
        }
    }

    /// What is to be stored apart before projects are stored: what could not be read, if
    /// anything, and that once.
    pub fn take_corrupt_blob(&mut self) -> (r: Option<String>)
        ensures
            r is Some <==> old(self)@.corrupt_blob is Some,
            r matches Some(s) ==> old(self)@.corrupt_blob == Some(s@),
            final(self)@ == (AppView { corrupt_blob: None, ..old(self)@ }),
    {
        self.corrupt_blob.take()
    }
}

} // verus!
