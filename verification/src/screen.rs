//! What the frame around the views decides: which tabs there are, what a choice of chip
//! or package does, and what the status line says.

use vstd::prelude::*;

use crate::c531_design;
use crate::c531_design::routes_of;
use crate::c531_design::C531Design;
use crate::demand::DemandInput;
use crate::demand::DemandView;
use crate::h523_design::problem_views;
use crate::h523_design::problems_of;
use crate::h523_design::DesignView;
use crate::h523_design::H523Design;
use crate::mcu::Mcu;
use crate::mcu::Package;
use crate::mcu_pinout::rows_of;
use crate::mcu_raw::RawMcuData;
use crate::project::ProjectView;
use crate::requirements::Design;
use crate::requirements::FabricView;
use crate::session::undone;
use crate::session::redone;
use crate::session::g474_variant;
use crate::session::is_shared;
use crate::session::landed;
use crate::session::landing_view;
use crate::session::mutated;
use crate::session::navigated;
use crate::session::with_mcu;
use crate::session::AppView;
use crate::session::PeriPlannerApp;
use crate::session::ViewMode;
use crate::text;
use crate::text::decimal;
use crate::text::views;
use crate::texts::copy_text;

verus! {

/// A tab: a view and its title.
#[derive(Copy, Clone, Debug)]
pub struct Tab {
    pub view: ViewMode,
    pub title: &'static str,
}

/// The tabs of the planner of a family, or of an arbitrary part.
pub open spec fn planner_tabs(mcu: Mcu, browsing: bool) -> Seq<Tab> {
    if browsing {
        seq![
            Tab { view: ViewMode::Peripherals, title: "Peripherals" },
            Tab { view: ViewMode::Package, title: "Pin map" },
        ]
    } else {
        match mcu {
            Mcu::G474 => seq![
                Tab { view: ViewMode::Fabric, title: "Power fabric" },
                Tab { view: ViewMode::Hrtim, title: "HRTIM" },
                Tab { view: ViewMode::Comms, title: "Comms" },
                Tab { view: ViewMode::Timers, title: "Timers" },
                Tab { view: ViewMode::Waveforms, title: "Waveforms" },
                Tab { view: ViewMode::Package, title: "Package" },
            ],
            Mcu::C531 => seq![Tab { view: ViewMode::Converter, title: "Converter" }],
            Mcu::H523 | Mcu::C5A3 => seq![
                Tab { view: ViewMode::Peripherals, title: "Peripherals" },
                Tab { view: ViewMode::Package, title: "Pin map" },
            ],
        }
    }
}

/// The tabs that every chip has.
pub open spec fn shared_tabs() -> Seq<Tab> {
    seq![
        Tab { view: ViewMode::Inventory, title: "Inventory" },
        Tab { view: ViewMode::AfTable, title: "Pin / AF" },
        Tab { view: ViewMode::Analog, title: "Analog pairs" },
        Tab { view: ViewMode::Catalog, title: "Part finder" },
        Tab { view: ViewMode::Dropin, title: "Drop-in finder" },
    ]
}

/// All tabs, in order.
pub fn tabs(mcu: Mcu, browsing: bool) -> (r: Vec<Tab>)
    ensures
        r@ == planner_tabs(mcu, browsing) + shared_tabs(),
{
    let mut r: Vec<Tab> = if browsing {
        vec![
            Tab { view: ViewMode::Peripherals, title: "Peripherals" },
            Tab { view: ViewMode::Package, title: "Pin map" },
        ]
    } else {
        match mcu {
            Mcu::G474 => vec![
                Tab { view: ViewMode::Fabric, title: "Power fabric" },
                Tab { view: ViewMode::Hrtim, title: "HRTIM" },
                Tab { view: ViewMode::Comms, title: "Comms" },
                Tab { view: ViewMode::Timers, title: "Timers" },
                Tab { view: ViewMode::Waveforms, title: "Waveforms" },
                Tab { view: ViewMode::Package, title: "Package" },
            ],
            Mcu::C531 => vec![Tab { view: ViewMode::Converter, title: "Converter" }],
            Mcu::H523 | Mcu::C5A3 => vec![
                Tab { view: ViewMode::Peripherals, title: "Peripherals" },
                Tab { view: ViewMode::Package, title: "Pin map" },
            ],
        }
    };
    proof {
        assert(r@ =~= planner_tabs(mcu, browsing));
    }
    r.push(Tab { view: ViewMode::Inventory, title: "Inventory" });
    r.push(Tab { view: ViewMode::AfTable, title: "Pin / AF" });
    r.push(Tab { view: ViewMode::Analog, title: "Analog pairs" });
    r.push(Tab { view: ViewMode::Catalog, title: "Part finder" });
    r.push(Tab { view: ViewMode::Dropin, title: "Drop-in finder" });
    proof {
        assert(r@ =~= planner_tabs(mcu, browsing) + shared_tabs());
    }
    r
}

/// What stands in the middle of the screen.
#[derive(Copy, Clone, Debug, PartialEq, Eq, Structural)]
pub enum Pane {
    /// One of the views of the G474 planner.
    Planner(ViewMode),
    Peripherals,
    PinMap,
    AfTable,
    Analog,
    Catalog,
    Dropin,
    Converter,
    Inventory,
    Empty,
}

/// What a view shows: for an arbitrary part and for the families with the pin-lock
/// model, a view that the chip does not have shows the inventory.
pub open spec fn pane_of(view: ViewMode, mcu: Mcu, browsing: bool) -> Pane {
    if browsing || mcu != Mcu::G474 {
        match view {
            ViewMode::Peripherals => Pane::Peripherals,
            ViewMode::Package => Pane::PinMap,
            ViewMode::AfTable => Pane::AfTable,
            ViewMode::Analog => Pane::Analog,
            ViewMode::Catalog => Pane::Catalog,
            ViewMode::Dropin => Pane::Dropin,
            ViewMode::Converter => if !browsing && mcu == Mcu::C531 {
                Pane::Converter
            } else {
                Pane::Inventory
            },
            _ => Pane::Inventory,
        }
    } else {
        match view {
            ViewMode::Converter | ViewMode::Peripherals => Pane::Empty,
            ViewMode::Inventory => Pane::Inventory,
            ViewMode::AfTable => Pane::AfTable,
            ViewMode::Analog => Pane::Analog,
            ViewMode::Catalog => Pane::Catalog,
            ViewMode::Dropin => Pane::Dropin,
            _ => Pane::Planner(view),
        }
    }
}

/// What a view shows.
pub fn pane(view: ViewMode, mcu: Mcu, browsing: bool) -> (r: Pane)
    ensures
        r == pane_of(view, mcu, browsing),
{
    if browsing || mcu != Mcu::G474 {
        match view {
            ViewMode::Peripherals => Pane::Peripherals,
            ViewMode::Package => Pane::PinMap,
            ViewMode::AfTable => Pane::AfTable,
            ViewMode::Analog => Pane::Analog,
            ViewMode::Catalog => Pane::Catalog,
            ViewMode::Dropin => Pane::Dropin,
            ViewMode::Converter => if !browsing && mcu == Mcu::C531 {
                Pane::Converter
            } else {
                Pane::Inventory
            },
            _ => Pane::Inventory,
        }
    } else {
        match view {
            ViewMode::Converter | ViewMode::Peripherals => Pane::Empty,
            ViewMode::Inventory => Pane::Inventory,
            ViewMode::AfTable => Pane::AfTable,
            ViewMode::Analog => Pane::Analog,
            ViewMode::Catalog => Pane::Catalog,
            ViewMode::Dropin => Pane::Dropin,
            _ => Pane::Planner(view),
        }
    }
}

/// Every tab of a chip shows something.
pub proof fn every_tab_shows(mcu: Mcu, browsing: bool, i: int)
    requires
        0 <= i < (planner_tabs(mcu, browsing) + shared_tabs()).len(),
    ensures
        pane_of((planner_tabs(mcu, browsing) + shared_tabs())[i].view, mcu, browsing)
            != Pane::Empty,
{
}

/// Whether the tab at a place shows a view.
pub open spec fn tab_at(mcu: Mcu, browsing: bool, i: int, view: ViewMode) -> bool {
    let all = planner_tabs(mcu, browsing) + shared_tabs();
    0 <= i < all.len() && all[i].view == view
}

/// Where a session lands after a change of project is one of the tabs of its chip, and
/// shows something: no project opens on a blank view. The looked-up part must be that of
/// the project.
pub proof fn landing_is_a_tab(a: AppView)
    requires
        a.asset_part is Some <==> a.active.asset_chip is Some,
    ensures
        pane_of(landed(a).view, a.active.mcu, a.asset_part is Some) != Pane::Empty,
        exists|i: int|
            #[trigger] tab_at(a.active.mcu, a.asset_part is Some, i, landed(a).view),
{
    let browsing = a.asset_part is Some;
    let own = planner_tabs(a.active.mcu, browsing);
    let n: int = own.len() as int;
    if is_shared(a.view) {
        let k: int = if a.view == ViewMode::Inventory {
            0
        } else if a.view == ViewMode::AfTable {
            1
        } else if a.view == ViewMode::Analog {
            2
        } else if a.view == ViewMode::Catalog {
            3
        } else {
            4
        };
        assert((own + shared_tabs())[n + k] == shared_tabs()[k]);
        assert(tab_at(a.active.mcu, browsing, n + k, a.view));
    } else {
        assert((own + shared_tabs())[0] == own[0]);
        assert(tab_at(a.active.mcu, browsing, 0, landing_view(a.active)));
    }
}

/// Where the view goes when a family is chosen.
pub open spec fn view_for(m: Mcu, view: ViewMode) -> ViewMode {
    let descriptive = view == ViewMode::Inventory || view == ViewMode::AfTable;
    match m {
        Mcu::G474 => view,
        Mcu::C531 => if descriptive {
            view
        } else {
            ViewMode::Converter
        },
        Mcu::H523 | Mcu::C5A3 => if descriptive {
            view
        } else {
            ViewMode::Peripherals
        },
    }
}

/// After a package is chosen; `design` is the G474 design for it.
pub open spec fn with_choice(a: AppView, package: Package, design: FabricView) -> AppView {
    let b = AppView { active: ProjectView { package, ..a.active }, ..a };
    match g474_variant(package) {
        Some(v) => mutated(
            AppView { active: ProjectView { variant: v, ..b.active }, ..b },
            design,
        ),
        None => b,
    }
}

/// After the keys of a frame: the command key with Z undoes, or does again with shift; with
/// Y it does again.
pub open spec fn after_keys(a: AppView, command: bool, shift: bool, z: bool, y: bool) -> AppView {
    let b = if command && z {
        if shift {
            redone(a)
        } else {
            undone(a)
        }
    } else {
        a
    };
    if command && y {
        redone(b)
    } else {
        b
    }
}

/// After a family is chosen; `package` is its first package, `design` the G474 design
/// for that package.
pub open spec fn with_family(a: AppView, m: Mcu, package: Package, design: FabricView) -> AppView {
    let b = with_choice(with_mcu(a, m), package, design);
    AppView { view: view_for(m, b.view), ..b }
}

impl PeriPlannerApp {
    /// Choose a package. `design` is the G474 design for it.
    pub fn choose_package(&mut self, package: Package, design: Design)
        ensures
            final(self)@ == with_choice(old(self)@, package, design@),
    {
        self.active.package = package;
        if let Some(v) = package.to_g474_variant() {
            self.active.variant = v;
            self.mutate(design);
        }
    }

    /// Choose a family. `package` is its first package, and `design` the G474 design for
    /// that package.
    pub fn choose_mcu(&mut self, m: Mcu, package: Package, design: Design)
        ensures
            final(self)@ == with_family(old(self)@, m, package, design@),
    {
        self.set_active_mcu(m);
        self.choose_package(package, design);
        let descriptive: bool = self.view == ViewMode::Inventory || self.view == ViewMode::AfTable;
        if !descriptive {
            self.view = match m {
                Mcu::G474 => self.view,
                Mcu::C531 => ViewMode::Converter,
                Mcu::H523 | Mcu::C5A3 => ViewMode::Peripherals,
            };
        }
    }

    /// Do what the keys of a frame ask for.
    pub fn take_keys(&mut self, command: bool, shift: bool, z: bool, y: bool)
        ensures
            final(self)@ == after_keys(old(self)@, command, shift, z, y),
    {
        if command && z {
            if shift {
                self.redo_op();
            } else {
                self.undo();
            }
        }
        if command && y {
            self.redo_op();
        }
    }

    /// Leave the arbitrary part for the chip that was planned before.
    pub fn leave_part(&mut self)
        ensures
            final(self)@ == landed(
                navigated(
                    AppView {
                        active: ProjectView { asset_chip: None, ..old(self)@.active },
                        ..old(self)@
                    },
                ),
            ),
    {
        self.active.asset_chip = None;
        self.clear_undo_for_nav();
        self.land_on_active_view();
    }

    /// Whether there is a step to undo, and whether there is one to do again.
    pub fn steps(&self) -> (r: (bool, bool))
        ensures
            r.0 == (self@.history.len() > 0),
            r.1 == (self@.redo.len() > 0),
    {
        (self.history.len() > 0, self.redo.len() > 0)
    }
}

/// What the status line says of a design.
#[derive(Debug)]
pub struct Status {
    pub counts: String,
    pub healthy: bool,
    pub verdict: String,
}

/// What the status line says, as a mathematical value.
pub ghost struct StatusView {
    pub counts: Seq<char>,
    pub healthy: bool,
    pub verdict: Seq<char>,
}

impl View for Status {
    type V = StatusView;

    open spec fn view(&self) -> StatusView {
        StatusView { counts: self.counts@, healthy: self.healthy, verdict: self.verdict@ }
    }
}

/// What is said of the problems: `good` where nothing is wrong, else how much is.
pub open spec fn verdict_text(n: int, good: Seq<char>, bad: Seq<char>) -> Seq<char> {
    if n == 0 {
        "✓ "@ + good
    } else {
        "⚠ "@ + decimal(n) + bad
    }
}

fn write_verdict(n: usize, good: &str, bad: &str) -> (r: String)
    ensures
        r@ == verdict_text(n as int, good@, bad@),
{
    if n == 0 {
        let mut s: String = "✓ ".to_owned();
        s.append(good);
        s
    } else {
        let mut s: String = "⚠ ".to_owned();
        text::push_number(&mut s, n as u64);
        s.append(bad);
        s
    }
}

/// The status of a design with locked pins on a chip.
pub open spec fn lock_status(d: DesignView, raw: RawMcuData) -> StatusView {
    let n = problems_of(d, raw).len() as int;
    StatusView {
        counts: decimal(d.uses.len() as int) + " peripherals · "@ + decimal(d.locks.len() as int)
            + " pins locked"@,
        healthy: n == 0,
        verdict: verdict_text(n, "complete"@, " unplaced/unreachable"@),
    }
}

/// The status of a design with locked pins on a chip.
pub fn status_of_locks(d: &H523Design, raw: &RawMcuData) -> (r: Status)
    ensures
        r@ == lock_status(d@, *raw),
{
    let problems = d.validate(raw);
    proof {
        assert(problem_views(problems@).len() == problems@.len());
    }
    let mut counts: String = text::number(d.uses.len() as u64);
    counts.append(" peripherals · ");
    text::push_number(&mut counts, d.pin_locks.len() as u64);
    counts.append(" pins locked");
    Status {
        counts,
        healthy: problems.len() == 0,
        verdict: write_verdict(problems.len(), "complete", " unplaced/unreachable"),
    }
}

/// The status of a converter on a part.
pub open spec fn converter_status(d: C531Design, package: Package) -> StatusView {
    let n = c531_design::problems_of(
        rows_of(*package.info.raw),
        routes_of(package.info.mcu),
        d@.legs,
    ).len() as int;
    StatusView {
        counts: decimal(d@.legs.len() as int) + " legs"@,
        healthy: n == 0,
        verdict: verdict_text(n, "realizable"@, " problem(s)"@),
    }
}

/// The status of a converter on a part.
pub fn status_of_converter(d: &C531Design, package: Package) -> (r: Status)
    ensures
        r@ == converter_status(*d, package),
{
    let problems = d.validate(package);
    let mut counts: String = text::number(d.legs.len() as u64);
    counts.append(" legs");
    Status {
        counts,
        healthy: problems.len() == 0,
        verdict: write_verdict(problems.len(), "realizable", " problem(s)"),
    }
}

/// How many of the first `n` requirements are met.
pub open spec fn met_upto(d: FabricView, n: int) -> int
    decreases n,
{
    if n <= 0 {
        0
    } else {
        met_upto(d, n - 1) + if d.assignments[n - 1] is Some {
            1int
        } else {
            0int
        }
    }
}

/// The status of a G474 design: what it asks for, what of it is met, how many pins it has
/// locked, and how many warnings there are.
pub open spec fn fabric_status(d: FabricView, warnings: int) -> StatusView {
    StatusView {
        counts: decimal(d.requirements.len() as int) + " reqs · "@ + decimal(
            met_upto(d, d.assignments.len() as int),
        ) + " assigned · "@ + decimal(d.pins.len() as int) + " pins locked"@,
        healthy: warnings == 0,
        verdict: if warnings == 0 {
            "✓ 0 warnings"@
        } else {
            "⚠ "@ + decimal(warnings) + " warning(s)"@
        },
    }
}

/// The status of a G474 design with warnings.
pub fn status_of_fabric(d: &Design, warnings: usize) -> (r: Status)
    ensures
        r@ == fabric_status(d@, warnings as int),
{
    let mut met: u64 = 0;
    let mut i: usize = 0;
    while i < d.assignments.len()
        invariant
            i <= d.assignments@.len(),
            met <= i,
            met == met_upto(d@, i as int),
        decreases d.assignments@.len() - i,
    {
        proof {
            assert(d@.assignments == d.assignments@);
        }
        if d.assignments[i].is_some() {
            met += 1;
        }
        i += 1;
    }
    let mut counts: String = text::number(d.requirements.len() as u64);
    counts.append(" reqs · ");
    text::push_number(&mut counts, met);
    counts.append(" assigned · ");
    text::push_number(&mut counts, d.pin_assignments.len() as u64);
    counts.append(" pins locked");
    let verdict: String = if warnings == 0 {
        "✓ 0 warnings".to_owned()
    } else {
        let mut s: String = "⚠ ".to_owned();
        text::push_number(&mut s, warnings as u64);
        s.append(" warning(s)");
        s
    };
    Status { counts, healthy: warnings == 0, verdict }
}

/// What the first `n` demands ask for, without those that ask for nothing.
pub open spec fn asked_upto(v: Seq<DemandView>, n: int) -> Seq<Seq<char>>
    decreases n,
{
    if n <= 0 {
        Seq::empty()
    } else if v[n - 1].count > 0 {
        asked_upto(v, n - 1).push(v[n - 1].kind + "×"@ + decimal(v[n - 1].count as int))
    } else {
        asked_upto(v, n - 1)
    }
}

/// What the demands ask for, without those that ask for nothing.
pub fn asked(demands: &[DemandInput]) -> (r: Vec<String>)
    ensures
        views(r@) == asked_upto(demands@.map_values(|d: DemandInput| d@), demands@.len() as int),
{
    let ghost v = demands@.map_values(|d: DemandInput| d@);
    let mut r: Vec<String> = Vec::new();
    let mut i: usize = 0;
    proof {
        assert(views(r@) =~= asked_upto(v, 0));
    }
    while i < demands.len()
        invariant
            i <= demands@.len(),
            v == demands@.map_values(|d: DemandInput| d@),
            views(r@) == asked_upto(v, i as int),
        decreases demands@.len() - i,
    {
        proof {
            assert(v[i as int] == demands@[i as int]@);
        }
        if demands[i].count > 0 {
            let mut s: String = copy_text(demands[i].kind);
            s.append("×");
            text::push_number(&mut s, demands[i].count as u64);
            let ghost had = r@;
            let ghost t = s@;
            r.push(s);
            proof {
                assert(views(r@) =~= views(had).push(t));
            }
        }
        i += 1;
    }
    r
}

/// The design that is exported: a family's own, as its own summary. The G474 design's
/// summary is given.
pub fn export_text(
    mcu: Mcu,
    part: &str,
    fabric: String,
    converter: &C531Design,
    locks: &H523Design,
) -> (r: String)
    ensures
        r@ == (match mcu {
            Mcu::G474 => fabric@,
            Mcu::C531 => c531_design::converter_summary(converter@, part@),
            Mcu::H523 | Mcu::C5A3 => crate::h523_design::summary_of(locks@, part@),
        }),
{
    match mcu {
        Mcu::G474 => fabric,
        Mcu::C531 => converter.export_summary(part),
        Mcu::H523 | Mcu::C5A3 => locks.export_summary(part),
    }
}

} // verus!
