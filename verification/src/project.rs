//! A project: the designs of all families under one name, and which chip is active.

use vstd::prelude::*;

use crate::c531_design::C531Design;
use crate::c531_design::C531_DESIGN_FORMAT_VERSION;
use crate::c531_design::ConverterView;
use crate::c531_plan::converter_plan;
use crate::demand;
use crate::demand::demand_views;
use crate::demand::DemandInput;
use crate::demand::DemandView;
use crate::h523_design::empty_design;
use crate::h523_design::plan_of;
use crate::h523_design::DesignView;
use crate::h523_design::H523Design;
use crate::mcu::Mcu;
use crate::mcu::McuDescriptor;
use crate::mcu::Package;
use crate::mcu_raw::RawMcuData;
use crate::pin_plan::dma_views;
use crate::pin_plan::DmaAssignment;
use crate::pin_plan::DmaView;
use crate::pin_plan::PinPlan;
use crate::pin_plan::PlanView;
use crate::pin_plan::Target;
use crate::pinout::ChipVariant;
use crate::requirements::Design;
use crate::requirements::FabricView;
use crate::text;
use crate::text::has_prefix;
use crate::texts::copy_text;

verus! {

/// The designs of the families that share the pin-lock model, one per family.
#[derive(Clone, Debug)]
pub struct FamilyShelf {
    pub slots: Vec<(Mcu, H523Design)>,
}

/// The first design of a family, from place `k` on.
pub open spec fn family_at(v: Seq<(Mcu, H523Design)>, m: Mcu, k: int) -> Option<DesignView>
    decreases v.len() - k,
{
    if k < 0 || k >= v.len() {
        None
    } else if v[k].0 == m {
        Some(v[k].1@)
    } else {
        family_at(v, m, k + 1)
    }
}

impl View for FamilyShelf {
    type V = Map<Mcu, DesignView>;

    open spec fn view(&self) -> Map<Mcu, DesignView> {
        Map::new(
            |m: Mcu| family_at(self.slots@, m, 0) is Some,
            |m: Mcu| family_at(self.slots@, m, 0)->0,
        )
    }
}

proof fn family_after_set(v: Seq<(Mcu, H523Design)>, at: int, d: H523Design, m: Mcu, k: int)
    requires
        0 <= k <= at < v.len(),
        forall|j: int| k <= j < at ==> (#[trigger] v[j]).0 != v[at].0,
    ensures
        family_at(v.update(at, (v[at].0, d)), m, k) == (if m == v[at].0 {
            Some(d@)
        } else {
            family_at(v, m, k)
        }),
    decreases at - k,
{
    let w = v.update(at, (v[at].0, d));
    if k < at {
        assert(w[k] == v[k]);
        family_after_set(v, at, d, m, k + 1);
    } else {
        family_same_tail(v, w, m, at + 1);
    }
}

proof fn family_same_tail(a: Seq<(Mcu, H523Design)>, b: Seq<(Mcu, H523Design)>, m: Mcu, k: int)
    requires
        0 <= k,
        a.len() == b.len(),
        forall|j: int| k <= j < a.len() ==> (#[trigger] a[j]).0 == b[j].0 && a[j].1@ == b[j].1@,
    ensures
        family_at(a, m, k) == family_at(b, m, k),
    decreases a.len() - k,
{
    if k < a.len() {
        assert(a[k].0 == b[k].0);
        family_same_tail(a, b, m, k + 1);
    }
}

proof fn family_after_push(v: Seq<(Mcu, H523Design)>, key: Mcu, d: H523Design, m: Mcu, k: int)
    requires
        0 <= k <= v.len(),
        forall|j: int| k <= j < v.len() ==> (#[trigger] v[j]).0 != key,
    ensures
        family_at(v.push((key, d)), m, k) == (if m == key {
            Some(d@)
        } else {
            family_at(v, m, k)
        }),
    decreases v.len() - k,
{
    let w = v.push((key, d));
    if k < v.len() {
        assert(w[k] == v[k]);
        family_after_push(v, key, d, m, k + 1);
    } else {
        assert(w[k] == (key, d));
        assert(family_at(w, m, k + 1) is None);
    }
}

impl FamilyShelf {
    /// No designs.
    pub fn new() -> (r: FamilyShelf)
        ensures
            r@ == Map::<Mcu, DesignView>::empty(),
    {
        let r: FamilyShelf = FamilyShelf { slots: Vec::new() };
        proof {
            assert(r@ =~= Map::<Mcu, DesignView>::empty());
        }
        r
    }

    /// Whether there is no design.
    pub fn is_empty(&self) -> (r: bool)
        ensures
            r == (self@ =~= Map::<Mcu, DesignView>::empty()),
    {
        proof {
            if self.slots@.len() > 0 {
                assert(family_at(self.slots@, self.slots@[0].0, 0) is Some);
                assert(self@.dom().contains(self.slots@[0].0));
            }
        }
        self.slots.len() == 0
    }

    /// The design of a family.
    pub fn get(&self, m: Mcu) -> (r: Option<&H523Design>)
        ensures
            r is Some <==> self@.dom().contains(m),
            r matches Some(d) ==> d@ == self@[m],
    {
        let mut i: usize = 0;
        while i < self.slots.len()
            invariant
                i <= self.slots@.len(),
                family_at(self.slots@, m, 0) == family_at(self.slots@, m, i as int),
            decreases self.slots@.len() - i,
        {
            if self.slots[i].0 == m {
                return Some(&self.slots[i].1);
            }
            i += 1;
        }
        None
    }

    /// The design of a family, or an empty one.
    pub fn get_or_empty(&self, m: Mcu) -> (r: H523Design)
        ensures
            r@ == family_design(self@, m),
    {
        match self.get(m) {
            Some(d) => d.copy(),
            None => H523Design::default(),
        }
    }

    /// Put a design in its place.
    pub fn insert(&mut self, m: Mcu, d: H523Design)
        ensures
            final(self)@ == old(self)@.insert(m, d@),
    {
        let ghost v = self.slots@;
        let ghost had = self@;
        let ghost dv = d;
        let mut i: usize = 0;
        while i < self.slots.len() && self.slots[i].0 != m
            invariant
                i <= self.slots@.len(),
                self.slots@ == v,
                forall|j: int| 0 <= j < i ==> (#[trigger] v[j]).0 != m,
            decreases self.slots@.len() - i,
        {
            i += 1;
        }
        if i < self.slots.len() {
            self.slots.set(i, (m, d));
            proof {
                assert forall|x: Mcu| #[trigger] family_at(self.slots@, x, 0) == (if x == m {
                    Some(dv@)
                } else {
                    family_at(v, x, 0)
                }) by {
                    family_after_set(v, i as int, dv, x, 0);
                }
            }
        } else {
            self.slots.push((m, d));
            proof {
                assert forall|x: Mcu| #[trigger] family_at(self.slots@, x, 0) == (if x == m {
                    Some(dv@)
                } else {
                    family_at(v, x, 0)
                }) by {
                    family_after_push(v, m, dv, x, 0);
                }
            }
        }
        proof {
            assert(self@ =~= had.insert(m, dv@));
        }
    }

    /// The same designs again.
    pub fn copy(&self) -> (r: FamilyShelf)
        ensures
            r@ == self@,
    {
        let mut slots: Vec<(Mcu, H523Design)> = Vec::new();
        let mut i: usize = 0;
        while i < self.slots.len()
            invariant
                i <= self.slots@.len(),
                slots@.len() == i,
                forall|j: int|
                    0 <= j < i ==> (#[trigger] slots@[j]).0 == self.slots@[j].0 && slots@[j].1@
                        == self.slots@[j].1@,
            decreases self.slots@.len() - i,
        {
            slots.push((self.slots[i].0, self.slots[i].1.copy()));
            i += 1;
        }
        let r: FamilyShelf = FamilyShelf { slots };
        proof {
            assert forall|m: Mcu| #[trigger] family_at(r.slots@, m, 0) == family_at(
                self.slots@,
                m,
                0,
            ) by {
                family_same_tail(r.slots@, self.slots@, m, 0);
            }
            assert(r@ =~= self@);
        }
        r
    }
}

/// The design of a family, or an empty one.
pub open spec fn family_design(v: Map<Mcu, DesignView>, m: Mcu) -> DesignView {
    if v.dom().contains(m) {
        v[m]
    } else {
        empty_design()
    }
}

/// The designs of arbitrary parts, by what their names start with.
#[derive(Clone, Debug)]
pub struct PartShelf {
    pub slots: Vec<(String, H523Design)>,
}

/// The first design of a key, from place `k` on.
pub open spec fn part_at(v: Seq<(String, H523Design)>, key: Seq<char>, k: int) -> Option<DesignView>
    decreases v.len() - k,
{
    if k < 0 || k >= v.len() {
        None
    } else if v[k].0@ == key {
        Some(v[k].1@)
    } else {
        part_at(v, key, k + 1)
    }
}

impl View for PartShelf {
    type V = Map<Seq<char>, DesignView>;

    open spec fn view(&self) -> Map<Seq<char>, DesignView> {
        Map::new(
            |m: Seq<char>| part_at(self.slots@, m, 0) is Some,
            |m: Seq<char>| part_at(self.slots@, m, 0)->0,
        )
    }
}

proof fn part_after_set(v: Seq<(String, H523Design)>, at: int, s: String, d: H523Design, m: Seq<char>, k: int)
    requires
        0 <= k <= at < v.len(),
        s@ == v[at].0@,
        forall|j: int| k <= j < at ==> (#[trigger] v[j]).0@ != v[at].0@,
    ensures
        part_at(v.update(at, (s, d)), m, k) == (if m == s@ {
            Some(d@)
        } else {
            part_at(v, m, k)
        }),
    decreases at - k,
{
    let w = v.update(at, (s, d));
    if k < at {
        assert(w[k] == v[k]);
        part_after_set(v, at, s, d, m, k + 1);
    } else {
        part_same_tail(v, w, m, at + 1);
    }
}

proof fn part_same_tail(a: Seq<(String, H523Design)>, b: Seq<(String, H523Design)>, m: Seq<char>, k: int)
    requires
        0 <= k,
        a.len() == b.len(),
        forall|j: int| k <= j < a.len() ==> (#[trigger] a[j]).0@ == b[j].0@ && a[j].1@ == b[j].1@,
    ensures
        part_at(a, m, k) == part_at(b, m, k),
    decreases a.len() - k,
{
    if k < a.len() {
        assert(a[k].0@ == b[k].0@);
        part_same_tail(a, b, m, k + 1);
    }
}

proof fn part_after_push(v: Seq<(String, H523Design)>, s: String, d: H523Design, m: Seq<char>, k: int)
    requires
        0 <= k <= v.len(),
        forall|j: int| k <= j < v.len() ==> (#[trigger] v[j]).0@ != s@,
    ensures
        part_at(v.push((s, d)), m, k) == (if m == s@ {
            Some(d@)
        } else {
            part_at(v, m, k)
        }),
    decreases v.len() - k,
{
    let w = v.push((s, d));
    if k < v.len() {
        assert(w[k] == v[k]);
        part_after_push(v, s, d, m, k + 1);
    } else {
        assert(w[k] == (s, d));
        assert(part_at(w, m, k + 1) is None);
    }
}

impl PartShelf {
    /// No designs.
    pub fn new() -> (r: PartShelf)
        ensures
            r@ == Map::<Seq<char>, DesignView>::empty(),
    {
        let r: PartShelf = PartShelf { slots: Vec::new() };
        proof {
            assert(r@ =~= Map::<Seq<char>, DesignView>::empty());
        }
        r
    }

    /// The design of a key.
    pub fn get(&self, key: &str) -> (r: Option<&H523Design>)
        ensures
            r is Some <==> self@.dom().contains(key@),
            r matches Some(d) ==> d@ == self@[key@],
    {
        let mut i: usize = 0;
        while i < self.slots.len()
            invariant
                i <= self.slots@.len(),
                part_at(self.slots@, key@, 0) == part_at(self.slots@, key@, i as int),
            decreases self.slots@.len() - i,
        {
            if text::same(self.slots[i].0.as_str(), key) {
                return Some(&self.slots[i].1);
            }
            i += 1;
        }
        None
    }

    /// The design of a key, or an empty one.
    pub fn get_or_empty(&self, key: &str) -> (r: H523Design)
        ensures
            r@ == part_design(self@, key@),
    {
        match self.get(key) {
            Some(d) => d.copy(),
            None => H523Design::default(),
        }
    }

    /// Put a design in its place.
    pub fn insert(&mut self, key: &str, d: H523Design)
        ensures
            final(self)@ == old(self)@.insert(key@, d@),
    {
        let ghost v = self.slots@;
        let ghost had = self@;
        let ghost dv = d;
        let name: String = copy_text(key);
        let ghost nv = name;
        let mut i: usize = 0;
        while i < self.slots.len() && !text::same(self.slots[i].0.as_str(), key)
            invariant
                i <= self.slots@.len(),
                self.slots@ == v,
                forall|j: int| 0 <= j < i ==> (#[trigger] v[j]).0@ != key@,
            decreases self.slots@.len() - i,
        {
            i += 1;
        }
        if i < self.slots.len() {
            self.slots.set(i, (name, d));
            proof {
                assert forall|x: Seq<char>| #[trigger] part_at(self.slots@, x, 0) == (if x == key@ {
                    Some(dv@)
                } else {
                    part_at(v, x, 0)
                }) by {
                    part_after_set(v, i as int, nv, dv, x, 0);
                }
            }
        } else {
            self.slots.push((name, d));
            proof {
                assert forall|x: Seq<char>| #[trigger] part_at(self.slots@, x, 0) == (if x == key@ {
                    Some(dv@)
                } else {
                    part_at(v, x, 0)
                }) by {
                    part_after_push(v, nv, dv, x, 0);
                }
            }
        }
        proof {
            assert(self@ =~= had.insert(key@, dv@));
        }
    }

    /// The same designs again.
    pub fn copy(&self) -> (r: PartShelf)
        ensures
            r@ == self@,
    {
        let mut slots: Vec<(String, H523Design)> = Vec::new();
        let mut i: usize = 0;
        while i < self.slots.len()
            invariant
                i <= self.slots@.len(),
                slots@.len() == i,
                forall|j: int|
                    0 <= j < i ==> (#[trigger] slots@[j]).0@ == self.slots@[j].0@ && slots@[j].1@
                        == self.slots@[j].1@,
            decreases self.slots@.len() - i,
        {
            slots.push((copy_text(self.slots[i].0.as_str()), self.slots[i].1.copy()));
            i += 1;
        }
        let r: PartShelf = PartShelf { slots };
        proof {
            assert forall|m: Seq<char>| #[trigger] part_at(r.slots@, m, 0) == part_at(
                self.slots@,
                m,
                0,
            ) by {
                part_same_tail(r.slots@, self.slots@, m, 0);
            }
            assert(r@ =~= self@);
        }
        r
    }
}

/// The design of a key, or an empty one.
pub open spec fn part_design(v: Map<Seq<char>, DesignView>, key: Seq<char>) -> DesignView {
    if v.dom().contains(key) {
        v[key]
    } else {
        empty_design()
    }
}

/// One named project.
#[derive(Clone, Debug)]
pub struct Project {
    pub name: String,
    pub design: Design,
    pub h523_designs: FamilyShelf,
    pub c531_design: C531Design,
    pub mcu: Mcu,
    pub package: Package,
    pub variant: ChipVariant,
    pub catalog_demands: Vec<DemandInput>,
    /// An arbitrary part, which then is the active chip.
    pub asset_chip: Option<String>,
    pub asset_designs: PartShelf,
}

/// A project as a mathematical value.
pub ghost struct ProjectView {
    pub name: Seq<char>,
    pub design: FabricView,
    pub h523_designs: Map<Mcu, DesignView>,
    pub c531_design: ConverterView,
    pub mcu: Mcu,
    pub package: Package,
    pub variant: ChipVariant,
    pub demands: Seq<DemandView>,
    pub asset_chip: Option<Seq<char>>,
    pub asset_designs: Map<Seq<char>, DesignView>,
}

impl View for Project {
    type V = ProjectView;

    open spec fn view(&self) -> ProjectView {
        ProjectView {
            name: self.name@,
            design: self.design@,
            h523_designs: self.h523_designs@,
            c531_design: self.c531_design@,
            mcu: self.mcu,
            package: self.package,
            variant: self.variant,
            demands: demand_views(self.catalog_demands@),
            asset_chip: match self.asset_chip {
                Some(s) => Some(s@),
                None => None,
            },
            asset_designs: self.asset_designs@,
        }
    }
}

/// The values of projects.
pub open spec fn project_views(v: Seq<Project>) -> Seq<ProjectView> {
    v.map_values(|p: Project| p@)
}

/// What demands start as: none of each kind.
pub open spec fn no_demands() -> Seq<DemandView> {
    demand::demand_kinds_seq().map_values(
        |k: Seq<char>|
            DemandView { kind: k, count: 0, with_dma: false, options: Seq::empty() },
    )
}

/// A project that starts with a design on the G474 and holds nothing else.
pub open spec fn fresh_project(
    name: Seq<char>,
    package: Package,
    design: FabricView,
) -> ProjectView {
    ProjectView {
        name,
        design,
        h523_designs: Map::empty(),
        c531_design: ConverterView {
            format_version: C531_DESIGN_FORMAT_VERSION,
            legs: Seq::empty(),
            locks: Seq::empty(),
        },
        mcu: Mcu::G474,
        package,
        variant: ChipVariant::G474R,
        demands: no_demands(),
        asset_chip: None,
        asset_designs: Map::empty(),
    }
}

/// The key of a part: the first ten characters of its name.
pub open spec fn part_key(name: Seq<char>) -> Seq<char> {
    if name.len() > 10 {
        name.take(10)
    } else {
        name
    }
}

/// The family of a chip in plans.
pub open spec fn family_of(m: Mcu) -> Seq<char> {
    match m {
        Mcu::G474 => "G4"@,
        Mcu::H523 => "H5"@,
        Mcu::C5A3 => "C5"@,
        Mcu::C531 => "C5"@,
    }
}

/// A family's name without the vendor's prefix.
pub open spec fn short_family(family: Seq<char>) -> Seq<char> {
    if has_prefix(family, "STM32"@) {
        family.skip("STM32"@.len() as int)
    } else {
        family
    }
}

/// The plan of a project before channels are assigned: of its arbitrary part, if it has one
/// whose tables are known, else of its active family. `fabric` is the plan of the G474 design.
pub open spec fn lowered(p: ProjectView, part: Option<RawMcuData>, fabric: PlanView) -> PlanView {
    match (p.asset_chip, part) {
        (Some(_), Some(raw)) => plan_of(
            part_design(p.asset_designs, part_key(raw.name@)),
            raw,
            raw.name@,
            short_family(raw.family@),
        ),
        _ => {
            let name = p.package.info.raw.name@;
            match p.mcu {
                Mcu::G474 => fabric,
                Mcu::C531 => converter_plan(
                    p.c531_design,
                    *p.package.info.raw,
                    name,
                    family_of(p.mcu),
                ),
                m => plan_of(
                    family_design(p.h523_designs, m),
                    *p.package.info.raw,
                    name,
                    family_of(m),
                ),
            }
        },
    }
}

/// The plan of a project, with the DMA channels that it was assigned.
pub open spec fn project_plan(
    p: ProjectView,
    part: Option<RawMcuData>,
    fabric: PlanView,
    dma: Seq<DmaView>,
) -> PlanView {
    PlanView { dma_assignments: dma, ..lowered(p, part, fabric) }
}

/// The key of a part: the first ten characters of its name.
pub fn asset_key(name: &str) -> (r: String)
    ensures
        r@ == part_key(name@),
{
    let chars: Vec<char> = text::chars_of(name);
    if chars.len() > 10 {
        let mut head: Vec<char> = Vec::new();
        let mut i: usize = 0;
        while i < 10
            invariant
                i <= 10,
                chars@.len() > 10,
                head@ =~= chars@.take(i as int),
            decreases 10 - i,
        {
            head.push(chars[i]);
            i += 1;
        }
        text::string_of(&head)
    } else {
        copy_text(name)
    }
}

impl Project {
    /// A project that starts with the given design, on the G474 in the given package.
    pub fn new(name: &str, package: Package, design: Design) -> (r: Project)
        ensures
            r@ == fresh_project(name@, package, design@),
    {
        let r: Project = Project {
            name: copy_text(name),
            design,
            h523_designs: FamilyShelf::new(),
            c531_design: C531Design::new(),
            mcu: Mcu::G474,
            package,
            variant: ChipVariant::G474R,
            catalog_demands: demand::default_demands(),
            asset_chip: None,
            asset_designs: PartShelf::new(),
        };
        proof {
            assert(r@.demands =~= no_demands());
        }
        r
    }

    /// The family of the active chip in plans.
    pub fn family_tag(&self) -> (r: &'static str)
        ensures
            r@ == family_of(self.mcu),
    {
        match self.mcu {
            Mcu::G474 => "G4",
            Mcu::H523 => "H5",
            Mcu::C5A3 => "C5",
            Mcu::C531 => "C5",
        }
    }

    /// The plan of the active design, with the given DMA channels. `part` is the descriptor of
    /// the arbitrary part, `fabric` the plan of the G474 design. Which channel a request gets
    /// is not decided here: `dma` says it.
    pub fn to_pin_plan(
        &self,
        part: Option<&McuDescriptor>,
        fabric: PinPlan,
        dma: Vec<DmaAssignment>,
    ) -> (r: PinPlan)
        requires
            part matches Some(d) ==> d.name == d.raw.name && d.family == d.raw.family,
        ensures
            r@ == project_plan(
                self@,
                match part {
                    Some(d) => Some(*d.raw),
                    None => None,
                },
                fabric@,
                dma_views(dma@),
            ),
    {
        let mut plan: PinPlan = self.lower(part, fabric);
        plan.dma_assignments = dma;
        plan
    }

    fn lower(&self, part: Option<&McuDescriptor>, fabric: PinPlan) -> (r: PinPlan)
        requires
            part matches Some(d) ==> d.name == d.raw.name && d.family == d.raw.family,
        ensures
            r@ == lowered(
                self@,
                match part {
                    Some(d) => Some(*d.raw),
                    None => None,
                },
                fabric@,
            ),
    {
        if self.asset_chip.is_some() {
            if let Some(d) = part {
                let key: String = asset_key(d.name);
                let design: H523Design = self.asset_designs.get_or_empty(key.as_str());
                let family: String = match text::strip_prefix(d.family, "STM32") {
                    Some(rest) => copy_text(rest),
                    None => copy_text(d.family),
                };
                return design.to_pin_plan(Target { package: copy_text(d.name), family }, d.raw);
            }
        }
        let target: Target = Target {
            package: copy_text(self.package.name()),
            family: copy_text(self.family_tag()),
        };
        match self.mcu {
            Mcu::G474 => fabric,
            Mcu::C531 => self.c531_design.to_pin_plan(self.package, target),
            m => {
                let d: H523Design = self.h523_designs.get_or_empty(m);
                d.to_pin_plan(target, self.package.raw())
            },
        }
    }

    /// The same project again.
    pub fn copy(&self) -> (r: Project)
        ensures
            r@ == self@,
    {
        let mut demands: Vec<DemandInput> = Vec::new();
        let mut i: usize = 0;
        while i < self.catalog_demands.len()
            invariant
                i <= self.catalog_demands@.len(),
                demands@.len() == i,
                forall|k: int| 0 <= k < i ==> (#[trigger] demands@[k])@ == self.catalog_demands@[k]@,
            decreases self.catalog_demands@.len() - i,
        {
            demands.push(self.catalog_demands[i].copy());
            i += 1;
        }
        proof {
            assert(demand_views(demands@) =~= demand_views(self.catalog_demands@));
        }
        Project {
            name: copy_text(self.name.as_str()),
            design: self.design.copy(),
            h523_designs: self.h523_designs.copy(),
            c531_design: self.c531_design.copy(),
            mcu: self.mcu,
            package: self.package,
            variant: self.variant,
            catalog_demands: demands,
            asset_chip: match &self.asset_chip {
                Some(s) => Some(copy_text(s.as_str())),
                None => None,
            },
            asset_designs: self.asset_designs.copy(),
        }
    }
}

} // verus!
