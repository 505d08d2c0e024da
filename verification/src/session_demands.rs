//! Between a session's designs and its demands: what a design amounts to, and a design
//! filled up to what is asked for.

use vstd::prelude::*;

use crate::c531_design::ConverterLeg;
use crate::c531_design::ConverterView;
use crate::demand;
use crate::demand::bump;
use crate::demand::demand_views;
use crate::demand::demanded;
use crate::demand::fabric_seeded;
use crate::demand::have_count;
use crate::demand::legs_seeded;
use crate::demand::locked_pins;
use crate::demand::pins_seeded;
use crate::demand::raised;
use crate::demand::spec_kind;
use crate::demand::AdcTemplates;
use crate::demand::DemandInput;
use crate::demand::DemandView;
use crate::demand::Seeding;
use crate::h523_design::H523Design;
use crate::h523_design::UseView;
use crate::mcu::Mcu;
use crate::project::family_design;
use crate::project::ProjectView;
use crate::requirements::Design;
use crate::requirements::RequirementSpec;
use crate::select;
use crate::select::class_name;
use crate::select::kind_of_class;
use crate::session::recorded;
use crate::session::AppView;
use crate::session::PeriPlannerApp;
use crate::session::SnapView;
use crate::session::ViewMode;
use crate::text;

verus! {

/// How many bits of a number are set.
pub open spec fn ones(n: int) -> int
    decreases n,
{
    if n <= 0 {
        0
    } else {
        n % 2 + ones(n / 2)
    }
}

proof fn ones_fit(n: int, k: nat)
    requires
        0 <= n,
        n < pow(k),
    ensures
        0 <= ones(n) <= k,
    decreases k,
{
    if k > 0 && n > 0 {
        assert(n / 2 < pow((k - 1) as nat)) by {
            assert(pow(k) == 2 * pow((k - 1) as nat));
        }
        ones_fit(n / 2, (k - 1) as nat);
    }
}

/// A power of two.
spec fn pow(k: nat) -> int
    decreases k,
{
    if k == 0 {
        1
    } else {
        2 * pow((k - 1) as nat)
    }
}

fn count_ones(mask: u8) -> (r: u8)
    ensures
        r == ones(mask as int),
        r <= 8,
{
    let mut n: u8 = mask;
    let mut c: u8 = 0;
    proof {
        reveal_with_fuel(pow, 9);
        ones_fit(mask as int, 8);
    }
    while n > 0
        invariant
            c + ones(n as int) == ones(mask as int),
            ones(mask as int) <= 8,
            0 <= ones(n as int),
        decreases n,
    {
        proof {
            reveal_with_fuel(pow, 9);
            ones_fit(n as int / 2, 8);
        }
        c = c + n % 2;
        n = n / 2;
    }
    c
}

/// What a leg counts for, of a kind.
pub open spec fn leg_counts(l: ConverterLeg, kind: Seq<char>) -> u8 {
    if kind == "COMP_PWM"@ {
        if l.complementary {
            if ones(l.channels_mask as int) == 0 {
                1
            } else {
                ones(l.channels_mask as int) as u8
            }
        } else {
            0
        }
    } else if kind == "OCP"@ {
        if l.ocp is Some {
            1
        } else {
            0
        }
    } else if kind == "ADC"@ {
        if l.adc_sense is Some {
            1
        } else {
            0
        }
    } else {
        0
    }
}

/// What the first `n` legs count for, of a kind.
pub open spec fn legs_count(v: Seq<ConverterLeg>, kind: Seq<char>, n: int) -> u8
    decreases n,
{
    if n <= 0 {
        0
    } else {
        raised(legs_count(v, kind, n - 1), leg_counts(v[n - 1], kind))
    }
}

/// How many of the first `n` requirements count for a kind, at most 255.
pub open spec fn specs_count(v: Seq<RequirementSpec>, kind: Seq<char>, n: int) -> u8
    decreases n,
{
    if n <= 0 {
        0
    } else if spec_kind(v[n - 1]) == Some(kind) {
        raised(specs_count(v, kind, n - 1), 1)
    } else {
        specs_count(v, kind, n - 1)
    }
}

/// Whether a use is the first of its peripheral.
pub open spec fn is_first_use(v: Seq<UseView>, i: int) -> bool {
    forall|j: int| 0 <= j < i ==> (#[trigger] v[j]).peripheral != v[i].peripheral
}

/// How many peripherals of a kind the first `n` uses declare.
pub open spec fn uses_count(v: Seq<UseView>, kind: Seq<char>, n: int) -> int
    decreases n,
{
    if n <= 0 {
        0
    } else {
        uses_count(v, kind, n - 1) + (if is_first_use(v, n - 1) && kind_of_class(
            class_name(v[n - 1].peripheral),
        ) == Some(kind) {
            1int
        } else {
            0
        })
    }
}

/// How much of a kind a project's active design has.
pub open spec fn design_count(p: ProjectView, kind: Seq<char>) -> u8 {
    match p.mcu {
        Mcu::G474 => specs_count(p.design.requirements, kind, p.design.requirements.len() as int),
        Mcu::C531 => legs_count(p.c531_design.legs, kind, p.c531_design.legs.len() as int),
        m => {
            let uses = family_design(p.h523_designs, m).uses;
            uses_count(uses, kind, uses.len() as int) as u8
        },
    }
}

fn count_legs(legs: &[ConverterLeg]) -> (r: Vec<(&'static str, u8)>)
    ensures
        forall|k: Seq<char>| #[trigger]
            have_count(r@, k) == legs_count(legs@, k, legs@.len() as int),
{
    let mut out: Vec<(&'static str, u8)> = Vec::new();
    let mut i: usize = 0;
    while i < legs.len()
        invariant
            i <= legs@.len(),
            forall|k: Seq<char>| #[trigger] have_count(out@, k) == legs_count(legs@, k, i as int),
        decreases legs@.len() - i,
    {
        let l: ConverterLeg = legs[i];
        let ghost had = out@;
        proof {
            reveal_strlit("COMP_PWM");
            reveal_strlit("OCP");
            reveal_strlit("ADC");
            assert("COMP_PWM"@.len() == 8 && "OCP"@.len() == 3 && "ADC"@.len() == 3);
            assert("OCP"@[0] == 'O' && "ADC"@[0] == 'A');
        }
        if l.complementary {
            let n: u8 = count_ones(l.channels_mask);
            let m: u8 = if n == 0 {
                1
            } else {
                n
            };
            bump(&mut out, "COMP_PWM", m);
        }
        if l.ocp.is_some() {
            bump(&mut out, "OCP", 1);
        }
        if l.adc_sense.is_some() {
            bump(&mut out, "ADC", 1);
        }
        proof {
            assert forall|k: Seq<char>| #[trigger] have_count(out@, k) == legs_count(
                legs@,
                k,
                i + 1,
            ) by {
                assert(have_count(had, k) == legs_count(legs@, k, i as int));
            }
        }
        i += 1;
    }
    out
}

fn count_specs(specs: &[RequirementSpec]) -> (r: Vec<(&'static str, u8)>)
    ensures
        forall|k: Seq<char>| #[trigger]
            have_count(r@, k) == specs_count(specs@, k, specs@.len() as int),
{
    let mut out: Vec<(&'static str, u8)> = Vec::new();
    let mut i: usize = 0;
    while i < specs.len()
        invariant
            i <= specs@.len(),
            forall|k: Seq<char>| #[trigger] have_count(out@, k) == specs_count(specs@, k, i as int),
        decreases specs@.len() - i,
    {
        let ghost had = out@;
        if let Some(kind) = demand::demand_kind(&specs[i]) {
            bump(&mut out, kind, 1);
        }
        proof {
            assert forall|k: Seq<char>| #[trigger] have_count(out@, k) == specs_count(
                specs@,
                k,
                i + 1,
            ) by {
                assert(have_count(had, k) == specs_count(specs@, k, i as int));
            }
        }
        i += 1;
    }
    out
}

fn first_use(d: &H523Design, i: usize) -> (r: bool)
    requires
        i < d.uses@.len(),
    ensures
        r == is_first_use(d@.uses, i as int),
{
    let ghost v = d@.uses;
    proof {
        assert(v[i as int] == d.uses@[i as int]@);
    }
    let mut j: usize = 0;
    while j < i
        invariant
            j <= i,
            i < d.uses@.len(),
            v == d@.uses,
            v[i as int] == d.uses@[i as int]@,
            forall|k: int| 0 <= k < j ==> (#[trigger] v[k]).peripheral != v[i as int].peripheral,
        decreases i - j,
    {
        proof {
            assert(v[j as int] == d.uses@[j as int]@);
        }
        if text::same(d.uses[j].peripheral.as_str(), d.uses[i].peripheral.as_str()) {
            return false;
        }
        j += 1;
    }
    true
}

fn count_uses_of(d: &H523Design, kind: &str) -> (r: u8)
    ensures
        r == uses_count(d@.uses, kind@, d@.uses.len() as int) as u8,
{
    let ghost v = d@.uses;
    let mut n: usize = 0;
    let mut i: usize = 0;
    while i < d.uses.len()
        invariant
            i <= d.uses@.len(),
            n <= i,
            v == d@.uses,
            n == uses_count(v, kind@, i as int),
        decreases d.uses@.len() - i,
    {
        proof {
            assert(v[i as int] == d.uses@[i as int]@);
        }
        let listed: bool = match select::kind_of(d.uses[i].peripheral.as_str()) {
            Some(k) => text::same(k, kind),
            None => false,
        };
        if listed && first_use(d, i) {
            n += 1;
        }
        i += 1;
    }
    #[verifier::truncate]
    let r: u8 = n as u8;
    r
}

proof fn no_uses_of(v: Seq<UseView>, kind: Seq<char>, n: int)
    requires
        kind != "SERIAL"@,
        kind != "SPI"@,
        kind != "I2C"@,
        kind != "ADC"@,
        kind != "UCPD"@,
    ensures
        uses_count(v, kind, n) == 0,
    decreases n,
{
    if n > 0 {
        no_uses_of(v, kind, n - 1);
    }
}

fn count_uses(d: &H523Design) -> (r: Vec<(&'static str, u8)>)
    ensures
        forall|k: Seq<char>| #[trigger]
            have_count(r@, k) == uses_count(d@.uses, k, d@.uses.len() as int) as u8,
{
    let ghost v = d@.uses;
    let ghost n = v.len() as int;
    let mut out: Vec<(&'static str, u8)> = Vec::new();
    out.push(("SERIAL", count_uses_of(d, "SERIAL")));
    out.push(("SPI", count_uses_of(d, "SPI")));
    out.push(("I2C", count_uses_of(d, "I2C")));
    out.push(("ADC", count_uses_of(d, "ADC")));
    out.push(("UCPD", count_uses_of(d, "UCPD")));
    proof {
        assert forall|k: Seq<char>| #[trigger] have_count(out@, k) == uses_count(v, k, n) as u8 by {
            reveal_with_fuel(demand::count_at, 7);
            if k != "SERIAL"@ && k != "SPI"@ && k != "I2C"@ && k != "ADC"@ && k != "UCPD"@ {
                no_uses_of(v, k, n);
            }
        }
    }
    out
}

/// The demands among the first `n` that ask for something.
pub open spec fn wanted_demands(v: Seq<DemandView>, n: int) -> Seq<DemandView>
    decreases n,
{
    if n <= 0 {
        Seq::empty()
    } else if v[n - 1].count > 0 {
        wanted_demands(v, n - 1).push(v[n - 1])
    } else {
        wanted_demands(v, n - 1)
    }
}

fn keep_wanted(v: &[DemandInput]) -> (r: Vec<DemandInput>)
    ensures
        demand_views(r@) == wanted_demands(demand_views(v@), v@.len() as int),
        r@.len() <= v@.len(),
{
    let ghost w = demand_views(v@);
    let mut out: Vec<DemandInput> = Vec::new();
    let mut i: usize = 0;
    proof {
        assert(demand_views(out@) =~= wanted_demands(w, 0));
    }
    while i < v.len()
        invariant
            i <= v@.len(),
            out@.len() <= i,
            w == demand_views(v@),
            demand_views(out@) == wanted_demands(w, i as int),
        decreases v@.len() - i,
    {
        proof {
            assert(w[i as int] == v@[i as int]@);
        }
        if v[i].count > 0 {
            let ghost had = out@;
            out.push(v[i].copy());
            proof {
                assert(demand_views(out@) =~= demand_views(had).push(w[i as int]));
            }
        }
        i += 1;
    }
    out
}

/// Whether counts are those of a project's active design.
pub open spec fn counts_design(have: Seq<(&'static str, u8)>, p: ProjectView) -> bool {
    forall|k: Seq<char>| #[trigger] have_count(have, k) == design_count(p, k)
}

/// After the active design is filled up to the demands, `have` being what it has.
pub open spec fn seeded(a: AppView, have: Seq<(&'static str, u8)>, t: AdcTemplates) -> AppView {
    let p = a.active;
    let demands = wanted_demands(p.demands, p.demands.len() as int);
    let n = demands.len() as int;
    match p.mcu {
        Mcu::G474 => {
            let d = fabric_seeded(p.design, demands, have, t, n);
            let b = AppView { active: ProjectView { design: d, ..p }, ..a };
            if d == p.design {
                b
            } else {
                recorded(b, SnapView::G474(p.design))
            }
        },
        Mcu::C531 => AppView {
            active: ProjectView {
                c531_design: ConverterView {
                    legs: legs_seeded(
                        p.c531_design.legs,
                        have_count(have, "COMP_PWM"@) as int,
                        demanded(demands, "COMP_PWM"@, 0),
                    ),
                    ..p.c531_design
                },
                ..p
            },
            ..a
        },
        m => {
            let d = family_design(p.h523_designs, m);
            AppView {
                active: ProjectView {
                    h523_designs: p.h523_designs.insert(
                        m,
                        pins_seeded(
                            Seeding { design: d, taken: locked_pins(d.locks) },
                            *p.package.info.raw,
                            demands,
                            have,
                            n,
                        ).design,
                    ),
                    ..p
                },
                ..a
            }
        },
    }
}

/// After the demands are made what the active design has, and the finder is shown.
pub open spec fn summarized(a: AppView) -> AppView {
    AppView {
        active: ProjectView {
            demands: a.active.demands.map_values(
                |d: DemandView| DemandView { count: design_count(a.active, d.kind), ..d },
            ),
            ..a.active
        },
        view: ViewMode::Catalog,
        ..a
    }
}

impl PeriPlannerApp {
    /// How much of each kind the active design has.
    pub fn design_demand_counts(&self) -> (r: Vec<(&'static str, u8)>)
        ensures
            counts_design(r@, self@.active),
    {
        match self.active.mcu {
            Mcu::G474 => count_specs(&self.active.design.requirements),
            Mcu::C531 => count_legs(&self.active.c531_design.legs),
            m => {
                let d: H523Design = self.active.h523_designs.get_or_empty(m);
                count_uses(&d)
            },
        }
    }

    /// Ask for what the active design has, and show the finder.
    pub fn summarize_to_demands(&mut self)
        ensures
            final(self)@ == summarized(old(self)@),
    {
        let ghost start = self@;
        let have: Vec<(&'static str, u8)> = self.design_demand_counts();
        let mut demands: Vec<DemandInput> = Vec::new();
        let mut i: usize = 0;
        while i < self.active.catalog_demands.len()
            invariant
                i <= self.active.catalog_demands@.len(),
                self@ == start,
                counts_design(have@, start.active),
                demands@.len() == i,
                forall|k: int|
                    0 <= k < i ==> (#[trigger] demands@[k])@ == (DemandView {
                        count: design_count(start.active, start.active.demands[k].kind),
                        ..start.active.demands[k]
                    }),
            decreases self.active.catalog_demands@.len() - i,
        {
            let mut d: DemandInput = self.active.catalog_demands[i].copy();
            proof {
                assert(start.active.demands[i as int] == self.active.catalog_demands@[i as int]@);
            }
            d.count = demand::count_of(&have, d.kind);
            demands.push(d);
            i += 1;
        }
        let ghost f = |d: DemandView|
            DemandView { count: design_count(start.active, d.kind), ..d };
        proof {
            assert(demand_views(demands@) =~= start.active.demands.map_values(f));
        }
        self.active.catalog_demands = demands;
        self.view = ViewMode::Catalog;
    }

    /// Fill the active design up to the demands.
    pub fn seed_from_demands(&mut self, t: &AdcTemplates)
        requires
            old(self)@.active.design.wf(),
            old(self)@.active.design.next_id + 256 * old(self)@.active.demands.len() < u32::MAX,
        ensures
            exists|have: Seq<(&'static str, u8)>|
                counts_design(have, old(self)@.active) && final(self)@
                    == #[trigger] seeded(old(self)@, have, *t),
    {
        let ghost start = self@;
        let have: Vec<(&'static str, u8)> = self.design_demand_counts();
        let demands: Vec<DemandInput> = keep_wanted(&self.active.catalog_demands);
        proof {
            assert(start.active.demands.len() == self.active.catalog_demands@.len());
            assert(demand_views(demands@).len() == demands@.len());
        }
        match self.active.mcu {
            Mcu::G474 => {
                let mut d: Design = self.active.design.copy();
                demand::seed_g474_into(&mut d, &demands, &have, t);
                self.mutate(d);
            },
            Mcu::C531 => {
                demand::seed_c531_into(&mut self.active.c531_design, &demands, &have);
            },
            m => {
                let mut d: H523Design = self.active.h523_designs.get_or_empty(m);
                demand::seed_h523_into(&mut d, self.active.package.raw(), &demands, &have);
                self.active.h523_designs.insert(m, d);
            },
        }
        proof {
            assert(self@ == seeded(start, have@, *t));
        }
    }
}

} // verus!
