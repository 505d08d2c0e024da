//! Filling a session's design up to its demands twice is doing it once, and filling it up
//! to what it has is doing nothing.

use vstd::prelude::*;

use crate::c531_design::ConverterLeg;
use crate::demand::adc_specs;
use crate::demand::complementary_leg;
use crate::demand::demanded;
use crate::demand::fabric_seeded;
use crate::demand::have_count;
use crate::demand::i2c_specs;
use crate::demand::leg_timers;
use crate::demand::legs_seeded;
use crate::demand::locked_pins;
use crate::demand::serial_specs;
use crate::demand::spec_kind;
use crate::demand::specs_for;
use crate::demand::spi_specs;
use crate::demand::ucpd_specs;
use crate::demand::with_specs;
use crate::demand::AdcTemplates;
use crate::demand::DemandView;
use crate::demand::Seeding;
use crate::demand_laws::all_met;
use crate::demand_laws::filling_pins_settles;
use crate::demand_laws::met_fabric_stays;
use crate::demand_laws::met_legs_stay;
use crate::demand_laws::met_pins_stay;
use crate::demand_laws::pins_filled;
use crate::demand_laws::seeding_only_adds;
use crate::g474::all_i2cs_seq;
use crate::g474::all_spis_seq;
use crate::g474::all_ucpds_seq;
use crate::g474::all_usarts_seq;
use crate::h523_design::UseView;
use crate::mcu::Mcu;
use crate::project::family_design;
use crate::requirements::FabricView;
use crate::requirements::RequirementSpec;
use crate::session::AppView;
use crate::session_demands::counts_design;
use crate::session_demands::design_count;
use crate::session_demands::legs_count;
use crate::session_demands::ones;
use crate::session_demands::seeded;
use crate::session_demands::specs_count;
use crate::session_demands::summarized;
use crate::session_demands::uses_count;
use crate::session_demands::wanted_demands;

verus! {

/// How many of the first `n` requirements count for a kind.
pub open spec fn specs_number(v: Seq<RequirementSpec>, kind: Seq<char>, n: int) -> int
    decreases n,
{
    if n <= 0 {
        0
    } else {
        specs_number(v, kind, n - 1) + if spec_kind(v[n - 1]) == Some(kind) {
            1int
        } else {
            0
        }
    }
}

/// All of them.
pub open spec fn all_specs_number(v: Seq<RequirementSpec>, kind: Seq<char>) -> int {
    specs_number(v, kind, v.len() as int)
}

proof fn count_is_number(v: Seq<RequirementSpec>, kind: Seq<char>, n: int)
    ensures
        0 <= specs_number(v, kind, n),
        specs_count(v, kind, n) == (if specs_number(v, kind, n) > 255 {
            255
        } else {
            specs_number(v, kind, n)
        }),
    decreases n,
{
    if n > 0 {
        count_is_number(v, kind, n - 1);
    }
}

proof fn number_of_prefix(v: Seq<RequirementSpec>, w: Seq<RequirementSpec>, kind: Seq<char>, n: int)
    requires
        0 <= n <= v.len(),
        n <= w.len(),
        forall|i: int| 0 <= i < n ==> v[i] == w[i],
    ensures
        specs_number(v, kind, n) == specs_number(w, kind, n),
    decreases n,
{
    if n > 0 {
        number_of_prefix(v, w, kind, n - 1);
    }
}

proof fn number_after_push(v: Seq<RequirementSpec>, x: RequirementSpec, kind: Seq<char>)
    ensures
        all_specs_number(v.push(x), kind) == all_specs_number(v, kind) + if spec_kind(x) == Some(
            kind,
        ) {
            1int
        } else {
            0
        },
{
    number_of_prefix(v.push(x), v, kind, v.len() as int);
}

proof fn number_after_specs(d: FabricView, specs: Seq<RequirementSpec>, kind: Seq<char>, n: int)
    requires
        0 <= n <= specs.len(),
    ensures
        all_specs_number(with_specs(d, specs, n).requirements, kind) == all_specs_number(
            d.requirements,
            kind,
        ) + specs_number(specs, kind, n),
    decreases n,
{
    if n > 0 {
        number_after_specs(d, specs, kind, n - 1);
        number_after_push(with_specs(d, specs, n - 1).requirements, specs[n - 1], kind);
    }
}

proof fn number_of_all(specs: Seq<RequirementSpec>, kind: Seq<char>, n: int)
    requires
        0 <= n <= specs.len(),
        forall|i: int| 0 <= i < n ==> spec_kind(#[trigger] specs[i]) == Some(kind),
    ensures
        specs_number(specs, kind, n) == n,
    decreases n,
{
    if n > 0 {
        number_of_all(specs, kind, n - 1);
    }
}

/// The instances of a kind that can be asked for; a kind without instances of its own is
/// only bounded by what a demand can say.
pub open spec fn instances_cap(kind: Seq<char>) -> int {
    if kind == "SERIAL"@ {
        all_usarts_seq().len() as int
    } else if kind == "SPI"@ {
        all_spis_seq().len() as int
    } else if kind == "I2C"@ {
        all_i2cs_seq().len() as int
    } else if kind == "UCPD"@ {
        all_ucpds_seq().len() as int
    } else {
        255
    }
}

/// The lesser of two numbers.
pub open spec fn lesser(a: int, b: int) -> int {
    if a < b {
        a
    } else {
        b
    }
}

/// Whether a kind is one that a G474 design is filled up with.
pub open spec fn is_filled(kind: Seq<char>) -> bool {
    kind == "SERIAL"@ || kind == "SPI"@ || kind == "I2C"@ || kind == "UCPD"@ || kind == "OCP"@
        || kind == "ADC"@
}

proof fn serial_facts(flow: bool, sync: bool, lo: int, hi: int)
    requires
        0 <= lo,
    ensures
        ({
            let v = serial_specs(flow, sync, lo, hi);
            &&& forall|i: int| 0 <= i < v.len() ==> spec_kind(#[trigger] v[i]) == Some("SERIAL"@)
            &&& lo <= hi ==> lo + v.len() >= lesser(hi, all_usarts_seq().len() as int)
            &&& lo >= lesser(hi, all_usarts_seq().len() as int) ==> v.len() == 0
        }),
    decreases hi - lo,
{
    if hi > lo {
        serial_facts(flow, sync, lo, hi - 1);
    }
}

proof fn spi_facts(nss: bool, lo: int, hi: int)
    requires
        0 <= lo,
    ensures
        ({
            let v = spi_specs(nss, lo, hi);
            &&& forall|i: int| 0 <= i < v.len() ==> spec_kind(#[trigger] v[i]) == Some("SPI"@)
            &&& lo <= hi ==> lo + v.len() >= lesser(hi, all_spis_seq().len() as int)
            &&& lo >= lesser(hi, all_spis_seq().len() as int) ==> v.len() == 0
        }),
    decreases hi - lo,
{
    if hi > lo {
        spi_facts(nss, lo, hi - 1);
    }
}

proof fn i2c_facts(smba: bool, lo: int, hi: int)
    requires
        0 <= lo,
    ensures
        ({
            let v = i2c_specs(smba, lo, hi);
            &&& forall|i: int| 0 <= i < v.len() ==> spec_kind(#[trigger] v[i]) == Some("I2C"@)
            &&& lo <= hi ==> lo + v.len() >= lesser(hi, all_i2cs_seq().len() as int)
            &&& lo >= lesser(hi, all_i2cs_seq().len() as int) ==> v.len() == 0
        }),
    decreases hi - lo,
{
    if hi > lo {
        i2c_facts(smba, lo, hi - 1);
    }
}

proof fn ucpd_facts(lo: int, hi: int)
    requires
        0 <= lo,
    ensures
        ({
            let v = ucpd_specs(lo, hi);
            &&& forall|i: int| 0 <= i < v.len() ==> spec_kind(#[trigger] v[i]) == Some("UCPD"@)
            &&& lo <= hi ==> lo + v.len() >= lesser(hi, all_ucpds_seq().len() as int)
            &&& lo >= lesser(hi, all_ucpds_seq().len() as int) ==> v.len() == 0
        }),
    decreases hi - lo,
{
    if hi > lo {
        ucpd_facts(lo, hi - 1);
    }
}

proof fn adc_facts(t: AdcTemplates, id: u32, n: int)
    requires
        0 <= n,
    ensures
        adc_specs(t, id, n).len() == n + 1,
        all_specs_number(adc_specs(t, id, n), "ADC"@) == n,
    decreases n,
{
    if n > 0 {
        adc_facts(t, id, n - 1);
        let x = RequirementSpec::AdcConversion {
            group: id,
            purpose: t.purpose,
            adc_pref: t.adc_pref,
            speed: t.speed,
        };
        number_after_push(adc_specs(t, id, n - 1), x, "ADC"@);
    } else {
        reveal_with_fuel(specs_number, 2);
    }
}

proof fn number_is_natural(v: Seq<RequirementSpec>, kind: Seq<char>, n: int)
    ensures
        0 <= specs_number(v, kind, n),
    decreases n,
{
    if n > 0 {
        number_is_natural(v, kind, n - 1);
    }
}

proof fn kinds_differ()
    ensures
        "SERIAL"@ != "SPI"@,
        "SERIAL"@ != "I2C"@,
        "SERIAL"@ != "UCPD"@,
        "SERIAL"@ != "OCP"@,
        "SERIAL"@ != "ADC"@,
        "SPI"@ != "I2C"@,
        "SPI"@ != "UCPD"@,
        "SPI"@ != "OCP"@,
        "SPI"@ != "ADC"@,
        "I2C"@ != "UCPD"@,
        "I2C"@ != "OCP"@,
        "I2C"@ != "ADC"@,
        "UCPD"@ != "OCP"@,
        "UCPD"@ != "ADC"@,
        "OCP"@ != "ADC"@,
{
    reveal_strlit("SERIAL");
    reveal_strlit("SPI");
    reveal_strlit("I2C");
    reveal_strlit("UCPD");
    reveal_strlit("OCP");
    reveal_strlit("ADC");
    assert("SERIAL"@.len() == 6 && "SPI"@.len() == 3 && "UCPD"@.len() == 4);
    assert("SPI"@[0] == 'S' && "I2C"@[0] == 'I' && "OCP"@[0] == 'O' && "ADC"@[0] == 'A');
}

/// What a demand adds counts for its kind, up to what is asked for or can be had.
proof fn added_is_enough(dem: DemandView, cur: int, t: AdcTemplates, id: u32)
    requires
        0 <= cur,
        is_filled(dem.kind),
    ensures
        cur + all_specs_number(specs_for(dem, cur, t, id), dem.kind) >= lesser(
            dem.count as int,
            instances_cap(dem.kind),
        ),
{
    let hi = dem.count as int;
    let v = specs_for(dem, cur, t, id);
    kinds_differ();
    number_is_natural(v, dem.kind, v.len() as int);
    if cur <= hi {
        if dem.kind == "SERIAL"@ {
            serial_facts(
                dem.options.contains("flow control"@),
                dem.options.contains("sync clock"@),
                cur,
                hi,
            );
            number_of_all(v, dem.kind, v.len() as int);
        } else if dem.kind == "SPI"@ {
            spi_facts(dem.options.contains("chip-select"@), cur, hi);
            number_of_all(v, dem.kind, v.len() as int);
        } else if dem.kind == "I2C"@ {
            i2c_facts(dem.options.contains("SMBus alert"@), cur, hi);
            number_of_all(v, dem.kind, v.len() as int);
        } else if dem.kind == "UCPD"@ {
            ucpd_facts(cur, hi);
            number_of_all(v, dem.kind, v.len() as int);
        } else if dem.kind == "OCP"@ {
            number_of_all(v, dem.kind, v.len() as int);
        } else if hi > cur {
            adc_facts(t, id, hi - cur);
        }
    }
}

/// Where enough is there, a demand adds nothing.
proof fn enough_adds_nothing(dem: DemandView, cur: int, t: AdcTemplates, id: u32)
    requires
        0 <= cur,
        is_filled(dem.kind) ==> cur >= lesser(dem.count as int, instances_cap(dem.kind)),
    ensures
        specs_for(dem, cur, t, id).len() == 0,
{
    let hi = dem.count as int;
    kinds_differ();
    if dem.kind == "SERIAL"@ {
        serial_facts(
            dem.options.contains("flow control"@),
            dem.options.contains("sync clock"@),
            cur,
            hi,
        );
    } else if dem.kind == "SPI"@ {
        spi_facts(dem.options.contains("chip-select"@), cur, hi);
    } else if dem.kind == "I2C"@ {
        i2c_facts(dem.options.contains("SMBus alert"@), cur, hi);
    } else if dem.kind == "UCPD"@ {
        ucpd_facts(cur, hi);
    }
}

proof fn filling_adds_enough(
    d: FabricView,
    demands: Seq<DemandView>,
    have: Seq<(&'static str, u8)>,
    t: AdcTemplates,
    n: int,
    kind: Seq<char>,
)
    requires
        0 <= n <= demands.len(),
        forall|k: Seq<char>| #[trigger]
            have_count(have, k) == specs_count(d.requirements, k, d.requirements.len() as int),
    ensures
        all_specs_number(fabric_seeded(d, demands, have, t, n).requirements, kind)
            >= all_specs_number(d.requirements, kind),
        forall|i: int|
            0 <= i < n && (#[trigger] demands[i]).kind == kind && is_filled(kind)
                ==> all_specs_number(fabric_seeded(d, demands, have, t, n).requirements, kind)
                >= lesser(demands[i].count as int, instances_cap(kind)),
    decreases n,
{
    if n > 0 {
        filling_adds_enough(d, demands, have, t, n - 1, kind);
        let before = fabric_seeded(d, demands, have, t, n - 1);
        let dem = demands[n - 1];
        let cur = have_count(have, dem.kind) as int;
        let specs = specs_for(dem, cur, t, before.next_id);
        number_after_specs(before, specs, kind, specs.len() as int);
        number_is_natural(specs, kind, specs.len() as int);
        if dem.kind == kind && is_filled(kind) {
            added_is_enough(dem, cur, t, before.next_id);
            count_is_number(d.requirements, kind, d.requirements.len() as int);
        }
    }
}

proof fn enough_stays(
    d: FabricView,
    demands: Seq<DemandView>,
    have: Seq<(&'static str, u8)>,
    t: AdcTemplates,
    n: int,
)
    requires
        0 <= n <= demands.len(),
        forall|i: int|
            0 <= i < demands.len() && is_filled((#[trigger] demands[i]).kind) ==> have_count(
                have,
                demands[i].kind,
            ) >= lesser(demands[i].count as int, instances_cap(demands[i].kind)),
    ensures
        fabric_seeded(d, demands, have, t, n) == d,
    decreases n,
{
    if n > 0 {
        enough_stays(d, demands, have, t, n - 1);
        let dem = demands[n - 1];
        enough_adds_nothing(dem, have_count(have, dem.kind) as int, t, d.next_id);
    }
}

/// Filling a G474 design up a second time changes nothing: what was added is counted, and
/// what could not be added the first time cannot the second time.
pub proof fn filling_fabric_settles(
    d: FabricView,
    demands: Seq<DemandView>,
    have: Seq<(&'static str, u8)>,
    again: Seq<(&'static str, u8)>,
    t: AdcTemplates,
    u: AdcTemplates,
)
    requires
        forall|k: Seq<char>| #[trigger]
            have_count(have, k) == specs_count(d.requirements, k, d.requirements.len() as int),
        ({
            let e = fabric_seeded(d, demands, have, t, demands.len() as int);
            forall|k: Seq<char>| #[trigger]
                have_count(again, k) == specs_count(e.requirements, k, e.requirements.len() as int)
        }),
    ensures
        ({
            let e = fabric_seeded(d, demands, have, t, demands.len() as int);
            fabric_seeded(e, demands, again, u, demands.len() as int) == e
        }),
{
    let n = demands.len() as int;
    let e = fabric_seeded(d, demands, have, t, n);
    assert forall|i: int|
        0 <= i < demands.len() && is_filled((#[trigger] demands[i]).kind) implies have_count(
        again,
        demands[i].kind,
    ) >= lesser(demands[i].count as int, instances_cap(demands[i].kind)) by {
        let kind = demands[i].kind;
        filling_adds_enough(d, demands, have, t, n, kind);
        count_is_number(e.requirements, kind, e.requirements.len() as int);
        assert(have_count(again, kind) == specs_count(
            e.requirements,
            kind,
            e.requirements.len() as int,
        ));
    }
    enough_stays(e, demands, again, u, n);
}

proof fn legs_count_prefix(v: Seq<ConverterLeg>, w: Seq<ConverterLeg>, kind: Seq<char>, n: int)
    requires
        0 <= n <= v.len(),
        n <= w.len(),
        forall|i: int| 0 <= i < n ==> v[i] == w[i],
    ensures
        legs_count(v, kind, n) == legs_count(w, kind, n),
    decreases n,
{
    if n > 0 {
        legs_count_prefix(v, w, kind, n - 1);
    }
}

proof fn legs_suffice(legs: Seq<ConverterLeg>, lo: int, hi: int)
    requires
        lo == legs_count(legs, "COMP_PWM"@, legs.len() as int),
        hi <= 255,
    ensures
        ({
            let v = legs_seeded(legs, lo, hi);
            legs_count(v, "COMP_PWM"@, v.len() as int) >= lesser(hi, leg_timers().len() as int)
        }),
    decreases hi - lo,
{
    let kind = "COMP_PWM"@;
    if hi > lo {
        legs_suffice(legs, lo, hi - 1);
        if hi - 1 < leg_timers().len() {
            let b = legs_seeded(legs, lo, hi - 1);
            let x = complementary_leg(leg_timers()[hi - 1]);
            legs_count_prefix(b.push(x), b, kind, b.len() as int);
            reveal_with_fuel(ones, 3);
        }
    }
}

proof fn enough_legs_stay(legs: Seq<ConverterLeg>, lo: int, hi: int)
    requires
        lo >= lesser(hi, leg_timers().len() as int),
    ensures
        legs_seeded(legs, lo, hi) == legs,
    decreases hi - lo,
{
    if hi > lo {
        enough_legs_stay(legs, lo, hi - 1);
    }
}

/// Filling a converter up a second time changes nothing.
pub proof fn filling_legs_settles(legs: Seq<ConverterLeg>, hi: int)
    requires
        hi <= 255,
    ensures
        ({
            let v = legs_seeded(legs, legs_count(legs, "COMP_PWM"@, legs.len() as int) as int, hi);
            legs_seeded(v, legs_count(v, "COMP_PWM"@, v.len() as int) as int, hi) == v
        }),
{
    let lo = legs_count(legs, "COMP_PWM"@, legs.len() as int) as int;
    let v = legs_seeded(legs, lo, hi);
    legs_suffice(legs, lo, hi);
    enough_legs_stay(v, legs_count(v, "COMP_PWM"@, v.len() as int) as int, hi);
}

proof fn demanded_fits(demands: Seq<DemandView>, kind: Seq<char>, k: int)
    ensures
        demanded(demands, kind, k) <= 255,
    decreases demands.len() - k,
{
    if 0 <= k < demands.len() {
        demanded_fits(demands, kind, k + 1);
    }
}

proof fn uses_count_prefix(v: Seq<UseView>, w: Seq<UseView>, kind: Seq<char>, n: int)
    requires
        0 <= n <= v.len(),
        n <= w.len(),
        forall|i: int| 0 <= i < n ==> v[i] == w[i],
    ensures
        uses_count(v, kind, n) == uses_count(w, kind, n),
    decreases n,
{
    if n > 0 {
        uses_count_prefix(v, w, kind, n - 1);
    }
}

proof fn uses_count_grows(v: Seq<UseView>, kind: Seq<char>, m: int, n: int)
    requires
        m <= n,
    ensures
        uses_count(v, kind, m) <= uses_count(v, kind, n),
        0 <= uses_count(v, kind, m),
    decreases n,
{
    if n > 0 {
        if m < n {
            uses_count_grows(v, kind, m, n - 1);
        } else {
            uses_count_grows(v, kind, m - 1, n - 1);
        }
    }
}

/// Filling the active design up to the demands twice is doing it once: the second time
/// adds nothing, and is no step. Of the families whose designs declare uses, fewer than
/// 256 uses of a kind are counted right.
pub proof fn seeding_is_idempotent(
    a: AppView,
    have: Seq<(&'static str, u8)>,
    again: Seq<(&'static str, u8)>,
    t: AdcTemplates,
    u: AdcTemplates,
)
    requires
        counts_design(have, a.active),
        counts_design(again, seeded(a, have, t).active),
        a.active.mcu == Mcu::H523 || a.active.mcu == Mcu::C5A3 ==> family_design(
            seeded(a, have, t).active.h523_designs,
            a.active.mcu,
        ).uses.len() < 256,
    ensures
        seeded(seeded(a, have, t), again, u) == seeded(a, have, t),
{
    let p = a.active;
    let b = seeded(a, have, t);
    let demands = wanted_demands(p.demands, p.demands.len() as int);
    match p.mcu {
        Mcu::G474 => {
            filling_fabric_settles(p.design, demands, have, again, t, u);
        },
        Mcu::C531 => {
            let kind = "COMP_PWM"@;
            assert(have_count(have, kind) == design_count(p, kind));
            assert(have_count(again, kind) == design_count(
                b.active,
                kind,
            ));
            demanded_fits(demands, kind, 0);
            filling_legs_settles(p.c531_design.legs, demanded(demands, kind, 0));
        },
        m => {
            let d = family_design(p.h523_designs, m);
            let raw = *p.package.info.raw;
            let e = pins_filled(d, raw, demands, have);
            assert(family_design(b.active.h523_designs, m) == e);
            seeding_only_adds(d, raw, demands, have);
            assert forall|i: int| 0 <= i < demands.len() implies have_count(
                have,
                (#[trigger] demands[i]).kind,
            ) <= have_count(again, demands[i].kind) by {
                let k = demands[i].kind;
                let n = d.uses.len() as int;
                assert forall|j: int| 0 <= j < n implies d.uses[j] == e.uses[j] by {
                    assert(e.uses.take(n)[j] == e.uses[j]);
                }
                uses_count_prefix(d.uses, e.uses, k, n);
                uses_count_grows(e.uses, k, n, e.uses.len() as int);
                uses_bound(e.uses, k, e.uses.len() as int);
                assert(have_count(have, k) == design_count(p, k));
                assert(have_count(again, k) == design_count(b.active, k));
            }
            filling_pins_settles(d, raw, demands, have, again);
            assert(b.active.h523_designs.insert(m, e) =~= b.active.h523_designs);
        },
    }
}

proof fn uses_bound(v: Seq<UseView>, kind: Seq<char>, n: int)
    requires
        0 <= n,
    ensures
        0 <= uses_count(v, kind, n) <= n,
    decreases n,
{
    if n > 0 {
        uses_bound(v, kind, n - 1);
    }
}

proof fn wanted_come_from(v: Seq<DemandView>, n: int, i: int) -> (j: int)
    requires
        0 <= n <= v.len(),
        0 <= i < wanted_demands(v, n).len(),
    ensures
        0 <= j < n,
        v[j] == wanted_demands(v, n)[i],
    decreases n,
{
    if v[n - 1].count > 0 && i == wanted_demands(v, n).len() - 1 {
        n - 1
    } else {
        wanted_come_from(v, n - 1, i)
    }
}

proof fn demanded_is_counted(demands: Seq<DemandView>, kind: Seq<char>, k: int, most: int)
    requires
        0 <= most,
        forall|i: int|
            0 <= i < demands.len() && (#[trigger] demands[i]).kind == kind ==> demands[i].count
                <= most,
    ensures
        demanded(demands, kind, k) <= most,
    decreases demands.len() - k,
{
    if 0 <= k < demands.len() {
        demanded_is_counted(demands, kind, k + 1, most);
    }
}

/// Asking for what the active design has, and filling it up to that, leaves every design
/// as it is.
pub proof fn seeding_what_is_there_adds_nothing(
    a: AppView,
    have: Seq<(&'static str, u8)>,
    t: AdcTemplates,
)
    requires
        counts_design(have, a.active),
    ensures
        ({
            let b = seeded(summarized(a), have, t).active;
            &&& b.design == a.active.design
            &&& b.c531_design == a.active.c531_design
            &&& forall|m: Mcu| #[trigger]
                family_design(b.h523_designs, m) == family_design(a.active.h523_designs, m)
        }),
{
    let p = summarized(a).active;
    let demands = wanted_demands(p.demands, p.demands.len() as int);
    let b = seeded(summarized(a), have, t).active;
    assert forall|i: int| 0 <= i < demands.len() implies have_count(
        have,
        (#[trigger] demands[i]).kind,
    ) >= demands[i].count by {
        let j = wanted_come_from(p.demands, p.demands.len() as int, i);
        assert(p.demands[j].count == design_count(a.active, a.active.demands[j].kind));
        assert(have_count(have, demands[i].kind) == design_count(a.active, demands[i].kind));
    }
    assert(all_met(demands, have));
    match p.mcu {
        Mcu::G474 => {
            met_fabric_stays(p.design, demands, have, t, demands.len() as int);
        },
        Mcu::C531 => {
            let kind = "COMP_PWM"@;
            let cur = have_count(have, kind) as int;
            demanded_is_counted(demands, kind, 0, cur);
            met_legs_stay(p.c531_design.legs, cur, demanded(demands, kind, 0));
        },
        m => {
            let d = family_design(p.h523_designs, m);
            met_pins_stay(
                Seeding { design: d, taken: locked_pins(d.locks) },
                *p.package.info.raw,
                demands,
                have,
                demands.len() as int,
            );
            assert(b.h523_designs == a.active.h523_designs.insert(m, d));
        },
    }
}

} // verus!
