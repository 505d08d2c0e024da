//! Demands: how many of each kind of peripheral a user asks for, and designs that are
//! filled up to them.

use vstd::prelude::*;

use crate::c531_design::C531Design;
use crate::c531_design::ConverterLeg;
use crate::c531_design::ConverterView;
use crate::g474;
use crate::g474::all_i2cs_seq;
use crate::g474::all_spis_seq;
use crate::g474::all_ucpds_seq;
use crate::g474::all_usarts_seq;
use crate::g474::AdcInstance;
use crate::g474::I2cId;
use crate::g474::SpiId;
use crate::g474::TimId;
use crate::g474::UcpdId;
use crate::g474::UsartId;
use crate::h523_design::locked;
use crate::h523_design::pin_of;
use crate::h523_design::with_use;
use crate::h523_design::DesignView;
use crate::h523_design::H523Design;
use crate::h523_design::LockView;
use crate::mcu_pinout::OwnedSignal;
use crate::mcu_pinout::PinId;
use crate::mcu_pinout::PinSet;
use crate::mcu_raw::RawMcuData;
use crate::mcu_raw::RawPeripheral;
use crate::pinout;
use crate::pinout::pins_carrying;
use crate::requirements::with_requirement;
use crate::requirements::Design;
use crate::requirements::FabricView;
use crate::requirements::MonitorPurpose;
use crate::requirements::RequirementSpec;
use crate::requirements::SequencerKind;
use crate::requirements::SpeedPref;
use crate::requirements::TriggerSource;
use crate::resources::without_repeats;
use crate::select;
use crate::select::classes_of_kind;
use crate::text;
use crate::text::all_digits;
use crate::text::has_prefix;
use crate::text::str_views;
use crate::text::views;
use crate::texts;
use crate::texts::copy_text;
use crate::texts::sorted_texts;

verus! {

/// What is asked for of one kind.
#[derive(Clone, Debug, PartialEq, Eq)]
pub struct DemandInput {
    pub kind: &'static str,
    pub count: u8,
    pub with_dma: bool,
    pub options: Vec<&'static str>,
}

/// A demand as a mathematical value.
pub ghost struct DemandView {
    pub kind: Seq<char>,
    pub count: u8,
    pub with_dma: bool,
    pub options: Seq<Seq<char>>,
}

impl View for DemandInput {
    type V = DemandView;

    open spec fn view(&self) -> DemandView {
        DemandView {
            kind: self.kind@,
            count: self.count,
            with_dma: self.with_dma,
            options: str_views(self.options@),
        }
    }
}

/// The values of demands.
pub open spec fn demand_views(v: Seq<DemandInput>) -> Seq<DemandView> {
    v.map_values(|d: DemandInput| d@)
}

/// The options among the first `n` that are not the given one.
pub open spec fn options_but(v: Seq<Seq<char>>, key: Seq<char>, n: int) -> Seq<Seq<char>>
    decreases n,
{
    if n <= 0 {
        Seq::empty()
    } else if v[n - 1] == key {
        options_but(v, key, n - 1)
    } else {
        options_but(v, key, n - 1).push(v[n - 1])
    }
}

/// Options with one chosen or dropped.
pub open spec fn with_option(v: Seq<Seq<char>>, key: Seq<char>, on: bool) -> Seq<Seq<char>> {
    if on && !v.contains(key) {
        v.push(key)
    } else if !on && v.contains(key) {
        options_but(v, key, v.len() as int)
    } else {
        v
    }
}

impl DemandInput {
    /// Whether an option is chosen.
    pub fn has_option(&self, key: &str) -> (r: bool)
        ensures
            r == self@.options.contains(key@),
    {
        let mut i: usize = 0;
        while i < self.options.len()
            invariant
                i <= self.options@.len(),
                forall|k: int| 0 <= k < i ==> self@.options[k] != key@,
            decreases self.options@.len() - i,
        {
            assert(self@.options[i as int] == self.options@[i as int]@);
            if text::same(self.options[i], key) {
                return true;
            }
            i += 1;
        }
        false
    }

    /// Choose an option or drop it.
    pub fn set_option(&mut self, key: &'static str, on: bool)
        ensures
            final(self)@ == (DemandView {
                options: with_option(old(self)@.options, key@, on),
                ..old(self)@
            }),
    {
        let ghost had = self@;
        let listed: bool = self.has_option(key);
        if on && !listed {
            self.options.push(key);
            proof {
                assert(self@.options =~= had.options.push(key@));
            }
        } else if !on && listed {
            let mut kept: Vec<&'static str> = Vec::new();
            let mut i: usize = 0;
            proof {
                assert(str_views(kept@) =~= options_but(had.options, key@, 0));
            }
            while i < self.options.len()
                invariant
                    i <= self.options@.len(),
                    had == self@,
                    str_views(kept@) == options_but(had.options, key@, i as int),
                decreases self.options@.len() - i,
            {
                proof {
                    assert(had.options[i as int] == self.options@[i as int]@);
                }
                if !text::same(self.options[i], key) {
                    let ghost k = kept@;
                    kept.push(self.options[i]);
                    proof {
                        assert(str_views(kept@) =~= str_views(k).push(had.options[i as int]));
                    }
                }
                i += 1;
            }
            self.options = kept;
        }
    }

    /// The same demand again.
    pub fn copy(&self) -> (r: DemandInput)
        ensures
            r@ == self@,
    {
        let mut options: Vec<&'static str> = Vec::new();
        let mut i: usize = 0;
        while i < self.options.len()
            invariant
                i <= self.options@.len(),
                options@ =~= self.options@.take(i as int),
            decreases self.options@.len() - i,
        {
            options.push(self.options[i]);
            i += 1;
        }
        proof {
            assert(options@ =~= self.options@);
        }
        DemandInput { kind: self.kind, count: self.count, with_dma: self.with_dma, options }
    }
}

/// The kinds that can be asked for.
pub open spec fn demand_kinds_seq() -> Seq<Seq<char>> {
    seq!["SERIAL"@, "SPI"@, "I2C"@, "ADC"@, "UCPD"@, "OCP"@, "COMP_PWM"@]
}

fn no_demand(kind: &'static str) -> (r: DemandInput)
    ensures
        r@ == (DemandView { kind: kind@, count: 0, with_dma: false, options: Seq::empty() }),
{
    let r: DemandInput = DemandInput { kind, count: 0, with_dma: false, options: Vec::new() };
    proof {
        assert(r@.options =~= Seq::<Seq<char>>::empty());
    }
    r
}

/// None of each kind.
pub fn default_demands() -> (r: Vec<DemandInput>)
    ensures
        demand_views(r@) == demand_kinds_seq().map_values(
            |k: Seq<char>|
                DemandView { kind: k, count: 0, with_dma: false, options: Seq::empty() },
        ),
{
    let r: Vec<DemandInput> = vec![
        no_demand("SERIAL"),
        no_demand("SPI"),
        no_demand("I2C"),
        no_demand("ADC"),
        no_demand("UCPD"),
        no_demand("OCP"),
        no_demand("COMP_PWM"),
    ];
    proof {
        assert(demand_views(r@) =~= demand_kinds_seq().map_values(
            |k: Seq<char>|
                DemandView { kind: k, count: 0, with_dma: false, options: Seq::empty() },
        ));
    }
    r
}

/// How many of a kind there are, from place `k` on of a list of counts.
pub open spec fn count_at(have: Seq<(&'static str, u8)>, kind: Seq<char>, k: int) -> u8
    decreases have.len() - k,
{
    if k < 0 || k >= have.len() {
        0
    } else if have[k].0@ == kind {
        have[k].1
    } else {
        count_at(have, kind, k + 1)
    }
}

/// How many of a kind a list of counts says there are.
pub open spec fn have_count(have: Seq<(&'static str, u8)>, kind: Seq<char>) -> u8 {
    count_at(have, kind, 0)
}

/// How many of a kind a list of counts says there are.
pub fn count_of(have: &[(&'static str, u8)], kind: &str) -> (r: u8)
    ensures
        r == have_count(have@, kind@),
{
    let mut i: usize = 0;
    while i < have.len()
        invariant
            i <= have@.len(),
            have_count(have@, kind@) == count_at(have@, kind@, i as int),
        decreases have@.len() - i,
    {
        if text::same(have[i].0, kind) {
            return have[i].1;
        }
        i += 1;
    }
    0
}

/// A count with more of a kind, at most 255.
pub open spec fn raised(n: u8, by: u8) -> u8 {
    if n + by > 255 {
        255
    } else {
        (n + by) as u8
    }
}

proof fn count_after_set(have: Seq<(&'static str, u8)>, at: int, item: (&'static str, u8), kind: Seq<char>, k: int)
    requires
        0 <= k <= at < have.len(),
        have[at].0@ == item.0@,
        forall|j: int| k <= j < at ==> (#[trigger] have[j]).0@ != item.0@,
    ensures
        count_at(have.update(at, item), kind, k) == (if kind == item.0@ {
            item.1
        } else {
            count_at(have, kind, k)
        }),
    decreases at - k,
{
    let v = have.update(at, item);
    if k < at {
        assert(v[k] == have[k]);
        count_after_set(have, at, item, kind, k + 1);
    } else {
        same_tail(have, v, kind, at + 1);
    }
}

proof fn same_tail(a: Seq<(&'static str, u8)>, b: Seq<(&'static str, u8)>, kind: Seq<char>, k: int)
    requires
        0 <= k,
        a.len() == b.len(),
        forall|j: int| k <= j < a.len() ==> a[j] == b[j],
    ensures
        count_at(a, kind, k) == count_at(b, kind, k),
    decreases a.len() - k,
{
    if k < a.len() {
        same_tail(a, b, kind, k + 1);
    }
}

proof fn count_after_push(have: Seq<(&'static str, u8)>, item: (&'static str, u8), kind: Seq<char>, k: int)
    requires
        0 <= k <= have.len(),
        forall|j: int| k <= j < have.len() ==> (#[trigger] have[j]).0@ != item.0@,
    ensures
        count_at(have.push(item), kind, k) == (if kind == item.0@ {
            item.1
        } else {
            count_at(have, kind, k)
        }),
        count_at(have, item.0@, k) == 0,
    decreases have.len() - k,
{
    let v = have.push(item);
    if k < have.len() {
        assert(v[k] == have[k]);
        count_after_push(have, item, kind, k + 1);
    } else {
        assert(v[k] == item);
        assert(count_at(v, kind, k + 1) == 0);
    }
}

/// Count more of a kind.
pub fn bump(have: &mut Vec<(&'static str, u8)>, kind: &'static str, by: u8)
    ensures
        forall|k: Seq<char>|
            #[trigger] have_count(final(have)@, k) == (if k == kind@ {
                raised(have_count(old(have)@, k), by)
            } else {
                have_count(old(have)@, k)
            }),
{
    let ghost v = have@;
    let mut i: usize = 0;
    while i < have.len()
        invariant
            i <= have@.len(),
            have@ == v,
            v == old(have)@,
            forall|j: int| 0 <= j < i ==> (#[trigger] v[j]).0@ != kind@,
        decreases have@.len() - i,
    {
        if text::same(have[i].0, kind) {
            let n: u8 = have[i].1;
            let sum: u8 = if n > 255 - by {
                255
            } else {
                n + by
            };
            have.set(i, (kind, sum));
            proof {
                count_after_set(v, i as int, v[i as int], kind@, 0);
                assert(v.update(i as int, v[i as int]) =~= v);
                assert forall|k: Seq<char>| #[trigger] have_count(have@, k) == (if k == kind@ {
                    raised(have_count(v, k), by)
                } else {
                    have_count(v, k)
                }) by {
                    count_after_set(v, i as int, (kind, sum), k, 0);
                }
            }
            return;
        }
        i += 1;
    }
    have.push((kind, by));
    proof {
        assert forall|k: Seq<char>| #[trigger] have_count(have@, k) == (if k == kind@ {
            raised(have_count(v, k), by)
        } else {
            have_count(v, k)
        }) by {
            count_after_push(v, (kind, by), k, 0);
        }
    }
}

/// What a converter sequencer and its conversions start as.
#[derive(Copy, Clone, Debug)]
pub struct AdcTemplates {
    pub adc: AdcInstance,
    pub kind: SequencerKind,
    pub trigger: TriggerSource,
    pub purpose: MonitorPurpose,
    pub adc_pref: Option<AdcInstance>,
    pub speed: SpeedPref,
}

/// The kind that a requirement counts for. A sub-timer is complementary PWM, and what
/// counts for an ADC is its conversions.
pub open spec fn spec_kind(spec: RequirementSpec) -> Option<Seq<char>> {
    match spec {
        RequirementSpec::PcmPhase { .. } => Some("COMP_PWM"@),
        RequirementSpec::UseHrtimSub { .. } => Some("COMP_PWM"@),
        RequirementSpec::ShortCircuitFault => Some("OCP"@),
        RequirementSpec::AdcConversion { .. } => Some("ADC"@),
        RequirementSpec::UseUsart { .. } => Some("SERIAL"@),
        RequirementSpec::UseUart { .. } => Some("SERIAL"@),
        RequirementSpec::UseLpuart { .. } => Some("SERIAL"@),
        RequirementSpec::UseSpi { .. } => Some("SPI"@),
        RequirementSpec::UseI2c { .. } => Some("I2C"@),
        RequirementSpec::UseUcpd { .. } => Some("UCPD"@),
        _ => None,
    }
}

/// The kind that a requirement counts for.
pub fn demand_kind(spec: &RequirementSpec) -> (r: Option<&'static str>)
    ensures
        r is Some <==> spec_kind(*spec) is Some,
        r matches Some(k) ==> spec_kind(*spec) == Some(k@),
{
    match spec {
        RequirementSpec::PcmPhase { .. } => Some("COMP_PWM"),
        RequirementSpec::UseHrtimSub { .. } => Some("COMP_PWM"),
        RequirementSpec::ShortCircuitFault => Some("OCP"),
        RequirementSpec::AdcConversion { .. } => Some("ADC"),
        RequirementSpec::UseUsart { .. } => Some("SERIAL"),
        RequirementSpec::UseUart { .. } => Some("SERIAL"),
        RequirementSpec::UseLpuart { .. } => Some("SERIAL"),
        RequirementSpec::UseSpi { .. } => Some("SPI"),
        RequirementSpec::UseI2c { .. } => Some("I2C"),
        RequirementSpec::UseUcpd { .. } => Some("UCPD"),
        _ => None,
    }
}

/// A design with more requirements, the first `n` of a list.
pub open spec fn with_specs(d: FabricView, specs: Seq<RequirementSpec>, n: int) -> FabricView
    decreases n,
{
    if n <= 0 {
        d
    } else {
        with_requirement(with_specs(d, specs, n - 1), specs[n - 1])
    }
}

/// Serial lines from the `lo`th to before the `hi`th.
pub open spec fn serial_specs(flow: bool, sync: bool, lo: int, hi: int) -> Seq<RequirementSpec>
    decreases hi - lo,
{
    if hi <= lo {
        Seq::empty()
    } else if hi - 1 < all_usarts_seq().len() {
        serial_specs(flow, sync, lo, hi - 1).push(
            RequirementSpec::UseUsart {
                instance: all_usarts_seq()[hi - 1],
                flow_control: flow,
                synchronous: sync,
            },
        )
    } else {
        serial_specs(flow, sync, lo, hi - 1)
    }
}

/// SPI buses from the `lo`th to before the `hi`th.
pub open spec fn spi_specs(nss: bool, lo: int, hi: int) -> Seq<RequirementSpec>
    decreases hi - lo,
{
    if hi <= lo {
        Seq::empty()
    } else if hi - 1 < all_spis_seq().len() {
        spi_specs(nss, lo, hi - 1).push(
            RequirementSpec::UseSpi {
                instance: all_spis_seq()[hi - 1],
                needs_miso: true,
                needs_nss: nss,
            },
        )
    } else {
        spi_specs(nss, lo, hi - 1)
    }
}

/// I2C buses from the `lo`th to before the `hi`th.
pub open spec fn i2c_specs(smba: bool, lo: int, hi: int) -> Seq<RequirementSpec>
    decreases hi - lo,
{
    if hi <= lo {
        Seq::empty()
    } else if hi - 1 < all_i2cs_seq().len() {
        i2c_specs(smba, lo, hi - 1).push(
            RequirementSpec::UseI2c { instance: all_i2cs_seq()[hi - 1], needs_smba: smba },
        )
    } else {
        i2c_specs(smba, lo, hi - 1)
    }
}

/// UCPD ports from the `lo`th to before the `hi`th.
pub open spec fn ucpd_specs(lo: int, hi: int) -> Seq<RequirementSpec>
    decreases hi - lo,
{
    if hi <= lo {
        Seq::empty()
    } else if hi - 1 < all_ucpds_seq().len() {
        ucpd_specs(lo, hi - 1).push(
            RequirementSpec::UseUcpd { instance: all_ucpds_seq()[hi - 1] },
        )
    } else {
        ucpd_specs(lo, hi - 1)
    }
}

/// A sequencer and its conversions; `id` is the sequencer's.
pub open spec fn adc_specs(t: AdcTemplates, id: u32, n: int) -> Seq<RequirementSpec>
    decreases n,
{
    if n <= 0 {
        seq![RequirementSpec::AdcSequencer { adc: t.adc, kind: t.kind, trigger: t.trigger }]
    } else {
        adc_specs(t, id, n - 1).push(
            RequirementSpec::AdcConversion {
                group: id,
                purpose: t.purpose,
                adc_pref: t.adc_pref,
                speed: t.speed,
            },
        )
    }
}

/// What a demand adds to a design that has `cur` of the kind; `id` is the next id.
pub open spec fn specs_for(dem: DemandView, cur: int, t: AdcTemplates, id: u32) -> Seq<
    RequirementSpec,
> {
    let hi = dem.count as int;
    if dem.kind == "SERIAL"@ {
        serial_specs(
            dem.options.contains("flow control"@),
            dem.options.contains("sync clock"@),
            cur,
            hi,
        )
    } else if dem.kind == "SPI"@ {
        spi_specs(dem.options.contains("chip-select"@), cur, hi)
    } else if dem.kind == "I2C"@ {
        i2c_specs(dem.options.contains("SMBus alert"@), cur, hi)
    } else if dem.kind == "UCPD"@ {
        ucpd_specs(cur, hi)
    } else if dem.kind == "OCP"@ && hi > cur {
        Seq::new((hi - cur) as nat, |i: int| RequirementSpec::ShortCircuitFault)
    } else if dem.kind == "ADC"@ && hi > cur {
        adc_specs(t, id, hi - cur)
    } else {
        Seq::empty()
    }
}

/// A design filled up to the first `n` demands.
pub open spec fn fabric_seeded(
    d: FabricView,
    demands: Seq<DemandView>,
    have: Seq<(&'static str, u8)>,
    t: AdcTemplates,
    n: int,
) -> FabricView
    decreases n,
{
    if n <= 0 {
        d
    } else {
        let before = fabric_seeded(d, demands, have, t, n - 1);
        let specs = specs_for(
            demands[n - 1],
            have_count(have, demands[n - 1].kind) as int,
            t,
            before.next_id,
        );
        with_specs(before, specs, specs.len() as int)
    }
}

fn serial_list(dem: &DemandInput, cur: u8) -> (r: Vec<RequirementSpec>)
    ensures
        r@ == serial_specs(
            dem@.options.contains("flow control"@),
            dem@.options.contains("sync clock"@),
            cur as int,
            dem.count as int,
        ),
        r@.len() <= 255,
{
    let all: Vec<UsartId> = g474::all_usarts();
    let flow: bool = dem.has_option("flow control");
    let sync: bool = dem.has_option("sync clock");
    let mut out: Vec<RequirementSpec> = Vec::new();
    let mut j: u8 = cur;
    while j < dem.count
        invariant
            cur <= j,
            j <= dem.count || j == cur,
            all@ == all_usarts_seq(),
            out@ == serial_specs(flow, sync, cur as int, j as int),
            out@.len() <= j - cur,
        decreases dem.count - j,
    {
        if (j as usize) < all.len() {
            out.push(
                RequirementSpec::UseUsart {
                    instance: all[j as usize],
                    flow_control: flow,
                    synchronous: sync,
                },
            );
        }
        j = j + 1;
    }
    out
}

fn spi_list(dem: &DemandInput, cur: u8) -> (r: Vec<RequirementSpec>)
    ensures
        r@ == spi_specs(dem@.options.contains("chip-select"@), cur as int, dem.count as int),
        r@.len() <= 255,
{
    let all: Vec<SpiId> = g474::all_spis();
    let nss: bool = dem.has_option("chip-select");
    let mut out: Vec<RequirementSpec> = Vec::new();
    let mut j: u8 = cur;
    while j < dem.count
        invariant
            cur <= j,
            j <= dem.count || j == cur,
            all@ == all_spis_seq(),
            out@ == spi_specs(nss, cur as int, j as int),
            out@.len() <= j - cur,
        decreases dem.count - j,
    {
        if (j as usize) < all.len() {
            out.push(
                RequirementSpec::UseSpi {
                    instance: all[j as usize],
                    needs_miso: true,
                    needs_nss: nss,
                },
            );
        }
        j = j + 1;
    }
    out
}

fn i2c_list(dem: &DemandInput, cur: u8) -> (r: Vec<RequirementSpec>)
    ensures
        r@ == i2c_specs(dem@.options.contains("SMBus alert"@), cur as int, dem.count as int),
        r@.len() <= 255,
{
    let all: Vec<I2cId> = g474::all_i2cs();
    let smba: bool = dem.has_option("SMBus alert");
    let mut out: Vec<RequirementSpec> = Vec::new();
    let mut j: u8 = cur;
    while j < dem.count
        invariant
            cur <= j,
            j <= dem.count || j == cur,
            all@ == all_i2cs_seq(),
            out@ == i2c_specs(smba, cur as int, j as int),
            out@.len() <= j - cur,
        decreases dem.count - j,
    {
        if (j as usize) < all.len() {
            out.push(RequirementSpec::UseI2c { instance: all[j as usize], needs_smba: smba });
        }
        j = j + 1;
    }
    out
}

fn ucpd_list(dem: &DemandInput, cur: u8) -> (r: Vec<RequirementSpec>)
    ensures
        r@ == ucpd_specs(cur as int, dem.count as int),
        r@.len() <= 255,
{
    let all: Vec<UcpdId> = g474::all_ucpds();
    let mut out: Vec<RequirementSpec> = Vec::new();
    let mut j: u8 = cur;
    while j < dem.count
        invariant
            cur <= j,
            j <= dem.count || j == cur,
            all@ == all_ucpds_seq(),
            out@ == ucpd_specs(cur as int, j as int),
            out@.len() <= j - cur,
        decreases dem.count - j,
    {
        if (j as usize) < all.len() {
            out.push(RequirementSpec::UseUcpd { instance: all[j as usize] });
        }
        j = j + 1;
    }
    out
}

fn ocp_list(n: u8) -> (r: Vec<RequirementSpec>)
    ensures
        r@ == Seq::new(n as nat, |i: int| RequirementSpec::ShortCircuitFault),
{
    let mut out: Vec<RequirementSpec> = Vec::new();
    let mut j: u8 = 0;
    while j < n
        invariant
            j <= n,
            out@ =~= Seq::new(j as nat, |i: int| RequirementSpec::ShortCircuitFault),
        decreases n - j,
    {
        out.push(RequirementSpec::ShortCircuitFault);
        j = j + 1;
    }
    out
}

fn adc_list(t: &AdcTemplates, id: u32, n: u8) -> (r: Vec<RequirementSpec>)
    ensures
        r@ == adc_specs(*t, id, n as int),
        r@.len() == n + 1,
{
    let mut out: Vec<RequirementSpec> = Vec::new();
    out.push(RequirementSpec::AdcSequencer { adc: t.adc, kind: t.kind, trigger: t.trigger });
    proof {
        assert(out@ =~= adc_specs(*t, id, 0));
    }
    let mut j: u8 = 0;
    while j < n
        invariant
            j <= n,
            out@ == adc_specs(*t, id, j as int),
            out@.len() == j + 1,
        decreases n - j,
    {
        out.push(
            RequirementSpec::AdcConversion {
                group: id,
                purpose: t.purpose,
                adc_pref: t.adc_pref,
                speed: t.speed,
            },
        );
        j = j + 1;
    }
    out
}

fn list_for(dem: &DemandInput, cur: u8, t: &AdcTemplates, id: u32) -> (r: Vec<RequirementSpec>)
    ensures
        r@ == specs_for(dem@, cur as int, *t, id),
        r@.len() <= 256,
{
    let kind: &str = dem.kind;
    if text::same(kind, "SERIAL") {
        serial_list(dem, cur)
    } else if text::same(kind, "SPI") {
        spi_list(dem, cur)
    } else if text::same(kind, "I2C") {
        i2c_list(dem, cur)
    } else if text::same(kind, "UCPD") {
        ucpd_list(dem, cur)
    } else if text::same(kind, "OCP") && dem.count > cur {
        ocp_list(dem.count - cur)
    } else if text::same(kind, "ADC") && dem.count > cur {
        adc_list(t, id, dem.count - cur)
    } else {
        Vec::new()
    }
}

/// Fill a G474 design up to the demands: communication instances in order, a fault for
/// each protection, and a sequencer with the conversions that are missing. What the
/// design has already, `have` says.
pub fn seed_g474_into(
    d: &mut Design,
    demands: &[DemandInput],
    have: &[(&'static str, u8)],
    t: &AdcTemplates,
)
    requires
        old(d)@.wf(),
        old(d)@.next_id + 256 * demands@.len() < u32::MAX,
    ensures
        final(d)@ == fabric_seeded(
            old(d)@,
            demand_views(demands@),
            have@,
            *t,
            demands@.len() as int,
        ),
        final(d)@.wf(),
{
    let ghost start = d@;
    let ghost v = demand_views(demands@);
    let mut i: usize = 0;
    while i < demands.len()
        invariant
            i <= demands@.len(),
            v == demand_views(demands@),
            d@.wf(),
            d@ == fabric_seeded(start, v, have@, *t, i as int),
            d@.next_id <= start.next_id + 256 * i,
            start.next_id + 256 * demands@.len() < u32::MAX,
        decreases demands@.len() - i,
    {
        proof {
            assert(v[i as int] == demands@[i as int]@);
        }
        let cur: u8 = count_of(have, demands[i].kind);
        let specs: Vec<RequirementSpec> = list_for(&demands[i], cur, t, d.next_id);
        let ghost before = d@;
        let mut j: usize = 0;
        while j < specs.len()
            invariant
                j <= specs@.len(),
                specs@.len() <= 256,
                d@.wf(),
                d@ == with_specs(before, specs@, j as int),
                d@.next_id == before.next_id + j,
                before.next_id + 256 < u32::MAX,
            decreases specs@.len() - j,
        {
            d.add(specs[j]);
            j += 1;
        }
        i += 1;
    }
}

/// The timers that drive complementary legs, in order.
pub open spec fn leg_timers() -> Seq<TimId> {
    seq![TimId::Tim1, TimId::Tim8]
}

/// A complementary leg with dead time.
pub open spec fn complementary_leg(tim: TimId) -> ConverterLeg {
    ConverterLeg {
        tim,
        channels_mask: 1,
        complementary: true,
        dead_time: true,
        bkin: false,
        ocp: None,
        adc_sense: None,
    }
}

/// The demand for a kind, the first from place `k` on: how many.
pub open spec fn demanded(demands: Seq<DemandView>, kind: Seq<char>, k: int) -> int
    decreases demands.len() - k,
{
    if k < 0 || k >= demands.len() {
        0
    } else if demands[k].kind == kind {
        demands[k].count as int
    } else {
        demanded(demands, kind, k + 1)
    }
}

/// Legs with the timers from the `lo`th to before the `hi`th added.
pub open spec fn legs_seeded(legs: Seq<ConverterLeg>, lo: int, hi: int) -> Seq<ConverterLeg>
    decreases hi - lo,
{
    if hi <= lo {
        legs
    } else if hi - 1 < leg_timers().len() {
        legs_seeded(legs, lo, hi - 1).push(complementary_leg(leg_timers()[hi - 1]))
    } else {
        legs_seeded(legs, lo, hi - 1)
    }
}

/// Fill a converter up to the demand for complementary legs, on the timers that have
/// them.
pub fn seed_c531_into(design: &mut C531Design, demands: &[DemandInput], have: &[(&'static str, u8)])
    ensures
        final(design)@ == (ConverterView {
            legs: legs_seeded(
                old(design)@.legs,
                have_count(have@, "COMP_PWM"@) as int,
                demanded(demand_views(demands@), "COMP_PWM"@, 0),
            ),
            ..old(design)@
        }),
{
    let ghost start = design@;
    let ghost v = demand_views(demands@);
    let mut count: u8 = 0;
    let mut i: usize = 0;
    let mut found: bool = false;
    while i < demands.len() && !found
        invariant
            i <= demands@.len(),
            v == demand_views(demands@),
            !found ==> count == 0 && demanded(v, "COMP_PWM"@, 0) == demanded(
                v,
                "COMP_PWM"@,
                i as int,
            ),
            found ==> count == demanded(v, "COMP_PWM"@, 0),
        decreases demands@.len() - i + (if found {
            0int
        } else {
            1
        }),
    {
        proof {
            assert(v[i as int] == demands@[i as int]@);
        }
        if text::same(demands[i].kind, "COMP_PWM") {
            count = demands[i].count;
            found = true;
        } else {
            i += 1;
        }
    }
    let cur: u8 = count_of(have, "COMP_PWM");
    let mut j: u8 = cur;
    while j < count
        invariant
            cur <= j,
            j <= count || j == cur,
            design@ == (ConverterView {
                legs: legs_seeded(start.legs, cur as int, j as int),
                ..start
            }),
        decreases count - j,
    {
        if j < 2 {
            let tim: TimId = if j == 0 {
                TimId::Tim1
            } else {
                TimId::Tim8
            };
            let mut leg: ConverterLeg = ConverterLeg::pwm(tim);
            leg.complementary = true;
            leg.dead_time = true;
            proof {
                assert(leg == complementary_leg(leg_timers()[j as int]));
            }
            design.add_leg(leg);
        }
        j = j + 1;
    }
}

/// The roles of a peripheral of a kind, with the options that are chosen; none for kinds
/// whose signals have no pin to choose.
pub open spec fn required_roles(kind: Seq<char>, options: Seq<Seq<char>>) -> Seq<Seq<char>> {
    if kind == "SERIAL"@ {
        seq!["TX"@, "RX"@] + (if options.contains("flow control"@) {
            seq!["CTS"@, "RTS"@]
        } else {
            Seq::empty()
        }) + (if options.contains("sync clock"@) {
            seq!["CK"@]
        } else {
            Seq::empty()
        })
    } else if kind == "SPI"@ {
        seq!["SCK"@, "MOSI"@, "MISO"@] + (if options.contains("chip-select"@) {
            seq!["NSS"@]
        } else {
            Seq::empty()
        })
    } else if kind == "I2C"@ {
        seq!["SCL"@, "SDA"@] + (if options.contains("SMBus alert"@) {
            seq!["SMBA"@]
        } else {
            Seq::empty()
        })
    } else if kind == "UCPD"@ {
        seq!["CC1"@, "CC2"@]
    } else {
        Seq::empty()
    }
}

/// The roles of a peripheral of the demanded kind.
pub fn required_signals(dem: &DemandInput) -> (r: Vec<&'static str>)
    ensures
        str_views(r@) == required_roles(dem@.kind, dem@.options),
{
    let mut r: Vec<&'static str> = Vec::new();
    if text::same(dem.kind, "SERIAL") {
        r.push("TX");
        r.push("RX");
        if dem.has_option("flow control") {
            r.push("CTS");
            r.push("RTS");
        }
        if dem.has_option("sync clock") {
            r.push("CK");
        }
    } else if text::same(dem.kind, "SPI") {
        r.push("SCK");
        r.push("MOSI");
        r.push("MISO");
        if dem.has_option("chip-select") {
            r.push("NSS");
        }
    } else if text::same(dem.kind, "I2C") {
        r.push("SCL");
        r.push("SDA");
        if dem.has_option("SMBus alert") {
            r.push("SMBA");
        }
    } else if text::same(dem.kind, "UCPD") {
        r.push("CC1");
        r.push("CC2");
    }
    proof {
        assert(str_views(r@) =~= required_roles(dem@.kind, dem@.options));
    }
    r
}

/// Whether a name is an instance of a class: the class and a number.
pub open spec fn is_numbered(name: Seq<char>, class: Seq<char>) -> bool {
    has_prefix(name, class) && name.len() > class.len() && all_digits(name.skip(class.len() as int))
}

/// Whether a name is an instance of one of the classes.
pub open spec fn is_of_classes(name: Seq<char>, classes: Seq<Seq<char>>) -> bool {
    exists|c: int| 0 <= c < classes.len() && is_numbered(name, #[trigger] classes[c])
}

/// The instances of the classes among the first `n` peripherals.
pub open spec fn instances_upto(ps: Seq<RawPeripheral>, classes: Seq<Seq<char>>, n: int) -> Seq<
    Seq<char>,
>
    decreases n,
{
    if n <= 0 {
        Seq::empty()
    } else if is_of_classes(ps[n - 1].name@, classes) {
        instances_upto(ps, classes, n - 1).push(ps[n - 1].name@)
    } else {
        instances_upto(ps, classes, n - 1)
    }
}

/// The instances of a kind on a chip, in order and once each.
pub open spec fn instances_of(raw: RawMcuData, kind: Seq<char>) -> Seq<Seq<char>> {
    let v = sorted_texts(
        instances_upto(raw.peripherals@, classes_of_kind(kind), raw.peripherals@.len() as int),
    );
    without_repeats(v, v.len() as int)
}

fn of_classes(name: &'static str, classes: &[&'static str]) -> (r: bool)
    ensures
        r == is_of_classes(name@, str_views(classes@)),
{
    let ghost v = str_views(classes@);
    let mut c: usize = 0;
    while c < classes.len()
        invariant
            c <= classes@.len(),
            v == str_views(classes@),
            forall|k: int| 0 <= k < c ==> !is_numbered(name@, #[trigger] v[k]),
        decreases classes@.len() - c,
    {
        proof {
            assert(v[c as int] == classes@[c as int]@);
        }
        if let Some(rest) = text::strip_prefix(name, classes[c]) {
            proof {
                assert(rest@ =~= name@.skip(classes@[c as int]@.len() as int));
            }
            if text::is_all_digits(rest) && !text::same(rest, "") {
                proof {
                    reveal_strlit("");
                    if rest@.len() == 0 {
                        assert(rest@ =~= ""@);
                    }
                    assert(is_numbered(name@, v[c as int]));
                }
                return true;
            }
            proof {
                reveal_strlit("");
            }
        }
        c += 1;
    }
    false
}

/// The instances of a kind on a chip, in order and once each.
pub fn instances_on(raw: &RawMcuData, kind: &str) -> (r: Vec<String>)
    ensures
        views(r@) == instances_of(*raw, kind@),
{
    let classes: Vec<&'static str> = select::underlying_classes(kind);
    let ghost cv = classes_of_kind(kind@);
    let mut names: Vec<String> = Vec::new();
    let mut i: usize = 0;
    proof {
        assert(views(names@) =~= instances_upto(raw.peripherals@, cv, 0));
    }
    while i < raw.peripherals.len()
        invariant
            i <= raw.peripherals@.len(),
            str_views(classes@) == cv,
            views(names@) == instances_upto(raw.peripherals@, cv, i as int),
        decreases raw.peripherals@.len() - i,
    {
        let name: &'static str = raw.peripherals[i].name;
        if of_classes(name, &classes) {
            let ghost had = names@;
            names.push(copy_text(name));
            proof {
                assert(views(names@) =~= views(had).push(name@));
            }
        }
        i += 1;
    }
    let sorted: Vec<String> = texts::sort_texts(&names);
    proof {
        assert(views(sorted@).len() == sorted@.len());
    }
    crate::resources::drop_repeats(&sorted)
}

/// The first pin from place `k` on that is not taken.
pub open spec fn first_free(pins: Seq<PinId>, taken: Set<PinId>, k: int) -> Option<PinId>
    decreases pins.len() - k,
{
    if k < 0 || k >= pins.len() {
        None
    } else if taken.contains(pins[k]) {
        first_free(pins, taken, k + 1)
    } else {
        Some(pins[k])
    }
}

/// A design and the pins that are taken in it.
pub ghost struct Seeding {
    pub design: DesignView,
    pub taken: Set<PinId>,
}

/// Place a role on its first free pin, unless it is placed or has none.
pub open spec fn role_seeded(s: Seeding, raw: RawMcuData, key: (Seq<char>, Seq<char>)) -> Seeding {
    if pin_of(s.design.locks, key, 0) is Some {
        s
    } else {
        match first_free(pins_carrying(raw, key), s.taken, 0) {
            Some(p) => Seeding {
                design: DesignView { locks: locked(s.design.locks, key, p), ..s.design },
                taken: s.taken.insert(p),
            },
            None => s,
        }
    }
}

/// Place the first `n` roles of an instance.
pub open spec fn roles_seeded(
    s: Seeding,
    raw: RawMcuData,
    instance: Seq<char>,
    roles: Seq<Seq<char>>,
    n: int,
) -> Seeding
    decreases n,
{
    if n <= 0 {
        s
    } else {
        role_seeded(
            roles_seeded(s, raw, instance, roles, n - 1),
            raw,
            (instance, roles[n - 1]),
        )
    }
}

/// Declare an instance and place its roles.
pub open spec fn instance_seeded(
    s: Seeding,
    raw: RawMcuData,
    instance: Seq<char>,
    roles: Seq<Seq<char>>,
) -> Seeding {
    roles_seeded(
        Seeding { design: with_use(s.design, instance, roles), ..s },
        raw,
        instance,
        roles,
        roles.len() as int,
    )
}

/// Declare and place the instances from the `lo`th to before the `hi`th, as far as there
/// are so many.
pub open spec fn instances_seeded(
    s: Seeding,
    raw: RawMcuData,
    instances: Seq<Seq<char>>,
    roles: Seq<Seq<char>>,
    lo: int,
    hi: int,
) -> Seeding
    decreases hi - lo,
{
    if hi <= lo {
        s
    } else if hi - 1 < instances.len() {
        instance_seeded(
            instances_seeded(s, raw, instances, roles, lo, hi - 1),
            raw,
            instances[hi - 1],
            roles,
        )
    } else {
        instances_seeded(s, raw, instances, roles, lo, hi - 1)
    }
}

/// Fill up to one demand.
pub open spec fn demand_seeded(s: Seeding, raw: RawMcuData, dem: DemandView, cur: int) -> Seeding {
    let roles = required_roles(dem.kind, dem.options);
    if classes_of_kind(dem.kind).len() == 0 || roles.len() == 0 {
        s
    } else {
        instances_seeded(s, raw, instances_of(raw, dem.kind), roles, cur, dem.count as int)
    }
}

/// Fill up to the first `n` demands.
pub open spec fn pins_seeded(
    s: Seeding,
    raw: RawMcuData,
    demands: Seq<DemandView>,
    have: Seq<(&'static str, u8)>,
    n: int,
) -> Seeding
    decreases n,
{
    if n <= 0 {
        s
    } else {
        demand_seeded(
            pins_seeded(s, raw, demands, have, n - 1),
            raw,
            demands[n - 1],
            have_count(have, demands[n - 1].kind) as int,
        )
    }
}

/// The pins that locks are on.
pub open spec fn locked_pins(locks: Seq<LockView>) -> Set<PinId> {
    Set::new(|p: PinId| exists|i: int| 0 <= i < locks.len() && (#[trigger] locks[i]).pin == p)
}

fn seed_roles(
    design: &mut H523Design,
    taken: &mut PinSet,
    raw: &RawMcuData,
    instance: &str,
    roles: &[&'static str],
)
    requires
        old(taken).wf(),
    ensures
        final(taken).wf(),
        (Seeding { design: final(design)@, taken: final(taken)@ }) == roles_seeded(
            Seeding { design: old(design)@, taken: old(taken)@ },
            *raw,
            instance@,
            str_views(roles@),
            roles@.len() as int,
        ),
{
    let ghost start = Seeding { design: design@, taken: taken@ };
    let ghost rv = str_views(roles@);
    let mut i: usize = 0;
    while i < roles.len()
        invariant
            i <= roles@.len(),
            rv == str_views(roles@),
            taken.wf(),
            (Seeding { design: design@, taken: taken@ }) == roles_seeded(
                start,
                *raw,
                instance@,
                rv,
                i as int,
            ),
        decreases roles@.len() - i,
    {
        let role: &'static str = roles[i];
        let ghost key = (instance@, role@);
        proof {
            assert(rv[i as int] == role@);
        }
        if design.locked_pin(instance, role).is_none() {
            let s: OwnedSignal = OwnedSignal::new(instance, role);
            let pins: Vec<PinId> = pinout::pins_for(raw, &s);
            let ghost had = taken@;
            let mut k: usize = 0;
            while k < pins.len() && taken.contains(&pins[k])
                invariant
                    k <= pins@.len(),
                    taken@ == had,
                    first_free(pins@, had, 0) == first_free(pins@, had, k as int),
                decreases pins@.len() - k,
            {
                k += 1;
            }
            if k < pins.len() {
                design.lock(instance, role, pins[k]);
                taken.insert(pins[k]);
            }
        }
        i += 1;
    }
}

fn pins_of_locks(design: &H523Design) -> (r: PinSet)
    ensures
        r.wf(),
        r@ == locked_pins(design@.locks),
{
    let ghost locks = design@.locks;
    let mut r: PinSet = PinSet::new();
    let mut i: usize = 0;
    while i < design.pin_locks.len()
        invariant
            i <= design.pin_locks@.len(),
            locks == design@.locks,
            r.wf(),
            forall|p: PinId|
                r@.contains(p) <==> exists|k: int| 0 <= k < i && (#[trigger] locks[k]).pin == p,
        decreases design.pin_locks@.len() - i,
    {
        let ghost had = r@;
        proof {
            assert(locks[i as int] == design.pin_locks@[i as int]@);
        }
        r.insert(design.pin_locks[i].pin());
        proof {
            assert forall|p: PinId| r@.contains(p) <==> exists|k: int|
                0 <= k < i + 1 && (#[trigger] locks[k]).pin == p by {
                if had.contains(p) {
                    let k = choose|k: int| 0 <= k < i && (#[trigger] locks[k]).pin == p;
                    assert(locks[k].pin == p);
                }
                assert(locks[i as int].pin == design.pin_locks@[i as int]@.pin);
            }
        }
        i += 1;
    }
    proof {
        assert(r@ =~= locked_pins(locks));
    }
    r
}

/// Fill a design up to the demands: declare the instances that are missing and place
/// each of their roles on the first pin that is free. What the design has already,
/// `have` says.
pub fn seed_h523_into(
    design: &mut H523Design,
    raw: &RawMcuData,
    demands: &[DemandInput],
    have: &[(&'static str, u8)],
)
    ensures
        final(design)@ == pins_seeded(
            Seeding { design: old(design)@, taken: locked_pins(old(design)@.locks) },
            *raw,
            demand_views(demands@),
            have@,
            demands@.len() as int,
        ).design,
{
    let mut taken: PinSet = pins_of_locks(design);
    let ghost start = Seeding { design: design@, taken: taken@ };
    let ghost v = demand_views(demands@);
    let mut i: usize = 0;
    while i < demands.len()
        invariant
            i <= demands@.len(),
            v == demand_views(demands@),
            taken.wf(),
            (Seeding { design: design@, taken: taken@ }) == pins_seeded(
                start,
                *raw,
                v,
                have@,
                i as int,
            ),
        decreases demands@.len() - i,
    {
        let dem: &DemandInput = &demands[i];
        let ghost s = Seeding { design: design@, taken: taken@ };
        proof {
            assert(v[i as int] == dem@);
        }
        let classes: Vec<&'static str> = select::underlying_classes(dem.kind);
        let roles: Vec<&'static str> = required_signals(dem);
        proof {
            assert(str_views(classes@).len() == classes@.len());
            assert(str_views(roles@).len() == roles@.len());
        }
        let cur: u8 = count_of(have, dem.kind);
        if classes.len() > 0 && roles.len() > 0 {
            let instances: Vec<String> = instances_on(raw, dem.kind);
            let ghost iv = instances_of(*raw, dem@.kind);
            let ghost rv = str_views(roles@);
            let mut j: u8 = cur;
            while j < dem.count
                invariant
                    cur <= j,
                    j <= dem.count || j == cur,
                    taken.wf(),
                    views(instances@) == iv,
                    rv == str_views(roles@),
                    (Seeding { design: design@, taken: taken@ }) == instances_seeded(
                        s,
                        *raw,
                        iv,
                        rv,
                        cur as int,
                        j as int,
                    ),
                decreases dem.count - j,
            {
                if (j as usize) < instances.len() {
                    let inst: &str = instances[j as usize].as_str();
                    proof {
                        assert(iv[j as int] == inst@);
                    }
                    design.add_use(inst, &roles);
                    seed_roles(design, &mut taken, raw, inst, &roles);
                }
                j = j + 1;
            }
        }
        i += 1;
    }
}

} // verus!
