//! Chips and what is on them.
//!
//! A part is a chip's raw tables with its package label and family. Its
//! [`McuDescriptor`] is the inventory read out of the tables, with what the
//! reference manuals add: fast ADC channels, the high-resolution timer, and the
//! analog routes.

use vstd::prelude::*;
use vstd::utf8::decode_utf8;
use vstd::utf8::encode_utf8;
use vstd::utf8::is_char_boundary;

use crate::fabric_data_c5;
use crate::fabric_data_c5::c5_comp_to_tim_break_table;
use crate::fabric_data_c5::c5_dac_to_comp_table;
use crate::g474;
use crate::g474::PeripheralKind;
use crate::mcu_raw::DmaPoolDef;
use crate::mcu_raw::RawDmaLeg;
use crate::mcu_raw::RawMcuData;
use crate::mcu_raw::RawPeripheral;
use crate::order;
use crate::order::order_of;
use crate::order::picked;
use crate::order::sorted_bytes;
use crate::pinout::ChipVariant;
use crate::text;
use crate::text::byte_spelled;
use crate::text::has_prefix;
use crate::text::has_suffix;

verus! {

/// A chip family that is planned for.
#[derive(Copy, Clone, Debug, PartialEq, Eq, Structural, Hash)]
pub enum Mcu {
    G474,
    H523,
    C5A3,
    C531,
}

impl Default for Mcu {
    fn default() -> (r: Self)
        ensures
            r == Mcu::G474,
    {
        Mcu::G474
    }
}

/// The family's name.
pub open spec fn mcu_label(m: Mcu) -> Seq<char> {
    match m {
        Mcu::G474 => "STM32G474"@,
        Mcu::H523 => "STM32H523"@,
        Mcu::C5A3 => "STM32C5A3"@,
        Mcu::C531 => "STM32C531"@,
    }
}

/// The key of the part that a family opens with.
pub open spec fn default_key(m: Mcu) -> Seq<char> {
    match m {
        Mcu::G474 => "STM32G474R"@,
        Mcu::H523 => "STM32H523R"@,
        Mcu::C5A3 => "STM32C5A3Z"@,
        Mcu::C531 => "STM32C531R"@,
    }
}

/// The parts of a family among the first `n` of a registry.
pub open spec fn family_parts(all: Seq<Package>, m: Mcu, n: int) -> Seq<Package>
    decreases n,
{
    if n <= 0 {
        Seq::empty()
    } else if all[n - 1].info.mcu == m {
        family_parts(all, m, n - 1).push(all[n - 1])
    } else {
        family_parts(all, m, n - 1)
    }
}

/// The first part from position `k` on with the given key.
pub open spec fn part_with_key(all: Seq<Package>, key: Seq<char>, k: int) -> Option<Package>
    decreases all.len() - k,
{
    if k < 0 || k >= all.len() {
        None
    } else if chip_key(all[k].info.raw.name@) == key {
        Some(all[k])
    } else {
        part_with_key(all, key, k + 1)
    }
}

impl Mcu {
    /// The family's name.
    pub fn label(self) -> (r: &'static str)
        ensures
            r@ == mcu_label(self),
    {
        match self {
            Mcu::G474 => "STM32G474",
            Mcu::H523 => "STM32H523",
            Mcu::C5A3 => "STM32C5A3",
            Mcu::C531 => "STM32C531",
        }
    }

    /// The registered parts of this family, in registry order.
    pub fn packages(self, all: &[Package]) -> (r: Vec<Package>)
        ensures
            r@ == family_parts(all@, self, all@.len() as int),
    {
        let mut out: Vec<Package> = Vec::new();
        let mut i: usize = 0;
        while i < all.len()
            invariant
                i <= all@.len(),
                out@ == family_parts(all@, self, i as int),
            decreases all@.len() - i,
        {
            if all[i].mcu() == self {
                out.push(all[i]);
            }
            i += 1;
        }
        out
    }

    /// The registered part that the family opens with, if it is registered.
    pub fn default_package(self, all: &[Package]) -> (r: Option<Package>)
        ensures
            r == part_with_key(all@, default_key(self), 0),
    {
        let key: &'static str = match self {
            Mcu::G474 => "STM32G474R",
            Mcu::H523 => "STM32H523R",
            Mcu::C5A3 => "STM32C5A3Z",
            Mcu::C531 => "STM32C531R",
        };
        Package::with_key(all, key)
    }

    /// Whether the planning views exist for this family.
    pub fn is_implemented(self) -> (r: bool)
        ensures
            r == (self == Mcu::G474),
    {
        match self {
            Mcu::G474 => true,
            Mcu::H523 | Mcu::C5A3 | Mcu::C531 => false,
        }
    }
}

/// One registered part.
#[derive(Debug)]
pub struct PartInfo {
    pub raw: &'static RawMcuData,
    pub package_label: &'static str,
    pub mcu: Mcu,
}

/// The first ten bytes of a chip name, "STM32", line and package letter; the whole
/// name where it is shorter or the tenth byte is no end of a character.
pub open spec fn chip_key(name: Seq<char>) -> Seq<char> {
    if is_char_boundary(encode_utf8(name), 10) {
        decode_utf8(encode_utf8(name).subrange(0, 10))
    } else {
        name
    }
}

impl PartInfo {
    /// The prefix that all flash, temperature and package variants of one package
    /// letter share.
    pub fn chip_prefix(&self) -> (r: &'static str)
        ensures
            r@ == chip_key(self.raw.name@),
    {
        let name: &'static str = self.raw.name;
        if name.is_char_boundary(10) {
            let (head, _) = name.split_at(10);
            proof {
                vstd::utf8::encode_utf8_decode_utf8(head@);
                assert(encode_utf8(head@) =~= encode_utf8(name@).subrange(0, 10));
            }
            head
        } else {
            name
        }
    }
}

/// A handle on a registered part. Two handles are equal when their parts have the
/// same name.
#[derive(Copy, Clone, Debug)]
pub struct Package {
    pub info: &'static PartInfo,
}

impl PartialEq for Package {
    fn eq(&self, other: &Self) -> (r: bool) {
        text::same(self.info.raw.name, other.info.raw.name)
    }
}

impl vstd::std_specs::cmp::PartialEqSpecImpl for Package {
    open spec fn obeys_eq_spec() -> bool {
        true
    }

    open spec fn eq_spec(&self, other: &Self) -> bool {
        self.info.raw.name@ == other.info.raw.name@
    }
}

impl Eq for Package {

}

/// The first part from position `k` on with the given name.
pub open spec fn part_named(all: Seq<Package>, name: Seq<char>, k: int) -> Option<Package>
    decreases all.len() - k,
{
    if k < 0 || k >= all.len() {
        None
    } else if all[k].info.raw.name@ == name {
        Some(all[k])
    } else {
        part_named(all, name, k + 1)
    }
}

/// The first part from position `k` on whose key begins the given name.
pub open spec fn part_for_variant(all: Seq<Package>, name: Seq<char>, k: int) -> Option<Package>
    decreases all.len() - k,
{
    if k < 0 || k >= all.len() {
        None
    } else if has_prefix(name, chip_key(all[k].info.raw.name@)) {
        Some(all[k])
    } else {
        part_for_variant(all, name, k + 1)
    }
}

/// The part that stands for a chip name: the one of that name, else the first
/// whose key the name begins with.
pub open spec fn part_for(all: Seq<Package>, name: Seq<char>) -> Option<Package> {
    match part_named(all, name, 0) {
        Some(p) => Some(p),
        None => part_for_variant(all, name, 0),
    }
}

/// A registered name resolves to a part of that name.
pub proof fn registered_name_resolves(all: Seq<Package>, i: int)
    requires
        0 <= i < all.len(),
    ensures
        part_for(all, all[i].info.raw.name@) is Some,
        part_for(all, all[i].info.raw.name@)->0.info.raw.name@ == all[i].info.raw.name@,
{
    part_named_finds(all, all[i].info.raw.name@, 0, i);
}

proof fn part_named_finds(all: Seq<Package>, name: Seq<char>, k: int, i: int)
    requires
        0 <= k <= i < all.len(),
        all[i].info.raw.name@ == name,
    ensures
        part_named(all, name, k) is Some,
        part_named(all, name, k)->0.info.raw.name@ == name,
    decreases all.len() - k,
{
    if all[k].info.raw.name@ != name {
        part_named_finds(all, name, k + 1, i);
    }
}

/// A name that resolves is the part's name or begins with the part's key.
pub proof fn resolved_name_matches(all: Seq<Package>, name: Seq<char>)
    requires
        part_for(all, name) is Some,
    ensures
        part_for(all, name)->0.info.raw.name@ == name || has_prefix(
            name,
            chip_key(part_for(all, name)->0.info.raw.name@),
        ),
{
    named_matches(all, name, 0);
    variant_matches(all, name, 0);
}

proof fn named_matches(all: Seq<Package>, name: Seq<char>, k: int)
    ensures
        part_named(all, name, k) matches Some(p) ==> p.info.raw.name@ == name,
    decreases all.len() - k,
{
    if 0 <= k < all.len() {
        named_matches(all, name, k + 1);
    }
}

proof fn variant_matches(all: Seq<Package>, name: Seq<char>, k: int)
    ensures
        part_for_variant(all, name, k) matches Some(p) ==> has_prefix(
            name,
            chip_key(p.info.raw.name@),
        ),
    decreases all.len() - k,
{
    if 0 <= k < all.len() {
        variant_matches(all, name, k + 1);
    }
}

/// The package letter's variant, when the tenth byte of the name is one.
pub open spec fn variant_of_letter(name: Seq<char>) -> Option<ChipVariant> {
    let b = encode_utf8(name);
    if b.len() <= 9 {
        None
    } else if b[9] == 67 {
        Some(ChipVariant::G474C)
    } else if b[9] == 77 {
        Some(ChipVariant::G474M)
    } else if b[9] == 80 {
        Some(ChipVariant::G474P)
    } else if b[9] == 81 {
        Some(ChipVariant::G474Q)
    } else if b[9] == 82 {
        Some(ChipVariant::G474R)
    } else if b[9] == 86 {
        Some(ChipVariant::G474V)
    } else {
        None
    }
}

/// The key of a variant's part.
pub open spec fn variant_key(v: ChipVariant) -> Seq<char> {
    match v {
        ChipVariant::G474C => "STM32G474C"@,
        ChipVariant::G474M => "STM32G474M"@,
        ChipVariant::G474P => "STM32G474P"@,
        ChipVariant::G474Q => "STM32G474Q"@,
        ChipVariant::G474R => "STM32G474R"@,
        ChipVariant::G474V => "STM32G474V"@,
    }
}

/// The variant of a part; none for a part of another family.
pub open spec fn variant_of(p: Package) -> Option<ChipVariant> {
    if p.info.mcu == Mcu::G474 {
        variant_of_letter(p.info.raw.name@)
    } else {
        None
    }
}

impl Package {
    /// A handle on the given part.
    pub fn new(info: &'static PartInfo) -> (r: Package)
        ensures
            r.info == info,
    {
        Package { info }
    }

    /// The part's family.
    pub fn mcu(self) -> (r: Mcu)
        ensures
            r == self.info.mcu,
    {
        self.info.mcu
    }

    /// The part's tables.
    pub fn raw(self) -> (r: &'static RawMcuData)
        ensures
            r == self.info.raw,
    {
        self.info.raw
    }

    /// The part's name, e.g. "STM32G474RE".
    pub fn name(self) -> (r: &'static str)
        ensures
            r == self.info.raw.name,
    {
        self.info.raw.name
    }

    /// Package style as in datasheet titles (LQFP48, UFBGA100).
    pub fn package_label(self) -> (r: &'static str)
        ensures
            r == self.info.package_label,
    {
        self.info.package_label
    }

    /// Line and package letter, e.g. "STM32G474R".
    pub fn chip_prefix(self) -> (r: &'static str)
        ensures
            r@ == chip_key(self.info.raw.name@),
    {
        self.info.chip_prefix()
    }

    /// One line for a combo box: "STM32G474R (LQFP64)".
    pub fn display_label(self) -> (r: String)
        ensures
            r@ == chip_key(self.info.raw.name@) + " ("@ + self.info.package_label@ + ")"@,
    {
        let mut s: String = self.chip_prefix().to_owned();
        s.append(" (");
        s.append(self.info.package_label);
        s.append(")");
        s
    }

    /// The first registered part with the given key.
    pub fn with_key(all: &[Package], key: &str) -> (r: Option<Package>)
        ensures
            r == part_with_key(all@, key@, 0),
    {
        let mut i: usize = 0;
        while i < all.len()
            invariant
                i <= all@.len(),
                part_with_key(all@, key@, 0) == part_with_key(all@, key@, i as int),
            decreases all@.len() - i,
        {
            if text::same(all[i].chip_prefix(), key) {
                return Some(all[i]);
            }
            i += 1;
        }
        None
    }

    /// The registered part whose descriptor represents a chip of the given name:
    /// pins and peripherals are fixed by the package letter, so every flash and
    /// temperature variant of a registered letter resolves.
    pub fn for_chip_name(name: &str, all: &[Package]) -> (r: Option<Package>)
        ensures
            r == part_for(all@, name@),
    {
        let mut i: usize = 0;
        while i < all.len()
            invariant
                i <= all@.len(),
                part_named(all@, name@, 0) == part_named(all@, name@, i as int),
            decreases all@.len() - i,
        {
            if text::same(all[i].name(), name) {
                return Some(all[i]);
            }
            i += 1;
        }
        let mut k: usize = 0;
        while k < all.len()
            invariant
                k <= all@.len(),
                part_named(all@, name@, 0) is None,
                part_for_variant(all@, name@, 0) == part_for_variant(all@, name@, k as int),
            decreases all@.len() - k,
        {
            if text::starts_with(name, all[k].chip_prefix()) {
                return Some(all[k]);
            }
            k += 1;
        }
        None
    }

    /// The part's descriptor.
    pub fn descriptor(self) -> (r: McuDescriptor)
        ensures
            describes(r, self),
    {
        build_descriptor(self)
    }

    /// The G474 package variant; `None` for a part of another family.
    pub fn to_g474_variant(self) -> (r: Option<ChipVariant>)
        ensures
            r == variant_of(self),
    {
        if self.info.mcu != Mcu::G474 {
            return None;
        }
        let b: &[u8] = self.info.raw.name.as_bytes();
        if b.len() <= 9 {
            return None;
        }
        let c: u8 = b[9];
        if c == 67 {
            Some(ChipVariant::G474C)
        } else if c == 77 {
            Some(ChipVariant::G474M)
        } else if c == 80 {
            Some(ChipVariant::G474P)
        } else if c == 81 {
            Some(ChipVariant::G474Q)
        } else if c == 82 {
            Some(ChipVariant::G474R)
        } else if c == 86 {
            Some(ChipVariant::G474V)
        } else {
            None
        }
    }

    /// The registered part of a G474 package variant.
    pub fn from_g474_variant(v: ChipVariant, all: &[Package]) -> (r: Option<Package>)
        ensures
            r == part_with_key(all@, variant_key(v), 0),
    {
        let key: &'static str = match v {
            ChipVariant::G474C => "STM32G474C",
            ChipVariant::G474M => "STM32G474M",
            ChipVariant::G474P => "STM32G474P",
            ChipVariant::G474Q => "STM32G474Q",
            ChipVariant::G474R => "STM32G474R",
            ChipVariant::G474V => "STM32G474V",
        };
        Package::with_key(all, key)
    }
}

/// What a timer is built for.
#[derive(Copy, Clone, Debug, PartialEq, Eq, Structural, Hash)]
pub enum TimerKind {
    Advanced,
    General32,
    General16,
    Basic,
    LowPower,
}

/// One timer.
#[derive(Copy, Clone, Debug, PartialEq, Eq, Structural)]
pub struct TimerInstance {
    pub number: u8,
    pub kind: TimerKind,
    pub channels: u8,
    pub has_complementary: bool,
    pub width_bits: u8,
}

/// One ADC, with its fast channels.
#[derive(Clone, Debug)]
pub struct AdcInstance {
    pub number: u8,
    pub fast_channels: Vec<u8>,
}

/// One DAC.
#[derive(Copy, Clone, Debug, PartialEq, Eq, Structural)]
pub struct DacInstance {
    pub number: u8,
    pub channels: u8,
    pub fast: bool,
}

/// One comparator.
#[derive(Copy, Clone, Debug, PartialEq, Eq, Structural)]
pub struct CompInstance {
    pub number: u8,
}

/// One operational amplifier.
#[derive(Copy, Clone, Debug, PartialEq, Eq, Structural)]
pub struct OpampInstance {
    pub number: u8,
}

/// The communication peripherals, by instance number.
#[derive(Clone, Debug)]
pub struct CommsInventory {
    pub spi: Vec<u8>,
    pub i2c: Vec<u8>,
    pub i3c: Vec<u8>,
    pub usart: Vec<u8>,
    pub uart: Vec<u8>,
    pub lpuart: Vec<u8>,
    pub fdcan: Vec<u8>,
    pub ucpd: Vec<u8>,
    pub has_usb: bool,
    pub octospi: u8,
    pub has_sdmmc: bool,
    pub has_fmc: bool,
    pub has_hdmi_cec: bool,
}

impl Default for CommsInventory {
    fn default() -> (r: Self)
        ensures
            r.spi@.len() == 0,
            r.i2c@.len() == 0,
            r.i3c@.len() == 0,
            r.usart@.len() == 0,
            r.uart@.len() == 0,
            r.lpuart@.len() == 0,
            r.fdcan@.len() == 0,
            r.ucpd@.len() == 0,
            !r.has_usb,
            r.octospi == 0,
            !r.has_sdmmc,
            !r.has_fmc,
            !r.has_hdmi_cec,
    {
        CommsInventory {
            spi: Vec::new(),
            i2c: Vec::new(),
            i3c: Vec::new(),
            usart: Vec::new(),
            uart: Vec::new(),
            lpuart: Vec::new(),
            fdcan: Vec::new(),
            ucpd: Vec::new(),
            has_usb: false,
            octospi: 0,
            has_sdmmc: false,
            has_fmc: false,
            has_hdmi_cec: false,
        }
    }
}

/// A connection between two peripherals.
#[derive(Copy, Clone, Debug, PartialEq, Eq, Structural, Hash)]
pub struct PeripheralEdge {
    pub from: PeripheralRef,
    pub to: PeripheralRef,
    pub kind: EdgeKind,
}

/// What a connection carries.
#[derive(Copy, Clone, Debug, PartialEq, Eq, Structural, Hash)]
pub enum EdgeKind {
    DacToComp,
}

/// One end of a connection.
#[derive(Copy, Clone, Debug, PartialEq, Eq, Structural, Hash)]
pub struct PeripheralRef {
    pub kind: PeripheralKind,
    pub instance: u8,
    pub channel: u8,
}

/// The edge of one `(dac, channel, comp)` row.
pub open spec fn edge_of(row: (u8, u8, u8)) -> PeripheralEdge {
    PeripheralEdge {
        from: PeripheralRef { kind: PeripheralKind::Dac, instance: row.0, channel: row.1 },
        to: PeripheralRef { kind: PeripheralKind::Comp, instance: row.2, channel: 0 },
        kind: EdgeKind::DacToComp,
    }
}

/// The size of the high-resolution timer.
#[derive(Copy, Clone, Debug, PartialEq, Eq, Structural)]
pub struct HrtimFabric {
    pub sub_timer_count: u8,
    pub eev_count: u8,
    pub flt_count: u8,
    pub adc_trigger_count: u8,
}

/// Analog routes between peripherals, by instance number.
#[derive(Clone, Debug)]
pub struct ChipFabric {
    /// `(dac, channel, comp)`
    pub dac_to_comp: Vec<(u8, u8, u8)>,
    /// `(comp, external event)`
    pub comp_to_eev: Vec<(u8, u8)>,
    /// `(comp, fault input)`
    pub comp_to_flt: Vec<(u8, u8)>,
    /// `(comp, timer, break input)`: a comparator output routed to an advanced
    /// timer's break input.
    pub comp_to_tim_break: Vec<(u8, u8, u8)>,
}

/// The comparators among the first `n` rows that reach the break input.
pub open spec fn break_comps(rows: Seq<(u8, u8, u8)>, tim: u8, input: u8, n: int) -> Seq<u8>
    decreases n,
{
    if n <= 0 {
        Seq::empty()
    } else if rows[n - 1].1 == tim && rows[n - 1].2 == input {
        break_comps(rows, tim, input, n - 1).push(rows[n - 1].0)
    } else {
        break_comps(rows, tim, input, n - 1)
    }
}

/// The DAC channels among the first `n` rows that reach the comparator.
pub open spec fn threshold_dacs(rows: Seq<(u8, u8, u8)>, comp: u8, n: int) -> Seq<(u8, u8)>
    decreases n,
{
    if n <= 0 {
        Seq::empty()
    } else if rows[n - 1].2 == comp {
        threshold_dacs(rows, comp, n - 1).push((rows[n - 1].0, rows[n - 1].1))
    } else {
        threshold_dacs(rows, comp, n - 1)
    }
}

/// A comparator is listed for a break input exactly when a row says so.
pub proof fn break_comps_hold(rows: Seq<(u8, u8, u8)>, tim: u8, input: u8, n: int, comp: u8)
    requires
        0 <= n <= rows.len(),
    ensures
        break_comps(rows, tim, input, n).contains(comp) <==> exists|i: int|
            0 <= i < n && #[trigger] rows[i] == (comp, tim, input),
    decreases n,
{
    if n > 0 {
        break_comps_hold(rows, tim, input, n - 1, comp);
        let rest = break_comps(rows, tim, input, n - 1);
        let more = rest.push(rows[n - 1].0);
        if rest.contains(comp) {
            let k = choose|k: int| 0 <= k < rest.len() && rest[k] == comp;
            assert(more[k] == comp);
        }
        assert(more[rest.len() as int] == rows[n - 1].0);
        if more.contains(comp) && comp != rows[n - 1].0 {
            let k = choose|k: int| 0 <= k < more.len() && more[k] == comp;
            assert(rest[k] == comp);
        }
    }
}

/// A DAC channel is listed for a comparator exactly when a row says so.
pub proof fn threshold_dacs_hold(rows: Seq<(u8, u8, u8)>, comp: u8, n: int, dac: (u8, u8))
    requires
        0 <= n <= rows.len(),
    ensures
        threshold_dacs(rows, comp, n).contains(dac) <==> exists|i: int|
            0 <= i < n && #[trigger] rows[i] == (dac.0, dac.1, comp),
    decreases n,
{
    if n > 0 {
        threshold_dacs_hold(rows, comp, n - 1, dac);
        let rest = threshold_dacs(rows, comp, n - 1);
        let last = (rows[n - 1].0, rows[n - 1].1);
        let more = rest.push(last);
        if rest.contains(dac) {
            let k = choose|k: int| 0 <= k < rest.len() && rest[k] == dac;
            assert(more[k] == dac);
        }
        assert(more[rest.len() as int] == last);
        if more.contains(dac) && dac != last {
            let k = choose|k: int| 0 <= k < more.len() && more[k] == dac;
            assert(rest[k] == dac);
        }
    }
}

impl ChipFabric {
    /// The comparators whose output can drive a timer's break input, in table
    /// order: the hardware over-current sources of a timer-PWM converter.
    pub fn comps_for_tim_break(&self, tim: u8, break_input: u8) -> (r: Vec<u8>)
        ensures
            r@ == break_comps(
                self.comp_to_tim_break@,
                tim,
                break_input,
                self.comp_to_tim_break@.len() as int,
            ),
    {
        let mut out: Vec<u8> = Vec::new();
        let mut i: usize = 0;
        while i < self.comp_to_tim_break.len()
            invariant
                i <= self.comp_to_tim_break@.len(),
                out@ == break_comps(self.comp_to_tim_break@, tim, break_input, i as int),
            decreases self.comp_to_tim_break@.len() - i,
        {
            let row: (u8, u8, u8) = self.comp_to_tim_break[i];
            if row.1 == tim && row.2 == break_input {
                out.push(row.0);
            }
            i += 1;
        }
        out
    }

    /// The DAC channels that can set a comparator's inverting-input threshold, in
    /// table order.
    pub fn dac_threshold_sources_for_comp(&self, comp: u8) -> (r: Vec<(u8, u8)>)
        ensures
            r@ == threshold_dacs(self.dac_to_comp@, comp, self.dac_to_comp@.len() as int),
    {
        let mut out: Vec<(u8, u8)> = Vec::new();
        let mut i: usize = 0;
        while i < self.dac_to_comp.len()
            invariant
                i <= self.dac_to_comp@.len(),
                out@ == threshold_dacs(self.dac_to_comp@, comp, i as int),
            decreases self.dac_to_comp@.len() - i,
        {
            let row: (u8, u8, u8) = self.dac_to_comp[i];
            if row.2 == comp {
                out.push((row.0, row.1));
            }
            i += 1;
        }
        out
    }
}

/// A chip's inventory.
pub struct McuDescriptor {
    pub mcu: Mcu,
    pub package: Package,
    pub name: &'static str,
    pub family: &'static str,
    pub timers: Vec<TimerInstance>,
    pub adcs: Vec<AdcInstance>,
    pub dacs: Vec<DacInstance>,
    pub comps: Vec<CompInstance>,
    pub opamps: Vec<OpampInstance>,
    pub comms: CommsInventory,
    /// The DAC to comparator routes of the fabric.
    pub edges: Vec<PeripheralEdge>,
    pub hrtim: Option<HrtimFabric>,
    /// `None` for families whose routes are not known.
    pub fabric: Option<ChipFabric>,
    pub raw: &'static RawMcuData,
}

/// The channels of the first `n` pools together.
pub open spec fn channel_total(pools: Seq<DmaPoolDef>, n: int) -> int
    decreases n,
{
    if n <= 0 {
        0
    } else {
        channel_total(pools, n - 1) + pools[n - 1].channels
    }
}

proof fn channel_total_grows(pools: Seq<DmaPoolDef>, i: int, n: int)
    requires
        0 <= i <= n,
    ensures
        0 <= channel_total(pools, i) <= channel_total(pools, n),
    decreases n,
{
    if i < n {
        channel_total_grows(pools, i, n - 1);
    } else if n > 0 {
        channel_total_grows(pools, n - 1, n - 1);
    }
}

/// The first peripheral from position `k` on with the given name.
pub open spec fn peripheral_named(ps: Seq<RawPeripheral>, name: Seq<char>, k: int) -> Option<
    RawPeripheral,
>
    decreases ps.len() - k,
{
    if k < 0 || k >= ps.len() {
        None
    } else if ps[k].name@ == name {
        Some(ps[k])
    } else {
        peripheral_named(ps, name, k + 1)
    }
}

/// The DMA legs of the peripheral of the given name; none where there is no such
/// peripheral.
pub open spec fn legs_of(raw: RawMcuData, name: Seq<char>) -> Seq<RawDmaLeg> {
    match peripheral_named(raw.peripherals@, name, 0) {
        Some(p) => p.dma@,
        None => Seq::empty(),
    }
}

impl McuDescriptor {
    /// The physical DMA pools, one per controller.
    pub fn dma_pools(&self) -> (r: &'static [DmaPoolDef])
        ensures
            r == self.raw.dma_pools,
    {
        self.raw.dma_pools
    }

    /// The physical DMA channels of all controllers.
    pub fn dma_channel_total(&self) -> (r: u16)
        requires
            channel_total(self.raw.dma_pools@, self.raw.dma_pools@.len() as int) <= u16::MAX,
        ensures
            r == channel_total(self.raw.dma_pools@, self.raw.dma_pools@.len() as int),
    {
        let pools: &'static [DmaPoolDef] = self.raw.dma_pools;
        let mut total: u16 = 0;
        let mut i: usize = 0;
        while i < pools.len()
            invariant
                i <= pools@.len(),
                total == channel_total(pools@, i as int),
                channel_total(pools@, pools@.len() as int) <= u16::MAX,
            decreases pools@.len() - i,
        {
            proof {
                channel_total_grows(pools@, i + 1, pools@.len() as int);
            }
            total = total + pools[i].channels as u16;
            i += 1;
        }
        total
    }

    /// The DMA legs of a peripheral instance, by name; none when it has no DMA or is
    /// not on the chip. A leg takes one channel of any one of its pools.
    pub fn dma_routes(&self, peripheral: &str) -> (r: Vec<RawDmaLeg>)
        ensures
            r@ == legs_of(*self.raw, peripheral@),
    {
        let ps: &'static [RawPeripheral] = self.raw.peripherals;
        let mut i: usize = 0;
        while i < ps.len()
            invariant
                i <= ps@.len(),
                ps@ == self.raw.peripherals@,
                peripheral_named(ps@, peripheral@, 0) == peripheral_named(
                    ps@,
                    peripheral@,
                    i as int,
                ),
            decreases ps@.len() - i,
        {
            if text::same(ps[i].name, peripheral) {
                let legs: &'static [RawDmaLeg] = ps[i].dma;
                let mut out: Vec<RawDmaLeg> = Vec::new();
                let mut k: usize = 0;
                while k < legs.len()
                    invariant
                        k <= legs@.len(),
                        out@ =~= legs@.take(k as int),
                    decreases legs@.len() - k,
                {
                    out.push(legs[k]);
                    k += 1;
                }
                proof {
                    assert(legs@.take(k as int) =~= legs@);
                }
                return out;
            }
            i += 1;
        }
        Vec::new()
    }
}

/// What a peripheral counts as in the inventory.
#[derive(Copy, Clone, Debug, PartialEq, Eq, Structural)]
pub enum PartKind {
    Skipped,
    Adc,
    Dac,
    Comp,
    Opamp,
    Hrtim,
    Timer,
    Spi,
    I2c,
    I3c,
    Usart,
    Uart,
    Lpuart,
    Fdcan,
    Ucpd,
    Usb,
    Octospi,
    Sdmmc,
    Fmc,
    Cec,
    Other,
}

/// The instance number behind a prefix, when the rest of the name is a number.
pub open spec fn number_after(name: Seq<char>, prefix: Seq<char>) -> Option<u8> {
    if has_prefix(name, prefix) {
        byte_spelled(name.skip(prefix.len() as int))
    } else {
        None
    }
}

/// The instance number behind a prefix.
pub fn strip_prefix_num(name: &str, prefix: &str) -> (r: Option<u8>)
    ensures
        r == number_after(name@, prefix@),
{
    match text::strip_prefix(name, prefix) {
        Some(rest) => text::parse_byte(rest),
        None => None,
    }
}

/// Kind, channel count, complementary outputs and counter width of a register
/// block; `None` for a block that is no timer's.
pub open spec fn timer_block(block: Seq<char>) -> Option<(TimerKind, u8, bool, u8)> {
    if block == "TIM_ADV"@ {
        Some((TimerKind::Advanced, 4, true, 16))
    } else if block == "TIM_GP32"@ {
        Some((TimerKind::General32, 4, false, 32))
    } else if block == "TIM_GP16"@ {
        Some((TimerKind::General16, 4, false, 16))
    } else if block == "TIM_2CH"@ {
        Some((TimerKind::General16, 2, false, 16))
    } else if block == "TIM_2CH_CMP"@ {
        Some((TimerKind::General16, 2, true, 16))
    } else if block == "TIM_1CH"@ {
        Some((TimerKind::General16, 1, false, 16))
    } else if block == "TIM_1CH_CMP"@ {
        Some((TimerKind::General16, 1, true, 16))
    } else if block == "TIM_BASIC"@ {
        Some((TimerKind::Basic, 0, false, 16))
    } else {
        None
    }
}

/// The timer that a peripheral is, when it is one. Low-power timers go by their
/// name; all others by their register block.
pub open spec fn timer_of(name: Seq<char>, block: Option<&'static str>) -> Option<TimerInstance> {
    match number_after(name, "LPTIM"@) {
        Some(n) => Some(
            TimerInstance {
                number: n,
                kind: TimerKind::LowPower,
                channels: 2,
                has_complementary: false,
                width_bits: 16,
            },
        ),
        None => match (number_after(name, "TIM"@), block) {
            (Some(n), Some(b)) => match timer_block(b@) {
                Some((kind, channels, comp, width)) => Some(
                    TimerInstance {
                        number: n,
                        kind,
                        channels,
                        has_complementary: comp,
                        width_bits: width,
                    },
                ),
                None => None,
            },
            _ => None,
        },
    }
}

/// Classify a timer by its name and register block.
pub fn classify_timer(name: &str, block: Option<&'static str>) -> (r: Option<TimerInstance>)
    ensures
        r == timer_of(name@, block),
{
    if let Some(n) = strip_prefix_num(name, "LPTIM") {
        return Some(
            TimerInstance {
                number: n,
                kind: TimerKind::LowPower,
                channels: 2,
                has_complementary: false,
                width_bits: 16,
            },
        );
    }
    let n: u8 = match strip_prefix_num(name, "TIM") {
        Some(n) => n,
        None => {
            return None;
        },
    };
    let b: &'static str = match block {
        Some(b) => b,
        None => {
            return None;
        },
    };
    let (kind, channels, comp, width): (TimerKind, u8, bool, u8) = if text::same(b, "TIM_ADV") {
        (TimerKind::Advanced, 4, true, 16)
    } else if text::same(b, "TIM_GP32") {
        (TimerKind::General32, 4, false, 32)
    } else if text::same(b, "TIM_GP16") {
        (TimerKind::General16, 4, false, 16)
    } else if text::same(b, "TIM_2CH") {
        (TimerKind::General16, 2, false, 16)
    } else if text::same(b, "TIM_2CH_CMP") {
        (TimerKind::General16, 2, true, 16)
    } else if text::same(b, "TIM_1CH") {
        (TimerKind::General16, 1, false, 16)
    } else if text::same(b, "TIM_1CH_CMP") {
        (TimerKind::General16, 1, true, 16)
    } else if text::same(b, "TIM_BASIC") {
        (TimerKind::Basic, 0, false, 16)
    } else {
        return None;
    };
    Some(TimerInstance { number: n, kind, channels, has_complementary: comp, width_bits: width })
}

/// Whether a name is that of shared registers or of a memory, not of an instance.
pub open spec fn is_no_instance(name: Seq<char>) -> bool {
    has_suffix(name, "_COMMON"@) || has_suffix(name, "RAM"@) || has_suffix(name, "RAM1"@)
        || has_suffix(name, "RAM2"@)
}

/// What a peripheral counts as, with its instance number where it has one.
pub open spec fn part_of(p: RawPeripheral) -> (PartKind, u8) {
    let n = p.name@;
    if is_no_instance(n) {
        (PartKind::Skipped, 0)
    } else if number_after(n, "ADC"@) is Some {
        (PartKind::Adc, number_after(n, "ADC"@)->0)
    } else if number_after(n, "DAC"@) is Some {
        (PartKind::Dac, number_after(n, "DAC"@)->0)
    } else if number_after(n, "COMP"@) is Some {
        (PartKind::Comp, number_after(n, "COMP"@)->0)
    } else if number_after(n, "OPAMP"@) is Some {
        (PartKind::Opamp, number_after(n, "OPAMP"@)->0)
    } else if n == "HRTIM"@ || n == "HRTIM1"@ {
        (PartKind::Hrtim, 0)
    } else if timer_of(n, p.block) is Some {
        (PartKind::Timer, timer_of(n, p.block)->0.number)
    } else if number_after(n, "SPI"@) is Some {
        (PartKind::Spi, number_after(n, "SPI"@)->0)
    } else if number_after(n, "I2C"@) is Some {
        (PartKind::I2c, number_after(n, "I2C"@)->0)
    } else if number_after(n, "I3C"@) is Some {
        (PartKind::I3c, number_after(n, "I3C"@)->0)
    } else if number_after(n, "USART"@) is Some {
        (PartKind::Usart, number_after(n, "USART"@)->0)
    } else if number_after(n, "UART"@) is Some {
        (PartKind::Uart, number_after(n, "UART"@)->0)
    } else if n == "LPUART1"@ {
        (PartKind::Lpuart, 1)
    } else if number_after(n, "FDCAN"@) is Some {
        (PartKind::Fdcan, number_after(n, "FDCAN"@)->0)
    } else if number_after(n, "UCPD"@) is Some {
        (PartKind::Ucpd, number_after(n, "UCPD"@)->0)
    } else if n == "USB"@ || n == "USB_OTG_FS"@ || n == "USB_OTG_HS"@ {
        (PartKind::Usb, 0)
    } else if has_prefix(n, "OCTOSPI"@) {
        (PartKind::Octospi, 0)
    } else if has_prefix(n, "SDMMC"@) {
        (PartKind::Sdmmc, 0)
    } else if n == "FMC"@ {
        (PartKind::Fmc, 0)
    } else if n == "HDMI_CEC"@ || n == "CEC"@ {
        (PartKind::Cec, 0)
    } else {
        (PartKind::Other, 0)
    }
}

/// Tell what a peripheral counts as.
fn classify(p: &RawPeripheral) -> (r: (PartKind, u8))
    ensures
        r == part_of(*p),
{
    let name: &'static str = p.name;
    if text::ends_with(name, "_COMMON") || text::ends_with(name, "RAM") || text::ends_with(
        name,
        "RAM1",
    ) || text::ends_with(name, "RAM2") {
        return (PartKind::Skipped, 0);
    }
    if let Some(n) = strip_prefix_num(name, "ADC") {
        return (PartKind::Adc, n);
    }
    if let Some(n) = strip_prefix_num(name, "DAC") {
        return (PartKind::Dac, n);
    }
    if let Some(n) = strip_prefix_num(name, "COMP") {
        return (PartKind::Comp, n);
    }
    if let Some(n) = strip_prefix_num(name, "OPAMP") {
        return (PartKind::Opamp, n);
    }
    if text::same(name, "HRTIM") || text::same(name, "HRTIM1") {
        return (PartKind::Hrtim, 0);
    }
    if let Some(t) = classify_timer(name, p.block) {
        return (PartKind::Timer, t.number);
    }
    if let Some(n) = strip_prefix_num(name, "SPI") {
        return (PartKind::Spi, n);
    }
    if let Some(n) = strip_prefix_num(name, "I2C") {
        return (PartKind::I2c, n);
    }
    if let Some(n) = strip_prefix_num(name, "I3C") {
        return (PartKind::I3c, n);
    }
    if let Some(n) = strip_prefix_num(name, "USART") {
        return (PartKind::Usart, n);
    }
    if let Some(n) = strip_prefix_num(name, "UART") {
        return (PartKind::Uart, n);
    }
    if text::same(name, "LPUART1") {
        return (PartKind::Lpuart, 1);
    }
    if let Some(n) = strip_prefix_num(name, "FDCAN") {
        return (PartKind::Fdcan, n);
    }
    if let Some(n) = strip_prefix_num(name, "UCPD") {
        return (PartKind::Ucpd, n);
    }
    if text::same(name, "USB") || text::same(name, "USB_OTG_FS") || text::same(name, "USB_OTG_HS") {
        return (PartKind::Usb, 0);
    }
    if text::starts_with(name, "OCTOSPI") {
        return (PartKind::Octospi, 0);
    }
    if text::starts_with(name, "SDMMC") {
        return (PartKind::Sdmmc, 0);
    }
    if text::same(name, "FMC") {
        return (PartKind::Fmc, 0);
    }
    if text::same(name, "HDMI_CEC") || text::same(name, "CEC") {
        return (PartKind::Cec, 0);
    }
    (PartKind::Other, 0)
}

/// The instance numbers of one kind among the first `n` peripherals.
pub open spec fn numbers_of(ps: Seq<RawPeripheral>, k: PartKind, n: int) -> Seq<u8>
    decreases n,
{
    if n <= 0 {
        Seq::empty()
    } else if part_of(ps[n - 1]).0 == k {
        numbers_of(ps, k, n - 1).push(part_of(ps[n - 1]).1)
    } else {
        numbers_of(ps, k, n - 1)
    }
}

/// How many of the first `n` pins carry an output signal.
pub open spec fn output_pins(p: RawPeripheral, n: int) -> int
    decreases n,
{
    if n <= 0 {
        0
    } else {
        output_pins(p, n - 1) + (if has_prefix(p.pins@[n - 1].signal@, "OUT"@) {
            1int
        } else {
            0
        })
    }
}

/// The DACs among the first `n` peripherals; the channels of a DAC are its output
/// pins.
pub open spec fn dacs_of(ps: Seq<RawPeripheral>, n: int) -> Seq<DacInstance>
    decreases n,
{
    if n <= 0 {
        Seq::empty()
    } else if part_of(ps[n - 1]).0 == PartKind::Dac {
        dacs_of(ps, n - 1).push(
            DacInstance {
                number: part_of(ps[n - 1]).1,
                channels: output_pins(ps[n - 1], ps[n - 1].pins@.len() as int) as u8,
                fast: false,
            },
        )
    } else {
        dacs_of(ps, n - 1)
    }
}

/// The timers among the first `n` peripherals.
pub open spec fn timers_of(ps: Seq<RawPeripheral>, n: int) -> Seq<TimerInstance>
    decreases n,
{
    if n <= 0 {
        Seq::empty()
    } else if part_of(ps[n - 1]).0 == PartKind::Timer {
        timers_of(ps, n - 1).push(timer_of(ps[n - 1].name@, ps[n - 1].block)->0)
    } else {
        timers_of(ps, n - 1)
    }
}

/// The place of a kind in the order of kinds.
pub open spec fn kind_rank(k: TimerKind) -> u64 {
    match k {
        TimerKind::Advanced => 0,
        TimerKind::General32 => 1,
        TimerKind::General16 => 2,
        TimerKind::Basic => 3,
        TimerKind::LowPower => 4,
    }
}

/// Timers by kind, then by number.
pub open spec fn sorted_timers(v: Seq<TimerInstance>) -> Seq<TimerInstance> {
    picked(
        v,
        order_of(v.map_values(|t: TimerInstance| (kind_rank(t.kind) * 256 + t.number) as u64)),
    )
}

/// DACs by number.
pub open spec fn sorted_dacs(v: Seq<DacInstance>) -> Seq<DacInstance> {
    picked(v, order_of(v.map_values(|d: DacInstance| d.number as u64)))
}

fn sort_timers(v: &[TimerInstance]) -> (r: Vec<TimerInstance>)
    ensures
        r@ == sorted_timers(v@),
{
    let mut keys: Vec<u64> = Vec::new();
    let ghost f = |t: TimerInstance| (kind_rank(t.kind) * 256 + t.number) as u64;
    let mut i: usize = 0;
    while i < v.len()
        invariant
            i <= v@.len(),
            f == (|t: TimerInstance| (kind_rank(t.kind) * 256 + t.number) as u64),
            keys@ =~= v@.map_values(f).take(i as int),
        decreases v@.len() - i,
    {
        let rank: u64 = match v[i].kind {
            TimerKind::Advanced => 0,
            TimerKind::General32 => 1,
            TimerKind::General16 => 2,
            TimerKind::Basic => 3,
            TimerKind::LowPower => 4,
        };
        keys.push(rank * 256 + v[i].number as u64);
        i += 1;
    }
    proof {
        assert(keys@ =~= v@.map_values(f));
    }
    let o: Vec<usize> = order::stable_order(&keys);
    order::pick(v, &o)
}

fn sort_dacs(v: &[DacInstance]) -> (r: Vec<DacInstance>)
    ensures
        r@ == sorted_dacs(v@),
{
    let mut keys: Vec<u64> = Vec::new();
    let ghost f = |d: DacInstance| d.number as u64;
    let mut i: usize = 0;
    while i < v.len()
        invariant
            i <= v@.len(),
            f == (|d: DacInstance| d.number as u64),
            keys@ =~= v@.map_values(f).take(i as int),
        decreases v@.len() - i,
    {
        keys.push(v[i].number as u64);
        i += 1;
    }
    proof {
        assert(keys@ =~= v@.map_values(f));
    }
    let o: Vec<usize> = order::stable_order(&keys);
    order::pick(v, &o)
}

/// Whether one of the first `n` peripherals is of the kind.
pub open spec fn any_of(ps: Seq<RawPeripheral>, k: PartKind, n: int) -> bool {
    exists|i: int| 0 <= i < n && (#[trigger] part_of(ps[i])).0 == k
}

/// The number, at most 255, of OCTOSPI peripherals among the first `n`.
pub open spec fn octospi_count(ps: Seq<RawPeripheral>, n: int) -> int
    decreases n,
{
    if n <= 0 {
        0
    } else if part_of(ps[n - 1]).0 == PartKind::Octospi && octospi_count(ps, n - 1) < 255 {
        octospi_count(ps, n - 1) + 1
    } else {
        octospi_count(ps, n - 1)
    }
}

/// The numbers of a list of ADCs.
pub open spec fn adc_numbers(v: Seq<AdcInstance>) -> Seq<u8> {
    v.map_values(|a: AdcInstance| a.number)
}

/// `c` counts the communication peripherals of the first `n` peripherals.
pub open spec fn comms_of(c: CommsInventory, ps: Seq<RawPeripheral>, n: int) -> bool {
    &&& c.spi@ == sorted_bytes(numbers_of(ps, PartKind::Spi, n))
    &&& c.i2c@ == sorted_bytes(numbers_of(ps, PartKind::I2c, n))
    &&& c.i3c@ == sorted_bytes(numbers_of(ps, PartKind::I3c, n))
    &&& c.usart@ == sorted_bytes(numbers_of(ps, PartKind::Usart, n))
    &&& c.uart@ == sorted_bytes(numbers_of(ps, PartKind::Uart, n))
    &&& c.lpuart@ == numbers_of(ps, PartKind::Lpuart, n)
    &&& c.fdcan@ == sorted_bytes(numbers_of(ps, PartKind::Fdcan, n))
    &&& c.ucpd@ == sorted_bytes(numbers_of(ps, PartKind::Ucpd, n))
    &&& c.has_usb == any_of(ps, PartKind::Usb, n)
    &&& c.octospi == octospi_count(ps, n)
    &&& c.has_sdmmc == any_of(ps, PartKind::Sdmmc, n)
    &&& c.has_fmc == any_of(ps, PartKind::Fmc, n)
    &&& c.has_hdmi_cec == any_of(ps, PartKind::Cec, n)
}

/// The part of a descriptor that does not depend on the family.
pub open spec fn common_part(d: McuDescriptor, mcu: Mcu, package: Package, raw: RawMcuData) -> bool {
    let ps = raw.peripherals@;
    let n = ps.len() as int;
    &&& d.mcu == mcu
    &&& d.package == package
    &&& d.name == raw.name
    &&& d.family == raw.family
    &&& *d.raw == raw
    &&& d.timers@ == sorted_timers(timers_of(ps, n))
    &&& adc_numbers(d.adcs@) == sorted_bytes(numbers_of(ps, PartKind::Adc, n))
    &&& d.comps@ == sorted_bytes(numbers_of(ps, PartKind::Comp, n)).map_values(
        |x: u8| CompInstance { number: x },
    )
    &&& d.opamps@ == sorted_bytes(numbers_of(ps, PartKind::Opamp, n)).map_values(
        |x: u8| OpampInstance { number: x },
    )
    &&& comms_of(d.comms, ps, n)
}

/// `d` is the plain inventory of the tables: no fast channels, no routes.
pub open spec fn inventories(d: McuDescriptor, mcu: Mcu, package: Package, raw: RawMcuData) -> bool {
    &&& common_part(d, mcu, package, raw)
    &&& forall|i: int| 0 <= i < d.adcs@.len() ==> (#[trigger] d.adcs@[i]).fast_channels@.len() == 0
    &&& d.dacs@ == sorted_dacs(dacs_of(raw.peripherals@, raw.peripherals@.len() as int))
    &&& d.edges@.len() == 0
    &&& d.hrtim is None
    &&& d.fabric is None
}

/// The G474's DAC3 and DAC4 are internal two-channel converters without output
/// pins.
pub open spec fn g474_dac(d: DacInstance) -> DacInstance {
    if d.number == 3 || d.number == 4 {
        DacInstance { number: d.number, channels: 2, fast: true }
    } else {
        d
    }
}

/// The size of the G474's high-resolution timer.
pub open spec fn g474_hrtim() -> HrtimFabric {
    HrtimFabric { sub_timer_count: 6, eev_count: 10, flt_count: 6, adc_trigger_count: 10 }
}

/// The edges of a fabric's DAC to comparator table.
pub open spec fn edges_of(rows: Seq<(u8, u8, u8)>) -> Seq<PeripheralEdge> {
    rows.map_values(|row: (u8, u8, u8)| edge_of(row))
}

/// The G474's DAC to comparator table, by DAC channel.
pub open spec fn g4_dac_to_comp_table() -> Seq<(u8, u8, u8)> {
    seq![
        (1u8, 1u8, 1u8),
        (1u8, 1u8, 3u8),
        (1u8, 1u8, 4u8),
        (1u8, 2u8, 2u8),
        (1u8, 2u8, 5u8),
        (2u8, 1u8, 6u8),
        (2u8, 1u8, 7u8),
        (3u8, 1u8, 1u8),
        (3u8, 1u8, 3u8),
        (3u8, 2u8, 2u8),
        (3u8, 2u8, 4u8),
        (4u8, 1u8, 5u8),
        (4u8, 1u8, 7u8),
        (4u8, 2u8, 6u8),
    ]
}

/// The G474's comparator to external-event table.
pub open spec fn g4_comp_to_eev_table() -> Seq<(u8, u8)> {
    seq![
        (1u8, 4u8),
        (1u8, 6u8),
        (2u8, 1u8),
        (2u8, 6u8),
        (3u8, 5u8),
        (3u8, 8u8),
        (4u8, 2u8),
        (4u8, 7u8),
        (4u8, 9u8),
        (5u8, 4u8),
        (5u8, 9u8),
        (6u8, 3u8),
        (6u8, 8u8),
        (7u8, 5u8),
        (7u8, 10u8),
    ]
}

/// The G474's comparator to fault-input table.
pub open spec fn g4_comp_to_flt_table() -> Seq<(u8, u8)> {
    seq![
        (1u8, 1u8),
        (1u8, 4u8),
        (2u8, 2u8),
        (2u8, 5u8),
        (3u8, 3u8),
        (3u8, 4u8),
        (4u8, 1u8),
        (4u8, 6u8),
        (5u8, 2u8),
        (5u8, 5u8),
        (6u8, 3u8),
        (6u8, 6u8),
        (7u8, 6u8),
    ]
}

/// The numeric table and the typed routes say the same: a row `(i, c, k)` is there
/// exactly when the DAC channel reaches the comparator.
pub proof fn g4_tables_agree(dac: g474::DacId, comp: g474::CompId)
    ensures
        g474::comps_of_dac(dac).contains(comp) <==> g4_dac_to_comp_table().contains(
            (g474::dac_instance(dac), g474::dac_channel(dac), g474::comp_nr(comp)),
        ),
{
    let t = g4_dac_to_comp_table();
    assert(t[0] == (1u8, 1u8, 1u8) && t[1] == (1u8, 1u8, 3u8) && t[2] == (1u8, 1u8, 4u8));
    assert(t[3] == (1u8, 2u8, 2u8) && t[4] == (1u8, 2u8, 5u8));
    assert(t[5] == (2u8, 1u8, 6u8) && t[6] == (2u8, 1u8, 7u8));
    assert(t[7] == (3u8, 1u8, 1u8) && t[8] == (3u8, 1u8, 3u8));
    assert(t[9] == (3u8, 2u8, 2u8) && t[10] == (3u8, 2u8, 4u8));
    assert(t[11] == (4u8, 1u8, 5u8) && t[12] == (4u8, 1u8, 7u8) && t[13] == (4u8, 2u8, 6u8));
    let s = g474::comps_of_dac(dac);
    assert(s.len() >= 1 ==> s.contains(s[0]));
    assert(s.len() >= 2 ==> s.contains(s[1]));
    assert(s.len() >= 3 ==> s.contains(s[2]));
}

/// The G474's routes.
pub open spec fn is_g4_fabric(f: ChipFabric) -> bool {
    &&& f.dac_to_comp@ == g4_dac_to_comp_table()
    &&& f.comp_to_eev@ == g4_comp_to_eev_table()
    &&& f.comp_to_flt@ == g4_comp_to_flt_table()
    &&& f.comp_to_tim_break@.len() == 0
}

/// The C531's routes: no high-resolution timer; comparators trip the timers' break
/// inputs.
pub open spec fn is_c5_fabric(f: ChipFabric) -> bool {
    &&& f.dac_to_comp@ == c5_dac_to_comp_table()
    &&& f.comp_to_eev@.len() == 0
    &&& f.comp_to_flt@.len() == 0
    &&& f.comp_to_tim_break@ == c5_comp_to_tim_break_table()
}

/// `d` is the descriptor of a part.
pub open spec fn describes(d: McuDescriptor, pkg: Package) -> bool {
    let raw = *pkg.info.raw;
    let mcu = pkg.info.mcu;
    let plain = sorted_dacs(dacs_of(raw.peripherals@, raw.peripherals@.len() as int));
    let fast: Seq<u8> = if mcu == Mcu::G474 {
        seq![1u8, 2u8, 3u8, 4u8, 5u8]
    } else {
        Seq::empty()
    };
    &&& common_part(d, mcu, pkg, raw)
    &&& forall|i: int| 0 <= i < d.adcs@.len() ==> (#[trigger] d.adcs@[i]).fast_channels@ == fast
    &&& match mcu {
        Mcu::G474 => {
            &&& d.dacs@ == plain.map_values(|x: DacInstance| g474_dac(x))
            &&& d.fabric is Some
            &&& is_g4_fabric(d.fabric->0)
            &&& d.edges@ == edges_of(g4_dac_to_comp_table())
            &&& d.hrtim == Some(g474_hrtim())
        },
        Mcu::C531 => {
            &&& d.dacs@ == plain
            &&& d.fabric is Some
            &&& is_c5_fabric(d.fabric->0)
            &&& d.edges@ == edges_of(c5_dac_to_comp_table())
            &&& d.hrtim is None
        },
        _ => {
            &&& d.dacs@ == plain
            &&& d.fabric is None
            &&& d.edges@.len() == 0
            &&& d.hrtim is None
        },
    }
}

/// The G474's routes.
pub fn g4_fabric() -> (r: ChipFabric)
    ensures
        is_g4_fabric(r),
{
    let r = ChipFabric {
        dac_to_comp: vec![
            (1u8, 1u8, 1u8),
            (1u8, 1u8, 3u8),
            (1u8, 1u8, 4u8),
            (1u8, 2u8, 2u8),
            (1u8, 2u8, 5u8),
            (2u8, 1u8, 6u8),
            (2u8, 1u8, 7u8),
            (3u8, 1u8, 1u8),
            (3u8, 1u8, 3u8),
            (3u8, 2u8, 2u8),
            (3u8, 2u8, 4u8),
            (4u8, 1u8, 5u8),
            (4u8, 1u8, 7u8),
            (4u8, 2u8, 6u8),
        ],
        comp_to_eev: vec![
            (1u8, 4u8),
            (1u8, 6u8),
            (2u8, 1u8),
            (2u8, 6u8),
            (3u8, 5u8),
            (3u8, 8u8),
            (4u8, 2u8),
            (4u8, 7u8),
            (4u8, 9u8),
            (5u8, 4u8),
            (5u8, 9u8),
            (6u8, 3u8),
            (6u8, 8u8),
            (7u8, 5u8),
            (7u8, 10u8),
        ],
        comp_to_flt: vec![
            (1u8, 1u8),
            (1u8, 4u8),
            (2u8, 2u8),
            (2u8, 5u8),
            (3u8, 3u8),
            (3u8, 4u8),
            (4u8, 1u8),
            (4u8, 6u8),
            (5u8, 2u8),
            (5u8, 5u8),
            (6u8, 3u8),
            (6u8, 6u8),
            (7u8, 6u8),
        ],
        comp_to_tim_break: Vec::new(),
    };
    proof {
        assert(r.dac_to_comp@ =~= g4_dac_to_comp_table());
        assert(r.comp_to_eev@ =~= g4_comp_to_eev_table());
        assert(r.comp_to_flt@ =~= g4_comp_to_flt_table());
    }
    r
}

/// The C531's routes.
pub fn c5_fabric() -> (r: ChipFabric)
    ensures
        is_c5_fabric(r),
{
    ChipFabric {
        dac_to_comp: fabric_data_c5::c5_dac_to_comp(),
        comp_to_eev: Vec::new(),
        comp_to_flt: Vec::new(),
        comp_to_tim_break: fabric_data_c5::c5_comp_to_tim_break(),
    }
}

/// The edges of a fabric's DAC to comparator table.
fn dac_to_comp_edges(fabric: &ChipFabric) -> (r: Vec<PeripheralEdge>)
    ensures
        r@ == edges_of(fabric.dac_to_comp@),
{
    let rows: &Vec<(u8, u8, u8)> = &fabric.dac_to_comp;
    let mut out: Vec<PeripheralEdge> = Vec::new();
    let mut i: usize = 0;
    while i < rows.len()
        invariant
            i <= rows@.len(),
            out@ =~= edges_of(rows@).take(i as int),
        decreases rows@.len() - i,
    {
        let row: (u8, u8, u8) = rows[i];
        out.push(
            PeripheralEdge {
                from: PeripheralRef { kind: PeripheralKind::Dac, instance: row.0, channel: row.1 },
                to: PeripheralRef { kind: PeripheralKind::Comp, instance: row.2, channel: 0 },
                kind: EdgeKind::DacToComp,
            },
        );
        proof {
            assert(edges_of(rows@)[i as int] == edge_of(rows@[i as int]));
        }
        i += 1;
    }
    proof {
        assert(out@ =~= edges_of(rows@));
    }
    out
}

/// ADCs of the given numbers, each with the given fast channels 1 to 5 or none.
fn adcs_numbered(numbers: &[u8], fast: bool) -> (r: Vec<AdcInstance>)
    ensures
        adc_numbers(r@) == numbers@,
        forall|i: int|
            0 <= i < r@.len() ==> (#[trigger] r@[i]).fast_channels@ == (if fast {
                seq![1u8, 2u8, 3u8, 4u8, 5u8]
            } else {
                Seq::empty()
            }),
{
    let mut out: Vec<AdcInstance> = Vec::new();
    let mut i: usize = 0;
    while i < numbers.len()
        invariant
            i <= numbers@.len(),
            out@.len() == i,
            forall|j: int| 0 <= j < i ==> (#[trigger] out@[j]).number == numbers@[j],
            forall|j: int|
                0 <= j < i ==> (#[trigger] out@[j]).fast_channels@ == (if fast {
                    seq![1u8, 2u8, 3u8, 4u8, 5u8]
                } else {
                    Seq::empty()
                }),
        decreases numbers@.len() - i,
    {
        let channels: Vec<u8> = if fast {
            vec![1u8, 2u8, 3u8, 4u8, 5u8]
        } else {
            Vec::new()
        };
        proof {
            assert(channels@ =~= (if fast {
                seq![1u8, 2u8, 3u8, 4u8, 5u8]
            } else {
                Seq::empty()
            }));
        }
        out.push(AdcInstance { number: numbers[i], fast_channels: channels });
        i += 1;
    }
    proof {
        assert(adc_numbers(out@) =~= numbers@);
    }
    out
}

/// The numbers of a list of ADCs.
fn numbers_in(adcs: &[AdcInstance]) -> (r: Vec<u8>)
    ensures
        r@ == adc_numbers(adcs@),
{
    let mut out: Vec<u8> = Vec::new();
    let mut i: usize = 0;
    while i < adcs.len()
        invariant
            i <= adcs@.len(),
            out@ =~= adc_numbers(adcs@).take(i as int),
        decreases adcs@.len() - i,
    {
        out.push(adcs[i].number);
        i += 1;
    }
    proof {
        assert(out@ =~= adc_numbers(adcs@));
    }
    out
}

fn build_descriptor(pkg: Package) -> (r: McuDescriptor)
    ensures
        describes(r, pkg),
{
    let mcu: Mcu = pkg.mcu();
    let mut d: McuDescriptor = build_inventory(mcu, pkg, pkg.raw());
    match mcu {
        Mcu::G474 => {
            let numbers: Vec<u8> = numbers_in(&d.adcs);
            d.adcs = adcs_numbered(&numbers, true);
            let plain: Vec<DacInstance> = d.dacs;
            let ghost f = |x: DacInstance| g474_dac(x);
            let mut dacs: Vec<DacInstance> = Vec::new();
            let mut i: usize = 0;
            while i < plain.len()
                invariant
                    i <= plain@.len(),
                    f == (|x: DacInstance| g474_dac(x)),
                    dacs@ =~= plain@.map_values(f).take(i as int),
                decreases plain@.len() - i,
            {
                let x: DacInstance = plain[i];
                if x.number == 3 || x.number == 4 {
                    dacs.push(DacInstance { number: x.number, channels: 2, fast: true });
                } else {
                    dacs.push(x);
                }
                i += 1;
            }
            proof {
                assert(dacs@ =~= plain@.map_values(f));
            }
            d.dacs = dacs;
            let fabric: ChipFabric = g4_fabric();
            d.edges = dac_to_comp_edges(&fabric);
            d.fabric = Some(fabric);
            d.hrtim = Some(
                HrtimFabric {
                    sub_timer_count: 6,
                    eev_count: 10,
                    flt_count: 6,
                    adc_trigger_count: 10,
                },
            );
        },
        Mcu::C531 => {
            let fabric: ChipFabric = c5_fabric();
            d.edges = dac_to_comp_edges(&fabric);
            d.fabric = Some(fabric);
        },
        Mcu::H523 | Mcu::C5A3 => {},
    }
    proof {
        if mcu != Mcu::G474 {
            assert forall|i: int| 0 <= i < d.adcs@.len() implies (
            #[trigger] d.adcs@[i]).fast_channels@ == Seq::<u8>::empty() by {
                assert(d.adcs@[i].fast_channels@ =~= Seq::<u8>::empty());
            }
        }
    }
    d
}

/// The inventory and DMA tables of an arbitrary part: no analog routes. The family
/// is a placeholder, and so is the package, which the caller names.
pub fn build_asset_descriptor(raw: &'static RawMcuData, placeholder: Package) -> (r: McuDescriptor)
    ensures
        inventories(r, Mcu::G474, placeholder, *raw),
{
    build_inventory(Mcu::G474, placeholder, raw)
}

/// Count how many pins of a DAC are outputs.
fn count_outputs(p: &RawPeripheral) -> (r: u8)
    ensures
        r == output_pins(*p, p.pins@.len() as int) as u8,
{
    let mut n: usize = 0;
    let mut i: usize = 0;
    while i < p.pins.len()
        invariant
            i <= p.pins@.len(),
            n <= i,
            n == output_pins(*p, i as int),
        decreases p.pins@.len() - i,
    {
        if text::starts_with(p.pins[i].signal, "OUT") {
            n += 1;
        }
        i += 1;
    }
    #[verifier::truncate]
    let r: u8 = n as u8;
    r
}

fn build_inventory(mcu: Mcu, package: Package, raw: &'static RawMcuData) -> (r: McuDescriptor)
    ensures
        inventories(r, mcu, package, *raw),
{
    let ps: &'static [RawPeripheral] = raw.peripherals;
    let mut timers: Vec<TimerInstance> = Vec::new();
    let mut adcs: Vec<u8> = Vec::new();
    let mut dacs: Vec<DacInstance> = Vec::new();
    let mut comps: Vec<u8> = Vec::new();
    let mut opamps: Vec<u8> = Vec::new();
    let mut spi: Vec<u8> = Vec::new();
    let mut i2c: Vec<u8> = Vec::new();
    let mut i3c: Vec<u8> = Vec::new();
    let mut usart: Vec<u8> = Vec::new();
    let mut uart: Vec<u8> = Vec::new();
    let mut lpuart: Vec<u8> = Vec::new();
    let mut fdcan: Vec<u8> = Vec::new();
    let mut ucpd: Vec<u8> = Vec::new();
    let mut has_usb: bool = false;
    let mut octospi: u8 = 0;
    let mut has_sdmmc: bool = false;
    let mut has_fmc: bool = false;
    let mut has_hdmi_cec: bool = false;
    let mut i: usize = 0;
    while i < ps.len()
        invariant
            i <= ps@.len(),
            timers@ == timers_of(ps@, i as int),
            adcs@ == numbers_of(ps@, PartKind::Adc, i as int),
            dacs@ == dacs_of(ps@, i as int),
            comps@ == numbers_of(ps@, PartKind::Comp, i as int),
            opamps@ == numbers_of(ps@, PartKind::Opamp, i as int),
            spi@ == numbers_of(ps@, PartKind::Spi, i as int),
            i2c@ == numbers_of(ps@, PartKind::I2c, i as int),
            i3c@ == numbers_of(ps@, PartKind::I3c, i as int),
            usart@ == numbers_of(ps@, PartKind::Usart, i as int),
            uart@ == numbers_of(ps@, PartKind::Uart, i as int),
            lpuart@ == numbers_of(ps@, PartKind::Lpuart, i as int),
            fdcan@ == numbers_of(ps@, PartKind::Fdcan, i as int),
            ucpd@ == numbers_of(ps@, PartKind::Ucpd, i as int),
            has_usb == any_of(ps@, PartKind::Usb, i as int),
            octospi == octospi_count(ps@, i as int),
            has_sdmmc == any_of(ps@, PartKind::Sdmmc, i as int),
            has_fmc == any_of(ps@, PartKind::Fmc, i as int),
            has_hdmi_cec == any_of(ps@, PartKind::Cec, i as int),
        decreases ps@.len() - i,
    {
        let p: &RawPeripheral = &ps[i];
        let (kind, n): (PartKind, u8) = classify(p);
        proof {
            assert(part_of(ps@[i as int]).0 == kind);
        }
        match kind {
            PartKind::Adc => {
                adcs.push(n);
            },
            PartKind::Dac => {
                let channels: u8 = count_outputs(p);
                dacs.push(DacInstance { number: n, channels, fast: false });
            },
            PartKind::Comp => {
                comps.push(n);
            },
            PartKind::Opamp => {
                opamps.push(n);
            },
            PartKind::Timer => {
                if let Some(t) = classify_timer(p.name, p.block) {
                    timers.push(t);
                }
            },
            PartKind::Spi => {
                spi.push(n);
            },
            PartKind::I2c => {
                i2c.push(n);
            },
            PartKind::I3c => {
                i3c.push(n);
            },
            PartKind::Usart => {
                usart.push(n);
            },
            PartKind::Uart => {
                uart.push(n);
            },
            PartKind::Lpuart => {
                lpuart.push(n);
            },
            PartKind::Fdcan => {
                fdcan.push(n);
            },
            PartKind::Ucpd => {
                ucpd.push(n);
            },
            PartKind::Usb => {
                has_usb = true;
            },
            PartKind::Octospi => {
                if octospi < 255 {
                    octospi = octospi + 1;
                }
            },
            PartKind::Sdmmc => {
                has_sdmmc = true;
            },
            PartKind::Fmc => {
                has_fmc = true;
            },
            PartKind::Cec => {
                has_hdmi_cec = true;
            },
            PartKind::Skipped | PartKind::Hrtim | PartKind::Other => {},
        }
        proof {
            any_of_step(ps@, PartKind::Usb, i as int);
            any_of_step(ps@, PartKind::Sdmmc, i as int);
            any_of_step(ps@, PartKind::Fmc, i as int);
            any_of_step(ps@, PartKind::Cec, i as int);
        }
        i += 1;
    }
    let adc_order: Vec<u8> = order::sort_bytes(&adcs);
    let comp_order: Vec<u8> = order::sort_bytes(&comps);
    let opamp_order: Vec<u8> = order::sort_bytes(&opamps);
    let mut comp_list: Vec<CompInstance> = Vec::new();
    let ghost fc = |x: u8| CompInstance { number: x };
    let ghost fo = |x: u8| OpampInstance { number: x };
    let mut k: usize = 0;
    while k < comp_order.len()
        invariant
            k <= comp_order@.len(),
            fc == (|x: u8| CompInstance { number: x }),
            comp_list@ =~= comp_order@.map_values(fc).take(k as int),
        decreases comp_order@.len() - k,
    {
        comp_list.push(CompInstance { number: comp_order[k] });
        k += 1;
    }
    let mut opamp_list: Vec<OpampInstance> = Vec::new();
    let mut m: usize = 0;
    while m < opamp_order.len()
        invariant
            m <= opamp_order@.len(),
            fo == (|x: u8| OpampInstance { number: x }),
            opamp_list@ =~= opamp_order@.map_values(fo).take(m as int),
        decreases opamp_order@.len() - m,
    {
        opamp_list.push(OpampInstance { number: opamp_order[m] });
        m += 1;
    }
    proof {
        assert(comp_list@ =~= comp_order@.map_values(fc));
        assert(opamp_list@ =~= opamp_order@.map_values(fo));
    }
    McuDescriptor {
        mcu,
        package,
        name: raw.name,
        family: raw.family,
        timers: sort_timers(&timers),
        adcs: adcs_numbered(&adc_order, false),
        dacs: sort_dacs(&dacs),
        comps: comp_list,
        opamps: opamp_list,
        comms: CommsInventory {
            spi: order::sort_bytes(&spi),
            i2c: order::sort_bytes(&i2c),
            i3c: order::sort_bytes(&i3c),
            usart: order::sort_bytes(&usart),
            uart: order::sort_bytes(&uart),
            lpuart,
            fdcan: order::sort_bytes(&fdcan),
            ucpd: order::sort_bytes(&ucpd),
            has_usb,
            octospi,
            has_sdmmc,
            has_fmc,
            has_hdmi_cec,
        },
        edges: Vec::new(),
        hrtim: None,
        fabric: None,
        raw,
    }
}

proof fn any_of_step(ps: Seq<RawPeripheral>, k: PartKind, n: int)
    requires
        0 <= n < ps.len(),
    ensures
        any_of(ps, k, n + 1) == (any_of(ps, k, n) || part_of(ps[n]).0 == k),
{
    if any_of(ps, k, n) {
        let i = choose|i: int| 0 <= i < n && (#[trigger] part_of(ps[i])).0 == k;
        assert(part_of(ps[i]).0 == k);
    }
    if part_of(ps[n]).0 == k {
        assert(any_of(ps, k, n + 1));
    }
}

} // verus!
