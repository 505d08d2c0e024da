//! Descriptors of the whole lineup, from the data that ships with the program: one entry
//! per line and package letter, kept for the rest of the run.

use vstd::prelude::*;

use crate::mcu;
use crate::mcu::chip_key;
use crate::mcu::inventories;
use crate::mcu::Mcu;
use crate::mcu::McuDescriptor;
use crate::mcu::Package;
use crate::mcu_raw::DmaPoolDef;
use crate::mcu_raw::RawDmaLeg;
use crate::mcu_raw::RawMcuData;
use crate::mcu_raw::RawPeripheral;
use crate::mcu_raw::RawPin;
use crate::mcu_raw::RawTrigger;
use crate::text;
use crate::text::has_prefix;
use crate::text::str_views;
use crate::text::views;
use crate::texts::copy_text;
use std::io::Read;
use vstd::utf8::encode_utf8;
use vstd::utf8::is_char_boundary;

verus! {

/// What a gzip stream holds; `None` where it is no such stream.
pub uninterp spec fn inflated(gz: Seq<u8>) -> Option<Seq<u8>>;

/// `flate2::read::GzDecoder`, read to its end: what the stream holds, or nothing where
/// the decoder reports an error.
#[verifier::external_body]
fn gunzip(gz: &[u8]) -> (r: Option<Vec<u8>>)
    ensures
        r is Some <==> inflated(gz@) is Some,
        r matches Some(v) ==> inflated(gz@) == Some(v@),
{
    let mut out: Vec<u8> = Vec::new();
    match flate2::read::GzDecoder::new(gz).read_to_end(&mut out) {
        Ok(_) => Some(out),
        Err(_) => None,
    }
}

/// The data of a packed asset, where it can be unpacked.
pub fn inflate(gz: &[u8]) -> (r: Option<Vec<u8>>)
    ensures
        r is Some <==> inflated(gz@) is Some,
        r matches Some(v) ==> inflated(gz@) == Some(v@),
{
    gunzip(gz)
}

/// One peripheral of a part.
#[derive(Clone, Debug)]
pub struct AssetPeri {
    /// Name.
    pub n: String,
    /// Address.
    pub a: u64,
    /// Register block.
    pub b: Option<String>,
    /// Pin, signal and alternate function.
    pub pins: Vec<(String, String, Option<u8>)>,
    /// Signal and the DMA pools it may use.
    pub dma: Vec<(String, Vec<String>)>,
}

/// One line and package letter.
#[derive(Clone, Debug)]
pub struct AssetPart {
    /// What the names of its parts start with, e.g. "STM32G474R".
    pub prefix: String,
    /// The name of a part of it, e.g. "STM32G474RE".
    pub name: String,
    pub family: String,
    pub package: String,
    pub peris: Vec<AssetPeri>,
    /// DMA pools and their channel counts.
    pub pools: Vec<(String, u8)>,
}

/// Whether a pin table's row is the asset's.
pub open spec fn is_pin(r: RawPin, p: (String, String, Option<u8>)) -> bool {
    r.pin@ == p.0@ && r.signal@ == p.1@ && r.af == p.2
}

/// Whether a DMA leg is the asset's.
pub open spec fn is_leg(l: RawDmaLeg, d: (String, Vec<String>)) -> bool {
    l.signal@ == d.0@ && str_views(l.pools@) == views(d.1@)
}

/// Whether a peripheral is the asset's; triggers are not known there.
pub open spec fn is_peri(r: RawPeripheral, p: AssetPeri) -> bool {
    &&& r.name@ == p.n@
    &&& r.address == p.a
    &&& r.block is Some <==> p.b is Some
    &&& r.block matches Some(b) ==> b@ == p.b->0@
    &&& r.triggers@.len() == 0
    &&& r.pins@.len() == p.pins@.len()
    &&& forall|i: int| 0 <= i < r.pins@.len() ==> is_pin(#[trigger] r.pins@[i], p.pins@[i])
    &&& r.dma@.len() == p.dma@.len()
    &&& forall|i: int| 0 <= i < r.dma@.len() ==> is_leg(#[trigger] r.dma@[i], p.dma@[i])
}

/// Whether a chip's tables are the asset's.
pub open spec fn is_raw(r: RawMcuData, p: AssetPart) -> bool {
    &&& r.name@ == p.name@
    &&& r.family@ == p.family@
    &&& r.peripherals@.len() == p.peris@.len()
    &&& forall|i: int|
        0 <= i < r.peripherals@.len() ==> is_peri(#[trigger] r.peripherals@[i], p.peris@[i])
    &&& r.dma_pools@.len() == p.pools@.len()
    &&& forall|i: int|
        0 <= i < r.dma_pools@.len() ==> (#[trigger] r.dma_pools@[i]).name@ == p.pools@[i].0@
            && r.dma_pools@[i].channels == p.pools@[i].1
}

/// `String::leak`: the same text, for the rest of the run.
#[verifier::external_body]
fn leak_str(s: String) -> (r: &'static str)
    ensures
        r@ == s@,
{
    s.leak()
}

/// `Vec::leak`: the same items, for the rest of the run.
#[verifier::external_body]
pub(crate) fn leak_items<T: 'static>(v: Vec<T>) -> (r: &'static [T])
    ensures
        r@ == v@,
{
    v.leak()
}

fn leak_copy(s: &str) -> (r: &'static str)
    ensures
        r@ == s@,
{
    leak_str(copy_text(s))
}

fn leak_pins(pins: &[(String, String, Option<u8>)]) -> (r: &'static [RawPin])
    ensures
        r@.len() == pins@.len(),
        forall|i: int| 0 <= i < r@.len() ==> is_pin(#[trigger] r@[i], pins@[i]),
{
    let mut out: Vec<RawPin> = Vec::new();
    let mut i: usize = 0;
    while i < pins.len()
        invariant
            i <= pins@.len(),
            out@.len() == i,
            forall|k: int| 0 <= k < i ==> is_pin(#[trigger] out@[k], pins@[k]),
        decreases pins@.len() - i,
    {
        out.push(
            RawPin {
                pin: leak_copy(pins[i].0.as_str()),
                signal: leak_copy(pins[i].1.as_str()),
                af: pins[i].2,
            },
        );
        i += 1;
    }
    leak_items(out)
}

fn leak_names(names: &[String]) -> (r: &'static [&'static str])
    ensures
        str_views(r@) == views(names@),
{
    let mut out: Vec<&'static str> = Vec::new();
    let mut i: usize = 0;
    while i < names.len()
        invariant
            i <= names@.len(),
            out@.len() == i,
            forall|k: int| 0 <= k < i ==> (#[trigger] out@[k])@ == names@[k]@,
        decreases names@.len() - i,
    {
        out.push(leak_copy(names[i].as_str()));
        i += 1;
    }
    let r: &'static [&'static str] = leak_items(out);
    proof {
        assert(str_views(r@) =~= views(names@));
    }
    r
}

fn leak_legs(legs: &[(String, Vec<String>)]) -> (r: &'static [RawDmaLeg])
    ensures
        r@.len() == legs@.len(),
        forall|i: int| 0 <= i < r@.len() ==> is_leg(#[trigger] r@[i], legs@[i]),
{
    let mut out: Vec<RawDmaLeg> = Vec::new();
    let mut i: usize = 0;
    while i < legs.len()
        invariant
            i <= legs@.len(),
            out@.len() == i,
            forall|k: int| 0 <= k < i ==> is_leg(#[trigger] out@[k], legs@[k]),
        decreases legs@.len() - i,
    {
        out.push(
            RawDmaLeg { signal: leak_copy(legs[i].0.as_str()), pools: leak_names(&legs[i].1) },
        );
        i += 1;
    }
    leak_items(out)
}

fn leak_peri(p: &AssetPeri) -> (r: RawPeripheral)
    ensures
        is_peri(r, *p),
{
    let none: Vec<RawTrigger> = Vec::new();
    RawPeripheral {
        name: leak_copy(p.n.as_str()),
        address: p.a,
        block: match &p.b {
            Some(b) => Some(leak_copy(b.as_str())),
            None => None,
        },
        pins: leak_pins(&p.pins),
        triggers: leak_items(none),
        dma: leak_legs(&p.dma),
    }
}

/// The tables of a part, for the rest of the run.
pub fn leak_raw(p: AssetPart) -> (r: &'static RawMcuData)
    ensures
        is_raw(*r, p),
{
    leak_part(&p)
}

fn leak_part(p: &AssetPart) -> (r: &'static RawMcuData)
    ensures
        is_raw(*r, *p),
{
    let mut peripherals: Vec<RawPeripheral> = Vec::new();
    let mut i: usize = 0;
    while i < p.peris.len()
        invariant
            i <= p.peris@.len(),
            peripherals@.len() == i,
            forall|k: int| 0 <= k < i ==> is_peri(#[trigger] peripherals@[k], p.peris@[k]),
        decreases p.peris@.len() - i,
    {
        peripherals.push(leak_peri(&p.peris[i]));
        i += 1;
    }
    let mut pools: Vec<DmaPoolDef> = Vec::new();
    let mut j: usize = 0;
    while j < p.pools.len()
        invariant
            j <= p.pools@.len(),
            pools@.len() == j,
            forall|k: int|
                0 <= k < j ==> (#[trigger] pools@[k]).name@ == p.pools@[k].0@ && pools@[k].channels
                    == p.pools@[k].1,
        decreases p.pools@.len() - j,
    {
        pools.push(DmaPoolDef { name: leak_copy(p.pools[j].0.as_str()), channels: p.pools[j].1 });
        j += 1;
    }
    let raw: RawMcuData = RawMcuData {
        name: leak_copy(p.name.as_str()),
        family: leak_copy(p.family.as_str()),
        peripherals: leak_items(peripherals),
        dma_pools: leak_items(pools),
    };
    let mut one: Vec<RawMcuData> = Vec::new();
    one.push(raw);
    let all: &'static [RawMcuData] = leak_items(one);
    &all[0]
}

/// A prefix and its descriptor.
pub struct AssetEntry {
    pub prefix: String,
    pub desc: McuDescriptor,
}

/// The descriptors of the lineup.
pub struct AssetRegistry {
    pub entries: Vec<AssetEntry>,
}

/// Whether a part is the last of its prefix among the first `n`.
pub open spec fn is_last(parts: Seq<AssetPart>, k: int, n: int) -> bool {
    0 <= k < n && forall|j: int| k < j < n ==> (#[trigger] parts[j]).prefix@ != parts[k].prefix@
}

/// Whether an entry describes a part.
#[verifier::opaque]
pub open spec fn describes_part(e: AssetEntry, p: AssetPart, placeholder: Package) -> bool {
    e.prefix@ == p.prefix@ && is_raw(*e.desc.raw, p) && inventories(
        e.desc,
        Mcu::G474,
        placeholder,
        *e.desc.raw,
    )
}

/// Whether no two entries have one prefix.
pub open spec fn prefixes_differ(v: Seq<AssetEntry>) -> bool {
    forall|i: int, j: int|
        #![trigger v[i], v[j]]
        0 <= i < j < v.len() ==> v[i].prefix@ != v[j].prefix@
}

/// Whether some entry has the prefix.
pub open spec fn has_entry(v: Seq<AssetEntry>, prefix: Seq<char>) -> bool {
    exists|i: int| 0 <= i < v.len() && (#[trigger] v[i]).prefix@ == prefix
}

/// Whether an entry describes the last of the first `n` parts with its prefix.
pub open spec fn is_entry(e: AssetEntry, parts: Seq<AssetPart>, placeholder: Package, n: int) -> bool {
    exists|k: int| is_last(parts, k, n) && #[trigger] describes_part(e, parts[k], placeholder)
}

/// Whether the entries are those of the first `n` parts: each prefix once, with its last
/// part.
pub open spec fn are_entries(v: Seq<AssetEntry>, parts: Seq<AssetPart>, placeholder: Package, n: int) -> bool {
    &&& prefixes_differ(v)
    &&& forall|k: int| 0 <= k < n ==> has_entry(v, (#[trigger] parts[k]).prefix@)
    &&& forall|i: int| 0 <= i < v.len() ==> is_entry(#[trigger] v[i], parts, placeholder, n)
}

/// Taking up one more part keeps the entries right.
proof fn entries_grow(
    had: Seq<AssetEntry>,
    v: Seq<AssetEntry>,
    new: AssetEntry,
    at: int,
    parts: Seq<AssetPart>,
    placeholder: Package,
    n: int,
)
    requires
        0 <= n < parts.len(),
        are_entries(had, parts, placeholder, n),
        describes_part(new, parts[n], placeholder),
        0 <= at <= had.len(),
        at < had.len() ==> had[at].prefix@ == new.prefix@,
        at < had.len() ==> v == had.update(at, new),
        at == had.len() ==> v == had.push(new),
        forall|k: int| 0 <= k < at ==> (#[trigger] had[k]).prefix@ != new.prefix@,
    ensures
        are_entries(v, parts, placeholder, n + 1),
{
    assert(v[at] == new);
    assert(new.prefix@ == parts[n].prefix@) by {
        reveal(describes_part);
    }
    assert forall|k: int| 0 <= k < had.len() && k != at implies v[k] == had[k] && (
    #[trigger] had[k]).prefix@ != new.prefix@ by {
        if at < had.len() {
            if k < at {
                assert(had[k].prefix@ != had[at].prefix@);
            } else {
                assert(had[at].prefix@ != had[k].prefix@);
            }
        }
    }
    assert forall|a: int, b: int|
        #![trigger v[a], v[b]]
        0 <= a < b < v.len() implies v[a].prefix@ != v[b].prefix@ by {
        if a != at {
            assert(had[a].prefix@ != new.prefix@);
        }
        if b != at {
            assert(had[b].prefix@ != new.prefix@);
        }
    }
    assert forall|k: int| 0 <= k < n + 1 implies has_entry(v, (#[trigger] parts[k]).prefix@) by {
        if k < n {
            assert(has_entry(had, parts[k].prefix@));
            let x = choose|x: int|
                0 <= x < had.len() && (#[trigger] had[x]).prefix@ == parts[k].prefix@;
            assert(v[x].prefix@ == had[x].prefix@);
        } else {
            assert(v[at].prefix@ == parts[k].prefix@);
        }
    }
    assert forall|x: int| 0 <= x < v.len() implies is_entry(#[trigger] v[x], parts, placeholder, n + 1) by {
        if x == at {
            assert(is_last(parts, n, n + 1));
            assert(describes_part(v[x], parts[n], placeholder));
        } else {
            assert(is_entry(had[x], parts, placeholder, n));
            let k = choose|k: int|
                is_last(parts, k, n) && #[trigger] describes_part(had[x], parts[k], placeholder);
            assert(v[x] == had[x]);
            assert(had[x].prefix@ != new.prefix@);
            assert(had[x].prefix@ == parts[k].prefix@) by {
                reveal(describes_part);
            }
            assert(is_last(parts, k, n + 1));
            assert(describes_part(v[x], parts[k], placeholder));
        }
    }
}

/// The entry with a prefix, from place `k` on.
pub open spec fn entry_with(v: Seq<AssetEntry>, prefix: Seq<char>, k: int) -> Option<int>
    decreases v.len() - k,
{
    if k < 0 || k >= v.len() {
        None
    } else if v[k].prefix@ == prefix {
        Some(k)
    } else {
        entry_with(v, prefix, k + 1)
    }
}

/// The first entry from place `k` on whose prefix a name starts with.
pub open spec fn entry_starting(v: Seq<AssetEntry>, name: Seq<char>, k: int) -> Option<int>
    decreases v.len() - k,
{
    if k < 0 || k >= v.len() {
        None
    } else if has_prefix(name, v[k].prefix@) {
        Some(k)
    } else {
        entry_starting(v, name, k + 1)
    }
}

/// The entry of a part: that of its line and package letter, or the first whose prefix
/// the name starts with.
pub open spec fn entry_for(v: Seq<AssetEntry>, name: Seq<char>) -> Option<int> {
    if encode_utf8(name).len() >= 10 && entry_with(v, chip_key(name), 0) is Some {
        entry_with(v, chip_key(name), 0)
    } else {
        entry_starting(v, name, 0)
    }
}

impl AssetRegistry {
    /// The descriptors of all parts; of parts with one prefix, that of the last.
    pub fn build(parts: &[AssetPart], placeholder: Package) -> (r: AssetRegistry)
        ensures
            are_entries(r.entries@, parts@, placeholder, parts@.len() as int),
    {
        let mut out: Vec<AssetEntry> = Vec::new();
        let mut i: usize = 0;
        while i < parts.len()
            invariant
                i <= parts@.len(),
                are_entries(out@, parts@, placeholder, i as int),
            decreases parts@.len() - i,
        {
            let raw: &'static RawMcuData = leak_part(&parts[i]);
            let e: AssetEntry = AssetEntry {
                prefix: copy_text(parts[i].prefix.as_str()),
                desc: mcu::build_asset_descriptor(raw, placeholder),
            };
            let ghost had = out@;
            let ghost new = e;
            let mut j: usize = 0;
            while j < out.len() && !text::same(out[j].prefix.as_str(), parts[i].prefix.as_str())
                invariant
                    j <= out@.len(),
                    i < parts@.len(),
                    forall|k: int|
                        0 <= k < j ==> (#[trigger] out@[k]).prefix@ != parts@[i as int].prefix@,
                decreases out@.len() - j,
            {
                j += 1;
            }
            if j < out.len() {
                out.set(j, e);
            } else {
                out.push(e);
            }
            proof {
                assert(describes_part(new, parts@[i as int], placeholder)) by {
                    reveal(describes_part);
                }
                entries_grow(had, out@, new, j as int, parts@, placeholder, i as int);
            }
            i += 1;
        }
        AssetRegistry { entries: out }
    }

    /// The descriptor of a part: that of its line and package letter, or one whose prefix
    /// the name starts with.
    pub fn descriptor_for(&self, name: &str) -> (r: Option<&McuDescriptor>)
        requires
            encode_utf8(name@).len() >= 10 ==> is_char_boundary(encode_utf8(name@), 10),
        ensures
            r is Some <==> entry_for(self.entries@, name@) is Some,
            r matches Some(d) ==> *d == self.entries@[entry_for(self.entries@, name@)->0].desc,
    {
        let ghost v = self.entries@;
        if name.as_bytes().len() >= 10 {
            let (head, _) = name.split_at(10);
            proof {
                vstd::utf8::encode_utf8_decode_utf8(head@);
                assert(encode_utf8(head@) =~= encode_utf8(name@).subrange(0, 10));
            }
            let mut i: usize = 0;
            while i < self.entries.len()
                invariant
                    i <= self.entries@.len(),
                    v == self.entries@,
                    head@ == chip_key(name@),
                    encode_utf8(name@).len() >= 10,
                    entry_with(v, head@, 0) == entry_with(v, head@, i as int),
                decreases self.entries@.len() - i,
            {
                if text::same(self.entries[i].prefix.as_str(), head) {
                    return Some(&self.entries[i].desc);
                }
                i += 1;
            }
        }
        let mut j: usize = 0;
        while j < self.entries.len()
            invariant
                j <= self.entries@.len(),
                v == self.entries@,
                encode_utf8(name@).len() >= 10 ==> entry_with(v, chip_key(name@), 0) is None,
                entry_starting(v, name@, 0) == entry_starting(v, name@, j as int),
            decreases self.entries@.len() - j,
        {
            if text::starts_with(name, self.entries[j].prefix.as_str()) {
                return Some(&self.entries[j].desc);
            }
            j += 1;
        }
        None
    }

    /// How many descriptors there are.
    pub fn descriptor_count(&self) -> (r: usize)
        ensures
            r == self.entries@.len(),
    {
        self.entries.len()
    }
}

} // verus!
