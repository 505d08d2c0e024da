//! The registry of the parts that have a planner of their own.

use vstd::prelude::*;

use crate::desc_asset::leak_items;
use crate::mcu::chip_key;
use crate::mcu::part_with_key;
use crate::mcu::variant_key;
use crate::mcu::variant_of;
use crate::mcu::Mcu;
use crate::mcu::Package;
use crate::mcu::PartInfo;
use crate::mcu_raw::RawMcuData;
use crate::pinout::ChipVariant;
use crate::text;
use crate::variant_laws::covers_variants;
use crate::variant_laws::part_survives_its_variant;
use crate::variant_laws::variant_survives_its_part;

verus! {

/// A line of parts with a planner of its own: the key that its parts share, their family and
/// their package.
#[derive(Copy, Clone, Debug)]
pub struct PlannedLine {
    pub key: &'static str,
    pub mcu: Mcu,
    pub package_label: &'static str,
}

/// How many lines are planned for.
pub const LINES: usize = 13;

/// The lines that are planned for: the key, the family and the package of each.
pub open spec fn planned_line(i: int) -> (Seq<char>, Mcu, Seq<char>) {
    if i == 0 {
        ("STM32G474C"@, Mcu::G474, "LQFP48"@)
    } else if i == 1 {
        ("STM32G474M"@, Mcu::G474, "WLCSP81"@)
    } else if i == 2 {
        ("STM32G474P"@, Mcu::G474, "TFBGA100"@)
    } else if i == 3 {
        ("STM32G474Q"@, Mcu::G474, "UFBGA121"@)
    } else if i == 4 {
        ("STM32G474R"@, Mcu::G474, "LQFP64"@)
    } else if i == 5 {
        ("STM32G474V"@, Mcu::G474, "LQFP100"@)
    } else if i == 6 {
        ("STM32H523C"@, Mcu::H523, "LQFP48"@)
    } else if i == 7 {
        ("STM32H523H"@, Mcu::H523, "UFBGA100"@)
    } else if i == 8 {
        ("STM32H523R"@, Mcu::H523, "LQFP64"@)
    } else if i == 9 {
        ("STM32H523V"@, Mcu::H523, "LQFP100"@)
    } else if i == 10 {
        ("STM32H523Z"@, Mcu::H523, "LQFP144"@)
    } else if i == 11 {
        ("STM32C5A3Z"@, Mcu::C5A3, "LQFP144"@)
    } else {
        ("STM32C531R"@, Mcu::C531, "LQFP64"@)
    }
}

fn line(key: &'static str, mcu: Mcu, package_label: &'static str) -> (r: PlannedLine)
    ensures
        r.key@ == key@,
        r.mcu == mcu,
        r.package_label@ == package_label@,
{
    PlannedLine { key, mcu, package_label }
}

/// The lines that are planned for, in order.
pub fn planned_lines() -> (r: Vec<PlannedLine>)
    ensures
        r@.len() == LINES,
        forall|i: int|
            0 <= i < LINES ==> ((#[trigger] r@[i]).key@, r@[i].mcu, r@[i].package_label@)
                == planned_line(i),
{
    let mut r: Vec<PlannedLine> = Vec::new();
    r.push(line("STM32G474C", Mcu::G474, "LQFP48"));
    r.push(line("STM32G474M", Mcu::G474, "WLCSP81"));
    r.push(line("STM32G474P", Mcu::G474, "TFBGA100"));
    r.push(line("STM32G474Q", Mcu::G474, "UFBGA121"));
    r.push(line("STM32G474R", Mcu::G474, "LQFP64"));
    r.push(line("STM32G474V", Mcu::G474, "LQFP100"));
    r.push(line("STM32H523C", Mcu::H523, "LQFP48"));
    r.push(line("STM32H523H", Mcu::H523, "UFBGA100"));
    r.push(line("STM32H523R", Mcu::H523, "LQFP64"));
    r.push(line("STM32H523V", Mcu::H523, "LQFP100"));
    r.push(line("STM32H523Z", Mcu::H523, "LQFP144"));
    r.push(line("STM32C5A3Z", Mcu::C5A3, "LQFP144"));
    r.push(line("STM32C531R", Mcu::C531, "LQFP64"));
    r
}

/// The first table, from place `k`, of a chip with the given key.
pub open spec fn table_with_key(
    tables: Seq<&'static RawMcuData>,
    key: Seq<char>,
    k: int,
) -> Option<RawMcuData>
    decreases tables.len() - k,
{
    if k < 0 || k >= tables.len() {
        None
    } else if chip_key(tables[k].name@) == key {
        Some(*tables[k])
    } else {
        table_with_key(tables, key, k + 1)
    }
}

/// Whether a part is made of the table for the line.
pub open spec fn is_part_of_line(p: PartInfo, table: RawMcuData, i: int) -> bool {
    (*p.raw, p.mcu, p.package_label@) == (table, planned_line(i).1, planned_line(i).2)
}

/// Whether the parts are those of the first `n` lines whose tables there are, in order.
pub open spec fn are_registered(
    parts: Seq<PartInfo>,
    tables: Seq<&'static RawMcuData>,
    n: int,
) -> bool
    decreases n,
{
    if n <= 0 {
        parts.len() == 0
    } else {
        match table_with_key(tables, planned_line(n - 1).0, 0) {
            None => are_registered(parts, tables, n - 1),
            Some(t) => parts.len() > 0 && is_part_of_line(parts.last(), t, n - 1)
                && are_registered(parts.drop_last(), tables, n - 1),
        }
    }
}

/// What handles are on.
pub open spec fn infos(all: Seq<Package>) -> Seq<PartInfo> {
    all.map_values(|p: Package| *p.info)
}

fn find_table(tables: &[&'static RawMcuData], key: &str) -> (r: Option<&'static RawMcuData>)
    ensures
        match r {
            Some(t) => table_with_key(tables@, key@, 0) == Some(*t),
            None => table_with_key(tables@, key@, 0) is None,
        },
{
    let mut i: usize = 0;
    while i < tables.len()
        invariant
            i <= tables@.len(),
            table_with_key(tables@, key@, 0) == table_with_key(tables@, key@, i as int),
        decreases tables@.len() - i,
    {
        let info: PartInfo = PartInfo { raw: tables[i], package_label: "", mcu: Mcu::G474 };
        if text::same(info.chip_prefix(), key) {
            return Some(tables[i]);
        }
        i += 1;
    }
    None
}

/// The registry over the given tables: a part for each planned line that has one.
pub fn registered_parts(tables: &[&'static RawMcuData]) -> (r: Vec<Package>)
    ensures
        are_registered(infos(r@), tables@, LINES as int),
{
    let lines: Vec<PlannedLine> = planned_lines();
    let mut parts: Vec<PartInfo> = Vec::new();
    let mut i: usize = 0;
    while i < LINES
        invariant
            i <= LINES,
            lines@.len() == LINES,
            forall|k: int|
                0 <= k < LINES ==> (
                    (#[trigger] lines@[k]).key@,
                    lines@[k].mcu,
                    lines@[k].package_label@,
                ) == planned_line(k),
            are_registered(parts@, tables@, i as int),
        decreases LINES - i,
    {
        let l: PlannedLine = lines[i];
        assert((lines@[i as int].key@, l.mcu, l.package_label@) == planned_line(i as int));
        if let Some(raw) = find_table(tables, l.key) {
            let ghost had = parts@;
            parts.push(PartInfo { raw, package_label: l.package_label, mcu: l.mcu });
            assert(parts@.drop_last() =~= had);
        }
        i += 1;
    }
    let kept: &'static [PartInfo] = leak_items(parts);
    let mut r: Vec<Package> = Vec::new();
    let mut k: usize = 0;
    while k < kept.len()
        invariant
            k <= kept@.len(),
            infos(r@) =~= kept@.take(k as int),
        decreases kept@.len() - k,
    {
        let ghost had = r@;
        r.push(Package::new(&kept[k]));
        assert(infos(r@) =~= infos(had).push(kept@[k as int]));
        k += 1;
    }
    proof {
        assert(infos(r@) =~= kept@);
    }
    r
}

proof fn found_table_has_key(tables: Seq<&'static RawMcuData>, key: Seq<char>, k: int)
    requires
        0 <= k <= tables.len(),
    ensures
        table_with_key(tables, key, k) matches Some(t) ==> chip_key(t.name@) == key,
    decreases tables.len() - k,
{
    if k < tables.len() {
        found_table_has_key(tables, key, k + 1);
    }
}

proof fn keys_differ(i: int, j: int)
    requires
        0 <= i < j < LINES,
    ensures
        planned_line(i).0 != planned_line(j).0,
{
    reveal_strlit("STM32G474C");
    reveal_strlit("STM32G474M");
    reveal_strlit("STM32G474P");
    reveal_strlit("STM32G474Q");
    reveal_strlit("STM32G474R");
    reveal_strlit("STM32G474V");
    reveal_strlit("STM32H523C");
    reveal_strlit("STM32H523H");
    reveal_strlit("STM32H523R");
    reveal_strlit("STM32H523V");
    reveal_strlit("STM32H523Z");
    reveal_strlit("STM32C5A3Z");
    reveal_strlit("STM32C531R");
    let a = planned_line(i).0;
    let b = planned_line(j).0;
    assert(a[5] != b[5] || a[9] != b[9]);
}

/// Whether a part stands for a line.
spec fn stands_for(p: PartInfo, i: int) -> bool {
    chip_key(p.raw.name@) == planned_line(i).0 && p.mcu == planned_line(i).1
}

/// Whether a part stands for one of the first `n` lines.
spec fn has_line(p: PartInfo, n: int) -> bool {
    exists|i: int| 0 <= i < n && #[trigger] stands_for(p, i)
}

proof fn registered_facts(parts: Seq<PartInfo>, tables: Seq<&'static RawMcuData>, n: int)
    requires
        0 <= n <= LINES,
        are_registered(parts, tables, n),
    ensures
        forall|k: int| 0 <= k < parts.len() ==> has_line(#[trigger] parts[k], n),
        forall|i: int|
            0 <= i < n && table_with_key(tables, (#[trigger] planned_line(i)).0, 0) is Some
                ==> exists|k: int| 0 <= k < parts.len() && stands_for(#[trigger] parts[k], i),
        forall|k: int, l: int|
            #![trigger parts[k], parts[l]]
            0 <= k < l < parts.len() ==> chip_key(parts[k].raw.name@) != chip_key(
                parts[l].raw.name@,
            ),
    decreases n,
{
    if n > 0 {
        let key = planned_line(n - 1).0;
        found_table_has_key(tables, key, 0);
        let had = if table_with_key(tables, key, 0) is Some {
            parts.drop_last()
        } else {
            parts
        };
        registered_facts(had, tables, n - 1);
        assert forall|k: int| 0 <= k < parts.len() implies has_line(#[trigger] parts[k], n) by {
            if k < had.len() {
                assert(parts[k] == had[k]);
                assert(has_line(had[k], n - 1));
                let i = choose|i: int| 0 <= i < n - 1 && #[trigger] stands_for(had[k], i);
                assert(stands_for(parts[k], i));
            } else {
                assert(stands_for(parts[k], n - 1));
            }
        }
        assert forall|i: int|
            0 <= i < n && table_with_key(
                tables,
                (#[trigger] planned_line(i)).0,
                0,
            ) is Some implies exists|k: int|
            0 <= k < parts.len() && stands_for(#[trigger] parts[k], i) by {
            if i < n - 1 {
                let k = choose|k: int| 0 <= k < had.len() && stands_for(#[trigger] had[k], i);
                assert(stands_for(parts[k], i));
            } else {
                assert(stands_for(parts[parts.len() - 1], i));
            }
        }
        assert forall|k: int, l: int|
            #![trigger parts[k], parts[l]]
            0 <= k < l < parts.len() implies chip_key(parts[k].raw.name@) != chip_key(
            parts[l].raw.name@,
        ) by {
            assert(parts[k] == had[k]);
            if l < had.len() {
                assert(parts[l] == had[l]);
            } else {
                assert(has_line(had[k], n - 1));
                let i = choose|i: int| 0 <= i < n - 1 && #[trigger] stands_for(had[k], i);
                keys_differ(i, n - 1);
            }
        }
    }
}

spec fn line_of(v: ChipVariant) -> int {
    match v {
        ChipVariant::G474C => 0,
        ChipVariant::G474M => 1,
        ChipVariant::G474P => 2,
        ChipVariant::G474Q => 3,
        ChipVariant::G474R => 4,
        ChipVariant::G474V => 5,
    }
}

/// A registry over tables of all six variants holds a part for each, and no other part of
/// their family.
pub proof fn registry_covers_variants(all: Seq<Package>, tables: Seq<&'static RawMcuData>)
    requires
        are_registered(infos(all), tables, LINES as int),
        forall|v: ChipVariant| table_with_key(tables, #[trigger] variant_key(v), 0) is Some,
    ensures
        covers_variants(all),
{
    let parts = infos(all);
    registered_facts(parts, tables, LINES as int);
    assert forall|i: int|
        0 <= i < all.len() && (#[trigger] all[i]).info.mcu == Mcu::G474 implies exists|
        v: ChipVariant,
    |
        chip_key(all[i].info.raw.name@) == #[trigger] variant_key(v) by {
        assert(has_line(parts[i], LINES as int));
        let j = choose|j: int| 0 <= j < LINES && #[trigger] stands_for(parts[i], j);
        let v = if j == 0 {
            ChipVariant::G474C
        } else if j == 1 {
            ChipVariant::G474M
        } else if j == 2 {
            ChipVariant::G474P
        } else if j == 3 {
            ChipVariant::G474Q
        } else if j == 4 {
            ChipVariant::G474R
        } else {
            ChipVariant::G474V
        };
        assert(planned_line(j).0 == variant_key(v));
    }
    assert forall|v: ChipVariant| exists|i: int|
        0 <= i < all.len() && chip_key((#[trigger] all[i]).info.raw.name@)
            == #[trigger] variant_key(v) && all[i].info.mcu == Mcu::G474 by {
        let j = line_of(v);
        assert(planned_line(j).0 == variant_key(v));
        let k = choose|k: int| 0 <= k < parts.len() && stands_for(#[trigger] parts[k], j);
        assert(chip_key(all[k].info.raw.name@) == variant_key(v));
    }
    assert forall|i: int, j: int|
        #![trigger all[i], all[j]]
        0 <= i < j < all.len() implies chip_key(all[i].info.raw.name@) != chip_key(
        all[j].info.raw.name@,
    ) by {
        assert(parts[i] == *all[i].info && parts[j] == *all[j].info);
    }
}

/// In a registry over tables of all six variants, each variant has a part whose variant it is;
/// a part has a variant exactly when it is of the family, and it is that variant's part.
pub proof fn registered_parts_and_variants_agree(
    all: Seq<Package>,
    tables: Seq<&'static RawMcuData>,
    v: ChipVariant,
    i: int,
)
    requires
        are_registered(infos(all), tables, LINES as int),
        forall|v: ChipVariant| table_with_key(tables, #[trigger] variant_key(v), 0) is Some,
        0 <= i < all.len(),
    ensures
        part_with_key(all, variant_key(v), 0) matches Some(p) && variant_of(p) == Some(v),
        variant_of(all[i]) is Some <==> all[i].info.mcu == Mcu::G474,
        variant_of(all[i]) matches Some(w) ==> part_with_key(all, variant_key(w), 0) == Some(all[i]),
{
    registry_covers_variants(all, tables);
    variant_survives_its_part(all, v);
    part_survives_its_variant(all, i);
}

} // verus!
