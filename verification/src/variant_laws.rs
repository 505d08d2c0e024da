//! What holds of the package variants: a variant and its part lead to each other.

use vstd::prelude::*;

use crate::mcu::chip_key;
use crate::mcu::part_with_key;
use crate::mcu::variant_key;
use crate::mcu::variant_of;
use crate::mcu::variant_of_letter;
use crate::mcu::Mcu;
use crate::mcu::Package;
use crate::pinout::ChipVariant;
use vstd::utf8::encode_utf8;
use vstd::utf8::is_char_boundary;

verus! {

proof fn key_bytes(name: Seq<char>)
    ensures
        encode_utf8(chip_key(name)).len() > 9 ==> encode_utf8(name).len() > 9 && encode_utf8(
            name,
        )[9] == encode_utf8(chip_key(name))[9],
{
    let b = encode_utf8(name);
    if is_char_boundary(b, 10) {
        vstd::utf8::encode_utf8_valid_utf8(name);
        vstd::utf8::valid_utf8_split(b, 10);
        vstd::utf8::decode_utf8_encode_utf8(b.subrange(0, 10));
    }
}

proof fn tenth_byte(k: Seq<char>)
    requires
        k.len() == 10,
        forall|i: int| 0 <= i < 10 ==> 0 <= #[trigger] k[i] < 128,
    ensures
        encode_utf8(k).len() == 10,
        encode_utf8(k)[9] == k[9] as u8,
{
    assert(vstd::utf8::is_ascii_chars(k));
    vstd::utf8::is_ascii_chars_encode_utf8(k);
}

proof fn variant_key_letter(v: ChipVariant)
    ensures
        variant_of_letter(variant_key(v)) == Some(v),
        encode_utf8(variant_key(v)).len() > 9,
{
    match v {
        ChipVariant::G474C => {
            reveal_strlit("STM32G474C");
        },
        ChipVariant::G474M => {
            reveal_strlit("STM32G474M");
        },
        ChipVariant::G474P => {
            reveal_strlit("STM32G474P");
        },
        ChipVariant::G474Q => {
            reveal_strlit("STM32G474Q");
        },
        ChipVariant::G474R => {
            reveal_strlit("STM32G474R");
        },
        ChipVariant::G474V => {
            reveal_strlit("STM32G474V");
        },
    }
    tenth_byte(variant_key(v));
}

/// A part under a variant's key is of that variant.
proof fn keyed_part_has_variant(name: Seq<char>, v: ChipVariant)
    requires
        chip_key(name) == variant_key(v),
    ensures
        variant_of_letter(name) == Some(v),
{
    key_bytes(name);
    variant_key_letter(v);
}

proof fn keyed_part_is_found(all: Seq<Package>, k: int, i: int)
    requires
        0 <= k <= i < all.len(),
        forall|j: int|
            0 <= j < i ==> chip_key((#[trigger] all[j]).info.raw.name@) != chip_key(
                all[i].info.raw.name@,
            ),
    ensures
        part_with_key(all, chip_key(all[i].info.raw.name@), k) == Some(all[i]),
    decreases i - k,
{
    if k < i {
        assert(chip_key(all[k].info.raw.name@) != chip_key(all[i].info.raw.name@));
        keyed_part_is_found(all, k + 1, i);
    }
}

/// Whether the registry holds one part for each variant: every part of the family stands
/// under a variant's key, every variant's key is a part's, and no two parts share a key.
pub open spec fn covers_variants(all: Seq<Package>) -> bool {
    &&& forall|i: int|
        0 <= i < all.len() && (#[trigger] all[i]).info.mcu == Mcu::G474 ==> exists|v: ChipVariant|
            chip_key(all[i].info.raw.name@) == #[trigger] variant_key(v)
    &&& forall|v: ChipVariant|
        exists|i: int|
            0 <= i < all.len() && chip_key((#[trigger] all[i]).info.raw.name@)
                == #[trigger] variant_key(v) && all[i].info.mcu == Mcu::G474
    &&& forall|i: int, j: int|
        #![trigger all[i], all[j]]
        0 <= i < j < all.len() ==> chip_key(all[i].info.raw.name@) != chip_key(
            all[j].info.raw.name@,
        )
}

/// A registered part has a variant exactly when it is of the family, and the variant's part is
/// that part again.
pub proof fn part_survives_its_variant(all: Seq<Package>, i: int)
    requires
        covers_variants(all),
        0 <= i < all.len(),
    ensures
        variant_of(all[i]) is Some <==> all[i].info.mcu == Mcu::G474,
        variant_of(all[i]) matches Some(v) ==> part_with_key(all, variant_key(v), 0) == Some(all[i]),
{
    if all[i].info.mcu == Mcu::G474 {
        let v = choose|v: ChipVariant|
            chip_key(all[i].info.raw.name@) == #[trigger] variant_key(v);
        keyed_part_has_variant(all[i].info.raw.name@, v);
        assert forall|j: int| 0 <= j < i implies chip_key((#[trigger] all[j]).info.raw.name@)
            != chip_key(all[i].info.raw.name@) by {
            assert(all[i] == all[i]);
        }
        keyed_part_is_found(all, 0, i);
    }
}

/// Every variant has a part in the registry, whose variant it is again.
pub proof fn variant_survives_its_part(all: Seq<Package>, v: ChipVariant)
    requires
        covers_variants(all),
    ensures
        part_with_key(all, variant_key(v), 0) matches Some(p) && variant_of(p) == Some(v),
{
    let i = choose|i: int|
        0 <= i < all.len() && chip_key((#[trigger] all[i]).info.raw.name@) == variant_key(v)
            && all[i].info.mcu == Mcu::G474;
    keyed_part_has_variant(all[i].info.raw.name@, v);
    assert forall|j: int| 0 <= j < i implies chip_key((#[trigger] all[j]).info.raw.name@)
        != chip_key(all[i].info.raw.name@) by {
        assert(all[i] == all[i]);
    }
    keyed_part_is_found(all, 0, i);
}

} // verus!
