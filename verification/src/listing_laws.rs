//! What lists hold of what they are made from.

use vstd::prelude::*;

use crate::c531_design::binary;
use crate::c531_design::mask_text;
use crate::dropin_search::narrowed;
use crate::dropin_search::passes;
use crate::dropin_search::CandidateMatch;
use crate::dropin_search::CandView;
use crate::dropin_search::QueryView;
use crate::dropin_view::compatible_upto;
use crate::dropin_view::listed_upto;
use crate::g474::adc_channels_of;
use crate::g474::tim_is_advanced;
use crate::g474::tim_nr;
use crate::g474::AdcChannel;
use crate::g474::AdcTriggerId;
use crate::g474::TimId;
use crate::mcu::chip_key;
use crate::mcu::family_parts;
use crate::mcu::part_for_variant;
use crate::mcu::Mcu;
use crate::mcu::Package;
use crate::text::digit_char;
use crate::text::has_prefix;

verus! {

/// The parts of a family are those of the registry that are of it.
pub proof fn parts_of_a_family(all: Seq<Package>, m: Mcu, n: int, p: Package)
    requires
        0 <= n <= all.len(),
    ensures
        family_parts(all, m, n).contains(p) <==> p.info.mcu == m && all.take(n).contains(p),
    decreases n,
{
    let now = family_parts(all, m, n);
    if n > 0 {
        parts_of_a_family(all, m, n - 1, p);
        let had = family_parts(all, m, n - 1);
        let a = all.take(n - 1);
        let b = all.take(n);
        if had.contains(p) {
            let k = choose|k: int| 0 <= k < had.len() && had[k] == p;
            assert(now[k] == p);
        }
        if a.contains(p) {
            let k = choose|k: int| 0 <= k < a.len() && a[k] == p;
            assert(b[k] == p);
        }
        assert(b[n - 1] == all[n - 1]);
        if b.contains(p) {
            let k = choose|k: int| 0 <= k < b.len() && b[k] == p;
            if k < n - 1 {
                assert(a[k] == p);
            } else if all[n - 1].info.mcu == m {
                assert(now[now.len() - 1] == p);
            }
        }
        if now.contains(p) {
            let k = choose|k: int| 0 <= k < now.len() && now[k] == p;
            if k < had.len() {
                assert(had[k] == p);
            }
        }
    }
}

/// The part of a variant is the first of the registry whose key the name begins with.
pub proof fn the_part_of_a_variant(all: Seq<Package>, name: Seq<char>, k: int)
    requires
        0 <= k <= all.len(),
    ensures
        match part_for_variant(all, name, k) {
            Some(p) => exists|i: int|
                k <= i < all.len() && #[trigger] all[i] == p && has_prefix(
                    name,
                    chip_key(p.info.raw.name@),
                ) && (forall|j: int|
                    k <= j < i ==> !has_prefix(name, chip_key((#[trigger] all[j]).info.raw.name@))),
            None => forall|j: int|
                k <= j < all.len() ==> !has_prefix(
                    name,
                    chip_key((#[trigger] all[j]).info.raw.name@),
                ),
        },
    decreases all.len() - k,
{
    if k < all.len() {
        the_part_of_a_variant(all, name, k + 1);
        if has_prefix(name, chip_key(all[k].info.raw.name@)) {
            assert(all[k] == part_for_variant(all, name, k)->0);
        } else if part_for_variant(all, name, k + 1) is Some {
            let p = part_for_variant(all, name, k + 1)->0;
            let i = choose|i: int|
                k + 1 <= i < all.len() && #[trigger] all[i] == p && has_prefix(
                    name,
                    chip_key(p.info.raw.name@),
                ) && (forall|j: int|
                    k + 1 <= j < i ==> !has_prefix(
                        name,
                        chip_key((#[trigger] all[j]).info.raw.name@),
                    ));
            assert(all[i] == p);
        }
    }
}

/// What is left of the candidates is what passes, and all of it.
pub proof fn what_passes_is_left(v: Seq<CandView>, q: QueryView, n: int, c: CandView)
    requires
        0 <= n <= v.len(),
    ensures
        narrowed(v, q, n).contains(c) <==> passes(c, q) && v.take(n).contains(c),
    decreases n,
{
    let now = narrowed(v, q, n);
    if n > 0 {
        what_passes_is_left(v, q, n - 1, c);
        let had = narrowed(v, q, n - 1);
        let a = v.take(n - 1);
        let b = v.take(n);
        if had.contains(c) {
            let k = choose|k: int| 0 <= k < had.len() && had[k] == c;
            assert(now[k] == c);
        }
        if a.contains(c) {
            let k = choose|k: int| 0 <= k < a.len() && a[k] == c;
            assert(b[k] == c);
        }
        assert(b[n - 1] == v[n - 1]);
        if b.contains(c) {
            let k = choose|k: int| 0 <= k < b.len() && b[k] == c;
            if k < n - 1 {
                assert(a[k] == c);
            } else if passes(v[n - 1], q) {
                assert(now[now.len() - 1] == c);
            }
        }
        if now.contains(c) {
            let k = choose|k: int| 0 <= k < now.len() && now[k] == c;
            if k < had.len() {
                assert(had[k] == c);
            }
        }
    }
}

/// The first compatible candidates are listed, in order, as many as fit.
pub proof fn the_first_compatible_are_listed(v: Seq<CandidateMatch>, n: int)
    requires
        0 <= n <= v.len(),
    ensures
        ({
            let l = listed_upto(v, n);
            &&& l.len() == (if compatible_upto(v, n) < 300 {
                compatible_upto(v, n)
            } else {
                300
            })
            &&& forall|i: int| 0 <= i < l.len() ==> 0 <= #[trigger] l[i] < n && v[l[i]].compatible
            &&& forall|i: int, j: int|
                #![trigger l[i], l[j]]
                0 <= i < j < l.len() ==> l[i] < l[j]
            &&& compatible_upto(v, n) <= 300 ==> forall|k: int|
                0 <= k < n && (#[trigger] v[k]).compatible ==> l.contains(k)
        }),
    decreases n,
{
    if n > 0 {
        the_first_compatible_are_listed(v, n - 1);
        let had = listed_upto(v, n - 1);
        let l = listed_upto(v, n);
        assert forall|i: int| 0 <= i < l.len() implies 0 <= #[trigger] l[i] < n && v[l[i]].compatible by {
            if i < had.len() {
                assert(l[i] == had[i]);
            }
        }
        assert forall|k: int| compatible_upto(v, n) <= 300 && 0 <= k < n && (
        #[trigger] v[k]).compatible implies l.contains(k) by {
            if k < n - 1 {
                assert(had.contains(k));
                let x = choose|x: int| 0 <= x < had.len() && had[x] == k;
                assert(l[x] == k);
            } else {
                assert(l[l.len() - 1] == k);
            }
        }
    }
}

/// The number that binary digits spell.
pub open spec fn number_of(s: Seq<char>) -> int
    decreases s.len(),
{
    if s.len() == 0 {
        0
    } else {
        2 * number_of(s.drop_last()) + (if s.last() == '1' {
            1int
        } else {
            0
        })
    }
}

/// A number in binary spells that number, in ones and zeros.
pub proof fn binary_spells_its_number(n: int)
    requires
        0 <= n,
    ensures
        number_of(binary(n)) == n,
        binary(n).len() > 0,
        forall|i: int| 0 <= i < binary(n).len() ==> (#[trigger] binary(n)[i]) == '0' || binary(n)[i] == '1',
    decreases n,
{
    let s = binary(n);
    assert(digit_char(1) == '1');
    assert(digit_char(0) == '0');
    if n < 2 {
        assert(s.drop_last().len() == 0);
        assert(number_of(s.drop_last()) == 0);
    } else {
        binary_spells_its_number(n / 2);
        assert(s.drop_last() =~= binary(n / 2));
        assert(n % 2 == 0 || n % 2 == 1);
    }
}

/// A mask of four channels is written with four digits.
pub proof fn masks_have_four_digits(mask: u8)
    requires
        mask < 16,
    ensures
        mask_text(mask).len() == 6,
        mask_text(mask).take(2) == "0b"@,
        number_of(mask_text(mask).skip(2)) == mask,
{
    reveal_strlit("0b");
    reveal_strlit("000");
    reveal_strlit("00");
    reveal_strlit("0");
    reveal_strlit("");
    reveal_with_fuel(binary, 5);
    reveal_with_fuel(number_of, 6);
    let m = mask as int;
    let b = binary(m);
    let t = mask_text(mask);
    assert(t.take(2) =~= "0b"@);
    binary_spells_its_number(m);
    let lead = if mask < 2 {
        "000"@
    } else if mask < 4 {
        "00"@
    } else if mask < 8 {
        "0"@
    } else {
        ""@
    };
    assert(t.skip(2) =~= lead + b);
    zeros_add_nothing(lead, b);
}

proof fn zeros_add_nothing(z: Seq<char>, s: Seq<char>)
    requires
        forall|i: int| 0 <= i < z.len() ==> #[trigger] z[i] == '0',
    ensures
        number_of(z + s) == number_of(s),
    decreases z.len() + s.len(),
{
    if s.len() > 0 {
        zeros_add_nothing(z, s.drop_last());
        assert((z + s).drop_last() =~= z + s.drop_last());
        assert((z + s).last() == s.last());
    } else if z.len() > 0 {
        zeros_add_nothing(z.drop_last(), s);
        assert((z + s).drop_last() =~= z.drop_last() + s);
        assert((z + s).last() == '0');
    } else {
        assert(z + s =~= s);
    }
}

/// The advanced timers are the first, the eighth and the twentieth.
pub proof fn advanced_timers_by_number(t: TimId)
    ensures
        tim_is_advanced(t) <==> tim_nr(t) == 1 || tim_nr(t) == 8 || tim_nr(t) == 20,
{
}

/// A trigger starts regular conversions of the first two ADCs or injected ones, not both, and
/// either kind of the others.
pub proof fn what_a_trigger_starts(x: AdcTriggerId)
    ensures
        ({
            let v = adc_channels_of(x);
            &&& v.contains(AdcChannel::Adc1Regular) <==> v.contains(AdcChannel::Adc2Regular)
            &&& v.contains(AdcChannel::Adc1Injected) <==> v.contains(AdcChannel::Adc2Injected)
            &&& v.contains(AdcChannel::Adc1Regular) <==> !v.contains(AdcChannel::Adc1Injected)
            &&& v.contains(AdcChannel::Adc3Regular) && v.contains(AdcChannel::Adc3Injected)
            &&& v.contains(AdcChannel::Adc4Regular) && v.contains(AdcChannel::Adc4Injected)
            &&& v.contains(AdcChannel::Adc5Regular) && v.contains(AdcChannel::Adc5Injected)
        }),
{
    let v = adc_channels_of(x);
    assert(v.len() == 8);
    assert(v[2] == AdcChannel::Adc3Regular && v[3] == AdcChannel::Adc3Injected);
    assert(v[4] == AdcChannel::Adc4Regular && v[5] == AdcChannel::Adc4Injected);
    assert(v[6] == AdcChannel::Adc5Regular && v[7] == AdcChannel::Adc5Injected);
    if v[0] == AdcChannel::Adc1Regular {
        assert(v[1] == AdcChannel::Adc2Regular);
    } else {
        assert(v[0] == AdcChannel::Adc1Injected && v[1] == AdcChannel::Adc2Injected);
    }
}

} // verus!
