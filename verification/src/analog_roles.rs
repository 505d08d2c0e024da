//! The analog roles of pins, read from signal names.

use vstd::prelude::*;

use crate::text;
use crate::text::all_digits;
use crate::text::has_prefix;
use crate::text::has_suffix;
use crate::text::plain_number;

verus! {

/// The single-ended ADC channel of a role: `INP<n>` or `IN<n>`.
pub open spec fn adc_pos(role: Seq<char>) -> Option<u8> {
    if has_prefix(role, "INP"@) {
        plain_number(role.skip("INP"@.len() as int))
    } else if has_prefix(role, "IN"@) {
        plain_number(role.skip("IN"@.len() as int))
    } else {
        None
    }
}

/// The differential ADC channel whose negative input a role is: `INN<n>`.
pub open spec fn adc_neg(role: Seq<char>) -> Option<u8> {
    if has_prefix(role, "INN"@) {
        plain_number(role.skip("INN"@.len() as int))
    } else {
        None
    }
}

/// The channel of an `IN<n>` role.
pub open spec fn adc_in(role: Seq<char>) -> Option<u8> {
    if has_prefix(role, "IN"@) {
        plain_number(role.skip("IN"@.len() as int))
    } else {
        None
    }
}

/// A name alone, or with digits behind it.
pub open spec fn numbered(role: Seq<char>, name: Seq<char>) -> bool {
    role == name || (has_prefix(role, name) && role.len() > name.len() && all_digits(
        role.skip(name.len() as int),
    ))
}

/// A name that begins a role which is not the secondary-mux copy of another one.
pub open spec fn primary(role: Seq<char>, name: Seq<char>) -> bool {
    !has_suffix(role, "_SEC"@) && has_prefix(role, name)
}

fn number_behind(role: &str, prefix: &str) -> (r: Option<u8>)
    ensures
        r == (if has_prefix(role@, prefix@) {
            plain_number(role@.skip(prefix@.len() as int))
        } else {
            None
        }),
{
    match text::strip_prefix(role, prefix) {
        Some(tail) => text::parse_digits(tail),
        None => None,
    }
}

/// The single-ended ADC channel of a role. Some families write `IN<n>`, others
/// `INP<n>`.
pub fn adc_pos_index(role: &str) -> (r: Option<u8>)
    ensures
        r == adc_pos(role@),
{
    if text::starts_with(role, "INP") {
        number_behind(role, "INP")
    } else {
        number_behind(role, "IN")
    }
}

/// The differential ADC channel whose negative input the role is.
pub fn adc_neg_index(role: &str) -> (r: Option<u8>)
    ensures
        r == adc_neg(role@),
{
    number_behind(role, "INN")
}

/// The channel of an `IN<n>` role; not that of `INN<n>` or `INP<n>`.
pub fn adc_in_ch(role: &str) -> (r: Option<u8>)
    ensures
        r == adc_in(role@),
{
    number_behind(role, "IN")
}

fn is_numbered(role: &str, name: &str) -> (r: bool)
    ensures
        r == numbered(role@, name@),
{
    if text::same(role, name) {
        return true;
    }
    match text::strip_prefix(role, name) {
        Some(tail) => !tail.is_empty() && text::is_all_digits(tail),
        None => false,
    }
}

/// A comparator's non-inverting input: `INP`, `INP0`, `INP1` and so on.
pub fn comp_plus(role: &str) -> (r: bool)
    ensures
        r == numbered(role@, "INP"@),
{
    is_numbered(role, "INP")
}

/// A comparator's external inverting input: `INM`, `INM0` and so on.
pub fn comp_minus(role: &str) -> (r: bool)
    ensures
        r == numbered(role@, "INM"@),
{
    is_numbered(role, "INM")
}

fn is_primary(role: &str, name: &str) -> (r: bool)
    ensures
        r == primary(role@, name@),
{
    !text::ends_with(role, "_SEC") && text::starts_with(role, name)
}

/// An amplifier's non-inverting input. The secondary-mux rows repeat the same pins
/// and do not count.
pub fn opamp_plus(role: &str) -> (r: bool)
    ensures
        r == primary(role@, "VINP"@),
{
    is_primary(role, "VINP")
}

/// An amplifier's external inverting input.
pub fn opamp_minus(role: &str) -> (r: bool)
    ensures
        r == primary(role@, "VINM"@),
{
    is_primary(role, "VINM")
}

} // verus!
