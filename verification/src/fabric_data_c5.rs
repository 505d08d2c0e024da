//! STM32C531 analog fabric.
//!
//! The die carries more routes than the part: a route through a peripheral that
//! the C531 does not populate is left out.

use vstd::prelude::*;

verus! {

/// DAC to comparator inverting input, as `(dac, channel, comp)`. The C531 has DAC1
/// only, with a single internal output, so COMP2 has no internal threshold source.
pub open spec fn c5_dac_to_comp_table() -> Seq<(u8, u8, u8)> {
    seq![(1u8, 1u8, 1u8)]
}

/// Comparator output to advanced-timer break input, as `(comp, tim, input)`, input
/// 1 being BRK and 2 being BRK2: TIM1 and TIM8 each take COMP1 and COMP2 on both.
pub open spec fn c5_comp_to_tim_break_table() -> Seq<(u8, u8, u8)> {
    seq![
        (1u8, 1u8, 1u8),
        (2u8, 1u8, 1u8),
        (1u8, 1u8, 2u8),
        (2u8, 1u8, 2u8),
        (1u8, 8u8, 1u8),
        (2u8, 8u8, 1u8),
        (1u8, 8u8, 2u8),
        (2u8, 8u8, 2u8),
    ]
}

/// DAC to comparator inverting input.
pub fn c5_dac_to_comp() -> (r: Vec<(u8, u8, u8)>)
    ensures
        r@ == c5_dac_to_comp_table(),
{
    let r: Vec<(u8, u8, u8)> = vec![(1u8, 1u8, 1u8)];
    proof {
        assert(r@ =~= c5_dac_to_comp_table());
    }
    r
}

/// Comparator output to advanced-timer break input.
pub fn c5_comp_to_tim_break() -> (r: Vec<(u8, u8, u8)>)
    ensures
        r@ == c5_comp_to_tim_break_table(),
{
    let r: Vec<(u8, u8, u8)> = vec![
        (1u8, 1u8, 1u8),
        (2u8, 1u8, 1u8),
        (1u8, 1u8, 2u8),
        (2u8, 1u8, 2u8),
        (1u8, 8u8, 1u8),
        (2u8, 8u8, 1u8),
        (1u8, 8u8, 2u8),
        (2u8, 8u8, 2u8),
    ];
    proof {
        assert(r@ =~= c5_comp_to_tim_break_table());
    }
    r
}

} // verus!
