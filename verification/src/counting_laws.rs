//! What a design counts as having of each kind.

use vstd::prelude::*;

use crate::c531_design::ConverterLeg;
use crate::class_laws::is_serial;
use crate::converter_laws::drives;
use crate::demand::DemandView;
use crate::g474::TimCh;
use crate::h523_design::UseView;
use crate::lists::grows;
use crate::lists::pushed;
use crate::select::class_name;
use crate::session_demands::leg_counts;
use crate::session_demands::ones;
use crate::session_demands::uses_count;
use crate::session_demands::wanted_demands;

verus! {

/// One where a condition holds, else none.
pub open spec fn one_if(b: bool) -> int {
    if b {
        1
    } else {
        0
    }
}

/// A mask below sixteen has as many bits as it names channels.
pub proof fn bits_are_channels(leg: ConverterLeg)
    requires
        leg.channels_mask < 16,
    ensures
        ones(leg.channels_mask as int) == one_if(drives(leg, TimCh::Ch1)) + one_if(
            drives(leg, TimCh::Ch2),
        ) + one_if(drives(leg, TimCh::Ch3)) + one_if(drives(leg, TimCh::Ch4)),
{
    let n = leg.channels_mask as int;
    reveal_with_fuel(ones, 6);
    assert(n / 2 / 2 == n / 4);
    assert(n / 2 / 2 / 2 == n / 8);
    assert(n / 2 / 2 / 2 / 2 == 0);
}

/// A complementary leg counts as one output for each channel that it drives, as one where it
/// drives none; a plain leg counts as none. A trip and a sense count once.
pub proof fn a_leg_counts_its_channels(leg: ConverterLeg)
    requires
        leg.channels_mask < 16,
    ensures
        ({
            let driven = one_if(drives(leg, TimCh::Ch1)) + one_if(drives(leg, TimCh::Ch2)) + one_if(
                drives(leg, TimCh::Ch3),
            ) + one_if(drives(leg, TimCh::Ch4));
            &&& !leg.complementary ==> leg_counts(leg, "COMP_PWM"@) == 0
            &&& leg.complementary && driven > 0 ==> leg_counts(leg, "COMP_PWM"@) == driven
            &&& leg.complementary && driven == 0 ==> leg_counts(leg, "COMP_PWM"@) == 1
        }),
        leg_counts(leg, "OCP"@) == one_if(leg.ocp is Some),
        leg_counts(leg, "ADC"@) == one_if(leg.adc_sense is Some),
{
    bits_are_channels(leg);
    reveal_strlit("COMP_PWM");
    reveal_strlit("OCP");
    reveal_strlit("ADC");
    assert("OCP"@[0] == 'O' && "ADC"@[0] == 'A' && "COMP_PWM"@[0] == 'C');
}

/// Whether a peripheral is of a kind.
pub open spec fn is_of_kind(peripheral: Seq<char>, kind: Seq<char>) -> bool {
    let c = class_name(peripheral);
    ||| kind == "SERIAL"@ && is_serial(c)
    ||| kind == "SPI"@ && c == "SPI"@
    ||| kind == "I2C"@ && c == "I2C"@
    ||| kind == "ADC"@ && c == "ADC"@
    ||| kind == "UCPD"@ && c == "UCPD"@
}

/// A use more is one of a kind more exactly where its peripheral is of the kind and no earlier
/// use is of the same peripheral.
pub proof fn a_peripheral_counts_once(v: Seq<UseView>, kind: Seq<char>, n: int)
    requires
        0 <= n < v.len(),
    ensures
        uses_count(v, kind, 0) == 0,
        uses_count(v, kind, n + 1) == uses_count(v, kind, n) + one_if(
            is_of_kind(v[n].peripheral, kind) && forall|j: int|
                0 <= j < n ==> (#[trigger] v[j]).peripheral != v[n].peripheral,
        ),
{
    reveal_strlit("SERIAL");
    reveal_strlit("USART");
    reveal_strlit("UART");
    reveal_strlit("LPUART");
    reveal_strlit("SPI");
    reveal_strlit("I2C");
    reveal_strlit("ADC");
    reveal_strlit("UCPD");
    assert("SPI"@[0] == 'S' && "I2C"@[0] == 'I' && "ADC"@[0] == 'A' && "UCPD"@[0] == 'U');
    assert("UCPD"@[1] == 'C' && "USART"@[1] == 'S' && "UART"@[1] == 'A' && "LPUART"@[0] == 'L');
    assert("SERIAL"@.len() == 6 && "SPI"@.len() == 3 && "USART"@.len() == 5);
    assert("UART"@.len() == 4 && "LPUART"@.len() == 6 && "UCPD"@.len() == 4);
    assert("SERIAL"@[0] == 'S');
}

/// What is wanted of the demands are those for at least one, in order.
pub proof fn wanted_are_for_some(v: Seq<DemandView>, n: int, d: DemandView)
    requires
        0 <= n <= v.len(),
    ensures
        wanted_demands(v, n).contains(d) <==> v.take(n).contains(d) && d.count > 0,
    decreases n,
{
    if n > 0 {
        wanted_are_for_some(v, n - 1, d);
        grows(v, n, d);
        if v[n - 1].count > 0 {
            pushed(wanted_demands(v, n - 1), wanted_demands(v, n), v[n - 1], d);
        }
    }
}

} // verus!
