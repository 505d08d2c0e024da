//! What a peripheral's name says of its class, and which classes stand in for each other.

use vstd::prelude::*;

use crate::dropin::cand_at;
use crate::dropin::cand_pins;
use crate::dropin::tier_of;
use crate::dropin::CapRow;
use crate::dropin::MatchConfig;
use crate::dropin::MatchTier;
use crate::dropin::Strictness;
use crate::dropin_laws::compatible_means_it_stands_in;
use crate::dropin_laws::serves;
use crate::dropin_laws::stands_in;
use crate::dropin_search::judged;
use crate::dropin_search::FootView;
use crate::h523_design::LockView;
use crate::phys_pinout::function_of;
use crate::phys_pinout::FnView;
use crate::select::class_name;
use crate::text::is_digit;

verus! {

/// Whether a name is that of an instance of a class: the class, and a number behind it or
/// none.
pub open spec fn is_of_class(name: Seq<char>, class: Seq<char>) -> bool {
    &&& class.len() <= name.len()
    &&& name.take(class.len() as int) == class
    &&& class.len() > 0 ==> !(48 <= class.last() as u32 <= 57)
    &&& forall|i: int| class.len() <= i < name.len() ==> 48 <= (#[trigger] name[i]) as u32 <= 57
}

/// An instance's class is what its number follows.
pub proof fn class_is_before_the_number(name: Seq<char>, class: Seq<char>)
    requires
        is_of_class(name, class),
    ensures
        class_name(name) == class,
    decreases name.len(),
{
    if name.len() > class.len() {
        assert(is_digit(name.last()));
        let rest = name.drop_last();
        assert(rest.take(class.len() as int) =~= name.take(class.len() as int));
        assert forall|i: int| class.len() <= i < rest.len() implies 48 <= (
        #[trigger] rest[i]) as u32 <= 57 by {
            assert(rest[i] == name[i]);
        }
        class_is_before_the_number(rest, class);
    } else {
        assert(name =~= class);
    }
}

/// Every name is that of an instance of its class.
pub proof fn every_name_has_a_class(name: Seq<char>)
    ensures
        is_of_class(name, class_name(name)),
    decreases name.len(),
{
    if name.len() > 0 && is_digit(name.last()) {
        let rest = name.drop_last();
        every_name_has_a_class(rest);
        let class = class_name(rest);
        assert(name.take(class.len() as int) =~= rest.take(class.len() as int));
        assert forall|i: int| class.len() <= i < name.len() implies 48 <= (
        #[trigger] name[i]) as u32 <= 57 by {
            if i < rest.len() {
                assert(rest[i] == name[i]);
            }
        }
    } else {
        assert(name.take(name.len() as int) =~= name);
    }
}

/// Whether a class is one of the serial ports.
pub open spec fn is_serial(class: Seq<char>) -> bool {
    class == "USART"@ || class == "UART"@ || class == "LPUART"@
}

/// Whether an instance of one class does the work of one of the other: they are of one
/// class, or both serial ports.
pub open spec fn do_the_same(a: Seq<char>, b: Seq<char>) -> bool {
    a == b || (is_serial(a) && is_serial(b))
}

/// A signal serves a wired one where it is the same signal; else, unless the wired one is
/// analog or the match goes by instance, where it is muxed, of a class that does the same,
/// and of the same role if roles count.
pub proof fn what_serves(
    want: (Seq<char>, Seq<char>),
    cap: (Seq<char>, Seq<char>),
    af: Option<u8>,
    mode: Strictness,
    a: Seq<char>,
    b: Seq<char>,
)
    requires
        is_of_class(want.0, a),
        is_of_class(cap.0, b),
        a != "SERIAL"@,
        b != "SERIAL"@,
    ensures
        tier_of(want, cap, af, mode) is Some <==> want == cap || {
            &&& af is Some
            &&& do_the_same(a, b)
            &&& a != "ADC"@ && a != "COMP"@ && a != "OPAMP"@ && a != "DAC"@
            &&& mode == Strictness::ClassOnly || (mode == Strictness::ClassRole && want.1 == cap.1)
        },
        tier_of(want, cap, af, mode) == Some(MatchTier::Exact) <==> want == cap,
        tier_of(want, cap, af, mode) == Some(MatchTier::ClassRole) ==> want.1 == cap.1,
        tier_of(want, cap, af, mode) == Some(MatchTier::ClassOnly) ==> want.1 != cap.1,
{
    class_is_before_the_number(want.0, a);
    class_is_before_the_number(cap.0, b);
    reveal_strlit("SERIAL");
    reveal_strlit("USART");
    reveal_strlit("UART");
    reveal_strlit("LPUART");
    reveal_strlit("SPI");
    reveal_strlit("I2C");
    reveal_strlit("ADC");
    reveal_strlit("UCPD");
    assert("SPI"@.len() == 3 && "I2C"@.len() == 3 && "ADC"@.len() == 3 && "UCPD"@.len() == 4);
    assert("SERIAL"@.len() == 6);
}

/// A signal that serves a wired one without being the same is of the same class, or both are
/// serial ports.
pub proof fn what_serves_is_of_the_class(
    want: (Seq<char>, Seq<char>),
    cap: (Seq<char>, Seq<char>),
    af: Option<u8>,
    mode: Strictness,
)
    requires
        tier_of(want, cap, af, mode) is Some,
        want != cap,
        class_name(want.0) != "SERIAL"@,
        class_name(cap.0) != "SERIAL"@,
    ensures
        class_name(want.0) == class_name(cap.0) || (is_serial(class_name(want.0)) && is_serial(
            class_name(cap.0),
        )),
        af is Some,
        mode == Strictness::ClassRole ==> want.1 == cap.1,
{
    every_name_has_a_class(want.0);
    every_name_has_a_class(cap.0);
    what_serves(want, cap, af, mode, class_name(want.0), class_name(cap.0));
}

/// Whether a row of a candidate can take over a wired signal: it is that signal, or a muxed
/// one of a class that does the same.
pub open spec fn takes_over(want: (Seq<char>, Seq<char>), row: CapRow) -> bool {
    row.key == want || (row.af is Some && do_the_same(class_name(want.0), class_name(row.key.0)))
}

/// On a compatible part, each signal that is wired to a position has a row there that takes
/// it over.
pub proof fn a_compatible_part_takes_over(
    wired: Seq<LockView>,
    source: FootView,
    name: Seq<char>,
    cand: FootView,
    caps: Seq<CapRow>,
    cfg: MatchConfig,
    i: int,
    k: int,
)
    requires
        judged(wired, source, name, cand, caps, cfg).compatible,
        0 <= i < source.pins.len(),
        0 <= k < wired.len(),
        function_of(source.pins[i].s) matches FnView::Gpio(pins) && pins.contains(wired[k].pin),
        class_name(wired[k].key.0) != "SERIAL"@,
        forall|j: int| 0 <= j < caps.len() ==> class_name((#[trigger] caps[j]).key.0) != "SERIAL"@,
    ensures
        exists|j: int|
            0 <= j < caps.len() && takes_over(wired[k].key, #[trigger] caps[j]) && cand_pins(
                cand_at(cand.pins, source.pins[i].p),
            ).contains(caps[j].pin),
{
    compatible_means_it_stands_in(wired, source, name, cand, caps, cfg);
    let there = cand_at(cand.pins, source.pins[i].p);
    assert(stands_in(wired, source.pins[i], there, caps, cfg));
    assert(serves(wired[k].key, caps, cand_pins(there), cfg.strictness));
    let j = choose|j: int|
        0 <= j < caps.len() && cand_pins(there).contains(caps[j].pin) && tier_of(
            wired[k].key,
            (#[trigger] caps[j]).key,
            caps[j].af,
            cfg.strictness,
        ) is Some;
    if caps[j].key != wired[k].key {
        what_serves_is_of_the_class(wired[k].key, caps[j].key, caps[j].af, cfg.strictness);
    }
    assert(takes_over(wired[k].key, caps[j]));
}

} // verus!
