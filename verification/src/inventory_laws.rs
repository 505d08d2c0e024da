//! What a chip has, read off the names of its peripherals.

use vstd::prelude::*;

use crate::lists::pushed;
use crate::mcu::is_no_instance;
use crate::mcu::number_after;
use crate::mcu::numbers_of;
use crate::mcu::part_of;
use crate::mcu::sorted_timers;
use crate::mcu::timer_block;
use crate::mcu::timer_of;
use crate::mcu::timers_of;
use crate::mcu::PartKind;
use crate::mcu::TimerInstance;
use crate::mcu::TimerKind;
use crate::mcu_pinout::decimal_reads_back;
use crate::mcu_raw::RawPeripheral;
use crate::order::order_of;
use crate::order::order_of_is_stable;
use crate::text::decimal;

verus! {

/// What the instances of a class count as.
pub open spec fn kind_of_numbered(class: Seq<char>) -> Option<PartKind> {
    if class == "ADC"@ {
        Some(PartKind::Adc)
    } else if class == "DAC"@ {
        Some(PartKind::Dac)
    } else if class == "COMP"@ {
        Some(PartKind::Comp)
    } else if class == "OPAMP"@ {
        Some(PartKind::Opamp)
    } else if class == "SPI"@ {
        Some(PartKind::Spi)
    } else if class == "I2C"@ {
        Some(PartKind::I2c)
    } else if class == "I3C"@ {
        Some(PartKind::I3c)
    } else if class == "USART"@ {
        Some(PartKind::Usart)
    } else if class == "UART"@ {
        Some(PartKind::Uart)
    } else if class == "FDCAN"@ {
        Some(PartKind::Fdcan)
    } else if class == "UCPD"@ {
        Some(PartKind::Ucpd)
    } else {
        None
    }
}

/// Whether two names differ in one of their first three characters.
spec fn differ_early(a: Seq<char>, b: Seq<char>) -> bool {
    ||| a[0] != b[0]
    ||| a[1] != b[1]
    ||| a[2] != b[2]
}

proof fn other_prefix(name: Seq<char>, class: Seq<char>, p: Seq<char>)
    requires
        class.len() >= 3,
        p.len() >= 3,
        class.len() <= name.len(),
        name.take(class.len() as int) == class,
        differ_early(class, p),
    ensures
        number_after(name, p) is None,
        !crate::text::has_prefix(name, p),
        name != p,
{
    assert(name[0] == name.take(class.len() as int)[0]);
    assert(name[1] == name.take(class.len() as int)[1]);
    assert(name[2] == name.take(class.len() as int)[2]);
    if crate::text::has_prefix(name, p) {
        assert(name[0] == name.take(p.len() as int)[0]);
        assert(name[1] == name.take(p.len() as int)[1]);
        assert(name[2] == name.take(p.len() as int)[2]);
    }
}

proof fn number_is_read(class: Seq<char>, n: u8)
    ensures
        number_after(class + decimal(n as int), class) == Some(n),
        decimal(n as int).len() > 0,
        forall|i: int|
            0 <= i < decimal(n as int).len() ==> 48 <= (#[trigger] decimal(n as int)[i]) as u32 <= 57,
{
    let d = decimal(n as int);
    let name = class + d;
    assert(name.take(class.len() as int) =~= class);
    assert(name.skip(class.len() as int) =~= d);
    decimal_reads_back(n as int);
    assert(crate::text::is_digit(d[0]));
    assert(d[0] != '+');
    assert forall|i: int| 0 <= i < d.len() implies 48 <= (#[trigger] d[i]) as u32 <= 57 by {
        assert(crate::text::is_digit(d[i]));
    }
}

proof fn numbered_is_an_instance(class: Seq<char>, n: u8)
    requires
        class.len() >= 3,
        class.last() != 'M',
    ensures
        !is_no_instance(class + decimal(n as int)),
{
    let d = decimal(n as int);
    let name = class + d;
    let l = name.len() as int;
    number_is_read(class, n);
    reveal_strlit("_COMMON");
    reveal_strlit("RAM");
    reveal_strlit("RAM1");
    reveal_strlit("RAM2");
    assert(name[l - 1] == d[d.len() - 1]);
    if d.len() == 1 {
        assert(name[l - 2] == class.last());
    } else {
        assert(name[l - 2] == d[d.len() - 2]);
    }
    if crate::text::has_suffix(name, "_COMMON"@) {
        assert(name.skip(l - 7)[6] == 'N');
    }
    if crate::text::has_suffix(name, "RAM"@) {
        assert(name.skip(l - 3)[2] == 'M');
    }
    if crate::text::has_suffix(name, "RAM1"@) {
        assert(name.skip(l - 4)[2] == 'M');
    }
    if crate::text::has_suffix(name, "RAM2"@) {
        assert(name.skip(l - 4)[2] == 'M');
    }
}

/// A peripheral that is named by a class and a number counts as an instance of that class, by
/// that number.
pub proof fn a_numbered_peripheral_counts(p: RawPeripheral, class: Seq<char>, n: u8)
    requires
        p.name@ == class + decimal(n as int),
        kind_of_numbered(class) is Some,
    ensures
        part_of(p) == (kind_of_numbered(class)->0, n),
{
    let name = p.name@;
    reveal_strlit("ADC");
    reveal_strlit("DAC");
    reveal_strlit("COMP");
    reveal_strlit("OPAMP");
    reveal_strlit("SPI");
    reveal_strlit("I2C");
    reveal_strlit("I3C");
    reveal_strlit("USART");
    reveal_strlit("UART");
    reveal_strlit("FDCAN");
    reveal_strlit("UCPD");
    reveal_strlit("HRTIM");
    reveal_strlit("HRTIM1");
    reveal_strlit("LPTIM");
    reveal_strlit("TIM");
    reveal_strlit("LPUART1");
    assert(class.len() >= 3 && class.last() != 'M');
    numbered_is_an_instance(class, n);
    number_is_read(class, n);
    assert(name.take(class.len() as int) =~= class);
    if class != "ADC"@ {
        other_prefix(name, class, "ADC"@);
    }
    if class != "DAC"@ {
        other_prefix(name, class, "DAC"@);
    }
    if class != "COMP"@ {
        other_prefix(name, class, "COMP"@);
    }
    if class != "OPAMP"@ {
        other_prefix(name, class, "OPAMP"@);
    }
    if class != "SPI"@ {
        other_prefix(name, class, "SPI"@);
    }
    if class != "I2C"@ {
        other_prefix(name, class, "I2C"@);
    }
    if class != "I3C"@ {
        other_prefix(name, class, "I3C"@);
    }
    if class != "USART"@ {
        other_prefix(name, class, "USART"@);
    }
    if class != "UART"@ {
        other_prefix(name, class, "UART"@);
    }
    if class != "FDCAN"@ {
        other_prefix(name, class, "FDCAN"@);
    }
    if class != "UCPD"@ {
        other_prefix(name, class, "UCPD"@);
    }
    if class != "HRTIM"@ {
        other_prefix(name, class, "HRTIM"@);
    }
    if class != "HRTIM1"@ {
        other_prefix(name, class, "HRTIM1"@);
    }
    if class != "LPTIM"@ {
        other_prefix(name, class, "LPTIM"@);
    }
    if class != "TIM"@ {
        other_prefix(name, class, "TIM"@);
    }
    if class != "LPUART1"@ {
        other_prefix(name, class, "LPUART1"@);
    }
    assert(timer_of(name, p.block) is None);
}

/// The numbers that are listed of a kind are those of the peripherals that count as it.
pub proof fn listed_numbers_are_of_peripherals(ps: Seq<RawPeripheral>, k: PartKind, n: int, x: u8)
    requires
        0 <= n <= ps.len(),
    ensures
        numbers_of(ps, k, n).contains(x) <==> exists|i: int|
            0 <= i < n && part_of(#[trigger] ps[i]) == (k, x),
    decreases n,
{
    if n > 0 {
        listed_numbers_are_of_peripherals(ps, k, n - 1, x);
        if part_of(ps[n - 1]).0 == k {
            pushed(numbers_of(ps, k, n - 1), numbers_of(ps, k, n), part_of(ps[n - 1]).1, x);
            assert(part_of(ps[n - 1]) == (k, part_of(ps[n - 1]).1));
        }
    }
}

/// Whether a text ends with another.
pub open spec fn ends_with(s: Seq<char>, p: Seq<char>) -> bool {
    p.len() <= s.len() && s.skip(s.len() - p.len()) == p
}

/// What a timer's register block says: it counts to thirty-two bits only as the 32-bit
/// general one, it has complementary outputs as the advanced one and as those whose name ends
/// in `_CMP`, and it has four channels but for those whose name gives their number, and the
/// basic one, which has none.
pub proof fn blocks_say_what_timers_can(b: Seq<char>)
    ensures
        timer_block(b) matches Some((kind, channels, comp, width)) ==> {
            &&& width == 32 <==> b == "TIM_GP32"@
            &&& width == 16 || width == 32
            &&& kind == TimerKind::General32 <==> width == 32
            &&& kind == TimerKind::Advanced <==> b == "TIM_ADV"@
            &&& kind == TimerKind::Basic <==> b == "TIM_BASIC"@
            &&& kind != TimerKind::LowPower
            &&& comp <==> b == "TIM_ADV"@ || ends_with(b, "_CMP"@)
            &&& channels == 0 <==> b == "TIM_BASIC"@
            &&& channels == 1 <==> b == "TIM_1CH"@ || b == "TIM_1CH_CMP"@
            &&& channels == 2 <==> b == "TIM_2CH"@ || b == "TIM_2CH_CMP"@
            &&& channels <= 4 && channels != 3
        },
        timer_block(b) is Some <==> b == "TIM_ADV"@ || b == "TIM_GP32"@ || b == "TIM_GP16"@ || b
            == "TIM_2CH"@ || b == "TIM_2CH_CMP"@ || b == "TIM_1CH"@ || b == "TIM_1CH_CMP"@ || b
            == "TIM_BASIC"@,
{
    reveal_strlit("TIM_ADV");
    reveal_strlit("TIM_GP32");
    reveal_strlit("TIM_GP16");
    reveal_strlit("TIM_2CH");
    reveal_strlit("TIM_2CH_CMP");
    reveal_strlit("TIM_1CH");
    reveal_strlit("TIM_1CH_CMP");
    reveal_strlit("TIM_BASIC");
    reveal_strlit("_CMP");
    assert("TIM_ADV"@[4] == 'A' && "TIM_GP32"@[4] == 'G' && "TIM_GP16"@[4] == 'G');
    assert("TIM_GP32"@[6] == '3' && "TIM_GP16"@[6] == '1');
    assert("TIM_2CH"@[4] == '2' && "TIM_1CH"@[4] == '1' && "TIM_BASIC"@[4] == 'B');
    assert("TIM_2CH_CMP"@[4] == '2' && "TIM_1CH_CMP"@[4] == '1');
    assert("TIM_2CH"@.len() == 7 && "TIM_2CH_CMP"@.len() == 11);
    assert("TIM_1CH"@.len() == 7 && "TIM_1CH_CMP"@.len() == 11);
    assert("TIM_2CH_CMP"@.skip(7) =~= "_CMP"@);
    assert("TIM_1CH_CMP"@.skip(7) =~= "_CMP"@);
    if ends_with(b, "_CMP"@) {
        let l = b.len() as int;
        assert(b.skip(l - 4)[3] == 'P');
        assert(b[l - 1] == 'P');
    }
}

/// A timer is numbered by its name; a low-power one goes by its name alone, any other one by
/// its register block.
pub proof fn timers_go_by_name_and_block(n: u8, block: Option<&'static str>)
    ensures
        timer_of("LPTIM"@ + decimal(n as int), block) matches Some(t) && t.number == n && t.kind
            == TimerKind::LowPower && t.channels == 2 && !t.has_complementary && t.width_bits == 16,
        timer_of("TIM"@ + decimal(n as int), block) is Some <==> block is Some && timer_block(
            block->0@,
        ) is Some,
        timer_of("TIM"@ + decimal(n as int), block) matches Some(t) ==> t.number == n && timer_block(
            block->0@,
        ) == Some((t.kind, t.channels, t.has_complementary, t.width_bits)),
{
    reveal_strlit("LPTIM");
    reveal_strlit("TIM");
    number_is_read("LPTIM"@, n);
    number_is_read("TIM"@, n);
    let name = "TIM"@ + decimal(n as int);
    assert(name.take(3) =~= "TIM"@);
    other_prefix(name, "TIM"@, "LPTIM"@);
}

/// Whether one timer may stand before another: advanced ones first, then the 32-bit ones, the
/// 16-bit ones, the basic ones and the low-power ones; and by number within a kind.
pub open spec fn timer_may_precede(a: TimerInstance, b: TimerInstance) -> bool {
    &&& b.kind == TimerKind::Advanced ==> a.kind == TimerKind::Advanced
    &&& b.kind == TimerKind::General32 ==> a.kind == TimerKind::Advanced || a.kind
        == TimerKind::General32
    &&& a.kind == TimerKind::LowPower ==> b.kind == TimerKind::LowPower
    &&& a.kind == TimerKind::Basic ==> b.kind == TimerKind::Basic || b.kind == TimerKind::LowPower
    &&& a.kind == b.kind ==> a.number <= b.number
}

/// Timers are listed by kind, then by number, and none is lost.
pub proof fn timers_are_in_order(v: Seq<TimerInstance>)
    requires
        v.len() <= usize::MAX,
    ensures
        sorted_timers(v).len() == v.len(),
        forall|t: TimerInstance| #[trigger] sorted_timers(v).contains(t) <==> v.contains(t),
        forall|i: int, j: int|
            #![trigger sorted_timers(v)[i], sorted_timers(v)[j]]
            0 <= i < j < v.len() ==> timer_may_precede(sorted_timers(v)[i], sorted_timers(v)[j]),
{
    let keys = v.map_values(
        |t: TimerInstance| (crate::mcu::kind_rank(t.kind) * 256 + t.number) as u64,
    );
    let o = order_of(keys);
    let s = sorted_timers(v);
    order_of_is_stable(keys);
    crate::frontend_order_laws::sorted_holds_all(v, keys);
    assert forall|i: int, j: int|
        #![trigger s[i], s[j]]
        0 <= i < j < v.len() implies timer_may_precede(s[i], s[j]) by {
        let x = o[i] as int;
        let y = o[j] as int;
        assert(o[i] < v.len() && o[j] < v.len());
        assert(s[i] == v[x] && s[j] == v[y]);
        assert(keys[x] == crate::mcu::kind_rank(s[i].kind) * 256 + s[i].number);
        assert(keys[y] == crate::mcu::kind_rank(s[j].kind) * 256 + s[j].number);
    }
}

/// The timers that are listed are those that the names and blocks of the peripherals say.
pub proof fn listed_timers_are_of_peripherals(ps: Seq<RawPeripheral>, n: int, t: TimerInstance)
    requires
        0 <= n <= ps.len(),
    ensures
        timers_of(ps, n).contains(t) <==> exists|i: int|
            0 <= i < n && part_of(#[trigger] ps[i]).0 == PartKind::Timer && timer_of(
                ps[i].name@,
                ps[i].block,
            ) == Some(t),
    decreases n,
{
    if n > 0 {
        listed_timers_are_of_peripherals(ps, n - 1, t);
        let p = ps[n - 1];
        if part_of(p).0 == PartKind::Timer {
            pushed(timers_of(ps, n - 1), timers_of(ps, n), timer_of(p.name@, p.block)->0, t);
            assert(part_of(ps[n - 1]).0 == PartKind::Timer);
        }
    }
}

} // verus!
