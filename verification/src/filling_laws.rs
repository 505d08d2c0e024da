//! What filling a design up to a demand adds: how many of what, with which options, and on
//! which pins.

use vstd::prelude::*;

use crate::c531_design::ConverterLeg;
use crate::class_laws::is_serial;
use crate::demand::adc_specs;
use crate::demand::first_free;
use crate::demand::i2c_specs;
use crate::demand::instances_of;
use crate::demand::instances_upto;
use crate::demand::is_of_classes;
use crate::demand::legs_seeded;
use crate::demand::required_roles;
use crate::demand::role_seeded;
use crate::demand::serial_specs;
use crate::demand::specs_for;
use crate::demand::spi_specs;
use crate::demand::ucpd_specs;
use crate::demand::AdcTemplates;
use crate::demand::DemandView;
use crate::demand::Seeding;
use crate::design_laws::locking_moves_one_signal;
use crate::frontend_order_laws::sorted_holds_all;
use crate::g474::i2c_nr;
use crate::g474::spi_nr;
use crate::g474::ucpd_nr;
use crate::g474::usart_nr;
use crate::g474::TimId;
use crate::h523_design::pin_of;
use crate::h523_design::LockView;
use crate::lists::in_either;
use crate::lists::pushed;
use crate::lowering_laws::can_carry;
use crate::lowering_laws::candidates_are_right;
use crate::mcu_pinout::PinId;
use crate::mcu_raw::RawMcuData;
use crate::mcu_raw::RawPeripheral;
use crate::pinout::pins_carrying;
use crate::requirement_laws::repeats_go;
use crate::requirements::RequirementSpec;
use crate::select::classes_of_kind;
use crate::text::before;
use crate::texts::sorted_texts;
use crate::texts::sorted_texts_ascend;
use crate::texts::text_ranks;

verus! {

/// How many of `count` are to be added to the `cur` that are there, if the chip has `most`.
pub open spec fn to_add(cur: int, count: int, most: int) -> int {
    let goal = if count < most {
        count
    } else {
        most
    };
    if goal > cur {
        goal - cur
    } else {
        0
    }
}

/// Whether a requirement is the serial line of a number, with the options.
pub open spec fn is_serial_line(s: RequirementSpec, n: int, flow: bool, sync: bool) -> bool {
    s matches RequirementSpec::UseUsart { instance, flow_control, synchronous } && usart_nr(instance)
        == n && flow_control == flow && synchronous == sync
}

/// Whether a requirement is the SPI of a number, with the options.
pub open spec fn is_spi(s: RequirementSpec, n: int, select: bool) -> bool {
    s matches RequirementSpec::UseSpi { instance, needs_miso, needs_nss } && spi_nr(instance) == n
        && needs_miso && needs_nss == select
}

/// Whether a requirement is the I2C of a number, with the options.
pub open spec fn is_i2c(s: RequirementSpec, n: int, alert: bool) -> bool {
    s matches RequirementSpec::UseI2c { instance, needs_smba } && i2c_nr(instance) == n && needs_smba
        == alert
}

/// Whether a requirement is the UCPD of a number.
pub open spec fn is_ucpd(s: RequirementSpec, n: int) -> bool {
    s matches RequirementSpec::UseUcpd { instance } && ucpd_nr(instance) == n
}

proof fn lines_are_added(flow: bool, sync: bool, lo: int, hi: int)
    requires
        0 <= lo,
    ensures
        serial_specs(flow, sync, lo, hi).len() == to_add(lo, hi, 3),
        forall|i: int|
            0 <= i < serial_specs(flow, sync, lo, hi).len() ==> is_serial_line(
                #[trigger] serial_specs(flow, sync, lo, hi)[i],
                lo + i + 1,
                flow,
                sync,
            ),
    decreases hi - lo,
{
    if hi > lo {
        lines_are_added(flow, sync, lo, hi - 1);
        let had = serial_specs(flow, sync, lo, hi - 1);
        let now = serial_specs(flow, sync, lo, hi);
        assert forall|i: int| 0 <= i < now.len() implies is_serial_line(
            #[trigger] now[i],
            lo + i + 1,
            flow,
            sync,
        ) by {
            if i < had.len() {
                assert(now[i] == had[i]);
            }
        }
    }
}

proof fn spis_are_added(select: bool, lo: int, hi: int)
    requires
        0 <= lo,
    ensures
        spi_specs(select, lo, hi).len() == to_add(lo, hi, 3),
        forall|i: int|
            0 <= i < spi_specs(select, lo, hi).len() ==> is_spi(
                #[trigger] spi_specs(select, lo, hi)[i],
                lo + i + 1,
                select,
            ),
    decreases hi - lo,
{
    if hi > lo {
        spis_are_added(select, lo, hi - 1);
        let had = spi_specs(select, lo, hi - 1);
        let now = spi_specs(select, lo, hi);
        assert forall|i: int| 0 <= i < now.len() implies is_spi(#[trigger] now[i], lo + i + 1, select) by {
            if i < had.len() {
                assert(now[i] == had[i]);
            }
        }
    }
}

proof fn i2cs_are_added(alert: bool, lo: int, hi: int)
    requires
        0 <= lo,
    ensures
        i2c_specs(alert, lo, hi).len() == to_add(lo, hi, 4),
        forall|i: int|
            0 <= i < i2c_specs(alert, lo, hi).len() ==> is_i2c(
                #[trigger] i2c_specs(alert, lo, hi)[i],
                lo + i + 1,
                alert,
            ),
    decreases hi - lo,
{
    if hi > lo {
        i2cs_are_added(alert, lo, hi - 1);
        let had = i2c_specs(alert, lo, hi - 1);
        let now = i2c_specs(alert, lo, hi);
        assert forall|i: int| 0 <= i < now.len() implies is_i2c(#[trigger] now[i], lo + i + 1, alert) by {
            if i < had.len() {
                assert(now[i] == had[i]);
            }
        }
    }
}

proof fn ucpds_are_added(lo: int, hi: int)
    requires
        0 <= lo,
    ensures
        ucpd_specs(lo, hi).len() == to_add(lo, hi, 1),
        forall|i: int|
            0 <= i < ucpd_specs(lo, hi).len() ==> is_ucpd(#[trigger] ucpd_specs(lo, hi)[i], lo + i + 1),
    decreases hi - lo,
{
    if hi > lo {
        ucpds_are_added(lo, hi - 1);
        let had = ucpd_specs(lo, hi - 1);
        let now = ucpd_specs(lo, hi);
        assert forall|i: int| 0 <= i < now.len() implies is_ucpd(#[trigger] now[i], lo + i + 1) by {
            if i < had.len() {
                assert(now[i] == had[i]);
            }
        }
    }
}

proof fn conversions_are_added(t: AdcTemplates, id: u32, n: int)
    requires
        0 <= n,
    ensures
        adc_specs(t, id, n).len() == n + 1,
        adc_specs(t, id, n)[0] is AdcSequencer,
        forall|i: int|
            1 <= i < n + 1 ==> ((#[trigger] adc_specs(t, id, n)[i]) matches RequirementSpec::AdcConversion {
                group,
                ..
            } && group == id),
    decreases n,
{
    if n > 0 {
        conversions_are_added(t, id, n - 1);
        let had = adc_specs(t, id, n - 1);
        let now = adc_specs(t, id, n);
        assert(now[0] == had[0]);
        assert forall|i: int| 1 <= i < n + 1 implies ((
        #[trigger] now[i]) matches RequirementSpec::AdcConversion { group, .. } && group == id) by {
            if i < n {
                assert(now[i] == had[i]);
            }
        }
    }
}

/// A demand for so many of a kind adds the missing ones, as far as the chip has them: the next
/// instances by number, with the options that were chosen; trips and conversions as many as
/// are missing, the conversions behind a sequencer that they ask for.
pub proof fn a_demand_adds_what_is_missing(dem: DemandView, cur: int, t: AdcTemplates, id: u32)
    requires
        0 <= cur,
    ensures
        ({
            let v = specs_for(dem, cur, t, id);
            let has = |o: Seq<char>| dem.options.contains(o);
            &&& dem.kind == "SERIAL"@ ==> v.len() == to_add(cur, dem.count as int, 3) && forall|i: int|
                0 <= i < v.len() ==> is_serial_line(
                    #[trigger] v[i],
                    cur + i + 1,
                    has("flow control"@),
                    has("sync clock"@),
                )
            &&& dem.kind == "SPI"@ ==> v.len() == to_add(cur, dem.count as int, 3) && forall|i: int|
                0 <= i < v.len() ==> is_spi(#[trigger] v[i], cur + i + 1, has("chip-select"@))
            &&& dem.kind == "I2C"@ ==> v.len() == to_add(cur, dem.count as int, 4) && forall|i: int|
                0 <= i < v.len() ==> is_i2c(#[trigger] v[i], cur + i + 1, has("SMBus alert"@))
            &&& dem.kind == "UCPD"@ ==> v.len() == to_add(cur, dem.count as int, 1) && forall|i: int|
                0 <= i < v.len() ==> is_ucpd(#[trigger] v[i], cur + i + 1)
            &&& dem.kind == "OCP"@ ==> v.len() == to_add(cur, dem.count as int, dem.count as int)
                && forall|i: int| 0 <= i < v.len() ==> #[trigger] v[i] is ShortCircuitFault
            &&& dem.kind == "ADC"@ && dem.count > cur ==> v.len() == dem.count - cur + 1
                && v[0] is AdcSequencer && forall|i: int|
                1 <= i < v.len() ==> ((#[trigger] v[i]) matches RequirementSpec::AdcConversion {
                    group,
                    ..
                } && group == id)
            &&& dem.kind == "ADC"@ && dem.count <= cur ==> v.len() == 0
        }),
{
    reveal_strlit("SERIAL");
    reveal_strlit("SPI");
    reveal_strlit("I2C");
    reveal_strlit("UCPD");
    reveal_strlit("OCP");
    reveal_strlit("ADC");
    assert("SPI"@[0] == 'S' && "I2C"@[0] == 'I' && "OCP"@[0] == 'O' && "ADC"@[0] == 'A');
    assert("UCPD"@[0] == 'U' && "SERIAL"@.len() == 6 && "SPI"@.len() == 3);
    lines_are_added(
        dem.options.contains("flow control"@),
        dem.options.contains("sync clock"@),
        cur,
        dem.count as int,
    );
    spis_are_added(dem.options.contains("chip-select"@), cur, dem.count as int);
    i2cs_are_added(dem.options.contains("SMBus alert"@), cur, dem.count as int);
    ucpds_are_added(cur, dem.count as int);
    if dem.count > cur {
        conversions_are_added(t, id, dem.count - cur);
    }
}

/// Whether a peripheral of a kind needs a pin for a role.
pub open spec fn is_needed_role(kind: Seq<char>, options: Seq<Seq<char>>, role: Seq<char>) -> bool {
    ||| kind == "SERIAL"@ && (role == "TX"@ || role == "RX"@)
    ||| kind == "SERIAL"@ && options.contains("flow control"@) && (role == "CTS"@ || role == "RTS"@)
    ||| kind == "SERIAL"@ && options.contains("sync clock"@) && role == "CK"@
    ||| kind == "SPI"@ && (role == "SCK"@ || role == "MOSI"@ || role == "MISO"@)
    ||| kind == "SPI"@ && options.contains("chip-select"@) && role == "NSS"@
    ||| kind == "I2C"@ && (role == "SCL"@ || role == "SDA"@)
    ||| kind == "I2C"@ && options.contains("SMBus alert"@) && role == "SMBA"@
    ||| kind == "UCPD"@ && (role == "CC1"@ || role == "CC2"@)
}

proof fn in_few(a: Seq<char>, b: Seq<char>, c: Seq<char>, x: Seq<char>)
    ensures
        seq![a].contains(x) <==> x == a,
        seq![a, b].contains(x) <==> x == a || x == b,
        seq![a, b, c].contains(x) <==> x == a || x == b || x == c,
{
    assert(seq![a][0] == a);
    assert(seq![a, b][0] == a && seq![a, b][1] == b);
    assert(seq![a, b, c][0] == a && seq![a, b, c][1] == b && seq![a, b, c][2] == c);
}

/// A peripheral of a kind needs its usual lines, those of the options that were chosen, and no
/// others.
pub proof fn roles_follow_the_options(kind: Seq<char>, options: Seq<Seq<char>>, role: Seq<char>)
    ensures
        required_roles(kind, options).contains(role) <==> is_needed_role(kind, options, role),
{
    reveal_strlit("SERIAL");
    reveal_strlit("SPI");
    reveal_strlit("I2C");
    reveal_strlit("UCPD");
    assert("SPI"@[0] == 'S' && "I2C"@[0] == 'I' && "UCPD"@[0] == 'U');
    assert("SERIAL"@.len() == 6 && "SPI"@.len() == 3);
    let none = Seq::<Seq<char>>::empty();
    in_few("TX"@, "RX"@, ""@, role);
    in_few("CTS"@, "RTS"@, ""@, role);
    in_few("CK"@, ""@, ""@, role);
    in_few("SCK"@, "MOSI"@, "MISO"@, role);
    in_few("NSS"@, ""@, ""@, role);
    in_few("SCL"@, "SDA"@, ""@, role);
    in_few("SMBA"@, ""@, ""@, role);
    in_few("CC1"@, "CC2"@, ""@, role);
    let flow = if options.contains("flow control"@) {
        seq!["CTS"@, "RTS"@]
    } else {
        none
    };
    let clock = if options.contains("sync clock"@) {
        seq!["CK"@]
    } else {
        none
    };
    let select = if options.contains("chip-select"@) {
        seq!["NSS"@]
    } else {
        none
    };
    let alert = if options.contains("SMBus alert"@) {
        seq!["SMBA"@]
    } else {
        none
    };
    in_either(seq!["TX"@, "RX"@], flow, role);
    in_either(seq!["TX"@, "RX"@] + flow, clock, role);
    in_either(seq!["SCK"@, "MOSI"@, "MISO"@], select, role);
    in_either(seq!["SCL"@, "SDA"@], alert, role);
}

proof fn the_first_free(pins: Seq<PinId>, taken: Set<PinId>, k: int)
    requires
        0 <= k,
    ensures
        first_free(pins, taken, k) matches Some(p) ==> pins.contains(p) && !taken.contains(p),
        first_free(pins, taken, k) is None ==> forall|j: int|
            k <= j < pins.len() ==> taken.contains(#[trigger] pins[j]),
    decreases pins.len() - k,
{
    if k < pins.len() && taken.contains(pins[k]) {
        the_first_free(pins, taken, k + 1);
    }
}

/// A role that has a pin keeps it. One without is put on a pin that can carry it and that is
/// not taken, if there is one; the other signals stay where they are.
pub proof fn a_role_goes_to_a_free_pin(
    s: Seeding,
    raw: RawMcuData,
    key: (Seq<char>, Seq<char>),
    l: LockView,
)
    requires
        forall|i: int|
            0 <= i < s.design.locks.len() ==> s.taken.contains((#[trigger] s.design.locks[i]).pin),
    ensures
        ({
            let t = role_seeded(s, raw, key);
            &&& t.design.uses == s.design.uses
            &&& pin_of(s.design.locks, key, 0) is Some ==> t == s
            &&& pin_of(s.design.locks, key, 0) is None && (forall|p: PinId| #[trigger]
                can_carry(raw, key, p) ==> s.taken.contains(p)) ==> t == s
            &&& pin_of(s.design.locks, key, 0) is None && (exists|p: PinId| #[trigger]
                can_carry(raw, key, p) && !s.taken.contains(p)) ==> exists|p: PinId| #[trigger]
                can_carry(raw, key, p) && !s.taken.contains(p) && t.taken == s.taken.insert(p) && (
                t.design.locks.contains(l) <==> (l.key == key && l.pin == p) || (l.key != key
                    && s.design.locks.contains(l)))
        }),
{
    let pins = pins_carrying(raw, key);
    candidates_are_right(raw, key);
    the_first_free(pins, s.taken, 0);
    if let Some(p) = first_free(pins, s.taken, 0) {
        locking_moves_one_signal(s.design.locks, key, p, l);
        assert(can_carry(raw, key, p));
        if s.design.locks.contains(l) {
            let i = choose|i: int| 0 <= i < s.design.locks.len() && s.design.locks[i] == l;
            assert(s.taken.contains(s.design.locks[i].pin));
        }
    } else {
        assert forall|p: PinId| #[trigger] can_carry(raw, key, p) implies s.taken.contains(p) by {
            assert(pins.contains(p));
            let j = choose|j: int| 0 <= j < pins.len() && pins[j] == p;
            assert(s.taken.contains(pins[j]));
        }
    }
}

proof fn named_are_listed(ps: Seq<RawPeripheral>, classes: Seq<Seq<char>>, n: int, x: Seq<char>)
    requires
        0 <= n <= ps.len(),
    ensures
        instances_upto(ps, classes, n).len() <= n,
        instances_upto(ps, classes, n).contains(x) <==> is_of_classes(x, classes) && exists|i: int|
            0 <= i < n && (#[trigger] ps[i]).name@ == x,
    decreases n,
{
    if n > 0 {
        named_are_listed(ps, classes, n - 1, x);
        let had = instances_upto(ps, classes, n - 1);
        let now = instances_upto(ps, classes, n);
        if is_of_classes(ps[n - 1].name@, classes) {
            pushed(had, now, ps[n - 1].name@, x);
        }
    }
}

/// The instances of a kind are the peripherals whose name is one of the kind's classes and a
/// number, in order and each once.
pub proof fn instances_of_a_kind(raw: RawMcuData, kind: Seq<char>, x: Seq<char>)
    requires
        raw.peripherals@.len() <= usize::MAX,
    ensures
        instances_of(raw, kind).contains(x) <==> is_of_classes(x, classes_of_kind(kind)) && exists|
            i: int,
        |
            0 <= i < raw.peripherals@.len() && (#[trigger] raw.peripherals@[i]).name@ == x,
        forall|i: int, j: int|
            #![trigger instances_of(raw, kind)[i], instances_of(raw, kind)[j]]
            0 <= i < j < instances_of(raw, kind).len() ==> before(
                instances_of(raw, kind)[i],
                instances_of(raw, kind)[j],
            ),
{
    let ps = raw.peripherals@;
    let v = instances_upto(ps, classes_of_kind(kind), ps.len() as int);
    named_are_listed(ps, classes_of_kind(kind), ps.len() as int, x);
    sorted_texts_ascend(v);
    let s = sorted_texts(v);
    sorted_holds_all(v, text_ranks(v));
    assert(s.contains(x) <==> v.contains(x));
    repeats_go(s, s.len() as int, x);
    assert(s.take(s.len() as int) =~= s);
}

/// The classes that count as serial ports are USART, UART and LPUART; SPI, I2C, ADC and UCPD
/// are of their own kind.
pub proof fn classes_of_the_kinds(c: Seq<char>)
    ensures
        classes_of_kind("SERIAL"@).contains(c) <==> is_serial(c),
        classes_of_kind("SPI"@).contains(c) <==> c == "SPI"@,
        classes_of_kind("I2C"@).contains(c) <==> c == "I2C"@,
        classes_of_kind("ADC"@).contains(c) <==> c == "ADC"@,
        classes_of_kind("UCPD"@).contains(c) <==> c == "UCPD"@,
{
    reveal_strlit("SERIAL");
    reveal_strlit("SPI");
    reveal_strlit("I2C");
    reveal_strlit("ADC");
    reveal_strlit("UCPD");
    assert("SPI"@[0] == 'S' && "I2C"@[0] == 'I' && "ADC"@[0] == 'A' && "UCPD"@[0] == 'U');
    assert("SERIAL"@.len() == 6 && "SPI"@.len() == 3);
    in_few("SPI"@, ""@, ""@, c);
    in_few("I2C"@, ""@, ""@, c);
    in_few("ADC"@, ""@, ""@, c);
    in_few("UCPD"@, ""@, ""@, c);
    in_few("USART"@, "UART"@, "LPUART"@, c);
}

/// Whether a leg is a complementary one with dead time, on one channel and with nothing else.
pub open spec fn is_plain_leg(leg: ConverterLeg, tim: TimId) -> bool {
    &&& leg.tim == tim
    &&& leg.channels_mask == 1
    &&& leg.complementary && leg.dead_time
    &&& !leg.bkin && leg.ocp is None && leg.adc_sense is None
}

/// A demand for complementary outputs adds the missing legs, on the first and then on the
/// second advanced timer, and leaves those that are there.
pub proof fn missing_legs_are_added(legs: Seq<ConverterLeg>, cur: int, count: int)
    requires
        0 <= cur,
    ensures
        ({
            let v = legs_seeded(legs, cur, count);
            &&& v.len() == legs.len() + to_add(cur, count, 2)
            &&& forall|i: int| 0 <= i < legs.len() ==> #[trigger] v[i] == legs[i]
            &&& forall|i: int|
                legs.len() <= i < v.len() ==> is_plain_leg(
                    #[trigger] v[i],
                    if cur + i - legs.len() == 0 {
                        TimId::Tim1
                    } else {
                        TimId::Tim8
                    },
                )
        }),
    decreases count - cur,
{
    if count > cur {
        missing_legs_are_added(legs, cur, count - 1);
        let had = legs_seeded(legs, cur, count - 1);
        let v = legs_seeded(legs, cur, count);
        assert forall|i: int| 0 <= i < legs.len() implies #[trigger] v[i] == legs[i] by {
            assert(v[i] == had[i]);
        }
        assert forall|i: int| legs.len() <= i < v.len() implies is_plain_leg(
            #[trigger] v[i],
            if cur + i - legs.len() == 0 {
                TimId::Tim1
            } else {
                TimId::Tim8
            },
        ) by {
            if i < had.len() {
                assert(v[i] == had[i]);
            }
        }
    }
}

} // verus!
