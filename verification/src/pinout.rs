//! Typed signals of the planned families, and the pins that carry them.

use vstd::prelude::*;

use crate::g474::adc_nr;
use crate::g474::can_nr;
use crate::g474::i2c_nr;
use crate::g474::lpuart_nr;
use crate::g474::spi_nr;
use crate::g474::tim_ch_nr;
use crate::g474::tim_nr;
use crate::g474::uart_nr;
use crate::g474::ucpd_nr;
use crate::g474::usart_nr;
use crate::g474::AdcInstance;
use crate::g474::CanId;
use crate::g474::I2cId;
use crate::g474::LpuartId;
use crate::g474::SpiId;
use crate::g474::TimCh;
use crate::g474::TimId;
use crate::g474::UartId;
use crate::g474::UcpdId;
use crate::g474::UsartId;
use crate::mcu::Package;
use crate::mcu_pinout;
use crate::mcu_pinout::rows_of;
use crate::mcu_pinout::AfRow;
use crate::mcu_pinout::OwnedSignal;
use crate::mcu_pinout::PinId;
use crate::mcu_raw::RawMcuData;
use crate::text;
use crate::text::decimal;

verus! {

/// A G474 package, by its letter.
#[derive(Copy, Clone, Debug, PartialEq, Eq, Structural, Hash)]
pub enum ChipVariant {
    G474C,
    G474M,
    G474P,
    G474Q,
    G474R,
    G474V,
}

/// A physical pin.
pub type Pin = PinId;

/// A signal of a typed peripheral.
#[derive(Copy, Clone, Debug, PartialEq, Eq, Structural, Hash)]
pub enum Signal {
    TimCh(TimId, TimCh),
    /// The complementary output of a channel.
    TimChN(TimId, TimCh),
    /// The break input.
    TimBkin(TimId),
    AdcIn { adc: AdcInstance, channel: u8 },
    SpiMosi(SpiId),
    SpiMiso(SpiId),
    SpiSck(SpiId),
    SpiNss(SpiId),
    I2cSda(I2cId),
    I2cScl(I2cId),
    I2cSmba(I2cId),
    UsartTx(UsartId),
    UsartRx(UsartId),
    UsartCts(UsartId),
    UsartRts(UsartId),
    UsartCk(UsartId),
    UartTx(UartId),
    UartRx(UartId),
    UartCts(UartId),
    UartRts(UartId),
    LpuartTx(LpuartId),
    LpuartRx(LpuartId),
    LpuartCts(LpuartId),
    LpuartRts(LpuartId),
    CanTx(CanId),
    CanRx(CanId),
    UcpdCc1(UcpdId),
    UcpdCc2(UcpdId),
    UsbDp,
    UsbDm,
}

/// The name of the signal's peripheral instance.
pub open spec fn signal_peripheral(s: Signal) -> Seq<char> {
    match s {
        Signal::TimCh(t, _) => "TIM"@ + decimal(tim_nr(t) as int),
        Signal::TimChN(t, _) => "TIM"@ + decimal(tim_nr(t) as int),
        Signal::TimBkin(t) => "TIM"@ + decimal(tim_nr(t) as int),
        Signal::AdcIn { adc, channel: _ } => "ADC"@ + decimal(adc_nr(adc) as int),
        Signal::SpiMosi(x) => "SPI"@ + decimal(spi_nr(x) as int),
        Signal::SpiMiso(x) => "SPI"@ + decimal(spi_nr(x) as int),
        Signal::SpiSck(x) => "SPI"@ + decimal(spi_nr(x) as int),
        Signal::SpiNss(x) => "SPI"@ + decimal(spi_nr(x) as int),
        Signal::I2cSda(x) => "I2C"@ + decimal(i2c_nr(x) as int),
        Signal::I2cScl(x) => "I2C"@ + decimal(i2c_nr(x) as int),
        Signal::I2cSmba(x) => "I2C"@ + decimal(i2c_nr(x) as int),
        Signal::UsartTx(x) => "USART"@ + decimal(usart_nr(x) as int),
        Signal::UsartRx(x) => "USART"@ + decimal(usart_nr(x) as int),
        Signal::UsartCts(x) => "USART"@ + decimal(usart_nr(x) as int),
        Signal::UsartRts(x) => "USART"@ + decimal(usart_nr(x) as int),
        Signal::UsartCk(x) => "USART"@ + decimal(usart_nr(x) as int),
        Signal::UartTx(x) => "UART"@ + decimal(uart_nr(x) as int),
        Signal::UartRx(x) => "UART"@ + decimal(uart_nr(x) as int),
        Signal::UartCts(x) => "UART"@ + decimal(uart_nr(x) as int),
        Signal::UartRts(x) => "UART"@ + decimal(uart_nr(x) as int),
        Signal::LpuartTx(x) => "LPUART"@ + decimal(lpuart_nr(x) as int),
        Signal::LpuartRx(x) => "LPUART"@ + decimal(lpuart_nr(x) as int),
        Signal::LpuartCts(x) => "LPUART"@ + decimal(lpuart_nr(x) as int),
        Signal::LpuartRts(x) => "LPUART"@ + decimal(lpuart_nr(x) as int),
        Signal::CanTx(x) => "FDCAN"@ + decimal(can_nr(x) as int),
        Signal::CanRx(x) => "FDCAN"@ + decimal(can_nr(x) as int),
        Signal::UcpdCc1(x) => "UCPD"@ + decimal(ucpd_nr(x) as int),
        Signal::UcpdCc2(x) => "UCPD"@ + decimal(ucpd_nr(x) as int),
        Signal::UsbDp => "USB"@,
        Signal::UsbDm => "USB"@,
    }
}

/// The name of the signal within its peripheral.
pub open spec fn signal_role(s: Signal) -> Seq<char> {
    match s {
        Signal::TimCh(_, c) => "CH"@ + decimal(tim_ch_nr(c) as int),
        Signal::TimChN(_, c) => "CH"@ + decimal(tim_ch_nr(c) as int) + "N"@,
        Signal::TimBkin(_) => "BKIN"@,
        Signal::AdcIn { adc: _, channel } => "IN"@ + decimal(channel as int),
        Signal::SpiMosi(_) => "MOSI"@,
        Signal::SpiMiso(_) => "MISO"@,
        Signal::SpiSck(_) => "SCK"@,
        Signal::SpiNss(_) => "NSS"@,
        Signal::I2cSda(_) => "SDA"@,
        Signal::I2cScl(_) => "SCL"@,
        Signal::I2cSmba(_) => "SMBA"@,
        Signal::UsartTx(_) => "TX"@,
        Signal::UsartRx(_) => "RX"@,
        Signal::UsartCts(_) => "CTS"@,
        Signal::UsartRts(_) => "RTS"@,
        Signal::UsartCk(_) => "CK"@,
        Signal::UartTx(_) => "TX"@,
        Signal::UartRx(_) => "RX"@,
        Signal::UartCts(_) => "CTS"@,
        Signal::UartRts(_) => "RTS"@,
        Signal::LpuartTx(_) => "TX"@,
        Signal::LpuartRx(_) => "RX"@,
        Signal::LpuartCts(_) => "CTS"@,
        Signal::LpuartRts(_) => "RTS"@,
        Signal::CanTx(_) => "TX"@,
        Signal::CanRx(_) => "RX"@,
        Signal::UcpdCc1(_) => "CC1"@,
        Signal::UcpdCc2(_) => "CC2"@,
        Signal::UsbDp => "DP"@,
        Signal::UsbDm => "DM"@,
    }
}

/// The names of a signal.
pub open spec fn signal_key(s: Signal) -> (Seq<char>, Seq<char>) {
    (signal_peripheral(s), signal_role(s))
}

fn numbered_name(class: &str, n: u8) -> (r: String)
    ensures
        r@ == class@ + decimal(n as int),
{
    let mut s: String = class.to_owned();
    text::push_number(&mut s, n as u64);
    s
}

fn peripheral_name(s: Signal) -> (r: String)
    ensures
        r@ == signal_peripheral(s),
{
    match s {
        Signal::TimCh(t, _) => numbered_name("TIM", t.number()),
        Signal::TimChN(t, _) => numbered_name("TIM", t.number()),
        Signal::TimBkin(t) => numbered_name("TIM", t.number()),
        Signal::AdcIn { adc, channel: _ } => numbered_name("ADC", adc.number()),
        Signal::SpiMosi(x) => numbered_name("SPI", x.number()),
        Signal::SpiMiso(x) => numbered_name("SPI", x.number()),
        Signal::SpiSck(x) => numbered_name("SPI", x.number()),
        Signal::SpiNss(x) => numbered_name("SPI", x.number()),
        Signal::I2cSda(x) => numbered_name("I2C", x.number()),
        Signal::I2cScl(x) => numbered_name("I2C", x.number()),
        Signal::I2cSmba(x) => numbered_name("I2C", x.number()),
        Signal::UsartTx(x) => numbered_name("USART", x.number()),
        Signal::UsartRx(x) => numbered_name("USART", x.number()),
        Signal::UsartCts(x) => numbered_name("USART", x.number()),
        Signal::UsartRts(x) => numbered_name("USART", x.number()),
        Signal::UsartCk(x) => numbered_name("USART", x.number()),
        Signal::UartTx(x) => numbered_name("UART", x.number()),
        Signal::UartRx(x) => numbered_name("UART", x.number()),
        Signal::UartCts(x) => numbered_name("UART", x.number()),
        Signal::UartRts(x) => numbered_name("UART", x.number()),
        Signal::LpuartTx(x) => numbered_name("LPUART", x.number()),
        Signal::LpuartRx(x) => numbered_name("LPUART", x.number()),
        Signal::LpuartCts(x) => numbered_name("LPUART", x.number()),
        Signal::LpuartRts(x) => numbered_name("LPUART", x.number()),
        Signal::CanTx(x) => numbered_name("FDCAN", x.number()),
        Signal::CanRx(x) => numbered_name("FDCAN", x.number()),
        Signal::UcpdCc1(x) => numbered_name("UCPD", x.number()),
        Signal::UcpdCc2(x) => numbered_name("UCPD", x.number()),
        Signal::UsbDp => "USB".to_owned(),
        Signal::UsbDm => "USB".to_owned(),
    }
}

fn role_name(s: Signal) -> (r: String)
    ensures
        r@ == signal_role(s),
{
    match s {
        Signal::TimCh(_, c) => numbered_name("CH", c.number()),
        Signal::TimChN(_, c) => {
            let mut n: String = numbered_name("CH", c.number());
            n.append("N");
            n
        },
        Signal::TimBkin(_) => "BKIN".to_owned(),
        Signal::AdcIn { adc: _, channel } => numbered_name("IN", channel),
        Signal::SpiMosi(_) => "MOSI".to_owned(),
        Signal::SpiMiso(_) => "MISO".to_owned(),
        Signal::SpiSck(_) => "SCK".to_owned(),
        Signal::SpiNss(_) => "NSS".to_owned(),
        Signal::I2cSda(_) => "SDA".to_owned(),
        Signal::I2cScl(_) => "SCL".to_owned(),
        Signal::I2cSmba(_) => "SMBA".to_owned(),
        Signal::UsartTx(_) => "TX".to_owned(),
        Signal::UsartRx(_) => "RX".to_owned(),
        Signal::UsartCts(_) => "CTS".to_owned(),
        Signal::UsartRts(_) => "RTS".to_owned(),
        Signal::UsartCk(_) => "CK".to_owned(),
        Signal::UartTx(_) => "TX".to_owned(),
        Signal::UartRx(_) => "RX".to_owned(),
        Signal::UartCts(_) => "CTS".to_owned(),
        Signal::UartRts(_) => "RTS".to_owned(),
        Signal::LpuartTx(_) => "TX".to_owned(),
        Signal::LpuartRx(_) => "RX".to_owned(),
        Signal::LpuartCts(_) => "CTS".to_owned(),
        Signal::LpuartRts(_) => "RTS".to_owned(),
        Signal::CanTx(_) => "TX".to_owned(),
        Signal::CanRx(_) => "RX".to_owned(),
        Signal::UcpdCc1(_) => "CC1".to_owned(),
        Signal::UcpdCc2(_) => "CC2".to_owned(),
        Signal::UsbDp => "DP".to_owned(),
        Signal::UsbDm => "DM".to_owned(),
    }
}

/// The signal by its names.
pub fn signal_to_owned(s: Signal) -> (r: OwnedSignal)
    ensures
        r.key() == signal_key(s),
{
    OwnedSignal { peripheral: peripheral_name(s), role: role_name(s) }
}

/// The pins among the first `n` rows that carry the signal of these names, each once.
pub open spec fn carriers(rows: Seq<AfRow>, key: (Seq<char>, Seq<char>), n: int) -> Seq<PinId>
    decreases n,
{
    if n <= 0 {
        Seq::empty()
    } else {
        let r = rows[n - 1];
        let before = carriers(rows, key, n - 1);
        if r.signal.peripheral@ == key.0 && r.signal.role@ == key.1 && !before.contains(r.pin) {
            before.push(r.pin)
        } else {
            before
        }
    }
}

/// The pins of a chip that can carry the signal of these names, in table order.
pub open spec fn pins_carrying(raw: RawMcuData, key: (Seq<char>, Seq<char>)) -> Seq<PinId> {
    carriers(rows_of(raw), key, rows_of(raw).len() as int)
}

fn holds_pin(v: &[PinId], p: PinId) -> (r: bool)
    ensures
        r == v@.contains(p),
{
    let mut i: usize = 0;
    while i < v.len()
        invariant
            i <= v@.len(),
            forall|k: int| 0 <= k < i ==> v@[k] != p,
        decreases v@.len() - i,
    {
        if v[i] == p {
            assert(v@[i as int] == p);
            return true;
        }
        i += 1;
    }
    false
}

/// The pins of a chip that can carry a signal, in table order.
pub fn pins_for(raw: &RawMcuData, signal: &OwnedSignal) -> (r: Vec<PinId>)
    ensures
        r@ == pins_carrying(*raw, signal.key()),
{
    let rows: Vec<AfRow> = mcu_pinout::af_rows(raw);
    let mut out: Vec<PinId> = Vec::new();
    let mut i: usize = 0;
    while i < rows.len()
        invariant
            i <= rows@.len(),
            out@ == carriers(rows@, signal.key(), i as int),
        decreases rows@.len() - i,
    {
        let r: AfRow = rows[i];
        if text::same(r.signal.peripheral, signal.peripheral.as_str()) && text::same(
            r.signal.role,
            signal.role.as_str(),
        ) && !holds_pin(&out, r.pin) {
            out.push(r.pin);
        }
        i += 1;
    }
    out
}

/// The pins of a part that can carry a typed signal, in table order.
pub fn pins_for_pkg(signal: Signal, package: Package) -> (r: Vec<Pin>)
    ensures
        r@ == pins_carrying(*package.info.raw, signal_key(signal)),
{
    let owned: OwnedSignal = signal_to_owned(signal);
    pins_for(package.info.raw, &owned)
}

/// What `carriers` lists: pins of matching rows, each once, and all of them.
pub proof fn carriers_are_right(rows: Seq<AfRow>, key: (Seq<char>, Seq<char>), n: int)
    requires
        0 <= n <= rows.len(),
    ensures
        carriers(rows, key, n).no_duplicates(),
        forall|p: PinId| #[trigger]
            carriers(rows, key, n).contains(p) <==> exists|i: int|
                0 <= i < n && #[trigger] carries(rows[i], key, p),
    decreases n,
{
    if n > 0 {
        carriers_are_right(rows, key, n - 1);
        let a = carriers(rows, key, n - 1);
        let b = carriers(rows, key, n);
        let r = rows[n - 1];
        assert forall|p: PinId| #[trigger] b.contains(p) <==> exists|i: int|
            0 <= i < n && #[trigger] carries(rows[i], key, p) by {
            if b.contains(p) {
                let k = choose|k: int| 0 <= k < b.len() && b[k] == p;
                if k < a.len() {
                    assert(a[k] == p);
                    assert(a.contains(p));
                    let i = choose|i: int| 0 <= i < n - 1 && #[trigger] carries(rows[i], key, p);
                    assert(carries(rows[i], key, p));
                } else {
                    assert(carries(rows[n - 1], key, p));
                }
            }
            if exists|i: int| 0 <= i < n && #[trigger] carries(rows[i], key, p) {
                let i = choose|i: int| 0 <= i < n && #[trigger] carries(rows[i], key, p);
                if i < n - 1 {
                    assert(a.contains(p));
                    let k = choose|k: int| 0 <= k < a.len() && a[k] == p;
                    assert(b[k] == p);
                } else if a.contains(p) {
                    let k = choose|k: int| 0 <= k < a.len() && a[k] == p;
                    assert(b[k] == p);
                } else {
                    assert(b[a.len() as int] == p);
                }
            }
        }
    }
}

/// Whether a row carries the signal of these names on the pin.
pub open spec fn carries(r: AfRow, key: (Seq<char>, Seq<char>), p: PinId) -> bool {
    r.pin == p && r.signal.peripheral@ == key.0 && r.signal.role@ == key.1
}

} // verus!
