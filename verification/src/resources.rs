//! What assignments take up, and how it is shown.

use vstd::prelude::*;

use crate::g474::all_capture_units;
use crate::g474::all_capture_units_seq;
use crate::g474::all_cr_slots;
use crate::g474::all_cr_slots_seq;
use crate::g474::can_nr;
use crate::g474::comp_name;
use crate::g474::cpt_name;
use crate::g474::cr_name;
use crate::g474::dac_name;
use crate::g474::hrtim_name;
use crate::g474::i2c_nr;
use crate::g474::opamp_nr;
use crate::g474::spi_nr;
use crate::g474::tim_nr;
use crate::g474::uart_nr;
use crate::g474::usart_nr;
use crate::g474::AdcInstance;
use crate::g474::AdcTriggerId;
use crate::g474::CanId;
use crate::g474::CompId;
use crate::g474::CrossbarSource;
use crate::g474::DacId;
use crate::g474::HrtimFltId;
use crate::g474::HrtimId;
use crate::g474::I2cId;
use crate::g474::LpuartId;
use crate::g474::OpampId;
use crate::g474::SpiId;
use crate::g474::TimId;
use crate::g474::TimerCaptureUnit;
use crate::g474::TimerCompareSlot;
use crate::g474::UartId;
use crate::g474::UcpdId;
use crate::g474::UsartId;
use crate::mcu_pinout::pin_name;
use crate::mcu_pinout::PinId;
use crate::requirements::sequencer_name;
use crate::requirements::SequencerKind;
use crate::text;
use crate::text::decimal;
use crate::text::views;
use crate::texts;
use crate::texts::copy_text;
use crate::texts::sorted_texts;

verus! {

/// The name of an event in messages.
pub open spec fn crossbar_name(x: CrossbarSource) -> Seq<char> {
    match x {
        CrossbarSource::Mcr1 => "Mcr1"@,
        CrossbarSource::Mcr2 => "Mcr2"@,
        CrossbarSource::Mcr3 => "Mcr3"@,
        CrossbarSource::Mcr4 => "Mcr4"@,
        CrossbarSource::Mper => "Mper"@,
        CrossbarSource::Eev1 => "Eev1"@,
        CrossbarSource::Eev2 => "Eev2"@,
        CrossbarSource::Eev3 => "Eev3"@,
        CrossbarSource::Eev4 => "Eev4"@,
        CrossbarSource::Eev5 => "Eev5"@,
        CrossbarSource::Eev6 => "Eev6"@,
        CrossbarSource::Eev7 => "Eev7"@,
        CrossbarSource::Eev8 => "Eev8"@,
        CrossbarSource::Eev9 => "Eev9"@,
        CrossbarSource::Eev10 => "Eev10"@,
        CrossbarSource::TimACr2 => "TimACr2"@,
        CrossbarSource::TimACr3 => "TimACr3"@,
        CrossbarSource::TimACr4 => "TimACr4"@,
        CrossbarSource::TimACrPer => "TimACrPer"@,
        CrossbarSource::TimACrRst => "TimACrRst"@,
        CrossbarSource::TimBCr2 => "TimBCr2"@,
        CrossbarSource::TimBCr3 => "TimBCr3"@,
        CrossbarSource::TimBCr4 => "TimBCr4"@,
        CrossbarSource::TimBCrPer => "TimBCrPer"@,
        CrossbarSource::TimBCrRst => "TimBCrRst"@,
        CrossbarSource::TimCCr2 => "TimCCr2"@,
        CrossbarSource::TimCCr3 => "TimCCr3"@,
        CrossbarSource::TimCCr4 => "TimCCr4"@,
        CrossbarSource::TimCCrPer => "TimCCrPer"@,
        CrossbarSource::TimCCrRst => "TimCCrRst"@,
        CrossbarSource::TimDCr2 => "TimDCr2"@,
        CrossbarSource::TimDCr3 => "TimDCr3"@,
        CrossbarSource::TimDCr4 => "TimDCr4"@,
        CrossbarSource::TimDCrPer => "TimDCrPer"@,
        CrossbarSource::TimDCrRst => "TimDCrRst"@,
        CrossbarSource::TimECr2 => "TimECr2"@,
        CrossbarSource::TimECr3 => "TimECr3"@,
        CrossbarSource::TimECr4 => "TimECr4"@,
        CrossbarSource::TimECrPer => "TimECrPer"@,
        CrossbarSource::TimECrRst => "TimECrRst"@,
        CrossbarSource::TimFCr2 => "TimFCr2"@,
        CrossbarSource::TimFCr3 => "TimFCr3"@,
        CrossbarSource::TimFCr4 => "TimFCr4"@,
        CrossbarSource::TimFCrPer => "TimFCrPer"@,
        CrossbarSource::TimFCrRst => "TimFCrRst"@,
    }
}

/// The name of an event in messages.
pub fn crossbar_id(x: CrossbarSource) -> (r: &'static str)
    ensures
        r@ == crossbar_name(x),
{
    match x {
        CrossbarSource::Mcr1 => "Mcr1",
        CrossbarSource::Mcr2 => "Mcr2",
        CrossbarSource::Mcr3 => "Mcr3",
        CrossbarSource::Mcr4 => "Mcr4",
        CrossbarSource::Mper => "Mper",
        CrossbarSource::Eev1 => "Eev1",
        CrossbarSource::Eev2 => "Eev2",
        CrossbarSource::Eev3 => "Eev3",
        CrossbarSource::Eev4 => "Eev4",
        CrossbarSource::Eev5 => "Eev5",
        CrossbarSource::Eev6 => "Eev6",
        CrossbarSource::Eev7 => "Eev7",
        CrossbarSource::Eev8 => "Eev8",
        CrossbarSource::Eev9 => "Eev9",
        CrossbarSource::Eev10 => "Eev10",
        CrossbarSource::TimACr2 => "TimACr2",
        CrossbarSource::TimACr3 => "TimACr3",
        CrossbarSource::TimACr4 => "TimACr4",
        CrossbarSource::TimACrPer => "TimACrPer",
        CrossbarSource::TimACrRst => "TimACrRst",
        CrossbarSource::TimBCr2 => "TimBCr2",
        CrossbarSource::TimBCr3 => "TimBCr3",
        CrossbarSource::TimBCr4 => "TimBCr4",
        CrossbarSource::TimBCrPer => "TimBCrPer",
        CrossbarSource::TimBCrRst => "TimBCrRst",
        CrossbarSource::TimCCr2 => "TimCCr2",
        CrossbarSource::TimCCr3 => "TimCCr3",
        CrossbarSource::TimCCr4 => "TimCCr4",
        CrossbarSource::TimCCrPer => "TimCCrPer",
        CrossbarSource::TimCCrRst => "TimCCrRst",
        CrossbarSource::TimDCr2 => "TimDCr2",
        CrossbarSource::TimDCr3 => "TimDCr3",
        CrossbarSource::TimDCr4 => "TimDCr4",
        CrossbarSource::TimDCrPer => "TimDCrPer",
        CrossbarSource::TimDCrRst => "TimDCrRst",
        CrossbarSource::TimECr2 => "TimECr2",
        CrossbarSource::TimECr3 => "TimECr3",
        CrossbarSource::TimECr4 => "TimECr4",
        CrossbarSource::TimECrPer => "TimECrPer",
        CrossbarSource::TimECrRst => "TimECrRst",
        CrossbarSource::TimFCr2 => "TimFCr2",
        CrossbarSource::TimFCr3 => "TimFCr3",
        CrossbarSource::TimFCr4 => "TimFCr4",
        CrossbarSource::TimFCrPer => "TimFCrPer",
        CrossbarSource::TimFCrRst => "TimFCrRst",
    }
}

/// The name of a fault input in messages.
pub open spec fn flt_name(x: HrtimFltId) -> Seq<char> {
    match x {
        HrtimFltId::Flt1 => "Flt1"@,
        HrtimFltId::Flt2 => "Flt2"@,
        HrtimFltId::Flt3 => "Flt3"@,
        HrtimFltId::Flt4 => "Flt4"@,
        HrtimFltId::Flt5 => "Flt5"@,
        HrtimFltId::Flt6 => "Flt6"@,
    }
}

/// The name of a fault input in messages.
pub fn flt_id(x: HrtimFltId) -> (r: &'static str)
    ensures
        r@ == flt_name(x),
{
    match x {
        HrtimFltId::Flt1 => "Flt1",
        HrtimFltId::Flt2 => "Flt2",
        HrtimFltId::Flt3 => "Flt3",
        HrtimFltId::Flt4 => "Flt4",
        HrtimFltId::Flt5 => "Flt5",
        HrtimFltId::Flt6 => "Flt6",
    }
}

/// The name of a trigger line in messages.
pub open spec fn adc_trigger_name(x: AdcTriggerId) -> Seq<char> {
    match x {
        AdcTriggerId::Trig1 => "Trig1"@,
        AdcTriggerId::Trig2 => "Trig2"@,
        AdcTriggerId::Trig3 => "Trig3"@,
        AdcTriggerId::Trig4 => "Trig4"@,
        AdcTriggerId::Trig5 => "Trig5"@,
        AdcTriggerId::Trig6 => "Trig6"@,
        AdcTriggerId::Trig7 => "Trig7"@,
        AdcTriggerId::Trig8 => "Trig8"@,
        AdcTriggerId::Trig9 => "Trig9"@,
        AdcTriggerId::Trig10 => "Trig10"@,
    }
}

/// The name of a trigger line in messages.
pub fn adc_trigger_id(x: AdcTriggerId) -> (r: &'static str)
    ensures
        r@ == adc_trigger_name(x),
{
    match x {
        AdcTriggerId::Trig1 => "Trig1",
        AdcTriggerId::Trig2 => "Trig2",
        AdcTriggerId::Trig3 => "Trig3",
        AdcTriggerId::Trig4 => "Trig4",
        AdcTriggerId::Trig5 => "Trig5",
        AdcTriggerId::Trig6 => "Trig6",
        AdcTriggerId::Trig7 => "Trig7",
        AdcTriggerId::Trig8 => "Trig8",
        AdcTriggerId::Trig9 => "Trig9",
        AdcTriggerId::Trig10 => "Trig10",
    }
}

/// The name of an ADC in messages.
pub open spec fn adc_name(x: AdcInstance) -> Seq<char> {
    match x {
        AdcInstance::Adc1 => "Adc1"@,
        AdcInstance::Adc2 => "Adc2"@,
        AdcInstance::Adc3 => "Adc3"@,
        AdcInstance::Adc4 => "Adc4"@,
        AdcInstance::Adc5 => "Adc5"@,
    }
}

/// The name of an ADC in messages.
pub fn adc_id(x: AdcInstance) -> (r: &'static str)
    ensures
        r@ == adc_name(x),
{
    match x {
        AdcInstance::Adc1 => "Adc1",
        AdcInstance::Adc2 => "Adc2",
        AdcInstance::Adc3 => "Adc3",
        AdcInstance::Adc4 => "Adc4",
        AdcInstance::Adc5 => "Adc5",
    }
}

/// Something that an assignment takes up or a user locks.
#[derive(Copy, Clone, Debug, PartialEq, Eq, Structural)]
pub enum Resource {
    Dac(DacId),
    Comp(CompId),
    Eev(CrossbarSource),
    Flt(HrtimFltId),
    Timer(HrtimId),
    AdcSequencer(AdcInstance, SequencerKind),
    AdcInput(AdcInstance, u8),
    Pin(PinId),
    AdcTrigger(AdcTriggerId),
    TimerSlot(HrtimId, TimerCompareSlot),
    TimerCapture(HrtimId, TimerCaptureUnit),
    MasterCompareSlot(u8),
    Opamp(OpampId),
    Spi(SpiId),
    I2c(I2cId),
    Usart(UsartId),
    Uart(UartId),
    Lpuart(LpuartId),
    Can(CanId),
    Usb,
    Ucpd(UcpdId),
    Tim(TimId),
}

/// The kind that a resource is listed under.
pub open spec fn resource_kind(r: Resource) -> Seq<char> {
    match r {
        Resource::Dac(_) => "DAC"@,
        Resource::Comp(_) => "COMP"@,
        Resource::Eev(_) => "EEV"@,
        Resource::Flt(_) => "FLT"@,
        Resource::Timer(_) => "Timer"@,
        Resource::AdcSequencer(_, _) => "ADC-seq"@,
        Resource::AdcInput(_, _) => "ADC-in"@,
        Resource::Pin(_) => "Pin"@,
        Resource::AdcTrigger(_) => "ADC-trg"@,
        Resource::TimerSlot(_, _) => "CR"@,
        Resource::TimerCapture(_, _) => "CPT"@,
        Resource::MasterCompareSlot(_) => "Master-CR"@,
        Resource::Opamp(_) => "OPAMP"@,
        Resource::Spi(_) => "SPI"@,
        Resource::I2c(_) => "I2C"@,
        Resource::Usart(_) => "USART"@,
        Resource::Uart(_) => "UART"@,
        Resource::Lpuart(_) => "LPUART"@,
        Resource::Can(_) => "FDCAN"@,
        Resource::Usb => "USB"@,
        Resource::Ucpd(_) => "UCPD"@,
        Resource::Tim(_) => "TIM"@,
    }
}

/// A resource within its kind.
pub open spec fn resource_name(r: Resource) -> Seq<char> {
    match r {
        Resource::Dac(d) => dac_name(d),
        Resource::Comp(c) => comp_name(c),
        Resource::Eev(e) => crossbar_name(e),
        Resource::Flt(f) => flt_name(f),
        Resource::Timer(t) => hrtim_name(t),
        Resource::AdcSequencer(a, k) => adc_name(a) + "."@ + sequencer_name(k),
        Resource::AdcInput(a, c) => adc_name(a) + ".IN"@ + decimal(c as int),
        Resource::Pin(p) => pin_name(p),
        Resource::AdcTrigger(t) => adc_trigger_name(t),
        Resource::TimerSlot(t, s) => hrtim_name(t) + "."@ + cr_name(s),
        Resource::TimerCapture(t, c) => hrtim_name(t) + "."@ + cpt_name(c),
        Resource::MasterCompareSlot(n) => "MCR"@ + decimal(n as int),
        Resource::Opamp(o) => "OPAMP"@ + decimal(opamp_nr(o) as int),
        Resource::Spi(x) => "SPI"@ + decimal(spi_nr(x) as int),
        Resource::I2c(x) => "I2C"@ + decimal(i2c_nr(x) as int),
        Resource::Usart(x) => "USART"@ + decimal(usart_nr(x) as int),
        Resource::Uart(x) => "UART"@ + decimal(uart_nr(x) as int),
        Resource::Lpuart(_) => "LPUART1"@,
        Resource::Can(x) => "FDCAN"@ + decimal(can_nr(x) as int),
        Resource::Usb => "USB"@,
        Resource::Ucpd(_) => "UCPD1"@,
        Resource::Tim(t) => "TIM"@ + decimal(tim_nr(t) as int),
    }
}

/// A resource on its own.
pub open spec fn resource_text(r: Resource) -> Seq<char> {
    match r {
        Resource::Dac(_) => "DAC "@ + resource_name(r),
        Resource::Pin(_) => "pin "@ + resource_name(r),
        Resource::MasterCompareSlot(_) => "Master."@ + resource_name(r),
        _ => resource_name(r),
    }
}

fn numbered(prefix: &str, n: u8) -> (r: String)
    ensures
        r@ == prefix@ + decimal(n as int),
{
    let mut s: String = copy_text(prefix);
    let d: String = text::number(n as u64);
    s.append(d.as_str());
    s
}

fn dotted(a: &str, sep: &str, b: &str) -> (r: String)
    ensures
        r@ == a@ + sep@ + b@,
{
    let mut s: String = copy_text(a);
    s.append(sep);
    s.append(b);
    s
}

/// The kind that a resource is listed under.
pub fn kind_of_resource(r: Resource) -> (k: &'static str)
    ensures
        k@ == resource_kind(r),
{
    match r {
        Resource::Dac(_) => "DAC",
        Resource::Comp(_) => "COMP",
        Resource::Eev(_) => "EEV",
        Resource::Flt(_) => "FLT",
        Resource::Timer(_) => "Timer",
        Resource::AdcSequencer(_, _) => "ADC-seq",
        Resource::AdcInput(_, _) => "ADC-in",
        Resource::Pin(_) => "Pin",
        Resource::AdcTrigger(_) => "ADC-trg",
        Resource::TimerSlot(_, _) => "CR",
        Resource::TimerCapture(_, _) => "CPT",
        Resource::MasterCompareSlot(_) => "Master-CR",
        Resource::Opamp(_) => "OPAMP",
        Resource::Spi(_) => "SPI",
        Resource::I2c(_) => "I2C",
        Resource::Usart(_) => "USART",
        Resource::Uart(_) => "UART",
        Resource::Lpuart(_) => "LPUART",
        Resource::Can(_) => "FDCAN",
        Resource::Usb => "USB",
        Resource::Ucpd(_) => "UCPD",
        Resource::Tim(_) => "TIM",
    }
}

/// A resource within its kind.
pub fn name_of_resource(r: Resource) -> (s: String)
    ensures
        s@ == resource_name(r),
{
    match r {
        Resource::Dac(d) => copy_text(d.id()),
        Resource::Comp(c) => copy_text(c.id()),
        Resource::Eev(e) => copy_text(crossbar_id(e)),
        Resource::Flt(f) => copy_text(flt_id(f)),
        Resource::Timer(t) => copy_text(t.id()),
        Resource::AdcSequencer(a, k) => dotted(adc_id(a), ".", k.id()),
        Resource::AdcInput(a, c) => {
            let n: String = text::number(c as u64);
            dotted(adc_id(a), ".IN", n.as_str())
        },
        Resource::Pin(p) => p.name(),
        Resource::AdcTrigger(t) => copy_text(adc_trigger_id(t)),
        Resource::TimerSlot(t, s) => dotted(t.id(), ".", s.id()),
        Resource::TimerCapture(t, c) => dotted(t.id(), ".", c.id()),
        Resource::MasterCompareSlot(n) => numbered("MCR", n),
        Resource::Opamp(o) => numbered("OPAMP", o.number()),
        Resource::Spi(x) => numbered("SPI", x.number()),
        Resource::I2c(x) => numbered("I2C", x.number()),
        Resource::Usart(x) => numbered("USART", x.number()),
        Resource::Uart(x) => numbered("UART", x.number()),
        Resource::Lpuart(_) => copy_text("LPUART1"),
        Resource::Can(x) => numbered("FDCAN", x.number()),
        Resource::Usb => copy_text("USB"),
        Resource::Ucpd(_) => copy_text("UCPD1"),
        Resource::Tim(t) => numbered("TIM", t.number()),
    }
}

/// A resource on its own.
pub fn resource_label(r: Resource) -> (s: String)
    ensures
        s@ == resource_text(r),
{
    let name: String = name_of_resource(r);
    let mut s: String = match r {
        Resource::Dac(_) => "DAC ".to_owned(),
        Resource::Pin(_) => "pin ".to_owned(),
        Resource::MasterCompareSlot(_) => "Master.".to_owned(),
        _ => {
            return name;
        },
    };
    s.append(name.as_str());
    s
}

/// The kinds that resources are listed under, in the order of their names.
pub open spec fn listed_kinds() -> Seq<Seq<char>> {
    seq![
        "ADC-in"@,
        "ADC-seq"@,
        "ADC-trg"@,
        "COMP"@,
        "CPT"@,
        "CR"@,
        "DAC"@,
        "EEV"@,
        "FDCAN"@,
        "FLT"@,
        "I2C"@,
        "LPUART"@,
        "Master-CR"@,
        "OPAMP"@,
        "Pin"@,
        "SPI"@,
        "TIM"@,
        "Timer"@,
        "UART"@,
        "UCPD"@,
        "USART"@,
        "USB"@,
    ]
}

fn kind_list() -> (r: Vec<&'static str>)
    ensures
        text::str_views(r@) == listed_kinds(),
{
    let r: Vec<&'static str> = vec![
        "ADC-in",
        "ADC-seq",
        "ADC-trg",
        "COMP",
        "CPT",
        "CR",
        "DAC",
        "EEV",
        "FDCAN",
        "FLT",
        "I2C",
        "LPUART",
        "Master-CR",
        "OPAMP",
        "Pin",
        "SPI",
        "TIM",
        "Timer",
        "UART",
        "UCPD",
        "USART",
        "USB",
    ];
    proof {
        assert(text::str_views(r@) =~= listed_kinds());
    }
    r
}

/// The names of the resources of a kind among the first `n`.
pub open spec fn names_upto(rs: Seq<Resource>, kind: Seq<char>, n: int) -> Seq<Seq<char>>
    decreases n,
{
    if n <= 0 {
        Seq::empty()
    } else if resource_kind(rs[n - 1]) == kind {
        names_upto(rs, kind, n - 1).push(resource_name(rs[n - 1]))
    } else {
        names_upto(rs, kind, n - 1)
    }
}

/// The first `n` texts without repeats of the one before.
pub open spec fn without_repeats(v: Seq<Seq<char>>, n: int) -> Seq<Seq<char>>
    decreases n,
{
    if n <= 0 {
        Seq::empty()
    } else {
        let had = without_repeats(v, n - 1);
        if had.len() > 0 && had.last() == v[n - 1] {
            had
        } else {
            had.push(v[n - 1])
        }
    }
}

/// What is used of a kind, in order and once each.
pub open spec fn used_of(rs: Seq<Resource>, kind: Seq<char>) -> Seq<Seq<char>> {
    let v = sorted_texts(names_upto(rs, kind, rs.len() as int));
    without_repeats(v, v.len() as int)
}

/// What is used of the first `n` kinds; a kind with nothing in use is not listed.
pub open spec fn used_upto(rs: Seq<Resource>, n: int) -> Seq<(Seq<char>, Seq<Seq<char>>)>
    decreases n,
{
    if n <= 0 {
        Seq::empty()
    } else {
        let kind = listed_kinds()[n - 1];
        if names_upto(rs, kind, rs.len() as int).len() > 0 {
            used_upto(rs, n - 1).push((kind, used_of(rs, kind)))
        } else {
            used_upto(rs, n - 1)
        }
    }
}

/// The values of what is used.
pub open spec fn used_views(v: Seq<(&'static str, Vec<String>)>) -> Seq<(Seq<char>, Seq<Seq<char>>)> {
    v.map_values(|u: (&'static str, Vec<String>)| (u.0@, views(u.1@)))
}

fn names_of(rs: &[Resource], kind: &str) -> (r: Vec<String>)
    ensures
        views(r@) == names_upto(rs@, kind@, rs@.len() as int),
{
    let mut out: Vec<String> = Vec::new();
    let mut i: usize = 0;
    proof {
        assert(views(out@) =~= names_upto(rs@, kind@, 0));
    }
    while i < rs.len()
        invariant
            i <= rs@.len(),
            views(out@) == names_upto(rs@, kind@, i as int),
        decreases rs@.len() - i,
    {
        if text::same(kind_of_resource(rs[i]), kind) {
            let ghost had = out@;
            out.push(name_of_resource(rs[i]));
            proof {
                assert(views(out@) =~= views(had).push(resource_name(rs@[i as int])));
            }
        }
        i += 1;
    }
    out
}

pub(crate) fn drop_repeats(v: &[String]) -> (r: Vec<String>)
    ensures
        views(r@) == without_repeats(views(v@), v@.len() as int),
{
    let ghost w = views(v@);
    let mut out: Vec<String> = Vec::new();
    let mut i: usize = 0;
    proof {
        assert(views(out@) =~= without_repeats(w, 0));
    }
    while i < v.len()
        invariant
            i <= v@.len(),
            w == views(v@),
            views(out@) == without_repeats(w, i as int),
        decreases v@.len() - i,
    {
        proof {
            assert(w[i as int] == v@[i as int]@);
            if out@.len() > 0 {
                assert(views(out@).last() == out@.last()@);
            }
        }
        let repeat: bool = out.len() > 0 && text::same(
            out[out.len() - 1].as_str(),
            v[i].as_str(),
        );
        if !repeat {
            let ghost had = out@;
            out.push(copy_text(v[i].as_str()));
            proof {
                assert(views(out@) =~= views(had).push(w[i as int]));
            }
        }
        i += 1;
    }
    out
}

/// What the assignments of a design take up: by kind, in order, and each once.
pub fn used_by_kind(resources: &[Resource]) -> (r: Vec<(&'static str, Vec<String>)>)
    ensures
        used_views(r@) == used_upto(resources@, listed_kinds().len() as int),
{
    let kinds: Vec<&'static str> = kind_list();
    let mut out: Vec<(&'static str, Vec<String>)> = Vec::new();
    let mut i: usize = 0;
    proof {
        assert(used_views(out@) =~= used_upto(resources@, 0));
    }
    while i < kinds.len()
        invariant
            i <= kinds@.len(),
            text::str_views(kinds@) == listed_kinds(),
            used_views(out@) == used_upto(resources@, i as int),
        decreases kinds@.len() - i,
    {
        let kind: &'static str = kinds[i];
        proof {
            assert(listed_kinds()[i as int] == kind@);
        }
        let names: Vec<String> = names_of(resources, kind);
        proof {
            assert(views(names@).len() == names@.len());
        }
        if names.len() > 0 {
            let sorted: Vec<String> = texts::sort_texts(&names);
            let distinct: Vec<String> = drop_repeats(&sorted);
            let ghost had = out@;
            let ghost item = (kind@, views(distinct@));
            out.push((kind, distinct));
            proof {
                assert(views(sorted@).len() == sorted@.len());
                assert(used_views(out@) =~= used_views(had).push(item));
            }
        }
        i += 1;
    }
    proof {
        assert(kinds@.len() == listed_kinds().len());
    }
    out
}

/// Whether a resource is among those in use.
pub fn in_use(used: &[Resource], r: Resource) -> (b: bool)
    ensures
        b == used@.contains(r),
{
    let mut i: usize = 0;
    while i < used.len()
        invariant
            i <= used@.len(),
            forall|k: int| 0 <= k < i ==> used@[k] != r,
        decreases used@.len() - i,
    {
        if used[i] == r {
            return true;
        }
        i += 1;
    }
    false
}

/// A text for the pointer: a title and lines.
#[derive(Clone, Debug)]
pub struct Tooltip {
    pub title: String,
    pub lines: Vec<String>,
}

/// What a compare slot is for.
pub open spec fn slot_role(s: TimerCompareSlot) -> Seq<char> {
    match s {
        TimerCompareSlot::Cr1 => "general-purpose compare / output set-reset. Often used for max-duty safety cap or period end."@,
        TimerCompareSlot::Cr2 => "DAC sawtooth step in slope-comp mode (RM0440 sec. 28.3.21). Exclusive when dual-channel DAC trigger is enabled. Also one of the two slots that supports auto-delayed mode."@,
        TimerCompareSlot::Cr3 => "general-purpose compare. Often used as timeout trigger for auto-delayed CMP2/CMP4 or for fault-input blanking."@,
        TimerCompareSlot::Cr4 => "general-purpose compare + one of the two auto-delayed slots. Used for ZVS-friendly (variable) deadtime when DEM is active."@,
    }
}

fn role_of_slot(s: TimerCompareSlot) -> (r: &'static str)
    ensures
        r@ == slot_role(s),
{
    match s {
        TimerCompareSlot::Cr1 => "general-purpose compare / output set-reset. Often used for max-duty safety cap or period end.",
        TimerCompareSlot::Cr2 => "DAC sawtooth step in slope-comp mode (RM0440 sec. 28.3.21). Exclusive when dual-channel DAC trigger is enabled. Also one of the two slots that supports auto-delayed mode.",
        TimerCompareSlot::Cr3 => "general-purpose compare. Often used as timeout trigger for auto-delayed CMP2/CMP4 or for fault-input blanking.",
        TimerCompareSlot::Cr4 => "general-purpose compare + one of the two auto-delayed slots. Used for ZVS-friendly (variable) deadtime when DEM is active.",
    }
}

/// What a capture unit is for.
pub open spec fn capture_role(c: TimerCaptureUnit) -> Seq<char> {
    match c {
        TimerCaptureUnit::Cpt1 => "capture-1 unit. Paired with auto-delayed CMP2 (when used in that mode - RM0440 sec. 28.3 'Auto-delayed mode')."@,
        TimerCaptureUnit::Cpt2 => "capture-2 unit. Paired with auto-delayed CMP4. Claimed by DEM deadtime."@,
    }
}

fn role_of_capture(c: TimerCaptureUnit) -> (r: &'static str)
    ensures
        r@ == capture_role(c),
{
    match c {
        TimerCaptureUnit::Cpt1 => "capture-1 unit. Paired with auto-delayed CMP2 (when used in that mode - RM0440 sec. 28.3 'Auto-delayed mode').",
        TimerCaptureUnit::Cpt2 => "capture-2 unit. Paired with auto-delayed CMP4. Claimed by DEM deadtime.",
    }
}

/// A line on a slot or capture unit.
pub open spec fn claim_line(name: Seq<char>, claimed: bool, role: Seq<char>) -> Seq<char> {
    name + " ["@ + (if claimed {
        "claimed"@
    } else {
        "free"@
    }) + "]: "@ + role
}

fn write_claim(name: &str, claimed: bool, role: &str) -> (r: String)
    ensures
        r@ == claim_line(name@, claimed, role@),
{
    let mut s: String = copy_text(name);
    s.append(" [");
    s.append(
        if claimed {
            "claimed"
        } else {
            "free"
        },
    );
    s.append("]: ");
    s.append(role);
    s
}

/// The line on a sub-timer's compare slot.
pub open spec fn slot_line(t: HrtimId, s: TimerCompareSlot, used: Seq<Resource>) -> Seq<char> {
    claim_line(cr_name(s), used.contains(Resource::TimerSlot(t, s)), slot_role(s))
}

/// The line on a sub-timer's capture unit.
pub open spec fn capture_line(t: HrtimId, c: TimerCaptureUnit, used: Seq<Resource>) -> Seq<char> {
    claim_line(cpt_name(c), used.contains(Resource::TimerCapture(t, c)), capture_role(c))
}

/// The lines on a sub-timer: its compare slots, then its capture units.
pub open spec fn timer_lines(t: HrtimId, used: Seq<Resource>) -> Seq<Seq<char>> {
    all_cr_slots_seq().map_values(|s: TimerCompareSlot| slot_line(t, s, used))
        + all_capture_units_seq().map_values(|c: TimerCaptureUnit| capture_line(t, c, used))
}

/// What a sub-timer's slots and capture units are for, and which are claimed.
pub fn timer_tooltip(t: HrtimId, used: &[Resource]) -> (r: Tooltip)
    ensures
        r.title@ == hrtim_name(t),
        views(r.lines@) == timer_lines(t, used@),
{
    let slots: Vec<TimerCompareSlot> = all_cr_slots();
    let captures: Vec<TimerCaptureUnit> = all_capture_units();
    let mut lines: Vec<String> = Vec::new();
    let mut i: usize = 0;
    while i < slots.len()
        invariant
            i <= slots@.len(),
            slots@ == all_cr_slots_seq(),
            lines@.len() == i,
            forall|k: int| 0 <= k < i ==> (#[trigger] lines@[k])@ == slot_line(t, slots@[k], used@),
        decreases slots@.len() - i,
    {
        let claimed: bool = in_use(used, Resource::TimerSlot(t, slots[i]));
        lines.push(write_claim(slots[i].id(), claimed, role_of_slot(slots[i])));
        i += 1;
    }
    let mut j: usize = 0;
    while j < captures.len()
        invariant
            j <= captures@.len(),
            slots@ == all_cr_slots_seq(),
            captures@ == all_capture_units_seq(),
            lines@.len() == slots@.len() + j,
            forall|k: int|
                0 <= k < slots@.len() ==> (#[trigger] lines@[k])@ == slot_line(t, slots@[k], used@),
            forall|k: int|
                slots@.len() <= k < slots@.len() + j ==> (#[trigger] lines@[k])@ == capture_line(
                    t,
                    captures@[k - slots@.len()],
                    used@,
                ),
        decreases captures@.len() - j,
    {
        let claimed: bool = in_use(used, Resource::TimerCapture(t, captures[j]));
        lines.push(write_claim(captures[j].id(), claimed, role_of_capture(captures[j])));
        j += 1;
    }
    proof {
        assert(views(lines@) =~= timer_lines(t, used@));
    }
    Tooltip { title: copy_text(t.id()), lines }
}

/// What a phase claims of its sub-timer's compare slots.
#[derive(Clone, Debug)]
pub struct TimerSlotUsage {
    pub timer: HrtimId,
    pub claims: Vec<(TimerCompareSlot, &'static str)>,
}

/// Whether a phase claims a slot.
pub open spec fn phase_claims(dem: bool, s: TimerCompareSlot) -> bool {
    s == TimerCompareSlot::Cr2 || (dem && s == TimerCompareSlot::Cr4)
}

/// What a phase claims of its sub-timer's compare slots.
pub fn cr_usage_for(timer: HrtimId, dem: bool) -> (r: TimerSlotUsage)
    ensures
        r.timer == timer,
        r.claims@.len() == (if dem {
            2int
        } else {
            1
        }),
        r.claims@[0].0 == TimerCompareSlot::Cr2,
        r.claims@[0].1@ == "DAC sawtooth step (CMP2, slope comp)"@,
        dem ==> r.claims@[1].0 == TimerCompareSlot::Cr4 && r.claims@[1].1@
            == "DEM auto-delayed deadtime (CMP4)"@,
        forall|s: TimerCompareSlot|
            phase_claims(dem, s) <==> exists|k: int|
                0 <= k < r.claims@.len() && (#[trigger] r.claims@[k]).0 == s,
{
    let mut claims: Vec<(TimerCompareSlot, &'static str)> = Vec::new();
    claims.push((TimerCompareSlot::Cr2, "DAC sawtooth step (CMP2, slope comp)"));
    if dem {
        claims.push((TimerCompareSlot::Cr4, "DEM auto-delayed deadtime (CMP4)"));
    }
    proof {
        assert(claims@[0].0 == TimerCompareSlot::Cr2);
        if dem {
            assert(claims@[1].0 == TimerCompareSlot::Cr4);
        }
    }
    TimerSlotUsage { timer, claims }
}

/// The slots among the first `n` that a phase leaves free.
pub open spec fn free_upto(dem: bool, n: int) -> Seq<TimerCompareSlot>
    decreases n,
{
    if n <= 0 {
        Seq::empty()
    } else if phase_claims(dem, all_cr_slots_seq()[n - 1]) {
        free_upto(dem, n - 1)
    } else {
        free_upto(dem, n - 1).push(all_cr_slots_seq()[n - 1])
    }
}

/// The slots that a phase leaves free.
pub fn free_slots(dem: bool) -> (r: Vec<TimerCompareSlot>)
    ensures
        r@ == free_upto(dem, all_cr_slots_seq().len() as int),
{
    let slots: Vec<TimerCompareSlot> = all_cr_slots();
    let mut out: Vec<TimerCompareSlot> = Vec::new();
    let mut i: usize = 0;
    while i < slots.len()
        invariant
            i <= slots@.len(),
            slots@ == all_cr_slots_seq(),
            out@ == free_upto(dem, i as int),
        decreases slots@.len() - i,
    {
        let s: TimerCompareSlot = slots[i];
        if !(s == TimerCompareSlot::Cr2 || (dem && s == TimerCompareSlot::Cr4)) {
            out.push(s);
        }
        i += 1;
    }
    out
}

/// The master's compare slots in use among the first `n`.
pub open spec fn master_tags_upto(used: Seq<Resource>, n: int) -> Seq<Seq<char>>
    decreases n,
{
    if n <= 0 {
        Seq::empty()
    } else if used.contains(Resource::MasterCompareSlot(n as u8)) {
        master_tags_upto(used, n - 1).push("MCR"@ + decimal(n))
    } else {
        master_tags_upto(used, n - 1)
    }
}

/// The master's compare slots that are in use, as tags.
pub fn master_tags(used: &[Resource]) -> (r: Vec<String>)
    ensures
        views(r@) == master_tags_upto(used@, 4),
{
    let mut out: Vec<String> = Vec::new();
    let mut n: u8 = 1;
    proof {
        assert(views(out@) =~= master_tags_upto(used@, 0));
    }
    while n <= 4
        invariant
            1 <= n <= 5,
            views(out@) == master_tags_upto(used@, n - 1),
        decreases 5 - n,
    {
        if in_use(used, Resource::MasterCompareSlot(n)) {
            let ghost had = out@;
            out.push(numbered("MCR", n));
            proof {
                assert(views(out@) =~= views(had).push("MCR"@ + decimal(n as int)));
            }
        }
        n = n + 1;
    }
    out
}

/// An input of a sub-timer's outputs.
#[derive(Copy, Clone, Debug, PartialEq, Eq, Structural)]
pub enum TimerInputSlot {
    Set1,
    Rst1,
    Set2,
    Rst2,
}

/// The label of an input.
pub fn slot_label(slot: TimerInputSlot) -> (r: &'static str)
    ensures
        r@ == (match slot {
            TimerInputSlot::Set1 => "SET1"@,
            TimerInputSlot::Rst1 => "RST1"@,
            TimerInputSlot::Set2 => "SET2"@,
            TimerInputSlot::Rst2 => "RST2"@,
        }),
{
    match slot {
        TimerInputSlot::Set1 => "SET1",
        TimerInputSlot::Rst1 => "RST1",
        TimerInputSlot::Set2 => "SET2",
        TimerInputSlot::Rst2 => "RST2",
    }
}

/// The sub-timer that an event belongs to.
pub open spec fn event_timer(ev: CrossbarSource) -> Option<HrtimId> {
    match ev {
        CrossbarSource::TimACr2 => Some(HrtimId::TimA),
        CrossbarSource::TimACr3 => Some(HrtimId::TimA),
        CrossbarSource::TimACr4 => Some(HrtimId::TimA),
        CrossbarSource::TimACrPer => Some(HrtimId::TimA),
        CrossbarSource::TimACrRst => Some(HrtimId::TimA),
        CrossbarSource::TimBCr2 => Some(HrtimId::TimB),
        CrossbarSource::TimBCr3 => Some(HrtimId::TimB),
        CrossbarSource::TimBCr4 => Some(HrtimId::TimB),
        CrossbarSource::TimBCrPer => Some(HrtimId::TimB),
        CrossbarSource::TimBCrRst => Some(HrtimId::TimB),
        CrossbarSource::TimCCr2 => Some(HrtimId::TimC),
        CrossbarSource::TimCCr3 => Some(HrtimId::TimC),
        CrossbarSource::TimCCr4 => Some(HrtimId::TimC),
        CrossbarSource::TimCCrPer => Some(HrtimId::TimC),
        CrossbarSource::TimCCrRst => Some(HrtimId::TimC),
        CrossbarSource::TimDCr2 => Some(HrtimId::TimD),
        CrossbarSource::TimDCr3 => Some(HrtimId::TimD),
        CrossbarSource::TimDCr4 => Some(HrtimId::TimD),
        CrossbarSource::TimDCrPer => Some(HrtimId::TimD),
        CrossbarSource::TimDCrRst => Some(HrtimId::TimD),
        CrossbarSource::TimECr2 => Some(HrtimId::TimE),
        CrossbarSource::TimECr3 => Some(HrtimId::TimE),
        CrossbarSource::TimECr4 => Some(HrtimId::TimE),
        CrossbarSource::TimECrPer => Some(HrtimId::TimE),
        CrossbarSource::TimECrRst => Some(HrtimId::TimE),
        CrossbarSource::TimFCr2 => Some(HrtimId::TimF),
        CrossbarSource::TimFCr3 => Some(HrtimId::TimF),
        CrossbarSource::TimFCr4 => Some(HrtimId::TimF),
        CrossbarSource::TimFCrPer => Some(HrtimId::TimF),
        CrossbarSource::TimFCrRst => Some(HrtimId::TimF),
        _ => None,
    }
}

/// The sub-timer that an event belongs to.
pub fn timer_of_event(ev: CrossbarSource) -> (r: Option<HrtimId>)
    ensures
        r == event_timer(ev),
{
    match ev {
        CrossbarSource::TimACr2 => Some(HrtimId::TimA),
        CrossbarSource::TimACr3 => Some(HrtimId::TimA),
        CrossbarSource::TimACr4 => Some(HrtimId::TimA),
        CrossbarSource::TimACrPer => Some(HrtimId::TimA),
        CrossbarSource::TimACrRst => Some(HrtimId::TimA),
        CrossbarSource::TimBCr2 => Some(HrtimId::TimB),
        CrossbarSource::TimBCr3 => Some(HrtimId::TimB),
        CrossbarSource::TimBCr4 => Some(HrtimId::TimB),
        CrossbarSource::TimBCrPer => Some(HrtimId::TimB),
        CrossbarSource::TimBCrRst => Some(HrtimId::TimB),
        CrossbarSource::TimCCr2 => Some(HrtimId::TimC),
        CrossbarSource::TimCCr3 => Some(HrtimId::TimC),
        CrossbarSource::TimCCr4 => Some(HrtimId::TimC),
        CrossbarSource::TimCCrPer => Some(HrtimId::TimC),
        CrossbarSource::TimCCrRst => Some(HrtimId::TimC),
        CrossbarSource::TimDCr2 => Some(HrtimId::TimD),
        CrossbarSource::TimDCr3 => Some(HrtimId::TimD),
        CrossbarSource::TimDCr4 => Some(HrtimId::TimD),
        CrossbarSource::TimDCrPer => Some(HrtimId::TimD),
        CrossbarSource::TimDCrRst => Some(HrtimId::TimD),
        CrossbarSource::TimECr2 => Some(HrtimId::TimE),
        CrossbarSource::TimECr3 => Some(HrtimId::TimE),
        CrossbarSource::TimECr4 => Some(HrtimId::TimE),
        CrossbarSource::TimECrPer => Some(HrtimId::TimE),
        CrossbarSource::TimECrRst => Some(HrtimId::TimE),
        CrossbarSource::TimFCr2 => Some(HrtimId::TimF),
        CrossbarSource::TimFCr3 => Some(HrtimId::TimF),
        CrossbarSource::TimFCr4 => Some(HrtimId::TimF),
        CrossbarSource::TimFCrPer => Some(HrtimId::TimF),
        CrossbarSource::TimFCrRst => Some(HrtimId::TimF),
        _ => None,
    }
}

} // verus!
