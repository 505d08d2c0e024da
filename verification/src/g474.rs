//! STM32G474 power peripherals and how they connect.
//!
//! Source of the routing: RM0440, the chapters on HRTIM, COMP, DAC and ADC.

use vstd::prelude::*;

verus! {

/// The kind of a peripheral, as opposed to one instance of it.
#[derive(Copy, Clone, Debug, PartialEq, Eq, Structural, Hash, PartialOrd, Ord)]
pub enum PeripheralKind {
    Hrtim,
    Dac,
    Comp,
    Opamp,
    Adc,
    Can,
    Usart,
    Uart,
    Lpuart,
    I2c,
    Spi,
    Usb,
    Ucpd,
    Tim,
}

/// The kind as it is written in datasheets.
pub open spec fn kind_label(x: PeripheralKind) -> Seq<char> {
    match x {
        PeripheralKind::Hrtim => "HRTIM"@,
        PeripheralKind::Dac => "DAC"@,
        PeripheralKind::Comp => "COMP"@,
        PeripheralKind::Opamp => "OPAMP"@,
        PeripheralKind::Adc => "ADC"@,
        PeripheralKind::Can => "CAN"@,
        PeripheralKind::Usart => "USART"@,
        PeripheralKind::Uart => "UART"@,
        PeripheralKind::Lpuart => "LPUART"@,
        PeripheralKind::I2c => "I2C"@,
        PeripheralKind::Spi => "SPI"@,
        PeripheralKind::Usb => "USB"@,
        PeripheralKind::Ucpd => "UCPD"@,
        PeripheralKind::Tim => "TIM"@,
    }
}

impl PeripheralKind {
    /// The kind as it is written in datasheets.
    pub fn label(self) -> (r: &'static str)
        ensures
            r@ == kind_label(self),
    {
        match self {
            PeripheralKind::Hrtim => "HRTIM",
            PeripheralKind::Dac => "DAC",
            PeripheralKind::Comp => "COMP",
            PeripheralKind::Opamp => "OPAMP",
            PeripheralKind::Adc => "ADC",
            PeripheralKind::Can => "CAN",
            PeripheralKind::Usart => "USART",
            PeripheralKind::Uart => "UART",
            PeripheralKind::Lpuart => "LPUART",
            PeripheralKind::I2c => "I2C",
            PeripheralKind::Spi => "SPI",
            PeripheralKind::Usb => "USB",
            PeripheralKind::Ucpd => "UCPD",
            PeripheralKind::Tim => "TIM",
        }
    }

}

/// The kinds that communicate, in the order they are shown.
pub open spec fn comms_kinds_seq() -> Seq<PeripheralKind> {
    seq![PeripheralKind::Can, PeripheralKind::Usart, PeripheralKind::Uart, PeripheralKind::Lpuart, PeripheralKind::I2c, PeripheralKind::Spi, PeripheralKind::Usb, PeripheralKind::Ucpd]
}

/// The kinds that communicate, in the order they are shown.
pub fn comms_kinds() -> (r: Vec<PeripheralKind>)
    ensures
        r@ == comms_kinds_seq(),
{
    let r: Vec<PeripheralKind> = vec![PeripheralKind::Can, PeripheralKind::Usart, PeripheralKind::Uart, PeripheralKind::Lpuart, PeripheralKind::I2c, PeripheralKind::Spi, PeripheralKind::Usb, PeripheralKind::Ucpd];
    proof {
        assert(r@ =~= comms_kinds_seq());
    }
    r
}

/// A sub-timer of the high-resolution timer.
#[derive(Copy, Clone, Debug, PartialEq, Eq, Structural, Hash, PartialOrd, Ord)]
pub enum HrtimId {
    TimA,
    TimB,
    TimC,
    TimD,
    TimE,
    TimF,
}

/// A DAC channel.
#[derive(Copy, Clone, Debug, PartialEq, Eq, Structural, Hash, PartialOrd, Ord)]
pub enum DacId {
    Dac1Ch1,
    Dac1Ch2,
    Dac2Ch1,
    Dac3Ch1,
    Dac3Ch2,
    Dac4Ch1,
    Dac4Ch2,
}

/// DAC3 and DAC4 are the fast sample-and-hold converters whose output stays inside the chip.
pub open spec fn dac_is_fast(x: DacId) -> bool {
    match x {
        DacId::Dac1Ch1 => false,
        DacId::Dac1Ch2 => false,
        DacId::Dac2Ch1 => false,
        DacId::Dac3Ch1 => true,
        DacId::Dac3Ch2 => true,
        DacId::Dac4Ch1 => true,
        DacId::Dac4Ch2 => true,
    }
}

/// The number of the DAC.
pub open spec fn dac_instance(x: DacId) -> u8 {
    match x {
        DacId::Dac1Ch1 => 1,
        DacId::Dac1Ch2 => 1,
        DacId::Dac2Ch1 => 2,
        DacId::Dac3Ch1 => 3,
        DacId::Dac3Ch2 => 3,
        DacId::Dac4Ch1 => 4,
        DacId::Dac4Ch2 => 4,
    }
}

/// The number of the channel on its DAC.
pub open spec fn dac_channel(x: DacId) -> u8 {
    match x {
        DacId::Dac1Ch1 => 1,
        DacId::Dac1Ch2 => 2,
        DacId::Dac2Ch1 => 1,
        DacId::Dac3Ch1 => 1,
        DacId::Dac3Ch2 => 2,
        DacId::Dac4Ch1 => 1,
        DacId::Dac4Ch2 => 2,
    }
}

/// The name of the channel in messages.
pub open spec fn dac_name(x: DacId) -> Seq<char> {
    match x {
        DacId::Dac1Ch1 => "Dac1Ch1"@,
        DacId::Dac1Ch2 => "Dac1Ch2"@,
        DacId::Dac2Ch1 => "Dac2Ch1"@,
        DacId::Dac3Ch1 => "Dac3Ch1"@,
        DacId::Dac3Ch2 => "Dac3Ch2"@,
        DacId::Dac4Ch1 => "Dac4Ch1"@,
        DacId::Dac4Ch2 => "Dac4Ch2"@,
    }
}

impl DacId {
    /// DAC3 and DAC4 are the fast sample-and-hold converters whose output stays inside the chip.
    pub fn is_fast(self) -> (r: bool)
        ensures
            r == dac_is_fast(self),
    {
        match self {
            DacId::Dac1Ch1 => false,
            DacId::Dac1Ch2 => false,
            DacId::Dac2Ch1 => false,
            DacId::Dac3Ch1 => true,
            DacId::Dac3Ch2 => true,
            DacId::Dac4Ch1 => true,
            DacId::Dac4Ch2 => true,
        }
    }

    /// The number of the DAC.
    pub fn instance(self) -> (r: u8)
        ensures
            r == dac_instance(self),
    {
        match self {
            DacId::Dac1Ch1 => 1,
            DacId::Dac1Ch2 => 1,
            DacId::Dac2Ch1 => 2,
            DacId::Dac3Ch1 => 3,
            DacId::Dac3Ch2 => 3,
            DacId::Dac4Ch1 => 4,
            DacId::Dac4Ch2 => 4,
        }
    }

    /// The number of the channel on its DAC.
    pub fn channel(self) -> (r: u8)
        ensures
            r == dac_channel(self),
    {
        match self {
            DacId::Dac1Ch1 => 1,
            DacId::Dac1Ch2 => 2,
            DacId::Dac2Ch1 => 1,
            DacId::Dac3Ch1 => 1,
            DacId::Dac3Ch2 => 2,
            DacId::Dac4Ch1 => 1,
            DacId::Dac4Ch2 => 2,
        }
    }

    /// The name of the channel in messages.
    pub fn id(self) -> (r: &'static str)
        ensures
            r@ == dac_name(self),
    {
        match self {
            DacId::Dac1Ch1 => "Dac1Ch1",
            DacId::Dac1Ch2 => "Dac1Ch2",
            DacId::Dac2Ch1 => "Dac2Ch1",
            DacId::Dac3Ch1 => "Dac3Ch1",
            DacId::Dac3Ch2 => "Dac3Ch2",
            DacId::Dac4Ch1 => "Dac4Ch1",
            DacId::Dac4Ch2 => "Dac4Ch2",
        }
    }

}

/// A comparator.
#[derive(Copy, Clone, Debug, PartialEq, Eq, Structural, Hash, PartialOrd, Ord)]
pub enum CompId {
    Comp1,
    Comp2,
    Comp3,
    Comp4,
    Comp5,
    Comp6,
    Comp7,
}

/// The number of the comparator.
pub open spec fn comp_nr(x: CompId) -> u8 {
    match x {
        CompId::Comp1 => 1,
        CompId::Comp2 => 2,
        CompId::Comp3 => 3,
        CompId::Comp4 => 4,
        CompId::Comp5 => 5,
        CompId::Comp6 => 6,
        CompId::Comp7 => 7,
    }
}

/// The name of the comparator in messages.
pub open spec fn comp_name(x: CompId) -> Seq<char> {
    match x {
        CompId::Comp1 => "Comp1"@,
        CompId::Comp2 => "Comp2"@,
        CompId::Comp3 => "Comp3"@,
        CompId::Comp4 => "Comp4"@,
        CompId::Comp5 => "Comp5"@,
        CompId::Comp6 => "Comp6"@,
        CompId::Comp7 => "Comp7"@,
    }
}

impl CompId {
    /// The number of the comparator.
    pub fn number(self) -> (r: u8)
        ensures
            r == comp_nr(self),
    {
        match self {
            CompId::Comp1 => 1,
            CompId::Comp2 => 2,
            CompId::Comp3 => 3,
            CompId::Comp4 => 4,
            CompId::Comp5 => 5,
            CompId::Comp6 => 6,
            CompId::Comp7 => 7,
        }
    }

    /// The name of the comparator in messages.
    pub fn id(self) -> (r: &'static str)
        ensures
            r@ == comp_name(self),
    {
        match self {
            CompId::Comp1 => "Comp1",
            CompId::Comp2 => "Comp2",
            CompId::Comp3 => "Comp3",
            CompId::Comp4 => "Comp4",
            CompId::Comp5 => "Comp5",
            CompId::Comp6 => "Comp6",
            CompId::Comp7 => "Comp7",
        }
    }

}

/// An operational amplifier.
#[derive(Copy, Clone, Debug, PartialEq, Eq, Structural, Hash, PartialOrd, Ord)]
pub enum OpampId {
    Opamp1,
    Opamp2,
    Opamp3,
    Opamp4,
    Opamp5,
    Opamp6,
}

/// The number of the instance.
pub open spec fn opamp_nr(x: OpampId) -> u8 {
    match x {
        OpampId::Opamp1 => 1,
        OpampId::Opamp2 => 2,
        OpampId::Opamp3 => 3,
        OpampId::Opamp4 => 4,
        OpampId::Opamp5 => 5,
        OpampId::Opamp6 => 6,
    }
}

impl OpampId {
    /// The number of the instance.
    pub fn number(self) -> (r: u8)
        ensures
            r == opamp_nr(self),
    {
        match self {
            OpampId::Opamp1 => 1,
            OpampId::Opamp2 => 2,
            OpampId::Opamp3 => 3,
            OpampId::Opamp4 => 4,
            OpampId::Opamp5 => 5,
            OpampId::Opamp6 => 6,
        }
    }

}

/// All of them, in order.
pub open spec fn all_opamps_seq() -> Seq<OpampId> {
    seq![OpampId::Opamp1, OpampId::Opamp2, OpampId::Opamp3, OpampId::Opamp4, OpampId::Opamp5, OpampId::Opamp6]
}

/// All of them, in order.
pub fn all_opamps() -> (r: Vec<OpampId>)
    ensures
        r@ == all_opamps_seq(),
{
    let r: Vec<OpampId> = vec![OpampId::Opamp1, OpampId::Opamp2, OpampId::Opamp3, OpampId::Opamp4, OpampId::Opamp5, OpampId::Opamp6];
    proof {
        assert(r@ =~= all_opamps_seq());
    }
    r
}

/// An SPI instance.
#[derive(Copy, Clone, Debug, PartialEq, Eq, Structural, Hash, PartialOrd, Ord)]
pub enum SpiId {
    Spi1,
    Spi2,
    Spi3,
}

/// The number of the instance.
pub open spec fn spi_nr(x: SpiId) -> u8 {
    match x {
        SpiId::Spi1 => 1,
        SpiId::Spi2 => 2,
        SpiId::Spi3 => 3,
    }
}

impl SpiId {
    /// The number of the instance.
    pub fn number(self) -> (r: u8)
        ensures
            r == spi_nr(self),
    {
        match self {
            SpiId::Spi1 => 1,
            SpiId::Spi2 => 2,
            SpiId::Spi3 => 3,
        }
    }

}

/// All of them, in order.
pub open spec fn all_spis_seq() -> Seq<SpiId> {
    seq![SpiId::Spi1, SpiId::Spi2, SpiId::Spi3]
}

/// All of them, in order.
pub fn all_spis() -> (r: Vec<SpiId>)
    ensures
        r@ == all_spis_seq(),
{
    let r: Vec<SpiId> = vec![SpiId::Spi1, SpiId::Spi2, SpiId::Spi3];
    proof {
        assert(r@ =~= all_spis_seq());
    }
    r
}

/// An I2C instance.
#[derive(Copy, Clone, Debug, PartialEq, Eq, Structural, Hash, PartialOrd, Ord)]
pub enum I2cId {
    I2c1,
    I2c2,
    I2c3,
    I2c4,
}

/// The number of the instance.
pub open spec fn i2c_nr(x: I2cId) -> u8 {
    match x {
        I2cId::I2c1 => 1,
        I2cId::I2c2 => 2,
        I2cId::I2c3 => 3,
        I2cId::I2c4 => 4,
    }
}

impl I2cId {
    /// The number of the instance.
    pub fn number(self) -> (r: u8)
        ensures
            r == i2c_nr(self),
    {
        match self {
            I2cId::I2c1 => 1,
            I2cId::I2c2 => 2,
            I2cId::I2c3 => 3,
            I2cId::I2c4 => 4,
        }
    }

}

/// All of them, in order.
pub open spec fn all_i2cs_seq() -> Seq<I2cId> {
    seq![I2cId::I2c1, I2cId::I2c2, I2cId::I2c3, I2cId::I2c4]
}

/// All of them, in order.
pub fn all_i2cs() -> (r: Vec<I2cId>)
    ensures
        r@ == all_i2cs_seq(),
{
    let r: Vec<I2cId> = vec![I2cId::I2c1, I2cId::I2c2, I2cId::I2c3, I2cId::I2c4];
    proof {
        assert(r@ =~= all_i2cs_seq());
    }
    r
}

/// A USART instance.
#[derive(Copy, Clone, Debug, PartialEq, Eq, Structural, Hash, PartialOrd, Ord)]
pub enum UsartId {
    Usart1,
    Usart2,
    Usart3,
}

/// The number of the instance.
pub open spec fn usart_nr(x: UsartId) -> u8 {
    match x {
        UsartId::Usart1 => 1,
        UsartId::Usart2 => 2,
        UsartId::Usart3 => 3,
    }
}

impl UsartId {
    /// The number of the instance.
    pub fn number(self) -> (r: u8)
        ensures
            r == usart_nr(self),
    {
        match self {
            UsartId::Usart1 => 1,
            UsartId::Usart2 => 2,
            UsartId::Usart3 => 3,
        }
    }

}

/// All of them, in order.
pub open spec fn all_usarts_seq() -> Seq<UsartId> {
    seq![UsartId::Usart1, UsartId::Usart2, UsartId::Usart3]
}

/// All of them, in order.
pub fn all_usarts() -> (r: Vec<UsartId>)
    ensures
        r@ == all_usarts_seq(),
{
    let r: Vec<UsartId> = vec![UsartId::Usart1, UsartId::Usart2, UsartId::Usart3];
    proof {
        assert(r@ =~= all_usarts_seq());
    }
    r
}

/// A UART instance.
#[derive(Copy, Clone, Debug, PartialEq, Eq, Structural, Hash, PartialOrd, Ord)]
pub enum UartId {
    Uart4,
    Uart5,
}

/// The number of the instance.
pub open spec fn uart_nr(x: UartId) -> u8 {
    match x {
        UartId::Uart4 => 4,
        UartId::Uart5 => 5,
    }
}

impl UartId {
    /// The number of the instance.
    pub fn number(self) -> (r: u8)
        ensures
            r == uart_nr(self),
    {
        match self {
            UartId::Uart4 => 4,
            UartId::Uart5 => 5,
        }
    }

}

/// All of them, in order.
pub open spec fn all_uarts_seq() -> Seq<UartId> {
    seq![UartId::Uart4, UartId::Uart5]
}

/// All of them, in order.
pub fn all_uarts() -> (r: Vec<UartId>)
    ensures
        r@ == all_uarts_seq(),
{
    let r: Vec<UartId> = vec![UartId::Uart4, UartId::Uart5];
    proof {
        assert(r@ =~= all_uarts_seq());
    }
    r
}

/// A low-power UART instance.
#[derive(Copy, Clone, Debug, PartialEq, Eq, Structural, Hash, PartialOrd, Ord)]
pub enum LpuartId {
    Lpuart1,
}

/// The number of the instance.
pub open spec fn lpuart_nr(x: LpuartId) -> u8 {
    match x {
        LpuartId::Lpuart1 => 1,
    }
}

impl LpuartId {
    /// The number of the instance.
    pub fn number(self) -> (r: u8)
        ensures
            r == lpuart_nr(self),
    {
        match self {
            LpuartId::Lpuart1 => 1,
        }
    }

}

/// All of them, in order.
pub open spec fn all_lpuarts_seq() -> Seq<LpuartId> {
    seq![LpuartId::Lpuart1]
}

/// All of them, in order.
pub fn all_lpuarts() -> (r: Vec<LpuartId>)
    ensures
        r@ == all_lpuarts_seq(),
{
    let r: Vec<LpuartId> = vec![LpuartId::Lpuart1];
    proof {
        assert(r@ =~= all_lpuarts_seq());
    }
    r
}

/// An FDCAN instance.
#[derive(Copy, Clone, Debug, PartialEq, Eq, Structural, Hash, PartialOrd, Ord)]
pub enum CanId {
    Fdcan1,
    Fdcan2,
    Fdcan3,
}

/// The number of the instance.
pub open spec fn can_nr(x: CanId) -> u8 {
    match x {
        CanId::Fdcan1 => 1,
        CanId::Fdcan2 => 2,
        CanId::Fdcan3 => 3,
    }
}

impl CanId {
    /// The number of the instance.
    pub fn number(self) -> (r: u8)
        ensures
            r == can_nr(self),
    {
        match self {
            CanId::Fdcan1 => 1,
            CanId::Fdcan2 => 2,
            CanId::Fdcan3 => 3,
        }
    }

}

/// All of them, in order.
pub open spec fn all_cans_seq() -> Seq<CanId> {
    seq![CanId::Fdcan1, CanId::Fdcan2, CanId::Fdcan3]
}

/// All of them, in order.
pub fn all_cans() -> (r: Vec<CanId>)
    ensures
        r@ == all_cans_seq(),
{
    let r: Vec<CanId> = vec![CanId::Fdcan1, CanId::Fdcan2, CanId::Fdcan3];
    proof {
        assert(r@ =~= all_cans_seq());
    }
    r
}

/// A USB power-delivery instance.
#[derive(Copy, Clone, Debug, PartialEq, Eq, Structural, Hash, PartialOrd, Ord)]
pub enum UcpdId {
    Ucpd1,
}

/// The number of the instance.
pub open spec fn ucpd_nr(x: UcpdId) -> u8 {
    match x {
        UcpdId::Ucpd1 => 1,
    }
}

impl UcpdId {
    /// The number of the instance.
    pub fn number(self) -> (r: u8)
        ensures
            r == ucpd_nr(self),
    {
        match self {
            UcpdId::Ucpd1 => 1,
        }
    }

}

/// All of them, in order.
pub open spec fn all_ucpds_seq() -> Seq<UcpdId> {
    seq![UcpdId::Ucpd1]
}

/// All of them, in order.
pub fn all_ucpds() -> (r: Vec<UcpdId>)
    ensures
        r@ == all_ucpds_seq(),
{
    let r: Vec<UcpdId> = vec![UcpdId::Ucpd1];
    proof {
        assert(r@ =~= all_ucpds_seq());
    }
    r
}

/// A timer.
#[derive(Copy, Clone, Debug, PartialEq, Eq, Structural, Hash, PartialOrd, Ord)]
pub enum TimId {
    Tim1,
    Tim2,
    Tim3,
    Tim4,
    Tim5,
    Tim6,
    Tim7,
    Tim8,
    Tim15,
    Tim16,
    Tim17,
    Tim20,
}

/// The number of the timer.
pub open spec fn tim_nr(x: TimId) -> u8 {
    match x {
        TimId::Tim1 => 1,
        TimId::Tim2 => 2,
        TimId::Tim3 => 3,
        TimId::Tim4 => 4,
        TimId::Tim5 => 5,
        TimId::Tim6 => 6,
        TimId::Tim7 => 7,
        TimId::Tim8 => 8,
        TimId::Tim15 => 15,
        TimId::Tim16 => 16,
        TimId::Tim17 => 17,
        TimId::Tim20 => 20,
    }
}

/// Advanced-control timers have complementary outputs, break inputs and a dead-time generator.
pub open spec fn tim_is_advanced(x: TimId) -> bool {
    match x {
        TimId::Tim1 => true,
        TimId::Tim2 => false,
        TimId::Tim3 => false,
        TimId::Tim4 => false,
        TimId::Tim5 => false,
        TimId::Tim6 => false,
        TimId::Tim7 => false,
        TimId::Tim8 => true,
        TimId::Tim15 => false,
        TimId::Tim16 => false,
        TimId::Tim17 => false,
        TimId::Tim20 => true,
    }
}

impl TimId {
    /// The number of the timer.
    pub fn number(self) -> (r: u8)
        ensures
            r == tim_nr(self),
    {
        match self {
            TimId::Tim1 => 1,
            TimId::Tim2 => 2,
            TimId::Tim3 => 3,
            TimId::Tim4 => 4,
            TimId::Tim5 => 5,
            TimId::Tim6 => 6,
            TimId::Tim7 => 7,
            TimId::Tim8 => 8,
            TimId::Tim15 => 15,
            TimId::Tim16 => 16,
            TimId::Tim17 => 17,
            TimId::Tim20 => 20,
        }
    }

    /// Advanced-control timers have complementary outputs, break inputs and a dead-time generator.
    pub fn is_advanced(self) -> (r: bool)
        ensures
            r == tim_is_advanced(self),
    {
        match self {
            TimId::Tim1 => true,
            TimId::Tim2 => false,
            TimId::Tim3 => false,
            TimId::Tim4 => false,
            TimId::Tim5 => false,
            TimId::Tim6 => false,
            TimId::Tim7 => false,
            TimId::Tim8 => true,
            TimId::Tim15 => false,
            TimId::Tim16 => false,
            TimId::Tim17 => false,
            TimId::Tim20 => true,
        }
    }

}

/// All timers, in order.
pub open spec fn all_tims_seq() -> Seq<TimId> {
    seq![TimId::Tim1, TimId::Tim2, TimId::Tim3, TimId::Tim4, TimId::Tim5, TimId::Tim6, TimId::Tim7, TimId::Tim8, TimId::Tim15, TimId::Tim16, TimId::Tim17, TimId::Tim20]
}

/// All timers, in order.
pub fn all_tims() -> (r: Vec<TimId>)
    ensures
        r@ == all_tims_seq(),
{
    let r: Vec<TimId> = vec![TimId::Tim1, TimId::Tim2, TimId::Tim3, TimId::Tim4, TimId::Tim5, TimId::Tim6, TimId::Tim7, TimId::Tim8, TimId::Tim15, TimId::Tim16, TimId::Tim17, TimId::Tim20];
    proof {
        assert(r@ =~= all_tims_seq());
    }
    r
}

/// A channel of a timer.
#[derive(Copy, Clone, Debug, PartialEq, Eq, Structural, Hash, PartialOrd, Ord)]
pub enum TimCh {
    Ch1,
    Ch2,
    Ch3,
    Ch4,
}

/// The number of the channel.
pub open spec fn tim_ch_nr(x: TimCh) -> u8 {
    match x {
        TimCh::Ch1 => 1,
        TimCh::Ch2 => 2,
        TimCh::Ch3 => 3,
        TimCh::Ch4 => 4,
    }
}

impl TimCh {
    /// The number of the channel.
    pub fn number(self) -> (r: u8)
        ensures
            r == tim_ch_nr(self),
    {
        match self {
            TimCh::Ch1 => 1,
            TimCh::Ch2 => 2,
            TimCh::Ch3 => 3,
            TimCh::Ch4 => 4,
        }
    }

}

/// A source that can drive the output crossbars and the ADC trigger crossbar of the high-resolution timer.
#[derive(Copy, Clone, Debug, PartialEq, Eq, Structural, Hash, PartialOrd, Ord)]
pub enum CrossbarSource {
    Mcr1,
    Mcr2,
    Mcr3,
    Mcr4,
    Mper,
    Eev1,
    Eev2,
    Eev3,
    Eev4,
    Eev5,
    Eev6,
    Eev7,
    Eev8,
    Eev9,
    Eev10,
    TimACr2,
    TimACr3,
    TimACr4,
    TimACrPer,
    TimACrRst,
    TimBCr2,
    TimBCr3,
    TimBCr4,
    TimBCrPer,
    TimBCrRst,
    TimCCr2,
    TimCCr3,
    TimCCr4,
    TimCCrPer,
    TimCCrRst,
    TimDCr2,
    TimDCr3,
    TimDCr4,
    TimDCrPer,
    TimDCrRst,
    TimECr2,
    TimECr3,
    TimECr4,
    TimECrPer,
    TimECrRst,
    TimFCr2,
    TimFCr3,
    TimFCr4,
    TimFCrPer,
    TimFCrRst,
}

/// A compare slot of a sub-timer that the user may set.
#[derive(Copy, Clone, Debug, PartialEq, Eq, Structural, Hash, PartialOrd, Ord)]
pub enum TimerCompareSlot {
    Cr1,
    Cr2,
    Cr3,
    Cr4,
}

/// The name of the slot in messages.
pub open spec fn cr_name(x: TimerCompareSlot) -> Seq<char> {
    match x {
        TimerCompareSlot::Cr1 => "Cr1"@,
        TimerCompareSlot::Cr2 => "Cr2"@,
        TimerCompareSlot::Cr3 => "Cr3"@,
        TimerCompareSlot::Cr4 => "Cr4"@,
    }
}

impl TimerCompareSlot {
    /// The name of the slot in messages.
    pub fn id(self) -> (r: &'static str)
        ensures
            r@ == cr_name(self),
    {
        match self {
            TimerCompareSlot::Cr1 => "Cr1",
            TimerCompareSlot::Cr2 => "Cr2",
            TimerCompareSlot::Cr3 => "Cr3",
            TimerCompareSlot::Cr4 => "Cr4",
        }
    }

}

/// All compare slots, in order.
pub open spec fn all_cr_slots_seq() -> Seq<TimerCompareSlot> {
    seq![TimerCompareSlot::Cr1, TimerCompareSlot::Cr2, TimerCompareSlot::Cr3, TimerCompareSlot::Cr4]
}

/// All compare slots, in order.
pub fn all_cr_slots() -> (r: Vec<TimerCompareSlot>)
    ensures
        r@ == all_cr_slots_seq(),
{
    let r: Vec<TimerCompareSlot> = vec![TimerCompareSlot::Cr1, TimerCompareSlot::Cr2, TimerCompareSlot::Cr3, TimerCompareSlot::Cr4];
    proof {
        assert(r@ =~= all_cr_slots_seq());
    }
    r
}

/// A capture unit of a sub-timer. The first is paired with compare 2, the second with compare 4.
#[derive(Copy, Clone, Debug, PartialEq, Eq, Structural, Hash, PartialOrd, Ord)]
pub enum TimerCaptureUnit {
    Cpt1,
    Cpt2,
}

/// The name of the unit in messages.
pub open spec fn cpt_name(x: TimerCaptureUnit) -> Seq<char> {
    match x {
        TimerCaptureUnit::Cpt1 => "Cpt1"@,
        TimerCaptureUnit::Cpt2 => "Cpt2"@,
    }
}

impl TimerCaptureUnit {
    /// The name of the unit in messages.
    pub fn id(self) -> (r: &'static str)
        ensures
            r@ == cpt_name(self),
    {
        match self {
            TimerCaptureUnit::Cpt1 => "Cpt1",
            TimerCaptureUnit::Cpt2 => "Cpt2",
        }
    }

}

/// All capture units, in order.
pub open spec fn all_capture_units_seq() -> Seq<TimerCaptureUnit> {
    seq![TimerCaptureUnit::Cpt1, TimerCaptureUnit::Cpt2]
}

/// All capture units, in order.
pub fn all_capture_units() -> (r: Vec<TimerCaptureUnit>)
    ensures
        r@ == all_capture_units_seq(),
{
    let r: Vec<TimerCaptureUnit> = vec![TimerCaptureUnit::Cpt1, TimerCaptureUnit::Cpt2];
    proof {
        assert(r@ =~= all_capture_units_seq());
    }
    r
}

/// The name of the sub-timer in messages.
pub open spec fn hrtim_name(x: HrtimId) -> Seq<char> {
    match x {
        HrtimId::TimA => "TimA"@,
        HrtimId::TimB => "TimB"@,
        HrtimId::TimC => "TimC"@,
        HrtimId::TimD => "TimD"@,
        HrtimId::TimE => "TimE"@,
        HrtimId::TimF => "TimF"@,
    }
}

impl HrtimId {
    /// The name of the sub-timer in messages.
    pub fn id(self) -> (r: &'static str)
        ensures
            r@ == hrtim_name(self),
    {
        match self {
            HrtimId::TimA => "TimA",
            HrtimId::TimB => "TimB",
            HrtimId::TimC => "TimC",
            HrtimId::TimD => "TimD",
            HrtimId::TimE => "TimE",
            HrtimId::TimF => "TimF",
        }
    }

}

/// A fault input of the high-resolution timer.
#[derive(Copy, Clone, Debug, PartialEq, Eq, Structural, Hash, PartialOrd, Ord)]
pub enum HrtimFltId {
    Flt1,
    Flt2,
    Flt3,
    Flt4,
    Flt5,
    Flt6,
}

/// A trigger line from the high-resolution timer to the ADCs.
#[derive(Copy, Clone, Debug, PartialEq, Eq, Structural, Hash, PartialOrd, Ord)]
pub enum AdcTriggerId {
    Trig1,
    Trig2,
    Trig3,
    Trig4,
    Trig5,
    Trig6,
    Trig7,
    Trig8,
    Trig9,
    Trig10,
}

/// A sequencer of an ADC.
#[derive(Copy, Clone, Debug, PartialEq, Eq, Structural, Hash, PartialOrd, Ord)]
pub enum AdcChannel {
    Adc1Regular,
    Adc1Injected,
    Adc2Regular,
    Adc2Injected,
    Adc3Regular,
    Adc3Injected,
    Adc4Regular,
    Adc4Injected,
    Adc5Regular,
    Adc5Injected,
}

/// An ADC. ADC1 and ADC2 are a coupled pair, and so are ADC3 and ADC4.
#[derive(Copy, Clone, Debug, PartialEq, Eq, Structural, Hash, PartialOrd, Ord)]
pub enum AdcInstance {
    Adc1,
    Adc2,
    Adc3,
    Adc4,
    Adc5,
}

/// The number of the ADC.
pub open spec fn adc_nr(x: AdcInstance) -> u8 {
    match x {
        AdcInstance::Adc1 => 1,
        AdcInstance::Adc2 => 2,
        AdcInstance::Adc3 => 3,
        AdcInstance::Adc4 => 4,
        AdcInstance::Adc5 => 5,
    }
}

impl AdcInstance {
    /// The number of the ADC.
    pub fn number(self) -> (r: u8)
        ensures
            r == adc_nr(self),
    {
        match self {
            AdcInstance::Adc1 => 1,
            AdcInstance::Adc2 => 2,
            AdcInstance::Adc3 => 3,
            AdcInstance::Adc4 => 4,
            AdcInstance::Adc5 => 5,
        }
    }

}

/// All ADCs, in order.
pub open spec fn all_adcs_seq() -> Seq<AdcInstance> {
    seq![AdcInstance::Adc1, AdcInstance::Adc2, AdcInstance::Adc3, AdcInstance::Adc4, AdcInstance::Adc5]
}

/// All ADCs, in order.
pub fn all_adcs() -> (r: Vec<AdcInstance>)
    ensures
        r@ == all_adcs_seq(),
{
    let r: Vec<AdcInstance> = vec![AdcInstance::Adc1, AdcInstance::Adc2, AdcInstance::Adc3, AdcInstance::Adc4, AdcInstance::Adc5];
    proof {
        assert(r@ =~= all_adcs_seq());
    }
    r
}

/// Channels 1 to 5 of every ADC are the fast ones: they allow the highest sampling
/// rates.
pub fn is_fast_adc_channel(channel: u8) -> (r: bool)
    ensures
        r == (1 <= channel <= 5),
{
    channel >= 1 && channel <= 5
}

/// The comparators whose threshold a DAC channel can set.
pub open spec fn comps_of_dac(x: DacId) -> Seq<CompId> {
    match x {
        DacId::Dac1Ch1 => seq![CompId::Comp1, CompId::Comp3, CompId::Comp4],
        DacId::Dac1Ch2 => seq![CompId::Comp2, CompId::Comp5],
        DacId::Dac2Ch1 => seq![CompId::Comp6, CompId::Comp7],
        DacId::Dac3Ch1 => seq![CompId::Comp1, CompId::Comp3],
        DacId::Dac3Ch2 => seq![CompId::Comp2, CompId::Comp4],
        DacId::Dac4Ch1 => seq![CompId::Comp5, CompId::Comp7],
        DacId::Dac4Ch2 => seq![CompId::Comp6],
    }
}

/// The comparators whose threshold the DAC channel can set.
pub fn comps_for_dac(x: DacId) -> (r: Vec<CompId>)
    ensures
        r@ == comps_of_dac(x),
{
    let r: Vec<CompId> = match x {
        DacId::Dac1Ch1 => vec![CompId::Comp1, CompId::Comp3, CompId::Comp4],
        DacId::Dac1Ch2 => vec![CompId::Comp2, CompId::Comp5],
        DacId::Dac2Ch1 => vec![CompId::Comp6, CompId::Comp7],
        DacId::Dac3Ch1 => vec![CompId::Comp1, CompId::Comp3],
        DacId::Dac3Ch2 => vec![CompId::Comp2, CompId::Comp4],
        DacId::Dac4Ch1 => vec![CompId::Comp5, CompId::Comp7],
        DacId::Dac4Ch2 => vec![CompId::Comp6],
    };
    proof {
        assert(r@ =~= comps_of_dac(x));
    }
    r
}

/// All DAC channels, in order.
pub open spec fn all_dacs_seq() -> Seq<DacId> {
    seq![DacId::Dac1Ch1, DacId::Dac1Ch2, DacId::Dac2Ch1, DacId::Dac3Ch1, DacId::Dac3Ch2, DacId::Dac4Ch1, DacId::Dac4Ch2]
}

/// All DAC channels, in order.
pub fn all_dacs() -> (r: Vec<DacId>)
    ensures
        r@ == all_dacs_seq(),
{
    let r: Vec<DacId> = vec![DacId::Dac1Ch1, DacId::Dac1Ch2, DacId::Dac2Ch1, DacId::Dac3Ch1, DacId::Dac3Ch2, DacId::Dac4Ch1, DacId::Dac4Ch2];
    proof {
        assert(r@ =~= all_dacs_seq());
    }
    r
}

/// All comparators, in order.
pub open spec fn all_comps_seq() -> Seq<CompId> {
    seq![CompId::Comp1, CompId::Comp2, CompId::Comp3, CompId::Comp4, CompId::Comp5, CompId::Comp6, CompId::Comp7]
}

/// All comparators, in order.
pub fn all_comps() -> (r: Vec<CompId>)
    ensures
        r@ == all_comps_seq(),
{
    let r: Vec<CompId> = vec![CompId::Comp1, CompId::Comp2, CompId::Comp3, CompId::Comp4, CompId::Comp5, CompId::Comp6, CompId::Comp7];
    proof {
        assert(r@ =~= all_comps_seq());
    }
    r
}

/// The external events that a comparator can raise.
pub open spec fn eevs_of_comp(x: CompId) -> Seq<CrossbarSource> {
    match x {
        CompId::Comp1 => seq![CrossbarSource::Eev4, CrossbarSource::Eev6],
        CompId::Comp2 => seq![CrossbarSource::Eev1, CrossbarSource::Eev6],
        CompId::Comp3 => seq![CrossbarSource::Eev5, CrossbarSource::Eev8],
        CompId::Comp4 => seq![CrossbarSource::Eev2, CrossbarSource::Eev7, CrossbarSource::Eev9],
        CompId::Comp5 => seq![CrossbarSource::Eev4, CrossbarSource::Eev9],
        CompId::Comp6 => seq![CrossbarSource::Eev3, CrossbarSource::Eev8],
        CompId::Comp7 => seq![CrossbarSource::Eev5, CrossbarSource::Eev10],
    }
}

/// The external events that the comparator can raise.
pub fn eevs_for_comp(x: CompId) -> (r: Vec<CrossbarSource>)
    ensures
        r@ == eevs_of_comp(x),
{
    let r: Vec<CrossbarSource> = match x {
        CompId::Comp1 => vec![CrossbarSource::Eev4, CrossbarSource::Eev6],
        CompId::Comp2 => vec![CrossbarSource::Eev1, CrossbarSource::Eev6],
        CompId::Comp3 => vec![CrossbarSource::Eev5, CrossbarSource::Eev8],
        CompId::Comp4 => vec![CrossbarSource::Eev2, CrossbarSource::Eev7, CrossbarSource::Eev9],
        CompId::Comp5 => vec![CrossbarSource::Eev4, CrossbarSource::Eev9],
        CompId::Comp6 => vec![CrossbarSource::Eev3, CrossbarSource::Eev8],
        CompId::Comp7 => vec![CrossbarSource::Eev5, CrossbarSource::Eev10],
    };
    proof {
        assert(r@ =~= eevs_of_comp(x));
    }
    r
}

/// The fault inputs that a comparator can trip.
pub open spec fn flts_of_comp(x: CompId) -> Seq<HrtimFltId> {
    match x {
        CompId::Comp1 => seq![HrtimFltId::Flt1, HrtimFltId::Flt4],
        CompId::Comp2 => seq![HrtimFltId::Flt2, HrtimFltId::Flt5],
        CompId::Comp3 => seq![HrtimFltId::Flt3, HrtimFltId::Flt4],
        CompId::Comp4 => seq![HrtimFltId::Flt1, HrtimFltId::Flt6],
        CompId::Comp5 => seq![HrtimFltId::Flt2, HrtimFltId::Flt5],
        CompId::Comp6 => seq![HrtimFltId::Flt3, HrtimFltId::Flt6],
        CompId::Comp7 => seq![HrtimFltId::Flt6],
    }
}

/// The fault inputs that the comparator can trip.
pub fn flts_for_comp(x: CompId) -> (r: Vec<HrtimFltId>)
    ensures
        r@ == flts_of_comp(x),
{
    let r: Vec<HrtimFltId> = match x {
        CompId::Comp1 => vec![HrtimFltId::Flt1, HrtimFltId::Flt4],
        CompId::Comp2 => vec![HrtimFltId::Flt2, HrtimFltId::Flt5],
        CompId::Comp3 => vec![HrtimFltId::Flt3, HrtimFltId::Flt4],
        CompId::Comp4 => vec![HrtimFltId::Flt1, HrtimFltId::Flt6],
        CompId::Comp5 => vec![HrtimFltId::Flt2, HrtimFltId::Flt5],
        CompId::Comp6 => vec![HrtimFltId::Flt3, HrtimFltId::Flt6],
        CompId::Comp7 => vec![HrtimFltId::Flt6],
    };
    proof {
        assert(r@ =~= flts_of_comp(x));
    }
    r
}

/// The ADC trigger lines that an event can drive.
pub open spec fn adc_triggers_of(x: CrossbarSource) -> Seq<AdcTriggerId> {
    match x {
        CrossbarSource::Mcr1 => seq![AdcTriggerId::Trig1, AdcTriggerId::Trig2, AdcTriggerId::Trig3, AdcTriggerId::Trig4],
        CrossbarSource::Mcr2 => seq![AdcTriggerId::Trig1, AdcTriggerId::Trig2, AdcTriggerId::Trig3, AdcTriggerId::Trig4],
        CrossbarSource::Mcr3 => seq![AdcTriggerId::Trig1, AdcTriggerId::Trig2, AdcTriggerId::Trig3, AdcTriggerId::Trig4],
        CrossbarSource::Mcr4 => seq![AdcTriggerId::Trig1, AdcTriggerId::Trig2, AdcTriggerId::Trig3, AdcTriggerId::Trig4],
        CrossbarSource::Mper => seq![AdcTriggerId::Trig1, AdcTriggerId::Trig2, AdcTriggerId::Trig3, AdcTriggerId::Trig4],
        CrossbarSource::Eev1 => seq![AdcTriggerId::Trig1, AdcTriggerId::Trig3],
        CrossbarSource::Eev2 => seq![AdcTriggerId::Trig1, AdcTriggerId::Trig3],
        CrossbarSource::Eev3 => seq![AdcTriggerId::Trig1, AdcTriggerId::Trig3],
        CrossbarSource::Eev4 => seq![AdcTriggerId::Trig1, AdcTriggerId::Trig3],
        CrossbarSource::Eev5 => seq![AdcTriggerId::Trig1, AdcTriggerId::Trig3],
        CrossbarSource::Eev6 => seq![AdcTriggerId::Trig2, AdcTriggerId::Trig4],
        CrossbarSource::Eev7 => seq![AdcTriggerId::Trig2, AdcTriggerId::Trig4],
        CrossbarSource::Eev8 => seq![AdcTriggerId::Trig2, AdcTriggerId::Trig4],
        CrossbarSource::Eev9 => seq![AdcTriggerId::Trig2, AdcTriggerId::Trig4],
        CrossbarSource::Eev10 => seq![AdcTriggerId::Trig2, AdcTriggerId::Trig4],
        CrossbarSource::TimACr2 => seq![AdcTriggerId::Trig2, AdcTriggerId::Trig4],
        CrossbarSource::TimACr3 => seq![AdcTriggerId::Trig1, AdcTriggerId::Trig3],
        CrossbarSource::TimACr4 => seq![AdcTriggerId::Trig1, AdcTriggerId::Trig2, AdcTriggerId::Trig3, AdcTriggerId::Trig4],
        CrossbarSource::TimACrPer => seq![AdcTriggerId::Trig1, AdcTriggerId::Trig2, AdcTriggerId::Trig3, AdcTriggerId::Trig4],
        CrossbarSource::TimACrRst => seq![AdcTriggerId::Trig1, AdcTriggerId::Trig3],
        CrossbarSource::TimBCr2 => seq![AdcTriggerId::Trig2, AdcTriggerId::Trig4],
        CrossbarSource::TimBCr3 => seq![AdcTriggerId::Trig1, AdcTriggerId::Trig3],
        CrossbarSource::TimBCr4 => seq![AdcTriggerId::Trig1, AdcTriggerId::Trig2, AdcTriggerId::Trig3, AdcTriggerId::Trig4],
        CrossbarSource::TimBCrPer => seq![AdcTriggerId::Trig1, AdcTriggerId::Trig2, AdcTriggerId::Trig3, AdcTriggerId::Trig4],
        CrossbarSource::TimBCrRst => seq![AdcTriggerId::Trig1, AdcTriggerId::Trig3],
        CrossbarSource::TimCCr2 => seq![AdcTriggerId::Trig2, AdcTriggerId::Trig4],
        CrossbarSource::TimCCr3 => seq![AdcTriggerId::Trig1, AdcTriggerId::Trig3],
        CrossbarSource::TimCCr4 => seq![AdcTriggerId::Trig1, AdcTriggerId::Trig2, AdcTriggerId::Trig3, AdcTriggerId::Trig4],
        CrossbarSource::TimCCrPer => seq![AdcTriggerId::Trig1, AdcTriggerId::Trig2, AdcTriggerId::Trig3, AdcTriggerId::Trig4],
        CrossbarSource::TimCCrRst => seq![AdcTriggerId::Trig2, AdcTriggerId::Trig4],
        CrossbarSource::TimDCr2 => seq![AdcTriggerId::Trig2, AdcTriggerId::Trig4],
        CrossbarSource::TimDCr3 => seq![AdcTriggerId::Trig1, AdcTriggerId::Trig3],
        CrossbarSource::TimDCr4 => seq![AdcTriggerId::Trig1, AdcTriggerId::Trig2, AdcTriggerId::Trig3, AdcTriggerId::Trig4],
        CrossbarSource::TimDCrPer => seq![AdcTriggerId::Trig1, AdcTriggerId::Trig2, AdcTriggerId::Trig3, AdcTriggerId::Trig4],
        CrossbarSource::TimDCrRst => seq![AdcTriggerId::Trig2, AdcTriggerId::Trig4],
        CrossbarSource::TimECr2 => seq![AdcTriggerId::Trig2, AdcTriggerId::Trig4],
        CrossbarSource::TimECr3 => seq![AdcTriggerId::Trig1, AdcTriggerId::Trig3],
        CrossbarSource::TimECr4 => seq![AdcTriggerId::Trig1, AdcTriggerId::Trig2, AdcTriggerId::Trig3, AdcTriggerId::Trig4],
        CrossbarSource::TimECrPer => seq![AdcTriggerId::Trig1, AdcTriggerId::Trig2, AdcTriggerId::Trig3, AdcTriggerId::Trig4],
        CrossbarSource::TimECrRst => seq![AdcTriggerId::Trig2, AdcTriggerId::Trig4],
        CrossbarSource::TimFCr2 => seq![AdcTriggerId::Trig2, AdcTriggerId::Trig4],
        CrossbarSource::TimFCr3 => seq![AdcTriggerId::Trig1, AdcTriggerId::Trig2, AdcTriggerId::Trig3, AdcTriggerId::Trig4],
        CrossbarSource::TimFCr4 => seq![AdcTriggerId::Trig1, AdcTriggerId::Trig2, AdcTriggerId::Trig3, AdcTriggerId::Trig4],
        CrossbarSource::TimFCrPer => seq![AdcTriggerId::Trig1, AdcTriggerId::Trig2, AdcTriggerId::Trig3, AdcTriggerId::Trig4],
        CrossbarSource::TimFCrRst => seq![AdcTriggerId::Trig1, AdcTriggerId::Trig3],
    }
}

/// The ADC trigger lines that the event can drive.
pub fn adc_triggers_for(x: CrossbarSource) -> (r: Vec<AdcTriggerId>)
    ensures
        r@ == adc_triggers_of(x),
{
    let r: Vec<AdcTriggerId> = match x {
        CrossbarSource::Mcr1 => vec![AdcTriggerId::Trig1, AdcTriggerId::Trig2, AdcTriggerId::Trig3, AdcTriggerId::Trig4],
        CrossbarSource::Mcr2 => vec![AdcTriggerId::Trig1, AdcTriggerId::Trig2, AdcTriggerId::Trig3, AdcTriggerId::Trig4],
        CrossbarSource::Mcr3 => vec![AdcTriggerId::Trig1, AdcTriggerId::Trig2, AdcTriggerId::Trig3, AdcTriggerId::Trig4],
        CrossbarSource::Mcr4 => vec![AdcTriggerId::Trig1, AdcTriggerId::Trig2, AdcTriggerId::Trig3, AdcTriggerId::Trig4],
        CrossbarSource::Mper => vec![AdcTriggerId::Trig1, AdcTriggerId::Trig2, AdcTriggerId::Trig3, AdcTriggerId::Trig4],
        CrossbarSource::Eev1 => vec![AdcTriggerId::Trig1, AdcTriggerId::Trig3],
        CrossbarSource::Eev2 => vec![AdcTriggerId::Trig1, AdcTriggerId::Trig3],
        CrossbarSource::Eev3 => vec![AdcTriggerId::Trig1, AdcTriggerId::Trig3],
        CrossbarSource::Eev4 => vec![AdcTriggerId::Trig1, AdcTriggerId::Trig3],
        CrossbarSource::Eev5 => vec![AdcTriggerId::Trig1, AdcTriggerId::Trig3],
        CrossbarSource::Eev6 => vec![AdcTriggerId::Trig2, AdcTriggerId::Trig4],
        CrossbarSource::Eev7 => vec![AdcTriggerId::Trig2, AdcTriggerId::Trig4],
        CrossbarSource::Eev8 => vec![AdcTriggerId::Trig2, AdcTriggerId::Trig4],
        CrossbarSource::Eev9 => vec![AdcTriggerId::Trig2, AdcTriggerId::Trig4],
        CrossbarSource::Eev10 => vec![AdcTriggerId::Trig2, AdcTriggerId::Trig4],
        CrossbarSource::TimACr2 => vec![AdcTriggerId::Trig2, AdcTriggerId::Trig4],
        CrossbarSource::TimACr3 => vec![AdcTriggerId::Trig1, AdcTriggerId::Trig3],
        CrossbarSource::TimACr4 => vec![AdcTriggerId::Trig1, AdcTriggerId::Trig2, AdcTriggerId::Trig3, AdcTriggerId::Trig4],
        CrossbarSource::TimACrPer => vec![AdcTriggerId::Trig1, AdcTriggerId::Trig2, AdcTriggerId::Trig3, AdcTriggerId::Trig4],
        CrossbarSource::TimACrRst => vec![AdcTriggerId::Trig1, AdcTriggerId::Trig3],
        CrossbarSource::TimBCr2 => vec![AdcTriggerId::Trig2, AdcTriggerId::Trig4],
        CrossbarSource::TimBCr3 => vec![AdcTriggerId::Trig1, AdcTriggerId::Trig3],
        CrossbarSource::TimBCr4 => vec![AdcTriggerId::Trig1, AdcTriggerId::Trig2, AdcTriggerId::Trig3, AdcTriggerId::Trig4],
        CrossbarSource::TimBCrPer => vec![AdcTriggerId::Trig1, AdcTriggerId::Trig2, AdcTriggerId::Trig3, AdcTriggerId::Trig4],
        CrossbarSource::TimBCrRst => vec![AdcTriggerId::Trig1, AdcTriggerId::Trig3],
        CrossbarSource::TimCCr2 => vec![AdcTriggerId::Trig2, AdcTriggerId::Trig4],
        CrossbarSource::TimCCr3 => vec![AdcTriggerId::Trig1, AdcTriggerId::Trig3],
        CrossbarSource::TimCCr4 => vec![AdcTriggerId::Trig1, AdcTriggerId::Trig2, AdcTriggerId::Trig3, AdcTriggerId::Trig4],
        CrossbarSource::TimCCrPer => vec![AdcTriggerId::Trig1, AdcTriggerId::Trig2, AdcTriggerId::Trig3, AdcTriggerId::Trig4],
        CrossbarSource::TimCCrRst => vec![AdcTriggerId::Trig2, AdcTriggerId::Trig4],
        CrossbarSource::TimDCr2 => vec![AdcTriggerId::Trig2, AdcTriggerId::Trig4],
        CrossbarSource::TimDCr3 => vec![AdcTriggerId::Trig1, AdcTriggerId::Trig3],
        CrossbarSource::TimDCr4 => vec![AdcTriggerId::Trig1, AdcTriggerId::Trig2, AdcTriggerId::Trig3, AdcTriggerId::Trig4],
        CrossbarSource::TimDCrPer => vec![AdcTriggerId::Trig1, AdcTriggerId::Trig2, AdcTriggerId::Trig3, AdcTriggerId::Trig4],
        CrossbarSource::TimDCrRst => vec![AdcTriggerId::Trig2, AdcTriggerId::Trig4],
        CrossbarSource::TimECr2 => vec![AdcTriggerId::Trig2, AdcTriggerId::Trig4],
        CrossbarSource::TimECr3 => vec![AdcTriggerId::Trig1, AdcTriggerId::Trig3],
        CrossbarSource::TimECr4 => vec![AdcTriggerId::Trig1, AdcTriggerId::Trig2, AdcTriggerId::Trig3, AdcTriggerId::Trig4],
        CrossbarSource::TimECrPer => vec![AdcTriggerId::Trig1, AdcTriggerId::Trig2, AdcTriggerId::Trig3, AdcTriggerId::Trig4],
        CrossbarSource::TimECrRst => vec![AdcTriggerId::Trig2, AdcTriggerId::Trig4],
        CrossbarSource::TimFCr2 => vec![AdcTriggerId::Trig2, AdcTriggerId::Trig4],
        CrossbarSource::TimFCr3 => vec![AdcTriggerId::Trig1, AdcTriggerId::Trig2, AdcTriggerId::Trig3, AdcTriggerId::Trig4],
        CrossbarSource::TimFCr4 => vec![AdcTriggerId::Trig1, AdcTriggerId::Trig2, AdcTriggerId::Trig3, AdcTriggerId::Trig4],
        CrossbarSource::TimFCrPer => vec![AdcTriggerId::Trig1, AdcTriggerId::Trig2, AdcTriggerId::Trig3, AdcTriggerId::Trig4],
        CrossbarSource::TimFCrRst => vec![AdcTriggerId::Trig1, AdcTriggerId::Trig3],
    };
    proof {
        assert(r@ =~= adc_triggers_of(x));
    }
    r
}

/// The sequencers that a trigger line can start.
pub open spec fn adc_channels_of(x: AdcTriggerId) -> Seq<AdcChannel> {
    match x {
        AdcTriggerId::Trig1 => seq![AdcChannel::Adc1Regular, AdcChannel::Adc2Regular, AdcChannel::Adc3Regular, AdcChannel::Adc3Injected, AdcChannel::Adc4Regular, AdcChannel::Adc4Injected, AdcChannel::Adc5Regular, AdcChannel::Adc5Injected],
        AdcTriggerId::Trig2 => seq![AdcChannel::Adc1Injected, AdcChannel::Adc2Injected, AdcChannel::Adc3Regular, AdcChannel::Adc3Injected, AdcChannel::Adc4Regular, AdcChannel::Adc4Injected, AdcChannel::Adc5Regular, AdcChannel::Adc5Injected],
        AdcTriggerId::Trig3 => seq![AdcChannel::Adc1Regular, AdcChannel::Adc2Regular, AdcChannel::Adc3Regular, AdcChannel::Adc3Injected, AdcChannel::Adc4Regular, AdcChannel::Adc4Injected, AdcChannel::Adc5Regular, AdcChannel::Adc5Injected],
        AdcTriggerId::Trig4 => seq![AdcChannel::Adc1Injected, AdcChannel::Adc2Injected, AdcChannel::Adc3Regular, AdcChannel::Adc3Injected, AdcChannel::Adc4Regular, AdcChannel::Adc4Injected, AdcChannel::Adc5Regular, AdcChannel::Adc5Injected],
        AdcTriggerId::Trig5 => seq![AdcChannel::Adc1Regular, AdcChannel::Adc2Regular, AdcChannel::Adc3Regular, AdcChannel::Adc3Injected, AdcChannel::Adc4Regular, AdcChannel::Adc4Injected, AdcChannel::Adc5Regular, AdcChannel::Adc5Injected],
        AdcTriggerId::Trig6 => seq![AdcChannel::Adc1Injected, AdcChannel::Adc2Injected, AdcChannel::Adc3Regular, AdcChannel::Adc3Injected, AdcChannel::Adc4Regular, AdcChannel::Adc4Injected, AdcChannel::Adc5Regular, AdcChannel::Adc5Injected],
        AdcTriggerId::Trig7 => seq![AdcChannel::Adc1Regular, AdcChannel::Adc2Regular, AdcChannel::Adc3Regular, AdcChannel::Adc3Injected, AdcChannel::Adc4Regular, AdcChannel::Adc4Injected, AdcChannel::Adc5Regular, AdcChannel::Adc5Injected],
        AdcTriggerId::Trig8 => seq![AdcChannel::Adc1Injected, AdcChannel::Adc2Injected, AdcChannel::Adc3Regular, AdcChannel::Adc3Injected, AdcChannel::Adc4Regular, AdcChannel::Adc4Injected, AdcChannel::Adc5Regular, AdcChannel::Adc5Injected],
        AdcTriggerId::Trig9 => seq![AdcChannel::Adc1Regular, AdcChannel::Adc2Regular, AdcChannel::Adc3Regular, AdcChannel::Adc3Injected, AdcChannel::Adc4Regular, AdcChannel::Adc4Injected, AdcChannel::Adc5Regular, AdcChannel::Adc5Injected],
        AdcTriggerId::Trig10 => seq![AdcChannel::Adc1Injected, AdcChannel::Adc2Injected, AdcChannel::Adc3Regular, AdcChannel::Adc3Injected, AdcChannel::Adc4Regular, AdcChannel::Adc4Injected, AdcChannel::Adc5Regular, AdcChannel::Adc5Injected],
    }
}

/// The sequencers that the trigger line can start.
pub fn adc_channels_for(x: AdcTriggerId) -> (r: Vec<AdcChannel>)
    ensures
        r@ == adc_channels_of(x),
{
    let r: Vec<AdcChannel> = match x {
        AdcTriggerId::Trig1 => vec![AdcChannel::Adc1Regular, AdcChannel::Adc2Regular, AdcChannel::Adc3Regular, AdcChannel::Adc3Injected, AdcChannel::Adc4Regular, AdcChannel::Adc4Injected, AdcChannel::Adc5Regular, AdcChannel::Adc5Injected],
        AdcTriggerId::Trig2 => vec![AdcChannel::Adc1Injected, AdcChannel::Adc2Injected, AdcChannel::Adc3Regular, AdcChannel::Adc3Injected, AdcChannel::Adc4Regular, AdcChannel::Adc4Injected, AdcChannel::Adc5Regular, AdcChannel::Adc5Injected],
        AdcTriggerId::Trig3 => vec![AdcChannel::Adc1Regular, AdcChannel::Adc2Regular, AdcChannel::Adc3Regular, AdcChannel::Adc3Injected, AdcChannel::Adc4Regular, AdcChannel::Adc4Injected, AdcChannel::Adc5Regular, AdcChannel::Adc5Injected],
        AdcTriggerId::Trig4 => vec![AdcChannel::Adc1Injected, AdcChannel::Adc2Injected, AdcChannel::Adc3Regular, AdcChannel::Adc3Injected, AdcChannel::Adc4Regular, AdcChannel::Adc4Injected, AdcChannel::Adc5Regular, AdcChannel::Adc5Injected],
        AdcTriggerId::Trig5 => vec![AdcChannel::Adc1Regular, AdcChannel::Adc2Regular, AdcChannel::Adc3Regular, AdcChannel::Adc3Injected, AdcChannel::Adc4Regular, AdcChannel::Adc4Injected, AdcChannel::Adc5Regular, AdcChannel::Adc5Injected],
        AdcTriggerId::Trig6 => vec![AdcChannel::Adc1Injected, AdcChannel::Adc2Injected, AdcChannel::Adc3Regular, AdcChannel::Adc3Injected, AdcChannel::Adc4Regular, AdcChannel::Adc4Injected, AdcChannel::Adc5Regular, AdcChannel::Adc5Injected],
        AdcTriggerId::Trig7 => vec![AdcChannel::Adc1Regular, AdcChannel::Adc2Regular, AdcChannel::Adc3Regular, AdcChannel::Adc3Injected, AdcChannel::Adc4Regular, AdcChannel::Adc4Injected, AdcChannel::Adc5Regular, AdcChannel::Adc5Injected],
        AdcTriggerId::Trig8 => vec![AdcChannel::Adc1Injected, AdcChannel::Adc2Injected, AdcChannel::Adc3Regular, AdcChannel::Adc3Injected, AdcChannel::Adc4Regular, AdcChannel::Adc4Injected, AdcChannel::Adc5Regular, AdcChannel::Adc5Injected],
        AdcTriggerId::Trig9 => vec![AdcChannel::Adc1Regular, AdcChannel::Adc2Regular, AdcChannel::Adc3Regular, AdcChannel::Adc3Injected, AdcChannel::Adc4Regular, AdcChannel::Adc4Injected, AdcChannel::Adc5Regular, AdcChannel::Adc5Injected],
        AdcTriggerId::Trig10 => vec![AdcChannel::Adc1Injected, AdcChannel::Adc2Injected, AdcChannel::Adc3Regular, AdcChannel::Adc3Injected, AdcChannel::Adc4Regular, AdcChannel::Adc4Injected, AdcChannel::Adc5Regular, AdcChannel::Adc5Injected],
    };
    proof {
        assert(r@ =~= adc_channels_of(x));
    }
    r
}

/// The DAC channels among the first `n` that can set the comparator's threshold.
pub open spec fn dacs_upto(comp: CompId, n: int) -> Seq<DacId>
    decreases n,
{
    if n <= 0 {
        Seq::empty()
    } else if comps_of_dac(all_dacs_seq()[n - 1]).contains(comp) {
        dacs_upto(comp, n - 1).push(all_dacs_seq()[n - 1])
    } else {
        dacs_upto(comp, n - 1)
    }
}

/// The DAC channels that can set the comparator's threshold, in order.
pub fn dacs_for_comp(comp: CompId) -> (r: Vec<DacId>)
    ensures
        r@ == dacs_upto(comp, all_dacs_seq().len() as int),
        forall|d: DacId| #[trigger] r@.contains(d) <==> comps_of_dac(d).contains(comp),
{
    let all: Vec<DacId> = all_dacs();
    let mut out: Vec<DacId> = Vec::new();
    let mut i: usize = 0;
    while i < all.len()
        invariant
            i <= all@.len(),
            all@ == all_dacs_seq(),
            out@ == dacs_upto(comp, i as int),
        decreases all@.len() - i,
    {
        let reach: Vec<CompId> = comps_for_dac(all[i]);
        let mut k: usize = 0;
        let mut found: bool = false;
        while k < reach.len()
            invariant
                k <= reach@.len(),
                found == reach@.take(k as int).contains(comp),
            decreases reach@.len() - k,
        {
            proof {
                crate::mcu_pinout::take_grows(reach@, k as int);
            }
            if reach[k] == comp {
                found = true;
            }
            k += 1;
        }
        proof {
            assert(reach@.take(k as int) =~= reach@);
        }
        if found {
            out.push(all[i]);
        }
        i += 1;
    }
    proof {
        assert forall|d: DacId| #[trigger] out@.contains(d) <==> comps_of_dac(d).contains(
            comp,
        ) by {
            dacs_upto_holds(comp, all_dacs_seq().len() as int, d);
            dac_is_listed(d);
        }
    }
    out
}

proof fn dac_is_listed(d: DacId)
    ensures
        exists|i: int| 0 <= i < all_dacs_seq().len() && #[trigger] all_dacs_seq()[i] == d,
{
    let s = all_dacs_seq();
    match d {
        DacId::Dac1Ch1 => {
            assert(s[0] == d);
        },
        DacId::Dac1Ch2 => {
            assert(s[1] == d);
        },
        DacId::Dac2Ch1 => {
            assert(s[2] == d);
        },
        DacId::Dac3Ch1 => {
            assert(s[3] == d);
        },
        DacId::Dac3Ch2 => {
            assert(s[4] == d);
        },
        DacId::Dac4Ch1 => {
            assert(s[5] == d);
        },
        DacId::Dac4Ch2 => {
            assert(s[6] == d);
        },
    }
}

proof fn dacs_upto_holds(comp: CompId, n: int, d: DacId)
    requires
        0 <= n <= all_dacs_seq().len(),
    ensures
        dacs_upto(comp, n).contains(d) <==> (comps_of_dac(d).contains(comp) && exists|i: int|
            0 <= i < n && #[trigger] all_dacs_seq()[i] == d),
    decreases n,
{
    if n > 0 {
        dacs_upto_holds(comp, n - 1, d);
        let rest = dacs_upto(comp, n - 1);
        let last = all_dacs_seq()[n - 1];
        let more = rest.push(last);
        if rest.contains(d) {
            let k = choose|k: int| 0 <= k < rest.len() && rest[k] == d;
            assert(more[k] == d);
        }
        assert(more[rest.len() as int] == last);
        if more.contains(d) && d != last {
            let k = choose|k: int| 0 <= k < more.len() && more[k] == d;
            assert(rest[k] == d);
        }
    }
}

} // verus!
