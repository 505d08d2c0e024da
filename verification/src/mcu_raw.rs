//! Chip metadata as plain tables: what peripherals a chip has, which pins carry
//! their signals, and how its DMA controllers may be used.

use vstd::prelude::*;

use crate::text;

verus! {

/// One chip.
#[derive(Debug)]
pub struct RawMcuData {
    pub name: &'static str,
    pub family: &'static str,
    pub peripherals: &'static [RawPeripheral],
    /// Physical DMA channel pools, one per controller.
    pub dma_pools: &'static [DmaPoolDef],
}

/// One DMA controller and its channel count, e.g. `("DMA1", 8)`.
#[derive(Debug)]
pub struct DmaPoolDef {
    pub name: &'static str,
    pub channels: u8,
}

/// One peripheral instance.
#[derive(Debug)]
pub struct RawPeripheral {
    pub name: &'static str,
    pub address: u64,
    /// Register-block id, e.g. "TIM_ADV" or "TIM_2CH_CMP"; tells the variants of
    /// a peripheral apart. `None` when the instance has no register block.
    pub block: Option<&'static str>,
    pub pins: &'static [RawPin],
    /// Trigger routing between peripherals.
    pub triggers: &'static [RawTrigger],
    /// DMA legs, each with the controller pools it may draw a channel from.
    pub dma: &'static [RawDmaLeg],
}

/// A DMA request of a peripheral: the signal ("RX", "TX", "CH1") and the
/// controller pools it may use. One leg takes one channel of any one pool.
#[derive(Copy, Clone, Debug)]
pub struct RawDmaLeg {
    pub signal: &'static str,
    pub pools: &'static [&'static str],
}

/// One trigger edge: the mux input `signal` is fed by `source`.
#[derive(Copy, Clone, Debug)]
pub struct RawTrigger {
    pub signal: &'static str,
    pub source: &'static str,
}

/// One pin that carries a signal of a peripheral.
#[derive(Copy, Clone, Debug)]
pub struct RawPin {
    /// Pin name, e.g. "PA0".
    pub pin: &'static str,
    /// Signal name within the peripheral, e.g. "TX", "MOSI", "INP3".
    pub signal: &'static str,
    /// Alternate-function number. `None` for analog signals, which are not
    /// selected by an alternate function.
    pub af: Option<u8>,
}

/// Whether two pins read the same.
pub open spec fn same_pin(a: RawPin, b: RawPin) -> bool {
    a.pin@ == b.pin@ && a.signal@ == b.signal@ && a.af == b.af
}

/// Whether two peripherals' names and pins read the same.
pub open spec fn same_pins(a: RawPeripheral, b: RawPeripheral) -> bool {
    &&& a.name@ == b.name@
    &&& a.pins@.len() == b.pins@.len()
    &&& forall|i: int| 0 <= i < a.pins@.len() ==> same_pin(#[trigger] a.pins@[i], b.pins@[i])
}

/// Whether two chips' names and pin tables read the same.
pub open spec fn same_chip(a: RawMcuData, b: RawMcuData) -> bool {
    &&& a.name@ == b.name@
    &&& a.peripherals@.len() == b.peripherals@.len()
    &&& forall|i: int|
        0 <= i < a.peripherals@.len() ==> same_pins(#[trigger] a.peripherals@[i], b.peripherals@[i])
}

fn have_same_pins(a: &RawPeripheral, b: &RawPeripheral) -> (r: bool)
    ensures
        r == same_pins(*a, *b),
{
    if !text::same(a.name, b.name) || a.pins.len() != b.pins.len() {
        return false;
    }
    let mut i: usize = 0;
    while i < a.pins.len()
        invariant
            i <= a.pins@.len(),
            a.pins@.len() == b.pins@.len(),
            forall|k: int| 0 <= k < i ==> same_pin(#[trigger] a.pins@[k], b.pins@[k]),
        decreases a.pins@.len() - i,
    {
        let x: RawPin = a.pins[i];
        let y: RawPin = b.pins[i];
        if !text::same(x.pin, y.pin) || !text::same(x.signal, y.signal) || x.af != y.af {
            assert(!same_pin(a.pins@[i as int], b.pins@[i as int]));
            return false;
        }
        i += 1;
    }
    true
}

/// Whether two chips' names and pin tables read the same.
pub fn are_same_chip(a: &RawMcuData, b: &RawMcuData) -> (r: bool)
    ensures
        r == same_chip(*a, *b),
{
    if !text::same(a.name, b.name) || a.peripherals.len() != b.peripherals.len() {
        return false;
    }
    let mut i: usize = 0;
    while i < a.peripherals.len()
        invariant
            i <= a.peripherals@.len(),
            a.peripherals@.len() == b.peripherals@.len(),
            forall|k: int|
                0 <= k < i ==> same_pins(#[trigger] a.peripherals@[k], b.peripherals@[k]),
        decreases a.peripherals@.len() - i,
    {
        if !have_same_pins(&a.peripherals[i], &b.peripherals[i]) {
            assert(!same_pins(a.peripherals@[i as int], b.peripherals@[i as int]));
            return false;
        }
        i += 1;
    }
    true
}

} // verus!
