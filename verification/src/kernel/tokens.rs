//! Family-agnostic resource tokens.
//!
//! The engine only ever asks whether two tokens are the same; what a field means
//! is the adapter's concern. A pool of N channels is N distinct [`Res::Pool`]
//! tokens.

use vstd::prelude::*;

use crate::mcu_pinout::PinId;
use crate::text;
use crate::tokens::Token;
use crate::tokens::TokenKey;

verus! {

/// A peripheral class, e.g. `"USART"`, `"SPI"`, `"TIM"`.
pub type Class = &'static str;

/// A DMA controller pool, e.g. `"DMA1"`, `"GPDMA1"`.
pub type PoolId = &'static str;

/// The kind of an internal analog or timer route.
#[derive(Copy, Clone, Debug, PartialEq, Eq, Structural, Hash)]
pub enum RouteKind {
    /// A DAC channel that sets a comparator's threshold.
    DacToComp,
    /// A comparator wired into a timer's break input.
    CompToTimBreak,
    /// A comparator wired into an external-event input.
    CompToEev,
    /// A comparator wired into a fault input.
    CompToFlt,
    /// The path that feeds an ADC channel.
    CrossbarToAdc,
}

/// An exclusion token.
#[derive(Copy, Clone, Debug, PartialEq, Eq, Hash)]
pub enum Res {
    /// A whole peripheral instance: `Inst("USART", 2)` is USART2.
    Inst(Class, u8),
    /// A channel of an instance: `SubChannel("ADC", 1, 5)` is ADC1 channel 5.
    SubChannel(Class, u8, u8),
    /// One internal connection, e.g. `Route(CompToTimBreak, comp, tim, brk)`.
    Route(RouteKind, u8, u8, u8),
    /// A physical pin.
    Pin(PinId),
    /// One channel of a DMA controller.
    Pool(PoolId, u8),
}

/// The kinds of routes, told apart by number.
pub open spec fn route_code(k: RouteKind) -> int {
    match k {
        RouteKind::DacToComp => 10,
        RouteKind::CompToTimBreak => 11,
        RouteKind::CompToEev => 12,
        RouteKind::CompToFlt => 13,
        RouteKind::CrossbarToAdc => 14,
    }
}

impl Token for Res {
    open spec fn key(&self) -> TokenKey {
        match *self {
            Res::Inst(s, a) => TokenKey { kind: 0, name: s@, a: a as int, b: 0, c: 0 },
            Res::SubChannel(s, a, b) => TokenKey {
                kind: 1,
                name: s@,
                a: a as int,
                b: b as int,
                c: 0,
            },
            Res::Route(k, a, b, c) => TokenKey {
                kind: route_code(k),
                name: Seq::empty(),
                a: a as int,
                b: b as int,
                c: c as int,
            },
            Res::Pin(p) => TokenKey {
                kind: 2,
                name: Seq::empty(),
                a: p.port as int,
                b: p.num as int,
                c: 0,
            },
            Res::Pool(s, a) => TokenKey { kind: 3, name: s@, a: a as int, b: 0, c: 0 },
        }
    }

    fn is(&self, other: &Self) -> (r: bool) {
        match (*self, *other) {
            (Res::Inst(s, a), Res::Inst(t, x)) => a == x && text::same(s, t),
            (Res::SubChannel(s, a, b), Res::SubChannel(t, x, y)) => a == x && b == y && text::same(
                s,
                t,
            ),
            (Res::Route(k, a, b, c), Res::Route(l, x, y, z)) => k == l && a == x && b == y && c
                == z,
            (Res::Pin(p), Res::Pin(q)) => p.port == q.port && p.num == q.num,
            (Res::Pool(s, a), Res::Pool(t, x)) => a == x && text::same(s, t),
            _ => false,
        }
    }
}

} // verus!
