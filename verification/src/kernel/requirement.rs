//! Family-neutral user intent.

use vstd::prelude::*;

use super::tokens::Class;

verus! {

/// How many DMA channels a use needs; 0 for none.
pub type DmaDemand = u8;

/// A single unit of user intent.
#[derive(Clone, Debug, PartialEq, Eq)]
pub enum ReqKind {
    /// One instance of `class`, backed by `dma` DMA channels drawn from the pools
    /// that the instance may use.
    UsePeripheral { class: Class, dma: DmaDemand },
}

/// A requirement with a stable id.
#[derive(Clone, Debug, PartialEq, Eq)]
pub struct Requirement {
    pub id: u32,
    pub kind: ReqKind,
}

impl Requirement {
    /// "Use one `class` instance, with `dma` DMA channels."
    pub fn use_peripheral(id: u32, class: Class, dma: DmaDemand) -> (r: Self)
        ensures
            r == (Requirement { id, kind: ReqKind::UsePeripheral { class, dma } }),
    {
        Requirement { id, kind: ReqKind::UsePeripheral { class, dma } }
    }
}

} // verus!
