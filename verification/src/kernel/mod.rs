//! The claim and conflict engine: chip-agnostic accounting over opaque tokens,
//! and the first adapter that lowers user intent onto a chip.

pub mod engine;
pub mod lower;
pub mod requirement;
pub mod tokens;

pub use engine::place_greedy;
pub use engine::used_excluding;
pub use engine::Consume;
pub use engine::Ledger;
pub use lower::feasible;
pub use lower::Outcome;
pub use lower::Placed;
pub use requirement::DmaDemand;
pub use requirement::ReqKind;
pub use requirement::Requirement;
pub use tokens::Class;
pub use tokens::PoolId;
pub use tokens::Res;
pub use tokens::RouteKind;
