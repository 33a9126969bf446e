//! Reasoning core of a place-capability analysis: which places are blocked by
//! outstanding borrows on which control-flow paths, and in which order the
//! blocking relations have to be released to regain access to a place.

pub mod borrows;
pub mod cfg;
pub mod combined_pcs;
pub mod utils;

pub use crate::borrows::borrows_edge::{BorrowsEdge, BorrowsEdgeKind, Conditioned};
pub use crate::borrows::borrows_state::BorrowsState;
pub use crate::borrows::path_condition::{PCGraph, Path, PathCondition, PathConditions};
pub use crate::borrows::unblock_graph::{
    UnblockError, UnblockGraph, UnblockHistory, UnblockHistoryAction,
};
pub use crate::combined_pcs::UnblockAction;
