//! General block framework: fork trees and flat, fork-aware key-value state.
//!
//! The crate keeps every known block of a chain, forks included, in a
//! [`memory::MemoryForkTree`], answers ancestry queries through a sparse
//! skip-ancestor index, and resolves which state write is visible from which
//! fork in a [`memory::MemoryFlatState`] without any tree-shaped commitment.
//! [`memory::MemoryTransactional`] gives the pair all-or-nothing semantics by
//! holding two replicas of the state.

pub mod block;
pub mod chain;
pub mod memory;
pub mod state;

pub use crate::block::{Headered, Identified, Keyed, SimpleBlock};
pub use crate::chain::{BlockBuilder, ForkTree, ForkTreeMut, ForkTreeTransactional, ImportBlock};
pub use crate::state::{FlatState, FlatStateMut, FlatStateTransactional, OverlayedFlatState};
