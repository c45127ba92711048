//! A verified engine for merging two ledger account snapshots.
//!
//! The engine classifies the accounts of a loaded snapshot by owning
//! authority (vote, stake, or other), plans which record survives under
//! every key, applies the planned records onto a chain of bank states
//! under a byte-bounded batching discipline, recomputes the stored
//! capitalization, and optionally warps the finished chain forward to a
//! later slot.  Loading a snapshot from disk and writing the merged
//! archive back are I/O services outside this library; they hand in and
//! take back the plain values these modules are proved over.

pub mod account;
pub mod store;
pub mod bank;
pub mod plan;
pub mod merge;
pub mod laws;
