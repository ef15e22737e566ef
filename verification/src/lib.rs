//! Multi-key, multi-version transactions with serializable predicate
//! semantics, layered on a single-key atomic key-value store.
//!
//! The engine keeps a per-key chain of versioned memory records, drives each
//! transaction through optimistic install / validate / write / maintenance
//! phases, and reconciles pending write-set journal records at startup.

pub mod bytes;
pub mod codec;
pub mod store;
pub mod mvcc;
pub mod tx;
pub mod db;
pub mod prefix;

use vstd::prelude::*;

verus! {

/// Coarse outcome classification for a finished transaction.
#[derive(Debug, PartialEq, Eq, Structural)]
pub enum TxRet {
    Committed,
    Conflict,
    PredicateFailure,
}

} // verus!
