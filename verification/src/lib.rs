//! Query runtime core of an embeddable Datalog database: a transactional
//! session over an ordered key-value store, a catalog of stored relations,
//! script orchestration with cooperative cancellation, import/export and
//! backup, and a plan explainer.

use vstd::prelude::*;

pub mod codec;
pub mod db;
pub mod error;
pub mod explain;
pub mod importexport;
pub mod kv;
pub mod lex;
pub mod poison;
pub mod program;
pub mod query;
pub mod registry;
pub mod relation;
pub mod session;
pub mod value;

verus! {

/// Reserved relation id of the system catalog.
pub const SYSTEM_RELATION_ID: u64 = 0;

} // verus!
