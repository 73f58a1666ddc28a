//! The parsed form of scripts, as the runtime receives them: query programs
//! with their output options, and the closed set of system operations.

use vstd::prelude::*;

use crate::relation::{AccessLevel, ColumnDef};
use crate::value::Tuple;

verus! {

/// What a query statement computes, lowered to the abstract plans the
/// runtime evaluates: fixed rows, a full scan of a stored relation, or a
/// generated integer sequence (a long scan, for cancellation).
pub enum QuerySpec {
    ConstRows(Vec<Tuple>),
    ScanStored(Vec<u8>),
    Generate(u64),
}

/// The mutation a store-relation directive asks for.
#[derive(Clone, Copy, PartialEq, Eq, Structural)]
pub enum RelationOp {
    Create,
    Replace,
    Put,
    Rm,
    Ensure,
    EnsureNot,
}

/// A query assertion: the statement must return nothing, or something.
#[derive(Clone, Copy, PartialEq, Eq, Structural)]
pub enum QueryAssertion {
    AssertNone,
    AssertSome,
}

/// The schema a store-relation directive carries.
pub struct InputRelationMeta {
    pub name: Vec<u8>,
    pub keys: Vec<ColumnDef>,
    pub non_keys: Vec<ColumnDef>,
}

/// Output options of one statement.
pub struct OutOpts {
    /// Sort keys: column name and whether the direction is descending.
    pub sorters: Vec<(Vec<u8>, bool)>,
    pub limit: Option<usize>,
    pub offset: Option<usize>,
    pub store_relation: Option<(InputRelationMeta, RelationOp)>,
    pub assertion: Option<QueryAssertion>,
    pub timeout_micros: Option<u64>,
    /// A pause after the statement. The runtime has no native timers and
    /// skips it, as implementations without threading may.
    pub sleep_micros: Option<u64>,
}

impl OutOpts {
    /// Options that ask for nothing: no sort, no pagination, no store
    /// directive, no assertion, no timeout, no sleep.
    pub fn plain() -> (r: OutOpts)
        ensures
            r.sorters@.len() == 0,
            r.limit is None,
            r.offset is None,
            r.store_relation is None,
            r.assertion is None,
            r.timeout_micros is None,
            r.sleep_micros is None,
    {
        OutOpts {
            sorters: Vec::new(),
            limit: None,
            offset: None,
            store_relation: None,
            assertion: None,
            timeout_micros: None,
            sleep_micros: None,
        }
    }
}

/// One parsed query statement: its plan, the column names of its entry
/// head, and its output options.
pub struct InputProgram {
    pub query: QuerySpec,
    pub entry_head: Vec<Vec<u8>>,
    pub out_opts: OutOpts,
}

/// A parsed script: a sequence of query programs, or one system op.
pub enum CozoScript {
    Multi(Vec<InputProgram>),
    Sys(SysOp),
}

/// The closed set of system operations.
pub enum SysOp {
    Explain(InputProgram),
    Compact,
    ListRelations,
    ListRelation(Vec<u8>),
    RemoveRelation(Vec<Vec<u8>>),
    RenameRelation(Vec<(Vec<u8>, Vec<u8>)>),
    ListRunning,
    KillRunning(u64),
    ShowTrigger(Vec<u8>),
    SetTriggers(Vec<u8>, Vec<Vec<u8>>, Vec<Vec<u8>>, Vec<Vec<u8>>),
    SetAccessLevel(Vec<Vec<u8>>, AccessLevel),
}

/// The shape every operation answers with: optional headers, rows of data
/// values; `ok` marks a successful script.
#[derive(Debug)]
pub struct QueryResult {
    pub headers: Option<Vec<Vec<u8>>>,
    pub rows: Vec<Tuple>,
    pub ok: bool,
}

} // verus!
