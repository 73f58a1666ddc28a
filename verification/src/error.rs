//! The runtime's error domain. Each variant is one diagnostic code; every
//! error aborts the current script and discards its session.

use vstd::prelude::*;

use crate::value::Tuple;

verus! {

/// A failure of the runtime, with the payload its diagnostic carries.
#[derive(Debug)]
pub enum Error {
    /// Initial load of the catalog or counters failed, or the catalog holds
    /// bytes that do not decode as a relation handle.
    DbInit,
    /// A row is missing a required column with no default; carries the
    /// relation name.
    ImportBadData(Vec<u8>),
    /// `Create` on an existing relation; carries the relation name.
    StoredRelationConflict(Vec<u8>),
    /// Mutation on a missing relation; carries the relation name.
    StoredRelationNotFound(Vec<u8>),
    /// The query was asserted to return nothing but a tuple was found;
    /// carries that tuple.
    AssertNoneFailure(Tuple),
    /// The query was asserted to return something but returned nothing.
    AssertSomeFailure,
    /// The poison tripped: a timeout or an explicit kill.
    Killed,
    /// A row's arity does not match the schema it is written into; carries
    /// the relation name.
    ArityMismatch(Vec<u8>),
    /// A row holds a value outside its column's type; carries the relation
    /// name.
    TypeMismatch(Vec<u8>),
    /// A store-relation directive's schema does not match the existing
    /// relation; carries the relation name.
    SchemaIncompatible(Vec<u8>),
    /// An `Ensure` found a differing or missing row, or an `EnsureNot` found
    /// one present; carries the offending tuple.
    EnsureFailed(Tuple),
    /// A sorter names a column the entry head does not have.
    BadSorter(Vec<u8>),
    /// A relation to be restored or imported does not fit this database.
    RestoreIntoNonEmpty,
}

impl Error {
    /// The diagnostic code of this error, as the operator surface shows it.
    pub fn code(&self) -> (r: &'static str)
        ensures
            r@ == self.spec_code(),
    {
        let r = match self {
            Error::DbInit => "db::init",
            Error::ImportBadData(_) => "import::bad_data",
            Error::StoredRelationConflict(_) => "eval::stored_relation_conflict",
            Error::StoredRelationNotFound(_) => "eval::stored_relation_not_found",
            Error::AssertNoneFailure(_) => "eval::assert_none_failure",
            Error::AssertSomeFailure => "eval::assert_some_failure",
            Error::Killed => "eval::killed",
            Error::ArityMismatch(_) => "eval::arity_mismatch",
            Error::TypeMismatch(_) => "eval::type_mismatch",
            Error::SchemaIncompatible(_) => "eval::stored_relation_schema_conflict",
            Error::EnsureFailed(_) => "transact::assertion_failure",
            Error::BadSorter(_) => "eval::bad_sorter",
            Error::RestoreIntoNonEmpty => "db::restore",
        };
        r
    }

    /// The diagnostic code each variant stands for.
    pub open spec fn spec_code(&self) -> Seq<char> {
        match self {
            Error::DbInit => "db::init"@,
            Error::ImportBadData(_) => "import::bad_data"@,
            Error::StoredRelationConflict(_) => "eval::stored_relation_conflict"@,
            Error::StoredRelationNotFound(_) => "eval::stored_relation_not_found"@,
            Error::AssertNoneFailure(_) => "eval::assert_none_failure"@,
            Error::AssertSomeFailure => "eval::assert_some_failure"@,
            Error::Killed => "eval::killed"@,
            Error::ArityMismatch(_) => "eval::arity_mismatch"@,
            Error::TypeMismatch(_) => "eval::type_mismatch"@,
            Error::SchemaIncompatible(_) => "eval::stored_relation_schema_conflict"@,
            Error::EnsureFailed(_) => "transact::assertion_failure"@,
            Error::BadSorter(_) => "eval::bad_sorter"@,
            Error::RestoreIntoNonEmpty => "db::restore"@,
        }
    }
}

} // verus!
