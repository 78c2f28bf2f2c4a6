//! The engine's error taxonomy. Page-level and buffer-pool-level errors are
//! structural faults; the database-level errors are expected, recoverable
//! outcomes of normal usage and are returned as typed results.

use vstd::prelude::*;

verus! {

/// Errors raised by a single page: capacity exhausted, a read or update of
/// a slot that does not exist, or a null written to a non-nullable page.
#[derive(Debug, Clone, PartialEq, Eq, Structural)]
pub enum PageError {
    Full,
    IndexOutOfBounds(usize),
    NullViolation,
}

/// Errors raised by the buffer pool. A zero page id is reserved/invalid; the
/// disk failures are reported by the unverified persistence layer around the
/// engine when it spills or reloads page files.
#[derive(Debug, Clone, PartialEq, Eq, Structural)]
pub enum BufferPoolError {
    ZeroPid,
    Full,
    PidNotInFrame,
    DiskWriteFail,
    DiskReadFail,
    BufferPoolWriteFail,
}

/// The unified, query-facing error type. Lower layers return specific errors;
/// the table and query layers wrap and pass them through this single type.
#[derive(Debug, Clone, PartialEq, Eq, Structural)]
pub enum DbError {
    Page(PageError),
    /// No such RID in the page directory.
    RecordNotFound(i64),
    /// An index lookup found no entry for the key.
    KeyNotFound(i64),
    /// An insert or update would violate primary-key uniqueness.
    DuplicateKey(i64),
    /// A column was null where a value is expected.
    NullValue(usize),
}

impl From<PageError> for DbError {
    fn from(e: PageError) -> (r: DbError)
        ensures
            r == DbError::Page(e),
    {
        DbError::Page(e)
    }
}

impl vstd::std_specs::convert::FromSpecImpl<PageError> for DbError {
    open spec fn obeys_from_spec() -> bool {
        true
    }

    open spec fn from_spec(e: PageError) -> DbError {
        DbError::Page(e)
    }
}

} // verus!
