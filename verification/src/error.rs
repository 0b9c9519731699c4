//! The failures a query can end in, and how failures of the backing store
//! are sorted into them.

use vstd::prelude::*;

verus! {

/// How a query failed.
#[derive(Clone, Copy, Debug, PartialEq, Eq, Structural)]
pub enum TummyError {
    /// A lookup by name or identifier matched nothing.
    NotFound,
    /// The store could not be reached: no connection, none free in time, or
    /// the transport broke.
    StoreUnavailable,
    /// A timestamp text is not in the store's notation.
    MalformedTimestamp,
    /// The store refused the request or the rows it holds break its rules.
    QueryFailed,
}

/// What went wrong on the store's side, as the code that talks to the store
/// reports it.
#[derive(Clone, Copy, Debug, PartialEq, Eq, Structural)]
pub enum StoreFailure {
    /// A query that must find a row found none.
    RowNotFound,
    /// No connection became free within the acquisition timeout.
    PoolTimedOut,
    /// The pool was closed while a connection was awaited.
    PoolClosed,
    /// The socket failed.
    Io,
    /// The secure channel could not be set up or broke.
    Tls,
    /// A background worker of the pool died.
    WorkerCrashed,
    /// The connection settings could not be read.
    Configuration,
    /// The store and the client disagreed on the wire protocol.
    Protocol,
    /// The store answered with an error of its own.
    Database,
    /// A row did not have the columns or the types that were asked for.
    Decode,
    /// A value could not be sent as a parameter.
    Encode,
    /// A schema migration failed.
    Migrate,
    /// Anything else.
    Other,
}

impl StoreFailure {
    /// The failure is one of reaching the store, not of what was asked.
    pub open spec fn is_outage(self) -> bool {
        self is PoolTimedOut || self is PoolClosed || self is Io || self is Tls
            || self is WorkerCrashed || self is Configuration
    }
}

impl TummyError {
    /// The error a failure of the store is reported as.
    pub open spec fn of_failure(failure: StoreFailure) -> TummyError {
        if failure is RowNotFound {
            TummyError::NotFound
        } else if failure.is_outage() {
            TummyError::StoreUnavailable
        } else {
            TummyError::QueryFailed
        }
    }

    /// Sorts a failure of the store into the four kinds of error: a missing
    /// row is `NotFound`, an outage is `StoreUnavailable`, everything else is
    /// `QueryFailed`.
    pub fn from_failure(failure: StoreFailure) -> (error: TummyError)
        ensures
            error == TummyError::of_failure(failure),
            error != TummyError::MalformedTimestamp,
    {
        match failure {
            StoreFailure::RowNotFound => TummyError::NotFound,
            StoreFailure::PoolTimedOut
            | StoreFailure::PoolClosed
            | StoreFailure::Io
            | StoreFailure::Tls
            | StoreFailure::WorkerCrashed
            | StoreFailure::Configuration => TummyError::StoreUnavailable,
            StoreFailure::Protocol
            | StoreFailure::Database
            | StoreFailure::Decode
            | StoreFailure::Encode
            | StoreFailure::Migrate
            | StoreFailure::Other => TummyError::QueryFailed,
        }
    }

    /// Whether trying again later can help: only an outage passes.
    pub fn is_retryable(&self) -> (retry: bool)
        ensures
            retry == (*self == TummyError::StoreUnavailable),
    {
        match self {
            TummyError::StoreUnavailable => true,
            _ => false,
        }
    }

    /// The sentence shown for this error.
    pub open spec fn sentence(self) -> Seq<char> {
        match self {
            TummyError::NotFound => "not found"@,
            TummyError::StoreUnavailable => "the archive cannot be reached, try again later"@,
            TummyError::MalformedTimestamp => "malformed timestamp"@,
            TummyError::QueryFailed => "the archive refused the query"@,
        }
    }

    /// The sentence shown for this error, as an owned string.
    pub fn message(&self) -> (text: String)
        ensures
            text@ == self.sentence(),
    {
        match self {
            TummyError::NotFound => "not found".to_owned(),
            TummyError::StoreUnavailable => "the archive cannot be reached, try again later".to_owned(),
            TummyError::MalformedTimestamp => "malformed timestamp".to_owned(),
            TummyError::QueryFailed => "the archive refused the query".to_owned(),
        }
    }
}

} // verus!
