//! The narrow surface the engine exposes to external collaborators: a
//! generic set of endpoints over a record type and its query type, and the
//! error envelope the serving layer reports.

use vstd::prelude::*;

use crate::metric::Metric;
use crate::prelude::StorefulError;
use crate::query::MetricQuery;
use crate::db::BackendDatabase;
use crate::storage::Metrical;

verus! {

/// Marker for the HTTP interface.
#[derive(Debug, Clone)]
pub struct Http;

/// The error envelope reported to callers of an interface.
#[derive(Debug, Clone)]
pub struct HttpError(pub String);

impl HttpError {
    /// The error's text.
    pub fn message(&self) -> (r: &String)
        ensures
            r@ == self.0@,
    {
        &self.0
    }
}

/// The generic endpoint surface: ingest one record, ingest several
/// atomically, and answer a conjunctive query.
pub trait ModelEndpoints<T, Q> {
    /// Ingest one record.
    fn post(&mut self, input: T) -> Result<(), StorefulError>;

    /// Ingest several records in one atomic batch.
    fn post_multi(&mut self, multi: Vec<T>) -> Result<(), StorefulError>;

    /// Answer a conjunctive query.
    fn query(&mut self, query: Q) -> Result<Vec<T>, StorefulError>;
}

/// A query type an interface can carry.
pub trait Query {
    /// Parse a query from its text.
    fn from_str(s: &str) -> Self where Self: core::marker::Sized;

    /// The query's text.
    fn to_string(&self) -> String;
}

impl<B> ModelEndpoints<Metric, MetricQuery> for Metrical<B> where B: BackendDatabase + Send + Sync {
    fn post(&mut self, input: Metric) -> Result<(), StorefulError> {
        Metrical::post(self, input)
    }

    fn post_multi(&mut self, multi: Vec<Metric>) -> Result<(), StorefulError> {
        Metrical::post_multi(self, multi)
    }

    fn query(&mut self, query: MetricQuery) -> Result<Vec<Metric>, StorefulError> {
        Metrical::query(self, query)
    }
}

} // verus!
