//! An embedded observability store: a schema-light time-series engine that
//! ingests typed records tagged with key/value labels, persists them in an
//! ordered byte-keyed backend, and answers conjunctive queries filtered by
//! record name, timestamp range and label equality.
//!
//! The storage layer derives a printable primary key from each record's
//! indexed dimensions, maintains one secondary posting per dimension
//! atomically with the primary write, and intersects per-index candidate
//! sets to execute queries.

pub mod prelude;

pub mod args;
pub mod clock;
pub mod codec;
pub mod config;
pub mod db;
pub mod interface;
pub mod keys;
pub mod laws;
pub mod log;
pub mod metric;
pub mod models;
pub mod query;
pub mod storage;
pub mod text;
pub mod trace;
pub mod util;

pub use args::{Args, RawArgs};
pub use config::Config;
pub use db::{BackendDatabase, SledBackend, StoreModel, Storeful};
pub use interface::{Http, HttpError, ModelEndpoints, Query};
pub use log::{IncomingLog, Log};
pub use metric::{IncomingMetric, Metric};
pub use models::{Context, ContextValue, IncomingBody};
pub use prelude::StorefulError;
pub use query::MetricQuery;
pub use storage::Metrical;
pub use trace::{Event, Span, Trace};
pub use util::intersect;
