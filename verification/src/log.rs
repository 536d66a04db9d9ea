//! The log record kind: a timestamped message with labels.

use vstd::prelude::*;

use crate::clock::now_nanos;
use crate::models::{Context, LabelModel};

verus! {

/// The mathematical value of a log record.
pub struct LogModel {
    pub timestamp: i64,
    pub labels: Seq<LabelModel>,
    pub message: Seq<char>,
}

/// A log record whose timestamp may be absent; ingestion fills it with the
/// current wall clock.
#[derive(Debug, Clone)]
pub struct IncomingLog {
    pub timestamp: Option<i64>,
    pub context: Context,
    pub message: String,
}

/// A committed log record.
#[derive(Debug, Clone)]
pub struct Log {
    pub timestamp: i64,
    pub context: Context,
    pub message: String,
}

impl View for Log {
    type V = LogModel;

    open spec fn view(&self) -> LogModel {
        LogModel { timestamp: self.timestamp, labels: self.context@, message: self.message@ }
    }
}

impl Log {
    /// Fill an absent timestamp with the current wall clock (never below
    /// zero); all other fields carry over unchanged.
    pub fn from_incoming(incoming: IncomingLog) -> (r: Log)
        ensures
            r@.labels == incoming.context@,
            r@.message == incoming.message@,
            incoming.timestamp matches Some(t) ==> r@.timestamp == t,
            incoming.timestamp is None ==> r@.timestamp >= 0,
    {
        let timestamp: i64 = match incoming.timestamp {
            Some(t) => t,
            None => {
                let now = now_nanos();
                if now < 0 {
                    0
                } else {
                    now
                }
            },
        };
        Log { timestamp, context: incoming.context, message: incoming.message }
    }
}

} // verus!
