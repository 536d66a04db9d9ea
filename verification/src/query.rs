//! Conjunctive queries over metrics: an optional name, an optional
//! inclusive timestamp range, and zero or more label equalities. An absent
//! predicate leaves its dimension unconstrained; a query with no predicate
//! at all is defined to return nothing.

use vstd::prelude::*;

use crate::metric::MetricModel;
use crate::models::{check_labels, check_name_text, valid_labels, valid_name, Context, ContextValue, LabelModel};

verus! {

/// The mathematical value of a conjunctive metric query.
pub struct MetricQueryModel {
    pub name: Option<Seq<char>>,
    pub timestamp_start: Option<i64>,
    pub timestamp_end: Option<i64>,
    pub labels: Seq<LabelModel>,
}

/// A conjunctive query over metrics.
#[derive(Debug, Clone)]
pub struct MetricQuery {
    pub name: Option<String>,
    pub timestamp_start: Option<i64>,
    pub timestamp_end: Option<i64>,
    pub context: Option<Context>,
}

impl View for MetricQuery {
    type V = MetricQueryModel;

    open spec fn view(&self) -> MetricQueryModel {
        MetricQueryModel {
            name: match self.name {
                Some(n) => Some(n@),
                None => None,
            },
            timestamp_start: self.timestamp_start,
            timestamp_end: self.timestamp_end,
            labels: match self.context {
                Some(c) => c@,
                None => Seq::empty(),
            },
        }
    }
}

/// Whether any predicate is present.
pub open spec fn query_has_predicates(q: MetricQueryModel) -> bool {
    ||| q.name is Some
    ||| q.timestamp_start is Some
    ||| q.timestamp_end is Some
    ||| q.labels.len() > 0
}

/// Whether the query's text is free of reserved characters, so that its
/// probes cannot impersonate other keys.
pub open spec fn valid_query(q: MetricQueryModel) -> bool {
    &&& (q.name matches Some(n) ==> valid_name(n))
    &&& valid_labels(q.labels)
}

/// Whether a record satisfies every present predicate of a query.
pub open spec fn query_matches(m: MetricModel, q: MetricQueryModel) -> bool {
    &&& (q.name matches Some(n) ==> m.name == n)
    &&& (q.timestamp_start matches Some(s) ==> m.timestamp >= s)
    &&& (q.timestamp_end matches Some(e) ==> m.timestamp <= e)
    &&& (forall|i: int| 0 <= i < q.labels.len() ==> m.labels.contains(#[trigger] q.labels[i]))
}

impl MetricQuery {
    /// The query with no predicate.
    pub fn empty() -> (r: Self)
        ensures
            r@.name is None,
            r@.timestamp_start is None,
            r@.timestamp_end is None,
            r@.labels == Seq::<LabelModel>::empty(),
    {
        Self { name: None, timestamp_start: None, timestamp_end: None, context: None }
    }

    /// Constrain the record name.
    pub fn with_name(self, name: String) -> (r: Self)
        ensures
            r@ == (MetricQueryModel { name: Some(name@), ..self@ }),
    {
        Self { name: Some(name), ..self }
    }

    /// Constrain the timestamp from below (inclusive).
    pub fn with_timestamp_start(self, timestamp_start: i64) -> (r: Self)
        ensures
            r@ == (MetricQueryModel { timestamp_start: Some(timestamp_start), ..self@ }),
    {
        Self { timestamp_start: Some(timestamp_start), ..self }
    }

    /// Constrain the timestamp from above (inclusive).
    pub fn with_timestamp_end(self, timestamp_end: i64) -> (r: Self)
        ensures
            r@ == (MetricQueryModel { timestamp_end: Some(timestamp_end), ..self@ }),
    {
        Self { timestamp_end: Some(timestamp_end), ..self }
    }

    /// Add one label-equality predicate; repeated labels are conjunctive.
    pub fn with_context_value(self, context_value: ContextValue) -> (r: Self)
        ensures
            r@ == (MetricQueryModel { labels: self@.labels.push(context_value@), ..self@ }),
    {
        let ghost l = context_value@;
        let ghost prior = self@.labels;
        match self {
            Self { name, timestamp_start, timestamp_end, context } => {
                let new_context = match context {
                    Some(mut c) => {
                        c.0.push(context_value);
                        c
                    },
                    None => Context(vec![context_value]),
                };
                proof {
                    assert(new_context@ =~= prior.push(l));
                }
                Self { name, timestamp_start, timestamp_end, context: Some(new_context) }
            },
        }
    }

    /// Whether no predicate is present.
    pub fn is_unconstrained(&self) -> (r: bool)
        ensures
            r == !query_has_predicates(self@),
    {
        let no_labels = match &self.context {
            Some(c) => c.0.len() == 0,
            None => true,
        };
        proof {
            if self@.labels.len() == 0 {
                assert(self@.labels =~= Seq::<LabelModel>::empty());
            }
        }
        self.name.is_none() && self.timestamp_start.is_none() && self.timestamp_end.is_none()
            && no_labels
    }

    /// Whether the query's text is free of reserved characters.
    pub fn check(&self) -> (r: bool)
        ensures
            r == valid_query(self@),
    {
        let name_ok = match &self.name {
            Some(n) => check_name_text(n.as_str()),
            None => true,
        };
        let labels_ok = match &self.context {
            Some(c) => check_labels(c),
            None => true,
        };
        proof {
            if self.context is None {
                assert(valid_labels(self@.labels));
            }
        }
        name_ok && labels_ok
    }
}

} // verus!
