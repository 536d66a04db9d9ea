//! The engine's cross-cutting laws, stated and proved over the same
//! specifications that the public functions' contracts use.

use vstd::prelude::*;

use crate::metric::{metric_primary, valid_metric, MetricModel};
use crate::query::{query_matches, MetricQueryModel};
use crate::storage::{matching_set, query_answers};

verus! {

/// Round-trip: after ingesting record `m`, a query whose predicates
/// identify `m` uniquely among the committed records answers with exactly
/// `m`.
pub proof fn lemma_round_trip(
    records: Map<Seq<u8>, MetricModel>,
    m: MetricModel,
    q: MetricQueryModel,
    out: Seq<MetricModel>,
)
    requires
        valid_metric(m),
        query_matches(m, q),
        forall|p: Seq<u8>|
            records.insert(metric_primary(m), m).dom().contains(p) && query_matches(
                #[trigger] records.insert(metric_primary(m), m)[p],
                q,
            ) ==> p == metric_primary(m),
        query_answers(out, records.insert(metric_primary(m), m), q),
    ensures
        out == seq![m],
{
    let recs = records.insert(metric_primary(m), m);
    assert(recs.dom().contains(metric_primary(m)) && query_matches(recs[metric_primary(m)], q));
    let i = choose|i: int| 0 <= i < out.len() && out[i] == recs[metric_primary(m)];
    assert(out[i] == m);
    assert forall|j: int| 0 <= j < out.len() implies out[j] == m by {
        assert(recs.dom().contains(metric_primary(out[j])) && recs[metric_primary(out[j])]
            == out[j] && query_matches(out[j], q));
        assert(metric_primary(out[j]) == metric_primary(m));
    }
    if out.len() == 0 {
        assert(false);
    }
    if out.len() > 1 {
        assert(out[0] == m && out[1] == m);
        assert(false);
    }
    assert(out =~= seq![m]);
}

/// Ordering independence of label predicates: two queries that agree on
/// name and timestamp range and whose label predicates are permutations of
/// one another select the same records.
pub proof fn lemma_label_order_irrelevant(
    records: Map<Seq<u8>, MetricModel>,
    q1: MetricQueryModel,
    q2: MetricQueryModel,
)
    requires
        q1.name == q2.name,
        q1.timestamp_start == q2.timestamp_start,
        q1.timestamp_end == q2.timestamp_end,
        q1.labels.to_multiset() == q2.labels.to_multiset(),
    ensures
        matching_set(records, q1) == matching_set(records, q2),
{
    broadcast use vstd::seq_lib::to_multiset_contains;

    assert forall|m: MetricModel| query_matches(m, q1) <==> query_matches(m, q2) by {
        assert forall|l: crate::models::LabelModel|
            q1.labels.contains(l) <==> q2.labels.contains(l) by {
            assert(q1.labels.contains(l) <==> q1.labels.to_multiset().count(l) > 0);
            assert(q2.labels.contains(l) <==> q2.labels.to_multiset().count(l) > 0);
        }
        if query_matches(m, q1) {
            assert forall|i: int| 0 <= i < q2.labels.len() implies m.labels.contains(
                #[trigger] q2.labels[i],
            ) by {
                assert(q2.labels.contains(q2.labels[i]));
                assert(q1.labels.contains(q2.labels[i]));
                let j = choose|j: int| 0 <= j < q1.labels.len() && q1.labels[j] == q2.labels[i];
                assert(m.labels.contains(q1.labels[j]));
            }
        }
        if query_matches(m, q2) {
            assert forall|i: int| 0 <= i < q1.labels.len() implies m.labels.contains(
                #[trigger] q1.labels[i],
            ) by {
                assert(q1.labels.contains(q1.labels[i]));
                assert(q2.labels.contains(q1.labels[i]));
                let j = choose|j: int| 0 <= j < q2.labels.len() && q2.labels[j] == q1.labels[i];
                assert(m.labels.contains(q2.labels[j]));
            }
        }
    }
    assert(matching_set(records, q1) =~= matching_set(records, q2));
}

} // verus!
