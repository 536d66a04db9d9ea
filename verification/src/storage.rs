//! The metric engine: the typed facade that derives keys, maintains the
//! primary write and its secondary postings atomically, and answers
//! conjunctive queries by intersecting per-index candidate sets.
//!
//! The engine's ghost state is a catalog of the committed records, keyed by
//! primary key. Well-formedness ([`wf_metrics`]) ties the backend's
//! abstract state to the catalog: every payload decodes to its record,
//! every indexed dimension has its posting, and every posting points back
//! at a cataloged record. Ingestion preserves well-formedness; queries are
//! answered exactly on well-formed stores. A record's writes go through one
//! batch, so on success they become visible together; on a commit-path
//! failure the batch is dropped and the backend contract bounds what may
//! remain ([`crate::db::partially_applied`]).

use vstd::prelude::*;

use crate::db::{
    apply_pending, ts_family, ts_in_range, ts_scan_values, posting_values, BackendDatabase,
    PendingWrite, StoreModel, Storeful,
};
use crate::metric::{
    bounded_metric, check_metric, decode_metric, encode_metric, label_probe, metric_label_post,
    metric_name_post, metric_payload, metric_primary, metric_primary_key, metric_ts_post,
    name_probe, ts_probe, valid_metric, Metric, MetricModel,
};
use crate::models::LabelModel;
use crate::prelude::StorefulError;
use crate::query::{query_has_predicates, query_matches, valid_query, MetricQuery, MetricQueryModel};
use crate::util::{lemma_retain_sets, retain_in, views_of};

verus! {

/// The name-index family.
pub open spec fn fam_name() -> Seq<char> {
    seq!['n', 'a', 'm', 'e']
}

/// The label-index family.
pub open spec fn fam_labels() -> Seq<char> {
    seq!['l', 'a', 'b', 'e', 'l', 's']
}

/// The writes of one record: the primary payload, then one posting per
/// indexed dimension.
pub open spec fn metric_stage(m: MetricModel) -> Seq<PendingWrite> {
    seq![
        PendingWrite::Data { key: metric_primary(m), value: metric_payload(m) },
        PendingWrite::Post {
            family: ts_family(),
            key: metric_ts_post(m),
            primary: metric_primary(m),
        },
        PendingWrite::Post {
            family: fam_name(),
            key: metric_name_post(m),
            primary: metric_primary(m),
        },
    ] + m.labels.map_values(
        |l: LabelModel|
            PendingWrite::Post {
                family: fam_labels(),
                key: metric_label_post(l, m),
                primary: metric_primary(m),
            },
    )
}

/// The committed effect of one record.
pub open spec fn metric_commit(model: StoreModel, m: MetricModel) -> StoreModel {
    apply_pending(model, metric_stage(m))
}

/// The committed effect of a record sequence, in order.
pub open spec fn commit_all(model: StoreModel, ms: Seq<MetricModel>) -> StoreModel
    decreases ms.len(),
{
    if ms.len() == 0 {
        model
    } else {
        commit_all(metric_commit(model, ms[0]), ms.drop_first())
    }
}

/// The catalog after inserting a record sequence, in order.
pub open spec fn insert_all(
    records: Map<Seq<u8>, MetricModel>,
    ms: Seq<MetricModel>,
) -> Map<Seq<u8>, MetricModel>
    decreases ms.len(),
{
    if ms.len() == 0 {
        records
    } else {
        insert_all(records.insert(metric_primary(ms[0]), ms[0]), ms.drop_first())
    }
}

/// The three index families of the metric kind are declared.
pub open spec fn metric_families_declared(model: StoreModel) -> bool {
    &&& model.families.contains(fam_name())
    &&& model.families.contains(ts_family())
    &&& model.families.contains(fam_labels())
}

/// A cataloged record is fully indexed: its payload is stored under its
/// primary key and each indexed dimension has its posting, pointing back
/// at the primary.
pub open spec fn record_indexed(model: StoreModel, p: Seq<u8>, m: MetricModel) -> bool {
    &&& valid_metric(m)
    &&& bounded_metric(m)
    &&& p == metric_primary(m)
    &&& model.data.dom().contains(p)
    &&& model.data[p] == metric_payload(m)
    &&& model.posts.dom().contains((fam_name(), metric_name_post(m)))
    &&& model.posts[(fam_name(), metric_name_post(m))] == p
    &&& model.posts.dom().contains((ts_family(), metric_ts_post(m)))
    &&& model.posts[(ts_family(), metric_ts_post(m))] == p
    &&& forall|i: int|
        0 <= i < m.labels.len() ==> model.posts.dom().contains(
            (fam_labels(), metric_label_post(#[trigger] m.labels[i], m)),
        ) && model.posts[(fam_labels(), metric_label_post(m.labels[i], m))] == p
}

/// Every posting belongs to a cataloged record and is one of that record's
/// posting keys.
pub open spec fn posting_tracked(
    model: StoreModel,
    records: Map<Seq<u8>, MetricModel>,
    fk: (Seq<char>, Seq<u8>),
) -> bool {
    let p = model.posts[fk];
    &&& records.dom().contains(p)
    &&& (fk.0 == fam_name() ==> fk.1 == metric_name_post(records[p]))
    &&& (fk.0 == ts_family() ==> fk.1 == metric_ts_post(records[p]))
    &&& (fk.0 == fam_labels() ==> exists|i: int|
        0 <= i < records[p].labels.len() && fk.1 == metric_label_post(
            #[trigger] records[p].labels[i],
            records[p],
        ))
    &&& (fk.0 == fam_name() || fk.0 == ts_family() || fk.0 == fam_labels())
}

/// The store is well-formed with respect to the catalog.
pub open spec fn wf_metrics(model: StoreModel, records: Map<Seq<u8>, MetricModel>) -> bool {
    &&& metric_families_declared(model)
    &&& model.data.dom() == records.dom()
    &&& forall|p: Seq<u8>| #[trigger]
        records.dom().contains(p) ==> record_indexed(model, p, records[p])
    &&& forall|fk: (Seq<char>, Seq<u8>)| #[trigger]
        model.posts.dom().contains(fk) ==> posting_tracked(model, records, fk)
}

/// The metric engine over a backend.
pub struct Metrical<B> where B: BackendDatabase + Send + Sync {
    storeful: Storeful<B>,
    records: Ghost<Map<Seq<u8>, MetricModel>>,
}

impl<B> Metrical<B> where B: BackendDatabase + Send + Sync {
    /// The backend's abstract state.
    pub closed spec fn model(&self) -> StoreModel {
        self.storeful.backend.model()
    }

    /// The committed records, by primary key.
    pub closed spec fn records(&self) -> Map<Seq<u8>, MetricModel> {
        self.records@
    }

    /// The store is well-formed: all committed records are fully indexed
    /// and no posting is stale.
    pub open spec fn wf(&self) -> bool {
        wf_metrics(self.model(), self.records())
    }

    /// Adopt a backend. The catalog starts empty: a backend whose store is
    /// empty and declares the metric families is well-formed.
    pub fn new(storeful: Storeful<B>) -> (r: Self)
        ensures
            r.model() == storeful.backend.model(),
            r.records() == Map::<Seq<u8>, MetricModel>::empty(),
            (metric_families_declared(storeful.backend.model()) && storeful.backend.model().data
                == crate::db::empty_data() && storeful.backend.model().posts
                == crate::db::empty_posts()) ==> r.wf(),
    {
        let r = Metrical { storeful, records: Ghost(Map::empty()) };
        proof {
            if metric_families_declared(r.model()) && r.model().data == crate::db::empty_data()
                && r.model().posts == crate::db::empty_posts() {
                assert(r.model().data.dom() =~= r.records().dom());
            }
        }
        r
    }

    /// Stage the writes of one record into the open batch: the primary
    /// payload, then the timestamp, name and label postings.
    fn stage_writes(&mut self, metric: &Metric) -> (r: Result<(), StorefulError>)
        requires
            old(self).model().pending is Some,
            valid_metric(metric@),
        ensures
            final(self).records() == old(self).records(),
            final(self).model().data == old(self).model().data,
            final(self).model().posts == old(self).model().posts,
            final(self).model().families == old(self).model().families,
            bounded_metric(metric@),
            match r {
                Ok(()) => final(self).model().pending == Some(
                    old(self).model().pending->0 + metric_stage(metric@),
                ),
                Err(e) => final(self).model().pending is Some && e is ColumnFamilyNotFound,
            },
    {
        let ghost base = self.model().pending->0;
        let primary = metric_primary_key(metric);
        let payload = encode_metric(metric);
        match self.storeful.backend.put(primary.as_slice(), payload.as_slice()) {
            Ok(()) => {},
            Err(e) => {
                return Err(e);
            },
        }
        let mut ts_key = ts_probe(metric.timestamp);
        ts_key.extend_from_slice(primary.as_slice());
        proof {
            assert(ts_key@ =~= metric_ts_post(metric@));
        }
        match self.storeful.backend.create_index("timestamp", primary.as_slice(), ts_key.as_slice()) {
            Ok(()) => {},
            Err(e) => {
                return Err(e);
            },
        }
        proof {
            reveal_strlit("timestamp");
            assert("timestamp"@ =~= ts_family());
        }
        let mut name_key = name_probe(metric.name.as_str());
        name_key.extend_from_slice(primary.as_slice());
        proof {
            assert(name_key@ =~= metric_name_post(metric@));
        }
        match self.storeful.backend.create_index("name", primary.as_slice(), name_key.as_slice()) {
            Ok(()) => {},
            Err(e) => {
                return Err(e);
            },
        }
        proof {
            reveal_strlit("name");
            assert("name"@ =~= fam_name());
            let s3 = metric_stage(metric@).subrange(0, 3);
            assert(self.model().pending->0 =~= base + s3);
        }
        let ghost head = base + metric_stage(metric@).subrange(0, 3);
        let mut i: usize = 0;
        while i < metric.labels.0.len()
            invariant
                0 <= i <= metric.labels.0@.len(),
                metric@.labels.len() == metric.labels.0@.len(),
                valid_metric(metric@),
                self.records@ == old(self).records@,
                self.model().data == old(self).model().data,
                self.model().posts == old(self).model().posts,
                self.model().families == old(self).model().families,
                self.model().pending == Some(
                    head + label_writes(metric@).subrange(0, i as int),
                ),
                head == base + metric_stage(metric@).subrange(0, 3),
                primary@ == metric_primary(metric@),
                bounded_metric(metric@),
            decreases metric.labels.0@.len() - i,
        {
            let cv = &metric.labels.0[i];
            let mut lab_key = label_probe(cv);
            lab_key.extend_from_slice(primary.as_slice());
            proof {
                assert(lab_key@ =~= metric_label_post(metric@.labels[i as int], metric@));
            }
            match self.storeful.backend.create_index("labels", primary.as_slice(), lab_key.as_slice()) {
                Ok(()) => {},
                Err(e) => {
                    return Err(e);
                },
            }
            proof {
                reveal_strlit("labels");
                assert("labels"@ =~= fam_labels());
                assert(label_writes(metric@).subrange(0, i as int + 1) =~= label_writes(
                    metric@,
                ).subrange(0, i as int).push(label_writes(metric@)[i as int]));
                assert(self.model().pending->0 =~= head + label_writes(metric@).subrange(
                    0,
                    i as int + 1,
                ));
            }
            i = i + 1;
        }
        proof {
            assert(label_writes(metric@).subrange(0, metric@.labels.len() as int) =~= label_writes(
                metric@,
            ));
            assert(metric_stage(metric@).subrange(0, 3) + label_writes(metric@) =~= metric_stage(
                metric@,
            ));
            assert(self.model().pending->0 =~= base + metric_stage(metric@));
        }
        Ok(())
    }

    /// Ingest one record: validate it, then write its payload and its
    /// postings in one batch when none is open, staged into the open batch
    /// otherwise. On failure nothing is staged for later; only an I/O
    /// disconnect during commit can leave the record's own keys partially
    /// written, as the backend contract allows — every other failure leaves
    /// the store unchanged.
    pub fn post(&mut self, metric: Metric) -> (r: Result<(), StorefulError>)
        ensures
            !valid_metric(metric@) ==> r == Err::<(), StorefulError>(StorefulError::Validation)
                && final(self).model() == old(self).model() && final(self).records() == old(
                self,
            ).records(),
            valid_metric(metric@) && old(self).model().pending is None ==> match r {
                Ok(()) => {
                    &&& final(self).model() == metric_commit(old(self).model(), metric@)
                    &&& final(self).records() == old(self).records().insert(
                        metric_primary(metric@),
                        metric@,
                    )
                    &&& (old(self).wf() ==> final(self).wf())
                },
                Err(_) => {
                    &&& final(self).model().pending is None
                    &&& final(self).model().families == old(self).model().families
                    &&& crate::db::partially_applied(
                        old(self).model().data,
                        final(self).model().data,
                        crate::db::pending_data(metric_stage(metric@)),
                    )
                    &&& crate::db::partially_applied(
                        old(self).model().posts,
                        final(self).model().posts,
                        crate::db::pending_posts(metric_stage(metric@)),
                    )
                    &&& final(self).records() == old(self).records()
                },
            },
            valid_metric(metric@) && old(self).model().pending is Some ==> match r {
                Ok(()) => {
                    &&& final(self).model() == (StoreModel {
                        pending: Some(old(self).model().pending->0 + metric_stage(metric@)),
                        ..old(self).model()
                    })
                    &&& final(self).records() == old(self).records()
                },
                Err(_) => {
                    &&& final(self).model().data == old(self).model().data
                    &&& final(self).model().posts == old(self).model().posts
                    &&& final(self).model().families == old(self).model().families
                    &&& final(self).model().pending is Some
                    &&& final(self).records() == old(self).records()
                },
            },
            valid_metric(metric@) ==> (r matches Err(e) ==> e != StorefulError::Validation && e
                != StorefulError::BatchAlreadyStarted && e != StorefulError::BatchNotStarted),
            valid_metric(metric@) && old(self).model().pending is None ==> (r matches Err(e) ==> (
            e is Disconnect || (final(self).model().data == old(self).model().data
                && final(self).model().posts == old(self).model().posts))),
    {
        if !check_metric(&metric) {
            return Err(StorefulError::Validation);
        }
        match self.storeful.backend.start_batch() {
            Ok(()) => {
                match self.stage_writes(&metric) {
                    Ok(()) => {},
                    Err(e) => {
                        self.storeful.backend.rollback_batch();
                        proof {
                            assert(self.model() =~= old(self).model());
                            crate::db::lemma_partially_applied_unchanged(
                                old(self).model().data,
                                crate::db::pending_data(metric_stage(metric@)),
                            );
                            crate::db::lemma_partially_applied_unchanged(
                                old(self).model().posts,
                                crate::db::pending_posts(metric_stage(metric@)),
                            );
                        }
                        return Err(e);
                    },
                }
                match self.storeful.backend.commit_batch() {
                    Ok(()) => {
                        proof {
                            let om = old(self).model();
                            let staged = Seq::<PendingWrite>::empty() + metric_stage(metric@);
                            assert(staged =~= metric_stage(metric@));
                            crate::db::lemma_apply_pending_union(
                                (StoreModel { pending: Some(staged), ..om }),
                                staged,
                            );
                            crate::db::lemma_apply_pending_union(om, metric_stage(metric@));
                            assert(self.model() =~= metric_commit(om, metric@));
                        }
                        let ghost p = metric_primary(metric@);
                        proof {
                            if old(self).wf() {
                                lemma_wf_commit(old(self).model(), old(self).records(), metric@);
                            }
                        }
                        self.records = Ghost(self.records@.insert(p, metric@));
                        Ok(())
                    },
                    Err(e) => {
                        proof {
                            let staged = Seq::<PendingWrite>::empty() + metric_stage(metric@);
                            assert(staged =~= metric_stage(metric@));
                            assert(self.model().pending is None);
                        }
                        Err(e)
                    },
                }
            },
            Err(e) => {
                if matches!(e, StorefulError::BatchAlreadyStarted) {
                    match self.stage_writes(&metric) {
                        Ok(()) => {
                            proof {
                                assert(self.model() =~= (StoreModel {
                                    pending: Some(
                                        old(self).model().pending->0 + metric_stage(metric@),
                                    ),
                                    ..old(self).model()
                                }));
                            }
                            Ok(())
                        },
                        Err(e2) => Err(e2),
                    }
                } else {
                    proof {
                        crate::db::lemma_partially_applied_unchanged(
                            old(self).model().data,
                            crate::db::pending_data(metric_stage(metric@)),
                        );
                        crate::db::lemma_partially_applied_unchanged(
                            old(self).model().posts,
                            crate::db::pending_posts(metric_stage(metric@)),
                        );
                    }
                    Err(e)
                }
            },
        }
    }

    /// Ingest several records in one batch: all become visible together on
    /// success. A failure before commit leaves nothing behind; only an I/O
    /// disconnect during commit can leave single staged keys written, as
    /// the backend contract allows — any other failure leaves the store
    /// unchanged, and across a restart the embedded store recovers the
    /// batch all-or-nothing.
    #[verifier::rlimit(100)]
    pub fn post_multi(&mut self, input: Vec<Metric>) -> (r: Result<(), StorefulError>)
        ensures
            old(self).model().pending is Some ==> r == Err::<(), StorefulError>(
                StorefulError::BatchAlreadyStarted,
            ) && final(self).model() == old(self).model() && final(self).records() == old(
                self,
            ).records(),
            old(self).model().pending is None ==> match r {
                Ok(()) => {
                    &&& forall|i: int| 0 <= i < input@.len() ==> valid_metric(#[trigger] input@[i]@)
                    &&& final(self).model() == commit_all(
                        old(self).model(),
                        input@.map_values(|met: Metric| met@),
                    )
                    &&& final(self).records() == insert_all(
                        old(self).records(),
                        input@.map_values(|met: Metric| met@),
                    )
                    &&& (old(self).wf() ==> final(self).wf())
                },
                Err(_) => {
                    &&& final(self).model().pending is None
                    &&& final(self).model().families == old(self).model().families
                    &&& crate::db::partially_applied(
                        old(self).model().data,
                        final(self).model().data,
                        crate::db::pending_data(stages_of(input@.map_values(|met: Metric| met@))),
                    )
                    &&& crate::db::partially_applied(
                        old(self).model().posts,
                        final(self).model().posts,
                        crate::db::pending_posts(stages_of(input@.map_values(|met: Metric| met@))),
                    )
                    &&& final(self).records() == old(self).records()
                },
            },
            old(self).model().pending is None ==> (r matches Err(e) ==> {
                &&& e != StorefulError::BatchAlreadyStarted
                &&& e != StorefulError::BatchNotStarted
                &&& ((forall|i: int| 0 <= i < input@.len() ==> valid_metric(#[trigger] input@[i]@))
                    ==> e != StorefulError::Validation)
                &&& (e is Disconnect || (final(self).model().data == old(self).model().data
                    && final(self).model().posts == old(self).model().posts))
            }),
    {
        let ghost ms: Seq<MetricModel> = input@.map_values(|met: Metric| met@);
        match self.storeful.backend.start_batch() {
            Ok(()) => {},
            Err(e) => {
                proof {
                    crate::db::lemma_partially_applied_unchanged(
                        old(self).model().data,
                        crate::db::pending_data(stages_of(ms)),
                    );
                    crate::db::lemma_partially_applied_unchanged(
                        old(self).model().posts,
                        crate::db::pending_posts(stages_of(ms)),
                    );
                }
                return Err(e);
            },
        }
        let mut i: usize = 0;
        proof {
            assert(Seq::<PendingWrite>::empty() + stages_of(ms.subrange(0, 0)) =~= Seq::<
                PendingWrite,
            >::empty());
            assert(self.model().pending == Some(stages_of(ms.subrange(0, 0))));
        }
        while i < input.len()
            invariant
                0 <= i <= input@.len(),
                ms == input@.map_values(|met: Metric| met@),
                ms.len() == input@.len(),
                self.records@ == old(self).records@,
                self.model().data == old(self).model().data,
                self.model().posts == old(self).model().posts,
                self.model().families == old(self).model().families,
                self.model().pending == Some(stages_of(ms.subrange(0, i as int))),
                old(self).model().pending is None,
                forall|j: int| 0 <= j < i ==> valid_metric(#[trigger] ms[j]) && bounded_metric(ms[j]),
            decreases input@.len() - i,
        {
            let metric = &input[i];
            if !check_metric(metric) {
                self.storeful.backend.rollback_batch();
                proof {
                    assert(self.model() =~= (StoreModel { pending: None, ..old(self).model() }));
                    crate::db::lemma_partially_applied_unchanged(
                        old(self).model().data,
                        crate::db::pending_data(stages_of(ms)),
                    );
                    crate::db::lemma_partially_applied_unchanged(
                        old(self).model().posts,
                        crate::db::pending_posts(stages_of(ms)),
                    );
                    assert(input@[i as int]@ == ms[i as int]);
                    assert(!valid_metric(input@[i as int]@));
                }
                return Err(StorefulError::Validation);
            }
            let ghost pre = stages_of(ms.subrange(0, i as int));
            match self.stage_writes(metric) {
                Ok(()) => {},
                Err(e) => {
                    self.storeful.backend.rollback_batch();
                    proof {
                        assert(self.model() =~= (StoreModel {
                            pending: None,
                            ..old(self).model()
                        }));
                        crate::db::lemma_partially_applied_unchanged(
                            old(self).model().data,
                            crate::db::pending_data(stages_of(ms)),
                        );
                        crate::db::lemma_partially_applied_unchanged(
                            old(self).model().posts,
                            crate::db::pending_posts(stages_of(ms)),
                        );
                    }
                    return Err(e);
                },
            }
            proof {
                assert(bounded_metric(ms[i as int]));
                assert(ms.subrange(0, i as int + 1) =~= ms.subrange(0, i as int).push(
                    ms[i as int],
                ));
                lemma_stages_of_snoc(ms.subrange(0, i as int), ms[i as int]);
                assert(self.model().pending == Some(stages_of(ms.subrange(0, i as int + 1))));
            }
            i = i + 1;
        }
        proof {
            assert(ms.subrange(0, ms.len() as int) =~= ms);
            assert forall|j: int| 0 <= j < input@.len() implies valid_metric(
                #[trigger] input@[j]@,
            ) by {
                assert(ms[j] == input@[j]@);
            }
        }
        match self.storeful.backend.commit_batch() {
            Ok(()) => {
                proof {
                    let om = old(self).model();
                    let mid = (StoreModel { pending: Some(stages_of(ms)), ..om });
                    crate::db::lemma_apply_pending_union(mid, stages_of(ms));
                    crate::db::lemma_apply_pending_union(om, stages_of(ms));
                    lemma_apply_stages(om, ms);
                    assert(self.model() =~= commit_all(om, ms));
                    assert(commit_all(om, ms).pending == om.pending) by {
                        lemma_commit_all_pending(om, ms);
                    }
                    if old(self).wf() {
                        lemma_wf_commit_all(old(self).model(), old(self).records(), ms);
                    }
                }
                self.records = Ghost(insert_all(self.records@, ms));
                Ok(())
            },
            Err(e) => {
                proof {
                    assert(self.model().pending is None);
                }
                Err(e)
            },
        }
    }

    /// Fetch and decode the payloads of the given primaries: the value of
    /// every present key, in order, each decoded. Keys absent from the
    /// store are silently skipped, as the multi-get contract says; a
    /// present payload that fails binary decode aborts the call with a
    /// `Codec` error and no partial result. On a well-formed store every
    /// committed primary's payload decodes back to its record.
    #[verifier::rlimit(100)]
    pub fn get_metrics(&self, primaries: &Vec<Vec<u8>>) -> (r: Result<Vec<Metric>, StorefulError>)
        ensures
            primaries@.len() == 0 ==> r is Ok,
            r matches Err(e) ==> e != StorefulError::Validation,
            r matches Ok(v) ==> ({
                let fetched = crate::db::multi_get(self.model().data, views_of(primaries@));
                v@.len() == fetched.len() && forall|i: int|
                    0 <= i < v@.len() ==> crate::metric::dec_metric(#[trigger] fetched[i]) == Some(
                        v@[i]@,
                    )
            }),
            (exists|i: int|
                0 <= i < crate::db::multi_get(self.model().data, views_of(primaries@)).len()
                    && crate::metric::dec_metric(
                    #[trigger] crate::db::multi_get(self.model().data, views_of(primaries@))[i],
                ) is None) ==> r is Err,
            r == Err::<Vec<Metric>, StorefulError>(StorefulError::Codec) ==> (exists|i: int|
                0 <= i < crate::db::multi_get(self.model().data, views_of(primaries@)).len()
                    && crate::metric::dec_metric(
                    #[trigger] crate::db::multi_get(self.model().data, views_of(primaries@))[i],
                ) is None),
            (self.wf() && forall|i: int|
                0 <= i < primaries@.len() ==> self.records().dom().contains(
                    #[trigger] views_of(primaries@)[i],
                )) ==> match r {
                Ok(v) => v@.len() == primaries@.len() && forall|i: int|
                    0 <= i < v@.len() ==> (#[trigger] v@[i]@) == self.records()[views_of(
                        primaries@,
                    )[i]],
                Err(_) => true,
            },
    {
        let ghost keys = views_of(primaries@);
        let ghost fetched = crate::db::multi_get(self.model().data, keys);
        let ghost wf_and_present = self.wf() && forall|i: int|
            0 <= i < primaries@.len() ==> self.records().dom().contains(
                #[trigger] views_of(primaries@)[i],
            );
        let vals = match self.storeful.backend.get_multi(primaries) {
            Ok(v) => v,
            Err(e) => {
                return Err(e);
            },
        };
        proof {
            assert(views_of(vals@) == fetched);
            if primaries@.len() == 0 {
                assert(keys.len() == 0);
                assert(crate::db::multi_get(self.model().data, keys).len() == 0);
                assert(vals@.len() == 0);
            }
            if wf_and_present {
                lemma_multi_get_present(self.model().data, keys);
            }
        }
        let mut out: Vec<Metric> = Vec::new();
        let mut i: usize = 0;
        while i < vals.len()
            invariant
                0 <= i <= vals@.len(),
                out@.len() == i,
                primaries@.len() == 0 ==> vals@.len() == 0,
                views_of(vals@) == fetched,
                fetched == crate::db::multi_get(self.model().data, keys),
                keys == views_of(primaries@),
                forall|j: int|
                    0 <= j < i ==> crate::metric::dec_metric(#[trigger] fetched[j]) == Some(
                        out@[j]@,
                    ),
            decreases vals@.len() - i,
        {
            let met = match decode_metric(&vals[i]) {
                Ok(met) => met,
                Err(_) => {
                    proof {
                        assert(views_of(vals@)[i as int] == vals@[i as int]@);
                        assert(crate::metric::dec_metric(fetched[i as int]) is None);
                    }
                    return Err(StorefulError::Codec);
                },
            };
            proof {
                assert(views_of(vals@)[i as int] == vals@[i as int]@);
                assert(crate::metric::dec_metric(fetched[i as int]) == Some(met@));
            }
            out.push(met);
            i = i + 1;
        }
        proof {
            if wf_and_present {
                assert forall|j: int| 0 <= j < out@.len() implies (#[trigger] out@[j]@)
                    == self.records()[keys[j]] by {
                    let m = self.records()[keys[j]];
                    assert(record_indexed(self.model(), keys[j], m));
                    assert(fetched[j] == self.model().data[keys[j]]);
                    crate::metric::lemma_metric_codec_round_trip(m);
                }
            }
        }
        Ok(out)
    }

    /// Answer a conjunctive query: probe each present predicate's index,
    /// intersect the candidate primaries, and fetch the survivors. A query
    /// with no predicate returns the empty vector; reserved characters in
    /// the query are rejected. Once the query text is accepted, any failure
    /// is the backend's or the codec's, passed through unchanged — never
    /// `Validation`.
    #[verifier::rlimit(100)]
    pub fn query(&mut self, query: MetricQuery) -> (r: Result<Vec<Metric>, StorefulError>)
        ensures
            final(self).model() == old(self).model(),
            final(self).records() == old(self).records(),
            !query_has_predicates(query@) ==> (r matches Ok(v) && v@.len() == 0),
            query_has_predicates(query@) && !valid_query(query@) ==> r == Err::<
                Vec<Metric>,
                StorefulError,
            >(StorefulError::Validation),
            query_has_predicates(query@) && valid_query(query@) ==> (r matches Err(e) ==> e
                != StorefulError::Validation),
            (old(self).wf() && query_has_predicates(query@) && valid_query(query@)) ==> match r {
                Ok(v) => query_answers(
                    v@.map_values(|met: Metric| met@),
                    old(self).records(),
                    query@,
                ),
                Err(_) => true,
            },
    {
        if query.is_unconstrained() {
            return Ok(Vec::new());
        }
        if !query.check() {
            return Err(StorefulError::Validation);
        }
        let ghost records = self.records@;
        let ghost wf_now = self.wf();
        let ghost q = query@;
        let mut acc: Vec<Vec<u8>> = Vec::new();
        let mut initialized = false;
        let ghost mut cover: Set<Seq<u8>> = Set::empty();
        // the name predicate
        let name_present = query.name.is_some();
        if let Some(n) = &query.name {
            let probe = name_probe(n.as_str());
            let cands = match self.storeful.backend.query_index("name", probe.as_slice()) {
                Ok(c) => c,
                Err(e) => {
                    return Err(e);
                },
            };
            proof {
                reveal_strlit("name");
                assert("name"@ =~= fam_name());
                if wf_now {
                    lemma_name_candidates(self.model(), records, n@);
                    cover = views_of(cands@).to_set();
                }
            }
            acc = cands;
            initialized = true;
        }
        // the timestamp range predicate
        let ts_present = query.timestamp_start.is_some() || query.timestamp_end.is_some();
        if ts_present {
            let cands = match self.storeful.backend.query_timestamp_index(
                query.timestamp_start,
                query.timestamp_end,
            ) {
                Ok(c) => c,
                Err(e) => {
                    return Err(e);
                },
            };
            proof {
                if wf_now {
                    lemma_ts_candidates(self.model(), records, q.timestamp_start, q.timestamp_end);
                }
            }
            if initialized {
                let ghost pre = views_of(acc@);
                retain_in(&mut acc, &cands);
                proof {
                    if wf_now {
                        lemma_retain_sets(pre, views_of(cands@));
                        cover = cover.intersect(views_of(cands@).to_set());
                    }
                }
            } else {
                acc = cands;
                initialized = true;
                proof {
                    if wf_now {
                        cover = views_of(acc@).to_set();
                    }
                }
            }
        }
        proof {
            if wf_now {
                assert(views_of(acc@).to_set() == cover);
                assert(initialized ==> views_of(acc@).no_duplicates());
                assert forall|p: Seq<u8>| initialized implies (cover.contains(p) <==> (
                records.dom().contains(p) && (name_present ==> q.name is Some && records[p].name
                    == q.name->0) && (ts_present ==> ts_in_range(
                    records[p].timestamp as int,
                    q.timestamp_start,
                    q.timestamp_end,
                )))) by {}
            }
        }
        // the label predicates
        let empty_ctx = crate::models::Context(Vec::new());
        let ctx = match &query.context {
            Some(c) => c,
            None => &empty_ctx,
        };
        proof {
            assert(ctx@ =~= q.labels);
        }
        let mut li: usize = 0;
        while li < ctx.0.len()
            invariant
                0 <= li <= ctx.0@.len(),
                q == query@,
                query_has_predicates(q),
                ctx@ == q.labels,
                ctx@.len() == ctx.0@.len(),
                valid_query(q),
                wf_now == wf_metrics(self.model(), records),
                records == self.records@,
                self.model() == old(self).model(),
                self.records@ == old(self).records@,
                initialized == (name_present || ts_present || li > 0),
                wf_now ==> views_of(acc@).to_set() == cover,
                wf_now && initialized ==> views_of(acc@).no_duplicates(),
                wf_now && initialized ==> forall|p: Seq<u8>|
                    cover.contains(p) <==> (records.dom().contains(p) && (name_present
                        ==> q.name is Some && records[p].name == q.name->0) && (ts_present
                        ==> ts_in_range(
                        records[p].timestamp as int,
                        q.timestamp_start,
                        q.timestamp_end,
                    )) && (forall|j: int|
                        0 <= j < li ==> records[p].labels.contains(#[trigger] q.labels[j]))),
            decreases ctx.0@.len() - li,
        {
            let cv = &ctx.0[li];
            let probe = label_probe(cv);
            let cands = match self.storeful.backend.query_index("labels", probe.as_slice()) {
                Ok(c) => c,
                Err(e) => {
                    return Err(e);
                },
            };
            proof {
                reveal_strlit("labels");
                assert("labels"@ =~= fam_labels());
                if wf_now {
                    assert(crate::models::valid_label(q.labels[li as int]));
                    lemma_label_candidates(self.model(), records, q.labels[li as int]);
                    assert(cv@ == q.labels[li as int]);
                }
            }
            if initialized {
                let ghost pre = views_of(acc@);
                retain_in(&mut acc, &cands);
                proof {
                    if wf_now {
                        lemma_retain_sets(pre, views_of(cands@));
                        cover = cover.intersect(views_of(cands@).to_set());
                    }
                }
            } else {
                acc = cands;
                initialized = true;
                proof {
                    if wf_now {
                        cover = views_of(acc@).to_set();
                    }
                }
            }
            proof {
                if wf_now {
                    assert forall|p: Seq<u8>| cover.contains(p) implies (records.dom().contains(p)
                        && (name_present ==> q.name is Some && records[p].name == q.name->0) && (
                    ts_present ==> ts_in_range(
                        records[p].timestamp as int,
                        q.timestamp_start,
                        q.timestamp_end,
                    )) && (forall|j: int|
                        0 <= j < li + 1 ==> records[p].labels.contains(#[trigger] q.labels[j]))) by {
                        assert(records[p].labels.contains(q.labels[li as int]));
                    }
                    assert forall|p: Seq<u8>| (records.dom().contains(p) && (name_present
                        ==> q.name is Some && records[p].name == q.name->0) && (ts_present
                        ==> ts_in_range(
                        records[p].timestamp as int,
                        q.timestamp_start,
                        q.timestamp_end,
                    )) && (forall|j: int|
                        0 <= j < li + 1 ==> records[p].labels.contains(
                            #[trigger] q.labels[j],
                        ))) implies cover.contains(p) by {
                        assert(records[p].labels.contains(q.labels[li as int]));
                    }
                }
            }
            li = li + 1;
        }
        proof {
            assert(initialized) by {
                if !(name_present || ts_present) {
                    assert(q.labels.len() > 0);
                }
            }
            if wf_now {
                assert forall|p: Seq<u8>| cover.contains(p) <==> matching_set(
                    records,
                    q,
                ).contains(p) by {
                    if records.dom().contains(p) {
                        assert(query_matches(records[p], q) <==> ((name_present
                            ==> q.name is Some && records[p].name == q.name->0) && (ts_present
                            ==> ts_in_range(
                            records[p].timestamp as int,
                            q.timestamp_start,
                            q.timestamp_end,
                        )) && (forall|j: int|
                            0 <= j < q.labels.len() ==> records[p].labels.contains(
                                #[trigger] q.labels[j],
                            )))) by {
                            if !name_present {
                                assert(q.name is None);
                            }
                            if !ts_present {
                                assert(q.timestamp_start is None && q.timestamp_end is None);
                            }
                        }
                    }
                }
                assert(cover =~= matching_set(records, q));
                assert forall|i: int|
                    0 <= i < views_of(acc@).len() implies records.dom().contains(
                    #[trigger] views_of(acc@)[i],
                ) by {
                    assert(views_of(acc@).to_set().contains(views_of(acc@)[i]));
                }
            }
        }
        let fetched = match self.get_metrics(&acc) {
            Ok(v) => v,
            Err(e) => {
                return Err(e);
            },
        };
        proof {
            if wf_now {
                let out = fetched@.map_values(|met: Metric| met@);
                let keys = views_of(acc@);
                assert forall|i: int|
                    0 <= i < out.len() implies records.dom().contains(metric_primary(
                    #[trigger] out[i],
                )) && records[metric_primary(out[i])] == out[i] && query_matches(out[i], q) by {
                    assert(out[i] == fetched@[i]@);
                    assert(fetched@[i]@ == records[keys[i]]);
                    assert(keys.to_set().contains(keys[i]));
                    assert(matching_set(records, q).contains(keys[i]));
                    assert(record_indexed(self.model(), keys[i], records[keys[i]]));
                }
                assert forall|p: Seq<u8>|
                    records.dom().contains(p) && query_matches(#[trigger] records[p], q) implies exists|i: int|
                    0 <= i < out.len() && out[i] == records[p] by {
                    assert(matching_set(records, q).contains(p));
                    assert(keys.to_set().contains(p));
                    let i = choose|i: int| 0 <= i < keys.len() && keys[i] == p;
                    assert(out[i] == records[p]);
                }
                assert forall|i: int, j: int| 0 <= i < j < out.len() implies out[i] != out[j] by {
                    assert(keys[i] != keys[j]);
                    assert(out[i] == records[keys[i]] && out[j] == records[keys[j]]);
                    if out[i] == out[j] {
                        assert(record_indexed(self.model(), keys[i], records[keys[i]]));
                        assert(record_indexed(self.model(), keys[j], records[keys[j]]));
                        assert(keys[i] == metric_primary(records[keys[i]]));
                        assert(keys[j] == metric_primary(records[keys[j]]));
                    }
                }
                assert(query_answers(out, records, q));
            }
        }
        Ok(fetched)
    }
}

/// Committing records does not touch the staged batch.
pub proof fn lemma_commit_all_pending(model: StoreModel, ms: Seq<MetricModel>)
    ensures
        commit_all(model, ms).pending == model.pending,
        commit_all(model, ms).families == model.families,
    decreases ms.len(),
{
    if ms.len() > 0 {
        lemma_commit_effect(model, ms[0]);
        lemma_commit_all_pending(metric_commit(model, ms[0]), ms.drop_first());
    }
}


/// The primaries of the committed records that satisfy every present
/// predicate of a query.
pub open spec fn matching_set(
    records: Map<Seq<u8>, MetricModel>,
    q: MetricQueryModel,
) -> Set<Seq<u8>> {
    Set::new(|p: Seq<u8>| records.dom().contains(p) && query_matches(records[p], q))
}

/// The answer to a query: every returned record is committed and matches,
/// every committed matching record is returned, and no record is returned
/// twice.
pub open spec fn query_answers(
    out: Seq<MetricModel>,
    records: Map<Seq<u8>, MetricModel>,
    q: MetricQueryModel,
) -> bool {
    &&& forall|i: int|
        0 <= i < out.len() ==> records.dom().contains(metric_primary(#[trigger] out[i]))
            && records[metric_primary(out[i])] == out[i] && query_matches(out[i], q)
    &&& forall|p: Seq<u8>|
        records.dom().contains(p) && query_matches(#[trigger] records[p], q) ==> exists|i: int|
            0 <= i < out.len() && out[i] == records[p]
    &&& forall|i: int, j: int| 0 <= i < j < out.len() ==> out[i] != out[j]
}

/// On a well-formed store, the name probe's candidates are exactly the
/// committed records carrying that name.
pub proof fn lemma_name_candidates(model: StoreModel, records: Map<Seq<u8>, MetricModel>, n: Seq<char>)
    requires
        wf_metrics(model, records),
        crate::models::valid_name(n),
    ensures
        posting_values(
            model.posts,
            fam_name(),
            vstd::utf8::encode_utf8(crate::metric::name_prefix_chars(n)),
        ) == Set::new(|p: Seq<u8>| records.dom().contains(p) && records[p].name == n),
{
    let prefix = vstd::utf8::encode_utf8(crate::metric::name_prefix_chars(n));
    let lhs = posting_values(model.posts, fam_name(), prefix);
    let rhs = Set::new(|p: Seq<u8>| records.dom().contains(p) && records[p].name == n);
    assert forall|v: Seq<u8>| lhs.contains(v) implies rhs.contains(v) by {
        let k = choose|k: Seq<u8>|
            #![auto]
            model.posts.dom().contains((fam_name(), k)) && prefix.is_prefix_of(k) && model.posts[(
                fam_name(),
                k,
            )] == v;
        assert(posting_tracked(model, records, (fam_name(), k)));
        let m = records[v];
        assert(record_indexed(model, v, m));
        crate::metric::lemma_name_probe(n, m);
    }
    assert forall|v: Seq<u8>| rhs.contains(v) implies lhs.contains(v) by {
        let m = records[v];
        assert(record_indexed(model, v, m));
        crate::metric::lemma_name_probe(n, m);
        assert(model.posts.dom().contains((fam_name(), metric_name_post(m))) && prefix.is_prefix_of(
            metric_name_post(m),
        ) && model.posts[(fam_name(), metric_name_post(m))] == v);
    }
    assert(lhs =~= rhs);
}

/// On a well-formed store, a label probe's candidates are exactly the
/// committed records carrying that label.
pub proof fn lemma_label_candidates(
    model: StoreModel,
    records: Map<Seq<u8>, MetricModel>,
    l: LabelModel,
)
    requires
        wf_metrics(model, records),
        crate::models::valid_label(l),
    ensures
        posting_values(
            model.posts,
            fam_labels(),
            vstd::utf8::encode_utf8(crate::metric::label_prefix_chars(l)),
        ) == Set::new(|p: Seq<u8>| records.dom().contains(p) && records[p].labels.contains(l)),
{
    let prefix = vstd::utf8::encode_utf8(crate::metric::label_prefix_chars(l));
    let lhs = posting_values(model.posts, fam_labels(), prefix);
    let rhs = Set::new(|p: Seq<u8>| records.dom().contains(p) && records[p].labels.contains(l));
    assert forall|v: Seq<u8>| lhs.contains(v) implies rhs.contains(v) by {
        let k = choose|k: Seq<u8>|
            #![auto]
            model.posts.dom().contains((fam_labels(), k)) && prefix.is_prefix_of(k) && model.posts[(
                fam_labels(),
                k,
            )] == v;
        assert(posting_tracked(model, records, (fam_labels(), k)));
        let m = records[v];
        assert(record_indexed(model, v, m));
        let i = choose|i: int|
            0 <= i < m.labels.len() && k == metric_label_post(#[trigger] m.labels[i], m);
        assert(crate::models::valid_label(m.labels[i]));
        crate::metric::lemma_label_probe(l, m.labels[i], m);
        assert(m.labels[i] == l);
        assert(m.labels.contains(l));
    }
    assert forall|v: Seq<u8>| rhs.contains(v) implies lhs.contains(v) by {
        let m = records[v];
        assert(record_indexed(model, v, m));
        let i = choose|i: int| 0 <= i < m.labels.len() && m.labels[i] == l;
        assert(model.posts.dom().contains((fam_labels(), metric_label_post(m.labels[i], m)))
            && model.posts[(fam_labels(), metric_label_post(m.labels[i], m))] == v);
        assert(crate::models::valid_label(m.labels[i]));
        crate::metric::lemma_label_probe(l, m.labels[i], m);
        assert(prefix.is_prefix_of(metric_label_post(m.labels[i], m)));
    }
    assert(lhs =~= rhs);
}

/// On a well-formed store, every timestamp posting parses, and the range
/// scan's candidates are exactly the committed records in range.
pub proof fn lemma_ts_candidates(
    model: StoreModel,
    records: Map<Seq<u8>, MetricModel>,
    start: Option<i64>,
    end: Option<i64>,
)
    requires
        wf_metrics(model, records),
    ensures
        ts_scan_values(model.posts, start, end) == Set::new(
            |p: Seq<u8>|
                records.dom().contains(p) && ts_in_range(
                    records[p].timestamp as int,
                    start,
                    end,
                ),
        ),
{
    let lhs = ts_scan_values(model.posts, start, end);
    let rhs = Set::new(
        |p: Seq<u8>|
            records.dom().contains(p) && ts_in_range(records[p].timestamp as int, start, end),
    );
    assert forall|v: Seq<u8>| lhs.contains(v) implies rhs.contains(v) by {
        let k = choose|k: Seq<u8>|
            #![auto]
            model.posts.dom().contains((ts_family(), k)) && crate::db::ts_key_ok(k) && ts_in_range(
                crate::db::ts_of_key(k),
                start,
                end,
            ) && model.posts[(ts_family(), k)] == v;
        assert(posting_tracked(model, records, (ts_family(), k)));
        let m = records[v];
        assert(record_indexed(model, v, m));
        crate::metric::lemma_ts_post_parses(m);
        assert(crate::db::ts_of_key(k) == m.timestamp);
    }
    assert forall|v: Seq<u8>| rhs.contains(v) implies lhs.contains(v) by {
        let m = records[v];
        assert(record_indexed(model, v, m));
        crate::metric::lemma_ts_post_parses(m);
        assert(model.posts.dom().contains((ts_family(), metric_ts_post(m))) && crate::db::ts_key_ok(
            metric_ts_post(m),
        ) && ts_in_range(crate::db::ts_of_key(metric_ts_post(m)), start, end) && model.posts[(
            ts_family(),
            metric_ts_post(m),
        )] == v);
    }
    assert(lhs =~= rhs);
}


/// A batched lookup of present keys returns every value, in order.
proof fn lemma_multi_get_present(data: Map<Seq<u8>, Seq<u8>>, keys: Seq<Seq<u8>>)
    requires
        forall|i: int| 0 <= i < keys.len() ==> data.dom().contains(#[trigger] keys[i]),
    ensures
        crate::db::multi_get(data, keys).len() == keys.len(),
        forall|i: int|
            0 <= i < keys.len() ==> #[trigger] crate::db::multi_get(data, keys)[i] == data[keys[i]],
    decreases keys.len(),
{
    if keys.len() > 0 {
        assert(forall|i: int|
            0 <= i < keys.drop_first().len() ==> data.dom().contains(
                #[trigger] keys.drop_first()[i],
            ));
        lemma_multi_get_present(data, keys.drop_first());
        assert(crate::db::multi_get(data, keys) == seq![data[keys[0]]] + crate::db::multi_get(
            data,
            keys.drop_first(),
        ));
        assert forall|i: int| 0 <= i < keys.len() implies #[trigger] crate::db::multi_get(
            data,
            keys,
        )[i] == data[keys[i]] by {
            if i > 0 {
                assert(crate::db::multi_get(data, keys)[i] == crate::db::multi_get(
                    data,
                    keys.drop_first(),
                )[i - 1]);
                assert(keys.drop_first()[i - 1] == keys[i]);
            }
        }
    }
}

/// The label postings of one record, as staged writes.
pub open spec fn label_writes(m: MetricModel) -> Seq<PendingWrite> {
    m.labels.map_values(
        |l: LabelModel|
            PendingWrite::Post {
                family: fam_labels(),
                key: metric_label_post(l, m),
                primary: metric_primary(m),
            },
    )
}

/// Whether `fk` is one of the posting keys the stage of `m` writes.
pub open spec fn new_post_key(fk: (Seq<char>, Seq<u8>), m: MetricModel) -> bool {
    ||| fk == (fam_name(), metric_name_post(m))
    ||| fk == (ts_family(), metric_ts_post(m))
    ||| exists|i: int|
        0 <= i < m.labels.len() && fk == (fam_labels(), metric_label_post(
            #[trigger] m.labels[i],
            m,
        ))
}

/// The index families of the metric kind are well-formed names.
pub proof fn lemma_families_valid()
    ensures
        crate::db::valid_family(fam_name()),
        crate::db::valid_family(ts_family()),
        crate::db::valid_family(fam_labels()),
{
}

/// The data writes staged for one record: exactly the primary payload.
proof fn lemma_stage_maps(m: MetricModel)
    ensures
        crate::db::pending_data(metric_stage(m)) == crate::db::empty_data().insert(
            metric_primary(m),
            metric_payload(m),
        ),
        forall|fk: (Seq<char>, Seq<u8>)| #[trigger]
            crate::db::pending_posts(metric_stage(m)).dom().contains(fk) <==> new_post_key(fk, m),
        forall|fk: (Seq<char>, Seq<u8>)|
            new_post_key(fk, m) ==> #[trigger] crate::db::pending_posts(metric_stage(m))[fk]
                == metric_primary(m),
{
    lemma_families_valid();
    let head = metric_stage(m).subrange(0, 3);
    lemma_label_writes_maps(m, m.labels.len() as int);
    assert(metric_stage(m) =~= head + label_writes(m).subrange(0, m.labels.len() as int));
    lemma_stage_maps_concat(m, head);
    let whole = head + label_writes(m).subrange(0, m.labels.len() as int);
    assert forall|fk: (Seq<char>, Seq<u8>)| new_post_key(fk, m) implies #[trigger] crate::db::pending_posts(
        metric_stage(m),
    )[fk] == metric_primary(m) by {
        assert(crate::db::pending_posts(whole).dom().contains(fk));
        assert(crate::db::pending_posts(whole)[fk] == metric_primary(m));
    }
}

/// Folding the first three writes of a stage.
proof fn lemma_stage_head(m: MetricModel)
    ensures
        crate::db::pending_data(metric_stage(m).subrange(0, 3)) == crate::db::empty_data().insert(
            metric_primary(m),
            metric_payload(m),
        ),
        crate::db::pending_posts(metric_stage(m).subrange(0, 3)) =~= crate::db::empty_posts().insert(
            (ts_family(), metric_ts_post(m)),
            metric_primary(m),
        ).insert((fam_name(), metric_name_post(m)), metric_primary(m)),
{
    lemma_families_valid();
    reveal_with_fuel(crate::db::pending_data, 5);
    reveal_with_fuel(crate::db::pending_posts, 5);
    let s = metric_stage(m).subrange(0, 3);
    let s2 = metric_stage(m).subrange(0, 2);
    let s1 = metric_stage(m).subrange(0, 1);
    let s0 = Seq::<PendingWrite>::empty();
    assert(s.len() == 3);
    assert(s.drop_last() =~= s2);
    assert(s2.drop_last() =~= s1);
    assert(s1.drop_last() =~= s0);
    assert(s.last() == (PendingWrite::Post {
        family: fam_name(),
        key: metric_name_post(m),
        primary: metric_primary(m),
    }));
    assert(s2.last() == (PendingWrite::Post {
        family: ts_family(),
        key: metric_ts_post(m),
        primary: metric_primary(m),
    }));
    assert(s1.last() == (PendingWrite::Data {
        key: metric_primary(m),
        value: metric_payload(m),
    }));
    assert(crate::db::pending_posts(s) == crate::db::pending_posts(s2).insert(
        (fam_name(), metric_name_post(m)),
        metric_primary(m),
    ));
    assert(crate::db::pending_posts(s2) == crate::db::pending_posts(s1).insert(
        (ts_family(), metric_ts_post(m)),
        metric_primary(m),
    ));
    assert(crate::db::pending_posts(s1) == crate::db::pending_posts(s0));
    assert(crate::db::pending_posts(s0) == crate::db::empty_posts());
    assert(crate::db::pending_data(s) == crate::db::pending_data(s2));
    assert(crate::db::pending_data(s2) == crate::db::pending_data(s1));
    assert(crate::db::pending_data(s1) == crate::db::pending_data(s0).insert(
        metric_primary(m),
        metric_payload(m),
    ));
    assert(crate::db::pending_data(s0) == crate::db::empty_data());
}

/// Folding the label writes onto the head.
proof fn lemma_label_writes_maps(m: MetricModel, k: int)
    requires
        0 <= k <= m.labels.len(),
    ensures
        crate::db::pending_data(
            metric_stage(m).subrange(0, 3) + label_writes(m).subrange(0, k),
        ) == crate::db::empty_data().insert(metric_primary(m), metric_payload(m)),
        forall|fk: (Seq<char>, Seq<u8>)| #[trigger]
            crate::db::pending_posts(
                metric_stage(m).subrange(0, 3) + label_writes(m).subrange(0, k),
            ).dom().contains(fk) <==> (fk == (fam_name(), metric_name_post(m)) || fk == (
            ts_family(),
            metric_ts_post(m),
        ) || exists|i: int|
            0 <= i < k && fk == (fam_labels(), metric_label_post(#[trigger] m.labels[i], m))),
        forall|fk: (Seq<char>, Seq<u8>)| #[trigger]
            crate::db::pending_posts(
                metric_stage(m).subrange(0, 3) + label_writes(m).subrange(0, k),
            ).dom().contains(fk) ==> crate::db::pending_posts(
            metric_stage(m).subrange(0, 3) + label_writes(m).subrange(0, k),
        )[fk] == metric_primary(m),
    decreases k,
{
    lemma_families_valid();
    if k == 0 {
        assert(metric_stage(m).subrange(0, 3) + label_writes(m).subrange(0, 0) =~= metric_stage(
            m,
        ).subrange(0, 3));
        lemma_stage_head(m);
    } else {
        lemma_label_writes_maps(m, k - 1);
        let pre = metric_stage(m).subrange(0, 3) + label_writes(m).subrange(0, k - 1);
        let cur = metric_stage(m).subrange(0, 3) + label_writes(m).subrange(0, k);
        let newkey = (fam_labels(), metric_label_post(m.labels[k - 1], m));
        assert(cur.drop_last() =~= pre);
        assert(cur.last() == label_writes(m)[k - 1]);
        assert(label_writes(m)[k - 1] == (PendingWrite::Post {
            family: fam_labels(),
            key: metric_label_post(m.labels[k - 1], m),
            primary: metric_primary(m),
        }));
        assert(crate::db::pending_posts(cur) == crate::db::pending_posts(pre).insert(
            newkey,
            metric_primary(m),
        ));
        assert(crate::db::pending_data(cur) == crate::db::pending_data(pre));
        assert forall|fk: (Seq<char>, Seq<u8>)| #[trigger]
            crate::db::pending_posts(cur).dom().contains(fk) implies (fk == (
            fam_name(),
            metric_name_post(m),
        ) || fk == (ts_family(), metric_ts_post(m)) || exists|i: int|
            0 <= i < k && fk == (fam_labels(), metric_label_post(#[trigger] m.labels[i], m))) by {
            if fk == newkey {
                assert(0 <= k - 1 < k && fk == (fam_labels(), metric_label_post(
                    m.labels[k - 1],
                    m,
                )));
            } else {
                assert(crate::db::pending_posts(pre).dom().contains(fk));
                if !(fk == ((fam_name(), metric_name_post(m))) || fk == ((
                ts_family(),
                metric_ts_post(m),
                ))) {
                    let i = choose|i: int|
                        0 <= i < k - 1 && fk == (fam_labels(), metric_label_post(
                            #[trigger] m.labels[i],
                            m,
                        ));
                    assert(0 <= i < k && fk == (fam_labels(), metric_label_post(m.labels[i], m)));
                }
            }
        }
        assert forall|fk: (Seq<char>, Seq<u8>)|
            (fk == (fam_name(), metric_name_post(m)) || fk == (ts_family(), metric_ts_post(m))
                || exists|i: int|
                0 <= i < k && fk == (fam_labels(), metric_label_post(#[trigger] m.labels[i], m)))
            implies #[trigger] crate::db::pending_posts(cur).dom().contains(fk) by {
            if fk == ((fam_name(), metric_name_post(m))) || fk == ((
            ts_family(),
            metric_ts_post(m),
            )) {
                assert(crate::db::pending_posts(pre).dom().contains(fk));
            } else {
                let i = choose|i: int|
                    0 <= i < k && fk == (fam_labels(), metric_label_post(
                        #[trigger] m.labels[i],
                        m,
                    ));
                if i < k - 1 {
                    assert(crate::db::pending_posts(pre).dom().contains(fk));
                } else {
                    assert(fk == newkey);
                }
            }
        }
        assert forall|fk: (Seq<char>, Seq<u8>)| #[trigger]
            crate::db::pending_posts(cur).dom().contains(fk) implies crate::db::pending_posts(
            cur,
        )[fk] == metric_primary(m) by {
            if fk != newkey {
                assert(crate::db::pending_posts(pre).dom().contains(fk));
            }
        }
    }
}

/// Concatenating the label writes after an arbitrary head.
proof fn lemma_stage_maps_concat(m: MetricModel, head: Seq<PendingWrite>)
    requires
        head == metric_stage(m).subrange(0, 3),
    ensures
        crate::db::pending_data(metric_stage(m)) == crate::db::pending_data(
            head + label_writes(m).subrange(0, m.labels.len() as int),
        ),
        crate::db::pending_posts(metric_stage(m)) == crate::db::pending_posts(
            head + label_writes(m).subrange(0, m.labels.len() as int),
        ),
{
    assert(metric_stage(m) =~= head + label_writes(m).subrange(0, m.labels.len() as int));
}

/// The committed effect of one record, field by field.
pub proof fn lemma_commit_effect(model: StoreModel, m: MetricModel)
    ensures
        metric_commit(model, m).families == model.families,
        metric_commit(model, m).pending == model.pending,
        metric_commit(model, m).data == model.data.insert(metric_primary(m), metric_payload(m)),
        forall|fk: (Seq<char>, Seq<u8>)| #[trigger]
            metric_commit(model, m).posts.dom().contains(fk) <==> (model.posts.dom().contains(fk)
                || new_post_key(fk, m)),
        forall|fk: (Seq<char>, Seq<u8>)|
            new_post_key(fk, m) ==> #[trigger] metric_commit(model, m).posts[fk]
                == metric_primary(m),
        forall|fk: (Seq<char>, Seq<u8>)|
            model.posts.dom().contains(fk) && !new_post_key(fk, m) ==> #[trigger] metric_commit(
                model,
                m,
            ).posts[fk] == model.posts[fk],
{
    crate::db::lemma_apply_pending_union(model, metric_stage(m));
    lemma_stage_maps(m);
    let pd = crate::db::pending_data(metric_stage(m));
    let pp = crate::db::pending_posts(metric_stage(m));
    assert(metric_commit(model, m).data =~= model.data.insert(
        metric_primary(m),
        metric_payload(m),
    ));
    assert forall|fk: (Seq<char>, Seq<u8>)| #[trigger]
        metric_commit(model, m).posts.dom().contains(fk) implies (model.posts.dom().contains(fk)
            || new_post_key(fk, m)) by {
        if pp.dom().contains(fk) {
        }
    }
}

/// Committing one valid record preserves well-formedness, with the record
/// entered into the catalog under its primary key.
#[verifier::rlimit(100)]
pub proof fn lemma_wf_commit(model: StoreModel, records: Map<Seq<u8>, MetricModel>, m: MetricModel)
    requires
        wf_metrics(model, records),
        valid_metric(m),
        bounded_metric(m),
    ensures
        wf_metrics(metric_commit(model, m), records.insert(metric_primary(m), m)),
{
    lemma_commit_effect(model, m);
    let after = metric_commit(model, m);
    let recs = records.insert(metric_primary(m), m);
    let np = metric_primary(m);
    assert(after.data.dom() =~= recs.dom());
    // every cataloged record stays fully indexed
    assert forall|p: Seq<u8>| #[trigger] recs.dom().contains(p) implies record_indexed(
        after,
        p,
        recs[p],
    ) by {
        if p == np {
            assert(new_post_key((fam_name(), metric_name_post(m)), m));
            assert(new_post_key((ts_family(), metric_ts_post(m)), m));
            assert(after.data[p] == metric_payload(m));
            assert forall|i: int| 0 <= i < m.labels.len() implies after.posts.dom().contains(
                (fam_labels(), metric_label_post(#[trigger] m.labels[i], m)),
            ) && after.posts[(fam_labels(), metric_label_post(m.labels[i], m))] == p by {
                assert(new_post_key((fam_labels(), metric_label_post(m.labels[i], m)), m));
            }
        } else {
            let m2 = records[p];
            assert(record_indexed(model, p, m2));
            assert(after.data[p] == model.data[p]);
            // the new postings cannot shadow this record's postings
            assert(!new_post_key((fam_name(), metric_name_post(m2)), m)) by {
                if metric_name_post(m2) == metric_name_post(m) {
                    crate::metric::lemma_name_post_determines(m2, m);
                }
            }
            assert(!new_post_key((ts_family(), metric_ts_post(m2)), m)) by {
                if metric_ts_post(m2) == metric_ts_post(m) {
                    crate::metric::lemma_ts_post_determines(m2, m);
                }
            }
            assert forall|i: int| 0 <= i < m2.labels.len() implies after.posts.dom().contains(
                (fam_labels(), metric_label_post(#[trigger] m2.labels[i], m2)),
            ) && after.posts[(fam_labels(), metric_label_post(m2.labels[i], m2))] == p by {
                assert(crate::models::valid_label(m2.labels[i]));
                assert(!new_post_key((fam_labels(), metric_label_post(m2.labels[i], m2)), m)) by {
                    if exists|j: int|
                        0 <= j < m.labels.len() && metric_label_post(m2.labels[i], m2)
                            == metric_label_post(#[trigger] m.labels[j], m) {
                        let j = choose|j: int|
                            0 <= j < m.labels.len() && metric_label_post(m2.labels[i], m2)
                                == metric_label_post(#[trigger] m.labels[j], m);
                        assert(crate::models::valid_label(m.labels[j]));
                        crate::metric::lemma_label_post_determines(
                            m2.labels[i],
                            m2,
                            m.labels[j],
                            m,
                        );
                    }
                }
                assert(model.posts.dom().contains(
                    (fam_labels(), metric_label_post(m2.labels[i], m2)),
                ));
            }
        }
    }
    // every posting still points at a cataloged record's own key
    assert forall|fk: (Seq<char>, Seq<u8>)| #[trigger] after.posts.dom().contains(fk) implies posting_tracked(
        after,
        recs,
        fk,
    ) by {
        if new_post_key(fk, m) {
            assert(after.posts[fk] == np);
            assert(recs[np] == m);
            if fk.0 == fam_labels() {
                let i = choose|i: int|
                    0 <= i < m.labels.len() && fk == (fam_labels(), metric_label_post(
                        #[trigger] m.labels[i],
                        m,
                    ));
                assert(fk.1 == metric_label_post(recs[np].labels[i], recs[np]));
            }
            assert(fam_name() != ts_family() && fam_name() != fam_labels() && ts_family()
                != fam_labels()) by {
                assert(fam_name().len() == 4 && ts_family().len() == 9 && fam_labels().len() == 6);
            }
        } else {
            assert(model.posts.dom().contains(fk));
            assert(posting_tracked(model, records, fk));
            let p0 = model.posts[fk];
            assert(after.posts[fk] == p0);
            let m2 = records[p0];
            if p0 == np {
                // the record at this primary was replaced by one with the
                // same indexed dimensions
                assert(record_indexed(model, p0, m2));
                crate::metric::lemma_primary_identifies_dimensions(m2, m);
                assert(metric_name_post(m2) == metric_name_post(m));
                assert(metric_ts_post(m2) == metric_ts_post(m));
                if fk.0 == fam_labels() {
                    let i = choose|i: int|
                        0 <= i < m2.labels.len() && fk.1 == metric_label_post(
                            #[trigger] m2.labels[i],
                            m2,
                        );
                    assert(metric_label_post(m2.labels[i], m2) == metric_label_post(
                        m.labels[i],
                        m,
                    ));
                    assert(fk.1 == metric_label_post(recs[p0].labels[i], recs[p0]));
                }
            } else {
                assert(recs[p0] == m2);
            }
        }
    }
}

/// Committing a valid record sequence preserves well-formedness.
pub proof fn lemma_wf_commit_all(
    model: StoreModel,
    records: Map<Seq<u8>, MetricModel>,
    ms: Seq<MetricModel>,
)
    requires
        wf_metrics(model, records),
        forall|i: int| 0 <= i < ms.len() ==> valid_metric(#[trigger] ms[i]) && bounded_metric(ms[i]),
    ensures
        wf_metrics(commit_all(model, ms), insert_all(records, ms)),
    decreases ms.len(),
{
    if ms.len() > 0 {
        lemma_wf_commit(model, records, ms[0]);
        assert(forall|i: int|
            0 <= i < ms.drop_first().len() ==> valid_metric(#[trigger] ms.drop_first()[i])
                && bounded_metric(ms.drop_first()[i]));
        lemma_wf_commit_all(
            metric_commit(model, ms[0]),
            records.insert(metric_primary(ms[0]), ms[0]),
            ms.drop_first(),
        );
    }
}

/// Applying staged writes in two parts equals applying them in sequence.
pub proof fn lemma_apply_pending_concat(model: StoreModel, s1: Seq<PendingWrite>, s2: Seq<PendingWrite>)
    ensures
        apply_pending(model, s1 + s2) == apply_pending(apply_pending(model, s1), s2),
    decreases s2.len(),
{
    if s2.len() == 0 {
        assert(s1 + s2 =~= s1);
    } else {
        assert((s1 + s2).drop_last() =~= s1 + s2.drop_last());
        assert((s1 + s2).last() == s2.last());
        lemma_apply_pending_concat(model, s1, s2.drop_last());
    }
}

/// The staged writes of a record sequence.
pub open spec fn stages_of(ms: Seq<MetricModel>) -> Seq<PendingWrite>
    decreases ms.len(),
{
    if ms.len() == 0 {
        Seq::empty()
    } else {
        metric_stage(ms[0]) + stages_of(ms.drop_first())
    }
}

/// Appending a record extends the staged writes at the right.
pub proof fn lemma_stages_of_snoc(ms: Seq<MetricModel>, m: MetricModel)
    ensures
        stages_of(ms.push(m)) == stages_of(ms) + metric_stage(m),
    decreases ms.len(),
{
    if ms.len() == 0 {
        assert(ms.push(m)[0] == m);
        assert(ms.push(m).drop_first() =~= Seq::<MetricModel>::empty());
        assert(stages_of(Seq::<MetricModel>::empty()) =~= Seq::<PendingWrite>::empty());
        assert(stages_of(ms.push(m)) == metric_stage(m) + stages_of(ms.push(m).drop_first()));
        assert(stages_of(ms.push(m)) =~= metric_stage(m));
        assert(stages_of(ms) =~= Seq::<PendingWrite>::empty());
        assert(stages_of(ms) + metric_stage(m) =~= metric_stage(m));
    } else {
        assert(ms.push(m)[0] == ms[0]);
        assert(ms.push(m).drop_first() =~= ms.drop_first().push(m));
        lemma_stages_of_snoc(ms.drop_first(), m);
        assert(stages_of(ms.push(m)) =~= stages_of(ms) + metric_stage(m));
    }
}

/// Applying the staged writes of a record sequence is committing the
/// records in order.
pub proof fn lemma_apply_stages(model: StoreModel, ms: Seq<MetricModel>)
    ensures
        apply_pending(model, stages_of(ms)) == commit_all(model, ms),
    decreases ms.len(),
{
    if ms.len() == 0 {
        assert(apply_pending(model, stages_of(ms)) == model);
    } else {
        lemma_apply_pending_concat(model, metric_stage(ms[0]), stages_of(ms.drop_first()));
        assert(metric_stage(ms[0]) + stages_of(ms.drop_first()) =~= stages_of(ms));
        lemma_apply_stages(metric_commit(model, ms[0]), ms.drop_first());
    }
}

} // verus!
