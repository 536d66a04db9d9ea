//! The backend capability set: an ordered byte-keyed store with named index
//! families, point put/get, multi-get, prefix scan over postings, a
//! timestamp range scan, and atomic batched writes.
//!
//! The abstract state of a backend is a [`StoreModel`]: the committed
//! `primary -> payload` map, the committed postings per family, the declared
//! families, and the staged batch, if one is open. Every capability is
//! specified against this model; the index engine and the query executor
//! are verified against the capability set alone.

use vstd::prelude::*;

use crate::keys::{digits_val_bytes, is_digit_byte};
use crate::prelude::StorefulError;
use crate::util::views_of;

pub mod sled_store;

pub use sled_store::SledBackend;

verus! {

/// One staged write of an open batch.
pub enum PendingWrite {
    /// A `primary -> payload` write into the default family.
    Data { key: Seq<u8>, value: Seq<u8> },
    /// A posting `key -> primary` into an index family.
    Post { family: Seq<char>, key: Seq<u8>, primary: Seq<u8> },
}

/// The abstract state of a backend.
#[verifier::ext_equal]
pub struct StoreModel {
    /// The declared index families.
    pub families: Set<Seq<char>>,
    /// Committed contents of the default family: `primary -> payload`.
    pub data: Map<Seq<u8>, Seq<u8>>,
    /// Committed postings: `(family, key) -> primary`.
    pub posts: Map<(Seq<char>, Seq<u8>), Seq<u8>>,
    /// The staged batch, in write order, if one is open.
    pub pending: Option<Seq<PendingWrite>>,
}

/// A family name may not contain the path separator used to lay the
/// families out in one ordered keyspace.
pub open spec fn valid_family(f: Seq<char>) -> bool {
    forall|i: int| 0 <= i < f.len() ==> (#[trigger] f[i]) != '/'
}

/// The declared families of a backend: the well-formed names of the list.
pub open spec fn family_set_of(names: Seq<Seq<char>>) -> Set<Seq<char>> {
    Set::new(|f: Seq<char>| valid_family(f) && names.contains(f))
}

/// The empty default-family map.
pub open spec fn empty_data() -> Map<Seq<u8>, Seq<u8>> {
    Map::empty()
}

/// The empty postings map.
pub open spec fn empty_posts() -> Map<(Seq<char>, Seq<u8>), Seq<u8>> {
    Map::empty()
}

/// The name of the timestamp index family.
pub open spec fn ts_family() -> Seq<char> {
    seq!['t', 'i', 'm', 'e', 's', 't', 'a', 'm', 'p']
}

/// The effect of one write on the committed maps. A posting whose family
/// name is malformed is never written (ingestion rejects such families, so
/// no reachable batch stages one).
pub open spec fn apply_write(m: StoreModel, w: PendingWrite) -> StoreModel {
    match w {
        PendingWrite::Data { key, value } => StoreModel { data: m.data.insert(key, value), ..m },
        PendingWrite::Post { family, key, primary } => if valid_family(family) {
            StoreModel { posts: m.posts.insert((family, key), primary), ..m }
        } else {
            m
        },
    }
}

/// The `primary -> payload` writes of a staged batch, as a map (later
/// writes win).
pub open spec fn pending_data(ws: Seq<PendingWrite>) -> Map<Seq<u8>, Seq<u8>>
    decreases ws.len(),
{
    if ws.len() == 0 {
        Map::empty()
    } else {
        match ws.last() {
            PendingWrite::Data { key, value } => pending_data(ws.drop_last()).insert(key, value),
            PendingWrite::Post { .. } => pending_data(ws.drop_last()),
        }
    }
}

/// The postings of a staged batch, as a map (later writes win; malformed
/// families are dropped, as `apply_write` drops them).
pub open spec fn pending_posts(ws: Seq<PendingWrite>) -> Map<(Seq<char>, Seq<u8>), Seq<u8>>
    decreases ws.len(),
{
    if ws.len() == 0 {
        Map::empty()
    } else {
        match ws.last() {
            PendingWrite::Data { .. } => pending_posts(ws.drop_last()),
            PendingWrite::Post { family, key, primary } => if valid_family(family) {
                pending_posts(ws.drop_last()).insert((family, key), primary)
            } else {
                pending_posts(ws.drop_last())
            },
        }
    }
}

/// Applying a write sequence in order equals overlaying its two write maps
/// on the committed state.
pub proof fn lemma_apply_pending_union(m: StoreModel, ws: Seq<PendingWrite>)
    ensures
        apply_pending(m, ws) == (StoreModel {
            data: m.data.union_prefer_right(pending_data(ws)),
            posts: m.posts.union_prefer_right(pending_posts(ws)),
            ..m
        }),
    decreases ws.len(),
{
    if ws.len() == 0 {
        assert(m.data.union_prefer_right(pending_data(ws)) =~= m.data);
        assert(m.posts.union_prefer_right(pending_posts(ws)) =~= m.posts);
        assert(apply_pending(m, ws) =~= (StoreModel {
            data: m.data.union_prefer_right(pending_data(ws)),
            posts: m.posts.union_prefer_right(pending_posts(ws)),
            ..m
        }));
    } else {
        let dl = ws.drop_last();
        lemma_apply_pending_union(m, dl);
        match ws.last() {
            PendingWrite::Data { key, value } => {
                assert(m.data.union_prefer_right(pending_data(dl)).insert(key, value)
                    =~= m.data.union_prefer_right(pending_data(dl).insert(key, value)));
                assert(apply_pending(m, ws) =~= (StoreModel {
                    data: m.data.union_prefer_right(pending_data(ws)),
                    posts: m.posts.union_prefer_right(pending_posts(ws)),
                    ..m
                }));
            },
            PendingWrite::Post { family, key, primary } => {
                if valid_family(family) {
                    assert(m.posts.union_prefer_right(pending_posts(dl)).insert(
                        (family, key),
                        primary,
                    ) =~= m.posts.union_prefer_right(pending_posts(dl).insert((family, key), primary)));
                }
                assert(apply_pending(m, ws) =~= (StoreModel {
                    data: m.data.union_prefer_right(pending_data(ws)),
                    posts: m.posts.union_prefer_right(pending_posts(ws)),
                    ..m
                }));
            },
        }
    }
}

/// The effect of a write sequence, applied in order.
pub open spec fn apply_pending(m: StoreModel, ws: Seq<PendingWrite>) -> StoreModel
    decreases ws.len(),
{
    if ws.len() == 0 {
        m
    } else {
        apply_write(apply_pending(m, ws.drop_last()), ws.last())
    }
}

/// The state after committing the open batch.
pub open spec fn committed_after(m: StoreModel) -> StoreModel {
    match m.pending {
        Some(ws) => StoreModel { pending: None, ..apply_pending(m, ws) },
        None => m,
    }
}

/// The state a key-value map may be left in when a batch application
/// fails mid-way: every key the batch staged holds either its prior state
/// or the staged value, and every other key is untouched. The embedded
/// store guarantees all-or-nothing only across a crash and restart; an
/// in-process failure can leave part of a batch applied, and this is the
/// honest description of that outcome.
pub open spec fn partially_applied<K, V>(prior: Map<K, V>, now: Map<K, V>, staged: Map<K, V>) -> bool {
    &&& forall|k: K|
        #![trigger staged.dom().contains(k)]
        #![trigger now.dom().contains(k)]
        !staged.dom().contains(k) ==> now.dom().contains(k) == prior.dom().contains(k) && (
        prior.dom().contains(k) ==> now[k] == prior[k])
    &&& forall|k: K|
        #![trigger staged.dom().contains(k)]
        #![trigger now.dom().contains(k)]
        staged.dom().contains(k) ==> ((now.dom().contains(k) && now[k] == staged[k]) || (
        now.dom().contains(k) == prior.dom().contains(k) && (prior.dom().contains(k) ==> now[k]
            == prior[k])))
}

/// An untouched map satisfies the partial-application description.
pub proof fn lemma_partially_applied_unchanged<K, V>(prior: Map<K, V>, staged: Map<K, V>)
    ensures
        partially_applied(prior, prior, staged),
{
}

/// The effect of `put`: staged when a batch is open, immediate otherwise.
pub open spec fn put_effect(m: StoreModel, key: Seq<u8>, value: Seq<u8>) -> StoreModel {
    match m.pending {
        Some(ws) => StoreModel {
            pending: Some(ws.push(PendingWrite::Data { key, value })),
            ..m
        },
        None => StoreModel { data: m.data.insert(key, value), ..m },
    }
}

/// The effect of `create_index`: staged when a batch is open, immediate
/// otherwise.
pub open spec fn post_effect(m: StoreModel, family: Seq<char>, key: Seq<u8>, primary: Seq<u8>) -> StoreModel {
    match m.pending {
        Some(ws) => StoreModel {
            pending: Some(ws.push(PendingWrite::Post { family, key, primary })),
            ..m
        },
        None => StoreModel { posts: m.posts.insert((family, key), primary), ..m },
    }
}

/// The values returned by a batched point lookup: the value of each present
/// key, in input order; missing keys are silently omitted.
pub open spec fn multi_get(data: Map<Seq<u8>, Seq<u8>>, keys: Seq<Seq<u8>>) -> Seq<Seq<u8>>
    decreases keys.len(),
{
    if keys.len() == 0 {
        Seq::empty()
    } else {
        (if data.dom().contains(keys[0]) {
            seq![data[keys[0]]]
        } else {
            Seq::empty()
        }) + multi_get(data, keys.drop_first())
    }
}

/// The set of primaries posted under keys of `family` that start with
/// `prefix`.
pub open spec fn posting_values(
    posts: Map<(Seq<char>, Seq<u8>), Seq<u8>>,
    family: Seq<char>,
    prefix: Seq<u8>,
) -> Set<Seq<u8>> {
    Set::new(
        |v: Seq<u8>|
            exists|k: Seq<u8>|
                #![auto]
                posts.dom().contains((family, k)) && prefix.is_prefix_of(k) && posts[(family, k)]
                    == v,
    )
}

/// A timestamp-posting key carries 20 decimal digits at bytes 10..30,
/// immediately after the literal `timestamp|`.
pub open spec fn ts_key_ok(k: Seq<u8>) -> bool {
    k.len() >= 30 && forall|i: int| 10 <= i < 30 ==> is_digit_byte(#[trigger] k[i])
}

/// The timestamp field of a timestamp-posting key.
pub open spec fn ts_of_key(k: Seq<u8>) -> int {
    digits_val_bytes(k.subrange(10, 30))
}

/// A scanned timestamp key is usable when its field is well-formed and its
/// value fits a 64-bit timestamp.
pub open spec fn ts_key_parses(k: Seq<u8>) -> bool {
    ts_key_ok(k) && ts_of_key(k) <= i64::MAX
}

/// Inclusive range check; an absent bound does not constrain.
pub open spec fn ts_in_range(t: int, start: Option<i64>, end: Option<i64>) -> bool {
    (match start {
        Some(s) => t >= s,
        None => true,
    }) && (match end {
        Some(e) => t <= e,
        None => true,
    })
}

/// The set of primaries whose timestamp posting lies in `[start, end]`.
pub open spec fn ts_scan_values(
    posts: Map<(Seq<char>, Seq<u8>), Seq<u8>>,
    start: Option<i64>,
    end: Option<i64>,
) -> Set<Seq<u8>> {
    Set::new(
        |v: Seq<u8>|
            exists|k: Seq<u8>|
                #![auto]
                posts.dom().contains((ts_family(), k)) && ts_key_ok(k) && ts_in_range(
                    ts_of_key(k),
                    start,
                    end,
                ) && posts[(ts_family(), k)] == v,
    )
}

/// The backend capability set. Implementations relate every operation to
/// the abstract [`StoreModel`]. A failed point operation leaves no effect
/// behind. A successful commit applies the whole batch; a failed commit
/// drops the batch and may leave any per-key part of it applied
/// ([`partially_applied`]) — all-or-nothing is guaranteed only across a
/// restart of the embedded store.
pub trait BackendDatabase: Sized {
    /// The abstract state of this backend. Implementations define it; the
    /// default leaves it unconstrained.
    open spec fn model(&self) -> StoreModel {
        vstd::pervasive::arbitrary()
    }

    /// Begin an in-memory pending batch. With no batch open this is pure
    /// in-memory staging and must succeed; with one open it fails with
    /// `BatchAlreadyStarted` and changes nothing.
    fn start_batch(&mut self) -> (r: Result<(), StorefulError>)
        ensures
            match r {
                Ok(()) => old(self).model().pending is None && final(self).model() == (StoreModel {
                    pending: Some(Seq::empty()),
                    ..old(self).model()
                }),
                Err(e) => final(self).model() == old(self).model() && old(
                    self,
                ).model().pending is Some && e == StorefulError::BatchAlreadyStarted,
            },
    ;

    /// Apply the pending batch; fails with `BatchNotStarted` if none is
    /// open. On success the whole batch is applied. On any commit-path
    /// failure the batch is dropped and each staged key is left either
    /// untouched or holding its staged value; only an I/O disconnect may
    /// leave such a partial state — any other failure leaves the store
    /// unchanged.
    fn commit_batch(&mut self) -> (r: Result<(), StorefulError>)
        ensures
            match r {
                Ok(()) => old(self).model().pending is Some && final(self).model()
                    == committed_after(old(self).model()),
                Err(e) => {
                    &&& old(self).model().pending is None ==> (e == StorefulError::BatchNotStarted
                        && final(self).model() == old(self).model())
                    &&& old(self).model().pending is Some ==> ({
                        &&& final(self).model().pending is None
                        &&& final(self).model().families == old(self).model().families
                        &&& partially_applied(
                            old(self).model().data,
                            final(self).model().data,
                            pending_data(old(self).model().pending->0),
                        )
                        &&& partially_applied(
                            old(self).model().posts,
                            final(self).model().posts,
                            pending_posts(old(self).model().pending->0),
                        )
                        &&& e != StorefulError::BatchNotStarted
                        &&& e != StorefulError::BatchAlreadyStarted
                        &&& e != StorefulError::Validation
                        &&& (e is Disconnect || (final(self).model().data == old(
                            self,
                        ).model().data && final(self).model().posts == old(self).model().posts))
                    })
                },
            },
    ;

    /// Drop the pending batch, if any, without applying it.
    fn rollback_batch(&mut self)
        ensures
            final(self).model() == (StoreModel { pending: None, ..old(self).model() }),
    ;

    /// Write `key -> value` into the default family, through the pending
    /// batch if one is open. Staging into an open batch is in-memory and
    /// must succeed.
    fn put(&mut self, key: &[u8], value: &[u8]) -> (r: Result<(), StorefulError>)
        ensures
            old(self).model().pending is Some ==> r is Ok,
            match r {
                Ok(()) => final(self).model() == put_effect(old(self).model(), key@, value@),
                Err(e) => final(self).model() == old(self).model() && e != StorefulError::Validation
                    && e != StorefulError::BatchAlreadyStarted && e != StorefulError::BatchNotStarted,
            },
    ;

    /// Point lookup in the default family; reads committed state only.
    fn get(&self, key: &[u8]) -> (r: Result<Option<Vec<u8>>, StorefulError>)
        ensures
            match r {
                Ok(o) => match o {
                    Some(v) => self.model().data.dom().contains(key@) && v@ == self.model().data[key@],
                    None => !self.model().data.dom().contains(key@),
                },
                Err(_) => true,
            },
    ;

    /// Batched point lookup: the values of the present keys, in input
    /// order; missing keys are silently omitted.
    fn get_multi(&self, keys: &Vec<Vec<u8>>) -> (r: Result<Vec<Vec<u8>>, StorefulError>)
        ensures
            keys@.len() == 0 ==> r is Ok,
            match r {
                Ok(vals) => views_of(vals@) == multi_get(self.model().data, views_of(keys@)),
                Err(e) => e != StorefulError::Validation && e != StorefulError::Codec,
            },
    ;

    /// Write the posting `key -> primary` into index family `cf`, through
    /// the pending batch if one is open. An undeclared family is reported
    /// as `ColumnFamilyNotFound`.
    fn create_index(&mut self, cf: &str, primary: &[u8], key: &[u8]) -> (r: Result<
        (),
        StorefulError,
    >)
        ensures
            old(self).model().pending is Some && old(self).model().families.contains(cf@)
                ==> r is Ok,
            match r {
                Ok(()) => old(self).model().families.contains(cf@) && final(self).model()
                    == post_effect(old(self).model(), cf@, key@, primary@),
                Err(e) => {
                    &&& final(self).model() == old(self).model()
                    &&& (!old(self).model().families.contains(cf@) ==> (
                    e matches StorefulError::ColumnFamilyNotFound(n) && n@ == cf@))
                    &&& (old(self).model().families.contains(cf@)
                        ==> !(e is ColumnFamilyNotFound))
                    &&& e != StorefulError::Validation
                    &&& e != StorefulError::BatchAlreadyStarted
                    &&& e != StorefulError::BatchNotStarted
                },
            },
    ;

    /// The primaries posted in the timestamp family whose timestamp lies in
    /// the inclusive range; a malformed timestamp field in any scanned key
    /// fails the scan with `ParseInt`.
    fn query_timestamp_index(
        &self,
        timestamp_start: Option<i64>,
        timestamp_end: Option<i64>,
    ) -> (r: Result<Vec<Vec<u8>>, StorefulError>)
        ensures
            match r {
                Ok(vals) => {
                    &&& forall|k: Seq<u8>|
                        self.model().posts.dom().contains((ts_family(), k))
                            ==> #[trigger] ts_key_parses(k)
                    &&& views_of(vals@).to_set() == ts_scan_values(
                        self.model().posts,
                        timestamp_start,
                        timestamp_end,
                    )
                    &&& views_of(vals@).no_duplicates()
                },
                Err(e) => (e == StorefulError::ParseInt ==> exists|k: Seq<u8>|
                    self.model().posts.dom().contains((ts_family(), k)) && !ts_key_parses(k)) && e
                    != StorefulError::Validation && (self.model().families.contains(ts_family())
                    ==> !(e is ColumnFamilyNotFound)),
            },
    ;

    /// The set of primaries posted under keys of `cf` that start with
    /// `index_key`.
    fn query_index(&self, cf: &str, index_key: &[u8]) -> (r: Result<Vec<Vec<u8>>, StorefulError>)
        ensures
            match r {
                Ok(vals) => {
                    &&& self.model().families.contains(cf@)
                    &&& views_of(vals@).to_set() == posting_values(
                        self.model().posts,
                        cf@,
                        index_key@,
                    )
                    &&& views_of(vals@).no_duplicates()
                },
                Err(e) => (!self.model().families.contains(cf@) ==> (
                e matches StorefulError::ColumnFamilyNotFound(n) && n@ == cf@)) && e
                    != StorefulError::Validation && (self.model().families.contains(cf@)
                    ==> !(e is ColumnFamilyNotFound)),
            },
    ;
}

/// The engine's handle on a backend.
pub struct Storeful<B> where B: BackendDatabase + Send + Sync {
    pub backend: B,
}

impl<B> Storeful<B> where B: BackendDatabase + Send + Sync {
    /// Wrap a backend.
    pub fn new(backend: B) -> (r: Self)
        ensures
            r.backend.model() == backend.model(),
    {
        Self { backend }
    }
}

} // verus!
