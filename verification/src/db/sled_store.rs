//! The embedded backend: a log-structured store, held behind trusted
//! wrappers around the `sled` crate.
//!
//! All families share one ordered keyspace. A write into the default
//! family stores its key under the tag `d/`; a posting of family `f` is
//! stored under `i/f/` followed by the posting key. Family names may not
//! contain `/`, so the tagged keyspaces cannot collide, and one `sled`
//! batch carries the writes of every family. `sled` applies a batch
//! atomically with respect to crash recovery; a mid-batch in-process
//! failure, however, can leave the earlier keys of the batch applied, and
//! the batch-apply wrapper's contract states exactly that.
//!
//! The abstract contents of the store are named by the uninterpreted
//! functions [`db_data`] and [`db_posts`]; every wrapper's contract speaks
//! of them.

use vstd::prelude::*;

use sled::{Batch, Db};

use crate::db::{
    family_set_of, pending_data, pending_posts, lemma_apply_pending_union, multi_get,
    posting_values, ts_scan_values, ts_family, ts_key_ok, ts_key_parses, ts_of_key, ts_in_range,
    apply_pending, valid_family, BackendDatabase, PendingWrite,
    StoreModel,
};
use crate::keys::{digits_val_bytes, is_digit_byte, pow10};
use crate::prelude::StorefulError;
use crate::text::str_eq;
use crate::util::{contains_bytes, views_of};

verus! {

#[verifier::external_type_specification]
#[verifier::external_body]
pub struct ExSledDb(sled::Db);

#[verifier::external_type_specification]
#[verifier::external_body]
pub struct ExSledBatch(sled::Batch);

#[verifier::external_type_specification]
#[verifier::external_body]
pub struct ExPathBuf(std::path::PathBuf);

/// The committed contents of the default family: `key -> value`.
pub uninterp spec fn db_data(db: Db) -> Map<Seq<u8>, Seq<u8>>;

/// The committed postings: `(family, key) -> primary`.
pub uninterp spec fn db_posts(db: Db) -> Map<(Seq<char>, Seq<u8>), Seq<u8>>;

/// The default-family writes staged in a `sled` batch.
pub uninterp spec fn batch_data(b: Batch) -> Map<Seq<u8>, Seq<u8>>;

/// The postings staged in a `sled` batch.
pub uninterp spec fn batch_posts(b: Batch) -> Map<(Seq<char>, Seq<u8>), Seq<u8>>;

/// Relies on `sled::Config::open`: opens (or creates) the database rooted
/// at `path`. Nothing is assumed about the contents found on disk; the
/// body maps every failure to `Open`.
#[verifier::external_body]
fn sled_open(path: &std::path::PathBuf) -> (r: Result<Db, StorefulError>)
    ensures
        r matches Err(e) ==> e is Open,
{
    sled::Config::new().path(path).open().map_err(|e| StorefulError::Open(format!("{}", e)))
}

/// Relies on `sled::Tree::insert` (via the default keyspace): sets the
/// tagged key to `value`; other entries are untouched, and a failed insert
/// precedes any in-memory change. The body maps every failure to
/// `Disconnect`.
#[verifier::external_body]
fn sled_put_data(db: &mut Db, key: &[u8], value: &[u8]) -> (r: Result<(), StorefulError>)
    ensures
        r is Ok ==> db_data(*final(db)) == db_data(*old(db)).insert(key@, value@) && db_posts(
            *final(db),
        ) == db_posts(*old(db)),
        r matches Err(e) ==> *final(db) == *old(db) && e is Disconnect,
{
    let mut k = Vec::with_capacity(key.len() + 2);
    k.extend_from_slice(b"d/");
    k.extend_from_slice(key);
    match db.insert(k, value) {
        Ok(_) => Ok(()),
        Err(e) => Err(StorefulError::Disconnect(format!("{}", e))),
    }
}

/// Relies on `sled::Tree::insert`: writes the posting `key -> primary`
/// under the family's tag; other entries are untouched.
#[verifier::external_body]
fn sled_put_post(db: &mut Db, family: &str, key: &[u8], primary: &[u8]) -> (r: Result<
    (),
    StorefulError,
>)
    requires
        valid_family(family@),
    ensures
        r is Ok ==> db_posts(*final(db)) == db_posts(*old(db)).insert((family@, key@), primary@)
            && db_data(*final(db)) == db_data(*old(db)),
        r matches Err(e) ==> *final(db) == *old(db) && e is Disconnect,
{
    let mut k = Vec::with_capacity(key.len() + family.len() + 3);
    k.extend_from_slice(b"i/");
    k.extend_from_slice(family.as_bytes());
    k.extend_from_slice(b"/");
    k.extend_from_slice(key);
    match db.insert(k, primary) {
        Ok(_) => Ok(()),
        Err(e) => Err(StorefulError::Disconnect(format!("{}", e))),
    }
}

/// Relies on `sled::Tree::get`: the value stored under the tagged key, if
/// any. The body maps every failure to `Disconnect`.
#[verifier::external_body]
fn sled_get(db: &Db, key: &[u8]) -> (r: Result<Option<Vec<u8>>, StorefulError>)
    ensures
        match r {
            Ok(o) => match o {
                Some(v) => db_data(*db).dom().contains(key@) && v@ == db_data(*db)[key@],
                None => !db_data(*db).dom().contains(key@),
            },
            Err(e) => e is Disconnect,
        },
{
    let mut k = Vec::with_capacity(key.len() + 2);
    k.extend_from_slice(b"d/");
    k.extend_from_slice(key);
    match db.get(k) {
        Ok(o) => Ok(o.map(|v| v.to_vec())),
        Err(e) => Err(StorefulError::Disconnect(format!("{}", e))),
    }
}

/// Relies on `sled::Batch::default`: a fresh batch stages nothing.
#[verifier::external_body]
fn batch_new() -> (r: Batch)
    ensures
        batch_data(r) == crate::db::empty_data(),
        batch_posts(r) == crate::db::empty_posts(),
{
    Batch::default()
}

/// Relies on `sled::Batch::insert`: stages the tagged default-family
/// write; a later write to the same key wins.
#[verifier::external_body]
fn batch_put_data(b: &mut Batch, key: &[u8], value: &[u8])
    ensures
        batch_data(*final(b)) == batch_data(*old(b)).insert(key@, value@),
        batch_posts(*final(b)) == batch_posts(*old(b)),
{
    let mut k = Vec::with_capacity(key.len() + 2);
    k.extend_from_slice(b"d/");
    k.extend_from_slice(key);
    b.insert(k, value);
}

/// Relies on `sled::Batch::insert`: stages the tagged posting write.
#[verifier::external_body]
fn batch_put_post(b: &mut Batch, family: &str, key: &[u8], primary: &[u8])
    requires
        valid_family(family@),
    ensures
        batch_posts(*final(b)) == batch_posts(*old(b)).insert((family@, key@), primary@),
        batch_data(*final(b)) == batch_data(*old(b)),
{
    let mut k = Vec::with_capacity(key.len() + family.len() + 3);
    k.extend_from_slice(b"i/");
    k.extend_from_slice(family.as_bytes());
    k.extend_from_slice(b"/");
    k.extend_from_slice(key);
    b.insert(k, primary);
}

/// Relies on `sled::Tree::apply_batch`: on success the staged writes
/// overlay the store; the body maps every failure to `Disconnect`. On failure, `apply_batch` has applied the batch's
/// keys one at a time to the live tree up to the failing one, so each
/// staged key is left either untouched or holding its staged value, and
/// every other key is untouched; `sled`'s atomicity guarantee for a batch
/// holds across crash recovery, not for an in-process failure.
#[verifier::external_body]
fn sled_apply(db: &mut Db, b: Batch) -> (r: Result<(), StorefulError>)
    ensures
        r is Ok ==> db_data(*final(db)) == db_data(*old(db)).union_prefer_right(batch_data(b))
            && db_posts(*final(db)) == db_posts(*old(db)).union_prefer_right(batch_posts(b)),
        r matches Err(e) ==> crate::db::partially_applied(
            db_data(*old(db)),
            db_data(*final(db)),
            batch_data(b),
        ) && crate::db::partially_applied(
            db_posts(*old(db)),
            db_posts(*final(db)),
            batch_posts(b),
        ) && e is Disconnect,
{
    db.apply_batch(b).map_err(|e| StorefulError::Disconnect(format!("{}", e)))
}

/// Relies on `sled::Tree::scan_prefix`: the entries of one family whose
/// posting key starts with `prefix` — every matching posting, each key
/// once, with the value stored for it.
#[verifier::external_body]
fn sled_scan_family(db: &Db, family: &str, prefix: &[u8]) -> (r: Result<
    Vec<(Vec<u8>, Vec<u8>)>,
    StorefulError,
>)
    requires
        valid_family(family@),
    ensures
        r matches Ok(entries) ==> {
            &&& forall|i: int|
                0 <= i < entries@.len() ==> {
                    &&& db_posts(*db).dom().contains((family@, #[trigger] entries@[i].0@))
                    &&& prefix@.is_prefix_of(entries@[i].0@)
                    &&& db_posts(*db)[(family@, entries@[i].0@)] == entries@[i].1@
                }
            &&& forall|k: Seq<u8>|
                db_posts(*db).dom().contains((family@, k)) && prefix@.is_prefix_of(k)
                    ==> exists|i: int| 0 <= i < entries@.len() && (#[trigger] entries@[i].0@) == k
            &&& forall|i: int, j: int|
                0 <= i < j < entries@.len() ==> (#[trigger] entries@[i].0@) != (#[trigger] entries@[j].0@)
        },
        r matches Err(e) ==> e is Disconnect,
{
    let mut p = Vec::with_capacity(prefix.len() + family.len() + 3);
    p.extend_from_slice(b"i/");
    p.extend_from_slice(family.as_bytes());
    p.extend_from_slice(b"/");
    p.extend_from_slice(prefix);
    let strip = family.len() + 3;
    let mut out = Vec::new();
    for item in db.scan_prefix(&p) {
        match item {
            Ok((k, v)) => out.push((k[strip..].to_vec(), v.to_vec())),
            Err(e) => return Err(StorefulError::Disconnect(format!("{}", e))),
        }
    }
    Ok(out)
}

/// Every collected value came from a parsed, in-range entry among the first
/// `n` scanned entries.
spec fn ts_out_from(
    outv: Seq<Seq<u8>>,
    all: Seq<(Vec<u8>, Vec<u8>)>,
    n: int,
    start: Option<i64>,
    end: Option<i64>,
) -> bool {
    forall|j: int|
        #![trigger outv[j]]
        0 <= j < outv.len() ==> exists|l: int|
            #![auto]
            0 <= l < n && ts_key_parses(all[l].0@) && ts_in_range(ts_of_key(all[l].0@), start, end)
                && outv[j] == all[l].1@
}

/// One write staged by the backend while a batch is open.
enum StagedWrite {
    Data { key: Vec<u8>, value: Vec<u8> },
    Post { family: String, key: Vec<u8>, primary: Vec<u8> },
}

impl View for StagedWrite {
    type V = PendingWrite;

    closed spec fn view(&self) -> PendingWrite {
        match self {
            StagedWrite::Data { key, value } => PendingWrite::Data { key: key@, value: value@ },
            StagedWrite::Post { family, key, primary } => PendingWrite::Post {
                family: family@,
                key: key@,
                primary: primary@,
            },
        }
    }
}

impl DeepView for StagedWrite {
    type V = PendingWrite;

    closed spec fn deep_view(&self) -> PendingWrite {
        self.view()
    }
}

/// A log-structured embedded backend.
pub struct SledBackend {
    db: Db,
    master_key: String,
    families: Vec<String>,
    batch: Option<Vec<StagedWrite>>,
}

/// Whether a family name is free of the keyspace separator `/`.
fn check_family_text(s: &str) -> (r: bool)
    ensures
        r == valid_family(s@),
{
    let b = s.as_bytes();
    let mut i: usize = 0;
    let mut ok = true;
    while i < b.len()
        invariant
            0 <= i <= b@.len(),
            ok == (forall|j: int| 0 <= j < i ==> (#[trigger] b@[j]) != 47),
        decreases b@.len() - i,
    {
        if b[i] == 47 {
            ok = false;
        }
        i = i + 1;
    }
    proof {
        lemma_valid_family_bytes(s@);
    }
    ok
}

/// Family validity is visible on the UTF-8 bytes.
proof fn lemma_valid_family_bytes(s: Seq<char>)
    ensures
        valid_family(s) <==> (forall|j: int|
            0 <= j < vstd::utf8::encode_utf8(s).len() ==> (#[trigger] vstd::utf8::encode_utf8(
                s,
            )[j]) != 47),
{
    let e = vstd::utf8::encode_utf8(s);
    crate::text::lemma_ascii_byte_occurs(s, 47);
    if valid_family(s) {
        assert forall|j: int| 0 <= j < e.len() implies (#[trigger] e[j]) != 47 by {
            if e[j] == 47 {
                assert(e.contains(47u8));
                let i = choose|i: int| 0 <= i < s.len() && (s[i] as u32) == 47u8 as u32;
                vstd::utf8::char_u32_cast(s[i], 47);
                vstd::utf8::char_u32_cast('/', 47);
                assert(s[i] == '/');
            }
        }
    }
    if forall|j: int| 0 <= j < e.len() ==> (#[trigger] e[j]) != 47 {
        assert forall|i: int| 0 <= i < s.len() implies (#[trigger] s[i]) != '/' by {
            if s[i] == '/' {
                assert((s[i] as u32) == 47);
                assert(e.contains(47u8));
                let j = choose|j: int| 0 <= j < e.len() && e[j] == 47u8;
                assert(false);
            }
        }
    }
}

impl SledBackend {
    /// Open (or create) a database at `path` with the given index
    /// families. A family name holding the reserved separator `/` is
    /// rejected; every failure of this call is an `Open` error.
    pub fn open(path: &std::path::PathBuf, master_key: String, tree_names: &[&'static str]) -> (r:
        Result<Self, StorefulError>)
        ensures
            r matches Ok(b) ==> {
                &&& b.model().pending is None
                &&& b.model().families == family_set_of(tree_names@.map_values(|s: &str| s@))
                &&& forall|i: int|
                    0 <= i < tree_names@.len() ==> valid_family(#[trigger] tree_names@[i]@)
            },
            (exists|i: int|
                0 <= i < tree_names@.len() && !valid_family(#[trigger] tree_names@[i]@)) ==> r is Err,
            r matches Err(e) ==> e is Open,
    {
        let mut families: Vec<String> = Vec::new();
        let mut i: usize = 0;
        while i < tree_names.len()
            invariant
                0 <= i <= tree_names@.len(),
                families@.len() == i,
                forall|j: int| 0 <= j < i ==> (#[trigger] families@[j]@) == tree_names@[j]@,
                forall|j: int| 0 <= j < i ==> valid_family(#[trigger] tree_names@[j]@),
            decreases tree_names@.len() - i,
        {
            let name: &str = tree_names[i];
            if !check_family_text(name) {
                return Err(StorefulError::Open(name.to_owned()));
            }
            families.push(name.to_owned());
            proof {
                assert(families@[i as int]@ == tree_names@[i as int]@);
                assert(valid_family(tree_names@[i as int]@));
                assert(forall|j: int|
                    0 <= j < i ==> (#[trigger] families@[j]@) == tree_names@[j]@);
            }
            i = i + 1;
        }
        let db = match sled_open(path) {
            Ok(db) => db,
            Err(e) => {
                return Err(e);
            },
        };
        let r = SledBackend { db, master_key, families, batch: None };
        proof {
            let names1 = r.families@.map_values(|s: String| s@);
            let names2 = tree_names@.map_values(|s: &str| s@);
            assert(names1 =~= names2);
            assert(r.model().families =~= family_set_of(names2));
        }
        Ok(r)
    }

    /// Whether `cf` is a declared, well-formed family.
    fn family_declared(&self, cf: &str) -> (r: bool)
        ensures
            r == self.model().families.contains(cf@),
    {
        if !check_family_text(cf) {
            return false;
        }
        let mut i: usize = 0;
        while i < self.families.len()
            invariant
                0 <= i <= self.families@.len(),
                valid_family(cf@),
                forall|j: int| 0 <= j < i ==> (#[trigger] self.families@[j]@) != cf@,
            decreases self.families@.len() - i,
        {
            if str_eq(cf, self.families[i].as_str()) {
                proof {
                    let names = self.families@.map_values(|s: String| s@);
                    assert(names[i as int] == cf@);
                    assert(names.contains(cf@));
                    assert(family_set_of(names).contains(cf@));
                }
                return true;
            }
            i = i + 1;
        }
        proof {
            let names = self.families@.map_values(|s: String| s@);
            if family_set_of(names).contains(cf@) {
                let j = choose|j: int| 0 <= j < names.len() && names[j] == cf@;
                assert(false);
            }
        }
        false
    }
}

impl BackendDatabase for SledBackend {
    closed spec fn model(&self) -> StoreModel {
        StoreModel {
            families: family_set_of(self.families@.map_values(|s: String| s@)),
            data: db_data(self.db),
            posts: db_posts(self.db),
            pending: self.batch.deep_view(),
        }
    }

    fn start_batch(&mut self) -> (r: Result<(), StorefulError>) {
        if self.batch.is_some() {
            return Err(StorefulError::BatchAlreadyStarted);
        }
        self.batch = Some(Vec::new());
        proof {
            assert(self.batch.deep_view() =~= Some(Seq::<PendingWrite>::empty()));
            assert(self.model() =~= (StoreModel {
                pending: Some(Seq::empty()),
                ..old(self).model()
            }));
        }
        Ok(())
    }

    fn commit_batch(&mut self) -> (r: Result<(), StorefulError>) {
        let mut tmp: Option<Vec<StagedWrite>> = None;
        core::mem::swap(&mut self.batch, &mut tmp);
        let ws = match tmp {
            Some(ws) => ws,
            None => {
                proof {
                    assert(self.model() =~= old(self).model());
                }
                return Err(StorefulError::BatchNotStarted);
            },
        };
        let ghost pws: Seq<PendingWrite> = ws.deep_view();
        let mut b = batch_new();
        let mut i: usize = 0;
        proof {
            assert(pws.subrange(0, 0) =~= Seq::<PendingWrite>::empty());
        }
        while i < ws.len()
            invariant
                0 <= i <= ws@.len(),
                pws == ws.deep_view(),
                pws.len() == ws@.len(),
                batch_data(b) == pending_data(pws.subrange(0, i as int)),
                batch_posts(b) == pending_posts(pws.subrange(0, i as int)),
            decreases ws@.len() - i,
        {
            let ghost pre = pws.subrange(0, i as int);
            let ghost post = pws.subrange(0, i as int + 1);
            proof {
                assert(post.drop_last() =~= pre);
                assert(post.last() == pws[i as int]);
                assert(ws@[i as int].deep_view() == pws[i as int]);
            }
            match &ws[i] {
                StagedWrite::Data { key, value } => {
                    batch_put_data(&mut b, key.as_slice(), value.as_slice());
                },
                StagedWrite::Post { family, key, primary } => {
                    if check_family_text(family.as_str()) {
                        batch_put_post(&mut b, family.as_str(), key.as_slice(), primary.as_slice());
                    }
                },
            }
            i = i + 1;
        }
        proof {
            assert(pws.subrange(0, pws.len() as int) =~= pws);
        }
        match sled_apply(&mut self.db, b) {
            Ok(()) => {
                proof {
                    lemma_apply_pending_union(old(self).model(), pws);
                    assert(self.model() =~= (StoreModel {
                        pending: None,
                        ..apply_pending(old(self).model(), pws)
                    }));
                }
                Ok(())
            },
            Err(e) => {
                proof {
                    assert(self.model().pending is None);
                    assert(old(self).model().pending->0 == pws);
                }
                Err(e)
            },
        }
    }

    fn rollback_batch(&mut self) {
        self.batch = None;
        proof {
            assert(self.model() =~= (StoreModel { pending: None, ..old(self).model() }));
        }
    }

    fn put(&mut self, key: &[u8], value: &[u8]) -> (r: Result<(), StorefulError>) {
        let mut tmp: Option<Vec<StagedWrite>> = None;
        core::mem::swap(&mut self.batch, &mut tmp);
        match tmp {
            Some(mut ws) => {
                let ghost prior: Seq<PendingWrite> = ws.deep_view();
                let staged = StagedWrite::Data {
                    key: vstd::slice::slice_to_vec(key),
                    value: vstd::slice::slice_to_vec(value),
                };
                ws.push(staged);
                proof {
                    assert(ws.deep_view() =~= prior.push(
                        PendingWrite::Data { key: key@, value: value@ },
                    ));
                }
                self.batch = Some(ws);
                proof {
                    assert(self.model() =~= crate::db::put_effect(old(self).model(), key@, value@));
                }
                Ok(())
            },
            None => {
                let r = sled_put_data(&mut self.db, key, value);
                proof {
                    if r is Ok {
                        assert(self.model() =~= crate::db::put_effect(
                            old(self).model(),
                            key@,
                            value@,
                        ));
                    } else {
                        assert(self.model() =~= old(self).model());
                    }
                }
                r
            },
        }
    }

    fn get(&self, key: &[u8]) -> (r: Result<Option<Vec<u8>>, StorefulError>) {
        sled_get(&self.db, key)
    }

    fn get_multi(&self, keys: &Vec<Vec<u8>>) -> (r: Result<Vec<Vec<u8>>, StorefulError>) {
        let mut out: Vec<Vec<u8>> = Vec::new();
        let mut i: usize = 0;
        proof {
            assert(views_of(keys@).subrange(0, 0) =~= Seq::<Seq<u8>>::empty());
            assert(views_of(out@) =~= multi_get(self.model().data, views_of(keys@).subrange(0, 0)));
        }
        while i < keys.len()
            invariant
                0 <= i <= keys@.len(),
                views_of(keys@).len() == keys@.len(),
                views_of(out@) == multi_get(self.model().data, views_of(keys@).subrange(0, i as int)),
            decreases keys@.len() - i,
        {
            let ghost pre = views_of(keys@).subrange(0, i as int);
            let ghost post = views_of(keys@).subrange(0, i as int + 1);
            match sled_get(&self.db, keys[i].as_slice()) {
                Ok(Some(v)) => {
                    out.push(v);
                },
                Ok(None) => {},
                Err(e) => {
                    return Err(e);
                },
            }
            proof {
                lemma_multi_get_snoc(self.model().data, pre, views_of(keys@)[i as int]);
                assert(post =~= pre.push(views_of(keys@)[i as int]));
                assert(views_of(out@) =~= multi_get(self.model().data, post));
            }
            i = i + 1;
        }
        proof {
            assert(views_of(keys@).subrange(0, keys@.len() as int) =~= views_of(keys@));
        }
        Ok(out)
    }

    fn create_index(&mut self, cf: &str, primary: &[u8], key: &[u8]) -> (r: Result<
        (),
        StorefulError,
    >) {
        if !self.family_declared(cf) {
            return Err(StorefulError::ColumnFamilyNotFound(cf.to_owned()));
        }
        let mut tmp: Option<Vec<StagedWrite>> = None;
        core::mem::swap(&mut self.batch, &mut tmp);
        match tmp {
            Some(mut ws) => {
                let ghost prior: Seq<PendingWrite> = ws.deep_view();
                let staged = StagedWrite::Post {
                    family: cf.to_owned(),
                    key: vstd::slice::slice_to_vec(key),
                    primary: vstd::slice::slice_to_vec(primary),
                };
                ws.push(staged);
                proof {
                    assert(ws.deep_view() =~= prior.push(
                        PendingWrite::Post { family: cf@, key: key@, primary: primary@ },
                    ));
                }
                self.batch = Some(ws);
                proof {
                    assert(self.model() =~= crate::db::post_effect(
                        old(self).model(),
                        cf@,
                        key@,
                        primary@,
                    ));
                }
                Ok(())
            },
            None => {
                let r = sled_put_post(&mut self.db, cf, key, primary);
                proof {
                    if r is Ok {
                        assert(self.model() =~= crate::db::post_effect(
                            old(self).model(),
                            cf@,
                            key@,
                            primary@,
                        ));
                    } else {
                        assert(self.model() =~= old(self).model());
                    }
                }
                r
            },
        }
    }

    fn query_timestamp_index(
        &self,
        timestamp_start: Option<i64>,
        timestamp_end: Option<i64>,
    ) -> (r: Result<Vec<Vec<u8>>, StorefulError>) {
        proof {
            vstd::prelude::reveal_strlit("timestamp");
            assert("timestamp"@ =~= ts_family());
        }
        if !self.family_declared("timestamp") {
            return Err(StorefulError::ColumnFamilyNotFound("timestamp".to_owned()));
        }
        let none_prefix: Vec<u8> = Vec::new();
        let entries = match sled_scan_family(&self.db, "timestamp", none_prefix.as_slice()) {
            Ok(entries) => entries,
            Err(e) => {
                return Err(e);
            },
        };
        let ghost posts = self.model().posts;
        let mut out: Vec<Vec<u8>> = Vec::new();
        let mut i: usize = 0;
        let mut rest = entries;
        let ghost all = rest@;
        let total_now: usize = rest.len();
        let ghost total: int = total_now as int;
        while rest.len() > 0
            invariant
                0 <= i as int <= total,
                all.len() == total,
                total <= usize::MAX,
                rest@.len() == total - i as int,
                rest@ =~= all.subrange(i as int, total),
                posts == self.model().posts,
                forall|j: int|
                    0 <= j < total ==> {
                        &&& posts.dom().contains((ts_family(), #[trigger] all[j].0@))
                        &&& posts[(ts_family(), all[j].0@)] == all[j].1@
                    },
                forall|j: int| 0 <= j < i ==> ts_key_parses(#[trigger] all[j].0@),
                forall|j: int|
                    0 <= j < i && ts_in_range(ts_of_key(all[j].0@), timestamp_start, timestamp_end)
                        ==> views_of(out@).contains(#[trigger] all[j].1@),
                ts_out_from(views_of(out@), all, i as int, timestamp_start, timestamp_end),
                views_of(out@).no_duplicates(),
            decreases rest@.len(),
        {
            let ghost pre = rest@;
            let entry = rest.remove(0);
            let (k, v) = entry;
            proof {
                assert(pre[0] == all[i as int]);
                assert(rest@ =~= all.subrange(i as int + 1, total));
                assert(k@ == all[i as int].0@ && v@ == all[i as int].1@);
            }
            let ts = match parse_ts_field(&k) {
                Some(ts) => ts,
                None => {
                    proof {
                        assert(posts.dom().contains((ts_family(), all[i as int].0@)));
                        assert(!ts_key_parses(all[i as int].0@));
                    }
                    return Err(StorefulError::ParseInt);
                },
            };
            let in_lo = match timestamp_start {
                Some(s) => ts >= s,
                None => true,
            };
            let in_hi = match timestamp_end {
                Some(e) => ts <= e,
                None => true,
            };
            let ghost out_pre = out@;
            let ghost vv = v@;
            let in_range = in_lo && in_hi;
            if in_range {
                if !contains_bytes(&out, &v) {
                    let ghost vx = v;
                    out.push(v);
                    proof {
                        crate::util::lemma_views_of_push(out_pre, vx);
                        assert(out@ == out_pre.push(vx));
                    }
                }
            }
            proof {
                let outv = views_of(out@);
                let prev = views_of(out_pre);
                assert(ts_key_parses(all[i as int].0@));
                assert(in_range == ts_in_range(
                    ts_of_key(all[i as int].0@),
                    timestamp_start,
                    timestamp_end,
                ));
                if out@.len() == out_pre.len() {
                    assert(outv =~= prev);
                } else {
                    assert(outv =~= prev.push(vv));
                    assert(!prev.contains(vv));
                    assert(outv.no_duplicates()) by {
                        assert forall|p: int, q: int| 0 <= p < q < outv.len() implies outv[p]
                            != outv[q] by {
                            if q < prev.len() {
                                assert(prev[p] != prev[q]);
                            } else {
                                assert(outv[q] == vv);
                                assert(prev[p] == outv[p]);
                                if outv[p] == vv {
                                    assert(prev.contains(vv));
                                }
                            }
                        }
                    }
                }
                assert forall|j: int|
                    0 <= j < i + 1 && ts_in_range(
                        ts_of_key(all[j].0@),
                        timestamp_start,
                        timestamp_end,
                    ) implies outv.contains(#[trigger] all[j].1@) by {
                    if j < i {
                        assert(prev.contains(all[j].1@));
                        let q = choose|q: int| 0 <= q < prev.len() && prev[q] == all[j].1@;
                        assert(outv[q] == all[j].1@);
                    } else {
                        assert(in_range);
                        if out@.len() == out_pre.len() {
                            assert(prev.contains(vv));
                            let q = choose|q: int| 0 <= q < prev.len() && prev[q] == vv;
                            assert(outv[q] == vv);
                        } else {
                            assert(outv[prev.len() as int] == vv);
                        }
                    }
                }
                assert(ts_out_from(prev, all, i as int, timestamp_start, timestamp_end));
                assert forall|j: int| 0 <= j < outv.len() implies exists|l: int|
                    #![auto]
                    0 <= l < i + 1 && ts_key_parses(all[l].0@) && ts_in_range(
                        ts_of_key(all[l].0@),
                        timestamp_start,
                        timestamp_end,
                    ) && (#[trigger] outv[j]) == all[l].1@ by {
                    if j < prev.len() {
                        assert(prev[j] == outv[j]);
                        let l = choose|l: int|
                            #![auto]
                            0 <= l < i && ts_key_parses(all[l].0@) && ts_in_range(
                                ts_of_key(all[l].0@),
                                timestamp_start,
                                timestamp_end,
                            ) && prev[j] == all[l].1@;
                        assert(0 <= l < i + 1 && ts_key_parses(all[l].0@) && ts_in_range(
                            ts_of_key(all[l].0@),
                            timestamp_start,
                            timestamp_end,
                        ) && outv[j] == all[l].1@);
                    } else {
                        assert(outv[j] == vv);
                        assert(vv == all[i as int].1@);
                        assert(in_range);
                        assert(0 <= (i as int) < i + 1 && ts_key_parses(all[i as int].0@)
                            && ts_in_range(
                            ts_of_key(all[i as int].0@),
                            timestamp_start,
                            timestamp_end,
                        ) && outv[j] == all[i as int].1@);
                    }
                }
                assert(ts_out_from(outv, all, i + 1, timestamp_start, timestamp_end));
            }
            i = i + 1;
        }
        proof {
            assert forall|k: Seq<u8>|
                self.model().posts.dom().contains((ts_family(), k)) implies #[trigger] ts_key_parses(
                k,
            ) by {
                assert(db_posts(self.db).dom().contains(("timestamp"@, k)));
                assert(none_prefix@ =~= k.subrange(0, 0));
                assert(none_prefix@.is_prefix_of(k));
                let j = choose|j: int| 0 <= j < all.len() && all[j].0@ == k;
                assert(ts_key_parses(all[j].0@));
            }
            assert forall|w: Seq<u8>| views_of(out@).to_set().contains(w) implies ts_scan_values(
                posts,
                timestamp_start,
                timestamp_end,
            ).contains(w) by {
                let j = choose|j: int| 0 <= j < views_of(out@).len() && views_of(out@)[j] == w;
                assert(ts_out_from(views_of(out@), all, i as int, timestamp_start, timestamp_end));
                let l = choose|l: int|
                    #![auto]
                    0 <= l < i && ts_key_parses(all[l].0@) && ts_in_range(
                        ts_of_key(all[l].0@),
                        timestamp_start,
                        timestamp_end,
                    ) && views_of(out@)[j] == all[l].1@;
                assert(posts.dom().contains((ts_family(), all[l].0@)));
            }
            assert forall|w: Seq<u8>| ts_scan_values(posts, timestamp_start, timestamp_end).contains(
                w,
            ) implies views_of(out@).to_set().contains(w) by {
                let k = choose|k: Seq<u8>|
                    #![auto]
                    posts.dom().contains((ts_family(), k)) && ts_key_ok(k) && ts_in_range(
                        ts_of_key(k),
                        timestamp_start,
                        timestamp_end,
                    ) && posts[(ts_family(), k)] == w;
                assert(db_posts(self.db).dom().contains(("timestamp"@, k)));
                assert(none_prefix@ =~= k.subrange(0, 0));
                assert(none_prefix@.is_prefix_of(k));
                let j = choose|j: int| 0 <= j < all.len() && all[j].0@ == k;
                assert(ts_key_parses(all[j].0@));
                assert(ts_of_key(all[j].0@) == ts_of_key(k));
                assert(views_of(out@).contains(all[j].1@));
                let q = choose|q: int|
                    0 <= q < views_of(out@).len() && views_of(out@)[q] == all[j].1@;
                assert(views_of(out@)[q] == w);
            }
            assert(views_of(out@).to_set() =~= ts_scan_values(
                posts,
                timestamp_start,
                timestamp_end,
            ));
        }
        Ok(out)
    }

    fn query_index(&self, cf: &str, index_key: &[u8]) -> (r: Result<Vec<Vec<u8>>, StorefulError>) {
        if !self.family_declared(cf) {
            return Err(StorefulError::ColumnFamilyNotFound(cf.to_owned()));
        }
        let entries = match sled_scan_family(&self.db, cf, index_key) {
            Ok(entries) => entries,
            Err(e) => {
                return Err(e);
            },
        };
        let ghost posts = self.model().posts;
        let mut out: Vec<Vec<u8>> = Vec::new();
        let mut rest = entries;
        let ghost all = rest@;
        let total_now: usize = rest.len();
        let ghost total: int = total_now as int;
        let mut i: usize = 0;
        while rest.len() > 0
            invariant
                0 <= i as int <= total,
                all.len() == total,
                total <= usize::MAX,
                rest@.len() == total - i as int,
                rest@ =~= all.subrange(i as int, total),
                posts == self.model().posts,
                forall|j: int|
                    0 <= j < total ==> {
                        &&& posts.dom().contains((cf@, #[trigger] all[j].0@))
                        &&& index_key@.is_prefix_of(all[j].0@)
                        &&& posts[(cf@, all[j].0@)] == all[j].1@
                    },
                forall|j: int| 0 <= j < i ==> views_of(out@).contains(#[trigger] all[j].1@),
                forall|j: int|
                    #![trigger views_of(out@)[j]]
                    0 <= j < views_of(out@).len() ==> exists|l: int|
                        #![auto]
                        0 <= l < i && views_of(out@)[j] == all[l].1@,
                views_of(out@).no_duplicates(),
            decreases rest@.len(),
        {
            let ghost pre = rest@;
            let entry = rest.remove(0);
            let (_k, v) = entry;
            proof {
                assert(pre[0] == all[i as int]);
                assert(rest@ =~= all.subrange(i as int + 1, total));
                assert(_k@ == all[i as int].0@ && v@ == all[i as int].1@);
            }
            let ghost out_pre = out@;
            let ghost vv = v@;
            if !contains_bytes(&out, &v) {
                let ghost vx = v;
                out.push(v);
                proof {
                    crate::util::lemma_views_of_push(out_pre, vx);
                    assert(out@ == out_pre.push(vx));
                }
            }
            proof {
                let outv = views_of(out@);
                let prev = views_of(out_pre);
                if out@.len() == out_pre.len() {
                    assert(outv =~= prev);
                } else {
                    assert(outv =~= prev.push(vv));
                    assert(!prev.contains(vv));
                    assert(outv.no_duplicates()) by {
                        assert forall|p: int, q: int| 0 <= p < q < outv.len() implies outv[p]
                            != outv[q] by {
                            if q < prev.len() {
                                assert(prev[p] != prev[q]);
                            } else {
                                assert(outv[q] == vv);
                                assert(prev[p] == outv[p]);
                                if outv[p] == vv {
                                    assert(prev.contains(vv));
                                }
                            }
                        }
                    }
                }
                assert forall|j: int| 0 <= j < i + 1 implies outv.contains(#[trigger] all[j].1@) by {
                    if j < i {
                        assert(prev.contains(all[j].1@));
                        let q = choose|q: int| 0 <= q < prev.len() && prev[q] == all[j].1@;
                        assert(outv[q] == all[j].1@);
                    } else {
                        if out@.len() == out_pre.len() {
                            assert(prev.contains(vv));
                            let q = choose|q: int| 0 <= q < prev.len() && prev[q] == vv;
                            assert(outv[q] == vv);
                        } else {
                            assert(outv[prev.len() as int] == vv);
                        }
                    }
                }
                assert forall|j: int|
                    #![trigger outv[j]]
                    0 <= j < outv.len() implies exists|l: int|
                        #![auto]
                        0 <= l < i + 1 && outv[j] == all[l].1@ by {
                    if j < prev.len() {
                        assert(prev[j] == outv[j]);
                    } else {
                        assert(outv[j] == vv);
                        assert(0 <= (i as int) < i + 1 && outv[j] == all[i as int].1@);
                    }
                }
            }
            i = i + 1;
        }
        proof {
            assert forall|w: Seq<u8>| views_of(out@).to_set().contains(w) implies posting_values(
                posts,
                cf@,
                index_key@,
            ).contains(w) by {
                let j = choose|j: int| 0 <= j < views_of(out@).len() && views_of(out@)[j] == w;
                let l = choose|l: int| 0 <= l < total && views_of(out@)[j] == all[l].1@;
                assert(posts.dom().contains((cf@, all[l].0@)));
            }
            assert forall|w: Seq<u8>| posting_values(posts, cf@, index_key@).contains(w) implies views_of(
                out@,
            ).to_set().contains(w) by {
                let k = choose|k: Seq<u8>|
                    #![auto]
                    posts.dom().contains((cf@, k)) && index_key@.is_prefix_of(k) && posts[(cf@, k)]
                        == w;
                assert(db_posts(self.db).dom().contains((cf@, k)));
                let j = choose|j: int| 0 <= j < all.len() && all[j].0@ == k;
                assert(views_of(out@).contains(all[j].1@));
                let q = choose|q: int|
                    0 <= q < views_of(out@).len() && views_of(out@)[q] == all[j].1@;
                assert(views_of(out@)[q] == w);
            }
            assert(views_of(out@).to_set() =~= posting_values(posts, cf@, index_key@));
        }
        Ok(out)
    }
}

/// Read the 20-digit timestamp field at bytes 10..30 of a scanned key.
/// `None` when the key is too short, a byte is not a digit, or the value
/// does not fit a 64-bit timestamp.
fn parse_ts_field(k: &Vec<u8>) -> (r: Option<i64>)
    ensures
        match r {
            Some(t) => ts_key_parses(k@) && t as int == ts_of_key(k@) && t >= 0,
            None => !ts_key_parses(k@),
        },
{
    if k.len() < 30 {
        return None;
    }
    let mut val: u128 = 0;
    let mut j: usize = 10;
    proof {
        assert(k@.subrange(10, 10) =~= Seq::<u8>::empty());
        reveal_with_fuel(pow10, 1);
    }
    while j < 30
        invariant
            10 <= j <= 30,
            k@.len() >= 30,
            (val as int) == digits_val_bytes(k@.subrange(10, j as int)),
            0 <= (val as int) < pow10((j - 10) as nat),
            forall|l: int| 10 <= l < j ==> is_digit_byte(#[trigger] k@[l]),
        decreases 30 - j,
    {
        let b = k[j];
        if b < 48 || b > 57 {
            return None;
        }
        proof {
            let pre = k@.subrange(10, j as int);
            let post = k@.subrange(10, j as int + 1);
            assert(post.drop_last() =~= pre);
            assert(post.last() == k@[j as int]);
            crate::keys::lemma_pow10_increases(((j - 10) + 1) as nat, 20);
            reveal_with_fuel(pow10, 21);
        }
        val = val * 10 + ((b - 48) as u128);
        j = j + 1;
    }
    if val > (i64::MAX as u128) {
        return None;
    }
    proof {
        assert(k@.subrange(10, 30) =~= k@.subrange(10, 30));
    }
    Some(val as i64)
}

/// `multi_get` over a key sequence extended by one key.
proof fn lemma_multi_get_snoc(data: Map<Seq<u8>, Seq<u8>>, keys: Seq<Seq<u8>>, k: Seq<u8>)
    ensures
        multi_get(data, keys.push(k)) == multi_get(data, keys) + (if data.dom().contains(k) {
            seq![data[k]]
        } else {
            Seq::<Seq<u8>>::empty()
        }),
    decreases keys.len(),
{
    if keys.len() == 0 {
        assert(keys.push(k)[0] == k);
        assert(keys.push(k).drop_first() =~= Seq::<Seq<u8>>::empty());
        assert(multi_get(data, Seq::<Seq<u8>>::empty()) =~= Seq::<Seq<u8>>::empty());
        assert(multi_get(data, keys) =~= Seq::<Seq<u8>>::empty());
        assert(multi_get(data, keys.push(k)) == (if data.dom().contains(keys.push(k)[0]) {
            seq![data[keys.push(k)[0]]]
        } else {
            Seq::<Seq<u8>>::empty()
        }) + multi_get(data, keys.push(k).drop_first()));
        assert(multi_get(data, keys.push(k)) =~= multi_get(data, keys) + (if data.dom().contains(
            k,
        ) {
            seq![data[k]]
        } else {
            Seq::<Seq<u8>>::empty()
        }));
    } else {
        let s = keys.push(k);
        assert(s[0] == keys[0]);
        assert(s.drop_first() =~= keys.drop_first().push(k));
        lemma_multi_get_snoc(data, keys.drop_first(), k);
        assert(multi_get(data, s) =~= multi_get(data, keys) + (if data.dom().contains(k) {
            seq![data[k]]
        } else {
            Seq::<Seq<u8>>::empty()
        }));
    }
}

} // verus!
