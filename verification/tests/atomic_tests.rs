//! Batch atomicity under an injected backend failure, exercised through a
//! scripted in-memory backend that honors the capability set.

use std::collections::BTreeMap;

use metrical::{
    BackendDatabase, Context, Metric, MetricQuery, Metrical, Storeful, StorefulError,
};

enum Op {
    Data { key: Vec<u8>, value: Vec<u8> },
    Post { family: String, key: Vec<u8>, primary: Vec<u8> },
}

/// An in-memory backend that fails its n-th primary write.
struct ScriptedBackend {
    data: BTreeMap<Vec<u8>, Vec<u8>>,
    posts: BTreeMap<(String, Vec<u8>), Vec<u8>>,
    families: Vec<String>,
    batch: Option<Vec<Op>>,
    puts_seen: usize,
    fail_on_put: Option<usize>,
}

impl ScriptedBackend {
    fn new(fail_on_put: Option<usize>) -> Self {
        ScriptedBackend {
            data: BTreeMap::new(),
            posts: BTreeMap::new(),
            families: vec!["name".to_owned(), "timestamp".to_owned(), "labels".to_owned()],
            batch: None,
            puts_seen: 0,
            fail_on_put,
        }
    }
}

impl BackendDatabase for ScriptedBackend {
    fn start_batch(&mut self) -> Result<(), StorefulError> {
        if self.batch.is_some() {
            return Err(StorefulError::BatchAlreadyStarted);
        }
        self.batch = Some(Vec::new());
        Ok(())
    }

    fn commit_batch(&mut self) -> Result<(), StorefulError> {
        match self.batch.take() {
            None => Err(StorefulError::BatchNotStarted),
            Some(ops) => {
                for op in ops {
                    match op {
                        Op::Data { key, value } => {
                            self.data.insert(key, value);
                        },
                        Op::Post { family, key, primary } => {
                            self.posts.insert((family, key), primary);
                        },
                    }
                }
                Ok(())
            },
        }
    }

    fn rollback_batch(&mut self) {
        self.batch = None;
    }

    fn put(&mut self, key: &[u8], value: &[u8]) -> Result<(), StorefulError> {
        self.puts_seen += 1;
        if self.fail_on_put == Some(self.puts_seen) {
            return Err(StorefulError::Disconnect("injected failure".to_owned()));
        }
        match &mut self.batch {
            Some(ops) => ops.push(Op::Data { key: key.to_vec(), value: value.to_vec() }),
            None => {
                self.data.insert(key.to_vec(), value.to_vec());
            },
        }
        Ok(())
    }

    fn get(&self, key: &[u8]) -> Result<Option<Vec<u8>>, StorefulError> {
        Ok(self.data.get(key).cloned())
    }

    fn get_multi(&self, keys: &Vec<Vec<u8>>) -> Result<Vec<Vec<u8>>, StorefulError> {
        let mut out = Vec::new();
        for k in keys {
            if let Some(v) = self.data.get(k) {
                out.push(v.clone());
            }
        }
        Ok(out)
    }

    fn create_index(&mut self, cf: &str, primary: &[u8], key: &[u8]) -> Result<(), StorefulError> {
        if !self.families.iter().any(|f| f == cf) {
            return Err(StorefulError::ColumnFamilyNotFound(cf.to_owned()));
        }
        match &mut self.batch {
            Some(ops) => ops.push(Op::Post {
                family: cf.to_owned(),
                key: key.to_vec(),
                primary: primary.to_vec(),
            }),
            None => {
                self.posts.insert((cf.to_owned(), key.to_vec()), primary.to_vec());
            },
        }
        Ok(())
    }

    fn query_timestamp_index(
        &self,
        timestamp_start: Option<i64>,
        timestamp_end: Option<i64>,
    ) -> Result<Vec<Vec<u8>>, StorefulError> {
        let mut out: Vec<Vec<u8>> = Vec::new();
        for ((family, key), primary) in &self.posts {
            if family != "timestamp" {
                continue;
            }
            if key.len() < 30 {
                return Err(StorefulError::ParseInt);
            }
            let field = std::str::from_utf8(&key[10..30]).map_err(|_| StorefulError::Utf8)?;
            let ts: i64 = field.parse().map_err(|_| StorefulError::ParseInt)?;
            if let Some(start) = timestamp_start {
                if ts < start {
                    continue;
                }
            }
            if let Some(end) = timestamp_end {
                if ts > end {
                    continue;
                }
            }
            if !out.contains(primary) {
                out.push(primary.clone());
            }
        }
        Ok(out)
    }

    fn query_index(&self, cf: &str, index_key: &[u8]) -> Result<Vec<Vec<u8>>, StorefulError> {
        if !self.families.iter().any(|f| f == cf) {
            return Err(StorefulError::ColumnFamilyNotFound(cf.to_owned()));
        }
        let mut out: Vec<Vec<u8>> = Vec::new();
        for ((family, key), primary) in &self.posts {
            if family == cf && key.starts_with(index_key) && !out.contains(primary) {
                out.push(primary.clone());
            }
        }
        Ok(out)
    }
}

fn metric(name: &str, ts: i64, value: f64) -> Metric {
    let mut ctx = Context(Vec::new());
    ctx.add_value("host", "a");
    Metric { name: name.to_owned(), timestamp: ts, value_bits: value.to_bits(), labels: ctx }
}

#[test]
fn failed_batch_leaves_nothing_observable() {
    // the backend is scripted to fail on the third primary write: the
    // error surfaces and no record of the call is visible afterwards
    let backend = ScriptedBackend::new(Some(3));
    let mut engine = Metrical::new(Storeful::new(backend));
    let batch = vec![
        metric("cpu", 1, 0.1),
        metric("cpu", 2, 0.2),
        metric("cpu", 3, 0.3),
        metric("cpu", 4, 0.4),
        metric("cpu", 5, 0.5),
    ];
    let r = engine.post_multi(batch);
    assert!(matches!(r, Err(StorefulError::Disconnect(_))));
    let results = engine.query(MetricQuery::empty().with_timestamp_start(0)).unwrap();
    assert_eq!(results.len(), 0);
}

#[test]
fn unfailing_scripted_backend_commits() {
    let backend = ScriptedBackend::new(None);
    let mut engine = Metrical::new(Storeful::new(backend));
    engine.post_multi(vec![metric("cpu", 1, 0.1), metric("mem", 2, 0.2)]).unwrap();
    let results = engine.query(MetricQuery::empty().with_name("cpu".to_owned())).unwrap();
    assert_eq!(results.len(), 1);
    assert_eq!(results[0].timestamp, 1);
}

#[test]
fn corrupt_payload_aborts_query() {
    // a stored payload that fails binary decode surfaces as a codec error
    // and aborts the query — no partial result comes back
    let mut backend = ScriptedBackend::new(None);
    // plant a payload that is not a valid record encoding, with a name
    // posting so a query will reach it
    backend.put(b"cpu|00000000000000000001|", b"garbage").unwrap();
    backend
        .create_index("name", b"cpu|00000000000000000001|", b"name|cpu|cpu|00000000000000000001|")
        .unwrap();
    let mut engine = Metrical::new(Storeful::new(backend));
    let r = engine.query(MetricQuery::empty().with_name("cpu".to_owned()));
    assert!(matches!(r, Err(StorefulError::Codec)));
    // fetching the corrupt primary directly fails the same way
    let r2 = engine.get_metrics(&vec![b"cpu|00000000000000000001|".to_vec()]);
    assert!(matches!(r2, Err(StorefulError::Codec)));
    // while a key absent from the store is silently skipped
    let r3 = engine.get_metrics(&vec![b"missing".to_vec()]);
    assert_eq!(r3.unwrap().len(), 0);
}

#[test]
fn batch_protocol_violations_are_typed() {
    let mut backend = ScriptedBackend::new(None);
    assert!(matches!(backend.commit_batch(), Err(StorefulError::BatchNotStarted)));
    backend.start_batch().unwrap();
    assert!(matches!(backend.start_batch(), Err(StorefulError::BatchAlreadyStarted)));
    // an engine over a backend with an open batch refuses a multi-post
    let mut engine = Metrical::new(Storeful::new(backend));
    let r = engine.post_multi(vec![metric("cpu", 1, 0.1)]);
    assert!(matches!(r, Err(StorefulError::BatchAlreadyStarted)));
}
