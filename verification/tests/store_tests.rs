//! End-to-end tests of the metric engine over the embedded backend.

use std::path::PathBuf;

use metrical::{Context, ContextValue, Metric, MetricQuery, Metrical, SledBackend, Storeful, StorefulError};

fn fresh_engine(tag: &str) -> Metrical<SledBackend> {
    let path = PathBuf::from(format!("/tmp/metrical_test_dbs/{}_{}", tag, rand::random::<u64>()));
    let sled = SledBackend::open(&path, "metrics".into(), &["name", "timestamp", "labels"])
        .expect("Failed to open sled backend");
    let storeful = Storeful::new(sled);
    Metrical::new(storeful)
}

fn metric(name: &str, ts: i64, value: f64, labels: &[(&str, &str)]) -> Metric {
    let mut ctx = Context(Vec::new());
    for (k, v) in labels {
        ctx.add_value(k, v);
    }
    Metric { name: name.to_owned(), timestamp: ts, value_bits: value.to_bits(), labels: ctx }
}

#[test]
fn single_metric_round_trip() {
    // one record; a name and host query returns exactly it
    let mut engine = fresh_engine("s1");
    let m = metric("cpu", 1_000_000_000, 0.5, &[("host", "a"), ("region", "us")]);
    engine.post(m.clone()).unwrap();
    let q = MetricQuery::empty()
        .with_name("cpu".to_owned())
        .with_context_value(ContextValue { key: "host".to_owned(), value: "a".to_owned() });
    let results = engine.query(q).unwrap();
    assert_eq!(results.len(), 1);
    let r = &results[0];
    assert_eq!(r.name, "cpu");
    assert_eq!(r.timestamp, 1_000_000_000);
    assert_eq!(f64::from_bits(r.value_bits), 0.5);
    assert_eq!(r.labels.0.len(), 2);
    assert_eq!(r.labels.0[0].key, "host");
    assert_eq!(r.labels.0[0].value, "a");
    assert_eq!(r.labels.0[1].key, "region");
    assert_eq!(r.labels.0[1].value, "us");
}

#[test]
fn empty_query_returns_nothing() {
    // a query with no predicate is defined to return the empty vector
    let mut engine = fresh_engine("empty_q");
    engine.post(metric("cpu", 1, 0.25, &[])).unwrap();
    let results = engine.query(MetricQuery::empty()).unwrap();
    assert_eq!(results.len(), 0);
}

#[test]
fn timestamp_range_is_inclusive() {
    let mut engine = fresh_engine("range");
    for ts in [99i64, 100, 150, 200, 201] {
        engine.post(metric("cpu", ts, 0.1, &[])).unwrap();
    }
    let q = MetricQuery::empty().with_timestamp_start(100).with_timestamp_end(200);
    let mut got: Vec<i64> = engine.query(q).unwrap().iter().map(|m| m.timestamp).collect();
    got.sort();
    assert_eq!(got, vec![100, 150, 200]);
}

#[test]
fn reversed_range_is_empty() {
    let mut engine = fresh_engine("rev_range");
    engine.post(metric("cpu", 50, 0.1, &[])).unwrap();
    let q = MetricQuery::empty().with_timestamp_start(60).with_timestamp_end(40);
    assert_eq!(engine.query(q).unwrap().len(), 0);
}

#[test]
fn padding_preserves_order_near_i64_max() {
    // a timestamp near the top of the 64-bit range is still found by an
    // inclusive range query, so the 20-digit padding keeps numeric order
    let mut engine = fresh_engine("s3");
    engine.post(metric("cpu", 9_223_372_036_854_775_000, 1.0, &[])).unwrap();
    let q = MetricQuery::empty().with_timestamp_end(9_223_372_036_854_775_806);
    let results = engine.query(q).unwrap();
    assert_eq!(results.len(), 1);
    assert_eq!(results[0].timestamp, 9_223_372_036_854_775_000);
}

#[test]
fn same_name_and_timestamp_different_labels_both_survive() {
    // distinct label sets give distinct primary keys
    let mut engine = fresh_engine("s5");
    engine.post(metric("cpu", 7, 0.1, &[("host", "a")])).unwrap();
    engine.post(metric("cpu", 7, 0.2, &[("host", "b")])).unwrap();
    let results = engine.query(MetricQuery::empty().with_name("cpu".to_owned())).unwrap();
    assert_eq!(results.len(), 2);
}

#[test]
fn same_dimensions_overwrite() {
    // identical indexed dimensions give the same primary key: the later
    // record replaces the earlier one
    let mut engine = fresh_engine("overwrite");
    engine.post(metric("cpu", 7, 0.1, &[("host", "a")])).unwrap();
    engine.post(metric("cpu", 7, 0.9, &[("host", "a")])).unwrap();
    let results = engine.query(MetricQuery::empty().with_name("cpu".to_owned())).unwrap();
    assert_eq!(results.len(), 1);
    assert_eq!(f64::from_bits(results[0].value_bits), 0.9);
}

#[test]
fn label_order_in_query_is_irrelevant() {
    let mut engine = fresh_engine("p8");
    engine.post(metric("cpu", 1, 0.5, &[("host", "a"), ("region", "us")])).unwrap();
    engine.post(metric("cpu", 2, 0.5, &[("host", "a")])).unwrap();
    let q1 = MetricQuery::empty()
        .with_context_value(ContextValue { key: "host".to_owned(), value: "a".to_owned() })
        .with_context_value(ContextValue { key: "region".to_owned(), value: "us".to_owned() });
    let q2 = MetricQuery::empty()
        .with_context_value(ContextValue { key: "region".to_owned(), value: "us".to_owned() })
        .with_context_value(ContextValue { key: "host".to_owned(), value: "a".to_owned() });
    let mut r1: Vec<i64> = engine.query(q1).unwrap().iter().map(|m| m.timestamp).collect();
    let mut r2: Vec<i64> = engine.query(q2).unwrap().iter().map(|m| m.timestamp).collect();
    r1.sort();
    r2.sort();
    assert_eq!(r1, vec![1]);
    assert_eq!(r1, r2);
}

#[test]
fn conjunction_requires_every_predicate() {
    let mut engine = fresh_engine("p4");
    engine.post(metric("cpu", 10, 0.5, &[("host", "a")])).unwrap();
    engine.post(metric("cpu", 30, 0.5, &[("host", "a")])).unwrap();
    engine.post(metric("mem", 10, 0.5, &[("host", "a")])).unwrap();
    engine.post(metric("cpu", 10, 0.5, &[("host", "b")])).unwrap();
    let q = MetricQuery::empty()
        .with_name("cpu".to_owned())
        .with_timestamp_start(0)
        .with_timestamp_end(20)
        .with_context_value(ContextValue { key: "host".to_owned(), value: "a".to_owned() });
    let results = engine.query(q).unwrap();
    assert_eq!(results.len(), 1);
    assert_eq!(results[0].timestamp, 10);
    assert_eq!(results[0].labels.0[0].value, "a");
}

#[test]
fn reserved_characters_are_rejected() {
    let mut engine = fresh_engine("reserved");
    let bad_name = metric("cp|u", 1, 0.5, &[]);
    assert!(matches!(engine.post(bad_name), Err(StorefulError::Validation)));
    let bad_label = metric("cpu", 1, 0.5, &[("ho|st", "a")]);
    assert!(matches!(engine.post(bad_label), Err(StorefulError::Validation)));
    let bad_value = metric("cpu", 1, 0.5, &[("host", "a:b")]);
    assert!(matches!(engine.post(bad_value), Err(StorefulError::Validation)));
    let negative_ts = metric("cpu", -5, 0.5, &[]);
    assert!(matches!(engine.post(negative_ts), Err(StorefulError::Validation)));
    // a rejected record is not observable
    let results = engine.query(MetricQuery::empty().with_name("cpu".to_owned())).unwrap();
    assert_eq!(results.len(), 0);
    // a query holding a reserved character is rejected too
    let q = MetricQuery::empty().with_name("cp|u".to_owned());
    assert!(matches!(engine.query(q), Err(StorefulError::Validation)));
}

#[test]
fn undeclared_family_is_reported() {
    // a backend opened without the metric families cannot index a record
    let path = PathBuf::from(format!("/tmp/metrical_test_dbs/no_fam_{}", rand::random::<u64>()));
    let sled = SledBackend::open(&path, "metrics".into(), &[]).unwrap();
    let mut engine = Metrical::new(Storeful::new(sled));
    let r = engine.post(metric("cpu", 1, 0.5, &[]));
    assert!(matches!(r, Err(StorefulError::ColumnFamilyNotFound(_))));
}

#[test]
fn post_multi_commits_atomically() {
    let mut engine = fresh_engine("multi_ok");
    let batch = vec![
        metric("cpu", 1, 0.1, &[("host", "a")]),
        metric("cpu", 2, 0.2, &[("host", "a")]),
        metric("mem", 3, 0.3, &[("host", "b")]),
    ];
    engine.post_multi(batch).unwrap();
    let results = engine.query(MetricQuery::empty().with_timestamp_start(0)).unwrap();
    assert_eq!(results.len(), 3);
}

#[test]
fn post_multi_rejects_any_invalid_record() {
    let mut engine = fresh_engine("multi_invalid");
    let batch = vec![
        metric("cpu", 1, 0.1, &[]),
        metric("cp|u", 2, 0.2, &[]),
        metric("cpu", 3, 0.3, &[]),
    ];
    assert!(matches!(engine.post_multi(batch), Err(StorefulError::Validation)));
    // nothing from the failed call is observable
    let results = engine.query(MetricQuery::empty().with_timestamp_start(0)).unwrap();
    assert_eq!(results.len(), 0);
    // and the engine is usable afterwards
    engine.post(metric("cpu", 9, 0.9, &[])).unwrap();
    let results = engine.query(MetricQuery::empty().with_name("cpu".to_owned())).unwrap();
    assert_eq!(results.len(), 1);
}

#[test]
fn records_persist_across_reopen() {
    let path = PathBuf::from(format!("/tmp/metrical_test_dbs/reopen_{}", rand::random::<u64>()));
    {
        let sled = SledBackend::open(&path, "metrics".into(), &["name", "timestamp", "labels"])
            .unwrap();
        let mut engine = Metrical::new(Storeful::new(sled));
        engine.post(metric("cpu", 42, 0.5, &[("host", "a")])).unwrap();
    }
    let sled = SledBackend::open(&path, "metrics".into(), &["name", "timestamp", "labels"])
        .unwrap();
    let mut engine = Metrical::new(Storeful::new(sled));
    let results = engine.query(MetricQuery::empty().with_name("cpu".to_owned())).unwrap();
    assert_eq!(results.len(), 1);
    assert_eq!(results[0].timestamp, 42);
}
