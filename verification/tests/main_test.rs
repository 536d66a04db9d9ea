//! The engine exercised in bulk: a thousand records with randomized names
//! and labels, queried by every dimension at once, checked against an
//! independent in-memory filter.

use std::path::PathBuf;

use chrono::Utc;
use metrical::{Context, ContextValue, Metric, MetricQuery, Metrical, SledBackend, Storeful};

fn pick<'a>(choices: &[&'a str]) -> &'a str {
    choices[rand::random_range(0..choices.len())]
}

#[test]
fn main_test() {
    let path = PathBuf::from(format!("/tmp/metrical_test_dbs/bulk_{}", rand::random::<u64>()));
    let sled = SledBackend::open(&path, "metrics".into(), &["name", "timestamp", "labels"])
        .expect("Failed to open sled backend");
    let storeful = Storeful::new(sled);
    let mut metrical = Metrical::new(storeful);

    let start_time = Utc::now();

    let mut metrics = vec![];
    let metric_count: i64 = 1000;
    for i in 0..metric_count {
        let random_value = rand::random::<f64>();
        let random_timestamp = i;
        let name_choices = ["cpu_usage", "memory_usage", "disk_usage"];
        let host_choices = ["localhost", "server1", "server2", "server3", "server4"];
        let region_choices = ["us-west", "us-east", "eu-west", "eu-east"];
        let metric = Metric {
            name: pick(&name_choices).to_owned(),
            timestamp: random_timestamp,
            value_bits: random_value.to_bits(),
            labels: Context(vec![
                ContextValue { key: "host".into(), value: pick(&host_choices).to_owned() },
                ContextValue { key: "region".into(), value: pick(&region_choices).to_owned() },
            ]),
        };
        metrics.push(metric);
    }

    let expected = metrics
        .iter()
        .filter(|m| {
            m.name == "memory_usage"
                && (0..=metric_count / 2).contains(&m.timestamp)
                && m.labels.0[0].value == "localhost"
                && m.labels.0[1].value == "us-west"
        })
        .count();

    metrical.post_multi(metrics).unwrap();

    let written_time = Utc::now();

    // query by every dimension at once
    let query = MetricQuery::empty()
        .with_name("memory_usage".into())
        .with_timestamp_start(0)
        .with_timestamp_end(metric_count / 2)
        .with_context_value(ContextValue { key: "host".into(), value: "localhost".into() })
        .with_context_value(ContextValue { key: "region".into(), value: "us-west".into() });

    let results = metrical.query(query).unwrap();

    assert_eq!(results.len(), expected);

    let queried_time = Utc::now();

    println!("Queried duration: {}ms", (queried_time - written_time).num_milliseconds());
    println!(
        "Total duration, writing {} and querying {} records: {}ms",
        metric_count,
        results.len(),
        (queried_time - start_time).num_milliseconds()
    );
}
