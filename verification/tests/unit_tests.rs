//! Unit tests of the key grammar, the payload codec, the label key-form,
//! the candidate-set utilities, and the small configuration types.

use metrical::args::{Args, RawArgs};
use metrical::codec::{get_u64, push_u64};
use metrical::keys::pad20;
use metrical::log::{IncomingLog, Log};
use metrical::metric::{decode_metric, encode_metric, metric_primary_key, IncomingMetric, Metric};
use metrical::models::{Context, ContextValue};
use metrical::util::intersect;
use metrical::Config;

fn metric(name: &str, ts: i64, value: f64, labels: &[(&str, &str)]) -> Metric {
    let mut ctx = Context(Vec::new());
    for (k, v) in labels {
        ctx.add_value(k, v);
    }
    Metric { name: name.to_owned(), timestamp: ts, value_bits: value.to_bits(), labels: ctx }
}

#[test]
fn pad20_pads_to_twenty_decimal_digits() {
    assert_eq!(pad20(42), b"00000000000000000042".to_vec());
    assert_eq!(pad20(0), b"00000000000000000000".to_vec());
    assert_eq!(pad20(i64::MAX), b"09223372036854775807".to_vec());
}

#[test]
fn primary_key_follows_the_grammar() {
    let m = metric("memory_usage", 123, 0.5, &[("host", "localhost"), ("region", "us-west")]);
    let key = metric_primary_key(&m);
    assert_eq!(
        key,
        b"memory_usage|00000000000000000123|host=\"localhost\",region=\"us-west\"".to_vec()
    );
}

#[test]
fn key_form_joins_labels_in_order() {
    let ctx = Context(Vec::new()).with_value("a", "1").with_value("b", "2");
    assert_eq!(ctx.to_key_string(), "a=\"1\",b=\"2\"");
    assert_eq!(Context(Vec::new()).to_key_string(), "");
}

#[test]
fn little_endian_field_round_trips() {
    let mut out: Vec<u8> = Vec::new();
    push_u64(&mut out, 0x0102030405060708);
    assert_eq!(out, vec![8, 7, 6, 5, 4, 3, 2, 1]);
    assert_eq!(get_u64(out.as_slice(), 0), 0x0102030405060708);
}

#[test]
fn payload_codec_round_trips() {
    let m = metric("cpu", 77, 0.25, &[("host", "a"), ("region", "eu")]);
    let bytes = encode_metric(&m);
    let back = decode_metric(&bytes).unwrap();
    assert_eq!(back.name, m.name);
    assert_eq!(back.timestamp, m.timestamp);
    assert_eq!(back.value_bits, m.value_bits);
    assert_eq!(back.labels.0.len(), 2);
    assert_eq!(back.labels.0[0].key, "host");
    assert_eq!(back.labels.0[1].value, "eu");
}

#[test]
fn payload_codec_rejects_mangled_bytes() {
    let m = metric("cpu", 77, 0.25, &[("host", "a")]);
    let mut bytes = encode_metric(&m);
    bytes.pop();
    assert!(decode_metric(&bytes).is_err());
    let mut extended = encode_metric(&m);
    extended.push(0);
    assert!(decode_metric(&extended).is_err());
}

#[test]
fn intersect_seeds_then_retains() {
    let mut acc: Vec<Vec<u8>> = Vec::new();
    intersect(&mut acc, vec![b"a".to_vec(), b"b".to_vec(), b"c".to_vec()]);
    assert_eq!(acc.len(), 3);
    intersect(&mut acc, vec![b"c".to_vec(), b"a".to_vec()]);
    assert_eq!(acc, vec![b"a".to_vec(), b"c".to_vec()]);
    intersect(&mut acc, vec![b"x".to_vec()]);
    assert_eq!(acc.len(), 0);
}

#[test]
fn absent_metric_timestamp_is_filled_with_now() {
    let incoming = IncomingMetric {
        name: "cpu".to_owned(),
        timestamp: None,
        value_bits: 0.5f64.to_bits(),
        labels: Context(Vec::new()),
    };
    let before = chrono::Utc::now().timestamp_nanos_opt().unwrap();
    let m = Metric::from_incoming(incoming);
    let after = chrono::Utc::now().timestamp_nanos_opt().unwrap();
    assert!(m.timestamp >= before && m.timestamp <= after);

    let fixed = IncomingMetric {
        name: "cpu".to_owned(),
        timestamp: Some(123),
        value_bits: 0.5f64.to_bits(),
        labels: Context(Vec::new()),
    };
    assert_eq!(Metric::from_incoming(fixed).timestamp, 123);
}

#[test]
fn absent_log_timestamp_is_filled_with_now() {
    let incoming = IncomingLog {
        timestamp: None,
        context: Context(Vec::new()).with_value("service", "api"),
        message: "started".to_owned(),
    };
    let before = chrono::Utc::now().timestamp_nanos_opt().unwrap();
    let log = Log::from_incoming(incoming);
    let after = chrono::Utc::now().timestamp_nanos_opt().unwrap();
    assert!(log.timestamp >= before && log.timestamp <= after);
    assert_eq!(log.message, "started");
    assert_eq!(log.context.0[0].key, "service");
}

#[test]
fn argument_defaults_are_applied() {
    let raw = RawArgs { db_path: None, host: None, port: None, http: true };
    let args = raw.populate();
    assert_eq!(args.db_path(), "./default.db");
    assert_eq!(args.host(), "127.0.0.1");
    assert_eq!(args.port(), 4040);
    assert!(args.http());

    let custom = RawArgs {
        db_path: Some("./other.db".to_owned()),
        host: Some("0.0.0.0".to_owned()),
        port: Some(8080),
        http: false,
    };
    let args = custom.populate();
    assert_eq!(args.db_path(), "./other.db");
    assert_eq!(args.port(), 8080);
    assert!(!args.http());

    let defaults = Args::default();
    assert_eq!(defaults.db_path(), "./default.db");
    assert!(defaults.http());

    let config: Config = Config::from(defaults);
    assert_eq!(config.host, "127.0.0.1");
    assert_eq!(config.port, 4040);
    assert!(config.http);
}

#[test]
fn context_value_pairs_keep_their_text() {
    let cv = ContextValue { key: "k".to_owned(), value: "v".to_owned() };
    let ctx = Context(vec![cv]);
    assert_eq!(ctx.to_key_string(), "k=\"v\"");
}
