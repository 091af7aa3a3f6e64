//! Tests of the key-sorted measurement, the warnings, and the bounded
//! history.

use logging::influx::NumericRepr;
use logging::measurement::serialize;
use logging::measurement::Measurement;
use logging::measurement::Value;
use logging::warnings::Value as LogValue;
use logging::warnings::Level;
use logging::warnings::MeasurementRecord;
use logging::warnings::Record;
use logging::warnings::Warning;
use logging::warnings::WarningsHistory;
use logging::warnings::N_WARNINGS;

fn float_value(x: f64) -> Value {
    if x.is_finite() {
        Value::Float(NumericRepr::Finite(x.to_string()))
    } else {
        Value::Float(NumericRepr::NonFinite)
    }
}

#[test]
fn it_serializes_a_measurement_in_place() {
    let mut buf = String::with_capacity(4096);
    let mut meas = Measurement::new("rust_test");
    meas.add_tag("a", "b");
    meas.add_field("c", float_value(1.0));
    let now = logging::influx::now();
    meas.set_timestamp(now);
    serialize(&meas, &mut buf);
    let ans = format!("rust_test,a=b c=1 {}", now);
    assert_eq!(buf, ans);
}

#[test]
fn it_serializes_a_hard_to_serialize_message() {
    let raw = r#"error encountered trying to send krkn order: Other("Failed to send http request: Other("Resource temporarily unavailable (os error 11)")")"#;
    let mut buf = String::new();
    let mut m = Measurement::new("rust_test");
    m.add_field("s", Value::String(raw.to_string()));
    m.set_timestamp(77);
    serialize(&m, &mut buf);
    println!("{}", buf);
    let expected = format!("rust_test s=\"{}\" 77", raw.replace('"', "\\\""));
    assert_eq!(buf, expected);
}

#[test]
fn it_encodes_sorted_measurements_in_key_order() {
    let mut m = Measurement::new("t");
    m.add_tag("zebra", "z");
    m.add_tag("alpha", "a");
    m.add_field("nine", Value::Integer(9));
    m.add_field("eight", Value::Integer(8));
    m.set_timestamp(3);
    let mut buf = String::new();
    serialize(&m, &mut buf);
    assert_eq!(buf, "t,alpha=a,zebra=z eight=8i,nine=9i 3");
}

#[test]
fn it_replaces_the_value_of_a_repeated_key() {
    let mut m = Measurement::new("t");
    m.add_tag("k", "first");
    m.add_tag("k", "second");
    m.add_field("f", Value::Integer(1));
    m.add_field("f", Value::Boolean(true));
    let mut buf = String::new();
    serialize(&m, &mut buf);
    assert_eq!(buf, "t,k=second f=t");
}

#[test]
fn it_names_warning_categories() {
    assert_eq!(Warning::Notice("x".into()).category_str(), "NOTC");
    assert_eq!(Warning::Error("x".into()).category_str(), "ERRO");
    assert_eq!(Warning::Critical("x".into()).category_str(), "CRIT");
    assert_eq!(Warning::DegradedService("x".into()).category_str(), "DGRD");
    assert_eq!(Warning::Confirmed("x".into()).category_str(), "CNFD");
    assert_eq!(Warning::Awesome("x".into()).category_str(), "AWSM");
    assert_eq!(Warning::Terminate.category_str(), "TERM");
    let log = Warning::Log {
        level: Level::Debug,
        module: "m".into(),
        function: "f".into(),
        line: 1,
        msg: "hello".into(),
        kv: MeasurementRecord::new(),
    };
    assert_eq!(log.category_str(), "DEBG");
    assert_eq!(log.msg(), "hello");
    assert_eq!(log.msg_str(), "hello");
}

#[test]
fn it_reads_warning_messages() {
    let w = Warning::Error("boom".to_string());
    assert_eq!(w.msg(), "boom");
    assert_eq!(w.msg_str(), "boom");
    assert_eq!(Warning::Terminate.msg(), "");
    assert_eq!(Warning::Terminate.msg_str(), "Terminate");
}

#[test]
fn it_names_levels() {
    assert_eq!(Level::Critical.as_short_str(), "CRIT");
    assert_eq!(Level::Error.as_short_str(), "ERRO");
    assert_eq!(Level::Warning.as_short_str(), "WARN");
    assert_eq!(Level::Info.as_short_str(), "INFO");
    assert_eq!(Level::Debug.as_short_str(), "DEBG");
    assert_eq!(Level::Trace.as_short_str(), "TRCE");
}

#[test]
fn it_turns_a_record_into_a_measurement() {
    let rec = Record {
        time: 123,
        msg: Warning::Notice("hello".to_string()),
    };
    let m = rec.to_measurement("rt_test");
    let mut buf = String::new();
    serialize(&m, &mut buf);
    assert_eq!(buf, "rt_test,category=NOTC msg=\"hello\" 123");
}

#[test]
fn it_records_a_warning_at_the_current_time() {
    let rec = Record::new(Warning::Awesome("nice".to_string()));
    assert_eq!(rec.msg, Warning::Awesome("nice".to_string()));
}

#[test]
fn it_routes_tag_eligible_keys_to_tags() {
    let mut kv = MeasurementRecord::new();
    kv.add_tag("ticker", "xmr_btc".to_string());
    kv.add_tag("color", "red".to_string());
    kv.add_field("n", LogValue::Integer(1));
    let m = kv.to_measurement("routed");
    let mut buf = String::new();
    serialize(&m, &mut buf);
    assert!(buf.starts_with("routed,ticker=xmr_btc "), "buf = {}", buf);
    assert!(buf.contains("color=\"red\""), "buf = {}", buf);
    assert!(buf.contains("n=1i"), "buf = {}", buf);
}

#[test]
fn it_bounds_the_warnings_history() {
    let mut h = WarningsHistory::new();
    for k in 0..(N_WARNINGS + 2) {
        h.record(Record {
            time: k as i64,
            msg: Warning::Notice(format!("w{}", k)),
        });
    }
    assert_eq!(h.len(), N_WARNINGS);
    assert_eq!(h.get(0).time, (N_WARNINGS + 1) as i64);
    assert_eq!(h.get(N_WARNINGS - 1).time, 2);
}
