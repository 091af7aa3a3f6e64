//! Tests of the line-protocol encoder and the measurement builders.

use logging::influx::as_boolean;
use logging::influx::as_integer;
use logging::influx::as_string;
use logging::influx::escape;
use logging::influx::escape_tag;
use logging::influx::now;
use logging::influx::serialize_owned;
use logging::influx::NumericRepr;
use logging::influx::OwnedMeasurement;
use logging::influx::OwnedValue;

fn float_value(x: f64) -> OwnedValue {
    if x.is_finite() {
        OwnedValue::Float(NumericRepr::Finite(x.to_string()))
    } else {
        OwnedValue::Float(NumericRepr::NonFinite)
    }
}

#[test]
fn it_checks_as_string_does_not_double_escape() {
    let raw = "this is \\\"an escaped string\\\" so it's problematic";
    let escaped = as_string(&raw);
    assert_eq!(escaped, format!("\"{}\"", raw).as_str());
}

#[test]
fn it_escapes_a_string_field_once() {
    let escaped = as_string("say \"hi\"");
    assert_eq!(escaped, "\"say \\\"hi\\\"\"");
}

#[test]
fn it_removes_offending_characters_from_identifiers() {
    assert_eq!(escape_tag("a b,c\"d"), "abcd");
    assert_eq!(escape_tag("clean"), "clean");
}

#[test]
fn it_is_idempotent_on_clean_identifiers() {
    let dirty = "a b,c\"d";
    let once = escape_tag(dirty);
    let twice = escape_tag(&once);
    assert_eq!(once, twice);
}

#[test]
fn it_backslash_escapes_tag_values() {
    assert_eq!(escape("a b,c"), "a\\ b\\,c");
    assert_eq!(escape("quote\"stays"), "quote\"stays");
}

#[test]
fn it_renders_integer_literals() {
    assert_eq!(as_integer(&0), "0i");
    assert_eq!(as_integer(&42), "42i");
    assert_eq!(as_integer(&-7), "-7i");
    assert_eq!(as_integer(&i64::MAX), "9223372036854775807i");
    assert_eq!(as_integer(&i64::MIN), "-9223372036854775808i");
}

#[test]
fn it_renders_boolean_literals() {
    assert_eq!(as_boolean(&true), "t");
    assert_eq!(as_boolean(&false), "f");
}

#[test]
fn it_uses_the_v_for_version_shortcut() {
    const VERSION: &str = "0.3.90";
    let color = "red";
    let time = now();
    let m = OwnedMeasurement::new("test")
        .add_field("n", OwnedValue::Integer(1))
        .add_tag("color", color)
        .add_tag("version", VERSION)
        .set_timestamp(time);
    assert_eq!(m.get_tag("color"), Some("red"));
    assert_eq!(m.get_tag("version"), Some(VERSION));
    assert_eq!(m.timestamp, Some(time));
}

#[test]
fn it_uses_the_new_tag_k_only_shortcut() {
    let tag_value = "one";
    let color = "red";
    let time = now();
    let m = OwnedMeasurement::new("test")
        .add_tag("color", color)
        .add_tag("tag_value", tag_value)
        .set_timestamp(time);
    assert_eq!(m.get_tag("color"), Some("red"));
    assert_eq!(m.get_tag("tag_value"), Some("one"));
    assert_eq!(m.timestamp, Some(time));
}

#[test]
fn it_uses_measure_macro_parenthesis_syntax() {
    let m = OwnedMeasurement::new("test")
        .add_tag("a", "b")
        .add_field("n", OwnedValue::Integer(1))
        .add_field("x", float_value(1.1))
        .set_timestamp(1);
    assert_eq!(m.key, "test");
    assert_eq!(m.get_tag("a"), Some("b"));
    assert_eq!(m.get_field("n"), Some(&OwnedValue::Integer(1)));
    assert_eq!(m.get_field("x"), Some(&float_value(1.1)));
    assert_eq!(m.timestamp, Some(1));
}

#[test]
fn it_uses_the_make_meas_pattern_of_the_measure_macro() {
    let meas = OwnedMeasurement::new("test_measurement")
        .add_tag("one", "a")
        .add_tag("two", "b")
        .add_field("three", OwnedValue::Integer(2))
        .add_field("four", float_value(1.2345))
        .add_field("five", OwnedValue::String(String::from("d")))
        .add_field("six", OwnedValue::Boolean(true))
        .add_field("seven", OwnedValue::Integer(1 + 2))
        .set_timestamp(1);
    assert_eq!(meas.key, "test_measurement");
    assert_eq!(meas.get_tag("one"), Some("a"));
    assert_eq!(meas.get_tag("two"), Some("b"));
    assert_eq!(meas.get_field("three"), Some(&OwnedValue::Integer(2)));
    assert_eq!(meas.get_field("seven"), Some(&OwnedValue::Integer(3)));
    assert_eq!(meas.timestamp, Some(1));
}

#[test]
fn it_uses_the_measure_macro() {
    let (tx, rx) = std::sync::mpsc::channel();
    let meas = OwnedMeasurement::new("test_measurement")
        .add_tag("one", "a")
        .add_tag("two", "b")
        .add_field("three", OwnedValue::Integer(2))
        .add_field("four", float_value(1.2345))
        .add_field("five", OwnedValue::String(String::from("d")))
        .add_field("six", OwnedValue::Boolean(true))
        .add_field("seven", OwnedValue::Integer(1 + 2))
        .set_timestamp(1);
    tx.send(meas).unwrap();
    let meas: OwnedMeasurement = rx.try_recv().unwrap();
    assert_eq!(meas.key, "test_measurement");
    assert_eq!(meas.get_tag("one"), Some("a"));
    assert_eq!(meas.get_tag("two"), Some("b"));
    assert_eq!(meas.get_field("three"), Some(&OwnedValue::Integer(2)));
    assert_eq!(meas.get_field("seven"), Some(&OwnedValue::Integer(3)));
    assert_eq!(meas.timestamp, Some(1));
}

#[test]
fn it_checks_color_tag_error_in_non_doctest() {
    let (tx, rx) = std::sync::mpsc::channel();
    let meas = OwnedMeasurement::new("test")
        .add_tag("color", "red")
        .add_field("n", OwnedValue::Integer(1));
    tx.send(meas).unwrap();
    let meas: OwnedMeasurement = rx.recv().unwrap();
    assert_eq!(meas.get_tag("color"), Some("red"), "meas = \n {:?} \n", meas);
}

#[test]
fn try_to_break_measure_macro() {
    struct A {
        pub one: i32,
        pub two: i32,
    }

    struct B {
        pub a: A,
    }

    let b = B { a: A { one: 1, two: 2 } };
    let _ = b.a.two;

    let m = OwnedMeasurement::new("test")
        .add_tag("name", "a")
        .add_field("a", OwnedValue::Integer(b.a.one as i64));
    assert_eq!(m.get_field("a"), Some(&OwnedValue::Integer(1)));
}

#[test]
fn it_checks_that_fields_are_separated_correctly() {
    let m = OwnedMeasurement::new("test")
        .add_tag("a", "one")
        .add_tag("b", "two")
        .add_field("x", float_value(1.1))
        .add_field("y", float_value(-1.1));
    assert_eq!(m.key, "test");
    assert_eq!(m.get_tag("a"), Some("one"));
    assert_eq!(m.get_field("x"), Some(&float_value(1.1)));

    let mut buf = String::new();
    serialize_owned(&m, &mut buf);
    assert!(buf.contains("b=two x=1.1,y=-1.1"), "buf = {}", buf);
}

#[test]
fn it_sets_a_tag_in_place() {
    let m = OwnedMeasurement::new("test")
        .add_tag("k", "v1")
        .add_tag("other", "x")
        .set_tag("k", "v2");
    assert_eq!(m.get_tag("k"), Some("v2"));
    assert_eq!(m.get_tag("other"), Some("x"));
    let m2 = m.set_tag("fresh", "new");
    assert_eq!(m2.get_tag("fresh"), Some("new"));
}

#[test]
fn it_normalizes_non_finite_floats_to_zero() {
    let m = OwnedMeasurement::new("nan_test")
        .add_field("a", float_value(f64::NAN))
        .add_field("b", float_value(f64::INFINITY))
        .add_field("c", float_value(f64::NEG_INFINITY))
        .set_timestamp(5);
    let mut buf = String::new();
    serialize_owned(&m, &mut buf);
    assert_eq!(buf, "nan_test a=0.0,b=0.0,c=0.0 5");
}

#[test]
fn it_serializes_a_uuid_in_canonical_form() {
    let u = uuid::Uuid::new_v4();
    let m = OwnedMeasurement::new("test")
        .add_field("u", OwnedValue::Uuid(*u.as_bytes()))
        .set_timestamp(9);
    let mut buf = String::new();
    serialize_owned(&m, &mut buf);
    assert_eq!(buf, format!("test u=\"{}\" 9", u));
}

#[test]
fn it_serializes_a_hard_to_serialize_message_from_owned() {
    let raw = r#"error encountered trying to send krkn order: Other("Failed to send http request: Other("Resource temporarily unavailable (os error 11)")")"#;
    let mut buf = String::new();
    let m = OwnedMeasurement::new("rust_test")
        .add_field("s", OwnedValue::String(raw.to_string()))
        .set_timestamp(now());
    serialize_owned(&m, &mut buf);
    println!("{}", buf);
    buf.push_str("\n");
    let buf_copy = buf.clone();
    buf.push_str(&buf_copy);
    println!("{}", buf);
    let expected_line = format!(
        "rust_test s=\"{}\" {}",
        raw.replace('"', "\\\""),
        m.timestamp.unwrap()
    );
    assert_eq!(buf, format!("{}\n{}\n", expected_line, expected_line));
}

#[test]
fn it_uses_measure_macro_for_d128_and_uuid() {
    let (tx, rx) = std::sync::mpsc::channel();
    let u = uuid::Uuid::new_v4();
    let d = decimal::d128::zero();
    let t = now();
    let dec_value = if d.is_finite() {
        OwnedValue::D128(NumericRepr::Finite(d.to_string()))
    } else {
        OwnedValue::D128(NumericRepr::NonFinite)
    };
    let meas = OwnedMeasurement::new("test_measurement")
        .add_tag("one", "a")
        .add_field("two", dec_value.clone())
        .add_field("three", OwnedValue::Uuid(*u.as_bytes()))
        .set_timestamp(t);
    tx.send(meas).unwrap();
    let meas: OwnedMeasurement = rx.try_recv().unwrap();
    assert_eq!(meas.key, "test_measurement");
    assert_eq!(meas.get_tag("one"), Some("a"));
    assert_eq!(meas.get_field("two"), Some(&dec_value));
    assert_eq!(meas.get_field("three"), Some(&OwnedValue::Uuid(*u.as_bytes())));
    assert_eq!(meas.timestamp, Some(t));
}
