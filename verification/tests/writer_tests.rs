//! Tests of the flush policy: batching, shutdown, ordering, stamping.

use logging::influx::serialize_owned;
use logging::influx::OwnedMeasurement;
use logging::influx::OwnedValue;
use logging::writer::normalize;
use logging::writer::BatchingWriter;
use logging::writer::DEFAULT_MAX_PENDING_NANOS;
use logging::writer::INFLUX_WRITER_MAX_BUFFER;

fn plain(key: &str, n: i64, ts: i64) -> OwnedMeasurement {
    OwnedMeasurement::new(key)
        .add_field("n", OwnedValue::Integer(n))
        .set_timestamp(ts)
}

#[test]
fn it_stamps_and_defaults_an_empty_measurement() {
    let mut m = OwnedMeasurement::new("test");
    normalize(&mut m, 1234567890);
    assert_eq!(m.timestamp, Some(1234567890));
    assert_eq!(m.get_field("n"), Some(&OwnedValue::Integer(1)));

    let mut w = BatchingWriter::new(INFLUX_WRITER_MAX_BUFFER, DEFAULT_MAX_PENDING_NANOS, 0);
    let flushed = w.append_measurement(&m, 1234567890);
    assert!(flushed.is_none());
    assert_eq!(w.pending_buffer().as_str(), "test n=1i 1234567890");
}

#[test]
fn it_keeps_an_existing_timestamp_and_fields() {
    let mut m = plain("test", 7, 42);
    normalize(&mut m, 1234567890);
    assert_eq!(m.timestamp, Some(42));
    assert_eq!(m.get_field("n"), Some(&OwnedValue::Integer(7)));
}

#[test]
fn it_batches_without_flushing_below_the_bound() {
    let mut w = BatchingWriter::new(3, DEFAULT_MAX_PENDING_NANOS, 0);
    let mut posts = 0;
    for k in 0..3 {
        let m = plain("test", k, 1);
        if w.append_measurement(&m, 1).is_some() {
            posts += 1;
        }
    }
    assert_eq!(posts, 0);
    assert_eq!(w.pending_count(), 3);
}

#[test]
fn it_flushes_a_full_batch_with_the_crossing_item_included() {
    let mut w = BatchingWriter::new(3, DEFAULT_MAX_PENDING_NANOS, 0);
    for k in 0..3 {
        let m = plain("test", k, 1);
        assert!(w.append_measurement(&m, 1).is_none());
    }
    let m = plain("test", 3, 1);
    let batch = w.append_measurement(&m, 1).expect("the fourth item must flush");
    assert_eq!(batch.lines().count(), 4);
    assert_eq!(
        batch,
        "test n=0i 1\ntest n=1i 1\ntest n=2i 1\ntest n=3i 1"
    );
    assert_eq!(w.pending_count(), 0);
    assert_eq!(w.pending_buffer().as_str(), "");
}

#[test]
fn it_flushes_when_the_batch_has_waited_too_long() {
    let mut w = BatchingWriter::new(100, 1_000_000_000, 0);
    let first = plain("test", 0, 1);
    assert!(w.append_measurement(&first, 0).is_none());
    let late = plain("test", 1, 2);
    let batch = w
        .append_measurement(&late, 1_000_000_000)
        .expect("an overdue batch must flush");
    assert_eq!(batch.lines().count(), 2);
}

#[test]
fn it_flushes_all_pending_lines_and_the_marker_at_shutdown() {
    let mut w = BatchingWriter::new(INFLUX_WRITER_MAX_BUFFER, DEFAULT_MAX_PENDING_NANOS, 0);
    for k in 0..3 {
        let m = plain("test", k, 1);
        assert!(w.append_measurement(&m, 1).is_none());
    }
    let batch = w.shutdown(2).expect("a non-empty buffer must flush at shutdown");
    assert_eq!(
        batch,
        "test n=0i 1\ntest n=1i 1\ntest n=2i 1\nwtrterm n=1i"
    );
    assert_eq!(w.pending_buffer().as_str(), "");
    assert!(w.shutdown(3).is_none());
}

#[test]
fn it_keeps_enqueue_order_across_flushes() {
    let mut w = BatchingWriter::new(2, DEFAULT_MAX_PENDING_NANOS, 0);
    let mut all_flushed = String::new();
    let mut expected = String::new();
    for k in 0..8 {
        let m = plain("ord", k, 1);
        let mut line = String::new();
        serialize_owned(&m, &mut line);
        if !expected.is_empty() {
            expected.push('\n');
        }
        expected.push_str(&line);
        if let Some(batch) = w.append_measurement(&m, 1) {
            if !all_flushed.is_empty() {
                all_flushed.push('\n');
            }
            all_flushed.push_str(&batch);
        }
    }
    let pending = w.pending_buffer().clone();
    let combined = if pending.is_empty() {
        all_flushed
    } else if all_flushed.is_empty() {
        pending
    } else {
        format!("{}\n{}", all_flushed, pending)
    };
    assert_eq!(combined, expected);
}
