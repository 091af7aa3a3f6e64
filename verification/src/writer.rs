//! The batching writer's flush policy.
//!
//! The background writer drains a queue of measurements, encodes each one
//! onto a reusable buffer, and posts the buffer as one batch when it is
//! full or has waited long enough.  This module is the verified state
//! machine of that loop: what happens to the buffer and the pending count
//! on each dequeued measurement, and on shutdown.  The thread, the queue
//! and the HTTP transport around it perform the actions this machine
//! decides.

use vstd::prelude::*;

use crate::influx::owned_line_rep;
use crate::influx::serialize_owned;
use crate::influx::OwnedMeasurement;
use crate::influx::OwnedMeasurementV;
use crate::influx::OwnedValue;
use crate::influx::OwnedValueV;
use crate::strbuf::clear_str;
use crate::strbuf::push_char;

verus! {

/// Default bound on the number of lines accumulated before a flush.
pub const INFLUX_WRITER_MAX_BUFFER: usize = 4096;

/// Default bound on how long a non-empty batch may wait before the next
/// measurement forces a flush, in nanoseconds.
pub const DEFAULT_MAX_PENDING_NANOS: i64 = 1_000_000_000;

/// The text of a batch: the encoded lines joined by single newlines,
/// with no trailing newline.
pub open spec fn joined_lines(lines: Seq<Seq<char>>) -> Seq<char>
    decreases lines.len(),
{
    if lines.len() == 0 {
        Seq::empty()
    } else if lines.len() == 1 {
        lines[0]
    } else {
        joined_lines(lines.drop_last()) + seq!['\n'] + lines.last()
    }
}

/// A dequeued measurement is completed before encoding: a missing
/// timestamp becomes the dequeue-time clock reading, and an empty field
/// list becomes the single default field `n = 1`, since the wire format
/// requires at least one field.
pub open spec fn normalized_rep(m: OwnedMeasurementV, now: i64) -> OwnedMeasurementV {
    OwnedMeasurementV {
        key: m.key,
        timestamp: if m.timestamp is Some {
            m.timestamp
        } else {
            Some(now)
        },
        fields: if m.fields.len() == 0 {
            seq![("n"@, OwnedValueV::Int(1))]
        } else {
            m.fields
        },
        tags: m.tags,
    }
}

/// Completes a dequeued measurement in place, as the writer does at the
/// moment it takes the measurement off the queue.
pub fn normalize(m: &mut OwnedMeasurement, now: i64)
    ensures
        final(m)@ == normalized_rep(old(m)@, now),
{
    if m.timestamp.is_none() {
        m.timestamp = Some(now);
    }
    if m.fields.len() == 0 {
        m.fields.push(("n".to_owned(), OwnedValue::Integer(1)));
        proof {
            assert(m@.fields =~= seq![("n"@, OwnedValueV::Int(1))]);
        }
    }
    proof {
        assert(m@ =~= normalized_rep(old(m)@, now));
    }
}

/// The flush rule, applied once per dequeued measurement after its line
/// is known.  Yields the new pending lines, the new time of last flush,
/// and the batch to post, if the rule fired:
/// - the first line of a batch is only accumulated, never flushed at
///   once, even under time pressure;
/// - a further line is accumulated while the batch is below its size
///   bound and the batch has not waited `max_pending` or longer;
/// - otherwise the line is still appended, so that the measurement that
///   crosses the threshold rides along, and the whole batch is flushed.
///   A full batch therefore holds `max_size + 1` lines.
pub open spec fn policy_step(
    lines: Seq<Seq<char>>,
    last_flush: i64,
    max_size: usize,
    max_pending: i64,
    line: Seq<char>,
    now: i64,
) -> (Seq<Seq<char>>, i64, Option<Seq<Seq<char>>>) {
    if lines.len() == 0 {
        (seq![line], last_flush, None::<Seq<Seq<char>>>)
    } else if lines.len() < max_size && now - last_flush < max_pending {
        (lines.push(line), last_flush, None::<Seq<Seq<char>>>)
    } else {
        (Seq::<Seq<char>>::empty(), now, Some(lines.push(line)))
    }
}

/// The batching writer's state between measurements: the reusable text
/// buffer, the lines it holds, and the flush policy's parameters.
pub struct BatchingWriter {
    buf: String,
    count: usize,
    last_flush: i64,
    max_buffer_size: usize,
    max_pending_nanos: i64,
    lines: Ghost<Seq<Seq<char>>>,
}

impl BatchingWriter {
    /// The encoded lines accumulated since the last flush, oldest first.
    pub closed spec fn pending_lines(&self) -> Seq<Seq<char>> {
        self.lines@
    }

    /// The text the buffer currently holds.
    pub closed spec fn buffer_text(&self) -> Seq<char> {
        self.buf@
    }

    /// The size bound of the flush policy.
    pub closed spec fn max_size(&self) -> usize {
        self.max_buffer_size
    }

    /// The waiting bound of the flush policy, in nanoseconds.
    pub closed spec fn max_pending(&self) -> i64 {
        self.max_pending_nanos
    }

    /// The clock reading at which the last flush happened, or the start
    /// time while nothing has been flushed.
    pub closed spec fn last_flush_time(&self) -> i64 {
        self.last_flush
    }

    /// Well-formed: the buffer holds exactly the pending lines joined by
    /// newlines, the count matches, and the batch is within its bound.
    pub closed spec fn wf(&self) -> bool {
        &&& self.buf@ == joined_lines(self.lines@)
        &&& self.count == self.lines@.len()
        &&& self.lines@.len() <= self.max_buffer_size || self.lines@.len() == 1
    }

    /// A fresh writer state with an empty buffer.
    pub fn new(max_buffer_size: usize, max_pending_nanos: i64, start: i64) -> (r: Self)
        ensures
            r.wf(),
            r.pending_lines() == Seq::<Seq<char>>::empty(),
            r.last_flush_time() == start,
            r.max_size() == max_buffer_size,
            r.max_pending() == max_pending_nanos,
    {
        let r = BatchingWriter {
            buf: String::new(),
            count: 0,
            last_flush: start,
            max_buffer_size,
            max_pending_nanos,
            lines: Ghost(Seq::empty()),
        };
        r
    }

    /// The buffer as accumulated so far, for inspection; the batch that a
    /// flush posts is exactly this text.
    pub fn pending_buffer(&self) -> (r: &String)
        ensures
            r@ == self.buffer_text(),
    {
        &self.buf
    }

    /// How many lines are waiting in the buffer.
    pub fn pending_count(&self) -> (r: usize)
        requires
            self.wf(),
        ensures
            r == self.pending_lines().len(),
    {
        self.count
    }

    /// Encodes one dequeued measurement onto the buffer and applies the
    /// flush rule; returns the batch to post when the rule fired.  After
    /// a flush the buffer is cleared in place, not reallocated.
    ///
    /// The caller normalizes the measurement first; `now` is the clock
    /// reading for this iteration of the writer loop.
    pub fn append_measurement(&mut self, m: &OwnedMeasurement, now: i64) -> (flushed: Option<
        String,
    >)
        requires
            old(self).wf(),
        ensures
            final(self).wf(),
            final(self).max_size() == old(self).max_size(),
            final(self).max_pending() == old(self).max_pending(),
            ({
                let step = policy_step(
                    old(self).pending_lines(),
                    old(self).last_flush_time(),
                    old(self).max_size(),
                    old(self).max_pending(),
                    owned_line_rep(m@),
                    now,
                );
                &&& final(self).pending_lines() == step.0
                &&& final(self).last_flush_time() == step.1
                &&& match flushed {
                    Some(batch) => step.2 is Some && batch@ == joined_lines(step.2->0),
                    None => step.2 is None,
                }
            }),
    {
        let ghost line = owned_line_rep(m@);
        let ghost lines0 = self.lines@;
        if self.count == 0 {
            proof {
                assert(joined_lines(lines0) =~= Seq::<char>::empty());
            }
            serialize_owned(m, &mut self.buf);
            self.count = 1;
            proof {
                self.lines@ = seq![line];
                assert(self.buf@ =~= line);
                assert(joined_lines(seq![line]) == line);
            }
            None
        } else {
            push_char(&mut self.buf, '\n');
            serialize_owned(m, &mut self.buf);
            proof {
                self.lines@ = lines0.push(line);
                assert(lines0.push(line).drop_last() =~= lines0);
                assert(lines0.push(line).last() == line);
                assert(self.buf@ =~= joined_lines(lines0.push(line)));
            }
            let fresh = (now as i128) - (self.last_flush as i128) < (
            self.max_pending_nanos as i128);
            if self.count < self.max_buffer_size && fresh {
                self.count = self.count + 1;
                None
            } else {
                let batch = self.buf.clone();
                clear_str(&mut self.buf);
                self.count = 0;
                self.last_flush = now;
                proof {
                    self.lines@ = Seq::empty();
                    assert(joined_lines(Seq::<Seq<char>>::empty()) =~= Seq::<char>::empty());
                }
                Some(batch)
            }
        }
    }

    /// Winds the writer down.  When lines are pending, one synthetic
    /// termination marker is encoded and run through the ordinary flush
    /// rule with the size bound treated as reached, so the final batch
    /// carries every pending line plus the marker's.  The buffer is left
    /// empty on every path, so nothing further is owed after this call.
    pub fn shutdown(&mut self, now: i64) -> (flushed: Option<String>)
        requires
            old(self).wf(),
        ensures
            final(self).wf(),
            final(self).pending_lines() == Seq::<Seq<char>>::empty(),
            final(self).buffer_text() == Seq::<char>::empty(),
            old(self).pending_lines().len() == 0 ==> flushed is None,
            old(self).pending_lines().len() > 0 ==> match flushed {
                Some(batch) => batch@ == joined_lines(
                    old(self).pending_lines().push(termination_marker_rep()),
                ),
                None => false,
            },
    {
        if self.count == 0 {
            proof {
                assert(joined_lines(self.lines@) =~= Seq::<char>::empty());
            }
            None
        } else {
            let ghost lines0 = self.lines@;
            let marker = OwnedMeasurement::new("wtrterm").add_field("n", OwnedValue::Integer(1));
            proof {
                assert(marker@.fields =~= seq![("n"@, OwnedValueV::Int(1))]);
                assert(marker@ =~= OwnedMeasurementV {
                    key: "wtrterm"@,
                    timestamp: None,
                    fields: seq![("n"@, OwnedValueV::Int(1))],
                    tags: Seq::<(Seq<char>, Seq<char>)>::empty(),
                });
            }
            push_char(&mut self.buf, '\n');
            serialize_owned(&marker, &mut self.buf);
            proof {
                assert(lines0.push(termination_marker_rep()).drop_last() =~= lines0);
                assert(lines0.push(termination_marker_rep()).last() == termination_marker_rep());
                assert(self.buf@ =~= joined_lines(lines0.push(termination_marker_rep())));
            }
            let batch = self.buf.clone();
            clear_str(&mut self.buf);
            self.count = 0;
            self.last_flush = now;
            proof {
                self.lines@ = Seq::empty();
                assert(joined_lines(Seq::<Seq<char>>::empty()) =~= Seq::<char>::empty());
            }
            Some(batch)
        }
    }
}

/// The line of the synthetic measurement that forces the final flush at
/// shutdown: key `wtrterm`, the single default field, no timestamp.
pub open spec fn termination_marker_rep() -> Seq<char> {
    owned_line_rep(
        OwnedMeasurementV {
            key: "wtrterm"@,
            timestamp: None,
            fields: seq![("n"@, OwnedValueV::Int(1))],
            tags: Seq::<(Seq<char>, Seq<char>)>::empty(),
        },
    )
}

/// What the flush rule reads and writes over a run: the pending lines
/// and the clock reading of the last flush.
pub struct PolicyState {
    pub lines: Seq<Seq<char>>,
    pub last_flush: i64,
}

/// Replays the flush rule over a sequence of dequeued events, each an
/// encoded line paired with its clock reading; yields the final state
/// and the flushed batches, in the order they were posted.
pub open spec fn policy_run(
    init: PolicyState,
    max_size: usize,
    max_pending: i64,
    events: Seq<(Seq<char>, i64)>,
) -> (PolicyState, Seq<Seq<Seq<char>>>)
    decreases events.len(),
{
    if events.len() == 0 {
        (init, Seq::<Seq<Seq<char>>>::empty())
    } else {
        let prior = policy_run(init, max_size, max_pending, events.drop_last());
        let ev = events.last();
        let step = policy_step(prior.0.lines, prior.0.last_flush, max_size, max_pending, ev.0, ev.1);
        (
            PolicyState { lines: step.0, last_flush: step.1 },
            match step.2 {
                Some(b) => prior.1.push(b),
                None => prior.1,
            },
        )
    }
}

/// All lines flushed over a run, concatenated in the order posted.
pub open spec fn flushed_lines(batches: Seq<Seq<Seq<char>>>) -> Seq<Seq<char>>
    decreases batches.len(),
{
    if batches.len() == 0 {
        Seq::empty()
    } else {
        flushed_lines(batches.drop_last()) + batches.last()
    }
}

/// First-in-first-out: over any run of the flush rule, the lines of the
/// flushed batches concatenated in flush order, followed by the lines
/// still pending, are exactly the lines that arrived, in arrival order.
pub proof fn lemma_fifo_order(
    init: PolicyState,
    max_size: usize,
    max_pending: i64,
    events: Seq<(Seq<char>, i64)>,
)
    ensures
        ({
            let run = policy_run(init, max_size, max_pending, events);
            flushed_lines(run.1) + run.0.lines == init.lines + events.map_values(
                |e: (Seq<char>, i64)| e.0,
            )
        }),
    decreases events.len(),
{
    let f = |e: (Seq<char>, i64)| e.0;
    if events.len() == 0 {
        assert(flushed_lines(Seq::<Seq<Seq<char>>>::empty()) =~= Seq::<Seq<char>>::empty());
        assert(events.map_values(f) =~= Seq::<Seq<char>>::empty());
        assert(flushed_lines(policy_run(init, max_size, max_pending, events).1) + init.lines =~=
        init.lines + events.map_values(f));
    } else {
        let head = events.drop_last();
        lemma_fifo_order(init, max_size, max_pending, head);
        let prior = policy_run(init, max_size, max_pending, head);
        let ev = events.last();
        let step = policy_step(prior.0.lines, prior.0.last_flush, max_size, max_pending, ev.0, ev.1);
        let run = policy_run(init, max_size, max_pending, events);
        assert(events.map_values(f) =~= head.map_values(f).push(ev.0));
        if step.2 is None {
            assert(run.0.lines =~= prior.0.lines.push(ev.0));
            assert(run.1 == prior.1);
            assert(flushed_lines(run.1) + run.0.lines =~= (flushed_lines(prior.1)
                + prior.0.lines).push(ev.0));
            assert((init.lines + head.map_values(f)).push(ev.0) =~= init.lines + events.map_values(
                f,
            ));
        } else {
            let batch = prior.0.lines.push(ev.0);
            assert(run.1 =~= prior.1.push(batch));
            assert(prior.1.push(batch).drop_last() =~= prior.1);
            assert(flushed_lines(run.1) == flushed_lines(prior.1) + batch);
            assert(flushed_lines(prior.1) + batch =~= (flushed_lines(prior.1)
                + prior.0.lines).push(ev.0));
            assert((init.lines + head.map_values(f)).push(ev.0) =~= init.lines + events.map_values(
                f,
            ));
            assert(flushed_lines(run.1) + run.0.lines =~= flushed_lines(run.1));
            assert(flushed_lines(run.1) + run.0.lines =~= init.lines + events.map_values(f));
        }
    }
}

/// Flush batching: starting from an empty batch, with the waiting bound
/// never reached, the first `max_size` measurements cause no flush at
/// all, and one further measurement causes exactly one flush whose batch
/// carries all `max_size + 1` lines.  The size bound must be at least
/// one: the rule never flushes the first line of a batch.
pub proof fn lemma_flush_batching(
    init: PolicyState,
    max_size: usize,
    max_pending: i64,
    events: Seq<(Seq<char>, i64)>,
)
    requires
        max_size >= 1,
        init.lines.len() == 0,
        events.len() <= max_size + 1,
        forall|i: int| 0 <= i < events.len() ==> (#[trigger] events[i]).1 - init.last_flush
            < max_pending,
    ensures
        ({
            let run = policy_run(init, max_size, max_pending, events);
            &&& events.len() <= max_size ==> run.1 == Seq::<Seq<Seq<char>>>::empty()
                && run.0.lines == events.map_values(|e: (Seq<char>, i64)| e.0)
                && run.0.last_flush == init.last_flush
            &&& events.len() == max_size + 1 ==> run.1 == seq![
                events.map_values(|e: (Seq<char>, i64)| e.0),
            ]
        }),
    decreases events.len(),
{
    let f = |e: (Seq<char>, i64)| e.0;
    if events.len() == 0 {
        assert(events.map_values(f) =~= Seq::<Seq<char>>::empty());
    } else {
        let head = events.drop_last();
        assert(forall|i: int|
            0 <= i < head.len() ==> (#[trigger] head[i]).1 - init.last_flush < max_pending) by {
            assert(forall|i: int| 0 <= i < head.len() ==> head[i] == events[i]);
        }
        lemma_flush_batching(init, max_size, max_pending, head);
        let prior = policy_run(init, max_size, max_pending, head);
        let ev = events.last();
        let run = policy_run(init, max_size, max_pending, events);
        assert(events.map_values(f) =~= head.map_values(f).push(ev.0));
        assert(ev.1 - init.last_flush < max_pending);
        if events.len() <= max_size {
            if prior.0.lines.len() == 0 {
                assert(run.0.lines =~= events.map_values(f));
            } else {
                assert(prior.0.lines.len() < max_size);
                assert(run.0.lines =~= events.map_values(f));
            }
        } else {
            assert(prior.0.lines == head.map_values(f));
            assert(prior.0.lines.len() == max_size);
            assert(run.1 =~= seq![events.map_values(f)]);
        }
    }
}

} // verus!
