//! Non-fatal warnings: their categories, the records kept of them, the
//! key/value collector that turns structured-log data into measurements,
//! and the bounded in-memory history of recent warnings.
//!
//! The broadcast transports and the logging-framework glue that carry
//! these values live outside the library; this module holds the data and
//! the routing rules they share.

use std::collections::VecDeque;

use vstd::prelude::*;

use crate::influx;
use crate::measurement::sorted_insert;
use crate::measurement::Measurement;
use crate::measurement::Value as LineValue;
use crate::measurement::ValueV;
use crate::influx::NumericRepr;
use crate::strbuf::str_eq;

verus! {

/// How many records the bounded history keeps.
pub const N_WARNINGS: usize = 500;

/// The severity of a forwarded structured-log record.
#[derive(Debug, Clone, Copy, PartialEq, Eq, Structural)]
pub enum Level {
    Critical,
    Error,
    Warning,
    Info,
    Debug,
    Trace,
}

impl Level {
    /// The four-letter tag this severity shows in category text.
    pub open spec fn short_rep(self) -> Seq<char> {
        match self {
            Level::Critical => "CRIT"@,
            Level::Error => "ERRO"@,
            Level::Warning => "WARN"@,
            Level::Info => "INFO"@,
            Level::Debug => "DEBG"@,
            Level::Trace => "TRCE"@,
        }
    }

    /// The four-letter tag of this severity.
    pub fn as_short_str(&self) -> (r: &str)
        ensures
            r@ == self.short_rep(),
    {
        match self {
            Level::Critical => "CRIT",
            Level::Error => "ERRO",
            Level::Warning => "WARN",
            Level::Info => "INFO",
            Level::Debug => "DEBG",
            Level::Trace => "TRCE",
        }
    }
}

/// A non-fatal report from somewhere in the system, to show on the
/// program's interface or keep in its logs.
#[derive(Debug, Clone, PartialEq)]
pub enum Warning {
    Notice(String),
    Error(String),
    DegradedService(String),
    Critical(String),
    Confirmed(String),
    Awesome(String),
    /// A structured-log record forwarded whole: its severity, origin,
    /// message and collected key/value pairs.
    Log {
        level: Level,
        module: String,
        function: String,
        line: u32,
        msg: String,
        kv: MeasurementRecord,
    },
    /// Tells the consumer of warnings to wind down.
    Terminate,
}

/// The message text a warning carries; the termination signal carries
/// none.
pub open spec fn msg_rep(w: Warning) -> Seq<char> {
    match w {
        Warning::Notice(s) => s@,
        Warning::Error(s) => s@,
        Warning::DegradedService(s) => s@,
        Warning::Critical(s) => s@,
        Warning::Confirmed(s) => s@,
        Warning::Awesome(s) => s@,
        Warning::Log { msg, .. } => msg@,
        Warning::Terminate => Seq::<char>::empty(),
    }
}

/// The message text as borrowed from the warning; the termination signal
/// reads as its own name.
pub open spec fn msg_str_rep(w: Warning) -> Seq<char> {
    if w is Terminate {
        "Terminate"@
    } else {
        msg_rep(w)
    }
}

/// The four-letter category tag of a warning.
pub open spec fn category_rep(w: Warning) -> Seq<char> {
    match w {
        Warning::Notice(_) => "NOTC"@,
        Warning::Error(_) => "ERRO"@,
        Warning::Critical(_) => "CRIT"@,
        Warning::DegradedService(_) => "DGRD"@,
        Warning::Confirmed(_) => "CNFD"@,
        Warning::Awesome(_) => "AWSM"@,
        Warning::Log { level, .. } => level.short_rep(),
        Warning::Terminate => "TERM"@,
    }
}

impl Warning {
    /// The message text, as an owned string.
    pub fn msg(&self) -> (r: String)
        ensures
            r@ == msg_rep(*self),
    {
        match self {
            Warning::Notice(s) => s.clone(),
            Warning::Error(s) => s.clone(),
            Warning::DegradedService(s) => s.clone(),
            Warning::Critical(s) => s.clone(),
            Warning::Confirmed(s) => s.clone(),
            Warning::Awesome(s) => s.clone(),
            Warning::Log { msg, .. } => msg.clone(),
            Warning::Terminate => String::new(),
        }
    }

    /// The message text, borrowed.
    pub fn msg_str(&self) -> (r: &str)
        ensures
            r@ == msg_str_rep(*self),
    {
        match self {
            Warning::Notice(s) => s.as_str(),
            Warning::Error(s) => s.as_str(),
            Warning::DegradedService(s) => s.as_str(),
            Warning::Critical(s) => s.as_str(),
            Warning::Confirmed(s) => s.as_str(),
            Warning::Awesome(s) => s.as_str(),
            Warning::Log { msg, .. } => msg.as_str(),
            Warning::Terminate => "Terminate",
        }
    }

    /// The four-letter category tag.
    pub fn category_str(&self) -> (r: &str)
        ensures
            r@ == category_rep(*self),
    {
        match self {
            Warning::Notice(_) => "NOTC",
            Warning::Error(_) => "ERRO",
            Warning::Critical(_) => "CRIT",
            Warning::DegradedService(_) => "DGRD",
            Warning::Confirmed(_) => "CNFD",
            Warning::Awesome(_) => "AWSM",
            Warning::Log { level, .. } => level.as_short_str(),
            Warning::Terminate => "TERM",
        }
    }
}

/// A typed value collected from a structured-log record.
#[derive(Debug, Clone, PartialEq)]
pub enum Value {
    /// Free-form text.
    String(String),
    /// A floating-point number, by its decimal rendering.
    Float(NumericRepr),
    /// A signed integer.
    Integer(i64),
    /// A boolean.
    Boolean(bool),
}

impl View for Value {
    type V = ValueV;

    open spec fn view(&self) -> ValueV {
        match self {
            Value::String(s) => ValueV::Str(s@),
            Value::Float(r) => ValueV::Float(r@),
            Value::Integer(i) => ValueV::Int(*i),
            Value::Boolean(b) => ValueV::Bool(*b),
        }
    }
}

impl Value {
    /// The same value as the serializer's field type.
    pub fn to_influent(&self) -> (r: LineValue)
        ensures
            r@ == self@,
    {
        match self {
            Value::String(s) => LineValue::String(s.clone()),
            Value::Float(r) => match r {
                NumericRepr::Finite(t) => LineValue::Float(NumericRepr::Finite(t.clone())),
                NumericRepr::NonFinite => LineValue::Float(NumericRepr::NonFinite),
            },
            Value::Integer(i) => LineValue::Integer(*i),
            Value::Boolean(b) => LineValue::Boolean(*b),
        }
    }
}

/// The reserved tag-eligible keys: these classifiers stay indexed tags;
/// a pair under any other key is folded into the fields.
pub open spec fn tag_eligible(k: Seq<char>) -> bool {
    k == "exchange"@ || k == "thread"@ || k == "ticker"@ || k == "category"@
}

/// Collects the key/value pairs of one structured-log record, split
/// into tag-eligible pairs and field pairs, in arrival order.
#[derive(Debug, Clone, PartialEq)]
pub struct MeasurementRecord {
    fields: Vec<(String, Value)>,
    tags: Vec<(String, String)>,
}

/// The mathematical shape of a collected record.
#[verifier::ext_equal]
pub struct MeasurementRecordV {
    pub fields: Seq<(Seq<char>, ValueV)>,
    pub tags: Seq<(Seq<char>, Seq<char>)>,
}

impl View for MeasurementRecord {
    type V = MeasurementRecordV;

    closed spec fn view(&self) -> MeasurementRecordV {
        MeasurementRecordV {
            fields: self.fields@.map_values(|p: (String, Value)| (p.0@, p.1@)),
            tags: self.tags@.map_values(|p: (String, String)| (p.0@, p.1@)),
        }
    }
}

impl MeasurementRecord {
    /// An empty collector.
    pub fn new() -> (r: Self)
        ensures
            r@.fields == Seq::<(Seq<char>, ValueV)>::empty(),
            r@.tags == Seq::<(Seq<char>, Seq<char>)>::empty(),
    {
        let r = MeasurementRecord { fields: Vec::new(), tags: Vec::new() };
        proof {
            assert(r@.fields =~= Seq::<(Seq<char>, ValueV)>::empty());
            assert(r@.tags =~= Seq::<(Seq<char>, Seq<char>)>::empty());
        }
        r
    }

    /// Adds a field pair.
    pub fn add_field(&mut self, key: &str, val: Value)
        ensures
            final(self)@.fields == old(self)@.fields.push((key@, val@)),
            final(self)@.tags == old(self)@.tags,
    {
        let ghost valv = val@;
        self.fields.push((key.to_owned(), val));
        proof {
            assert(self@.fields =~= old(self)@.fields.push((key@, valv)));
        }
    }

    /// Routes one pair: a tag-eligible key keeps it as a tag, any other
    /// key folds it into the fields as text.
    pub fn add_tag(&mut self, key: &str, val: String)
        ensures
            tag_eligible(key@) ==> final(self)@.tags == old(self)@.tags.push((key@, val@))
                && final(self)@.fields == old(self)@.fields,
            !tag_eligible(key@) ==> final(self)@.fields == old(self)@.fields.push(
                (key@, ValueV::Str(val@)),
            ) && final(self)@.tags == old(self)@.tags,
    {
        if str_eq(key, "exchange") || str_eq(key, "thread") || str_eq(key, "ticker") || str_eq(
            key,
            "category",
        ) {
            self.tags.push((key.to_owned(), val));
            proof {
                assert(self@.tags =~= old(self)@.tags.push((key@, val@)));
            }
        } else {
            self.add_field(key, Value::String(val));
        }
    }

    /// Builds the key-sorted measurement of this record: every collected
    /// field, then every collected tag, each at its key's ordered
    /// position with later pairs overwriting earlier ones of the same
    /// key, stamped with the current wall-clock time.
    pub fn to_measurement(&self, name: &str) -> (r: Measurement)
        ensures
            r.wf(),
            r@.key == name@,
            r@.timestamp is Some,
            r@.fields == inserted_all(Seq::<(Seq<char>, ValueV)>::empty(), self@.fields),
            r@.tags == inserted_all(Seq::<(Seq<char>, Seq<char>)>::empty(), self@.tags),
    {
        let mut m = Measurement::new(name);
        let ghost fieldsv = self@.fields;
        let mut i: usize = 0;
        proof {
            assert(fieldsv.take(0) =~= Seq::<(Seq<char>, ValueV)>::empty());
        }
        while i < self.fields.len()
            invariant
                i <= self.fields.len(),
                fieldsv == self@.fields,
                fieldsv.len() == self.fields.len(),
                m.wf(),
                m@.key == name@,
                m@.timestamp is None,
                m@.tags == Seq::<(Seq<char>, Seq<char>)>::empty(),
                m@.fields == inserted_all(
                    Seq::<(Seq<char>, ValueV)>::empty(),
                    fieldsv.take(i as int),
                ),
            decreases self.fields.len() - i,
        {
            proof {
                assert(fieldsv[i as int] == (self.fields@[i as int].0@, self.fields@[i as int].1@));
            }
            let v = self.fields[i].1.to_influent();
            m.add_field(self.fields[i].0.as_str(), v);
            proof {
                assert(fieldsv.take(i + 1).drop_last() =~= fieldsv.take(i as int));
                assert(fieldsv.take(i + 1).last() == fieldsv[i as int]);
            }
            i = i + 1;
        }
        proof {
            assert(fieldsv.take(fieldsv.len() as int) =~= fieldsv);
        }
        let ghost tagsv = self@.tags;
        let mut j: usize = 0;
        proof {
            assert(tagsv.take(0) =~= Seq::<(Seq<char>, Seq<char>)>::empty());
        }
        while j < self.tags.len()
            invariant
                j <= self.tags.len(),
                tagsv == self@.tags,
                tagsv.len() == self.tags.len(),
                m.wf(),
                m@.key == name@,
                m@.timestamp is None,
                m@.fields == inserted_all(Seq::<(Seq<char>, ValueV)>::empty(), self@.fields),
                m@.tags == inserted_all(
                    Seq::<(Seq<char>, Seq<char>)>::empty(),
                    tagsv.take(j as int),
                ),
            decreases self.tags.len() - j,
        {
            proof {
                assert(tagsv[j as int] == (self.tags@[j as int].0@, self.tags@[j as int].1@));
            }
            m.add_tag(self.tags[j].0.as_str(), self.tags[j].1.as_str());
            proof {
                assert(tagsv.take(j + 1).drop_last() =~= tagsv.take(j as int));
                assert(tagsv.take(j + 1).last() == tagsv[j as int]);
            }
            j = j + 1;
        }
        proof {
            assert(tagsv.take(tagsv.len() as int) =~= tagsv);
        }
        m.set_timestamp(influx::now());
        m
    }
}

/// Every entry of `entries` inserted into the key-sorted list `init`,
/// oldest first, so a later entry overwrites an earlier one of the same
/// key.
pub open spec fn inserted_all<V>(
    init: Seq<(Seq<char>, V)>,
    entries: Seq<(Seq<char>, V)>,
) -> Seq<(Seq<char>, V)>
    decreases entries.len(),
{
    if entries.len() == 0 {
        init
    } else {
        sorted_insert(
            inserted_all(init, entries.drop_last()),
            entries.last().0,
            entries.last().1,
        )
    }
}

/// A warning and the wall-clock time it was recorded at, in nanoseconds
/// since the Unix epoch.
#[derive(Debug, Clone)]
pub struct Record {
    pub time: i64,
    pub msg: Warning,
}

impl Record {
    /// Records a warning at the current wall-clock time.
    pub fn new(msg: Warning) -> (r: Self)
        ensures
            r.msg == msg,
    {
        let time = influx::now();
        Record { time, msg }
    }

    /// The measurement this record saves to the database: its category
    /// as a tag, its message as a field, its time as the timestamp.
    pub fn to_measurement(&self, name: &str) -> (r: Measurement)
        ensures
            r.wf(),
            r@.key == name@,
            r@.timestamp == Some(self.time),
            r@.tags == seq![("category"@, category_rep(self.msg))],
            r@.fields == seq![("msg"@, ValueV::Str(msg_str_rep(self.msg)))],
    {
        let cat = self.msg.category_str();
        let body = self.msg.msg_str();
        let mut m = Measurement::new(name);
        m.add_tag("category", cat);
        m.add_field("msg", LineValue::String(body.to_owned()));
        m.set_timestamp(self.time);
        proof {
            assert(m@.tags =~= seq![("category"@, category_rep(self.msg))]);
            assert(m@.fields =~= seq![("msg"@, ValueV::Str(msg_str_rep(self.msg)))]);
        }
        m
    }
}

/// The bounded in-memory history of recent warnings: the newest record
/// stands first, and past the bound the oldest fall off.
#[derive(Debug)]
pub struct WarningsHistory {
    records: VecDeque<Record>,
}

impl View for WarningsHistory {
    type V = Seq<Record>;

    closed spec fn view(&self) -> Seq<Record> {
        self.records@
    }
}

impl WarningsHistory {
    /// An empty history.
    pub fn new() -> (r: Self)
        ensures
            r@ == Seq::<Record>::empty(),
    {
        WarningsHistory { records: VecDeque::new() }
    }

    /// Puts the record first; when the history is full, the oldest
    /// record falls off.
    pub fn record(&mut self, r: Record)
        ensures
            old(self)@.len() < N_WARNINGS ==> final(self)@ == seq![r] + old(self)@,
            old(self)@.len() >= N_WARNINGS ==> final(self)@ == (seq![r] + old(self)@).take(
                N_WARNINGS as int,
            ),
    {
        self.records.push_front(r);
        if self.records.len() > N_WARNINGS {
            self.records.truncate(N_WARNINGS);
        }
    }

    /// How many records the history holds.
    pub fn len(&self) -> (n: usize)
        ensures
            n == self@.len(),
    {
        self.records.len()
    }

    /// The record at position `i`, the newest first.
    pub fn get(&self, i: usize) -> (r: &Record)
        requires
            i < self@.len(),
        ensures
            *r == self@[i as int],
    {
        &self.records[i]
    }
}

} // verus!
