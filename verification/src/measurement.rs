//! The key-sorted measurement and its serializer.
//!
//! The structured-log adapter assembles this general-purpose measurement
//! from arbitrary key/value pairs.  Unlike `OwnedMeasurement`, which
//! keeps insertion order and allows duplicate keys, this type keeps its
//! tags and fields sorted by key with unique keys, so its encode order
//! is lexicographic by key.  Its serializer also escapes identifiers by
//! backslash-escaping rather than by removal.

use vstd::prelude::*;

use crate::influx::as_boolean;
use crate::influx::as_string;
use crate::influx::bool_rep;
use crate::influx::escape;
use crate::influx::escape_value_rep;
use crate::influx::num_literal_rep;
use crate::influx::string_field_rep;
use crate::influx::NumericRepr;
use crate::numfmt::push_i64_dec;
use crate::numfmt::signed_dec_rep;
use crate::strbuf::push_char;
use crate::strbuf::push_str_chars;
use crate::strbuf::str_eq;

verus! {

/// Lexicographic order on key text, by unicode scalar value; a proper
/// prefix comes first.
pub open spec fn key_lt(a: Seq<char>, b: Seq<char>) -> bool
    decreases a.len(),
{
    if b.len() == 0 {
        false
    } else if a.len() == 0 {
        true
    } else if a[0] != b[0] {
        (a[0] as u32) < (b[0] as u32)
    } else {
        key_lt(a.drop_first(), b.drop_first())
    }
}

pub proof fn lemma_key_lt_irrefl(a: Seq<char>)
    ensures
        !key_lt(a, a),
    decreases a.len(),
{
    if a.len() > 0 {
        lemma_key_lt_irrefl(a.drop_first());
    }
}

pub proof fn lemma_key_lt_asym(a: Seq<char>, b: Seq<char>)
    requires
        key_lt(a, b),
    ensures
        !key_lt(b, a),
    decreases a.len(),
{
    if a.len() > 0 && b.len() > 0 && a[0] == b[0] {
        lemma_key_lt_asym(a.drop_first(), b.drop_first());
    }
}

pub proof fn lemma_key_lt_trans(a: Seq<char>, b: Seq<char>, c: Seq<char>)
    requires
        key_lt(a, b),
        key_lt(b, c),
    ensures
        key_lt(a, c),
    decreases a.len(),
{
    if a.len() > 0 && b.len() > 0 && c.len() > 0 && a[0] == b[0] && b[0] == c[0] {
        lemma_key_lt_trans(a.drop_first(), b.drop_first(), c.drop_first());
    }
}

pub proof fn lemma_key_lt_total(a: Seq<char>, b: Seq<char>)
    ensures
        key_lt(a, b) || key_lt(b, a) || a == b,
    decreases a.len(),
{
    if a.len() > 0 && b.len() > 0 {
        if a[0] == b[0] {
            lemma_key_lt_total(a.drop_first(), b.drop_first());
            if !key_lt(a, b) && !key_lt(b, a) {
                assert(a.drop_first() == b.drop_first());
                assert forall|i: int| 0 <= i < a.len() implies a[i] == b[i] by {
                    if i > 0 {
                        assert(a[i] == a.drop_first()[i - 1]);
                        assert(b[i] == b.drop_first()[i - 1]);
                    }
                }
                assert(a =~= b);
            }
        } else {
            vstd::utf8::char_u32_cast(a[0], a[0] as u32);
            vstd::utf8::char_u32_cast(b[0], b[0] as u32);
            assert((a[0] as u32) != (b[0] as u32));
        }
    }
}

/// Whether `a` and `b` are the same text under the key order, compared
/// character by character.
pub fn str_lt(a: &str, b: &str) -> (r: bool)
    ensures
        r == key_lt(a@, b@),
{
    let a_len = a.unicode_len();
    let b_len = b.unicode_len();
    let mut i: usize = 0;
    proof {
        assert(a@.skip(0) =~= a@);
        assert(b@.skip(0) =~= b@);
    }
    while i < a_len && i < b_len
        invariant
            i <= a_len,
            i <= b_len,
            a_len == a@.len(),
            b_len == b@.len(),
            key_lt(a@, b@) == key_lt(a@.skip(i as int), b@.skip(i as int)),
        decreases a_len - i,
    {
        let ca = a.get_char(i);
        let cb = b.get_char(i);
        proof {
            assert(a@.skip(i as int)[0] == a@[i as int]);
            assert(b@.skip(i as int)[0] == b@[i as int]);
        }
        if ca != cb {
            return (ca as u32) < (cb as u32);
        }
        proof {
            assert(a@.skip(i as int).drop_first() =~= a@.skip(i + 1));
            assert(b@.skip(i as int).drop_first() =~= b@.skip(i + 1));
        }
        i = i + 1;
    }
    proof {
        if i >= b_len {
            assert(b@.skip(i as int).len() == 0);
        } else {
            assert(a@.skip(i as int).len() == 0);
            assert(b@.skip(i as int).len() > 0);
        }
    }
    i < b_len
}

/// A typed field value of the key-sorted measurement.
#[derive(Debug, Clone, PartialEq)]
pub enum Value {
    /// Free-form text, written double-quoted with quotes escaped.
    String(String),
    /// A floating-point number, by its decimal rendering.
    Float(NumericRepr),
    /// A signed integer, written with a trailing `i` marker.
    Integer(i64),
    /// A boolean, written `t` or `f`.
    Boolean(bool),
}

/// The mathematical shape of a field value.
#[verifier::ext_equal]
pub enum ValueV {
    Str(Seq<char>),
    Float(Option<Seq<char>>),
    Int(i64),
    Bool(bool),
}

impl View for Value {
    type V = ValueV;

    open spec fn view(&self) -> ValueV {
        match self {
            Value::String(s) => ValueV::Str(s@),
            Value::Float(r) => ValueV::Float(r@),
            Value::Integer(i) => ValueV::Int(*i),
            Value::Boolean(b) => ValueV::Bool(*b),
        }
    }
}

/// The literal written for a field value.
pub open spec fn value_literal_rep(v: ValueV) -> Seq<char> {
    match v {
        ValueV::Str(s) => string_field_rep(s),
        ValueV::Float(r) => num_literal_rep(r),
        ValueV::Int(i) => signed_dec_rep(i as int) + seq!['i'],
        ValueV::Bool(b) => bool_rep(b),
    }
}

/// Whether the pairs are strictly sorted by key, so each key occurs
/// once.
pub open spec fn sorted_by_key<V>(s: Seq<(Seq<char>, V)>) -> bool {
    forall|i: int, j: int| 0 <= i < j < s.len() ==> key_lt(s[i].0, s[j].0)
}

/// Insertion into a key-sorted pair list: a pair with the same key has
/// its value replaced, any other pair lands at its ordered position.
pub open spec fn sorted_insert<V>(s: Seq<(Seq<char>, V)>, k: Seq<char>, v: V) -> Seq<
    (Seq<char>, V),
>
    decreases s.len(),
{
    if s.len() == 0 {
        seq![(k, v)]
    } else if key_lt(k, s[0].0) {
        seq![(k, v)] + s
    } else if k == s[0].0 {
        seq![(k, v)] + s.drop_first()
    } else {
        seq![s[0]] + sorted_insert(s.drop_first(), k, v)
    }
}

proof fn lemma_sorted_insert_lower_bound<V>(s: Seq<(Seq<char>, V)>, k: Seq<char>, v: V, lb: Seq<
    char,
>)
    requires
        key_lt(lb, k),
        forall|j: int| 0 <= j < s.len() ==> key_lt(lb, (#[trigger] s[j]).0),
    ensures
        forall|i: int|
            0 <= i < sorted_insert(s, k, v).len() ==> key_lt(lb, (#[trigger] sorted_insert(
                s,
                k,
                v,
            )[i]).0),
    decreases s.len(),
{
    let r = sorted_insert(s, k, v);
    if s.len() == 0 {
        assert forall|i: int| 0 <= i < r.len() implies key_lt(lb, r[i].0) by {
            assert(r[i] == (k, v));
        }
    } else if key_lt(k, s[0].0) {
        assert forall|i: int| 0 <= i < r.len() implies key_lt(lb, r[i].0) by {
            if i > 0 {
                assert(r[i] == s[i - 1]);
            }
        }
    } else if k == s[0].0 {
        assert forall|i: int| 0 <= i < r.len() implies key_lt(lb, r[i].0) by {
            if i > 0 {
                assert(r[i] == s.drop_first()[i - 1]);
                assert(s.drop_first()[i - 1] == s[i]);
            }
        }
    } else {
        assert(forall|j: int|
            0 <= j < s.drop_first().len() ==> key_lt(lb, (#[trigger] s.drop_first()[j]).0)) by {
            assert(forall|j: int|
                0 <= j < s.drop_first().len() ==> #[trigger] s.drop_first()[j] == s[j + 1]);
        }
        lemma_sorted_insert_lower_bound(s.drop_first(), k, v, lb);
        let rd = sorted_insert(s.drop_first(), k, v);
        assert forall|i: int| 0 <= i < r.len() implies key_lt(lb, r[i].0) by {
            if i > 0 {
                assert(r[i] == rd[i - 1]);
            }
        }
    }
}

pub proof fn lemma_sorted_insert_sorted<V>(s: Seq<(Seq<char>, V)>, k: Seq<char>, v: V)
    requires
        sorted_by_key(s),
    ensures
        sorted_by_key(sorted_insert(s, k, v)),
    decreases s.len(),
{
    let r = sorted_insert(s, k, v);
    if s.len() == 0 {
    } else if key_lt(k, s[0].0) {
        assert forall|i: int, j: int| 0 <= i < j < r.len() implies key_lt(r[i].0, r[j].0) by {
            if i == 0 {
                if j == 1 {
                } else {
                    lemma_key_lt_trans(k, s[0].0, s[j - 1].0);
                }
            }
        }
    } else if k == s[0].0 {
        assert forall|i: int, j: int| 0 <= i < j < r.len() implies key_lt(r[i].0, r[j].0) by {
            if i == 0 {
                assert(r[j].0 == s[j].0);
            } else {
                assert(r[i].0 == s[i].0 && r[j].0 == s[j].0);
            }
        }
    } else {
        lemma_key_lt_total(k, s[0].0);
        assert(key_lt(s[0].0, k));
        let d = s.drop_first();
        assert(sorted_by_key(d)) by {
            assert(forall|i: int, j: int|
                0 <= i < j < d.len() ==> (#[trigger] d[i], #[trigger] d[j]) == (
                s[i + 1],
                s[j + 1],
                ));
        }
        lemma_sorted_insert_sorted(d, k, v);
        assert(forall|j: int| 0 <= j < d.len() ==> key_lt(s[0].0, (#[trigger] d[j]).0));
        lemma_sorted_insert_lower_bound(d, k, v, s[0].0);
        let rd = sorted_insert(d, k, v);
        assert forall|i: int, j: int| 0 <= i < j < r.len() implies key_lt(r[i].0, r[j].0) by {
            if i == 0 {
                assert(r[j].0 == rd[j - 1].0);
            } else {
                assert(r[i].0 == rd[i - 1].0 && r[j].0 == rd[j - 1].0);
            }
        }
    }
}

proof fn lemma_sorted_insert_skip<V>(s: Seq<(Seq<char>, V)>, k: Seq<char>, v: V, i: int)
    requires
        0 <= i <= s.len(),
        forall|j: int| 0 <= j < i ==> key_lt((#[trigger] s[j]).0, k),
    ensures
        sorted_insert(s, k, v) == s.take(i) + sorted_insert(s.skip(i), k, v),
    decreases i,
{
    if i == 0 {
        assert(s.skip(0) =~= s);
        assert(s.take(0) + sorted_insert(s, k, v) =~= sorted_insert(s, k, v));
    } else {
        assert(key_lt(s[0].0, k));
        lemma_key_lt_asym(s[0].0, k);
        lemma_key_lt_irrefl(s[0].0);
        assert(k != s[0].0) by {
            if k == s[0].0 {
                assert(key_lt(s[0].0, s[0].0));
            }
        }
        let d = s.drop_first();
        assert(forall|j: int| 0 <= j < i - 1 ==> key_lt((#[trigger] d[j]).0, k));
        lemma_sorted_insert_skip(d, k, v, i - 1);
        assert(d.skip(i - 1) =~= s.skip(i));
        assert(s.take(i) =~= seq![s[0]] + d.take(i - 1));
        assert(sorted_insert(s, k, v) =~= s.take(i) + sorted_insert(s.skip(i), k, v));
    }
}

/// A measurement whose tags and fields are key-sorted maps: adding a
/// pair whose key is present replaces the value, and encode order is
/// lexicographic by key.
#[derive(Debug, Clone)]
pub struct Measurement {
    key: String,
    timestamp: Option<i64>,
    tags: Vec<(String, String)>,
    fields: Vec<(String, Value)>,
}

/// The mathematical shape of a key-sorted measurement.
#[verifier::ext_equal]
pub struct MeasurementV {
    pub key: Seq<char>,
    pub timestamp: Option<i64>,
    pub tags: Seq<(Seq<char>, Seq<char>)>,
    pub fields: Seq<(Seq<char>, ValueV)>,
}

impl View for Measurement {
    type V = MeasurementV;

    closed spec fn view(&self) -> MeasurementV {
        MeasurementV {
            key: self.key@,
            timestamp: self.timestamp,
            tags: self.tags@.map_values(|p: (String, String)| (p.0@, p.1@)),
            fields: self.fields@.map_values(|p: (String, Value)| (p.0@, p.1@)),
        }
    }
}

impl Measurement {
    /// Well-formed: both pair lists are strictly sorted by key.
    pub open spec fn wf(&self) -> bool {
        sorted_by_key(self@.tags) && sorted_by_key(self@.fields)
    }

    /// A new measurement with the given series name and no tags, fields
    /// or timestamp yet.
    pub fn new(key: &str) -> (r: Self)
        ensures
            r.wf(),
            r@.key == key@,
            r@.timestamp is None,
            r@.tags == Seq::<(Seq<char>, Seq<char>)>::empty(),
            r@.fields == Seq::<(Seq<char>, ValueV)>::empty(),
    {
        let r = Measurement { key: key.to_owned(), timestamp: None, tags: Vec::new(), fields: Vec::new() };
        proof {
            assert(r@.tags =~= Seq::<(Seq<char>, Seq<char>)>::empty());
            assert(r@.fields =~= Seq::<(Seq<char>, ValueV)>::empty());
        }
        r
    }

    /// Sets a tag: the pair lands at its key's ordered position, and an
    /// existing pair with the same key has its value replaced.
    pub fn add_tag(&mut self, key: &str, value: &str)
        requires
            old(self).wf(),
        ensures
            final(self).wf(),
            final(self)@.key == old(self)@.key,
            final(self)@.timestamp == old(self)@.timestamp,
            final(self)@.fields == old(self)@.fields,
            final(self)@.tags == sorted_insert(old(self)@.tags, key@, value@),
    {
        proof {
            lemma_sorted_insert_sorted(old(self)@.tags, key@, value@);
        }
        let n = self.tags.len();
        let mut i: usize = 0;
        while i < n && str_lt(self.tags[i].0.as_str(), key)
            invariant
                i <= n,
                n == self.tags.len(),
                *self == *old(self),
                forall|j: int| 0 <= j < i ==> key_lt((#[trigger] self@.tags[j]).0, key@),
            decreases n - i,
        {
            proof {
                assert(self@.tags[i as int].0 == self.tags@[i as int].0@);
            }
            i = i + 1;
        }
        proof {
            lemma_sorted_insert_skip(self@.tags, key@, value@, i as int);
            if i < n {
                assert(self@.tags[i as int].0 == self.tags@[i as int].0@);
            }
        }
        let pair = (key.to_owned(), value.to_owned());
        if i < n && str_eq(self.tags[i].0.as_str(), key) {
            proof {
                assert(self@.tags.skip(i as int)[0] == self@.tags[i as int]);
                lemma_key_lt_irrefl(key@);
            }
            self.tags.remove(i);
            self.tags.insert(i, pair);
            proof {
                assert(self@.tags =~= old(self)@.tags.take(i as int) + (seq![(key@, value@)]
                    + old(self)@.tags.skip(i as int).drop_first()));
            }
        } else {
            proof {
                let rest = old(self)@.tags.skip(i as int);
                if i < n {
                    assert(rest[0] == old(self)@.tags[i as int]);
                    lemma_key_lt_total(key@, rest[0].0);
                    assert(key_lt(key@, rest[0].0));
                } else {
                    assert(rest.len() == 0);
                }
            }
            self.tags.insert(i, pair);
            proof {
                assert(self@.tags =~= old(self)@.tags.take(i as int) + (seq![(key@, value@)]
                    + old(self)@.tags.skip(i as int)));
            }
        }
    }

    /// Sets a field: the pair lands at its key's ordered position, and
    /// an existing pair with the same key has its value replaced.
    pub fn add_field(&mut self, key: &str, value: Value)
        requires
            old(self).wf(),
        ensures
            final(self).wf(),
            final(self)@.key == old(self)@.key,
            final(self)@.timestamp == old(self)@.timestamp,
            final(self)@.tags == old(self)@.tags,
            final(self)@.fields == sorted_insert(old(self)@.fields, key@, value@),
    {
        let ghost valuev = value@;
        proof {
            lemma_sorted_insert_sorted(old(self)@.fields, key@, valuev);
        }
        let n = self.fields.len();
        let mut i: usize = 0;
        while i < n && str_lt(self.fields[i].0.as_str(), key)
            invariant
                i <= n,
                n == self.fields.len(),
                *self == *old(self),
                forall|j: int| 0 <= j < i ==> key_lt((#[trigger] self@.fields[j]).0, key@),
            decreases n - i,
        {
            proof {
                assert(self@.fields[i as int].0 == self.fields@[i as int].0@);
            }
            i = i + 1;
        }
        proof {
            lemma_sorted_insert_skip(self@.fields, key@, valuev, i as int);
            if i < n {
                assert(self@.fields[i as int].0 == self.fields@[i as int].0@);
            }
        }
        let pair = (key.to_owned(), value);
        if i < n && str_eq(self.fields[i].0.as_str(), key) {
            proof {
                assert(self@.fields.skip(i as int)[0] == self@.fields[i as int]);
                lemma_key_lt_irrefl(key@);
            }
            self.fields.remove(i);
            self.fields.insert(i, pair);
            proof {
                assert(self@.fields =~= old(self)@.fields.take(i as int) + (seq![(key@, valuev)]
                    + old(self)@.fields.skip(i as int).drop_first()));
            }
        } else {
            proof {
                let rest = old(self)@.fields.skip(i as int);
                if i < n {
                    assert(rest[0] == old(self)@.fields[i as int]);
                    lemma_key_lt_total(key@, rest[0].0);
                    assert(key_lt(key@, rest[0].0));
                } else {
                    assert(rest.len() == 0);
                }
            }
            self.fields.insert(i, pair);
            proof {
                assert(self@.fields =~= old(self)@.fields.take(i as int) + (seq![(key@, valuev)]
                    + old(self)@.fields.skip(i as int)));
            }
        }
    }

    /// Sets the timestamp, in nanoseconds since the Unix epoch.
    pub fn set_timestamp(&mut self, timestamp: i64)
        ensures
            final(self)@.key == old(self)@.key,
            final(self)@.timestamp == Some(timestamp),
            final(self)@.tags == old(self)@.tags,
            final(self)@.fields == old(self)@.fields,
            old(self).wf() ==> final(self).wf(),
    {
        self.timestamp = Some(timestamp);
    }
}

/// The text of one encoded tag of the key-sorted measurement: a leading
/// comma, then key and value, both backslash-escaped.
pub open spec fn kv_tag_rep(t: (Seq<char>, Seq<char>)) -> Seq<char> {
    seq![','] + escape_value_rep(t.0) + seq!['='] + escape_value_rep(t.1)
}

/// The text of the whole tag section, in stored (key-sorted) order.
pub open spec fn kv_tags_rep(tags: Seq<(Seq<char>, Seq<char>)>) -> Seq<char>
    decreases tags.len(),
{
    if tags.len() == 0 {
        Seq::empty()
    } else {
        kv_tags_rep(tags.drop_last()) + kv_tag_rep(tags.last())
    }
}

/// The text of one encoded field: a space before the first, a comma
/// before the others, the escaped key, an equals sign, the literal.
pub open spec fn kv_field_rep(f: (Seq<char>, ValueV), first: bool) -> Seq<char> {
    (if first {
        seq![' ']
    } else {
        seq![',']
    }) + escape_value_rep(f.0) + seq!['='] + value_literal_rep(f.1)
}

/// The text of the whole field section, in stored (key-sorted) order.
pub open spec fn kv_fields_rep(fields: Seq<(Seq<char>, ValueV)>) -> Seq<char>
    decreases fields.len(),
{
    if fields.len() == 0 {
        Seq::empty()
    } else {
        kv_fields_rep(fields.drop_last()) + kv_field_rep(fields.last(), fields.len() == 1)
    }
}

/// The complete encoded line of a key-sorted measurement.
pub open spec fn measurement_line_rep(m: MeasurementV) -> Seq<char> {
    escape_value_rep(m.key) + kv_tags_rep(m.tags) + kv_fields_rep(m.fields) + (match m.timestamp {
        Some(t) => seq![' '] + signed_dec_rep(t as int),
        None => Seq::<char>::empty(),
    })
}

fn push_value_literal(out: &mut String, value: &Value)
    ensures
        final(out)@ == old(out)@ + value_literal_rep(value@),
{
    match value {
        Value::String(s) => {
            let q = as_string(s.as_str());
            push_str_chars(out, q.as_str());
        },
        Value::Float(r) => {
            crate::influx::push_num_literal(out, r);
        },
        Value::Integer(i) => {
            push_i64_dec(out, *i);
            push_char(out, 'i');
            proof {
                assert(out@ =~= old(out)@ + (signed_dec_rep(*i as int) + seq!['i']));
            }
        },
        Value::Boolean(b) => {
            push_str_chars(out, as_boolean(b));
        },
    }
}

/// Serializes a key-sorted measurement as one line of the wire format
/// and appends it to `line`, leaving whatever the buffer already held in
/// place.
pub fn serialize(measurement: &Measurement, line: &mut String)
    ensures
        final(line)@ == old(line)@ + measurement_line_rep(measurement@),
{
    let key_esc = escape(measurement.key.as_str());
    push_str_chars(line, key_esc.as_str());

    let ghost tagsv = measurement@.tags;
    let mut i: usize = 0;
    proof {
        assert(tagsv.take(0) =~= Seq::<(Seq<char>, Seq<char>)>::empty());
    }
    while i < measurement.tags.len()
        invariant
            i <= measurement.tags.len(),
            tagsv == measurement@.tags,
            tagsv.len() == measurement.tags.len(),
            line@ == old(line)@ + escape_value_rep(measurement@.key) + kv_tags_rep(
                tagsv.take(i as int),
            ),
        decreases measurement.tags.len() - i,
    {
        proof {
            assert(tagsv[i as int] == (measurement.tags@[i as int].0@,
                measurement.tags@[i as int].1@));
        }
        push_char(line, ',');
        let k = escape(measurement.tags[i].0.as_str());
        push_str_chars(line, k.as_str());
        push_char(line, '=');
        let v = escape(measurement.tags[i].1.as_str());
        push_str_chars(line, v.as_str());
        proof {
            assert(tagsv.take(i + 1).drop_last() =~= tagsv.take(i as int));
            assert(tagsv.take(i + 1).last() == tagsv[i as int]);
            assert(line@ =~= old(line)@ + escape_value_rep(measurement@.key) + kv_tags_rep(
                tagsv.take(i + 1),
            ));
        }
        i = i + 1;
    }
    proof {
        assert(tagsv.take(tagsv.len() as int) =~= tagsv);
    }

    let ghost fieldsv = measurement@.fields;
    let ghost head = old(line)@ + escape_value_rep(measurement@.key) + kv_tags_rep(
        measurement@.tags,
    );
    let mut j: usize = 0;
    proof {
        assert(fieldsv.take(0) =~= Seq::<(Seq<char>, ValueV)>::empty());
        assert(line@ =~= head + kv_fields_rep(fieldsv.take(0)));
    }
    while j < measurement.fields.len()
        invariant
            j <= measurement.fields.len(),
            fieldsv == measurement@.fields,
            fieldsv.len() == measurement.fields.len(),
            line@ == head + kv_fields_rep(fieldsv.take(j as int)),
        decreases measurement.fields.len() - j,
    {
        proof {
            assert(fieldsv[j as int] == (measurement.fields@[j as int].0@,
                measurement.fields@[j as int].1@));
        }
        if j == 0 {
            push_char(line, ' ');
        } else {
            push_char(line, ',');
        }
        let k = escape(measurement.fields[j].0.as_str());
        push_str_chars(line, k.as_str());
        push_char(line, '=');
        push_value_literal(line, &measurement.fields[j].1);
        proof {
            assert(fieldsv.take(j + 1).drop_last() =~= fieldsv.take(j as int));
            assert(fieldsv.take(j + 1).last() == fieldsv[j as int]);
            assert(line@ =~= head + kv_fields_rep(fieldsv.take(j + 1)));
        }
        j = j + 1;
    }
    proof {
        assert(fieldsv.take(fieldsv.len() as int) =~= fieldsv);
    }

    match measurement.timestamp {
        Some(t) => {
            push_char(line, ' ');
            push_i64_dec(line, t);
            proof {
                assert(line@ =~= old(line)@ + measurement_line_rep(measurement@));
            }
        },
        None => {
            proof {
                assert(line@ =~= old(line)@ + measurement_line_rep(measurement@));
            }
        },
    }
}

} // verus!
