//! Measurements and the line-protocol encoder.
//!
//! A measurement is serialized as one line of text:
//! key, comma-separated tags, a space, comma-separated fields, and an
//! optional timestamp.  Two escaping regimes apply: identifiers (the
//! measurement key, tag keys, field keys) have space, comma and
//! double-quote *removed*; tag values have space and comma
//! backslash-escaped; string field values are wrapped in double quotes
//! with internal quotes backslash-escaped, and a pre-existing doubled
//! backslash-quote is collapsed so that re-encoding an already escaped
//! string never doubles the escape.

use vstd::prelude::*;

use crate::numfmt::digit_char;
use crate::numfmt::push_i64_dec;
use crate::numfmt::signed_dec_rep;
use crate::strbuf::push_char;
use crate::strbuf::push_str_chars;

verus! {

broadcast use vstd::string::group_string_axioms;

/// Characters that identifier escaping removes outright.
pub open spec fn removed_in_ident(c: char) -> bool {
    c == ' ' || c == ',' || c == '"'
}

/// Identifier escaping: offending characters are removed, not escaped.
pub open spec fn escape_tag_rep(s: Seq<char>) -> Seq<char>
    decreases s.len(),
{
    if s.len() == 0 {
        Seq::empty()
    } else {
        (if removed_in_ident(s[0]) {
            Seq::<char>::empty()
        } else {
            seq![s[0]]
        }) + escape_tag_rep(s.drop_first())
    }
}

/// Tag-value escaping: space and comma gain a backslash; double quotes
/// pass through unchanged.
pub open spec fn escape_value_rep(s: Seq<char>) -> Seq<char>
    decreases s.len(),
{
    if s.len() == 0 {
        Seq::empty()
    } else {
        (if s[0] == ' ' || s[0] == ',' {
            seq!['\\', s[0]]
        } else {
            seq![s[0]]
        }) + escape_value_rep(s.drop_first())
    }
}

pub proof fn lemma_escape_tag_rep_app(a: Seq<char>, b: Seq<char>)
    ensures
        escape_tag_rep(a + b) == escape_tag_rep(a) + escape_tag_rep(b),
    decreases a.len(),
{
    if a.len() == 0 {
        assert(a + b =~= b);
        assert(escape_tag_rep(a) + escape_tag_rep(b) =~= escape_tag_rep(b));
    } else {
        lemma_escape_tag_rep_app(a.drop_first(), b);
        assert((a + b).drop_first() =~= a.drop_first() + b);
        assert(escape_tag_rep(a + b) =~= escape_tag_rep(a) + escape_tag_rep(b));
    }
}

pub proof fn lemma_escape_value_rep_app(a: Seq<char>, b: Seq<char>)
    ensures
        escape_value_rep(a + b) == escape_value_rep(a) + escape_value_rep(b),
    decreases a.len(),
{
    if a.len() == 0 {
        assert(a + b =~= b);
        assert(escape_value_rep(a) + escape_value_rep(b) =~= escape_value_rep(b));
    } else {
        lemma_escape_value_rep_app(a.drop_first(), b);
        assert((a + b).drop_first() =~= a.drop_first() + b);
        assert(escape_value_rep(a + b) =~= escape_value_rep(a) + escape_value_rep(b));
    }
}

/// Removes space, comma and double-quote from an identifier, rather than
/// escaping them.
pub fn escape_tag(s: &str) -> (r: String)
    ensures
        r@ == escape_tag_rep(s@),
{
    let mut out = String::new();
    for c in it: s.chars()
        invariant
            it.seq() == s@,
            out@ == escape_tag_rep(s@.take(it.index() as int)),
    {
        proof {
            let i = it.index();
            assert(s@.take(i + 1).drop_last() =~= s@.take(i));
            lemma_escape_tag_rep_app(s@.take(i), seq![s@[i]]);
            assert(s@.take(i) + seq![s@[i]] =~= s@.take(i + 1));
        }
        if !(c == ' ' || c == ',' || c == '"') {
            push_char(&mut out, c);
        }
        proof {
            let i = it.index();
            reveal_with_fuel(escape_tag_rep, 2);
            assert(seq![s@[i]].drop_first() =~= Seq::<char>::empty());
            assert(out@ =~= escape_tag_rep(s@.take(i + 1)));
        }
    }
    proof {
        assert(s@.take(s@.len() as int) =~= s@);
    }
    out
}

/// Backslash-escapes space and comma in a tag value; double quotes are
/// left as they are.
pub fn escape(s: &str) -> (r: String)
    ensures
        r@ == escape_value_rep(s@),
{
    let mut out = String::new();
    for c in it: s.chars()
        invariant
            it.seq() == s@,
            out@ == escape_value_rep(s@.take(it.index() as int)),
    {
        proof {
            let i = it.index();
            assert(s@.take(i + 1).drop_last() =~= s@.take(i));
            lemma_escape_value_rep_app(s@.take(i), seq![s@[i]]);
            assert(s@.take(i) + seq![s@[i]] =~= s@.take(i + 1));
        }
        if c == ' ' || c == ',' {
            push_char(&mut out, '\\');
            push_char(&mut out, c);
        } else {
            push_char(&mut out, c);
        }
        proof {
            let i = it.index();
            reveal_with_fuel(escape_value_rep, 2);
            assert(seq![s@[i]].drop_first() =~= Seq::<char>::empty());
            assert(out@ =~= escape_value_rep(s@.take(i + 1)));
        }
    }
    proof {
        assert(s@.take(s@.len() as int) =~= s@);
    }
    out
}

/// String-field quote escaping: a backslash is inserted before every
/// double quote.
pub open spec fn esc_quotes_rep(s: Seq<char>) -> Seq<char>
    decreases s.len(),
{
    if s.len() == 0 {
        Seq::empty()
    } else {
        (if s[0] == '"' {
            seq!['\\', '"']
        } else {
            seq![s[0]]
        }) + esc_quotes_rep(s.drop_first())
    }
}

/// One left-to-right pass over the quote-escaped text replacing every
/// doubled escape `\\"` by the single escape `\"`.
pub open spec fn collapse_rep(s: Seq<char>) -> Seq<char>
    decreases s.len(),
{
    if s.len() >= 3 && s[0] == '\\' && s[1] == '\\' && s[2] == '"' {
        seq!['\\', '"'] + collapse_rep(s.skip(3))
    } else if s.len() == 0 {
        Seq::empty()
    } else {
        seq![s[0]] + collapse_rep(s.drop_first())
    }
}

/// The full text of a string field value: quoted, with quotes escaped
/// and doubled escapes collapsed.
pub open spec fn string_field_rep(s: Seq<char>) -> Seq<char> {
    seq!['"'] + collapse_rep(esc_quotes_rep(s)) + seq!['"']
}

pub proof fn lemma_esc_quotes_rep_app(a: Seq<char>, b: Seq<char>)
    ensures
        esc_quotes_rep(a + b) == esc_quotes_rep(a) + esc_quotes_rep(b),
    decreases a.len(),
{
    if a.len() == 0 {
        assert(a + b =~= b);
        assert(esc_quotes_rep(a) + esc_quotes_rep(b) =~= esc_quotes_rep(b));
    } else {
        lemma_esc_quotes_rep_app(a.drop_first(), b);
        assert((a + b).drop_first() =~= a.drop_first() + b);
        assert(esc_quotes_rep(a + b) =~= esc_quotes_rep(a) + esc_quotes_rep(b));
    }
}

/// Quotes a string field value, escaping the double quotes inside it;
/// the second pass removes doubled escapes, so text that arrives already
/// escaped is not escaped twice.
pub fn as_string(s: &str) -> (r: String)
    ensures
        r@ == string_field_rep(s@),
{
    let mut t: Vec<char> = Vec::new();
    for c in it: s.chars()
        invariant
            it.seq() == s@,
            t@ == esc_quotes_rep(s@.take(it.index() as int)),
    {
        proof {
            let i = it.index();
            lemma_esc_quotes_rep_app(s@.take(i), seq![s@[i]]);
            assert(s@.take(i) + seq![s@[i]] =~= s@.take(i + 1));
        }
        if c == '"' {
            t.push('\\');
            t.push('"');
        } else {
            t.push(c);
        }
        proof {
            let i = it.index();
            reveal_with_fuel(esc_quotes_rep, 2);
            assert(seq![s@[i]].drop_first() =~= Seq::<char>::empty());
            assert(t@ =~= esc_quotes_rep(s@.take(i + 1)));
        }
    }
    proof {
        assert(s@.take(s@.len() as int) =~= s@);
    }
    let mut out = String::new();
    push_char(&mut out, '"');
    let ghost mid = out@;
    let mut i: usize = 0;
    proof {
        assert(t@.skip(0) =~= t@);
    }
    while i < t.len()
        invariant
            i <= t@.len(),
            mid + collapse_rep(t@) == out@ + collapse_rep(t@.skip(i as int)),
        decreases t@.len() - i,
    {
        if t.len() - i >= 3 && t[i] == '\\' && t[i + 1] == '\\' && t[i + 2] == '"' {
            proof {
                assert(t@.skip(i as int).skip(3) =~= t@.skip(i + 3));
            }
            push_char(&mut out, '\\');
            push_char(&mut out, '"');
            i = i + 3;
        } else {
            proof {
                assert(t@.skip(i as int).drop_first() =~= t@.skip(i + 1));
                assert(t@.skip(i as int)[0] == t@[i as int]);
            }
            push_char(&mut out, t[i]);
            i = i + 1;
        }
    }
    proof {
        assert(t@.skip(t@.len() as int) =~= Seq::<char>::empty());
        assert(out@ =~= mid + collapse_rep(t@));
    }
    push_char(&mut out, '"');
    proof {
        assert(out@ =~= string_field_rep(s@));
    }
    out
}

/// The text of a boolean field value.
pub open spec fn bool_rep(b: bool) -> Seq<char> {
    if b {
        seq!['t']
    } else {
        seq!['f']
    }
}

/// Renders an integer field value: the decimal digits with a trailing
/// type marker.
pub fn as_integer(i: &i64) -> (r: String)
    ensures
        r@ == signed_dec_rep(*i as int) + seq!['i'],
{
    let mut out = String::new();
    push_i64_dec(&mut out, *i);
    push_char(&mut out, 'i');
    proof {
        assert(out@ =~= signed_dec_rep(*i as int) + seq!['i']);
    }
    out
}

/// Identifier escaping changes nothing on a name that is already free of
/// space, comma and double quote.
pub proof fn lemma_escape_tag_clean_identity(s: Seq<char>)
    requires
        forall|i: int| 0 <= i < s.len() ==> !removed_in_ident(#[trigger] s[i]),
    ensures
        escape_tag_rep(s) == s,
    decreases s.len(),
{
    if s.len() == 0 {
        assert(escape_tag_rep(s) =~= s);
    } else {
        let d = s.drop_first();
        assert(forall|i: int| 0 <= i < d.len() ==> !removed_in_ident(#[trigger] d[i]));
        lemma_escape_tag_clean_identity(d);
        assert(escape_tag_rep(s) =~= s);
    }
}

/// Identifier escaping only removes the offending characters, so its
/// output never contains one.
pub proof fn lemma_escape_tag_output_clean(s: Seq<char>)
    ensures
        forall|i: int|
            0 <= i < escape_tag_rep(s).len() ==> !removed_in_ident(
                #[trigger] escape_tag_rep(s)[i],
            ),
    decreases s.len(),
{
    if s.len() > 0 {
        lemma_escape_tag_output_clean(s.drop_first());
        let h = if removed_in_ident(s[0]) {
            Seq::<char>::empty()
        } else {
            seq![s[0]]
        };
        let rest = escape_tag_rep(s.drop_first());
        assert(escape_tag_rep(s) == h + rest);
        assert forall|i: int|
            0 <= i < escape_tag_rep(s).len() implies !removed_in_ident(
            #[trigger] escape_tag_rep(s)[i],
        ) by {
            if i < h.len() {
                assert(escape_tag_rep(s)[i] == s[0]);
            } else {
                assert(escape_tag_rep(s)[i] == rest[i - h.len()]);
            }
        }
    }
}

/// Identifier escaping is idempotent: escaping an already escaped
/// identifier gives it back unchanged.
pub proof fn lemma_escape_tag_idempotent(s: Seq<char>)
    ensures
        escape_tag_rep(escape_tag_rep(s)) == escape_tag_rep(s),
{
    lemma_escape_tag_output_clean(s);
    lemma_escape_tag_clean_identity(escape_tag_rep(s));
}

/// Whether every double quote in `s` is immediately preceded by a
/// backslash, i.e. the text is already quote-escaped.
pub open spec fn quotes_escaped(s: Seq<char>) -> bool {
    forall|i: int| 0 <= i < s.len() && #[trigger] s[i] == '"' ==> i > 0 && s[i - 1] == '\\'
}

proof fn lemma_esc_quotes_head(t: Seq<char>)
    ensures
        t.len() > 0 ==> esc_quotes_rep(t).len() > 0,
        t.len() > 0 ==> esc_quotes_rep(t)[0] == (if t[0] == '"' {
            '\\'
        } else {
            t[0]
        }),
{
    if t.len() > 0 {
        assert(esc_quotes_rep(t) == (if t[0] == '"' {
            seq!['\\', '"']
        } else {
            seq![t[0]]
        }) + esc_quotes_rep(t.drop_first()));
    }
}

/// On text whose quotes are already escaped, the collapse pass undoes
/// the quote-escaping pass exactly.
pub proof fn lemma_collapse_esc_quotes_identity(s: Seq<char>)
    requires
        quotes_escaped(s),
    ensures
        collapse_rep(esc_quotes_rep(s)) == s,
    decreases s.len(),
{
    let e = esc_quotes_rep(s);
    if s.len() == 0 {
        assert(collapse_rep(e) =~= s);
    } else if s[0] != '\\' {
        // a quote cannot stand first, so the head passes through
        assert(s[0] != '"');
        let d = s.drop_first();
        assert(e =~= seq![s[0]] + esc_quotes_rep(d));
        assert forall|j: int| 0 <= j < d.len() && #[trigger] d[j] == '"' implies j > 0 && d[j - 1]
            == '\\' by {
            assert(d[j] == s[j + 1]);
            if j > 0 {
                assert(d[j - 1] == s[j]);
            }
        }
        lemma_collapse_esc_quotes_identity(d);
        assert(e.drop_first() =~= esc_quotes_rep(d));
        assert(collapse_rep(e) =~= seq![s[0]] + d);
        assert(seq![s[0]] + d =~= s);
    } else if s.len() == 1 {
        reveal_with_fuel(esc_quotes_rep, 2);
        reveal_with_fuel(collapse_rep, 2);
        assert(s.drop_first() =~= Seq::<char>::empty());
        assert(e =~= seq!['\\']);
        assert(collapse_rep(e) =~= s);
    } else if s[1] == '"' {
        // the escaped pair gains one backslash and the collapse removes it
        let d2 = s.skip(2);
        let d1 = s.drop_first();
        assert(d1.drop_first() =~= d2);
        assert(esc_quotes_rep(d1) =~= seq!['\\', '"'] + esc_quotes_rep(d2));
        assert(e =~= seq!['\\', '\\', '"'] + esc_quotes_rep(d2));
        assert forall|j: int| 0 <= j < d2.len() && #[trigger] d2[j] == '"' implies j > 0 && d2[j
            - 1] == '\\' by {
            assert(d2[j] == s[j + 2]);
            if j > 0 {
                assert(d2[j - 1] == s[j + 1]);
            }
        }
        lemma_collapse_esc_quotes_identity(d2);
        assert(e.skip(3) =~= esc_quotes_rep(d2));
        assert(collapse_rep(e) =~= seq!['\\', '"'] + d2);
        assert(seq!['\\', '"'] + d2 =~= s);
    } else {
        // a backslash not followed by a quote passes through: the three
        // characters that open the collapse pattern never line up
        let d1 = s.drop_first();
        assert(d1[0] == s[1]);
        assert(e =~= seq!['\\'] + esc_quotes_rep(d1));
        lemma_esc_quotes_head(d1);
        if s[1] == '\\' {
            let d2 = d1.drop_first();
            assert(esc_quotes_rep(d1) =~= seq!['\\'] + esc_quotes_rep(d2));
            lemma_esc_quotes_head(d2);
            if d2.len() == 0 {
                assert(e.len() == 2);
            } else {
                assert(e[2] == esc_quotes_rep(d2)[0]);
                assert(e[2] != '"');
            }
        } else {
            assert(e[1] == s[1]);
            assert(e[1] != '\\');
        }
        assert(!(e.len() >= 3 && e[0] == '\\' && e[1] == '\\' && e[2] == '"'));
        assert forall|j: int| 0 <= j < d1.len() && #[trigger] d1[j] == '"' implies j > 0 && d1[j
            - 1] == '\\' by {
            assert(d1[j] == s[j + 1]);
            if j > 0 {
                assert(d1[j - 1] == s[j]);
            }
        }
        lemma_collapse_esc_quotes_identity(d1);
        assert(e.drop_first() =~= esc_quotes_rep(d1));
        assert(collapse_rep(e) =~= seq![s[0]] + d1);
        assert(seq![s[0]] + d1 =~= s);
    }
}

/// String-field escaping never double-escapes: encoding a value whose
/// quotes are already backslash-escaped yields exactly that value
/// wrapped in double quotes, with one level of escaping.
pub proof fn lemma_string_field_no_double_escape(s: Seq<char>)
    requires
        quotes_escaped(s),
    ensures
        string_field_rep(s) == seq!['"'] + s + seq!['"'],
{
    lemma_collapse_esc_quotes_identity(s);
}

/// Renders a boolean field value.
pub fn as_boolean(b: &bool) -> (r: &str)
    ensures
        r@ == bool_rep(*b),
{
    proof {
        reveal_strlit("t");
        reveal_strlit("f");
        assert("t"@ =~= seq!['t']);
        assert("f"@ =~= seq!['f']);
    }
    if *b {
        "t"
    } else {
        "f"
    }
}

/// Conversion into `i64` for every type the measurement builders accept,
/// written out so that only intended numeric types can be passed where a
/// count or timestamp is expected.
pub trait AsI64: Sized {
    /// What the conversion yields.
    spec fn as_i64_rep(x: Self) -> i64;

    /// Converts the value to a signed 64-bit integer.
    fn as_i64(x: Self) -> (r: i64)
        ensures
            r == Self::as_i64_rep(x),
    ;
}

impl AsI64 for i64 {
    open spec fn as_i64_rep(x: Self) -> i64 {
        x
    }

    fn as_i64(x: Self) -> i64 {
        x
    }
}

impl AsI64 for i32 {
    open spec fn as_i64_rep(x: Self) -> i64 {
        x as i64
    }

    fn as_i64(x: Self) -> i64 {
        x as i64
    }
}

impl AsI64 for u32 {
    open spec fn as_i64_rep(x: Self) -> i64 {
        x as i64
    }

    fn as_i64(x: Self) -> i64 {
        x as i64
    }
}

impl AsI64 for u64 {
    open spec fn as_i64_rep(x: Self) -> i64 {
        x as i64
    }

    fn as_i64(x: Self) -> i64 {
        x as i64
    }
}

impl AsI64 for usize {
    open spec fn as_i64_rep(x: Self) -> i64 {
        x as i64
    }

    fn as_i64(x: Self) -> i64 {
        x as i64
    }
}

impl AsI64 for u16 {
    open spec fn as_i64_rep(x: Self) -> i64 {
        x as i64
    }

    fn as_i64(x: Self) -> i64 {
        x as i64
    }
}

impl AsI64 for i16 {
    open spec fn as_i64_rep(x: Self) -> i64 {
        x as i64
    }

    fn as_i64(x: Self) -> i64 {
        x as i64
    }
}

impl AsI64 for u8 {
    open spec fn as_i64_rep(x: Self) -> i64 {
        x as i64
    }

    fn as_i64(x: Self) -> i64 {
        x as i64
    }
}

impl AsI64 for i8 {
    open spec fn as_i64_rep(x: Self) -> i64 {
        x as i64
    }

    fn as_i64(x: Self) -> i64 {
        x as i64
    }
}

/// The rendering of a floating-point or fixed-precision decimal field
/// value.  The writer does not compute with such numbers itself: a value
/// arrives carrying its decimal rendering, made where the number is made,
/// together with whether the number is finite.  A non-finite value is
/// normalized to a literal zero at encoding time rather than propagated.
#[derive(Debug, Clone, PartialEq)]
pub enum NumericRepr {
    /// A finite number and its plain decimal rendering.
    Finite(String),
    /// Not a number, or positive or negative infinity.
    NonFinite,
}

impl View for NumericRepr {
    type V = Option<Seq<char>>;

    open spec fn view(&self) -> Option<Seq<char>> {
        match self {
            NumericRepr::Finite(t) => Some(t@),
            NumericRepr::NonFinite => None,
        }
    }
}

/// The literal written for a numeric field value: its rendering when
/// finite, a literal zero otherwise.
pub open spec fn num_literal_rep(r: Option<Seq<char>>) -> Seq<char> {
    match r {
        Some(t) => t,
        None => seq!['0', '.', '0'],
    }
}

/// A typed field value of a measurement.
#[derive(Debug, Clone, PartialEq)]
pub enum OwnedValue {
    /// Free-form text, written double-quoted with quotes escaped.
    String(String),
    /// A floating-point number, by its decimal rendering.
    Float(NumericRepr),
    /// A signed integer, written with a trailing `i` marker.
    Integer(i64),
    /// A boolean, written `t` or `f`.
    Boolean(bool),
    /// A fixed-precision decimal number, by its decimal rendering.
    D128(NumericRepr),
    /// A universally unique identifier, by its sixteen bytes, written as
    /// the double-quoted canonical hyphenated hexadecimal text.
    Uuid([u8; 16]),
}

/// The mathematical shape of a field value.
#[verifier::ext_equal]
pub enum OwnedValueV {
    Str(Seq<char>),
    Float(Option<Seq<char>>),
    Int(i64),
    Bool(bool),
    Dec(Option<Seq<char>>),
    Uuid(Seq<u8>),
}

impl View for OwnedValue {
    type V = OwnedValueV;

    open spec fn view(&self) -> OwnedValueV {
        match self {
            OwnedValue::String(s) => OwnedValueV::Str(s@),
            OwnedValue::Float(r) => OwnedValueV::Float(r@),
            OwnedValue::Integer(i) => OwnedValueV::Int(*i),
            OwnedValue::Boolean(b) => OwnedValueV::Bool(*b),
            OwnedValue::D128(r) => OwnedValueV::Dec(r@),
            OwnedValue::Uuid(b) => OwnedValueV::Uuid(b@),
        }
    }
}

/// The character for a single hexadecimal digit, lower case.
pub open spec fn hex_char(d: int) -> char {
    if d < 10 {
        digit_char(d)
    } else if d == 10 {
        'a'
    } else if d == 11 {
        'b'
    } else if d == 12 {
        'c'
    } else if d == 13 {
        'd'
    } else if d == 14 {
        'e'
    } else {
        'f'
    }
}

/// Two hexadecimal digits of one byte.
pub open spec fn byte_hex_rep(b: u8) -> Seq<char> {
    seq![hex_char(b as int / 16), hex_char(b as int % 16)]
}

/// The hexadecimal text of a byte string.
pub open spec fn hex_rep(bs: Seq<u8>) -> Seq<char>
    decreases bs.len(),
{
    if bs.len() == 0 {
        Seq::empty()
    } else {
        byte_hex_rep(bs[0]) + hex_rep(bs.drop_first())
    }
}

/// The canonical hyphenated text of a sixteen-byte unique identifier:
/// five hexadecimal groups of 8, 4, 4, 4 and 12 digits.
pub open spec fn uuid_rep(bs: Seq<u8>) -> Seq<char> {
    hex_rep(bs.subrange(0, 4)) + seq!['-'] + hex_rep(bs.subrange(4, 6)) + seq!['-'] + hex_rep(
        bs.subrange(6, 8),
    ) + seq!['-'] + hex_rep(bs.subrange(8, 10)) + seq!['-'] + hex_rep(bs.subrange(10, 16))
}

/// The literal written for a field value.
pub open spec fn field_literal_rep(v: OwnedValueV) -> Seq<char> {
    match v {
        OwnedValueV::Str(s) => string_field_rep(s),
        OwnedValueV::Float(r) => num_literal_rep(r),
        OwnedValueV::Int(i) => signed_dec_rep(i as int) + seq!['i'],
        OwnedValueV::Bool(b) => bool_rep(b),
        OwnedValueV::Dec(r) => num_literal_rep(r),
        OwnedValueV::Uuid(bs) => seq!['"'] + uuid_rep(bs) + seq!['"'],
    }
}

/// The position of the first pair whose key is `k`, or `-1` when no key
/// matches.
pub open spec fn index_of_key(keys: Seq<Seq<char>>, k: Seq<char>) -> int
    decreases keys.len(),
{
    if keys.len() == 0 {
        -1
    } else if keys[0] == k {
        0
    } else {
        let r = index_of_key(keys.drop_first(), k);
        if r < 0 {
            -1
        } else {
            r + 1
        }
    }
}

pub proof fn lemma_index_of_key_props(keys: Seq<Seq<char>>, k: Seq<char>)
    ensures
        index_of_key(keys, k) == -1 ==> forall|j: int| 0 <= j < keys.len() ==> keys[j] != k,
        index_of_key(keys, k) >= 0 ==> 0 <= index_of_key(keys, k) < keys.len() && keys[index_of_key(
            keys,
            k,
        )] == k && (forall|j: int| 0 <= j < index_of_key(keys, k) ==> keys[j] != k),
    decreases keys.len(),
{
    if keys.len() > 0 && keys[0] != k {
        let d = keys.drop_first();
        lemma_index_of_key_props(d, k);
        let r = index_of_key(d, k);
        if r < 0 {
            assert forall|j: int| 0 <= j < keys.len() implies keys[j] != k by {
                if j > 0 {
                    assert(d[j - 1] == keys[j]);
                }
            }
        } else {
            assert(keys[r + 1] == d[r]);
            assert forall|j: int| 0 <= j < r + 1 implies keys[j] != k by {
                if j > 0 {
                    assert(d[j - 1] == keys[j]);
                }
            }
        }
    }
}

/// A measurement in transit to the writer: a key, tags and fields in
/// insertion order, and an optional timestamp in nanoseconds.
///
/// Tags and fields keep the order they were added in, and duplicate keys
/// are allowed; `set_tag` alone replaces the first matching entry.
#[derive(Debug, Clone)]
pub struct OwnedMeasurement {
    /// The series name.
    pub key: String,
    /// Nanoseconds since the Unix epoch; stamped by the writer at dequeue
    /// time when absent.
    pub timestamp: Option<i64>,
    /// The typed field values, in insertion order.
    pub fields: Vec<(String, OwnedValue)>,
    /// The tag pairs, in insertion order.
    pub tags: Vec<(String, String)>,
}

/// The mathematical shape of a measurement.
#[verifier::ext_equal]
pub struct OwnedMeasurementV {
    pub key: Seq<char>,
    pub timestamp: Option<i64>,
    pub fields: Seq<(Seq<char>, OwnedValueV)>,
    pub tags: Seq<(Seq<char>, Seq<char>)>,
}

impl View for OwnedMeasurement {
    type V = OwnedMeasurementV;

    open spec fn view(&self) -> OwnedMeasurementV {
        OwnedMeasurementV {
            key: self.key@,
            timestamp: self.timestamp,
            fields: self.fields@.map_values(|p: (String, OwnedValue)| (p.0@, p.1@)),
            tags: self.tags@.map_values(|p: (String, String)| (p.0@, p.1@)),
        }
    }
}

/// The keys of a tag list, in order.
pub open spec fn tag_keys(tags: Seq<(Seq<char>, Seq<char>)>) -> Seq<Seq<char>> {
    tags.map_values(|p: (Seq<char>, Seq<char>)| p.0)
}

/// The keys of a field list, in order.
pub open spec fn field_keys(fields: Seq<(Seq<char>, OwnedValueV)>) -> Seq<Seq<char>> {
    fields.map_values(|p: (Seq<char>, OwnedValueV)| p.0)
}

impl OwnedMeasurement {
    /// A new measurement with the given series name and room reserved
    /// for the expected number of tags and fields.
    pub fn with_capacity(key: &str, n_tags: usize, n_fields: usize) -> (r: Self)
        ensures
            r@.key == key@,
            r@.timestamp is None,
            r@.tags == Seq::<(Seq<char>, Seq<char>)>::empty(),
            r@.fields == Seq::<(Seq<char>, OwnedValueV)>::empty(),
    {
        let r = OwnedMeasurement {
            key: key.to_owned(),
            timestamp: None,
            tags: Vec::with_capacity(n_tags),
            fields: Vec::with_capacity(n_fields),
        };
        proof {
            assert(r@.tags =~= Seq::<(Seq<char>, Seq<char>)>::empty());
            assert(r@.fields =~= Seq::<(Seq<char>, OwnedValueV)>::empty());
        }
        r
    }

    /// A new measurement with the given series name and no tags, fields
    /// or timestamp yet.
    pub fn new(key: &str) -> (r: Self)
        ensures
            r@.key == key@,
            r@.timestamp is None,
            r@.tags == Seq::<(Seq<char>, Seq<char>)>::empty(),
            r@.fields == Seq::<(Seq<char>, OwnedValueV)>::empty(),
    {
        Self::with_capacity(key, 0, 0)
    }

    /// Appends a tag pair; an existing pair with the same key is kept,
    /// the new one is added after it.  Consumes and returns `self` so
    /// that calls chain.
    pub fn add_tag(self, key: &str, value: &str) -> (r: Self)
        ensures
            r@.key == self@.key,
            r@.timestamp == self@.timestamp,
            r@.fields == self@.fields,
            r@.tags == self@.tags.push((key@, value@)),
    {
        let mut m = self;
        m.tags.push((key.to_owned(), value.to_owned()));
        proof {
            assert(m@.tags =~= self@.tags.push((key@, value@)));
        }
        m
    }

    /// Appends a field pair.  Consumes and returns `self` so that calls
    /// chain.
    pub fn add_field(self, key: &str, value: OwnedValue) -> (r: Self)
        ensures
            r@.key == self@.key,
            r@.timestamp == self@.timestamp,
            r@.tags == self@.tags,
            r@.fields == self@.fields.push((key@, value@)),
    {
        let ghost valuev = value@;
        let mut m = self;
        m.fields.push((key.to_owned(), value));
        proof {
            assert(m@.fields =~= self@.fields.push((key@, valuev)));
        }
        m
    }

    /// Sets the timestamp, in nanoseconds since the Unix epoch.
    pub fn set_timestamp(self, timestamp: i64) -> (r: Self)
        ensures
            r@.key == self@.key,
            r@.timestamp == Some(timestamp),
            r@.tags == self@.tags,
            r@.fields == self@.fields,
    {
        let mut m = self;
        m.timestamp = Some(timestamp);
        m
    }

    /// Sets a tag: the first pair with this key has its value replaced
    /// in place; when no pair matches, the pair is appended.
    pub fn set_tag(self, key: &str, value: &str) -> (r: Self)
        ensures
            ({
                let idx = index_of_key(tag_keys(self@.tags), key@);
                &&& r@.key == self@.key
                &&& r@.timestamp == self@.timestamp
                &&& r@.fields == self@.fields
                &&& idx == -1 ==> r@.tags == self@.tags.push((key@, value@))
                &&& idx >= 0 ==> r@.tags == self@.tags.update(idx, (key@, value@))
            }),
    {
        proof {
            lemma_index_of_key_props(tag_keys(self@.tags), key@);
        }
        let ghost idx = index_of_key(tag_keys(self@.tags), key@);
        let mut i: usize = 0;
        let n = self.tags.len();
        let mut m = self;
        while i < n
            invariant
                n == m.tags.len(),
                i <= n,
                m == self,
                idx == index_of_key(tag_keys(self@.tags), key@),
                forall|j: int| 0 <= j < i ==> tag_keys(self@.tags)[j] != key@,
            decreases n - i,
        {
            proof {
                assert(tag_keys(m@.tags)[i as int] == m@.tags[i as int].0);
                assert(m@.tags[i as int].0 == m.tags@[i as int].0@);
            }
            if crate::strbuf::str_eq(m.tags[i].0.as_str(), key) {
                proof {
                    lemma_index_of_key_props(tag_keys(self@.tags), key@);
                    assert(idx == i);
                }
                let pair = (key.to_owned(), value.to_owned());
                m.tags.remove(i);
                m.tags.insert(i, pair);
                proof {
                    assert(m@.tags =~= self@.tags.update(i as int, (key@, value@)));
                }
                return m;
            }
            i = i + 1;
        }
        proof {
            lemma_index_of_key_props(tag_keys(self@.tags), key@);
            if idx >= 0 {
                assert(tag_keys(self@.tags)[idx] == key@);
                assert(false);
            }
        }
        m.add_tag(key, value)
    }

    /// Looks up the first field with this key.
    pub fn get_field(&self, key: &str) -> (r: Option<&OwnedValue>)
        ensures
            ({
                let idx = index_of_key(field_keys(self@.fields), key@);
                match r {
                    Some(v) => idx >= 0 && v@ == self@.fields[idx].1,
                    None => idx == -1,
                }
            }),
    {
        proof {
            lemma_index_of_key_props(field_keys(self@.fields), key@);
        }
        let ghost idx = index_of_key(field_keys(self@.fields), key@);
        let mut i: usize = 0;
        let n = self.fields.len();
        while i < n
            invariant
                n == self.fields.len(),
                i <= n,
                idx == index_of_key(field_keys(self@.fields), key@),
                forall|j: int| 0 <= j < i ==> field_keys(self@.fields)[j] != key@,
            decreases n - i,
        {
            proof {
                assert(field_keys(self@.fields)[i as int] == self@.fields[i as int].0);
                assert(self@.fields[i as int].0 == self.fields@[i as int].0@);
            }
            if crate::strbuf::str_eq(self.fields[i].0.as_str(), key) {
                proof {
                    lemma_index_of_key_props(field_keys(self@.fields), key@);
                    assert(idx == i);
                }
                return Some(&self.fields[i].1);
            }
            i = i + 1;
        }
        proof {
            lemma_index_of_key_props(field_keys(self@.fields), key@);
            if idx >= 0 {
                assert(field_keys(self@.fields)[idx] == key@);
                assert(false);
            }
        }
        None
    }

    /// Looks up the first tag with this key.
    pub fn get_tag(&self, key: &str) -> (r: Option<&str>)
        ensures
            ({
                let idx = index_of_key(tag_keys(self@.tags), key@);
                match r {
                    Some(v) => idx >= 0 && v@ == self@.tags[idx].1,
                    None => idx == -1,
                }
            }),
    {
        proof {
            lemma_index_of_key_props(tag_keys(self@.tags), key@);
        }
        let ghost idx = index_of_key(tag_keys(self@.tags), key@);
        let mut i: usize = 0;
        let n = self.tags.len();
        while i < n
            invariant
                n == self.tags.len(),
                i <= n,
                idx == index_of_key(tag_keys(self@.tags), key@),
                forall|j: int| 0 <= j < i ==> tag_keys(self@.tags)[j] != key@,
            decreases n - i,
        {
            proof {
                assert(tag_keys(self@.tags)[i as int] == self@.tags[i as int].0);
                assert(self@.tags[i as int].0 == self.tags@[i as int].0@);
            }
            if crate::strbuf::str_eq(self.tags[i].0.as_str(), key) {
                proof {
                    lemma_index_of_key_props(tag_keys(self@.tags), key@);
                    assert(idx == i);
                }
                return Some(self.tags[i].1.as_str());
            }
            i = i + 1;
        }
        proof {
            lemma_index_of_key_props(tag_keys(self@.tags), key@);
            if idx >= 0 {
                assert(tag_keys(self@.tags)[idx] == key@);
                assert(false);
            }
        }
        None
    }
}

/// The text of one encoded tag: a leading comma, the escaped key, an
/// equals sign, the escaped value.
pub open spec fn tag_rep(t: (Seq<char>, Seq<char>)) -> Seq<char> {
    seq![','] + escape_tag_rep(t.0) + seq!['='] + escape_value_rep(t.1)
}

/// The text of the whole tag section, in insertion order.
pub open spec fn tags_rep(tags: Seq<(Seq<char>, Seq<char>)>) -> Seq<char>
    decreases tags.len(),
{
    if tags.len() == 0 {
        Seq::empty()
    } else {
        tags_rep(tags.drop_last()) + tag_rep(tags.last())
    }
}

/// The text of one encoded field: a space before the first, a comma
/// before the others, the escaped key, an equals sign, the literal.
pub open spec fn field_rep(f: (Seq<char>, OwnedValueV), first: bool) -> Seq<char> {
    (if first {
        seq![' ']
    } else {
        seq![',']
    }) + escape_tag_rep(f.0) + seq!['='] + field_literal_rep(f.1)
}

/// The text of the whole field section, in insertion order.
pub open spec fn fields_rep(fields: Seq<(Seq<char>, OwnedValueV)>) -> Seq<char>
    decreases fields.len(),
{
    if fields.len() == 0 {
        Seq::empty()
    } else {
        fields_rep(fields.drop_last()) + field_rep(fields.last(), fields.len() == 1)
    }
}

/// The complete encoded line of a measurement: escaped key, tags, a
/// space, fields, and the timestamp after one more space when present.
pub open spec fn owned_line_rep(m: OwnedMeasurementV) -> Seq<char> {
    escape_tag_rep(m.key) + tags_rep(m.tags) + fields_rep(m.fields) + (match m.timestamp {
        Some(t) => seq![' '] + signed_dec_rep(t as int),
        None => Seq::<char>::empty(),
    })
}

fn hex_to_char(d: u8) -> (c: char)
    requires
        d < 16,
    ensures
        c == hex_char(d as int),
{
    if d == 0 {
        '0'
    } else if d == 1 {
        '1'
    } else if d == 2 {
        '2'
    } else if d == 3 {
        '3'
    } else if d == 4 {
        '4'
    } else if d == 5 {
        '5'
    } else if d == 6 {
        '6'
    } else if d == 7 {
        '7'
    } else if d == 8 {
        '8'
    } else if d == 9 {
        '9'
    } else if d == 10 {
        'a'
    } else if d == 11 {
        'b'
    } else if d == 12 {
        'c'
    } else if d == 13 {
        'd'
    } else if d == 14 {
        'e'
    } else {
        'f'
    }
}

proof fn lemma_hex_rep_app(a: Seq<u8>, b: Seq<u8>)
    ensures
        hex_rep(a + b) == hex_rep(a) + hex_rep(b),
    decreases a.len(),
{
    if a.len() == 0 {
        assert(a + b =~= b);
        assert(hex_rep(a) + hex_rep(b) =~= hex_rep(b));
    } else {
        lemma_hex_rep_app(a.drop_first(), b);
        assert((a + b).drop_first() =~= a.drop_first() + b);
        assert(hex_rep(a + b) =~= hex_rep(a) + hex_rep(b));
    }
}

/// Appends the hexadecimal text of `bytes[from..to]` to `out`.
fn push_hex_range(out: &mut String, bytes: &[u8; 16], from: usize, to: usize)
    requires
        from <= to <= 16,
    ensures
        final(out)@ == old(out)@ + hex_rep(bytes@.subrange(from as int, to as int)),
{
    let mut i: usize = from;
    proof {
        assert(bytes@.len() == 16);
        assert(bytes@.subrange(from as int, from as int) =~= Seq::<u8>::empty());
    }
    while i < to
        invariant
            from <= i <= to <= 16,
            bytes@.len() == 16,
            out@ == old(out)@ + hex_rep(bytes@.subrange(from as int, i as int)),
        decreases to - i,
    {
        let b = bytes[i];
        push_char(out, hex_to_char(b / 16));
        push_char(out, hex_to_char(b % 16));
        proof {
            reveal_with_fuel(hex_rep, 2);
            assert(bytes@.subrange(from as int, i + 1) =~= bytes@.subrange(from as int, i as int)
                + seq![bytes@[i as int]]);
            lemma_hex_rep_app(bytes@.subrange(from as int, i as int), seq![bytes@[i as int]]);
            assert(seq![bytes@[i as int]].drop_first() =~= Seq::<u8>::empty());
            assert(hex_rep(seq![bytes@[i as int]]) =~= byte_hex_rep(bytes@[i as int]));
            assert(out@ =~= old(out)@ + hex_rep(bytes@.subrange(from as int, i + 1)));
        }
        i = i + 1;
    }
}

/// Appends the canonical hyphenated text of the sixteen bytes to `out`.
fn push_uuid_hex(out: &mut String, bytes: &[u8; 16])
    ensures
        final(out)@ == old(out)@ + uuid_rep(bytes@),
{
    push_hex_range(out, bytes, 0, 4);
    push_char(out, '-');
    push_hex_range(out, bytes, 4, 6);
    push_char(out, '-');
    push_hex_range(out, bytes, 6, 8);
    push_char(out, '-');
    push_hex_range(out, bytes, 8, 10);
    push_char(out, '-');
    push_hex_range(out, bytes, 10, 16);
    proof {
        assert(out@ =~= old(out)@ + uuid_rep(bytes@));
    }
}

/// Appends the literal of a numeric field value: the carried rendering
/// when finite, the literal zero otherwise.
pub(crate) fn push_num_literal(out: &mut String, r: &NumericRepr)
    ensures
        final(out)@ == old(out)@ + num_literal_rep(r@),
{
    match r {
        NumericRepr::Finite(t) => {
            push_str_chars(out, t.as_str());
        },
        NumericRepr::NonFinite => {
            push_char(out, '0');
            push_char(out, '.');
            push_char(out, '0');
            proof {
                assert(out@ =~= old(out)@ + seq!['0', '.', '0']);
            }
        },
    }
}

/// Appends the literal of a field value.
fn push_field_literal(out: &mut String, value: &OwnedValue)
    ensures
        final(out)@ == old(out)@ + field_literal_rep(value@),
{
    match value {
        OwnedValue::String(s) => {
            let q = as_string(s.as_str());
            push_str_chars(out, q.as_str());
        },
        OwnedValue::Float(r) => {
            push_num_literal(out, r);
        },
        OwnedValue::Integer(i) => {
            push_i64_dec(out, *i);
            push_char(out, 'i');
            proof {
                assert(out@ =~= old(out)@ + (signed_dec_rep(*i as int) + seq!['i']));
            }
        },
        OwnedValue::Boolean(b) => {
            push_str_chars(out, as_boolean(b));
        },
        OwnedValue::D128(r) => {
            push_num_literal(out, r);
        },
        OwnedValue::Uuid(bs) => {
            push_char(out, '"');
            push_uuid_hex(out, bs);
            push_char(out, '"');
            proof {
                assert(out@ =~= old(out)@ + (seq!['"'] + uuid_rep(bs@) + seq!['"']));
            }
        },
    }
}

/// Serializes a measurement as one line of the wire format and appends
/// it to `line`, leaving whatever the buffer already held in place so
/// that one buffer serves many measurements.
pub fn serialize_owned(measurement: &OwnedMeasurement, line: &mut String)
    ensures
        final(line)@ == old(line)@ + owned_line_rep(measurement@),
{
    let key_esc = escape_tag(measurement.key.as_str());
    push_str_chars(line, key_esc.as_str());

    let ghost tagsv = measurement@.tags;
    let mut i: usize = 0;
    proof {
        assert(tagsv.take(0) =~= Seq::<(Seq<char>, Seq<char>)>::empty());
    }
    while i < measurement.tags.len()
        invariant
            i <= measurement.tags.len(),
            tagsv == measurement@.tags,
            tagsv.len() == measurement.tags.len(),
            line@ == old(line)@ + escape_tag_rep(measurement@.key) + tags_rep(
                tagsv.take(i as int),
            ),
        decreases measurement.tags.len() - i,
    {
        proof {
            assert(tagsv[i as int] == (measurement.tags@[i as int].0@,
                measurement.tags@[i as int].1@));
        }
        push_char(line, ',');
        let k = escape_tag(measurement.tags[i].0.as_str());
        push_str_chars(line, k.as_str());
        push_char(line, '=');
        let v = escape(measurement.tags[i].1.as_str());
        push_str_chars(line, v.as_str());
        proof {
            assert(tagsv.take(i + 1).drop_last() =~= tagsv.take(i as int));
            assert(tagsv.take(i + 1).last() == tagsv[i as int]);
            assert(line@ =~= old(line)@ + escape_tag_rep(measurement@.key) + tags_rep(
                tagsv.take(i + 1),
            ));
        }
        i = i + 1;
    }
    proof {
        assert(tagsv.take(tagsv.len() as int) =~= tagsv);
    }

    let ghost fieldsv = measurement@.fields;
    let ghost head = old(line)@ + escape_tag_rep(measurement@.key) + tags_rep(measurement@.tags);
    let mut j: usize = 0;
    proof {
        assert(fieldsv.take(0) =~= Seq::<(Seq<char>, OwnedValueV)>::empty());
        assert(line@ =~= head + fields_rep(fieldsv.take(0)));
    }
    while j < measurement.fields.len()
        invariant
            j <= measurement.fields.len(),
            fieldsv == measurement@.fields,
            fieldsv.len() == measurement.fields.len(),
            line@ == head + fields_rep(fieldsv.take(j as int)),
        decreases measurement.fields.len() - j,
    {
        proof {
            assert(fieldsv[j as int] == (measurement.fields@[j as int].0@,
                measurement.fields@[j as int].1@));
        }
        if j == 0 {
            push_char(line, ' ');
        } else {
            push_char(line, ',');
        }
        let k = escape_tag(measurement.fields[j].0.as_str());
        push_str_chars(line, k.as_str());
        push_char(line, '=');
        push_field_literal(line, &measurement.fields[j].1);
        proof {
            assert(fieldsv.take(j + 1).drop_last() =~= fieldsv.take(j as int));
            assert(fieldsv.take(j + 1).last() == fieldsv[j as int]);
            assert(line@ =~= head + fields_rep(fieldsv.take(j + 1)));
        }
        j = j + 1;
    }
    proof {
        assert(fieldsv.take(fieldsv.len() as int) =~= fieldsv);
    }

    match measurement.timestamp {
        Some(t) => {
            push_char(line, ' ');
            push_i64_dec(line, t);
            proof {
                assert(line@ =~= old(line)@ + owned_line_rep(measurement@));
            }
        },
        None => {
            proof {
                assert(line@ =~= old(line)@ + owned_line_rep(measurement@));
            }
        },
    }
}

/// Relies on `chrono::Utc::now` and `DateTime::timestamp_nanos_opt`: the
/// current wall-clock reading, in nanoseconds since the Unix epoch.
/// Nothing is promised of the clock's value; every function that works
/// with a time takes it as an argument.
#[verifier::external_body]
pub fn now() -> i64 {
    chrono::Utc::now().timestamp_nanos_opt().unwrap_or(0)
}

} // verus!
