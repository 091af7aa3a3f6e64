//! Small helpers for building and comparing strings character by character.
//!
//! The encoder appends to a caller-supplied `String` so that one buffer can
//! be reused across many measurements; these are the few primitive
//! operations it needs on that buffer.

use vstd::prelude::*;

verus! {

/// Relies on `String::push`: appends exactly one character to the string.
#[verifier::external_body]
pub fn push_char(s: &mut String, c: char)
    ensures
        final(s)@ == old(s)@ + seq![c],
{
    s.push(c);
}

/// Relies on `String::clear`: empties the string in place, keeping its
/// allocation for reuse.
#[verifier::external_body]
pub fn clear_str(s: &mut String)
    ensures
        final(s)@ == Seq::<char>::empty(),
{
    s.clear();
}

/// Appends every character of `part` to `out`.
pub fn push_str_chars(out: &mut String, part: &str)
    ensures
        final(out)@ == old(out)@ + part@,
{
    out.append(part);
}

/// Removes one trailing newline byte, if present: a published log frame
/// does not carry its line terminator.
pub fn strip_trailing_newline(buf: &mut Vec<u8>)
    ensures
        final(buf)@ == if old(buf)@.len() > 0 && old(buf)@.last() == 10u8 {
            old(buf)@.drop_last()
        } else {
            old(buf)@
        },
{
    if buf.len() > 0 && buf[buf.len() - 1] == 10 {
        buf.pop();
    }
}

/// Whether `a` and `b` are the same string, compared character by character.
pub fn str_eq(a: &str, b: &str) -> (r: bool)
    ensures
        r == (a@ == b@),
{
    let a_len = a.unicode_len();
    let b_len = b.unicode_len();
    if a_len != b_len {
        return false;
    }
    let mut i: usize = 0;
    while i < a_len
        invariant
            i <= a_len,
            a_len == a@.len(),
            a_len == b@.len(),
            forall|j: int| 0 <= j < i ==> a@[j] == b@[j],
        decreases a_len - i,
    {
        if a.get_char(i) != b.get_char(i) {
            return false;
        }
        i = i + 1;
    }
    proof {
        assert(a@ =~= b@);
    }
    true
}

} // verus!
