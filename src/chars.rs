//! Character-level helpers over std.

use vstd::prelude::*;
use vstd::string::{StringExecFns, StringSliceAdditionalSpecFns};
use vstd::utf8::{decode_utf8, encode_utf8_decode_utf8, is_char_boundary};

verus! {

/// The characters of `s`, in order.
pub fn chars_of(s: &str) -> (r: Vec<char>)
    ensures
        r@ == s@,
{
    let mut out: Vec<char> = Vec::new();
    for c in it: s.chars()
        invariant
            out@ == it.seq().take(it.index() as int),
            it.seq() == s@,
    {
        out.push(c);
    }
    out
}

/// Whether `c` is alphanumeric in Unicode's sense, as std decides it.
pub uninterp spec fn alphanumeric_of(c: char) -> bool;

/// Whether `c` has Unicode's White_Space property, as std decides it.
pub uninterp spec fn whitespace_of(c: char) -> bool;

/// Relies on `char::is_alphanumeric`: the answer depends on the character alone.
#[verifier::external_body]
fn char_is_alphanumeric(c: char) -> (r: bool)
    ensures
        r == alphanumeric_of(c),
{
    c.is_alphanumeric()
}

/// Relies on `char::is_whitespace`: the answer depends on the character alone.
#[verifier::external_body]
fn char_is_whitespace(c: char) -> (r: bool)
    ensures
        r == whitespace_of(c),
{
    c.is_whitespace()
}

/// Relies on `String::push`: it appends the character at the end.
#[verifier::external_body]
pub(crate) fn push_char(s: &mut String, c: char)
    ensures
        final(s)@ == old(s)@.push(c),
{
    s.push(c)
}

pub open spec fn is_ascii_char(c: char) -> bool {
    (c as u32) < 128
}

pub open spec fn is_ascii_alphanumeric(c: char) -> bool {
    ('0' <= c && c <= '9') || ('a' <= c && c <= 'z') || ('A' <= c && c <= 'Z')
}

/// A character that may stand in a key: an alphanumeric character or `_`.
pub open spec fn is_key_char(c: char) -> bool {
    c == '_' || if is_ascii_char(c) {
        is_ascii_alphanumeric(c)
    } else {
        alphanumeric_of(c)
    }
}

/// A whitespace character in Unicode's sense; within ASCII these are space,
/// tab, line feed, vertical tab, form feed and carriage return.
pub open spec fn is_unicode_space(c: char) -> bool {
    if is_ascii_char(c) {
        c == ' ' || c == '\t' || c == '\n' || c == '\x0B' || c == '\x0C' || c == '\r'
    } else {
        whitespace_of(c)
    }
}

pub fn key_char(c: char) -> (r: bool)
    ensures
        r == is_key_char(c),
{
    if c == '_' {
        true
    } else if (c as u32) < 128 {
        ('0' <= c && c <= '9') || ('a' <= c && c <= 'z') || ('A' <= c && c <= 'Z')
    } else {
        char_is_alphanumeric(c)
    }
}

pub fn unicode_space(c: char) -> (r: bool)
    ensures
        r == is_unicode_space(c),
{
    if (c as u32) < 128 {
        c == ' ' || c == '\t' || c == '\n' || c == '\x0B' || c == '\x0C' || c == '\r'
    } else {
        char_is_whitespace(c)
    }
}

/// The string made of `s[from..to]`.
pub fn string_of(s: &[char], from: usize, to: usize) -> (r: String)
    requires
        from <= to <= s@.len(),
    ensures
        r@ == s@.subrange(from as int, to as int),
{
    let mut out = String::new();
    let mut k: usize = from;
    while k < to
        invariant
            from <= k <= to <= s@.len(),
            out@ == s@.subrange(from as int, k as int),
        decreases to - k,
    {
        push_char(&mut out, s[k]);
        k += 1;
        assert(out@ =~= s@.subrange(from as int, k as int));
    }
    out
}

/// Shortens `input` to its first `max_length` bytes and marks the cut, or
/// returns it whole where it is not longer than that. The cut must fall on a
/// character boundary.
pub fn truncate_str(input: &str, max_length: usize) -> (r: String)
    requires
        input.spec_bytes().len() <= usize::MAX,
        input.spec_bytes().len() > max_length ==> is_char_boundary(
            input.spec_bytes(),
            max_length as int,
        ),
    ensures
        r@ == if input.spec_bytes().len() > max_length {
            decode_utf8(input.spec_bytes().subrange(0, max_length as int)) + "... (truncated)"@
        } else {
            input@
        },
{
    if input.len() > max_length {
        let (head, _tail) = input.split_at(max_length);
        proof { encode_utf8_decode_utf8(head@); }
        let mut out = head.to_owned();
        out.append("... (truncated)");
        out
    } else {
        input.to_owned()
    }
}

} // verus!
