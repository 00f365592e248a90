//! The primitive lexers: keys, numbers, strings and the hex-array body.

use vstd::prelude::*;
use crate::chars::{is_key_char, key_char, is_unicode_space, unicode_space, string_of};
use crate::error::{ParseError, ParseErrorKind, Expected, syntax_error, unterminated, number_format};
use crate::value::{KV3Value, ValueModel};
use crate::float::{float_overflows, float_literal_overflows};
use crate::lexer::{starts_with_at, find_from, lemma_find_from, find, matches_at};

verus! {

/// End of the longest run of key characters from `i`.
pub open spec fn key_end(s: Seq<char>, i: int) -> int
    decreases s.len() - i,
{
    if 0 <= i < s.len() && is_key_char(s[i]) {
        key_end(s, i + 1)
    } else {
        i
    }
}

pub proof fn lemma_key_end(s: Seq<char>, i: int)
    requires
        0 <= i <= s.len(),
    ensures
        i <= key_end(s, i) <= s.len(),
        forall|k: int| i <= k < key_end(s, i) ==> is_key_char(s[k]),
        key_end(s, i) < s.len() ==> !is_key_char(s[key_end(s, i)]),
    decreases s.len() - i,
{
    if 0 <= i < s.len() && is_key_char(s[i]) {
        lemma_key_end(s, i + 1);
    }
}

/// End of the key that starts at `i` (possibly `i` itself: a key may be empty).
pub fn scan_key(s: &[char], i: usize) -> (r: usize)
    requires
        i <= s@.len(),
    ensures
        r as int == key_end(s@, i as int),
{
    let mut j: usize = i;
    while j < s.len() && key_char(s[j])
        invariant
            i <= j <= s@.len(),
            key_end(s@, i as int) == key_end(s@, j as int),
        decreases s@.len() - j,
    {
        j += 1;
    }
    j
}

pub open spec fn is_digit(c: char) -> bool {
    '0' <= c && c <= '9'
}

pub open spec fn is_hex_digit(c: char) -> bool {
    is_digit(c) || ('a' <= c && c <= 'f') || ('A' <= c && c <= 'F')
}

/// The value of a decimal or hexadecimal digit.
pub open spec fn digit_value(c: char) -> int {
    if is_digit(c) {
        c as int - '0' as int
    } else if 'a' <= c && c <= 'f' {
        c as int - 'a' as int + 10
    } else {
        c as int - 'A' as int + 10
    }
}

/// The number that the digits `ds` write in base `base`.
pub open spec fn digits_value(ds: Seq<char>, base: int) -> int
    decreases ds.len(),
{
    if ds.len() == 0 {
        0
    } else {
        digits_value(ds.drop_last(), base) * base + digit_value(ds.last())
    }
}

/// End of the run of decimal digits from `i`.
pub open spec fn digits_end(s: Seq<char>, i: int) -> int
    decreases s.len() - i,
{
    if 0 <= i < s.len() && is_digit(s[i]) {
        digits_end(s, i + 1)
    } else {
        i
    }
}

pub proof fn lemma_digits_end(s: Seq<char>, i: int)
    requires
        0 <= i <= s.len(),
    ensures
        i <= digits_end(s, i) <= s.len(),
        forall|k: int| i <= k < digits_end(s, i) ==> is_digit(s[k]),
        digits_end(s, i) < s.len() ==> !is_digit(s[digits_end(s, i)]),
    decreases s.len() - i,
{
    if 0 <= i < s.len() && is_digit(s[i]) {
        lemma_digits_end(s, i + 1);
    }
}

pub(crate) fn scan_digits(s: &[char], i: usize) -> (r: usize)
    requires
        i <= s@.len(),
    ensures
        r as int == digits_end(s@, i as int),
{
    let mut j: usize = i;
    while j < s.len() && '0' <= s[j] && s[j] <= '9'
        invariant
            i <= j <= s@.len(),
            digits_end(s@, i as int) == digits_end(s@, j as int),
        decreases s@.len() - j,
    {
        j += 1;
    }
    j
}

/// Position after an optional sign at `i`.
pub open spec fn sign_end(s: Seq<char>, i: int) -> int {
    if 0 <= i < s.len() && (s[i] == '+' || s[i] == '-') {
        i + 1
    } else {
        i
    }
}

/// End of the mantissa of a number literal at `i` (digits with an optional
/// fraction, or a fraction alone, after an optional sign), if one stands there.
pub open spec fn mantissa_end(s: Seq<char>, i: int) -> Option<int> {
    let a = sign_end(s, i);
    let d = digits_end(s, a);
    if d > a {
        if d < s.len() && s[d] == '.' {
            Some(digits_end(s, d + 1))
        } else {
            Some(d)
        }
    } else if a < s.len() && s[a] == '.' && digits_end(s, a + 1) > a + 1 {
        Some(digits_end(s, a + 1))
    } else {
        None
    }
}

/// End of the number literal at `i`: a mantissa and an optional exponent. An
/// exponent marker with no digits after it is an error.
pub open spec fn number_end(s: Seq<char>, i: int) -> Result<Option<int>, ParseError> {
    match mantissa_end(s, i) {
        None => Ok(None),
        Some(m) => if m < s.len() && (s[m] == 'e' || s[m] == 'E') {
            let b = sign_end(s, m + 1);
            let e = digits_end(s, b);
            if e > b {
                Ok(Some(e))
            } else {
                Err(syntax_error(b, Expected::Digit))
            }
        } else {
            Ok(Some(m))
        },
    }
}

/// A literal that holds no `.`, `e` or `E` is an integer.
pub open spec fn is_integer_literal(t: Seq<char>) -> bool {
    forall|k: int| 0 <= k < t.len() ==> t[k] != '.' && t[k] != 'e' && t[k] != 'E'
}

/// The value of an integer literal: an optional sign, then decimal digits.
pub open spec fn integer_value(t: Seq<char>) -> int {
    if t.len() > 0 && t[0] == '-' {
        -digits_value(t.drop_first(), 10)
    } else if t.len() > 0 && t[0] == '+' {
        digits_value(t.drop_first(), 10)
    } else {
        digits_value(t, 10)
    }
}

pub open spec fn fits_i64(v: int) -> bool {
    i64::MIN <= v <= i64::MAX
}

/// The Number lexer: the literal at `i`, if one stands there, classified as
/// an integer or a floating-point number. An integer that does not fit in 64
/// signed bits, or a float literal too large for a 64-bit float, is an error.
pub open spec fn number(s: Seq<char>, i: int) -> Result<Option<(ValueModel, int)>, ParseError> {
    match number_end(s, i) {
        Err(e) => Err(e),
        Ok(None) => Ok(None),
        Ok(Some(e)) => {
            let t = s.subrange(i, e);
            if is_integer_literal(t) {
                if fits_i64(integer_value(t)) {
                    Ok(Some((ValueModel::Int(integer_value(t)), e)))
                } else {
                    Err(number_format(i))
                }
            } else if float_overflows(t) {
                Err(number_format(i))
            } else {
                Ok(Some((ValueModel::Double(t), e)))
            }
        },
    }
}

/// A copy of `s[from..to]`.
fn copy_chars(s: &[char], from: usize, to: usize) -> (r: Vec<char>)
    requires
        from <= to <= s@.len(),
    ensures
        r@ == s@.subrange(from as int, to as int),
{
    let mut out: Vec<char> = Vec::new();
    let mut k: usize = from;
    while k < to
        invariant
            from <= k <= to <= s@.len(),
            out@ == s@.subrange(from as int, k as int),
        decreases to - k,
    {
        out.push(s[k]);
        k += 1;
        assert(out@ =~= s@.subrange(from as int, k as int));
    }
    out
}

pub(crate) proof fn lemma_digits_value_step(s: Seq<char>, a: int, k: int, base: int)
    requires
        0 <= a <= k < s.len(),
    ensures
        digits_value(s.subrange(a, k + 1), base) == digits_value(s.subrange(a, k), base) * base
            + digit_value(s[k]),
{
    assert(s.subrange(a, k + 1).drop_last() =~= s.subrange(a, k));
}

/// Digits of a longer prefix write a number at least as large.
pub(crate) proof fn lemma_digits_value_grows(s: Seq<char>, a: int, k: int, m: int, base: int)
    requires
        0 <= a <= k <= m <= s.len(),
        base >= 1,
        forall|j: int| a <= j < m ==> is_hex_digit(s[j]),
    ensures
        digits_value(s.subrange(a, k), base) <= digits_value(s.subrange(a, m), base),
    decreases m - k,
{
    if k < m {
        lemma_digits_value_grows(s, a, k, m - 1, base);
        lemma_digits_value_step(s, a, m - 1, base);
        assert(digits_value(s.subrange(a, m - 1), base) >= 0) by {
            lemma_digits_value_nonneg(s.subrange(a, m - 1), base);
        }
        assert(digits_value(s.subrange(a, m - 1), base) * base >= digits_value(
            s.subrange(a, m - 1),
            base,
        )) by (nonlinear_arith)
            requires
                digits_value(s.subrange(a, m - 1), base) >= 0,
                base >= 1,
        ;
    }
}

proof fn lemma_digits_value_nonneg(ds: Seq<char>, base: int)
    requires
        base >= 0,
        forall|j: int| 0 <= j < ds.len() ==> is_hex_digit(ds[j]),
    ensures
        digits_value(ds, base) >= 0,
    decreases ds.len(),
{
    if ds.len() > 0 {
        lemma_digits_value_nonneg(ds.drop_last(), base);
        assert(digits_value(ds.drop_last(), base) * base >= 0) by (nonlinear_arith)
            requires
                digits_value(ds.drop_last(), base) >= 0,
                base >= 0,
        ;
    }
}

pub proof fn lemma_number_bounds(s: Seq<char>, i: int)
    requires
        0 <= i <= s.len(),
    ensures
        number(s, i) matches Ok(Some((v, e))) ==> i < e <= s.len(),
{
    let a = sign_end(s, i);
    lemma_digits_end(s, a);
    let d = digits_end(s, a);
    if d < s.len() {
        lemma_digits_end(s, d + 1);
    }
    if a < s.len() {
        lemma_digits_end(s, a + 1);
    }
    if let Some(m) = mantissa_end(s, i) {
        if m < s.len() {
            lemma_digits_end(s, sign_end(s, m + 1));
        }
    }
}

/// The number literal at position `i`; see `number`.
pub fn scan_number(s: &[char], i: usize) -> (r: Result<Option<(KV3Value, usize)>, ParseError>)
    requires
        i <= s@.len(),
    ensures
        match r {
            Err(e) => number(s@, i as int) == Err::<Option<(ValueModel, int)>, ParseError>(e),
            Ok(None) => number(s@, i as int) == Ok::<Option<(ValueModel, int)>, ParseError>(None),
            Ok(Some((v, j))) => number(s@, i as int) == Ok::<Option<(ValueModel, int)>, ParseError>(
                Some((v@, j as int)),
            ),
        },
{
    let ghost g = s@;
    let a: usize = if i < s.len() && (s[i] == '+' || s[i] == '-') { i + 1 } else { i };
    let d = scan_digits(s, a);
    proof { lemma_digits_end(g, a as int); }
    let m: usize;
    let mut plain_digits = false;
    if d > a {
        if d < s.len() && s[d] == '.' {
            proof { lemma_digits_end(g, d + 1); }
            m = scan_digits(s, d + 1);
        } else {
            m = d;
            plain_digits = true;
        }
    } else if a < s.len() && s[a] == '.' && scan_digits(s, a + 1) > a + 1 {
        proof { lemma_digits_end(g, a + 1); }
        m = scan_digits(s, a + 1);
    } else {
        return Ok(None);
    }
    assert(mantissa_end(g, i as int) == Some(m as int));
    let e: usize;
    if m < s.len() && (s[m] == 'e' || s[m] == 'E') {
        let b: usize = if m + 1 < s.len() && (s[m + 1] == '+' || s[m + 1] == '-') { m + 2 } else { m + 1 };
        proof { lemma_digits_end(g, b as int); }
        e = scan_digits(s, b);
        if e == b {
            return Err(ParseError { kind: ParseErrorKind::Syntax(Expected::Digit), position: b });
        }
        assert(!is_integer_literal(g.subrange(i as int, e as int))) by {
            assert(g.subrange(i as int, e as int)[m - i] == g[m as int]);
        }
        let lexeme = copy_chars(s, i, e);
        if float_literal_overflows(lexeme.as_slice()) {
            return Err(ParseError { kind: ParseErrorKind::NumberFormat, position: i });
        }
        let t = string_of(s, i, e);
        return Ok(Some((KV3Value::Double(t), e)));
    }
    e = m;
    let ghost t = g.subrange(i as int, e as int);
    assert(number_end(g, i as int) == Ok::<Option<int>, ParseError>(Some(e as int)));
    if !plain_digits {
        assert(!is_integer_literal(t)) by {
            if d > a {
                assert(t[d - i] == g[d as int]);
            } else {
                assert(t[a - i] == g[a as int]);
            }
        }
        let lexeme = copy_chars(s, i, e);
        if float_literal_overflows(lexeme.as_slice()) {
            return Err(ParseError { kind: ParseErrorKind::NumberFormat, position: i });
        }
        let text = string_of(s, i, e);
        return Ok(Some((KV3Value::Double(text), e)));
    }
    assert(is_integer_literal(t));
    let neg = a > i && s[i] == '-';
    let limit: u64 = if neg { 9223372036854775808 } else { 9223372036854775807 };
    let mut acc: u64 = 0;
    let mut k: usize = a;
    while k < e
        invariant
            a <= k <= e <= g.len(),
            g == s@,
            t == g.subrange(i as int, e as int),
            number_end(g, i as int) == Ok::<Option<int>, ParseError>(Some(e as int)),
            is_integer_literal(t),
            i <= a <= i + 1,
            neg ==> a > i && g[i as int] == '-',
            a > i ==> g[i as int] == '+' || g[i as int] == '-',
            !neg && a > i ==> g[i as int] == '+',
            forall|j: int| a <= j < e ==> is_digit(g[j]),
            acc as int == digits_value(g.subrange(a as int, k as int), 10),
            acc <= limit,
            limit == if neg { 9223372036854775808u64 } else { 9223372036854775807u64 },
        decreases e - k,
    {
        let dgt: u64 = (s[k] as u32 - '0' as u32) as u64;
        proof { lemma_digits_value_step(g, a as int, k as int, 10); }
        assert(dgt as int == digit_value(g[k as int]));
        assert(t.len() > 0 && t[0] == g[i as int]);
        if acc > (limit - dgt) / 10 {
            proof {
                assert(acc * 10 + dgt > limit) by (nonlinear_arith)
                    requires acc > (limit - dgt) / 10, dgt <= 9, limit >= 9;
                lemma_digits_value_grows(g, a as int, k + 1, e as int, 10);
                if neg {
                    assert(t.drop_first() =~= g.subrange(a as int, e as int));
                } else if a > i {
                    assert(t.drop_first() =~= g.subrange(a as int, e as int));
                } else {
                    assert(t =~= g.subrange(a as int, e as int));
                }
            }
            return Err(ParseError { kind: ParseErrorKind::NumberFormat, position: i });
        }
        assert(acc * 10 + dgt <= limit) by (nonlinear_arith)
            requires acc <= (limit - dgt) / 10, dgt <= 9, limit >= 9;
        acc = acc * 10 + dgt;
        k += 1;
    }
    let v: i64 = if neg {
        if acc == 9223372036854775808 { i64::MIN } else { -(acc as i64) }
    } else {
        acc as i64
    };
    proof {
        if a > i {
            assert(t.drop_first() =~= g.subrange(a as int, e as int));
        } else {
            assert(t =~= g.subrange(a as int, e as int));
        }
    }
    Ok(Some((KV3Value::Int(v), e)))
}

pub open spec fn triple_quote() -> Seq<char> {
    seq!['"', '"', '"']
}

pub open spec fn quote() -> Seq<char> {
    seq!['"']
}

/// The String lexer: a triple-quoted literal is tried before a single-quoted
/// one. The text between the delimiters is taken as it stands; a literal that
/// is not closed is an error.
pub open spec fn string_lit(s: Seq<char>, i: int) -> Result<Option<(Seq<char>, int)>, ParseError> {
    if starts_with_at(s, i, triple_quote()) {
        match find_from(s, i + 3, triple_quote()) {
            Some(j) => Ok(Some((s.subrange(i + 3, j), j + 3))),
            None => Err(unterminated(i)),
        }
    } else if starts_with_at(s, i, quote()) {
        match find_from(s, i + 1, quote()) {
            Some(j) => Ok(Some((s.subrange(i + 1, j), j + 1))),
            None => Err(unterminated(i)),
        }
    } else {
        Ok(None)
    }
}

pub proof fn lemma_string_bounds(s: Seq<char>, i: int)
    requires
        0 <= i <= s.len(),
    ensures
        string_lit(s, i) matches Ok(Some((t, e))) ==> i < e <= s.len(),
{
    lemma_find_from(s, i + 3, triple_quote());
    lemma_find_from(s, i + 1, quote());
}

/// The string literal at position `i`; see `string_lit`.
pub fn scan_string(s: &[char], i: usize) -> (r: Result<Option<(String, usize)>, ParseError>)
    requires
        i <= s@.len(),
    ensures
        match r {
            Err(e) => string_lit(s@, i as int) == Err::<Option<(Seq<char>, int)>, ParseError>(e),
            Ok(None) => string_lit(s@, i as int) == Ok::<Option<(Seq<char>, int)>, ParseError>(None),
            Ok(Some((t, j))) => string_lit(s@, i as int) == Ok::<Option<(Seq<char>, int)>, ParseError>(
                Some((t@, j as int)),
            ),
        },
{
    let q3: &[char] = &['"', '"', '"'];
    let q1: &[char] = &['"'];
    assert(q3@ =~= triple_quote());
    assert(q1@ =~= quote());
    let n = s.len();
    if matches_at(s, i, q3) {
        proof { lemma_find_from(s@, i + 3, triple_quote()); }
        match find(s, i + 3, q3) {
            Some(j) => Ok(Some((string_of(s, i + 3, j), j + 3))),
            None => Err(ParseError { kind: ParseErrorKind::UnterminatedLiteral, position: i }),
        }
    } else if matches_at(s, i, q1) {
        proof { lemma_find_from(s@, i + 1, quote()); }
        match find(s, i + 1, q1) {
            Some(j) => Ok(Some((string_of(s, i + 1, j), j + 1))),
            None => Err(ParseError { kind: ParseErrorKind::UnterminatedLiteral, position: i }),
        }
    } else {
        Ok(None)
    }
}

/// End of the run of non-whitespace characters from `i`, before `end`.
pub open spec fn token_end(s: Seq<char>, i: int, end: int) -> int
    decreases end - i,
{
    if 0 <= i < end && !is_unicode_space(s[i]) {
        token_end(s, i + 1, end)
    } else {
        i
    }
}

pub proof fn lemma_token_end(s: Seq<char>, i: int, end: int)
    requires
        0 <= i <= end,
    ensures
        i <= token_end(s, i, end) <= end,
        forall|k: int| i <= k < token_end(s, i, end) ==> !is_unicode_space(s[k]),
        token_end(s, i, end) < end ==> is_unicode_space(s[token_end(s, i, end)]),
    decreases end - i,
{
    if 0 <= i < end && !is_unicode_space(s[i]) {
        lemma_token_end(s, i + 1, end);
    }
}

/// A hex token without its optional leading `+`.
pub open spec fn unsigned_part(t: Seq<char>) -> Seq<char> {
    if t.len() > 1 && t[0] == '+' {
        t.drop_first()
    } else {
        t
    }
}

pub open spec fn all_hex_digits(d: Seq<char>) -> bool {
    forall|k: int| 0 <= k < d.len() ==> is_hex_digit(#[trigger] d[k])
}

/// The byte that a hex token writes: hexadecimal digits, after an optional
/// `+`, of value at most 255. Any other token writes no byte.
pub open spec fn hex_byte(t: Seq<char>) -> Option<u8> {
    let d = unsigned_part(t);
    if d.len() > 0 && all_hex_digits(d) && digits_value(d, 16) <= 255 {
        Some(digits_value(d, 16) as u8)
    } else {
        None
    }
}

pub open spec fn byte_seq(b: Option<u8>) -> Seq<u8> {
    match b {
        Some(x) => seq![x],
        None => Seq::empty(),
    }
}

/// The bytes of the whitespace-separated hex tokens in `s[i..end]`; tokens
/// that write no byte are dropped.
pub open spec fn hex_bytes(s: Seq<char>, i: int, end: int) -> Seq<u8>
    decreases end - i,
    via hex_bytes_decreases
{
    if i < 0 || i >= end {
        Seq::empty()
    } else if is_unicode_space(s[i]) {
        hex_bytes(s, i + 1, end)
    } else {
        let t = token_end(s, i, end);
        byte_seq(hex_byte(s.subrange(i, t))) + hex_bytes(s, t, end)
    }
}

#[via_fn]
proof fn hex_bytes_decreases(s: Seq<char>, i: int, end: int) {
    if 0 <= i < end && !is_unicode_space(s[i]) {
        lemma_token_end(s, i + 1, end);
    }
}

fn hex_digit(c: char) -> (r: Option<u64>)
    ensures
        match r {
            Some(v) => is_hex_digit(c) && v as int == digit_value(c),
            None => !is_hex_digit(c),
        },
{
    if '0' <= c && c <= '9' {
        Some((c as u32 - '0' as u32) as u64)
    } else if 'a' <= c && c <= 'f' {
        Some((c as u32 - 'a' as u32 + 10) as u64)
    } else if 'A' <= c && c <= 'F' {
        Some((c as u32 - 'A' as u32 + 10) as u64)
    } else {
        None
    }
}

/// The byte that the token `s[from..to]` writes; see `hex_byte`.
fn decode_hex_token(s: &[char], from: usize, to: usize) -> (r: Option<u8>)
    requires
        from < to <= s@.len(),
    ensures
        r == hex_byte(s@.subrange(from as int, to as int)),
{
    let ghost t = s@.subrange(from as int, to as int);
    let a: usize = if to - from > 1 && s[from] == '+' { from + 1 } else { from };
    let ghost d = unsigned_part(t);
    assert(d =~= s@.subrange(a as int, to as int));
    let mut acc: u64 = 0;
    let mut k: usize = a;
    while k < to
        invariant
            a <= k <= to <= s@.len(),
            d == s@.subrange(a as int, to as int),
            t == s@.subrange(from as int, to as int),
            d == unsigned_part(t),
            forall|j: int| a <= j < k ==> is_hex_digit(s@[j]),
            acc as int == digits_value(s@.subrange(a as int, k as int), 16),
            acc <= 255,
        decreases to - k,
    {
        proof { lemma_digits_value_step(s@, a as int, k as int, 16); }
        match hex_digit(s[k]) {
            None => {
                assert(!is_hex_digit(d[k - a]));
                assert(hex_byte(t) is None);
                return None;
            },
            Some(v) => {
                acc = acc * 16 + v;
                if acc > 255 {
                    proof {
                        if all_hex_digits(d) {
                            assert forall|j: int| a <= j < to implies is_hex_digit(s@[j]) by {
                                assert(s@[j] == d[j - a]);
                            }
                            lemma_digits_value_grows(s@, a as int, k + 1, to as int, 16);
                        }
                    }
                    return None;
                }
            },
        }
        k += 1;
    }
    assert(s@.subrange(a as int, to as int) =~= s@.subrange(a as int, k as int));
    if a == to {
        return None;
    }
    Some(acc as u8)
}

/// The bytes of the hex tokens in `s[from..to]`; see `hex_bytes`.
pub fn scan_hex_bytes(s: &[char], from: usize, to: usize) -> (r: Vec<u8>)
    requires
        from <= to <= s@.len(),
    ensures
        r@ == hex_bytes(s@, from as int, to as int),
{
    let mut out: Vec<u8> = Vec::new();
    let mut i: usize = from;
    while i < to
        invariant
            from <= i <= to <= s@.len(),
            hex_bytes(s@, from as int, to as int) == out@ + hex_bytes(s@, i as int, to as int),
        decreases to - i,
    {
        if unicode_space(s[i]) {
            i += 1;
        } else {
            let mut t: usize = i;
            while t < to && !unicode_space(s[t])
                invariant
                    i <= t <= to <= s@.len(),
                    token_end(s@, i as int, to as int) == token_end(s@, t as int, to as int),
                decreases to - t,
            {
                t += 1;
            }
            proof { lemma_token_end(s@, i + 1, to as int); }
            let b = decode_hex_token(s, i, t);
            let ghost before = out@;
            match b {
                Some(x) => { out.push(x); },
                None => {},
            }
            assert(out@ + hex_bytes(s@, t as int, to as int) =~= before + (byte_seq(b) + hex_bytes(s@, t as int, to as int)));
            i = t;
        }
    }
    assert(out@ + hex_bytes(s@, i as int, to as int) =~= out@);
    out
}

} // verus!
