//! The canonical text of a value tree, and the law that parsing it gives the
//! tree back.

use vstd::prelude::*;
use crate::chars::is_key_char;
use crate::error::ParseError;
use crate::grammar::{value, elements, pairs, document, hex_open, close_bracket, false_word, true_word, null_word};
use crate::lexer::{lemma_find_at, skip, starts_with_at, find_from, is_multispace, line_comment_open, block_comment_open, xml_comment_open};
use crate::mapping::{int_text, nat_text};
use crate::token::{key_end, number, number_end, mantissa_end, sign_end, digits_end, lemma_digits_end, is_digit, digits_value, digit_value, is_integer_literal, fits_i64, string_lit, triple_quote, quote, hex_bytes, hex_byte, token_end, unsigned_part, is_hex_digit, byte_seq};
use crate::value::{ValueModel, Entries, keys_unique, lemma_distinct_pairs_object};

verus! {

broadcast use vstd::seq::group_seq_axioms;

/// The hexadecimal digit for `d` in `0..16`, upper case.
pub open spec fn hex_char(d: int) -> char {
    if d < 10 {
        (d + '0' as int) as char
    } else {
        (d - 10 + 'A' as int) as char
    }
}

/// The two hex digits of a byte.
pub open spec fn hex_pair(b: u8) -> Seq<char> {
    seq![hex_char(b as int / 16), hex_char(b as int % 16)]
}

/// The canonical text of a value: one space between tokens, each array
/// element followed by ` ,`, each hex byte by a space.
pub open spec fn render(v: ValueModel) -> Seq<char>
    decreases v,
{
    match v {
        ValueModel::Bool(b) => if b {
            true_word()
        } else {
            false_word()
        },
        ValueModel::Int(i) => int_text(i),
        ValueModel::Double(t) => t,
        ValueModel::Str(t) => if no_quote(t) {
            quote() + t + quote()
        } else {
            triple_quote() + t + triple_quote()
        },
        ValueModel::Array(vs) => seq!['['] + render_items(vs) + seq![' ', ']'],
        ValueModel::HexArray(bs) => hex_open() + render_bytes(bs) + close_bracket(),
        ValueModel::Object(es) => seq!['{'] + render_entries(es) + seq![' ', '}'],
        ValueModel::Null => null_word(),
    }
}

pub open spec fn render_items(vs: Seq<ValueModel>) -> Seq<char>
    decreases vs,
{
    if vs.len() == 0 {
        Seq::empty()
    } else {
        seq![' '] + render(vs[0]) + seq![' ', ','] + render_items(vs.drop_first())
    }
}

pub open spec fn render_entries(es: Entries) -> Seq<char>
    decreases es,
{
    if es.len() == 0 {
        Seq::empty()
    } else {
        seq![' '] + es[0].0 + seq![' ', '=', ' '] + render(es[0].1) + render_entries(
            es.drop_first(),
        )
    }
}

pub open spec fn render_bytes(bs: Seq<u8>) -> Seq<char>
    decreases bs.len(),
{
    if bs.len() == 0 {
        Seq::empty()
    } else {
        hex_pair(bs[0]) + seq![' '] + render_bytes(bs.drop_first())
    }
}

pub open spec fn no_quote(t: Seq<char>) -> bool {
    forall|k: int| 0 <= k < t.len() ==> t[k] != '"'
}

pub open spec fn no_triple_quote(t: Seq<char>) -> bool {
    forall|k: int| 0 <= k && k + 3 <= t.len() ==> !(#[trigger] t[k] == '"' && t[k + 1] == '"' && t[k + 2] == '"')
}

/// A string that a literal can hold: one with no `"` goes between single
/// quotes; another needs triple quotes, so it holds no `"""` and does not end
/// with `"`.
pub open spec fn string_renderable(t: Seq<char>) -> bool {
    no_quote(t) || (no_triple_quote(t) && t.len() > 0 && t.last() != '"')
}

pub open spec fn is_key(k: Seq<char>) -> bool {
    forall|j: int| 0 <= j < k.len() ==> is_key_char(k[j])
}

/// A tree that has a canonical text: integers fit in 64 bits, each double is
/// a whole number literal with `.`, `e` or `E`, each string can be quoted,
/// keys are made of key characters and are unique within their object.
pub open spec fn renderable(v: ValueModel) -> bool
    decreases v,
{
    match v {
        ValueModel::Int(i) => fits_i64(i),
        ValueModel::Double(t) => number(t.push(' '), 0) == Ok::<Option<(ValueModel, int)>, ParseError>(
            Some((ValueModel::Double(t), t.len() as int)),
        ),
        ValueModel::Str(t) => string_renderable(t),
        ValueModel::Array(vs) => items_renderable(vs),
        ValueModel::Object(es) => keys_unique(es) && entries_renderable(es),
        _ => true,
    }
}

pub open spec fn items_renderable(vs: Seq<ValueModel>) -> bool
    decreases vs,
{
    vs.len() == 0 || (renderable(vs[0]) && items_renderable(vs.drop_first()))
}

pub open spec fn entries_renderable(es: Entries) -> bool
    decreases es,
{
    es.len() == 0 || (is_key(es[0].0) && renderable(es[0].1) && entries_renderable(es.drop_first()))
}

/// Arrays and objects in `v` nest at most `d` deep, `v` itself included.
pub open spec fn fits_depth(v: ValueModel, d: nat) -> bool
    decreases v,
{
    match v {
        ValueModel::Array(vs) => d > 0 && items_fit_depth(vs, (d - 1) as nat),
        ValueModel::Object(es) => d > 0 && entries_fit_depth(es, (d - 1) as nat),
        _ => true,
    }
}

pub open spec fn items_fit_depth(vs: Seq<ValueModel>, d: nat) -> bool
    decreases vs,
{
    vs.len() == 0 || (fits_depth(vs[0], d) && items_fit_depth(vs.drop_first(), d))
}

pub open spec fn entries_fit_depth(es: Entries, d: nat) -> bool
    decreases es,
{
    es.len() == 0 || (fits_depth(es[0].1, d) && entries_fit_depth(es.drop_first(), d))
}

/// A character at which the skipper stops at once.
pub open spec fn stops_skip(c: char) -> bool {
    !is_multispace(c) && c != '/' && c != '<'
}

proof fn lemma_at_concat(s: Seq<char>, i: int, x: Seq<char>, y: Seq<char>)
    requires
        starts_with_at(s, i, x + y),
    ensures
        starts_with_at(s, i, x),
        starts_with_at(s, i + x.len(), y),
{
    assert(s.subrange(i, i + x.len()) =~= (x + y).subrange(0, x.len() as int));
    assert(s.subrange(i + x.len(), i + x.len() + y.len()) =~= (x + y).subrange(
        x.len() as int,
        (x + y).len() as int,
    ));
}

proof fn lemma_at_index(s: Seq<char>, i: int, x: Seq<char>, k: int)
    requires
        starts_with_at(s, i, x),
        0 <= k < x.len(),
    ensures
        s[i + k] == x[k],
{
    assert(s.subrange(i, i + x.len())[k] == x[k]);
}

proof fn lemma_not_at(s: Seq<char>, i: int, x: Seq<char>)
    requires
        x.len() > 0,
        0 <= i < s.len(),
        s[i] != x[0],
    ensures
        !starts_with_at(s, i, x),
{
    if starts_with_at(s, i, x) {
        lemma_at_index(s, i, x, 0);
    }
}

proof fn lemma_skip_stop(s: Seq<char>, i: int)
    requires
        0 <= i < s.len(),
        stops_skip(s[i]),
    ensures
        skip(s, i) == Ok::<int, ParseError>(i),
{
    lemma_not_at(s, i, line_comment_open());
    lemma_not_at(s, i, block_comment_open());
    lemma_not_at(s, i, xml_comment_open());
}

proof fn lemma_skip_spaces(s: Seq<char>, i: int, j: int)
    requires
        0 <= i <= j < s.len(),
        forall|k: int| i <= k < j ==> s[k] == ' ',
        stops_skip(s[j]),
    ensures
        skip(s, i) == Ok::<int, ParseError>(j),
    decreases j - i,
{
    if i < j {
        lemma_skip_spaces(s, i + 1, j);
    } else {
        lemma_skip_stop(s, i);
    }
}

proof fn lemma_digits_end_at(s: Seq<char>, a: int, e: int)
    requires
        0 <= a <= e < s.len(),
        forall|k: int| a <= k < e ==> is_digit(s[k]),
        !is_digit(s[e]),
    ensures
        digits_end(s, a) == e,
    decreases e - a,
{
    if a < e {
        lemma_digits_end_at(s, a + 1, e);
    }
}

/// The digits of a natural number are decimal digits, and write it.
proof fn lemma_nat_text(n: nat)
    ensures
        nat_text(n).len() > 0,
        forall|k: int| 0 <= k < nat_text(n).len() ==> is_digit(#[trigger] nat_text(n)[k]),
        digits_value(nat_text(n), 10) == n,
    decreases n,
{
    let c = ((n % 10) + '0' as nat) as char;
    assert(c as int == (n % 10) + '0' as int);
    if n >= 10 {
        lemma_nat_text(n / 10);
        let t = nat_text(n);
        assert(t.drop_last() =~= nat_text(n / 10));
        assert(t.last() == c);
        assert(is_digit(c));
        assert(digit_value(c) == n % 10);
        assert(digits_value(t, 10) == digits_value(nat_text(n / 10), 10) * 10 + digit_value(c));
        assert((n / 10) * 10 + n % 10 == n);
    } else {
        assert(is_digit(c));
        assert(nat_text(n) == seq![c]);
        assert(nat_text(n).drop_last() =~= Seq::<char>::empty());
        assert(digits_value(Seq::<char>::empty(), 10) == 0);
        assert(nat_text(n).last() == c);
        assert(digit_value(c) == n);
    }
}

proof fn lemma_not_at_k(s: Seq<char>, i: int, x: Seq<char>, k: int)
    requires
        0 <= k < x.len(),
        0 <= i,
        i + k < s.len(),
        s[i + k] != x[k],
    ensures
        !starts_with_at(s, i, x),
{
    if starts_with_at(s, i, x) {
        lemma_at_index(s, i, x, k);
    }
}

proof fn lemma_number_int(s: Seq<char>, i: int, v: int)
    requires
        fits_i64(v),
        starts_with_at(s, i, int_text(v)),
        i + int_text(v).len() < s.len(),
        s[i + int_text(v).len()] == ' ',
    ensures
        number(s, i) == Ok::<Option<(ValueModel, int)>, ParseError>(
            Some((ValueModel::Int(v), i + int_text(v).len())),
        ),
{
    let t = int_text(v);
    let n = t.len() as int;
    assert(s.subrange(i, i + n) =~= t);
    if v < 0 {
        let m = (-v) as nat;
        lemma_nat_text(m);
        let ds = nat_text(m);
        lemma_at_concat(s, i, seq!['-'], ds);
        lemma_at_index(s, i, t, 0);
        assert forall|k: int| i + 1 <= k < i + n implies is_digit(s[k]) by {
            lemma_at_index(s, i + 1, ds, k - i - 1);
        }
        lemma_digits_end_at(s, i + 1, i + n);
        assert(t.drop_first() =~= ds);
        assert forall|k: int| 0 <= k < t.len() implies t[k] != '.' && t[k] != 'e' && t[k] != 'E' by {
            if k > 0 {
                assert(t[k] == ds[k - 1]);
            }
        }
    } else {
        let m = v as nat;
        lemma_nat_text(m);
        lemma_at_index(s, i, t, 0);
        assert forall|k: int| i <= k < i + n implies is_digit(s[k]) by {
            lemma_at_index(s, i, t, k - i);
        }
        lemma_digits_end_at(s, i, i + n);
        assert(is_integer_literal(t));
    }
}

proof fn lemma_digits_local(s: Seq<char>, i: int, u: Seq<char>, p: int)
    requires
        0 <= i,
        i + u.len() <= s.len(),
        forall|q: int| 0 <= q < u.len() ==> s[i + q] == #[trigger] u[q],
        u.len() > 0,
        !is_digit(u.last()),
        0 <= p < u.len(),
    ensures
        digits_end(s, i + p) == i + digits_end(u, p),
        digits_end(u, p) < u.len(),
    decreases u.len() - p,
{
    assert(s[i + p] == u[p]);
    if is_digit(u[p]) {
        lemma_digits_local(s, i, u, p + 1);
    }
}

proof fn lemma_number_double(s: Seq<char>, i: int, t: Seq<char>)
    requires
        number(t.push(' '), 0) == Ok::<Option<(ValueModel, int)>, ParseError>(
            Some((ValueModel::Double(t), t.len() as int)),
        ),
        starts_with_at(s, i, t),
        i + t.len() < s.len(),
        s[i + t.len()] == ' ',
    ensures
        number(s, i) == Ok::<Option<(ValueModel, int)>, ParseError>(
            Some((ValueModel::Double(t), i + t.len())),
        ),
        t.len() > 0,
        is_digit(t[0]) || t[0] == '+' || t[0] == '-' || t[0] == '.',
{
    let u = t.push(' ');
    assert forall|q: int| 0 <= q < u.len() implies s[i + q] == #[trigger] u[q] by {
        if q < t.len() {
            lemma_at_index(s, i, t, q);
        }
    }
    assert forall|p: int| 0 <= p < u.len() implies #[trigger] digits_end(u, p) < u.len()
        && digits_end(s, i + p) == i + digits_end(u, p) by {
        lemma_digits_local(s, i, u, p);
    }
    assert(t.len() > 0) by {
        if t.len() == 0 {
            lemma_digits_end_at(u, 0, 0);
        }
    }
    let a = sign_end(u, 0);
    assert(sign_end(s, i) == i + a);
    lemma_digits_end(u, a);
    let d = digits_end(u, a);
    if d > a {
        if u[d] == '.' {
            lemma_digits_end(u, d + 1);
        }
    } else if u[a] == '.' {
        lemma_digits_end(u, a + 1);
    }
    assert(mantissa_end(s, i) == match mantissa_end(u, 0) {
        Some(m) => Some(m + i),
        None => None::<int>,
    });
    let m = mantissa_end(u, 0)->Some_0;
    if u[m] == 'e' || u[m] == 'E' {
        let b = sign_end(u, m + 1);
        assert(sign_end(s, i + m + 1) == i + b);
        lemma_digits_end(u, b);
    }
    assert(number_end(s, i) == Ok::<Option<int>, ParseError>(Some(i + t.len())));
    assert(s.subrange(i, i + t.len()) =~= t);
    assert(u.subrange(0, t.len() as int) =~= t);
}

proof fn lemma_string(s: Seq<char>, i: int, t: Seq<char>)
    requires
        string_renderable(t),
        starts_with_at(s, i, render(ValueModel::Str(t))),
        i + render(ValueModel::Str(t)).len() < s.len(),
        s[i + render(ValueModel::Str(t)).len()] == ' ',
    ensures
        string_lit(s, i) == Ok::<Option<(Seq<char>, int)>, ParseError>(
            Some((t, i + render(ValueModel::Str(t)).len())),
        ),
        number(s, i) == Ok::<Option<(ValueModel, int)>, ParseError>(None),
{
    let r = render(ValueModel::Str(t));
    let n = r.len() as int;
    lemma_at_index(s, i, r, 0);
    lemma_digits_end_at(s, i, i);
    if no_quote(t) {
        lemma_at_concat(s, i, quote() + t, quote());
        lemma_at_concat(s, i, quote(), t);
        if t.len() == 0 {
            lemma_not_at_k(s, i, triple_quote(), 2);
        } else {
            lemma_at_index(s, i + 1, t, 0);
            lemma_not_at_k(s, i, triple_quote(), 1);
        }
        assert forall|k: int| i + 1 <= k < i + 1 + t.len() implies !starts_with_at(s, k, quote()) by {
            lemma_at_index(s, i + 1, t, k - i - 1);
            lemma_not_at(s, k, quote());
        }
        lemma_find_at(s, i + 1, quote(), i + 1 + t.len());
        assert(s.subrange(i + 1, i + 1 + t.len()) =~= t);
    } else {
        lemma_at_concat(s, i, triple_quote() + t, triple_quote());
        lemma_at_concat(s, i, triple_quote(), t);
        let e = i + 3 + t.len();
        assert forall|k: int| i + 3 <= k < e implies !starts_with_at(s, k, triple_quote()) by {
            let q = k - i - 3;
            if q + 3 <= t.len() {
                assert(!(t[q] == '"' && t[q + 1] == '"' && t[q + 2] == '"'));
                lemma_at_index(s, i + 3, t, q);
                lemma_at_index(s, i + 3, t, q + 1);
                lemma_at_index(s, i + 3, t, q + 2);
                if t[q] != '"' {
                    lemma_not_at_k(s, k, triple_quote(), 0);
                } else if t[q + 1] != '"' {
                    lemma_not_at_k(s, k, triple_quote(), 1);
                } else {
                    lemma_not_at_k(s, k, triple_quote(), 2);
                }
            } else if q + 2 == t.len() {
                lemma_at_index(s, i + 3, t, q + 1);
                lemma_not_at_k(s, k, triple_quote(), 1);
            } else {
                lemma_at_index(s, i + 3, t, q);
                lemma_not_at_k(s, k, triple_quote(), 0);
            }
        }
        lemma_find_at(s, i + 3, triple_quote(), e);
        assert(s.subrange(i + 3, e) =~= t);
    }
}

proof fn lemma_hex_pair(b: u8)
    ensures
        hex_byte(hex_pair(b)) == Some(b),
        is_hex_digit(hex_pair(b)[0]),
        is_hex_digit(hex_pair(b)[1]),
{
    let t = hex_pair(b);
    let hi = b as int / 16;
    let lo = b as int % 16;
    assert(digit_value(hex_char(hi)) == hi);
    assert(digit_value(hex_char(lo)) == lo);
    assert(unsigned_part(t) == t);
    assert(t.drop_last().drop_last() =~= Seq::<char>::empty());
    let t1 = t.drop_last();
    assert(t1 =~= seq![hex_char(hi)]);
    assert(t1.drop_last() =~= Seq::<char>::empty());
    assert(digits_value(t1.drop_last(), 16) == 0);
    assert(t1.last() == hex_char(hi));
    assert(digits_value(t1, 16) == hi);
    assert(digits_value(t, 16) == hi * 16 + lo);
}

proof fn lemma_hex_bytes(s: Seq<char>, p: int, end: int, bs: Seq<u8>)
    requires
        starts_with_at(s, p, render_bytes(bs)),
        p + render_bytes(bs).len() == end,
    ensures
        hex_bytes(s, p, end) == bs,
        forall|k: int| p <= k < end ==> s[k] != ']',
    decreases bs.len(),
{
    if bs.len() > 0 {
        let b = bs[0];
        lemma_hex_pair(b);
        lemma_at_concat(s, p, hex_pair(b) + seq![' '], render_bytes(bs.drop_first()));
        lemma_at_concat(s, p, hex_pair(b), seq![' ']);
        lemma_at_index(s, p, hex_pair(b), 0);
        lemma_at_index(s, p, hex_pair(b), 1);
        lemma_at_index(s, p + 2, seq![' '], 0);
        assert(hex_char(b as int / 16) as u32 == (b as int / 16) + (if b as int / 16 < 10 { 48int } else { 55int }));
        assert(hex_char(b as int % 16) as u32 == (b as int % 16) + (if b as int % 16 < 10 { 48int } else { 55int }));
        assert(token_end(s, p + 2, end) == p + 2);
        assert(token_end(s, p + 1, end) == p + 2);
        assert(token_end(s, p, end) == p + 2);
        assert(s.subrange(p, p + 2) =~= hex_pair(b));
        lemma_hex_bytes(s, p + 3, end, bs.drop_first());
        assert(hex_bytes(s, p + 2, end) == hex_bytes(s, p + 3, end));
        assert(byte_seq(Some(b)) + bs.drop_first() =~= bs);
    }
}

proof fn lemma_key_char_facts(c: char)
    requires
        is_key_char(c),
    ensures
        stops_skip(c),
        c != '}',
        c != '=',
        c != ' ',
{
}

proof fn lemma_key_end_at(s: Seq<char>, a: int, e: int)
    requires
        0 <= a <= e < s.len(),
        forall|k: int| a <= k < e ==> is_key_char(s[k]),
        !is_key_char(s[e]),
    ensures
        key_end(s, a) == e,
    decreases e - a,
{
    if a < e {
        lemma_key_end_at(s, a + 1, e);
    }
}

/// The canonical text is never empty, and starts with a character that ends
/// a run of whitespace and is no closing delimiter.
proof fn lemma_render_first(v: ValueModel)
    requires
        renderable(v),
    ensures
        render(v).len() > 0,
        stops_skip(render(v)[0]),
        render(v)[0] != ']',
        render(v)[0] != '}',
        render(v)[0] != '=',
        render(v)[0] == '[' <==> v is Array,
        render(v)[0] == '{' <==> v is Object,
        render(v)[0] == '#' <==> v is HexArray,
        render(v)[0] == '"' <==> v is Str,
        render(v)[0] == 't' <==> v == ValueModel::Bool(true),
        render(v)[0] == 'f' <==> v == ValueModel::Bool(false),
        render(v)[0] == 'n' <==> v is Null,
{
    match v {
        ValueModel::Int(i) => {
            if i < 0 {
                lemma_nat_text((-i) as nat);
                assert((seq!['-'] + nat_text((-i) as nat))[0] == '-');
            } else {
                lemma_nat_text(i as nat);
                assert(is_digit(nat_text(i as nat)[0]));
            }
        },
        ValueModel::Double(t) => {
            let u = t.push(' ');
            assert(u.subrange(0, t.len() as int) =~= t);
            lemma_number_double(u, 0, t);
        },
        ValueModel::Str(t) => {
            if no_quote(t) {
                assert((quote() + t + quote())[0] == '"');
            } else {
                assert((triple_quote() + t + triple_quote())[0] == '"');
            }
        },
        ValueModel::Array(vs) => {
            assert((seq!['['] + render_items(vs) + seq![' ', ']'])[0] == '[');
        },
        ValueModel::HexArray(bs) => {
            assert((hex_open() + render_bytes(bs) + close_bracket())[0] == '#');
        },
        ValueModel::Object(es) => {
            assert((seq!['{'] + render_entries(es) + seq![' ', '}'])[0] == '{');
        },
        _ => {},
    }
}

/// Parsing the canonical text of a value, followed by a space, gives the
/// value back and ends where the text ends.
#[verifier::rlimit(100)]
proof fn lemma_value(s: Seq<char>, i: int, v: ValueModel, d: nat)
    requires
        renderable(v),
        fits_depth(v, d),
        starts_with_at(s, i, render(v)),
        i + render(v).len() < s.len(),
        s[i + render(v).len()] == ' ',
    ensures
        value(s, i, d) == Ok::<(ValueModel, int), ParseError>((v, i + render(v).len())),
    decreases v, 0int,
{
    let r = render(v);
    let n = r.len() as int;
    lemma_render_first(v);
    lemma_at_index(s, i, r, 0);
    if !(v is HexArray) {
        lemma_not_at(s, i, hex_open());
    }
    if !(v == ValueModel::Bool(false)) {
        lemma_not_at(s, i, false_word());
    }
    if !(v == ValueModel::Bool(true)) {
        lemma_not_at(s, i, true_word());
    }
    if !(v is Null) {
        lemma_not_at(s, i, null_word());
    }
    match v {
        ValueModel::Int(x) => {
            lemma_number_int(s, i, x);
        },
        ValueModel::Double(t) => {
            lemma_number_double(s, i, t);
        },
        ValueModel::Str(t) => {
            lemma_string(s, i, t);
        },
        ValueModel::Array(vs) => {
            let ri = render_items(vs);
            let tail = seq![' ', ']'];
            assert(seq!['['] + ri + tail =~= seq!['['] + (ri + tail));
            lemma_at_concat(s, i, seq!['['], ri + tail);
            lemma_items(s, i + 1, vs, (d - 1) as nat);
        },
        ValueModel::HexArray(bs) => {
            let rb = render_bytes(bs);
            assert(hex_open() + rb + close_bracket() =~= hex_open() + (rb + close_bracket()));
            lemma_at_concat(s, i, hex_open(), rb + close_bracket());
            lemma_at_concat(s, i + 2, rb, close_bracket());
            let end = i + 2 + rb.len();
            lemma_hex_bytes(s, i + 2, end, bs);
            assert forall|k: int| i + 2 <= k < end implies !starts_with_at(s, k, close_bracket()) by {
                lemma_not_at(s, k, close_bracket());
            }
            lemma_find_at(s, i + 2, close_bracket(), end);
        },
        ValueModel::Object(es) => {
            let re = render_entries(es);
            let tail = seq![' ', '}'];
            assert(seq!['{'] + re + tail =~= seq!['{'] + (re + tail));
            lemma_at_concat(s, i, seq!['{'], re + tail);
            lemma_entries(s, i + 1, es, (d - 1) as nat);
            lemma_distinct_pairs_object(es);
        },
        _ => {},
    }
}

#[verifier::rlimit(100)]
proof fn lemma_items(s: Seq<char>, p: int, vs: Seq<ValueModel>, d: nat)
    requires
        items_renderable(vs),
        items_fit_depth(vs, d),
        starts_with_at(s, p, render_items(vs) + seq![' ', ']']),
    ensures
        elements(s, p, d) == Ok::<(Seq<ValueModel>, int), ParseError>(
            (vs, p + render_items(vs).len() + 2),
        ),
    decreases vs, 1int,
{
    let tail = seq![' ', ']'];
    let full = render_items(vs) + tail;
    lemma_at_index(s, p, full, 0);
    if vs.len() == 0 {
        assert(full =~= tail);
        lemma_at_index(s, p, full, 1);
        lemma_skip_spaces(s, p, p + 1);
        assert(vs =~= Seq::<ValueModel>::empty());
    } else {
        let v0 = vs[0];
        let r0 = render(v0);
        let rest = vs.drop_first();
        let after = render_items(rest) + tail;
        assert(full =~= seq![' '] + (r0 + (seq![' ', ','] + after)));
        lemma_at_concat(s, p, seq![' '], r0 + (seq![' ', ','] + after));
        lemma_at_concat(s, p + 1, r0, seq![' ', ','] + after);
        let e = p + 1 + r0.len();
        lemma_at_concat(s, e, seq![' ', ','], after);
        lemma_at_index(s, e, seq![' ', ','], 0);
        lemma_at_index(s, e, seq![' ', ','], 1);
        lemma_render_first(v0);
        lemma_at_index(s, p + 1, r0, 0);
        lemma_skip_spaces(s, p, p + 1);
        lemma_value(s, p + 1, v0, d);
        lemma_skip_spaces(s, e, e + 1);
        lemma_items(s, e + 2, rest, d);
        assert(seq![v0] + rest =~= vs);
    }
}

#[verifier::rlimit(100)]
proof fn lemma_entries(s: Seq<char>, p: int, es: Entries, d: nat)
    requires
        entries_renderable(es),
        entries_fit_depth(es, d),
        starts_with_at(s, p, render_entries(es) + seq![' ', '}']),
    ensures
        pairs(s, p, d) == Ok::<(Entries, int), ParseError>((es, p + render_entries(es).len() + 2)),
    decreases es, 1int,
{
    let tail = seq![' ', '}'];
    let full = render_entries(es) + tail;
    lemma_at_index(s, p, full, 0);
    if es.len() == 0 {
        assert(full =~= tail);
        lemma_at_index(s, p, full, 1);
        lemma_skip_spaces(s, p, p + 1);
        assert(es =~= Seq::<(Seq<char>, ValueModel)>::empty());
    } else {
        let k = es[0].0;
        let v = es[0].1;
        let rv = render(v);
        let rest = es.drop_first();
        let after = render_entries(rest) + tail;
        let eq = seq![' ', '=', ' '];
        assert(full =~= seq![' '] + (k + (eq + (rv + after))));
        lemma_at_concat(s, p, seq![' '], k + (eq + (rv + after)));
        lemma_at_concat(s, p + 1, k, eq + (rv + after));
        let q = p + 1 + k.len();
        lemma_at_concat(s, q, eq, rv + after);
        lemma_at_concat(s, q + 3, rv, after);
        lemma_render_first(v);
        lemma_at_index(s, q + 3, rv, 0);
        let e = q + 3 + rv.len();
        assert(after[0] == ' ') by {
            if rest.len() > 0 {
                assert(render_entries(rest)[0] == ' ');
            }
        }
        lemma_at_index(s, e, after, 0);
        lemma_pair_head(s, p, k, q);
        lemma_value(s, q + 3, v, d);
        lemma_entries(s, e, rest, d);
        assert(seq![(k, v)] + rest =~= es);
    }
}

/// A key between spaces and `=` is read as that key, whether or not it is
/// empty, and the value begins after the space that follows `=`.
proof fn lemma_pair_head(s: Seq<char>, p: int, k: Seq<char>, q: int)
    requires
        is_key(k),
        q == p + 1 + k.len(),
        starts_with_at(s, p, seq![' ']),
        starts_with_at(s, p + 1, k),
        starts_with_at(s, q, seq![' ', '=', ' ']),
        q + 3 < s.len(),
        stops_skip(s[q + 3]),
    ensures
        skip(s, p) == Ok::<int, ParseError>(if k.len() > 0 { p + 1 } else { q + 1 }),
        s[if k.len() > 0 { p + 1 } else { q + 1 }] != '}',
        key_end(s, if k.len() > 0 { p + 1 } else { q + 1 }) == if k.len() > 0 { q } else { q + 1 },
        s.subrange(if k.len() > 0 { p + 1 } else { q + 1 }, if k.len() > 0 { q } else { q + 1 }) == k,
        skip(s, if k.len() > 0 { q } else { q + 1 }) == Ok::<int, ParseError>(q + 1),
        s[q + 1] == '=',
        skip(s, q + 2) == Ok::<int, ParseError>(q + 3),
{
    let eq = seq![' ', '=', ' '];
    lemma_at_index(s, p, seq![' '], 0);
    lemma_at_index(s, q, eq, 0);
    lemma_at_index(s, q, eq, 1);
    lemma_at_index(s, q, eq, 2);
    assert forall|j: int| p + 1 <= j < q implies is_key_char(s[j]) by {
        lemma_at_index(s, p + 1, k, j - p - 1);
    }
    if k.len() > 0 {
        lemma_at_index(s, p + 1, k, 0);
        lemma_key_char_facts(k[0]);
        lemma_skip_spaces(s, p, p + 1);
        lemma_key_end_at(s, p + 1, q);
        lemma_skip_spaces(s, q, q + 1);
        assert(s.subrange(p + 1, q) =~= k);
    } else {
        lemma_skip_spaces(s, p, p + 2);
        lemma_key_end_at(s, q + 1, q + 1);
        lemma_skip_stop(s, q + 1);
        assert(s.subrange(q + 1, q + 1) =~= k);
    }
    lemma_skip_spaces(s, q + 2, q + 3);
}

/// The canonical text of any renderable tree, followed by a space, parses back
/// to that tree where the nesting allowed covers the tree's, and the parse
/// ends where the text ends.
pub proof fn lemma_render_round_trip(v: ValueModel, d: nat)
    requires
        renderable(v),
        fits_depth(v, d),
    ensures
        value(render(v).push(' '), 0, d) == Ok::<(ValueModel, int), ParseError>(
            (v, render(v).len() as int),
        ),
{
    let s = render(v).push(' ');
    assert(s.subrange(0, render(v).len() as int) =~= render(v));
    lemma_value(s, 0, v, d);
}

proof fn lemma_document_of_pairs(s: Seq<char>, d: nat, es: Entries)
    requires
        s.len() > 0,
        s[0] == '{',
        d > 0,
        pairs(s, 1, (d - 1) as nat) == Ok::<(Entries, int), ParseError>((es, s.len() as int)),
        keys_unique(es),
    ensures
        document(s, d) == Ok::<(Entries, int), ParseError>((es, s.len() as int)),
{
    lemma_skip_stop(s, 0);
    lemma_distinct_pairs_object(es);
}

/// The canonical text of a renderable object is a whole document: where the
/// nesting allowed covers the object's, it parses to that object and leaves
/// nothing unread.
pub proof fn lemma_document_round_trip(es: Entries, d: nat)
    requires
        renderable(ValueModel::Object(es)),
        fits_depth(ValueModel::Object(es), d),
    ensures
        document(render(ValueModel::Object(es)), d) == Ok::<(Entries, int), ParseError>(
            (es, render(ValueModel::Object(es)).len() as int),
        ),
{
    let s = render(ValueModel::Object(es));
    let re = render_entries(es);
    let tail = seq![' ', '}'];
    assert(s =~= seq!['{'] + (re + tail));
    lemma_at_concat(s, 0, seq!['{'], re + tail);
    lemma_entries(s, 1, es, (d - 1) as nat);
    lemma_document_of_pairs(s, d, es);
}

/// A document `{ k1 = v1 ... kN = vN }` whose N keys are distinct parses to
/// an object of exactly N entries, the i-th keyed `ki` and holding `vi`.
pub proof fn lemma_distinct_keys_document(es: Entries, d: nat)
    requires
        keys_unique(es),
        entries_renderable(es),
        fits_depth(ValueModel::Object(es), d),
    ensures
        document(render(ValueModel::Object(es)), d) matches Ok((parsed, _)) && parsed.len()
            == es.len() && forall|i: int|
            0 <= i < es.len() ==> parsed[i].0 == es[i].0 && parsed[i].1 == es[i].1,
{
    lemma_document_round_trip(es, d);
}

} // verus!
