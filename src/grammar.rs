//! The composite grammar: values, arrays, hex arrays, objects, and the root
//! document.

use vstd::prelude::*;
use crate::error::{ParseError, ParseErrorKind, Expected, syntax_error, too_deep};
use crate::lexer::{skip, lemma_skip_bounds, skip_comments_and_whitespace, starts_with_at, find_from, lemma_find_from, find, matches_at};
use crate::token::{key_end, lemma_key_end, scan_key, number, scan_number, string_lit, scan_string, hex_bytes, scan_hex_bytes};
use crate::value::{keys_unique, lemma_distinct_pairs_object, lemma_build_object_unique, KV3Value, KV3Object, ValueModel, Entries, build_object, views_of, entries_of};
use crate::chars::{string_of, chars_of};

verus! {

pub open spec fn cons_values(v: ValueModel, r: Result<(Seq<ValueModel>, int), ParseError>) -> Result<(Seq<ValueModel>, int), ParseError> {
    match r {
        Ok((vs, e)) => Ok((seq![v] + vs, e)),
        Err(x) => Err(x),
    }
}

pub open spec fn cons_pairs(k: Seq<char>, v: ValueModel, r: Result<(Entries, int), ParseError>) -> Result<(Entries, int), ParseError> {
    match r {
        Ok((ps, e)) => Ok((seq![(k, v)] + ps, e)),
        Err(x) => Err(x),
    }
}

pub open spec fn hex_open() -> Seq<char> {
    seq!['#', '[']
}

pub open spec fn close_bracket() -> Seq<char> {
    seq![']']
}

pub open spec fn false_word() -> Seq<char> {
    seq!['f', 'a', 'l', 's', 'e']
}

pub open spec fn true_word() -> Seq<char> {
    seq!['t', 'r', 'u', 'e']
}

pub open spec fn null_word() -> Seq<char> {
    seq!['n', 'u', 'l', 'l']
}

/// The value at position `i`, and the position after it. The alternatives are
/// tried in this order: array, hex array, object, `false`, `true`, `null`,
/// number, string. Once an opener is read, a failure inside is final. At most
/// `d` arrays and objects may nest, this value included.
pub open spec fn value(s: Seq<char>, i: int, d: nat) -> Result<(ValueModel, int), ParseError>
    decreases s.len() - i, 1int,
{
    if 0 <= i < s.len() && s[i] == '[' {
        if d == 0 {
            Err(too_deep(i))
        } else {
            match elements(s, i + 1, (d - 1) as nat) {
                Ok((vs, e)) => Ok((ValueModel::Array(vs), e)),
                Err(x) => Err(x),
            }
        }
    } else if starts_with_at(s, i, hex_open()) {
        match find_from(s, i + 2, close_bracket()) {
            Some(j) => Ok((ValueModel::HexArray(hex_bytes(s, i + 2, j)), j + 1)),
            None => Err(syntax_error(s.len() as int, Expected::CloseBracket)),
        }
    } else if 0 <= i < s.len() && s[i] == '{' {
        if d == 0 {
            Err(too_deep(i))
        } else {
            match pairs(s, i + 1, (d - 1) as nat) {
                Ok((ps, e)) => Ok((ValueModel::Object(build_object(ps)), e)),
                Err(x) => Err(x),
            }
        }
    } else if starts_with_at(s, i, false_word()) {
        Ok((ValueModel::Bool(false), i + 5))
    } else if starts_with_at(s, i, true_word()) {
        Ok((ValueModel::Bool(true), i + 4))
    } else if starts_with_at(s, i, null_word()) {
        Ok((ValueModel::Null, i + 4))
    } else {
        match number(s, i) {
            Err(x) => Err(x),
            Ok(Some((v, e))) => Ok((v, e)),
            Ok(None) => match string_lit(s, i) {
                Err(x) => Err(x),
                Ok(Some((t, e))) => Ok((ValueModel::Str(t), e)),
                Ok(None) => Err(syntax_error(i, Expected::Value)),
            },
        }
    }
}

/// The elements of an array from position `i`, just after `[` or after a
/// separating `,`, up to and including the closing `]`. One trailing `,` is
/// allowed before `]`.
pub open spec fn elements(s: Seq<char>, i: int, d: nat) -> Result<(Seq<ValueModel>, int), ParseError>
    decreases s.len() - i, 2int,
    via elements_decreases
{
    if i < 0 || i > s.len() {
        Err(syntax_error(i, Expected::CloseBracket))
    } else {
        match skip(s, i) {
            Err(x) => Err(x),
            Ok(j) => if j < s.len() && s[j] == ']' {
                Ok((Seq::empty(), j + 1))
            } else {
                match value(s, j, d) {
                    Err(x) => Err(x),
                    Ok((v, e)) => if e <= j || e > s.len() {
                        // a value always ends after it starts, within the input
                        Err(syntax_error(j, Expected::Value))
                    } else {
                        match skip(s, e) {
                            Err(x) => Err(x),
                            Ok(k) => if k < s.len() && s[k] == ',' {
                                cons_values(v, elements(s, k + 1, d))
                            } else if k < s.len() && s[k] == ']' {
                                Ok((seq![v], k + 1))
                            } else {
                                Err(syntax_error(k, Expected::CloseBracket))
                            },
                        }
                    },
                }
            },
        }
    }
}

#[via_fn]
proof fn elements_decreases(s: Seq<char>, i: int, d: nat) {
    if 0 <= i <= s.len() {
        lemma_skip_bounds(s, i);
        assert forall|e: int| 0 <= e <= s.len() implies (#[trigger] skip(s, e) matches Ok(k) ==> e <= k
            <= s.len()) by {
            lemma_skip_bounds(s, e);
        }
    }
}

/// The key/value pairs of an object from position `i`, just after `{` or
/// after a value, up to and including the closing `}`. A pair is a key (a run
/// of key characters, possibly empty), `=`, and a value.
pub open spec fn pairs(s: Seq<char>, i: int, d: nat) -> Result<(Entries, int), ParseError>
    decreases s.len() - i, 2int,
    via pairs_decreases
{
    if i < 0 || i > s.len() {
        Err(syntax_error(i, Expected::CloseBrace))
    } else {
        match skip(s, i) {
            Err(x) => Err(x),
            Ok(j) => if j >= s.len() {
                Err(syntax_error(j, Expected::CloseBrace))
            } else if s[j] == '}' {
                Ok((Seq::empty(), j + 1))
            } else {
                let k = key_end(s, j);
                match skip(s, k) {
                    Err(x) => Err(x),
                    Ok(m) => if m < s.len() && s[m] == '=' {
                        match skip(s, m + 1) {
                            Err(x) => Err(x),
                            Ok(n) => match value(s, n, d) {
                                Err(x) => Err(x),
                                Ok((v, e)) => if e <= n || e > s.len() {
                                    // a value always ends after it starts, within the input
                                    Err(syntax_error(n, Expected::Value))
                                } else {
                                    cons_pairs(s.subrange(j, k), v, pairs(s, e, d))
                                },
                            },
                        }
                    } else {
                        Err(syntax_error(m, Expected::Equals))
                    },
                }
            },
        }
    }
}

#[via_fn]
proof fn pairs_decreases(s: Seq<char>, i: int, d: nat) {
    if 0 <= i <= s.len() {
        lemma_skip_bounds(s, i);
        if let Ok(j) = skip(s, i) {
            if j < s.len() {
                lemma_key_end(s, j);
                let k = key_end(s, j);
                lemma_skip_bounds(s, k);
                if let Ok(m) = skip(s, k) {
                    if m < s.len() {
                        lemma_skip_bounds(s, m + 1);
                    }
                }
            }
        }
    }
}

/// The root document: leading whitespace and comments, `{`, key/value pairs,
/// `}`, and the whitespace and comments after it. Gives the entries of the
/// root object and the position where the unread rest of the input begins.
/// At most `d` arrays and objects may nest, the root object included.
pub open spec fn document(s: Seq<char>, d: nat) -> Result<(Entries, int), ParseError> {
    match skip(s, 0) {
        Err(x) => Err(x),
        Ok(j) => if j < s.len() && s[j] == '{' && d == 0 {
            Err(too_deep(j))
        } else if j < s.len() && s[j] == '{' {
            match pairs(s, j + 1, (d - 1) as nat) {
                Err(x) => Err(x),
                Ok((ps, e)) => match skip(s, e) {
                    Err(x) => Err(x),
                    Ok(f) => Ok((build_object(ps), f)),
                },
            }
        } else {
            Err(syntax_error(j, Expected::OpenBrace))
        },
    }
}

pub open spec fn value_result(r: Result<(KV3Value, usize), ParseError>) -> Result<(ValueModel, int), ParseError> {
    match r {
        Ok((v, e)) => Ok((v@, e as int)),
        Err(x) => Err(x),
    }
}

pub open spec fn prepend_values(vs: Seq<ValueModel>, r: Result<(Seq<ValueModel>, int), ParseError>) -> Result<(Seq<ValueModel>, int), ParseError> {
    match r {
        Ok((ws, e)) => Ok((vs + ws, e)),
        Err(x) => Err(x),
    }
}

pub open spec fn prepend_pairs(ps: Entries, r: Result<(Entries, int), ParseError>) -> Result<(Entries, int), ParseError> {
    match r {
        Ok((qs, e)) => Ok((ps + qs, e)),
        Err(x) => Err(x),
    }
}

proof fn lemma_prepend_values(vs: Seq<ValueModel>, v: ValueModel, r: Result<(Seq<ValueModel>, int), ParseError>)
    ensures
        prepend_values(vs, cons_values(v, r)) == prepend_values(vs.push(v), r),
        prepend_values(Seq::empty(), r) == r,
{
    if let Ok((ws, e)) = r {
        assert(vs + (seq![v] + ws) =~= vs.push(v) + ws);
        assert(Seq::<ValueModel>::empty() + ws =~= ws);
    }
}

proof fn lemma_prepend_pairs(ps: Entries, k: Seq<char>, v: ValueModel, r: Result<(Entries, int), ParseError>)
    ensures
        prepend_pairs(ps, cons_pairs(k, v, r)) == prepend_pairs(ps.push((k, v)), r),
        prepend_pairs(Seq::empty(), r) == r,
{
    if let Ok((qs, e)) = r {
        assert(ps + (seq![(k, v)] + qs) =~= ps.push((k, v)) + qs);
        assert(Seq::<(Seq<char>, ValueModel)>::empty() + qs =~= qs);
    }
}

/// The value at position `i`; see `value`.
pub fn parse_value(s: &[char], i: usize, depth: usize) -> (r: Result<(KV3Value, usize), ParseError>)
    requires
        i <= s@.len(),
    ensures
        value_result(r) == value(s@, i as int, depth as nat),
        r matches Ok((v, e)) ==> i < e <= s@.len(),
    decreases s@.len() - i, 1int,
{
    let n = s.len();
    if i < n && s[i] == '[' {
        if depth == 0 {
            return Err(ParseError { kind: ParseErrorKind::TooDeep, position: i });
        }
        return match parse_array(s, i, depth - 1) {
            Ok((items, e)) => Ok((KV3Value::Array(items), e)),
            Err(x) => Err(x),
        };
    }
    let hex: &[char] = &['#', '['];
    assert(hex@ =~= hex_open());
    if matches_at(s, i, hex) {
        let close: &[char] = &[']'];
        assert(close@ =~= close_bracket());
        proof { lemma_find_from(s@, i + 2, close_bracket()); }
        return match find(s, i + 2, close) {
            Some(j) => Ok((KV3Value::HexArray(scan_hex_bytes(s, i + 2, j)), j + 1)),
            None => Err(ParseError { kind: ParseErrorKind::Syntax(Expected::CloseBracket), position: n }),
        };
    }
    if i < n && s[i] == '{' {
        if depth == 0 {
            return Err(ParseError { kind: ParseErrorKind::TooDeep, position: i });
        }
        return match parse_object(s, i, depth - 1) {
            Ok((o, e)) => Ok((KV3Value::Object(o), e)),
            Err(x) => Err(x),
        };
    }
    let fw: &[char] = &['f', 'a', 'l', 's', 'e'];
    assert(fw@ =~= false_word());
    if matches_at(s, i, fw) {
        return Ok((KV3Value::Bool(false), i + 5));
    }
    let tw: &[char] = &['t', 'r', 'u', 'e'];
    assert(tw@ =~= true_word());
    if matches_at(s, i, tw) {
        return Ok((KV3Value::Bool(true), i + 4));
    }
    let nw: &[char] = &['n', 'u', 'l', 'l'];
    assert(nw@ =~= null_word());
    if matches_at(s, i, nw) {
        return Ok((KV3Value::Null, i + 4));
    }
    match scan_number(s, i) {
        Err(x) => Err(x),
        Ok(Some((v, e))) => {
            proof { crate::token::lemma_number_bounds(s@, i as int); }
            Ok((v, e))
        },
        Ok(None) => match scan_string(s, i) {
            Err(x) => Err(x),
            Ok(Some((t, e))) => {
                proof { crate::token::lemma_string_bounds(s@, i as int); }
                Ok((KV3Value::String(t), e))
            },
            Ok(None) => Err(ParseError { kind: ParseErrorKind::Syntax(Expected::Value), position: i }),
        },
    }
}

/// The array whose `[` stands at position `i`: its elements and the position
/// after its `]`; see `elements`.
fn parse_array(s: &[char], i: usize, depth: usize) -> (r: Result<(Vec<KV3Value>, usize), ParseError>)
    requires
        i < s@.len(),
        s@[i as int] == '[',
    ensures
        match r {
            Ok((vs, e)) => elements(s@, i + 1, depth as nat) == Ok::<(Seq<ValueModel>, int), ParseError>(
                (views_of(vs@), e as int),
            ) && i < e <= s@.len(),
            Err(x) => elements(s@, i + 1, depth as nat) == Err::<(Seq<ValueModel>, int), ParseError>(x),
        },
    decreases s@.len() - i, 0int,
{
    let n = s.len();
    let mut items: Vec<KV3Value> = Vec::new();
    let mut p: usize = i + 1;
    proof { lemma_prepend_values(Seq::empty(), ValueModel::Null, elements(s@, p as int, depth as nat)); }
    loop
        invariant
            i < p <= n,
            n == s@.len(),
            elements(s@, i + 1, depth as nat) == prepend_values(views_of(items@), elements(s@, p as int, depth as nat)),
        decreases n - p,
    {
        proof { lemma_skip_bounds(s@, p as int); }
        let j = match skip_comments_and_whitespace(s, p) {
            Ok(j) => j,
            Err(x) => { return Err(x); },
        };
        if j < n && s[j] == ']' {
            proof { assert(views_of(items@) + Seq::empty() =~= views_of(items@)); }
            return Ok((items, j + 1));
        }
        let (v, e) = match parse_value(s, j, depth) {
            Ok(pair) => pair,
            Err(x) => { return Err(x); },
        };
        proof { lemma_skip_bounds(s@, e as int); }
        let k = match skip_comments_and_whitespace(s, e) {
            Ok(k) => k,
            Err(x) => { return Err(x); },
        };
        let ghost before = items@;
        if k < n && s[k] == ',' {
            proof { lemma_prepend_values(views_of(before), v@, elements(s@, k + 1, depth as nat)); }
            items.push(v);
            assert(items@.drop_last() =~= before);
            p = k + 1;
        } else if k < n && s[k] == ']' {
            items.push(v);
            assert(items@.drop_last() =~= before);
            assert(views_of(before) + seq![v@] =~= views_of(items@));
            return Ok((items, k + 1));
        } else {
            return Err(ParseError { kind: ParseErrorKind::Syntax(Expected::CloseBracket), position: k });
        }
    }
}

/// The object whose `{` stands at position `i`, and the position after its
/// `}`; see `pairs`.
fn parse_object(s: &[char], i: usize, depth: usize) -> (r: Result<(KV3Object, usize), ParseError>)
    requires
        i < s@.len(),
        s@[i as int] == '{',
    ensures
        match r {
            Ok((o, e)) => pairs(s@, i + 1, depth as nat) matches Ok((ps, f)) && f == e
                && entries_of(o.fields@) == build_object(ps) && i < e <= s@.len(),
            Err(x) => pairs(s@, i + 1, depth as nat) == Err::<(Entries, int), ParseError>(x),
        },
    decreases s@.len() - i, 0int,
{
    let n = s.len();
    let mut fields: Vec<(String, KV3Value)> = Vec::new();
    let ghost ps: Entries = Seq::empty();
    let mut p: usize = i + 1;
    proof { lemma_prepend_pairs(Seq::empty(), Seq::empty(), ValueModel::Null, pairs(s@, p as int, depth as nat)); }
    assert(entries_of(fields@) =~= build_object(ps));
    loop
        invariant
            i < p <= n,
            n == s@.len(),
            pairs(s@, i + 1, depth as nat) == prepend_pairs(ps, pairs(s@, p as int, depth as nat)),
            entries_of(fields@) == build_object(ps),
        decreases n - p,
    {
        proof { lemma_skip_bounds(s@, p as int); }
        let j = match skip_comments_and_whitespace(s, p) {
            Ok(j) => j,
            Err(x) => { return Err(x); },
        };
        if j >= n {
            return Err(ParseError { kind: ParseErrorKind::Syntax(Expected::CloseBrace), position: j });
        }
        if s[j] == '}' {
            proof { assert(ps + Seq::empty() =~= ps); }
            return Ok((KV3Object { fields }, j + 1));
        }
        proof { lemma_key_end(s@, j as int); }
        let k = scan_key(s, j);
        proof { lemma_skip_bounds(s@, k as int); }
        let m = match skip_comments_and_whitespace(s, k) {
            Ok(m) => m,
            Err(x) => { return Err(x); },
        };
        if !(m < n && s[m] == '=') {
            return Err(ParseError { kind: ParseErrorKind::Syntax(Expected::Equals), position: m });
        }
        proof { lemma_skip_bounds(s@, m + 1); }
        let q = match skip_comments_and_whitespace(s, m + 1) {
            Ok(q) => q,
            Err(x) => { return Err(x); },
        };
        let (v, e) = match parse_value(s, q, depth) {
            Ok(pair) => pair,
            Err(x) => { return Err(x); },
        };
        let key = string_of(s, j, k);
        proof {
            lemma_prepend_pairs(ps, key@, v@, pairs(s@, e as int, depth as nat));
            assert(ps.push((key@, v@)).drop_last() =~= ps);
        }
        crate::value::insert_field(&mut fields, key, v);
        proof { ps = ps.push((key@, v@)); }
        p = e;
    }
}

/// An object whose pairs carry distinct keys parses to exactly those pairs:
/// one entry for each, keyed by its key, holding its decoded value, in the
/// order of the text.
pub proof fn lemma_object_of_distinct_keys(s: Seq<char>, i: int, d: nat)
    requires
        0 <= i < s.len(),
        s[i] == '{',
        d > 0,
        pairs(s, i + 1, (d - 1) as nat) matches Ok((ps, e)) && keys_unique(ps),
    ensures
        value(s, i, d) == Ok::<(ValueModel, int), ParseError>(
            (
                ValueModel::Object(pairs(s, i + 1, (d - 1) as nat)->Ok_0.0),
                pairs(s, i + 1, (d - 1) as nat)->Ok_0.1,
            ),
        ),
{
    lemma_distinct_pairs_object(pairs(s, i + 1, (d - 1) as nat)->Ok_0.0);
}

/// The objects of the grammar never hold a key twice.
pub proof fn lemma_document_keys_unique(s: Seq<char>, d: nat)
    ensures
        document(s, d) matches Ok((es, f)) ==> keys_unique(es),
{
    if let Ok(j) = skip(s, 0) {
        if j < s.len() && s[j] == '{' && d > 0 {
            if let Ok((ps, e)) = pairs(s, j + 1, (d - 1) as nat) {
                lemma_build_object_unique(ps);
            }
        }
    }
}

/// The root document in `s`; see `document`. Gives the root object and the
/// position where the unread rest begins.
pub fn parse_document(s: &[char], max_depth: usize) -> (r: Result<(KV3Object, usize), ParseError>)
    ensures
        match r {
            Ok((o, f)) => document(s@, max_depth as nat) == Ok::<(Entries, int), ParseError>(
                (entries_of(o.fields@), f as int),
            ) && f <= s@.len(),
            Err(x) => document(s@, max_depth as nat) == Err::<(Entries, int), ParseError>(x),
        },
{
    let n = s.len();
    proof { lemma_skip_bounds(s@, 0); }
    let j = match skip_comments_and_whitespace(s, 0) {
        Ok(j) => j,
        Err(x) => { return Err(x); },
    };
    if !(j < n && s[j] == '{') {
        return Err(ParseError { kind: ParseErrorKind::Syntax(Expected::OpenBrace), position: j });
    }
    if max_depth == 0 {
        return Err(ParseError { kind: ParseErrorKind::TooDeep, position: j });
    }
    let (o, e) = match parse_object(s, j, max_depth - 1) {
        Ok(pair) => pair,
        Err(x) => { return Err(x); },
    };
    proof { lemma_skip_bounds(s@, e as int); }
    match skip_comments_and_whitespace(s, e) {
        Ok(f) => Ok((o, f)),
        Err(x) => Err(x),
    }
}

/// The deepest nesting of arrays and objects, the root object included, that
/// `parse_kv3` reads before it fails with `TooDeep`.
pub const DEFAULT_MAX_DEPTH: usize = 128;

/// Parses a KV3 document: the root object, and the text after it that was
/// not read (trailing text is left to the caller). Arrays and objects may
/// nest at most `DEFAULT_MAX_DEPTH` deep.
pub fn parse_kv3(input: &str) -> (r: Result<(&str, KV3Object), ParseError>)
    ensures
        match r {
            Ok((rest, o)) => document(input@, DEFAULT_MAX_DEPTH as nat) matches Ok((es, f))
                && o@ == es && o.wf() && rest@ == input@.subrange(f, input@.len() as int),
            Err(x) => document(input@, DEFAULT_MAX_DEPTH as nat) == Err::<(Entries, int), ParseError>(x),
        },
{
    parse_kv3_with_depth(input, DEFAULT_MAX_DEPTH)
}

/// Parses a KV3 document as `parse_kv3` does, with arrays and objects nesting
/// at most `max_depth` deep, the root object included.
pub fn parse_kv3_with_depth(input: &str, max_depth: usize) -> (r: Result<(&str, KV3Object), ParseError>)
    ensures
        match r {
            Ok((rest, o)) => document(input@, max_depth as nat) matches Ok((es, f))
                && o@ == es && o.wf() && rest@ == input@.subrange(f, input@.len() as int),
            Err(x) => document(input@, max_depth as nat) == Err::<(Entries, int), ParseError>(x),
        },
{
    let cs = chars_of(input);
    proof { lemma_document_keys_unique(cs@, max_depth as nat); }
    match parse_document(cs.as_slice(), max_depth) {
        Ok((o, f)) => {
            let rest = input.substring_char(f, cs.len());
            Ok((rest, o))
        },
        Err(x) => Err(x),
    }
}

} // verus!
