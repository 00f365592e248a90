//! The lexical skipper: whitespace and the three comment styles.

use vstd::prelude::*;
use crate::error::{ParseError, ParseErrorKind, unterminated, pos_result};

verus! {

/// Whitespace between tokens: space, tab, carriage return, line feed.
pub open spec fn is_multispace(c: char) -> bool {
    c == ' ' || c == '\t' || c == '\r' || c == '\n'
}

/// `p` stands in `s` at position `i`.
pub open spec fn starts_with_at(s: Seq<char>, i: int, p: Seq<char>) -> bool {
    0 <= i && i + p.len() <= s.len() && s.subrange(i, i + p.len()) =~= p
}

/// The first position at or after `i` where `p` stands in `s`.
pub open spec fn find_from(s: Seq<char>, i: int, p: Seq<char>) -> Option<int>
    decreases s.len() - i,
{
    if i < 0 || i + p.len() > s.len() {
        None
    } else if starts_with_at(s, i, p) {
        Some(i)
    } else {
        find_from(s, i + 1, p)
    }
}

pub proof fn lemma_find_from(s: Seq<char>, i: int, p: Seq<char>)
    ensures
        find_from(s, i, p) matches Some(j) ==> i <= j && j + p.len() <= s.len()
            && starts_with_at(s, j, p),
        find_from(s, i, p) matches Some(j) ==> forall|k: int|
            i <= k < j ==> !starts_with_at(s, k, p),
        find_from(s, i, p) is None ==> forall|k: int|
            0 <= i <= k ==> !starts_with_at(s, k, p),
    decreases s.len() - i,
{
    if i < 0 || i + p.len() > s.len() {
    } else if starts_with_at(s, i, p) {
    } else {
        lemma_find_from(s, i + 1, p);
    }
}

pub open spec fn line_comment_open() -> Seq<char> {
    seq!['/', '/']
}

pub open spec fn line_end() -> Seq<char> {
    seq!['\n']
}

pub open spec fn block_comment_open() -> Seq<char> {
    seq!['/', '*']
}

pub open spec fn block_comment_close() -> Seq<char> {
    seq!['*', '/']
}

pub open spec fn xml_comment_open() -> Seq<char> {
    seq!['<', '!', '-', '-']
}

pub open spec fn xml_comment_close() -> Seq<char> {
    seq!['-', '-', '>']
}

/// The Lexical Skipper: from position `i`, passes any mixture of whitespace and
/// comments (`// ...` up to a line end, `/* ... */`, `<!-- ... -->`) and gives
/// the position after them. A comment that is opened and not closed before the
/// end of the input is an error.
pub open spec fn skip(s: Seq<char>, i: int) -> Result<int, ParseError>
    decreases s.len() - i,
    via skip_decreases
{
    if i < 0 || i >= s.len() {
        Ok(i)
    } else if is_multispace(s[i]) {
        skip(s, i + 1)
    } else if starts_with_at(s, i, line_comment_open()) {
        match find_from(s, i + 2, line_end()) {
            Some(j) => skip(s, j),
            None => Err(unterminated(i)),
        }
    } else if starts_with_at(s, i, block_comment_open()) {
        match find_from(s, i + 2, block_comment_close()) {
            Some(j) => skip(s, j + 2),
            None => Err(unterminated(i)),
        }
    } else if starts_with_at(s, i, xml_comment_open()) {
        match find_from(s, i + 4, xml_comment_close()) {
            Some(j) => skip(s, j + 3),
            None => Err(unterminated(i)),
        }
    } else {
        Ok(i)
    }
}

#[via_fn]
proof fn skip_decreases(s: Seq<char>, i: int) {
    lemma_find_from(s, i + 2, line_end());
    lemma_find_from(s, i + 2, block_comment_close());
    lemma_find_from(s, i + 4, xml_comment_close());
}

pub proof fn lemma_skip_bounds(s: Seq<char>, i: int)
    requires
        0 <= i <= s.len(),
    ensures
        skip(s, i) matches Ok(j) ==> i <= j <= s.len(),
    decreases s.len() - i,
{
    if i < s.len() {
        lemma_find_from(s, i + 2, line_end());
        lemma_find_from(s, i + 2, block_comment_close());
        lemma_find_from(s, i + 4, xml_comment_close());
        if is_multispace(s[i]) {
            lemma_skip_bounds(s, i + 1);
        } else if starts_with_at(s, i, line_comment_open()) {
            if let Some(j) = find_from(s, i + 2, line_end()) {
                lemma_skip_bounds(s, j);
            }
        } else if starts_with_at(s, i, block_comment_open()) {
            if let Some(j) = find_from(s, i + 2, block_comment_close()) {
                lemma_skip_bounds(s, j + 2);
            }
        } else if starts_with_at(s, i, xml_comment_open()) {
            if let Some(j) = find_from(s, i + 4, xml_comment_close()) {
                lemma_skip_bounds(s, j + 3);
            }
        }
    }
}

/// The skipper stops where there is nothing more to skip: applied again at
/// the position where it stopped, it stays there.
pub proof fn lemma_skip_idempotent(s: Seq<char>, i: int)
    requires
        0 <= i <= s.len(),
    ensures
        skip(s, i) matches Ok(j) ==> skip(s, j) == Ok::<int, ParseError>(j),
    decreases s.len() - i,
{
    if i < s.len() {
        lemma_find_from(s, i + 2, line_end());
        lemma_find_from(s, i + 2, block_comment_close());
        lemma_find_from(s, i + 4, xml_comment_close());
        if is_multispace(s[i]) {
            lemma_skip_idempotent(s, i + 1);
        } else if starts_with_at(s, i, line_comment_open()) {
            if let Some(j) = find_from(s, i + 2, line_end()) {
                lemma_skip_idempotent(s, j);
            }
        } else if starts_with_at(s, i, block_comment_open()) {
            if let Some(j) = find_from(s, i + 2, block_comment_close()) {
                lemma_skip_idempotent(s, j + 2);
            }
        } else if starts_with_at(s, i, xml_comment_open()) {
            if let Some(j) = find_from(s, i + 4, xml_comment_close()) {
                lemma_skip_idempotent(s, j + 3);
            }
        }
    }
}

pub proof fn lemma_find_at(s: Seq<char>, i: int, p: Seq<char>, j: int)
    requires
        0 <= i <= j,
        starts_with_at(s, j, p),
        forall|k: int| i <= k < j ==> !starts_with_at(s, k, p),
    ensures
        find_from(s, i, p) == Some(j),
    decreases j - i,
{
    if i < j {
        lemma_find_at(s, i + 1, p, j);
    }
}

/// `p` stands nowhere in `t`.
pub open spec fn free_of(t: Seq<char>, p: Seq<char>) -> bool {
    forall|k: int| 0 <= k ==> !starts_with_at(t, k, p)
}

proof fn lemma_not_at_char(s: Seq<char>, k: int, p: Seq<char>, m: int)
    requires
        0 <= m < p.len(),
        0 <= k,
        k + m < s.len(),
        s[k + m] != p[m],
    ensures
        !starts_with_at(s, k, p),
{
    if starts_with_at(s, k, p) {
        assert(s.subrange(k, k + p.len())[m] == p[m]);
    }
}

/// Where `t` stands at `i` in `s`, `p` stands at `i + k` in `s` when it
/// stands wholly within `t` at `k`, and the other way round.
proof fn lemma_at_within(s: Seq<char>, i: int, t: Seq<char>, p: Seq<char>, k: int)
    requires
        starts_with_at(s, i, t),
        0 <= k,
        k + p.len() <= t.len(),
    ensures
        starts_with_at(s, i + k, p) == starts_with_at(t, k, p),
{
    assert(s.subrange(i + k, i + k + p.len()) =~= t.subrange(k, k + p.len())) by {
        assert forall|m: int| 0 <= m < p.len() implies #[trigger] s.subrange(
            i + k,
            i + k + p.len(),
        )[m] == t.subrange(k, k + p.len())[m] by {
            assert(s.subrange(i, i + t.len())[k + m] == t[k + m]);
        }
    }
}

/// Whitespace is skipped: skipping from a whitespace character ends where
/// skipping from the next one ends.
pub proof fn lemma_whitespace_ignored(s: Seq<char>, i: int)
    requires
        0 <= i < s.len(),
        is_multispace(s[i]),
    ensures
        skip(s, i) == skip(s, i + 1),
{
}

/// A line comment is skipped like whitespace: where `//`, a text without a
/// line end, and a line end stand at `i`, skipping from `i` ends where
/// skipping from that line end ends.
pub proof fn lemma_line_comment_ignored(s: Seq<char>, i: int, body: Seq<char>)
    requires
        starts_with_at(s, i, line_comment_open() + body + line_end()),
        free_of(body, line_end()),
    ensures
        skip(s, i) == skip(s, i + (2 + body.len()) as int),
{
    let c = line_comment_open() + body + line_end();
    let j = i + (2 + body.len()) as int;
    assert(s.subrange(i, i + c.len())[0] == c[0]);
    assert(s.subrange(i, i + c.len())[1] == c[1]);
    assert(s.subrange(i, i + 2) =~= line_comment_open());
    assert(s.subrange(j, j + 1) =~= line_end()) by {
        assert(s.subrange(i, i + c.len())[(2 + body.len()) as int] == c[(2 + body.len()) as int]);
    }
    assert forall|k: int| i + 2 <= k < j implies !starts_with_at(s, k, line_end()) by {
        assert(s.subrange(i, i + c.len())[k - i] == c[k - i]);
        assert(c[k - i] == body[k - i - 2]);
        if body[k - i - 2] == '\n' {
            assert(body.subrange(k - i - 2, k - i - 1) =~= line_end());
            assert(starts_with_at(body, k - i - 2, line_end()));
        }
        assert(line_end()[0] == '\n');
        lemma_not_at_char(s, k, line_end(), 0);
    }
    lemma_find_at(s, i + 2, line_end(), j);
}

/// A block comment is skipped like whitespace: where `/*`, a text that holds
/// no `*/`, and `*/` stand at `i`, skipping from `i` ends where skipping from
/// just after the comment ends.
pub proof fn lemma_block_comment_ignored(s: Seq<char>, i: int, body: Seq<char>)
    requires
        starts_with_at(s, i, block_comment_open() + body + block_comment_close()),
        free_of(body, block_comment_close()),
    ensures
        skip(s, i) == skip(s, i + (4 + body.len()) as int),
{
    let c = block_comment_open() + body + block_comment_close();
    let j = i + (2 + body.len()) as int;
    assert(s.subrange(i, i + c.len())[0] == c[0]);
    assert(s.subrange(i, i + c.len())[1] == c[1]);
    lemma_not_at_char(s, i, line_comment_open(), 1);
    assert(s.subrange(i, i + 2) =~= block_comment_open());
    lemma_at_within(s, i, c, block_comment_close(), (2 + body.len()) as int);
    assert(c.subrange((2 + body.len()) as int, (4 + body.len()) as int) =~= block_comment_close());
    assert forall|k: int| i + 2 <= k < j implies !starts_with_at(s, k, block_comment_close()) by {
        let q = k - i - 2;
        if q + 2 <= body.len() {
            lemma_at_within(s, i, c, block_comment_close(), q + 2);
            if starts_with_at(c, q + 2, block_comment_close()) {
                assert(c.subrange(q + 2, q + 4) =~= body.subrange(q, q + 2));
                assert(starts_with_at(body, q, block_comment_close()));
            }
        } else {
            assert(s.subrange(i, i + c.len())[k - i + 1] == c[k - i + 1]);
            assert(c[k - i + 1] == '*');
            lemma_not_at_char(s, k, block_comment_close(), 1);
        }
    }
    lemma_find_at(s, i + 2, block_comment_close(), j);
}

/// An XML-style comment is skipped like whitespace: where `<!--`, a text that
/// holds no `-->`, and `-->` stand at `i`, skipping from `i` ends where
/// skipping from just after the comment ends.
pub proof fn lemma_xml_comment_ignored(s: Seq<char>, i: int, body: Seq<char>)
    requires
        starts_with_at(s, i, xml_comment_open() + body + xml_comment_close()),
        free_of(body, xml_comment_close()),
    ensures
        skip(s, i) == skip(s, i + (7 + body.len()) as int),
{
    let c = xml_comment_open() + body + xml_comment_close();
    let j = i + (4 + body.len()) as int;
    assert(s.subrange(i, i + c.len())[0] == c[0]);
    lemma_not_at_char(s, i, line_comment_open(), 0);
    lemma_not_at_char(s, i, block_comment_open(), 0);
    assert(s.subrange(i, i + 4) =~= c.subrange(0, 4)) by {
        lemma_at_within(s, i, c, c.subrange(0, 4), 0);
        assert(starts_with_at(c, 0, c.subrange(0, 4)));
    }
    assert(c.subrange(0, 4) =~= xml_comment_open());
    lemma_at_within(s, i, c, xml_comment_close(), (4 + body.len()) as int);
    assert(c.subrange((4 + body.len()) as int, (7 + body.len()) as int) =~= xml_comment_close());
    assert forall|k: int| i + 4 <= k < j implies !starts_with_at(s, k, xml_comment_close()) by {
        let q = k - i - 4;
        if q + 3 <= body.len() {
            lemma_at_within(s, i, c, xml_comment_close(), q + 4);
            if starts_with_at(c, q + 4, xml_comment_close()) {
                assert(c.subrange(q + 4, q + 7) =~= body.subrange(q, q + 3));
                assert(starts_with_at(body, q, xml_comment_close()));
            }
        } else {
            assert(s.subrange(i, i + c.len())[k - i + 2] == c[k - i + 2]);
            assert(c[k - i + 2] == '-');
            lemma_not_at_char(s, k, xml_comment_close(), 2);
        }
    }
    lemma_find_at(s, i + 4, xml_comment_close(), j);
}

/// Whether `p` stands in `s` at position `i`.
pub fn matches_at(s: &[char], i: usize, p: &[char]) -> (r: bool)
    ensures
        r == starts_with_at(s@, i as int, p@),
{
    if i > s.len() || p.len() > s.len() - i {
        return false;
    }
    let mut k: usize = 0;
    while k < p.len()
        invariant
            i + p@.len() <= s@.len(),
            s@.len() == s.len(),
            0 <= k <= p@.len(),
            forall|m: int| 0 <= m < k ==> s@[i + m] == p@[m],
        decreases p.len() - k,
    {
        if s[i + k] != p[k] {
            assert(s@.subrange(i as int, i + p@.len())[k as int] != p@[k as int]);
            return false;
        }
        k += 1;
    }
    assert(s@.subrange(i as int, i + p@.len()) =~= p@);
    true
}

/// The first position at or after `i` where `p` stands in `s`.
pub fn find(s: &[char], i: usize, p: &[char]) -> (r: Option<usize>)
    requires
        p@.len() > 0,
    ensures
        match r {
            Some(j) => find_from(s@, i as int, p@) == Some(j as int),
            None => find_from(s@, i as int, p@) is None,
        },
{
    let mut j: usize = i;
    while j <= s.len() && p.len() <= s.len() - j
        invariant
            i <= j,
            find_from(s@, i as int, p@) == find_from(s@, j as int, p@),
        decreases s.len() + 1 - j,
    {
        if matches_at(s, j, p) {
            return Some(j);
        }
        j += 1;
    }
    None
}

/// Passes whitespace and comments from position `i`; see `skip`.
pub fn skip_comments_and_whitespace(s: &[char], i: usize) -> (r: Result<usize, ParseError>)
    requires
        i <= s@.len(),
    ensures
        pos_result(r) == skip(s@, i as int),
{
    let mut j: usize = i;
    loop
        invariant
            i <= j <= s@.len(),
            skip(s@, i as int) == skip(s@, j as int),
        decreases s@.len() - j,
    {
        if j >= s.len() {
            return Ok(j);
        }
        let c = s[j];
        if c == ' ' || c == '\t' || c == '\r' || c == '\n' {
            j += 1;
        } else if matches_at(s, j, &['/', '/']) {
            assert((&['\n'])@ =~= line_end());
            proof { lemma_find_from(s@, j + 2, line_end()); }
            match find(s, j + 2, &['\n']) {
                Some(e) => { j = e; },
                None => { return Err(ParseError { kind: ParseErrorKind::UnterminatedLiteral, position: j }); },
            }
        } else if matches_at(s, j, &['/', '*']) {
            proof { lemma_find_from(s@, j + 2, block_comment_close()); }
            match find(s, j + 2, &['*', '/']) {
                Some(e) => { j = e + 2; },
                None => { return Err(ParseError { kind: ParseErrorKind::UnterminatedLiteral, position: j }); },
            }
        } else if matches_at(s, j, &['<', '!', '-', '-']) {
            proof { lemma_find_from(s@, j + 4, xml_comment_close()); }
            match find(s, j + 4, &['-', '-', '>']) {
                Some(e) => { j = e + 3; },
                None => { return Err(ParseError { kind: ParseErrorKind::UnterminatedLiteral, position: j }); },
            }
        } else {
            return Ok(j);
        }
    }
}

} // verus!
