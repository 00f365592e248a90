//! The range of 64-bit floats, decided exactly on the decimal literal.

use vstd::prelude::*;
use vstd::arithmetic::power::{pow, lemma_pow_adds, lemma_pow_positive, lemma_pow_increases, lemma_pow_strictly_increases};
use crate::token::{sign_end, digits_end, digits_value, digit_value, is_digit, lemma_digits_end, scan_digits, lemma_digits_value_grows, lemma_digits_value_step};
use crate::chars::chars_of;

verus! {

/// The decimal digits of 2^1024 - 2^970: the point halfway between the
/// largest finite 64-bit float and 2^1024. A literal whose value reaches it
/// rounds to infinity; any smaller one rounds to a finite float.
pub open spec fn float_limit_text() -> Seq<char> {
    "179769313486231580793728971405303415079934132710037826936173778980444968292764750946649017977587207096330286416692887910946555547851940402630657488671505820681908902000708383676273854845817711531764475730270069855571366959622842914819860834936475292719074168444365510704342711559699508093042880177904174497792"@
}

pub open spec fn float_limit() -> int {
    digits_value(float_limit_text(), 10)
}

pub open spec fn all_decimal(ds: Seq<char>) -> bool {
    forall|k: int| 0 <= k < ds.len() ==> is_digit(#[trigger] ds[k])
}

/// Whether the number `m * 10^x` reaches the float limit.
pub open spec fn reaches_float_limit(m: int, x: int) -> bool {
    if x >= 0 {
        m * pow(10, x as nat) >= float_limit()
    } else {
        m >= float_limit() * pow(10, (-x) as nat)
    }
}

/// Where the fraction digits of the float literal `t` begin and end.
pub open spec fn fraction_range(t: Seq<char>) -> (int, int) {
    let d = digits_end(t, sign_end(t, 0));
    if d < t.len() && t[d] == '.' {
        (d + 1, digits_end(t, d + 1))
    } else {
        (d, d)
    }
}

/// All digits of the mantissa of `t`: the integer part, then the fraction.
pub open spec fn mantissa_digits(t: Seq<char>) -> Seq<char> {
    let a = sign_end(t, 0);
    let (fs, fe) = fraction_range(t);
    t.subrange(a, digits_end(t, a)) + t.subrange(fs, fe)
}

/// The exponent written after `e` or `E`, or 0 where there is none.
pub open spec fn exponent_value(t: Seq<char>) -> int {
    let m = fraction_range(t).1;
    if m < t.len() && (t[m] == 'e' || t[m] == 'E') {
        let b = sign_end(t, m + 1);
        let v = digits_value(t.subrange(b, digits_end(t, b)), 10);
        if m + 1 < t.len() && t[m + 1] == '-' {
            -v
        } else {
            v
        }
    } else {
        0
    }
}

/// A float literal whose value is too large for a 64-bit float: its mantissa
/// digits times ten to the power of its exponent less its fraction digits
/// reach the float limit.
pub open spec fn float_overflows(t: Seq<char>) -> bool {
    let (fs, fe) = fraction_range(t);
    reaches_float_limit(digits_value(mantissa_digits(t), 10), exponent_value(t) - (fe - fs))
}

proof fn lemma_value_concat(x: Seq<char>, y: Seq<char>)
    ensures
        digits_value(x + y, 10) == digits_value(x, 10) * pow(10, y.len()) + digits_value(y, 10),
    decreases y.len(),
{
    if y.len() == 0 {
        reveal(pow);
        assert(x + y =~= x);
    } else {
        let y1 = y.drop_last();
        assert((x + y).drop_last() =~= x + y1);
        assert((x + y).last() == y.last());
        lemma_value_concat(x, y1);
        let a = digits_value(x, 10);
        let p = pow(10, y1.len());
        reveal(pow);
        assert(pow(10, y.len()) == 10 * pow(10, (y.len() - 1) as nat));
        assert(y1.len() == (y.len() - 1) as nat);
        assert((a * p + digits_value(y1, 10)) * 10 + digit_value(y.last()) == a * (10 * p) + (
        digits_value(y1, 10) * 10 + digit_value(y.last()))) by (nonlinear_arith);
    }
}

proof fn lemma_value_bounds(x: Seq<char>)
    requires
        all_decimal(x),
    ensures
        0 <= digits_value(x, 10) < pow(10, x.len()),
    decreases x.len(),
{
    reveal(pow);
    if x.len() > 0 {
        let x1 = x.drop_last();
        lemma_value_bounds(x1);
        let v = digits_value(x1, 10);
        let p = pow(10, x1.len());
        reveal(pow);
        assert(pow(10, x.len()) == 10 * pow(10, (x.len() - 1) as nat));
        assert(x1.len() == (x.len() - 1) as nat);
        assert(v * 10 + digit_value(x.last()) < 10 * p) by (nonlinear_arith)
            requires
                v < p,
                0 <= digit_value(x.last()) <= 9,
        ;
    }
}

proof fn lemma_value_lower(x: Seq<char>)
    requires
        all_decimal(x),
        x.len() > 0,
        x[0] != '0',
    ensures
        digits_value(x, 10) >= pow(10, (x.len() - 1) as nat),
{
    let head = x.take(1);
    let rest = x.skip(1);
    assert(x =~= head + rest);
    lemma_value_concat(head, rest);
    assert(head.drop_last() =~= Seq::<char>::empty());
    assert(digits_value(Seq::<char>::empty(), 10) == 0);
    assert(head.last() == x[0]);
    assert(digits_value(head, 10) == digit_value(x[0]));
    lemma_value_bounds(rest);
    lemma_pow_positive(10, rest.len());
    assert(digits_value(head, 10) * pow(10, rest.len()) >= pow(10, rest.len())) by (nonlinear_arith)
        requires
            digits_value(head, 10) >= 1,
            pow(10, rest.len()) > 0,
    ;
}

proof fn lemma_zeros_value(z: Seq<char>)
    requires
        forall|k: int| 0 <= k < z.len() ==> z[k] == '0',
    ensures
        digits_value(z, 10) == 0,
    decreases z.len(),
{
    if z.len() > 0 {
        lemma_zeros_value(z.drop_last());
    }
}

/// Of two digit strings of one length, the one with the larger digit at the
/// first place where they differ writes the larger number.
proof fn lemma_first_difference(a: Seq<char>, b: Seq<char>, k: int)
    requires
        all_decimal(a),
        all_decimal(b),
        a.len() == b.len(),
        0 <= k < a.len(),
        forall|j: int| 0 <= j < k ==> a[j] == b[j],
        a[k] > b[k],
    ensures
        digits_value(a, 10) > digits_value(b, 10),
{
    let n = a.len();
    let r = (n - k - 1) as nat;
    assert(a =~= a.take(k + 1) + a.skip(k + 1));
    assert(b =~= b.take(k + 1) + b.skip(k + 1));
    lemma_value_concat(a.take(k + 1), a.skip(k + 1));
    lemma_value_concat(b.take(k + 1), b.skip(k + 1));
    assert(a.take(k + 1).drop_last() =~= a.take(k));
    assert(b.take(k + 1).drop_last() =~= b.take(k));
    assert(a.take(k) =~= b.take(k));
    let ha = digits_value(a.take(k + 1), 10);
    let hb = digits_value(b.take(k + 1), 10);
    assert(ha >= hb + 1);
    lemma_value_bounds(a.skip(k + 1));
    lemma_value_bounds(b.skip(k + 1));
    assert(a.skip(k + 1).len() == r);
    assert(b.skip(k + 1).len() == r);
    let p = pow(10, r);
    lemma_pow_positive(10, r);
    assert(ha * p + digits_value(a.skip(k + 1), 10) > hb * p + digits_value(b.skip(k + 1), 10))
        by (nonlinear_arith)
        requires
            ha >= hb + 1,
            p > 0,
            digits_value(a.skip(k + 1), 10) >= 0,
            digits_value(b.skip(k + 1), 10) < p,
    ;
}

proof fn lemma_limit_bounds()
    ensures
        pow(10, 308) <= float_limit() < pow(10, 309),
        float_limit_text().len() == 309,
        all_decimal(float_limit_text()),
{
    reveal_strlit("179769313486231580793728971405303415079934132710037826936173778980444968292764750946649017977587207096330286416692887910946555547851940402630657488671505820681908902000708383676273854845817711531764475730270069855571366959622842914819860834936475292719074168444365510704342711559699508093042880177904174497792");
    assert(float_limit_text().len() == 309);
    assert(all_decimal(float_limit_text()));
    assert(float_limit_text()[0] == '1');
    lemma_value_lower(float_limit_text());
    lemma_value_bounds(float_limit_text());
}

/// The digits `x` followed by zeros up to length `n`.
pub open spec fn pad_zeros(x: Seq<char>, n: int) -> Seq<char> {
    x + Seq::new((n - x.len()) as nat, |j: int| '0')
}

proof fn lemma_pad_value(x: Seq<char>, n: int)
    requires
        n >= x.len(),
    ensures
        digits_value(pad_zeros(x, n), 10) == digits_value(x, 10) * pow(10, (n - x.len()) as nat),
        pad_zeros(x, n).len() == n,
{
    let z = Seq::new((n - x.len()) as nat, |j: int| '0');
    lemma_value_concat(x, z);
    lemma_zeros_value(z);
}

/// A number of `len` significant digits times `10^x` stays below the limit
/// where `len + x <= 308`.
proof fn lemma_below_limit(m: int, len: nat, x: int)
    requires
        len >= 1,
        m < pow(10, len),
        len + x <= 308,
    ensures
        !reaches_float_limit(m, x),
{
    lemma_limit_bounds();
    lemma_pow_positive(10, 308);
    if x >= 0 {
        let xn = x as nat;
        lemma_pow_adds(10, len, xn);
        lemma_pow_increases(10, len + xn, 308);
        lemma_pow_positive(10, xn);
        assert(m * pow(10, xn) < pow(10, len) * pow(10, xn)) by (nonlinear_arith)
            requires
                m < pow(10, len),
                pow(10, xn) > 0,
        ;
    } else {
        let y = (-x) as nat;
        lemma_pow_positive(10, y);
        if len + x < 0 {
            lemma_pow_strictly_increases(10, len, y);
            assert(float_limit() * pow(10, y) >= pow(10, y)) by (nonlinear_arith)
                requires
                    float_limit() >= 1,
                    pow(10, y) > 0,
            ;
        } else {
            let q = (len + x) as nat;
            lemma_pow_adds(10, q, y);
            assert(q + y == len);
            lemma_pow_increases(10, q, 308);
            assert(pow(10, q) * pow(10, y) <= float_limit() * pow(10, y)) by (nonlinear_arith)
                requires
                    pow(10, q) <= float_limit(),
                    pow(10, y) > 0,
            ;
        }
    }
}

/// A number of `len` significant digits times `10^x` reaches the limit where
/// `len + x >= 310`.
proof fn lemma_above_limit(m: int, len: nat, x: int)
    requires
        len >= 1,
        m >= pow(10, (len - 1) as nat),
        len + x >= 310,
    ensures
        reaches_float_limit(m, x),
{
    lemma_limit_bounds();
    let l1 = (len - 1) as nat;
    if x >= 0 {
        let xn = x as nat;
        lemma_pow_adds(10, l1, xn);
        lemma_pow_increases(10, 309, l1 + xn);
        lemma_pow_positive(10, xn);
        assert(m * pow(10, xn) >= pow(10, l1) * pow(10, xn)) by (nonlinear_arith)
            requires
                m >= pow(10, l1),
                pow(10, xn) > 0,
        ;
    } else {
        let y = (-x) as nat;
        let q = (len - 1 + x) as nat;
        lemma_pow_positive(10, y);
        lemma_pow_adds(10, q, y);
        assert(q + y == l1);
        lemma_pow_increases(10, 309, q);
        assert(pow(10, q) * pow(10, y) >= float_limit() * pow(10, y)) by (nonlinear_arith)
            requires
                pow(10, q) >= float_limit(),
                pow(10, y) > 0,
        ;
    }
}

/// Where `len + x == 309`, the number `digits * 10^x` reaches the limit
/// exactly where the digits, padded with zeros to the longer length, are at
/// least the limit's digits padded the same way.
proof fn lemma_at_limit(ds: Seq<char>, x: int)
    requires
        all_decimal(ds),
        ds.len() + x == 309,
    ensures
        reaches_float_limit(digits_value(ds, 10), x) == (digits_value(
            pad_zeros(ds, if ds.len() <= 309 { 309 } else { ds.len() as int }),
            10,
        ) >= digits_value(
            pad_zeros(float_limit_text(), if ds.len() <= 309 { 309 } else { ds.len() as int }),
            10,
        )),
{
    lemma_limit_bounds();
    let n = if ds.len() <= 309 { 309 } else { ds.len() as int };
    lemma_pad_value(ds, n);
    lemma_pad_value(float_limit_text(), n);
    reveal(pow);
}

/// Whether the digits `d[from..]`, padded with zeros, are at least the digits
/// of `limit`, padded the same way, as numbers.
fn padded_at_least(d: &[char], from: usize, limit: &[char]) -> (r: bool)
    requires
        from <= d@.len(),
        all_decimal(d@.skip(from as int)),
        all_decimal(limit@),
    ensures
        r == (digits_value(
            pad_zeros(d@.skip(from as int), if d@.len() - from <= limit@.len() { limit@.len() as int } else { d@.len() - from }),
            10,
        ) >= digits_value(
            pad_zeros(limit@, if d@.len() - from <= limit@.len() { limit@.len() as int } else { d@.len() - from }),
            10,
        )),
{
    let dl = d.len() - from;
    let n: usize = if dl <= limit.len() { limit.len() } else { dl };
    assert(n as int == (if d@.len() - from <= limit@.len() { limit@.len() as int } else { d@.len() - from }));
    let ghost a = pad_zeros(d@.skip(from as int), n as int);
    let ghost b = pad_zeros(limit@, n as int);
    assert(a.len() == n && b.len() == n);
    assert(all_decimal(a));
    assert(all_decimal(b));
    let mut k: usize = 0;
    while k < n
        invariant
            k <= n,
            a.len() == n,
            b.len() == n,
            all_decimal(a),
            all_decimal(b),
            a == pad_zeros(d@.skip(from as int), n as int),
            b == pad_zeros(limit@, n as int),
            from <= d@.len(),
            dl as int == d@.len() - from,
            d@.len() == d.len(),
            n as int == (if d@.len() - from <= limit@.len() { limit@.len() as int } else { d@.len() - from }),
            n >= d@.len() - from,
            n >= limit@.len(),
            forall|j: int| 0 <= j < k ==> a[j] == b[j],
        decreases n - k,
    {
        let x: char = if k < dl { d[from + k] } else { '0' };
        let y: char = if k < limit.len() { limit[k] } else { '0' };
        assert(x == a[k as int]);
        assert(y == b[k as int]);
        if x != y {
            proof {
                if x > y {
                    lemma_first_difference(a, b, k as int);
                    assert(digits_value(a, 10) > digits_value(b, 10));
                } else {
                    assert forall|j: int| 0 <= j < k implies b[j] == a[j] by {}
                    lemma_first_difference(b, a, k as int);
                    assert(digits_value(b, 10) > digits_value(a, 10));
                }
            }
            return x > y;
        }
        k += 1;
    }
    assert(a =~= b);
    true
}

const EXPONENT_CAP: u128 = 1180591620717411303424;

/// Whether the float literal `t` is too large for a 64-bit float; see
/// `float_overflows`.
#[verifier::rlimit(100)]
pub fn float_literal_overflows(t: &[char]) -> (r: bool)
    ensures
        r == float_overflows(t@),
{
    let n = t.len();
    let a: usize = if n > 0 && (t[0] == '+' || t[0] == '-') { 1 } else { 0 };
    proof { lemma_digits_end(t@, a as int); }
    let d = scan_digits(t, a);
    let fs: usize;
    let fe: usize;
    if d < n && t[d] == '.' {
        proof { lemma_digits_end(t@, d + 1); }
        fs = d + 1;
        fe = scan_digits(t, d + 1);
    } else {
        fs = d;
        fe = d;
    }
    assert(fraction_range(t@) == (fs as int, fe as int));
    let mut ms: Vec<char> = Vec::new();
    let mut k: usize = a;
    while k < d
        invariant
            a <= k <= d <= t@.len(),
            ms@ == t@.subrange(a as int, k as int),
        decreases d - k,
    {
        ms.push(t[k]);
        k += 1;
        assert(ms@ =~= t@.subrange(a as int, k as int));
    }
    k = fs;
    while k < fe
        invariant
            fs <= k <= fe <= t@.len(),
            a <= d <= t@.len(),
            ms@ == t@.subrange(a as int, d as int) + t@.subrange(fs as int, k as int),
        decreases fe - k,
    {
        ms.push(t[k]);
        k += 1;
        assert(ms@ =~= t@.subrange(a as int, d as int) + t@.subrange(fs as int, k as int));
    }
    let ghost md = mantissa_digits(t@);
    assert(ms@ == md);
    assert(all_decimal(md)) by {
        assert forall|j: int| 0 <= j < md.len() implies is_digit(#[trigger] md[j]) by {
            if j < d - a {
                assert(md[j] == t@[a + j]);
            } else {
                assert(md[j] == t@[fs + (j - (d - a))]);
            }
        }
    }
    let mut z: usize = 0;
    while z < ms.len() && ms[z] == '0'
        invariant
            z <= ms@.len(),
            forall|j: int| 0 <= j < z ==> ms@[j] == '0',
        decreases ms@.len() - z,
    {
        z += 1;
    }
    let ghost zs = md.take(z as int);
    let ghost ds = md.skip(z as int);
    proof {
        assert(md =~= zs + ds);
        lemma_value_concat(zs, ds);
        lemma_zeros_value(zs);
        lemma_limit_bounds();
    }
    let frac: usize = fe - fs;
    let ghost x = exponent_value(t@) - frac as int;
    if z == ms.len() {
        proof {
            assert(ds.len() == 0);
            lemma_pow_positive(10, 308);
            assert(digits_value(md, 10) == 0);
            lemma_pow_positive(10, (-x) as nat);
            assert(float_limit() * pow(10, (-x) as nat) > 0) by (nonlinear_arith)
                requires
                    float_limit() > 0,
                    pow(10, (-x) as nat) > 0,
            ;
        }
        return false;
    }
    let len: usize = ms.len() - z;
    proof {
        assert(all_decimal(ds));
        lemma_value_lower(ds);
        lemma_value_bounds(ds);
    }
    let m = fe;
    let mut neg = false;
    let mut ev: u128 = 0;
    let mut huge = false;
    if m < n && (t[m] == 'e' || t[m] == 'E') {
        neg = m + 1 < n && t[m + 1] == '-';
        let b: usize = if m + 1 < n && (t[m + 1] == '+' || t[m + 1] == '-') { m + 2 } else { m + 1 };
        proof { lemma_digits_end(t@, b as int); }
        let g = scan_digits(t, b);
        let mut j: usize = b;
        while j < g
            invariant
                b <= j <= g <= t@.len(),
                forall|q: int| b <= q < g ==> is_digit(t@[q]),
                !huge ==> ev as int == digits_value(t@.subrange(b as int, j as int), 10) && ev <= EXPONENT_CAP,
                huge ==> digits_value(t@.subrange(b as int, j as int), 10) > EXPONENT_CAP,
            decreases g - j,
        {
            proof {
                lemma_digits_value_step(t@, b as int, j as int, 10);
                lemma_digits_value_grows(t@, b as int, j as int, j + 1, 10);
            }
            if !huge {
                let dg: u128 = (t[j] as u32 - '0' as u32) as u128;
                ev = ev * 10 + dg;
                if ev > EXPONENT_CAP {
                    huge = true;
                }
            }
            j += 1;
        }
        assert(exponent_value(t@) == if neg { -digits_value(t@.subrange(b as int, g as int), 10) } else { digits_value(t@.subrange(b as int, g as int), 10) });
    } else {
        assert(exponent_value(t@) == 0);
    }
    proof {
        assert(frac as int <= usize::MAX);
        assert(len as int <= usize::MAX);
    }
    if huge {
        proof {
            if neg {
                lemma_below_limit(digits_value(ds, 10), len as nat, x);
            } else {
                lemma_above_limit(digits_value(ds, 10), len as nat, x);
            }
        }
        return !neg;
    }
    let p: i128 = if neg { len as i128 - ev as i128 - frac as i128 } else { len as i128 + ev as i128 - frac as i128 };
    assert(p as int == len as int + x);
    if p <= 308 {
        proof { lemma_below_limit(digits_value(ds, 10), len as nat, x); }
        return false;
    }
    if p >= 310 {
        proof { lemma_above_limit(digits_value(ds, 10), len as nat, x); }
        return true;
    }
    let lim = chars_of("179769313486231580793728971405303415079934132710037826936173778980444968292764750946649017977587207096330286416692887910946555547851940402630657488671505820681908902000708383676273854845817711531764475730270069855571366959622842914819860834936475292719074168444365510704342711559699508093042880177904174497792");
    proof {
        assert(lim@ == float_limit_text());
        lemma_at_limit(ds, x);
        assert(ms@.skip(z as int) == ds);
    }
    padded_at_least(ms.as_slice(), z, lim.as_slice())
}

} // verus!
