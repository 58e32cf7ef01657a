//! Decimal strings (the DICOM "DS" representation) read into exact
//! fixed-point numbers with a resolution of one millionth.
use vstd::prelude::*;
use crate::text::{all_digits, digit_of, digits_value, is_digit, is_digit_char, trim, trim_blanks,
    lemma_digits_value_nonneg, lemma_digits_value_prefix, signed_int_value};

verus! {

/// Fixed-point steps in one unit.
pub const MICROS_PER_UNIT: i64 = 1_000_000;

/// Largest magnitude, in millionths, that a decimal may have (ten million units).
pub const MAX_MICROS: i64 = 10_000_000_000_000;

/// A decimal number held as a whole count of millionths.
#[derive(Clone, Copy, Debug, PartialEq, Eq, Structural)]
pub struct Decimal {
    pub micros: i64,
}

impl Decimal {
    /// The magnitude bound that every parsed decimal meets.
    pub open spec fn in_range(self) -> bool {
        -MAX_MICROS <= self.micros <= MAX_MICROS
    }
}

/// Index of the first `.` in `s`, or `s.len()` when there is none.
pub open spec fn dot_index(s: Seq<char>) -> int
    decreases s.len(),
{
    if s.len() == 0 {
        0
    } else if s[0] == '.' {
        0
    } else {
        1 + dot_index(s.drop_first())
    }
}

/// The millionths contributed by fraction digits `f`, the first weighing `w`;
/// digits past the sixth weigh nothing (they are truncated).
pub open spec fn frac_micros(f: Seq<char>, w: int) -> int
    decreases f.len(),
{
    if f.len() == 0 {
        0
    } else {
        digit_of(f[0]) * w + frac_micros(f.drop_first(), w / 10)
    }
}

/// The digits before the point.
pub open spec fn int_digits(b: Seq<char>) -> Seq<char> {
    b.take(dot_index(b))
}

/// The digits after the point (empty when there is no point).
pub open spec fn frac_digits(b: Seq<char>) -> Seq<char> {
    if dot_index(b) < b.len() {
        b.skip(dot_index(b) + 1)
    } else {
        Seq::empty()
    }
}

/// An unsigned decimal `digits[.digits]` with at least one digit, in
/// millionths (without an exponent).
pub open spec fn unsigned_micros(b: Seq<char>) -> Option<int> {
    let ip = int_digits(b);
    let fp = frac_digits(b);
    if all_digits(ip) && all_digits(fp) && ip.len() + fp.len() > 0 {
        Some(digits_value(ip) * 1_000_000 + frac_micros(fp, 100_000))
    } else {
        None
    }
}

/// A decimal with an optional sign, in millionths.
pub open spec fn signed_micros(s: Seq<char>) -> Option<int> {
    let neg = s.len() > 0 && s[0] == '-';
    let body = if s.len() > 0 && (s[0] == '-' || s[0] == '+') {
        s.drop_first()
    } else {
        s
    };
    match unsigned_value(body) {
        Some(v) => Some(if neg { -v } else { v }),
        None => None,
    }
}

pub open spec fn is_exp_char(c: char) -> bool {
    c == 'e' || c == 'E'
}

/// Index of the first `e` or `E` in `s`, or `s.len()` when there is none.
pub open spec fn exp_index(s: Seq<char>) -> int
    decreases s.len(),
{
    if s.len() == 0 {
        0
    } else if is_exp_char(s[0]) {
        0
    } else {
        1 + exp_index(s.drop_first())
    }
}

pub open spec fn pow10(n: nat) -> int
    decreases n,
{
    if n == 0 {
        1
    } else {
        10 * pow10((n - 1) as nat)
    }
}

/// A mantissa `digits[.digits]` with at least one digit.
pub open spec fn mantissa_ok(m: Seq<char>) -> bool {
    all_digits(int_digits(m)) && all_digits(frac_digits(m)) && int_digits(m).len() + frac_digits(m).len() > 0
}

/// The digits of a mantissa, the point left out.
pub open spec fn mantissa_digits(m: Seq<char>) -> Seq<char> {
    int_digits(m) + frac_digits(m)
}

/// The millionths of `m` times ten to the `e`, truncated.
pub open spec fn shifted_micros(m: Seq<char>, e: int) -> int {
    shifted_digits(mantissa_digits(m), int_digits(m).len() as int, e)
}

/// The millionths of the digits `d`, the point after the first `il` of
/// them, times ten to the `e`, truncated.
pub open spec fn shifted_digits(d: Seq<char>, il: int, e: int) -> int {
    let p = il + e + 6;
    if p <= 0 {
        0
    } else if p <= d.len() {
        digits_value(d.take(p))
    } else {
        digits_value(d) * pow10((p - d.len()) as nat)
    }
}

/// An unsigned decimal, with an optional exponent `e`/`E` and a signed
/// integer, in millionths.
pub open spec fn unsigned_value(b: Seq<char>) -> Option<int> {
    let k = exp_index(b);
    if k == b.len() {
        unsigned_micros(b)
    } else {
        let m = b.take(k);
        let x = b.skip(k + 1);
        if mantissa_ok(m) && signed_int_value(x) is Some {
            Some(shifted_micros(m, signed_int_value(x)->0))
        } else {
            None
        }
    }
}

/// The decimal that a text denotes once its blanks are removed, if it is
/// well formed and within range.
pub open spec fn decimal_of(s: Seq<char>) -> Option<Decimal> {
    match signed_micros(trim(s)) {
        Some(v) => if -MAX_MICROS <= v <= MAX_MICROS {
            Some(Decimal { micros: v as i64 })
        } else {
            None
        },
        None => None,
    }
}

pub proof fn lemma_frac_micros_bounds(f: Seq<char>, w: int)
    requires
        all_digits(f),
        w >= 0,
    ensures
        0 <= frac_micros(f, w) <= 10 * w,
    decreases f.len(),
{
    if f.len() > 0 {
        lemma_frac_micros_bounds(f.drop_first(), w / 10);
        assert(0 <= digit_of(f[0]) <= 9);
        assert(0 <= digit_of(f[0]) * w <= 9 * w) by (nonlinear_arith)
            requires
                0 <= digit_of(f[0]) <= 9,
                w >= 0,
        ;
    }
}

/// Reads an unsigned decimal `digits[.digits]`, within `MAX_MICROS`.
fn parse_unsigned_micros(b: &str) -> (r: Option<i64>)
    ensures
        r is Some ==> unsigned_micros(b@) == Some(r->0 as int) && 0 <= r->0 <= MAX_MICROS,
        r is None ==> unsigned_micros(b@) is None || unsigned_micros(b@)->0 > MAX_MICROS,
{
    let n = b.unicode_len();
    let mut k: usize = 0;
    assert(b@.subrange(0, n as int) =~= b@);
    while k < n && b.get_char(k) != '.'
        invariant
            k <= n,
            n == b@.len(),
            dot_index(b@) == k + dot_index(b@.subrange(k as int, n as int)),
        decreases n - k,
    {
        let ghost cur = b@.subrange(k as int, n as int);
        assert(cur.drop_first() =~= b@.subrange(k + 1, n as int));
        k = k + 1;
    }
    assert(dot_index(b@) == k);
    let ghost ip = int_digits(b@);
    let ghost fp = frac_digits(b@);
    // digits before the point
    let mut acc: i64 = 0;
    let mut i: usize = 0;
    while i < k
        invariant
            i <= k <= n,
            n == b@.len(),
            k == dot_index(b@),
            ip == b@.take(k as int),
            ip == int_digits(b@),
            fp == frac_digits(b@),
            0 <= acc <= 10_000_000,
            all_digits(ip.take(i as int)),
            acc == digits_value(ip.take(i as int)),
        decreases k - i,
    {
        let c = b.get_char(i);
        if !is_digit_char(c) {
            assert(ip[i as int] == c);
            assert(!all_digits(ip));
            return None;
        }
        assert(ip.take(i + 1).drop_last() =~= ip.take(i as int));
        acc = acc * 10 + (c as u32 - 48) as i64;
        i = i + 1;
        assert(all_digits(ip.take(i as int)));
        if acc > 10_000_000 {
            proof {
                if all_digits(ip) && all_digits(fp) {
                    lemma_digits_value_prefix(ip, i as int);
                    lemma_frac_micros_bounds(fp, 100_000);
                    let dv = digits_value(ip);
                    assert(dv * 1_000_000 > 10_000_000_000_000) by (nonlinear_arith)
                        requires
                            dv > 10_000_000,
                    ;
                }
            }
            return None;
        }
    }
    assert(ip.take(k as int) =~= ip);
    // digits after the point
    let mut frac: i64 = 0;
    let mut w: i64 = 100_000;
    let mut j: usize = if k < n {
        k + 1
    } else {
        n
    };
    let j_start = j;
    let ghost j0 = j as int;
    assert(fp =~= b@.subrange(j0, n as int));
    assert(b@.subrange(j0, n as int).subrange(0, 0) =~= Seq::<char>::empty());
    while j < n
        invariant
            0 <= j0 <= j <= n,
            n == b@.len(),
            fp == b@.subrange(j0, n as int),
            fp == frac_digits(b@),
            all_digits(b@.subrange(j0, j as int)),
            0 <= w <= 100_000,
            0 <= frac,
            frac + 10 * w <= 1_000_000,
            frac_micros(fp, 100_000) == frac + frac_micros(b@.subrange(j as int, n as int), w as int),
        decreases n - j,
    {
        let c = b.get_char(j);
        if !is_digit_char(c) {
            assert(fp[j - j0] == c);
            assert(!all_digits(fp));
            return None;
        }
        let ghost cur = b@.subrange(j as int, n as int);
        assert(cur.drop_first() =~= b@.subrange(j + 1, n as int));
        let d = (c as u32 - 48) as i64;
        assert(0 <= d * w <= 9 * w) by (nonlinear_arith)
            requires
                0 <= d <= 9,
                w >= 0,
        ;
        frac = frac + d * w;
        w = w / 10;
        j = j + 1;
        assert(b@.subrange(j0, j as int).drop_last() =~= b@.subrange(j0, j - 1));
    }
    assert(b@.subrange(j0, n as int) =~= fp);
    assert(b@.subrange(n as int, n as int) =~= Seq::<char>::empty());
    if k == 0 && j_start == n {
        assert(ip.len() + fp.len() == 0);
        return None;
    }
    let total = acc * 1_000_000 + frac;
    if total > MAX_MICROS {
        return None;
    }
    Some(total)
}

/// Reads a decimal string such as `-12.5`, ` 0.488 ` or `1.5E+02`: blanks
/// around it, an optional sign, digits with an optional point and at least
/// one digit, and an optional exponent (`e` or `E`, then a signed integer).
/// Digits past the sixth after the point are dropped; values beyond
/// `MAX_MICROS` millionths are not read.
pub fn parse_decimal(s: &str) -> (r: Option<Decimal>)
    ensures
        r == decimal_of(s@),
{
    let t = trim_blanks(s);
    let n = t.unicode_len();
    if n == 0 {
        assert(unsigned_value(t@) is None);
        return None;
    }
    let first = t.get_char(0);
    let start: usize = if first == '-' || first == '+' {
        1
    } else {
        0
    };
    let body = t.substring_char(start, n);
    assert(body@ == (if t@.len() > 0 && (t@[0] == '-' || t@[0] == '+') {
        t@.drop_first()
    } else {
        t@
    }));
    match parse_unsigned_value(body) {
        Some(v) => if first == '-' {
            Some(Decimal { micros: -v })
        } else {
            Some(Decimal { micros: v })
        },
        None => None,
    }
}

/// The pieces of `s` between occurrences of `sep`.
pub open spec fn split_on(s: Seq<char>, sep: char) -> Seq<Seq<char>>
    decreases s.len(),
{
    if s.len() == 0 {
        seq![Seq::empty()]
    } else {
        let prev = split_on(s.drop_last(), sep);
        if s.last() == sep {
            prev.push(Seq::empty())
        } else {
            prev.update(prev.len() - 1, prev.last().push(s.last()))
        }
    }
}

/// The decimals among `parts`, in order; parts that do not read are skipped.
pub open spec fn decimals_of_parts(parts: Seq<Seq<char>>) -> Seq<Decimal>
    decreases parts.len(),
{
    if parts.len() == 0 {
        Seq::empty()
    } else {
        let prev = decimals_of_parts(parts.drop_last());
        match decimal_of(parts.last()) {
            Some(d) => prev.push(d),
            None => prev,
        }
    }
}

/// The decimals of a backslash-separated multi-value text, or none when
/// not a single component reads.
pub open spec fn decimal_list_of(s: Seq<char>) -> Option<Seq<Decimal>> {
    let ds = decimals_of_parts(split_on(s, '\\'));
    if ds.len() == 0 {
        None
    } else {
        Some(ds)
    }
}

/// Reads every component of a backslash-separated multi-value text as a
/// decimal, keeping those that read.
pub fn parse_decimal_list(s: &str) -> (r: Option<Vec<Decimal>>)
    ensures
        r is Some <==> decimal_list_of(s@) is Some,
        r is Some ==> r->0@ == decimal_list_of(s@)->0,
{
    let n = s.unicode_len();
    let mut out: Vec<Decimal> = Vec::new();
    let mut start: usize = 0;
    let mut i: usize = 0;
    let ghost mut pieces: Seq<Seq<char>> = Seq::empty();
    assert(s@.take(0) =~= Seq::<char>::empty());
    assert(s@.subrange(0, 0) =~= Seq::<char>::empty());
    while i < n
        invariant
            start <= i <= n,
            n == s@.len(),
            split_on(s@.take(i as int), '\\') == pieces.push(s@.subrange(start as int, i as int)),
            out@ == decimals_of_parts(pieces),
        decreases n - i,
    {
        let c = s.get_char(i);
        assert(s@.take(i + 1).drop_last() =~= s@.take(i as int));
        if c == '\\' {
            let part = s.substring_char(start, i);
            let ghost old_pieces = pieces;
            proof {
                pieces = pieces.push(part@);
            }
            assert(pieces.drop_last() =~= old_pieces);
            match parse_decimal(part) {
                Some(d) => out.push(d),
                None => {},
            }
            start = i + 1;
            i = i + 1;
            assert(s@.subrange(start as int, i as int) =~= Seq::<char>::empty());
        } else {
            assert(s@.subrange(start as int, i + 1) =~= s@.subrange(start as int, i as int).push(c));
            i = i + 1;
        }
    }
    assert(s@.take(n as int) =~= s@);
    let part = s.substring_char(start, n);
    let ghost all = pieces.push(part@);
    assert(all.drop_last() =~= pieces);
    match parse_decimal(part) {
        Some(d) => out.push(d),
        None => {},
    }
    if out.len() == 0 {
        None
    } else {
        Some(out)
    }
}

/// The exponent beyond which every value is either zero or out of range.
pub const EXPONENT_BOUND: i128 = 0x40_0000_0000_0000_0000;

pub open spec fn clamp_exponent(e: int) -> int {
    if e > EXPONENT_BOUND {
        EXPONENT_BOUND as int
    } else if e < -EXPONENT_BOUND {
        -EXPONENT_BOUND
    } else {
        e
    }
}

pub proof fn lemma_pow10_monotone(a: nat, b: nat)
    requires
        a <= b,
    ensures
        1 <= pow10(a) <= pow10(b),
    decreases b,
{
    if b > 0 && a < b {
        lemma_pow10_monotone(a, (b - 1) as nat);
    } else if b > 0 {
        lemma_pow10_monotone((b - 1) as nat, (b - 1) as nat);
    }
}

pub proof fn lemma_pow10_large(n: nat)
    requires
        n >= 14,
    ensures
        pow10(n) > MAX_MICROS,
{
    assert(pow10(0) == 1);
    assert(pow10(1) == 10);
    assert(pow10(2) == 100);
    assert(pow10(3) == 1000);
    assert(pow10(4) == 10000);
    assert(pow10(5) == 100000);
    assert(pow10(6) == 1000000);
    assert(pow10(7) == 10000000);
    assert(pow10(8) == 100000000);
    assert(pow10(9) == 1000000000);
    assert(pow10(10) == 10000000000);
    assert(pow10(11) == 100000000000);
    assert(pow10(12) == 1000000000000);
    assert(pow10(13) == 10000000000000);
    assert(pow10(14) == 100000000000000);
    lemma_pow10_monotone(14, n);
}

/// An exponent beyond the bound gives the same value as the bound, as far
/// as whether it is in range and what it is then.
pub proof fn lemma_clamp_exponent(d: Seq<char>, il: int, e: int)
    requires
        all_digits(d),
        0 <= il <= d.len() < 0x1_0000_0000_0000_0000,
    ensures
        (shifted_digits(d, il, e) <= MAX_MICROS) == (shifted_digits(d, il, clamp_exponent(e)) <= MAX_MICROS),
        shifted_digits(d, il, e) <= MAX_MICROS ==> shifted_digits(d, il, e) == shifted_digits(d, il, clamp_exponent(e)),
        shifted_digits(d, il, e) >= 0,
{
    lemma_digits_value_nonneg(d);
    let p = il + e + 6;
    if p > d.len() {
        lemma_pow10_monotone(0, (p - d.len()) as nat);
        let v = digits_value(d);
        let w = pow10((p - d.len()) as nat);
        assert(v * w >= 0) by (nonlinear_arith)
            requires v >= 0, w >= 1;
    } else if p > 0 {
        lemma_digits_value_nonneg(d.take(p));
    }
    if e > EXPONENT_BOUND {
        let c = EXPONENT_BOUND as int;
        let q1 = (p - d.len()) as nat;
        let q2 = (il + c + 6 - d.len()) as nat;
        let v = digits_value(d);
        if v > 0 {
            lemma_pow10_large(q1);
            lemma_pow10_large(q2);
            let w1 = pow10(q1);
            let w2 = pow10(q2);
            assert(v * w1 >= w1) by (nonlinear_arith)
                requires v >= 1, w1 >= 1;
            assert(v * w2 >= w2) by (nonlinear_arith)
                requires v >= 1, w2 >= 1;
        } else {
            assert(v == 0);
            let w1 = pow10(q1);
            let w2 = pow10(q2);
            assert(v * w1 == 0 && v * w2 == 0) by (nonlinear_arith)
                requires v == 0;
        }
    }
}

/// Reads a signed integer exponent, clamped to the bound.
fn parse_exponent(x: &str) -> (r: Option<i128>)
    ensures
        r is Some <==> signed_int_value(x@) is Some,
        r is Some ==> r->0 as int == clamp_exponent(signed_int_value(x@)->0),
{
    let n = x.unicode_len();
    if n == 0 {
        return None;
    }
    let first = x.get_char(0);
    let neg = first == '-';
    let start: usize = if first == '-' || first == '+' {
        1
    } else {
        0
    };
    let ghost body = if start == 1 {
        x@.drop_first()
    } else {
        x@
    };
    assert(body =~= x@.subrange(start as int, n as int));
    if start >= n {
        return None;
    }
    let mut acc: i128 = 0;
    let mut i: usize = start;
    while i < n
        invariant
            start <= i <= n,
            n == x@.len(),
            body == x@.subrange(start as int, n as int),
            body == (if x@.len() > 0 && (x@[0] == '-' || x@[0] == '+') {
                x@.drop_first()
            } else {
                x@
            }),
            neg == (x@.len() > 0 && x@[0] == '-'),
            all_digits(body.take(i - start)),
            acc as int == if digits_value(body.take(i - start)) > EXPONENT_BOUND {
                EXPONENT_BOUND as int
            } else {
                digits_value(body.take(i - start))
            },
        decreases n - i,
    {
        let c = x.get_char(i);
        if !is_digit_char(c) {
            assert(body[i - start] == c);
            assert(!all_digits(body));
            return None;
        }
        assert(body.take(i - start + 1).drop_last() =~= body.take(i - start));
        proof {
            lemma_digits_value_nonneg(body.take(i - start));
        }
        if acc < EXPONENT_BOUND {
            acc = acc * 10 + (c as u32 - 48) as i128;
            if acc > EXPONENT_BOUND {
                acc = EXPONENT_BOUND;
            }
        }
        i = i + 1;
    }
    assert(body.take(i - start) =~= body);
    proof {
        lemma_digits_value_nonneg(body);
    }
    if neg {
        Some(-acc)
    } else {
        Some(acc)
    }
}

/// The digits of a mantissa `digits[.digits]`, the point left out, and how
/// many come before the point.
fn mantissa_digits_exec(m: &str) -> (r: Option<(Vec<char>, usize)>)
    ensures
        r is Some <==> mantissa_ok(m@),
        r matches Some((v, il)) ==> v@ == mantissa_digits(m@) && il as int == int_digits(m@).len(),
{
    let n = m.unicode_len();
    let mut k: usize = 0;
    assert(m@.subrange(0, n as int) =~= m@);
    while k < n && m.get_char(k) != '.'
        invariant
            k <= n,
            n == m@.len(),
            dot_index(m@) == k + dot_index(m@.subrange(k as int, n as int)),
        decreases n - k,
    {
        let ghost cur = m@.subrange(k as int, n as int);
        assert(cur.drop_first() =~= m@.subrange(k + 1, n as int));
        k = k + 1;
    }
    assert(dot_index(m@) == k);
    let ghost ip = int_digits(m@);
    let ghost fp = frac_digits(m@);
    let mut v: Vec<char> = Vec::new();
    let mut i: usize = 0;
    while i < k
        invariant
            i <= k <= n,
            n == m@.len(),
            k == dot_index(m@),
            ip == m@.take(k as int),
            ip == int_digits(m@),
            fp == frac_digits(m@),
            v@ == ip.take(i as int),
            all_digits(ip.take(i as int)),
        decreases k - i,
    {
        let c = m.get_char(i);
        if !is_digit_char(c) {
            assert(ip[i as int] == c);
            assert(!all_digits(ip));
            return None;
        }
        v.push(c);
        i = i + 1;
        assert(v@ =~= ip.take(i as int));
    }
    assert(ip.take(k as int) =~= ip);
    let mut j: usize = if k < n {
        k + 1
    } else {
        n
    };
    let j_start = j;
    assert(fp =~= m@.subrange(j_start as int, n as int));
    while j < n
        invariant
            j_start <= j <= n,
            n == m@.len(),
            fp == m@.subrange(j_start as int, n as int),
            fp == frac_digits(m@),
            ip == int_digits(m@),
            v@ == ip + fp.take(j - j_start),
            all_digits(ip),
            all_digits(fp.take(j - j_start)),
        decreases n - j,
    {
        let c = m.get_char(j);
        if !is_digit_char(c) {
            assert(fp[j - j_start] == c);
            assert(!all_digits(fp));
            return None;
        }
        v.push(c);
        j = j + 1;
        assert(v@ =~= ip + fp.take(j - j_start));
    }
    assert(fp.take(n - j_start) =~= fp);
    assert(v@ =~= ip + fp);
    if v.len() == 0 {
        return None;
    }
    Some((v, k))
}

/// The millionths of the digits `d` with the point after `il` of them,
/// times ten to `e`, when within range.
fn shifted_exec(d: &Vec<char>, il: usize, e: i128) -> (r: Option<i64>)
    requires
        all_digits(d@),
        il <= d@.len(),
        -EXPONENT_BOUND <= e <= EXPONENT_BOUND,
    ensures
        r is Some ==> r->0 as int == shifted_digits(d@, il as int, e as int) && 0 <= r->0 <= MAX_MICROS,
        r is None ==> shifted_digits(d@, il as int, e as int) > MAX_MICROS,
{
    let p: i128 = il as i128 + e + 6;
    if p <= 0 {
        return Some(0);
    }
    let len = d.len() as i128;
    let take: usize = if p <= len {
        p as usize
    } else {
        d.len()
    };
    let ghost dt = d@.take(take as int);
    let mut acc: i64 = 0;
    let mut i: usize = 0;
    while i < take
        invariant
            i <= take <= d@.len(),
            len == d@.len(),
            p == il + e + 6,
            p > 0,
            p <= len ==> take as int == p,
            p > len ==> take == d@.len(),
            dt == d@.take(take as int),
            all_digits(d@),
            0 <= acc <= MAX_MICROS,
            acc as int == digits_value(dt.take(i as int)),
        decreases take - i,
    {
        let c = d[i];
        assert(dt[i as int] == c);
        assert(is_digit(d@[i as int]));
        assert(dt.take(i + 1).drop_last() =~= dt.take(i as int));
        acc = acc * 10 + (c as u32 - 48) as i64;
        i = i + 1;
        if acc > MAX_MICROS {
            proof {
                assert(all_digits(dt));
                lemma_digits_value_prefix(dt, i as int);
                assert(dt.take(i as int) =~= dt.take(i as int));
                lemma_digits_value_nonneg(d@);
                if p > len {
                    assert(dt =~= d@);
                    lemma_pow10_monotone(0, (p - len) as nat);
                    let v = digits_value(d@);
                    let w = pow10((p - len) as nat);
                    assert(v * w >= v) by (nonlinear_arith)
                        requires v >= 0, w >= 1;
                }
            }
            return None;
        }
    }
    assert(dt.take(take as int) =~= dt);
    if p <= len {
        return Some(acc);
    }
    assert(dt =~= d@);
    let q: i128 = p - len;
    if acc == 0 {
        assert(0 * pow10(q as nat) == 0);
        return Some(0);
    }
    let mut t: i128 = 0;
    while t < q
        invariant
            0 <= t <= q,
            q == p - len,
            len == d@.len(),
            p == il + e + 6,
            p > len,
            all_digits(d@),
            1 <= acc <= MAX_MICROS,
            acc as int == digits_value(d@) * pow10(t as nat),
        decreases q - t,
    {
        assert(pow10((t + 1) as nat) == 10 * pow10(t as nat));
        assert(digits_value(d@) * pow10((t + 1) as nat) == 10 * (digits_value(d@) * pow10(t as nat))) by (nonlinear_arith)
            requires pow10((t + 1) as nat) == 10 * pow10(t as nat);
        acc = acc * 10;
        t = t + 1;
        if acc > MAX_MICROS {
            proof {
                lemma_pow10_monotone(t as nat, q as nat);
                lemma_digits_value_nonneg(d@);
                let v = digits_value(d@);
                let w1 = pow10(t as nat);
                let w2 = pow10(q as nat);
                assert(v * w2 >= v * w1) by (nonlinear_arith)
                    requires v >= 0, w2 >= w1;
            }
            return None;
        }
    }
    Some(acc)
}

/// Reads an unsigned decimal with an optional exponent, within `MAX_MICROS`.
fn parse_unsigned_value(b: &str) -> (r: Option<i64>)
    ensures
        r is Some ==> unsigned_value(b@) == Some(r->0 as int) && 0 <= r->0 <= MAX_MICROS,
        r is None ==> unsigned_value(b@) is None || unsigned_value(b@)->0 > MAX_MICROS,
{
    let n = b.unicode_len();
    let mut k: usize = 0;
    assert(b@.subrange(0, n as int) =~= b@);
    while k < n && !(b.get_char(k) == 'e' || b.get_char(k) == 'E')
        invariant
            k <= n,
            n == b@.len(),
            exp_index(b@) == k + exp_index(b@.subrange(k as int, n as int)),
        decreases n - k,
    {
        let ghost cur = b@.subrange(k as int, n as int);
        assert(cur.drop_first() =~= b@.subrange(k + 1, n as int));
        k = k + 1;
    }
    assert(exp_index(b@) == k);
    if k == n {
        return parse_unsigned_micros(b);
    }
    let m = b.substring_char(0, k);
    let x = b.substring_char(k + 1, n);
    assert(m@ =~= b@.take(k as int));
    assert(x@ =~= b@.skip(k + 1));
    let e = match parse_exponent(x) {
        Some(e) => e,
        None => {
            return None;
        },
    };
    let (d, il) = match mantissa_digits_exec(m) {
        Some(found) => found,
        None => {
            return None;
        },
    };
    let dl = d.len();
    assert(il <= dl);
    proof {
        lemma_clamp_exponent(d@, il as int, signed_int_value(x@)->0);
    }
    shifted_exec(&d, il, e)
}

} // verus!
