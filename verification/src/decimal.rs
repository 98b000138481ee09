//! Decimal numbers written as ASCII text: digit strings, and numbers with a
//! point and an exponent read as fixed-point values with six decimal places.

use vstd::prelude::*;

verus! {

/// An ASCII decimal digit.
pub open spec fn spec_is_digit(b: u8) -> bool {
    48 <= b <= 57
}

/// Every byte of `s` is a decimal digit.
pub open spec fn spec_all_digits(s: Seq<u8>) -> bool {
    forall|i: int| 0 <= i < s.len() ==> spec_is_digit(#[trigger] s[i])
}

/// The number that a string of decimal digits writes; the empty string writes 0.
pub open spec fn spec_digits_value(s: Seq<u8>) -> nat
    decreases s.len(),
{
    if s.len() == 0 {
        0
    } else {
        spec_digits_value(s.drop_last()) * 10 + (s.last() - 48) as nat
    }
}

/// Why a piece of text is no acceptable non-negative number.
#[derive(Clone, Copy, Debug, PartialEq, Eq, Structural)]
pub enum DecimalError {
    /// Not of the form `[+|-] digits [. digits] [e [+|-] digits]` with at
    /// least one digit before the exponent.
    Malformed,
    /// A value below zero.
    Negative,
}

/// Length of the sign in front of a number: 1 for `+` or `-`, else 0.
pub open spec fn spec_sign_len(p: Seq<u8>) -> int {
    if p.len() > 0 && (p[0] == 43 || p[0] == 45) {
        1
    } else {
        0
    }
}

/// Index of the first `a` or `b` in `s`, or the length of `s` where there
/// is neither.
pub open spec fn spec_find_either(s: Seq<u8>, a: u8, b: u8) -> int
    decreases s.len(),
{
    if s.len() == 0 {
        0
    } else if s[0] == a || s[0] == b {
        0
    } else {
        1 + spec_find_either(s.skip(1), a, b)
    }
}

/// Index of the first `b` in `s`, or the length of `s` where there is none.
pub open spec fn spec_find(s: Seq<u8>, b: u8) -> int {
    spec_find_either(s, b, b)
}

/// The number `p` without its sign.
pub open spec fn spec_body(p: Seq<u8>) -> Seq<u8> {
    p.skip(spec_sign_len(p))
}

/// The part of the number `p` before its exponent mark `e` or `E`.
pub open spec fn spec_mantissa(p: Seq<u8>) -> Seq<u8> {
    spec_body(p).take(spec_find_either(spec_body(p), 101, 69))
}

/// The digits before the decimal point of the number `p`.
pub open spec fn spec_int_part(p: Seq<u8>) -> Seq<u8> {
    spec_mantissa(p).take(spec_find(spec_mantissa(p), 46))
}

/// The digits after the decimal point of the number `p`; empty without a point.
pub open spec fn spec_frac_part(p: Seq<u8>) -> Seq<u8> {
    let dot = spec_find(spec_mantissa(p), 46);
    if dot < spec_mantissa(p).len() {
        spec_mantissa(p).skip(dot + 1)
    } else {
        Seq::empty()
    }
}

/// Whether the number `p` has an exponent mark.
pub open spec fn spec_has_exponent(p: Seq<u8>) -> bool {
    spec_find_either(spec_body(p), 101, 69) < spec_body(p).len()
}

/// What follows the exponent mark of the number `p`.
pub open spec fn spec_exponent_text(p: Seq<u8>) -> Seq<u8> {
    spec_body(p).skip(spec_find_either(spec_body(p), 101, 69) + 1)
}

/// The digits of the exponent of the number `p`.
pub open spec fn spec_exponent_digits(p: Seq<u8>) -> Seq<u8> {
    spec_exponent_text(p).skip(spec_sign_len(spec_exponent_text(p)))
}

/// The exponent of the number `p`; 0 where it has none.
pub open spec fn spec_exponent(p: Seq<u8>) -> int {
    if !spec_has_exponent(p) {
        0
    } else if spec_exponent_text(p).len() > 0 && spec_exponent_text(p)[0] == 45 {
        -(spec_digits_value(spec_exponent_digits(p)) as int)
    } else {
        spec_digits_value(spec_exponent_digits(p)) as int
    }
}

/// `p` has the form `[+|-] digits [. digits] [e [+|-] digits]`, with at
/// least one digit before the exponent, and at least one in it.
pub open spec fn spec_well_formed(p: Seq<u8>) -> bool {
    &&& spec_all_digits(spec_int_part(p))
    &&& spec_all_digits(spec_frac_part(p))
    &&& spec_int_part(p).len() + spec_frac_part(p).len() > 0
    &&& spec_has_exponent(p) ==> spec_exponent_digits(p).len() > 0 && spec_all_digits(
        spec_exponent_digits(p),
    )
}

/// The first `n` digits of `d` read as a whole number, missing digits as 0.
pub open spec fn spec_leading(d: Seq<u8>, n: nat) -> nat
    decreases n,
{
    if n == 0 {
        0
    } else {
        spec_leading(d, (n - 1) as nat) * 10 + (if n - 1 < d.len() {
            (d[n - 1] - 48) as nat
        } else {
            0
        })
    }
}

/// The value of the well-formed number `p` in millionths, rounded towards
/// zero: the exponent and six more places move the decimal point to the
/// right, and the digits that then stand before the point are the result.
pub open spec fn spec_micros(p: Seq<u8>) -> nat {
    let places = spec_int_part(p).len() + spec_exponent(p) + 6;
    if places <= 0 {
        0
    } else {
        spec_leading(spec_int_part(p) + spec_frac_part(p), places as nat)
    }
}

/// The well-formed number `p` writes a value other than zero.
pub open spec fn spec_nonzero(p: Seq<u8>) -> bool {
    spec_digits_value(spec_int_part(p)) > 0 || spec_digits_value(spec_frac_part(p)) > 0
}

/// What a piece of text means as a non-negative fixed-point number: its
/// value in millionths, or the first reason that applies of not being one.
/// A value of more millionths than 128 bits hold is kept as the largest
/// value that they hold.
pub open spec fn spec_parse_decimal(p: Seq<u8>) -> Result<u128, DecimalError> {
    if !spec_well_formed(p) {
        Err(DecimalError::Malformed)
    } else if p[0] == 45 && spec_nonzero(p) {
        Err(DecimalError::Negative)
    } else if spec_micros(p) > u128::MAX {
        Ok(u128::MAX)
    } else {
        Ok(spec_micros(p) as u128)
    }
}

/// What a piece of text means as a line's hit count: a non-empty string of
/// digits whose value fits in 64 bits.
pub open spec fn spec_parse_count(s: Seq<u8>) -> Option<u64> {
    if s.len() > 0 && spec_all_digits(s) && spec_digits_value(s) <= u64::MAX {
        Some(spec_digits_value(s) as u64)
    } else {
        None
    }
}

/// A longer digit string writes no smaller a number than its prefix.
pub proof fn lemma_digits_value_prefix(s: Seq<u8>, k: int)
    requires
        0 <= k <= s.len(),
        spec_all_digits(s),
    ensures
        spec_digits_value(s.take(k)) <= spec_digits_value(s),
    decreases s.len(),
{
    if k == s.len() {
        assert(s.take(k) == s);
    } else {
        assert(s.drop_last().take(k) == s.take(k));
        lemma_digits_value_prefix(s.drop_last(), k);
    }
}

/// Reading one more digit multiplies by ten and adds the digit.
pub proof fn lemma_digits_value_step(s: Seq<u8>, k: int)
    requires
        0 <= k < s.len(),
        spec_is_digit(s[k]),
    ensures
        spec_digits_value(s.take(k + 1)) == spec_digits_value(s.take(k)) * 10 + (s[k] - 48),
{
    assert(s.take(k + 1).drop_last() == s.take(k));
    assert(s.take(k + 1).last() == s[k]);
}

/// Whether `b` is an ASCII decimal digit.
pub fn is_digit(b: u8) -> (r: bool)
    ensures
        r == spec_is_digit(b),
{
    48 <= b && b <= 57
}

/// Whether every byte of `s[from..to]` is a decimal digit.
pub fn all_digits(s: &[u8], from: usize, to: usize) -> (r: bool)
    requires
        from <= to <= s.len(),
    ensures
        r == spec_all_digits(s@.subrange(from as int, to as int)),
{
    let ghost part = s@.subrange(from as int, to as int);
    let mut i: usize = from;
    while i < to
        invariant
            from <= i <= to <= s.len(),
            part == s@.subrange(from as int, to as int),
            forall|j: int| 0 <= j < i - from ==> spec_is_digit(#[trigger] part[j]),
        decreases to - i,
    {
        if !is_digit(s[i]) {
            assert(!spec_is_digit(part[i - from]));
            return false;
        }
        i += 1;
    }
    true
}

/// The number written by the digits `s[from..to]`, where 128 bits hold it.
pub fn digits_value(s: &[u8], from: usize, to: usize) -> (r: Option<u128>)
    requires
        from <= to <= s.len(),
        spec_all_digits(s@.subrange(from as int, to as int)),
    ensures
        match r {
            Some(v) => v == spec_digits_value(s@.subrange(from as int, to as int)),
            None => spec_digits_value(s@.subrange(from as int, to as int)) > u128::MAX,
        },
{
    let ghost part = s@.subrange(from as int, to as int);
    let mut acc: u128 = 0;
    let mut i: usize = from;
    proof {
        assert(part.take(0).len() == 0);
    }
    while i < to
        invariant
            from <= i <= to <= s.len(),
            part == s@.subrange(from as int, to as int),
            spec_all_digits(part),
            acc == spec_digits_value(part.take(i - from)),
        decreases to - i,
    {
        proof {
            assert(spec_is_digit(part[i - from]));
            assert(part[i - from] == s@[i as int]);
        }
        let d: u128 = (s[i] - 48) as u128;
        proof {
            lemma_digits_value_step(part, i - from);
            lemma_digits_value_prefix(part, i - from + 1);
        }
        let next = match acc.checked_mul(10) {
            Some(m) => m.checked_add(d),
            None => None,
        };
        match next {
            Some(v) => {
                acc = v;
            },
            None => {
                return None;
            },
        }
        i += 1;
    }
    proof {
        assert(part.take(to - from) == part);
    }
    Some(acc)
}

/// Reads a line's hit count: a non-empty string of digits that fits in 64 bits.
pub fn parse_count(s: &[u8]) -> (r: Option<u64>)
    ensures
        r == spec_parse_count(s@),
{
    proof {
        assert(s@.subrange(0, s.len() as int) == s@);
    }
    if s.len() == 0 || !all_digits(s, 0, s.len()) {
        return None;
    }
    match digits_value(s, 0, s.len()) {
        Some(v) => if v <= u64::MAX as u128 {
            Some(v as u64)
        } else {
            None
        },
        None => None,
    }
}

/// Where the search for `a` or `b` stands after skipping bytes that are
/// neither.
proof fn lemma_find_skip(s: Seq<u8>, a: u8, b: u8, k: int)
    requires
        0 <= k <= s.len(),
        forall|j: int| 0 <= j < k ==> s[j] != a && s[j] != b,
    ensures
        spec_find_either(s, a, b) == k + spec_find_either(s.skip(k), a, b),
    decreases k,
{
    if k == 0 {
        assert(s.skip(0) == s);
    } else {
        assert(s.skip(1).skip(k - 1) == s.skip(k));
        assert forall|j: int| 0 <= j < k - 1 implies s.skip(1)[j] != a && s.skip(1)[j] != b by {
            assert(s.skip(1)[j] == s[j + 1]);
        }
        lemma_find_skip(s.skip(1), a, b, k - 1);
    }
}

/// A digit string writes zero exactly when all its digits are `0`.
pub proof fn lemma_digits_value_zero(s: Seq<u8>)
    requires
        spec_all_digits(s),
    ensures
        spec_digits_value(s) == 0 <==> forall|i: int| 0 <= i < s.len() ==> s[i] == 48,
    decreases s.len(),
{
    if s.len() > 0 {
        lemma_digits_value_zero(s.drop_last());
        assert(spec_is_digit(s.last()));
        if spec_digits_value(s) == 0 {
            assert forall|i: int| 0 <= i < s.len() implies s[i] == 48 by {
                if i < s.len() - 1 {
                    assert(s.drop_last()[i] == s[i]);
                }
            }
        } else {
            if forall|i: int| 0 <= i < s.len() ==> s[i] == 48 {
                assert forall|i: int| 0 <= i < s.drop_last().len() implies s.drop_last()[i]
                    == 48 by {
                    assert(s.drop_last()[i] == s[i]);
                }
                assert(s.last() == s[s.len() - 1]);
            }
        }
    }
}

/// Reading more digits never gives a smaller number.
pub proof fn lemma_leading_monotonic(d: Seq<u8>, k: nat, n: nat)
    requires
        k <= n,
    ensures
        spec_leading(d, k) <= spec_leading(d, n),
    decreases n,
{
    if k < n {
        lemma_leading_monotonic(d, k, (n - 1) as nat);
    }
}

/// Digits that are all `0` give zero, however many are read.
pub proof fn lemma_leading_zero(d: Seq<u8>, n: nat)
    requires
        forall|i: int| 0 <= i < d.len() ==> d[i] == 48,
    ensures
        spec_leading(d, n) == 0,
    decreases n,
{
    if n > 0 {
        lemma_leading_zero(d, (n - 1) as nat);
    }
}

/// Reading the first `k` digits gives the number that they write.
pub proof fn lemma_leading_value(d: Seq<u8>, k: nat)
    requires
        k <= d.len(),
        spec_all_digits(d),
    ensures
        spec_leading(d, k) == spec_digits_value(d.take(k as int)),
    decreases k,
{
    if k > 0 {
        lemma_leading_value(d, (k - 1) as nat);
        assert(spec_is_digit(d[k - 1]));
        lemma_digits_value_step(d, k - 1);
    } else {
        assert(d.take(0).len() == 0);
    }
}

/// Reading `k` places beyond the digits `a`, into the digits `b`, gives the
/// number that `a` writes, moved `k` places, and the first `k` digits of `b`.
pub proof fn lemma_leading_joined(a: Seq<u8>, b: Seq<u8>, k: nat)
    requires
        spec_all_digits(a),
    ensures
        spec_leading(a + b, a.len() + k) == spec_digits_value(a) * spec_pow10(k) + spec_leading(
            b,
            k,
        ),
    decreases k,
{
    let d = a + b;
    if k == 0 {
        lemma_leading_before(a, b, a.len());
        assert(a.take(a.len() as int) == a);
        lemma_leading_value(a, a.len());
        assert(spec_leading(d, a.len()) == spec_digits_value(a));
        assert(spec_pow10(0) == 1);
        assert(spec_leading(b, 0) == 0);
        assert(spec_digits_value(a) * 1 == spec_digits_value(a)) by (nonlinear_arith);
    } else {
        let j = (k - 1) as nat;
        lemma_leading_joined(a, b, j);
        let n = a.len() + k;
        assert((n - 1) as nat == a.len() + j);
        let digit: nat = if n - 1 < d.len() {
            (d[n - 1] - 48) as nat
        } else {
            0
        };
        assert(spec_leading(d, n) == spec_leading(d, a.len() + j) * 10 + digit);
        if j < b.len() {
            assert(d[n - 1] == b[j as int]);
        }
        assert(spec_leading(b, k) == spec_leading(b, j) * 10 + digit);
        assert(spec_pow10(k) == spec_pow10(j) * 10);
        let v = spec_digits_value(a);
        let q = spec_pow10(j);
        let r = spec_leading(b, j);
        assert((v * q + r) * 10 == v * (q * 10) + r * 10) by (nonlinear_arith);
    }
}

/// The digits that follow play no part in reading the first `n` digits.
proof fn lemma_leading_before(a: Seq<u8>, b: Seq<u8>, n: nat)
    requires
        n <= a.len(),
    ensures
        spec_leading(a + b, n) == spec_leading(a, n),
    decreases n,
{
    if n > 0 {
        lemma_leading_before(a, b, (n - 1) as nat);
        assert((a + b)[n - 1] == a[n - 1]);
    }
}

/// Without an exponent, the value of a number in millionths is the number
/// before its point times a million, and the first six digits after it.
pub proof fn lemma_micros_without_exponent(p: Seq<u8>)
    requires
        spec_well_formed(p),
        !spec_has_exponent(p),
    ensures
        spec_micros(p) == spec_digits_value(spec_int_part(p)) * 1_000_000 + spec_leading(
            spec_frac_part(p),
            6,
        ),
{
    lemma_leading_joined(spec_int_part(p), spec_frac_part(p), 6);
    assert(spec_pow10(6) == 1_000_000) by {
        reveal_with_fuel(spec_pow10, 7);
    }
}

/// Ten to the power of `k`.
pub open spec fn spec_pow10(k: nat) -> nat
    decreases k,
{
    if k == 0 {
        1
    } else {
        spec_pow10((k - 1) as nat) * 10
    }
}

/// Each place read beyond a number other than zero makes it ten times as large.
proof fn lemma_leading_grows(d: Seq<u8>, n: nat, k: nat)
    requires
        spec_leading(d, n) >= 1,
    ensures
        spec_leading(d, n + k) >= spec_pow10(k),
    decreases k,
{
    if k > 0 {
        lemma_leading_grows(d, n, (k - 1) as nat);
    }
}

/// Thirty-nine places beyond its digits, a number other than zero is more
/// than 128 bits hold.
proof fn lemma_leading_overflows(d: Seq<u8>, n: nat)
    requires
        spec_all_digits(d),
        spec_digits_value(d) > 0,
        n >= d.len() + 39,
    ensures
        spec_leading(d, n) > u128::MAX,
{
    lemma_leading_value(d, d.len());
    assert(d.take(d.len() as int) == d);
    lemma_leading_grows(d, d.len(), 39);
    lemma_leading_monotonic(d, d.len() + 39, n);
    assert(spec_pow10(39) > u128::MAX) by {
        reveal_with_fuel(spec_pow10, 40);
    }
}

/// The digits of a number with a digit other than `0` before or after its
/// point write more than zero together, and with none they are all `0`.
proof fn lemma_joined_digits(a: Seq<u8>, b: Seq<u8>)
    requires
        spec_all_digits(a),
        spec_all_digits(b),
    ensures
        spec_all_digits(a + b),
        spec_digits_value(a + b) > 0 <==> spec_digits_value(a) > 0 || spec_digits_value(b) > 0,
        spec_digits_value(a + b) == 0 ==> forall|i: int| 0 <= i < (a + b).len() ==> (a + b)[i] == 48,
{
    let d = a + b;
    assert forall|i: int| 0 <= i < d.len() implies spec_is_digit(#[trigger] d[i]) by {
        if i < a.len() {
            assert(d[i] == a[i]);
        } else {
            assert(d[i] == b[i - a.len()]);
        }
    }
    lemma_digits_value_zero(a);
    lemma_digits_value_zero(b);
    lemma_digits_value_zero(d);
    if spec_digits_value(d) == 0 {
        assert forall|i: int| 0 <= i < a.len() implies a[i] == 48 by {
            assert(d[i] == a[i]);
        }
        assert forall|i: int| 0 <= i < b.len() implies b[i] == 48 by {
            assert(d[a.len() + i] == b[i]);
        }
    } else {
        if spec_digits_value(a) == 0 && spec_digits_value(b) == 0 {
            assert forall|i: int| 0 <= i < d.len() implies d[i] == 48 by {
                if i < a.len() {
                    assert(d[i] == a[i]);
                } else {
                    assert(d[i] == b[i - a.len()]);
                }
            }
        }
    }
}

/// Index in `s[from..to]` of the first `a` or `b`; `to` where there is
/// neither.
pub fn find_either(s: &[u8], from: usize, to: usize, a: u8, b: u8) -> (k: usize)
    requires
        from <= to <= s.len(),
    ensures
        from <= k <= to,
        k - from == spec_find_either(s@.subrange(from as int, to as int), a, b),
{
    let ghost part = s@.subrange(from as int, to as int);
    let mut i: usize = from;
    while i < to
        invariant
            from <= i <= to <= s.len(),
            part == s@.subrange(from as int, to as int),
            forall|j: int| 0 <= j < i - from ==> part[j] != a && part[j] != b,
        decreases to - i,
    {
        if s[i] == a || s[i] == b {
            proof {
                lemma_find_skip(part, a, b, i - from);
                assert(part.skip(i - from)[0] == s@[i as int]);
            }
            return i;
        }
        assert(part[i - from] == s@[i as int]);
        i += 1;
    }
    proof {
        lemma_find_skip(part, a, b, to - from);
        assert(part.skip(to - from).len() == 0);
    }
    to
}

/// Index in `s[from..to]` of the first `b`; `to` where there is none.
pub fn find_byte(s: &[u8], from: usize, to: usize, b: u8) -> (k: usize)
    requires
        from <= to <= s.len(),
    ensures
        from <= k <= to,
        k - from == spec_find(s@.subrange(from as int, to as int), b),
{
    find_either(s, from, to, b, b)
}

/// Whether the digits `s[from..to]` write a number other than zero.
pub fn digits_nonzero(s: &[u8], from: usize, to: usize) -> (r: bool)
    requires
        from <= to <= s.len(),
        spec_all_digits(s@.subrange(from as int, to as int)),
    ensures
        r == (spec_digits_value(s@.subrange(from as int, to as int)) > 0),
{
    let ghost part = s@.subrange(from as int, to as int);
    let mut i: usize = from;
    while i < to
        invariant
            from <= i <= to <= s.len(),
            part == s@.subrange(from as int, to as int),
            spec_all_digits(part),
            forall|j: int| 0 <= j < i - from ==> part[j] == 48,
        decreases to - i,
    {
        assert(part[i - from] == s@[i as int]);
        if s[i] != 48 {
            proof {
                lemma_digits_value_zero(part);
            }
            return true;
        }
        i += 1;
    }
    proof {
        lemma_digits_value_zero(part);
    }
    false
}

/// The first `n` of the digits `s[a..b]` followed by `s[c..d]`, read as a
/// whole number with missing digits as 0; the largest number that 128 bits
/// hold where they do not hold the result.
pub fn leading(s: &[u8], a: usize, b: usize, c: usize, d: usize, n: u128) -> (r: u128)
    requires
        a <= b <= s.len(),
        c <= d <= s.len(),
        spec_all_digits(s@.subrange(a as int, b as int)),
        spec_all_digits(s@.subrange(c as int, d as int)),
    ensures
        r == if spec_leading(
            s@.subrange(a as int, b as int) + s@.subrange(c as int, d as int),
            n as nat,
        ) > u128::MAX {
            u128::MAX
        } else {
            spec_leading(
                s@.subrange(a as int, b as int) + s@.subrange(c as int, d as int),
                n as nat,
            ) as u128
        },
{
    let ghost first = s@.subrange(a as int, b as int);
    let ghost second = s@.subrange(c as int, d as int);
    let ghost digits = first + second;
    let first_len: u128 = (b - a) as u128;
    let total: u128 = first_len + (d - c) as u128;
    let mut acc: u128 = 0;
    let mut i: u128 = 0;
    while i < n
        invariant
            i <= n,
            a <= b <= s.len(),
            c <= d <= s.len(),
            first == s@.subrange(a as int, b as int),
            second == s@.subrange(c as int, d as int),
            digits == first + second,
            spec_all_digits(first),
            spec_all_digits(second),
            first_len == b - a,
            total == (b - a) + (d - c),
            acc == spec_leading(digits, i as nat),
        decreases n - i,
    {
        let digit: u128 = if i < first_len {
            proof {
                assert(digits[i as int] == first[i as int]);
                assert(first[i as int] == s@[a + i]);
                assert(spec_is_digit(first[i as int]));
            }
            (s[a + i as usize] - 48) as u128
        } else if i < total {
            proof {
                assert(digits[i as int] == second[i - first_len]);
                assert(second[i - first_len] == s@[c + (i - first_len)]);
                assert(spec_is_digit(second[i - first_len]));
            }
            (s[c + (i - first_len) as usize] - 48) as u128
        } else {
            0
        };
        let next = match acc.checked_mul(10) {
            Some(m) => m.checked_add(digit),
            None => None,
        };
        match next {
            Some(v) => {
                acc = v;
            },
            None => {
                proof {
                    lemma_leading_monotonic(digits, (i + 1) as nat, n as nat);
                }
                return u128::MAX;
            },
        }
        i += 1;
    }
    acc
}

/// Where the parts of a number lie in its text.
struct Layout {
    /// Whether the number starts with `-`.
    negative: bool,
    /// Start of the digits before the point.
    start: usize,
    /// End of the digits before the point.
    dot: usize,
    /// Start of the digits after the point.
    frac_start: usize,
    /// End of the digits after the point: the exponent mark, or the end.
    mark: usize,
    /// Whether the exponent starts with `-`.
    exp_negative: bool,
    /// Start of the digits of the exponent.
    exp_digits: usize,
}

/// `l` is the layout of the number `s[from..to]`.
spec fn spec_layout(s: Seq<u8>, from: int, to: int, l: Layout) -> bool {
    let p = s.subrange(from, to);
    &&& from <= l.start <= l.dot <= l.frac_start <= l.mark <= to
    &&& l.mark <= l.exp_digits <= to
    &&& l.negative == (p.len() > 0 && p[0] == 45)
    &&& spec_int_part(p) == s.subrange(l.start as int, l.dot as int)
    &&& spec_frac_part(p) == s.subrange(l.frac_start as int, l.mark as int)
    &&& spec_has_exponent(p) == (l.mark < to)
    &&& l.mark < to ==> spec_exponent_digits(p) == s.subrange(l.exp_digits as int, to)
    &&& l.exp_negative == (l.mark < to && spec_exponent_text(p).len() > 0 && spec_exponent_text(
        p,
    )[0] == 45)
}

/// The parts of a number, told from where its marks are: `sign` bytes of
/// sign at `from`, the exponent mark or the end at `mark`, and the point or
/// the end of the mantissa at `dot`.
proof fn lemma_mantissa_layout(s: Seq<u8>, from: int, to: int, sign: int, mark: int, dot: int)
    requires
        0 <= from <= to <= s.len(),
        sign == spec_sign_len(s.subrange(from, to)),
        from + sign <= dot <= mark <= to,
        mark - (from + sign) == spec_find_either(s.subrange(from + sign, to), 101, 69),
        dot - (from + sign) == spec_find(s.subrange(from + sign, mark), 46),
    ensures
        spec_body(s.subrange(from, to)) == s.subrange(from + sign, to),
        spec_mantissa(s.subrange(from, to)) == s.subrange(from + sign, mark),
        spec_int_part(s.subrange(from, to)) == s.subrange(from + sign, dot),
        spec_frac_part(s.subrange(from, to)) == s.subrange(
            if dot < mark {
                dot + 1
            } else {
                mark
            },
            mark,
        ),
        spec_has_exponent(s.subrange(from, to)) == (mark < to),
        mark < to ==> spec_exponent_text(s.subrange(from, to)) == s.subrange(mark + 1, to),
{
    let p = s.subrange(from, to);
    let start = from + sign;
    let body = s.subrange(start, to);
    assert(spec_body(p) == body) by {
        assert(p.skip(sign) =~= body);
    }
    let mantissa = s.subrange(start, mark);
    assert(spec_mantissa(p) == mantissa) by {
        assert(body.take(mark - start) =~= mantissa);
    }
    assert(spec_int_part(p) == s.subrange(start, dot)) by {
        assert(mantissa.take(dot - start) =~= s.subrange(start, dot));
    }
    if dot < mark {
        assert(mantissa.skip(dot - start + 1) =~= s.subrange(dot + 1, mark));
    } else {
        assert(s.subrange(mark, mark) =~= Seq::<u8>::empty());
    }
    if mark < to {
        assert(body.skip(mark - start + 1) =~= s.subrange(mark + 1, to));
    }
}

/// Finds the parts of the number `s[from..to]`.
fn layout(s: &[u8], from: usize, to: usize) -> (l: Layout)
    requires
        from <= to <= s.len(),
    ensures
        spec_layout(s@, from as int, to as int, l),
{
    let ghost p = s@.subrange(from as int, to as int);
    let sign: usize = if from < to && (s[from] == 43 || s[from] == 45) {
        1
    } else {
        0
    };
    let negative = from < to && s[from] == 45;
    proof {
        assert(p.len() == 0 || p[0] == s@[from as int]);
    }
    let start = from + sign;
    let mark = find_either(s, start, to, 101, 69);
    let dot = find_byte(s, start, mark, 46);
    let frac_start = if dot < mark {
        dot + 1
    } else {
        mark
    };
    let exp_start = if mark < to {
        mark + 1
    } else {
        to
    };
    let exp_sign: usize = if exp_start < to && (s[exp_start] == 43 || s[exp_start] == 45) {
        1
    } else {
        0
    };
    let exp_negative = exp_start < to && s[exp_start] == 45;
    let exp_digits = exp_start + exp_sign;
    proof {
        lemma_mantissa_layout(s@, from as int, to as int, sign as int, mark as int, dot as int);
        if mark < to {
            let text = s@.subrange(exp_start as int, to as int);
            assert(text.len() == 0 || text[0] == s@[exp_start as int]);
            assert(text.skip(exp_sign as int) =~= s@.subrange(exp_digits as int, to as int));
        }
    }
    Layout { negative, start, dot, frac_start, mark, exp_negative, exp_digits }
}

/// How many digits of a number stand before the point once the exponent
/// and six more places have moved it.
enum Places {
    /// None: the value is below a millionth.
    Zero,
    /// This many.
    Count(u128),
    /// More than matter: at least 39 beyond the digits of the number.
    Beyond,
}

/// Counts the places of a number with `int_len` digits before the point,
/// `total` digits in all, and an exponent of the given sign and size;
/// `None` stands for a size that 128 bits do not hold.
fn count_places(int_len: u128, total: u128, exp_negative: bool, size: Option<u128>) -> (r:
    Places)
    requires
        int_len <= total <= 0x1_0000_0000_0000_0000,
    ensures
        match r {
            Places::Zero => exp_negative && (size matches Some(e) ==> int_len + 6 - e <= 0),
            Places::Count(n) => size matches Some(e) && n == int_len + 6 + (if exp_negative {
                -(e as int)
            } else {
                e as int
            }) && n > 0,
            Places::Beyond => !exp_negative && (size matches Some(e) ==> e >= total + 39),
        },
{
    if exp_negative {
        match size {
            Some(e) => if e >= int_len + 6 {
                Places::Zero
            } else {
                Places::Count(int_len + 6 - e)
            },
            None => Places::Zero,
        }
    } else {
        match size {
            Some(e) => if e >= total + 39 {
                Places::Beyond
            } else {
                Places::Count(int_len + 6 + e)
            },
            None => Places::Beyond,
        }
    }
}

/// Reads `s[from..to]` as a non-negative number with six decimal places.
pub fn parse_decimal(s: &[u8], from: usize, to: usize) -> (r: Result<u128, DecimalError>)
    requires
        from <= to <= s.len(),
    ensures
        r == spec_parse_decimal(s@.subrange(from as int, to as int)),
{
    let ghost p = s@.subrange(from as int, to as int);
    let l = layout(s, from, to);
    if !all_digits(s, l.start, l.dot) || !all_digits(s, l.frac_start, l.mark) {
        return Err(DecimalError::Malformed);
    }
    if (l.dot - l.start) + (l.mark - l.frac_start) == 0 {
        return Err(DecimalError::Malformed);
    }
    if l.mark < to && (l.exp_digits == to || !all_digits(s, l.exp_digits, to)) {
        return Err(DecimalError::Malformed);
    }
    assert(spec_well_formed(p));
    let nonzero = digits_nonzero(s, l.start, l.dot) || digits_nonzero(s, l.frac_start, l.mark);
    assert(nonzero == spec_nonzero(p));
    if l.negative && nonzero {
        return Err(DecimalError::Negative);
    }
    let ghost digits = spec_int_part(p) + spec_frac_part(p);
    let ghost places = spec_int_part(p).len() + spec_exponent(p) + 6;
    proof {
        lemma_joined_digits(spec_int_part(p), spec_frac_part(p));
    }
    if !nonzero {
        proof {
            if places > 0 {
                lemma_leading_zero(digits, places as nat);
            }
        }
        return Ok(0);
    }
    let int_len: u128 = (l.dot - l.start) as u128;
    let total: u128 = int_len + (l.mark - l.frac_start) as u128;
    let size: Option<u128> = if l.mark < to {
        digits_value(s, l.exp_digits, to)
    } else {
        Some(0)
    };
    match count_places(int_len, total, l.exp_negative, size) {
        Places::Zero => {
            assert(places <= 0);
            Ok(0)
        },
        Places::Count(n) => {
            assert(places == n);
            Ok(leading(s, l.start, l.dot, l.frac_start, l.mark, n))
        },
        Places::Beyond => {
            proof {
                assert(places >= digits.len() + 39);
                lemma_leading_overflows(digits, places as nat);
            }
            Ok(u128::MAX)
        },
    }
}

} // verus!
