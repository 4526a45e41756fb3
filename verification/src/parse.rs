//! Reading lengths typed as decimal millimetres, written as Rust writes a
//! finite `f64`: an optional sign, digits with an optional decimal point,
//! and an optional exponent. A length is held in thousandths of a
//! millimetre, rounded half up; a positive value under half a thousandth
//! counts as one thousandth, and every value above `MAX_LEN`, infinity
//! included, is read as `TOO_LONG`.

use vstd::prelude::*;
use vstd::string::*;
use crate::geometry::{MAX_LEN, TOO_LONG};

verus! {

/// `c` is one of `0` to `9`.
pub open spec fn is_digit(c: char) -> bool {
    '0' <= c && c <= '9'
}

/// Every character of `d` is a digit.
pub open spec fn all_digits(d: Seq<char>) -> bool {
    forall|i: int| 0 <= i < d.len() ==> is_digit(#[trigger] d[i])
}

/// The value of a string of digits read in base ten (zero when empty).
pub open spec fn digits_value(d: Seq<char>) -> int
    decreases d.len(),
{
    if d.len() == 0 {
        0
    } else {
        digits_value(d.drop_last()) * 10 + (d.last() as int - '0' as int)
    }
}

/// The number of sign characters at the front: one for a leading `+` or
/// `-`, else none.
pub open spec fn sign_len(s: Seq<char>) -> int {
    if s.len() > 0 && (s[0] == '+' || s[0] == '-') {
        1
    } else {
        0
    }
}

/// The index of the first `.` in `b`, or its length when there is none.
pub open spec fn first_dot(b: Seq<char>) -> int
    decreases b.len(),
{
    if b.len() == 0 {
        0
    } else if b[0] == '.' {
        0
    } else {
        1 + first_dot(b.drop_first())
    }
}

/// `c` starts an exponent: `e` or `E`.
pub open spec fn is_exp_mark(c: char) -> bool {
    c == 'e' || c == 'E'
}

/// The index of the first exponent mark in `b`, or its length when there
/// is none.
pub open spec fn first_exp(b: Seq<char>) -> int
    decreases b.len(),
{
    if b.len() == 0 {
        0
    } else if is_exp_mark(b[0]) {
        0
    } else {
        1 + first_exp(b.drop_first())
    }
}

/// What follows the sign.
pub open spec fn body(s: Seq<char>) -> Seq<char> {
    s.skip(sign_len(s))
}

/// The digits and decimal point before the exponent.
pub open spec fn mantissa(s: Seq<char>) -> Seq<char> {
    body(s).take(first_exp(body(s)))
}

/// `s` has an exponent mark.
pub open spec fn has_exponent(s: Seq<char>) -> bool {
    first_exp(body(s)) < body(s).len()
}

/// What follows the exponent mark.
pub open spec fn exponent_text(s: Seq<char>) -> Seq<char> {
    body(s).skip(first_exp(body(s)) + 1)
}

/// The digits before the decimal point.
pub open spec fn int_part(s: Seq<char>) -> Seq<char> {
    let m = mantissa(s);
    m.take(first_dot(m))
}

/// The characters between the decimal point and the exponent (none
/// without a decimal point).
pub open spec fn frac_part(s: Seq<char>) -> Seq<char> {
    let m = mantissa(s);
    if first_dot(m) < m.len() {
        m.skip(first_dot(m) + 1)
    } else {
        Seq::empty()
    }
}

/// An exponent: an optional sign and at least one digit.
pub open spec fn exponent_ok(x: Seq<char>) -> bool {
    sign_len(x) < x.len() && all_digits(x.skip(sign_len(x)))
}

/// The value of an exponent.
pub open spec fn exponent_value(x: Seq<char>) -> int {
    if sign_len(x) == 1 && x[0] == '-' {
        -digits_value(x.skip(1))
    } else {
        digits_value(x.skip(sign_len(x)))
    }
}

/// `s` is a decimal number as Rust writes a finite `f64`: an optional
/// sign, digits with at most one decimal point and at least one digit,
/// then optionally `e` or `E`, an optional sign and at least one digit.
pub open spec fn is_decimal(s: Seq<char>) -> bool {
    &&& all_digits(int_part(s))
    &&& all_digits(frac_part(s))
    &&& int_part(s).len() + frac_part(s).len() >= 1
    &&& has_exponent(s) ==> exponent_ok(exponent_text(s))
}

/// The exponent of `s` (zero without one).
pub open spec fn exponent(s: Seq<char>) -> int {
    if has_exponent(s) {
        exponent_value(exponent_text(s))
    } else {
        0
    }
}

/// All the digits of the mantissa, without the decimal point.
pub open spec fn mantissa_digits(s: Seq<char>) -> Seq<char> {
    int_part(s) + frac_part(s)
}

/// Where the point falls in the mantissa's digits once the value is
/// counted in thousandths: after this many of them (possibly fewer than
/// none, or more than there are).
pub open spec fn point(s: Seq<char>) -> int {
    int_part(s).len() + exponent(s) + 3
}

/// The digits of `d` before the point at `p`, with zeros after the end of
/// `d`: the whole number of thousandths.
pub open spec fn whole_digits(d: Seq<char>, p: int) -> Seq<char> {
    Seq::new(if p > 0 { p as nat } else { 0 }, |i: int| if i < d.len() { d[i] } else { '0' })
}

/// The first digit after the point at `p` is 5 or more.
pub open spec fn rounds_up(d: Seq<char>, p: int) -> bool {
    0 <= p < d.len() && d[p] >= '5'
}

/// The value of `s` in thousandths, without its sign, rounded half up.
pub open spec fn rounded(s: Seq<char>) -> int {
    let d = mantissa_digits(s);
    digits_value(whole_digits(d, point(s))) + if rounds_up(d, point(s)) {
        1int
    } else {
        0int
    }
}

/// The size of `s` in thousandths: zero when all its digits are zero;
/// otherwise its value rounded half up, and one thousandth for a value
/// that rounds to nothing.
pub open spec fn magnitude(s: Seq<char>) -> int {
    if digits_value(mantissa_digits(s)) == 0 {
        0
    } else if rounded(s) == 0 {
        1
    } else {
        rounded(s)
    }
}

/// `s` starts with a minus sign.
pub open spec fn negative(s: Seq<char>) -> bool {
    sign_len(s) == 1 && s[0] == '-'
}

/// The value of the decimal `s`, in thousandths.
pub open spec fn decimal_thousandths(s: Seq<char>) -> int {
    if negative(s) {
        -magnitude(s)
    } else {
        magnitude(s)
    }
}

/// `v`, or `TOO_LONG` when `v` is longer than that.
pub open spec fn capped(v: int) -> int {
    if v > TOO_LONG {
        TOO_LONG as int
    } else {
        v
    }
}

/// `c` is the letter `lo` or its capital `up`.
pub open spec fn ci(c: char, lo: char, up: char) -> bool {
    c == lo || c == up
}

/// `b` is `inf` or `infinity`, in any mix of cases.
pub open spec fn is_inf_word(b: Seq<char>) -> bool {
    &&& b.len() >= 3
    &&& ci(b[0], 'i', 'I') && ci(b[1], 'n', 'N') && ci(b[2], 'f', 'F')
    &&& b.len() == 3 || (b.len() == 8 && ci(b[3], 'i', 'I') && ci(b[4], 'n', 'N') && ci(b[5], 'i', 'I') && ci(
        b[6],
        't',
        'T',
    ) && ci(b[7], 'y', 'Y'))
}

/// `s` writes an infinity, as Rust's `f64` parsing reads one: an optional
/// sign, then `inf` or `infinity` in any mix of cases.
pub open spec fn is_infinity(s: Seq<char>) -> bool {
    is_inf_word(body(s))
}

/// The positive length, in thousandths of a millimetre, that `s` states:
/// for a decimal with a positive value, that value, and `TOO_LONG` for any
/// value above `MAX_LEN` and for a positive infinity; `None` for anything
/// else, NaN included.
pub open spec fn length_of(s: Seq<char>) -> Option<i64> {
    if is_decimal(s) && decimal_thousandths(s) > 0 {
        Some(capped(decimal_thousandths(s)) as i64)
    } else if is_infinity(s) && !negative(s) {
        Some(TOO_LONG)
    } else {
        None
    }
}

/// Ten to the power `k`.
pub open spec fn pow10(k: nat) -> nat
    decreases k,
{
    if k == 0 {
        1
    } else {
        10 * pow10((k - 1) as nat)
    }
}

proof fn lemma_pow10_ge(k: nat)
    requires
        k >= 10,
    ensures
        pow10(k) >= 10_000_000_000,
    decreases k,
{
    if k == 10 {
        reveal_with_fuel(pow10, 11);
    } else {
        lemma_pow10_ge((k - 1) as nat);
    }
}

/// A string of digits is worth at least its first `j` digits times ten to
/// the number of the others.
proof fn lemma_digits_lower(d: Seq<char>, j: int)
    requires
        all_digits(d),
        0 <= j <= d.len(),
    ensures
        digits_value(d) >= digits_value(d.take(j)) * pow10((d.len() - j) as nat),
    decreases d.len(),
{
    if j == d.len() {
        assert(d.take(j) =~= d);
        assert(pow10((d.len() - j) as nat) == 1);
    } else {
        let e = d.drop_last();
        assert forall|i: int| 0 <= i < e.len() implies is_digit(#[trigger] e[i]) by {
            assert(e[i] == d[i]);
        }
        lemma_digits_lower(e, j);
        assert(e.take(j) =~= d.take(j));
        assert(is_digit(d[d.len() - 1]));
        let a = digits_value(d.take(j));
        let p = pow10((e.len() - j) as nat);
        assert(pow10((d.len() - j) as nat) == 10 * p);
        assert forall|i: int| 0 <= i < j implies is_digit(#[trigger] d.take(j)[i]) by {
            assert(d.take(j)[i] == d[i]);
        }
        lemma_digits_nonneg(d.take(j));
        assert(digits_value(d) == digits_value(e) * 10 + (d[d.len() - 1] as int - '0' as int));
        assert(digits_value(e) * 10 >= a * (10 * p)) by (nonlinear_arith)
            requires
                digits_value(e) >= a * p,
                a >= 0,
                p >= 0,
        ;
        assert(a * pow10((d.len() - j) as nat) == a * (10 * p));
    }
}

/// Digits with a non-zero digit and at least ten more after it are worth
/// more than `MAX_LEN`.
proof fn lemma_digits_big(d: Seq<char>, z: int)
    requires
        all_digits(d),
        0 <= z,
        z + 11 <= d.len(),
        d[z] != '0',
    ensures
        digits_value(d) > MAX_LEN,
{
    lemma_digits_lower(d, z + 1);
    lemma_digits_step(d, z);
    lemma_digits_prefix(d, z);
    assert(is_digit(d[z]));
    let a = digits_value(d.take(z + 1));
    assert(a >= 1);
    let k = (d.len() - z - 1) as nat;
    lemma_pow10_ge(k);
    assert(a * pow10(k) >= pow10(k)) by (nonlinear_arith)
        requires
            a >= 1,
    ;
}

/// A decimal with a non-zero digit whose whole thousandths exceed
/// `MAX_LEN` is longer than `MAX_LEN`.
proof fn lemma_rounded_above(s: Seq<char>)
    requires
        digits_value(mantissa_digits(s)) != 0,
        digits_value(whole_digits(mantissa_digits(s), point(s))) > MAX_LEN,
    ensures
        capped(magnitude(s)) == TOO_LONG,
{
}

/// `first_exp` and `first_dot` give an index within the string or its end.
proof fn lemma_first_range(b: Seq<char>)
    ensures
        0 <= first_exp(b) <= b.len(),
        0 <= first_dot(b) <= b.len(),
    decreases b.len(),
{
    if b.len() > 0 {
        lemma_first_range(b.drop_first());
    }
}

/// No infinity is a decimal.
proof fn lemma_infinity_not_decimal(s: Seq<char>)
    requires
        is_infinity(s),
    ensures
        !is_decimal(s),
{
    let b = body(s);
    lemma_first_range(b.drop_first());
    assert(!is_exp_mark(b[0]));
    assert(first_exp(b) > 0);
    let m = mantissa(s);
    lemma_first_range(m.drop_first());
    assert(m[0] == b[0]);
    assert(first_dot(m) > 0);
    assert(int_part(s)[0] == b[0]);
    assert(!is_digit(int_part(s)[0]));
}

/// A decimal's size is never negative.
proof fn lemma_magnitude_nonneg(s: Seq<char>)
    requires
        is_decimal(s),
    ensures
        magnitude(s) >= 0,
{
    let d = mantissa_digits(s);
    let ip = int_part(s);
    let fp = frac_part(s);
    assert forall|i: int| 0 <= i < d.len() implies is_digit(#[trigger] d[i]) by {
        if i < ip.len() {
            assert(d[i] == ip[i]);
        } else {
            assert(d[i] == fp[i - ip.len()]);
        }
    }
    let w = whole_digits(d, point(s));
    assert forall|i: int| 0 <= i < w.len() implies is_digit(#[trigger] w[i]) by {
        if i < d.len() {
            assert(is_digit(d[i]));
        }
    }
    lemma_digits_nonneg(w);
}

/// Digits are worth nothing exactly when they are all zeros.
proof fn lemma_digits_zero(d: Seq<char>)
    requires
        all_digits(d),
    ensures
        digits_value(d) == 0 <==> forall|i: int| 0 <= i < d.len() ==> #[trigger] d[i] == '0',
    decreases d.len(),
{
    if d.len() > 0 {
        let e = d.drop_last();
        assert forall|i: int| 0 <= i < e.len() implies is_digit(#[trigger] e[i]) by {
            assert(e[i] == d[i]);
        }
        lemma_digits_zero(e);
        lemma_digits_nonneg(e);
        assert(is_digit(d[d.len() - 1]));
        if digits_value(d) == 0 {
            assert forall|i: int| 0 <= i < d.len() implies #[trigger] d[i] == '0' by {
                if i < e.len() {
                    assert(e[i] == d[i]);
                }
            }
        }
        if forall|i: int| 0 <= i < d.len() ==> #[trigger] d[i] == '0' {
            assert forall|i: int| 0 <= i < e.len() implies #[trigger] e[i] == '0' by {
                assert(e[i] == d[i]);
            }
        }
    }
}

/// A string of digits is worth at least as much as any of its prefixes,
/// and nothing negative.
proof fn lemma_digits_prefix(d: Seq<char>, i: int)
    requires
        all_digits(d),
        0 <= i <= d.len(),
    ensures
        0 <= digits_value(d.take(i)) <= digits_value(d),
    decreases d.len() - i,
{
    if i < d.len() {
        lemma_digits_prefix(d, i + 1);
        assert(d.take(i + 1).drop_last() =~= d.take(i));
        assert(d.take(i + 1).last() == d[i]);
        assert(is_digit(d[i]));
        assert(0 <= d[i] as int - '0' as int <= 9);
    } else {
        assert(d.take(i) =~= d);
        lemma_digits_nonneg(d);
    }
}

/// Digits are never worth less than zero.
proof fn lemma_digits_nonneg(d: Seq<char>)
    requires
        all_digits(d),
    ensures
        digits_value(d) >= 0,
    decreases d.len(),
{
    if d.len() > 0 {
        lemma_digits_nonneg(d.drop_last());
        assert(is_digit(d[d.len() - 1]));
    }
}

/// The digits and the value of `d.take(i + 1)` from those of `d.take(i)`.
proof fn lemma_digits_step(d: Seq<char>, i: int)
    requires
        0 <= i < d.len(),
    ensures
        digits_value(d.take(i + 1)) == digits_value(d.take(i)) * 10 + (d[i] as int - '0' as int),
        all_digits(d.take(i)) && is_digit(d[i]) ==> all_digits(d.take(i + 1)),
{
    assert(d.take(i + 1).drop_last() =~= d.take(i));
}

/// Reads the digits of `s` from `from` up to `to`, saturating: the value
/// when they are all digits and it is at most `cap`, else a flag.
fn read_digits(s: &str, from: usize, to: usize, cap: u128) -> (r: (bool, bool, u128))
    requires
        from <= to <= s@.len(),
        cap <= 0x1_0000_0000_0000_0000_0000,
    ensures
        r.0 == all_digits(s@.subrange(from as int, to as int)),
        r.0 ==> (r.1 == (digits_value(s@.subrange(from as int, to as int)) > cap)),
        r.0 && !r.1 ==> r.2 == digits_value(s@.subrange(from as int, to as int)),
{
    let ghost d = s@.subrange(from as int, to as int);
    let mut ok = true;
    let mut big = false;
    let mut acc: u128 = 0;
    let mut i = from;
    while i < to
        invariant
            from <= i <= to <= s@.len(),
            cap <= 0x1_0000_0000_0000_0000_0000,
            d == s@.subrange(from as int, to as int),
            ok == all_digits(d.take(i - from)),
            ok && !big ==> acc == digits_value(d.take(i - from)) && acc <= cap,
            ok && big ==> digits_value(d.take(i - from)) > cap,
        decreases to - i,
    {
        let c = s.get_char(i);
        let ghost k = (i - from) as int;
        assert(d[k] == c);
        proof {
            lemma_digits_step(d, k);
        }
        if ok {
            if '0' <= c && c <= '9' {
                if !big {
                    let v = acc * 10 + (c as u128 - '0' as u128);
                    if v > cap {
                        big = true;
                    } else {
                        acc = v;
                    }
                } else {
                    assert(digits_value(d.take(k)) >= 0) by {
                        lemma_digits_prefix(d.take(k + 1), k);
                        assert(d.take(k + 1).take(k) =~= d.take(k));
                    }
                }
            } else {
                ok = false;
                assert(!is_digit(d.take(k + 1)[k]));
            }
        } else {
            assert(!all_digits(d.take(k + 1))) by {
                let j = choose|j: int| 0 <= j < k && !is_digit(d.take(k)[j]);
                assert(d.take(k + 1)[j] == d.take(k)[j]);
            }
        }
        i = i + 1;
    }
    assert(d.take(to - from) =~= d);
    (ok, big, acc)
}

/// The length, in thousandths of a millimetre and possibly zero, that `s`
/// states, read as `length_of` reads a positive one.
pub open spec fn nonneg_length_of(s: Seq<char>) -> Option<i64> {
    if is_decimal(s) && decimal_thousandths(s) >= 0 {
        Some(capped(decimal_thousandths(s)) as i64)
    } else if is_infinity(s) && !negative(s) {
        Some(TOO_LONG)
    } else {
        None
    }
}

/// The positive length that `s` states, if it states one.
pub fn parse_length(s: &str) -> (r: Option<i64>)
    ensures
        r == length_of(s@),
        r matches Some(v) ==> 0 < v <= TOO_LONG,
{
    proof {
        if is_decimal(s@) {
            lemma_magnitude_nonneg(s@);
        }
        if is_infinity(s@) {
            lemma_infinity_not_decimal(s@);
        }
    }
    match parse_nonneg_length(s) {
        Some(v) => if v > 0 {
            Some(v)
        } else {
            None
        },
        None => None,
    }
}

/// Whether the characters of `s` from `start` on are `inf` or `infinity`,
/// in any mix of cases.
fn inf_word(s: &str, start: usize) -> (r: bool)
    requires
        start <= s@.len(),
    ensures
        r == is_inf_word(s@.skip(start as int)),
{
    let ghost b = s@.skip(start as int);
    let n = s.unicode_len();
    let m = n - start;
    if m != 3 && m != 8 {
        return false;
    }
    let c0 = s.get_char(start);
    let c1 = s.get_char(start + 1);
    let c2 = s.get_char(start + 2);
    assert(b[0] == c0 && b[1] == c1 && b[2] == c2);
    let head = (c0 == 'i' || c0 == 'I') && (c1 == 'n' || c1 == 'N') && (c2 == 'f' || c2 == 'F');
    if !head {
        return false;
    }
    if m == 3 {
        return true;
    }
    let c3 = s.get_char(start + 3);
    let c4 = s.get_char(start + 4);
    let c5 = s.get_char(start + 5);
    let c6 = s.get_char(start + 6);
    let c7 = s.get_char(start + 7);
    assert(b[3] == c3 && b[4] == c4 && b[5] == c5 && b[6] == c6 && b[7] == c7);
    (c3 == 'i' || c3 == 'I') && (c4 == 'n' || c4 == 'N') && (c5 == 'i' || c5 == 'I') && (c6 == 't' || c6 == 'T')
        && (c7 == 'y' || c7 == 'Y')
}

/// The length, possibly zero, that `s` states, if it states one.
pub fn parse_nonneg_length(s: &str) -> (r: Option<i64>)
    ensures
        r == nonneg_length_of(s@),
{
    proof {
        if is_decimal(s@) {
            lemma_magnitude_nonneg(s@);
        }
    }
    match read_decimal(s) {
        Some((neg, m)) => if neg && m > 0 {
            None
        } else {
            Some(m)
        },
        None => {
            let n = s.unicode_len();
            let mut start: usize = 0;
            let mut neg = false;
            if n > 0 {
                let c = s.get_char(0);
                if c == '+' || c == '-' {
                    start = 1;
                    neg = c == '-';
                }
            }
            assert(start == sign_len(s@));
            assert(neg == negative(s@));
            if !neg && inf_word(s, start) {
                Some(TOO_LONG)
            } else {
                None
            }
        },
    }
}

/// The mantissa digit at index `i`: from the integer part, then from the
/// fraction.
fn digit_at(s: &str, start: usize, dot: usize, frac_from: usize, ep: usize, i: usize) -> (c: char)
    requires
        start <= dot <= frac_from <= ep <= s@.len(),
        i < (dot - start) + (ep - frac_from),
    ensures
        c == (s@.subrange(start as int, dot as int) + s@.subrange(frac_from as int, ep as int))[i as int],
{
    let il = dot - start;
    if i < il {
        s.get_char(start + i)
    } else {
        s.get_char(frac_from + (i - il))
    }
}

/// For a decimal `s`, whether it is negative and its size in thousandths,
/// capped at `TOO_LONG`; `None` when `s` is no decimal.
#[verifier::spinoff_prover]
#[verifier::rlimit(80)]
fn read_decimal(s: &str) -> (r: Option<(bool, i64)>)
    ensures
        r == if is_decimal(s@) {
            Some((negative(s@), capped(magnitude(s@)) as i64))
        } else {
            None::<(bool, i64)>
        },
{
    let n = s.unicode_len();
    let mut start: usize = 0;
    let mut neg = false;
    if n > 0 {
        let c = s.get_char(0);
        if c == '+' || c == '-' {
            start = 1;
            neg = c == '-';
        }
    }
    let ghost b = s@.skip(start as int);
    assert(start == sign_len(s@));
    assert(b == body(s@));
    assert(neg == negative(s@));
    let mut ep = start;
    while ep < n && !(s.get_char(ep) == 'e' || s.get_char(ep) == 'E')
        invariant
            start <= ep <= n,
            n == s@.len(),
            forall|j: int| start <= j < ep ==> !is_exp_mark(#[trigger] s@[j]),
        decreases n - ep,
    {
        ep = ep + 1;
    }
    proof {
        assert forall|j: int| 0 <= j < ep - start implies !is_exp_mark(#[trigger] b[j]) by {
            assert(b[j] == s@[start + j]);
        }
        if ep < n {
            assert(b[ep - start] == s@[ep as int]);
        }
        lemma_first_exp(b, (ep - start) as int);
    }
    let ghost m = mantissa(s@);
    assert(m =~= s@.subrange(start as int, ep as int));
    let mut dot = start;
    while dot < ep && s.get_char(dot) != '.'
        invariant
            start <= dot <= ep <= n,
            n == s@.len(),
            forall|j: int| start <= j < dot ==> s@[j] != '.',
        decreases ep - dot,
    {
        dot = dot + 1;
    }
    proof {
        assert forall|j: int| 0 <= j < dot - start implies #[trigger] m[j] != '.' by {
            assert(m[j] == s@[start + j]);
        }
        if dot < ep {
            assert(m[dot - start] == s@[dot as int]);
        }
        lemma_first_dot(m, (dot - start) as int);
    }
    let frac_from = if dot < ep {
        dot + 1
    } else {
        ep
    };
    let ghost ip = int_part(s@);
    let ghost fp = frac_part(s@);
    assert(ip =~= s@.subrange(start as int, dot as int));
    assert(fp =~= s@.subrange(frac_from as int, ep as int));
    let (int_ok, _, _) = read_digits(s, start, dot, 0);
    let (frac_ok, _, _) = read_digits(s, frac_from, ep, 0);
    let il = dot - start;
    let len = il + (ep - frac_from);
    if !int_ok || !frac_ok || len == 0 {
        return None;
    }
    // The exponent: exact when it is at most `cap` in size.
    let cap: u128 = len as u128 + 24;
    let mut exp_neg = false;
    let mut exp_big = false;
    let mut exp_val: u128 = 0;
    if ep < n {
        let ghost x = exponent_text(s@);
        assert(x =~= s@.subrange(ep + 1, n as int));
        let mut xd = ep + 1;
        if xd < n {
            let c = s.get_char(xd);
            if c == '+' || c == '-' {
                xd = xd + 1;
                exp_neg = c == '-';
            }
        }
        assert(xd == ep + 1 + sign_len(x));
        assert(x.skip(sign_len(x)) =~= s@.subrange(xd as int, n as int));
        if xd == n {
            return None;
        }
        let (x_ok, x_big, x_val) = read_digits(s, xd, n, cap);
        if !x_ok {
            return None;
        }
        exp_big = x_big;
        exp_val = x_val;
        assert(exp_neg == (sign_len(x) == 1 && x[0] == '-'));
        if exp_neg {
            assert(x.skip(1) =~= x.skip(sign_len(x)));
        }
        assert(has_exponent(s@));
        assert(exponent(s@) == exponent_value(x));
        assert(exponent_read(s@, exp_neg, exp_big, exp_val, cap));
    } else {
        assert(!has_exponent(s@));
    }
    assert(is_decimal(s@));
    decimal_value(s, start, dot, frac_from, ep, neg, exp_neg, exp_big, exp_val, cap)
}

/// What is known of the exponent of `s` after reading at most `cap` of it.
pub open spec fn exponent_read(s: Seq<char>, exp_neg: bool, exp_big: bool, exp_val: u128, cap: u128) -> bool {
    if exp_big {
        if exp_neg {
            exponent(s) < -(cap as int)
        } else {
            exponent(s) > cap
        }
    } else {
        exponent(s) == if exp_neg {
            -(exp_val as int)
        } else {
            exp_val as int
        }
    }
}

/// The length that the decimal `s` states, from where its parts lie and
/// what was read of its exponent.
#[verifier::spinoff_prover]
fn decimal_value(
    s: &str,
    start: usize,
    dot: usize,
    frac_from: usize,
    ep: usize,
    neg: bool,
    exp_neg: bool,
    exp_big: bool,
    exp_val: u128,
    cap: u128,
) -> (r: Option<(bool, i64)>)
    requires
        is_decimal(s@),
        start <= dot <= frac_from <= ep <= s@.len(),
        int_part(s@) == s@.subrange(start as int, dot as int),
        frac_part(s@) == s@.subrange(frac_from as int, ep as int),
        neg == negative(s@),
        cap == (dot - start) + (ep - frac_from) + 24,
        exponent_read(s@, exp_neg, exp_big, exp_val, cap),
        !exp_big ==> exp_val <= cap,
    ensures
        r == Some((neg, capped(magnitude(s@)) as i64)),
{
    let n = s.unicode_len();
    let il = dot - start;
    let len = il + (ep - frac_from);
    let ghost ip = int_part(s@);
    let ghost fp = frac_part(s@);
    let ghost d = mantissa_digits(s@);
    assert(d == s@.subrange(start as int, dot as int) + s@.subrange(frac_from as int, ep as int));
    assert(all_digits(d)) by {
        assert forall|i: int| 0 <= i < d.len() implies is_digit(#[trigger] d[i]) by {
            if i < ip.len() {
                assert(d[i] == ip[i]);
            } else {
                assert(d[i] == fp[i - ip.len()]);
            }
        }
    }
    // The first non-zero digit, if any.
    let mut z: usize = 0;
    while z < len && digit_at(s, start, dot, frac_from, ep, z) == '0'
        invariant
            z <= len,
            len == d.len(),
            start <= dot <= frac_from <= ep <= n,
            n == s@.len(),
            d == s@.subrange(start as int, dot as int) + s@.subrange(frac_from as int, ep as int),
            forall|j: int| 0 <= j < z ==> #[trigger] d[j] == '0',
        decreases len - z,
    {
        z = z + 1;
    }
    proof {
        lemma_digits_zero(d);
    }
    if z == len {
        assert(magnitude(s@) == 0);
        return Some((neg, 0));
    }
    assert(d[z as int] != '0');
    assert(digits_value(d) != 0);
    let ghost p = point(s@);
    let ghost w = whole_digits(d, p);
    assert(all_digits(w)) by {
        assert forall|i: int| 0 <= i < w.len() implies is_digit(#[trigger] w[i]) by {
            if i < d.len() {
                assert(is_digit(d[i]));
            }
        }
    }
    if exp_big && !exp_neg {
        // The point lies far beyond the first non-zero digit.
        proof {
            assert(exponent(s@) > cap);
            assert(w[z as int] == d[z as int]);
            lemma_digits_big(w, z as int);
            lemma_rounded_above(s@);
        }
        return Some((neg, TOO_LONG));
    }
    let pt: i128 = if exp_big {
        proof {
            assert(exponent(s@) < -(cap as int));
        }
        -1
    } else if exp_neg {
        il as i128 - exp_val as i128 + 3
    } else {
        il as i128 + exp_val as i128 + 3
    };
    assert(exp_big ==> p < 0);
    assert(!exp_big ==> pt == p);
    if pt > z as i128 + 11 {
        proof {
            assert(w[z as int] == d[z as int]);
            lemma_digits_big(w, z as int);
            lemma_rounded_above(s@);
        }
        return Some((neg, TOO_LONG));
    }
    let pn: u128 = if pt > 0 {
        pt as u128
    } else {
        0
    };
    assert(whole_digits(d, p) =~= whole_digits(d, pn as int));
    let (big, acc) = whole_value(s, start, dot, frac_from, ep, pn);
    let limit: u128 = 0x8000_0000;
    if big {
        proof {
            lemma_rounded_above(s@);
        }
        return Some((neg, TOO_LONG));
    }
    let up: u128 = if pt >= 0 && pt < len as i128 && digit_at(s, start, dot, frac_from, ep, pt as usize) >= '5' {
        1
    } else {
        0
    };
    assert(up == 1 <==> rounds_up(d, p));
    let mut mag = acc + up;
    if mag == 0 {
        mag = 1;
    }
    assert(mag == magnitude(s@));
    if mag > limit {
        return Some((neg, TOO_LONG));
    }
    Some((neg, mag as i64))
}


/// The whole number of thousandths: the value of the first `pn` mantissa
/// digits, zeros past the end, saturating above `MAX_LEN`.
fn whole_value(s: &str, start: usize, dot: usize, frac_from: usize, ep: usize, pn: u128) -> (r: (bool, u128))
    requires
        start <= dot <= frac_from <= ep <= s@.len(),
        pn <= (dot - start) + (ep - frac_from) + 11,
        all_digits(s@.subrange(start as int, dot as int) + s@.subrange(frac_from as int, ep as int)),
    ensures
        ({
            let w = whole_digits(s@.subrange(start as int, dot as int) + s@.subrange(frac_from as int, ep as int), pn as int);
            &&& r.0 == (digits_value(w) > MAX_LEN)
            &&& !r.0 ==> r.1 == digits_value(w)
        }),
{
    let ghost d = s@.subrange(start as int, dot as int) + s@.subrange(frac_from as int, ep as int);
    let ghost w = whole_digits(d, pn as int);
    let len = (dot - start) + (ep - frac_from);
    assert(all_digits(w)) by {
        assert forall|i: int| 0 <= i < w.len() implies is_digit(#[trigger] w[i]) by {
            if i < d.len() {
                assert(is_digit(d[i]));
            }
        }
    }
    let limit: u128 = 0x8000_0000;
    let mut acc: u128 = 0;
    let mut big = false;
    let mut i: u128 = 0;
    while i < pn
        invariant
            i <= pn,
            pn == w.len(),
            pn <= len + 11,
            len == d.len(),
            start <= dot <= frac_from <= ep <= s@.len(),
            d == s@.subrange(start as int, dot as int) + s@.subrange(frac_from as int, ep as int),
            w == whole_digits(d, pn as int),
            all_digits(w),
            limit == MAX_LEN,
            !big ==> acc == digits_value(w.take(i as int)) && acc <= limit,
            big ==> digits_value(w.take(i as int)) > limit,
        decreases pn - i,
    {
        let c = if i < len as u128 {
            digit_at(s, start, dot, frac_from, ep, i as usize)
        } else {
            '0'
        };
        assert(w[i as int] == c);
        assert(is_digit(w[i as int]));
        proof {
            lemma_digits_step(w, i as int);
            lemma_digits_prefix(w.take(i as int + 1), i as int);
            assert(w.take(i as int + 1).take(i as int) =~= w.take(i as int));
        }
        if !big {
            let v = acc * 10 + (c as u128 - '0' as u128);
            if v > limit {
                big = true;
            } else {
                acc = v;
            }
        }
        i = i + 1;
    }
    assert(w.take(pn as int) =~= w);
    (big, acc)
}

/// The length that `s` states, or the message asking for a valid value of
/// the field named `field_name`.
pub fn parse_positive_length(s: &str, field_name: &str) -> (r: Result<i64, String>)
    ensures
        match length_of(s@) {
            Some(v) => r == Ok::<i64, String>(v),
            None => r matches Err(msg) && msg@ == "请输入有效"@ + field_name@,
        },
{
    match parse_length(s) {
        Some(v) => Ok(v),
        None => Err(String::from_str("请输入有效").concat(field_name)),
    }
}

/// The kerf that `s` states, at most `MAX_LEN`, or no kerf at all when `s`
/// states no length of zero or more. A kerf of `MAX_LEN` already keeps
/// every second piece off any board, so a longer one packs alike.
pub fn parse_kerf(s: &str) -> (k: i64)
    ensures
        k == match nonneg_length_of(s@) {
            Some(v) => if v > MAX_LEN {
                MAX_LEN
            } else {
                v
            },
            None => 0,
        },
        0 <= k <= MAX_LEN,
{
    match parse_nonneg_length(s) {
        Some(v) => if v > MAX_LEN {
            MAX_LEN
        } else {
            v
        },
        None => 0,
    }
}

/// `first_dot` finds the first `.`.
proof fn lemma_first_dot(b: Seq<char>, d: int)
    requires
        0 <= d <= b.len(),
        forall|j: int| 0 <= j < d ==> b[j] != '.',
        d < b.len() ==> b[d] == '.',
    ensures
        first_dot(b) == d,
    decreases d,
{
    if d > 0 {
        lemma_first_dot(b.drop_first(), d - 1);
    }
}

/// `first_exp` finds the first exponent mark.
proof fn lemma_first_exp(b: Seq<char>, d: int)
    requires
        0 <= d <= b.len(),
        forall|j: int| 0 <= j < d ==> !is_exp_mark(#[trigger] b[j]),
        d < b.len() ==> is_exp_mark(b[d]),
    ensures
        first_exp(b) == d,
    decreases d,
{
    if d > 0 {
        let c = b.drop_first();
        assert forall|j: int| 0 <= j < d - 1 implies !is_exp_mark(#[trigger] c[j]) by {
            assert(c[j] == b[j + 1]);
        }
        if d < b.len() {
            assert(c[d - 1] == b[d]);
        }
        lemma_first_exp(c, d - 1);
    }
}

} // verus!
