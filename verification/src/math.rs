//! The number model: powers of ten, the value of a decimal digit string,
//! and the saturating decimal shift that maps a scaled mantissa to a total
//! nanosecond count.

use vstd::arithmetic::div_mod::{
    lemma_div_by_multiple, lemma_div_denominator, lemma_hoist_over_denominator,
};
use vstd::arithmetic::mul::lemma_mul_inequality;
use vstd::prelude::*;

verus! {

/// `10^n`.
pub open spec fn pow10(n: nat) -> int
    decreases n,
{
    if n == 0 {
        1
    } else {
        10 * pow10((n - 1) as nat)
    }
}

pub proof fn lemma_pow10_pos(n: nat)
    ensures
        pow10(n) >= 1,
    decreases n,
{
    if n > 0 {
        lemma_pow10_pos((n - 1) as nat);
    }
}

pub proof fn lemma_pow10_adds(a: nat, b: nat)
    ensures
        pow10(a + b) == pow10(a) * pow10(b),
    decreases a,
{
    if a == 0 {
        assert(pow10(b) == 1 * pow10(b));
    } else {
        lemma_pow10_adds((a - 1) as nat, b);
        assert(pow10((a - 1) as nat + b + 1) == 10 * pow10((a - 1) as nat + b));
        assert(10 * (pow10((a - 1) as nat) * pow10(b)) == (10 * pow10((a - 1) as nat)) * pow10(
            b,
        )) by (nonlinear_arith);
    }
}

pub proof fn lemma_pow10_increases(a: nat, b: nat)
    requires
        a <= b,
    ensures
        pow10(a) <= pow10(b),
{
    lemma_pow10_adds(a, (b - a) as nat);
    lemma_pow10_pos(a);
    lemma_pow10_pos((b - a) as nat);
    lemma_mul_inequality(1, pow10((b - a) as nat), pow10(a));
}

/// Whether a byte is an ASCII decimal digit.
pub open spec fn is_digit(b: u8) -> bool {
    48 <= b <= 57
}

/// The numeric value of a digit byte.
pub open spec fn digit_val(b: u8) -> int {
    b - 48
}

/// Whether every byte of a sequence is an ASCII decimal digit.
pub open spec fn all_digits(s: Seq<u8>) -> bool {
    forall|i: int| 0 <= i < s.len() ==> is_digit(#[trigger] s[i])
}

/// The integer denoted by a sequence of decimal digit bytes, read most
/// significant first; the empty sequence denotes zero.
pub open spec fn digits_val(s: Seq<u8>) -> int
    decreases s.len(),
{
    if s.len() == 0 {
        0
    } else {
        10 * digits_val(s.drop_last()) + digit_val(s.last())
    }
}

pub proof fn lemma_digits_val_bounds(s: Seq<u8>)
    requires
        all_digits(s),
    ensures
        0 <= digits_val(s) < pow10(s.len()),
    decreases s.len(),
{
    if s.len() > 0 {
        lemma_digits_val_bounds(s.drop_last());
        assert(is_digit(s.last()));
        assert(digits_val(s.drop_last()) <= pow10((s.len() - 1) as nat) - 1);
        lemma_mul_inequality(digits_val(s.drop_last()), pow10((s.len() - 1) as nat) - 1, 10);
    }
}

pub proof fn lemma_digits_val_append(s: Seq<u8>, t: Seq<u8>)
    ensures
        digits_val(s + t) == digits_val(s) * pow10(t.len()) + digits_val(t),
    decreases t.len(),
{
    if t.len() == 0 {
        assert(s + t =~= s);
    } else {
        lemma_digits_val_append(s, t.drop_last());
        assert((s + t).drop_last() =~= s + t.drop_last());
        assert((s + t).last() == t.last());
        assert(digits_val(s + t) == 10 * (digits_val(s) * pow10((t.len() - 1) as nat) + digits_val(
            t.drop_last(),
        )) + digit_val(t.last()));
        assert(10 * (digits_val(s) * pow10((t.len() - 1) as nat)) == digits_val(s) * (10 * pow10(
            (t.len() - 1) as nat,
        ))) by (nonlinear_arith);
    }
}

/// Leading zero digits do not change the denoted value.
pub proof fn lemma_digits_val_skip_zeros(s: Seq<u8>, z: int)
    requires
        0 <= z <= s.len(),
        forall|i: int| 0 <= i < z ==> #[trigger] s[i] == 48,
    ensures
        digits_val(s) == digits_val(s.skip(z)),
{
    lemma_digits_val_zero_run(s.take(z));
    assert(s =~= s.take(z) + s.skip(z));
    lemma_digits_val_append(s.take(z), s.skip(z));
}

pub proof fn lemma_digits_val_zero_run(s: Seq<u8>)
    requires
        forall|i: int| 0 <= i < s.len() ==> #[trigger] s[i] == 48,
    ensures
        digits_val(s) == 0,
    decreases s.len(),
{
    if s.len() > 0 {
        lemma_digits_val_zero_run(s.drop_last());
    }
}

/// A digit run with a nonzero leading digit denotes at least `10^(len - 1)`.
pub proof fn lemma_digits_val_lower_bound(s: Seq<u8>)
    requires
        all_digits(s),
        s.len() > 0,
        s[0] != 48,
    ensures
        digits_val(s) >= pow10((s.len() - 1) as nat),
{
    assert(s =~= seq![s[0]] + s.skip(1));
    lemma_digits_val_append(seq![s[0]], s.skip(1));
    lemma_digits_val_bounds(s.skip(1));
    assert(seq![s[0]].drop_last() =~= Seq::<u8>::empty());
    assert(digits_val(Seq::<u8>::empty()) == 0);
    assert(digits_val(seq![s[0]]) == digit_val(s[0])) by {
        reveal_with_fuel(digits_val, 2);
    }
    assert(digit_val(s[0]) >= 1);
    lemma_mul_inequality(1, digit_val(s[0]), pow10((s.len() - 1) as nat));
    lemma_pow10_pos((s.len() - 1) as nat);
}

/// The powers of ten the engine compares against: the coefficient bound
/// `10^8`, and the edges of the 29-digit window that bounds every
/// representable nanosecond total.
pub proof fn lemma_pow10_values()
    ensures
        pow10(8) == 100000000,
        pow10(28) == 10000000000000000000000000000,
        pow10(29) == 100000000000000000000000000000,
{
    reveal_with_fuel(pow10, 30);
}

/// Reading a digit sequence from the left: the first digit carries
/// `10^(len - 1)`.
pub proof fn lemma_digits_val_cons(s: Seq<u8>)
    requires
        s.len() >= 1,
    ensures
        digits_val(s) == digit_val(s[0]) * pow10((s.len() - 1) as nat) + digits_val(s.skip(1)),
{
    assert(s =~= seq![s[0]] + s.skip(1));
    lemma_digits_val_append(seq![s[0]], s.skip(1));
    assert(seq![s[0]].drop_last() =~= Seq::<u8>::empty());
    assert(digits_val(Seq::<u8>::empty()) == 0);
    assert(digits_val(seq![s[0]]) == digit_val(s[0])) by {
        reveal_with_fuel(digits_val, 2);
    }
}

/// `(a * d + b) / d == a + b / d`.
pub proof fn lemma_div_plus_mul(a: int, b: int, d: int)
    requires
        d > 0,
    ensures
        (a * d + b) / d == a + b / d,
{
    lemma_hoist_over_denominator(b, a, d as nat);
}

/// One step of folding a scaled digit block from the right: prefixing a
/// digit to a `t`-digit block and dropping `t + 1` places equals carrying
/// the digit into the previous remainder and dropping one place.
pub proof fn lemma_rtl_step(c: int, d: int, t: nat, val_t: int)
    requires
        c >= 1,
        0 <= d <= 9,
        0 <= val_t,
    ensures
        (c * (d * pow10(t) + val_t)) / pow10(t + 1) == (c * d + (c * val_t) / pow10(t)) / 10,
{
    lemma_pow10_pos(t);
    let p = pow10(t);
    assert(c * (d * p + val_t) == (c * d) * p + c * val_t) by (nonlinear_arith);
    assert(pow10(t + 1) == 10 * p);
    assert(c * val_t >= 0) by (nonlinear_arith)
        requires
            c >= 1 && val_t >= 0,
    ;
    lemma_div_denominator((c * d) * p + c * val_t, p, 10);
    assert((c * d) * p + c * val_t >= 0);
    lemma_div_plus_mul(c * d, c * val_t, p);
    assert(p * 10 == 10 * p);
}

/// Splitting a scaled digit string into the digits above and below the
/// dropped window: when the low block spans exactly the `j` dropped places
/// (or the high block is empty), the quotient splits into the scaled high
/// value plus the scaled low block's quotient.
pub proof fn lemma_high_low_split(s: Seq<u8>, c: int, hc: int, j: int)
    requires
        all_digits(s),
        c >= 1,
        0 <= hc <= s.len(),
        j >= 1,
        hc == 0 || s.len() - hc == j,
    ensures
        (digits_val(s) * c) / pow10(j as nat) == digits_val(s.subrange(0, hc)) * c + (digits_val(
            s.subrange(hc, s.len() as int),
        ) * c) / pow10(j as nat),
{
    let h = s.subrange(0, hc);
    let low = s.subrange(hc, s.len() as int);
    if hc == 0 {
        assert(h =~= Seq::<u8>::empty());
        assert(low =~= s);
        assert(digits_val(h) == 0);
    } else {
        assert(s =~= h + low);
        lemma_digits_val_append(h, low);
        assert(low.len() == j);
        let p = pow10(j as nat);
        lemma_pow10_pos(j as nat);
        assert(forall|i: int| 0 <= i < low.len() ==> is_digit(#[trigger] low[i]));
        assert(forall|i: int| 0 <= i < h.len() ==> is_digit(#[trigger] h[i]));
        lemma_digits_val_bounds(low);
        lemma_digits_val_bounds(h);
        assert((digits_val(h) * p + digits_val(low)) * c == (digits_val(h) * c) * p + digits_val(
            low,
        ) * c) by (nonlinear_arith);
        lemma_div_plus_mul(digits_val(h) * c, digits_val(low) * c, p);
        assert(digits_val(low) * c >= 0) by (nonlinear_arith)
            requires
                digits_val(low) >= 0 && c >= 1,
        ;
    }
}

/// Overflow saturation in its general form: when the mantissa reaches
/// `10^e` and the power of ten pushes it past the 29-digit window, the
/// result saturates to the maximum.
pub proof fn lemma_sat_nanos_overflow(m: int, k: int, e: nat)
    requires
        k >= 0,
        m >= pow10(e),
        e + k >= 29,
    ensures
        sat_nanos(m, k) == MAX_NANOS as int,
{
    lemma_pow10_pos(k as nat);
    lemma_pow10_pos(e);
    lemma_mul_inequality(pow10(e), m, pow10(k as nat));
    lemma_pow10_adds(e, k as nat);
    lemma_pow10_increases(29nat, e + k as nat);
    lemma_pow10_values();
}

/// `floor(m * 10^k)` for a non-negative integer `m` and a signed power `k`.
pub open spec fn shifted(m: int, k: int) -> int {
    if k >= 0 {
        m * pow10(k as nat)
    } else {
        m / pow10((-k) as nat)
    }
}

/// The largest total-nanosecond count a `Duration` can hold:
/// `u64::MAX` whole seconds plus 999 999 999 nanoseconds.
pub const MAX_NANOS: u128 = 18446744073709551615 * 1000000000 + 999999999;

/// Total nanoseconds denoted by a scaled mantissa `m` at power `k`, saturated
/// to the representable range.
pub open spec fn sat_nanos(m: int, k: int) -> int {
    if shifted(m, k) > MAX_NANOS as int {
        MAX_NANOS as int
    } else {
        shifted(m, k)
    }
}

/// A zero mantissa denotes zero nanoseconds at every power.
pub proof fn lemma_sat_nanos_zero(k: int)
    ensures
        sat_nanos(0, k) == 0,
{
    if k >= 0 {
        lemma_pow10_pos(k as nat);
    } else {
        lemma_pow10_pos((-k) as nat);
        lemma_div_by_multiple(0, pow10((-k) as nat));
    }
}

/// Underflow saturation: when the power of ten is so far negative that even
/// the whole mantissa lands below one nanosecond, the result is exactly zero.
pub proof fn lemma_sat_nanos_far_negative(m: int, len: int, k: int)
    requires
        0 <= m < pow10(len as nat),
        len >= 0,
        k <= -len,
    ensures
        sat_nanos(m, k) == 0,
{
    if k == 0 {
        assert(len == 0 && m == 0);
        assert(shifted(m, k) == 0);
    } else {
        lemma_pow10_increases(len as nat, (-k) as nat);
        lemma_pow10_pos((-k) as nat);
        assert(m / pow10((-k) as nat) == 0) by {
            vstd::arithmetic::div_mod::lemma_basic_div(m, pow10((-k) as nat));
        }
    }
}

/// Overflow saturation: when the mantissa is nonzero and the power of ten is
/// at least 29, the result exceeds every representable duration and is
/// saturated to the maximum.
pub proof fn lemma_sat_nanos_far_positive(m: int, k: int)
    requires
        m >= 1,
        k >= 29,
    ensures
        sat_nanos(m, k) == MAX_NANOS as int,
{
    lemma_pow10_increases(29nat, k as nat);
    lemma_pow10_pos(k as nat);
    lemma_mul_inequality(1, m, pow10(k as nat));
    assert(pow10(29nat) == 100000000000000000000000000000) by {
        reveal_with_fuel(pow10, 30);
    }
    assert(shifted(m, k) >= pow10(29nat));
}

/// Two powers that both lie beyond the same side of the representable window
/// give the same saturated result: the exact exponent value stops mattering
/// once it is far enough from zero.
pub proof fn lemma_sat_nanos_insensitive(m: int, len: int, k1: int, k2: int)
    requires
        0 <= m < pow10(len as nat),
        len >= 0,
        (k1 <= -len && k2 <= -len) || (m >= 1 && k1 >= 29 && k2 >= 29) || (m == 0),
    ensures
        sat_nanos(m, k1) == sat_nanos(m, k2),
{
    if m == 0 {
        lemma_sat_nanos_zero(k1);
        lemma_sat_nanos_zero(k2);
    } else if k1 <= -len && k2 <= -len {
        lemma_sat_nanos_far_negative(m, len, k1);
        lemma_sat_nanos_far_negative(m, len, k2);
    } else {
        lemma_sat_nanos_far_positive(m, k1);
        lemma_sat_nanos_far_positive(m, k2);
    }
}

} // verus!
