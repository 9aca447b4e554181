//! The duration materializer: turns located mantissa digits, a unit
//! coefficient and an effective power of ten into a saturated nanosecond
//! total, reading only a bounded window of digits numerically.

use crate::math::{
    all_digits, digit_val, digits_val, is_digit, lemma_digits_val_bounds, lemma_digits_val_cons,
    lemma_digits_val_lower_bound, lemma_digits_val_skip_zeros, lemma_digits_val_zero_run,
    lemma_high_low_split, lemma_pow10_adds, lemma_pow10_increases, lemma_pow10_pos,
    lemma_pow10_values, lemma_rtl_step, lemma_sat_nanos_far_negative, lemma_sat_nanos_overflow,
    lemma_sat_nanos_zero, pow10, sat_nanos, shifted, MAX_NANOS,
};
use vstd::arithmetic::div_mod::{lemma_div_denominator, lemma_div_pos_is_pos};
use vstd::prelude::*;

verus! {

/// Whether the integer and fractional digit spans are well formed: in
/// bounds, in order, and holding only decimal digits.
pub open spec fn spans_wf(s: Seq<u8>, is0: int, ie: int, fs0: int, fe: int) -> bool {
    &&& 0 <= is0 <= ie <= fs0 <= fe <= s.len()
    &&& forall|i: int| is0 <= i < ie ==> is_digit(#[trigger] s[i])
    &&& forall|i: int| fs0 <= i < fe ==> is_digit(#[trigger] s[i])
}

/// The significant-digit string of a literal: its integer digits followed by
/// its fractional digits.
pub open spec fn mantissa(s: Seq<u8>, is0: int, ie: int, fs0: int, fe: int) -> Seq<u8> {
    s.subrange(is0, ie) + s.subrange(fs0, fe)
}

pub proof fn lemma_mantissa_digits(s: Seq<u8>, is0: int, ie: int, fs0: int, fe: int)
    requires
        spans_wf(s, is0, ie, fs0, fe),
    ensures
        all_digits(mantissa(s, is0, ie, fs0, fe)),
        mantissa(s, is0, ie, fs0, fe).len() == (ie - is0) + (fe - fs0),
{
    let m = mantissa(s, is0, ie, fs0, fe);
    assert forall|i: int| 0 <= i < m.len() implies is_digit(#[trigger] m[i]) by {
        if i < ie - is0 {
            assert(m[i] == s[is0 + i]);
        } else {
            assert(m[i] == s[fs0 + (i - (ie - is0))]);
        }
    }
}

/// The digit of the mantissa at logical position `q`.
fn digit_at(b: &[u8], is0: usize, ie: usize, fs0: usize, fe: usize, q: usize) -> (d: u8)
    requires
        spans_wf(b@, is0 as int, ie as int, fs0 as int, fe as int),
        q < (ie - is0) + (fe - fs0),
    ensures
        d == mantissa(b@, is0 as int, ie as int, fs0 as int, fe as int)[q as int],
        is_digit(d),
{
    if q < ie - is0 {
        b[is0 + q]
    } else {
        b[fs0 + (q - (ie - is0))]
    }
}

/// Count the zero digits leading the mantissa.
fn leading_zero_count(b: &[u8], is0: usize, ie: usize, fs0: usize, fe: usize) -> (z: usize)
    requires
        spans_wf(b@, is0 as int, ie as int, fs0 as int, fe as int),
    ensures
        z <= (ie - is0) + (fe - fs0),
        forall|i: int|
            0 <= i < z ==> #[trigger] mantissa(b@, is0 as int, ie as int, fs0 as int, fe as int)[i]
                == 48,
        z < (ie - is0) + (fe - fs0) ==> mantissa(
            b@,
            is0 as int,
            ie as int,
            fs0 as int,
            fe as int,
        )[z as int] != 48,
{
    let ll = (ie - is0) + (fe - fs0);
    let mut z: usize = 0;
    while z < ll && digit_at(b, is0, ie, fs0, fe, z) == 48
        invariant
            spans_wf(b@, is0 as int, ie as int, fs0 as int, fe as int),
            ll == (ie - is0) + (fe - fs0),
            z <= ll,
            forall|i: int|
                0 <= i < z ==> #[trigger] mantissa(
                    b@,
                    is0 as int,
                    ie as int,
                    fs0 as int,
                    fe as int,
                )[i] == 48,
        decreases ll - z,
    {
        z = z + 1;
    }
    z
}

/// Read the mantissa digits of logical positions `[from, to)` into an exact
/// integer; the window is at most 29 digits wide, so the value fits.
fn accumulate_window(b: &[u8], is0: usize, ie: usize, fs0: usize, fe: usize, from: usize, to: usize) -> (v:
    u128)
    requires
        spans_wf(b@, is0 as int, ie as int, fs0 as int, fe as int),
        from <= to <= (ie - is0) + (fe - fs0),
        to - from <= 29,
    ensures
        v as int == digits_val(
            mantissa(b@, is0 as int, ie as int, fs0 as int, fe as int).subrange(
                from as int,
                to as int,
            ),
        ),
        (v as int) < pow10((to - from) as nat),
{
    let ghost s = mantissa(b@, is0 as int, ie as int, fs0 as int, fe as int);
    proof {
        lemma_mantissa_digits(b@, is0 as int, ie as int, fs0 as int, fe as int);
        assert(s.subrange(from as int, from as int) =~= Seq::<u8>::empty());
        lemma_pow10_values();
    }
    let mut v: u128 = 0;
    let mut q = from;
    while q < to
        invariant
            spans_wf(b@, is0 as int, ie as int, fs0 as int, fe as int),
            s == mantissa(b@, is0 as int, ie as int, fs0 as int, fe as int),
            all_digits(s),
            from <= q <= to <= s.len(),
            to - from <= 29,
            v as int == digits_val(s.subrange(from as int, q as int)),
            (v as int) < pow10((q - from) as nat),
            pow10(29) == 100000000000000000000000000000,
        decreases to - q,
    {
        let d = digit_at(b, is0, ie, fs0, fe, q);
        proof {
            assert(s.subrange(from as int, q as int + 1).drop_last() =~= s.subrange(
                from as int,
                q as int,
            ));
            assert(digits_val(s.subrange(from as int, q as int + 1)) == 10 * digits_val(
                s.subrange(from as int, q as int),
            ) + digit_val(s[q as int]));
            lemma_pow10_increases((q - from + 1) as nat, 29nat);
            assert(pow10((q - from + 1) as nat) == 10 * pow10((q - from) as nat));
        }
        v = v * 10 + (d - 48) as u128;
        q = q + 1;
    }
    proof {
        lemma_pow10_increases((to - from) as nat, 29nat);
    }
    v
}

/// `10^e` for a window-sized exponent.
fn pow10_u128(e: usize) -> (p: u128)
    requires
        e <= 29,
    ensures
        p as int == pow10(e as nat),
{
    proof {
        lemma_pow10_values();
    }
    let mut p: u128 = 1;
    let mut i: usize = 0;
    while i < e
        invariant
            i <= e <= 29,
            p as int == pow10(i as nat),
            pow10(29) == 100000000000000000000000000000,
        decreases e - i,
    {
        proof {
            lemma_pow10_increases((i + 1) as nat, 29nat);
            assert(pow10((i + 1) as nat) == 10 * pow10(i as nat));
        }
        p = p * 10;
        i = i + 1;
    }
    p
}

/// Fold the scaled low digit block out of the result, from the right: the
/// returned carry is exactly the quotient of the scaled block by ten to the
/// number of its digits. The remainder never exceeds the coefficient, so the
/// whole pass runs on machine words.
fn rtl_low_carry(b: &[u8], is0: usize, ie: usize, fs0: usize, fe: usize, lo: usize, c: u64) -> (r:
    u64)
    requires
        spans_wf(b@, is0 as int, ie as int, fs0 as int, fe as int),
        lo <= (ie - is0) + (fe - fs0),
        1 <= c <= 31557600,
    ensures
        ({
            let s = mantissa(b@, is0 as int, ie as int, fs0 as int, fe as int);
            let low = s.subrange(lo as int, s.len() as int);
            &&& r as int == (c * digits_val(low)) / pow10(low.len())
            &&& r < c
        }),
{
    let ghost s = mantissa(b@, is0 as int, ie as int, fs0 as int, fe as int);
    let ll = (ie - is0) + (fe - fs0);
    proof {
        lemma_mantissa_digits(b@, is0 as int, ie as int, fs0 as int, fe as int);
        assert(s.subrange(ll as int, ll as int) =~= Seq::<u8>::empty());
    }
    let mut r: u64 = 0;
    let mut i = ll;
    while i > lo
        invariant
            spans_wf(b@, is0 as int, ie as int, fs0 as int, fe as int),
            s == mantissa(b@, is0 as int, ie as int, fs0 as int, fe as int),
            all_digits(s),
            lo <= i <= ll,
            ll == s.len(),
            1 <= c <= 31557600,
            r as int == (c * digits_val(s.subrange(i as int, ll as int))) / pow10((ll - i) as nat),
            r < c,
        decreases i - lo,
    {
        let d = digit_at(b, is0, ie, fs0, fe, i - 1);
        let ghost t = (ll - i) as nat;
        let ghost tail = s.subrange(i as int, ll as int);
        let ghost tail1 = s.subrange(i as int - 1, ll as int);
        proof {
            lemma_digits_val_bounds(tail);
            lemma_digits_val_cons(tail1);
            assert(tail1.skip(1) =~= tail);
            assert(tail1[0] == s[i as int - 1]);
            lemma_rtl_step(c as int, digit_val(s[i as int - 1]), t, digits_val(tail));
            // the new remainder stays below the coefficient
            lemma_pow10_pos((t + 1) as nat);
            lemma_digits_val_bounds(tail1);
            assert(c * digits_val(tail1) >= 0 && c * digits_val(tail1) < pow10(t + 1) * c)
                by (nonlinear_arith)
                requires
                    0 <= digits_val(tail1) && digits_val(tail1) < pow10(t + 1) && c >= 1,
            ;
            vstd::arithmetic::div_mod::lemma_multiply_divide_lt(
                c * digits_val(tail1),
                pow10(t + 1),
                c as int,
            );
            lemma_div_pos_is_pos(c * digits_val(tail1), pow10(t + 1));
        }
        r = (c * ((d - 48) as u64) + r) / 10;
        i = i - 1;
    }
    r
}

/// Produce the saturated total-nanosecond count of a scanned literal: the
/// mantissa digits located by the spans, scaled by the unit coefficient and
/// shifted by `k` decimal places, truncated toward zero below one nanosecond
/// and saturated to the representable range.
///
/// Only a constant-width window of digits around the computed decimal point
/// is ever read numerically; all other digits contribute through their
/// position or through a single carry pass, which keeps the whole
/// computation on machine words, in time linear in the input and free of
/// allocation.
#[verifier::rlimit(30)]
pub fn materialize_nanos(
    b: &[u8],
    int_start: usize,
    int_end: usize,
    frac_start: usize,
    frac_end: usize,
    coefficient: u64,
    k: i128,
) -> (n: u128)
    requires
        spans_wf(b@, int_start as int, int_end as int, frac_start as int, frac_end as int),
        1 <= coefficient <= 31557600,
        -1000000000000000000000000000000000 <= k <= 1000000000000000000000000000000000,
    ensures
        n as int == sat_nanos(
            digits_val(
                mantissa(b@, int_start as int, int_end as int, frac_start as int, frac_end as int),
            ) * coefficient,
            k as int,
        ),
        n <= MAX_NANOS,
{
    let ghost s = mantissa(
        b@,
        int_start as int,
        int_end as int,
        frac_start as int,
        frac_end as int,
    );
    let ghost m = digits_val(s) * coefficient;
    proof {
        lemma_mantissa_digits(
            b@,
            int_start as int,
            int_end as int,
            frac_start as int,
            frac_end as int,
        );
        lemma_digits_val_bounds(s);
        lemma_pow10_values();
    }
    let ll = (int_end - int_start) + (frac_end - frac_start);
    let z = leading_zero_count(b, int_start, int_end, frac_start, frac_end);

    if z == ll {
        // every digit is zero: the value is exactly zero at any power
        proof {
            assert(s.skip(z as int) =~= Seq::<u8>::empty());
            lemma_digits_val_skip_zeros(s, z as int);
            assert(digits_val(s) == 0);
            assert(m == 0) by (nonlinear_arith)
                requires
                    m == digits_val(s) * coefficient && digits_val(s) == 0,
            ;
            lemma_sat_nanos_zero(k as int);
        }
        return 0;
    }
    let sig = ll - z;
    proof {
        lemma_digits_val_skip_zeros(s, z as int);
        assert(s.skip(z as int).len() == sig);
        lemma_digits_val_bounds(s.skip(z as int));
        lemma_digits_val_lower_bound(s.skip(z as int));
        // digits_val(s) is bounded by the significant width on both sides
        assert(pow10((sig - 1) as nat) <= digits_val(s) < pow10(sig as nat));
        assert(digits_val(s) <= m && m < pow10(sig as nat) * coefficient) by (nonlinear_arith)
            requires
                m == digits_val(s) * coefficient && 1 <= coefficient && 0 <= digits_val(s)
                    < pow10(sig as nat),
        ;
    }
    if k >= 0 {
        // shifting left: either the window overflows or the value is exact
        if k >= 29 || sig as u128 + k as u128 >= 30 {
            proof {
                if k >= 29 {
                    lemma_sat_nanos_overflow(m, k as int, 0);
                } else {
                    lemma_sat_nanos_overflow(m, k as int, (sig - 1) as nat);
                }
            }
            return MAX_NANOS;
        }
        let ku = k as usize;
        let v = accumulate_window(b, int_start, int_end, frac_start, frac_end, z, ll);
        proof {
            assert(s.subrange(z as int, ll as int) =~= s.skip(z as int));
        }
        let p = pow10_u128(ku);
        proof {
            lemma_pow10_adds(sig as nat, ku as nat);
            lemma_pow10_increases((sig + ku) as nat, 29nat);
            lemma_pow10_pos(ku as nat);
            assert((v as int) * (p as int) < pow10((sig + ku) as nat)) by (nonlinear_arith)
                requires
                    0 <= v as int && (v as int) < pow10(sig as nat) && p as int == pow10(ku as nat) && 0 < p
                        as int && pow10((sig + ku) as nat) == pow10(sig as nat) * pow10(ku as nat),
            ;
        }
        let shifted_value = v * p;
        proof {
            assert(shifted_value as int * coefficient as int == m * pow10(ku as nat))
                by (nonlinear_arith)
                requires
                    shifted_value as int == v as int * p as int && v as int == digits_val(s) && p
                        as int == pow10(ku as nat) && m == digits_val(s) * coefficient,
            ;
            assert((shifted_value as int) * (coefficient as int) < pow10(29) * 31557600)
                by (nonlinear_arith)
                requires
                    0 <= shifted_value as int && (shifted_value as int) < pow10(29) && 1 <= coefficient <= 31557600,
            ;
        }
        let total = shifted_value * coefficient as u128;
        let n = if total > MAX_NANOS {
            MAX_NANOS
        } else {
            total
        };
        proof {
            assert(shifted(m, k as int) == m * pow10(ku as nat));
        }
        n
    } else {
        // shifting right by j places
        let j: i128 = -k;
        if j >= sig as i128 + 8 {
            // even the whole mantissa lands below one nanosecond
            proof {
                assert(m < pow10(sig as nat) * pow10(8)) by (nonlinear_arith)
                    requires
                        m < pow10(sig as nat) * coefficient && coefficient <= 31557600 && pow10(8)
                            == 100000000 && pow10(sig as nat) > 0,
                ;
                lemma_pow10_adds(sig as nat, 8nat);
                assert(m >= 0) by (nonlinear_arith)
                    requires
                        m == digits_val(s) * coefficient && digits_val(s) >= 0 && coefficient >= 1,
                ;
                lemma_sat_nanos_far_negative(m, sig as int + 8, k as int);
            }
            return 0;
        }
        let hcount: usize = if j < ll as i128 {
            ll - (j as usize)
        } else {
            0
        };
        let ghost low = s.subrange(hcount as int, ll as int);
        let ghost high = s.subrange(0, hcount as int);
        proof {
            assert forall|i: int| 0 <= i < low.len() implies is_digit(#[trigger] low[i]) by {
                assert(low[i] == s[hcount + i]);
            }
            assert forall|i: int| 0 <= i < high.len() implies is_digit(#[trigger] high[i]) by {
                assert(high[i] == s[i]);
            }
            lemma_high_low_split(s, coefficient as int, hcount as int, j as int);
            lemma_digits_val_bounds(low);
            lemma_pow10_pos(j as nat);
            assert(coefficient as int * digits_val(low) >= 0) by (nonlinear_arith)
                requires
                    digits_val(low) >= 0 && coefficient >= 1,
            ;
            lemma_div_pos_is_pos(coefficient as int * digits_val(low), pow10(j as nat));
            assert(j as int == -(k as int));
            assert(shifted(m, k as int) == (digits_val(s) * coefficient as int) / pow10(j as nat));
        }
        let mut vh: u128 = 0;
        if hcount > z {
            let sig_h = hcount - z;
            proof {
                assert(high.skip(z as int) =~= s.subrange(z as int, hcount as int));
                lemma_digits_val_skip_zeros(high, z as int);
                lemma_digits_val_lower_bound(high.skip(z as int));
                lemma_digits_val_bounds(high.skip(z as int));
            }
            if sig_h >= 30 {
                // the seconds window alone already overflows
                proof {
                    lemma_pow10_increases(29nat, (sig_h - 1) as nat);
                    assert(digits_val(high) * coefficient as int >= digits_val(high))
                        by (nonlinear_arith)
                        requires
                            digits_val(high) >= 0 && coefficient >= 1,
                    ;
                    assert(shifted(m, k as int) > MAX_NANOS as int);
                }
                return MAX_NANOS;
            }
            vh = accumulate_window(b, int_start, int_end, frac_start, frac_end, z, hcount);
            proof {
                assert(s.subrange(z as int, hcount as int) =~= high.skip(z as int));
                lemma_pow10_increases(sig_h as nat, 29nat);
            }
        } else {
            proof {
                assert(forall|i: int| 0 <= i < hcount ==> #[trigger] high[i] == 48);
                lemma_digits_val_zero_run(high);
            }
        }
        // vh == digits_val(high) in both branches
        let r = rtl_low_carry(b, int_start, int_end, frac_start, frac_end, hcount, coefficient);
        let mut rr = r;
        let total_extra: usize = if hcount == 0 && j > ll as i128 {
            (j - ll as i128) as usize
        } else {
            0
        };
        proof {
            assert(low.len() == ll - hcount);
            assert(total_extra as int + (ll - hcount) == j as int);
        }
        let mut step: usize = 0;
        while step < total_extra
            invariant
                step <= total_extra,
                hcount <= ll,
                total_extra as int + (ll - hcount) == j as int,
                0 <= digits_val(low),
                1 <= coefficient <= 31557600,
                rr as int == (coefficient as int * digits_val(low)) / pow10(
                    ((ll - hcount) + step) as nat,
                ),
                rr < coefficient,
            decreases total_extra - step,
        {
            proof {
                let a = ((ll - hcount) + step) as nat;
                lemma_pow10_pos(a);
                assert(coefficient as int * digits_val(low) >= 0) by (nonlinear_arith)
                    requires
                        digits_val(low) >= 0 && coefficient >= 1,
                ;
                lemma_div_denominator(coefficient as int * digits_val(low), pow10(a), 10);
                assert(pow10(a + 1) == 10 * pow10(a));
                vstd::arithmetic::div_mod::lemma_div_nonincreasing(rr as int, 10);
            }
            rr = rr / 10;
            step = step + 1;
        }
        proof {
            assert(rr as int == (coefficient as int * digits_val(low)) / pow10(j as nat));
            assert(vh as int == digits_val(high));
            assert((vh as int) < pow10(29));
            assert(coefficient as int * vh as int <= 31557600 * (pow10(29) - 1))
                by (nonlinear_arith)
                requires
                    0 <= vh as int <= pow10(29) - 1 && 1 <= coefficient <= 31557600,
            ;
        }
        let total = coefficient as u128 * vh + rr as u128;
        proof {
            assert(digits_val(high) * coefficient as int == coefficient as int * vh as int)
                by (nonlinear_arith)
                requires
                    vh as int == digits_val(high),
            ;
            assert(digits_val(low) * coefficient as int == coefficient as int * digits_val(low))
                by (nonlinear_arith);
            assert((digits_val(s) * coefficient as int) / pow10(j as nat) == digits_val(high)
                * coefficient as int + (digits_val(low) * coefficient as int) / pow10(j as nat));
            assert(total as int == coefficient as int * vh as int + rr as int);
            assert(shifted(m, k as int) == (digits_val(s) * coefficient as int) / pow10(j as nat));
            assert(shifted(m, k as int) == total as int);
        }
        let n = if total > MAX_NANOS {
            MAX_NANOS
        } else {
            total
        };
        n
    }
}

} // verus!
