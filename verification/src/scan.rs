//! The digit scanner: one left-to-right pass that locates the sign, digit
//! runs and exponent of a numeric literal, recording positions only.

use crate::error::{ParseError, ParseErrorView};
use crate::math::{digit_val, digits_val, is_digit, lemma_digits_val_bounds};
use vstd::prelude::*;

verus! {

/// The first position at or after `i` holding no decimal digit.
pub open spec fn run_end(s: Seq<u8>, i: int) -> int
    decreases s.len() - i,
    when 0 <= i <= s.len()
{
    if i < s.len() && is_digit(s[i]) {
        run_end(s, i + 1)
    } else {
        i
    }
}

pub proof fn lemma_run_end(s: Seq<u8>, i: int)
    requires
        0 <= i <= s.len(),
    ensures
        i <= run_end(s, i) <= s.len(),
        forall|j: int| i <= j < run_end(s, i) ==> is_digit(#[trigger] s[j]),
        run_end(s, i) < s.len() ==> !is_digit(s[run_end(s, i)]),
    decreases s.len() - i,
{
    if i < s.len() && is_digit(s[i]) {
        lemma_run_end(s, i + 1);
    }
}

/// Scanner output: the positions of the digit runs of a numeric literal
/// inside the input, together with the value of its exponent part. Spans
/// locate digits in the input; no digit sequence is ever copied.
pub struct ParsedNumber {
    /// First digit of the integer part (after an optional leading `+`).
    pub int_start: usize,
    /// Past-the-end position of the integer digit run.
    pub int_end: usize,
    /// First digit of the fractional part.
    pub frac_start: usize,
    /// Past-the-end position of the fractional digit run.
    pub frac_end: usize,
    /// The exponent value, clamped into a band far beyond the representable
    /// range of any duration once its true value leaves that band.
    pub exp: i128,
    /// Past-the-end position of the whole numeric literal.
    pub end: usize,
}

/// The mathematical shape of a scanned literal, with the exponent as an
/// unbounded integer.
pub struct SpecNumber {
    pub int_start: int,
    pub int_end: int,
    pub frac_start: int,
    pub frac_end: int,
    pub exp: int,
    pub end: int,
}

/// Exponent values whose magnitude stays at or below this bound are kept
/// exactly; beyond it only the side of the band is kept, which cannot change
/// any parse result.
pub const EXP_CLAMP: i128 = 100000000000000000000000000000;

/// How a clamped exponent relates to the true exponent value of the literal.
pub open spec fn exp_rel(e: i128, t: int) -> bool {
    &&& -(10 * EXP_CLAMP as int + 9) <= e <= 10 * EXP_CLAMP as int + 9
    &&& (-(EXP_CLAMP as int) <= t <= EXP_CLAMP as int ==> e == t)
    &&& (t > EXP_CLAMP as int ==> e > EXP_CLAMP as int)
    &&& (t < -(EXP_CLAMP as int) ==> e < -(EXP_CLAMP as int))
}

/// What scanning a literal yields: the spans of the sign, integer, fractional
/// and exponent parts per the grammar
/// `number := '+'? digits? ('.' digits?)? (('e'|'E') ('+'|'-')? digits)?`,
/// requiring at least one digit in the mantissa, or the precise error.
pub open spec fn spec_scan(s: Seq<u8>) -> Result<SpecNumber, ParseErrorView> {
    if s.len() == 0 {
        Err(ParseErrorView::EmptyInput)
    } else if s[0] == 45 {  // '-'
        Err(ParseErrorView::NegativeValue { offset: 0 })
    } else {
        let i0: int = if s[0] == 43 {  // '+'
            1
        } else {
            0
        };
        let ie = run_end(s, i0);
        let has_dot = ie < s.len() && s[ie] == 46;  // '.'
        let fs: int = if has_dot {
            ie + 1
        } else {
            ie
        };
        let fe = run_end(s, fs);
        if ie == i0 && fe == fs {
            Err(ParseErrorView::InvalidNumber { offset: i0 })
        } else {
            let has_exp = fe < s.len() && (s[fe] == 101 || s[fe] == 69);  // 'e' | 'E'
            if has_exp {
                let neg = fe + 1 < s.len() && s[fe + 1] == 45;
                let signed = fe + 1 < s.len() && (s[fe + 1] == 43 || s[fe + 1] == 45);
                let ds: int = if signed {
                    fe + 2
                } else {
                    fe + 1
                };
                let de = run_end(s, ds);
                if de == ds {
                    Err(ParseErrorView::InvalidNumber { offset: ds })
                } else {
                    let mag = digits_val(s.subrange(ds, de));
                    Ok(
                        SpecNumber {
                            int_start: i0,
                            int_end: ie,
                            frac_start: fs,
                            frac_end: fe,
                            exp: if neg {
                                -mag
                            } else {
                                mag
                            },
                            end: de,
                        },
                    )
                }
            } else {
                Ok(
                    SpecNumber {
                        int_start: i0,
                        int_end: ie,
                        frac_start: fs,
                        frac_end: fe,
                        exp: 0,
                        end: fe,
                    },
                )
            }
        }
    }
}

/// A successfully scanned literal has ordered, in-bounds spans holding only
/// digits, and begins at most one byte in (after a leading `+`).
pub proof fn lemma_scan_ok_props(s: Seq<u8>)
    requires
        spec_scan(s) is Ok,
    ensures
        ({
            let n = spec_scan(s)->Ok_0;
            &&& 0 <= n.int_start <= n.int_end <= n.frac_start <= n.frac_end <= n.end <= s.len()
            &&& n.int_start <= 1
            &&& forall|i: int| n.int_start <= i < n.int_end ==> is_digit(#[trigger] s[i])
            &&& forall|i: int| n.frac_start <= i < n.frac_end ==> is_digit(#[trigger] s[i])
        }),
{
    let i0: int = if s[0] == 43 {
        1
    } else {
        0
    };
    lemma_run_end(s, i0);
    let ie = run_end(s, i0);
    let has_dot = ie < s.len() && s[ie] == 46;
    let fs: int = if has_dot {
        ie + 1
    } else {
        ie
    };
    lemma_run_end(s, fs);
    let fe = run_end(s, fs);
    let has_exp = fe < s.len() && (s[fe] == 101 || s[fe] == 69);
    if has_exp {
        let signed = fe + 1 < s.len() && (s[fe + 1] == 43 || s[fe + 1] == 45);
        let ds: int = if signed {
            fe + 2
        } else {
            fe + 1
        };
        if ds <= s.len() {
            lemma_run_end(s, ds);
        }
    }
}

/// Whether a scanned literal agrees with its mathematical shape, the exponent
/// up to clamping.
pub open spec fn pn_matches(pn: ParsedNumber, sn: SpecNumber) -> bool {
    &&& pn.int_start == sn.int_start
    &&& pn.int_end == sn.int_end
    &&& pn.frac_start == sn.frac_start
    &&& pn.frac_end == sn.frac_end
    &&& exp_rel(pn.exp, sn.exp)
    &&& pn.end == sn.end
}

/// Whether a byte is an ASCII decimal digit.
fn is_digit_byte(b: u8) -> (r: bool)
    ensures
        r == is_digit(b),
{
    48 <= b && b <= 57
}

/// Advance over a run of decimal digits.
fn digit_run_end(b: &[u8], start: usize) -> (end: usize)
    requires
        start <= b@.len(),
    ensures
        end == run_end(b@, start as int),
        start <= end <= b@.len(),
{
    proof {
        lemma_run_end(b@, start as int);
    }
    let mut i = start;
    while i < b.len() && is_digit_byte(b[i])
        invariant
            start <= i <= b@.len(),
            run_end(b@, start as int) == run_end(b@, i as int),
        decreases b@.len() - i,
    {
        i = i + 1;
    }
    proof {
        lemma_run_end(b@, i as int);
    }
    i
}

/// Fold the digits of the exponent run into a clamped value: once the
/// accumulated magnitude exceeds [`EXP_CLAMP`], further digits only push the
/// true value further out of the band, so accumulation stops.
fn exponent_value(b: &[u8], ds: usize, de: usize, neg: bool) -> (e: i128)
    requires
        ds <= de <= b@.len(),
        forall|j: int| ds <= j < de ==> is_digit(#[trigger] b@[j]),
    ensures
        exp_rel(
            e,
            if neg {
                -digits_val(b@.subrange(ds as int, de as int))
            } else {
                digits_val(b@.subrange(ds as int, de as int))
            },
        ),
{
    let mut v: i128 = 0;
    let mut i = ds;
    proof {
        assert(b@.subrange(ds as int, ds as int) =~= Seq::<u8>::empty());
    }
    while i < de
        invariant
            ds <= i <= de <= b@.len(),
            forall|j: int| ds <= j < de ==> is_digit(#[trigger] b@[j]),
            0 <= v <= 10 * EXP_CLAMP as int + 9,
            digits_val(b@.subrange(ds as int, i as int)) <= EXP_CLAMP as int ==> v == digits_val(
                b@.subrange(ds as int, i as int),
            ),
            digits_val(b@.subrange(ds as int, i as int)) > EXP_CLAMP as int ==> ((
            EXP_CLAMP as int) < v && v <= digits_val(b@.subrange(ds as int, i as int))),
        decreases de - i,
    {
        let ghost t = digits_val(b@.subrange(ds as int, i as int));
        let d = b[i] - 48;
        proof {
            assert(b@.subrange(ds as int, i as int + 1).drop_last() =~= b@.subrange(
                ds as int,
                i as int,
            ));
            assert(digits_val(b@.subrange(ds as int, i as int + 1)) == 10 * t + digit_val(
                b@[i as int],
            ));
            lemma_digits_val_bounds(b@.subrange(ds as int, i as int));
        }
        if v <= EXP_CLAMP {
            v = v * 10 + d as i128;
        }
        i = i + 1;
    }
    if neg {
        -v
    } else {
        v
    }
}

/// Scan one numeric literal from the start of the input: classify the
/// optional sign, the integer and fractional digit runs and the optional
/// exponent, recording positions only, and reject malformed syntax with the
/// byte offset of the offending character.
pub fn scan_number(b: &[u8]) -> (r: Result<ParsedNumber, ParseError>)
    ensures
        match r {
            Ok(pn) => spec_scan(b@) is Ok && pn_matches(pn, spec_scan(b@)->Ok_0),
            Err(e) => spec_scan(b@) is Err && e@ == spec_scan(b@)->Err_0,
        },
{
    if b.len() == 0 {
        return Err(ParseError::EmptyInput);
    }
    if b[0] == 45 {
        return Err(ParseError::NegativeValue { offset: 0 });
    }
    let int_start: usize = if b[0] == 43 {
        1
    } else {
        0
    };
    let int_end = digit_run_end(b, int_start);
    let has_dot = int_end < b.len() && b[int_end] == 46;
    let frac_start: usize = if has_dot {
        int_end + 1
    } else {
        int_end
    };
    let frac_end = digit_run_end(b, frac_start);
    if int_end == int_start && frac_end == frac_start {
        return Err(ParseError::InvalidNumber { offset: int_start });
    }
    let has_exp = frac_end < b.len() && (b[frac_end] == 101 || b[frac_end] == 69);
    if has_exp {
        let neg = frac_end + 1 < b.len() && b[frac_end + 1] == 45;
        let signed = frac_end + 1 < b.len() && (b[frac_end + 1] == 43 || b[frac_end + 1] == 45);
        let digits_start: usize = if signed {
            frac_end + 2
        } else {
            frac_end + 1
        };
        let digits_end = digit_run_end(b, digits_start);
        if digits_end == digits_start {
            return Err(ParseError::InvalidNumber { offset: digits_start });
        }
        proof {
            lemma_run_end(b@, digits_start as int);
        }
        let exp = exponent_value(b, digits_start, digits_end, neg);
        Ok(
            ParsedNumber {
                int_start,
                int_end,
                frac_start,
                frac_end,
                exp,
                end: digits_end,
            },
        )
    } else {
        Ok(
            ParsedNumber {
                int_start,
                int_end,
                frac_start,
                frac_end,
                exp: 0,
                end: frac_end,
            },
        )
    }
}

} // verus!
