//! The driver: wires the scanner, the unit table and the materializer into
//! the public parse entry points, against one mathematical definition of
//! what every input denotes.

use crate::duration::{duration_from_nanos, lemma_duration_from_nanos, Duration};
use crate::error::{ParseError, ParseErrorView};
use crate::materialize::{lemma_mantissa_digits, mantissa, materialize_nanos, spans_wf};
use crate::math::{
    digits_val, lemma_digits_val_bounds, lemma_pow10_adds, lemma_pow10_values,
    lemma_sat_nanos_far_negative, lemma_sat_nanos_far_positive, lemma_sat_nanos_insensitive,
    pow10, sat_nanos, MAX_NANOS,
};
use crate::scan::{
    lemma_scan_ok_props, scan_number, spec_scan, SpecNumber, EXP_CLAMP,
};
use crate::time::{lemma_multiplier_well_formed, spec_multiplier, TimeUnit};
use crate::units::{all_units, TimeUnits, TimeUnitsLike};
use vstd::prelude::*;
use vstd::slice::slice_to_vec;
use vstd::string::StringSliceAdditionalSpecFns;

verus! {

/// The duration a scanned literal denotes in a given unit: the mantissa
/// digits, scaled by the unit's coefficient, are shifted by the literal's
/// exponent, minus one place per fractional digit, plus the unit's own power
/// of ten, plus nine to land on nanoseconds; the result is truncated toward
/// zero and saturated to the representable range.
pub open spec fn spec_duration_of(s: Seq<u8>, n: SpecNumber, unit: TimeUnit) -> Duration {
    let dv = digits_val(mantissa(s, n.int_start, n.int_end, n.frac_start, n.frac_end));
    let k = n.exp - (n.frac_end - n.frac_start) + spec_multiplier(unit).1 + 9;
    duration_from_nanos(sat_nanos(dv * spec_multiplier(unit).0, k))
}

/// What parsing an input yields, for every input: either the duration its
/// grammar, unit table and default unit denote, or the precise error. The
/// result is a function of the input and configuration alone: parsing is
/// deterministic, repeatable, and free of hidden state.
pub open spec fn spec_parse(
    s: Seq<u8>,
    table_empty: bool,
    table_get: spec_fn(Seq<u8>) -> Option<TimeUnit>,
    default_unit: TimeUnit,
) -> Result<Duration, ParseErrorView> {
    match spec_scan(s) {
        Err(e) => Err(e),
        Ok(n) => {
            let rest = s.subrange(n.end, s.len() as int);
            if rest.len() == 0 {
                Ok(spec_duration_of(s, n, default_unit))
            } else if table_empty {
                Err(ParseErrorView::TrailingCharacters { offset: n.end })
            } else {
                match table_get(rest) {
                    Some(unit) => Ok(spec_duration_of(s, n, unit)),
                    None => Err(ParseErrorView::UnknownUnit { offset: n.end, text: rest }),
                }
            }
        },
    }
}

/// Whether an executable parse result agrees with its mathematical shape.
pub open spec fn result_matches(
    r: Result<Duration, ParseError>,
    model: Result<Duration, ParseErrorView>,
) -> bool {
    match r {
        Ok(d) => model is Ok && d == model->Ok_0,
        Err(e) => model is Err && e@ == model->Err_0,
    }
}

/// Parse a duration literal against a unit table and a default unit.
///
/// The result is exactly what [`spec_parse`] denotes on the input bytes: a
/// well-formed duration for every syntactically valid literal whose suffix
/// the table knows (or which has none), and the precise error otherwise.
/// Overflow and underflow are not errors: the value saturates to the largest
/// representable duration or to zero.
pub fn parse_with<T: TimeUnitsLike>(table: &T, default_unit: TimeUnit, input: &str) -> (r: Result<
    Duration,
    ParseError,
>)
    ensures
        result_matches(
            r,
            spec_parse(
                input.spec_bytes(),
                table.spec_is_empty(),
                (|id: Seq<u8>| table.spec_get(id)),
                default_unit,
            ),
        ),
        r is Ok ==> r->Ok_0.wf(),
{
    let b = input.as_bytes();
    let pn = match scan_number(b) {
        Ok(pn) => pn,
        Err(e) => {
            return Err(e);
        },
    };
    proof {
        lemma_scan_ok_props(b@);
    }
    let unit: TimeUnit = if pn.end == b.len() {
        default_unit
    } else if table.is_empty() {
        return Err(ParseError::TrailingCharacters { offset: pn.end });
    } else {
        let rest = vstd::slice::slice_subrange(b, pn.end, b.len());
        match table.get(rest) {
            Some(u) => u,
            None => {
                return Err(
                    ParseError::UnknownUnit { offset: pn.end, text: slice_to_vec(rest) },
                );
            },
        }
    };
    let (coefficient, power_of_ten) = unit.multiplier();
    proof {
        lemma_multiplier_well_formed(unit);
    }
    let frac_len = pn.frac_end - pn.frac_start;
    let k: i128 = pn.exp - frac_len as i128 + power_of_ten as i128 + 9;
    let ghost sn = spec_scan(b@)->Ok_0;
    let ghost s = b@;
    let ghost dv = digits_val(mantissa(s, sn.int_start, sn.int_end, sn.frac_start, sn.frac_end));
    let ghost m = dv * spec_multiplier(unit).0;
    let ghost k_true = sn.exp - (sn.frac_end - sn.frac_start) + spec_multiplier(unit).1 + 9;
    proof {
        lemma_mantissa_digits(s, sn.int_start, sn.int_end, sn.frac_start, sn.frac_end);
        let ghost ml = (sn.int_end - sn.int_start) + (sn.frac_end - sn.frac_start);
        lemma_digits_val_bounds(mantissa(s, sn.int_start, sn.int_end, sn.frac_start, sn.frac_end));
        lemma_pow10_values();
        lemma_pow10_adds(ml as nat, 8nat);
        assert(0 <= m && m < pow10((ml + 8) as nat)) by (nonlinear_arith)
            requires
                m == dv * spec_multiplier(unit).0 && 0 <= dv && dv < pow10(ml as nat) && 1
                    <= spec_multiplier(unit).0 <= 31557600 && pow10(8) == 100000000 && pow10(
                    (ml + 8) as nat,
                ) == pow10(ml as nat) * pow10(8),
        ;
        if -(EXP_CLAMP as int) <= sn.exp <= EXP_CLAMP as int {
            assert(k as int == k_true);
        } else {
            if dv == 0 {
                assert(m == 0) by (nonlinear_arith)
                    requires
                        m == dv * spec_multiplier(unit).0 && dv == 0,
                ;
            } else {
                assert(m >= 1) by (nonlinear_arith)
                    requires
                        m == dv * spec_multiplier(unit).0 && dv >= 1 && spec_multiplier(unit).0
                            >= 1,
                ;
            }
            lemma_sat_nanos_insensitive(m, ml + 8, k as int, k_true);
        }
        assert(sat_nanos(m, k as int) == sat_nanos(m, k_true));
    }
    let n = materialize_nanos(
        b,
        pn.int_start,
        pn.int_end,
        pn.frac_start,
        pn.frac_end,
        coefficient,
        k,
    );
    proof {
        lemma_duration_from_nanos(n as int);
    }
    let d = Duration { secs: (n / 1000000000) as u64, nanos: (n % 1000000000) as u32 };
    Ok(d)
}

/// A reusable, immutable parser configuration: a unit table plus the default
/// unit applied when a literal carries no suffix. Nothing is mutated during
/// parsing, so one configured parser serves any number of calls, and two
/// parsers never influence each other.
pub struct DurationParser {
    /// The recognized time units.
    pub time_units: TimeUnits,
    /// The unit of a bare number.
    pub default_unit: TimeUnit,
}

impl DurationParser {
    /// A parser recognizing every time unit, with seconds as the default.
    pub fn new() -> (p: DurationParser)
        ensures
            p.time_units.units@ == all_units(),
            p.default_unit == TimeUnit::Second,
    {
        DurationParser { time_units: TimeUnits::with_all_units(), default_unit: TimeUnit::Second }
    }

    /// A parser recognizing every time unit, with seconds as the default.
    pub fn with_all_time_units() -> (p: DurationParser)
        ensures
            p.time_units.units@ == all_units(),
            p.default_unit == TimeUnit::Second,
    {
        DurationParser::new()
    }

    /// A parser recognizing no unit at all: bare numbers are seconds and any
    /// suffix is an error.
    pub fn without_time_units() -> (p: DurationParser)
        ensures
            p.time_units.units@ == Seq::<TimeUnit>::empty(),
            p.default_unit == TimeUnit::Second,
    {
        DurationParser { time_units: TimeUnits::with_no_units(), default_unit: TimeUnit::Second }
    }

    /// A parser recognizing exactly the listed units, with seconds as the
    /// default.
    pub fn with_time_units(units: &[TimeUnit]) -> (p: DurationParser)
        ensures
            p.time_units.units@ == units@,
            p.default_unit == TimeUnit::Second,
    {
        DurationParser { time_units: TimeUnits::with_units(units), default_unit: TimeUnit::Second }
    }

    /// Change the unit applied to a bare number.
    pub fn set_default_unit(&mut self, unit: TimeUnit)
        ensures
            final(self).default_unit == unit,
            final(self).time_units == old(self).time_units,
    {
        self.default_unit = unit;
    }

    /// Parse a duration literal with this parser's unit table and default
    /// unit. The result is exactly what [`spec_parse`] denotes on the input
    /// bytes and this configuration, so equal inputs always give equal
    /// results.
    pub fn parse(&self, input: &str) -> (r: Result<Duration, ParseError>)
        ensures
            result_matches(
                r,
                spec_parse(
                    input.spec_bytes(),
                    self.time_units.spec_is_empty(),
                    (|id: Seq<u8>| self.time_units.spec_get(id)),
                    self.default_unit,
                ),
            ),
            r is Ok ==> r->Ok_0.wf(),
    {
        parse_with(&self.time_units, self.default_unit, input)
    }
}

/// A literal with a leading minus sign is rejected with the negative-value
/// error at offset zero, whatever the unit table and default unit: it never
/// silently yields zero or a positive duration.
pub proof fn lemma_negative_rejected(
    s: Seq<u8>,
    table_empty: bool,
    table_get: spec_fn(Seq<u8>) -> Option<TimeUnit>,
    default_unit: TimeUnit,
)
    requires
        s.len() > 0,
        s[0] == 45,
    ensures
        spec_parse(s, table_empty, table_get, default_unit) == Err::<Duration, ParseErrorView>(
            ParseErrorView::NegativeValue { offset: 0 },
        ),
{
}

/// The empty input is rejected as such.
pub proof fn lemma_empty_rejected(
    table_empty: bool,
    table_get: spec_fn(Seq<u8>) -> Option<TimeUnit>,
    default_unit: TimeUnit,
)
    ensures
        spec_parse(Seq::<u8>::empty(), table_empty, table_get, default_unit) == Err::<
            Duration,
            ParseErrorView,
        >(ParseErrorView::EmptyInput),
{
}

/// The saturation policy, end to end: when the effective power of ten drops
/// even the whole mantissa below one nanosecond the denoted duration is
/// exactly zero, and when a nonzero mantissa is pushed past the
/// representable window it is exactly the maximum duration — in neither
/// case an error.
pub proof fn lemma_duration_of_saturates(s: Seq<u8>, n: SpecNumber, unit: TimeUnit)
    requires
        spans_wf(s, n.int_start, n.int_end, n.frac_start, n.frac_end),
    ensures
        ({
            let dv = digits_val(mantissa(s, n.int_start, n.int_end, n.frac_start, n.frac_end));
            let ml = (n.int_end - n.int_start) + (n.frac_end - n.frac_start);
            let k = n.exp - (n.frac_end - n.frac_start) + spec_multiplier(unit).1 + 9;
            &&& k <= -(ml + 8) ==> spec_duration_of(s, n, unit) == (Duration {
                secs: 0u64,
                nanos: 0u32,
            })
            &&& dv >= 1 && k >= 29 ==> spec_duration_of(s, n, unit) == Duration::spec_max()
        }),
{
    let dv = digits_val(mantissa(s, n.int_start, n.int_end, n.frac_start, n.frac_end));
    let ml = (n.int_end - n.int_start) + (n.frac_end - n.frac_start);
    let k = n.exp - (n.frac_end - n.frac_start) + spec_multiplier(unit).1 + 9;
    let m = dv * spec_multiplier(unit).0;
    lemma_mantissa_digits(s, n.int_start, n.int_end, n.frac_start, n.frac_end);
    lemma_digits_val_bounds(mantissa(s, n.int_start, n.int_end, n.frac_start, n.frac_end));
    lemma_multiplier_well_formed(unit);
    lemma_pow10_values();
    lemma_pow10_adds(ml as nat, 8nat);
    assert(0 <= m && m < pow10((ml + 8) as nat)) by (nonlinear_arith)
        requires
            m == dv * spec_multiplier(unit).0 && 0 <= dv && dv < pow10(ml as nat) && 1
                <= spec_multiplier(unit).0 <= 31557600 && pow10(8) == 100000000 && pow10(
                (ml + 8) as nat,
            ) == pow10(ml as nat) * pow10(8),
    ;
    if k <= -(ml + 8) {
        lemma_sat_nanos_far_negative(m, ml + 8, k);
        lemma_duration_from_nanos(0);
    }
    if dv >= 1 && k >= 29 {
        assert(m >= 1) by (nonlinear_arith)
            requires
                m == dv * spec_multiplier(unit).0 && dv >= 1 && spec_multiplier(unit).0 >= 1,
        ;
        lemma_sat_nanos_far_positive(m, k);
        lemma_duration_from_nanos(MAX_NANOS as int);
    }
}

/// Success is owed: a literal that scans, and whose suffix is either absent
/// or known to the table, parses to a duration — overflow and underflow at
/// the numeric extremes saturate and are never errors.
pub proof fn lemma_valid_input_parses(
    s: Seq<u8>,
    table_empty: bool,
    table_get: spec_fn(Seq<u8>) -> Option<TimeUnit>,
    default_unit: TimeUnit,
)
    requires
        spec_scan(s) is Ok,
        ({
            let rest = s.subrange(spec_scan(s)->Ok_0.end, s.len() as int);
            rest.len() == 0 || (!table_empty && table_get(rest) is Some)
        }),
    ensures
        spec_parse(s, table_empty, table_get, default_unit) is Ok,
{
}

} // verus!
