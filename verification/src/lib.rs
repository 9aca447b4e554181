//! Parsing of human-readable duration literals such as `"1.5h"`, `"42ns"` or
//! `"123456789.123456789e+5"` into an exact, saturating [`Duration`] of whole
//! seconds plus a nanosecond remainder.
//!
//! The engine never materializes a big integer: a literal with thousands of
//! mantissa digits or an exponent far outside machine range is handled in
//! time and memory linear in the input length, with a deterministic
//! truncation and saturation policy at the extremes. Overflow saturates to
//! the largest representable duration, underflow to zero; neither is an
//! error. Negative durations are rejected.

mod duration;
mod error;
mod materialize;
mod math;
mod parse;
mod scan;
mod time;
mod units;

pub use duration::{duration_from_nanos, lemma_duration_from_nanos, Duration, NANOS_PER_SEC};
pub use error::{ParseError, ParseErrorView};
pub use materialize::{lemma_mantissa_digits, mantissa, materialize_nanos, spans_wf};
pub use math::{
    all_digits, digit_val, digits_val, is_digit, lemma_digits_val_bounds, lemma_pow10_values,
    lemma_sat_nanos_far_negative, lemma_sat_nanos_far_positive, lemma_sat_nanos_insensitive,
    lemma_sat_nanos_zero, pow10, sat_nanos, shifted, MAX_NANOS,
};
pub use parse::{
    lemma_duration_of_saturates, lemma_empty_rejected, lemma_negative_rejected,
    lemma_valid_input_parses, parse_with, result_matches, spec_duration_of, spec_parse,
    DurationParser,
};
pub use scan::{
    exp_rel, lemma_run_end, lemma_scan_ok_props, pn_matches, run_end, scan_number, spec_scan,
    ParsedNumber, SpecNumber, EXP_CLAMP,
};
pub use time::{
    id_bytes, id_chars, lemma_id_chars_match_bytes, lemma_identifiers_distinct,
    lemma_multiplier_well_formed, spec_multiplier,
    TimeUnit, DEFAULT_ID_DAY, DEFAULT_ID_HOUR, DEFAULT_ID_MICRO_SECOND, DEFAULT_ID_MILLI_SECOND,
    DEFAULT_ID_MINUTE, DEFAULT_ID_MONTH, DEFAULT_ID_NANO_SECOND, DEFAULT_ID_SECOND,
    DEFAULT_ID_WEEK, DEFAULT_ID_YEAR, DEFAULT_TIME_UNIT,
};
pub use units::{all_units, lemma_all_units_resolve, seq_get, seq_get_from, TimeUnits, TimeUnitsLike};
