//! The duration value: whole seconds plus a nanosecond remainder, and its
//! total-nanosecond model.

use crate::math::MAX_NANOS;
use vstd::arithmetic::div_mod::{lemma_div_is_ordered, lemma_fundamental_div_mod};
use vstd::prelude::*;

verus! {

/// Nanoseconds in one second.
pub const NANOS_PER_SEC: u32 = 1000000000;

/// A non-negative span of time, represented exactly as whole seconds plus a
/// sub-second remainder at nanosecond resolution.
///
/// A well-formed value keeps `nanos` below one second; every value this
/// library produces is well formed. Values beyond the representable range
/// saturate to the maximum instead of wrapping or failing.
#[derive(Debug, Clone, Copy, PartialEq, Eq, Structural)]
pub struct Duration {
    /// Whole seconds.
    pub secs: u64,
    /// Sub-second remainder in nanoseconds, below one second when well formed.
    pub nanos: u32,
}

impl Duration {
    /// A well-formed duration keeps the nanosecond remainder below a second.
    pub open spec fn wf(self) -> bool {
        self.nanos < 1000000000
    }

    /// The total length of this duration in nanoseconds.
    pub open spec fn total_nanos(self) -> int {
        self.secs * 1000000000 + self.nanos
    }

    /// The largest representable duration.
    pub open spec fn spec_max() -> Duration {
        Duration { secs: 18446744073709551615u64, nanos: 999999999u32 }
    }

    /// Construct a duration from whole seconds and a nanosecond remainder.
    pub fn new(secs: u64, nanos: u32) -> (d: Duration)
        requires
            nanos < 1000000000,
        ensures
            d == (Duration { secs, nanos }),
            d.wf(),
    {
        Duration { secs, nanos }
    }

    /// The largest representable duration: `u64::MAX` seconds plus
    /// 999 999 999 nanoseconds.
    pub fn saturated() -> (d: Duration)
        ensures
            d == Duration::spec_max(),
            d.wf(),
    {
        Duration { secs: u64::MAX, nanos: 999999999 }
    }

    /// The whole seconds of this duration.
    pub fn as_secs(&self) -> (s: u64)
        ensures
            s == self.secs,
    {
        self.secs
    }

    /// The sub-second remainder of this duration, in nanoseconds.
    pub fn subsec_nanos(&self) -> (n: u32)
        ensures
            n == self.nanos,
    {
        self.nanos
    }
}

/// The duration denoting a total of `n` nanoseconds.
pub open spec fn duration_from_nanos(n: int) -> Duration {
    Duration { secs: (n / 1000000000) as u64, nanos: (n % 1000000000) as u32 }
}

/// Splitting a representable nanosecond total into seconds and remainder is
/// exact, well formed, and reaches the maximum duration exactly at the top of
/// the range.
pub proof fn lemma_duration_from_nanos(n: int)
    requires
        0 <= n <= MAX_NANOS as int,
    ensures
        duration_from_nanos(n).wf(),
        duration_from_nanos(n).total_nanos() == n,
        n == MAX_NANOS as int ==> duration_from_nanos(n) == Duration::spec_max(),
        0 <= n / 1000000000 <= 18446744073709551615,
        0 <= n % 1000000000 < 1000000000,
{
    lemma_fundamental_div_mod(n, 1000000000);
    lemma_div_is_ordered(n, MAX_NANOS as int, 1000000000);
    assert(MAX_NANOS as int == 18446744073709551615 * 1000000000 + 999999999);
    lemma_fundamental_div_mod(MAX_NANOS as int, 1000000000);
    assert(MAX_NANOS as int / 1000000000 == 18446744073709551615) by {
        vstd::arithmetic::div_mod::lemma_fundamental_div_mod_converse(
            MAX_NANOS as int,
            1000000000,
            18446744073709551615,
            999999999,
        );
    }
    assert(0 <= n % 1000000000 < 1000000000);
    assert(0 <= n / 1000000000) by {
        vstd::arithmetic::div_mod::lemma_div_pos_is_pos(n, 1000000000);
    }
}

} // verus!
