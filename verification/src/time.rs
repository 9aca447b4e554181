//! The ten time units, their case-sensitive default identifiers, and their
//! fixed multipliers to seconds.

use vstd::prelude::*;

verus! {

/// The default identifier of [`TimeUnit::NanoSecond`].
pub const DEFAULT_ID_NANO_SECOND: &'static str = "ns";

/// The default identifier of [`TimeUnit::MicroSecond`].
pub const DEFAULT_ID_MICRO_SECOND: &'static str = "Ms";

/// The default identifier of [`TimeUnit::MilliSecond`].
pub const DEFAULT_ID_MILLI_SECOND: &'static str = "ms";

/// The default identifier of [`TimeUnit::Second`].
pub const DEFAULT_ID_SECOND: &'static str = "s";

/// The default identifier of [`TimeUnit::Minute`].
pub const DEFAULT_ID_MINUTE: &'static str = "m";

/// The default identifier of [`TimeUnit::Hour`].
pub const DEFAULT_ID_HOUR: &'static str = "h";

/// The default identifier of [`TimeUnit::Day`].
pub const DEFAULT_ID_DAY: &'static str = "d";

/// The default identifier of [`TimeUnit::Week`].
pub const DEFAULT_ID_WEEK: &'static str = "w";

/// The default identifier of [`TimeUnit::Month`].
pub const DEFAULT_ID_MONTH: &'static str = "M";

/// The default identifier of [`TimeUnit::Year`].
pub const DEFAULT_ID_YEAR: &'static str = "y";

/// The time unit applied when a literal carries no unit suffix and the caller
/// did not configure another default.
pub const DEFAULT_TIME_UNIT: TimeUnit = TimeUnit::Second;

/// The time units the parser can understand, ordered from finest to coarsest
/// granularity.
///
/// Identifiers are case sensitive: `m` is a minute while `M` is a month, and
/// `ms` (millisecond) differs from `Ms` (microsecond). A month is defined as
/// one twelfth of a year, and a year as 365.25 days.
#[derive(Debug, Clone, Copy, PartialEq, Eq, PartialOrd, Ord, Structural)]
pub enum TimeUnit {
    /// The lowest time unit, with identifier `ns`.
    NanoSecond,
    /// Identifier `Ms`.
    MicroSecond,
    /// Identifier `ms`.
    MilliSecond,
    /// The default unit, with identifier `s`.
    Second,
    /// Identifier `m`.
    Minute,
    /// Identifier `h`.
    Hour,
    /// Identifier `d`.
    Day,
    /// Identifier `w`.
    Week,
    /// Identifier `M`, fixed at one twelfth of a year.
    Month,
    /// The highest time unit, with identifier `y`, fixed at 365.25 days.
    Year,
}

impl Default for TimeUnit {
    /// The default time unit is a second.
    fn default() -> (unit: TimeUnit)
        ensures
            unit == TimeUnit::Second,
    {
        DEFAULT_TIME_UNIT
    }
}

/// The default identifier of a unit, as a byte sequence.
pub open spec fn id_bytes(unit: TimeUnit) -> Seq<u8> {
    match unit {
        TimeUnit::NanoSecond => seq![110u8, 115u8],  // "ns"
        TimeUnit::MicroSecond => seq![77u8, 115u8],  // "Ms"
        TimeUnit::MilliSecond => seq![109u8, 115u8],  // "ms"
        TimeUnit::Second => seq![115u8],  // "s"
        TimeUnit::Minute => seq![109u8],  // "m"
        TimeUnit::Hour => seq![104u8],  // "h"
        TimeUnit::Day => seq![100u8],  // "d"
        TimeUnit::Week => seq![119u8],  // "w"
        TimeUnit::Month => seq![77u8],  // "M"
        TimeUnit::Year => seq![121u8],  // "y"
    }
}

/// The default identifier of a unit, as a character sequence.
pub open spec fn id_chars(unit: TimeUnit) -> Seq<char> {
    match unit {
        TimeUnit::NanoSecond => "ns"@,
        TimeUnit::MicroSecond => "Ms"@,
        TimeUnit::MilliSecond => "ms"@,
        TimeUnit::Second => "s"@,
        TimeUnit::Minute => "m"@,
        TimeUnit::Hour => "h"@,
        TimeUnit::Day => "d"@,
        TimeUnit::Week => "w"@,
        TimeUnit::Month => "M"@,
        TimeUnit::Year => "y"@,
    }
}

/// The multiplier of a unit: an integer coefficient together with a power of
/// ten. A numeric value in this unit equals `value * coefficient *
/// 10^power_of_ten` seconds.
pub open spec fn spec_multiplier(unit: TimeUnit) -> (u64, i32) {
    match unit {
        TimeUnit::NanoSecond => (1u64, -9i32),
        TimeUnit::MicroSecond => (1u64, -6i32),
        TimeUnit::MilliSecond => (1u64, -3i32),
        TimeUnit::Second => (1u64, 0i32),
        TimeUnit::Minute => (60u64, 0i32),
        TimeUnit::Hour => (3600u64, 0i32),
        TimeUnit::Day => (86400u64, 0i32),
        TimeUnit::Week => (604800u64, 0i32),
        TimeUnit::Month => (2629800u64, 0i32),
        TimeUnit::Year => (31557600u64, 0i32),
    }
}

impl TimeUnit {
    /// Return the default identifier.
    pub fn default_identifier(&self) -> (id: &'static str)
        ensures
            id@ == id_chars(*self),
    {
        match self {
            TimeUnit::NanoSecond => DEFAULT_ID_NANO_SECOND,
            TimeUnit::MicroSecond => DEFAULT_ID_MICRO_SECOND,
            TimeUnit::MilliSecond => DEFAULT_ID_MILLI_SECOND,
            TimeUnit::Second => DEFAULT_ID_SECOND,
            TimeUnit::Minute => DEFAULT_ID_MINUTE,
            TimeUnit::Hour => DEFAULT_ID_HOUR,
            TimeUnit::Day => DEFAULT_ID_DAY,
            TimeUnit::Week => DEFAULT_ID_WEEK,
            TimeUnit::Month => DEFAULT_ID_MONTH,
            TimeUnit::Year => DEFAULT_ID_YEAR,
        }
    }

    /// Return the multiplier converting a number in this unit to seconds.
    ///
    /// For units at or below one second the coefficient is 1 and the power of
    /// ten is negative (a nanosecond is `10^-9` seconds); for units above one
    /// second the power of ten is 0 and the coefficient is the exact number
    /// of seconds in the unit (an hour is 3600 seconds).
    pub fn multiplier(&self) -> (m: (u64, i32))
        ensures
            m == spec_multiplier(*self),
    {
        match self {
            TimeUnit::NanoSecond => (1, -9),
            TimeUnit::MicroSecond => (1, -6),
            TimeUnit::MilliSecond => (1, -3),
            TimeUnit::Second => (1, 0),
            TimeUnit::Minute => (60, 0),
            TimeUnit::Hour => (3600, 0),
            TimeUnit::Day => (86400, 0),
            TimeUnit::Week => (604800, 0),
            TimeUnit::Month => (2629800, 0),
            TimeUnit::Year => (31557600, 0),
        }
    }
}

/// The multipliers are fixed: the coefficient is at least 1 and at most the
/// number of seconds in a year, the power of ten lies between -9 and 0, and
/// every unit scales by a pure power of ten or by a whole number of seconds,
/// never both.
pub proof fn lemma_multiplier_well_formed(unit: TimeUnit)
    ensures
        1 <= spec_multiplier(unit).0 <= 31557600,
        -9 <= spec_multiplier(unit).1 <= 0,
        spec_multiplier(unit).0 == 1 || spec_multiplier(unit).1 == 0,
{
}

/// The identifier of a unit reads the same as characters and as bytes: the
/// string [`TimeUnit::default_identifier`] returns is, byte for byte, the
/// identifier the unit tables look up.
pub proof fn lemma_id_chars_match_bytes(unit: TimeUnit)
    ensures
        id_chars(unit).len() == id_bytes(unit).len(),
        forall|i: int|
            0 <= i < id_bytes(unit).len() ==> id_chars(unit)[i] == #[trigger] id_bytes(unit)[i]
                as char,
{
    reveal_strlit("ns");
    reveal_strlit("Ms");
    reveal_strlit("ms");
    reveal_strlit("s");
    reveal_strlit("m");
    reveal_strlit("h");
    reveal_strlit("d");
    reveal_strlit("w");
    reveal_strlit("M");
    reveal_strlit("y");
}

/// Distinct time units have distinct default identifiers; in particular the
/// case of an identifier is load-bearing (`m` is a minute, `M` a month).
pub proof fn lemma_identifiers_distinct(u1: TimeUnit, u2: TimeUnit)
    requires
        u1 != u2,
    ensures
        id_bytes(u1) != id_bytes(u2),
{
    assert(id_bytes(u1)[0] != id_bytes(u2)[0] || id_bytes(u1).len() != id_bytes(u2).len());
}

} // verus!
