//! Unit tables: the capability interface the parser consumes, and a table
//! over an explicit list of recognized units.

use crate::time::{id_bytes, lemma_identifiers_distinct, TimeUnit};
use vstd::prelude::*;
use vstd::slice::slice_to_vec;

verus! {

/// The capability interface of a unit table: the parser only ever asks
/// whether the table is empty (then no suffix scanning is attempted and any
/// trailing bytes are an error) and which unit an identifier maps to. A
/// table is constructed once and read during parsing, never mutated.
pub trait TimeUnitsLike {
    /// Whether the table recognizes no identifier at all.
    spec fn spec_is_empty(&self) -> bool;

    /// The unit the table assigns to an identifier.
    spec fn spec_get(&self, id: Seq<u8>) -> Option<TimeUnit>;

    /// Whether no time units are recognized.
    fn is_empty(&self) -> (b: bool)
        ensures
            b == self.spec_is_empty(),
    ;

    /// Look an identifier up, case sensitively.
    fn get(&self, identifier: &[u8]) -> (r: Option<TimeUnit>)
        ensures
            r == self.spec_get(identifier@),
    ;
}

/// The first unit at or after position `i` whose default identifier is `id`.
pub open spec fn seq_get_from(units: Seq<TimeUnit>, id: Seq<u8>, i: int) -> Option<TimeUnit>
    decreases units.len() - i,
    when 0 <= i <= units.len()
{
    if i >= units.len() {
        None
    } else if id_bytes(units[i]) == id {
        Some(units[i])
    } else {
        seq_get_from(units, id, i + 1)
    }
}

/// The first unit of the list whose default identifier is `id`.
pub open spec fn seq_get(units: Seq<TimeUnit>, id: Seq<u8>) -> Option<TimeUnit> {
    seq_get_from(units, id, 0)
}

/// Whether `id` is the default identifier of `unit`, decided on the bytes.
fn unit_matches(id: &[u8], unit: TimeUnit) -> (r: bool)
    ensures
        r == (id@ == id_bytes(unit)),
{
    let ghost expected = id_bytes(unit);
    let r = match unit {
        TimeUnit::NanoSecond => id.len() == 2 && id[0] == 110 && id[1] == 115,
        TimeUnit::MicroSecond => id.len() == 2 && id[0] == 77 && id[1] == 115,
        TimeUnit::MilliSecond => id.len() == 2 && id[0] == 109 && id[1] == 115,
        TimeUnit::Second => id.len() == 1 && id[0] == 115,
        TimeUnit::Minute => id.len() == 1 && id[0] == 109,
        TimeUnit::Hour => id.len() == 1 && id[0] == 104,
        TimeUnit::Day => id.len() == 1 && id[0] == 100,
        TimeUnit::Week => id.len() == 1 && id[0] == 119,
        TimeUnit::Month => id.len() == 1 && id[0] == 77,
        TimeUnit::Year => id.len() == 1 && id[0] == 121,
    };
    proof {
        if r {
            assert(id@ =~= expected);
        } else {
            if id@ == expected {
                assert(id@.len() == expected.len());
                assert(forall|i: int| 0 <= i < id@.len() ==> id@[i] == expected[i]);
            }
        }
    }
    r
}

/// A unit table over an explicit list of recognized units: each listed unit
/// is found under its default identifier, and nothing else is found.
pub struct TimeUnits {
    /// The recognized units, looked up front to back.
    pub units: Vec<TimeUnit>,
}

/// All ten units, finest first.
pub open spec fn all_units() -> Seq<TimeUnit> {
    seq![
        TimeUnit::NanoSecond,
        TimeUnit::MicroSecond,
        TimeUnit::MilliSecond,
        TimeUnit::Second,
        TimeUnit::Minute,
        TimeUnit::Hour,
        TimeUnit::Day,
        TimeUnit::Week,
        TimeUnit::Month,
        TimeUnit::Year,
    ]
}

impl TimeUnits {
    /// The table recognizing every unit.
    pub fn with_all_units() -> (t: TimeUnits)
        ensures
            t.units@ == all_units(),
    {
        let units = vec![
            TimeUnit::NanoSecond,
            TimeUnit::MicroSecond,
            TimeUnit::MilliSecond,
            TimeUnit::Second,
            TimeUnit::Minute,
            TimeUnit::Hour,
            TimeUnit::Day,
            TimeUnit::Week,
            TimeUnit::Month,
            TimeUnit::Year,
        ];
        proof {
            assert(units@ =~= all_units());
        }
        TimeUnits { units }
    }

    /// The table recognizing no unit at all.
    pub fn with_no_units() -> (t: TimeUnits)
        ensures
            t.units@ == Seq::<TimeUnit>::empty(),
            t.spec_is_empty(),
    {
        let units: Vec<TimeUnit> = Vec::new();
        proof {
            assert(units@ =~= Seq::<TimeUnit>::empty());
        }
        TimeUnits { units }
    }

    /// The table recognizing exactly the listed units.
    pub fn with_units(units: &[TimeUnit]) -> (t: TimeUnits)
        ensures
            t.units@ == units@,
    {
        TimeUnits { units: slice_to_vec(units) }
    }
}

/// The table of all units resolves every unit's own default identifier to
/// that unit: in particular `m` finds the minute and `M` the month, and `ms`
/// the millisecond and `Ms` the microsecond.
pub proof fn lemma_all_units_resolve(unit: TimeUnit)
    ensures
        seq_get(all_units(), id_bytes(unit)) == Some(unit),
{
    reveal_with_fuel(seq_get_from, 11);
    assert forall|v: TimeUnit| v != unit implies id_bytes(v) != id_bytes(unit) by {
        lemma_identifiers_distinct(v, unit);
    }
    assert(all_units().len() == 10);
}

impl TimeUnitsLike for TimeUnits {
    open spec fn spec_is_empty(&self) -> bool {
        self.units@.len() == 0
    }

    open spec fn spec_get(&self, id: Seq<u8>) -> Option<TimeUnit> {
        seq_get(self.units@, id)
    }

    fn is_empty(&self) -> (b: bool) {
        self.units.len() == 0
    }

    fn get(&self, identifier: &[u8]) -> (r: Option<TimeUnit>) {
        let mut i: usize = 0;
        while i < self.units.len()
            invariant
                i <= self.units@.len(),
                seq_get(self.units@, identifier@) == seq_get_from(
                    self.units@,
                    identifier@,
                    i as int,
                ),
            decreases self.units@.len() - i,
        {
            let u = self.units[i];
            if unit_matches(identifier, u) {
                return Some(u);
            }
            i = i + 1;
        }
        None
    }
}

} // verus!
