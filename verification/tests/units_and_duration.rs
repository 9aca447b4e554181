use fundu::Duration;
use fundu::TimeUnit;
use fundu::TimeUnits;
use fundu::TimeUnitsLike;

#[test]
fn default_identifiers() {
    assert_eq!(TimeUnit::NanoSecond.default_identifier(), "ns");
    assert_eq!(TimeUnit::MicroSecond.default_identifier(), "Ms");
    assert_eq!(TimeUnit::MilliSecond.default_identifier(), "ms");
    assert_eq!(TimeUnit::Second.default_identifier(), "s");
    assert_eq!(TimeUnit::Minute.default_identifier(), "m");
    assert_eq!(TimeUnit::Hour.default_identifier(), "h");
    assert_eq!(TimeUnit::Day.default_identifier(), "d");
    assert_eq!(TimeUnit::Week.default_identifier(), "w");
    assert_eq!(TimeUnit::Month.default_identifier(), "M");
    assert_eq!(TimeUnit::Year.default_identifier(), "y");
}

#[test]
fn multipliers() {
    assert_eq!(TimeUnit::NanoSecond.multiplier(), (1, -9));
    assert_eq!(TimeUnit::MicroSecond.multiplier(), (1, -6));
    assert_eq!(TimeUnit::MilliSecond.multiplier(), (1, -3));
    assert_eq!(TimeUnit::Second.multiplier(), (1, 0));
    assert_eq!(TimeUnit::Minute.multiplier(), (60, 0));
    assert_eq!(TimeUnit::Hour.multiplier(), (60 * 60, 0));
    assert_eq!(TimeUnit::Day.multiplier(), (60 * 60 * 24, 0));
    assert_eq!(TimeUnit::Week.multiplier(), (60 * 60 * 24 * 7, 0));
    assert_eq!(
        TimeUnit::Month.multiplier(),
        ((60 * 60 * 24 * 365 + 60 * 60 * 24 / 4) / 12, 0)
    );
    assert_eq!(
        TimeUnit::Year.multiplier(),
        (60 * 60 * 24 * 365 + 60 * 60 * 24 / 4, 0)
    );
}

#[test]
fn default_time_unit_is_second() {
    assert_eq!(TimeUnit::default(), TimeUnit::Second);
    assert_eq!(fundu::DEFAULT_TIME_UNIT, TimeUnit::Second);
}

#[test]
fn unit_order_is_finest_to_coarsest() {
    assert!(TimeUnit::NanoSecond < TimeUnit::MicroSecond);
    assert!(TimeUnit::MicroSecond < TimeUnit::MilliSecond);
    assert!(TimeUnit::MilliSecond < TimeUnit::Second);
    assert!(TimeUnit::Second < TimeUnit::Minute);
    assert!(TimeUnit::Minute < TimeUnit::Hour);
    assert!(TimeUnit::Hour < TimeUnit::Day);
    assert!(TimeUnit::Day < TimeUnit::Week);
    assert!(TimeUnit::Week < TimeUnit::Month);
    assert!(TimeUnit::Month < TimeUnit::Year);
}

#[test]
fn unit_table_lookup_is_case_sensitive() {
    let table = TimeUnits::with_all_units();
    assert!(!table.is_empty());
    assert_eq!(table.get(b"m"), Some(TimeUnit::Minute));
    assert_eq!(table.get(b"M"), Some(TimeUnit::Month));
    assert_eq!(table.get(b"ms"), Some(TimeUnit::MilliSecond));
    assert_eq!(table.get(b"Ms"), Some(TimeUnit::MicroSecond));
    assert_eq!(table.get(b"ns"), Some(TimeUnit::NanoSecond));
    assert_eq!(table.get(b"y"), Some(TimeUnit::Year));
    assert_eq!(table.get(b"NS"), None);
    assert_eq!(table.get(b""), None);
    assert_eq!(table.get(b"xyz"), None);
}

#[test]
fn empty_unit_table_finds_nothing() {
    let table = TimeUnits::with_no_units();
    assert!(table.is_empty());
    assert_eq!(table.get(b"s"), None);
}

#[test]
fn restricted_unit_table_finds_only_its_units() {
    let table = TimeUnits::with_units(&[TimeUnit::Hour, TimeUnit::Day]);
    assert!(!table.is_empty());
    assert_eq!(table.get(b"h"), Some(TimeUnit::Hour));
    assert_eq!(table.get(b"d"), Some(TimeUnit::Day));
    assert_eq!(table.get(b"s"), None);
}

#[test]
fn duration_accessors() {
    let d = Duration::new(90, 500_000_000);
    assert_eq!(d.as_secs(), 90);
    assert_eq!(d.subsec_nanos(), 500_000_000);
    let max = Duration::saturated();
    assert_eq!(max.as_secs(), u64::MAX);
    assert_eq!(max.subsec_nanos(), fundu::NANOS_PER_SEC - 1);
}
