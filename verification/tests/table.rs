use chrono::{DateTime, TimeZone, Utc};
use prism::table::{partition_filter, partition_filters, Filter, Operand, Operator, Side};
use prism::types::Granularity;

fn at(day: u32, hour: u32) -> DateTime<Utc> {
    Utc.with_ymd_and_hms(2026, 8, day, hour, 0, 0).unwrap()
}

fn received_at() -> Operand {
    Operand::Column("received_at".to_string())
}

fn instant(at: DateTime<Utc>) -> Operand {
    Operand::Micros(at.timestamp_micros())
}

fn filter(left: Operand, op: Operator, right: Operand) -> Filter {
    Filter::Binary { left, op, right }
}

fn derived(filter: &Filter) -> Option<(Side, String)> {
    partition_filter(filter, Granularity::Day).map(|filter| (filter.side, filter.partition))
}

const MONDAY: &str = "2026-08-17T00:00:00Z";
const TUESDAY: &str = "2026-08-18T00:00:00Z";

/// The point of partitioning: a query for one day must not open the other days'
/// files.
#[test]
fn prunes_partitions_by_received_at() {
    let filter = filter(received_at(), Operator::GreaterOrEqual, instant(at(18, 0)));
    let (side, partition) = derived(&filter).unwrap();

    assert_eq!(side, Side::From);
    assert_eq!(partition, TUESDAY);
    assert!(MONDAY < partition.as_str(), "monday is left out");
}

/// An exact `received_at` narrows to the one partition holding it, the case
/// where pruning is easiest to get wrong.
#[test]
fn prunes_an_exact_received_at_without_losing_it() {
    let filter = filter(received_at(), Operator::Equal, instant(at(17, 9)));

    assert_eq!(derived(&filter), Some((Side::At, MONDAY.to_string())));
}

/// Nothing after an instant is before its partition, whichever side the column
/// is on.
#[test]
fn every_order_bounds_its_side() {
    let noon = || instant(at(17, 12));
    let from = Some((Side::From, MONDAY.to_string()));
    let until = Some((Side::Until, MONDAY.to_string()));

    assert_eq!(derived(&filter(received_at(), Operator::Greater, noon())), from);
    assert_eq!(derived(&filter(received_at(), Operator::Less, noon())), until);
    assert_eq!(derived(&filter(received_at(), Operator::LessOrEqual, noon())), until);
    assert_eq!(derived(&filter(noon(), Operator::Less, received_at())), from);
    assert_eq!(derived(&filter(noon(), Operator::LessOrEqual, received_at())), from);
    assert_eq!(derived(&filter(noon(), Operator::Greater, received_at())), until);
    assert_eq!(derived(&filter(noon(), Operator::GreaterOrEqual, received_at())), until);
    assert_eq!(
        derived(&filter(noon(), Operator::Equal, received_at())),
        Some((Side::At, MONDAY.to_string()))
    );
}

/// What says nothing of when a row was received prunes nothing.
#[test]
fn other_filters_prune_nothing() {
    let noon = || instant(at(17, 12));
    let started_at = Operand::Column("started_at".to_string());

    assert_eq!(derived(&Filter::Other), None);
    assert_eq!(derived(&filter(started_at, Operator::Equal, noon())), None);
    assert_eq!(derived(&filter(received_at(), Operator::NotEqual, noon())), None);
    assert_eq!(derived(&filter(received_at(), Operator::Other, noon())), None);
    assert_eq!(derived(&filter(received_at(), Operator::Equal, Operand::Literal)), None);
    assert_eq!(derived(&filter(received_at(), Operator::Equal, Operand::Other)), None);
    assert_eq!(derived(&filter(received_at(), Operator::Equal, received_at())), None);
    assert_eq!(derived(&filter(noon(), Operator::Equal, noon())), None);
    assert_eq!(
        derived(&filter(received_at(), Operator::Equal, Operand::Micros(i64::MAX))),
        None,
        "no instant"
    );
}

#[test]
fn the_filters_given_are_all_read() {
    let filters = vec![
        filter(received_at(), Operator::Greater, instant(at(17, 1))),
        Filter::Other,
        filter(received_at(), Operator::Less, instant(at(18, 1))),
    ];
    let pushed = partition_filters(&filters, Granularity::Day);

    assert_eq!(pushed.len(), 2);
    assert_eq!((pushed[0].side, pushed[0].partition.as_str()), (Side::From, MONDAY));
    assert_eq!((pushed[1].side, pushed[1].partition.as_str()), (Side::Until, TUESDAY));
}

/// Partitions before the epoch, and in leap years, are spelled as the calendar
/// has them.
#[test]
fn partitions_follow_the_calendar() {
    let partition = |at: DateTime<Utc>| {
        derived(&filter(received_at(), Operator::Equal, instant(at))).unwrap().1
    };

    let date = |y, m, d| Utc.with_ymd_and_hms(y, m, d, 23, 59, 59).unwrap();
    assert_eq!(partition(date(1969, 12, 31)), "1969-12-31T00:00:00Z");
    assert_eq!(partition(date(2024, 2, 29)), "2024-02-29T00:00:00Z");
    assert_eq!(partition(date(1900, 3, 1)), "1900-03-01T00:00:00Z");
    assert_eq!(partition(date(10000, 1, 1)), "+10000-01-01T00:00:00Z");
    assert_eq!(partition(date(-1, 1, 1)), "-0001-01-01T00:00:00Z");
}

/// Years of one width come in order as text, so pruning holds beyond the year
/// 9999 too, though not across it.
#[test]
fn years_beyond_four_digits_come_in_order() {
    let partition = |year: i32| {
        let at = Utc.with_ymd_and_hms(year, 8, 17, 9, 0, 0).unwrap();
        derived(&filter(received_at(), Operator::Equal, instant(at))).unwrap().1
    };

    assert_eq!(partition(10_000), "+10000-08-17T00:00:00Z");
    assert_eq!(partition(-1), "-0001-08-17T00:00:00Z");
    assert!(partition(10_000) < partition(10_001));
    assert!(partition(20_000) < partition(99_999));
    assert!(partition(-1) < partition(2026));
    assert!(partition(10_000) < partition(9_999), "not across it");
}
