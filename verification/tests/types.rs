use arrow::array::{Array as _, MapArray, StringArray};
use chrono::{DateTime, TimeZone, Utc};
use prism::arrays::{utc_timestamp, Array, ArrowField, DataType};
use prism::types::{Granularity, Id, SpanId, Tags, TimePartitioned, Timestamp, TraceId};

fn timestamp(at: DateTime<Utc>) -> Timestamp {
    Timestamp::new(at.timestamp(), at.timestamp_subsec_nanos()).unwrap()
}

fn tags(list: &[(&str, Option<&str>)]) -> Tags {
    let list = list
        .iter()
        .map(|(key, value)| (key.to_string(), value.map(str::to_string)))
        .collect();
    Tags::from_iter(list)
}

#[test]
fn partition_start_truncates_to_granularity() {
    let ts = timestamp(Utc.with_ymd_and_hms(2026, 8, 2, 14, 37, 22).unwrap());

    assert_eq!(
        ts.partition_start(Granularity::Day),
        timestamp(Utc.with_ymd_and_hms(2026, 8, 2, 0, 0, 0).unwrap())
    );
}

/// Before the epoch a partition still starts at the midnight before.
#[test]
fn partition_start_floors_before_the_epoch() {
    let ts = timestamp(Utc.with_ymd_and_hms(1969, 12, 31, 23, 59, 59).unwrap());

    assert_eq!(
        ts.partition_start(Granularity::Day),
        timestamp(Utc.with_ymd_and_hms(1969, 12, 31, 0, 0, 0).unwrap())
    );
    assert_eq!(Granularity::Day.duration(), 86_400);
}

/// A partition starts in itself, and holds what is a nanosecond short of the
/// next.
#[test]
fn a_partition_holds_its_last_nanosecond() {
    let midnight = Timestamp::new(86_400, 0).unwrap();
    let last = Timestamp::new(2 * 86_400 - 1, 999_999_999).unwrap();

    assert_eq!(last.partition_start(Granularity::Day), midnight);
    assert_eq!(midnight.partition_start(Granularity::Day), midnight);
    assert!(midnight.is_before(&last));
    assert!(!last.is_before(&midnight));
}

#[test]
fn a_timestamp_is_held_only_in_range() {
    assert!(Timestamp::new(8_210_266_876_799, 999_999_999).is_some());
    assert!(Timestamp::new(8_210_266_876_800, 0).is_none());
    assert!(Timestamp::new(-8_334_601_228_800, 0).is_some());
    assert!(Timestamp::new(-8_334_601_228_801, 0).is_none());
    assert!(Timestamp::new(0, 1_000_000_000).is_none());
    assert_eq!(
        DateTime::<Utc>::MAX_UTC.timestamp(),
        8_210_266_876_799,
        "the range is chrono's"
    );
    assert_eq!(DateTime::<Utc>::MIN_UTC.timestamp(), -8_334_601_228_800);
}

#[test]
fn counts_of_time_become_instants() {
    let before = Timestamp::from_nanos(-1);
    assert_eq!(before.seconds(), -1);
    assert_eq!(before.subsec_nanos(), 999_999_999);
    assert_eq!(before.micros(), -1);

    let after = Timestamp::from_micros(1_500_001).unwrap();
    assert_eq!(after.seconds(), 1);
    assert_eq!(after.subsec_nanos(), 500_001_000);
    assert_eq!(after.micros(), 1_500_001);
    assert!(Timestamp::from_micros(i64::MAX).is_none());

    assert_eq!(after.plus_millis(-1_501).seconds(), -1);
    assert_eq!(after.plus_millis(-1_501).subsec_nanos(), 999_001_000);
}

/// Whether a field is optional decides only that its column is nullable, never
/// what type it holds.
#[test]
fn option_keeps_the_inner_data_type() {
    assert_eq!(<Option<Timestamp>>::data_type(), Timestamp::data_type());
    assert_eq!(Timestamp::data_type(), utc_timestamp());
    assert!(<Option<Timestamp>>::nullable());
    assert!(!Timestamp::nullable());
    assert_eq!(TraceId::data_type(), DataType::FixedSizeBinary(16));
}

/// A `None` field, `ended_at` on a span that never finished, is a null in the
/// column, at that row, leaving the values around it untouched.
#[test]
fn none_becomes_null() {
    let at = Utc::now();
    let values = [Some(timestamp(at)), None];

    let Array::Timestamp(array) = <Option<Timestamp>>::build_array(&values.iter().map(Some).collect())
    else {
        panic!("an optional timestamp column is still a timestamp column");
    };
    let timestamps = array.inner;

    assert_eq!(timestamps.len(), 2);
    assert_eq!(timestamps.null_count(), 1);
    assert!(timestamps.is_null(1));
    assert_eq!(timestamps.value(0), at.timestamp_micros());
    assert_eq!(timestamps.timezone(), Some("UTC"));
}

fn map(tags: &[&Tags]) -> MapArray {
    let rows = tags.iter().copied().map(Some).collect();
    match Tags::build_array(&rows) {
        Array::Entries(array) => array,
        _ => panic!("a map column"),
    }
}

/// Sorted on the way in, so two records with the same tags in a different
/// order encode to the same bytes.
#[test]
fn tags_encode_in_key_order() {
    let tags = tags(&[("b", Some("2")), ("a", Some("1"))]);
    let keys = map(&[&tags]);
    let keys = keys
        .keys()
        .as_any()
        .downcast_ref::<StringArray>()
        .expect("string keys");

    assert_eq!(keys.value(0), "a");
    assert_eq!(keys.value(1), "b");
}

/// The same tags are the same, in whatever order they were given, and a key
/// given twice has the later value.
#[test]
fn the_same_tags_are_equal() {
    let one = tags(&[("b", Some("2")), ("a", Some("0")), ("a", Some("1"))]);
    let other = tags(&[("a", Some("1")), ("b", Some("2"))]);

    assert_eq!(one, other);
    assert_eq!(one.len(), 2);
    assert_eq!(one.key(0), "a");
    assert_eq!(one.value(0), Some("1"));
    assert_eq!(one.clone(), other);
    assert_ne!(one, Tags::default());
}

/// A bare tag is a key with no value, which is not the same as the key being
/// absent.
#[test]
fn a_tag_can_have_no_value() {
    let tags = tags(&[("bare", None), ("set", Some("1"))]);
    let values = map(&[&tags]);
    let values = values
        .values()
        .as_any()
        .downcast_ref::<StringArray>()
        .unwrap();

    assert!(values.is_null(0), "the bare tag has no value");
    assert_eq!(values.value(1), "1");
}

/// One entry per row whatever its tag count, so a row with none is an empty
/// map rather than one that borrowed the next row's entries.
#[test]
fn a_row_without_tags_is_an_empty_map() {
    let tagged = tags(&[("a", Some("1"))]);
    let rows = map(&[&Tags::default(), &tagged]);

    assert_eq!(rows.len(), 2);
    assert_eq!(rows.value_length(0), 0);
    assert_eq!(rows.value_length(1), 1);
}

#[test]
fn an_id_is_written_in_hex() {
    assert_eq!(SpanId::from([0, 1, 2, 3, 0xfc, 0xfd, 0xfe, 0xff]).to_string(), "00010203fcfdfeff");
    assert_eq!(Id::<2>::from_slice(&[0xab, 0xcd]), Some(Id([0xab, 0xcd])));
    assert_eq!(Id::<2>::from_slice(&[0xab]), None);
    assert_eq!(Id::<2>::from_slice(&[0xab, 0xcd, 0xef]), None);
    assert_eq!(Id([1, 2, 3]).bytes(), vec![1, 2, 3]);
}

/// Ids and absent ids become fixed-width values and nulls.
#[test]
fn an_absent_id_is_a_null() {
    let values = [Some(SpanId::from([7; 8])), None];
    let Array::Binary(array) = <Option<SpanId>>::build_array(&values.iter().map(Some).collect())
    else {
        panic!("a fixed-width column");
    };

    assert_eq!(array.value_length(), 8);
    assert_eq!(array.value(0), [7; 8]);
    assert!(array.is_null(1));
}

/// Tags that are not there at all are a null, which is not the same as there
/// being none of them.
#[test]
fn absent_tags_are_a_null() {
    let values = [Some(tags(&[("a", Some("1"))])), None, Some(Tags::default())];
    let Array::Entries(array) = <Option<Tags>>::build_array(&values.iter().map(Some).collect())
    else {
        panic!("a map column");
    };

    assert_eq!(array.len(), 3);
    assert!(!array.is_null(0));
    assert_eq!(array.value_length(0), 1);
    assert!(array.is_null(1));
    assert!(!array.is_null(2));
    assert_eq!(array.value_length(2), 0);
}

/// The same tags in another order are the same column.
#[test]
fn tags_in_any_order_make_one_column() {
    let one = tags(&[("b", Some("2")), ("a", None), ("c", Some(""))]);
    let other = tags(&[("c", Some("")), ("b", Some("2")), ("a", None)]);

    assert_eq!(map(&[&one]), map(&[&other]));
}
