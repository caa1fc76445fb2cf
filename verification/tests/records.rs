use arrow::array::Array as _;
use arrow::util::display::{ArrayFormatter, FormatOptions};
use chrono::{TimeZone, Utc};
use prism::order::{bytes_less, key_less, same_key, sort_positions, KeyPart};
use prism::record::{Column, Columns, Common, MergeStrategy, Record, RecordBatch, Table};
use prism::spans::{Span, Status};
use prism::types::{Granularity, SpanId, Tags, Timestamp, TraceId};

fn at(hour: u32) -> Timestamp {
    let at = Utc.with_ymd_and_hms(2026, 8, 17, hour, 0, 0).unwrap();
    Timestamp::from_micros(at.timestamp_micros()).unwrap()
}

/// A finished root span, and an unfinished child of it.
fn spans() -> Vec<Span> {
    vec![
        Span {
            common: Common {
                organization_id: "4812".to_string(),
                project_id: "91733".to_string(),
                received_at: at(9),
            },
            span_id: SpanId::from([0xaa; 8]),
            trace_id: TraceId::from([0xcc; 16]),
            parent_span_id: None,
            service: None,
            name: "GET /checkout".to_string(),
            started_at: at(9),
            ended_at: Some(at(10)),
            status: Status::Okay,
            status_message: None,
            tags: Tags::from_iter(vec![("env".to_string(), Some("prod".to_string()))]),
        },
        Span {
            common: Common {
                organization_id: "4812".to_string(),
                project_id: "91733".to_string(),
                received_at: at(9),
            },
            span_id: SpanId::from([0xbb; 8]),
            trace_id: TraceId::from([0xcc; 16]),
            parent_span_id: Some(SpanId::from([0xaa; 8])),
            service: Some("payment".to_string()),
            name: "charge card".to_string(),
            started_at: at(9),
            ended_at: None,
            status: Status::Unset,
            status_message: None,
            tags: Tags::default(),
        },
    ]
}

/// Every value in one column, as text, so a column reads the same however it is
/// typed. Nulls come back as "null".
fn column(batch: &RecordBatch, name: &str) -> Vec<String> {
    let array = batch.inner.column_by_name(name).expect("column exists");
    let options = FormatOptions::default().with_null("null");
    let formatter = ArrayFormatter::try_new(array, &options).unwrap();

    (0..array.len())
        .map(|i| formatter.value(i).to_string())
        .collect()
}

#[test]
fn a_span_becomes_a_row() {
    let batch = Span::to_record_batch(&spans()).unwrap();

    assert_eq!(batch.inner.num_rows(), 2);
    assert_eq!(column(&batch, "span_id"), ["a".repeat(16), "b".repeat(16)]);
    assert_eq!(column(&batch, "name"), ["GET /checkout", "charge card"]);
    assert_eq!(column(&batch, "project_id"), ["91733", "91733"]);
    assert_eq!(column(&batch, "status"), ["ok", "unset"]);
}

#[test]
fn a_span_that_never_finished_has_no_ended_at() {
    let batch = Span::to_record_batch(&spans()).unwrap();

    assert_eq!(column(&batch, "ended_at"), ["2026-08-17T10:00:00Z", "null"]);
    assert_eq!(
        column(&batch, "parent_span_id"),
        ["null".to_string(), "a".repeat(16)]
    );
    assert_eq!(column(&batch, "service"), ["null", "payment"]);
    assert_eq!(column(&batch, "tags"), ["{env: prod}", "{}"]);
    assert_eq!(column(&batch, "trace_id"), ["c".repeat(32), "c".repeat(32)]);
}

/// A schema with the same name twice resolves every lookup to the first, so the
/// second column silently never reads, including a record redeclaring one that
/// every record already holds.
#[test]
#[should_panic(expected = "two columns are declared as `project_id`")]
fn a_name_declared_twice_is_rejected() {
    let columns = vec![
        Column::new::<String>("organization_id"),
        Column::new::<String>("project_id"),
        Column::new::<Timestamp>("received_at"),
        Column::new::<String>("project_id"),
    ];
    if let Err(duplicate) = Columns::new(columns) {
        panic!("{}", duplicate.message());
    }
}

#[test]
fn the_first_repeated_name_is_the_one_reported() {
    let columns = vec![
        Column::new::<String>("a"),
        Column::new::<String>("b"),
        Column::new::<String>("b"),
        Column::new::<String>("a"),
    ];
    assert_eq!(Columns::new(columns).unwrap_err().name, "b");

    let columns = Columns::new(vec![Column::new::<String>("a"), Column::new::<String>("b")]);
    assert_eq!(columns.unwrap().names(), ["a", "b"]);
}

#[test]
fn the_schema_holds_every_column() {
    let schema = Span::schema();
    let names: Vec<&str> = schema.fields().iter().map(|f| f.name().as_str()).collect();

    assert_eq!(
        names,
        [
            "organization_id",
            "project_id",
            "received_at",
            "span_id",
            "trace_id",
            "parent_span_id",
            "service",
            "name",
            "started_at",
            "ended_at",
            "status",
            "status_message",
            "tags"
        ]
    );
    assert!(schema.field_with_name("ended_at").unwrap().is_nullable());
    assert!(!schema.field_with_name("started_at").unwrap().is_nullable());
    assert_eq!(Span::all_columns().len(), 13);
    assert_eq!(
        *Span::to_record_batch(&spans()).unwrap().inner.schema(),
        schema,
        "a batch has the schema the record declares"
    );
}

#[test]
fn a_record_says_how_it_is_stored() {
    assert_eq!(Span::table(), "spans");
    assert_eq!(Span::granularity(), Granularity::Day);
    assert_eq!(
        Span::all_primary_key(),
        ["organization_id", "project_id", "trace_id", "span_id"]
    );
    assert_eq!(
        Span::sort_order(),
        [
            ("organization_id", true),
            ("project_id", true),
            ("trace_id", true),
            ("span_id", true),
            ("received_at", false)
        ]
    );
    assert!(matches!(
        Span::merge(),
        Some(MergeStrategy::Latest { version: "received_at" })
    ));
    assert_eq!(
        Span::directory(at(9)),
        "spans/partition=2026-08-17T00:00:00Z"
    );
}

/// Whatever order rows come in they are sorted by trace, then span, the newest
/// insert of a span first.
#[test]
fn rows_sort_by_key_and_then_newest_first() {
    let mut rows = spans();
    rows.reverse();
    rows.extend(spans());
    rows[2].common.received_at = at(11);

    let sorted = Span::sorted(&rows);
    let ids: Vec<String> = sorted.iter().map(|span| span.span_id.to_string()).collect();
    assert_eq!(ids, ["a".repeat(16), "a".repeat(16), "b".repeat(16), "b".repeat(16)]);
    assert_eq!(sorted[0].common.received_at, at(11));
    assert_eq!(sorted[1].common.received_at, at(9));
}

#[test]
fn keys_order_column_by_column() {
    let key = |text: &str, bytes: &[u8], count: i64| {
        vec![
            KeyPart::Text(text.to_string()),
            KeyPart::Bytes(bytes.to_vec()),
            KeyPart::Descending(count),
        ]
    };

    assert!(key_less(&key("a", &[9], 0), &key("b", &[0], 0)));
    assert!(key_less(&key("a", &[0, 9], 0), &key("a", &[1], 0)));
    assert!(key_less(&key("a", &[1], 7), &key("a", &[1], 6)), "the newest first");
    assert!(!key_less(&key("a", &[1], 7), &key("a", &[1], 7)));
    assert!(same_key(&key("a", &[1], 7), &key("a", &[1], 7)));
    assert!(!same_key(&key("a", &[1], 7), &key("a", &[1], 6)));
    assert!(bytes_less(&[1], &[1, 0]));
    assert!(!bytes_less(&[1, 0], &[1]));

    let keys = vec![key("c", &[], 0), key("a", &[], 0), key("b", &[], 0), key("a", &[], 1)];
    assert_eq!(sort_positions(&keys, &vec![(); 4]), [3, 1, 2, 0]);
}

#[test]
fn a_status_has_a_name() {
    assert_eq!(Status::Unset.as_str(), "unset");
    assert_eq!(Status::Okay.as_str(), "ok");
    assert_eq!(Status::Error.as_str(), "error");
}
