use std::sync::Arc;

use arrow::array::{
    BooleanArray, Array, FixedSizeBinaryArray, MapArray, RecordBatch, StringArray, UnionArray,
};
use arrow::datatypes::{DataType, Field, Schema, UnionFields, UnionMode};
use axum::body::Bytes;
use chrono::{DateTime, TimeZone, Utc};
use object_store::path::Path;
use parquet::arrow::arrow_reader::ParquetRecordBatchReaderBuilder;
use prism::api::{failed, frame, json, refused, Reply};
use prism::buffer::Pending;
use prism::catalog::{merged_sql, merged_table, registration, table_url};
use prism::objects::ObjectWriter;
use prism::record::{Common, Table};
use prism::spans::{Span, Status};
use prism::types::{Granularity, SpanId, Tags, Timestamp, TraceId};

fn span_id(label: &str) -> SpanId {
    let mut bytes = [0; 8];
    assert!(
        label.len() <= bytes.len(),
        "a span id label is 8 bytes at most"
    );
    bytes[..label.len()].copy_from_slice(label.as_bytes());
    SpanId::from(bytes)
}

fn trace_id(label: &str) -> TraceId {
    let mut bytes = [0; 16];
    assert!(
        label.len() <= bytes.len(),
        "a trace id label is 16 bytes at most"
    );
    bytes[..label.len()].copy_from_slice(label.as_bytes());
    TraceId::from(bytes)
}

fn label(bytes: &[u8]) -> String {
    String::from_utf8_lossy(bytes)
        .trim_end_matches('\0')
        .to_string()
}

fn at(day: u32, hour: u32) -> DateTime<Utc> {
    Utc.with_ymd_and_hms(2026, 8, day, hour, 0, 0).unwrap()
}

fn timestamp(at: DateTime<Utc>) -> Timestamp {
    Timestamp::from_micros(at.timestamp_micros()).unwrap()
}

fn span(trace: &str, span_id_label: &str, started_at: DateTime<Utc>) -> Span {
    Span {
        common: Common {
            organization_id: "4812".to_string(),
            project_id: "91733".to_string(),
            received_at: timestamp(started_at),
        },
        span_id: span_id(span_id_label),
        trace_id: trace_id(trace),
        parent_span_id: None,
        service: Some("checkout".to_string()),
        name: "GET /checkout".to_string(),
        started_at: timestamp(started_at),
        ended_at: None,
        status: Status::Okay,
        status_message: None,
        tags: Tags::default(),
    }
}

/// Every file the spans are written as, by where it is.
fn written(spans: Vec<Span>) -> Vec<(String, Vec<u8>)> {
    let mut pending: Pending<Span> = Pending::new();
    pending.add_all(spans, 0);

    let mut files = Vec::new();
    while let Some(batch) = pending.next_write() {
        let batch = batch.unwrap();
        let object = batch.object().unwrap();
        assert_eq!(object.path, batch.location());
        files.push((object.path.to_string(), object.bytes));
        pending.written();
    }
    files
}

fn rows(bytes: &[u8]) -> RecordBatch {
    let reader = ParquetRecordBatchReaderBuilder::try_new(Bytes::from(bytes.to_vec()))
        .unwrap()
        .build()
        .unwrap();
    let batches: Vec<RecordBatch> = reader.map(|batch| batch.unwrap()).collect();
    assert_eq!(batches.len(), 1);
    batches[0].clone()
}

fn span_ids(batch: &RecordBatch) -> Vec<String> {
    let ids = batch
        .column_by_name("span_id")
        .unwrap()
        .as_any()
        .downcast_ref::<FixedSizeBinaryArray>()
        .unwrap();
    (0..ids.len()).map(|i| label(ids.value(i))).collect()
}

fn texts(batch: &RecordBatch, name: &str) -> Vec<String> {
    let values = batch
        .column_by_name(name)
        .unwrap()
        .as_any()
        .downcast_ref::<StringArray>()
        .unwrap();
    values.iter().map(|value| value.unwrap().to_string()).collect()
}

#[test]
fn a_written_span_reads_back() {
    let files = written(vec![span("ccc", "a1", at(17, 9))]);
    assert_eq!(files.len(), 1);
    let batch = rows(&files[0].1);

    assert_eq!(span_ids(&batch), ["a1"]);
    assert_eq!(texts(&batch, "name"), ["GET /checkout"]);
    assert_eq!(texts(&batch, "status"), ["ok"]);
    assert_eq!(texts(&batch, "service"), ["checkout"]);
    assert_eq!(span_id("a1").to_string(), "6131000000000000");
}

/// Rows are written in primary key order, trace, then span, so one trace's
/// spans are contiguous and a span's own rows sit together.
#[test]
fn rows_are_stored_in_sort_order() {
    let files = written(vec![
        span("bbb", "b2", at(17, 11)),
        span("aaa", "a1", at(17, 9)),
        span("bbb", "b1", at(17, 10)),
    ]);

    assert_eq!(span_ids(&rows(&files[0].1)), ["a1", "b1", "b2"]);
}

/// The partition is recovered from the path, so it is a column a query can
/// filter on without it ever being written into a file.
#[test]
fn the_partition_is_a_column() {
    let files = written(vec![
        span("aaa", "monday", at(17, 9)),
        span("aaa", "tuesday", at(18, 9)),
    ]);

    let monday: Vec<_> = files
        .iter()
        .filter(|(path, _)| path.starts_with("spans/partition=2026-08-17T00:00:00Z/"))
        .collect();
    assert_eq!(monday.len(), 1);
    let batch = rows(&monday[0].1);
    assert_eq!(span_ids(&batch), ["monday"]);
    assert!(batch.column_by_name("partition").is_none());
}

/// Tags survive the round trip, and a bare one, set with no value, is still
/// distinguishable from a tag that was never set.
#[test]
fn tags_read_back() {
    let mut tagged = span("aaa", "tagged", at(17, 9));
    tagged.tags = Tags::from_iter(vec![
        ("env".to_string(), Some("prod".to_string())),
        ("blank".to_string(), Some(String::new())),
        ("production".to_string(), None),
    ]);
    let files = written(vec![tagged]);
    let batch = rows(&files[0].1);

    let tags = batch
        .column_by_name("tags")
        .unwrap()
        .as_any()
        .downcast_ref::<MapArray>()
        .unwrap();
    let keys = tags.keys().as_any().downcast_ref::<StringArray>().unwrap();
    let values = tags.values().as_any().downcast_ref::<StringArray>().unwrap();
    let read: Vec<(Option<&str>, Option<&str>)> = keys.iter().zip(values.iter()).collect();
    assert_eq!(
        read,
        [
            (Some("blank"), Some("")),
            (Some("env"), Some("prod")),
            (Some("production"), None)
        ]
    );
}

/// Both inserts of a span are stored, the newest first.
#[test]
fn both_inserts_are_stored() {
    let mut finished = span("aaa", "s1", at(17, 9));
    finished.common.received_at = timestamp(at(17, 10));
    finished.ended_at = Some(timestamp(at(17, 10)));

    let files = written(vec![span("aaa", "s1", at(17, 9)), finished]);
    let batch = rows(&files[0].1);
    assert_eq!(span_ids(&batch), ["s1", "s1"]);
    let ended = batch.column_by_name("ended_at").unwrap();
    assert!(!ended.is_null(0), "the newest insert comes first");
    assert!(ended.is_null(1));
}

/// The merged table ranks each key's rows within a partition.
#[test]
fn the_merged_table_ranks_by_arrival() {
    assert_eq!(
        merged_sql::<Span>().unwrap(),
        "select organization_id, project_id, received_at, span_id, trace_id, parent_span_id, \
         service, name, started_at, ended_at, status, status_message, tags, partition from ( \
         select organization_id, project_id, received_at, span_id, trace_id, parent_span_id, \
         service, name, started_at, ended_at, status, status_message, tags, partition, \
         row_number() over (partition by organization_id, project_id, trace_id, span_id, \
         partition order by received_at desc) as merge_rank from spans ) where merge_rank = 1"
    );
    assert_eq!(merged_table::<Span>(), "spans_merged");
    assert_eq!(table_url::<Span>(), "prism://store/spans/");
}

#[test]
fn a_record_is_registered_as_two_tables() {
    let registration = registration::<Span>();

    assert_eq!(registration.table, "spans");
    assert_eq!(registration.url, "prism://store/spans/");
    assert_eq!(registration.extension, ".parquet");
    assert_eq!(registration.order, Span::sort_order());
    assert_eq!(registration.partition_column, "partition");
    assert_eq!(registration.granularity, Granularity::Day);
    let merged = registration.merged.unwrap();
    assert_eq!(merged.name, "spans_merged");
    assert_eq!(merged.sql, merged_sql::<Span>().unwrap());
}

fn body(reply: Reply) -> String {
    match reply {
        Reply::Rows {
            status,
            content_type,
            body,
        } => {
            assert_eq!(status, 200);
            assert_eq!(content_type, "application/json");
            String::from_utf8(body).unwrap()
        }
        Reply::Failed { message, .. } => panic!("{message}"),
    }
}

/// Rows go beside what the store says of answering.
#[test]
fn rows_become_json() {
    let batch = Span::to_record_batch(&[span("aaa", "a1", at(17, 9))]).unwrap();
    let text = body(json(&vec![batch], "1.5"));

    assert!(text.starts_with("{\"rows\":[{\"organization_id\":\"4812\","), "{text}");
    assert!(text.contains("\"span_id\":\"6131000000000000\""), "{text}");
    assert!(text.contains("\"received_at\":\"2026-08-17T09:00:00Z\""), "{text}");
    assert!(text.ends_with("}],\"elapsed_ms\":1.5}"), "{text}");
}

/// A query matching nothing is an array with nothing in it.
#[test]
fn no_rows_are_an_empty_array() {
    assert_eq!(body(json(&Vec::new(), "0.0")), "{\"rows\":[],\"elapsed_ms\":0.0}");
    let empty = Span::to_record_batch(&[]).unwrap();
    assert_eq!(body(json(&vec![empty], "2.0")), "{\"rows\":[],\"elapsed_ms\":2.0}");
    assert_eq!(frame(Vec::new(), "3.1"), b"{\"rows\":[],\"elapsed_ms\":3.1}");
    assert_eq!(frame(b"[1]".to_vec(), "3.1"), b"{\"rows\":[1],\"elapsed_ms\":3.1}");
}

#[test]
fn a_query_that_will_not_run_is_answered_with_why() {
    match refused("no such table".to_string()) {
        Reply::Failed { status, message } => {
            assert_eq!(status, 400);
            assert_eq!(message, "no such table");
        }
        _ => panic!("a query that will not run had rows"),
    }
}

/// A column JSON has no form for is the server's fault, not the caller's.
#[test]
fn a_column_json_cannot_hold_fails() {
    let fields = UnionFields::try_new(vec![0], vec![Field::new("a", DataType::Utf8, true)]).unwrap();
    let values: Arc<dyn Array> = Arc::new(StringArray::from(vec!["x"]));
    let union = UnionArray::try_new(fields.clone(), vec![0].into(), None, vec![values]).unwrap();
    let schema = Schema::new(vec![Field::new(
        "u",
        DataType::Union(fields, UnionMode::Sparse),
        false,
    )]);
    let inner = RecordBatch::try_new(Arc::new(schema), vec![Arc::new(union)]).unwrap();

    match json(&vec![prism::record::RecordBatch { inner }], "0.0") {
        Reply::Failed { status, message } => {
            assert_eq!(status, 500);
            assert!(!message.is_empty());
        }
        Reply::Rows { body, .. } => panic!("{}", String::from_utf8(body).unwrap()),
    }
}

#[test]
fn a_batch_of_another_type_is_refused() {
    let mut writer =
        ObjectWriter::new(Path::from("spans/a.parquet"), Span::schema()).unwrap();
    let schema = Schema::new(vec![Field::new("organization_id", DataType::Boolean, false)]);
    let column = BooleanArray::from(vec![true]);
    let inner = RecordBatch::try_new(Arc::new(schema), vec![Arc::new(column)]).unwrap();

    assert!(writer.write(&prism::record::RecordBatch { inner }).is_err());
}

#[test]
fn a_file_with_no_rows_is_still_a_file() {
    let writer = ObjectWriter::new(Path::from("spans/a.parquet"), Span::schema()).unwrap();
    let object = writer.finish().unwrap();

    assert_eq!(object.path, Path::from("spans/a.parquet"));
    let builder = ParquetRecordBatchReaderBuilder::try_new(Bytes::from(object.bytes)).unwrap();
    assert_eq!(builder.metadata().num_row_groups(), 0);
    assert_eq!(builder.schema().fields(), Span::schema().fields());
}

/// A batch asked again for its file gives the same one, so a retry overwrites.
#[test]
fn a_retry_gives_the_same_file() {
    let mut pending = Pending::new();
    pending.add(span("aaa", "root", at(17, 9)), 0);

    let first = pending.next_write().unwrap().unwrap();
    let again = pending.next_write().unwrap().unwrap();
    let (one, other) = (first.object().unwrap(), first.object().unwrap());
    assert_eq!(one.path, other.path);
    assert_eq!(one.bytes, other.bytes);
    assert_eq!(again.object().unwrap().path, one.path, "the rows are still held");
    assert_eq!(again.object().unwrap().bytes, one.bytes);
}

#[test]
fn rows_that_cannot_be_written_are_answered_with_why() {
    match failed("no form for it".to_string()) {
        Reply::Failed { status, message } => {
            assert_eq!(status, 500);
            assert_eq!(message, "no form for it");
        }
        Reply::Rows { .. } => panic!("a failure"),
    }
}

/// A batch of more rows than a row group has fills as many as it takes, and
/// loses none on the way.
#[test]
fn a_large_batch_fills_several_row_groups() {
    let rows: Vec<Span> = (0..25_000)
        .map(|i| {
            let mut row = span("aaa", "root", at(17, 9));
            row.span_id = SpanId::from((i as u64).to_be_bytes());
            row
        })
        .collect();
    let batch = Span::to_record_batch(&rows).unwrap();
    let mut writer = ObjectWriter::new(Path::from("spans/a.parquet"), Span::schema()).unwrap();
    writer.write(&batch).unwrap();

    let bytes = Bytes::from(writer.finish().unwrap().bytes);
    let builder = ParquetRecordBatchReaderBuilder::try_new(bytes).unwrap();
    let groups: Vec<i64> = builder.metadata().row_groups().iter().map(|group| group.num_rows()).collect();
    assert_eq!(groups, [10_000, 10_000, 5_000]);
    let mut read = 0u64;
    for batch in builder.build().unwrap() {
        let batch = batch.unwrap();
        let ids = batch.column_by_name("span_id").unwrap();
        let ids = ids.as_any().downcast_ref::<FixedSizeBinaryArray>().unwrap();
        for row in 0..batch.num_rows() {
            assert_eq!(ids.value(row), read.to_be_bytes());
            read += 1;
        }
    }
    assert_eq!(read, 25_000);
}
