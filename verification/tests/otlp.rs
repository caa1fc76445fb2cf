use chrono::{DateTime, TimeZone, Utc};
use opentelemetry_proto::tonic::collector::trace::v1 as collector;
use opentelemetry_proto::tonic::common::v1 as common;
use opentelemetry_proto::tonic::trace::v1 as wire;
use prism::buffer::{Action, Event, Full, Pending};
use prism::otlp::{
    from_bytes, spans, AnyValue, Attribute, ExportTraceServiceRequest, OtlpSpan, OtlpStatus,
    ResourceSpans, ScopeSpans, Value,
};
use prism::receiver::{answer, read, Reply};
use prism::spans::{Span, Status};
use prism::types::{Tags, Timestamp};
use prost::Message;

fn at(hour: u32) -> DateTime<Utc> {
    Utc.with_ymd_and_hms(2026, 8, 19, hour, 0, 0).unwrap()
}

fn timestamp(at: DateTime<Utc>) -> Timestamp {
    Timestamp::from_micros(at.timestamp_micros()).unwrap()
}

fn resource(spans: Vec<OtlpSpan>) -> ResourceSpans {
    ResourceSpans {
        scope_spans: vec![ScopeSpans { spans }],
    }
}

fn request(spans: Vec<OtlpSpan>) -> ExportTraceServiceRequest {
    ExportTraceServiceRequest {
        resource_spans: vec![resource(spans)],
    }
}

fn attribute(key: &str, value: Option<Value>) -> Attribute {
    Attribute {
        key: key.to_string(),
        value: value.map(|value| AnyValue { value: Some(value) }),
    }
}

fn finished() -> OtlpSpan {
    OtlpSpan {
        trace_id: vec![0xab; 16],
        span_id: vec![0xcd; 8],
        parent_span_id: vec![],
        name: "GET /checkout".to_string(),
        start_time_unix_nano: at(9).timestamp_nanos_opt().unwrap() as u64,
        end_time_unix_nano: at(10).timestamp_nanos_opt().unwrap() as u64,
        status: Some(OtlpStatus {
            code: wire::status::StatusCode::Error as i32,
            message: "card declined".to_string(),
        }),
        attributes: vec![
            attribute("env", Some(Value::StringValue("prod".to_string()))),
            attribute("retries", Some(Value::IntValue(2))),
            attribute("sampled", None),
        ],
    }
}

fn tags(list: &[(&str, Option<&str>)]) -> Tags {
    let list = list
        .iter()
        .map(|(key, value)| (key.to_string(), value.map(str::to_string)))
        .collect();
    Tags::from_iter(list)
}

#[test]
fn a_span_becomes_a_record() {
    let spans = spans(request(vec![finished()]), timestamp(at(11)));
    let span = &spans[0];

    assert_eq!(span.trace_id.to_string(), "ab".repeat(16));
    assert_eq!(span.span_id.to_string(), "cd".repeat(8));
    assert_eq!(span.parent_span_id, None, "no parent is absent, not empty");
    assert_eq!(span.name, "GET /checkout");
    assert_eq!(span.status_message.as_deref(), Some("card declined"));
    assert_eq!(span.status, Status::Error);
    assert_eq!(span.started_at, timestamp(at(9)));
    assert_eq!(span.ended_at, Some(timestamp(at(10))));
    assert_eq!(span.common.received_at, timestamp(at(11)));
    assert_eq!(span.common.organization_id, "1");
    assert_eq!(span.common.project_id, "1");
    assert_eq!(span.service, None);
}

/// Exported before it finished, so it has a start and no end, the case
/// `ended_at` is optional for.
#[test]
fn a_span_still_running_has_no_end() {
    let running = OtlpSpan {
        end_time_unix_nano: 0,
        ..finished()
    };

    let spans = spans(request(vec![running]), timestamp(at(11)));
    assert!(spans[0].ended_at.is_none());
}

/// Attribute values are typed on the wire and text in prism, and one with no
/// value at all is a bare tag rather than a missing one.
#[test]
fn attributes_become_tags() {
    let spans = spans(request(vec![finished()]), timestamp(at(11)));
    let tags = tags(&[
        ("env", Some("prod")),
        ("retries", Some("2")),
        ("sampled", None),
    ]);

    assert_eq!(spans[0].tags, tags);
}

/// Resource and scope say where a span came from, not what it is, so spans
/// under several of them are still just spans.
#[test]
fn every_span_in_the_request_is_returned() {
    let mut request = request(vec![finished(), finished()]);
    request.resource_spans.push(resource(vec![finished(), finished()]));

    assert_eq!(spans(request, timestamp(at(11))).len(), 4);
}

/// Every kind of value, as text or as none.
#[test]
fn every_value_has_its_text() {
    let span = OtlpSpan {
        attributes: vec![
            attribute("yes", Some(Value::BoolValue(true))),
            attribute("no", Some(Value::BoolValue(false))),
            attribute("least", Some(Value::IntValue(i64::MIN))),
            attribute("half", Some(Value::DoubleValue("0.5".to_string()))),
            attribute("bytes", Some(Value::BytesValue(vec![0, 0x0f, 0xf0]))),
            attribute("array", Some(Value::ArrayValue)),
            attribute("list", Some(Value::KvlistValue)),
            attribute("index", Some(Value::StringValueStrindex(3))),
            Attribute {
                key: "empty".to_string(),
                value: Some(AnyValue { value: None }),
            },
        ],
        ..finished()
    };
    let stored = spans(request(vec![span]), timestamp(at(11)));

    assert_eq!(
        stored[0].tags,
        tags(&[
            ("yes", Some("true")),
            ("no", Some("false")),
            ("least", Some("-9223372036854775808")),
            ("half", Some("0.5")),
            ("bytes", Some("000ff0")),
            ("array", None),
            ("list", None),
            ("index", None),
            ("empty", None),
        ])
    );
}

/// An id of the wrong width is no id: the span is dropped, and a parent that is
/// none is absent.
#[test]
fn a_span_without_ids_is_dropped() {
    let wide = OtlpSpan {
        span_id: vec![1; 9],
        ..finished()
    };
    let narrow = OtlpSpan {
        trace_id: vec![1; 15],
        ..finished()
    };
    let orphan = OtlpSpan {
        parent_span_id: vec![1; 7],
        ..finished()
    };
    let child = OtlpSpan {
        parent_span_id: vec![1; 8],
        status: None,
        ..finished()
    };

    let stored = spans(request(vec![wide, narrow, orphan, child]), timestamp(at(11)));
    assert_eq!(stored.len(), 2);
    assert_eq!(stored[0].parent_span_id, None);
    assert_eq!(stored[1].parent_span_id.unwrap().to_string(), "01".repeat(8));
    assert_eq!(stored[1].status, Status::Unset);
    assert_eq!(stored[1].status_message, None);
}

#[test]
fn a_status_code_without_a_name_says_nothing() {
    let with_code = |code: i32| OtlpSpan {
        status: Some(OtlpStatus {
            code,
            message: String::new(),
        }),
        ..finished()
    };
    let codes = vec![with_code(0), with_code(1), with_code(2), with_code(3)];
    let stored = spans(request(codes), timestamp(at(11)));
    let statuses: Vec<Status> = stored.iter().map(|span| span.status).collect();

    assert_eq!(
        statuses,
        [Status::Unset, Status::Okay, Status::Error, Status::Unset]
    );
    assert_eq!(stored[0].status_message, None);
}

/// A count past what a signed one holds wraps round to before the epoch.
#[test]
fn a_start_out_of_range_wraps() {
    let late = OtlpSpan {
        start_time_unix_nano: u64::MAX,
        ..finished()
    };
    let stored = spans(request(vec![late]), timestamp(at(11)));

    assert_eq!(stored[0].started_at, Timestamp::from_nanos(-1));
}

fn exported() -> Vec<u8> {
    let value = |value| {
        Some(common::AnyValue {
            value: Some(value),
        })
    };
    let attribute = |key: &str, value| common::KeyValue {
        key: key.to_string(),
        value,
        ..Default::default()
    };
    collector::ExportTraceServiceRequest {
        resource_spans: vec![wire::ResourceSpans {
            scope_spans: vec![wire::ScopeSpans {
                spans: vec![wire::Span {
                    trace_id: vec![0xab; 16],
                    span_id: vec![0xcd; 8],
                    parent_span_id: vec![0xef; 8],
                    name: "GET /checkout".to_string(),
                    start_time_unix_nano: 5_000,
                    end_time_unix_nano: 7_000,
                    status: Some(wire::Status {
                        code: 1,
                        message: "fine".to_string(),
                    }),
                    attributes: vec![
                        attribute("text", value(common::any_value::Value::StringValue("t".to_string()))),
                        attribute("flag", value(common::any_value::Value::BoolValue(true))),
                        attribute("count", value(common::any_value::Value::IntValue(-3))),
                        attribute("ratio", value(common::any_value::Value::DoubleValue(1.25))),
                        attribute("raw", value(common::any_value::Value::BytesValue(vec![0xbe, 0xef]))),
                        attribute(
                            "array",
                            value(common::any_value::Value::ArrayValue(common::ArrayValue::default())),
                        ),
                        attribute("bare", None),
                    ],
                    ..Default::default()
                }],
                ..Default::default()
            }],
            ..Default::default()
        }],
    }
    .encode_to_vec()
}

/// Everything that is sent is what is read.
#[test]
fn a_body_reads_back() {
    let rows = from_bytes(&exported(), timestamp(at(11))).unwrap();

    assert_eq!(rows.len(), 1);
    assert_eq!(rows[0].trace_id.to_string(), "ab".repeat(16));
    assert_eq!(rows[0].span_id.to_string(), "cd".repeat(8));
    assert_eq!(rows[0].parent_span_id.unwrap().to_string(), "ef".repeat(8));
    assert_eq!(rows[0].name, "GET /checkout");
    assert_eq!(rows[0].started_at, Timestamp::from_nanos(5_000));
    assert_eq!(rows[0].ended_at, Some(Timestamp::from_nanos(7_000)));
    assert_eq!(rows[0].status, Status::Okay);
    assert_eq!(rows[0].status_message, None);
    assert_eq!(
        rows[0].tags,
        tags(&[
            ("text", Some("t")),
            ("flag", Some("true")),
            ("count", Some("-3")),
            ("ratio", Some("1.25")),
            ("raw", Some("beef")),
            ("array", None),
            ("bare", None),
        ])
    );
}

/// What a sender is told is the whole contract: accepted, or keep it.
#[test]
fn a_request_becomes_a_file() {
    let rows = read(&exported(), timestamp(at(11))).unwrap();
    let mut pending: Pending<Span> = Pending::new();

    assert_eq!(pending.handle(Event::Rows(rows), 0), Action::Wait);
    assert!(matches!(
        answer(Ok(())),
        Reply::Accepted {
            status: 200,
            content_type: "application/x-protobuf"
        }
    ));

    // Too few spans to be worth a file, so shutting down is what stores it.
    assert_eq!(pending.handle(Event::Closed, 0), Action::Finish);
    let batch = pending.next_write().unwrap().unwrap();
    assert_eq!(batch.rows.inner.num_rows(), 1);
    assert!(batch.location().as_ref().starts_with("spans/"));
    pending.written();
    assert!(pending.next_write().is_none());
}

/// A body prism cannot read is the sender's mistake, and no amount of retrying
/// will fix it.
#[test]
fn a_body_that_is_not_otlp_is_refused() {
    let error = collector::ExportTraceServiceRequest::decode(&b"not protobuf"[..]).unwrap_err();

    match read(b"not protobuf", timestamp(at(11))) {
        Err(Reply::Refused { status, message }) => {
            assert_eq!(status, 400);
            assert_eq!(message, error.to_string());
        }
        _ => panic!("a body that is no request was taken"),
    }
}

#[test]
fn a_full_queue_is_said_to_be_full() {
    match answer(Err(Full)) {
        Reply::Refused { status, message } => {
            assert_eq!(status, 503);
            assert_eq!(message, "ingest queue is full");
        }
        _ => panic!("a full queue took a batch"),
    }
}

/// A message says why a span failed, so it is kept of one that did alone.
#[test]
fn a_message_is_only_kept_with_an_error() {
    let said = |code: i32| {
        let status = Some(OtlpStatus { code, message: "fine".to_string() });
        let stored = spans(request(vec![OtlpSpan { status, ..finished() }]), timestamp(at(11)));
        (stored[0].status, stored[0].status_message.clone())
    };

    assert_eq!(said(0), (Status::Unset, None));
    assert_eq!(said(1), (Status::Okay, None));
    assert_eq!(said(2), (Status::Error, Some("fine".to_string())));
    assert_eq!(said(3), (Status::Unset, None));
}
