use chrono::{DateTime, TimeZone, Utc};
use prism::buffer::{
    Action, Event, Full, Pending, FLUSH_MAX_AGE, FLUSH_MAX_ROWS, PENDING_MAX_ROWS, QUEUE_CAPACITY,
    TICK,
};
use prism::record::Common;
use prism::spans::{Span, Status};
use prism::types::{SpanId, Tags, Timestamp, TraceId};

fn timestamp(at: DateTime<Utc>) -> Timestamp {
    Timestamp::from_micros(at.timestamp_micros()).unwrap()
}

fn span(received_at: DateTime<Utc>) -> Span {
    Span {
        common: Common {
            organization_id: "4812".to_string(),
            project_id: "91733".to_string(),
            received_at: timestamp(received_at),
        },
        span_id: SpanId::from([0xaa; 8]),
        trace_id: TraceId::from([0xcc; 16]),
        parent_span_id: None,
        service: None,
        name: "GET /checkout".to_string(),
        started_at: timestamp(received_at),
        ended_at: None,
        status: Status::Okay,
        status_message: None,
        tags: Tags::default(),
    }
}

fn at(day: u32) -> DateTime<Utc> {
    Utc.with_ymd_and_hms(2026, 8, day, 9, 0, 0).unwrap()
}

/// Writes everything, and answers where.
fn flush(pending: &mut Pending<Span>) -> Vec<String> {
    let mut stored = Vec::new();
    while let Some(batch) = pending.next_write() {
        stored.push(batch.unwrap().location().to_string());
        pending.written();
    }
    stored
}

/// Nothing is worth writing until there is enough of it.
#[test]
fn a_buffer_fills_before_it_is_worth_flushing() {
    let mut pending: Pending<Span> = Pending::new();

    assert!(!pending.should_flush(0), "empty");

    pending.add(span(at(17)), 0);
    assert!(!pending.should_flush(0), "one row is not a file");
}

/// A trickle still has to reach a reader, so waiting is what ends the wait.
#[test]
fn a_row_waiting_long_enough_is_worth_flushing() {
    let mut pending: Pending<Span> = Pending::new();

    pending.add(span(at(17)), 5);

    assert!(pending.should_flush(5 + FLUSH_MAX_AGE));
    assert!(!pending.should_flush(4 + FLUSH_MAX_AGE));
    assert!(!pending.should_flush(0), "a clock that went back");
}

#[test]
fn enough_rows_are_worth_flushing() {
    let mut pending: Pending<Span> = Pending::new();

    for _ in 0..FLUSH_MAX_ROWS - 1 {
        pending.add(span(at(17)), 0);
    }
    assert!(!pending.should_flush(0));

    pending.add(span(at(17)), 0);
    assert_eq!(pending.rows(), FLUSH_MAX_ROWS);
    assert!(pending.should_flush(0));
}

#[test]
fn flush_writes_one_object_per_partition() {
    let mut pending: Pending<Span> = Pending::new();

    pending.add(span(at(18)), 0);
    pending.add(span(at(17)), 0);
    pending.add(span(at(17)), 0);

    let stored = flush(&mut pending);

    assert_eq!(stored.len(), 2);
    assert!(stored[0].starts_with("spans/partition=2026-08-17T00:00:00Z/"), "earliest first");
    assert!(stored[1].starts_with("spans/partition=2026-08-18T00:00:00Z/"));
    assert_eq!(pending.rows(), 0);
}

/// Too few rows to be worth a file, and no wait long enough to force one:
/// shutdown is what gets them stored.
#[test]
fn shutdown_writes_what_is_still_pending() {
    let mut pending: Pending<Span> = Pending::new();

    let rows = vec![span(at(17)), span(at(17))];
    assert_eq!(pending.handle(Event::Rows(rows), 0), Action::Wait);
    assert_eq!(pending.handle(Event::Tick, TICK), Action::Wait);
    assert_eq!(pending.handle(Event::Closed, TICK), Action::Finish);

    assert_eq!(flush(&mut pending).len(), 1);
}

/// Writes that keep failing would otherwise pile up in memory while the queue
/// drains, leaving senders with no sign that nothing is stored.
#[test]
fn a_store_that_takes_nothing_turns_senders_away() {
    let mut pending: Pending<Span> = Pending::new();

    let waiting = (0..PENDING_MAX_ROWS).map(|_| span(at(17))).collect();
    assert!(pending.accepts(false));
    assert_eq!(pending.handle(Event::Rows(waiting), 0), Action::Flush);

    assert!(pending.is_full());
    assert!(!pending.accepts(false), "left queued instead");
    assert!(pending.accepts(true), "no one is left to turn away");
}

/// A failed write leaves the rows held, under the name they had, and the clock
/// running.
#[test]
fn a_failed_write_is_tried_again_under_its_name() {
    let mut pending: Pending<Span> = Pending::new();
    pending.add(span(at(17)), 0);
    pending.add(span(at(18)), 3);

    let first = pending.next_write().unwrap().unwrap();
    pending.add(span(at(17)), 4);
    let again = pending.next_write().unwrap().unwrap();

    assert_eq!(first.file_id, again.file_id);
    assert_eq!(first.location(), again.location());
    assert_eq!(again.rows.inner.num_rows(), 2);
    assert!(pending.should_flush(FLUSH_MAX_AGE));

    pending.written();
    assert!(pending.should_flush(FLUSH_MAX_AGE), "another is still held");
    pending.written();
    assert!(!pending.should_flush(FLUSH_MAX_AGE), "the clock stopped");
}

#[test]
fn rows_wait_until_they_are_worth_writing() {
    let mut pending: Pending<Span> = Pending::new();

    assert_eq!(pending.handle(Event::Rows(Vec::new()), 0), Action::Wait);
    assert_eq!(pending.handle(Event::Tick, 100 * FLUSH_MAX_AGE), Action::Wait, "nothing held");
    assert_eq!(pending.handle(Event::Rows(vec![span(at(17))]), 7), Action::Wait);
    assert_eq!(pending.handle(Event::Tick, 7 + FLUSH_MAX_AGE), Action::Flush);
    assert_eq!(QUEUE_CAPACITY, 64);
    assert_eq!(Full.message(), "ingest queue is full");
}
