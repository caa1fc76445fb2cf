use axum::body::Bytes;
use chrono::{DateTime, TimeZone, Utc};
use object_store::path::Path;
use parquet::arrow::arrow_reader::ParquetRecordBatchReaderBuilder;
use prism::compact::{closed_partitions, next_batch, plan, plan_for, Collapse, Compaction};
use prism::merged::{split_live, superseded, ObjectMeta};
use prism::objects::ObjectWriter;
use prism::record::{Common, Table};
use prism::spans::{Span, Status};
use prism::types::{SpanId, Tags, Timestamp, TraceId};
use uuid::Uuid;

/// Ids are bytes, and a test wants to read them: a short label padded out is
/// legible in a fixture and comes back as itself.
fn span_id(label: &str) -> SpanId {
    let mut bytes = [0; 8];
    bytes[..label.len()].copy_from_slice(label.as_bytes());
    SpanId::from(bytes)
}

fn at(hour: u32) -> DateTime<Utc> {
    Utc.with_ymd_and_hms(2026, 8, 17, hour, 0, 0).unwrap()
}

fn tuesday(hour: u32) -> DateTime<Utc> {
    Utc.with_ymd_and_hms(2026, 8, 18, hour, 0, 0).unwrap()
}

fn timestamp(at: DateTime<Utc>) -> Timestamp {
    Timestamp::from_micros(at.timestamp_micros()).unwrap()
}

fn span(span_id_label: &str, received_at: DateTime<Utc>) -> Span {
    Span {
        common: Common {
            organization_id: "4812".to_string(),
            project_id: "91733".to_string(),
            received_at: timestamp(received_at),
        },
        span_id: span_id(span_id_label),
        trace_id: TraceId::from([0xaa; 16]),
        parent_span_id: None,
        service: None,
        name: "GET /checkout".to_string(),
        started_at: timestamp(received_at),
        ended_at: None,
        status: Status::Okay,
        status_message: None,
        tags: Tags::default(),
    }
}

fn file(at: DateTime<Utc>, name: &str, size: u64) -> ObjectMeta {
    ObjectMeta {
        location: Path::from(format!("{}/{name}.parquet", Span::directory(timestamp(at)))),
        size,
    }
}

/// Merges a partition down, and answers what is written and what is left.
fn compact(listing: Vec<ObjectMeta>, closed: bool) -> (Vec<Path>, Vec<ObjectMeta>) {
    let mut stored = listing.clone();
    let mut compaction = Compaction::new(listing, closed);
    stored.retain(|object| !compaction.stale().iter().any(|stale| stale.location == object.location));

    while let Some(batch) = compaction.next() {
        let plan = plan::<Span>(&batch);
        let merged = ObjectMeta {
            location: plan.path,
            size: batch.iter().map(|source| source.size).sum(),
        };
        stored.retain(|object| !batch.iter().any(|used| used.location == object.location));
        stored.push(merged.clone());
        compaction.merged(&batch, merged);
    }

    (compaction.written(), stored)
}

/// A partition's files become one, named for the three it replaced.
#[test]
fn a_partition_merges_into_one_file() {
    let listing = vec![file(at(9), "a", 10), file(at(9), "b", 11), file(at(9), "c", 12)];

    let (merged, after) = compact(listing, true);
    assert_eq!(after.len(), 1, "the sources are gone");
    assert_eq!(after[0].location, *merged.last().unwrap());
    assert_eq!(superseded(after[0].location.filename().unwrap()), ["a", "b", "c"]);
    assert!(after[0]
        .location
        .as_ref()
        .starts_with("spans/partition=2026-08-17T00:00:00Z/"));
}

/// Nothing to merge, and nothing rewritten for the sake of it.
#[test]
fn one_file_is_left_alone() {
    let (merged, after) = compact(vec![file(at(9), "a", 10)], true);

    assert!(merged.is_empty());
    assert_eq!(after.len(), 1);
}

/// A merged file and the sources it replaced are both present until the deletes
/// land, and a failed delete leaves them indefinitely. Reading both counts
/// those rows twice.
#[test]
fn a_replaced_file_is_not_read() {
    let listing = vec![
        file(at(9), "aaa", 1),
        file(at(9), "bbb", 1),
        file(at(9), "ccc_aaa_bbb", 2),
    ];

    let (live, _) = split_live(listing);
    assert_eq!(live.len(), 1);
    assert_eq!(live[0].location.filename(), Some("ccc_aaa_bbb.parquet"));
}

/// More files than one merge can name, so the batches merge and then their
/// outputs merge, until the partition is one file.
#[test]
fn more_files_than_one_merge_can_name() {
    let listing: Vec<ObjectMeta> = (0..9).map(|i| file(at(9), &format!("s{i}"), 10)).collect();

    let (merged, after) = compact(listing, true);
    assert_eq!(after.len(), 1, "merged down to one file");
    assert_eq!(merged.len(), 2);
    assert_eq!(
        superseded(merged[0].filename().unwrap()),
        ["s0", "s1", "s2", "s3", "s4", "s5"]
    );
}

/// Row groups are the smallest unit a query can skip, so a merged file holding
/// more rows than one group has to split into several, otherwise its min/max
/// spans everything and merging bought only fewer files to open.
#[test]
fn a_merged_file_splits_into_row_groups() {
    let mut writer = ObjectWriter::new(Path::from("spans/p/merged.parquet"), Span::schema()).unwrap();

    // Three batches of nine thousand, so the file crosses the row group size
    // that no single one reaches.
    for _ in 0..3 {
        let spans: Vec<Span> = (0..9_000).map(|i| span(&format!("{i:05}"), at(9))).collect();
        writer.write(&Span::to_record_batch(&spans).unwrap()).unwrap();
    }
    let object = writer.finish().unwrap();
    assert_eq!(object.path.as_ref(), "spans/p/merged.parquet");

    let reader = ParquetRecordBatchReaderBuilder::try_new(Bytes::from(object.bytes)).unwrap();
    let groups: Vec<i64> = reader
        .metadata()
        .row_groups()
        .iter()
        .map(|group| group.num_rows())
        .collect();
    assert_eq!(groups, [10_000, 10_000, 7_000]);
}

/// A partition still being written to waits for a full batch: merging two of
/// its files now is work the next flush undoes.
#[test]
fn an_open_partition_waits_for_a_full_batch() {
    let (written_paths, after) = compact(vec![file(at(9), "a", 10), file(at(9), "b", 10)], false);

    assert!(written_paths.is_empty(), "two files is not a full batch");
    assert_eq!(after.len(), 2);
}

/// Closed, the same two files merge: there is no later batch to wait for.
#[test]
fn a_closed_partition_merges_a_partial_batch() {
    let (_, after) = compact(vec![file(at(9), "a", 10), file(at(9), "b", 10)], true);

    assert_eq!(after.len(), 1);
}

fn crumbs() -> Vec<ObjectMeta> {
    let mut listing = vec![file(at(9), "big", 50_000)];
    listing.extend((0..5).map(|i| file(at(9), &format!("crumb{i}"), 100)));
    listing
}

/// Five crumbs and one much larger file are a full batch by count, but merging
/// them would rewrite the large one to absorb a fraction of its size. Open,
/// that is work better left for when the crumbs have company.
#[test]
fn a_large_file_is_not_rewritten_to_absorb_crumbs() {
    let (written_paths, after) = compact(crumbs(), false);

    assert!(written_paths.is_empty(), "the large file stays as it is");
    assert_eq!(after.len(), 6);
}

/// Closed, the same crumbs merge into the large file: rewriting it once costs
/// less than every later query opening five extra files.
#[test]
fn a_closed_partition_absorbs_crumbs_into_a_large_file() {
    let (_, after) = compact(crumbs(), true);

    assert_eq!(after.len(), 1);
}

/// A stray crumb does not anchor the spread: the files too large for it begin a
/// batch of their own.
#[test]
fn a_crumb_does_not_hold_up_the_rest() {
    let mut listing = vec![file(at(9), "crumb", 1)];
    listing.extend((0..6).map(|i| file(at(9), &format!("s{i}"), 100)));

    let batch = next_batch(&listing, false).unwrap();
    let names: Vec<&str> = batch.iter().map(|f| f.location.filename().unwrap()).collect();
    assert_eq!(
        names,
        ["s0.parquet", "s1.parquet", "s2.parquet", "s3.parquet", "s4.parquet", "s5.parquet"]
    );
}

/// A file eight times as large is still within the spread, one byte more is
/// not.
#[test]
fn the_spread_is_eight_times() {
    let with_largest = |largest: u64| {
        let mut listing: Vec<ObjectMeta> = (0..5).map(|i| file(at(9), &format!("s{i}"), 10)).collect();
        listing.push(file(at(9), "largest", largest));
        next_batch(&listing, false).map(|batch| batch.len())
    };

    assert_eq!(with_largest(80), Some(6));
    assert_eq!(with_largest(81), None);
}

/// A batch that the next file would take past the target is full, and a file
/// at the target is left alone.
#[test]
fn the_target_fills_a_batch() {
    let mib = 1024 * 1024;
    let listing = vec![
        file(at(9), "a", 50 * mib),
        file(at(9), "b", 50 * mib),
        file(at(9), "c", 50 * mib),
        file(at(9), "done", 128 * mib),
    ];
    let batch = next_batch(&listing, false).unwrap();
    assert_eq!(batch.len(), 2);
    assert_eq!(batch[0].size, 50 * mib);

    let large = vec![file(at(9), "a", 100 * mib), file(at(9), "b", 100 * mib)];
    assert!(next_batch(&large, true).is_none(), "no two fit together");
}

/// The smallest come first, and files of one size in the order listed.
#[test]
fn the_smallest_files_come_first() {
    let listing = vec![
        file(at(9), "c", 30),
        file(at(9), "a", 10),
        file(at(9), "d", 30),
        file(at(9), "b", 20),
    ];
    let batch = next_batch(&listing, true).unwrap();
    let names: Vec<&str> = batch.iter().map(|f| f.location.filename().unwrap()).collect();
    assert_eq!(names, ["a.parquet", "b.parquet", "c.parquet", "d.parquet"]);
}

#[test]
fn a_plan_reads_its_sources_and_lands_beside_them() {
    let id = Uuid::from_u128(7);
    let sources = vec![file(at(9), "a", 10), file(at(9), "b_x", 20)];
    let plan = plan_for::<Span>(&id, &sources);

    assert_eq!(
        plan.path.as_ref(),
        "spans/partition=2026-08-17T00:00:00Z/00000000000000000000000000000007_a_b.parquet"
    );
    assert_eq!(
        plan.scans,
        [
            "prism://store/spans/partition=2026-08-17T00:00:00Z/a.parquet",
            "prism://store/spans/partition=2026-08-17T00:00:00Z/b_x.parquet"
        ]
    );
    assert_eq!(plan.order, Span::sort_order());
}

/// A span inserted twice is one span: compaction keeps the newest and drops the
/// rest, so a plain read stops seeing both.
#[test]
fn compaction_collapses_superseded_rows() {
    let checking_in = span("s1", at(9));
    let mut finished = span("s1", at(9));
    finished.common.received_at = timestamp(at(10));
    finished.ended_at = Some(timestamp(at(10)));

    let rows = vec![checking_in, finished, span("s2", at(9))];
    let mut collapse = Collapse::of::<Span>();
    let kept: Vec<&Span> = Span::sorted(&rows)
        .into_iter()
        .filter(|row| collapse.keep(Table::row_key(*row)))
        .collect();

    assert_eq!(kept.len(), 2, "one row of each survives");
    assert_eq!(kept[0].span_id, span_id("s1"));
    assert_eq!(kept[0].ended_at, Some(timestamp(at(10))), "the newest insert is the one kept");
    assert_eq!(kept[1].span_id, span_id("s2"));
}

/// Compacts every partition it finds, leaving the newest alone: it is the only
/// one still being written to, so merging its two files is work the next flush
/// undoes.
#[test]
fn compact_all_leaves_the_newest_partition() {
    let listing = vec![
        file(tuesday(9), "tue1", 10),
        file(at(9), "mon1", 10),
        file(tuesday(10), "tue2", 10),
        file(at(10), "mon2", 10),
    ];

    // Tuesday exists, so monday is closed; tuesday is the live one.
    let closed = closed_partitions(&listing);
    let closed: Vec<&str> = closed.iter().map(|path| path.as_ref()).collect();
    assert_eq!(closed, ["spans/partition=2026-08-17T00:00:00Z"]);

    assert!(closed_partitions(&vec![file(at(9), "mon1", 10)]).is_empty());
    assert!(closed_partitions(&Vec::new()).is_empty());
}

fn names(objects: &[ObjectMeta]) -> Vec<String> {
    objects
        .iter()
        .map(|object| object.location.filename().unwrap().to_string())
        .collect()
}

/// What a merge replaced is not merged again: its rows are in the merged file
/// already, and merging both would store them twice.
#[test]
fn replaced_files_are_not_merged_again() {
    let listing = vec![file(at(9), "a", 1), file(at(9), "b", 1), file(at(9), "m_a_b", 2)];
    let compaction = Compaction::new(listing.clone(), true);
    assert!(compaction.next().is_none());
    assert_eq!(names(compaction.stale()), ["a.parquet", "b.parquet"]);

    let (written, after) = compact(listing, true);
    assert!(written.is_empty());
    assert_eq!(names(&after), ["m_a_b.parquet"]);
}

/// Files a merge replaced are gone before the file that replaced them is, or
/// nothing would say they are stale.
#[test]
fn a_compaction_leaves_nothing_stale() {
    let listing = vec![
        file(at(9), "a", 1),
        file(at(9), "b", 1),
        file(at(9), "c", 3),
        file(at(9), "m_a_b", 2),
    ];
    let compaction = Compaction::new(listing.clone(), true);
    assert_eq!(names(&compaction.next().unwrap()), ["m_a_b.parquet", "c.parquet"]);

    let (written, after) = compact(listing, true);
    assert_eq!(written.len(), 1);
    assert_eq!(after.len(), 1);
    assert_eq!(after[0].size, 5, "each row once");
    assert_eq!(superseded(after[0].location.filename().unwrap()), ["m", "c"]);
    let (live, stale) = split_live(after);
    assert_eq!((live.len(), stale.len()), (1, 0));
}

/// Merged down, a partition has no batch left, what was large enough is still
/// there, and no byte is lost.
#[test]
fn a_compaction_comes_to_an_end() {
    let mut listing: Vec<ObjectMeta> =
        (0..20).map(|i| file(at(9), &format!("{i:02}"), 100 + i)).collect();
    listing.push(file(at(9), "large", 128 * 1024 * 1024));
    let bytes: u64 = listing.iter().map(|object| object.size).sum();

    let (written, after) = compact(listing, true);
    assert!(written.len() < 21);
    assert!(next_batch(&after, true).is_none());
    assert!(names(&after).contains(&"large.parquet".to_string()));
    assert_eq!(after.iter().map(|object| object.size).sum::<u64>(), bytes);
    assert_eq!(after.len(), 2);
}

/// However many rows come by at a time, the same are kept.
#[test]
fn rows_are_kept_alike_in_any_batches() {
    let rows = vec![
        span("s1", at(9)),
        span("s1", at(10)),
        span("s1", at(11)),
        span("s2", at(9)),
        span("s3", at(9)),
        span("s3", at(10)),
    ];
    let keys = || -> Vec<_> { Span::sorted(&rows).into_iter().map(Table::row_key).collect() };
    let expected = [true, false, false, true, true, false];

    assert_eq!(Collapse::of::<Span>().keep_all(keys()), expected);
    for at in 0..=rows.len() {
        let mut first = keys();
        let second = first.split_off(at);
        let mut collapse = Collapse::of::<Span>();
        let mut kept = collapse.keep_all(first);
        kept.extend(collapse.keep_all(second));
        assert_eq!(kept, expected, "split at {at}");
    }
}
