//! Rows waiting to be written, and when it is worth writing them.

use uuid::Uuid;
use vstd::prelude::*;

use crate::civil::rfc3339_text;
use crate::ids::{new_id, uuid_bytes};
use crate::record::{
    all_column_views, batch_columns, batch_fields, batch_of, batch_rows, directory_text, refs,
    rows_fit, rows_sorted, stops_encoder, widths_are_some, Record, RecordBatch, Table,
};
use crate::spans::{a_span_goes_to_the_day_it_was_received, Span};
use crate::types::{partition_floor, TimePartitioned, Timestamp};
use crate::writer::Batch;

verus! {

/// Rows held before a flush is worth doing. Bounds what is held in memory more
/// than what a file costs: compaction is what makes files big.
pub const FLUSH_MAX_ROWS: usize = 10_000;

/// How long a row waits when the buffer never fills, in nanoseconds: the lag
/// between a span arriving and a query being able to find it.
pub const FLUSH_MAX_AGE: u64 = 10_000_000_000;

/// How often the buffer is asked whether it has waited long enough, in
/// nanoseconds, since nothing arriving is exactly the case that threshold
/// exists for.
pub const TICK: u64 = 1_000_000_000;

/// Rows waiting before the queue is left to fill instead. Several flushes'
/// worth, so only writes that keep failing reach it.
pub const PENDING_MAX_ROWS: usize = 100_000;

/// Batches queued before senders are turned away. Each is one request's worth
/// of rows, so this is how far ingest can run ahead of a slow store.
pub const QUEUE_CAPACITY: usize = 64;

/// The queue is full: the store is behind. Senders retry, so this is the one
/// answer that neither drops the rows nor pretends they were stored.
#[derive(Clone, Copy, Debug)]
pub struct Full;

impl Full {
    pub fn message(&self) -> (message: String)
        ensures
            message@ == "ingest queue is full"@,
    {
        String::from_str("ingest queue is full")
    }
}

/// The rows of one partition are more than one batch can hold: an array
/// reaches its text by 32-bit offsets.
#[derive(Clone, Copy, Debug)]
pub struct TooLarge;

/// One partition's rows and the name they will be written under, set when the
/// partition is first seen so a retry reuses it.
#[derive(Debug)]
pub struct File<T> {
    partition: Timestamp,
    file_id: Uuid,
    rows: Vec<T>,
}

/// A partition's rows and name, as plain values.
#[verifier::ext_equal]
#[verifier::reject_recursive_types(T)]
pub struct FileView<T> {
    /// When the partition starts, in nanoseconds since the epoch.
    pub start: int,
    pub id: Seq<u8>,
    pub rows: Seq<T>,
}

impl<T> View for File<T> {
    type V = FileView<T>;

    closed spec fn view(&self) -> FileView<T> {
        FileView { start: self.partition@, id: uuid_bytes(self.file_id), rows: self.rows@ }
    }
}

pub open spec fn file_views<T>(files: Seq<File<T>>) -> Seq<FileView<T>> {
    files.map_values(|file: File<T>| file@)
}

/// The partition a row falls in.
pub open spec fn partition_of<T: Record>(row: T) -> int {
    partition_floor(row.spec_common().received_at@, T::spec_granularity())
}

/// How many rows some files have.
pub open spec fn count<T>(files: Seq<FileView<T>>) -> nat
    decreases files.len(),
{
    if files.len() == 0 {
        0
    } else {
        count(files.drop_last()) + files.last().rows.len()
    }
}

/// Where the file of a partition goes among others: behind those of earlier
/// partitions.
pub open spec fn slot<T>(files: Seq<FileView<T>>, start: int) -> int
    decreases files.len(),
{
    if files.len() == 0 || files.last().start < start {
        files.len() as int
    } else {
        slot(files.drop_last(), start)
    }
}

/// What is held once a row has been added: with the others of its partition,
/// or, where it is the first, in a file with id `id`.
pub open spec fn added<T: Record>(files: Seq<FileView<T>>, row: T, id: Seq<u8>) -> Seq<
    FileView<T>,
> {
    let start = partition_of(row);
    let at = slot(files, start);
    if at < files.len() && files[at].start == start {
        files.update(
            at,
            FileView { start, id: files[at].id, rows: files[at].rows.push(row) },
        )
    } else {
        files.insert(at, FileView { start, id, rows: seq![row] })
    }
}

/// What is held once some rows have been added, one after another.
pub open spec fn added_all<T: Record>(
    files: Seq<FileView<T>>,
    rows: Seq<T>,
    ids: Seq<Seq<u8>>,
) -> Seq<FileView<T>>
    decreases rows.len(),
{
    if rows.len() == 0 {
        files
    } else {
        added(added_all(files, rows.drop_last(), ids), rows.last(), ids[rows.len() - 1])
    }
}

/// Whether files are in order of their partitions, each with rows, all of them
/// its own.
pub open spec fn well_held<T: Record>(files: Seq<FileView<T>>) -> bool {
    &&& forall|i: int, j: int|
        0 <= i < j < files.len() ==> (#[trigger] files[i]).start < (#[trigger] files[j]).start
    &&& forall|i: int| 0 <= i < files.len() ==> (#[trigger] files[i]).rows.len() > 0
    &&& forall|i: int, k: int|
        0 <= i < files.len() && 0 <= k < files[i].rows.len() ==> partition_of(
            #[trigger] files[i].rows[k],
        ) == files[i].start
}

/// Rows waiting to be written, grouped by the partition they fall in.
#[derive(Debug)]
#[verifier::reject_recursive_types(T)]
pub struct Pending<T: Record> {
    files: Vec<File<T>>,
    /// When the oldest row held came, by a clock counting nanoseconds.
    first_pushed_at: Option<u64>,
}

impl<T: Record> Pending<T> {
    /// The rows held, by the partition they fall in, earliest first.
    pub closed spec fn files(&self) -> Seq<FileView<T>> {
        file_views(self.files@)
    }

    /// When the oldest row held came.
    pub closed spec fn since(&self) -> Option<u64> {
        self.first_pushed_at
    }

    #[verifier::type_invariant]
    pub open spec fn held(&self) -> bool {
        &&& well_held(self.files())
        &&& count(self.files()) <= usize::MAX
        &&& self.since() is Some <==> self.files().len() > 0
    }

    /// Nothing waiting.
    pub fn new() -> (pending: Pending<T>)
        ensures
            pending.files() == Seq::<FileView<T>>::empty(),
            pending.since() == None::<u64>,
            pending.held(),
    {
        let files: Vec<File<T>> = Vec::new();
        assert(file_views(files@) =~= Seq::<FileView<T>>::empty());
        Pending { files, first_pushed_at: None }
    }

    /// How many rows wait.
    pub fn rows(&self) -> (rows: usize)
        ensures
            rows == count(self.files()),
    {
        proof {
            use_type_invariant(self);
        }
        let ghost views = self.files();
        let mut rows: usize = 0;
        let mut i: usize = 0;
        assert(views.take(0) =~= Seq::<FileView<T>>::empty());
        assert(views.take(views.len() as int) =~= views);
        while i < self.files.len()
            invariant
                i <= self.files.len(),
                views == self.files(),
                views.take(views.len() as int) == views,
                count(views) <= usize::MAX,
                rows == count(views.take(i as int)),
            decreases self.files.len() - i,
        {
            proof {
                assert(views.take(i + 1).drop_last() =~= views.take(i as int));
                assert(views[i as int] == self.files@[i as int]@);
                lemma_count_grows(views, i + 1, views.len() as int);
            }
            rows = rows + self.files[i].rows.len();
            i = i + 1;
        }
        rows
    }

    /// Whether it is worth writing what is held: enough rows to make a file, or
    /// old enough that waiting for more costs a reader more than the file size
    /// saves.
    pub fn should_flush(&self, now: u64) -> (worth: bool)
        ensures
            worth == (count(self.files()) >= 10_000 || (self.since() is Some && now
                - self.since()->Some_0 >= 10_000_000_000)),
    {
        self.rows() >= FLUSH_MAX_ROWS || match self.first_pushed_at {
            Some(since) => now >= since && now - since >= FLUSH_MAX_AGE,
            None => false,
        }
    }

    /// More held than a flush is failing to clear, so taking more on is only
    /// spending memory to hide it.
    pub fn is_full(&self) -> (full: bool)
        ensures
            full == (count(self.files()) >= 100_000),
    {
        self.rows() >= PENDING_MAX_ROWS
    }

    /// Whether to take what is queued. Holding rows a failing store won't take
    /// is how a queue that is never full hides that nothing is being written;
    /// leaving them queued instead is what senders can see. Once every sender
    /// is gone there is no one left to see it.
    pub fn accepts(&self, closed: bool) -> (accepts: bool)
        ensures
            accepts == (count(self.files()) < 100_000 || closed),
    {
        !self.is_full() || closed
    }

    /// Holds one more row.
    pub fn add(&mut self, row: T, now: u64)
        requires
            count(old(self).files()) < usize::MAX,
        ensures
            exists|id: Seq<u8>|
                id.len() == 16 && final(self).files() == #[trigger] added(
                    old(self).files(),
                    row,
                    id,
                ),
            count(final(self).files()) == count(old(self).files()) + 1,
            final(self).since() == match old(self).since() {
                Some(since) => Some(since),
                None => Some(now),
            },
    {
        proof {
            use_type_invariant(&*self);
        }
        let ghost views = self.files();
        let partition = row.common().received_at.partition_start(T::granularity());
        let ghost start = partition_of(row);
        assert(partition@ == start);
        let since = match self.first_pushed_at {
            Some(since) => since,
            None => now,
        };
        let mut taken = Pending::new();
        std::mem::swap(self, &mut taken);
        let Pending { files, first_pushed_at: _ } = taken;
        let mut files = files;
        let mut at: usize = files.len();
        assert(views.take(at as int) =~= views);
        while at > 0 && !files[at - 1].partition.is_before(&partition)
            invariant
                at <= files.len(),
                views == file_views(files@),
                partition@ == start,
                slot(views.take(at as int), start) == slot(views, start),
            decreases at,
        {
            assert(views.take(at as int).drop_last() =~= views.take(at - 1));
            assert(views[at - 1] == files@[at - 1]@);
            at = at - 1;
        }
        proof {
            if at > 0 {
                assert(views[at - 1] == files@[at - 1]@);
            }
            assert(slot(views, start) == at);
            lemma_slot(views, start);
            if at < files@.len() {
                assert(views[at as int] == files@[at as int]@);
            }
        }
        let ghost before = files@;
        if at < files.len() && !partition.is_before(&files[at].partition) {
            let File { partition: held, file_id, rows } = files.remove(at);
            let mut rows = rows;
            rows.push(row);
            files.insert(at, File { partition: held, file_id, rows });
            proof {
                let id = Seq::new(16, |i: int| 0u8);
                assert(file_views(files@) =~= added(views, row, id));
                lemma_added(views, row, id);
            }
        } else {
            let file_id = new_id();
            let mut rows: Vec<T> = Vec::new();
            rows.push(row);
            files.insert(at, File { partition, file_id, rows });
            proof {
                let id = uuid_bytes(file_id);
                assert(rows@ =~= seq![row]);
                assert(file_views(files@) =~= added(views, row, id));
                lemma_added(views, row, id);
            }
        }
        *self = Pending { files, first_pushed_at: Some(since) };
    }

    /// Holds some rows, one after another.
    pub fn add_all(&mut self, rows: Vec<T>, now: u64)
        requires
            count(old(self).files()) + rows@.len() <= usize::MAX,
        ensures
            exists|ids: Seq<Seq<u8>>|
                are_ids(ids, rows@.len()) && final(self).files() == #[trigger] added_all(
                    old(self).files(),
                    rows@,
                    ids,
                ),
            count(final(self).files()) == count(old(self).files()) + rows@.len(),
            final(self).since() == match old(self).since() {
                Some(since) => Some(since),
                None => if rows@.len() > 0 {
                    Some(now)
                } else {
                    None
                },
            },
    {
        let ghost before = self.files();
        let ghost since = self.since();
        let ghost given = rows@;
        let ghost mut ids: Seq<Seq<u8>> = Seq::empty();
        for row in iter: rows
            invariant
                given == iter.seq(),
                count(before) + given.len() <= usize::MAX,
                are_ids(ids, iter.index() as nat),
                self.files() == added_all(before, given.take(iter.index()), ids),
                count(self.files()) == count(before) + iter.index(),
                self.since() == match since {
                    Some(since) => Some(since),
                    None => if iter.index() > 0 {
                        Some(now)
                    } else {
                        None
                    },
                },
        {
            let ghost held = self.files();
            self.add(row, now);
            proof {
                let id = choose|id: Seq<u8>|
                    id.len() == 16 && self.files() == #[trigger] added(held, row, id);
                let so_far = given.take(iter.index() + 1);
                assert(so_far.drop_last() =~= given.take(iter.index()));
                assert(so_far.last() == row);
                lemma_added_all_ids(before, given.take(iter.index()), ids, ids.push(id));
                ids = ids.push(id);
            }
        }
        assert(given.take(given.len() as int) =~= given);
        proof {
            assert(self.files() == added_all(before, given, ids));
        }
    }

    /// The next file to write: the earliest partition's rows, in the order they
    /// are stored in. None once everything is written. Rows that no batch can
    /// hold cannot be written.
    pub fn next_write(&self) -> (write: Option<Result<Batch, TooLarge>>)
        ensures
            write is None <==> self.files().len() == 0,
            write matches Some(Ok(batch)) ==> is_batch_of(batch, self.files()[0]),
            write matches Some(Err(_)) ==> exists|order: Seq<&T>|
                stored_order(self.files()[0].rows, order) && !#[trigger] rows_fit(order),
    {
        if self.files.len() == 0 {
            return None;
        }
        let file = &self.files[0];
        assert(self.files()[0] == file@);
        let rows = T::sorted(file.rows.as_slice());
        let ghost order = rows@;
        assert(stored_order(file@.rows, order));
        if !T::can_batch(&rows) {
            return Some(Err(TooLarge));
        }
        match T::batch(&rows) {
            Ok(rows) => {
                let batch = Batch {
                    directory: T::directory(file.partition),
                    file_id: file.file_id,
                    rows,
                };
                proof {
                    assert(holds_rows(batch.rows, order));
                }
                Some(Ok(batch))
            },
            Err(_) => vstd::pervasive::unreached(),
        }
    }

    /// Takes note that the earliest partition is written, so a failure leaves
    /// it (and any after it) untouched for the next flush. The clock stops only
    /// once everything is written: a failure leaves it running on what is still
    /// held.
    pub fn written(&mut self)
        requires
            old(self).files().len() > 0,
        ensures
            final(self).files() == old(self).files().drop_first(),
            final(self).since() == if final(self).files().len() == 0 {
                None
            } else {
                old(self).since()
            },
    {
        proof {
            use_type_invariant(&*self);
        }
        let ghost views = self.files();
        let since = self.first_pushed_at;
        let mut taken = Pending::new();
        std::mem::swap(self, &mut taken);
        let Pending { files, first_pushed_at: _ } = taken;
        let mut files = files;
        let ghost before = files@;
        let _ = files.remove(0);
        proof {
            let after = file_views(files@);
            assert(after =~= views.drop_first());
            lemma_count_remove(views);
            assert forall|i: int| 0 <= i < after.len() implies #[trigger] after[i] == views[i
                + 1] by {}
            assert forall|i: int, k: int|
                0 <= i < after.len() && 0 <= k < after[i].rows.len() implies partition_of(
                #[trigger] after[i].rows[k],
            ) == after[i].start by {
                assert(partition_of(views[i + 1].rows[k]) == views[i + 1].start);
            }
        }
        let first_pushed_at = if files.len() == 0 {
            None
        } else {
            since
        };
        *self = Pending { files, first_pushed_at };
    }

    /// What to do about something that happened: rows in, files out. Holds what
    /// arrives, says when it is worth writing, and has what is left written
    /// once the sender is gone.
    pub fn handle(&mut self, event: Event<T>, now: u64) -> (action: Action)
        requires
            event matches Event::Rows(rows) ==> count(old(self).files()) + rows@.len()
                <= usize::MAX,
        ensures
            match event {
                Event::Rows(rows) => {
                    &&& exists|ids: Seq<Seq<u8>>|
                        are_ids(ids, rows@.len()) && final(self).files() == #[trigger] added_all(
                            old(self).files(),
                            rows@,
                            ids,
                        )
                    &&& count(final(self).files()) == count(old(self).files()) + rows@.len()
                    &&& final(self).since() == match old(self).since() {
                        Some(since) => Some(since),
                        None => if rows@.len() > 0 {
                            Some(now)
                        } else {
                            None
                        },
                    }
                },
                _ => final(self).files() == old(self).files() && final(self).since() == old(
                    self,
                ).since(),
            },
            action == match event {
                Event::Closed => Action::Finish,
                _ => if count(final(self).files()) >= 10_000 || (final(self).since() is Some && now
                    - final(self).since()->Some_0 >= 10_000_000_000) {
                    Action::Flush
                } else {
                    Action::Wait
                },
            },
    {
        match event {
            Event::Rows(rows) => self.add_all(rows, now),
            Event::Tick => {},
            Event::Closed => {
                return Action::Finish;
            },
        }
        if self.should_flush(now) {
            Action::Flush
        } else {
            Action::Wait
        }
    }
}

/// Something that happened to a buffer.
#[derive(Debug)]
pub enum Event<T> {
    /// A batch of rows was taken from the queue.
    Rows(Vec<T>),
    /// Time went by.
    Tick,
    /// Every sender is gone and the queue is drained.
    Closed,
}

/// What a buffer does next.
#[derive(Clone, Copy, Debug, PartialEq, Eq, Structural)]
pub enum Action {
    /// Wait for the next event.
    Wait,
    /// Write what is held. A failed write leaves the rows held, so the next
    /// flush tries them again.
    Flush,
    /// Write what is held, and stop.
    Finish,
}

/// As many ids as there are rows, though a row of a partition already seen
/// needs none.
pub open spec fn are_ids(ids: Seq<Seq<u8>>, rows: nat) -> bool {
    ids.len() == rows && forall|i: int| 0 <= i < ids.len() ==> (#[trigger] ids[i]).len() == 16
}

/// Whether some order of rows is one they can be stored in.
pub open spec fn stored_order<T: Record>(rows: Seq<T>, order: Seq<&T>) -> bool {
    order.to_multiset() == refs(rows).to_multiset() && rows_sorted(order)
}

/// Whether a batch holds some rows, in their order.
pub open spec fn holds_rows<T: Record>(batch: RecordBatch, rows: Seq<&T>) -> bool {
    &&& batch_fields(batch) == Some(all_column_views::<T>())
    &&& batch_columns(batch) == batch_of(rows)
    &&& batch_rows(batch) == rows.len()
    &&& widths_are_some(all_column_views::<T>()) ==> !stops_encoder(
        all_column_views::<T>(),
        batch,
    )
}

/// Whether a batch is what a file is to be written as.
pub open spec fn is_batch_of<T: Record>(batch: Batch, file: FileView<T>) -> bool {
    &&& batch.directory@ == directory_text::<T>(file.start)
    &&& uuid_bytes(batch.file_id) == file.id
    &&& exists|order: Seq<&T>|
        stored_order(file.rows, order) && #[trigger] holds_rows(batch.rows, order)
}

proof fn lemma_added_all_ids<T: Record>(
    files: Seq<FileView<T>>,
    rows: Seq<T>,
    ids: Seq<Seq<u8>>,
    more: Seq<Seq<u8>>,
)
    requires
        rows.len() <= ids.len() <= more.len(),
        forall|i: int| 0 <= i < ids.len() ==> ids[i] == #[trigger] more[i],
    ensures
        added_all(files, rows, ids) == added_all(files, rows, more),
    decreases rows.len(),
{
    if rows.len() > 0 {
        lemma_added_all_ids(files, rows.drop_last(), ids, more);
        assert(ids[rows.len() - 1] == more[rows.len() - 1]);
    }
}

proof fn lemma_count_remove<T>(files: Seq<FileView<T>>)
    requires
        files.len() > 0,
    ensures
        count(files.drop_first()) + files[0].rows.len() == count(files),
{
    lemma_count_insert(files.drop_first(), 0, files[0]);
    assert(files.drop_first().insert(0, files[0]) =~= files);
}

/// Every row held, partition by partition.
pub open spec fn all_rows<T>(files: Seq<FileView<T>>) -> Seq<T>
    decreases files.len(),
{
    if files.len() == 0 {
        Seq::empty()
    } else {
        all_rows(files.drop_last()) + files.last().rows
    }
}

/// Adding a row loses none that was held, and holds it once.
pub proof fn adding_a_row_loses_none<T: Record>(files: Seq<FileView<T>>, row: T, id: Seq<u8>)
    requires
        well_held(files),
    ensures
        all_rows(added(files, row, id)).to_multiset() == all_rows(files).to_multiset().insert(row),
{
    let start = partition_of(row);
    let at = slot(files, start);
    lemma_slot(files, start);
    if at < files.len() && files[at].start == start {
        lemma_all_rows_update(files, at, row);
    } else {
        lemma_all_rows_insert(files, at, FileView { start, id, rows: seq![row] });
    }
}

proof fn lemma_all_rows_update<T>(files: Seq<FileView<T>>, at: int, row: T)
    requires
        0 <= at < files.len(),
    ensures
        all_rows(
            files.update(
                at,
                (FileView {
                    start: files[at].start,
                    id: files[at].id,
                    rows: files[at].rows.push(row),
                }),
            ),
        ).to_multiset() == all_rows(files).to_multiset().insert(row),
    decreases files.len(),
{
    broadcast use vstd::multiset::group_multiset_axioms;
    broadcast use vstd::seq_lib::group_to_multiset_ensures;

    let file = FileView {
        start: files[at].start,
        id: files[at].id,
        rows: files[at].rows.push(row),
    };
    let front = files.drop_last();
    let after = files.update(at, file);
    vstd::seq_lib::lemma_multiset_commutative(all_rows(front), files.last().rows);
    vstd::seq_lib::lemma_multiset_commutative(all_rows(after.drop_last()), after.last().rows);
    if at == front.len() {
        assert(after.drop_last() =~= front);
        assert(after.last().rows.to_multiset() == files.last().rows.to_multiset().insert(row));
    } else {
        lemma_all_rows_update(front, at, row);
        assert(after.drop_last() =~= front.update(at, file));
        assert(after.last() == files.last());
    }
    assert(all_rows(after).to_multiset() =~= all_rows(files).to_multiset().insert(row));
}

proof fn lemma_all_rows_insert<T>(files: Seq<FileView<T>>, at: int, file: FileView<T>)
    requires
        0 <= at <= files.len(),
        file.rows.len() == 1,
    ensures
        all_rows(files.insert(at, file)).to_multiset() == all_rows(files).to_multiset().insert(
            file.rows[0],
        ),
    decreases files.len(),
{
    broadcast use vstd::multiset::group_multiset_axioms;
    broadcast use vstd::seq_lib::group_to_multiset_ensures;

    let after = files.insert(at, file);
    let row = file.rows[0];
    if at == files.len() {
        assert(after.drop_last() =~= files);
        assert(all_rows(after) =~= all_rows(files).push(row));
    } else {
        let front = files.drop_last();
        lemma_all_rows_insert(front, at, file);
        assert(after.drop_last() =~= front.insert(at, file));
        assert(after.last() == files.last());
        vstd::seq_lib::lemma_multiset_commutative(all_rows(front), files.last().rows);
        vstd::seq_lib::lemma_multiset_commutative(all_rows(after.drop_last()), files.last().rows);
        assert(all_rows(after).to_multiset() =~= all_rows(files).to_multiset().insert(row));
    }
}

/// A file is written to the directory that each of its rows' own arrival names,
/// so the partition read back from its path is the one its rows fall in.
pub proof fn a_row_is_written_where_it_arrived<T: Record>(
    files: Seq<FileView<T>>,
    i: int,
    k: int,
)
    requires
        well_held(files),
        0 <= i < files.len(),
        0 <= k < files[i].rows.len(),
    ensures
        directory_text::<T>(files[i].start) == directory_text::<T>(
            files[i].rows[k].spec_common().received_at@,
        ),
{
    let at = files[i].rows[k].spec_common().received_at@;
    assert(partition_of(files[i].rows[k]) == files[i].start);
    crate::types::a_partition_starts_in_itself(at, T::spec_granularity());
}

/// The name a partition's rows will be written under stays as it was set, so
/// writing again after a failure overwrites rather than duplicates.
pub proof fn a_partition_keeps_its_name<T: Record>(
    files: Seq<FileView<T>>,
    row: T,
    id: Seq<u8>,
    i: int,
) -> (j: int)
    requires
        well_held(files),
        0 <= i < files.len(),
    ensures
        0 <= j < added(files, row, id).len(),
        added(files, row, id)[j].start == files[i].start,
        added(files, row, id)[j].id == files[i].id,
{
    let start = partition_of(row);
    let at = slot(files, start);
    lemma_slot(files, start);
    if at < files.len() && files[at].start == start || i < at {
        i
    } else {
        i + 1
    }
}

proof fn lemma_slot<T: Record>(files: Seq<FileView<T>>, start: int)
    requires
        well_held(files),
    ensures
        0 <= slot(files, start) <= files.len(),
        forall|i: int| 0 <= i < slot(files, start) ==> (#[trigger] files[i]).start < start,
        forall|i: int| slot(files, start) <= i < files.len() ==> start <= (#[trigger] files[i]).start,
    decreases files.len(),
{
    if files.len() > 0 {
        let front = files.drop_last();
        assert(well_held(front)) by {
            assert forall|i: int| 0 <= i < front.len() implies #[trigger] front[i] == files[i] by {}
        }
        lemma_slot(front, start);
        assert forall|i: int| 0 <= i < slot(files, start) implies (#[trigger] files[i]).start
            < start by {
            if i < front.len() {
                assert(files[i] == front[i]);
                assert(files[i].start < files[files.len() - 1].start);
            }
        }
        assert forall|i: int| slot(files, start) <= i < files.len() implies start <= (
        #[trigger] files[i]).start by {
            if i < front.len() {
                assert(files[i] == front[i]);
            }
        }
    }
}

proof fn lemma_count_update<T>(files: Seq<FileView<T>>, at: int, file: FileView<T>)
    requires
        0 <= at < files.len(),
    ensures
        count(files.update(at, file)) == count(files) - files[at].rows.len() + file.rows.len(),
    decreases files.len(),
{
    let front = files.drop_last();
    let after = files.update(at, file);
    if at == front.len() {
        assert(after.drop_last() =~= front);
    } else {
        lemma_count_update(front, at, file);
        assert(after.drop_last() =~= front.update(at, file));
    }
}

proof fn lemma_count_insert<T>(files: Seq<FileView<T>>, at: int, file: FileView<T>)
    requires
        0 <= at <= files.len(),
    ensures
        count(files.insert(at, file)) == count(files) + file.rows.len(),
    decreases files.len(),
{
    let after = files.insert(at, file);
    if at == files.len() {
        assert(after.drop_last() =~= files);
    } else {
        lemma_count_insert(files.drop_last(), at, file);
        assert(after.drop_last() =~= files.drop_last().insert(at, file));
    }
}

/// Adding a row keeps every row with those of its partition, and counts it
/// once.
proof fn lemma_added<T: Record>(files: Seq<FileView<T>>, row: T, id: Seq<u8>)
    requires
        well_held(files),
    ensures
        well_held(added(files, row, id)),
        count(added(files, row, id)) == count(files) + 1,
        added(files, row, id).len() > 0,
{
    let start = partition_of(row);
    let at = slot(files, start);
    let after = added(files, row, id);
    lemma_slot(files, start);
    if at < files.len() && files[at].start == start {
        let file = FileView { start, id: files[at].id, rows: files[at].rows.push(row) };
        lemma_count_update(files, at, file);
        assert forall|i: int, k: int|
            0 <= i < after.len() && 0 <= k < after[i].rows.len() implies partition_of(
            #[trigger] after[i].rows[k],
        ) == after[i].start by {
            if i == at {
                if k < files[at].rows.len() {
                    assert(after[i].rows[k] == files[at].rows[k]);
                }
            } else {
                assert(after[i] == files[i]);
                assert(partition_of(files[i].rows[k]) == files[i].start);
            }
        }
    } else {
        let file = FileView { start, id, rows: seq![row] };
        lemma_count_insert(files, at, file);
        assert forall|i: int| 0 <= i < after.len() && i != at implies #[trigger] after[i] == files[if i
            < at {
            i
        } else {
            i - 1
        }] by {}
        assert forall|i: int, k: int|
            0 <= i < after.len() && 0 <= k < after[i].rows.len() implies partition_of(
            #[trigger] after[i].rows[k],
        ) == after[i].start by {
            if i != at {
                let j = if i < at {
                    i
                } else {
                    i - 1
                };
                assert(after[i] == files[j]);
                assert(partition_of(files[j].rows[k]) == files[j].start);
            }
        }
    }
}

proof fn lemma_count_grows<T>(files: Seq<FileView<T>>, i: int, j: int)
    requires
        0 <= i <= j <= files.len(),
    ensures
        count(files.take(i)) <= count(files.take(j)),
    decreases j - i,
{
    if i < j {
        lemma_count_grows(files, i, j - 1);
        assert(files.take(j).drop_last() =~= files.take(j - 1));
    }
}

/// The rows of the partition that starts at `start`, in the order they came.
pub open spec fn rows_of_partition<T>(files: Seq<FileView<T>>, start: int) -> Seq<T>
    decreases files.len(),
{
    if files.len() == 0 {
        Seq::empty()
    } else if files.last().start == start {
        rows_of_partition(files.drop_last(), start) + files.last().rows
    } else {
        rows_of_partition(files.drop_last(), start)
    }
}

proof fn lemma_rows_of_partition<T>(files: Seq<FileView<T>>, start: int)
    requires
        forall|i: int, j: int|
            0 <= i < j < files.len() ==> (#[trigger] files[i]).start < (#[trigger] files[j]).start,
    ensures
        forall|i: int|
            0 <= i < files.len() && (#[trigger] files[i]).start == start ==> rows_of_partition(
                files,
                start,
            ) == files[i].rows,
        (forall|i: int| 0 <= i < files.len() ==> (#[trigger] files[i]).start != start)
            ==> rows_of_partition(files, start).len() == 0,
    decreases files.len(),
{
    if files.len() > 0 {
        let front = files.drop_last();
        let last = files.len() - 1;
        assert forall|i: int, j: int| 0 <= i < j < front.len() implies (#[trigger] front[i]).start
            < (#[trigger] front[j]).start by {
            assert(front[i] == files[i] && front[j] == files[j]);
        }
        lemma_rows_of_partition(front, start);
        assert forall|i: int| 0 <= i < front.len() implies #[trigger] front[i] == files[i] by {}
        if files[last].start == start {
            assert forall|i: int| 0 <= i < front.len() implies (#[trigger] front[i]).start
                != start by {
                assert(files[i].start < files[last].start);
            }
            assert(rows_of_partition(files, start) =~= files[last].rows);
        }
        assert forall|i: int| 0 <= i < files.len() && (#[trigger] files[i]).start
            == start implies rows_of_partition(files, start) == files[i].rows by {
            if i < last {
                assert(front[i].start == start);
            }
        }
    }
}

/// A row joins those of the partition its own arrival falls in, behind them,
/// and every other partition has the rows it had.
pub proof fn a_row_joins_its_own_partition<T: Record>(
    files: Seq<FileView<T>>,
    row: T,
    id: Seq<u8>,
    start: int,
)
    requires
        well_held(files),
    ensures
        ({
            let own = partition_floor(
                row.spec_common().received_at@,
                T::spec_granularity(),
            );
            rows_of_partition(added(files, row, id), start) == if start == own {
                rows_of_partition(files, start).push(row)
            } else {
                rows_of_partition(files, start)
            }
        }),
        well_held(added(files, row, id)),
{
    let own = partition_of(row);
    let at = slot(files, own);
    let after = added(files, row, id);
    lemma_slot(files, own);
    lemma_added(files, row, id);
    lemma_rows_of_partition(files, start);
    lemma_rows_of_partition(after, start);
    let joins = at < files.len() && files[at].start == own;
    assert forall|i: int| 0 <= i < after.len() && i != at implies #[trigger] after[i] == files[if i
        < at || joins {
        i
    } else {
        i - 1
    }] by {}
    if start == own {
        assert(after[at].start == start);
        if joins {
            assert(files[at].start == start);
        } else {
            assert(rows_of_partition(files, start) =~= Seq::<T>::empty());
            assert(after[at].rows =~= Seq::<T>::empty().push(row));
        }
    } else if exists|i: int| 0 <= i < files.len() && (#[trigger] files[i]).start == start {
        let i = choose|i: int| 0 <= i < files.len() && (#[trigger] files[i]).start == start;
        let j = if i < at || joins {
            i
        } else {
            i + 1
        };
        assert(after[j] == files[i]);
    } else {
        assert forall|i: int| 0 <= i < after.len() implies (#[trigger] after[i]).start != start by {
            if i != at {
                let j = if i < at || joins {
                    i
                } else {
                    i - 1
                };
                assert(after[i] == files[j]);
                assert(files[j].start != start);
            }
        }
        assert(rows_of_partition(files, start) =~= rows_of_partition(after, start));
    }
}

/// The rows of one partition among some, in the order they come in.
pub open spec fn rows_falling_in<T: Record>(rows: Seq<T>, start: int) -> Seq<T>
    decreases rows.len(),
{
    if rows.len() == 0 {
        Seq::empty()
    } else if partition_floor(rows.last().spec_common().received_at@, T::spec_granularity())
        == start {
        rows_falling_in(rows.drop_last(), start).push(rows.last())
    } else {
        rows_falling_in(rows.drop_last(), start)
    }
}

/// However rows come, together or apart, each partition holds what it held and
/// then the rows that fall in it, in the order they came.
pub proof fn rows_are_held_by_partition<T: Record>(
    files: Seq<FileView<T>>,
    rows: Seq<T>,
    ids: Seq<Seq<u8>>,
    start: int,
)
    requires
        well_held(files),
    ensures
        well_held(added_all(files, rows, ids)),
        rows_of_partition(added_all(files, rows, ids), start) == rows_of_partition(files, start)
            + rows_falling_in(rows, start),
        count(added_all(files, rows, ids)) == count(files) + rows.len(),
        all_rows(added_all(files, rows, ids)).to_multiset() == all_rows(files).to_multiset().add(
            rows.to_multiset(),
        ),
    decreases rows.len(),
{
    broadcast use vstd::multiset::group_multiset_axioms;
    broadcast use vstd::seq_lib::group_to_multiset_ensures;

    if rows.len() > 0 {
        let front = rows.drop_last();
        let held = added_all(files, front, ids);
        let id = ids[rows.len() - 1];
        rows_are_held_by_partition(files, front, ids, start);
        a_row_joins_its_own_partition(held, rows.last(), id, start);
        adding_a_row_loses_none(held, rows.last(), id);
        lemma_added(held, rows.last(), id);
        assert(rows =~= front.push(rows.last()));
        assert(all_rows(added_all(files, rows, ids)).to_multiset() =~= all_rows(
            files,
        ).to_multiset().add(rows.to_multiset()));
    } else {
        assert(all_rows(files).to_multiset() =~= all_rows(files).to_multiset().add(
            rows.to_multiset(),
        ));
    }
    assert(rows_of_partition(added_all(files, rows, ids), start) =~= rows_of_partition(
        files,
        start,
    ) + rows_falling_in(rows, start));
}

/// What is counted is every row held, each once.
pub proof fn every_row_held_is_counted<T>(files: Seq<FileView<T>>)
    ensures
        count(files) == all_rows(files).len(),
    decreases files.len(),
{
    if files.len() > 0 {
        every_row_held_is_counted(files.drop_last());
    }
}

/// A file of spans is written whole, to the directory of the day its partition
/// starts, under the id it was given, its rows sorted and each of them once.
pub proof fn a_file_is_written_with_all_its_rows(batch: Batch, file: FileView<Span>)
    requires
        is_batch_of(batch, file),
    ensures
        batch.directory@ == "spans"@ + "/"@ + "partition"@ + "="@ + rfc3339_text(
            file.start / 86_400_000_000_000 * 86_400,
        ),
        uuid_bytes(batch.file_id) == file.id,
        batch_rows(batch.rows) == file.rows.len(),
        exists|order: Seq<&Span>|
            {
                &&& #[trigger] order.to_multiset() == refs(file.rows).to_multiset()
                &&& rows_sorted(order)
                &&& batch_columns(batch.rows) == batch_of(order)
                &&& batch_fields(batch.rows) == Some(all_column_views::<Span>())
            },
{
    broadcast use vstd::seq_lib::group_to_multiset_ensures;

    a_span_goes_to_the_day_it_was_received(file.start);
    let order = choose|order: Seq<&Span>|
        stored_order(file.rows, order) && #[trigger] holds_rows(batch.rows, order);
    assert(order.to_multiset().len() == refs(file.rows).to_multiset().len());
}

} // verus!
