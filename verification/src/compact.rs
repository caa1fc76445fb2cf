//! Merges a partition's files into one, so a query opens fewer of them.

use object_store::path::Path;
use uuid::Uuid;
use vstd::multiset::Multiset;
use vstd::prelude::*;

use crate::ids::{new_id, uuid_bytes};
use crate::merged::{
    a_merged_name_lists_its_sources, all_live, filename_for, is_file, is_live, is_replaced,
    lemma_picks_all, merged_name, merged_names_do_not_compound, name_of, object_views, own_id_of,
    own_ids, picked_live, replaces, split_live, superseded_by, without_the_replaced_all_is_live,
    ObjectMeta, ObjectView, EXTENSION, SEPARATOR,
};
use crate::order::{
    in_bounds, key_le, key_lt, key_order_is_total, key_smaller_at, key_view, key_views,
    lemma_bytes_lt_irreflexive, lemma_key_lt_irreflexive, lemma_key_lt_transitive, part_lt, picked, same_key, KeyPart, Part,
};
use crate::paths::{
    a_file_is_under_its_directory, clone_path, directory_of, directory_text_of, join_path,
    path_named, path_str, path_text, path_with, same_path, OBJECT_STORE_URL,
};
use crate::record::{
    row_key, rows_sorted, sort_key, sort_order_names, sort_order_views, Record, Table,
};
use crate::spans::{a_span_is_told_by_its_ids, spans_are_stored_in_order, Span};
use crate::text::{
    hex, join_undoes_split, joined, lemma_joined_holds_no_other, lemma_segments_hold_no_other,
    lemma_text_lt_asymmetric, lemma_text_lt_irreflexive, lemma_text_lt_transitive,
    segments_hold_no_separator, string_views, text_less, text_lt, text_order_is_total,
    without_suffix,
};

verus! {

/// What a merge aims for. A file at this size is left alone: merging it again
/// would rewrite it for a fraction more.
pub const TARGET_FILE_BYTES: u64 = 134_217_728;

/// How far apart in size a batch's files may be. Bounds how much of a larger
/// file gets rewritten to absorb a smaller one. The byte budget alone would
/// not, since crumbs fit beside a nearly target-sized file.
pub const SIZE_SPREAD: u64 = 8;

/// Files per merge. A merge names every source in one filename, and a store
/// backed by files bounds that at 255 bytes. At unhyphenated uuids the budget
/// is `40 + 33n`, which leaves room for six.
pub const SOURCES_PER_MERGE: usize = 6;

/// Where a file of `size` goes among files in order of size: behind those that
/// are no larger.
pub open spec fn place(files: Seq<ObjectView>, size: int) -> int
    decreases files.len(),
{
    if files.len() == 0 || files.last().size <= size {
        files.len() as int
    } else {
        place(files.drop_last(), size)
    }
}

/// The files still worth merging, smallest first. Files of one size stay in
/// the order they were listed in.
pub open spec fn eligible(sources: Seq<ObjectView>) -> Seq<ObjectView>
    decreases sources.len(),
{
    if sources.len() == 0 {
        Seq::empty()
    } else {
        let rest = eligible(sources.drop_last());
        let last = sources.last();
        if last.size < TARGET_FILE_BYTES {
            rest.insert(place(rest, last.size), last)
        } else {
            rest
        }
    }
}

/// How many bytes the files from `from` to `to` have together.
pub open spec fn total(files: Seq<ObjectView>, from: int, to: int) -> int
    decreases to - from,
{
    if to <= from {
        0
    } else {
        total(files, from, to - 1) + files[to - 1].size
    }
}

/// A run of files, and whether it ended because the next did not fit beside
/// them.
pub struct Run {
    pub from: int,
    pub to: int,
    pub overflowed: bool,
}

/// The run that taking files from `i` on makes of one begun at `from`. It ends
/// once it has all a merge can name, or the next file would take it past the
/// target. While more files are coming, a file too large for the smallest of
/// the run begins a new one.
pub open spec fn run(files: Seq<ObjectView>, from: int, i: int, closed: bool) -> Run
    decreases files.len() - i,
{
    if i >= files.len() || i - from == SOURCES_PER_MERGE {
        Run { from, to: i, overflowed: false }
    } else {
        let start = if !closed && from < i && files[i].size > files[from].size * SIZE_SPREAD {
            i
        } else {
            from
        };
        if total(files, start, i) + files[i].size > TARGET_FILE_BYTES {
            Run { from: start, to: i, overflowed: true }
        } else {
            run(files, start, i + 1, closed)
        }
    }
}

/// The next batch worth merging: the first run of eligible files, where it has
/// two files or more and there is nothing to wait for.
pub open spec fn batch_of_sources(sources: Seq<ObjectView>, closed: bool) -> Option<
    Seq<ObjectView>,
> {
    let files = eligible(sources);
    let run = run(files, 0, 0, closed);
    let full = run.overflowed || run.to - run.from == SOURCES_PER_MERGE || closed;
    if full && run.to - run.from >= 2 {
        Some(files.subrange(run.from, run.to))
    } else {
        None
    }
}

proof fn lemma_place_bounds(files: Seq<ObjectView>, size: int)
    ensures
        0 <= place(files, size) <= files.len(),
    decreases files.len(),
{
    if files.len() > 0 {
        lemma_place_bounds(files.drop_last(), size);
    }
}

/// The positions of the files still worth merging, smallest first.
fn eligible_positions(sources: &Vec<ObjectMeta>) -> (positions: Vec<usize>)
    ensures
        in_bounds(positions@, sources@.len()),
        picked(object_views(sources@), positions@) == eligible(object_views(sources@)),
{
    let ghost views = object_views(sources@);
    let mut positions: Vec<usize> = Vec::new();
    let mut i: usize = 0;
    assert(picked(views, positions@) =~= eligible(views.take(0)));
    while i < sources.len()
        invariant
            i <= sources.len(),
            views == object_views(sources@),
            in_bounds(positions@, sources@.len()),
            picked(views, positions@) == eligible(views.take(i as int)),
        decreases sources.len() - i,
    {
        let size = sources[i].size;
        let ghost rest = eligible(views.take(i as int));
        assert(views.take(i + 1).drop_last() =~= views.take(i as int));
        assert(views[i as int] == sources@[i as int]@);
        if size < TARGET_FILE_BYTES {
            let mut at: usize = positions.len();
            assert(rest.take(at as int) =~= rest);
            while at > 0 && sources[positions[at - 1]].size > size
                invariant
                    at <= positions.len(),
                    views == object_views(sources@),
                    in_bounds(positions@, sources@.len()),
                    rest == picked(views, positions@),
                    place(rest.take(at as int), size as int) == place(rest, size as int),
                decreases at,
            {
                assert(rest.take(at as int).drop_last() =~= rest.take(at - 1));
                assert(rest[at - 1] == views[positions@[at - 1] as int]);
                at = at - 1;
            }
            proof {
                if at > 0 {
                    assert(rest[at - 1] == views[positions@[at - 1] as int]);
                }
                assert(place(rest, size as int) == at);
            }
            let ghost before = positions@;
            positions.insert(at, i);
            assert(picked(views, positions@) =~= rest.insert(at as int, views[i as int]));
        }
        i = i + 1;
    }
    assert(views.take(i as int) =~= views);
    positions
}

proof fn lemma_eligible(sources: Seq<ObjectView>)
    requires
        forall|i: int| 0 <= i < sources.len() ==> 0 <= (#[trigger] sources[i]).size,
    ensures
        forall|i: int|
            0 <= i < eligible(sources).len() ==> 0 <= (#[trigger] eligible(sources)[i]).size
                < TARGET_FILE_BYTES,
    decreases sources.len(),
{
    if sources.len() > 0 {
        let front = sources.drop_last();
        assert forall|i: int| 0 <= i < front.len() implies 0 <= (#[trigger] front[i]).size by {
            assert(front[i] == sources[i]);
        }
        lemma_eligible(front);
        let rest = eligible(front);
        let last = sources.last();
        assert(last == sources[sources.len() - 1]);
        let at = place(rest, last.size);
        lemma_place_bounds(rest, last.size);
        assert forall|i: int| 0 <= i < eligible(sources).len() implies 0 <= (
        #[trigger] eligible(sources)[i]).size < TARGET_FILE_BYTES by {
            if last.size < TARGET_FILE_BYTES {
                if i < at {
                    assert(eligible(sources)[i] == rest[i]);
                } else if i > at {
                    assert(eligible(sources)[i] == rest[i - 1]);
                }
            }
        }
    }
}

pub open spec fn batch_view(batch: Option<Vec<ObjectMeta>>) -> Option<Seq<ObjectView>> {
    match batch {
        Some(batch) => Some(object_views(batch@)),
        None => None,
    }
}

/// The next batch worth merging, smallest files first.
///
/// Restarts the batch rather than stopping when a file is too large for it, or
/// one stray crumb anchors the spread for the whole listing and nothing ever
/// merges. Closed, there is no later batch to leave the crumbs for.
pub fn next_batch(sources: &Vec<ObjectMeta>, closed: bool) -> (batch: Option<Vec<ObjectMeta>>)
    ensures
        batch_view(batch) == batch_of_sources(object_views(sources@), closed),
{
    let ghost views = object_views(sources@);
    let ghost files = eligible(views);
    let positions = eligible_positions(sources);
    proof {
        assert forall|i: int| 0 <= i < views.len() implies 0 <= (#[trigger] views[i]).size by {
            assert(views[i] == sources@[i]@);
        }
        lemma_eligible(views);
    }
    let mut from: usize = 0;
    let mut i: usize = 0;
    let mut bytes: u64 = 0;
    let mut overflowed = false;
    assert forall|k: int| 0 <= k < files.len() implies (#[trigger] files[k]).size
        == sources@[positions@[k] as int].size by {
        assert(files[k] == views[positions@[k] as int]);
    }
    while i < positions.len() && i - from < SOURCES_PER_MERGE && !overflowed
        invariant
            files == eligible(views),
            positions@.len() == files.len(),
            in_bounds(positions@, sources@.len()),
            forall|k: int|
                0 <= k < files.len() ==> (#[trigger] files[k]).size
                    == sources@[positions@[k] as int].size,
            forall|k: int|
                0 <= k < files.len() ==> 0 <= (#[trigger] files[k]).size < TARGET_FILE_BYTES,
            from <= i <= positions.len(),
            i - from <= SOURCES_PER_MERGE,
            bytes == total(files, from as int, i as int),
            bytes <= TARGET_FILE_BYTES,
            if overflowed {
                run(files, 0, 0, closed) == (Run {
                    from: from as int,
                    to: i as int,
                    overflowed: true,
                })
            } else {
                run(files, 0, 0, closed) == run(files, from as int, i as int, closed)
            },
        decreases
            positions.len() - i,
            if overflowed {
                0int
            } else {
                1
            },
    {
        let size = sources[positions[i]].size;
        assert(files[i as int].size == size);
        if from < i {
            let smallest = sources[positions[from]].size;
            assert(files[from as int].size == smallest);
            if !closed && size > smallest * SIZE_SPREAD {
                from = i;
                bytes = 0;
            }
        }
        if bytes + size > TARGET_FILE_BYTES {
            overflowed = true;
        } else {
            bytes = bytes + size;
            i = i + 1;
        }
    }
    let full = overflowed || i - from == SOURCES_PER_MERGE || closed;
    if !full || i - from < 2 {
        return None;
    }
    let mut batch: Vec<ObjectMeta> = Vec::new();
    let mut n: usize = from;
    while n < i
        invariant
            from <= n <= i <= positions.len(),
            views == object_views(sources@),
            files == picked(views, positions@),
            in_bounds(positions@, sources@.len()),
            object_views(batch@) == files.subrange(from as int, n as int),
        decreases i - n,
    {
        let ghost before = batch@;
        batch.push(sources[positions[n]].clone());
        n = n + 1;
        assert(files[n - 1] == views[positions@[n - 1] as int]);
        assert(object_views(batch@) =~= object_views(before).push(files[n - 1]));
        assert(object_views(batch@) =~= files.subrange(from as int, n as int));
    }
    Some(batch)
}

/// Whether a batch has a file at the place another is.
pub open spec fn uses(batch: Seq<ObjectView>, location: Seq<char>) -> bool {
    exists|i: int| 0 <= i < batch.len() && (#[trigger] batch[i]).location == location
}

/// The files that are not where one of a batch is, in order.
pub open spec fn unused(sources: Seq<ObjectView>, batch: Seq<ObjectView>) -> Seq<ObjectView>
    decreases sources.len(),
{
    if sources.len() == 0 {
        Seq::empty()
    } else if uses(batch, sources.last().location) {
        unused(sources.drop_last(), batch)
    } else {
        unused(sources.drop_last(), batch).push(sources.last())
    }
}

/// What a partition's files are once a batch of them has become one.
pub open spec fn after_merge(
    sources: Seq<ObjectView>,
    batch: Seq<ObjectView>,
    merged: ObjectView,
) -> Seq<ObjectView> {
    unused(sources, batch).push(merged)
}

fn uses_location(batch: &Vec<ObjectMeta>, location: &Path) -> (used: bool)
    ensures
        used == uses(object_views(batch@), path_text(*location)),
{
    let ghost views = object_views(batch@);
    let mut i: usize = 0;
    while i < batch.len()
        invariant
            i <= batch.len(),
            views == object_views(batch@),
            forall|k: int|
                0 <= k < i ==> (#[trigger] views[k]).location != path_text(*location),
        decreases batch.len() - i,
    {
        assert(views[i as int] == batch@[i as int]@);
        if same_path(&batch[i].location, location) {
            return true;
        }
        i = i + 1;
    }
    false
}

/// What a partition's files are once each of `files` in turn has replaced the
/// batch that was the next worth merging.
pub open spec fn merged_down(
    sources: Seq<ObjectView>,
    closed: bool,
    files: Seq<ObjectView>,
) -> Seq<ObjectView>
    decreases files.len(),
{
    if files.len() == 0 {
        sources
    } else {
        let so_far = merged_down(sources, closed, files.drop_last());
        after_merge(so_far, batch_of_sources(so_far, closed)->Some_0, files.last())
    }
}

/// The files there were when the one at `i` was written.
pub open spec fn files_at(
    sources: Seq<ObjectView>,
    closed: bool,
    files: Seq<ObjectView>,
    i: int,
) -> Seq<ObjectView> {
    merged_down(sources, closed, files.take(i))
}

/// Whether each of `files` was written when there was a batch to merge.
pub open spec fn each_was_due(
    sources: Seq<ObjectView>,
    closed: bool,
    files: Seq<ObjectView>,
) -> bool {
    forall|i: int|
        0 <= i < files.len() ==> batch_of_sources(
            #[trigger] files_at(sources, closed, files, i),
            closed,
        ) is Some
}

/// Whether `files` are all a partition had to be merged into: each was due, and
/// no batch is left worth merging.
pub open spec fn is_merged_down(
    sources: Seq<ObjectView>,
    closed: bool,
    files: Seq<ObjectView>,
) -> bool {
    &&& each_was_due(sources, closed, files)
    &&& batch_of_sources(merged_down(sources, closed, files), closed) is None
}

/// One partition being merged down: what is left to merge, and what has been
/// written.
pub struct Compaction {
    sources: Vec<ObjectMeta>,
    stale: Vec<ObjectMeta>,
    closed: bool,
    written: Vec<Path>,
    started: Ghost<Seq<ObjectView>>,
    merges: Ghost<Seq<ObjectView>>,
}

pub open spec fn locations(files: Seq<ObjectView>) -> Seq<Seq<char>> {
    files.map_values(|file: ObjectView| file.location)
}

pub open spec fn path_texts(paths: Seq<Path>) -> Seq<Seq<char>> {
    paths.map_values(|path: Path| path_text(path))
}

impl Compaction {
    #[verifier::type_invariant]
    spec fn follows(&self) -> bool {
        &&& object_views(self.sources@) == merged_down(self.started@, self.closed, self.merges@)
        &&& each_was_due(self.started@, self.closed, self.merges@)
        &&& path_texts(self.written@) == locations(self.merges@)
    }

    /// The partition's files now.
    pub closed spec fn sources(&self) -> Seq<ObjectView> {
        object_views(self.sources@)
    }

    /// The partition's files at the start.
    pub closed spec fn started(&self) -> Seq<ObjectView> {
        self.started@
    }

    /// What batches have become so far, in order.
    pub closed spec fn merges(&self) -> Seq<ObjectView> {
        self.merges@
    }

    /// The files that were listed though a merge had replaced them.
    pub closed spec fn spec_stale(&self) -> Seq<ObjectView> {
        object_views(self.stale@)
    }

    /// Whether no more files are coming.
    pub closed spec fn is_closed(&self) -> bool {
        self.closed
    }

    /// Where the merged files are, in the order they were written.
    pub closed spec fn spec_written(&self) -> Seq<Seq<char>> {
        path_texts(self.written@)
    }

    /// `closed` says no more files are coming, which is what makes a partial
    /// batch worth merging. While a partition is still being written to, a
    /// merge now is one the next file undoes.
    ///
    /// A file that a merge has already replaced is not merged again: its rows
    /// are in the file that replaced it.
    pub fn new(listing: Vec<ObjectMeta>, closed: bool) -> (compaction: Compaction)
        ensures
            compaction.sources() == picked_live(
                object_views(listing@),
                object_views(listing@),
                true,
            ),
            compaction.spec_stale() == picked_live(
                object_views(listing@),
                object_views(listing@),
                false,
            ),
            compaction.started() == compaction.sources(),
            compaction.merges() == Seq::<ObjectView>::empty(),
            compaction.is_closed() == closed,
            compaction.spec_written() == Seq::<Seq<char>>::empty(),
    {
        let (sources, stale) = split_live(listing);
        let written: Vec<Path> = Vec::new();
        let ghost started = object_views(sources@);
        assert(path_texts(written@) =~= Seq::<Seq<char>>::empty());
        assert(locations(Seq::empty()) =~= Seq::<Seq<char>>::empty());
        Compaction {
            sources,
            stale,
            closed,
            written,
            started: Ghost(started),
            merges: Ghost(Seq::empty()),
        }
    }

    /// The files to delete before anything is merged: listed, though a merge
    /// has replaced them. Nothing but the name of the file that did says so,
    /// and once that is merged in turn they would be read again.
    pub fn stale(&self) -> (stale: &Vec<ObjectMeta>)
        ensures
            object_views(stale@) == self.spec_stale(),
    {
        &self.stale
    }

    /// What to merge next. Nothing, once no batch is left worth merging.
    pub fn next(&self) -> (batch: Option<Vec<ObjectMeta>>)
        ensures
            batch_view(batch) == batch_of_sources(self.sources(), self.is_closed()),
            self.sources() == merged_down(self.started(), self.is_closed(), self.merges()),
            batch is None ==> is_merged_down(self.started(), self.is_closed(), self.merges()),
    {
        proof {
            use_type_invariant(self);
        }
        next_batch(&self.sources, self.closed)
    }

    /// Takes note that a batch has become one file. That file is a source for
    /// the next pass, so a partition ends as one file rather than as a pile of
    /// batch outputs.
    pub fn merged(&mut self, batch: &Vec<ObjectMeta>, merged: ObjectMeta)
        requires
            batch_of_sources(old(self).sources(), old(self).is_closed()) == Some(
                object_views(batch@),
            ),
        ensures
            final(self).started() == old(self).started(),
            final(self).merges() == old(self).merges().push(merged@),
            final(self).spec_stale() == old(self).spec_stale(),
            final(self).sources() == after_merge(
                old(self).sources(),
                object_views(batch@),
                merged@,
            ),
            final(self).is_closed() == old(self).is_closed(),
            final(self).spec_written() == old(self).spec_written().push(merged@.location),
    {
        proof {
            use_type_invariant(&*self);
        }
        let ghost views = self.sources();
        let ghost batch_views = object_views(batch@);
        let mut whole = Compaction::new(Vec::new(), self.closed);
        std::mem::swap(self, &mut whole);
        let Compaction { sources, stale, closed, written, started, merges } = whole;
        let mut written = written;
        let ghost old_written = written@;
        let mut kept: Vec<ObjectMeta> = Vec::new();
        assert(views.take(0) =~= Seq::<ObjectView>::empty());
        for source in iter: sources
            invariant
                views == object_views(iter.seq()),
                batch_views == object_views(batch@),
                object_views(kept@) == unused(views.take(iter.index()), batch_views),
        {
            let ghost so_far = views.take(iter.index() + 1);
            let ghost before = kept@;
            assert(so_far.drop_last() =~= views.take(iter.index()));
            assert(so_far.last() == source@);
            if !uses_location(batch, &source.location) {
                kept.push(source);
                assert(object_views(kept@) =~= object_views(before).push(so_far.last()));
            }
        }
        assert(views.take(views.len() as int) =~= views);
        written.push(clone_path(&merged.location));
        assert(path_texts(written@) =~= path_texts(old_written).push(merged@.location));
        let ghost before = kept@;
        let ghost after = merges@.push(merged@);
        kept.push(merged);
        proof {
            assert(object_views(kept@) =~= object_views(before).push(after.last()));
            assert(after.drop_last() =~= merges@);
            assert(locations(after) =~= locations(merges@).push(after.last().location));
            assert forall|i: int| 0 <= i < after.len() implies batch_of_sources(
                #[trigger] files_at(started@, closed, after, i),
                closed,
            ) is Some by {
                if i < merges@.len() {
                    assert(after.take(i) =~= merges@.take(i));
                    assert(files_at(started@, closed, merges@, i) == files_at(
                        started@,
                        closed,
                        after,
                        i,
                    ));
                } else {
                    assert(after.take(i) =~= merges@);
                }
            }
        }
        *self = Compaction {
            sources: kept,
            stale,
            closed,
            written,
            started,
            merges: Ghost(after),
        };
    }

    /// What was written, in order.
    pub fn written(self) -> (written: Vec<Path>)
        ensures
            path_texts(written@) == self.spec_written(),
            path_texts(written@) == locations(self.merges()),
    {
        proof {
            use_type_invariant(&self);
        }
        self.written
    }
}

/// Where the file that replaces some sources goes: beside the first of them.
pub open spec fn merged_path(id: Seq<char>, sources: Seq<ObjectView>) -> Seq<char> {
    path_with(directory_text_of(sources[0].location), merged_name(id, sources))
}

/// The url each source is read from.
pub open spec fn scan_urls(sources: Seq<ObjectView>) -> Seq<Seq<char>> {
    sources.map_values(
        |source: ObjectView| OBJECT_STORE_URL@ + "/"@ + source.location,
    )
}

/// How one batch becomes one file: the sources are read from `scans`, a group
/// per file, interleaved in `order`, written to `path`, and deleted once it has
/// landed.
#[derive(Debug)]
pub struct Merge {
    pub path: Path,
    pub scans: Vec<String>,
    pub order: Vec<(&'static str, bool)>,
}

/// How the file with id `id` comes to replace some sources.
pub fn plan_for<T: Record>(id: &Uuid, sources: &Vec<ObjectMeta>) -> (plan: Merge)
    requires
        sources@.len() > 0,
        forall|i: int| 0 <= i < sources@.len() ==> is_file(#[trigger] sources@[i]@),
    ensures
        path_text(plan.path) == merged_path(hex(uuid_bytes(*id)), object_views(sources@)),
        string_views(plan.scans@) == scan_urls(object_views(sources@)),
        sort_order_views(plan.order@) == sort_order_names::<T>(),
{
    let ghost views = object_views(sources@);
    assert(views[0] == sources@[0]@);
    let path = join_path(
        directory_of(&sources[0].location),
        filename_for(id, sources.as_slice()),
    );
    let mut scans: Vec<String> = Vec::new();
    let mut i: usize = 0;
    while i < sources.len()
        invariant
            i <= sources.len(),
            views == object_views(sources@),
            string_views(scans@) == scan_urls(views).take(i as int),
        decreases sources.len() - i,
    {
        let mut url = String::from_str(OBJECT_STORE_URL);
        url.append("/");
        url.append(path_str(&sources[i].location));
        let ghost before = scans@;
        scans.push(url);
        i = i + 1;
        assert(views[i - 1] == sources@[i - 1]@);
        assert(string_views(scans@) =~= string_views(before).push(scan_urls(views)[i - 1]));
        assert(string_views(scans@) =~= scan_urls(views).take(i as int));
    }
    assert(scan_urls(views).take(i as int) =~= scan_urls(views));
    Merge { path, scans, order: T::sort_order() }
}

/// How a new file comes to replace some sources.
pub fn plan<T: Record>(sources: &Vec<ObjectMeta>) -> (plan: Merge)
    requires
        sources@.len() > 0,
        forall|i: int| 0 <= i < sources@.len() ==> is_file(#[trigger] sources@[i]@),
    ensures
        exists|id: Uuid|
            uuid_bytes(id).len() == 16 && path_text(plan.path) == #[trigger] merged_path(
                hex(uuid_bytes(id)),
                object_views(sources@),
            ),
        string_views(plan.scans@) == scan_urls(object_views(sources@)),
        sort_order_views(plan.order@) == sort_order_names::<T>(),
{
    let id = new_id();
    plan_for::<T>(&id, sources)
}

/// Whether a directory is that of some object.
pub open spec fn holds(objects: Seq<ObjectView>, directory: Seq<char>) -> bool {
    exists|i: int|
        0 <= i < objects.len() && directory_text_of((#[trigger] objects[i]).location) == directory
}

/// Whether some object is in a later directory.
pub open spec fn is_older(objects: Seq<ObjectView>, directory: Seq<char>) -> bool {
    exists|later: Seq<char>| #[trigger] holds(objects, later) && text_lt(directory, later)
}

pub open spec fn ascend(texts: Seq<Seq<char>>) -> bool {
    forall|i: int, j: int|
        0 <= i < j < texts.len() ==> text_lt(#[trigger] texts[i], #[trigger] texts[j])
}

/// Every directory some objects are in, in order.
fn directories(objects: &Vec<ObjectMeta>) -> (directories: Vec<Path>)
    ensures
        ascend(path_texts(directories@)),
        forall|directory: Seq<char>| #[trigger]
            path_texts(directories@).contains(directory) <==> holds(
                object_views(objects@),
                directory,
            ),
{
    let ghost views = object_views(objects@);
    let mut found: Vec<Path> = Vec::new();
    let mut i: usize = 0;
    while i < objects.len()
        invariant
            i <= objects.len(),
            views == object_views(objects@),
            ascend(path_texts(found@)),
            forall|directory: Seq<char>| #[trigger]
                path_texts(found@).contains(directory) <==> holds(
                    views.take(i as int),
                    directory,
                ),
        decreases objects.len() - i,
    {
        let directory = directory_of(&objects[i].location);
        assert(views[i as int] == objects@[i as int]@);
        let ghost texts = path_texts(found@);
        let ghost text = path_text(directory);
        let mut at: usize = 0;
        while at < found.len() && text_less(path_str(&found[at]), path_str(&directory))
            invariant
                at <= found.len(),
                texts == path_texts(found@),
                text == path_text(directory),
                forall|k: int| 0 <= k < at ==> text_lt(#[trigger] texts[k], text),
            decreases found.len() - at,
        {
            assert(texts[at as int] == path_text(found@[at as int]));
            at = at + 1;
        }
        if at == found.len() || !same_path(&found[at], &directory) {
            proof {
                if at < found.len() {
                    assert(texts[at as int] == path_text(found@[at as int]));
                    text_order_is_total(texts[at as int], text);
                }
                lemma_inserted_ascends(texts, at as int, text);
            }
            found.insert(at, directory);
            assert(path_texts(found@) =~= texts.insert(at as int, text));
        } else {
            assert(texts[at as int] == text);
        }
        proof {
            let after = path_texts(found@);
            assert forall|d: Seq<char>| #[trigger] after.contains(d) <==> holds(
                views.take(i + 1),
                d,
            ) by {
                let earlier = views.take(i as int);
                let later = views.take(i + 1);
                assert(later[i as int] == views[i as int]);
                if after.contains(d) {
                    let k = choose|k: int| 0 <= k < after.len() && after[k] == d;
                    if d != text {
                        if after.len() == texts.len() || k < at {
                            assert(texts[k] == d);
                        } else {
                            assert(texts[k - 1] == d);
                        }
                        assert(texts.contains(d));
                        assert(holds(earlier, d));
                        let n = choose|n: int|
                            0 <= n < earlier.len() && directory_text_of(
                                (#[trigger] earlier[n]).location,
                            ) == d;
                        assert(later[n] == earlier[n]);
                    }
                }
                if holds(later, d) {
                    let n = choose|n: int|
                        0 <= n < later.len() && directory_text_of((#[trigger] later[n]).location)
                            == d;
                    if n < i {
                        assert(earlier[n] == later[n]);
                        assert(holds(earlier, d));
                        assert(texts.contains(d));
                        let k = choose|k: int| 0 <= k < texts.len() && texts[k] == d;
                        if after.len() == texts.len() || k < at {
                            assert(after[k] == d);
                        } else {
                            assert(after[k + 1] == d);
                        }
                    } else {
                        assert(after[at as int] == text);
                    }
                }
            }
        }
        i = i + 1;
    }
    assert(views.take(i as int) =~= views);
    found
}

proof fn lemma_inserted_ascends(texts: Seq<Seq<char>>, at: int, text: Seq<char>)
    requires
        ascend(texts),
        0 <= at <= texts.len(),
        forall|k: int| 0 <= k < at ==> text_lt(#[trigger] texts[k], text),
        at < texts.len() ==> text_lt(text, texts[at]),
    ensures
        ascend(texts.insert(at, text)),
{
    let after = texts.insert(at, text);
    assert forall|k: int| at <= k < texts.len() implies text_lt(text, #[trigger] texts[k]) by {
        if k > at {
            lemma_text_lt_transitive(text, texts[at], texts[k]);
        }
    }
    assert forall|i: int, j: int| 0 <= i < j < after.len() implies text_lt(
        #[trigger] after[i],
        #[trigger] after[j],
    ) by {
        if i != at {
            assert(after[i] == texts[if i < at {
                i
            } else {
                i - 1
            }]);
        }
        if j != at {
            assert(after[j] == texts[if j < at {
                j
            } else {
                j - 1
            }]);
        }
    }
}

/// The partitions no more files are coming to: every one that some objects are
/// in but the newest, which is the only one still being written to.
pub fn closed_partitions(objects: &Vec<ObjectMeta>) -> (closed: Vec<Path>)
    ensures
        ascend(path_texts(closed@)),
        forall|directory: Seq<char>| #[trigger]
            path_texts(closed@).contains(directory) <==> holds(object_views(objects@), directory)
                && is_older(object_views(objects@), directory),
{
    let ghost views = object_views(objects@);
    let mut all = directories(objects);
    let ghost texts = path_texts(all@);
    let _ = all.pop();
    proof {
        let kept = path_texts(all@);
        assert(kept =~= if texts.len() == 0 {
            texts
        } else {
            texts.drop_last()
        });
        assert forall|i: int, j: int| 0 <= i < j < kept.len() implies text_lt(
            #[trigger] kept[i],
            #[trigger] kept[j],
        ) by {
            assert(kept[i] == texts[i] && kept[j] == texts[j]);
        }
        assert forall|d: Seq<char>| #[trigger] kept.contains(d) <==> holds(views, d) && is_older(
            views,
            d,
        ) by {
            if kept.contains(d) {
                let k = choose|k: int| 0 <= k < kept.len() && kept[k] == d;
                assert(texts[k] == d);
                let newest = texts[texts.len() - 1];
                assert(texts.contains(newest));
                assert(texts.contains(d));
                assert(holds(views, newest) && text_lt(d, newest));
            }
            if holds(views, d) && is_older(views, d) {
                assert(texts.contains(d));
                let k = choose|k: int| 0 <= k < texts.len() && texts[k] == d;
                let later = choose|later: Seq<char>| #[trigger]
                    holds(views, later) && text_lt(d, later);
                assert(texts.contains(later));
                let n = choose|n: int| 0 <= n < texts.len() && texts[n] == later;
                if k == texts.len() - 1 {
                    if n < k {
                        lemma_text_lt_asymmetric(texts[n], texts[k]);
                    } else {
                        lemma_text_lt_irreflexive(d);
                    }
                }
                assert(kept[k] == d);
            }
        }
    }
    all
}

/// Which rows of a merge are kept, as they come by in the order they are
/// stored in: where rows are merged, the first of those with the same key.
#[derive(Debug)]
pub struct Collapse {
    merging: bool,
    last: Option<Vec<KeyPart>>,
}

impl Collapse {
    /// Whether rows with the same key are merged at all.
    pub closed spec fn is_merging(&self) -> bool {
        self.merging
    }

    /// The key of the row that came by last.
    pub closed spec fn last_key(&self) -> Option<Seq<Part>> {
        match self.last {
            Some(key) => Some(key_view(key@)),
            None => None,
        }
    }

    /// Before the first row of a merge of records of one type.
    pub fn of<T: Record>() -> (collapse: Collapse)
        ensures
            collapse.is_merging() == (T::spec_version_column() is Some),
            collapse.last_key() == None::<Seq<Part>>,
    {
        Collapse { merging: T::merge().is_some(), last: None }
    }

    /// Whether to keep the next row, whose key is `key`.
    pub fn keep(&mut self, key: Vec<KeyPart>) -> (kept: bool)
        ensures
            kept == (!old(self).is_merging() || old(self).last_key() != Some(key_view(key@))),
            final(self).is_merging() == old(self).is_merging(),
            final(self).last_key() == Some(key_view(key@)),
    {
        let kept = match &self.last {
            Some(last) => !self.merging || !same_key(last, &key),
            None => true,
        };
        self.last = Some(key);
        kept
    }
}

/// Which rows are kept, of those with some keys coming by after one with the
/// key `last`.
pub open spec fn marks(
    merging: bool,
    last: Option<Seq<Part>>,
    keys: Seq<Seq<Part>>,
) -> Seq<bool> {
    Seq::new(
        keys.len(),
        |i: int|
            !merging || (if i == 0 {
                last
            } else {
                Some(keys[i - 1])
            }) != Some(keys[i]),
    )
}

/// The key that came by last, once some have after one with the key `last`.
pub open spec fn last_after(last: Option<Seq<Part>>, keys: Seq<Seq<Part>>) -> Option<Seq<Part>> {
    if keys.len() == 0 {
        last
    } else {
        Some(keys.last())
    }
}

impl Collapse {
    /// Which of the next rows to keep, by their keys.
    pub fn keep_all(&mut self, keys: Vec<Vec<KeyPart>>) -> (kept: Vec<bool>)
        ensures
            kept@ == marks(old(self).is_merging(), old(self).last_key(), key_views(keys@)),
            final(self).is_merging() == old(self).is_merging(),
            final(self).last_key() == last_after(old(self).last_key(), key_views(keys@)),
    {
        let ghost views = key_views(keys@);
        let ghost last = self.last_key();
        let ghost merging = self.is_merging();
        let mut kept: Vec<bool> = Vec::new();
        for key in iter: keys
            invariant
                views == key_views(iter.seq()),
                self.is_merging() == merging,
                self.last_key() == last_after(last, views.take(iter.index())),
                kept@.len() == iter.index(),
                forall|i: int|
                    0 <= i < kept@.len() ==> #[trigger] kept@[i] == marks(merging, last, views)[i],
        {
            assert(views[iter.index()] == key_view(key@));
            let ghost so_far = views.take(iter.index() + 1);
            assert(so_far.last() == views[iter.index()]);
            kept.push(self.keep(key));
        }
        assert(views.take(views.len() as int) =~= views);
        assert(kept@ =~= marks(merging, last, views));
        kept
    }
}

/// Rows are kept alike however many at a time they come by.
pub proof fn rows_are_kept_alike_in_any_batches(
    merging: bool,
    last: Option<Seq<Part>>,
    a: Seq<Seq<Part>>,
    b: Seq<Seq<Part>>,
)
    ensures
        marks(merging, last, a + b) == marks(merging, last, a) + marks(
            merging,
            last_after(last, a),
            b,
        ),
        last_after(last, a + b) == last_after(last_after(last, a), b),
{
    assert forall|i: int| 0 <= i < a.len() + b.len() implies marks(merging, last, a + b)[i] == (
    marks(merging, last, a) + marks(merging, last_after(last, a), b))[i] by {
        if i > 0 && i < a.len() {
            assert((a + b)[i - 1] == a[i - 1]);
        } else if i > a.len() {
            assert((a + b)[i - 1] == b[i - 1 - a.len()]);
        } else if i == a.len() && i > 0 {
            assert((a + b)[i - 1] == a[i - 1]);
        }
    }
    assert(marks(merging, last, a + b) =~= marks(merging, last, a) + marks(
        merging,
        last_after(last, a),
        b,
    ));
}

/// The keys of some rows, in order.
pub open spec fn row_keys<T: Record>(rows: Seq<&T>) -> Seq<Seq<Part>> {
    rows.map_values(|row: &T| row_key(*row))
}

/// Of the rows that come by from the first on, those a merge keeps are the ones
/// that are kept.
pub proof fn the_rows_kept_are_those_that_survive<T: Record>(rows: Seq<&T>, i: int)
    requires
        0 <= i < rows.len(),
    ensures
        marks(T::spec_version_column() is Some, None, row_keys(rows))[i] == survives(rows, i),
{
    if i > 0 {
        assert(row_keys(rows)[i - 1] == row_key(*rows[i - 1]));
    }
    assert(row_keys(rows)[i] == row_key(*rows[i]));
}

/// Whether a row of a merge is kept.
pub open spec fn survives<T: Record>(rows: Seq<&T>, i: int) -> bool {
    T::spec_version_column() is Some ==> i == 0 || row_key(*rows[i]) != row_key(*rows[i - 1])
}

proof fn lemma_sort_keys<T: Record>(a: T, b: T)
    requires
        T::spec_version_column() is Some,
        key_le(sort_key(a), sort_key(b)),
    ensures
        row_key(a) == row_key(b) && a.spec_version() >= b.spec_version() || key_lt(
            row_key(a),
            row_key(b),
        ),
{
    let x = row_key(a);
    let y = row_key(b);
    a.keys_are_whole();
    b.keys_are_whole();
    key_order_is_total(x, y);
    if key_lt(y, x) {
        let i = choose|i: int| key_smaller_at(y, x, i);
        assert(sort_key(b).take(i) =~= y.take(i));
        assert(sort_key(a).take(i) =~= x.take(i));
        assert(key_smaller_at(sort_key(b), sort_key(a), i));
    } else if x == y && a.spec_version() < b.spec_version() {
        let n = x.len() as int;
        assert(sort_key(b).take(n) =~= sort_key(a).take(n));
        assert(part_lt(sort_key(b)[n], sort_key(a)[n]));
        assert(key_smaller_at(sort_key(b), sort_key(a), n));
    }
}

proof fn lemma_run_of_keys<T: Record>(rows: Seq<&T>, i: int, j: int)
    requires
        T::spec_version_column() is Some,
        rows_sorted(rows),
        0 <= i < j < rows.len(),
        row_key(*rows[i]) == row_key(*rows[j]),
    ensures
        row_key(*rows[j - 1]) == row_key(*rows[j]),
        rows[i].spec_version() >= rows[j].spec_version(),
{
    lemma_sort_keys(*rows[i], *rows[j]);
    lemma_key_lt_irreflexive(row_key(*rows[i]));
    if i < j - 1 {
        lemma_sort_keys(*rows[i], *rows[j - 1]);
        lemma_sort_keys(*rows[j - 1], *rows[j]);
        if key_lt(row_key(*rows[i]), row_key(*rows[j - 1])) && key_lt(
            row_key(*rows[j - 1]),
            row_key(*rows[j]),
        ) {
            lemma_key_lt_transitive(
                row_key(*rows[i]),
                row_key(*rows[j - 1]),
                row_key(*rows[j]),
            );
        }
    }
}

/// Merging rows keeps one row of each key.
pub proof fn no_two_rows_kept_share_a_key<T: Record>(rows: Seq<&T>, i: int, j: int)
    requires
        T::spec_version_column() is Some,
        rows_sorted(rows),
        0 <= i < j < rows.len(),
        survives(rows, i),
        survives(rows, j),
    ensures
        row_key(*rows[i]) != row_key(*rows[j]),
{
    if row_key(*rows[i]) == row_key(*rows[j]) {
        lemma_run_of_keys(rows, i, j);
    }
}

/// Of the rows with one key, merging keeps one that is as new as any of them.
pub proof fn the_newest_row_is_kept<T: Record>(rows: Seq<&T>, i: int) -> (kept: int)
    requires
        T::spec_version_column() is Some,
        rows_sorted(rows),
        0 <= i < rows.len(),
    ensures
        0 <= kept <= i,
        survives(rows, kept),
        row_key(*rows[kept]) == row_key(*rows[i]),
        rows[kept].spec_version() >= rows[i].spec_version(),
    decreases i,
{
    if i == 0 || row_key(*rows[i]) != row_key(*rows[i - 1]) {
        i
    } else {
        lemma_run_of_keys(rows, i - 1, i);
        the_newest_row_is_kept(rows, i - 1)
    }
}

proof fn lemma_place(files: Seq<ObjectView>, size: int)
    requires
        sizes_ascend(files),
    ensures
        0 <= place(files, size) <= files.len(),
        forall|i: int| 0 <= i < place(files, size) ==> (#[trigger] files[i]).size <= size,
        forall|i: int| place(files, size) <= i < files.len() ==> size < (#[trigger] files[i]).size,
    decreases files.len(),
{
    if files.len() > 0 {
        let front = files.drop_last();
        assert forall|i: int, j: int| 0 <= i < j < front.len() implies (#[trigger] front[i]).size <= (
        #[trigger] front[j]).size by {
            assert(front[i] == files[i] && front[j] == files[j]);
        }
        lemma_place(front, size);
        assert forall|i: int| 0 <= i < place(files, size) implies (#[trigger] files[i]).size
            <= size by {
            if i < front.len() {
                assert(files[i] == front[i]);
                assert(files[i].size <= files[files.len() - 1].size);
            }
        }
        assert forall|i: int| place(files, size) <= i < files.len() implies size < (
        #[trigger] files[i]).size by {
            if i < front.len() {
                assert(files[i] == front[i]);
            }
        }
    }
}

/// Whether files are in order of size, the smallest first.
pub open spec fn sizes_ascend(files: Seq<ObjectView>) -> bool {
    forall|i: int, j: int|
        0 <= i < j < files.len() ==> (#[trigger] files[i]).size <= (#[trigger] files[j]).size
}

/// Files are merged smallest first, and all of them are files there are.
pub proof fn the_smallest_files_merge_first(sources: Seq<ObjectView>)
    ensures
        sizes_ascend(eligible(sources)),
        eligible(sources).to_multiset().subset_of(sources.to_multiset()),
        forall|i: int|
            0 <= i < eligible(sources).len() ==> (#[trigger] eligible(sources)[i]).size
                < TARGET_FILE_BYTES,
    decreases sources.len(),
{
    broadcast use vstd::seq_lib::group_to_multiset_ensures;
    broadcast use vstd::multiset::group_multiset_axioms;

    if sources.len() > 0 {
        let front = sources.drop_last();
        let last = sources.last();
        the_smallest_files_merge_first(front);
        let rest = eligible(front);
        lemma_place(rest, last.size);
        let at = place(rest, last.size);
        assert(sources =~= front.push(last));
        assert(sources.to_multiset() =~= front.to_multiset().insert(last));
        if last.size < TARGET_FILE_BYTES {
            let files = rest.insert(at, last);
            vstd::seq_lib::to_multiset_insert(rest, at, last);
            assert forall|i: int, j: int| 0 <= i < j < files.len() implies (
            #[trigger] files[i]).size <= (#[trigger] files[j]).size by {
                if i != at {
                    assert(files[i] == rest[if i < at {
                        i
                    } else {
                        i - 1
                    }]);
                }
                if j != at {
                    assert(files[j] == rest[if j < at {
                        j
                    } else {
                        j - 1
                    }]);
                }
            }
            assert forall|i: int| 0 <= i < files.len() implies (#[trigger] files[i]).size
                < TARGET_FILE_BYTES by {
                if i != at {
                    assert(files[i] == rest[if i < at {
                        i
                    } else {
                        i - 1
                    }]);
                }
            }
        }
    }
}

/// What holds of a run begun at `from` that has taken the files to `i`.
spec fn is_run(files: Seq<ObjectView>, from: int, i: int, closed: bool) -> bool {
    &&& 0 <= from <= i <= files.len()
    &&& i - from <= SOURCES_PER_MERGE
    &&& total(files, from, i) <= TARGET_FILE_BYTES
    &&& !closed ==> forall|k: int|
        from <= k < i ==> (#[trigger] files[k]).size <= files[from].size * SIZE_SPREAD
}

proof fn lemma_run(files: Seq<ObjectView>, from: int, i: int, closed: bool)
    requires
        is_run(files, from, i, closed),
        forall|k: int|
            0 <= k < files.len() ==> 0 <= (#[trigger] files[k]).size < TARGET_FILE_BYTES,
    ensures
        ({
            let end = run(files, from, i, closed);
            &&& is_run(files, end.from, end.to, closed)
            &&& closed ==> end.from == from
            &&& i <= end.to
            &&& end.overflowed ==> end.to < files.len() && total(files, end.from, end.to)
                + files[end.to].size > TARGET_FILE_BYTES
            &&& !end.overflowed ==> end.to == files.len() || end.to - end.from
                == SOURCES_PER_MERGE
        }),
    decreases files.len() - i,
{
    if i < files.len() && i - from != SOURCES_PER_MERGE {
        let start = if !closed && from < i && files[i].size > files[from].size * SIZE_SPREAD {
            i
        } else {
            from
        };
        assert(total(files, i, i) == 0);
        if total(files, start, i) + files[i].size <= TARGET_FILE_BYTES {
            assert(files[start].size <= files[start].size * SIZE_SPREAD);
            lemma_run(files, start, i + 1, closed);
        }
    }
}

proof fn lemma_total_of_subrange(files: Seq<ObjectView>, from: int, to: int, n: int)
    requires
        0 <= from <= to <= files.len(),
        0 <= n <= to - from,
    ensures
        total(files.subrange(from, to), 0, n) == total(files, from, from + n),
    decreases n,
{
    if n > 0 {
        lemma_total_of_subrange(files, from, to, n - 1);
        assert(files.subrange(from, to)[n - 1] == files[from + n - 1]);
    }
}

/// A batch is two files or more, no more than a merge can name, within the
/// target together, and all of them files there are. While more are coming,
/// none is larger than the smallest by more than the spread.
pub proof fn a_batch_is_worth_merging(sources: Seq<ObjectView>, closed: bool)
    requires
        forall|i: int| 0 <= i < sources.len() ==> 0 <= (#[trigger] sources[i]).size,
        batch_of_sources(sources, closed) is Some,
    ensures
        ({
            let batch = batch_of_sources(sources, closed)->Some_0;
            &&& 2 <= batch.len() <= SOURCES_PER_MERGE
            &&& total(batch, 0, batch.len() as int) <= TARGET_FILE_BYTES
            &&& sizes_ascend(batch)
            &&& batch.to_multiset().subset_of(sources.to_multiset())
            &&& !closed ==> batch.last().size <= batch[0].size * SIZE_SPREAD
        }),
{
    let files = eligible(sources);
    let end = run(files, 0, 0, closed);
    let batch = files.subrange(end.from, end.to);
    the_smallest_files_merge_first(sources);
    lemma_eligible(sources);
    lemma_run(files, 0, 0, closed);
    lemma_total_of_subrange(files, end.from, end.to, end.to - end.from);
    assert forall|i: int, j: int| 0 <= i < j < batch.len() implies (#[trigger] batch[i]).size <= (
    #[trigger] batch[j]).size by {
        assert(batch[i] == files[end.from + i] && batch[j] == files[end.from + j]);
    }
    lemma_subrange_subset(files, end.from, end.to);
    assert(batch.last() == files[end.to - 1]);
    assert(batch[0] == files[end.from]);
}

proof fn lemma_subrange_subset(files: Seq<ObjectView>, from: int, to: int)
    requires
        0 <= from <= to <= files.len(),
    ensures
        files.subrange(from, to).to_multiset().subset_of(files.to_multiset()),
{
    broadcast use vstd::multiset::group_multiset_axioms;

    let before = files.subrange(0, from);
    let middle = files.subrange(from, to);
    let after = files.subrange(to, files.len() as int);
    vstd::seq_lib::lemma_multiset_commutative(before, middle);
    vstd::seq_lib::lemma_multiset_commutative(before + middle, after);
    assert(before + middle + after =~= files);
}

/// Closed, two files that fit together are always merged; nothing is left for
/// later. Only a partition without two such files is left as it is.
pub proof fn a_closed_partition_waits_for_nothing(sources: Seq<ObjectView>)
    requires
        forall|i: int| 0 <= i < sources.len() ==> 0 <= (#[trigger] sources[i]).size,
    ensures
        batch_of_sources(sources, true) is None <==> {
            ||| eligible(sources).len() < 2
            ||| eligible(sources)[0].size + eligible(sources)[1].size > TARGET_FILE_BYTES
        },
{
    let files = eligible(sources);
    lemma_eligible(sources);
    lemma_run(files, 0, 0, true);
    reveal_with_fuel(run, 3);
    reveal_with_fuel(total, 3);
    if files.len() >= 2 {
        assert(total(files, 0, 0) == 0);
        assert(total(files, 0, 1) == files[0].size);
        if files[0].size + files[1].size <= TARGET_FILE_BYTES {
            assert(total(files, 0, 2) == files[0].size + files[1].size);
            lemma_run(files, 0, 2, true);
        }
    }
}

proof fn lemma_unused_length(
    sources: Seq<ObjectView>,
    batch: Seq<ObjectView>,
    taken: Multiset<ObjectView>,
)
    requires
        taken.subset_of(sources.to_multiset()),
        forall|object: ObjectView| taken.count(object) > 0 ==> #[trigger] uses(
            batch,
            object.location,
        ),
    ensures
        unused(sources, batch).len() + taken.len() <= sources.len(),
    decreases sources.len(),
{
    broadcast use vstd::seq_lib::group_to_multiset_ensures;
    broadcast use vstd::multiset::group_multiset_axioms;

    if sources.len() > 0 {
        let front = sources.drop_last();
        let last = sources.last();
        assert(sources =~= front.push(last));
        assert(sources.to_multiset() =~= front.to_multiset().insert(last));
        if taken.count(last) > 0 {
            assert(uses(batch, last.location));
            let rest = taken.remove(last);
            assert(rest.subset_of(front.to_multiset()));
            assert forall|object: ObjectView| rest.count(object) > 0 implies #[trigger] uses(
                batch,
                object.location,
            ) by {
                assert(taken.count(object) > 0);
            }
            lemma_unused_length(front, batch, rest);
        } else {
            assert(taken.subset_of(front.to_multiset()));
            lemma_unused_length(front, batch, taken);
        }
    } else {
        assert(taken =~= Multiset::<ObjectView>::empty());
    }
}

/// Each merge leaves fewer files than there were, so merging a partition down
/// comes to an end.
pub proof fn a_merge_leaves_fewer_files(
    sources: Seq<ObjectView>,
    closed: bool,
    merged: ObjectView,
)
    requires
        forall|i: int| 0 <= i < sources.len() ==> 0 <= (#[trigger] sources[i]).size,
        batch_of_sources(sources, closed) is Some,
    ensures
        after_merge(sources, batch_of_sources(sources, closed)->Some_0, merged).len()
            < sources.len(),
{
    broadcast use vstd::seq_lib::group_to_multiset_ensures;

    let batch = batch_of_sources(sources, closed)->Some_0;
    a_batch_is_worth_merging(sources, closed);
    assert forall|object: ObjectView| batch.to_multiset().count(object) > 0 implies #[trigger] uses(
        batch,
        object.location,
    ) by {
        assert(batch.contains(object));
        let i = choose|i: int| 0 <= i < batch.len() && batch[i] == object;
        assert(batch[i].location == object.location);
    }
    lemma_unused_length(sources, batch, batch.to_multiset());
}

proof fn lemma_merged_name_holds_no_slash(id: Seq<char>, sources: Seq<ObjectView>)
    requires
        !id.contains('/'),
        forall|i: int| 0 <= i < sources.len() ==> is_file(#[trigger] sources[i]),
    ensures
        !merged_name(id, sources).contains('/'),
{
    let ids = seq![id] + own_ids(sources);
    assert forall|i: int| 0 <= i < ids.len() implies !(#[trigger] ids[i]).contains('/') by {
        if i > 0 {
            let source = sources[i - 1];
            assert(is_file(source));
            let name = name_of(source)->Some_0;
            segments_hold_no_separator(source.location, '/');
            join_undoes_split(source.location, '/');
            assert(!name.contains('/'));
            let stem = without_suffix(name, EXTENSION@);
            assert(!stem.contains('/')) by {
                if stem.contains('/') {
                    let k = choose|k: int| 0 <= k < stem.len() && stem[k] == '/';
                    assert(name[k] == '/');
                }
            }
            lemma_segments_hold_no_other(stem, SEPARATOR, '/');
            join_undoes_split(stem, SEPARATOR);
        }
    }
    lemma_joined_holds_no_other(ids, seq![SEPARATOR], '/');
    let stem = joined(ids, seq![SEPARATOR]);
    let name = merged_name(id, sources);
    reveal_strlit(".parquet");
    assert forall|k: int| 0 <= k < name.len() implies #[trigger] name[k] != '/' by {
        if k < stem.len() {
            assert(name[k] == stem[k]);
        } else {
            assert(name[k] == EXTENSION@[k - stem.len()]);
        }
    }
}

/// A merged file lands in the partition its sources are in.
pub proof fn a_merge_lands_beside_its_sources(
    id: Seq<char>,
    sources: Seq<ObjectView>,
    directory: Seq<char>,
    name: Seq<char>,
)
    requires
        !id.contains('/'),
        sources.len() > 0,
        forall|i: int| 0 <= i < sources.len() ==> is_file(#[trigger] sources[i]),
        path_named(directory).len() > 0,
        name.len() > 0,
        !name.contains('/'),
        sources[0].location == path_named(directory + seq!['/'] + name),
    ensures
        merged_path(id, sources) == path_named(directory + seq!['/'] + merged_name(id, sources)),
        directory_text_of(merged_path(id, sources)) == path_named(directory),
{
    reveal_strlit(".parquet");
    lemma_merged_name_holds_no_slash(id, sources);
    assert(merged_name(id, sources).len() > 0);
    a_file_is_under_its_directory(directory, name);
    a_file_is_under_its_directory(directory, merged_name(id, sources));
}

/// A batch can always be named: a store backed by files takes a name of 255
/// bytes.
pub proof fn a_batch_can_be_named(sources: Seq<ObjectView>, closed: bool, id: Seq<char>)
    requires
        forall|i: int| 0 <= i < sources.len() ==> 0 <= (#[trigger] sources[i]).size,
        batch_of_sources(sources, closed) is Some,
        id.len() <= 32,
        forall|i: int|
            0 <= i < batch_of_sources(sources, closed)->Some_0.len() ==> (#[trigger] own_ids(
                batch_of_sources(sources, closed)->Some_0,
            )[i]).len() <= 32,
    ensures
        merged_name(id, batch_of_sources(sources, closed)->Some_0).len() <= 255,
{
    a_batch_is_worth_merging(sources, closed);
    merged_names_do_not_compound(id, batch_of_sources(sources, closed)->Some_0);
}

/// Whether no two files are at one place.
pub open spec fn places_differ(files: Seq<ObjectView>) -> bool {
    forall|i: int, j: int|
        0 <= i < j < files.len() ==> (#[trigger] files[i]).location != (
        #[trigger] files[j]).location
}

/// Whether each of `files` was written where there was none.
pub open spec fn places_are_new(
    sources: Seq<ObjectView>,
    closed: bool,
    files: Seq<ObjectView>,
) -> bool {
    forall|i: int|
        0 <= i < files.len() ==> !uses(
            #[trigger] files_at(sources, closed, files, i),
            files[i].location,
        )
}

/// The rows of some files, where `rows` says which are in the one at a place.
pub open spec fn rows_in<R>(
    files: Seq<ObjectView>,
    rows: spec_fn(Seq<char>) -> Multiset<R>,
) -> Multiset<R>
    decreases files.len(),
{
    if files.len() == 0 {
        Multiset::empty()
    } else {
        rows_in(files.drop_last(), rows).add(rows(files.last().location))
    }
}

/// Whether each of `files` has the rows of the batch it replaced.
pub open spec fn rows_carry_over<R>(
    sources: Seq<ObjectView>,
    closed: bool,
    files: Seq<ObjectView>,
    rows: spec_fn(Seq<char>) -> Multiset<R>,
) -> bool {
    forall|i: int|
        0 <= i < files.len() ==> rows(files[i].location) == rows_in(
            batch_of_sources(#[trigger] files_at(sources, closed, files, i), closed)->Some_0,
            rows,
        )
}

pub open spec fn sizes_are_sizes(files: Seq<ObjectView>) -> bool {
    forall|i: int| 0 <= i < files.len() ==> 0 <= (#[trigger] files[i]).size
}

proof fn lemma_files_at_front(
    sources: Seq<ObjectView>,
    closed: bool,
    files: Seq<ObjectView>,
    i: int,
)
    requires
        0 <= i < files.len(),
    ensures
        i < files.len() - 1 ==> files_at(sources, closed, files.drop_last(), i) == files_at(
            sources,
            closed,
            files,
            i,
        ),
        i == files.len() - 1 ==> files_at(sources, closed, files, i) == merged_down(
            sources,
            closed,
            files.drop_last(),
        ),
{
    if i < files.len() - 1 {
        assert(files.drop_last().take(i) =~= files.take(i));
    } else {
        assert(files.take(i) =~= files.drop_last());
    }
}

proof fn lemma_due_front(sources: Seq<ObjectView>, closed: bool, files: Seq<ObjectView>)
    requires
        files.len() > 0,
        each_was_due(sources, closed, files),
    ensures
        each_was_due(sources, closed, files.drop_last()),
        batch_of_sources(merged_down(sources, closed, files.drop_last()), closed) is Some,
{
    let front = files.drop_last();
    assert forall|i: int| 0 <= i < front.len() implies batch_of_sources(
        #[trigger] files_at(sources, closed, front, i),
        closed,
    ) is Some by {
        lemma_files_at_front(sources, closed, files, i);
        assert(batch_of_sources(files_at(sources, closed, files, i), closed) is Some);
    }
    lemma_files_at_front(sources, closed, files, files.len() - 1);
    assert(batch_of_sources(files_at(sources, closed, files, files.len() - 1), closed) is Some);
}

proof fn lemma_new_front(sources: Seq<ObjectView>, closed: bool, files: Seq<ObjectView>)
    requires
        files.len() > 0,
        places_are_new(sources, closed, files),
    ensures
        places_are_new(sources, closed, files.drop_last()),
        !uses(merged_down(sources, closed, files.drop_last()), files.last().location),
{
    let front = files.drop_last();
    assert forall|i: int| 0 <= i < front.len() implies !uses(
        #[trigger] files_at(sources, closed, front, i),
        front[i].location,
    ) by {
        lemma_files_at_front(sources, closed, files, i);
        assert(!uses(files_at(sources, closed, files, i), files[i].location));
    }
    lemma_files_at_front(sources, closed, files, files.len() - 1);
    assert(!uses(
        files_at(sources, closed, files, files.len() - 1),
        files[files.len() - 1].location,
    ));
}

/// The files a merge leaves are some of those there were, in order.
proof fn lemma_unused(sources: Seq<ObjectView>, batch: Seq<ObjectView>)
    ensures
        forall|i: int|
            0 <= i < unused(sources, batch).len() ==> {
                &&& sources.contains(#[trigger] unused(sources, batch)[i])
                &&& !uses(batch, unused(sources, batch)[i].location)
            },
        forall|i: int|
            0 <= i < sources.len() && !uses(batch, (#[trigger] sources[i]).location) ==> unused(
                sources,
                batch,
            ).contains(sources[i]),
        places_differ(sources) ==> places_differ(unused(sources, batch)),
    decreases sources.len(),
{
    if sources.len() > 0 {
        let front = sources.drop_last();
        let last = sources.last();
        let rest = unused(front, batch);
        let kept = unused(sources, batch);
        lemma_unused(front, batch);
        assert(sources[sources.len() - 1] == last);
        assert forall|i: int| 0 <= i < kept.len() implies sources.contains(#[trigger] kept[i])
            && !uses(batch, kept[i].location) by {
            if i < rest.len() {
                assert(kept[i] == rest[i]);
                let k = choose|k: int| 0 <= k < front.len() && front[k] == rest[i];
                assert(sources[k] == kept[i]);
            }
        }
        assert forall|i: int|
            0 <= i < sources.len() && !uses(batch, (#[trigger] sources[i]).location) implies kept.contains(
        sources[i]) by {
            if i < front.len() {
                assert(front[i] == sources[i]);
                assert(rest.contains(front[i]));
                let k = choose|k: int| 0 <= k < rest.len() && rest[k] == front[i];
                assert(kept[k] == sources[i]);
            } else {
                assert(kept[kept.len() - 1] == last);
            }
        }
        if places_differ(sources) {
            assert forall|i: int, j: int| 0 <= i < j < front.len() implies (
            #[trigger] front[i]).location != (#[trigger] front[j]).location by {
                assert(front[i] == sources[i] && front[j] == sources[j]);
            }
            assert forall|i: int, j: int| 0 <= i < j < kept.len() implies (
            #[trigger] kept[i]).location != (#[trigger] kept[j]).location by {
                assert(kept[i] == rest[i]);
                if j < rest.len() {
                    assert(kept[j] == rest[j]);
                } else {
                    let k = choose|k: int| 0 <= k < front.len() && front[k] == rest[i];
                    assert(sources[k] == rest[i]);
                    assert(sources[k].location != sources[sources.len() - 1].location);
                }
            }
        }
    }
}

proof fn lemma_places_stay_different(
    sources: Seq<ObjectView>,
    batch: Seq<ObjectView>,
    merged: ObjectView,
)
    requires
        places_differ(sources),
        !uses(sources, merged.location),
    ensures
        places_differ(after_merge(sources, batch, merged)),
{
    let kept = unused(sources, batch);
    let after = after_merge(sources, batch, merged);
    lemma_unused(sources, batch);
    assert forall|i: int, j: int| 0 <= i < j < after.len() implies (#[trigger] after[i]).location
        != (#[trigger] after[j]).location by {
        assert(after[i] == kept[i]);
        if j < kept.len() {
            assert(after[j] == kept[j]);
        } else {
            assert(sources.contains(kept[i]));
            let k = choose|k: int| 0 <= k < sources.len() && sources[k] == kept[i];
            assert(sources[k].location != merged.location);
        }
    }
}

proof fn lemma_merged_down(sources: Seq<ObjectView>, closed: bool, files: Seq<ObjectView>)
    requires
        sizes_are_sizes(sources),
        sizes_are_sizes(files),
    ensures
        sizes_are_sizes(merged_down(sources, closed, files)),
        places_differ(sources) && places_are_new(sources, closed, files) ==> places_differ(
            merged_down(sources, closed, files),
        ),
    decreases files.len(),
{
    if files.len() > 0 {
        let front = files.drop_last();
        let so_far = merged_down(sources, closed, front);
        let batch = batch_of_sources(so_far, closed)->Some_0;
        let after = merged_down(sources, closed, files);
        assert forall|i: int| 0 <= i < front.len() implies 0 <= (#[trigger] front[i]).size by {
            assert(front[i] == files[i]);
        }
        lemma_merged_down(sources, closed, front);
        lemma_unused(so_far, batch);
        assert(files.last() == files[files.len() - 1]);
        assert forall|i: int| 0 <= i < after.len() implies 0 <= (#[trigger] after[i]).size by {
            if i < unused(so_far, batch).len() {
                assert(after[i] == unused(so_far, batch)[i]);
                let k = choose|k: int| 0 <= k < so_far.len() && so_far[k] == after[i];
            }
        }
        if places_differ(sources) && places_are_new(sources, closed, files) {
            lemma_new_front(sources, closed, files);
            lemma_places_stay_different(so_far, batch, files.last());
        }
    }
}

/// Merging a partition down comes to an end: it writes fewer files than there
/// were, and each leaves one fewer at the least.
pub proof fn a_compaction_comes_to_an_end(
    sources: Seq<ObjectView>,
    closed: bool,
    files: Seq<ObjectView>,
)
    requires
        sizes_are_sizes(sources),
        sizes_are_sizes(files),
        each_was_due(sources, closed, files),
    ensures
        merged_down(sources, closed, files).len() + files.len() <= sources.len(),
        files.len() > 0 ==> files.len() < sources.len(),
    decreases files.len(),
{
    if files.len() > 0 {
        let front = files.drop_last();
        assert forall|i: int| 0 <= i < front.len() implies 0 <= (#[trigger] front[i]).size by {
            assert(front[i] == files[i]);
        }
        lemma_due_front(sources, closed, files);
        a_compaction_comes_to_an_end(sources, closed, front);
        lemma_merged_down(sources, closed, front);
        a_merge_leaves_fewer_files(merged_down(sources, closed, front), closed, files.last());
    }
}

/// Merged down, a partition has no batch left worth merging. Where there was
/// none to begin with, nothing is written and nothing changes; otherwise
/// something is.
pub proof fn merging_down_leaves_nothing_to_merge(
    sources: Seq<ObjectView>,
    closed: bool,
    files: Seq<ObjectView>,
)
    requires
        is_merged_down(sources, closed, files),
    ensures
        batch_of_sources(merged_down(sources, closed, files), closed) is None,
        files.len() == 0 <==> batch_of_sources(sources, closed) is None,
        files.len() == 0 ==> merged_down(sources, closed, files) == sources,
{
    if files.len() > 0 {
        assert(files.take(0) =~= Seq::<ObjectView>::empty());
        assert(files_at(sources, closed, files, 0) == sources);
    }
}

/// A file at the target or beyond is left as it is.
pub proof fn large_files_are_left_alone(
    sources: Seq<ObjectView>,
    closed: bool,
    files: Seq<ObjectView>,
    i: int,
)
    requires
        sizes_are_sizes(sources),
        sizes_are_sizes(files),
        each_was_due(sources, closed, files),
        places_differ(sources),
        places_are_new(sources, closed, files),
        0 <= i < sources.len(),
        sources[i].size >= TARGET_FILE_BYTES,
    ensures
        merged_down(sources, closed, files).contains(sources[i]),
    decreases files.len(),
{
    if files.len() > 0 {
        let front = files.drop_last();
        let so_far = merged_down(sources, closed, front);
        let batch = batch_of_sources(so_far, closed)->Some_0;
        assert forall|k: int| 0 <= k < front.len() implies 0 <= (#[trigger] front[k]).size by {
            assert(front[k] == files[k]);
        }
        lemma_due_front(sources, closed, files);
        lemma_new_front(sources, closed, files);
        lemma_merged_down(sources, closed, front);
        large_files_are_left_alone(sources, closed, front, i);
        let k = choose|k: int| 0 <= k < so_far.len() && so_far[k] == sources[i];
        lemma_batch_is_of_sources(so_far, closed);
        if uses(batch, so_far[k].location) {
            let n = choose|n: int|
                0 <= n < batch.len() && (#[trigger] batch[n]).location == so_far[k].location;
            assert(so_far.contains(batch[n]));
            lemma_one_file_at_a_place(so_far, batch[n], so_far[k]);
        }
        lemma_unused(so_far, batch);
        assert(unused(so_far, batch).contains(so_far[k]));
        let n = choose|n: int|
            0 <= n < unused(so_far, batch).len() && unused(so_far, batch)[n] == so_far[k];
        assert(merged_down(sources, closed, files)[n] == sources[i]);
    } else {
        assert(sources.contains(sources[i]));
    }
}

proof fn lemma_one_file_at_a_place(files: Seq<ObjectView>, a: ObjectView, b: ObjectView)
    requires
        places_differ(files),
        files.contains(a),
        files.contains(b),
        a.location == b.location,
    ensures
        a == b,
{
    let i = choose|i: int| 0 <= i < files.len() && files[i] == a;
    let j = choose|j: int| 0 <= j < files.len() && files[j] == b;
    if i < j {
        assert(files[i].location != files[j].location);
    } else if j < i {
        assert(files[j].location != files[i].location);
    }
}

proof fn lemma_batch_is_of_sources(sources: Seq<ObjectView>, closed: bool)
    requires
        sizes_are_sizes(sources),
        batch_of_sources(sources, closed) is Some,
    ensures
        ({
            let batch = batch_of_sources(sources, closed)->Some_0;
            forall|i: int|
                0 <= i < batch.len() ==> sources.contains(#[trigger] batch[i])
                    && batch[i].size < TARGET_FILE_BYTES
        }),
{
    broadcast use vstd::seq_lib::group_to_multiset_ensures;

    let batch = batch_of_sources(sources, closed)->Some_0;
    let files = eligible(sources);
    let end = run(files, 0, 0, closed);
    a_batch_is_worth_merging(sources, closed);
    the_smallest_files_merge_first(sources);
    lemma_eligible(sources);
    lemma_run(files, 0, 0, closed);
    assert forall|i: int| 0 <= i < batch.len() implies sources.contains(#[trigger] batch[i])
        && batch[i].size < TARGET_FILE_BYTES by {
        assert(batch.contains(batch[i]));
        assert(batch.to_multiset().count(batch[i]) > 0);
        assert(sources.to_multiset().count(batch[i]) > 0);
        assert(batch[i] == files[end.from + i]);
    }
}

proof fn lemma_unused_is_the_rest(
    sources: Seq<ObjectView>,
    batch: Seq<ObjectView>,
    taken: Multiset<ObjectView>,
)
    requires
        places_differ(sources),
        taken.subset_of(sources.to_multiset()),
        forall|object: ObjectView| taken.count(object) > 0 ==> #[trigger] uses(
            batch,
            object.location,
        ),
        forall|i: int|
            0 <= i < sources.len() && uses(batch, (#[trigger] sources[i]).location)
                ==> taken.count(sources[i]) > 0,
    ensures
        unused(sources, batch).to_multiset().add(taken) == sources.to_multiset(),
    decreases sources.len(),
{
    broadcast use vstd::seq_lib::group_to_multiset_ensures;
    broadcast use vstd::multiset::group_multiset_axioms;

    if sources.len() > 0 {
        let front = sources.drop_last();
        let last = sources.last();
        assert(sources[sources.len() - 1] == last);
        assert(sources =~= front.push(last));
        assert(sources.to_multiset() =~= front.to_multiset().insert(last));
        assert forall|i: int, j: int| 0 <= i < j < front.len() implies (
        #[trigger] front[i]).location != (#[trigger] front[j]).location by {
            assert(front[i] == sources[i] && front[j] == sources[j]);
        }
        if taken.count(last) > 0 {
            let rest = taken.remove(last);
            assert(uses(batch, last.location));
            assert(rest.subset_of(front.to_multiset()));
            assert forall|object: ObjectView| rest.count(object) > 0 implies #[trigger] uses(
                batch,
                object.location,
            ) by {
                assert(taken.count(object) > 0);
            }
            assert forall|i: int|
                0 <= i < front.len() && uses(
                    batch,
                    (#[trigger] front[i]).location,
                ) implies rest.count(front[i]) > 0 by {
                assert(front[i] == sources[i]);
                assert(sources[i].location != sources[sources.len() - 1].location);
                assert(taken.count(sources[i]) > 0);
            }
            lemma_unused_is_the_rest(front, batch, rest);
            assert(rest.insert(last) =~= taken);
            assert(unused(sources, batch).to_multiset().add(taken) =~= sources.to_multiset());
        } else {
            assert(taken.subset_of(front.to_multiset()));
            assert forall|i: int|
                0 <= i < front.len() && uses(
                    batch,
                    (#[trigger] front[i]).location,
                ) implies taken.count(front[i]) > 0 by {
                assert(front[i] == sources[i]);
            }
            lemma_unused_is_the_rest(front, batch, taken);
            assert(unused(sources, batch).to_multiset().add(taken) =~= sources.to_multiset());
        }
    } else {
        assert(unused(sources, batch).to_multiset().add(taken) =~= sources.to_multiset());
    }
}

proof fn lemma_rows_without<R>(
    files: Seq<ObjectView>,
    i: int,
    rows: spec_fn(Seq<char>) -> Multiset<R>,
)
    requires
        0 <= i < files.len(),
    ensures
        rows_in(files, rows) == rows_in(files.remove(i), rows).add(rows(files[i].location)),
    decreases files.len(),
{
    let front = files.drop_last();
    if i == files.len() - 1 {
        assert(files.remove(i) =~= front);
    } else {
        lemma_rows_without(front, i, rows);
        assert(front[i] == files[i]);
        assert(files.remove(i).drop_last() =~= front.remove(i));
        assert(files.remove(i).last() == files.last());
        assert(rows_in(files, rows) =~= rows_in(files.remove(i), rows).add(
            rows(files[i].location),
        ));
    }
}

proof fn lemma_rows_in_any_order<R>(
    a: Seq<ObjectView>,
    b: Seq<ObjectView>,
    rows: spec_fn(Seq<char>) -> Multiset<R>,
)
    requires
        a.to_multiset() == b.to_multiset(),
    ensures
        rows_in(a, rows) == rows_in(b, rows),
    decreases a.len(),
{
    broadcast use vstd::seq_lib::group_to_multiset_ensures;
    broadcast use vstd::multiset::group_multiset_axioms;

    assert(a.len() == b.len()) by {
        assert(a.to_multiset().len() == a.len());
        assert(b.to_multiset().len() == b.len());
    }
    if a.len() > 0 {
        let last = a.last();
        let front = a.drop_last();
        assert(a =~= front.push(last));
        assert(a.to_multiset() =~= front.to_multiset().insert(last));
        assert(b.to_multiset().count(last) > 0);
        assert(b.contains(last));
        let j = choose|j: int| 0 <= j < b.len() && b[j] == last;
        let rest = b.remove(j);
        assert(rest.to_multiset() =~= b.to_multiset().remove(last));
        assert(front.to_multiset() =~= rest.to_multiset());
        lemma_rows_in_any_order(front, rest, rows);
        lemma_rows_without(b, j, rows);
    }
}

proof fn lemma_rows_of_both<R>(
    a: Seq<ObjectView>,
    b: Seq<ObjectView>,
    rows: spec_fn(Seq<char>) -> Multiset<R>,
)
    ensures
        rows_in(a + b, rows) == rows_in(a, rows).add(rows_in(b, rows)),
    decreases b.len(),
{
    if b.len() == 0 {
        assert(a + b =~= a);
    } else {
        lemma_rows_of_both(a, b.drop_last(), rows);
        assert((a + b).drop_last() =~= a + b.drop_last());
    }
    assert(rows_in(a + b, rows) =~= rows_in(a, rows).add(rows_in(b, rows)));
}

proof fn lemma_a_merge_keeps_rows<R>(
    sources: Seq<ObjectView>,
    closed: bool,
    merged: ObjectView,
    rows: spec_fn(Seq<char>) -> Multiset<R>,
)
    requires
        sizes_are_sizes(sources),
        places_differ(sources),
        batch_of_sources(sources, closed) is Some,
        rows(merged.location) == rows_in(batch_of_sources(sources, closed)->Some_0, rows),
    ensures
        rows_in(
            after_merge(sources, batch_of_sources(sources, closed)->Some_0, merged),
            rows,
        ) == rows_in(sources, rows),
{
    broadcast use vstd::seq_lib::group_to_multiset_ensures;

    let batch = batch_of_sources(sources, closed)->Some_0;
    let kept = unused(sources, batch);
    a_batch_is_worth_merging(sources, closed);
    lemma_batch_is_of_sources(sources, closed);
    assert forall|object: ObjectView| batch.to_multiset().count(object) > 0 implies #[trigger] uses(
        batch,
        object.location,
    ) by {
        assert(batch.contains(object));
        let i = choose|i: int| 0 <= i < batch.len() && batch[i] == object;
        assert(batch[i].location == object.location);
    }
    assert forall|i: int|
        0 <= i < sources.len() && uses(
            batch,
            (#[trigger] sources[i]).location,
        ) implies batch.to_multiset().count(sources[i]) > 0 by {
        let n = choose|n: int|
            0 <= n < batch.len() && (#[trigger] batch[n]).location == sources[i].location;
        assert(sources.contains(sources[i]));
        lemma_one_file_at_a_place(sources, batch[n], sources[i]);
        assert(batch.contains(sources[i]));
    }
    lemma_unused_is_the_rest(sources, batch, batch.to_multiset());
    vstd::seq_lib::lemma_multiset_commutative(kept, batch);
    lemma_rows_in_any_order(kept + batch, sources, rows);
    lemma_rows_of_both(kept, batch, rows);
    assert(kept.push(merged).drop_last() =~= kept);
}

/// Merging a partition down loses no row and counts none twice: as long as
/// each file has the rows of the batch it replaced, the partition has the rows
/// it had.
pub proof fn a_compaction_keeps_every_row<R>(
    sources: Seq<ObjectView>,
    closed: bool,
    files: Seq<ObjectView>,
    rows: spec_fn(Seq<char>) -> Multiset<R>,
)
    requires
        sizes_are_sizes(sources),
        sizes_are_sizes(files),
        each_was_due(sources, closed, files),
        places_differ(sources),
        places_are_new(sources, closed, files),
        rows_carry_over(sources, closed, files, rows),
    ensures
        rows_in(merged_down(sources, closed, files), rows) == rows_in(sources, rows),
    decreases files.len(),
{
    if files.len() > 0 {
        let front = files.drop_last();
        let last = files.len() - 1;
        assert forall|i: int| 0 <= i < front.len() implies 0 <= (#[trigger] front[i]).size by {
            assert(front[i] == files[i]);
        }
        lemma_due_front(sources, closed, files);
        lemma_new_front(sources, closed, files);
        assert forall|i: int| 0 <= i < front.len() implies rows(front[i].location) == rows_in(
            batch_of_sources(#[trigger] files_at(sources, closed, front, i), closed)->Some_0,
            rows,
        ) by {
            lemma_files_at_front(sources, closed, files, i);
            assert(rows(files[i].location) == rows_in(
                batch_of_sources(files_at(sources, closed, files, i), closed)->Some_0,
                rows,
            ));
        }
        a_compaction_keeps_every_row(sources, closed, front, rows);
        lemma_merged_down(sources, closed, front);
        lemma_files_at_front(sources, closed, files, last);
        assert(rows(files[last].location) == rows_in(
            batch_of_sources(files_at(sources, closed, files, last), closed)->Some_0,
            rows,
        ));
        lemma_a_merge_keeps_rows(
            merged_down(sources, closed, front),
            closed,
            files.last(),
            rows,
        );
    }
}

/// Rows that differ in their keys are all kept by a merge.
pub proof fn rows_of_different_keys_are_all_kept<T: Record>(rows: Seq<&T>, i: int)
    requires
        forall|a: int, b: int|
            0 <= a < b < rows.len() ==> row_key(*#[trigger] rows[a]) != row_key(
                *#[trigger] rows[b],
            ),
        0 <= i < rows.len(),
    ensures
        survives(rows, i),
{
    if i > 0 {
        assert(row_key(*rows[i - 1]) != row_key(*rows[i]));
    }
}

/// Whether a file is in a directory.
pub open spec fn lies_in(object: ObjectView, directory: Seq<char>) -> bool {
    exists|name: Seq<char>|
        name.len() > 0 && !name.contains('/') && object.location == #[trigger] path_named(
            directory + seq!['/'] + name,
        )
}

/// Whether each of `files` was put where the file with an id goes that replaces
/// its batch.
pub open spec fn places_follow(
    sources: Seq<ObjectView>,
    closed: bool,
    files: Seq<ObjectView>,
    ids: Seq<Seq<char>>,
) -> bool {
    &&& ids.len() == files.len()
    &&& forall|i: int|
        0 <= i < files.len() ==> !ids[i].contains('/') && files[i].location == merged_path(
            ids[i],
            batch_of_sources(#[trigger] files_at(sources, closed, files, i), closed)->Some_0,
        )
}

/// Merging a partition down writes to that partition alone.
pub proof fn a_compaction_stays_in_its_partition(
    sources: Seq<ObjectView>,
    closed: bool,
    files: Seq<ObjectView>,
    ids: Seq<Seq<char>>,
    directory: Seq<char>,
)
    requires
        sizes_are_sizes(sources),
        sizes_are_sizes(files),
        each_was_due(sources, closed, files),
        path_named(directory).len() > 0,
        forall|i: int| 0 <= i < sources.len() ==> lies_in(#[trigger] sources[i], directory),
        places_follow(sources, closed, files, ids),
    ensures
        forall|i: int| 0 <= i < files.len() ==> lies_in(#[trigger] files[i], directory),
        forall|i: int|
            0 <= i < files.len() ==> directory_text_of((#[trigger] files[i]).location)
                == path_named(directory),
        forall|i: int|
            0 <= i < merged_down(sources, closed, files).len() ==> lies_in(
                #[trigger] merged_down(sources, closed, files)[i],
                directory,
            ),
    decreases files.len(),
{
    if files.len() > 0 {
        let front = files.drop_last();
        let last = files.len() - 1;
        let so_far = merged_down(sources, closed, front);
        let batch = batch_of_sources(so_far, closed)->Some_0;
        let after = merged_down(sources, closed, files);
        assert forall|i: int| 0 <= i < front.len() implies 0 <= (#[trigger] front[i]).size by {
            assert(front[i] == files[i]);
        }
        lemma_due_front(sources, closed, files);
        assert forall|i: int| 0 <= i < front.len() implies !ids.drop_last()[i].contains('/')
            && front[i].location == merged_path(
            ids.drop_last()[i],
            batch_of_sources(#[trigger] files_at(sources, closed, front, i), closed)->Some_0,
        ) by {
            lemma_files_at_front(sources, closed, files, i);
            assert(files[i].location == merged_path(
                ids[i],
                batch_of_sources(files_at(sources, closed, files, i), closed)->Some_0,
            ));
        }
        a_compaction_stays_in_its_partition(sources, closed, front, ids.drop_last(), directory);
        lemma_merged_down(sources, closed, front);
        lemma_batch_is_of_sources(so_far, closed);
        a_batch_is_worth_merging(so_far, closed);
        assert forall|i: int| 0 <= i < batch.len() implies lies_in(#[trigger] batch[i], directory)
            && is_file(batch[i]) by {
            let k = choose|k: int| 0 <= k < so_far.len() && so_far[k] == batch[i];
            assert(lies_in(so_far[k], directory));
            let name = choose|name: Seq<char>|
                name.len() > 0 && !name.contains('/') && batch[i].location
                    == #[trigger] path_named(directory + seq!['/'] + name);
            a_file_is_under_its_directory(directory, name);
        }
        lemma_files_at_front(sources, closed, files, last);
        assert(files[last].location == merged_path(
            ids[last],
            batch_of_sources(files_at(sources, closed, files, last), closed)->Some_0,
        ));
        assert(lies_in(batch[0], directory));
        let name = choose|name: Seq<char>|
            name.len() > 0 && !name.contains('/') && batch[0].location == #[trigger] path_named(
                directory + seq!['/'] + name,
            );
        a_merge_lands_beside_its_sources(ids[last], batch, directory, name);
        lemma_merged_name_holds_no_slash(ids[last], batch);
        reveal_strlit(".parquet");
        assert(merged_name(ids[last], batch).len() > 0);
        assert(lies_in(files[last], directory));
        assert forall|i: int| 0 <= i < files.len() implies lies_in(#[trigger] files[i], directory)
            && directory_text_of(files[i].location) == path_named(directory) by {
            if i < last {
                assert(files[i] == front[i]);
            }
        }
        lemma_unused(so_far, batch);
        assert forall|i: int| 0 <= i < after.len() implies lies_in(#[trigger] after[i], directory) by {
            if i < unused(so_far, batch).len() {
                assert(after[i] == unused(so_far, batch)[i]);
                let k = choose|k: int| 0 <= k < so_far.len() && so_far[k] == after[i];
                assert(lies_in(so_far[k], directory));
            } else {
                assert(after[i] == files[last]);
            }
        }
    }
}

/// The own id of a file.
pub open spec fn id_of(object: ObjectView) -> Seq<char> {
    own_id_of(name_of(object)->Some_0)
}

/// Whether no two files have one id.
pub open spec fn ids_differ(files: Seq<ObjectView>) -> bool {
    forall|i: int, j: int|
        0 <= i < j < files.len() ==> id_of(#[trigger] files[i]) != id_of(#[trigger] files[j])
}

/// Whether an id is one no file has, and none has replaced.
pub open spec fn is_new_id(files: Seq<ObjectView>, id: Seq<char>) -> bool {
    &&& !id.contains(SEPARATOR)
    &&& !is_replaced(files, id)
    &&& forall|i: int| 0 <= i < files.len() ==> id_of(#[trigger] files[i]) != id
}

/// A merge leaves nothing stale: where every file was worth reading, every one
/// there is after it is, the merged one among them.
pub proof fn a_merge_leaves_nothing_stale(
    sources: Seq<ObjectView>,
    closed: bool,
    id: Seq<char>,
    merged: ObjectView,
)
    requires
        sizes_are_sizes(sources),
        places_differ(sources),
        all_live(sources),
        ids_differ(sources),
        is_new_id(sources, id),
        batch_of_sources(sources, closed) is Some,
        name_of(merged) == Some(merged_name(id, batch_of_sources(sources, closed)->Some_0)),
    ensures
        ({
            let after = after_merge(
                sources,
                batch_of_sources(sources, closed)->Some_0,
                merged,
            );
            all_live(after) && ids_differ(after)
        }),
{
    let batch = batch_of_sources(sources, closed)->Some_0;
    let kept = unused(sources, batch);
    let after = after_merge(sources, batch, merged);
    lemma_batch_is_of_sources(sources, closed);
    lemma_unused(sources, batch);
    a_merged_name_lists_its_sources(id, batch);
    assert(id_of(merged) == id);
    assert forall|i: int| 0 <= i < kept.len() implies {
        &&& is_live(sources, #[trigger] kept[i])
        &&& id_of(kept[i]) != id
        &&& !own_ids(batch).contains(id_of(kept[i]))
    } by {
        let k = choose|k: int| 0 <= k < sources.len() && sources[k] == kept[i];
        assert(is_live(sources, sources[k]));
        if own_ids(batch).contains(id_of(kept[i])) {
            let n = choose|n: int|
                0 <= n < own_ids(batch).len() && own_ids(batch)[n] == id_of(kept[i]);
            assert(sources.contains(batch[n]));
            let m = choose|m: int| 0 <= m < sources.len() && sources[m] == batch[n];
            assert(id_of(sources[m]) == id_of(sources[k]));
            if m < k {
                assert(id_of(sources[m]) != id_of(sources[k]));
            } else if k < m {
                assert(id_of(sources[k]) != id_of(sources[m]));
            }
            assert(uses(batch, kept[i].location));
        }
    }
    assert(!own_ids(batch).contains(id)) by {
        if own_ids(batch).contains(id) {
            let n = choose|n: int| 0 <= n < own_ids(batch).len() && own_ids(batch)[n] == id;
            assert(sources.contains(batch[n]));
            let m = choose|m: int| 0 <= m < sources.len() && sources[m] == batch[n];
            assert(id_of(sources[m]) != id);
        }
    }
    assert forall|i: int| 0 <= i < after.len() implies is_live(after, #[trigger] after[i]) by {
        let own = id_of(after[i]);
        if i < kept.len() {
            assert(after[i] == kept[i]);
            assert(is_live(sources, kept[i]));
        }
        assert(!is_replaced(sources, own));
        if is_replaced(after, own) {
            let k = choose|k: int| 0 <= k < after.len() && #[trigger] replaces(after[k], own);
            if k < kept.len() {
                assert(after[k] == kept[k]);
                let n = choose|n: int| 0 <= n < sources.len() && sources[n] == kept[k];
                assert(replaces(sources[n], own));
            } else {
                assert(superseded_by(name_of(merged)->Some_0).contains(own));
            }
        }
    }
    assert forall|i: int, j: int| 0 <= i < j < after.len() implies id_of(#[trigger] after[i])
        != id_of(#[trigger] after[j]) by {
        assert(after[i] == kept[i]);
        assert(id_of(kept[i]) != id);
        if j < kept.len() {
            assert(after[j] == kept[j]);
            let a = choose|a: int| 0 <= a < sources.len() && sources[a] == kept[i];
            let b = choose|b: int| 0 <= b < sources.len() && sources[b] == kept[j];
            assert(kept[i].location != kept[j].location);
            assert(a != b);
            if a < b {
                assert(id_of(sources[a]) != id_of(sources[b]));
            } else {
                assert(id_of(sources[b]) != id_of(sources[a]));
            }
        }
    }
}

/// Whether each of `files` was given a new id, and the name of the file with
/// that id that replaces its batch.
pub open spec fn names_follow(
    sources: Seq<ObjectView>,
    closed: bool,
    files: Seq<ObjectView>,
    ids: Seq<Seq<char>>,
) -> bool {
    &&& ids.len() == files.len()
    &&& forall|i: int|
        0 <= i < files.len() ==> is_new_id(files_at(sources, closed, files, i), ids[i])
            && name_of(files[i]) == Some(
            merged_name(
                ids[i],
                batch_of_sources(#[trigger] files_at(sources, closed, files, i), closed)->Some_0,
            ),
        )
}

/// Merging a partition down leaves nothing stale: what is there afterwards is
/// all read, so with its rows kept, each is read once.
pub proof fn a_compaction_leaves_nothing_stale(
    sources: Seq<ObjectView>,
    closed: bool,
    files: Seq<ObjectView>,
    ids: Seq<Seq<char>>,
)
    requires
        sizes_are_sizes(sources),
        sizes_are_sizes(files),
        each_was_due(sources, closed, files),
        places_differ(sources),
        places_are_new(sources, closed, files),
        all_live(sources),
        ids_differ(sources),
        names_follow(sources, closed, files, ids),
    ensures
        ({
            let after = merged_down(sources, closed, files);
            all_live(after) && ids_differ(after) && picked_live(after, after, true) == after
        }),
    decreases files.len(),
{
    let after = merged_down(sources, closed, files);
    if files.len() > 0 {
        let front = files.drop_last();
        let last = files.len() - 1;
        assert forall|i: int| 0 <= i < front.len() implies 0 <= (#[trigger] front[i]).size by {
            assert(front[i] == files[i]);
        }
        lemma_due_front(sources, closed, files);
        lemma_new_front(sources, closed, files);
        assert forall|i: int| 0 <= i < front.len() implies is_new_id(
            files_at(sources, closed, front, i),
            ids.drop_last()[i],
        ) && name_of(front[i]) == Some(
            merged_name(
                ids.drop_last()[i],
                batch_of_sources(#[trigger] files_at(sources, closed, front, i), closed)->Some_0,
            ),
        ) by {
            lemma_files_at_front(sources, closed, files, i);
            assert(is_new_id(files_at(sources, closed, files, i), ids[i]));
        }
        a_compaction_leaves_nothing_stale(sources, closed, front, ids.drop_last());
        lemma_merged_down(sources, closed, front);
        lemma_files_at_front(sources, closed, files, last);
        assert(is_new_id(files_at(sources, closed, files, last), ids[last]));
        a_merge_leaves_nothing_stale(
            merged_down(sources, closed, front),
            closed,
            ids[last],
            files.last(),
        );
    }
    lemma_picks_all(after, after);
}

/// Reading a partition that has been merged down gives each row it gave before,
/// as often as before: the files a merge had replaced stay out of it, and those
/// that are merged give way to the one that has their rows.
pub proof fn a_compacted_partition_reads_the_same<R>(
    listing: Seq<ObjectView>,
    closed: bool,
    files: Seq<ObjectView>,
    ids: Seq<Seq<char>>,
    rows: spec_fn(Seq<char>) -> Multiset<R>,
)
    requires
        sizes_are_sizes(picked_live(listing, listing, true)),
        sizes_are_sizes(files),
        places_differ(picked_live(listing, listing, true)),
        ids_differ(picked_live(listing, listing, true)),
        each_was_due(picked_live(listing, listing, true), closed, files),
        places_are_new(picked_live(listing, listing, true), closed, files),
        names_follow(picked_live(listing, listing, true), closed, files, ids),
        rows_carry_over(picked_live(listing, listing, true), closed, files, rows),
    ensures
        ({
            let live = picked_live(listing, listing, true);
            let after = merged_down(live, closed, files);
            rows_in(picked_live(after, after, true), rows) == rows_in(live, rows)
        }),
{
    let live = picked_live(listing, listing, true);
    without_the_replaced_all_is_live(listing);
    a_compaction_leaves_nothing_stale(live, closed, files, ids);
    a_compaction_keeps_every_row(live, closed, files, rows);
}

/// What merging a partition down comes to. No batch is left worth merging; the
/// rows are those there were; files at the target or beyond are as they were;
/// everything written is in the partition; and nothing is written, and nothing
/// changes, exactly where there was nothing to merge.
pub proof fn a_partition_is_merged_down<R>(
    sources: Seq<ObjectView>,
    closed: bool,
    files: Seq<ObjectView>,
    ids: Seq<Seq<char>>,
    directory: Seq<char>,
    rows: spec_fn(Seq<char>) -> Multiset<R>,
)
    requires
        sizes_are_sizes(sources),
        sizes_are_sizes(files),
        places_differ(sources),
        path_named(directory).len() > 0,
        forall|i: int| 0 <= i < sources.len() ==> lies_in(#[trigger] sources[i], directory),
        is_merged_down(sources, closed, files),
        places_are_new(sources, closed, files),
        places_follow(sources, closed, files, ids),
        rows_carry_over(sources, closed, files, rows),
    ensures
        ({
            let after = merged_down(sources, closed, files);
            &&& batch_of_sources(after, closed) is None
            &&& rows_in(after, rows) == rows_in(sources, rows)
            &&& forall|i: int|
                0 <= i < sources.len() && (#[trigger] sources[i]).size >= TARGET_FILE_BYTES
                    ==> after.contains(sources[i])
            &&& forall|i: int| 0 <= i < after.len() ==> lies_in(#[trigger] after[i], directory)
            &&& forall|i: int| 0 <= i < files.len() ==> lies_in(#[trigger] files[i], directory)
            &&& files.len() == 0 <==> batch_of_sources(sources, closed) is None
            &&& files.len() == 0 ==> after == sources
        }),
{
    merging_down_leaves_nothing_to_merge(sources, closed, files);
    a_compaction_keeps_every_row(sources, closed, files, rows);
    a_compaction_stays_in_its_partition(sources, closed, files, ids, directory);
    assert forall|i: int|
        0 <= i < sources.len() && (#[trigger] sources[i]).size
            >= TARGET_FILE_BYTES implies merged_down(sources, closed, files).contains(
    sources[i]) by {
        large_files_are_left_alone(sources, closed, files, i);
    }
}

/// The files of one size, in order.
pub open spec fn of_size(files: Seq<ObjectView>, size: int) -> Seq<ObjectView>
    decreases files.len(),
{
    if files.len() == 0 {
        Seq::empty()
    } else if files.last().size == size {
        of_size(files.drop_last(), size).push(files.last())
    } else {
        of_size(files.drop_last(), size)
    }
}

proof fn lemma_of_size_apart(a: Seq<ObjectView>, b: Seq<ObjectView>, size: int)
    ensures
        of_size(a + b, size) == of_size(a, size) + of_size(b, size),
    decreases b.len(),
{
    if b.len() == 0 {
        assert(a + b =~= a);
    } else {
        lemma_of_size_apart(a, b.drop_last(), size);
        assert((a + b).drop_last() =~= a + b.drop_last());
    }
    assert(of_size(a + b, size) =~= of_size(a, size) + of_size(b, size));
}

proof fn lemma_none_of_size(files: Seq<ObjectView>, size: int)
    requires
        forall|i: int| 0 <= i < files.len() ==> (#[trigger] files[i]).size != size,
    ensures
        of_size(files, size).len() == 0,
    decreases files.len(),
{
    if files.len() > 0 {
        assert forall|i: int| 0 <= i < files.drop_last().len() implies (
        #[trigger] files.drop_last()[i]).size != size by {
            assert(files.drop_last()[i] == files[i]);
        }
        lemma_none_of_size(files.drop_last(), size);
        assert(files.last() == files[files.len() - 1]);
    }
}

/// What there is to merge are the files below 128 MiB, each as often as it is
/// listed, in order of size, those of one size in the order they are listed in.
pub proof fn every_file_below_the_target_is_worth_merging(sources: Seq<ObjectView>, size: int)
    ensures
        size < 134_217_728 ==> of_size(eligible(sources), size) == of_size(sources, size),
        size >= 134_217_728 ==> of_size(eligible(sources), size).len() == 0,
        forall|i: int, j: int|
            0 <= i < j < eligible(sources).len() ==> (#[trigger] eligible(sources)[i]).size <= (
            #[trigger] eligible(sources)[j]).size,
    decreases sources.len(),
{
    the_smallest_files_merge_first(sources);
    if sources.len() > 0 {
        let front = sources.drop_last();
        let last = sources.last();
        every_file_below_the_target_is_worth_merging(front, size);
        if last.size < TARGET_FILE_BYTES {
            let rest = eligible(front);
            let at = place(rest, last.size);
            lemma_place(rest, last.size);
            let before = rest.take(at);
            let after = rest.skip(at);
            let one = seq![last];
            assert(rest =~= before + after);
            assert(eligible(sources) =~= before + one + after);
            lemma_of_size_apart(before, after, size);
            lemma_of_size_apart(before, one, size);
            lemma_of_size_apart(before + one, after, size);
            assert(one.drop_last() =~= Seq::<ObjectView>::empty());
            reveal_with_fuel(of_size, 2);
            if size == last.size {
                assert forall|i: int| 0 <= i < after.len() implies (#[trigger] after[i]).size
                    != size by {
                    assert(after[i] == rest[at + i]);
                }
                lemma_none_of_size(after, size);
                assert(of_size(one, size) =~= one);
                assert(of_size(eligible(sources), size) =~= of_size(rest, size).push(last));
            } else {
                assert(of_size(one, size) =~= Seq::<ObjectView>::empty());
                assert(of_size(eligible(sources), size) =~= of_size(rest, size));
            }
        }
    }
}

/// How many bytes some files have together.
pub open spec fn bytes_of(files: Seq<ObjectView>) -> int
    decreases files.len(),
{
    if files.len() == 0 {
        0
    } else {
        files[0].size + bytes_of(files.drop_first())
    }
}

proof fn lemma_bytes_of_push(files: Seq<ObjectView>, file: ObjectView)
    ensures
        bytes_of(files.push(file)) == bytes_of(files) + file.size,
    decreases files.len(),
{
    if files.len() == 0 {
        assert(files.push(file).drop_first() =~= Seq::<ObjectView>::empty());
        reveal_with_fuel(bytes_of, 2);
    } else {
        lemma_bytes_of_push(files.drop_first(), file);
        assert(files.push(file).drop_first() =~= files.drop_first().push(file));
    }
}

proof fn lemma_bytes_of_run(files: Seq<ObjectView>, from: int, to: int)
    requires
        0 <= from <= to <= files.len(),
    ensures
        bytes_of(files.subrange(from, to)) == total(files, from, to),
    decreases to - from,
{
    if from < to {
        lemma_bytes_of_run(files, from, to - 1);
        lemma_bytes_of_push(files.subrange(from, to - 1), files[to - 1]);
        assert(files.subrange(from, to) =~= files.subrange(from, to - 1).push(files[to - 1]));
    }
}

/// Whether the files from `from` up to `to` can be one batch of an open
/// partition: six at most, 128 MiB together at most, and none more than eight
/// times as large as the first.
pub open spec fn fit_together(files: Seq<ObjectView>, from: int, to: int) -> bool {
    &&& 0 <= from <= to <= files.len()
    &&& to - from <= 6
    &&& bytes_of(files.subrange(from, to)) <= 134_217_728
    &&& from < to ==> files[to - 1].size <= 8 * files[from].size
}

/// Whether there is nothing to wait for before merging the files from `from` up
/// to `to`: they are six, or the next is of their kind and takes them past 128
/// MiB.
pub open spec fn nothing_to_wait_for(files: Seq<ObjectView>, from: int, to: int) -> bool {
    ||| to - from == 6
    ||| to < files.len() && files[to].size <= 8 * files[from].size && bytes_of(
        files.subrange(from, to),
    ) + files[to].size > 134_217_728
}

/// Whether a run begun at `a` is left behind at `b`, for the file there is more
/// than eight times as large as its first.
pub open spec fn left_behind(files: Seq<ObjectView>, a: int, b: int) -> bool {
    &&& 0 <= a < b < files.len()
    &&& b - a < 6
    &&& fit_together(files, a, b)
    &&& files[b].size > 8 * files[a].size
}

/// Whether runs begin at `starts` in turn, the first with the first file and
/// each other where the one before it is left behind.
pub open spec fn runs_begin_at(files: Seq<ObjectView>, starts: Seq<int>) -> bool {
    &&& starts.len() > 0
    &&& starts[0] == 0
    &&& forall|t: int|
        0 <= t < starts.len() - 1 ==> left_behind(files, #[trigger] starts[t], starts[t + 1])
}

proof fn lemma_runs(files: Seq<ObjectView>, starts: Seq<int>, i: int) -> (found: Seq<int>)
    requires
        runs_begin_at(files, starts),
        sizes_ascend(files),
        is_run(files, starts.last(), i, false),
        i == 0 || starts.last() < i,
        forall|k: int|
            0 <= k < files.len() ==> 0 <= (#[trigger] files[k]).size < TARGET_FILE_BYTES,
    ensures
        ({
            let end = run(files, starts.last(), i, false);
            &&& runs_begin_at(files, found)
            &&& found.last() == end.from
            &&& fit_together(files, end.from, end.to)
            &&& end.overflowed || end.to - end.from == 6 <==> nothing_to_wait_for(
                files,
                end.from,
                end.to,
            )
            &&& !nothing_to_wait_for(files, end.from, end.to) ==> end.to == files.len()
        }),
    decreases files.len() - i,
{
    let from = starts.last();
    lemma_bytes_of_run(files, from, i);
    if i >= files.len() || i - from == SOURCES_PER_MERGE {
        starts
    } else {
        assert(total(files, i, i) == 0);
        if from < i && files[i].size > files[from].size * SIZE_SPREAD {
            assert(left_behind(files, from, i));
            let more = starts.push(i);
            assert forall|t: int| 0 <= t < more.len() - 1 implies left_behind(
                files,
                #[trigger] more[t],
                more[t + 1],
            ) by {
                if t < starts.len() - 1 {
                    assert(left_behind(files, starts[t], starts[t + 1]));
                }
            }
            assert(files[i].size <= files[i].size * SIZE_SPREAD);
            assert(total(files, i, i + 1) == files[i].size);
            lemma_runs(files, more, i + 1)
        } else if total(files, from, i) + files[i].size > TARGET_FILE_BYTES {
            starts
        } else {
            assert(files[from].size <= files[from].size * SIZE_SPREAD);
            lemma_runs(files, starts, i + 1)
        }
    }
}

/// While more files are coming, a batch is given only once there is nothing to
/// wait for. Files are taken in order of size; where one is too large for a run
/// the run is left behind and the next begins with it. The last run is the
/// batch where it has two files or more, and is six or is overflowing; a run
/// that ends because there are no more files waits for them.
pub proof fn an_open_partition_waits_for_a_full_batch(sources: Seq<ObjectView>) -> (found: (
    Seq<int>,
    int,
))
    requires
        sizes_are_sizes(sources),
    ensures
        ({
            let files = eligible(sources);
            let (starts, to) = found;
            let from = starts.last();
            &&& runs_begin_at(files, starts)
            &&& fit_together(files, from, to)
            &&& nothing_to_wait_for(files, from, to) || to == files.len()
            &&& batch_of_sources(sources, false) is Some <==> to - from >= 2
                && nothing_to_wait_for(files, from, to)
            &&& batch_of_sources(sources, false) matches Some(batch) ==> batch == files.subrange(
                from,
                to,
            )
        }),
{
    let files = eligible(sources);
    the_smallest_files_merge_first(sources);
    lemma_eligible(sources);
    assert(total(files, 0, 0) == 0);
    let starts = lemma_runs(files, seq![0int], 0);
    (starts, run(files, 0, 0, false).to)
}

/// A batch of an open partition is six files, or there is a file outside it, no
/// smaller than its last, that would take it past 128 MiB.
pub proof fn an_open_batch_is_full(sources: Seq<ObjectView>, batch: Seq<ObjectView>)
    requires
        sizes_are_sizes(sources),
        batch_of_sources(sources, false) == Some(batch),
    ensures
        batch.len() == 6 || exists|file: ObjectView|
            {
                &&& #[trigger] batch.push(file).to_multiset().subset_of(sources.to_multiset())
                &&& batch.last().size <= file.size < 134_217_728
                &&& bytes_of(batch) + file.size > 134_217_728
            },
        2 <= batch.len() <= 6,
        bytes_of(batch) <= 134_217_728,
        batch.last().size <= 8 * batch[0].size,
{
    broadcast use vstd::multiset::group_multiset_axioms;

    let files = eligible(sources);
    the_smallest_files_merge_first(sources);
    let (starts, to) = an_open_partition_waits_for_a_full_batch(sources);
    let from = starts.last();
    assert(batch[0] == files[from] && batch.last() == files[to - 1]);
    if batch.len() != 6 {
        let file = files[to];
        assert(batch.push(file) =~= files.subrange(from, to + 1));
        lemma_subrange_subset(files, from, to + 1);
        assert(batch.push(file).to_multiset().subset_of(sources.to_multiset()));
    }
}

proof fn lemma_bytes_grow(files: Seq<ObjectView>, from: int, a: int, b: int)
    requires
        0 <= from <= a <= b <= files.len(),
        forall|k: int| 0 <= k < files.len() ==> 0 <= (#[trigger] files[k]).size,
    ensures
        total(files, from, a) <= total(files, from, b),
    decreases b - a,
{
    if a < b {
        lemma_bytes_grow(files, from, a, b - 1);
    }
}

/// Whether the files from `p` up to `q` make a batch that nothing before them
/// can break into: they fit together, there is nothing to wait for, and the
/// first of all files is theirs or the one before them is too small to stand
/// with any of them.
pub open spec fn stand_alone(files: Seq<ObjectView>, p: int, q: int) -> bool {
    &&& fit_together(files, p, q)
    &&& q - p >= 2
    &&& nothing_to_wait_for(files, p, q)
    &&& p == 0 || files[p].size > 8 * files[p - 1].size
}

proof fn lemma_run_of(files: Seq<ObjectView>, p: int, q: int, i: int)
    requires
        stand_alone(files, p, q),
        sizes_ascend(files),
        p <= i <= q,
        forall|k: int|
            0 <= k < files.len() ==> 0 <= (#[trigger] files[k]).size < TARGET_FILE_BYTES,
    ensures
        run(files, p, i, false) == (Run { from: p, to: q, overflowed: q - p != 6 }),
    decreases q - i,
{
    lemma_bytes_of_run(files, p, q);
    if i < q {
        lemma_bytes_grow(files, p, i + 1, q);
        lemma_run_of(files, p, q, i + 1);
    }
}

proof fn lemma_run_reaches(files: Seq<ObjectView>, p: int, q: int, from: int, i: int)
    requires
        stand_alone(files, p, q),
        sizes_ascend(files),
        0 <= from <= i <= p,
        i == 0 || from < i,
        i - from <= 6,
        forall|k: int|
            0 <= k < files.len() ==> 0 <= (#[trigger] files[k]).size < TARGET_FILE_BYTES,
    ensures
        ({
            let end = run(files, from, i, false);
            &&& end.overflowed || end.to - end.from == 6
            &&& end.to - end.from >= 2
            &&& end.from <= p
        }),
    decreases p - i,
{
    if i - from != 6 {
        if p == 0 {
            lemma_run_of(files, p, q, 0);
        } else if i == p {
            assert(files[from].size <= files[p - 1].size);
            lemma_run_of(files, p, q, p);
        } else {
            lemma_bytes_of_run(files, p, q);
            lemma_bytes_grow(files, p, p + 2, q);
            assert(total(files, p, p) == 0);
            assert(total(files, p, p + 1) == files[p].size);
            assert(total(files, p, p + 2) == files[p].size + files[p + 1].size);
            let start = if from < i && files[i].size > files[from].size * SIZE_SPREAD {
                i
            } else {
                from
            };
            assert(total(files, i, i) == 0);
            if total(files, start, i) + files[i].size > TARGET_FILE_BYTES {
                if start == i - 1 {
                    assert(total(files, i - 1, i - 1) == 0);
                    assert(total(files, i - 1, i) == files[i - 1].size);
                    assert(files[i - 1].size <= files[p].size);
                    assert(files[i].size <= files[p + 1].size);
                }
            } else {
                lemma_run_reaches(files, p, q, start, i + 1);
            }
        }
    }
}

/// An open partition does not wait longer than that: where six files within
/// eight times of each other and within 128 MiB stand next to one another in
/// order of size, or fewer that overflow, a batch is given, and it begins no
/// later than they do. What is smaller than them must not reach into them: the
/// file before them, where there is one, is less than an eighth of the first.
/// At the front of the order they are themselves the batch.
pub proof fn a_full_batch_is_given(sources: Seq<ObjectView>, p: int, q: int)
    requires
        sizes_are_sizes(sources),
        stand_alone(eligible(sources), p, q),
    ensures
        batch_of_sources(sources, false) is Some,
        batch_of_sources(sources, false)->Some_0[0].size <= eligible(sources)[p].size,
        p == 0 ==> batch_of_sources(sources, false) == Some(eligible(sources).take(q)),
{
    let files = eligible(sources);
    the_smallest_files_merge_first(sources);
    lemma_eligible(sources);
    lemma_run_reaches(files, p, q, 0, 0);
    assert(total(files, 0, 0) == 0);
    lemma_run(files, 0, 0, false);
    if p == 0 {
        lemma_run_of(files, p, q, 0);
    }
}

/// Closed, the batch is the smallest files, as many as six and 128 MiB allow,
/// where that is two or more.
pub proof fn a_closed_batch_takes_all_that_fits(sources: Seq<ObjectView>) -> (taken: int)
    requires
        sizes_are_sizes(sources),
    ensures
        ({
            let files = eligible(sources);
            &&& 0 <= taken <= files.len()
            &&& taken <= 6
            &&& bytes_of(files.take(taken)) <= 134_217_728
            &&& taken == 6 || taken == files.len() || bytes_of(files.take(taken + 1)) > 134_217_728
            &&& batch_of_sources(sources, true) == if taken >= 2 {
                Some(files.take(taken))
            } else {
                None
            }
        }),
{
    let files = eligible(sources);
    lemma_eligible(sources);
    assert(total(files, 0, 0) == 0);
    lemma_run(files, 0, 0, true);
    let end = run(files, 0, 0, true);
    lemma_bytes_of_run(files, 0, end.to);
    if end.overflowed {
        lemma_bytes_of_run(files, 0, end.to + 1);
        assert(total(files, 0, end.to + 1) == total(files, 0, end.to) + files[end.to].size);
    }
    end.to
}

/// Of the rows a span was sent in, in the order they are stored in, one is
/// kept, of the same organization, project, trace and id, and none of them was
/// received later than it, to the microsecond.
pub proof fn a_span_is_what_was_received_last(rows: Seq<&Span>, i: int) -> (kept: int)
    requires
        rows_sorted(rows),
        0 <= i < rows.len(),
    ensures
        0 <= kept <= i,
        marks(Span::spec_version_column() is Some, None, row_keys(rows))[kept],
        rows[kept].common.organization_id@ == rows[i].common.organization_id@,
        rows[kept].common.project_id@ == rows[i].common.project_id@,
        rows[kept].trace_id@ == rows[i].trace_id@,
        rows[kept].span_id@ == rows[i].span_id@,
        rows[kept].common.received_at@ / 1000 >= rows[i].common.received_at@ / 1000,
{
    let kept = the_newest_row_is_kept(rows, i);
    the_rows_kept_are_those_that_survive(rows, kept);
    a_span_is_told_by_its_ids(*rows[kept], *rows[i]);
    if kept < i {
        spans_are_stored_in_order(rows, kept, i);
        lemma_text_lt_irreflexive(rows[i].common.organization_id@);
        lemma_text_lt_irreflexive(rows[i].common.project_id@);
        lemma_bytes_lt_irreflexive(rows[i].trace_id@);
        lemma_bytes_lt_irreflexive(rows[i].span_id@);
    }
    kept
}

/// Merging keeps one row of each span: any two it keeps differ in organization,
/// project, trace or id.
pub proof fn a_span_is_kept_once(rows: Seq<&Span>, i: int, j: int)
    requires
        rows_sorted(rows),
        0 <= i < j < rows.len(),
        marks(Span::spec_version_column() is Some, None, row_keys(rows))[i],
        marks(Span::spec_version_column() is Some, None, row_keys(rows))[j],
    ensures
        rows[i].common.organization_id@ != rows[j].common.organization_id@
            || rows[i].common.project_id@ != rows[j].common.project_id@ || rows[i].trace_id@
            != rows[j].trace_id@ || rows[i].span_id@ != rows[j].span_id@,
{
    the_rows_kept_are_those_that_survive(rows, i);
    the_rows_kept_are_those_that_survive(rows, j);
    no_two_rows_kept_share_a_key(rows, i, j);
    a_span_is_told_by_its_ids(*rows[i], *rows[j]);
}

/// A merge takes its batch out and puts one file in: what is left are the files
/// that are not where one of the batch is, in the order they were in, and the
/// merged one behind them.
pub proof fn a_merge_replaces_its_batch(
    sources: Seq<ObjectView>,
    more: Seq<ObjectView>,
    batch: Seq<ObjectView>,
    file: ObjectView,
    merged: ObjectView,
)
    ensures
        after_merge(Seq::empty(), batch, merged) == seq![merged],
        after_merge(sources + more, batch, merged) == after_merge(
            sources,
            batch,
            merged,
        ).drop_last() + after_merge(more, batch, merged),
        after_merge(seq![file], batch, merged) == if exists|i: int|
            0 <= i < batch.len() && (#[trigger] batch[i]).location == file.location {
            seq![merged]
        } else {
            seq![file, merged]
        },
{
    lemma_unused_apart(sources, more, batch);
    assert(after_merge(Seq::empty(), batch, merged) =~= seq![merged]);
    assert(after_merge(sources, batch, merged).drop_last() =~= unused(sources, batch));
    assert(after_merge(sources + more, batch, merged) =~= unused(sources, batch) + after_merge(
        more,
        batch,
        merged,
    ));
    let one = seq![file];
    assert(one.drop_last() =~= Seq::<ObjectView>::empty());
    assert(unused(one.drop_last(), batch) =~= Seq::<ObjectView>::empty());
    assert(after_merge(one, batch, merged) =~= if uses(batch, file.location) {
        seq![merged]
    } else {
        seq![file, merged]
    });
}

proof fn lemma_unused_apart(
    sources: Seq<ObjectView>,
    more: Seq<ObjectView>,
    batch: Seq<ObjectView>,
)
    ensures
        unused(sources + more, batch) == unused(sources, batch) + unused(more, batch),
    decreases more.len(),
{
    if more.len() == 0 {
        assert(sources + more =~= sources);
    } else {
        lemma_unused_apart(sources, more.drop_last(), batch);
        assert((sources + more).drop_last() =~= sources + more.drop_last());
    }
    assert(unused(sources + more, batch) =~= unused(sources, batch) + unused(more, batch));
}

/// A merge reads every source, in order, from where the store has it, and
/// writes beside the first.
pub proof fn a_merge_reads_each_source(id: Seq<char>, sources: Seq<ObjectView>, i: int)
    requires
        0 <= i < sources.len(),
    ensures
        scan_urls(sources).len() == sources.len(),
        scan_urls(sources)[i] == "prism://store"@ + "/"@ + sources[i].location,
        merged_path(id, sources) == path_with(
            directory_text_of(sources[0].location),
            merged_name(id, sources),
        ),
{
}

/// A partition with objects in it is closed unless it is the newest: whichever
/// has none later than it is still being written to, and no other is.
pub proof fn only_the_newest_partition_is_open(objects: Seq<ObjectView>, i: int)
    requires
        0 <= i < objects.len(),
    ensures
        ({
            let directory = directory_text_of(objects[i].location);
            let newest = forall|k: int|
                0 <= k < objects.len() ==> !text_lt(
                    directory,
                    directory_text_of((#[trigger] objects[k]).location),
                );
            holds(objects, directory) && (is_older(objects, directory) <==> !newest)
        }),
{
    let directory = directory_text_of(objects[i].location);
    assert(holds(objects, directory));
    if is_older(objects, directory) {
        let later = choose|later: Seq<char>| #[trigger]
            holds(objects, later) && text_lt(directory, later);
        let k = choose|k: int|
            0 <= k < objects.len() && directory_text_of((#[trigger] objects[k]).location) == later;
        assert(text_lt(directory, directory_text_of(objects[k].location)));
    }
    if exists|k: int|
        0 <= k < objects.len() && text_lt(
            directory,
            directory_text_of((#[trigger] objects[k]).location),
        ) {
        let k = choose|k: int|
            0 <= k < objects.len() && text_lt(
                directory,
                directory_text_of((#[trigger] objects[k]).location),
            );
        assert(holds(objects, directory_text_of(objects[k].location)));
    }
}

/// Where rows are merged, a row is dropped exactly where the one before it has
/// its key; where they are not, none is.
pub proof fn a_row_is_dropped_behind_one_of_its_key(keys: Seq<Seq<Part>>, i: int)
    requires
        0 <= i < keys.len(),
    ensures
        marks(false, None, keys)[i],
        marks(true, None, keys)[0],
        i > 0 ==> (marks(true, None, keys)[i] <==> keys[i] != keys[i - 1]),
        marks(true, None, keys).len() == keys.len(),
        marks(false, None, keys).len() == keys.len(),
{
}

} // verus!
