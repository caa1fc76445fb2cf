//! How a merged file records the files it replaced.
//!
//! A merged file is named `<own id>_<replaced id>_<replaced id>...`, so a reader
//! can tell from a listing alone which are stale, without opening anything.
//! That name is what commits a merge: the upload is invisible until it
//! completes, and once visible it already declares its sources replaced.

use object_store::path::Path;
use uuid::Uuid;
use vstd::prelude::*;

use crate::ids::{hex_is_plain, new_id, simple, uuid_bytes};
use crate::paths::{clone_path, filename_of, path_text};
use crate::text::{
    a_suffix_comes_off_the_end, ends_with, hex, joined, lemma_first_index, lemma_joined_push,
    lemma_segments_push, same_text, segments, segments_hold_no_separator, split, split_undoes_join,
    str_views, string_views, strip_suffix, without_suffix,
};

verus! {

/// Delimits the ids packed into a merged filename. Ids are written
/// unhyphenated, so anything outside hex separates them.
pub const SEPARATOR: char = '_';

/// What every file's name ends in.
pub const EXTENSION: &'static str = ".parquet";

/// A stored object: where it is and how many bytes it has.
#[derive(Debug)]
pub struct ObjectMeta {
    pub location: Path,
    pub size: u64,
}

/// A stored object, as plain values.
#[verifier::ext_equal]
pub struct ObjectView {
    pub location: Seq<char>,
    pub size: int,
}

impl View for ObjectMeta {
    type V = ObjectView;

    open spec fn view(&self) -> ObjectView {
        ObjectView { location: path_text(self.location), size: self.size as int }
    }
}

impl Clone for ObjectMeta {
    fn clone(&self) -> (copy: ObjectMeta)
        ensures
            copy@ == self@,
    {
        ObjectMeta { location: clone_path(&self.location), size: self.size }
    }
}

pub open spec fn object_views(objects: Seq<ObjectMeta>) -> Seq<ObjectView> {
    objects.map_values(|object: ObjectMeta| object@)
}

/// The ids a name is made of: its own, then those it replaced.
pub open spec fn ids_in(name: Seq<char>) -> Seq<Seq<char>> {
    segments(without_suffix(name, EXTENSION@), SEPARATOR)
}

/// A file's own id, read from its name.
pub open spec fn own_id_of(name: Seq<char>) -> Seq<char> {
    ids_in(name)[0]
}

/// The ids a merged file replaced, read from its name.
pub open spec fn superseded_by(name: Seq<char>) -> Seq<Seq<char>> {
    ids_in(name).drop_first()
}

/// Ids a merged file replaced, read from its name. Anything listed here is
/// stale even if still present, so a reader must exclude it.
pub fn superseded<'a>(name: &'a str) -> (ids: Vec<&'a str>)
    ensures
        str_views(ids@) == superseded_by(name@),
{
    let mut ids = split(strip_suffix(name, EXTENSION), SEPARATOR);
    let ghost all = ids@;
    proof {
        crate::text::join_undoes_split(without_suffix(name@, EXTENSION@), SEPARATOR);
        assert(str_views(all).len() == all.len());
    }
    let _ = ids.remove(0);
    assert(str_views(ids@) =~= str_views(all).drop_first());
    ids
}

/// A file's own id, read from its name.
pub fn own_id<'a>(name: &'a str) -> (id: &'a str)
    ensures
        id@ == own_id_of(name@),
{
    let ids = split(strip_suffix(name, EXTENSION), SEPARATOR);
    proof {
        crate::text::join_undoes_split(without_suffix(name@, EXTENSION@), SEPARATOR);
        assert(str_views(ids@).len() == ids@.len());
        assert(str_views(ids@)[0] == ids@[0]@);
    }
    ids[0]
}

/// The name of a stored object, where it has one.
pub open spec fn name_of(object: ObjectView) -> Option<Seq<char>> {
    filename_of(object.location)
}

/// Whether something in a listing has replaced the file whose own id is `id`.
pub open spec fn is_replaced(listing: Seq<ObjectView>, id: Seq<char>) -> bool {
    exists|i: int| 0 <= i < listing.len() && #[trigger] replaces(listing[i], id)
}

/// Whether an object has replaced the file whose own id is `id`.
pub open spec fn replaces(object: ObjectView, id: Seq<char>) -> bool {
    match name_of(object) {
        Some(name) => superseded_by(name).contains(id),
        None => false,
    }
}

/// Whether an object is worth reading, in a listing: it is a file, and nothing
/// else there has replaced it.
pub open spec fn is_live(listing: Seq<ObjectView>, object: ObjectView) -> bool {
    match name_of(object) {
        Some(name) => !is_replaced(listing, own_id_of(name)),
        None => false,
    }
}

/// The objects of `some` that are worth reading or, where `live` is false, the
/// others, in the order they are in.
pub open spec fn picked_live(listing: Seq<ObjectView>, some: Seq<ObjectView>, live: bool) -> Seq<
    ObjectView,
>
    decreases some.len(),
{
    if some.len() == 0 {
        Seq::empty()
    } else if is_live(listing, some.last()) == live {
        picked_live(listing, some.drop_last(), live).push(some.last())
    } else {
        picked_live(listing, some.drop_last(), live)
    }
}

/// The ids that something in a listing has replaced.
fn replaced_ids(listing: &Vec<ObjectMeta>) -> (ids: Vec<String>)
    ensures
        forall|id: Seq<char>| #[trigger]
            string_views(ids@).contains(id) <==> is_replaced(object_views(listing@), id),
{
    let ghost views = object_views(listing@);
    let mut ids: Vec<String> = Vec::new();
    let mut i: usize = 0;
    while i < listing.len()
        invariant
            i <= listing.len(),
            views == object_views(listing@),
            forall|id: Seq<char>| #[trigger]
                string_views(ids@).contains(id) <==> exists|k: int|
                    0 <= k < i && #[trigger] replaces(views[k], id),
        decreases listing.len() - i,
    {
        let ghost before = string_views(ids@);
        let ghost mut more: Seq<Seq<char>> = Seq::empty();
        if let Some(name) = crate::paths::filename(&listing[i].location) {
            let found = superseded(name);
            let mut n: usize = 0;
            proof {
                more = superseded_by(name@);
                assert(str_views(found@) == more);
                assert(before =~= before + more.take(0));
            }
            while n < found.len()
                invariant
                    n <= found.len(),
                    str_views(found@) == more,
                    string_views(ids@) == before + more.take(n as int),
                decreases found.len() - n,
            {
                let ghost old_ids = ids@;
                ids.push(String::from_str(found[n]));
                n = n + 1;
                assert(more[n - 1] == found@[n - 1]@);
                assert(string_views(ids@) =~= string_views(old_ids).push(more[n - 1]));
                assert(string_views(ids@) =~= before + more.take(n as int));
            }
            assert(more.len() == found@.len());
            assert(more.take(n as int) =~= more);
        }
        proof {
            assert(before + Seq::<Seq<char>>::empty() =~= before);
            let after = string_views(ids@);
            assert(after == before + more);
            assert(views[i as int] == listing@[i as int]@);
            assert forall|id: Seq<char>| #[trigger] after.contains(id) <==> exists|k: int|
                0 <= k < i + 1 && #[trigger] replaces(views[k], id) by {
                assert(after.contains(id) <==> before.contains(id) || more.contains(id)) by {
                    if before.contains(id) {
                        let k = choose|k: int| 0 <= k < before.len() && before[k] == id;
                        assert(after[k] == id);
                    }
                    if more.contains(id) {
                        let k = choose|k: int| 0 <= k < more.len() && more[k] == id;
                        assert(after[before.len() + k] == id);
                    }
                    if after.contains(id) {
                        let k = choose|k: int| 0 <= k < after.len() && after[k] == id;
                        if k < before.len() {
                            assert(before[k] == id);
                        } else {
                            assert(more[k - before.len()] == id);
                        }
                    }
                }
                assert(more.contains(id) <==> replaces(views[i as int], id));
            }
        }
        i = i + 1;
    }
    ids
}

fn contains_id(ids: &Vec<String>, id: &str) -> (found: bool)
    ensures
        found == string_views(ids@).contains(id@),
{
    let mut i: usize = 0;
    while i < ids.len()
        invariant
            i <= ids.len(),
            forall|k: int| 0 <= k < i ==> string_views(ids@)[k] != id@,
        decreases ids.len() - i,
    {
        if same_text(ids[i].as_str(), id) {
            assert(string_views(ids@)[i as int] == id@);
            return true;
        }
        i = i + 1;
    }
    false
}

/// Splits a listing into what is live and what something else in it already
/// replaced. The replaced ones are present only because a delete has yet to
/// run, and their rows are in the merged file too, so anything reading them
/// counts those rows twice.
pub fn split_live(listing: Vec<ObjectMeta>) -> (split: (Vec<ObjectMeta>, Vec<ObjectMeta>))
    ensures
        object_views(split.0@) == picked_live(
            object_views(listing@),
            object_views(listing@),
            true,
        ),
        object_views(split.1@) == picked_live(
            object_views(listing@),
            object_views(listing@),
            false,
        ),
{
    let ghost views = object_views(listing@);
    let stale_ids = replaced_ids(&listing);
    let mut live: Vec<ObjectMeta> = Vec::new();
    let mut stale: Vec<ObjectMeta> = Vec::new();
    assert(views.take(0) =~= Seq::<ObjectView>::empty());
    for file in iter: listing
        invariant
            views == object_views(iter.seq()),
            forall|id: Seq<char>| #[trigger]
                string_views(stale_ids@).contains(id) <==> is_replaced(views, id),
            object_views(live@) == picked_live(views, views.take(iter.index()), true),
            object_views(stale@) == picked_live(views, views.take(iter.index()), false),
    {
        let ghost so_far = views.take(iter.index() + 1);
        assert(so_far.drop_last() =~= views.take(iter.index()));
        assert(so_far.last() == file@);
        let ghost old_live = live@;
        let ghost old_stale = stale@;
        let is_live = match crate::paths::filename(&file.location) {
            Some(name) => !contains_id(&stale_ids, own_id(name)),
            None => false,
        };
        if is_live {
            live.push(file);
            assert(object_views(live@) =~= object_views(old_live).push(so_far.last()));
        } else {
            stale.push(file);
            assert(object_views(stale@) =~= object_views(old_stale).push(so_far.last()));
        }
    }
    assert(views.take(views.len() as int) =~= views);
    (live, stale)
}

/// Whether an object has a name, as every file does.
pub open spec fn is_file(object: ObjectView) -> bool {
    name_of(object) is Some
}

/// The own ids of some files.
pub open spec fn own_ids(sources: Seq<ObjectView>) -> Seq<Seq<char>> {
    sources.map_values(|source: ObjectView| own_id_of(name_of(source)->Some_0))
}

/// What a merged file is named: an id, then each source's own, not the ids
/// those in turn replaced, or the name would grow at every level until it
/// passed the key limit.
pub open spec fn merged_name(id: Seq<char>, sources: Seq<ObjectView>) -> Seq<char> {
    joined(seq![id] + own_ids(sources), seq![SEPARATOR]) + EXTENSION@
}

/// The name of the file with id `id` that replaces `sources`.
pub fn filename_for(id: &Uuid, sources: &[ObjectMeta]) -> (name: String)
    requires
        forall|i: int| 0 <= i < sources@.len() ==> is_file(#[trigger] sources@[i]@),
    ensures
        name@ == merged_name(hex(uuid_bytes(*id)), object_views(sources@)),
{
    let ghost views = object_views(sources@);
    let mut name = simple(id);
    let ghost own = hex(uuid_bytes(*id));
    let mut i: usize = 0;
    assert(seq![own] + own_ids(views).take(0) =~= seq![own]);
    while i < sources.len()
        invariant
            i <= sources.len(),
            views == object_views(sources@),
            forall|k: int| 0 <= k < sources@.len() ==> is_file(#[trigger] sources@[k]@),
            name@ == joined(seq![own] + own_ids(views).take(i as int), seq![SEPARATOR]),
        decreases sources.len() - i,
    {
        assert(is_file(sources@[i as int]@));
        assert(views[i as int] == sources@[i as int]@);
        if let Some(source) = crate::paths::filename(&sources[i].location) {
            let id = own_id(source);
            proof {
                lemma_joined_push(
                    seq![own] + own_ids(views).take(i as int),
                    id@,
                    seq![SEPARATOR],
                );
                assert((seq![own] + own_ids(views).take(i as int)).push(id@) =~= seq![own]
                    + own_ids(views).take(i + 1));
            }
            name.append("_");
            name.append(id);
            proof {
                reveal_strlit("_");
                assert("_"@ =~= seq![SEPARATOR]);
            }
        }
        i = i + 1;
    }
    assert(own_ids(views).take(i as int) =~= own_ids(views));
    name.append(EXTENSION);
    name
}

/// The name of a new file that replaces `sources`.
pub fn filename(sources: &[ObjectMeta]) -> (name: String)
    requires
        forall|i: int| 0 <= i < sources@.len() ==> is_file(#[trigger] sources@[i]@),
    ensures
        exists|id: Uuid|
            uuid_bytes(id).len() == 16 && name@ == #[trigger] merged_name(
                hex(uuid_bytes(id)),
                object_views(sources@),
            ),
{
    let id = new_id();
    filename_for(&id, sources)
}

/// A merged file's name gives back its own id, and the own id of each file it
/// replaced, whatever those in turn replaced.
pub proof fn a_merged_name_lists_its_sources(id: Seq<char>, sources: Seq<ObjectView>)
    requires
        !id.contains(SEPARATOR),
    ensures
        own_id_of(merged_name(id, sources)) == id,
        superseded_by(merged_name(id, sources)) == own_ids(sources),
{
    let ids = seq![id] + own_ids(sources);
    let name = merged_name(id, sources);
    let stem = joined(ids, seq![SEPARATOR]);
    assert(name.skip(stem.len() as int) =~= EXTENSION@);
    assert(ends_with(name, EXTENSION@));
    assert(name.take(stem.len() as int) =~= stem);
    assert forall|i: int| 0 <= i < ids.len() implies !(#[trigger] ids[i]).contains(SEPARATOR) by {
        if i > 0 {
            let source = name_of(sources[i - 1])->Some_0;
            segments_hold_no_separator(without_suffix(source, EXTENSION@), SEPARATOR);
            crate::text::join_undoes_split(without_suffix(source, EXTENSION@), SEPARATOR);
        }
    }
    split_undoes_join(ids, SEPARATOR);
    assert(ids.drop_first() =~= own_ids(sources));
}

/// Ids are hex, so they never hold what separates them.
pub proof fn ids_hold_no_separator(bytes: Seq<u8>)
    ensures
        !hex(bytes).contains(SEPARATOR),
{
    assert forall|i: int| 0 <= i < hex(bytes).len() implies #[trigger] hex(bytes)[i]
        != SEPARATOR by {
        hex_is_plain(bytes, i);
    }
}

proof fn lemma_joined_length(parts: Seq<Seq<char>>, separator: char)
    requires
        parts.len() > 0,
        forall|i: int| 0 <= i < parts.len() ==> (#[trigger] parts[i]).len() <= 32,
    ensures
        joined(parts, seq![separator]).len() <= 33 * parts.len() - 1,
    decreases parts.len(),
{
    if parts.len() > 1 {
        let rest = parts.drop_first();
        assert forall|i: int| 0 <= i < rest.len() implies (#[trigger] rest[i]).len() <= 32 by {
            assert(rest[i] == parts[i + 1]);
        }
        lemma_joined_length(rest, separator);
        assert(parts[0].len() <= 32);
    }
}

/// However often files are merged, a merged name takes 40 characters and 33
/// for each file it replaced: the ids those replaced are not among them.
pub proof fn merged_names_do_not_compound(id: Seq<char>, sources: Seq<ObjectView>)
    requires
        id.len() <= 32,
        forall|i: int| 0 <= i < sources.len() ==> (#[trigger] own_ids(sources)[i]).len() <= 32,
    ensures
        merged_name(id, sources).len() <= 40 + 33 * sources.len(),
{
    let ids = seq![id] + own_ids(sources);
    assert forall|i: int| 0 <= i < ids.len() implies (#[trigger] ids[i]).len() <= 32 by {
        if i > 0 {
            assert(ids[i] == own_ids(sources)[i - 1]);
        }
    }
    lemma_joined_length(ids, SEPARATOR);
    assert(ids.len() == sources.len() + 1);
    reveal_strlit(".parquet");
}

/// Once a merged file is listed, none of the files it replaced is read, even
/// where they are still listed beside it.
pub proof fn a_merge_hides_its_sources(
    listing: Seq<ObjectView>,
    merged: int,
    id: Seq<char>,
    sources: Seq<ObjectView>,
    source: int,
)
    requires
        0 <= merged < listing.len(),
        name_of(listing[merged]) == Some(merged_name(id, sources)),
        !id.contains(SEPARATOR),
        0 <= source < sources.len(),
    ensures
        !is_live(listing, sources[source]),
{
    a_merged_name_lists_its_sources(id, sources);
    if is_file(sources[source]) {
        let own = own_id_of(name_of(sources[source])->Some_0);
        assert(own_ids(sources)[source] == own);
        assert(replaces(listing[merged], own));
    }
}

/// Where nothing listed has replaced anything, every file is read.
pub proof fn files_nothing_replaced_are_live(listing: Seq<ObjectView>)
    requires
        forall|i: int|
            0 <= i < listing.len() ==> is_file(#[trigger] listing[i]) && superseded_by(
                name_of(listing[i])->Some_0,
            ).len() == 0,
    ensures
        picked_live(listing, listing, true) == listing,
{
    assert forall|i: int| 0 <= i < listing.len() implies is_live(listing, #[trigger] listing[i]) by {
        let own = own_id_of(name_of(listing[i])->Some_0);
        assert forall|k: int| 0 <= k < listing.len() implies !#[trigger] replaces(
            listing[k],
            own,
        ) by {
            assert(is_file(listing[k]));
        }
    }
    lemma_picks_all(listing, listing);
}

pub proof fn lemma_picks_all(listing: Seq<ObjectView>, some: Seq<ObjectView>)
    requires
        forall|i: int| 0 <= i < some.len() ==> is_live(listing, #[trigger] some[i]),
    ensures
        picked_live(listing, some, true) == some,
    decreases some.len(),
{
    if some.len() > 0 {
        let front = some.drop_last();
        assert forall|i: int| 0 <= i < front.len() implies is_live(listing, #[trigger] front[i]) by {
            assert(front[i] == some[i]);
        }
        lemma_picks_all(listing, front);
        assert(some.last() == some[some.len() - 1]);
        assert(some =~= front.push(some.last()));
    }
}

/// Whether every file of a listing is worth reading.
pub open spec fn all_live(listing: Seq<ObjectView>) -> bool {
    forall|i: int| 0 <= i < listing.len() ==> is_live(listing, #[trigger] listing[i])
}

/// Once the files a merge replaced are gone from a listing, all that is left
/// is worth reading.
pub proof fn without_the_replaced_all_is_live(listing: Seq<ObjectView>)
    ensures
        all_live(picked_live(listing, listing, true)),
{
    let live = picked_live(listing, listing, true);
    lemma_picked_live(listing, listing);
    assert forall|i: int| 0 <= i < live.len() implies is_live(live, #[trigger] live[i]) by {
        let own = own_id_of(name_of(live[i])->Some_0);
        if is_replaced(live, own) {
            let k = choose|k: int| 0 <= k < live.len() && #[trigger] replaces(live[k], own);
            assert(listing.contains(live[k]));
            let n = choose|n: int| 0 <= n < listing.len() && listing[n] == live[k];
            assert(replaces(listing[n], own));
        }
    }
}

proof fn lemma_picked_live(listing: Seq<ObjectView>, some: Seq<ObjectView>)
    ensures
        forall|i: int|
            0 <= i < picked_live(listing, some, true).len() ==> {
                &&& is_live(listing, #[trigger] picked_live(listing, some, true)[i])
                &&& some.contains(picked_live(listing, some, true)[i])
            },
    decreases some.len(),
{
    if some.len() > 0 {
        let front = some.drop_last();
        let live = picked_live(listing, some, true);
        let rest = picked_live(listing, front, true);
        lemma_picked_live(listing, front);
        assert forall|i: int| 0 <= i < live.len() implies is_live(listing, #[trigger] live[i])
            && some.contains(live[i]) by {
            if i < rest.len() {
                assert(live[i] == rest[i]);
                assert(front.contains(rest[i]));
                let k = choose|k: int| 0 <= k < front.len() && front[k] == rest[i];
                assert(some[k] == live[i]);
            } else {
                assert(some[some.len() - 1] == live[i]);
            }
        }
    }
}

/// Splitting a listing loses no object and counts none twice.
pub proof fn splitting_keeps_every_object(listing: Seq<ObjectView>, some: Seq<ObjectView>)
    ensures
        picked_live(listing, some, true).to_multiset().add(
            picked_live(listing, some, false).to_multiset(),
        ) == some.to_multiset(),
    decreases some.len(),
{
    broadcast use vstd::seq_lib::group_to_multiset_ensures;

    if some.len() > 0 {
        let front = some.drop_last();
        let last = some.last();
        splitting_keeps_every_object(listing, front);
        assert(some =~= front.push(last));
        assert(picked_live(listing, some, true).to_multiset().add(
            picked_live(listing, some, false).to_multiset(),
        ) =~= some.to_multiset());
    } else {
        assert(picked_live(listing, some, true).to_multiset().add(
            picked_live(listing, some, false).to_multiset(),
        ) =~= some.to_multiset());
    }
}

/// A name is read by what separates its ids: what stands before the first
/// separator is the file's own, and each that follows one is an id it replaced.
pub proof fn a_name_is_read_id_by_id(stem: Seq<char>, id: Seq<char>)
    requires
        !id.contains('_'),
    ensures
        own_id_of(id + ".parquet"@) == id,
        superseded_by(id + ".parquet"@).len() == 0,
        own_id_of(stem + seq!['_'] + id + ".parquet"@) == own_id_of(stem + ".parquet"@),
        superseded_by(stem + seq!['_'] + id + ".parquet"@) == superseded_by(
            stem + ".parquet"@,
        ).push(id),
{
    a_suffix_comes_off_the_end(id, ".parquet"@);
    a_suffix_comes_off_the_end(stem, ".parquet"@);
    a_suffix_comes_off_the_end(stem + seq!['_'] + id, ".parquet"@);
    assert forall|k: int| 0 <= k < id.len() implies id[k] != '_' by {
        assert(id.contains(id[k]));
    }
    lemma_first_index(id, '_', id.len() as int);
    assert(ids_in(id + ".parquet"@) == seq![id]);
    crate::text::join_undoes_split(stem, '_');
    lemma_segments_push(stem, id, '_');
    let ids = segments(stem, '_');
    assert(ids.push(id).drop_first() =~= ids.drop_first().push(id));
}

/// A merged file's name goes on with the own id of each file it replaced: one
/// more source is one more separator and id, before what every name ends in.
pub proof fn a_merged_name_goes_on_with_each_source(
    id: Seq<char>,
    sources: Seq<ObjectView>,
    source: ObjectView,
    own: Seq<char>,
    rest: Seq<char>,
) -> (stem: Seq<char>)
    requires
        !own.contains('_'),
        filename_of(source.location) == Some(own + ".parquet"@) || filename_of(source.location)
            == Some(own + seq!['_'] + rest + ".parquet"@),
    ensures
        merged_name(id, Seq::empty()) == id + ".parquet"@,
        merged_name(id, sources) == stem + ".parquet"@,
        merged_name(id, sources.push(source)) == stem + seq!['_'] + own + ".parquet"@,
{
    let stem = joined(seq![id] + own_ids(sources), seq!['_']);
    let name = name_of(source)->Some_0;
    a_name_is_read_id_by_id(own, own);
    a_suffix_comes_off_the_end(own + seq!['_'] + rest, ".parquet"@);
    assert forall|k: int| 0 <= k < own.len() implies own[k] != '_' by {
        assert(own.contains(own[k]));
    }
    let whole = own + seq!['_'] + rest;
    assert forall|k: int| 0 <= k < own.len() implies #[trigger] whole[k] != '_' by {
        assert(whole[k] == own[k]);
    }
    lemma_first_index(whole, '_', own.len() as int);
    assert(whole.take(own.len() as int) =~= own);
    assert(own_id_of(name) == own);
    assert(seq![id] + own_ids(Seq::<ObjectView>::empty()) =~= seq![id]);
    assert(seq![id] + own_ids(sources.push(source)) =~= (seq![id] + own_ids(sources)).push(own));
    lemma_joined_push(seq![id] + own_ids(sources), own, seq!['_']);
    stem
}

/// A file is read unless a name that is listed has its id among those it
/// replaced, wherever in the listing either of them is, and whatever else is
/// listed. What has no name is not a file and is not read.
pub proof fn a_file_is_read_unless_a_listed_name_replaces_it(
    listing: Seq<ObjectView>,
    object: ObjectView,
)
    ensures
        filename_of(object.location) is None ==> !is_live(listing, object),
        filename_of(object.location) matches Some(name) ==> (!is_live(listing, object)
            <==> exists|i: int|
            0 <= i < listing.len() && (filename_of((#[trigger] listing[i]).location) matches Some(
                other,
            ) && superseded_by(other).contains(own_id_of(name)))),
{
    if let Some(name) = filename_of(object.location) {
        let id = own_id_of(name);
        if is_replaced(listing, id) {
            let i = choose|i: int| 0 <= i < listing.len() && #[trigger] replaces(listing[i], id);
            assert(superseded_by(filename_of(listing[i].location)->Some_0).contains(id));
        }
        if exists|i: int|
            0 <= i < listing.len() && (filename_of((#[trigger] listing[i]).location) matches Some(
                other,
            ) && superseded_by(other).contains(id)) {
            let i = choose|i: int|
                0 <= i < listing.len() && (filename_of(
                    (#[trigger] listing[i]).location,
                ) matches Some(other) && superseded_by(other).contains(id));
            assert(replaces(listing[i], id));
        }
    }
}

/// Splitting a listing puts each object on one side, by whether it is read,
/// and keeps those of a side in the order they are listed in.
pub proof fn splitting_goes_object_by_object(
    listing: Seq<ObjectView>,
    some: Seq<ObjectView>,
    more: Seq<ObjectView>,
    object: ObjectView,
    live: bool,
)
    ensures
        picked_live(listing, some + more, live) == picked_live(listing, some, live) + picked_live(
            listing,
            more,
            live,
        ),
        picked_live(listing, seq![object], live) == if is_live(listing, object) == live {
            seq![object]
        } else {
            Seq::empty()
        },
    decreases more.len(),
{
    if more.len() == 0 {
        assert(some + more =~= some);
    } else {
        splitting_goes_object_by_object(listing, some, more.drop_last(), object, live);
        assert((some + more).drop_last() =~= some + more.drop_last());
    }
    assert(picked_live(listing, some + more, live) =~= picked_live(listing, some, live)
        + picked_live(listing, more, live));
    let one = seq![object];
    assert(one.drop_last() =~= Seq::<ObjectView>::empty());
    assert(picked_live(listing, one.drop_last(), live) =~= Seq::<ObjectView>::empty());
    assert(one =~= Seq::<ObjectView>::empty().push(object));
}

} // verus!
