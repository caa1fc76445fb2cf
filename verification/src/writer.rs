//! What a file is written as.

use object_store::path::Path;
use parquet::errors::ParquetError;
use uuid::Uuid;
use vstd::prelude::*;

use crate::ids::{hex_is_plain, simple, uuid_bytes};
use crate::merged::{ids_in, own_id_of, superseded_by, EXTENSION, SEPARATOR};
use crate::objects::{
    can_encode, encoded_file, parts_of, takes_all, takes_batch, Compression, Object, ObjectWriter,
    ROW_GROUP_ROWS,
};
use crate::paths::{
    a_file_is_under_its_directory, directory_text_of, filename_of, named_path, path_named, path_text,
    plain, plain_char, plain_text_stands_as_it_is,
};
use crate::record::{batch_fields, batch_schema, stops_encoder, RecordBatch};
use crate::text::{ends_with, hex, lemma_first_index};

verus! {

/// One object's rows and name. The name is set here so a retry overwrites
/// rather than duplicates.
pub struct Batch {
    pub directory: String,
    pub file_id: Uuid,
    pub rows: RecordBatch,
}

/// What the file with id `id` is named.
pub open spec fn file_name(id: Seq<u8>) -> Seq<char> {
    hex(id) + EXTENSION@
}

/// Where the file with id `id` goes.
pub open spec fn object_text(directory: Seq<char>, id: Seq<u8>) -> Seq<char> {
    path_named(directory + "/"@ + file_name(id))
}

/// Ids are written unhyphenated and time-ordered, so a listing reads oldest
/// first and a name costs four bytes less.
pub fn object_path(directory: &str, file_id: &Uuid) -> (location: Path)
    ensures
        path_text(location) == object_text(directory@, uuid_bytes(*file_id)),
{
    let mut text = String::from_str(directory);
    text.append("/");
    text.append(simple(file_id).as_str());
    text.append(EXTENSION);
    assert(text@ =~= directory@ + "/"@ + file_name(uuid_bytes(*file_id)));
    named_path(text)
}

impl Batch {
    /// Where the batch goes.
    pub fn location(&self) -> (location: Path)
        ensures
            path_text(location) == object_text(self.directory@, uuid_bytes(self.file_id)),
    {
        object_path(self.directory.as_str(), &self.file_id)
    }

    /// The file to store for the batch, and where.
    pub fn object(&self) -> (object: Result<Object, ParquetError>)
        requires
            batch_fields(self.rows) is Some,
            !stops_encoder(batch_fields(self.rows)->0, self.rows),
        ensures
            match file_bytes(self.rows) {
                Some(bytes) => object matches Ok(object) && object.bytes@ == bytes && path_text(
                    object.path,
                ) == object_text(self.directory@, uuid_bytes(self.file_id)),
                None => object is Err,
            },
            object matches Ok(object) ==> is_file_of(
                self.directory@,
                uuid_bytes(self.file_id),
                self.rows,
                (path_text(object.path), object.bytes@),
            ),
    {
        let mut writer = match ObjectWriter::new(self.location(), batch_schema(&self.rows)) {
            Ok(writer) => writer,
            Err(error) => {
                return Err(error);
            },
        };
        match writer.write(&self.rows) {
            Ok(()) => {},
            Err(error) => {
                return Err(error);
            },
        }
        assert(writer.batches() =~= parts_of(self.rows));
        writer.finish()
    }
}

/// Whether a path and some bytes are the file to store for a batch.
pub open spec fn is_file_of(
    directory: Seq<char>,
    id: Seq<u8>,
    rows: RecordBatch,
    file: (Seq<char>, Seq<u8>),
) -> bool {
    file.0 == object_text(directory, id) && file_bytes(rows) == Some(file.1)
}

/// The bytes of the file that holds one batch, where it can be encoded.
pub open spec fn file_bytes(batch: RecordBatch) -> Option<Seq<u8>> {
    let fields = batch_fields(batch)->0;
    let group_rows = ROW_GROUP_ROWS as int;
    let none = Seq::<RecordBatch>::empty();
    let parts = parts_of(batch);
    if !can_encode(fields) || !takes_all(fields, Compression::Zstd, group_rows, none, parts) {
        None
    } else {
        encoded_file(fields, Compression::Zstd, group_rows, parts)
    }
}

/// A batch is stored once: asked again for the file to store, it gives the
/// same bytes at the same place, so a retry overwrites rather than duplicates.
/// `first` and `second` are what was given each time, as path and bytes.
pub proof fn a_retry_overwrites(
    directory: Seq<char>,
    id: Seq<u8>,
    rows: RecordBatch,
    first: (Seq<char>, Seq<u8>),
    second: (Seq<char>, Seq<u8>),
)
    requires
        is_file_of(directory, id, rows, first),
        is_file_of(directory, id, rows, second),
    ensures
        first == second,
        first.0 == object_text(directory, id),
        forall|stored: Map<Seq<char>, Seq<u8>>| #[trigger]
            stored.insert(first.0, first.1).insert(second.0, second.1) == stored.insert(
                first.0,
                first.1,
            ),
{
    assert forall|stored: Map<Seq<char>, Seq<u8>>| #[trigger]
        stored.insert(first.0, first.1).insert(second.0, second.1) == stored.insert(
            first.0,
            first.1,
        ) by {
        assert(stored.insert(first.0, first.1).insert(second.0, second.1) =~= stored.insert(
            first.0,
            first.1,
        ));
    }
}

/// A file is in the directory it was written to, under the name its id gives
/// it, and that name says it replaced nothing.
pub proof fn a_file_is_found_by_its_id(directory: Seq<char>, id: Seq<u8>)
    requires
        path_named(directory).len() > 0,
        id.len() > 0,
    ensures
        directory_text_of(object_text(directory, id)) == path_named(directory),
        filename_of(object_text(directory, id)) == Some(file_name(id)),
        own_id_of(file_name(id)) == hex(id),
        superseded_by(file_name(id)).len() == 0,
{
    let name = file_name(id);
    reveal_strlit("/");
    reveal_strlit(".parquet");
    assert("/"@ =~= seq!['/']);
    lemma_file_name_is_plain(id);
    assert(!name.contains('/')) by {
        assert forall|i: int| 0 <= i < name.len() implies #[trigger] name[i] != '/' by {
            assert(plain_char(name[i]));
            reveal_strlit("/\\{^}%`]\">[~<#|*?");
            assert("/\\{^}%`]\">[~<#|*?"@[0] == '/');
        }
    }
    a_file_is_under_its_directory(directory, name);
    plain_text_stands_as_it_is(name);
    let stem = hex(id);
    assert(name.skip(stem.len() as int) =~= EXTENSION@);
    assert(ends_with(name, EXTENSION@));
    assert(name.take(stem.len() as int) =~= stem);
    assert forall|i: int| 0 <= i < stem.len() implies stem[i] != SEPARATOR by {
        hex_is_plain(id, i);
    }
    lemma_first_index(stem, SEPARATOR, stem.len() as int);
    assert(ids_in(name) == seq![stem]);
}

proof fn lemma_file_name_is_plain(id: Seq<u8>)
    requires
        id.len() > 0,
    ensures
        plain(file_name(id)),
{
    let name = file_name(id);
    reveal_strlit(".parquet");
    reveal_strlit(".");
    reveal_strlit("..");
    reveal_strlit("/\\{^}%`]\">[~<#|*?");
    assert forall|i: int| 0 <= i < name.len() implies plain_char(#[trigger] name[i]) by {
        if i < hex(id).len() {
            hex_is_plain(id, i);
            assert(name[i] == hex(id)[i]);
        } else {
            assert(name[i] == EXTENSION@[i - hex(id).len()]);
        }
    }
    assert(name.len() > 2);
    assert("."@.len() == 1);
    assert(".."@.len() == 2);
}

/// A file is zstd in row groups of ten thousand rows, of the batch's columns and
/// all of its parts, in order, and there is one wherever the encoder takes them.
pub proof fn a_file_holds_its_batch(batch: RecordBatch)
    requires
        batch_fields(batch) is Some,
    ensures
        ({
            let fields = batch_fields(batch)->0;
            let parts = parts_of(batch);
            let taken = forall|i: int|
                0 <= i < parts.len() ==> takes_batch(
                    fields,
                    Compression::Zstd,
                    10_000,
                    parts.take(i),
                    #[trigger] parts[i],
                );
            &&& file_bytes(batch) matches Some(bytes) ==> encoded_file(
                fields,
                Compression::Zstd,
                10_000,
                parts,
            ) == Some(bytes)
            &&& file_bytes(batch) is Some <==> can_encode(fields) && taken && encoded_file(
                fields,
                Compression::Zstd,
                10_000,
                parts,
            ) is Some
        }),
{
    let parts = parts_of(batch);
    let none = Seq::<RecordBatch>::empty();
    assert forall|i: int| 0 <= i < parts.len() implies none + parts.take(i) == #[trigger] parts.take(
        i,
    ) by {
        assert(none + parts.take(i) =~= parts.take(i));
    }
}

/// A file is where its directory and its id say, written in hexadecimal.
pub proof fn a_file_is_named_by_its_id(directory: Seq<char>, id: Seq<u8>)
    ensures
        object_text(directory, id) == path_named(directory + "/"@ + hex(id) + ".parquet"@),
{
    assert(directory + "/"@ + (hex(id) + ".parquet"@) =~= directory + "/"@ + hex(id)
        + ".parquet"@);
}

} // verus!
