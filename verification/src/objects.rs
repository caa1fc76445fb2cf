//! One place that decides how rows become an object, so a file ingest wrote
//! and a file compaction merged are encoded the same way.

use std::sync::Arc;

use arrow::datatypes::Schema;
use object_store::path::Path;
use parquet::arrow::ArrowWriter;
use parquet::basic::ZstdLevel;
use parquet::errors::ParquetError;
use parquet::file::properties::WriterProperties;
use vstd::prelude::*;

use crate::paths::path_text;
use crate::record::{
    batch_rows, part_of, rows_of, schema_fields, slice_batch, stops_encoder, ColumnView,
    RecordBatch,
};

verus! {

#[verifier::external_type_specification]
#[verifier::external_body]
pub struct ExParquetError(parquet::errors::ParquetError);

/// A `parquet::arrow::ArrowWriter` into memory.
#[verifier::external_body]
pub struct FileEncoder {
    inner: ArrowWriter<Vec<u8>>,
}

/// Rows per row group. A file records the least and the greatest value of each
/// group, making it the smallest unit a query can skip. Rows are written in
/// primary key order, so each group covers a contiguous slice of it.
pub const ROW_GROUP_ROWS: usize = 10_000;

/// How a file is compressed.
#[derive(Clone, Copy, Debug, PartialEq, Eq, Structural)]
pub enum Compression {
    Uncompressed,
    /// At the level the encoder has for a default.
    Zstd,
}

/// The columns a file being encoded has.
pub uninterp spec fn encoder_fields(encoder: FileEncoder) -> Seq<ColumnView>;

/// How a file being encoded is compressed.
pub uninterp spec fn encoder_compression(encoder: FileEncoder) -> Compression;

/// How many rows a row group of a file being encoded has at most.
pub uninterp spec fn encoder_group_rows(encoder: FileEncoder) -> int;

/// The batches a file being encoded has been given so far.
pub uninterp spec fn encoder_batches(encoder: FileEncoder) -> Seq<RecordBatch>;

/// Whether a file being encoded has taken every batch it was given.
pub uninterp spec fn encoder_whole(encoder: FileEncoder) -> bool;

/// Whether a file can have some columns.
pub uninterp spec fn can_encode(fields: Seq<ColumnView>) -> bool;

/// Whether a file of some columns, given some batches, takes one more.
pub uninterp spec fn takes_batch(
    fields: Seq<ColumnView>,
    compression: Compression,
    group_rows: int,
    batches: Seq<RecordBatch>,
    batch: RecordBatch,
) -> bool;

/// The bytes of a file of some columns and batches, where it can be encoded.
pub uninterp spec fn encoded_file(
    fields: Seq<ColumnView>,
    compression: Compression,
    group_rows: int,
    batches: Seq<RecordBatch>,
) -> Option<Seq<u8>>;

/// `ArrowWriter::try_new`: a file of the schema's columns, with no rows yet, to
/// be compressed and split into row groups as given. Which schemas it takes is
/// left open. It panics on a column that is a union, and where a row group
/// would have no rows.
#[verifier::external_body]
fn new_encoder(schema: Schema, compression: Compression, group_rows: usize) -> (encoder: Result<
    FileEncoder,
    ParquetError,
>)
    requires
        schema_fields(schema) is Some,
        group_rows > 0,
    ensures
        encoder is Ok <==> can_encode(schema_fields(schema)->0),
        encoder matches Ok(encoder) ==> {
            &&& encoder_fields(encoder) == schema_fields(schema)->0
            &&& encoder_compression(encoder) == compression
            &&& encoder_group_rows(encoder) == group_rows
            &&& encoder_batches(encoder) == Seq::<RecordBatch>::empty()
            &&& encoder_whole(encoder)
        },
{
    let compression = match compression {
        Compression::Uncompressed => parquet::basic::Compression::UNCOMPRESSED,
        Compression::Zstd => parquet::basic::Compression::ZSTD(ZstdLevel::default()),
    };
    let properties = WriterProperties::builder()
        .set_compression(compression)
        .set_max_row_group_row_count(Some(group_rows))
        .build();
    let inner = ArrowWriter::try_new(Vec::new(), Arc::new(schema), Some(properties))?;
    Ok(FileEncoder { inner })
}

/// `ArrowWriter::write`: one batch more, where the file takes it. A batch that
/// is refused may leave some of its rows behind, counted but not written, after
/// which a further batch can keep it from ever returning: a file that refused
/// one is given no more. It calls itself again for each row group that a batch
/// runs on into, so it is given no more rows than one can have.
#[verifier::external_body]
fn encode_batch(encoder: &mut FileEncoder, batch: &RecordBatch) -> (result: Result<
    (),
    ParquetError,
>)
    requires
        encoder_whole(*old(encoder)),
        batch_rows(*batch) <= encoder_group_rows(*old(encoder)),
        !stops_encoder(encoder_fields(*old(encoder)), *batch),
    ensures
        result is Ok <==> takes_batch(
            encoder_fields(*old(encoder)),
            encoder_compression(*old(encoder)),
            encoder_group_rows(*old(encoder)),
            encoder_batches(*old(encoder)),
            *batch,
        ),
        encoder_whole(*final(encoder)) <==> result is Ok,
        encoder_fields(*final(encoder)) == encoder_fields(*old(encoder)),
        encoder_compression(*final(encoder)) == encoder_compression(*old(encoder)),
        encoder_group_rows(*final(encoder)) == encoder_group_rows(*old(encoder)),
        result is Ok ==> encoder_batches(*final(encoder)) == encoder_batches(*old(encoder)).push(
            *batch,
        ),
{
    encoder.inner.write(&batch.inner)
}

/// `ArrowWriter::into_inner`: what is still held, then the footer, without
/// which the bytes are row groups with no index that no reader will open. What
/// comes of a file that refused a batch is left open.
#[verifier::external_body]
fn finish_encoder(encoder: FileEncoder) -> (bytes: Result<Vec<u8>, ParquetError>)
    ensures
        encoder_whole(encoder) ==> encoded_file(
            encoder_fields(encoder),
            encoder_compression(encoder),
            encoder_group_rows(encoder),
            encoder_batches(encoder),
        ) == match bytes {
            Ok(bytes) => Some(bytes@),
            Err(_) => None,
        },
{
    encoder.inner.into_inner()
}

/// A file being built up in memory: nothing is stored until it is finished, so
/// memory grows with the file being written.
pub struct ObjectWriter {
    encoder: FileEncoder,
    path: Path,
}

/// A finished file: what to store, and where.
pub struct Object {
    pub path: Path,
    pub bytes: Vec<u8>,
}

/// A batch in parts, none with more rows than a row group can have.
pub open spec fn parts_of(batch: RecordBatch) -> Seq<RecordBatch> {
    let group = ROW_GROUP_ROWS as int;
    let rows = batch_rows(batch);
    Seq::new(
        ((rows + group - 1) / group) as nat,
        |i: int|
            part_of(
                batch,
                i * group,
                if rows - i * group < group {
                    rows - i * group
                } else {
                    group
                },
            ),
    )
}

/// Whether a file of some columns, given some batches, takes some more, one
/// after another.
pub open spec fn takes_all(
    fields: Seq<ColumnView>,
    compression: Compression,
    group_rows: int,
    batches: Seq<RecordBatch>,
    more: Seq<RecordBatch>,
) -> bool {
    forall|i: int|
        0 <= i < more.len() ==> takes_batch(
            fields,
            compression,
            group_rows,
            batches + more.take(i),
            #[trigger] more[i],
        )
}

impl ObjectWriter {
    /// Where the file goes.
    pub closed spec fn location(&self) -> Seq<char> {
        path_text(self.path)
    }

    /// The columns of the file.
    pub closed spec fn fields(&self) -> Seq<ColumnView> {
        encoder_fields(self.encoder)
    }

    /// Whether the file is split as every file is, and has taken every batch it
    /// was given.
    pub closed spec fn whole(&self) -> bool {
        encoder_whole(self.encoder) && encoder_group_rows(self.encoder) == ROW_GROUP_ROWS
    }

    /// The batches the file has been given so far.
    pub closed spec fn batches(&self) -> Seq<RecordBatch> {
        encoder_batches(self.encoder)
    }

    /// How the file is compressed.
    pub closed spec fn compression(&self) -> Compression {
        encoder_compression(self.encoder)
    }

    /// How many rows a row group of the file has at most.
    pub closed spec fn group_rows(&self) -> int {
        encoder_group_rows(self.encoder)
    }

    /// An empty file. Compressed with zstd, because query cost is dominated by
    /// bytes, not by the processor.
    pub fn new(path: Path, schema: Schema) -> (writer: Result<ObjectWriter, ParquetError>)
        requires
            schema_fields(schema) is Some,
        ensures
            writer is Ok <==> can_encode(schema_fields(schema)->0),
            writer matches Ok(writer) ==> {
                &&& writer.location() == path_text(path)
                &&& writer.fields() == schema_fields(schema)->0
                &&& writer.whole()
                &&& writer.batches() == Seq::<RecordBatch>::empty()
                &&& writer.compression() == Compression::Zstd
                &&& writer.group_rows() == ROW_GROUP_ROWS
            },
    {
        match new_encoder(schema, Compression::Zstd, ROW_GROUP_ROWS) {
            Ok(encoder) => Ok(ObjectWriter { encoder, path }),
            Err(error) => Err(error),
        }
    }

    /// Adds some rows, no more at a time than a row group can have. A file that
    /// has refused some takes no more.
    pub fn write(&mut self, batch: &RecordBatch) -> (result: Result<(), ParquetError>)
        requires
            old(self).whole(),
            !stops_encoder(old(self).fields(), *batch),
        ensures
            result is Ok <==> takes_all(
                old(self).fields(),
                old(self).compression(),
                old(self).group_rows(),
                old(self).batches(),
                parts_of(*batch),
            ),
            final(self).whole() <==> result is Ok,
            result is Ok ==> final(self).batches() == old(self).batches() + parts_of(*batch),
            final(self).location() == old(self).location(),
            final(self).fields() == old(self).fields(),
            final(self).compression() == old(self).compression(),
            final(self).group_rows() == old(self).group_rows(),
    {
        let ghost before = self.batches();
        let ghost parts = parts_of(*batch);
        let ghost mut given: int = 0;
        let rows = rows_of(batch);
        let mut from: usize = 0;
        assert(before + parts.take(0) =~= before);
        while from < rows
            invariant
                rows == batch_rows(*batch),
                parts == parts_of(*batch),
                before == old(self).batches(),
                from <= rows,
                0 <= given,
                from == given * 10_000 || from == rows,
                given * 10_000 >= from,
                given * 10_000 < from + 10_000,
                from == rows ==> given == parts.len(),
                self.whole(),
                !stops_encoder(self.fields(), *batch),
                self.location() == old(self).location(),
                self.fields() == old(self).fields(),
                self.compression() == old(self).compression(),
                self.group_rows() == old(self).group_rows(),
                self.group_rows() == ROW_GROUP_ROWS,
                self.batches() == before + parts.take(given),
                forall|i: int|
                    0 <= i < given ==> takes_batch(
                        self.fields(),
                        self.compression(),
                        self.group_rows(),
                        before + parts.take(i),
                        #[trigger] parts[i],
                    ),
            decreases rows - from,
        {
            let count = if rows - from < ROW_GROUP_ROWS {
                rows - from
            } else {
                ROW_GROUP_ROWS
            };
            let part = slice_batch(batch, from, count);
            assert(given < parts.len());
            assert(part == parts[given]);
            match encode_batch(&mut self.encoder, &part) {
                Ok(()) => {},
                Err(error) => {
                    return Err(error);
                },
            }
            from = from + count;
            proof {
                given = given + 1;
                assert(before + parts.take(given) =~= (before + parts.take(given - 1)).push(part));
            }
        }
        assert(parts.take(given) =~= parts);
        Ok(())
    }

    /// The whole file, with its footer, where every batch was taken.
    pub fn finish(self) -> (object: Result<Object, ParquetError>)
        ensures
            object matches Ok(object) ==> path_text(object.path) == self.location(),
            self.whole() ==> match encoded_file(
                self.fields(),
                self.compression(),
                self.group_rows(),
                self.batches(),
            ) {
                Some(bytes) => object matches Ok(object) && object.bytes@ == bytes,
                None => object is Err,
            },
    {
        match finish_encoder(self.encoder) {
            Ok(bytes) => Ok(Object { path: self.path, bytes }),
            Err(error) => Err(error),
        }
    }
}

/// A batch is written whole: in parts that begin where the one before ends, the
/// first with the first row and the last to the end, ten thousand rows each but
/// for the last, and none of them empty.
pub proof fn a_batch_is_written_whole(batch: RecordBatch)
    requires
        batch_rows(batch) >= 0,
    ensures
        ({
            let parts = parts_of(batch);
            let last = parts.len() - 1;
            &&& parts.len() == 0 <==> batch_rows(batch) == 0
            &&& forall|i: int|
                0 <= i < last ==> #[trigger] parts[i] == part_of(batch, 10_000 * i, 10_000)
            &&& parts.len() > 0 ==> {
                let rest = batch_rows(batch) - 10_000 * last;
                0 < rest <= 10_000 && parts[last] == part_of(batch, 10_000 * last, rest)
            }
        }),
{
}

} // verus!
