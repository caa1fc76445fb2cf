//! What the store holds: records, the columns they declare, and the batches
//! their rows become.

use std::sync::Arc;

use arrow::datatypes::{DataType as ArrowType, Field, Schema, TimeUnit};
use arrow::error::ArrowError;
use vstd::prelude::*;

use crate::arrays::{Array, ArrowField, ColumnValues, DataType, DataTypeView};
use crate::civil::{rfc3339, rfc3339_text};
use crate::order::{
    in_bounds, key_le, key_view, key_views, picked, sort_positions, KeyPart, Part,
};
use crate::text::{same_text, str_views};
use crate::types::{
    nanos_per_second, partition_floor, Granularity, TimePartitioned, Timestamp,
};

verus! {

#[verifier::external_type_specification]
#[verifier::external_body]
pub struct ExField(arrow::datatypes::Field);

#[verifier::external_type_specification]
#[verifier::external_body]
pub struct ExSchema(arrow::datatypes::Schema);

/// An `arrow::array::RecordBatch`.
#[verifier::external_body]
pub struct RecordBatch {
    pub inner: arrow::array::RecordBatch,
}

/// The column a row's partition is read back as. It is in the path of a file,
/// never in the file.
pub const PARTITION_COLUMN: &'static str = "partition";

/// The column rows are partitioned by.
pub const RECEIVED_AT: &'static str = "received_at";

/// What the store needs from a record whatever else it holds: who the row
/// belongs to, and when the store saw it. Carried by every record so no record
/// declares these columns itself.
#[derive(Debug)]
pub struct Common {
    pub organization_id: String,
    pub project_id: String,
    /// What rows are partitioned by. A span can have started before the
    /// partition it lands in; it cannot have been received before it.
    pub received_at: Timestamp,
}

/// A record's common part, as plain values.
#[verifier::ext_equal]
pub struct CommonView {
    pub organization_id: Seq<char>,
    pub project_id: Seq<char>,
    /// In nanoseconds since the epoch.
    pub received_at: int,
}

impl View for Common {
    type V = CommonView;

    open spec fn view(&self) -> CommonView {
        CommonView {
            organization_id: self.organization_id@,
            project_id: self.project_id@,
            received_at: self.received_at@,
        }
    }
}

/// One column of a record.
#[derive(Debug)]
pub struct Column {
    name: &'static str,
    data_type: DataType,
    nullable: bool,
}

/// A column's declaration, as plain values.
#[verifier::ext_equal]
pub struct ColumnView {
    pub name: Seq<char>,
    pub data_type: DataTypeView,
    pub nullable: bool,
}

impl View for Column {
    type V = ColumnView;

    closed spec fn view(&self) -> ColumnView {
        ColumnView { name: self.name@, data_type: self.data_type@, nullable: self.nullable }
    }
}

/// The column a field of type `F` becomes under `name`.
pub open spec fn declared<F: ArrowField>(name: Seq<char>) -> ColumnView {
    ColumnView { name, data_type: F::spec_data_type(), nullable: F::spec_nullable() }
}

impl Column {
    /// Declares one field as a column. The Arrow type, nullability and
    /// conversion all come from `F`.
    pub fn new<F: ArrowField>(name: &'static str) -> (column: Column)
        ensures
            column@ == declared::<F>(name@),
    {
        Column { name, data_type: F::data_type(), nullable: F::nullable() }
    }
}

pub open spec fn column_views(columns: Seq<Column>) -> Seq<ColumnView> {
    columns.map_values(|column: Column| column@)
}

pub open spec fn column_names(columns: Seq<ColumnView>) -> Seq<Seq<char>> {
    columns.map_values(|column: ColumnView| column.name)
}

/// A name two columns are declared as. A schema with the same name twice
/// resolves every lookup to the first, so the second would never be read.
#[derive(Debug)]
pub struct Duplicate {
    pub name: &'static str,
}

impl Duplicate {
    pub fn message(&self) -> (message: String)
        ensures
            message@ == "two columns are declared as `"@ + self.name@ + "`"@,
    {
        let mut message = String::from_str("two columns are declared as `");
        message.append(self.name);
        message.append("`");
        message
    }
}

/// Whether the name at `i` also stands before it.
pub open spec fn repeats(names: Seq<Seq<char>>, i: int) -> bool {
    exists|j: int| 0 <= j < i && #[trigger] names[j] == names[i]
}

/// Whether the name at `i` is the first that also stands before it.
pub open spec fn first_repeat(names: Seq<Seq<char>>, i: int) -> bool {
    &&& 0 <= i < names.len()
    &&& repeats(names, i)
    &&& forall|k: int| 0 <= k < i ==> !#[trigger] repeats(names, k)
}

/// A record's columns, common first, no two of them under one name.
#[derive(Debug)]
pub struct Columns {
    columns: Vec<Column>,
}

impl View for Columns {
    type V = Seq<ColumnView>;

    closed spec fn view(&self) -> Seq<ColumnView> {
        column_views(self.columns@)
    }
}

impl Columns {
    #[verifier::type_invariant]
    pub open spec fn distinct(&self) -> bool {
        column_names(self@).no_duplicates()
    }

    /// Refuses a record declaring a name twice, including one every record
    /// already holds.
    pub fn new(columns: Vec<Column>) -> (declared: Result<Columns, Duplicate>)
        ensures
            declared is Ok <==> column_names(column_views(columns@)).no_duplicates(),
            declared matches Ok(declared) ==> declared@ == column_views(columns@),
            declared matches Err(duplicate) ==> exists|i: int|
                first_repeat(column_names(column_views(columns@)), i) && duplicate.name@
                    == #[trigger] column_names(column_views(columns@))[i],
    {
        let ghost names = column_names(column_views(columns@));
        let mut i: usize = 0;
        while i < columns.len()
            invariant
                i <= columns.len(),
                names == column_names(column_views(columns@)),
                forall|k: int| 0 <= k < i ==> !#[trigger] repeats(names, k),
            decreases columns.len() - i,
        {
            let mut j: usize = 0;
            while j < i
                invariant
                    j <= i < columns.len(),
                    names == column_names(column_views(columns@)),
                    forall|k: int| 0 <= k < i ==> !#[trigger] repeats(names, k),
                    forall|k: int| 0 <= k < j ==> #[trigger] names[k] != names[i as int],
                decreases i - j,
            {
                assert(names[i as int] == columns@[i as int].name@);
                assert(names[j as int] == columns@[j as int].name@);
                if same_text(columns[j].name, columns[i].name) {
                    assert(repeats(names, i as int));
                    assert(first_repeat(names, i as int));
                    return Err(Duplicate { name: columns[i].name });
                }
                j = j + 1;
            }
            assert(!repeats(names, i as int));
            i = i + 1;
        }
        assert forall|a: int, b: int| 0 <= a < b < names.len() implies names[a] != names[b] by {
            assert(!repeats(names, b));
        }
        Ok(Columns { columns })
    }

    /// How many columns there are.
    pub fn len(&self) -> (len: usize)
        ensures
            len == self@.len(),
    {
        self.columns.len()
    }

    /// The names of the columns, in order.
    pub fn names(&self) -> (names: Vec<&'static str>)
        ensures
            str_views(names@) == column_names(self@),
    {
        let mut names: Vec<&'static str> = Vec::new();
        let mut i: usize = 0;
        while i < self.columns.len()
            invariant
                i <= self.columns.len(),
                str_views(names@) == column_names(self@).take(i as int),
            decreases self.columns.len() - i,
        {
            let ghost before = names@;
            names.push(self.columns[i].name);
            i = i + 1;
            assert(str_views(names@) =~= str_views(before).push(
                self.columns@[i - 1].name@,
            ));
            assert(str_views(names@) =~= column_names(self@).take(i as int));
        }
        assert(column_names(self@).take(i as int) =~= column_names(self@));
        names
    }

    /// The schema the columns declare.
    pub fn arrow_schema(&self) -> (schema: Schema)
        ensures
            schema_fields(schema) == Some(self@),
    {
        let mut fields: Vec<Field> = Vec::new();
        let mut i: usize = 0;
        while i < self.columns.len()
            invariant
                i <= self.columns.len(),
                fields@.len() == i,
                forall|k: int| 0 <= k < i ==> field_column(#[trigger] fields@[k]) == Some(self@[k]),
            decreases self.columns.len() - i,
        {
            let column = &self.columns[i];
            assert(column@ == self@[i as int]);
            fields.push(new_field(column.name, &column.data_type, column.nullable));
            i = i + 1;
        }
        assert(field_columns(fields@)->0 =~= self@);
        new_schema(fields)
    }
}

/// The column a field declares, where its type is one of those here and it
/// carries nothing else.
pub uninterp spec fn field_column(field: Field) -> Option<ColumnView>;

/// The columns some fields declare, where each declares one.
pub open spec fn field_columns(fields: Seq<Field>) -> Option<Seq<ColumnView>> {
    if forall|i: int| 0 <= i < fields.len() ==> field_column(#[trigger] fields[i]) is Some {
        Some(fields.map_values(|field: Field| field_column(field)->0))
    } else {
        None
    }
}

/// `arrow::datatypes::Field::new`: a field of the name, type and nullability
/// given. A map's type is one of structs of a key and a value, only the value
/// of which may be null.
#[verifier::external_body]
fn new_field(name: &str, data_type: &DataType, nullable: bool) -> (field: Field)
    ensures
        field_column(field) == Some(ColumnView { name: name@, data_type: data_type@, nullable }),
{
    let data_type = match data_type {
        DataType::Utf8 => ArrowType::Utf8,
        DataType::FixedSizeBinary(width) => ArrowType::FixedSizeBinary(*width),
        DataType::TimestampMicros(zone) => {
            ArrowType::Timestamp(TimeUnit::Microsecond, zone.as_deref().map(Arc::from))
        },
        DataType::TextMap(names) => {
            let key = Field::new(&names.key, ArrowType::Utf8, false);
            let value = Field::new(&names.value, ArrowType::Utf8, true);
            Field::new_map("", &names.entry, key, value, false, false).data_type().clone()
        },
    };
    Field::new(name, data_type, nullable)
}

/// The columns a schema declares, in order, where their types are those here
/// and it carries nothing else.
pub uninterp spec fn schema_fields(schema: Schema) -> Option<Seq<ColumnView>>;

/// `arrow::datatypes::Schema::new`: a schema of the fields given, in order.
#[verifier::external_body]
fn new_schema(fields: Vec<Field>) -> (schema: Schema)
    ensures
        schema_fields(schema) == field_columns(fields@),
{
    Schema::new(fields)
}

/// The columns a batch's schema declares, in order, where their types are those
/// here and it carries nothing else.
pub uninterp spec fn batch_fields(batch: RecordBatch) -> Option<Seq<ColumnView>>;

/// How many rows a batch has.
pub uninterp spec fn batch_rows(batch: RecordBatch) -> int;

/// The rows of a batch from `from` on, `rows` of them.
pub uninterp spec fn part_of(batch: RecordBatch, from: int, rows: int) -> RecordBatch;

/// Whether `ArrowWriter::write` panics on a batch, or on a part of one, in some
/// file of these columns. It does on values of no width, and on a dictionary of
/// string views where a column is of text.
pub uninterp spec fn stops_encoder(fields: Seq<ColumnView>, batch: RecordBatch) -> bool;

/// Whether `ArrayWriter::write` panics on a batch. It does on an instant whose
/// time in the zone of its column is none a calendar has, and on a dictionary
/// whose values come to ones of type `Null`, directly or through dictionaries
/// and runs of their own.
pub uninterp spec fn stops_json(batch: RecordBatch) -> bool;

/// Whether every column of fixed-width values has some width.
pub open spec fn widths_are_some(fields: Seq<ColumnView>) -> bool {
    forall|i: int|
        0 <= i < fields.len() ==> (#[trigger] fields[i]).data_type
            != DataTypeView::FixedSizeBinary(0)
}

/// Whether every instant of some columns is in UTC, or in no timezone.
pub open spec fn zones_are_utc(fields: Seq<ColumnView>) -> bool {
    forall|i: int|
        0 <= i < fields.len() ==> match (#[trigger] fields[i]).data_type {
            DataTypeView::TimestampMicros(Some(zone)) => zone == "UTC"@,
            _ => true,
        }
}

/// The values of each column of a batch, in order.
pub uninterp spec fn batch_columns(batch: RecordBatch) -> Seq<ColumnValues>;

pub open spec fn array_values(arrays: Seq<Array>) -> Seq<ColumnValues> {
    arrays.map_values(|array: Array| array.values())
}

/// Whether columns can stand under fields: as many of each, at least one, all
/// the same length, each of its field's type and with nulls only where its
/// field has them.
pub open spec fn columns_match(fields: Seq<ColumnView>, arrays: Seq<Array>) -> bool {
    &&& fields.len() == arrays.len()
    &&& arrays.len() > 0
    &&& forall|i: int|
        0 <= i < arrays.len() ==> {
            &&& (#[trigger] arrays[i]).values().len() == arrays[0].values().len()
            &&& arrays[i].data_type() == fields[i].data_type
            &&& !fields[i].nullable ==> !arrays[i].values().has_null()
        }
}

/// `RecordBatch::try_new`: the columns under the schema's fields, where they
/// match; an error otherwise. What is held of it then is of the few types here,
/// so neither `ArrowWriter::write`, in a file of the same columns, nor
/// `ArrayWriter::write` meets a column it has no way to write, short of values
/// of no width and of zones other than UTC.
#[verifier::external_body]
fn new_batch(schema: Schema, arrays: Vec<Array>) -> (batch: Result<RecordBatch, ArrowError>)
    requires
        schema_fields(schema) is Some,
    ensures
        batch is Ok <==> columns_match(schema_fields(schema)->0, arrays@),
        batch matches Ok(batch) ==> {
            &&& batch_fields(batch) == schema_fields(schema)
            &&& batch_columns(batch) == array_values(arrays@)
            &&& batch_rows(batch) == arrays@[0].values().len()
            &&& widths_are_some(schema_fields(schema)->0) ==> !stops_encoder(
                schema_fields(schema)->0,
                batch,
            )
            &&& zones_are_utc(schema_fields(schema)->0) ==> !stops_json(batch)
        },
{
    let erased = |array: Array| -> arrow::array::ArrayRef {
        match array {
            Array::Text(array) => Arc::new(array.inner),
            Array::Timestamp(array) => Arc::new(array.inner),
            Array::Binary(array) => Arc::new(array),
            Array::Entries(array) => Arc::new(array),
        }
    };
    let columns = arrays.into_iter().map(erased).collect();
    let inner = arrow::array::RecordBatch::try_new(Arc::new(schema), columns)?;
    Ok(RecordBatch { inner })
}

/// `RecordBatch::schema`: the schema whose fields the batch's columns are
/// under.
#[verifier::external_body]
pub(crate) fn batch_schema(batch: &RecordBatch) -> (schema: Schema)
    ensures
        schema_fields(schema) == batch_fields(*batch),
{
    batch.inner.schema().as_ref().clone()
}

/// `RecordBatch::num_rows`: how many rows a batch has.
#[verifier::external_body]
pub(crate) fn rows_of(batch: &RecordBatch) -> (rows: usize)
    ensures
        rows == batch_rows(*batch),
{
    batch.inner.num_rows()
}

/// `RecordBatch::slice`: some rows of a batch, in the same columns. It panics
/// where there are not as many.
#[verifier::external_body]
pub(crate) fn slice_batch(batch: &RecordBatch, from: usize, rows: usize) -> (part: RecordBatch)
    requires
        from + rows <= batch_rows(*batch),
    ensures
        part == part_of(*batch, from as int, rows as int),
        batch_rows(part) == rows,
        batch_fields(part) == batch_fields(*batch),
        forall|fields: Seq<ColumnView>|
            !stops_encoder(fields, *batch) ==> !#[trigger] stops_encoder(fields, part),
{
    RecordBatch { inner: batch.inner.slice(from, rows) }
}

/// How rows with the same primary key are told apart.
#[derive(Clone, Copy, Debug)]
pub enum MergeStrategy {
    /// The row with the largest value in the column named is the one to keep.
    Latest { version: &'static str },
}

/// Every type the store holds implements Record.
pub trait Record: Sized {
    spec fn spec_common(&self) -> Common;

    /// The record's own columns.
    spec fn spec_columns() -> Seq<ColumnView>;

    /// What one of its own columns holds for some rows.
    spec fn own_column(rows: Seq<&Self>, column: int) -> ColumnValues;

    /// Whether an array can hold one of its own columns for some rows.
    spec fn own_column_fits(rows: Seq<&Self>, column: int) -> bool;

    spec fn spec_table() -> Seq<char>;

    spec fn spec_granularity() -> Granularity;

    spec fn spec_primary_key() -> Seq<Seq<char>>;

    /// What the columns of the primary key hold in this row.
    spec fn spec_key(&self) -> Seq<Part>;

    /// The column whose largest value is the row to keep, where rows with the
    /// same primary key are merged.
    spec fn spec_version_column() -> Option<Seq<char>>;

    /// What the version column holds in this row.
    spec fn spec_version(&self) -> int;

    /// No column is declared under a name another has.
    proof fn columns_are_distinct()
        ensures
            column_names(common_columns() + Self::spec_columns()).no_duplicates(),
    ;

    /// Every row's primary key is as long as the type's.
    proof fn keys_are_whole(&self)
        ensures
            self.spec_key().len() == Self::spec_primary_key().len(),
    ;

    fn common(&self) -> (common: &Common)
        ensures
            *common == self.spec_common(),
    ;

    /// The record's own columns, added to the ones every record shares.
    fn columns() -> (columns: Vec<Column>)
        ensures
            column_views(columns@) == Self::spec_columns(),
    ;

    /// Whether an array can hold one of the record's own columns.
    fn can_build<'a>(rows: &Vec<&'a Self>, column: usize) -> (fits: bool)
        requires
            column < Self::spec_columns().len(),
        ensures
            fits == Self::own_column_fits(rows@, column as int),
    ;

    /// One of the record's own columns.
    fn build<'a>(rows: &Vec<&'a Self>, column: usize) -> (array: Array)
        requires
            column < Self::spec_columns().len(),
            Self::own_column_fits(rows@, column as int),
        ensures
            array.values() == Self::own_column(rows@, column as int),
            array.values().len() == rows@.len(),
            array.data_type() == Self::spec_columns()[column as int].data_type,
            !Self::spec_columns()[column as int].nullable ==> !array.values().has_null(),
    ;

    /// The table the record's rows are read as, and the directory they are
    /// under.
    fn table() -> (table: &'static str)
        ensures
            table@ == Self::spec_table(),
    ;

    fn granularity() -> (granularity: Granularity)
        ensures
            granularity == Self::spec_granularity(),
    ;

    /// The columns that say which row is which, within an organization and a
    /// project.
    fn primary_key() -> (names: Vec<&'static str>)
        ensures
            str_views(names@) == Self::spec_primary_key(),
    ;

    /// What the columns of the primary key hold in this row.
    fn key(&self) -> (key: Vec<KeyPart>)
        ensures
            key_view(key@) == self.spec_key(),
    ;

    /// How rows with the same primary key are told apart, where they are.
    fn merge() -> (merge: Option<MergeStrategy>)
        ensures
            merge is Some <==> Self::spec_version_column() is Some,
            merge matches Some(MergeStrategy::Latest { version }) ==> Self::spec_version_column()
                == Some(version@),
    ;

    /// What the version column holds in this row.
    fn version(&self) -> (version: i64)
        ensures
            version == self.spec_version(),
    ;
}

/// The columns every record shares.
pub open spec fn common_columns() -> Seq<ColumnView> {
    seq![
        declared::<String>("organization_id"@),
        declared::<String>("project_id"@),
        declared::<Timestamp>("received_at"@),
    ]
}

/// Every column of a record, common first.
pub open spec fn all_column_views<T: Record>() -> Seq<ColumnView> {
    common_columns() + T::spec_columns()
}

/// One field of some rows.
pub open spec fn projected<T, F>(rows: Seq<&T>, field: spec_fn(T) -> F) -> Seq<Option<&F>> {
    Seq::new(rows.len(), |i: int| Some(&field(*rows[i])))
}

/// One field of some rows.
pub fn project<'a, T, F, A: Fn(&'a T) -> &'a F>(
    rows: &Vec<&'a T>,
    accessor: A,
    Ghost(field): Ghost<spec_fn(T) -> F>,
) -> (values: Vec<Option<&'a F>>)
    requires
        forall|row: &'a T| call_requires(accessor, (row,)),
        forall|row: &'a T, found: &'a F| #[trigger]
            call_ensures(accessor, (row,), found) ==> *found == field(*row),
    ensures
        values@ == projected(rows@, field),
{
    let mut values: Vec<Option<&'a F>> = Vec::new();
    let mut i: usize = 0;
    while i < rows.len()
        invariant
            i <= rows.len(),
            forall|row: &'a T| call_requires(accessor, (row,)),
            forall|row: &'a T, found: &'a F| #[trigger]
                call_ensures(accessor, (row,), found) ==> *found == field(*row),
            values@ == projected(rows@, field).take(i as int),
        decreases rows.len() - i,
    {
        values.push(Some(accessor(rows[i])));
        i = i + 1;
        assert(values@ =~= projected(rows@, field).take(i as int));
    }
    assert(values@ =~= projected(rows@, field));
    values
}

pub open spec fn organization_ids<T: Record>(rows: Seq<&T>) -> Seq<Option<&String>> {
    projected(rows, |row: T| row.spec_common().organization_id)
}

pub open spec fn project_ids<T: Record>(rows: Seq<&T>) -> Seq<Option<&String>> {
    projected(rows, |row: T| row.spec_common().project_id)
}

pub open spec fn arrivals<T: Record>(rows: Seq<&T>) -> Seq<Option<&Timestamp>> {
    projected(rows, |row: T| row.spec_common().received_at)
}

/// What one column of a record holds for some rows.
pub open spec fn column_of<T: Record>(rows: Seq<&T>, column: int) -> ColumnValues {
    if column == 0 {
        String::column(organization_ids(rows))
    } else if column == 1 {
        String::column(project_ids(rows))
    } else if column == 2 {
        Timestamp::column(arrivals(rows))
    } else {
        T::own_column(rows, column - 3)
    }
}

/// Whether an array can hold one column of a record for some rows.
pub open spec fn column_fits<T: Record>(rows: Seq<&T>, column: int) -> bool {
    if column == 0 {
        String::fits(organization_ids(rows))
    } else if column == 1 {
        String::fits(project_ids(rows))
    } else if column == 2 {
        Timestamp::fits(arrivals(rows))
    } else {
        T::own_column_fits(rows, column - 3)
    }
}

/// Whether one batch can hold some rows: every column of them fits an array.
pub open spec fn rows_fit<T: Record>(rows: Seq<&T>) -> bool {
    forall|column: int|
        0 <= column < all_column_views::<T>().len() ==> #[trigger] column_fits(rows, column)
}

/// What the columns of a batch of some rows hold.
pub open spec fn batch_of<T: Record>(rows: Seq<&T>) -> Seq<ColumnValues> {
    Seq::new(all_column_views::<T>().len(), |column: int| column_of(rows, column))
}

/// What tells a row from every other: its organization, its project and its
/// primary key.
pub open spec fn row_key<T: Record>(row: T) -> Seq<Part> {
    seq![
        Part::Text(row.spec_common().organization_id@),
        Part::Text(row.spec_common().project_id@),
    ] + row.spec_key()
}

/// Where a row goes: by what tells it from others, the latest version first.
pub open spec fn sort_key<T: Record>(row: T) -> Seq<Part> {
    match T::spec_version_column() {
        Some(_) => row_key(row).push(Part::Descending(row.spec_version())),
        None => row_key(row),
    }
}

/// Whether rows are in the order they are stored in.
pub open spec fn rows_sorted<T: Record>(rows: Seq<&T>) -> bool {
    forall|i: int, j: int|
        0 <= i < j < rows.len() ==> key_le(
            sort_key(*#[trigger] rows[i]),
            sort_key(*#[trigger] rows[j]),
        )
}

/// The rows themselves, as references to them.
pub open spec fn refs<'a, T>(rows: Seq<T>) -> Seq<&'a T> {
    rows.map_values(|row: T| &row)
}

/// References to all of some rows.
fn all_refs<'a, T>(rows: &'a [T]) -> (all: Vec<&'a T>)
    ensures
        all@ == refs(rows@),
{
    let mut all: Vec<&'a T> = Vec::new();
    let mut i: usize = 0;
    while i < rows.len()
        invariant
            i <= rows.len(),
            all@ == refs(rows@).take(i as int),
        decreases rows.len() - i,
    {
        all.push(&rows[i]);
        i = i + 1;
        assert(all@ =~= refs(rows@).take(i as int));
    }
    assert(all@ =~= refs(rows@));
    all
}

/// The names that tell a row from every other, common first.
pub open spec fn all_primary_key_names<T: Record>() -> Seq<Seq<char>> {
    seq!["organization_id"@, "project_id"@] + T::spec_primary_key()
}

/// The columns rows are sorted by, and whether each ascends.
pub open spec fn sort_order_names<T: Record>() -> Seq<(Seq<char>, bool)> {
    let ascending = all_primary_key_names::<T>().map_values(|name: Seq<char>| (name, true));
    match T::spec_version_column() {
        Some(version) => ascending.push((version, false)),
        None => ascending,
    }
}

pub open spec fn sort_order_views(order: Seq<(&str, bool)>) -> Seq<(Seq<char>, bool)> {
    order.map_values(|column: (&str, bool)| (column.0@, column.1))
}

/// How the partition holding an instant is spelled.
pub open spec fn partition_text(at: int, granularity: Granularity) -> Seq<char> {
    rfc3339_text(partition_floor(at, granularity) / nanos_per_second())
}

/// The directory the rows received at an instant are under: the table's, and
/// in it their partition's.
pub open spec fn directory_text<T: Record>(at: int) -> Seq<char> {
    T::spec_table() + "/"@ + PARTITION_COLUMN@ + "="@ + partition_text(at, T::spec_granularity())
}

fn organization_id_of<T: Record>(row: &T) -> (id: &String)
    ensures
        *id == row.spec_common().organization_id,
{
    &row.common().organization_id
}

fn project_id_of<T: Record>(row: &T) -> (id: &String)
    ensures
        *id == row.spec_common().project_id,
{
    &row.common().project_id
}

fn arrival_of<T: Record>(row: &T) -> (at: &Timestamp)
    ensures
        *at == row.spec_common().received_at,
{
    &row.common().received_at
}

/// What the store does with any record.
pub trait Table: Record {
    /// Every column of the record, common first.
    fn all_columns() -> (columns: Columns)
        ensures
            columns@ == all_column_views::<Self>(),
    {
        let mut columns: Vec<Column> = Vec::new();
        columns.push(Column::new::<String>("organization_id"));
        columns.push(Column::new::<String>("project_id"));
        columns.push(Column::new::<Timestamp>("received_at"));
        let ghost common = columns@;
        let mut own = Self::columns();
        let ghost declared = own@;
        columns.append(&mut own);
        proof {
            Self::columns_are_distinct();
            assert(column_views(common) =~= common_columns());
            assert(column_views(columns@) =~= column_views(common) + column_views(declared));
        }
        match Columns::new(columns) {
            Ok(columns) => columns,
            Err(_) => vstd::pervasive::unreached(),
        }
    }

    /// The schema of every batch of the record's rows.
    fn schema() -> (schema: Schema)
        ensures
            schema_fields(schema) == Some(all_column_views::<Self>()),
    {
        Self::all_columns().arrow_schema()
    }

    /// Whether one batch can hold some rows.
    fn can_batch(rows: &Vec<&Self>) -> (fits: bool)
        ensures
            fits == rows_fit(rows@),
    {
        let columns = Self::all_columns();
        let mut column: usize = 0;
        while column < columns.len()
            invariant
                column <= columns@.len(),
                columns@ == all_column_views::<Self>(),
                forall|k: int| 0 <= k < column ==> #[trigger] column_fits(rows@, k),
            decreases columns@.len() - column,
        {
            let fits = if column == 0 {
                String::can_build(
                    &project(
                        rows,
                        organization_id_of,
                        Ghost(|row: Self| row.spec_common().organization_id),
                    ),
                )
            } else if column == 1 {
                String::can_build(
                    &project(
                        rows,
                        project_id_of,
                        Ghost(|row: Self| row.spec_common().project_id),
                    ),
                )
            } else if column == 2 {
                Timestamp::can_build(
                    &project(
                        rows,
                        arrival_of,
                        Ghost(|row: Self| row.spec_common().received_at),
                    ),
                )
            } else {
                Self::can_build(rows, column - 3)
            };
            assert(fits == column_fits(rows@, column as int));
            if !fits {
                return false;
            }
            column = column + 1;
        }
        true
    }

    /// One column of some rows.
    fn column(rows: &Vec<&Self>, column: usize) -> (array: Array)
        requires
            column < all_column_views::<Self>().len(),
            column_fits(rows@, column as int),
        ensures
            array.values() == column_of(rows@, column as int),
            array.values().len() == rows@.len(),
            array.data_type() == all_column_views::<Self>()[column as int].data_type,
            !all_column_views::<Self>()[column as int].nullable ==> !array.values().has_null(),
    {
        if column == 0 {
            String::build_array(
                &project(
                    rows,
                    organization_id_of,
                    Ghost(|row: Self| row.spec_common().organization_id),
                ),
            )
        } else if column == 1 {
            String::build_array(
                &project(rows, project_id_of, Ghost(|row: Self| row.spec_common().project_id)),
            )
        } else if column == 2 {
            Timestamp::build_array(
                &project(rows, arrival_of, Ghost(|row: Self| row.spec_common().received_at)),
            )
        } else {
            Self::build(rows, column - 3)
        }
    }

    /// Some rows as one batch, in the order given.
    fn batch(rows: &Vec<&Self>) -> (batch: Result<RecordBatch, ArrowError>)
        requires
            rows_fit(rows@),
        ensures
            batch is Ok,
            batch matches Ok(batch) ==> {
                &&& batch_fields(batch) == Some(all_column_views::<Self>())
                &&& batch_columns(batch) == batch_of(rows@)
                &&& batch_rows(batch) == rows@.len()
                &&& widths_are_some(all_column_views::<Self>()) ==> !stops_encoder(
                    all_column_views::<Self>(),
                    batch,
                )
                &&& zones_are_utc(all_column_views::<Self>()) ==> !stops_json(batch)
            },
    {
        let columns = Self::all_columns();
        let mut arrays: Vec<Array> = Vec::new();
        let mut column: usize = 0;
        while column < columns.len()
            invariant
                column <= columns@.len(),
                columns@ == all_column_views::<Self>(),
                rows_fit(rows@),
                arrays@.len() == column,
                forall|k: int|
                    0 <= k < column ==> {
                        &&& (#[trigger] arrays@[k]).values() == column_of(rows@, k)
                        &&& arrays@[k].values().len() == rows@.len()
                        &&& arrays@[k].data_type() == columns@[k].data_type
                        &&& !columns@[k].nullable ==> !arrays@[k].values().has_null()
                    },
            decreases columns@.len() - column,
        {
            arrays.push(Self::column(rows, column));
            column = column + 1;
        }
        assert(array_values(arrays@) =~= batch_of(rows@));
        new_batch(columns.arrow_schema(), arrays)
    }

    /// Some rows as one batch, in the order given.
    fn to_record_batch(rows: &[Self]) -> (batch: Result<RecordBatch, ArrowError>)
        requires
            rows_fit(refs(rows@)),
        ensures
            batch is Ok,
            batch matches Ok(batch) ==> {
                &&& batch_fields(batch) == Some(all_column_views::<Self>())
                &&& batch_columns(batch) == batch_of(refs(rows@))
                &&& batch_rows(batch) == rows@.len()
                &&& widths_are_some(all_column_views::<Self>()) ==> !stops_encoder(
                    all_column_views::<Self>(),
                    batch,
                )
                &&& zones_are_utc(all_column_views::<Self>()) ==> !stops_json(batch)
            },
    {
        Self::batch(&all_refs(rows))
    }

    /// Every column that tells a row from others, common first.
    fn all_primary_key() -> (names: Vec<&'static str>)
        ensures
            str_views(names@) == all_primary_key_names::<Self>(),
    {
        let mut names: Vec<&'static str> = Vec::new();
        names.push("organization_id");
        names.push("project_id");
        let ghost common = names@;
        let mut own = Self::primary_key();
        let ghost key = own@;
        names.append(&mut own);
        proof {
            assert(str_views(names@) =~= str_views(common)
                + str_views(key));
            assert(str_views(common) =~= seq!["organization_id"@, "project_id"@]);
        }
        names
    }

    /// The columns rows are stored in the order of, and whether each ascends:
    /// the primary key, and the latest version of a row first.
    fn sort_order() -> (order: Vec<(&'static str, bool)>)
        ensures
            sort_order_views(order@) == sort_order_names::<Self>(),
    {
        let names = Self::all_primary_key();
        let ghost ascending = all_primary_key_names::<Self>().map_values(
            |name: Seq<char>| (name, true),
        );
        let mut order: Vec<(&'static str, bool)> = Vec::new();
        let mut i: usize = 0;
        while i < names.len()
            invariant
                i <= names.len(),
                str_views(names@) == all_primary_key_names::<Self>(),
                ascending == all_primary_key_names::<Self>().map_values(
                    |name: Seq<char>| (name, true),
                ),
                sort_order_views(order@) == ascending.take(i as int),
            decreases names.len() - i,
        {
            let ghost before = order@;
            assert(str_views(names@)[i as int] == names@[i as int]@);
            order.push((names[i], true));
            i = i + 1;
            assert(sort_order_views(order@) =~= sort_order_views(before).push(ascending[i - 1]));
            assert(sort_order_views(order@) =~= ascending.take(i as int));
        }
        assert(names@.len() == str_views(names@).len());
        assert(ascending.take(i as int) =~= ascending);
        let ghost before = order@;
        match Self::merge() {
            Some(MergeStrategy::Latest { version }) => {
                order.push((version, false));
                assert(sort_order_views(order@) =~= sort_order_views(before).push(
                    (version@, false),
                ));
            },
            None => {},
        }
        order
    }

    /// What tells this row from every other.
    fn row_key(&self) -> (key: Vec<KeyPart>)
        ensures
            key_view(key@) == row_key(*self),
    {
        let mut key: Vec<KeyPart> = Vec::new();
        key.push(KeyPart::Text(self.common().organization_id.clone()));
        key.push(KeyPart::Text(self.common().project_id.clone()));
        let ghost common = key@;
        let mut own = self.key();
        let ghost parts = own@;
        key.append(&mut own);
        proof {
            assert(key_view(key@) =~= key_view(common)
                + key_view(parts));
            assert(key_view(common) =~= seq![
                Part::Text(self.spec_common().organization_id@),
                Part::Text(self.spec_common().project_id@),
            ]);
        }
        key
    }

    /// Where this row goes among others.
    fn sort_key(&self) -> (key: Vec<KeyPart>)
        ensures
            key_view(key@) == sort_key(*self),
    {
        let mut key = Table::row_key(self);
        let ghost before = key@;
        if Self::merge().is_some() {
            key.push(KeyPart::Descending(self.version()));
            assert(key_view(key@) =~= key_view(before).push(
                Part::Descending(self.spec_version()),
            ));
        }
        key
    }

    /// The rows in the order they are stored in.
    fn sorted(rows: &[Self]) -> (sorted: Vec<&Self>)
        ensures
            sorted@.to_multiset() == refs(rows@).to_multiset(),
            rows_sorted(sorted@),
    {
        let all = all_refs(rows);
        let mut keys: Vec<Vec<KeyPart>> = Vec::new();
        let mut i: usize = 0;
        while i < rows.len()
            invariant
                i <= rows.len(),
                keys@.len() == i,
                forall|k: int|
                    0 <= k < i ==> key_view((#[trigger] keys@[k])@) == sort_key(
                        rows@[k],
                    ),
            decreases rows.len() - i,
        {
            keys.push(Table::sort_key(&rows[i]));
            i = i + 1;
        }
        let positions = sort_positions(&keys, &all);
        let mut sorted: Vec<&Self> = Vec::new();
        let mut n: usize = 0;
        while n < positions.len()
            invariant
                n <= positions.len(),
                all@ == refs(rows@),
                in_bounds(positions@, all@.len()),
                sorted@ == picked(all@, positions@).take(n as int),
            decreases positions.len() - n,
        {
            sorted.push(all[positions[n]]);
            n = n + 1;
            assert(sorted@ =~= picked(all@, positions@).take(n as int));
        }
        assert(sorted@ =~= picked(all@, positions@));
        proof {
            let views = key_views(keys@);
            assert forall|i: int, j: int| 0 <= i < j < sorted@.len() implies key_le(
                sort_key(*#[trigger] sorted@[i]),
                sort_key(*#[trigger] sorted@[j]),
            ) by {
                let a = positions@[i] as int;
                let b = positions@[j] as int;
                assert(key_le(views[a], views[b]));
                assert(views[a] == key_view(keys@[a]@));
                assert(views[b] == key_view(keys@[b]@));
            }
        }
        sorted
    }

    /// The directory the rows received at an instant are under.
    fn directory(at: Timestamp) -> (directory: String)
        ensures
            directory@ == directory_text::<Self>(at@),
    {
        let start = at.partition_start(Self::granularity());
        let mut directory = String::from_str(Self::table());
        directory.append("/");
        directory.append(PARTITION_COLUMN);
        directory.append("=");
        directory.append(rfc3339(start.seconds()).as_str());
        directory
    }
}

impl<T: Record> Table for T {

}

} // verus!
