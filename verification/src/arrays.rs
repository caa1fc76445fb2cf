//! Columns of values as Arrow holds them.
//!
//! An array is a collection of the `arrow` crate. What one holds is named here,
//! and each operation says what it does to that.

use arrow::array::{
    FixedSizeBinaryArray, FixedSizeBinaryBuilder, MapArray, MapBuilder, StringArray,
    StringBuilder, TimestampMicrosecondArray,
};
use arrow::error::ArrowError;
use vstd::prelude::*;
use vstd::utf8::encode_utf8;

use crate::text::{option_view, str_view};
use crate::types::{
    keys_ascend, lemma_last_values_keys, lemma_last_values_of_ascending,
    same_tags_encode_identically, Entry, Id, Tags, Timestamp,
};

verus! {

#[verifier::external_type_specification]
#[verifier::external_body]
pub struct ExArrowError(arrow::error::ArrowError);

#[verifier::external_type_specification]
#[verifier::external_body]
pub struct ExFixedSizeBinaryArray(arrow::array::FixedSizeBinaryArray);

#[verifier::external_type_specification]
#[verifier::external_body]
pub struct ExFixedSizeBinaryBuilder(arrow::array::FixedSizeBinaryBuilder);

#[verifier::external_type_specification]
#[verifier::external_body]
pub struct ExMapArray(arrow::array::MapArray);

/// An `arrow::array::StringArray`.
#[verifier::external_body]
pub struct TextArray {
    pub inner: StringArray,
}

/// An `arrow::array::TimestampMicrosecondArray`.
#[verifier::external_body]
pub struct TimestampArray {
    pub inner: TimestampMicrosecondArray,
}

/// An `arrow::array::MapBuilder` from text to text.
#[verifier::external_body]
pub struct TextMapBuilder {
    inner: MapBuilder<StringBuilder, StringBuilder>,
}

/// The most bytes of text, and the most entries, an Arrow array can hold: its
/// offsets are 32-bit.
pub const MAX_OFFSET: usize = 0x7fff_ffff;

/// How many bytes some texts take together, in UTF-8. An absent one takes none.
pub open spec fn text_bytes(values: Seq<Option<Seq<char>>>) -> nat
    decreases values.len(),
{
    if values.len() == 0 {
        0
    } else {
        text_bytes(values.drop_last()) + match values.last() {
            Some(text) => encode_utf8(text).len(),
            None => 0,
        }
    }
}

pub open spec fn str_option_views(values: Seq<Option<&str>>) -> Seq<Option<Seq<char>>> {
    values.map_values(|value: Option<&str>| str_view(value))
}

/// What a text array holds.
pub uninterp spec fn texts(array: TextArray) -> Seq<Option<Seq<char>>>;

/// `StringArray::from_iter`: the values given, in order. It panics where their
/// bytes pass what 32-bit offsets reach.
#[verifier::external_body]
pub(crate) fn text_array(values: &Vec<Option<&str>>) -> (array: TextArray)
    requires
        text_bytes(str_option_views(values@)) <= MAX_OFFSET,
    ensures
        texts(array) == str_option_views(values@),
{
    TextArray { inner: StringArray::from_iter(values.iter().copied()) }
}

/// What a timestamp array holds, in microseconds since the epoch.
pub uninterp spec fn micros(array: TimestampArray) -> Seq<Option<i64>>;

/// The timezone a timestamp array is declared in.
pub uninterp spec fn timezone(array: TimestampArray) -> Option<Seq<char>>;

/// `TimestampMicrosecondArray::from_iter`: the values given, in order, in no
/// timezone.
#[verifier::external_body]
fn timestamp_array(values: &Vec<Option<i64>>) -> (array: TimestampArray)
    ensures
        micros(array) == values@,
        timezone(array) == None::<Seq<char>>,
{
    TimestampArray { inner: TimestampMicrosecondArray::from_iter(values.iter().copied()) }
}

/// `TimestampMicrosecondArray::with_timezone`: the same values, in `zone`.
#[verifier::external_body]
fn with_timezone(array: TimestampArray, zone: &str) -> (zoned: TimestampArray)
    ensures
        micros(zoned) == micros(array),
        timezone(zoned) == Some(zone@),
{
    TimestampArray { inner: array.inner.with_timezone(zone) }
}

/// What an array of fixed-width values holds.
pub uninterp spec fn fixed_values(array: FixedSizeBinaryArray) -> Seq<Option<Seq<u8>>>;

/// How many bytes each value of the array takes.
pub uninterp spec fn fixed_width(array: FixedSizeBinaryArray) -> int;

/// What a builder of fixed-width values has been given so far.
pub uninterp spec fn pending_fixed_values(builder: FixedSizeBinaryBuilder) -> Seq<
    Option<Seq<u8>>,
>;

/// How many bytes each value of the builder takes.
pub uninterp spec fn pending_fixed_width(builder: FixedSizeBinaryBuilder) -> int;

/// `FixedSizeBinaryBuilder::new`: nothing yet, in values of `width` bytes. It
/// panics on a negative width, and reserves room for 1024 values.
#[verifier::external_body]
fn fixed_builder(width: i32) -> (builder: FixedSizeBinaryBuilder)
    requires
        0 <= width,
        width * 1024 <= isize::MAX,
    ensures
        pending_fixed_values(builder) == Seq::<Option<Seq<u8>>>::empty(),
        pending_fixed_width(builder) == width,
{
    FixedSizeBinaryBuilder::new(width)
}

/// `FixedSizeBinaryBuilder::append_value`: one more value, where it is as wide
/// as the builder's are; an error that changes nothing otherwise.
#[verifier::external_body]
fn append_fixed(builder: &mut FixedSizeBinaryBuilder, value: &[u8]) -> (result: Result<
    (),
    ArrowError,
>)
    requires
        value@.len() <= i32::MAX,
    ensures
        result is Ok <==> value@.len() == pending_fixed_width(*old(builder)),
        pending_fixed_width(*final(builder)) == pending_fixed_width(*old(builder)),
        pending_fixed_values(*final(builder)) == if result is Ok {
            pending_fixed_values(*old(builder)).push(Some(value@))
        } else {
            pending_fixed_values(*old(builder))
        },
{
    builder.append_value(value)
}

/// `FixedSizeBinaryBuilder::append_null`: one more value, absent.
#[verifier::external_body]
fn append_fixed_null(builder: &mut FixedSizeBinaryBuilder)
    ensures
        pending_fixed_width(*final(builder)) == pending_fixed_width(*old(builder)),
        pending_fixed_values(*final(builder)) == pending_fixed_values(*old(builder)).push(None),
{
    builder.append_null()
}

/// `FixedSizeBinaryBuilder::finish`: an array of what the builder was given,
/// which is then empty again.
#[verifier::external_body]
fn finish_fixed(builder: &mut FixedSizeBinaryBuilder) -> (array: FixedSizeBinaryArray)
    ensures
        fixed_values(array) == pending_fixed_values(*old(builder)),
        fixed_width(array) == pending_fixed_width(*old(builder)),
        pending_fixed_values(*final(builder)) == Seq::<Option<Seq<u8>>>::empty(),
        pending_fixed_width(*final(builder)) == pending_fixed_width(*old(builder)),
{
    builder.finish()
}

/// The keys of every entry in a map array, in order.
pub uninterp spec fn map_keys(array: MapArray) -> Seq<Seq<char>>;

/// The values of every entry in a map array, in order.
pub uninterp spec fn map_values(array: MapArray) -> Seq<Option<Seq<char>>>;

/// For each row of a map array, how many entries it and the rows before it
/// have.
pub uninterp spec fn map_ends(array: MapArray) -> Seq<int>;

/// For each row of a map array, whether it is a map rather than null.
pub uninterp spec fn map_validity(array: MapArray) -> Seq<bool>;

/// The names a map array's type gives its entries, their keys and their values.
pub uninterp spec fn map_names(array: MapArray) -> (Seq<char>, Seq<char>, Seq<char>);

/// The keys a map builder has been given so far.
pub uninterp spec fn pending_keys(builder: TextMapBuilder) -> Seq<Seq<char>>;

/// The values a map builder has been given so far.
pub uninterp spec fn pending_values(builder: TextMapBuilder) -> Seq<Option<Seq<char>>>;

/// For each finished row of a map builder, how many entries there were then.
pub uninterp spec fn pending_ends(builder: TextMapBuilder) -> Seq<int>;

/// For each finished row of a map builder, whether it is a map.
pub uninterp spec fn pending_validity(builder: TextMapBuilder) -> Seq<bool>;

/// The names a map builder gives its entries, their keys and their values.
pub uninterp spec fn pending_names(builder: TextMapBuilder) -> (Seq<char>, Seq<char>, Seq<char>);

/// The names of the fields nested in a map's type.
#[derive(Debug, PartialEq, Eq)]
pub struct MapFieldNames {
    pub entry: String,
    pub key: String,
    pub value: String,
}

impl View for MapFieldNames {
    type V = (Seq<char>, Seq<char>, Seq<char>);

    open spec fn view(&self) -> (Seq<char>, Seq<char>, Seq<char>) {
        (self.entry@, self.key@, self.value@)
    }
}

/// `MapBuilder::new` over two empty `StringBuilder`s: nothing yet, under the
/// names given.
#[verifier::external_body]
fn map_builder(names: MapFieldNames) -> (builder: TextMapBuilder)
    ensures
        pending_keys(builder) == Seq::<Seq<char>>::empty(),
        pending_values(builder) == Seq::<Option<Seq<char>>>::empty(),
        pending_ends(builder) == Seq::<int>::empty(),
        pending_validity(builder) == Seq::<bool>::empty(),
        pending_names(builder) == names@,
{
    let MapFieldNames { entry, key, value } = names;
    let names = arrow::array::MapFieldNames { entry, key, value };
    let inner = MapBuilder::new(Some(names), StringBuilder::new(), StringBuilder::new());
    TextMapBuilder { inner }
}

/// `StringBuilder::append_value` on a map builder's keys: one more key. It
/// panics where the keys' bytes pass what 32-bit offsets reach.
#[verifier::external_body]
fn append_key(builder: &mut TextMapBuilder, key: &str)
    requires
        text_bytes(present(pending_keys(*old(builder)).push(key@))) <= MAX_OFFSET,
    ensures
        pending_keys(*final(builder)) == pending_keys(*old(builder)).push(key@),
        pending_values(*final(builder)) == pending_values(*old(builder)),
        pending_ends(*final(builder)) == pending_ends(*old(builder)),
        pending_validity(*final(builder)) == pending_validity(*old(builder)),
        pending_names(*final(builder)) == pending_names(*old(builder)),
{
    builder.inner.keys().append_value(key)
}

/// `StringBuilder::append_option` on a map builder's values: one more value.
/// It panics where the values' bytes pass what 32-bit offsets reach.
#[verifier::external_body]
fn append_value(builder: &mut TextMapBuilder, value: Option<&str>)
    requires
        text_bytes(pending_values(*old(builder)).push(str_view(value))) <= MAX_OFFSET,
    ensures
        pending_keys(*final(builder)) == pending_keys(*old(builder)),
        pending_values(*final(builder)) == pending_values(*old(builder)).push(str_view(value)),
        pending_ends(*final(builder)) == pending_ends(*old(builder)),
        pending_validity(*final(builder)) == pending_validity(*old(builder)),
        pending_names(*final(builder)) == pending_names(*old(builder)),
{
    builder.inner.values().append_option(value)
}

/// `MapBuilder::append`: ends a row, where as many values as keys were given;
/// an error that changes nothing otherwise. The end is kept in 32 bits.
#[verifier::external_body]
fn append_row(builder: &mut TextMapBuilder, is_valid: bool) -> (result: Result<(), ArrowError>)
    requires
        pending_keys(*old(builder)).len() <= MAX_OFFSET,
    ensures
        result is Ok <==> pending_keys(*old(builder)).len() == pending_values(
            *old(builder),
        ).len(),
        pending_keys(*final(builder)) == pending_keys(*old(builder)),
        pending_values(*final(builder)) == pending_values(*old(builder)),
        pending_ends(*final(builder)) == if result is Ok {
            pending_ends(*old(builder)).push(pending_keys(*old(builder)).len() as int)
        } else {
            pending_ends(*old(builder))
        },
        pending_validity(*final(builder)) == if result is Ok {
            pending_validity(*old(builder)).push(is_valid)
        } else {
            pending_validity(*old(builder))
        },
        pending_names(*final(builder)) == pending_names(*old(builder)),
{
    builder.inner.append(is_valid)
}

/// `MapBuilder::finish`: an array of the rows given. It panics where keys and
/// values are not in pairs.
#[verifier::external_body]
fn finish_map(builder: TextMapBuilder) -> (array: MapArray)
    requires
        pending_keys(builder).len() == pending_values(builder).len(),
    ensures
        map_keys(array) == pending_keys(builder),
        map_values(array) == pending_values(builder),
        map_ends(array) == pending_ends(builder),
        map_validity(array) == pending_validity(builder),
        map_names(array) == pending_names(builder),
{
    let mut builder = builder;
    builder.inner.finish()
}

/// Texts that are all there.
pub open spec fn present(texts: Seq<Seq<char>>) -> Seq<Option<Seq<char>>> {
    texts.map_values(|text: Seq<char>| Some(text))
}

/// The type of a column.
#[derive(Debug, PartialEq, Eq)]
pub enum DataType {
    Utf8,
    /// Values of so many bytes each.
    FixedSizeBinary(i32),
    /// Instants counted in microseconds, in a timezone.
    TimestampMicros(Option<String>),
    /// Maps from text to text that may be absent, with the names of the fields
    /// nested in them.
    TextMap(MapFieldNames),
}

/// A column's type, as plain values.
pub enum DataTypeView {
    Utf8,
    FixedSizeBinary(int),
    TimestampMicros(Option<Seq<char>>),
    TextMap((Seq<char>, Seq<char>, Seq<char>)),
}

impl View for DataType {
    type V = DataTypeView;

    open spec fn view(&self) -> DataTypeView {
        match self {
            DataType::Utf8 => DataTypeView::Utf8,
            DataType::FixedSizeBinary(width) => DataTypeView::FixedSizeBinary(*width as int),
            DataType::TimestampMicros(zone) => DataTypeView::TimestampMicros(option_view(*zone)),
            DataType::TextMap(names) => DataTypeView::TextMap(names@),
        }
    }
}

/// The values of a column, as plain values: one per row, some of them perhaps
/// null.
pub enum ColumnValues {
    Text(Seq<Option<Seq<char>>>),
    Micros(Seq<Option<int>>),
    Bytes(Seq<Option<Seq<u8>>>),
    Entries(Seq<Option<Seq<Entry>>>),
}

impl ColumnValues {
    pub open spec fn len(self) -> nat {
        match self {
            ColumnValues::Text(values) => values.len(),
            ColumnValues::Micros(values) => values.len(),
            ColumnValues::Bytes(values) => values.len(),
            ColumnValues::Entries(values) => values.len(),
        }
    }

    pub open spec fn is_null(self, row: int) -> bool {
        match self {
            ColumnValues::Text(values) => values[row] is None,
            ColumnValues::Micros(values) => values[row] is None,
            ColumnValues::Bytes(values) => values[row] is None,
            ColumnValues::Entries(values) => values[row] is None,
        }
    }

    /// Whether one column holds at `i` what another holds at `j`.
    pub open spec fn agrees_at(self, i: int, other: ColumnValues, j: int) -> bool {
        match (self, other) {
            (ColumnValues::Text(a), ColumnValues::Text(b)) => a[i] == b[j],
            (ColumnValues::Micros(a), ColumnValues::Micros(b)) => a[i] == b[j],
            (ColumnValues::Bytes(a), ColumnValues::Bytes(b)) => a[i] == b[j],
            (ColumnValues::Entries(a), ColumnValues::Entries(b)) => a[i] == b[j],
            _ => false,
        }
    }

    pub open spec fn has_null(self) -> bool {
        exists|row: int| 0 <= row < self.len() && #[trigger] self.is_null(row)
    }
}

/// A column's values as Arrow holds them.
pub enum Array {
    Text(TextArray),
    Timestamp(TimestampArray),
    Binary(FixedSizeBinaryArray),
    Entries(MapArray),
}

/// The entries of row `row`, from where the row before ends to where it does.
pub open spec fn map_row(
    keys: Seq<Seq<char>>,
    values: Seq<Option<Seq<char>>>,
    ends: Seq<int>,
    row: int,
) -> Seq<Entry> {
    let start = if row == 0 {
        0
    } else {
        ends[row - 1]
    };
    Seq::new((ends[row] - start) as nat, |i: int| (keys[start + i], values[start + i]))
}

impl Array {
    pub open spec fn data_type(self) -> DataTypeView {
        match self {
            Array::Text(_) => DataTypeView::Utf8,
            Array::Timestamp(array) => DataTypeView::TimestampMicros(timezone(array)),
            Array::Binary(array) => DataTypeView::FixedSizeBinary(fixed_width(array)),
            Array::Entries(array) => DataTypeView::TextMap(map_names(array)),
        }
    }

    pub open spec fn values(self) -> ColumnValues {
        match self {
            Array::Text(array) => ColumnValues::Text(texts(array)),
            Array::Timestamp(array) => ColumnValues::Micros(
                micros(array).map_values(
                    |value: Option<i64>|
                        match value {
                            Some(value) => Some(value as int),
                            None => None,
                        },
                ),
            ),
            Array::Binary(array) => ColumnValues::Bytes(fixed_values(array)),
            Array::Entries(array) => ColumnValues::Entries(
                Seq::new(
                    map_ends(array).len(),
                    |row: int|
                        if map_validity(array)[row] {
                            Some(map_row(map_keys(array), map_values(array), map_ends(array), row))
                        } else {
                            None
                        },
                ),
            ),
        }
    }
}

/// A field type that knows how to become an Arrow column.
pub trait ArrowField: Sized {
    /// Whether a column of this type is declared nullable.
    spec fn spec_nullable() -> bool;

    spec fn spec_data_type() -> DataTypeView;

    /// What the column of some values holds.
    spec fn column(values: Seq<Option<&Self>>) -> ColumnValues;

    /// Whether there is nothing to hold for a value.
    spec fn is_absent(value: Option<&Self>) -> bool;

    /// Whether an array can hold some values.
    spec fn fits(values: Seq<Option<&Self>>) -> bool;

    /// What a column holds at a row is decided by the value there, whatever
    /// stands in the rows around it.
    proof fn rows_stand_alone(a: Seq<Option<&Self>>, i: int, b: Seq<Option<&Self>>, j: int)
        requires
            0 <= i < a.len(),
            0 <= j < b.len(),
            a[i] == b[j],
        ensures
            Self::column(a).agrees_at(i, Self::column(b), j),
    ;

    /// There is nothing to hold where there is no value, and only there, but for
    /// a type with an absent value of its own.
    proof fn absence(value: Option<&Self>)
        ensures
            value is None ==> Self::is_absent(value),
            !Self::spec_nullable() ==> (Self::is_absent(value) <==> value is None),
    ;

    fn nullable() -> (nullable: bool)
        ensures
            nullable == Self::spec_nullable(),
    ;

    fn data_type() -> (data_type: DataType)
        ensures
            data_type@ == Self::spec_data_type(),
    ;

    fn can_build(values: &Vec<Option<&Self>>) -> (fits: bool)
        ensures
            fits == Self::fits(values@),
    ;

    /// Values arrive as `Option` whether or not the column can hold nulls, so
    /// there is one path to build on: a non-null column simply never sees a
    /// `None`.
    fn build_array(values: &Vec<Option<&Self>>) -> (array: Array)
        requires
            Self::fits(values@),
        ensures
            array.values() == Self::column(values@),
            array.data_type() == Self::spec_data_type(),
            array.values().len() == values@.len(),
            forall|i: int|
                0 <= i < values@.len() ==> (#[trigger] array.values().is_null(i)
                    <==> Self::is_absent(values@[i])),
            !Self::spec_nullable() && (forall|i: int|
                0 <= i < values@.len() ==> (#[trigger] values@[i]) is Some)
                ==> !array.values().has_null(),
    ;
}

/// What the value inside an optional value is, where there is one.
pub open spec fn flattened<T>(value: Option<&Option<T>>) -> Option<&T> {
    match value {
        Some(value) => match value {
            Some(value) => Some(value),
            None => None,
        },
        None => None,
    }
}

pub open spec fn flattened_values<T>(values: Seq<Option<&Option<T>>>) -> Seq<Option<&T>> {
    values.map_values(|value: Option<&Option<T>>| flattened(value))
}

fn flatten_values<'a, T>(values: &Vec<Option<&'a Option<T>>>) -> (inner: Vec<Option<&'a T>>)
    ensures
        inner@ == flattened_values(values@),
{
    let mut inner: Vec<Option<&'a T>> = Vec::new();
    let mut i: usize = 0;
    while i < values.len()
        invariant
            i <= values.len(),
            inner@ == flattened_values(values@).take(i as int),
        decreases values.len() - i,
    {
        let value = match values[i] {
            Some(value) => value.as_ref(),
            None => None,
        };
        inner.push(value);
        i = i + 1;
        assert(inner@ =~= flattened_values(values@).take(i as int));
    }
    assert(inner@ =~= flattened_values(values@));
    inner
}

/// An absent value is the same Arrow type as a present one, only nullable.
impl<T: ArrowField> ArrowField for Option<T> {
    open spec fn spec_nullable() -> bool {
        true
    }

    open spec fn spec_data_type() -> DataTypeView {
        T::spec_data_type()
    }

    open spec fn column(values: Seq<Option<&Self>>) -> ColumnValues {
        T::column(flattened_values(values))
    }

    open spec fn is_absent(value: Option<&Self>) -> bool {
        T::is_absent(flattened(value))
    }

    open spec fn fits(values: Seq<Option<&Self>>) -> bool {
        T::fits(flattened_values(values))
    }

    proof fn rows_stand_alone(a: Seq<Option<&Self>>, i: int, b: Seq<Option<&Self>>, j: int) {
        T::rows_stand_alone(flattened_values(a), i, flattened_values(b), j);
    }

    proof fn absence(value: Option<&Self>) {
        T::absence(flattened(value));
    }

    fn nullable() -> (nullable: bool) {
        true
    }

    fn data_type() -> (data_type: DataType) {
        T::data_type()
    }

    fn can_build(values: &Vec<Option<&Self>>) -> (fits: bool) {
        T::can_build(&flatten_values(values))
    }

    fn build_array(values: &Vec<Option<&Self>>) -> (array: Array) {
        T::build_array(&flatten_values(values))
    }
}

/// The values in a column of optional ones, each there or not.
pub open spec fn inner_values<'a, T>(values: Seq<&'a Option<T>>) -> Seq<Option<&'a T>> {
    values.map_values(|value: &'a Option<T>| flattened(Some(value)))
}

/// Values that are all there.
pub open spec fn all_some<'a, T>(values: Seq<&'a T>) -> Seq<Option<&'a T>> {
    values.map_values(|value: &'a T| Some(value))
}

/// A column of optional values is the column of those values, with a null for
/// each that is not there and for no other.
pub proof fn none_becomes_null<T: ArrowField>(values: Seq<&Option<T>>)
    ensures
        Option::<T>::spec_data_type() == T::spec_data_type(),
        Option::<T>::column(all_some(values)) == T::column(inner_values(values)),
        forall|i: int|
            0 <= i < values.len() && (#[trigger] values[i]) is None ==> Option::<T>::is_absent(
                all_some(values)[i],
            ),
        !T::spec_nullable() ==> forall|i: int|
            0 <= i < values.len() ==> (Option::<T>::is_absent(all_some(values)[i])
                <==> (#[trigger] values[i]) is None),
{
    assert(flattened_values(all_some(values)) =~= inner_values(values));
    assert forall|i: int| 0 <= i < values.len() implies {
        &&& (#[trigger] values[i]) is None ==> Option::<T>::is_absent(all_some(values)[i])
        &&& !T::spec_nullable() ==> (Option::<T>::is_absent(all_some(values)[i])
            <==> values[i] is None)
    } by {
        T::absence(flattened(all_some(values)[i]));
    }
}

pub open spec fn text_column(values: Seq<Option<&String>>) -> Seq<Option<Seq<char>>> {
    values.map_values(
        |value: Option<&String>|
            match value {
                Some(text) => Some(text@),
                None => None,
            },
    )
}

/// The texts as the array takes them.
fn as_strs<'a>(values: &Vec<Option<&'a String>>) -> (texts: Vec<Option<&'a str>>)
    ensures
        str_option_views(texts@) == text_column(values@),
{
    let mut texts: Vec<Option<&'a str>> = Vec::new();
    let mut i: usize = 0;
    while i < values.len()
        invariant
            i <= values.len(),
            str_option_views(texts@) == text_column(values@).take(i as int),
        decreases values.len() - i,
    {
        let value = match values[i] {
            Some(text) => Some(text.as_str()),
            None => None,
        };
        let ghost before = texts@;
        texts.push(value);
        i = i + 1;
        assert(str_option_views(texts@) =~= str_option_views(before).push(str_view(value)));
        assert(str_option_views(texts@) =~= text_column(values@).take(i as int));
    }
    assert(str_option_views(texts@) =~= text_column(values@));
    texts
}

/// Whether some texts stay within what an array's offsets reach.
pub(crate) fn texts_fit(texts: &Vec<Option<&str>>) -> (fits: bool)
    ensures
        fits == (text_bytes(str_option_views(texts@)) <= MAX_OFFSET),
{
    let ghost views = str_option_views(texts@);
    let mut total: usize = 0;
    let mut i: usize = 0;
    assert(views.take(0) =~= Seq::<Option<Seq<char>>>::empty());
    while i < texts.len()
        invariant
            i <= texts.len(),
            views == str_option_views(texts@),
            total == text_bytes(views.take(i as int)),
            total <= MAX_OFFSET,
        decreases texts.len() - i,
    {
        assert(views.take(i + 1).drop_last() =~= views.take(i as int));
        let bytes: usize = match texts[i] {
            Some(text) => text.as_bytes().len(),
            None => 0,
        };
        if bytes > MAX_OFFSET - total {
            proof {
                lemma_text_bytes_grow(views, i + 1, texts@.len() as int);
                assert(views.take(texts@.len() as int) =~= views);
            }
            return false;
        }
        total = total + bytes;
        i = i + 1;
    }
    assert(views.take(texts@.len() as int) =~= views);
    true
}

proof fn lemma_text_bytes_grow(values: Seq<Option<Seq<char>>>, i: int, j: int)
    requires
        0 <= i <= j <= values.len(),
    ensures
        text_bytes(values.take(i)) <= text_bytes(values.take(j)),
    decreases j - i,
{
    if i < j {
        lemma_text_bytes_grow(values, i, j - 1);
        assert(values.take(j).drop_last() =~= values.take(j - 1));
    }
}

/// Tenancy ids and free text are stored as strings. The store carries no
/// knowledge of how they are minted or their format.
impl ArrowField for String {
    open spec fn spec_nullable() -> bool {
        false
    }

    open spec fn spec_data_type() -> DataTypeView {
        DataTypeView::Utf8
    }

    open spec fn column(values: Seq<Option<&Self>>) -> ColumnValues {
        ColumnValues::Text(text_column(values))
    }

    open spec fn is_absent(value: Option<&Self>) -> bool {
        value is None
    }

    open spec fn fits(values: Seq<Option<&Self>>) -> bool {
        text_bytes(text_column(values)) <= MAX_OFFSET
    }

    proof fn rows_stand_alone(a: Seq<Option<&Self>>, i: int, b: Seq<Option<&Self>>, j: int) {
    }

    proof fn absence(value: Option<&Self>) {
    }

    fn nullable() -> (nullable: bool) {
        false
    }

    fn data_type() -> (data_type: DataType) {
        DataType::Utf8
    }

    fn can_build(values: &Vec<Option<&Self>>) -> (fits: bool) {
        texts_fit(&as_strs(values))
    }

    fn build_array(values: &Vec<Option<&Self>>) -> (array: Array) {
        Array::Text(text_array(&as_strs(values)))
    }
}

/// The type of every timestamp column: microseconds, in UTC.
pub fn utc_timestamp() -> (data_type: DataType)
    ensures
        data_type@ == DataTypeView::TimestampMicros(Some("UTC"@)),
{
    DataType::TimestampMicros(Some(String::from_str("UTC")))
}

pub open spec fn micros_column(values: Seq<Option<&Timestamp>>) -> Seq<Option<int>> {
    values.map_values(
        |value: Option<&Timestamp>|
            match value {
                Some(at) => Some(at@ / 1000),
                None => None,
            },
    )
}

impl ArrowField for Timestamp {
    open spec fn spec_nullable() -> bool {
        false
    }

    open spec fn spec_data_type() -> DataTypeView {
        DataTypeView::TimestampMicros(Some("UTC"@))
    }

    open spec fn column(values: Seq<Option<&Self>>) -> ColumnValues {
        ColumnValues::Micros(micros_column(values))
    }

    open spec fn is_absent(value: Option<&Self>) -> bool {
        value is None
    }

    open spec fn fits(values: Seq<Option<&Self>>) -> bool {
        true
    }

    proof fn rows_stand_alone(a: Seq<Option<&Self>>, i: int, b: Seq<Option<&Self>>, j: int) {
    }

    proof fn absence(value: Option<&Self>) {
    }

    fn nullable() -> (nullable: bool) {
        false
    }

    fn data_type() -> (data_type: DataType) {
        utc_timestamp()
    }

    fn can_build(values: &Vec<Option<&Self>>) -> (fits: bool) {
        true
    }

    fn build_array(values: &Vec<Option<&Self>>) -> (array: Array) {
        let mut counts: Vec<Option<i64>> = Vec::new();
        let mut i: usize = 0;
        while i < values.len()
            invariant
                i <= values.len(),
                counts@.len() == i,
                forall|k: int|
                    0 <= k < i ==> micros_column(values@)[k] == match #[trigger] counts@[k] {
                        Some(count) => Some(count as int),
                        None => None,
                    },
            decreases values.len() - i,
        {
            let count: Option<i64> = match values[i] {
                Some(at) => Some(at.micros()),
                None => None,
            };
            counts.push(count);
            i = i + 1;
        }
        let array = Array::Timestamp(with_timezone(timestamp_array(&counts), "UTC"));
        assert(array.values()->Micros_0 =~= micros_column(values@));
        array
    }
}

pub open spec fn id_column<const N: usize>(values: Seq<Option<&Id<N>>>) -> Seq<Option<Seq<u8>>> {
    values.map_values(
        |value: Option<&Id<N>>|
            match value {
                Some(id) => Some(id@),
                None => None,
            },
    )
}

impl<const N: usize> ArrowField for Id<N> {
    open spec fn spec_nullable() -> bool {
        false
    }

    open spec fn spec_data_type() -> DataTypeView {
        DataTypeView::FixedSizeBinary(N as i32 as int)
    }

    open spec fn column(values: Seq<Option<&Self>>) -> ColumnValues {
        ColumnValues::Bytes(id_column(values))
    }

    open spec fn is_absent(value: Option<&Self>) -> bool {
        value is None
    }

    open spec fn fits(values: Seq<Option<&Self>>) -> bool {
        N <= i32::MAX && N * 1024 <= isize::MAX
    }

    proof fn rows_stand_alone(a: Seq<Option<&Self>>, i: int, b: Seq<Option<&Self>>, j: int) {
    }

    proof fn absence(value: Option<&Self>) {
    }

    fn nullable() -> (nullable: bool) {
        false
    }

    fn data_type() -> (data_type: DataType) {
        DataType::FixedSizeBinary(N as i32)
    }

    fn can_build(values: &Vec<Option<&Self>>) -> (fits: bool) {
        N <= i32::MAX as usize && N <= isize::MAX as usize / 1024
    }

    fn build_array(values: &Vec<Option<&Self>>) -> (array: Array) {
        let mut builder = fixed_builder(N as i32);
        let mut i: usize = 0;
        while i < values.len()
            invariant
                N <= i32::MAX,
                i <= values.len(),
                pending_fixed_width(builder) == N,
                pending_fixed_values(builder) == id_column(values@).take(i as int),
            decreases values.len() - i,
        {
            match values[i] {
                Some(id) => {
                    let _ = append_fixed(&mut builder, id.0.as_slice());
                },
                None => append_fixed_null(&mut builder),
            }
            i = i + 1;
            assert(pending_fixed_values(builder) =~= id_column(values@).take(i as int));
        }
        assert(pending_fixed_values(builder) =~= id_column(values@));
        Array::Binary(finish_fixed(&mut builder))
    }
}

/// A map is stored as a list of key-value structs, and the names of those
/// nested fields are part of its type: the type declared for the column and
/// the array built for it must use the same ones, or the batch is a mismatch.
pub open spec fn field_names() -> (Seq<char>, Seq<char>, Seq<char>) {
    ("entries"@, "keys"@, "values"@)
}

fn map_field_names() -> (names: MapFieldNames)
    ensures
        names@ == field_names(),
{
    MapFieldNames {
        entry: String::from_str("entries"),
        key: String::from_str("keys"),
        value: String::from_str("values"),
    }
}

/// One row's tags. A row without any has no entries.
pub open spec fn row_entries(row: Option<&Tags>) -> Seq<Entry> {
    match row {
        Some(tags) => tags.entries(),
        None => Seq::empty(),
    }
}

/// The tags of some rows, one row after another.
pub open spec fn all_entries(rows: Seq<Option<&Tags>>) -> Seq<Entry>
    decreases rows.len(),
{
    if rows.len() == 0 {
        Seq::empty()
    } else {
        all_entries(rows.drop_last()) + row_entries(rows.last())
    }
}

pub open spec fn keys_of(entries: Seq<Entry>) -> Seq<Seq<char>> {
    entries.map_values(|entry: Entry| entry.0)
}

pub open spec fn values_of(entries: Seq<Entry>) -> Seq<Option<Seq<char>>> {
    entries.map_values(|entry: Entry| entry.1)
}

pub open spec fn tags_column(rows: Seq<Option<&Tags>>) -> Seq<Option<Seq<Entry>>> {
    rows.map_values(
        |row: Option<&Tags>|
            match row {
                Some(tags) => Some(tags.entries()),
                None => None,
            },
    )
}

/// A row of a column of tags holds exactly its tags, in the order of their keys:
/// each key once, with the value it has, which for a bare tag is none.
pub proof fn a_row_holds_exactly_its_tags(rows: Seq<Option<&Tags>>, row: int)
    requires
        0 <= row < rows.len(),
        rows[row] is Some,
        rows[row]->Some_0.sorted(),
    ensures
        ({
            let tags = rows[row]->Some_0@;
            let entries = tags_column(rows)[row]->Some_0;
            &&& tags_column(rows)[row] is Some
            &&& keys_ascend(entries)
            &&& forall|i: int|
                0 <= i < entries.len() ==> tags.contains_key((#[trigger] entries[i]).0)
                    && tags[entries[i].0] == entries[i].1
            &&& forall|key: Seq<char>| #[trigger]
                tags.contains_key(key) ==> entries.contains((key, tags[key]))
        }),
{
    let tags = rows[row]->Some_0@;
    let entries = rows[row]->Some_0.entries();
    assert forall|i: int| 0 <= i < entries.len() implies tags.contains_key(
        (#[trigger] entries[i]).0,
    ) && tags[entries[i].0] == entries[i].1 by {
        lemma_last_values_of_ascending(entries, i);
    }
    assert forall|key: Seq<char>| #[trigger] tags.contains_key(key) implies entries.contains(
        (key, tags[key]),
    ) by {
        lemma_last_values_keys(entries, key);
        let i = choose|i: int| 0 <= i < entries.len() && (#[trigger] entries[i]).0 == key;
        lemma_last_values_of_ascending(entries, i);
        assert(entries[i] == (key, tags[key]));
    }
}

/// Columns of the same tags hold the same entries in the same order, in
/// whatever order the tags of each row were given.
pub proof fn same_tags_make_the_same_column(a: Seq<Option<&Tags>>, b: Seq<Option<&Tags>>)
    requires
        a.len() == b.len(),
        forall|i: int|
            0 <= i < a.len() ==> match (#[trigger] a[i], b[i]) {
                (Some(x), Some(y)) => x.sorted() && y.sorted() && x@ == y@,
                (None, None) => true,
                _ => false,
            },
    ensures
        Tags::column(a) == Tags::column(b),
{
    assert forall|i: int| 0 <= i < a.len() implies tags_column(a)[i] == tags_column(b)[i] by {
        if let (Some(x), Some(y)) = (a[i], b[i]) {
            same_tags_encode_identically(*x, *y);
        }
    }
    assert(tags_column(a) =~= tags_column(b));
}

/// Whether a map array can hold some entries: their keys, their values, and
/// how many there are.
pub open spec fn entries_fit(entries: Seq<Entry>) -> bool {
    &&& entries.len() <= MAX_OFFSET
    &&& text_bytes(present(keys_of(entries))) <= MAX_OFFSET
    &&& text_bytes(values_of(entries)) <= MAX_OFFSET
}

proof fn lemma_entries_fit_prefix(entries: Seq<Entry>, n: int)
    requires
        entries_fit(entries),
        0 <= n <= entries.len(),
    ensures
        entries_fit(entries.take(n)),
{
    let keys = present(keys_of(entries));
    let values = values_of(entries);
    assert(keys.take(n) =~= present(keys_of(entries.take(n))));
    assert(values.take(n) =~= values_of(entries.take(n)));
    assert(keys.take(keys.len() as int) =~= keys);
    assert(values.take(values.len() as int) =~= values);
    lemma_text_bytes_grow(keys, n, keys.len() as int);
    lemma_text_bytes_grow(values, n, values.len() as int);
}

proof fn lemma_all_entries_prefix(rows: Seq<Option<&Tags>>, i: int, j: int)
    requires
        0 <= i <= j <= rows.len(),
    ensures
        all_entries(rows.take(i)).len() <= all_entries(rows.take(j)).len(),
        all_entries(rows.take(i)) == all_entries(rows.take(j)).take(
            all_entries(rows.take(i)).len() as int,
        ),
    decreases j - i,
{
    if i < j {
        lemma_all_entries_prefix(rows, i, j - 1);
        assert(rows.take(j).drop_last() =~= rows.take(j - 1));
        let shorter = all_entries(rows.take(j - 1));
        let n = all_entries(rows.take(i)).len() as int;
        assert(all_entries(rows.take(j)).take(n) =~= shorter.take(n));
    } else {
        assert(all_entries(rows.take(i)).take(all_entries(rows.take(i)).len() as int)
            =~= all_entries(rows.take(i)));
    }
}

proof fn lemma_all_entries_step(rows: Seq<Option<&Tags>>, i: int)
    requires
        0 <= i < rows.len(),
    ensures
        all_entries(rows.take(i + 1)) == all_entries(rows.take(i)) + row_entries(rows[i]),
{
    assert(rows.take(i + 1).drop_last() =~= rows.take(i));
}

impl ArrowField for Tags {
    open spec fn spec_nullable() -> bool {
        false
    }

    open spec fn spec_data_type() -> DataTypeView {
        DataTypeView::TextMap(field_names())
    }

    open spec fn column(values: Seq<Option<&Self>>) -> ColumnValues {
        ColumnValues::Entries(tags_column(values))
    }

    open spec fn is_absent(value: Option<&Self>) -> bool {
        value is None
    }

    open spec fn fits(values: Seq<Option<&Self>>) -> bool {
        entries_fit(all_entries(values))
    }

    proof fn rows_stand_alone(a: Seq<Option<&Self>>, i: int, b: Seq<Option<&Self>>, j: int) {
    }

    proof fn absence(value: Option<&Self>) {
    }

    fn nullable() -> (nullable: bool) {
        false
    }

    fn data_type() -> (data_type: DataType) {
        DataType::TextMap(map_field_names())
    }

    fn can_build(values: &Vec<Option<&Self>>) -> (fits: bool) {
        let mut keys: Vec<Option<&str>> = Vec::new();
        let mut texts: Vec<Option<&str>> = Vec::new();
        let mut i: usize = 0;
        assert(values@.take(0) =~= Seq::<Option<&Tags>>::empty());
        while i < values.len()
            invariant
                i <= values.len(),
                str_option_views(keys@) == present(keys_of(all_entries(values@.take(i as int)))),
                str_option_views(texts@) == values_of(all_entries(values@.take(i as int))),
            decreases values.len() - i,
        {
            let ghost before = all_entries(values@.take(i as int));
            proof {
                lemma_all_entries_step(values@, i as int);
            }
            match values[i] {
                Some(tags) => {
                    let mut n: usize = 0;
                    while n < tags.len()
                        invariant
                            n <= tags.entries().len(),
                            str_option_views(keys@) == present(
                                keys_of(before + tags.entries().take(n as int)),
                            ),
                            str_option_views(texts@) == values_of(
                                before + tags.entries().take(n as int),
                            ),
                        decreases tags.entries().len() - n,
                    {
                        let ghost old_keys = keys@;
                        let ghost old_texts = texts@;
                        let key = tags.key(n);
                        let value = tags.value(n);
                        keys.push(Some(key));
                        texts.push(value);
                        n = n + 1;
                        let ghost more = before + tags.entries().take(n as int);
                        assert(str_option_views(keys@) =~= str_option_views(old_keys).push(
                            Some(key@),
                        ));
                        assert(str_option_views(keys@) =~= present(keys_of(more)));
                        assert(str_option_views(texts@) =~= str_option_views(old_texts).push(
                            str_view(value),
                        ));
                        assert(str_option_views(texts@) =~= values_of(more));
                    }
                    assert(tags.entries().take(n as int) =~= tags.entries());
                },
                None => {
                    assert(before + Seq::<Entry>::empty() =~= before);
                },
            }
            i = i + 1;
        }
        assert(values@.take(i as int) =~= values@);
        assert(keys@.len() == all_entries(values@).len()) by {
            assert(str_option_views(keys@).len() == keys@.len());
        }
        keys.len() <= MAX_OFFSET && texts_fit(&keys) && texts_fit(&texts)
    }

    fn build_array(values: &Vec<Option<&Self>>) -> (array: Array) {
        let ghost whole = all_entries(values@);
        let mut builder = map_builder(map_field_names());
        let mut i: usize = 0;
        assert(values@.take(0) =~= Seq::<Option<&Tags>>::empty());
        assert(values@.take(values@.len() as int) =~= values@);
        assert(pending_keys(builder) =~= keys_of(all_entries(values@.take(0))));
        assert(pending_values(builder) =~= values_of(all_entries(values@.take(0))));
        while i < values.len()
            invariant
                i <= values.len(),
                whole == all_entries(values@),
                entries_fit(whole),
                values@.take(values@.len() as int) == values@,
                pending_names(builder) == field_names(),
                pending_keys(builder) == keys_of(all_entries(values@.take(i as int))),
                pending_values(builder) == values_of(all_entries(values@.take(i as int))),
                pending_ends(builder).len() == i,
                pending_validity(builder).len() == i,
                forall|row: int|
                    0 <= row < i ==> #[trigger] pending_ends(builder)[row] == all_entries(
                        values@.take(row + 1),
                    ).len(),
                forall|row: int|
                    0 <= row < i ==> #[trigger] pending_validity(builder)[row] == (
                    values@[row] is Some),
            decreases values.len() - i,
        {
            let ghost before = all_entries(values@.take(i as int));
            proof {
                lemma_all_entries_step(values@, i as int);
                lemma_all_entries_prefix(values@, i + 1, values@.len() as int);
                lemma_entries_fit_prefix(whole, all_entries(values@.take(i + 1)).len() as int);
            }
            let ghost row_end = all_entries(values@.take(i + 1));
            if let Some(tags) = values[i] {
                let mut n: usize = 0;
                assert(before + tags.entries().take(0) =~= before);
                while n < tags.len()
                    invariant
                        n <= tags.entries().len(),
                        row_end == before + tags.entries(),
                        entries_fit(row_end),
                        pending_names(builder) == field_names(),
                        pending_keys(builder) == keys_of(
                            before + tags.entries().take(n as int),
                        ),
                        pending_values(builder) == values_of(
                            before + tags.entries().take(n as int),
                        ),
                        pending_ends(builder).len() == i,
                        pending_validity(builder).len() == i,
                        forall|row: int|
                            0 <= row < i ==> #[trigger] pending_ends(builder)[row] == all_entries(
                                values@.take(row + 1),
                            ).len(),
                        forall|row: int|
                            0 <= row < i ==> #[trigger] pending_validity(builder)[row] == (
                            values@[row] is Some),
                    decreases tags.entries().len() - n,
                {
                    let ghost more = before + tags.entries().take(n + 1);
                    proof {
                        assert(more =~= row_end.take(more.len() as int));
                        lemma_entries_fit_prefix(row_end, more.len() as int);
                        assert(keys_of(more) =~= pending_keys(builder).push(
                            tags.entries()[n as int].0,
                        ));
                        assert(values_of(more) =~= pending_values(builder).push(
                            tags.entries()[n as int].1,
                        ));
                    }
                    append_key(&mut builder, tags.key(n));
                    append_value(&mut builder, tags.value(n));
                    n = n + 1;
                }
                assert(tags.entries().take(n as int) =~= tags.entries());
            } else {
                assert(before + Seq::<Entry>::empty() =~= before);
            }
            // Once per row, not per tag: this is what marks where a row's
            // entries end, so tags with none are an empty map, and no tags at
            // all are a null.
            let _ = append_row(&mut builder, values[i].is_some());
            i = i + 1;
        }
        let array = finish_map(builder);
        proof {
            let keys = map_keys(array);
            let texts = map_values(array);
            let ends = map_ends(array);
            assert forall|row: int| 0 <= row < values@.len() implies map_row(
                keys,
                texts,
                ends,
                row,
            ) == row_entries(#[trigger] values@[row]) by {
                lemma_all_entries_step(values@, row);
                lemma_all_entries_prefix(values@, row + 1, values@.len() as int);
                let start = all_entries(values@.take(row));
                let end = all_entries(values@.take(row + 1));
                if row == 0 {
                    assert(values@.take(0) =~= Seq::<Option<&Tags>>::empty());
                } else {
                    assert(ends[row - 1] == start.len());
                }
                assert(ends[row] == end.len());
                let entries = row_entries(values@[row]);
                assert forall|k: int| 0 <= k < entries.len() implies #[trigger] entries[k] == (
                    keys[start.len() + k],
                    texts[start.len() + k],
                ) by {
                    assert(end[start.len() + k] == entries[k]);
                    assert(whole.take(end.len() as int)[start.len() + k] == whole[start.len() + k]);
                }
                assert(map_row(keys, texts, ends, row) =~= entries);
            }
            assert(Array::Entries(array).values()->Entries_0 =~= tags_column(values@));
        }
        Array::Entries(array)
    }
}

/// Texts take the bytes of each of them: no fewer than any one, and no more
/// than as many times the longest as there are.
pub proof fn texts_take_their_bytes(values: Seq<Option<Seq<char>>>, i: int, longest: nat)
    requires
        0 <= i < values.len(),
    ensures
        values[i] matches Some(text) ==> text_bytes(values) >= encode_utf8(text).len(),
        (forall|k: int|
            0 <= k < values.len() ==> (#[trigger] values[k] matches Some(text) ==> encode_utf8(
                text,
            ).len() <= longest)) ==> text_bytes(values) <= values.len() * longest,
    decreases values.len(),
{
    let front = values.drop_last();
    let last = values.len() - 1;
    assert(values.last() == values[last]);
    assert(values.len() * longest == front.len() * longest + longest) by (nonlinear_arith)
        requires
            values.len() == front.len() + 1,
    ;
    if front.len() > 0 {
        texts_take_their_bytes(
            front,
            if i < last {
                i
            } else {
                0
            },
            longest,
        );
        assert forall|k: int| 0 <= k < front.len() implies #[trigger] front[k] == values[k] by {}
    }
    if forall|k: int|
        0 <= k < values.len() ==> (#[trigger] values[k] matches Some(text) ==> encode_utf8(
            text,
        ).len() <= longest) {
        assert(values[last] matches Some(text) ==> encode_utf8(text).len() <= longest);
        if front.len() > 0 {
            assert forall|k: int| 0 <= k < front.len() implies (
            #[trigger] front[k] matches Some(text) ==> encode_utf8(text).len() <= longest) by {
                assert(values[k] matches Some(text) ==> encode_utf8(text).len() <= longest);
            }
        } else {
            assert(text_bytes(front) == 0);
        }
    }
}

} // verus!
