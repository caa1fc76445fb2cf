//! Spans: one unit of work each, written as a single row.

use vstd::prelude::*;
use vstd::utf8::encode_utf8;

use crate::arrays::{
    a_row_holds_exactly_its_tags, all_entries, flattened_values, keys_of, present, str_option_views,
    tags_column, text_array, text_bytes, text_column, texts_fit, texts_take_their_bytes, values_of,
    Array, ArrowField, ColumnValues, DataType, DataTypeView, MAX_OFFSET,
};
use crate::civil::rfc3339_text;
use crate::order::{
    bytes_lt, key_le, key_lt, key_order_is_total, key_smaller_at, key_view, part_lt, KeyPart, Part,
};
use crate::record::{
    all_column_views, all_primary_key_names, batch_of, column_fits, column_names, column_views,
    common_columns, declared, directory_text, organization_ids, project, project_ids, projected,
    row_key, rows_fit, rows_sorted, sort_key, sort_order_names, widths_are_some, zones_are_utc,
    Column, ColumnView, Common, CommonView, MergeStrategy, Record, RECEIVED_AT,
};
use crate::text::{option_view, str_views, text_lt};
use crate::types::{
    keys_ascend, partition_floor, Granularity, SpanId, Tags, Timestamp, TraceId,
};

verus! {

/// Span status codes. `Unset` is default.
#[derive(Clone, Copy, Debug, PartialEq, Eq, Structural)]
pub enum Status {
    Unset,
    /// Someone asserted success, which almost nothing does.
    Okay,
    Error,
}

/// What a status is stored as.
pub open spec fn status_text(status: Status) -> Seq<char> {
    match status {
        Status::Unset => "unset"@,
        Status::Okay => "ok"@,
        Status::Error => "error"@,
    }
}

impl Status {
    pub fn as_str(&self) -> (text: &'static str)
        ensures
            text@ == status_text(*self),
    {
        match self {
            Status::Unset => "unset",
            Status::Okay => "ok",
            Status::Error => "error",
        }
    }
}

pub open spec fn status_column(values: Seq<Option<&Status>>) -> Seq<Option<Seq<char>>> {
    values.map_values(
        |value: Option<&Status>|
            match value {
                Some(status) => Some(status_text(*status)),
                None => None,
            },
    )
}

fn status_strs(values: &Vec<Option<&Status>>) -> (texts: Vec<Option<&'static str>>)
    ensures
        str_option_views(texts@) == status_column(values@),
{
    let mut texts: Vec<Option<&'static str>> = Vec::new();
    let mut i: usize = 0;
    while i < values.len()
        invariant
            i <= values.len(),
            str_option_views(texts@) == status_column(values@).take(i as int),
        decreases values.len() - i,
    {
        let value = match values[i] {
            Some(status) => Some(status.as_str()),
            None => None,
        };
        let ghost before = texts@;
        texts.push(value);
        i = i + 1;
        assert(str_option_views(texts@) =~= str_option_views(before).push(
            status_column(values@)[i - 1],
        ));
        assert(str_option_views(texts@) =~= status_column(values@).take(i as int));
    }
    assert(str_option_views(texts@) =~= status_column(values@));
    texts
}

/// Three values across every row, so a dictionary encodes it to nearly nothing,
/// and `where status = 'error'` is the query people write.
impl ArrowField for Status {
    open spec fn spec_nullable() -> bool {
        false
    }

    open spec fn spec_data_type() -> DataTypeView {
        DataTypeView::Utf8
    }

    open spec fn column(values: Seq<Option<&Self>>) -> ColumnValues {
        ColumnValues::Text(status_column(values))
    }

    open spec fn is_absent(value: Option<&Self>) -> bool {
        value is None
    }

    open spec fn fits(values: Seq<Option<&Self>>) -> bool {
        text_bytes(status_column(values)) <= MAX_OFFSET
    }

    proof fn rows_stand_alone(a: Seq<Option<&Self>>, i: int, b: Seq<Option<&Self>>, j: int) {
    }

    proof fn absence(value: Option<&Self>) {
    }

    fn nullable() -> (nullable: bool) {
        false
    }

    fn data_type() -> (data_type: DataType) {
        DataType::Utf8
    }

    fn can_build(values: &Vec<Option<&Self>>) -> (fits: bool) {
        texts_fit(&status_strs(values))
    }

    fn build_array(values: &Vec<Option<&Self>>) -> (array: Array) {
        Array::Text(text_array(&status_strs(values)))
    }
}

/// One unit of work, written as a single row. A span that started and never
/// finished has no `ended_at`, which is why it is the one timestamp that can be
/// absent.
#[derive(Debug)]
pub struct Span {
    pub common: Common,
    pub span_id: SpanId,
    pub trace_id: TraceId,
    pub parent_span_id: Option<SpanId>,
    /// What did the work, where whoever sent the span said.
    pub service: Option<String>,
    pub name: String,
    pub started_at: Timestamp,
    pub ended_at: Option<Timestamp>,
    pub status: Status,
    /// Why it failed, in whatever words the caller used. Only set when
    /// `status` is `Error`.
    pub status_message: Option<String>,
    pub tags: Tags,
}

/// A span, as plain values. Instants are in nanoseconds since the epoch.
#[verifier::ext_equal]
pub struct SpanView {
    pub common: CommonView,
    pub span_id: Seq<u8>,
    pub trace_id: Seq<u8>,
    pub parent_span_id: Option<Seq<u8>>,
    pub service: Option<Seq<char>>,
    pub name: Seq<char>,
    pub started_at: int,
    pub ended_at: Option<int>,
    pub status: Status,
    pub status_message: Option<Seq<char>>,
    pub tags: Map<Seq<char>, Option<Seq<char>>>,
}

pub open spec fn option_id_view(id: Option<SpanId>) -> Option<Seq<u8>> {
    match id {
        Some(id) => Some(id@),
        None => None,
    }
}

pub open spec fn option_instant_view(at: Option<Timestamp>) -> Option<int> {
    match at {
        Some(at) => Some(at@),
        None => None,
    }
}

impl View for Span {
    type V = SpanView;

    open spec fn view(&self) -> SpanView {
        SpanView {
            common: self.common@,
            span_id: self.span_id@,
            trace_id: self.trace_id@,
            parent_span_id: option_id_view(self.parent_span_id),
            service: option_view(self.service),
            name: self.name@,
            started_at: self.started_at@,
            ended_at: option_instant_view(self.ended_at),
            status: self.status,
            status_message: option_view(self.status_message),
            tags: self.tags@,
        }
    }
}

pub open spec fn span_views(spans: Seq<Span>) -> Seq<SpanView> {
    spans.map_values(|span: Span| span@)
}

impl Record for Span {
    open spec fn spec_common(&self) -> Common {
        self.common
    }

    open spec fn spec_columns() -> Seq<ColumnView> {
        seq![
            declared::<SpanId>("span_id"@),
            declared::<TraceId>("trace_id"@),
            declared::<Option<SpanId>>("parent_span_id"@),
            declared::<Option<String>>("service"@),
            declared::<String>("name"@),
            declared::<Timestamp>("started_at"@),
            declared::<Option<Timestamp>>("ended_at"@),
            declared::<Status>("status"@),
            declared::<Option<String>>("status_message"@),
            declared::<Tags>("tags"@),
        ]
    }

    open spec fn own_column(rows: Seq<&Self>, column: int) -> ColumnValues {
        if column == 0 {
            SpanId::column(projected(rows, |span: Span| span.span_id))
        } else if column == 1 {
            TraceId::column(projected(rows, |span: Span| span.trace_id))
        } else if column == 2 {
            <Option<SpanId>>::column(projected(rows, |span: Span| span.parent_span_id))
        } else if column == 3 {
            <Option<String>>::column(projected(rows, |span: Span| span.service))
        } else if column == 4 {
            String::column(projected(rows, |span: Span| span.name))
        } else if column == 5 {
            Timestamp::column(projected(rows, |span: Span| span.started_at))
        } else if column == 6 {
            <Option<Timestamp>>::column(projected(rows, |span: Span| span.ended_at))
        } else if column == 7 {
            Status::column(projected(rows, |span: Span| span.status))
        } else if column == 8 {
            <Option<String>>::column(projected(rows, |span: Span| span.status_message))
        } else {
            Tags::column(projected(rows, |span: Span| span.tags))
        }
    }

    open spec fn own_column_fits(rows: Seq<&Self>, column: int) -> bool {
        if column == 0 {
            SpanId::fits(projected(rows, |span: Span| span.span_id))
        } else if column == 1 {
            TraceId::fits(projected(rows, |span: Span| span.trace_id))
        } else if column == 2 {
            <Option<SpanId>>::fits(projected(rows, |span: Span| span.parent_span_id))
        } else if column == 3 {
            <Option<String>>::fits(projected(rows, |span: Span| span.service))
        } else if column == 4 {
            String::fits(projected(rows, |span: Span| span.name))
        } else if column == 5 {
            Timestamp::fits(projected(rows, |span: Span| span.started_at))
        } else if column == 6 {
            <Option<Timestamp>>::fits(projected(rows, |span: Span| span.ended_at))
        } else if column == 7 {
            Status::fits(projected(rows, |span: Span| span.status))
        } else if column == 8 {
            <Option<String>>::fits(projected(rows, |span: Span| span.status_message))
        } else {
            Tags::fits(projected(rows, |span: Span| span.tags))
        }
    }

    open spec fn spec_table() -> Seq<char> {
        "spans"@
    }

    open spec fn spec_granularity() -> Granularity {
        Granularity::Day
    }

    open spec fn spec_primary_key() -> Seq<Seq<char>> {
        seq!["trace_id"@, "span_id"@]
    }

    open spec fn spec_key(&self) -> Seq<Part> {
        seq![Part::Bytes(self.trace_id@), Part::Bytes(self.span_id@)]
    }

    open spec fn spec_version_column() -> Option<Seq<char>> {
        Some(RECEIVED_AT@)
    }

    open spec fn spec_version(&self) -> int {
        self.common.received_at@ / 1000
    }

    proof fn columns_are_distinct() {
        reveal_strlit("organization_id");
        reveal_strlit("project_id");
        reveal_strlit("received_at");
        reveal_strlit("span_id");
        reveal_strlit("trace_id");
        reveal_strlit("parent_span_id");
        reveal_strlit("service");
        reveal_strlit("name");
        reveal_strlit("started_at");
        reveal_strlit("ended_at");
        reveal_strlit("status");
        reveal_strlit("status_message");
        reveal_strlit("tags");
        let names = column_names(common_columns() + Self::spec_columns());
        assert(names =~= seq![
            "organization_id"@,
            "project_id"@,
            "received_at"@,
            "span_id"@,
            "trace_id"@,
            "parent_span_id"@,
            "service"@,
            "name"@,
            "started_at"@,
            "ended_at"@,
            "status"@,
            "status_message"@,
            "tags"@,
        ]);
        // Each name has a length and a third letter no other has together.
        let marks: Seq<(int, char)> = seq![
            (15, 'g'),
            (10, 'o'),
            (11, 'c'),
            (7, 'a'),
            (8, 'a'),
            (14, 'r'),
            (7, 'r'),
            (4, 'm'),
            (10, 'a'),
            (8, 'd'),
            (6, 'a'),
            (14, 'a'),
            (4, 'g'),
        ];
        assert(names[0].len() == marks[0].0 && names[0][2] == marks[0].1);
        assert(names[1].len() == marks[1].0 && names[1][2] == marks[1].1);
        assert(names[2].len() == marks[2].0 && names[2][2] == marks[2].1);
        assert(names[3].len() == marks[3].0 && names[3][2] == marks[3].1);
        assert(names[4].len() == marks[4].0 && names[4][2] == marks[4].1);
        assert(names[5].len() == marks[5].0 && names[5][2] == marks[5].1);
        assert(names[6].len() == marks[6].0 && names[6][2] == marks[6].1);
        assert(names[7].len() == marks[7].0 && names[7][2] == marks[7].1);
        assert(names[8].len() == marks[8].0 && names[8][2] == marks[8].1);
        assert(names[9].len() == marks[9].0 && names[9][2] == marks[9].1);
        assert(names[10].len() == marks[10].0 && names[10][2] == marks[10].1);
        assert(names[11].len() == marks[11].0 && names[11][2] == marks[11].1);
        assert(names[12].len() == marks[12].0 && names[12][2] == marks[12].1);
        assert forall|i: int, j: int|
            0 <= i < names.len() && 0 <= j < names.len() && i != j implies names[i] != names[j] by {
            assert(marks[i] != marks[j]);
        }
    }

    proof fn keys_are_whole(&self) {
    }

    fn common(&self) -> (common: &Common) {
        &self.common
    }

    fn columns() -> (columns: Vec<Column>) {
        let mut columns: Vec<Column> = Vec::new();
        columns.push(Column::new::<SpanId>("span_id"));
        columns.push(Column::new::<TraceId>("trace_id"));
        columns.push(Column::new::<Option<SpanId>>("parent_span_id"));
        columns.push(Column::new::<Option<String>>("service"));
        columns.push(Column::new::<String>("name"));
        columns.push(Column::new::<Timestamp>("started_at"));
        columns.push(Column::new::<Option<Timestamp>>("ended_at"));
        columns.push(Column::new::<Status>("status"));
        columns.push(Column::new::<Option<String>>("status_message"));
        columns.push(Column::new::<Tags>("tags"));
        assert(column_views(columns@) =~= Self::spec_columns());
        columns
    }

    fn can_build<'a>(rows: &Vec<&'a Self>, column: usize) -> (fits: bool) {
        if column == 0 {
            SpanId::can_build(
                &project(
                    rows,
                    |span: &'a Span| -> (field: &'a SpanId)
                        ensures
                            *field == span.span_id
                        { &span.span_id },
                    Ghost(|span: Span| span.span_id),
                ),
            )
        } else if column == 1 {
            TraceId::can_build(
                &project(
                    rows,
                    |span: &'a Span| -> (field: &'a TraceId)
                        ensures
                            *field == span.trace_id
                        { &span.trace_id },
                    Ghost(|span: Span| span.trace_id),
                ),
            )
        } else if column == 2 {
            <Option<SpanId>>::can_build(
                &project(
                    rows,
                    |span: &'a Span| -> (field: &'a Option<SpanId>)
                        ensures
                            *field == span.parent_span_id
                        { &span.parent_span_id },
                    Ghost(|span: Span| span.parent_span_id),
                ),
            )
        } else if column == 3 {
            <Option<String>>::can_build(
                &project(
                    rows,
                    |span: &'a Span| -> (field: &'a Option<String>)
                        ensures
                            *field == span.service
                        { &span.service },
                    Ghost(|span: Span| span.service),
                ),
            )
        } else if column == 4 {
            String::can_build(
                &project(
                    rows,
                    |span: &'a Span| -> (field: &'a String)
                        ensures
                            *field == span.name
                        { &span.name },
                    Ghost(|span: Span| span.name),
                ),
            )
        } else if column == 5 {
            Timestamp::can_build(
                &project(
                    rows,
                    |span: &'a Span| -> (field: &'a Timestamp)
                        ensures
                            *field == span.started_at
                        { &span.started_at },
                    Ghost(|span: Span| span.started_at),
                ),
            )
        } else if column == 6 {
            <Option<Timestamp>>::can_build(
                &project(
                    rows,
                    |span: &'a Span| -> (field: &'a Option<Timestamp>)
                        ensures
                            *field == span.ended_at
                        { &span.ended_at },
                    Ghost(|span: Span| span.ended_at),
                ),
            )
        } else if column == 7 {
            Status::can_build(
                &project(
                    rows,
                    |span: &'a Span| -> (field: &'a Status)
                        ensures
                            *field == span.status
                        { &span.status },
                    Ghost(|span: Span| span.status),
                ),
            )
        } else if column == 8 {
            <Option<String>>::can_build(
                &project(
                    rows,
                    |span: &'a Span| -> (field: &'a Option<String>)
                        ensures
                            *field == span.status_message
                        { &span.status_message },
                    Ghost(|span: Span| span.status_message),
                ),
            )
        } else {
            Tags::can_build(
                &project(
                    rows,
                    |span: &'a Span| -> (field: &'a Tags)
                        ensures
                            *field == span.tags
                        { &span.tags },
                    Ghost(|span: Span| span.tags),
                ),
            )
        }
    }

    fn build<'a>(rows: &Vec<&'a Self>, column: usize) -> (array: Array) {
        if column == 0 {
            SpanId::build_array(
                &project(
                    rows,
                    |span: &'a Span| -> (field: &'a SpanId)
                        ensures
                            *field == span.span_id
                        { &span.span_id },
                    Ghost(|span: Span| span.span_id),
                ),
            )
        } else if column == 1 {
            TraceId::build_array(
                &project(
                    rows,
                    |span: &'a Span| -> (field: &'a TraceId)
                        ensures
                            *field == span.trace_id
                        { &span.trace_id },
                    Ghost(|span: Span| span.trace_id),
                ),
            )
        } else if column == 2 {
            <Option<SpanId>>::build_array(
                &project(
                    rows,
                    |span: &'a Span| -> (field: &'a Option<SpanId>)
                        ensures
                            *field == span.parent_span_id
                        { &span.parent_span_id },
                    Ghost(|span: Span| span.parent_span_id),
                ),
            )
        } else if column == 3 {
            <Option<String>>::build_array(
                &project(
                    rows,
                    |span: &'a Span| -> (field: &'a Option<String>)
                        ensures
                            *field == span.service
                        { &span.service },
                    Ghost(|span: Span| span.service),
                ),
            )
        } else if column == 4 {
            String::build_array(
                &project(
                    rows,
                    |span: &'a Span| -> (field: &'a String)
                        ensures
                            *field == span.name
                        { &span.name },
                    Ghost(|span: Span| span.name),
                ),
            )
        } else if column == 5 {
            Timestamp::build_array(
                &project(
                    rows,
                    |span: &'a Span| -> (field: &'a Timestamp)
                        ensures
                            *field == span.started_at
                        { &span.started_at },
                    Ghost(|span: Span| span.started_at),
                ),
            )
        } else if column == 6 {
            <Option<Timestamp>>::build_array(
                &project(
                    rows,
                    |span: &'a Span| -> (field: &'a Option<Timestamp>)
                        ensures
                            *field == span.ended_at
                        { &span.ended_at },
                    Ghost(|span: Span| span.ended_at),
                ),
            )
        } else if column == 7 {
            Status::build_array(
                &project(
                    rows,
                    |span: &'a Span| -> (field: &'a Status)
                        ensures
                            *field == span.status
                        { &span.status },
                    Ghost(|span: Span| span.status),
                ),
            )
        } else if column == 8 {
            <Option<String>>::build_array(
                &project(
                    rows,
                    |span: &'a Span| -> (field: &'a Option<String>)
                        ensures
                            *field == span.status_message
                        { &span.status_message },
                    Ghost(|span: Span| span.status_message),
                ),
            )
        } else {
            Tags::build_array(
                &project(
                    rows,
                    |span: &'a Span| -> (field: &'a Tags)
                        ensures
                            *field == span.tags
                        { &span.tags },
                    Ghost(|span: Span| span.tags),
                ),
            )
        }
    }

    fn table() -> (table: &'static str) {
        "spans"
    }

    fn granularity() -> (granularity: Granularity) {
        Granularity::Day
    }

    /// A trace is read whole, every span sharing a `trace_id`, so clustering
    /// on it is what lets that read skip row groups.
    fn primary_key() -> (names: Vec<&'static str>) {
        let mut names: Vec<&'static str> = Vec::new();
        names.push("trace_id");
        names.push("span_id");
        assert(str_views(names@) =~= Self::spec_primary_key());
        names
    }

    fn key(&self) -> (key: Vec<KeyPart>) {
        let mut key: Vec<KeyPart> = Vec::new();
        key.push(KeyPart::Bytes(self.trace_id.bytes()));
        key.push(KeyPart::Bytes(self.span_id.bytes()));
        assert(key_view(key@) =~= self.spec_key());
        key
    }

    /// A span sent again while it runs is still one span, and what was heard
    /// of it last is what it is.
    fn merge() -> (merge: Option<MergeStrategy>) {
        Some(MergeStrategy::Latest { version: RECEIVED_AT })
    }

    fn version(&self) -> (version: i64) {
        self.common.received_at.micros()
    }
}

/// Nothing about spans stands in the way of writing them, as files or as JSON:
/// every id has some width, and every instant is in UTC.
pub proof fn spans_can_be_written()
    ensures
        widths_are_some(all_column_views::<Span>()),
        zones_are_utc(all_column_views::<Span>()),
{
    let columns = all_column_views::<Span>();
    assert(16usize as i32 as int == 16 && 8usize as i32 as int == 8);
    assert forall|i: int| 0 <= i < columns.len() implies (#[trigger] columns[i]).data_type
        != DataTypeView::FixedSizeBinary(0) && match columns[i].data_type {
        DataTypeView::TimestampMicros(Some(zone)) => zone == "UTC"@,
        _ => true,
    } by {
        if i < 3 {
            assert(columns[i] == common_columns()[i]);
        } else {
            assert(columns[i] == Span::spec_columns()[i - 3]);
        }
    }
}

/// Whether a column is of texts, one for each of `rows` rows, with `text` at
/// `row`.
pub open spec fn holds_text(
    column: ColumnValues,
    rows: nat,
    row: int,
    text: Option<Seq<char>>,
) -> bool {
    column matches ColumnValues::Text(values) && values.len() == rows && values[row] == text
}

/// Whether a column is of instants in microseconds, one for each of `rows`
/// rows, with `at` at `row`.
pub open spec fn holds_micros(column: ColumnValues, rows: nat, row: int, at: Option<int>) -> bool {
    column matches ColumnValues::Micros(values) && values.len() == rows && values[row] == at
}

/// Whether a column is of bytes, one value for each of `rows` rows, with
/// `bytes` at `row`.
pub open spec fn holds_bytes(
    column: ColumnValues,
    rows: nat,
    row: int,
    bytes: Option<Seq<u8>>,
) -> bool {
    column matches ColumnValues::Bytes(values) && values.len() == rows && values[row] == bytes
}

/// Whether a column is of entries, one list for each of `rows` rows, with those
/// of `tags` at `row`: each key once, in order, with the value it has.
pub open spec fn holds_tags(
    column: ColumnValues,
    rows: nat,
    row: int,
    tags: Map<Seq<char>, Option<Seq<char>>>,
) -> bool {
    column matches ColumnValues::Entries(values) && values.len() == rows && (
    values[row] matches Some(entries) && keys_ascend(entries) && forall|key: Seq<char>, value|
        #[trigger] entries.contains((key, value)) <==> tags.contains_key(key) && tags[key] == value)
}

proof fn lemma_one_column_has_a_name(i: int, j: int)
    requires
        0 <= i < all_column_views::<Span>().len(),
        0 <= j < all_column_views::<Span>().len(),
        all_column_views::<Span>()[i].name == all_column_views::<Span>()[j].name,
    ensures
        i == j,
{
    Span::columns_are_distinct();
    let names = column_names(all_column_views::<Span>());
    assert(names[i] == all_column_views::<Span>()[i].name);
    assert(names[j] == all_column_views::<Span>()[j].name);
}

proof fn lemma_columns_of_spans()
    ensures
        all_column_views::<Span>().len() == 13,
        all_column_views::<Span>()[0].name == "organization_id"@,
        all_column_views::<Span>()[1].name == "project_id"@,
        all_column_views::<Span>()[2].name == "received_at"@,
        all_column_views::<Span>()[3].name == "span_id"@,
        all_column_views::<Span>()[4].name == "trace_id"@,
        all_column_views::<Span>()[5].name == "parent_span_id"@,
        all_column_views::<Span>()[6].name == "service"@,
        all_column_views::<Span>()[7].name == "name"@,
        all_column_views::<Span>()[8].name == "started_at"@,
        all_column_views::<Span>()[9].name == "ended_at"@,
        all_column_views::<Span>()[10].name == "status"@,
        all_column_views::<Span>()[11].name == "status_message"@,
        all_column_views::<Span>()[12].name == "tags"@,
{
    assert forall|i: int| 0 <= i < 3 implies #[trigger] all_column_views::<Span>()[i]
        == common_columns()[i] by {}
    assert forall|i: int| 3 <= i < 13 implies #[trigger] all_column_views::<Span>()[i]
        == Span::spec_columns()[i - 3] by {}
}

/// Each column of a batch holds the field it is named after: whichever column
/// has the name of a field, what stands in it at a row is what that row has in
/// the field. Instants are in whole microseconds, and what a row does not have
/// is null.
pub proof fn each_column_holds_the_field_of_its_name(rows: Seq<&Span>, column: int, i: int)
    requires
        0 <= column < all_column_views::<Span>().len(),
        0 <= i < rows.len(),
        rows[i].tags.sorted(),
    ensures
        ({
            let name = all_column_views::<Span>()[column].name;
            let column = batch_of(rows)[column];
            let row = *rows[i];
            &&& name == "organization_id"@ ==> holds_text(column, rows.len(), i, Some(row.common.organization_id@))
            &&& name == "project_id"@ ==> holds_text(column, rows.len(), i, Some(row.common.project_id@))
            &&& name == "received_at"@ ==> holds_micros(column, rows.len(), i, Some(row.common.received_at@ / 1000))
            &&& name == "span_id"@ ==> holds_bytes(column, rows.len(), i, Some(row.span_id@))
            &&& name == "trace_id"@ ==> holds_bytes(column, rows.len(), i, Some(row.trace_id@))
            &&& name == "parent_span_id"@ ==> holds_bytes(column, rows.len(), i, option_id_view(row.parent_span_id))
            &&& name == "service"@ ==> holds_text(column, rows.len(), i, option_view(row.service))
            &&& name == "name"@ ==> holds_text(column, rows.len(), i, Some(row.name@))
            &&& name == "started_at"@ ==> holds_micros(column, rows.len(), i, Some(row.started_at@ / 1000))
            &&& name == "ended_at"@ ==> holds_micros(column, rows.len(), i, match row.ended_at {
                Some(ended_at) => Some(ended_at@ / 1000),
                None => None,
            })
            &&& name == "status"@ ==> holds_text(column, rows.len(), i, Some(
                match row.status {
                    Status::Unset => "unset"@,
                    Status::Okay => "ok"@,
                    Status::Error => "error"@,
                },
            ))
            &&& name == "status_message"@ ==> holds_text(column, rows.len(), i, option_view(row.status_message))
            &&& name == "tags"@ ==> holds_tags(column, rows.len(), i, row.tags@)
        }),
{
    lemma_columns_of_spans();
    let name = all_column_views::<Span>()[column].name;
    if name == "organization_id"@ {
        lemma_one_column_has_a_name(column, 0);
    }
    if name == "project_id"@ {
        lemma_one_column_has_a_name(column, 1);
    }
    if name == "received_at"@ {
        lemma_one_column_has_a_name(column, 2);
    }
    if name == "span_id"@ {
        lemma_one_column_has_a_name(column, 3);
    }
    if name == "trace_id"@ {
        lemma_one_column_has_a_name(column, 4);
    }
    if name == "parent_span_id"@ {
        lemma_one_column_has_a_name(column, 5);
    }
    if name == "service"@ {
        lemma_one_column_has_a_name(column, 6);
    }
    if name == "name"@ {
        lemma_one_column_has_a_name(column, 7);
    }
    if name == "started_at"@ {
        lemma_one_column_has_a_name(column, 8);
    }
    if name == "ended_at"@ {
        lemma_one_column_has_a_name(column, 9);
    }
    if name == "status"@ {
        lemma_one_column_has_a_name(column, 10);
    }
    if name == "status_message"@ {
        lemma_one_column_has_a_name(column, 11);
    }
    if name == "tags"@ {
        lemma_one_column_has_a_name(column, 12);
        let tags = projected(rows, |span: Span| span.tags);
        assert(tags[i] == Some(&rows[i].tags));
        a_row_holds_exactly_its_tags(tags, i);
        let entries = tags_column(tags)[i]->Some_0;
        assert forall|key: Seq<char>, value: Option<Seq<char>>| #[trigger]
            entries.contains((key, value)) <==> rows[i].tags@.contains_key(key)
                && rows[i].tags@[key] == value by {
            if entries.contains((key, value)) {
                let k = choose|k: int| 0 <= k < entries.len() && entries[k] == (key, value);
                assert(entries[k].0 == key);
            }
        }
    }
}

/// The columns a span is stored in, by their names: the type of each, and
/// whether a row may have nothing in it.
pub proof fn each_column_of_a_span_has_its_type(column: int)
    requires
        0 <= column < all_column_views::<Span>().len(),
    ensures
        ({
            let ColumnView { name, data_type, nullable } = all_column_views::<Span>()[column];
            let optional = seq!["parent_span_id"@, "service"@, "ended_at"@, "status_message"@];
            &&& nullable <==> optional.contains(name)
            &&& name == "organization_id"@ ==> data_type == DataTypeView::Utf8
            &&& name == "project_id"@ ==> data_type == DataTypeView::Utf8
            &&& name == "received_at"@ ==> data_type == DataTypeView::TimestampMicros(Some("UTC"@))
            &&& name == "span_id"@ ==> data_type == DataTypeView::FixedSizeBinary(8)
            &&& name == "trace_id"@ ==> data_type == DataTypeView::FixedSizeBinary(16)
            &&& name == "parent_span_id"@ ==> data_type == DataTypeView::FixedSizeBinary(8)
            &&& name == "service"@ ==> data_type == DataTypeView::Utf8
            &&& name == "name"@ ==> data_type == DataTypeView::Utf8
            &&& name == "started_at"@ ==> data_type == DataTypeView::TimestampMicros(Some("UTC"@))
            &&& name == "ended_at"@ ==> data_type == DataTypeView::TimestampMicros(Some("UTC"@))
            &&& name == "status"@ ==> data_type == DataTypeView::Utf8
            &&& name == "status_message"@ ==> data_type == DataTypeView::Utf8
            &&& name == "tags"@ ==> data_type == DataTypeView::TextMap(
                ("entries"@, "keys"@, "values"@),
            )
        }),
{
    lemma_columns_of_spans();
    assert(16usize as i32 as int == 16 && 8usize as i32 as int == 8);
    let columns = all_column_views::<Span>();
    let name = columns[column].name;
    let optional = seq!["parent_span_id"@, "service"@, "ended_at"@, "status_message"@];
    assert(optional[0] == columns[5].name);
    assert(optional[1] == columns[6].name);
    assert(optional[2] == columns[9].name);
    assert(optional[3] == columns[11].name);
    if name == columns[0].name {
        lemma_one_column_has_a_name(column, 0);
    }
    if name == columns[1].name {
        lemma_one_column_has_a_name(column, 1);
    }
    if name == columns[2].name {
        lemma_one_column_has_a_name(column, 2);
    }
    if name == columns[3].name {
        lemma_one_column_has_a_name(column, 3);
    }
    if name == columns[4].name {
        lemma_one_column_has_a_name(column, 4);
    }
    if name == columns[5].name {
        lemma_one_column_has_a_name(column, 5);
    }
    if name == columns[6].name {
        lemma_one_column_has_a_name(column, 6);
    }
    if name == columns[7].name {
        lemma_one_column_has_a_name(column, 7);
    }
    if name == columns[8].name {
        lemma_one_column_has_a_name(column, 8);
    }
    if name == columns[9].name {
        lemma_one_column_has_a_name(column, 9);
    }
    if name == columns[10].name {
        lemma_one_column_has_a_name(column, 10);
    }
    if name == columns[11].name {
        lemma_one_column_has_a_name(column, 11);
    }
    if name == columns[12].name {
        lemma_one_column_has_a_name(column, 12);
    }
    if optional.contains(name) {
        let k = choose|k: int| 0 <= k < optional.len() && optional[k] == name;
        assert(name == optional[k]);
    }
}

/// Every field of a span has a column of its name, and there are no others.
pub proof fn a_span_has_a_column_for_each_field()
    ensures
        column_names(all_column_views::<Span>()) == seq![
            "organization_id"@,
            "project_id"@,
            "received_at"@,
            "span_id"@,
            "trace_id"@,
            "parent_span_id"@,
            "service"@,
            "name"@,
            "started_at"@,
            "ended_at"@,
            "status"@,
            "status_message"@,
            "tags"@,
        ],
{
    lemma_columns_of_spans();
    assert(column_names(all_column_views::<Span>()) =~= seq![
        "organization_id"@,
        "project_id"@,
        "received_at"@,
        "span_id"@,
        "trace_id"@,
        "parent_span_id"@,
        "service"@,
        "name"@,
        "started_at"@,
        "ended_at"@,
        "status"@,
        "status_message"@,
        "tags"@,
    ]);
}

/// The version of a row is what its version column holds: whichever column has
/// the name spans are merged by, what stands in it at a row is the version of
/// that row, which is when the span was received.
pub proof fn the_version_column_holds_the_version(rows: Seq<&Span>, column: int, i: int)
    requires
        0 <= column < all_column_views::<Span>().len(),
        0 <= i < rows.len(),
        Some(all_column_views::<Span>()[column].name) == Span::spec_version_column(),
    ensures
        holds_micros(batch_of(rows)[column], rows.len(), i, Some(rows[i].spec_version())),
        rows[i].spec_version() == rows[i].common.received_at@ / 1000,
        all_column_views::<Span>()[column].name == "received_at"@,
{
    lemma_columns_of_spans();
    lemma_one_column_has_a_name(column, 2);
}

/// Two spans have one primary key exactly where the columns it names hold the
/// same: the trace they are of and the id they have in it, within an
/// organization and a project.
pub proof fn a_span_is_told_by_its_ids(a: Span, b: Span)
    ensures
        row_key(a) == row_key(b) <==> {
            &&& a.common.organization_id@ == b.common.organization_id@
            &&& a.common.project_id@ == b.common.project_id@
            &&& a.trace_id@ == b.trace_id@
            &&& a.span_id@ == b.span_id@
        },
        all_primary_key_names::<Span>() == seq![
            "organization_id"@,
            "project_id"@,
            "trace_id"@,
            "span_id"@,
        ],
{
    let x = row_key(a);
    let y = row_key(b);
    assert(x[0] == Part::Text(a.common.organization_id@));
    assert(y[0] == Part::Text(b.common.organization_id@));
    assert(x[1] == Part::Text(a.common.project_id@));
    assert(y[1] == Part::Text(b.common.project_id@));
    assert(x[2] == Part::Bytes(a.trace_id@));
    assert(y[2] == Part::Bytes(b.trace_id@));
    assert(x[3] == Part::Bytes(a.span_id@));
    assert(y[3] == Part::Bytes(b.span_id@));
    if a.common.organization_id@ == b.common.organization_id@ && a.common.project_id@
        == b.common.project_id@ && a.trace_id@ == b.trace_id@ && a.span_id@ == b.span_id@ {
        assert(x =~= y);
    }
    assert(all_primary_key_names::<Span>() =~= seq![
        "organization_id"@,
        "project_id"@,
        "trace_id"@,
        "span_id"@,
    ]);
}

/// Spans are stored in the order their columns give: by organization, by
/// project, by trace, by id, each ascending, and of one span what was received
/// last first.
pub proof fn spans_are_stored_in_order(rows: Seq<&Span>, i: int, j: int)
    requires
        rows_sorted(rows),
        0 <= i < j < rows.len(),
    ensures
        ({
            let a = *rows[i];
            let b = *rows[j];
            let organization = a.common.organization_id@ == b.common.organization_id@;
            let project = a.common.project_id@ == b.common.project_id@;
            let trace = a.trace_id@ == b.trace_id@;
            let id = a.span_id@ == b.span_id@;
            ||| text_lt(a.common.organization_id@, b.common.organization_id@)
            ||| organization && text_lt(a.common.project_id@, b.common.project_id@)
            ||| organization && project && bytes_lt(a.trace_id@, b.trace_id@)
            ||| organization && project && trace && bytes_lt(a.span_id@, b.span_id@)
            ||| organization && project && trace && id && a.common.received_at@ / 1000
                >= b.common.received_at@ / 1000
        }),
{
    let a = *rows[i];
    let b = *rows[j];
    let x = sort_key(a);
    let y = sort_key(b);
    assert(key_le(x, y));
    key_order_is_total(x, y);
    assert(x =~= seq![
        Part::Text(a.common.organization_id@),
        Part::Text(a.common.project_id@),
        Part::Bytes(a.trace_id@),
        Part::Bytes(a.span_id@),
        Part::Descending(a.common.received_at@ / 1000),
    ]);
    assert(y =~= seq![
        Part::Text(b.common.organization_id@),
        Part::Text(b.common.project_id@),
        Part::Bytes(b.trace_id@),
        Part::Bytes(b.span_id@),
        Part::Descending(b.common.received_at@ / 1000),
    ]);
    if key_lt(x, y) {
        let n = choose|n: int| key_smaller_at(x, y, n);
        assert forall|k: int| 0 <= k < n implies x[k] == y[k] by {
            assert(x.take(n)[k] == y.take(n)[k]);
        }
        assert(part_lt(x[n], y[n]));
    } else {
        assert(x == y);
        assert(x[0] == y[0] && x[1] == y[1] && x[2] == y[2] && x[3] == y[3] && x[4] == y[4]);
    }
}

/// The order spans are stored in is declared by the columns it goes by, all of
/// them ascending but when they were received.
pub proof fn the_order_of_spans_is_declared_by_column()
    ensures
        sort_order_names::<Span>() == seq![
            ("organization_id"@, true),
            ("project_id"@, true),
            ("trace_id"@, true),
            ("span_id"@, true),
            ("received_at"@, false),
        ],
{
    assert(sort_order_names::<Span>() =~= seq![
        ("organization_id"@, true),
        ("project_id"@, true),
        ("trace_id"@, true),
        ("span_id"@, true),
        ("received_at"@, false),
    ]);
}

/// The directory of a span names the day it was received on, in UTC: spans
/// received on one day are under one directory, named after its midnight.
pub proof fn a_span_goes_to_the_day_it_was_received(received_at: int)
    ensures
        directory_text::<Span>(received_at) == "spans"@ + "/"@ + "partition"@ + "="@
            + rfc3339_text(received_at / 86_400_000_000_000 * 86_400),
{
    let day = received_at / 86_400_000_000_000;
    assert(partition_floor(received_at, Granularity::Day) == day * 86_400_000_000_000);
    assert(day * 86_400_000_000_000 == day * 86_400 * 1_000_000_000);
    assert(day * 86_400 * 1_000_000_000 / 1_000_000_000 == day * 86_400);
}

/// Whether a span's texts are none longer than `longest` bytes, and its tags no
/// more than `tags`, with keys and values no longer than that.
pub open spec fn is_short(row: Span, longest: nat, tags: nat) -> bool {
    &&& encode_utf8(row.common.organization_id@).len() <= longest
    &&& encode_utf8(row.common.project_id@).len() <= longest
    &&& encode_utf8(row.name@).len() <= longest
    &&& row.service matches Some(service) ==> encode_utf8(service@).len() <= longest
    &&& row.status_message matches Some(message) ==> encode_utf8(message@).len() <= longest
    &&& row.tags.entries().len() <= tags
    &&& forall|k: int|
        0 <= k < row.tags.entries().len() ==> {
            &&& encode_utf8((#[trigger] row.tags.entries()[k]).0).len() <= longest
            &&& row.tags.entries()[k].1 matches Some(value) ==> encode_utf8(value).len() <= longest
        }
}

proof fn lemma_texts_fit(values: Seq<Option<Seq<char>>>, longest: nat)
    requires
        values.len() * longest <= 0x7fff_ffff,
        forall|k: int|
            0 <= k < values.len() ==> (#[trigger] values[k] matches Some(text) ==> encode_utf8(
                text,
            ).len() <= longest),
    ensures
        text_bytes(values) <= 0x7fff_ffff,
{
    if values.len() > 0 {
        texts_take_their_bytes(values, 0, longest);
    }
}

proof fn lemma_short_entries(rows: Seq<Option<&Tags>>, longest: nat, most: nat)
    requires
        forall|i: int|
            0 <= i < rows.len() ==> (#[trigger] rows[i]) is Some && rows[i]->Some_0.entries().len()
                <= most && forall|k: int|
                0 <= k < rows[i]->Some_0.entries().len() ==> {
                    let entry = #[trigger] rows[i]->Some_0.entries()[k];
                    &&& encode_utf8(entry.0).len() <= longest
                    &&& entry.1 matches Some(value) ==> encode_utf8(value).len() <= longest
                },
    ensures
        all_entries(rows).len() <= rows.len() * most,
        forall|k: int|
            0 <= k < all_entries(rows).len() ==> {
                let entry = #[trigger] all_entries(rows)[k];
                &&& encode_utf8(entry.0).len() <= longest
                &&& entry.1 matches Some(value) ==> encode_utf8(value).len() <= longest
            },
    decreases rows.len(),
{
    if rows.len() > 0 {
        let front = rows.drop_last();
        let last = rows[rows.len() - 1];
        assert forall|i: int| 0 <= i < front.len() implies #[trigger] front[i] == rows[i] by {}
        lemma_short_entries(front, longest, most);
        assert(rows.len() * most == front.len() * most + most) by (nonlinear_arith)
            requires
                rows.len() == front.len() + 1,
        ;
        assert(rows.last() == last);
        let entries = last->Some_0.entries();
        assert(all_entries(rows) == all_entries(front) + entries);
        assert forall|k: int| 0 <= k < all_entries(rows).len() implies {
            let entry = #[trigger] all_entries(rows)[k];
            &&& encode_utf8(entry.0).len() <= longest
            &&& entry.1 matches Some(value) ==> encode_utf8(value).len() <= longest
        } by {
            if k < all_entries(front).len() {
                assert(all_entries(rows)[k] == all_entries(front)[k]);
            } else {
                assert(all_entries(rows)[k] == entries[k - all_entries(front).len()]);
            }
        }
    }
}

/// Spans fit one batch as long as no column of theirs comes to more bytes than
/// 32-bit offsets reach, which is sure where there are few enough of them for
/// the length of their texts and the number of their tags.
pub proof fn short_spans_fit_one_batch(rows: Seq<&Span>, longest: nat, tags: nat)
    requires
        longest >= 5,
        rows.len() * longest <= 0x7fff_ffff,
        rows.len() * tags * longest <= 0x7fff_ffff,
        forall|i: int| 0 <= i < rows.len() ==> is_short(*#[trigger] rows[i], longest, tags),
    ensures
        rows_fit(rows),
{
    lemma_columns_of_spans();
    lemma_status_texts_are_short();
    let organizations = text_column(organization_ids(rows));
    let projects = text_column(project_ids(rows));
    let names = text_column(projected(rows, |span: Span| span.name));
    let services = text_column(flattened_values(projected(rows, |span: Span| span.service)));
    let messages = text_column(flattened_values(projected(rows, |span: Span| span.status_message)));
    let statuses = status_column(projected(rows, |span: Span| span.status));
    assert forall|k: int| 0 <= k < rows.len() implies is_short(*rows[k], longest, tags) && #[trigger]
        organizations[k] == Some(rows[k].common.organization_id@) by {}
    assert forall|k: int| 0 <= k < rows.len() implies is_short(*rows[k], longest, tags) && #[trigger]
        projects[k] == Some(rows[k].common.project_id@) by {}
    assert forall|k: int| 0 <= k < rows.len() implies is_short(*rows[k], longest, tags) && #[trigger]
        names[k] == Some(rows[k].name@) by {}
    assert forall|k: int| 0 <= k < rows.len() implies is_short(*rows[k], longest, tags) && #[trigger]
        services[k] == option_view(rows[k].service) by {}
    assert forall|k: int| 0 <= k < rows.len() implies is_short(*rows[k], longest, tags) && #[trigger]
        messages[k] == option_view(rows[k].status_message) by {}
    assert forall|k: int| 0 <= k < rows.len() implies #[trigger] statuses[k] == Some(
        status_text(rows[k].status),
    ) by {}
    lemma_texts_fit(organizations, longest);
    lemma_texts_fit(projects, longest);
    lemma_texts_fit(names, longest);
    lemma_texts_fit(services, longest);
    lemma_texts_fit(messages, longest);
    lemma_texts_fit(statuses, longest);
    let tagged = projected(rows, |span: Span| span.tags);
    assert forall|i: int| 0 <= i < tagged.len() implies is_short(*rows[i], longest, tags)
        && #[trigger] tagged[i] == Some(&rows[i].tags) by {}
    lemma_short_entries(tagged, longest, tags);
    let entries = all_entries(tagged);
    let keys = present(keys_of(entries));
    let values = values_of(entries);
    assert(entries.len() * longest <= rows.len() * tags * longest) by (nonlinear_arith)
        requires
            entries.len() <= rows.len() * tags,
    ;
    assert(entries.len() <= entries.len() * longest) by (nonlinear_arith)
        requires
            longest >= 5,
    ;
    assert forall|k: int| 0 <= k < keys.len() implies #[trigger] keys[k] == Some(entries[k].0) by {}
    assert forall|k: int| 0 <= k < values.len() implies #[trigger] values[k] == entries[k].1 by {}
    lemma_texts_fit(keys, longest);
    lemma_texts_fit(values, longest);
    assert forall|column: int| 0 <= column < all_column_views::<Span>().len() implies #[trigger]
        column_fits(rows, column) by {}
}

proof fn lemma_status_texts_are_short()
    ensures
        encode_utf8("unset"@).len() == 5,
        encode_utf8("ok"@).len() == 2,
        encode_utf8("error"@).len() == 5,
{
    reveal_strlit("unset");
    reveal_strlit("ok");
    reveal_strlit("error");
    vstd::utf8::is_ascii_chars_encode_utf8("unset"@);
    vstd::utf8::is_ascii_chars_encode_utf8("ok"@);
    vstd::utf8::is_ascii_chars_encode_utf8("error"@);
}

/// A span with a text that 32-bit offsets do not reach the end of fits no
/// batch.
pub proof fn a_span_too_long_fits_no_batch(rows: Seq<&Span>, i: int)
    requires
        0 <= i < rows.len(),
        ({
            ||| encode_utf8(rows[i].name@).len() > 0x7fff_ffff
            ||| rows[i].service matches Some(service) && encode_utf8(service@).len() > 0x7fff_ffff
            ||| rows[i].status_message matches Some(message) && encode_utf8(message@).len()
                > 0x7fff_ffff
        }),
    ensures
        !rows_fit(rows),
{
    lemma_columns_of_spans();
    let names = text_column(projected(rows, |span: Span| span.name));
    let services = text_column(flattened_values(projected(rows, |span: Span| span.service)));
    let messages = text_column(flattened_values(projected(rows, |span: Span| span.status_message)));
    texts_take_their_bytes(names, i, 0);
    texts_take_their_bytes(services, i, 0);
    texts_take_their_bytes(messages, i, 0);
    assert(names[i] == Some(rows[i].name@));
    assert(services[i] == option_view(rows[i].service));
    assert(messages[i] == option_view(rows[i].status_message));
    if rows_fit(rows) {
        assert(column_fits(rows, 6));
        assert(column_fits(rows, 7));
        assert(column_fits(rows, 11));
    }
}

} // verus!
