//! How a record's files are read as tables.

use vstd::prelude::*;

use crate::merged::EXTENSION;
use crate::paths::OBJECT_STORE_URL;
use crate::record::{
    all_column_views, all_primary_key_names, column_names, sort_order_names, sort_order_views,
    MergeStrategy, Record, Table, PARTITION_COLUMN,
};
use crate::spans::{a_span_has_a_column_for_each_field, Span};
use crate::text::{join, joined, option_view, str_views};
use crate::types::Granularity;

verus! {

/// Where the files of a record are listed.
pub fn table_url<T: Record>() -> (url: String)
    ensures
        url@ == OBJECT_STORE_URL@ + "/"@ + T::spec_table() + "/"@,
{
    let mut url = String::from_str(OBJECT_STORE_URL);
    url.append("/");
    url.append(T::table());
    url.append("/");
    url
}

/// The table holding one row per primary key, beside the one holding every row
/// stored.
pub fn merged_table<T: Record>() -> (name: String)
    ensures
        name@ == T::spec_table() + "_merged"@,
{
    let mut name = String::from_str(T::table());
    name.append("_merged");
    name
}

/// The query behind the merged table, where a record's rows are merged at all.
/// One row per primary key within a partition: the partition is part of the
/// ranking key, so a record whose rows straddle two still shows both. Ranked
/// rather than grouped, as no aggregate could combine two sets of tags.
pub open spec fn merged_query<T: Record>() -> Option<Seq<char>> {
    let columns = joined(
        column_names(all_column_views::<T>()).push(PARTITION_COLUMN@),
        ", "@,
    );
    let key = joined(all_primary_key_names::<T>().push(PARTITION_COLUMN@), ", "@);
    match T::spec_version_column() {
        Some(version) => Some(
            "select "@ + columns + " from ( select "@ + columns
                + ", row_number() over (partition by "@ + key + " order by "@ + version
                + " desc) as merge_rank from "@ + T::spec_table() + " ) where merge_rank = 1"@,
        ),
        None => None,
    }
}

/// The query behind the merged table, where a record's rows are merged at all.
pub fn merged_sql<T: Record>() -> (sql: Option<String>)
    ensures
        option_view(sql) == merged_query::<T>(),
{
    let MergeStrategy::Latest { version } = match T::merge() {
        Some(strategy) => strategy,
        None => {
            return None;
        },
    };
    let mut names = T::all_columns().names();
    let ghost own = names@;
    names.push(PARTITION_COLUMN);
    assert(str_views(names@) =~= str_views(own).push(PARTITION_COLUMN@));
    let columns = join(&names, ", ");
    let mut key = T::all_primary_key();
    let ghost own_key = key@;
    key.push(PARTITION_COLUMN);
    assert(str_views(key@) =~= str_views(own_key).push(PARTITION_COLUMN@));
    let key = join(&key, ", ");
    let mut sql = String::from_str("select ");
    sql.append(columns.as_str());
    sql.append(" from ( select ");
    sql.append(columns.as_str());
    sql.append(", row_number() over (partition by ");
    sql.append(key.as_str());
    sql.append(" order by ");
    sql.append(version);
    sql.append(" desc) as merge_rank from ");
    sql.append(T::table());
    sql.append(" ) where merge_rank = 1");
    Some(sql)
}

/// How a record's files are registered as tables: where they are listed, what
/// their names end in, the order their rows are in, and the column read back
/// from their paths. Where rows are merged, a second table holds one row per
/// primary key.
///
/// The plain table is the cheap one: it prunes, and it can show a row a later
/// insert superseded. The merged one is correct and pays a sort over everything
/// it reads, so the caller chooses which they want.
#[derive(Debug)]
pub struct Registration {
    pub table: &'static str,
    pub url: String,
    pub extension: &'static str,
    pub order: Vec<(&'static str, bool)>,
    pub partition_column: &'static str,
    pub granularity: Granularity,
    pub merged: Option<MergedTable>,
}

/// A table that is a query over another.
#[derive(Debug)]
pub struct MergedTable {
    pub name: String,
    pub sql: String,
}

/// How a record's files are registered as tables.
pub fn registration<T: Record>() -> (registration: Registration)
    ensures
        registration.table@ == T::spec_table(),
        registration.url@ == OBJECT_STORE_URL@ + "/"@ + T::spec_table() + "/"@,
        registration.extension@ == EXTENSION@,
        sort_order_views(registration.order@) == sort_order_names::<T>(),
        registration.partition_column@ == PARTITION_COLUMN@,
        registration.granularity == T::spec_granularity(),
        match merged_query::<T>() {
            Some(sql) => registration.merged matches Some(merged) && merged.name@
                == T::spec_table() + "_merged"@ && merged.sql@ == sql,
            None => registration.merged is None,
        },
{
    let merged = match merged_sql::<T>() {
        Some(sql) => Some(MergedTable { name: merged_table::<T>(), sql }),
        None => None,
    };
    Registration {
        table: T::table(),
        url: table_url::<T>(),
        extension: EXTENSION,
        order: T::sort_order(),
        partition_column: PARTITION_COLUMN,
        granularity: T::granularity(),
        merged,
    }
}

/// The merged table of spans reads every column of theirs, and of the rows that
/// agree in organization, project, trace, id and partition the one received
/// last.
pub proof fn merged_spans_are_those_received_last()
    ensures
        ({
            let columns = joined(
                seq![
                    "organization_id"@,
                    "project_id"@,
                    "received_at"@,
                    "span_id"@,
                    "trace_id"@,
                    "parent_span_id"@,
                    "service"@,
                    "name"@,
                    "started_at"@,
                    "ended_at"@,
                    "status"@,
                    "status_message"@,
                    "tags"@,
                    "partition"@,
                ],
                ", "@,
            );
            let key = joined(
                seq![
                    "organization_id"@,
                    "project_id"@,
                    "trace_id"@,
                    "span_id"@,
                    "partition"@,
                ],
                ", "@,
            );
            merged_query::<Span>() == Some(
                "select "@ + columns + " from ( select "@ + columns
                    + ", row_number() over (partition by "@ + key + " order by "@
                    + "received_at"@ + " desc) as merge_rank from "@ + "spans"@
                    + " ) where merge_rank = 1"@,
            )
        }),
{
    a_span_has_a_column_for_each_field();
    assert(column_names(all_column_views::<Span>()).push("partition"@) =~= seq![
        "organization_id"@,
        "project_id"@,
        "received_at"@,
        "span_id"@,
        "trace_id"@,
        "parent_span_id"@,
        "service"@,
        "name"@,
        "started_at"@,
        "ended_at"@,
        "status"@,
        "status_message"@,
        "tags"@,
        "partition"@,
    ]);
    assert(all_primary_key_names::<Span>().push("partition"@) =~= seq![
        "organization_id"@,
        "project_id"@,
        "trace_id"@,
        "span_id"@,
        "partition"@,
    ]);
}

/// Spans are listed under one url, as files of one extension, each under the
/// day it was received on.
pub proof fn spans_are_listed_by_day()
    ensures
        OBJECT_STORE_URL@ + "/"@ + Span::spec_table() + "/"@ == "prism://store"@ + "/"@ + "spans"@
            + "/"@,
        EXTENSION@ == ".parquet"@,
        PARTITION_COLUMN@ == "partition"@,
        Span::spec_granularity() == Granularity::Day,
        Span::spec_granularity().nanos() == 86_400_000_000_000,
{
}

} // verus!
