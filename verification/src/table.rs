//! Which partitions a filter can match in.
//!
//! A query engine reads `partition` and `received_at` as unrelated columns: it
//! has no notion of one being derived from another, so a filter on
//! `received_at` alone prunes nothing.

use vstd::prelude::*;

use crate::civil::{
    rfc3339, rfc3339_keeps_the_order_of_instants, rfc3339_text, year_of, years_read_in_order,
};
use crate::record::{partition_text, RECEIVED_AT};
use crate::text::{
    lemma_text_lt_asymmetric, lemma_text_lt_irreflexive, same_text, text_le, text_lt,
};
use crate::types::{
    in_range, nanos_per_second, partition_floor, partitions_keep_the_order_of_instants,
    Granularity, TimePartitioned, Timestamp,
};

verus! {

/// How a filter relates its two sides.
#[derive(Clone, Copy, Debug, PartialEq, Eq, Structural)]
pub enum Operator {
    Equal,
    NotEqual,
    Less,
    LessOrEqual,
    Greater,
    GreaterOrEqual,
    /// Anything that does not order its sides.
    Other,
}

impl Operator {
    /// The operator that relates the sides the same way when they trade
    /// places.
    pub open spec fn spec_swap(self) -> Operator {
        match self {
            Operator::Less => Operator::Greater,
            Operator::LessOrEqual => Operator::GreaterOrEqual,
            Operator::Greater => Operator::Less,
            Operator::GreaterOrEqual => Operator::LessOrEqual,
            op => op,
        }
    }

    /// The operator that relates the sides the same way when they trade
    /// places.
    pub fn swap(&self) -> (swapped: Operator)
        ensures
            swapped == self.spec_swap(),
    {
        match self {
            Operator::Less => Operator::Greater,
            Operator::LessOrEqual => Operator::GreaterOrEqual,
            Operator::Greater => Operator::Less,
            Operator::GreaterOrEqual => Operator::LessOrEqual,
            op => *op,
        }
    }

    /// Whether the operator holds of two numbers. Nothing is said of one that
    /// does not order its sides.
    pub open spec fn holds(self, left: int, right: int) -> bool {
        match self {
            Operator::Equal => left == right,
            Operator::NotEqual => left != right,
            Operator::Less => left < right,
            Operator::LessOrEqual => left <= right,
            Operator::Greater => left > right,
            Operator::GreaterOrEqual => left >= right,
            Operator::Other => true,
        }
    }
}

/// One side of a filter.
#[derive(Debug)]
pub enum Operand {
    /// The column of that name.
    Column(String),
    /// An instant, in microseconds since the epoch.
    Micros(i64),
    /// Any other literal.
    Literal,
    /// Anything else.
    Other,
}

/// A filter of a query.
#[derive(Debug)]
pub enum Filter {
    Binary { left: Operand, op: Operator, right: Operand },
    /// One that does not relate two sides.
    Other,
}

/// What a filter says of when a row was received: how that relates to an
/// instant, in microseconds since the epoch.
pub open spec fn bound_on_arrival(filter: Filter) -> Option<(Operator, i64)> {
    match filter {
        Filter::Binary { left: Operand::Column(column), op, right: Operand::Micros(at) } => if column@
            == RECEIVED_AT@ {
            Some((op, at))
        } else {
            None
        },
        Filter::Binary { left: Operand::Micros(at), op, right: Operand::Column(column) } => if column@
            == RECEIVED_AT@ {
            Some((op.spec_swap(), at))
        } else {
            None
        },
        _ => None,
    }
}

/// Which side of a partition a filter bounds.
#[derive(Clone, Copy, Debug, PartialEq, Eq, Structural)]
pub enum Side {
    /// That partition and those after it.
    From,
    /// That partition and those before it.
    Until,
    /// That partition alone.
    At,
}

/// A filter on the partition column.
#[derive(Debug)]
pub struct PartitionFilter {
    pub side: Side,
    /// Spelled exactly as the directory is, since that string is the column's
    /// value.
    pub partition: String,
}

/// A filter on the partition column, as plain values.
#[verifier::ext_equal]
pub struct PartitionFilterView {
    pub side: Side,
    pub partition: Seq<char>,
}

impl View for PartitionFilter {
    type V = PartitionFilterView;

    open spec fn view(&self) -> PartitionFilterView {
        PartitionFilterView { side: self.side, partition: self.partition@ }
    }
}

impl PartitionFilterView {
    /// Whether a partition is one the filter leaves in. Partitions are compared
    /// as text.
    pub open spec fn admits(self, partition: Seq<char>) -> bool {
        match self.side {
            Side::From => text_le(self.partition, partition),
            Side::Until => text_le(partition, self.partition),
            Side::At => partition == self.partition,
        }
    }
}

/// The side of a partition that a bound on arrival leaves in, where it leaves
/// any out.
pub open spec fn side_of(op: Operator) -> Option<Side> {
    match op {
        Operator::Greater => Some(Side::From),
        Operator::GreaterOrEqual => Some(Side::From),
        Operator::Less => Some(Side::Until),
        Operator::LessOrEqual => Some(Side::Until),
        Operator::Equal => Some(Side::At),
        _ => None,
    }
}

/// What a filter says of the partitions its rows are in.
pub open spec fn derived(filter: Filter, granularity: Granularity) -> Option<
    PartitionFilterView,
> {
    match bound_on_arrival(filter) {
        Some((op, at)) => match side_of(op) {
            Some(side) => if in_range(at * 1000) {
                Some(
                    PartitionFilterView { side, partition: partition_text(at * 1000, granularity) },
                )
            } else {
                None
            },
            None => None,
        },
        None => None,
    }
}

pub open spec fn filter_view(filter: Option<PartitionFilter>) -> Option<PartitionFilterView> {
    match filter {
        Some(filter) => Some(filter@),
        None => None,
    }
}

/// How a partition's directory spells it.
pub fn partition_dir_value(at: Timestamp) -> (text: String)
    ensures
        text@ == rfc3339_text(at@ / nanos_per_second()),
{
    rfc3339(at.seconds())
}

/// Turns a filter into one on `partition`, to avoid opening every file.
///
/// A row's partition is its `received_at` truncated to the granularity, and
/// truncating preserves order, so every row matching `received_at >= t` is in a
/// partition at or after `t` truncated, and the ones before it cannot hold a
/// match.
///
/// It narrows to whole partitions and no further, so rows inside a matching
/// one can still fail the filter it came from. That filter has to keep running
/// per row.
pub fn partition_filter(filter: &Filter, granularity: Granularity) -> (derived_filter: Option<
    PartitionFilter,
>)
    ensures
        filter_view(derived_filter) == derived(*filter, granularity),
{
    let (op, at): (Operator, i64) = match filter {
        Filter::Binary { left: Operand::Column(column), op, right: Operand::Micros(at) } => {
            if !same_text(column.as_str(), RECEIVED_AT) {
                return None;
            }
            (*op, *at)
        },
        Filter::Binary { left: Operand::Micros(at), op, right: Operand::Column(column) } => {
            if !same_text(column.as_str(), RECEIVED_AT) {
                return None;
            }
            (op.swap(), *at)
        },
        _ => {
            return None;
        },
    };
    let side = match op {
        Operator::Greater | Operator::GreaterOrEqual => Side::From,
        Operator::Less | Operator::LessOrEqual => Side::Until,
        Operator::Equal => Side::At,
        _ => {
            return None;
        },
    };
    match Timestamp::from_micros(at) {
        Some(instant) => {
            let partition = partition_dir_value(instant.partition_start(granularity));
            Some(PartitionFilter { side, partition })
        },
        None => None,
    }
}

/// What some filters say of the partitions their rows are in, in order.
pub open spec fn all_derived(filters: Seq<Filter>, granularity: Granularity) -> Seq<
    PartitionFilterView,
>
    decreases filters.len(),
{
    if filters.len() == 0 {
        Seq::empty()
    } else {
        let rest = all_derived(filters.drop_last(), granularity);
        match derived(filters.last(), granularity) {
            Some(filter) => rest.push(filter),
            None => rest,
        }
    }
}

pub open spec fn filter_views(filters: Seq<PartitionFilter>) -> Seq<PartitionFilterView> {
    filters.map_values(|filter: PartitionFilter| filter@)
}

/// The filters to push down beside those given.
pub fn partition_filters(filters: &Vec<Filter>, granularity: Granularity) -> (pushed: Vec<
    PartitionFilter,
>)
    ensures
        filter_views(pushed@) == all_derived(filters@, granularity),
{
    let mut pushed: Vec<PartitionFilter> = Vec::new();
    let mut i: usize = 0;
    assert(filter_views(pushed@) =~= all_derived(filters@.take(0), granularity));
    while i < filters.len()
        invariant
            i <= filters.len(),
            filter_views(pushed@) == all_derived(filters@.take(i as int), granularity),
        decreases filters.len() - i,
    {
        assert(filters@.take(i + 1).drop_last() =~= filters@.take(i as int));
        let ghost before = pushed@;
        if let Some(filter) = partition_filter(&filters[i], granularity) {
            pushed.push(filter);
            assert(filter_views(pushed@) =~= filter_views(before).push(filter@));
        }
        i = i + 1;
    }
    assert(filters@.take(i as int) =~= filters@);
    pushed
}

proof fn lemma_stored_instant(instant: int, granularity: Granularity)
    ensures
        partition_floor(instant / 1000 * 1000, granularity) == partition_floor(
            instant,
            granularity,
        ),
{
    let step = granularity.nanos();
    assert(step == 86_400_000_000_000);
    assert(partition_floor(instant, granularity) == instant / 86_400_000_000_000
        * 86_400_000_000_000);
    let whole = instant / 1000 * 1000;
    assert(partition_floor(whole, granularity) == whole / 86_400_000_000_000
        * 86_400_000_000_000);
    let days = instant / 86_400_000_000_000;
    let rest = instant % 86_400_000_000_000;
    assert(instant == days * 86_400_000_000_000 + rest);
    assert(whole == days * 86_400_000_000_000 + rest / 1000 * 1000);
    vstd::arithmetic::div_mod::lemma_fundamental_div_mod_converse(
        whole,
        86_400_000_000_000,
        days,
        rest / 1000 * 1000,
    );
}

/// The year the partition of an instant begins in.
pub open spec fn partition_year(at: int, granularity: Granularity) -> int {
    year_of(partition_floor(at, granularity) / nanos_per_second())
}

/// Pruning loses no row: one whose stored arrival passes a filter is in a
/// partition the derived filter leaves in. Partitions are compared as text, so
/// of a filter that orders, this is said where the year of its bound and that
/// of the row read in order.
pub proof fn pruning_loses_no_match(filter: Filter, granularity: Granularity, received_at: int)
    requires
        bound_on_arrival(filter) matches Some((op, at)) && op.holds(received_at / 1000, at as int)
            && (op == Operator::Equal || years_read_in_order(
            partition_year(at * 1000, granularity),
            partition_year(received_at, granularity),
        )),
        derived(filter, granularity) is Some,
    ensures
        derived(filter, granularity)->Some_0.admits(partition_text(received_at, granularity)),
{
    let (op, at) = bound_on_arrival(filter)->Some_0;
    let stored = received_at / 1000 * 1000;
    lemma_stored_instant(received_at, granularity);
    if op != Operator::Equal {
        if stored <= at * 1000 {
            partitions_keep_the_order_of_instants(stored, at * 1000, granularity);
            lemma_partition_texts(stored, at * 1000, granularity);
        }
        if stored >= at * 1000 {
            partitions_keep_the_order_of_instants(at * 1000, stored, granularity);
            lemma_partition_texts(at * 1000, stored, granularity);
        }
    }
}

proof fn lemma_partition_texts(earlier: int, later: int, granularity: Granularity)
    requires
        partition_floor(earlier, granularity) <= partition_floor(later, granularity),
        years_read_in_order(
            partition_year(earlier, granularity),
            partition_year(later, granularity),
        ),
    ensures
        text_le(partition_text(earlier, granularity), partition_text(later, granularity)),
{
    let a = partition_floor(earlier, granularity) / nanos_per_second();
    let b = partition_floor(later, granularity) / nanos_per_second();
    assert(a <= b);
    if a < b {
        rfc3339_keeps_the_order_of_instants(a, b);
        lemma_text_lt_asymmetric(rfc3339_text(a), rfc3339_text(b));
    } else {
        lemma_text_lt_irreflexive(rfc3339_text(a));
    }
}

/// Whether a number stands to another as an operator says, for those that
/// bound anything.
pub open spec fn stands(op: Operator, left: int, right: int) -> bool {
    ||| op == Operator::Equal && left == right
    ||| op == Operator::Less && left < right
    ||| op == Operator::LessOrEqual && left <= right
    ||| op == Operator::Greater && right < left
    ||| op == Operator::GreaterOrEqual && right <= left
}

/// What `received_at op t` says of partitions, as it is written: a bound at the
/// very partition `t` falls in, on the side the operator leaves open.
pub proof fn a_filter_bounds_the_partition_of_its_instant(
    column: String,
    op: Operator,
    at: i64,
    granularity: Granularity,
)
    requires
        column@ == "received_at"@,
        in_range(at * 1000),
    ensures
        ({
            let filter = Filter::Binary {
                left: Operand::Column(column),
                op,
                right: Operand::Micros(at),
            };
            let bound = derived(filter, granularity);
            let partition = partition_text(at * 1000, granularity);
            &&& (op == Operator::Greater || op == Operator::GreaterOrEqual) ==> bound == Some(
                PartitionFilterView { side: Side::From, partition },
            )
            &&& (op == Operator::Less || op == Operator::LessOrEqual) ==> bound == Some(
                PartitionFilterView { side: Side::Until, partition },
            )
            &&& op == Operator::Equal ==> bound == Some(
                PartitionFilterView { side: Side::At, partition },
            )
            &&& (op == Operator::NotEqual || op == Operator::Other) ==> bound is None
        }),
{
}

/// What `t op received_at` says is what the same words say read from the other
/// end.
pub proof fn a_filter_reads_the_same_from_either_end(
    column: String,
    at: i64,
    granularity: Granularity,
)
    ensures
        ({
            let ahead = |op: Operator|
                derived(
                    Filter::Binary {
                        left: Operand::Column(column),
                        op,
                        right: Operand::Micros(at),
                    },
                    granularity,
                );
            let behind = |op: Operator|
                derived(
                    Filter::Binary {
                        left: Operand::Micros(at),
                        op,
                        right: Operand::Column(column),
                    },
                    granularity,
                );
            &&& behind(Operator::Less) == ahead(Operator::Greater)
            &&& behind(Operator::LessOrEqual) == ahead(Operator::GreaterOrEqual)
            &&& behind(Operator::Greater) == ahead(Operator::Less)
            &&& behind(Operator::GreaterOrEqual) == ahead(Operator::LessOrEqual)
            &&& behind(Operator::Equal) == ahead(Operator::Equal)
            &&& behind(Operator::NotEqual) == ahead(Operator::NotEqual)
            &&& behind(Operator::Other) == ahead(Operator::Other)
        }),
{
}

/// A filter that is not on `received_at` against an instant that can be held
/// says nothing of partitions.
pub proof fn other_filters_say_nothing_of_partitions(filter: Filter, granularity: Granularity)
    requires
        derived(filter, granularity) is Some,
    ensures
        filter matches Filter::Binary { left, op, right } && {
            ||| left matches Operand::Column(column) && column@ == "received_at"@ && (
            right matches Operand::Micros(at) && in_range(at * 1000))
            ||| right matches Operand::Column(column) && column@ == "received_at"@ && (
            left matches Operand::Micros(at) && in_range(at * 1000))
        },
{
}

/// Pruning loses no row that a filter selects. The filter is taken as it is
/// written, `received_at op t` or `t op received_at`, and the row's arrival as
/// it is stored, in microseconds: where the one stands to the other as `op`
/// says, the partition the row is in is on the side of the bound that is read.
pub proof fn no_row_a_filter_selects_is_pruned(
    column: String,
    op: Operator,
    at: i64,
    granularity: Granularity,
    received_at: int,
)
    requires
        column@ == "received_at"@,
        op == Operator::Equal || years_read_in_order(
            partition_year(at * 1000, granularity),
            partition_year(received_at, granularity),
        ),
    ensures
        ({
            let filter = Filter::Binary {
                left: Operand::Column(column),
                op,
                right: Operand::Micros(at),
            };
            stands(op, received_at / 1000, at as int) ==> leaves_in(
                derived(filter, granularity),
                partition_text(received_at, granularity),
            )
        }),
        ({
            let filter = Filter::Binary {
                left: Operand::Micros(at),
                op,
                right: Operand::Column(column),
            };
            stands(op, at as int, received_at / 1000) ==> leaves_in(
                derived(filter, granularity),
                partition_text(received_at, granularity),
            )
        }),
{
    let ahead = Filter::Binary {
        left: Operand::Column(column),
        op,
        right: Operand::Micros(at),
    };
    let behind = Filter::Binary {
        left: Operand::Micros(at),
        op,
        right: Operand::Column(column),
    };
    if stands(op, received_at / 1000, at as int) && derived(ahead, granularity) is Some {
        pruning_loses_no_match(ahead, granularity, received_at);
    }
    if stands(op, at as int, received_at / 1000) && derived(behind, granularity) is Some {
        pruning_loses_no_match(behind, granularity, received_at);
    }
}

/// Whether a partition is read under a bound: those from the bound on, those
/// up to it, or that one alone. Partitions are compared as text.
pub open spec fn leaves_in(bound: Option<PartitionFilterView>, partition: Seq<char>) -> bool {
    bound matches Some(bound) ==> {
        &&& bound.side == Side::From ==> bound.partition == partition || text_lt(
            bound.partition,
            partition,
        )
        &&& bound.side == Side::Until ==> bound.partition == partition || text_lt(
            partition,
            bound.partition,
        )
        &&& bound.side == Side::At ==> bound.partition == partition
    }
}

/// Every bound pushed down is that of a filter given, and each filter that has
/// one has it pushed, in the order they are given.
pub proof fn each_filter_pushes_its_own_bound(
    filters: Seq<Filter>,
    more: Seq<Filter>,
    filter: Filter,
    granularity: Granularity,
)
    ensures
        all_derived(filters + more, granularity) == all_derived(filters, granularity)
            + all_derived(more, granularity),
        all_derived(seq![filter], granularity) == match derived(filter, granularity) {
            Some(bound) => seq![bound],
            None => Seq::empty(),
        },
    decreases more.len(),
{
    if more.len() == 0 {
        assert(filters + more =~= filters);
    } else {
        each_filter_pushes_its_own_bound(filters, more.drop_last(), filter, granularity);
        assert((filters + more).drop_last() =~= filters + more.drop_last());
    }
    assert(all_derived(filters + more, granularity) =~= all_derived(filters, granularity)
        + all_derived(more, granularity));
    assert(seq![filter].drop_last() =~= Seq::<Filter>::empty());
    assert(all_derived(seq![filter].drop_last(), granularity) =~= Seq::<
        PartitionFilterView,
    >::empty());
    assert(all_derived(seq![filter], granularity) =~= match derived(filter, granularity) {
        Some(bound) => seq![bound],
        None => Seq::empty(),
    });
}

} // verus!
