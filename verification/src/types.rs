//! The types a record's fields are made of.

use chrono::DateTime;
use vstd::prelude::*;

use crate::civil::{MAX_SECONDS, MIN_SECONDS};
use crate::text::{
    hex, hex_text, lemma_text_lt_asymmetric, lemma_text_lt_transitive, option_view, str_view,
    text_less, text_lt,
};

verus! {

/// How finely partitions are bucketed. Each record type decides which one
/// applies; this is just the vocabulary.
#[derive(Clone, Copy, Debug, PartialEq, Eq, Structural)]
pub enum Granularity {
    Day,
}

impl Granularity {
    /// How long one partition covers, in seconds.
    pub open spec fn seconds(self) -> int {
        match self {
            Granularity::Day => 86_400,
        }
    }

    /// How long one partition covers, in nanoseconds.
    pub open spec fn nanos(self) -> int {
        self.seconds() * nanos_per_second()
    }

    /// How long one partition covers, in seconds. Partitions floor against
    /// this, so any fixed interval works.
    pub fn duration(&self) -> (seconds: i64)
        ensures
            seconds == self.seconds(),
    {
        match self {
            Granularity::Day => 86_400,
        }
    }
}

pub open spec fn nanos_per_second() -> int {
    1_000_000_000
}

/// The start of the partition an instant falls in, both in nanoseconds since
/// the epoch: the last multiple of the granularity that is not after it.
pub open spec fn partition_floor(instant: int, granularity: Granularity) -> int {
    instant / granularity.nanos() * granularity.nanos()
}

/// What can be placed in a partition by when it happened.
pub trait TimePartitioned {
    /// When it happened, in nanoseconds since the epoch.
    spec fn instant(&self) -> int;

    fn partition_start(&self, granularity: Granularity) -> (start: Timestamp)
        ensures
            start@ == partition_floor(self.instant(), granularity),
    ;
}

/// An instant, to the nanosecond.
#[derive(Clone, Copy, Debug, PartialEq, Eq, Structural)]
pub struct Timestamp {
    seconds: i64,
    nanos: u32,
}

/// Whether an instant, in nanoseconds since the epoch, can be held.
pub open spec fn in_range(instant: int) -> bool {
    MIN_SECONDS * nanos_per_second() <= instant < (MAX_SECONDS + 1) * nanos_per_second()
}

impl View for Timestamp {
    type V = int;

    /// Nanoseconds since the epoch.
    closed spec fn view(&self) -> int {
        self.seconds * nanos_per_second() + self.nanos
    }
}

/// `chrono::DateTime::from_timestamp_nanos`, as whole seconds and the
/// nanoseconds after them. Every count of nanoseconds has an instant.
#[verifier::external_body]
fn datetime_from_nanos(nanos: i64) -> (instant: (i64, u32))
    ensures
        instant.0 == nanos as int / nanos_per_second(),
        instant.1 == nanos as int % nanos_per_second(),
{
    let at = DateTime::from_timestamp_nanos(nanos);
    (at.timestamp(), at.timestamp_subsec_nanos())
}

/// `chrono::DateTime::from_timestamp_micros`, as whole seconds and the
/// nanoseconds after them. There is no instant beyond the years chrono holds.
#[verifier::external_body]
fn datetime_from_micros(micros: i64) -> (instant: Option<(i64, u32)>)
    ensures
        instant is Some <==> MIN_SECONDS <= micros as int / 1_000_000 <= MAX_SECONDS,
        instant matches Some(instant) ==> {
            &&& instant.0 == micros as int / 1_000_000
            &&& instant.1 == micros as int % 1_000_000 * 1000
        },
{
    let at = DateTime::from_timestamp_micros(micros)?;
    Some((at.timestamp(), at.timestamp_subsec_nanos()))
}

impl Timestamp {
    #[verifier::type_invariant]
    closed spec fn held(&self) -> bool {
        MIN_SECONDS <= self.seconds <= MAX_SECONDS && self.nanos < 1_000_000_000
    }

    /// The instant `seconds` and `nanos` after the epoch. None where that is
    /// out of range, or `nanos` is a second or more.
    pub fn new(seconds: i64, nanos: u32) -> (at: Option<Timestamp>)
        ensures
            at is Some <==> MIN_SECONDS <= seconds <= MAX_SECONDS && nanos < 1_000_000_000,
            at matches Some(at) ==> at@ == seconds * nanos_per_second() + nanos,
    {
        if MIN_SECONDS <= seconds && seconds <= MAX_SECONDS && nanos < 1_000_000_000 {
            Some(Timestamp { seconds, nanos })
        } else {
            None
        }
    }

    /// The instant `nanos` nanoseconds after the epoch.
    pub fn from_nanos(nanos: i64) -> (at: Timestamp)
        ensures
            at@ == nanos,
    {
        let (seconds, nanos) = datetime_from_nanos(nanos);
        Timestamp { seconds, nanos }
    }

    /// The instant `micros` microseconds after the epoch, where it is in range.
    pub fn from_micros(micros: i64) -> (at: Option<Timestamp>)
        ensures
            at is Some <==> in_range(micros * 1000),
            at matches Some(at) ==> at@ == micros * 1000,
    {
        match datetime_from_micros(micros) {
            Some((seconds, nanos)) => Some(Timestamp { seconds, nanos }),
            None => None,
        }
    }

    /// Whole seconds since the epoch, rounded down.
    pub fn seconds(&self) -> (seconds: i64)
        ensures
            seconds == self@ / nanos_per_second(),
            MIN_SECONDS <= seconds <= MAX_SECONDS,
            in_range(self@),
    {
        proof {
            use_type_invariant(self);
        }
        self.seconds
    }

    /// Nanoseconds since the last whole second.
    pub fn subsec_nanos(&self) -> (nanos: u32)
        ensures
            nanos == self@ % nanos_per_second(),
    {
        proof {
            use_type_invariant(self);
        }
        self.nanos
    }

    /// Whole microseconds since the epoch, rounded down.
    pub fn micros(&self) -> (micros: i64)
        ensures
            micros == self@ / 1000,
    {
        proof {
            use_type_invariant(self);
        }
        self.seconds * 1_000_000 + (self.nanos / 1000) as i64
    }

    /// Whether this instant is before another.
    pub fn is_before(&self, other: &Timestamp) -> (before: bool)
        ensures
            before == (self@ < other@),
    {
        proof {
            use_type_invariant(self);
            use_type_invariant(other);
        }
        self.seconds < other.seconds || (self.seconds == other.seconds && self.nanos < other.nanos)
    }

    /// The instant `millis` milliseconds later, or earlier where it is
    /// negative.
    pub fn plus_millis(&self, millis: i64) -> (at: Timestamp)
        requires
            in_range(self@ + millis * 1_000_000),
        ensures
            at@ == self@ + millis * 1_000_000,
    {
        proof {
            use_type_invariant(self);
        }
        let total: i128 = self.seconds as i128 * 1_000_000_000 + self.nanos as i128
            + millis as i128 * 1_000_000;
        // Shifted to the range's start, so dividing rounds down.
        let shifted: i128 = total - MIN_SECONDS as i128 * 1_000_000_000;
        let seconds: i64 = (shifted / 1_000_000_000) as i64 + MIN_SECONDS;
        let nanos: u32 = (shifted % 1_000_000_000) as u32;
        Timestamp { seconds, nanos }
    }
}

impl TimePartitioned for Timestamp {
    open spec fn instant(&self) -> int {
        self@
    }

    /// Floored against the epoch, which is midnight, so a granularity dividing
    /// a day lands on the boundary its name implies.
    fn partition_start(&self, granularity: Granularity) -> (start: Timestamp) {
        proof {
            use_type_invariant(self);
        }
        let step = granularity.duration();
        let shifted: i64 = self.seconds - MIN_SECONDS;
        let start = Timestamp { seconds: shifted / step * step + MIN_SECONDS, nanos: 0 };
        proof {
            let s = self.seconds as int;
            lemma_partition_floor(self@, granularity);
            lemma_whole_days(s, self.nanos as int);
            assert(step == 86_400);
            assert(start.seconds == s / 86_400 * 86_400);
            assert(self@ == s * 1_000_000_000 + self.nanos);
            assert(start@ == start.seconds * 1_000_000_000);
            assert(self.instant() == self@);
            assert(self@ / 86_400_000_000_000 == s / 86_400);
            assert(partition_floor(self@, granularity) == s / 86_400 * 86_400_000_000_000);
        }
        start
    }
}

proof fn lemma_partition_floor(instant: int, granularity: Granularity)
    ensures
        granularity.nanos() == 86_400_000_000_000,
        partition_floor(instant, granularity) == instant / 86_400_000_000_000
            * 86_400_000_000_000,
{
    assert(granularity.nanos() == 86_400_000_000_000);
}

proof fn lemma_whole_days(seconds: int, nanos: int)
    requires
        0 <= nanos < 1_000_000_000,
    ensures
        (seconds * 1_000_000_000 + nanos) / 86_400_000_000_000 == seconds / 86_400,
        (seconds - MIN_SECONDS) / 86_400 == seconds / 86_400 + 96_465_292,
{
    let days = seconds / 86_400;
    let rest = seconds % 86_400;
    vstd::arithmetic::div_mod::lemma_fundamental_div_mod_converse(
        seconds * 1_000_000_000 + nanos,
        86_400_000_000_000,
        days,
        rest * 1_000_000_000 + nanos,
    );
    vstd::arithmetic::div_mod::lemma_fundamental_div_mod_converse(
        seconds - MIN_SECONDS,
        86_400,
        days + 96_465_292,
        rest,
    );
}

/// A partition holds the instants from its start to the next one's.
pub proof fn partition_holds_its_instants(instant: int, granularity: Granularity)
    ensures
        partition_floor(instant, granularity) <= instant,
        instant < partition_floor(instant, granularity) + granularity.nanos(),
{
    lemma_partition_floor(instant, granularity);
}

/// Truncating to a partition keeps the order of instants.
pub proof fn partitions_keep_the_order_of_instants(
    earlier: int,
    later: int,
    granularity: Granularity,
)
    requires
        earlier <= later,
    ensures
        partition_floor(earlier, granularity) <= partition_floor(later, granularity),
{
    lemma_partition_floor(earlier, granularity);
    lemma_partition_floor(later, granularity);
}

/// A partition starts in itself.
pub proof fn a_partition_starts_in_itself(instant: int, granularity: Granularity)
    ensures
        partition_floor(partition_floor(instant, granularity), granularity) == partition_floor(
            instant,
            granularity,
        ),
{
    lemma_partition_floor(instant, granularity);
    lemma_partition_floor(partition_floor(instant, granularity), granularity);
}

/// An OpenTelemetry id, stored as bytes: 16 for a trace, 8 for a span.
#[derive(Clone, Copy, Debug, PartialEq, Eq, PartialOrd, Ord)]
pub struct Id<const N: usize>(pub [u8; N]);

pub type TraceId = Id<16>;

pub type SpanId = Id<8>;

impl<const N: usize> View for Id<N> {
    type V = Seq<u8>;

    open spec fn view(&self) -> Seq<u8> {
        self.0@
    }
}

impl<const N: usize> From<[u8; N]> for Id<N> {
    fn from(bytes: [u8; N]) -> (id: Self) {
        Id(bytes)
    }
}

impl<const N: usize> vstd::std_specs::convert::FromSpecImpl<[u8; N]> for Id<N> {
    open spec fn obeys_from_spec() -> bool {
        true
    }

    open spec fn from_spec(bytes: [u8; N]) -> Self {
        Id(bytes)
    }
}

/// The array form of a slice, by `<[u8; N]>::try_from`: the same bytes where
/// there are `N` of them, and none otherwise.
#[verifier::external_body]
fn array_from_slice<const N: usize>(bytes: &[u8]) -> (array: Option<[u8; N]>)
    ensures
        array is Some <==> bytes@.len() == N,
        array matches Some(array) ==> array@ == bytes@,
{
    <[u8; N]>::try_from(bytes).ok()
}

impl<const N: usize> Id<N> {
    /// The id some bytes are, where there are as many as it takes.
    pub fn from_slice(bytes: &[u8]) -> (id: Option<Id<N>>)
        ensures
            id is Some <==> bytes@.len() == N,
            id matches Some(id) ==> id@ == bytes@,
    {
        match array_from_slice::<N>(bytes) {
            Some(bytes) => Some(Id(bytes)),
            None => None,
        }
    }

    /// The bytes of the id.
    pub fn bytes(&self) -> (bytes: Vec<u8>)
        ensures
            bytes@ == self@,
    {
        let mut bytes: Vec<u8> = Vec::new();
        let mut i: usize = 0;
        while i < N
            invariant
                i <= N,
                bytes@ == self@.take(i as int),
            decreases N - i,
        {
            bytes.push(self.0[i]);
            i = i + 1;
            assert(bytes@ =~= self@.take(i as int));
        }
        assert(bytes@ =~= self@);
        bytes
    }

    /// Hex, which is how an id is written everywhere a person sees one.
    pub fn to_string(&self) -> (text: String)
        ensures
            text@ == hex(self@),
    {
        hex_text(self.0.as_slice())
    }
}

/// A tag's key and value, as text.
pub type Entry = (Seq<char>, Option<Seq<char>>);

pub open spec fn entry_view(entry: (String, Option<String>)) -> Entry {
    (entry.0@, option_view(entry.1))
}

pub open spec fn entry_views(entries: Seq<(String, Option<String>)>) -> Seq<Entry> {
    entries.map_values(|entry: (String, Option<String>)| entry_view(entry))
}

/// What each key of a list stands for: the value it was given last.
pub open spec fn last_values(entries: Seq<Entry>) -> Map<Seq<char>, Option<Seq<char>>>
    decreases entries.len(),
{
    if entries.len() == 0 {
        Map::empty()
    } else {
        last_values(entries.drop_last()).insert(entries.last().0, entries.last().1)
    }
}

/// Whether the keys of a list are in order, none of them twice.
pub open spec fn keys_ascend(entries: Seq<Entry>) -> bool {
    forall|i: int, j: int|
        0 <= i < j < entries.len() ==> text_lt(#[trigger] entries[i].0, #[trigger] entries[j].0)
}

pub proof fn lemma_last_values_keys(entries: Seq<Entry>, key: Seq<char>)
    ensures
        last_values(entries).contains_key(key) <==> exists|i: int|
            0 <= i < entries.len() && (#[trigger] entries[i]).0 == key,
    decreases entries.len(),
{
    if entries.len() > 0 {
        let front = entries.drop_last();
        lemma_last_values_keys(front, key);
        if last_values(front).contains_key(key) {
            let i = choose|i: int| 0 <= i < front.len() && (#[trigger] front[i]).0 == key;
            assert(entries[i].0 == key);
        }
        assert(entries.last() == entries[entries.len() - 1]);
        if exists|i: int| 0 <= i < entries.len() && (#[trigger] entries[i]).0 == key {
            let i = choose|i: int| 0 <= i < entries.len() && (#[trigger] entries[i]).0 == key;
            if i < front.len() {
                assert(front[i].0 == key);
            }
        }
    }
}

pub proof fn lemma_last_values_of_ascending(entries: Seq<Entry>, i: int)
    requires
        keys_ascend(entries),
        0 <= i < entries.len(),
    ensures
        last_values(entries).contains_key(entries[i].0),
        last_values(entries)[entries[i].0] == entries[i].1,
    decreases entries.len(),
{
    let front = entries.drop_last();
    if i < front.len() {
        assert(front[i] == entries[i]);
        lemma_last_values_of_ascending(front, i);
        lemma_text_lt_asymmetric(entries[i].0, entries[entries.len() - 1].0);
    }
}

/// The value under a key is the last one given for it.
pub proof fn lemma_last_value(entries: Seq<Entry>, i: int)
    requires
        0 <= i < entries.len(),
        forall|k: int| i < k < entries.len() ==> (#[trigger] entries[k]).0 != entries[i].0,
    ensures
        last_values(entries).contains_key(entries[i].0),
        last_values(entries)[entries[i].0] == entries[i].1,
    decreases entries.len(),
{
    if i < entries.len() - 1 {
        let front = entries.drop_last();
        assert forall|k: int| i < k < front.len() implies (#[trigger] front[k]).0
            != front[i].0 by {
            assert(front[k] == entries[k]);
        }
        lemma_last_value(front, i);
        assert(entries.last() == entries[entries.len() - 1]);
    }
}

/// Lists in key order with the same values are the same list.
proof fn lemma_ascending_entries_unique(a: Seq<Entry>, b: Seq<Entry>)
    requires
        keys_ascend(a),
        keys_ascend(b),
        last_values(a) == last_values(b),
    ensures
        a == b,
    decreases a.len(),
{
    if a.len() == 0 {
        if b.len() > 0 {
            lemma_last_values_of_ascending(b, 0);
        }
        assert(a =~= b);
    } else {
        let last = a.last();
        lemma_last_values_of_ascending(a, a.len() - 1);
        lemma_last_values_keys(b, last.0);
        let j = choose|j: int| 0 <= j < b.len() && (#[trigger] b[j]).0 == last.0;
        lemma_last_values_of_ascending(b, j);
        if j < b.len() - 1 {
            let beyond = b[b.len() - 1];
            lemma_last_values_of_ascending(b, b.len() - 1);
            lemma_last_values_keys(a, beyond.0);
            let i = choose|i: int| 0 <= i < a.len() && (#[trigger] a[i]).0 == beyond.0;
            assert(text_lt(b[j].0, beyond.0));
            if i < a.len() - 1 {
                assert(text_lt(a[i].0, a[a.len() - 1].0));
                lemma_text_lt_asymmetric(beyond.0, last.0);
            } else {
                lemma_text_lt_asymmetric(b[j].0, beyond.0);
            }
        }
        let front_a = a.drop_last();
        let front_b = b.drop_last();
        assert(b.last() == last);
        assert forall|key: Seq<char>| #[trigger]
            last_values(front_a).contains_key(key) == last_values(front_b).contains_key(key)
                && (last_values(front_a).contains_key(key) ==> last_values(front_a)[key]
                == last_values(front_b)[key]) by {
            lemma_last_values_keys(front_a, key);
            lemma_last_values_keys(front_b, key);
            if last_values(front_a).contains_key(key) {
                let i = choose|i: int| 0 <= i < front_a.len() && (#[trigger] front_a[i]).0 == key;
                assert(text_lt(a[i].0, a[a.len() - 1].0));
                lemma_text_lt_asymmetric(key, last.0);
                assert(last_values(a).contains_key(key));
                assert(last_values(b)[key] == last_values(front_b)[key]);
            }
            if last_values(front_b).contains_key(key) {
                let i = choose|i: int| 0 <= i < front_b.len() && (#[trigger] front_b[i]).0 == key;
                assert(text_lt(b[i].0, b[b.len() - 1].0));
                lemma_text_lt_asymmetric(key, last.0);
                assert(last_values(b).contains_key(key));
            }
        }
        assert(last_values(front_a) =~= last_values(front_b));
        lemma_ascending_entries_unique(front_a, front_b);
        assert(a =~= front_a.push(last));
        assert(b =~= front_b.push(last));
    }
}

/// Free-form key-value annotations on a record. Kept in key order, so the same
/// tags always encode identically. A value is optional: a bare tag is a key
/// with none.
#[derive(Debug, PartialEq, Eq)]
pub struct Tags {
    entries: Vec<(String, Option<String>)>,
}

impl View for Tags {
    type V = Map<Seq<char>, Option<Seq<char>>>;

    open spec fn view(&self) -> Map<Seq<char>, Option<Seq<char>>> {
        last_values(self.entries())
    }
}

impl Tags {
    /// The tags in key order.
    pub closed spec fn entries(&self) -> Seq<Entry> {
        entry_views(self.entries@)
    }

    #[verifier::type_invariant]
    pub open spec fn sorted(&self) -> bool {
        keys_ascend(self.entries())
    }

    /// No tags at all.
    pub fn new() -> (tags: Tags)
        ensures
            tags.entries() == Seq::<Entry>::empty(),
            tags@ == Map::<Seq<char>, Option<Seq<char>>>::empty(),
    {
        let tags = Tags { entries: Vec::new() };
        assert(tags.entries() =~= Seq::<Entry>::empty());
        tags
    }

    /// The tags a list gives. A key given twice keeps the later value.
    pub fn from_iter(tags: Vec<(String, Option<String>)>) -> (collected: Tags)
        ensures
            collected@ == last_values(entry_views(tags@)),
            collected.sorted(),
    {
        let ghost given = entry_views(tags@);
        let mut collected = Tags::new();
        assert(given.take(0) =~= Seq::<Entry>::empty());
        for entry in iter: tags
            invariant
                given == entry_views(iter.seq()),
                collected@ == last_values(given.take(iter.index())),
        {
            assert(given.take(iter.index() + 1).drop_last() =~= given.take(iter.index()));
            let (key, value) = entry;
            collected.insert(key, value);
        }
        assert(given.take(given.len() as int) =~= given);
        proof {
            use_type_invariant(&collected);
        }
        collected
    }

    /// How many tags there are.
    pub fn len(&self) -> (len: usize)
        ensures
            len == self.entries().len(),
    {
        self.entries.len()
    }

    /// The key of one tag, counted in key order.
    pub fn key(&self, i: usize) -> (key: &str)
        requires
            i < self.entries().len(),
        ensures
            key@ == self.entries()[i as int].0,
    {
        self.entries[i].0.as_str()
    }

    /// The value of one tag, counted in key order.
    pub fn value(&self, i: usize) -> (value: Option<&str>)
        requires
            i < self.entries().len(),
        ensures
            str_view(value) == self.entries()[i as int].1,
    {
        match &self.entries[i].1 {
            Some(value) => Some(value.as_str()),
            None => None,
        }
    }

    /// Gives `key` the value `value`, in place of one it has.
    pub fn insert(&mut self, key: String, value: Option<String>)
        ensures
            final(self)@ == old(self)@.insert(key@, option_view(value)),
    {
        proof {
            use_type_invariant(&*self);
        }
        let ghost before = self.entries();
        let ghost entry = (key@, option_view(value));
        let mut entries: Vec<(String, Option<String>)> = Vec::new();
        std::mem::swap(&mut entries, &mut self.entries);
        let mut i: usize = 0;
        while i < entries.len() && text_less(entries[i].0.as_str(), key.as_str())
            invariant
                i <= entries.len(),
                entry_views(entries@) == before,
                forall|k: int| 0 <= k < i ==> text_lt((#[trigger] before[k]).0, key@),
            decreases entries.len() - i,
        {
            assert(before[i as int].0 == entries@[i as int].0@);
            i = i + 1;
        }
        assert(i < entries.len() ==> before[i as int].0 == entries@[i as int].0@);
        if i < entries.len() && entries[i].0 == key {
            let ghost old_entries = entries@;
            entries.set(i, (key, value));
            proof {
                let after = entry_views(entries@);
                assert(after =~= before.update(i as int, entry));
                lemma_replaced(before, i as int, entry);
            }
        } else {
            entries.insert(i, (key, value));
            proof {
                let after = entry_views(entries@);
                assert(after =~= before.insert(i as int, entry));
                lemma_inserted(before, i as int, entry);
            }
        }
        self.entries = entries;
    }
}

impl Default for Tags {
    fn default() -> (tags: Tags)
        ensures
            tags@ == Map::<Seq<char>, Option<Seq<char>>>::empty(),
            tags.entries() == Seq::<Entry>::empty(),
    {
        Tags::new()
    }
}

impl Clone for Tags {
    fn clone(&self) -> (tags: Tags)
        ensures
            tags.entries() == self.entries(),
            tags@ == self@,
    {
        proof {
            use_type_invariant(self);
        }
        let mut entries: Vec<(String, Option<String>)> = Vec::new();
        let mut i: usize = 0;
        while i < self.entries.len()
            invariant
                i <= self.entries.len(),
                entry_views(entries@) == self.entries().take(i as int),
            decreases self.entries.len() - i,
        {
            let value = match &self.entries[i].1 {
                Some(value) => Some(value.clone()),
                None => None,
            };
            let ghost before = entries@;
            entries.push((self.entries[i].0.clone(), value));
            i = i + 1;
            assert(entry_views(entries@) =~= entry_views(before).push(
                self.entries()[i - 1],
            ));
            assert(entry_views(entries@) =~= self.entries().take(i as int));
        }
        assert(self.entries().take(i as int) =~= self.entries());
        Tags { entries }
    }
}

/// Tags with the same keys and values encode identically, in whatever order
/// they were given.
pub proof fn same_tags_encode_identically(a: Tags, b: Tags)
    requires
        a.sorted(),
        b.sorted(),
        a@ == b@,
    ensures
        a.entries() == b.entries(),
{
    lemma_ascending_entries_unique(a.entries(), b.entries());
}

/// Whether no key of a list is given twice.
pub open spec fn keys_differ(entries: Seq<Entry>) -> bool {
    forall|i: int, j: int|
        0 <= i < j < entries.len() ==> (#[trigger] entries[i]).0 != (#[trigger] entries[j]).0
}

proof fn lemma_last_values_of_different(entries: Seq<Entry>, i: int)
    requires
        keys_differ(entries),
        0 <= i < entries.len(),
    ensures
        last_values(entries).contains_key(entries[i].0),
        last_values(entries)[entries[i].0] == entries[i].1,
    decreases entries.len(),
{
    let front = entries.drop_last();
    if i < front.len() {
        assert(keys_differ(front)) by {
            assert forall|a: int, b: int| 0 <= a < b < front.len() implies (
            #[trigger] front[a]).0 != (#[trigger] front[b]).0 by {
                assert(front[a] == entries[a] && front[b] == entries[b]);
            }
        }
        assert(front[i] == entries[i]);
        lemma_last_values_of_different(front, i);
        assert(entries[i].0 != entries[entries.len() - 1].0);
    }
}

/// Lists of the same pairs, no key in them twice, give the same tags, whatever
/// order they are in.
pub proof fn tags_given_in_any_order_are_the_same(a: Seq<Entry>, b: Seq<Entry>)
    requires
        keys_differ(a),
        keys_differ(b),
        forall|entry: Entry| a.contains(entry) <==> b.contains(entry),
    ensures
        last_values(a) == last_values(b),
{
    lemma_values_are_among(a, b);
    lemma_values_are_among(b, a);
    assert forall|key: Seq<char>| #[trigger]
        last_values(a).contains_key(key) == last_values(b).contains_key(key) && (last_values(
            a,
        ).contains_key(key) ==> last_values(a)[key] == last_values(b)[key]) by {
        if last_values(a).contains_key(key) {
            assert(last_values(b).contains_key(key));
        }
    }
    assert(last_values(a) =~= last_values(b));
}

proof fn lemma_values_are_among(a: Seq<Entry>, b: Seq<Entry>)
    requires
        keys_differ(a),
        keys_differ(b),
        forall|entry: Entry| a.contains(entry) <==> b.contains(entry),
    ensures
        forall|key: Seq<char>| #[trigger]
            last_values(a).contains_key(key) ==> last_values(b).contains_key(key) && last_values(
                b,
            )[key] == last_values(a)[key],
{
    assert forall|key: Seq<char>| #[trigger] last_values(a).contains_key(key) implies last_values(
        b,
    ).contains_key(key) && last_values(b)[key] == last_values(a)[key] by {
        lemma_last_values_keys(a, key);
        let i = choose|i: int| 0 <= i < a.len() && (#[trigger] a[i]).0 == key;
        lemma_last_values_of_different(a, i);
        assert(a.contains(a[i]));
        assert(b.contains(a[i]));
        let j = choose|j: int| 0 <= j < b.len() && b[j] == a[i];
        lemma_last_values_of_different(b, j);
    }
}

proof fn lemma_replaced(before: Seq<Entry>, i: int, entry: Entry)
    requires
        keys_ascend(before),
        0 <= i < before.len(),
        before[i].0 == entry.0,
    ensures
        keys_ascend(before.update(i, entry)),
        last_values(before.update(i, entry)) == last_values(before).insert(entry.0, entry.1),
{
    let after = before.update(i, entry);
    assert forall|key: Seq<char>| #[trigger]
        last_values(after).contains_key(key) == last_values(before).insert(
            entry.0,
            entry.1,
        ).contains_key(key) && (last_values(after).contains_key(key) ==> last_values(after)[key]
            == last_values(before).insert(entry.0, entry.1)[key]) by {
        lemma_last_values_keys(after, key);
        lemma_last_values_keys(before, key);
        if last_values(after).contains_key(key) {
            let j = choose|j: int| 0 <= j < after.len() && (#[trigger] after[j]).0 == key;
            assert(before[j].0 == key);
            lemma_last_values_of_ascending(after, j);
            lemma_last_values_of_ascending(before, j);
            if j != i {
                if j < i {
                    lemma_text_lt_asymmetric(before[j].0, before[i].0);
                } else {
                    lemma_text_lt_asymmetric(before[i].0, before[j].0);
                }
            }
        }
        if last_values(before).contains_key(key) {
            let j = choose|j: int| 0 <= j < before.len() && (#[trigger] before[j]).0 == key;
            assert(after[j].0 == key);
        }
        assert(after[i].0 == entry.0);
    }
    assert(last_values(after) =~= last_values(before).insert(entry.0, entry.1));
}

proof fn lemma_inserted(before: Seq<Entry>, i: int, entry: Entry)
    requires
        keys_ascend(before),
        0 <= i <= before.len(),
        forall|k: int| 0 <= k < i ==> text_lt((#[trigger] before[k]).0, entry.0),
        i < before.len() ==> text_lt(entry.0, before[i].0),
    ensures
        keys_ascend(before.insert(i, entry)),
        last_values(before.insert(i, entry)) == last_values(before).insert(entry.0, entry.1),
{
    let after = before.insert(i, entry);
    assert forall|k: int| i <= k < before.len() implies text_lt(
        entry.0,
        (#[trigger] before[k]).0,
    ) by {
        if k > i {
            lemma_text_lt_transitive(entry.0, before[i].0, before[k].0);
        }
    }
    assert forall|a: int, b: int| 0 <= a < b < after.len() implies text_lt(
        (#[trigger] after[a]).0,
        (#[trigger] after[b]).0,
    ) by {
        let x = if a < i {
            a
        } else {
            a - 1
        };
        let y = if b < i {
            b
        } else {
            b - 1
        };
        if a != i {
            assert(after[a] == before[x]);
        }
        if b != i {
            assert(after[b] == before[y]);
        }
    }
    assert forall|key: Seq<char>| #[trigger]
        last_values(after).contains_key(key) == last_values(before).insert(
            entry.0,
            entry.1,
        ).contains_key(key) && (last_values(after).contains_key(key) ==> last_values(after)[key]
            == last_values(before).insert(entry.0, entry.1)[key]) by {
        lemma_last_values_keys(after, key);
        lemma_last_values_keys(before, key);
        assert(after[i] == entry);
        if last_values(after).contains_key(key) {
            let j = choose|j: int| 0 <= j < after.len() && (#[trigger] after[j]).0 == key;
            lemma_last_values_of_ascending(after, j);
            if j != i {
                let x = if j < i {
                    j
                } else {
                    j - 1
                };
                assert(before[x] == after[j]);
                lemma_last_values_of_ascending(before, x);
                if j < i {
                    lemma_text_lt_asymmetric(after[j].0, after[i].0);
                } else {
                    lemma_text_lt_asymmetric(after[i].0, after[j].0);
                }
            }
        }
        if last_values(before).contains_key(key) {
            let j = choose|j: int| 0 <= j < before.len() && (#[trigger] before[j]).0 == key;
            if j < i {
                assert(after[j].0 == key);
            } else {
                assert(after[j + 1].0 == key);
            }
        }
    }
    assert(last_values(after) =~= last_values(before).insert(entry.0, entry.1));
}

/// A partition is a day: it starts at a midnight, a whole number of days from
/// the epoch, and an instant is in the one that starts no more than a day
/// before it.
pub proof fn a_partition_is_a_day(instant: int, granularity: Granularity)
    ensures
        partition_floor(instant, granularity) % 86_400_000_000_000 == 0,
        partition_floor(instant, granularity) <= instant,
        instant < partition_floor(instant, granularity) + 86_400_000_000_000,
{
    lemma_partition_floor(instant, granularity);
}

/// The instants that can be held are those of the years -262143 to 262142,
/// whose first and last second these are.
pub proof fn an_instant_is_held_within_its_limits(instant: int)
    ensures
        in_range(instant) <==> -8_334_601_228_800 <= instant / 1_000_000_000 <= 8_210_266_876_799,
{
}

} // verus!
