//! The order rows are stored in: column by column, and the sort that puts them
//! there.

use vstd::prelude::*;

use crate::text::{
    lemma_text_lt_irreflexive, lemma_text_lt_transitive, text_less, text_lt, text_order_is_total,
};

verus! {

/// One column's part in a row's place.
#[derive(Debug, PartialEq, Eq)]
pub enum KeyPart {
    Text(String),
    Bytes(Vec<u8>),
    /// The larger, the earlier.
    Descending(i64),
}

/// One column's part in a row's place, as plain values.
pub enum Part {
    Text(Seq<char>),
    Bytes(Seq<u8>),
    Descending(int),
}

impl View for KeyPart {
    type V = Part;

    open spec fn view(&self) -> Part {
        match self {
            KeyPart::Text(text) => Part::Text(text@),
            KeyPart::Bytes(bytes) => Part::Bytes(bytes@),
            KeyPart::Descending(count) => Part::Descending(*count as int),
        }
    }
}

pub open spec fn key_view(key: Seq<KeyPart>) -> Seq<Part> {
    key.map_values(|part: KeyPart| part@)
}

/// Whether `a` and `b` agree before position `i` and `a` comes first there.
pub open spec fn bytes_smaller_at(a: Seq<u8>, b: Seq<u8>, i: int) -> bool {
    &&& 0 <= i <= a.len()
    &&& i < b.len()
    &&& a.take(i) == b.take(i)
    &&& i == a.len() || a[i] < b[i]
}

/// The order of bytes: by their first difference.
pub open spec fn bytes_lt(a: Seq<u8>, b: Seq<u8>) -> bool {
    exists|i: int| bytes_smaller_at(a, b, i)
}

/// Which of two kinds of part comes first, where a column mixes them.
pub open spec fn rank(part: Part) -> int {
    match part {
        Part::Text(_) => 0,
        Part::Bytes(_) => 1,
        Part::Descending(_) => 2,
    }
}

pub open spec fn part_lt(a: Part, b: Part) -> bool {
    match (a, b) {
        (Part::Text(a), Part::Text(b)) => text_lt(a, b),
        (Part::Bytes(a), Part::Bytes(b)) => bytes_lt(a, b),
        (Part::Descending(a), Part::Descending(b)) => b < a,
        _ => rank(a) < rank(b),
    }
}

pub open spec fn key_smaller_at(a: Seq<Part>, b: Seq<Part>, i: int) -> bool {
    &&& 0 <= i <= a.len()
    &&& i < b.len()
    &&& a.take(i) == b.take(i)
    &&& i == a.len() || part_lt(a[i], b[i])
}

/// Whether a row with key `a` comes before one with key `b`: by the first
/// column they differ in.
pub open spec fn key_lt(a: Seq<Part>, b: Seq<Part>) -> bool {
    exists|i: int| key_smaller_at(a, b, i)
}

pub open spec fn key_le(a: Seq<Part>, b: Seq<Part>) -> bool {
    !key_lt(b, a)
}

proof fn lemma_bytes_lt_transitive(a: Seq<u8>, b: Seq<u8>, c: Seq<u8>)
    requires
        bytes_lt(a, b),
        bytes_lt(b, c),
    ensures
        bytes_lt(a, c),
{
    let i = choose|i: int| bytes_smaller_at(a, b, i);
    let j = choose|j: int| bytes_smaller_at(b, c, j);
    let k = if i <= j {
        i
    } else {
        j
    };
    assert(a.take(k) =~= c.take(k)) by {
        assert(a.take(i).take(k) =~= a.take(k));
        assert(b.take(i).take(k) =~= b.take(k));
        assert(b.take(j).take(k) =~= b.take(k));
        assert(c.take(j).take(k) =~= c.take(k));
    }
    if i < j {
        assert(b.take(j)[i] == c.take(j)[i]);
    } else if j < i {
        assert(a.take(i)[j] == b.take(i)[j]);
    }
    assert(bytes_smaller_at(a, c, k));
}

pub proof fn lemma_bytes_lt_irreflexive(a: Seq<u8>)
    ensures
        !bytes_lt(a, a),
{
    if bytes_lt(a, a) {
        let i = choose|i: int| bytes_smaller_at(a, a, i);
        assert(bytes_smaller_at(a, a, i));
    }
}

/// Whether some bytes come before others.
pub fn bytes_less(a: &[u8], b: &[u8]) -> (less: bool)
    ensures
        less == bytes_lt(a@, b@),
        !less ==> a@ == b@ || bytes_lt(b@, a@),
{
    let mut i: usize = 0;
    while i < a.len() && i < b.len() && a[i] == b[i]
        invariant
            i <= a.len(),
            i <= b.len(),
            forall|k: int| 0 <= k < i ==> a@[k] == b@[k],
        decreases a.len() - i,
    {
        i = i + 1;
    }
    assert(a@.take(i as int) =~= b@.take(i as int));
    let less = i < b.len() && (i == a.len() || a[i] < b[i]);
    proof {
        if less {
            assert(bytes_smaller_at(a@, b@, i as int));
        } else {
            if i == b.len() && i == a.len() {
                assert(a@ =~= b@);
            } else {
                assert(bytes_smaller_at(b@, a@, i as int));
            }
            if bytes_lt(a@, b@) {
                if bytes_lt(b@, a@) {
                    lemma_bytes_lt_transitive(a@, b@, a@);
                }
                lemma_bytes_lt_irreflexive(a@);
            }
        }
    }
    less
}

proof fn lemma_part_lt_irreflexive(a: Part)
    ensures
        !part_lt(a, a),
{
    match a {
        Part::Text(text) => lemma_text_lt_irreflexive(text),
        Part::Bytes(bytes) => lemma_bytes_lt_irreflexive(bytes),
        Part::Descending(_) => {},
    }
}

proof fn lemma_part_lt_transitive(a: Part, b: Part, c: Part)
    requires
        part_lt(a, b),
        part_lt(b, c),
    ensures
        part_lt(a, c),
{
    match (a, b, c) {
        (Part::Text(x), Part::Text(y), Part::Text(z)) => lemma_text_lt_transitive(x, y, z),
        (Part::Bytes(x), Part::Bytes(y), Part::Bytes(z)) => lemma_bytes_lt_transitive(x, y, z),
        _ => {},
    }
}

/// Whether one column's part comes before another's.
fn part_less(a: &KeyPart, b: &KeyPart) -> (less: bool)
    ensures
        less == part_lt(a@, b@),
        !less ==> a@ == b@ || part_lt(b@, a@),
{
    match (a, b) {
        (KeyPart::Text(x), KeyPart::Text(y)) => text_less(x.as_str(), y.as_str()),
        (KeyPart::Bytes(x), KeyPart::Bytes(y)) => bytes_less(x.as_slice(), y.as_slice()),
        (KeyPart::Descending(x), KeyPart::Descending(y)) => *y < *x,
        (KeyPart::Text(_), _) => true,
        (KeyPart::Bytes(_), KeyPart::Descending(_)) => true,
        _ => false,
    }
}

pub proof fn lemma_key_lt_irreflexive(a: Seq<Part>)
    ensures
        !key_lt(a, a),
{
    if key_lt(a, a) {
        let i = choose|i: int| key_smaller_at(a, a, i);
        assert(key_smaller_at(a, a, i));
        lemma_part_lt_irreflexive(a[i]);
    }
}

pub proof fn lemma_key_lt_transitive(a: Seq<Part>, b: Seq<Part>, c: Seq<Part>)
    requires
        key_lt(a, b),
        key_lt(b, c),
    ensures
        key_lt(a, c),
{
    let i = choose|i: int| key_smaller_at(a, b, i);
    let j = choose|j: int| key_smaller_at(b, c, j);
    let k = if i <= j {
        i
    } else {
        j
    };
    assert(a.take(k) =~= c.take(k)) by {
        assert(a.take(i).take(k) =~= a.take(k));
        assert(b.take(i).take(k) =~= b.take(k));
        assert(b.take(j).take(k) =~= b.take(k));
        assert(c.take(j).take(k) =~= c.take(k));
    }
    if i < j {
        assert(b.take(j)[i] == c.take(j)[i]);
    } else if j < i {
        assert(a.take(i)[j] == b.take(i)[j]);
    } else if i < a.len() {
        lemma_part_lt_transitive(a[i], b[i], c[i]);
    }
    assert(key_smaller_at(a, c, k));
}

/// Whether a row with key `a` comes before one with key `b`.
pub fn key_less(a: &Vec<KeyPart>, b: &Vec<KeyPart>) -> (less: bool)
    ensures
        less == key_lt(key_view(a@), key_view(b@)),
        !less ==> key_view(a@) == key_view(b@) || key_lt(key_view(b@), key_view(a@)),
{
    let ghost x = key_view(a@);
    let ghost y = key_view(b@);
    let mut i: usize = 0;
    while i < a.len() && i < b.len()
        invariant
            x == key_view(a@),
            y == key_view(b@),
            i <= a.len(),
            i <= b.len(),
            x.take(i as int) == y.take(i as int),
        decreases a.len() - i,
    {
        if part_less(&a[i], &b[i]) {
            assert(key_smaller_at(x, y, i as int));
            return true;
        }
        if part_less(&b[i], &a[i]) {
            assert(key_smaller_at(y, x, i as int));
            proof {
                if key_lt(x, y) {
                    lemma_key_lt_transitive(x, y, x);
                    lemma_key_lt_irreflexive(x);
                }
            }
            return false;
        }
        assert(x[i as int] == y[i as int]);
        assert(x.take(i + 1) =~= x.take(i as int).push(x[i as int]));
        assert(y.take(i + 1) =~= y.take(i as int).push(y[i as int]));
        i = i + 1;
    }
    let less = i < b.len();
    proof {
        if less {
            assert(key_smaller_at(x, y, i as int));
        } else {
            if i < a.len() {
                assert(key_smaller_at(y, x, i as int));
            } else {
                assert(x =~= x.take(i as int));
                assert(y =~= y.take(i as int));
            }
            if key_lt(x, y) {
                if key_lt(y, x) {
                    lemma_key_lt_transitive(x, y, x);
                }
                lemma_key_lt_irreflexive(x);
            }
        }
    }
    less
}

/// Whether two keys are the same.
pub fn same_key(a: &Vec<KeyPart>, b: &Vec<KeyPart>) -> (same: bool)
    ensures
        same == (key_view(a@) == key_view(b@)),
{
    proof {
        lemma_key_lt_irreflexive(key_view(a@));
    }
    !key_less(a, b) && !key_less(b, a)
}

/// The keys of rows, as plain values.
pub open spec fn key_views(keys: Seq<Vec<KeyPart>>) -> Seq<Seq<Part>> {
    keys.map_values(|key: Vec<KeyPart>| key_view(key@))
}

/// Two keys are equal or one comes before the other.
pub proof fn key_order_is_total(a: Seq<Part>, b: Seq<Part>)
    ensures
        key_lt(a, b) || a == b || key_lt(b, a),
    decreases a.len(),
{
    if a.len() == 0 || b.len() == 0 {
        assert(a.take(0) =~= b.take(0));
        if b.len() > 0 {
            assert(key_smaller_at(a, b, 0));
        } else if a.len() > 0 {
            assert(key_smaller_at(b, a, 0));
        } else {
            assert(a =~= b);
        }
    } else {
        assert(a.take(0) =~= b.take(0));
        lemma_part_order_is_total(a[0], b[0]);
        if part_lt(a[0], b[0]) {
            assert(key_smaller_at(a, b, 0));
        } else if part_lt(b[0], a[0]) {
            assert(key_smaller_at(b, a, 0));
        } else {
            let x = a.drop_first();
            let y = b.drop_first();
            key_order_is_total(x, y);
            if key_lt(x, y) {
                let i = choose|i: int| key_smaller_at(x, y, i);
                assert(a.take(i + 1) =~= seq![a[0]] + x.take(i));
                assert(b.take(i + 1) =~= seq![a[0]] + y.take(i));
                assert(key_smaller_at(a, b, i + 1));
            } else if key_lt(y, x) {
                let i = choose|i: int| key_smaller_at(y, x, i);
                assert(a.take(i + 1) =~= seq![a[0]] + x.take(i));
                assert(b.take(i + 1) =~= seq![a[0]] + y.take(i));
                assert(key_smaller_at(b, a, i + 1));
            } else {
                assert(a =~= seq![a[0]] + x);
                assert(b =~= seq![b[0]] + y);
            }
        }
    }
}

proof fn lemma_part_order_is_total(a: Part, b: Part)
    ensures
        part_lt(a, b) || a == b || part_lt(b, a),
{
    match (a, b) {
        (Part::Text(x), Part::Text(y)) => text_order_is_total(x, y),
        (Part::Bytes(x), Part::Bytes(y)) => lemma_bytes_order_is_total(x, y),
        _ => {},
    }
}

proof fn lemma_bytes_order_is_total(a: Seq<u8>, b: Seq<u8>)
    ensures
        bytes_lt(a, b) || a == b || bytes_lt(b, a),
    decreases a.len(),
{
    assert(a.take(0) =~= b.take(0));
    if a.len() == 0 || b.len() == 0 {
        if b.len() > 0 {
            assert(bytes_smaller_at(a, b, 0));
        } else if a.len() > 0 {
            assert(bytes_smaller_at(b, a, 0));
        } else {
            assert(a =~= b);
        }
    } else if a[0] < b[0] {
        assert(bytes_smaller_at(a, b, 0));
    } else if b[0] < a[0] {
        assert(bytes_smaller_at(b, a, 0));
    } else {
        let x = a.drop_first();
        let y = b.drop_first();
        lemma_bytes_order_is_total(x, y);
        if bytes_lt(x, y) {
            let i = choose|i: int| bytes_smaller_at(x, y, i);
            assert(a.take(i + 1) =~= seq![a[0]] + x.take(i));
            assert(b.take(i + 1) =~= seq![a[0]] + y.take(i));
            assert(bytes_smaller_at(a, b, i + 1));
        } else if bytes_lt(y, x) {
            let i = choose|i: int| bytes_smaller_at(y, x, i);
            assert(a.take(i + 1) =~= seq![a[0]] + x.take(i));
            assert(b.take(i + 1) =~= seq![a[0]] + y.take(i));
            assert(bytes_smaller_at(b, a, i + 1));
        } else {
            assert(a =~= seq![a[0]] + x);
            assert(b =~= seq![b[0]] + y);
        }
    }
}

proof fn lemma_key_le_transitive(a: Seq<Part>, b: Seq<Part>, c: Seq<Part>)
    requires
        key_le(a, b),
        key_le(b, c),
    ensures
        key_le(a, c),
{
    if key_lt(c, a) {
        key_order_is_total(a, b);
        if key_lt(a, b) {
            lemma_key_lt_transitive(c, a, b);
        }
    }
}

/// Some of the rows, by their positions.
pub open spec fn picked<T>(rows: Seq<T>, positions: Seq<usize>) -> Seq<T> {
    positions.map_values(|i: usize| rows[i as int])
}

/// Whether positions are in the order of the keys there.
pub open spec fn in_key_order(keys: Seq<Seq<Part>>, positions: Seq<usize>) -> bool {
    forall|i: int, j: int|
        0 <= i < j < positions.len() ==> key_le(
            keys[#[trigger] positions[i] as int],
            keys[#[trigger] positions[j] as int],
        )
}

pub open spec fn in_bounds(positions: Seq<usize>, len: nat) -> bool {
    forall|i: int| 0 <= i < positions.len() ==> #[trigger] positions[i] < len
}

/// Where each row goes: the positions of the rows in key order, each of them
/// once.
pub fn sort_positions<T>(keys: &Vec<Vec<KeyPart>>, rows: &Vec<T>) -> (positions: Vec<usize>)
    requires
        keys@.len() == rows@.len(),
    ensures
        in_bounds(positions@, rows@.len()),
        picked(rows@, positions@).to_multiset() == rows@.to_multiset(),
        in_key_order(key_views(keys@), positions@),
{
    let positions = sort_range(keys, rows, 0, rows.len());
    assert(rows@.subrange(0, rows@.len() as int) =~= rows@);
    positions
}

fn sort_range<T>(keys: &Vec<Vec<KeyPart>>, rows: &Vec<T>, from: usize, to: usize) -> (positions:
    Vec<usize>)
    requires
        keys@.len() == rows@.len(),
        from <= to <= rows@.len(),
    ensures
        in_bounds(positions@, rows@.len()),
        picked(rows@, positions@).to_multiset() == rows@.subrange(
            from as int,
            to as int,
        ).to_multiset(),
        in_key_order(key_views(keys@), positions@),
    decreases to - from,
{
    if to - from < 2 {
        let mut positions: Vec<usize> = Vec::new();
        if from < to {
            positions.push(from);
        }
        assert(picked(rows@, positions@) =~= rows@.subrange(from as int, to as int));
        return positions;
    }
    let middle: usize = from + (to - from) / 2;
    let left = sort_range(keys, rows, from, middle);
    let right = sort_range(keys, rows, middle, to);
    let positions = merge_positions(keys, rows, &left, &right);
    proof {
        let a = rows@.subrange(from as int, middle as int);
        let b = rows@.subrange(middle as int, to as int);
        assert(a + b =~= rows@.subrange(from as int, to as int));
        vstd::seq_lib::lemma_multiset_commutative(a, b);
    }
    positions
}

fn merge_positions<T>(
    keys: &Vec<Vec<KeyPart>>,
    rows: &Vec<T>,
    left: &Vec<usize>,
    right: &Vec<usize>,
) -> (positions: Vec<usize>)
    requires
        keys@.len() == rows@.len(),
        in_bounds(left@, rows@.len()),
        in_bounds(right@, rows@.len()),
        in_key_order(key_views(keys@), left@),
        in_key_order(key_views(keys@), right@),
    ensures
        in_bounds(positions@, rows@.len()),
        picked(rows@, positions@).to_multiset() == picked(rows@, left@).to_multiset().add(
            picked(rows@, right@).to_multiset(),
        ),
        in_key_order(key_views(keys@), positions@),
{
    let ghost k = key_views(keys@);
    let mut positions: Vec<usize> = Vec::new();
    let mut i: usize = 0;
    let mut j: usize = 0;
    assert(picked(rows@, left@).take(0) =~= Seq::<T>::empty());
    assert(picked(rows@, right@).take(0) =~= Seq::<T>::empty());
    assert(picked(rows@, positions@) =~= Seq::<T>::empty());
    assert(Seq::<T>::empty().to_multiset() =~= Seq::<T>::empty().to_multiset().add(
        Seq::<T>::empty().to_multiset(),
    )) by {
        Seq::<T>::empty().to_multiset_ensures();
    }
    while i < left.len() || j < right.len()
        invariant
            k == key_views(keys@),
            keys@.len() == rows@.len(),
            in_bounds(left@, rows@.len()),
            in_bounds(right@, rows@.len()),
            in_key_order(k, left@),
            in_key_order(k, right@),
            i <= left.len(),
            j <= right.len(),
            in_bounds(positions@, rows@.len()),
            in_key_order(k, positions@),
            picked(rows@, positions@).to_multiset() == picked(rows@, left@).take(
                i as int,
            ).to_multiset().add(picked(rows@, right@).take(j as int).to_multiset()),
            forall|p: int, q: int|
                0 <= p < positions@.len() && i <= q < left@.len() ==> key_le(
                    k[#[trigger] positions@[p] as int],
                    k[#[trigger] left@[q] as int],
                ),
            forall|p: int, q: int|
                0 <= p < positions@.len() && j <= q < right@.len() ==> key_le(
                    k[#[trigger] positions@[p] as int],
                    k[#[trigger] right@[q] as int],
                ),
        decreases left.len() - i + right.len() - j,
    {
        let ghost before = positions@;
        // The right one only where it comes strictly first, so equal rows keep
        // the order they arrived in.
        let take_left = j == right.len() || (i < left.len() && !key_less(
            &keys[right[j]],
            &keys[left[i]],
        ));
        if take_left {
            proof {
                lemma_merge_step(rows@, before, left@, right@, i as int, j as int);
                if j < right.len() {
                    assert forall|q: int| j <= q < right@.len() implies key_le(
                        k[left@[i as int] as int],
                        k[#[trigger] right@[q] as int],
                    ) by {
                        if q > j {
                            lemma_key_le_transitive(
                                k[left@[i as int] as int],
                                k[right@[j as int] as int],
                                k[right@[q] as int],
                            );
                        }
                    }
                }
            }
            positions.push(left[i]);
            i = i + 1;
        } else {
            proof {
                lemma_merge_step(rows@, before, right@, left@, j as int, i as int);
                if i < left.len() {
                    assert(key_le(k[right@[j as int] as int], k[left@[i as int] as int])) by {
                        if key_lt(k[left@[i as int] as int], k[right@[j as int] as int]) {
                            lemma_key_lt_transitive(
                                k[left@[i as int] as int],
                                k[right@[j as int] as int],
                                k[left@[i as int] as int],
                            );
                            lemma_key_lt_irreflexive(k[left@[i as int] as int]);
                        }
                    }
                    assert forall|q: int| i <= q < left@.len() implies key_le(
                        k[right@[j as int] as int],
                        k[#[trigger] left@[q] as int],
                    ) by {
                        if q > i {
                            lemma_key_le_transitive(
                                k[right@[j as int] as int],
                                k[left@[i as int] as int],
                                k[left@[q] as int],
                            );
                        }
                    }
                }
            }
            positions.push(right[j]);
            j = j + 1;
        }
    }
    assert(picked(rows@, left@).take(i as int) =~= picked(rows@, left@));
    assert(picked(rows@, right@).take(j as int) =~= picked(rows@, right@));
    positions
}

proof fn lemma_merge_step<T>(
    rows: Seq<T>,
    positions: Seq<usize>,
    from: Seq<usize>,
    other: Seq<usize>,
    i: int,
    j: int,
)
    requires
        0 <= i < from.len(),
        0 <= j <= other.len(),
        picked(rows, positions).to_multiset() == picked(rows, from).take(i).to_multiset().add(
            picked(rows, other).take(j).to_multiset(),
        ) || picked(rows, positions).to_multiset() == picked(rows, other).take(
            j,
        ).to_multiset().add(picked(rows, from).take(i).to_multiset()),
    ensures
        picked(rows, positions.push(from[i])).to_multiset() == picked(rows, from).take(
            i + 1,
        ).to_multiset().add(picked(rows, other).take(j).to_multiset()),
        picked(rows, positions.push(from[i])).to_multiset() == picked(rows, other).take(
            j,
        ).to_multiset().add(picked(rows, from).take(i + 1).to_multiset()),
{
    let row = rows[from[i] as int];
    let taken = picked(rows, from).take(i);
    assert(picked(rows, from).take(i + 1) =~= taken.push(row));
    assert(picked(rows, positions.push(from[i])) =~= picked(rows, positions).push(row));
    taken.to_multiset_ensures();
    picked(rows, positions).to_multiset_ensures();
    let a = picked(rows, positions.push(from[i])).to_multiset();
    let b = picked(rows, from).take(i + 1).to_multiset();
    let c = picked(rows, other).take(j).to_multiset();
    assert(a =~= b.add(c));
    assert(a =~= c.add(b));
}

/// Bytes are ordered by the first they differ in, and some come before any that
/// go on from where they end.
pub proof fn the_first_byte_to_differ_decides(
    shared: Seq<u8>,
    x: u8,
    a: Seq<u8>,
    y: u8,
    b: Seq<u8>,
)
    ensures
        x < y ==> bytes_lt(shared + seq![x] + a, shared + seq![y] + b),
        bytes_lt(shared, shared + seq![y] + b),
{
    let n = shared.len() as int;
    let left = shared + seq![x] + a;
    let right = shared + seq![y] + b;
    assert(left.take(n) =~= shared);
    assert(right.take(n) =~= shared);
    assert(shared.take(n) =~= shared);
    assert(left[n] == x && right[n] == y);
    if x < y {
        assert(bytes_smaller_at(left, right, n));
    }
    assert(bytes_smaller_at(shared, right, n));
}

/// Keys are ordered by the first part they differ in: a text or bytes by their
/// own order, a count the larger first.
pub proof fn the_first_part_to_differ_decides(
    shared: Seq<Part>,
    x: Part,
    a: Seq<Part>,
    y: Part,
    b: Seq<Part>,
)
    ensures
        ({
            let left = shared + seq![x] + a;
            let right = shared + seq![y] + b;
            &&& (x matches Part::Text(s) && (y matches Part::Text(t) && text_lt(s, t))) ==> key_lt(
                left,
                right,
            )
            &&& (x matches Part::Bytes(s) && (y matches Part::Bytes(t) && bytes_lt(s, t)))
                ==> key_lt(left, right)
            &&& (x matches Part::Descending(s) && (y matches Part::Descending(t) && s > t))
                ==> key_lt(left, right)
        }),
{
    let n = shared.len() as int;
    let left = shared + seq![x] + a;
    let right = shared + seq![y] + b;
    assert(left.take(n) =~= shared);
    assert(right.take(n) =~= shared);
    assert(left[n] == x && right[n] == y);
    if part_lt(x, y) {
        assert(key_smaller_at(left, right, n));
    }
}

} // verus!
