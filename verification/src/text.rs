//! Text as sequences of characters: splitting, ordering, and rendering numbers
//! and bytes.

use vstd::prelude::*;

verus! {

/// What each of some borrowed texts reads.
pub open spec fn str_views(parts: Seq<&str>) -> Seq<Seq<char>> {
    parts.map_values(|part: &str| part@)
}

/// What each of some owned texts reads.
pub open spec fn string_views(parts: Seq<String>) -> Seq<Seq<char>> {
    parts.map_values(|part: String| part@)
}

/// What an optional owned text reads.
pub open spec fn option_view(text: Option<String>) -> Option<Seq<char>> {
    match text {
        Some(text) => Some(text@),
        None => None,
    }
}

/// What an optional borrowed text reads.
pub open spec fn str_view(text: Option<&str>) -> Option<Seq<char>> {
    match text {
        Some(text) => Some(text@),
        None => None,
    }
}

/// The position of the first `separator`, or the length where there is none.
pub open spec fn first_index(text: Seq<char>, separator: char) -> int
    decreases text.len(),
{
    if text.len() == 0 || text[0] == separator {
        0
    } else {
        1 + first_index(text.drop_first(), separator)
    }
}

/// The pieces of `text` between its separators: always at least one, and one
/// more than there are separators.
pub open spec fn segments(text: Seq<char>, separator: char) -> Seq<Seq<char>>
    decreases text.len(),
{
    let i = first_index(text, separator);
    if 0 <= i < text.len() {
        seq![text.take(i)] + segments(text.skip(i + 1), separator)
    } else {
        seq![text]
    }
}

/// `parts` with `separator` between each two of them.
pub open spec fn joined(parts: Seq<Seq<char>>, separator: Seq<char>) -> Seq<char>
    decreases parts.len(),
{
    if parts.len() == 0 {
        Seq::empty()
    } else if parts.len() == 1 {
        parts[0]
    } else {
        parts[0] + separator + joined(parts.drop_first(), separator)
    }
}

pub proof fn lemma_first_index(text: Seq<char>, separator: char, i: int)
    requires
        0 <= i <= text.len(),
        forall|k: int| 0 <= k < i ==> text[k] != separator,
        i < text.len() ==> text[i] == separator,
    ensures
        first_index(text, separator) == i,
    decreases i,
{
    if i > 0 {
        lemma_first_index(text.drop_first(), separator, i - 1);
    }
}

pub proof fn lemma_first_index_bounds(text: Seq<char>, separator: char)
    ensures
        0 <= first_index(text, separator) <= text.len(),
        forall|k: int| 0 <= k < first_index(text, separator) ==> text[k] != separator,
        first_index(text, separator) < text.len() ==> text[first_index(text, separator)]
            == separator,
    decreases text.len(),
{
    if text.len() > 0 && text[0] != separator {
        let rest = text.drop_first();
        lemma_first_index_bounds(rest, separator);
        assert forall|k: int| 0 <= k < first_index(text, separator) implies text[k]
            != separator by {
            if k > 0 {
                assert(text[k] == rest[k - 1]);
            }
        }
    }
}

/// Splitting what was joined gives the parts back, as long as none of them
/// holds the separator itself.
pub proof fn split_undoes_join(parts: Seq<Seq<char>>, separator: char)
    requires
        parts.len() > 0,
        forall|i: int| 0 <= i < parts.len() ==> !(#[trigger] parts[i]).contains(separator),
    ensures
        segments(joined(parts, seq![separator]), separator) == parts,
    decreases parts.len(),
{
    let text = joined(parts, seq![separator]);
    let head = parts[0];
    assert(!head.contains(separator));
    if parts.len() == 1 {
        lemma_first_index(text, separator, text.len() as int);
        assert(parts =~= seq![head]);
    } else {
        let rest = joined(parts.drop_first(), seq![separator]);
        assert forall|i: int| 0 <= i < parts.drop_first().len() implies !(
        #[trigger] parts.drop_first()[i]).contains(separator) by {
            assert(parts.drop_first()[i] == parts[i + 1]);
        }
        split_undoes_join(parts.drop_first(), separator);
        assert(text[head.len() as int] == separator);
        assert forall|k: int| 0 <= k < head.len() implies text[k] != separator by {
            assert(text[k] == head[k]);
        }
        lemma_first_index(text, separator, head.len() as int);
        assert(text.take(head.len() as int) =~= head);
        assert(text.skip(head.len() as int + 1) =~= rest);
        assert(parts =~= seq![head] + parts.drop_first());
    }
}

/// Joining what was split gives the text back.
pub proof fn join_undoes_split(text: Seq<char>, separator: char)
    ensures
        joined(segments(text, separator), seq![separator]) == text,
        segments(text, separator).len() > 0,
    decreases text.len(),
{
    lemma_first_index_bounds(text, separator);
    let i = first_index(text, separator);
    if i < text.len() {
        let rest = text.skip(i + 1);
        join_undoes_split(rest, separator);
        assert(segments(text, separator).drop_first() =~= segments(rest, separator));
        assert(text.take(i) + seq![separator] + rest =~= text);
    }
}

/// Joining one part more puts the separator and the part behind the rest.
pub proof fn lemma_joined_push(parts: Seq<Seq<char>>, part: Seq<char>, separator: Seq<char>)
    requires
        parts.len() > 0,
    ensures
        joined(parts.push(part), separator) == joined(parts, separator) + separator + part,
    decreases parts.len(),
{
    let more = parts.push(part);
    if parts.len() == 1 {
        assert(more.drop_first() =~= seq![part]);
        assert(joined(seq![part], separator) == part);
    } else {
        lemma_joined_push(parts.drop_first(), part, separator);
        assert(more.drop_first() =~= parts.drop_first().push(part));
        assert(joined(more, separator) =~= joined(parts, separator) + separator + part);
    }
}

/// A separator and a piece without one, put behind a text, are one piece more.
pub proof fn lemma_segments_push(text: Seq<char>, part: Seq<char>, separator: char)
    requires
        !part.contains(separator),
    ensures
        segments(text + seq![separator] + part, separator) == segments(text, separator).push(part),
{
    let parts = segments(text, separator);
    join_undoes_split(text, separator);
    segments_hold_no_separator(text, separator);
    lemma_joined_push(parts, part, seq![separator]);
    assert forall|i: int| 0 <= i < parts.push(part).len() implies !(#[trigger] parts.push(
        part,
    )[i]).contains(separator) by {
        if i < parts.len() {
            assert(parts.push(part)[i] == parts[i]);
        }
    }
    split_undoes_join(parts.push(part), separator);
}

/// No piece of a split holds the separator.
pub proof fn segments_hold_no_separator(text: Seq<char>, separator: char)
    ensures
        forall|i: int|
            0 <= i < segments(text, separator).len() ==> !(#[trigger] segments(
                text,
                separator,
            )[i]).contains(separator),
    decreases text.len(),
{
    lemma_first_index_bounds(text, separator);
    let at = first_index(text, separator);
    if at < text.len() {
        let rest = text.skip(at + 1);
        segments_hold_no_separator(rest, separator);
        assert forall|i: int| 0 <= i < segments(text, separator).len() implies !(
        #[trigger] segments(text, separator)[i]).contains(separator) by {
            if i > 0 {
                assert(segments(text, separator)[i] == segments(rest, separator)[i - 1]);
            }
        }
    }
}

/// A piece of a split holds no character that the text does not.
pub proof fn lemma_segments_hold_no_other(text: Seq<char>, separator: char, other: char)
    requires
        !text.contains(other),
    ensures
        forall|i: int|
            0 <= i < segments(text, separator).len() ==> !(#[trigger] segments(
                text,
                separator,
            )[i]).contains(other),
    decreases text.len(),
{
    lemma_first_index_bounds(text, separator);
    let at = first_index(text, separator);
    if at < text.len() {
        let rest = text.skip(at + 1);
        assert(!rest.contains(other)) by {
            if rest.contains(other) {
                let k = choose|k: int| 0 <= k < rest.len() && rest[k] == other;
                assert(text[at + 1 + k] == other);
            }
        }
        lemma_segments_hold_no_other(rest, separator, other);
        assert forall|i: int| 0 <= i < segments(text, separator).len() implies !(
        #[trigger] segments(text, separator)[i]).contains(other) by {
            if i > 0 {
                assert(segments(text, separator)[i] == segments(rest, separator)[i - 1]);
            } else if text.take(at).contains(other) {
                let k = choose|k: int| 0 <= k < at && text.take(at)[k] == other;
                assert(text[k] == other);
            }
        }
    }
}

/// Joined parts hold no character that neither they nor the separator do.
pub proof fn lemma_joined_holds_no_other(parts: Seq<Seq<char>>, separator: Seq<char>, other: char)
    requires
        !separator.contains(other),
        forall|i: int| 0 <= i < parts.len() ==> !(#[trigger] parts[i]).contains(other),
    ensures
        !joined(parts, separator).contains(other),
    decreases parts.len(),
{
    if parts.len() > 1 {
        let rest = parts.drop_first();
        assert forall|i: int| 0 <= i < rest.len() implies !(#[trigger] rest[i]).contains(other) by {
            assert(rest[i] == parts[i + 1]);
        }
        lemma_joined_holds_no_other(rest, separator, other);
        let text = joined(parts, separator);
        let head = parts[0];
        assert forall|k: int| 0 <= k < text.len() implies #[trigger] text[k] != other by {
            if k < head.len() {
                assert(text[k] == head[k]);
            } else if k < head.len() + separator.len() {
                assert(text[k] == separator[k - head.len()]);
            } else {
                assert(text[k] == joined(rest, separator)[k - head.len() - separator.len()]);
            }
        }
    }
}

/// The characters of a text.
pub fn chars_of(text: &str) -> (chars: Vec<char>)
    ensures
        chars@ == text@,
{
    let mut chars: Vec<char> = Vec::new();
    for c in iter: text.chars()
        invariant
            iter.seq() == text@,
            chars@ == text@.take(iter.index()),
    {
        chars.push(c);
    }
    chars
}

/// The text some characters spell, by `String::from_iter`: the characters in
/// the order given, and nothing else.
#[verifier::external_body]
pub(crate) fn text_of(chars: &Vec<char>) -> (text: String)
    ensures
        text@ == chars@,
{
    String::from_iter(chars)
}

/// The pieces of `text` between its separators.
pub fn split<'a>(text: &'a str, separator: char) -> (parts: Vec<&'a str>)
    ensures
        str_views(parts@) == segments(text@, separator),
{
    let chars = chars_of(text);
    let mut parts: Vec<&'a str> = Vec::new();
    let mut start: usize = 0;
    let mut i: usize = 0;
    assert(text@.skip(0) =~= text@);
    while i < chars.len()
        invariant
            chars@ == text@,
            start <= i <= chars.len(),
            forall|k: int| start <= k < i ==> chars@[k] != separator,
            str_views(parts@) + segments(text@.skip(start as int), separator) == segments(
                text@,
                separator,
            ),
        decreases chars.len() - i,
    {
        if chars[i] == separator {
            let ghost rest = text@.skip(start as int);
            let ghost before = parts@;
            parts.push(text.substring_char(start, i));
            proof {
                lemma_first_index(rest, separator, i - start);
                assert(rest.take(i - start) =~= text@.subrange(start as int, i as int));
                assert(rest.skip(i - start + 1) =~= text@.skip(i + 1));
                assert(str_views(parts@) =~= str_views(before).push(
                    text@.subrange(start as int, i as int),
                ));
                assert(str_views(parts@) + segments(text@.skip(i + 1), separator) =~= str_views(
                    before,
                ) + segments(rest, separator));
            }
            start = i + 1;
        }
        i = i + 1;
    }
    let ghost before = parts@;
    parts.push(text.substring_char(start, chars.len()));
    proof {
        let rest = text@.skip(start as int);
        lemma_first_index(rest, separator, rest.len() as int);
        assert(text@.subrange(start as int, chars.len() as int) =~= rest);
        assert(str_views(parts@) =~= str_views(before) + segments(rest, separator));
    }
    parts
}

/// Whether `a` and `b` agree before position `i` and `a` comes first there:
/// it has ended, or its character is the smaller one.
pub open spec fn smaller_at(a: Seq<char>, b: Seq<char>, i: int) -> bool {
    &&& 0 <= i <= a.len()
    &&& i < b.len()
    &&& a.take(i) == b.take(i)
    &&& i == a.len() || a[i] < b[i]
}

/// The order of texts: by their first difference.
pub open spec fn text_lt(a: Seq<char>, b: Seq<char>) -> bool {
    exists|i: int| smaller_at(a, b, i)
}

pub open spec fn text_le(a: Seq<char>, b: Seq<char>) -> bool {
    a == b || text_lt(a, b)
}

pub proof fn lemma_text_lt_irreflexive(a: Seq<char>)
    ensures
        !text_lt(a, a),
{
    if text_lt(a, a) {
        let i = choose|i: int| smaller_at(a, a, i);
        assert(smaller_at(a, a, i));
    }
}

pub proof fn lemma_text_lt_transitive(a: Seq<char>, b: Seq<char>, c: Seq<char>)
    requires
        text_lt(a, b),
        text_lt(b, c),
    ensures
        text_lt(a, c),
{
    let i = choose|i: int| smaller_at(a, b, i);
    let j = choose|j: int| smaller_at(b, c, j);
    let k = if i <= j {
        i
    } else {
        j
    };
    assert(a.take(k) =~= c.take(k)) by {
        assert(a.take(i).take(k) =~= a.take(k));
        assert(b.take(i).take(k) =~= b.take(k));
        assert(b.take(j).take(k) =~= b.take(k));
        assert(c.take(j).take(k) =~= c.take(k));
    }
    if i < j {
        assert(b.take(j)[i] == c.take(j)[i]);
    } else if j < i {
        assert(a.take(i)[j] == b.take(i)[j]);
    }
    assert(smaller_at(a, c, k));
}

pub proof fn lemma_text_lt_asymmetric(a: Seq<char>, b: Seq<char>)
    requires
        text_lt(a, b),
    ensures
        !text_lt(b, a),
        a != b,
{
    if text_lt(b, a) {
        lemma_text_lt_transitive(a, b, a);
    }
    lemma_text_lt_irreflexive(a);
}

/// Texts that begin alike are ordered by what follows.
pub proof fn lemma_text_lt_prefix(prefix: Seq<char>, a: Seq<char>, b: Seq<char>)
    requires
        text_lt(a, b),
    ensures
        text_lt(prefix + a, prefix + b),
{
    let i = choose|i: int| smaller_at(a, b, i);
    let n = prefix.len() as int;
    assert((prefix + a).take(n + i) =~= prefix + a.take(i));
    assert((prefix + b).take(n + i) =~= prefix + b.take(i));
    assert(smaller_at(prefix + a, prefix + b, n + i));
}

/// Texts of one length are ordered however they go on.
pub proof fn lemma_text_lt_extend(a: Seq<char>, b: Seq<char>, x: Seq<char>, y: Seq<char>)
    requires
        text_lt(a, b),
        a.len() == b.len(),
    ensures
        text_lt(a + x, b + y),
{
    let i = choose|i: int| smaller_at(a, b, i);
    assert((a + x).take(i) =~= a.take(i));
    assert((b + y).take(i) =~= b.take(i));
    assert(smaller_at(a + x, b + y, i));
}

/// Whether `a` comes before `b`.
pub fn text_less(a: &str, b: &str) -> (less: bool)
    ensures
        less == text_lt(a@, b@),
        !less ==> text_le(b@, a@),
{
    let left = chars_of(a);
    let right = chars_of(b);
    let mut i: usize = 0;
    while i < left.len() && i < right.len() && left[i] == right[i]
        invariant
            left@ == a@,
            right@ == b@,
            i <= left.len(),
            i <= right.len(),
            forall|k: int| 0 <= k < i ==> left@[k] == right@[k],
        decreases left.len() - i,
    {
        i = i + 1;
    }
    assert(left@.take(i as int) =~= right@.take(i as int));
    let less = i < right.len() && (i == left.len() || left[i] < right[i]);
    proof {
        if less {
            assert(smaller_at(a@, b@, i as int));
        } else {
            if i == right.len() && i == left.len() {
                assert(a@ =~= b@);
            } else {
                assert(smaller_at(b@, a@, i as int));
            }
            if text_lt(a@, b@) {
                lemma_text_lt_asymmetric(a@, b@);
            }
        }
    }
    less
}

/// Two texts are equal or one comes before the other.
pub proof fn text_order_is_total(a: Seq<char>, b: Seq<char>)
    ensures
        text_lt(a, b) || a == b || text_lt(b, a),
    decreases a.len(),
{
    if a.len() == 0 || b.len() == 0 {
        assert(a.take(0) =~= b.take(0));
        if b.len() > 0 {
            assert(smaller_at(a, b, 0));
        } else if a.len() > 0 {
            assert(smaller_at(b, a, 0));
        } else {
            assert(a =~= b);
        }
    } else if a[0] != b[0] {
        assert(a.take(0) =~= b.take(0));
        if a[0] < b[0] {
            assert(smaller_at(a, b, 0));
        } else {
            assert(smaller_at(b, a, 0));
        }
    } else {
        let x = a.drop_first();
        let y = b.drop_first();
        text_order_is_total(x, y);
        assert(a =~= seq![a[0]] + x);
        assert(b =~= seq![a[0]] + y);
        if text_lt(x, y) {
            lemma_text_lt_prefix(seq![a[0]], x, y);
        } else if text_lt(y, x) {
            lemma_text_lt_prefix(seq![a[0]], y, x);
        }
    }
}

/// Whether two texts are the same.
pub fn same_text(a: &str, b: &str) -> (same: bool)
    ensures
        same == (a@ == b@),
{
    proof {
        text_order_is_total(a@, b@);
        lemma_text_lt_irreflexive(a@);
    }
    !text_less(a, b) && !text_less(b, a)
}

/// Whether a text has no characters.
pub fn is_empty(text: &str) -> (empty: bool)
    ensures
        empty == (text@.len() == 0),
{
    chars_of(text).len() == 0
}

pub open spec fn ends_with(text: Seq<char>, suffix: Seq<char>) -> bool {
    suffix.len() <= text.len() && text.skip(text.len() - suffix.len()) == suffix
}

/// `text` less one trailing `suffix`, where it has one.
pub open spec fn without_suffix(text: Seq<char>, suffix: Seq<char>) -> Seq<char> {
    if ends_with(text, suffix) {
        text.take(text.len() - suffix.len())
    } else {
        text
    }
}

/// `text` less one trailing `suffix`, where it has one.
pub fn strip_suffix<'a>(text: &'a str, suffix: &str) -> (stripped: &'a str)
    ensures
        stripped@ == without_suffix(text@, suffix@),
{
    let chars = chars_of(text);
    let tail = chars_of(suffix);
    if tail.len() > chars.len() {
        return text;
    }
    let start: usize = chars.len() - tail.len();
    let mut i: usize = 0;
    while i < tail.len()
        invariant
            chars@ == text@,
            tail@ == suffix@,
            start + tail.len() == chars.len(),
            i <= tail.len(),
            forall|k: int| 0 <= k < i ==> chars@[start + k] == tail@[k],
        decreases tail.len() - i,
    {
        if chars[start + i] != tail[i] {
            assert(text@.skip(start as int)[i as int] != suffix@[i as int]);
            return text;
        }
        i = i + 1;
    }
    assert(text@.skip(start as int) =~= suffix@);
    assert(text@.subrange(0, start as int) =~= text@.take(start as int));
    text.substring_char(0, start)
}

/// Whether `part` stands somewhere in `text`.
pub open spec fn contains_text(text: Seq<char>, part: Seq<char>) -> bool {
    exists|i: int| #[trigger] stands_at(text, part, i)
}

/// Whether `part` stands in `text` from position `i` on.
pub open spec fn stands_at(text: Seq<char>, part: Seq<char>, i: int) -> bool {
    0 <= i && i + part.len() <= text.len() && text.subrange(i, i + part.len()) == part
}

/// Whether `part` stands somewhere in `text`.
pub fn contains(text: &str, part: &str) -> (found: bool)
    ensures
        found == contains_text(text@, part@),
{
    let chars = chars_of(text);
    let wanted = chars_of(part);
    if wanted.len() > chars.len() {
        return false;
    }
    let last: usize = chars.len() - wanted.len();
    let mut i: usize = 0;
    loop
        invariant
            chars@ == text@,
            wanted@ == part@,
            last + wanted.len() == chars.len(),
            i <= last,
            forall|k: int| 0 <= k < i ==> !stands_at(text@, part@, k),
        decreases last - i,
    {
        let mut n: usize = 0;
        while n < wanted.len() && chars[i + n] == wanted[n]
            invariant
                chars@ == text@,
                wanted@ == part@,
                last + wanted.len() == chars.len(),
                i <= last,
                n <= wanted.len(),
                forall|k: int| 0 <= k < n ==> chars@[i + k] == wanted@[k],
            decreases wanted.len() - n,
        {
            n = n + 1;
        }
        if n == wanted.len() {
            assert(text@.subrange(i as int, i + part@.len()) =~= part@);
            assert(stands_at(text@, part@, i as int));
            return true;
        }
        assert(!stands_at(text@, part@, i as int)) by {
            assert(text@.subrange(i as int, i + part@.len())[n as int] != part@[n as int]);
        }
        if i == last {
            return false;
        }
        i = i + 1;
    }
}

/// A digit below ten as a character.
pub open spec fn digit(d: int) -> char {
    (48 + d) as char
}

/// A number in decimal, without leading zeros.
pub open spec fn decimal_nat(n: nat) -> Seq<char>
    decreases n,
{
    if n < 10 {
        seq![digit(n as int)]
    } else {
        decimal_nat(n / 10).push(digit((n % 10) as int))
    }
}

/// A number in decimal, with a leading minus below zero.
pub open spec fn decimal(n: int) -> Seq<char> {
    if n < 0 {
        seq!['-'] + decimal_nat((-n) as nat)
    } else {
        decimal_nat(n as nat)
    }
}

fn push_decimal(chars: &mut Vec<char>, n: u64)
    ensures
        final(chars)@ == old(chars)@ + decimal_nat(n as nat),
    decreases n,
{
    if n >= 10 {
        push_decimal(chars, n / 10);
    }
    chars.push((48 + (n % 10) as u8) as char);
}

/// An integer as text.
pub fn decimal_text(n: i64) -> (text: String)
    ensures
        text@ == decimal(n as int),
{
    let mut chars: Vec<char> = Vec::new();
    if n < 0 {
        chars.push('-');
        push_decimal(&mut chars, (-(n as i128)) as u64);
    } else {
        push_decimal(&mut chars, n as u64);
    }
    text_of(&chars)
}

/// A hexadecimal digit, in lower case.
pub open spec fn hex_digit(d: int) -> char {
    if d < 10 {
        (48 + d) as char
    } else {
        (87 + d) as char
    }
}

/// Bytes in hexadecimal, two digits each.
pub open spec fn hex(bytes: Seq<u8>) -> Seq<char> {
    Seq::new(
        2 * bytes.len(),
        |i: int|
            if i % 2 == 0 {
                hex_digit(bytes[i / 2] as int / 16)
            } else {
                hex_digit(bytes[i / 2] as int % 16)
            },
    )
}

fn hex_char(d: u8) -> (c: char)
    requires
        d < 16,
    ensures
        c == hex_digit(d as int),
{
    if d < 10 {
        (48 + d) as char
    } else {
        (87 + d) as char
    }
}

/// Bytes in hexadecimal, two digits each.
pub fn hex_text(bytes: &[u8]) -> (text: String)
    ensures
        text@ == hex(bytes@),
{
    let mut chars: Vec<char> = Vec::new();
    let mut i: usize = 0;
    while i < bytes.len()
        invariant
            i <= bytes.len(),
            chars@ == hex(bytes@.take(i as int)),
        decreases bytes.len() - i,
    {
        let byte = bytes[i];
        chars.push(hex_char(byte / 16));
        chars.push(hex_char(byte % 16));
        i = i + 1;
        assert(chars@ =~= hex(bytes@.take(i as int)));
    }
    assert(bytes@.take(i as int) =~= bytes@);
    text_of(&chars)
}

/// `parts` with `separator` between each two of them.
pub fn join(parts: &Vec<&str>, separator: &str) -> (text: String)
    ensures
        text@ == joined(str_views(parts@), separator@),
{
    let mut text = String::new();
    let mut i: usize = parts.len();
    while i > 0
        invariant
            i <= parts.len(),
            text@ == joined(str_views(parts@).skip(i as int), separator@),
        decreases i,
    {
        let ghost rest = str_views(parts@).skip(i as int);
        let ghost whole = str_views(parts@).skip(i - 1);
        assert(whole.drop_first() =~= rest);
        let mut longer = String::from_str(parts[i - 1]);
        if i < parts.len() {
            longer.append(separator);
            longer.append(text.as_str());
        }
        text = longer;
        i = i - 1;
        assert(text@ =~= joined(whole, separator@));
    }
    assert(str_views(parts@).skip(0) =~= str_views(parts@));
    text
}

/// The number that a row of decimal digits spells.
pub open spec fn number_of(digits: Seq<char>) -> int
    decreases digits.len(),
{
    if digits.len() == 0 {
        0
    } else {
        number_of(digits.drop_last()) * 10 + (digits.last() as u32 - '0' as u32)
    }
}

proof fn lemma_decimal_nat_reads_back(n: nat)
    ensures
        decimal_nat(n).len() > 0,
        number_of(decimal_nat(n)) == n,
        forall|i: int|
            0 <= i < decimal_nat(n).len() ==> '0' <= #[trigger] decimal_nat(n)[i] <= '9',
        n > 0 ==> decimal_nat(n)[0] != '0',
        n == 0 ==> decimal_nat(n) == seq!['0'],
    decreases n,
{
    let text = decimal_nat(n);
    if n < 10 {
        assert(text.drop_last() =~= Seq::<char>::empty());
        assert(number_of(text.drop_last()) == 0);
    } else {
        lemma_decimal_nat_reads_back(n / 10);
        assert(text.drop_last() =~= decimal_nat(n / 10));
        assert(text[0] == decimal_nat(n / 10)[0]);
        assert forall|i: int| 0 <= i < text.len() implies '0' <= #[trigger] text[i] <= '9' by {
            if i < text.len() - 1 {
                assert(text[i] == decimal_nat(n / 10)[i]);
            }
        }
    }
}

/// A number written in decimal reads back as itself: digits alone, no zero in
/// front of others, and a minus before those of a number below zero.
pub proof fn decimal_reads_back(n: int)
    ensures
        n >= 0 ==> number_of(decimal(n)) == n,
        n < 0 ==> decimal(n)[0] == '-' && number_of(decimal(n).drop_first()) == -n,
        n == 0 ==> decimal(n) == seq!['0'],
        n > 0 ==> decimal(n)[0] != '0',
        n < 0 ==> decimal(n)[1] != '0',
        decimal(n).len() > 0,
        forall|i: int|
            (if n < 0 {
                1int
            } else {
                0
            }) <= i < decimal(n).len() ==> '0' <= #[trigger] decimal(n)[i] <= '9',
{
    if n < 0 {
        let digits = decimal_nat((-n) as nat);
        lemma_decimal_nat_reads_back((-n) as nat);
        assert(decimal(n).drop_first() =~= digits);
        assert(decimal(n)[1] == digits[0]);
        assert forall|i: int| 1 <= i < decimal(n).len() implies '0' <= #[trigger] decimal(n)[i]
            <= '9' by {
            assert(decimal(n)[i] == digits[i - 1]);
        }
    } else {
        lemma_decimal_nat_reads_back(n as nat);
    }
}

/// What a lower-case hexadecimal digit stands for.
pub open spec fn hex_value(c: char) -> int {
    if '0' <= c <= '9' {
        c as u32 - '0' as u32
    } else {
        c as u32 - 'a' as u32 + 10
    }
}

/// Bytes written in hexadecimal read back as themselves, two digits for each,
/// in lower case.
pub proof fn hex_reads_back(bytes: Seq<u8>)
    ensures
        hex(bytes).len() == 2 * bytes.len(),
        forall|i: int|
            0 <= i < bytes.len() ==> #[trigger] bytes[i] == 16 * hex_value(hex(bytes)[2 * i])
                + hex_value(hex(bytes)[2 * i + 1]),
        forall|i: int|
            0 <= i < hex(bytes).len() ==> '0' <= #[trigger] hex(bytes)[i] <= '9' || 'a' <= hex(
                bytes,
            )[i] <= 'f',
{
    assert forall|i: int| 0 <= i < bytes.len() implies #[trigger] bytes[i] == 16 * hex_value(
        hex(bytes)[2 * i],
    ) + hex_value(hex(bytes)[2 * i + 1]) by {
        let byte = bytes[i] as int;
        assert(hex(bytes)[2 * i] == hex_digit(byte / 16));
        assert(hex(bytes)[2 * i + 1] == hex_digit(byte % 16));
    }
    assert forall|i: int| 0 <= i < hex(bytes).len() implies '0' <= #[trigger] hex(bytes)[i] <= '9'
        || 'a' <= hex(bytes)[i] <= 'f' by {
        let byte = bytes[i / 2] as int;
        assert(0 <= byte / 16 < 16);
    }
}

/// Texts are ordered by the first character they differ in, and a text comes
/// before any that goes on from where it ends.
pub proof fn the_first_difference_decides(
    shared: Seq<char>,
    x: char,
    a: Seq<char>,
    y: char,
    b: Seq<char>,
)
    ensures
        x < y ==> text_lt(shared + seq![x] + a, shared + seq![y] + b),
        text_lt(shared, shared + seq![y] + b),
{
    let n = shared.len() as int;
    let left = shared + seq![x] + a;
    let right = shared + seq![y] + b;
    assert(left.take(n) =~= shared);
    assert(right.take(n) =~= shared);
    assert(shared.take(n) =~= shared);
    assert(left[n] == x && right[n] == y);
    if x < y {
        assert(smaller_at(left, right, n));
    }
    assert(smaller_at(shared, right, n));
}

/// Joining puts the separator between each two parts, and nowhere else.
pub proof fn joining_puts_the_separator_between(
    parts: Seq<Seq<char>>,
    part: Seq<char>,
    separator: Seq<char>,
)
    ensures
        joined(Seq::empty(), separator) == Seq::<char>::empty(),
        joined(seq![part], separator) == part,
        parts.len() > 0 ==> joined(parts.push(part), separator) == joined(parts, separator)
            + separator + part,
{
    if parts.len() > 0 {
        lemma_joined_push(parts, part, separator);
    }
}

/// A suffix comes off the end of a text that has it, once, and a text without
/// it is left as it is.
pub proof fn a_suffix_comes_off_the_end(text: Seq<char>, suffix: Seq<char>)
    ensures
        without_suffix(text + suffix, suffix) == text,
        without_suffix(text, suffix) == text || without_suffix(text, suffix) + suffix == text,
        (forall|stem: Seq<char>| text != #[trigger] (stem + suffix)) ==> without_suffix(text, suffix)
            == text,
{
    let whole = text + suffix;
    assert(whole.skip(text.len() as int) =~= suffix);
    assert(whole.take(text.len() as int) =~= text);
    if ends_with(text, suffix) {
        let stem = text.take(text.len() - suffix.len());
        assert(stem + suffix =~= text);
    }
}

/// A text stands in another exactly where the other is made of something, the
/// text and something more.
pub proof fn a_text_stands_between_what_is_around_it(
    before: Seq<char>,
    part: Seq<char>,
    after: Seq<char>,
)
    ensures
        contains_text(before + part + after, part),
        forall|text: Seq<char>|
            contains_text(text, part) ==> exists|a: Seq<char>, b: Seq<char>|
                text == #[trigger] (a + part + b),
{
    let text = before + part + after;
    let n = before.len() as int;
    assert(text.subrange(n, n + part.len()) =~= part);
    assert(stands_at(text, part, n));
    assert forall|text: Seq<char>| contains_text(text, part) implies exists|
        a: Seq<char>,
        b: Seq<char>,
    | text == #[trigger] (a + part + b) by {
        let i = choose|i: int| #[trigger] stands_at(text, part, i);
        let a = text.take(i);
        let b = text.skip(i + part.len());
        assert(text =~= a + part + b);
    }
}

} // verus!
