//! The calendar, and instants written out the way RFC 3339 does.

use chrono::{DateTime, SecondsFormat};
use vstd::prelude::*;

use crate::text::{
    decimal_nat, digit, lemma_text_lt_extend, lemma_text_lt_prefix, number_of, smaller_at, text_lt,
};

verus! {

/// The first and last second a `chrono::DateTime` can hold, since the epoch.
pub const MIN_SECONDS: i64 = -8_334_601_228_800;

pub const MAX_SECONDS: i64 = 8_210_266_876_799;

/// A day of the proleptic Gregorian calendar.
pub struct Date {
    pub year: int,
    pub month: int,
    pub day: int,
}

pub open spec fn is_leap(year: int) -> bool {
    year % 4 == 0 && (year % 100 != 0 || year % 400 == 0)
}

pub open spec fn days_in_month(year: int, month: int) -> int {
    if month == 2 {
        if is_leap(year) {
            29
        } else {
            28
        }
    } else if month == 4 || month == 6 || month == 9 || month == 11 {
        30
    } else {
        31
    }
}

impl Date {
    pub open spec fn valid(self) -> bool {
        1 <= self.month <= 12 && 1 <= self.day <= days_in_month(self.year, self.month)
    }

    /// The day after.
    pub open spec fn next(self) -> Date {
        if self.day < days_in_month(self.year, self.month) {
            Date { year: self.year, month: self.month, day: self.day + 1 }
        } else if self.month < 12 {
            Date { year: self.year, month: self.month + 1, day: 1 }
        } else {
            Date { year: self.year + 1, month: 1, day: 1 }
        }
    }

    /// The day before.
    pub open spec fn previous(self) -> Date {
        if self.day > 1 {
            Date { year: self.year, month: self.month, day: self.day - 1 }
        } else if self.month > 1 {
            Date {
                year: self.year,
                month: self.month - 1,
                day: days_in_month(self.year, self.month - 1),
            }
        } else {
            Date { year: self.year - 1, month: 12, day: 31 }
        }
    }

    pub open spec fn before(self, other: Date) -> bool {
        ||| self.year < other.year
        ||| self.year == other.year && self.month < other.month
        ||| self.year == other.year && self.month == other.month && self.day < other.day
    }

    /// How many days the date is after the first of January 1970.
    pub open spec fn number(self) -> int {
        days_before_year(self.year) + days_before_month(self.year, self.month) + self.day - 1
            - days_before_year(1970)
    }
}

/// Days from the first of January of year one to that of `year`.
pub open spec fn days_before_year(year: int) -> int {
    365 * (year - 1) + (year - 1) / 4 - (year - 1) / 100 + (year - 1) / 400
}

/// Days from the first of January to the first of `month`.
pub open spec fn days_before_month(year: int, month: int) -> int
    decreases month,
{
    if month <= 1 {
        0
    } else {
        days_before_month(year, month - 1) + days_in_month(year, month - 1)
    }
}

/// The date `days` days after the first of January 1970, counted one day at a
/// time.
pub open spec fn date_of(days: int) -> Date
    decreases
            if days < 0 {
                -days
            } else {
                days
            },
{
    if days == 0 {
        Date { year: 1970, month: 1, day: 1 }
    } else if days > 0 {
        date_of(days - 1).next()
    } else {
        date_of(days + 1).previous()
    }
}

/// A number below a hundred as two digits.
pub open spec fn two_digits(n: int) -> Seq<char> {
    seq![digit(n / 10), digit(n % 10)]
}

/// A year below ten thousand as four digits.
pub open spec fn four_digits(n: int) -> Seq<char> {
    two_digits(n / 100) + two_digits(n % 100)
}

/// A year: four digits, with a sign and as many digits as it takes where four
/// do not hold it.
pub open spec fn year_text(year: int) -> Seq<char> {
    if 0 <= year <= 9999 {
        four_digits(year)
    } else if -9999 <= year < 0 {
        seq!['-'] + four_digits(-year)
    } else if year < 0 {
        seq!['-'] + decimal_nat((-year) as nat)
    } else {
        seq!['+'] + decimal_nat(year as nat)
    }
}

pub open spec fn date_text(date: Date) -> Seq<char> {
    year_text(date.year) + (seq!['-'] + (two_digits(date.month) + (seq!['-'] + two_digits(
        date.day,
    ))))
}

pub open spec fn clock_text(hour: int, minute: int, second: int) -> Seq<char> {
    two_digits(hour) + (seq![':'] + (two_digits(minute) + (seq![':'] + two_digits(second))))
}

/// A time of day, in seconds since midnight.
pub open spec fn time_text(second: int) -> Seq<char> {
    clock_text(second / 3600, second / 60 % 60, second % 60)
}

/// An instant, in seconds since the epoch, as RFC 3339 writes it in UTC and to
/// the second.
pub open spec fn rfc3339_text(seconds: int) -> Seq<char> {
    date_text(date_of(seconds / 86_400)) + (seq!['T'] + (time_text(seconds % 86_400) + seq!['Z']))
}

/// The year an instant is in.
pub open spec fn year_of(seconds: int) -> int {
    date_of(seconds / 86_400).year
}

/// Whether instants of two years come in the order of time when they are
/// written out. Signs and more than four digits keep some years from it: a
/// plus comes before a minus, and both before a digit.
pub open spec fn years_read_in_order(a: int, b: int) -> bool {
    ||| a == b
    ||| a < b && text_lt(year_text(a) + seq!['-'], year_text(b) + seq!['-'])
    ||| b < a && text_lt(year_text(b) + seq!['-'], year_text(a) + seq!['-'])
}

/// An instant, in seconds since the epoch, written out by
/// `chrono::DateTime::to_rfc3339_opts` in UTC and to the second: the date the
/// calendar gives it and the time of day, with a `Z`.
#[verifier::external_body]
pub(crate) fn rfc3339(seconds: i64) -> (text: String)
    requires
        MIN_SECONDS <= seconds <= MAX_SECONDS,
    ensures
        text@ == rfc3339_text(seconds as int),
{
    DateTime::from_timestamp(seconds, 0).unwrap().to_rfc3339_opts(SecondsFormat::Secs, true)
}

/// Every day has a valid date, and a day later is the next date.
pub proof fn lemma_date_of_steps(days: int)
    ensures
        date_of(days).valid(),
        date_of(days + 1).valid(),
        date_of(days + 1) == date_of(days).next(),
        date_of(days).before(date_of(days + 1)),
    decreases
            if days < 0 {
                -days
            } else {
                days
            },
{
    if days > 0 {
        lemma_date_of_steps(days - 1);
    } else if days < 0 {
        lemma_date_of_steps(days + 1);
        assert(date_of(days) == date_of(days + 1).previous());
    }
}

/// Later days have later dates.
pub proof fn dates_keep_the_order_of_days(earlier: int, later: int)
    requires
        earlier < later,
    ensures
        date_of(earlier).before(date_of(later)),
    decreases later - earlier,
{
    lemma_date_of_steps(later - 1);
    if earlier < later - 1 {
        dates_keep_the_order_of_days(earlier, later - 1);
    }
}

proof fn lemma_days_before_month_bounds(year: int, month: int)
    requires
        1 <= month <= 12,
    ensures
        0 <= days_before_month(year, month),
        days_before_month(year, month) + days_in_month(year, month) <= 365 + if is_leap(year) {
            1int
        } else {
            0
        },
{
    reveal_with_fuel(days_before_month, 13);
}

#[verifier::spinoff_prover]
proof fn lemma_days_before_year_step(year: int)
    ensures
        days_before_year(year + 1) == days_before_year(year) + 365 + if is_leap(year) {
            1int
        } else {
            0
        },
{
    lemma_quotient_step(year, 4);
    lemma_quotient_step(year, 100);
    lemma_quotient_step(year, 400);
    if year % 400 == 0 {
        lemma_multiple_of_multiple(year, 4, 100);
    }
    if year % 100 == 0 {
        lemma_multiple_of_multiple(year, 25, 4);
    }
}

proof fn lemma_multiple_of_multiple(n: int, times: int, of: int)
    requires
        of > 0,
        times > 0,
        n % (times * of) == 0,
    ensures
        n % of == 0,
{
    let whole = times * of;
    assert(whole > 0) by (nonlinear_arith)
        requires
            whole == times * of,
            of > 0,
            times > 0,
    ;
    vstd::arithmetic::div_mod::lemma_fundamental_div_mod(n, whole);
    let q = n / whole;
    assert(n == times * q * of) by (nonlinear_arith)
        requires
            n == whole * q,
            whole == times * of,
    ;
    vstd::arithmetic::div_mod::lemma_fundamental_div_mod_converse(n, of, times * q, 0);
}

proof fn lemma_quotient_step(n: int, by: int)
    requires
        by > 1,
    ensures
        n / by == (n - 1) / by + if n % by == 0 {
            1int
        } else {
            0
        },
{
    let q = n / by;
    let r = n % by;
    vstd::arithmetic::div_mod::lemma_fundamental_div_mod(n, by);
    vstd::arithmetic::div_mod::lemma_mod_bound(n, by);
    if r == 0 {
        assert(n - 1 == (q - 1) * by + (by - 1)) by (nonlinear_arith)
            requires
                n == by * q,
        ;
        vstd::arithmetic::div_mod::lemma_fundamental_div_mod_converse(n - 1, by, q - 1, by - 1);
    } else {
        assert(n - 1 == q * by + (r - 1)) by (nonlinear_arith)
            requires
                n == by * q + r,
        ;
        vstd::arithmetic::div_mod::lemma_fundamental_div_mod_converse(n - 1, by, q, r - 1);
    }
}

proof fn lemma_days_before_year_grows(earlier: int, later: int)
    requires
        earlier <= later,
    ensures
        days_before_year(earlier) <= days_before_year(later),
    decreases later - earlier,
{
    if earlier < later {
        lemma_days_before_year_grows(earlier, later - 1);
        lemma_days_before_year_step(later - 1);
    }
}

proof fn lemma_days_before_month_grows(year: int, earlier: int, later: int)
    requires
        1 <= earlier < later <= 12,
    ensures
        days_before_month(year, earlier) + days_in_month(year, earlier) <= days_before_month(
            year,
            later,
        ),
    decreases later - earlier,
{
    if earlier < later - 1 {
        lemma_days_before_month_grows(year, earlier, later - 1);
    }
}

proof fn lemma_numbers_keep_the_order_of_dates(earlier: Date, later: Date)
    requires
        earlier.valid(),
        later.valid(),
        earlier.before(later),
    ensures
        earlier.number() < later.number(),
{
    lemma_days_before_month_bounds(earlier.year, earlier.month);
    lemma_days_before_month_bounds(later.year, later.month);
    if earlier.year < later.year {
        lemma_days_before_year_step(earlier.year);
        lemma_days_before_year_grows(earlier.year + 1, later.year);
    } else if earlier.month < later.month {
        lemma_days_before_month_grows(earlier.year, earlier.month, later.month);
    }
}

proof fn lemma_number_of_next(date: Date)
    requires
        date.valid(),
    ensures
        date.next().number() == date.number() + 1,
{
    if date.day == days_in_month(date.year, date.month) {
        if date.month == 12 {
            lemma_days_before_year_step(date.year);
            reveal_with_fuel(days_before_month, 13);
        }
    }
}

proof fn lemma_number_of_date_of(days: int)
    ensures
        date_of(days).number() == days,
    decreases
            if days < 0 {
                -days
            } else {
                days
            },
{
    if days > 0 {
        lemma_number_of_date_of(days - 1);
        lemma_date_of_steps(days - 1);
        lemma_number_of_next(date_of(days - 1));
    } else if days < 0 {
        lemma_number_of_date_of(days + 1);
        lemma_date_of_steps(days);
        lemma_number_of_next(date_of(days));
    }
}

/// The day count of a date leads back to it, whichever way it is reckoned.
pub proof fn date_of_undoes_number(date: Date)
    requires
        date.valid(),
    ensures
        date_of(date.number()) == date,
{
    let found = date_of(date.number());
    lemma_number_of_date_of(date.number());
    lemma_date_of_steps(date.number());
    if found.before(date) {
        lemma_numbers_keep_the_order_of_dates(found, date);
    } else if date.before(found) {
        lemma_numbers_keep_the_order_of_dates(date, found);
    }
}

proof fn lemma_two_digits_order(a: int, b: int)
    requires
        0 <= a < b <= 99,
    ensures
        text_lt(two_digits(a), two_digits(b)),
{
    let x = two_digits(a);
    let y = two_digits(b);
    if a / 10 < b / 10 {
        assert(x.take(0) =~= y.take(0));
        assert(smaller_at(x, y, 0));
    } else {
        assert(x.take(1) =~= y.take(1));
        assert(smaller_at(x, y, 1));
    }
}

proof fn lemma_four_digits_order(a: int, b: int)
    requires
        0 <= a < b <= 9999,
    ensures
        text_lt(four_digits(a), four_digits(b)),
{
    if a / 100 < b / 100 {
        lemma_two_digits_order(a / 100, b / 100);
        lemma_text_lt_extend(
            two_digits(a / 100),
            two_digits(b / 100),
            two_digits(a % 100),
            two_digits(b % 100),
        );
    } else {
        lemma_two_digits_order(a % 100, b % 100);
        lemma_text_lt_prefix(two_digits(a / 100), two_digits(a % 100), two_digits(b % 100));
    }
}

proof fn lemma_date_text_order(a: Date, b: Date)
    requires
        a.valid(),
        b.valid(),
        a.year == b.year,
        a.before(b),
    ensures
        text_lt(date_text(a), date_text(b)),
        date_text(a).len() == date_text(b).len(),
{
    let day_a = two_digits(a.day);
    let day_b = two_digits(b.day);
    let dash = seq!['-'];
    let month_a = two_digits(a.month) + (dash + day_a);
    let month_b = two_digits(b.month) + (dash + day_b);
    if a.month < b.month {
        lemma_two_digits_order(a.month, b.month);
        lemma_text_lt_extend(
            two_digits(a.month),
            two_digits(b.month),
            dash + day_a,
            dash + day_b,
        );
    } else {
        lemma_two_digits_order(a.day, b.day);
        lemma_text_lt_prefix(dash, day_a, day_b);
        lemma_text_lt_prefix(two_digits(a.month), dash + day_a, dash + day_b);
    }
    lemma_text_lt_prefix(dash, month_a, month_b);
    lemma_text_lt_prefix(year_text(a.year), dash + month_a, dash + month_b);
}

proof fn lemma_decimal_nat(n: nat)
    ensures
        decimal_nat(n).len() > 0,
        forall|k: int| 0 <= k < decimal_nat(n).len() ==> '0' <= #[trigger] decimal_nat(n)[k] <= '9',
    decreases n,
{
    if n >= 10 {
        lemma_decimal_nat(n / 10);
    }
}

proof fn lemma_decimal_nat_order(a: nat, b: nat)
    requires
        a < b,
        decimal_nat(a).len() == decimal_nat(b).len(),
    ensures
        text_lt(decimal_nat(a), decimal_nat(b)),
    decreases a,
{
    let x = decimal_nat(a);
    let y = decimal_nat(b);
    lemma_decimal_nat(a / 10);
    lemma_decimal_nat(b / 10);
    if b < 10 {
        assert(x.take(0) =~= y.take(0));
        assert(smaller_at(x, y, 0));
    } else if a / 10 < b / 10 {
        lemma_decimal_nat_order(a / 10, b / 10);
        let last_a = seq![digit((a % 10) as int)];
        let last_b = seq![digit((b % 10) as int)];
        lemma_text_lt_extend(decimal_nat(a / 10), decimal_nat(b / 10), last_a, last_b);
        assert(x =~= decimal_nat(a / 10) + last_a);
        assert(y =~= decimal_nat(b / 10) + last_b);
    } else {
        let i = x.len() - 1;
        assert(x.take(i) =~= y.take(i));
        assert(smaller_at(x, y, i));
    }
}

/// A year has a digit at every place but the first, where a sign may be.
proof fn lemma_year_text(year: int)
    ensures
        year_text(year).len() > 0,
        forall|k: int| 1 <= k < year_text(year).len() ==> #[trigger] year_text(year)[k] != '-',
        year < 0 ==> year_text(year)[0] == '-',
        0 <= year <= 9999 ==> '0' <= year_text(year)[0],
{
    if year < 0 {
        lemma_decimal_nat((-year) as nat);
    } else {
        lemma_decimal_nat(year as nat);
    }
}

/// Years written alike come in order as text: those of four digits, those of
/// five and those of six, and any before the first of them all before the ones
/// of four digits.
pub proof fn years_of_one_width_read_in_order(a: int, b: int)
    requires
        ({
            ||| 0 <= a <= 9999 && 0 <= b <= 9999
            ||| 10_000 <= a <= 99_999 && 10_000 <= b <= 99_999
            ||| 100_000 <= a <= 999_999 && 100_000 <= b <= 999_999
            ||| a < 0 && 0 <= b <= 9999
            ||| b < 0 && 0 <= a <= 9999
        }),
    ensures
        years_read_in_order(a, b),
{
    if a < b {
        lemma_years_read_in_order(a, b);
    } else if b < a {
        lemma_years_read_in_order(b, a);
    }
}

proof fn lemma_years_read_in_order(earlier: int, later: int)
    requires
        earlier < later,
        ({
            ||| 0 <= earlier && later <= 9999
            ||| 10_000 <= earlier && later <= 99_999
            ||| 100_000 <= earlier && later <= 999_999
            ||| earlier < 0 && 0 <= later <= 9999
        }),
    ensures
        text_lt(year_text(earlier) + seq!['-'], year_text(later) + seq!['-']),
{
    let x = year_text(earlier);
    let y = year_text(later);
    let dash = seq!['-'];
    if earlier < 0 {
        lemma_year_text(earlier);
        lemma_year_text(later);
        assert((x + dash).take(0) =~= (y + dash).take(0));
        assert(smaller_at(x + dash, y + dash, 0));
    } else {
        if later <= 9999 {
            lemma_four_digits_order(earlier, later);
        } else {
            reveal_with_fuel(decimal_nat, 7);
            lemma_decimal_nat_order(earlier as nat, later as nat);
            lemma_text_lt_prefix(
                seq!['+'],
                decimal_nat(earlier as nat),
                decimal_nat(later as nat),
            );
        }
        lemma_text_lt_extend(x, y, dash, dash);
    }
}

/// Where the years of two dates are written differently, so are the dates,
/// however they go on.
proof fn lemma_year_decides(a: int, b: int, x: Seq<char>, y: Seq<char>)
    requires
        text_lt(year_text(a) + seq!['-'], year_text(b) + seq!['-']),
    ensures
        text_lt(year_text(a) + seq!['-'] + x, year_text(b) + seq!['-'] + y),
{
    let left = year_text(a) + seq!['-'];
    let right = year_text(b) + seq!['-'];
    let i = choose|i: int| smaller_at(left, right, i);
    lemma_year_text(a);
    lemma_year_text(b);
    if i == left.len() {
        let n = year_text(a).len() as int;
        assert(left.take(i)[n] == right.take(i)[n]);
        assert(right[n] == year_text(b)[n]);
    }
    assert((left + x).take(i) =~= left.take(i));
    assert((right + y).take(i) =~= right.take(i));
    assert(smaller_at(left + x, right + y, i));
}

proof fn lemma_clock_text_order(h1: int, m1: int, s1: int, h2: int, m2: int, s2: int)
    requires
        0 <= h1 <= h2 <= 23,
        0 <= m1 <= 59,
        0 <= m2 <= 59,
        0 <= s1 <= 59,
        0 <= s2 <= 59,
        h1 == h2 ==> m1 <= m2,
        h1 == h2 && m1 == m2 ==> s1 < s2,
    ensures
        text_lt(clock_text(h1, m1, s1), clock_text(h2, m2, s2)),
{
    let colon = seq![':'];
    let second_1 = two_digits(s1);
    let second_2 = two_digits(s2);
    let minute_1 = two_digits(m1) + (colon + second_1);
    let minute_2 = two_digits(m2) + (colon + second_2);
    if h1 < h2 {
        lemma_two_digits_order(h1, h2);
        lemma_text_lt_extend(two_digits(h1), two_digits(h2), colon + minute_1, colon + minute_2);
    } else {
        if m1 < m2 {
            lemma_two_digits_order(m1, m2);
            lemma_text_lt_extend(
                two_digits(m1),
                two_digits(m2),
                colon + second_1,
                colon + second_2,
            );
        } else {
            lemma_two_digits_order(s1, s2);
            lemma_text_lt_prefix(colon, second_1, second_2);
            lemma_text_lt_prefix(two_digits(m1), colon + second_1, colon + second_2);
        }
        lemma_text_lt_prefix(colon, minute_1, minute_2);
        lemma_text_lt_prefix(two_digits(h1), colon + minute_1, colon + minute_2);
    }
}

proof fn lemma_clock(second: int) -> (clock: (int, int, int))
    requires
        0 <= second < 86_400,
    ensures
        clock == (second / 3600, second / 60 % 60, second % 60),
        0 <= clock.0 <= 23,
        0 <= clock.1 <= 59,
        0 <= clock.2 <= 59,
        second == 3600 * clock.0 + 60 * clock.1 + clock.2,
{
    let minutes = second / 60;
    assert(second / 3600 == minutes / 60);
    (second / 3600, minutes % 60, second % 60)
}

proof fn lemma_time_text_order(a: int, b: int)
    requires
        0 <= a < b < 86_400,
    ensures
        text_lt(time_text(a), time_text(b)),
        time_text(a).len() == time_text(b).len(),
{
    let (h1, m1, s1) = lemma_clock(a);
    let (h2, m2, s2) = lemma_clock(b);
    lemma_clock_text_order(h1, m1, s1, h2, m2, s2);
}

/// Written out, instants keep their order as text, as long as their years do.
pub proof fn rfc3339_keeps_the_order_of_instants(earlier: int, later: int)
    requires
        earlier < later,
        years_read_in_order(year_of(earlier), year_of(later)),
    ensures
        text_lt(rfc3339_text(earlier), rfc3339_text(later)),
{
    let day_a = earlier / 86_400;
    let day_b = later / 86_400;
    let rest_a = seq!['T'] + (time_text(earlier % 86_400) + seq!['Z']);
    let rest_b = seq!['T'] + (time_text(later % 86_400) + seq!['Z']);
    let a = date_of(day_a);
    let b = date_of(day_b);
    lemma_date_of_steps(day_a);
    lemma_date_of_steps(day_b);
    if day_a < day_b {
        dates_keep_the_order_of_days(day_a, day_b);
        if a.year < b.year {
            let tail_a = two_digits(a.month) + (seq!['-'] + two_digits(a.day)) + rest_a;
            let tail_b = two_digits(b.month) + (seq!['-'] + two_digits(b.day)) + rest_b;
            lemma_year_decides(a.year, b.year, tail_a, tail_b);
            assert(rfc3339_text(earlier) =~= year_text(a.year) + seq!['-'] + tail_a);
            assert(rfc3339_text(later) =~= year_text(b.year) + seq!['-'] + tail_b);
        } else {
            lemma_date_text_order(a, b);
            lemma_text_lt_extend(date_text(a), date_text(b), rest_a, rest_b);
        }
    } else {
        lemma_time_text_order(earlier % 86_400, later % 86_400);
        lemma_text_lt_extend(
            time_text(earlier % 86_400),
            time_text(later % 86_400),
            seq!['Z'],
            seq!['Z'],
        );
        lemma_text_lt_prefix(
            seq!['T'],
            time_text(earlier % 86_400) + seq!['Z'],
            time_text(later % 86_400) + seq!['Z'],
        );
        lemma_text_lt_prefix(date_text(a), rest_a, rest_b);
    }
}

proof fn lemma_two_digits_read_back(n: int)
    requires
        0 <= n <= 99,
    ensures
        two_digits(n).len() == 2,
        number_of(two_digits(n)) == n,
{
    let text = two_digits(n);
    let front = text.drop_last();
    assert(front =~= seq![digit(n / 10)]);
    assert(front.drop_last() =~= Seq::<char>::empty());
    assert(number_of(front.drop_last()) == 0);
    assert(number_of(front) == n / 10);
}

proof fn lemma_four_digits_read_back(n: int)
    requires
        0 <= n <= 9999,
    ensures
        four_digits(n).len() == 4,
        number_of(four_digits(n)) == n,
{
    let text = four_digits(n);
    let front = text.drop_last();
    lemma_two_digits_read_back(n / 100);
    assert(front.drop_last() =~= two_digits(n / 100));
    assert(front.last() == digit(n % 100 / 10));
    assert(text.last() == digit(n % 100 % 10));
    assert(number_of(front) == n / 100 * 10 + n % 100 / 10);
}

/// An instant written out reads back as itself, to the second: its digits are
/// those of a date of the calendar and of a time of day, and the days since the
/// epoch and the seconds since midnight they come to are the instant's.
pub proof fn an_instant_reads_back(seconds: int)
    requires
        0 <= year_of(seconds) <= 9999,
    ensures
        ({
            let text = rfc3339_text(seconds);
            let date = Date {
                year: number_of(text.subrange(0, 4)),
                month: number_of(text.subrange(5, 7)),
                day: number_of(text.subrange(8, 10)),
            };
            let hour = number_of(text.subrange(11, 13));
            let minute = number_of(text.subrange(14, 16));
            let second = number_of(text.subrange(17, 19));
            &&& text.len() == 20
            &&& text[4] == '-' && text[7] == '-' && text[10] == 'T'
            &&& text[13] == ':' && text[16] == ':' && text[19] == 'Z'
            &&& date.valid()
            &&& 0 <= hour <= 23 && 0 <= minute <= 59 && 0 <= second <= 59
            &&& date.number() * 86_400 + hour * 3600 + minute * 60 + second == seconds
        }),
{
    let date = date_of(seconds / 86_400);
    let (hour, minute, second) = lemma_clock(seconds % 86_400);
    let text = rfc3339_text(seconds);
    lemma_date_of_steps(seconds / 86_400);
    lemma_number_of_date_of(seconds / 86_400);
    lemma_four_digits_read_back(date.year);
    lemma_two_digits_read_back(date.month);
    lemma_two_digits_read_back(date.day);
    lemma_two_digits_read_back(hour);
    lemma_two_digits_read_back(minute);
    lemma_two_digits_read_back(second);
    assert(text.subrange(0, 4) =~= four_digits(date.year));
    assert(text.subrange(5, 7) =~= two_digits(date.month));
    assert(text.subrange(8, 10) =~= two_digits(date.day));
    assert(text.subrange(11, 13) =~= two_digits(hour));
    assert(text.subrange(14, 16) =~= two_digits(minute));
    assert(text.subrange(17, 19) =~= two_digits(second));
}

} // verus!
