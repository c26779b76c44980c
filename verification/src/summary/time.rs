//! # Civil time
//!
//! The calendar arithmetic the derivations normalise dates with. Every
//! date-carrying sort key is an RFC 3339 instant in UTC at seconds
//! precision, so byte order is chronological order. Getting there from a
//! wall time and an offset is a civil-calendar conversion and nothing
//! more: no clock is read and no zone database.

use crate::scan::{decimal_text, digit_char, fixed_text, push_fixed};
use crate::text::{lemma_ascii_order, push_char, text_lt, Text};
use vstd::prelude::*;
use vstd::utf8::*;

verus! {

/// Days from the Unix epoch to a civil date, proleptic Gregorian.
///
/// The year starts in March, so that a leap day is its last: five months
/// from March take 153 days, over and over, and 400 years 146,097.
pub open spec fn civil_days(year: int, month: int, day: int) -> int {
    let y = if month <= 2 {
        year - 1
    } else {
        year
    };
    let m = if month > 2 {
        month - 3
    } else {
        month + 9
    };
    365 * y + y / 4 - y / 100 + y / 400 + (153 * m + 2) / 5 + day - 1 - 719_468
}

/// Whether a year has a leap day.
pub open spec fn is_leap(year: int) -> bool {
    year % 4 == 0 && (year % 100 != 0 || year % 400 == 0)
}

/// The number of days in a month, none for what is no month.
pub open spec fn month_days(year: int, month: int) -> int {
    if month == 1 || month == 3 || month == 5 || month == 7 || month == 8 || month == 10 || month
        == 12 {
        31
    } else if month == 4 || month == 6 || month == 9 || month == 11 {
        30
    } else if month == 2 {
        if is_leap(year) {
            29
        } else {
            28
        }
    } else {
        0
    }
}

/// Whether a date stands in the calendar.
pub open spec fn is_civil(year: int, month: int, day: int) -> bool {
    1 <= month <= 12 && 1 <= day <= month_days(year, month)
}

/// The seconds from the Unix epoch to a UTC wall time.
pub open spec fn unix_seconds(
    year: int,
    month: int,
    day: int,
    hour: int,
    minute: int,
    second: int,
) -> int {
    civil_days(year, month, day) * 86_400 + hour * 3_600 + minute * 60 + second
}

/// The date a day count names.
pub open spec fn civil_date(days: int) -> (int, int, int) {
    choose|date: (int, int, int)|
        is_civil(date.0, date.1, date.2) && #[trigger] civil_days(date.0, date.1, date.2) == days
}

/// An instant as RFC 3339 in UTC, at seconds precision.
pub open spec fn instant_text(timestamp: int) -> Text {
    let (year, month, day) = civil_date(timestamp / 86_400);
    let seconds = timestamp % 86_400;
    fixed_text(year, 4) + seq!['-'] + fixed_text(month, 2) + seq!['-'] + fixed_text(day, 2) + seq![
        'T',
    ] + fixed_text(seconds / 3_600, 2) + seq![':'] + fixed_text(seconds % 3_600 / 60, 2) + seq![
        ':',
    ] + fixed_text(seconds % 60, 2) + seq!['Z']
}

/// The day of the week of a day count, Sunday 0 through Saturday 6; the
/// epoch was a Thursday.
pub open spec fn day_of_week(days: int) -> int {
    (days + 4) % 7
}

/// The number `n` digits spell at a place, where there are that many.
pub open spec fn digits_at(bytes: Seq<u8>, at: int, n: int) -> Option<int>
    decreases n,
{
    if n <= 0 {
        if at <= bytes.len() {
            Some(0)
        } else {
            None
        }
    } else {
        match digits_at(bytes, at, n - 1) {
            Some(value) if at + n <= bytes.len() && 0x30 <= bytes[at + n - 1] <= 0x39 => Some(
                10 * value + (bytes[at + n - 1] - 0x30),
            ),
            _ => None,
        }
    }
}

/// The epoch is day zero.
pub proof fn lemma_the_epoch_is_day_zero()
    ensures
        civil_days(1970, 1, 1) == 0,
{
}

/// The next day of a month counts one more.
pub proof fn lemma_days_count_up(year: int, month: int, day: int)
    ensures
        civil_days(year, month, day + 1) == civil_days(year, month, day) + 1,
{
}

proof fn lemma_div_step(z: int, k: int)
    requires
        k > 1,
    ensures
        z / k - (z - 1) / k == if z % k == 0 {
            1int
        } else {
            0int
        },
{
    let q = z / k;
    let r = z % k;
    vstd::arithmetic::div_mod::lemma_fundamental_div_mod(z, k);
    if r == 0 {
        assert(z - 1 == (q - 1) * k + (k - 1)) by (nonlinear_arith)
            requires
                z == k * q,
        ;
        vstd::arithmetic::div_mod::lemma_fundamental_div_mod_converse(z - 1, k, q - 1, k - 1);
    } else {
        assert(z - 1 == q * k + (r - 1)) by (nonlinear_arith)
            requires
                z == k * q + r,
        ;
        vstd::arithmetic::div_mod::lemma_fundamental_div_mod_converse(z - 1, k, q, r - 1);
    }
}

/// A year gains a leap day exactly where it is a leap year.
proof fn lemma_leap_step(z: int)
    ensures
        (z / 4 - (z - 1) / 4) - (z / 100 - (z - 1) / 100) + (z / 400 - (z - 1) / 400) == if is_leap(
            z,
        ) {
            1int
        } else {
            0int
        },
{
    lemma_div_step(z, 4);
    lemma_div_step(z, 100);
    lemma_div_step(z, 400);
    assert(z % 100 == 0 ==> z % 4 == 0);
    assert(z % 400 == 0 ==> z % 100 == 0);
}

/// A month takes as many days as it has.
pub proof fn lemma_a_month_takes_its_days(year: int, month: int)
    requires
        1 <= month <= 12,
    ensures
        month < 12 ==> civil_days(year, month + 1, 1) == civil_days(year, month, 1) + month_days(
            year,
            month,
        ),
        month == 12 ==> civil_days(year + 1, 1, 1) == civil_days(year, month, 1) + month_days(
            year,
            month,
        ),
{
    lemma_leap_step(year);
    if month == 2 {
        assert(civil_days(year, 3, 1) - civil_days(year, 2, 1) == 28 + (year / 4 - (year - 1) / 4) - (
        year / 100 - (year - 1) / 100) + (year / 400 - (year - 1) / 400));
    }
}

/// The years before March of a year take 365 days each and the leap days.
spec fn march_days(y: int) -> int {
    365 * y + y / 4 - y / 100 + y / 400
}

proof fn lemma_march_days_step(y: int)
    ensures
        365 <= march_days(y + 1) - march_days(y) <= 366,
        march_days(y + 1) - march_days(y) == if is_leap(y + 1) {
            366int
        } else {
            365int
        },
{
    lemma_leap_step(y + 1);
}

proof fn lemma_march_days_grow(a: int, b: int)
    requires
        a <= b,
    ensures
        march_days(a) + 365 * (b - a) <= march_days(b),
    decreases b - a,
{
    if a < b {
        lemma_march_days_grow(a, b - 1);
        lemma_march_days_step(b - 1);
    }
}

/// The day of a year that starts in March.
spec fn march_day(month: int, day: int) -> int {
    let m = if month > 2 {
        month - 3
    } else {
        month + 9
    };
    (153 * m + 2) / 5 + day - 1
}

spec fn march_year(year: int, month: int) -> int {
    if month <= 2 {
        year - 1
    } else {
        year
    }
}

proof fn lemma_march_day_bounds(year: int, month: int, day: int)
    requires
        is_civil(year, month, day),
    ensures
        0 <= march_day(month, day),
        march_day(month, day) < if is_leap(march_year(year, month) + 1) {
            366int
        } else {
            365int
        },
        civil_days(year, month, day) == march_days(march_year(year, month)) + march_day(month, day)
            - 719_468,
{
}

proof fn lemma_march_day_names_one(m1: int, d1: int, m2: int, d2: int, year: int)
    requires
        1 <= m1 <= 12,
        1 <= m2 <= 12,
        1 <= d1,
        1 <= d2,
        d1 <= month_days(
            if m1 <= 2 {
                year + 1
            } else {
                year
            },
            m1,
        ),
        d2 <= month_days(
            if m2 <= 2 {
                year + 1
            } else {
                year
            },
            m2,
        ),
        march_day(m1, d1) == march_day(m2, d2),
    ensures
        m1 == m2,
        d1 == d2,
{
}

/// A day count names one date: no two dates of the calendar share one.
pub proof fn lemma_a_day_names_one_date(
    y1: int,
    m1: int,
    d1: int,
    y2: int,
    m2: int,
    d2: int,
)
    requires
        is_civil(y1, m1, d1),
        is_civil(y2, m2, d2),
        civil_days(y1, m1, d1) == civil_days(y2, m2, d2),
    ensures
        y1 == y2,
        m1 == m2,
        d1 == d2,
{
    lemma_march_day_bounds(y1, m1, d1);
    lemma_march_day_bounds(y2, m2, d2);
    let a = march_year(y1, m1);
    let b = march_year(y2, m2);
    lemma_march_days_step(a);
    lemma_march_days_step(b);
    if a < b {
        lemma_march_days_grow(a + 1, b);
    } else if b < a {
        lemma_march_days_grow(b + 1, a);
    }
    assert(a == b);
    lemma_march_day_names_one(m1, d1, m2, d2, a);
}

/// The date a day count names is the date it was counted for.
pub proof fn lemma_civil_date_inverts(year: int, month: int, day: int)
    requires
        is_civil(year, month, day),
    ensures
        civil_date(civil_days(year, month, day)) == (year, month, day),
{
    let days = civil_days(year, month, day);
    let date = (year, month, day);
    assert(is_civil(date.0, date.1, date.2) && civil_days(date.0, date.1, date.2) == days);
    let found = civil_date(days);
    lemma_a_day_names_one_date(year, month, day, found.0, found.1, found.2);
}

proof fn lemma_months_count_up(year: int, a: int, b: int)
    requires
        1 <= a <= b <= 12,
    ensures
        civil_days(year, a, 1) <= civil_days(year, b, 1),
        a < b ==> civil_days(year, a, 1) + month_days(year, a) <= civil_days(year, b, 1),
    decreases b - a,
{
    if a < b {
        lemma_a_month_takes_its_days(year, a);
        lemma_months_count_up(year, a + 1, b);
    }
}

proof fn lemma_years_count_up(a: int, b: int)
    requires
        a < b,
    ensures
        civil_days(a, 12, 1) + 31 <= civil_days(b, 1, 1),
{
    lemma_a_month_takes_its_days(a, 12);
    lemma_march_days_grow(a, b - 1);
}

/// A later day is a later date, by year, then month, then day.
pub proof fn lemma_later_days_are_later_dates(
    y1: int,
    m1: int,
    d1: int,
    y2: int,
    m2: int,
    d2: int,
)
    requires
        is_civil(y1, m1, d1),
        is_civil(y2, m2, d2),
        civil_days(y1, m1, d1) < civil_days(y2, m2, d2),
    ensures
        y1 < y2 || y1 == y2 && (m1 < m2 || m1 == m2 && d1 < d2),
{
    assert(civil_days(y1, m1, d1) == civil_days(y1, m1, 1) + d1 - 1);
    assert(civil_days(y2, m2, d2) == civil_days(y2, m2, 1) + d2 - 1);
    if y2 < y1 {
        lemma_years_count_up(y2, y1);
        lemma_months_count_up(y2, m2, 12);
        lemma_months_count_up(y1, 1, m1);
    } else if y1 == y2 && m2 < m1 {
        lemma_months_count_up(y1, m2, m1);
    }
}

proof fn lemma_two_digits(n: int)
    requires
        0 <= n < 100,
    ensures
        fixed_text(n, 2) == seq![digit_char(n / 10), digit_char(n % 10)],
{
    reveal_with_fuel(decimal_text, 2);
    assert(fixed_text(n, 2) =~= seq![digit_char(n / 10), digit_char(n % 10)]);
}

proof fn lemma_four_digits(n: int)
    requires
        0 <= n < 10_000,
    ensures
        fixed_text(n, 4) == seq![
            digit_char(n / 1000),
            digit_char(n / 100 % 10),
            digit_char(n / 10 % 10),
            digit_char(n % 10),
        ],
{
    reveal_with_fuel(decimal_text, 4);
    let text = decimal_text(n as nat);
    if n < 10 {
        assert(text =~= seq![digit_char(n)]);
    } else if n < 100 {
        assert(text =~= seq![digit_char(n / 10), digit_char(n % 10)]);
    } else if n < 1000 {
        assert(n / 10 / 10 == n / 100);
        assert(text =~= seq![digit_char(n / 100), digit_char(n / 10 % 10), digit_char(n % 10)]);
    } else {
        assert(n / 10 / 10 == n / 100);
        assert(n / 10 / 10 / 10 == n / 1000);
        assert(text =~= seq![
            digit_char(n / 1000),
            digit_char(n / 100 % 10),
            digit_char(n / 10 % 10),
            digit_char(n % 10),
        ]);
    }
    assert(fixed_text(n, 4) =~= seq![
        digit_char(n / 1000),
        digit_char(n / 100 % 10),
        digit_char(n / 10 % 10),
        digit_char(n % 10),
    ]);
}

/// Whether two ASCII texts first differ where the one is smaller.
spec fn orders(a: Text, b: Text) -> bool {
    is_ascii_chars(a) && is_ascii_chars(b) && exists|k: int| #[trigger] differs_at(a, b, k)
}

spec fn differs_at(a: Text, b: Text, k: int) -> bool {
    0 <= k < a.len() && k < b.len() && a.take(k) == b.take(k) && a[k] < b[k]
}

proof fn lemma_orders(a: Text, b: Text)
    requires
        orders(a, b),
    ensures
        text_lt(a, b),
{
    let k = choose|k: int| #[trigger] differs_at(a, b, k);
    lemma_ascii_order(a, b, k);
}

/// The order of two texts stays, or starts, where texts are appended.
proof fn lemma_orders_on(a: Text, b: Text, x: Text, y: Text)
    requires
        is_ascii_chars(a) && is_ascii_chars(b) && is_ascii_chars(x) && is_ascii_chars(y),
    ensures
        is_ascii_chars(a + x) && is_ascii_chars(b + y),
        orders(a, b) ==> orders(a + x, b + y),
        a == b && orders(x, y) ==> orders(a + x, b + y),
{
    if orders(a, b) {
        let k = choose|k: int| #[trigger] differs_at(a, b, k);
        assert((a + x).take(k) =~= a.take(k));
        assert((b + y).take(k) =~= b.take(k));
        assert(differs_at(a + x, b + y, k));
    } else if a == b && orders(x, y) {
        let k = choose|k: int| #[trigger] differs_at(x, y, k);
        assert((a + x).take(a.len() + k) =~= a + x.take(k));
        assert((b + y).take(a.len() + k) =~= b + y.take(k));
        assert(differs_at(a + x, b + y, a.len() + k));
    }
}

proof fn lemma_two_digits_order(m: int, n: int)
    requires
        0 <= m < 100,
        0 <= n < 100,
    ensures
        is_ascii_chars(fixed_text(m, 2)) && is_ascii_chars(fixed_text(n, 2)),
        m < n ==> orders(fixed_text(m, 2), fixed_text(n, 2)),
{
    lemma_two_digits(m);
    lemma_two_digits(n);
    let (a, b) = (fixed_text(m, 2), fixed_text(n, 2));
    if m < n {
        let k = if m / 10 != n / 10 {
            0int
        } else {
            1int
        };
        assert(a.take(k) =~= b.take(k));
        assert(differs_at(a, b, k));
    }
}

/// Four digits as text.
spec fn four(a: int, b: int, c: int, d: int) -> Text {
    seq![digit_char(a), digit_char(b), digit_char(c), digit_char(d)]
}

proof fn lemma_four_order(
    a1: int,
    b1: int,
    c1: int,
    d1: int,
    a2: int,
    b2: int,
    c2: int,
    d2: int,
)
    requires
        0 <= a1 < 10 && 0 <= b1 < 10 && 0 <= c1 < 10 && 0 <= d1 < 10,
        0 <= a2 < 10 && 0 <= b2 < 10 && 0 <= c2 < 10 && 0 <= d2 < 10,
    ensures
        is_ascii_chars(four(a1, b1, c1, d1)) && is_ascii_chars(four(a2, b2, c2, d2)),
        1000 * a1 + 100 * b1 + 10 * c1 + d1 < 1000 * a2 + 100 * b2 + 10 * c2 + d2 ==> orders(
            four(a1, b1, c1, d1),
            four(a2, b2, c2, d2),
        ),
{
    let (x, y) = (four(a1, b1, c1, d1), four(a2, b2, c2, d2));
    if 1000 * a1 + 100 * b1 + 10 * c1 + d1 < 1000 * a2 + 100 * b2 + 10 * c2 + d2 {
        let k = if a1 != a2 {
            0int
        } else if b1 != b2 {
            1int
        } else if c1 != c2 {
            2int
        } else {
            3int
        };
        assert(x.take(k) =~= y.take(k));
        assert(differs_at(x, y, k));
    }
}

proof fn lemma_four_digits_order(m: int, n: int)
    requires
        0 <= m < 10_000,
        0 <= n < 10_000,
    ensures
        is_ascii_chars(fixed_text(m, 4)) && is_ascii_chars(fixed_text(n, 4)),
        m < n ==> orders(fixed_text(m, 4), fixed_text(n, 4)),
{
    lemma_four_digits(m);
    lemma_four_digits(n);
    lemma_digits_of(m);
    lemma_digits_of(n);
    lemma_four_order(
        m / 1000,
        m / 100 % 10,
        m / 10 % 10,
        m % 10,
        n / 1000,
        n / 100 % 10,
        n / 10 % 10,
        n % 10,
    );
}

proof fn lemma_digits_of(n: int)
    requires
        0 <= n < 10_000,
    ensures
        0 <= n / 1000 < 10,
        n == 1000 * (n / 1000) + 100 * (n / 100 % 10) + 10 * (n / 10 % 10) + n % 10,
{
    assert(n / 10 / 10 == n / 100);
    assert(n / 100 / 10 == n / 1000);
}

/// An instant over its six numbers.
spec fn spelled(y: int, mo: int, d: int, h: int, mi: int, s: int) -> Text {
    fixed_text(y, 4) + seq!['-'] + fixed_text(mo, 2) + seq!['-'] + fixed_text(d, 2) + seq!['T']
        + fixed_text(h, 2) + seq![':'] + fixed_text(mi, 2) + seq![':'] + fixed_text(s, 2) + seq!['Z']
}

proof fn lemma_spelled_order(
    y1: int,
    mo1: int,
    d1: int,
    h1: int,
    mi1: int,
    s1: int,
    y2: int,
    mo2: int,
    d2: int,
    h2: int,
    mi2: int,
    s2: int,
)
    requires
        0 <= y1 < 10_000 && 0 <= y2 < 10_000,
        0 <= mo1 < 100 && 0 <= mo2 < 100,
        0 <= d1 < 100 && 0 <= d2 < 100,
        0 <= h1 < 100 && 0 <= h2 < 100,
        0 <= mi1 < 100 && 0 <= mi2 < 100,
        0 <= s1 < 100 && 0 <= s2 < 100,
        y1 < y2 || y1 == y2 && (mo1 < mo2 || mo1 == mo2 && (d1 < d2 || d1 == d2 && (h1 < h2 || h1
            == h2 && (mi1 < mi2 || mi1 == mi2 && s1 < s2)))),
    ensures
        text_lt(spelled(y1, mo1, d1, h1, mi1, s1), spelled(y2, mo2, d2, h2, mi2, s2)),
{
    lemma_four_digits_order(y1, y2);
    lemma_two_digits_order(mo1, mo2);
    lemma_two_digits_order(d1, d2);
    lemma_two_digits_order(h1, h2);
    lemma_two_digits_order(mi1, mi2);
    lemma_two_digits_order(s1, s2);
    let (a, b) = (fixed_text(y1, 4), fixed_text(y2, 4));
    lemma_orders_on(a, b, seq!['-'], seq!['-']);
    let (a, b) = (a + seq!['-'], b + seq!['-']);
    lemma_orders_on(a, b, fixed_text(mo1, 2), fixed_text(mo2, 2));
    let (a, b) = (a + fixed_text(mo1, 2), b + fixed_text(mo2, 2));
    lemma_orders_on(a, b, seq!['-'], seq!['-']);
    let (a, b) = (a + seq!['-'], b + seq!['-']);
    lemma_orders_on(a, b, fixed_text(d1, 2), fixed_text(d2, 2));
    let (a, b) = (a + fixed_text(d1, 2), b + fixed_text(d2, 2));
    lemma_orders_on(a, b, seq!['T'], seq!['T']);
    let (a, b) = (a + seq!['T'], b + seq!['T']);
    lemma_orders_on(a, b, fixed_text(h1, 2), fixed_text(h2, 2));
    let (a, b) = (a + fixed_text(h1, 2), b + fixed_text(h2, 2));
    lemma_orders_on(a, b, seq![':'], seq![':']);
    let (a, b) = (a + seq![':'], b + seq![':']);
    lemma_orders_on(a, b, fixed_text(mi1, 2), fixed_text(mi2, 2));
    let (a, b) = (a + fixed_text(mi1, 2), b + fixed_text(mi2, 2));
    lemma_orders_on(a, b, seq![':'], seq![':']);
    let (a, b) = (a + seq![':'], b + seq![':']);
    lemma_orders_on(a, b, fixed_text(s1, 2), fixed_text(s2, 2));
    let (a, b) = (a + fixed_text(s1, 2), b + fixed_text(s2, 2));
    lemma_orders_on(a, b, seq!['Z'], seq!['Z']);
    lemma_orders(a + seq!['Z'], b + seq!['Z']);
}

/// The seconds of a day order as hours, minutes and seconds do.
proof fn lemma_clock_order(a: int, b: int)
    requires
        0 <= a < b < 86_400,
    ensures
        a / 3_600 < b / 3_600 || a / 3_600 == b / 3_600 && (a % 3_600 / 60 < b % 3_600 / 60 || a
            % 3_600 / 60 == b % 3_600 / 60 && a % 60 < b % 60),
{
    let (x, y) = (a % 3_600, b % 3_600);
    assert(a == 3_600 * (a / 3_600) + x);
    assert(b == 3_600 * (b / 3_600) + y);
    assert(x % 60 == a % 60);
    assert(y % 60 == b % 60);
}

/// The byte order of the instants is the order of time, over the years
/// four digits spell.
pub proof fn lemma_instants_order_as_time(a: int, b: int)
    requires
        civil_days(0, 1, 1) * 86_400 <= a < b < civil_days(10_000, 1, 1) * 86_400,
    ensures
        text_lt(instant_text(a), instant_text(b)),
{
    let (da, db) = (a / 86_400, b / 86_400);
    let (sa, sb) = (a % 86_400, b % 86_400);
    lemma_every_day_has_a_date(da);
    lemma_every_day_has_a_date(db);
    let (y1, m1, d1) = civil_date(da);
    let (y2, m2, d2) = civil_date(db);
    lemma_date_within_four_digits(da);
    lemma_date_within_four_digits(db);
    if da < db {
        lemma_later_days_are_later_dates(y1, m1, d1, y2, m2, d2);
    } else {
        lemma_clock_order(sa, sb);
    }
    lemma_spelled_order(
        y1,
        m1,
        d1,
        sa / 3_600,
        sa % 3_600 / 60,
        sa % 60,
        y2,
        m2,
        d2,
        sb / 3_600,
        sb % 3_600 / 60,
        sb % 60,
    );
}

proof fn lemma_date_within_four_digits(days: int)
    requires
        civil_days(0, 1, 1) <= days < civil_days(10_000, 1, 1),
        is_civil(civil_date(days).0, civil_date(days).1, civil_date(days).2),
        civil_days(civil_date(days).0, civil_date(days).1, civil_date(days).2) == days,
    ensures
        0 <= civil_date(days).0 < 10_000,
{
    let (y, m, d) = civil_date(days);
    assert(civil_days(y, m, d) == civil_days(y, m, 1) + d - 1);
    if y < 0 {
        lemma_years_count_up(y, 0);
        lemma_months_count_up(y, m, 12);
    } else if y >= 10_000 {
        lemma_months_count_up(y, 1, m);
        if y > 10_000 {
            lemma_years_count_up(10_000, y);
            lemma_months_count_up(10_000, 1, 12);
        }
    }
}

/// Every day has a date.
pub proof fn lemma_every_day_has_a_date(days: int)
    ensures
        is_civil(civil_date(days).0, civil_date(days).1, civil_date(days).2),
        civil_days(civil_date(days).0, civil_date(days).1, civil_date(days).2) == days,
{
    let shifted = days + 719_468;
    let era = shifted / 146_097;
    let day_of_era = shifted % 146_097;
    lemma_year_of_era(day_of_era);
    let year_of_era = (day_of_era - day_of_era / 1460 + day_of_era / 36_524 - day_of_era / 146_096)
        / 365;
    let year = year_of_era + era * 400;
    let day_of_year = day_of_era - (365 * year_of_era + year_of_era / 4 - year_of_era / 100);
    lemma_leap_of_era(year_of_era, era);
    lemma_month_of_day(year, day_of_year);
    let mp = (5 * day_of_year + 2) / 153;
    let day = day_of_year - (153 * mp + 2) / 5 + 1;
    let month = if mp < 10 {
        mp + 3
    } else {
        mp - 9
    };
    let civil = if month <= 2 {
        year + 1
    } else {
        year
    };
    lemma_march_day_bounds(civil, month, day);
    let date = (civil, month, day);
    assert(is_civil(date.0, date.1, date.2) && civil_days(date.0, date.1, date.2) == days);
}

/// The largest whole number of times a positive number fits below.
fn floor_div(a: i64, b: i64) -> (q: i64)
    requires
        0 < b,
    ensures
        q == a as int / b as int,
{
    if a >= 0 {
        a / b
    } else {
        let n: i64 = -(a + 1);
        let q: i64 = -(n / b) - 1;
        proof {
            let (a, b, n, q) = (a as int, b as int, n as int, q as int);
            let r = n % b;
            assert(n == b * (n / b) + r && 0 <= r < b) by (nonlinear_arith)
                requires
                    b > 0,
                    r == n % b,
            ;
            assert(a == b * q + (b - 1 - r)) by (nonlinear_arith)
                requires
                    n == b * (n / b) + r,
                    n == -(a + 1),
                    q == -(n / b) - 1,
            ;
            vstd::arithmetic::div_mod::lemma_fundamental_div_mod_converse(a, b, q, b - 1 - r);
        }
        q
    }
}

/// What is left above the largest multiple below.
fn floor_mod(a: i64, b: i64) -> (r: i64)
    requires
        0 < b,
    ensures
        r == a as int % b as int,
        0 <= r < b,
{
    if a >= 0 {
        a % b
    } else {
        let n: i64 = -(a + 1);
        let r: i64 = b - 1 - n % b;
        proof {
            let (a, b, n, r) = (a as int, b as int, n as int, r as int);
            let q = n / b;
            assert(n == b * q + n % b && 0 <= n % b < b) by (nonlinear_arith)
                requires
                    b > 0,
                    q == n / b,
            ;
            assert(a == b * (-q - 1) + r) by (nonlinear_arith)
                requires
                    n == b * q + n % b,
                    n == -(a + 1),
                    r == b - 1 - n % b,
            ;
            vstd::arithmetic::div_mod::lemma_fundamental_div_mod_converse(a, b, -q - 1, r);
        }
        r
    }
}

/// Days from the Unix epoch to a civil date, proleptic Gregorian.
///
/// Exact over the whole range of `i32` years, without a table.
pub fn days_from_civil(year: i32, month: u32, day: u32) -> (days: i64)
    ensures
        days == civil_days(year as int, month as int, day as int),
        -785_000_000_000 <= days <= 1_000_000_000_000,
{
    let y: i64 = if month <= 2 {
        year as i64 - 1
    } else {
        year as i64
    };
    let m: i64 = if month > 2 {
        month as i64 - 3
    } else {
        month as i64 + 9
    };
    let leap: i64 = floor_div(y, 4) - floor_div(y, 100) + floor_div(y, 400);
    365 * y + leap + (153 * m + 2) / 5 + day as i64 - 1 - 719_468
}

#[verifier::spinoff_prover]
#[verifier::rlimit(50)]
proof fn lemma_leap_of_era(year_of_era: int, era: int)
    requires
        0 <= year_of_era < 400,
    ensures
        is_leap(year_of_era + era * 400 + 1) == is_leap(year_of_era + 1),
        march_days(year_of_era + era * 400) == era * 146_097 + 365 * year_of_era + year_of_era / 4
            - year_of_era / 100,
{
    let y = year_of_era + era * 400;
    vstd::arithmetic::div_mod::lemma_hoist_over_denominator(year_of_era, era * 100, 4);
    vstd::arithmetic::div_mod::lemma_hoist_over_denominator(year_of_era, era * 4, 100);
    vstd::arithmetic::div_mod::lemma_hoist_over_denominator(year_of_era, era, 400);
    assert(y / 4 == year_of_era / 4 + era * 100);
    assert(y / 100 == year_of_era / 100 + era * 4);
    assert(y / 400 == era);
    vstd::arithmetic::div_mod::lemma_mod_multiples_vanish(era * 100, year_of_era + 1, 4);
    vstd::arithmetic::div_mod::lemma_mod_multiples_vanish(era * 4, year_of_era + 1, 100);
    vstd::arithmetic::div_mod::lemma_mod_multiples_vanish(era, year_of_era + 1, 400);
}

/// A day of a year that starts in March is a day of a month.
proof fn lemma_month_of_day(year: int, doy: int)
    requires
        0 <= doy <= 365,
        doy == 365 ==> is_leap(year + 1),
    ensures
        ({
            let mp = (5 * doy + 2) / 153;
            let day = doy - (153 * mp + 2) / 5 + 1;
            let month = if mp < 10 {
                mp + 3
            } else {
                mp - 9
            };
            let civil = if month <= 2 {
                year + 1
            } else {
                year
            };
            &&& 0 <= mp < 12
            &&& is_civil(civil, month, day)
            &&& march_year(civil, month) == year
            &&& march_day(month, day) == doy
        }),
{
}

/// The civil date a day count names, whatever its year.
fn civil_from_day(days: i64) -> (date: (i64, u32, u32))
    requires
        -200_000_000_000_000 <= days <= 200_000_000_000_000,
    ensures
        is_civil(date.0 as int, date.1 as int, date.2 as int),
        civil_days(date.0 as int, date.1 as int, date.2 as int) == days,
        civil_date(days as int) == (date.0 as int, date.1 as int, date.2 as int),
        -3_000_000_000_000 <= date.0 <= 3_000_000_000_000,
{
    let shifted: i64 = days + 719_468;
    let era: i64 = floor_div(shifted, 146_097);
    proof {
        vstd::arithmetic::div_mod::lemma_fundamental_div_mod(shifted as int, 146_097);
    }
    let day_of_era: i64 = shifted - era * 146_097;
    proof {
        lemma_year_of_era(day_of_era as int);
    }
    let year_of_era: i64 = (day_of_era - day_of_era / 1460 + day_of_era / 36_524 - day_of_era
        / 146_096) / 365;
    let year: i64 = year_of_era + era * 400;
    let day_of_year: i64 = day_of_era - (365 * year_of_era + year_of_era / 4 - year_of_era / 100);
    proof {
        lemma_leap_of_era(year_of_era as int, era as int);
        lemma_month_of_day(year as int, day_of_year as int);
    }
    let month_prime: i64 = (5 * day_of_year + 2) / 153;
    let day: u32 = (day_of_year - (153 * month_prime + 2) / 5 + 1) as u32;
    let month: u32 = if month_prime < 10 {
        (month_prime + 3) as u32
    } else {
        (month_prime - 9) as u32
    };
    let civil: i64 = if month <= 2 {
        year + 1
    } else {
        year
    };
    proof {
        lemma_march_day_bounds(civil as int, month as int, day as int);
        lemma_civil_date_inverts(civil as int, month as int, day as int);
    }
    (civil, month, day)
}

/// The year of an era holds the day the estimate gives it.
proof fn lemma_year_of_era(doe: int)
    requires
        0 <= doe < 146_097,
    ensures
        ({
            let yoe = (doe - doe / 1460 + doe / 36_524 - doe / 146_096) / 365;
            let doy = doe - (365 * yoe + yoe / 4 - yoe / 100);
            &&& 0 <= yoe < 400
            &&& 0 <= doy <= 365
            &&& doy == 365 ==> is_leap(yoe + 1)
        }),
{
}

/// The civil date a day count from the Unix epoch names: the inverse of
/// [`days_from_civil`], over the days whose year an `i32` holds.
pub fn civil_from_days(days: i64) -> (date: (i32, u32, u32))
    requires
        civil_days(i32::MIN as int, 1, 1) <= days <= civil_days(i32::MAX as int, 12, 31),
    ensures
        is_civil(date.0 as int, date.1 as int, date.2 as int),
        civil_days(date.0 as int, date.1 as int, date.2 as int) == days,
        civil_date(days as int) == (date.0 as int, date.1 as int, date.2 as int),
{
    let (year, month, day) = civil_from_day(days);
    proof {
        lemma_march_day_bounds(year as int, month as int, day as int);
        let y = march_year(year as int, month as int);
        lemma_march_days_step(y);
        if year > i32::MAX {
            lemma_march_days_grow(i32::MAX as int, y);
        }
        if year < i32::MIN {
            lemma_march_days_grow(y + 1, i32::MIN - 1);
        }
    }
    (year as i32, month, day)
}

/// The Unix timestamp of a UTC wall time.
pub fn unix(year: i32, month: u32, day: u32, hour: u32, minute: u32, second: u32) -> (timestamp:
    i64)
    ensures
        timestamp == unix_seconds(
            year as int,
            month as int,
            day as int,
            hour as int,
            minute as int,
            second as int,
        ),
        -70_000_000_000_000_000 <= timestamp <= 90_000_000_000_000_000,
{
    days_from_civil(year, month, day) * 86_400 + hour as i64 * 3_600 + minute as i64 * 60
        + second as i64
}

/// A Unix timestamp as the RFC 3339 instant in UTC, at seconds precision,
/// that every date-carrying sort key holds.
pub fn rfc3339(timestamp: i64) -> (text: String)
    ensures
        text@ == instant_text(timestamp as int),
{
    let days: i64 = floor_div(timestamp, 86_400);
    let seconds: i64 = floor_mod(timestamp, 86_400);
    let (year, month, day) = civil_from_day(days);
    let mut text = String::new();
    push_fixed(&mut text, year, 4);
    push_char(&mut text, '-');
    push_fixed(&mut text, month as i64, 2);
    push_char(&mut text, '-');
    push_fixed(&mut text, day as i64, 2);
    push_char(&mut text, 'T');
    push_fixed(&mut text, seconds / 3_600, 2);
    push_char(&mut text, ':');
    push_fixed(&mut text, seconds % 3_600 / 60, 2);
    push_char(&mut text, ':');
    push_fixed(&mut text, seconds % 60, 2);
    push_char(&mut text, 'Z');
    assert(text@ =~= instant_text(timestamp as int));
    text
}

/// The day of the week, Sunday 0 through Saturday 6, of a day count from
/// the Unix epoch (a Thursday).
pub fn weekday(days: i64) -> (day: u32)
    requires
        days <= i64::MAX - 4,
    ensures
        day == day_of_week(days as int),
        day < 7,
{
    floor_mod(days + 4, 7) as u32
}

/// The number of days in a month; zero for what is no month.
pub fn days_in_month(year: i32, month: u32) -> (days: u32)
    ensures
        days == month_days(year as int, month as int),
{
    match month {
        1 | 3 | 5 | 7 | 8 | 10 | 12 => 31,
        4 | 6 | 9 | 11 => 30,
        2 => {
            let y: i64 = year as i64;
            let fours: i64 = floor_mod(y, 4);
            let hundreds: i64 = floor_mod(y, 100);
            let eras: i64 = floor_mod(y, 400);
            if fours == 0 && (hundreds != 0 || eras == 0) {
                29
            } else {
                28
            }
        },
        _ => 0,
    }
}

/// Parses `n` decimal digits at `bytes[at..]`.
pub fn digits(bytes: &[u8], at: usize, n: usize) -> (value: Option<u32>)
    requires
        n <= 9,
        at + n <= usize::MAX,
    ensures
        match value {
            Some(value) => digits_at(bytes@, at as int, n as int) == Some(value as int) && at + n
                <= bytes.len(),
            None => digits_at(bytes@, at as int, n as int) is None,
        },
        n == 2 ==> (value matches Some(value) ==> value < 100),
        n == 4 ==> (value matches Some(value) ==> value < 10_000),
{
    if at > bytes.len() {
        proof {
            lemma_no_digits_past_the_end(bytes@, at as int, n as int);
        }
        return None;
    }
    let mut value: u32 = 0;
    let mut i: usize = 0;
    let ghost mut bound: int = 1;
    while i < n
        invariant
            i <= n <= 9,
            at + n <= usize::MAX,
            at + i <= bytes.len(),
            digits_at(bytes@, at as int, i as int) == Some(value as int),
            value < bound <= 1_000_000_000,
            i == 0 ==> bound == 1,
            i == 1 ==> bound == 10,
            i == 2 ==> bound == 100,
            i == 3 ==> bound == 1_000,
            i == 4 ==> bound == 10_000,
            i == 5 ==> bound == 100_000,
            i == 6 ==> bound == 1_000_000,
            i == 7 ==> bound == 10_000_000,
            i == 8 ==> bound == 100_000_000,
            i == 9 ==> bound == 1_000_000_000,
        decreases n - i,
    {
        if at + i >= bytes.len() || bytes[at + i] < 0x30 || bytes[at + i] > 0x39 {
            proof {
                assert(digits_at(bytes@, at as int, i + 1) is None);
                lemma_no_digits_stay(bytes@, at as int, i + 1, n as int);
            }
            return None;
        }
        value = value * 10 + (bytes[at + i] - 0x30) as u32;
        proof {
            bound = bound * 10;
        }
        i = i + 1;
    }
    Some(value)
}

proof fn lemma_no_digits_stay(bytes: Seq<u8>, at: int, i: int, n: int)
    requires
        0 <= i <= n,
        digits_at(bytes, at, i) is None,
    ensures
        digits_at(bytes, at, n) is None,
    decreases n - i,
{
    if i < n {
        lemma_no_digits_stay(bytes, at, i + 1, n);
    }
}

proof fn lemma_no_digits_past_the_end(bytes: Seq<u8>, at: int, n: int)
    requires
        at > bytes.len(),
        0 <= n,
    ensures
        digits_at(bytes, at, n) is None,
{
    lemma_no_digits_stay(bytes, at, 0, n);
}

} // verus!
