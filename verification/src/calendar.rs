//! Days, dates and timestamps in universal time.

use crate::text::{decimal, law_decimals, pad_start, padded_start, render};
use vstd::prelude::*;

verus! {

/// Whether a year of the Gregorian calendar is a leap year.
pub open spec fn leap(y: int) -> bool {
    (y % 4 == 0 && y % 100 != 0) || y % 400 == 0
}

/// The number of days of a year.
pub open spec fn year_len(y: int) -> int {
    if leap(y) {
        366
    } else {
        365
    }
}

/// The number of days of a month, where January has number 1.
pub open spec fn month_len(y: int, m: int) -> int {
    if m == 2 {
        if leap(y) {
            29
        } else {
            28
        }
    } else if m == 4 || m == 6 || m == 9 || m == 11 {
        30
    } else {
        31
    }
}

/// The number of days before a year, counted from the start of year 1.
pub open spec fn days_before_year(y: int) -> int {
    365 * (y - 1) + (y - 1) / 4 - (y - 1) / 100 + (y - 1) / 400
}

/// The number of days before a month within its year.
pub open spec fn days_before_month(y: int, m: int) -> int
    decreases m,
{
    if m <= 1 {
        0
    } else {
        days_before_month(y, m - 1) + month_len(y, m - 1)
    }
}

/// The number of days from the first of January 1970 to a date.
pub open spec fn day_number(y: int, m: int, d: int) -> int {
    days_before_year(y) - days_before_year(1970) + days_before_month(y, m) + d - 1
}

/// Whether year, month and day make up a date.
pub open spec fn is_date(y: int, m: int, d: int) -> bool {
    1 <= m <= 12 && 1 <= d <= month_len(y, m)
}

/// Decides whether a year is a leap year.
pub fn is_leap(y: i32) -> (yes: bool)
    ensures
        yes == leap(y as int),
{
    let by_4: bool = y % 4 == 0;
    assert(by_4 == (y as int % 4 == 0));
    let by_100: bool = y % 100 == 0;
    assert(by_100 == (y as int % 100 == 0));
    let by_400: bool = y % 400 == 0;
    assert(by_400 == (y as int % 400 == 0));
    (by_4 && !by_100) || by_400
}

proof fn lemma_next_year(y: int)
    ensures
        days_before_year(y + 1) == days_before_year(y) + year_len(y),
{
    assert(y / 4 - (y - 1) / 4 == if y % 4 == 0 {
        1int
    } else {
        0
    });
    assert(y / 100 - (y - 1) / 100 == if y % 100 == 0 {
        1int
    } else {
        0
    });
    assert(y / 400 - (y - 1) / 400 == if y % 400 == 0 {
        1int
    } else {
        0
    });
}

proof fn lemma_years_grow(y: int, z: int)
    requires
        y <= z,
    ensures
        days_before_year(y) + 365 * (z - y) <= days_before_year(z),
    decreases z - y,
{
    if y < z {
        lemma_years_grow(y, z - 1);
        lemma_next_year(z - 1);
    }
}

proof fn lemma_months_fill_the_year(y: int)
    ensures
        days_before_month(y, 13) == year_len(y),
{
    reveal_with_fuel(days_before_month, 14);
}

proof fn lemma_months_grow(y: int, m: int, n: int)
    requires
        1 <= m < n,
    ensures
        days_before_month(y, m) + month_len(y, m) <= days_before_month(y, n),
    decreases n - m,
{
    if m + 1 < n {
        lemma_months_grow(y, m, n - 1);
    }
}

/// The number of days of a month.
fn month_days(y: i32, m: u32) -> (days: u64)
    ensures
        days == month_len(y as int, m as int),
{
    if m == 2 {
        if is_leap(y) {
            29
        } else {
            28
        }
    } else if m == 4 || m == 6 || m == 9 || m == 11 {
        30
    } else {
        31
    }
}

/// The number of days from the first of January 1970 to the first year that 31 bits cannot hold.
pub const END_OF_DAYS: u64 = 784_351_576_777;

proof fn lemma_end_of_days()
    ensures
        END_OF_DAYS == day_number(0x8000_0000, 1, 1),
{
    assert(days_before_month(0x8000_0000, 1) == 0);
    assert(days_before_year(0x8000_0000) - days_before_year(1970) == 784_351_576_777)
        by (nonlinear_arith);
}

/// The date that lies a number of days after the first of January 1970.
pub fn days_to_ymd(days: u64) -> (date: (i32, u32, u32))
    requires
        days < END_OF_DAYS,
    ensures
        date.0 >= 1970,
        is_date(date.0 as int, date.1 as int, date.2 as int),
        day_number(date.0 as int, date.1 as int, date.2 as int) == days,
{
    let mut y: i32 = 1970;
    let mut remaining: u64 = days;
    loop
        invariant_except_break
            1970 <= y,
            remaining + days_before_year(y as int) - days_before_year(1970) == days,
            days < END_OF_DAYS,
        ensures
            1970 <= y,
            remaining + days_before_year(y as int) - days_before_year(1970) == days,
            remaining < year_len(y as int),
        decreases remaining,
    {
        let year_days: u64 = if is_leap(y) {
            366
        } else {
            365
        };
        if remaining < year_days {
            break;
        }
        proof {
            lemma_next_year(y as int);
            lemma_end_of_days();
            assert(days_before_month(0x8000_0000, 1) == 0);
            assert(y as int + 1 != 0x8000_0000);
        }
        remaining = remaining - year_days;
        y = y + 1;
    }
    let mut m: u32 = 1;
    proof {
        lemma_months_fill_the_year(y as int);
    }
    while m < 12 && remaining >= month_days(y, m)
        invariant
            1 <= m <= 12,
            remaining + days_before_month(y as int, m as int) + days_before_year(y as int)
                - days_before_year(1970) == days,
            remaining + days_before_month(y as int, m as int) < days_before_month(y as int, 13),
        decreases 12 - m,
    {
        remaining = remaining - month_days(y, m);
        m = m + 1;
    }
    assert(days_before_month(y as int, 13) == days_before_month(y as int, 12) + month_len(
        y as int,
        12,
    ));
    assert(remaining < month_len(y as int, m as int));
    (y, m, remaining as u32 + 1)
}

/// A day has one date only.
pub proof fn law_one_date_per_day(y: int, m: int, d: int, y2: int, m2: int, d2: int)
    requires
        is_date(y, m, d),
        is_date(y2, m2, d2),
        day_number(y, m, d) == day_number(y2, m2, d2),
    ensures
        y == y2 && m == m2 && d == d2,
{
    law_days_follow_dates(y, m, d, y2, m2, d2);
    law_days_follow_dates(y2, m2, d2, y, m, d);
}

/// Whether a date lies before another.
pub open spec fn earlier(y: int, m: int, d: int, y2: int, m2: int, d2: int) -> bool {
    y < y2 || (y == y2 && (m < m2 || (m == m2 && d < d2)))
}

/// A date that lies before another has the smaller day number.
pub proof fn law_days_follow_dates(y: int, m: int, d: int, y2: int, m2: int, d2: int)
    requires
        is_date(y, m, d),
        is_date(y2, m2, d2),
    ensures
        earlier(y, m, d, y2, m2, d2) ==> day_number(y, m, d) < day_number(y2, m2, d2),
{
    if y < y2 {
        lemma_next_year(y);
        lemma_years_grow(y + 1, y2);
        lemma_months_fill_the_year(y);
        lemma_months_grow(y, m, 13);
        lemma_months_positive(y2, m2);
    } else if y == y2 && m < m2 {
        lemma_months_grow(y, m, m2);
    }
}

proof fn lemma_months_positive(y: int, m: int)
    ensures
        days_before_month(y, m) >= 0,
    decreases m,
{
    if m > 1 {
        lemma_months_positive(y, m - 1);
    }
}

/// A number with at least `digits` digits.
pub open spec fn zero_padded(n: nat, digits: nat) -> Seq<char> {
    padded_start(decimal(n), digits, '0')
}

/// A date and a time of day as a timestamp.
pub open spec fn timestamp_text(y: nat, m: nat, d: nat, second: nat) -> Seq<char> {
    zero_padded(y, 4) + "-"@ + zero_padded(m, 2) + "-"@ + zero_padded(d, 2) + "T"@ + zero_padded(
        second / 3600,
        2,
    ) + ":"@ + zero_padded((second % 3600) / 60, 2) + ":"@ + zero_padded(second % 60, 2) + "Z"@
}

/// Whether `text` is the timestamp of a moment, given in seconds since the start of 1970.
pub open spec fn is_timestamp(secs: nat, text: Seq<char>) -> bool {
    exists|y: nat, m: nat, d: nat|
        #![trigger day_number(y as int, m as int, d as int)]
        is_date(y as int, m as int, d as int) && day_number(y as int, m as int, d as int) == secs
            / 86400 && text == timestamp_text(y, m, d, secs % 86400)
}

/// The timestamp of a moment, given in seconds since the start of 1970.
pub fn utc_timestamp(secs: u64) -> (text: String)
    requires
        secs / 86400 < END_OF_DAYS,
    ensures
        is_timestamp(secs as nat, text@),
{
    let days: u64 = secs / 86400;
    let second: u64 = secs % 86400;
    let (y, m, d) = days_to_ymd(days);
    let mut text = pad_start(render(y as u64).as_str(), 4, '0');
    text.append("-");
    text.append(pad_start(render(m as u64).as_str(), 2, '0').as_str());
    text.append("-");
    text.append(pad_start(render(d as u64).as_str(), 2, '0').as_str());
    text.append("T");
    text.append(pad_start(render(second / 3600).as_str(), 2, '0').as_str());
    text.append(":");
    text.append(pad_start(render((second % 3600) / 60).as_str(), 2, '0').as_str());
    text.append(":");
    text.append(pad_start(render(second % 60).as_str(), 2, '0').as_str());
    text.append("Z");
    assert(text@ == timestamp_text(y as nat, m as nat, d as nat, second as nat));
    assert(day_number(y as nat as int, m as nat as int, d as nat as int) == days);
    text
}

/// Days are counted from the first of January 1970, and the next day has the next number: the next
/// in the month, the first of the next month, or the first of January. February has 29 days in
/// years that four divides, but not a hundred unless four hundred does.
pub proof fn law_the_next_day(y: int, m: int, d: int)
    requires
        is_date(y, m, d),
    ensures
        ({
            let long = y % 4 == 0 && (y % 100 != 0 || y % 400 == 0);
            let len: int = if m == 2 {
                if long {
                    29
                } else {
                    28
                }
            } else if m == 4 || m == 6 || m == 9 || m == 11 {
                30
            } else {
                31
            };
            &&& 1 <= m <= 12
            &&& 1 <= d <= len
            &&& d < len ==> is_date(y, m, d + 1) && day_number(y, m, d + 1) == day_number(y, m, d)
                + 1
            &&& d == len && m < 12 ==> is_date(y, m + 1, 1) && day_number(y, m + 1, 1)
                == day_number(y, m, d) + 1
            &&& d == len && m == 12 ==> is_date(y + 1, 1, 1) && day_number(y + 1, 1, 1)
                == day_number(y, m, d) + 1
        }),
        day_number(1970, 1, 1) == 0,
{
    lemma_next_year(y);
    lemma_months_fill_the_year(y);
    assert(days_before_month(y + 1, 1) == 0);
    assert(days_before_month(1970, 1) == 0);
    assert(days_before_month(y, m + 1) == days_before_month(y, m) + month_len(y, m));
}

/// Whether a character is the digit of a number below ten.
pub open spec fn is_digit(c: char, n: int) -> bool {
    0 <= n < 10 && c as int == '0' as int + n
}

proof fn lemma_two_digits(n: nat)
    requires
        n < 100,
    ensures
        zero_padded(n, 2).len() == 2,
        is_digit(zero_padded(n, 2)[0], n as int / 10),
        is_digit(zero_padded(n, 2)[1], n as int % 10),
{
    law_decimals(n);
    law_decimals(n / 10);
    if n < 10 {
        assert(zero_padded(n, 2)[1] == decimal(n)[0]);
    } else {
        assert(decimal(n).drop_last()[0] == decimal(n)[0]);
    }
}

proof fn lemma_four_digits(n: nat)
    requires
        1000 <= n < 10000,
    ensures
        zero_padded(n, 4).len() == 4,
        is_digit(zero_padded(n, 4)[0], n as int / 1000),
        is_digit(zero_padded(n, 4)[1], n as int / 100 % 10),
        is_digit(zero_padded(n, 4)[2], n as int / 10 % 10),
        is_digit(zero_padded(n, 4)[3], n as int % 10),
{
    law_decimals(n);
    law_decimals(n / 10);
    law_decimals(n / 10 / 10);
    law_decimals(n / 10 / 10 / 10);
    let s = decimal(n);
    let t = decimal(n / 10);
    let u = decimal(n / 10 / 10);
    assert(s.drop_last() == t && t.drop_last() == u);
    assert(u.drop_last() == decimal(n / 10 / 10 / 10));
    assert(s[2] == t[2] && t[1] == u[1] && s[1] == t[1] && u[0] == decimal(n / 10 / 10 / 10)[0]);
    assert(s[0] == t[0] && t[0] == u[0]);
}

/// A timestamp of a year with four digits is year, month, day, hour, minute and second, each digit in
/// its place.
pub proof fn law_digits_of_a_timestamp(
    y: nat,
    m: nat,
    d: nat,
    hour: nat,
    minute: nat,
    second: nat,
)
    requires
        1000 <= y < 10000,
        m < 100,
        d < 100,
        hour < 24,
        minute < 60,
        second < 60,
    ensures
        ({
            let t = timestamp_text(y, m, d, 3600 * hour + 60 * minute + second);
            &&& t.len() == 20
            &&& is_digit(t[0], y as int / 1000)
            &&& is_digit(t[1], y as int / 100 % 10)
            &&& is_digit(t[2], y as int / 10 % 10)
            &&& is_digit(t[3], y as int % 10)
            &&& t[4] == '-'
            &&& is_digit(t[5], m as int / 10)
            &&& is_digit(t[6], m as int % 10)
            &&& t[7] == '-'
            &&& is_digit(t[8], d as int / 10)
            &&& is_digit(t[9], d as int % 10)
            &&& t[10] == 'T'
            &&& is_digit(t[11], hour as int / 10)
            &&& is_digit(t[12], hour as int % 10)
            &&& t[13] == ':'
            &&& is_digit(t[14], minute as int / 10)
            &&& is_digit(t[15], minute as int % 10)
            &&& t[16] == ':'
            &&& is_digit(t[17], second as int / 10)
            &&& is_digit(t[18], second as int % 10)
            &&& t[19] == 'Z'
        }),
{
    let all: nat = 3600 * hour + 60 * minute + second;
    assert(all / 3600 == hour && (all % 3600) / 60 == minute && all % 60 == second);
    let (a, b, c) = (zero_padded(y, 4), zero_padded(m, 2), zero_padded(d, 2));
    let (e, f, g) = (zero_padded(hour, 2), zero_padded(minute, 2), zero_padded(second, 2));
    assert(timestamp_text(y, m, d, all) == a + "-"@ + b + "-"@ + c + "T"@ + e + ":"@ + f + ":"@ + g
        + "Z"@);
    lemma_four_digits(y);
    lemma_two_digits(m);
    lemma_two_digits(d);
    lemma_two_digits(hour);
    lemma_two_digits(minute);
    lemma_two_digits(second);
    lemma_places_in_a_timestamp(a, b, c, e, f, g);
}

proof fn lemma_places_in_a_timestamp(
    y: Seq<char>,
    m: Seq<char>,
    d: Seq<char>,
    hour: Seq<char>,
    minute: Seq<char>,
    second: Seq<char>,
)
    requires
        y.len() == 4,
        m.len() == 2,
        d.len() == 2,
        hour.len() == 2,
        minute.len() == 2,
        second.len() == 2,
    ensures
        ({
            let t = y + "-"@ + m + "-"@ + d + "T"@ + hour + ":"@ + minute + ":"@ + second + "Z"@;
            &&& t.len() == 20
            &&& t[0] == y[0] && t[1] == y[1] && t[2] == y[2] && t[3] == y[3]
            &&& t[4] == '-' && t[5] == m[0] && t[6] == m[1]
            &&& t[7] == '-' && t[8] == d[0] && t[9] == d[1]
            &&& t[10] == 'T' && t[11] == hour[0] && t[12] == hour[1]
            &&& t[13] == ':' && t[14] == minute[0] && t[15] == minute[1]
            &&& t[16] == ':' && t[17] == second[0] && t[18] == second[1]
            &&& t[19] == 'Z'
        }),
{
    reveal_strlit("-");
    reveal_strlit("T");
    reveal_strlit(":");
    reveal_strlit("Z");
}

/// The timestamp of a moment shows the day that it lies on and the time of that day.
pub proof fn law_a_timestamp_shows_its_moment(secs: nat, text: Seq<char>, y: nat, m: nat, d: nat)
    requires
        is_timestamp(secs, text),
        is_date(y as int, m as int, d as int),
        day_number(y as int, m as int, d as int) == secs as int / 86400,
    ensures
        text == timestamp_text(y, m, d, secs % 86400),
{
    let (a, b, c) = choose|a: nat, b: nat, c: nat|
        #![trigger day_number(a as int, b as int, c as int)]
        is_date(a as int, b as int, c as int) && day_number(a as int, b as int, c as int) == secs
            / 86400 && text == timestamp_text(a, b, c, secs % 86400);
    law_one_date_per_day(a as int, b as int, c as int, y as int, m as int, d as int);
}

} // verus!
