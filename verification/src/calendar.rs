//! Dates and times as TiVo stores them, written in the calendar.

use chrono::{TimeZone, Utc};
use vstd::prelude::*;

use crate::text::{decimal, padded_left, to_decimal};

verus! {

/// The last second that the calendar reaches: the end of the year 262142.
pub const LAST_SECOND: i64 = 8_210_266_876_799;

/// A date: year, month and day.
const DATE_PATTERN: &'static str = "%Y-%m-%d";

/// A date and a time of day: hour and minute.
const DATE_TIME_PATTERN: &'static str = "%Y-%m-%d %H:%M";

pub open spec fn is_leap_year(year: int) -> bool {
    year % 4 == 0 && (year % 100 != 0 || year % 400 == 0)
}

/// Days from 1970-01-01 to the first day of `year`.
pub open spec fn days_to_year(year: int) -> int {
    365 * (year - 1970) + (year - 1969) / 4 - (year - 1901) / 100 + (year - 1601) / 400
}

/// Days from the first day of `year` to the first day of its month `month`,
/// where month thirteen is the January that follows.
pub open spec fn days_to_month(year: int, month: int) -> int {
    let common = seq![0int, 31, 59, 90, 120, 151, 181, 212, 243, 273, 304, 334, 365];
    common[month - 1] + if month > 2 && is_leap_year(year) {
        1int
    } else {
        0int
    }
}

/// The day `days` after 1970-01-01 is day `day` of month `month` of `year`, in
/// the Gregorian calendar.
pub open spec fn is_civil_date(days: int, year: int, month: int, day: int) -> bool {
    &&& 1 <= month <= 12
    &&& 1 <= day <= days_to_month(year, month + 1) - days_to_month(year, month)
    &&& days == days_to_year(year) + days_to_month(year, month) + day - 1
}

/// `n` with two digits.
pub open spec fn two_digits(n: int) -> Seq<char> {
    padded_left(decimal(n as nat), 2, '0')
}

/// A year with four digits; one of more digits has a sign.
pub open spec fn year_text(year: int) -> Seq<char> {
    if year <= 9999 {
        padded_left(decimal(year as nat), 4, '0')
    } else {
        seq!['+'] + decimal(year as nat)
    }
}

/// `YYYY-MM-DD`.
pub open spec fn civil_text(year: int, month: int, day: int) -> Seq<char> {
    year_text(year) + seq!['-'] + two_digits(month) + seq!['-'] + two_digits(day)
}

/// `text` is the date of the day `days` after 1970-01-01.
pub open spec fn is_date_text(days: int, text: Seq<char>) -> bool {
    exists|year: int, month: int, day: int|
        #[trigger] is_civil_date(days, year, month, day) && text == civil_text(year, month, day)
}

/// ` HH:MM`, for a number of seconds past midnight.
pub open spec fn clock_text(seconds: int) -> Seq<char> {
    seq![' '] + two_digits(seconds / 3600) + seq![':'] + two_digits(seconds / 60 % 60)
}

/// `text` is the date and time `seconds` after the start of 1970-01-01.
pub open spec fn is_date_time_text(seconds: int, text: Seq<char>) -> bool {
    exists|date: Seq<char>| #[trigger]
        is_date_text(seconds / 86400, date) && text == date + clock_text(seconds % 86400)
}

/// `Utc.timestamp_opt(seconds, 0).single()`, and `DateTime::format` on what it
/// gives. There is a moment exactly up to the last second of the calendar, and
/// its text is the date, or the date and the time, in the Gregorian calendar.
#[verifier::external_body]
fn format_utc(seconds: i64, pattern: &str) -> (text: Option<String>)
    requires
        0 <= seconds,
        pattern@ == DATE_PATTERN@ || pattern@ == DATE_TIME_PATTERN@,
    ensures
        text is Some <==> seconds <= LAST_SECOND,
        pattern@ == DATE_PATTERN@ ==> (text matches Some(t) ==> is_date_text(
            seconds as int / 86400,
            t@,
        )),
        pattern@ == DATE_TIME_PATTERN@ ==> (text matches Some(t) ==> is_date_time_text(
            seconds as int,
            t@,
        )),
{
    match Utc.timestamp_opt(seconds, 0).single() {
        Some(moment) => Some(moment.format(pattern).to_string()),
        None => None,
    }
}

/// Seconds from the start of 1970-01-01 to `time` seconds past midnight of the
/// day `date`.
pub open spec fn moment(date: u32, time: Option<u32>) -> int {
    date * 86400 + match time {
        Some(t) => t as int,
        None => 0,
    }
}

/// `text` is what is written for a date and time: nothing without a date, and
/// the number of a day that lies beyond the calendar.
pub open spec fn shows_date_time(date: Option<u32>, time: Option<u32>, text: Seq<char>) -> bool {
    match date {
        Some(d) if d > 0 => if moment(d, time) <= LAST_SECOND {
            is_date_time_text(moment(d, time), text)
        } else {
            text == "day "@ + decimal(d as nat)
        },
        _ => text == Seq::<char>::empty(),
    }
}

/// `text` is what is written for a date: nothing without one, nor for a day that
/// lies beyond the calendar.
pub open spec fn shows_date(date: Option<u32>, text: Seq<char>) -> bool {
    match date {
        Some(d) if d > 0 && d * 86400 <= LAST_SECOND => is_date_text(d as int, text),
        _ => text == Seq::<char>::empty(),
    }
}

/// Writes the date and time of a showing. TiVo stores a date as days since the
/// Unix epoch and a time as seconds past midnight.
pub fn tivo_date_time(date: Option<u32>, time: Option<u32>) -> (text: String)
    ensures
        shows_date_time(date, time, text@),
        date is None || date == Some(0u32) ==> text@.len() == 0,
        date matches Some(d) ==> d > 0 ==> {
            let seconds = d * 86400 + (match time {
                Some(t) => t as int,
                None => 0,
            });
            &&& seconds <= 8_210_266_876_799 ==> exists|days: int, year: int, month: int, day: int|
                #[trigger] is_civil_date(days, year, month, day) && days == seconds / 86400
                    && text@ == civil_text(year, month, day) + clock_text(seconds % 86400)
            &&& seconds > 8_210_266_876_799 ==> text@ == "day "@ + decimal(d as nat)
        },
{
    let text = match date {
        Some(date) if date > 0 => {
            let past_midnight: i64 = match time {
                Some(t) => t as i64,
                None => 0,
            };
            let seconds: i64 = date as i64 * 86_400 + past_midnight;
            match format_utc(seconds, DATE_TIME_PATTERN) {
                Some(text) => text,
                None => {
                    let mut text = "day ".to_owned();
                    text.append(&to_decimal(date as u64));
                    text
                },
            }
        },
        _ => String::new(),
    };
    proof {
        law_shown_date_time_is_that_of_the_calendar(date, time, text@);
    }
    text
}

/// Writes a date.
pub fn tivo_date(date: Option<u32>) -> (text: String)
    ensures
        shows_date(date, text@),
        date is None || date == Some(0u32) ==> text@.len() == 0,
        date matches Some(d) ==> d > 0 ==> {
            &&& d * 86400 <= 8_210_266_876_799 ==> exists|year: int, month: int, day: int|
                #[trigger] is_civil_date(d as int, year, month, day) && text@ == civil_text(
                    year,
                    month,
                    day,
                )
            &&& d * 86400 > 8_210_266_876_799 ==> text@.len() == 0
        },
{
    let text = match date {
        Some(date) if date > 0 => match format_utc(date as i64 * 86_400, DATE_PATTERN) {
            Some(text) => text,
            None => String::new(),
        },
        _ => String::new(),
    };
    proof {
        law_shown_date_is_that_of_the_calendar(date, text@);
    }
    text
}

/// What is shown for a date and a time is the date and the clock of that many
/// days and seconds after the start of 1970; nothing without a date or for day
/// zero; and beyond the calendar the number of the day.
pub proof fn law_shown_date_time_is_that_of_the_calendar(
    date: Option<u32>,
    time: Option<u32>,
    text: Seq<char>,
)
    requires
        shows_date_time(date, time, text),
    ensures
        date is None || date == Some(0u32) ==> text.len() == 0,
        date matches Some(d) ==> d > 0 ==> {
            let seconds = d * 86400 + (match time {
                Some(t) => t as int,
                None => 0,
            });
            &&& seconds <= 8_210_266_876_799 ==> exists|days: int, year: int, month: int, day: int|
                #[trigger] is_civil_date(days, year, month, day) && days == seconds / 86400
                    && text == civil_text(year, month, day) + clock_text(seconds % 86400)
            &&& seconds > 8_210_266_876_799 ==> text == "day "@ + decimal(d as nat)
        },
{
    if let Some(d) = date {
        let seconds = moment(d, time);
        if d > 0 && seconds <= LAST_SECOND {
            let day_text = choose|t: Seq<char>| #[trigger]
                is_date_text(seconds / 86400, t) && text == t + clock_text(seconds % 86400);
            let (y, m, n) = choose|year: int, month: int, day: int| #[trigger]
                is_civil_date(seconds / 86400, year, month, day) && day_text == civil_text(
                    year,
                    month,
                    day,
                );
            assert(is_civil_date(seconds / 86400, y, m, n));
        }
    }
}

/// What is shown for a date is the date of that many days after the start of
/// 1970; nothing without a date, for day zero, or beyond the calendar.
pub proof fn law_shown_date_is_that_of_the_calendar(date: Option<u32>, text: Seq<char>)
    requires
        shows_date(date, text),
    ensures
        date is None || date == Some(0u32) ==> text.len() == 0,
        date matches Some(d) ==> d > 0 ==> {
            &&& d * 86400 <= 8_210_266_876_799 ==> exists|year: int, month: int, day: int|
                #[trigger] is_civil_date(d as int, year, month, day) && text == civil_text(
                    year,
                    month,
                    day,
                )
            &&& d * 86400 > 8_210_266_876_799 ==> text.len() == 0
        },
{
}

proof fn lemma_years_follow(year: int)
    ensures
        days_to_year(year + 1) == days_to_year(year) + days_to_month(year, 13),
{
    assert((year - 1968) / 4 - (year - 1969) / 4 == if year % 4 == 0 {
        1int
    } else {
        0int
    });
    assert((year - 1900) / 100 - (year - 1901) / 100 == if year % 100 == 0 {
        1int
    } else {
        0int
    });
    assert((year - 1600) / 400 - (year - 1601) / 400 == if year % 400 == 0 {
        1int
    } else {
        0int
    });
    assert(year % 400 == 0 ==> year % 100 == 0);
    assert(year % 100 == 0 ==> year % 4 == 0);
}

proof fn lemma_years_increase(a: int, b: int)
    requires
        a < b,
    ensures
        days_to_year(a) + days_to_month(a, 13) <= days_to_year(b),
    decreases b - a,
{
    lemma_years_follow(a);
    if a + 1 < b {
        lemma_years_increase(a + 1, b);
    }
}

proof fn lemma_months_increase(year: int, a: int, b: int)
    requires
        1 <= a < b <= 13,
    ensures
        days_to_month(year, a) < days_to_month(year, b),
        days_to_month(year, a + 1) <= days_to_month(year, b),
        0 <= days_to_month(year, a),
{
}

proof fn lemma_civil_year(days: int, year: int, month: int, day: int)
    requires
        is_civil_date(days, year, month, day),
    ensures
        days_to_year(year) <= days < days_to_year(year) + days_to_month(year, 13),
{
    if month < 12 {
        lemma_months_increase(year, month + 1, 13);
    }
    lemma_months_increase(year, month, 13);
}

/// A day has one date.
pub proof fn law_civil_date_is_unique(
    days: int,
    y1: int,
    m1: int,
    d1: int,
    y2: int,
    m2: int,
    d2: int,
)
    requires
        is_civil_date(days, y1, m1, d1),
        is_civil_date(days, y2, m2, d2),
    ensures
        y1 == y2 && m1 == m2 && d1 == d2,
{
    lemma_civil_year(days, y1, m1, d1);
    lemma_civil_year(days, y2, m2, d2);
    if y1 < y2 {
        lemma_years_increase(y1, y2);
    } else if y2 < y1 {
        lemma_years_increase(y2, y1);
    }
    if m1 < m2 {
        lemma_months_increase(y1, m1, m2);
    } else if m2 < m1 {
        lemma_months_increase(y1, m2, m1);
    }
}

/// What is written for a date, and for a date and time, is fixed by the day and
/// the second.
pub proof fn law_texts_are_unique(seconds: int, a: Seq<char>, b: Seq<char>)
    ensures
        is_date_text(seconds, a) && is_date_text(seconds, b) ==> a == b,
        is_date_time_text(seconds, a) && is_date_time_text(seconds, b) ==> a == b,
{
    if is_date_text(seconds, a) && is_date_text(seconds, b) {
        lemma_date_text_is_unique(seconds, a, b);
    }
    if is_date_time_text(seconds, a) && is_date_time_text(seconds, b) {
        let da = choose|date: Seq<char>| #[trigger]
            is_date_text(seconds / 86400, date) && a == date + clock_text(seconds % 86400);
        let db = choose|date: Seq<char>| #[trigger]
            is_date_text(seconds / 86400, date) && b == date + clock_text(seconds % 86400);
        lemma_date_text_is_unique(seconds / 86400, da, db);
    }
}

proof fn lemma_date_text_is_unique(days: int, a: Seq<char>, b: Seq<char>)
    requires
        is_date_text(days, a),
        is_date_text(days, b),
    ensures
        a == b,
{
    let (y1, m1, d1) = choose|year: int, month: int, day: int|
        #[trigger] is_civil_date(days, year, month, day) && a == civil_text(year, month, day);
    let (y2, m2, d2) = choose|year: int, month: int, day: int|
        #[trigger] is_civil_date(days, year, month, day) && b == civil_text(year, month, day);
    law_civil_date_is_unique(days, y1, m1, d1, y2, m2, d2);
}

/// A time of day within the day leaves the date as it is: the text of a date and
/// time starts with the text of the date.
pub proof fn law_date_time_starts_with_date(
    date: u32,
    time: u32,
    day: Seq<char>,
    moment_text: Seq<char>,
)
    requires
        time < 86400,
        is_date_text(date as int, day),
        is_date_time_text(moment(date, Some(time)), moment_text),
    ensures
        moment_text == day + clock_text(time as int),
{
    let seconds = moment(date, Some(time));
    assert(seconds / 86400 == date && seconds % 86400 == time);
    let part = choose|d: Seq<char>| #[trigger]
        is_date_text(seconds / 86400, d) && moment_text == d + clock_text(seconds % 86400);
    lemma_date_text_is_unique(date as int, part, day);
}

/// The calendar starts on the first of January 1970, and the day after a date is
/// the next of the month, the first of the next month after the last of a month,
/// and New Year's Day after the last of December.
pub proof fn law_days_follow_each_other(days: int, year: int, month: int, day: int)
    ensures
        is_civil_date(0, 1970, 1, 1),
        is_civil_date(days, year, month, day) ==> {
            let length = if month == 2 {
                if year % 400 == 0 || (year % 4 == 0 && year % 100 != 0) {
                    29int
                } else {
                    28
                }
            } else if month == 4 || month == 6 || month == 9 || month == 11 {
                30
            } else {
                31
            };
            &&& 1 <= month <= 12 && 1 <= day <= length
            &&& day < length ==> is_civil_date(days + 1, year, month, day + 1)
            &&& day == length && month < 12 ==> is_civil_date(days + 1, year, month + 1, 1)
            &&& day == length && month == 12 ==> is_civil_date(days + 1, year + 1, 1, 1)
        },
{
    lemma_years_follow(year);
}

proof fn lemma_two_digits(n: int)
    requires
        0 <= n < 100,
    ensures
        two_digits(n) == seq![(48 + n / 10) as char, (48 + n % 10) as char],
{
    reveal_with_fuel(decimal, 2);
    assert(two_digits(n) =~= seq![(48 + n / 10) as char, (48 + n % 10) as char]);
}

proof fn lemma_hours(seconds: int)
    requires
        0 <= seconds < 86400,
    ensures
        0 <= seconds / 3600 < 24,
        seconds / 3600 / 10 == seconds / 36000,
{
    vstd::arithmetic::div_mod::lemma_div_denominator(seconds, 3600, 10);
}

proof fn lemma_minutes(seconds: int)
    requires
        0 <= seconds < 86400,
    ensures
        0 <= seconds / 60 % 60 < 60,
        seconds / 60 % 60 / 10 == seconds / 600 % 6,
        seconds / 60 % 60 % 10 == seconds / 60 % 10,
{
    let minutes = seconds / 60;
    vstd::arithmetic::div_mod::lemma_div_denominator(seconds, 60, 10);
    assert(minutes / 10 == seconds / 600);
    lemma_tens_and_units(minutes);
}

proof fn lemma_tens_and_units(minutes: int)
    requires
        0 <= minutes,
    ensures
        minutes % 60 / 10 == minutes / 10 % 6,
        minutes % 60 % 10 == minutes % 10,
{
    let hours = minutes / 60;
    let left = minutes % 60;
    assert(minutes == 60 * hours + left);
    assert(minutes / 10 == 6 * hours + left / 10);
}

/// A clock shows the hour and the minute, each with two digits, with a blank in
/// front and a colon between them.
pub proof fn law_clock_shows_hour_and_minute(seconds: int)
    requires
        0 <= seconds < 86400,
    ensures
        clock_text(seconds) == seq![
            ' ',
            (48 + seconds / 36000) as char,
            (48 + seconds / 3600 % 10) as char,
            ':',
            (48 + seconds / 600 % 6) as char,
            (48 + seconds / 60 % 10) as char,
        ],
{
    let (hour, minute) = (seconds / 3600, seconds / 60 % 60);
    lemma_hours(seconds);
    lemma_minutes(seconds);
    lemma_two_digits(hour);
    lemma_two_digits(minute);
    assert(clock_text(seconds) =~= seq![
        ' ',
        (48 + hour / 10) as char,
        (48 + hour % 10) as char,
        ':',
        (48 + minute / 10) as char,
        (48 + minute % 10) as char,
    ]);
}

proof fn lemma_four_digits(year: int)
    requires
        0 <= year <= 9999,
    ensures
        year_text(year) == seq![
            (48 + year / 1000) as char,
            (48 + year / 100 % 10) as char,
            (48 + year / 10 % 10) as char,
            (48 + year % 10) as char,
        ],
{
    let (a, b, c) = (year / 10, year / 100, year / 1000);
    vstd::arithmetic::div_mod::lemma_div_denominator(year, 10, 10);
    vstd::arithmetic::div_mod::lemma_div_denominator(year, 100, 10);
    assert(a / 10 == b && b / 10 == c);
    assert(0 <= c < 10);
    reveal_with_fuel(decimal, 4);
    let (thousands, hundreds, tens, units) = (
        (48 + c) as char,
        (48 + b % 10) as char,
        (48 + a % 10) as char,
        (48 + year % 10) as char,
    );
    if year < 10 {
        assert(decimal(year as nat) =~= seq![units]);
    } else if year < 100 {
        assert(decimal(year as nat) =~= seq![tens, units]);
    } else if year < 1000 {
        assert(decimal(year as nat) =~= seq![hundreds, tens, units]);
    } else {
        assert(decimal(year as nat) =~= seq![thousands, hundreds, tens, units]);
    }
    assert(year_text(year) =~= seq![thousands, hundreds, tens, units]);
}

/// A date shows the year, the month and the day with hyphens between them: the
/// year with four digits, or with a sign and all its digits, and the others with
/// two.
pub proof fn law_date_shows_year_month_and_day(year: int, month: int, day: int)
    requires
        0 <= year,
        1 <= month <= 12,
        1 <= day <= 31,
    ensures
        ({
            let rest = seq![
                '-',
                (48 + month / 10) as char,
                (48 + month % 10) as char,
                '-',
                (48 + day / 10) as char,
                (48 + day % 10) as char,
            ];
            &&& year <= 9999 ==> civil_text(year, month, day) == seq![
                (48 + year / 1000) as char,
                (48 + year / 100 % 10) as char,
                (48 + year / 10 % 10) as char,
                (48 + year % 10) as char,
            ] + rest
            &&& year > 9999 ==> civil_text(year, month, day) == seq!['+'] + decimal(year as nat)
                + rest
        }),
{
    lemma_two_digits(month);
    lemma_two_digits(day);
    let rest = seq![
        '-',
        (48 + month / 10) as char,
        (48 + month % 10) as char,
        '-',
        (48 + day / 10) as char,
        (48 + day % 10) as char,
    ];
    if year <= 9999 {
        let digits = seq![
            (48 + year / 1000) as char,
            (48 + year / 100 % 10) as char,
            (48 + year / 10 % 10) as char,
            (48 + year % 10) as char,
        ];
        lemma_four_digits(year);
        assert(civil_text(year, month, day) =~= digits + rest);
    } else {
        assert(civil_text(year, month, day) =~= seq!['+'] + decimal(year as nat) + rest);
    }
}

/// Every day from 1970-01-01 on has a date.
pub proof fn law_every_day_has_a_date(days: int)
    requires
        0 <= days,
    ensures
        exists|year: int, month: int, day: int| #[trigger] is_civil_date(days, year, month, day),
    decreases days,
{
    if days == 0 {
        assert(is_civil_date(0, 1970, 1, 1));
    } else {
        law_every_day_has_a_date(days - 1);
        let (y, m, d) = choose|year: int, month: int, day: int| #[trigger]
            is_civil_date(days - 1, year, month, day);
        if d < days_to_month(y, m + 1) - days_to_month(y, m) {
            assert(is_civil_date(days, y, m, d + 1));
        } else if m < 12 {
            assert(is_civil_date(days, y, m + 1, 1));
        } else {
            lemma_years_follow(y);
            assert(is_civil_date(days, y + 1, 1, 1));
        }
    }
}

} // verus!
