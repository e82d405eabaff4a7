use ovit_tools::calendar::{tivo_date, tivo_date_time, LAST_SECOND};

#[test]
fn dates_are_days_since_1970() {
    assert_eq!(tivo_date(Some(1)), "1970-01-02");
    assert_eq!(tivo_date(Some(11016)), "2000-02-29");
    assert_eq!(tivo_date(Some(11017)), "2000-03-01");
    assert_eq!(tivo_date(Some(12345)), "2003-10-20");
    assert_eq!(tivo_date(Some(19000)), "2022-01-08");
}

#[test]
fn times_are_seconds_past_midnight() {
    assert_eq!(tivo_date_time(Some(19000), Some(72_000)), "2022-01-08 20:00");
    assert_eq!(tivo_date_time(Some(19000), Some(72_059)), "2022-01-08 20:00");
    assert_eq!(tivo_date_time(Some(19000), Some(86_399)), "2022-01-08 23:59");
    assert_eq!(tivo_date_time(Some(19000), None), "2022-01-08 00:00");
    // A time beyond the day runs into the next.
    assert_eq!(tivo_date_time(Some(19000), Some(86_400)), "2022-01-09 00:00");
    assert_eq!(tivo_date_time(Some(1), Some(61)), "1970-01-02 00:01");
}

#[test]
fn no_date_is_written_as_nothing() {
    assert_eq!(tivo_date(None), "");
    assert_eq!(tivo_date(Some(0)), "");
    assert_eq!(tivo_date_time(None, Some(5)), "");
    assert_eq!(tivo_date_time(Some(0), Some(5)), "");
}

#[test]
fn long_years_carry_a_sign() {
    assert_eq!(tivo_date(Some(2_932_896)), "9999-12-31");
    assert_eq!(tivo_date(Some(2_932_897)), "+10000-01-01");
    assert_eq!(tivo_date_time(Some(2_932_897), Some(3600)), "+10000-01-01 01:00");
}

#[test]
fn the_calendar_has_an_end() {
    let last = (LAST_SECOND / 86_400) as u32;
    let second = (LAST_SECOND % 86_400) as u32;
    assert_eq!((last, second), (95_026_236, 86_399));
    assert_eq!(tivo_date(Some(last)), "+262142-12-31");
    assert_eq!(tivo_date_time(Some(last), Some(second)), "+262142-12-31 23:59");
    assert_eq!(tivo_date_time(Some(last), Some(second + 1)), "day 95026236");
    assert_eq!(tivo_date(Some(last + 1)), "");
    assert_eq!(tivo_date_time(Some(last + 1), None), "day 95026237");
    assert_eq!(tivo_date(Some(u32::MAX)), "");
    assert_eq!(tivo_date_time(Some(u32::MAX), Some(u32::MAX)), "day 4294967295");
}

#[test]
fn consecutive_days_follow_the_calendar() {
    // Counts through four hundred years, an era of the Gregorian calendar.
    let (mut year, mut month, mut day) = (1970, 1, 1);
    for days in 1..146_097u32 {
        let leap = year % 4 == 0 && (year % 100 != 0 || year % 400 == 0);
        let length = match month {
            2 => 28 + leap as i32,
            4 | 6 | 9 | 11 => 30,
            _ => 31,
        };
        day += 1;
        if day > length {
            day = 1;
            month += 1;
        }
        if month > 12 {
            month = 1;
            year += 1;
        }
        let date = format!("{:04}-{:02}-{:02}", year, month, day);
        assert_eq!(tivo_date(Some(days)), date);
        assert_eq!(tivo_date_time(Some(days), Some(45_240)), format!("{} 12:34", date));
    }
}
