use apfsearch_core::query::atoms::Operand;
use apfsearch_core::query::dates::{
    calendar_period, date_period, date_span, midnight, relative_date_period, Date, DurationUnit,
};
use chrono::{Duration, NaiveDate, TimeZone};

fn d(year: i32, month: u32, day: u32) -> Date {
    Date { year, month, day }
}

#[test]
fn relative_periods_follow_calendar_boundaries() {
    let today = d(2024, 3, 1);
    for (keyword, start, end) in [
        ("today", d(2024, 3, 1), d(2024, 3, 2)),
        ("yesterday", d(2024, 2, 29), d(2024, 3, 1)),
        ("thisweek", d(2024, 2, 26), d(2024, 3, 4)),
        ("lastweek", d(2024, 2, 19), d(2024, 2, 26)),
        ("thismonth", d(2024, 3, 1), d(2024, 4, 1)),
        ("lastmonth", d(2024, 2, 1), d(2024, 3, 1)),
        ("thisyear", d(2024, 1, 1), d(2025, 1, 1)),
        ("lastyear", d(2023, 1, 1), d(2024, 1, 1)),
    ] {
        assert_eq!(
            calendar_period(keyword, today, 1).unwrap(),
            (start, end),
            "{keyword}"
        )
    }
    assert_eq!(
        calendar_period("thisweek", today, 0).unwrap(),
        (d(2024, 2, 25), d(2024, 3, 3))
    );
    assert_eq!(
        calendar_period("lastmonth", d(2024, 1, 1), 1).unwrap(),
        (d(2023, 12, 1), d(2024, 1, 1))
    );
    assert_eq!(
        calendar_period("2024-02", today, 1).unwrap(),
        (d(2024, 2, 1), d(2024, 3, 1))
    );
    assert_eq!(
        calendar_period("2024", today, 1).unwrap(),
        (d(2024, 1, 1), d(2025, 1, 1))
    );
}

#[test]
fn written_days_and_what_is_no_date() {
    let today = d(2024, 3, 1);
    assert_eq!(
        calendar_period("2024-02-29", today, 1).unwrap(),
        (d(2024, 2, 29), d(2024, 3, 1))
    );
    assert_eq!(
        calendar_period("2024-12", today, 1).unwrap(),
        (d(2024, 12, 1), d(2025, 1, 1))
    );
    assert_eq!(
        calendar_period("2023-02-29", today, 1).unwrap_err(),
        "Invalid date '2023-02-29'; use YYYY-MM-DD or today/yesterday/thisweek/lastweek/thismonth/lastmonth/thisyear/lastyear"
    );
    assert_eq!(
        calendar_period("2024-13", today, 1).unwrap_err(),
        "Invalid month '2024-13'"
    );
    assert_eq!(
        calendar_period("+262142-12-31", today, 1).unwrap_err(),
        "Date out of range"
    );
    assert_eq!(
        calendar_period("ThisYear", d(2024, 3, 1), 1).unwrap(),
        (d(2024, 1, 1), d(2025, 1, 1))
    );
}

#[test]
fn a_year_beyond_the_calendar_is_refused() {
    let today = d(262_142, 6, 1);
    assert_eq!(
        calendar_period("thisyear", today, 1).unwrap_err(),
        "Date 'thisyear' is out of range"
    );
}

fn new_york(date: Date, minute: u32) -> Option<i64> {
    let zone = chrono_tz::America::New_York;
    let base = NaiveDate::from_ymd_opt(date.year, date.month, date.day)?.and_hms_opt(0, 0, 0)?;
    zone.from_local_datetime(&(base + Duration::minutes(minute as i64)))
        .earliest()
        .map(|found| found.timestamp())
}

#[test]
fn midnight_intervals_account_for_dst() {
    assert_eq!(
        midnight(d(2024, 3, 11), &new_york).unwrap() - midnight(d(2024, 3, 10), &new_york).unwrap(),
        23 * 3600
    );
    assert_eq!(
        midnight(d(2024, 11, 4), &new_york).unwrap() - midnight(d(2024, 11, 3), &new_york).unwrap(),
        25 * 3600
    );
}

#[test]
fn a_day_begins_at_its_first_minute_that_exists() {
    let late = |_: Date, minute: u32| if minute >= 60 { Some(minute as i64) } else { None };
    assert_eq!(midnight(d(2024, 3, 1), &late).unwrap(), 60);
    let next_day = |_: Date, minute: u32| if minute == 1440 { Some(7) } else { None };
    assert_eq!(midnight(d(2024, 3, 1), &next_day).unwrap(), 7);
    let never = |_: Date, _: u32| -> Option<i64> { None };
    assert_eq!(
        midnight(d(2024, 3, 1), &never).unwrap_err(),
        "Calendar boundary is not representable in the local timezone"
    );
}

fn back(unit: DurationUnit) -> Option<i64> {
    match unit {
        DurationUnit::Seconds(seconds) => 1_000_000i64.checked_sub(seconds as i64),
        DurationUnit::Months(months) => {
            if months <= 24 {
                Some(1_000_000 - months as i64)
            } else {
                None
            }
        }
    }
}

#[test]
fn durations_end_now_and_begin_so_many_units_ago() {
    for (text, start) in [
        ("10s", 999_990),
        ("2min", 999_880),
        ("3HOURS", 989_200),
        ("1d", 913_600),
        ("1w", 395_200),
        ("5months", 999_995),
        ("2years", 999_976),
        ("007s", 999_993),
    ] {
        assert_eq!(
            relative_date_period(text, 1_000_000, &back).unwrap(),
            Some((start, 1_000_001)),
            "{text}"
        );
    }
    for text in ["", "10", "s", "1fortnight", "-1d", "1 d"] {
        assert_eq!(
            relative_date_period(text, 1_000_000, &back).unwrap(),
            None,
            "{text}"
        );
    }
    for text in ["4294967296s", "99999999999999999999d", "400000000years", "3years"] {
        assert_eq!(
            relative_date_period(text, 1_000_000, &back).unwrap_err(),
            "Relative date duration is out of range",
            "{text}"
        );
    }
}

fn seconds(text: &str) -> Result<(i64, i64), String> {
    let utc = |date: Date, minute: u32| {
        Some(
            NaiveDate::from_ymd_opt(date.year, date.month, date.day)?
                .and_hms_opt(0, 0, 0)?
                .and_utc()
                .timestamp()
                + minute as i64 * 60,
        )
    };
    date_period(text, d(2024, 3, 1), 1, 1_000_000, &utc, &back)
}

#[test]
fn operands_on_a_date_span_whole_days() {
    let day = 19_783 * 86_400;
    let text = || "2024-03-01".to_string();
    assert_eq!(seconds("2024-03-01").unwrap(), (day as i64, day as i64 + 86_400));
    assert_eq!(
        date_span(&Operand::Plain(text()), &seconds).unwrap(),
        (day, day + 86_399)
    );
    assert_eq!(
        date_span(&Operand::Exactly(text()), &seconds).unwrap(),
        (day, day + 86_399)
    );
    assert_eq!(
        date_span(&Operand::AtLeast(text()), &seconds).unwrap(),
        (day, i128::MAX)
    );
    assert_eq!(
        date_span(&Operand::AtMost(text()), &seconds).unwrap(),
        (i128::MIN, day + 86_399)
    );
    assert_eq!(
        date_span(&Operand::Above(text()), &seconds).unwrap(),
        (day + 86_400, i128::MAX)
    );
    assert_eq!(
        date_span(&Operand::Below(text()), &seconds).unwrap(),
        (i128::MIN, day - 1)
    );
    assert_eq!(
        date_span(
            &Operand::Between(text(), "2024-03-02".into()),
            &seconds
        )
        .unwrap(),
        (day, day + 2 * 86_400 - 1)
    );
    assert_eq!(
        date_span(
            &Operand::Between(text(), "2024-02-28".into()),
            &seconds
        )
        .unwrap_err(),
        "Date range lower bound exceeds upper bound"
    );
    assert!(date_span(&Operand::Plain("soon".into()), &seconds).is_err());
    assert_eq!(seconds("10s").unwrap(), (999_990, 1_000_001));
}

#[test]
fn neighbouring_periods_meet() {
    for today in [d(2024, 3, 1), d(2024, 12, 31), d(2023, 1, 1), d(2000, 2, 29)] {
        for (before, after) in [
            ("yesterday", "today"),
            ("lastweek", "thisweek"),
            ("LastMonth", "thismonth"),
            ("lastyear", "thisyear"),
            ("1999", "2000"),
            ("2023-12", "2024-01"),
            ("2024-02", "2024-03"),
            ("2024-02-29", "2024-03-01"),
            ("2024-12-31", "2025-01-01"),
        ] {
            for first_weekday in 0..7 {
                let earlier = calendar_period(before, today, first_weekday).unwrap();
                let later = calendar_period(after, today, first_weekday).unwrap();
                assert_eq!(earlier.1, later.0, "{before} {after}");
            }
        }
    }
}
