//! Dates and periods that a query names.
use crate::query::atoms::{Operand, OperandView};
use crate::query::evaluate;
use crate::query::model::NumberBounds;
use crate::text;
use crate::text::{joined, lower_ascii, same_text};
use vstd::prelude::*;

verus! {

/// The years that a date can have.
pub const MIN_YEAR: i32 = -262_143;

pub const MAX_YEAR: i32 = 262_142;

/// A day of the calendar.
#[derive(Clone, Copy, Debug, PartialEq, Eq, Structural)]
pub struct Date {
    pub year: i32,
    pub month: u32,
    pub day: u32,
}

pub open spec fn is_leap(year: int) -> bool {
    year % 4 == 0 && (year % 100 != 0 || year % 400 == 0)
}

/// The days of a month.
pub open spec fn days_in(year: int, month: int) -> int {
    if month == 2 {
        if is_leap(year) {
            29
        } else {
            28
        }
    } else if month == 4 || month == 6 || month == 9 || month == 11 {
        30
    } else {
        31
    }
}

/// A date that the calendar has.
pub open spec fn is_date(date: Date) -> bool {
    &&& MIN_YEAR <= date.year <= MAX_YEAR
    &&& 1 <= date.month <= 12
    &&& 1 <= date.day <= days_in(date.year as int, date.month as int)
}

/// The days of a year before a month.
pub open spec fn days_before(year: int, month: int) -> int
    decreases month,
{
    if month <= 1 {
        0
    } else {
        days_before(year, month - 1) + days_in(year, month - 1)
    }
}

/// The number of a day, counted from the first day of the year one.
pub open spec fn day_number(date: Date) -> int {
    let past = date.year - 1;
    365 * past + past / 4 - past / 100 + past / 400 + days_before(
        date.year as int,
        date.month as int,
    ) + date.day
}

pub open spec fn first_day() -> int {
    day_number(Date { year: MIN_YEAR, month: 1, day: 1 })
}

pub open spec fn last_day() -> int {
    day_number(Date { year: MAX_YEAR, month: 12, day: 31 })
}

/// `chrono::NaiveDate::from_ymd_opt`: the day, where the calendar has it.
#[verifier::external_body]
fn calendar_day(year: i32, month: u32, day: u32) -> (date: Option<Date>)
    ensures
        date == (if is_date(Date { year, month, day }) {
            Some(Date { year, month, day })
        } else {
            None
        }),
{
    chrono::NaiveDate::from_ymd_opt(year, month, day).map(|_| Date { year, month, day })
}

/// `chrono::NaiveDate::checked_add_signed` with a number of days: the day so many days later, or
/// nothing where dates end.
#[verifier::external_body]
fn days_later(date: Date, days: i64) -> (later: Option<Date>)
    requires
        is_date(date),
        -1000 <= days <= 1000,
    ensures
        match later {
            Some(found) => is_date(found) && day_number(found) == day_number(date) + days,
            None => !(first_day() <= day_number(date) + days <= last_day()),
        },
{
    let start = chrono::NaiveDate::from_ymd_opt(date.year, date.month, date.day)?;
    let found = start.checked_add_signed(chrono::Duration::days(days))?;
    Some(
        Date {
            year: chrono::Datelike::year(&found),
            month: chrono::Datelike::month(&found),
            day: chrono::Datelike::day(&found),
        },
    )
}

/// `chrono`'s `Datelike::weekday`, as `Weekday::num_days_from_sunday`.
#[verifier::external_body]
fn days_from_sunday(date: Date) -> (days: u32)
    requires
        is_date(date),
    ensures
        days == day_number(date) % 7,
{
    let start = chrono::NaiveDate::from_ymd_opt(date.year, date.month, date.day).unwrap();
    chrono::Datelike::weekday(&start).num_days_from_sunday()
}

/// What `chrono::NaiveDate::parse_from_str` reads with the format `%Y-%m-%d`: year, month and
/// day.
pub uninterp spec fn parsed_day(written: Seq<char>) -> Option<(i32, u32, u32)>;

pub open spec fn as_date(parts: Option<(i32, u32, u32)>) -> Option<Date> {
    match parts {
        Some(found) => Some(Date { year: found.0, month: found.1, day: found.2 }),
        None => None,
    }
}

/// `chrono::NaiveDate::parse_from_str` with the format `%Y-%m-%d`: what it reads is a day of the
/// calendar.
#[verifier::external_body]
fn parse_day(written: &str) -> (date: Option<Date>)
    ensures
        date == as_date(parsed_day(written@)),
        date matches Some(found) ==> is_date(found),
{
    let found = chrono::NaiveDate::parse_from_str(written, "%Y-%m-%d").ok()?;
    Some(
        Date {
            year: chrono::Datelike::year(&found),
            month: chrono::Datelike::month(&found),
            day: chrono::Datelike::day(&found),
        },
    )
}

/// The first day of the month after a date's.
pub open spec fn next_month(date: Date) -> Date {
    if date.month == 12 {
        Date { year: (date.year + 1) as i32, month: 1, day: 1 }
    } else {
        Date { year: date.year, month: (date.month + 1) as u32, day: 1 }
    }
}

/// The first day of the month before a date's.
pub open spec fn last_month(date: Date) -> Date {
    if date.month == 1 {
        Date { year: (date.year - 1) as i32, month: 12, day: 1 }
    } else {
        Date { year: date.year, month: (date.month - 1) as u32, day: 1 }
    }
}

/// How far into the week a date is.
pub open spec fn days_into_week(date: Date, first_weekday: int) -> int {
    (day_number(date) % 7 + 7 - first_weekday % 7) % 7
}

/// Where a period lies against a day: so many days from it, up to so many days from it.
pub open spec fn spans_days(found: (Date, Date), day: Date, from: int, to: int) -> bool {
    &&& is_date(found.0)
    &&& is_date(found.1)
    &&& day_number(found.0) == day_number(day) + from
    &&& day_number(found.1) == day_number(day) + to
}

/// The period from one day up to another, where the calendar has both.
pub open spec fn from_to(
    result: Result<(Date, Date), String>,
    written: Seq<char>,
    from: Date,
    to: Date,
) -> bool {
    match result {
        Ok(found) => found == (from, to) && is_date(from) && is_date(to),
        Err(reason) => !(is_date(from) && is_date(to)) && reason@ == "Date '"@ + written
            + "' is out of range"@,
    }
}

/// A year in four digits.
pub open spec fn is_year(written: Seq<char>) -> bool {
    written.len() == 4 && forall|i: int| 0 <= i < 4 ==> '0' <= #[trigger] written[i] <= '9'
}

pub open spec fn digits_value(digits: Seq<char>) -> int
    decreases digits.len(),
{
    if digits.len() == 0 {
        0
    } else {
        digits_value(digits.drop_last()) * 10 + (digits.last() as int - '0' as int)
    }
}

/// The first day of a year.
pub open spec fn year_start(year: int) -> Date {
    Date { year: year as i32, month: 1, day: 1 }
}

/// The period that a text names.
pub open spec fn names_period(
    result: Result<(Date, Date), String>,
    written: Seq<char>,
    today: Date,
    first_weekday: int,
) -> bool {
    let word = text::lower(written);
    let month = Date { day: 1, ..today };
    let into = days_into_week(today, first_weekday);
    if word == "today"@ {
        result matches Ok(found) && found.0 == today && spans_days(found, today, 0, 1)
    } else if word == "yesterday"@ {
        result matches Ok(found) && found.1 == today && spans_days(found, today, -1, 0)
    } else if word == "thisweek"@ {
        result matches Ok(found) && spans_days(found, today, -into, 7 - into)
    } else if word == "lastweek"@ {
        result matches Ok(found) && spans_days(found, today, -into - 7, -into)
    } else if word == "thismonth"@ {
        from_to(result, written, month, next_month(today))
    } else if word == "lastmonth"@ {
        from_to(result, written, last_month(today), month)
    } else if word == "thisyear"@ {
        from_to(result, written, year_start(today.year as int), year_start(today.year + 1))
    } else if word == "lastyear"@ {
        from_to(result, written, year_start(today.year - 1), year_start(today.year as int))
    } else if is_year(written) {
        let year = digits_value(written);
        from_to(result, written, year_start(year), year_start(year + 1))
    } else if text::bytes_of(written).len() == 7 {
        match as_date(parsed_day(written + "-01"@)) {
            Some(date) => from_to(result, written, date, next_month(date)),
            None => result matches Err(reason) && reason@ == "Invalid month '"@ + written + "'"@,
        }
    } else {
        match as_date(parsed_day(written)) {
            Some(date) => match result {
                Ok(found) => found.0 == date && spans_days(found, date, 0, 1),
                Err(reason) => day_number(date) + 1 > last_day() && reason@ == "Date out of range"@,
            },
            None => result matches Err(reason) && reason@ == "Invalid date '"@ + written
                + "'; use YYYY-MM-DD or today/yesterday/thisweek/lastweek/thismonth/lastmonth/thisyear/lastyear"@,
        }
    }
}

fn out_of_range(written: &str) -> (reason: String)
    ensures
        reason@ == "Date '"@ + written@ + "' is out of range"@,
{
    let start = joined("Date '", written);
    joined(start.as_str(), "' is out of range")
}

fn make_period(written: &str, from: Date, to: Date) -> (result: Result<(Date, Date), String>)
    ensures
        from_to(result, written@, from, to),
{
    match (calendar_day(from.year, from.month, from.day), calendar_day(to.year, to.month, to.day)) {
        (Some(a), Some(b)) => Ok((a, b)),
        _ => Err(out_of_range(written)),
    }
}

fn following_month(date: Date) -> (next: Date)
    requires
        is_date(date),
    ensures
        next == next_month(date),
{
    if date.month == 12 {
        Date { year: date.year + 1, month: 1, day: 1 }
    } else {
        Date { year: date.year, month: date.month + 1, day: 1 }
    }
}

fn year_of(written: &str) -> (year: Option<i32>)
    ensures
        match year {
            Some(found) => is_year(written@) && found == digits_value(written@) && 0 <= found
                <= 9999,
            None => !is_year(written@),
        },
{
    let chars = text::chars_of(written);
    if chars.len() != 4 {
        return None;
    }
    let mut value: i32 = 0;
    let mut next: usize = 0;
    let ghost limits: Seq<int> = seq![0, 9, 99, 999, 9999];
    assert(written@.take(0) =~= Seq::<char>::empty());
    while next < 4
        invariant
            next <= 4,
            chars@ == written@,
            chars@.len() == 4,
            limits == seq![0int, 9, 99, 999, 9999],
            value == digits_value(written@.take(next as int)),
            0 <= value <= limits[next as int],
            forall|i: int| 0 <= i < next ==> '0' <= #[trigger] written@[i] <= '9',
        decreases 4 - next,
    {
        let c = chars[next];
        if c < '0' || c > '9' {
            return None;
        }
        let ghost part = written@.take(next + 1);
        assert(part.drop_last() =~= written@.take(next as int));
        assert(part.last() == c);
        let digit: i32 = c as i32 - '0' as i32;
        value = value * 10 + digit;
        next = next + 1;
    }
    assert(written@.take(4) =~= written@);
    Some(value)
}

/// The period that a text names: a word such as `lastweek`, a year, a month or a day. Weeks
/// begin with `first_weekday`, counted from Sunday.
pub fn calendar_period(written: &str, today: Date, first_weekday: u32) -> (result: Result<
    (Date, Date),
    String,
>)
    requires
        is_date(today),
        first_day() + 13 <= day_number(today),
        day_number(today) + 7 <= last_day(),
    ensures
        names_period(result, written@, today, first_weekday as int),
{
    let word = lower_ascii(written);
    let word = word.as_str();
    if same_text(word, "today") {
        return match days_later(today, 1) {
            Some(next) => Ok((today, next)),
            None => Err(out_of_range(written)),
        };
    }
    if same_text(word, "yesterday") {
        return match days_later(today, -1) {
            Some(before) => Ok((before, today)),
            None => Err(out_of_range(written)),
        };
    }
    let weekday = days_from_sunday(today);
    let into: i64 = ((weekday + 7 - first_weekday % 7) % 7) as i64;
    if same_text(word, "thisweek") {
        return match (days_later(today, -into), days_later(today, 7 - into)) {
            (Some(a), Some(b)) => Ok((a, b)),
            _ => Err(out_of_range(written)),
        };
    }
    if same_text(word, "lastweek") {
        return match (days_later(today, -into - 7), days_later(today, -into)) {
            (Some(a), Some(b)) => Ok((a, b)),
            _ => Err(out_of_range(written)),
        };
    }
    let month = Date { year: today.year, month: today.month, day: 1 };
    if same_text(word, "thismonth") {
        return make_period(written, month, following_month(today));
    }
    if same_text(word, "lastmonth") {
        let before = if today.month == 1 {
            Date { year: today.year - 1, month: 12, day: 1 }
        } else {
            Date { year: today.year, month: today.month - 1, day: 1 }
        };
        return make_period(written, before, month);
    }
    let this_year = Date { year: today.year, month: 1, day: 1 };
    if same_text(word, "thisyear") {
        return make_period(
            written,
            this_year,
            Date { year: today.year + 1, month: 1, day: 1 },
        );
    }
    if same_text(word, "lastyear") {
        return make_period(
            written,
            Date { year: today.year - 1, month: 1, day: 1 },
            this_year,
        );
    }
    if let Some(year) = year_of(written) {
        return make_period(
            written,
            Date { year, month: 1, day: 1 },
            Date { year: year + 1, month: 1, day: 1 },
        );
    }
    if written.as_bytes().len() == 7 {
        let whole = joined(written, "-01");
        return match parse_day(whole.as_str()) {
            Some(date) => make_period(written, date, following_month(date)),
            None => {
                let start = joined("Invalid month '", written);
                Err(joined(start.as_str(), "'"))
            },
        };
    }
    match parse_day(written) {
        Some(date) => match days_later(date, 1) {
            Some(next) => Ok((date, next)),
            None => {
                proof {
                    lemma_days_begin(date);
                }
                Err("Date out of range".to_owned())
            },
        },
        None => {
            let start = joined("Invalid date '", written);
            Err(
                joined(
                    start.as_str(),
                    "'; use YYYY-MM-DD or today/yesterday/thisweek/lastweek/thismonth/lastmonth/thisyear/lastyear",
                ),
            )
        },
    }
}

proof fn lemma_days_before(year: int, month: int)
    requires
        1 <= month <= 13,
    ensures
        days_before(year, month) >= 0,
    decreases month,
{
    if month > 1 {
        lemma_days_before(year, month - 1);
    }
}

/// No date comes before the first.
proof fn lemma_days_begin(date: Date)
    requires
        is_date(date),
    ensures
        first_day() <= day_number(date),
{
    lemma_days_before(date.year as int, date.month as int);
    let (a, b) = (MIN_YEAR - 1, date.year - 1);
    assert(365 * a + a / 4 - a / 100 + a / 400 <= 365 * b + b / 4 - b / 100 + b / 400) by {
        assert(a <= b);
        assert(b / 100 - a / 100 <= b - a);
        assert(a / 4 <= b / 4);
        assert(a / 400 <= b / 400);
    }
    assert(days_before(MIN_YEAR as int, 1) == 0);
}

/// Instants are found as by a function of the day and the minute.
pub open spec fn instants_as<F: Fn(Date, u32) -> Option<i64>>(
    ask: F,
    answer: spec_fn(Date, u32) -> Option<i64>,
) -> bool {
    forall|date: Date, minute: u32, said: Option<i64>| #[trigger]
        call_ensures(ask, (date, minute), said) ==> said == answer(date, minute)
}

/// The first instant of a day from a minute on.
pub open spec fn first_instant(
    answer: spec_fn(Date, u32) -> Option<i64>,
    date: Date,
    minute: int,
) -> Option<i64>
    decreases 1441 - minute,
{
    if minute > 1440 {
        None
    } else if answer(date, minute as u32) is Some {
        answer(date, minute as u32)
    } else {
        first_instant(answer, date, minute + 1)
    }
}

/// The first instant of a day. Some regions change their clocks at midnight, or leave a whole
/// day out. `instant` gives the earliest instant at a minute of a day, local time.
pub fn midnight<F: Fn(Date, u32) -> Option<i64>>(date: Date, instant: &F) -> (result: Result<
    i64,
    String,
>)
    requires
        forall|d: Date, m: u32| #[trigger] call_requires(*instant, (d, m)),
    ensures
        forall|answer: spec_fn(Date, u32) -> Option<i64>| #[trigger]
            instants_as(*instant, answer) ==> match first_instant(answer, date, 0) {
                Some(time) => result == Ok::<i64, String>(time),
                None => result matches Err(reason) && reason@
                    == "Calendar boundary is not representable in the local timezone"@,
            },
{
    let mut minute: u32 = 0;
    while minute <= 1440
        invariant
            minute <= 1441,
            forall|d: Date, m: u32| #[trigger] call_requires(*instant, (d, m)),
            forall|answer: spec_fn(Date, u32) -> Option<i64>| #[trigger]
                instants_as(*instant, answer) ==> first_instant(answer, date, 0) == first_instant(
                    answer,
                    date,
                    minute as int,
                ),
        decreases 1441 - minute,
    {
        if let Some(time) = instant(date, minute) {
            return Ok(time);
        }
        minute = minute + 1;
    }
    Err("Calendar boundary is not representable in the local timezone".to_owned())
}

/// What a duration is counted in.
#[derive(Clone, Copy, Debug, PartialEq, Eq, Structural)]
pub enum DurationUnit {
    Seconds(u64),
    Months(u32),
}

/// The unit with a name.
pub open spec fn unit_of(name: Seq<char>) -> Option<DurationUnit> {
    if name == "s"@ || name == "sec"@ || name == "secs"@ || name == "second"@ || name == "seconds"@ {
        Some(DurationUnit::Seconds(1))
    } else if name == "min"@ || name == "mins"@ || name == "minute"@ || name == "minutes"@ {
        Some(DurationUnit::Seconds(60))
    } else if name == "h"@ || name == "hour"@ || name == "hours"@ {
        Some(DurationUnit::Seconds(3_600))
    } else if name == "d"@ || name == "day"@ || name == "days"@ {
        Some(DurationUnit::Seconds(86_400))
    } else if name == "w"@ || name == "week"@ || name == "weeks"@ {
        Some(DurationUnit::Seconds(604_800))
    } else if name == "month"@ || name == "months"@ {
        Some(DurationUnit::Months(1))
    } else if name == "year"@ || name == "years"@ {
        Some(DurationUnit::Months(12))
    } else {
        None
    }
}

fn named_unit(name: &str) -> (unit: Option<DurationUnit>)
    ensures
        unit == unit_of(name@),
{
    if same_text(name, "s") || same_text(name, "sec") || same_text(name, "secs") || same_text(
        name,
        "second",
    ) || same_text(name, "seconds") {
        Some(DurationUnit::Seconds(1))
    } else if same_text(name, "min") || same_text(name, "mins") || same_text(name, "minute")
        || same_text(name, "minutes") {
        Some(DurationUnit::Seconds(60))
    } else if same_text(name, "h") || same_text(name, "hour") || same_text(name, "hours") {
        Some(DurationUnit::Seconds(3_600))
    } else if same_text(name, "d") || same_text(name, "day") || same_text(name, "days") {
        Some(DurationUnit::Seconds(86_400))
    } else if same_text(name, "w") || same_text(name, "week") || same_text(name, "weeks") {
        Some(DurationUnit::Seconds(604_800))
    } else if same_text(name, "month") || same_text(name, "months") {
        Some(DurationUnit::Months(1))
    } else if same_text(name, "year") || same_text(name, "years") {
        Some(DurationUnit::Months(12))
    } else {
        None
    }
}

/// How many digits a text begins with.
pub open spec fn leading_digits(written: Seq<char>, from: int) -> int
    decreases written.len() - from,
{
    if from < 0 || from >= written.len() || !('0' <= written[from] <= '9') {
        from
    } else {
        leading_digits(written, from + 1)
    }
}

/// A duration that a text names: a count and a unit.
pub open spec fn duration_of(written: Seq<char>) -> Option<(int, DurationUnit)> {
    let split = leading_digits(written, 0);
    if split == 0 || split == written.len() {
        None
    } else {
        match unit_of(text::lower(written.skip(split))) {
            Some(unit) => Some((digits_value(written.take(split)), unit)),
            None => None,
        }
    }
}

/// What a moment ago was: seconds or months before now.
pub open spec fn earlier_as<F: Fn(DurationUnit) -> Option<i64>>(
    ask: F,
    answer: spec_fn(DurationUnit) -> Option<i64>,
) -> bool {
    forall|back: DurationUnit, said: Option<i64>| #[trigger]
        call_ensures(ask, (back,), said) ==> said == answer(back)
}

/// So many units at once, where that many can be counted.
pub open spec fn counted(count: int, unit: DurationUnit) -> Option<int> {
    if count > u32::MAX {
        None
    } else {
        match unit {
            DurationUnit::Seconds(each) => Some(count * each),
            DurationUnit::Months(each) => if count * each <= u32::MAX {
                Some(count * each)
            } else {
                None
            },
        }
    }
}

/// The moment a duration ago.
pub open spec fn moment_ago(
    answer: spec_fn(DurationUnit) -> Option<i64>,
    count: int,
    unit: DurationUnit,
) -> Option<i64> {
    match (counted(count, unit), unit) {
        (Some(total), DurationUnit::Seconds(_)) => answer(DurationUnit::Seconds(total as u64)),
        (Some(total), DurationUnit::Months(_)) => answer(DurationUnit::Months(total as u32)),
        (None, _) => None,
    }
}

proof fn lemma_unit_sizes(name: Seq<char>)
    ensures
        match unit_of(name) {
            Some(DurationUnit::Seconds(each)) => 1 <= each <= 604_800,
            Some(DurationUnit::Months(each)) => 1 <= each <= 12,
            None => true,
        },
{
}

/// The value of some digits, where it fits.
fn parse_count(chars: &Vec<char>, end: usize) -> (count: Option<u32>)
    requires
        end <= chars@.len(),
        forall|i: int| 0 <= i < end ==> '0' <= #[trigger] chars@[i] <= '9',
    ensures
        match count {
            Some(found) => found == digits_value(chars@.take(end as int)),
            None => digits_value(chars@.take(end as int)) > u32::MAX,
        },
{
    let mut value: u64 = 0;
    let mut next: usize = 0;
    assert(chars@.take(0) =~= Seq::<char>::empty());
    while next < end
        invariant
            next <= end <= chars@.len(),
            forall|i: int| 0 <= i < end ==> '0' <= #[trigger] chars@[i] <= '9',
            value == digits_value(chars@.take(next as int)),
            value <= u32::MAX,
        decreases end - next,
    {
        let ghost part = chars@.take(next + 1);
        assert(part.drop_last() =~= chars@.take(next as int));
        assert(part.last() == chars@[next as int]);
        let digit: u64 = chars[next] as u64 - '0' as u64;
        value = value * 10 + digit;
        next = next + 1;
        if value > 0xffff_ffff {
            proof {
                lemma_digits_grow(chars@.take(end as int), next as int);
                assert(chars@.take(end as int).take(next as int) =~= chars@.take(next as int));
            }
            return None;
        }
    }
    Some(value as u32)
}

proof fn lemma_digits_grow(digits: Seq<char>, count: int)
    requires
        0 <= count <= digits.len(),
        forall|i: int| 0 <= i < digits.len() ==> '0' <= #[trigger] digits[i] <= '9',
    ensures
        0 <= digits_value(digits.take(count)) <= digits_value(digits),
    decreases digits.len(),
{
    if count == digits.len() {
        assert(digits.take(count) =~= digits);
        if digits.len() > 0 {
            lemma_digits_grow(digits.drop_last(), digits.len() - 1);
            assert(digits.drop_last().take(digits.len() - 1) =~= digits.drop_last());
        }
    } else {
        let head = digits.drop_last();
        lemma_digits_grow(head, count);
        assert(head.take(count) =~= digits.take(count));
        assert('0' <= digits[digits.len() - 1] <= '9');
    }
}

/// The period that ends now and begins a duration ago, if a text names one. `earlier` gives the
/// moment so many seconds or months ago, where there is one.
pub fn relative_date_period<F: Fn(DurationUnit) -> Option<i64>>(
    written: &str,
    now: i64,
    earlier: &F,
) -> (result: Result<Option<(i64, i64)>, String>)
    requires
        now < i64::MAX,
        forall|back: DurationUnit| #[trigger] call_requires(*earlier, (back,)),
    ensures
        match duration_of(written@) {
            None => result matches Ok(found) && found is None,
            Some((count, unit)) => match result {
                Ok(Some(found)) => counted(count, unit) is Some && found.1 == now + 1,
                Ok(None) => false,
                Err(reason) => reason@ == "Relative date duration is out of range"@,
            },
        },
        forall|answer: spec_fn(DurationUnit) -> Option<i64>| #[trigger]
            earlier_as(*earlier, answer) ==> (duration_of(written@) matches Some((count, unit))
                ==> match moment_ago(answer, count, unit) {
                Some(start) => result == Ok::<Option<(i64, i64)>, String>(
                    Some((start, (now + 1) as i64)),
                ),
                None => result is Err,
            }),
{
    let chars = text::chars_of(written);
    let mut split: usize = 0;
    while split < chars.len() && '0' <= chars[split] && chars[split] <= '9'
        invariant
            split <= chars@.len(),
            chars@ == written@,
            forall|i: int| 0 <= i < split ==> '0' <= #[trigger] chars@[i] <= '9',
            leading_digits(written@, 0) == leading_digits(written@, split as int),
        decreases chars@.len() - split,
    {
        split = split + 1;
    }
    if split == 0 || split == chars.len() {
        return Ok(None);
    }
    let rest = text::text_of(&chars, split, chars.len());
    assert(rest@ =~= written@.skip(split as int));
    let name = lower_ascii(rest.as_str());
    let unit = match named_unit(name.as_str()) {
        Some(unit) => unit,
        None => {
            return Ok(None);
        },
    };
    let count = match parse_count(&chars, split) {
        Some(count) => count,
        None => {
            return Err("Relative date duration is out of range".to_owned());
        },
    };
    proof {
        lemma_unit_sizes(name@);
    }
    let start = match unit {
        DurationUnit::Seconds(each) => {
            assert(0 <= count * each <= 0xffff_ffff * 604_800) by (nonlinear_arith)
                requires
                    0 <= count <= 0xffff_ffff,
                    1 <= each <= 604_800,
            ;
            earlier(DurationUnit::Seconds(count as u64 * each))
        },
        DurationUnit::Months(each) => {
            assert(0 <= count * each <= 0xffff_ffff * 12) by (nonlinear_arith)
                requires
                    0 <= count <= 0xffff_ffff,
                    1 <= each <= 12,
            ;
            let total: u64 = count as u64 * each as u64;
            if total > 0xffff_ffff {
                return Err("Relative date duration is out of range".to_owned());
            }
            earlier(DurationUnit::Months(total as u32))
        },
    };
    match start {
        Some(start) => Ok(Some((start, now + 1))),
        None => Err("Relative date duration is out of range".to_owned()),
    }
}

/// A period of time that a text names, given what its days are and when they begin.
pub open spec fn names_times(
    result: Result<(i64, i64), String>,
    days: Result<(Date, Date), String>,
    instants: spec_fn(Date, u32) -> Option<i64>,
) -> bool {
    match days {
        Err(reason) => result matches Err(said) && said@ == reason@,
        Ok((from, to)) => match (first_instant(instants, from, 0), first_instant(instants, to, 0)) {
            (Some(start), Some(end)) => result == Ok::<(i64, i64), String>((start, end)),
            _ => result matches Err(said) && said@
                == "Calendar boundary is not representable in the local timezone"@,
        },
    }
}

/// The time that a text names: a duration that ends now, or a period of the calendar.
pub open spec fn times_named(
    result: Result<(i64, i64), String>,
    written: Seq<char>,
    today: Date,
    first_weekday: int,
    now: int,
    instants: spec_fn(Date, u32) -> Option<i64>,
    moments: spec_fn(DurationUnit) -> Option<i64>,
) -> bool {
    match duration_of(written) {
        Some((count, unit)) => match moment_ago(moments, count, unit) {
            Some(start) => result == Ok::<(i64, i64), String>((start, (now + 1) as i64)),
            None => result matches Err(reason) && reason@
                == "Relative date duration is out of range"@,
        },
        None => exists|days: Result<(Date, Date), String>| #[trigger]
            names_period(days, written, today, first_weekday) && names_times(
                result,
                days,
                instants,
            ),
    }
}

/// The time that a text names, from its first second up to the second after its last.
pub fn date_period<I: Fn(Date, u32) -> Option<i64>, E: Fn(DurationUnit) -> Option<i64>>(
    written: &str,
    today: Date,
    first_weekday: u32,
    now: i64,
    instant: &I,
    earlier: &E,
) -> (result: Result<(i64, i64), String>)
    requires
        is_date(today),
        first_day() + 13 <= day_number(today),
        day_number(today) + 7 <= last_day(),
        now < i64::MAX,
        forall|d: Date, m: u32| #[trigger] call_requires(*instant, (d, m)),
        forall|back: DurationUnit| #[trigger] call_requires(*earlier, (back,)),
    ensures
        forall|
            instants: spec_fn(Date, u32) -> Option<i64>,
            moments: spec_fn(DurationUnit) -> Option<i64>,
        |
            #![trigger instants_as(*instant, instants), earlier_as(*earlier, moments)]
            instants_as(*instant, instants) && earlier_as(*earlier, moments) ==> times_named(
                result,
                written@,
                today,
                first_weekday as int,
                now as int,
                instants,
                moments,
            ),
{
    match relative_date_period(written, now, earlier) {
        Err(reason) => {
            return Err(reason);
        },
        Ok(Some(found)) => {
            return Ok(found);
        },
        Ok(None) => {},
    }
    let days = calendar_period(written, today, first_weekday);
    let ghost named = days;
    assert(names_period(named, written@, today, first_weekday as int));
    match days {
        Err(reason) => Err(reason),
        Ok((from, to)) => match midnight(from, instant) {
            Err(reason) => Err(reason),
            Ok(start) => match midnight(to, instant) {
                Err(reason) => Err(reason),
                Ok(end) => Ok((start, end)),
            },
        },
    }
}

/// Periods are found as by a function of the text.
pub open spec fn periods_as<P: Fn(&str) -> Result<(i64, i64), String>>(
    ask: P,
    answer: spec_fn(Seq<char>) -> Result<(i64, i64), Seq<char>>,
) -> bool {
    forall|written: &str, said: Result<(i64, i64), String>| #[trigger]
        call_ensures(ask, (written,), said) ==> (match said {
            Ok(found) => answer(written@) == Ok::<(i64, i64), Seq<char>>(found),
            Err(reason) => answer(written@) == Err::<(i64, i64), Seq<char>>(reason@),
        })
}

/// The seconds from the start of one period to the end of another.
pub open spec fn seconds_between(
    from: Result<(i64, i64), Seq<char>>,
    to: Result<(i64, i64), Seq<char>>,
) -> Result<(int, int), Seq<char>> {
    match (from, to) {
        (Err(reason), _) => Err(reason),
        (_, Err(reason)) => Err(reason),
        (Ok(first), Ok(last)) => if first.0 >= last.1 {
            Err("Date range lower bound exceeds upper bound"@)
        } else {
            Ok((first.0 as int, last.1 - 1))
        },
    }
}

/// The first and the last second that an operand accepts.
pub open spec fn seconds_of(
    operand: OperandView,
    answer: spec_fn(Seq<char>) -> Result<(i64, i64), Seq<char>>,
) -> Result<(int, int), Seq<char>> {
    match operand {
        OperandView::Between(low, high) => seconds_between(answer(low), answer(high)),
        OperandView::Exactly(value) => seconds_between(answer(value), answer(value)),
        OperandView::Plain(value) => seconds_between(answer(value), answer(value)),
        OperandView::AtLeast(value) => match answer(value) {
            Ok(found) => Ok((found.0 as int, i128::MAX as int)),
            Err(reason) => Err(reason),
        },
        OperandView::AtMost(value) => match answer(value) {
            Ok(found) => Ok((i128::MIN as int, found.1 - 1)),
            Err(reason) => Err(reason),
        },
        OperandView::Above(value) => match answer(value) {
            Ok(found) => Ok((found.1 as int, i128::MAX as int)),
            Err(reason) => Err(reason),
        },
        OperandView::Below(value) => match answer(value) {
            Ok(found) => Ok((i128::MIN as int, found.0 - 1)),
            Err(reason) => Err(reason),
        },
    }
}

/// A span of seconds has the given first and last second.
pub open spec fn spans_seconds(
    result: Result<(i128, i128), String>,
    seconds: Result<(int, int), Seq<char>>,
) -> bool {
    match seconds {
        Ok((low, high)) => result matches Ok(span) && span.0 == low && span.1 == high,
        Err(reason) => result matches Err(said) && said@ == reason,
    }
}

fn span_between(from: (i64, i64), to: (i64, i64)) -> (result: Result<(i128, i128), String>)
    ensures
        spans_seconds(result, seconds_between(Ok(from), Ok(to))),
{
    if from.0 >= to.1 {
        Err("Date range lower bound exceeds upper bound".to_owned())
    } else {
        Ok((from.0 as i128, to.1 as i128 - 1))
    }
}

/// The seconds that a date of a query accepts, the first and the last. `period` gives the time
/// that a text names.
pub fn date_span<P: Fn(&str) -> Result<(i64, i64), String>>(operand: &Operand, period: &P) -> (result:
    Result<(i128, i128), String>)
    requires
        forall|written: &str| #[trigger] call_requires(*period, (written,)),
    ensures
        forall|answer: spec_fn(Seq<char>) -> Result<(i64, i64), Seq<char>>| #[trigger]
            periods_as(*period, answer) ==> spans_seconds(result, seconds_of(operand@, answer)),
{
    let first = match operand {
        Operand::Between(low, _) => period(low.as_str()),
        Operand::AtLeast(value) => period(value.as_str()),
        Operand::AtMost(value) => period(value.as_str()),
        Operand::Above(value) => period(value.as_str()),
        Operand::Below(value) => period(value.as_str()),
        Operand::Exactly(value) => period(value.as_str()),
        Operand::Plain(value) => period(value.as_str()),
    };
    let found = match first {
        Ok(found) => found,
        Err(reason) => {
            return Err(reason);
        },
    };
    match operand {
        Operand::Between(_, high) => match period(high.as_str()) {
            Ok(last) => span_between(found, last),
            Err(reason) => Err(reason),
        },
        Operand::AtLeast(_) => Ok((found.0 as i128, i128::MAX)),
        Operand::AtMost(_) => Ok((i128::MIN, found.1 as i128 - 1)),
        Operand::Above(_) => Ok((found.1 as i128, i128::MAX)),
        Operand::Below(_) => Ok((i128::MIN, found.0 as i128 - 1)),
        Operand::Exactly(_) => span_between(found, found),
        Operand::Plain(_) => span_between(found, found),
    }
}

/// The first second that a date accepts comes no later than the last, and a date that is named
/// alone or as `=` accepts the seconds from the start of its period up to its end.
pub proof fn law_date_bounds_are_in_order(
    operand: OperandView,
    answer: spec_fn(Seq<char>) -> Result<(i64, i64), Seq<char>>,
)
    requires
        seconds_of(operand, answer) is Ok,
    ensures
        ({
            let (low, high) = seconds_of(operand, answer)->Ok_0;
            &&& low <= high
            &&& operand matches OperandView::Exactly(value) ==> answer(value) matches Ok(period)
                && period.0 < period.1 && low == period.0 && high == period.1 - 1
            &&& operand matches OperandView::Plain(value) ==> answer(value) matches Ok(period)
                && period.0 < period.1 && low == period.0 && high == period.1 - 1
        }),
{
}

/// A second is accepted by operands on one date as its period says: it is the date where the
/// period holds it, before the date or since it, and no later than the date or after it.
pub proof fn law_a_second_is_before_in_or_after_a_date(
    value: Seq<char>,
    answer: spec_fn(Seq<char>) -> Result<(i64, i64), Seq<char>>,
    second: i64,
)
    requires
        answer(value) is Ok,
        answer(value)->Ok_0.0 < answer(value)->Ok_0.1,
    ensures
        ({
            let period = answer(value)->Ok_0;
            let accepts = |operand: OperandView|
                seconds_of(operand, answer) matches Ok((low, high)) && evaluate::in_bounds(
                    NumberBounds::Span(low as i128, high as i128),
                    second as int,
                );
            &&& accepts(OperandView::Plain(value)) <==> period.0 <= second < period.1
            &&& accepts(OperandView::Exactly(value)) <==> period.0 <= second < period.1
            &&& accepts(OperandView::Below(value)) <==> second < period.0
            &&& accepts(OperandView::AtLeast(value)) <==> !accepts(OperandView::Below(value))
            &&& accepts(OperandView::Above(value)) <==> second >= period.1
            &&& accepts(OperandView::AtMost(value)) <==> !accepts(OperandView::Above(value))
        }),
{
}

/// The days of the years up to one.
spec fn days_through(year: int) -> int {
    365 * year + year / 4 - year / 100 + year / 400
}

spec fn days_of_year(year: int) -> int {
    if is_leap(year) {
        366
    } else {
        365
    }
}

/// A quotient grows by one where the divisor divides.
proof fn lemma_quotient_grows(year: int, divisor: int)
    requires
        divisor > 1,
    ensures
        year / divisor - (year - 1) / divisor == (if year % divisor == 0 {
            1int
        } else {
            0int
        }),
{
    let (whole, rest) = (year / divisor, year % divisor);
    vstd::arithmetic::div_mod::lemma_fundamental_div_mod(year, divisor);
    vstd::arithmetic::div_mod::lemma_mod_bound(year, divisor);
    if rest == 0 {
        assert(year - 1 == (whole - 1) * divisor + (divisor - 1)) by (nonlinear_arith)
            requires
                year == divisor * whole + rest,
                rest == 0,
        ;
        vstd::arithmetic::div_mod::lemma_fundamental_div_mod_converse(
            year - 1,
            divisor,
            whole - 1,
            divisor - 1,
        );
    } else {
        assert(year - 1 == whole * divisor + (rest - 1)) by (nonlinear_arith)
            requires
                year == divisor * whole + rest,
        ;
        vstd::arithmetic::div_mod::lemma_fundamental_div_mod_converse(
            year - 1,
            divisor,
            whole,
            rest - 1,
        );
    }
}

/// What four hundred divides, a hundred and four divide too.
proof fn lemma_divisors(year: int)
    ensures
        year % 400 == 0 ==> year % 100 == 0,
        year % 100 == 0 ==> year % 4 == 0,
{
}

#[verifier::spinoff_prover]
proof fn lemma_year_adds_its_days(year: int)
    ensures
        days_through(year) == days_through(year - 1) + days_of_year(year),
{
    lemma_quotient_grows(year, 4);
    lemma_quotient_grows(year, 100);
    lemma_quotient_grows(year, 400);
    lemma_divisors(year);
}

proof fn lemma_years_grow(a: int, b: int)
    requires
        a <= b,
    ensures
        days_through(a) <= days_through(b),
    decreases b - a,
{
    if a < b {
        lemma_years_grow(a, b - 1);
        lemma_year_adds_its_days(b);
    }
}

proof fn lemma_months_fill_the_year(year: int)
    ensures
        days_before(year, 13) == days_of_year(year),
{
    reveal_with_fuel(days_before, 13);
}

proof fn lemma_months_grow(year: int, a: int, b: int)
    requires
        1 <= a < b <= 13,
    ensures
        days_before(year, a) + days_in(year, a) <= days_before(year, b),
    decreases b - a,
{
    if a + 1 < b {
        lemma_months_grow(year, a, b - 1);
    }
}

/// A day lies in its year.
proof fn lemma_day_in_year(date: Date)
    requires
        is_date(date),
    ensures
        days_through(date.year - 1) < day_number(date) <= days_through(date.year as int),
{
    let (year, month) = (date.year as int, date.month as int);
    lemma_days_before(year, month);
    lemma_months_grow(year, month, 13);
    lemma_months_fill_the_year(year);
    lemma_year_adds_its_days(year);
}

/// Different days have different numbers.
proof fn lemma_day_numbers_differ(a: Date, b: Date)
    requires
        is_date(a),
        is_date(b),
        day_number(a) == day_number(b),
    ensures
        a == b,
{
    lemma_day_in_year(a);
    lemma_day_in_year(b);
    if a.year < b.year {
        lemma_years_grow(a.year as int, b.year - 1);
    } else if b.year < a.year {
        lemma_years_grow(b.year as int, a.year - 1);
    } else if a.month < b.month {
        lemma_months_grow(a.year as int, a.month as int, b.month as int);
    } else if b.month < a.month {
        lemma_months_grow(a.year as int, b.month as int, a.month as int);
    }
}

/// The first day of the next month comes later.
proof fn lemma_next_month_later(date: Date)
    requires
        is_date(date),
    ensures
        day_number(date) < day_number(next_month(date)),
{
    let year = date.year as int;
    if date.month == 12 {
        lemma_day_in_year(date);
        assert(days_before(year + 1, 1) == 0);
    } else {
        assert(days_before(year, date.month + 1) == days_before(year, date.month as int) + days_in(
            year,
            date.month as int,
        ));
    }
}

proof fn lemma_next_year_later(year: int)
    requires
        MIN_YEAR <= year <= MAX_YEAR,
    ensures
        day_number(year_start(year)) < day_number(year_start(year + 1)),
{
    lemma_year_adds_its_days(year);
    assert(days_before(year, 1) == 0);
    assert(days_before(year + 1, 1) == 0);
}

/// One of the words that name a period.
pub open spec fn is_period_word(written: Seq<char>) -> bool {
    let word = text::lower(written);
    word == "today"@ || word == "yesterday"@ || word == "thisweek"@ || word == "lastweek"@ || word
        == "thismonth"@ || word == "lastmonth"@ || word == "thisyear"@ || word == "lastyear"@
}

/// The month that a text names, by its first day.
pub open spec fn month_named(written: Seq<char>) -> Option<Date> {
    if is_period_word(written) || is_year(written) || text::bytes_of(written).len() != 7 {
        None
    } else {
        as_date(parsed_day(written + "-01"@))
    }
}

/// The day that a text names.
pub open spec fn day_named(written: Seq<char>) -> Option<Date> {
    if is_period_word(written) || is_year(written) || text::bytes_of(written).len() == 7 {
        None
    } else {
        as_date(parsed_day(written))
    }
}

/// The first text names the period before that of the second.
pub open spec fn names_period_before(before: Seq<char>, after: Seq<char>) -> bool {
    let (first, second) = (text::lower(before), text::lower(after));
    ||| first == "yesterday"@ && second == "today"@
    ||| first == "lastweek"@ && second == "thisweek"@
    ||| first == "lastmonth"@ && second == "thismonth"@
    ||| first == "lastyear"@ && second == "thisyear"@
    ||| is_year(before) && is_year(after) && digits_value(after) == digits_value(before) + 1
    ||| month_named(before) matches Some(month) && month_named(after) == Some(next_month(month))
    ||| day_named(before) matches Some(day) && day_named(after) matches Some(next) && is_date(day)
        && is_date(next) && day_number(next) == day_number(day) + 1
}

proof fn lemma_period_words()
    ensures
        "today"@.len() == 5,
        "yesterday"@.len() == 9,
        "thisweek"@.len() == 8,
        "lastweek"@.len() == 8,
        "thismonth"@.len() == 9,
        "lastmonth"@.len() == 9,
        "thisyear"@.len() == 8,
        "lastyear"@.len() == 8,
        "yesterday"@[0] == 'y',
        "thisweek"@[0] == 't' && "thisweek"@[4] == 'w',
        "lastweek"@[0] == 'l' && "lastweek"@[4] == 'w',
        "thismonth"@[0] == 't',
        "lastmonth"@[0] == 'l',
        "thisyear"@[0] == 't' && "thisyear"@[4] == 'y',
        "lastyear"@[0] == 'l' && "lastyear"@[4] == 'y',
{
    reveal_strlit("today");
    reveal_strlit("yesterday");
    reveal_strlit("thisweek");
    reveal_strlit("lastweek");
    reveal_strlit("thismonth");
    reveal_strlit("lastmonth");
    reveal_strlit("thisyear");
    reveal_strlit("lastyear");
}

proof fn lemma_year_value(written: Seq<char>)
    requires
        is_year(written),
    ensures
        0 <= digits_value(written) <= 9999,
        !is_period_word(written),
{
    lemma_period_words();
    let (a, b, c) = (written.take(1), written.take(2), written.take(3));
    assert('0' <= written[0] <= '9' && '0' <= written[1] <= '9');
    assert('0' <= written[2] <= '9' && '0' <= written[3] <= '9');
    assert(written.drop_last() =~= c);
    assert(c.drop_last() =~= b);
    assert(b.drop_last() =~= a);
    assert(a.drop_last() =~= Seq::<char>::empty());
    assert(digits_value(Seq::<char>::empty()) == 0);
    assert(0 <= digits_value(a) <= 9);
    assert(0 <= digits_value(b) <= 99);
    assert(0 <= digits_value(c) <= 999);
    assert(text::lower(written).len() == 4);
}

/// A period that a text names has days of the calendar as its bounds and is not empty.
pub proof fn law_periods_are_not_empty(
    written: Seq<char>,
    today: Date,
    first_weekday: int,
    found: (Date, Date),
)
    requires
        is_date(today),
        names_period(Ok(found), written, today, first_weekday),
    ensures
        is_date(found.0),
        is_date(found.1),
        day_number(found.0) < day_number(found.1),
{
    lemma_period_words();
    let word = text::lower(written);
    let month = Date { day: 1, ..today };
    if word == "thismonth"@ {
        lemma_next_month_later(month);
    } else if word == "lastmonth"@ {
        lemma_next_month_later(last_month(today));
    } else if word == "thisyear"@ {
        lemma_next_year_later(today.year as int);
    } else if word == "lastyear"@ {
        lemma_next_year_later(today.year - 1);
    } else if !is_period_word(written) {
        if is_year(written) {
            lemma_year_value(written);
            lemma_next_year_later(digits_value(written));
        } else if text::bytes_of(written).len() == 7 {
            let date = as_date(parsed_day(written + "-01"@))->0;
            lemma_next_month_later(date);
        }
    }
}

/// Neighbouring periods meet: one begins with the day on which the period before it ends.
pub proof fn law_neighbouring_periods_meet(
    before: Seq<char>,
    after: Seq<char>,
    today: Date,
    first_weekday: int,
    earlier: (Date, Date),
    later: (Date, Date),
)
    requires
        is_date(today),
        names_period_before(before, after),
        names_period(Ok(earlier), before, today, first_weekday),
        names_period(Ok(later), after, today, first_weekday),
    ensures
        earlier.1 == later.0,
{
    lemma_period_words();
    law_periods_are_not_empty(before, today, first_weekday, earlier);
    law_periods_are_not_empty(after, today, first_weekday, later);
    if is_year(before) && is_year(after) {
        lemma_year_value(before);
        lemma_year_value(after);
    }
    assert(day_number(earlier.1) == day_number(later.0));
    lemma_day_numbers_differ(earlier.1, later.0);
}

/// The words for the present hold today, and those for the past what came right before: a week is
/// seven days from the first weekday on, a month and a year begin with their first day and are the
/// ones of today. A year of four digits is that year.
pub proof fn law_period_words_lie_about_today(
    word: Seq<char>,
    today: Date,
    first_weekday: int,
    found: (Date, Date),
)
    requires
        is_date(today),
        0 <= first_weekday,
        names_period(Ok(found), word, today, first_weekday),
        text::lower(word) == word,
    ensures
        ({
            let (from, to, now) = (
                day_number(found.0),
                day_number(found.1),
                day_number(today),
            );
            &&& word == "today"@ ==> from == now && to == now + 1
            &&& word == "yesterday"@ ==> from == now - 1 && to == now
            &&& word == "thisweek"@ ==> from <= now < to && to == from + 7 && (from - first_weekday)
                % 7 == 0
            &&& word == "lastweek"@ ==> from <= now - 7 < to && to == from + 7 && (from
                - first_weekday) % 7 == 0
            &&& word == "thismonth"@ ==> from <= now < to && found.0.day == 1 && found.0.month
                == today.month && found.0.year == today.year && found.1.day == 1
            &&& word == "lastmonth"@ ==> from < to <= now && found.1.day == 1 && found.1.month
                == today.month && found.1.year == today.year && found.0.day == 1
            &&& word == "thisyear"@ ==> from <= now < to && found.0.year == today.year
                && found.0.month == 1 && found.0.day == 1 && found.1.year == today.year + 1
            &&& word == "lastyear"@ ==> from < to <= now && found.1.year == today.year
                && found.1.month == 1 && found.1.day == 1 && found.0.year == today.year - 1
            &&& is_year(word) ==> found.0.year == digits_value(word) && found.1.year == digits_value(
                word,
            ) + 1 && found.0.month == 1 && found.1.month == 1 && found.0.day == 1 && found.1.day
                == 1
        }),
{
    lemma_period_words();
    law_periods_are_not_empty(word, today, first_weekday, found);
    if is_year(word) {
        lemma_year_value(word);
    }
    let month = Date { day: 1, ..today };
    assert(day_number(month) == day_number(today) - today.day + 1);
    lemma_next_month_later(today);
    lemma_day_in_year(today);
    lemma_year_adds_its_days(today.year as int);
    lemma_days_before(today.year as int, today.month as int);
    assert(days_before(today.year as int, 1) == 0);
    assert(days_before(today.year + 1, 1) == 0);
    let (now, first) = (day_number(today), first_weekday);
    let into = days_into_week(today, first);
    assert((now - into - first) % 7 == 0 && (now - into - 7 - first) % 7 == 0 && 0 <= into < 7) by {
        assert(into == (now % 7 + 7 - first % 7) % 7);
    }
}

/// The calendar: months have 31 or 30 days, and the second one 28, or 29 in years that 4 divides
/// but not 100, or that 400 divides. Days are numbered one after the other, across the ends of
/// months and of years, from the first day of the year one on.
pub proof fn law_days_are_numbered_in_order(date: Date)
    requires
        is_date(date),
        date.year < MAX_YEAR,
    ensures
        ({
            let (year, month) = (date.year as int, date.month as int);
            let long = month == 1 || month == 3 || month == 5 || month == 7 || month == 8 || month
                == 10 || month == 12;
            let leap = year % 4 == 0 && year % 100 != 0 || year % 400 == 0;
            let days = if month == 2 {
                if leap {
                    29
                } else {
                    28int
                }
            } else if long {
                31
            } else {
                30
            };
            &&& days_in(year, month) == days
            &&& date.day < days ==> day_number(Date { day: (date.day + 1) as u32, ..date })
                == day_number(date) + 1
            &&& date.day == days ==> day_number(next_month(date)) == day_number(date) + 1
        }),
        day_number(Date { year: 1, month: 1, day: 1 }) == 1,
{
    let year = date.year as int;
    lemma_divisors(year);
    assert(days_before(year, 1) == 0);
    assert(days_before(1, 1) == 0);
    assert(days_before(year + 1, 1) == 0);
    lemma_year_adds_its_days(year);
    lemma_months_fill_the_year(year);
    if date.month == 12 {
        assert(days_before(year, 13) == days_before(year, 12) + days_in(year, 12));
    } else {
        assert(days_before(year, date.month + 1) == days_before(year, date.month as int) + days_in(
            year,
            date.month as int,
        ));
    }
}

proof fn lemma_leading_digits(written: Seq<char>, from: int, end: int)
    requires
        0 <= from <= end <= written.len(),
        forall|i: int| from <= i < end ==> '0' <= #[trigger] written[i] <= '9',
        end == written.len() || !('0' <= written[end] <= '9'),
    ensures
        leading_digits(written, from) == end,
    decreases end - from,
{
    if from < end {
        lemma_leading_digits(written, from + 1, end);
    }
}

/// A duration is written as a count of digits and a unit of letters behind it, in either case; it
/// stands for that many of the unit. Digits alone and letters alone are none.
pub proof fn law_durations_are_a_count_and_a_unit(digits: Seq<char>, unit: Seq<char>)
    requires
        forall|i: int| 0 <= i < digits.len() ==> '0' <= #[trigger] digits[i] <= '9',
        unit.len() > 0 ==> !('0' <= unit[0] <= '9'),
    ensures
        digits.len() > 0 && unit.len() > 0 ==> duration_of(digits + unit) == (match unit_of(
            text::lower(unit),
        ) {
            Some(one) => Some((digits_value(digits), one)),
            None => None,
        }),
        duration_of(digits) is None,
        duration_of(unit) is None,
{
    let written = digits + unit;
    let n = digits.len() as int;
    assert forall|i: int| 0 <= i < n implies '0' <= #[trigger] written[i] <= '9' by {
        assert(written[i] == digits[i]);
    }
    if unit.len() > 0 {
        assert(written[n] == unit[0]);
    }
    lemma_leading_digits(written, 0, n);
    lemma_leading_digits(digits, 0, n);
    lemma_leading_digits(unit, 0, 0);
    assert(written.take(n) =~= digits);
    assert(written.skip(n) =~= unit);
}

/// A day begins with the first of its minutes that there is, where a change of the clock leaves the
/// first ones out.
pub proof fn law_days_begin_with_their_first_minute(
    answer: spec_fn(Date, u32) -> Option<i64>,
    date: Date,
    from: int,
    at: int,
)
    requires
        0 <= from <= at <= 1440,
        answer(date, at as u32) is Some,
        forall|minute: int|
            from <= minute < at ==> (#[trigger] answer(date, minute as u32)) is None,
    ensures
        first_instant(answer, date, from) == answer(date, at as u32),
    decreases at - from,
{
    if from < at {
        assert(answer(date, from as u32) is None);
        law_days_begin_with_their_first_minute(answer, date, from + 1, at);
    }
}

} // verus!
