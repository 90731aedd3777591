//! Calendar values: dates as day numbers, times of day, weekdays.
use vstd::prelude::*;

verus! {

/// The earliest year that a date may have.
pub const MIN_YEAR: i32 = -262143;

/// The latest year that a date may have.
pub const MAX_YEAR: i32 = 262142;

/// Seconds in one day.
pub const SECS_PER_DAY: u32 = 86400;

pub open spec fn is_leap_year(y: int) -> bool {
    y % 4 == 0 && (y % 100 != 0 || y % 400 == 0)
}

pub open spec fn days_in_month(y: int, m: int) -> int {
    if m == 2 {
        if is_leap_year(y) {
            29
        } else {
            28
        }
    } else if m == 4 || m == 6 || m == 9 || m == 11 {
        30
    } else {
        31
    }
}

/// Whether (y, m, d) is a day of the proleptic Gregorian calendar within the
/// supported years.
pub open spec fn is_calendar_date(y: int, m: int, d: int) -> bool {
    MIN_YEAR <= y <= MAX_YEAR && 1 <= m <= 12 && 1 <= d <= days_in_month(y, m)
}

/// Days in the months of year `y` before month `m`.
pub open spec fn days_before_month(y: int, m: int) -> int
    decreases m,
{
    if m <= 1 {
        0
    } else {
        days_before_month(y, m - 1) + days_in_month(y, m - 1)
    }
}

/// The number of multiples of `k` among the years 1 to `y` - 1 (negative
/// for years before 1).
pub open spec fn multiples_before(y: int, k: int) -> int {
    (y + k - 1) / k - 1
}

/// The number of the day (y, m, d), counting January 1 of year 1 as day 1:
/// its ordinal in the year, plus 365 days for each earlier year and one more
/// for each earlier leap year.
pub open spec fn days_from_ce(y: int, m: int, d: int) -> int {
    days_before_month(y, m) + d + 365 * (y - 1) + multiples_before(y, 4) - multiples_before(y, 100)
        + multiples_before(y, 400)
}

/// Relies on chrono's `NaiveDate::from_ymd_opt`, which gives a date exactly
/// for the calendar days within its year range, and on `num_days_from_ce`
/// for that date's number.
#[verifier::external_body]
fn day_number_of(y: i32, m: u32, d: u32) -> (r: Option<i32>)
    ensures
        r.is_some() == is_calendar_date(y as int, m as int, d as int),
        r.is_some() ==> r.unwrap() as int == days_from_ce(y as int, m as int, d as int),
{
    match chrono::NaiveDate::from_ymd_opt(y, m, d) {
        Some(date) => Some(chrono::Datelike::num_days_from_ce(&date)),
        None => None,
    }
}

/// A calendar day, held as its day number (January 1 of year 1 is day 1).
#[derive(Clone, Copy, Debug, PartialEq, Eq, Structural)]
pub struct Date {
    pub days: i32,
}

impl Date {
    /// The day (y, m, d), if it is one.
    pub fn from_ymd(y: i32, m: u32, d: u32) -> (r: Option<Date>)
        ensures
            r.is_some() == is_calendar_date(y as int, m as int, d as int),
            r.is_some() ==> r.unwrap().days as int == days_from_ce(y as int, m as int, d as int),
    {
        match day_number_of(y, m, d) {
            Some(days) => Some(Date { days }),
            None => None,
        }
    }
}

/// The weekday of day number `days`, 0 for Monday up to 6 for Sunday.
/// Day 1 (January 1 of year 1) was a Monday.
pub open spec fn weekday_index(days: int) -> int {
    (days - 1) % 7
}

/// A day of the week.
#[derive(Clone, Copy, Debug, PartialEq, Eq, Structural)]
pub enum Weekday {
    Mon,
    Tue,
    Wed,
    Thu,
    Fri,
    Sat,
    Sun,
}

impl Weekday {
    pub open spec fn index(self) -> int {
        match self {
            Weekday::Mon => 0,
            Weekday::Tue => 1,
            Weekday::Wed => 2,
            Weekday::Thu => 3,
            Weekday::Fri => 4,
            Weekday::Sat => 5,
            Weekday::Sun => 6,
        }
    }

    /// The weekday whose index, counted from Monday, is `i`.
    pub fn from_index(i: u8) -> (r: Weekday)
        requires
            i < 7,
        ensures
            r.index() == i,
    {
        if i == 0 {
            Weekday::Mon
        } else if i == 1 {
            Weekday::Tue
        } else if i == 2 {
            Weekday::Wed
        } else if i == 3 {
            Weekday::Thu
        } else if i == 4 {
            Weekday::Fri
        } else if i == 5 {
            Weekday::Sat
        } else {
            Weekday::Sun
        }
    }

    /// The number of days from Monday.
    pub fn num_days_from_monday(self) -> (r: u8)
        ensures
            r as int == self.index(),
    {
        match self {
            Weekday::Mon => 0,
            Weekday::Tue => 1,
            Weekday::Wed => 2,
            Weekday::Thu => 3,
            Weekday::Fri => 4,
            Weekday::Sat => 5,
            Weekday::Sun => 6,
        }
    }

    /// The weekday of a date.
    pub fn of_date(date: Date) -> (r: Weekday)
        ensures
            r.index() == weekday_index(date.days as int),
    {
        let i = weekday_of_day_number(date.days as i64);
        Weekday::from_index(i)
    }
}

/// The weekday index of any day number that fits an `i64` shifted by a week.
pub fn weekday_of_day_number(days: i64) -> (r: u8)
    requires
        i32::MIN - 7 <= days <= i32::MAX,
    ensures
        r < 7,
        r as int == weekday_index(days as int),
{
    let shifted: i64 = days - 1 + 7 * 400_000_000;
    let u: u64 = shifted as u64;
    let r: u64 = u % 7;
    assert((days - 1 + 7 * 400_000_000) % 7 == (days - 1) % 7) by (nonlinear_arith);
    r as u8
}

/// A time of day: seconds since midnight and a fraction in nanoseconds. The
/// fraction may reach two seconds' worth to hold a leap second.
#[derive(Clone, Copy, Debug, PartialEq, Eq, Structural)]
pub struct Time {
    pub secs: u32,
    pub nanos: u32,
}

impl Time {
    pub open spec fn wf(self) -> bool {
        self.secs < SECS_PER_DAY && self.nanos < 2_000_000_000
    }

    /// Whether `self` comes strictly before `other` in the day.
    pub open spec fn is_before(self, other: Time) -> bool {
        self.secs < other.secs || (self.secs == other.secs && self.nanos < other.nanos)
    }

    /// The time h:m:s, if h, m and s are within a day.
    pub fn from_hms(h: u32, m: u32, s: u32) -> (r: Option<Time>)
        ensures
            r.is_some() == (h < 24 && m < 60 && s < 60),
            r.is_some() ==> r.unwrap().wf() && r.unwrap().secs == h * 3600 + m * 60 + s
                && r.unwrap().nanos == 0,
    {
        if h < 24 && m < 60 && s < 60 {
            Some(Time { secs: h * 3600 + m * 60 + s, nanos: 0 })
        } else {
            None
        }
    }

    /// Midnight.
    pub fn midnight() -> (r: Time)
        ensures
            r.wf(),
            r.secs == 0 && r.nanos == 0,
    {
        Time { secs: 0, nanos: 0 }
    }

    pub fn lt(&self, other: &Time) -> (r: bool)
        ensures
            r == self.is_before(*other),
    {
        self.secs < other.secs || (self.secs == other.secs && self.nanos < other.nanos)
    }
}

/// A date and a time of day, with no time zone.
#[derive(Clone, Copy, Debug, PartialEq, Eq, Structural)]
pub struct DateTime {
    pub date: Date,
    pub time: Time,
}

impl DateTime {
    pub open spec fn wf(self) -> bool {
        self.time.wf()
    }
}

/// The two-digit number at `i` of `s`.
pub open spec fn hms_field(s: Seq<char>, i: int) -> int {
    ((s[i] as int) - ('0' as int)) * 10 + (s[i + 1] as int) - ('0' as int)
}

/// `s` is `HH:MM:SS` in two-digit fields, a time within the day.
pub open spec fn plain_hms(s: Seq<char>) -> bool {
    &&& s.len() == 8 && s[2] == ':' && s[5] == ':'
    &&& forall|k: int| 0 <= k < 8 && k != 2 && k != 5 ==> '0' <= #[trigger] s[k] && s[k] <= '9'
    &&& hms_field(s, 0) < 24 && hms_field(s, 3) < 60 && hms_field(s, 6) < 60
}

/// The value that a time of day parsed from `s` has, as (seconds since
/// midnight, nanoseconds).
pub uninterp spec fn time_of_text(s: Seq<char>) -> Option<(u32, u32)>;

/// Relies on chrono's `NaiveTime` parser (`FromStr`): the time that `s`
/// spells, which always lies within the day.
#[verifier::external_body]
pub(crate) fn parse_time_of_day(s: &str) -> (r: Option<Time>)
    ensures
        match r {
            Some(t) => t.wf() && time_of_text(s@) == Some((t.secs, t.nanos)),
            None => time_of_text(s@).is_none(),
        },
        plain_hms(s@) ==> r == Some(
            Time { secs: (hms_field(s@, 0) * 3600 + hms_field(s@, 3) * 60 + hms_field(s@, 6)) as u32, nanos: 0 },
        ),
{
    match s.parse::<chrono::NaiveTime>() {
        Ok(t) => Some(Time {
            secs: chrono::Timelike::num_seconds_from_midnight(&t),
            nanos: chrono::Timelike::nanosecond(&t),
        }),
        Err(_) => None,
    }
}

/// `c` is the lower-case ASCII letter `l` in either case.
pub open spec fn same_letter(c: char, l: char) -> bool {
    c == l || (c as int) == (l as int) - 32
}

/// `s` spells `name` (lower-case ASCII), ignoring ASCII case.
pub open spec fn spells(s: Seq<char>, name: Seq<char>) -> bool {
    s.len() == name.len() && forall|k: int| 0 <= k < s.len() ==> same_letter(#[trigger] s[k], name[k])
}

/// One of the two English names of weekday `i`: its first three letters or
/// the whole word.
pub open spec fn names_weekday(s: Seq<char>, i: int) -> bool {
    let (short, long) = if i == 0 {
        ("mon"@, "monday"@)
    } else if i == 1 {
        ("tue"@, "tuesday"@)
    } else if i == 2 {
        ("wed"@, "wednesday"@)
    } else if i == 3 {
        ("thu"@, "thursday"@)
    } else if i == 4 {
        ("fri"@, "friday"@)
    } else if i == 5 {
        ("sat"@, "saturday"@)
    } else {
        ("sun"@, "sunday"@)
    };
    spells(s, short) || spells(s, long)
}

/// The weekday, counted from Monday, that the name `s` denotes.
pub open spec fn weekday_of_name(s: Seq<char>) -> Option<u8> {
    if names_weekday(s, 0) {
        Some(0)
    } else if names_weekday(s, 1) {
        Some(1)
    } else if names_weekday(s, 2) {
        Some(2)
    } else if names_weekday(s, 3) {
        Some(3)
    } else if names_weekday(s, 4) {
        Some(4)
    } else if names_weekday(s, 5) {
        Some(5)
    } else if names_weekday(s, 6) {
        Some(6)
    } else {
        None
    }
}

/// Relies on chrono's `Weekday` parser (`FromStr`), which takes the short or
/// long English weekday names in any ASCII case and nothing else.
#[verifier::external_body]
pub(crate) fn parse_weekday_name(s: &str) -> (r: Option<u8>)
    ensures
        r == weekday_of_name(s@),
        r.is_some() ==> r.unwrap() < 7,
{
    match s.parse::<chrono::Weekday>() {
        Ok(w) => Some(w.num_days_from_monday() as u8),
        Err(_) => None,
    }
}

} // verus!
