//! Instants, calendar fields and the textual forms of time.
//!
//! An instant is a count of seconds since 1970-01-01 00:00:00 UTC with a
//! nanosecond part. The calendar is the proleptic Gregorian one.

use chrono::{DateTime, Datelike, FixedOffset, Local, NaiveDateTime, SecondsFormat, Timelike, Utc};
use vstd::prelude::*;

use crate::text::{dec, digit, is_digit};

verus! {

/// First second that the calendar covers (-262143-01-01 00:00:00 UTC).
pub const MIN_SECS: i64 = -8_334_601_228_800;

/// Last second that the calendar covers (262142-12-31 23:59:59 UTC).
pub const MAX_SECS: i64 = 8_210_266_876_799;

/// An instant in UTC.
#[derive(Debug, Clone, Copy, PartialEq, Eq, Structural)]
pub struct Moment {
    /// Seconds since 1970-01-01 00:00:00 UTC.
    pub secs: i64,
    /// Nanoseconds past `secs`.
    pub nanos: u32,
}

impl Moment {
    /// The instant lies in the calendar's range.
    pub open spec fn wf(self) -> bool {
        &&& MIN_SECS <= self.secs <= MAX_SECS
        &&& self.nanos < 1_000_000_000
    }

    /// Whether the instant is one that the clock may show: not before 1970.
    pub open spec fn of_clock(self) -> bool {
        self.wf() && self.secs >= 0
    }

    /// Whether `self` is earlier than `other`.
    pub open spec fn earlier(self, other: Moment) -> bool {
        self.secs < other.secs || (self.secs == other.secs && self.nanos < other.nanos)
    }

    /// Whether `self` is earlier than `other`.
    pub fn before(&self, other: &Moment) -> (r: bool)
        ensures
            r == self.earlier(*other),
    {
        self.secs < other.secs || (self.secs == other.secs && self.nanos < other.nanos)
    }

    /// The instant a number of days later.
    pub open spec fn later(self, days: u32) -> Moment {
        Moment { secs: (self.secs + days * 86_400) as i64, nanos: self.nanos }
    }

    /// The instant a number of days later.
    pub fn plus_days(&self, days: u32) -> (r: Moment)
        requires
            self.wf(),
        ensures
            r == self.later(days),
            r.secs == self.secs + days * 86_400,
    {
        Moment { secs: self.secs + days as i64 * 86_400, nanos: self.nanos }
    }

    /// The instant a number of days earlier.
    pub fn minus_days(&self, days: u32) -> (r: Moment)
        requires
            self.wf(),
        ensures
            r.secs == self.secs - days * 86_400,
            r.nanos == self.nanos,
    {
        Moment { secs: self.secs - days as i64 * 86_400, nanos: self.nanos }
    }
}

/// A wall-clock reading: an instant together with the offset of local time
/// from UTC, in seconds east.
#[derive(Debug, Clone, Copy, PartialEq, Eq, Structural)]
pub struct WallTime {
    /// Seconds since 1970-01-01 00:00:00 UTC.
    pub secs: i64,
    /// Nanoseconds past `secs`; a leap second counts on from 1_000_000_000.
    pub nanos: u32,
    /// Seconds that local time is ahead of UTC.
    pub offset: i32,
}

impl WallTime {
    /// The instant and its local reading lie in the calendar's range.
    pub open spec fn wf(self) -> bool {
        &&& MIN_SECS <= self.secs <= MAX_SECS
        &&& MIN_SECS <= self.secs + self.offset <= MAX_SECS
        &&& -86_400 < self.offset < 86_400
        &&& (self.nanos < 1_000_000_000 || (self.nanos < 2_000_000_000 && self.secs % 60 == 59))
    }

    /// Whether the text of the reading can be read: rounded to minutes, the
    /// offset is below a day and the instant lies in the calendar's range.
    pub open spec fn readable(self) -> bool {
        -86_370 < self.offset < 86_370 && MIN_SECS + 30 <= self.secs <= MAX_SECS - 30
    }

    /// Whether the reading is one of a clock.
    pub fn is_valid(&self) -> (r: bool)
        ensures
            r == self.wf(),
    {
        if !(-86_400 < self.offset && self.offset < 86_400) {
            return false;
        }
        if !(MIN_SECS <= self.secs && self.secs <= MAX_SECS) {
            return false;
        }
        let local: i64 = self.secs + self.offset as i64;
        if !(MIN_SECS <= local && local <= MAX_SECS) {
            return false;
        }
        self.nanos < 1_000_000_000 || (self.nanos < 2_000_000_000 && (self.secs - MIN_SECS) as u64
            % 60 == 59)
    }
}

/// Whether `y` is a leap year.
pub open spec fn is_leap(y: int) -> bool {
    y % 4 == 0 && (y % 100 != 0 || y % 400 == 0)
}

/// Number of days in month `m` of year `y`.
pub open spec fn days_in_month(y: int, m: int) -> int {
    if m == 2 {
        if is_leap(y) {
            29
        } else {
            28
        }
    } else if m == 4 || m == 6 || m == 9 || m == 11 {
        30
    } else {
        31
    }
}

/// Number of days of year `y` before the first of month `m`.
pub open spec fn days_before_month(y: int, m: int) -> int
    decreases m,
{
    if m <= 1 {
        0
    } else {
        days_before_month(y, m - 1) + days_in_month(y, m - 1)
    }
}

/// Number of days from 0001-01-01 to the first day of year `y`.
pub open spec fn days_before_year(y: int) -> int {
    365 * (y - 1) + (y - 1) / 4 - (y - 1) / 100 + (y - 1) / 400
}

/// Whether the calendar has the day `y`-`m`-`d`.
pub open spec fn valid_date(y: int, m: int, d: int) -> bool {
    1 <= m <= 12 && 1 <= d <= days_in_month(y, m)
}

/// Number of days from 1970-01-01 to `y`-`m`-`d`.
pub open spec fn day_number(y: int, m: int, d: int) -> int {
    days_before_year(y) + days_before_month(y, m) + d - 1 - 719_162
}

/// The day number of the Thursday of the week (Monday to Sunday) of a day.
pub open spec fn thursday_of(day: int) -> int {
    day - (day + 3) % 7 + 3
}

/// Calendar fields of an instant in UTC.
#[derive(Debug, Clone, Copy, PartialEq, Eq, Structural)]
pub struct Calendar {
    pub year: i32,
    pub month: u32,
    pub day: u32,
    pub hour: u32,
    pub minute: u32,
    pub second: u32,
    /// Year that the ISO 8601 week belongs to.
    pub iso_year: i32,
    /// ISO 8601 week number.
    pub iso_week: u32,
}

/// Whether `c` holds the calendar fields of second `secs`.
///
/// An ISO week belongs to the year that holds its Thursday, and is numbered
/// by the Thursdays of that year.
pub open spec fn is_calendar(secs: int, c: Calendar) -> bool {
    let day = secs / 86_400;
    let thursday = thursday_of(day);
    let jan1 = day_number(c.iso_year as int, 1, 1);
    &&& valid_date(c.year as int, c.month as int, c.day as int)
    &&& day_number(c.year as int, c.month as int, c.day as int) == day
    &&& c.hour == secs % 86_400 / 3_600
    &&& c.minute == secs % 3_600 / 60
    &&& c.second == secs % 60
    &&& jan1 <= thursday < day_number(c.iso_year + 1, 1, 1)
    &&& c.iso_week == (thursday - jan1) / 7 + 1
}

/// The calendar fields of second `secs`.
pub open spec fn calendar_of(secs: int) -> Calendar {
    choose|c: Calendar| is_calendar(secs, c)
}

proof fn lemma_year_length(y: int)
    ensures
        days_before_year(y + 1) == days_before_year(y) + 365 + if is_leap(y) {
            1int
        } else {
            0
        },
{
}

proof fn lemma_months(y: int)
    ensures
        days_before_month(y, 1) == 0,
        days_before_month(y, 2) == 31,
        days_before_month(y, 3) == 31 + days_in_month(y, 2),
        days_before_month(y, 4) == 62 + days_in_month(y, 2),
        days_before_month(y, 5) == 92 + days_in_month(y, 2),
        days_before_month(y, 6) == 123 + days_in_month(y, 2),
        days_before_month(y, 7) == 153 + days_in_month(y, 2),
        days_before_month(y, 8) == 184 + days_in_month(y, 2),
        days_before_month(y, 9) == 215 + days_in_month(y, 2),
        days_before_month(y, 10) == 245 + days_in_month(y, 2),
        days_before_month(y, 11) == 276 + days_in_month(y, 2),
        days_before_month(y, 12) == 306 + days_in_month(y, 2),
{
    reveal_with_fuel(days_before_month, 13);
}

proof fn lemma_years_increase(a: int, b: int)
    requires
        a <= b,
    ensures
        days_before_year(a) <= days_before_year(b),
    decreases b - a,
{
    if a < b {
        lemma_years_increase(a, b - 1);
        lemma_year_length(b - 1);
    }
}

/// A day lies in exactly one year.
proof fn lemma_year_unique(a: int, b: int, n: int)
    requires
        days_before_year(a) <= n < days_before_year(a + 1),
        days_before_year(b) <= n < days_before_year(b + 1),
    ensures
        a == b,
{
    if a < b {
        lemma_years_increase(a + 1, b);
    } else if b < a {
        lemma_years_increase(b + 1, a);
    }
}

proof fn lemma_day_in_year(y: int, m: int, d: int)
    requires
        valid_date(y, m, d),
    ensures
        days_before_year(y) <= day_number(y, m, d) + 719_162 < days_before_year(y + 1),
{
    lemma_year_length(y);
    lemma_months(y);
}

/// A day since 1970 lies in a year since 1970.
pub proof fn lemma_year_from_day(y: int, m: int, d: int)
    requires
        valid_date(y, m, d),
        day_number(y, m, d) >= 0,
    ensures
        y >= 1970,
{
    lemma_day_in_year(y, m, d);
    if y < 1970 {
        lemma_years_increase(y + 1, 1970);
    }
}

/// Two dates with the same day number are the same date.
pub proof fn lemma_date_unique(y1: int, m1: int, d1: int, y2: int, m2: int, d2: int)
    requires
        valid_date(y1, m1, d1),
        valid_date(y2, m2, d2),
        day_number(y1, m1, d1) == day_number(y2, m2, d2),
    ensures
        y1 == y2,
        m1 == m2,
        d1 == d2,
{
    lemma_day_in_year(y1, m1, d1);
    lemma_day_in_year(y2, m2, d2);
    lemma_year_unique(y1, y2, day_number(y1, m1, d1) + 719_162);
    lemma_months(y1);
}

/// The days of years up to 9999 are few enough for their seconds to fit.
pub proof fn lemma_day_bounds(y: int, m: int, d: int)
    requires
        valid_date(y, m, d),
        0 <= y <= 9_999,
    ensures
        -800_000 <= day_number(y, m, d) <= 4_000_000,
{
    lemma_months(y);
}

/// A later date has a larger day number.
pub proof fn lemma_date_order(y1: int, m1: int, d1: int, y2: int, m2: int, d2: int)
    requires
        valid_date(y1, m1, d1),
        valid_date(y2, m2, d2),
        y1 < y2 || (y1 == y2 && (m1 < m2 || (m1 == m2 && d1 < d2))),
    ensures
        day_number(y1, m1, d1) < day_number(y2, m2, d2),
{
    lemma_day_in_year(y1, m1, d1);
    lemma_day_in_year(y2, m2, d2);
    lemma_months(y1);
    if y1 < y2 {
        lemma_years_increase(y1 + 1, y2);
    }
}

/// A second has only one set of calendar fields.
pub proof fn lemma_calendar_unique(secs: int, c: Calendar)
    requires
        is_calendar(secs, c),
    ensures
        c == calendar_of(secs),
{
    let k = calendar_of(secs);
    assert(is_calendar(secs, k));
    lemma_date_unique(
        c.year as int,
        c.month as int,
        c.day as int,
        k.year as int,
        k.month as int,
        k.day as int,
    );
    lemma_months(c.iso_year as int);
    lemma_months(k.iso_year as int);
    lemma_months(c.iso_year + 1);
    lemma_months(k.iso_year + 1);
    lemma_year_unique(
        c.iso_year as int,
        k.iso_year as int,
        thursday_of(secs / 86_400) + 719_162,
    );
}

proof fn lemma_year_of_day(n: int) -> (y: int)
    ensures
        days_before_year(y) <= n < days_before_year(y + 1),
    decreases if n >= 0 {
        n
    } else {
        -n
    },
{
    if n == 0 {
        1
    } else if n > 0 {
        let y = lemma_year_of_day(n - 1);
        lemma_year_length(y + 1);
        if n < days_before_year(y + 1) {
            y
        } else {
            y + 1
        }
    } else {
        let y = lemma_year_of_day(n + 1);
        lemma_year_length(y - 1);
        if days_before_year(y) <= n {
            y
        } else {
            y - 1
        }
    }
}

proof fn lemma_month_of_day(y: int, r: int) -> (md: (int, int))
    requires
        0 <= r < days_before_year(y + 1) - days_before_year(y),
    ensures
        valid_date(y, md.0, md.1),
        days_before_month(y, md.0) + md.1 - 1 == r,
{
    lemma_year_length(y);
    lemma_months(y);
    let f = days_in_month(y, 2);
    if r < 31 {
        (1, r + 1)
    } else if r < 31 + f {
        (2, r - 30)
    } else if r < 62 + f {
        (3, r - 30 - f)
    } else if r < 92 + f {
        (4, r - 61 - f)
    } else if r < 123 + f {
        (5, r - 91 - f)
    } else if r < 153 + f {
        (6, r - 122 - f)
    } else if r < 184 + f {
        (7, r - 152 - f)
    } else if r < 215 + f {
        (8, r - 183 - f)
    } else if r < 245 + f {
        (9, r - 214 - f)
    } else if r < 276 + f {
        (10, r - 244 - f)
    } else if r < 306 + f {
        (11, r - 275 - f)
    } else {
        (12, r - 305 - f)
    }
}

/// Every second in the calendar's range has calendar fields.
pub proof fn lemma_calendar_exists(secs: int)
    requires
        MIN_SECS <= secs <= MAX_SECS,
    ensures
        is_calendar(secs, calendar_of(secs)),
{
    let day = secs / 86_400;
    let y = lemma_year_of_day(day + 719_162);
    let (m, d) = lemma_month_of_day(y, day + 719_162 - days_before_year(y));
    let thursday = thursday_of(day);
    let z = lemma_year_of_day(thursday + 719_162);
    lemma_months(z);
    lemma_months(z + 1);
    lemma_year_length(z);
    lemma_time_of_day(secs);
    assert(-300_000 <= y <= 300_000);
    assert(-300_000 <= z <= 300_000);
    let jan1 = day_number(z, 1, 1);
    let c = Calendar {
        year: y as i32,
        month: m as u32,
        day: d as u32,
        hour: (secs % 86_400 / 3_600) as u32,
        minute: (secs % 3_600 / 60) as u32,
        second: (secs % 60) as u32,
        iso_year: z as i32,
        iso_week: ((thursday - jan1) / 7 + 1) as u32,
    };
    assert(is_calendar(secs, c));
}

/// Two seconds have the same ISO year and week exactly if they lie in the same
/// week from Monday on.
pub proof fn lemma_calendar_weeks(s: int, t: int, c: Calendar, d: Calendar)
    requires
        is_calendar(s, c),
        is_calendar(t, d),
    ensures
        c.iso_year == d.iso_year && c.iso_week == d.iso_week <==> (s / 86_400 + 3) / 7 == (t
            / 86_400 + 3) / 7,
{
    let (x, y) = (thursday_of(s / 86_400), thursday_of(t / 86_400));
    assert(x == (s / 86_400 + 3) / 7 * 7);
    assert(y == (t / 86_400 + 3) / 7 * 7);
    lemma_months(c.iso_year as int);
    lemma_months(d.iso_year as int);
    lemma_months(c.iso_year + 1);
    lemma_months(d.iso_year + 1);
    if x == y {
        lemma_year_unique(c.iso_year as int, d.iso_year as int, x + 719_162);
    }
}

/// Calls `chrono::DateTime::from_timestamp` and reads the date, the time of
/// day and the ISO week of the result: the fields are those of the proleptic
/// Gregorian calendar in UTC.
#[verifier::external_body]
fn chrono_calendar(secs: i64) -> (c: Calendar)
    requires
        MIN_SECS <= secs <= MAX_SECS,
    ensures
        is_calendar(secs as int, c),
{
    let t = DateTime::from_timestamp(secs, 0).unwrap();
    let w = t.iso_week();
    Calendar {
        year: t.year(),
        month: t.month(),
        day: t.day(),
        hour: t.hour(),
        minute: t.minute(),
        second: t.second(),
        iso_year: w.year(),
        iso_week: w.week(),
    }
}

/// The calendar fields of second `secs`.
pub fn calendar(secs: i64) -> (c: Calendar)
    requires
        MIN_SECS <= secs <= MAX_SECS,
    ensures
        c == calendar_of(secs as int),
        is_calendar(secs as int, c),
{
    let c = chrono_calendar(secs);
    proof {
        lemma_calendar_unique(secs as int, c);
    }
    c
}

/// Calls `chrono::Utc::now`. Of the clock's reading only the range is known:
/// it is not before 1970 and has no leap second.
#[verifier::external_body]
pub(crate) fn utc_now() -> (m: Moment)
    ensures
        m.of_clock(),
{
    let t = Utc::now();
    Moment { secs: t.timestamp(), nanos: t.timestamp_subsec_nanos() }
}

/// Calls `chrono::Local::now`. Of the clock's reading only the range is known.
#[verifier::external_body]
pub(crate) fn local_now() -> (w: WallTime)
    ensures
        w.wf(),
{
    let t = Local::now().fixed_offset();
    WallTime {
        secs: t.timestamp(),
        nanos: t.timestamp_subsec_nanos(),
        offset: t.offset().local_minus_utc(),
    }
}

/// The two-digit form of `n`.
pub open spec fn two(n: int) -> Seq<char> {
    seq![digit(n / 10), digit(n % 10)]
}

/// The three-digit form of `n`.
pub open spec fn three(n: int) -> Seq<char> {
    seq![digit(n / 100), digit(n / 10 % 10), digit(n % 10)]
}

/// The form of a year: four digits, or a sign and all digits beyond 9999.
pub open spec fn year_text(y: int) -> Seq<char> {
    if y < 10_000 {
        two(y / 100) + two(y % 100)
    } else {
        seq!['+'] + dec(y as nat)
    }
}

/// `YYYYMMDD-HHMMSS` for calendar fields.
pub open spec fn stamp_text(c: Calendar) -> Seq<char> {
    year_text(c.year as int) + two(c.month as int) + two(c.day as int) + seq!['-'] + two(
        c.hour as int,
    ) + two(c.minute as int) + two(c.second as int)
}

/// Calls `chrono::DateTime::format` with `%Y%m%d-%H%M%S-%3f`: calendar fields
/// in fixed-width decimal, then the milliseconds.
#[verifier::external_body]
pub(crate) fn format_stamp(secs: i64, nanos: u32) -> (s: String)
    requires
        0 <= secs <= MAX_SECS,
        nanos < 1_000_000_000,
    ensures
        s@ == stamp_text(calendar_of(secs as int)) + seq!['-'] + three(nanos as int / 1_000_000),
{
    DateTime::from_timestamp(secs, nanos).unwrap().format("%Y%m%d-%H%M%S-%3f").to_string()
}

/// The value of a decimal digit.
pub open spec fn digit_value(c: char) -> int {
    c as u32 - '0' as u32
}

/// The value of the two digits at `i`.
pub open spec fn pair_value(s: Seq<char>, i: int) -> int {
    digit_value(s[i]) * 10 + digit_value(s[i + 1])
}

/// Whether `s` has the shape `DDDDDDDD-DDDDDD` of digits.
pub open spec fn is_digit_stamp(s: Seq<char>) -> bool {
    &&& s.len() == 15
    &&& s[8] == '-'
    &&& forall|i: int| 0 <= i < 15 && i != 8 ==> is_digit(#[trigger] s[i])
}

/// The second that a digit stamp `YYYYMMDD-HHMMSS` denotes, if it denotes a
/// time of the calendar. Second 60 is taken for second 59.
pub open spec fn digit_stamp_secs(s: Seq<char>) -> Option<int> {
    let y = pair_value(s, 0) * 100 + pair_value(s, 2);
    let (m, d) = (pair_value(s, 4), pair_value(s, 6));
    let (h, mi, sec) = (pair_value(s, 9), pair_value(s, 11), pair_value(s, 13));
    if valid_date(y, m, d) && h < 24 && mi < 60 && sec <= 60 {
        Some(
            day_number(y, m, d) * 86_400 + h * 3_600 + mi * 60 + if sec == 60 {
                59
            } else {
                sec
            },
        )
    } else {
        None
    }
}

/// Whether `s` may be a stamp at all: it holds digits, signs and white space,
/// no more than two dashes, which are the separator and the year's sign, and
/// ends in a digit.
#[verifier::opaque]
pub open spec fn is_stamp_like(s: Seq<char>) -> bool {
    &&& s.len() > 0
    &&& is_digit(s.last())
    &&& forall|i: int|
        0 <= i < s.len() ==> is_digit(#[trigger] s[i]) || s[i] == '-' || s[i] == '+' || s[i] <= ' '
            || s[i] > '~'
    &&& forall|i: int, j: int, k: int|
        0 <= i < j < k < s.len() ==> !(#[trigger] s[i] == '-' && #[trigger] s[j] == '-'
            && #[trigger] s[k] == '-')
}

/// What `chrono::NaiveDateTime::parse_from_str` makes of a text that may be a
/// stamp but is no digit stamp under the format `%Y%m%d-%H%M%S` (it skips
/// white space and takes signed years): the second it denotes in UTC, or
/// nothing.
pub uninterp spec fn irregular_stamp_secs(s: Seq<char>) -> Option<int>;

/// The second that the text of a stamp denotes, if any.
pub open spec fn stamp_secs(s: Seq<char>) -> Option<int> {
    if is_digit_stamp(s) {
        digit_stamp_secs(s)
    } else if is_stamp_like(s) {
        irregular_stamp_secs(s)
    } else {
        None
    }
}

/// An optional machine integer as a mathematical one.
pub open spec fn opt_int(o: Option<i64>) -> Option<int> {
    match o {
        Some(t) => Some(t as int),
        None => None,
    }
}

/// Calls `chrono::NaiveDateTime::parse_from_str` with `%Y%m%d-%H%M%S`.
///
/// Of a text of digits in that shape it is stated which second comes out. Of
/// other texts, one with other characters than digits, signs and white space,
/// with three dashes or with no digit at its end is refused; of the rest the
/// outcome depends on the text alone and lies in the calendar's range.
#[verifier::external_body]
pub(crate) fn parse_stamp(s: &str) -> (r: Option<i64>)
    ensures
        is_digit_stamp(s@) ==> opt_int(r) == digit_stamp_secs(s@),
        !is_digit_stamp(s@) && is_stamp_like(s@) ==> opt_int(r) == irregular_stamp_secs(s@),
        !is_digit_stamp(s@) && !is_stamp_like(s@) ==> r is None,
        r matches Some(t) ==> MIN_SECS <= t <= MAX_SECS,
{
    NaiveDateTime::parse_from_str(s, "%Y%m%d-%H%M%S").ok().map(|t| t.and_utc().timestamp())
}

proof fn lemma_two(n: int)
    requires
        0 <= n < 100,
    ensures
        is_digit(two(n)[0]),
        is_digit(two(n)[1]),
        digit_value(two(n)[0]) == n / 10,
        digit_value(two(n)[1]) == n % 10,
{
}

proof fn lemma_stamp_layout(
    s: Seq<char>,
    a: Seq<char>,
    b: Seq<char>,
    c: Seq<char>,
    d: Seq<char>,
    e: Seq<char>,
    f: Seq<char>,
    g: Seq<char>,
)
    requires
        a.len() == 2,
        b.len() == 2,
        c.len() == 2,
        d.len() == 2,
        e.len() == 2,
        f.len() == 2,
        g.len() == 2,
        s == a + b + c + d + seq!['-'] + e + f + g,
    ensures
        s.len() == 15,
        s[8] == '-',
        s[0] == a[0] && s[1] == a[1],
        s[2] == b[0] && s[3] == b[1],
        s[4] == c[0] && s[5] == c[1],
        s[6] == d[0] && s[7] == d[1],
        s[9] == e[0] && s[10] == e[1],
        s[11] == f[0] && s[12] == f[1],
        s[13] == g[0] && s[14] == g[1],
{
}

proof fn lemma_time_of_day(secs: int)
    ensures
        secs == secs / 86_400 * 86_400 + secs % 86_400 / 3_600 * 3_600 + secs % 3_600 / 60 * 60
            + secs % 60,
        0 <= secs % 86_400 / 3_600 < 24,
        0 <= secs % 3_600 / 60 < 60,
{
    let q = secs / 86_400;
    let r = secs % 86_400;
    let t = secs % 3_600;
    let k = secs / 3_600;
    assert(secs == 3_600 * (24 * q) + r);
    vstd::arithmetic::div_mod::lemma_mod_multiples_vanish(24 * q, r, 3_600);
    assert(secs == 60 * (60 * k) + t);
    vstd::arithmetic::div_mod::lemma_mod_multiples_vanish(60 * k, t, 60);
}

proof fn lemma_calendar_parts(secs: int, c: Calendar)
    requires
        is_calendar(secs, c),
    ensures
        valid_date(c.year as int, c.month as int, c.day as int),
        1 <= c.day <= 31,
        c.hour < 24,
        c.minute < 60,
        c.second < 60,
        secs == day_number(c.year as int, c.month as int, c.day as int) * 86_400 + c.hour * 3_600
            + c.minute * 60 + c.second,
{
    lemma_time_of_day(secs);
}

proof fn lemma_stamp_values(
    s: Seq<char>,
    y: int,
    m: int,
    d: int,
    h: int,
    mi: int,
    sec: int,
)
    requires
        pair_value(s, 0) * 100 + pair_value(s, 2) == y,
        pair_value(s, 4) == m,
        pair_value(s, 6) == d,
        pair_value(s, 9) == h,
        pair_value(s, 11) == mi,
        pair_value(s, 13) == sec,
        valid_date(y, m, d),
        0 <= h < 24,
        0 <= mi < 60,
        0 <= sec < 60,
    ensures
        digit_stamp_secs(s) == Some(day_number(y, m, d) * 86_400 + h * 3_600 + mi * 60 + sec),
{
}

/// The stamp of a second up to the year 9999 is a digit stamp that denotes
/// that second.
pub proof fn lemma_stamp_round_trip(secs: int, c: Calendar)
    requires
        is_calendar(secs, c),
        0 <= c.year <= 9_999,
    ensures
        stamp_text(c).len() == 15,
        is_digit_stamp(stamp_text(c)),
        stamp_secs(stamp_text(c)) == Some(secs),
{
    let s = stamp_text(c);
    let y = c.year as int;
    let (m, d) = (c.month as int, c.day as int);
    let (h, mi, sec) = (c.hour as int, c.minute as int, c.second as int);
    lemma_calendar_parts(secs, c);
    lemma_stamp_digits(s, y, m, d, h, mi, sec);
    lemma_stamp_values(s, y, m, d, h, mi, sec);
}

proof fn lemma_stamp_digits(
    s: Seq<char>,
    y: int,
    m: int,
    d: int,
    h: int,
    mi: int,
    sec: int,
)
    requires
        0 <= y <= 9_999,
        0 <= m < 100,
        0 <= d < 100,
        0 <= h < 100,
        0 <= mi < 100,
        0 <= sec < 100,
        s == two(y / 100) + two(y % 100) + two(m) + two(d) + seq!['-'] + two(h) + two(mi) + two(
            sec,
        ),
    ensures
        s.len() == 15,
        is_digit_stamp(s),
        pair_value(s, 0) * 100 + pair_value(s, 2) == y,
        pair_value(s, 4) == m,
        pair_value(s, 6) == d,
        pair_value(s, 9) == h,
        pair_value(s, 11) == mi,
        pair_value(s, 13) == sec,
{
    lemma_two(y / 100);
    lemma_two(y % 100);
    lemma_two(m);
    lemma_two(d);
    lemma_two(h);
    lemma_two(mi);
    lemma_two(sec);
    lemma_stamp_layout(
        s,
        two(y / 100),
        two(y % 100),
        two(m),
        two(d),
        two(h),
        two(mi),
        two(sec),
    );
    assert(is_digit_stamp(s));
    assert(pair_value(s, 0) == y / 100);
    assert(pair_value(s, 2) == y % 100);
}

/// Of two digit stamps with seconds up to 59, the one that is smaller where
/// they first differ denotes the earlier second.
pub proof fn lemma_stamp_order(a: Seq<char>, b: Seq<char>, k: int)
    requires
        is_digit_stamp(a),
        is_digit_stamp(b),
        digit_stamp_secs(a) is Some,
        digit_stamp_secs(b) is Some,
        pair_value(a, 13) <= 59,
        pair_value(b, 13) <= 59,
        0 <= k < 15,
        forall|i: int| 0 <= i < k ==> a[i] == b[i],
        (a[k] as u32) < (b[k] as u32),
    ensures
        digit_stamp_secs(a)->0 < digit_stamp_secs(b)->0,
{
    let (y1, y2) = (
        pair_value(a, 0) * 100 + pair_value(a, 2),
        pair_value(b, 0) * 100 + pair_value(b, 2),
    );
    let (m1, m2) = (pair_value(a, 4), pair_value(b, 4));
    let (d1, d2) = (pair_value(a, 6), pair_value(b, 6));
    assert(k != 8);
    assert(forall|i: int| 0 <= i < 15 && i != 8 ==> 0 <= digit_value(#[trigger] a[i]) <= 9);
    assert(forall|i: int| 0 <= i < 15 && i != 8 ==> 0 <= digit_value(#[trigger] b[i]) <= 9);
    assert(digit_value(a[k]) < digit_value(b[k]));
    assert(digit_value(a[0]) >= 0 && digit_value(b[0]) >= 0);
    assert(digit_value(a[1]) >= 0 && digit_value(b[1]) >= 0);
    assert(digit_value(a[2]) >= 0 && digit_value(b[2]) >= 0);
    assert(digit_value(a[3]) >= 0 && digit_value(b[3]) >= 0);
    assert(digit_value(a[4]) >= 0 && digit_value(b[4]) >= 0);
    assert(digit_value(a[5]) >= 0 && digit_value(b[5]) >= 0);
    assert(digit_value(a[6]) >= 0 && digit_value(b[6]) >= 0);
    assert(digit_value(a[7]) >= 0 && digit_value(b[7]) >= 0);
    assert(digit_value(a[9]) >= 0 && digit_value(b[9]) >= 0);
    assert(digit_value(a[10]) >= 0 && digit_value(b[10]) >= 0);
    assert(digit_value(a[11]) >= 0 && digit_value(b[11]) >= 0);
    assert(digit_value(a[12]) >= 0 && digit_value(b[12]) >= 0);
    assert(digit_value(a[13]) >= 0 && digit_value(b[13]) >= 0);
    assert(digit_value(a[14]) >= 0 && digit_value(b[14]) >= 0);
    if k < 8 {
        lemma_date_order(y1, m1, d1, y2, m2, d2);
    }
}

/// What `chrono` reads from a text as a date and time with offset.
pub uninterp spec fn wall_time_of(s: Seq<char>) -> Option<WallTime>;

/// Calls the `FromStr` of `chrono::DateTime<FixedOffset>`. The outcome is
/// named; it lies in the calendar's range and its offset is in whole minutes.
#[verifier::external_body]
pub(crate) fn parse_wall_time(s: &str) -> (r: Option<WallTime>)
    ensures
        r == wall_time_of(s@),
        r matches Some(w) ==> w.wf() && w.offset % 60 == 0,
{
    s.parse::<DateTime<FixedOffset>>().ok().map(|t| WallTime {
        secs: t.timestamp(),
        nanos: t.timestamp_subsec_nanos(),
        offset: t.offset().local_minus_utc(),
    })
}

/// Whether a character can stand in an RFC 3339 text.
pub open spec fn is_time_char(c: char) -> bool {
    ('0' <= c && c <= '9') || c == '+' || c == '-' || c == ':' || c == '.' || c == 'T' || c == 'Z'
}

/// The RFC 3339 text of a wall-clock reading; `zulu` writes a zero offset as
/// `Z`.
pub uninterp spec fn rfc3339(w: WallTime, zulu: bool) -> Seq<char>;

/// Calls `chrono::DateTime::to_rfc3339_opts`. The text is named; reading it
/// back gives the same reading where the offset is in whole minutes, which is
/// as fine as the text gives it. Another offset is rounded to the next minute,
/// and the text can be read unless that is a whole day or the instant leaves
/// the calendar. The text is made of digits, signs, `:`, `.`, `T` and `Z`.
#[verifier::external_body]
pub(crate) fn format_wall_time(w: &WallTime, zulu: bool) -> (s: String)
    requires
        w.wf(),
    ensures
        s@ == rfc3339(*w, zulu),
        w.offset % 60 == 0 ==> wall_time_of(s@) == Some(*w),
        w.readable() ==> wall_time_of(s@) is Some,
        forall|i: int| 0 <= i < s@.len() ==> is_time_char(#[trigger] s@[i]),
{
    let zone = FixedOffset::east_opt(w.offset).unwrap();
    let t = DateTime::from_timestamp(w.secs, w.nanos).unwrap().with_timezone(&zone);
    t.to_rfc3339_opts(SecondsFormat::AutoSi, zulu)
}

} // verus!
