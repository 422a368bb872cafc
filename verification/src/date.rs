//! Calendar dates of the proleptic Gregorian calendar.
use chrono::{Datelike, LocalResult, NaiveDate, TimeZone, Timelike};
use chrono_tz::America::New_York;
use vstd::arithmetic::div_mod::{lemma_fundamental_div_mod, lemma_fundamental_div_mod_converse};
use vstd::prelude::*;
use crate::error::{outcome, Error};
use crate::order::{Duplicate, Rank};
use crate::text::{decimal, decimal_text, padded, padded_text};

verus! {

/// The first representable day: 1 January of the year -262143.
pub const FIRST_DAY: i32 = -95746129;

/// The last representable day: 31 December of the year 262142.
pub const LAST_DAY: i32 = 95745399;

/// The day of the epoch of Unix time, 1 January 1970.
pub const EPOCH_DAY: i32 = 719163;

/// The first second of the first representable day, counted from the epoch.
const FIRST_SECOND: i64 = -8334601228800;

/// The last second of the last representable day, counted from the epoch.
const LAST_SECOND: i64 = 8210266876799;

/// A date, held as its day number; day 1 is 1 January of the year 1.
#[derive(Clone, Copy, Debug, PartialEq, Eq, PartialOrd, Ord, Hash, Structural)]
pub struct Date {
    days: i32,
}

/// Whether `year` has 366 days.
pub open spec fn leap_year(year: int) -> bool {
    year % 4 == 0 && (year % 100 != 0 || year % 400 == 0)
}

/// The number of days in a month of a year.
pub open spec fn month_days(year: int, month: int) -> int {
    if month == 2 {
        if leap_year(year) {
            29
        } else {
            28
        }
    } else if month == 4 || month == 6 || month == 9 || month == 11 {
        30
    } else {
        31
    }
}

/// The number of days of `year` before the first of `month`.
pub open spec fn days_before_month(year: int, month: int) -> int
    decreases month,
{
    if month <= 1 {
        0
    } else {
        days_before_month(year, month - 1) + month_days(year, month - 1)
    }
}

/// The day number of a year, month and day of the month.
pub open spec fn day_number(year: int, month: int, day: int) -> int {
    let past = year - 1;
    365 * past + past / 4 - past / 100 + past / 400 + days_before_month(year, month) + day
}

/// Whether a year, month and day of the month name a representable date.
pub open spec fn civil(year: int, month: int, day: int) -> bool {
    &&& -262143 <= year <= 262142
    &&& 1 <= month <= 12
    &&& 1 <= day <= month_days(year, month)
}

/// The weekday of a day number, Monday being 0.
pub open spec fn weekday_of(number: int) -> int {
    (number - 1) % 7
}

/// `chrono::NaiveDate::from_ymd_opt` and `num_days_from_ce`: the day number of a
/// representable date, `None` for anything else.
#[verifier::external_body]
fn civil_to_days(year: i32, month: u32, day: u32) -> (r: Option<i32>)
    ensures
        r == (if civil(year as int, month as int, day as int) {
            Some(day_number(year as int, month as int, day as int) as i32)
        } else {
            None
        }),
        r is Some ==> FIRST_DAY <= r->0 <= LAST_DAY && r->0 == day_number(
            year as int,
            month as int,
            day as int,
        ),
{
    NaiveDate::from_ymd_opt(year, month, day).map(|date| date.num_days_from_ce())
}

/// `chrono::NaiveDate::from_num_days_from_ce_opt`: the year, month and day of the
/// month that a day number stands for.
#[verifier::external_body]
fn days_to_civil(days: i32) -> (r: (i32, u32, u32))
    requires
        FIRST_DAY <= days <= LAST_DAY,
    ensures
        civil(r.0 as int, r.1 as int, r.2 as int),
        day_number(r.0 as int, r.1 as int, r.2 as int) == days,
{
    let date = NaiveDate::from_num_days_from_ce_opt(days).unwrap();
    (date.year(), date.month(), date.day())
}

/// The day number that chrono reads from a text in the format `%Y-%m-%d`, or its complaint.
pub uninterp spec fn chrono_ymd(text: Seq<char>) -> Result<i32, Seq<char>>;

/// `chrono::NaiveDate::parse_from_str` with the format `%Y-%m-%d`, as a day number; the complaint
/// is the error's display text.
#[verifier::external_body]
fn parse_days(text: &str) -> (r: Result<i32, String>)
    ensures
        match r {
            Ok(days) => chrono_ymd(text@) == Ok::<i32, Seq<char>>(days) && FIRST_DAY <= days
                <= LAST_DAY,
            Err(complaint) => chrono_ymd(text@) == Err::<i32, Seq<char>>(complaint@),
        },
{
    match NaiveDate::parse_from_str(text, "%Y-%m-%d") {
        Ok(date) => Ok(date.num_days_from_ce()),
        Err(error) => Err(error.to_string()),
    }
}

/// The day number that chrono reads from a text in its default date format, or its complaint.
pub uninterp spec fn chrono_date(text: Seq<char>) -> Result<i32, Seq<char>>;

/// `<chrono::NaiveDate as FromStr>::from_str`, as a day number; the complaint is the error's
/// display text.
#[verifier::external_body]
fn parse_default_days(text: &str) -> (r: Result<i32, String>)
    ensures
        match r {
            Ok(days) => chrono_date(text@) == Ok::<i32, Seq<char>>(days) && FIRST_DAY <= days
                <= LAST_DAY,
            Err(complaint) => chrono_date(text@) == Err::<i32, Seq<char>>(complaint@),
        },
{
    match text.parse::<NaiveDate>() {
        Ok(date) => Ok(date.num_days_from_ce()),
        Err(error) => Err(error.to_string()),
    }
}

/// The seconds since the epoch and the nanoseconds within the second that chrono reads from a
/// text in the form of RFC 3339, or its complaint.
pub uninterp spec fn rfc3339_instant(text: Seq<char>) -> Result<(i64, u32), Seq<char>>;

/// Whether seconds since the epoch and nanoseconds within the second are a representable instant;
/// the last second of a minute may be a leap second, of two billion nanoseconds.
pub open spec fn instant(seconds: int, nanos: int) -> bool {
    &&& FIRST_DAY <= seconds / 86_400 + EPOCH_DAY <= LAST_DAY
    &&& 0 <= nanos < 2_000_000_000
    &&& nanos >= 1_000_000_000 ==> seconds % 60 == 59
}

/// `chrono::DateTime::parse_from_rfc3339`, as a Unix time; the complaint is the error's display
/// text.
#[verifier::external_body]
fn read_instant(text: &str) -> (r: Result<(i64, u32), String>)
    ensures
        match r {
            Ok(time) => rfc3339_instant(text@) == Ok::<(i64, u32), Seq<char>>(time) && instant(
                time.0 as int,
                time.1 as int,
            ),
            Err(complaint) => rfc3339_instant(text@) == Err::<(i64, u32), Seq<char>>(complaint@),
        },
{
    match chrono::DateTime::parse_from_rfc3339(text) {
        Ok(time) => Ok((time.timestamp(), time.timestamp_subsec_nanos())),
        Err(error) => Err(error.to_string()),
    }
}

/// The nanoseconds from one instant to another. A leap second at the earlier time of the day is
/// over by the later one.
pub open spec fn elapsed(from: (i64, u32), now: (i64, u32)) -> int {
    let earlier = from.0 % 86_400;
    let later = now.0 % 86_400;
    let leap = if later > earlier && from.1 >= 1_000_000_000 {
        1int
    } else if later < earlier && now.1 >= 1_000_000_000 {
        -1
    } else {
        0
    };
    (now.0 - from.0 + leap) * 1_000_000_000 + now.1 - from.1
}

/// A quotient rounded towards zero.
pub open spec fn truncated(n: int, unit: int) -> int {
    if n >= 0 {
        n / unit
    } else {
        -((-n) / unit)
    }
}

/// `chrono::DateTime::signed_duration_since`, in whole days and in whole hours, each rounded
/// towards zero.
#[verifier::external_body]
fn days_and_hours(from: (i64, u32), now: (i64, u32)) -> (r: (i64, i64))
    requires
        instant(from.0 as int, from.1 as int),
        instant(now.0 as int, now.1 as int),
    ensures
        r.0 == truncated(elapsed(from, now), 86_400_000_000_000),
        r.1 == truncated(elapsed(from, now), 3_600_000_000_000),
{
    let from = chrono::DateTime::from_timestamp(from.0, from.1).unwrap();
    let now = chrono::DateTime::from_timestamp(now.0, now.1).unwrap();
    let duration = now.signed_duration_since(from);
    (duration.num_days(), duration.num_hours())
}

/// An instant, held as its Unix time.
#[derive(Clone, Copy, Debug, PartialEq, Eq, Structural)]
pub struct Instant {
    seconds: i64,
    nanos: u32,
}

impl DeepView for Instant {
    type V = (i64, u32);

    closed spec fn deep_view(&self) -> (i64, u32) {
        (self.seconds, self.nanos)
    }
}

impl Instant {
    #[verifier::type_invariant]
    spec fn representable(self) -> bool {
        instant(self.seconds as int, self.nanos as int)
    }

    /// The instant of seconds since the epoch and nanoseconds within the second.
    pub fn from_unix(seconds: i64, nanos: u32) -> (r: Option<Instant>)
        ensures
            r is Some <==> instant(seconds as int, nanos as int),
            r is Some ==> r->0.deep_view() == (seconds, nanos),
    {
        if seconds < FIRST_SECOND || seconds > LAST_SECOND || nanos >= 2_000_000_000 {
            return None;
        }
        let second: u64 = (seconds - FIRST_SECOND) as u64;
        if nanos >= 1_000_000_000 && second % 60 != 59 {
            return None;
        }
        Some(Instant { seconds, nanos })
    }

    /// The instant that a text in the form of RFC 3339 stands for.
    pub fn parse(text: &str) -> (r: Result<Instant, Error>)
        ensures
            outcome(r) == rfc3339_instant(text@),
    {
        match read_instant(text) {
            Ok((seconds, nanos)) => Ok(Instant { seconds, nanos }),
            Err(message) => Err(Error { message }),
        }
    }

    /// How long ago this is at a time: in whole days and in whole hours.
    pub fn age(&self, now: &Instant) -> (r: (i64, i64))
        ensures
            r.0 == truncated(elapsed(self.deep_view(), now.deep_view()), 86_400_000_000_000),
            r.1 == truncated(elapsed(self.deep_view(), now.deep_view()), 3_600_000_000_000),
    {
        proof {
            use_type_invariant(self);
            use_type_invariant(now);
        }
        days_and_hours((self.seconds, self.nanos), (now.seconds, now.nanos))
    }
}

/// The day number of a date in the form `YYYY-MM-DD`.
pub open spec fn read_date(text: Seq<char>) -> Result<int, Seq<char>> {
    match chrono_ymd(text) {
        Ok(days) => Ok(days as int),
        Err(complaint) => Err(complaint),
    }
}

/// The day number of a date in the default format.
pub open spec fn read_default_date(text: Seq<char>) -> Result<int, Seq<char>> {
    match chrono_date(text) {
        Ok(days) => Ok(days as int),
        Err(complaint) => Err(complaint),
    }
}

/// The date with a day number.
pub open spec fn date_of(number: int) -> Date {
    choose|date: Date| #[trigger] date.deep_view() == number
}

/// A date is the one with its day number.
pub proof fn lemma_date_of(date: Date)
    ensures
        date_of(date.number()) == date,
{
    let chosen = date_of(date.number());
    assert(date.deep_view() == date.number());
    lemma_date_number_injective(chosen, date);
}

/// A year of at least four digits, signed outside 0 to 9999.
pub open spec fn year_text(year: int) -> Seq<char> {
    if 0 <= year <= 9999 {
        padded(year as nat, 4)
    } else if year > 9999 {
        "+"@ + decimal(year as nat)
    } else {
        "-"@ + padded((-year) as nat, 4)
    }
}

/// The text of a date: its year, month and day, with a mark between them.
pub open spec fn civil_text(year: int, month: int, day: int, mark: Seq<char>) -> Seq<char> {
    year_text(year) + mark + padded(month as nat, 2) + mark + padded(day as nat, 2)
}

/// The year, month and day of the month of a day number.
pub open spec fn civil_of(number: int) -> (int, int, int) {
    choose|ymd: (int, int, int)|
        civil(ymd.0, ymd.1, ymd.2) && #[trigger] day_number(ymd.0, ymd.1, ymd.2) == number
}

/// The text of the date with a day number: `YYYY-MM-DD`.
pub open spec fn date_text(number: int) -> Seq<char> {
    let ymd = civil_of(number);
    civil_text(ymd.0, ymd.1, ymd.2, "-"@)
}

/// The text of a second of the day with a day number, in UTC: `YYYYMMDDTHHMMSSZ`.
pub open spec fn stamp_text(number: int, second: int) -> Seq<char> {
    let ymd = civil_of(number);
    civil_text(ymd.0, ymd.1, ymd.2, Seq::empty()) + "T"@ + padded((second / 3600) as nat, 2)
        + padded((second / 60 % 60) as nat, 2) + padded((second % 60) as nat, 2) + "Z"@
}

proof fn lemma_days_before_month(year: int, month: int)
    requires
        1 <= month <= 13,
    ensures
        days_before_month(year, month) == (if month == 1 {
            0
        } else if month == 2 {
            31
        } else {
            (if leap_year(year) {
                1int
            } else {
                0int
            }) + (if month == 3 {
                59int
            } else if month == 4 {
                90
            } else if month == 5 {
                120
            } else if month == 6 {
                151
            } else if month == 7 {
                181
            } else if month == 8 {
                212
            } else if month == 9 {
                243
            } else if month == 10 {
                273
            } else if month == 11 {
                304
            } else if month == 12 {
                334
            } else {
                365
            })
        }),
    decreases month,
{
    if month > 1 {
        lemma_days_before_month(year, month - 1);
    }
}

/// Different days of the calendar have different day numbers.
pub proof fn lemma_day_number_injective(
    year: int,
    month: int,
    day: int,
    other_year: int,
    other_month: int,
    other_day: int,
)
    requires
        civil(year, month, day),
        civil(other_year, other_month, other_day),
        day_number(year, month, day) == day_number(other_year, other_month, other_day),
    ensures
        year == other_year,
        month == other_month,
        day == other_day,
{
    lemma_days_before_month(year, month);
    lemma_days_before_month(other_year, other_month);
    let ordinal = days_before_month(year, month) + day;
    let other_ordinal = days_before_month(other_year, other_month) + other_day;
    assert(1 <= ordinal <= 366 && (ordinal == 366 ==> leap_year(year)));
    assert(1 <= other_ordinal <= 366 && (other_ordinal == 366 ==> leap_year(other_year)));
    if year < other_year {
        lemma_year_starts(year, other_year);
    }
    if other_year < year {
        lemma_year_starts(other_year, year);
    }
}

/// A later year starts after the last day of an earlier one.
proof fn lemma_year_starts(year: int, later: int)
    requires
        year < later,
    ensures
        ({
            let a = year - 1;
            let b = later - 1;
            365 * b + b / 4 - b / 100 + b / 400 >= 365 * a + a / 4 - a / 100 + a / 400 + 365 + (
            if leap_year(year) {
                1int
            } else {
                0int
            })
        }),
    decreases later - year,
{
    if year + 1 < later {
        lemma_year_starts(year, later - 1);
        lemma_year_step(later - 1);
    } else {
        lemma_year_step(year);
    }
}

proof fn lemma_year_step(year: int)
    ensures
        ({
            let a = year - 1;
            365 * year + year / 4 - year / 100 + year / 400 == 365 * a + a / 4 - a / 100 + a / 400
                + 365 + (if leap_year(year) {
                1int
            } else {
                0int
            })
        }),
{
    lemma_quotient_step(year, 4);
    lemma_quotient_step(year, 100);
    lemma_quotient_step(year, 400);
    if year % 400 == 0 {
        lemma_multiple(year, 400, 100);
    }
    if year % 100 == 0 {
        lemma_multiple(year, 100, 4);
    }
}

proof fn lemma_quotient_step(n: int, k: int)
    requires
        k > 1,
    ensures
        n / k == (n - 1) / k + (if n % k == 0 {
            1int
        } else {
            0int
        }),
{
    let q = n / k;
    lemma_fundamental_div_mod(n, k);
    if n % k == 0 {
        assert(n - 1 == (q - 1) * k + (k - 1)) by (nonlinear_arith)
            requires
                n == k * q,
        ;
        lemma_fundamental_div_mod_converse(n - 1, k, q - 1, k - 1);
    } else {
        assert(n - 1 == q * k + (n % k - 1)) by (nonlinear_arith)
            requires
                n == k * q + n % k,
        ;
        lemma_fundamental_div_mod_converse(n - 1, k, q, n % k - 1);
    }
}

proof fn lemma_multiple(n: int, k: int, part: int)
    requires
        k > 0,
        part > 0,
        k % part == 0,
        n % k == 0,
    ensures
        n % part == 0,
{
    lemma_fundamental_div_mod(n, k);
    lemma_fundamental_div_mod(k, part);
    let q = (k / part) * (n / k);
    assert(n == q * part + 0) by (nonlinear_arith)
        requires
            n == k * (n / k),
            k == part * (k / part),
            q == (k / part) * (n / k),
    ;
    lemma_fundamental_div_mod_converse(n, part, q, 0);
}

pub proof fn lemma_civil_of(number: int, year: int, month: int, day: int)
    requires
        civil(year, month, day),
        day_number(year, month, day) == number,
    ensures
        civil_of(number) == (year, month, day),
{
    let ymd = (year, month, day);
    assert(civil(ymd.0, ymd.1, ymd.2) && day_number(ymd.0, ymd.1, ymd.2) == number);
    let chosen = civil_of(number);
    lemma_day_number_injective(year, month, day, chosen.0, chosen.1, chosen.2);
}

impl DeepView for Date {
    type V = int;

    closed spec fn deep_view(&self) -> int {
        self.days as int
    }
}

impl Date {
    #[verifier::type_invariant]
    spec fn representable(self) -> bool {
        FIRST_DAY <= self.days <= LAST_DAY
    }

    /// The day number.
    pub open spec fn number(self) -> int {
        self.deep_view()
    }

    /// The date of a year, month and day of the month.
    pub fn from_ymd(year: i32, month: u32, day: u32) -> (r: Option<Date>)
        ensures
            r is Some <==> civil(year as int, month as int, day as int),
            r is Some ==> r->0.number() == day_number(year as int, month as int, day as int),
    {
        match civil_to_days(year, month, day) {
            Some(days) => Some(Date { days }),
            None => None,
        }
    }

    /// The date that a text in the form `YYYY-MM-DD` stands for.
    pub fn parse(text: &str) -> (r: Result<Date, Error>)
        ensures
            outcome(r) == read_date(text@),
    {
        match parse_days(text) {
            Ok(days) => Ok(Date { days }),
            Err(message) => Err(Error { message }),
        }
    }

    /// The date that a text in the default date format stands for.
    pub fn parse_default(text: &str) -> (r: Result<Date, Error>)
        ensures
            outcome(r) == read_default_date(text@),
    {
        match parse_default_days(text) {
            Ok(days) => Ok(Date { days }),
            Err(message) => Err(Error { message }),
        }
    }

    /// The day number.
    pub fn days(&self) -> (r: i32)
        ensures
            r == self.number(),
            FIRST_DAY <= r <= LAST_DAY,
    {
        proof {
            use_type_invariant(self);
        }
        self.days
    }

    /// The following day, unless this is the last representable one.
    pub fn next(&self) -> (r: Option<Date>)
        ensures
            r is Some <==> self.number() < LAST_DAY,
            r is Some ==> r->0.number() == self.number() + 1,
    {
        proof {
            use_type_invariant(self);
        }
        if self.days < LAST_DAY {
            Some(Date { days: self.days + 1 })
        } else {
            None
        }
    }

    /// The weekday, Monday being 0.
    pub fn weekday(&self) -> (r: u8)
        ensures
            r == weekday_of(self.number()),
            r < 7,
    {
        proof {
            use_type_invariant(self);
        }
        // 13678020 weeks lie before the first representable day's week.
        let shifted: u32 = (self.days + 95746140) as u32;
        let weekday: u32 = (shifted + 6) % 7;
        assert((self.days + 95746146) % 7 == (self.days - 1) % 7);
        weekday as u8
    }

    /// The year, month and day of the month.
    pub fn civil(&self) -> (r: (i32, u32, u32))
        ensures
            civil(r.0 as int, r.1 as int, r.2 as int),
            day_number(r.0 as int, r.1 as int, r.2 as int) == self.number(),
    {
        proof {
            use_type_invariant(self);
        }
        days_to_civil(self.days)
    }

    fn marked_text(&self, mark: &str) -> (r: String)
        ensures
            ({
                let ymd = civil_of(self.number());
                r@ == civil_text(ymd.0, ymd.1, ymd.2, mark@)
            }),
    {
        let (year, month, day) = self.civil();
        proof {
            lemma_civil_of(self.number(), year as int, month as int, day as int);
        }
        let mut out = if 0 <= year && year <= 9999 {
            padded_text(year as u64, 4)
        } else if year > 9999 {
            let mut sign = "+".to_owned();
            sign.append(decimal_text(year as u64).as_str());
            sign
        } else {
            let mut sign = "-".to_owned();
            sign.append(padded_text((-year) as u64, 4).as_str());
            sign
        };
        out.append(mark);
        out.append(padded_text(month as u64, 2).as_str());
        out.append(mark);
        out.append(padded_text(day as u64, 2).as_str());
        out
    }

    /// The date as `YYYY-MM-DD`, the year signed outside 0 to 9999.
    pub fn text(&self) -> (r: String)
        ensures
            r@ == date_text(self.number()),
    {
        self.marked_text("-")
    }

    /// A second of this day in UTC as `YYYYMMDDTHHMMSSZ`.
    pub fn stamp(&self, second: u32) -> (r: String)
        ensures
            r@ == stamp_text(self.number(), second as int),
    {
        let empty = String::new();
        assert(empty@ =~= Seq::empty());
        let mut out = self.marked_text(empty.as_str());
        out.append("T");
        out.append(padded_text((second / 3600) as u64, 2).as_str());
        out.append(padded_text((second / 60 % 60) as u64, 2).as_str());
        out.append(padded_text((second % 60) as u64, 2).as_str());
        out.append("Z");
        out
    }

    pub fn is_after(&self, other: &Date) -> (r: bool)
        ensures
            r == (self.number() > other.number()),
    {
        self.days > other.days
    }

    /// The later of two dates.
    pub fn max(self, other: Date) -> (r: Date)
        ensures
            r == (if self.number() >= other.number() {
                self
            } else {
                other
            }),
    {
        if self.days >= other.days {
            self
        } else {
            other
        }
    }

    /// The earlier of two dates.
    pub fn min(self, other: Date) -> (r: Date)
        ensures
            r == (if self.number() <= other.number() {
                self
            } else {
                other
            }),
    {
        if self.days <= other.days {
            self
        } else {
            other
        }
    }
}

/// What a local time stands for.
#[derive(Clone, Copy, Debug, PartialEq, Eq, Structural)]
pub enum LocalTime {
    /// One instant: the date and the second of the day in UTC.
    Single(Date, u32),
    /// Two instants: the clocks are set back over it.
    Ambiguous,
    /// No instant: the clocks are set forward over it.
    Missing,
}

pub enum LocalTimeView {
    Single(int, int),
    Ambiguous,
    Missing,
}

impl DeepView for LocalTime {
    type V = LocalTimeView;

    open spec fn deep_view(&self) -> LocalTimeView {
        match self {
            LocalTime::Single(date, second) => LocalTimeView::Single(
                date.number(),
                *second as int,
            ),
            LocalTime::Ambiguous => LocalTimeView::Ambiguous,
            LocalTime::Missing => LocalTimeView::Missing,
        }
    }
}

/// What an hour and minute of a day, by its number, stand for in New York.
pub uninterp spec fn new_york_time(day: int, hour: int, minute: int) -> LocalTimeView;

/// `chrono_tz::America::New_York.from_local_datetime`, the single instant in UTC.
#[verifier::external_body]
pub(crate) fn localize(date: Date, hour: u32, minute: u32) -> (r: LocalTime)
    requires
        hour < 24,
        minute < 60,
    ensures
        r.deep_view() == new_york_time(date.number(), hour as int, minute as int),
        r matches LocalTime::Single(_, second) ==> second < 86_400,
{
    let day = NaiveDate::from_num_days_from_ce_opt(date.days).unwrap();
    let local = day.and_hms_opt(hour, minute, 0).unwrap();
    match New_York.from_local_datetime(&local) {
        LocalResult::Single(time) => {
            let utc = time.naive_utc();
            LocalTime::Single(Date { days: utc.num_days_from_ce() }, utc.num_seconds_from_midnight())
        },
        LocalResult::Ambiguous(_, _) => LocalTime::Ambiguous,
        LocalResult::None => LocalTime::Missing,
    }
}

/// Dates with the same day number are the same date.
pub broadcast proof fn lemma_date_number_injective(a: Date, b: Date)
    requires
        #[trigger] a.deep_view() == #[trigger] b.deep_view(),
    ensures
        a == b,
{
}

impl Duplicate for Date {
    fn duplicate(&self) -> (r: Self) {
        *self
    }
}

impl Rank for Date {
    open spec fn before(a: int, b: int) -> bool {
        a < b
    }

    proof fn before_irreflexive(a: int) {
    }

    proof fn before_transitive(a: int, b: int, c: int) {
    }

    proof fn before_total(a: int, b: int) {
    }

    fn is_before(&self, other: &Self) -> (r: bool) {
        self.days < other.days
    }
}

} // verus!
