//! Timestamps of the archive: their calendar reading, their order, their
//! display text, and their reading from the store's text notation.

use chrono::{Datelike, NaiveDate, NaiveDateTime, Timelike};
use vstd::prelude::*;

use crate::error::TummyError;
use crate::order::Ranked;

verus! {

/// The earliest year a timestamp can lie in.
pub const MIN_YEAR: i32 = -262_143;

/// The latest year a timestamp can lie in.
pub const MAX_YEAR: i32 = 262_142;

/// The calendar reading of a timestamp, in the proleptic Gregorian calendar.
pub struct Moment {
    pub year: int,
    pub month: int,
    pub day: int,
    pub hour: int,
    pub minute: int,
    pub second: int,
    /// Nanoseconds past the second. A value of a thousand million or more
    /// stands for a leap second after second 59.
    pub nanos: int,
}

/// Whether `year` has a 29th of February.
pub open spec fn is_leap_year(year: int) -> bool {
    year % 4 == 0 && (year % 100 != 0 || year % 400 == 0)
}

/// The number of days of `month` in `year`.
pub open spec fn days_in_month(year: int, month: int) -> int {
    if month == 2 {
        if is_leap_year(year) {
            29
        } else {
            28
        }
    } else if month == 4 || month == 6 || month == 9 || month == 11 {
        30
    } else {
        31
    }
}

impl Moment {
    /// The reading names a day that exists and a time of day.
    pub open spec fn is_valid(self) -> bool {
        &&& MIN_YEAR <= self.year <= MAX_YEAR
        &&& 1 <= self.month <= 12
        &&& 1 <= self.day <= days_in_month(self.year, self.month)
        &&& 0 <= self.hour < 24
        &&& 0 <= self.minute < 60
        &&& 0 <= self.second < 60
        &&& 0 <= self.nanos < 2_000_000_000
        &&& self.nanos >= 1_000_000_000 ==> self.second == 59
    }

    /// The place of the reading on the timeline, as one number: of two valid
    /// readings the earlier has the smaller number, and only equal readings
    /// have equal numbers. The number counts no unit of time.
    pub open spec fn instant(self) -> int {
        (((((self.year * 13 + self.month) * 32 + self.day) * 24 + self.hour) * 60 + self.minute)
            * 60 + self.second) * 2_000_000_000 + self.nanos
    }

    /// The reading with seconds and nanoseconds cleared.
    pub open spec fn to_minute(self) -> Moment {
        Moment { second: 0, nanos: 0, ..self }
    }
}

/// The character of a decimal digit.
pub open spec fn digit_char(d: int) -> char {
    if d == 0 {
        '0'
    } else if d == 1 {
        '1'
    } else if d == 2 {
        '2'
    } else if d == 3 {
        '3'
    } else if d == 4 {
        '4'
    } else if d == 5 {
        '5'
    } else if d == 6 {
        '6'
    } else if d == 7 {
        '7'
    } else if d == 8 {
        '8'
    } else {
        '9'
    }
}

/// `n` below a hundred in two digits.
pub open spec fn two_digits(n: int) -> Seq<char> {
    seq![digit_char(n / 10), digit_char(n % 10)]
}

/// The decimal digits of `n`, without leading zeros; none for zero.
pub open spec fn decimal_digits(n: nat) -> Seq<char>
    decreases n,
{
    if n == 0 {
        Seq::empty()
    } else {
        decimal_digits(n / 10).push(digit_char((n % 10) as int))
    }
}

/// `n` in at least four digits, zero-padded on the left.
pub open spec fn four_digits(n: nat) -> Seq<char> {
    if n < 10_000 {
        two_digits(n as int / 100) + two_digits(n as int % 100)
    } else {
        decimal_digits(n)
    }
}

/// The text of a year: four digits from 0 to 9999, else a sign and at least
/// four digits.
pub open spec fn year_text(year: int) -> Seq<char> {
    if 0 <= year <= 9999 {
        four_digits(year as nat)
    } else if year < 0 {
        seq!['-'] + four_digits((-year) as nat)
    } else {
        seq!['+'] + four_digits(year as nat)
    }
}

/// The three letters of a month.
pub open spec fn month_abbrev(month: int) -> Seq<char> {
    if month == 1 {
        seq!['J', 'a', 'n']
    } else if month == 2 {
        seq!['F', 'e', 'b']
    } else if month == 3 {
        seq!['M', 'a', 'r']
    } else if month == 4 {
        seq!['A', 'p', 'r']
    } else if month == 5 {
        seq!['M', 'a', 'y']
    } else if month == 6 {
        seq!['J', 'u', 'n']
    } else if month == 7 {
        seq!['J', 'u', 'l']
    } else if month == 8 {
        seq!['A', 'u', 'g']
    } else if month == 9 {
        seq!['S', 'e', 'p']
    } else if month == 10 {
        seq!['O', 'c', 't']
    } else if month == 11 {
        seq!['N', 'o', 'v']
    } else {
        seq!['D', 'e', 'c']
    }
}

/// The hour on a twelve-hour clock: 12, 1, 2, .. 11.
pub open spec fn hour_on_clock(hour: int) -> int {
    if hour % 12 == 0 {
        12
    } else {
        hour % 12
    }
}

/// The display text of a reading: day, month, year, `@`, and the time to the
/// minute on a twelve-hour clock, as in `05 Sep 2015 @ 11:56 PM`.
pub open spec fn display_of(m: Moment) -> Seq<char> {
    two_digits(m.day) + seq![' '] + month_abbrev(m.month) + seq![' '] + year_text(m.year)
        + seq![' ', '@', ' '] + two_digits(hour_on_clock(m.hour)) + seq![':'] + two_digits(
        m.minute,
    ) + seq![' '] + seq![if m.hour < 12 { 'A' } else { 'P' }, 'M']
}

/// A point in time without a time zone, to the nanosecond. Every value reads
/// as a valid [`Moment`].
#[derive(Clone, Copy, Debug, PartialEq, Eq, Structural)]
pub struct Timestamp {
    year: i32,
    month: u32,
    day: u32,
    hour: u32,
    minute: u32,
    second: u32,
    nanos: u32,
}

impl View for Timestamp {
    type V = Moment;

    closed spec fn view(&self) -> Moment {
        Moment {
            year: self.year as int,
            month: self.month as int,
            day: self.day as int,
            hour: self.hour as int,
            minute: self.minute as int,
            second: self.second as int,
            nanos: self.nanos as int,
        }
    }
}

/// Whether `year` has a 29th of February.
fn leap_year(year: i32) -> (leap: bool)
    requires
        MIN_YEAR <= year <= MAX_YEAR,
    ensures
        leap == is_leap_year(year as int),
{
    // 262_400 is a multiple of 400 and lifts every year above zero.
    let lifted: i32 = year + 262_400;
    lifted % 4 == 0 && (lifted % 100 != 0 || lifted % 400 == 0)
}

/// The number of days of `month` in `year`.
fn month_length(year: i32, month: u32) -> (days: u32)
    requires
        MIN_YEAR <= year <= MAX_YEAR,
    ensures
        days == days_in_month(year as int, month as int),
{
    if month == 2 {
        if leap_year(year) {
            29
        } else {
            28
        }
    } else if month == 4 || month == 6 || month == 9 || month == 11 {
        30
    } else {
        31
    }
}

impl Timestamp {
    #[verifier::type_invariant]
    spec fn well_formed(self) -> bool {
        self@.is_valid()
    }

    /// The timestamp with the given calendar reading, if the reading is
    /// valid.
    pub fn new(
        year: i32,
        month: u32,
        day: u32,
        hour: u32,
        minute: u32,
        second: u32,
        nanos: u32,
    ) -> (made: Option<Timestamp>)
        ensures
            ({
                let m = Moment {
                    year: year as int,
                    month: month as int,
                    day: day as int,
                    hour: hour as int,
                    minute: minute as int,
                    second: second as int,
                    nanos: nanos as int,
                };
                match made {
                    Some(t) => m.is_valid() && t@ == m,
                    None => !m.is_valid(),
                }
            }),
    {
        if year < MIN_YEAR || year > MAX_YEAR || month < 1 || month > 12 || day < 1 {
            return None;
        }
        if day > month_length(year, month) || hour >= 24 || minute >= 60 || second >= 60 {
            return None;
        }
        if nanos >= 2_000_000_000 || (nanos >= 1_000_000_000 && second != 59) {
            return None;
        }
        Some(Timestamp { year, month, day, hour, minute, second, nanos })
    }

    /// The year.
    pub fn year(&self) -> (year: i32)
        ensures
            year == self@.year,
    {
        self.year
    }

    /// The month, from 1 to 12.
    pub fn month(&self) -> (month: u32)
        ensures
            month == self@.month,
    {
        self.month
    }

    /// The day of the month, from 1.
    pub fn day(&self) -> (day: u32)
        ensures
            day == self@.day,
    {
        self.day
    }

    /// The hour, from 0 to 23.
    pub fn hour(&self) -> (hour: u32)
        ensures
            hour == self@.hour,
    {
        self.hour
    }

    /// The minute.
    pub fn minute(&self) -> (minute: u32)
        ensures
            minute == self@.minute,
    {
        self.minute
    }

    /// The second, from 0 to 59.
    pub fn second(&self) -> (second: u32)
        ensures
            second == self@.second,
    {
        self.second
    }

    /// The nanoseconds past the second; a thousand million or more in a leap second.
    pub fn nanos(&self) -> (nanos: u32)
        ensures
            nanos == self@.nanos,
    {
        self.nanos
    }

    /// The place of the timestamp on the timeline; see [`Moment::instant`].
    pub fn instant(&self) -> (code: i128)
        ensures
            code == self@.instant(),
            self@.is_valid(),
    {
        proof {
            use_type_invariant(self);
        }
        let date: i128 = (self.year as i128 * 13 + self.month as i128) * 32 + self.day as i128;
        let clock: i128 = (self.hour as i128 * 60 + self.minute as i128) * 60 + self.second as i128;
        (date * 86_400 + clock) * 2_000_000_000 + self.nanos as i128
    }

    /// Whether this timestamp lies before `other`.
    pub fn is_before(&self, other: &Timestamp) -> (earlier: bool)
        ensures
            earlier == (self@.instant() < other@.instant()),
    {
        self.instant() < other.instant()
    }

    /// Whether both timestamps name the same point in time.
    pub fn same_as(&self, other: &Timestamp) -> (same: bool)
        ensures
            same == (self@ == other@),
            same == (self@.instant() == other@.instant()),
    {
        proof {
            use_type_invariant(self);
            use_type_invariant(other);
            lemma_instant_orders(self@, other@);
        }
        self.instant() == other.instant()
    }
}

impl Ranked for Timestamp {
    open spec fn precedes(&self, other: &Self) -> bool {
        self@.instant() < other@.instant()
    }

    fn comes_before(&self, other: &Self) -> (first: bool) {
        self.is_before(other)
    }

    proof fn lemma_precedes(a: &Self, b: &Self, c: &Self) {
    }
}

/// On valid readings the instant orders as the calendar does, field by
/// field, and tells any two readings apart.
pub proof fn lemma_instant_orders(a: Moment, b: Moment)
    requires
        a.is_valid(),
        b.is_valid(),
    ensures
        a.instant() == b.instant() <==> a == b,
        a.instant() < b.instant() <==> {
            ||| a.year < b.year
            ||| a.year == b.year && a.month < b.month
            ||| a.year == b.year && a.month == b.month && a.day < b.day
            ||| a.year == b.year && a.month == b.month && a.day == b.day && a.hour < b.hour
            ||| a.year == b.year && a.month == b.month && a.day == b.day && a.hour == b.hour
                && a.minute < b.minute
            ||| a.year == b.year && a.month == b.month && a.day == b.day && a.hour == b.hour
                && a.minute == b.minute && a.second < b.second
            ||| a.year == b.year && a.month == b.month && a.day == b.day && a.hour == b.hour
                && a.minute == b.minute && a.second == b.second && a.nanos < b.nanos
        },
{
}

/// What `chrono` reads out of a timestamp text in the store's notation
/// (`YYYY-MM-DD HH:MM:SS` with an optional fraction of a second): the year,
/// month, day, hour, minute, second and nanoseconds, or nothing where the
/// text is not in that notation.
pub uninterp spec fn pg_ts_fields(raw: Seq<char>) -> Option<(i32, u32, u32, u32, u32, u32, u32)>;

/// The reading that [`pg_ts_fields`] stands for, where it is a valid one.
pub open spec fn pg_ts_moment(raw: Seq<char>) -> Option<Moment> {
    match pg_ts_fields(raw) {
        Some((year, month, day, hour, minute, second, nanos)) => {
            let m = Moment {
                year: year as int,
                month: month as int,
                day: day as int,
                hour: hour as int,
                minute: minute as int,
                second: second as int,
                nanos: nanos as int,
            };
            if m.is_valid() {
                Some(m)
            } else {
                None
            }
        },
        None => None,
    }
}

/// Calls `chrono::NaiveDateTime::parse_from_str` with the pattern
/// `%Y-%m-%d %X%.f` and hands out the calendar fields of what it read, taken
/// with `year`, `month`, `day`, `hour`, `minute`, `second` and `nanosecond`.
/// Nothing is claimed of which texts are read or to what: the result is only
/// given its name, which says that the same text always reads the same.
#[verifier::external_body]
fn read_pg_fields(raw: &str) -> (fields: Option<(i32, u32, u32, u32, u32, u32, u32)>)
    ensures
        fields == pg_ts_fields(raw@),
{
    match NaiveDateTime::parse_from_str(raw, "%Y-%m-%d %X%.f") {
        Ok(t) => Some(
            (t.year(), t.month(), t.day(), t.hour(), t.minute(), t.second(), t.nanosecond()),
        ),
        Err(_) => None,
    }
}

/// Builds the `chrono::NaiveDateTime` of a valid reading with
/// `NaiveDate::from_ymd_opt` and `and_hms_nano_opt`, and renders it with
/// `format("%d %b %Y @ %I:%M %p")`. The contract claims what chrono's
/// documentation of these specifiers says: day, twelve-hour clock hour and
/// minute in two digits, the English three-letter month, `AM` or `PM`, and
/// the year in four digits, with a sign in front where it is outside 0..=9999.
#[verifier::external_body]
fn render_with_chrono(
    year: i32,
    month: u32,
    day: u32,
    hour: u32,
    minute: u32,
    second: u32,
    nanos: u32,
) -> (text: String)
    requires
        (Moment {
            year: year as int,
            month: month as int,
            day: day as int,
            hour: hour as int,
            minute: minute as int,
            second: second as int,
            nanos: nanos as int,
        }).is_valid(),
    ensures
        text@ == display_of(
            Moment {
                year: year as int,
                month: month as int,
                day: day as int,
                hour: hour as int,
                minute: minute as int,
                second: second as int,
                nanos: nanos as int,
            },
        ),
{
    let date = NaiveDate::from_ymd_opt(year, month, day).unwrap();
    let at = date.and_hms_nano_opt(hour, minute, second, nanos).unwrap();
    at.format("%d %b %Y @ %I:%M %p").to_string()
}

/// The display text of a timestamp, as in `05 Sep 2015 @ 11:56 PM`.
pub fn human_format(ts: &Timestamp) -> (text: String)
    ensures
        text@ == display_of(ts@),
{
    proof {
        use_type_invariant(ts);
    }
    render_with_chrono(ts.year, ts.month, ts.day, ts.hour, ts.minute, ts.second, ts.nanos)
}

/// Turns what was read out of a timestamp text into a timestamp, or into
/// `MalformedTimestamp` where nothing was read or the fields name no valid
/// moment.
pub fn timestamp_of_fields(fields: Option<(i32, u32, u32, u32, u32, u32, u32)>) -> (read: Result<
    Timestamp,
    TummyError,
>)
    ensures
        match fields {
            Some((year, month, day, hour, minute, second, nanos)) => {
                let m = Moment {
                    year: year as int,
                    month: month as int,
                    day: day as int,
                    hour: hour as int,
                    minute: minute as int,
                    second: second as int,
                    nanos: nanos as int,
                };
                if m.is_valid() {
                    read matches Ok(t) && t@ == m
                } else {
                    read == Err::<Timestamp, TummyError>(TummyError::MalformedTimestamp)
                }
            },
            None => read == Err::<Timestamp, TummyError>(TummyError::MalformedTimestamp),
        },
{
    match fields {
        Some((year, month, day, hour, minute, second, nanos)) => {
            match Timestamp::new(year, month, day, hour, minute, second, nanos) {
                Some(t) => Ok(t),
                None => Err(TummyError::MalformedTimestamp),
            }
        },
        None => Err(TummyError::MalformedTimestamp),
    }
}

/// Reads a timestamp from the store's text notation, `YYYY-MM-DD HH:MM:SS`
/// with an optional fraction of a second. A text that is not in that notation
/// gives `MalformedTimestamp`.
pub fn from_pg_ts(raw: &str) -> (read: Result<Timestamp, TummyError>)
    ensures
        match pg_ts_moment(raw@) {
            Some(m) => read matches Ok(t) && t@ == m,
            None => read == Err::<Timestamp, TummyError>(TummyError::MalformedTimestamp),
        },
{
    timestamp_of_fields(read_pg_fields(raw))
}

/// The display text shows a timestamp to the minute: two readings that agree
/// to the minute have the same display text.
pub proof fn law_display_to_the_minute(a: Moment, b: Moment)
    requires
        a.to_minute() == b.to_minute(),
    ensures
        display_of(a) == display_of(b),
{
}

/// Reading two texts and displaying what was read gives the same display
/// text whenever the two texts read to the same minute.
pub proof fn law_read_then_display_is_stable(first: Seq<char>, second: Seq<char>)
    requires
        pg_ts_moment(first) is Some,
        pg_ts_moment(second) is Some,
        pg_ts_moment(first)->0.to_minute() == pg_ts_moment(second)->0.to_minute(),
    ensures
        display_of(pg_ts_moment(first)->0) == display_of(pg_ts_moment(second)->0),
{
}

} // verus!
