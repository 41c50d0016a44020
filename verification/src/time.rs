//! Calendar instants and the canonical timestamp format.
//!
//! An instant is a Gregorian date with a time of day and a nanosecond
//! fraction, always in UTC. Its canonical string form is the fixed-width
//! `YYYY-MM-DD_HH-MM-SS.fffffffff` (nine fraction digits), chosen so that
//! lexicographic order of the strings equals chronological order.
use chrono::Datelike;
use chrono::Timelike;
use vstd::prelude::*;

verus! {

/// Relies on `std::time::SystemTime::now` for one reading of the wall
/// clock, taken as a distance from the Unix epoch: whole seconds and
/// the subsecond nanoseconds. `duration_since` hands back its error —
/// and this function `None` — when the clock stands before the epoch;
/// no outcome panics. std documents the subsecond part as always below
/// one billion.
#[verifier::external_body]
fn unix_clock() -> (r: Option<(u64, u32)>)
    ensures
        match r {
            Some(p) => p.1 <= 999_999_999,
            None => true,
        },
{
    match std::time::SystemTime::now().duration_since(std::time::UNIX_EPOCH) {
        Ok(d) => Some((d.as_secs(), d.subsec_nanos())),
        Err(_) => None,
    }
}

/// Relies on chrono's `DateTime::from_timestamp` and its
/// `Datelike`/`Timelike` accessors for the calendar reading of an epoch
/// second: `None` exactly as documented for an out-of-range second or
/// fraction, never a panic. chrono documents the accessor ranges: month
/// 1 to 12, day 1 to 31, hour to 23, minute and second to 59, and
/// nanosecond to 1,999,999,999 (the range above 999,999,999 marks a
/// leap second). The year carries no documented range and none is
/// assumed.
#[verifier::external_body]
fn calendar_of_unix(a_secs: i64, a_nanos: u32) -> (r: Option<
    (i64, u32, u32, u32, u32, u32, u32),
>)
    ensures
        match r {
            Some(f) => 1 <= f.1 <= 12 && 1 <= f.2 <= 31 && f.3 <= 23 && f.4 <= 59 && f.5 <= 59
                && f.6 <= 1_999_999_999,
            None => true,
        },
{
    match chrono::DateTime::from_timestamp(a_secs, a_nanos) {
        Some(n) => Some(
            (n.year() as i64, n.month(), n.day(), n.hour(), n.minute(), n.second(), n.nanosecond()),
        ),
        None => None,
    }
}

/// A calendar instant: Gregorian date, time of day, nanosecond fraction.
#[derive(Clone, Copy, PartialEq, Eq, Structural, Debug)]
pub struct Time {
    pub year: u32,
    pub month: u32,
    pub day: u32,
    pub hour: u32,
    pub minute: u32,
    pub second: u32,
    pub nanos: u32,
}

pub open spec fn is_leap_year(y: int) -> bool {
    y % 4 == 0 && (y % 100 != 0 || y % 400 == 0)
}

pub open spec fn days_in_month(y: int, m: int) -> int {
    if m == 2 {
        if is_leap_year(y) {
            29
        } else {
            28
        }
    } else if m == 4 || m == 6 || m == 9 || m == 11 {
        30
    } else {
        31
    }
}

pub open spec fn days_in_year(y: int) -> int {
    if is_leap_year(y) {
        366
    } else {
        365
    }
}

/// Days in years `0, 1, ..., y - 1`: the day number of the first day of year `y`.
pub open spec fn days_before_year(y: int) -> int
    decreases y,
{
    if y <= 0 {
        0
    } else {
        days_before_year(y - 1) + days_in_year(y - 1)
    }
}

/// Days in months `1, ..., m - 1` of year `y`: the day offset of the first
/// day of month `m` within its year.
pub open spec fn days_before_month(y: int, m: int) -> int
    decreases m,
{
    if m <= 1 {
        0
    } else {
        days_before_month(y, m - 1) + days_in_month(y, m - 1)
    }
}

/// First epoch second that lies outside the four-digit-year range.
pub open spec fn max_epoch_secs() -> int {
    86400 * days_before_year(10000)
}

impl Time {
    /// A well-formed instant: a real Gregorian date with a four-digit year
    /// and in-range time fields.
    pub open spec fn wf(self) -> bool {
        &&& self.year <= 9999
        &&& 1 <= self.month <= 12
        &&& 1 <= self.day <= days_in_month(self.year as int, self.month as int)
        &&& self.hour <= 23
        &&& self.minute <= 59
        &&& self.second <= 59
        &&& self.nanos <= 999_999_999
    }

    /// Day number of this instant's date, counting from the first day of year 0.
    pub open spec fn day_index(self) -> int {
        days_before_year(self.year as int) + days_before_month(self.year as int, self.month as int)
            + self.day - 1
    }

    /// Whole seconds since the first instant of year 0.
    pub open spec fn epoch_secs(self) -> int {
        self.day_index() * 86400 + self.hour * 3600 + self.minute * 60 + self.second
    }

    /// Strictly earlier, down to the nanosecond.
    pub open spec fn before_spec(self, other: Time) -> bool {
        ||| self.epoch_secs() < other.epoch_secs()
        ||| (self.epoch_secs() == other.epoch_secs() && self.nanos < other.nanos)
    }
}

/// The character for the decimal digit `d`.
pub open spec fn digit_char(d: int) -> char {
    if d == 0 {
        '0'
    } else if d == 1 {
        '1'
    } else if d == 2 {
        '2'
    } else if d == 3 {
        '3'
    } else if d == 4 {
        '4'
    } else if d == 5 {
        '5'
    } else if d == 6 {
        '6'
    } else if d == 7 {
        '7'
    } else if d == 8 {
        '8'
    } else {
        '9'
    }
}

pub open spec fn is_digit(c: char) -> bool {
    48 <= c as u32 <= 57
}

/// The decimal value of a digit character.
pub open spec fn digit_val(c: char) -> int {
    c as u32 - 48
}

impl Time {
    /// The canonical string of this instant: `YYYY-MM-DD_HH-MM-SS.fffffffff`,
    /// every field zero-padded, the fraction printed to nine digits.
    pub open spec fn format_spec(self) -> Seq<char> {
        let y = self.year as int;
        let mo = self.month as int;
        let d = self.day as int;
        let h = self.hour as int;
        let mi = self.minute as int;
        let s = self.second as int;
        let n = self.nanos as int;
        seq![
            digit_char(y / 1000),
            digit_char((y % 1000) / 100),
            digit_char((y % 100) / 10),
            digit_char(y % 10),
            '-',
            digit_char(mo / 10),
            digit_char(mo % 10),
            '-',
            digit_char(d / 10),
            digit_char(d % 10),
            '_',
            digit_char(h / 10),
            digit_char(h % 10),
            '-',
            digit_char(mi / 10),
            digit_char(mi % 10),
            '-',
            digit_char(s / 10),
            digit_char(s % 10),
            '.',
            digit_char(n / 100000000),
            digit_char((n % 100000000) / 10000000),
            digit_char((n % 10000000) / 1000000),
            digit_char((n % 1000000) / 100000),
            digit_char((n % 100000) / 10000),
            digit_char((n % 10000) / 1000),
            digit_char((n % 1000) / 100),
            digit_char((n % 100) / 10),
            digit_char(n % 10),
        ]
    }
}

/// The positions of the five separators and the fraction point in a
/// canonical timestamp.
pub open spec fn seps_ok(s: Seq<char>) -> bool {
    &&& s[4] == '-'
    &&& s[7] == '-'
    &&& s[10] == '_'
    &&& s[13] == '-'
    &&& s[16] == '-'
    &&& s[19] == '.'
}

pub open spec fn sep_pos(i: int) -> bool {
    i == 4 || i == 7 || i == 10 || i == 13 || i == 16 || i == 19
}

pub open spec fn digits_ok(s: Seq<char>) -> bool {
    forall|i: int| 0 <= i < 29 && !sep_pos(i) ==> is_digit(#[trigger] s[i])
}

/// The two-digit number starting at position `i`.
pub open spec fn num2(s: Seq<char>, i: int) -> int {
    digit_val(s[i]) * 10 + digit_val(s[i + 1])
}

/// The four-digit number starting at position `i`.
pub open spec fn num4(s: Seq<char>, i: int) -> int {
    digit_val(s[i]) * 1000 + digit_val(s[i + 1]) * 100 + digit_val(s[i + 2]) * 10 + digit_val(
        s[i + 3],
    )
}

/// The nine-digit number starting at position `i`.
pub open spec fn num9(s: Seq<char>, i: int) -> int {
    digit_val(s[i]) * 100000000 + digit_val(s[i + 1]) * 10000000 + digit_val(s[i + 2]) * 1000000
        + digit_val(s[i + 3]) * 100000 + digit_val(s[i + 4]) * 10000 + digit_val(s[i + 5]) * 1000
        + digit_val(s[i + 6]) * 100 + digit_val(s[i + 7]) * 10 + digit_val(s[i + 8])
}

/// The instant whose fields are written at the canonical positions of `s`.
pub open spec fn time_of(s: Seq<char>) -> Time {
    Time {
        year: num4(s, 0) as u32,
        month: num2(s, 5) as u32,
        day: num2(s, 8) as u32,
        hour: num2(s, 11) as u32,
        minute: num2(s, 14) as u32,
        second: num2(s, 17) as u32,
        nanos: num9(s, 20) as u32,
    }
}

/// A canonical timestamp: 29 characters in the fixed shape, spelling a
/// well-formed instant.
pub open spec fn canonical(s: Seq<char>) -> bool {
    &&& s.len() == 29
    &&& seps_ok(s)
    &&& digits_ok(s)
    &&& time_of(s).wf()
}

proof fn lemma_days_before_year_bounds(y: int)
    requires
        0 <= y,
    ensures
        365 * y <= days_before_year(y) <= 366 * y,
    decreases y,
{
    if y > 0 {
        lemma_days_before_year_bounds(y - 1);
    }
}

proof fn lemma_days_before_year_mono(a: int, b: int)
    requires
        0 <= a <= b,
    ensures
        days_before_year(a) <= days_before_year(b),
    decreases b,
{
    if a < b {
        lemma_days_before_year_mono(a, b - 1);
    }
}

proof fn lemma_days_before_month_mono(y: int, a: int, b: int)
    requires
        1 <= a <= b,
    ensures
        days_before_month(y, a) <= days_before_month(y, b),
    decreases b,
{
    if a < b {
        lemma_days_before_month_mono(y, a, b - 1);
    }
}

/// The twelve months of year `y` sum to its length.
proof fn lemma_year_months_sum(y: int)
    ensures
        days_before_month(y, 13) == days_in_year(y),
{
    reveal_with_fuel(days_before_month, 13);
}

/// A well-formed instant lies strictly inside the representable range.
pub proof fn lemma_epoch_bounds(t: Time)
    requires
        t.wf(),
    ensures
        0 <= t.day_index() < days_before_year(10000),
        0 <= t.epoch_secs() < max_epoch_secs(),
{
    let y = t.year as int;
    let m = t.month as int;
    lemma_days_before_year_bounds(y);
    lemma_days_before_month_mono(t.year as int, 1, m);
    lemma_days_before_month_mono(t.year as int, m + 1, 13);
    lemma_year_months_sum(y);
    assert(days_before_month(y, m) + t.day - 1 < days_before_month(y, m + 1));
    assert(t.day_index() < days_before_year(y) + days_in_year(y));
    assert(days_before_year(y) + days_in_year(y) == days_before_year(y + 1));
    lemma_days_before_year_mono(y + 1, 10000);
}

/// An instant is determined by its epoch second and its fraction: two
/// well-formed instants that agree on both are field-for-field equal.
/// With the round trip this pins an instant's canonical string down to
/// the arithmetic of its epoch second.
pub proof fn lemma_instant_identity(a: Time, b: Time)
    requires
        a.wf(),
        b.wf(),
        a.epoch_secs() == b.epoch_secs(),
        a.nanos == b.nanos,
    ensures
        a == b,
{
    let tod_a = a.hour * 3600 + a.minute * 60 + a.second;
    let tod_b = b.hour * 3600 + b.minute * 60 + b.second;
    assert(0 <= tod_a < 86400 && 0 <= tod_b < 86400);
    lemma_epoch_bounds(a);
    lemma_epoch_bounds(b);
    assert(a.day_index() == b.day_index() && tod_a == tod_b) by (nonlinear_arith)
        requires
            a.day_index() * 86400 + tod_a == b.day_index() * 86400 + tod_b,
            0 <= tod_a < 86400,
            0 <= tod_b < 86400,
    ;
    assert(a.hour == b.hour && a.minute == b.minute && a.second == b.second);
    let ya = a.year as int;
    let yb = b.year as int;
    lemma_year_months_sum(ya);
    lemma_year_months_sum(yb);
    lemma_days_before_month_mono(a.year as int, a.month as int + 1, 13);
    lemma_days_before_month_mono(b.year as int, b.month as int + 1, 13);
    lemma_days_before_month_mono(a.year as int, 1, a.month as int);
    lemma_days_before_month_mono(b.year as int, 1, b.month as int);
    assert(days_before_year(ya) <= a.day_index() < days_before_year(ya) + days_in_year(ya));
    assert(days_before_year(yb) <= b.day_index() < days_before_year(yb) + days_in_year(yb));
    if ya < yb {
        lemma_days_before_year_mono(ya + 1, yb);
        assert(false);
    }
    if yb < ya {
        lemma_days_before_year_mono(yb + 1, ya);
        assert(false);
    }
    let within = a.day_index() - days_before_year(ya);
    let ma = a.month as int;
    let mb = b.month as int;
    assert(days_before_month(ya, ma) <= within < days_before_month(ya, ma + 1));
    assert(days_before_month(ya, mb) <= within < days_before_month(ya, mb + 1));
    if ma < mb {
        lemma_days_before_month_mono(a.year as int, ma + 1, mb);
        assert(false);
    }
    if mb < ma {
        lemma_days_before_month_mono(a.year as int, mb + 1, ma);
        assert(false);
    }
}

/// Whether `y` is a leap year.
pub fn leap_year(a_year: u32) -> (r: bool)
    ensures
        r == is_leap_year(a_year as int),
{
    a_year % 4 == 0 && (a_year % 100 != 0 || a_year % 400 == 0)
}

/// Length of month `m` of year `y` in days.
pub fn month_days(a_year: u32, a_month: u32) -> (r: u32)
    requires
        1 <= a_month <= 12,
    ensures
        r as int == days_in_month(a_year as int, a_month as int),
{
    if a_month == 2 {
        if leap_year(a_year) {
            29
        } else {
            28
        }
    } else if a_month == 4 || a_month == 6 || a_month == 9 || a_month == 11 {
        30
    } else {
        31
    }
}

/// Length of year `y` in days.
pub fn year_days(a_year: u32) -> (r: u32)
    ensures
        r as int == days_in_year(a_year as int),
{
    if leap_year(a_year) {
        366
    } else {
        365
    }
}

/// Day number of the first day of year `y`, counting from year 0.
fn year_start_day(a_year: u32) -> (r: u64)
    requires
        a_year <= 10000,
    ensures
        r as int == days_before_year(a_year as int),
        r <= 3_660_000,
{
    let mut acc: u64 = 0;
    let mut i: u32 = 0;
    while i < a_year
        invariant
            i <= a_year <= 10000,
            acc as int == days_before_year(i as int),
            acc as int <= 366 * (i as int),
        decreases a_year - i,
    {
        if leap_year(i) {
            acc = acc + 366;
        } else {
            acc = acc + 365;
        }
        i = i + 1;
    }
    acc
}

/// Day offset of the first day of month `m` within year `y`.
fn month_start_day(a_year: u32, a_month: u32) -> (r: u32)
    requires
        1 <= a_month <= 13,
    ensures
        r as int == days_before_month(a_year as int, a_month as int),
        r <= 372,
{
    let mut acc: u32 = 0;
    let mut i: u32 = 1;
    while i < a_month
        invariant
            1 <= i <= a_month <= 13,
            acc as int == days_before_month(a_year as int, i as int),
            acc as int <= 31 * (i as int - 1),
        decreases a_month - i,
    {
        acc = acc + month_days(a_year, i);
        i = i + 1;
    }
    acc
}

impl Time {
    /// Whole seconds since the first instant of year 0.
    pub fn to_epoch(&self) -> (r: u64)
        requires
            self.wf(),
        ensures
            r as int == self.epoch_secs(),
    {
        proof {
            lemma_epoch_bounds(*self);
        }
        let days: u64 = year_start_day(self.year) + month_start_day(self.year, self.month) as u64
            + (self.day - 1) as u64;
        days * 86400 + (self.hour as u64) * 3600 + (self.minute as u64) * 60 + self.second as u64
    }

    /// The instant `a_secs` whole seconds after the start of year 0, with
    /// fraction `a_nanos`.
    pub fn from_epoch(a_secs: u64, a_nanos: u32) -> (r: Time)
        requires
            a_secs < max_epoch_secs(),
            a_nanos <= 999_999_999,
        ensures
            r.wf(),
            r.epoch_secs() == a_secs as int,
            r.nanos == a_nanos,
    {
        let total_days: u64 = a_secs / 86400;
        let tod: u32 = (a_secs % 86400) as u32;
        proof {
            lemma_days_before_year_bounds(10000);
            assert(total_days < days_before_year(10000)) by {
                assert(86400 * (total_days as int) <= a_secs as int) by (nonlinear_arith)
                    requires
                        total_days == a_secs as int / 86400,
                        a_secs >= 0,
                ;
            };
        }
        let mut year: u32 = 0;
        let mut d: u64 = total_days;
        while d >= year_days(year) as u64
            invariant
                year <= 9999,
                days_before_year(year as int) + d == total_days < days_before_year(10000),
            decreases total_days - days_before_year(year as int),
        {
            let len: u64 = year_days(year) as u64;
            proof {
                if year == 9999 {
                    assert(days_before_year(10000) == days_before_year(9999) + days_in_year(9999));
                    assert(false);
                }
            }
            d = d - len;
            year = year + 1;
        }
        let mut month: u32 = 1;
        while d >= month_days(year, month) as u64
            invariant
                1 <= month <= 12,
                year <= 9999,
                days_before_month(year as int, month as int) + d == total_days - days_before_year(
                    year as int,
                ) < days_in_year(year as int),
            decreases days_in_year(year as int) - days_before_month(year as int, month as int),
        {
            let len = month_days(year, month);
            proof {
                if month == 12 {
                    lemma_year_months_sum(year as int);
                    assert(days_before_month(year as int, 13) == days_before_month(year as int, 12)
                        + days_in_month(year as int, 12));
                    assert(false);
                }
            }
            d = d - len as u64;
            month = month + 1;
        }
        let day: u32 = (d + 1) as u32;
        let hour: u32 = tod / 3600;
        let rem: u32 = tod % 3600;
        let minute: u32 = rem / 60;
        let second: u32 = rem % 60;
        proof {
            assert(hour <= 23 && rem <= 3599 && minute <= 59) by (nonlinear_arith)
                requires
                    tod < 86400,
                    hour == tod as int / 3600,
                    rem == tod as int % 3600,
                    minute == rem as int / 60,
            ;
            assert(tod == 3600 * hour + rem);
            assert(rem == 60 * minute + second);
            assert(a_secs == 86400 * (total_days as int) + tod);
        }
        Time { year, month, day, hour, minute, second, nanos: a_nanos }
    }

    /// The instant `a_secs` seconds after `self`, keeping the fraction;
    /// `None` when that would leave the four-digit-year range.
    pub fn plus_seconds(&self, a_secs: u64) -> (r: Option<Time>)
        requires
            self.wf(),
        ensures
            r is Some <==> self.epoch_secs() + a_secs < max_epoch_secs(),
            match r {
                Some(t) => {
                    &&& t.wf()
                    &&& t.epoch_secs() == self.epoch_secs() + a_secs
                    &&& t.nanos == self.nanos
                },
                None => true,
            },
    {
        proof {
            lemma_epoch_bounds(*self);
            lemma_days_before_year_bounds(10000);
        }
        let e = self.to_epoch();
        let limit: u64 = 86400 * year_start_day(10000);
        if a_secs < limit - e {
            Some(Time::from_epoch(e + a_secs, self.nanos))
        } else {
            None
        }
    }

    /// The instant raw clock fields spell: `Some` exactly when they form
    /// a well-formed instant — a real Gregorian date with a four-digit
    /// year, in-range time fields and a sub-second fraction — with every
    /// field carried over unchanged.
    pub fn from_fields(
        a_year: i64,
        a_month: u32,
        a_day: u32,
        a_hour: u32,
        a_minute: u32,
        a_second: u32,
        a_nanos: u32,
    ) -> (r: Option<Time>)
        ensures
            r is Some <==> {
                &&& 0 <= a_year <= 9999
                &&& 1 <= a_month <= 12
                &&& 1 <= a_day <= days_in_month(a_year as int, a_month as int)
                &&& a_hour <= 23
                &&& a_minute <= 59
                &&& a_second <= 59
                &&& a_nanos <= 999_999_999
            },
            match r {
                Some(t) => {
                    &&& t.wf()
                    &&& t.year == a_year
                    &&& t.month == a_month
                    &&& t.day == a_day
                    &&& t.hour == a_hour
                    &&& t.minute == a_minute
                    &&& t.second == a_second
                    &&& t.nanos == a_nanos
                },
                None => true,
            },
    {
        if a_year < 0 || a_year > 9999 {
            return None;
        }
        let year = a_year as u32;
        if a_month < 1 || a_month > 12 {
            return None;
        }
        if a_day < 1 || a_day > month_days(year, a_month) {
            return None;
        }
        if a_hour > 23 || a_minute > 59 || a_second > 59 {
            return None;
        }
        if a_nanos > 999_999_999 {
            return None;
        }
        Some(
            Time {
                year,
                month: a_month,
                day: a_day,
                hour: a_hour,
                minute: a_minute,
                second: a_second,
                nanos: a_nanos,
            },
        )
    }

    /// The current wall-clock instant. `None` when the clock stands
    /// before the Unix epoch, or hands back fields outside the range
    /// this library represents: a year with more than four digits, or
    /// the fraction of a leap second.
    pub fn now() -> (r: Option<Time>)
        ensures
            r is Some ==> r.unwrap().wf(),
    {
        let (secs, nanos) = match unix_clock() {
            Some(p) => p,
            None => {
                return None;
            },
        };
        if secs > i64::MAX as u64 {
            return None;
        }
        let f = match calendar_of_unix(secs as i64, nanos) {
            Some(f) => f,
            None => {
                return None;
            },
        };
        Time::from_fields(f.0, f.1, f.2, f.3, f.4, f.5, f.6)
    }

    /// Strictly earlier than `other`, down to the nanosecond.
    pub fn before(&self, a_other: &Time) -> (r: bool)
        requires
            self.wf(),
            a_other.wf(),
        ensures
            r == self.before_spec(*a_other),
    {
        let a = self.to_epoch();
        let b = a_other.to_epoch();
        a < b || (a == b && self.nanos < a_other.nanos)
    }
}

/// The one-character string for the decimal digit `d`.
fn digit_str(a_digit: u32) -> (r: &'static str)
    requires
        a_digit <= 9,
    ensures
        r@ =~= seq![digit_char(a_digit as int)],
{
    proof {
        reveal_strlit("0");
        reveal_strlit("1");
        reveal_strlit("2");
        reveal_strlit("3");
        reveal_strlit("4");
        reveal_strlit("5");
        reveal_strlit("6");
        reveal_strlit("7");
        reveal_strlit("8");
        reveal_strlit("9");
    }
    match a_digit {
        0 => "0",
        1 => "1",
        2 => "2",
        3 => "3",
        4 => "4",
        5 => "5",
        6 => "6",
        7 => "7",
        8 => "8",
        _ => "9",
    }
}

/// Append the two-digit zero-padded form of `n` (at most 99).
fn push2(a_out: &mut String, a_num: u32)
    requires
        a_num <= 99,
    ensures
        final(a_out)@ == old(a_out)@ + seq![
            digit_char(a_num as int / 10),
            digit_char(a_num as int % 10),
        ],
{
    a_out.append(digit_str(a_num / 10));
    a_out.append(digit_str(a_num % 10));
    assert(a_out@ =~= old(a_out)@ + seq![
        digit_char(a_num as int / 10),
        digit_char(a_num as int % 10),
    ]);
}

impl Time {
    /// The canonical 29-character string of this instant.
    pub fn to_string(a_time: &Time) -> (r: String)
        requires
            a_time.wf(),
        ensures
            r@ == a_time.format_spec(),
    {
        proof {
            reveal_strlit("-");
            reveal_strlit("_");
            reveal_strlit(".");
        }
        let mut r = String::new();
        r.append(digit_str(a_time.year / 1000));
        r.append(digit_str((a_time.year % 1000) / 100));
        r.append(digit_str((a_time.year % 100) / 10));
        r.append(digit_str(a_time.year % 10));
        r.append("-");
        push2(&mut r, a_time.month);
        r.append("-");
        push2(&mut r, a_time.day);
        r.append("_");
        push2(&mut r, a_time.hour);
        r.append("-");
        push2(&mut r, a_time.minute);
        r.append("-");
        push2(&mut r, a_time.second);
        r.append(".");
        r.append(digit_str(a_time.nanos / 100000000));
        r.append(digit_str((a_time.nanos % 100000000) / 10000000));
        r.append(digit_str((a_time.nanos % 10000000) / 1000000));
        r.append(digit_str((a_time.nanos % 1000000) / 100000));
        r.append(digit_str((a_time.nanos % 100000) / 10000));
        r.append(digit_str((a_time.nanos % 10000) / 1000));
        r.append(digit_str((a_time.nanos % 1000) / 100));
        r.append(digit_str((a_time.nanos % 100) / 10));
        r.append(digit_str(a_time.nanos % 10));
        assert(r@ =~= a_time.format_spec());
        r
    }
}

/// The decimal value of the character at `a_pos`, when it is a digit.
fn digit_at(a_str: &str, a_pos: usize) -> (r: Option<u32>)
    requires
        a_pos < a_str@.len(),
    ensures
        match r {
            Some(d) => is_digit(a_str@[a_pos as int]) && d <= 9 && d as int == digit_val(
                a_str@[a_pos as int],
            ),
            None => !is_digit(a_str@[a_pos as int]),
        },
{
    let c = a_str.get_char(a_pos);
    let u = c as u32;
    if 48 <= u && u <= 57 {
        Some(u - 48)
    } else {
        None
    }
}

/// The two-digit number written at `a_pos`, when both characters are digits.
fn num2_at(a_str: &str, a_pos: usize) -> (r: Option<u32>)
    requires
        a_pos < 28,
        a_str@.len() == 29,
    ensures
        match r {
            Some(n) => is_digit(a_str@[a_pos as int]) && is_digit(a_str@[a_pos + 1]) && n <= 99
                && n as int == num2(a_str@, a_pos as int),
            None => !(is_digit(a_str@[a_pos as int]) && is_digit(a_str@[a_pos + 1])),
        },
{
    let d0 = match digit_at(a_str, a_pos) {
        Some(d) => d,
        None => {
            return None;
        },
    };
    let d1 = match digit_at(a_str, a_pos + 1) {
        Some(d) => d,
        None => {
            return None;
        },
    };
    Some(d0 * 10 + d1)
}

impl Time {
    /// Parse the canonical 29-character timestamp form; `None` for any
    /// other string, including one that spells an impossible date.
    pub fn from_string(a_str: &str) -> (r: Option<Time>)
        ensures
            r == if canonical(a_str@) {
                Some(time_of(a_str@))
            } else {
                None::<Time>
            },
    {
        if a_str.unicode_len() != 29 {
            return None;
        }
        if a_str.get_char(4) != '-' || a_str.get_char(7) != '-' || a_str.get_char(10) != '_'
            || a_str.get_char(13) != '-' || a_str.get_char(16) != '-' || a_str.get_char(19)
            != '.' {
            return None;
        }
        let y0 = match digit_at(a_str, 0) {
            Some(d) => d,
            None => {
                return None;
            },
        };
        let y1 = match digit_at(a_str, 1) {
            Some(d) => d,
            None => {
                return None;
            },
        };
        let y2 = match digit_at(a_str, 2) {
            Some(d) => d,
            None => {
                return None;
            },
        };
        let y3 = match digit_at(a_str, 3) {
            Some(d) => d,
            None => {
                return None;
            },
        };
        let year = y0 * 1000 + y1 * 100 + y2 * 10 + y3;
        let month = match num2_at(a_str, 5) {
            Some(n) => n,
            None => {
                return None;
            },
        };
        let day = match num2_at(a_str, 8) {
            Some(n) => n,
            None => {
                return None;
            },
        };
        let hour = match num2_at(a_str, 11) {
            Some(n) => n,
            None => {
                return None;
            },
        };
        let minute = match num2_at(a_str, 14) {
            Some(n) => n,
            None => {
                return None;
            },
        };
        let second = match num2_at(a_str, 17) {
            Some(n) => n,
            None => {
                return None;
            },
        };
        let mut nanos: u32 = 0;
        let mut i: usize = 20;
        while i < 29
            invariant
                20 <= i <= 29,
                a_str@.len() == 29,
                forall|j: int| 20 <= j < i ==> is_digit(#[trigger] a_str@[j]),
                nanos as int == num_prefix(a_str@, 20, i as int),
                (nanos as int) < pow10(i as int - 20),
            decreases 29 - i,
        {
            let d = match digit_at(a_str, i) {
                Some(d) => d,
                None => {
                    return None;
                },
            };
            proof {
                lemma_pow10_mono(i as int - 20, 8);
                assert(pow10(8) == 100000000) by {
                    reveal_with_fuel(pow10, 9);
                };
            }
            nanos = nanos * 10 + d;
            i = i + 1;
        }
        proof {
            assert(num_prefix(a_str@, 20, 29) == num9(a_str@, 20)) by {
                reveal_with_fuel(num_prefix, 10);
            };
            assert(pow10(9) == 1000000000) by {
                reveal_with_fuel(pow10, 10);
            };
        }
        if month < 1 || month > 12 {
            return None;
        }
        if day < 1 || day > month_days(year, month) {
            return None;
        }
        if hour > 23 || minute > 59 || second > 59 {
            return None;
        }
        let t = Time { year, month, day, hour, minute, second, nanos };
        proof {
            assert(digits_ok(a_str@));
            assert(t == time_of(a_str@));
        }
        Some(t)
    }
}

proof fn lemma_digit_char_val(d: int)
    requires
        0 <= d <= 9,
    ensures
        is_digit(digit_char(d)),
        digit_val(digit_char(d)) == d,
{
}

proof fn lemma_digits2(n: int)
    requires
        0 <= n <= 99,
    ensures
        (n / 10) * 10 + n % 10 == n,
        n / 10 <= 9,
        n % 10 <= 9,
{
    assert((n / 10) * 10 + n % 10 == n && n / 10 <= 9 && n % 10 <= 9) by (nonlinear_arith)
        requires
            0 <= n <= 99,
    ;
}

proof fn lemma_digits4(n: int)
    requires
        0 <= n <= 9999,
    ensures
        (n / 1000) * 1000 + ((n % 1000) / 100) * 100 + ((n % 100) / 10) * 10 + n % 10 == n,
        n / 1000 <= 9,
        (n % 1000) / 100 <= 9,
        (n % 100) / 10 <= 9,
        n % 10 <= 9,
{
    assert((n / 1000) * 1000 + ((n % 1000) / 100) * 100 + ((n % 100) / 10) * 10 + n % 10 == n
        && n / 1000 <= 9 && (n % 1000) / 100 <= 9 && (n % 100) / 10 <= 9 && n % 10 <= 9)
        by (nonlinear_arith)
        requires
            0 <= n <= 9999,
    ;
}

/// One step of decimal decomposition: within `n % (10 * p)`, the digit at
/// weight `p` and the remainder below it.
proof fn lemma_split_digit(n: int, p: int)
    requires
        0 <= n,
        0 < p,
    ensures
        n % (10 * p) == ((n % (10 * p)) / p) * p + n % p,
        0 <= (n % (10 * p)) / p <= 9,
{
    vstd::arithmetic::div_mod::lemma_mod_mod(n, p, 10);
    assert(p * 10 == 10 * p) by (nonlinear_arith);
    let m = n % (10 * p);
    vstd::arithmetic::div_mod::lemma_mod_division_less_than_divisor(n, 10 * p);
    vstd::arithmetic::div_mod::lemma_fundamental_div_mod(m, p);
    vstd::arithmetic::div_mod::lemma_div_pos_is_pos(m, p);
    assert(m < p * 10) by (nonlinear_arith)
        requires
            m < 10 * p,
    ;
    vstd::arithmetic::div_mod::lemma_multiply_divide_lt(m, p, 10);
    assert(m == (m / p) * p + n % p) by (nonlinear_arith)
        requires
            m == p * (m / p) + m % p,
            m % p == n % p,
    ;
}

proof fn lemma_digits9(n: int)
    requires
        0 <= n <= 999999999,
    ensures
        (n / 100000000) * 100000000 + ((n % 100000000) / 10000000) * 10000000 + ((n % 10000000)
            / 1000000) * 1000000 + ((n % 1000000) / 100000) * 100000 + ((n % 100000) / 10000)
            * 10000 + ((n % 10000) / 1000) * 1000 + ((n % 1000) / 100) * 100 + ((n % 100) / 10)
            * 10 + n % 10 == n,
        n / 100000000 <= 9,
        (n % 100000000) / 10000000 <= 9,
        (n % 10000000) / 1000000 <= 9,
        (n % 1000000) / 100000 <= 9,
        (n % 100000) / 10000 <= 9,
        (n % 10000) / 1000 <= 9,
        (n % 1000) / 100 <= 9,
        (n % 100) / 10 <= 9,
        n % 10 <= 9,
{
    vstd::arithmetic::div_mod::lemma_fundamental_div_mod(n, 100000000);
    vstd::arithmetic::div_mod::lemma_div_pos_is_pos(n, 100000000);
    assert(n < 100000000 * 10) by (nonlinear_arith)
        requires
            n <= 999999999,
    ;
    vstd::arithmetic::div_mod::lemma_multiply_divide_lt(n, 100000000, 10);
    lemma_split_digit(n, 10000000);
    lemma_split_digit(n, 1000000);
    lemma_split_digit(n, 100000);
    lemma_split_digit(n, 10000);
    lemma_split_digit(n, 1000);
    lemma_split_digit(n, 100);
    lemma_split_digit(n, 10);
    vstd::arithmetic::div_mod::lemma_mod_division_less_than_divisor(n, 10);
}

/// Formatting a well-formed instant yields a canonical timestamp, and
/// parsing that timestamp yields the instant back: the canonical form is
/// a faithful, invertible picture of the instant.
pub proof fn lemma_format_round_trip(t: Time)
    requires
        t.wf(),
    ensures
        canonical(t.format_spec()),
        time_of(t.format_spec()) == t,
{
    let s = t.format_spec();
    lemma_digits4(t.year as int);
    lemma_digits2(t.month as int);
    lemma_digits2(t.day as int);
    lemma_digits2(t.hour as int);
    lemma_digits2(t.minute as int);
    lemma_digits2(t.second as int);
    lemma_digits9(t.nanos as int);
    assert forall|i: int| 0 <= i < 29 && !sep_pos(i) implies is_digit(#[trigger] s[i]) by {
        assert(0 <= digit_val(s[i]) <= 9 && is_digit(s[i])) by {
            if i == 0 {
                lemma_digit_char_val(t.year as int / 1000);
            } else if i == 1 {
                lemma_digit_char_val((t.year as int % 1000) / 100);
            } else if i == 2 {
                lemma_digit_char_val((t.year as int % 100) / 10);
            } else if i == 3 {
                lemma_digit_char_val(t.year as int % 10);
            } else if i == 5 {
                lemma_digit_char_val(t.month as int / 10);
            } else if i == 6 {
                lemma_digit_char_val(t.month as int % 10);
            } else if i == 8 {
                lemma_digit_char_val(t.day as int / 10);
            } else if i == 9 {
                lemma_digit_char_val(t.day as int % 10);
            } else if i == 11 {
                lemma_digit_char_val(t.hour as int / 10);
            } else if i == 12 {
                lemma_digit_char_val(t.hour as int % 10);
            } else if i == 14 {
                lemma_digit_char_val(t.minute as int / 10);
            } else if i == 15 {
                lemma_digit_char_val(t.minute as int % 10);
            } else if i == 17 {
                lemma_digit_char_val(t.second as int / 10);
            } else if i == 18 {
                lemma_digit_char_val(t.second as int % 10);
            } else if i == 20 {
                lemma_digit_char_val(t.nanos as int / 100000000);
            } else if i == 21 {
                lemma_digit_char_val((t.nanos as int % 100000000) / 10000000);
            } else if i == 22 {
                lemma_digit_char_val((t.nanos as int % 10000000) / 1000000);
            } else if i == 23 {
                lemma_digit_char_val((t.nanos as int % 1000000) / 100000);
            } else if i == 24 {
                lemma_digit_char_val((t.nanos as int % 100000) / 10000);
            } else if i == 25 {
                lemma_digit_char_val((t.nanos as int % 10000) / 1000);
            } else if i == 26 {
                lemma_digit_char_val((t.nanos as int % 1000) / 100);
            } else if i == 27 {
                lemma_digit_char_val((t.nanos as int % 100) / 10);
            } else {
                lemma_digit_char_val(t.nanos as int % 10);
            }
        };
    };
    lemma_digit_char_val(t.year as int / 1000);
    lemma_digit_char_val((t.year as int % 1000) / 100);
    lemma_digit_char_val((t.year as int % 100) / 10);
    lemma_digit_char_val(t.year as int % 10);
    lemma_digit_char_val(t.month as int / 10);
    lemma_digit_char_val(t.month as int % 10);
    lemma_digit_char_val(t.day as int / 10);
    lemma_digit_char_val(t.day as int % 10);
    lemma_digit_char_val(t.hour as int / 10);
    lemma_digit_char_val(t.hour as int % 10);
    lemma_digit_char_val(t.minute as int / 10);
    lemma_digit_char_val(t.minute as int % 10);
    lemma_digit_char_val(t.second as int / 10);
    lemma_digit_char_val(t.second as int % 10);
    lemma_digit_char_val(t.nanos as int / 100000000);
    lemma_digit_char_val((t.nanos as int % 100000000) / 10000000);
    lemma_digit_char_val((t.nanos as int % 10000000) / 1000000);
    lemma_digit_char_val((t.nanos as int % 1000000) / 100000);
    lemma_digit_char_val((t.nanos as int % 100000) / 10000);
    lemma_digit_char_val((t.nanos as int % 10000) / 1000);
    lemma_digit_char_val((t.nanos as int % 1000) / 100);
    lemma_digit_char_val((t.nanos as int % 100) / 10);
    lemma_digit_char_val(t.nanos as int % 10);
    assert(num4(s, 0) == t.year as int);
    assert(num2(s, 5) == t.month as int);
    assert(num2(s, 8) == t.day as int);
    assert(num2(s, 11) == t.hour as int);
    assert(num2(s, 14) == t.minute as int);
    assert(num2(s, 17) == t.second as int);
    assert(num9(s, 20) == t.nanos as int);
}

/// The two-digit zero-padded form of `n`.
pub open spec fn pad2(n: int) -> Seq<char> {
    seq![digit_char(n / 10), digit_char(n % 10)]
}

/// The four-digit zero-padded form of `n`.
pub open spec fn pad4(n: int) -> Seq<char> {
    seq![
        digit_char(n / 1000),
        digit_char((n % 1000) / 100),
        digit_char((n % 100) / 10),
        digit_char(n % 10),
    ]
}

/// The nine-digit zero-padded form of `n`.
pub open spec fn pad9(n: int) -> Seq<char> {
    seq![
        digit_char(n / 100000000),
        digit_char((n % 100000000) / 10000000),
        digit_char((n % 10000000) / 1000000),
        digit_char((n % 1000000) / 100000),
        digit_char((n % 100000) / 10000),
        digit_char((n % 10000) / 1000),
        digit_char((n % 1000) / 100),
        digit_char((n % 100) / 10),
        digit_char(n % 10),
    ]
}

/// Digit characters order exactly as their values do.
proof fn lemma_digit_char_order(u: int, v: int)
    requires
        0 <= u <= 9,
        0 <= v <= 9,
    ensures
        ((digit_char(u) as u32) < (digit_char(v) as u32)) == (u < v),
        (digit_char(u) == digit_char(v)) == (u == v),
{
}

/// A lexicographic comparison of two same-length-prefixed strings is
/// decided in the prefixes when they differ, and past them when not.
proof fn lemma_lex_segments(p1: Seq<char>, s1: Seq<char>, p2: Seq<char>, s2: Seq<char>)
    requires
        p1.len() == p2.len(),
    ensures
        p1 == p2 ==> crate::text::lex_lt(p1 + s1, p2 + s2) == crate::text::lex_lt(s1, s2),
        p1 != p2 ==> crate::text::lex_lt(p1 + s1, p2 + s2) == crate::text::lex_lt(p1, p2),
    decreases p1.len(),
{
    if p1.len() == 0 {
        assert(p1 =~= p2);
        assert(p1 + s1 =~= s1);
        assert(p2 + s2 =~= s2);
    } else {
        let c1 = (p1 + s1)[0];
        let c2 = (p2 + s2)[0];
        assert(c1 == p1[0] && c2 == p2[0]);
        if p1[0] == p2[0] {
            lemma_lex_segments(p1.drop_first(), s1, p2.drop_first(), s2);
            assert((p1 + s1).drop_first() =~= p1.drop_first() + s1);
            assert((p2 + s2).drop_first() =~= p2.drop_first() + s2);
            if p1.drop_first() == p2.drop_first() {
                assert forall|i: int| 1 <= i < p1.len() implies p1[i] == p2[i] by {
                    assert(p1.drop_first()[i - 1] == p2.drop_first()[i - 1]);
                };
                assert(p1 =~= p2);
            } else {
                assert(p1 != p2);
            }
        } else {
            assert(p1 != p2);
        }
    }
}

/// Whether every character of `s` is a decimal digit.
pub open spec fn all_digits(s: Seq<char>) -> bool {
    forall|i: int| 0 <= i < s.len() ==> is_digit(#[trigger] s[i])
}

/// The number a digit string spells.
pub open spec fn digits_value(s: Seq<char>) -> int
    decreases s.len(),
{
    if s.len() == 0 {
        0
    } else {
        digits_value(s.drop_last()) * 10 + digit_val(s.last())
    }
}

/// Reading a digit string from the front: the first digit carries the
/// highest weight.
proof fn lemma_digits_value_front(s: Seq<char>)
    requires
        s.len() > 0,
    ensures
        digits_value(s) == digit_val(s[0]) * pow10(s.len() - 1) + digits_value(s.drop_first()),
    decreases s.len(),
{
    if s.len() == 1 {
        assert(s.drop_last() =~= Seq::<char>::empty());
        assert(s.drop_first() =~= Seq::<char>::empty());
    } else {
        lemma_digits_value_front(s.drop_last());
        assert(s.drop_last().drop_first() =~= s.drop_first().drop_last());
        assert(s.drop_last()[0] == s[0]);
        assert(s.drop_first().last() == s.last());
        let k = s.len() - 2;
        assert(digits_value(s.drop_last()) == digit_val(s[0]) * pow10(k) + digits_value(
            s.drop_first().drop_last(),
        ));
        assert(digit_val(s[0]) * pow10(k) * 10 == digit_val(s[0]) * (10 * pow10(k)))
            by (nonlinear_arith);
        assert(pow10(k + 1) == 10 * pow10(k));
    }
}

/// A digit string of length `n` spells a number below `10^n`.
proof fn lemma_digits_value_bound(s: Seq<char>)
    requires
        all_digits(s),
    ensures
        0 <= digits_value(s) < pow10(s.len() as int),
    decreases s.len(),
{
    if s.len() == 0 {
    } else {
        lemma_digits_value_bound(s.drop_last());
        assert(is_digit(s.last()));
        assert(pow10(s.len() as int) == 10 * pow10(s.len() - 1));
    }
}

/// Digit strings of one length order lexicographically exactly as the
/// numbers they spell.
proof fn lemma_digit_string_order(s1: Seq<char>, s2: Seq<char>)
    requires
        s1.len() == s2.len(),
        all_digits(s1),
        all_digits(s2),
    ensures
        crate::text::lex_lt(s1, s2) == (digits_value(s1) < digits_value(s2)),
        (s1 == s2) == (digits_value(s1) == digits_value(s2)),
    decreases s1.len(),
{
    if s1.len() == 0 {
        assert(s1 =~= s2);
    } else {
        lemma_digits_value_front(s1);
        lemma_digits_value_front(s2);
        lemma_digits_value_bound(s1.drop_first());
        lemma_digits_value_bound(s2.drop_first());
        lemma_pow10_pos(s1.len() - 1);
        lemma_digit_string_order(s1.drop_first(), s2.drop_first());
        let d = digit_val(s1[0]);
        let e = digit_val(s2[0]);
        let p = pow10(s1.len() - 1);
        lemma_digit_char_order(d, e);
        assert(is_digit(s1[0]) && is_digit(s2[0]));
        if d < e {
            assert(d * p + digits_value(s1.drop_first()) < e * p + digits_value(s2.drop_first()))
                by (nonlinear_arith)
                requires
                    d < e,
                    0 <= digits_value(s1.drop_first()) < p,
                    0 <= digits_value(s2.drop_first()),
                    0 < p,
            ;
            assert(s1[0] != s2[0]);
            assert((s1[0] as u32) < (s2[0] as u32));
        } else if e < d {
            assert(e * p + digits_value(s2.drop_first()) < d * p + digits_value(s1.drop_first()))
                by (nonlinear_arith)
                requires
                    e < d,
                    0 <= digits_value(s2.drop_first()) < p,
                    0 <= digits_value(s1.drop_first()),
                    0 < p,
            ;
            assert(s1[0] != s2[0]);
            assert(!((s1[0] as u32) < (s2[0] as u32)));
        } else {
            assert((s1[0] as u32) == (s2[0] as u32));
            crate::text::lemma_char_code_injective(s1[0], s2[0]);
            assert(s1[0] == s2[0]);
            if s1.drop_first() == s2.drop_first() {
                assert forall|i: int| 1 <= i < s1.len() implies s1[i] == s2[i] by {
                    assert(s1.drop_first()[i - 1] == s2.drop_first()[i - 1]);
                };
                assert(s1 =~= s2);
            }
        }
    }
}
/// `pad2(n)` is a digit string spelling `n`.
proof fn lemma_pad2_value(n: int)
    requires
        0 <= n <= 99,
    ensures
        pad2(n).len() == 2,
        all_digits(pad2(n)),
        digits_value(pad2(n)) == n,
{
    reveal_with_fuel(digits_value, 4);
    lemma_digits2(n);
    lemma_digit_char_val(n / 10);
    lemma_digit_char_val(n % 10);
    let s = pad2(n);
    assert forall|i: int| 0 <= i < s.len() implies is_digit(#[trigger] s[i]) by {
        if i == 0 {
            assert(s[0] == digit_char(n / 10));
        } else {
            assert(s[1] == digit_char(n % 10));
        }
    };
    assert(s.drop_last() =~= seq![digit_char(n / 10)]);
    assert(seq![digit_char(n / 10)].drop_last() =~= Seq::<char>::empty());
}

/// `pad4(n)` is a digit string spelling `n`.
proof fn lemma_pad4_value(n: int)
    requires
        0 <= n <= 9999,
    ensures
        pad4(n).len() == 4,
        all_digits(pad4(n)),
        digits_value(pad4(n)) == n,
{
    reveal_with_fuel(digits_value, 6);
    lemma_digits4(n);
    lemma_digit_char_val(n / 1000);
    lemma_digit_char_val((n % 1000) / 100);
    lemma_digit_char_val((n % 100) / 10);
    lemma_digit_char_val(n % 10);
    let s = pad4(n);
    assert forall|i: int| 0 <= i < s.len() implies is_digit(#[trigger] s[i]) by {
        if i == 0 {
            assert(s[0] == digit_char(n / 1000));
        } else if i == 1 {
            assert(s[1] == digit_char((n % 1000) / 100));
        } else if i == 2 {
            assert(s[2] == digit_char((n % 100) / 10));
        } else {
            assert(s[3] == digit_char(n % 10));
        }
    };
    let s3 = seq![s[0], s[1], s[2]];
    let s2 = seq![s[0], s[1]];
    let s1 = seq![s[0]];
    assert(s.drop_last() =~= s3);
    assert(s3.drop_last() =~= s2);
    assert(s2.drop_last() =~= s1);
    assert(s1.drop_last() =~= Seq::<char>::empty());
}

/// `pad9(n)` is a digit string spelling `n`.
proof fn lemma_pad9_value(n: int)
    requires
        0 <= n <= 999999999,
    ensures
        pad9(n).len() == 9,
        all_digits(pad9(n)),
        digits_value(pad9(n)) == n,
{
    reveal_with_fuel(digits_value, 11);
    lemma_digits9(n);
    lemma_digit_char_val(n / 100000000);
    lemma_digit_char_val((n % 100000000) / 10000000);
    lemma_digit_char_val((n % 10000000) / 1000000);
    lemma_digit_char_val((n % 1000000) / 100000);
    lemma_digit_char_val((n % 100000) / 10000);
    lemma_digit_char_val((n % 10000) / 1000);
    lemma_digit_char_val((n % 1000) / 100);
    lemma_digit_char_val((n % 100) / 10);
    lemma_digit_char_val(n % 10);
    let s = pad9(n);
    assert forall|i: int| 0 <= i < s.len() implies is_digit(#[trigger] s[i]) by {
        if i == 0 {
            assert(s[0] == digit_char(n / 100000000));
        } else if i == 1 {
            assert(s[1] == digit_char((n % 100000000) / 10000000));
        } else if i == 2 {
            assert(s[2] == digit_char((n % 10000000) / 1000000));
        } else if i == 3 {
            assert(s[3] == digit_char((n % 1000000) / 100000));
        } else if i == 4 {
            assert(s[4] == digit_char((n % 100000) / 10000));
        } else if i == 5 {
            assert(s[5] == digit_char((n % 10000) / 1000));
        } else if i == 6 {
            assert(s[6] == digit_char((n % 1000) / 100));
        } else if i == 7 {
            assert(s[7] == digit_char((n % 100) / 10));
        } else {
            assert(s[8] == digit_char(n % 10));
        }
    };
    let s8 = seq![s[0], s[1], s[2], s[3], s[4], s[5], s[6], s[7]];
    let s7 = seq![s[0], s[1], s[2], s[3], s[4], s[5], s[6]];
    let s6 = seq![s[0], s[1], s[2], s[3], s[4], s[5]];
    let s5 = seq![s[0], s[1], s[2], s[3], s[4]];
    let s4 = seq![s[0], s[1], s[2], s[3]];
    let s3 = seq![s[0], s[1], s[2]];
    let s2 = seq![s[0], s[1]];
    let s1 = seq![s[0]];
    assert(s.drop_last() =~= s8);
    assert(s8.drop_last() =~= s7);
    assert(s7.drop_last() =~= s6);
    assert(s6.drop_last() =~= s5);
    assert(s5.drop_last() =~= s4);
    assert(s4.drop_last() =~= s3);
    assert(s3.drop_last() =~= s2);
    assert(s2.drop_last() =~= s1);
    assert(s1.drop_last() =~= Seq::<char>::empty());
}

/// The earlier calendar field decides the chronological order: a
/// strictly smaller year, or equal years and a smaller month, and so on
/// down the fields, gives a strictly smaller epoch second.
proof fn lemma_field_order(a: Time, b: Time)
    requires
        a.wf(),
        b.wf(),
    ensures
        a.year < b.year ==> a.epoch_secs() < b.epoch_secs(),
        a.year == b.year && a.month < b.month ==> a.epoch_secs() < b.epoch_secs(),
        a.year == b.year && a.month == b.month && a.day < b.day ==> a.epoch_secs()
            < b.epoch_secs(),
{
    lemma_epoch_bounds(a);
    lemma_epoch_bounds(b);
    let ya = a.year as int;
    let yb = b.year as int;
    if a.year < b.year {
        lemma_days_before_month_mono(a.year as int, a.month as int + 1, 13);
        lemma_year_months_sum(ya);
        assert(a.day_index() < days_before_year(ya) + days_in_year(ya));
        lemma_days_before_year_mono(ya + 1, yb);
        lemma_days_before_month_mono(b.year as int, 1, b.month as int);
        assert(b.day_index() >= days_before_year(yb));
        assert(a.day_index() < b.day_index());
    }
    if a.year == b.year && a.month < b.month {
        lemma_days_before_month_mono(a.year as int, a.month as int + 1, b.month as int);
        assert(a.day_index() < b.day_index());
    }
    if a.year == b.year && a.month == b.month && a.day < b.day {
        assert(a.day_index() < b.day_index());
    }
    if a.day_index() < b.day_index() {
        assert(a.epoch_secs() < b.epoch_secs()) by (nonlinear_arith)
            requires
                a.day_index() < b.day_index(),
                a.epoch_secs() == a.day_index() * 86400 + a.hour * 3600 + a.minute * 60 + a.second,
                b.epoch_secs() == b.day_index() * 86400 + b.hour * 3600 + b.minute * 60 + b.second,
                a.hour <= 23,
                a.minute <= 59,
                a.second <= 59,
                0 <= b.hour,
                0 <= b.minute,
                0 <= b.second,
        ;
    }
}

/// The canonical strings order exactly as the instants do: comparing
/// two timestamps as text is comparing them as points in time. This is
/// what lets the retention engine and the expiry check read
/// lexicographic order as chronological order.
#[verifier::rlimit(100)]
pub proof fn lemma_string_order_matches_time_order(a: Time, b: Time)
    requires
        a.wf(),
        b.wf(),
    ensures
        crate::text::lex_lt(a.format_spec(), b.format_spec()) == a.before_spec(b),
{
    let sep_dash = seq!['-'];
    let sep_under = seq!['_'];
    let sep_dot = seq!['.'];

    let ya = pad4(a.year as int);
    let moa = pad2(a.month as int);
    let da = pad2(a.day as int);
    let ha = pad2(a.hour as int);
    let mia = pad2(a.minute as int);
    let sa = pad2(a.second as int);
    let nsa = pad9(a.nanos as int);
    let t8a = sep_dot + nsa;
    let t7a = sa + t8a;
    let t6a = sep_dash + t7a;
    let t5a = mia + t6a;
    let t4a = sep_dash + t5a;
    let t3a = ha + t4a;
    let t2a = sep_under + t3a;
    let t1a = da + t2a;
    let t0a = sep_dash + t1a;
    let u1a = moa + t0a;
    let u0a = sep_dash + u1a;

    let yb = pad4(b.year as int);
    let mob = pad2(b.month as int);
    let db = pad2(b.day as int);
    let hb = pad2(b.hour as int);
    let mib = pad2(b.minute as int);
    let sb = pad2(b.second as int);
    let nsb = pad9(b.nanos as int);
    let t8b = sep_dot + nsb;
    let t7b = sb + t8b;
    let t6b = sep_dash + t7b;
    let t5b = mib + t6b;
    let t4b = sep_dash + t5b;
    let t3b = hb + t4b;
    let t2b = sep_under + t3b;
    let t1b = db + t2b;
    let t0b = sep_dash + t1b;
    let u1b = mob + t0b;
    let u0b = sep_dash + u1b;

    assert(a.format_spec() =~= ya + u0a);
    assert(b.format_spec() =~= yb + u0b);

    lemma_pad4_value(a.year as int);
    lemma_pad4_value(b.year as int);
    lemma_pad2_value(a.month as int);
    lemma_pad2_value(b.month as int);
    lemma_pad2_value(a.day as int);
    lemma_pad2_value(b.day as int);
    lemma_pad2_value(a.hour as int);
    lemma_pad2_value(b.hour as int);
    lemma_pad2_value(a.minute as int);
    lemma_pad2_value(b.minute as int);
    lemma_pad2_value(a.second as int);
    lemma_pad2_value(b.second as int);
    lemma_pad9_value(a.nanos as int);
    lemma_pad9_value(b.nanos as int);

    lemma_digit_string_order(ya, yb);
    lemma_digit_string_order(moa, mob);
    lemma_digit_string_order(da, db);
    lemma_digit_string_order(ha, hb);
    lemma_digit_string_order(mia, mib);
    lemma_digit_string_order(sa, sb);
    lemma_digit_string_order(nsa, nsb);

    lemma_field_order(a, b);
    lemma_field_order(b, a);

    let lex = crate::text::lex_lt(a.format_spec(), b.format_spec());
    lemma_lex_segments(ya, u0a, yb, u0b);
    if a.year != b.year {
        assert(lex == (a.year < b.year));
    } else {
        assert(ya == yb);
        lemma_lex_segments(sep_dash, u1a, sep_dash, u1b);
        lemma_lex_segments(moa, t0a, mob, t0b);
        if a.month != b.month {
            assert(lex == (a.month < b.month));
        } else {
            lemma_lex_segments(sep_dash, t1a, sep_dash, t1b);
            lemma_lex_segments(da, t2a, db, t2b);
            if a.day != b.day {
                assert(lex == (a.day < b.day));
            } else {
                lemma_lex_segments(sep_under, t3a, sep_under, t3b);
                lemma_lex_segments(ha, t4a, hb, t4b);
                if a.hour != b.hour {
                    assert(lex == (a.hour < b.hour));
                } else {
                    lemma_lex_segments(sep_dash, t5a, sep_dash, t5b);
                    lemma_lex_segments(mia, t6a, mib, t6b);
                    if a.minute != b.minute {
                        assert(lex == (a.minute < b.minute));
                    } else {
                        lemma_lex_segments(sep_dash, t7a, sep_dash, t7b);
                        lemma_lex_segments(sa, t8a, sb, t8b);
                        if a.second != b.second {
                            assert(lex == (a.second < b.second));
                        } else {
                            lemma_lex_segments(sep_dot, nsa, sep_dot, nsb);
                            assert(lex == (a.nanos < b.nanos));
                            assert(a.epoch_secs() == b.epoch_secs());
                        }
                    }
                }
            }
        }
    }
}

/// Artifact names that begin with canonical timestamps order as those
/// timestamps do, whatever suffix follows: the lexicographically last
/// such name is the chronologically newest, which is what lets a
/// retention pass pick survivors by comparing names.
pub proof fn lemma_stamped_names_order(a: Time, b: Time, sa: Seq<char>, sb: Seq<char>)
    requires
        a.wf(),
        b.wf(),
        a != b,
    ensures
        crate::text::lex_lt(a.format_spec() + sa, b.format_spec() + sb) == a.before_spec(b),
{
    lemma_format_round_trip(a);
    lemma_format_round_trip(b);
    assert(a.format_spec() != b.format_spec()) by {
        if a.format_spec() == b.format_spec() {
            assert(time_of(a.format_spec()) == time_of(b.format_spec()));
        }
    };
    lemma_lex_segments(a.format_spec(), sa, b.format_spec(), sb);
    lemma_string_order_matches_time_order(a, b);
}

pub open spec fn num_prefix(s: Seq<char>, from: int, to: int) -> int
    decreases to - from,
{
    if to <= from {
        0
    } else {
        num_prefix(s, from, to - 1) * 10 + digit_val(s[to - 1])
    }
}

pub open spec fn pow10(k: int) -> int
    decreases k,
{
    if k <= 0 {
        1
    } else {
        10 * pow10(k - 1)
    }
}

proof fn lemma_pow10_pos(k: int)
    ensures
        pow10(k) >= 1,
    decreases k,
{
    if k > 0 {
        lemma_pow10_pos(k - 1);
    }
}

proof fn lemma_pow10_mono(a: int, b: int)
    requires
        a <= b,
    ensures
        1 <= pow10(a) <= pow10(b),
    decreases b - a,
{
    lemma_pow10_pos(a);
    if a < b {
        lemma_pow10_mono(a, b - 1);
        lemma_pow10_pos(b - 1);
    }
}

} // verus!
