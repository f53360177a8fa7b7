//! Points in time, to the nanosecond, and their calendar text.

use crate::text::text_less;
use chrono::{DateTime, NaiveDateTime};
use vstd::prelude::*;
use vstd::string::*;

verus! {

/// The earliest second that the calendar covers: the start of the year 262144 BCE.
pub const MIN_SECONDS: i64 = -8_334_601_228_800;

/// The latest second that the calendar covers: the end of the year 262142.
pub const MAX_SECONDS: i64 = 8_210_266_876_799;

/// The longest span, in seconds, that a configured duration may have.
pub const MAX_SPAN: i64 = 9_223_372_036_854_775;

/// The first second of the year 0.
pub const YEAR_0: i64 = -62_167_219_200;

/// The last second of the year 9999.
pub const END_OF_YEAR_9999: i64 = 253_402_300_799;

/// A point in time: seconds since the Unix epoch, not counting leap seconds, and nanoseconds
/// since then. During a leap second the nanoseconds go on from one to two thousand million.
#[derive(Clone, Copy, Debug, PartialEq, Eq, Structural)]
pub struct Timestamp {
    pub seconds: i64,
    pub nanos: u32,
}

/// The second of the hour start before or at `seconds`.
pub open spec fn hour_floor(seconds: int) -> int {
    seconds - seconds % 3600
}

impl Timestamp {
    /// Whether the calendar covers the point.
    pub open spec fn is_valid(self) -> bool {
        &&& MIN_SECONDS <= self.seconds <= MAX_SECONDS
        &&& self.nanos < 2_000_000_000
        &&& self.nanos >= 1_000_000_000 ==> self.seconds as int % 60 == 59
    }

    /// Whether the point lies in a leap second.
    pub open spec fn is_leap(self) -> bool {
        self.nanos >= 1_000_000_000
    }

    /// Whether the point is before `other`.
    pub open spec fn is_before(self, other: Timestamp) -> bool {
        self.seconds < other.seconds || (self.seconds == other.seconds && self.nanos
            < other.nanos)
    }

    /// The point `delta` seconds later. Leaving a leap second, the point counts as one in the
    /// second after it on the way back and in the second before it on the way forth.
    pub open spec fn shifted(self, delta: int) -> Timestamp {
        if !self.is_leap() || delta == 0 {
            Timestamp { seconds: (self.seconds + delta) as i64, nanos: self.nanos }
        } else if delta > 0 {
            Timestamp {
                seconds: (self.seconds + delta) as i64,
                nanos: (self.nanos - 1_000_000_000) as u32,
            }
        } else {
            Timestamp {
                seconds: (self.seconds + 1 + delta) as i64,
                nanos: (self.nanos - 1_000_000_000) as u32,
            }
        }
    }

    /// The start of the second.
    pub open spec fn whole(self) -> Timestamp {
        Timestamp { seconds: self.seconds, nanos: 0 }
    }

    /// The whole seconds, toward zero, from `earlier` to the point. A leap second counts where
    /// it lies between the two times of day.
    pub open spec fn seconds_after(self, earlier: Timestamp) -> int {
        let day = self.seconds as int % 86_400;
        let earlier_day = earlier.seconds as int % 86_400;
        let leap: int = if day > earlier_day && earlier.is_leap() {
            1
        } else if day < earlier_day && self.is_leap() {
            -1
        } else {
            0
        };
        let fraction = self.nanos - earlier.nanos;
        let span = self.seconds - earlier.seconds + leap + fraction / 1_000_000_000;
        if span < 0 && fraction % 1_000_000_000 > 0 {
            span + 1
        } else {
            span
        }
    }

    /// Whether the calendar covers the point.
    pub fn valid(self) -> (valid: bool)
        ensures
            valid == self.is_valid(),
    {
        MIN_SECONDS <= self.seconds && self.seconds <= MAX_SECONDS && self.nanos < 2_000_000_000
            && (self.nanos < 1_000_000_000 || euclid(self.seconds, 60) == 59)
    }

    /// Whether the point is before `other`.
    pub fn before(self, other: Timestamp) -> (earlier: bool)
        ensures
            earlier == self.is_before(other),
    {
        self.seconds < other.seconds || (self.seconds == other.seconds && self.nanos
            < other.nanos)
    }

    /// The point `delta` seconds later.
    pub fn shift(self, delta: i64) -> (later: Timestamp)
        requires
            self.is_valid(),
            -MAX_SPAN <= delta <= MAX_SPAN,
        ensures
            later == self.shifted(delta as int),
    {
        if self.nanos < 1_000_000_000 || delta == 0 {
            Timestamp { seconds: self.seconds + delta, nanos: self.nanos }
        } else if delta > 0 {
            Timestamp { seconds: self.seconds + delta, nanos: self.nanos - 1_000_000_000 }
        } else {
            Timestamp { seconds: self.seconds + 1 + delta, nanos: self.nanos - 1_000_000_000 }
        }
    }

    /// The start of the second.
    pub fn truncate(self) -> (start: Timestamp)
        ensures
            start == self.whole(),
    {
        Timestamp { seconds: self.seconds, nanos: 0 }
    }

    /// The whole seconds, toward zero, since `earlier`.
    pub fn since(self, earlier: Timestamp) -> (span: i64)
        requires
            self.is_valid(),
            earlier.is_valid(),
        ensures
            span == self.seconds_after(earlier),
    {
        seconds_between(self, earlier)
    }
}

/// chrono's difference of two `DateTime<Utc>` and its `TimeDelta::num_seconds`: the whole seconds
/// between the two, toward zero, counted as [`Timestamp::seconds_after`] says.
#[verifier::external_body]
pub(crate) fn seconds_between(later: Timestamp, earlier: Timestamp) -> (span: i64)
    requires
        later.is_valid(),
        earlier.is_valid(),
    ensures
        span == later.seconds_after(earlier),
{
    let end = DateTime::from_timestamp(later.seconds, later.nanos).unwrap();
    let start = DateTime::from_timestamp(earlier.seconds, earlier.nanos).unwrap();
    (end - start).num_seconds()
}

/// The remainder of `a`, never negative.
fn euclid(a: i64, m: i64) -> (rest: i64)
    requires
        0 < m <= 1_000_000,
        MIN_SECONDS <= a <= MAX_SECONDS,
    ensures
        rest == a as int % m as int,
{
    let base: i64 = a - MIN_SECONDS;
    let offset: i64 = m - (-MIN_SECONDS) % m;
    let rest = (base % m + offset) % m;
    proof {
        lemma_euclid(a as int, MIN_SECONDS as int, m as int);
    }
    rest
}

proof fn lemma_euclid(a: int, low: int, m: int)
    requires
        m > 0,
        low <= a,
        low <= 0,
    ensures
        ((a - low) % m + (m - (-low) % m)) % m == a % m,
{
    vstd::arithmetic::div_mod::lemma_fundamental_div_mod(a - low, m);
    vstd::arithmetic::div_mod::lemma_fundamental_div_mod(-low, m);
    let q = (a - low) / m;
    let p = (-low) / m;
    let x = (a - low) % m + (m - (-low) % m);
    assert(x == a + m * (p - q + 1)) by (nonlinear_arith)
        requires
            a - low == m * q + (a - low) % m,
            -low == m * p + (-low) % m,
            x == (a - low) % m + (m - (-low) % m),
    ;
    vstd::arithmetic::div_mod::lemma_mod_multiples_vanish(p - q + 1, a, m);
}

// ---------------------------------------------------------------------------------------------
// Calendar text
// ---------------------------------------------------------------------------------------------

/// What chrono's `format` writes for a point of UTC time, given by its seconds and nanoseconds,
/// and a pattern.
pub uninterp spec fn utc_text(seconds: i64, nanos: u32, pattern: Seq<char>) -> Seq<char>;

/// The seconds and nanoseconds of the UTC time that chrono's `NaiveDateTime::parse_from_str`
/// reads from a text by a pattern, if it reads one.
pub uninterp spec fn plain_time(text: Seq<char>, pattern: Seq<char>) -> Option<(i64, u32)>;

/// What chrono's `to_rfc3339` writes for a point of UTC time.
pub uninterp spec fn rfc3339_text(seconds: i64, nanos: u32) -> Seq<char>;

/// The seconds and nanoseconds of the UTC time that chrono's `parse_from_rfc3339` reads from a
/// text, if it reads one.
pub uninterp spec fn rfc3339_time(text: Seq<char>) -> Option<(i64, u32)>;

/// Whether `text` is the text of the hour's start, reads back as that start with `:00:00` behind
/// it, and comes before the texts of later hours, as far as the years have four digits.
pub open spec fn names_hour(text: Seq<char>, seconds: i64) -> bool {
    let start = hour_floor(seconds as int) as i64;
    &&& text == utc_text(start, 0, "%Y-%m-%dT%H"@)
    &&& forall|later: i64|
        YEAR_0 <= start < later <= END_OF_YEAR_9999 && later as int % 3600 == 0 ==> text_less(
            text,
            #[trigger] utc_text(later, 0, "%Y-%m-%dT%H"@),
        )
    &&& plain_time(text + ":00:00"@, "%Y-%m-%dT%H:%M:%S"@) == Some((start, 0u32))
}

/// chrono's `DateTime::<Utc>::format`, for a pattern of year, month, day and hour and one that
/// goes on to the minute. The text is a function of the time and the pattern. By the first
/// pattern it is the text of the hour's start, and with `:00:00` behind it
/// `NaiveDateTime::parse_from_str` reads it back as that start. Years from 0 to 9999 are written
/// with four digits, and months, days and hours with two, so that by the first pattern the text of
/// an hour in these years comes before that of every later one.
#[verifier::external_body]
pub(crate) fn format_utc(time: Timestamp, pattern: &str) -> (text: String)
    requires
        time.is_valid(),
        pattern@ == "%Y-%m-%dT%H"@ || pattern@ == "%Y-%m-%d %H:%M UTC"@,
    ensures
        text@ == utc_text(time.seconds, time.nanos, pattern@),
        pattern@ == "%Y-%m-%dT%H"@ ==> names_hour(text@, time.seconds),
{
    DateTime::from_timestamp(time.seconds, time.nanos).unwrap().format(pattern).to_string()
}

/// chrono's `NaiveDateTime::parse_from_str`, for a pattern of year, month, day, hour, minute and
/// second, taken as UTC: what it reads is a function of the text and the pattern, and the calendar
/// covers it.
#[verifier::external_body]
pub(crate) fn parse_plain(text: &str, pattern: &str) -> (time: Option<Timestamp>)
    requires
        pattern@ == "%Y-%m-%dT%H:%M:%S"@,
    ensures
        match time {
            Some(time) => plain_time(text@, pattern@) == Some((time.seconds, time.nanos))
                && time.is_valid(),
            None => plain_time(text@, pattern@) is None,
        },
{
    let time = NaiveDateTime::parse_from_str(text, pattern).ok()?.and_utc();
    Some(Timestamp { seconds: time.timestamp(), nanos: time.timestamp_subsec_nanos() })
}

/// chrono's `DateTime::<Utc>::to_rfc3339`: the text is a function of the time.
#[verifier::external_body]
pub(crate) fn to_rfc3339(time: Timestamp) -> (text: String)
    requires
        time.is_valid(),
    ensures
        text@ == rfc3339_text(time.seconds, time.nanos),
{
    DateTime::from_timestamp(time.seconds, time.nanos).unwrap().to_rfc3339()
}

/// chrono's `DateTime::parse_from_rfc3339`, taken to UTC: what it reads is a function of the
/// text, and the calendar covers it.
#[verifier::external_body]
pub(crate) fn parse_rfc3339(text: &str) -> (time: Option<Timestamp>)
    ensures
        match time {
            Some(time) => rfc3339_time(text@) == Some((time.seconds, time.nanos))
                && time.is_valid(),
            None => rfc3339_time(text@) is None,
        },
{
    let time = DateTime::parse_from_rfc3339(text).ok()?.to_utc();
    Some(Timestamp { seconds: time.timestamp(), nanos: time.timestamp_subsec_nanos() })
}

// ---------------------------------------------------------------------------------------------
// Laws
// ---------------------------------------------------------------------------------------------

/// Points in time are ordered: of two different ones exactly one is before the other, and the order
/// is transitive. It is that of the seconds, and within a second that of the nanoseconds.
pub proof fn law_time_is_ordered(a: Timestamp, b: Timestamp, c: Timestamp)
    ensures
        !(a.is_before(b) && b.is_before(a)),
        a == b || a.is_before(b) || b.is_before(a),
        a.is_before(b) && b.is_before(c) ==> a.is_before(c),
        a.seconds < b.seconds ==> a.is_before(b),
        a.seconds == b.seconds && a.nanos < b.nanos ==> a.is_before(b),
{
}

/// Outside leap seconds, shifting a point adds up, can be undone, keeps the order and the fraction,
/// and is what is then measured; the hour start is the latest full hour.
pub proof fn law_shifts_add_up(a: Timestamp, b: Timestamp, x: int, y: int)
    requires
        a.is_valid(),
        b.is_valid(),
        !a.is_leap(),
        !b.is_leap(),
        -MAX_SPAN <= x <= MAX_SPAN,
        -MAX_SPAN <= y <= MAX_SPAN,
    ensures
        a.shifted(x).seconds == a.seconds + x,
        a.shifted(x).nanos == a.nanos,
        a.shifted(x).shifted(y) == a.shifted(x + y),
        a.shifted(x).shifted(-x) == a,
        a.is_before(b) <==> a.shifted(x).is_before(b.shifted(x)),
        a.shifted(x).seconds_after(a) == x,
        x > 0 ==> a.is_before(a.shifted(x)),
        hour_floor(a.seconds as int) % 3600 == 0,
        hour_floor(a.seconds as int) <= a.seconds < hour_floor(a.seconds as int) + 3600,
        a.whole() == (Timestamp { seconds: a.seconds, nanos: 0 }),
{
}

/// A leap second belongs to the second before it on the way forth, and to the one after it on the
/// way back: shifted, a point in it counts as the one as far into the next second, less one second
/// on the way forth.
pub proof fn law_shifts_leave_leap_seconds(leap: Timestamp, delta: int)
    requires
        leap.is_valid(),
        leap.is_leap(),
        -MAX_SPAN <= delta <= MAX_SPAN,
    ensures
        ({
            let same = Timestamp {
                seconds: leap.seconds,
                nanos: (leap.nanos - 1_000_000_000) as u32,
            };
            let next = Timestamp {
                seconds: (leap.seconds + 1) as i64,
                nanos: (leap.nanos - 1_000_000_000) as u32,
            };
            &&& delta > 0 ==> leap.shifted(delta) == same.shifted(delta)
            &&& delta < 0 ==> leap.shifted(delta) == next.shifted(delta)
            &&& delta == 0 ==> leap.shifted(delta) == leap
        }),
{
}

} // verus!
