//! Calendar timestamps with second-and-finer resolution.
//!
//! A `Timestamp` holds a local calendar date and time as plain integer
//! fields, so that contracts can speak about ordering and formatting
//! directly.  The current time is read once, through a small trusted
//! wrapper around the `chrono` crate, and every other operation on
//! timestamps is verified.

use vstd::prelude::*;

verus! {

/// A local calendar date and time: year, month, day, hour, minute,
/// second and nanoseconds within the second.
#[derive(Clone, Copy, Debug, PartialEq, Eq, Structural)]
pub struct Timestamp {
    pub year: u32,
    pub month: u32,
    pub day: u32,
    pub hour: u32,
    pub minute: u32,
    pub second: u32,
    pub nanos: u32,
}

impl Timestamp {
    /// Every field lies in its calendar range; the year fits in four digits.
    pub open spec fn wf(self) -> bool {
        &&& self.year <= 9999
        &&& 1 <= self.month <= 12
        &&& 1 <= self.day <= 31
        &&& self.hour <= 23
        &&& self.minute <= 59
        &&& self.second <= 59
        &&& self.nanos <= 999_999_999
    }

    /// Lexicographic order on (year, month, day, hour, minute, second, nanos).
    pub open spec fn spec_le(self, other: Self) -> bool {
        if self.year != other.year {
            self.year < other.year
        } else if self.month != other.month {
            self.month < other.month
        } else if self.day != other.day {
            self.day < other.day
        } else if self.hour != other.hour {
            self.hour < other.hour
        } else if self.minute != other.minute {
            self.minute < other.minute
        } else if self.second != other.second {
            self.second < other.second
        } else {
            self.nanos <= other.nanos
        }
    }

    /// The later of the two instants, preferring `b` on a tie.
    pub open spec fn spec_later(a: Self, b: Self) -> Self {
        if a.spec_le(b) {
            b
        } else {
            a
        }
    }

    /// The instant both comparisons agree on: `le` is total and antisymmetric.
    pub fn le(&self, other: &Self) -> (r: bool)
        ensures
            r == self.spec_le(*other),
    {
        if self.year != other.year {
            self.year < other.year
        } else if self.month != other.month {
            self.month < other.month
        } else if self.day != other.day {
            self.day < other.day
        } else if self.hour != other.hour {
            self.hour < other.hour
        } else if self.minute != other.minute {
            self.minute < other.minute
        } else if self.second != other.second {
            self.second < other.second
        } else {
            self.nanos <= other.nanos
        }
    }

    /// The later of the two timestamps.
    pub fn later(&self, other: &Self) -> (r: Self)
        ensures
            r == Timestamp::spec_later(*self, *other),
            self.spec_le(r) && other.spec_le(r),
    {
        proof {
            lemma_le_total(*self, *other);
            lemma_le_refl(*self);
            lemma_le_refl(*other);
        }
        if self.le(other) {
            *other
        } else {
            *self
        }
    }

    /// Builds a timestamp, clamping every field into its calendar range.
    /// Fields already in range are kept as they are.
    pub fn clamped(
        year: i32,
        month: u32,
        day: u32,
        hour: u32,
        minute: u32,
        second: u32,
        nanos: u32,
    ) -> (r: Timestamp)
        ensures
            r.wf(),
            0 <= year <= 9999 ==> r.year == year,
            1 <= month <= 12 ==> r.month == month,
            1 <= day <= 31 ==> r.day == day,
            hour <= 23 ==> r.hour == hour,
            minute <= 59 ==> r.minute == minute,
            second <= 59 ==> r.second == second,
            nanos <= 999_999_999 ==> r.nanos == nanos,
    {
        let y: u32 = if year < 0 {
            0
        } else if year > 9999 {
            9999
        } else {
            year as u32
        };
        Timestamp {
            year: y,
            month: clamp_u32(month, 1, 12),
            day: clamp_u32(day, 1, 31),
            hour: clamp_u32(hour, 0, 23),
            minute: clamp_u32(minute, 0, 59),
            second: clamp_u32(second, 0, 59),
            nanos: clamp_u32(nanos, 0, 999_999_999),
        }
    }

    /// The current local time, clamped into the representable range.
    pub fn now() -> (r: Timestamp)
        ensures
            r.wf(),
    {
        let (year, month, day, hour, minute, second, nanos) = local_now_parts();
        Timestamp::clamped(year, month, day, hour, minute, second, nanos)
    }
}

fn clamp_u32(x: u32, lo: u32, hi: u32) -> (r: u32)
    requires
        lo <= hi,
    ensures
        lo <= r <= hi,
        lo <= x <= hi ==> r == x,
{
    if x < lo {
        lo
    } else if x > hi {
        hi
    } else {
        x
    }
}

pub proof fn lemma_le_refl(a: Timestamp)
    ensures
        a.spec_le(a),
{
}

pub proof fn lemma_le_total(a: Timestamp, b: Timestamp)
    ensures
        a.spec_le(b) || b.spec_le(a),
{
}

pub proof fn lemma_le_trans(a: Timestamp, b: Timestamp, c: Timestamp)
    requires
        a.spec_le(b),
        b.spec_le(c),
    ensures
        a.spec_le(c),
{
}

/// Relies on `chrono::Local::now` and the `Datelike` / `Timelike`
/// accessors: `month` is in 1..=12, `day` in 1..=31, `hour` below 24,
/// `minute` and `second` below 60, and `nanosecond` below 2_000_000_000
/// (values of 1_000_000_000 and above stand for a leap second).
#[verifier::external_body]
fn local_now_parts() -> (r: (i32, u32, u32, u32, u32, u32, u32))
    ensures
        1 <= r.1 <= 12,
        1 <= r.2 <= 31,
        r.3 <= 23,
        r.4 <= 59,
        r.5 <= 59,
        r.6 <= 1_999_999_999,
{
    let now = chrono::Local::now();
    (
        chrono::Datelike::year(&now),
        chrono::Datelike::month(&now),
        chrono::Datelike::day(&now),
        chrono::Timelike::hour(&now),
        chrono::Timelike::minute(&now),
        chrono::Timelike::second(&now),
        chrono::Timelike::nanosecond(&now),
    )
}

} // verus!
