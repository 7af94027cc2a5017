//! Times of day, intraday trading windows, instants and signed durations.
//!
//! A time of day is a second count in `0 .. 86400`.  An `Instant` is a
//! `Date` plus a time of day; a `Duration` is a signed number of seconds.

use vstd::prelude::*;
use crate::calendar::Date;

verus! {

/// Seconds in a day; times of day lie strictly below this.
pub const SECS_PER_DAY: u32 = 86400;

/// One contiguous intraday business window, as the half-open interval
/// `[start, end)` of day seconds.
#[derive(Debug, Clone, Copy, PartialEq, Eq, Structural, PartialOrd, Ord)]
pub struct TimeBorder {
    /// First second of the window.
    pub start: u32,
    /// First second after the window.
    pub end: u32,
}

impl TimeBorder {
    /// The window is a real, non-empty part of a day.
    pub open spec fn wf(self) -> bool {
        self.start < self.end < SECS_PER_DAY
    }

    /// Length of the window in seconds.
    pub open spec fn width(self) -> int {
        self.end - self.start
    }

    /// Build a window from hour/minute/second bounds.
    pub fn from_hms(
        start_h: u32,
        start_m: u32,
        start_s: u32,
        end_h: u32,
        end_m: u32,
        end_s: u32,
    ) -> (r: TimeBorder)
        requires
            start_h < 24 && start_m < 60 && start_s < 60,
            end_h < 24 && end_m < 60 && end_s < 60,
        ensures
            r.start == start_h * 3600 + start_m * 60 + start_s,
            r.end == end_h * 3600 + end_m * 60 + end_s,
    {
        TimeBorder {
            start: start_h * 3600 + start_m * 60 + start_s,
            end: end_h * 3600 + end_m * 60 + end_s,
        }
    }
}

/// A point in time: a date and a second of that day.
#[derive(Debug, Clone, Copy, PartialEq, Eq, Structural, PartialOrd, Ord)]
pub struct Instant {
    /// The calendar date.
    pub date: Date,
    /// Second of the day, in `0 .. 86400`.
    pub time: u32,
}

impl Instant {
    /// The instant as a total second count from the start of day 0.
    pub open spec fn secs(self) -> int {
        self.date.d() * 86400 + self.time
    }

    /// The date is in range and the time is a real second of a day.
    pub open spec fn valid(self) -> bool {
        self.date.valid() && self.time < SECS_PER_DAY
    }

    /// Calendar order on instants.
    pub open spec fn spec_le(self, other: Instant) -> bool {
        self.secs() <= other.secs()
    }

    /// Build an instant from a date and a second of that day.
    pub fn new(date: Date, time: u32) -> (r: Instant)
        ensures
            r.date == date && r.time == time,
    {
        Instant { date, time }
    }

    /// Build an instant from a date and an hour/minute/second triple.
    pub fn from_date_hms(date: Date, h: u32, m: u32, s: u32) -> (r: Instant)
        requires
            h < 24 && m < 60 && s < 60,
        ensures
            r.date == date,
            r.time == h * 3600 + m * 60 + s,
            date.valid() ==> r.valid(),
    {
        Instant { date, time: h * 3600 + m * 60 + s }
    }

    /// The instant's date.
    pub fn date_part(self) -> (r: Date)
        ensures
            r == self.date,
    {
        self.date
    }

    /// The instant's second of the day.
    pub fn time_part(self) -> (r: u32)
        ensures
            r == self.time,
    {
        self.time
    }

    /// Whether `self` is at or before `other` in calendar order.
    pub fn le(self, other: Instant) -> (r: bool)
        requires
            self.valid(),
            other.valid(),
        ensures
            r == self.spec_le(other),
    {
        proof {
            assert(self.date.d() < other.date.d() ==> self.date.d() * 86400 + 86400 <= other.date.d()
                * 86400) by (nonlinear_arith);
            assert(other.date.d() < self.date.d() ==> other.date.d() * 86400 + 86400 <= self.date.d()
                * 86400) by (nonlinear_arith);
        }
        if self.date.days != other.date.days {
            self.date.days < other.date.days
        } else {
            self.time <= other.time
        }
    }
}

/// A signed span of time, in whole seconds.
#[derive(Debug, Clone, Copy, PartialEq, Eq, Structural, PartialOrd, Ord)]
pub struct Duration {
    /// The span in seconds; negative spans point into the past.
    pub secs: i64,
}

impl Duration {
    /// The span as a mathematical integer.
    pub open spec fn s(self) -> int {
        self.secs as int
    }

    /// The zero span.
    pub fn zero() -> (r: Duration)
        ensures
            r.secs == 0,
    {
        Duration { secs: 0 }
    }

    /// A span of `s` seconds.
    pub fn seconds(s: i64) -> (r: Duration)
        ensures
            r.secs == s,
    {
        Duration { secs: s }
    }

    /// A span of `m` minutes.
    pub fn minutes(m: i64) -> (r: Duration)
        requires
            -153_722_867_280_912_930 <= m <= 153_722_867_280_912_930,
        ensures
            r.secs == m * 60,
    {
        Duration { secs: m * 60 }
    }

    /// A span of `h` hours.
    pub fn hours(h: i64) -> (r: Duration)
        requires
            -2_562_047_788_015_215 <= h <= 2_562_047_788_015_215,
        ensures
            r.secs == h * 3600,
    {
        Duration { secs: h * 3600 }
    }

    /// The span in whole seconds.
    pub fn num_seconds(self) -> (r: i64)
        ensures
            r == self.secs,
    {
        self.secs
    }
}

} // verus!
