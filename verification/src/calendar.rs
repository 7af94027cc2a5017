//! Calendar dates modelled as day numbers of the proleptic Gregorian
//! calendar, with day 0 = 0001-01-01.  Day numbers make ordering, walking
//! and weekday computation plain integer arithmetic; `from_ymd` converts a
//! year/month/day triple into its day number.

use vstd::prelude::*;

verus! {

/// Largest day number a `Date` may hold; 9999-12-31 is day 3_652_058.
pub const MAX_DAY: i64 = 3_652_058;

/// A day of the week.
#[derive(Debug, Clone, Copy, PartialEq, Eq, Structural, PartialOrd, Ord)]
pub enum Weekday {
    Mon,
    Tue,
    Wed,
    Thu,
    Fri,
    Sat,
    Sun,
}

impl Weekday {
    /// Number of the weekday, 0 for Monday through 6 for Sunday.
    pub open spec fn num(self) -> int {
        match self {
            Weekday::Mon => 0,
            Weekday::Tue => 1,
            Weekday::Wed => 2,
            Weekday::Thu => 3,
            Weekday::Fri => 4,
            Weekday::Sat => 5,
            Weekday::Sun => 6,
        }
    }

    /// The weekday with the given number.
    pub open spec fn spec_from_num(n: int) -> Weekday {
        if n == 0 {
            Weekday::Mon
        } else if n == 1 {
            Weekday::Tue
        } else if n == 2 {
            Weekday::Wed
        } else if n == 3 {
            Weekday::Thu
        } else if n == 4 {
            Weekday::Fri
        } else if n == 5 {
            Weekday::Sat
        } else {
            Weekday::Sun
        }
    }

    fn from_num(n: u64) -> (r: Weekday)
        requires
            n < 7,
        ensures
            r == Weekday::spec_from_num(n as int),
    {
        if n == 0 {
            Weekday::Mon
        } else if n == 1 {
            Weekday::Tue
        } else if n == 2 {
            Weekday::Wed
        } else if n == 3 {
            Weekday::Thu
        } else if n == 4 {
            Weekday::Fri
        } else if n == 5 {
            Weekday::Sat
        } else {
            Weekday::Sun
        }
    }
}

/// Whether year `y`, month `m`, day `d` name a real proleptic-Gregorian
/// calendar date within the supported year range.
pub open spec fn valid_ymd(y: int, m: int, d: int) -> bool {
    &&& 1 <= y <= 9999
    &&& 1 <= m <= 12
    &&& 1 <= d <= days_in_month(y, m)
}

/// Length of month `m` of year `y`.
pub open spec fn days_in_month(y: int, m: int) -> int {
    if m == 2 {
        if is_leap_year(y) {
            29
        } else {
            28
        }
    } else if m == 4 || m == 6 || m == 9 || m == 11 {
        30
    } else {
        31
    }
}

/// Gregorian leap-year rule.
pub open spec fn is_leap_year(y: int) -> bool {
    (y % 4 == 0 && y % 100 != 0) || y % 400 == 0
}

/// Day number of the date `y`-`m`-`d`, counting 0001-01-01 as day 0.
///
/// The formula groups the calendar into 400-year eras starting on the first
/// of March, where the leap pattern repeats every 146097 days.
pub open spec fn days_from_ymd(y: int, m: int, d: int) -> int {
    let yy = if m <= 2 {
        y - 1
    } else {
        y
    };
    let era = yy / 400;
    let yoe = yy - era * 400;
    let mp = if m > 2 {
        m - 3
    } else {
        m + 9
    };
    let doy = (153 * mp + 2) / 5 + d - 1;
    let doe = yoe * 365 + yoe / 4 - yoe / 100 + doy;
    era * 146097 + doe - 306
}

/// A calendar date, held as its day number.  Day 0 is 0001-01-01 and
/// consecutive dates have consecutive day numbers, so `<` on day numbers is
/// the calendar order and the weekday is the day number modulo 7
/// (0001-01-01 was a Monday).
#[derive(Debug, Clone, Copy, PartialEq, Eq, Structural, PartialOrd, Ord, Hash)]
pub struct Date {
    pub days: i64,
}

impl Date {
    /// The day number as a mathematical integer.
    pub open spec fn d(self) -> int {
        self.days as int
    }

    /// The date lies in the supported range (years 1 through 9999).
    pub open spec fn valid(self) -> bool {
        0 <= self.days <= MAX_DAY
    }

    /// Weekday number (0 = Monday .. 6 = Sunday) of the day number `day`.
    pub open spec fn spec_weekday_num(day: int) -> int {
        day % 7
    }

    /// The date's weekday as a spec value.
    pub open spec fn spec_weekday(self) -> Weekday {
        Weekday::spec_from_num(Self::spec_weekday_num(self.d()))
    }

    /// Build a date from its day number.
    pub fn from_days(days: i64) -> (r: Date)
        ensures
            r.days == days,
    {
        Date { days }
    }

    /// Day number of the date, for callers outside the crate.
    pub fn day_number(self) -> (r: i64)
        ensures
            r == self.days,
    {
        self.days
    }

    /// The date of the given year, month and day.
    pub fn from_ymd(y: i64, m: i64, d: i64) -> (r: Date)
        requires
            valid_ymd(y as int, m as int, d as int),
        ensures
            r.d() == days_from_ymd(y as int, m as int, d as int),
            r.valid(),
    {
        proof {
            lemma_days_from_ymd_in_range(y as int, m as int, d as int);
        }
        let yy: u64 = if m <= 2 {
            (y - 1) as u64
        } else {
            y as u64
        };
        let era: u64 = yy / 400;
        let yoe: u64 = yy - era * 400;
        proof {
            assert(era * 400 <= yy && era <= 24) by (nonlinear_arith)
                requires
                    era == yy / 400,
                    yy <= 9999,
            ;
        }
        let mp: u64 = if m > 2 {
            (m - 3) as u64
        } else {
            (m + 9) as u64
        };
        let doy: u64 = (153 * mp + 2) / 5 + (d as u64) - 1;
        proof {
            assert(yoe < 400 && yoe * 365 <= 145635 && yoe / 100 <= yoe / 4) by (nonlinear_arith)
                requires
                    era == yy / 400,
                    yoe == yy - era * 400,
                    yy <= 9999,
            ;
        }
        let doe: u64 = yoe * 365 + yoe / 4 - yoe / 100 + doy;
        let days: u64 = era * 146097 + doe - 306;
        Date { days: days as i64 }
    }

    /// The date of the given year, month and day, or `None` when the triple
    /// is not a real date in the supported range.
    pub fn from_ymd_opt(y: i64, m: i64, d: i64) -> (r: Option<Date>)
        ensures
            r is Some <==> valid_ymd(y as int, m as int, d as int),
            r is Some ==> r->Some_0.d() == days_from_ymd(y as int, m as int, d as int)
                && r->Some_0.valid(),
    {
        if 1 <= y && y <= 9999 && 1 <= m && m <= 12 && 1 <= d {
            let leap: bool = (y % 400 == 0) || (y % 100 != 0 && y % 4 == 0);
            let dim: i64 = if m == 2 {
                if leap {
                    29
                } else {
                    28
                }
            } else if m == 4 || m == 6 || m == 9 || m == 11 {
                30
            } else {
                31
            };
            if d <= dim {
                Some(Date::from_ymd(y, m, d))
            } else {
                None
            }
        } else {
            None
        }
    }

    /// The date's weekday.
    pub fn weekday(self) -> (r: Weekday)
        requires
            self.valid(),
        ensures
            r == self.spec_weekday(),
    {
        Weekday::from_num((self.days as u64) % 7)
    }
}

/// For a valid year/month/day triple the day-number formula stays within
/// the supported range.
proof fn lemma_days_from_ymd_in_range(y: int, m: int, d: int)
    requires
        valid_ymd(y, m, d),
    ensures
        0 <= days_from_ymd(y, m, d) <= MAX_DAY,
{
    let yy = if m <= 2 {
        y - 1
    } else {
        y
    };
    assert(0 <= yy <= 9999);
    let era = yy / 400;
    assert(0 <= era <= 24 && era * 400 <= yy && yy - era * 400 < 400) by (nonlinear_arith)
        requires
            0 <= yy <= 9999,
            era == yy / 400,
    ;
    let yoe = yy - era * 400;
    let mp = if m > 2 {
        m - 3
    } else {
        m + 9
    };
    assert(0 <= mp <= 11);
    let doy = (153 * mp + 2) / 5 + d - 1;
    assert(0 <= (153 * mp + 2) / 5 <= 337) by (nonlinear_arith)
        requires
            0 <= mp <= 11,
    ;
    assert(0 <= doy <= 367);
    assert(0 <= yoe / 4 <= 99 && 0 <= yoe / 100 <= 3 && yoe / 100 <= yoe / 4 && yoe * 365 <= 145635)
        by (nonlinear_arith)
        requires
            0 <= yoe < 400,
    ;
    let doe = yoe * 365 + yoe / 4 - yoe / 100 + doy;
    assert(0 <= doe <= 145635 + 99 + 367);
    let total = era * 146097 + doe - 306;
    // Lower bound: whichever of era, yoe, doy is forced positive covers the
    // subtracted 306.
    if era >= 1 {
        assert(era * 146097 >= 146097) by (nonlinear_arith)
            requires
                era >= 1,
        ;
    } else if yoe >= 1 {
        assert(yoe * 365 >= 365) by (nonlinear_arith)
            requires
                yoe >= 1,
        ;
    } else {
        assert(yy == 0);
        assert(m <= 2 && y == 1);
        assert(mp == m + 9);
        assert(mp >= 10);
        assert((153 * mp + 2) / 5 >= 306) by (nonlinear_arith)
            requires
                mp >= 10,
        ;
        assert(doy >= 306);
    }
    assert(total >= 0);
    // Upper bound, split on whether the date falls in the last era.
    if era == 24 {
        assert(yy >= 9600) by (nonlinear_arith)
            requires
                era == yy / 400,
                era == 24,
                0 <= yy,
        ;
        if yoe == 399 {
            // yy == 9999 can only arise from March..December of year 9999.
            assert(yy == 9999);
            assert(m > 2);
            assert(mp <= 9);
            assert((153 * mp + 2) / 5 <= 275) by (nonlinear_arith)
                requires
                    0 <= mp <= 9,
            ;
            assert(doy <= 305);
            assert(yoe * 365 == 145635 && yoe / 4 == 99 && yoe / 100 == 3) by (nonlinear_arith)
                requires
                    yoe == 399,
            ;
            assert(doe <= 145635 + 99 - 3 + 305);
            assert(total <= 24 * 146097 + 146036 - 306);
        } else {
            assert(yoe <= 398);
            assert(yoe * 365 <= 398 * 365) by (nonlinear_arith)
                requires
                    0 <= yoe <= 398,
            ;
            assert(doe <= 398 * 365 + 99 + 367);
            assert(total <= 24 * 146097 + 145736 - 306);
        }
    } else {
        assert(era <= 23);
        assert(era * 146097 <= 23 * 146097) by (nonlinear_arith)
            requires
                0 <= era <= 23,
        ;
        assert(total <= 23 * 146097 + 146101 - 306);
    }
}

} // verus!
