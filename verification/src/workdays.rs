//! The day calendar: working-day classification, working-day ranges, and
//! walks to the n-th next or previous working day.

use vstd::prelude::*;
use crate::calendar::{Date, Weekday, MAX_DAY};
use crate::config::{all_weekdays_closed, dates_sorted_strict, CalendarConfig};

verus! {

/// Which ends of a date range are kept by `get_workdays`.
#[derive(Debug, Clone, Copy, PartialEq, Eq, Structural)]
pub enum Closed {
    /// Keep the start, drop the end.
    Left,
    /// Keep the end, drop the start.
    Right,
    /// Drop both ends.
    Not,
    /// Keep both ends.
    Both,
}

/// The date with the given day number.
pub open spec fn date_of(day: int) -> Date {
    Date { days: day as i64 }
}

/// A date is a working day exactly when it is not a listed holiday and its
/// weekday is not a weekly closing day.
pub open spec fn spec_is_workday(cfg: CalendarConfig, d: Date) -> bool {
    !cfg.holidays_seq().contains(d) && !cfg.holiday_weekdays_seq().contains(d.spec_weekday())
}

/// Working-day classification by day number.
pub open spec fn workday_day(cfg: CalendarConfig, day: int) -> bool {
    spec_is_workday(cfg, date_of(day))
}

/// The weekday of day number `day` is not a weekly closing day.
pub open spec fn weekday_open(cfg: CalendarConfig, day: int) -> bool {
    !cfg.holiday_weekdays_seq().contains(Weekday::spec_from_num(day % 7))
}

/// All working days with day numbers in `[lo, hi]`, ascending.
pub open spec fn workdays_seq(cfg: CalendarConfig, lo: int, hi: int) -> Seq<Date>
    decreases hi - lo + 1,
{
    if hi < lo {
        Seq::empty()
    } else {
        workdays_seq(cfg, lo, hi - 1) + if workday_day(cfg, hi) {
            seq![date_of(hi)]
        } else {
            Seq::empty()
        }
    }
}

/// All working days with day numbers in `[lo, hi]`, descending.
pub open spec fn workdays_seq_down(cfg: CalendarConfig, hi: int, lo: int) -> Seq<Date>
    decreases hi - lo + 1,
{
    if hi < lo {
        Seq::empty()
    } else {
        workdays_seq_down(cfg, hi, lo + 1) + if workday_day(cfg, lo) {
            seq![date_of(lo)]
        } else {
            Seq::empty()
        }
    }
}

/// What `workdays_seq` holds: exactly the working days of the range, in
/// strictly ascending order.
pub proof fn lemma_workdays_seq_props(cfg: CalendarConfig, lo: int, hi: int)
    requires
        -0x8000_0000_0000_0000 <= lo,
        hi <= 0x7fff_ffff_ffff_ffff,
    ensures
        forall|i: int|
            0 <= i < workdays_seq(cfg, lo, hi).len() ==> {
                let e = #[trigger] workdays_seq(cfg, lo, hi)[i];
                lo <= e.d() <= hi && e == date_of(e.d()) && workday_day(cfg, e.d())
            },
        dates_sorted_strict(workdays_seq(cfg, lo, hi)),
        forall|day: int|
            lo <= day <= hi && workday_day(cfg, day) ==> workdays_seq(cfg, lo, hi).contains(
                date_of(day),
            ),
    decreases hi - lo + 1,
{
    if hi < lo {
    } else {
        lemma_workdays_seq_props(cfg, lo, hi - 1);
        let prev = workdays_seq(cfg, lo, hi - 1);
        let cur = workdays_seq(cfg, lo, hi);
        if !workday_day(cfg, hi) {
            assert(cur =~= prev);
        }
        assert forall|i: int|
            0 <= i < cur.len() implies {
            let e = #[trigger] cur[i];
            lo <= e.d() <= hi && e == date_of(e.d()) && workday_day(cfg, e.d())
        } by {
            if i < prev.len() {
                assert(cur[i] == prev[i]);
            } else {
                assert(cur[i] == date_of(hi));
            }
        }
        assert forall|i: int, j: int| 0 <= i < j < cur.len() implies cur[i].d() < cur[j].d() by {
            if j < prev.len() {
                assert(cur[i] == prev[i] && cur[j] == prev[j]);
            } else {
                assert(cur[i] == prev[i] && cur[j] == date_of(hi));
                assert(prev[i].d() <= hi - 1);
            }
        }
        assert forall|day: int|
            lo <= day <= hi && workday_day(cfg, day) implies cur.contains(date_of(day)) by {
            if day < hi {
                assert(prev.contains(date_of(day)));
                let i = choose|i: int| 0 <= i < prev.len() && prev[i] == date_of(day);
                assert(cur[i] == date_of(day));
            } else {
                assert(cur[cur.len() - 1] == date_of(hi));
            }
        }
    }
}

/// What `workdays_seq_down` holds: exactly the working days of the range,
/// in strictly descending order.
pub proof fn lemma_workdays_seq_down_props(cfg: CalendarConfig, hi: int, lo: int)
    requires
        -0x8000_0000_0000_0000 <= lo,
        hi <= 0x7fff_ffff_ffff_ffff,
    ensures
        forall|i: int|
            0 <= i < workdays_seq_down(cfg, hi, lo).len() ==> {
                let e = #[trigger] workdays_seq_down(cfg, hi, lo)[i];
                lo <= e.d() <= hi && e == date_of(e.d()) && workday_day(cfg, e.d())
            },
        forall|i: int, j: int|
            0 <= i < j < workdays_seq_down(cfg, hi, lo).len() ==> workdays_seq_down(cfg, hi, lo)[i].d()
                > workdays_seq_down(cfg, hi, lo)[j].d(),
        forall|day: int|
            lo <= day <= hi && workday_day(cfg, day) ==> workdays_seq_down(cfg, hi, lo).contains(
                date_of(day),
            ),
    decreases hi - lo + 1,
{
    if hi < lo {
    } else {
        lemma_workdays_seq_down_props(cfg, hi, lo + 1);
        let prev = workdays_seq_down(cfg, hi, lo + 1);
        let cur = workdays_seq_down(cfg, hi, lo);
        if !workday_day(cfg, lo) {
            assert(cur =~= prev);
        }
        assert forall|i: int|
            0 <= i < cur.len() implies {
            let e = #[trigger] cur[i];
            lo <= e.d() <= hi && e == date_of(e.d()) && workday_day(cfg, e.d())
        } by {
            if i < prev.len() {
                assert(cur[i] == prev[i]);
            } else {
                assert(cur[i] == date_of(lo));
            }
        }
        assert forall|i: int, j: int| 0 <= i < j < cur.len() implies cur[i].d() > cur[j].d() by {
            if j < prev.len() {
                assert(cur[i] == prev[i] && cur[j] == prev[j]);
            } else {
                assert(cur[i] == prev[i] && cur[j] == date_of(lo));
                assert(prev[i].d() >= lo + 1);
            }
        }
        assert forall|day: int|
            lo <= day <= hi && workday_day(cfg, day) implies cur.contains(date_of(day)) by {
            if day > lo {
                assert(prev.contains(date_of(day)));
                let i = choose|i: int| 0 <= i < prev.len() && prev[i] == date_of(day);
                assert(cur[i] == date_of(day));
            } else {
                assert(cur[cur.len() - 1] == date_of(lo));
            }
        }
    }
}

/// Peeling the lowest day off an ascending working-day range.
pub proof fn lemma_workdays_seq_unfold_left(cfg: CalendarConfig, lo: int, hi: int)
    requires
        lo <= hi,
    ensures
        workdays_seq(cfg, lo, hi) =~= (if workday_day(cfg, lo) {
            seq![date_of(lo)]
        } else {
            Seq::empty()
        }) + workdays_seq(cfg, lo + 1, hi),
    decreases hi - lo,
{
    if hi > lo {
        lemma_workdays_seq_unfold_left(cfg, lo, hi - 1);
        assert(workdays_seq(cfg, lo, hi) == workdays_seq(cfg, lo, hi - 1) + (if workday_day(
            cfg,
            hi,
        ) {
            seq![date_of(hi)]
        } else {
            Seq::empty()
        }));
        assert(workdays_seq(cfg, lo + 1, hi) == workdays_seq(cfg, lo + 1, hi - 1) + (
        if workday_day(cfg, hi) {
            seq![date_of(hi)]
        } else {
            Seq::empty()
        }));
    } else {
        assert(workdays_seq(cfg, lo + 1, hi) =~= Seq::<Date>::empty());
        assert(workdays_seq(cfg, lo, hi) == workdays_seq(cfg, lo, hi - 1) + (if workday_day(
            cfg,
            lo,
        ) {
            seq![date_of(lo)]
        } else {
            Seq::empty()
        }));
        assert(workdays_seq(cfg, lo, hi - 1) =~= Seq::<Date>::empty());
    }
}

/// The descending working-day range is the ascending range read backward.
pub proof fn lemma_workdays_seq_updown(cfg: CalendarConfig, lo: int, hi: int)
    ensures
        workdays_seq_down(cfg, hi, lo).len() == workdays_seq(cfg, lo, hi).len(),
        forall|i: int|
            0 <= i < workdays_seq(cfg, lo, hi).len() ==> #[trigger] workdays_seq_down(
                cfg,
                hi,
                lo,
            )[i] == workdays_seq(cfg, lo, hi)[workdays_seq(cfg, lo, hi).len() - 1 - i],
    decreases hi - lo + 1,
{
    if hi >= lo {
        lemma_workdays_seq_updown(cfg, lo + 1, hi);
        lemma_workdays_seq_unfold_left(cfg, lo, hi);
        let down = workdays_seq_down(cfg, hi, lo);
        let down_tail = workdays_seq_down(cfg, hi, lo + 1);
        let up = workdays_seq(cfg, lo, hi);
        let up_tail = workdays_seq(cfg, lo + 1, hi);
        let head: Seq<Date> = if workday_day(cfg, lo) {
            seq![date_of(lo)]
        } else {
            Seq::empty()
        };
        assert(down == down_tail + head);
        assert(up =~= head + up_tail);
        let e = head.len() as int;
        assert forall|i: int| 0 <= i < up.len() implies #[trigger] down[i] == up[up.len() - 1
            - i] by {
            if i < down_tail.len() {
                assert(down[i] == down_tail[i]);
                assert(down_tail[i] == up_tail[up_tail.len() - 1 - i]);
                assert(up[e + (up_tail.len() - 1 - i)] == up_tail[up_tail.len() - 1 - i]);
            } else {
                assert(e == 1 && i == down_tail.len());
                assert(down[i] == date_of(lo));
                assert(up[0] == date_of(lo));
            }
        }
    }
}

/// How many days a walk for `n` working days may visit at most: each
/// working day found costs at most 8 visited days beyond the holidays
/// passed, see the walk measure below.
pub open spec fn walk_bound(cfg: CalendarConfig, n: int) -> int {
    8 * n + 7 * cfg.holidays_seq().len() + 7
}

/// Number of dates in the sequence with day number above `day`.
pub open spec fn count_after(s: Seq<Date>, day: int) -> int
    decreases s.len(),
{
    if s.len() == 0 {
        0
    } else {
        count_after(s.drop_last(), day) + if s.last().d() > day {
            1int
        } else {
            0int
        }
    }
}

/// Number of dates in the sequence with day number below `day`.
pub open spec fn count_before(s: Seq<Date>, day: int) -> int
    decreases s.len(),
{
    if s.len() == 0 {
        0
    } else {
        count_before(s.drop_last(), day) + if s.last().d() < day {
            1int
        } else {
            0int
        }
    }
}

proof fn lemma_count_after_bounds(s: Seq<Date>, day: int)
    ensures
        0 <= count_after(s, day) <= s.len(),
    decreases s.len(),
{
    if s.len() > 0 {
        lemma_count_after_bounds(s.drop_last(), day);
    }
}

proof fn lemma_count_before_bounds(s: Seq<Date>, day: int)
    ensures
        0 <= count_before(s, day) <= s.len(),
    decreases s.len(),
{
    if s.len() > 0 {
        lemma_count_before_bounds(s.drop_last(), day);
    }
}

/// Moving the threshold up by one removes exactly the dates equal to
/// `day + 1` from the count; in a duplicate-free sequence that is one date
/// when present.
proof fn lemma_count_after_step(s: Seq<Date>, day: int)
    requires
        dates_sorted_strict(s),
        -0x8000_0000_0000_0000 <= day + 1 <= 0x7fff_ffff_ffff_ffff,
    ensures
        count_after(s, day) == count_after(s, day + 1) + if s.contains(date_of(day + 1)) {
            1int
        } else {
            0int
        },
    decreases s.len(),
{
    if s.len() == 0 {
        assert(!s.contains(date_of(day + 1)));
    } else {
        let head = s.drop_last();
        assert(dates_sorted_strict(head)) by {
            assert(forall|i: int, j: int|
                0 <= i < j < head.len() ==> head[i] == s[i] && head[j] == s[j]);
        }
        lemma_count_after_step(head, day);
        if s.last() == date_of(day + 1) {
            assert(s.contains(date_of(day + 1))) by {
                assert(s[s.len() - 1] == date_of(day + 1));
            }
            assert(!head.contains(date_of(day + 1))) by {
                if head.contains(date_of(day + 1)) {
                    let i = choose|i: int| 0 <= i < head.len() && head[i] == date_of(day + 1);
                    assert(s[i] == date_of(day + 1));
                    assert(s[i].d() < s[s.len() - 1].d());
                }
            }
        } else {
            assert(s.contains(date_of(day + 1)) == head.contains(date_of(day + 1))) by {
                if s.contains(date_of(day + 1)) {
                    let i = choose|i: int| 0 <= i < s.len() && s[i] == date_of(day + 1);
                    assert(i < s.len() - 1);
                    assert(head[i] == date_of(day + 1));
                } else if head.contains(date_of(day + 1)) {
                    let i = choose|i: int| 0 <= i < head.len() && head[i] == date_of(day + 1);
                    assert(s[i] == date_of(day + 1));
                }
            }
            // a date counts as above `day` but not above `day + 1` only if
            // it is exactly `day + 1`
            assert(s.last().d() > day <==> s.last().d() > day + 1);
        }
    }
}

/// Mirror image of `lemma_count_after_step` for walking backward.
proof fn lemma_count_before_step(s: Seq<Date>, day: int)
    requires
        dates_sorted_strict(s),
        -0x8000_0000_0000_0000 <= day - 1 <= 0x7fff_ffff_ffff_ffff,
    ensures
        count_before(s, day) == count_before(s, day - 1) + if s.contains(date_of(day - 1)) {
            1int
        } else {
            0int
        },
    decreases s.len(),
{
    if s.len() == 0 {
        assert(!s.contains(date_of(day - 1)));
    } else {
        let head = s.drop_last();
        assert(dates_sorted_strict(head)) by {
            assert(forall|i: int, j: int|
                0 <= i < j < head.len() ==> head[i] == s[i] && head[j] == s[j]);
        }
        lemma_count_before_step(head, day);
        if s.last() == date_of(day - 1) {
            assert(s.contains(date_of(day - 1))) by {
                assert(s[s.len() - 1] == date_of(day - 1));
            }
            assert(!head.contains(date_of(day - 1))) by {
                if head.contains(date_of(day - 1)) {
                    let i = choose|i: int| 0 <= i < head.len() && head[i] == date_of(day - 1);
                    assert(s[i] == date_of(day - 1));
                    assert(s[i].d() < s[s.len() - 1].d());
                }
            }
        } else {
            assert(s.contains(date_of(day - 1)) == head.contains(date_of(day - 1))) by {
                if s.contains(date_of(day - 1)) {
                    let i = choose|i: int| 0 <= i < s.len() && s[i] == date_of(day - 1);
                    assert(i < s.len() - 1);
                    assert(head[i] == date_of(day - 1));
                } else if head.contains(date_of(day - 1)) {
                    let i = choose|i: int| 0 <= i < head.len() && head[i] == date_of(day - 1);
                    assert(s[i] == date_of(day - 1));
                }
            }
            assert(s.last().d() < day <==> s.last().d() < day - 1);
        }
    }
}

/// Offset (at least 1, at most 7 when some weekday is open) to the next
/// later day whose weekday is not a weekly closing day.
pub open spec fn next_open_offset(cfg: CalendarConfig, day: int) -> int {
    if weekday_open(cfg, day + 1) {
        1
    } else if weekday_open(cfg, day + 2) {
        2
    } else if weekday_open(cfg, day + 3) {
        3
    } else if weekday_open(cfg, day + 4) {
        4
    } else if weekday_open(cfg, day + 5) {
        5
    } else if weekday_open(cfg, day + 6) {
        6
    } else if weekday_open(cfg, day + 7) {
        7
    } else {
        8
    }
}

/// Offset to the next earlier day whose weekday is not a weekly closing
/// day.
pub open spec fn prev_open_offset(cfg: CalendarConfig, day: int) -> int {
    if weekday_open(cfg, day - 1) {
        1
    } else if weekday_open(cfg, day - 2) {
        2
    } else if weekday_open(cfg, day - 3) {
        3
    } else if weekday_open(cfg, day - 4) {
        4
    } else if weekday_open(cfg, day - 5) {
        5
    } else if weekday_open(cfg, day - 6) {
        6
    } else if weekday_open(cfg, day - 7) {
        7
    } else {
        8
    }
}

/// Among any seven consecutive days, each weekday number occurs, so when
/// some weekday is not a closing day, a day with an open weekday lies
/// within seven days in either direction.
proof fn lemma_open_weekday_near(cfg: CalendarConfig, day: int)
    requires
        !all_weekdays_closed(cfg.holiday_weekdays_seq()),
    ensures
        1 <= next_open_offset(cfg, day) <= 7,
        1 <= prev_open_offset(cfg, day) <= 7,
{
    let hw = cfg.holiday_weekdays_seq();
    let wn: int = if !hw.contains(Weekday::Mon) {
        0
    } else if !hw.contains(Weekday::Tue) {
        1
    } else if !hw.contains(Weekday::Wed) {
        2
    } else if !hw.contains(Weekday::Thu) {
        3
    } else if !hw.contains(Weekday::Fri) {
        4
    } else if !hw.contains(Weekday::Sat) {
        5
    } else {
        6
    };
    assert(!hw.contains(Weekday::spec_from_num(wn)));
    vstd::arithmetic::div_mod::lemma_mod_division_less_than_divisor(day, 7);
    let r = day % 7;
    vstd::arithmetic::div_mod::lemma_fundamental_div_mod(day, 7);
    assert(day == 7 * (day / 7) + r);
    // forward: day + k has weekday wn for k = wn - r (shifted into 1..=7)
    let kf: int = if wn > r {
        wn - r
    } else {
        wn - r + 7
    };
    assert(1 <= kf <= 7);
    assert((day + kf) % 7 == wn) by {
        if wn > r {
            assert(day + kf == 7 * (day / 7) + wn);
            vstd::arithmetic::div_mod::lemma_mod_multiples_vanish(day / 7, wn, 7);
        } else {
            assert(day + kf == 7 * (day / 7 + 1) + wn);
            vstd::arithmetic::div_mod::lemma_mod_multiples_vanish(day / 7 + 1, wn, 7);
        }
        vstd::arithmetic::div_mod::lemma_mod_division_less_than_divisor(wn, 7);
        assert(wn % 7 == wn) by {
            vstd::arithmetic::div_mod::lemma_fundamental_div_mod(wn, 7);
            vstd::arithmetic::div_mod::lemma_small_div_converse(wn, 7);
        }
    }
    assert(weekday_open(cfg, day + kf));
    // backward: day - k has weekday wn for k = r - wn (shifted into 1..=7)
    let kb: int = if r > wn {
        r - wn
    } else {
        r - wn + 7
    };
    assert(1 <= kb <= 7);
    assert((day - kb) % 7 == wn) by {
        if r > wn {
            assert(day - kb == 7 * (day / 7) + wn);
            vstd::arithmetic::div_mod::lemma_mod_multiples_vanish(day / 7, wn, 7);
        } else {
            assert(day - kb == 7 * (day / 7 - 1) + wn);
            vstd::arithmetic::div_mod::lemma_mod_multiples_vanish(day / 7 - 1, wn, 7);
        }
        vstd::arithmetic::div_mod::lemma_mod_division_less_than_divisor(wn, 7);
        assert(wn % 7 == wn) by {
            vstd::arithmetic::div_mod::lemma_fundamental_div_mod(wn, 7);
            vstd::arithmetic::div_mod::lemma_small_div_converse(wn, 7);
        }
    }
    assert(weekday_open(cfg, day - kb));
}

/// Whether the sorted holiday vector contains the given date.
fn contains_date(v: &Vec<Date>, d: Date) -> (r: bool)
    ensures
        r == v@.contains(d),
{
    let mut i: usize = 0;
    while i < v.len()
        invariant
            0 <= i <= v@.len(),
            forall|p: int| 0 <= p < i ==> v@[p] != d,
        decreases v@.len() - i,
    {
        if v[i].days == d.days {
            proof {
                assert(v@[i as int] == d);
            }
            return true;
        }
        i += 1;
    }
    false
}

/// Whether the vector contains the given weekday.
fn contains_weekday(v: &Vec<Weekday>, w: Weekday) -> (r: bool)
    ensures
        r == v@.contains(w),
{
    let mut i: usize = 0;
    while i < v.len()
        invariant
            0 <= i <= v@.len(),
            forall|p: int| 0 <= p < i ==> v@[p] != w,
        decreases v@.len() - i,
    {
        if v[i] == w {
            proof {
                assert(v@[i as int] == w);
            }
            return true;
        }
        i += 1;
    }
    false
}

/// Whether `select_date` is a working day: neither a listed holiday nor on
/// a weekly closing day.
pub fn check_workday(cfg: &CalendarConfig, select_date: Date) -> (r: bool)
    requires
        cfg.wf(),
        select_date.valid(),
    ensures
        r == spec_is_workday(*cfg, select_date),
{
    let is_holiday = contains_date(&cfg.holidays, select_date);
    let is_holiday_weekday = contains_weekday(&cfg.holiday_weekdays, select_date.weekday());
    !is_holiday && !is_holiday_weekday
}

/// Day-number variant of `check_workday`, for the walking loops.
fn workday_at(cfg: &CalendarConfig, day: i64) -> (r: bool)
    requires
        cfg.wf(),
        0 <= day <= MAX_DAY,
    ensures
        r == workday_day(*cfg, day as int),
{
    check_workday(cfg, Date { days: day })
}

/// The `days`-th working day strictly after `select_date`: the walk counts
/// only working days and `select_date` itself never counts, even when it
/// is working.
pub fn get_next_workday(cfg: &CalendarConfig, select_date: Date, days: u32) -> (r: Date)
    requires
        cfg.wf(),
        select_date.valid(),
        days >= 1,
        select_date.d() + walk_bound(*cfg, days as int) <= MAX_DAY,
    ensures
        r.valid(),
        r.d() > select_date.d(),
        r.d() < select_date.d() + walk_bound(*cfg, days as int),
        workday_day(*cfg, r.d()),
        workdays_seq(*cfg, select_date.d() + 1, r.d()).len() == days,
{
    let ghost start = select_date.d();
    let ghost bound = start + walk_bound(*cfg, days as int);
    let mut day: i64 = select_date.days;
    let mut counter: u32 = 0;
    proof {
        lemma_count_after_bounds(cfg.holidays_seq(), start);
        lemma_open_weekday_near(*cfg, start);
    }
    while counter < days
        invariant
            cfg.wf(),
            days >= 1,
            counter <= days,
            0 <= start <= day,
            counter >= 1 ==> day >= start + 1,
            counter as int == workdays_seq(*cfg, start + 1, day as int).len(),
            counter == days ==> workday_day(*cfg, day as int),
            1 <= next_open_offset(*cfg, day as int) <= 7,
            0 <= count_after(cfg.holidays_seq(), day as int),
            day + 8 * (days - counter) + 7 * count_after(cfg.holidays_seq(), day as int)
                + next_open_offset(*cfg, day as int) <= bound,
            bound <= MAX_DAY,
        decreases 8 * (days - counter) + 7 * count_after(cfg.holidays_seq(), day as int)
            + next_open_offset(*cfg, day as int),
    {
        let ghost d0 = day as int;
        let ghost c0 = counter as int;
        proof {
            lemma_count_after_step(cfg.holidays_seq(), d0);
            lemma_count_after_bounds(cfg.holidays_seq(), d0 + 1);
            lemma_open_weekday_near(*cfg, d0 + 1);
        }
        day = day + 1;
        if workday_at(cfg, day) {
            counter += 1;
        }
        proof {
            let d1 = day as int;
            if cfg.holidays_seq().contains(date_of(d1)) {
                // passed a holiday: the holiday count drops by one
                assert(count_after(cfg.holidays_seq(), d0) == count_after(cfg.holidays_seq(), d1) + 1);
                assert(!workday_day(*cfg, d1));
            } else if workday_day(*cfg, d1) {
                assert(count_after(cfg.holidays_seq(), d0) == count_after(cfg.holidays_seq(), d1));
            } else {
                // a closed weekday: the next open weekday comes one day closer
                assert(count_after(cfg.holidays_seq(), d0) == count_after(cfg.holidays_seq(), d1));
                assert(!weekday_open(*cfg, d1)) by {
                    assert(date_of(d1).spec_weekday() == Weekday::spec_from_num(d1 % 7));
                }
                assert(next_open_offset(*cfg, d0) >= 2);
                assert(next_open_offset(*cfg, d1) == next_open_offset(*cfg, d0) - 1);
            }
        }
    }
    Date { days: day }
}

/// The `days`-th working day strictly before `select_date`; the mirror
/// image of `get_next_workday`.
pub fn get_previous_workday(cfg: &CalendarConfig, select_date: Date, days: u32) -> (r: Date)
    requires
        cfg.wf(),
        select_date.valid(),
        days >= 1,
        select_date.d() - walk_bound(*cfg, days as int) >= 0,
    ensures
        r.valid(),
        r.d() < select_date.d(),
        r.d() > select_date.d() - walk_bound(*cfg, days as int),
        workday_day(*cfg, r.d()),
        workdays_seq_down(*cfg, select_date.d() - 1, r.d()).len() == days,
{
    let ghost start = select_date.d();
    let ghost bound = start - walk_bound(*cfg, days as int);
    let mut day: i64 = select_date.days;
    let mut counter: u32 = 0;
    proof {
        lemma_count_before_bounds(cfg.holidays_seq(), start);
        lemma_open_weekday_near(*cfg, start);
    }
    while counter < days
        invariant
            cfg.wf(),
            days >= 1,
            counter <= days,
            day <= start <= MAX_DAY,
            counter >= 1 ==> day <= start - 1,
            counter as int == workdays_seq_down(*cfg, start - 1, day as int).len(),
            counter == days ==> workday_day(*cfg, day as int),
            1 <= prev_open_offset(*cfg, day as int) <= 7,
            0 <= count_before(cfg.holidays_seq(), day as int),
            day - 8 * (days - counter) - 7 * count_before(cfg.holidays_seq(), day as int)
                - prev_open_offset(*cfg, day as int) >= bound,
            bound >= 0,
        decreases 8 * (days - counter) + 7 * count_before(cfg.holidays_seq(), day as int)
            + prev_open_offset(*cfg, day as int),
    {
        let ghost d0 = day as int;
        proof {
            lemma_count_before_step(cfg.holidays_seq(), d0);
            lemma_count_before_bounds(cfg.holidays_seq(), d0 - 1);
            lemma_open_weekday_near(*cfg, d0 - 1);
        }
        day = day - 1;
        if workday_at(cfg, day) {
            counter += 1;
        }
        proof {
            let d1 = day as int;
            if cfg.holidays_seq().contains(date_of(d1)) {
                assert(count_before(cfg.holidays_seq(), d0) == count_before(cfg.holidays_seq(), d1) + 1);
                assert(!workday_day(*cfg, d1));
            } else if workday_day(*cfg, d1) {
                assert(count_before(cfg.holidays_seq(), d0) == count_before(cfg.holidays_seq(), d1));
            } else {
                assert(count_before(cfg.holidays_seq(), d0) == count_before(cfg.holidays_seq(), d1));
                assert(!weekday_open(*cfg, d1)) by {
                    assert(date_of(d1).spec_weekday() == Weekday::spec_from_num(d1 % 7));
                }
                assert(prev_open_offset(*cfg, d0) >= 2);
                assert(prev_open_offset(*cfg, d1) == prev_open_offset(*cfg, d0) - 1);
            }
        }
    }
    Date { days: day }
}

/// The nearest working day to `select_date`: `select_date` itself when it
/// is working, else the first working day after (`is_after`) or before it.
pub fn get_near_workday(cfg: &CalendarConfig, select_date: Date, is_after: bool) -> (r: Date)
    requires
        cfg.wf(),
        select_date.valid(),
        !spec_is_workday(*cfg, select_date) && is_after ==> select_date.d() + walk_bound(*cfg, 1)
            <= MAX_DAY,
        !spec_is_workday(*cfg, select_date) && !is_after ==> select_date.d() >= walk_bound(*cfg, 1),
    ensures
        r.valid(),
        workday_day(*cfg, r.d()),
        spec_is_workday(*cfg, select_date) ==> r == select_date,
        !spec_is_workday(*cfg, select_date) && is_after ==> r.d() > select_date.d()
            && workdays_seq(*cfg, select_date.d() + 1, r.d()).len() == 1,
        !spec_is_workday(*cfg, select_date) && !is_after ==> r.d() < select_date.d()
            && workdays_seq_down(*cfg, select_date.d() - 1, r.d()).len() == 1,
{
    if check_workday(cfg, select_date) {
        proof {
            assert(date_of(select_date.d()) == select_date);
        }
        select_date
    } else if is_after {
        get_next_workday(cfg, select_date, 1)
    } else {
        get_previous_workday(cfg, select_date, 1)
    }
}

/// The first `days` working days at or after `start_date`, ascending:
/// unlike `get_next_workday`, `start_date` itself counts when it is a
/// working day.
pub fn get_next_workdays_number(cfg: &CalendarConfig, start_date: Date, days: u32) -> (r: Vec<
    Date,
>)
    requires
        cfg.wf(),
        start_date.valid(),
        days >= 1,
        start_date.d() + walk_bound(*cfg, days as int) <= MAX_DAY,
    ensures
        r@.len() == days,
        r@ =~= workdays_seq(*cfg, start_date.d(), r@[r@.len() - 1].d()),
        dates_sorted_strict(r@),
        forall|i: int|
            0 <= i < r@.len() ==> (#[trigger] r@[i]).valid() && spec_is_workday(*cfg, r@[i])
                && r@[i].d() >= start_date.d(),
{
    let ghost start = start_date.d() - 1;
    let ghost bound = start + walk_bound(*cfg, days as int);
    let mut out: Vec<Date> = Vec::new();
    let mut day: i64 = start_date.days - 1;
    let mut counter: u32 = 0;
    proof {
        lemma_count_after_bounds(cfg.holidays_seq(), start);
        lemma_open_weekday_near(*cfg, start);
    }
    while counter < days
        invariant
            cfg.wf(),
            days >= 1,
            counter <= days,
            start <= day,
            0 <= start + 1,
            out@ =~= workdays_seq(*cfg, start + 1, day as int),
            counter as int == out@.len(),
            counter == days ==> workday_day(*cfg, day as int) && out@[out@.len() - 1] == date_of(
                day as int,
            ),
            1 <= next_open_offset(*cfg, day as int) <= 7,
            0 <= count_after(cfg.holidays_seq(), day as int),
            day + 8 * (days - counter) + 7 * count_after(cfg.holidays_seq(), day as int)
                + next_open_offset(*cfg, day as int) <= bound,
            bound <= MAX_DAY,
        decreases 8 * (days - counter) + 7 * count_after(cfg.holidays_seq(), day as int)
            + next_open_offset(*cfg, day as int),
    {
        let ghost d0 = day as int;
        proof {
            lemma_count_after_step(cfg.holidays_seq(), d0);
            lemma_count_after_bounds(cfg.holidays_seq(), d0 + 1);
            lemma_open_weekday_near(*cfg, d0 + 1);
        }
        day = day + 1;
        if workday_at(cfg, day) {
            out.push(Date { days: day });
            counter += 1;
        }
        proof {
            let d1 = day as int;
            if cfg.holidays_seq().contains(date_of(d1)) {
                assert(count_after(cfg.holidays_seq(), d0) == count_after(cfg.holidays_seq(), d1) + 1);
                assert(!workday_day(*cfg, d1));
            } else if workday_day(*cfg, d1) {
                assert(count_after(cfg.holidays_seq(), d0) == count_after(cfg.holidays_seq(), d1));
            } else {
                assert(count_after(cfg.holidays_seq(), d0) == count_after(cfg.holidays_seq(), d1));
                assert(!weekday_open(*cfg, d1)) by {
                    assert(date_of(d1).spec_weekday() == Weekday::spec_from_num(d1 % 7));
                }
                assert(next_open_offset(*cfg, d0) >= 2);
                assert(next_open_offset(*cfg, d1) == next_open_offset(*cfg, d0) - 1);
            }
        }
    }
    proof {
        lemma_workdays_seq_props(*cfg, start + 1, day as int);
    }
    out
}

/// The first `days` working days at or before `start_date`, ascending:
/// `start_date` itself counts when it is a working day.
pub fn get_previous_workdays_number(cfg: &CalendarConfig, start_date: Date, days: u32) -> (r: Vec<
    Date,
>)
    requires
        cfg.wf(),
        start_date.valid(),
        days >= 1,
        start_date.d() >= walk_bound(*cfg, days as int),
    ensures
        r@.len() == days,
        r@ =~= workdays_seq(*cfg, r@[0].d(), start_date.d()),
        dates_sorted_strict(r@),
        forall|i: int|
            0 <= i < r@.len() ==> (#[trigger] r@[i]).valid() && spec_is_workday(*cfg, r@[i])
                && r@[i].d() <= start_date.d(),
{
    let ghost start = start_date.d() + 1;
    let ghost bound = start - walk_bound(*cfg, days as int);
    let mut collected: Vec<Date> = Vec::new();
    let mut day: i64 = start_date.days + 1;
    let mut counter: u32 = 0;
    proof {
        lemma_count_before_bounds(cfg.holidays_seq(), start);
        lemma_open_weekday_near(*cfg, start);
    }
    while counter < days
        invariant
            cfg.wf(),
            days >= 1,
            counter <= days,
            day <= start,
            start - 1 <= MAX_DAY,
            collected@ =~= workdays_seq_down(*cfg, start - 1, day as int),
            counter as int == collected@.len(),
            counter == days ==> workday_day(*cfg, day as int) && collected@[collected@.len() - 1]
                == date_of(day as int),
            1 <= prev_open_offset(*cfg, day as int) <= 7,
            0 <= count_before(cfg.holidays_seq(), day as int),
            day - 8 * (days - counter) - 7 * count_before(cfg.holidays_seq(), day as int)
                - prev_open_offset(*cfg, day as int) >= bound,
            bound >= 1,
        decreases 8 * (days - counter) + 7 * count_before(cfg.holidays_seq(), day as int)
            + prev_open_offset(*cfg, day as int),
    {
        let ghost d0 = day as int;
        proof {
            lemma_count_before_step(cfg.holidays_seq(), d0);
            lemma_count_before_bounds(cfg.holidays_seq(), d0 - 1);
            lemma_open_weekday_near(*cfg, d0 - 1);
        }
        day = day - 1;
        if workday_at(cfg, day) {
            collected.push(Date { days: day });
            counter += 1;
        }
        proof {
            let d1 = day as int;
            if cfg.holidays_seq().contains(date_of(d1)) {
                assert(count_before(cfg.holidays_seq(), d0) == count_before(cfg.holidays_seq(), d1) + 1);
                assert(!workday_day(*cfg, d1));
            } else if workday_day(*cfg, d1) {
                assert(count_before(cfg.holidays_seq(), d0) == count_before(cfg.holidays_seq(), d1));
            } else {
                assert(count_before(cfg.holidays_seq(), d0) == count_before(cfg.holidays_seq(), d1));
                assert(!weekday_open(*cfg, d1)) by {
                    assert(date_of(d1).spec_weekday() == Weekday::spec_from_num(d1 % 7));
                }
                assert(prev_open_offset(*cfg, d0) >= 2);
                assert(prev_open_offset(*cfg, d1) == prev_open_offset(*cfg, d0) - 1);
            }
        }
    }
    // the walk visited the days newest first; emit them ascending
    let ghost low = day as int;
    let mut out: Vec<Date> = Vec::new();
    let mut k: usize = collected.len();
    while k > 0
        invariant
            0 <= k <= collected@.len(),
            out@.len() == collected@.len() - k,
            forall|p: int|
                0 <= p < out@.len() ==> #[trigger] out@[p] == collected@[collected@.len() - 1 - p],
        decreases k,
    {
        k -= 1;
        out.push(collected[k]);
    }
    proof {
        lemma_workdays_seq_updown(*cfg, low, start - 1);
        assert(out@ =~= workdays_seq(*cfg, low, start - 1));
        lemma_workdays_seq_props(*cfg, low, start - 1);
        assert(out@[0] == collected@[collected@.len() - 1]);
        assert(out@[0].d() == low);
    }
    out
}

/// `days` working days from `start_date`: the next `days` for positive
/// `days`, the previous `days` for negative, empty for zero; always
/// ascending.
pub fn get_workdays_number(cfg: &CalendarConfig, start_date: Date, days: i32) -> (r: Vec<Date>)
    requires
        cfg.wf(),
        start_date.valid(),
        days > 0 ==> start_date.d() + walk_bound(*cfg, days as int) <= MAX_DAY,
        days < 0 ==> start_date.d() >= walk_bound(*cfg, -(days as int)),
    ensures
        days == 0 ==> r@ =~= Seq::<Date>::empty(),
        days > 0 ==> r@.len() == days && r@ =~= workdays_seq(
            *cfg,
            start_date.d(),
            r@[r@.len() - 1].d(),
        ),
        days < 0 ==> r@.len() == -(days as int) && r@ =~= workdays_seq(
            *cfg,
            r@[0].d(),
            start_date.d(),
        ),
        dates_sorted_strict(r@),
        forall|i: int|
            0 <= i < r@.len() ==> (#[trigger] r@[i]).valid() && spec_is_workday(*cfg, r@[i]),
{
    if days > 0 {
        get_next_workdays_number(cfg, start_date, days as u32)
    } else if days < 0 {
        get_previous_workdays_number(cfg, start_date, (-(days as i64)) as u32)
    } else {
        Vec::new()
    }
}

/// The working days from `start_date` through `end_date`, ascending, with
/// the range ends kept or dropped as `closed` says: `Left` drops
/// `end_date`, `Right` drops `start_date`, `Not` drops both and `Both`
/// keeps both.
pub fn get_workdays(cfg: &CalendarConfig, start_date: Date, end_date: Date, closed: Closed) -> (r:
    Vec<Date>)
    requires
        cfg.wf(),
        start_date.valid(),
        end_date.valid(),
    ensures
        r@ =~= ({
            let lo = if closed is Right || closed is Not {
                start_date.d() + 1
            } else {
                start_date.d()
            };
            let hi = if closed is Left || closed is Not {
                end_date.d() - 1
            } else {
                end_date.d()
            };
            workdays_seq(*cfg, lo, hi)
        }),
        dates_sorted_strict(r@),
        forall|i: int| 0 <= i < r@.len() ==> spec_is_workday(*cfg, #[trigger] r@[i]),
{
    let lo: i64 = match closed {
        Closed::Right | Closed::Not => start_date.days + 1,
        _ => start_date.days,
    };
    let hi: i64 = match closed {
        Closed::Left | Closed::Not => end_date.days - 1,
        _ => end_date.days,
    };
    collect_workdays(cfg, lo, hi)
}

/// Collect the working days with day numbers in `[lo, hi]`, ascending.
fn collect_workdays(cfg: &CalendarConfig, lo: i64, hi: i64) -> (r: Vec<Date>)
    requires
        cfg.wf(),
        0 <= lo,
        hi <= MAX_DAY,
    ensures
        r@ =~= workdays_seq(*cfg, lo as int, hi as int),
        dates_sorted_strict(r@),
        forall|i: int| 0 <= i < r@.len() ==> spec_is_workday(*cfg, #[trigger] r@[i]),
{
    let mut out: Vec<Date> = Vec::new();
    if lo > hi {
        return out;
    }
    let mut day: i64 = lo;
    while day <= hi
        invariant
            cfg.wf(),
            0 <= lo <= day <= hi + 1,
            hi <= MAX_DAY,
            out@ =~= workdays_seq(*cfg, lo as int, day - 1),
        decreases hi - day + 1,
    {
        if workday_at(cfg, day) {
            out.push(Date { days: day });
        }
        day += 1;
    }
    proof {
        lemma_workdays_seq_props(*cfg, lo as int, hi as int);
    }
    out
}

} // verus!
