//! The calendar configuration: the holiday set, the weekly closing days and
//! the intraday window list, together with the replace-style update
//! operations and the well-formedness invariant the engine relies on.

use vstd::prelude::*;
use crate::calendar::{days_from_ymd, Date, Weekday};
use crate::moments::TimeBorder;

verus! {

/// Errors of the calendar core.
#[derive(Debug, Clone, Copy, PartialEq, Eq, Structural)]
pub enum Error {
    /// A configuration update would leave the calendar unusable: an empty,
    /// ill-formed or overlapping window list, or a week with no working
    /// weekday.
    Configuration,
    /// An operation that needs a non-empty input sequence was given an
    /// empty one.
    EmptyInput,
}

impl Error {
    /// A short description of the error.
    pub fn message(self) -> (r: &'static str)
        ensures
            self is Configuration ==> r@ =~= "invalid calendar configuration"@,
            self is EmptyInput ==> r@ =~= "empty input sequence"@,
    {
        match self {
            Error::Configuration => "invalid calendar configuration",
            Error::EmptyInput => "empty input sequence",
        }
    }
}

/// The dates are strictly increasing (so also pairwise distinct).
pub open spec fn dates_sorted_strict(s: Seq<Date>) -> bool {
    forall|i: int, j: int| 0 <= i < j < s.len() ==> s[i].d() < s[j].d()
}

/// Every date of the sequence lies in the supported range.
pub open spec fn dates_valid(s: Seq<Date>) -> bool {
    forall|i: int| 0 <= i < s.len() ==> (#[trigger] s[i]).valid()
}

/// Every weekday occurs in the sequence: no day of the week could ever be a
/// working day.
pub open spec fn all_weekdays_closed(s: Seq<Weekday>) -> bool {
    &&& s.contains(Weekday::Mon)
    &&& s.contains(Weekday::Tue)
    &&& s.contains(Weekday::Wed)
    &&& s.contains(Weekday::Thu)
    &&& s.contains(Weekday::Fri)
    &&& s.contains(Weekday::Sat)
    &&& s.contains(Weekday::Sun)
}

/// The window list is usable by the intraday engine: non-empty, every
/// window well-formed, and the windows sorted with no overlap.
pub open spec fn borders_wf(s: Seq<TimeBorder>) -> bool {
    &&& s.len() >= 1
    &&& forall|i: int| 0 <= i < s.len() ==> (#[trigger] s[i]).wf()
    &&& forall|i: int| 0 <= i < s.len() - 1 ==> (#[trigger] s[i]).end <= s[i + 1].start
}

/// Within the input list, some window starts inside (or at the start of)
/// another: the two windows overlap.
pub open spec fn has_window_conflict(s: Seq<TimeBorder>) -> bool {
    exists|i: int, j: int|
        0 <= i < s.len() && 0 <= j < s.len() && i != j && s[i].start <= s[j].start
            && s[j].start < s[i].end
}

/// In a well-formed window list, windows are pairwise disjoint: an earlier
/// window ends at or before a later one starts.
pub proof fn lemma_borders_wf_disjoint(s: Seq<TimeBorder>, i: int, j: int)
    requires
        borders_wf(s),
        0 <= i < j < s.len(),
    ensures
        s[i].end <= s[j].start,
    decreases j - i,
{
    if j == i + 1 {
    } else {
        lemma_borders_wf_disjoint(s, i, j - 1);
        assert(s[j - 1].end <= s[j].start);
        assert(s[j - 1].wf());
    }
}

/// The calendar configuration.
///
/// All calendar queries take one of these by shared reference; updates
/// replace a whole collection at a time, so every call sees one consistent
/// snapshot.
pub struct CalendarConfig {
    /// Explicit non-working dates, strictly sorted.
    pub(crate) holidays: Vec<Date>,
    /// Weekdays that are never working days.
    pub(crate) holiday_weekdays: Vec<Weekday>,
    /// Intraday business windows, sorted and non-overlapping.
    pub(crate) borders: Vec<TimeBorder>,
}

impl CalendarConfig {
    /// The holiday dates, as every contract sees them.
    pub open(crate) spec fn holidays_seq(self) -> Seq<Date> {
        self.holidays@
    }

    /// The weekly closing days, as every contract sees them.
    pub open(crate) spec fn holiday_weekdays_seq(self) -> Seq<Weekday> {
        self.holiday_weekdays@
    }

    /// The intraday windows, as every contract sees them.
    pub open(crate) spec fn borders_seq(self) -> Seq<TimeBorder> {
        self.borders@
    }

    /// The invariant every query relies on: holidays sorted, valid and
    /// duplicate-free, at least one weekday working, and a usable window
    /// list.
    pub open spec fn wf(self) -> bool {
        &&& dates_sorted_strict(self.holidays_seq())
        &&& dates_valid(self.holidays_seq())
        &&& !all_weekdays_closed(self.holiday_weekdays_seq())
        &&& borders_wf(self.borders_seq())
    }

    /// The default configuration: no holidays, weekends closed, and the two
    /// customary trading windows 09:00-11:30 and 12:30-15:00.
    pub fn new() -> (r: CalendarConfig)
        ensures
            r.wf(),
            r.holidays_seq() =~= Seq::<Date>::empty(),
            r.holiday_weekdays_seq() =~= seq![Weekday::Sat, Weekday::Sun],
            r.borders_seq() =~= seq![
                TimeBorder { start: 32400, end: 41400 },
                TimeBorder { start: 45000, end: 54000 },
            ],
    {
        let mut holiday_weekdays: Vec<Weekday> = Vec::new();
        holiday_weekdays.push(Weekday::Sat);
        holiday_weekdays.push(Weekday::Sun);
        let mut borders: Vec<TimeBorder> = Vec::new();
        borders.push(TimeBorder { start: 32400, end: 41400 });
        borders.push(TimeBorder { start: 45000, end: 54000 });
        let r = CalendarConfig { holidays: Vec::new(), holiday_weekdays, borders };
        proof {
            assert(!r.holiday_weekdays_seq().contains(Weekday::Mon));
        }
        r
    }

    /// Replace the holiday set with the given dates, keeping only those in
    /// the inclusive year range, without duplicates.
    pub fn set_range_holidays(&mut self, dates: &Vec<Date>, start_year: i32, end_year: i32)
        requires
            old(self).wf(),
            1 <= start_year <= 9999,
            1 <= end_year <= 9999,
        ensures
            final(self).wf(),
            final(self).holiday_weekdays_seq() == old(self).holiday_weekdays_seq(),
            final(self).borders_seq() == old(self).borders_seq(),
            dates_sorted_strict(final(self).holidays_seq()),
            forall|x: Date|
                final(self).holidays_seq().contains(x) <==> dates@.contains(x) && days_from_ymd(
                    start_year as int,
                    1,
                    1,
                ) <= x.d() <= days_from_ymd(end_year as int, 12, 31),
    {
        let replacement = collect_range_holidays(&Vec::new(), dates, start_year, end_year);
        self.holidays = replacement;
    }

    /// Add the given dates to the holiday set, keeping only those in the
    /// inclusive year range, without duplicates.
    pub fn add_range_holidays(&mut self, dates: &Vec<Date>, start_year: i32, end_year: i32)
        requires
            old(self).wf(),
            1 <= start_year <= 9999,
            1 <= end_year <= 9999,
        ensures
            final(self).wf(),
            final(self).holiday_weekdays_seq() == old(self).holiday_weekdays_seq(),
            final(self).borders_seq() == old(self).borders_seq(),
            dates_sorted_strict(final(self).holidays_seq()),
            forall|x: Date|
                final(self).holidays_seq().contains(x) <==> old(self).holidays_seq().contains(x) || (
                dates@.contains(x) && days_from_ymd(start_year as int, 1, 1) <= x.d()
                    <= days_from_ymd(end_year as int, 12, 31)),
    {
        let replacement = collect_range_holidays(&self.holidays, dates, start_year, end_year);
        self.holidays = replacement;
    }

    /// Replace the weekly closing days.  Rejected when every weekday would
    /// be closed, since day walks could then never find a working day.
    pub fn set_holiday_weekdays(&mut self, weekdays: &Vec<Weekday>) -> (r: Result<(), Error>)
        requires
            old(self).wf(),
        ensures
            r is Err <==> all_weekdays_closed(weekdays@),
            r is Err ==> r->Err_0 == Error::Configuration && *final(self) == *old(self),
            r is Ok ==> final(self).wf() && final(self).holiday_weekdays_seq() =~= weekdays@
                && final(self).holidays_seq() == old(self).holidays_seq()
                && final(self).borders_seq() == old(self).borders_seq(),
    {
        let closed_mon = contains_weekday(weekdays, Weekday::Mon);
        let closed_tue = contains_weekday(weekdays, Weekday::Tue);
        let closed_wed = contains_weekday(weekdays, Weekday::Wed);
        let closed_thu = contains_weekday(weekdays, Weekday::Thu);
        let closed_fri = contains_weekday(weekdays, Weekday::Fri);
        let closed_sat = contains_weekday(weekdays, Weekday::Sat);
        let closed_sun = contains_weekday(weekdays, Weekday::Sun);
        if closed_mon && closed_tue && closed_wed && closed_thu && closed_fri && closed_sat
            && closed_sun {
            return Err(Error::Configuration);
        }
        let mut copy: Vec<Weekday> = Vec::new();
        let mut i: usize = 0;
        while i < weekdays.len()
            invariant
                0 <= i <= weekdays.len(),
                copy@ =~= weekdays@.subrange(0, i as int),
            decreases weekdays.len() - i,
        {
            copy.push(weekdays[i]);
            i += 1;
        }
        proof {
            assert(copy@ =~= weekdays@);
        }
        self.holiday_weekdays = copy;
        Ok(())
    }

    /// Replace the intraday window list.  The windows are sorted by start;
    /// an empty list, an ill-formed window or overlapping windows are
    /// rejected and leave the configuration unchanged.
    #[verifier::rlimit(100)]
    pub fn set_intraday_borders(&mut self, borders: &Vec<TimeBorder>) -> (r: Result<(), Error>)
        requires
            old(self).wf(),
        ensures
            r is Err <==> borders@.len() == 0 || (exists|i: int|
                0 <= i < borders@.len() && !(#[trigger] borders@[i]).wf()) || has_window_conflict(
                borders@,
            ),
            r is Err ==> r->Err_0 == Error::Configuration && *final(self) == *old(self),
            r is Ok ==> final(self).wf() && final(self).holidays_seq() == old(self).holidays_seq()
                && final(self).holiday_weekdays_seq() == old(self).holiday_weekdays_seq()
                && borders_wf(final(self).borders_seq()) && (forall|b: TimeBorder|
                final(self).borders_seq().contains(b) <==> borders@.contains(b)),
    {
        if borders.len() == 0 {
            return Err(Error::Configuration);
        }
        let sorted = match sort_windows(borders) {
            Ok(v) => v,
            Err(e) => {
                return Err(e);
            },
        };
        let mut j: usize = 0;
        while j + 1 < sorted.len()
            invariant
                0 <= j < sorted@.len(),
                sorted@.len() == borders@.len(),
                forall|p: int| 0 <= p < j ==> (#[trigger] sorted@[p]).end <= sorted@[p + 1].start,
                forall|p: int, q: int|
                    0 <= p < q < sorted@.len() ==> sorted@[p].start < sorted@[q].start,
                forall|p: int| 0 <= p < sorted@.len() ==> (#[trigger] sorted@[p]).wf(),
                forall|b: TimeBorder| sorted@.contains(b) <==> borders@.contains(b),
                forall|p: int, q: int|
                    0 <= p < q < borders@.len() ==> (#[trigger] borders@[p]).start != (
                    #[trigger] borders@[q]).start,
            decreases sorted.len() - j,
        {
            if sorted[j].end > sorted[j + 1].start {
                let ghost x = sorted@[j as int];
                let ghost y = sorted@[j as int + 1];
                proof {
                    assert(borders@.contains(x));
                    assert(borders@.contains(y));
                    let p = choose|p: int| 0 <= p < borders@.len() && borders@[p] == x;
                    let q = choose|q: int| 0 <= q < borders@.len() && borders@[q] == y;
                    assert(x.start < y.start);
                    assert(p != q);
                    assert(has_window_conflict(borders@));
                }
                return Err(Error::Configuration);
            }
            j += 1;
        }
        proof {
            lemma_sorted_windows_sound(borders@, sorted@);
        }
        self.borders = sorted;
        Ok(())
    }

    /// A copy of the holiday list, sorted ascending.
    pub fn get_range_holidays(&self) -> (r: Vec<Date>)
        ensures
            r@ =~= self.holidays_seq(),
    {
        let mut copy: Vec<Date> = Vec::new();
        let mut i: usize = 0;
        while i < self.holidays.len()
            invariant
                0 <= i <= self.holidays_seq().len(),
                copy@ =~= self.holidays_seq().subrange(0, i as int),
            decreases self.holidays_seq().len() - i,
        {
            copy.push(self.holidays[i]);
            i += 1;
        }
        proof {
            assert(copy@ =~= self.holidays_seq());
        }
        copy
    }

    /// A copy of the weekly closing days.
    pub fn get_holiday_weekdays(&self) -> (r: Vec<Weekday>)
        ensures
            r@ =~= self.holiday_weekdays_seq(),
    {
        let mut copy: Vec<Weekday> = Vec::new();
        let mut i: usize = 0;
        while i < self.holiday_weekdays.len()
            invariant
                0 <= i <= self.holiday_weekdays_seq().len(),
                copy@ =~= self.holiday_weekdays_seq().subrange(0, i as int),
            decreases self.holiday_weekdays_seq().len() - i,
        {
            copy.push(self.holiday_weekdays[i]);
            i += 1;
        }
        proof {
            assert(copy@ =~= self.holiday_weekdays_seq());
        }
        copy
    }

    /// A copy of the intraday window list, sorted by start.
    pub fn get_intraday_borders(&self) -> (r: Vec<TimeBorder>)
        ensures
            r@ =~= self.borders_seq(),
    {
        let mut copy: Vec<TimeBorder> = Vec::new();
        let mut i: usize = 0;
        while i < self.borders.len()
            invariant
                0 <= i <= self.borders_seq().len(),
                copy@ =~= self.borders_seq().subrange(0, i as int),
            decreases self.borders_seq().len() - i,
        {
            copy.push(self.borders[i]);
            i += 1;
        }
        proof {
            assert(copy@ =~= self.borders_seq());
        }
        copy
    }
}

/// Sort the windows by start into a fresh vector.  An ill-formed window or
/// two windows sharing a start (which necessarily overlap) are rejected.
fn sort_windows(borders: &Vec<TimeBorder>) -> (r: Result<Vec<TimeBorder>, Error>)
    requires
        borders@.len() >= 1,
    ensures
        r is Err ==> r->Err_0 == Error::Configuration && ((exists|i: int|
            0 <= i < borders@.len() && !(#[trigger] borders@[i]).wf()) || has_window_conflict(
            borders@,
        )),
        r is Ok ==> {
            let s = r->Ok_0@;
            &&& s.len() == borders@.len()
            &&& forall|p: int, q: int| 0 <= p < q < s.len() ==> s[p].start < s[q].start
            &&& forall|p: int| 0 <= p < s.len() ==> (#[trigger] s[p]).wf()
            &&& forall|b: TimeBorder| s.contains(b) <==> borders@.contains(b)
            &&& forall|p: int, q: int|
                0 <= p < q < borders@.len() ==> (#[trigger] borders@[p]).start != (
                #[trigger] borders@[q]).start
        },
{
        let mut sorted: Vec<TimeBorder> = Vec::new();
        let mut i: usize = 0;
        while i < borders.len()
            invariant
                0 <= i <= borders.len(),
                sorted@.len() == i,
                forall|p: int, q: int|
                    0 <= p < q < sorted@.len() ==> sorted@[p].start < sorted@[q].start,
                forall|p: int| 0 <= p < sorted@.len() ==> (#[trigger] sorted@[p]).wf(),
                forall|b: TimeBorder|
                    sorted@.contains(b) <==> borders@.subrange(0, i as int).contains(b),
                forall|p: int, q: int|
                    0 <= p < q < i ==> (#[trigger] borders@[p]).start != (
                    #[trigger] borders@[q]).start,
            decreases borders.len() - i,
        {
            let b = borders[i];
            if !(b.start < b.end && b.end < 86400) {
                return Err(Error::Configuration);
            }
            // find the insertion point: the first window starting at or
            // after b.start
            let mut k: usize = 0;
            while k < sorted.len() && sorted[k].start < b.start
                invariant
                    0 <= k <= sorted@.len(),
                    forall|p: int| 0 <= p < k ==> (#[trigger] sorted@[p]).start < b.start,
                decreases sorted.len() - k,
            {
                k += 1;
            }
            if k < sorted.len() && sorted[k].start == b.start {
                // two windows with the same start necessarily overlap
                let ghost w = sorted@[k as int];
                proof {
                    assert(sorted@.contains(w)) by {
                        assert(sorted@[k as int] == w);
                    }
                    assert(borders@.subrange(0, i as int).contains(w));
                    let p = choose|p: int|
                        0 <= p < i && borders@.subrange(0, i as int)[p] == w;
                    assert(borders@[p] == w);
                    assert(borders@[p].start <= borders@[i as int].start);
                    assert(borders@[i as int].start < borders@[p].end);
                    assert(has_window_conflict(borders@));
                }
                return Err(Error::Configuration);
            }
            proof {
                assert(forall|p: int|
                    k <= p < sorted@.len() ==> b.start < (#[trigger] sorted@[p]).start);
            }
            let ghost before = sorted@;
            sorted.insert(k, b);
            proof {
                assert(sorted@ =~= before.insert(k as int, b));
                assert forall|x: TimeBorder| sorted@.contains(x) implies borders@.subrange(
                    0,
                    i as int + 1,
                ).contains(x) by {
                    let p = choose|p: int| 0 <= p < sorted@.len() && sorted@[p] == x;
                    if p < k {
                        assert(before.contains(x)) by {
                            assert(before[p] == x);
                        }
                        assert(borders@.subrange(0, i as int).contains(x));
                        let r0 = choose|r0: int|
                            0 <= r0 < i && #[trigger] borders@.subrange(0, i as int)[r0] == x;
                        assert(borders@.subrange(0, i as int + 1)[r0] == x);
                    } else if p == k {
                        assert(x == b);
                        assert(borders@.subrange(0, i as int + 1)[i as int] == b);
                    } else {
                        assert(before.contains(x)) by {
                            assert(before[p - 1] == x);
                        }
                        assert(borders@.subrange(0, i as int).contains(x));
                        let r0 = choose|r0: int|
                            0 <= r0 < i && #[trigger] borders@.subrange(0, i as int)[r0] == x;
                        assert(borders@.subrange(0, i as int + 1)[r0] == x);
                    }
                }
                assert forall|x: TimeBorder|
                    borders@.subrange(0, i as int + 1).contains(x) implies sorted@.contains(x) by {
                    let p = choose|p: int|
                        0 <= p <= i && #[trigger] borders@.subrange(0, i as int + 1)[p] == x;
                    if p < i {
                        assert(borders@.subrange(0, i as int)[p] == x);
                        assert(before.contains(x));
                        let q = choose|q: int|
                            0 <= q < before.len() && before[q] == x;
                        if q < k {
                            assert(sorted@[q] == x);
                        } else {
                            assert(sorted@[q + 1] == x);
                        }
                    } else {
                        assert(x == b);
                        assert(sorted@[k as int] == b);
                    }
                }
                // no existing window shares b's start, so the starts of
                // the processed prefix stay pairwise distinct
                assert forall|p: int| 0 <= p < i implies (#[trigger] borders@[p]).start
                    != b.start by {
                    assert(borders@.subrange(0, i as int)[p] == borders@[p]);
                    assert(before.contains(borders@[p]));
                    let m = choose|m: int| 0 <= m < before.len() && before[m] == borders@[p];
                    if m < k {
                        assert(before[m].start < b.start);
                    } else {
                        assert(b.start < before[m].start);
                    }
                }
            }
            i += 1;
        }
        proof {
            assert(forall|b: TimeBorder|
                sorted@.contains(b) <==> borders@.subrange(0, borders@.len() as int).contains(b));
            assert(borders@.subrange(0, borders@.len() as int) =~= borders@);
        }
        Ok(sorted)
}

/// A sorted, pairwise-disjoint window list that holds exactly the input
/// windows, whose starts are pairwise distinct, certifies that the input
/// list is well formed and conflict-free.
proof fn lemma_sorted_windows_sound(input: Seq<TimeBorder>, s: Seq<TimeBorder>)
    requires
        s.len() == input.len(),
        borders_wf(s),
        forall|p: int, q: int| 0 <= p < q < s.len() ==> s[p].start < s[q].start,
        forall|b: TimeBorder| s.contains(b) <==> input.contains(b),
        forall|p: int, q: int|
            0 <= p < q < input.len() ==> (#[trigger] input[p]).start != (
            #[trigger] input[q]).start,
    ensures
        forall|p: int| 0 <= p < input.len() ==> (#[trigger] input[p]).wf(),
        !has_window_conflict(input),
{
    assert forall|p: int| 0 <= p < input.len() implies (#[trigger] input[p]).wf() by {
        assert(input.contains(input[p]));
        assert(s.contains(input[p]));
        let m = choose|m: int| 0 <= m < s.len() && s[m] == input[p];
    }
    assert forall|p: int, q: int|
        0 <= p < input.len() && 0 <= q < input.len() && p != q implies !(input[p].start
        <= input[q].start && input[q].start < input[p].end) by {
        let x = input[p];
        let y = input[q];
        assert(x.start != y.start);
        if x.start < y.start {
            assert(input.contains(x) && input.contains(y));
            assert(s.contains(x) && s.contains(y));
            let mx = choose|mx: int| 0 <= mx < s.len() && s[mx] == x;
            let my = choose|my: int| 0 <= my < s.len() && s[my] == y;
            assert(mx < my);
            lemma_borders_wf_disjoint(s, mx, my);
        }
    }
}

/// Whether the vector contains the given weekday.
fn contains_weekday(v: &Vec<Weekday>, w: Weekday) -> (r: bool)
    ensures
        r == v@.contains(w),
{
    let mut i: usize = 0;
    while i < v.len()
        invariant
            0 <= i <= v@.len(),
            forall|p: int| 0 <= p < i ==> v@[p] != w,
        decreases v@.len() - i,
    {
        if v[i] == w {
            proof {
                assert(v@[i as int] == w);
            }
            return true;
        }
        i += 1;
    }
    false
}

/// Starting from the sorted duplicate-free `base`, add every date of
/// `dates` whose day number falls in the inclusive year range, keeping the
/// result sorted and duplicate-free.
fn collect_range_holidays(base: &Vec<Date>, dates: &Vec<Date>, start_year: i32, end_year: i32) -> (r:
    Vec<Date>)
    requires
        dates_sorted_strict(base@),
        dates_valid(base@),
        1 <= start_year <= 9999,
        1 <= end_year <= 9999,
    ensures
        dates_sorted_strict(r@),
        dates_valid(r@),
        forall|x: Date|
            r@.contains(x) <==> base@.contains(x) || (dates@.contains(x) && days_from_ymd(
                start_year as int,
                1,
                1,
            ) <= x.d() <= days_from_ymd(end_year as int, 12, 31)),
{
    let lo = Date::from_ymd(start_year as i64, 1, 1);
    let hi = Date::from_ymd(end_year as i64, 12, 31);
    let mut out: Vec<Date> = Vec::new();
    let mut i: usize = 0;
    while i < base.len()
        invariant
            0 <= i <= base@.len(),
            out@ =~= base@.subrange(0, i as int),
        decreases base@.len() - i,
    {
        out.push(base[i]);
        i += 1;
    }
    proof {
        assert(out@ =~= base@);
    }
    let mut i: usize = 0;
    while i < dates.len()
        invariant
            0 <= i <= dates@.len(),
            lo.d() == days_from_ymd(start_year as int, 1, 1),
            hi.d() == days_from_ymd(end_year as int, 12, 31),
            lo.valid(),
            hi.valid(),
            dates_sorted_strict(out@),
            dates_valid(out@),
            forall|x: Date|
                out@.contains(x) <==> base@.contains(x) || (dates@.subrange(0, i as int).contains(x)
                    && lo.d() <= x.d() <= hi.d()),
        decreases dates@.len() - i,
    {
        let d = dates[i];
        if lo.days <= d.days && d.days <= hi.days {
            insert_sorted_unique(&mut out, d);
        }
        proof {
            assert forall|x: Date|
                out@.contains(x) implies base@.contains(x) || (dates@.subrange(
                0,
                i as int + 1,
            ).contains(x) && lo.d() <= x.d() <= hi.d()) by {
                if x != d || !(lo.d() <= d.d() <= hi.d()) {
                    if !base@.contains(x) {
                        assert(dates@.subrange(0, i as int).contains(x));
                        let p = choose|p: int|
                            0 <= p < i && dates@.subrange(0, i as int)[p] == x;
                        assert(dates@.subrange(0, i as int + 1)[p] == x);
                    }
                } else {
                    assert(dates@.subrange(0, i as int + 1)[i as int] == d);
                }
            }
            assert forall|x: Date|
                base@.contains(x) || (dates@.subrange(0, i as int + 1).contains(x) && lo.d() <= x.d()
                    <= hi.d()) implies out@.contains(x) by {
                if !base@.contains(x) {
                    let p = choose|p: int|
                        0 <= p <= i && #[trigger] dates@.subrange(0, i as int + 1)[p] == x;
                    if p < i {
                        assert(dates@.subrange(0, i as int)[p] == x);
                    } else {
                        assert(x == d);
                    }
                }
            }
        }
        i += 1;
    }
    proof {
        assert(dates@.subrange(0, dates@.len() as int) =~= dates@);
    }
    out
}

/// Insert a date into a sorted duplicate-free vector, keeping it so; a date
/// already present is left alone.
fn insert_sorted_unique(v: &mut Vec<Date>, d: Date)
    requires
        dates_sorted_strict(old(v)@),
        dates_valid(old(v)@),
        d.valid(),
    ensures
        dates_sorted_strict(final(v)@),
        dates_valid(final(v)@),
        forall|x: Date| final(v)@.contains(x) <==> old(v)@.contains(x) || x == d,
{
    let mut k: usize = 0;
    while k < v.len() && v[k].days < d.days
        invariant
            0 <= k <= v@.len(),
            forall|p: int| 0 <= p < k ==> (#[trigger] v@[p]).d() < d.d(),
            v@ == old(v)@,
        decreases v@.len() - k,
    {
        k += 1;
    }
    if k < v.len() && v[k].days == d.days {
        proof {
            assert(v@[k as int] == d);
            assert(v@.contains(d));
        }
        return ;
    }
    let ghost before = v@;
    proof {
        assert(forall|p: int| k <= p < before.len() ==> d.d() < (#[trigger] before[p]).d());
    }
    v.insert(k, d);
    proof {
        assert(v@ =~= before.insert(k as int, d));
        assert forall|x: Date| v@.contains(x) implies before.contains(x) || x == d by {
            let p = choose|p: int| 0 <= p < v@.len() && v@[p] == x;
            if p < k {
                assert(before[p] == x);
            } else if p > k {
                assert(before[p - 1] == x);
            }
        }
        assert forall|x: Date| before.contains(x) || x == d implies v@.contains(x) by {
            if before.contains(x) {
                let p = choose|p: int| 0 <= p < before.len() && before[p] == x;
                if p < k {
                    assert(v@[p] == x);
                } else {
                    assert(v@[p + 1] == x);
                }
            } else {
                assert(v@[k as int] == d);
            }
        }
        assert forall|p: int, q: int| 0 <= p < q < v@.len() implies v@[p].d() < v@[q].d() by {
            if q < k {
            } else if p >= k + 1 {
                assert(v@[p] == before[p - 1] && v@[q] == before[q - 1]);
            } else if p < k && q == k {
                assert(v@[p] == before[p]);
            } else if p == k {
                assert(v@[q] == before[q - 1]);
            } else {
                assert(v@[p] == before[p] && v@[q] == before[q - 1]);
                assert(p < k && q > k);
                if p < k && q - 1 >= k {
                    assert(before[p].d() < d.d());
                    assert(d.d() < before[q - 1].d());
                }
            }
        }
    }
}

} // verus!
