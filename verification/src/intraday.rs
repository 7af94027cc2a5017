//! The intraday engine: classification of instants against the trading
//! windows, navigation along the discontinuous business timeline, and
//! business-duration arithmetic.
//!
//! The central measure is `biz_before(bs, t)`: how many business seconds of
//! one day lie before the day second `t`.  Everything else — remaining time
//! of a day, elapsed time between instants, duration addition — is stated
//! in terms of it.

use vstd::prelude::*;
use crate::calendar::{Date, MAX_DAY};
use crate::config::{borders_wf, lemma_borders_wf_disjoint, CalendarConfig};
use crate::moments::{Duration, Instant, TimeBorder};
use crate::workdays::{
    check_workday, get_next_workday, get_previous_workday, walk_bound, workday_day, workdays_seq,
    workdays_seq_down,
};

verus! {

/// What a navigation result landed on: the start of a window, the end of a
/// window, or strictly inside one.
#[derive(Debug, Clone, Copy, PartialEq, Eq, Structural)]
pub enum BorderKind {
    /// The start of a business window.
    BorderStart,
    /// The end of a business window.
    BorderEnd,
    /// Strictly within a business window (returned unchanged).
    Intra,
}

/// The day second `t` lies inside some window (start inclusive, end
/// exclusive).
pub open spec fn in_border(bs: Seq<TimeBorder>, t: int) -> bool {
    exists|i: int| 0 <= i < bs.len() && (#[trigger] bs[i]).start <= t < bs[i].end
}

/// Business seconds of the window before day second `t`.
pub open spec fn clip_to(b: TimeBorder, t: int) -> int {
    if t <= b.start {
        0
    } else if t >= b.end {
        b.end - b.start
    } else {
        t - b.start
    }
}

/// Business seconds of the window at or after day second `t`.
pub open spec fn clip_from(b: TimeBorder, t: int) -> int {
    if t <= b.start {
        b.end - b.start
    } else if t >= b.end {
        0
    } else {
        b.end - t
    }
}

/// Total width of the first `j` windows.
pub open spec fn width_sum_to(bs: Seq<TimeBorder>, j: int) -> int
    decreases j,
{
    if j <= 0 {
        0
    } else {
        width_sum_to(bs, j - 1) + (bs[j - 1].end - bs[j - 1].start)
    }
}

/// Length of one full business day in seconds.
pub open spec fn width_sum(bs: Seq<TimeBorder>) -> int {
    width_sum_to(bs, bs.len() as int)
}

/// Business seconds of the first `j` windows before day second `t`.
pub open spec fn biz_before_to(bs: Seq<TimeBorder>, t: int, j: int) -> int
    decreases j,
{
    if j <= 0 {
        0
    } else {
        biz_before_to(bs, t, j - 1) + clip_to(bs[j - 1], t)
    }
}

/// Business seconds of the day before day second `t`.
pub open spec fn biz_before(bs: Seq<TimeBorder>, t: int) -> int {
    biz_before_to(bs, t, bs.len() as int)
}

/// Business seconds of the first `j` windows at or after day second `t`.
pub open spec fn after_sum(bs: Seq<TimeBorder>, t: int, j: int) -> int
    decreases j,
{
    if j <= 0 {
        0
    } else {
        after_sum(bs, t, j - 1) + clip_from(bs[j - 1], t)
    }
}

/// Business seconds of the day at or after day second `t`.
pub open spec fn biz_after(bs: Seq<TimeBorder>, t: int) -> int {
    after_sum(bs, t, bs.len() as int)
}

/// The instant is a business instant: a working day, inside a window.
pub open spec fn spec_is_business(cfg: CalendarConfig, t: Instant) -> bool {
    workday_day(cfg, t.date.d()) && in_border(cfg.borders_seq(), t.time as int)
}

/// The business time the three-part measuring formula reports from `t1`
/// to `t2`: the
/// business seconds of `t1`'s day at or after `t1` (when that day works),
/// one full business day per working day strictly between the dates, and
/// the business seconds of `t2`'s day before `t2` (when that day works).
/// For a pair on one common working day the first and third part overlap,
/// so the sum then exceeds the true elapsed business time by one full day.
pub open spec fn spec_timedelta(cfg: CalendarConfig, t1: Instant, t2: Instant) -> int {
    let bs = cfg.borders_seq();
    (if workday_day(cfg, t1.date.d()) {
        biz_after(bs, t1.time as int)
    } else {
        0
    }) + width_sum(bs) * workdays_seq(cfg, t1.date.d() + 1, t2.date.d() - 1).len() + (
    if workday_day(cfg, t2.date.d()) {
        biz_before(bs, t2.time as int)
    } else {
        0
    })
}

/// The true elapsed business time from `t1` to `t2` (for `t1 <= t2`): like
/// `spec_timedelta`, but correct also when the instants share one day.
pub open spec fn spec_elapsed(cfg: CalendarConfig, t1: Instant, t2: Instant) -> int {
    let bs = cfg.borders_seq();
    if t1.date.d() == t2.date.d() {
        if workday_day(cfg, t1.date.d()) {
            biz_before(bs, t2.time as int) - biz_before(bs, t1.time as int)
        } else {
            0
        }
    } else {
        spec_timedelta(cfg, t1, t2)
    }
}

/// Every partial sum is non-negative and the clip functions split each
/// window: prefix sums of `clip_to` and `clip_from` add up to the prefix
/// width.
pub proof fn lemma_sums_basic(bs: Seq<TimeBorder>, t: int, j: int)
    requires
        forall|i: int| 0 <= i < bs.len() ==> (#[trigger] bs[i]).wf(),
        0 <= j <= bs.len(),
    ensures
        0 <= biz_before_to(bs, t, j) <= width_sum_to(bs, j),
        0 <= after_sum(bs, t, j) <= width_sum_to(bs, j),
        biz_before_to(bs, t, j) + after_sum(bs, t, j) == width_sum_to(bs, j),
    decreases j,
{
    if j > 0 {
        lemma_sums_basic(bs, t, j - 1);
    }
}

/// The widths of the first `j` windows fit before the `j`-th window's
/// start, so a whole business day is never longer than a calendar day.
pub proof fn lemma_width_sum_bounds(bs: Seq<TimeBorder>, j: int)
    requires
        borders_wf(bs),
        0 <= j <= bs.len(),
    ensures
        j >= 1 ==> 1 <= width_sum_to(bs, j) <= bs[j - 1].end,
        width_sum_to(bs, j) <= 86400,
        j == bs.len() ==> 1 <= width_sum(bs) <= 86400,
    decreases j,
{
    if j >= 1 {
        lemma_width_sum_bounds(bs, j - 1);
        if j >= 2 {
            assert(bs[j - 2].end <= bs[j - 1].start);
        }
        assert(bs[j - 1].wf());
    }
}

/// Before the first window start nothing has elapsed.
pub proof fn lemma_biz_before_zero(bs: Seq<TimeBorder>, t: int, j: int)
    requires
        0 <= j <= bs.len(),
        forall|i: int| 0 <= i < j ==> t <= (#[trigger] bs[i]).start,
    ensures
        biz_before_to(bs, t, j) == 0,
    decreases j,
{
    if j > 0 {
        lemma_biz_before_zero(bs, t, j - 1);
    }
}

/// After the last window end the whole day has elapsed.
pub proof fn lemma_biz_before_saturated(bs: Seq<TimeBorder>, t: int, j: int)
    requires
        forall|i: int| 0 <= i < j ==> (#[trigger] bs[i]).wf(),
        0 <= j <= bs.len(),
        forall|i: int| 0 <= i < j ==> (#[trigger] bs[i]).end <= t,
    ensures
        biz_before_to(bs, t, j) == width_sum_to(bs, j),
    decreases j,
{
    if j > 0 {
        lemma_biz_before_saturated(bs, t, j - 1);
        assert(bs[j - 1].end <= t);
    }
}

/// When no window intersects `(x, y)`, no business time elapses between.
pub proof fn lemma_biz_before_gap(bs: Seq<TimeBorder>, x: int, y: int, j: int)
    requires
        forall|i: int| 0 <= i < j ==> (#[trigger] bs[i]).wf(),
        0 <= j <= bs.len(),
        x <= y,
        forall|i: int| 0 <= i < j ==> (#[trigger] bs[i]).end <= x || y <= bs[i].start,
    ensures
        biz_before_to(bs, x, j) == biz_before_to(bs, y, j),
    decreases j,
{
    if j > 0 {
        lemma_biz_before_gap(bs, x, y, j - 1);
        assert(bs[j - 1].end <= x || y <= bs[j - 1].start);
    }
}

/// First window end after day second `t`, scanning from window `j` on;
/// `-1` when none remains.
pub open spec fn first_end_after_from(bs: Seq<TimeBorder>, t: int, j: int) -> int
    decreases bs.len() - j,
{
    if j < 0 || j >= bs.len() {
        -1
    } else if bs[j].end > t {
        bs[j].end as int
    } else {
        first_end_after_from(bs, t, j + 1)
    }
}

/// The earliest window end strictly after `t`, or `-1`.
pub open spec fn first_end_after(bs: Seq<TimeBorder>, t: int) -> int {
    first_end_after_from(bs, t, 0)
}

/// First window start after day second `t`, scanning from window `j` on;
/// `-1` when none remains.
pub open spec fn first_start_after_from(bs: Seq<TimeBorder>, t: int, j: int) -> int
    decreases bs.len() - j,
{
    if j < 0 || j >= bs.len() {
        -1
    } else if bs[j].start > t {
        bs[j].start as int
    } else {
        first_start_after_from(bs, t, j + 1)
    }
}

/// The earliest window start strictly after `t`, or `-1`.
pub open spec fn first_start_after(bs: Seq<TimeBorder>, t: int) -> int {
    first_start_after_from(bs, t, 0)
}

/// Last window end at or before day second `t`, scanning down from window
/// `j`; `-1` when none remains.
pub open spec fn last_end_leq_from(bs: Seq<TimeBorder>, t: int, j: int) -> int
    decreases j + 1,
{
    if j < 0 || j >= bs.len() {
        -1
    } else if bs[j].end <= t {
        bs[j].end as int
    } else {
        last_end_leq_from(bs, t, j - 1)
    }
}

/// The latest window end at or before `t`, or `-1`.
pub open spec fn last_end_leq(bs: Seq<TimeBorder>, t: int) -> int {
    last_end_leq_from(bs, t, bs.len() - 1)
}

/// Last window start strictly before day second `t`, scanning down from
/// window `j`; `-1` when none remains.
pub open spec fn last_start_lt_from(bs: Seq<TimeBorder>, t: int, j: int) -> int
    decreases j + 1,
{
    if j < 0 || j >= bs.len() {
        -1
    } else if bs[j].start < t {
        bs[j].start as int
    } else {
        last_start_lt_from(bs, t, j - 1)
    }
}

/// The latest window start strictly before `t`, or `-1`.
pub open spec fn last_start_lt(bs: Seq<TimeBorder>, t: int) -> int {
    last_start_lt_from(bs, t, bs.len() - 1)
}

/// `t` is the start of some window.
pub open spec fn is_start_time(bs: Seq<TimeBorder>, t: int) -> bool {
    exists|i: int| 0 <= i < bs.len() && (#[trigger] bs[i]).start == t
}

/// `t` is the end of some window.
pub open spec fn is_end_time(bs: Seq<TimeBorder>, t: int) -> bool {
    exists|i: int| 0 <= i < bs.len() && (#[trigger] bs[i]).end == t
}

/// What `first_end_after` returns: `-1` exactly when every end is at or
/// before `t`, else the least end above `t`.
pub proof fn lemma_first_end_after_char(bs: Seq<TimeBorder>, t: int, j: int)
    requires
        borders_wf(bs),
        0 <= j <= bs.len(),
    ensures
        -1 <= first_end_after_from(bs, t, j),
        first_end_after_from(bs, t, j) == -1 ==> forall|k: int|
            j <= k < bs.len() ==> (#[trigger] bs[k]).end <= t,
        first_end_after_from(bs, t, j) >= 0 ==> exists|k: int|
            j <= k < bs.len() && (#[trigger] bs[k]).end == first_end_after_from(bs, t, j)
                && bs[k].end > t,
        first_end_after_from(bs, t, j) >= 0 ==> forall|k: int|
            j <= k < bs.len() && (#[trigger] bs[k]).end > t ==> bs[k].end >= first_end_after_from(
                bs,
                t,
                j,
            ),
    decreases bs.len() - j,
{
    if j < bs.len() {
        if bs[j].end > t {
            assert forall|k: int| j <= k < bs.len() && (#[trigger] bs[k]).end > t implies bs[k].end
                >= bs[j].end by {
                if k > j {
                    lemma_borders_wf_disjoint(bs, j, k);
                    assert(bs[k].wf());
                }
            }
        } else {
            lemma_first_end_after_char(bs, t, j + 1);
        }
    }
}

/// What `first_start_after` returns, in the same shape.
pub proof fn lemma_first_start_after_char(bs: Seq<TimeBorder>, t: int, j: int)
    requires
        borders_wf(bs),
        0 <= j <= bs.len(),
    ensures
        -1 <= first_start_after_from(bs, t, j),
        first_start_after_from(bs, t, j) == -1 ==> forall|k: int|
            j <= k < bs.len() ==> (#[trigger] bs[k]).start <= t,
        first_start_after_from(bs, t, j) >= 0 ==> exists|k: int|
            j <= k < bs.len() && (#[trigger] bs[k]).start == first_start_after_from(bs, t, j)
                && bs[k].start > t,
        first_start_after_from(bs, t, j) >= 0 ==> forall|k: int|
            j <= k < bs.len() && (#[trigger] bs[k]).start > t ==> bs[k].start
                >= first_start_after_from(bs, t, j),
    decreases bs.len() - j,
{
    if j < bs.len() {
        if bs[j].start > t {
            assert forall|k: int|
                j <= k < bs.len() && (#[trigger] bs[k]).start > t implies bs[k].start
                >= bs[j].start by {
                if k > j {
                    lemma_borders_wf_disjoint(bs, j, k);
                    assert(bs[j].wf());
                }
            }
        } else {
            lemma_first_start_after_char(bs, t, j + 1);
        }
    }
}

/// What `last_end_leq` returns, in the same shape.
pub proof fn lemma_last_end_leq_char(bs: Seq<TimeBorder>, t: int, j: int)
    requires
        borders_wf(bs),
        -1 <= j < bs.len(),
    ensures
        -1 <= last_end_leq_from(bs, t, j),
        last_end_leq_from(bs, t, j) == -1 ==> forall|k: int|
            0 <= k <= j ==> (#[trigger] bs[k]).end > t,
        last_end_leq_from(bs, t, j) >= 0 ==> exists|k: int|
            0 <= k <= j && (#[trigger] bs[k]).end == last_end_leq_from(bs, t, j) && bs[k].end <= t,
        last_end_leq_from(bs, t, j) >= 0 ==> forall|k: int|
            0 <= k <= j && (#[trigger] bs[k]).end <= t ==> bs[k].end <= last_end_leq_from(bs, t, j),
    decreases j + 1,
{
    if j >= 0 {
        if bs[j].end <= t {
            assert forall|k: int| 0 <= k <= j && (#[trigger] bs[k]).end <= t implies bs[k].end
                <= bs[j].end by {
                if k < j {
                    lemma_borders_wf_disjoint(bs, k, j);
                    assert(bs[j].wf());
                }
            }
        } else {
            lemma_last_end_leq_char(bs, t, j - 1);
        }
    }
}

/// What `last_start_lt` returns, in the same shape.
pub proof fn lemma_last_start_lt_char(bs: Seq<TimeBorder>, t: int, j: int)
    requires
        borders_wf(bs),
        -1 <= j < bs.len(),
    ensures
        -1 <= last_start_lt_from(bs, t, j),
        last_start_lt_from(bs, t, j) == -1 ==> forall|k: int|
            0 <= k <= j ==> (#[trigger] bs[k]).start >= t,
        last_start_lt_from(bs, t, j) >= 0 ==> exists|k: int|
            0 <= k <= j && (#[trigger] bs[k]).start == last_start_lt_from(bs, t, j) && bs[k].start
                < t,
        last_start_lt_from(bs, t, j) >= 0 ==> forall|k: int|
            0 <= k <= j && (#[trigger] bs[k]).start < t ==> bs[k].start <= last_start_lt_from(
                bs,
                t,
                j,
            ),
    decreases j + 1,
{
    if j >= 0 {
        if bs[j].start < t {
            assert forall|k: int| 0 <= k <= j && (#[trigger] bs[k]).start < t implies bs[k].start
                <= bs[j].start by {
                if k < j {
                    lemma_borders_wf_disjoint(bs, k, j);
                    assert(bs[k].wf());
                }
            }
        } else {
            lemma_last_start_lt_char(bs, t, j - 1);
        }
    }
}

/// The window containing `t` is unique, and `first_end_after` lands on its
/// end.
pub proof fn lemma_containing_window(bs: Seq<TimeBorder>, t: int) -> (i: int)
    requires
        borders_wf(bs),
        in_border(bs, t),
    ensures
        0 <= i < bs.len(),
        bs[i].start <= t < bs[i].end,
        first_end_after(bs, t) == bs[i].end,
        forall|k: int| 0 <= k < bs.len() && k != i ==> !((#[trigger] bs[k]).start <= t < bs[k].end),
{
    let i = choose|i: int| 0 <= i < bs.len() && (#[trigger] bs[i]).start <= t < bs[i].end;
    assert forall|k: int|
        0 <= k < bs.len() && k != i implies !((#[trigger] bs[k]).start <= t < bs[k].end) by {
        if k < i {
            lemma_borders_wf_disjoint(bs, k, i);
        } else {
            lemma_borders_wf_disjoint(bs, i, k);
        }
    }
    lemma_first_end_after_char(bs, t, 0);
    assert(bs[i].end > t);
    let v = first_end_after(bs, t);
    if v == -1 {
        assert(first_end_after_from(bs, t, 0) == -1);
        assert(bs[i].end <= t);
        assert(false);
    }
    assert(v >= 0 ==> v <= bs[i].end);
    assert(v >= 0);
    let k = choose|k: int| 0 <= k < bs.len() && (#[trigger] bs[k]).end == v && bs[k].end > t;
    if k < i {
        lemma_borders_wf_disjoint(bs, k, i);
    } else if k > i {
        lemma_borders_wf_disjoint(bs, i, k);
        assert(bs[k].wf());
        assert(bs[k].end >= bs[i].end);
    }
    i
}

/// Inside one window business time elapses second for second.
pub proof fn lemma_biz_before_linear(bs: Seq<TimeBorder>, k: int, x: int, y: int, j: int)
    requires
        borders_wf(bs),
        0 <= k < bs.len(),
        bs[k].start <= x <= y <= bs[k].end,
        0 <= j <= bs.len(),
    ensures
        biz_before_to(bs, y, j) == biz_before_to(bs, x, j) + if j > k {
            y - x
        } else {
            0int
        },
    decreases j,
{
    if j > 0 {
        lemma_biz_before_linear(bs, k, x, y, j - 1);
        if j - 1 != k {
            if j - 1 < k {
                lemma_borders_wf_disjoint(bs, j - 1, k);
            } else {
                lemma_borders_wf_disjoint(bs, k, j - 1);
            }
            assert(clip_to(bs[j - 1], x) == clip_to(bs[j - 1], y));
        }
    }
}



/// A mirrored form of `lemma_biz_before_zero` for `after_sum`: with
/// nothing cut off, each prefix contributes its full width.
pub proof fn lemma_after_sum_full(bs: Seq<TimeBorder>, t: int, j: int)
    requires
        0 <= j <= bs.len(),
        forall|i: int| 0 <= i < j ==> t <= (#[trigger] bs[i]).start,
    ensures
        after_sum(bs, t, j) == width_sum_to(bs, j),
    decreases j,
{
    if j > 0 {
        lemma_after_sum_full(bs, t, j - 1);
        assert(t <= bs[j - 1].start);
    }
}

/// Reaching day second `x` inside or at the end of window `k`, the
/// business time since day second `t` (with `t` before `x` and not past
/// window `k`) is the business time of the windows between plus the used
/// part of window `k`.
pub proof fn lemma_biz_window_split(bs: Seq<TimeBorder>, t: int, k: int, x: int, m: int)
    requires
        borders_wf(bs),
        0 <= k < bs.len(),
        bs[k].end > t,
        if bs[k].start > t {
            bs[k].start <= x <= bs[k].end
        } else {
            t <= x <= bs[k].end
        },
        0 <= m <= bs.len(),
    ensures
        biz_before_to(bs, x, m) == if m <= k {
            biz_before_to(bs, t, m) + after_sum(bs, t, m)
        } else {
            biz_before_to(bs, t, m) + after_sum(bs, t, k) + (x - (if bs[k].start > t {
                bs[k].start as int
            } else {
                t
            }))
        },
    decreases m,
{
    if m > 0 {
        lemma_biz_window_split(bs, t, k, x, m - 1);
        if m - 1 < k {
            lemma_borders_wf_disjoint(bs, m - 1, k);
            assert(bs[m - 1].wf());
            assert(bs[m - 1].end <= bs[k].start);
        } else if m - 1 == k {
            assert(bs[k].wf());
        } else {
            lemma_borders_wf_disjoint(bs, k, m - 1);
            assert(bs[m - 1].wf());
            assert(bs[k].end <= bs[m - 1].start);
            assert(clip_to(bs[m - 1], x) == 0);
            assert(clip_to(bs[m - 1], t) == 0);
        }
    }
}

/// Splitting a day range splits the count of its working days.
pub proof fn lemma_workdays_len_split(cfg: CalendarConfig, lo: int, mid: int, hi: int)
    requires
        lo <= mid + 1,
        mid <= hi,
    ensures
        workdays_seq(cfg, lo, hi).len() == workdays_seq(cfg, lo, mid).len() + workdays_seq(
            cfg,
            mid + 1,
            hi,
        ).len(),
    decreases hi - mid,
{
    if hi > mid {
        lemma_workdays_len_split(cfg, lo, mid, hi - 1);
    }
}

/// Peeling the lowest day off an ascending working-day range.
pub proof fn lemma_workdays_len_unfold_left(cfg: CalendarConfig, lo: int, hi: int)
    requires
        lo <= hi,
    ensures
        workdays_seq(cfg, lo, hi).len() == (if workday_day(cfg, lo) {
            1int
        } else {
            0int
        }) + workdays_seq(cfg, lo + 1, hi).len(),
    decreases hi - lo,
{
    if hi > lo {
        lemma_workdays_len_unfold_left(cfg, lo, hi - 1);
        assert(workdays_seq(cfg, lo, hi) == workdays_seq(cfg, lo, hi - 1) + if workday_day(
            cfg,
            hi,
        ) {
            seq![crate::workdays::date_of(hi)]
        } else {
            Seq::empty()
        });
        assert(workdays_seq(cfg, lo + 1, hi) == workdays_seq(cfg, lo + 1, hi - 1) + if workday_day(
            cfg,
            hi,
        ) {
            seq![crate::workdays::date_of(hi)]
        } else {
            Seq::empty()
        });
    } else {
        assert(workdays_seq(cfg, lo + 1, hi).len() == 0);
        assert(workdays_seq(cfg, lo, hi) == workdays_seq(cfg, lo, hi - 1) + if workday_day(
            cfg,
            lo,
        ) {
            seq![crate::workdays::date_of(lo)]
        } else {
            Seq::empty()
        });
        assert(workdays_seq(cfg, lo, hi - 1).len() == 0);
    }
}

/// The descending and ascending working-day ranges have the same length.
pub proof fn lemma_workdays_len_updown(cfg: CalendarConfig, lo: int, hi: int)
    ensures
        workdays_seq_down(cfg, hi, lo).len() == workdays_seq(cfg, lo, hi).len(),
    decreases hi - lo + 1,
{
    if hi >= lo {
        lemma_workdays_len_updown(cfg, lo + 1, hi);
        lemma_workdays_len_unfold_left(cfg, lo, hi);
    }
}



/// Whether day second `time` lies inside some window.
fn in_border_exec(bs: &Vec<TimeBorder>, time: u32) -> (r: bool)
    ensures
        r == in_border(bs@, time as int),
{
    let mut j: usize = 0;
    while j < bs.len()
        invariant
            0 <= j <= bs@.len(),
            forall|k: int| 0 <= k < j ==> !((#[trigger] bs@[k]).start <= time < bs@[k].end),
        decreases bs@.len() - j,
    {
        if bs[j].start <= time && time < bs[j].end {
            proof {
                assert(bs@[j as int].start <= time < bs@[j as int].end);
            }
            return true;
        }
        j += 1;
    }
    false
}

/// Whether day second `time` is the start of some window.
fn is_start_exec(bs: &Vec<TimeBorder>, time: u32) -> (r: bool)
    ensures
        r == is_start_time(bs@, time as int),
{
    let mut j: usize = 0;
    while j < bs.len()
        invariant
            0 <= j <= bs@.len(),
            forall|k: int| 0 <= k < j ==> (#[trigger] bs@[k]).start != time,
        decreases bs@.len() - j,
    {
        if bs[j].start == time {
            proof {
                assert(bs@[j as int].start == time);
            }
            return true;
        }
        j += 1;
    }
    false
}

/// Whether day second `time` is the end of some window.
fn is_end_exec(bs: &Vec<TimeBorder>, time: u32) -> (r: bool)
    ensures
        r == is_end_time(bs@, time as int),
{
    let mut j: usize = 0;
    while j < bs.len()
        invariant
            0 <= j <= bs@.len(),
            forall|k: int| 0 <= k < j ==> (#[trigger] bs@[k]).end != time,
        decreases bs@.len() - j,
    {
        if bs[j].end == time {
            proof {
                assert(bs@[j as int].end == time);
            }
            return true;
        }
        j += 1;
    }
    false
}

/// The earliest window end strictly after `time`, scanning forward.
fn scan_first_end_after(bs: &Vec<TimeBorder>, time: u32) -> (r: Option<u32>)
    ensures
        r is Some <==> first_end_after(bs@, time as int) >= 0,
        r is Some ==> r->Some_0 as int == first_end_after(bs@, time as int),
{
    let mut j: usize = 0;
    while j < bs.len()
        invariant
            0 <= j <= bs@.len(),
            first_end_after(bs@, time as int) == first_end_after_from(bs@, time as int, j as int),
        decreases bs@.len() - j,
    {
        if bs[j].end > time {
            return Some(bs[j].end);
        }
        j += 1;
    }
    None
}

/// The earliest window start strictly after `time`, scanning forward.
fn scan_first_start_after(bs: &Vec<TimeBorder>, time: u32) -> (r: Option<u32>)
    ensures
        r is Some <==> first_start_after(bs@, time as int) >= 0,
        r is Some ==> r->Some_0 as int == first_start_after(bs@, time as int),
{
    let mut j: usize = 0;
    while j < bs.len()
        invariant
            0 <= j <= bs@.len(),
            first_start_after(bs@, time as int) == first_start_after_from(
                bs@,
                time as int,
                j as int,
            ),
        decreases bs@.len() - j,
    {
        if bs[j].start > time {
            return Some(bs[j].start);
        }
        j += 1;
    }
    None
}

/// The latest window end at or before `time`, scanning backward.
fn scan_last_end_leq(bs: &Vec<TimeBorder>, time: u32) -> (r: Option<u32>)
    ensures
        r is Some <==> last_end_leq(bs@, time as int) >= 0,
        r is Some ==> r->Some_0 as int == last_end_leq(bs@, time as int),
{
    let mut j: usize = bs.len();
    while j > 0
        invariant
            0 <= j <= bs@.len(),
            last_end_leq(bs@, time as int) == last_end_leq_from(bs@, time as int, j - 1),
        decreases j,
    {
        if bs[j - 1].end <= time {
            return Some(bs[j - 1].end);
        }
        j -= 1;
    }
    None
}

/// The latest window start strictly before `time`, scanning backward.
fn scan_last_start_lt(bs: &Vec<TimeBorder>, time: u32) -> (r: Option<u32>)
    ensures
        r is Some <==> last_start_lt(bs@, time as int) >= 0,
        r is Some ==> r->Some_0 as int == last_start_lt(bs@, time as int),
{
    let mut j: usize = bs.len();
    while j > 0
        invariant
            0 <= j <= bs@.len(),
            last_start_lt(bs@, time as int) == last_start_lt_from(bs@, time as int, j - 1),
        decreases j,
    {
        if bs[j - 1].start < time {
            return Some(bs[j - 1].start);
        }
        j -= 1;
    }
    None
}

/// Whether `select_datetime` is a business instant: a working day and a
/// time inside one of the intraday windows.
pub fn check_workday_intraday(cfg: &CalendarConfig, select_datetime: Instant) -> (r: bool)
    requires
        cfg.wf(),
        select_datetime.valid(),
    ensures
        r == spec_is_business(*cfg, select_datetime),
{
    if check_workday(cfg, select_datetime.date) {
        proof {
            assert(crate::workdays::date_of(select_datetime.date.d()) == select_datetime.date);
        }
        in_border_exec(&cfg.borders, select_datetime.time)
    } else {
        false
    }
}

/// Where `get_next_border_workday_intraday` must land, by case: the end of
/// the window containing the instant; else the next window start of the
/// same working day; else the first window start of the next working day.
pub open spec fn next_border_ok(
    cfg: CalendarConfig,
    t: Instant,
    out: Instant,
    kind: BorderKind,
) -> bool {
    let d = t.date.d();
    let tau = t.time as int;
    let bs = cfg.borders_seq();
    if workday_day(cfg, d) && in_border(bs, tau) {
        out.date == t.date && out.time as int == first_end_after(bs, tau) && kind
            == BorderKind::BorderEnd
    } else if workday_day(cfg, d) && first_start_after(bs, tau) >= 0 {
        out.date == t.date && out.time as int == first_start_after(bs, tau) && kind
            == BorderKind::BorderStart
    } else {
        out.time == bs[0].start && kind == BorderKind::BorderStart && out.date.d() > d
            && workday_day(cfg, out.date.d()) && workdays_seq(cfg, d + 1, out.date.d()).len() == 1
    }
}

/// Where `get_previous_border_workday_intraday` must land, by case.
pub open spec fn previous_border_ok(
    cfg: CalendarConfig,
    t: Instant,
    force_is_end: bool,
    out: Instant,
    kind: BorderKind,
) -> bool {
    let d = t.date.d();
    let tau = t.time as int;
    let bs = cfg.borders_seq();
    if workday_day(cfg, d) && in_border(bs, tau) && !is_start_time(bs, tau) {
        out.date == t.date && out.time as int == last_start_lt(bs, tau) && kind
            == BorderKind::BorderStart
    } else if workday_day(cfg, d) && force_is_end && is_end_time(bs, tau) {
        out.date == t.date && out.time as int == last_start_lt(bs, tau) && kind
            == BorderKind::BorderStart
    } else if workday_day(cfg, d) && last_end_leq(bs, tau) >= 0 {
        out.date == t.date && out.time as int == last_end_leq(bs, tau) && kind
            == BorderKind::BorderEnd
    } else {
        out.time == bs[bs.len() - 1].end && kind == BorderKind::BorderEnd && out.date.d() < d
            && workday_day(cfg, out.date.d()) && workdays_seq_down(cfg, d - 1, out.date.d()).len()
            == 1
    }
}

/// The next instant where the business state changes, looking forward: the
/// end of the current window from inside one, else the next window start
/// of the current or next working day.
pub fn get_next_border_workday_intraday(cfg: &CalendarConfig, select_datetime: Instant) -> (r: (
    Instant,
    BorderKind,
))
    requires
        cfg.wf(),
        select_datetime.valid(),
        !(workday_day(*cfg, select_datetime.date.d()) && (in_border(
            cfg.borders_seq(),
            select_datetime.time as int,
        ) || first_start_after(cfg.borders_seq(), select_datetime.time as int) >= 0))
            ==> select_datetime.date.d() + walk_bound(*cfg, 1) <= MAX_DAY,
    ensures
        r.0.valid(),
        next_border_ok(*cfg, select_datetime, r.0, r.1),
        r.1 == BorderKind::BorderStart ==> spec_is_business(*cfg, r.0),
{
    let bs = &cfg.borders;
    let d = select_datetime.date;
    let tau = select_datetime.time;
    proof {
        assert(crate::workdays::date_of(d.d()) == d);
        lemma_first_start_after_char(bs@, tau as int, 0);
    }
    if check_workday(cfg, d) {
        if in_border_exec(bs, tau) {
            proof {
                let i = lemma_containing_window(bs@, tau as int);
                assert(bs@[i].wf());
            }
            let e = match scan_first_end_after(bs, tau) {
                Some(e) => e,
                None => {
                    proof {
                        assert(false);
                    }
                    0
                },
            };
            return (Instant { date: d, time: e }, BorderKind::BorderEnd);
        }
        match scan_first_start_after(bs, tau) {
            Some(st) => {
                proof {
                    let k = choose|k: int|
                        0 <= k < bs@.len() && (#[trigger] bs@[k]).start == first_start_after(
                            bs@,
                            tau as int,
                        ) && bs@[k].start > tau as int;
                    assert(bs@[k].wf());
                    assert(bs@[k].start <= st < bs@[k].end);
                }
                return (Instant { date: d, time: st }, BorderKind::BorderStart);
            },
            None => {},
        }
    }
    let out_date = get_next_workday(cfg, d, 1);
    let st = bs[0].start;
    proof {
        assert(bs@[0].wf());
        assert(bs@[0].start <= st < bs@[0].end);
        assert(crate::workdays::date_of(out_date.d()) == out_date);
    }
    (Instant { date: out_date, time: st }, BorderKind::BorderStart)
}

/// The previous instant where the business state changes, looking
/// backward: the start of the current window from strictly inside one,
/// else the latest window end at or before the instant, on this or the
/// previous working day.  With `force_is_end` set, an instant sitting
/// exactly on a window end steps back to that window's start instead of
/// standing still.
pub fn get_previous_border_workday_intraday(
    cfg: &CalendarConfig,
    select_datetime: Instant,
    force_is_end: bool,
) -> (r: (Instant, BorderKind))
    requires
        cfg.wf(),
        select_datetime.valid(),
        !(workday_day(*cfg, select_datetime.date.d()) && ((in_border(
            cfg.borders_seq(),
            select_datetime.time as int,
        ) && !is_start_time(cfg.borders_seq(), select_datetime.time as int)) || (force_is_end
            && is_end_time(cfg.borders_seq(), select_datetime.time as int)) || last_end_leq(
            cfg.borders_seq(),
            select_datetime.time as int,
        ) >= 0)) ==> select_datetime.date.d() >= walk_bound(*cfg, 1),
    ensures
        r.0.valid(),
        previous_border_ok(*cfg, select_datetime, force_is_end, r.0, r.1),
{
    let bs = &cfg.borders;
    let d = select_datetime.date;
    let tau = select_datetime.time;
    proof {
        assert(crate::workdays::date_of(d.d()) == d);
        lemma_last_start_lt_char(bs@, tau as int, bs@.len() - 1);
        lemma_last_end_leq_char(bs@, tau as int, bs@.len() - 1);
    }
    if check_workday(cfg, d) {
        let inside = in_border_exec(bs, tau);
        let at_start = is_start_exec(bs, tau);
        if inside && !at_start {
            proof {
                let i = lemma_containing_window(bs@, tau as int);
                assert(bs@[i].start != tau as int);
                assert(bs@[i].start < tau as int);
            }
            let st = match scan_last_start_lt(bs, tau) {
                Some(st) => st,
                None => {
                    proof {
                        assert(false);
                    }
                    0
                },
            };
            return (Instant { date: d, time: st }, BorderKind::BorderStart);
        }
        if force_is_end {
            if is_end_exec(bs, tau) {
                proof {
                    let i = choose|i: int|
                        0 <= i < bs@.len() && (#[trigger] bs@[i]).end == tau as int;
                    assert(bs@[i].wf());
                    assert(bs@[i].start < tau as int);
                }
                let st = match scan_last_start_lt(bs, tau) {
                    Some(st) => st,
                    None => {
                        proof {
                            assert(false);
                        }
                        0
                    },
                };
                return (Instant { date: d, time: st }, BorderKind::BorderStart);
            }
        }
        match scan_last_end_leq(bs, tau) {
            Some(e) => {
                return (Instant { date: d, time: e }, BorderKind::BorderEnd);
            },
            None => {},
        }
    }
    let out_date = get_previous_workday(cfg, d, 1);
    let e = bs[bs.len() - 1].end;
    proof {
        assert(bs@[bs@.len() - 1].wf());
        assert(crate::workdays::date_of(out_date.d()) == out_date);
    }
    (Instant { date: out_date, time: e }, BorderKind::BorderEnd)
}

/// The nearest business instant: `select_datetime` itself when it is one,
/// else the next (or previous) border instant in the chosen direction.
pub fn get_near_workday_intraday(cfg: &CalendarConfig, select_datetime: Instant, is_after: bool) -> (r: (
    Instant,
    BorderKind,
))
    requires
        cfg.wf(),
        select_datetime.valid(),
        !spec_is_business(*cfg, select_datetime) && is_after ==> (!(workday_day(
            *cfg,
            select_datetime.date.d(),
        ) && first_start_after(cfg.borders_seq(), select_datetime.time as int) >= 0)
            ==> select_datetime.date.d() + walk_bound(*cfg, 1) <= MAX_DAY),
        !spec_is_business(*cfg, select_datetime) && !is_after ==> (!(workday_day(
            *cfg,
            select_datetime.date.d(),
        ) && last_end_leq(cfg.borders_seq(), select_datetime.time as int) >= 0)
            ==> select_datetime.date.d() >= walk_bound(*cfg, 1)),
    ensures
        r.0.valid(),
        spec_is_business(*cfg, select_datetime) ==> r.0 == select_datetime && r.1
            == BorderKind::Intra,
        !spec_is_business(*cfg, select_datetime) && is_after ==> next_border_ok(
            *cfg,
            select_datetime,
            r.0,
            r.1,
        ),
        !spec_is_business(*cfg, select_datetime) && !is_after ==> previous_border_ok(
            *cfg,
            select_datetime,
            false,
            r.0,
            r.1,
        ),
{
    if check_workday_intraday(cfg, select_datetime) {
        (select_datetime, BorderKind::Intra)
    } else if is_after {
        get_next_border_workday_intraday(cfg, select_datetime)
    } else {
        get_previous_border_workday_intraday(cfg, select_datetime, false)
    }
}


/// After business time is exactly exhausted at the window end `e` of
/// working day `dd`, the result rolls forward to the next window start:
/// the nearest business instant with no business time in between.
fn roll_forward(cfg: &CalendarConfig, dd: Date, e: u32) -> (r: Instant)
    requires
        cfg.wf(),
        dd.valid(),
        workday_day(*cfg, dd.d()),
        is_end_time(cfg.borders_seq(), e as int),
        e < 86400,
        dd.d() + walk_bound(*cfg, 1) <= MAX_DAY,
    ensures
        r.valid(),
        spec_is_business(*cfg, r),
        r.date.d() == dd.d() ==> r.time >= e && biz_before(cfg.borders_seq(), r.time as int)
            == biz_before(cfg.borders_seq(), e as int),
        r.date.d() != dd.d() ==> r.date.d() > dd.d() && workday_day(*cfg, r.date.d())
            && workdays_seq(*cfg, dd.d() + 1, r.date.d()).len() == 1 && biz_before(
            cfg.borders_seq(),
            e as int,
        ) == width_sum(cfg.borders_seq()) && biz_before(cfg.borders_seq(), r.time as int) == 0,
{
    let bs = &cfg.borders;
    if in_border_exec(bs, e) {
        // the exhausted window is immediately followed by another: its end
        // is already the next window's start
        return Instant { date: dd, time: e };
    }
    let (out, _kind) = get_next_border_workday_intraday(cfg, Instant { date: dd, time: e });
    proof {
        let bsv = bs@;
        let tau = e as int;
        lemma_first_start_after_char(bsv, tau, 0);
        if first_start_after(bsv, tau) >= 0 {
            // a later window starts today; nothing lies open in between
            let snext = first_start_after(bsv, tau);
            assert forall|i: int|
                0 <= i < bsv.len() implies (#[trigger] bsv[i]).end <= tau || snext
                <= bsv[i].start by {
                if bsv[i].start > tau {
                } else {
                    if tau < bsv[i].end {
                        assert(in_border(bsv, tau));
                    }
                }
            }
            lemma_biz_before_gap(bsv, tau, snext, bsv.len() as int);
            assert(out.date == dd && out.time as int == snext);
        } else {
            // today is exhausted: every window lies before `e`
            assert forall|i: int| 0 <= i < bsv.len() implies (#[trigger] bsv[i]).end <= tau by {
                assert(bsv[i].start <= tau);
                if tau < bsv[i].end {
                    assert(in_border(bsv, tau));
                }
            }
            lemma_biz_before_saturated(bsv, tau, bsv.len() as int);
            assert forall|i: int|
                0 <= i < bsv.len() implies (out.time as int) <= (#[trigger] bsv[i]).start by {
                if i > 0 {
                    lemma_borders_wf_disjoint(bsv, 0, i);
                    assert(bsv[0].wf());
                }
            }
            lemma_biz_before_zero(bsv, out.time as int, bsv.len() as int);
        }
    }
    out
}

/// At business distance `rem` into window `j`, measured from `t` within
/// the same day, the day second `x` closes the books: the business time
/// from `t` to `x` is the whole duration.
proof fn lemma_add_same_day(cfg: CalendarConfig, tau: int, j: int, x: int, rem: int, delta: int)
    requires
        borders_wf(cfg.borders_seq()),
        0 <= j < cfg.borders_seq().len(),
        cfg.borders_seq()[j].end > tau,
        rem == delta - after_sum(cfg.borders_seq(), tau, j),
        0 <= rem,
        x == (if cfg.borders_seq()[j].start > tau {
            cfg.borders_seq()[j].start as int
        } else {
            tau
        }) + rem,
        x <= cfg.borders_seq()[j].end,
    ensures
        biz_before(cfg.borders_seq(), x) - biz_before(cfg.borders_seq(), tau) == delta,
        tau <= x,
{
    lemma_biz_window_split(cfg.borders_seq(), tau, j, x, cfg.borders_seq().len() as int);
}

/// Landing at day second `x` of working day `g`, `k` working days past
/// `t`'s date, after `rem` business seconds into window `j`: the elapsed
/// business time from `t` equals the whole duration.
proof fn lemma_add_other_day(
    cfg: CalendarConfig,
    t: Instant,
    g: Date,
    j: int,
    x: int,
    rem: int,
    rem_c: int,
    k: int,
    delta: int,
)
    requires
        cfg.wf(),
        g.d() > t.date.d(),
        workday_day(cfg, g.d()),
        workdays_seq(cfg, t.date.d() + 1, g.d()).len() == k,
        0 <= j < cfg.borders_seq().len(),
        0 <= rem,
        x == cfg.borders_seq()[j].start + rem,
        x <= cfg.borders_seq()[j].end,
        rem == rem_c - after_sum(cfg.borders_seq(), -1, j),
        rem_c == (if workday_day(cfg, t.date.d()) {
            delta - biz_after(cfg.borders_seq(), t.time as int)
        } else {
            delta
        }) - width_sum(cfg.borders_seq()) * (k - 1),
    ensures
        biz_before(cfg.borders_seq(), x) == rem_c,
        spec_elapsed(cfg, t, Instant { date: g, time: x as u32 }) == delta,
{
    let bs = cfg.borders_seq();
    lemma_biz_before_zero(bs, -1, bs.len() as int);
    lemma_biz_window_split(bs, -1, j, x, bs.len() as int);
    assert(biz_before(bs, x) == after_sum(bs, -1, j) + rem);
    lemma_workdays_len_split(cfg, t.date.d() + 1, g.d() - 1, g.d());
    assert(workdays_seq(cfg, g.d(), g.d()).len() == 1);
    assert(workdays_seq(cfg, t.date.d() + 1, g.d() - 1).len() == k - 1);
}

/// After rolling forward from the exactly exhausted window end `e` of
/// working day `dd`, the elapsed business time from `t` is unchanged.
proof fn lemma_add_roll(cfg: CalendarConfig, t: Instant, dd: Date, e: int, out: Instant, delta: int)
    requires
        cfg.wf(),
        dd.d() >= t.date.d(),
        dd.d() == t.date.d() ==> workday_day(cfg, t.date.d()) && biz_before(cfg.borders_seq(), e)
            - biz_before(cfg.borders_seq(), t.time as int) == delta,
        dd.d() > t.date.d() ==> workday_day(cfg, dd.d()) && biz_before(cfg.borders_seq(), e) == (
        if workday_day(cfg, t.date.d()) {
            delta - biz_after(cfg.borders_seq(), t.time as int)
        } else {
            delta
        }) - width_sum(cfg.borders_seq()) * (workdays_seq(cfg, t.date.d() + 1, dd.d()).len() - 1),
        out.date.d() == dd.d() ==> biz_before(cfg.borders_seq(), out.time as int) == biz_before(
            cfg.borders_seq(),
            e,
        ),
        out.date.d() != dd.d() ==> out.date.d() > dd.d() && workday_day(cfg, out.date.d())
            && workdays_seq(cfg, dd.d() + 1, out.date.d()).len() == 1 && biz_before(
            cfg.borders_seq(),
            e,
        ) == width_sum(cfg.borders_seq()) && biz_before(cfg.borders_seq(), out.time as int) == 0,
    ensures
        spec_elapsed(cfg, t, out) == delta,
{
    let bs = cfg.borders_seq();
    lemma_sums_basic(bs, t.time as int, bs.len() as int);
    let k = workdays_seq(cfg, t.date.d() + 1, dd.d()).len() as int;
    if dd.d() == t.date.d() {
        if out.date.d() == dd.d() {
        } else {
            assert(workdays_seq(cfg, dd.d() + 1, out.date.d() - 1).len() == 0);
            assert(spec_elapsed(cfg, t, out) == biz_after(bs, t.time as int) + width_sum(bs) * 0
                + 0);
            assert(biz_after(bs, t.time as int) == width_sum(bs) - biz_before(bs, t.time as int));
        }
    } else {
        assert(workdays_seq(cfg, t.date.d() + 1, dd.d() - 1).len() == k - 1);
        if out.date.d() == dd.d() {
            assert(spec_elapsed(cfg, t, out) == (if workday_day(cfg, t.date.d()) {
                biz_after(bs, t.time as int)
            } else {
                0int
            }) + width_sum(bs) * (k - 1) + biz_before(bs, out.time as int));
        } else {
            // the exhausted target day counts as one more full working day
            lemma_workdays_len_split(cfg, t.date.d() + 1, dd.d(), out.date.d() - 1);
            assert(workdays_seq(cfg, dd.d() + 1, out.date.d() - 1).len() == 0);
            assert(workdays_seq(cfg, t.date.d() + 1, out.date.d() - 1).len() == k);
            assert(spec_elapsed(cfg, t, out) == (if workday_day(cfg, t.date.d()) {
                biz_after(bs, t.time as int)
            } else {
                0int
            }) + width_sum(bs) * k + 0);
            assert(width_sum(bs) * k == width_sum(bs) * (k - 1) + width_sum(bs))
                by (nonlinear_arith);
        }
    }
}

/// Advance `select_datetime` by `delta_time` counted in business time
/// only: gaps between windows and non-working days are skipped, and a
/// duration that exactly exhausts a window rolls forward to the next
/// window start.  The result is the unique business instant that lies at
/// business distance `delta_time` after `select_datetime`.
#[verifier::rlimit(100)]
pub fn add_workday_intraday_datetime(
    cfg: &CalendarConfig,
    select_datetime: Instant,
    delta_time: Duration,
) -> (r: Instant)
    requires
        cfg.wf(),
        select_datetime.valid(),
        delta_time.secs >= 0,
        select_datetime.date.d() + walk_bound(
            *cfg,
            delta_time.s() / width_sum(cfg.borders_seq()) + 2,
        ) + walk_bound(*cfg, 1) <= MAX_DAY,
    ensures
        r.valid(),
        spec_is_business(*cfg, r),
        spec_elapsed(*cfg, select_datetime, r) == delta_time.s(),
        r.date.d() > select_datetime.date.d() || (r.date.d() == select_datetime.date.d()
            && r.time >= select_datetime.time),
{
    let bs = &cfg.borders;
    let d = select_datetime.date;
    let tau = select_datetime.time;
    let ghost bsv = cfg.borders_seq();
    let ghost delta = delta_time.s();
    let mut rem: i64 = delta_time.secs;
    proof {
        assert(crate::workdays::date_of(d.d()) == d);
        lemma_width_sum_bounds(bsv, bsv.len() as int);
    }
    let working_start = check_workday(cfg, d);
    if working_start {
        // consume what is left of today's windows, window by window
        let mut j: usize = 0;
        while j < bs.len()
            invariant
                cfg.wf(),
                bsv == cfg.borders_seq(),
                bs@ == bsv,
                0 <= j <= bsv.len(),
                d == select_datetime.date,
                tau == select_datetime.time,
                delta == delta_time.s(),
                select_datetime.valid(),
                workday_day(*cfg, d.d()),
                d.d() + walk_bound(*cfg, 1) <= MAX_DAY,
                0 <= rem,
                rem == delta - after_sum(bsv, tau as int, j as int),
            decreases bsv.len() - j,
        {
            let b = bs[j];
            if b.end > tau {
                let lo: u32 = if b.start > tau {
                    b.start
                } else {
                    tau
                };
                proof {
                    assert(borders_wf(bsv));
                    assert(bsv[j as int].wf());
                }
                let avail: i64 = (b.end - lo) as i64;
                if rem < avail {
                    let x: u32 = lo + (rem as u32);
                    proof {
                        lemma_add_same_day(*cfg, tau as int, j as int, x as int, rem as int, delta);
                        assert(bsv[j as int].start <= x < bsv[j as int].end);
                        assert(in_border(bsv, x as int));
                    }
                    return Instant { date: d, time: x };
                }
                if rem == avail {
                    proof {
                        lemma_add_same_day(
                            *cfg,
                            tau as int,
                            j as int,
                            b.end as int,
                            rem as int,
                            delta,
                        );
                        assert(is_end_time(bsv, b.end as int)) by {
                            assert(bsv[j as int].end == b.end);
                        }
                    }
                    let out = roll_forward(cfg, d, b.end);
                    proof {
                        lemma_add_roll(*cfg, select_datetime, d, b.end as int, out, delta);
                    }
                    return out;
                }
                rem -= avail;
            } else {
                proof {
                    assert(clip_from(bsv[j as int], tau as int) == 0);
                }
            }
            j += 1;
        }
    }
    // rem now measures business time beyond today; consume whole business
    // days, then the target day's windows from the front
    let ghost rem_b = rem as int;
    proof {
        lemma_sums_basic(bsv, tau as int, bsv.len() as int);
        if working_start {
            assert(rem_b == delta - biz_after(bsv, tau as int));
        } else {
            assert(rem_b == delta);
        }
        assert(rem_b <= delta);
    }
    let day_total: i64 = sum_widths(&cfg.borders);
    proof {
        // the duration is bounded: the day-count bound in the caller's
        // obligation caps the quotient, hence the whole duration
        let ws = width_sum(bsv);
        let q = delta / ws;
        assert(8 * (q + 2) <= MAX_DAY);
        vstd::arithmetic::div_mod::lemma_fundamental_div_mod(delta, ws);
        vstd::arithmetic::div_mod::lemma_mod_division_less_than_divisor(delta, ws);
        assert(delta < ws * (q + 1)) by (nonlinear_arith)
            requires
                delta == ws * q + delta % ws,
                delta % ws < ws,
        ;
        assert(ws * (q + 1) <= 86400 * (456508int + 1)) by (nonlinear_arith)
            requires
                1 <= ws <= 86400,
                0 <= q + 1 <= 456508 + 1,
        ;
        assert(delta <= 40_000_000_000);
    }
    let mut add_day_number: i64 = 1;
    proof {
        assert(day_total * (add_day_number - 1) == 0) by (nonlinear_arith)
            requires
                add_day_number == 1,
        ;
    }
    while rem > day_total
        invariant
            1 <= day_total == width_sum(bsv),
            bsv == cfg.borders_seq(),
            rem >= 0,
            rem_b <= delta <= 40_000_000_000,
            1 <= add_day_number <= 1 + rem_b - rem,
            rem + day_total * (add_day_number - 1) == rem_b,
        decreases rem,
    {
        proof {
            assert(day_total * (add_day_number + 1 - 1) == day_total * (add_day_number - 1)
                + day_total) by (nonlinear_arith);
        }
        rem = rem - day_total;
        add_day_number = add_day_number + 1;
    }
    let ghost k = add_day_number as int;
    let ghost rem_c = rem as int;
    proof {
        // the number of whole days is bounded by the duration divided by
        // the business-day length
        assert(day_total * (k - 1) <= rem_b);
        assert(rem_b <= delta);
        if k >= 2 {
            vstd::arithmetic::div_mod::lemma_div_multiples_vanish(k - 1, day_total as int);
            vstd::arithmetic::div_mod::lemma_div_is_ordered(
                day_total * (k - 1),
                delta,
                day_total as int,
            );
            assert(k - 1 <= delta / (day_total as int));
        }
        assert(walk_bound(*cfg, k) <= walk_bound(*cfg, delta / width_sum(bsv) + 2));
    }
    let out_date = get_next_workday(cfg, d, add_day_number as u32);
    proof {
        assert(crate::workdays::date_of(out_date.d()) == out_date);
        assert(out_date.d() + walk_bound(*cfg, 1) <= MAX_DAY);
    }
    let mut j: usize = 0;
    while j < bs.len()
        invariant
            cfg.wf(),
            bsv == cfg.borders_seq(),
            bs@ == bsv,
            0 <= j <= bsv.len(),
            d == select_datetime.date,
            tau == select_datetime.time,
            delta == delta_time.s(),
            select_datetime.valid(),
            working_start == workday_day(*cfg, d.d()),
            out_date.valid(),
            out_date.d() > d.d(),
            workday_day(*cfg, out_date.d()),
            workdays_seq(*cfg, d.d() + 1, out_date.d()).len() == k,
            out_date.d() + walk_bound(*cfg, 1) <= MAX_DAY,
            0 <= rem <= width_sum(bsv),
            j > 0 ==> rem >= 1,
            rem == rem_c - after_sum(bsv, -1, j as int),
            rem_c <= width_sum(bsv),
            rem_c == (if working_start {
                delta - biz_after(bsv, tau as int)
            } else {
                delta
            }) - width_sum(bsv) * (k - 1),
        decreases bsv.len() - j,
    {
        let b = bs[j];
        proof {
            assert(borders_wf(bsv));
            assert(bsv[j as int].wf());
        }
        let avail: i64 = (b.end - b.start) as i64;
        if rem <= avail {
            let exact = rem == avail;
            let x: u32 = b.start + (rem as u32);
            proof {
                lemma_add_other_day(
                    *cfg,
                    select_datetime,
                    out_date,
                    j as int,
                    x as int,
                    rem as int,
                    rem_c,
                    k,
                    delta,
                );
            }
            if !exact {
                proof {
                    assert(bsv[j as int].start <= x < bsv[j as int].end);
                    assert(in_border(bsv, x as int));
                }
                return Instant { date: out_date, time: x };
            }
            proof {
                assert(is_end_time(bsv, b.end as int)) by {
                    assert(bsv[j as int].end == b.end);
                }
            }
            let out = roll_forward(cfg, out_date, b.end);
            proof {
                lemma_add_roll(*cfg, select_datetime, out_date, b.end as int, out, delta);
            }
            return out;
        }
        proof {
            lemma_sums_basic(bsv, -1, j as int + 1);
        }
        rem -= avail;
        j += 1;
    }
    proof {
        assert(rem == rem_c - after_sum(bsv, -1, bsv.len() as int));
        lemma_after_sum_full(bsv, -1, bsv.len() as int);
        assert(rem <= 0);
        assert(false);
    }
    select_datetime
}


/// Total width of the window list in seconds.
fn sum_widths(bs: &Vec<TimeBorder>) -> (r: i64)
    requires
        borders_wf(bs@),
    ensures
        r == width_sum(bs@),
        1 <= r <= 86400,
{
    proof {
        lemma_width_sum_bounds(bs@, bs@.len() as int);
    }
    let mut acc: i64 = 0;
    let mut j: usize = 0;
    while j < bs.len()
        invariant
            borders_wf(bs@),
            0 <= j <= bs@.len(),
            acc == width_sum_to(bs@, j as int),
            0 <= acc <= 86400,
        decreases bs@.len() - j,
    {
        proof {
            assert(bs@[j as int].wf());
            lemma_width_sum_bounds(bs@, j as int + 1);
        }
        acc = acc + (bs[j].end - bs[j].start) as i64;
        j += 1;
    }
    acc
}


/// Prefix widths grow with the prefix.
proof fn lemma_width_sum_mono(bs: Seq<TimeBorder>, i: int, j: int)
    requires
        forall|p: int| 0 <= p < bs.len() ==> (#[trigger] bs[p]).wf(),
        0 <= i <= j <= bs.len(),
    ensures
        width_sum_to(bs, i) <= width_sum_to(bs, j),
    decreases j - i,
{
    if i < j {
        lemma_width_sum_mono(bs, i, j - 1);
        assert(bs[j - 1].wf());
    }
}

/// A partial business-second sum dominates each of its well-formed terms.
proof fn lemma_sum_term_bound(bs: Seq<TimeBorder>, t: int, j: int, c: int)
    requires
        forall|i: int| 0 <= i < bs.len() ==> (#[trigger] bs[i]).wf(),
        0 <= j <= c < bs.len(),
    ensures
        biz_before_to(bs, t, bs.len() as int) - biz_before_to(bs, t, j) >= clip_to(bs[c], t),
    decreases bs.len() - j,
{
    if j < c {
        lemma_sum_term_bound(bs, t, j + 1, c);
        assert(bs[j].wf());
        assert(clip_to(bs[j], t) >= 0);
    } else {
        lemma_suffix_nonneg(bs, t, j + 1);
        assert(bs[j].wf());
    }
}

/// The tail of the business-second sum from position `j` on is
/// non-negative.
proof fn lemma_suffix_nonneg(bs: Seq<TimeBorder>, t: int, j: int)
    requires
        forall|i: int| 0 <= i < bs.len() ==> (#[trigger] bs[i]).wf(),
        0 <= j <= bs.len(),
    ensures
        biz_before_to(bs, t, bs.len() as int) >= biz_before_to(bs, t, j),
    decreases bs.len() - j,
{
    if j < bs.len() {
        lemma_suffix_nonneg(bs, t, j + 1);
        assert(bs[j].wf());
        assert(clip_to(bs[j], t) >= 0);
    }
}

/// Stepping back `rem` business seconds within window `j` of the same
/// working day: the business time from the result to `t` is the whole
/// duration.
proof fn lemma_sub_same_day(cfg: CalendarConfig, tau: int, j: int, x: int, rem: int, delta: int)
    requires
        borders_wf(cfg.borders_seq()),
        0 <= j < cfg.borders_seq().len(),
        cfg.borders_seq()[j].start < tau,
        rem == delta - (biz_before(cfg.borders_seq(), tau) - biz_before_to(cfg.borders_seq(), tau, j + 1)),
        0 <= rem,
        x == (if cfg.borders_seq()[j].end < tau {
            cfg.borders_seq()[j].end as int
        } else {
            tau
        }) - rem,
        x >= cfg.borders_seq()[j].start,
    ensures
        biz_before(cfg.borders_seq(), tau) - biz_before(cfg.borders_seq(), x) == delta,
        x <= tau,
{
    let bs = cfg.borders_seq();
    let hi = if bs[j].end < tau {
        bs[j].end as int
    } else {
        tau
    };
    assert(bs[j].wf());
    assert forall|i: int| 0 <= i < j implies (#[trigger] bs[i]).end <= tau by {
        lemma_borders_wf_disjoint(bs, i, j);
    }
    lemma_biz_before_saturated(bs, tau, j);
    lemma_after_sum_full(bs, -1, j);
    lemma_biz_before_zero(bs, -1, bs.len() as int);
    lemma_biz_window_split(bs, -1, j, x, bs.len() as int);
    assert(biz_before(bs, x) == width_sum_to(bs, j) + (x - bs[j].start));
}

/// Stepping back onto day second `x` of working day `g`, `k` working days
/// before `t`'s date: the business time from the result to `t` is the
/// whole duration.
proof fn lemma_sub_other_day(
    cfg: CalendarConfig,
    t: Instant,
    g: Date,
    j: int,
    x: int,
    rem: int,
    rem_c: int,
    k: int,
    delta: int,
)
    requires
        cfg.wf(),
        g.d() < t.date.d(),
        workday_day(cfg, g.d()),
        workdays_seq_down(cfg, t.date.d() - 1, g.d()).len() == k,
        k >= 1,
        0 <= j < cfg.borders_seq().len(),
        0 <= rem,
        x == cfg.borders_seq()[j].end - rem,
        x >= cfg.borders_seq()[j].start,
        rem == rem_c - (width_sum(cfg.borders_seq()) - width_sum_to(cfg.borders_seq(), j + 1)),
        rem_c == (if workday_day(cfg, t.date.d()) {
            delta - biz_before(cfg.borders_seq(), t.time as int)
        } else {
            delta
        }) - width_sum(cfg.borders_seq()) * (k - 1),
    ensures
        spec_elapsed(cfg, Instant { date: g, time: x as u32 }, t) == delta,
{
    let bs = cfg.borders_seq();
    assert(bs[j].wf());
    lemma_after_sum_full(bs, -1, j);
    lemma_biz_before_zero(bs, -1, bs.len() as int);
    lemma_biz_window_split(bs, -1, j, x, bs.len() as int);
    assert(biz_before(bs, x) == width_sum_to(bs, j) + (x - bs[j].start));
    lemma_sums_basic(bs, x, bs.len() as int);
    assert(biz_after(bs, x) == width_sum(bs) - biz_before(bs, x));
    // count the working days strictly between the two dates
    assert(workdays_seq_down(cfg, t.date.d() - 1, g.d()) == workdays_seq_down(
        cfg,
        t.date.d() - 1,
        g.d() + 1,
    ) + seq![crate::workdays::date_of(g.d())]);
    assert(workdays_seq_down(cfg, t.date.d() - 1, g.d() + 1).len() == k - 1);
    lemma_workdays_len_updown(cfg, g.d() + 1, t.date.d() - 1);
    assert(workdays_seq(cfg, g.d() + 1, t.date.d() - 1).len() == k - 1);
}

/// Move `select_datetime` back by `delta_time` counted in business time
/// only, the mirror image of `add_workday_intraday_datetime`: the result
/// lies in a window (its end included), at business distance `delta_time`
/// before `select_datetime`; with a positive duration it is a business
/// instant.
#[verifier::rlimit(100)]
pub fn sub_workday_intraday_datetime(
    cfg: &CalendarConfig,
    select_datetime: Instant,
    delta_time: Duration,
) -> (r: Instant)
    requires
        cfg.wf(),
        select_datetime.valid(),
        delta_time.secs >= 0,
        select_datetime.date.d() - walk_bound(
            *cfg,
            delta_time.s() / width_sum(cfg.borders_seq()) + 2,
        ) >= 0,
    ensures
        r.valid(),
        workday_day(*cfg, r.date.d()),
        exists|i: int|
            0 <= i < cfg.borders_seq().len() && (#[trigger] cfg.borders_seq()[i]).start <= r.time
                <= cfg.borders_seq()[i].end,
        delta_time.s() > 0 ==> spec_is_business(*cfg, r),
        spec_elapsed(*cfg, r, select_datetime) == delta_time.s(),
        r.date.d() < select_datetime.date.d() || (r.date.d() == select_datetime.date.d()
            && r.time <= select_datetime.time),
        delta_time.s() == 0 && spec_is_business(*cfg, select_datetime) && !is_start_time(
            cfg.borders_seq(),
            select_datetime.time as int,
        ) ==> r == select_datetime,
{
    let bs = &cfg.borders;
    let d = select_datetime.date;
    let tau = select_datetime.time;
    let ghost bsv = cfg.borders_seq();
    let ghost delta = delta_time.s();
    let mut rem: i64 = delta_time.secs;
    proof {
        assert(crate::workdays::date_of(d.d()) == d);
        lemma_width_sum_bounds(bsv, bsv.len() as int);
    }
    let working_start = check_workday(cfg, d);
    if working_start {
        // consume the business time of today before `tau`, window by
        // window from the latest
        let mut j: usize = bs.len();
        while j > 0
            invariant
                cfg.wf(),
                bsv == cfg.borders_seq(),
                bs@ == bsv,
                0 <= j <= bsv.len(),
                d == select_datetime.date,
                tau == select_datetime.time,
                delta == delta_time.s(),
                select_datetime.valid(),
                workday_day(*cfg, d.d()),
                0 <= rem <= delta,
                delta > 0 ==> rem >= 1,
                rem == delta - (biz_before(bsv, tau as int) - biz_before_to(bsv, tau as int, j as int)),
            decreases j,
        {
            let b = bs[j - 1];
            proof {
                assert(borders_wf(bsv));
                assert(bsv[j - 1].wf());
            }
            if b.start < tau {
                let hi: u32 = if b.end < tau {
                    b.end
                } else {
                    tau
                };
                let avail: i64 = (hi - b.start) as i64;
                if rem <= avail {
                    let x: u32 = hi - (rem as u32);
                    proof {
                        lemma_sub_same_day(
                            *cfg,
                            tau as int,
                            j as int - 1,
                            x as int,
                            rem as int,
                            delta,
                        );
                        assert(bsv[j - 1].start <= x <= bsv[j - 1].end);
                        if rem >= 1 {
                            assert(x < bsv[j - 1].end);
                            assert(in_border(bsv, x as int));
                        }
                        if delta == 0 && spec_is_business(*cfg, select_datetime) && !is_start_time(
                            bsv,
                            tau as int,
                        ) {
                            let c = lemma_containing_window(bsv, tau as int);
                            assert(bsv[c].start < tau);
                            if c > j as int - 1 {
                                lemma_sum_term_bound(bsv, tau as int, j as int, c);
                                assert(clip_to(bsv[c], tau as int) > 0);
                                assert(false);
                            } else if c < j as int - 1 {
                                lemma_borders_wf_disjoint(bsv, c, j as int - 1);
                                assert(false);
                            }
                            assert(tau < bsv[j - 1].end);
                            assert(x == tau);
                        }
                    }
                    return Instant { date: d, time: x };
                }
                rem -= avail;
            } else {
                proof {
                    assert(clip_to(bsv[j - 1], tau as int) == 0);
                }
            }
            j -= 1;
        }
    }
    // rem now measures business time before today; consume whole business
    // days, then the target day's windows from the back
    let ghost rem_b = rem as int;
    proof {
        lemma_sums_basic(bsv, tau as int, bsv.len() as int);
        if working_start {
            assert(rem_b == delta - biz_before(bsv, tau as int));
        } else {
            assert(rem_b == delta);
        }
        assert(rem_b <= delta);
    }
    let day_total: i64 = sum_widths(&cfg.borders);
    proof {
        let ws = width_sum(bsv);
        let q = delta / ws;
        assert(8 * (q + 2) <= MAX_DAY);
        vstd::arithmetic::div_mod::lemma_fundamental_div_mod(delta, ws);
        vstd::arithmetic::div_mod::lemma_mod_division_less_than_divisor(delta, ws);
        assert(delta < ws * (q + 1)) by (nonlinear_arith)
            requires
                delta == ws * q + delta % ws,
                delta % ws < ws,
        ;
        assert(ws * (q + 1) <= 86400 * (456508int + 1)) by (nonlinear_arith)
            requires
                1 <= ws <= 86400,
                0 <= q + 1 <= 456508 + 1,
        ;
        assert(delta <= 40_000_000_000);
    }
    let mut sub_day_number: i64 = 1;
    proof {
        assert(day_total * (sub_day_number - 1) == 0) by (nonlinear_arith)
            requires
                sub_day_number == 1,
        ;
    }
    while rem > day_total
        invariant
            1 <= day_total == width_sum(bsv),
            bsv == cfg.borders_seq(),
            rem >= 0,
            rem_b <= delta <= 40_000_000_000,
            1 <= sub_day_number <= 1 + rem_b - rem,
            delta == delta_time.s(),
            delta > 0 ==> rem >= 1,
            rem + day_total * (sub_day_number - 1) == rem_b,
        decreases rem,
    {
        proof {
            assert(day_total * (sub_day_number + 1 - 1) == day_total * (sub_day_number - 1)
                + day_total) by (nonlinear_arith);
        }
        rem = rem - day_total;
        sub_day_number = sub_day_number + 1;
    }
    let ghost k = sub_day_number as int;
    let ghost rem_c = rem as int;
    proof {
        assert(day_total * (k - 1) <= rem_b);
        if k >= 2 {
            vstd::arithmetic::div_mod::lemma_div_multiples_vanish(k - 1, day_total as int);
            vstd::arithmetic::div_mod::lemma_div_is_ordered(
                day_total * (k - 1),
                delta,
                day_total as int,
            );
            assert(k - 1 <= delta / (day_total as int));
        }
        assert(walk_bound(*cfg, k) <= walk_bound(*cfg, delta / width_sum(bsv) + 2));
    }
    let out_date = get_previous_workday(cfg, d, sub_day_number as u32);
    proof {
        assert(crate::workdays::date_of(out_date.d()) == out_date);
    }
    let mut j: usize = bs.len();
    while j > 0
        invariant
            cfg.wf(),
            bsv == cfg.borders_seq(),
            bs@ == bsv,
            0 <= j <= bsv.len(),
            d == select_datetime.date,
            tau == select_datetime.time,
            delta == delta_time.s(),
            select_datetime.valid(),
            working_start == workday_day(*cfg, d.d()),
            out_date.valid(),
            out_date.d() < d.d(),
            workday_day(*cfg, out_date.d()),
            workdays_seq_down(*cfg, d.d() - 1, out_date.d()).len() == k,
            k >= 1,
            0 <= rem <= width_sum(bsv),
            j < bsv.len() ==> rem >= 1,
            delta > 0 ==> rem >= 1,
            rem == rem_c - (width_sum(bsv) - width_sum_to(bsv, j as int)),
            rem_c <= width_sum(bsv),
            rem_c == (if working_start {
                delta - biz_before(bsv, tau as int)
            } else {
                delta
            }) - width_sum(bsv) * (k - 1),
        decreases j,
    {
        let b = bs[j - 1];
        proof {
            assert(borders_wf(bsv));
            assert(bsv[j - 1].wf());
            lemma_width_sum_bounds(bsv, j as int);
        }
        let avail: i64 = (b.end - b.start) as i64;
        if rem <= avail {
            let x: u32 = b.end - (rem as u32);
            proof {
                lemma_sub_other_day(
                    *cfg,
                    select_datetime,
                    out_date,
                    j as int - 1,
                    x as int,
                    rem as int,
                    rem_c,
                    k,
                    delta,
                );
                assert(bsv[j - 1].start <= x <= bsv[j - 1].end);
                if rem >= 1 {
                    assert(x < bsv[j - 1].end);
                    assert(in_border(bsv, x as int));
                }
                if delta == 0 {
                    assert(width_sum(bsv) * (k - 1) >= 0) by (nonlinear_arith)
                        requires
                            width_sum(bsv) >= 1,
                            k >= 1,
                    ;
                    lemma_sums_basic(bsv, tau as int, bsv.len() as int);
                    assert(rem_c <= 0);
                    lemma_width_sum_mono(bsv, j as int, bsv.len() as int);
                    assert(rem == 0 && rem_c == 0);
                    assert(width_sum(bsv) - width_sum_to(bsv, j as int) == 0);
                    if working_start {
                        assert(biz_before(bsv, tau as int) == 0);
                        assert(!spec_is_business(*cfg, select_datetime) || is_start_time(
                            bsv,
                            tau as int,
                        )) by {
                            if spec_is_business(*cfg, select_datetime) && !is_start_time(
                                bsv,
                                tau as int,
                            ) {
                                let c = lemma_containing_window(bsv, tau as int);
                                assert(bsv[c].start < tau);
                                lemma_sum_term_bound(bsv, tau as int, 0, c);
                                assert(clip_to(bsv[c], tau as int) > 0);
                            }
                        }
                    }
                }
            }
            return Instant { date: out_date, time: x };
        }
        proof {
            lemma_width_sum_bounds(bsv, j as int - 1);
        }
        rem -= avail;
        j -= 1;
    }
    proof {
        assert(rem == rem_c - width_sum(bsv));
        assert(rem <= 0);
        assert(false);
    }
    select_datetime
}


/// A day range holds no more working days than days.
proof fn lemma_workdays_len_le_range(cfg: CalendarConfig, lo: int, hi: int)
    ensures
        workdays_seq(cfg, lo, hi).len() <= (if hi < lo {
            0int
        } else {
            hi - lo + 1
        }),
    decreases hi - lo + 1,
{
    if hi >= lo {
        lemma_workdays_len_le_range(cfg, lo, hi - 1);
    }
}

/// Business seconds of the day at or after day second `t`, computed.
fn biz_after_exec(bs: &Vec<TimeBorder>, t: u32) -> (r: i64)
    requires
        borders_wf(bs@),
    ensures
        r == biz_after(bs@, t as int),
        0 <= r <= 86400,
{
    let mut acc: i64 = 0;
    let mut j: usize = 0;
    while j < bs.len()
        invariant
            borders_wf(bs@),
            0 <= j <= bs@.len(),
            acc == after_sum(bs@, t as int, j as int),
            0 <= acc <= 86400,
        decreases bs@.len() - j,
    {
        let b = bs[j];
        proof {
            assert(bs@[j as int].wf());
            lemma_sums_basic(bs@, t as int, j as int + 1);
            lemma_width_sum_bounds(bs@, j as int + 1);
        }
        if t <= b.start {
            acc = acc + (b.end - b.start) as i64;
        } else if t < b.end {
            acc = acc + (b.end - t) as i64;
        }
        j += 1;
    }
    proof {
        lemma_sums_basic(bs@, t as int, bs@.len() as int);
        lemma_width_sum_bounds(bs@, bs@.len() as int);
    }
    acc
}

/// Business seconds of the day before day second `t`, computed.
fn biz_before_exec(bs: &Vec<TimeBorder>, t: u32) -> (r: i64)
    requires
        borders_wf(bs@),
    ensures
        r == biz_before(bs@, t as int),
        0 <= r <= 86400,
{
    let mut acc: i64 = 0;
    let mut j: usize = 0;
    while j < bs.len()
        invariant
            borders_wf(bs@),
            0 <= j <= bs@.len(),
            acc == biz_before_to(bs@, t as int, j as int),
            0 <= acc <= 86400,
        decreases bs@.len() - j,
    {
        let b = bs[j];
        proof {
            assert(bs@[j as int].wf());
            lemma_sums_basic(bs@, t as int, j as int + 1);
            lemma_width_sum_bounds(bs@, j as int + 1);
        }
        if t > b.start {
            if t >= b.end {
                acc = acc + (b.end - b.start) as i64;
            } else {
                acc = acc + (t - b.start) as i64;
            }
        }
        j += 1;
    }
    proof {
        lemma_sums_basic(bs@, t as int, bs@.len() as int);
        lemma_width_sum_bounds(bs@, bs@.len() as int);
    }
    acc
}

/// The business time elapsed from `start_datetime` to `end_datetime`: the
/// rest of the start day, one full business day per working day strictly
/// between the dates, and the used part of the end day; for two instants
/// on one common working day, the business seconds between the two times
/// of that day.  Measuring to the result of `add_workday_intraday_datetime`
/// returns the added duration.
pub fn get_timedelta_workdays_intraday(
    cfg: &CalendarConfig,
    start_datetime: Instant,
    end_datetime: Instant,
) -> (r: Duration)
    requires
        cfg.wf(),
        start_datetime.valid(),
        end_datetime.valid(),
    ensures
        r.s() == spec_elapsed(*cfg, start_datetime, end_datetime),
{
    let bs = &cfg.borders;
    let ghost bsv = cfg.borders_seq();
    let d1 = start_datetime.date;
    let d2 = end_datetime.date;
    proof {
        assert(crate::workdays::date_of(d1.d()) == d1);
        assert(crate::workdays::date_of(d2.d()) == d2);
        lemma_width_sum_bounds(bsv, bsv.len() as int);
        lemma_workdays_len_le_range(*cfg, d1.d() + 1, d2.d() - 1);
    }
    let working1 = check_workday(cfg, d1);
    let mut acc: i64 = 0;
    if working1 {
        acc = acc + biz_after_exec(bs, start_datetime.time);
    }
    let between = crate::workdays::get_workdays(cfg, d1, d2, crate::workdays::Closed::Not);
    let day_total: i64 = sum_widths(bs);
    let n: i64 = between.len() as i64;
    proof {
        assert(n == workdays_seq(*cfg, d1.d() + 1, d2.d() - 1).len());
        assert(0 <= n <= 3_652_059);
        assert(day_total * n <= 86400 * 3_652_059 && day_total * n >= 0) by (nonlinear_arith)
            requires
                1 <= day_total <= 86400,
                0 <= n <= 3_652_059,
        ;
    }
    acc = acc + day_total * n;
    if check_workday(cfg, d2) {
        acc = acc + biz_before_exec(bs, end_datetime.time);
    }
    if d1.days == d2.days && working1 {
        // on one common working day the start-day and end-day parts both
        // cover the whole day's windows once; drop the double count
        proof {
            assert(workdays_seq(*cfg, d1.d() + 1, d2.d() - 1).len() == 0);
            assert(day_total * 0 == 0) by (nonlinear_arith);
            lemma_sums_basic(bsv, start_datetime.time as int, bsv.len() as int);
        }
        acc = acc - day_total;
    }
    Duration { secs: acc }
}

} // verus!
