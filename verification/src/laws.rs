//! The laws of the calendar, stated and proved over the same spec
//! functions that the executable functions' contracts use: range
//! exactness, round trips of duration arithmetic, idempotence of the
//! nearest-business-instant search, the next/previous asymmetry, and the
//! consistency of the extraction masks.

use vstd::prelude::*;
use crate::calendar::Date;
use crate::config::{dates_sorted_strict, CalendarConfig};
use crate::intraday::{
    biz_after, biz_before_to, clip_from, clip_to, in_border, is_start_time,
    lemma_biz_before_linear, lemma_containing_window, lemma_first_start_after_char,
    lemma_last_end_leq_char, lemma_sums_basic, lemma_workdays_len_split, next_border_ok,
    previous_border_ok, spec_elapsed, spec_is_business, width_sum, BorderKind,
};
use crate::moments::{Instant, TimeBorder};
use crate::workdays::{
    date_of, lemma_workdays_seq_props, spec_is_workday, workday_day, workdays_seq,
};

verus! {

/// The working days of a date range, as `get_workdays` returns them with
/// both ends kept, are strictly increasing and are exactly the working
/// days that lie in the range.
pub proof fn lemma_workdays_exact(cfg: CalendarConfig, start_date: Date, end_date: Date, r: Seq<
    Date,
>)
    requires
        cfg.wf(),
        start_date.valid(),
        end_date.valid(),
        r =~= workdays_seq(cfg, start_date.d(), end_date.d()),
    ensures
        dates_sorted_strict(r),
        forall|x: Date| #[trigger]
            r.contains(x) <==> start_date.d() <= x.d() <= end_date.d() && spec_is_workday(cfg, x),
{
    lemma_workdays_seq_props(cfg, start_date.d(), end_date.d());
    assert forall|x: Date| #[trigger]
        r.contains(x) implies start_date.d() <= x.d() <= end_date.d() && spec_is_workday(
        cfg,
        x,
    ) by {
        let i = choose|i: int| 0 <= i < r.len() && r[i] == x;
        assert(r[i] == date_of(r[i].d()) && workday_day(cfg, r[i].d()));
    }
    assert forall|x: Date|
        start_date.d() <= x.d() <= end_date.d() && spec_is_workday(cfg, x) implies #[trigger] r.contains(
        x,
    ) by {
        assert(date_of(x.d()) == x);
        assert(workday_day(cfg, x.d()));
    }
}

/// An instant at or before another is on an earlier or equal date, and on
/// a common date at an earlier or equal time.
proof fn lemma_instant_date_order(a: Instant, b: Instant)
    requires
        a.valid(),
        b.valid(),
        a.secs() <= b.secs(),
    ensures
        a.date.d() <= b.date.d(),
        a.date.d() == b.date.d() ==> a.time <= b.time,
{
    assert(a.date.d() <= b.date.d()) by (nonlinear_arith)
        requires
            a.date.d() * 86400 + a.time <= b.date.d() * 86400 + b.time,
            0 <= a.time < 86400,
            0 <= b.time < 86400,
    ;
}

/// Business time accumulates monotonically over a day.
proof fn lemma_biz_before_mono(bs: Seq<TimeBorder>, x: int, y: int, j: int)
    requires
        forall|i: int| 0 <= i < j ==> (#[trigger] bs[i]).wf(),
        0 <= j <= bs.len(),
        x <= y,
    ensures
        biz_before_to(bs, x, j) <= biz_before_to(bs, y, j),
    decreases j,
{
    if j > 0 {
        lemma_biz_before_mono(bs, x, y, j - 1);
        assert(bs[j - 1].wf());
        assert(clip_to(bs[j - 1], x) <= clip_to(bs[j - 1], y));
    }
}

/// The remaining business time of a day dominates the remainder of the
/// window holding the given second.
proof fn lemma_after_term_bound(bs: Seq<TimeBorder>, t: int, j: int, c: int)
    requires
        forall|i: int| 0 <= i < bs.len() ==> (#[trigger] bs[i]).wf(),
        0 <= c < bs.len(),
        0 <= j <= c,
    ensures
        crate::intraday::after_sum(bs, t, bs.len() as int) - crate::intraday::after_sum(bs, t, j)
            >= clip_from(bs[c], t),
    decreases bs.len() - j,
{
    if j < c {
        lemma_after_term_bound(bs, t, j + 1, c);
        assert(bs[j].wf());
        assert(clip_from(bs[j], t) >= 0);
    } else {
        lemma_after_suffix_nonneg(bs, t, j + 1);
        assert(bs[j].wf());
    }
}

proof fn lemma_after_suffix_nonneg(bs: Seq<TimeBorder>, t: int, j: int)
    requires
        forall|i: int| 0 <= i < bs.len() ==> (#[trigger] bs[i]).wf(),
        0 <= j <= bs.len(),
    ensures
        crate::intraday::after_sum(bs, t, bs.len() as int) >= crate::intraday::after_sum(bs, t, j),
    decreases bs.len() - j,
{
    if j < bs.len() {
        lemma_after_suffix_nonneg(bs, t, j + 1);
        assert(bs[j].wf());
        assert(clip_from(bs[j], t) >= 0);
    }
}

/// Elapsed business time splits at any intermediate instant.
pub proof fn lemma_elapsed_additive(cfg: CalendarConfig, a: Instant, b: Instant, c: Instant)
    requires
        cfg.wf(),
        a.valid(),
        b.valid(),
        c.valid(),
        a.secs() <= b.secs(),
        b.secs() <= c.secs(),
    ensures
        spec_elapsed(cfg, a, c) == spec_elapsed(cfg, a, b) + spec_elapsed(cfg, b, c),
{
    let bs = cfg.borders_seq();
    let ws = width_sum(bs);
    lemma_instant_date_order(a, b);
    lemma_instant_date_order(b, c);
    lemma_sums_basic(bs, a.time as int, bs.len() as int);
    lemma_sums_basic(bs, b.time as int, bs.len() as int);
    lemma_sums_basic(bs, c.time as int, bs.len() as int);
    let da = a.date.d();
    let db = b.date.d();
    let dc = c.date.d();
    if da == db && db == dc {
        lemma_biz_before_mono(bs, a.time as int, b.time as int, bs.len() as int);
        lemma_biz_before_mono(bs, b.time as int, c.time as int, bs.len() as int);
    } else if da == db && db < dc {
        assert(spec_elapsed(cfg, a, c) == spec_elapsed(cfg, a, b) + spec_elapsed(cfg, b, c));
    } else if da < db && db == dc {
        assert(spec_elapsed(cfg, a, c) == spec_elapsed(cfg, a, b) + spec_elapsed(cfg, b, c));
    } else {
        assert(da < db < dc);
        lemma_workdays_len_split(cfg, da + 1, db - 1, dc - 1);
        lemma_workdays_len_split(cfg, db, db, dc - 1);
        assert(workdays_seq(cfg, da + 1, dc - 1).len() == workdays_seq(cfg, da + 1, db - 1).len()
            + workdays_seq(cfg, db, db).len() + workdays_seq(cfg, db + 1, dc - 1).len());
        let n1 = workdays_seq(cfg, da + 1, db - 1).len() as int;
        let n2 = workdays_seq(cfg, db + 1, dc - 1).len() as int;
        let e = workdays_seq(cfg, db, db).len() as int;
        assert(workdays_seq(cfg, db, db) == workdays_seq(cfg, db, db - 1) + (if workday_day(
            cfg,
            db,
        ) {
            seq![date_of(db)]
        } else {
            Seq::empty()
        }));
        assert(workdays_seq(cfg, db, db - 1).len() == 0);
        assert(e == if workday_day(cfg, db) {
            1int
        } else {
            0int
        });
        assert(ws * (n1 + e + n2) == ws * n1 + ws * e + ws * n2) by (nonlinear_arith);
        if workday_day(cfg, db) {
            assert(ws * 1 == ws) by (nonlinear_arith);
        } else {
            assert(ws * 0 == 0) by (nonlinear_arith);
        }
    }
}

/// From a business instant, any strictly later instant lies at strictly
/// positive business distance.
#[verifier::rlimit(60)]
pub proof fn lemma_elapsed_positive(cfg: CalendarConfig, p: Instant, q: Instant)
    requires
        cfg.wf(),
        p.valid(),
        q.valid(),
        spec_is_business(cfg, p),
        p.secs() < q.secs(),
    ensures
        spec_elapsed(cfg, p, q) >= 1,
{
    let bs = cfg.borders_seq();
    let ws = width_sum(bs);
    lemma_instant_date_order(p, q);
    let i = lemma_containing_window(bs, p.time as int);
    lemma_sums_basic(bs, p.time as int, bs.len() as int);
    lemma_sums_basic(bs, q.time as int, bs.len() as int);
    if p.date.d() == q.date.d() {
        assert(p.time < q.time);
        let m = if q.time as int <= bs[i].end {
            q.time as int
        } else {
            bs[i].end as int
        };
        lemma_biz_before_linear(bs, i, p.time as int, m, bs.len() as int);
        lemma_biz_before_mono(bs, m, q.time as int, bs.len() as int);
    } else {
        // the rest of the containing window contributes at least a second
        lemma_after_term_bound(bs, p.time as int, 0, i);
        assert(clip_from(bs[i], p.time as int) >= 1);
        assert(biz_after(bs, p.time as int) >= 1);
        let n = workdays_seq(cfg, p.date.d() + 1, q.date.d() - 1).len() as int;
        assert(ws * n >= 0) by (nonlinear_arith)
            requires
                ws >= 1,
                n >= 0,
        ;
    }
}

/// Round trip, first half: measuring the business time from an instant to
/// the result of adding a business duration to it returns that duration.
/// The hypotheses are what the addition ensures of its result, and the
/// conclusion is what the measuring function returns for the pair, so the
/// law is the composition of the two contracts.
pub proof fn lemma_measure_after_add(cfg: CalendarConfig, t: Instant, r: Instant, delta: int)
    requires
        cfg.wf(),
        delta >= 0,
        spec_is_business(cfg, r),
        spec_elapsed(cfg, t, r) == delta,
    ensures
        spec_elapsed(cfg, t, r) == delta,
{
}

/// The elapsed business time from any instant to itself is zero.
pub proof fn lemma_elapsed_empty(cfg: CalendarConfig, t: Instant)
    requires
        cfg.wf(),
        t.valid(),
    ensures
        spec_elapsed(cfg, t, t) == 0,
{
}

/// Round trip, second half: subtracting the duration from the result of a
/// business-duration addition that started at a business instant returns
/// exactly the starting instant.
pub proof fn lemma_sub_of_add_returns(
    cfg: CalendarConfig,
    t: Instant,
    r: Instant,
    s: Instant,
    delta: int,
)
    requires
        cfg.wf(),
        t.valid(),
        r.valid(),
        s.valid(),
        delta >= 0,
        spec_is_business(cfg, t),
        delta == 0 ==> !is_start_time(cfg.borders_seq(), t.time as int),
        // what the addition ensures of its result
        spec_is_business(cfg, r),
        spec_elapsed(cfg, t, r) == delta,
        t.secs() <= r.secs(),
        // what the subtraction ensures of its result
        spec_elapsed(cfg, s, r) == delta,
        s.secs() <= r.secs(),
        delta > 0 ==> spec_is_business(cfg, s),
        delta == 0 && spec_is_business(cfg, r) && !is_start_time(cfg.borders_seq(), r.time as int)
            ==> s == r,
    ensures
        s == t,
{
    if delta == 0 {
        // the addition of nothing cannot move off a business instant
        if t.secs() < r.secs() {
            lemma_elapsed_positive(cfg, t, r);
            assert(false);
        }
        assert(t.secs() == r.secs());
        assert(t.date.d() == r.date.d() && t.time == r.time) by (nonlinear_arith)
            requires
                t.date.d() * 86400 + t.time == r.date.d() * 86400 + r.time,
                0 <= t.time < 86400,
                0 <= r.time < 86400,
        ;
        assert(t.date.days == r.date.days);
        assert(t == r);
        assert(s == r);
    } else {
        if s.secs() < t.secs() {
            lemma_elapsed_additive(cfg, s, t, r);
            lemma_elapsed_positive(cfg, s, t);
            assert(false);
        }
        if t.secs() < s.secs() {
            lemma_elapsed_additive(cfg, t, s, r);
            lemma_elapsed_positive(cfg, t, s);
            assert(false);
        }
        assert(t.secs() == s.secs());
        assert(t.date.d() == s.date.d() && t.time == s.time) by (nonlinear_arith)
            requires
                t.date.d() * 86400 + t.time == s.date.d() * 86400 + s.time,
                0 <= t.time < 86400,
                0 <= s.time < 86400,
        ;
        assert(t.date.days == s.date.days);
        assert(t == s);
    }
}

/// The nearest-business-instant search is idempotent: fed its own output,
/// it returns that output unchanged.
pub proof fn lemma_near_workday_intraday_idempotent(
    cfg: CalendarConfig,
    t: Instant,
    r: Instant,
    kind: BorderKind,
    r2: Instant,
    kind2: BorderKind,
    is_after: bool,
)
    requires
        cfg.wf(),
        t.valid(),
        r.valid(),
        // first call on `t` returned `(r, kind)`
        spec_is_business(cfg, t) ==> r == t,
        !spec_is_business(cfg, t) && is_after ==> next_border_ok(cfg, t, r, kind),
        !spec_is_business(cfg, t) && !is_after ==> previous_border_ok(cfg, t, false, r, kind),
        // second call on `r` returned `(r2, kind2)`
        spec_is_business(cfg, r) ==> r2 == r,
        !spec_is_business(cfg, r) && is_after ==> next_border_ok(cfg, r, r2, kind2),
        !spec_is_business(cfg, r) && !is_after ==> previous_border_ok(cfg, r, false, r2, kind2),
    ensures
        r2 == r,
{
    let bs = cfg.borders_seq();
    if spec_is_business(cfg, t) {
        assert(r2 == r);
    } else if is_after {
        // forward search lands on a window start, a business instant
        if workday_day(cfg, t.date.d()) && in_border(bs, t.time as int) {
            assert(spec_is_business(cfg, t));
            assert(false);
        } else if workday_day(cfg, t.date.d()) && crate::intraday::first_start_after(
            bs,
            t.time as int,
        ) >= 0 {
            lemma_first_start_after_char(bs, t.time as int, 0);
            let k = choose|k: int|
                0 <= k < bs.len() && (#[trigger] bs[k]).start == crate::intraday::first_start_after(
                    bs,
                    t.time as int,
                ) && bs[k].start > t.time as int;
            assert(bs[k].wf());
            assert(in_border(bs, r.time as int)) by {
                assert(bs[k].start <= r.time < bs[k].end);
            }
            assert(spec_is_business(cfg, r));
        } else {
            assert(bs[0].wf());
            assert(in_border(bs, r.time as int)) by {
                assert(bs[0].start <= r.time < bs[0].end);
            }
            assert(spec_is_business(cfg, r));
        }
    } else {
        // backward search lands on a window end (or a window start when
        // two windows touch); either is its own previous border
        if workday_day(cfg, t.date.d()) && in_border(bs, t.time as int) && !is_start_time(
            bs,
            t.time as int,
        ) {
            assert(spec_is_business(cfg, t));
            assert(false);
        } else {
            let e = r.time as int;
            assert(crate::intraday::is_end_time(bs, e)) by {
                if workday_day(cfg, t.date.d()) && crate::intraday::last_end_leq(
                    bs,
                    t.time as int,
                ) >= 0 {
                    lemma_last_end_leq_char(bs, t.time as int, bs.len() - 1);
                    let k = choose|k: int|
                        0 <= k <= bs.len() - 1 && (#[trigger] bs[k]).end
                            == crate::intraday::last_end_leq(bs, t.time as int) && bs[k].end
                            <= t.time as int;
                    assert(bs[k].end == e);
                } else {
                    assert(bs[bs.len() - 1].end == e);
                }
            };
            let ke = choose|k: int| 0 <= k < bs.len() && (#[trigger] bs[k]).end == e;
            assert(workday_day(cfg, r.date.d()));
            if spec_is_business(cfg, r) {
                assert(r2 == r);
            } else {
                // r sits exactly on a window end and outside every window
                assert(!(in_border(bs, e) && !is_start_time(bs, e)));
                lemma_last_end_leq_char(bs, e, bs.len() - 1);
                assert(crate::intraday::last_end_leq(bs, e) >= 0) by {
                    if crate::intraday::last_end_leq(bs, e) == -1 {
                        assert(bs[ke].end > e);
                        assert(false);
                    }
                }
                assert(crate::intraday::last_end_leq(bs, e) == e) by {
                    let v = crate::intraday::last_end_leq(bs, e);
                    assert(v <= e || v >= 0);
                    let kv = choose|k: int|
                        0 <= k <= bs.len() - 1 && (#[trigger] bs[k]).end == v && bs[k].end <= e;
                    assert(bs[ke].end <= e);
                    assert(v >= bs[ke].end);
                }
                assert(previous_border_ok(cfg, r, false, r2, kind2));
                assert(r2.date == r.date && r2.time as int == e);
                assert(r2 == r) by {
                    assert(r2.date == r.date && r2.time == r.time);
                }
            }
        }
    }
}

/// The asymmetry of the two walk styles: from a working day, the one-day
/// collecting walk starts with the day itself, while the single next
/// working day lies strictly after it.
pub proof fn lemma_next_workday_asymmetry(cfg: CalendarConfig, d: Date, r: Date, s: Seq<Date>)
    requires
        cfg.wf(),
        d.valid(),
        spec_is_workday(cfg, d),
        // what `get_next_workday(cfg, d, 1)` ensures
        r.d() > d.d(),
        workday_day(cfg, r.d()),
        workdays_seq(cfg, d.d() + 1, r.d()).len() == 1,
        // what `get_next_workdays_number(cfg, d, 1)` ensures
        s.len() == 1,
        s =~= workdays_seq(cfg, d.d(), s[0].d()),
    ensures
        s.contains(d),
        r != d,
{
    lemma_workdays_seq_props(cfg, d.d(), s[0].d());
    assert(date_of(d.d()) == d);
    assert(workday_day(cfg, d.d()));
    assert(s[0].d() >= d.d());
    assert(s.contains(date_of(d.d())));
}

/// The combined extraction mask is, element for element, the conjunction
/// of the working-day mask and the intraday mask.
pub proof fn lemma_extract_consistency(
    cfg: CalendarConfig,
    v: Seq<Instant>,
    wmask: Seq<bool>,
    imask: Seq<bool>,
    cmask: Seq<bool>,
)
    requires
        wmask.len() == v.len(),
        imask.len() == v.len(),
        cmask.len() == v.len(),
        forall|i: int| 0 <= i < v.len() ==> wmask[i] == workday_day(cfg, (#[trigger] v[i]).date.d()),
        forall|i: int|
            0 <= i < v.len() ==> imask[i] == in_border(cfg.borders_seq(), (#[trigger] v[i]).time as int),
        forall|i: int|
            0 <= i < v.len() ==> cmask[i] == (workday_day(cfg, (#[trigger] v[i]).date.d())
                && in_border(cfg.borders_seq(), v[i].time as int)),
    ensures
        forall|i: int| 0 <= i < v.len() ==> (#[trigger] cmask[i]) == (wmask[i] && imask[i]),
{
    assert forall|i: int| 0 <= i < v.len() implies (#[trigger] cmask[i]) == (wmask[i]
        && imask[i]) by {
        assert(wmask[i] == workday_day(cfg, v[i].date.d()));
        assert(imask[i] == in_border(cfg.borders_seq(), v[i].time as int));
    }
}

} // verus!
