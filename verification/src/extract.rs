//! Series extraction: boolean masks over chronologically sorted timestamp
//! sequences, computed with cursors so that each element costs only the
//! work of advancing past the boundaries it crosses.

use vstd::prelude::*;
use crate::config::{borders_wf, dates_sorted_strict, lemma_borders_wf_disjoint, CalendarConfig, Error};
use crate::intraday::in_border;
use crate::moments::Instant;
use crate::workdays::{date_of, get_workdays, workday_day, workdays_seq, Closed};

verus! {

/// The instants are in chronological order.
pub open spec fn instants_sorted(s: Seq<Instant>) -> bool {
    forall|i: int, j: int| 0 <= i < j < s.len() ==> s[i].secs() <= s[j].secs()
}

/// Every instant of the sequence is a real point in the supported range.
pub open spec fn instants_valid(s: Seq<Instant>) -> bool {
    forall|i: int| 0 <= i < s.len() ==> (#[trigger] s[i]).valid()
}

/// An earlier instant of a sorted sequence is on an earlier or equal date.
proof fn lemma_sorted_dates(s: Seq<Instant>, i: int, j: int)
    requires
        instants_sorted(s),
        instants_valid(s),
        0 <= i <= j < s.len(),
    ensures
        s[i].date.d() <= s[j].date.d(),
        s[i].date.d() == s[j].date.d() ==> s[i].time <= s[j].time,
{
    if i < j {
        assert(s[i].secs() <= s[j].secs());
        assert(s[i].valid() && s[j].valid());
        assert(s[i].date.d() * 86400 + s[i].time <= s[j].date.d() * 86400 + s[j].time);
        assert(s[i].date.d() <= s[j].date.d()) by (nonlinear_arith)
            requires
                s[i].date.d() * 86400 + s[i].time <= s[j].date.d() * 86400 + s[j].time,
                0 <= s[i].time < 86400,
                0 <= s[j].time < 86400,
        ;
    }
}

/// Mask of the instants that fall on a working day, regardless of the time
/// of day.  The sequence must be sorted; an empty sequence has no first or
/// last date to bound the calendar scan and is rejected.
pub fn extract_workdays_bool_vec(cfg: &CalendarConfig, datetime_vec: &Vec<Instant>) -> (r: Result<
    Vec<bool>,
    Error,
>)
    requires
        cfg.wf(),
        instants_sorted(datetime_vec@),
        instants_valid(datetime_vec@),
    ensures
        r is Err <==> datetime_vec@.len() == 0,
        r is Err ==> r->Err_0 == Error::EmptyInput,
        r is Ok ==> r->Ok_0@.len() == datetime_vec@.len() && forall|i: int|
            0 <= i < datetime_vec@.len() ==> r->Ok_0@[i] == workday_day(
                *cfg,
                (#[trigger] datetime_vec@[i]).date.d(),
            ),
{
    if datetime_vec.len() == 0 {
        return Err(Error::EmptyInput);
    }
    let first_date = datetime_vec[0].date;
    let last_date = datetime_vec[datetime_vec.len() - 1].date;
    proof {
        lemma_sorted_dates(datetime_vec@, 0, datetime_vec@.len() - 1);
    }
    let workdays_vec = get_workdays(cfg, first_date, last_date, Closed::Both);
    let ghost wdv = workdays_vec@;
    proof {
        crate::workdays::lemma_workdays_seq_props(*cfg, first_date.d(), last_date.d());
    }
    let mut out: Vec<bool> = Vec::new();
    let mut c: usize = 0;
    let mut i: usize = 0;
    while i < datetime_vec.len()
        invariant
            cfg.wf(),
            instants_sorted(datetime_vec@),
            instants_valid(datetime_vec@),
            datetime_vec@.len() >= 1,
            first_date == datetime_vec@[0].date,
            last_date == datetime_vec@[datetime_vec@.len() - 1].date,
            wdv == workdays_vec@,
            wdv =~= workdays_seq(*cfg, first_date.d(), last_date.d()),
            0 <= i <= datetime_vec@.len(),
            0 <= c <= wdv.len(),
            out@.len() == i,
            forall|p: int|
                0 <= p < i ==> out@[p] == workday_day(*cfg, (#[trigger] datetime_vec@[p]).date.d()),
            forall|p: int|
                0 <= p < c ==> (#[trigger] wdv[p]).d() < (if i < datetime_vec@.len() {
                    datetime_vec@[i as int].date.d()
                } else {
                    datetime_vec@[datetime_vec@.len() - 1].date.d() + 1
                }),
        decreases datetime_vec@.len() - i,
    {
        let di = datetime_vec[i].date;
        proof {
            lemma_sorted_dates(datetime_vec@, 0, i as int);
            lemma_sorted_dates(datetime_vec@, i as int, datetime_vec@.len() - 1);
        }
        while c < workdays_vec.len() && workdays_vec[c].days < di.days
            invariant
                wdv == workdays_vec@,
                0 <= c <= wdv.len(),
                di == datetime_vec@[i as int].date,
                0 <= i < datetime_vec@.len(),
                forall|p: int| 0 <= p < c ==> (#[trigger] wdv[p]).d() < di.d(),
            decreases wdv.len() - c,
        {
            c += 1;
        }
        let m = c < workdays_vec.len() && workdays_vec[c].days == di.days;
        proof {
            crate::workdays::lemma_workdays_seq_props(*cfg, first_date.d(), last_date.d());
            if m {
                assert(wdv[c as int] == date_of(di.d()));
                assert(workday_day(*cfg, di.d()));
            } else {
                if workday_day(*cfg, di.d()) {
                    assert(wdv.contains(date_of(di.d())));
                    let p = choose|p: int| 0 <= p < wdv.len() && wdv[p] == date_of(di.d());
                    if p < c {
                        assert(wdv[p].d() < di.d());
                        assert(false);
                    } else {
                        assert(c < wdv.len() ==> wdv[c as int].d() < wdv[p].d() || c == p);
                        assert(false);
                    }
                }
            }
            assert(date_of(di.d()) == di);
        }
        out.push(m);
        proof {
            if i + 1 < datetime_vec@.len() {
                lemma_sorted_dates(datetime_vec@, i as int, i as int + 1);
            }
        }
        i += 1;
    }
    Ok(out)
}

/// Mask of the instants whose time of day lies inside some window,
/// regardless of the date.  The sequence must be sorted and non-empty.
pub fn extract_intraday_bool_vec(cfg: &CalendarConfig, datetime_vec: &Vec<Instant>) -> (r: Result<
    Vec<bool>,
    Error,
>)
    requires
        cfg.wf(),
        instants_sorted(datetime_vec@),
        instants_valid(datetime_vec@),
    ensures
        r is Err <==> datetime_vec@.len() == 0,
        r is Err ==> r->Err_0 == Error::EmptyInput,
        r is Ok ==> r->Ok_0@.len() == datetime_vec@.len() && forall|i: int|
            0 <= i < datetime_vec@.len() ==> r->Ok_0@[i] == in_border(
                cfg.borders_seq(),
                (#[trigger] datetime_vec@[i]).time as int,
            ),
{
    if datetime_vec.len() == 0 {
        return Err(Error::EmptyInput);
    }
    let bs = &cfg.borders;
    let ghost bsv = cfg.borders_seq();
    let mut out: Vec<bool> = Vec::new();
    let mut cur_date: i64 = datetime_vec[0].date.days;
    let mut bidx: usize = 0;
    let mut i: usize = 0;
    while i < datetime_vec.len()
        invariant
            cfg.wf(),
            bsv == cfg.borders_seq(),
            bs@ == bsv,
            instants_sorted(datetime_vec@),
            instants_valid(datetime_vec@),
            datetime_vec@.len() >= 1,
            0 <= i <= datetime_vec@.len(),
            0 <= bidx <= bsv.len(),
            out@.len() == i,
            forall|p: int|
                0 <= p < i ==> out@[p] == in_border(bsv, (#[trigger] datetime_vec@[p]).time as int),
            i == 0 ==> cur_date == datetime_vec@[0].date.days && bidx == 0,
            i >= 1 ==> cur_date == datetime_vec@[i - 1].date.days,
            i >= 1 ==> forall|p: int|
                0 <= p < bidx ==> (#[trigger] bsv[p]).end <= datetime_vec@[i - 1].time,
        decreases datetime_vec@.len() - i,
    {
        let t = datetime_vec[i];
        proof {
            if i >= 1 {
                lemma_sorted_dates(datetime_vec@, i as int - 1, i as int);
            }
        }
        if t.date.days > cur_date {
            cur_date = t.date.days;
            bidx = 0;
        }
        while bidx < bs.len() && bs[bidx].end <= t.time
            invariant
                bsv == bs@,
                0 <= bidx <= bsv.len(),
                t == datetime_vec@[i as int],
                0 <= i < datetime_vec@.len(),
                forall|p: int| 0 <= p < bidx ==> (#[trigger] bsv[p]).end <= t.time,
            decreases bsv.len() - bidx,
        {
            bidx += 1;
        }
        let m = bidx < bs.len() && bs[bidx].start <= t.time;
        proof {
            if m {
                assert(bsv[bidx as int].start <= t.time < bsv[bidx as int].end);
                assert(in_border(bsv, t.time as int));
            } else {
                if in_border(bsv, t.time as int) {
                    let k = choose|k: int|
                        0 <= k < bsv.len() && (#[trigger] bsv[k]).start <= t.time
                            && t.time < bsv[k].end;
                    if k < bidx {
                        assert(bsv[k].end <= t.time);
                        assert(false);
                    } else if k > bidx {
                        assert(bidx < bsv.len());
                        lemma_borders_wf_disjoint(bsv, bidx as int, k);
                        assert(bsv[bidx as int].end <= bsv[k].start);
                        assert(false);
                    } else {
                        assert(false);
                    }
                }
            }
        }
        out.push(m);
        i += 1;
    }
    Ok(out)
}

/// Mask of the instants that are business instants: on a working day and
/// inside a window.  Elementwise the conjunction of the two masks above.
pub fn extract_workdays_intraday_bool_vec(cfg: &CalendarConfig, datetime_vec: &Vec<Instant>) -> (r:
    Result<Vec<bool>, Error>)
    requires
        cfg.wf(),
        instants_sorted(datetime_vec@),
        instants_valid(datetime_vec@),
    ensures
        r is Err <==> datetime_vec@.len() == 0,
        r is Err ==> r->Err_0 == Error::EmptyInput,
        r is Ok ==> r->Ok_0@.len() == datetime_vec@.len() && forall|i: int|
            0 <= i < datetime_vec@.len() ==> r->Ok_0@[i] == (workday_day(
                *cfg,
                (#[trigger] datetime_vec@[i]).date.d(),
            ) && in_border(cfg.borders_seq(), datetime_vec@[i].time as int)),
{
    let workdays_mask = match extract_workdays_bool_vec(cfg, datetime_vec) {
        Ok(v) => v,
        Err(e) => {
            return Err(e);
        },
    };
    let intraday_mask = match extract_intraday_bool_vec(cfg, datetime_vec) {
        Ok(v) => v,
        Err(e) => {
            return Err(e);
        },
    };
    let mut out: Vec<bool> = Vec::new();
    let mut i: usize = 0;
    while i < workdays_mask.len()
        invariant
            workdays_mask@.len() == datetime_vec@.len(),
            intraday_mask@.len() == datetime_vec@.len(),
            0 <= i <= datetime_vec@.len(),
            out@.len() == i,
            forall|p: int|
                0 <= p < i ==> out@[p] == ((#[trigger] workdays_mask@[p]) && intraday_mask@[p]),
            forall|p: int|
                0 <= p < datetime_vec@.len() ==> workdays_mask@[p] == workday_day(
                    *cfg,
                    (#[trigger] datetime_vec@[p]).date.d(),
                ),
            forall|p: int|
                0 <= p < datetime_vec@.len() ==> intraday_mask@[p] == in_border(
                    cfg.borders_seq(),
                    (#[trigger] datetime_vec@[p]).time as int,
                ),
        decreases datetime_vec@.len() - i,
    {
        out.push(workdays_mask[i] && intraday_mask[i]);
        i += 1;
    }
    Ok(out)
}

} // verus!
