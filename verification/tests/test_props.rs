use chrono::Datelike;
use rs_workdays::intraday::BorderKind;
use rs_workdays::{
    add_workday_intraday_datetime, check_workday, extract_intraday_bool_vec,
    extract_workdays_bool_vec, extract_workdays_intraday_bool_vec, get_near_workday_intraday,
    get_next_border_workday_intraday, get_next_workday, get_next_workdays_number,
    get_previous_border_workday_intraday, get_previous_workday, get_timedelta_workdays_intraday,
    get_workdays, sub_workday_intraday_datetime, CalendarConfig, Closed, Date, Duration, Error,
    Instant, TimeBorder, Weekday,
};

fn scenario_config() -> CalendarConfig {
    // the default two-window day with the two January 2021 holidays
    let mut cfg = CalendarConfig::new();
    cfg.set_range_holidays(
        &vec![Date::from_ymd(2021, 1, 1), Date::from_ymd(2021, 1, 11)],
        2015,
        2025,
    );
    cfg
}

#[test]
fn scenario_day_calendar() {
    let cfg = scenario_config();

    // the working days of January 2021, dropping the right range end
    let workdays = get_workdays(
        &cfg,
        Date::from_ymd(2021, 1, 1),
        Date::from_ymd(2021, 2, 1),
        Closed::Left,
    );
    let expected_days = vec![
        4, 5, 6, 7, 8, 12, 13, 14, 15, 18, 19, 20, 21, 22, 25, 26, 27, 28, 29,
    ];
    let expected: Vec<Date> = expected_days
        .iter()
        .map(|d| Date::from_ymd(2021, 1, *d))
        .collect();
    assert_eq!(workdays.len(), 19);
    assert_eq!(workdays, expected);
    assert!(!workdays.contains(&Date::from_ymd(2021, 2, 1)));

    assert!(!check_workday(&cfg, Date::from_ymd(2021, 1, 1)));
    assert_eq!(
        get_next_workday(&cfg, Date::from_ymd(2021, 1, 1), 6),
        Date::from_ymd(2021, 1, 12)
    );
    assert_eq!(
        get_previous_workday(&cfg, Date::from_ymd(2021, 1, 12), 6),
        Date::from_ymd(2020, 12, 31)
    );
}

#[test]
fn scenario_intraday() {
    let cfg = scenario_config();

    let (next, kind) = get_next_border_workday_intraday(
        &cfg,
        Instant::from_date_hms(Date::from_ymd(2021, 1, 1), 0, 0, 0),
    );
    assert_eq!(next, Instant::from_date_hms(Date::from_ymd(2021, 1, 4), 9, 0, 0));
    assert_eq!(kind, BorderKind::BorderStart);

    let (prev, kind) = get_previous_border_workday_intraday(
        &cfg,
        Instant::from_date_hms(Date::from_ymd(2021, 1, 4), 15, 0, 0),
        true,
    );
    assert_eq!(prev, Instant::from_date_hms(Date::from_ymd(2021, 1, 4), 12, 30, 0));
    assert_eq!(kind, BorderKind::BorderStart);

    let added = add_workday_intraday_datetime(
        &cfg,
        Instant::from_date_hms(Date::from_ymd(2021, 1, 1), 0, 0, 0),
        Duration::hours(2),
    );
    assert_eq!(added, Instant::from_date_hms(Date::from_ymd(2021, 1, 4), 11, 0, 0));

    let span = get_timedelta_workdays_intraday(
        &cfg,
        Instant::from_date_hms(Date::from_ymd(2021, 1, 1), 0, 0, 0),
        Instant::from_date_hms(Date::from_ymd(2021, 1, 4), 15, 0, 0),
    );
    assert_eq!(span, Duration::hours(5));

    let subbed = sub_workday_intraday_datetime(
        &cfg,
        Instant::from_date_hms(Date::from_ymd(2021, 1, 1), 0, 0, 0),
        Duration::hours(2),
    );
    assert_eq!(subbed, Instant::from_date_hms(Date::from_ymd(2020, 12, 31), 13, 0, 0));
}

#[test]
fn exact_exhaustion_rolls_forward() {
    let cfg = scenario_config();
    // two and a half hours from the opening exactly exhaust the first
    // window: the result rolls to the second window's start
    let added = add_workday_intraday_datetime(
        &cfg,
        Instant::from_date_hms(Date::from_ymd(2021, 1, 4), 9, 0, 0),
        Duration::minutes(150),
    );
    assert_eq!(added, Instant::from_date_hms(Date::from_ymd(2021, 1, 4), 12, 30, 0));
    // a whole business day from the opening rolls to the next day's start
    let added = add_workday_intraday_datetime(
        &cfg,
        Instant::from_date_hms(Date::from_ymd(2021, 1, 4), 9, 0, 0),
        Duration::hours(5),
    );
    assert_eq!(added, Instant::from_date_hms(Date::from_ymd(2021, 1, 5), 9, 0, 0));
    // subtraction is exact at window starts without rolling
    let subbed = sub_workday_intraday_datetime(
        &cfg,
        Instant::from_date_hms(Date::from_ymd(2021, 1, 4), 15, 0, 0),
        Duration::minutes(150),
    );
    assert_eq!(subbed, Instant::from_date_hms(Date::from_ymd(2021, 1, 4), 12, 30, 0));
}

#[test]
fn near_intraday_is_idempotent() {
    let cfg = scenario_config();
    let samples = vec![
        Instant::from_date_hms(Date::from_ymd(2021, 1, 1), 0, 0, 0),
        Instant::from_date_hms(Date::from_ymd(2021, 1, 4), 10, 0, 0),
        Instant::from_date_hms(Date::from_ymd(2021, 1, 4), 11, 30, 0),
        Instant::from_date_hms(Date::from_ymd(2021, 1, 4), 12, 0, 0),
        Instant::from_date_hms(Date::from_ymd(2021, 1, 4), 23, 59, 59),
        Instant::from_date_hms(Date::from_ymd(2021, 1, 9), 9, 30, 0),
    ];
    for t in samples {
        for is_after in [true, false] {
            let (r, _) = get_near_workday_intraday(&cfg, t, is_after);
            let (r2, _) = get_near_workday_intraday(&cfg, r, is_after);
            assert_eq!(r2, r);
        }
    }
}

#[test]
fn next_workdays_asymmetry() {
    let cfg = scenario_config();
    // 2021-01-04 is a working day: the collecting walk counts it, the
    // single-step walk does not
    let d = Date::from_ymd(2021, 1, 4);
    let number_list = get_next_workdays_number(&cfg, d, 1);
    assert_eq!(number_list, vec![d]);
    let next = get_next_workday(&cfg, d, 1);
    assert_ne!(next, d);
    assert_eq!(next, Date::from_ymd(2021, 1, 5));
}

#[test]
fn configuration_errors() {
    let mut cfg = CalendarConfig::new();

    // an empty window list is rejected
    assert_eq!(cfg.set_intraday_borders(&vec![]), Err(Error::Configuration));
    // an ill-formed window is rejected
    assert_eq!(
        cfg.set_intraday_borders(&vec![TimeBorder { start: 3600, end: 3600 }]),
        Err(Error::Configuration)
    );
    // overlapping windows are rejected
    assert_eq!(
        cfg.set_intraday_borders(&vec![
            TimeBorder { start: 3600, end: 7200 },
            TimeBorder { start: 7000, end: 9000 },
        ]),
        Err(Error::Configuration)
    );
    // a closed week is rejected
    assert_eq!(
        cfg.set_holiday_weekdays(&vec![
            Weekday::Mon,
            Weekday::Tue,
            Weekday::Wed,
            Weekday::Thu,
            Weekday::Fri,
            Weekday::Sat,
            Weekday::Sun,
        ]),
        Err(Error::Configuration)
    );
    // valid replacements are accepted, sorted and readable back
    assert_eq!(
        cfg.set_intraday_borders(&vec![
            TimeBorder { start: 45000, end: 54000 },
            TimeBorder { start: 32400, end: 41400 },
        ]),
        Ok(())
    );
    assert_eq!(
        cfg.get_intraday_borders(),
        vec![
            TimeBorder { start: 32400, end: 41400 },
            TimeBorder { start: 45000, end: 54000 },
        ]
    );
    assert_eq!(cfg.set_holiday_weekdays(&vec![Weekday::Sun]), Ok(()));
    assert_eq!(cfg.get_holiday_weekdays(), vec![Weekday::Sun]);
    assert_eq!(Error::Configuration.message(), "invalid calendar configuration");
    assert_eq!(Error::EmptyInput.message(), "empty input sequence");
    // the hour/minute/second window builder agrees with raw day seconds
    assert_eq!(
        TimeBorder::from_hms(9, 0, 0, 11, 30, 0),
        TimeBorder { start: 32400, end: 41400 }
    );
}

#[test]
fn instant_ordering() {
    let early = Instant::from_date_hms(Date::from_ymd(2021, 1, 4), 9, 0, 0);
    let late = Instant::from_date_hms(Date::from_ymd(2021, 1, 4), 9, 0, 1);
    let next_day = Instant::from_date_hms(Date::from_ymd(2021, 1, 5), 0, 0, 0);
    assert!(early.le(early));
    assert!(early.le(late));
    assert!(!late.le(early));
    assert!(late.le(next_day));
    assert!(!next_day.le(late));
    assert_eq!(Duration::zero(), Duration::seconds(0));
}

#[test]
fn extraction_empty_input() {
    let cfg = scenario_config();
    let empty: Vec<Instant> = Vec::new();
    assert_eq!(extract_workdays_bool_vec(&cfg, &empty), Err(Error::EmptyInput));
    assert_eq!(extract_intraday_bool_vec(&cfg, &empty), Err(Error::EmptyInput));
    assert_eq!(
        extract_workdays_intraday_bool_vec(&cfg, &empty),
        Err(Error::EmptyInput)
    );
}

#[test]
fn extraction_masks_are_consistent() {
    let cfg = scenario_config();
    let mut v: Vec<Instant> = Vec::new();
    let base = Date::from_ymd(2020, 12, 30).day_number();
    let mut offset: i64 = 0;
    while offset < 8 * 86400 {
        v.push(Instant::new(
            Date::from_days(base + offset / 86400),
            (offset % 86400) as u32,
        ));
        offset += 2 * 3600 + 300;
    }
    let w = extract_workdays_bool_vec(&cfg, &v).unwrap();
    let b = extract_intraday_bool_vec(&cfg, &v).unwrap();
    let c = extract_workdays_intraday_bool_vec(&cfg, &v).unwrap();
    for i in 0..v.len() {
        assert_eq!(c[i], w[i] && b[i]);
    }
}

#[test]
fn holiday_configuration() {
    let mut cfg = CalendarConfig::new();
    // duplicates collapse and out-of-range years are dropped
    cfg.set_range_holidays(
        &vec![
            Date::from_ymd(2021, 5, 3),
            Date::from_ymd(2021, 1, 1),
            Date::from_ymd(2021, 5, 3),
            Date::from_ymd(1999, 7, 20),
        ],
        2020,
        2022,
    );
    assert_eq!(
        cfg.get_range_holidays(),
        vec![Date::from_ymd(2021, 1, 1), Date::from_ymd(2021, 5, 3)]
    );
    cfg.add_range_holidays(&vec![Date::from_ymd(2021, 2, 11)], 2020, 2022);
    assert_eq!(
        cfg.get_range_holidays(),
        vec![
            Date::from_ymd(2021, 1, 1),
            Date::from_ymd(2021, 2, 11),
            Date::from_ymd(2021, 5, 3),
        ]
    );
}

#[test]
fn calendar_matches_chrono() {
    // the day-number model agrees with chrono's proleptic Gregorian dates
    let samples = vec![
        (1, 1, 1),
        (1600, 2, 29),
        (1970, 1, 1),
        (2000, 3, 1),
        (2020, 12, 31),
        (2021, 1, 1),
        (2024, 2, 29),
        (9999, 12, 31),
    ];
    for (y, m, d) in samples {
        let mine = Date::from_ymd(y as i64, m as i64, d as i64);
        let theirs = chrono::NaiveDate::from_ymd_opt(y, m, d).unwrap();
        // chrono counts 0001-01-01 as day 1 of the common era
        assert_eq!(mine.day_number(), (theirs.num_days_from_ce() - 1) as i64);
        let weekday_num = match mine.weekday() {
            Weekday::Mon => 0,
            Weekday::Tue => 1,
            Weekday::Wed => 2,
            Weekday::Thu => 3,
            Weekday::Fri => 4,
            Weekday::Sat => 5,
            Weekday::Sun => 6,
        };
        assert_eq!(weekday_num, theirs.weekday().num_days_from_monday());
    }
    // invalid triples are rejected
    assert_eq!(Date::from_ymd_opt(2021, 2, 29), None);
    assert_eq!(Date::from_ymd_opt(2021, 13, 1), None);
    assert_eq!(Date::from_ymd_opt(0, 1, 1), None);
    assert_eq!(Date::from_ymd_opt(10000, 1, 1), None);
    assert!(Date::from_ymd_opt(2024, 2, 29).is_some());
}

#[test]
fn timedelta_roundtrip_small() {
    let cfg = scenario_config();
    // spans staying on the same working day and spans crossing days both
    // measure back to the added duration exactly
    let t = Instant::from_date_hms(Date::from_ymd(2021, 1, 4), 14, 0, 0);
    for secs in [0_i64, 1800, 3600, 2 * 3600, 5 * 3600, 13 * 3600] {
        let r = add_workday_intraday_datetime(&cfg, t, Duration::seconds(secs));
        let measured = get_timedelta_workdays_intraday(&cfg, t, r);
        assert_eq!(measured.num_seconds(), secs);
        let back = sub_workday_intraday_datetime(&cfg, r, Duration::seconds(secs));
        assert_eq!(back, t);
    }
    // one concrete same-day span and the empty span
    let nine = Instant::from_date_hms(Date::from_ymd(2021, 1, 4), 9, 0, 0);
    let ten = Instant::from_date_hms(Date::from_ymd(2021, 1, 4), 10, 0, 0);
    assert_eq!(get_timedelta_workdays_intraday(&cfg, nine, ten), Duration::hours(1));
    assert_eq!(get_timedelta_workdays_intraday(&cfg, nine, nine), Duration::zero());
}

#[test]
fn timedelta_is_additive() {
    let cfg = scenario_config();
    // the measure splits at any intermediate instant, also when two or all
    // three instants share one calendar date
    let triples = vec![
        (
            Instant::from_date_hms(Date::from_ymd(2021, 1, 4), 9, 0, 0),
            Instant::from_date_hms(Date::from_ymd(2021, 1, 4), 10, 30, 0),
            Instant::from_date_hms(Date::from_ymd(2021, 1, 4), 14, 0, 0),
        ),
        (
            Instant::from_date_hms(Date::from_ymd(2021, 1, 4), 9, 0, 0),
            Instant::from_date_hms(Date::from_ymd(2021, 1, 4), 13, 0, 0),
            Instant::from_date_hms(Date::from_ymd(2021, 1, 6), 10, 0, 0),
        ),
        (
            Instant::from_date_hms(Date::from_ymd(2021, 1, 1), 0, 0, 0),
            Instant::from_date_hms(Date::from_ymd(2021, 1, 5), 12, 0, 0),
            Instant::from_date_hms(Date::from_ymd(2021, 1, 8), 15, 0, 0),
        ),
        (
            Instant::from_date_hms(Date::from_ymd(2021, 1, 4), 10, 0, 0),
            Instant::from_date_hms(Date::from_ymd(2021, 1, 4), 10, 0, 0),
            Instant::from_date_hms(Date::from_ymd(2021, 1, 4), 10, 0, 0),
        ),
    ];
    for (a, b, c) in triples {
        let ab = get_timedelta_workdays_intraday(&cfg, a, b).num_seconds();
        let bc = get_timedelta_workdays_intraday(&cfg, b, c).num_seconds();
        let ac = get_timedelta_workdays_intraday(&cfg, a, c).num_seconds();
        assert_eq!(ab + bc, ac);
    }
}
