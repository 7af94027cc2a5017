use rs_workdays::{
    add_workday_intraday_datetime, check_workday, check_workday_intraday,
    extract_intraday_bool_vec, extract_workdays_bool_vec, extract_workdays_intraday_bool_vec,
    get_near_workday, get_near_workday_intraday, get_next_border_workday_intraday,
    get_next_workday, get_previous_border_workday_intraday, get_previous_workday,
    get_timedelta_workdays_intraday, get_workdays, get_workdays_number,
    sub_workday_intraday_datetime, CalendarConfig, Closed, Date, Duration, Instant,
};
use rs_workdays::intraday::BorderKind;

fn true_holidays_2021() -> Vec<Date> {
    vec![
        Date::from_ymd(2021, 1, 1),
        Date::from_ymd(2021, 1, 11),
        Date::from_ymd(2021, 2, 11),
        Date::from_ymd(2021, 2, 23),
        Date::from_ymd(2021, 3, 20),
        Date::from_ymd(2021, 4, 29),
        Date::from_ymd(2021, 5, 3),
        Date::from_ymd(2021, 5, 4),
        Date::from_ymd(2021, 5, 5),
        Date::from_ymd(2021, 7, 22),
        Date::from_ymd(2021, 7, 23),
        Date::from_ymd(2021, 8, 8),
        Date::from_ymd(2021, 8, 9),
        Date::from_ymd(2021, 9, 20),
        Date::from_ymd(2021, 9, 23),
        Date::from_ymd(2021, 11, 3),
        Date::from_ymd(2021, 11, 23),
    ]
}

fn config_2021() -> CalendarConfig {
    let mut cfg = CalendarConfig::new();
    cfg.set_range_holidays(&true_holidays_2021(), 2015, 2025);
    cfg
}

#[test]
fn related_workdays() {
    let cfg = config_2021();
    let start_date = Date::from_ymd(2021, 1, 1);
    let end_date = Date::from_ymd(2021, 12, 31);

    // the expected working days, recomputed day by day
    let holidays = true_holidays_2021();
    let weekend = [rs_workdays::Weekday::Sat, rs_workdays::Weekday::Sun];
    let mut true_workdays: Vec<Date> = Vec::new();
    let mut day = start_date.day_number();
    while day <= end_date.day_number() {
        let d = Date::from_days(day);
        let is_holiday = holidays.contains(&d);
        let is_weekend = weekend.contains(&d.weekday());
        if !is_holiday && !is_weekend {
            true_workdays.push(d);
        }
        day += 1;
    }

    // get_workdays
    let workdays_vec = get_workdays(&cfg, start_date, end_date, Closed::Both);
    assert_eq!(workdays_vec, true_workdays);

    // get_workdays_number
    let forward = get_workdays_number(&cfg, start_date, true_workdays.len() as i32);
    assert_eq!(forward, true_workdays);
    let backward = get_workdays_number(&cfg, end_date, -(true_workdays.len() as i32));
    assert_eq!(backward, true_workdays);

    // check_workday
    assert!(true_workdays.iter().all(|d| check_workday(&cfg, *d)));
    let mut day = start_date.day_number();
    while day <= end_date.day_number() {
        let d = Date::from_days(day);
        if !true_workdays.contains(&d) {
            assert!(!check_workday(&cfg, d));
        }
        day += 1;
    }

    // get_next_workday
    let mut nexts: Vec<Date> = Vec::new();
    for x in 1..(true_workdays.len() + 1) as u32 {
        nexts.push(get_next_workday(&cfg, start_date, x));
    }
    assert_eq!(nexts, true_workdays);

    // get_previous_workday
    let mut prevs: Vec<Date> = Vec::new();
    for x in 1..true_workdays.len() as u32 {
        prevs.push(get_previous_workday(&cfg, end_date, x));
    }
    prevs.push(end_date);
    prevs.sort();
    assert_eq!(prevs, true_workdays);

    // get_near_workday
    let near_workday = get_near_workday(&cfg, start_date, true);
    assert_eq!(near_workday, Date::from_ymd(2021, 1, 4));
    let near_workday = get_near_workday(&cfg, start_date, false);
    assert_eq!(near_workday, Date::from_ymd(2020, 12, 31));
}

fn half_hour_grid_2021() -> Vec<Instant> {
    // every 30 minutes from 2021-01-01T00:30 through 2022-01-01T00:00
    let base = Date::from_ymd(2021, 1, 1).day_number();
    let end_secs: i64 = 365 * 86400;
    let mut v: Vec<Instant> = Vec::new();
    let mut offset: i64 = 30 * 60;
    loop {
        v.push(Instant::new(
            Date::from_days(base + offset / 86400),
            (offset % 86400) as u32,
        ));
        if offset >= end_secs {
            break;
        }
        offset += 30 * 60;
    }
    v
}

#[test]
fn related_extract() {
    let cfg = config_2021();
    let all_datetime_vec = half_hour_grid_2021();

    let start_date = Date::from_ymd(2021, 1, 1);
    let end_date = Date::from_ymd(2022, 1, 1);
    let all_workdays = get_workdays(&cfg, start_date, end_date, Closed::Both);

    // extract_workdays_bool_vec
    let true_workdays_datetime: Vec<Instant> = all_datetime_vec
        .iter()
        .cloned()
        .filter(|x| all_workdays.contains(&x.date_part()))
        .collect();
    let bool_vec = extract_workdays_bool_vec(&cfg, &all_datetime_vec).unwrap();
    let extracted: Vec<Instant> = all_datetime_vec
        .iter()
        .cloned()
        .enumerate()
        .filter(|(i, _x)| bool_vec[*i])
        .map(|(_i, x)| x)
        .collect();
    assert_eq!(extracted, true_workdays_datetime);

    // extract_intraday_bool_vec
    let borders = cfg.get_intraday_borders();
    let true_intraday_datetime: Vec<Instant> = all_datetime_vec
        .iter()
        .cloned()
        .filter(|x| {
            borders
                .iter()
                .any(|b| b.start <= x.time_part() && x.time_part() < b.end)
        })
        .collect();
    let bool_vec = extract_intraday_bool_vec(&cfg, &all_datetime_vec).unwrap();
    let extracted: Vec<Instant> = all_datetime_vec
        .iter()
        .cloned()
        .enumerate()
        .filter(|(i, _x)| bool_vec[*i])
        .map(|(_i, x)| x)
        .collect();
    assert_eq!(extracted, true_intraday_datetime);

    // extract_workdays_intraday_bool_vec
    let true_workdays_intraday_datetime: Vec<Instant> = all_datetime_vec
        .iter()
        .cloned()
        .filter(|x| all_workdays.contains(&x.date_part()))
        .filter(|x| {
            borders
                .iter()
                .any(|b| b.start <= x.time_part() && x.time_part() < b.end)
        })
        .collect();
    let bool_vec = extract_workdays_intraday_bool_vec(&cfg, &all_datetime_vec).unwrap();
    let extracted: Vec<Instant> = all_datetime_vec
        .iter()
        .cloned()
        .enumerate()
        .filter(|(i, _x)| bool_vec[*i])
        .map(|(_i, x)| x)
        .collect();
    assert_eq!(extracted, true_workdays_intraday_datetime);
}

#[test]
fn related_intraday() {
    let cfg = config_2021();

    // check_workday_intraday
    assert!(check_workday_intraday(
        &cfg,
        Instant::from_date_hms(Date::from_ymd(2021, 1, 4), 10, 0, 0)
    ));
    assert!(!check_workday_intraday(
        &cfg,
        Instant::from_date_hms(Date::from_ymd(2021, 1, 1), 10, 0, 0)
    ));
    assert!(!check_workday_intraday(
        &cfg,
        Instant::from_date_hms(Date::from_ymd(2021, 1, 4), 0, 0, 0)
    ));

    // get_next_border_workday_intraday
    let next_border_tuple = get_next_border_workday_intraday(
        &cfg,
        Instant::from_date_hms(Date::from_ymd(2021, 1, 1), 0, 0, 0),
    );
    assert_eq!(
        next_border_tuple,
        (
            Instant::from_date_hms(Date::from_ymd(2021, 1, 4), 9, 0, 0),
            BorderKind::BorderStart
        )
    );
    let next_border_tuple = get_next_border_workday_intraday(
        &cfg,
        Instant::from_date_hms(Date::from_ymd(2021, 1, 4), 9, 0, 0),
    );
    assert_eq!(
        next_border_tuple,
        (
            Instant::from_date_hms(Date::from_ymd(2021, 1, 4), 11, 30, 0),
            BorderKind::BorderEnd
        )
    );
    let next_border_tuple = get_next_border_workday_intraday(
        &cfg,
        Instant::from_date_hms(Date::from_ymd(2021, 1, 4), 11, 30, 0),
    );
    assert_eq!(
        next_border_tuple,
        (
            Instant::from_date_hms(Date::from_ymd(2021, 1, 4), 12, 30, 0),
            BorderKind::BorderStart
        )
    );

    // get_previous_border_workday_intraday
    let previous_border_tuple = get_previous_border_workday_intraday(
        &cfg,
        Instant::from_date_hms(Date::from_ymd(2021, 1, 1), 10, 0, 0),
        true,
    );
    assert_eq!(
        previous_border_tuple,
        (
            Instant::from_date_hms(Date::from_ymd(2020, 12, 31), 15, 0, 0),
            BorderKind::BorderEnd
        )
    );
    let previous_border_tuple = get_previous_border_workday_intraday(
        &cfg,
        Instant::from_date_hms(Date::from_ymd(2020, 12, 31), 12, 30, 0),
        true,
    );
    assert_eq!(
        previous_border_tuple,
        (
            Instant::from_date_hms(Date::from_ymd(2020, 12, 31), 11, 30, 0),
            BorderKind::BorderEnd
        )
    );
    let previous_border_tuple = get_previous_border_workday_intraday(
        &cfg,
        Instant::from_date_hms(Date::from_ymd(2020, 12, 31), 15, 0, 0),
        false,
    );
    assert_eq!(
        previous_border_tuple,
        (
            Instant::from_date_hms(Date::from_ymd(2020, 12, 31), 15, 0, 0),
            BorderKind::BorderEnd
        )
    );
    let previous_border_tuple = get_previous_border_workday_intraday(
        &cfg,
        Instant::from_date_hms(Date::from_ymd(2020, 12, 31), 15, 0, 0),
        true,
    );
    assert_eq!(
        previous_border_tuple,
        (
            Instant::from_date_hms(Date::from_ymd(2020, 12, 31), 12, 30, 0),
            BorderKind::BorderStart
        )
    );

    // get_near_workday_intraday
    let near_tuple = get_near_workday_intraday(
        &cfg,
        Instant::from_date_hms(Date::from_ymd(2021, 1, 1), 10, 0, 0),
        true,
    );
    assert_eq!(
        near_tuple,
        (
            Instant::from_date_hms(Date::from_ymd(2021, 1, 4), 9, 0, 0),
            BorderKind::BorderStart
        )
    );
    let near_tuple = get_near_workday_intraday(
        &cfg,
        Instant::from_date_hms(Date::from_ymd(2021, 1, 1), 10, 0, 0),
        false,
    );
    assert_eq!(
        near_tuple,
        (
            Instant::from_date_hms(Date::from_ymd(2020, 12, 31), 15, 0, 0),
            BorderKind::BorderEnd
        )
    );

    // add_workday_intraday_datetime and sub_workday_intraday_datetime over
    // a half-hour grid of the whole year
    let all_datetime_vec = half_hour_grid_2021();
    let bool_vec = extract_workdays_intraday_bool_vec(&cfg, &all_datetime_vec).unwrap();
    let extracted: Vec<Instant> = all_datetime_vec
        .iter()
        .cloned()
        .enumerate()
        .filter(|(i, _x)| bool_vec[*i])
        .map(|(_i, x)| x)
        .collect();

    let start_datetime = Instant::from_date_hms(Date::from_ymd(2021, 1, 1), 0, 0, 0);
    let end_datetime = Instant::from_date_hms(Date::from_ymd(2022, 1, 1), 0, 0, 0);
    let per_sec: i64 = 30 * 60;

    let (first_intraday, _) = get_next_border_workday_intraday(&cfg, start_datetime);
    let mut added: Vec<Instant> = vec![first_intraday];
    for i in 1..extracted.len() {
        added.push(add_workday_intraday_datetime(
            &cfg,
            start_datetime,
            Duration::seconds(i as i64 * per_sec),
        ));
    }
    assert_eq!(added, extracted);

    let mut subed: Vec<Instant> = Vec::new();
    for i in 1..extracted.len() + 1 {
        subed.push(sub_workday_intraday_datetime(
            &cfg,
            end_datetime,
            Duration::seconds(i as i64 * per_sec),
        ));
    }
    let subed: Vec<Instant> = subed.iter().cloned().rev().collect();
    assert_eq!(subed, extracted);

    // get_timedelta_workdays_intraday round trip
    let start_datetime = Instant::from_date_hms(Date::from_ymd(2021, 1, 4), 9, 0, 0);
    let end_datetime = Instant::from_date_hms(Date::from_ymd(2021, 12, 31), 9, 0, 0);
    let delta_time = get_timedelta_workdays_intraday(&cfg, start_datetime, end_datetime);
    assert_eq!(
        add_workday_intraday_datetime(&cfg, start_datetime, delta_time),
        end_datetime
    );
    assert_eq!(
        sub_workday_intraday_datetime(&cfg, end_datetime, delta_time),
        start_datetime
    );
}
