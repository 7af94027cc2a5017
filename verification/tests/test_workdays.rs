use rs_workdays::{check_workday, CalendarConfig, Date};

#[test]
fn all_test() {
    let mut cfg = CalendarConfig::new();
    cfg.set_range_holidays(&vec![Date::from_ymd(2021, 1, 1)], 2015, 2025);
    let select_date = Date::from_ymd(2021, 1, 1);
    assert!(!check_workday(&cfg, select_date));
}
