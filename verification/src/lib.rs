//! Business-day and business-hour calendar arithmetic.
//!
//! A `CalendarConfig` holds a holiday set, a set of weekly closing days and a
//! sorted list of intraday trading windows.  On top of it the crate answers
//! day-level queries (is this date a working day, which date is the n-th
//! working day after this one), classifies instants against the trading
//! windows, navigates the discontinuous business timeline and performs
//! duration arithmetic on it, and extracts boolean masks from sorted
//! timestamp series.

pub mod calendar;
pub mod config;
pub mod extract;
pub mod intraday;
pub mod laws;
pub mod moments;
pub mod workdays;

pub use calendar::{Date, Weekday};
pub use extract::{
    extract_intraday_bool_vec, extract_workdays_bool_vec, extract_workdays_intraday_bool_vec,
};
pub use intraday::{
    add_workday_intraday_datetime, check_workday_intraday, get_near_workday_intraday,
    get_next_border_workday_intraday, get_previous_border_workday_intraday,
    get_timedelta_workdays_intraday, sub_workday_intraday_datetime, BorderKind,
};
pub use config::{CalendarConfig, Error};
pub use moments::{Duration, Instant, TimeBorder};
pub use workdays::{
    check_workday, get_near_workday, get_next_workday, get_next_workdays_number,
    get_previous_workday, get_previous_workdays_number, get_workdays, get_workdays_number, Closed,
};
