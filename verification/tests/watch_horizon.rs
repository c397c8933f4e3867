use std::cell::RefCell;

use nescio::watch::{horizon, transition, Transition, DAY, DEFAULT_HORIZON_DAYS};

#[test]
fn horizon_to_the_day() {
    let from = 1_000 * DAY;
    // Crossed from day 100 on.
    let h = horizon(|t| t >= from + 100 * DAY, from, DEFAULT_HORIZON_DAYS);
    assert_eq!(h, Some(from + 100 * DAY));
    // Crossed from day 3 on (inside the daily scan).
    assert_eq!(horizon(|t| t >= from + 3 * DAY, from, 30), Some(from + 3 * DAY));
    // Crossed from the first day.
    assert_eq!(horizon(|_| true, from, 30), Some(from + DAY));
}

#[test]
fn no_horizon_within_the_window() {
    assert_eq!(horizon(|_| false, 0, DEFAULT_HORIZON_DAYS), None);
    assert_eq!(horizon(|t| t >= 40 * DAY, 0, 30), None);
    assert_eq!(horizon(|_| true, 0, 0), None);
}

#[test]
fn scan_days_are_daily_weekly_then_monthly() {
    let seen = RefCell::new(Vec::new());
    let h = horizon(
        |t| {
            seen.borrow_mut().push(t / DAY);
            false
        },
        0,
        250,
    );
    assert_eq!(h, None);
    let days = seen.into_inner();
    let mut expected: Vec<i64> = (1..=14).collect();
    expected.extend((21..=182).step_by(7));
    expected.extend([212, 242]);
    assert_eq!(days, expected);
}

#[test]
fn scan_then_bisect_finds_a_late_crossing() {
    // A dip: crossed on day 2 only, then again from day 500 on. The scan
    // sees day 2 first.
    let h = horizon(|t| t == 2 * DAY || t >= 500 * DAY, 0, DEFAULT_HORIZON_DAYS);
    assert_eq!(h, Some(2 * DAY));
    // Crossed from day 190 on: between the scan days 182 and 212.
    let h = horizon(|t| t >= 190 * DAY, 0, DEFAULT_HORIZON_DAYS);
    assert_eq!(h, Some(190 * DAY));
}

#[test]
fn watch_transitions() {
    assert_eq!(transition(None, true), Some(Transition::Triggered));
    assert_eq!(transition(Some(false), true), Some(Transition::Triggered));
    assert_eq!(transition(Some(true), true), None);
    assert_eq!(transition(Some(true), false), Some(Transition::Recovered));
    assert_eq!(transition(Some(false), false), None);
    assert_eq!(transition(None, false), None);
    assert_eq!(Transition::Triggered.event(), "triggered");
    assert_eq!(Transition::Recovered.event(), "recovered");
}
