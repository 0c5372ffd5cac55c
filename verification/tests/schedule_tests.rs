use schedule::calendar::{Date, LocalDateTime};
use schedule::parser::parse;

fn make_dt(year: i32, month: u32, day: u32, h: u32, m: u32) -> LocalDateTime {
    LocalDateTime { date: Date { year, month, day }, hour: h, minute: m, second: 0 }
}

#[test]
fn every_day_fires_today_if_future() {
    let s = parse("every day at 9am").unwrap();
    // 8am on a Monday → next fire is 9am today
    let from = make_dt(2025, 1, 6, 8, 0); // Mon 2025-01-06
    let next = s.next_fire(from);
    assert_eq!(next, make_dt(2025, 1, 6, 9, 0));
}

#[test]
fn every_day_fires_tomorrow_if_past() {
    let s = parse("every day at 9am").unwrap();
    let from = make_dt(2025, 1, 6, 10, 0); // already past 9am
    let next = s.next_fire(from);
    assert_eq!(next, make_dt(2025, 1, 7, 9, 0));
}

#[test]
fn every_weekday_correct_day() {
    // From Monday → next Friday
    let s = parse("every friday at 9am").unwrap();
    let from = make_dt(2025, 1, 6, 8, 0); // Mon
    let next = s.next_fire(from);
    assert_eq!(next, make_dt(2025, 1, 10, 9, 0)); // Fri
}

#[test]
fn every_weekday_same_day_past_rolls_to_next_week() {
    let s = parse("every monday at 9am").unwrap();
    let from = make_dt(2025, 1, 6, 10, 0); // Mon 10am, past schedule
    let next = s.next_fire(from);
    assert_eq!(next, make_dt(2025, 1, 13, 9, 0)); // next Monday
}

#[test]
fn next_is_one_shot() {
    let s = parse("next tuesday at 9am").unwrap();
    assert!(s.is_one_shot());
}

#[test]
fn not_one_shot() {
    let s = parse("every monday at 9am").unwrap();
    assert!(!s.is_one_shot());
}

#[test]
fn the_first_monday_of_month() {
    // From 2025-01-02 (Thu) — first Monday is 2025-01-06
    let s = parse("the first monday at 9am").unwrap();
    let from = make_dt(2025, 1, 2, 8, 0);
    let next = s.next_fire(from);
    assert_eq!(next, make_dt(2025, 1, 6, 9, 0));
}

#[test]
fn the_last_friday_of_month() {
    // From 2025-01-01 — last Friday of Jan 2025 = 2025-01-31
    let s = parse("the last friday at 5pm").unwrap();
    let from = make_dt(2025, 1, 1, 8, 0);
    let next = s.next_fire(from);
    assert_eq!(next, make_dt(2025, 1, 31, 17, 0));
}

#[test]
fn description_format() {
    let s = parse("every other friday at 2:30pm").unwrap();
    let desc = s.description();
    assert!(desc.starts_with("every other friday at"));
    assert!(desc.contains("2:30pm"));
}
