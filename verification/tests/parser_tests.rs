use schedule::calendar::Weekday;
use schedule::parser::{parse, parse_time, DaySpec, Frequency, Ordinal};

#[test]
fn test_every_monday_at_9am() {
    let s = parse("every monday at 9am").unwrap();
    assert!(matches!(s.frequency, Frequency::Every));
    assert!(matches!(s.day, DaySpec::Weekday(Weekday::Mon)));
    assert_eq!(s.time.hour, 9);
    assert_eq!(s.time.minute, 0);
}

#[test]
fn test_next_tuesday_at_230pm() {
    let s = parse("next tuesday at 2:30pm").unwrap();
    assert!(matches!(s.frequency, Frequency::Next));
    assert!(matches!(s.day, DaySpec::Weekday(Weekday::Tue)));
    assert_eq!(s.time.hour, 14);
    assert_eq!(s.time.minute, 30);
}

#[test]
fn test_every_other_friday_at_noon() {
    let s = parse("every other friday at noon").unwrap();
    assert!(matches!(s.frequency, Frequency::EveryOther { .. }));
    assert!(matches!(s.day, DaySpec::Weekday(Weekday::Fri)));
    assert_eq!(s.time.hour, 12);
}

#[test]
fn test_the_first_wednesday_at_8am() {
    let s = parse("the first wednesday at 8am").unwrap();
    assert!(matches!(s.frequency, Frequency::Ordinal(Ordinal::First)));
    assert!(matches!(s.day, DaySpec::Weekday(Weekday::Wed)));
    assert_eq!(s.time.hour, 8);
}

#[test]
fn test_the_last_thursday_at_5pm() {
    let s = parse("the last thursday at 5pm").unwrap();
    assert!(matches!(s.frequency, Frequency::Ordinal(Ordinal::Last)));
    assert!(matches!(s.day, DaySpec::Weekday(Weekday::Thu)));
    assert_eq!(s.time.hour, 17);
}

#[test]
fn test_every_day_at_8am() {
    let s = parse("every day at 8am").unwrap();
    assert!(matches!(s.frequency, Frequency::Every));
    assert!(matches!(s.day, DaySpec::EveryDay));
    assert_eq!(s.time.hour, 8);
}

#[test]
fn test_time_noon() {
    let t = parse_time("noon").unwrap();
    assert_eq!(t.hour, 12);
    assert_eq!(t.minute, 0);
}

#[test]
fn test_time_midnight() {
    let t = parse_time("midnight").unwrap();
    assert_eq!(t.hour, 0);
    assert_eq!(t.minute, 0);
}

#[test]
fn test_time_12am_is_midnight() {
    let t = parse_time("12am").unwrap();
    assert_eq!(t.hour, 0);
}

#[test]
fn test_time_12pm_is_noon() {
    let t = parse_time("12pm").unwrap();
    assert_eq!(t.hour, 12);
}

#[test]
fn test_time_24h() {
    let t = parse_time("14:30").unwrap();
    assert_eq!(t.hour, 14);
    assert_eq!(t.minute, 30);
}

#[test]
fn test_month_day_15th() {
    let s = parse("every 15th at 9am").unwrap();
    assert!(matches!(s.day, DaySpec::MonthDay(15)));
}

#[test]
fn test_short_weekday_abbrevs() {
    let s = parse("every fri at 6pm").unwrap();
    assert!(matches!(s.day, DaySpec::Weekday(Weekday::Fri)));
    assert_eq!(s.time.hour, 18);
}
