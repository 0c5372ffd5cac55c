use schedule::calendar::{Date, LocalDateTime, Weekday};
use schedule::calendar::MAX_YEAR;
use schedule::parser::{
    parse, parse_at, parse_time, parse_weekday, would_fault, DaySpec, Frequency, Ordinal,
    ParseError, Schedule, TimeSpec,
};
use schedule::schedule::{weekday_name, FireStep};

fn at(year: i32, month: u32, day: u32, h: u32, m: u32) -> LocalDateTime {
    LocalDateTime { date: Date { year, month, day }, hour: h, minute: m, second: 0 }
}

#[test]
fn parse_is_case_insensitive() {
    let s = parse("EVERY Monday AT 9AM").unwrap();
    assert_eq!(s.frequency, Frequency::Every);
    assert_eq!(s.day, DaySpec::Weekday(Weekday::Mon));
    assert_eq!(s.time, TimeSpec { hour: 9, minute: 0 });
}

#[test]
fn parse_extra_spaces_and_trailing_words() {
    let s = parse("  every\tday   at 7:05pm and more").unwrap();
    assert_eq!(s.day, DaySpec::EveryDay);
    assert_eq!(s.time, TimeSpec { hour: 19, minute: 5 });
}

#[test]
fn parse_all_ordinals() {
    let cases = [
        ("the first monday at 9am", Ordinal::First),
        ("the second monday at 9am", Ordinal::Second),
        ("the third monday at 9am", Ordinal::Third),
        ("the fourth monday at 9am", Ordinal::Fourth),
        ("the last monday at 9am", Ordinal::Last),
    ];
    for (text, ord) in cases {
        let s = parse(text).unwrap();
        assert_eq!(s.frequency, Frequency::Ordinal(ord));
    }
}

#[test]
fn parse_of_every_month() {
    let s = parse("the last Friday of every month at 5pm").unwrap();
    assert_eq!(s.frequency, Frequency::Ordinal(Ordinal::Last));
    assert_eq!(s.day, DaySpec::Weekday(Weekday::Fri));
    assert_eq!(s.time.hour, 17);
}

#[test]
fn parse_tomorrow() {
    let s = parse("tomorrow at 9pm").unwrap();
    assert_eq!(s.frequency, Frequency::Next);
    assert_eq!(s.day, DaySpec::Tomorrow);
    assert_eq!(s.time, TimeSpec { hour: 21, minute: 0 });
    assert!(s.is_one_shot());
}

#[test]
fn parse_month_days() {
    assert_eq!(parse("every 1st at 9am").unwrap().day, DaySpec::MonthDay(1));
    assert_eq!(parse("every 22nd at 9am").unwrap().day, DaySpec::MonthDay(22));
    assert_eq!(parse("every 3rd at 9am").unwrap().day, DaySpec::MonthDay(3));
    assert_eq!(parse("every 31st at 9am").unwrap().day, DaySpec::MonthDay(31));
    assert_eq!(parse("every 9 at 9am").unwrap().day, DaySpec::MonthDay(9));
    assert!(parse("every 0th at 9am").is_err());
    assert!(parse("every 32nd at 9am").is_err());
}

#[test]
fn parse_error_messages() {
    assert_eq!(
        parse("sometimes day at 9am").unwrap_err(),
        "Expected 'next', 'every', or 'the', got Some(\"sometimes\")"
    );
    assert_eq!(parse("").unwrap_err(), "Expected 'next', 'every', or 'the', got None");
    assert_eq!(
        parse("the fifth monday at 9am").unwrap_err(),
        "Expected ordinal after 'the', got Some(\"fifth\")"
    );
    assert_eq!(parse("every").unwrap_err(), "Expected day specification");
    assert_eq!(
        parse("every Blah at 9am").unwrap_err(),
        "Expected weekday, 'day', or day-of-month (e.g. '15th'), got 'blah'"
    );
    assert_eq!(parse("every monday 9am").unwrap_err(), "Expected 'at', got Some(\"9am\")");
    assert_eq!(parse("every monday").unwrap_err(), "Expected 'at', got None");
    assert_eq!(parse("every monday at").unwrap_err(), "Expected time after 'at'");
    assert_eq!(parse("every monday at 9:75").unwrap_err(), "Invalid minute: 75");
}

#[test]
fn parse_time_errors() {
    assert_eq!(parse_time("25:00").unwrap_err(), "Invalid hour: 25");
    assert_eq!(parse_time("13pm").unwrap_err(), "Invalid hour: 25");
    assert_eq!(parse_time("9:75").unwrap_err(), "Invalid minute: 75");
    assert_eq!(parse_time("x:30").unwrap_err(), "Invalid hour 'x'");
    assert_eq!(parse_time("9:xx").unwrap_err(), "Invalid minute 'xx'");
    assert_eq!(parse_time("Abc").unwrap_err(), "Invalid time 'abc'");
    assert_eq!(parse_time("pm").unwrap_err(), "Invalid time ''");
}

#[test]
fn parse_time_forms() {
    assert_eq!(parse_time("7").unwrap(), TimeSpec { hour: 7, minute: 0 });
    assert_eq!(parse_time("+7:05").unwrap(), TimeSpec { hour: 7, minute: 5 });
    assert_eq!(parse_time("12:30am").unwrap(), TimeSpec { hour: 0, minute: 30 });
    assert_eq!(parse_time("11:59PM").unwrap(), TimeSpec { hour: 23, minute: 59 });
    assert_eq!(parse_time("Noon").unwrap(), TimeSpec { hour: 12, minute: 0 });
    // an "am" hour is not range-checked
    assert_eq!(parse_time("99am").unwrap(), TimeSpec { hour: 99, minute: 0 });
}

#[test]
fn faults_are_detected() {
    assert!(would_fault("every day at 250pm"));
    assert!(would_fault("every other monday at 99am"));
    assert!(!would_fault("every day at 99am"));
    assert!(!would_fault("every other monday at 9am"));
    assert!(!would_fault("not a schedule"));
    assert!(!parse("every day at 99am").unwrap().well_formed());
}

#[test]
fn every_other_parity_pinned_at_now() {
    // Monday 2025-01-06 (ISO week 2): the first Friday after is 2025-01-10, week 2.
    let now = at(2025, 1, 6, 8, 0);
    let s = parse_at("every other friday at noon", now).unwrap();
    assert_eq!(s.frequency, Frequency::EveryOther { even_weeks: true });
    assert_eq!(s.next_fire(now), at(2025, 1, 10, 12, 0));
    assert_eq!(s.next_fire(at(2025, 1, 10, 13, 0)), at(2025, 1, 24, 12, 0));
    // Friday 2025-01-10 after noon: the first Friday after is 2025-01-17, week 3.
    let later = parse_at("every other friday at noon", at(2025, 1, 10, 13, 0)).unwrap();
    assert_eq!(later.frequency, Frequency::EveryOther { even_weeks: false });
}

#[test]
fn every_other_across_a_53_week_year() {
    // 2026 has an ISO week 53 (Mon 2026-12-28 .. Sun 2027-01-03), followed by week 1.
    let s = Schedule {
        frequency: Frequency::EveryOther { even_weeks: false },
        day: DaySpec::Weekday(Weekday::Fri),
        time: TimeSpec { hour: 9, minute: 0 },
    };
    assert_eq!(s.next_fire(at(2026, 12, 19, 0, 0)), at(2027, 1, 1, 9, 0));
    assert_eq!(s.next_fire(at(2027, 1, 1, 10, 0)), at(2027, 1, 8, 9, 0));
}

#[test]
fn description_reads_back() {
    let now = at(2025, 1, 6, 8, 0);
    for text in [
        "every monday at 2:30pm",
        "next friday at 10am",
        "every day at 8am",
        "tomorrow at 9pm",
        "the first monday at 9am",
        "the last friday at 5pm",
        "every 15th at 9am",
        "every 1st at midnight",
        "every 22nd at noon",
        "every 23rd at 0:05am",
        "the second tuesday at 8:15am",
    ] {
        let s = parse_at(text, now).unwrap();
        assert_eq!(s.description(), text);
        assert_eq!(parse_at(&s.description(), now).unwrap(), s);
    }
}

#[test]
fn every_time_of_day_reads_back() {
    for hour in 0..24u8 {
        for minute in 0..60u8 {
            let t = TimeSpec { hour, minute };
            let text = schedule::schedule::format_time(&t);
            assert_eq!(parse_time(&text).unwrap(), t, "{}", text);
        }
    }
}

#[test]
fn parsed_every_other_fires_first_on_the_weekly_occurrence() {
    let now = at(2025, 3, 5, 12, 0);
    let s = parse_at("every other monday at 9am", now).unwrap();
    let weekly = parse_at("every monday at 9am", now).unwrap();
    assert_eq!(s.next_fire(now), weekly.next_fire(now));
    assert_eq!(s.next_fire(now), at(2025, 3, 10, 9, 0));
}

#[test]
fn weekday_words_full_and_three_letter() {
    let names = [
        ("monday", Weekday::Mon),
        ("tuesday", Weekday::Tue),
        ("wednesday", Weekday::Wed),
        ("thursday", Weekday::Thu),
        ("friday", Weekday::Fri),
        ("saturday", Weekday::Sat),
        ("sunday", Weekday::Sun),
    ];
    for (name, w) in names {
        assert_eq!(parse(&format!("every {} at 9am", name)).unwrap().day, DaySpec::Weekday(w));
        assert_eq!(parse(&format!("every {} at 9am", &name[..3])).unwrap().day, DaySpec::Weekday(w));
    }
    assert_eq!(
        parse("every mond at 9am").unwrap_err(),
        "Expected weekday, 'day', or day-of-month (e.g. '15th'), got 'mond'"
    );
}

#[test]
fn unclear_times_passed_over_only_by_ordinals() {
    assert!(parse("the last sunday at 2:30am").unwrap().passes_over_unclear_times());
    assert!(!parse("every sunday at 2:30am").unwrap().passes_over_unclear_times());
    assert!(!parse("every 15th at 2:30am").unwrap().passes_over_unclear_times());
}

#[test]
fn zone_lookup_steps() {
    let t = at(2025, 3, 30, 2, 30);
    let ordinal = parse("the last sunday at 2:30am").unwrap();
    let weekly = parse("every sunday at 2:30am").unwrap();
    assert_eq!(ordinal.after_zone_lookup(t, true), FireStep::Fire(t));
    assert_eq!(weekly.after_zone_lookup(t, true), FireStep::Fire(t));
    assert_eq!(ordinal.after_zone_lookup(t, false), FireStep::PassOver(t));
    assert_eq!(weekly.after_zone_lookup(t, false), FireStep::Unclear);
    let last_year = at(MAX_YEAR, 12, 28, 2, 30);
    assert_eq!(ordinal.after_zone_lookup(last_year, false), FireStep::Unclear);
}

#[test]
fn parse_weekday_reads_names_and_short_forms() {
    let all = [
        Weekday::Mon,
        Weekday::Tue,
        Weekday::Wed,
        Weekday::Thu,
        Weekday::Fri,
        Weekday::Sat,
        Weekday::Sun,
    ];
    for w in all {
        assert_eq!(parse_weekday(weekday_name(w)), Some(w));
        assert_eq!(parse_weekday(&weekday_name(w)[..3]), Some(w));
    }
    assert_eq!(parse_weekday("Monday"), None);
    assert_eq!(parse_weekday("mond"), None);
    assert_eq!(parse_weekday(""), None);
}

#[test]
fn filler_only_after_an_ordinal() {
    let s = parse("the first monday of every month at 9am").unwrap();
    assert_eq!(s.frequency, Frequency::Ordinal(Ordinal::First));
    assert_eq!(
        parse("every day of every month at 8am").unwrap_err(),
        "Expected 'at', got Some(\"of\")"
    );
    assert_eq!(
        parse("every 15th of every month at 8am").unwrap_err(),
        "Expected 'at', got Some(\"of\")"
    );
    assert_eq!(
        parse("the last friday of every week at 5pm").unwrap_err(),
        "Expected 'at', got Some(\"of\")"
    );
}

#[test]
fn clock_in_the_last_year() {
    let late = at(MAX_YEAR, 6, 1, 8, 0);
    assert!(matches!(
        parse_at("every other monday at 9am", late),
        Err(ParseError::ClockOutOfRange)
    ));
    assert_eq!(
        ParseError::ClockOutOfRange.message(),
        "The current date is beyond the supported calendar range"
    );
    let s = parse_at("every monday at 9am", late).unwrap();
    assert_eq!(s.frequency, Frequency::Every);
    // "every other day" pins parity from the clock's own week, which the calendar has.
    let d = parse_at("every other day at 9am", late).unwrap();
    assert!(matches!(d.frequency, Frequency::EveryOther { .. }));
    assert!(parse_at("every other monday at 9am", at(MAX_YEAR - 1, 12, 31, 8, 0)).is_ok());
}
