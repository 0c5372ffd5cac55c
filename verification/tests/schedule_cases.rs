use schedule::calendar::{days_until_weekday, Date, LocalDateTime, Weekday};
use schedule::jobs::{job_source, job_warnings, JobSource, JobWarning};
use schedule::parser::{parse, DaySpec, Frequency, Ordinal, Schedule, TimeSpec};
use schedule::runner::humanize;
use schedule::schedule::format_time;

fn at(year: i32, month: u32, day: u32, h: u32, m: u32) -> LocalDateTime {
    LocalDateTime { date: Date { year, month, day }, hour: h, minute: m, second: 0 }
}

#[test]
fn next_fire_is_strictly_later() {
    let s = parse("every day at 9am").unwrap();
    assert_eq!(s.next_fire(at(2025, 1, 6, 9, 0)), at(2025, 1, 7, 9, 0));
    let mut from = at(2025, 1, 6, 8, 59);
    from.second = 59;
    assert_eq!(s.next_fire(from), at(2025, 1, 6, 9, 0));
}

#[test]
fn daily_crosses_month_and_year_ends() {
    let s = parse("every day at 9am").unwrap();
    assert_eq!(s.next_fire(at(2024, 2, 28, 10, 0)), at(2024, 2, 29, 9, 0));
    assert_eq!(s.next_fire(at(2023, 2, 28, 10, 0)), at(2023, 3, 1, 9, 0));
    assert_eq!(s.next_fire(at(2024, 12, 31, 10, 0)), at(2025, 1, 1, 9, 0));
}

#[test]
fn weekly_fires_seven_days_apart() {
    let s = parse("every wednesday at 6:45pm").unwrap();
    let a = s.next_fire(at(2024, 12, 30, 0, 0));
    assert_eq!(a, at(2025, 1, 1, 18, 45));
    assert_eq!(s.next_fire(a), at(2025, 1, 8, 18, 45));
}

#[test]
fn ordinal_rolls_to_next_month() {
    let s = parse("the first monday at 9am").unwrap();
    assert_eq!(s.next_fire(at(2025, 1, 6, 10, 0)), at(2025, 2, 3, 9, 0));
    let t = parse("the fourth sunday at 9am").unwrap();
    assert_eq!(t.next_fire(at(2025, 2, 1, 0, 0)), at(2025, 2, 23, 9, 0));
    let l = parse("the last monday at 9am").unwrap();
    assert_eq!(l.next_fire(at(2024, 12, 31, 0, 0)), at(2025, 1, 27, 9, 0));
}

#[test]
fn month_day_skips_short_months() {
    let s = parse("every 31st at 9am").unwrap();
    assert_eq!(s.next_fire(at(2025, 2, 1, 0, 0)), at(2025, 3, 31, 9, 0));
    assert_eq!(s.next_fire(at(2025, 3, 31, 9, 0)), at(2025, 5, 31, 9, 0));
    let f = parse("every 29th at 9am").unwrap();
    assert_eq!(f.next_fire(at(2025, 2, 1, 0, 0)), at(2025, 3, 29, 9, 0));
    assert_eq!(f.next_fire(at(2024, 2, 1, 0, 0)), at(2024, 2, 29, 9, 0));
    assert_eq!(f.next_fire(at(2024, 12, 30, 0, 0)), at(2025, 1, 29, 9, 0));
}

#[test]
fn tomorrow_fires_the_next_day() {
    let s = parse("tomorrow at 9pm").unwrap();
    assert_eq!(s.next_fire(at(2025, 1, 31, 23, 0)), at(2025, 2, 1, 21, 0));
    assert_eq!(s.description(), "tomorrow at 9pm");
}

#[test]
fn next_and_every_agree_on_the_next_fire() {
    let n = parse("next saturday at 7am").unwrap();
    let e = parse("every saturday at 7am").unwrap();
    let from = at(2025, 1, 6, 8, 0);
    assert_eq!(n.next_fire(from), e.next_fire(from));
    assert_eq!(n.next_fire(from), at(2025, 1, 11, 7, 0));
}

#[test]
fn describes_schedules() {
    let s = Schedule {
        frequency: Frequency::Ordinal(Ordinal::Third),
        day: DaySpec::MonthDay(11),
        time: TimeSpec { hour: 14, minute: 5 },
    };
    assert_eq!(s.description(), "the third 11th at 2:05pm");
    assert_eq!(Ordinal::Fourth.name(), "fourth");
}

#[test]
fn formats_times() {
    assert_eq!(format_time(&TimeSpec { hour: 0, minute: 0 }), "midnight");
    assert_eq!(format_time(&TimeSpec { hour: 12, minute: 0 }), "noon");
    assert_eq!(format_time(&TimeSpec { hour: 9, minute: 0 }), "9am");
    assert_eq!(format_time(&TimeSpec { hour: 14, minute: 30 }), "2:30pm");
    assert_eq!(format_time(&TimeSpec { hour: 14, minute: 5 }), "2:05pm");
    assert_eq!(format_time(&TimeSpec { hour: 0, minute: 30 }), "0:30am");
    assert_eq!(format_time(&TimeSpec { hour: 12, minute: 30 }), "0:30pm");
    assert_eq!(format_time(&TimeSpec { hour: 23, minute: 59 }), "11:59pm");
}

#[test]
fn humanizes_waits() {
    assert_eq!(humanize(0), "0s");
    assert_eq!(humanize(42), "42s");
    assert_eq!(humanize(60), "1m 0s");
    assert_eq!(humanize(303), "5m 3s");
    assert_eq!(humanize(7800), "2h 10m");
    assert_eq!(humanize(273600), "3d 4h");
}

#[test]
fn weekday_distance() {
    assert_eq!(days_until_weekday(Weekday::Mon, Weekday::Fri), 4);
    assert_eq!(days_until_weekday(Weekday::Fri, Weekday::Mon), 3);
    assert_eq!(days_until_weekday(Weekday::Sun, Weekday::Sun), 0);
    assert_eq!(Weekday::Sun.num_days_from_monday(), 6);
}

#[test]
fn job_warnings_cases() {
    let none: Vec<String> = Vec::new();
    assert_eq!(job_warnings(" ls", &none, true), vec![JobWarning::CommandWhitespace]);
    assert_eq!(job_warnings(" ls", &none, false), vec![JobWarning::CommandWhitespace]);
    assert_eq!(job_warnings("ls", &none, false), vec![JobWarning::CommandNotFound]);
    assert_eq!(job_warnings("ls", &none, true), Vec::<JobWarning>::new());
    let args = vec![
        "-a b".to_string(),
        " x".to_string(),
        "--opt=a b".to_string(),
        "-c {a b}".to_string(),
        "plain words".to_string(),
        "-q ".to_string(),
    ];
    assert_eq!(
        job_warnings("ls", &args, true),
        vec![
            JobWarning::ArgLooksCombined(1),
            JobWarning::ArgWhitespace(2),
            JobWarning::ArgWhitespace(6),
            JobWarning::ArgLooksCombined(6),
        ]
    );
}

#[test]
fn job_source_cases() {
    match job_source(Some("every day at 9am".to_string()), Some("ls".to_string()), vec!["-l".to_string()]) {
        JobSource::Inline { schedule, command, args } => {
            assert_eq!(schedule, "every day at 9am");
            assert_eq!(command, "ls");
            assert_eq!(args, vec!["-l".to_string()]);
        },
        _ => panic!("expected an inline job"),
    }
    assert!(matches!(job_source(Some("jobs.toml".to_string()), None, vec![]), JobSource::ConfigFile(p) if p == "jobs.toml"));
    assert!(matches!(job_source(None, None, vec![]), JobSource::DefaultConfig));
}

#[test]
fn asking_later_never_fires_earlier() {
    let s = parse("the last friday at 5pm").unwrap();
    let from = at(2025, 1, 6, 8, 0);
    let a = s.next_fire(from);
    assert_eq!(a, at(2025, 1, 31, 17, 0));
    // asked again before that fire: the same fire
    assert_eq!(s.next_fire(at(2025, 1, 20, 0, 0)), a);
    assert_eq!(s.next_fire(at(2025, 1, 31, 16, 59)), a);
    // asked at or after it: a later one
    assert_eq!(s.next_fire(a), at(2025, 2, 28, 17, 0));
}
