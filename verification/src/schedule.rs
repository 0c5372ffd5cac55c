//! When a schedule fires, and how it reads back in words.

use crate::calendar::{
    add_days, date_before, date_from_ymd, date_succ, day_number, days_in_month,
    days_until_weekday, is_before, iso_week_number, iso_week_of, last_date, lemma_date_after,
    lemma_day_number_order, lemma_iso_week_parity, lemma_next_date, lemma_room_before_last_year,
    lemma_weekday_from_index, lemma_weekday_index, lemma_weekday_shift, next_date,
    weekday_index_of, weekday_of, weekday_of_date, Date, LocalDateTime, Weekday, MAX_YEAR,
    MIN_YEAR,
};
use crate::parser::{DaySpec, Frequency, Ordinal, Schedule, TimeSpec};
use crate::text::{decimal, push_decimal, push_str, string_from_chars};
use vstd::prelude::*;

verus! {

/// The next step of the loop that waits for a fire, once the local time zone has been
/// asked about the fire's wall-clock time.
#[derive(Clone, Copy, Debug, PartialEq, Eq, Structural)]
pub enum FireStep {
    /// Wait for this moment, then run the job.
    Fire(LocalDateTime),
    /// Pass over this moment: look for the next fire strictly after it.
    PassOver(LocalDateTime),
    /// The zone does not hold the time exactly once, and the schedule cannot pass over it.
    Unclear,
}

// ── What a schedule means ───────────────────────────────────────────────────

/// `t` is exactly the wall-clock time `time`, at second zero.
pub open spec fn at_time(t: LocalDateTime, time: TimeSpec) -> bool {
    t.hour == time.hour && t.minute == time.minute && t.second == 0
}

/// The date is the `o`-th occurrence of its weekday within its month.
pub open spec fn ordinal_matches(o: Ordinal, d: Date) -> bool {
    match o {
        Ordinal::First => 1 <= d.day <= 7,
        Ordinal::Second => 8 <= d.day <= 14,
        Ordinal::Third => 15 <= d.day <= 21,
        Ordinal::Fourth => 22 <= d.day <= 28,
        Ordinal::Last => d.day + 7 > days_in_month(d.year as int, d.month as int),
    }
}

/// The date is one that the day specification names, on its own, for a schedule
/// evaluated at `from` ("tomorrow" names the day after `from`).
pub open spec fn day_spec_matches(day: DaySpec, from: LocalDateTime, d: Date) -> bool {
    match day {
        DaySpec::EveryDay => true,
        DaySpec::Weekday(w) => weekday_of_date(d) == w,
        DaySpec::MonthDay(n) => d.day == n,
        DaySpec::Tomorrow => next_date(from.date) == Some(d),
    }
}

impl Schedule {
    /// The schedule can be evaluated: its time of day exists and its day of month is
    /// one that some month has.
    pub open spec fn is_well_formed(self) -> bool {
        &&& self.time.hour < 24
        &&& self.time.minute < 60
        &&& (self.day matches DaySpec::MonthDay(n) ==> 1 <= n <= 31)
    }

    /// The schedule, evaluated at `from`, fires on date `d`.
    pub open spec fn fires_on(self, from: LocalDateTime, d: Date) -> bool {
        match (self.frequency, self.day) {
            (Frequency::EveryOther { even_weeks }, DaySpec::Weekday(w)) => {
                &&& weekday_of_date(d) == w
                &&& (iso_week_of(d) % 2 == 0) == even_weeks
            },
            (Frequency::Ordinal(o), DaySpec::Weekday(w)) => {
                &&& weekday_of_date(d) == w
                &&& ordinal_matches(o, d)
            },
            _ => day_spec_matches(self.day, from, d),
        }
    }

    /// The schedule, evaluated at `from`, fires at the date-time `t`.
    pub open spec fn fires_at(self, from: LocalDateTime, t: LocalDateTime) -> bool {
        at_time(t, self.time) && self.fires_on(from, t.date)
    }

    /// `next` is the earliest time after `from` at which the schedule fires.
    pub open spec fn is_next_fire(self, from: LocalDateTime, next: LocalDateTime) -> bool {
        &&& next.is_valid()
        &&& is_before(from, next)
        &&& self.fires_at(from, next)
        &&& forall|t: LocalDateTime|
            t.is_valid() && is_before(from, t) && is_before(t, next) ==> !#[trigger] self.fires_at(
                from,
                t,
            )
    }
}

// ── Helper lemmas ───────────────────────────────────────────────────────────

proof fn lemma_mod7_unique(a: int, b: int)
    requires
        a % 7 == b % 7,
        0 <= b - a < 7,
    ensures
        a == b,
{
    vstd::arithmetic::div_mod::lemma_fundamental_div_mod(a, 7);
    vstd::arithmetic::div_mod::lemma_fundamental_div_mod(b, 7);
}

/// Two dates share a weekday exactly when their day numbers agree modulo 7.
proof fn lemma_weekday_eq(a: Date, b: Date)
    ensures
        (weekday_of_date(a) == weekday_of_date(b)) <==> (weekday_index_of(a) == weekday_index_of(b)),
        0 <= weekday_index_of(a) < 7,
{
    lemma_weekday_shift(a, a, 0);
    lemma_weekday_shift(b, b, 0);
    lemma_weekday_from_index(weekday_index_of(a));
    lemma_weekday_from_index(weekday_index_of(b));
}

/// A weekday's index recovers the weekday.
proof fn lemma_weekday_of_index(d: Date, w: Weekday)
    ensures
        (weekday_of_date(d) == w) <==> (weekday_index_of(d) == w.index()),
{
    lemma_weekday_shift(d, d, 0);
    lemma_weekday_from_index(weekday_index_of(d));
    lemma_weekday_index(w);
}

/// A later date-time has a day number no smaller.
proof fn lemma_before_day_number(a: LocalDateTime, b: LocalDateTime)
    requires
        a.date.is_valid(),
        b.date.is_valid(),
        is_before(a, b),
    ensures
        day_number(a.date) <= day_number(b.date),
{
    lemma_day_number_order(a.date, b.date);
}

/// Two date-times at the same time of day and date are the same.
proof fn lemma_same_moment(a: LocalDateTime, b: LocalDateTime, time: TimeSpec)
    requires
        at_time(a, time),
        at_time(b, time),
        a.date.is_valid(),
        b.date.is_valid(),
        day_number(a.date) == day_number(b.date),
    ensures
        a == b,
{
    lemma_day_number_order(a.date, b.date);
}

// ── Finding the next fire ───────────────────────────────────────────────────

/// The date-time of `date` at `time`, second zero.
fn at_time_on(date: Date, time: TimeSpec) -> (r: LocalDateTime)
    ensures
        r.date == date,
        at_time(r, time),
{
    LocalDateTime { date, hour: time.hour as u32, minute: time.minute as u32, second: 0 }
}

/// The first time after `from` at `time` on any day.
fn next_daily(from: LocalDateTime, time: TimeSpec) -> (r: LocalDateTime)
    requires
        from.is_valid(),
        from.date.year < MAX_YEAR,
        time.hour < 24,
        time.minute < 60,
    ensures
        r.is_valid(),
        is_before(from, r),
        at_time(r, time),
        day_number(r.date) <= day_number(from.date) + 1,
        forall|t: LocalDateTime|
            t.is_valid() && is_before(from, t) && is_before(t, r) ==> !#[trigger] at_time(t, time),
{
    let today = at_time_on(from.date, time);
    if today.is_after(&from) {
        proof {
            assert forall|t: LocalDateTime|
                t.is_valid() && is_before(from, t) && is_before(t, today) implies !#[trigger] at_time(
                t,
                time,
            ) by {
                lemma_before_day_number(from, t);
                lemma_before_day_number(t, today);
                if at_time(t, time) {
                    lemma_same_moment(t, today, time);
                }
            }
        }
        today
    } else {
        proof {
            lemma_room_before_last_year(from.date);
        }
        let r = at_time_on(add_days(from.date, 1), time);
        proof {
            lemma_day_number_order(from.date, r.date);
            assert forall|t: LocalDateTime|
                t.is_valid() && is_before(from, t) && is_before(t, r) implies !#[trigger] at_time(
                t,
                time,
            ) by {
                lemma_before_day_number(from, t);
                lemma_before_day_number(t, r);
                if at_time(t, time) {
                    if day_number(t.date) == day_number(from.date) {
                        lemma_same_moment(t, today, time);
                    } else {
                        lemma_same_moment(t, r, time);
                    }
                }
            }
        }
        r
    }
}

/// The day after `from`'s date, at `time`.
fn next_tomorrow(from: LocalDateTime, time: TimeSpec) -> (r: LocalDateTime)
    requires
        from.is_valid(),
        from.date.year < MAX_YEAR,
        time.hour < 24,
        time.minute < 60,
    ensures
        r.is_valid(),
        is_before(from, r),
        at_time(r, time),
        next_date(from.date) == Some(r.date),
        forall|t: LocalDateTime|
            t.is_valid() && is_before(from, t) && is_before(t, r) && at_time(t, time)
                ==> next_date(from.date) != Some(#[trigger] t.date),
{
    proof {
        lemma_room_before_last_year(from.date);
        lemma_next_date(from.date);
    }
    let r = at_time_on(add_days(from.date, 1), time);
    proof {
        lemma_day_number_order(from.date, r.date);
        let n = next_date(from.date)->0;
        lemma_day_number_order(n, r.date);
    }
    r
}

/// The first time after `from` at `time` on weekday `w`.
pub(crate) fn next_weekly(from: LocalDateTime, w: Weekday, time: TimeSpec) -> (r: LocalDateTime)
    requires
        from.is_valid(),
        from.date.year < MAX_YEAR,
        time.hour < 24,
        time.minute < 60,
    ensures
        r.is_valid(),
        is_before(from, r),
        at_time(r, time),
        weekday_of_date(r.date) == w,
        day_number(r.date) <= day_number(from.date) + 13,
        forall|t: LocalDateTime|
            t.is_valid() && is_before(from, t) && is_before(t, r) && at_time(t, time)
                ==> weekday_of_date(#[trigger] t.date) != w,
{
    let days = days_until_weekday(weekday_of(from.date), w);
    proof {
        lemma_room_before_last_year(from.date);
    }
    let candidate = at_time_on(add_days(from.date, days), time);
    proof {
        lemma_weekday_shift(from.date, candidate.date, days as int);
        lemma_weekday_of_index(from.date, weekday_of_date(from.date));
        lemma_weekday_of_index(candidate.date, w);
        lemma_weekday_index(w);
    }
    if candidate.is_after(&from) {
        proof {
            assert forall|t: LocalDateTime|
                t.is_valid() && is_before(from, t) && is_before(t, candidate) && at_time(
                    t,
                    time,
                ) implies weekday_of_date(#[trigger] t.date) != w by {
                lemma_before_day_number(from, t);
                lemma_before_day_number(t, candidate);
                if weekday_of_date(t.date) == w {
                    lemma_weekday_eq(t.date, candidate.date);
                    lemma_mod7_unique(day_number(t.date) - 1, day_number(candidate.date) - 1);
                    lemma_same_moment(t, candidate, time);
                }
            }
        }
        candidate
    } else {
        let r = at_time_on(add_days(candidate.date, 7), time);
        proof {
            lemma_day_number_order(from.date, r.date);
            lemma_weekday_shift(candidate.date, r.date, 7);
            lemma_weekday_of_index(r.date, w);
            assert forall|t: LocalDateTime|
                t.is_valid() && is_before(from, t) && is_before(t, r) && at_time(
                    t,
                    time,
                ) implies weekday_of_date(#[trigger] t.date) != w by {
                lemma_before_day_number(from, t);
                lemma_before_day_number(t, r);
                if weekday_of_date(t.date) == w {
                    lemma_weekday_eq(t.date, candidate.date);
                    if day_number(t.date) <= day_number(candidate.date) {
                        lemma_mod7_unique(day_number(t.date) - 1, day_number(candidate.date) - 1);
                        lemma_same_moment(t, candidate, time);
                    } else {
                        lemma_weekday_eq(t.date, r.date);
                        lemma_mod7_unique(day_number(t.date) - 1, day_number(r.date) - 1);
                        lemma_same_moment(t, r, time);
                    }
                }
            }
        }
        r
    }
}

/// The month of `d` comes before month `m` of year `y`.
pub open spec fn month_before(d: Date, y: int, m: int) -> bool {
    d.year < y || (d.year == y && d.month < m)
}

/// The first time after `from` at `time` on day `d` of some month; months that lack
/// that day are passed over.
fn next_month_day(from: LocalDateTime, d: u8, time: TimeSpec) -> (r: LocalDateTime)
    requires
        from.is_valid(),
        from.date.year < MAX_YEAR,
        time.hour < 24,
        time.minute < 60,
        1 <= d <= 31,
    ensures
        r.is_valid(),
        is_before(from, r),
        at_time(r, time),
        r.date.day == d,
        forall|t: LocalDateTime|
            t.is_valid() && is_before(from, t) && is_before(t, r) && at_time(t, time)
                ==> #[trigger] t.date.day != d,
{
    let y0 = from.date.year;
    let m0 = from.date.month;
    let mut year = y0;
    let mut month = m0;
    let ghost mut steps: int = 0;
    loop
        invariant
            from.is_valid(),
            from.date.year < MAX_YEAR,
            time.hour < 24,
            time.minute < 60,
            1 <= d <= 31,
            y0 == from.date.year,
            m0 == from.date.month,
            (year == y0 && month == m0 + steps) || (year == y0 + 1 && month == 1 && steps == 13
                - m0),
            1 <= month <= 12,
            0 <= steps <= 12,
            forall|t: LocalDateTime|
                t.is_valid() && is_before(from, t) && at_time(t, time) && #[trigger] t.date.day
                    == d ==> !month_before(t.date, year as int, month as int),
        decreases 13 - steps,
    {
        match date_from_ymd(year, month, d as u32) {
            Some(date) => {
                let dt = at_time_on(date, time);
                if dt.is_after(&from) {
                    proof {
                        assert forall|t: LocalDateTime|
                            t.is_valid() && is_before(from, t) && is_before(t, dt) && at_time(
                                t,
                                time,
                            ) implies #[trigger] t.date.day != d by {
                            if t.date.day == d {
                                assert(!month_before(t.date, year as int, month as int));
                                assert(t.date == dt.date);
                            }
                        }
                    }
                    return dt;
                }
                proof {
                    assert(!(year == y0 + 1 && month == 1));
                }
            },
            None => {
                proof {
                    assert(!(year == y0 + 1 && month == 1));
                }
            },
        }
        let ghost old_year = year;
        let ghost old_month = month;
        proof {
            assert forall|t: LocalDateTime|
                t.is_valid() && is_before(from, t) && at_time(t, time) && #[trigger] t.date.day
                    == d implies !(t.date.year == old_year && t.date.month == old_month) by {
                if t.date.year == old_year && t.date.month == old_month {
                    assert(t.date == (Date { year: old_year, month: old_month, day: d as u32 }));
                }
            }
        }
        if month == 12 {
            month = 1;
            year = year + 1;
        } else {
            month = month + 1;
        }
        proof {
            steps = steps + 1;
        }
    }
}

/// The first day of the month after the month of `d`.
fn next_month_start(d: Date) -> (r: Date)
    requires
        d.is_valid(),
        !(d.year == MAX_YEAR && d.month == 12),
    ensures
        r.is_valid(),
        r.day == 1,
        d.month == 12 ==> r.year == d.year + 1 && r.month == 1,
        d.month < 12 ==> r.year == d.year && r.month == d.month + 1,
{
    let (year, month) = if d.month == 12 {
        (d.year + 1, 1)
    } else {
        (d.year, d.month + 1)
    };
    date_from_ymd(year, month, 1).unwrap()
}

proof fn lemma_occurrence_step(wd1: int, w: int, f: int, j: int, n: int)
    requires
        0 <= wd1 < 7,
        0 <= w < 7,
        f == (w - wd1 + 7) % 7 + 1,
        n >= 0,
        1 <= j <= f + 7 * n,
        n == 0 || f + 7 * (n - 1) < j,
    ensures
        ((wd1 + j - 1) % 7 == w) <==> j == f + 7 * n,
{
    vstd::arithmetic::div_mod::lemma_fundamental_div_mod(wd1 + j - 1, 7);
    vstd::arithmetic::div_mod::lemma_fundamental_div_mod(w - wd1 + 7, 7);
}

/// The `ord`-th `weekday` of the month that starts at `month_start`, at `time`.
fn nth_weekday_in_month(month_start: Date, weekday: Weekday, ord: Ordinal, time: TimeSpec) -> (r:
    Option<LocalDateTime>)
    requires
        month_start.is_valid(),
        month_start.day == 1,
        !(month_start.year == MAX_YEAR && month_start.month == 12),
    ensures
        r matches Some(dt) && {
            &&& at_time(dt, time)
            &&& dt.date.is_valid()
            &&& dt.date.year == month_start.year
            &&& dt.date.month == month_start.month
            &&& weekday_of_date(dt.date) == weekday
            &&& ordinal_matches(ord, dt.date)
            &&& forall|e: Date|
                e.is_valid() && e.year == month_start.year && e.month == month_start.month
                    && weekday_of_date(e) == weekday && #[trigger] ordinal_matches(ord, e) ==> e
                    == dt.date
        },
{
    let month = month_start.month;
    let mut occurrences: Vec<Date> = Vec::new();
    let mut d = month_start;
    let ghost y = month_start.year;
    let ghost dim = days_in_month(y as int, month as int);
    let ghost wd1 = weekday_index_of(month_start);
    let ghost f: int = (weekday.index() - wd1 + 7) % 7 + 1;
    let ghost mut j: int = 1;
    proof {
        lemma_weekday_shift(month_start, month_start, 0);
        lemma_weekday_index(weekday);
    }
    while d.month == month
        invariant
            month_start.is_valid(),
            month_start.day == 1,
            !(month_start.year == MAX_YEAR && month_start.month == 12),
            month == month_start.month,
            y == month_start.year,
            dim == days_in_month(y as int, month as int),
            wd1 == weekday_index_of(month_start),
            0 <= wd1 < 7,
            0 <= weekday.index() < 7,
            f == (weekday.index() - wd1 + 7) % 7 + 1,
            1 <= j <= dim + 1,
            j <= dim ==> d == (Date { year: y, month, day: j as u32 }),
            j == dim + 1 ==> d.month != month,
            forall|i: int|
                0 <= i < occurrences.len() ==> #[trigger] occurrences@[i] == (Date {
                    year: y,
                    month,
                    day: (f + 7 * i) as u32,
                }),
            j <= f + 7 * occurrences.len(),
            occurrences.len() == 0 || f + 7 * (occurrences.len() - 1) < j,
        decreases dim + 1 - j,
    {
        proof {
            if j == dim + 1 {
                assert(false);
            }
            lemma_weekday_shift(month_start, d, j - 1);
            lemma_weekday_of_index(d, weekday);
            lemma_occurrence_step(wd1, weekday.index(), f, j, occurrences.len() as int);
        }
        if weekday_of(d) == weekday {
            occurrences.push(d);
        }
        proof {
            lemma_next_date(d);
        }
        match date_succ(d) {
            Some(next) => {
                d = next;
            },
            None => {
                return None;
            },
        }
        proof {
            j = j + 1;
        }
    }
    let n = occurrences.len();
    assert(n >= 4);
    let found = match ord {
        Ordinal::First => occurrences.as_slice().get(0),
        Ordinal::Second => occurrences.as_slice().get(1),
        Ordinal::Third => occurrences.as_slice().get(2),
        Ordinal::Fourth => occurrences.as_slice().get(3),
        Ordinal::Last => occurrences.as_slice().last(),
    };
    let date = *found?;
    let ghost k: int = match ord {
        Ordinal::First => 0,
        Ordinal::Second => 1,
        Ordinal::Third => 2,
        Ordinal::Fourth => 3,
        Ordinal::Last => n - 1,
    };
    proof {
        assert(date == occurrences@[k]);
        lemma_weekday_shift(month_start, date, f + 7 * k - 1);
        lemma_weekday_of_index(date, weekday);
        lemma_occurrence_step(wd1, weekday.index(), f, f + 7 * k, k);
        assert forall|e: Date|
            e.is_valid() && e.year == month_start.year && e.month == month_start.month
                && weekday_of_date(e) == weekday && #[trigger] ordinal_matches(ord, e) implies e
            == date by {
            lemma_weekday_eq(e, date);
            if e.day <= date.day {
                lemma_mod7_unique(day_number(e) - 1, day_number(date) - 1);
            } else {
                lemma_mod7_unique(day_number(date) - 1, day_number(e) - 1);
            }
        }
    }
    Some(at_time_on(date, time))
}

/// The first time after `from` at `time` on the `ord`-th `w` of a month.
fn next_ordinal_weekday(from: LocalDateTime, w: Weekday, ord: Ordinal, time: TimeSpec) -> (r:
    LocalDateTime)
    requires
        from.is_valid(),
        from.date.year < MAX_YEAR,
        time.hour < 24,
        time.minute < 60,
    ensures
        r.is_valid(),
        is_before(from, r),
        at_time(r, time),
        weekday_of_date(r.date) == w,
        ordinal_matches(ord, r.date),
        forall|t: LocalDateTime|
            t.is_valid() && is_before(from, t) && is_before(t, r) && at_time(t, time)
                && weekday_of_date(t.date) == w ==> !#[trigger] ordinal_matches(ord, t.date),
{
    let mut month_start = date_from_ymd(from.date.year, from.date.month, 1).unwrap();
    let ghost mut it: int = 0;
    loop
        invariant
            from.is_valid(),
            from.date.year < MAX_YEAR,
            time.hour < 24,
            time.minute < 60,
            0 <= it <= 1,
            month_start.is_valid(),
            month_start.day == 1,
            it == 0 ==> month_start.year == from.date.year && month_start.month == from.date.month,
            it == 1 ==> month_before(from.date, month_start.year as int, month_start.month as int),
            month_start.year <= from.date.year + 1,
            month_start.year == from.date.year + 1 ==> month_start.month == 1,
            forall|t: LocalDateTime|
                t.is_valid() && is_before(from, t) && at_time(t, time) && weekday_of_date(t.date)
                    == w && #[trigger] ordinal_matches(ord, t.date) ==> !month_before(
                    t.date,
                    month_start.year as int,
                    month_start.month as int,
                ),
        decreases 1 - it,
    {
        match nth_weekday_in_month(month_start, w, ord, time) {
            Some(dt) => {
                if dt.is_after(&from) {
                    proof {
                        assert forall|t: LocalDateTime|
                            t.is_valid() && is_before(from, t) && is_before(t, dt) && at_time(
                                t,
                                time,
                            ) && weekday_of_date(t.date) == w implies !#[trigger] ordinal_matches(
                            ord,
                            t.date,
                        ) by {
                            if ordinal_matches(ord, t.date) {
                                assert(!month_before(
                                    t.date,
                                    month_start.year as int,
                                    month_start.month as int,
                                ));
                                assert(t.date == dt.date);
                            }
                        }
                    }
                    return dt;
                }
                proof {
                    assert(it == 0);
                    assert forall|t: LocalDateTime|
                        t.is_valid() && is_before(from, t) && at_time(t, time) && weekday_of_date(
                            t.date,
                        ) == w && #[trigger] ordinal_matches(ord, t.date) implies !(t.date.year
                        == month_start.year && t.date.month == month_start.month) by {
                        if t.date.year == month_start.year && t.date.month == month_start.month {
                            assert(t.date == dt.date);
                        }
                    }
                }
            },
            None => {
                proof {
                    assert(false);
                }
            },
        }
        month_start = next_month_start(month_start);
        proof {
            it = it + 1;
        }
    }
}

/// The first time after `from` at `time` on weekday `w` whose ISO week number is even
/// exactly when `even_weeks` holds.
fn next_every_other_weekday(from: LocalDateTime, w: Weekday, even_weeks: bool, time: TimeSpec) -> (r:
    LocalDateTime)
    requires
        from.is_valid(),
        from.date.year < MAX_YEAR,
        time.hour < 24,
        time.minute < 60,
    ensures
        r.is_valid(),
        is_before(from, r),
        at_time(r, time),
        weekday_of_date(r.date) == w,
        (iso_week_of(r.date) % 2 == 0) == even_weeks,
        forall|t: LocalDateTime|
            t.is_valid() && is_before(from, t) && is_before(t, r) && at_time(t, time)
                && weekday_of_date(t.date) == w ==> (iso_week_of(#[trigger] t.date) % 2 == 0)
                != even_weeks,
{
    let first = next_weekly(from, w, time);
    let mut candidate = first;
    let ghost mut it: int = 0;
    let ghost mut p1: Date = first.date;
    let ghost mut p2: Date = first.date;
    proof {
        lemma_room_before_last_year(from.date);
    }
    loop
        invariant
            from.is_valid(),
            from.date.year < MAX_YEAR,
            time.hour < 24,
            time.minute < 60,
            day_number(from.date) + 365 <= day_number(last_date()),
            day_number(first.date) <= day_number(from.date) + 13,
            0 <= it <= 2,
            candidate.is_valid(),
            is_before(from, candidate),
            at_time(candidate, time),
            weekday_of_date(candidate.date) == w,
            day_number(candidate.date) == day_number(first.date) + 7 * it,
            it >= 1 ==> p1.is_valid() && day_number(p1) + 7 == day_number(candidate.date) && (
            iso_week_of(p1) % 2 == 0) != even_weeks,
            it == 2 ==> p2.is_valid() && day_number(p2) + 7 == day_number(p1) && (iso_week_of(p2)
                % 2 == 0) != even_weeks,
            forall|t: LocalDateTime|
                t.is_valid() && is_before(from, t) && is_before(t, candidate) && at_time(t, time)
                    && weekday_of_date(t.date) == w ==> (iso_week_of(#[trigger] t.date) % 2 == 0)
                    != even_weeks,
        decreases 2 - it,
    {
        let is_even = iso_week_number(candidate.date) % 2 == 0;
        if is_even == even_weeks {
            return candidate;
        }
        proof {
            if it == 2 {
                lemma_iso_week_parity(p2, p1, candidate.date);
                assert(false);
            }
        }
        let next = at_time_on(add_days(candidate.date, 7), time);
        proof {
            lemma_day_number_order(candidate.date, next.date);
            lemma_weekday_shift(candidate.date, next.date, 7);
            lemma_weekday_of_index(candidate.date, w);
            lemma_weekday_of_index(next.date, w);
            assert forall|t: LocalDateTime|
                t.is_valid() && is_before(from, t) && is_before(t, next) && at_time(t, time)
                    && weekday_of_date(t.date) == w implies (iso_week_of(#[trigger] t.date) % 2
                == 0) != even_weeks by {
                if !is_before(t, candidate) {
                    lemma_before_day_number(t, next);
                    lemma_day_number_order(t.date, candidate.date);
                    lemma_weekday_eq(t.date, candidate.date);
                    if day_number(t.date) < day_number(next.date) {
                        lemma_mod7_unique(day_number(candidate.date) - 1, day_number(t.date) - 1);
                        lemma_same_moment(t, candidate, time);
                    } else {
                        lemma_same_moment(t, next, time);
                    }
                }
            }
            p2 = p1;
            p1 = candidate.date;
            it = it + 1;
        }
        candidate = next;
    }
}

impl Schedule {
    /// Return the next date-time at which this schedule should fire, calculated
    /// relative to `from`: the earliest moment strictly after `from` at the schedule's
    /// wall-clock time on a day that the schedule names.
    pub fn next_fire(&self, from: LocalDateTime) -> (next: LocalDateTime)
        requires
            self.is_well_formed(),
            from.is_valid(),
            from.date.year < MAX_YEAR,
        ensures
            self.is_next_fire(from, next),
    {
        match self.frequency {
            Frequency::Next | Frequency::Every => self.next_recurring(from),
            Frequency::EveryOther { even_weeks } => self.next_every_other(from, even_weeks),
            Frequency::Ordinal(ord) => self.next_ordinal(from, ord),
        }
    }

    /// Whether the schedule can be evaluated (see [`Schedule::is_well_formed`]): its
    /// time of day exists and its day of month is one that some month has.
    pub fn well_formed(&self) -> (r: bool)
        ensures
            r == self.is_well_formed(),
    {
        let day_ok = match self.day {
            DaySpec::MonthDay(n) => 1 <= n && n <= 31,
            _ => true,
        };
        self.time.hour < 24 && self.time.minute < 60 && day_ok
    }

    /// Whether a fire whose wall-clock time the local time zone does not hold once (a
    /// daylight-saving gap or overlap) is passed over for the next one: so it is for "the
    /// <ordinal> <weekday>", which looks for the next month's occurrence instead.
    pub fn passes_over_unclear_times(&self) -> (r: bool)
        ensures
            r == (self.frequency is Ordinal && self.day is Weekday),
    {
        matches!(self.frequency, Frequency::Ordinal(_)) && matches!(self.day, DaySpec::Weekday(_))
    }

    /// What the loop that waits for the fire `next` does, once the local time zone has
    /// said whether it holds that wall-clock time exactly once (`held_once`): wait for
    /// it; or, where the schedule passes over unclear times and the calendar leaves room
    /// for a later fire, look for the next fire after it; or give up.
    pub fn after_zone_lookup(&self, next: LocalDateTime, held_once: bool) -> (r: FireStep)
        ensures
            held_once ==> r == FireStep::Fire(next),
            !held_once && self.frequency is Ordinal && self.day is Weekday && next.date.year
                < MAX_YEAR ==> r == FireStep::PassOver(next),
            !held_once && !(self.frequency is Ordinal && self.day is Weekday && next.date.year
                < MAX_YEAR) ==> r == FireStep::Unclear,
    {
        if held_once {
            FireStep::Fire(next)
        } else if self.passes_over_unclear_times() && next.date.year < MAX_YEAR {
            FireStep::PassOver(next)
        } else {
            FireStep::Unclear
        }
    }

    /// Returns true if this schedule should only fire once (then exit).
    pub fn is_one_shot(&self) -> (r: bool)
        ensures
            r == (self.frequency == Frequency::Next),
    {
        matches!(self.frequency, Frequency::Next)
    }

    /// The next time on a day that the day specification names on its own.
    fn next_recurring(&self, from: LocalDateTime) -> (next: LocalDateTime)
        requires
            self.is_well_formed(),
            from.is_valid(),
            from.date.year < MAX_YEAR,
        ensures
            next.is_valid(),
            is_before(from, next),
            at_time(next, self.time),
            day_spec_matches(self.day, from, next.date),
            forall|t: LocalDateTime|
                t.is_valid() && is_before(from, t) && is_before(t, next) && at_time(t, self.time)
                    ==> !#[trigger] day_spec_matches(self.day, from, t.date),
    {
        match self.day {
            DaySpec::EveryDay => next_daily(from, self.time),
            DaySpec::Weekday(w) => next_weekly(from, w, self.time),
            DaySpec::MonthDay(d) => next_month_day(from, d, self.time),
            DaySpec::Tomorrow => next_tomorrow(from, self.time),
        }
    }

    fn next_every_other(&self, from: LocalDateTime, even_weeks: bool) -> (next: LocalDateTime)
        requires
            self.is_well_formed(),
            self.frequency == (Frequency::EveryOther { even_weeks }),
            from.is_valid(),
            from.date.year < MAX_YEAR,
        ensures
            self.is_next_fire(from, next),
    {
        if let DaySpec::Weekday(w) = self.day {
            next_every_other_weekday(from, w, even_weeks, self.time)
        } else {
            self.next_recurring(from)
        }
    }

    fn next_ordinal(&self, from: LocalDateTime, ord: Ordinal) -> (next: LocalDateTime)
        requires
            self.is_well_formed(),
            self.frequency == Frequency::Ordinal(ord),
            from.is_valid(),
            from.date.year < MAX_YEAR,
        ensures
            self.is_next_fire(from, next),
    {
        if let DaySpec::Weekday(w) = self.day {
            next_ordinal_weekday(from, w, ord, self.time)
        } else {
            self.next_recurring(from)
        }
    }
}

/// The earliest moment after `from` at which a schedule fires is unique: `next_fire`'s
/// result is the only time that meets its contract.
pub proof fn lemma_next_fire_unique(s: Schedule, from: LocalDateTime, a: LocalDateTime, b: LocalDateTime)
    requires
        s.is_next_fire(from, a),
        s.is_next_fire(from, b),
    ensures
        a == b,
{
    if is_before(a, b) {
        assert(!s.fires_at(from, a));
    } else if is_before(b, a) {
        assert(!s.fires_at(from, b));
    }
}

// ── Laws of the schedule ────────────────────────────────────────────────────

/// Whether a schedule fires at a moment does not depend on when it is evaluated, except
/// for "tomorrow".
proof fn lemma_fires_at_any_from(s: Schedule, x: LocalDateTime, y: LocalDateTime, t: LocalDateTime)
    requires
        !(s.day is Tomorrow),
    ensures
        s.fires_at(x, t) == s.fires_at(y, t),
{
}

/// Asking later never gives an earlier fire. For a schedule whose days do not depend on
/// the moment it is evaluated (every schedule but "tomorrow"): if `g` is `from` or later,
/// the next fire after `g` is no earlier than the next fire after `from`, and while `g`
/// is still before that fire, it is the same fire.
pub proof fn lemma_next_fire_monotone(
    s: Schedule,
    from: LocalDateTime,
    g: LocalDateTime,
    a: LocalDateTime,
    b: LocalDateTime,
)
    requires
        !(s.day is Tomorrow),
        g == from || is_before(from, g),
        s.is_next_fire(from, a),
        s.is_next_fire(g, b),
    ensures
        !is_before(b, a),
        is_before(g, a) ==> b == a,
{
    lemma_fires_at_any_from(s, from, g, a);
    lemma_fires_at_any_from(s, from, g, b);
    if is_before(b, a) {
        assert(is_before(from, b));
        assert(!s.fires_at(from, b));
    }
    if is_before(g, a) {
        if is_before(a, b) {
            assert(!s.fires_at(g, a));
        }
    }
}

/// An "every <weekday>" or "next <weekday>" schedule repeats weekly: the fire that
/// follows a fire comes seven days later, at the same time of day.
pub proof fn lemma_weekly_period(
    s: Schedule,
    w: Weekday,
    from: LocalDateTime,
    a: LocalDateTime,
    b: LocalDateTime,
)
    requires
        s.frequency == Frequency::Every || s.frequency == Frequency::Next,
        s.day == DaySpec::Weekday(w),
        s.is_next_fire(from, a),
        s.is_next_fire(a, b),
        a.date.year < MAX_YEAR,
    ensures
        day_number(b.date) == day_number(a.date) + 7,
        b.hour == a.hour && b.minute == a.minute && b.second == a.second,
{
    lemma_room_before_last_year(a.date);
    let d7 = lemma_date_after(a.date, 7);
    let c = LocalDateTime { date: d7, hour: a.hour, minute: a.minute, second: 0 };
    lemma_weekday_shift(a.date, d7, 7);
    lemma_weekday_eq(a.date, d7);
    lemma_day_number_order(a.date, d7);
    assert(s.fires_at(a, c));
    lemma_before_day_number(a, b);
    lemma_weekday_eq(a.date, b.date);
    if day_number(b.date) == day_number(a.date) {
        lemma_same_moment(a, b, s.time);
    } else if day_number(b.date) < day_number(a.date) + 7 {
        lemma_mod7_unique(day_number(a.date) - 1, day_number(b.date) - 1);
    } else if day_number(b.date) > day_number(a.date) + 7 {
        lemma_day_number_order(d7, b.date);
        assert(!s.fires_at(a, c));
    }
}

/// An "every day" schedule repeats daily: the fire that follows a fire comes the next
/// day, at the same time of day.
pub proof fn lemma_daily_period(s: Schedule, from: LocalDateTime, a: LocalDateTime, b: LocalDateTime)
    requires
        s.frequency == Frequency::Every || s.frequency == Frequency::Next,
        s.day == DaySpec::EveryDay,
        s.is_next_fire(from, a),
        s.is_next_fire(a, b),
        a.date.year < MAX_YEAR,
    ensures
        day_number(b.date) == day_number(a.date) + 1,
        b.hour == a.hour && b.minute == a.minute && b.second == a.second,
{
    lemma_room_before_last_year(a.date);
    let d1 = lemma_date_after(a.date, 1);
    let c = LocalDateTime { date: d1, hour: a.hour, minute: a.minute, second: 0 };
    lemma_day_number_order(a.date, d1);
    assert(s.fires_at(a, c));
    lemma_before_day_number(a, b);
    if day_number(b.date) == day_number(a.date) {
        lemma_same_moment(a, b, s.time);
    } else if day_number(b.date) > day_number(a.date) + 1 {
        lemma_day_number_order(d1, b.date);
        assert(!s.fires_at(a, c));
    }
}

/// Two dates of one month on the same weekday, both matching the same ordinal, are the
/// same date.
proof fn lemma_ordinal_unique(o: Ordinal, d: Date, e: Date)
    requires
        d.is_valid(),
        e.is_valid(),
        d.year == e.year,
        d.month == e.month,
        weekday_of_date(d) == weekday_of_date(e),
        ordinal_matches(o, d),
        ordinal_matches(o, e),
    ensures
        d == e,
{
    lemma_weekday_eq(d, e);
    if d.day <= e.day {
        lemma_mod7_unique(day_number(d) - 1, day_number(e) - 1);
    } else {
        lemma_mod7_unique(day_number(e) - 1, day_number(d) - 1);
    }
    lemma_day_number_order(d, e);
}

/// The month that follows the month of `d` is month `m` of year `y`.
pub open spec fn is_following_month(d: Date, y: int, m: int) -> bool {
    &&& d.month == 12 ==> y == d.year + 1 && m == 1
    &&& d.month < 12 ==> y == d.year && m == d.month + 1
}

/// "The <ordinal> <weekday>" fires once a month: the fire that follows a fire falls in
/// the following month, at the same time of day.
pub proof fn lemma_ordinal_monthly(
    s: Schedule,
    o: Ordinal,
    w: Weekday,
    from: LocalDateTime,
    a: LocalDateTime,
    b: LocalDateTime,
)
    requires
        s.frequency == Frequency::Ordinal(o),
        s.day == DaySpec::Weekday(w),
        s.is_next_fire(from, a),
        s.is_next_fire(a, b),
        a.date.year < MAX_YEAR,
    ensures
        is_following_month(a.date, b.date.year as int, b.date.month as int),
        b.hour == a.hour && b.minute == a.minute && b.second == a.second,
{
    let (y1, m1): (i32, u32) = if a.date.month == 12 {
        ((a.date.year + 1) as i32, 1)
    } else {
        (a.date.year, (a.date.month + 1) as u32)
    };
    let start = Date { year: y1, month: m1, day: 1 };
    let dim = days_in_month(y1 as int, m1 as int);
    lemma_weekday_shift(start, start, 0);
    lemma_weekday_index(w);
    let wd1 = weekday_index_of(start);
    let f: int = (w.index() - wd1 + 7) % 7 + 1;
    let day: int = match o {
        Ordinal::First => f,
        Ordinal::Second => f + 7,
        Ordinal::Third => f + 14,
        Ordinal::Fourth => f + 21,
        Ordinal::Last => if f + 28 <= dim {
            f + 28
        } else {
            f + 21
        },
    };
    let c = Date { year: y1, month: m1, day: day as u32 };
    assert(c.is_valid());
    lemma_weekday_shift(start, c, day - 1);
    lemma_occurrence_step(wd1, w.index(), f, day, (day - f) / 7);
    lemma_weekday_of_index(c, w);
    assert(ordinal_matches(o, c));
    let ct = LocalDateTime { date: c, hour: a.hour, minute: a.minute, second: 0 };
    assert(s.fires_at(a, ct));
    assert(is_before(a, ct));
    if is_before(ct, b) {
        assert(!s.fires_at(a, ct));
    }
    lemma_before_day_number(a, b);
    if b.date.year == a.date.year && b.date.month == a.date.month {
        lemma_ordinal_unique(o, a.date, b.date);
    }
    if b.date.year == y1 && b.date.month == m1 {
    } else {
        assert(date_before(a.date, b.date));
        assert(!date_before(c, b.date) || b.date == c);
    }
}

/// "Every <N>th" fires on the next month that has an N-th day: the fire that follows a
/// fire falls in a later month, every month in between is shorter than N days, and the
/// time of day stays the same.
pub proof fn lemma_month_day_next(
    s: Schedule,
    n: u8,
    from: LocalDateTime,
    a: LocalDateTime,
    b: LocalDateTime,
)
    requires
        s.frequency == Frequency::Every || s.frequency == Frequency::Next,
        s.day == DaySpec::MonthDay(n),
        s.is_next_fire(from, a),
        s.is_next_fire(a, b),
    ensures
        month_before(a.date, b.date.year as int, b.date.month as int),
        forall|y: i32, m: u32|
            1 <= m <= 12 && MIN_YEAR <= y <= MAX_YEAR && #[trigger] month_before(
                a.date,
                y as int,
                m as int,
            ) && (y < b.date.year || (y == b.date.year && m < b.date.month)) ==> days_in_month(
                y as int,
                m as int,
            ) < n,
        b.hour == a.hour && b.minute == a.minute && b.second == a.second,
{
    if b.date.year == a.date.year && b.date.month == a.date.month {
        assert(a.date == b.date);
    }
    assert forall|y: i32, m: u32|
        1 <= m <= 12 && MIN_YEAR <= y <= MAX_YEAR && #[trigger] month_before(
            a.date,
            y as int,
            m as int,
        ) && (y < b.date.year || (y == b.date.year && m < b.date.month)) implies days_in_month(
        y as int,
        m as int,
    ) < n by {
        if days_in_month(y as int, m as int) >= n {
            let t = LocalDateTime {
                date: Date { year: y, month: m, day: n as u32 },
                hour: a.hour,
                minute: a.minute,
                second: 0,
            };
            assert(s.fires_at(a, t));
            assert(is_before(a, t));
            assert(is_before(t, b));
        }
    }
}

// ── Describing a schedule ───────────────────────────────────────────────────

pub open spec fn ordinal_text(o: Ordinal) -> Seq<char> {
    match o {
        Ordinal::First => "first"@,
        Ordinal::Second => "second"@,
        Ordinal::Third => "third"@,
        Ordinal::Fourth => "fourth"@,
        Ordinal::Last => "last"@,
    }
}

pub open spec fn weekday_text(w: Weekday) -> Seq<char> {
    match w {
        Weekday::Mon => "monday"@,
        Weekday::Tue => "tuesday"@,
        Weekday::Wed => "wednesday"@,
        Weekday::Thu => "thursday"@,
        Weekday::Fri => "friday"@,
        Weekday::Sat => "saturday"@,
        Weekday::Sun => "sunday"@,
    }
}

/// The English ordinal suffix of a day of the month.
pub open spec fn suffix_text(d: u8) -> Seq<char> {
    if d == 1 || d == 21 || d == 31 {
        "st"@
    } else if d == 2 || d == 22 {
        "nd"@
    } else if d == 3 || d == 23 {
        "rd"@
    } else {
        "th"@
    }
}

/// A minute written with at least two digits.
/// The English ordinal suffix rule on the days of a month: "th" for the 11th, 12th and
/// 13th, otherwise "st", "nd" or "rd" after a last digit 1, 2 or 3, and "th" after any
/// other last digit.
pub proof fn lemma_suffix_rule(d: u8)
    requires
        d <= 31,
    ensures
        11 <= d % 100 <= 13 ==> suffix_text(d) == "th"@,
        !(11 <= d % 100 <= 13) && d % 10 == 1 ==> suffix_text(d) == "st"@,
        !(11 <= d % 100 <= 13) && d % 10 == 2 ==> suffix_text(d) == "nd"@,
        !(11 <= d % 100 <= 13) && d % 10 == 3 ==> suffix_text(d) == "rd"@,
        d % 10 == 0 || d % 10 > 3 ==> suffix_text(d) == "th"@,
{
}

pub open spec fn two_digits(m: u8) -> Seq<char> {
    if m < 10 {
        "0"@ + decimal(m as nat)
    } else {
        decimal(m as nat)
    }
}

/// A time of day in words: "midnight", "noon", "9am", "2:30pm".
pub open spec fn time_text(t: TimeSpec) -> Seq<char> {
    if t.hour == 0 && t.minute == 0 {
        "midnight"@
    } else if t.hour == 12 && t.minute == 0 {
        "noon"@
    } else {
        let h: int = if t.hour < 12 {
            t.hour as int
        } else {
            t.hour - 12
        };
        let suffix = if t.hour < 12 {
            "am"@
        } else {
            "pm"@
        };
        if t.minute == 0 {
            decimal(h as nat) + suffix
        } else {
            decimal(h as nat) + ":"@ + two_digits(t.minute) + suffix
        }
    }
}

pub open spec fn frequency_text(f: Frequency) -> Seq<char> {
    match f {
        Frequency::Next => "next"@,
        Frequency::Every => "every"@,
        Frequency::EveryOther { .. } => "every other"@,
        Frequency::Ordinal(o) => "the "@ + ordinal_text(o),
    }
}

pub open spec fn day_text(d: DaySpec) -> Seq<char> {
    match d {
        DaySpec::Weekday(w) => weekday_text(w),
        DaySpec::MonthDay(n) => decimal(n as nat) + suffix_text(n),
        DaySpec::EveryDay => "day"@,
        DaySpec::Tomorrow => "tomorrow"@,
    }
}

/// "<frequency> <day> at <time>", or "tomorrow at <time>".
pub open spec fn description_text(s: Schedule) -> Seq<char> {
    if s.day is Tomorrow {
        "tomorrow at "@ + time_text(s.time)
    } else {
        frequency_text(s.frequency) + " "@ + day_text(s.day) + " at "@ + time_text(s.time)
    }
}

impl Ordinal {
    /// The ordinal in words: "first", "second", "third", "fourth" or "last".
    pub fn name(&self) -> (r: &'static str)
        ensures
            r@ == ordinal_text(*self),
    {
        match self {
            Ordinal::First => "first",
            Ordinal::Second => "second",
            Ordinal::Third => "third",
            Ordinal::Fourth => "fourth",
            Ordinal::Last => "last",
        }
    }
}

/// The lower-case English name of a weekday.
pub fn weekday_name(w: Weekday) -> (r: &'static str)
    ensures
        r@ == weekday_text(w),
{
    match w {
        Weekday::Mon => "monday",
        Weekday::Tue => "tuesday",
        Weekday::Wed => "wednesday",
        Weekday::Thu => "thursday",
        Weekday::Fri => "friday",
        Weekday::Sat => "saturday",
        Weekday::Sun => "sunday",
    }
}

fn ordinal_suffix(d: u8) -> (r: &'static str)
    ensures
        r@ == suffix_text(d),
{
    match d {
        1 | 21 | 31 => "st",
        2 | 22 => "nd",
        3 | 23 => "rd",
        _ => "th",
    }
}

/// Appends a time of day in words to `out`.
fn push_time(out: &mut Vec<char>, t: &TimeSpec)
    ensures
        final(out)@ == old(out)@ + time_text(*t),
{
    if t.hour == 0 && t.minute == 0 {
        push_str(out, "midnight");
        return;
    }
    if t.hour == 12 && t.minute == 0 {
        push_str(out, "noon");
        return;
    }
    let (h, suffix) = if t.hour < 12 {
        (t.hour, "am")
    } else {
        (t.hour - 12, "pm")
    };
    push_decimal(out, h as u64);
    if t.minute != 0 {
        push_str(out, ":");
        if t.minute < 10 {
            push_str(out, "0");
        }
        push_decimal(out, t.minute as u64);
    }
    push_str(out, suffix);
    assert(out@ =~= old(out)@ + time_text(*t));
}

/// A time of day in words, such as "midnight", "noon", "9am" or "2:30pm".
pub fn format_time(t: &TimeSpec) -> (r: String)
    ensures
        r@ == time_text(*t),
{
    let mut out: Vec<char> = Vec::new();
    push_time(&mut out, t);
    assert(out@ =~= time_text(*t));
    string_from_chars(&out)
}

impl Schedule {
    /// Human-readable description of the schedule.
    pub fn description(&self) -> (r: String)
        ensures
            r@ == description_text(*self),
    {
        let mut out: Vec<char> = Vec::new();
        if let DaySpec::Tomorrow = self.day {
            push_str(&mut out, "tomorrow at ");
            push_time(&mut out, &self.time);
            assert(out@ =~= description_text(*self));
            return string_from_chars(&out);
        }
        match self.frequency {
            Frequency::Next => push_str(&mut out, "next"),
            Frequency::Every => push_str(&mut out, "every"),
            Frequency::EveryOther { .. } => push_str(&mut out, "every other"),
            Frequency::Ordinal(ord) => {
                push_str(&mut out, "the ");
                push_str(&mut out, ord.name());
            },
        }
        push_str(&mut out, " ");
        match self.day {
            DaySpec::Weekday(w) => push_str(&mut out, weekday_name(w)),
            DaySpec::MonthDay(d) => {
                push_decimal(&mut out, d as u64);
                push_str(&mut out, ordinal_suffix(d));
            },
            DaySpec::EveryDay => push_str(&mut out, "day"),
            DaySpec::Tomorrow => push_str(&mut out, "tomorrow"),
        }
        push_str(&mut out, " at ");
        push_time(&mut out, &self.time);
        assert(out@ =~= description_text(*self));
        string_from_chars(&out)
    }
}

} // verus!
