//! The proleptic Gregorian calendar on which schedules are evaluated: dates,
//! local wall-clock date-times, weekdays and ISO week numbers.
//!
//! Date facts that `chrono` computes (whether a date exists, its weekday, the
//! following date, its ISO week, the current local time) are obtained from
//! `chrono` through the `external_body` functions at the end of this file, whose
//! contracts state the calendar rules below and are trusted.
//!
//! A [`LocalDateTime`] is a reading of the local calendar and wall clock; relating it
//! to an instant of the machine's time zone is left to the caller.

use chrono::{Datelike, Timelike};
use vstd::prelude::*;

verus! {

/// The smallest year `chrono::NaiveDate` represents.
pub const MIN_YEAR: i32 = -262143;

/// The largest year `chrono::NaiveDate` represents.
pub const MAX_YEAR: i32 = 262142;

/// A day of the week, Monday first.
#[derive(Clone, Copy, Debug, PartialEq, Eq, Structural)]
pub enum Weekday {
    Mon,
    Tue,
    Wed,
    Thu,
    Fri,
    Sat,
    Sun,
}

impl Weekday {
    /// Days since Monday: 0 for Monday up to 6 for Sunday.
    pub open spec fn index(self) -> int {
        match self {
            Weekday::Mon => 0,
            Weekday::Tue => 1,
            Weekday::Wed => 2,
            Weekday::Thu => 3,
            Weekday::Fri => 4,
            Weekday::Sat => 5,
            Weekday::Sun => 6,
        }
    }

    /// The weekday `i` days after Monday, for `0 <= i < 7`.
    pub open spec fn from_index(i: int) -> Weekday {
        if i == 0 {
            Weekday::Mon
        } else if i == 1 {
            Weekday::Tue
        } else if i == 2 {
            Weekday::Wed
        } else if i == 3 {
            Weekday::Thu
        } else if i == 4 {
            Weekday::Fri
        } else if i == 5 {
            Weekday::Sat
        } else {
            Weekday::Sun
        }
    }

    /// Days since Monday (0 to 6).
    pub fn num_days_from_monday(&self) -> (r: u32)
        ensures
            r == self.index(),
    {
        match self {
            Weekday::Mon => 0,
            Weekday::Tue => 1,
            Weekday::Wed => 2,
            Weekday::Thu => 3,
            Weekday::Fri => 4,
            Weekday::Sat => 5,
            Weekday::Sun => 6,
        }
    }
}

pub proof fn lemma_weekday_index(w: Weekday)
    ensures
        0 <= w.index() < 7,
        Weekday::from_index(w.index()) == w,
{
}

pub proof fn lemma_weekday_from_index(i: int)
    requires
        0 <= i < 7,
    ensures
        Weekday::from_index(i).index() == i,
{
}

/// A calendar date. Only dates for which [`Date::is_valid`] holds denote a day.
#[derive(Clone, Copy, Debug, PartialEq, Eq, Structural)]
pub struct Date {
    pub year: i32,
    pub month: u32,
    pub day: u32,
}

/// A date and a wall-clock time of day in the local calendar.
#[derive(Clone, Copy, Debug, PartialEq, Eq, Structural)]
pub struct LocalDateTime {
    pub date: Date,
    pub hour: u32,
    pub minute: u32,
    pub second: u32,
}

pub open spec fn is_leap_year(y: int) -> bool {
    y % 4 == 0 && (y % 100 != 0 || y % 400 == 0)
}

pub open spec fn days_in_year(y: int) -> int {
    if is_leap_year(y) {
        366
    } else {
        365
    }
}

pub open spec fn days_in_month(y: int, m: int) -> int {
    if m == 2 {
        if is_leap_year(y) {
            29
        } else {
            28
        }
    } else if m == 4 || m == 6 || m == 9 || m == 11 {
        30
    } else {
        31
    }
}

impl Date {
    /// The date exists in the calendar and lies in the range that `chrono` represents.
    pub open spec fn is_valid(self) -> bool {
        &&& MIN_YEAR <= self.year <= MAX_YEAR
        &&& 1 <= self.month <= 12
        &&& 1 <= self.day <= days_in_month(self.year as int, self.month as int)
    }
}

impl LocalDateTime {
    pub open spec fn is_valid(self) -> bool {
        &&& self.date.is_valid()
        &&& self.hour < 24
        &&& self.minute < 60
        &&& self.second < 60
    }
}

/// Days from January 1 of year 1 up to, not including, January 1 of year `y`.
#[verifier::opaque]
pub open spec fn days_before_year(y: int) -> int {
    let p = y - 1;
    365 * p + p / 4 - p / 100 + p / 400
}

/// Days of year `y` before the first of month `m`.
pub open spec fn days_before_month(y: int, m: int) -> int
    decreases m,
{
    if m <= 1 {
        0
    } else {
        days_before_month(y, m - 1) + days_in_month(y, m - 1)
    }
}

/// The day number of a date: January 1 of year 1 is day 1 (a Monday).
pub open spec fn day_number(d: Date) -> int {
    days_before_year(d.year as int) + days_before_month(d.year as int, d.month as int) + d.day
}

/// The day number of January 1 of year `y`.
pub open spec fn jan1(y: int) -> int {
    days_before_year(y) + 1
}

/// The day of the week of a date, counted from Monday.
pub open spec fn weekday_index_of(d: Date) -> int {
    (day_number(d) - 1) % 7
}

pub open spec fn weekday_of_date(d: Date) -> Weekday {
    Weekday::from_index(weekday_index_of(d))
}

/// The day number of the Thursday of the Monday-to-Sunday week that holds `d`.
pub open spec fn week_thursday(d: Date) -> int {
    day_number(d) - weekday_index_of(d) + 3
}

/// The ISO 8601 week-numbering year of `d`: the year that holds its week's Thursday.
pub open spec fn iso_year_of(d: Date) -> int {
    let t = week_thursday(d);
    if t < jan1(d.year as int) {
        d.year - 1
    } else if t >= jan1(d.year + 1) {
        d.year + 1
    } else {
        d.year as int
    }
}

/// The ISO 8601 week number of `d`: week 1 is the week that holds the year's first Thursday.
pub open spec fn iso_week_of(d: Date) -> int {
    (week_thursday(d) - jan1(iso_year_of(d))) / 7 + 1
}

/// The date after `d`, if the calendar range holds one.
pub open spec fn next_date(d: Date) -> Option<Date> {
    if (d.day as int) < days_in_month(d.year as int, d.month as int) {
        Some(Date { year: d.year, month: d.month, day: (d.day + 1) as u32 })
    } else if d.month < 12 {
        Some(Date { year: d.year, month: (d.month + 1) as u32, day: 1 })
    } else if d.year < MAX_YEAR {
        Some(Date { year: (d.year + 1) as i32, month: 1, day: 1 })
    } else {
        None
    }
}

/// Calendar order of dates.
pub open spec fn date_before(a: Date, b: Date) -> bool {
    ||| a.year < b.year
    ||| (a.year == b.year && a.month < b.month)
    ||| (a.year == b.year && a.month == b.month && a.day < b.day)
}

/// `a` is strictly earlier than `b`.
pub open spec fn is_before(a: LocalDateTime, b: LocalDateTime) -> bool {
    ||| date_before(a.date, b.date)
    ||| (a.date == b.date && a.hour < b.hour)
    ||| (a.date == b.date && a.hour == b.hour && a.minute < b.minute)
    ||| (a.date == b.date && a.hour == b.hour && a.minute == b.minute && a.second < b.second)
}

// ── Lemmas on the day count ─────────────────────────────────────────────────

pub proof fn lemma_days_before_year_step(y: int)
    ensures
        days_before_year(y + 1) == days_before_year(y) + days_in_year(y),
{
    reveal(days_before_year);
    let p = y - 1;
    assert(y / 4 - p / 4 == if y % 4 == 0 { 1int } else { 0int }) by {
        vstd::arithmetic::div_mod::lemma_fundamental_div_mod(y, 4);
        vstd::arithmetic::div_mod::lemma_fundamental_div_mod(p, 4);
    }
    assert(y / 100 - p / 100 == if y % 100 == 0 { 1int } else { 0int }) by {
        vstd::arithmetic::div_mod::lemma_fundamental_div_mod(y, 100);
        vstd::arithmetic::div_mod::lemma_fundamental_div_mod(p, 100);
    }
    assert(y / 400 - p / 400 == if y % 400 == 0 { 1int } else { 0int }) by {
        vstd::arithmetic::div_mod::lemma_fundamental_div_mod(y, 400);
        vstd::arithmetic::div_mod::lemma_fundamental_div_mod(p, 400);
    }
    assert(y % 400 == 0 ==> y % 100 == 0 && y % 4 == 0) by {
        vstd::arithmetic::div_mod::lemma_fundamental_div_mod(y, 400);
        vstd::arithmetic::div_mod::lemma_fundamental_div_mod(y, 100);
        vstd::arithmetic::div_mod::lemma_fundamental_div_mod(y, 4);
    }
    assert(y % 100 == 0 ==> y % 4 == 0) by {
        vstd::arithmetic::div_mod::lemma_fundamental_div_mod(y, 100);
        vstd::arithmetic::div_mod::lemma_fundamental_div_mod(y, 4);
    }
}

pub proof fn lemma_days_before_month_step(y: int, m: int)
    requires
        1 <= m,
    ensures
        days_before_month(y, m + 1) == days_before_month(y, m) + days_in_month(y, m),
{
}

pub proof fn lemma_days_before_month_monotone(y: int, m1: int, m2: int)
    requires
        1 <= m1 <= m2,
    ensures
        days_before_month(y, m1) <= days_before_month(y, m2),
    decreases m2 - m1,
{
    if m1 < m2 {
        lemma_days_before_month_monotone(y, m1, m2 - 1);
    }
}

pub proof fn lemma_days_before_month_year(y: int)
    ensures
        days_before_month(y, 13) == days_in_year(y),
{
    reveal_with_fuel(days_before_month, 13);
}

/// Years are laid out one after another: January 1 of a later year comes no earlier
/// than the end of an earlier one.
pub proof fn lemma_jan1_monotone(a: int, b: int)
    requires
        a < b,
    ensures
        jan1(a + 1) <= jan1(b),
        jan1(a) + 365 <= jan1(b),
    decreases b - a,
{
    lemma_days_before_year_step(a);
    if a + 1 < b {
        lemma_jan1_monotone(a + 1, b);
    }
}

/// A valid date lies within its year.
pub proof fn lemma_day_in_year(d: Date)
    requires
        d.is_valid(),
    ensures
        jan1(d.year as int) <= day_number(d) < jan1(d.year + 1),
{
    let y = d.year as int;
    let m = d.month as int;
    lemma_days_before_month_step(y, m);
    lemma_days_before_month_monotone(y, 1, m);
    lemma_days_before_month_monotone(y, m + 1, 13);
    lemma_days_before_month_year(y);
    lemma_days_before_year_step(y);
}

/// Calendar order agrees with the order of day numbers.
pub proof fn lemma_date_before_day_number(a: Date, b: Date)
    requires
        a.is_valid(),
        b.is_valid(),
        date_before(a, b),
    ensures
        day_number(a) < day_number(b),
{
    if a.year < b.year {
        lemma_day_in_year(a);
        lemma_day_in_year(b);
        lemma_jan1_monotone(a.year as int, b.year as int);
    } else if a.month < b.month {
        let y = a.year as int;
        lemma_days_before_month_step(y, a.month as int);
        lemma_days_before_month_monotone(y, a.month + 1, b.month as int);
    }
}

/// Two valid dates with the same day number are the same date; a smaller day number
/// means an earlier date.
pub proof fn lemma_day_number_order(a: Date, b: Date)
    requires
        a.is_valid(),
        b.is_valid(),
    ensures
        day_number(a) == day_number(b) ==> a == b,
        day_number(a) < day_number(b) ==> date_before(a, b),
        date_before(a, b) <==> day_number(a) < day_number(b),
{
    if date_before(a, b) {
        lemma_date_before_day_number(a, b);
    } else if date_before(b, a) {
        lemma_date_before_day_number(b, a);
    }
}

/// The day after a valid date, when there is one, is valid and has the next day number.
pub proof fn lemma_next_date(d: Date)
    requires
        d.is_valid(),
    ensures
        next_date(d) is None <==> (d.year == MAX_YEAR && d.month == 12 && d.day == 31),
        next_date(d) matches Some(e) ==> e.is_valid() && day_number(e) == day_number(d) + 1,
{
    let y = d.year as int;
    let m = d.month as int;
    if (d.day as int) < days_in_month(y, m) {
    } else if d.month < 12 {
        lemma_days_before_month_step(y, m);
    } else {
        lemma_days_before_month_step(y, 12);
        lemma_days_before_month_year(y);
        lemma_days_before_year_step(y);
        reveal_with_fuel(days_before_month, 2);
    }
}

/// The weekday advances by one with each day.
pub proof fn lemma_weekday_shift(a: Date, b: Date, k: int)
    requires
        day_number(b) == day_number(a) + k,
    ensures
        weekday_index_of(b) == (weekday_index_of(a) + k) % 7,
        0 <= weekday_index_of(a) < 7,
{
    vstd::arithmetic::div_mod::lemma_add_mod_noop(day_number(a) - 1, k, 7);
}

/// The Thursday of a date's week lies in its ISO year.
pub proof fn lemma_iso_year_bracket(d: Date)
    requires
        d.is_valid(),
    ensures
        jan1(iso_year_of(d)) <= week_thursday(d) < jan1(iso_year_of(d) + 1),
{
    let y = d.year as int;
    lemma_day_in_year(d);
    lemma_weekday_shift(d, d, 0);
    lemma_days_before_year_step(y - 1);
    lemma_days_before_year_step(y);
    lemma_days_before_year_step(y + 1);
}

/// Only one year holds a given day.
pub proof fn lemma_year_unique(t: int, a: int, b: int)
    requires
        jan1(a) <= t < jan1(a + 1),
        jan1(b) <= t < jan1(b + 1),
    ensures
        a == b,
{
    if a < b {
        lemma_jan1_monotone(a, b);
    } else if b < a {
        lemma_jan1_monotone(b, a);
    }
}

/// Of three dates a week apart, the ISO week numbers of the first two or of the last
/// two differ in parity.
pub proof fn lemma_iso_week_parity(d: Date, e: Date, f: Date)
    requires
        d.is_valid(),
        e.is_valid(),
        f.is_valid(),
        day_number(e) == day_number(d) + 7,
        day_number(f) == day_number(e) + 7,
    ensures
        iso_week_of(d) % 2 != iso_week_of(e) % 2 || iso_week_of(e) % 2 != iso_week_of(f) % 2,
{
    lemma_weekday_shift(d, e, 7);
    lemma_weekday_shift(e, f, 7);
    let td = week_thursday(d);
    let te = week_thursday(e);
    let tf = week_thursday(f);
    assert(te == td + 7 && tf == te + 7);
    lemma_iso_year_bracket(d);
    lemma_iso_year_bracket(e);
    lemma_iso_year_bracket(f);
    let yd = iso_year_of(d);
    let ye = iso_year_of(e);
    let yf = iso_year_of(f);
    lemma_days_before_year_step(yd);
    lemma_days_before_year_step(ye);
    if ye == yd {
        assert(iso_week_of(e) == iso_week_of(d) + 1) by {
            vstd::arithmetic::div_mod::lemma_div_plus_one(td - jan1(yd), 7);
        }
    } else {
        if ye < yd {
            lemma_jan1_monotone(ye, yd);
        } else if ye > yd + 1 {
            lemma_jan1_monotone(yd + 1, ye);
        }
        assert(ye == yd + 1);
        assert(0 <= te - jan1(ye) < 7);
        assert(iso_week_of(e) == 1);
        lemma_year_unique(tf, yf, ye);
        assert(7 <= tf - jan1(ye) < 14);
        assert(iso_week_of(f) == 2);
    }
}

/// The last date that `chrono` represents.
pub open spec fn last_date() -> Date {
    Date { year: MAX_YEAR, month: 12, day: 31 }
}

/// A date before the last representable year leaves at least a year of room.
pub proof fn lemma_room_before_last_year(d: Date)
    requires
        d.is_valid(),
        d.year < MAX_YEAR,
    ensures
        last_date().is_valid(),
        day_number(d) + 365 <= day_number(last_date()),
{
    lemma_day_in_year(d);
    lemma_jan1_monotone(d.year as int, MAX_YEAR as int);
    lemma_day_in_year(last_date());
    assert(!is_leap_year(MAX_YEAR as int));
    reveal_with_fuel(days_before_month, 13);
}

/// Every day number from a valid date up to the last representable date belongs to a
/// valid date.
pub proof fn lemma_date_after(d: Date, k: nat) -> (e: Date)
    requires
        d.is_valid(),
        day_number(d) + k <= day_number(last_date()),
    ensures
        e.is_valid(),
        day_number(e) == day_number(d) + k,
    decreases k,
{
    if k == 0 {
        d
    } else {
        let p = lemma_date_after(d, (k - 1) as nat);
        lemma_next_date(p);
        if p == last_date() {
            assert(false);
        }
        next_date(p)->0
    }
}

// ── Date arithmetic ─────────────────────────────────────────────────────────

/// The date `n` days after `d`.
pub fn add_days(d: Date, n: u32) -> (r: Date)
    requires
        d.is_valid(),
        day_number(d) + n <= day_number(last_date()),
    ensures
        r.is_valid(),
        day_number(r) == day_number(d) + n,
{
    let mut cur = d;
    let mut i: u32 = 0;
    while i < n
        invariant
            i <= n,
            cur.is_valid(),
            day_number(cur) == day_number(d) + i,
            day_number(d) + n <= day_number(last_date()),
        decreases n - i,
    {
        proof {
            lemma_next_date(cur);
            if cur == last_date() {
                assert(false);
            }
        }
        match date_succ(cur) {
            Some(next) => {
                cur = next;
            },
            None => {
                proof {
                    assert(false);
                }
            },
        }
        i = i + 1;
    }
    cur
}

/// Days from weekday `from` forward to weekday `to` (0 when they are the same).
pub fn days_until_weekday(from: Weekday, to: Weekday) -> (r: u32)
    ensures
        r == (to.index() - from.index() + 7) % 7,
        r < 7,
{
    (to.num_days_from_monday() + 7 - from.num_days_from_monday()) % 7
}

impl LocalDateTime {
    /// `self` is strictly later than `other`.
    pub fn is_after(&self, other: &LocalDateTime) -> (r: bool)
        ensures
            r == is_before(*other, *self),
    {
        let a = other;
        let b = self;
        if a.date.year != b.date.year {
            return a.date.year < b.date.year;
        }
        if a.date.month != b.date.month {
            return a.date.month < b.date.month;
        }
        if a.date.day != b.date.day {
            return a.date.day < b.date.day;
        }
        if a.hour != b.hour {
            return a.hour < b.hour;
        }
        if a.minute != b.minute {
            return a.minute < b.minute;
        }
        a.second < b.second
    }
}

// ── Trusted items: calendar facts computed by chrono ────────────────────────

/// Asks `chrono::NaiveDate::from_ymd_opt` whether `year-month-day` exists. Its
/// documentation says that it gives `None` exactly for a day or month that does not exist
/// and for a year outside its range, and otherwise the date itself; the contract states
/// this with the rule of [`Date::is_valid`].
#[verifier::external_body]
pub(crate) fn date_from_ymd(year: i32, month: u32, day: u32) -> (r: Option<Date>)
    ensures
        r == (if (Date { year, month, day }).is_valid() {
            Some(Date { year, month, day })
        } else {
            None
        }),
{
    match chrono::NaiveDate::from_ymd_opt(year, month, day) {
        Some(nd) => Some(Date { year: nd.year(), month: nd.month(), day: nd.day() }),
        None => None,
    }
}

/// The weekday of a valid date, from `chrono::Datelike::weekday` on a `NaiveDate`. The
/// contract claims that chrono counts weekdays on the proleptic Gregorian calendar in
/// which January 1 of year 1 is a Monday.
#[verifier::external_body]
pub(crate) fn weekday_of(d: Date) -> (w: Weekday)
    requires
        d.is_valid(),
    ensures
        w == weekday_of_date(d),
{
    match chrono::NaiveDate::from_ymd_opt(d.year, d.month, d.day).unwrap().weekday() {
        chrono::Weekday::Mon => Weekday::Mon,
        chrono::Weekday::Tue => Weekday::Tue,
        chrono::Weekday::Wed => Weekday::Wed,
        chrono::Weekday::Thu => Weekday::Thu,
        chrono::Weekday::Fri => Weekday::Fri,
        chrono::Weekday::Sat => Weekday::Sat,
        chrono::Weekday::Sun => Weekday::Sun,
    }
}

/// The next calendar date, from `chrono::NaiveDate::succ_opt`, which gives `None` only
/// for the last representable date; the contract states the calendar rule of
/// [`next_date`].
#[verifier::external_body]
pub(crate) fn date_succ(d: Date) -> (r: Option<Date>)
    requires
        d.is_valid(),
    ensures
        r == next_date(d),
{
    match chrono::NaiveDate::from_ymd_opt(d.year, d.month, d.day).unwrap().succ_opt() {
        Some(nd) => Some(Date { year: nd.year(), month: nd.month(), day: nd.day() }),
        None => None,
    }
}

/// The ISO 8601 week number of a valid date, from `chrono::Datelike::iso_week` and
/// `chrono::IsoWeek::week`; the contract states the ISO rule of [`iso_week_of`].
#[verifier::external_body]
pub(crate) fn iso_week_number(d: Date) -> (w: u32)
    requires
        d.is_valid(),
    ensures
        w == iso_week_of(d),
{
    chrono::NaiveDate::from_ymd_opt(d.year, d.month, d.day).unwrap().iso_week().week()
}

/// The current local date and wall-clock time, from `chrono::Local::now`, truncated to
/// the second. It depends on the clock, so the contract says only that the result is a
/// valid date and time of day (chrono documents hours 0 to 23, minutes and seconds 0
/// to 59).
#[verifier::external_body]
pub(crate) fn local_now() -> (t: LocalDateTime)
    ensures
        t.is_valid(),
{
    let now = chrono::Local::now();
    LocalDateTime {
        date: Date { year: now.year(), month: now.month(), day: now.day() },
        hour: now.hour(),
        minute: now.minute(),
        second: now.second(),
    }
}

} // verus!
