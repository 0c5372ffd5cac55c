//! Parsing of natural-language schedule expressions.
//!
//! Grammar:
//!   `<freq> <day> "at" <time>`, `"the" <ordinal> <day> ["of" "every" "month"] "at" <time>`
//!   or `"tomorrow" "at" <time>`
//!
//!   freq  = "next" | "every" | "every other" | "the" <ordinal>
//!   day   = weekday | "day" | Nth (e.g. "15th")
//!   time  = "9am" | "2:30pm" | "noon" | "midnight" | "HH:MM" | "H"

use crate::calendar::{
    is_before, iso_week_number, iso_week_of, local_now, LocalDateTime, Weekday, MAX_YEAR,
};
use crate::schedule::{
    day_text, description_text, frequency_text, lemma_next_fire_unique, next_weekly,
    ordinal_text, suffix_text, time_text, two_digits, weekday_text,
};
use crate::text::{
    all_digits, chars_eq_str, chars_of, decimal, decimal_value, digit_value, ends_with_str,
    has_no_space, has_suffix, is_digit, is_white_space, lemma_decimal_chars, lemma_lower_id,
    lemma_lower_idempotent, lemma_no_suffix_after_digit, lemma_parse_decimal, lemma_trim_none,
    lemma_trim_once, lemma_words_join, lemma_words_lower, lemma_words_single, lower, lowercase,
    parse_u8, parse_u8_spec, push_chars, push_decimal, push_str, split_whitespace,
    string_from_chars, sub_chars, trim_end_matches, trim_suffix_all, views, words,
};
pub use crate::calendar::days_until_weekday;
use vstd::prelude::*;

verus! {

#[derive(Clone, Copy, Debug, PartialEq, Eq, Structural)]
pub enum Ordinal {
    First,
    Second,
    Third,
    Fourth,
    Last,
}

/// How often the schedule repeats (or fires once).
#[derive(Clone, Copy, Debug, PartialEq, Eq, Structural)]
pub enum Frequency {
    /// Fire once on the next matching occurrence, then exit.
    Next,
    /// Fire every matching occurrence.
    Every,
    /// Fire every other matching weekday (ISO week parity, stateless).
    EveryOther { even_weeks: bool },
    /// Fire on the Nth weekday of the month.
    Ordinal(Ordinal),
}

/// Which day(s) to fire on.
#[derive(Clone, Copy, Debug, PartialEq, Eq, Structural)]
pub enum DaySpec {
    Weekday(Weekday),
    MonthDay(u8),
    EveryDay,
    /// The day after the moment the schedule is evaluated.
    Tomorrow,
}

#[derive(Clone, Copy, Debug, PartialEq, Eq, Structural)]
pub struct TimeSpec {
    pub hour: u8,
    pub minute: u8,
}

#[derive(Clone, Copy, Debug, PartialEq, Eq, Structural)]
pub struct Schedule {
    pub frequency: Frequency,
    pub day: DaySpec,
    pub time: TimeSpec,
}

// ── Errors ──────────────────────────────────────────────────────────────────

/// Why a time of day was not understood. Texts are given in lower case.
#[derive(Debug)]
pub enum TimeError {
    /// The hour before `:` is not a number from 0 to 255.
    InvalidHour(String),
    /// The minute after `:` is not a number from 0 to 255.
    InvalidMinute(String),
    /// The minute is above 59.
    MinuteOutOfRange(u8),
    /// A time without `:` is not a number from 0 to 255.
    InvalidTime(String),
    /// The hour, after am/pm is applied, is above 23.
    HourOutOfRange(u8),
}

/// Why a schedule expression was not understood. Words are given in lower case;
/// `None` stands for a word that is missing.
#[derive(Debug)]
pub enum ParseError {
    ExpectedFrequency(Option<String>),
    ExpectedOrdinal(Option<String>),
    ExpectedDay(Option<String>),
    ExpectedAt(Option<String>),
    ExpectedTime,
    Time(TimeError),
    /// An "every other" weekday schedule was evaluated at a moment in the last year
    /// of the calendar, whose week parity cannot be pinned.
    ClockOutOfRange,
}

pub enum TimeErrorView {
    InvalidHour(Seq<char>),
    InvalidMinute(Seq<char>),
    MinuteOutOfRange(int),
    InvalidTime(Seq<char>),
    HourOutOfRange(int),
}

pub enum ParseErrorView {
    ExpectedFrequency(Option<Seq<char>>),
    ExpectedOrdinal(Option<Seq<char>>),
    ExpectedDay(Option<Seq<char>>),
    ExpectedAt(Option<Seq<char>>),
    ExpectedTime,
    Time(TimeErrorView),
    ClockOutOfRange,
}

pub open spec fn opt_string_view(o: Option<String>) -> Option<Seq<char>> {
    match o {
        Some(s) => Some(s@),
        None => None,
    }
}

pub open spec fn opt_chars_view(o: Option<Vec<char>>) -> Option<Seq<char>> {
    match o {
        Some(s) => Some(s@),
        None => None,
    }
}

impl View for TimeError {
    type V = TimeErrorView;

    open spec fn view(&self) -> TimeErrorView {
        match self {
            TimeError::InvalidHour(s) => TimeErrorView::InvalidHour(s@),
            TimeError::InvalidMinute(s) => TimeErrorView::InvalidMinute(s@),
            TimeError::MinuteOutOfRange(m) => TimeErrorView::MinuteOutOfRange(*m as int),
            TimeError::InvalidTime(s) => TimeErrorView::InvalidTime(s@),
            TimeError::HourOutOfRange(h) => TimeErrorView::HourOutOfRange(*h as int),
        }
    }
}

impl View for ParseError {
    type V = ParseErrorView;

    open spec fn view(&self) -> ParseErrorView {
        match self {
            ParseError::ExpectedFrequency(o) => ParseErrorView::ExpectedFrequency(opt_string_view(*o)),
            ParseError::ExpectedOrdinal(o) => ParseErrorView::ExpectedOrdinal(opt_string_view(*o)),
            ParseError::ExpectedDay(o) => ParseErrorView::ExpectedDay(opt_string_view(*o)),
            ParseError::ExpectedAt(o) => ParseErrorView::ExpectedAt(opt_string_view(*o)),
            ParseError::ExpectedTime => ParseErrorView::ExpectedTime,
            ParseError::Time(e) => ParseErrorView::Time(e@),
            ParseError::ClockOutOfRange => ParseErrorView::ClockOutOfRange,
        }
    }
}

// ── The grammar ─────────────────────────────────────────────────────────────

/// The word at `pos`, in lower case, if there is one.
pub open spec fn token_at(tokens: Seq<Seq<char>>, pos: int) -> Option<Seq<char>> {
    if 0 <= pos < tokens.len() {
        Some(lower(tokens[pos]))
    } else {
        None
    }
}

pub open spec fn token_is(tokens: Seq<Seq<char>>, pos: int, w: Seq<char>) -> bool {
    token_at(tokens, pos) == Some(w)
}

pub open spec fn ordinal_word(t: Option<Seq<char>>) -> Option<Ordinal> {
    if t == Some("first"@) {
        Some(Ordinal::First)
    } else if t == Some("second"@) {
        Some(Ordinal::Second)
    } else if t == Some("third"@) {
        Some(Ordinal::Third)
    } else if t == Some("fourth"@) {
        Some(Ordinal::Fourth)
    } else if t == Some("last"@) {
        Some(Ordinal::Last)
    } else {
        None
    }
}

/// `freq` at `pos`; on success, the frequency and the position after it.
pub open spec fn spec_parse_frequency(tokens: Seq<Seq<char>>, pos: int) -> Result<
    (Frequency, int),
    ParseErrorView,
> {
    if token_is(tokens, pos, "next"@) {
        Ok((Frequency::Next, pos + 1))
    } else if token_is(tokens, pos, "every"@) {
        if token_is(tokens, pos + 1, "other"@) {
            Ok((Frequency::EveryOther { even_weeks: false }, pos + 2))
        } else {
            Ok((Frequency::Every, pos + 1))
        }
    } else if token_is(tokens, pos, "the"@) {
        match ordinal_word(token_at(tokens, pos + 1)) {
            Some(o) => Ok((Frequency::Ordinal(o), pos + 2)),
            None => Err(ParseErrorView::ExpectedOrdinal(token_at(tokens, pos + 1))),
        }
    } else {
        Err(ParseErrorView::ExpectedFrequency(token_at(tokens, pos)))
    }
}

pub open spec fn weekday_word(s: Seq<char>) -> Option<Weekday> {
    if s == "monday"@ || s == "mon"@ {
        Some(Weekday::Mon)
    } else if s == "tuesday"@ || s == "tue"@ {
        Some(Weekday::Tue)
    } else if s == "wednesday"@ || s == "wed"@ {
        Some(Weekday::Wed)
    } else if s == "thursday"@ || s == "thu"@ {
        Some(Weekday::Thu)
    } else if s == "friday"@ || s == "fri"@ {
        Some(Weekday::Fri)
    } else if s == "saturday"@ || s == "sat"@ {
        Some(Weekday::Sat)
    } else if s == "sunday"@ || s == "sun"@ {
        Some(Weekday::Sun)
    } else {
        None
    }
}

/// A day of the month such as "15th": trailing "st", "nd", "rd" and "th" are removed,
/// in that order and each as often as it repeats, and what is left must be a number
/// from 1 to 31.
pub open spec fn month_day_word(s: Seq<char>) -> Option<u8> {
    let t = trim_suffix_all(
        trim_suffix_all(trim_suffix_all(trim_suffix_all(s, "st"@), "nd"@), "rd"@),
        "th"@,
    );
    match parse_u8_spec(t) {
        Some(d) => if 1 <= d <= 31 {
            Some(d)
        } else {
            None
        },
        None => None,
    }
}

/// `day` at `pos`; on success, the day specification and the position after it.
pub open spec fn spec_parse_day(tokens: Seq<Seq<char>>, pos: int) -> Result<
    (DaySpec, int),
    ParseErrorView,
> {
    match token_at(tokens, pos) {
        None => Err(ParseErrorView::ExpectedDay(None)),
        Some(t) => match weekday_word(t) {
            Some(w) => Ok((DaySpec::Weekday(w), pos + 1)),
            None => if t == "day"@ {
                Ok((DaySpec::EveryDay, pos + 1))
            } else {
                match month_day_word(t) {
                    Some(d) => Ok((DaySpec::MonthDay(d), pos + 1)),
                    None => Err(ParseErrorView::ExpectedDay(Some(t))),
                }
            },
        },
    }
}

/// The first `:` of `s`, if any.
pub open spec fn colon_at(s: Seq<char>, i: int) -> bool {
    0 <= i < s.len() && s[i] == ':' && forall|k: int| 0 <= k < i ==> s[k] != ':'
}

/// `H` or `H:MM`, each part a number as `str::parse::<u8>` reads it, the minute at
/// most 59.
pub open spec fn spec_parse_hm(s: Seq<char>) -> Result<(u8, u8), TimeErrorView> {
    if exists|i: int| colon_at(s, i) {
        let i = choose|i: int| colon_at(s, i);
        let h_str = s.take(i);
        let m_str = s.skip(i + 1);
        match parse_u8_spec(h_str) {
            None => Err(TimeErrorView::InvalidHour(h_str)),
            Some(h) => match parse_u8_spec(m_str) {
                None => Err(TimeErrorView::InvalidMinute(m_str)),
                Some(m) => if m > 59 {
                    Err(TimeErrorView::MinuteOutOfRange(m as int))
                } else {
                    Ok((h, m))
                },
            },
        }
    } else {
        match parse_u8_spec(s) {
            None => Err(TimeErrorView::InvalidTime(s)),
            Some(h) => Ok((h, 0)),
        }
    }
}

/// A time of day: "noon", "midnight", `<hm>pm`, `<hm>am` or 24-hour `<hm>`, in any
/// ASCII case.
pub open spec fn spec_parse_time(raw: Seq<char>) -> Result<TimeSpec, TimeErrorView> {
    let s = lower(raw);
    if s == "noon"@ {
        Ok(TimeSpec { hour: 12, minute: 0 })
    } else if s == "midnight"@ {
        Ok(TimeSpec { hour: 0, minute: 0 })
    } else if has_suffix(s, "pm"@) {
        match spec_parse_hm(s.take(s.len() - 2)) {
            Err(e) => Err(e),
            Ok((h, m)) => {
                let hour: int = if h == 12 {
                    12
                } else {
                    h + 12
                };
                if hour > 23 {
                    Err(TimeErrorView::HourOutOfRange(hour))
                } else {
                    Ok(TimeSpec { hour: hour as u8, minute: m })
                }
            },
        }
    } else if has_suffix(s, "am"@) {
        match spec_parse_hm(s.take(s.len() - 2)) {
            Err(e) => Err(e),
            Ok((h, m)) => Ok(TimeSpec { hour: if h == 12 { 0 } else { h }, minute: m }),
        }
    } else {
        match spec_parse_hm(s) {
            Err(e) => Err(e),
            Ok((h, m)) => if h > 23 {
                Err(TimeErrorView::HourOutOfRange(h as int))
            } else {
                Ok(TimeSpec { hour: h, minute: m })
            },
        }
    }
}

/// A "pm" time whose hour is 244 or more: adding 12 to it leaves the 8-bit range.
pub open spec fn pm_hour_overflows(raw: Seq<char>) -> bool {
    let s = lower(raw);
    &&& s != "noon"@
    &&& s != "midnight"@
    &&& has_suffix(s, "pm"@)
    &&& spec_parse_hm(s.take(s.len() - 2)) matches Ok((h, _)) && h >= 244
}

/// The position after the optional words "of every month" at `p`.
pub open spec fn after_filler(tokens: Seq<Seq<char>>, p: int) -> int {
    if token_is(tokens, p, "of"@) && token_is(tokens, p + 1, "every"@) && token_is(
        tokens,
        p + 2,
        "month"@,
    ) {
        p + 3
    } else {
        p
    }
}

/// Frequency, day and "at"; on success, the position where the time should be.
/// "tomorrow" stands for a one-shot schedule on the day after it is evaluated.
pub open spec fn spec_parse_prefix(tokens: Seq<Seq<char>>) -> Result<
    (Frequency, DaySpec, int),
    ParseErrorView,
> {
    if token_is(tokens, 0, "tomorrow"@) {
        if token_is(tokens, 1, "at"@) {
            Ok((Frequency::Next, DaySpec::Tomorrow, 2))
        } else {
            Err(ParseErrorView::ExpectedAt(token_at(tokens, 1)))
        }
    } else {
        match spec_parse_frequency(tokens, 0) {
            Err(e) => Err(e),
            Ok((f, p1)) => match spec_parse_day(tokens, p1) {
                Err(e) => Err(e),
                Ok((d, p2)) => {
                    let p3 = if f is Ordinal {
                        after_filler(tokens, p2)
                    } else {
                        p2
                    };
                    if token_is(tokens, p3, "at"@) {
                        Ok((f, d, p3 + 1))
                    } else {
                        Err(ParseErrorView::ExpectedAt(token_at(tokens, p3)))
                    }
                },
            },
        }
    }
}

/// The word that is read as the time, when the expression gets that far.
pub open spec fn time_token(input: Seq<char>) -> Option<Seq<char>> {
    time_token_of(words(input))
}

pub open spec fn time_token_of(tokens: Seq<Seq<char>>) -> Option<Seq<char>> {
    match spec_parse_prefix(tokens) {
        Ok((_, _, p)) => if p < tokens.len() {
            Some(tokens[p])
        } else {
            None
        },
        Err(_) => None,
    }
}

/// The parts of an expression: frequency (with `even_weeks` not yet set), day and
/// time. Words after the time are not read.
pub open spec fn spec_parse_parts(input: Seq<char>) -> Result<
    (Frequency, DaySpec, TimeSpec),
    ParseErrorView,
> {
    spec_parse_tokens(words(input))
}

pub open spec fn spec_parse_tokens(tokens: Seq<Seq<char>>) -> Result<
    (Frequency, DaySpec, TimeSpec),
    ParseErrorView,
> {
    match spec_parse_prefix(tokens) {
        Err(e) => Err(e),
        Ok((f, d, p)) => if p >= tokens.len() {
            Err(ParseErrorView::ExpectedTime)
        } else {
            match spec_parse_time(tokens[p]) {
                Err(e) => Err(ParseErrorView::Time(e)),
                Ok(t) => Ok((f, d, t)),
            }
        },
    }
}

/// Parsing `input` cannot be completed: its pm hour leaves the 8-bit range, or an
/// "every other" weekday schedule has an hour that no day has.
pub open spec fn parse_faults(input: Seq<char>) -> bool {
    ||| (time_token(input) matches Some(t) && pm_hour_overflows(t))
    ||| (spec_parse_parts(input) matches Ok((f, d, t)) && f is EveryOther && d is Weekday
        && t.hour >= 24)
}

// ── Reading the words ───────────────────────────────────────────────────────

/// The word at `pos` in lower case, if there is one.
fn token_lower(tokens: &Vec<Vec<char>>, pos: usize) -> (r: Option<Vec<char>>)
    ensures
        opt_chars_view(r) == token_at(views(tokens@), pos as int),
        r is Some <==> pos < tokens.len(),
{
    if pos < tokens.len() {
        Some(lowercase(&tokens[pos]))
    } else {
        None
    }
}

fn word_is(t: &Option<Vec<char>>, w: &str) -> (r: bool)
    ensures
        r == (opt_chars_view(*t) == Some(w@)),
        r ==> t is Some,
{
    match t {
        Some(v) => chars_eq_str(v, w),
        None => false,
    }
}

fn to_opt_string(t: &Option<Vec<char>>) -> (r: Option<String>)
    ensures
        opt_string_view(r) == opt_chars_view(*t),
{
    match t {
        Some(v) => Some(string_from_chars(v)),
        None => None,
    }
}

fn parse_frequency(tokens: &Vec<Vec<char>>, pos: &mut usize) -> (r: Result<Frequency, ParseError>)
    ensures
        match spec_parse_frequency(views(tokens@), *old(pos) as int) {
            Ok((f, p)) => r == Ok::<Frequency, ParseError>(f) && *final(pos) == p,
            Err(e) => r matches Err(x) && x@ == e && *final(pos) == (if e is ExpectedOrdinal {
                *old(pos) + 1
            } else {
                *old(pos) as int
            }),
        },
{
    let t0 = token_lower(tokens, *pos);
    if word_is(&t0, "next") {
        *pos = *pos + 1;
        return Ok(Frequency::Next);
    }
    if word_is(&t0, "every") {
        *pos = *pos + 1;
        let t1 = token_lower(tokens, *pos);
        if word_is(&t1, "other") {
            *pos = *pos + 1;
            return Ok(Frequency::EveryOther { even_weeks: false });
        } else {
            return Ok(Frequency::Every);
        }
    }
    if word_is(&t0, "the") {
        *pos = *pos + 1;
        let t1 = token_lower(tokens, *pos);
        let ord = if word_is(&t1, "first") {
            Ordinal::First
        } else if word_is(&t1, "second") {
            Ordinal::Second
        } else if word_is(&t1, "third") {
            Ordinal::Third
        } else if word_is(&t1, "fourth") {
            Ordinal::Fourth
        } else if word_is(&t1, "last") {
            Ordinal::Last
        } else {
            return Err(ParseError::ExpectedOrdinal(to_opt_string(&t1)));
        };
        *pos = *pos + 1;
        return Ok(Frequency::Ordinal(ord));
    }
    Err(ParseError::ExpectedFrequency(to_opt_string(&t0)))
}

/// Reads a weekday from its lower-case name or the first three letters of it, such
/// as "monday" or "mon".
pub fn parse_weekday(s: &str) -> (r: Option<Weekday>)
    ensures
        r == weekday_word(s@),
{
    parse_weekday_chars(&chars_of(s))
}

fn parse_weekday_chars(s: &Vec<char>) -> (r: Option<Weekday>)
    ensures
        r == weekday_word(s@),
{
    if chars_eq_str(s, "monday") || chars_eq_str(s, "mon") {
        Some(Weekday::Mon)
    } else if chars_eq_str(s, "tuesday") || chars_eq_str(s, "tue") {
        Some(Weekday::Tue)
    } else if chars_eq_str(s, "wednesday") || chars_eq_str(s, "wed") {
        Some(Weekday::Wed)
    } else if chars_eq_str(s, "thursday") || chars_eq_str(s, "thu") {
        Some(Weekday::Thu)
    } else if chars_eq_str(s, "friday") || chars_eq_str(s, "fri") {
        Some(Weekday::Fri)
    } else if chars_eq_str(s, "saturday") || chars_eq_str(s, "sat") {
        Some(Weekday::Sat)
    } else if chars_eq_str(s, "sunday") || chars_eq_str(s, "sun") {
        Some(Weekday::Sun)
    } else {
        None
    }
}

fn parse_month_day(s: &Vec<char>) -> (r: Option<u8>)
    ensures
        r == month_day_word(s@),
{
    let stripped = trim_end_matches(
        &trim_end_matches(&trim_end_matches(&trim_end_matches(s, "st"), "nd"), "rd"),
        "th",
    );
    match parse_u8(&stripped) {
        Some(d) => if 1 <= d && d <= 31 {
            Some(d)
        } else {
            None
        },
        None => None,
    }
}

fn parse_day_spec(tokens: &Vec<Vec<char>>, pos: &mut usize) -> (r: Result<DaySpec, ParseError>)
    ensures
        match spec_parse_day(views(tokens@), *old(pos) as int) {
            Ok((d, p)) => r == Ok::<DaySpec, ParseError>(d) && *final(pos) == p,
            Err(e) => r matches Err(x) && x@ == e && *final(pos) == *old(pos),
        },
{
    let token = match token_lower(tokens, *pos) {
        Some(t) => t,
        None => {
            return Err(ParseError::ExpectedDay(None));
        },
    };
    if let Some(w) = parse_weekday_chars(&token) {
        *pos = *pos + 1;
        return Ok(DaySpec::Weekday(w));
    }
    if chars_eq_str(&token, "day") {
        *pos = *pos + 1;
        return Ok(DaySpec::EveryDay);
    }
    if let Some(d) = parse_month_day(&token) {
        *pos = *pos + 1;
        return Ok(DaySpec::MonthDay(d));
    }
    Err(ParseError::ExpectedDay(Some(string_from_chars(&token))))
}

// ── Times of day ────────────────────────────────────────────────────────────

fn parse_hm(s: &Vec<char>) -> (r: Result<(u8, u8), TimeError>)
    ensures
        match spec_parse_hm(s@) {
            Ok(p) => r == Ok::<(u8, u8), TimeError>(p),
            Err(e) => r matches Err(x) && x@ == e,
        },
{
    let mut i: usize = 0;
    while i < s.len() && s[i] != ':'
        invariant
            i <= s.len(),
            forall|k: int| 0 <= k < i ==> s@[k] != ':',
        decreases s.len() - i,
    {
        i = i + 1;
    }
    if i < s.len() {
        proof {
            assert(colon_at(s@, i as int));
            let j = choose|j: int| colon_at(s@, j);
            assert(j == i);
        }
        let h_str = sub_chars(s, 0, i);
        let m_str = sub_chars(s, i + 1, s.len());
        assert(h_str@ =~= s@.take(i as int));
        assert(m_str@ =~= s@.skip(i + 1));
        let h = match parse_u8(&h_str) {
            Some(h) => h,
            None => {
                return Err(TimeError::InvalidHour(string_from_chars(&h_str)));
            },
        };
        let m = match parse_u8(&m_str) {
            Some(m) => m,
            None => {
                return Err(TimeError::InvalidMinute(string_from_chars(&m_str)));
            },
        };
        if m > 59 {
            return Err(TimeError::MinuteOutOfRange(m));
        }
        Ok((h, m))
    } else {
        match parse_u8(s) {
            Some(h) => Ok((h, 0)),
            None => Err(TimeError::InvalidTime(string_from_chars(s))),
        }
    }
}

/// Parses a time of day from the characters of one word.
pub fn parse_time_chars(raw: &Vec<char>) -> (r: Result<TimeSpec, TimeError>)
    requires
        !pm_hour_overflows(raw@),
    ensures
        match spec_parse_time(raw@) {
            Ok(t) => r == Ok::<TimeSpec, TimeError>(t),
            Err(e) => r matches Err(x) && x@ == e,
        },
{
    proof {
        reveal_strlit("pm");
        reveal_strlit("am");
    }
    let s = lowercase(raw);
    if chars_eq_str(&s, "noon") {
        return Ok(TimeSpec { hour: 12, minute: 0 });
    }
    if chars_eq_str(&s, "midnight") {
        return Ok(TimeSpec { hour: 0, minute: 0 });
    }
    if ends_with_str(&s, "pm") {
        let rest = sub_chars(&s, 0, s.len() - 2);
        assert(rest@ =~= s@.take(s@.len() - 2));
        let (h, m) = parse_hm(&rest)?;
        let hour: u8 = if h == 12 {
            12
        } else {
            h + 12
        };
        if hour > 23 {
            return Err(TimeError::HourOutOfRange(hour));
        }
        return Ok(TimeSpec { hour, minute: m });
    }
    if ends_with_str(&s, "am") {
        let rest = sub_chars(&s, 0, s.len() - 2);
        assert(rest@ =~= s@.take(s@.len() - 2));
        let (h, m) = parse_hm(&rest)?;
        let hour: u8 = if h == 12 {
            0
        } else {
            h
        };
        return Ok(TimeSpec { hour, minute: m });
    }
    let (h, m) = parse_hm(&s)?;
    if h > 23 {
        return Err(TimeError::HourOutOfRange(h));
    }
    Ok(TimeSpec { hour: h, minute: m })
}

/// Parses a time of day such as "9am", "2:30pm", "noon", "midnight", "14:30" or "7".
pub fn parse_time(s: &str) -> (r: Result<TimeSpec, String>)
    requires
        !pm_hour_overflows(s@),
    ensures
        match spec_parse_time(s@) {
            Ok(t) => r == Ok::<TimeSpec, String>(t),
            Err(e) => r matches Err(m) && m@ == time_error_text(e),
        },
{
    match parse_time_chars(&chars_of(s)) {
        Ok(t) => Ok(t),
        Err(e) => Err(e.message()),
    }
}

// ── Messages ────────────────────────────────────────────────────────────────

/// The text of `format!("{:?}", o)` for an optional string whose characters are `o`.
pub uninterp spec fn debug_text(o: Option<Seq<char>>) -> Seq<char>;

/// Formats `o` with `format!("{:?}", ..)`, the `Debug` text of an `Option<String>`
/// (such as `Some("foo")` or `None`); the contract names that text [`debug_text`] of
/// the characters and says nothing more of it.
#[verifier::external_body]
fn debug_text_of(o: &Option<String>) -> (r: String)
    ensures
        r@ == debug_text(opt_string_view(*o)),
{
    format!("{:?}", o)
}

pub open spec fn quoted(prefix: Seq<char>, t: Seq<char>) -> Seq<char> {
    prefix + t + "'"@
}

pub open spec fn time_error_text(e: TimeErrorView) -> Seq<char> {
    match e {
        TimeErrorView::InvalidHour(t) => quoted("Invalid hour '"@, t),
        TimeErrorView::InvalidMinute(t) => quoted("Invalid minute '"@, t),
        TimeErrorView::MinuteOutOfRange(m) => "Invalid minute: "@ + decimal(m as nat),
        TimeErrorView::InvalidTime(t) => quoted("Invalid time '"@, t),
        TimeErrorView::HourOutOfRange(h) => "Invalid hour: "@ + decimal(h as nat),
    }
}

/// The text of the error given when the clock reads a year too late for the calendar.
pub open spec fn clock_out_of_range_text() -> Seq<char> {
    "The current date is beyond the supported calendar range"@
}

pub open spec fn parse_error_text(e: ParseErrorView) -> Seq<char> {
    match e {
        ParseErrorView::ExpectedFrequency(o) => "Expected 'next', 'every', or 'the', got "@
            + debug_text(o),
        ParseErrorView::ExpectedOrdinal(o) => "Expected ordinal after 'the', got "@ + debug_text(
            o,
        ),
        ParseErrorView::ExpectedDay(None) => "Expected day specification"@,
        ParseErrorView::ExpectedDay(Some(t)) => quoted(
            "Expected weekday, 'day', or day-of-month (e.g. '15th'), got '"@,
            t,
        ),
        ParseErrorView::ExpectedAt(o) => "Expected 'at', got "@ + debug_text(o),
        ParseErrorView::ExpectedTime => "Expected time after 'at'"@,
        ParseErrorView::Time(t) => time_error_text(t),
        ParseErrorView::ClockOutOfRange => clock_out_of_range_text(),
    }
}

fn quote_text(prefix: &str, t: &String) -> (r: String)
    ensures
        r@ == quoted(prefix@, t@),
{
    let mut out: Vec<char> = Vec::new();
    push_str(&mut out, prefix);
    push_chars(&mut out, &chars_of(t.as_str()));
    push_str(&mut out, "'");
    string_from_chars(&out)
}

fn text_with_number(prefix: &str, n: u8) -> (r: String)
    ensures
        r@ == prefix@ + decimal(n as nat),
{
    let mut out: Vec<char> = Vec::new();
    push_str(&mut out, prefix);
    push_decimal(&mut out, n as u64);
    string_from_chars(&out)
}

fn text_with_debug(prefix: &str, o: &Option<String>) -> (r: String)
    ensures
        r@ == prefix@ + debug_text(opt_string_view(*o)),
{
    let mut out: Vec<char> = Vec::new();
    push_str(&mut out, prefix);
    let d = debug_text_of(o);
    push_chars(&mut out, &chars_of(d.as_str()));
    string_from_chars(&out)
}

impl TimeError {
    /// The error in words.
    pub fn message(&self) -> (r: String)
        ensures
            r@ == time_error_text(self@),
    {
        match self {
            TimeError::InvalidHour(t) => quote_text("Invalid hour '", t),
            TimeError::InvalidMinute(t) => quote_text("Invalid minute '", t),
            TimeError::MinuteOutOfRange(m) => text_with_number("Invalid minute: ", *m),
            TimeError::InvalidTime(t) => quote_text("Invalid time '", t),
            TimeError::HourOutOfRange(h) => text_with_number("Invalid hour: ", *h),
        }
    }
}

impl ParseError {
    /// The error in words.
    pub fn message(&self) -> (r: String)
        ensures
            r@ == parse_error_text(self@),
    {
        match self {
            ParseError::ExpectedFrequency(o) => text_with_debug(
                "Expected 'next', 'every', or 'the', got ",
                o,
            ),
            ParseError::ExpectedOrdinal(o) => text_with_debug(
                "Expected ordinal after 'the', got ",
                o,
            ),
            ParseError::ExpectedDay(None) => String::from_str("Expected day specification"),
            ParseError::ExpectedDay(Some(t)) => quote_text(
                "Expected weekday, 'day', or day-of-month (e.g. '15th'), got '",
                t,
            ),
            ParseError::ExpectedAt(o) => text_with_debug("Expected 'at', got ", o),
            ParseError::ExpectedTime => String::from_str("Expected time after 'at'"),
            ParseError::Time(e) => e.message(),
            ParseError::ClockOutOfRange => String::from_str(
                "The current date is beyond the supported calendar range",
            ),
        }
    }
}

// ── Whole expressions ───────────────────────────────────────────────────────

/// The weekly schedule "every `w` at `time`".
pub open spec fn weekly(w: Weekday, time: TimeSpec) -> Schedule {
    Schedule { frequency: Frequency::Every, day: DaySpec::Weekday(w), time }
}

/// The first time after `now` at which "every `w` at `time`" fires.
pub open spec fn first_weekly_fire(now: LocalDateTime, w: Weekday, time: TimeSpec) -> LocalDateTime {
    choose|r: LocalDateTime| weekly(w, time).is_next_fire(now, r)
}

/// The week parity that "every other" pins at parse time: that of the first weekly
/// occurrence after `now` for a weekday, and of `now` itself for any other day.
pub open spec fn first_week_is_even(day: DaySpec, time: TimeSpec, now: LocalDateTime) -> bool {
    match day {
        DaySpec::Weekday(w) => iso_week_of(first_weekly_fire(now, w, time).date) % 2 == 0,
        _ => iso_week_of(now.date) % 2 == 0,
    }
}

/// The schedule built from the parts, with an "every other" parity pinned at `now`.
pub open spec fn finish_schedule(
    f: Frequency,
    d: DaySpec,
    t: TimeSpec,
    now: LocalDateTime,
) -> Schedule {
    Schedule {
        frequency: if f is EveryOther {
            Frequency::EveryOther { even_weeks: first_week_is_even(d, t, now) }
        } else {
            f
        },
        day: d,
        time: t,
    }
}

/// Whether the moment of parsing decides the schedule's week parity through its first
/// weekly occurrence: so for an "every other" weekday schedule.
pub open spec fn clock_decides(f: Frequency, d: DaySpec) -> bool {
    f is EveryOther && d is Weekday
}

/// What parsing `input` at the moment `now` gives.
pub open spec fn spec_parse(input: Seq<char>, now: LocalDateTime) -> Result<
    Schedule,
    ParseErrorView,
> {
    match spec_parse_parts(input) {
        Err(e) => Err(e),
        Ok((f, d, t)) => if clock_decides(f, d) && now.date.year >= MAX_YEAR {
            Err(ParseErrorView::ClockOutOfRange)
        } else {
            Ok(finish_schedule(f, d, t, now))
        },
    }
}

/// Whether the first future occurrence of this schedule falls on an even ISO week
/// number. Used to pin "every other" parity at parse time.
fn first_occurrence_even_week(day: DaySpec, time: TimeSpec, now: LocalDateTime) -> (r: bool)
    requires
        now.is_valid(),
        day is Weekday ==> now.date.year < MAX_YEAR && time.hour < 24 && time.minute < 60,
    ensures
        r == first_week_is_even(day, time, now),
{
    match day {
        DaySpec::Weekday(w) => {
            let first = next_weekly(now, w, time);
            proof {
                let s = weekly(w, time);
                assert(s.is_next_fire(now, first));
                let c = choose|r: LocalDateTime| weekly(w, time).is_next_fire(now, r);
                lemma_next_fire_unique(s, now, first, c);
            }
            iso_week_number(first.date) % 2 == 0
        },
        _ => iso_week_number(now.date) % 2 == 0,
    }
}

fn parse_prefix(tokens: &Vec<Vec<char>>) -> (r: Result<(Frequency, DaySpec, usize), ParseError>)
    ensures
        match spec_parse_prefix(views(tokens@)) {
            Ok((f, d, p)) => r == Ok::<(Frequency, DaySpec, usize), ParseError>((f, d, p as usize))
                && p <= tokens.len(),
            Err(e) => r matches Err(x) && x@ == e,
        },
{
    let first = token_lower(tokens, 0);
    if word_is(&first, "tomorrow") {
        let at = token_lower(tokens, 1);
        if word_is(&at, "at") {
            return Ok((Frequency::Next, DaySpec::Tomorrow, 2));
        } else {
            return Err(ParseError::ExpectedAt(to_opt_string(&at)));
        }
    }
    let mut pos: usize = 0;
    let raw_freq = parse_frequency(tokens, &mut pos)?;
    let day = parse_day_spec(tokens, &mut pos)?;
    if let Frequency::Ordinal(_) = raw_freq {
        if word_is(&token_lower(tokens, pos), "of") {
            if word_is(&token_lower(tokens, pos + 1), "every") {
                if word_is(&token_lower(tokens, pos + 2), "month") {
                    pos = pos + 3;
                }
            }
        }
    }
    let at = token_lower(tokens, pos);
    if word_is(&at, "at") {
        pos = pos + 1;
    } else {
        return Err(ParseError::ExpectedAt(to_opt_string(&at)));
    }
    Ok((raw_freq, day, pos))
}

fn parse_tokens(tokens: &Vec<Vec<char>>) -> (r: Result<(Frequency, DaySpec, TimeSpec), ParseError>)
    requires
        !(time_token_of(views(tokens@)) matches Some(t) && pm_hour_overflows(t)),
    ensures
        match spec_parse_tokens(views(tokens@)) {
            Ok(p) => r == Ok::<(Frequency, DaySpec, TimeSpec), ParseError>(p),
            Err(e) => r matches Err(x) && x@ == e,
        },
{
    let (raw_freq, day, pos) = parse_prefix(tokens)?;
    if pos >= tokens.len() {
        return Err(ParseError::ExpectedTime);
    }
    let time = match parse_time_chars(&tokens[pos]) {
        Ok(t) => t,
        Err(e) => {
            return Err(ParseError::Time(e));
        },
    };
    Ok((raw_freq, day, time))
}

/// Fixes the "every other" parity at `now`.
fn finish(f: Frequency, day: DaySpec, time: TimeSpec, now: LocalDateTime) -> (r: Schedule)
    requires
        now.is_valid(),
        f is EveryOther && day is Weekday ==> now.date.year < MAX_YEAR && time.hour < 24
            && time.minute < 60,
    ensures
        r == finish_schedule(f, day, time, now),
{
    let frequency = if let Frequency::EveryOther { .. } = f {
        Frequency::EveryOther { even_weeks: first_occurrence_even_week(day, time, now) }
    } else {
        f
    };
    Schedule { frequency, day, time }
}

/// Parse a natural-language schedule expression, pinning "every other" parity at the
/// moment `now`.
pub fn parse_at(input: &str, now: LocalDateTime) -> (r: Result<Schedule, ParseError>)
    requires
        !parse_faults(input@),
        now.is_valid(),
    ensures
        match spec_parse(input@, now) {
            Ok(s) => r == Ok::<Schedule, ParseError>(s),
            Err(e) => r matches Err(x) && x@ == e,
        },
{
    let chars = chars_of(input);
    let tokens = split_whitespace(&chars);
    let (f, day, time) = parse_tokens(&tokens)?;
    if let Frequency::EveryOther { .. } = f {
        if let DaySpec::Weekday(_) = day {
            if now.date.year >= MAX_YEAR {
                return Err(ParseError::ClockOutOfRange);
            }
        }
    }
    Ok(finish(f, day, time, now))
}

/// Parse a natural-language schedule expression. An "every other" schedule pins its
/// week parity from the current local time.
pub fn parse(input: &str) -> (r: Result<Schedule, String>)
    requires
        !parse_faults(input@),
    ensures
        spec_parse_parts(input@) matches Err(e) ==> r matches Err(m) && m@ == parse_error_text(e),
        spec_parse_parts(input@) matches Ok((f, d, t)) ==> (!(f is EveryOther) ==> r == Ok::<
            Schedule,
            String,
        >((Schedule { frequency: f, day: d, time: t }))),
        exists|now: LocalDateTime|
            #![trigger spec_parse(input@, now)]
            now.is_valid() && match spec_parse(input@, now) {
                Ok(s) => r == Ok::<Schedule, String>(s),
                Err(e) => r matches Err(m) && m@ == parse_error_text(e),
            },
{
    let now = local_now();
    let r = match parse_at(input, now) {
        Ok(s) => Ok(s),
        Err(e) => Err(e.message()),
    };
    assert(now.is_valid() && match spec_parse(input@, now) {
        Ok(s) => r == Ok::<Schedule, String>(s),
        Err(e) => r matches Err(m) && m@ == parse_error_text(e),
    });
    r
}

fn pm_hour_overflows_exec(raw: &Vec<char>) -> (r: bool)
    ensures
        r == pm_hour_overflows(raw@),
{
    proof {
        reveal_strlit("pm");
    }
    let s = lowercase(raw);
    if chars_eq_str(&s, "noon") || chars_eq_str(&s, "midnight") || !ends_with_str(&s, "pm") {
        return false;
    }
    let rest = sub_chars(&s, 0, s.len() - 2);
    assert(rest@ =~= s@.take(s@.len() - 2));
    match parse_hm(&rest) {
        Ok((h, _)) => h >= 244,
        Err(_) => false,
    }
}

/// Whether parsing `input` cannot be completed (see [`parse_faults`]); callers test this
/// before calling [`parse`] or [`parse_at`].
pub fn would_fault(input: &str) -> (r: bool)
    ensures
        r == parse_faults(input@),
{
    let chars = chars_of(input);
    let tokens = split_whitespace(&chars);
    let (f, day, pos) = match parse_prefix(&tokens) {
        Ok(p) => p,
        Err(_) => {
            return false;
        },
    };
    if pos >= tokens.len() {
        return false;
    }
    if pm_hour_overflows_exec(&tokens[pos]) {
        return true;
    }
    match parse_time_chars(&tokens[pos]) {
        Ok(t) => {
            let every_other = matches!(f, Frequency::EveryOther { .. });
            let on_weekday = matches!(day, DaySpec::Weekday(_));
            every_other && on_weekday && t.hour >= 24
        },
        Err(_) => false,
    }
}

/// "Every other" pins its week parity at parse time so that the schedule fires on the
/// first weekly occurrence after the moment of parsing: for an "every other <weekday>"
/// schedule whose parity was pinned at `now` (as every schedule that [`parse`] or
/// [`parse_at`] returns is, by their contracts), the first weekly fire after `now` is
/// also the schedule's first fire after `now`.
pub proof fn lemma_every_other_first_fire(s: Schedule, now: LocalDateTime, w: Weekday, r: LocalDateTime)
    requires
        s.day == DaySpec::Weekday(w),
        s.frequency == (Frequency::EveryOther { even_weeks: first_week_is_even(s.day, s.time, now) }),
        weekly(w, s.time).is_next_fire(now, r),
    ensures
        s.is_next_fire(now, r),
{
    let c = choose|x: LocalDateTime| weekly(w, s.time).is_next_fire(now, x);
    lemma_next_fire_unique(weekly(w, s.time), now, r, c);
    assert(s.fires_at(now, r));
    assert forall|t: LocalDateTime|
        t.is_valid() && is_before(now, t) && is_before(t, r) implies !#[trigger] s.fires_at(
        now,
        t,
    ) by {
        if s.fires_at(now, t) {
            assert(weekly(w, s.time).fires_at(now, t));
        }
    }
}

// ── Laws of reading back ────────────────────────────────────────────────────

/// A non-empty word of lower-case ASCII letters is its own lower case and one word.
proof fn lemma_lowercase_word(w: Seq<char>)
    requires
        w.len() > 0,
        forall|i: int| 0 <= i < w.len() ==> 'a' <= #[trigger] w[i] && w[i] <= 'z',
    ensures
        has_no_space(w),
        lower(w) == w,
        words(w) == seq![w],
{
    lemma_lower_id(w);
    lemma_words_single(w);
}

proof fn lemma_two_digits(m: u8)
    requires
        m < 60,
    ensures
        parse_u8_spec(two_digits(m)) == Some(m),
        two_digits(m).len() > 0,
        has_no_space(two_digits(m)),
        forall|i: int|
            0 <= i < two_digits(m).len() ==> !('A' <= #[trigger] two_digits(m)[i] && two_digits(
                m,
            )[i] <= 'Z') && two_digits(m)[i] != ':',
{
    reveal_strlit("0");
    lemma_decimal_chars(m as nat);
    if m < 10 {
        let t = two_digits(m);
        assert(t.drop_last() =~= seq!['0']);
        assert(seq!['0'].drop_last() =~= Seq::<char>::empty());
        assert(seq!['0'].last() == '0');
        assert(decimal_value(seq!['0']) == decimal_value(Seq::<char>::empty()) * 10
            + digit_value('0'));
        assert(decimal_value(seq!['0']) == 0);
        assert(decimal_value(t) == m);
        assert(all_digits(t));
    } else {
        lemma_parse_decimal(m as nat);
    }
}

/// A time of day written out by [`crate::schedule::format_time`] reads back as the same
/// time.
#[verifier::spinoff_prover]
#[verifier::rlimit(60)]
pub proof fn lemma_time_round_trip(t: TimeSpec)
    requires
        t.hour < 24,
        t.minute < 60,
    ensures
        spec_parse_time(time_text(t)) == Ok::<TimeSpec, TimeErrorView>(t),
        time_text(t).len() > 0,
        has_no_space(time_text(t)),
{
    reveal_strlit("noon");
    reveal_strlit("midnight");
    reveal_strlit("am");
    reveal_strlit("pm");
    reveal_strlit(":");
    let text = time_text(t);
    if t.hour == 0 && t.minute == 0 {
        lemma_lowercase_word(text);
    } else if t.hour == 12 && t.minute == 0 {
        lemma_lowercase_word(text);
    } else {
        let h: int = if t.hour < 12 {
            t.hour as int
        } else {
            t.hour - 12
        };
        let sfx = if t.hour < 12 {
            "am"@
        } else {
            "pm"@
        };
        let d = decimal(h as nat);
        lemma_decimal_chars(h as nat);
        lemma_parse_decimal(h as nat);
        let body = if t.minute == 0 {
            d
        } else {
            d + ":"@ + two_digits(t.minute)
        };
        lemma_two_digits(t.minute);
        assert(text =~= body + sfx);
        assert forall|i: int| 0 <= i < text.len() implies !('A' <= #[trigger] text[i] && text[i]
            <= 'Z') by {
            if i < d.len() {
                assert(text[i] == d[i]);
            } else if t.minute != 0 && i < d.len() + 1 + two_digits(t.minute).len() && i > d.len() {
                assert(text[i] == two_digits(t.minute)[i - d.len() - 1]);
            }
        }
        lemma_lower_id(text);
        assert forall|i: int| 0 <= i < text.len() implies !is_white_space(#[trigger] text[i]) by {
            if i < d.len() {
                assert(text[i] == d[i]);
            } else if t.minute != 0 && i < d.len() + 1 + two_digits(t.minute).len() && i > d.len() {
                assert(text[i] == two_digits(t.minute)[i - d.len() - 1]);
            }
        }
        assert(text[0] == d[0]);
        assert(text != "noon"@);
        assert(text != "midnight"@);
        assert(text.subrange(text.len() - 2, text.len() as int) =~= sfx);
        assert(text.take(text.len() - 2) =~= body);
        if t.minute == 0 {
            assert(!exists|i: int| colon_at(body, i));
        } else {
            let i = d.len() as int;
            assert(colon_at(body, i));
            let j = choose|j: int| colon_at(body, j);
            assert(j == i);
            assert(body.take(i) =~= d);
            assert(body.skip(i + 1) =~= two_digits(t.minute));
        }
        if t.hour < 12 {
            assert("am"@[0] != "pm"@[0]);
            assert(!has_suffix(text, "pm"@));
        }
    }
}

/// The clock text `<h>:<mm>`: its hour and minute, and the shape of its characters.
proof fn lemma_clock_text(h: nat, m: u8)
    requires
        h <= 255,
        m < 60,
    ensures
        ({
            let body = decimal(h) + ":"@ + two_digits(m);
            &&& spec_parse_hm(body) == Ok::<(u8, u8), TimeErrorView>((h as u8, m))
            &&& lower(body) == body
            &&& body.len() > 0
            &&& is_digit(body[0])
            &&& is_digit(body.last())
        }),
{
    reveal_strlit(":");
    reveal_strlit("0");
    let d = decimal(h);
    let t = two_digits(m);
    let body = d + ":"@ + t;
    lemma_decimal_chars(h);
    lemma_parse_decimal(h);
    lemma_decimal_chars(m as nat);
    lemma_two_digits(m);
    assert(is_digit(t.last())) by {
        if m < 10 {
            assert(t.last() == decimal(m as nat).last());
        }
    }
    assert(body.last() == t.last());
    assert(body[0] == d[0]);
    assert forall|i: int| 0 <= i < body.len() implies !('A' <= #[trigger] body[i] && body[i]
        <= 'Z') by {
        if i < d.len() {
            assert(body[i] == d[i]);
        } else if i > d.len() {
            assert(body[i] == t[i - d.len() - 1]);
        }
    }
    lemma_lower_id(body);
    let i = d.len() as int;
    assert(colon_at(body, i));
    let j = choose|j: int| colon_at(body, j);
    assert(j == i);
    assert(body.take(i) =~= d);
    assert(body.skip(i + 1) =~= t);
}

/// The hour-only text `<h>`: its hour, and the shape of its characters.
proof fn lemma_hour_text(h: nat)
    requires
        h <= 255,
    ensures
        ({
            let body = decimal(h);
            &&& spec_parse_hm(body) == Ok::<(u8, u8), TimeErrorView>((h as u8, 0u8))
            &&& lower(body) == body
            &&& body.len() > 0
            &&& is_digit(body[0])
            &&& is_digit(body.last())
        }),
{
    let body = decimal(h);
    lemma_decimal_chars(h);
    lemma_parse_decimal(h);
    lemma_lower_id(body);
    assert(!exists|i: int| colon_at(body, i));
}

/// How a clock text in digits reads on its own and with "pm" or "am" after it.
proof fn lemma_read_clock(body: Seq<char>, h: u8, m: u8)
    requires
        spec_parse_hm(body) == Ok::<(u8, u8), TimeErrorView>((h, m)),
        lower(body) == body,
        body.len() > 0,
        is_digit(body[0]),
        is_digit(body.last()),
    ensures
        h < 24 ==> spec_parse_time(body) == Ok::<TimeSpec, TimeErrorView>(
            TimeSpec { hour: h, minute: m },
        ),
        1 <= h <= 12 ==> spec_parse_time(body + "pm"@) == Ok::<TimeSpec, TimeErrorView>(
            TimeSpec { hour: (h % 12 + 12) as u8, minute: m },
        ),
        1 <= h <= 12 ==> spec_parse_time(body + "am"@) == Ok::<TimeSpec, TimeErrorView>(
            TimeSpec { hour: h % 12, minute: m },
        ),
{
    reveal_strlit("noon");
    reveal_strlit("midnight");
    reveal_strlit("am");
    reveal_strlit("pm");
    assert(!is_digit("noon"@[0]) && !is_digit("midnight"@[0]));
    lemma_no_suffix_after_digit(body, "pm"@);
    lemma_no_suffix_after_digit(body, "am"@);
    let pm = body + "pm"@;
    let am = body + "am"@;
    assert(lower(pm) =~= pm) by {
        assert forall|i: int| 0 <= i < pm.len() implies lower(pm)[i] == pm[i] by {
            if i < body.len() {
                assert(lower(body)[i] == body[i]);
            }
        }
    }
    assert(lower(am) =~= am) by {
        assert forall|i: int| 0 <= i < am.len() implies lower(am)[i] == am[i] by {
            if i < body.len() {
                assert(lower(body)[i] == body[i]);
            }
        }
    }
    assert(pm[0] == body[0] && am[0] == body[0]);
    assert(pm.subrange(pm.len() - 2, pm.len() as int) =~= "pm"@);
    assert(am.subrange(am.len() - 2, am.len() as int) =~= "am"@);
    assert(pm.take(pm.len() - 2) =~= body);
    assert(am.take(am.len() - 2) =~= body);
    assert("am"@[0] != "pm"@[0]);
    assert(!has_suffix(am, "pm"@));
}

/// A 24-hour time `<h>:<mm>` or `<h>` without "am" or "pm" reads as exactly hour `h`
/// and minute `m` (or minute 0), for every hour of the day and every minute of the hour.
pub proof fn lemma_twenty_four_hour_times(h: u8, m: u8)
    requires
        h < 24,
        m < 60,
    ensures
        spec_parse_time(decimal(h as nat) + ":"@ + two_digits(m)) == Ok::<TimeSpec, TimeErrorView>(
            TimeSpec { hour: h, minute: m },
        ),
        spec_parse_time(decimal(h as nat)) == Ok::<TimeSpec, TimeErrorView>(
            TimeSpec { hour: h, minute: 0 },
        ),
{
    lemma_clock_text(h as nat, m);
    lemma_read_clock(decimal(h as nat) + ":"@ + two_digits(m), h, m);
    lemma_hour_text(h as nat);
    lemma_read_clock(decimal(h as nat), h, 0);
}

/// A 12-hour time `<h>:<mm>pm` or `<h>:<mm>am`, for `h` from 1 to 12, reads as minute
/// `m` of hour `h % 12 + 12` (afternoon and evening; "12:mm pm" is just after noon) or
/// of hour `h % 12` (morning; "12:mm am" is just after midnight); `<h>pm` and `<h>am`
/// read as minute 0 of the same hours.
pub proof fn lemma_twelve_hour_times(h: u8, m: u8)
    requires
        1 <= h <= 12,
        m < 60,
    ensures
        spec_parse_time(decimal(h as nat) + ":"@ + two_digits(m) + "pm"@) == Ok::<
            TimeSpec,
            TimeErrorView,
        >(TimeSpec { hour: (h % 12 + 12) as u8, minute: m }),
        spec_parse_time(decimal(h as nat) + ":"@ + two_digits(m) + "am"@) == Ok::<
            TimeSpec,
            TimeErrorView,
        >(TimeSpec { hour: h % 12, minute: m }),
        spec_parse_time(decimal(h as nat) + "pm"@) == Ok::<TimeSpec, TimeErrorView>(
            TimeSpec { hour: (h % 12 + 12) as u8, minute: 0 },
        ),
        spec_parse_time(decimal(h as nat) + "am"@) == Ok::<TimeSpec, TimeErrorView>(
            TimeSpec { hour: h % 12, minute: 0 },
        ),
{
    lemma_clock_text(h as nat, m);
    lemma_read_clock(decimal(h as nat) + ":"@ + two_digits(m), h, m);
    lemma_hour_text(h as nat);
    lemma_read_clock(decimal(h as nat), h, 0);
}

/// "noon" is 12:00 and "midnight" is 00:00, in any ASCII case.
pub proof fn lemma_named_times(raw: Seq<char>)
    ensures
        lower(raw) == "noon"@ ==> spec_parse_time(raw) == Ok::<TimeSpec, TimeErrorView>(
            TimeSpec { hour: 12, minute: 0 },
        ),
        lower(raw) == "midnight"@ ==> spec_parse_time(raw) == Ok::<TimeSpec, TimeErrorView>(
            TimeSpec { hour: 0, minute: 0 },
        ),
{
    reveal_strlit("noon");
    reveal_strlit("midnight");
}

/// The frequency that parsing yields before "every other" parity is pinned.
pub open spec fn raw_frequency(f: Frequency) -> Frequency {
    if f is EveryOther {
        Frequency::EveryOther { even_weeks: false }
    } else {
        f
    }
}

/// The words of a description: those of the frequency, then the day, "at", the time.
#[verifier::spinoff_prover]
#[verifier::rlimit(60)]
proof fn lemma_description_words(s: Schedule)
    requires
        s.is_well_formed(),
        !(s.day is Tomorrow),
        day_text(s.day).len() > 0,
        has_no_space(day_text(s.day)),
    ensures
        words(description_text(s)) == words(frequency_text(s.frequency)) + seq![day_text(s.day)]
            + seq!["at"@, time_text(s.time)],
{
    reveal_strlit(" ");
    reveal_strlit(" at ");
    reveal_strlit("at");
    let f = frequency_text(s.frequency);
    let d = day_text(s.day);
    let t = time_text(s.time);
    lemma_time_round_trip(s.time);
    let tail2 = "at"@ + seq![' '] + t;
    let tail1 = d + seq![' '] + tail2;
    assert(description_text(s) =~= f + seq![' '] + tail1);
    lemma_words_join(f, tail1);
    lemma_words_join(d, tail2);
    lemma_words_join("at"@, t);
    lemma_lowercase_word("at"@);
    lemma_words_single(d);
    lemma_words_single(t);
    assert(words(description_text(s)) =~= words(f) + seq![d] + seq!["at"@, t]);
}

/// The word that describes a day of the month reads back as that day.
#[verifier::spinoff_prover]
#[verifier::rlimit(60)]
proof fn lemma_month_day_word(n: u8)
    requires
        1 <= n <= 31,
    ensures
        day_text(DaySpec::MonthDay(n)).len() > 0,
        has_no_space(day_text(DaySpec::MonthDay(n))),
        lower(day_text(DaySpec::MonthDay(n))) == day_text(DaySpec::MonthDay(n)),
        is_digit(day_text(DaySpec::MonthDay(n))[0]),
        month_day_word(day_text(DaySpec::MonthDay(n))) == Some(n),
{
    reveal_strlit("st");
    reveal_strlit("nd");
    reveal_strlit("rd");
    reveal_strlit("th");
    let d = decimal(n as nat);
    let sfx = suffix_text(n);
    let w = d + sfx;
    lemma_decimal_chars(n as nat);
    lemma_parse_decimal(n as nat);
    assert(is_digit(d[d.len() - 1]));
    assert(w[0] == d[0]);
    assert forall|i: int| 0 <= i < w.len() implies !is_white_space(#[trigger] w[i]) && !('A'
        <= w[i] && w[i] <= 'Z') by {
        if i < d.len() {
            assert(w[i] == d[i]);
        } else {
            assert(w[i] == sfx[i - d.len()]);
        }
    }
    lemma_lower_id(w);
    lemma_no_suffix_after_digit(d, "st"@);
    lemma_no_suffix_after_digit(d, "nd"@);
    lemma_no_suffix_after_digit(d, "rd"@);
    lemma_no_suffix_after_digit(d, "th"@);
    if sfx == "st"@ {
        lemma_trim_once(d, "st"@);
        lemma_trim_none(d, "nd"@);
        lemma_trim_none(d, "rd"@);
        lemma_trim_none(d, "th"@);
    } else {
        assert(w.last() == sfx.last());
        assert(!has_suffix(w, "st"@)) by {
            if has_suffix(w, "st"@) {
                assert(w.subrange(w.len() - 2, w.len() as int)[1] == w.last());
            }
        }
        lemma_trim_none(w, "st"@);
        if sfx == "nd"@ {
            lemma_trim_once(d, "nd"@);
            lemma_trim_none(d, "rd"@);
            lemma_trim_none(d, "th"@);
        } else {
            assert(!has_suffix(w, "nd"@)) by {
                if has_suffix(w, "nd"@) {
                    assert(w.subrange(w.len() - 2, w.len() as int)[0] == w[w.len() - 2]);
                    assert(w.subrange(w.len() - 2, w.len() as int)[1] == w.last());
                    assert(w[w.len() - 2] == sfx[0]);
                }
            }
            lemma_trim_none(w, "nd"@);
            if sfx == "rd"@ {
                lemma_trim_once(d, "rd"@);
                lemma_trim_none(d, "th"@);
            } else {
                assert(!has_suffix(w, "rd"@)) by {
                    if has_suffix(w, "rd"@) {
                        assert(w.subrange(w.len() - 2, w.len() as int)[0] == w[w.len() - 2]);
                        assert(w[w.len() - 2] == sfx[0]);
                    }
                }
                lemma_trim_none(w, "rd"@);
                lemma_trim_once(d, "th"@);
            }
        }
    }
}


/// The word that describes a day reads back as that day.
#[verifier::spinoff_prover]
#[verifier::rlimit(60)]
proof fn lemma_day_round_trip(day: DaySpec, tokens: Seq<Seq<char>>, p: int)
    requires
        !(day is Tomorrow),
        day matches DaySpec::MonthDay(n) ==> 1 <= n <= 31,
        0 <= p < tokens.len(),
        tokens[p] == day_text(day),
    ensures
        spec_parse_day(tokens, p) == Ok::<(DaySpec, int), ParseErrorView>((day, p + 1)),
        day_text(day).len() > 0,
        has_no_space(day_text(day)),
        lower(day_text(day)) == day_text(day),
        day_text(day)[0] != 'o',
        day_text(day)[0] != "of"@[0],
{
    reveal_strlit("of");
    reveal_strlit("monday");
    reveal_strlit("mon");
    reveal_strlit("tuesday");
    reveal_strlit("tue");
    reveal_strlit("wednesday");
    reveal_strlit("wed");
    reveal_strlit("thursday");
    reveal_strlit("thu");
    reveal_strlit("friday");
    reveal_strlit("fri");
    reveal_strlit("saturday");
    reveal_strlit("sat");
    reveal_strlit("sunday");
    reveal_strlit("sun");
    reveal_strlit("day");
    match day {
        DaySpec::MonthDay(n) => {
            lemma_month_day_word(n);
            let w = day_text(day);
            assert(w[0] != "day"@[0]);
            assert(weekday_word(w) == None::<Weekday>) by {
                assert(w[0] != "monday"@[0] && w[0] != "mon"@[0] && w[0] != "tuesday"@[0] && w[0]
                    != "tue"@[0] && w[0] != "wednesday"@[0] && w[0] != "wed"@[0] && w[0]
                    != "thursday"@[0] && w[0] != "thu"@[0] && w[0] != "friday"@[0] && w[0]
                    != "fri"@[0] && w[0] != "saturday"@[0] && w[0] != "sat"@[0] && w[0]
                    != "sunday"@[0] && w[0] != "sun"@[0]);
            }
        },
        DaySpec::EveryDay => {
            lemma_lowercase_word("day"@);
        },
        DaySpec::Weekday(w) => {
            let t = weekday_text(w);
            lemma_lowercase_word(t);
            match w {
                Weekday::Mon => {},
                Weekday::Tue => {
                    assert(t[0] != "monday"@[0]);
                },
                Weekday::Wed => {
                    assert(t[0] != "monday"@[0] && t[0] != "tuesday"@[0]);
                },
                Weekday::Thu => {
                    assert(t[0] != "monday"@[0] && t[0] != "wednesday"@[0]);
                    assert(t[1] != "tuesday"@[1]);
                },
                Weekday::Fri => {
                    assert(t[0] != "monday"@[0] && t[0] != "tuesday"@[0] && t[0]
                        != "wednesday"@[0] && t[0] != "thursday"@[0]);
                },
                Weekday::Sat => {
                    assert(t[0] != "monday"@[0] && t[0] != "tuesday"@[0] && t[0]
                        != "wednesday"@[0] && t[0] != "thursday"@[0] && t[0] != "friday"@[0]);
                },
                Weekday::Sun => {
                    assert(t[0] != "monday"@[0] && t[0] != "tuesday"@[0] && t[0]
                        != "wednesday"@[0] && t[0] != "thursday"@[0] && t[0] != "friday"@[0]);
                    assert(t[1] != "saturday"@[1]);
                },
            }
        },
        DaySpec::Tomorrow => {},
    }
}

/// The words of a frequency, and how the frequency reads back when a day word that
/// does not begin with 'o' follows.
#[verifier::spinoff_prover]
#[verifier::rlimit(60)]
proof fn lemma_frequency_round_trip(f: Frequency, tokens: Seq<Seq<char>>)
    requires
        tokens.len() > words(frequency_text(f)).len(),
        tokens.subrange(0, words(frequency_text(f)).len() as int) == words(frequency_text(f)),
        tokens[words(frequency_text(f)).len() as int].len() > 0,
        tokens[words(frequency_text(f)).len() as int][0] != 'o',
        lower(tokens[words(frequency_text(f)).len() as int]) == tokens[words(
            frequency_text(f),
        ).len() as int],
    ensures
        spec_parse_frequency(tokens, 0) == Ok::<(Frequency, int), ParseErrorView>(
            (raw_frequency(f), words(frequency_text(f)).len() as int),
        ),
        !token_is(tokens, 0, "tomorrow"@),
        words(frequency_text(f)).len() <= 2,
{
    reveal_strlit("next");
    reveal_strlit("every");
    reveal_strlit("other");
    reveal_strlit("every other");
    reveal_strlit("the");
    reveal_strlit("the ");
    reveal_strlit("tomorrow");
    reveal_strlit("first");
    reveal_strlit("second");
    reveal_strlit("third");
    reveal_strlit("fourth");
    reveal_strlit("last");
    reveal_strlit(" ");
    let ft = frequency_text(f);
    let ws = words(ft);
    assert forall|i: int| 0 <= i < ws.len() implies tokens[i] == #[trigger] ws[i] by {
        assert(tokens.subrange(0, ws.len() as int)[i] == tokens[i]);
    }
    match f {
        Frequency::Next => {
            lemma_lowercase_word("next"@);
            assert(ws[0] == "next"@);
            assert(tokens[0] == "next"@);
        },
        Frequency::Every => {
            lemma_lowercase_word("every"@);
            assert(ws[0] == "every"@);
            assert(tokens[0] == "every"@);
            assert(ws.len() == 1);
            assert(lower(tokens[1])[0] != "other"@[0]);
        },
        Frequency::EveryOther { .. } => {
            lemma_lowercase_word("every"@);
            lemma_lowercase_word("other"@);
            assert(ft =~= "every"@ + seq![' '] + "other"@);
            lemma_words_join("every"@, "other"@);
            assert(ws =~= seq!["every"@, "other"@]);
            assert(ws[0] == "every"@ && ws[1] == "other"@);
            assert(tokens[0] == "every"@);
            assert(tokens[1] == "other"@);
        },
        Frequency::Ordinal(o) => {
            let ot = ordinal_text(o);
            lemma_lowercase_word("the"@);
            lemma_lowercase_word(ot);
            assert(ft =~= "the"@ + seq![' '] + ot);
            lemma_words_join("the"@, ot);
            assert(ws =~= seq!["the"@, ot]);
            assert(ws[0] == "the"@ && ws[1] == ot);
            assert(tokens[0] == "the"@);
            assert(tokens[1] == ot);
            match o {
                Ordinal::First => {},
                Ordinal::Second => {
                    assert(ot[0] != "first"@[0]);
                },
                Ordinal::Third => {
                    assert(ot[0] != "first"@[0] && ot[0] != "second"@[0]);
                },
                Ordinal::Fourth => {
                    assert(ot[0] != "second"@[0] && ot[0] != "third"@[0]);
                    assert(ot[1] != "first"@[1]);
                },
                Ordinal::Last => {
                    assert(ot[0] != "first"@[0] && ot[0] != "second"@[0] && ot[0]
                        != "third"@[0] && ot[0] != "fourth"@[0]);
                },
            }
        },
    }
}

/// A time that reads without error does not overflow as a "pm" hour.
proof fn lemma_parsed_time_no_overflow(raw: Seq<char>)
    requires
        spec_parse_time(raw) is Ok,
    ensures
        !pm_hour_overflows(raw),
{
}

/// The words of "tomorrow at <time>" read back.
#[verifier::spinoff_prover]
#[verifier::rlimit(60)]
proof fn lemma_tomorrow_round_trip(s: Schedule)
    requires
        s.is_well_formed(),
        s.day is Tomorrow,
    ensures
        spec_parse_prefix(words(description_text(s))) == Ok::<
            (Frequency, DaySpec, int),
            ParseErrorView,
        >((Frequency::Next, DaySpec::Tomorrow, 2)),
        words(description_text(s)).len() == 3,
        words(description_text(s))[2] == time_text(s.time),
{
    reveal_strlit("tomorrow at ");
    reveal_strlit("tomorrow");
    reveal_strlit("at");
    let text = description_text(s);
    let t = time_text(s.time);
    lemma_time_round_trip(s.time);
    lemma_lowercase_word("at"@);
    lemma_lowercase_word("tomorrow"@);
    assert(text == "tomorrow at "@ + t);
    assert(text =~= "tomorrow"@ + seq![' '] + ("at"@ + seq![' '] + t));
    lemma_words_join("tomorrow"@, "at"@ + seq![' '] + t);
    lemma_words_join("at"@, t);
    lemma_words_single(t);
    let tokens = words(text);
    assert(tokens =~= seq!["tomorrow"@, "at"@, t]);
    assert(token_is(tokens, 0, "tomorrow"@));
    assert(token_is(tokens, 1, "at"@));
}

/// The words of "<frequency> <day> at <time>" read back.
#[verifier::spinoff_prover]
#[verifier::rlimit(60)]
proof fn lemma_general_round_trip(s: Schedule)
    requires
        s.is_well_formed(),
        !(s.day is Tomorrow),
    ensures
        ({
            let k = words(frequency_text(s.frequency)).len() as int;
            &&& spec_parse_prefix(words(description_text(s))) == Ok::<
                (Frequency, DaySpec, int),
                ParseErrorView,
            >((raw_frequency(s.frequency), s.day, k + 2))
            &&& words(description_text(s)).len() == k + 3
            &&& words(description_text(s))[k + 2] == time_text(s.time)
        }),
{
    reveal_strlit("at");
    reveal_strlit("of");
    let text = description_text(s);
    let t = time_text(s.time);
    lemma_time_round_trip(s.time);
    lemma_lowercase_word("at"@);
    let tokens = words(text);
    let fw = words(frequency_text(s.frequency));
    let k = fw.len() as int;
    lemma_day_round_trip(s.day, fw + seq![day_text(s.day)] + seq!["at"@, t], k);
    lemma_description_words(s);
    assert(tokens =~= fw + seq![day_text(s.day)] + seq!["at"@, t]);
    assert(tokens.subrange(0, k) =~= fw);
    assert(tokens[k] == day_text(s.day));
    lemma_frequency_round_trip(s.frequency, tokens);
    lemma_day_round_trip(s.day, tokens, k);
    assert(tokens[k + 1] == "at"@);
    assert(lower(tokens[k + 1])[0] != "of"@[0]);
    assert(after_filler(tokens, k + 1) == k + 1);
    assert(tokens[k + 2] == t);
}

/// A well-formed schedule's description reads back as the same schedule: parsing the
/// text that [`Schedule::description`] writes gives back its frequency (an "every other"
/// parity is pinned anew), its day and its time, and parsing it cannot fault.
pub proof fn lemma_description_round_trip(s: Schedule)
    requires
        s.is_well_formed(),
        s.day is Tomorrow ==> s.frequency == Frequency::Next,
    ensures
        spec_parse_parts(description_text(s)) == Ok::<
            (Frequency, DaySpec, TimeSpec),
            ParseErrorView,
        >((raw_frequency(s.frequency), s.day, s.time)),
        !parse_faults(description_text(s)),
{
    let text = description_text(s);
    let t = time_text(s.time);
    lemma_time_round_trip(s.time);
    lemma_parsed_time_no_overflow(t);
    if s.day is Tomorrow {
        lemma_tomorrow_round_trip(s);
    } else {
        lemma_general_round_trip(s);
    }
    assert(time_token(text) == Some(t));
}

/// Case does not matter: an expression reads the same whatever mixture of ASCII upper
/// and lower case it is written in, and faults exactly when its lower-case form does.
pub proof fn lemma_parse_ignores_case(input: Seq<char>)
    ensures
        spec_parse_parts(lower(input)) == spec_parse_parts(input),
        parse_faults(lower(input)) == parse_faults(input),
{
    lemma_words_lower(input);
    let t = words(input);
    let t2 = words(lower(input));
    assert(t2.len() == t.len());
    assert forall|p: int| #[trigger] token_at(t2, p) == token_at(t, p) by {
        if 0 <= p < t.len() {
            assert(t2[p] == lower(t[p]));
            lemma_lower_idempotent(t[p]);
        }
    }
    assert(spec_parse_frequency(t2, 0) == spec_parse_frequency(t, 0));
    if let Ok((f, p1)) = spec_parse_frequency(t, 0) {
        assert(spec_parse_day(t2, p1) == spec_parse_day(t, p1));
        if let Ok((d, p2)) = spec_parse_day(t, p1) {
            assert(after_filler(t2, p2) == after_filler(t, p2));
        }
    }
    assert(spec_parse_prefix(t2) == spec_parse_prefix(t));
    if let Ok((f, d, p)) = spec_parse_prefix(t) {
        if p < t.len() {
            lemma_lower_idempotent(t[p]);
            assert(t2[p] == lower(t[p]));
            assert(spec_parse_time(t2[p]) == spec_parse_time(t[p]));
            assert(pm_hour_overflows(t2[p]) == pm_hour_overflows(t[p]));
        }
    }
}

/// A well-formed schedule's description, parsed at any moment `now`, gives a schedule
/// with the same day and time and the same kind of frequency; apart from an "every
/// other" parity, which is pinned again at `now`, it is the schedule itself. The one
/// exception is an "every other" weekday schedule parsed in the calendar's last year,
/// which gives the clock error.
pub proof fn lemma_description_parses_back(s: Schedule, now: LocalDateTime)
    requires
        s.is_well_formed(),
        s.day is Tomorrow ==> s.frequency == Frequency::Next,
    ensures
        !(clock_decides(s.frequency, s.day) && now.date.year >= MAX_YEAR) ==> spec_parse(
            description_text(s),
            now,
        ) == Ok::<Schedule, ParseErrorView>(
            finish_schedule(raw_frequency(s.frequency), s.day, s.time, now),
        ),
        clock_decides(s.frequency, s.day) && now.date.year >= MAX_YEAR ==> spec_parse(
            description_text(s),
            now,
        ) == Err::<Schedule, ParseErrorView>(ParseErrorView::ClockOutOfRange),
        !(s.frequency is EveryOther) ==> spec_parse(description_text(s), now) == Ok::<
            Schedule,
            ParseErrorView,
        >(s),
        s.frequency is EveryOther ==> finish_schedule(
            raw_frequency(s.frequency),
            s.day,
            s.time,
            now,
        ).frequency is EveryOther,
        !parse_faults(description_text(s)),
{
    lemma_description_round_trip(s);
}

/// [`parse_weekday`] reads exactly the lower-case full names of the weekdays and their
/// first three letters: a word reads as weekday `w` if and only if it is `w`'s name as
/// [`crate::schedule::weekday_name`] gives it, or the first three letters of that name.
#[verifier::spinoff_prover]
#[verifier::rlimit(60)]
pub proof fn lemma_weekday_words(s: Seq<char>, w: Weekday)
    ensures
        weekday_word(s) == Some(w) <==> (s == weekday_text(w) || s == weekday_text(w).take(3)),
{
    reveal_strlit("monday");
    reveal_strlit("mon");
    reveal_strlit("tuesday");
    reveal_strlit("tue");
    reveal_strlit("wednesday");
    reveal_strlit("wed");
    reveal_strlit("thursday");
    reveal_strlit("thu");
    reveal_strlit("friday");
    reveal_strlit("fri");
    reveal_strlit("saturday");
    reveal_strlit("sat");
    reveal_strlit("sunday");
    reveal_strlit("sun");
    assert("monday"@.take(3) =~= "mon"@);
    assert("tuesday"@.take(3) =~= "tue"@);
    assert("wednesday"@.take(3) =~= "wed"@);
    assert("thursday"@.take(3) =~= "thu"@);
    assert("friday"@.take(3) =~= "fri"@);
    assert("saturday"@.take(3) =~= "sat"@);
    assert("sunday"@.take(3) =~= "sun"@);
    let names: Seq<Seq<char>> = seq![
        "monday"@,
        "mon"@,
        "tuesday"@,
        "tue"@,
        "wednesday"@,
        "wed"@,
        "thursday"@,
        "thu"@,
        "friday"@,
        "fri"@,
        "saturday"@,
        "sat"@,
        "sunday"@,
        "sun"@,
    ];
    // Distinct names differ in length or in one of their first two letters.
    assert forall|i: int, j: int| 0 <= i < 14 && 0 <= j < 14 && i != j implies #[trigger] names[i]
        != #[trigger] names[j] by {
        if names[i].len() == names[j].len() {
            assert(names[i][0] != names[j][0] || names[i][1] != names[j][1]);
        }
    }
}

} // verus!
