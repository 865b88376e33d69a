//! Times of day, and the `HH:MM` arguments that name them.

use crate::availability::QueryWindow;
use crate::text::{
    chars_of, find_char, first_position, is_digit, lemma_first_position, lemma_first_position_is,
    lemma_leading_zero, read_u32, unsigned_literal,
};
use chrono::NaiveTime;
use vstd::prelude::*;
use vstd::slice::*;

verus! {

broadcast use vstd::slice::group_slice_axioms;

/// Seconds in a day.
pub const SECONDS_PER_DAY: u32 = 86_400;

/// The length of a window whose end is not given.
pub const DEFAULT_WINDOW_SECONDS: u32 = 3600;

/// The pattern of a time in the report: the hour on the twelve-hour clock,
/// the minute, and `am` or `pm`.
pub const LABEL_PATTERN: &'static str = "%I:%M%P";

/// A time of day on the local clock, to the second.
#[derive(Clone, Copy, Debug, PartialEq, Eq, Structural)]
pub struct ClockTime {
    seconds: u32,
}

/// Why an `HH:MM` argument names no time.
#[derive(Clone, Copy, Debug, PartialEq, Eq, Structural)]
pub enum TimeParseError {
    /// The text in front of the first colon is not a number.
    InvalidHour,
    /// The hour is larger than 23.
    HourOutOfRange,
    /// The argument holds no colon, so no minute.
    MissingMinute,
    /// The text behind the first colon is not a number.
    InvalidMinute,
    /// The minute is larger than 59.
    MinuteOutOfRange,
}

/// The digit that stands for a number below ten.
pub open spec fn digit_char(d: nat) -> char {
    seq!['0', '1', '2', '3', '4', '5', '6', '7', '8', '9'][d as int]
}

/// A number below a hundred in two digits.
pub open spec fn two_digits(n: nat) -> Seq<char> {
    seq![digit_char(n / 10), digit_char(n % 10)]
}

/// The hour on the twelve-hour clock, from 1 to 12.
pub open spec fn hour12(hour: nat) -> nat {
    if hour % 12 == 0 {
        12
    } else {
        hour % 12
    }
}

/// A time of day as the report shows it: the hour on the twelve-hour clock
/// and the minute, two digits each, with a colon between, then `am` before
/// noon and `pm` from noon on.
pub open spec fn label_text(hour: nat, minute: nat) -> Seq<char> {
    two_digits(hour12(hour)) + seq![':'] + two_digits(minute) + if hour < 12 {
        seq!['a', 'm']
    } else {
        seq!['p', 'm']
    }
}

/// Writes a time of day in the pattern `LABEL_PATTERN` with `chrono`:
/// `NaiveTime::from_hms_opt` makes the time, `NaiveTime::format` and
/// `DelayedFormat::write_to` write it.
///
/// Taken on trust, as `chrono` documents its pattern items and as its source
/// shows them: a time within the day exists; `%I` is the hour on the
/// twelve-hour clock and `%M` the minute, both padded with a zero to two
/// digits; `%P` is `am` or `pm` in small letters, the crate being built
/// without locales; so the writing succeeds and gives `label_text`.
#[verifier::external_body]
fn write_time(hour: u32, minute: u32, second: u32, pattern: &str) -> (text: Option<String>)
    requires
        hour < 24,
        minute < 60,
        second < 60,
        pattern@ == LABEL_PATTERN@,
    ensures
        text.deep_view() == Some(label_text(hour as nat, minute as nat)),
{
    let time = NaiveTime::from_hms_opt(hour, minute, second)?;
    let mut text = String::new();
    time.format(pattern).write_to(&mut text).ok()?;
    Some(text)
}

/// The text of the hour in an argument: all in front of the first colon.
pub open spec fn hour_text(s: Seq<char>) -> Seq<char> {
    s.take(first_position(s, ':'))
}

/// The text of the minute in an argument: what stands between the first
/// colon and the second, or the end; `None` where there is no colon.
pub open spec fn minute_text(s: Seq<char>) -> Option<Seq<char>> {
    let colon = first_position(s, ':');
    if colon < s.len() {
        let rest = s.skip(colon + 1);
        Some(rest.take(first_position(rest, ':')))
    } else {
        None
    }
}

/// The time that an argument names, in seconds since midnight. The hour is
/// judged first, then the minute.
pub open spec fn time_of_text(s: Seq<char>) -> Result<nat, TimeParseError> {
    match unsigned_literal(hour_text(s), u32::MAX as nat) {
        None => Err(TimeParseError::InvalidHour),
        Some(hour) => if hour > 23 {
            Err(TimeParseError::HourOutOfRange)
        } else {
            match minute_text(s) {
                None => Err(TimeParseError::MissingMinute),
                Some(text) => match unsigned_literal(text, u32::MAX as nat) {
                    None => Err(TimeParseError::InvalidMinute),
                    Some(minute) => if minute > 59 {
                        Err(TimeParseError::MinuteOutOfRange)
                    } else {
                        Ok(hour * 3600 + minute * 60)
                    },
                },
            }
        },
    }
}

/// What an optional argument resolves to, in seconds since midnight, when
/// `fallback` stands in for an absent argument.
pub open spec fn resolved(raw: Option<Seq<char>>, fallback: nat) -> Result<nat, TimeParseError> {
    match raw {
        None => Ok(fallback),
        Some(text) => time_of_text(text),
    }
}

/// The time of day `seconds` after the time of day `from`.
pub open spec fn later(from: nat, seconds: nat) -> nat {
    (from + seconds) % (SECONDS_PER_DAY as nat)
}

/// The start and the end that two optional arguments resolve to, in seconds
/// since midnight: the start falls back on `now`, the end on one default
/// window after the resolved start.
pub open spec fn window_of(start: Option<Seq<char>>, end: Option<Seq<char>>, now: nat) -> Result<
    (nat, nat),
    TimeParseError,
> {
    match resolved(start, now) {
        Err(fault) => Err(fault),
        Ok(from) => match resolved(end, later(from, DEFAULT_WINDOW_SECONDS as nat)) {
            Err(fault) => Err(fault),
            Ok(to) => Ok((from, to)),
        },
    }
}

impl ClockTime {
    #[verifier::type_invariant]
    spec fn within_day(self) -> bool {
        self.seconds < SECONDS_PER_DAY
    }

    /// The time as seconds since midnight.
    pub closed spec fn value(self) -> nat {
        self.seconds as nat
    }

    /// A time of day lies within the day.
    pub open spec fn is_valid(self) -> bool {
        self.value() < SECONDS_PER_DAY
    }

    /// The hour of the time, from 0 to 23.
    pub open spec fn hour_of(self) -> nat {
        self.value() / 3600
    }

    /// The minute of the time, from 0 to 59.
    pub open spec fn minute_of(self) -> nat {
        (self.value() % 3600) / 60
    }

    /// The second of the time, from 0 to 59.
    pub open spec fn second_of(self) -> nat {
        self.value() % 60
    }

    /// Two times that are as many seconds after midnight are the same time.
    pub proof fn lemma_value_decides(self, other: ClockTime)
        ensures
            self.value() == other.value() <==> self == other,
    {
    }

    /// The time with the given hour, minute and second, if there is one.
    pub fn new(hour: u32, minute: u32, second: u32) -> (time: Option<ClockTime>)
        ensures
            time is Some <==> hour < 24 && minute < 60 && second < 60,
            time matches Some(t) ==> t.is_valid() && t.value() == hour * 3600 + minute * 60
                + second,
            time matches Some(t) ==> t.hour_of() == hour && t.minute_of() == minute
                && t.second_of() == second,
    {
        if hour < 24 && minute < 60 && second < 60 {
            Some(ClockTime { seconds: hour * 3600 + minute * 60 + second })
        } else {
            None
        }
    }

    /// The time that lies `seconds` after midnight, counted round the clock.
    pub fn from_seconds(seconds: u32) -> (time: ClockTime)
        ensures
            time.is_valid(),
            time.value() == seconds % SECONDS_PER_DAY,
    {
        ClockTime { seconds: seconds % SECONDS_PER_DAY }
    }

    /// Seconds since midnight.
    pub fn seconds_from_midnight(&self) -> (seconds: u32)
        ensures
            seconds == self.value(),
            self.is_valid(),
    {
        proof {
            use_type_invariant(self);
        }
        self.seconds
    }

    /// The hour, from 0 to 23.
    pub fn hour(&self) -> (hour: u32)
        ensures
            hour == self.hour_of(),
            hour < 24,
    {
        proof {
            use_type_invariant(self);
        }
        self.seconds / 3600
    }

    /// The minute, from 0 to 59.
    pub fn minute(&self) -> (minute: u32)
        ensures
            minute == self.minute_of(),
            minute < 60,
    {
        (self.seconds % 3600) / 60
    }

    /// The second, from 0 to 59.
    pub fn second(&self) -> (second: u32)
        ensures
            second == self.second_of(),
            second < 60,
    {
        self.seconds % 60
    }

    /// The time as the report shows it.
    pub fn label(&self) -> (text: String)
        ensures
            text@ == label_text(self.hour_of(), self.minute_of()),
    {
        write_time(self.hour(), self.minute(), self.second(), LABEL_PATTERN).unwrap()
    }

    /// The time of day `seconds` later, counted round the clock.
    pub fn plus_seconds(&self, seconds: u32) -> (time: ClockTime)
        ensures
            time.is_valid(),
            time.value() == later(self.value(), seconds as nat),
    {
        proof {
            use_type_invariant(self);
        }
        let sum = self.seconds as u64 + seconds as u64;
        ClockTime { seconds: (sum % 86_400) as u32 }
    }
}

impl QueryWindow {
    /// The window from `start` to `end`.
    pub fn between(start: ClockTime, end: ClockTime) -> (window: QueryWindow)
        ensures
            window.start == start.value(),
            window.end == end.value(),
    {
        QueryWindow { start: start.seconds_from_midnight(), end: end.seconds_from_midnight() }
    }
}

/// The time that an argument names lies within the day and on a full
/// minute; its hour and its minute are the numbers that the argument holds.
pub proof fn lemma_time_of_text_fields(s: Seq<char>)
    requires
        time_of_text(s) is Ok,
    ensures
        ({
            let seconds = time_of_text(s)->Ok_0;
            &&& seconds < SECONDS_PER_DAY
            &&& seconds % 60 == 0
            &&& unsigned_literal(hour_text(s), u32::MAX as nat) == Some(seconds / 3600)
            &&& minute_text(s) is Some
            &&& unsigned_literal(minute_text(s)->0, u32::MAX as nat) == Some((seconds % 3600) / 60)
        }),
{
}

/// A zero in front of a number that starts with a digit changes nothing.
pub proof fn lemma_zero_padding(s: Seq<char>, limit: nat)
    requires
        s.len() > 0,
        is_digit(s[0]),
    ensures
        unsigned_literal(seq!['0'] + s, limit) == unsigned_literal(s, limit),
{
    lemma_leading_zero(s);
    assert((seq!['0'] + s)[0] == '0');
}

/// A zero in front of an argument whose hour starts with a digit changes
/// nothing: `08:05` names the time that `8:05` names.
pub proof fn lemma_zero_padded_hour(s: Seq<char>)
    requires
        s.len() > 0,
        is_digit(s[0]),
    ensures
        time_of_text(seq!['0'] + s) == time_of_text(s),
{
    let padded = seq!['0'] + s;
    let colon = first_position(s, ':');
    lemma_first_position(s, ':');
    if colon < s.len() {
        assert(padded[colon + 1] == s[colon]);
    }
    assert forall|j: int| 0 <= j < colon + 1 implies padded[j] != ':' by {
        if j > 0 {
            assert(padded[j] == s[j - 1]);
        }
    }
    lemma_first_position_is(padded, ':', colon + 1);
    assert(hour_text(padded) =~= seq!['0'] + hour_text(s));
    assert(hour_text(s)[0] == s[0]);
    lemma_zero_padding(hour_text(s), u32::MAX as nat);
    if colon < s.len() {
        assert(padded.skip(colon + 2) =~= s.skip(colon + 1));
    }
}

/// Reads an `HH:MM` argument.
pub fn parse_time(text: &str) -> (result: Result<ClockTime, TimeParseError>)
    ensures
        match result {
            Ok(time) => time.is_valid() && time_of_text(text@) == Ok::<nat, TimeParseError>(
                time.value(),
            ),
            Err(fault) => time_of_text(text@) == Err::<nat, TimeParseError>(fault),
        },
{
    let chars = chars_of(text);
    let s = chars.as_slice();
    let colon = find_char(s, ':');
    proof {
        lemma_first_position(s@, ':');
    }
    let hour = match read_u32(slice_subrange(s, 0, colon)) {
        Some(hour) => hour,
        None => {
            return Err(TimeParseError::InvalidHour);
        },
    };
    if hour > 23 {
        return Err(TimeParseError::HourOutOfRange);
    }
    if colon >= s.len() {
        return Err(TimeParseError::MissingMinute);
    }
    let rest = slice_subrange(s, colon + 1, s.len());
    assert(rest@ =~= s@.skip(colon + 1));
    let end = find_char(rest, ':');
    proof {
        lemma_first_position(rest@, ':');
    }
    let minute = match read_u32(slice_subrange(rest, 0, end)) {
        Some(minute) => minute,
        None => {
            return Err(TimeParseError::InvalidMinute);
        },
    };
    if minute > 59 {
        return Err(TimeParseError::MinuteOutOfRange);
    }
    Ok(ClockTime { seconds: hour * 3600 + minute * 60 })
}

/// Resolves an optional `HH:MM` argument: the time it names, with the
/// seconds at zero, or `default` where the argument is absent.
pub fn resolve_time(raw: Option<&str>, default: ClockTime) -> (result: Result<
    ClockTime,
    TimeParseError,
>)
    ensures
        raw is None ==> result == Ok::<ClockTime, TimeParseError>(default),
        raw matches Some(text) ==> match result {
            Ok(time) => time.is_valid() && time_of_text(text@) == Ok::<nat, TimeParseError>(
                time.value(),
            ),
            Err(fault) => time_of_text(text@) == Err::<nat, TimeParseError>(fault),
        },
{
    match raw {
        Some(text) => parse_time(text),
        None => Ok(default),
    }
}

/// The seconds since midnight of the two ends of a resolved window.
pub open spec fn ends_of(result: Result<(ClockTime, ClockTime), TimeParseError>) -> Result<
    (nat, nat),
    TimeParseError,
> {
    match result {
        Ok(ends) => Ok((ends.0.value(), ends.1.value())),
        Err(fault) => Err(fault),
    }
}

/// The text of an optional argument.
pub open spec fn text_of(raw: Option<&str>) -> Option<Seq<char>> {
    match raw {
        Some(text) => Some(text@),
        None => None,
    }
}

/// Resolves the start and the end of a query from their optional arguments.
/// An absent start is `now`; an absent end lies one default window behind the
/// resolved start. A fault in the start comes before a fault in the end.
pub fn resolve_window(start: Option<&str>, end: Option<&str>, now: ClockTime) -> (result: Result<
    (ClockTime, ClockTime),
    TimeParseError,
>)
    ensures
        ends_of(result) == window_of(text_of(start), text_of(end), now.value()),
{
    let from = match resolve_time(start, now) {
        Ok(from) => from,
        Err(fault) => {
            return Err(fault);
        },
    };
    let to = match resolve_time(end, from.plus_seconds(DEFAULT_WINDOW_SECONDS)) {
        Ok(to) => to,
        Err(fault) => {
            return Err(fault);
        },
    };
    Ok((from, to))
}

} // verus!
