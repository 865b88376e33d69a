use chrono::{Local, Timelike};
use rustzilla::availability::QueryWindow;
use rustzilla::clock::{parse_time, resolve_time, resolve_window, ClockTime, TimeParseError};

fn make_local_time(hour: u32, minute: u32) -> ClockTime {
    ClockTime::new(hour, minute, 0).unwrap()
}

fn local_now() -> ClockTime {
    let now = Local::now();
    ClockTime::new(now.hour(), now.minute(), now.second()).unwrap()
}

#[test]
fn parses_simple_time() {
    let time = "8:30";
    let default = make_local_time(12, 0);
    let expected = make_local_time(8, 30);

    assert_eq!(resolve_time(Some(time), default).unwrap(), expected);
}

#[test]
fn parses_time_with_zero_padding() {
    let time = "08:05";
    let default = make_local_time(12, 0);
    let expected = make_local_time(8, 5);

    assert_eq!(resolve_time(Some(time), default).unwrap(), expected);
}

#[test]
fn fails_when_hours_gt_23() {
    let time = "24:00";

    assert!(
        resolve_time(Some(time), local_now()).is_err(),
        "should not be able to parse hours greater than 24"
    );
}

#[test]
fn fails_when_hours_not_numeric() {
    let time = "hello:00";

    assert!(
        resolve_time(Some(time), local_now()).is_err(),
        "should not be able to parse non-numeric hours"
    );
}

#[test]
fn absent_argument_gives_the_default() {
    for seconds in [0u32, 1, 3599, 43_200, 86_399] {
        let default = ClockTime::from_seconds(seconds);
        assert_eq!(resolve_time(None, default), Ok(default));
    }
    let default = ClockTime::new(17, 45, 12).unwrap();
    assert_eq!(resolve_time(None, default), Ok(default));
}

#[test]
fn given_argument_ignores_the_default() {
    let expected = Ok(make_local_time(8, 30));
    assert_eq!(resolve_time(Some("8:30"), make_local_time(0, 0)), expected);
    assert_eq!(resolve_time(Some("8:30"), make_local_time(23, 59)), expected);
    assert_eq!(resolve_time(Some("8:30"), ClockTime::new(12, 0, 59).unwrap()), expected);
}

#[test]
fn parsed_time_has_zero_seconds() {
    let time = parse_time("8:30").unwrap();
    assert_eq!(time.hour(), 8);
    assert_eq!(time.minute(), 30);
    assert_eq!(time.second(), 0);
    assert_eq!(time.seconds_from_midnight(), 30_600);
}

#[test]
fn zero_padding_changes_nothing() {
    assert_eq!(parse_time("08:05"), parse_time("8:5"));
    assert_eq!(parse_time("008:0005"), parse_time("8:5"));
    assert_eq!(parse_time("00:00"), Ok(ClockTime::from_seconds(0)));
}

#[test]
fn each_time_fault_has_its_input() {
    assert_eq!(parse_time("hello:00"), Err(TimeParseError::InvalidHour));
    assert_eq!(parse_time(""), Err(TimeParseError::InvalidHour));
    assert_eq!(parse_time(":30"), Err(TimeParseError::InvalidHour));
    assert_eq!(parse_time("-1:30"), Err(TimeParseError::InvalidHour));
    assert_eq!(parse_time(" 8:30"), Err(TimeParseError::InvalidHour));
    assert_eq!(parse_time("4294967296:00"), Err(TimeParseError::InvalidHour));
    assert_eq!(parse_time("24:00"), Err(TimeParseError::HourOutOfRange));
    assert_eq!(parse_time("4294967295:00"), Err(TimeParseError::HourOutOfRange));
    assert_eq!(parse_time("8"), Err(TimeParseError::MissingMinute));
    assert_eq!(parse_time("8:"), Err(TimeParseError::InvalidMinute));
    assert_eq!(parse_time("8:3o"), Err(TimeParseError::InvalidMinute));
    assert_eq!(parse_time("8:30 "), Err(TimeParseError::InvalidMinute));
    assert_eq!(parse_time("8:60"), Err(TimeParseError::MinuteOutOfRange));
}

#[test]
fn hour_is_judged_before_minute() {
    assert_eq!(parse_time("24"), Err(TimeParseError::HourOutOfRange));
    assert_eq!(parse_time("x"), Err(TimeParseError::InvalidHour));
    assert_eq!(parse_time("25:99"), Err(TimeParseError::HourOutOfRange));
    assert_eq!(parse_time("x:99"), Err(TimeParseError::InvalidHour));
}

#[test]
fn edges_of_the_clock_parse() {
    assert_eq!(parse_time("0:0"), Ok(make_local_time(0, 0)));
    assert_eq!(parse_time("23:59"), Ok(make_local_time(23, 59)));
    assert_eq!(parse_time("+7:+15"), Ok(make_local_time(7, 15)));
}

#[test]
fn segments_behind_the_minute_are_ignored() {
    assert_eq!(parse_time("8:30:99"), Ok(make_local_time(8, 30)));
    assert_eq!(parse_time("8:30:"), Ok(make_local_time(8, 30)));
    assert_eq!(parse_time("8:30:xyz:1"), Ok(make_local_time(8, 30)));
}

#[test]
fn clock_time_rejects_what_is_off_the_clock() {
    assert_eq!(ClockTime::new(24, 0, 0), None);
    assert_eq!(ClockTime::new(0, 60, 0), None);
    assert_eq!(ClockTime::new(0, 0, 60), None);
    let last = ClockTime::new(23, 59, 59).unwrap();
    assert_eq!(last.seconds_from_midnight(), 86_399);
    assert_eq!((last.hour(), last.minute(), last.second()), (23, 59, 59));
}

#[test]
fn clock_time_counts_round_the_clock() {
    assert_eq!(ClockTime::from_seconds(86_400), ClockTime::from_seconds(0));
    assert_eq!(ClockTime::from_seconds(90_000).seconds_from_midnight(), 3600);
    let late = make_local_time(23, 30);
    assert_eq!(late.plus_seconds(3600), make_local_time(0, 30));
    assert_eq!(late.plus_seconds(0), late);
    assert_eq!(late.plus_seconds(u32::MAX).seconds_from_midnight(), 21_495);
    assert_eq!(make_local_time(8, 30).plus_seconds(3600), make_local_time(9, 30));
}

#[test]
fn window_defaults_to_now_and_one_hour() {
    let now = ClockTime::new(10, 15, 42).unwrap();
    let (start, end) = resolve_window(None, None, now).unwrap();
    assert_eq!(start, now);
    assert_eq!(end, ClockTime::new(11, 15, 42).unwrap());
}

#[test]
fn default_end_follows_the_resolved_start() {
    let now = ClockTime::new(10, 15, 42).unwrap();
    let (start, end) = resolve_window(Some("14:00"), None, now).unwrap();
    assert_eq!(start, make_local_time(14, 0));
    assert_eq!(end, make_local_time(15, 0));
    let other = resolve_window(Some("14:00"), None, make_local_time(3, 3)).unwrap();
    assert_eq!(other, (start, end));
}

#[test]
fn default_end_wraps_at_midnight() {
    let (start, end) = resolve_window(Some("23:30"), None, make_local_time(1, 0)).unwrap();
    assert_eq!(start.seconds_from_midnight(), 84_600);
    assert_eq!(end.seconds_from_midnight(), 1_800);
}

#[test]
fn given_end_is_taken_as_it_is() {
    let now = make_local_time(10, 0);
    let (start, end) = resolve_window(Some("9:00"), Some("8:00"), now).unwrap();
    assert_eq!(start, make_local_time(9, 0));
    assert_eq!(end, make_local_time(8, 0));
    let (start, end) = resolve_window(None, Some("18:45"), now).unwrap();
    assert_eq!((start, end), (now, make_local_time(18, 45)));
}

#[test]
fn start_fault_comes_before_end_fault() {
    let now = make_local_time(10, 0);
    assert_eq!(resolve_window(Some("25:00"), Some("x"), now), Err(TimeParseError::HourOutOfRange));
    assert_eq!(resolve_window(Some("9:00"), Some("9:61"), now), Err(TimeParseError::MinuteOutOfRange));
    assert_eq!(resolve_window(None, Some("9"), now), Err(TimeParseError::MissingMinute));
}

#[test]
fn window_between_two_times() {
    let window = QueryWindow::between(make_local_time(1, 0), make_local_time(2, 0));
    assert_eq!(window, QueryWindow::new(3600, 7200));
}

#[test]
fn label_shows_the_twelve_hour_clock() {
    assert_eq!(make_local_time(8, 30).label(), "08:30am");
    assert_eq!(make_local_time(13, 5).label(), "01:05pm");
    assert_eq!(make_local_time(0, 0).label(), "12:00am");
    assert_eq!(make_local_time(12, 0).label(), "12:00pm");
    assert_eq!(make_local_time(11, 59).label(), "11:59am");
    assert_eq!(ClockTime::new(23, 59, 59).unwrap().label(), "11:59pm");
}

#[test]
fn label_of_every_minute_of_the_day() {
    for seconds in (0..86_400u32).step_by(60) {
        let time = ClockTime::from_seconds(seconds);
        let (hour, minute) = (time.hour(), time.minute());
        let twelve = if hour % 12 == 0 { 12 } else { hour % 12 };
        let half = if hour < 12 { "am" } else { "pm" };
        assert_eq!(time.label(), format!("{:02}:{:02}{}", twelve, minute, half));
    }
}
