use timelog::ast::{DayRecord, Duration, Event, EventInfo, File};
use timelog::calendar::{Date, DateTime, Time};
use timelog::parser::Parser;
use timelog::processing::calc_weekly_records;

fn parse(text: &str) -> File {
    let mut parser = Parser::new(text.chars().collect());
    parser.parse_file().unwrap()
}

fn at(y: i32, m: u32, d: u32, h: u32, min: u32) -> DateTime {
    DateTime { date: Date::from_ymd(y, m, d).unwrap(), time: Time::from_hms(h, min, 0).unwrap() }
}

fn total(text: &str, today: DateTime) -> u32 {
    calc_weekly_records(&parse(text), today).unwrap().secs
}

#[test]
fn default_window_starts_today_at_six() {
    // 2024-01-03 is a Wednesday.
    let today = at(2024, 1, 3, 10, 0);
    assert_eq!(total("2024-1-3\n6:00 - 1h\n", today), 3600);
    assert_eq!(total("2024-1-3\n5:59 - 1h\n", today), 0);
    assert_eq!(total("2024-1-2\n23:00 - 1h\n", today), 0);
}

#[test]
fn instant_just_before_window_start_is_outside() {
    let today = at(2024, 1, 3, 10, 0);
    let early = DateTime { date: today.date, time: Time { secs: 6 * 3600 - 1, nanos: 999_999_000 } };
    let file = parse("2024-1-3\n6:00 - 1h\n");
    // a reference moment one microsecond before six moves the window a week back
    assert_eq!(calc_weekly_records(&file, early).unwrap().secs, 3600);
    assert_eq!(total("2024-1-2\n23:00 - 1h\n", early), 3600);
    assert_eq!(total("2023-12-27\n5:59 - 1h\n", early), 0);
    assert_eq!(total("2023-12-27\n6:00 - 1h\n", early), 3600);
}

#[test]
fn records_before_and_after_window() {
    let today = at(2024, 1, 3, 10, 0);
    let text = "2023-12-20\n9:00 - 3h\n\n2024-1-4\n9:00 - 1h30m, 12:00 - 15m\n";
    assert_eq!(total(text, today), 5400 + 900);
}

#[test]
fn settings_move_the_window() {
    let today = at(2024, 1, 3, 10, 0);
    let text = "---\n[start]\nweekday = \"Monday\"\ntime = \"08:00:00\"\n---\n2024-1-1\n8:00 - 1h\n7:59 - 1h\n\n2023-12-31\n9:00 - 2h\n";
    assert_eq!(total(text, today), 3600);
}

#[test]
fn total_wraps_at_a_day() {
    let today = at(2024, 1, 3, 10, 0);
    let text = "2024-1-3\n7:00 - 20h\n8:00 - 5h\n";
    assert_eq!(total(text, today), 3600);
}

#[test]
fn empty_log_totals_zero() {
    let today = at(2024, 1, 3, 10, 0);
    let r = calc_weekly_records(&parse(""), today).unwrap();
    assert_eq!(r, Time::midnight());
}

fn one_interval(date: Date, time: Time, secs: u128) -> File {
    File {
        settings: None,
        records: vec![DayRecord {
            date,
            events: vec![Event { tags: None, info: vec![EventInfo { time, duration: Duration { secs } }] }],
        }],
    }
}

#[test]
fn event_one_microsecond_before_window_start_is_excluded() {
    let today = at(2024, 1, 3, 10, 0);
    let before = Time { secs: 6 * 3600 - 1, nanos: 999_999_000 };
    let exactly = Time { secs: 6 * 3600, nanos: 0 };
    let file = one_interval(today.date, before, 3600);
    assert_eq!(calc_weekly_records(&file, today).unwrap().secs, 0);
    let file = one_interval(today.date, exactly, 3600);
    assert_eq!(calc_weekly_records(&file, today).unwrap().secs, 3600);
}
