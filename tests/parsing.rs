use timelog::ast::{Duration, File};
use timelog::calendar::{Date, Time, Weekday};
use timelog::parser::{ParseError, ParseErrorKind, Parser};
use timelog::settings::{SettingsError, Start};

fn parse(text: &str) -> Result<File, ParseError> {
    let mut parser = Parser::new(text.chars().collect());
    parser.parse_file()
}

fn first_duration(text: &str) -> Result<Duration, ParseError> {
    let file = parse(text)?;
    Ok(file.records[0].events[0].info[0].duration)
}

fn kind_of(text: &str) -> ParseErrorKind {
    match parse(text) {
        Ok(file) => panic!("parsed unexpectedly: {:?}", file),
        Err(e) => e.kind,
    }
}

#[test]
fn date_line_gives_empty_record() {
    let file = parse("2024-3-5\n").unwrap();
    assert_eq!(file.settings, None);
    assert_eq!(file.records.len(), 1);
    assert_eq!(file.records[0].date, Date::from_ymd(2024, 3, 5).unwrap());
    assert!(file.records[0].events.is_empty());
}

#[test]
fn padded_date_and_trailing_spaces() {
    let file = parse("2024-02-29   \n").unwrap();
    assert_eq!(file.records[0].date, Date::from_ymd(2024, 2, 29).unwrap());
}

#[test]
fn day_numbers_follow_the_calendar() {
    assert_eq!(Date::from_ymd(1, 1, 1).unwrap().days, 1);
    assert_eq!(Date::from_ymd(1970, 1, 1).unwrap().days, 719163);
    assert_eq!(Date::from_ymd(2024, 1, 3).unwrap().days - Date::from_ymd(2023, 12, 27).unwrap().days, 7);
    assert_eq!(Weekday::of_date(Date::from_ymd(2024, 1, 3).unwrap()), Weekday::Wed);
    assert_eq!(Weekday::of_date(Date::from_ymd(2024, 1, 7).unwrap()), Weekday::Sun);
}

#[test]
fn invalid_dates_are_refused() {
    assert!(matches!(kind_of("2024-02-30\n"), ParseErrorKind::InvalidDate));
    assert!(matches!(kind_of("2023-02-29\n"), ParseErrorKind::InvalidDate));
    assert!(matches!(kind_of("2024-4-31\n"), ParseErrorKind::InvalidDate));
    assert!(matches!(kind_of("2024-0-1\n"), ParseErrorKind::InvalidDate));
    assert!(matches!(kind_of("99999999999-1-1\n"), ParseErrorKind::InvalidDate));
    assert_eq!(Date::from_ymd(2024, 2, 30), None);
}

#[test]
fn malformed_date_reports_line_one() {
    let err = parse("2024-13-01\n").unwrap_err();
    assert!(matches!(err.kind, ParseErrorKind::InvalidDate));
    assert_eq!(err.line, 1);
    assert_eq!(err.column, 11);
}

#[test]
fn error_position_on_a_later_line() {
    let err = parse("2024-1-1\n9:00 - 1x\n").unwrap_err();
    assert!(matches!(err.kind, ParseErrorKind::InvalidDurationFormat));
    assert_eq!(err.line, 2);
    assert_eq!(err.column, 10);
}

#[test]
fn truncated_tag_is_unexpected_eof() {
    assert!(matches!(kind_of("2024-1-1\n[wo"), ParseErrorKind::UnexpectedEof));
    assert!(matches!(kind_of("[wo"), ParseErrorKind::UnexpectedEof));
    assert!(matches!(kind_of("2024-1-1\n[work(detail"), ParseErrorKind::UnexpectedEof));
}

#[test]
fn durations_in_unit_order() {
    assert_eq!(first_duration("2024-1-1\n9:00 - 1h30m\n").unwrap(), Duration { secs: 5400 });
    assert_eq!(first_duration("2024-1-1\n9:00 - 45m\n").unwrap(), Duration { secs: 2700 });
    assert_eq!(first_duration("2024-1-1\n9:00 - 2h\n").unwrap(), Duration { secs: 7200 });
    assert_eq!(first_duration("2024-1-1\n9:00 - 1h2m3s\n").unwrap(), Duration { secs: 3723 });
    assert_eq!(first_duration("2024-1-1\n9:00-10s\n").unwrap(), Duration { secs: 10 });
}

#[test]
fn durations_out_of_order_or_unknown_unit() {
    assert!(matches!(kind_of("2024-1-1\n9:00 - 30m1h\n"), ParseErrorKind::InvalidDurationFormat));
    assert!(matches!(kind_of("2024-1-1\n9:00 - 1m1m\n"), ParseErrorKind::InvalidDurationFormat));
    assert!(matches!(kind_of("2024-1-1\n9:00 - 1x\n"), ParseErrorKind::InvalidDurationFormat));
    assert!(matches!(kind_of("2024-1-1\n9:00 - \n"), ParseErrorKind::InvalidDurationFormat));
    assert!(matches!(kind_of("2024-1-1\n9:00 - 5"), ParseErrorKind::UnexpectedEof));
}

#[test]
fn clock_time_out_of_range() {
    assert!(matches!(kind_of("2024-1-1\n24:00 - 1h\n"), ParseErrorKind::InvalidDurationFormat));
    assert!(matches!(kind_of("2024-1-1\n9:60 - 1h\n"), ParseErrorKind::InvalidDurationFormat));
    let file = parse("2024-1-1\n23:59 - 1m\n").unwrap();
    assert_eq!(file.records[0].events[0].info[0].time, Time::from_hms(23, 59, 0).unwrap());
}

#[test]
fn tags_keep_titles_and_details() {
    let file = parse("2024-1-1\n[work(project-x) urgent] 9:00 - 1h\n").unwrap();
    let tags = file.records[0].events[0].tags.clone().unwrap().tags;
    assert_eq!(tags.len(), 2);
    assert_eq!(tags[0].title, "work");
    assert_eq!(tags[0].detail, Some("project-x".to_string()));
    assert_eq!(tags[1].title, "urgent");
    assert_eq!(tags[1].detail, None);
}

#[test]
fn several_intervals_and_records() {
    let text = "2024-1-1\n[a b(c)] 9:00 - 1h30m, 13:15 - 45m\n10:00 - 2h\n\n\n2024-1-2\n8:00 - 1s\n";
    let file = parse(text).unwrap();
    assert_eq!(file.records.len(), 2);
    let day = &file.records[0];
    assert_eq!(day.events.len(), 2);
    assert_eq!(day.events[0].info.len(), 2);
    assert_eq!(day.events[0].info[1].time, Time::from_hms(13, 15, 0).unwrap());
    assert_eq!(day.events[0].info[1].duration, Duration { secs: 2700 });
    assert_eq!(day.events[1].tags, None);
    assert_eq!(file.records[1].date, Date::from_ymd(2024, 1, 2).unwrap());
}

#[test]
fn missing_line_feed_after_date() {
    match kind_of("2024-1-1 x\n") {
        ParseErrorKind::ExpectedChars { expected, found } => {
            assert_eq!(expected, vec!['\n']);
            assert_eq!(found, 'x');
        }
        other => panic!("unexpected {:?}", other),
    }
}

#[test]
fn newline_inside_tags_is_refused() {
    match kind_of("2024-1-1\n[a\n") {
        ParseErrorKind::ExpectedChars { expected, found } => {
            assert_eq!(expected, vec![']']);
            assert_eq!(found, '\n');
        }
        other => panic!("unexpected {:?}", other),
    }
}

#[test]
fn empty_input_is_an_empty_log() {
    let file = parse("").unwrap();
    assert!(file.records.is_empty());
    assert_eq!(file.settings, None);
}

#[test]
fn settings_block_is_read() {
    let text = "---\n[start]\nweekday = \"Monday\"\ntime = \"08:00:00\"\n---\n\n2024-1-1\n";
    let file = parse(text).unwrap();
    let start = file.settings.unwrap().start;
    assert_eq!(start, Start { weekday: Weekday::Mon, time: Time::from_hms(8, 0, 0).unwrap() });
    assert_eq!(file.records.len(), 1);
}

#[test]
fn settings_accept_short_weekday_names() {
    let text = "---\n[start]\nweekday = \"fri\"\ntime = \"17:30:00\"\n---\n";
    let start = parse(text).unwrap().settings.unwrap().start;
    assert_eq!(start.weekday, Weekday::Fri);
    assert_eq!(start.time, Time::from_hms(17, 30, 0).unwrap());
}

#[test]
fn malformed_settings_are_a_config_error() {
    assert!(matches!(
        kind_of("---\nthis is = = not toml\n---\n"),
        ParseErrorKind::TomlError(SettingsError::Syntax(_))
    ));
    assert!(matches!(
        kind_of("---\n[start]\nweekday = \"Someday\"\ntime = \"08:00:00\"\n---\n"),
        ParseErrorKind::TomlError(SettingsError::InvalidWeekday(_))
    ));
    assert!(matches!(
        kind_of("---\n[start]\nweekday = \"Mon\"\ntime = \"25:00:00\"\n---\n"),
        ParseErrorKind::TomlError(SettingsError::InvalidTime(_))
    ));
    assert!(matches!(
        kind_of("---\n[start]\nweekday = \"Mon\"\n---\n"),
        ParseErrorKind::TomlError(SettingsError::MissingField(_))
    ));
    assert!(matches!(
        kind_of("---\nother = 1\n---\n"),
        ParseErrorKind::TomlError(SettingsError::MissingField(_))
    ));
}

#[test]
fn unterminated_settings_block() {
    assert!(matches!(kind_of("---\n[start]\n"), ParseErrorKind::UnexpectedEof));
}

#[test]
fn blanks_before_closing_bracket_add_no_tag() {
    let file = parse("2024-1-1\n[a ] 9:00 - 1h\n").unwrap();
    let tags = file.records[0].events[0].tags.clone().unwrap().tags;
    assert_eq!(tags.len(), 1);
    assert_eq!(tags[0].title, "a");
}

#[test]
fn tag_without_title_is_refused() {
    match kind_of("2024-1-1\n[(x)] 9:00 - 1h\n") {
        ParseErrorKind::ExpectedChars { expected, found } => {
            assert_eq!(expected, vec![']']);
            assert_eq!(found, '(');
        }
        other => panic!("unexpected {:?}", other),
    }
}

#[test]
fn unit_after_seconds_is_refused() {
    assert!(matches!(kind_of("2024-1-1\n9:00 - 1s1m\n"), ParseErrorKind::InvalidDurationFormat));
    assert!(matches!(kind_of("2024-1-1\n9:00 - 1h1h\n"), ParseErrorKind::InvalidDurationFormat));
    assert!(matches!(
        kind_of("2024-1-1\n9:00 - 99999999999999999999h\n"),
        ParseErrorKind::InvalidDurationFormat
    ));
    assert_eq!(first_duration("2024-1-1\n9:00 - 2h30s\n").unwrap(), Duration { secs: 7230 });
}

#[test]
fn event_needs_an_interval() {
    assert!(matches!(kind_of("2024-1-1\n[work]\n"), ParseErrorKind::ExpectedChars { .. }));
    assert!(matches!(kind_of("2024-1-1\n[work]"), ParseErrorKind::UnexpectedEof));
}

#[test]
fn blank_lines_only_give_an_empty_log() {
    let file = parse("\n\n").unwrap();
    assert!(file.records.is_empty());
    assert_eq!(file.settings, None);
}

#[test]
fn records_with_blank_lines_between() {
    let file = parse("2024-1-1\n\n\n2024-1-2\n9:00 - 1h\n").unwrap();
    assert_eq!(file.records.len(), 2);
    assert!(file.records[0].events.is_empty());
    assert_eq!(file.records[1].date, Date::from_ymd(2024, 1, 2).unwrap());
    assert_eq!(file.records[1].events[0].info[0].time, Time::from_hms(9, 0, 0).unwrap());
    assert_eq!(file.records[1].events[0].info[0].duration, Duration { secs: 3600 });
}

#[test]
fn truncated_tag_position() {
    let err = parse("2024-1-1\n[wo").unwrap_err();
    assert!(matches!(err.kind, ParseErrorKind::UnexpectedEof));
    assert_eq!(err.line, 2);
    assert_eq!(err.column, 4);
}

#[test]
fn date_without_line_feed() {
    let err = parse("2024-1-4").unwrap_err();
    assert!(matches!(err.kind, ParseErrorKind::UnexpectedEof));
    assert_eq!(err.line, 1);
    assert_eq!(err.column, 9);
}

#[test]
fn invalid_day_position() {
    let err = parse("2024-02-30\n").unwrap_err();
    assert!(matches!(err.kind, ParseErrorKind::InvalidDate));
    assert_eq!(err.line, 1);
    assert_eq!(err.column, 11);
}

#[test]
fn empty_settings_block_is_a_schema_error() {
    assert!(matches!(
        kind_of("---\n---\n"),
        ParseErrorKind::TomlError(SettingsError::MissingField(_))
    ));
}

#[test]
fn settings_with_single_quoted_values() {
    let text = "---\n[start]\nweekday = 'Mon'\ntime = '08:00:00'\n---\n";
    let start = parse(text).unwrap().settings.unwrap().start;
    assert_eq!(start.weekday, Weekday::Mon);
    assert_eq!(start.time, Time { secs: 8 * 3600, nanos: 0 });
}

#[test]
fn settings_closing_line_cut_short() {
    assert!(matches!(kind_of("---\n[start]\n---"), ParseErrorKind::UnexpectedEof));
    assert!(matches!(kind_of("---\n[start]\n-x-\n"), ParseErrorKind::ExpectedChars { .. }));
}

#[test]
fn text_that_is_no_log_is_refused() {
    assert!(parse("x\n").is_err());
    assert!(parse("99999999999-1-1\n").is_err());
}
