use timetrack::timelog::{LogEvent, ParseError, TimelogEntry};
use timetrack::timestamp::Timestamp;

fn ts(y: u16, mo: u8, d: u8, h: u8, mi: u8) -> Timestamp {
    Timestamp::new(y, mo, d, h, mi, 60).unwrap()
}

#[test]
fn test_parse_line_work() {
    let entry = TimelogEntry::parse_from_str("2019-11-10T16:04+0100\ton");
    let expected = TimelogEntry { time: ts(2019, 11, 10, 16, 4), event: LogEvent::On };
    assert_eq!(entry, Ok(expected));
}

#[test]
fn test_parse_line_resume() {
    let entry = TimelogEntry::parse_from_str("2019-11-10T16:04+0100\tresume");
    let expected = TimelogEntry::new(&ts(2019, 11, 10, 16, 4), LogEvent::Resume);
    assert_eq!(entry, Ok(expected));
}

#[test]
fn test_parse_line_task() {
    let entry = TimelogEntry::parse_from_str("2019-11-10T16:04+0100\tstart\tRefactor code");
    let expected = TimelogEntry::new(
        &ts(2019, 11, 10, 16, 4),
        LogEvent::Start("Refactor code".to_string()),
    );
    assert_eq!(entry, Ok(expected));
}

#[test]
fn test_parse_line_trailing() {
    let entry =
        TimelogEntry::parse_from_str("2019-11-10T16:04+0100\tstart\tfoobar\tthis \tis trailing");
    let expected = Err(ParseError::TrailingContent("this is trailing".to_string()));
    assert_eq!(entry, expected);
}

#[test]
fn test_parse_all_simple_keywords() {
    for (kw, ev) in [
        ("on", LogEvent::On),
        ("off", LogEvent::Off),
        ("resume", LogEvent::Resume),
        ("cancel", LogEvent::Cancel),
        ("stop", LogEvent::Stop),
    ] {
        let line = format!("2019-11-10T16:04+0100\t{}", kw);
        let expected = TimelogEntry::new(&ts(2019, 11, 10, 16, 4), ev);
        assert_eq!(TimelogEntry::parse_from_str(&line), Ok(expected));
    }
}

#[test]
fn test_parse_rename_with_and_without_from() {
    let entry = TimelogEntry::parse_from_str("2019-11-10T16:04+0100\trename\tNew");
    let expected = TimelogEntry::new(
        &ts(2019, 11, 10, 16, 4),
        LogEvent::Rename { to: "New".to_string(), from: None },
    );
    assert_eq!(entry, Ok(expected));

    let entry = TimelogEntry::parse_from_str("2019-11-10T16:04+0100\trename\tNew\tOld");
    let expected = TimelogEntry::new(
        &ts(2019, 11, 10, 16, 4),
        LogEvent::Rename { to: "New".to_string(), from: Some("Old".to_string()) },
    );
    assert_eq!(entry, Ok(expected));
}

#[test]
fn test_parse_bad_timestamp() {
    assert_eq!(
        TimelogEntry::parse_from_str("garbage\ton"),
        Err(ParseError::BadTimestamp)
    );
    // no seconds allowed: the pattern is minute-precision
    assert_eq!(
        TimelogEntry::parse_from_str("2019-11-10T16:04:00+0100\ton"),
        Err(ParseError::BadTimestamp)
    );
    // month out of range
    assert_eq!(
        TimelogEntry::parse_from_str("2019-13-10T16:04+0100\ton"),
        Err(ParseError::BadTimestamp)
    );
    // offset minutes out of range
    assert_eq!(
        TimelogEntry::parse_from_str("2019-11-10T16:04+0160\ton"),
        Err(ParseError::BadTimestamp)
    );
    // offset hours out of range
    assert_eq!(
        TimelogEntry::parse_from_str("2019-11-10T16:04+2400\ton"),
        Err(ParseError::BadTimestamp)
    );
}

#[test]
fn test_parse_leap_year_dates() {
    assert!(TimelogEntry::parse_from_str("2020-02-29T08:00+0100\ton").is_ok());
    assert_eq!(
        TimelogEntry::parse_from_str("2019-02-29T08:00+0100\ton"),
        Err(ParseError::BadTimestamp)
    );
    assert_eq!(
        TimelogEntry::parse_from_str("2019-04-31T08:00+0100\ton"),
        Err(ParseError::BadTimestamp)
    );
    // a century year is a leap year only when divisible by 400
    assert!(TimelogEntry::parse_from_str("2000-02-29T08:00+0100\ton").is_ok());
    assert_eq!(
        TimelogEntry::parse_from_str("1900-02-29T08:00+0100\ton"),
        Err(ParseError::BadTimestamp)
    );
}

#[test]
fn test_parse_unknown_event() {
    assert_eq!(
        TimelogEntry::parse_from_str("2019-11-10T16:04+0100\tfoo"),
        Err(ParseError::UnknownEvent("foo".to_string()))
    );
}

#[test]
fn test_parse_missing_argument() {
    // missing event keyword
    assert_eq!(
        TimelogEntry::parse_from_str("2019-11-10T16:04+0100"),
        Err(ParseError::MissingArgument)
    );
    // `start` without a task name
    assert_eq!(
        TimelogEntry::parse_from_str("2019-11-10T16:04+0100\tstart"),
        Err(ParseError::MissingArgument)
    );
    // `rename` without a target name
    assert_eq!(
        TimelogEntry::parse_from_str("2019-11-10T16:04+0100\trename"),
        Err(ParseError::MissingArgument)
    );
}

#[test]
fn test_parse_trailing_after_simple_event() {
    assert_eq!(
        TimelogEntry::parse_from_str("2019-11-10T16:04+0100\ton\tmore"),
        Err(ParseError::TrailingContent("more".to_string()))
    );
    // empty trailing fields are tolerated, as the fields join to nothing
    assert!(TimelogEntry::parse_from_str("2019-11-10T16:04+0100\ton\t").is_ok());
}

#[test]
fn test_format_parse_round_trip() {
    let events = [
        LogEvent::On,
        LogEvent::Off,
        LogEvent::Resume,
        LogEvent::Cancel,
        LogEvent::Stop,
        LogEvent::Start("Refactor code".to_string()),
        LogEvent::Rename { to: "New".to_string(), from: None },
        LogEvent::Rename { to: "New".to_string(), from: Some("Old".to_string()) },
    ];
    for ev in events {
        let entry = TimelogEntry::new(&ts(2019, 11, 10, 16, 4), ev);
        let line = entry.format_line().unwrap();
        assert_eq!(TimelogEntry::parse_from_str(&line), Ok(entry));
    }
}

#[test]
fn test_format_line_text() {
    let entry = TimelogEntry::new(
        &Timestamp::new(2019, 11, 10, 16, 4, -90).unwrap(),
        LogEvent::Start("A".to_string()),
    );
    assert_eq!(entry.format_line().unwrap(), "2019-11-10T16:04-0130\tstart\tA");
    let entry = TimelogEntry::new(&ts(2019, 1, 2, 3, 4), LogEvent::OffSnapshot);
    assert_eq!(entry.format_line(), None);
}

#[test]
fn test_timestamp_rejects_invalid_fields() {
    assert!(Timestamp::new(2019, 2, 29, 0, 0, 0).is_none());
    assert!(Timestamp::new(2019, 0, 1, 0, 0, 0).is_none());
    assert!(Timestamp::new(2019, 1, 1, 24, 0, 0).is_none());
    assert!(Timestamp::new(2019, 1, 1, 0, 60, 0).is_none());
    assert!(Timestamp::new(2019, 1, 1, 0, 0, 1440).is_none());
    assert!(Timestamp::new(10000, 1, 1, 0, 0, 0).is_none());
    assert!(Timestamp::new(2019, 12, 31, 23, 59, -1439).is_some());
}

#[test]
fn test_instant_accounts_for_offset() {
    // the same wall-clock reading one hour apart in offset differs by 60
    // minutes of absolute time
    let a = Timestamp::new(2019, 1, 1, 10, 0, 60).unwrap();
    let b = Timestamp::new(2019, 1, 1, 10, 0, 0).unwrap();
    assert_eq!(b.instant_minutes() - a.instant_minutes(), 60);
    // the epoch itself
    let epoch = Timestamp::new(1970, 1, 1, 0, 0, 0).unwrap();
    assert_eq!(epoch.instant_minutes(), 0);
}
