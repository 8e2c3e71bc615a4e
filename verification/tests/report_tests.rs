use timetrack::fileread::{LogLine, LogLines};
use timetrack::report::{format_duration, SummaryScope};
use timetrack::timelog::ParseError;

#[test]
fn test_format_duration_values() {
    assert_eq!(format_duration(0), "00:00");
    assert_eq!(format_duration(9), "00:09");
    assert_eq!(format_duration(60), "01:00");
    assert_eq!(format_duration(8 * 60 + 54), "08:54");
    assert_eq!(format_duration(100 * 60 + 5), "100:05");
}

#[test]
fn test_summary_scope_keeps() {
    assert!(SummaryScope::All.keeps(0, 5));
    assert!(SummaryScope::All.keeps(4, 5));
    assert!(!SummaryScope::Last(2).keeps(2, 5));
    assert!(SummaryScope::Last(2).keeps(3, 5));
    assert!(SummaryScope::Last(2).keeps(4, 5));
    assert!(!SummaryScope::Last(0).keeps(4, 5));
    assert!(SummaryScope::Last(10).keeps(0, 3));
}

#[test]
fn test_log_lines_numbering() {
    let src: Vec<String> = ["2019-11-10T16:04+0100\ton", "", "# note", "oops"]
        .iter()
        .map(|l| l.to_string())
        .collect();
    let mut lines = LogLines::new(src);

    let (n, first) = lines.next_line().unwrap();
    assert_eq!(n, 1);
    assert!(matches!(first, Ok(LogLine::Entry(_))));

    let (n, second) = lines.next_line().unwrap();
    assert_eq!(n, 2);
    assert!(matches!(second, Ok(LogLine::Ignored(ref s)) if s.is_empty()));

    let (n, third) = lines.next_line().unwrap();
    assert_eq!(n, 3);
    assert!(matches!(third, Ok(LogLine::Ignored(ref s)) if s == "# note"));

    let (n, fourth) = lines.next_line().unwrap();
    assert_eq!(n, 4);
    assert!(matches!(fourth, Err(ParseError::BadTimestamp)));

    assert!(lines.next_line().is_none());
}
