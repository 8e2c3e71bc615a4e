use timetrack::fileread::{collect_days, DayCollection, DayError};
use timetrack::taskregistry::{Error, Task, TaskRegistry};
use timetrack::timestamp::Timestamp;

fn ts(y: u16, mo: u8, d: u8, h: u8, mi: u8) -> Timestamp {
    Timestamp::new(y, mo, d, h, mi, 60).unwrap()
}

fn test_now() -> Timestamp {
    ts(2020, 1, 1, 0, 0)
}

fn blank_lines() -> String {
    "\n\n".to_string()
}

fn comment_line() -> String {
    "# This is a comment\n".to_string()
}

fn day_1() -> String {
    [
        "# First line comment",
        "2019-11-21T07:30+0100\ton",
        "2019-11-21T07:30+0100\tstart\tBACKEND-errors",
        "2019-11-21T09:45+0100\toff",
        "2019-11-21T10:20+0100\tstart\tBACKEND-input-parsing",
        "2019-11-21T10:32+0100\trename\tBACKEND-error-handling\tBACKEND-errors",
        "2019-11-21T11:40+0100\toff",
        "2019-11-21T13:00+0100\tstart\tBACKEND-input-parsing",
        "2019-11-21T17:00+0100\toff",
        "",
    ]
    .join("\n")
}

fn day_2() -> String {
    [
        "2019-11-22T07:00+0100\ton",
        "2019-11-22T07:02+0100\tstart\tBACKEND-error-handling",
        "2019-11-22T07:27+0100\tstart\tBACKEND-input",
        "2019-11-22T07:30+0100\trename\tBACKEND-input-parsing",
        "2019-11-22T09:14+0100\toff",
        "2019-11-22T09:20+0100\tstart\tBACKEND-input-parsing",
        "2019-11-22T09:32+0100\toff",
        "",
        "# Pause",
        "",
        "2019-11-22T09:49+0100\tstart\tBACKEND-input-parsing",
        "2019-11-22T10:40+0100\toff",
        "2019-11-22T11:06+0100\tstart\tBACKEND-input-parsing",
        "2019-11-22T11:43+0100\tstart\tDaily",
        "2019-11-22T11:51+0100\tstart\tBACKEND-error-handling",
        "2019-11-22T12:48+0100\toff",
        "2019-11-22T13:54+0100\tresume",
        "2019-11-22T13:58+0100\tstart\tCHORE - instable tests",
        "2019-11-22T14:06+0100\toff",
        "2019-11-22T14:06+0100\tstart\tCHORE - instable tests",
        "2019-11-22T15:24+0100\toff",
        "",
    ]
    .join("\n")
}

fn day_3() -> String {
    [
        "2019-11-26T07:00+0100\ton",
        "2019-11-26T07:10+0100\tstart\tFRONTEND - error handling",
        "2019-11-26T07:34+0100\tstart\tBACKEND - query endpoint",
        "2019-11-26T07:48+0100\toff",
        "2019-11-26T08:12+0100\tresume",
        "2019-11-26T08:14+0100\tstart\ttime logging",
        "2019-11-26T08:20+0100\tstart\tCHORE - build system",
        "2019-11-26T09:19+0100\tstart\tTeam discussion",
        "2019-11-26T09:30+0100\tstart\tBACKEND - query endpoint",
        "2019-11-26T09:51+0100\toff",
        "2019-11-26T10:43+0100\tresume",
        "2019-11-26T10:58+0100\tstart\ttime logging",
        "2019-11-26T11:10+0100\tstart\tBACKEND - query endpoint",
        "2019-11-26T11:23+0100\tstart\tBACKEND - integration tests",
        "2019-11-26T11:30+0100\tstart\tDaily",
        "2019-11-26T11:45+0100\toff",
        "2019-11-26T12:28+0100\tstart\tBACKEND - integration tests",
        "2019-11-26T13:26+0100\tstart\tbacklog",
        "2019-11-26T13:32+0100\tstart\tCHORE - build system",
        "2019-11-26T13:56+0100\tstop",
        "2019-11-26T14:01+0100\tstart\tbacklog",
        "2019-11-26T15:57+0100\tstop",
        "2019-11-26T16:13+0100\tstart\tUI JWT timeout",
        "2019-11-26T16:30+0100\tstart\tBugfix Export",
        "2019-11-26T16:51+0100\tstart\tUI JWT timeout",
        "2019-11-26T17:36+0100\tstart\tBACKEND - query endpoint",
        "2019-11-26T17:53+0100\toff",
        "",
    ]
    .join("\n")
}

fn day_4() -> String {
    [
        "2019-11-28T08:55+0100\ton",
        "2019-11-28T09:08+0100\tstart\tBugfix Export",
        "2019-11-28T09:30+0100\tstart\tSprint planning",
        "2019-11-28T10:15+0100\tstart\tCHORE - Build system",
        "2019-11-28T10:52+0100\tstart\tBugfix Export",
        "2019-11-28T10:56+0100\tstop",
        "2019-11-28T11:07+0100\tstart\tBACKEND - logging framework",
        "2019-11-28T11:34+0100\tstart\tFRONTEND - translations",
        "2019-11-28T11:45+0100\tstart\tDaily",
        "2019-11-28T12:05+0100\toff",
        "2019-11-28T12:53+0100\tresume",
        "2019-11-28T12:58+0100\tstart\tSprint Retro",
        "2019-11-28T14:43+0100\tstart\tBACKEND - logging framework",
        "2019-11-28T15:24+0100\tstart\tFRONTEND - translations",
        "2019-11-28T15:31+0100\tstop",
        "2019-11-28T15:40+0100\tstart\tFRONTEND - release notes",
        "2019-11-28T16:21+0100\tstart\tBACKEND - logging framework",
        "2019-11-28T17:52+0100\tstop",
        "2019-11-28T18:07+0100\toff",
        "",
    ]
    .join("\n")
}

fn into_days(src: &str) -> Vec<DayCollection> {
    let lines: Vec<String> = src.lines().map(|l| l.to_string()).collect();
    collect_days(&lines, test_now()).unwrap()
}

fn assert_day1_tasks(registry: &TaskRegistry) {
    let expected = vec![
        Task::new("Pause", 115),
        Task::new("n/n", 0),
        Task::new("BACKEND-error-handling", 135),
        Task::new("BACKEND-input-parsing", 320),
    ];
    assert_eq!(*registry.get_tasks(), expected);
}

fn assert_day2_tasks(registry: &TaskRegistry) {
    let expected = vec![
        Task::new("Pause", 115),
        Task::new("n/n", 6),
        Task::new("BACKEND-error-handling", 82),
        Task::new("BACKEND-input-parsing", 207),
        Task::new("Daily", 8),
        Task::new("CHORE - instable tests", 86),
    ];
    assert_eq!(*registry.get_tasks(), expected);
}

fn assert_day3_work_times(registry: &TaskRegistry) {
    let expected = vec![
        (ts(2019, 11, 26, 7, 0), ts(2019, 11, 26, 7, 48)),
        (ts(2019, 11, 26, 8, 12), ts(2019, 11, 26, 9, 51)),
        (ts(2019, 11, 26, 10, 43), ts(2019, 11, 26, 11, 45)),
        (ts(2019, 11, 26, 12, 28), ts(2019, 11, 26, 17, 53)),
    ];
    assert_eq!(*registry.get_work_times(), expected);
    assert_eq!(registry.get_work_duration(), 8 * 60 + 54);
}

#[test]
fn test_split_days() {
    let mut src = String::new();
    src.push_str(&day_1());
    src.push_str(&day_2());

    let days = into_days(&src);
    assert_eq!(days.len(), 2);

    let day1 = &days[0];
    assert_eq!(day1.tasks.get_start_time().unwrap(), ts(2019, 11, 21, 7, 30));
    assert_eq!(day1.lines.len(), 9);

    let day2 = &days[1];
    assert_eq!(day2.tasks.get_start_time().unwrap(), ts(2019, 11, 22, 7, 0));
    assert_eq!(day2.lines.len(), 21);
}

#[test]
fn test_split_days_with_blank() {
    let mut src = String::new();
    src.push_str(&blank_lines());
    src.push_str(&day_1());
    src.push_str(&blank_lines());
    src.push_str(&comment_line());
    src.push_str(&day_2());
    src.push_str(&blank_lines());

    let days = into_days(&src);
    assert_eq!(days.len(), 2);

    let day1 = &days[0];
    assert_eq!(day1.tasks.get_start_time().unwrap(), ts(2019, 11, 21, 7, 30));
    assert_eq!(day1.lines.len(), 13);

    let day2 = &days[1];
    assert_eq!(day2.tasks.get_start_time().unwrap(), ts(2019, 11, 22, 7, 0));
    assert_eq!(day2.lines.len(), 24);
}

#[test]
fn test_day_1_tasks() {
    let days = into_days(&day_1());
    assert_eq!(days.len(), 1);

    let registry = &days[0].tasks;
    assert_day1_tasks(registry);
}

#[test]
fn test_day_2_tasks() {
    let days = into_days(&day_2());
    assert_eq!(days.len(), 1);

    let registry = &days[0].tasks;
    assert_day2_tasks(registry);
}

#[test]
fn test_day_1_and_2_tasks() {
    let mut src = String::new();
    src.push_str(&blank_lines());
    src.push_str(&day_1());
    src.push_str(&blank_lines());
    src.push_str(&comment_line());
    src.push_str(&day_2());
    src.push_str(&blank_lines());

    let days = into_days(&src);
    assert_eq!(days.len(), 2);

    assert_day1_tasks(&days[0].tasks);
    assert_day2_tasks(&days[1].tasks);
}

#[test]
fn test_work_time() {
    let days = into_days(&day_3());
    assert_eq!(days.len(), 1);

    assert_day3_work_times(&days[0].tasks);
}

#[test]
fn test_last_active() {
    let days = into_days(&day_1());
    let tasks = &days[0].tasks;

    let expected = Task::new("BACKEND-input-parsing", 320);
    assert_eq!(tasks.get_last_active(), Some(expected));
}

#[test]
fn test_last_active_nn() {
    let days = into_days(&day_4());
    let tasks = &days[0].tasks;

    assert_eq!(tasks.get_last_active(), None);
}

#[test]
fn test_work_duration_is_interval_sum() {
    // every clocked-in minute of day 2 is covered by its merged intervals
    let days = into_days(&day_2());
    let registry = &days[0].tasks;
    let sum: u64 = registry
        .get_work_times()
        .iter()
        .map(|(a, b)| (b.instant_minutes() - a.instant_minutes()) as u64)
        .sum();
    assert_eq!(registry.get_work_duration(), sum);
}

#[test]
fn test_work_duration_covers_non_pause_tasks() {
    // the work duration of a day equals the sum of its task durations
    // excluding the "Pause" bucket
    for src in [day_1(), day_2(), day_3(), day_4()] {
        let days = into_days(&src);
        let registry = &days[0].tasks;
        let sum: u64 = registry
            .get_tasks()
            .iter()
            .filter(|t| t.name != "Pause")
            .map(|t| t.duration_mins)
            .sum();
        assert_eq!(registry.get_work_duration(), sum);
    }
}

#[test]
fn test_touching_intervals_merge() {
    // an `off` and a `start` at the same minute leave one merged interval
    let days = into_days(
        &[
            "2019-01-07T09:00+0100\ton",
            "2019-01-07T10:00+0100\toff",
            "2019-01-07T10:00+0100\tstart\tT",
            "2019-01-07T11:00+0100\toff",
            "",
        ]
        .join("\n"),
    );
    let registry = &days[0].tasks;
    let expected = vec![(ts(2019, 1, 7, 9, 0), ts(2019, 1, 7, 11, 0))];
    assert_eq!(*registry.get_work_times(), expected);
    assert_eq!(registry.get_work_duration(), 120);
}

#[test]
fn test_scenario_on_start_off() {
    // on 07:00, start A 07:30, off 09:00: the half hour before the start
    // goes to the "n/n" bucket, the rest to A, and the day spans one
    // interval
    let days = into_days(
        &[
            "2019-01-07T07:00+0100\ton",
            "2019-01-07T07:30+0100\tstart\tA",
            "2019-01-07T09:00+0100\toff",
            "",
        ]
        .join("\n"),
    );
    assert_eq!(days.len(), 1);
    let registry = &days[0].tasks;
    let expected = vec![Task::new("Pause", 0), Task::new("n/n", 30), Task::new("A", 90)];
    assert_eq!(*registry.get_tasks(), expected);
    let intervals = vec![(ts(2019, 1, 7, 7, 0), ts(2019, 1, 7, 9, 0))];
    assert_eq!(*registry.get_work_times(), intervals);
    assert_eq!(registry.get_work_duration(), 120);
}

#[test]
fn test_scenario_stop_accrues_to_nn() {
    // after a `stop`, time accrues to "n/n" until the `off`
    let days = into_days(
        &[
            "2019-01-07T08:00+0100\ton",
            "2019-01-07T08:10+0100\tstart\tA",
            "2019-01-07T08:40+0100\tstop",
            "2019-01-07T09:00+0100\toff",
            "",
        ]
        .join("\n"),
    );
    let registry = &days[0].tasks;
    let expected = vec![Task::new("Pause", 0), Task::new("n/n", 30), Task::new("A", 30)];
    assert_eq!(*registry.get_tasks(), expected);
}

#[test]
fn test_scenario_rename_active_task() {
    // a rename without a source renames the active task, preserving its
    // accumulated duration and its position
    let days = into_days(
        &[
            "2019-01-07T08:00+0100\ton",
            "2019-01-07T08:10+0100\tstart\tA",
            "2019-01-07T08:30+0100\trename\tB",
            "2019-01-07T09:00+0100\toff",
            "",
        ]
        .join("\n"),
    );
    let registry = &days[0].tasks;
    let expected = vec![Task::new("Pause", 0), Task::new("n/n", 10), Task::new("B", 50)];
    assert_eq!(*registry.get_tasks(), expected);
}

#[test]
fn test_scenario_rename_unresolvable_old_name() {
    // after a rename the old name cannot be referenced any more
    let err = collect_days(
        &[
            "2019-01-07T08:00+0100\ton",
            "2019-01-07T08:10+0100\tstart\tA",
            "2019-01-07T08:30+0100\trename\tB",
            "2019-01-07T08:40+0100\trename\tC\tA",
        ]
        .iter()
        .map(|l| l.to_string())
        .collect(),
        test_now(),
    )
    .unwrap_err();
    assert!(matches!(
        err,
        DayError::Transition { line: 4, err: Error::UnknownTask(ref n) } if n == "A"
    ));
}

#[test]
fn test_scenario_trailing_start_stays_active() {
    // a log cut off after a `start` is closed at the injected current time;
    // the open task keeps its active mark in the frozen registry
    let lines: Vec<String> = [
        "2019-01-07T08:00+0100\ton",
        "2019-01-07T08:30+0100\tstart\tX",
    ]
    .iter()
    .map(|l| l.to_string())
    .collect();
    let now = Timestamp::new(2019, 1, 7, 9, 0, 60).unwrap();
    let days = collect_days(&lines, now).unwrap();
    assert_eq!(days.len(), 1);
    let registry = &days[0].tasks;
    let expected = vec![
        Task::new("Pause", 0),
        Task::new("n/n", 30),
        Task { name: "X".to_string(), duration_mins: 30, active: true },
    ];
    assert_eq!(*registry.get_tasks(), expected);
    assert_eq!(
        registry.get_last_active(),
        Some(Task { name: "X".to_string(), duration_mins: 30, active: true })
    );
    let intervals = vec![(ts(2019, 1, 7, 8, 0), ts(2019, 1, 7, 9, 0))];
    assert_eq!(*registry.get_work_times(), intervals);
}

#[test]
fn test_scenario_malformed_line_aborts() {
    // a malformed line fails with its one-based number; no registry is
    // emitted for the surrounding day
    let err = collect_days(
        &[
            "2019-01-01T09:00+0100\ton",
            "2019-01-01T10:00+0100\tstart",
            "2019-01-01T11:00+0100\toff",
        ]
        .iter()
        .map(|l| l.to_string())
        .collect(),
        test_now(),
    )
    .unwrap_err();
    assert!(matches!(
        err,
        DayError::Parse { line: 2, err: timetrack::timelog::ParseError::MissingArgument }
    ));
}

#[test]
fn test_invalid_transition_aborts() {
    let err = collect_days(
        &vec!["2019-01-01T09:00+0100\toff".to_string()],
        test_now(),
    )
    .unwrap_err();
    assert!(matches!(err, DayError::Transition { line: 1, err: Error::InvalidTransition(..) }));
}

#[test]
fn test_backwards_timestamp_aborts() {
    let err = collect_days(
        &[
            "2019-01-01T09:00+0100\ton",
            "2019-01-01T08:00+0100\tstart\tA",
        ]
        .iter()
        .map(|l| l.to_string())
        .collect(),
        test_now(),
    )
    .unwrap_err();
    assert!(matches!(
        err,
        DayError::Transition { line: 2, err: Error::NonContinuousTimestamp(..) }
    ));
}

#[test]
fn test_start_without_day_aborts() {
    // a `start` with no day ever opened has no "Pause" bucket to close
    let err = collect_days(
        &vec!["2019-01-01T09:00+0100\tstart\tA".to_string()],
        test_now(),
    )
    .unwrap_err();
    assert!(matches!(
        err,
        DayError::Transition { line: 1, err: Error::UnknownTask(ref n) } if n == "Pause"
    ));
}

#[test]
fn test_empty_input_yields_no_days() {
    let days = collect_days(&Vec::new(), test_now()).unwrap();
    assert_eq!(days.len(), 0);
}
