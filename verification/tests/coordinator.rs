//! The round coordinator, exercised over concrete event logs.

use kboot::event::{
    get_current_test_group, is_start_of_test_round, write_end_events, write_start_events,
    TestGroupStartedEvent, TestRoundEndedEvent, TestRoundStartedEvent,
};

fn b(s: &str) -> Vec<u8> {
    s.as_bytes().to_vec()
}

fn s(v: &[u8]) -> String {
    String::from_utf8(v.to_vec()).unwrap()
}

#[test]
fn empty_log_is_round_start() {
    let lines: Vec<Vec<u8>> = Vec::new();
    assert!(is_start_of_test_round(&lines));
    assert_eq!(get_current_test_group(&lines), 0);
}

#[test]
fn log_ending_with_group_started_names_the_next_group() {
    let started = TestRoundStartedEvent;
    let group = TestGroupStartedEvent { current_test_group: 2, total_test_groups: 5 };
    let lines = vec![started.to_json(1000), group.to_json(2000)];
    assert_eq!(get_current_test_group(&lines), 3);
    assert!(!is_start_of_test_round(&lines));
}

#[test]
fn log_ending_with_round_ended_resets() {
    let started = TestRoundStartedEvent;
    let group = TestGroupStartedEvent { current_test_group: 0, total_test_groups: 2 };
    let ended = TestRoundEndedEvent;
    let lines = vec![
        started.to_json(1),
        group.to_json(2),
        TestGroupStartedEvent { current_test_group: 1, total_test_groups: 2 }.to_json(3),
        ended.to_json(4),
    ];
    assert!(is_start_of_test_round(&lines));
    assert_eq!(get_current_test_group(&lines), 0);
}

#[test]
fn unknown_and_malformed_lines_are_skipped() {
    let group = TestGroupStartedEvent { current_test_group: 4, total_test_groups: 9 };
    let lines = vec![
        b("{\"event\":\"SomethingElse\",\"timestamp\":1}"),
        group.to_json(2),
        b("not json at all"),
        b("{\"event\":42}"),
        b(""),
    ];
    assert_eq!(get_current_test_group(&lines), 5);
}

#[test]
fn event_lines_are_compact_json() {
    let started = TestRoundStartedEvent;
    assert_eq!(
        s(&started.to_json(123)),
        "{\"event\":\"TestRoundStartedEvent\",\"timestamp\":123}"
    );
    let ended = TestRoundEndedEvent;
    assert_eq!(
        s(&ended.to_json(7)),
        "{\"event\":\"TestRoundEndedEvent\",\"timestamp\":7}"
    );
    let group = TestGroupStartedEvent { current_test_group: 2, total_test_groups: 5 };
    assert_eq!(
        s(&group.to_json(99)),
        "{\"event\":\"TestGroupStartedEvent\",\"timestamp\":99,\"current_test_group\":2,\"total_test_groups\":5}"
    );
}

#[test]
fn write_start_events_opens_a_fresh_round() {
    let lines: Vec<Vec<u8>> = Vec::new();
    let (to_append, descriptor) = write_start_events(&lines, 2, 50);
    assert_eq!(to_append.len(), 2);
    assert_eq!(descriptor.current_test_group, 0);
    assert_eq!(descriptor.total_test_groups, 2);
    // appending what was returned moves the log to the next group
    let mut log = lines;
    log.extend(to_append);
    assert!(!is_start_of_test_round(&log));
    assert_eq!(get_current_test_group(&log), 1);

    // the next invocation continues the same round with one line only
    let (more, descriptor2) = write_start_events(&log, 2, 60);
    assert_eq!(more.len(), 1);
    assert_eq!(descriptor2.current_test_group, 1);
}

#[test]
fn write_end_events_marks_only_the_last_group() {
    let not_last = TestGroupStartedEvent { current_test_group: 0, total_test_groups: 5 };
    assert!(write_end_events(&not_last, 10).is_none());
    let last = TestGroupStartedEvent { current_test_group: 4, total_test_groups: 5 };
    let line = write_end_events(&last, 10).unwrap();
    assert_eq!(s(&line), "{\"event\":\"TestRoundEndedEvent\",\"timestamp\":10}");
    // a whole round closes: the log reads as a fresh round again
    let mut log = vec![last.to_json(9)];
    log.push(line);
    assert!(is_start_of_test_round(&log));
    assert_eq!(get_current_test_group(&log), 0);
}

#[test]
fn total_groups_come_from_the_manifest() {
    let workspace = "[workspace]\nmembers = [\"a\", \"b\", \"c\"]\n";
    assert_eq!(kboot::event::get_total_test_groups(workspace), Ok(4));
    let single = "[package]\nname = \"solo\"\nversion = \"0.1.0\"\n";
    assert_eq!(kboot::event::get_total_test_groups(single), Ok(2));
    assert!(kboot::event::get_total_test_groups("not toml [ at all").is_err());
    let broken_workspace = "[workspace]\nresolver = \"2\"\n";
    assert!(kboot::event::get_total_test_groups(broken_workspace).is_err());
}
