//! The ingestion pipeline, from raw capture lines to the summarized report.

use kboot::ktest::{
    archive_round, capture_file_name, function_from_name, module_from_name, process_json_line,
    process_summary, process_test_results, read_report, report_file_name, should_ingest,
    write_report, IngestState, KtestError, TestGroup, TestModule, TestResult, TestSummary,
};

fn b(s: &str) -> Vec<u8> {
    s.as_bytes().to_vec()
}

fn s(v: &[u8]) -> String {
    String::from_utf8(v.to_vec()).unwrap()
}

#[test]
fn should_ingest_requires_all_three() {
    assert!(should_ingest(true, false, true));
    assert!(!should_ingest(false, false, true));
    assert!(!should_ingest(true, true, true));
    assert!(!should_ingest(true, false, false));
}

#[test]
fn three_records_make_two_modules() {
    let lines = vec![
        b("{\"test_group\":\"kernel\",\"test_count\":3}"),
        b("{\"test\":\"mem::alloc_basic\",\"result\":\"pass\",\"cycle_count\":10}"),
        b("{\"test\":\"mem::alloc_oom\",\"result\":\"fail\",\"cycle_count\":20,\"location\":\"mem.rs:42\",\"message\":\"assertion failed\"}"),
        b("{\"test\":\"io::read\",\"result\":\"pass\",\"cycle_count\":5}"),
    ];
    let (group, use_kview) = process_test_results(&lines, 77).unwrap();
    assert!(!use_kview);
    assert_eq!(s(&group.test_group), "kernel");
    assert_eq!(group.summary.total, 3);
    assert_eq!(group.summary.passed, 2);
    assert_eq!(group.summary.failed, 1);
    assert_eq!(group.summary.ignored, 0);
    assert_eq!(group.summary.duration, 77);
    assert_eq!(group.modules.len(), 2);
    assert_eq!(s(&group.modules[0].module), "mem");
    assert_eq!(group.modules[0].tests.len(), 2);
    assert_eq!(s(&group.modules[0].tests[0].test), "alloc_basic");
    assert_eq!(s(&group.modules[0].tests[1].test), "alloc_oom");
    assert_eq!(
        s(group.modules[0].tests[1].location.as_ref().unwrap()),
        "mem.rs:42"
    );
    assert_eq!(
        s(group.modules[0].tests[1].message.as_ref().unwrap()),
        "assertion failed"
    );
    assert_eq!(s(&group.modules[1].module), "io");
    assert_eq!(group.modules[1].tests.len(), 1);
    assert_eq!(s(&group.modules[1].tests[0].test), "read");
}

#[test]
fn missing_results_count_as_ignored() {
    let lines = vec![
        b("{\"test_group\":\"kernel\",\"test_count\":5}"),
        b("{\"test\":\"a::x\",\"result\":\"pass\",\"cycle_count\":1}"),
        b("{\"test\":\"a::y\",\"result\":\"fail\",\"cycle_count\":2}"),
    ];
    let (group, _) = process_test_results(&lines, 0).unwrap();
    assert_eq!(group.summary.ignored, 3);
}

#[test]
fn ignored_never_goes_negative() {
    let lines = vec![
        b("{\"test_group\":\"kernel\",\"test_count\":1}"),
        b("{\"test\":\"a::x\",\"result\":\"pass\",\"cycle_count\":1}"),
        b("{\"test\":\"a::y\",\"result\":\"pass\",\"cycle_count\":2}"),
        b("{\"test\":\"a::z\",\"result\":\"fail\",\"cycle_count\":3}"),
    ];
    let (group, _) = process_test_results(&lines, 0).unwrap();
    assert_eq!(group.summary.total, 1);
    assert_eq!(group.summary.passed, 2);
    assert_eq!(group.summary.failed, 1);
    assert_eq!(group.summary.ignored, 0);
}

#[test]
fn malformed_lines_are_skipped_not_fatal() {
    let lines = vec![
        b("{\"test_group\":\"kernel\",\"test_count\":2}"),
        b("garbage"),
        b("{\"test\":\"a::x\",\"result\":\"pass\"}"),
        b("{\"unrelated\":true}"),
        b("{\"test\":\"a::y\",\"result\":\"pass\",\"cycle_count\":2}"),
    ];
    let (group, _) = process_test_results(&lines, 0).unwrap();
    assert_eq!(group.summary.passed, 1);
    assert_eq!(group.summary.ignored, 1);
}

#[test]
fn later_headers_are_ignored() {
    let lines = vec![
        b("{\"test_group\":\"first\",\"test_count\":1}"),
        b("{\"test_group\":\"second\",\"test_count\":9}"),
        b("{\"test\":\"m::t\",\"result\":\"pass\",\"cycle_count\":1}"),
    ];
    let (group, _) = process_test_results(&lines, 0).unwrap();
    assert_eq!(s(&group.test_group), "first");
    assert_eq!(group.summary.total, 1);
}

#[test]
fn result_before_header_is_fatal() {
    let lines = vec![b("{\"test\":\"m::t\",\"result\":\"pass\",\"cycle_count\":1}")];
    assert!(matches!(
        process_test_results(&lines, 0),
        Err(KtestError::TestGroupNotSet)
    ));
}

#[test]
fn no_header_at_all_is_reported() {
    let lines = vec![b("{\"other\":1}")];
    assert!(matches!(
        process_test_results(&lines, 0),
        Err(KtestError::NoTestGroupFound)
    ));
}

#[test]
fn viewer_flag_comes_from_the_header() {
    let lines = vec![b("{\"test_group\":\"g\",\"test_count\":0,\"use_kview\":true}")];
    let (_, use_kview) = process_test_results(&lines, 0).unwrap();
    assert!(use_kview);
}

#[test]
fn process_json_line_builds_state_incrementally() {
    let mut state = IngestState::new();
    assert!(state.test_group.is_none());
    process_json_line(&mut state, &b("{\"test_group\":\"g\",\"test_count\":1}"), 5).unwrap();
    assert!(state.test_group.is_some());
    process_json_line(
        &mut state,
        &b("{\"test\":\"m::t\",\"result\":\"pass\",\"cycle_count\":1}"),
        5,
    )
    .unwrap();
    let mut group = state.test_group.unwrap();
    process_summary(&mut group);
    assert_eq!(group.summary.passed, 1);
    assert_eq!(group.summary.duration, 5);
}

#[test]
fn module_names_split_at_the_last_separator() {
    assert_eq!(s(&module_from_name(&b("mem::alloc_basic"))), "mem");
    assert_eq!(s(&function_from_name(&b("mem::alloc_basic"))), "alloc_basic");
    assert_eq!(s(&module_from_name(&b("a::b::c"))), "a::b");
    assert_eq!(s(&function_from_name(&b("a::b::c"))), "c");
    assert_eq!(s(&module_from_name(&b("solo"))), "unknown");
    assert_eq!(s(&function_from_name(&b("solo"))), "solo");
}

#[test]
fn persist_then_reload_is_field_for_field() {
    let group = TestGroup {
        test_group: b("kernel"),
        summary: TestSummary { total: 3, passed: 2, failed: 1, ignored: 0, duration: 1234 },
        modules: vec![
            TestModule {
                module: b("mem"),
                tests: vec![
                    TestResult {
                        test: b("alloc_basic"),
                        result: b("pass"),
                        cycle_count: 10,
                        location: None,
                        message: None,
                    },
                    TestResult {
                        test: b("alloc_oom"),
                        result: b("fail"),
                        cycle_count: 20,
                        location: Some(b("mem.rs:42")),
                        message: Some(b("assertion \"failed\"\nbadly")),
                    },
                ],
            },
            TestModule { module: b("io"), tests: vec![] },
        ],
    };
    let bytes = write_report(&group);
    let reloaded = read_report(&bytes).unwrap();
    assert_eq!(reloaded.test_group, group.test_group);
    assert_eq!(reloaded.summary, group.summary);
    assert_eq!(reloaded.modules.len(), group.modules.len());
    for (a, c) in reloaded.modules.iter().zip(group.modules.iter()) {
        assert_eq!(a.module, c.module);
        assert_eq!(a.tests.len(), c.tests.len());
        for (x, y) in a.tests.iter().zip(c.tests.iter()) {
            assert_eq!(x.test, y.test);
            assert_eq!(x.result, y.result);
            assert_eq!(x.cycle_count, y.cycle_count);
            assert_eq!(x.location, y.location);
            assert_eq!(x.message, y.message);
        }
    }
}

#[test]
fn reading_foreign_bytes_fails_cleanly() {
    assert!(read_report(&b("{\"something\":\"else\"}")).is_none());
    assert!(read_report(&b("")).is_none());
}

#[test]
fn archive_plan_moves_exactly_the_reports() {
    let names = vec![
        b("tests-0.json"),
        b("notes.txt"),
        b("tests-1.json"),
        b("json"),
        b("x.json"),
    ];
    let (to_move, dir) = archive_round(&names, 1234567);
    assert_eq!(to_move.len(), 3);
    assert_eq!(s(&to_move[0]), "tests-0.json");
    assert_eq!(s(&to_move[1]), "tests-1.json");
    assert_eq!(s(&to_move[2]), "x.json");
    assert_eq!(s(&dir), "testing-1234567");
}

#[test]
fn file_names_follow_the_layout() {
    assert_eq!(s(&report_file_name(3)), "tests-3.json");
    assert_eq!(s(&capture_file_name(&b("abc-def"))), "tests-abc-def.json");
}
