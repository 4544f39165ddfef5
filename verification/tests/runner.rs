use solid_server::runner::{case, select_by_lowered_names, Case, RunConfig, Suite, TapReport, TestSuite};

fn config(filter: Option<&str>) -> RunConfig {
    RunConfig {
        base_url: "http://localhost:3000/".to_string(),
        filter: filter.map(|f| f.to_string()),
        verbose: false,
        timeout_ms: 10000,
    }
}

fn suite(name: &str, n: usize) -> Suite<usize> {
    Suite {
        name: name.to_string(),
        cases: (0..n).map(|i| Case { name: format!("{name} {i}"), run: i }).collect(),
    }
}

fn all_suites() -> Vec<Suite<usize>> {
    vec![
        suite("health", 3),
        suite("resource-crud", 7),
        suite("containers", 5),
        suite("content-negotiation", 4),
        suite("error-responses", 4),
        suite("wac", 3),
    ]
}

fn names(t: &TestSuite<usize>) -> Vec<String> {
    t.suites().iter().map(|s| s.name.clone()).collect()
}

#[test]
fn no_filter_keeps_every_suite_in_order() {
    let t = TestSuite::new(config(None), all_suites());
    assert_eq!(
        names(&t),
        vec!["health", "resource-crud", "containers", "content-negotiation", "error-responses", "wac"]
    );
    assert_eq!(t.config().base_url, "http://localhost:3000/");
    assert_eq!(t.config().timeout_ms, 10000);
}

#[test]
fn filter_selects_by_substring() {
    let t = TestSuite::new(config(Some("crud")), all_suites());
    assert_eq!(names(&t), vec!["resource-crud"]);
    assert_eq!(t.suites()[0].cases.len(), 7);
}

#[test]
fn filter_is_case_insensitive() {
    let t = TestSuite::new(config(Some("WAC")), all_suites());
    assert_eq!(names(&t), vec!["wac"]);
    let t = TestSuite::new(config(Some("Con")), all_suites());
    assert_eq!(names(&t), vec!["containers", "content-negotiation"]);
}

#[test]
fn filter_matching_nothing_selects_nothing() {
    let t = TestSuite::new(config(Some("zzz")), all_suites());
    assert!(t.into_suites().is_empty());
}

#[test]
fn empty_filter_selects_everything() {
    let t = TestSuite::new(config(Some("")), all_suites());
    assert_eq!(names(&t).len(), 6);
}

#[test]
fn case_runs_its_builder_once() {
    let c: Case<u32> = case("adds".to_string(), || 40 + 2);
    assert_eq!(c.name, "adds");
    assert_eq!(c.run, 42);
}

#[test]
fn tap_report_for_passing_and_failing_cases() {
    assert_eq!(TapReport::header(), "TAP version 14");
    assert_eq!(TapReport::suite_line("resource-crud"), "# resource-crud");
    let mut r = TapReport::new();
    assert_eq!(r.record("PUT creates a document", None), vec!["ok 1 - PUT creates a document"]);
    assert_eq!(
        r.record("DELETE returns 204", Some("expected HTTP 204, got 404")),
        vec!["not ok 2 - DELETE returns 204", "  ---", "  expected HTTP 204, got 404", "  ..."]
    );
    assert_eq!(r.summary(), vec!["1..2", "# passed: 1  failed: 1"]);
    assert!(!r.all_passed());
}

#[test]
fn tap_failure_message_is_split_into_lines() {
    let mut r = TapReport::new();
    assert_eq!(
        r.record("x", Some("first\r\nsecond\n\nfourth\r")),
        vec!["not ok 1 - x", "  ---", "  first", "  second", "  ", "  fourth\r", "  ..."]
    );
    assert_eq!(r.record("y", Some("")), vec!["not ok 2 - y", "  ---", "  ..."]);
    assert_eq!(r.record("z", Some("one\n")), vec!["not ok 3 - z", "  ---", "  one", "  ..."]);
}

#[test]
fn tap_numbers_grow_past_single_digits() {
    let mut r = TapReport::new();
    for _ in 0..11 {
        r.record("c", None);
    }
    assert_eq!(r.record("last", None), vec!["ok 12 - last"]);
    assert_eq!(r.summary(), vec!["1..12", "# passed: 12  failed: 0"]);
    assert!(r.all_passed());
}

#[test]
fn empty_report_passes() {
    let r = TapReport::new();
    assert_eq!(r.summary(), vec!["1..0", "# passed: 0  failed: 0"]);
    assert!(r.all_passed());
}

#[test]
fn selection_from_lowered_names() {
    let all = vec![suite("Health", 1), suite("WAC", 2), suite("Containers", 1)];
    let lowered: Vec<String> = vec!["health".into(), "wac".into(), "containers".into()];
    let kept = select_by_lowered_names(all, &lowered, Some("a"));
    let names: Vec<String> = kept.iter().map(|s| s.name.clone()).collect();
    assert_eq!(names, vec!["Health", "WAC", "Containers"]);
    let all = vec![suite("Health", 1), suite("WAC", 2), suite("Containers", 1)];
    let kept = select_by_lowered_names(all, &lowered, Some("wac"));
    assert_eq!(kept.len(), 1);
    assert_eq!(kept[0].name, "WAC");
    let all = vec![suite("Health", 1), suite("WAC", 2)];
    let kept = select_by_lowered_names(all, &lowered[..2].to_vec(), None);
    assert_eq!(kept.len(), 2);
}
