use runtime_diff::compare::{
    classify_line, line_to_event, run_comparison, Event, LineClass, RunResult,
};
use runtime_diff::manifest::parse_manifest;

fn cp(s: &str) -> Event {
    Event::Checkpoint(s.to_string())
}

fn bc(s: &str) -> Event {
    Event::Breadcrumb(s.to_string())
}

#[test]
fn classify_recognizes_markers() {
    assert_eq!(classify_line("BREADCUMB: step 3"), LineClass::Breadcrumb);
    assert_eq!(classify_line("RUNTIME CHECK: 42"), LineClass::Checkpoint);
    assert_eq!(classify_line("plain output"), LineClass::Plain);
    assert_eq!(classify_line("RUNTIME CHECK"), LineClass::Plain);
    assert_eq!(classify_line(""), LineClass::Plain);
}

#[test]
fn line_to_event_carries_full_text() {
    match line_to_event("BREADCUMB: here") {
        Some(Event::Breadcrumb(s)) => assert_eq!(s, "BREADCUMB: here"),
        _ => panic!("expected a breadcrumb event"),
    }
    match line_to_event("RUNTIME CHECK: 7") {
        Some(Event::Checkpoint(s)) => assert_eq!(s, "RUNTIME CHECK: 7"),
        _ => panic!("expected a checkpoint event"),
    }
    assert!(line_to_event("nothing special").is_none());
}

#[test]
fn mismatch_detected_at_third_round_not_earlier() {
    // checkpoint sequences [a, a, a] and [a, a, b], with breadcrumbs and
    // different pacing in between: the divergence is at position 2.
    let s0 = vec![bc("warmup"), cp("a"), cp("a"), bc("noise"), cp("a")];
    let s1 = vec![cp("a"), bc("lag"), bc("lag"), cp("a"), cp("b"), bc("tail")];
    match run_comparison(&vec![s0, s1], 32) {
        RunResult::Mismatch { round, .. } => assert_eq!(round, 2),
        RunResult::Success => panic!("divergence must be detected"),
    }
}

#[test]
fn identical_sequences_succeed_for_many_processes() {
    let mut streams = Vec::new();
    for k in 0..4 {
        let mut s = Vec::new();
        for _ in 0..k {
            s.push(bc("filler"));
        }
        s.push(cp("x"));
        s.push(cp("y"));
        if k % 2 == 0 {
            s.push(bc("more filler"));
        }
        s.push(cp("z"));
        streams.push(s);
    }
    assert!(matches!(run_comparison(&streams, 32), RunResult::Success));
}

#[test]
fn quiet_process_does_not_trigger_mismatch() {
    let quiet = vec![bc("only breadcrumbs"), bc("then done")];
    let s1 = vec![cp("1"), cp("2")];
    let s2 = vec![bc("x"), cp("1"), cp("2")];
    assert!(matches!(
        run_comparison(&vec![quiet, s1, s2], 32),
        RunResult::Success
    ));
}

#[test]
fn quiet_process_does_not_hide_mismatch() {
    let quiet = vec![bc("nothing to compare")];
    let s1 = vec![cp("1")];
    let s2 = vec![cp("2")];
    match run_comparison(&vec![quiet, s1, s2], 32) {
        RunResult::Mismatch { round, .. } => assert_eq!(round, 0),
        RunResult::Success => panic!("divergence must be detected"),
    }
}

#[test]
fn prefix_sequences_do_not_mismatch() {
    // one process stops after its first checkpoint; the other goes on
    let s0 = vec![cp("x")];
    let s1 = vec![cp("x"), cp("y"), cp("z")];
    assert!(matches!(run_comparison(&vec![s0, s1], 32), RunResult::Success));
}

#[test]
fn no_streams_succeed() {
    assert!(matches!(run_comparison(&Vec::new(), 32), RunResult::Success));
}

#[test]
fn empty_streams_succeed() {
    let streams = vec![Vec::new(), Vec::new()];
    assert!(matches!(run_comparison(&streams, 32), RunResult::Success));
}

#[test]
fn mismatch_trails_hold_recent_lines() {
    let s0 = vec![bc("BREADCUMB: setup"), cp("RUNTIME CHECK: 1"), cp("RUNTIME CHECK: 2")];
    let s1 = vec![cp("RUNTIME CHECK: 1"), cp("RUNTIME CHECK: 3")];
    match run_comparison(&vec![s0, s1], 32) {
        RunResult::Mismatch { round, trails } => {
            assert_eq!(round, 1);
            assert_eq!(
                trails[0],
                vec![
                    "BREADCUMB: setup".to_string(),
                    "RUNTIME CHECK: 1".to_string(),
                    "RUNTIME CHECK: 2".to_string()
                ]
            );
            assert_eq!(
                trails[1],
                vec!["RUNTIME CHECK: 1".to_string(), "RUNTIME CHECK: 3".to_string()]
            );
        },
        RunResult::Success => panic!("divergence must be detected"),
    }
}

#[test]
fn mismatch_trails_respect_capacity() {
    let s0 = vec![bc("old"), bc("older"), cp("1")];
    let s1 = vec![cp("2")];
    match run_comparison(&vec![s0, s1], 1) {
        RunResult::Mismatch { trails, .. } => {
            assert_eq!(trails[0], vec!["1".to_string()]);
            assert_eq!(trails[1], vec!["2".to_string()]);
        },
        RunResult::Success => panic!("divergence must be detected"),
    }
}

fn events_from_output(lines: &[&str]) -> Vec<Event> {
    let mut out = Vec::new();
    for line in lines {
        if let Some(e) = line_to_event(line) {
            out.push(e);
        }
    }
    out
}

#[test]
fn diverging_manifest_scenario_reports_both_trails() {
    let text = "build:\necho building\n\ntest:\na: printf 'RUNTIME CHECK: 1\\nRUNTIME CHECK: 2\\n'\nb: printf 'RUNTIME CHECK: 1\\nRUNTIME CHECK: 3\\n'\n";
    let m = parse_manifest(text);
    assert_eq!(m.build_commands, vec!["echo building".to_string()]);
    assert_eq!(m.test_specs.len(), 2);
    // the outputs the two configured commands would print
    let out_a = events_from_output(&["RUNTIME CHECK: 1", "RUNTIME CHECK: 2"]);
    let out_b = events_from_output(&["RUNTIME CHECK: 1", "RUNTIME CHECK: 3"]);
    match run_comparison(&vec![out_a, out_b], 32) {
        RunResult::Mismatch { round, trails } => {
            assert_eq!(round, 1);
            assert_eq!(trails.len(), 2);
            assert_eq!(trails[0][1], "RUNTIME CHECK: 2");
            assert_eq!(trails[1][1], "RUNTIME CHECK: 3");
        },
        RunResult::Success => panic!("the second checkpoint diverges"),
    }
}

#[test]
fn agreeing_manifest_scenario_succeeds() {
    let text = "build:\necho building\n\ntest:\na: printf 'RUNTIME CHECK: 1\\nRUNTIME CHECK: 2\\n'\nb: printf 'RUNTIME CHECK: 1\\nRUNTIME CHECK: 2\\n'\n";
    let m = parse_manifest(text);
    assert_eq!(m.test_specs.len(), 2);
    let out_a = events_from_output(&["RUNTIME CHECK: 1", "RUNTIME CHECK: 2"]);
    let out_b = events_from_output(&["RUNTIME CHECK: 1", "RUNTIME CHECK: 2"]);
    assert!(matches!(
        run_comparison(&vec![out_a, out_b], 32),
        RunResult::Success
    ));
}

#[test]
fn plain_lines_are_not_compared() {
    let out_a = events_from_output(&["starting up", "RUNTIME CHECK: 1", "log text"]);
    let out_b = events_from_output(&["different banner", "RUNTIME CHECK: 1"]);
    assert!(matches!(
        run_comparison(&vec![out_a, out_b], 32),
        RunResult::Success
    ));
}
