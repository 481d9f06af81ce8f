use lgrep::line::LineDetails;
use lgrep::scan::scan_lines;
use lgrep::scan::ScanEvent;

const START: &str = "\x1b[91;1m";
const END: &str = "\x1b[0m";

fn strings(xs: &[&str]) -> Vec<String> {
    xs.iter().map(|s| s.to_string()).collect()
}

fn expect_context(ev: &ScanEvent, want_index: usize, want_text: &str) {
    match ev {
        ScanEvent::Context { index, text } => {
            assert_eq!(*index, want_index);
            assert_eq!(text, want_text);
        },
        ScanEvent::Match { .. } => panic!("expected a context event"),
    }
}

fn expect_match(ev: &ScanEvent, want_index: usize, want_text: &str) {
    match ev {
        ScanEvent::Match { index, text } => {
            assert_eq!(*index, want_index);
            assert_eq!(text, want_text);
        },
        ScanEvent::Context { .. } => panic!("expected a match event"),
    }
}

#[test]
fn context_one_before_and_after_two_matches() {
    // lines alpha..delta, term beta, context 1: every line is emitted once
    let lines = strings(&["alpha", "beta", "gamma", "beta", "delta"]);
    let events = scan_lines(&lines, "beta", 1);
    assert_eq!(events.len(), 5);
    let beta = format!("{}beta{}", START, END);
    expect_context(&events[0], 0, "alpha");
    expect_match(&events[1], 1, &beta);
    expect_context(&events[2], 2, "gamma");
    expect_match(&events[3], 3, &beta);
    expect_context(&events[4], 4, "delta");
}

#[test]
fn zero_context_emits_matches_only() {
    let lines = strings(&["alpha", "beta", "gamma", "beta", "delta"]);
    let events = scan_lines(&lines, "beta", 0);
    assert_eq!(events.len(), 2);
    let beta = format!("{}beta{}", START, END);
    expect_match(&events[0], 1, &beta);
    expect_match(&events[1], 3, &beta);
}

#[test]
fn lines_far_from_any_match_are_never_emitted() {
    let lines = strings(&["a0", "a1", "a2", "hit", "b0", "b1", "b2"]);
    let events = scan_lines(&lines, "hit", 2);
    assert_eq!(events.len(), 5);
    expect_context(&events[0], 1, "a1");
    expect_context(&events[1], 2, "a2");
    expect_match(&events[2], 3, &format!("{}hit{}", START, END));
    expect_context(&events[3], 4, "b0");
    expect_context(&events[4], 5, "b1");
}

#[test]
fn match_inside_after_window_is_a_match() {
    // a line that both matches and sits in another match's after window is
    // emitted as a match, never as context
    let lines = strings(&["hit one", "hit two", "rest"]);
    let events = scan_lines(&lines, "hit", 2);
    assert_eq!(events.len(), 3);
    expect_match(&events[0], 0, &format!("{}hit{} one", START, END));
    expect_match(&events[1], 1, &format!("{}hit{} two", START, END));
    expect_context(&events[2], 2, "rest");
}

#[test]
fn close_matches_never_emit_a_line_twice() {
    // after-window of the first match overlaps the before-window of the
    // second; each intervening line appears exactly once
    let lines = strings(&["hit a", "x1", "x2", "hit b", "y1"]);
    let events = scan_lines(&lines, "hit", 3);
    assert_eq!(events.len(), 5);
    expect_match(&events[0], 0, &format!("{}hit{} a", START, END));
    expect_context(&events[1], 1, "x1");
    expect_context(&events[2], 2, "x2");
    expect_match(&events[3], 3, &format!("{}hit{} b", START, END));
    expect_context(&events[4], 4, "y1");
}

#[test]
fn buffer_keeps_only_most_recent_lines() {
    let lines = strings(&["far", "near2", "near1", "hit"]);
    let events = scan_lines(&lines, "hit", 2);
    assert_eq!(events.len(), 3);
    expect_context(&events[0], 1, "near2");
    expect_context(&events[1], 2, "near1");
    expect_match(&events[2], 3, &format!("{}hit{}", START, END));
}

#[test]
fn empty_input_yields_no_events() {
    let lines: Vec<String> = Vec::new();
    let events = scan_lines(&lines, "hit", 3);
    assert_eq!(events.len(), 0);
}

#[test]
fn no_matching_line_yields_no_events() {
    let lines = strings(&["alpha", "gamma", "delta"]);
    let events = scan_lines(&lines, "beta", 255);
    assert_eq!(events.len(), 0);
}

#[test]
fn line_details_starts_empty() {
    let d = LineDetails::new();
    assert_eq!(d.line, "");
    assert_eq!(d.number, 0);
}

#[test]
fn line_details_update_overwrites_in_place() {
    let mut d = LineDetails::new();
    d.update_details("some text".to_string(), 41);
    assert_eq!(d.line, "some text");
    assert_eq!(d.number, 41);
    d.update_details("other".to_string(), 7);
    assert_eq!(d.line, "other");
    assert_eq!(d.number, 7);
}
