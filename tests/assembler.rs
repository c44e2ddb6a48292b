use rg_fancy::{RgResult, RgResults, SearchEvent};

fn m(lines: &[&str], idx: u64) -> SearchEvent {
    SearchEvent::Match { lines: lines.iter().map(|s| s.to_string()).collect(), line_idx: Some(idx) }
}

fn c(line: &str) -> SearchEvent {
    SearchEvent::Context { line: line.to_string() }
}

fn run<const N: usize>(events: Vec<SearchEvent>) -> Vec<RgResult<N>> {
    let mut acc = RgResults::<N>::from_path("f.txt".to_string());
    for e in events {
        acc.process(e);
    }
    let (path, records) = acc.into_raw();
    assert_eq!(path, "f.txt");
    records
}

fn slots(window: &[Option<String>]) -> Vec<Option<&str>> {
    window.iter().map(|s| s.as_deref()).collect()
}

fn matched<const N: usize>(r: &RgResult<N>) -> Vec<&str> {
    r.matched.as_ref().unwrap().iter().map(|s| s.as_str()).collect()
}

#[test]
fn single_match_without_context() {
    let rs = run::<2>(vec![m(&["foo"], 5)]);
    assert_eq!(rs.len(), 1);
    assert_eq!(slots(&rs[0].before), vec![None, None]);
    assert_eq!(slots(&rs[0].after), vec![None, None]);
    assert_eq!(matched(&rs[0]), vec!["foo"]);
    assert_eq!(rs[0].line_idx, Some(5));
}

#[test]
fn match_with_full_context() {
    let rs = run::<2>(vec![c("a"), c("b"), m(&["X"], 3), c("c"), c("d")]);
    assert_eq!(rs.len(), 1);
    assert_eq!(slots(&rs[0].before), vec![Some("a"), Some("b")]);
    assert_eq!(matched(&rs[0]), vec!["X"]);
    assert_eq!(slots(&rs[0].after), vec![Some("c"), Some("d")]);
    assert_eq!(rs[0].line_idx, Some(3));
}

#[test]
fn adjacent_matches_share_lines() {
    let rs = run::<2>(vec![m(&["m1"], 1), m(&["m2"], 2)]);
    assert_eq!(rs.len(), 2);
    assert_eq!(slots(&rs[0].after), vec![Some("m2"), None]);
    assert_eq!(slots(&rs[1].before), vec![None, Some("m1")]);
    assert_eq!(slots(&rs[0].before), vec![None, None]);
    assert_eq!(slots(&rs[1].after), vec![None, None]);
}

#[test]
fn matches_one_line_apart_share_the_line() {
    let rs = run::<2>(vec![m(&["m1"], 1), c("c1"), m(&["m2"], 3)]);
    assert_eq!(rs.len(), 2);
    assert_eq!(slots(&rs[0].after), vec![Some("c1"), Some("m2")]);
    assert_eq!(slots(&rs[1].before), vec![Some("m1"), Some("c1")]);
}

#[test]
fn context_only_gives_no_record() {
    assert!(run::<2>(vec![c("a"), c("b"), c("c")]).is_empty());
    assert!(run::<2>(vec![]).is_empty());
    assert!(run::<0>(vec![c("a")]).is_empty());
}

#[test]
fn match_near_file_start_pads_with_unknown() {
    let rs = run::<3>(vec![c("a"), m(&["X"], 2)]);
    assert_eq!(slots(&rs[0].before), vec![None, None, Some("a")]);
    let rs = run::<3>(vec![c("a"), c("b"), m(&["X"], 3)]);
    assert_eq!(slots(&rs[0].before), vec![None, Some("a"), Some("b")]);
}

#[test]
fn replay_gives_same_records() {
    let events = || vec![c("a"), m(&["m1", "m1b"], 2), c("b"), c("c"), c("d"), m(&["m2"], 7), c("e")];
    let first = run::<2>(events());
    let second = run::<2>(events());
    assert_eq!(first.len(), second.len());
    for (x, y) in first.iter().zip(second.iter()) {
        assert_eq!(x.line_idx, y.line_idx);
        assert_eq!(x.before, y.before);
        assert_eq!(x.after, y.after);
        assert_eq!(x.matched, y.matched);
    }
}

#[test]
fn windows_never_hold_made_up_lines() {
    // Every known slot names a line that was emitted, at the right distance.
    let rs = run::<2>(vec![c("a"), m(&["m1"], 2), c("b"), c("c"), c("d"), m(&["m2"], 6), c("e")]);
    assert_eq!(rs.len(), 2);
    assert_eq!(slots(&rs[0].before), vec![None, Some("a")]);
    assert_eq!(slots(&rs[0].after), vec![Some("b"), Some("c")]);
    assert_eq!(slots(&rs[1].before), vec![Some("c"), Some("d")]);
    assert_eq!(slots(&rs[1].after), vec![Some("e"), None]);
}

#[test]
fn stub_shorter_than_window_borrows_from_previous() {
    let rs = run::<3>(vec![m(&["m1"], 1), c("a"), c("b"), c("c"), c("d"), m(&["m2"], 6)]);
    assert_eq!(slots(&rs[0].after), vec![Some("a"), Some("b"), Some("c")]);
    assert_eq!(slots(&rs[1].before), vec![Some("b"), Some("c"), Some("d")]);
}

#[test]
fn stub_keeps_only_latest_lines() {
    let rs = run::<2>(vec![c("a"), c("b"), c("c"), c("d"), m(&["X"], 5)]);
    assert_eq!(slots(&rs[0].before), vec![Some("c"), Some("d")]);
}

#[test]
fn multi_line_match_fills_windows() {
    let rs = run::<3>(vec![m(&["m1"], 1), m(&["m2", "m3"], 2), c("a")]);
    assert_eq!(slots(&rs[0].after), vec![Some("m2"), Some("m3"), Some("a")]);
    assert_eq!(slots(&rs[1].before), vec![None, None, Some("m1")]);
    assert_eq!(matched(&rs[1]), vec!["m2", "m3"]);
    assert_eq!(slots(&rs[1].after), vec![Some("a"), None, None]);
}

#[test]
fn back_fill_reaches_several_open_records() {
    let rs = run::<3>(vec![m(&["m1"], 1), m(&["m2"], 2), m(&["m3"], 3), c("a")]);
    assert_eq!(slots(&rs[0].after), vec![Some("m2"), Some("m3"), Some("a")]);
    assert_eq!(slots(&rs[1].after), vec![Some("m3"), Some("a"), None]);
    assert_eq!(slots(&rs[2].before), vec![None, Some("m1"), Some("m2")]);
    assert_eq!(slots(&rs[2].after), vec![Some("a"), None, None]);
}

#[test]
fn before_window_reaches_past_previous_match() {
    let rs = run::<3>(vec![c("z"), m(&["m1"], 2), m(&["m2"], 3)]);
    assert_eq!(slots(&rs[1].before), vec![None, Some("z"), Some("m1")]);
    let rs = run::<1>(vec![c("z"), m(&["m1"], 2), c("y"), m(&["m2"], 4)]);
    assert_eq!(slots(&rs[1].before), vec![Some("y")]);
    assert_eq!(slots(&rs[0].after), vec![Some("y")]);
}

#[test]
fn zero_context_length() {
    let rs = run::<0>(vec![c("a"), m(&["m1"], 2), c("b"), m(&["m2"], 4), c("c")]);
    assert_eq!(rs.len(), 2);
    assert!(rs[0].before.is_empty() && rs[0].after.is_empty());
    assert_eq!(matched(&rs[1]), vec!["m2"]);
    assert_eq!(rs[1].line_idx, Some(4));
}

#[test]
fn unknown_line_number_is_kept_unknown() {
    let mut acc = RgResults::<1>::from_path("p".to_string());
    acc.matched(vec!["x".to_string()], None);
    acc.context("y".to_string());
    let (_, rs) = acc.into_raw();
    assert_eq!(rs[0].line_idx, None);
    assert_eq!(slots(&rs[0].after), vec![Some("y")]);
}

#[test]
fn trailing_context_after_full_window_is_dropped() {
    let rs = run::<1>(vec![m(&["m"], 1), c("a"), c("b"), c("c")]);
    assert_eq!(rs.len(), 1);
    assert_eq!(slots(&rs[0].after), vec![Some("a")]);
}
