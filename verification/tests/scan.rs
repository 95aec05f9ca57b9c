use ggst_clipper::geometry::{MatchResult, SearchState};
use ggst_clipper::scan::{frame_verdict, result_probe_runs, ScanAction, Scanner};

#[test]
fn scanner_alternates_start_and_end() {
    let mut s = Scanner::new(60);
    assert_eq!(s.on_frame(false), ScanAction::Continue);
    assert_eq!(s.on_frame(true), ScanAction::RefineStart { left_frame: 0, frame_count: 61 });
    assert_eq!(s.state, SearchState::SearchEnd);
    assert!(s.has_open_clip());
    assert_eq!(s.on_frame(false), ScanAction::Continue);
    assert_eq!(s.on_frame(true), ScanAction::RefineEnd { left_frame: 120, frame_count: 61 });
    assert_eq!(s.state, SearchState::SearchStart);
    assert!(!s.has_open_clip());
    assert_eq!(s.frame_index, 240);
    assert_eq!(s.frames_read, 4);
}

#[test]
fn scanner_first_frame_match_searches_from_zero() {
    let mut s = Scanner::new(30);
    assert_eq!(s.on_frame(true), ScanAction::RefineStart { left_frame: 0, frame_count: 31 });
    assert_eq!(s.on_frame(true), ScanAction::RefineEnd { left_frame: 0, frame_count: 31 });
    assert_eq!(s.on_frame(true), ScanAction::RefineStart { left_frame: 30, frame_count: 31 });
}

#[test]
fn frame_verdict_prefers_win() {
    assert_eq!(frame_verdict(true, true), Some(MatchResult::Win));
    assert_eq!(frame_verdict(false, true), Some(MatchResult::Lose));
    assert_eq!(frame_verdict(false, false), None);
}

#[test]
fn result_probe_skipped_without_frames_or_regions() {
    assert!(!result_probe_runs(0, true, true));
    assert!(!result_probe_runs(180, false, false));
    assert!(result_probe_runs(180, false, true));
}
