use ggst_clipper::geometry::MatchResult;
use ggst_clipper::text::{clip_file_name, format_duration, sanitize_filename_component};

#[test]
fn test_sanitize_filename_component() {
    assert_eq!(sanitize_filename_component("BEDMAN?"), "BEDMAN");
    assert_eq!(sanitize_filename_component("POTEMKIN"), "POTEMKIN");
    assert_eq!(sanitize_filename_component("ASUKA R#"), "ASUKA R#");
    assert_eq!(sanitize_filename_component("A.B.A"), "A.B.A");
    assert_eq!(sanitize_filename_component("A.B.A."), "A.B.A");
    assert_eq!(sanitize_filename_component("?*:<>|/\\"), "");
    assert_eq!(sanitize_filename_component("  BEDMAN?  "), "BEDMAN");
}

#[test]
fn sanitize_drops_control_characters_and_unicode_space() {
    assert_eq!(sanitize_filename_component("\u{3000}SOL\tBADGUY\u{1}."), "SOLBADGUY");
    assert_eq!(sanitize_filename_component("...."), "");
    assert_eq!(sanitize_filename_component(""), "");
}

#[test]
fn sanitize_is_idempotent_on_examples() {
    for name in ["  A.B.A.  ", "JACK-O", "I-NO?", " . x . "] {
        let once = sanitize_filename_component(name);
        assert_eq!(sanitize_filename_component(&once), once);
    }
}

#[test]
fn format_duration_pads_fields() {
    assert_eq!(format_duration(0), "00:00:00");
    assert_eq!(format_duration(59), "00:00:59");
    assert_eq!(format_duration(3661), "01:01:01");
    assert_eq!(format_duration(86399), "23:59:59");
    assert_eq!(format_duration(360000), "100:00:00");
}

#[test]
fn clip_file_name_with_both_characters() {
    assert_eq!(
        clip_file_name(MatchResult::Win, "match", Some("SOL"), Some("KY"), 1),
        "win-match-SOL-vs-KY-part001.mp4"
    );
}

#[test]
fn clip_file_name_with_missing_characters() {
    assert_eq!(
        clip_file_name(MatchResult::Lose, "v", Some("MAY"), None, 12),
        "lose-v-MAY-vs-Unknown-part012.mp4"
    );
    assert_eq!(
        clip_file_name(MatchResult::Unknown, "v", None, Some("AXL"), 3),
        "unknown-v-Unknown-vs-AXL-part003.mp4"
    );
    assert_eq!(
        clip_file_name(MatchResult::Skipped, "video", None, None, 1234),
        "video-part1234.mp4"
    );
}
