use ggst_clipper::ocr::{clean_ocr_text, ctc_collapse, ctc_text, keep_name_chars, names_overlap};

#[test]
fn clean_ocr_text_uppercases_and_filters() {
    assert_eq!(clean_ocr_text("bedman ?"), "BEDMAN?");
    assert_eq!(clean_ocr_text("Sol!"), "SOL");
    assert_eq!(clean_ocr_text("asuka r#"), "ASUKAR#");
    assert_eq!(clean_ocr_text("  "), "");
}

#[test]
fn keep_name_chars_keeps_lowercase_ascii() {
    assert_eq!(keep_name_chars("a.b-c (d)"), "a.b-cd");
}

#[test]
fn names_overlap_either_way() {
    assert!(names_overlap("BEDMAN", "BEDMAN?"));
    assert!(names_overlap("XXJACK-OXX", "JACK-O"));
    assert!(!names_overlap("SOL", "KY"));
    assert!(!names_overlap("SIN", "SOL"));
}

#[test]
fn ctc_collapse_removes_blanks_and_repeats() {
    assert_eq!(ctc_collapse(&[0, 3, 3, 0, 3, 5, 9], 6), vec![1, 4, 5]);
    assert_eq!(ctc_collapse(&[], 6), Vec::<usize>::new());
    assert_eq!(ctc_collapse(&[2, 2, 2], 3), vec![0]);
}

#[test]
fn ctc_text_joins_kept_characters() {
    let chars: Vec<String> = ["blank", "A", "B", " "].iter().map(|s| s.to_string()).collect();
    assert_eq!(ctc_text(&[0, 1, 1, 0, 1, 2, 5], &chars), "AAB");
    assert_eq!(ctc_text(&[3, 3, 2], &chars), " B");
    assert_eq!(ctc_text(&[], &chars), "");
}
