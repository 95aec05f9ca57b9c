use ggst_clipper::geometry::BBox;
use ggst_clipper::parse::{
    character_names, format_roi, parse_bool, parse_i32, parse_roi, parse_roi_values, parse_u32,
    stream_fields,
};

#[test]
fn parse_u32_follows_std() {
    for s in ["42", "+42", "0", "007", "4294967295", "", "+", "-1", "4294967296", "4 2", " 1", "x"] {
        assert_eq!(parse_u32(s), s.parse::<u32>().ok(), "{:?}", s);
    }
}

#[test]
fn parse_i32_follows_std() {
    for s in ["-2147483648", "2147483647", "2147483648", "-2147483649", "-0", "+7", "-", "--1", "12a"] {
        assert_eq!(parse_i32(s), s.parse::<i32>().ok(), "{:?}", s);
    }
}

#[test]
fn parse_bool_follows_std() {
    for s in ["true", "false", "True", "", "truee", " true"] {
        assert_eq!(parse_bool(s), s.parse::<bool>().ok(), "{:?}", s);
    }
}

#[test]
fn parse_roi_requires_positive_size() {
    assert_eq!(parse_roi("10,20,30,40"), Some(BBox::new(10, 20, 30, 40)));
    assert_eq!(parse_roi("10,20,0,40"), None);
    assert_eq!(parse_roi("1,2,3"), None);
    assert_eq!(parse_roi("1, 2,3,4"), None);
    assert_eq!(parse_roi("1,2,3,4,"), None);
}

#[test]
fn parse_roi_values_trims_fields() {
    assert_eq!(parse_roi_values(" 1, 2 ,3,4 "), Some([1, 2, 3, 4]));
    assert_eq!(parse_roi_values("0,0,0,0"), Some([0, 0, 0, 0]));
    assert_eq!(parse_roi_values("a,1,2,3"), None);
    assert_eq!(parse_roi_values("1,2,3"), None);
}

#[test]
fn format_roi_reads_back() {
    let r = [0, 7, 1920, 4294967295];
    assert_eq!(format_roi(&r), "0,7,1920,4294967295");
    assert_eq!(parse_roi_values(&format_roi(&r)), Some(r));
}

#[test]
fn character_names_file_parsing() {
    let text = "SOL\n# comment\n  ky : Ky Kiske\nsol=dup\n// x\nMAY=May\r\n\nA.B.A\nnone\n";
    assert_eq!(character_names(text), vec!["None", "SOL", "ky", "MAY", "A.B.A"]);
    assert_eq!(character_names(""), vec!["None"]);
}

#[test]
fn stream_fields_from_probe_output() {
    assert_eq!(stream_fields("1920,1080,60/1\n"), Some((1920, 1080, "60/1".to_string())));
    assert_eq!(
        stream_fields(" 1280,720,30000/1001\r\nmore"),
        Some((1280, 720, "30000/1001".to_string()))
    );
    assert_eq!(stream_fields("1920,1080"), None);
    assert_eq!(stream_fields("abc,1,2"), None);
    assert_eq!(stream_fields(""), None);
}
