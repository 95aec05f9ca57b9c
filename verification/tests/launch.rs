use ggst_clipper::launch::{launch_arguments, LaunchSettings};

fn settings(detect: bool, out: &str) -> LaunchSettings {
    LaunchSettings {
        output_dir: out.to_string(),
        start_template: "s.png".to_string(),
        end_template: "e.png".to_string(),
        win_template: "w.png".to_string(),
        lose_template: "l.png".to_string(),
        detect_win_loss: detect,
        detect_characters: true,
        threshold_text: "0.9".to_string(),
        step_frames: 60,
        start_offset: 0,
        end_offset: -120,
        win_offset: 180,
        start_roi: [1, 2, 3, 4],
        end_roi: [5, 6, 7, 8],
        win_roi: [9, 10, 11, 12],
        lose_roi: [13, 14, 15, 16],
    }
}

#[test]
fn launch_arguments_with_result_detection() {
    let args = launch_arguments(&settings(true, "out"), "v.mp4");
    let expected = vec![
        "-i", "v.mp4", "-o", "out", "--start-template", "s.png", "--end-template", "e.png",
        "--win-template", "w.png", "--lose-template", "l.png", "--threshold", "0.9",
        "--step-frames", "60", "--start-offset", "0", "--end-offset", "-120", "--win-offset",
        "180", "--detect-characters", "true", "--start-roi", "1,2,3,4", "--end-roi", "5,6,7,8",
        "--win-roi", "9,10,11,12", "--lose-roi", "13,14,15,16",
    ];
    assert_eq!(args, expected);
}

#[test]
fn launch_arguments_without_result_detection() {
    let args = launch_arguments(&settings(false, ""), "v.mp4");
    assert_eq!(&args[0..2], &["-i", "v.mp4"]);
    assert_eq!(args[2], "--start-template");
    assert_eq!(args[7], "");
    assert_eq!(args[9], "");
    assert_eq!(&args[args.len() - 4..], &["--win-roi", "0,0,0,0", "--lose-roi", "0,0,0,0"]);
}
