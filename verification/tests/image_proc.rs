use ggst_clipper::geometry::{clamp_roi, template_is_native, BBox};
use ggst_clipper::imaging::{crop_and_resize_template, crop_template};
use ggst_clipper::roi::{extract_roi, template_sums, window_sums};

fn frame_2x2() -> Vec<u8> {
    vec![1, 2, 3, 4, 5, 6, 7, 8, 9, 10, 11, 12]
}

#[test]
fn extract_roi_inside_frame() {
    let buf = frame_2x2();
    assert_eq!(extract_roi(&buf, 2, 2, BBox::new(0, 0, 2, 2)), buf);
    assert_eq!(extract_roi(&buf, 2, 2, BBox::new(1, 1, 1, 1)), vec![10, 11, 12]);
}

#[test]
fn extract_roi_pads_outside_with_black() {
    let buf = frame_2x2();
    assert_eq!(
        extract_roi(&buf, 2, 2, BBox::new(1, 0, 2, 2)),
        vec![4, 5, 6, 0, 0, 0, 10, 11, 12, 0, 0, 0]
    );
    assert_eq!(extract_roi(&buf, 2, 2, BBox::new(0, 1, 1, 2)), vec![7, 8, 9, 0, 0, 0]);
    assert_eq!(extract_roi(&buf, 2, 2, BBox::new(5, 5, 1, 1)), vec![0, 0, 0]);
    assert!(extract_roi(&buf, 2, 2, BBox::new(0, 0, 0, 3)).is_empty());
}

#[test]
fn template_sums_exact() {
    let t = template_sums(&[1, 2, 3]);
    assert_eq!(t.len, 3);
    assert_eq!(t.sum, 6);
    assert_eq!(t.square_sum, 14);
    let e = template_sums(&[]);
    assert_eq!((e.len, e.sum, e.square_sum), (0, 0, 0));
}

#[test]
fn window_sums_exact() {
    let buf = frame_2x2();
    let s = window_sums(&buf, 2, 2, BBox::new(0, 0, 2, 1), &[1, 1, 1, 1, 1, 1]);
    assert_eq!(s.sum, 21);
    assert_eq!(s.square_sum, 91);
    assert_eq!(s.cross_sum, 21);
}

#[test]
fn window_matching_template_correlates_perfectly() {
    let buf = frame_2x2();
    let template = extract_roi(&buf, 2, 2, BBox::new(1, 0, 1, 2));
    let t = template_sums(&template);
    let s = window_sums(&buf, 2, 2, BBox::new(1, 0, 1, 2), &template);
    assert_eq!(s.sum, t.sum);
    assert_eq!(s.square_sum, t.square_sum);
    assert_eq!(s.cross_sum, t.square_sum);
}

#[test]
fn template_at_native_resolution() {
    // 100x100 image, region (10, 20, 30, 40), target 100x100.
    assert!(template_is_native(100, 100, 100, 100));
    let img = vec![0u8; 100 * 100 * 3];
    let t = crop_template(&img, 100, 100, BBox::new(10, 20, 30, 40));
    assert_eq!(t.region, BBox::new(10, 20, 30, 40));
    assert_eq!(t.pixels.len(), 30 * 40 * 3);
}

#[test]
fn template_upscaled_to_4k() {
    // 1920x1080 image, region (100, 200, 300, 400), target 3840x2160 (2x).
    assert!(!template_is_native(1920, 1080, 3840, 2160));
    let img = vec![0u8; 1920 * 1080 * 3];
    let source = clamp_roi(BBox::new(100, 200, 300, 400), 1920, 1080);
    let target = clamp_roi(BBox::new(200, 400, 600, 800), 3840, 2160);
    assert_eq!(target, BBox::new(200, 400, 600, 800));
    let t = crop_and_resize_template(&img, 1920, 1080, source, target);
    assert_eq!(t.region, BBox::new(200, 400, 600, 800));
    assert_eq!(t.pixels.len(), 600 * 800 * 3);
}

#[test]
fn template_downscaled_to_720p() {
    // 1920x1080 image, region (192, 108, 384, 216), target 1280x720 (2/3x).
    let img = vec![0u8; 1920 * 1080 * 3];
    let source = clamp_roi(BBox::new(192, 108, 384, 216), 1920, 1080);
    let target = clamp_roi(BBox::new(128, 72, 256, 144), 1280, 720);
    let t = crop_and_resize_template(&img, 1920, 1080, source, target);
    assert_eq!(t.region, BBox::new(128, 72, 256, 144));
    assert_eq!(t.pixels.len(), 256 * 144 * 3);
}

#[test]
fn clamp_roi_cuts_at_image_edge() {
    assert_eq!(clamp_roi(BBox::new(90, 95, 30, 30), 100, 100), BBox::new(90, 95, 10, 5));
    assert_eq!(clamp_roi(BBox::new(200, 200, 30, 30), 100, 100), BBox::new(99, 99, 1, 1));
    assert_eq!(clamp_roi(BBox::new(0, 0, 0, 0), 100, 100), BBox::new(0, 0, 1, 1));
    assert!(template_is_native(640, 480, 0, 720));
}

#[test]
fn resized_template_of_flat_image_stays_flat() {
    let img: Vec<u8> = [100u8, 150, 200].repeat(4 * 4);
    let t = crop_and_resize_template(&img, 4, 4, BBox::new(1, 1, 2, 2), BBox::new(0, 0, 4, 4));
    assert_eq!(t.pixels, [100u8, 150, 200].repeat(16));
    assert_eq!(t.sums.sum, (100 + 150 + 200) * 16);
}
