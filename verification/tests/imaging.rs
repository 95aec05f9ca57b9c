use ggst_clipper::geometry::BBox;
use ggst_clipper::imaging::{crop_image, drawn_bbox, gray_levels, min_max_levels, resize_image};

#[test]
fn gray_levels_weights() {
    assert_eq!(gray_levels(&[255, 255, 255, 0, 0, 0, 10, 20, 30]), vec![255, 0, 18]);
}

#[test]
fn min_max_levels_of_gray() {
    assert_eq!(min_max_levels(&[5, 3, 9]), (3, 9));
    assert_eq!(min_max_levels(&[]), (255, 0));
}

#[test]
fn drawn_bbox_finds_non_white() {
    let mut px = [255u8, 255, 255, 255].repeat(6);
    px[4..8].copy_from_slice(&[0, 0, 0, 255]);
    px[20..24].copy_from_slice(&[255, 0, 0, 255]);
    assert_eq!(drawn_bbox(&px, 3, 2, true), Some(BBox::new(1, 0, 2, 2)));
    let white = [255u8, 255, 255, 255].repeat(6);
    assert_eq!(drawn_bbox(&white, 3, 2, true), None);
    let mut clear = white.clone();
    clear[0..4].copy_from_slice(&[0, 0, 0, 0]);
    assert_eq!(drawn_bbox(&clear, 3, 2, true), None);
    assert_eq!(drawn_bbox(&clear, 3, 2, false), Some(BBox::new(0, 0, 1, 1)));
}

#[test]
fn crop_image_bounds_region() {
    let buf = vec![1, 2, 3, 4, 5, 6, 7, 8, 9, 10, 11, 12];
    assert_eq!(crop_image(&buf, 2, 2, BBox::new(1, 1, 5, 5)), (BBox::new(1, 1, 1, 1), vec![10, 11, 12]));
    assert_eq!(crop_image(&buf, 2, 2, BBox::new(5, 5, 1, 1)), (BBox::new(2, 2, 0, 0), vec![]));
    assert_eq!(crop_image(&buf, 2, 2, BBox::new(0, 0, 2, 1)).1, vec![1, 2, 3, 4, 5, 6]);
}

#[test]
fn resize_image_sizes() {
    let buf = vec![1, 2, 3, 4, 5, 6, 7, 8, 9, 10, 11, 12];
    assert_eq!(resize_image(&buf, 2, 2, 2, 2), buf);
    assert_eq!(resize_image(&[100, 150, 200], 1, 1, 2, 2), [100u8, 150, 200].repeat(4));
    assert_eq!(resize_image(&buf, 2, 2, 3, 1).len(), 9);
}
