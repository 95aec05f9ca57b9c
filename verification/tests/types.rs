use ggst_clipper::geometry::{probe_layout, BBox, ProbeLayout};

#[test]
fn bbox_new_sets_fields() {
    let b = BBox::new(1, 2, 3, 4);
    assert_eq!((b.x, b.y, b.width, b.height), (1, 2, 3, 4));
}

#[test]
fn bbox_union_covers_both() {
    let a = BBox::new(10, 20, 30, 40);
    let b = BBox::new(25, 5, 100, 10);
    assert_eq!(a.union(&b), BBox::new(10, 5, 115, 55));
    assert_eq!(b.union(&a), BBox::new(10, 5, 115, 55));
    assert_eq!(a.union(&a), a);
}

#[test]
fn probe_layout_of_two_regions() {
    let l = probe_layout(Some(BBox::new(100, 50, 20, 10)), Some(BBox::new(110, 40, 50, 5))).unwrap();
    assert_eq!(
        l,
        ProbeLayout {
            crop: BBox::new(100, 40, 60, 20),
            first: BBox::new(0, 10, 20, 10),
            second: BBox::new(10, 0, 50, 5),
        }
    );
}

#[test]
fn probe_layout_of_one_region() {
    let l = probe_layout(None, Some(BBox::new(7, 8, 9, 10))).unwrap();
    assert_eq!(l.crop, BBox::new(7, 8, 9, 10));
    assert_eq!(l.first, BBox::new(0, 0, 0, 0));
    assert_eq!(l.second, BBox::new(0, 0, 9, 10));
    assert!(probe_layout(None, None).is_none());
}
