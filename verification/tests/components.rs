use ggst_clipper::components::connected_components;

#[test]
fn components_found_in_raster_order() {
    let mask = vec![
        true, true, false, false,
        false, false, false, true,
        true, false, true, true,
    ];
    let comps = connected_components(&mask, 4, 3);
    assert_eq!(comps.len(), 3);
    assert_eq!(comps[0].cells, vec![(0, 0), (1, 0)]);
    assert_eq!((comps[0].min_x, comps[0].max_x, comps[0].min_y, comps[0].max_y), (0, 1, 0, 0));
    assert_eq!(comps[1].cells, vec![(3, 1), (3, 2), (2, 2)]);
    assert_eq!((comps[1].min_x, comps[1].max_x, comps[1].min_y, comps[1].max_y), (2, 3, 1, 2));
    assert_eq!(comps[2].cells, vec![(0, 2)]);
}

#[test]
fn components_of_empty_and_full_masks() {
    assert!(connected_components(&[false; 6], 3, 2).is_empty());
    let comps = connected_components(&[true; 6], 3, 2);
    assert_eq!(comps.len(), 1);
    assert_eq!(comps[0].cells.len(), 6);
    assert_eq!((comps[0].min_x, comps[0].max_x, comps[0].min_y, comps[0].max_y), (0, 2, 0, 1));
    assert!(connected_components(&[], 0, 0).is_empty());
}

#[test]
fn diagonal_cells_are_separate_components() {
    let comps = connected_components(&[true, false, false, true], 2, 2);
    assert_eq!(comps.len(), 2);
    assert_eq!(comps[0].cells, vec![(0, 0)]);
    assert_eq!(comps[1].cells, vec![(1, 1)]);
}

#[test]
fn component_cells_follow_depth_first_order() {
    let comps = connected_components(&[true; 4], 2, 2);
    assert_eq!(comps.len(), 1);
    assert_eq!(comps[0].cells, vec![(0, 0), (0, 1), (1, 1), (1, 0)]);
}
