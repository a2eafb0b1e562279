use language_stats::shapes::rounded_corner_cutouts;

#[test]
fn corner_cutouts_of_a_small_rectangle() {
    // Centres (2, 2), (8, 2), (2, 8), (8, 8); pixels farther than 2 from them.
    let cut = rounded_corner_cutouts(0, 0, 10, 10, 2);
    assert_eq!(cut, vec![(0, 0), (1, 0), (0, 1), (9, 0), (0, 9)]);
}

#[test]
fn corner_cutouts_with_no_radius_are_empty() {
    assert!(rounded_corner_cutouts(0, 0, 10, 10, 0).is_empty());
    assert!(rounded_corner_cutouts(5, 5, 1, 1, -3).is_empty());
}

#[test]
fn corner_cutouts_far_from_the_origin() {
    let (x1, y1) = (i32::MAX, i32::MAX);
    let (x0, y0) = (x1 - 10, y1 - 10);
    let cut = rounded_corner_cutouts(x0, y0, x1, y1, 2);
    assert_eq!(cut, vec![(x0, y0), (x0 + 1, y0), (x0, y0 + 1), (x1 - 1, y0), (x0, y1 - 1)]);
}
