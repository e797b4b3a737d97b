use common::scene::{resize_selection, selection_rect, triangle_at, window_center};

#[test]
fn triangle_hangs_below_its_origin() {
    assert_eq!(triangle_at(&(25, 25)), [(25, 25), (85, 85), (25, 165)]);
}

#[test]
fn centre_of_odd_window_rounds_down() {
    assert_eq!(window_center(801, 600), (400, 300));
}

#[test]
fn selection_spans_both_sides_of_centre() {
    assert_eq!(selection_rect(&(400, 300), &(100, 50)), ((300, 250), (500, 350)));
}

#[test]
fn selection_shrinks_only_while_large() {
    assert_eq!(resize_selection(&(100, 100), true), (96, 96));
    assert_eq!(resize_selection(&(100, 100), false), (104, 104));
    assert_eq!(resize_selection(&(10, 50), true), (14, 54));
    assert_eq!(resize_selection(&(11, 11), true), (7, 7));
}
