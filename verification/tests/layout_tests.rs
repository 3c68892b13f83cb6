use store_nav::layout::Orientation;

#[test]
fn vertical_keeps_the_pair() {
    assert_eq!(Orientation::Vertical.transform_coords(3.5f32, -2.0f32), (3.5, -2.0));
    assert!(!Orientation::Vertical.is_horizontal());
}

#[test]
fn horizontal_swaps_the_pair() {
    assert_eq!(Orientation::Horizontal.transform_coords(3.5f32, -2.0f32), (-2.0, 3.5));
    assert!(Orientation::Horizontal.is_horizontal());
}

#[test]
fn transforming_twice_gives_the_pair_back() {
    for orientation in [Orientation::Vertical, Orientation::Horizontal] {
        let (a, b) = orientation.transform_coords(7i32, -9i32);
        assert_eq!(orientation.transform_coords(a, b), (7, -9));
    }
}

#[test]
fn horizontal_once_is_not_the_identity() {
    assert_ne!(Orientation::Horizontal.transform_coords(1i32, 2i32), (1, 2));
    assert_eq!(Orientation::Horizontal.transform_coords(4i32, 4i32), (4, 4));
}
