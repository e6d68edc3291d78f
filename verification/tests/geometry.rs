use magic_paper::geometry::{clamp, clipped_end, Point, Rectangle, Size};

#[test]
fn corners_span_a_rectangle() {
    let r = Rectangle::with_corners(Point::new(5, -2), Point::new(1, 3));
    assert_eq!(r, Rectangle::new(Point::new(1, -2), Size::new(5, 6)));
    assert_eq!(r.bottom_right(), Some(Point::new(5, 3)));
}

#[test]
fn empty_rectangles_have_no_corner() {
    let r = Rectangle::new(Point::new(4, 4), Size::new(0, 9));
    assert!(r.is_zero_sized());
    assert_eq!(r.bottom_right(), None);
    assert!(!r.contains(Point::new(4, 4)));
}

#[test]
fn edges_are_inside() {
    let r = Rectangle::new(Point::new(380, 20), Size::new(80, 56));
    assert!(r.contains(Point::new(380, 20)));
    assert!(r.contains(Point::new(459, 75)));
    assert!(!r.contains(Point::new(460, 75)));
    assert!(!r.contains(Point::new(459, 76)));
    assert!(!r.contains(Point::new(379, 20)));
    assert_eq!(r.center(), Point::new(419, 47));
}

#[test]
fn runs_stop_at_the_largest_coordinate() {
    assert_eq!(clipped_end(3, 4), 7);
    assert_eq!(clipped_end(i32::MAX - 1, 5), i32::MAX);
    assert_eq!(clipped_end(i32::MIN, u32::MAX), -1);
    assert_eq!(clamp(-3, 0, 9), 0);
    assert_eq!(clamp(12, 0, 9), 9);
    assert_eq!(clamp(4, 0, 9), 4);
}
