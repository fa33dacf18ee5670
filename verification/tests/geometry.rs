use adventure_encounters::helpers::distance::{feet_to_tiles, is_within_feet, TILE_SIZE_IN_FEET};
use adventure_encounters::helpers::geometry::{Point, Rect};

#[test]
fn points_are_made_as_given() {
    assert_eq!(Point::new(3, -4), Point { x: 3, y: -4 });
    assert_eq!(Point::zero(), Point { x: 0, y: 0 });
}

#[test]
fn squared_distance_is_exact() {
    assert_eq!(Point::new(1, 1).distance_squared(Point::new(4, 5)), 25);
    assert_eq!(Point::new(4, 5).distance_squared(Point::new(1, 1)), 25);
    assert_eq!(Point::new(0, 0).distance_squared(Point::new(0, 0)), 0);
    let far = Point::new(i32::MIN, i32::MIN).distance_squared(Point::new(i32::MAX, i32::MAX));
    assert_eq!(far, 2 * (u32::MAX as u128) * (u32::MAX as u128));
}

#[test]
fn a_rectangle_is_built_from_corner_and_size() {
    let r = Rect::with_size(3, 4, 5, 6);
    assert_eq!(r, Rect { x1: 3, x2: 8, y1: 4, y2: 10 });
    assert_eq!(Rect::with_size(-3, -4, 2, 1), Rect { x1: -3, x2: -1, y1: -4, y2: -3 });
}

#[test]
fn rectangles_that_touch_intersect() {
    let a = Rect { x1: 0, x2: 4, y1: 0, y2: 4 };
    assert!(a.intersect(&a));
    assert!(a.intersect(&Rect { x1: 4, x2: 8, y1: 4, y2: 8 }));
    assert!(a.intersect(&Rect { x1: 2, x2: 3, y1: 2, y2: 3 }));
    assert!(!a.intersect(&Rect { x1: 5, x2: 8, y1: 0, y2: 4 }));
    assert!(!a.intersect(&Rect { x1: 0, x2: 4, y1: 5, y2: 6 }));
    assert!(!Rect { x1: 5, x2: 8, y1: 0, y2: 4 }.intersect(&a));
}

#[test]
fn the_center_halves_the_corners() {
    assert_eq!(Rect { x1: 2, x2: 8, y1: 10, y2: 13 }.center(), Point::new(5, 11));
    assert_eq!(Rect { x1: 0, x2: 1, y1: 0, y2: 1 }.center(), Point::new(0, 0));
    // halves round towards zero
    assert_eq!(Rect { x1: -4, x2: 1, y1: -1, y2: 0 }.center(), Point::new(-1, 0));
}

#[test]
fn feet_are_compared_without_rounding() {
    assert_eq!(TILE_SIZE_IN_FEET, 5);
    let o = Point::new(0, 0);
    assert!(is_within_feet(o, o, 0));
    assert!(is_within_feet(o, Point::new(3, 4), 25));
    assert!(!is_within_feet(o, Point::new(3, 4), 24));
    // one tile diagonally is 7.07 feet
    assert!(!is_within_feet(o, Point::new(1, 1), 7));
    assert!(is_within_feet(o, Point::new(1, 1), 8));
    assert!(!is_within_feet(Point::new(i32::MIN, 0), Point::new(i32::MAX, 0), u32::MAX));
    assert!(is_within_feet(o, Point::new(-2, 0), 10));
}

#[test]
fn five_feet_make_a_tile() {
    assert_eq!(feet_to_tiles(0), 0);
    assert_eq!(feet_to_tiles(4), 0);
    assert_eq!(feet_to_tiles(60), 12);
    assert_eq!(feet_to_tiles(64), 12);
    assert_eq!(feet_to_tiles(131070), 26214);
}
