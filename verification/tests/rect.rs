use quadtree::rect::Rect;

#[test]
fn new_keeps_the_corner_and_the_extents() {
    let r = Rect::new(1, -2, 3, 4);

    assert_eq!((r.x, r.y, r.w, r.h), (1, -2, 3, 4));
    assert_eq!(r, Rect { x: 1, y: -2, w: 3, h: 4 });
}

#[test]
fn new_centered_puts_the_center_where_asked() {
    assert_eq!(Rect::new_centered(10, 20, 4, 6), Rect::new(8, 17, 4, 6));
    assert_eq!(Rect::new_centered(0, 0, 200, 200), Rect::new(-100, -100, 200, 200));
}

#[test]
fn new_centered_rounds_half_extents_towards_zero() {
    assert_eq!(Rect::new_centered(10, 20, 5, 7), Rect::new(8, 17, 5, 7));
    assert_eq!(Rect::new_centered(10, 20, 1, 1), Rect::new(10, 20, 1, 1));
    assert_eq!(Rect::new_centered(10, 20, -5, -7), Rect::new(12, 23, -5, -7));
}

#[test]
fn a_rect_contains_itself_and_what_touches_its_edges_from_inside() {
    let r = Rect::new(0, 0, 10, 10);

    assert!(r.contains(&r));
    assert!(r.contains(&Rect::new(0, 0, 5, 5)));
    assert!(r.contains(&Rect::new(5, 5, 5, 5)));
    assert!(r.contains(&Rect::new(10, 10, 0, 0)));
    assert!(!r.contains(&Rect::new(5, 5, 6, 5)));
    assert!(!r.contains(&Rect::new(-1, 0, 5, 5)));
    assert!(!r.contains(&Rect::new(0, 6, 5, 5)));
    assert!(!Rect::new(0, 0, 5, 5).contains(&r));
}

#[test]
fn rects_that_touch_overlap() {
    let r = Rect::new(0, 0, 10, 10);

    assert!(r.overlapps(&r));
    assert!(r.overlapps(&Rect::new(10, 0, 5, 5)));
    assert!(r.overlapps(&Rect::new(10, 10, 5, 5)));
    assert!(r.overlapps(&Rect::new(-5, -5, 5, 5)));
    assert!(r.overlapps(&Rect::new(3, 3, 1, 1)));
    assert!(r.overlapps(&Rect::new(-5, 3, 30, 1)));
    assert!(!r.overlapps(&Rect::new(11, 0, 5, 5)));
    assert!(!r.overlapps(&Rect::new(0, 11, 5, 5)));
    assert!(!r.overlapps(&Rect::new(-6, 0, 5, 5)));
}

#[test]
fn the_predicates_do_not_overflow_at_the_ends_of_the_range() {
    let all = Rect::new(i32::MIN, i32::MIN, i32::MAX, i32::MAX);
    let far = Rect::new(i32::MAX, i32::MAX, i32::MAX, i32::MAX);

    assert!(!all.contains(&far));
    assert!(!all.overlapps(&far));
    assert!(far.contains(&far));
    assert!(far.overlapps(&Rect::new(i32::MAX, i32::MAX, 0, 0)));
}

#[test]
fn quadrants_are_top_left_top_right_bottom_left_bottom_right() {
    let r = Rect::new(-100, -100, 200, 200);

    assert_eq!(r.quadrant(0), Rect::new(-100, -100, 100, 100));
    assert_eq!(r.quadrant(1), Rect::new(0, -100, 100, 100));
    assert_eq!(r.quadrant(2), Rect::new(-100, 0, 100, 100));
    assert_eq!(r.quadrant(3), Rect::new(0, 0, 100, 100));
}

#[test]
fn quadrants_of_odd_extents_round_down() {
    let r = Rect::new(0, 0, 7, 1);

    assert_eq!(r.quadrant(0), Rect::new(0, 0, 3, 0));
    assert_eq!(r.quadrant(1), Rect::new(3, 0, 3, 0));
    assert_eq!(r.quadrant(2), Rect::new(0, 0, 3, 0));
    assert_eq!(r.quadrant(3), Rect::new(3, 0, 3, 0));
}

#[test]
fn default_is_the_point_at_the_origin() {
    assert_eq!(Rect::default(), Rect::new(0, 0, 0, 0));
}
