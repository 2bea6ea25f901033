use boot_catcher::geometry::{
    game_rect_from_corners, idx, intersect, roi_around_corner, Point, Rect, RectError, Roi,
};

fn roi(x: i32, y: i32, w: i32, h: i32) -> Roi {
    Roi { x, y, w, h }
}

#[test]
fn intersect_overlapping_regions() {
    let a = roi(0, 0, 100, 100);
    let b = roi(50, 40, 100, 100);
    assert_eq!(intersect(a, b), Some(roi(50, 40, 50, 60)));
}

#[test]
fn intersect_is_commutative_on_example() {
    let a = roi(10, 20, 30, 40);
    let b = roi(15, 5, 50, 30);
    assert_eq!(intersect(a, b), intersect(b, a));
    assert_eq!(intersect(a, b), Some(roi(15, 20, 25, 15)));
}

#[test]
fn intersect_needs_more_than_eight_pixels() {
    let a = roi(0, 0, 100, 100);
    // overlap exactly 8 wide: refused
    assert_eq!(intersect(a, roi(92, 0, 50, 50)), None);
    // overlap 9 wide: kept
    assert_eq!(intersect(a, roi(91, 0, 50, 50)), Some(roi(91, 0, 9, 50)));
    // disjoint
    assert_eq!(intersect(a, roi(200, 200, 10, 10)), None);
}

#[test]
fn intersect_with_itself_is_itself() {
    let a = roi(3, 4, 20, 30);
    assert_eq!(intersect(a, a), Some(a));
}

#[test]
fn roi_around_corner_clips_to_screen_and_base() {
    let base = roi(10, 10, 200, 200);
    // window 40x40 at (-5, 20): clipped to screen then to base
    let r = roi_around_corner(-5, 20, 20, 300, 300, base);
    assert_eq!(r, roi(10, 20, 25, 40));
}

#[test]
fn roi_around_corner_falls_back_to_base() {
    let base = roi(10, 10, 100, 100);
    // window entirely off screen
    assert_eq!(roi_around_corner(500, 500, 16, 300, 300, base), base);
    // window on screen but outside base
    assert_eq!(roi_around_corner(200, 200, 16, 300, 300, base), base);
}

#[test]
fn game_rect_from_corners_any_order() {
    let p1 = Point { x: 100, y: 50 };
    let p2 = Point { x: 500, y: 600 };
    let expected = Rect { left: 100, top: 50, width: 400, height: 550 };
    assert_eq!(game_rect_from_corners(p1, p2), Ok(expected));
    assert_eq!(game_rect_from_corners(p2, p1), Ok(expected));
    let p3 = Point { x: 100, y: 600 };
    let p4 = Point { x: 500, y: 50 };
    assert_eq!(game_rect_from_corners(p3, p4), Ok(expected));
}

#[test]
fn game_rect_too_small_is_refused() {
    let p1 = Point { x: 0, y: 0 };
    assert_eq!(game_rect_from_corners(p1, Point { x: 249, y: 400 }), Err(RectError::TooSmall));
    assert_eq!(game_rect_from_corners(p1, Point { x: 300, y: 349 }), Err(RectError::TooSmall));
    assert_eq!(
        game_rect_from_corners(p1, Point { x: 250, y: 350 }),
        Ok(Rect { left: 0, top: 0, width: 250, height: 350 })
    );
}

#[test]
fn idx_is_byte_offset() {
    assert_eq!(idx(10, 0, 0), 0);
    assert_eq!(idx(10, 3, 2), 92);
    assert_eq!(idx(10, 4, 2), idx(10, 3, 2) + 4);
    assert_eq!(idx(10, 3, 3), idx(10, 3, 2) + 40);
}
