use boot_catcher::blobs::{blob_box, blob_center, blob_is_boot_sized, motion_blobs, Blob};
use boot_catcher::geometry::Roi;

const W: i32 = 40;
const H: i32 = 40;

struct Scene {
    frame: Vec<u8>,
    gray: Vec<u8>,
    prev: Vec<u8>,
}

fn scene() -> Scene {
    Scene {
        frame: vec![0u8; (W * H * 4) as usize],
        gray: vec![50u8; (W * H) as usize],
        prev: vec![50u8; (W * H) as usize],
    }
}

/// Paint boot-coloured moving pixels.
fn paint(s: &mut Scene, x0: i32, x1: i32, y0: i32, y1: i32) {
    for y in y0..y1 {
        for x in x0..x1 {
            let p = (y * W + x) as usize;
            s.frame[4 * p] = 0;
            s.frame[4 * p + 1] = 100;
            s.frame[4 * p + 2] = 200;
            s.frame[4 * p + 3] = 255;
            s.gray[p] = 0;
            s.prev[p] = 100;
        }
    }
}

fn full() -> Roi {
    Roi { x: 0, y: 0, w: W, h: H }
}

fn blob(min_x: i32, min_y: i32, max_x: i32, max_y: i32, count: i32) -> Blob {
    Blob { min_x, min_y, max_x, max_y, count }
}

#[test]
fn single_square_blob() {
    let mut s = scene();
    paint(&mut s, 5, 15, 5, 15);
    let r = motion_blobs(&s.frame, &s.gray, &s.prev, W, full(), 20, 20);
    assert_eq!(r, vec![blob(5, 5, 14, 14, 100)]);
}

#[test]
fn small_blobs_are_dropped() {
    let mut s = scene();
    paint(&mut s, 30, 33, 30, 33);
    assert_eq!(motion_blobs(&s.frame, &s.gray, &s.prev, W, full(), 20, 20), vec![]);
    // 7 wide: too narrow even with enough pixels
    let mut s = scene();
    paint(&mut s, 0, 7, 0, 20);
    assert_eq!(motion_blobs(&s.frame, &s.gray, &s.prev, W, full(), 30, 30), vec![]);
}

#[test]
fn blobs_larger_than_limit_are_dropped() {
    let mut s = scene();
    paint(&mut s, 5, 15, 5, 15);
    assert_eq!(motion_blobs(&s.frame, &s.gray, &s.prev, W, full(), 9, 20), vec![]);
    assert_eq!(motion_blobs(&s.frame, &s.gray, &s.prev, W, full(), 20, 9), vec![]);
    assert_eq!(motion_blobs(&s.frame, &s.gray, &s.prev, W, full(), 10, 10), vec![blob(5, 5, 14, 14, 100)]);
}

#[test]
fn blobs_in_scan_order() {
    let mut s = scene();
    paint(&mut s, 2, 12, 20, 30);
    paint(&mut s, 25, 35, 5, 15);
    let r = motion_blobs(&s.frame, &s.gray, &s.prev, W, full(), 20, 20);
    assert_eq!(r, vec![blob(25, 5, 34, 14, 100), blob(2, 20, 11, 29, 100)]);
}

#[test]
fn diagonal_contact_does_not_join() {
    let mut s = scene();
    paint(&mut s, 0, 10, 0, 10);
    paint(&mut s, 10, 20, 10, 20);
    let r = motion_blobs(&s.frame, &s.gray, &s.prev, W, full(), 20, 20);
    assert_eq!(r, vec![blob(0, 0, 9, 9, 100), blob(10, 10, 19, 19, 100)]);
}

#[test]
fn edge_contact_joins_irregular_shape() {
    let mut s = scene();
    // an L: vertical bar and a horizontal bar sharing the corner
    paint(&mut s, 0, 8, 0, 20);
    paint(&mut s, 8, 20, 12, 20);
    let r = motion_blobs(&s.frame, &s.gray, &s.prev, W, full(), 30, 30);
    assert_eq!(r, vec![blob(0, 0, 19, 19, 160 + 96)]);
}

#[test]
fn motion_threshold_is_eighteen() {
    let mut s = scene();
    paint(&mut s, 5, 15, 5, 15);
    for p in 0..(W * H) as usize {
        if s.gray[p] == 0 {
            s.gray[p] = 83; // difference 17
        }
    }
    assert_eq!(motion_blobs(&s.frame, &s.gray, &s.prev, W, full(), 20, 20), vec![]);
    for p in 0..(W * H) as usize {
        if s.gray[p] == 83 {
            s.gray[p] = 118; // difference 18 the other way
        }
    }
    assert_eq!(motion_blobs(&s.frame, &s.gray, &s.prev, W, full(), 20, 20), vec![blob(5, 5, 14, 14, 100)]);
}

#[test]
fn moving_but_wrong_colour_is_ignored() {
    let mut s = scene();
    paint(&mut s, 5, 15, 5, 15);
    for p in 0..(W * H) as usize {
        // now magenta: hue 150, out of the boot's range
        s.frame[4 * p] = 200;
        s.frame[4 * p + 1] = 0;
    }
    assert_eq!(motion_blobs(&s.frame, &s.gray, &s.prev, W, full(), 20, 20), vec![]);
}

#[test]
fn region_clips_and_uses_local_coordinates() {
    let mut s = scene();
    paint(&mut s, 5, 25, 5, 15);
    let roi = Roi { x: 10, y: 0, w: 30, h: 30 };
    let r = motion_blobs(&s.frame, &s.gray, &s.prev, W, roi, 20, 20);
    assert_eq!(r, vec![blob(0, 5, 14, 14, 150)]);
    assert_eq!(blob_center(roi, &r[0]), (17, 9));
    assert_eq!(blob_box(roi, &r[0]), Roi { x: 10, y: 5, w: 15, h: 10 });
}

#[test]
fn empty_region() {
    let s = scene();
    let roi = Roi { x: 3, y: 3, w: 0, h: 0 };
    assert_eq!(motion_blobs(&s.frame, &s.gray, &s.prev, W, roi, 20, 20), vec![]);
}

#[test]
fn boot_size_filter() {
    assert!(blob_is_boot_sized(&blob(0, 0, 7, 7, 35), 8, 8));
    assert!(!blob_is_boot_sized(&blob(0, 0, 7, 7, 34), 8, 8));
    assert!(!blob_is_boot_sized(&blob(0, 0, 6, 7, 40), 8, 8));
    assert!(!blob_is_boot_sized(&blob(0, 0, 8, 7, 40), 8, 8));
}
