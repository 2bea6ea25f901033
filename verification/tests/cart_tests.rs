use boot_catcher::cart::{find_cart_center, CartBand};

const W: i32 = 100;
const H: i32 = 100;

/// The band the driver derives from float fractions of the frame size.
fn band(width: i32, height: i32) -> CartBand {
    CartBand {
        top: (height as f32 * 0.79) as i32,
        bottom: (height as f32 * 0.91) as i32,
        margin: (width as f32 * 0.08) as i32,
        min_len: (width as f32 * 0.08) as i32,
        max_len: (width as f32 * 0.34) as i32,
        row: (height as f32 * 0.88) as i32,
    }
}

fn cart(frame: &[u8], w: i32, h: i32) -> Option<(i32, i32)> {
    find_cart_center(frame, w, h, band(w, h))
}

fn blank() -> Vec<u8> {
    vec![0u8; (W * H * 4) as usize]
}

fn paint_red(frame: &mut [u8], x0: i32, x1: i32, y0: i32, y1: i32) {
    for y in y0..y1 {
        for x in x0..x1 {
            let i = ((y * W + x) * 4) as usize;
            frame[i] = 0;
            frame[i + 1] = 0;
            frame[i + 2] = 220;
            frame[i + 3] = 255;
        }
    }
}

#[test]
fn cart_single_run() {
    let mut f = blank();
    paint_red(&mut f, 40, 60, 80, 90);
    assert_eq!(cart(&f, W, H), Some((50, 88)));
}

#[test]
fn cart_picks_largest_sum() {
    let mut f = blank();
    paint_red(&mut f, 10, 20, 80, 90);
    paint_red(&mut f, 50, 62, 80, 90);
    assert_eq!(cart(&f, W, H), Some((56, 88)));
}

#[test]
fn cart_equal_sums_pick_leftmost() {
    let mut f = blank();
    paint_red(&mut f, 50, 60, 80, 90);
    paint_red(&mut f, 10, 20, 80, 90);
    assert_eq!(cart(&f, W, H), Some((15, 88)));
}

#[test]
fn cart_runs_of_wrong_length_are_ignored() {
    let mut f = blank();
    paint_red(&mut f, 10, 15, 80, 90);
    assert_eq!(cart(&f, W, H), None);
    let mut f = blank();
    paint_red(&mut f, 20, 60, 80, 90);
    assert_eq!(cart(&f, W, H), None);
    // length 8 and 34 are both accepted
    let mut f = blank();
    paint_red(&mut f, 20, 28, 80, 90);
    assert_eq!(cart(&f, W, H), Some((24, 88)));
    let mut f = blank();
    paint_red(&mut f, 20, 54, 80, 90);
    assert_eq!(cart(&f, W, H), Some((37, 88)));
}

#[test]
fn cart_needs_three_red_pixels_per_column() {
    let mut f = blank();
    paint_red(&mut f, 40, 60, 80, 82);
    assert_eq!(cart(&f, W, H), None);
    paint_red(&mut f, 40, 60, 82, 83);
    assert_eq!(cart(&f, W, H), Some((50, 88)));
}

#[test]
fn cart_outside_band_or_margins_ignored() {
    let mut f = blank();
    paint_red(&mut f, 40, 60, 10, 70);
    paint_red(&mut f, 40, 60, 91, 100);
    assert_eq!(cart(&f, W, H), None);
    // columns 0..8 lie in the margin: the run seen starts at 8
    let mut f = blank();
    paint_red(&mut f, 0, 20, 80, 90);
    assert_eq!(cart(&f, W, H), Some((14, 88)));
}

#[test]
fn cart_empty_frame() {
    assert_eq!(cart(&blank(), W, H), None);
    assert_eq!(cart(&[], 0, 0), None);
}

#[test]
fn cart_band_of_small_frame() {
    assert_eq!(band(100, 100), CartBand { top: 79, bottom: 91, margin: 8, min_len: 8, max_len: 34, row: 88 });
}

#[test]
fn cart_uses_the_band_it_is_given() {
    let mut f = blank();
    paint_red(&mut f, 40, 60, 10, 20);
    assert_eq!(cart(&f, W, H), None);
    let custom = CartBand { top: 10, bottom: 20, margin: 0, min_len: 5, max_len: 30, row: 15 };
    assert_eq!(find_cart_center(&f, W, H, custom), Some((50, 15)));
    let narrow = CartBand { top: 10, bottom: 20, margin: 0, min_len: 25, max_len: 30, row: 15 };
    assert_eq!(find_cart_center(&f, W, H, narrow), None);
}

#[test]
fn cart_band_rows_on_tall_frame() {
    // 0.79f32 is slightly above 0.79: the band starts at row 395064, not 395063
    let w = 100;
    let h = 500081;
    assert_eq!(band(w, h).top, 395064);
    let mut f = vec![0u8; (w * h * 4) as usize];
    for y in 395063..395066 {
        for x in 40..60 {
            let i = ((y * w + x) * 4) as usize;
            f[i + 2] = 220;
            f[i + 3] = 255;
        }
    }
    assert_eq!(cart(&f, w, h), None);
}
