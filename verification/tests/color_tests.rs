use boot_catcher::color::{bgra_to_gray, boot_color, hsv_like, red_color};

#[test]
fn hsv_of_primaries() {
    assert_eq!(hsv_like(255, 0, 0), (0, 255, 255));
    assert_eq!(hsv_like(0, 255, 0), (60, 255, 255));
    assert_eq!(hsv_like(0, 0, 255), (120, 255, 255));
}

#[test]
fn hsv_of_greys() {
    assert_eq!(hsv_like(0, 0, 0), (0, 0, 0));
    assert_eq!(hsv_like(77, 77, 77), (0, 0, 77));
    assert_eq!(hsv_like(255, 255, 255), (0, 0, 255));
}

#[test]
fn hsv_ties_prefer_red_then_green() {
    // yellow: r == g is the maximum, the red branch is taken
    assert_eq!(hsv_like(255, 255, 0), (30, 255, 255));
    // cyan: g == b is the maximum, the green branch is taken
    assert_eq!(hsv_like(0, 255, 255), (90, 255, 255));
}

#[test]
fn hsv_negative_hue_wraps_and_rounds_toward_zero() {
    // magenta: 30 * (0 - 255) / 255 = -30, wrapped to 150
    assert_eq!(hsv_like(255, 0, 255), (150, 255, 255));
    // 30 * (0 - 10) / 200 = -1.5, rounded toward zero to -1, wrapped to 179
    assert_eq!(hsv_like(200, 0, 10), (179, 255, 200));
}

#[test]
fn hsv_orange_and_saturation() {
    // 30 * 128 / 255 = 15.06 -> 15; saturation 255 * 255 / 255
    assert_eq!(hsv_like(255, 128, 0), (15, 255, 255));
    // d = 100, max = 200: saturation 100 * 255 / 200 = 127
    assert_eq!(hsv_like(200, 150, 100), (15, 127, 200));
}

#[test]
fn hsv_ranges_on_samples() {
    for r in (0..=255).step_by(17) {
        for g in (0..=255).step_by(17) {
            for b in (0..=255).step_by(17) {
                let (h, s, v) = hsv_like(r as u8, g as u8, b as u8);
                assert!((0..180).contains(&h));
                assert!((0..=255).contains(&s));
                assert_eq!(v, r.max(g).max(b) as i32);
            }
        }
    }
}

fn one_pixel(b: u8, g: u8, r: u8) -> Vec<u8> {
    vec![b, g, r, 255]
}

#[test]
fn boot_color_accepts_orange_brown() {
    // r=200, g=100, b=0: hue 15, saturation 255, value 200
    assert!(boot_color(&one_pixel(0, 100, 200), 1, 0, 0));
    // too bright: value 250 > 245
    assert!(!boot_color(&one_pixel(0, 125, 250), 1, 0, 0));
    // grey: saturation 0
    assert!(!boot_color(&one_pixel(100, 100, 100), 1, 0, 0));
    // pure red: hue 0 < 3
    assert!(!boot_color(&one_pixel(0, 0, 200), 1, 0, 0));
}

#[test]
fn red_color_accepts_both_ends_of_hue() {
    assert!(red_color(&one_pixel(0, 0, 200), 1, 0, 0));
    // magenta-ish red: hue 150..=179
    assert!(red_color(&one_pixel(10, 0, 200), 1, 0, 0));
    // green
    assert!(!red_color(&one_pixel(0, 200, 0), 1, 0, 0));
    // dark: value 30 < 35
    assert!(!red_color(&one_pixel(0, 0, 30), 1, 0, 0));
}

#[test]
fn color_tests_use_the_addressed_pixel() {
    // 2x2 frame; only pixel (1, 1) is red
    let mut frame = vec![0u8; 16];
    frame[12] = 0;
    frame[13] = 0;
    frame[14] = 220;
    frame[15] = 255;
    assert!(red_color(&frame, 2, 1, 1));
    assert!(!red_color(&frame, 2, 0, 1));
    assert!(!red_color(&frame, 2, 1, 0));
}

#[test]
fn gray_conversion_exact_values() {
    // pixel 0: b=10 g=20 r=30 -> (77*30 + 150*20 + 29*10) >> 8 = 5600 >> 8 = 21
    // pixel 1: grey 200 stays 200
    // pixel 2: white -> 255, pixel 3: black -> 0
    let frame = vec![10, 20, 30, 255, 200, 200, 200, 255, 255, 255, 255, 255, 0, 0, 0, 255];
    let mut out = vec![9u8; 7];
    bgra_to_gray(&frame, 2, 2, &mut out);
    assert_eq!(out, vec![21, 200, 255, 0]);
}

#[test]
fn gray_conversion_grows_and_shrinks_output() {
    let frame = vec![0, 0, 255, 0, 0, 255, 0, 0, 255, 0, 0, 0];
    let mut out = Vec::new();
    bgra_to_gray(&frame, 3, 1, &mut out);
    // (77 * 255) >> 8 = 76; (150 * 255) >> 8 = 149; (29 * 255) >> 8 = 28
    assert_eq!(out, vec![76, 149, 28]);
    let mut empty = vec![1u8, 2, 3];
    bgra_to_gray(&frame, 0, 0, &mut empty);
    assert!(empty.is_empty());
}
