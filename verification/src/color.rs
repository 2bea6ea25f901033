use vstd::prelude::*;

use crate::geometry::{idx, pixel_offset};

verus! {

/// Division of `n` by a positive `d`, rounding toward zero.
pub open spec fn div_toward_zero(n: int, d: int) -> int {
    if n >= 0 { n / d } else { -((-n) / d) }
}

/// Largest of three channel values.
pub open spec fn max3(r: int, g: int, b: int) -> int {
    if r >= g && r >= b { r } else if g >= b { g } else { b }
}

/// Smallest of three channel values.
pub open spec fn min3(r: int, g: int, b: int) -> int {
    if r <= g && r <= b { r } else if g <= b { g } else { b }
}

/// Hue on a 0..180 scale, computed with integer division toward zero.
pub open spec fn spec_hue(r: int, g: int, b: int) -> int {
    let max = max3(r, g, b);
    let d = max - min3(r, g, b);
    let h = if d == 0 {
        0
    } else if max == r {
        div_toward_zero(30 * (g - b), d)
    } else if max == g {
        60 + div_toward_zero(30 * (b - r), d)
    } else {
        120 + div_toward_zero(30 * (r - g), d)
    };
    if h < 0 { h + 180 } else { h }
}

/// Saturation on a 0..=255 scale.
pub open spec fn spec_saturation(r: int, g: int, b: int) -> int {
    let max = max3(r, g, b);
    if max == 0 { 0 } else { (max - min3(r, g, b)) * 255 / max }
}

/// Hue, saturation and value of an RGB colour.
pub open spec fn spec_hsv_like(r: u8, g: u8, b: u8) -> (int, int, int) {
    (spec_hue(r as int, g as int, b as int), spec_saturation(r as int, g as int, b as int), max3(r as int, g as int, b as int))
}

/// Integer division toward zero of `n` by a positive `d`.
fn div_trunc(n: i32, d: i32) -> (q: i32)
    requires
        d > 0,
        n > i32::MIN,
    ensures
        q == div_toward_zero(n as int, d as int),
{
    if n >= 0 {
        n / d
    } else {
        -((-n) / d)
    }
}

/// A cheap HSV: hue in `0..180`, saturation in `0..=255`, value the
/// largest channel.
pub fn hsv_like(r: u8, g: u8, b: u8) -> (hsv: (i32, i32, i32))
    ensures
        hsv.0 == spec_hsv_like(r, g, b).0,
        hsv.1 == spec_hsv_like(r, g, b).1,
        hsv.2 == spec_hsv_like(r, g, b).2,
{
    let r = r as i32;
    let g = g as i32;
    let b = b as i32;
    let max = if r >= g && r >= b { r } else if g >= b { g } else { b };
    let min = if r <= g && r <= b { r } else if g <= b { g } else { b };
    let d = max - min;
    assert(0 <= d <= 255);
    let s = if max == 0 { 0 } else {
        assert(d * 255 <= 255 * 255) by (nonlinear_arith) requires 0 <= d <= 255;
        d * 255 / max
    };
    let mut h = if d == 0 {
        0
    } else if max == r {
        div_trunc(30 * (g - b), d)
    } else if max == g {
        60 + div_trunc(30 * (b - r), d)
    } else {
        120 + div_trunc(30 * (r - g), d)
    };
    if h < 0 {
        h += 180;
    }
    (h, s, max)
}


/// `30 * num / d` rounded toward zero stays within `-30..=30` when
/// `|num| <= d`.
proof fn lemma_scaled_ratio_bounds(num: int, d: int)
    requires
        d > 0,
        -d <= num <= d,
    ensures
        -30 <= div_toward_zero(30 * num, d) <= 30,
{
    if num >= 0 {
        assert(30 * num <= 30 * d) by (nonlinear_arith) requires num <= d, d > 0;
        assert((30 * num) / d <= (30 * d) / d) by (nonlinear_arith) requires 30 * num <= 30 * d, d > 0, 0 <= num;
        assert((30 * d) / d == 30) by (nonlinear_arith) requires d > 0;
        assert(0 <= (30 * num) / d) by (nonlinear_arith) requires d > 0, 0 <= num;
    } else {
        let m = -num;
        assert(30 * m <= 30 * d) by (nonlinear_arith) requires m <= d, d > 0;
        assert((30 * m) / d <= (30 * d) / d) by (nonlinear_arith) requires 30 * m <= 30 * d, d > 0, 0 <= m;
        assert((30 * d) / d == 30) by (nonlinear_arith) requires d > 0;
        assert(0 <= (30 * m) / d) by (nonlinear_arith) requires d > 0, 0 <= m;
        assert(-(30 * num) == 30 * m);
    }
}

/// Every colour gets a hue in `0..180`, a saturation in `0..=255` and a
/// value in `0..=255`; a grey (all channels equal) has hue 0 and
/// saturation 0 and its channel as value.
pub proof fn lemma_hsv_ranges(r: u8, g: u8, b: u8)
    ensures
        0 <= spec_hsv_like(r, g, b).0 < 180,
        0 <= spec_hsv_like(r, g, b).1 <= 255,
        0 <= spec_hsv_like(r, g, b).2 <= 255,
        (r == g && g == b) ==> spec_hsv_like(r, g, b) == (0int, 0int, r as int),
{
    let (ri, gi, bi) = (r as int, g as int, b as int);
    let max = max3(ri, gi, bi);
    let min = min3(ri, gi, bi);
    let d = max - min;
    if d > 0 {
        if max == ri {
            lemma_scaled_ratio_bounds(gi - bi, d);
        } else if max == gi {
            lemma_scaled_ratio_bounds(bi - ri, d);
        } else {
            lemma_scaled_ratio_bounds(ri - gi, d);
        }
    }
    if max > 0 {
        assert(0 <= d * 255 / max <= 255) by (nonlinear_arith) requires 0 <= d <= max, max > 0;
    }
}

/// Whether the pixel at `(x, y)` of a BGRA frame passes the boot's colour
/// test: hue `3..=36`, saturation at least 35, value `30..=245`.
pub open spec fn spec_boot_color(frame: Seq<u8>, width: int, x: int, y: int) -> bool {
    let i = pixel_offset(width, x, y);
    let hsv = spec_hsv_like(frame[i + 2], frame[i + 1], frame[i]);
    3 <= hsv.0 <= 36 && hsv.1 >= 35 && hsv.2 >= 30 && hsv.2 <= 245
}

/// Whether the pixel at `(x, y)` of a BGRA frame passes the cart's red
/// test: hue `0..=20` or `150..=179`, saturation at least 45, value at
/// least 35.
pub open spec fn spec_red_color(frame: Seq<u8>, width: int, x: int, y: int) -> bool {
    let i = pixel_offset(width, x, y);
    let hsv = spec_hsv_like(frame[i + 2], frame[i + 1], frame[i]);
    ((0 <= hsv.0 <= 20) || (150 <= hsv.0 <= 179)) && hsv.1 >= 45 && hsv.2 >= 35
}

/// Whether pixel `(x, y)` lies inside a BGRA frame `width` pixels wide,
/// with offsets computable in `i32`.
pub open spec fn pixel_in_frame(frame_len: int, width: int, x: int, y: int) -> bool {
    &&& i32::MIN <= y * width <= i32::MAX
    &&& 0 <= y * width + x
    &&& (y * width + x) * 4 <= i32::MAX
    &&& pixel_offset(width, x, y) + 3 < frame_len
}

/// The boot's colour test on the pixel at `(x, y)`.
pub fn boot_color(frame: &[u8], width: i32, x: i32, y: i32) -> (b: bool)
    requires
        pixel_in_frame(frame@.len() as int, width as int, x as int, y as int),
    ensures
        b == spec_boot_color(frame@, width as int, x as int, y as int),
{
    let i = idx(width, x, y);
    let (h, s, v) = hsv_like(frame[i + 2], frame[i + 1], frame[i]);
    3 <= h && h <= 36 && s >= 35 && v >= 30 && v <= 245
}

/// The cart's red test on the pixel at `(x, y)`.
pub fn red_color(frame: &[u8], width: i32, x: i32, y: i32) -> (b: bool)
    requires
        pixel_in_frame(frame@.len() as int, width as int, x as int, y as int),
    ensures
        b == spec_red_color(frame@, width as int, x as int, y as int),
{
    let i = idx(width, x, y);
    let (h, s, v) = hsv_like(frame[i + 2], frame[i + 1], frame[i]);
    ((0 <= h && h <= 20) || (150 <= h && h <= 179)) && s >= 45 && v >= 35
}

/// Luma of a BGR pixel: `(77 r + 150 g + 29 b) >> 8`.
pub open spec fn gray_of(b: u8, g: u8, r: u8) -> int {
    (77 * r + 150 * g + 29 * b) / 256
}

/// Luma of pixel number `p` (row-major) of a BGRA frame.
pub open spec fn gray_at(frame: Seq<u8>, p: int) -> int {
    gray_of(frame[4 * p], frame[4 * p + 1], frame[4 * p + 2])
}

/// A grey pixel keeps its level: the weights sum to 256.
pub proof fn lemma_gray_of_grey(v: u8)
    ensures
        gray_of(v, v, v) == v,
{
    assert(77 * v + 150 * v + 29 * v == 256 * v);
}

/// Every luma fits in a byte.
pub proof fn lemma_gray_of_bound(b: u8, g: u8, r: u8)
    ensures
        0 <= gray_of(b, g, r) <= 255,
{
}

/// Luma of one pixel, by shift as the weights sum to 256.
fn gray_pixel(b: u8, g: u8, r: u8) -> (v: u8)
    ensures
        v == gray_of(b, g, r),
{
    let b = b as u32;
    let g = g as u32;
    let r = r as u32;
    let sum = 77 * r + 150 * g + 29 * b;
    assert(sum >> 8 == sum / 256) by (bit_vector);
    (sum >> 8) as u8
}

/// Convert a `width` x `height` BGRA frame to one byte of luma per pixel,
/// row-major; `out` is resized to the pixel count and every byte rewritten.
pub fn bgra_to_gray(frame: &[u8], width: i32, height: i32, out: &mut Vec<u8>)
    requires
        width >= 0,
        height >= 0,
        width * height * 4 <= i32::MAX,
        frame@.len() >= width * height * 4,
    ensures
        final(out)@.len() == width * height,
        forall|p: int| 0 <= p < width * height ==> final(out)@[p] == gray_at(frame@, p),
{
    let n = width * height;
    assert(0 <= n) by (nonlinear_arith) requires width >= 0, height >= 0, n == width * height;
    out.resize(n as usize, 0);
    let mut y: i32 = 0;
    while y < height
        invariant
            0 <= y <= height,
            width >= 0,
            n == width * height,
            n * 4 <= i32::MAX,
            frame@.len() >= n * 4,
            out@.len() == n,
            forall|p: int| 0 <= p < y * width ==> out@[p] == gray_at(frame@, p),
        decreases height - y,
    {
        assert((y + 1) * width <= n) by (nonlinear_arith) requires y < height, width >= 0, n == width * height;
        assert((y + 1) * width == y * width + width) by (nonlinear_arith);
        let mut x: i32 = 0;
        while x < width
            invariant
                0 <= y < height,
                0 <= x <= width,
                n == width * height,
                n * 4 <= i32::MAX,
                frame@.len() >= n * 4,
                out@.len() == n,
                y * width + width <= n,
                0 <= y * width,
                forall|p: int| 0 <= p < y * width + x ==> out@[p] == gray_at(frame@, p),
            decreases width - x,
        {
            let p = y * width + x;
            let i = idx(width, x, y);
            let v = gray_pixel(frame[i], frame[i + 1], frame[i + 2]);
            out.set(p as usize, v);
            x += 1;
        }
        y += 1;
    }
    assert(height * width == n) by (nonlinear_arith) requires n == width * height;
}


/// Every pixel of a `width` x `height` frame whose byte length covers
/// all pixels can be read.
pub proof fn lemma_pixel_in_frame(frame_len: int, width: int, height: int, x: int, y: int)
    requires
        0 <= x < width,
        0 <= y < height,
        width * height * 4 <= i32::MAX,
        frame_len >= width * height * 4,
    ensures
        pixel_in_frame(frame_len, width, x, y),
{
    assert(0 <= y * width <= (height - 1) * width) by (nonlinear_arith)
        requires 0 <= y < height, width > 0;
    assert((height - 1) * width + width == width * height) by (nonlinear_arith);
}


/// Saturation law: a colour whose saturation `255 * (max - min) / max`
/// reaches `t` has `255 * (max - min) >= t * max`; a grey (all channels
/// equal) has saturation 0.
proof fn lemma_saturation_threshold(r: u8, g: u8, b: u8, t: int)
    requires
        t > 0,
        spec_hsv_like(r, g, b).1 >= t,
    ensures
        ({
            let (ri, gi, bi) = (r as int, g as int, b as int);
            let mx = if ri >= gi && ri >= bi { ri } else if gi >= bi { gi } else { bi };
            let mn = if ri <= gi && ri <= bi { ri } else if gi <= bi { gi } else { bi };
            &&& mx > 0
            &&& (mx - mn) * 255 >= t * mx
            &&& !(ri == gi && gi == bi)
        }),
{
    let (ri, gi, bi) = (r as int, g as int, b as int);
    let mx = max3(ri, gi, bi);
    let mn = min3(ri, gi, bi);
    let d = mx - mn;
    assert(mx > 0);
    let q = d * 255 / mx;
    vstd::arithmetic::div_mod::lemma_fundamental_div_mod(d * 255, mx);
    vstd::arithmetic::div_mod::lemma_mod_pos_bound(d * 255, mx);
    assert(q >= t);
    assert(mx * q >= mx * t) by (nonlinear_arith) requires q >= t, mx > 0;
    assert(d * 255 >= t * mx) by (nonlinear_arith)
        requires d * 255 == mx * q + (d * 255) % mx, (d * 255) % mx >= 0, mx * q >= mx * t;
}

/// The boot-colour test accepts a pixel only when its largest channel is
/// in `30..=245` and its saturation `255 * (max - min) / max` is at least
/// 35 (so `255 * (max - min) >= 35 * max`); no grey pixel passes. Channel
/// bytes are read B, G, R at the pixel's offset.
pub proof fn lemma_boot_color_needs_saturation(frame: Seq<u8>, width: int, x: int, y: int)
    requires
        spec_boot_color(frame, width, x, y),
    ensures
        ({
            let i = (y * width + x) * 4;
            let (bi, gi, ri) = (frame[i] as int, frame[i + 1] as int, frame[i + 2] as int);
            let mx = if ri >= gi && ri >= bi { ri } else if gi >= bi { gi } else { bi };
            let mn = if ri <= gi && ri <= bi { ri } else if gi <= bi { gi } else { bi };
            &&& 30 <= mx <= 245
            &&& (mx - mn) * 255 >= 35 * mx
            &&& !(ri == gi && gi == bi)
        }),
{
    let i = pixel_offset(width, x, y);
    lemma_saturation_threshold(frame[i + 2], frame[i + 1], frame[i], 35);
}

/// The cart-red test accepts a pixel only when its largest channel is at
/// least 35 and its saturation is at least 45 (so
/// `255 * (max - min) >= 45 * max`); no grey pixel passes.
pub proof fn lemma_red_color_needs_saturation(frame: Seq<u8>, width: int, x: int, y: int)
    requires
        spec_red_color(frame, width, x, y),
    ensures
        ({
            let i = (y * width + x) * 4;
            let (bi, gi, ri) = (frame[i] as int, frame[i + 1] as int, frame[i + 2] as int);
            let mx = if ri >= gi && ri >= bi { ri } else if gi >= bi { gi } else { bi };
            let mn = if ri <= gi && ri <= bi { ri } else if gi <= bi { gi } else { bi };
            &&& mx >= 35
            &&& (mx - mn) * 255 >= 45 * mx
            &&& !(ri == gi && gi == bi)
        }),
{
    let i = pixel_offset(width, x, y);
    lemma_saturation_threshold(frame[i + 2], frame[i + 1], frame[i], 45);
}


/// Hue turns with the channels: when red is strictly the largest channel,
/// rotating the channels so that green, then blue, holds that largest
/// value adds 60, then 120, to the hue (mod 180); swapping green and blue
/// mirrors the hue to `180 - h` (mod 180).
pub proof fn lemma_hue_rotation(r: u8, g: u8, b: u8)
    requires
        r > g,
        r > b,
    ensures
        spec_hsv_like(b, r, g).0 == (spec_hsv_like(r, g, b).0 + 60) % 180,
        spec_hsv_like(g, b, r).0 == (spec_hsv_like(r, g, b).0 + 120) % 180,
        spec_hsv_like(r, b, g).0 == (180 - spec_hsv_like(r, g, b).0) % 180,
{
    let (ri, gi, bi) = (r as int, g as int, b as int);
    let mn = min3(ri, gi, bi);
    let d = ri - mn;
    assert(max3(ri, gi, bi) == ri);
    assert(max3(bi, ri, gi) == ri);
    assert(max3(gi, bi, ri) == ri);
    assert(max3(ri, bi, gi) == ri);
    assert(min3(bi, ri, gi) == mn);
    assert(min3(gi, bi, ri) == mn);
    assert(min3(ri, bi, gi) == mn);
    lemma_scaled_ratio_bounds(gi - bi, d);
    assert(-(30 * (gi - bi)) == 30 * (bi - gi));
    assert(div_toward_zero(30 * (bi - gi), d) == -div_toward_zero(30 * (gi - bi), d));
}

/// Saturation and value do not depend on which channel is which, and the
/// value is the largest channel.
pub proof fn lemma_saturation_value_symmetric(r: u8, g: u8, b: u8)
    ensures
        spec_hsv_like(r, g, b).1 == spec_hsv_like(g, b, r).1,
        spec_hsv_like(r, g, b).1 == spec_hsv_like(r, b, g).1,
        spec_hsv_like(r, g, b).2 == spec_hsv_like(g, b, r).2,
        spec_hsv_like(r, g, b).2 == spec_hsv_like(r, b, g).2,
        spec_hsv_like(r, g, b).2 >= r && spec_hsv_like(r, g, b).2 >= g && spec_hsv_like(r, g, b).2 >= b,
        spec_hsv_like(r, g, b).2 == r || spec_hsv_like(r, g, b).2 == g || spec_hsv_like(r, g, b).2 == b,
{
}

/// Luma weighs green more than red and red more than blue: a pure green
/// of level `v` is at least as bright as a pure red of level `v`, which
/// is at least as bright as a pure blue; and luma never decreases when a
/// channel increases.
pub proof fn lemma_gray_weights(v: u8, b: u8, g: u8, r: u8, b2: u8, g2: u8, r2: u8)
    ensures
        gray_of(0, v, 0) >= gray_of(0, 0, v),
        gray_of(0, 0, v) >= gray_of(v, 0, 0),
        b <= b2 && g <= g2 && r <= r2 ==> gray_of(b, g, r) <= gray_of(b2, g2, r2),
        gray_of(0, 0, 255) == 76 && gray_of(0, 255, 0) == 149 && gray_of(255, 0, 0) == 28,
{
    assert(77 * (v as int) <= 150 * (v as int));
    vstd::arithmetic::div_mod::lemma_div_is_ordered(77 * (v as int), 150 * (v as int), 256);
    vstd::arithmetic::div_mod::lemma_div_is_ordered(29 * (v as int), 77 * (v as int), 256);
    if b <= b2 && g <= g2 && r <= r2 {
        vstd::arithmetic::div_mod::lemma_div_is_ordered(
            77 * (r as int) + 150 * (g as int) + 29 * (b as int),
            77 * (r2 as int) + 150 * (g2 as int) + 29 * (b2 as int),
            256,
        );
    }
}

/// The luma of pixel `p` reads blue, green and red from bytes `4p`,
/// `4p + 1` and `4p + 2`, and ignores the alpha byte `4p + 3`: raising
/// the red byte by 10 raises the luma by at least 3, the green byte by at
/// least 5, while raising the blue byte by 10 raises it by at most 2.
pub proof fn lemma_gray_at_bytes(frame: Seq<u8>, p: int, v: u8)
    requires
        0 <= p,
        4 * p + 3 < frame.len(),
    ensures
        gray_at(frame.update(4 * p + 3, v), p) == gray_at(frame, p),
        frame[4 * p + 2] <= 245 ==> gray_at(frame.update(4 * p + 2, (frame[4 * p + 2] + 10) as u8), p) >= gray_at(frame, p) + 3,
        frame[4 * p + 1] <= 245 ==> gray_at(frame.update(4 * p + 1, (frame[4 * p + 1] + 10) as u8), p) >= gray_at(frame, p) + 5,
        frame[4 * p] <= 245 ==> gray_at(frame.update(4 * p, (frame[4 * p] + 10) as u8), p) <= gray_at(frame, p) + 2,
{
    let bb = frame[4 * p] as int;
    let gg = frame[4 * p + 1] as int;
    let rr = frame[4 * p + 2] as int;
    let s = 77 * rr + 150 * gg + 29 * bb;
    assert(0 <= s);
    vstd::arithmetic::div_mod::lemma_fundamental_div_mod(s, 256);
    vstd::arithmetic::div_mod::lemma_mod_pos_bound(s, 256);
    vstd::arithmetic::div_mod::lemma_fundamental_div_mod(s + 770, 256);
    vstd::arithmetic::div_mod::lemma_mod_pos_bound(s + 770, 256);
    vstd::arithmetic::div_mod::lemma_fundamental_div_mod(s + 1500, 256);
    vstd::arithmetic::div_mod::lemma_mod_pos_bound(s + 1500, 256);
    vstd::arithmetic::div_mod::lemma_fundamental_div_mod(s + 290, 256);
    vstd::arithmetic::div_mod::lemma_mod_pos_bound(s + 290, 256);
    if rr <= 245 {
        let f2 = frame.update(4 * p + 2, (frame[4 * p + 2] + 10) as u8);
        assert(f2[4 * p] == frame[4 * p] && f2[4 * p + 1] == frame[4 * p + 1] && f2[4 * p + 2] == rr + 10);
        assert(77 * (rr + 10) + 150 * gg + 29 * bb == s + 770);
    }
    if gg <= 245 {
        let f2 = frame.update(4 * p + 1, (frame[4 * p + 1] + 10) as u8);
        assert(f2[4 * p] == frame[4 * p] && f2[4 * p + 1] == gg + 10 && f2[4 * p + 2] == frame[4 * p + 2]);
        assert(77 * rr + 150 * (gg + 10) + 29 * bb == s + 1500);
    }
    if bb <= 245 {
        let f2 = frame.update(4 * p, (frame[4 * p] + 10) as u8);
        assert(f2[4 * p] == bb + 10 && f2[4 * p + 1] == frame[4 * p + 1] && f2[4 * p + 2] == frame[4 * p + 2]);
        assert(77 * rr + 150 * gg + 29 * (bb + 10) == s + 290);
    }
}

} // verus!
