use vstd::prelude::*;

use crate::color::{red_color, spec_red_color, lemma_pixel_in_frame, lemma_red_color_needs_saturation};

verus! {

/// Whether column `x` counts as part of the cart: at least three red pixels.
pub open spec fn is_active(c: Seq<i32>, x: int) -> bool {
    c[x] >= 3
}

/// `[s, e)` is a maximal run of active columns that is closed on the right
/// by an inactive column inside the frame.
pub open spec fn closed_run(c: Seq<i32>, s: int, e: int) -> bool {
    &&& 0 <= s < e < c.len()
    &&& (s == 0 || !is_active(c, s - 1))
    &&& forall|i: int| s <= i < e ==> #[trigger] is_active(c, i)
    &&& !is_active(c, e)
}

/// A closed run whose length lies in `lo..=hi`.
pub open spec fn run_ok(c: Seq<i32>, s: int, e: int, lo: int, hi: int) -> bool {
    closed_run(c, s, e) && lo <= e - s <= hi
}

/// Sum of `c[s..e)`.
pub open spec fn seg_sum(c: Seq<i32>, s: int, e: int) -> int
    decreases e - s,
{
    if e <= s { 0 } else { seg_sum(c, s, e - 1) + c[e - 1] }
}

/// Whether some closed run has a length in `lo..=hi`.
pub open spec fn some_run_ok(c: Seq<i32>, lo: int, hi: int) -> bool {
    exists|s: int, e: int| run_ok(c, s, e, lo, hi)
}

/// `[s, e)` is the acceptable run with the largest column sum, the
/// leftmost one among equals.
pub open spec fn best_run(c: Seq<i32>, s: int, e: int, lo: int, hi: int) -> bool {
    &&& run_ok(c, s, e, lo, hi)
    &&& forall|s2: int, e2: int| #[trigger] run_ok(c, s2, e2, lo, hi) ==> {
        &&& seg_sum(c, s2, e2) <= seg_sum(c, s, e)
        &&& (s2 < s ==> seg_sum(c, s2, e2) < seg_sum(c, s, e))
    }
}

/// Two closed runs that end at the same column start at the same column.
proof fn lemma_closed_run_start(c: Seq<i32>, s1: int, s2: int, e: int)
    requires
        closed_run(c, s1, e),
        closed_run(c, s2, e),
    ensures
        s1 == s2,
{
    if s1 < s2 {
        assert(is_active(c, s2 - 1));
    } else if s2 < s1 {
        assert(is_active(c, s1 - 1));
    }
}

/// At most one run is best.
pub proof fn lemma_best_run_unique(c: Seq<i32>, s1: int, e1: int, s2: int, e2: int, lo: int, hi: int)
    requires
        best_run(c, s1, e1, lo, hi),
        best_run(c, s2, e2, lo, hi),
    ensures
        s1 == s2 && e1 == e2,
{
    assert(run_ok(c, s2, e2, lo, hi));
    assert(run_ok(c, s1, e1, lo, hi));
    if s1 == s2 {
        if e1 < e2 {
            assert(is_active(c, e1));
        } else if e2 < e1 {
            assert(is_active(c, e2));
        }
    }
}

/// Bounds on a segment sum of values in `0..=cap`.
proof fn lemma_seg_sum_bounds(c: Seq<i32>, s: int, e: int, cap: int)
    requires
        0 <= s <= e <= c.len(),
        cap >= 0,
        forall|i: int| 0 <= i < c.len() ==> 0 <= #[trigger] c[i] <= cap,
    ensures
        0 <= seg_sum(c, s, e) <= (e - s) * cap,
    decreases e - s,
{
    if e > s {
        lemma_seg_sum_bounds(c, s, e - 1, cap);
        assert((e - 1 - s) * cap + cap == (e - s) * cap) by (nonlinear_arith);
    }
}

/// Find the best run of active columns: the closed run with length in
/// `lo..=hi` and the largest sum, the leftmost among equals.
fn pick_run(counts: &Vec<i32>, lo: i32, hi: i32, cap: i32) -> (r: Option<(i32, i32)>)
    requires
        counts@.len() <= i32::MAX,
        cap >= 0,
        counts@.len() * cap <= i32::MAX,
        forall|i: int| 0 <= i < counts@.len() ==> 0 <= #[trigger] counts@[i] <= cap,
    ensures
        r is None <==> !some_run_ok(counts@, lo as int, hi as int),
        r matches Some((s, e)) ==> best_run(counts@, s as int, e as int, lo as int, hi as int),
{
    let c = Ghost(counts@);
    let width = counts.len() as i32;
    let mut best: Option<(i32, i32, i32)> = None;
    let mut start: Option<i32> = None;
    let mut x: i32 = 0;
    while x < width
        invariant
            width == c@.len(),
            c@ == counts@,
            0 <= x <= width,
            cap >= 0,
            width * cap <= i32::MAX,
            forall|i: int| 0 <= i < width ==> 0 <= #[trigger] c@[i] <= cap,
            match start {
                Some(s) => {
                    &&& 0 <= s < x
                    &&& (s == 0 || !is_active(c@, s - 1))
                    &&& forall|i: int| s <= i < x ==> #[trigger] is_active(c@, i)
                },
                None => x == 0 || !is_active(c@, x - 1),
            },
            match best {
                None => forall|s2: int, e2: int| #[trigger] run_ok(c@, s2, e2, lo as int, hi as int) ==> e2 >= x,
                Some((bs, be, bsum)) => {
                    &&& run_ok(c@, bs as int, be as int, lo as int, hi as int)
                    &&& be < x
                    &&& bsum == seg_sum(c@, bs as int, be as int)
                    &&& forall|s2: int, e2: int| #[trigger] run_ok(c@, s2, e2, lo as int, hi as int) && e2 < x ==> {
                        &&& seg_sum(c@, s2, e2) <= bsum
                        &&& (s2 < bs ==> seg_sum(c@, s2, e2) < bsum)
                    }
                },
            },
        decreases width - x,
    {
        let active = counts[x as usize] >= 3;
        match (active, start) {
            (true, None) => {
                start = Some(x);
            },
            (false, Some(s)) => {
                let len = x - s;
                proof {
                    assert(closed_run(c@, s as int, x as int));
                    assert forall|s2: int| #[trigger] closed_run(c@, s2, x as int) implies s2 == s by {
                        lemma_closed_run_start(c@, s2, s as int, x as int);
                    }
                    if let Some((bs, be, bsum)) = best {
                        if s <= be {
                            assert(is_active(c@, be as int));
                        }
                    }
                }
                if lo <= len && len <= hi {
                    let mut sum: i32 = 0;
                    let mut i: i32 = s;
                    while i < x
                        invariant
                            0 <= s <= i <= x,
                            x < width,
                            width == c@.len(),
                            c@ == counts@,
                            cap >= 0,
                            width * cap <= i32::MAX,
                            forall|k: int| 0 <= k < width ==> 0 <= #[trigger] c@[k] <= cap,
                            sum == seg_sum(c@, s as int, i as int),
                        decreases x - i,
                    {
                        proof {
                            lemma_seg_sum_bounds(c@, s as int, i as int + 1, cap as int);
                            assert((i + 1 - s) * cap <= width * cap) by (nonlinear_arith)
                                requires i + 1 - s <= width, cap >= 0;
                        }
                        sum = sum + counts[i as usize];
                        i = i + 1;
                    }
                    let better = match best {
                        None => true,
                        Some((_, _, bsum)) => sum > bsum,
                    };
                    if better {
                        best = Some((s, x, sum));
                    }
                }
                start = None;
            },
            _ => {},
        }
        x = x + 1;
    }
    match best {
        None => None,
        Some((s, e, _)) => Some((s, e)),
    }
}


/// Number of rows `y` in `lo..hi` where pixel `(x, y)` is cart red.
pub open spec fn red_rows(frame: Seq<u8>, width: int, x: int, lo: int, hi: int) -> int
    decreases hi - lo,
{
    if hi <= lo {
        0
    } else {
        red_rows(frame, width, x, lo, hi - 1) + if spec_red_color(frame, width, x, hi - 1) { 1int } else { 0int }
    }
}

proof fn lemma_red_rows_bounds(frame: Seq<u8>, width: int, x: int, lo: int, hi: int)
    requires
        lo <= hi,
    ensures
        0 <= red_rows(frame, width, x, lo, hi) <= hi - lo,
    decreases hi - lo,
{
    if hi > lo {
        lemma_red_rows_bounds(frame, width, x, lo, hi - 1);
    }
}

/// Where the cart is looked for in a frame, in pixels. The driver derives
/// it from fractions of the frame size (rows 79%..91% of the height, 8%
/// side margins, runs 8%..=34% of the width, reported row at 88% of the
/// height).
#[derive(Clone, Copy, Debug, PartialEq, Eq)]
pub struct CartBand {
    /// First row searched.
    pub top: i32,
    /// Row after the last one searched.
    pub bottom: i32,
    /// Columns skipped on each side.
    pub margin: i32,
    /// Shortest accepted run of cart columns.
    pub min_len: i32,
    /// Longest accepted run of cart columns.
    pub max_len: i32,
    /// Row reported as the cart's position.
    pub row: i32,
}

/// Red pixels of column `x` inside the cart band; 0 in the side margins.
pub open spec fn cart_col_count(frame: Seq<u8>, width: int, band: CartBand, x: int) -> int {
    if band.margin <= x < width - band.margin {
        red_rows(frame, width, x, band.top as int, band.bottom as int)
    } else {
        0
    }
}

/// Red pixel count of every column of the frame.
pub open spec fn cart_counts(frame: Seq<u8>, width: int, band: CartBand) -> Seq<i32> {
    Seq::new(width as nat, |x: int| cart_col_count(frame, width, band, x) as i32)
}

/// Locate the cart: inside `band` (rows `band.top..band.bottom`, away
/// from `band.margin` columns on each side) count red pixels per column;
/// columns with at least three form runs; among the runs closed on the
/// right by an inactive column and `band.min_len..=band.max_len` long,
/// take the one with the most red pixels (the leftmost among equals) and
/// report its centre column and `band.row`.
pub fn find_cart_center(frame: &[u8], width: i32, height: i32, band: CartBand) -> (r: Option<(i32, i32)>)
    requires
        width >= 0,
        height >= 0,
        width * height * 4 <= i32::MAX,
        frame@.len() >= width * height * 4,
        0 <= band.top <= band.bottom <= height,
        0 <= band.margin <= width,
    ensures
        ({
            let c = cart_counts(frame@, width as int, band);
            let lo = band.min_len as int;
            let hi = band.max_len as int;
            &&& (r is None <==> !some_run_ok(c, lo, hi))
            &&& (r matches Some((cx, cy)) ==> exists|s: int, e: int| {
                &&& #[trigger] best_run(c, s, e, lo, hi)
                &&& cx == (s + e) / 2
                &&& cy == band.row
            })
            &&& (r matches Some((cx, cy)) ==> 0 <= cx < width)
        }),
{
    let y0 = band.top;
    let y1 = band.bottom;
    let margin = band.margin;
    let min_len = band.min_len;
    let max_len = band.max_len;
    let x_end = width - margin;
    let mut counts: Vec<i32> = vec![0i32; width as usize];
    let ghost fr = frame@;
    let mut y: i32 = y0;
    while y < y1
        invariant
            0 <= y0 <= y <= y1 <= height,
            y0 == band.top,
            y1 == band.bottom,
            margin == band.margin,
            x_end == width - margin,
            0 <= margin <= width,
            width * height * 4 <= i32::MAX,
            frame@.len() >= width * height * 4,
            fr == frame@,
            counts@.len() == width,
            forall|i: int| 0 <= i < width ==> #[trigger] counts@[i] == (
                if margin <= i < x_end { red_rows(fr, width as int, i, y0 as int, y as int) } else { 0 }),
        decreases y1 - y,
    {
        let mut x: i32 = margin;
        while x < x_end
            invariant
                0 <= y0 <= y < y1 <= height,
                margin <= x,
                x <= x_end || x == margin,
                x_end == width - margin,
                0 <= margin <= width,
                width * height * 4 <= i32::MAX,
                frame@.len() >= width * height * 4,
                fr == frame@,
                counts@.len() == width,
                forall|i: int| 0 <= i < width ==> #[trigger] counts@[i] == (
                    if margin <= i < x_end {
                        red_rows(fr, width as int, i, y0 as int, if i < x { y + 1 } else { y as int })
                    } else { 0 }),
            decreases x_end - x,
        {
            proof {
                lemma_pixel_in_frame(frame@.len() as int, width as int, height as int, x as int, y as int);
                lemma_red_rows_bounds(fr, width as int, x as int, y0 as int, y as int);
            }
            if red_color(frame, width, x, y) {
                let cur = counts[x as usize];
                counts.set(x as usize, cur + 1);
            }
            x = x + 1;
        }
        y = y + 1;
    }
    proof {
        assert forall|i: int| 0 <= i < width implies 0 <= #[trigger] counts@[i] <= height by {
            if margin <= i < x_end {
                lemma_red_rows_bounds(fr, width as int, i, y0 as int, y1 as int);
            }
        }
        assert(counts@ =~= cart_counts(fr, width as int, band));
        assert(width * height <= i32::MAX) by (nonlinear_arith)
            requires width * height * 4 <= i32::MAX, width >= 0, height >= 0;
    }
    match pick_run(&counts, min_len, max_len, height) {
        None => None,
        Some((x0, x1)) => {
            let cx = x0 + (x1 - x0) / 2;
            proof {
                assert(best_run(cart_counts(fr, width as int, band), x0 as int, x1 as int,
                    band.min_len as int, band.max_len as int));
                assert(cx == (x0 + x1) / 2);
            }
            Some((cx, band.row))
        },
    }
}


/// Whether pixel `(x, y)` of a BGRA frame is grey: blue, green and red equal.
pub open spec fn grey_at(frame: Seq<u8>, width: int, x: int, y: int) -> bool {
    let i = (y * width + x) * 4;
    frame[i] == frame[i + 1] && frame[i + 1] == frame[i + 2]
}

proof fn lemma_grey_rows(frame: Seq<u8>, width: int, x: int, lo: int, hi: int)
    requires
        forall|y: int| lo <= y < hi ==> #[trigger] grey_at(frame, width, x, y),
    ensures
        red_rows(frame, width, x, lo, hi) == 0,
    decreases hi - lo,
{
    if hi > lo {
        lemma_grey_rows(frame, width, x, lo, hi - 1);
        if spec_red_color(frame, width, x, hi - 1) {
            lemma_red_color_needs_saturation(frame, width, x, hi - 1);
            assert(grey_at(frame, width, x, hi - 1));
        }
    }
}

/// A column that is grey (all three channels equal) throughout the band
/// has no red pixels and is never part of a cart run.
pub proof fn lemma_grey_column_inactive(frame: Seq<u8>, width: int, band: CartBand, x: int)
    requires
        0 <= x < width,
        forall|y: int| band.top <= y < band.bottom ==> #[trigger] grey_at(frame, width, x, y),
    ensures
        cart_counts(frame, width, band)[x] == 0,
        !is_active(cart_counts(frame, width, band), x),
{
    lemma_grey_rows(frame, width, x, band.top as int, band.bottom as int);
}


/// What the chosen run is: every column of `s..e` has at least three red
/// pixels, column `e` (inside the frame) and column `s - 1` (if any) have
/// fewer, its length is within `lo..=hi`; and every other such run has a
/// column sum no larger, strictly smaller when it lies further left.
pub proof fn lemma_best_run_explicit(c: Seq<i32>, s: int, e: int, lo: int, hi: int)
    requires
        best_run(c, s, e, lo, hi),
    ensures
        0 <= s < e < c.len(),
        forall|i: int| s <= i < e ==> #[trigger] c[i] >= 3,
        c[e] < 3,
        s == 0 || c[s - 1] < 3,
        lo <= e - s <= hi,
        forall|s2: int, e2: int| {
            &&& 0 <= s2 < e2 < c.len()
            &&& (forall|i: int| s2 <= i < e2 ==> #[trigger] c[i] >= 3)
            &&& c[e2] < 3
            &&& (s2 == 0 || c[s2 - 1] < 3)
            &&& lo <= e2 - s2 <= hi
        } ==> #[trigger] seg_sum(c, s2, e2) <= seg_sum(c, s, e) && (s2 < s ==> seg_sum(c, s2, e2) < seg_sum(c, s, e)),
{
    assert forall|i: int| s <= i < e implies #[trigger] c[i] >= 3 by {
        assert(is_active(c, i));
    }
    assert forall|s2: int, e2: int| {
            &&& 0 <= s2 < e2 < c.len()
            &&& (forall|i: int| s2 <= i < e2 ==> #[trigger] c[i] >= 3)
            &&& c[e2] < 3
            &&& (s2 == 0 || c[s2 - 1] < 3)
            &&& lo <= e2 - s2 <= hi
        } implies #[trigger] seg_sum(c, s2, e2) <= seg_sum(c, s, e) && (s2 < s ==> seg_sum(c, s2, e2) < seg_sum(c, s, e)) by {
        assert forall|i: int| s2 <= i < e2 implies #[trigger] is_active(c, i) by {
            assert(c[i] >= 3);
        }
        assert(run_ok(c, s2, e2, lo, hi));
    }
}

/// A run sum is the sum of its columns: it grows by each added column.
pub proof fn lemma_seg_sum_split(c: Seq<i32>, s: int, m: int, e: int)
    requires
        s <= m <= e,
    ensures
        seg_sum(c, s, e) == seg_sum(c, s, m) + seg_sum(c, m, e),
    decreases e - m,
{
    if e > m {
        lemma_seg_sum_split(c, s, m, e - 1);
    }
}

} // verus!
