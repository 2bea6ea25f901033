use vstd::prelude::*;

verus! {

/// A rectangular region of interest in frame coordinates.
#[derive(Clone, Copy, Debug, PartialEq, Eq)]
pub struct Roi {
    pub x: i32,
    pub y: i32,
    pub w: i32,
    pub h: i32,
}

/// Smallest coordinate of the overlap of two spans along one axis.
pub open spec fn span_lo(a: int, b: int) -> int {
    if a >= b { a } else { b }
}

/// Largest (exclusive) coordinate of the overlap of two spans along one axis.
pub open spec fn span_hi(a: int, b: int) -> int {
    if a <= b { a } else { b }
}

/// Whether the right/bottom edges of a region can be computed in `i32`.
pub open spec fn roi_edges_fit(r: Roi) -> bool {
    i32::MIN <= r.x + r.w <= i32::MAX && i32::MIN <= r.y + r.h <= i32::MAX
}

/// The overlap of two regions, or `None` when the overlap is no more than
/// eight pixels wide or high.
pub open spec fn spec_intersect(a: Roi, b: Roi) -> Option<Roi> {
    let x0 = span_lo(a.x as int, b.x as int);
    let y0 = span_lo(a.y as int, b.y as int);
    let x1 = span_hi(a.x + a.w, b.x + b.w);
    let y1 = span_hi(a.y + a.h, b.y + b.h);
    if x1 <= x0 + 8 || y1 <= y0 + 8 {
        None
    } else {
        Some(Roi { x: x0 as i32, y: y0 as i32, w: (x1 - x0) as i32, h: (y1 - y0) as i32 })
    }
}

/// Overlap of `a` and `b`; `None` unless the overlap is more than eight
/// pixels in both directions.
pub fn intersect(a: Roi, b: Roi) -> (r: Option<Roi>)
    requires
        roi_edges_fit(a),
        roi_edges_fit(b),
    ensures
        r == spec_intersect(a, b),
{
    let x0 = if a.x >= b.x { a.x } else { b.x };
    let y0 = if a.y >= b.y { a.y } else { b.y };
    let ax1 = a.x + a.w;
    let bx1 = b.x + b.w;
    let ay1 = a.y + a.h;
    let by1 = b.y + b.h;
    let x1 = if ax1 <= bx1 { ax1 } else { bx1 };
    let y1 = if ay1 <= by1 { ay1 } else { by1 };
    if (x1 as i64) <= (x0 as i64) + 8 || (y1 as i64) <= (y0 as i64) + 8 {
        None
    } else {
        Some(Roi { x: x0, y: y0, w: x1 - x0, h: y1 - y0 })
    }
}


/// A screen position.
#[derive(Clone, Copy, Debug, PartialEq, Eq)]
pub struct Point {
    pub x: i32,
    pub y: i32,
}

/// The game field on screen: top-left corner and size.
#[derive(Clone, Copy, Debug, PartialEq, Eq)]
pub struct Rect {
    pub left: i32,
    pub top: i32,
    pub width: i32,
    pub height: i32,
}

/// Why two calibration corners do not describe a usable game field.
#[derive(Clone, Copy, Debug, PartialEq, Eq)]
pub enum RectError {
    /// The field is narrower than 250 or lower than 350 pixels.
    TooSmall,
}

/// Smallest width of a usable game field.
pub const MIN_FIELD_WIDTH: i32 = 250;

/// Smallest height of a usable game field.
pub const MIN_FIELD_HEIGHT: i32 = 350;

/// The rectangle spanned by two corners, whichever order they come in.
pub open spec fn spec_rect_from_corners(p1: Point, p2: Point) -> Rect {
    let left = span_hi(p1.x as int, p2.x as int);
    let top = span_hi(p1.y as int, p2.y as int);
    let right = span_lo(p1.x as int, p2.x as int);
    let bottom = span_lo(p1.y as int, p2.y as int);
    Rect { left: left as i32, top: top as i32, width: (right - left) as i32, height: (bottom - top) as i32 }
}

/// Whether the spans between the corners can be computed in `i32`.
pub open spec fn corners_fit(p1: Point, p2: Point) -> bool {
    i32::MIN <= p1.x - p2.x <= i32::MAX && i32::MIN <= p2.x - p1.x <= i32::MAX
        && i32::MIN <= p1.y - p2.y <= i32::MAX && i32::MIN <= p2.y - p1.y <= i32::MAX
}

/// The game field spanned by two calibration corners; refused when it is
/// narrower than 250 or lower than 350 pixels.
pub fn game_rect_from_corners(p1: Point, p2: Point) -> (r: Result<Rect, RectError>)
    requires
        corners_fit(p1, p2),
    ensures
        ({
            let rect = spec_rect_from_corners(p1, p2);
            if rect.width < MIN_FIELD_WIDTH || rect.height < MIN_FIELD_HEIGHT {
                r == Err::<Rect, RectError>(RectError::TooSmall)
            } else {
                r == Ok::<Rect, RectError>(rect)
            }
        }),
{
    let left = if p1.x <= p2.x { p1.x } else { p2.x };
    let top = if p1.y <= p2.y { p1.y } else { p2.y };
    let right = if p1.x >= p2.x { p1.x } else { p2.x };
    let bottom = if p1.y >= p2.y { p1.y } else { p2.y };
    let rect = Rect { left, top, width: right - left, height: bottom - top };
    if rect.width < MIN_FIELD_WIDTH || rect.height < MIN_FIELD_HEIGHT {
        Err(RectError::TooSmall)
    } else {
        Ok(rect)
    }
}

/// The search window of side `2 * radius` whose top-left corner is
/// `(left, top)`, clipped to the `width` x `height` screen and then to
/// `base`; `base` itself wherever a clipping step leaves too little.
pub open spec fn spec_roi_around_corner(left: i32, top: i32, radius: i32, width: i32, height: i32, base: Roi) -> Roi {
    let local = Roi { x: left, y: top, w: (2 * radius) as i32, h: (2 * radius) as i32 };
    let screen = Roi { x: 0, y: 0, w: width, h: height };
    match spec_intersect(local, screen) {
        Some(r) => match spec_intersect(r, base) {
            Some(q) => q,
            None => base,
        },
        None => base,
    }
}

/// Clip the square search window at `(left, top)` with side `2 * radius`
/// to the screen and to `base`, falling back to `base`.
pub fn roi_around_corner(left: i32, top: i32, radius: i32, width: i32, height: i32, base: Roi) -> (r: Roi)
    requires
        i32::MIN <= 2 * radius <= i32::MAX,
        i32::MIN <= left + 2 * radius <= i32::MAX,
        i32::MIN <= top + 2 * radius <= i32::MAX,
        roi_edges_fit(base),
    ensures
        r == spec_roi_around_corner(left, top, radius, width, height, base),
{
    let side = 2 * radius;
    let local = Roi { x: left, y: top, w: side, h: side };
    let screen = Roi { x: 0, y: 0, w: width, h: height };
    match intersect(local, screen) {
        Some(r) => match intersect(r, base) {
            Some(q) => q,
            None => base,
        },
        None => base,
    }
}

/// Byte offset of pixel `(x, y)` in a BGRA frame `width` pixels wide.
pub open spec fn pixel_offset(width: int, x: int, y: int) -> int {
    (y * width + x) * 4
}

/// Byte offset of pixel `(x, y)` in a BGRA frame `width` pixels wide.
pub fn idx(width: i32, x: i32, y: i32) -> (r: usize)
    requires
        i32::MIN <= y * width <= i32::MAX,
        0 <= y * width + x,
        (y * width + x) * 4 <= i32::MAX,
    ensures
        r == pixel_offset(width as int, x as int, y as int),
{
    ((y * width + x) * 4) as usize
}


/// The overlap does not depend on the order of the two regions.
pub proof fn lemma_intersect_commutes(a: Roi, b: Roi)
    ensures
        spec_intersect(a, b) == spec_intersect(b, a),
{
}

/// An overlap lies inside both regions and is more than eight pixels
/// wide and high.
pub proof fn lemma_intersect_within(a: Roi, b: Roi)
    requires
        roi_edges_fit(a),
        roi_edges_fit(b),
    ensures
        spec_intersect(a, b) matches Some(r) ==> {
            &&& a.x <= r.x && r.x + r.w <= a.x + a.w
            &&& a.y <= r.y && r.y + r.h <= a.y + a.h
            &&& b.x <= r.x && r.x + r.w <= b.x + b.w
            &&& b.y <= r.y && r.y + r.h <= b.y + b.h
            &&& r.w > 8 && r.h > 8
        },
{
}

/// A region more than eight pixels wide and high overlaps itself exactly.
pub proof fn lemma_intersect_self(a: Roi)
    requires
        roi_edges_fit(a),
        a.w > 8,
        a.h > 8,
    ensures
        spec_intersect(a, a) == Some(a),
{
}

/// The search window always lies inside `base`.
pub proof fn lemma_roi_around_within_base(left: i32, top: i32, radius: i32, width: i32, height: i32, base: Roi)
    requires
        i32::MIN <= 2 * radius <= i32::MAX,
        i32::MIN <= left + 2 * radius <= i32::MAX,
        i32::MIN <= top + 2 * radius <= i32::MAX,
        roi_edges_fit(base),
    ensures
        ({
            let r = spec_roi_around_corner(left, top, radius, width, height, base);
            base.x <= r.x && r.x + r.w <= base.x + base.w && base.y <= r.y && r.y + r.h <= base.y + base.h
        }),
{
    let local = Roi { x: left, y: top, w: (2 * radius) as i32, h: (2 * radius) as i32 };
    let screen = Roi { x: 0, y: 0, w: width, h: height };
    lemma_intersect_within(local, screen);
    if let Some(r) = spec_intersect(local, screen) {
        lemma_intersect_within(r, base);
    }
}

/// The game field does not depend on the order the corners are given in.
pub proof fn lemma_rect_from_corners_symmetric(p1: Point, p2: Point)
    ensures
        spec_rect_from_corners(p1, p2) == spec_rect_from_corners(p2, p1),
{
}

/// Neighbouring pixels are 4 bytes apart along a row and `4 * width`
/// bytes apart along a column.
pub proof fn lemma_pixel_offset_steps(width: int, x: int, y: int)
    ensures
        pixel_offset(width, x + 1, y) == pixel_offset(width, x, y) + 4,
        pixel_offset(width, x, y + 1) == pixel_offset(width, x, y) + 4 * width,
{
    assert((y + 1) * width == y * width + width) by (nonlinear_arith);
}


/// The search window is the `2 * radius` square at `(left, top)` itself
/// whenever that square lies inside the `width` x `height` screen and
/// inside `base` and its side is more than 8; and whatever window comes
/// back is `base` or lies inside both the screen and `base`.
pub proof fn lemma_roi_around_corner_window(left: i32, top: i32, radius: i32, width: i32, height: i32, base: Roi)
    requires
        i32::MIN <= 2 * radius <= i32::MAX,
        i32::MIN <= left + 2 * radius <= i32::MAX,
        i32::MIN <= top + 2 * radius <= i32::MAX,
        roi_edges_fit(base),
    ensures
        ({
            let r = spec_roi_around_corner(left, top, radius, width, height, base);
            &&& (2 * radius > 8 && 0 <= left && left + 2 * radius <= width && 0 <= top && top + 2 * radius <= height
                && base.x <= left && left + 2 * radius <= base.x + base.w
                && base.y <= top && top + 2 * radius <= base.y + base.h)
                ==> r == (Roi { x: left, y: top, w: (2 * radius) as i32, h: (2 * radius) as i32 })
            &&& r == base || {
                &&& 0 <= r.x && r.x + r.w <= width && 0 <= r.y && r.y + r.h <= height
                &&& base.x <= r.x && r.x + r.w <= base.x + base.w
                &&& base.y <= r.y && r.y + r.h <= base.y + base.h
            }
        }),
{
    let local = Roi { x: left, y: top, w: (2 * radius) as i32, h: (2 * radius) as i32 };
    let screen = Roi { x: 0, y: 0, w: width, h: height };
    lemma_intersect_within(local, screen);
    if let Some(r) = spec_intersect(local, screen) {
        lemma_intersect_within(r, base);
    }
}


/// Whether pixel `(px, py)` lies in region `r`.
pub open spec fn roi_contains(r: Roi, px: int, py: int) -> bool {
    r.x <= px < r.x + r.w && r.y <= py < r.y + r.h
}

/// The overlap is exact: a pixel lies in it exactly when it lies in both
/// regions; and there is none exactly when the common span is 8 pixels or
/// less in some direction.
pub proof fn lemma_intersect_exact(a: Roi, b: Roi)
    requires
        roi_edges_fit(a),
        roi_edges_fit(b),
    ensures
        spec_intersect(a, b) matches Some(r) ==> forall|px: int, py: int|
            #[trigger] roi_contains(r, px, py) <==> roi_contains(a, px, py) && roi_contains(b, px, py),
        ({
            let x0 = if a.x >= b.x { a.x as int } else { b.x as int };
            let y0 = if a.y >= b.y { a.y as int } else { b.y as int };
            let x1 = if a.x + a.w <= b.x + b.w { a.x + a.w } else { b.x + b.w };
            let y1 = if a.y + a.h <= b.y + b.h { a.y + a.h } else { b.y + b.h };
            spec_intersect(a, b) is None <==> (x1 - x0 <= 8 || y1 - y0 <= 8)
        }),
{
}


/// A calibrated field spans both corners exactly (its corners are the
/// smaller and larger coordinates) and is at least 250 wide and 350
/// high; it is refused exactly when the corners are less than 250 apart
/// horizontally or less than 350 apart vertically.
pub proof fn lemma_game_rect_spans_corners(p1: Point, p2: Point)
    requires
        corners_fit(p1, p2),
    ensures
        ({
            let r = spec_rect_from_corners(p1, p2);
            let dx = if p1.x <= p2.x { p2.x - p1.x } else { p1.x - p2.x };
            let dy = if p1.y <= p2.y { p2.y - p1.y } else { p1.y - p2.y };
            &&& r.left <= p1.x <= r.left + r.width && r.left <= p2.x <= r.left + r.width
            &&& r.top <= p1.y <= r.top + r.height && r.top <= p2.y <= r.top + r.height
            &&& (r.left == p1.x || r.left == p2.x) && (r.top == p1.y || r.top == p2.y)
            &&& r.width == dx && r.height == dy
            &&& (r.width < MIN_FIELD_WIDTH || r.height < MIN_FIELD_HEIGHT) <==> (dx < 250 || dy < 350)
        }),
{
}

} // verus!
