use vstd::prelude::*;

use crate::color::{boot_color, spec_boot_color, lemma_pixel_in_frame};
use crate::geometry::Roi;

verus! {

/// What the motion test reads: the BGRA frame, this frame's and the
/// previous frame's luma, the frame width and the region searched.
pub struct Scene {
    pub frame: Seq<u8>,
    pub gray: Seq<u8>,
    pub prev: Seq<u8>,
    pub width: int,
    pub roi: Roi,
}

/// A connected blob of moving boot-coloured pixels: its bounding box in
/// coordinates relative to the searched region, and its pixel count.
#[derive(Clone, Copy, Debug, PartialEq, Eq)]
pub struct Blob {
    pub min_x: i32,
    pub min_y: i32,
    pub max_x: i32,
    pub max_y: i32,
    pub count: i32,
}

/// Smallest luma change that counts as motion.
pub const MOTION_THRESHOLD: i32 = 18;

/// Pixels of the searched region.
pub open spec fn npix(sc: Scene) -> int {
    sc.roi.w * sc.roi.h
}

/// Column, within the region, of region pixel number `l` (row-major).
pub open spec fn lx(sc: Scene, l: int) -> int {
    l % (sc.roi.w as int)
}

/// Row, within the region, of region pixel number `l` (row-major).
pub open spec fn ly(sc: Scene, l: int) -> int {
    l / (sc.roi.w as int)
}

/// Whether the luma at frame pixel `(ax, ay)` changed by at least the
/// motion threshold since the previous frame.
pub open spec fn moving(sc: Scene, ax: int, ay: int) -> bool {
    let gi = ay * sc.width + ax;
    let d = sc.gray[gi] as int - sc.prev[gi] as int;
    d >= MOTION_THRESHOLD || -d >= MOTION_THRESHOLD
}

/// Whether region pixel `l` is moving and boot coloured.
#[verifier::opaque]
pub open spec fn hot(sc: Scene, l: int) -> bool {
    let ax = sc.roi.x + lx(sc, l);
    let ay = sc.roi.y + ly(sc, l);
    &&& 0 <= l < npix(sc)
    &&& moving(sc, ax, ay)
    &&& spec_boot_color(sc.frame, sc.width, ax, ay)
}

/// Whether region pixels `a` and `b` are 4-neighbours.
pub open spec fn adjacent(sc: Scene, a: int, b: int) -> bool {
    &&& 0 <= a < npix(sc)
    &&& 0 <= b < npix(sc)
    &&& {
        ||| lx(sc, a) == lx(sc, b) && (ly(sc, a) == ly(sc, b) + 1 || ly(sc, a) + 1 == ly(sc, b))
        ||| ly(sc, a) == ly(sc, b) && (lx(sc, a) == lx(sc, b) + 1 || lx(sc, a) + 1 == lx(sc, b))
    }
}

/// A chain of hot pixels, each a 4-neighbour of the next.
pub open spec fn is_path(sc: Scene, p: Seq<int>) -> bool {
    &&& p.len() >= 1
    &&& forall|i: int| 0 <= i < p.len() ==> hot(sc, #[trigger] p[i])
    &&& forall|i: int| 0 <= i < p.len() - 1 ==> adjacent(sc, #[trigger] p[i], p[i + 1])
}

/// Whether a chain of hot pixels leads from `a` to `b`.
#[verifier::opaque]
pub open spec fn connected(sc: Scene, a: int, b: int) -> bool {
    exists|p: Seq<int>| #[trigger] is_path(sc, p) && p[0] == a && p[p.len() - 1] == b
}

/// The hot pixels connected to `s`.
pub open spec fn component(sc: Scene, s: int) -> Set<int> {
    Set::new(|l: int| connected(sc, s, l))
}

/// Whether `s` is hot and comes first, in row-major order, in its
/// component: the pixel where a row-major scan finds the component.
pub open spec fn is_seed(sc: Scene, s: int) -> bool {
    hot(sc, s) && forall|l: int| #[trigger] connected(sc, s, l) ==> s <= l
}

/// `m` is the smallest column of the component of `s`.
pub open spec fn is_min_x(sc: Scene, s: int, m: int) -> bool {
    (exists|l: int| #[trigger] connected(sc, s, l) && lx(sc, l) == m)
        && forall|l: int| #[trigger] connected(sc, s, l) ==> m <= lx(sc, l)
}

/// `m` is the largest column of the component of `s`.
pub open spec fn is_max_x(sc: Scene, s: int, m: int) -> bool {
    (exists|l: int| #[trigger] connected(sc, s, l) && lx(sc, l) == m)
        && forall|l: int| #[trigger] connected(sc, s, l) ==> lx(sc, l) <= m
}

/// `m` is the smallest row of the component of `s`.
pub open spec fn is_min_y(sc: Scene, s: int, m: int) -> bool {
    (exists|l: int| #[trigger] connected(sc, s, l) && ly(sc, l) == m)
        && forall|l: int| #[trigger] connected(sc, s, l) ==> m <= ly(sc, l)
}

/// `m` is the largest row of the component of `s`.
pub open spec fn is_max_y(sc: Scene, s: int, m: int) -> bool {
    (exists|l: int| #[trigger] connected(sc, s, l) && ly(sc, l) == m)
        && forall|l: int| #[trigger] connected(sc, s, l) ==> ly(sc, l) <= m
}

/// The blob found from seed `s`: the bounding box and size of its component.
pub open spec fn spec_blob(sc: Scene, s: int) -> Blob {
    Blob {
        min_x: (choose|m: int| is_min_x(sc, s, m)) as i32,
        min_y: (choose|m: int| is_min_y(sc, s, m)) as i32,
        max_x: (choose|m: int| is_max_x(sc, s, m)) as i32,
        max_y: (choose|m: int| is_max_y(sc, s, m)) as i32,
        count: component(sc, s).len() as i32,
    }
}

/// Whether a blob has the size of a boot: at least 35 pixels, a box at
/// least 8 pixels wide and high, and no wider than `max_w` nor higher
/// than `max_h`.
pub open spec fn blob_passes(b: Blob, max_w: int, max_h: int) -> bool {
    let w = b.max_x - b.min_x + 1;
    let h = b.max_y - b.min_y + 1;
    !(b.count < 35 || w < 8 || h < 8 || w > max_w || h > max_h)
}

/// The boot-sized blobs whose seeds come before region pixel `k`, in
/// the order a row-major scan finds them.
pub open spec fn blobs_upto(sc: Scene, max_w: int, max_h: int, k: int) -> Seq<Blob>
    decreases k,
{
    if k <= 0 {
        Seq::empty()
    } else {
        let prev = blobs_upto(sc, max_w, max_h, k - 1);
        if is_seed(sc, k - 1) && blob_passes(spec_blob(sc, k - 1), max_w, max_h) {
            prev.push(spec_blob(sc, k - 1))
        } else {
            prev
        }
    }
}

// ---------------------------------------------------------------------
// Region coordinates

/// Column and row of a region pixel number, and back.
pub proof fn lemma_coords(sc: Scene, l: int)
    requires
        sc.roi.w > 0,
        sc.roi.h >= 0,
        0 <= l < npix(sc),
    ensures
        0 <= lx(sc, l) < sc.roi.w,
        0 <= ly(sc, l) < sc.roi.h,
        l == ly(sc, l) * sc.roi.w + lx(sc, l),
{
    let w = sc.roi.w as int;
    vstd::arithmetic::div_mod::lemma_fundamental_div_mod(l, w);
    vstd::arithmetic::div_mod::lemma_mod_pos_bound(l, w);
    vstd::arithmetic::div_mod::lemma_div_pos_is_pos(l, w);
    assert(l / w < sc.roi.h) by (nonlinear_arith)
        requires
            l == w * (l / w) + l % w,
            0 <= l % w,
            l < w * sc.roi.h,
            w > 0,
    ;
    assert(w * (l / w) == (l / w) * w) by (nonlinear_arith);
}

/// The region pixel number of column `x`, row `y`.
pub proof fn lemma_lin(sc: Scene, x: int, y: int)
    requires
        0 <= x < sc.roi.w,
        0 <= y < sc.roi.h,
    ensures
        0 <= y * sc.roi.w + x < npix(sc),
        lx(sc, y * sc.roi.w + x) == x,
        ly(sc, y * sc.roi.w + x) == y,
{
    let w = sc.roi.w as int;
    assert(0 <= y * w + x < w * sc.roi.h) by (nonlinear_arith)
        requires 0 <= x < w, 0 <= y < sc.roi.h;
    vstd::arithmetic::div_mod::lemma_fundamental_div_mod_converse(y * w + x, w, y, x);
}

// ---------------------------------------------------------------------
// Connectivity

/// Adjacency is symmetric.
pub proof fn lemma_adjacent_symmetric(sc: Scene, a: int, b: int)
    requires
        adjacent(sc, a, b),
    ensures
        adjacent(sc, b, a),
{
}

/// A hot pixel is connected to itself.
pub proof fn lemma_connected_refl(sc: Scene, a: int)
    requires
        hot(sc, a),
    ensures
        connected(sc, a, a),
{
    reveal(connected);
    let p = seq![a];
    assert(is_path(sc, p));
}

/// Both ends of a connection are hot.
pub proof fn lemma_connected_hot(sc: Scene, a: int, b: int)
    requires
        connected(sc, a, b),
    ensures
        hot(sc, a),
        hot(sc, b),
        0 <= a < npix(sc),
        0 <= b < npix(sc),
{
    reveal(connected);
    reveal(hot);
    let p = choose|p: Seq<int>| #[trigger] is_path(sc, p) && p[0] == a && p[p.len() - 1] == b;
    assert(hot(sc, p[0]));
    assert(hot(sc, p[p.len() - 1]));
}

/// A connection extends by a hot neighbour.
pub proof fn lemma_connected_step(sc: Scene, a: int, b: int, c: int)
    requires
        connected(sc, a, b),
        adjacent(sc, b, c),
        hot(sc, c),
    ensures
        connected(sc, a, c),
{
    reveal(connected);
    let p = choose|p: Seq<int>| #[trigger] is_path(sc, p) && p[0] == a && p[p.len() - 1] == b;
    let q = p.push(c);
    assert forall|i: int| 0 <= i < q.len() implies hot(sc, #[trigger] q[i]) by {
        if i < p.len() {
            assert(q[i] == p[i]);
        }
    }
    assert forall|i: int| 0 <= i < q.len() - 1 implies adjacent(sc, #[trigger] q[i], q[i + 1]) by {
        if i < p.len() - 1 {
            assert(q[i] == p[i]);
            assert(q[i + 1] == p[i + 1]);
        } else {
            assert(q[i] == b);
        }
    }
    assert(is_path(sc, q));
}

/// Connection is symmetric.
pub proof fn lemma_connected_symmetric(sc: Scene, a: int, b: int)
    requires
        connected(sc, a, b),
    ensures
        connected(sc, b, a),
{
    reveal(connected);
    let p = choose|p: Seq<int>| #[trigger] is_path(sc, p) && p[0] == a && p[p.len() - 1] == b;
    let q = p.reverse();
    assert forall|i: int| 0 <= i < q.len() implies hot(sc, #[trigger] q[i]) by {
        assert(q[i] == p[p.len() - 1 - i]);
    }
    assert forall|i: int| 0 <= i < q.len() - 1 implies adjacent(sc, #[trigger] q[i], q[i + 1]) by {
        assert(q[i] == p[p.len() - 1 - i]);
        assert(q[i + 1] == p[p.len() - 2 - i]);
        assert(adjacent(sc, p[p.len() - 2 - i], p[p.len() - 2 - i + 1]));
        lemma_adjacent_symmetric(sc, p[p.len() - 2 - i], p[p.len() - 1 - i]);
    }
    assert(is_path(sc, q));
    assert(q[0] == b);
    assert(q[q.len() - 1] == a);
}

/// Connection is transitive.
pub proof fn lemma_connected_transitive(sc: Scene, a: int, b: int, c: int)
    requires
        connected(sc, a, b),
        connected(sc, b, c),
    ensures
        connected(sc, a, c),
{
    reveal(connected);
    let p = choose|p: Seq<int>| #[trigger] is_path(sc, p) && p[0] == a && p[p.len() - 1] == b;
    let q = choose|q: Seq<int>| #[trigger] is_path(sc, q) && q[0] == b && q[q.len() - 1] == c;
    let r = p + q.drop_first();
    assert forall|i: int| 0 <= i < r.len() implies hot(sc, #[trigger] r[i]) by {
        if i < p.len() {
            assert(r[i] == p[i]);
        } else {
            assert(r[i] == q[i - p.len() + 1]);
        }
    }
    assert forall|i: int| 0 <= i < r.len() - 1 implies adjacent(sc, #[trigger] r[i], r[i + 1]) by {
        if i < p.len() - 1 {
            assert(r[i] == p[i]);
            assert(r[i + 1] == p[i + 1]);
        } else if i == p.len() - 1 {
            assert(r[i] == b);
            assert(r[i + 1] == q[1]);
            assert(adjacent(sc, q[0], q[1]));
        } else {
            assert(r[i] == q[i - p.len() + 1]);
            assert(r[i + 1] == q[i - p.len() + 2]);
            assert(adjacent(sc, q[i - p.len() + 1], q[i - p.len() + 1 + 1]));
        }
    }
    assert(is_path(sc, r));
    if q.len() == 1 {
        assert(r =~= p);
    }
}

/// Whether every hot neighbour of a member of `e` is a member.
pub open spec fn closed_under_adjacency(sc: Scene, e: Set<int>) -> bool {
    forall|a: int, b: int| #[trigger] e.contains(a) && #[trigger] adjacent(sc, a, b) && hot(sc, b) ==> e.contains(b)
}

proof fn lemma_path_in_closed_set(sc: Scene, e: Set<int>, p: Seq<int>, i: int)
    requires
        is_path(sc, p),
        e.contains(p[0]),
        closed_under_adjacency(sc, e),
        0 <= i < p.len(),
    ensures
        e.contains(p[i]),
    decreases i,
{
    if i > 0 {
        lemma_path_in_closed_set(sc, e, p, i - 1);
        assert(adjacent(sc, p[i - 1], p[i]));
        assert(hot(sc, p[i]));
    }
}

/// A set that holds `s` and every hot neighbour of each of its members
/// holds the whole component of `s`.
pub proof fn lemma_closed_set_holds_component(sc: Scene, e: Set<int>, s: int, l: int)
    requires
        e.contains(s),
        closed_under_adjacency(sc, e),
        connected(sc, s, l),
    ensures
        e.contains(l),
{
    reveal(connected);
    let p = choose|p: Seq<int>| #[trigger] is_path(sc, p) && p[0] == s && p[p.len() - 1] == l;
    lemma_path_in_closed_set(sc, e, p, p.len() - 1);
}

// ---------------------------------------------------------------------
// Reading the frame

/// The scene read from the given buffers.
pub open spec fn scene(frame: Seq<u8>, gray: Seq<u8>, prev: Seq<u8>, width: int, roi: Roi) -> Scene {
    Scene { frame, gray, prev, width, roi }
}

/// Whether the region lies inside the frame and every buffer covers the
/// rows down to the region's bottom edge, with offsets computable in `i32`.
/// The region must not reach past the frame's right edge: its rows are not
/// wrapped into the next frame row, so callers clip regions to the frame
/// first.
pub open spec fn scene_fits(sc: Scene) -> bool {
    let rows = sc.roi.y + sc.roi.h;
    &&& sc.width >= 0
    &&& sc.roi.w >= 0
    &&& sc.roi.h >= 0
    &&& 0 <= sc.roi.x
    &&& sc.roi.x + sc.roi.w <= sc.width
    &&& 0 <= sc.roi.y
    &&& rows * sc.width * 4 <= i32::MAX
    &&& sc.frame.len() >= rows * sc.width * 4
    &&& sc.gray.len() >= rows * sc.width
    &&& sc.prev.len() >= rows * sc.width
}

proof fn lemma_npix_bound(sc: Scene)
    requires
        scene_fits(sc),
    ensures
        0 <= npix(sc),
        npix(sc) * 4 <= i32::MAX,
{
    let rows = sc.roi.y + sc.roi.h;
    assert(0 <= sc.roi.w * sc.roi.h <= sc.width * rows) by (nonlinear_arith)
        requires 0 <= sc.roi.w <= sc.width, 0 <= sc.roi.h <= rows;
    assert(sc.width * rows == rows * sc.width) by (nonlinear_arith);
}

/// Whether region pixel `(xx, yy)` is moving and boot coloured.
fn is_hot(frame: &[u8], gray: &[u8], prev: &[u8], width: i32, roi: Roi, xx: i32, yy: i32) -> (b: bool)
    requires
        scene_fits(scene(frame@, gray@, prev@, width as int, roi)),
        0 <= xx < roi.w,
        0 <= yy < roi.h,
    ensures
        b == hot(scene(frame@, gray@, prev@, width as int, roi), yy * roi.w + xx),
{
    let ghost sc = scene(frame@, gray@, prev@, width as int, roi);
    proof {
        reveal(hot);
        lemma_lin(sc, xx as int, yy as int);
    }
    proof {
        let rows = roi.y + roi.h;
        assert(rows <= rows * width && width * rows * 4 <= i32::MAX && width * rows * 4 == rows * width * 4)
            by (nonlinear_arith)
            requires width >= 1, rows >= 0, rows * width * 4 <= i32::MAX;
    }
    let x = roi.x + xx;
    let y = roi.y + yy;
    proof {
        let rows = roi.y + roi.h;
        lemma_pixel_in_frame(frame@.len() as int, width as int, rows, x as int, y as int);
        assert(y * width + x < rows * width) by (nonlinear_arith)
            requires 0 <= x < width, 0 <= y < rows;
    }
    let gi = (y * width + x) as usize;
    let d = gray[gi] as i32 - prev[gi] as i32;
    let motion = d >= MOTION_THRESHOLD || -d >= MOTION_THRESHOLD;
    motion && boot_color(frame, width, x, y)
}


// ---------------------------------------------------------------------
// Flood fill

/// Region pixel number of a `(column, row)` pair.
pub open spec fn lin_pt(sc: Scene, pt: (i32, i32)) -> int {
    pt.1 * sc.roi.w + pt.0
}

/// Whether a `(column, row)` pair lies inside the region.
pub open spec fn pt_in_roi(sc: Scene, pt: (i32, i32)) -> bool {
    0 <= pt.0 < sc.roi.w && 0 <= pt.1 < sc.roi.h
}

/// Whether region pixel `q` is waiting on the stack.
pub open spec fn on_stack(sc: Scene, st: Seq<(i32, i32)>, q: int) -> bool {
    exists|i: int| 0 <= i < st.len() && lin_pt(sc, #[trigger] st[i]) == q
}

/// State of the flood fill from seed `k`: `v0` is the visited map before
/// the fill, `e` the pixels taken off the stack so far.
#[verifier::opaque]
pub open spec fn fill_inv(sc: Scene, k: int, v0: Seq<bool>, vis: Seq<bool>, st: Seq<(i32, i32)>, e: Set<int>) -> bool {
    &&& vis.len() == npix(sc)
    &&& v0.len() == npix(sc)
    &&& forall|i: int| 0 <= i < st.len() ==> {
        &&& pt_in_roi(sc, #[trigger] st[i])
        &&& connected(sc, k, lin_pt(sc, st[i]))
        &&& !e.contains(lin_pt(sc, st[i]))
        &&& vis[lin_pt(sc, st[i])]
    }
    &&& forall|i: int, j: int| 0 <= i < j < st.len() ==> lin_pt(sc, #[trigger] st[i]) != lin_pt(sc, #[trigger] st[j])
    &&& forall|q: int| #[trigger] e.contains(q) ==> connected(sc, k, q) && vis[q]
    &&& e.finite()
    &&& forall|q: int| 0 <= q < npix(sc) && #[trigger] v0[q] ==> vis[q]
    &&& forall|q: int| 0 <= q < npix(sc) && hot(sc, q) && !connected(sc, k, q) ==> #[trigger] vis[q] == v0[q]
    &&& forall|q: int| #[trigger] connected(sc, k, q) ==> !v0[q] && (vis[q] ==> e.contains(q) || on_stack(sc, st, q))
}

/// Whether `(nx, ny)` is one of the four neighbours of region pixel `p`.
pub open spec fn neighbour_coords(sc: Scene, p: int, nx: int, ny: int) -> bool {
    ||| ny == ly(sc, p) && (nx == lx(sc, p) + 1 || nx == lx(sc, p) - 1)
    ||| nx == lx(sc, p) && (ny == ly(sc, p) + 1 || ny == ly(sc, p) - 1)
}

/// Visit neighbour `(nx, ny)` of a pixel just taken off the stack: if it
/// lies in the region and is not yet visited, mark it visited, and push
/// it when it is hot.
fn try_push(
    frame: &[u8],
    gray: &[u8],
    prev: &[u8],
    width: i32,
    roi: Roi,
    visited: &mut Vec<bool>,
    stack: &mut Vec<(i32, i32)>,
    nx: i32,
    ny: i32,
    Ghost(k): Ghost<int>,
    Ghost(v0): Ghost<Seq<bool>>,
    Ghost(e): Ghost<Set<int>>,
    Ghost(p): Ghost<int>,
)
    requires
        scene_fits(scene(frame@, gray@, prev@, width as int, roi)),
        roi.w > 0,
        fill_inv(scene(frame@, gray@, prev@, width as int, roi), k, v0, old(visited)@, old(stack)@, e),
        e.contains(p),
        0 <= p < npix(scene(frame@, gray@, prev@, width as int, roi)),
        neighbour_coords(scene(frame@, gray@, prev@, width as int, roi), p, nx as int, ny as int),
    ensures
        fill_inv(scene(frame@, gray@, prev@, width as int, roi), k, v0, final(visited)@, final(stack)@, e),
        final(visited)@.len() == old(visited)@.len(),
        forall|q: int| 0 <= q < npix(scene(frame@, gray@, prev@, width as int, roi)) && #[trigger] old(visited)@[q]
            ==> final(visited)@[q],
        (0 <= nx < roi.w && 0 <= ny < roi.h) ==> final(visited)@[ny * roi.w + nx],
{
    let ghost sc = scene(frame@, gray@, prev@, width as int, roi);
    proof {
        reveal(fill_inv);
    }
    if nx < 0 || ny < 0 || nx >= roi.w || ny >= roi.h {
        return;
    }
    proof {
        lemma_npix_bound(sc);
        lemma_lin(sc, nx as int, ny as int);
        lemma_coords(sc, p);
    }
    let ni = (ny * roi.w + nx) as usize;
    if visited[ni] {
        return;
    }
    let ghost q = ny * roi.w + nx;
    let ghost old_st = stack@;
    let ghost old_vis = visited@;
    if is_hot(frame, gray, prev, width, roi, nx, ny) {
        proof {
            assert(adjacent(sc, p, q));
            lemma_connected_step(sc, k, p, q);
        }
        visited.set(ni, true);
        stack.push((nx, ny));
        proof {
            let st = stack@;
            assert(st[st.len() - 1] == (nx, ny));
            assert(lin_pt(sc, (nx, ny)) == q);
            assert forall|i: int| 0 <= i < st.len() implies {
                &&& pt_in_roi(sc, #[trigger] st[i])
                &&& connected(sc, k, lin_pt(sc, st[i]))
                &&& !e.contains(lin_pt(sc, st[i]))
                &&& visited@[lin_pt(sc, st[i])]
            } by {
                if i < old_st.len() {
                    assert(st[i] == old_st[i]);
                    lemma_connected_hot(sc, k, lin_pt(sc, st[i]));
                }
            }
            assert forall|i: int, j: int| 0 <= i < j < st.len() implies lin_pt(sc, #[trigger] st[i]) != lin_pt(sc, #[trigger] st[j]) by {
                assert(st[i] == old_st[i]);
                if j < old_st.len() {
                    assert(st[j] == old_st[j]);
                }
            }
            assert forall|r: int| #[trigger] e.contains(r) implies visited@[r] by {
                lemma_connected_hot(sc, k, r);
            }
            assert forall|r: int| #[trigger] connected(sc, k, r) implies !v0[r] && (visited@[r] ==> e.contains(r) || on_stack(sc, st, r)) by {
                lemma_connected_hot(sc, k, r);
                if r == q {
                    assert(lin_pt(sc, st[st.len() - 1]) == r);
                } else if old_vis[r] && !e.contains(r) {
                    let i = choose|i: int| 0 <= i < old_st.len() && lin_pt(sc, #[trigger] old_st[i]) == r;
                    assert(st[i] == old_st[i]);
                }
            }
        }
    } else {
        visited.set(ni, true);
        proof {
            assert forall|r: int| #[trigger] connected(sc, k, r) implies r != q && visited@[r] == old_vis[r] by {
                lemma_connected_hot(sc, k, r);
            }
            assert forall|i: int| 0 <= i < old_st.len() implies visited@[lin_pt(sc, #[trigger] old_st[i])] by {
                lemma_connected_hot(sc, k, lin_pt(sc, old_st[i]));
            }
            assert forall|r: int| #[trigger] e.contains(r) implies visited@[r] by {
                lemma_connected_hot(sc, k, r);
            }
        }
    }
}


/// The bounding-box characterisations pin down one value each.
proof fn lemma_box_unique(sc: Scene, k: int, a: int, b: int)
    ensures
        is_min_x(sc, k, a) && is_min_x(sc, k, b) ==> a == b,
        is_max_x(sc, k, a) && is_max_x(sc, k, b) ==> a == b,
        is_min_y(sc, k, a) && is_min_y(sc, k, b) ==> a == b,
        is_max_y(sc, k, a) && is_max_y(sc, k, b) ==> a == b,
{
    if is_min_x(sc, k, a) && is_min_x(sc, k, b) {
        let la = choose|l: int| #[trigger] connected(sc, k, l) && lx(sc, l) == a;
        let lb = choose|l: int| #[trigger] connected(sc, k, l) && lx(sc, l) == b;
        assert(b <= lx(sc, la));
        assert(a <= lx(sc, lb));
    }
    if is_max_x(sc, k, a) && is_max_x(sc, k, b) {
        let la = choose|l: int| #[trigger] connected(sc, k, l) && lx(sc, l) == a;
        let lb = choose|l: int| #[trigger] connected(sc, k, l) && lx(sc, l) == b;
        assert(lx(sc, la) <= b);
        assert(lx(sc, lb) <= a);
    }
    if is_min_y(sc, k, a) && is_min_y(sc, k, b) {
        let la = choose|l: int| #[trigger] connected(sc, k, l) && ly(sc, l) == a;
        let lb = choose|l: int| #[trigger] connected(sc, k, l) && ly(sc, l) == b;
        assert(b <= ly(sc, la));
        assert(a <= ly(sc, lb));
    }
    if is_max_y(sc, k, a) && is_max_y(sc, k, b) {
        let la = choose|l: int| #[trigger] connected(sc, k, l) && ly(sc, l) == a;
        let lb = choose|l: int| #[trigger] connected(sc, k, l) && ly(sc, l) == b;
        assert(ly(sc, la) <= b);
        assert(ly(sc, lb) <= a);
    }
}

/// Every hot neighbour of a member of `e` is visited.
#[verifier::opaque]
pub open spec fn frontier_visited(sc: Scene, e: Set<int>, vis: Seq<bool>) -> bool {
    forall|a: int, b: int| #[trigger] e.contains(a) && #[trigger] adjacent(sc, a, b) && hot(sc, b) ==> vis[b]
}

/// The fill state at the start: only the seed is visited and stacked.
proof fn lemma_fill_start(sc: Scene, k: int, v0: Seq<bool>, vis: Seq<bool>, st: Seq<(i32, i32)>)
    requires
        v0.len() == npix(sc),
        0 <= k < npix(sc),
        hot(sc, k),
        vis == v0.update(k, true),
        st.len() == 1,
        pt_in_roi(sc, st[0]),
        lin_pt(sc, st[0]) == k,
        forall|q: int| #[trigger] connected(sc, k, q) ==> !v0[q],
    ensures
        fill_inv(sc, k, v0, vis, st, Set::empty()),
        frontier_visited(sc, Set::empty(), vis),
{
    reveal(fill_inv);
    reveal(frontier_visited);
    lemma_connected_refl(sc, k);
    let e = Set::<int>::empty();
    assert forall|q: int| #[trigger] connected(sc, k, q) implies !v0[q] && (vis[q] ==> e.contains(q) || on_stack(sc, st, q)) by {
        lemma_connected_hot(sc, k, q);
        if q == k {
            assert(lin_pt(sc, st[0]) == q);
        }
    }
    assert forall|q: int| 0 <= q < npix(sc) && hot(sc, q) && !connected(sc, k, q) implies #[trigger] vis[q] == v0[q] by {
        assert(q != k);
    }
}

/// Taking the top pixel off the stack and adding it to the explored set
/// keeps the fill state.
proof fn lemma_fill_pop(sc: Scene, k: int, v0: Seq<bool>, vis: Seq<bool>, st0: Seq<(i32, i32)>, e: Set<int>)
    requires
        fill_inv(sc, k, v0, vis, st0, e),
        st0.len() > 0,
        npix(sc) >= 0,
    ensures
        ({
            let p = lin_pt(sc, st0[st0.len() - 1]);
            &&& pt_in_roi(sc, st0[st0.len() - 1])
            &&& connected(sc, k, p)
            &&& !e.contains(p)
            &&& fill_inv(sc, k, v0, vis, st0.drop_last(), e.insert(p))
            &&& e.insert(p).len() == e.len() + 1
            &&& e.insert(p).len() <= npix(sc)
        }),
{
    reveal(fill_inv);
    let last = st0.len() - 1;
    let p = lin_pt(sc, st0[last]);
    let st = st0.drop_last();
    let e2 = e.insert(p);
    assert(pt_in_roi(sc, st0[last]));
    assert forall|i: int| 0 <= i < st.len() implies {
        &&& pt_in_roi(sc, #[trigger] st[i])
        &&& connected(sc, k, lin_pt(sc, st[i]))
        &&& !e2.contains(lin_pt(sc, st[i]))
        &&& vis[lin_pt(sc, st[i])]
    } by {
        assert(st[i] == st0[i]);
        assert(lin_pt(sc, st0[i]) != lin_pt(sc, st0[last]));
    }
    assert forall|i: int, j: int| 0 <= i < j < st.len() implies lin_pt(sc, #[trigger] st[i]) != lin_pt(sc, #[trigger] st[j]) by {
        assert(st[i] == st0[i]);
        assert(st[j] == st0[j]);
    }
    assert forall|r: int| #[trigger] connected(sc, k, r) implies !v0[r] && (vis[r] ==> e2.contains(r) || on_stack(sc, st, r)) by {
        if vis[r] && !e.contains(r) && r != p {
            let i = choose|i: int| 0 <= i < st0.len() && lin_pt(sc, #[trigger] st0[i]) == r;
            assert(i != last);
            assert(st[i] == st0[i]);
        }
    }
    vstd::set_lib::lemma_int_range(0, npix(sc));
    assert forall|q: int| e2.contains(q) implies vstd::set_lib::set_int_range(0, npix(sc)).contains(q) by {
        lemma_connected_hot(sc, k, q);
    }
    vstd::set_lib::lemma_len_subset(e2, vstd::set_lib::set_int_range(0, npix(sc)));
}

/// Once all four neighbours of `p` are visited, the frontier property
/// extends from `e` to `e` with `p`.
proof fn lemma_frontier_extend(sc: Scene, e: Set<int>, p: int, vis1: Seq<bool>, vis: Seq<bool>)
    requires
        sc.roi.w > 0,
        sc.roi.h >= 0,
        0 <= p < npix(sc),
        frontier_visited(sc, e, vis1),
        forall|q: int| 0 <= q < npix(sc) && #[trigger] vis1[q] ==> vis[q],
        forall|nx: int, ny: int| 0 <= nx < sc.roi.w && 0 <= ny < sc.roi.h && neighbour_coords(sc, p, nx, ny)
            ==> #[trigger] vis[ny * sc.roi.w + nx],
    ensures
        frontier_visited(sc, e.insert(p), vis),
{
    reveal(frontier_visited);
    assert forall|a: int, b: int| #[trigger] e.insert(p).contains(a) && #[trigger] adjacent(sc, a, b) && hot(sc, b) implies vis[b] by {
        lemma_coords(sc, b);
        lemma_coords(sc, a);
        if a == p {
            assert(neighbour_coords(sc, p, lx(sc, b), ly(sc, b)));
            assert(vis[ly(sc, b) * sc.roi.w + lx(sc, b)]);
        } else {
            assert(vis1[b]);
        }
    }
}

/// What the fill state says of the visited map.
proof fn lemma_fill_inv_facts(sc: Scene, k: int, v0: Seq<bool>, vis: Seq<bool>, st: Seq<(i32, i32)>, e: Set<int>)
    requires
        fill_inv(sc, k, v0, vis, st, e),
    ensures
        forall|q: int| 0 <= q < npix(sc) && #[trigger] v0[q] ==> vis[q],
        forall|q: int| 0 <= q < npix(sc) && hot(sc, q) && !connected(sc, k, q) ==> #[trigger] vis[q] == v0[q],
        forall|q: int| #[trigger] e.contains(q) ==> connected(sc, k, q) && vis[q],
        forall|q: int| #[trigger] connected(sc, k, q) ==> !v0[q] && (vis[q] ==> e.contains(q) || on_stack(sc, st, q)),
        vis.len() == v0.len(),
{
    reveal(fill_inv);
}

/// When the stack runs empty, the explored set is the seed's component.
proof fn lemma_fill_done(sc: Scene, k: int, v0: Seq<bool>, vis: Seq<bool>, st: Seq<(i32, i32)>, e: Set<int>)
    requires
        fill_inv(sc, k, v0, vis, st, e),
        st.len() == 0,
        frontier_visited(sc, e, vis),
        connected(sc, k, k),
        vis[k],
    ensures
        e =~= component(sc, k),
{
    reveal(frontier_visited);
    lemma_fill_inv_facts(sc, k, v0, vis, st, e);
    assert(closed_under_adjacency(sc, e)) by {
        assert forall|a: int, b: int| #[trigger] e.contains(a) && #[trigger] adjacent(sc, a, b) && hot(sc, b) implies e.contains(b) by {
            lemma_connected_step(sc, k, a, b);
            assert(vis[b]);
        }
    }
    assert(e.contains(k));
    assert forall|l: int| connected(sc, k, l) implies e.contains(l) by {
        lemma_closed_set_holds_component(sc, e, k, l);
    }
}

/// The bounding box and count found by a fill are the spec blob.
proof fn lemma_fill_blob(sc: Scene, k: int, e: Set<int>, min_x: int, max_x: int, min_y: int, max_y: int)
    requires
        e =~= component(sc, k),
        forall|q: int| #[trigger] e.contains(q) ==> min_x <= lx(sc, q) <= max_x && min_y <= ly(sc, q) <= max_y,
        exists|q: int| #[trigger] connected(sc, k, q) && lx(sc, q) == min_x,
        exists|q: int| #[trigger] connected(sc, k, q) && lx(sc, q) == max_x,
        exists|q: int| #[trigger] connected(sc, k, q) && ly(sc, q) == min_y,
        exists|q: int| #[trigger] connected(sc, k, q) && ly(sc, q) == max_y,
    ensures
        (choose|m: int| is_min_x(sc, k, m)) == min_x,
        (choose|m: int| is_max_x(sc, k, m)) == max_x,
        (choose|m: int| is_min_y(sc, k, m)) == min_y,
        (choose|m: int| is_max_y(sc, k, m)) == max_y,
{
    assert forall|l: int| #[trigger] connected(sc, k, l) implies min_x <= lx(sc, l) <= max_x && min_y <= ly(sc, l) <= max_y by {
        assert(e.contains(l));
    }
    assert(is_min_x(sc, k, min_x));
    assert(is_max_x(sc, k, max_x));
    assert(is_min_y(sc, k, min_y));
    assert(is_max_y(sc, k, max_y));
    lemma_box_unique(sc, k, min_x, choose|m: int| is_min_x(sc, k, m));
    lemma_box_unique(sc, k, max_x, choose|m: int| is_max_x(sc, k, m));
    lemma_box_unique(sc, k, min_y, choose|m: int| is_min_y(sc, k, m));
    lemma_box_unique(sc, k, max_y, choose|m: int| is_max_y(sc, k, m));
}

/// One step of the flood fill: take the top pixel off the stack and
/// visit its four neighbours, in the order right, left, down, up.
#[verifier::spinoff_prover]
fn fill_step(
    frame: &[u8],
    gray: &[u8],
    prev: &[u8],
    width: i32,
    roi: Roi,
    visited: &mut Vec<bool>,
    stack: &mut Vec<(i32, i32)>,
    Ghost(k): Ghost<int>,
    Ghost(v0): Ghost<Seq<bool>>,
    Ghost(e): Ghost<Set<int>>,
) -> (pt: (i32, i32))
    requires
        scene_fits(scene(frame@, gray@, prev@, width as int, roi)),
        roi.w > 0,
        fill_inv(scene(frame@, gray@, prev@, width as int, roi), k, v0, old(visited)@, old(stack)@, e),
        frontier_visited(scene(frame@, gray@, prev@, width as int, roi), e, old(visited)@),
        old(stack)@.len() > 0,
        old(visited)@.len() == npix(scene(frame@, gray@, prev@, width as int, roi)),
    ensures
        ({
            let sc = scene(frame@, gray@, prev@, width as int, roi);
            let p = pt.1 * roi.w + pt.0;
            &&& pt_in_roi(sc, pt)
            &&& connected(sc, k, p)
            &&& !e.contains(p)
            &&& e.insert(p).len() == e.len() + 1
            &&& e.insert(p).len() <= npix(sc)
            &&& fill_inv(sc, k, v0, final(visited)@, final(stack)@, e.insert(p))
            &&& frontier_visited(sc, e.insert(p), final(visited)@)
            &&& final(visited)@.len() == old(visited)@.len()
            &&& forall|q: int| 0 <= q < npix(sc) && #[trigger] old(visited)@[q] ==> final(visited)@[q]
        }),
{
    let ghost sc = scene(frame@, gray@, prev@, width as int, roi);
    let ghost st0 = stack@;
    proof {
        lemma_npix_bound(sc);
        lemma_fill_pop(sc, k, v0, visited@, st0, e);
    }
    let (cx, cy) = stack.pop().unwrap();
    let ghost p = lin_pt(sc, (cx, cy));
    let ghost e2 = e.insert(p);
    proof {
        assert(stack@ =~= st0.drop_last());
        lemma_lin(sc, cx as int, cy as int);
    }
    let ghost vis1 = visited@;
    try_push(frame, gray, prev, width, roi, visited, stack, cx + 1, cy, Ghost(k), Ghost(v0), Ghost(e2), Ghost(p));
    let ghost vis2 = visited@;
    try_push(frame, gray, prev, width, roi, visited, stack, cx - 1, cy, Ghost(k), Ghost(v0), Ghost(e2), Ghost(p));
    let ghost vis3 = visited@;
    try_push(frame, gray, prev, width, roi, visited, stack, cx, cy + 1, Ghost(k), Ghost(v0), Ghost(e2), Ghost(p));
    let ghost vis4 = visited@;
    try_push(frame, gray, prev, width, roi, visited, stack, cx, cy - 1, Ghost(k), Ghost(v0), Ghost(e2), Ghost(p));
    proof {
        lemma_fill_inv_facts(sc, k, v0, visited@, stack@, e2);
        assert forall|q: int| 0 <= q < npix(sc) && #[trigger] vis1[q] implies visited@[q] by {
            assert(vis2[q]);
            assert(vis3[q]);
            assert(vis4[q]);
        }
        assert forall|nx: int, ny: int| 0 <= nx < roi.w && 0 <= ny < roi.h && neighbour_coords(sc, p, nx, ny)
            implies #[trigger] visited@[ny * roi.w + nx] by {
            lemma_lin(sc, nx, ny);
            if nx == cx + 1 {
                assert(vis2[ny * roi.w + nx]);
                assert(vis3[ny * roi.w + nx]);
                assert(vis4[ny * roi.w + nx]);
            } else if nx == cx - 1 {
                assert(vis3[ny * roi.w + nx]);
                assert(vis4[ny * roi.w + nx]);
            } else if ny == cy + 1 {
                assert(vis4[ny * roi.w + nx]);
            }
        }
        lemma_frontier_extend(sc, e, p, vis1, visited@);
    }
    (cx, cy)
}

/// Flood-fill the component of hot region pixel `(xx, yy)`, none of whose
/// pixels is visited yet; marks the component visited and returns its blob.
#[verifier::spinoff_prover]
#[verifier::rlimit(40)]
fn fill_from(
    frame: &[u8],
    gray: &[u8],
    prev: &[u8],
    width: i32,
    roi: Roi,
    visited: &mut Vec<bool>,
    xx: i32,
    yy: i32,
) -> (b: Blob)
    requires
        scene_fits(scene(frame@, gray@, prev@, width as int, roi)),
        0 <= xx < roi.w,
        0 <= yy < roi.h,
        old(visited)@.len() == npix(scene(frame@, gray@, prev@, width as int, roi)),
        hot(scene(frame@, gray@, prev@, width as int, roi), yy * roi.w + xx),
        forall|q: int| #[trigger] connected(scene(frame@, gray@, prev@, width as int, roi), yy * roi.w + xx, q)
            ==> !old(visited)@[q],
    ensures
        ({
            let sc = scene(frame@, gray@, prev@, width as int, roi);
            let k = yy * roi.w + xx;
            &&& final(visited)@.len() == old(visited)@.len()
            &&& forall|q: int| 0 <= q < npix(sc) && #[trigger] old(visited)@[q] ==> final(visited)@[q]
            &&& forall|q: int| 0 <= q < npix(sc) && hot(sc, q) && !connected(sc, k, q)
                ==> #[trigger] final(visited)@[q] == old(visited)@[q]
            &&& forall|q: int| #[trigger] connected(sc, k, q) ==> final(visited)@[q]
            &&& b == spec_blob(sc, k)
            &&& 0 <= b.min_x <= b.max_x < roi.w
            &&& 0 <= b.min_y <= b.max_y < roi.h
        }),
{
    let ghost sc = scene(frame@, gray@, prev@, width as int, roi);
    let ghost k = yy * roi.w + xx;
    let ghost v0 = visited@;
    proof {
        lemma_npix_bound(sc);
        lemma_lin(sc, xx as int, yy as int);
        lemma_connected_refl(sc, k);
    }
    let ki = (yy * roi.w + xx) as usize;
    visited.set(ki, true);
    let mut stack: Vec<(i32, i32)> = Vec::new();
    stack.push((xx, yy));
    let mut min_x = xx;
    let mut max_x = xx;
    let mut min_y = yy;
    let mut max_y = yy;
    let mut count: i32 = 0;
    let ghost mut e: Set<int> = Set::empty();
    proof {
        lemma_fill_start(sc, k, v0, visited@, stack@);
    }
    while stack.len() > 0
        invariant
            scene_fits(sc),
            sc == scene(frame@, gray@, prev@, width as int, roi),
            roi.w > 0,
            0 <= k < npix(sc),
            npix(sc) * 4 <= i32::MAX,
            connected(sc, k, k),
            fill_inv(sc, k, v0, visited@, stack@, e),
            visited@.len() == npix(sc),
            visited@[k],
            frontier_visited(sc, e, visited@),
            count == e.len(),
            e.len() <= npix(sc),
            0 <= min_x <= max_x < roi.w,
            0 <= min_y <= max_y < roi.h,
            forall|q: int| #[trigger] e.contains(q) ==> min_x <= lx(sc, q) <= max_x && min_y <= ly(sc, q) <= max_y,
            exists|q: int| #[trigger] connected(sc, k, q) && lx(sc, q) == min_x,
            exists|q: int| #[trigger] connected(sc, k, q) && lx(sc, q) == max_x,
            exists|q: int| #[trigger] connected(sc, k, q) && ly(sc, q) == min_y,
            exists|q: int| #[trigger] connected(sc, k, q) && ly(sc, q) == max_y,
        decreases npix(sc) - e.len(),
    {
        let (cx, cy) = fill_step(frame, gray, prev, width, roi, visited, &mut stack, Ghost(k), Ghost(v0), Ghost(e));
        let ghost p = cy * roi.w + cx;
        proof {
            lemma_lin(sc, cx as int, cy as int);
            e = e.insert(p);
        }
        count = count + 1;
        if cx < min_x { min_x = cx; }
        if cx > max_x { max_x = cx; }
        if cy < min_y { min_y = cy; }
        if cy > max_y { max_y = cy; }
    }
    proof {
        lemma_fill_done(sc, k, v0, visited@, stack@, e);
        lemma_fill_inv_facts(sc, k, v0, visited@, stack@, e);
        assert forall|q: int| #[trigger] connected(sc, k, q) implies visited@[q] by {
            assert(component(sc, k).contains(q));
            assert(e.contains(q));
        }
        lemma_fill_blob(sc, k, e, min_x as int, max_x as int, min_y as int, max_y as int);
    }
    Blob { min_x, min_y, max_x, max_y, count }
}


// ---------------------------------------------------------------------
// Scanning the region

/// Whether a blob has the size of a boot (see `blob_passes`).
pub fn blob_is_boot_sized(b: &Blob, max_w: i32, max_h: i32) -> (ok: bool)
    requires
        i32::MIN < b.max_x - b.min_x + 1 <= i32::MAX,
        i32::MIN < b.max_y - b.min_y + 1 <= i32::MAX,
    ensures
        ok == blob_passes(*b, max_w as int, max_h as int),
        ok == (b.count >= 35 && b.max_x - b.min_x + 1 >= 8 && b.max_y - b.min_y + 1 >= 8
            && b.max_x - b.min_x + 1 <= max_w && b.max_y - b.min_y + 1 <= max_h),
{
    let w = b.max_x - b.min_x + 1;
    let h = b.max_y - b.min_y + 1;
    !(b.count < 35 || w < 8 || h < 8 || w > max_w || h > max_h)
}

/// Whether a blob's box lies inside a region of the given size.
pub open spec fn blob_in_region(roi: Roi, b: Blob) -> bool {
    0 <= b.min_x <= b.max_x < roi.w && 0 <= b.min_y <= b.max_y < roi.h
}

/// State of the row-major scan before region pixel `k`.
#[verifier::opaque]
pub open spec fn scan_inv(sc: Scene, vis: Seq<bool>, blobs: Seq<Blob>, max_w: int, max_h: int, k: int) -> bool {
    &&& vis.len() == npix(sc)
    &&& forall|j: int| 0 <= j < k ==> #[trigger] vis[j]
    &&& forall|j: int, q: int| vis[j] && #[trigger] connected(sc, j, q) ==> vis[q]
    &&& forall|j: int| 0 <= j < npix(sc) && #[trigger] vis[j] && hot(sc, j) ==> exists|i: int| 0 <= i < k && #[trigger] connected(sc, j, i)
    &&& blobs == blobs_upto(sc, max_w, max_h, k)
}


/// An unvisited hot pixel met by the scan is the seed of its component,
/// and no pixel of that component is visited yet.
proof fn lemma_scan_seed(sc: Scene, vis: Seq<bool>, blobs: Seq<Blob>, max_w: int, max_h: int, k: int)
    requires
        scan_inv(sc, vis, blobs, max_w, max_h, k),
        0 <= k < npix(sc),
        !vis[k],
        hot(sc, k),
    ensures
        is_seed(sc, k),
        forall|q: int| #[trigger] connected(sc, k, q) ==> !vis[q],
{
    reveal(scan_inv);
    assert forall|q: int| #[trigger] connected(sc, k, q) implies !vis[q] && k <= q by {
        lemma_connected_hot(sc, k, q);
        lemma_connected_symmetric(sc, k, q);
        if vis[q] {
            assert(connected(sc, q, k));
            assert(vis[k]);
        }
        if q < k {
            assert(vis[q]);
        }
    }
}

/// The scan state after filling the component of seed `k`.
proof fn lemma_scan_after_fill(
    sc: Scene,
    vis: Seq<bool>,
    vis2: Seq<bool>,
    blobs: Seq<Blob>,
    blobs2: Seq<Blob>,
    max_w: int,
    max_h: int,
    k: int,
)
    requires
        scan_inv(sc, vis, blobs, max_w, max_h, k),
        0 <= k < npix(sc),
        is_seed(sc, k),
        vis2.len() == vis.len(),
        forall|q: int| 0 <= q < npix(sc) && #[trigger] vis[q] ==> vis2[q],
        forall|q: int| 0 <= q < npix(sc) && hot(sc, q) && !connected(sc, k, q) ==> #[trigger] vis2[q] == vis[q],
        forall|q: int| #[trigger] connected(sc, k, q) ==> vis2[q],
        blobs2 == (if blob_passes(spec_blob(sc, k), max_w, max_h) { blobs.push(spec_blob(sc, k)) } else { blobs }),
    ensures
        scan_inv(sc, vis2, blobs2, max_w, max_h, k + 1),
{
    reveal(scan_inv);
    lemma_connected_refl(sc, k);
    assert forall|j: int| 0 <= j < k + 1 implies #[trigger] vis2[j] by {
        if j < k {
            assert(vis[j]);
        }
    }
    assert forall|j: int, q: int| vis2[j] && #[trigger] connected(sc, j, q) implies vis2[q] by {
        lemma_connected_hot(sc, j, q);
        if vis[j] {
            assert(vis[q]);
        } else {
            if !connected(sc, k, j) {
                assert(vis2[j] == vis[j]);
            }
            lemma_connected_transitive(sc, k, j, q);
        }
    }
    assert forall|j: int| 0 <= j < npix(sc) && #[trigger] vis2[j] && hot(sc, j)
        implies exists|i: int| 0 <= i < k + 1 && #[trigger] connected(sc, j, i) by {
        if vis[j] {
            let i = choose|i: int| 0 <= i < k && #[trigger] connected(sc, j, i);
            assert(connected(sc, j, i));
        } else {
            if !connected(sc, k, j) {
                assert(vis2[j] == vis[j]);
            }
            lemma_connected_symmetric(sc, k, j);
            assert(connected(sc, j, k));
        }
    }
}

/// The scan state after marking a cold pixel `k` visited.
proof fn lemma_scan_cold(sc: Scene, vis: Seq<bool>, blobs: Seq<Blob>, max_w: int, max_h: int, k: int)
    requires
        scan_inv(sc, vis, blobs, max_w, max_h, k),
        0 <= k < npix(sc),
        !hot(sc, k),
    ensures
        scan_inv(sc, vis.update(k, true), blobs, max_w, max_h, k + 1),
{
    reveal(scan_inv);
    let vis2 = vis.update(k, true);
    assert forall|j: int| 0 <= j < k + 1 implies #[trigger] vis2[j] by {
        if j < k {
            assert(vis[j]);
        }
    }
    assert forall|j: int, q: int| vis2[j] && #[trigger] connected(sc, j, q) implies vis2[q] by {
        lemma_connected_hot(sc, j, q);
        assert(j != k);
        assert(vis[j]);
        assert(vis[q]);
    }
    assert forall|j: int| 0 <= j < npix(sc) && #[trigger] vis2[j] && hot(sc, j)
        implies exists|i: int| 0 <= i < k + 1 && #[trigger] connected(sc, j, i) by {
        assert(j != k);
        assert(vis[j]);
        let i = choose|i: int| 0 <= i < k && #[trigger] connected(sc, j, i);
        assert(connected(sc, j, i));
    }
}

/// The scan state after passing an already visited pixel `k`.
proof fn lemma_scan_visited(sc: Scene, vis: Seq<bool>, blobs: Seq<Blob>, max_w: int, max_h: int, k: int)
    requires
        scan_inv(sc, vis, blobs, max_w, max_h, k),
        0 <= k < npix(sc),
        vis[k],
    ensures
        scan_inv(sc, vis, blobs, max_w, max_h, k + 1),
{
    reveal(scan_inv);
    assert forall|j: int| 0 <= j < k + 1 implies #[trigger] vis[j] by {}
    assert forall|j: int| 0 <= j < npix(sc) && #[trigger] vis[j] && hot(sc, j)
        implies exists|i: int| 0 <= i < k + 1 && #[trigger] connected(sc, j, i) by {
        let i = choose|i: int| 0 <= i < k && #[trigger] connected(sc, j, i);
        assert(connected(sc, j, i));
    }
    if hot(sc, k) {
        let i = choose|i: int| 0 <= i < k && #[trigger] connected(sc, k, i);
        assert(!is_seed(sc, k));
    }
}

/// Scan region pixel `(xx, yy)`: start a fill from it when it is an
/// unvisited hot pixel, keeping the blob when it is boot sized.
fn scan_pixel(
    frame: &[u8],
    gray: &[u8],
    prev: &[u8],
    width: i32,
    roi: Roi,
    visited: &mut Vec<bool>,
    blobs: &mut Vec<Blob>,
    xx: i32,
    yy: i32,
    max_w: i32,
    max_h: i32,
)
    requires
        scene_fits(scene(frame@, gray@, prev@, width as int, roi)),
        0 <= xx < roi.w,
        0 <= yy < roi.h,
        scan_inv(scene(frame@, gray@, prev@, width as int, roi), old(visited)@, old(blobs)@, max_w as int, max_h as int,
            yy * roi.w + xx),
        forall|i: int| 0 <= i < old(blobs)@.len() ==> blob_in_region(roi, #[trigger] old(blobs)@[i])
            && blob_passes(old(blobs)@[i], max_w as int, max_h as int),
    ensures
        scan_inv(scene(frame@, gray@, prev@, width as int, roi), final(visited)@, final(blobs)@, max_w as int, max_h as int,
            yy * roi.w + xx + 1),
        forall|i: int| 0 <= i < final(blobs)@.len() ==> blob_in_region(roi, #[trigger] final(blobs)@[i])
            && blob_passes(final(blobs)@[i], max_w as int, max_h as int),
{
    let ghost sc = scene(frame@, gray@, prev@, width as int, roi);
    let ghost k = yy * roi.w + xx;
    proof {
        reveal(scan_inv);
        lemma_npix_bound(sc);
        lemma_lin(sc, xx as int, yy as int);
    }
    let li = (yy * roi.w + xx) as usize;
    if visited[li] {
        proof {
            lemma_scan_visited(sc, visited@, blobs@, max_w as int, max_h as int, k);
        }
        return;
    }
    if is_hot(frame, gray, prev, width, roi, xx, yy) {
        proof {
            lemma_scan_seed(sc, visited@, blobs@, max_w as int, max_h as int, k);
        }
        let ghost vis0 = visited@;
        let ghost blobs0 = blobs@;
        let b = fill_from(frame, gray, prev, width, roi, visited, xx, yy);
        if blob_is_boot_sized(&b, max_w, max_h) {
            blobs.push(b);
            proof {
                assert forall|i: int| 0 <= i < blobs@.len() implies blob_in_region(roi, #[trigger] blobs@[i])
                    && blob_passes(blobs@[i], max_w as int, max_h as int) by {
                    if i < blobs0.len() {
                        assert(blobs@[i] == blobs0[i]);
                    }
                }
            }
        }
        proof {
            lemma_scan_after_fill(sc, vis0, visited@, blobs0, blobs@, max_w as int, max_h as int, k);
        }
    } else {
        proof {
            lemma_scan_cold(sc, visited@, blobs@, max_w as int, max_h as int, k);
        }
        visited.set(li, true);
    }
}

/// The boot-sized blobs of moving, boot-coloured pixels in `roi`, in the
/// order a row-major scan of the region meets them. A pixel moves when
/// its luma in `gray` differs from `prev` by at least 18; blobs are
/// 4-connected; a blob is boot sized when it has at least 35 pixels and a
/// box at least 8 pixels wide and high, and no wider than `max_w` nor
/// higher than `max_h`. Box coordinates are relative to the region.
pub fn motion_blobs(
    frame: &[u8],
    gray: &[u8],
    prev: &[u8],
    width: i32,
    roi: Roi,
    max_w: i32,
    max_h: i32,
) -> (blobs: Vec<Blob>)
    requires
        scene_fits(scene(frame@, gray@, prev@, width as int, roi)),
    ensures
        ({
            let sc = scene(frame@, gray@, prev@, width as int, roi);
            blobs@ == blobs_upto(sc, max_w as int, max_h as int, npix(sc))
        }),
        forall|i: int| 0 <= i < blobs@.len() ==> blob_in_region(roi, #[trigger] blobs@[i])
            && blob_passes(blobs@[i], max_w as int, max_h as int),
        blobs@.len() > 0 ==> roi.x + roi.w <= i32::MAX && roi.y + roi.h <= i32::MAX,
        forall|i: int| 0 <= i < blobs@.len() ==> {
            let b = #[trigger] blobs@[i];
            &&& b.count >= 35
            &&& b.max_x - b.min_x + 1 >= 8
            &&& b.max_y - b.min_y + 1 >= 8
            &&& b.max_x - b.min_x + 1 <= max_w
            &&& b.max_y - b.min_y + 1 <= max_h
        },
{
    let ghost sc = scene(frame@, gray@, prev@, width as int, roi);
    proof {
        lemma_npix_bound(sc);
    }
    let n = roi.w * roi.h;
    let mut visited: Vec<bool> = vec![false; n as usize];
    let mut blobs: Vec<Blob> = Vec::new();
    proof {
        reveal(scan_inv);
        assert forall|j: int, q: int| visited@[j] && #[trigger] connected(sc, j, q) implies visited@[q] by {
            lemma_connected_hot(sc, j, q);
        }
        assert(scan_inv(sc, visited@, blobs@, max_w as int, max_h as int, 0));
    }
    let mut yy: i32 = 0;
    while yy < roi.h
        invariant
            sc == scene(frame@, gray@, prev@, width as int, roi),
            scene_fits(sc),
            0 <= yy <= roi.h,
            scan_inv(sc, visited@, blobs@, max_w as int, max_h as int, yy * roi.w),
            forall|i: int| 0 <= i < blobs@.len() ==> blob_in_region(roi, #[trigger] blobs@[i])
                && blob_passes(blobs@[i], max_w as int, max_h as int),
        decreases roi.h - yy,
    {
        let mut xx: i32 = 0;
        while xx < roi.w
            invariant
                sc == scene(frame@, gray@, prev@, width as int, roi),
                scene_fits(sc),
                0 <= yy < roi.h,
                0 <= xx <= roi.w,
                scan_inv(sc, visited@, blobs@, max_w as int, max_h as int, yy * roi.w + xx),
                forall|i: int| 0 <= i < blobs@.len() ==> blob_in_region(roi, #[trigger] blobs@[i])
                    && blob_passes(blobs@[i], max_w as int, max_h as int),
            decreases roi.w - xx,
        {
            scan_pixel(frame, gray, prev, width, roi, &mut visited, &mut blobs, xx, yy, max_w, max_h);
            xx = xx + 1;
        }
        assert((yy + 1) * roi.w == yy * roi.w + roi.w) by (nonlinear_arith);
        yy = yy + 1;
    }
    proof {
        reveal(scan_inv);
        assert(roi.h * roi.w == npix(sc)) by (nonlinear_arith) requires npix(sc) == roi.w * roi.h;
        if blobs@.len() > 0 {
            assert(blob_in_region(roi, blobs@[0]));
            let rows = roi.y + roi.h;
            assert(rows <= rows * width) by (nonlinear_arith)
                requires width >= 1, rows >= 0;
        }
    }
    blobs
}


/// Frame position of a blob's centre: the middle of its box, rounded
/// toward the top-left.
pub fn blob_center(roi: Roi, b: &Blob) -> (c: (i32, i32))
    requires
        blob_in_region(roi, *b),
        roi.x + roi.w <= i32::MAX,
        roi.y + roi.h <= i32::MAX,
        roi.x >= 0,
        roi.y >= 0,
    ensures
        c.0 == roi.x + (b.min_x + b.max_x) / 2,
        c.1 == roi.y + (b.min_y + b.max_y) / 2,
{
    let cx = b.min_x + (b.max_x - b.min_x) / 2;
    let cy = b.min_y + (b.max_y - b.min_y) / 2;
    (roi.x + cx, roi.y + cy)
}

/// A blob's bounding box in frame coordinates.
pub fn blob_box(roi: Roi, b: &Blob) -> (r: Roi)
    requires
        blob_in_region(roi, *b),
        roi.x + roi.w <= i32::MAX,
        roi.y + roi.h <= i32::MAX,
        roi.x >= 0,
        roi.y >= 0,
    ensures
        r == (Roi { x: (roi.x + b.min_x) as i32, y: (roi.y + b.min_y) as i32,
            w: (b.max_x - b.min_x + 1) as i32, h: (b.max_y - b.min_y + 1) as i32 }),
{
    Roi { x: roi.x + b.min_x, y: roi.y + b.min_y, w: b.max_x - b.min_x + 1, h: b.max_y - b.min_y + 1 }
}

/// Every blob the scan reports is boot sized: at least 35 pixels, a box
/// at least 8 pixels wide and 8 high, no wider than `max_w` and no higher
/// than `max_h`. A component whose box is lower or narrower than 8 pixels
/// is never reported.
pub proof fn lemma_blobs_boot_sized(sc: Scene, max_w: int, max_h: int, k: int)
    ensures
        forall|i: int| 0 <= i < blobs_upto(sc, max_w, max_h, k).len() ==> {
            let b = #[trigger] blobs_upto(sc, max_w, max_h, k)[i];
            &&& b.count >= 35
            &&& b.max_x - b.min_x + 1 >= 8
            &&& b.max_y - b.min_y + 1 >= 8
            &&& b.max_x - b.min_x + 1 <= max_w
            &&& b.max_y - b.min_y + 1 <= max_h
        },
        blobs_upto(sc, max_w, max_h, k).len() <= if k <= 0 { 0 } else { k },
    decreases k,
{
    if k > 0 {
        lemma_blobs_boot_sized(sc, max_w, max_h, k - 1);
        let prev = blobs_upto(sc, max_w, max_h, k - 1);
        assert forall|i: int| 0 <= i < blobs_upto(sc, max_w, max_h, k).len()
            implies {
            let b = #[trigger] blobs_upto(sc, max_w, max_h, k)[i];
            &&& b.count >= 35
            &&& b.max_x - b.min_x + 1 >= 8
            &&& b.max_y - b.min_y + 1 >= 8
            &&& b.max_x - b.min_x + 1 <= max_w
            &&& b.max_y - b.min_y + 1 <= max_h
        } by {
            if i < prev.len() {
                assert(blobs_upto(sc, max_w, max_h, k)[i] == prev[i]);
            }
        }
    }
}

/// Distinct seeds have disjoint components: no pixel is counted in two
/// blobs.
pub proof fn lemma_seed_components_disjoint(sc: Scene, s1: int, s2: int, l: int)
    requires
        is_seed(sc, s1),
        is_seed(sc, s2),
        s1 != s2,
    ensures
        !(connected(sc, s1, l) && connected(sc, s2, l)),
{
    if connected(sc, s1, l) && connected(sc, s2, l) {
        lemma_connected_symmetric(sc, s2, l);
        lemma_connected_transitive(sc, s1, l, s2);
        lemma_connected_symmetric(sc, s1, s2);
        assert(s1 <= s2);
        assert(s2 <= s1);
    }
}


/// Blobs are 4-connected: two adjacent pixels differ by one step in
/// exactly one of column and row, never diagonally.
pub proof fn lemma_adjacent_is_one_step(sc: Scene, a: int, b: int)
    requires
        adjacent(sc, a, b),
    ensures
        ({
            let dx = lx(sc, a) - lx(sc, b);
            let dy = ly(sc, a) - ly(sc, b);
            (if dx >= 0 { dx } else { -dx }) + (if dy >= 0 { dy } else { -dy }) == 1
        }),
{
}

/// A pixel joins a blob only if it lies in the region, its luma changed
/// by at least 18 since the previous frame, and it passes the boot-colour
/// test (whose saturation and value bounds `color::lemma_boot_color_needs_saturation`
/// states).
pub proof fn lemma_hot_pixel(sc: Scene, l: int)
    requires
        hot(sc, l),
    ensures
        ({
            let ax = sc.roi.x + l % (sc.roi.w as int);
            let ay = sc.roi.y + l / (sc.roi.w as int);
            let gi = ay * sc.width + ax;
            &&& 0 <= l < sc.roi.w * sc.roi.h
            &&& sc.gray[gi] as int - sc.prev[gi] as int >= 18 || sc.prev[gi] as int - sc.gray[gi] as int >= 18
            &&& spec_boot_color(sc.frame, sc.width, ax, ay)
        }),
{
    reveal(hot);
}

/// Scanning further only appends blobs: the blobs found before pixel
/// `j` come first, in the same order, among those found before `k >= j`.
pub proof fn lemma_blobs_upto_prefix(sc: Scene, max_w: int, max_h: int, j: int, k: int)
    requires
        j <= k,
    ensures
        blobs_upto(sc, max_w, max_h, j).len() <= blobs_upto(sc, max_w, max_h, k).len(),
        forall|i: int| 0 <= i < blobs_upto(sc, max_w, max_h, j).len()
            ==> #[trigger] blobs_upto(sc, max_w, max_h, j)[i] == blobs_upto(sc, max_w, max_h, k)[i],
    decreases k - j,
{
    if j < k {
        lemma_blobs_upto_prefix(sc, max_w, max_h, j, k - 1);
        if k > 0 {
            let prev = blobs_upto(sc, max_w, max_h, k - 1);
            assert forall|i: int| 0 <= i < prev.len() implies #[trigger] prev[i] == blobs_upto(sc, max_w, max_h, k)[i] by {}
        }
    }
}

} // verus!
