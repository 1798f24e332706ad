use vstd::prelude::*;

use crate::grid_position::GridPosition;
use crate::line::{
    abs, frame_endpoints, is_steep, lemma_minor_bounds, lemma_minor_step, line_covers,
    line_covers_upto, line_len, line_point, major_frame, minor_offset, point_index,
};

verus! {

/// The screen point of a grid position.
pub open spec fn xy(p: GridPosition) -> (int, int) {
    (p.x as int, p.y as int)
}

pub open spec fn max(u: int, v: int) -> int {
    if u < v {
        v
    } else {
        u
    }
}

pub open spec fn min(u: int, v: int) -> int {
    if u < v {
        u
    } else {
        v
    }
}

/// Twice the signed area of the triangle `a`, `b`, `p`: zero exactly when `p`
/// lies on the straight line through `a` and `b`.
pub open spec fn cross(a: (int, int), b: (int, int), p: (int, int)) -> int {
    (p.0 - a.0) * (b.1 - a.1) - (p.1 - a.1) * (b.0 - a.0)
}

proof fn lemma_frame_facts(a: GridPosition, b: GridPosition)
    ensures
        ({
            let (s, e) = frame_endpoints(a, b);
            &&& s.0 <= e.0
            &&& abs(e.1 - s.1) <= e.0 - s.0
            &&& e.0 - s.0 == max(abs(a.x - b.x), abs(a.y - b.y))
            &&& (s == major_frame(a, is_steep(a, b)) && e == major_frame(b, is_steep(a, b)))
                || (s == major_frame(b, is_steep(a, b)) && e == major_frame(a, is_steep(a, b)))
        }),
{
}

/// The segment from `b` to `a` is drawn with exactly the pixels, in the same
/// order, of the segment from `a` to `b`.
pub proof fn lemma_line_symmetric(a: GridPosition, b: GridPosition)
    ensures
        line_len(a, b) == line_len(b, a),
        forall|k: int| #[trigger] line_point(a, b, k) == line_point(b, a, k),
        forall|width: int, i: int| #[trigger]
            line_covers(a, b, width, i) == line_covers(b, a, width, i),
{
    assert(is_steep(a, b) == is_steep(b, a));
    assert(frame_endpoints(a, b) == frame_endpoints(b, a));
    assert forall|width: int, i: int| #[trigger]
        line_covers(a, b, width, i) == line_covers(b, a, width, i) by {
        if line_covers(a, b, width, i) {
            let k = choose|k: int|
                0 <= k < line_len(a, b) && #[trigger] point_index(line_point(a, b, k), width) == i;
            assert(point_index(line_point(b, a, k), width) == i);
        }
        if line_covers(b, a, width, i) {
            let k = choose|k: int|
                0 <= k < line_len(b, a) && #[trigger] point_index(line_point(b, a, k), width) == i;
            assert(point_index(line_point(a, b, k), width) == i);
        }
    }
}

/// The segment has one pixel per step along its longer axis, begins at one
/// endpoint and ends at the other.
pub proof fn lemma_line_endpoints(a: GridPosition, b: GridPosition)
    ensures
        line_len(a, b) == max(abs(a.x - b.x), abs(a.y - b.y)) + 1,
        (line_point(a, b, 0) == xy(a) && line_point(a, b, line_len(a, b) - 1) == xy(b)) || (
        line_point(a, b, 0) == xy(b) && line_point(a, b, line_len(a, b) - 1) == xy(a)),
{
    lemma_frame_facts(a, b);
    let (s, e) = frame_endpoints(a, b);
    let run = e.0 - s.0;
    let rise = abs(e.1 - s.1);
    lemma_minor_bounds(0, run, rise);
    lemma_minor_bounds(run, run, rise);
}

/// Both endpoints of a segment are among the buffer indices it covers.
pub proof fn lemma_line_covers_endpoints(a: GridPosition, b: GridPosition, width: int)
    ensures
        line_covers(a, b, width, point_index(xy(a), width)),
        line_covers(a, b, width, point_index(xy(b), width)),
{
    lemma_line_endpoints(a, b);
    let n = line_len(a, b);
    assert(point_index(line_point(a, b, 0), width) == point_index(line_point(a, b, 0), width));
    assert(point_index(line_point(a, b, n - 1), width) == point_index(line_point(a, b, n - 1), width));
}

/// Consecutive pixels of the segment touch: they are one step apart along the
/// major axis and at most one step apart along the other.
pub proof fn lemma_line_connected(a: GridPosition, b: GridPosition, k: int)
    requires
        0 <= k,
        k + 1 < line_len(a, b),
    ensures
        max(
            abs(line_point(a, b, k + 1).0 - line_point(a, b, k).0),
            abs(line_point(a, b, k + 1).1 - line_point(a, b, k).1),
        ) == 1,
{
    lemma_frame_facts(a, b);
    let (s, e) = frame_endpoints(a, b);
    let run = e.0 - s.0;
    let rise = abs(e.1 - s.1);
    lemma_minor_step(k, run, rise);
}

/// Distinct steps give distinct pixels.
pub proof fn lemma_line_points_distinct(a: GridPosition, b: GridPosition, k1: int, k2: int)
    requires
        k1 != k2,
    ensures
        line_point(a, b, k1) != line_point(a, b, k2),
{
}

/// Every pixel of the segment lies in the bounding box of its endpoints.
pub proof fn lemma_line_in_box(a: GridPosition, b: GridPosition, k: int)
    requires
        0 <= k < line_len(a, b),
    ensures
        min(a.x as int, b.x as int) <= line_point(a, b, k).0 <= max(a.x as int, b.x as int),
        min(a.y as int, b.y as int) <= line_point(a, b, k).1 <= max(a.y as int, b.y as int),
{
    lemma_frame_facts(a, b);
    let (s, e) = frame_endpoints(a, b);
    let run = e.0 - s.0;
    let rise = abs(e.1 - s.1);
    lemma_minor_bounds(k, run, rise);
}

/// Exchanging the endpoints, or the axes, changes only the sign of the cross product.
proof fn lemma_cross_swap(a: (int, int), b: (int, int), p: (int, int))
    ensures
        cross(a, b, p) == -cross(b, a, p),
        cross((a.1, a.0), (b.1, b.0), (p.1, p.0)) == -cross(a, b, p),
{
    assert(cross(a, b, p) == -cross(b, a, p)) by (nonlinear_arith);
    assert(cross((a.1, a.0), (b.1, b.0), (p.1, p.0)) == -cross(a, b, p)) by (nonlinear_arith);
}

/// Every pixel of the segment is the nearest one to the exact segment across
/// its major axis: its distance from the straight line through `a` and `b`,
/// measured along the minor axis, is at most half a pixel.
pub proof fn lemma_line_near_segment(a: GridPosition, b: GridPosition, k: int)
    requires
        0 <= k < line_len(a, b),
    ensures
        2 * abs(cross(xy(a), xy(b), line_point(a, b, k))) <= max(abs(a.x - b.x), abs(a.y - b.y)),
{
    lemma_frame_facts(a, b);
    let (s, e) = frame_endpoints(a, b);
    let run = e.0 - s.0;
    let rise = abs(e.1 - s.1);
    let m = minor_offset(k, run, rise);
    let steep = is_steep(a, b);
    let p = line_point(a, b, k);
    let q = major_frame_point(p, steep);
    if run > 0 {
        lemma_minor_step(k, run, rise);
    } else {
        lemma_minor_bounds(k, run, rise);
    }
    // In the major-axis frame the cross product is `±(k * rise - m * run)`.
    let c = cross(s, e, q);
    assert(q == (s.0 + k, if e.1 > s.1 { s.1 + m } else { s.1 - m }));
    let t = k * rise - m * run;
    assert(2 * rise * k - 2 * run * m == 2 * t) by (nonlinear_arith)
        requires
            t == k * rise - m * run,
    ;
    if e.1 > s.1 {
        assert(c == t) by (nonlinear_arith)
            requires
                c == (q.0 - s.0) * (e.1 - s.1) - (q.1 - s.1) * (e.0 - s.0),
                q.0 - s.0 == k,
                q.1 - s.1 == m,
                e.1 - s.1 == rise,
                e.0 - s.0 == run,
                t == k * rise - m * run,
        ;
    } else {
        assert(c == -t) by (nonlinear_arith)
            requires
                c == (q.0 - s.0) * (e.1 - s.1) - (q.1 - s.1) * (e.0 - s.0),
                q.0 - s.0 == k,
                q.1 - s.1 == -m,
                e.1 - s.1 == -rise,
                e.0 - s.0 == run,
                t == k * rise - m * run,
        ;
    }
    if run == 0 {
        assert(t == 0);
    }
    assert(2 * abs(c) <= run);
    // Back to the screen frame: swapping endpoints or axes only flips the sign.
    let pa = major_frame(a, steep);
    let pb = major_frame(b, steep);
    lemma_cross_swap(pa, pb, q);
    lemma_cross_swap(xy(a), xy(b), p);
    assert(abs(cross(pa, pb, q)) == abs(c)) by {
        lemma_cross_swap(s, e, q);
    }
    if steep {
        assert(pa == (xy(a).1, xy(a).0));
        assert(pb == (xy(b).1, xy(b).0));
        assert(q == (p.1, p.0));
    } else {
        assert(pa == xy(a));
        assert(pb == xy(b));
        assert(q == p);
    }
}

/// A screen point expressed in the major-axis frame.
pub open spec fn major_frame_point(p: (int, int), steep: bool) -> (int, int) {
    if steep {
        (p.1, p.0)
    } else {
        p
    }
}

} // verus!
