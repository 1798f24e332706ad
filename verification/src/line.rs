use vstd::prelude::*;

use crate::batteries::Pixel;
use crate::grid_position::{pixel_index, GridPosition};

verus! {

pub open spec fn abs(v: int) -> int {
    if v < 0 {
        -v
    } else {
        v
    }
}

/// A segment is steep when it rises more than it runs; it is then drawn along `y`.
pub open spec fn is_steep(a: GridPosition, b: GridPosition) -> bool {
    abs(a.x - b.x) < abs(a.y - b.y)
}

/// The position `p` in the frame whose first axis is the segment's major axis.
pub open spec fn major_frame(p: GridPosition, steep: bool) -> (int, int) {
    if steep {
        (p.y as int, p.x as int)
    } else {
        (p.x as int, p.y as int)
    }
}

/// Both endpoints in the major-axis frame, the one with the smaller major
/// coordinate first (the first argument first on a tie).
pub open spec fn frame_endpoints(a: GridPosition, b: GridPosition) -> ((int, int), (int, int)) {
    let steep = is_steep(a, b);
    let pa = major_frame(a, steep);
    let pb = major_frame(b, steep);
    if pa.0 > pb.0 {
        (pb, pa)
    } else {
        (pa, pb)
    }
}

/// `rise * k / run` rounded to the nearest integer, halves rounded down
/// (0 for a segment of no run).
pub open spec fn minor_offset(k: int, run: int, rise: int) -> int {
    if run == 0 {
        0
    } else {
        (2 * rise * k + run - 1) / (2 * run)
    }
}

/// The number of pixels drawn for the segment from `a` to `b`.
pub open spec fn line_len(a: GridPosition, b: GridPosition) -> int {
    let (s, e) = frame_endpoints(a, b);
    e.0 - s.0 + 1
}

/// The `k`-th pixel `(x, y)` of the segment from `a` to `b`: one pixel for each
/// step along the major axis, and on the minor axis the pixel nearest to the
/// exact segment.
pub open spec fn line_point(a: GridPosition, b: GridPosition, k: int) -> (int, int) {
    let (s, e) = frame_endpoints(a, b);
    let run = e.0 - s.0;
    let rise = abs(e.1 - s.1);
    let u = s.0 + k;
    let v = if e.1 > s.1 {
        s.1 + minor_offset(k, run, rise)
    } else {
        s.1 - minor_offset(k, run, rise)
    };
    if is_steep(a, b) {
        (v, u)
    } else {
        (u, v)
    }
}

/// Buffer index of the pixel `p` in a buffer `width` pixels wide.
pub open spec fn point_index(p: (int, int), width: int) -> int {
    pixel_index(p.0, p.1, width)
}

/// One of the first `n` pixels of the segment lands on buffer index `i`.
pub open spec fn line_covers_upto(a: GridPosition, b: GridPosition, width: int, i: int, n: int) -> bool {
    exists|k: int| 0 <= k < n && #[trigger] point_index(line_point(a, b, k), width) == i
}

/// Some pixel of the segment lands on buffer index `i`.
pub open spec fn line_covers(a: GridPosition, b: GridPosition, width: int, i: int) -> bool {
    line_covers_upto(a, b, width, i, line_len(a, b))
}

/// Every pixel of the segment lands inside a buffer of `len` pixels.
pub open spec fn line_fits(a: GridPosition, b: GridPosition, width: int, len: int) -> bool {
    forall|k: int| 0 <= k < line_len(a, b) ==> #[trigger] point_index(line_point(a, b, k), width) < len
}

/// Floor division characterised by its bounds.
proof fn lemma_div_by_bounds(n: int, d: int, q: int)
    requires
        d > 0,
        d * q <= n < d * q + d,
    ensures
        n / d == q,
{
    assert(n == q * d + (n - d * q)) by (nonlinear_arith);
    vstd::arithmetic::div_mod::lemma_fundamental_div_mod_converse(n, d, q, n - d * q);
}

/// The error term of the incremental algorithm stays in `(-run, run]`, and
/// one more step raises the minor offset exactly when the error would pass `run`.
pub(crate) proof fn lemma_minor_step(k: int, run: int, rise: int)
    requires
        run > 0,
        0 <= rise <= run,
        k >= 0,
    ensures
        -run < 2 * rise * k - 2 * run * minor_offset(k, run, rise) <= run,
        minor_offset(k + 1, run, rise) == if 2 * rise * k - 2 * run * minor_offset(k, run, rise)
            + 2 * rise > run {
            minor_offset(k, run, rise) + 1
        } else {
            minor_offset(k, run, rise)
        },
{
    let n = 2 * rise * k + run - 1;
    let d = 2 * run;
    let q = n / d;
    vstd::arithmetic::div_mod::lemma_fundamental_div_mod(n, d);
    vstd::arithmetic::div_mod::lemma_mod_bound(n, d);
    assert(d * q <= n < d * q + d) by (nonlinear_arith)
        requires
            d > 0,
            n == d * (n / d) + n % d,
            0 <= n % d < d,
            q == n / d,
    ;
    let e = 2 * rise * k - 2 * run * q;
    assert(2 * rise * (k + 1) + run - 1 == n + 2 * rise) by (nonlinear_arith)
        requires
            n == 2 * rise * k + run - 1,
    ;
    if e + 2 * rise > run {
        assert(d * (q + 1) <= n + 2 * rise < d * (q + 1) + d) by (nonlinear_arith)
            requires
                d == 2 * run,
                e == 2 * rise * k - 2 * run * q,
                n == 2 * rise * k + run - 1,
                d * q <= n < d * q + d,
                e + 2 * rise > run,
                rise <= run,
        ;
        lemma_div_by_bounds(n + 2 * rise, d, q + 1);
    } else {
        assert(d * q <= n + 2 * rise < d * q + d) by (nonlinear_arith)
            requires
                d == 2 * run,
                e == 2 * rise * k - 2 * run * q,
                n == 2 * rise * k + run - 1,
                d * q <= n < d * q + d,
                e + 2 * rise <= run,
                rise >= 0,
        ;
        lemma_div_by_bounds(n + 2 * rise, d, q);
    }
    assert(-run < e <= run) by (nonlinear_arith)
        requires
            d == 2 * run,
            e == 2 * rise * k - 2 * run * q,
            n == 2 * rise * k + run - 1,
            d * q <= n < d * q + d,
    ;
}

/// Along the segment the minor offset runs from 0 up to `rise` and never leaves that range.
pub(crate) proof fn lemma_minor_bounds(k: int, run: int, rise: int)
    requires
        0 <= rise <= run,
        0 <= k <= run,
    ensures
        0 <= minor_offset(k, run, rise) <= rise,
        k == run ==> minor_offset(k, run, rise) == rise,
        k == 0 ==> minor_offset(k, run, rise) == 0,
{
    if run > 0 {
        let n = 2 * rise * k + run - 1;
        let d = 2 * run;
        assert(0 <= n < d * (rise + 1)) by (nonlinear_arith)
            requires
                n == 2 * rise * k + run - 1,
                d == 2 * run,
                0 <= rise <= run,
                0 <= k <= run,
                run > 0,
        ;
        vstd::arithmetic::div_mod::lemma_div_pos_is_pos(n, d);
        vstd::arithmetic::div_mod::lemma_div_is_ordered(n, d * (rise + 1) - 1, d);
        assert(d * rise <= d * (rise + 1) - 1 < d * rise + d) by (nonlinear_arith)
            requires
                d > 0,
        ;
        lemma_div_by_bounds(d * (rise + 1) - 1, d, rise);
        if k == run {
            assert(d * rise <= n < d * rise + d) by (nonlinear_arith)
                requires
                    n == 2 * rise * k + run - 1,
                    d == 2 * run,
                    k == run,
                    run > 0,
            ;
            lemma_div_by_bounds(n, d, rise);
        }
        if k == 0 {
            lemma_div_by_bounds(n, d, 0);
        }
    }
}

/// Draws the segment from `a` to `b` in `color` with Bresenham's algorithm
/// into a row-major buffer `width` pixels wide.
pub fn line(a: GridPosition, b: GridPosition, pixel_data: &mut [Pixel], width: u16, color: Pixel)
    requires
        line_fits(a, b, width as int, old(pixel_data)@.len() as int),
    ensures
        final(pixel_data)@.len() == old(pixel_data)@.len(),
        forall|i: int|
            0 <= i < old(pixel_data)@.len() ==> #[trigger] final(pixel_data)@[i] == if line_covers(
                a,
                b,
                width as int,
                i,
            ) {
                color
            } else {
                old(pixel_data)@[i]
            },
{
    let adx: u16 = if a.x > b.x { a.x - b.x } else { b.x - a.x };
    let ady: u16 = if a.y > b.y { a.y - b.y } else { b.y - a.y };
    let is_steep_slope = adx < ady;

    let (a1, b1) = if is_steep_slope {
        (a.transpose_xy(), b.transpose_xy())
    } else {
        (a, b)
    };
    let (s, e) = if a1.x > b1.x {
        (b1, a1)
    } else {
        (a1, b1)
    };

    let mut y: i32 = s.y as i32;
    let sign_y: i32 = if e.y > s.y { 1 } else { -1 };
    let mut ierror: i32 = 0;
    let aby: i32 = if e.y > s.y { (e.y - s.y) as i32 } else { (s.y - e.y) as i32 };
    let dx: i32 = (e.x - s.x) as i32;

    let ghost steep = is_steep(a, b);
    let ghost run = dx as int;
    let ghost rise = aby as int;
    assert(steep == is_steep_slope);
    assert(frame_endpoints(a, b) == ((s.x as int, s.y as int), (e.x as int, e.y as int)));
    assert(rise <= run);

    let ghost old_data = pixel_data@;
    proof {
        lemma_minor_bounds(0, run, rise);
    }
    let mut x: u32 = s.x as u32;
    while x <= e.x as u32
        invariant
            s.x <= x <= e.x as int + 1,
            steep == is_steep_slope,
            steep == is_steep(a, b),
            frame_endpoints(a, b) == ((s.x as int, s.y as int), (e.x as int, e.y as int)),
            run == e.x - s.x,
            rise == abs(e.y - s.y),
            dx == run,
            aby == rise,
            0 <= rise <= run,
            sign_y == if e.y > s.y { 1int } else { -1int },
            y == if e.y > s.y {
                s.y + minor_offset(x - s.x, run, rise)
            } else {
                s.y - minor_offset(x - s.x, run, rise)
            },
            ierror == 2 * rise * (x - s.x) - 2 * run * minor_offset(x - s.x, run, rise),
            x <= e.x ==> 0 <= minor_offset(x - s.x, run, rise) <= rise,
            -run <= ierror <= run,
            line_fits(a, b, width as int, old_data.len() as int),
            pixel_data@.len() == old_data.len(),
            forall|i: int|
                0 <= i < old_data.len() ==> #[trigger] pixel_data@[i] == if line_covers_upto(
                    a,
                    b,
                    width as int,
                    i,
                    x - s.x,
                ) {
                    color
                } else {
                    old_data[i]
                },
        decreases e.x + 1 - x,
    {
        let ghost k = x - s.x;
        proof {
            lemma_minor_bounds(k, run, rise);
        }
        assert(0 <= y <= 65535);
        let y_u16 = y as u16;
        let coord = if is_steep_slope {
            GridPosition { x: y_u16, y: x as u16, z: 0 }
        } else {
            GridPosition { x: x as u16, y: y_u16, z: 0 }
        };
        assert(coord.x as int == line_point(a, b, k).0);
        assert(coord.y as int == line_point(a, b, k).1);
        assert(point_index(line_point(a, b, k), width as int) < old_data.len());
        let idx = coord.to_idx(width);
        let ghost before = pixel_data@;
        pixel_data[idx] = color;
        assert forall|i: int| 0 <= i < old_data.len() implies #[trigger] pixel_data@[i] == if line_covers_upto(
            a,
            b,
            width as int,
            i,
            k + 1,
        ) {
            color
        } else {
            old_data[i]
        } by {
            if i == idx {
                assert(point_index(line_point(a, b, k), width as int) == i);
            } else {
                assert(before[i] == pixel_data@[i]);
                if line_covers_upto(a, b, width as int, i, k + 1) {
                    let k2 = choose|k2: int|
                        0 <= k2 < k + 1 && #[trigger] point_index(line_point(a, b, k2), width as int)
                            == i;
                    assert(k2 != k);
                    assert(line_covers_upto(a, b, width as int, i, k));
                }
                if line_covers_upto(a, b, width as int, i, k) {
                    let k2 = choose|k2: int|
                        0 <= k2 < k && #[trigger] point_index(line_point(a, b, k2), width as int) == i;
                    assert(line_covers_upto(a, b, width as int, i, k + 1));
                }
            }
        }

        proof {
            if run > 0 {
                lemma_minor_step(k, run, rise);
            }
            let m = minor_offset(k, run, rise);
            assert(2 * rise * (k + 1) == 2 * rise * k + 2 * rise) by (nonlinear_arith);
            assert(2 * run * (m + 1) == 2 * run * m + 2 * run) by (nonlinear_arith);
            if run == 0 {
                assert(2 * rise * (k + 1) == 0) by (nonlinear_arith)
                    requires
                        rise == 0,
                ;
            }
        }
        ierror += 2 * aby;
        if ierror > dx {
            y += sign_y;
            ierror -= 2 * dx;
        }
        x += 1;
        proof {
            if x <= e.x {
                lemma_minor_bounds(x - s.x, run, rise);
            }
        }
    }
}

/// Draws the outline of the triangle `a`, `b`, `c`: its three edges in turn.
pub fn triangle(
    a: GridPosition,
    b: GridPosition,
    c: GridPosition,
    pixel_data: &mut [Pixel],
    width: u16,
    color: Pixel,
)
    requires
        line_fits(a, b, width as int, old(pixel_data)@.len() as int),
        line_fits(b, c, width as int, old(pixel_data)@.len() as int),
        line_fits(c, a, width as int, old(pixel_data)@.len() as int),
    ensures
        final(pixel_data)@.len() == old(pixel_data)@.len(),
        forall|i: int|
            0 <= i < old(pixel_data)@.len() ==> #[trigger] final(pixel_data)@[i] == if line_covers(
                a,
                b,
                width as int,
                i,
            ) || line_covers(b, c, width as int, i) || line_covers(c, a, width as int, i) {
                color
            } else {
                old(pixel_data)@[i]
            },
{
    let ghost d0 = pixel_data@;
    line(a, b, pixel_data, width, color);
    let ghost d1 = pixel_data@;
    line(b, c, pixel_data, width, color);
    let ghost d2 = pixel_data@;
    line(c, a, pixel_data, width, color);
    assert forall|i: int| 0 <= i < d0.len() implies #[trigger] pixel_data@[i] == if line_covers(
        a,
        b,
        width as int,
        i,
    ) || line_covers(b, c, width as int, i) || line_covers(c, a, width as int, i) {
        color
    } else {
        d0[i]
    } by {
        assert(d1[i] == if line_covers(a, b, width as int, i) { color } else { d0[i] });
        assert(d2[i] == if line_covers(b, c, width as int, i) { color } else { d1[i] });
    }
}

} // verus!
