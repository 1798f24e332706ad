use vstd::prelude::*;

use crate::batteries::Pixel;

verus! {

/// Index of the cell at row `r`, column `c` of a row-major image `w` wide.
pub open spec fn cell(r: int, c: int, w: int) -> int {
    r * w + c
}

/// `new` is the image held at the start of `old` (`w` by `h` pixels,
/// row-major) upside down: row `r` of `new` is row `h - 1 - r` of `old`, and
/// whatever follows the image is unchanged.
pub open spec fn is_vertical_flip(new: Seq<Pixel>, old: Seq<Pixel>, w: int, h: int) -> bool {
    &&& new.len() == old.len()
    &&& forall|r: int, c: int|
        0 <= r < h && 0 <= c < w ==> #[trigger] new[cell(r, c, w)] == old[cell(h - 1 - r, c, w)]
    &&& forall|i: int| w * h <= i < old.len() ==> #[trigger] new[i] == old[i]
}

proof fn lemma_cell_bounds(r: int, c: int, w: int, h: int)
    requires
        0 <= r < h,
        0 <= c < w,
    ensures
        0 <= cell(r, c, w) < w * h,
        cell(r, c, w) == r * w + c,
{
    assert(0 <= r * w + c < w * h) by (nonlinear_arith)
        requires
            0 <= r < h,
            0 <= c < w,
    ;
}

proof fn lemma_cell_injective(r1: int, c1: int, r2: int, c2: int, w: int)
    requires
        0 <= c1 < w,
        0 <= c2 < w,
        cell(r1, c1, w) == cell(r2, c2, w),
    ensures
        r1 == r2,
        c1 == c2,
{
    assert(r1 == r2) by (nonlinear_arith)
        requires
            0 <= c1 < w,
            0 <= c2 < w,
            r1 * w + c1 == r2 * w + c2,
    ;
}

/// Every index of a `w` by `h` image is the cell of one row and column.
proof fn lemma_cell_onto(i: int, w: int, h: int)
    requires
        0 <= i < w * h,
        w > 0,
    ensures
        0 <= i / w < h,
        0 <= i % w < w,
        i == cell(i / w, i % w, w),
{
    vstd::arithmetic::div_mod::lemma_fundamental_div_mod(i, w);
    vstd::arithmetic::div_mod::lemma_mod_bound(i, w);
    assert(i == w * (i / w) + i % w);
    assert(0 <= i / w < h) by (nonlinear_arith)
        requires
            i == w * (i / w) + i % w,
            0 <= i % w < w,
            0 <= i < w * h,
            w > 0,
    ;
    assert(w * (i / w) == (i / w) * w) by (nonlinear_arith);
}

/// Turns a row-major image of `width` by `height` pixels upside down, in place.
pub fn flip_vertically(pixels: &mut [Pixel], width: usize, height: usize)
    requires
        width * height <= old(pixels)@.len(),
    ensures
        is_vertical_flip(final(pixels)@, old(pixels)@, width as int, height as int),
{
    let ghost old_px = pixels@;
    let ghost w = width as int;
    let ghost h = height as int;
    if width == 0 {
        assert(w * h == 0);
        return;
    }
    let n = pixels.len();
    let mut row: usize = 0;
    while row < height / 2
        invariant
            w * h <= old_px.len(),
            n == old_px.len(),
            w > 0,
            w == width,
            h == height,
            pixels@.len() == old_px.len(),
            row <= height / 2,
            forall|r: int, c: int|
                0 <= r < h && 0 <= c < w ==> #[trigger] pixels@[cell(r, c, w)] == if r < row || r
                    >= h - row {
                    old_px[cell(h - 1 - r, c, w)]
                } else {
                    old_px[cell(r, c, w)]
                },
            forall|i: int| w * h <= i < old_px.len() ==> #[trigger] pixels@[i] == old_px[i],
        decreases height / 2 - row,
    {
        let bot_row = height - 1 - row;
        proof {
            lemma_cell_bounds(row as int, 0, w, h);
            lemma_cell_bounds(bot_row as int, 0, w, h);
        }
        let top = row * width;
        let bot = bot_row * width;
        let mut col: usize = 0;
        while col < width
            invariant
                w * h <= old_px.len(),
                n == old_px.len(),
                w > 0,
                w == width,
                h == height,
                pixels@.len() == old_px.len(),
                row < height / 2,
                bot_row == height - 1 - row,
                top == row * width,
                bot == bot_row * width,
                col <= width,
                forall|r: int, c: int|
                    0 <= r < h && 0 <= c < w ==> #[trigger] pixels@[cell(r, c, w)] == if r < row
                        || r >= h - row || ((r == row || r == bot_row) && c < col) {
                        old_px[cell(h - 1 - r, c, w)]
                    } else {
                        old_px[cell(r, c, w)]
                    },
                forall|i: int| w * h <= i < old_px.len() ==> #[trigger] pixels@[i] == old_px[i],
            decreases width - col,
        {
            proof {
                lemma_cell_bounds(row as int, col as int, w, h);
                lemma_cell_bounds(bot_row as int, col as int, w, h);
            }
            let a = top + col;
            let b = bot + col;
            let ghost before = pixels@;
            let t = pixels[a];
            let u = pixels[b];
            pixels[a] = u;
            pixels[b] = t;
            assert forall|r: int, c: int| 0 <= r < h && 0 <= c < w implies #[trigger] pixels@[cell(
                r,
                c,
                w,
            )] == if r < row || r >= h - row || ((r == row || r == bot_row) && c < col + 1) {
                old_px[cell(h - 1 - r, c, w)]
            } else {
                old_px[cell(r, c, w)]
            } by {
                lemma_cell_bounds(r, c, w, h);
                assert(before[cell(row as int, col as int, w)] == t);
                assert(before[cell(bot_row as int, col as int, w)] == u);
                if cell(r, c, w) == a {
                    lemma_cell_injective(r, c, row as int, col as int, w);
                } else if cell(r, c, w) == b {
                    lemma_cell_injective(r, c, bot_row as int, col as int, w);
                } else {
                    if r == row && c == col {
                        assert(cell(r, c, w) == a);
                    }
                    if r == bot_row && c == col {
                        assert(cell(r, c, w) == b);
                    }
                }
            }
            col += 1;
        }
        row += 1;
    }
    assert forall|r: int, c: int| 0 <= r < h && 0 <= c < w implies #[trigger] pixels@[cell(
        r,
        c,
        w,
    )] == old_px[cell(h - 1 - r, c, w)] by {
        if !(r < row || r >= h - row) {
            assert(r == h - 1 - r);
        }
    }
}

/// Turning an image upside down twice gives it back.
pub proof fn lemma_flip_twice(a: Seq<Pixel>, b: Seq<Pixel>, c: Seq<Pixel>, w: nat, h: nat)
    requires
        w * h <= a.len(),
        is_vertical_flip(b, a, w as int, h as int),
        is_vertical_flip(c, b, w as int, h as int),
    ensures
        c == a,
{
    assert forall|i: int| 0 <= i < a.len() implies c[i] == a[i] by {
        let wi = w as int;
        let hi = h as int;
        if i >= w * h {
            assert(c[i] == b[i]);
        } else if w > 0 {
            lemma_cell_onto(i, wi, hi);
            let r = i / wi;
            let col = i % wi;
            assert(c[cell(r, col, wi)] == b[cell(hi - 1 - r, col, wi)]);
            assert(b[cell(hi - 1 - r, col, wi)] == a[cell(hi - 1 - (hi - 1 - r), col, wi)]);
        } else {
            assert(w * h == 0) by (nonlinear_arith)
                requires
                    w == 0,
            ;
        }
    }
    assert(c =~= a);
}

} // verus!
