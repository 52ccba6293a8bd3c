//! Rasterization primitives: pixel, row, column and rectangle fills into a
//! `Frame`.

use vstd::prelude::*;

use crate::frame::{
    lemma_pixel_idx_disjoint, lemma_pixel_idx_in_range, pixel_idx, pixel_of, same_dims, Frame,
};
use crate::terrain::{case_table, lemma_table_complete, triangles_for, Terrain};
use vstd::arithmetic::div_mod::{
    lemma_fundamental_div_mod, lemma_fundamental_div_mod_converse,
    lemma_mod_division_less_than_divisor,
};

verus! {

/// Writes pixel `(x, y)`; every other pixel keeps its bytes.
pub fn set_pixel(frame: &mut Frame, x: usize, y: usize, color: &[u8; 4])
    requires
        old(frame).wf(),
        x < old(frame).width,
        y < old(frame).height,
    ensures
        final(frame).wf(),
        same_dims(*old(frame), *final(frame)),
        pixel_of(*final(frame), x as int, y as int) == color@,
        forall|px: int, py: int|
            0 <= px < old(frame).width && 0 <= py < old(frame).height && !(px == x && py == y)
                ==> #[trigger] pixel_of(*final(frame), px, py) == pixel_of(*old(frame), px, py),
{
    let buf_len = frame.data.len();
    proof {
        lemma_pixel_idx_in_range(
            frame.width as int,
            frame.height as int,
            x as int,
            y as int,
        );
        assert(pixel_idx(frame.width as int, x as int, y as int) + 4 <= buf_len);
    }
    let index = (y * frame.width + x) * 4;
    frame.data.set(index, color[0]);
    frame.data.set(index + 1, color[1]);
    frame.data.set(index + 2, color[2]);
    frame.data.set(index + 3, color[3]);
    proof {
        let w = frame.width as int;
        assert(pixel_of(*frame, x as int, y as int) =~= color@);
        assert forall|px: int, py: int|
            0 <= px < frame.width && 0 <= py < frame.height && !(px == x && py == y)
                implies #[trigger] pixel_of(*frame, px, py) == pixel_of(*old(frame), px, py) by {
            lemma_pixel_idx_in_range(w, frame.height as int, px, py);
            lemma_pixel_idx_disjoint(w, px, py, x as int, y as int);
            assert(pixel_of(*frame, px, py) =~= pixel_of(*old(frame), px, py));
        }
    }
}

/// Paints every pixel of the frame with `color`.
pub fn clear_frame(frame: &mut Frame, color: &[u8; 4])
    requires
        old(frame).wf(),
    ensures
        final(frame).wf(),
        same_dims(*old(frame), *final(frame)),
        forall|px: int, py: int|
            0 <= px < old(frame).width && 0 <= py < old(frame).height
                ==> #[trigger] pixel_of(*final(frame), px, py) == color@,
{
    let w = frame.width;
    let h = frame.height;
    let mut y: usize = 0;
    while y < h
        invariant
            frame.wf(),
            frame.width == w,
            frame.height == h,
            y <= h,
            forall|px: int, py: int|
                0 <= px < w && 0 <= py < y ==> #[trigger] pixel_of(*frame, px, py) == color@,
        decreases h - y,
    {
        let mut x: usize = 0;
        while x < w
            invariant
                frame.wf(),
                frame.width == w,
                frame.height == h,
                y < h,
                x <= w,
                forall|px: int, py: int|
                    0 <= px < w && 0 <= py < y ==> #[trigger] pixel_of(*frame, px, py) == color@,
                forall|px: int| 0 <= px < x ==> #[trigger] pixel_of(*frame, px, y as int) == color@,
            decreases w - x,
        {
            set_pixel(frame, x, y, color);
            x += 1;
        }
        y += 1;
    }
}

/// Paints row `y`, all columns but the rightmost; every other pixel keeps
/// its bytes.
pub fn set_row(frame: &mut Frame, y: usize, color: &[u8; 4])
    requires
        old(frame).wf(),
        y < old(frame).height,
    ensures
        final(frame).wf(),
        same_dims(*old(frame), *final(frame)),
        forall|px: int, py: int|
            0 <= px < old(frame).width && 0 <= py < old(frame).height
                ==> #[trigger] pixel_of(*final(frame), px, py) == (if py == y && px + 1
                    < old(frame).width {
                    color@
                } else {
                    pixel_of(*old(frame), px, py)
                }),
{
    let w = frame.width;
    let mut x: usize = 0;
    while x + 1 < w
        invariant
            frame.wf(),
            frame.width == w,
            frame.height == old(frame).height,
            y < frame.height,
            w == 0 ==> x == 0,
            w >= 1 ==> x <= w - 1,
            forall|px: int, py: int|
                0 <= px < w && 0 <= py < frame.height
                    ==> #[trigger] pixel_of(*frame, px, py) == (if py == y && px < x {
                        color@
                    } else {
                        pixel_of(*old(frame), px, py)
                    }),
        decreases w - x,
    {
        set_pixel(frame, x, y, color);
        x += 1;
    }
}

/// Paints column `x`, all rows but the bottom one; every other pixel keeps
/// its bytes.
pub fn set_col(frame: &mut Frame, x: usize, color: &[u8; 4])
    requires
        old(frame).wf(),
        x < old(frame).width,
    ensures
        final(frame).wf(),
        same_dims(*old(frame), *final(frame)),
        forall|px: int, py: int|
            0 <= px < old(frame).width && 0 <= py < old(frame).height
                ==> #[trigger] pixel_of(*final(frame), px, py) == (if px == x && py + 1
                    < old(frame).height {
                    color@
                } else {
                    pixel_of(*old(frame), px, py)
                }),
{
    let h = frame.height;
    let mut y: usize = 0;
    while y + 1 < h
        invariant
            frame.wf(),
            frame.width == old(frame).width,
            frame.height == h,
            x < frame.width,
            h == 0 ==> y == 0,
            h >= 1 ==> y <= h - 1,
            forall|px: int, py: int|
                0 <= px < frame.width && 0 <= py < h
                    ==> #[trigger] pixel_of(*frame, px, py) == (if px == x && py < y {
                        color@
                    } else {
                        pixel_of(*old(frame), px, py)
                    }),
        decreases h - y,
    {
        set_pixel(frame, x, y, color);
        y += 1;
    }
}

/// Fills the axis-aligned square with top-left corner `(x, y)` and edge
/// `size`, clipped to the frame; pixels outside it keep their bytes.
pub fn render_square(frame: &mut Frame, x: usize, y: usize, size: usize, color: &[u8; 4])
    requires
        old(frame).wf(),
    ensures
        final(frame).wf(),
        same_dims(*old(frame), *final(frame)),
        forall|px: int, py: int|
            0 <= px < old(frame).width && 0 <= py < old(frame).height
                ==> #[trigger] pixel_of(*final(frame), px, py) == (if x <= px < x + size && y <= py
                    < y + size {
                    color@
                } else {
                    pixel_of(*old(frame), px, py)
                }),
{
    let w = frame.width;
    let h = frame.height;
    if x >= w || y >= h {
        return ;
    }
    let x_end = if size >= w - x {
        w
    } else {
        x + size
    };
    let y_end = if size >= h - y {
        h
    } else {
        y + size
    };
    let mut row = y;
    while row < y_end
        invariant
            frame.wf(),
            frame.width == w,
            frame.height == h,
            x < w,
            y <= row <= y_end <= h,
            x_end <= w,
            x <= x_end,
            x_end == if x + size <= w { x + size as int } else { w as int },
            y_end == if y + size <= h { y + size as int } else { h as int },
            forall|px: int, py: int|
                0 <= px < w && 0 <= py < h
                    ==> #[trigger] pixel_of(*frame, px, py) == (if x <= px < x_end && y <= py
                        < row {
                        color@
                    } else {
                        pixel_of(*old(frame), px, py)
                    }),
        decreases y_end - row,
    {
        let mut col = x;
        while col < x_end
            invariant
                frame.wf(),
                frame.width == w,
                frame.height == h,
                x < w,
                y <= row < y_end <= h,
                x <= col <= x_end <= w,
                forall|px: int, py: int|
                    0 <= px < w && 0 <= py < h
                        ==> #[trigger] pixel_of(*frame, px, py) == (if (x <= px < x_end && y <= py
                            < row) || (py == row && x <= px < col) {
                            color@
                        } else {
                            pixel_of(*old(frame), px, py)
                        }),
            decreases x_end - col,
        {
            set_pixel(frame, col, row, color);
            col += 1;
        }
        row += 1;
    }
}

/// A grid overlay pixel: on a horizontal or vertical line at a multiple of
/// `step`, away from the right and bottom edges that the line fills skip.
pub open spec fn grid_covers(w: int, h: int, step: int, px: int, py: int) -> bool {
    px + 1 < w && py + 1 < h && (px % step == 0 || py % step == 0)
}

/// Two distinct multiples of `step` lie at least `step` apart.
proof fn lemma_next_multiple(step: int, a: int, b: int)
    by (nonlinear_arith)
    requires
        step >= 1,
        a % step == 0,
        b % step == 0,
        b > a,
    ensures
        b >= a + step,
{
}

/// Adding one step to a multiple of `step` gives a multiple of `step`.
proof fn lemma_multiple_plus_step(step: int, a: int)
    by (nonlinear_arith)
    requires
        step >= 1,
        a >= 0,
        a % step == 0,
    ensures
        (a + step) % step == 0,
{
}

/// Draws horizontal and vertical one-pixel lines at every multiple of
/// `step_size`; every pixel off those lines keeps its bytes.
pub fn render_grid(frame: &mut Frame, step_size: usize, color: &[u8; 4])
    requires
        old(frame).wf(),
        step_size >= 1,
    ensures
        final(frame).wf(),
        same_dims(*old(frame), *final(frame)),
        forall|px: int, py: int|
            0 <= px < old(frame).width && 0 <= py < old(frame).height
                ==> #[trigger] pixel_of(*final(frame), px, py) == (if grid_covers(
                    old(frame).width as int,
                    old(frame).height as int,
                    step_size as int,
                    px,
                    py,
                ) {
                    color@
                } else {
                    pixel_of(*old(frame), px, py)
                }),
{
    let w = frame.width;
    let h = frame.height;
    let mut y: usize = 0;
    loop
        invariant_except_break
            frame.wf(),
            frame.width == w,
            frame.height == h,
            step_size >= 1,
            y % step_size == 0,
            forall|px: int, py: int|
                0 <= px < w && 0 <= py < h
                    ==> #[trigger] pixel_of(*frame, px, py) == (if py % (step_size as int) == 0
                        && py < y && py + 1 < h && px + 1 < w {
                        color@
                    } else {
                        pixel_of(*old(frame), px, py)
                    }),
        ensures
            frame.wf(),
            frame.width == w,
            frame.height == h,
            forall|px: int, py: int|
                0 <= px < w && 0 <= py < h
                    ==> #[trigger] pixel_of(*frame, px, py) == (if py % (step_size as int) == 0
                        && py + 1 < h && px + 1 < w {
                        color@
                    } else {
                        pixel_of(*old(frame), px, py)
                    }),
        decreases h - y,
    {
        if h == 0 || y >= h - 1 {
            break ;
        }
        set_row(frame, y, color);
        match y.checked_add(step_size) {
            Some(ny) => {
                proof {
                    assert forall|py: int| #![trigger py % (step_size as int)]
                        py % (step_size as int) == 0 && py < ny && py + 1 < h implies py
                        <= y by {
                        if py > y {
                            lemma_next_multiple(step_size as int, y as int, py);
                        }
                    }
                    lemma_multiple_plus_step(step_size as int, y as int);
                }
                if ny >= h {
                    break ;
                }
                y = ny;
            },
            None => {
                proof {
                    assert forall|py: int| #![trigger py % (step_size as int)]
                        py % (step_size as int) == 0 && py + 1 < h implies py <= y by {
                        if py > y {
                            lemma_next_multiple(step_size as int, y as int, py);
                        }
                    }
                }
                break ;
            },
        }
    }
    let ghost mid = *frame;
    let mut x: usize = 0;
    loop
        invariant_except_break
            frame.wf(),
            frame.width == w,
            frame.height == h,
            step_size >= 1,
            x % step_size == 0,
            mid.width == w,
            mid.height == h,
            mid.data@.len() == frame.data@.len(),
            forall|px: int, py: int|
                0 <= px < w && 0 <= py < h
                    ==> #[trigger] pixel_of(*frame, px, py) == (if px % (step_size as int) == 0
                        && px < x && px + 1 < w && py + 1 < h {
                        color@
                    } else {
                        pixel_of(mid, px, py)
                    }),
        ensures
            frame.wf(),
            frame.width == w,
            frame.height == h,
            forall|px: int, py: int|
                0 <= px < w && 0 <= py < h
                    ==> #[trigger] pixel_of(*frame, px, py) == (if px % (step_size as int) == 0
                        && px + 1 < w && py + 1 < h {
                        color@
                    } else {
                        pixel_of(mid, px, py)
                    }),
        decreases w - x,
    {
        if w == 0 || x >= w - 1 {
            break ;
        }
        set_col(frame, x, color);
        match x.checked_add(step_size) {
            Some(nx) => {
                proof {
                    assert forall|px: int| #![trigger px % (step_size as int)]
                        px % (step_size as int) == 0 && px < nx && px + 1 < w implies px
                        <= x by {
                        if px > x {
                            lemma_next_multiple(step_size as int, x as int, px);
                        }
                    }
                    lemma_multiple_plus_step(step_size as int, x as int);
                }
                if nx >= w {
                    break ;
                }
                x = nx;
            },
            None => {
                proof {
                    assert forall|px: int| #![trigger px % (step_size as int)]
                        px % (step_size as int) == 0 && px + 1 < w implies px <= x by {
                        if px > x {
                            lemma_next_multiple(step_size as int, x as int, px);
                        }
                    }
                }
                break ;
            },
        }
    }
}

/// Largest accepted device coordinate for triangle vertices. Keeping every
/// coordinate below `2^32` lets the barycentric products be computed exactly
/// in 128-bit integers.
pub const MAX_COORD: usize = 0xFFFF_FFFF;

/// The smallest of three values.
pub open spec fn min3(a: int, b: int, c: int) -> int {
    if a <= b && a <= c {
        a
    } else if b <= c {
        b
    } else {
        c
    }
}

/// The largest of three values.
pub open spec fn max3(a: int, b: int, c: int) -> int {
    if a >= b && a >= c {
        a
    } else if b >= c {
        b
    } else {
        c
    }
}

/// Twice the signed area of the triangle: the barycentric denominator.
pub open spec fn tri_d(x1: int, y1: int, x2: int, y2: int, x3: int, y3: int) -> int {
    (y2 - y3) * (x1 - x3) + (x3 - x2) * (y1 - y3)
}

/// Barycentric numerator of the first vertex for point `(px, py)`.
pub open spec fn tri_a1(
    px: int,
    py: int,
    x1: int,
    y1: int,
    x2: int,
    y2: int,
    x3: int,
    y3: int,
) -> int {
    (y2 - y3) * (px - x3) + (x3 - x2) * (py - y3)
}

/// Barycentric numerator of the second vertex for point `(px, py)`.
pub open spec fn tri_a2(
    px: int,
    py: int,
    x1: int,
    y1: int,
    x2: int,
    y2: int,
    x3: int,
    y3: int,
) -> int {
    (y3 - y1) * (px - x3) + (x1 - x3) * (py - y3)
}

/// The barycentric weight `a / d` lies in the closed interval `[0, 1]`.
pub open spec fn weight_in_unit(a: int, d: int) -> bool {
    if d >= 0 {
        0 <= a <= d
    } else {
        d <= a <= 0
    }
}

/// Point `(px, py)` lies in the closed triangle `(x1,y1) (x2,y2) (x3,y3)`:
/// the triangle is not degenerate and all three barycentric weights lie in
/// `[0, 1]`. Edges and vertices belong to the triangle.
pub open spec fn inside_triangle(
    px: int,
    py: int,
    x1: int,
    y1: int,
    x2: int,
    y2: int,
    x3: int,
    y3: int,
) -> bool {
    let d = tri_d(x1, y1, x2, y2, x3, y3);
    let a1 = tri_a1(px, py, x1, y1, x2, y2, x3, y3);
    let a2 = tri_a2(px, py, x1, y1, x2, y2, x3, y3);
    &&& d != 0
    &&& weight_in_unit(a1, d)
    &&& weight_in_unit(a2, d)
    &&& weight_in_unit(d - a1 - a2, d)
}

/// Multiplying by a nonnegative factor keeps an upper bound.
proof fn lemma_mul_le_mono(a: int, v: int, b: int)
    by (nonlinear_arith)
    requires
        a >= 0,
        v <= b,
    ensures
        a * v <= a * b,
{
}

/// A sum of weights distributes over a common factor.
proof fn lemma_distribute3(a1: int, a2: int, a3: int, b: int)
    by (nonlinear_arith)
    ensures
        (a1 + a2 + a3) * b == a1 * b + a2 * b + a3 * b,
{
}

/// Dividing an inequality by its positive factor.
proof fn lemma_cancel_pos(p: int, b: int, d: int)
    by (nonlinear_arith)
    requires
        d > 0,
        p * d <= b * d,
    ensures
        p <= b,
{
}

/// A point whose weighted average with weights summing to `d` stays between
/// the bounds of the values being averaged.
proof fn lemma_weighted_avg_bounds(
    a1: int,
    a2: int,
    a3: int,
    v1: int,
    v2: int,
    v3: int,
    d: int,
    p: int,
    lo: int,
    hi: int,
)
    requires
        d != 0,
        a1 + a2 + a3 == d,
        d > 0 ==> 0 <= a1 && 0 <= a2 && 0 <= a3,
        d < 0 ==> a1 <= 0 && a2 <= 0 && a3 <= 0,
        p * d == a1 * v1 + a2 * v2 + a3 * v3,
        lo <= v1 <= hi,
        lo <= v2 <= hi,
        lo <= v3 <= hi,
    ensures
        lo <= p <= hi,
{
    lemma_distribute3(a1, a2, a3, hi);
    lemma_distribute3(a1, a2, a3, lo);
    if d > 0 {
        lemma_mul_le_mono(a1, v1, hi);
        lemma_mul_le_mono(a2, v2, hi);
        lemma_mul_le_mono(a3, v3, hi);
        assert(p * d <= d * hi);
        assert(p * d <= hi * d) by (nonlinear_arith)
            requires
                p * d <= d * hi,
        ;
        lemma_cancel_pos(p, hi, d);
        lemma_mul_le_mono(a1, lo, v1);
        lemma_mul_le_mono(a2, lo, v2);
        lemma_mul_le_mono(a3, lo, v3);
        assert(d * lo <= p * d);
        assert(lo * d <= p * d) by (nonlinear_arith)
            requires
                d * lo <= p * d,
        ;
        lemma_cancel_pos(lo, p, d);
    } else {
        lemma_mul_le_mono(-a1, lo, v1);
        lemma_mul_le_mono(-a2, lo, v2);
        lemma_mul_le_mono(-a3, lo, v3);
        assert((-a1) * lo == -(a1 * lo) && (-a1) * v1 == -(a1 * v1)) by (nonlinear_arith);
        assert((-a2) * lo == -(a2 * lo) && (-a2) * v2 == -(a2 * v2)) by (nonlinear_arith);
        assert((-a3) * lo == -(a3 * lo) && (-a3) * v3 == -(a3 * v3)) by (nonlinear_arith);
        assert(p * d <= d * lo);
        assert(lo * (-d) <= p * (-d)) by (nonlinear_arith)
            requires
                p * d <= d * lo,
        ;
        lemma_cancel_pos(lo, p, -d);
        lemma_mul_le_mono(-a1, v1, hi);
        lemma_mul_le_mono(-a2, v2, hi);
        lemma_mul_le_mono(-a3, v3, hi);
        assert((-a1) * hi == -(a1 * hi)) by (nonlinear_arith);
        assert((-a2) * hi == -(a2 * hi)) by (nonlinear_arith);
        assert((-a3) * hi == -(a3 * hi)) by (nonlinear_arith);
        assert(d * hi <= p * d);
        assert(p * (-d) <= hi * (-d)) by (nonlinear_arith)
            requires
                d * hi <= p * d,
        ;
        lemma_cancel_pos(p, hi, -d);
    }
}

/// In coordinates translated so the third vertex is the origin, a point's
/// barycentric numerators recombine to the point itself.
proof fn lemma_bary_identity(
    u: int,
    v: int,
    b1: int,
    c1: int,
    b2: int,
    c2: int,
    d: int,
    a1: int,
    a2: int,
)
    requires
        d == c2 * b1 - b2 * c1,
        a1 == c2 * u - b2 * v,
        a2 == b1 * v - c1 * u,
    ensures
        u * d == a1 * b1 + a2 * b2,
        v * d == a1 * c1 + a2 * c2,
{
    assert(a1 * b1 == c2 * u * b1 - b2 * v * b1) by (nonlinear_arith)
        requires
            a1 == c2 * u - b2 * v,
    ;
    assert(a2 * b2 == b1 * v * b2 - c1 * u * b2) by (nonlinear_arith)
        requires
            a2 == b1 * v - c1 * u,
    ;
    assert(u * d == c2 * b1 * u - b2 * c1 * u) by (nonlinear_arith)
        requires
            d == c2 * b1 - b2 * c1,
    ;
    assert(c2 * u * b1 == c2 * b1 * u && b2 * v * b1 == b1 * v * b2 && c1 * u * b2 == b2 * c1
        * u) by (nonlinear_arith);
    assert(a1 * c1 == c2 * u * c1 - b2 * v * c1) by (nonlinear_arith)
        requires
            a1 == c2 * u - b2 * v,
    ;
    assert(a2 * c2 == b1 * v * c2 - c1 * u * c2) by (nonlinear_arith)
        requires
            a2 == b1 * v - c1 * u,
    ;
    assert(v * d == c2 * b1 * v - b2 * c1 * v) by (nonlinear_arith)
        requires
            d == c2 * b1 - b2 * c1,
    ;
    assert(c2 * u * c1 == c1 * u * c2 && b2 * v * c1 == b2 * c1 * v && b1 * v * c2 == c2 * b1
        * v) by (nonlinear_arith);
}

/// A point inside a triangle lies within the bounding box of its vertices:
/// barycentric weights in `[0, 1]` make it a convex combination of them.
pub proof fn lemma_inside_bbox(
    px: int,
    py: int,
    x1: int,
    y1: int,
    x2: int,
    y2: int,
    x3: int,
    y3: int,
)
    requires
        inside_triangle(px, py, x1, y1, x2, y2, x3, y3),
    ensures
        min3(x1, x2, x3) <= px <= max3(x1, x2, x3),
        min3(y1, y2, y3) <= py <= max3(y1, y2, y3),
{
    let d = tri_d(x1, y1, x2, y2, x3, y3);
    let a1 = tri_a1(px, py, x1, y1, x2, y2, x3, y3);
    let a2 = tri_a2(px, py, x1, y1, x2, y2, x3, y3);
    let a3 = d - a1 - a2;
    let u = px - x3;
    let v = py - y3;
    let b1 = x1 - x3;
    let c1 = y1 - y3;
    let b2 = x2 - x3;
    let c2 = y2 - y3;
    assert((x3 - x2) * (y1 - y3) == -(b2 * c1) && (x3 - x2) * (py - y3) == -(b2 * v) && (y3
        - y1) * (px - x3) == -(c1 * u)) by (nonlinear_arith)
        requires
            b2 == x2 - x3,
            c1 == y1 - y3,
            v == py - y3,
            u == px - x3,
    ;
    lemma_bary_identity(u, v, b1, c1, b2, c2, d, a1, a2);
    lemma_weighted_avg_bounds(
        a1,
        a2,
        a3,
        b1,
        b2,
        0,
        d,
        u,
        min3(b1, b2, 0),
        max3(b1, b2, 0),
    );
    lemma_weighted_avg_bounds(
        a1,
        a2,
        a3,
        c1,
        c2,
        0,
        d,
        v,
        min3(c1, c2, 0),
        max3(c1, c2, 0),
    );
}

/// Signed products of two coordinate differences stay within `m*m`.
proof fn lemma_mul_bound(a: int, b: int, m: int)
    by (nonlinear_arith)
    requires
        m >= 0,
        -m <= a <= m,
        -m <= b <= m,
    ensures
        -(m * m) <= a * b <= m * m,
{
}

/// Computes the barycentric numerators and denominator of `(px, py)` with
/// respect to the triangle, exactly, in 128-bit integers.
fn barycentric(
    px: usize,
    py: usize,
    x_0: usize,
    y_0: usize,
    x_1: usize,
    y_1: usize,
    x_2: usize,
    y_2: usize,
) -> (r: (i128, i128, i128))
    requires
        px <= MAX_COORD,
        py <= MAX_COORD,
        x_0 <= MAX_COORD,
        y_0 <= MAX_COORD,
        x_1 <= MAX_COORD,
        y_1 <= MAX_COORD,
        x_2 <= MAX_COORD,
        y_2 <= MAX_COORD,
    ensures
        r.0 == tri_a1(
            px as int,
            py as int,
            x_0 as int,
            y_0 as int,
            x_1 as int,
            y_1 as int,
            x_2 as int,
            y_2 as int,
        ),
        r.1 == tri_a2(
            px as int,
            py as int,
            x_0 as int,
            y_0 as int,
            x_1 as int,
            y_1 as int,
            x_2 as int,
            y_2 as int,
        ),
        r.2 == tri_d(
            x_0 as int,
            y_0 as int,
            x_1 as int,
            y_1 as int,
            x_2 as int,
            y_2 as int,
        ),
        -0x4_0000_0000_0000_0000 <= r.0 <= 0x4_0000_0000_0000_0000,
        -0x4_0000_0000_0000_0000 <= r.1 <= 0x4_0000_0000_0000_0000,
        -0x4_0000_0000_0000_0000 <= r.2 <= 0x4_0000_0000_0000_0000,
{
    let dy12 = y_1 as i128 - y_2 as i128;
    let dx02 = x_0 as i128 - x_2 as i128;
    let dx21 = x_2 as i128 - x_1 as i128;
    let dy02 = y_0 as i128 - y_2 as i128;
    let dy20 = y_2 as i128 - y_0 as i128;
    let dxp2 = px as i128 - x_2 as i128;
    let dyp2 = py as i128 - y_2 as i128;
    proof {
        lemma_mul_bound(dy12 as int, dx02 as int, MAX_COORD as int);
        lemma_mul_bound(dx21 as int, dy02 as int, MAX_COORD as int);
        lemma_mul_bound(dy12 as int, dxp2 as int, MAX_COORD as int);
        lemma_mul_bound(dx21 as int, dyp2 as int, MAX_COORD as int);
        lemma_mul_bound(dy20 as int, dxp2 as int, MAX_COORD as int);
        lemma_mul_bound(dx02 as int, dyp2 as int, MAX_COORD as int);
    }
    let d = dy12 * dx02 + dx21 * dy02;
    let a1 = dy12 * dxp2 + dx21 * dyp2;
    let a2 = dy20 * dxp2 + dx02 * dyp2;
    (a1, a2, d)
}

/// True when the barycentric weight `a / d` lies in the closed unit interval.
fn weight_ok(a: i128, d: i128) -> (r: bool)
    ensures
        r == weight_in_unit(a as int, d as int),
{
    if d >= 0 {
        0 <= a && a <= d
    } else {
        d <= a && a <= 0
    }
}

/// Fills the closed triangle with vertices `(x_0, y_0)`, `(x_1, y_1)`,
/// `(x_2, y_2)`: every frame pixel inside it is painted with `color` and
/// every other pixel keeps its bytes. A degenerate triangle paints nothing.
pub fn render_triangle(
    frame: &mut Frame,
    x_0: usize,
    y_0: usize,
    x_1: usize,
    y_1: usize,
    x_2: usize,
    y_2: usize,
    color: &[u8; 4],
)
    requires
        old(frame).wf(),
        x_0 <= MAX_COORD,
        y_0 <= MAX_COORD,
        x_1 <= MAX_COORD,
        y_1 <= MAX_COORD,
        x_2 <= MAX_COORD,
        y_2 <= MAX_COORD,
    ensures
        final(frame).wf(),
        same_dims(*old(frame), *final(frame)),
        forall|px: int, py: int|
            0 <= px < old(frame).width && 0 <= py < old(frame).height
                ==> #[trigger] pixel_of(*final(frame), px, py) == (if inside_triangle(
                    px,
                    py,
                    x_0 as int,
                    y_0 as int,
                    x_1 as int,
                    y_1 as int,
                    x_2 as int,
                    y_2 as int,
                ) {
                    color@
                } else {
                    pixel_of(*old(frame), px, py)
                }),
{
    let w = frame.width;
    let h = frame.height;
    let ghost gx0 = x_0 as int;
    let ghost gy0 = y_0 as int;
    let ghost gx1 = x_1 as int;
    let ghost gy1 = y_1 as int;
    let ghost gx2 = x_2 as int;
    let ghost gy2 = y_2 as int;

    let mut col_start = x_0;
    if x_1 < col_start {
        col_start = x_1;
    }
    if x_2 < col_start {
        col_start = x_2;
    }
    let mut row_start = y_0;
    if y_1 < row_start {
        row_start = y_1;
    }
    if y_2 < row_start {
        row_start = y_2;
    }
    if col_start >= w || row_start >= h {
        proof {
            assert forall|px: int, py: int|
                0 <= px < w && 0 <= py < h implies !inside_triangle(
                px,
                py,
                gx0,
                gy0,
                gx1,
                gy1,
                gx2,
                gy2,
            ) by {
                if inside_triangle(px, py, gx0, gy0, gx1, gy1, gx2, gy2) {
                    lemma_inside_bbox(px, py, gx0, gy0, gx1, gy1, gx2, gy2);
                }
            }
        }
        return ;
    }
    let mut col_max = x_0;
    if x_1 > col_max {
        col_max = x_1;
    }
    if x_2 > col_max {
        col_max = x_2;
    }
    if col_max > w - 1 {
        col_max = w - 1;
    }
    let mut row_max = y_0;
    if y_1 > row_max {
        row_max = y_1;
    }
    if y_2 > row_max {
        row_max = y_2;
    }
    if row_max > h - 1 {
        row_max = h - 1;
    }

    proof {
        assert forall|px: int, py: int|
            inside_triangle(px, py, gx0, gy0, gx1, gy1, gx2, gy2) implies min3(gx0, gx1, gx2)
            <= px <= max3(gx0, gx1, gx2) && min3(gy0, gy1, gy2) <= py <= max3(gy0, gy1, gy2) by {
            lemma_inside_bbox(px, py, gx0, gy0, gx1, gy1, gx2, gy2);
        }
    }
    let mut row = row_start;
    while row <= row_max
        invariant
            frame.wf(),
            frame.width == w,
            frame.height == h,
            x_0 <= MAX_COORD,
            y_0 <= MAX_COORD,
            x_1 <= MAX_COORD,
            y_1 <= MAX_COORD,
            x_2 <= MAX_COORD,
            y_2 <= MAX_COORD,
            gx0 == x_0 as int,
            gy0 == y_0 as int,
            gx1 == x_1 as int,
            gy1 == y_1 as int,
            gx2 == x_2 as int,
            gy2 == y_2 as int,
            col_start == min3(gx0, gx1, gx2),
            row_start == min3(gy0, gy1, gy2),
            col_start < w,
            row_start < h,
            col_max == if max3(gx0, gx1, gx2) <= w - 1 {
                max3(gx0, gx1, gx2)
            } else {
                w - 1 as int
            },
            row_max == if max3(gy0, gy1, gy2) <= h - 1 {
                max3(gy0, gy1, gy2)
            } else {
                h - 1 as int
            },
            row_start <= row <= row_max + 1,
            forall|px: int, py: int|
                0 <= px < w && 0 <= py < h ==> #[trigger] pixel_of(*frame, px, py) == (
                if inside_triangle(px, py, gx0, gy0, gx1, gy1, gx2, gy2) && py < row {
                    color@
                } else {
                    pixel_of(*old(frame), px, py)
                }),
        decreases row_max + 1 - row,
    {
        proof {
            assert forall|px: int, py: int|
                inside_triangle(px, py, gx0, gy0, gx1, gy1, gx2, gy2) implies min3(
                gx0,
                gx1,
                gx2,
            ) <= px <= max3(gx0, gx1, gx2) && min3(gy0, gy1, gy2) <= py <= max3(
                gy0,
                gy1,
                gy2,
            ) by {
                lemma_inside_bbox(px, py, gx0, gy0, gx1, gy1, gx2, gy2);
            }
        }
        let mut col = col_start;
        while col <= col_max
            invariant
                frame.wf(),
                frame.width == w,
                frame.height == h,
                x_0 <= MAX_COORD,
                y_0 <= MAX_COORD,
                x_1 <= MAX_COORD,
                y_1 <= MAX_COORD,
                x_2 <= MAX_COORD,
                y_2 <= MAX_COORD,
                gx0 == x_0 as int,
                gy0 == y_0 as int,
                gx1 == x_1 as int,
                gy1 == y_1 as int,
                gx2 == x_2 as int,
                gy2 == y_2 as int,
                col_start == min3(gx0, gx1, gx2),
                col_start < w,
                col_max <= w - 1,
                row < h,
                row <= MAX_COORD,
                col_start <= col <= col_max + 1,
                forall|px: int, py: int|
                    0 <= px < w && 0 <= py < h ==> #[trigger] pixel_of(*frame, px, py) == (
                    if inside_triangle(px, py, gx0, gy0, gx1, gy1, gx2, gy2) && (py < row || (py
                        == row && px < col)) {
                        color@
                    } else {
                        pixel_of(*old(frame), px, py)
                    }),
            decreases col_max + 1 - col,
        {
            let (a1, a2, d) = barycentric(col, row, x_0, y_0, x_1, y_1, x_2, y_2);
            let a3 = d - a1 - a2;
            if d != 0 && weight_ok(a1, d) && weight_ok(a2, d) && weight_ok(a3, d) {
                set_pixel(frame, col, row, color);
            }
            col += 1;
        }
        proof {
            assert forall|px: int|
                0 <= px < w && !(col_start <= px <= col_max) implies !inside_triangle(
                px,
                row as int,
                gx0,
                gy0,
                gx1,
                gy1,
                gx2,
                gy2,
            ) by {
                if inside_triangle(px, row as int, gx0, gy0, gx1, gy1, gx2, gy2) {
                    lemma_inside_bbox(px, row as int, gx0, gy0, gx1, gy1, gx2, gy2);
                }
            }
        }
        row += 1;
    }
    proof {
        assert forall|px: int, py: int|
            0 <= px < w && 0 <= py < h && !(row_start <= py <= row_max) implies !inside_triangle(
            px,
            py,
            gx0,
            gy0,
            gx1,
            gy1,
            gx2,
            gy2,
        ) by {
            if inside_triangle(px, py, gx0, gy0, gx1, gy1, gx2, gy2) {
                lemma_inside_bbox(px, py, gx0, gy0, gx1, gy1, gx2, gy2);
            }
        }
    }
}

/// For a positive cell size, a pixel lies in the half-open span of cell `c`
/// exactly when integer division maps it to `c`.
proof fn lemma_cell_of_pixel(p: int, s: int, c: int)
    requires
        s >= 1,
        p >= 0,
        c >= 0,
    ensures
        (c * s <= p < c * s + s) <==> (p / s == c),
{
    if c * s <= p < c * s + s {
        lemma_fundamental_div_mod_converse(p, s, c, p - c * s);
    }
    if p / s == c {
        lemma_fundamental_div_mod(p, s);
        lemma_mod_division_less_than_divisor(p, s);
        assert(s * c == c * s) by (nonlinear_arith);
    }
}

/// A pixel below the start of cell `c` maps to an earlier cell.
proof fn lemma_pixel_before_cell(p: int, s: int, c: int)
    requires
        s >= 1,
        p >= 0,
        c >= 0,
        p < c * s,
    ensures
        p / s < c,
{
    lemma_fundamental_div_mod(p, s);
    lemma_mod_division_less_than_divisor(p, s);
    if p / s >= c {
        assert(p >= (p / s) * s) by (nonlinear_arith)
            requires
                p == s * (p / s) + p % s,
                p % s >= 0,
        ;
        assert((p / s) * s >= c * s) by (nonlinear_arith)
            requires
                p / s >= c,
                s >= 1,
        ;
    }
}

/// The gray shade of a fixed-point sample: its value scaled to `0 ..= 255`,
/// rounded to nearest.
pub open spec fn shade_of(v: u32) -> u8 {
    ((v * 255 + 500) / 1000) as u8
}

/// The RGBA bytes of the opaque gray that visualizes sample value `v`.
pub open spec fn gray_of(v: u32) -> Seq<u8> {
    seq![shade_of(v), shade_of(v), shade_of(v), 255u8]
}

/// Edge length of the squares visualizing a `tw x th` field on a `fw x fh`
/// frame: the frame's smaller direction divided by the field extent there.
pub open spec fn field_square_size(fw: int, fh: int, tw: int, th: int) -> int {
    if fw < fh {
        fw / tw
    } else {
        fh / th
    }
}

/// Draws the scalar field as one gray square per sample: sample `(r, c)`
/// covers the pixels whose cell, by integer division with the square size,
/// is `(r, c)`. Pixels beyond the field keep their bytes.
pub fn render_scalar_field(frame: &mut Frame, terrain: &Terrain)
    requires
        old(frame).wf(),
        terrain.wf(),
    ensures
        final(frame).wf(),
        same_dims(*old(frame), *final(frame)),
        forall|px: int, py: int|
            0 <= px < old(frame).width && 0 <= py < old(frame).height
                ==> #[trigger] pixel_of(*final(frame), px, py) == ({
                    let size = field_square_size(
                        old(frame).width as int,
                        old(frame).height as int,
                        terrain.spec_width(),
                        terrain.spec_height(),
                    );
                    if size >= 1 && py / size < terrain.spec_height() && px / size
                        < terrain.spec_width() {
                        gray_of(terrain.field_seq()[(py / size) * terrain.spec_width() + px / size])
                    } else {
                        pixel_of(*old(frame), px, py)
                    }
                }),
{
    let w = frame.width;
    let h = frame.height;
    let tw = terrain.width();
    let th = terrain.height();
    let mut square_size = h / th;
    if w < h {
        square_size = w / tw;
    }
    let ghost size = square_size as int;
    if square_size == 0 {
        return ;
    }
    let mut row: usize = 0;
    loop
        invariant_except_break
            frame.wf(),
            frame.width == w,
            frame.height == h,
            terrain.wf(),
            tw == terrain.spec_width(),
            th == terrain.spec_height(),
            size == square_size as int,
            size == field_square_size(w as int, h as int, tw as int, th as int),
            size >= 1,
            row <= th,
            forall|px: int, py: int|
                0 <= px < w && 0 <= py < h ==> #[trigger] pixel_of(*frame, px, py) == (if py
                    / size < row && py / size < th && px / size < tw {
                    gray_of(terrain.field_seq()[(py / size) * (tw as int) + px / size])
                } else {
                    pixel_of(*old(frame), px, py)
                }),
        ensures
            frame.wf(),
            frame.width == w,
            frame.height == h,
            forall|px: int, py: int|
                0 <= px < w && 0 <= py < h ==> #[trigger] pixel_of(*frame, px, py) == (if py
                    / size < th && px / size < tw {
                    gray_of(terrain.field_seq()[(py / size) * (tw as int) + px / size])
                } else {
                    pixel_of(*old(frame), px, py)
                }),
        decreases th - row,
    {
        if row >= th {
            break ;
        }
        let oy = match row.checked_mul(square_size) {
            Some(v) => v,
            None => {
                proof {
                    assert forall|py: int| 0 <= py < h implies #[trigger] (py / size) < row by {
                        lemma_pixel_before_cell(py, size, row as int);
                    }
                }
                break ;
            },
        };
        if oy >= h {
            proof {
                assert forall|py: int| 0 <= py < h implies #[trigger] (py / size) < row by {
                    lemma_pixel_before_cell(py, size, row as int);
                }
            }
            break ;
        }
        let mut col: usize = 0;
        loop
            invariant_except_break
                frame.wf(),
                frame.width == w,
                frame.height == h,
                terrain.wf(),
                tw == terrain.spec_width(),
                th == terrain.spec_height(),
                size == square_size as int,
                size >= 1,
                row < th,
                oy == row * size,
                oy < h,
                col <= tw,
                forall|px: int, py: int|
                    0 <= px < w && 0 <= py < h ==> #[trigger] pixel_of(*frame, px, py) == (if (py
                        / size < row || (py / size == row && px / size < col)) && py / size < th
                        && px / size < tw {
                        gray_of(terrain.field_seq()[(py / size) * (tw as int) + px / size])
                    } else {
                        pixel_of(*old(frame), px, py)
                    }),
            ensures
                frame.wf(),
                frame.width == w,
                frame.height == h,
                forall|px: int, py: int|
                    0 <= px < w && 0 <= py < h ==> #[trigger] pixel_of(*frame, px, py) == (if (py
                        / size < row || py / size == row) && py / size < th && px / size < tw {
                        gray_of(terrain.field_seq()[(py / size) * (tw as int) + px / size])
                    } else {
                        pixel_of(*old(frame), px, py)
                    }),
            decreases tw - col,
        {
            if col >= tw {
                break ;
            }
            let ox = match col.checked_mul(square_size) {
                Some(v) => v,
                None => {
                    proof {
                        assert forall|px: int| 0 <= px < w implies #[trigger] (px / size) < col by {
                            lemma_pixel_before_cell(px, size, col as int);
                        }
                    }
                    break ;
                },
            };
            if ox >= w {
                proof {
                    assert forall|px: int| 0 <= px < w implies #[trigger] (px / size) < col by {
                        lemma_pixel_before_cell(px, size, col as int);
                    }
                }
                break ;
            }
            let sample_count = terrain.scalar_field.len();
            proof {
                crate::terrain::lemma_grid_slot(row as int, col as int, tw as int, th as int);
            }
            let value = terrain.scalar_field[row * tw + col];
            let alpha = ((value * 255 + 500) / 1000) as u8;
            let cell_color: [u8; 4] = [alpha, alpha, alpha, 255];
            render_square(frame, ox, oy, square_size, &cell_color);
            proof {
                assert(cell_color@ =~= gray_of(terrain.field_seq()[row * (tw as int) + col]));
                assert forall|px: int, py: int|
                    0 <= px < w && 0 <= py < h implies #[trigger] pixel_of(*frame, px, py) == (
                if (py / size < row || (py / size == row && px / size < col + 1)) && py / size < th
                    && px / size < tw {
                    gray_of(terrain.field_seq()[(py / size) * (tw as int) + px / size])
                } else {
                    pixel_of(*old(frame), px, py)
                }) by {
                    lemma_cell_of_pixel(px, size, col as int);
                    lemma_cell_of_pixel(py, size, row as int);
                }
            }
            col += 1;
        }
        proof {
            assert forall|px: int, py: int|
                0 <= px < w && 0 <= py < h implies #[trigger] pixel_of(*frame, px, py) == (
            if py / size < row + 1 && py / size < th && px / size < tw {
                gray_of(terrain.field_seq()[(py / size) * (tw as int) + px / size])
            } else {
                pixel_of(*old(frame), px, py)
            }) by {
            }
        }
        row += 1;
    }
}

/// Device coordinate of a triangle vertex: the cell offset plus the
/// half-unit coordinate scaled by the cell edge, halves rounded up.
pub open spec fn vertex_coord(offset: int, half: u8, size: int) -> int {
    offset + (if half == 0 {
        0
    } else if half == 1 {
        (size + 1) / 2
    } else {
        size
    })
}

/// Pixel `(px, py)` lies in triangle `k` of the flat vertex list `list`,
/// drawn for the cell at device offset `(ox, oy)` with edge `size`.
pub open spec fn cell_triangle_inside(
    list: Seq<u8>,
    k: int,
    ox: int,
    oy: int,
    size: int,
    px: int,
    py: int,
) -> bool {
    inside_triangle(
        px,
        py,
        vertex_coord(ox, list[6 * k], size),
        vertex_coord(oy, list[6 * k + 1], size),
        vertex_coord(ox, list[6 * k + 2], size),
        vertex_coord(oy, list[6 * k + 3], size),
        vertex_coord(ox, list[6 * k + 4], size),
        vertex_coord(oy, list[6 * k + 5], size),
    )
}

/// Some triangle of the case-table entry of cell `(r, c)` covers the pixel.
pub open spec fn cell_covers(t: Terrain, size: int, r: int, c: int, px: int, py: int) -> bool {
    let list = case_table()[t.index_seq()[r * (t.spec_width() - 1) + c] as int];
    exists|k: int|
        0 <= k && 6 * k + 6 <= list.len() && #[trigger] cell_triangle_inside(
            list,
            k,
            c * size,
            r * size,
            size,
            px,
            py,
        )
}

/// Some triangle of some cell of the terrain covers the pixel.
pub open spec fn terrain_covers(t: Terrain, size: int, px: int, py: int) -> bool {
    exists|r: int, c: int|
        0 <= r < t.spec_height() - 1 && 0 <= c < t.spec_width() - 1 && #[trigger] cell_covers(
            t,
            size,
            r,
            c,
            px,
            py,
        )
}

/// Some cell strictly before `(rlim, clim)` in row-major order covers the
/// pixel.
spec fn covers_before(t: Terrain, size: int, px: int, py: int, rlim: int, clim: int) -> bool {
    exists|r: int, c: int|
        0 <= r < t.spec_height() - 1 && 0 <= c < t.spec_width() - 1 && (r < rlim || (r == rlim && c
            < clim)) && #[trigger] cell_covers(t, size, r, c, px, py)
}

/// Some triangle strictly before `klim` in the cell's list covers the pixel.
spec fn cell_covers_upto(
    list: Seq<u8>,
    ox: int,
    oy: int,
    size: int,
    px: int,
    py: int,
    klim: int,
) -> bool {
    exists|k: int|
        0 <= k < klim && 6 * k + 6 <= list.len() && #[trigger] cell_triangle_inside(
            list,
            k,
            ox,
            oy,
            size,
            px,
            py,
        )
}

/// Half-unit coordinate scaled by the cell edge, halves rounded up.
fn scale_half(half: u8, size: usize) -> (r: usize)
    requires
        size < usize::MAX,
    ensures
        r as int == vertex_coord(0, half, size as int),
        r <= size,
{
    if half == 0 {
        0
    } else if half == 1 {
        (size + 1) / 2
    } else {
        size
    }
}

/// Draws the whole terrain: for every grid cell, looks up the case-table
/// entry of its index and fills each of its triangles, scaled to the cell
/// edge `height / (terrain height - 1)` and offset to the cell's position.
/// A pixel is painted exactly when some triangle of some cell covers it.
pub fn render_terrain(frame: &mut Frame, terrain: &Terrain, color: &[u8; 4])
    requires
        old(frame).wf(),
        terrain.wf(),
    ensures
        final(frame).wf(),
        same_dims(*old(frame), *final(frame)),
        forall|px: int, py: int|
            0 <= px < old(frame).width && 0 <= py < old(frame).height
                ==> #[trigger] pixel_of(*final(frame), px, py) == (if terrain_covers(
                    *terrain,
                    (old(frame).height as int) / (terrain.spec_height() - 1),
                    px,
                    py,
                ) {
                    color@
                } else {
                    pixel_of(*old(frame), px, py)
                }),
{
    let w = frame.width;
    let h = frame.height;
    let tw = terrain.width();
    let th = terrain.height();
    let square_size = h / (th - 1);
    let ghost size = square_size as int;
    proof {
        assert((h as int) / (th as int - 1) <= h as int) by (nonlinear_arith)
            requires
                th as int - 1 >= 1,
                h as int >= 0,
        ;
    }
    let mut row: usize = 0;
    loop
        invariant_except_break
            frame.wf(),
            frame.width == w,
            frame.height == h,
            terrain.wf(),
            tw == terrain.spec_width(),
            th == terrain.spec_height(),
            tw >= 2,
            th >= 2,
            size == square_size as int,
            square_size <= h,
            size == (h as int) / (th as int - 1),
            row <= th - 1,
            forall|px: int, py: int|
                0 <= px < w && 0 <= py < h ==> #[trigger] pixel_of(*frame, px, py) == (
                if covers_before(*terrain, size, px, py, row as int, 0) {
                    color@
                } else {
                    pixel_of(*old(frame), px, py)
                }),
        ensures
            frame.wf(),
            frame.width == w,
            frame.height == h,
            forall|px: int, py: int|
                0 <= px < w && 0 <= py < h ==> #[trigger] pixel_of(*frame, px, py) == (
                if terrain_covers(*terrain, size, px, py) {
                    color@
                } else {
                    pixel_of(*old(frame), px, py)
                }),
        decreases th - 1 - row,
    {
        if row >= th - 1 {
            break ;
        }
        let row_skip: bool = match row.checked_mul(square_size) {
            Some(v) => v >= h,
            None => true,
        };
        if row_skip {
            proof {
                assert forall|px: int, py: int, r: int, c: int|
                    0 <= px < w && 0 <= py < h && row <= r < th - 1 && 0 <= c < tw
                        - 1 implies !cell_covers(*terrain, size, r, c, px, py) by {
                    if cell_covers(*terrain, size, r, c, px, py) {
                        let list = case_table()[terrain.index_seq()[r * (tw as int - 1)
                            + c] as int];
                        let k = choose|k: int|
                            0 <= k && 6 * k + 6 <= list.len() && #[trigger] cell_triangle_inside(
                                list,
                                k,
                                c * size,
                                r * size,
                                size,
                                px,
                                py,
                            );
                        lemma_inside_bbox(
                            px,
                            py,
                            vertex_coord(c * size, list[6 * k], size),
                            vertex_coord(r * size, list[6 * k + 1], size),
                            vertex_coord(c * size, list[6 * k + 2], size),
                            vertex_coord(r * size, list[6 * k + 3], size),
                            vertex_coord(c * size, list[6 * k + 4], size),
                            vertex_coord(r * size, list[6 * k + 5], size),
                        );
                        assert(r * size >= row * size) by (nonlinear_arith)
                            requires
                                r >= row,
                                row >= 0,
                                size >= 0,
                        ;
                        assert(false);
                    }
                }
            }
            break ;
        }
        let oy = row * square_size;
        let mut col: usize = 0;
        loop
            invariant_except_break
                frame.wf(),
                frame.width == w,
                frame.height == h,
                terrain.wf(),
                tw == terrain.spec_width(),
                th == terrain.spec_height(),
                tw >= 2,
                th >= 2,
                size == square_size as int,
                square_size <= h,
                row < th - 1,
                oy == row * size,
                oy < h,
                col <= tw - 1,
                forall|px: int, py: int|
                    0 <= px < w && 0 <= py < h ==> #[trigger] pixel_of(*frame, px, py) == (
                    if covers_before(*terrain, size, px, py, row as int, col as int) {
                        color@
                    } else {
                        pixel_of(*old(frame), px, py)
                    }),
            ensures
                frame.wf(),
                frame.width == w,
                frame.height == h,
                forall|px: int, py: int|
                    0 <= px < w && 0 <= py < h ==> #[trigger] pixel_of(*frame, px, py) == (
                    if covers_before(*terrain, size, px, py, row as int + 1, 0) {
                        color@
                    } else {
                        pixel_of(*old(frame), px, py)
                    }),
            decreases tw - 1 - col,
        {
            if col >= tw - 1 {
                break ;
            }
            let col_skip: bool = match col.checked_mul(square_size) {
                Some(v) => v >= w,
                None => true,
            };
            if col_skip {
                proof {
                    assert forall|px: int, py: int, c: int|
                        0 <= px < w && 0 <= py < h && col <= c < tw - 1 implies !cell_covers(
                        *terrain,
                        size,
                        row as int,
                        c,
                        px,
                        py,
                    ) by {
                        if cell_covers(*terrain, size, row as int, c, px, py) {
                            let list = case_table()[terrain.index_seq()[row as int * (tw as int
                                - 1) + c] as int];
                            let k = choose|k: int|
                                0 <= k && 6 * k + 6
                                    <= list.len() && #[trigger] cell_triangle_inside(
                                    list,
                                    k,
                                    c * size,
                                    row as int * size,
                                    size,
                                    px,
                                    py,
                                );
                            lemma_inside_bbox(
                                px,
                                py,
                                vertex_coord(c * size, list[6 * k], size),
                                vertex_coord(row as int * size, list[6 * k + 1], size),
                                vertex_coord(c * size, list[6 * k + 2], size),
                                vertex_coord(row as int * size, list[6 * k + 3], size),
                                vertex_coord(c * size, list[6 * k + 4], size),
                                vertex_coord(row as int * size, list[6 * k + 5], size),
                            );
                            assert(c * size >= col * size) by (nonlinear_arith)
                                requires
                                    c >= col,
                                    col >= 0,
                                    size >= 0,
                            ;
                            assert(false);
                        }
                    }
                }
                break ;
            }
            let ox = col * square_size;
            let grid_len = terrain.index_grid.len();
            proof {
                crate::terrain::lemma_grid_slot(
                    row as int,
                    col as int,
                    tw as int - 1,
                    th as int - 1,
                );
            }
            let slot = row * (tw - 1) + col;
            let index = terrain.index_grid[slot];
            proof {
                assert(index < 16);
                lemma_table_complete(index as int);
            }
            let list = triangles_for(index);
            let list_len = list.len();
            let mut kk: usize = 0;
            while 6 * kk + 6 <= list_len
                invariant
                    frame.wf(),
                    frame.width == w,
                    frame.height == h,
                    terrain.wf(),
                    tw == terrain.spec_width(),
                    th == terrain.spec_height(),
                    tw >= 2,
                    th >= 2,
                    size == square_size as int,
                    square_size <= h,
                    square_size < usize::MAX,
                    row < th - 1,
                    col < tw - 1,
                    oy == row * size,
                    oy < h,
                    ox == col * size,
                    ox < w,
                    list@ == case_table()[terrain.index_seq()[row as int * (tw as int - 1)
                        + col as int] as int],
                    list_len == list@.len(),
                    list_len <= 18,
                    kk <= 3,
                    forall|px: int, py: int|
                        0 <= px < w && 0 <= py < h ==> #[trigger] pixel_of(*frame, px, py) == (
                        if covers_before(*terrain, size, px, py, row as int, col as int)
                            || cell_covers_upto(
                            list@,
                            ox as int,
                            oy as int,
                            size,
                            px,
                            py,
                            kk as int,
                        ) {
                            color@
                        } else {
                            pixel_of(*old(frame), px, py)
                        }),
                decreases list_len - 6 * kk,
            {
                let base = 6 * kk;
                let vx0 = ox + scale_half(list[base], square_size);
                let vy0 = oy + scale_half(list[base + 1], square_size);
                let vx1 = ox + scale_half(list[base + 2], square_size);
                let vy1 = oy + scale_half(list[base + 3], square_size);
                let vx2 = ox + scale_half(list[base + 4], square_size);
                let vy2 = oy + scale_half(list[base + 5], square_size);
                render_triangle(frame, vx0, vy0, vx1, vy1, vx2, vy2, color);
                proof {
                    assert(vx0 as int == vertex_coord(ox as int, list@[6 * kk as int], size));
                    assert forall|px: int, py: int|
                        0 <= px < w && 0 <= py < h implies #[trigger] pixel_of(*frame, px, py)
                        == (if covers_before(*terrain, size, px, py, row as int, col as int)
                        || cell_covers_upto(
                        list@,
                        ox as int,
                        oy as int,
                        size,
                        px,
                        py,
                        kk as int + 1,
                    ) {
                        color@
                    } else {
                        pixel_of(*old(frame), px, py)
                    }) by {
                        if inside_triangle(
                            px,
                            py,
                            vx0 as int,
                            vy0 as int,
                            vx1 as int,
                            vy1 as int,
                            vx2 as int,
                            vy2 as int,
                        ) {
                            assert(cell_triangle_inside(
                                list@,
                                kk as int,
                                ox as int,
                                oy as int,
                                size,
                                px,
                                py,
                            ));
                        }
                    }
                }
                kk += 1;
            }
            proof {
                assert forall|px: int, py: int|
                    0 <= px < w && 0 <= py < h implies #[trigger] pixel_of(*frame, px, py) == (
                if covers_before(*terrain, size, px, py, row as int, col as int + 1) {
                    color@
                } else {
                    pixel_of(*old(frame), px, py)
                }) by {
                    if cell_covers(*terrain, size, row as int, col as int, px, py) {
                        let k = choose|k: int|
                            0 <= k && 6 * k + 6 <= list@.len() && #[trigger] cell_triangle_inside(
                                list@,
                                k,
                                col as int * size,
                                row as int * size,
                                size,
                                px,
                                py,
                            );
                        assert(6 * k + 6 <= 6 * (kk as int));
                        assert(cell_covers_upto(
                            list@,
                            ox as int,
                            oy as int,
                            size,
                            px,
                            py,
                            kk as int,
                        ));
                    }
                    if cell_covers_upto(list@, ox as int, oy as int, size, px, py, kk as int) {
                        assert(cell_covers(*terrain, size, row as int, col as int, px, py));
                    }
                }
            }
            col += 1;
        }
        row += 1;
    }
}

/// Grid step used to overlay the cell boundaries of a `tw x th` terrain on
/// a `fw x fh` frame: the frame's smaller direction divided by the cell
/// count there.
pub open spec fn terrain_grid_step(fw: int, fh: int, tw: int, th: int) -> int {
    if fw < fh {
        fw / (tw - 1)
    } else {
        fh / (th - 1)
    }
}

/// Overlays the terrain's cell boundaries: one-pixel grid lines at every
/// multiple of the cell edge. The frame must be large enough for at least a
/// one-pixel cell edge.
pub fn render_terrain_grid(frame: &mut Frame, terrain: &Terrain, color: &[u8; 4])
    requires
        old(frame).wf(),
        terrain.wf(),
        terrain_grid_step(
            old(frame).width as int,
            old(frame).height as int,
            terrain.spec_width(),
            terrain.spec_height(),
        ) >= 1,
    ensures
        final(frame).wf(),
        same_dims(*old(frame), *final(frame)),
        forall|px: int, py: int|
            0 <= px < old(frame).width && 0 <= py < old(frame).height
                ==> #[trigger] pixel_of(*final(frame), px, py) == (if grid_covers(
                    old(frame).width as int,
                    old(frame).height as int,
                    terrain_grid_step(
                        old(frame).width as int,
                        old(frame).height as int,
                        terrain.spec_width(),
                        terrain.spec_height(),
                    ),
                    px,
                    py,
                ) {
                    color@
                } else {
                    pixel_of(*old(frame), px, py)
                }),
{
    let mut square_size = frame.height / (terrain.height() - 1);
    if frame.width < frame.height {
        square_size = frame.width / (terrain.width() - 1);
    }
    render_grid(frame, square_size, color);
}

/// Rendering reads the terrain only through its dimensions and its index
/// grid: two terrains that agree on those are covered identically, so edits
/// that produce the same index grid — such as writing the same sample twice
/// instead of once — rasterize to the same pixels.
pub proof fn lemma_same_grid_same_coverage(a: Terrain, b: Terrain, size: int, px: int, py: int)
    requires
        a.spec_width() == b.spec_width(),
        a.spec_height() == b.spec_height(),
        a.index_seq() == b.index_seq(),
    ensures
        terrain_covers(a, size, px, py) == terrain_covers(b, size, px, py),
{
    assert forall|r: int, c: int|
        0 <= r < a.spec_height() - 1 && 0 <= c < a.spec_width() - 1 implies #[trigger] cell_covers(
        a,
        size,
        r,
        c,
        px,
        py,
    ) == cell_covers(b, size, r, c, px, py) by {
        if cell_covers(a, size, r, c, px, py) {
            assert(cell_covers(b, size, r, c, px, py));
        }
        if cell_covers(b, size, r, c, px, py) {
            assert(cell_covers(a, size, r, c, px, py));
        }
    }
    if terrain_covers(a, size, px, py) {
        let (r, c) = choose|r: int, c: int|
            0 <= r < a.spec_height() - 1 && 0 <= c < a.spec_width() - 1 && #[trigger] cell_covers(
                a,
                size,
                r,
                c,
                px,
                py,
            );
        assert(cell_covers(b, size, r, c, px, py));
        assert(terrain_covers(b, size, px, py));
    }
    if terrain_covers(b, size, px, py) {
        let (r, c) = choose|r: int, c: int|
            0 <= r < b.spec_height() - 1 && 0 <= c < b.spec_width() - 1 && #[trigger] cell_covers(
                b,
                size,
                r,
                c,
                px,
                py,
            );
        assert(cell_covers(a, size, r, c, px, py));
        assert(terrain_covers(a, size, px, py));
    }
}

} // verus!
