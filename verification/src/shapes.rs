//! Pixel geometry of a rounded rectangle: which pixels of its corner squares
//! lie outside the rounding.
use vstd::prelude::*;

verus! {

/// The pixel `(x, y)` lies outside the circle of radius `r` around `(cx, cy)`.
pub open spec fn outside_circle(x: int, y: int, cx: int, cy: int, r: int) -> bool {
    (x - cx) * (x - cx) + (y - cy) * (y - cy) > r * r
}

/// The pixels `(x, y)` with `xs <= x < xe`, left to right, that lie outside the
/// circle.
pub open spec fn row_outside(y: int, xs: int, xe: int, cx: int, cy: int, r: int) -> Seq<(i32, i32)>
    decreases xe - xs,
{
    if xe <= xs {
        Seq::empty()
    } else {
        let rest = row_outside(y, xs, xe - 1, cx, cy, r);
        if outside_circle(xe - 1, y, cx, cy, r) {
            rest.push(((xe - 1) as i32, y as i32))
        } else {
            rest
        }
    }
}

/// The pixels of rows `ys <= y < ye` (top to bottom) and columns
/// `xs <= x < xs + r` (left to right) that lie outside the circle.
pub open spec fn square_outside(xs: int, ys: int, ye: int, cx: int, cy: int, r: int) -> Seq<(i32, i32)>
    decreases ye - ys,
{
    if ye <= ys {
        Seq::empty()
    } else {
        square_outside(xs, ys, ye - 1, cx, cy, r) + row_outside(ye - 1, xs, xs + r, cx, cy, r)
    }
}

/// The inputs on which the corner arithmetic stays within `i32`: the square of
/// the radius, the corner centres `x0 + r`, `y0 + r`, `x1 - r`, `y1 - r`, and,
/// for a positive radius, the squared distance `2 r^2` of a square's far corner.
pub open spec fn corner_bounds_ok(x0: i32, y0: i32, x1: i32, y1: i32, radius: i32) -> bool {
    &&& radius * radius <= i32::MAX
    &&& radius > 0 ==> 2 * radius * radius <= i32::MAX
    &&& i32::MIN <= x0 + radius <= i32::MAX
    &&& i32::MIN <= y0 + radius <= i32::MAX
    &&& i32::MIN <= x1 - radius <= i32::MAX
    &&& i32::MIN <= y1 - radius <= i32::MAX
}

/// The pixels to repaint with the background so that the rectangle
/// `[x0, x1) x [y0, y1)` gets rounded corners of radius `r`: in each corner
/// square of side `r` (top-left, top-right, bottom-left, bottom-right), the
/// pixels farther than `r` from the centre of the rounding.
pub open spec fn rounded_corner_cutouts_spec(x0: int, y0: int, x1: int, y1: int, r: int) -> Seq<(i32, i32)> {
    square_outside(x0, y0, y0 + r, x0 + r, y0 + r, r) + square_outside(x1 - r, y0, y0 + r, x1 - r, y0 + r, r)
        + square_outside(x0, y1 - r, y1, x0 + r, y1 - r, r) + square_outside(x1 - r, y1 - r, y1, x1 - r, y1 - r, r)
}

/// The pixels of one corner square outside the circle around `(cx, cy)`.
fn square_cutouts(out: &mut Vec<(i32, i32)>, xs: i32, ys: i32, r: i32, cx: i32, cy: i32)
    requires
        0 <= r <= 32767,
        xs + r <= i32::MAX,
        ys + r <= i32::MAX,
        xs <= cx <= xs + r,
        ys <= cy <= ys + r,
    ensures
        final(out)@ == old(out)@ + square_outside(xs as int, ys as int, (ys + r) as int, cx as int, cy as int, r as int),
{
    let ghost start = out@;
    assert(r * r <= 32767 * 32767) by (nonlinear_arith)
        requires
            0 <= r <= 32767,
    ;
    let r2: i32 = r * r;
    let mut y: i32 = ys;
    assert(square_outside(xs as int, ys as int, ys as int, cx as int, cy as int, r as int) =~= Seq::empty());
    assert(start + Seq::<(i32, i32)>::empty() =~= start);
    while y < ys + r
        invariant
            0 <= r <= 32767,
            xs + r <= i32::MAX,
            ys + r <= i32::MAX,
            xs <= cx <= xs + r,
            ys <= cy <= ys + r,
            r2 == r * r,
            ys <= y <= ys + r,
            out@ == start + square_outside(xs as int, ys as int, y as int, cx as int, cy as int, r as int),
        decreases ys + r - y,
    {
        let ghost row_start = out@;
        let mut x: i32 = xs;
        assert(row_outside(y as int, xs as int, xs as int, cx as int, cy as int, r as int) =~= Seq::empty());
        assert(row_start + Seq::<(i32, i32)>::empty() =~= row_start);
        while x < xs + r
            invariant
                0 <= r <= 32767,
                xs + r <= i32::MAX,
                ys + r <= i32::MAX,
                xs <= cx <= xs + r,
                ys <= cy <= ys + r,
                ys <= y < ys + r,
                r2 == r * r,
                xs <= x <= xs + r,
                out@ == row_start + row_outside(y as int, xs as int, x as int, cx as int, cy as int, r as int),
            decreases xs + r - x,
        {
            let dx = x - cx;
            let dy = y - cy;
            assert(-r <= dx <= r && -r <= dy <= r);
            assert(dx * dx <= r * r) by (nonlinear_arith)
                requires
                    -r <= dx <= r,
                    0 <= r,
            ;
            assert(dy * dy <= r * r) by (nonlinear_arith)
                requires
                    -r <= dy <= r,
                    0 <= r,
            ;
            assert(r * r <= 32767 * 32767) by (nonlinear_arith)
                requires
                    0 <= r <= 32767,
            ;
            assert(dx * dx >= 0 && dy * dy >= 0) by (nonlinear_arith);
            if dx * dx + dy * dy > r2 {
                out.push((x, y));
            }
            assert(out@ =~= row_start + row_outside(y as int, xs as int, x + 1, cx as int, cy as int, r as int));
            x = x + 1;
        }
        assert(out@ =~= start + square_outside(xs as int, ys as int, y + 1, cx as int, cy as int, r as int));
        y = y + 1;
    }
}

/// The pixels to repaint with the background to round the corners of the
/// rectangle `[x0, x1) x [y0, y1)` with radius `radius`, corner by corner in
/// the order top-left, top-right, bottom-left, bottom-right, each row by row.
pub fn rounded_corner_cutouts(x0: i32, y0: i32, x1: i32, y1: i32, radius: i32) -> (r: Vec<(i32, i32)>)
    requires
        corner_bounds_ok(x0, y0, x1, y1, radius),
    ensures
        r@ == rounded_corner_cutouts_spec(x0 as int, y0 as int, x1 as int, y1 as int, radius as int),
{
    let mut out: Vec<(i32, i32)> = Vec::new();
    let r = radius;
    if r <= 0 {
        // No corner square has a pixel.
        assert(rounded_corner_cutouts_spec(x0 as int, y0 as int, x1 as int, y1 as int, r as int) =~= Seq::empty());
        return out;
    }
    assert(r <= 32767) by (nonlinear_arith)
        requires
            r > 0,
            2 * r * r <= i32::MAX,
    ;
    square_cutouts(&mut out, x0, y0, r, x0 + r, y0 + r);
    square_cutouts(&mut out, x1 - r, y0, r, x1 - r, y0 + r);
    square_cutouts(&mut out, x0, y1 - r, r, x0 + r, y1 - r);
    square_cutouts(&mut out, x1 - r, y1 - r, r, x1 - r, y1 - r);
    assert(out@ =~= rounded_corner_cutouts_spec(x0 as int, y0 as int, x1 as int, y1 as int, radius as int));
    out
}

} // verus!
