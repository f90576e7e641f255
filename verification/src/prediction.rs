//! Plane prediction.
//!
//! Rewrites a `width x height` grid of unsigned 16-bit samples into the
//! signed residuals against a neighborhood prediction. The first value
//! stays the raw height, as it cannot be predicted. Every prediction is
//! computed from original (un-residualized) neighbor values, so the
//! transform is exactly invertible.

use vstd::arithmetic::div_mod::lemma_fundamental_div_mod;
use vstd::arithmetic::mul::lemma_mul_inequality;
use vstd::prelude::*;

use crate::sign::{
    as_signed16, as_unsigned16, i16_to_u16, lemma_sign_round_trip, u16_to_i16, wrap_i32_to_i16,
    wrap_signed16,
};
use crate::{Error, Heightmap};

verus! {

/// The prediction for the pixel at linear index `i >= 1` of a row-major
/// grid of width `w`, reading earlier grid values as signed 16-bit bit
/// patterns:
/// - `(1,0)` and `(0,1)` are predicted by the first pixel;
/// - the rest of the first row and first column by linear extrapolation
///   along that row or column;
/// - interior pixels by the plane through left, top and top-left.
pub open spec fn prediction_at(s: Seq<u16>, w: int, i: int) -> int {
    if i == 1 || i == w {
        as_signed16(s[0] as int)
    } else if i < w {
        2 * as_signed16(s[i - 1] as int) - as_signed16(s[i - 2] as int)
    } else if i % w == 0 {
        2 * as_signed16(s[i - w] as int) - as_signed16(s[i - 2 * w] as int)
    } else {
        as_signed16(s[i - w] as int) + as_signed16(s[i - 1] as int) - as_signed16(
            s[i - w - 1] as int,
        )
    }
}

/// The residual of pixel `i >= 1`: its actual value minus its prediction.
pub open spec fn delta_at(s: Seq<u16>, w: int, i: int) -> int {
    s[i] - prediction_at(s, w, i)
}

/// Minimum residual over pixels `1..n` (for `n >= 2`).
pub open spec fn min_delta_upto(s: Seq<u16>, w: int, n: int) -> int
    decreases n,
{
    if n <= 2 {
        delta_at(s, w, 1)
    } else {
        let m = min_delta_upto(s, w, n - 1);
        let d = delta_at(s, w, n - 1);
        if d < m {
            d
        } else {
            m
        }
    }
}

/// Maximum residual over pixels `1..n` (for `n >= 2`).
pub open spec fn max_delta_upto(s: Seq<u16>, w: int, n: int) -> int
    decreases n,
{
    if n <= 2 {
        delta_at(s, w, 1)
    } else {
        let m = max_delta_upto(s, w, n - 1);
        let d = delta_at(s, w, n - 1);
        if d > m {
            d
        } else {
            m
        }
    }
}

/// The encoder accepts a grid exactly when every residual fits in a
/// signed 16-bit value.
pub open spec fn variance_ok(s: Seq<u16>, w: int, h: int) -> bool {
    &&& min_delta_upto(s, w, w * h) >= -0x8000
    &&& max_delta_upto(s, w, w * h) <= 0x7fff
}

/// A residual grid `r` is the prediction transform of the sample grid `s`.
pub open spec fn is_residual_grid(s: Seq<u16>, w: int, r: Seq<i16>) -> bool {
    &&& r.len() == s.len()
    &&& r[0] as int == as_signed16(s[0] as int)
    &&& forall|i: int| 1 <= i < r.len() ==> r[i] as int == #[trigger] delta_at(s, w, i)
}

/// The grid restored from the residuals `r`, pixel by pixel in row-major
/// order: each pixel is its prediction (from the already-restored prefix)
/// plus its residual, truncated to 16 bits.
pub open spec fn decoded_prefix(r: Seq<i16>, w: int, n: int) -> Seq<u16>
    decreases n,
{
    if n <= 0 {
        Seq::empty()
    } else if n == 1 {
        seq![as_unsigned16(r[0] as int) as u16]
    } else {
        let g = decoded_prefix(r, w, n - 1);
        g.push(as_unsigned16(wrap_signed16(prediction_at(g, w, n - 1) + r[n - 1])) as u16)
    }
}

proof fn lemma_multiple_above_is_double(i: int, w: int)
    requires
        w >= 1,
        i % w == 0,
        i > w,
    ensures
        i >= 2 * w,
{
    lemma_fundamental_div_mod(i, w);
    let q = i / w;
    assert(i == w * q);
    assert(q >= 2) by (nonlinear_arith)
        requires
            w >= 1,
            w * q > w,
    ;
    assert(w * q >= 2 * w) by (nonlinear_arith)
        requires
            w >= 1,
            q >= 2,
    ;
}

/// Every index that `prediction_at(s, w, i)` reads is below `i`; so two
/// grids that agree below `i` get the same prediction there.
proof fn lemma_prediction_agrees(g: Seq<u16>, s: Seq<u16>, w: int, i: int)
    requires
        w >= 3,
        1 <= i,
        forall|j: int| 0 <= j < i ==> g[j] == s[j],
    ensures
        prediction_at(g, w, i) == prediction_at(s, w, i),
{
    if i == 1 || i == w || i < w {
    } else if i % w == 0 {
        lemma_multiple_above_is_double(i, w);
    } else {
        vstd::arithmetic::div_mod::lemma_mod_bound(i, w);
    }
}

/// The exact prediction for pixel `i`, read from the first `i` entries of
/// `g`.
fn prediction_value(g: &Vec<u16>, width: usize, i: usize) -> (p: i32)
    requires
        3 <= width,
        1 <= i <= g@.len(),
    ensures
        p == prediction_at(g@, width as int, i as int),
        -0x18000 <= p <= 0x17fff,
{
    proof {
        if i as int % width as int == 0 && i > width {
            lemma_multiple_above_is_double(i as int, width as int);
        }
    }
    if i == 1 || i == width {
        predict_none(u16_to_i16(g[0]))
    } else if i < width {
        predict_linear(u16_to_i16(g[i - 1]), u16_to_i16(g[i - 2]))
    } else if i % width == 0 {
        predict_linear(u16_to_i16(g[i - width]), u16_to_i16(g[i - 2 * width]))
    } else {
        predict_plane(
            u16_to_i16(g[i - 1]),
            u16_to_i16(g[i - width]),
            u16_to_i16(g[i - width - 1]),
        )
    }
}

/// Bounds every residual between the running minimum and maximum.
pub proof fn lemma_delta_bounds(s: Seq<u16>, w: int, n: int, i: int)
    requires
        1 <= i < n,
        2 <= n,
    ensures
        min_delta_upto(s, w, n) <= delta_at(s, w, i) <= max_delta_upto(s, w, n),
    decreases n,
{
    if n > 2 && i < n - 1 {
        lemma_delta_bounds(s, w, n - 1, i);
    }
}

/// On a grid whose pixels are all the same value (below 0x8000, so the
/// signed reading is the value itself) every residual is zero: only the
/// first cell carries information.
pub proof fn lemma_constant_grid_zero_residuals(s: Seq<u16>, w: int, h: int)
    requires
        3 <= w,
        3 <= h,
        s.len() == w * h,
        s[0] < 0x8000,
        forall|j: int| 0 <= j < s.len() ==> #[trigger] s[j] == s[0],
    ensures
        forall|i: int| 1 <= i < s.len() ==> #[trigger] delta_at(s, w, i) == 0,
{
    assert forall|i: int| 1 <= i < s.len() implies #[trigger] delta_at(s, w, i) == 0 by {
        lemma_prediction_reads(s, w, h, i);
    }
}

/// Helper: for any grid index, the prediction only reads cells at
/// indices below it and inside the grid, so on a constant grid it
/// equals the signed reading of the constant.
proof fn lemma_prediction_reads(s: Seq<u16>, w: int, h: int, i: int)
    requires
        3 <= w,
        3 <= h,
        s.len() == w * h,
        s[0] < 0x8000,
        forall|j: int| 0 <= j < s.len() ==> #[trigger] s[j] == s[0],
        1 <= i < s.len(),
    ensures
        prediction_at(s, w, i) == s[0],
        delta_at(s, w, i) == 0,
{
    if i == 1 || i == w || i < w {
    } else if i % w == 0 {
        lemma_multiple_above_is_double(i, w);
    } else {
        vstd::arithmetic::div_mod::lemma_mod_bound(i, w);
    }
}

/// The sample at `(x, y)` of an affine grid, with its range bound.
proof fn lemma_affine_value(s: Seq<u16>, w: int, h: int, a: int, b: int, c: int, x: int, y: int)
    requires
        3 <= w,
        3 <= h,
        s.len() == w * h,
        forall|x0: int, y0: int|
            0 <= x0 < w && 0 <= y0 < h ==> (#[trigger] s[y0 * w + x0]) == a + b * x0 + c * y0,
        0 <= a < 0x8000,
        0 <= a + b * (w - 1) + c * (h - 1) < 0x8000,
        0 <= b,
        0 <= c,
        0 <= x < w,
        0 <= y < h,
    ensures
        s[y * w + x] == a + b * x + c * y,
        0 <= a + b * x + c * y < 0x8000,
{
    assert(s[y * w + x] == a + b * x + c * y);
    lemma_mul_inequality(x, w - 1, b);
    lemma_mul_inequality(y, h - 1, c);
    lemma_mul_inequality(0, x, b);
    lemma_mul_inequality(0, y, c);
    assert(x * b == b * x && (w - 1) * b == b * (w - 1)) by (nonlinear_arith);
    assert(y * c == c * y && (h - 1) * c == c * (h - 1)) by (nonlinear_arith);
}

/// On a grid that is affine in the pixel coordinates — a monotone ramp
/// with constant steps, all values below 0x8000 — the linear and plane
/// predictors are exact: every residual is zero except at the two
/// pixels predicted by the first sample, which carry the two steps.
pub proof fn lemma_affine_grid_residuals(s: Seq<u16>, w: int, h: int, a: int, b: int, c: int)
    requires
        3 <= w,
        3 <= h,
        s.len() == w * h,
        forall|x0: int, y0: int|
            0 <= x0 < w && 0 <= y0 < h ==> (#[trigger] s[y0 * w + x0]) == a + b * x0 + c * y0,
        0 <= a < 0x8000,
        0 <= a + b * (w - 1) + c * (h - 1) < 0x8000,
        0 <= b,
        0 <= c,
    ensures
        forall|i: int|
            1 <= i < s.len() && i != 1 && i != w ==> #[trigger] delta_at(s, w, i) == 0,
        delta_at(s, w, 1) == b,
        delta_at(s, w, w) == c,
{
    assert forall|i: int|
        1 <= i < s.len() && i != 1 && i != w implies #[trigger] delta_at(s, w, i) == 0 by {
        lemma_affine_cell(s, w, h, a, b, c, i);
    }
    lemma_affine_value(s, w, h, a, b, c, 0, 0);
    lemma_affine_value(s, w, h, a, b, c, 1, 0);
    lemma_affine_value(s, w, h, a, b, c, 0, 1);
}

proof fn lemma_affine_cell(s: Seq<u16>, w: int, h: int, a: int, b: int, c: int, i: int)
    requires
        3 <= w,
        3 <= h,
        s.len() == w * h,
        forall|x0: int, y0: int|
            0 <= x0 < w && 0 <= y0 < h ==> (#[trigger] s[y0 * w + x0]) == a + b * x0 + c * y0,
        0 <= a < 0x8000,
        0 <= a + b * (w - 1) + c * (h - 1) < 0x8000,
        0 <= b,
        0 <= c,
        1 <= i < s.len(),
        i != 1,
        i != w,
    ensures
        delta_at(s, w, i) == 0,
{
    let x = i % w;
    let y = i / w;
    lemma_fundamental_div_mod(i, w);
    vstd::arithmetic::div_mod::lemma_mod_bound(i, w);
    assert(y >= 0 && y < h) by {
        if y < 0 {
            lemma_mul_inequality(y, -1, w);
            assert(y * w == w * y && (-1) * w == w * (-1)) by (nonlinear_arith);
        }
        if y >= h {
            lemma_mul_inequality(h, y, w);
            assert(h * w == w * h && y * w == w * y) by (nonlinear_arith);
        }
    }
    lemma_affine_value(s, w, h, a, b, c, x, y);
    assert(y * w == w * y) by (nonlinear_arith);
    assert(s[i] == a + b * x + c * y) by {
        assert(y * w + x == i);
    }
    if i < w {
        // First row: i == x and y == 0, predicted linearly.
        assert(y == 0 && x == i) by (nonlinear_arith)
            requires
                w >= 1,
                i == w * y + x,
                0 <= x < w,
                0 <= i < w,
                y >= 0,
        ;
        lemma_affine_value(s, w, h, a, b, c, i - 1, 0);
        lemma_affine_value(s, w, h, a, b, c, i - 2, 0);
        assert(b * i == b * (i - 1) + b && b * (i - 1) == b * (i - 2) + b) by (nonlinear_arith);
    } else if i % w == 0 {
        // First column: x == 0 and y >= 2, predicted linearly.
        lemma_multiple_above_is_double(i, w);
        assert(y >= 2) by (nonlinear_arith)
            requires
                w >= 1,
                i == w * y,
                i >= 2 * w,
                y >= 0,
        ;
        lemma_affine_value(s, w, h, a, b, c, 0, y - 1);
        lemma_affine_value(s, w, h, a, b, c, 0, y - 2);
        assert((y - 1) * w == y * w - w && (y - 2) * w == y * w - 2 * w) by (nonlinear_arith);
        assert(c * y == c * (y - 1) + c && c * (y - 1) == c * (y - 2) + c) by (nonlinear_arith);
    } else {
        // Interior: the plane through left, top and top-left is exact.
        assert(y >= 1) by (nonlinear_arith)
            requires
                w >= 1,
                i == w * y + x,
                0 <= x < w,
                i >= w,
                y >= 0,
        ;
        lemma_affine_value(s, w, h, a, b, c, x, y - 1);
        lemma_affine_value(s, w, h, a, b, c, x - 1, y - 1);
        lemma_affine_value(s, w, h, a, b, c, x - 1, y);
        assert((y - 1) * w == y * w - w) by (nonlinear_arith);
        assert(b * x == b * (x - 1) + b) by (nonlinear_arith);
        assert(c * y == c * (y - 1) + c) by (nonlinear_arith);
        assert(i - w == (y - 1) * w + x && i - 1 == y * w + (x - 1) && i - w - 1 == (y - 1) * w + (
        x - 1));
    }
}


/// The maximum residual is attained by some pixel.
pub proof fn lemma_max_delta_attained(s: Seq<u16>, w: int, n: int)
    requires
        2 <= n,
    ensures
        exists|i: int| 1 <= i < n && #[trigger] delta_at(s, w, i) == max_delta_upto(s, w, n),
    decreases n,
{
    if n <= 2 {
        assert(delta_at(s, w, 1) == max_delta_upto(s, w, n));
    } else {
        lemma_max_delta_attained(s, w, n - 1);
        if delta_at(s, w, n - 1) > max_delta_upto(s, w, n - 1) {
            assert(delta_at(s, w, n - 1) == max_delta_upto(s, w, n));
        } else {
            let i = choose|i: int|
                1 <= i < n - 1 && #[trigger] delta_at(s, w, i) == max_delta_upto(s, w, n - 1);
            assert(delta_at(s, w, i) == max_delta_upto(s, w, n));
        }
    }
}

/// Transform a grid of raw samples into the residual grid.
///
/// Fails exactly when some residual falls outside the signed 16-bit
/// range, reporting the extreme residuals seen.
pub fn transform_prediction(data: Vec<u16>, width: u32, height: u32) -> (r: Result<Vec<i16>, Error>)
    requires
        width >= 3,
        height >= 3,
        data@.len() == width * height,
    ensures
        match r {
            Ok(res) => {
                &&& variance_ok(data@, width as int, height as int)
                &&& is_residual_grid(data@, width as int, res@)
            },
            Err(e) => {
                &&& !variance_ok(data@, width as int, height as int)
                &&& e matches Error::VarianceTooHigh { min_delta, max_delta } && min_delta as int
                    == min_delta_upto(data@, width as int, data@.len() as int) && max_delta as int
                    == max_delta_upto(data@, width as int, data@.len() as int)
            },
        },
{
    let w = width as usize;
    let n = data.len();
    let ghost ws = width as int;
    proof {
        lemma_mul_inequality(3, width as int, height as int);
    }

    let mut min_d: i32 = i32::MAX;
    let mut max_d: i32 = i32::MIN;
    let mut i: usize = 1;
    while i < n
        invariant
            1 <= i <= n,
            2 <= n,
            n == data@.len(),
            3 <= w == width,
            ws == w as int,
            i > 1 ==> min_d as int == min_delta_upto(data@, ws, i as int),
            i > 1 ==> max_d as int == max_delta_upto(data@, ws, i as int),
            i == 1 ==> min_d == i32::MAX && max_d == i32::MIN,
        decreases n - i,
    {
        let p = prediction_value(&data, w, i);
        let d = (data[i] as i32) - p;
        assert(d as int == delta_at(data@, ws, i as int));
        if d < min_d {
            min_d = d;
        }
        if d > max_d {
            max_d = d;
        }
        i = i + 1;
    }

    if min_d >= -0x8000 && max_d <= 0x7fff {
        let mut res: Vec<i16> = Vec::new();
        res.push(u16_to_i16(data[0]));
        let mut i: usize = 1;
        while i < n
            invariant
                1 <= i <= n,
                n == data@.len(),
                3 <= w == width,
                ws == w as int,
                n >= 2,
                min_delta_upto(data@, ws, n as int) >= -0x8000,
                max_delta_upto(data@, ws, n as int) <= 0x7fff,
                res@.len() == i,
                res@[0] as int == as_signed16(data@[0] as int),
                forall|j: int| 1 <= j < i ==> #[trigger] (res@[j] as int) == delta_at(data@, ws, j),
            decreases n - i,
        {
            let p = prediction_value(&data, w, i);
            let d = (data[i] as i32) - p;
            proof {
                lemma_delta_bounds(data@, ws, n as int, i as int);
            }
            res.push(d as i16);
            i = i + 1;
        }
        Ok(res)
    } else {
        Err(Error::VarianceTooHigh { min_delta: min_d, max_delta: max_d })
    }
}

/// Restore the sample grid from a residual grid.
pub fn decode_prediction(data: Vec<i16>, width: u32, height: u32) -> (r: Heightmap)
    requires
        width >= 3,
        height >= 3,
        data@.len() == width * height,
    ensures
        r.width == width,
        r.height == height,
        r.data@.len() == data@.len(),
        r.data@ == decoded_prefix(data@, width as int, data@.len() as int),
{
    let w = width as usize;
    let n = data.len();
    let ghost ws = width as int;
    proof {
        lemma_mul_inequality(3, width as int, height as int);
    }

    let mut out: Vec<u16> = Vec::new();
    out.push(i16_to_u16(data[0]));
    assert(out@ =~= decoded_prefix(data@, ws, 1));
    let mut i: usize = 1;
    while i < n
        invariant
            1 <= i <= n,
            n == data@.len(),
            3 <= w == width,
            ws == w as int,
            out@ == decoded_prefix(data@, ws, i as int),
            out@.len() == i,
        decreases n - i,
    {
        let p = prediction_value(&out, w, i);
        let v = wrap_i32_to_i16(p + (data[i] as i32));
        out.push(i16_to_u16(v));
        proof {
            assert(out@ =~= decoded_prefix(data@, ws, i + 1));
        }
        i = i + 1;
    }
    Heightmap { width, height, data: out }
}

/// A pixel with no usable neighbors is predicted by the previous value.
pub fn predict_none(previous: i16) -> (r: i32)
    ensures
        r as int == previous as int,
{
    previous as i32
}

/// Linear extrapolation from the previous two values along a row or
/// column.
pub fn predict_linear(previous: i16, previous_previous: i16) -> (r: i32)
    ensures
        r as int == 2 * (previous as int) - (previous_previous as int),
{
    let delta = previous as i32 - previous_previous as i32;
    previous as i32 + delta
}

/// Plane prediction from the left, top and top-left neighbors.
pub fn predict_plane(left: i16, top: i16, top_left: i16) -> (r: i32)
    ensures
        r as int == (top as int) + (left as int) - (top_left as int),
{
    let dhdy = left as i32 - top_left as i32;
    top as i32 + dhdy
}

/// Restoring the residual grid of `s` gives back exactly `s`: the
/// prediction transform is a bijection on the grids it accepts.
pub proof fn lemma_prediction_round_trip(s: Seq<u16>, w: int, h: int, r: Seq<i16>)
    requires
        3 <= w,
        3 <= h,
        s.len() == w * h,
        min_delta_upto(s, w, s.len() as int) >= -0x8000,
        max_delta_upto(s, w, s.len() as int) <= 0x7fff,
        is_residual_grid(s, w, r),
    ensures
        decoded_prefix(r, w, s.len() as int) == s,
{
    assert(s.len() >= 9) by {
        lemma_mul_inequality(3, w, h);
    }
    lemma_decoded_prefix_restores(s, w, r, s.len() as int);
    assert(decoded_prefix(r, w, s.len() as int) =~= s);
}

proof fn lemma_decoded_prefix_restores(s: Seq<u16>, w: int, r: Seq<i16>, n: int)
    requires
        3 <= w,
        s.len() >= 2,
        min_delta_upto(s, w, s.len() as int) >= -0x8000,
        max_delta_upto(s, w, s.len() as int) <= 0x7fff,
        is_residual_grid(s, w, r),
        1 <= n <= s.len(),
    ensures
        decoded_prefix(r, w, n) =~= s.take(n),
    decreases n,
{
    lemma_sign_round_trip(s[0] as int);
    if n > 1 {
        lemma_decoded_prefix_restores(s, w, r, n - 1);
        let g = decoded_prefix(r, w, n - 1);
        assert(forall|j: int| 0 <= j < n - 1 ==> g[j] == s[j]);
        lemma_prediction_agrees(g, s, w, n - 1);
        lemma_delta_bounds(s, w, s.len() as int, n - 1);
        assert(prediction_at(g, w, n - 1) + r[n - 1] == s[n - 1] as int);
        lemma_sign_round_trip(s[n - 1] as int);
    }
}

} // verus!
