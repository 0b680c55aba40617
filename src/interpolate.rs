use vstd::arithmetic::div_mod::{lemma_div_is_ordered, lemma_div_multiples_vanish};
use vstd::arithmetic::mul::lemma_mul_inequality;
use vstd::prelude::*;

verus! {

/// The fixed-point value of the fraction 1.0 (parts per million).
pub const FRACTION_ONE: i32 = 1_000_000;

/// The value of the segment from `(x0, y0)` to `(x1, y1)` at `x`.
///
/// Below `x0` it is `y0`, above `x1` it is `y1`; in between it moves from
/// `y0` towards `y1` by `(x - x0) / (x1 - x0)` of the rise, the fraction of
/// a unit left over being dropped (the result is rounded towards `y0`).
pub open spec fn interp(x0: int, y0: int, x1: int, y1: int, x: int) -> int {
    if x <= x0 {
        y0
    } else if x >= x1 {
        y1
    } else if y0 <= y1 {
        y0 + (x - x0) * (y1 - y0) / (x1 - x0)
    } else {
        y0 - (x - x0) * (y0 - y1) / (x1 - x0)
    }
}

/// `step = d * span / w` stays within `span` when `d <= w`.
proof fn lemma_step_bounded(d: int, span: int, w: int)
    requires
        0 <= d <= w,
        0 < w,
        0 <= span,
    ensures
        0 <= d * span / w <= span,
{
    lemma_mul_inequality(d, w, span);
    assert(d * span <= w * span);
    assert(0 <= d * span) by (nonlinear_arith)
        requires
            0 <= d,
            0 <= span,
    ;
    lemma_div_is_ordered(0, d * span, w);
    lemma_div_is_ordered(d * span, w * span, w);
    assert(w * span == span * w) by (nonlinear_arith);
    lemma_div_multiples_vanish(span, w);
}

/// Linear interpolation between two calibration points, clamped to the
/// end values outside `[x0, x1]`. No input is rejected: where `x0 >= x1`
/// every `x` lies on one of the clamped sides.
pub fn interpolate_segment(x0: u32, y0: i32, x1: u32, y1: i32, x: u32) -> (r: i32)
    ensures
        r as int == interp(x0 as int, y0 as int, x1 as int, y1 as int, x as int),
{
    if x <= x0 {
        return y0;
    }
    if x >= x1 {
        return y1;
    }
    let d: u64 = (x - x0) as u64;
    let w: u64 = (x1 - x0) as u64;
    if y0 <= y1 {
        let span: u64 = (y1 as i64 - y0 as i64) as u64;
        assert(d * span <= u32::MAX as int * u32::MAX as int) by (nonlinear_arith)
            requires
                d <= u32::MAX,
                span <= u32::MAX,
        ;
        let step: u64 = d * span / w;
        proof {
            lemma_step_bounded(d as int, span as int, w as int);
        }
        (y0 as i64 + step as i64) as i32
    } else {
        let span: u64 = (y0 as i64 - y1 as i64) as u64;
        assert(d * span <= u32::MAX as int * u32::MAX as int) by (nonlinear_arith)
            requires
                d <= u32::MAX,
                span <= u32::MAX,
        ;
        let step: u64 = d * span / w;
        proof {
            lemma_step_bounded(d as int, span as int, w as int);
        }
        (y0 as i64 - step as i64) as i32
    }
}

/// At or below the left end the interpolator gives exactly `y0`; at or
/// above the right end it gives exactly `y1`.
pub proof fn lemma_clamp(x0: int, y0: int, x1: int, y1: int, x: int)
    ensures
        x <= x0 ==> interp(x0, y0, x1, y1, x) == y0,
        x0 < x1 && x >= x1 ==> interp(x0, y0, x1, y1, x) == y1,
{
}

/// Over a segment that rises (`y0 <= y1`), a larger `x` never gives a
/// smaller value.
pub proof fn lemma_monotonic_rising(x0: int, y0: int, x1: int, y1: int, xa: int, xb: int)
    requires
        x0 < x1,
        y0 <= y1,
        xa <= xb,
    ensures
        interp(x0, y0, x1, y1, xa) <= interp(x0, y0, x1, y1, xb),
{
    let w = x1 - x0;
    let span = y1 - y0;
    if x0 < xa && xa < x1 {
        lemma_step_bounded(xa - x0, span, w);
        if xb < x1 {
            lemma_step_bounded(xb - x0, span, w);
            lemma_mul_inequality(xa - x0, xb - x0, span);
            lemma_div_is_ordered((xa - x0) * span, (xb - x0) * span, w);
        }
    } else if x0 < xb && xb < x1 {
        lemma_step_bounded(xb - x0, span, w);
    }
}

/// Over a segment that falls (`y0 >= y1`), a larger `x` never gives a
/// larger value.
pub proof fn lemma_monotonic_falling(x0: int, y0: int, x1: int, y1: int, xa: int, xb: int)
    requires
        x0 < x1,
        y0 >= y1,
        xa <= xb,
    ensures
        interp(x0, y0, x1, y1, xa) >= interp(x0, y0, x1, y1, xb),
{
    let w = x1 - x0;
    let span = y0 - y1;
    if x0 < xa && xa < x1 {
        lemma_step_bounded(xa - x0, span, w);
        if xb < x1 {
            lemma_step_bounded(xb - x0, span, w);
            lemma_mul_inequality(xa - x0, xb - x0, span);
            lemma_div_is_ordered((xa - x0) * span, (xb - x0) * span, w);
        }
    } else if x0 < xb && xb < x1 {
        lemma_step_bounded(xb - x0, span, w);
    }
}

} // verus!
