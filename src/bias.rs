//! Canvas sizing and the directional bias of the growth.
//!
//! The acceptance test of a candidate neighbour draws an integer `r` uniformly
//! from `0..ACCEPT_SCALE` and accepts when `r / ACCEPT_SCALE` is below the push
//! factor. Without an axis the factor exceeds one: every candidate is accepted.
//! With an axis `a` and a radial vector `v` from the canvas centre to the parent
//! cell, the factor is `max(|cos(v, a)|, 0.45)`, and at the centre itself it
//! again exceeds one. Everything is compared exactly in integers.
use vstd::prelude::*;

verus! {

/// Number of equally likely values of one acceptance draw.
pub const ACCEPT_SCALE: u64 = 4096;

/// Largest doubled radial offset that the acceptance test takes.
pub const MAX_OFFSET: i64 = 262144;

/// `s` is the ceiling of the square root of `2.5 * area`.
pub open spec fn is_canvas_side(area: int, s: int) -> bool {
    &&& s >= 0
    &&& 2 * s * s >= 5 * area
    &&& (s == 0 || 2 * (s - 1) * (s - 1) < 5 * area)
}

/// Side of the square canvas for a growth of `area` pixels: `ceil(sqrt(2.5 * area))`.
pub fn canvas_side(area: u32) -> (s: u32)
    ensures
        is_canvas_side(area as int, s as int),
        s <= 103682,
{
    let target: u64 = 5 * area as u64;
    let mut s: u64 = 0;
    while 2 * s * s < target
        invariant
            target == 5 * area as int,
            target <= 5 * 4294967295u64,
            s <= 103682,
            s == 0 || 2 * (s - 1) * (s - 1) < target,
            2 * s * s <= 2 * 103682 * 103682,
        decreases 103682 - s,
    {
        assert(s < 103682) by (nonlinear_arith)
            requires
                2 * s * s < target,
                target <= 5 * 4294967295u64,
        ;
        s = s + 1;
        assert(2 * s * s <= 2 * 103682 * 103682) by (nonlinear_arith)
            requires
                s <= 103682,
        ;
    }
    s as u32
}

/// An optional growth axis with integer components.
pub open spec fn axis_int(axis: Option<(i32, i32)>) -> Option<(int, int)> {
    match axis {
        None => None,
        Some(a) => Some((a.0 as int, a.1 as int)),
    }
}

/// Whether an acceptance draw `r` admits a candidate neighbour, where `v` is
/// the doubled offset of the parent cell from the canvas centre.
pub open spec fn accepts(r: int, v: (int, int), axis: Option<(int, int)>) -> bool {
    match axis {
        None => true,
        Some(a) => {
            let dot = v.0 * a.0 + v.1 * a.1;
            let vv = v.0 * v.0 + v.1 * v.1;
            let aa = a.0 * a.0 + a.1 * a.1;
            v == (0int, 0int) || 20 * r < 9 * ACCEPT_SCALE || r * r * vv * aa < (ACCEPT_SCALE * ACCEPT_SCALE) * (dot * dot)
        },
    }
}

/// Decides whether a candidate neighbour is queued, for the acceptance draw `r`
/// and the doubled offset `(vx, vy)` of its parent from the canvas centre.
pub fn push_accepted(r: u64, vx: i64, vy: i64, axis: Option<(i32, i32)>) -> (b: bool)
    requires
        r < ACCEPT_SCALE,
        -MAX_OFFSET <= vx <= MAX_OFFSET,
        -MAX_OFFSET <= vy <= MAX_OFFSET,
    ensures
        b == accepts(r as int, (vx as int, vy as int), axis_int(axis)),
{
    match axis {
        None => true,
        Some(a) => {
            if vx == 0 && vy == 0 {
                return true;
            }
            if 20 * r < 9 * ACCEPT_SCALE {
                return true;
            }
            let (ax, ay) = (a.0 as i128, a.1 as i128);
            let (x, y) = (vx as i128, vy as i128);
            let ri = r as i128;
            assert(0 <= x * x <= 68719476736 && 0 <= y * y <= 68719476736) by (nonlinear_arith)
                requires
                    -262144 <= x <= 262144,
                    -262144 <= y <= 262144,
            ;
            assert(0 <= ax * ax <= 4611686018427387904 && 0 <= ay * ay <= 4611686018427387904)
                by (nonlinear_arith)
                requires
                    -2147483648 <= ax <= 2147483647,
                    -2147483648 <= ay <= 2147483647,
            ;
            let vv: i128 = x * x + y * y;
            let aa: i128 = ax * ax + ay * ay;
            assert(0 <= ri * ri <= 16777216) by (nonlinear_arith)
                requires
                    0 <= ri < 4096,
            ;
            assert(0 <= ri * ri * vv <= 16777216 * 137438953472) by (nonlinear_arith)
                requires
                    0 <= ri * ri <= 16777216,
                    0 <= vv <= 137438953472,
            ;
            assert(0 <= ri * ri * vv * aa <= 16777216 * 137438953472 * 9223372036854775808)
                by (nonlinear_arith)
                requires
                    0 <= ri * ri * vv <= 16777216 * 137438953472,
                    0 <= aa <= 9223372036854775808,
            ;
            assert(-562949953421312 <= x * ax <= 562949953421312 && -562949953421312 <= y
                * ay <= 562949953421312) by (nonlinear_arith)
                requires
                    -262144 <= x <= 262144,
                    -262144 <= y <= 262144,
                    -2147483648 <= ax <= 2147483647,
                    -2147483648 <= ay <= 2147483647,
            ;
            let dot: i128 = x * ax + y * ay;
            assert(0 <= dot * dot <= 1125899906842624 * 1125899906842624) by (nonlinear_arith)
                requires
                    -1125899906842624 <= dot <= 1125899906842624,
            ;
            let lhs: i128 = ri * ri * vv * aa;
            let rhs: i128 = 16777216 * (dot * dot);
            lhs < rhs
        },
    }
}

} // verus!
