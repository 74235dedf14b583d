//! Cursor movement on a square grid, wrapping at the edges.

use vstd::prelude::*;

verus! {

/// The coordinate one step back from `v` on an axis of length `w`, wrapping
/// from 0 to `w - 1`.
pub open spec fn step_back(v: int, w: int) -> int {
    (v + w - 1) % w
}

/// The coordinate one step forward from `v` on an axis of length `w`,
/// wrapping from `w - 1` to 0.
pub open spec fn step_forward(v: int, w: int) -> int {
    (v + 1) % w
}

/// One step back along an axis of length `w`.
pub fn wrap_back(v: u8, w: u8) -> (r: u8)
    requires
        v < w,
    ensures
        r == step_back(v as int, w as int),
        r < w,
{
    if v == 0 {
        proof {
            assert((0 + w - 1) % (w as int) == w - 1) by (nonlinear_arith)
                requires
                    w > 0,
            ;
        }
        w - 1
    } else {
        proof {
            assert((v + w - 1) % (w as int) == v - 1) by (nonlinear_arith)
                requires
                    0 < v < w,
            ;
        }
        v - 1
    }
}

/// One step forward along an axis of length `w`.
pub fn wrap_forward(v: u8, w: u8) -> (r: u8)
    requires
        v < w,
    ensures
        r == step_forward(v as int, w as int),
        r < w,
{
    if v == w - 1 {
        proof {
            assert((v + 1) % (w as int) == 0) by (nonlinear_arith)
                requires
                    v + 1 == w,
            ;
        }
        0
    } else {
        proof {
            assert((v + 1) % (w as int) == v + 1) by (nonlinear_arith)
                requires
                    0 <= v,
                    v + 1 < w,
            ;
        }
        v + 1
    }
}

/// Stepping never leaves the axis, and at the edges it comes back in from
/// the other side: back from 0 lands on `w - 1`, forward from `w - 1` lands
/// on 0; anywhere else a step moves by one.
pub proof fn lemma_wraparound(v: int, w: int)
    requires
        0 <= v < w,
    ensures
        0 <= step_back(v, w) < w,
        0 <= step_forward(v, w) < w,
        v == 0 ==> step_back(v, w) == w - 1,
        v > 0 ==> step_back(v, w) == v - 1,
        v == w - 1 ==> step_forward(v, w) == 0,
        v < w - 1 ==> step_forward(v, w) == v + 1,
{
    if v == 0 {
        assert((0 + w - 1) % w == w - 1) by (nonlinear_arith)
            requires
                w > 0,
        ;
    } else {
        assert((v + w - 1) % w == v - 1) by (nonlinear_arith)
            requires
                0 < v < w,
        ;
    }
    if v == w - 1 {
        assert((v + 1) % w == 0) by (nonlinear_arith)
            requires
                0 <= v,
                v + 1 == w,
        ;
    } else {
        assert((v + 1) % w == v + 1) by (nonlinear_arith)
            requires
                0 <= v,
                v + 1 < w,
        ;
    }
}

} // verus!
