//! The world-space AABB updater: transforms each object's local AABB
//! into the shared coordinate frame using its current placement.
//!
//! A placement is an affine 2D transform with integer entries — a
//! linear part (rotation, scale, shear) and a translation. The world
//! AABB of a box is the axis-aligned bound of its two transformed
//! corner points: the component-wise minimum and maximum. For
//! placements that are not axis-aligned this over-approximates the
//! rotated box, an accepted broad-phase trade-off.

use vstd::prelude::*;
use vstd::math::{max, min};

use crate::{aabb_wf, AABB, AABBGlobal, Vec2};

verus! {

/// An object's placement in the shared coordinate frame: the linear
/// part `[[m00, m01], [m10, m11]]` applied first, then the
/// translation `(tx, ty)`.
#[derive(Default, Clone, Copy, Debug, PartialEq, Eq, Structural)]
pub struct Transform2 {
    pub m00: i32,
    pub m01: i32,
    pub m10: i32,
    pub m11: i32,
    pub tx: i32,
    pub ty: i32,
}

impl Transform2 {
    /// The identity placement: leaves every point where it is.
    pub fn identity() -> (r: Transform2)
        ensures
            r == (Transform2 { m00: 1, m01: 0, m10: 0, m11: 1, tx: 0, ty: 0 }),
    {
        Transform2 { m00: 1, m01: 0, m10: 0, m11: 1, tx: 0, ty: 0 }
    }

    /// A pure translation by `(tx, ty)`.
    pub fn from_translation(tx: i32, ty: i32) -> (r: Transform2)
        ensures
            r == (Transform2 { m00: 1, m01: 0, m10: 0, m11: 1, tx, ty }),
    {
        Transform2 { m00: 1, m01: 0, m10: 0, m11: 1, tx, ty }
    }
}

/// The x coordinate of point `p` carried into the shared frame by `t`.
pub open spec fn tp_x(t: Transform2, p: Vec2) -> int {
    (t.m00 as int) * (p.x as int) + (t.m01 as int) * (p.y as int) + (t.tx as int)
}

/// The y coordinate of point `p` carried into the shared frame by `t`.
pub open spec fn tp_y(t: Transform2, p: Vec2) -> int {
    (t.m10 as int) * (p.x as int) + (t.m11 as int) * (p.y as int) + (t.ty as int)
}

/// The value fits the coordinate type.
pub open spec fn in_i32(v: int) -> bool {
    i32::MIN <= v <= i32::MAX
}

/// Both transformed corners of `a` stay within coordinate range — the
/// machine-limit condition under which the updater is exact.
pub open spec fn transform_in_range(a: AABB, t: Transform2) -> bool {
    &&& in_i32(tp_x(t, a.min))
    &&& in_i32(tp_y(t, a.min))
    &&& in_i32(tp_x(t, a.max))
    &&& in_i32(tp_y(t, a.max))
}

/// The world-space bound of `a` under placement `t`: transform both
/// corner points, then take their component-wise minimum and maximum.
pub open spec fn world_aabb_of(a: AABB, t: Transform2) -> AABB {
    AABB {
        min: Vec2 {
            x: min(tp_x(t, a.min), tp_x(t, a.max)) as i32,
            y: min(tp_y(t, a.min), tp_y(t, a.max)) as i32,
        },
        max: Vec2 {
            x: max(tp_x(t, a.min), tp_x(t, a.max)) as i32,
            y: max(tp_y(t, a.min), tp_y(t, a.max)) as i32,
        },
    }
}

/// Carries one point into the shared coordinate frame.
pub fn transform_point(t: &Transform2, p: Vec2) -> (r: Vec2)
    requires
        in_i32(tp_x(*t, p)),
        in_i32(tp_y(*t, p)),
    ensures
        r.x as int == tp_x(*t, p),
        r.y as int == tp_y(*t, p),
{
    proof {
        assert(-(0x8000_0000 * 0x8000_0000) <= (t.m00 as int) * (p.x as int) <= 0x8000_0000
            * 0x8000_0000) by (nonlinear_arith)
            requires
                -0x8000_0000 <= t.m00 as int <= 0x8000_0000,
                -0x8000_0000 <= p.x as int <= 0x8000_0000,
        ;
        assert(-(0x8000_0000 * 0x8000_0000) <= (t.m01 as int) * (p.y as int) <= 0x8000_0000
            * 0x8000_0000) by (nonlinear_arith)
            requires
                -0x8000_0000 <= t.m01 as int <= 0x8000_0000,
                -0x8000_0000 <= p.y as int <= 0x8000_0000,
        ;
        assert(-(0x8000_0000 * 0x8000_0000) <= (t.m10 as int) * (p.x as int) <= 0x8000_0000
            * 0x8000_0000) by (nonlinear_arith)
            requires
                -0x8000_0000 <= t.m10 as int <= 0x8000_0000,
                -0x8000_0000 <= p.x as int <= 0x8000_0000,
        ;
        assert(-(0x8000_0000 * 0x8000_0000) <= (t.m11 as int) * (p.y as int) <= 0x8000_0000
            * 0x8000_0000) by (nonlinear_arith)
            requires
                -0x8000_0000 <= t.m11 as int <= 0x8000_0000,
                -0x8000_0000 <= p.y as int <= 0x8000_0000,
        ;
    }
    let x: i128 = (t.m00 as i128) * (p.x as i128) + (t.m01 as i128) * (p.y as i128) + (
    t.tx as i128);
    let y: i128 = (t.m10 as i128) * (p.x as i128) + (t.m11 as i128) * (p.y as i128) + (
    t.ty as i128);
    Vec2 { x: x as i32, y: y as i32 }
}

/// Recomputes one object's world-space AABB from its local AABB and
/// its current placement: both corners are carried into the shared
/// frame and the result bounds them component-wise. Each object's
/// result depends only on its own box and placement, so independent
/// objects may be updated in any order.
pub fn update_aabb(local: &AABB, t: &Transform2) -> (g: AABBGlobal)
    requires
        aabb_wf(*local),
        transform_in_range(*local, *t),
    ensures
        g.0 == world_aabb_of(*local, *t),
        aabb_wf(g.0),
{
    let a = transform_point(t, local.min);
    let b = transform_point(t, local.max);
    AABBGlobal(
        AABB {
            min: Vec2 {
                x: if a.x <= b.x {
                    a.x
                } else {
                    b.x
                },
                y: if a.y <= b.y {
                    a.y
                } else {
                    b.y
                },
            },
            max: Vec2 {
                x: if a.x <= b.x {
                    b.x
                } else {
                    a.x
                },
                y: if a.y <= b.y {
                    b.y
                } else {
                    a.y
                },
            },
        },
    )
}

} // verus!
