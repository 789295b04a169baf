//! The geometry primitive: the overlap test for two axis-aligned
//! bounding boxes in the same coordinate frame.

use vstd::prelude::*;

use crate::AABB;

verus! {

/// Two boxes overlap iff their extents overlap on every axis: overlap
/// fails on an axis when one box's `max` lies strictly below the
/// other's `min` there. Touching edges (equal coordinates) overlap.
pub open spec fn overlap(a: AABB, b: AABB) -> bool {
    &&& !(a.max.x < b.min.x || a.min.x > b.max.x)
    &&& !(a.max.y < b.min.y || a.min.y > b.max.y)
}

/// Standard separating-axis test for axis-aligned boxes.
/// No side effects, no allocation.
pub fn aabb_aabb(a: &AABB, b: &AABB) -> (r: bool)
    ensures
        r == overlap(*a, *b),
{
    if a.max.x < b.min.x || a.min.x > b.max.x {
        return false;
    }
    if a.max.y < b.min.y || a.min.y > b.max.y {
        return false;
    }
    true
}

/// The overlap test is symmetric: which box is passed first does not
/// matter.
pub proof fn lemma_overlap_symmetric(a: AABB, b: AABB)
    ensures
        overlap(a, b) == overlap(b, a),
{
}

/// If two boxes overlap, then along each axis the second box starts
/// no later than the first one ends. This is what justifies the
/// sweep's pruning: once a later box's lower bound along the sort
/// axis exceeds the current box's upper bound, no overlap is possible.
pub proof fn lemma_overlap_needs_axis_contact(a: AABB, b: AABB, axis: int)
    requires
        0 <= axis < 2,
        overlap(a, b),
    ensures
        crate::axis_min(b, axis) <= crate::axis_max(a, axis),
{
}

} // verus!
