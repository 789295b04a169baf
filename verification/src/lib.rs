//! 2D broad-phase collision detection: an incremental sort-and-sweep
//! detector with adaptive axis selection over axis-aligned bounding
//! boxes (AABBs), each tagged with a bitmask collision filter.
//!
//! Coordinates are integers, so every comparison is total and exact;
//! a host working in another coordinate model quantizes on its side.

use vstd::prelude::*;

pub mod primitives;
pub mod sweep;
pub mod update;
pub mod world;

verus! {

/// Bitmask of layers. Each bit represents a different collision layer.
pub type LayerMask = u32;

/// Which layers an object occupies, and which layers it wants to be
/// notified about. Directionally asymmetric: see [`CollisionFilter::collides`].
#[derive(Default, Clone, Copy, Debug, PartialEq, Eq, Structural)]
pub struct CollisionFilter {
    pub self_layers: LayerMask,
    pub collisions_mask: LayerMask,
}

/// What `a.collides(b)` returns: `a` occupies a layer that `b` listens on.
pub open spec fn filter_collides(a: CollisionFilter, b: CollisionFilter) -> bool {
    (a.self_layers & b.collisions_mask) != 0
}

/// An unordered pair `{a, b}` is reported when either direction permits it.
pub open spec fn pair_permitted(a: CollisionFilter, b: CollisionFilter) -> bool {
    filter_collides(a, b) || filter_collides(b, a)
}

impl CollisionFilter {
    /// Checks self layers against the other object's collision mask.
    ///
    /// Not commutative: `a.collides(b)` and `b.collides(a)` may differ,
    /// so the detector tests both directions.
    #[inline]
    pub fn collides(self, other: CollisionFilter) -> (r: bool)
        ensures
            r == filter_collides(self, other),
    {
        (self.self_layers & other.collisions_mask) != 0
    }
}

/// The effective permission for an unordered pair does not depend on
/// the order in which the two filters are tested.
pub proof fn lemma_pair_permitted_symmetric(a: CollisionFilter, b: CollisionFilter)
    ensures
        pair_permitted(a, b) == pair_permitted(b, a),
{
}

/// A 2D point or vector with integer coordinates.
#[derive(Default, Clone, Copy, Debug, PartialEq, Eq, Structural)]
pub struct Vec2 {
    pub x: i32,
    pub y: i32,
}

/// An axis-aligned bounding box, relative to the owning object.
/// Well-formed when `min <= max` on both axes; see [`aabb_wf`].
#[derive(Default, Clone, Copy, Debug, PartialEq, Eq, Structural)]
pub struct AABB {
    pub min: Vec2,
    pub max: Vec2,
}

/// The box invariant callers must maintain: `min <= max` component-wise.
pub open spec fn aabb_wf(a: AABB) -> bool {
    a.min.x <= a.max.x && a.min.y <= a.max.y
}

/// The `min` coordinate of `a` along `axis` (0 = x, 1 = y).
pub open spec fn axis_min(a: AABB, axis: int) -> int {
    if axis == 0 {
        a.min.x as int
    } else {
        a.min.y as int
    }
}

/// The `max` coordinate of `a` along `axis` (0 = x, 1 = y).
pub open spec fn axis_max(a: AABB, axis: int) -> int {
    if axis == 0 {
        a.max.x as int
    } else {
        a.max.y as int
    }
}

/// An object's AABB in the shared coordinate frame, recomputed each
/// cycle from the local AABB and the current world transform.
#[derive(Default, Clone, Copy, Debug, PartialEq, Eq, Structural)]
pub struct AABBGlobal(pub AABB);

/// An overlapping, filter-permitted pair of object identities,
/// emitted once per detected pair per cycle. The pair is unordered:
/// which identity comes first is not significant.
#[derive(Clone, Copy, Debug, PartialEq, Eq, Structural)]
pub struct AABBCollision {
    pub entity1: u64,
    pub entity2: u64,
}

/// `p` names exactly the unordered identity pair `{a, b}`.
pub open spec fn names_pair(p: AABBCollision, a: u64, b: u64) -> bool {
    (p.entity1 == a && p.entity2 == b) || (p.entity1 == b && p.entity2 == a)
}

} // verus!
