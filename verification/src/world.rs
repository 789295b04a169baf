//! The registry tying the pieces together: a contiguous store of
//! tracked objects addressed by integer handles, the per-cycle
//! world-AABB update pass over all of them, and the detection pass
//! that draws the working array from the store and returns the
//! cycle's batch of collision events.

use vstd::prelude::*;

use crate::{aabb_wf, AABB, AABBCollision, AABBGlobal, CollisionFilter};
use crate::sweep::{chosen_axis, detects_exactly, AABBArray, Entry};
use crate::update::{transform_in_range, update_aabb, world_aabb_of, Transform2};

verus! {

/// What the host authors for one tracked object: its local-space
/// AABB, its current placement, and its collision filter.
#[derive(Default, Clone, Copy, Debug, PartialEq, Eq, Structural)]
pub struct AABBBundle {
    pub aabb: AABB,
    pub filter: CollisionFilter,
    pub transform: Transform2,
}

/// One tracked object as the registry stores it: the authored bundle
/// plus the derived world-space AABB of the most recent update pass.
#[derive(Default, Clone, Copy, Debug, PartialEq, Eq, Structural)]
pub struct TrackedObject {
    pub aabb: AABB,
    pub filter: CollisionFilter,
    pub transform: Transform2,
    pub global: AABBGlobal,
}

/// The per-object condition the registry maintains: the local box is
/// well-formed and its transformed corners fit the coordinate type.
pub open spec fn object_wf(o: TrackedObject) -> bool {
    aabb_wf(o.aabb) && transform_in_range(o.aabb, o.transform)
}

/// An independent collision world: the object store and the
/// detector state that persists across cycles.
pub struct CollisionWorld {
    objects: Vec<TrackedObject>,
    detector: AABBArray,
}

impl CollisionWorld {
    /// The stored objects; the handle of an object is its index here.
    pub closed spec fn objects_spec(self) -> Seq<TrackedObject> {
        self.objects@
    }

    /// The world invariant: a valid detector state, a store small
    /// enough for the detector's exact arithmetic, and every object
    /// well-formed.
    pub open spec fn wf(self) -> bool {
        &&& self.detector_wf()
        &&& self.objects_spec().len() < 0x8000_0000
        &&& forall|k: int|
            0 <= k < self.objects_spec().len() ==> object_wf(#[trigger] self.objects_spec()[k])
    }

    /// The detector's own invariant, kept abstract here.
    pub closed spec fn detector_wf(self) -> bool {
        self.detector.wf()
    }

    /// The axis the next detection cycle will sort by.
    pub closed spec fn axis_spec(self) -> int {
        self.detector.axis_spec()
    }

    /// How many candidate pairs the last detection cycle examined.
    pub closed spec fn candidates_spec(self) -> u64 {
        self.detector.candidates_spec()
    }

    /// The working array the detector would sweep right now: for each
    /// stored object, its handle, its world-space AABB as of the last
    /// update pass, and its filter.
    pub open spec fn snapshot_spec(self) -> Seq<Entry> {
        self.objects_spec().map(|k: int, o: TrackedObject| (k as u64, o.global.0, o.filter))
    }

    /// An empty world, sorting by x first.
    pub fn new() -> (r: CollisionWorld)
        ensures
            r.wf(),
            r.objects_spec().len() == 0,
            r.axis_spec() == 0,
    {
        CollisionWorld { objects: Vec::new(), detector: AABBArray::new() }
    }

    /// How many objects are tracked.
    pub fn len(&self) -> (r: usize)
        ensures
            r == self.objects_spec().len(),
    {
        self.objects.len()
    }

    /// The axis the next detection cycle will sort by: 0 for x, 1 for y.
    pub fn sort_axis(&self) -> (r: usize)
        ensures
            r == self.axis_spec(),
    {
        self.detector.sort_axis()
    }

    /// How many candidate pairs the last detection cycle's sweep
    /// examined (instrumentation; see [`AABBArray::candidates_examined`]).
    pub fn candidates_examined(&self) -> (r: u64)
        ensures
            r == self.candidates_spec(),
    {
        self.detector.candidates_examined()
    }

    /// Starts tracking an object and returns its handle. The world
    /// AABB is computed immediately from the authored bundle.
    pub fn insert(&mut self, bundle: AABBBundle) -> (h: usize)
        requires
            old(self).wf(),
            aabb_wf(bundle.aabb),
            transform_in_range(bundle.aabb, bundle.transform),
            old(self).objects_spec().len() + 1 < 0x8000_0000,
        ensures
            final(self).wf(),
            h == old(self).objects_spec().len(),
            final(self).objects_spec() == old(self).objects_spec().push(
                (TrackedObject {
                    aabb: bundle.aabb,
                    filter: bundle.filter,
                    transform: bundle.transform,
                    global: AABBGlobal(world_aabb_of(bundle.aabb, bundle.transform)),
                }),
            ),
            final(self).axis_spec() == old(self).axis_spec(),
    {
        let h = self.objects.len();
        let global = update_aabb(&bundle.aabb, &bundle.transform);
        self.objects.push(
            TrackedObject {
                aabb: bundle.aabb,
                filter: bundle.filter,
                transform: bundle.transform,
                global,
            },
        );
        h
    }

    /// Reads an object back by its handle.
    pub fn get(&self, h: usize) -> (o: TrackedObject)
        requires
            h < self.objects_spec().len(),
        ensures
            o == self.objects_spec()[h as int],
    {
        self.objects[h]
    }

    /// Replaces an object's placement; its world AABB stays stale
    /// until the next update pass.
    pub fn set_transform(&mut self, h: usize, t: Transform2)
        requires
            old(self).wf(),
            h < old(self).objects_spec().len(),
            transform_in_range(old(self).objects_spec()[h as int].aabb, t),
        ensures
            final(self).wf(),
            final(self).objects_spec() == old(self).objects_spec().update(
                h as int,
                (TrackedObject { transform: t, ..old(self).objects_spec()[h as int] }),
            ),
            final(self).axis_spec() == old(self).axis_spec(),
    {
        let o = self.objects[h];
        self.objects.set(h, TrackedObject { transform: t, ..o });
    }

    /// The update phase: recomputes every object's world-space AABB
    /// from its own local AABB and current placement. Each object's
    /// result depends only on its own data, so a host may split this
    /// work across workers; this pass performs it in index order.
    pub fn update_aabbs(&mut self)
        requires
            old(self).wf(),
        ensures
            final(self).wf(),
            final(self).objects_spec().len() == old(self).objects_spec().len(),
            forall|k: int|
                0 <= k < old(self).objects_spec().len() ==> final(self).objects_spec()[k] == (
                TrackedObject {
                    global: AABBGlobal(
                        world_aabb_of(
                            old(self).objects_spec()[k].aabb,
                            old(self).objects_spec()[k].transform,
                        ),
                    ),
                    ..old(self).objects_spec()[k]
                }),
            final(self).axis_spec() == old(self).axis_spec(),
    {
        let n = self.objects.len();
        let mut k: usize = 0;
        while k < n
            invariant
                k <= n,
                n == self.objects@.len(),
                n == old(self).objects@.len(),
                self.detector == old(self).detector,
                forall|m: int|
                    k <= m < n ==> self.objects@[m] == old(self).objects@[m],
                forall|m: int|
                    0 <= m < k ==> self.objects@[m] == (TrackedObject {
                        global: AABBGlobal(
                            world_aabb_of(
                                old(self).objects@[m].aabb,
                                old(self).objects@[m].transform,
                            ),
                        ),
                        ..old(self).objects@[m]
                    }),
                forall|m: int| 0 <= m < n ==> object_wf(#[trigger] old(self).objects@[m]),
            decreases n - k,
        {
            let o = self.objects[k];
            let global = update_aabb(&o.aabb, &o.transform);
            self.objects.set(k, TrackedObject { global, ..o });
            k = k + 1;
        }
    }

    /// The detection phase: draws the working array from the store —
    /// handle, world AABB, filter per object — and runs one
    /// sort-and-sweep cycle over it. Returns the cycle's batch of
    /// collision events: exactly the overlapping, filter-permitted
    /// pairs of distinct handles, each once, in no promised order.
    /// An empty world emits nothing and keeps its axis; otherwise the
    /// next cycle's axis is the one of larger positional spread.
    pub fn detect(&mut self) -> (out: Vec<AABBCollision>)
        requires
            old(self).wf(),
        ensures
            final(self).wf(),
            final(self).objects_spec() == old(self).objects_spec(),
            detects_exactly(old(self).snapshot_spec(), out@),
            old(self).objects_spec().len() == 0 ==> out@.len() == 0 && final(self).axis_spec()
                == old(self).axis_spec(),
            old(self).objects_spec().len() > 0 ==> final(self).axis_spec() == chosen_axis(
                old(self).snapshot_spec(),
            ),
    {
        let n = self.objects.len();
        let mut snap: Vec<Entry> = Vec::new();
        let mut k: usize = 0;
        while k < n
            invariant
                k <= n,
                n == self.objects@.len(),
                n < 0x8000_0000,
                snap@.len() == k as int,
                forall|m: int|
                    0 <= m < k ==> snap@[m] == (#[trigger] self.snapshot_spec()[m]),
            decreases n - k,
        {
            let o = self.objects[k];
            snap.push((k as u64, o.global.0, o.filter));
            proof {
                assert(self.snapshot_spec()[k as int] == (k as u64, o.global.0, o.filter));
            }
            k = k + 1;
        }
        proof {
            assert(snap@ =~= self.snapshot_spec());
            assert forall|i: int, j: int| 0 <= i < j < snap@.len() implies snap@[i].0 != snap@[j].0
                by {
                assert(snap@[i].0 == i as u64);
                assert(snap@[j].0 == j as u64);
            }
        }
        let out = self.detector.sort_sweep(&snap);
        out
    }
}

} // verus!
