//! The sort-and-sweep detector: each cycle it rebuilds a working
//! array of `(identity, world AABB, filter)` triples, sorts it along
//! the chosen axis, sweeps for overlapping filter-permitted
//! neighbours, and re-selects the axis of larger positional spread
//! for the next cycle.

use vstd::prelude::*;
use vstd::seq_lib::group_to_multiset_ensures;
use vstd::seq_lib::commutative_foldl;
use vstd::seq_lib::lemma_fold_left_permutation;

use crate::{axis_max, axis_min, pair_permitted, AABB, AABBCollision, CollisionFilter};
use crate::primitives::{aabb_aabb, overlap};

verus! {

/// One snapshot triple of the working array.
pub type Entry = (u64, AABB, CollisionFilter);

/// The sort key: the entry's world-space `min` along the sort axis.
pub open spec fn entry_min(e: Entry, axis: int) -> int {
    axis_min(e.1, axis)
}

/// The sweep window bound: the entry's world-space `max` along the sort axis.
pub open spec fn entry_max(e: Entry, axis: int) -> int {
    axis_max(e.1, axis)
}

/// The working array is ordered ascending by `min` along `axis`.
pub open spec fn sorted_at(s: Seq<Entry>, axis: int) -> bool {
    forall|p: int, q: int|
        0 <= p <= q < s.len() ==> entry_min(s[p], axis) <= entry_min(s[q], axis)
}

/// No two snapshot entries carry the same identity.
pub open spec fn distinct_ids(s: Seq<Entry>) -> bool {
    forall|i: int, j: int| 0 <= i < j < s.len() ==> s[i].0 != s[j].0
}

/// The pair `{x, y}` is overlapping and permitted by the filters in
/// at least one direction.
pub open spec fn colliding(x: Entry, y: Entry) -> bool {
    pair_permitted(x.2, y.2) && overlap(x.1, y.1)
}

/// Whether two entries collide does not depend on their order.
pub proof fn lemma_colliding_symmetric(x: Entry, y: Entry)
    ensures
        colliding(x, y) == colliding(y, x),
{
}

/// Some index pair `i < j` of `s` collides and carries exactly the
/// identities `{a, b}`. Kept opaque so that reasoning about one
/// detection batch does not endlessly re-derive pairs from pairs;
/// proofs that need the definition reveal it.
#[verifier::opaque]
pub open spec fn has_colliding_pair(s: Seq<Entry>, a: u64, b: u64) -> bool {
    exists|i: int, j: int|
        #![trigger colliding(s[i], s[j])]
        0 <= i < j < s.len() && colliding(s[i], s[j]) && ((s[i].0 == a && s[j].0 == b) || (
        s[i].0 == b && s[j].0 == a))
}

/// `out` holds some event naming exactly the unordered pair `{a, b}`.
pub open spec fn reports(out: Seq<AABBCollision>, a: u64, b: u64) -> bool {
    exists|k: int| 0 <= k < out.len() && crate::names_pair(out[k], a, b)
}

/// No unordered pair is named by two different events of the batch.
pub open spec fn each_pair_once(out: Seq<AABBCollision>) -> bool {
    forall|k: int, l: int|
        0 <= k < l < out.len() ==> !crate::names_pair(out[l], out[k].entity1, out[k].entity2)
}

/// What one detection cycle promises about its emitted batch: every
/// event names a distinct-identity pair that overlaps and is
/// permitted, every such pair of the snapshot is reported, and no
/// pair is reported twice. This mentions only the snapshot, so the
/// batch is the same whichever axis the cycle sorted by.
pub open spec fn detects_exactly(objects: Seq<Entry>, out: Seq<AABBCollision>) -> bool {
    &&& forall|k: int|
        #![trigger out[k]]
        0 <= k < out.len() ==> has_colliding_pair(objects, out[k].entity1, out[k].entity2)
            && out[k].entity1 != out[k].entity2
    &&& forall|i: int, j: int|
        #![trigger colliding(objects[i], objects[j])]
        0 <= i < j < objects.len() && colliding(objects[i], objects[j]) ==> reports(
            out,
            objects[i].0,
            objects[j].0,
        )
    &&& each_pair_once(out)
}

/// Determinism: the detection pass is a function of the snapshot
/// alone. Any two batches that satisfy [`detects_exactly`] for the
/// same snapshot — in particular the batches of two successive runs
/// over unchanged inputs, whatever axis each run sorted by — report
/// exactly the same unordered identity pairs.
pub proof fn lemma_detection_deterministic(
    objects: Seq<Entry>,
    out1: Seq<AABBCollision>,
    out2: Seq<AABBCollision>,
)
    requires
        detects_exactly(objects, out1),
        detects_exactly(objects, out2),
    ensures
        forall|a: u64, b: u64| #[trigger] reports(out1, a, b) == #[trigger] reports(out2, a, b),
{
    assert forall|a: u64, b: u64| #[trigger] reports(out1, a, b) == #[trigger] reports(
        out2,
        a,
        b,
    ) by {
        if reports(out1, a, b) {
            lemma_reports_match(objects, out1, out2, a, b);
        }
        if reports(out2, a, b) {
            lemma_reports_match(objects, out2, out1, a, b);
        }
    }
}

/// One direction of [`lemma_detection_deterministic`]: a pair
/// reported by one exact batch is reported by any other.
#[verifier::rlimit(60)]
proof fn lemma_reports_match(
    objects: Seq<Entry>,
    out1: Seq<AABBCollision>,
    out2: Seq<AABBCollision>,
    a: u64,
    b: u64,
)
    requires
        detects_exactly(objects, out1),
        detects_exactly(objects, out2),
        reports(out1, a, b),
    ensures
        reports(out2, a, b),
{
    let k = choose|k: int| 0 <= k < out1.len() && crate::names_pair(out1[k], a, b);
    assert(has_colliding_pair(objects, out1[k].entity1, out1[k].entity2));
    lemma_pair_witness(objects, out1[k].entity1, out1[k].entity2);
    let (i, j) = choose|i: int, j: int|
        #![trigger colliding(objects[i], objects[j])]
        0 <= i < j < objects.len() && colliding(objects[i], objects[j]) && ((objects[i].0
            == out1[k].entity1 && objects[j].0 == out1[k].entity2) || (objects[i].0 == out1[
            k].entity2 && objects[j].0 == out1[k].entity1));
    assert(reports(out2, objects[i].0, objects[j].0));
    let l = choose|l: int| 0 <= l < out2.len() && crate::names_pair(
        out2[l],
        objects[i].0,
        objects[j].0,
    );
    assert(crate::names_pair(out2[l], a, b));
}

/// Recovers the index pair behind an opaque [`has_colliding_pair`]
/// fact, unfolding the definition only for this one pair.
proof fn lemma_pair_witness(objects: Seq<Entry>, e1: u64, e2: u64)
    requires
        has_colliding_pair(objects, e1, e2),
    ensures
        exists|i: int, j: int|
            #![trigger colliding(objects[i], objects[j])]
            0 <= i < j < objects.len() && colliding(objects[i], objects[j]) && ((objects[i].0 == e1
                && objects[j].0 == e2) || (objects[i].0 == e2 && objects[j].0 == e1)),
{
    reveal(has_colliding_pair);
}

/// Twice an entry's center coordinate along `axis`. Working with the
/// doubled center keeps the arithmetic integral; both axes scale by
/// the same factor, so comparing the two variances is unaffected.
pub open spec fn center2(e: Entry, axis: int) -> int {
    axis_min(e.1, axis) + axis_max(e.1, axis)
}

/// The folding step that accumulates the sum of doubled centers.
pub open spec fn center_step(axis: int) -> spec_fn(int, Entry) -> int {
    |acc: int, e: Entry| acc + center2(e, axis)
}

/// The folding step that accumulates the sum of squared doubled centers.
pub open spec fn square_step(axis: int) -> spec_fn(int, Entry) -> int {
    |acc: int, e: Entry| acc + center2(e, axis) * center2(e, axis)
}

/// Sum of the (doubled) object centers along `axis`.
pub open spec fn sum_centers(s: Seq<Entry>, axis: int) -> int {
    s.fold_left(0int, center_step(axis))
}

/// Sum of the squared (doubled) object centers along `axis`.
pub open spec fn sum_squares(s: Seq<Entry>, axis: int) -> int {
    s.fold_left(0int, square_step(axis))
}

/// The unnormalized spread measure the detector compares between the
/// two axes: sum of squares minus the square of the sum. Only which
/// axis has the larger value matters, so no division by the count is
/// performed.
pub open spec fn variance_at(s: Seq<Entry>, axis: int) -> int {
    sum_squares(s, axis) - sum_centers(s, axis) * sum_centers(s, axis)
}

/// The axis the detector sorts by on the next cycle: the one with the
/// larger positional spread in the cycle just processed (x on a tie).
pub open spec fn chosen_axis(s: Seq<Entry>) -> int {
    if variance_at(s, 1) > variance_at(s, 0) {
        1
    } else {
        0
    }
}

/// Extending a prefix by one element adds that element's contribution
/// to both accumulated sums.
proof fn lemma_sum_take_step(s: Seq<Entry>, axis: int, k: int)
    requires
        0 <= k < s.len(),
    ensures
        sum_centers(s.take(k + 1), axis) == sum_centers(s.take(k), axis) + center2(s[k], axis),
        sum_squares(s.take(k + 1), axis) == sum_squares(s.take(k), axis) + center2(s[k], axis)
            * center2(s[k], axis),
{
    assert(s.take(k + 1).drop_last() =~= s.take(k));
    assert(s.take(k + 1).last() == s[k]);
}

/// Both accumulated sums depend only on which entries are present,
/// not on their order.
proof fn lemma_sums_permutation(s1: Seq<Entry>, s2: Seq<Entry>, axis: int)
    requires
        s1.to_multiset() == s2.to_multiset(),
    ensures
        sum_centers(s1, axis) == sum_centers(s2, axis),
        sum_squares(s1, axis) == sum_squares(s2, axis),
{
    assert(commutative_foldl(center_step(axis)));
    assert(commutative_foldl(square_step(axis)));
    lemma_fold_left_permutation(s1, s2, center_step(axis), 0int);
    lemma_fold_left_permutation(s1, s2, square_step(axis), 0int);
}

/// Two distinct values that both occur in a sequence occur at two
/// distinct indices.
proof fn lemma_two_indices(s: Seq<Entry>, x: Entry, y: Entry)
    requires
        x != y,
        s.to_multiset().contains(x),
        s.to_multiset().contains(y),
    ensures
        exists|i: int, j: int| 0 <= i < s.len() && 0 <= j < s.len() && i != j && s[i] == x && s[j]
            == y,
{
    broadcast use group_to_multiset_ensures;

    assert(s.contains(x));
    let i = choose|i: int| 0 <= i < s.len() && s[i] == x;
    assert(s.remove(i).to_multiset() == s.to_multiset().remove(x));
    assert(s.to_multiset().remove(x).count(y) == s.to_multiset().count(y));
    assert(s.remove(i).to_multiset().count(y) > 0);
    assert(s.remove(i).contains(y));
    let k = choose|k: int| 0 <= k < s.remove(i).len() && s.remove(i)[k] == y;
    if k < i {
        assert(s[k] == y);
    } else {
        assert(s[k + 1] == y);
    }
}

/// A reordering of a snapshot with pairwise distinct identities again
/// has pairwise distinct identities.
proof fn lemma_distinct_permutation(s1: Seq<Entry>, s2: Seq<Entry>)
    requires
        s1.to_multiset() == s2.to_multiset(),
        distinct_ids(s1),
    ensures
        distinct_ids(s2),
{
    broadcast use group_to_multiset_ensures;

    assert forall|i: int, j: int| 0 <= i < j < s2.len() implies s2[i].0 != s2[j].0 by {
        let x = s2[i];
        let y = s2[j];
        assert(s2.to_multiset().contains(x)) by {
            assert(s2.contains(x));
        }
        if x == y {
            assert(s2.remove(i).to_multiset() == s2.to_multiset().remove(x));
            assert(s2.remove(i)[j - 1] == y);
            assert(s2.remove(i).contains(y));
            assert(s2.to_multiset().remove(x).count(y) > 0);
            assert(s1.to_multiset().count(x) >= 2);
            assert(s1.contains(x));
            let i1 = choose|i1: int| 0 <= i1 < s1.len() && s1[i1] == x;
            assert(s1.remove(i1).to_multiset() == s1.to_multiset().remove(x));
            assert(s1.remove(i1).to_multiset().count(x) > 0);
            assert(s1.remove(i1).contains(x));
            let k = choose|k: int| 0 <= k < s1.remove(i1).len() && s1.remove(i1)[k] == x;
            if k < i1 {
                assert(s1[k] == x);
                assert(false);
            } else {
                assert(s1[k + 1] == x);
                assert(false);
            }
        } else {
            assert(s2.to_multiset().contains(y)) by {
                assert(s2.contains(y));
            }
            lemma_two_indices(s1, x, y);
            let (i1, j1) = choose|i1: int, j1: int|
                0 <= i1 < s1.len() && 0 <= j1 < s1.len() && i1 != j1 && s1[i1] == x && s1[j1] == y;
            if i1 < j1 {
                assert(s1[i1].0 != s1[j1].0);
            } else {
                assert(s1[j1].0 != s1[i1].0);
            }
        }
    }
}

/// Colliding pairs survive any reordering of the snapshot: the same
/// unordered identity pair collides in every permutation.
proof fn lemma_pair_transfer(s1: Seq<Entry>, s2: Seq<Entry>, a: u64, b: u64)
    requires
        s1.to_multiset() == s2.to_multiset(),
        distinct_ids(s1),
        has_colliding_pair(s1, a, b),
    ensures
        has_colliding_pair(s2, a, b),
{
    reveal(has_colliding_pair);
    let (i, j) = choose|i: int, j: int|
        #![trigger colliding(s1[i], s1[j])]
        0 <= i < j < s1.len() && colliding(s1[i], s1[j]) && ((s1[i].0 == a && s1[j].0 == b) || (
        s1[i].0 == b && s1[j].0 == a));
    let x = s1[i];
    let y = s1[j];
    broadcast use group_to_multiset_ensures;

    assert(x.0 != y.0);
    assert(s2.to_multiset().contains(x)) by {
        assert(s1.contains(x));
    }
    assert(s2.to_multiset().contains(y)) by {
        assert(s1.contains(y));
    }
    lemma_two_indices(s2, x, y);
    let (i2, j2) = choose|i2: int, j2: int|
        0 <= i2 < s2.len() && 0 <= j2 < s2.len() && i2 != j2 && s2[i2] == x && s2[j2] == y;
    if i2 < j2 {
        assert(colliding(s2[i2], s2[j2]));
    } else {
        lemma_colliding_symmetric(x, y);
        assert(colliding(s2[j2], s2[i2]));
    }
}

/// With pairwise distinct identities, an identity determines its index.
proof fn lemma_same_id_same_index(s: Seq<Entry>, i: int, j: int)
    requires
        distinct_ids(s),
        0 <= i < s.len(),
        0 <= j < s.len(),
        s[i].0 == s[j].0,
    ensures
        i == j,
{
    if i < j {
        assert(s[i].0 != s[j].0);
    } else if j < i {
        assert(s[j].0 != s[i].0);
    }
}

/// Two collision events drawn from colliding index pairs of the same
/// snapshot name the same unordered pair only if they came from the
/// same index pair.
proof fn lemma_indices_from_names(
    w: Seq<Entry>,
    p: int,
    q: int,
    p2: int,
    q2: int,
    c1: AABBCollision,
    c2: AABBCollision,
)
    requires
        distinct_ids(w),
        0 <= p < q < w.len(),
        0 <= p2 < q2 < w.len(),
        crate::names_pair(c1, w[p].0, w[q].0),
        crate::names_pair(c2, w[p2].0, w[q2].0),
        crate::names_pair(c2, c1.entity1, c1.entity2),
    ensures
        p == p2 && q == q2,
{
    if w[p].0 == w[p2].0 && w[q].0 == w[q2].0 {
        lemma_same_id_same_index(w, p, p2);
        lemma_same_id_same_index(w, q, q2);
    } else {
        assert(w[p].0 == w[q2].0 && w[q].0 == w[p2].0);
        lemma_same_id_same_index(w, p, q2);
        lemma_same_id_same_index(w, q, p2);
        assert(false);
    }
}

/// A pair reported by a prefix of the event list is reported by the
/// whole list.
proof fn lemma_reports_extend(s0: Seq<AABBCollision>, s1: Seq<AABBCollision>, a: u64, b: u64)
    requires
        s0.len() <= s1.len(),
        forall|k: int| 0 <= k < s0.len() ==> s1[k] == s0[k],
        reports(s0, a, b),
    ensures
        reports(s1, a, b),
{
    let k = choose|k: int| 0 <= k < s0.len() && crate::names_pair(s0[k], a, b);
    assert(0 <= k < s1.len() && crate::names_pair(s1[k], a, b));
}

/// Event `out[k]` came from a colliding index pair `p < q` of `w`
/// that the sweep has already visited — a row before `i`, or the
/// current row `i` at a column before `j`.
spec fn sound_event(w: Seq<Entry>, out: Seq<AABBCollision>, i: int, j: int, k: int) -> bool {
    exists|p: int, q: int|
        #![trigger colliding(w[p], w[q])]
        0 <= p < q < w.len() && (p < i || (p == i && q < j)) && colliding(w[p], w[q])
            && crate::names_pair(out[k], w[p].0, w[q].0)
}

/// Sweep progress: every event of `out` is accounted for by an
/// already-visited colliding index pair.
spec fn sound_upto(w: Seq<Entry>, out: Seq<AABBCollision>, i: int, j: int) -> bool {
    forall|k: int| 0 <= k < out.len() ==> #[trigger] sound_event(w, out, i, j, k)
}

/// Every colliding pair whose first index lies before row `i` is
/// already reported.
spec fn complete_upto(w: Seq<Entry>, out: Seq<AABBCollision>, i: int) -> bool {
    forall|p: int, q: int|
        #![trigger colliding(w[p], w[q])]
        0 <= p < q < w.len() && p < i && colliding(w[p], w[q]) ==> reports(out, w[p].0, w[q].0)
}

/// Every colliding pair of row `i` with a column before `j` is
/// already reported.
spec fn row_upto(w: Seq<Entry>, out: Seq<AABBCollision>, i: int, j: int) -> bool {
    forall|q: int|
        #![trigger colliding(w[i], w[q])]
        i < q < j && colliding(w[i], w[q]) ==> reports(out, w[i].0, w[q].0)
}

/// Visiting more of the grid only weakens the progress bound.
proof fn lemma_sound_widen(
    w: Seq<Entry>,
    out: Seq<AABBCollision>,
    i: int,
    j: int,
    i2: int,
    j2: int,
)
    requires
        sound_upto(w, out, i, j),
        i < i2 || (i == i2 && j <= j2),
    ensures
        sound_upto(w, out, i2, j2),
{
    assert forall|k: int| 0 <= k < out.len() implies #[trigger] sound_event(w, out, i2, j2, k) by {
        assert(sound_event(w, out, i, j, k));
        let (p, q) = choose|p: int, q: int|
            #![trigger colliding(w[p], w[q])]
            0 <= p < q < w.len() && (p < i || (p == i && q < j)) && colliding(w[p], w[q])
                && crate::names_pair(out[k], w[p].0, w[q].0);
        assert(0 <= p < q < w.len() && (p < i2 || (p == i2 && q < j2)) && colliding(w[p], w[q])
            && crate::names_pair(out[k], w[p].0, w[q].0));
    }
}

/// Appending the event for the colliding pair `(i, j)` advances the
/// sweep's progress facts from column `j` to column `j + 1`, keeps
/// completed rows complete, and introduces no duplicate: the new
/// event's identity pair pins it to the one index pair `(i, j)`,
/// which no earlier-visited pair shares.
proof fn lemma_push_event(
    w: Seq<Entry>,
    out0: Seq<AABBCollision>,
    out1: Seq<AABBCollision>,
    i: int,
    j: int,
)
    requires
        distinct_ids(w),
        0 <= i < j < w.len(),
        colliding(w[i], w[j]),
        out1 == out0.push(AABBCollision { entity1: w[i].0, entity2: w[j].0 }),
        sound_upto(w, out0, i, j),
        complete_upto(w, out0, i),
        row_upto(w, out0, i, j),
        each_pair_once(out0),
    ensures
        sound_upto(w, out1, i, j + 1),
        complete_upto(w, out1, i),
        row_upto(w, out1, i, j + 1),
        each_pair_once(out1),
{
    let new = (AABBCollision { entity1: w[i].0, entity2: w[j].0 });
    assert(out1[out0.len() as int] == new);
    assert(forall|k: int| 0 <= k < out0.len() ==> out1[k] == out0[k]);
    assert(crate::names_pair(new, w[i].0, w[j].0));
    assert forall|k: int| 0 <= k < out1.len() implies #[trigger] sound_event(w, out1, i, j + 1, k)
        by {
        if k < out0.len() {
            assert(sound_event(w, out0, i, j, k));
            let (p, q) = choose|p: int, q: int|
                #![trigger colliding(w[p], w[q])]
                0 <= p < q < w.len() && (p < i || (p == i && q < j)) && colliding(w[p], w[q])
                    && crate::names_pair(out0[k], w[p].0, w[q].0);
            assert(0 <= p < q < w.len() && (p < i || (p == i && q < j + 1)) && colliding(
                w[p],
                w[q],
            ) && crate::names_pair(out1[k], w[p].0, w[q].0));
        } else {
            assert(0 <= i < j < w.len() && (i < i || (i == i && j < j + 1)) && colliding(
                w[i],
                w[j],
            ) && crate::names_pair(out1[k], w[i].0, w[j].0));
        }
    }
    assert forall|p: int, q: int|
        #![trigger colliding(w[p], w[q])]
        0 <= p < q < w.len() && p < i && colliding(w[p], w[q]) implies reports(
        out1,
        w[p].0,
        w[q].0,
    ) by {
        lemma_reports_extend(out0, out1, w[p].0, w[q].0);
    }
    assert forall|q: int|
        #![trigger colliding(w[i], w[q])]
        i < q < j + 1 && colliding(w[i], w[q]) implies reports(out1, w[i].0, w[q].0) by {
        if q < j {
            lemma_reports_extend(out0, out1, w[i].0, w[q].0);
        } else {
            assert(crate::names_pair(out1[out0.len() as int], w[i].0, w[q].0));
        }
    }
    assert forall|k: int, l: int| 0 <= k < l < out1.len() implies !crate::names_pair(
        out1[l],
        out1[k].entity1,
        out1[k].entity2,
    ) by {
        if l < out0.len() {
            assert(!crate::names_pair(out0[l], out0[k].entity1, out0[k].entity2));
        } else {
            assert(sound_event(w, out0, i, j, k));
            let (p, q) = choose|p: int, q: int|
                #![trigger colliding(w[p], w[q])]
                0 <= p < q < w.len() && (p < i || (p == i && q < j)) && colliding(w[p], w[q])
                    && crate::names_pair(out0[k], w[p].0, w[q].0);
            if crate::names_pair(out1[l], out0[k].entity1, out0[k].entity2) {
                lemma_indices_from_names(w, p, q, i, j, out0[k], new);
                assert(false);
            }
        }
    }
}

/// Once a later box starts past the end of row `i`'s box along the
/// sort axis, the whole rest of the sorted array does too, so row `i`
/// is complete.
proof fn lemma_row_close(
    w: Seq<Entry>,
    out: Seq<AABBCollision>,
    axis: int,
    i: int,
    j: int,
)
    requires
        0 <= axis < 2,
        sorted_at(w, axis),
        0 <= i < j <= w.len(),
        row_upto(w, out, i, j),
        j < w.len() ==> entry_min(w[j], axis) > entry_max(w[i], axis),
    ensures
        row_upto(w, out, i, w.len() as int),
{
    assert forall|q: int|
        #![trigger colliding(w[i], w[q])]
        i < q < w.len() && colliding(w[i], w[q]) implies reports(out, w[i].0, w[q].0) by {
        if q >= j {
            assert(entry_min(w[j], axis) <= entry_min(w[q], axis));
            crate::primitives::lemma_overlap_needs_axis_contact(w[i].1, w[q].1, axis);
            assert(false);
        }
    }
}

/// A row completed to the end of the array extends the completed
/// prefix of rows by one.
proof fn lemma_complete_merge(w: Seq<Entry>, out: Seq<AABBCollision>, i: int)
    requires
        0 <= i,
        complete_upto(w, out, i),
        row_upto(w, out, i, w.len() as int),
    ensures
        complete_upto(w, out, i + 1),
{
    assert forall|p: int, q: int|
        #![trigger colliding(w[p], w[q])]
        0 <= p < q < w.len() && p < i + 1 && colliding(w[p], w[q]) implies reports(
        out,
        w[p].0,
        w[q].0,
    ) by {
        if p == i {
            assert(colliding(w[i], w[q]));
        }
    }
}

/// A sound and complete sweep over any reordering of the snapshot
/// detects exactly the snapshot's colliding pairs.
proof fn lemma_final_bridge(w: Seq<Entry>, objects: Seq<Entry>, out: Seq<AABBCollision>)
    requires
        w.to_multiset() == objects.to_multiset(),
        distinct_ids(objects),
        sound_upto(w, out, w.len() as int, w.len() as int + 1),
        complete_upto(w, out, w.len() as int),
        each_pair_once(out),
    ensures
        detects_exactly(objects, out),
{
    reveal(has_colliding_pair);
    lemma_distinct_permutation(objects, w);
    assert forall|k: int| #![trigger out[k]] 0 <= k < out.len() implies has_colliding_pair(
        objects,
        out[k].entity1,
        out[k].entity2,
    ) && out[k].entity1 != out[k].entity2 by {
        assert(sound_event(w, out, w.len() as int, w.len() as int + 1, k));
        let (p, q) = choose|p: int, q: int|
            #![trigger colliding(w[p], w[q])]
            0 <= p < q < w.len() && (p < w.len() || (p == w.len() && q < w.len() + 1)) && colliding(
                w[p],
                w[q],
            ) && crate::names_pair(out[k], w[p].0, w[q].0);
        assert(has_colliding_pair(w, out[k].entity1, out[k].entity2)) by {
            assert(0 <= p < q < w.len() && colliding(w[p], w[q]));
        }
        lemma_pair_transfer(w, objects, out[k].entity1, out[k].entity2);
        assert(w[p].0 != w[q].0);
    }
    assert forall|i0: int, j0: int|
        #![trigger colliding(objects[i0], objects[j0])]
        0 <= i0 < j0 < objects.len() && colliding(objects[i0], objects[j0]) implies reports(
        out,
        objects[i0].0,
        objects[j0].0,
    ) by {
        let a = objects[i0].0;
        let b = objects[j0].0;
        assert(has_colliding_pair(objects, a, b)) by {
            assert(0 <= i0 < j0 < objects.len() && colliding(objects[i0], objects[j0]));
        }
        lemma_pair_transfer(objects, w, a, b);
        let (p, q) = choose|p: int, q: int|
            #![trigger colliding(w[p], w[q])]
            0 <= p < q < w.len() && colliding(w[p], w[q]) && ((w[p].0 == a && w[q].0 == b) || (
            w[p].0 == b && w[q].0 == a));
        assert(reports(out, w[p].0, w[q].0));
        let k = choose|k: int| 0 <= k < out.len() && crate::names_pair(out[k], w[p].0, w[q].0);
        assert(crate::names_pair(out[k], a, b));
    }
}

fn min_at(a: &AABB, axis: usize) -> (r: i32)
    requires
        axis < 2,
    ensures
        r as int == axis_min(*a, axis as int),
{
    if axis == 0 {
        a.min.x
    } else {
        a.min.y
    }
}

fn max_at(a: &AABB, axis: usize) -> (r: i32)
    requires
        axis < 2,
    ensures
        r as int == axis_max(*a, axis as int),
{
    if axis == 0 {
        a.max.x
    } else {
        a.max.y
    }
}

/// Exchanging two elements of a sequence leaves its multiset of
/// elements unchanged.
proof fn lemma_swap_multiset(s: Seq<Entry>, i: int, j: int)
    requires
        0 <= i < s.len(),
        0 <= j < s.len(),
        i != j,
    ensures
        s.update(i, s[j]).update(j, s[i]).to_multiset() == s.to_multiset(),
{
    broadcast use group_to_multiset_ensures;

    let s1 = s.update(i, s[j]);
    let s2 = s1.update(j, s[i]);
    assert(s1[j] == s[j]);
    assert(s.to_multiset().contains(s[i])) by {
        assert(s.contains(s[i]));
    }
    assert(s2.to_multiset() =~= s.to_multiset());
}

/// Sorts the working array ascending by `min` along `axis`
/// (insertion sort: with boxes that move little between cycles the
/// array is nearly sorted already, and the pass is close to linear).
fn sort_working(v: &mut Vec<Entry>, axis: usize)
    requires
        axis < 2,
    ensures
        final(v)@.len() == old(v)@.len(),
        final(v)@.to_multiset() == old(v)@.to_multiset(),
        sorted_at(final(v)@, axis as int),
{
    let n = v.len();
    let mut i: usize = 1;
    while i < n
        invariant
            axis < 2,
            1 <= i,
            n == v@.len(),
            i <= n || n == 0,
            v@.to_multiset() == old(v)@.to_multiset(),
            forall|p: int, q: int|
                0 <= p <= q < i && q < n ==> entry_min(v@[p], axis as int) <= entry_min(
                    v@[q],
                    axis as int,
                ),
        decreases n - i,
    {
        let mut j: usize = i;
        while j > 0 && min_at(&v[j - 1].1, axis) > min_at(&v[j].1, axis)
            invariant
                axis < 2,
                0 <= j <= i < n,
                n == v@.len(),
                v@.to_multiset() == old(v)@.to_multiset(),
                forall|p: int, q: int|
                    0 <= p <= q <= i && q != j ==> entry_min(v@[p], axis as int) <= entry_min(
                        v@[q],
                        axis as int,
                    ),
            decreases j,
        {
            let ghost pre = v@;
            let a = v[j - 1];
            let b = v[j];
            v.set(j - 1, b);
            v.set(j, a);
            proof {
                assert(v@ =~= pre.update(j - 1, pre[j as int]).update(j as int, pre[j - 1]));
                lemma_swap_multiset(pre, j - 1, j as int);
            }
            j = j - 1;
        }
        i = i + 1;
    }
}

/// One row of the sweep: starting just after index `i` of the sorted
/// working array, examines forward candidates while they still start
/// at or before the end of box `i` along the sort axis, and appends
/// an event for each overlapping, filter-permitted pair.
#[verifier::loop_isolation(false)]
fn sweep_row(
    aabbs: &Vec<Entry>,
    axis: usize,
    i: usize,
    out: &mut Vec<AABBCollision>,
    examined: &mut u64,
)
    requires
        axis < 2,
        i < aabbs@.len(),
        aabbs@.len() <= 0x8000_0000,
        sorted_at(aabbs@, axis as int),
        distinct_ids(aabbs@),
        *old(examined) as int <= (i as int) * (aabbs@.len() as int),
        sound_upto(aabbs@, old(out)@, i as int, i as int + 1),
        complete_upto(aabbs@, old(out)@, i as int),
        each_pair_once(old(out)@),
    ensures
        *final(examined) as int <= (i as int + 1) * (aabbs@.len() as int),
        sound_upto(aabbs@, final(out)@, i as int + 1, i as int + 2),
        complete_upto(aabbs@, final(out)@, i as int + 1),
        each_pair_once(final(out)@),
{
    let ghost w = aabbs@;
    let n = aabbs.len();
    let e1 = aabbs[i];
    let maxk = max_at(&e1.1, axis);
    let mut j: usize = i + 1;
    // scan forward only while a later box still starts at or before
    // the end of the current one: past that bound, nothing further in
    // sort order can overlap it along the sort axis
    while j < n && min_at(&aabbs[j].1, axis) <= maxk
        invariant
            i + 1 <= j <= n,
            *examined as int <= (i as int) * (n as int) + (j as int) - (i as int) - 1,
            sound_upto(w, out@, i as int, j as int),
            complete_upto(w, out@, i as int),
            row_upto(w, out@, i as int, j as int),
            each_pair_once(out@),
        decreases n - j,
    {
        proof {
            assert((i as int) * (n as int) + (n as int) <= 0x8000_0000 * 0x8000_0000
                + 0x8000_0000) by (nonlinear_arith)
                requires
                    0 <= i as int <= 0x8000_0000,
                    0 <= n as int <= 0x8000_0000,
            ;
        }
        *examined = *examined + 1;
        let e2 = aabbs[j];
        // `collides` is not commutative: report the pair when either
        // direction permits it and the boxes overlap
        if (e1.2.collides(e2.2) || e2.2.collides(e1.2)) && aabb_aabb(&e1.1, &e2.1) {
            let ghost out0 = out@;
            out.push(AABBCollision { entity1: e1.0, entity2: e2.0 });
            proof {
                assert(colliding(w[i as int], w[j as int]));
                lemma_push_event(w, out0, out@, i as int, j as int);
            }
        } else {
            proof {
                assert(!colliding(w[i as int], w[j as int]));
                lemma_sound_widen(w, out@, i as int, j as int, i as int, j as int + 1);
            }
        }
        j = j + 1;
    }
    proof {
        lemma_row_close(w, out@, axis as int, i as int, j as int);
        lemma_complete_merge(w, out@, i as int);
        lemma_sound_widen(w, out@, i as int, j as int, i as int + 1, i as int + 2);
        assert((i as int + 1) * (n as int) == (i as int) * (n as int) + (n as int))
            by (nonlinear_arith);
    }
}

/// The detector's persistent state: the reusable working array and
/// the axis the next cycle sorts by, carried across cycles. The
/// working array is rebuilt from scratch every cycle; only its
/// allocation and the chosen axis survive a cycle.
pub struct AABBArray {
    aabbs: Vec<Entry>,
    sort_axis: usize,
    candidates_examined: u64,
}

impl AABBArray {
    /// The detector's state invariant: the sort axis is 0 (x) or 1 (y).
    pub closed spec fn wf(self) -> bool {
        self.sort_axis < 2
    }

    /// The axis the next cycle will sort by: 0 for x, 1 for y.
    pub closed spec fn axis_spec(self) -> int {
        self.sort_axis as int
    }

    /// How many candidate pairs the last cycle's sweep examined.
    pub closed spec fn candidates_spec(self) -> u64 {
        self.candidates_examined
    }

    /// A fresh detector, sorting by x first.
    pub fn new() -> (r: AABBArray)
        ensures
            r.wf(),
            r.axis_spec() == 0,
            r.candidates_spec() == 0,
    {
        AABBArray { aabbs: Vec::new(), sort_axis: 0, candidates_examined: 0 }
    }

    /// The axis the next cycle will sort by.
    pub fn sort_axis(&self) -> (r: usize)
        ensures
            r == self.axis_spec(),
    {
        self.sort_axis
    }

    /// How many candidate pairs the last cycle's sweep examined: the
    /// number of inner-loop steps that passed the pruning bound.
    /// Instrumentation for observing the sweep's sub-quadratic cost.
    pub fn candidates_examined(&self) -> (r: u64)
        ensures
            r == self.candidates_spec(),
    {
        self.candidates_examined
    }

    /// One detection cycle over the given snapshot: rebuilds the
    /// working array, sorts it along the current axis, sweeps for
    /// overlapping filter-permitted neighbours, and re-selects the
    /// axis of larger positional spread for the next cycle.
    ///
    /// The returned batch holds exactly the overlapping, permitted
    /// unordered identity pairs of the snapshot, each once; which
    /// axis was used to find them does not affect the result. An
    /// empty snapshot yields no events and leaves the axis unchanged.
    #[verifier::loop_isolation(false)]
    pub fn sort_sweep(&mut self, objects: &Vec<Entry>) -> (out: Vec<AABBCollision>)
        requires
            old(self).wf(),
            distinct_ids(objects@),
            objects@.len() < 0x8000_0000,
        ensures
            final(self).wf(),
            detects_exactly(objects@, out@),
            objects@.len() == 0 ==> out@.len() == 0 && final(self).axis_spec() == old(
                self,
            ).axis_spec(),
            objects@.len() > 0 ==> final(self).axis_spec() == chosen_axis(objects@),
    {
        self.candidates_examined = 0;

        // rebuild the working array from the snapshot
        self.aabbs.clear();
        let mut k: usize = 0;
        while k < objects.len()
            invariant
                k <= objects@.len(),
                self.aabbs@ == objects@.take(k as int),
                self.sort_axis == old(self).sort_axis,
                self.candidates_examined == 0,
            decreases objects@.len() - k,
        {
            self.aabbs.push(objects[k]);
            proof {
                assert(objects@.take(k as int + 1) =~= objects@.take(k as int).push(
                    objects@[k as int],
                ));
            }
            k = k + 1;
        }
        proof {
            assert(objects@.take(objects@.len() as int) =~= objects@);
        }

        if self.aabbs.len() == 0 {
            return Vec::new();
        }

        // sort the array by the current axis
        let axis = self.sort_axis;
        sort_working(&mut self.aabbs, axis);
        let ghost w = self.aabbs@;
        let n = self.aabbs.len();
        proof {
            lemma_distinct_permutation(objects@, w);
        }

        // sweep for collisions, accumulating the center sums that
        // drive the next cycle's axis choice
        let mut out: Vec<AABBCollision> = Vec::new();
        let mut sx: i128 = 0;
        let mut sy: i128 = 0;
        let mut s2x: i128 = 0;
        let mut s2y: i128 = 0;
        let mut examined: u64 = 0;
        let mut i: usize = 0;
        while i < n
            invariant
                i <= n,
                sx as int == sum_centers(w.take(i as int), 0),
                sy as int == sum_centers(w.take(i as int), 1),
                s2x as int == sum_squares(w.take(i as int), 0),
                s2y as int == sum_squares(w.take(i as int), 1),
                -(i as int) * 0x1_0000_0000 <= sx as int <= (i as int) * 0x1_0000_0000,
                -(i as int) * 0x1_0000_0000 <= sy as int <= (i as int) * 0x1_0000_0000,
                0 <= s2x as int <= (i as int) * 0x1_0000_0000_0000_0000,
                0 <= s2y as int <= (i as int) * 0x1_0000_0000_0000_0000,
                examined as int <= (i as int) * (n as int),
                sound_upto(w, out@, i as int, i as int + 1),
                complete_upto(w, out@, i as int),
                each_pair_once(out@),
            decreases n - i,
        {
            let e1 = self.aabbs[i];
            proof {
                assert(e1 == w[i as int]);
            }
            let cx: i128 = (e1.1.min.x as i128) + (e1.1.max.x as i128);
            let cy: i128 = (e1.1.min.y as i128) + (e1.1.max.y as i128);
            proof {
                lemma_sum_take_step(w, 0, i as int);
                lemma_sum_take_step(w, 1, i as int);
                assert(cx as int == center2(w[i as int], 0));
                assert(cy as int == center2(w[i as int], 1));
                assert(cx * cx <= 0x1_0000_0000_0000_0000 && cx * cx >= 0) by (nonlinear_arith)
                    requires
                        -0x1_0000_0000 <= cx <= 0x1_0000_0000,
                ;
                assert(cy * cy <= 0x1_0000_0000_0000_0000 && cy * cy >= 0) by (nonlinear_arith)
                    requires
                        -0x1_0000_0000 <= cy <= 0x1_0000_0000,
                ;
            }
            sx = sx + cx;
            s2x = s2x + cx * cx;
            sy = sy + cy;
            s2y = s2y + cy * cy;
            sweep_row(&self.aabbs, axis, i, &mut out, &mut examined);
            i = i + 1;
        }
        proof {
            assert(w.take(n as int) =~= w);
        }

        // update the sort axis to the one with the greater variance
        proof {
            assert((n as int) * 0x1_0000_0000 <= 0x8000_0000 * 0x1_0000_0000) by (nonlinear_arith)
                requires
                    0 <= (n as int) <= 0x8000_0000,
            ;
            assert((n as int) * 0x1_0000_0000_0000_0000 <= 0x8000_0000
                * 0x1_0000_0000_0000_0000) by (nonlinear_arith)
                requires
                    0 <= (n as int) <= 0x8000_0000,
            ;
            assert(0 <= sx * sx <= 0x8000_0000_0000_0000 * 0x8000_0000_0000_0000)
                by (nonlinear_arith)
                requires
                    -0x8000_0000_0000_0000 <= sx as int <= 0x8000_0000_0000_0000,
            ;
            assert(0 <= sy * sy <= 0x8000_0000_0000_0000 * 0x8000_0000_0000_0000)
                by (nonlinear_arith)
                requires
                    -0x8000_0000_0000_0000 <= sy as int <= 0x8000_0000_0000_0000,
            ;
        }
        let varx: i128 = s2x - sx * sx;
        let vary: i128 = s2y - sy * sy;
        self.sort_axis = if vary > varx {
            1
        } else {
            0
        };
        self.candidates_examined = examined;

        proof {
            lemma_sums_permutation(w, objects@, 0);
            lemma_sums_permutation(w, objects@, 1);
            lemma_final_bridge(w, objects@, out@);
        }
        out
    }
}

} // verus!
