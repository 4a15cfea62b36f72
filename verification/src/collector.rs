//! The collection pass: snapshotting reference counts into the shadow
//! counters, subtracting internal edges, isolating the unreachable subgraph,
//! quarantining finalizable objects, and reclaiming the rest.

use vstd::prelude::*;

use crate::error::{GCError, GCResult};
use crate::generation::GenerationManager;
use crate::object::{child_ids, contains_id, ObjectId, PyGCHead, PyObject};
use crate::traversal::{
    find_object, ids_of, is_path, pair_rel, reach_from, reaches, Reference, ReferenceType,
};

verus! {

broadcast use {vstd::seq_lib::group_seq_properties, vstd::set::group_set_axioms};

/// What the pass decided about one object of the collection set.
#[derive(Debug, Clone, PartialEq, Eq, Structural)]
pub enum GCState {
    /// Externally reachable; the object survives.
    Reachable,
    /// Unreachable and free of finalizers; the object is reclaimed.
    Unreachable,
    /// Unreachable but tied to a finalizer; the object is quarantined.
    HasFinalizer,
}

/// How many of the listed edges point at `id`.
pub open spec fn incount_to(pairs: Seq<(ObjectId, ObjectId)>, id: ObjectId) -> int
    decreases pairs.len(),
{
    if pairs.len() == 0 {
        0
    } else {
        incount_to(pairs.drop_last(), id) + (if pairs.last().1 == id {
            1int
        } else {
            0int
        })
    }
}

/// Whether one reference counts against `id`'s shadow counter during a pass
/// over `work`: it is not weak, it starts inside the collection set, and it
/// points at `id`.
pub open spec fn counts_against(r: Reference, work: Seq<PyObject>, id: ObjectId) -> bool {
    r.reference_type != ReferenceType::Weak && ids_of(work).contains(r.from) && r.to == id
}

/// How many of the references count against `id` during a pass over `work`.
pub open spec fn pass_incount(refs: Seq<Reference>, work: Seq<PyObject>, id: ObjectId) -> int
    decreases refs.len(),
{
    if refs.len() == 0 {
        0
    } else {
        pass_incount(refs.drop_last(), work, id) + (if counts_against(refs.last(), work, id) {
            1int
        } else {
            0int
        })
    }
}

/// The step relation of a collection pass over `work`: a non-weak reference
/// whose two ends both lie in the collection set.
pub open spec fn pass_rel(work: Seq<PyObject>, refs: Seq<Reference>) -> spec_fn(
    ObjectId,
    ObjectId,
) -> bool {
    |a: ObjectId, b: ObjectId|
        ids_of(work).contains(a) && ids_of(work).contains(b) && (exists|k: int|
            0 <= k < refs.len() && (#[trigger] refs[k]).reference_type != ReferenceType::Weak
                && refs[k].from == a && refs[k].to == b)
}

/// An object as it stands right after the snapshot step of a pass: shadow
/// counter loaded from the true count, `collecting` bit set, the bit
/// mirrored into the low bits of the backward link word.
pub open spec fn marked_for_pass(o: PyObject) -> PyObject {
    PyObject {
        gc_head: PyGCHead {
            gc_refs: o.refcount as isize,
            collecting: true,
            _gc_prev: o.gc_head._gc_prev | 2,
            ..o.gc_head
        },
        ..o
    }
}

/// `b` is `a` with nothing but the shadow counter changed.
pub open spec fn same_except_shadow(a: PyObject, b: PyObject) -> bool {
    b == (PyObject { gc_head: PyGCHead { gc_refs: b.gc_head.gc_refs, ..a.gc_head }, ..a })
}

/// Snapshot step: for every object of the collection set, load the shadow
/// counter from the true reference count and set the `collecting` bit.
pub fn update_refs(work: &mut Vec<PyObject>)
    requires
        forall|i: int| 0 <= i < old(work)@.len() ==> (#[trigger] old(work)@[i]).wf(),
    ensures
        final(work)@.len() == old(work)@.len(),
        forall|i: int|
            0 <= i < old(work)@.len() ==> final(work)@[i] == marked_for_pass(
                #[trigger] old(work)@[i],
            ),
{
    let mut i: usize = 0;
    while i < work.len()
        invariant
            i <= work@.len(),
            work@.len() == old(work)@.len(),
            forall|j: int| 0 <= j < old(work)@.len() ==> (#[trigger] old(work)@[j]).wf(),
            forall|j: int|
                0 <= j < i ==> work@[j] == marked_for_pass(#[trigger] old(work)@[j]),
            forall|j: int| i <= j < work@.len() ==> work@[j] == #[trigger] old(work)@[j],
        decreases work@.len() - i,
    {
        let rc = work[i].refcount;
        work[i].gc_head.gc_refs = rc as isize;
        work[i].gc_head.collecting = true;
        let prev = work[i].gc_head._gc_prev;
        work[i].gc_head._gc_prev = prev | 2;
        i = i + 1;
    }
}

/// One more edge in the prefix counts at most one more reference.
proof fn lemma_pass_incount_take_step(
    refs: Seq<Reference>,
    work: Seq<PyObject>,
    k: int,
    id: ObjectId,
)
    requires
        0 <= k < refs.len(),
    ensures
        pass_incount(refs.take(k + 1), work, id) == pass_incount(refs.take(k), work, id) + (if
        counts_against(refs[k], work, id) {
            1int
        } else {
            0int
        }),
{
    let t = refs.take(k + 1);
    assert(t.drop_last() =~= refs.take(k));
    assert(t.last() == refs[k]);
}

/// Appending one pair bumps the count of exactly its target.
proof fn lemma_incount_push(pairs: Seq<(ObjectId, ObjectId)>, p: (ObjectId, ObjectId), id: ObjectId)
    ensures
        incount_to(pairs.push(p), id) == incount_to(pairs, id) + (if p.1 == id {
            1int
        } else {
            0int
        }),
{
    assert(pairs.push(p).drop_last() =~= pairs);
    assert(pairs.push(p).last() == p);
}

/// Appending one pair extends the pair relation by exactly that edge.
proof fn lemma_pair_rel_push(pairs: Seq<(ObjectId, ObjectId)>, p: (ObjectId, ObjectId))
    ensures
        forall|a: ObjectId, b: ObjectId|
            #[trigger] pair_rel(pairs.push(p))(a, b) <==> pair_rel(pairs)(a, b) || (a == p.0 && b
                == p.1),
{
    assert forall|a: ObjectId, b: ObjectId|
        #[trigger] pair_rel(pairs.push(p))(a, b) <==> pair_rel(pairs)(a, b) || (a == p.0 && b
            == p.1) by {
        let q = pairs.push(p);
        if pair_rel(q)(a, b) {
            let k = choose|k: int|
                0 <= k < q.len() && #[trigger] q[k].0 == a && q[k].1 == b;
            if k < pairs.len() {
                assert(pairs[k].0 == a && pairs[k].1 == b);
                assert(pair_rel(pairs)(a, b));
            } else {
                assert(q[k] == p);
            }
        }
        if pair_rel(pairs)(a, b) {
            let k = choose|k: int|
                0 <= k < pairs.len() && #[trigger] pairs[k].0 == a && pairs[k].1 == b;
            assert(q[k].0 == a && q[k].1 == b);
            assert(pair_rel(q)(a, b));
        }
        if a == p.0 && b == p.1 {
            assert(q[pairs.len() as int].0 == a && q[pairs.len() as int].1 == b);
            assert(pair_rel(q)(a, b));
        }
    }
}

/// The membership of an id among the objects, as the object index sees it.
proof fn lemma_ids_member(work: Seq<PyObject>, i: int)
    requires
        0 <= i < work.len(),
    ensures
        ids_of(work).contains(work[i].id),
{
    assert(ids_of(work)[i] == work[i].id);
}

proof fn lemma_ids_absent(work: Seq<PyObject>, id: ObjectId)
    requires
        forall|j: int| 0 <= j < work.len() ==> (#[trigger] work[j]).id != id,
    ensures
        !ids_of(work).contains(id),
{
    if ids_of(work).contains(id) {
        let j = choose|j: int| 0 <= j < ids_of(work).len() && ids_of(work)[j] == id;
        assert(work[j].id == id);
    }
}

/// Builds the edge list of a collection pass over `work`: every non-weak
/// reference whose two ends both lie in the set, as an id pair, in
/// reference order.
pub fn build_pass_edges(work: &Vec<PyObject>, refs: &Vec<Reference>) -> (pairs: Vec<
    (ObjectId, ObjectId),
>)
    ensures
        forall|j: int|
            0 <= j < work@.len() ==> incount_to(pairs@, (#[trigger] work@[j]).id) == pass_incount(
                refs@,
                work@,
                work@[j].id,
            ),
        forall|a: ObjectId, b: ObjectId|
            #[trigger] pair_rel(pairs@)(a, b) <==> #[trigger] pass_rel(work@, refs@)(a, b),
        forall|k: int|
            0 <= k < pairs@.len() ==> ids_of(work@).contains((#[trigger] pairs@[k]).0) && ids_of(
                work@,
            ).contains(pairs@[k].1),
{
    let mut pairs: Vec<(ObjectId, ObjectId)> = Vec::new();
    let mut k: usize = 0;
    proof {
        assert(refs@.take(0) =~= Seq::<Reference>::empty());
    }
    while k < refs.len()
        invariant
            k <= refs@.len(),
            forall|j: int|
                0 <= j < work@.len() ==> incount_to(pairs@, (#[trigger] work@[j]).id)
                    == pass_incount(refs@.take(k as int), work@, work@[j].id),
            forall|a: ObjectId, b: ObjectId|
                #[trigger] pair_rel(pairs@)(a, b) <==> pass_rel(work@, refs@.take(k as int))(
                    a,
                    b,
                ),
            forall|kk: int|
                0 <= kk < pairs@.len() ==> ids_of(work@).contains((#[trigger] pairs@[kk]).0)
                    && ids_of(work@).contains(pairs@[kk].1),
        decreases refs@.len() - k,
    {
        let r = refs[k];
        let ghost oldpairs = pairs@;
        let is_weak = matches!(r.reference_type, ReferenceType::Weak);
        if !is_weak {
            let from_at = find_object(work, r.from);
            let to_at = find_object(work, r.to);
            match (from_at, to_at) {
                (Some(fi), Some(ti)) => {
                    proof {
                        lemma_ids_member(work@, fi as int);
                        lemma_ids_member(work@, ti as int);
                    }
                    pairs.push((r.from, r.to));
                },
                _ => {
                    proof {
                        if from_at is None {
                            lemma_ids_absent(work@, r.from);
                        }
                        if to_at is None {
                            lemma_ids_absent(work@, r.to);
                        }
                    }
                },
            }
        }
        proof {
            let kk = k as int;
            assert(refs@[kk] == r);
            // Counting: one step of the prefix.
            assert forall|j: int|
                0 <= j < work@.len() implies incount_to(pairs@, (#[trigger] work@[j]).id)
                == pass_incount(refs@.take(kk + 1), work@, work@[j].id) by {
                let id = work@[j].id;
                lemma_pass_incount_take_step(refs@, work@, kk, id);
                if pairs@ != oldpairs {
                    lemma_incount_push(oldpairs, (r.from, r.to), id);
                    assert(counts_against(r, work@, id) <==> (r.to == id));
                } else {
                    if counts_against(r, work@, id) {
                        if r.reference_type != ReferenceType::Weak {
                            if ids_of(work@).contains(r.from) && ids_of(work@).contains(r.to) {
                                assert(false);
                            } else {
                                assert(r.to == id);
                                lemma_ids_member(work@, j);
                                assert(false);
                            }
                        }
                    }
                }
            }
            // The relation: one step of the prefix.
            assert forall|a: ObjectId, b: ObjectId|
                #[trigger] pair_rel(pairs@)(a, b) <==> pass_rel(work@, refs@.take(kk + 1))(
                    a,
                    b,
                ) by {
                let t = refs@.take(kk + 1);
                assert(t.drop_last() =~= refs@.take(kk));
                assert(t.last() == r);
                if pairs@ != oldpairs {
                    lemma_pair_rel_push(oldpairs, (r.from, r.to));
                }
                if pair_rel(pairs@)(a, b) {
                    if pair_rel(oldpairs)(a, b) {
                        assert(pass_rel(work@, refs@.take(kk))(a, b));
                        let k2 = choose|k2: int|
                            0 <= k2 < refs@.take(kk).len() && (#[trigger] refs@.take(kk)[
                                k2
                            ]).reference_type != ReferenceType::Weak && refs@.take(kk)[k2].from
                                == a && refs@.take(kk)[k2].to == b;
                        assert(t[k2] == refs@.take(kk)[k2]);
                        assert(pass_rel(work@, t)(a, b));
                    } else {
                        assert(a == r.from && b == r.to);
                        assert(t[kk] == r);
                        assert(pass_rel(work@, t)(a, b));
                    }
                }
                if pass_rel(work@, t)(a, b) {
                    let k2 = choose|k2: int|
                        0 <= k2 < t.len() && (#[trigger] t[k2]).reference_type
                            != ReferenceType::Weak && t[k2].from == a && t[k2].to == b;
                    if k2 < kk {
                        assert(refs@.take(kk)[k2] == t[k2]);
                        assert(pass_rel(work@, refs@.take(kk))(a, b));
                        assert(pair_rel(oldpairs)(a, b));
                    } else {
                        assert(t[k2] == r);
                        assert(a == r.from && b == r.to);
                        assert(ids_of(work@).contains(a) && ids_of(work@).contains(b));
                        if pairs@ == oldpairs {
                            let fj = choose|fj: int|
                                0 <= fj < ids_of(work@).len() && ids_of(work@)[fj] == a;
                            let tj = choose|tj: int|
                                0 <= tj < ids_of(work@).len() && ids_of(work@)[tj] == b;
                            assert(work@[fj].id == a);
                            assert(work@[tj].id == b);
                            assert(false);
                        }
                    }
                    assert(pair_rel(pairs@)(a, b));
                }
            }
        }
        k = k + 1;
    }
    proof {
        assert(refs@.take(refs@.len() as int) =~= refs@);
    }
    pairs
}

/// Subtraction step: walk the pass edges and decrement each target's shadow
/// counter, so that afterwards every shadow counter holds the number of
/// references into the object from outside the collection set. A counter
/// that would drop below zero means the host's reference counts disagree
/// with the recorded references; the pass is then abandoned.
pub fn subtract_refs(work: &mut Vec<PyObject>, pairs: &Vec<(ObjectId, ObjectId)>) -> (r: GCResult<
    (),
>)
    requires
        ids_of(old(work)@).no_duplicates(),
        forall|i: int| 0 <= i < old(work)@.len() ==> (#[trigger] old(work)@[i]).wf(),
        forall|i: int|
            0 <= i < old(work)@.len() ==> (#[trigger] old(work)@[i]).gc_head.gc_refs == old(
                work,
            )@[i].refcount,
        forall|k: int|
            0 <= k < pairs@.len() ==> ids_of(old(work)@).contains((#[trigger] pairs@[k]).1),
    ensures
        final(work)@.len() == old(work)@.len(),
        forall|i: int|
            0 <= i < old(work)@.len() ==> same_except_shadow(
                #[trigger] old(work)@[i],
                final(work)@[i],
            ),
        r is Ok ==> forall|i: int|
            0 <= i < old(work)@.len() ==> final(work)@[i].gc_head.gc_refs == (
            #[trigger] old(work)@[i]).refcount - incount_to(pairs@, old(work)@[i].id)
                && incount_to(pairs@, old(work)@[i].id) <= old(work)@[i].refcount,
        r is Err ==> (r matches Err(e) && e is ReferenceCountError) && (exists|i: int|
            0 <= i < old(work)@.len() && incount_to(pairs@, (#[trigger] old(work)@[i]).id) > old(
                work,
            )@[i].refcount),
{
    let mut k: usize = 0;
    proof {
        assert(pairs@.take(0) =~= Seq::<(ObjectId, ObjectId)>::empty());
    }
    while k < pairs.len()
        invariant
            k <= pairs@.len(),
            work@.len() == old(work)@.len(),
            ids_of(old(work)@).no_duplicates(),
            ids_of(work@) == ids_of(old(work)@),
            forall|i: int| 0 <= i < old(work)@.len() ==> (#[trigger] old(work)@[i]).wf(),
            forall|i: int|
                0 <= i < old(work)@.len() ==> same_except_shadow(
                    #[trigger] old(work)@[i],
                    work@[i],
                ),
            forall|i: int|
                0 <= i < old(work)@.len() ==> work@[i].gc_head.gc_refs == (
                #[trigger] old(work)@[i]).refcount - incount_to(
                    pairs@.take(k as int),
                    old(work)@[i].id,
                ) && incount_to(pairs@.take(k as int), old(work)@[i].id) <= old(
                    work,
                )@[i].refcount,
            forall|kk: int|
                0 <= kk < pairs@.len() ==> ids_of(old(work)@).contains(
                    (#[trigger] pairs@[kk]).1,
                ),
        decreases pairs@.len() - k,
    {
        let b = pairs[k].1;
        let ghost kk = k as int;
        let to_at = find_object(work, b);
        match to_at {
            Some(j) => {
                let cur = work[j].gc_head.gc_refs;
                proof {
                    assert(work@[j as int].id == old(work)@[j as int].id);
                    // The found index is the only one with this id.
                    assert forall|i: int|
                        0 <= i < old(work)@.len() && old(work)@[i].id == b implies i
                        == j as int by {
                        assert(ids_of(old(work)@)[i] == b);
                        assert(ids_of(old(work)@)[j as int] == b);
                    }
                    lemma_incount_take_push_pairs(pairs@, kk, b);
                }
                if cur <= 0 {
                    proof {
                        let jj = j as int;
                        assert(incount_to(pairs@.take(kk + 1), old(work)@[jj].id) == old(
                            work,
                        )@[jj].refcount + 1);
                        lemma_incount_take_le_pairs(pairs@, kk + 1, b);
                    }
                    return Err(
                        GCError::ReferenceCountError(crate::error::shadow_underflow_message()),
                    );
                }
                work[j].gc_head.gc_refs = cur - 1;
                proof {
                    assert forall|i: int|
                        0 <= i < old(work)@.len() implies work@[i].gc_head.gc_refs == (
                        #[trigger] old(work)@[i]).refcount - incount_to(
                            pairs@.take(kk + 1),
                            old(work)@[i].id,
                        ) && incount_to(pairs@.take(kk + 1), old(work)@[i].id) <= old(
                            work,
                        )@[i].refcount by {
                        lemma_incount_take_push_pairs(pairs@, kk, old(work)@[i].id);
                    }
                }
            },
            None => {
                proof {
                    assert forall|jx: int|
                        0 <= jx < work@.len() implies (#[trigger] old(work)@[jx]).id != b by {
                        assert(work@[jx].id == old(work)@[jx].id);
                    }
                    lemma_ids_absent(old(work)@, b);
                    assert(false);
                }
            },
        }
        k = k + 1;
    }
    proof {
        assert(pairs@.take(pairs@.len() as int) =~= pairs@);
    }
    Ok(())
}

/// One more pair in the prefix bumps the count of exactly its target.
proof fn lemma_incount_take_push_pairs(pairs: Seq<(ObjectId, ObjectId)>, k: int, id: ObjectId)
    requires
        0 <= k < pairs.len(),
    ensures
        incount_to(pairs.take(k + 1), id) == incount_to(pairs.take(k), id) + (if pairs[k].1 == id {
            1int
        } else {
            0int
        }),
{
    let t = pairs.take(k + 1);
    assert(t.drop_last() =~= pairs.take(k));
    assert(t.last() == pairs[k]);
}

/// Counting over a longer prefix of the pairs never counts fewer.
proof fn lemma_incount_take_le_pairs(pairs: Seq<(ObjectId, ObjectId)>, m: int, id: ObjectId)
    requires
        0 <= m <= pairs.len(),
    ensures
        incount_to(pairs.take(m), id) <= incount_to(pairs, id),
    decreases pairs.len() - m,
{
    if m == pairs.len() {
        assert(pairs.take(m) =~= pairs);
    } else {
        lemma_incount_take_push_pairs(pairs, m, id);
        lemma_incount_take_le_pairs(pairs, m + 1, id);
    }
}

/// The ids of the collection set whose shadow counter stayed positive:
/// these hold references from outside the set and root the survivors.
pub fn collect_pass_roots(work: &Vec<PyObject>) -> (r: Vec<ObjectId>)
    requires
        ids_of(work@).no_duplicates(),
    ensures
        r@.no_duplicates(),
        forall|x: ObjectId|
            r@.contains(x) <==> (exists|j: int|
                0 <= j < work@.len() && (#[trigger] work@[j]).id == x && work@[j].gc_head.gc_refs
                    > 0),
{
    let mut r: Vec<ObjectId> = Vec::new();
    let mut i: usize = 0;
    while i < work.len()
        invariant
            i <= work@.len(),
            ids_of(work@).no_duplicates(),
            r@.no_duplicates(),
            forall|x: ObjectId|
                r@.contains(x) <==> (exists|j: int|
                    0 <= j < i && (#[trigger] work@[j]).id == x && work@[j].gc_head.gc_refs > 0),
        decreases work@.len() - i,
    {
        let positive = work[i].gc_head.gc_refs > 0;
        if positive {
            let id = work[i].id;
            proof {
                if r@.contains(id) {
                    let j = choose|j: int|
                        0 <= j < i && (#[trigger] work@[j]).id == id && work@[j].gc_head.gc_refs
                            > 0;
                    assert(ids_of(work@)[j] == id);
                    assert(ids_of(work@)[i as int] == id);
                    assert(false);
                }
            }
            r.push(id);
        }
        i = i + 1;
    }
    r
}

/// The debug flag that reports statistics.
pub const DEBUG_STATS: u32 = 1;

/// The debug flag that reports collectable objects.
pub const DEBUG_COLLECTABLE: u32 = 2;

/// The debug flag that reports uncollectable objects.
pub const DEBUG_UNCOLLECTABLE: u32 = 4;

/// The debug flag that reports instances.
pub const DEBUG_INSTANCES: u32 = 8;

/// The debug flag that reports all objects.
pub const DEBUG_OBJECTS: u32 = 16;

/// The debug flag that quarantines every reclaimed object for inspection
/// instead of freeing it.
pub const DEBUG_SAVEALL: u32 = 32;

/// The debug flag that reports leaks at shutdown.
pub const DEBUG_LEAK: u32 = 64;

/// Keep predicate for references not touching any of the listed ids.
pub open spec fn keeps_untouched(ids: Seq<ObjectId>) -> spec_fn(Reference) -> bool {
    |r: Reference| !ids.contains(r.from) && !ids.contains(r.to)
}

/// The direct reference a tracked object's payload contributes for one of
/// its child ids.
pub open spec fn payload_ref_of(from: ObjectId) -> spec_fn(ObjectId) -> Reference {
    |c: ObjectId| Reference { from, to: c, reference_type: ReferenceType::Direct }
}

/// The references a payload contributes when its object is tracked: one
/// direct reference per child id, in traversal order.
pub open spec fn payload_refs(o: PyObject) -> Seq<Reference> {
    child_ids(o.data).map_values(payload_ref_of(o.id))
}

/// The cycle collector: the table of tracked object records, the age
/// cohorts that partition them, the reference graph the passes walk, the
/// quarantine of uncollectable objects, and the debug flags and counters.
pub struct Collector {
    /// The three age cohorts plus the permanent one; they hold exactly the
    /// ids of `tracked_objects`, each id in exactly one list.
    pub generation_manager: GenerationManager,
    /// The record of every tracked object; ids are pairwise distinct.
    pub tracked_objects: Vec<PyObject>,
    /// Objects a pass refused to reclaim, quarantined for the host.
    pub uncollectable: Vec<PyObject>,
    /// For each quarantined object, whether the save-all debug bit held it.
    pub saved_by_debug: Ghost<Seq<bool>>,
    /// For each quarantined object, whether it was reachable from an object
    /// with a finalizer inside the unreachable set.
    pub finalizer_linked: Ghost<Seq<bool>>,
    /// Every recorded reference between objects.
    pub references: Vec<Reference>,
    /// The debug flag bits.
    pub debug_flags: u32,
    /// How many collection passes have completed.
    pub collections: usize,
    /// How many objects the passes have reclaimed altogether.
    pub collected_total: usize,
}

impl Collector {
    /// The ids of the tracked objects, in table order.
    pub open spec fn tracked_ids(self) -> Seq<ObjectId> {
        ids_of(self.tracked_objects@)
    }

    /// The ids a collection of generation `g` works on: every cohort up to
    /// and including `g`, since collecting a generation implicitly collects
    /// everything younger.
    pub open spec fn collection_ids(self, g: int) -> Seq<ObjectId> {
        if g == 0 {
            self.generation_manager.member_list(0)
        } else if g == 1 {
            self.generation_manager.member_list(0) + self.generation_manager.member_list(1)
        } else {
            self.generation_manager.member_list(0) + self.generation_manager.member_list(1)
                + self.generation_manager.member_list(2)
        }
    }

    /// The collection set of a pass over generation `g`: the tracked
    /// records whose ids the pass works on, in table order.
    pub open spec fn pass_work(self, g: int) -> Seq<PyObject> {
        self.tracked_objects@.filter(keeps_in(self.collection_ids(g)))
    }

    /// The roots of a pass: members of the collection set whose reference
    /// count exceeds the number of references into them from inside the
    /// set, which proves a reference from outside.
    pub open spec fn pass_roots(self, g: int) -> Set<ObjectId> {
        Set::new(
            |x: ObjectId|
                exists|j: int|
                    0 <= j < self.pass_work(g).len() && (#[trigger] self.pass_work(g)[j]).id == x
                        && self.pass_work(g)[j].refcount > pass_incount(
                        self.references@,
                        self.pass_work(g),
                        x,
                    ),
        )
    }

    /// Whether the pass over generation `g` finds the id `x` alive: some
    /// root reaches it over the non-weak references inside the set.
    pub open spec fn pass_live(self, g: int, x: ObjectId) -> bool {
        reaches(pass_rel(self.pass_work(g), self.references@), self.pass_roots(g), x)
    }

    /// Keep predicate for the survivors of the pass.
    pub open spec fn live_pred(self, g: int) -> spec_fn(PyObject) -> bool {
        |o: PyObject| self.pass_live(g, o.id)
    }

    /// The step relation restricted to the unreachable part of the set.
    pub open spec fn pass_dead_rel(self, g: int) -> spec_fn(ObjectId, ObjectId) -> bool {
        |a: ObjectId, b: ObjectId|
            pass_rel(self.pass_work(g), self.references@)(a, b) && !self.pass_live(g, a)
                && !self.pass_live(g, b)
    }

    /// The unreachable members of the set that carry a finalizer.
    pub open spec fn pass_finalizer_roots(self, g: int) -> Set<ObjectId> {
        Set::new(
            |x: ObjectId|
                exists|j: int|
                    0 <= j < self.pass_work(g).len() && (#[trigger] self.pass_work(g)[j]).id == x
                        && !self.pass_live(g, x) && self.pass_work(g)[j].has_finalizer,
        )
    }

    /// Whether the pass quarantines the id `x`: it is unreachable and some
    /// unreachable object with a finalizer reaches it without leaving the
    /// unreachable part, so reclaiming it could run ahead of a finalizer.
    pub open spec fn pass_quarantined(self, g: int, x: ObjectId) -> bool {
        reaches(self.pass_dead_rel(g), self.pass_finalizer_roots(g), x)
    }

    /// Keep predicate for what the pass quarantines: dead, and either tied
    /// to a finalizer or held by the save-all debug bit.
    pub open spec fn quarantine_pred(self, g: int) -> spec_fn(PyObject) -> bool {
        |o: PyObject|
            !self.pass_live(g, o.id) && (self.pass_quarantined(g, o.id) || self.debug_flags
                & DEBUG_SAVEALL != 0)
    }

    /// Keep predicate for what the pass reclaims: dead, not quarantined,
    /// and not held by the save-all debug bit.
    pub open spec fn reclaim_pred(self, g: int) -> spec_fn(PyObject) -> bool {
        |o: PyObject|
            !self.pass_live(g, o.id) && !self.pass_quarantined(g, o.id) && self.debug_flags
                & DEBUG_SAVEALL == 0
    }

    /// Whether the recorded references into some member of the set exceed
    /// its reference count; that breaks the pass.
    pub open spec fn pass_overcounted(self, g: int) -> bool {
        exists|j: int|
            0 <= j < self.pass_work(g).len() && (#[trigger] self.pass_work(g)[j]).refcount
                < pass_incount(self.references@, self.pass_work(g), self.pass_work(g)[j].id)
    }

    /// How a member of the set looks if it survives the pass: the shadow
    /// counter holds the external reference count the pass computed, the
    /// pass bits are cleared again, everything else is untouched.
    pub open spec fn pass_survivor_form(self, g: int) -> spec_fn(PyObject) -> PyObject {
        |o: PyObject|
            PyObject {
                gc_head: PyGCHead {
                    gc_refs: (o.refcount - pass_incount(
                        self.references@,
                        self.pass_work(g),
                        o.id,
                    )) as isize,
                    collecting: false,
                    _gc_prev: (o.gc_head._gc_prev | 2) & !2,
                    ..o.gc_head
                },
                ..o
            }
    }

    /// How a member of the set looks right after the subtraction step:
    /// shadow counter holding the external count, pass bits still set.
    pub open spec fn pass_subtracted_form(self, g: int) -> spec_fn(PyObject) -> PyObject {
        |o: PyObject|
            PyObject {
                gc_head: PyGCHead {
                    gc_refs: (o.refcount - pass_incount(
                        self.references@,
                        self.pass_work(g),
                        o.id,
                    )) as isize,
                    collecting: true,
                    _gc_prev: o.gc_head._gc_prev | 2,
                    ..o.gc_head
                },
                ..o
            }
    }

    /// Keep predicate for the references that survive the pass: neither
    /// end was found dead.
    pub open spec fn live_ref_pred(self, g: int) -> spec_fn(Reference) -> bool {
        |r: Reference|
            !(self.collection_ids(g).contains(r.from) && !self.pass_live(g, r.from)) && !(
            self.collection_ids(g).contains(r.to) && !self.pass_live(g, r.to))
    }

    /// Everything that holds of the collector between operations: the
    /// cohorts are well formed and carry exactly the tracked ids; every
    /// tracked record is marked tracked with its pass bits clear; and every
    /// quarantined object either carries a finalizer itself, was kept by
    /// the save-all debug bit, or sat in an unreachable subgraph together
    /// with a finalizer.
    pub open spec fn wf(self) -> bool {
        &&& self.generation_manager.wf()
        &&& self.tracked_ids().no_duplicates()
        &&& (forall|x: ObjectId|
            #[trigger] self.generation_manager.all_ids().contains(x) <==> self.tracked_ids().contains(
                x,
            ))
        &&& (forall|i: int|
            0 <= i < self.tracked_objects@.len() ==> (#[trigger] self.tracked_objects@[i]).wf())
        &&& (forall|i: int|
            0 <= i < self.tracked_objects@.len() ==> (#[trigger] self.tracked_objects@[i]).gc_tracked)
        &&& (forall|i: int|
            0 <= i < self.tracked_objects@.len()
                ==> !(#[trigger] self.tracked_objects@[i]).gc_head.collecting)
        &&& (forall|i: int|
            0 <= i < self.tracked_objects@.len()
                ==> (#[trigger] self.tracked_objects@[i]).gc_head._gc_next != 0)
        &&& self.saved_by_debug@.len() == self.uncollectable@.len()
        &&& self.finalizer_linked@.len() == self.uncollectable@.len()
        &&& (forall|i: int|
            0 <= i < self.uncollectable@.len() ==> (#[trigger] self.uncollectable@[i]).has_finalizer
                || self.saved_by_debug@[i] || self.finalizer_linked@[i])
    }

    pub fn new() -> (r: Collector)
        ensures
            r.wf(),
            r.tracked_objects@ == Seq::<PyObject>::empty(),
            r.uncollectable@ == Seq::<PyObject>::empty(),
            r.references@ == Seq::<Reference>::empty(),
            r.debug_flags == 0,
            r.collections == 0,
            r.collected_total == 0,
            r.generation_manager.collecting_generation is None,
            r.generation_manager.generations@[0].threshold == 700,
            r.generation_manager.generations@[1].threshold == 10,
            r.generation_manager.generations@[2].threshold == 10,
            forall|g: int|
                0 <= g < 3 ==> (#[trigger] r.generation_manager.generations@[g]).count == 0,
            forall|g: int|
                0 <= g < 3 ==> (#[trigger] r.generation_manager.generations@[g]).collections_since
                    == 0,
    {
        let r = Collector {
            generation_manager: GenerationManager::new(),
            tracked_objects: Vec::new(),
            uncollectable: Vec::new(),
            saved_by_debug: Ghost(Seq::empty()),
            finalizer_linked: Ghost(Seq::empty()),
            references: Vec::new(),
            debug_flags: 0,
            collections: 0,
            collected_total: 0,
        };
        proof {
            assert(r.tracked_ids() =~= Seq::<ObjectId>::empty());
        }
        r
    }

    /// Starts tracking an object: the record joins the table and the
    /// youngest cohort, and its payload's child ids join the reference
    /// graph as direct references. An object that is already tracked is
    /// rejected unchanged.
    pub fn track_object(&mut self, obj: PyObject) -> (r: GCResult<()>)
        requires
            old(self).wf(),
            obj.wf(),
            !obj.gc_head.collecting,
        ensures
            final(self).wf(),
            obj.gc_tracked || old(self).tracked_ids().contains(obj.id) ==> r == Err::<
                (),
                GCError,
            >(GCError::AlreadyTracked) && *final(self) == *old(self),
            !(obj.gc_tracked || old(self).tracked_ids().contains(obj.id)) ==> r == Ok::<
                (),
                GCError,
            >(()) && final(self).tracked_objects@ == old(self).tracked_objects@.push(
                (PyObject {
                    gc_tracked: true,
                    gc_head: PyGCHead { _gc_next: obj.id.0, ..obj.gc_head },
                    ..obj
                }),
            ) && final(self).references@ == old(self).references@ + payload_refs(obj) && final(self).generation_manager.generations@[0].members@ == old(self).generation_manager.generations@[0].members@.push(obj.id) && final(self).uncollectable@ == old(self).uncollectable@ && final(self).debug_flags == old(self).debug_flags && final(self).generation_manager.generations@[0].count == old(self).generation_manager.generations@[0].count + 1 && final(self).generation_manager.generations@[1] == old(self).generation_manager.generations@[1]
                && final(self).generation_manager.generations@[2] == old(self).generation_manager.generations@[2]
                && final(self).generation_manager.generations@[0].threshold == old(self).generation_manager.generations@[0].threshold
                && final(self).generation_manager.generations@[0].collections_since == old(self).generation_manager.generations@[0].collections_since
                && final(self).generation_manager.permanent_generation == old(self).generation_manager.permanent_generation
                && final(self).collections == old(self).collections
                && final(self).collected_total == old(self).collected_total
                && final(self).generation_manager.collecting_generation == old(self).generation_manager.collecting_generation,
    {
        if obj.gc_tracked {
            return Err(GCError::AlreadyTracked);
        }
        match find_object(&self.tracked_objects, obj.id) {
            Some(i) => {
                proof {
                    lemma_ids_member(self.tracked_objects@, i as int);
                }
                Err(GCError::AlreadyTracked)
            },
            None => {
                proof {
                    lemma_ids_absent(self.tracked_objects@, obj.id);
                    assert forall|x: ObjectId|
                        old(self).generation_manager.all_ids().contains(x) implies old(self).tracked_ids().contains(x) by {}
                }
                let id = obj.id;
                let marker = obj.id.as_usize();
                let mut obj = obj;
                obj.gc_tracked = true;
                obj.gc_head._gc_next = marker;
                let children = crate::traversal::children(&obj.data);
                let ghost orig_refs = self.references@;
                let ghost base = obj;
                let mut c: usize = 0;
                while c < children.len()
                    invariant
                        c <= children@.len(),
                        children@ == child_ids(base.data),
                        obj == base,
                        id == base.id,
                        self.references@ == orig_refs + children@.take(c as int).map_values(
                            payload_ref_of(base.id),
                        ),
                        self.generation_manager == old(self).generation_manager,
                        self.tracked_objects@ == old(self).tracked_objects@,
                        self.uncollectable@ == old(self).uncollectable@,
                        self.saved_by_debug@ == old(self).saved_by_debug@,
                        self.finalizer_linked@ == old(self).finalizer_linked@,
                        self.debug_flags == old(self).debug_flags,
                        self.collections == old(self).collections,
                        self.collected_total == old(self).collected_total,
                    decreases children@.len() - c,
                {
                    let child = children[c];
                    self.references.push(
                        Reference { from: id, to: child, reference_type: ReferenceType::Direct },
                    );
                    proof {
                        assert(self.references@ =~= orig_refs + children@.take(c + 1).map_values(
                            payload_ref_of(base.id),
                        ));
                    }
                    c = c + 1;
                }
                proof {
                    assert(children@.take(children@.len() as int) =~= children@);
                }
                self.tracked_objects.push(obj);
                let res = self.generation_manager.add_to_generation0(id);
                proof {
                    assert(self.tracked_ids() =~= old(self).tracked_ids().push(id));
                    let newids = self.tracked_ids();
                    let oldids = old(self).tracked_ids();
                    assert(newids.no_duplicates()) by {
                        assert forall|a: int, b: int|
                            0 <= a < newids.len() && 0 <= b < newids.len() && a != b implies
                            newids[a] != newids[b] by {
                            if a < oldids.len() && b < oldids.len() {
                            } else if a == oldids.len() {
                                assert(oldids.contains(oldids[b]));
                            } else {
                                assert(oldids.contains(oldids[a]));
                            }
                        }
                    }
                    assert forall|x: ObjectId|
                        #[trigger] self.generation_manager.all_ids().contains(x)
                            <==> newids.contains(x) by {
                        if oldids.contains(x) || x == id {
                            if oldids.contains(x) {
                                let j = choose|j: int|
                                    0 <= j < oldids.len() && oldids[j] == x;
                                assert(newids[j] == x);
                            } else {
                                assert(newids[oldids.len() as int] == x);
                            }
                        }
                        if newids.contains(x) {
                            let j = choose|j: int| 0 <= j < newids.len() && newids[j] == x;
                            if j < oldids.len() {
                                assert(oldids[j] == x);
                            }
                        }
                    }
                }
                Ok(())
            },
        }
    }

    /// Stops tracking the object with identity `id`: its record leaves the
    /// table and its cohort, and every reference touching it is dropped.
    /// An id that is not tracked is rejected unchanged.
    pub fn untrack_object(&mut self, id: ObjectId) -> (r: GCResult<()>)
        requires
            old(self).wf(),
        ensures
            final(self).wf(),
            !old(self).tracked_ids().contains(id) ==> r == Err::<(), GCError>(GCError::NotTracked)
                && *final(self) == *old(self),
            old(self).tracked_ids().contains(id) ==> r == Ok::<(), GCError>(()) && (exists|i: int|
                0 <= i < old(self).tracked_objects@.len() && old(self).tracked_objects@[i].id == id
                    && final(self).tracked_objects@ == old(self).tracked_objects@.remove(i))
                && final(self).references@ == old(self).references@.filter(
                crate::traversal::keeps_not_touching(id),
            ) && final(self).uncollectable@ == old(self).uncollectable@,
            final(self).debug_flags == old(self).debug_flags,
            final(self).collections == old(self).collections,
            final(self).collected_total == old(self).collected_total,
            forall|g: int|
                0 <= g < 3 ==> (#[trigger] final(self).generation_manager.generations@[g]).threshold
                    == old(self).generation_manager.generations@[g].threshold,
            final(self).generation_manager.collecting_generation == old(self).generation_manager.collecting_generation,
    {
        match find_object(&self.tracked_objects, id) {
            Some(i) => {
                proof {
                    lemma_ids_member(self.tracked_objects@, i as int);
                }
                let ghost oldids = self.tracked_ids();
                self.tracked_objects.remove(i);
                proof {
                    let newids = self.tracked_ids();
                    assert(newids =~= oldids.remove(i as int));
                    lemma_remove_id_facts(oldids, i as int);
                }
                let res = self.generation_manager.remove_id(id);
                proof {
                    assert(old(self).generation_manager.all_ids().contains(id));
                }
                crate::traversal::drop_refs_touching(&mut self.references, id);
                proof {
                    assert forall|x: ObjectId|
                        #[trigger] self.generation_manager.all_ids().contains(x)
                            <==> self.tracked_ids().contains(x) by {}
                }
                Ok(())
            },
            None => {
                proof {
                    lemma_ids_absent(self.tracked_objects@, id);
                }
                Err(GCError::NotTracked)
            },
        }
    }

    pub fn get_count(&self) -> (r: usize)
        ensures
            r == self.tracked_objects@.len(),
    {
        self.tracked_objects.len()
    }

    pub fn set_debug_flags(&mut self, flags: u32)
        requires
            old(self).wf(),
        ensures
            final(self).wf(),
            *final(self) == (Collector { debug_flags: flags, ..*old(self) }),
    {
        self.debug_flags = flags;
    }

    pub fn get_debug_flags(&self) -> (r: u32)
        ensures
            r == self.debug_flags,
    {
        self.debug_flags
    }

    /// Empties the quarantine of uncollectable objects.
    pub fn clear_uncollectable(&mut self)
        requires
            old(self).wf(),
        ensures
            final(self).wf(),
            final(self).uncollectable@ == Seq::<PyObject>::empty(),
            final(self).tracked_objects@ == old(self).tracked_objects@,
            final(self).references@ == old(self).references@,
            final(self).generation_manager == old(self).generation_manager,
            final(self).debug_flags == old(self).debug_flags,
    {
        self.uncollectable.clear();
        self.saved_by_debug = Ghost(Seq::empty());
        self.finalizer_linked = Ghost(Seq::empty());
    }

    /// A view of the quarantined objects.
    pub fn get_uncollectable(&self) -> (r: &Vec<PyObject>)
        ensures
            r@ == self.uncollectable@,
    {
        &self.uncollectable
    }

    pub fn get_stats(&self) -> (r: crate::GCStats)
        requires
            self.wf(),
        ensures
            r.collections == self.collections,
            r.collected == self.collected_total,
            r.uncollectable == self.uncollectable@.len(),
            r.total_tracked == self.tracked_objects@.len(),
            r.generation_counts[0] == self.generation_manager.generations@[0].count,
            r.generation_counts[1] == self.generation_manager.generations@[1].count,
            r.generation_counts[2] == self.generation_manager.generations@[2].count,
    {
        crate::GCStats {
            collections: self.collections,
            collected: self.collected_total,
            uncollectable: self.uncollectable.len(),
            total_tracked: self.tracked_objects.len(),
            generation_counts: [
                self.generation_manager.generations[0].count,
                self.generation_manager.generations[1].count,
                self.generation_manager.generations[2].count,
            ],
        }
    }

    /// Runs one collection pass over generation `generation` and everything
    /// younger: snapshot the reference counts, subtract the internal
    /// references, keep what external references still reach, quarantine
    /// the unreachable objects tied to finalizers, reclaim the rest, and
    /// promote the survivors to the next older cohort. Returns how many
    /// objects were reclaimed.
    #[verifier::rlimit(100)]
    pub fn collect_generation(&mut self, generation: usize) -> (r: GCResult<usize>)
        requires
            old(self).wf(),
        ensures
            final(self).wf(),
            generation >= 3 ==> r == Err::<usize, GCError>(GCError::InvalidGeneration(generation))
                && *final(self) == *old(self),
            generation < 3 && old(self).generation_manager.collecting_generation is Some ==> r
                == Err::<usize, GCError>(GCError::CollectionInProgress) && *final(self) == *old(self),
            generation < 3 && old(self).generation_manager.collecting_generation is None ==> ((
            r is Ok) <==> !old(self).pass_overcounted(generation as int)),
            generation < 3 && old(self).generation_manager.collecting_generation is None ==> (r
                matches Ok(n) ==> {
                let gi = generation as int;
                let w = old(self).pass_work(gi);
                let surv = w.filter(old(self).live_pred(gi)).map_values(
                    old(self).pass_survivor_form(gi),
                );
                let tgt: int = if generation < 2 {
                    gi + 1
                } else {
                    2
                };
                &&& n == w.filter(old(self).reclaim_pred(gi)).len()
                &&& final(self).tracked_objects@ == old(self).tracked_objects@.filter(
                    keeps_out(old(self).collection_ids(gi)),
                ) + surv
                &&& final(self).uncollectable@ == old(self).uncollectable@ + w.filter(
                    old(self).quarantine_pred(gi),
                ).map_values(old(self).pass_survivor_form(gi))
                &&& final(self).references@ == old(self).references@.filter(
                    old(self).live_ref_pred(gi),
                )
                &&& final(self).debug_flags == old(self).debug_flags
                &&& final(self).collections == (if old(self).collections < usize::MAX {
                    old(self).collections + 1
                } else {
                    old(self).collections as int
                })
                &&& final(self).collected_total == (if old(self).collected_total + n
                    <= usize::MAX {
                    old(self).collected_total + n
                } else {
                    usize::MAX as int
                })
                &&& final(self).generation_manager.collecting_generation is None
                &&& (forall|j: int|
                    0 <= j < 3 ==> (
                    #[trigger] final(self).generation_manager.generations@[j]).threshold == old(self).generation_manager.generations@[j].threshold)
                &&& (forall|j: int|
                    0 <= j <= gi && j != tgt ==> (#[trigger] final(self).generation_manager.member_list(j)) == Seq::<ObjectId>::empty())
                &&& final(self).generation_manager.member_list(tgt) == (if generation < 2 {
                    old(self).generation_manager.member_list(tgt)
                } else {
                    Seq::<ObjectId>::empty()
                }) + ids_of(surv)
                &&& (forall|j: int|
                    gi + 1 < j < 4 ==> (#[trigger] final(self).generation_manager.member_list(j))
                        == old(self).generation_manager.member_list(j))
                &&& (forall|j: int|
                    1 <= j <= gi ==> (
                    #[trigger] final(self).generation_manager.generations@[j]).collections_since
                        == 0)
                &&& generation < 2 ==> final(self).generation_manager.generations@[gi
                    + 1].collections_since == (if old(self).generation_manager.generations@[gi
                    + 1].collections_since < usize::MAX {
                    old(self).generation_manager.generations@[gi + 1].collections_since + 1
                } else {
                    old(self).generation_manager.generations@[gi + 1].collections_since as int
                })
                &&& final(self).generation_manager.generations@[0].collections_since == old(self).generation_manager.generations@[0].collections_since
                &&& (forall|j: int|
                    gi + 1 < j < 3 ==> (
                    #[trigger] final(self).generation_manager.generations@[j]).collections_since
                        == old(self).generation_manager.generations@[j].collections_since)
                &&& (forall|j: int|
                    0 <= j <= gi && j != tgt ==> (
                    #[trigger] final(self).generation_manager.generations@[j]).count == 0)
                &&& final(self).generation_manager.generations@[tgt].count == (if generation < 2 {
                    old(self).generation_manager.generations@[tgt].count as int
                } else {
                    0int
                }) + w.filter(old(self).live_pred(gi)).len()
                &&& (forall|j: int|
                    gi + 1 < j < 3 ==> (
                    #[trigger] final(self).generation_manager.generations@[j]).count == old(self).generation_manager.generations@[j].count)
                &&& final(self).generation_manager.permanent_generation.count == old(self).generation_manager.permanent_generation.count
            }),
            generation < 3 && old(self).generation_manager.collecting_generation is None && (r
                is Err) ==> (r matches Err(e) && e is ReferenceCountError) && (forall|x: ObjectId|
                final(self).tracked_ids().contains(x) <==> old(self).tracked_ids().contains(x))
                && final(self).uncollectable@ == old(self).uncollectable@ && final(self).references@
                == old(self).references@ && final(self).debug_flags == old(self).debug_flags
                && final(self).collections == old(self).collections && final(self).collected_total
                == old(self).collected_total && final(self).generation_manager.collecting_generation
                is None && (forall|j: int|
                0 <= j < 3 ==> (#[trigger] final(self).generation_manager.generations@[j]).threshold
                    == old(self).generation_manager.generations@[j].threshold),
    {
        if generation >= 3 {
            return Err(GCError::InvalidGeneration(generation));
        }
        let started = self.generation_manager.start_collection(generation);
        if started.is_err() {
            return Err(GCError::CollectionInProgress);
        }
        let ghost self0 = *old(self);
        let ghost gi = generation as int;
        let sids = self.generation_manager.take_collection_set(generation);
        proof {
            assert(sids@ == self0.collection_ids(gi));
        }
        let mut table: Vec<PyObject> = Vec::new();
        std::mem::swap(&mut table, &mut self.tracked_objects);
        let (mut work, keep) = split_by_ids(table, &sids);
        let ghost w0 = self0.pass_work(gi);
        let ghost cids = self0.collection_ids(gi);
        proof {
            assert(work@ == w0);
            lemma_filter_ids(self0.tracked_objects@, keeps_in(cids));
            lemma_filter_ids(self0.tracked_objects@, keeps_out(cids));
            lemma_filter_elements(self0.tracked_objects@, keeps_in(cids));
            lemma_filter_elements(self0.tracked_objects@, keeps_out(cids));
            assert forall|i: int| 0 <= i < w0.len() implies (#[trigger] w0[i]).wf() by {
                assert(self0.tracked_objects@.contains(w0[i]));
                let j = choose|j: int|
                    0 <= j < self0.tracked_objects@.len() && self0.tracked_objects@[j] == w0[i];
            }
        }
        let pairs = build_pass_edges(&work, &self.references);
        update_refs(&mut work);
        proof {
            assert(ids_of(work@) =~= ids_of(w0));
            assert forall|i: int| 0 <= i < work@.len() implies (#[trigger] work@[i]).wf() by {
                assert(work@[i] == marked_for_pass(w0[i]));
            }
            assert forall|k: int|
                0 <= k < pairs@.len() implies ids_of(work@).contains(
                (#[trigger] pairs@[k]).1,
            ) by {
                assert(ids_of(w0).contains(pairs@[k].1));
            }
        }
        let ghost wpre = work@;
        proof {
            assert forall|i: int|
                0 <= i < work@.len() implies (#[trigger] work@[i]).gc_head.gc_refs
                == work@[i].refcount by {
                assert(work@[i] == marked_for_pass(w0[i]));
                assert(w0[i].wf());
                assert(w0[i].refcount <= isize::MAX);
                assert(w0[i].refcount as isize == w0[i].refcount);
            }
        }
        let sub = subtract_refs(&mut work, &pairs);
        let ghost wsub = work@;
        proof {
            assert(ids_of(work@) =~= ids_of(w0)) by {
                assert forall|i: int|
                    0 <= i < work@.len() implies ids_of(work@)[i] == ids_of(w0)[i] by {
                    assert(same_except_shadow(marked_for_pass(w0[i]), work@[i]));
                }
            }
        }
        if sub.is_err() {
            // The host's reference counts disagree with the recorded
            // references; abandon the pass, clearing the pass bits and
            // putting everything back where it was.
            let mut i: usize = 0;
            while i < work.len()
                invariant
                    i <= work@.len(),
                    work@.len() == wsub.len(),
                    forall|j: int|
                        0 <= j < i ==> work@[j] == cleared_after_pass(#[trigger] wsub[j]),
                    forall|j: int| i <= j < work@.len() ==> work@[j] == #[trigger] wsub[j],
                decreases work@.len() - i,
            {
                work[i].gc_head.collecting = false;
                let p = work[i].gc_head._gc_prev;
                work[i].gc_head._gc_prev = p & !2;
                i = i + 1;
            }
            proof {
                assert(ids_of(work@) =~= ids_of(w0));
            }
            let work_ids = ids_from(&work);
            self.tracked_objects = keep;
            self.tracked_objects.append(&mut work);
            self.generation_manager.insert_survivors(generation, &work_ids);
            self.generation_manager.end_collection();
            proof {
                let keepids = ids_of(self0.tracked_objects@.filter(keeps_out(cids)));
                let wids = ids_of(w0);
                assert(self.tracked_ids() =~= keepids + wids);
                assert forall|x: ObjectId|
                    keepids.contains(x) ==> !wids.contains(x) by {
                    if keepids.contains(x) && wids.contains(x) {
                        let a = choose|a: int|
                            0 <= a < self0.tracked_objects@.len()
                                && (#[trigger] self0.tracked_objects@[a]).id == x && keeps_out(
                                cids,
                            )(self0.tracked_objects@[a]);
                        let b = choose|b: int|
                            0 <= b < self0.tracked_objects@.len()
                                && (#[trigger] self0.tracked_objects@[b]).id == x && keeps_in(
                                cids,
                            )(self0.tracked_objects@[b]);
                    }
                }
                lemma_concat2_no_dup(keepids, wids);
                assert forall|x: ObjectId|
                    #[trigger] self.tracked_ids().contains(x) <==> self0.tracked_ids().contains(
                    x,
                ) by {
                    if self.tracked_ids().contains(x) {
                        if keepids.contains(x) {
                            let a = choose|a: int|
                                0 <= a < self0.tracked_objects@.len()
                                    && (#[trigger] self0.tracked_objects@[a]).id == x
                                    && keeps_out(cids)(self0.tracked_objects@[a]);
                            assert(self0.tracked_ids()[a] == x);
                        } else {
                            let a = choose|a: int|
                                0 <= a < self0.tracked_objects@.len()
                                    && (#[trigger] self0.tracked_objects@[a]).id == x
                                    && keeps_in(cids)(self0.tracked_objects@[a]);
                            assert(self0.tracked_ids()[a] == x);
                        }
                    }
                    if self0.tracked_ids().contains(x) {
                        let a = choose|a: int|
                            0 <= a < self0.tracked_ids().len() && self0.tracked_ids()[a] == x;
                        assert(self0.tracked_objects@[a].id == x);
                        if cids.contains(x) {
                            assert(keeps_in(cids)(self0.tracked_objects@[a]));
                            assert(wids.contains(x));
                        } else {
                            assert(keeps_out(cids)(self0.tracked_objects@[a]));
                            assert(keepids.contains(x));
                        }
                    }
                }
                assert forall|x: ObjectId|
                    #[trigger] self.generation_manager.all_ids().contains(x)
                        <==> self.tracked_ids().contains(x) by {
                    assert(self0.generation_manager.all_ids().contains(x)
                        <==> self0.tracked_ids().contains(x));
                }
                assert forall|i: int|
                    0 <= i < self.tracked_objects@.len() implies {
                    let o = #[trigger] self.tracked_objects@[i];
                    o.wf() && o.gc_tracked && !o.gc_head.collecting && o.gc_head._gc_next != 0
                } by {
                    let keepseq = self0.tracked_objects@.filter(keeps_out(cids));
                    if i < keepseq.len() {
                        assert(self.tracked_objects@[i] == keepseq[i]);
                        assert(self0.tracked_objects@.contains(keepseq[i]));
                        let j = choose|j: int|
                            0 <= j < self0.tracked_objects@.len() && self0.tracked_objects@[j]
                                == keepseq[i];
                    } else {
                        let k = i - keepseq.len();
                        assert(self.tracked_objects@[i] == cleared_after_pass(wsub[k]));
                        assert(same_except_shadow(marked_for_pass(w0[k]), wsub[k]));
                        assert(self0.tracked_objects@.contains(w0[k]));
                        let j = choose|j: int|
                            0 <= j < self0.tracked_objects@.len() && self0.tracked_objects@[j]
                                == w0[k];
                    }
                }
            }
            match sub {
                Err(e) => {
                    proof {
                        let i = choose|i: int|
                            0 <= i < wpre.len() && incount_to(
                                pairs@,
                                (#[trigger] wpre[i]).id,
                            ) > wpre[i].refcount;
                        assert(wpre[i] == marked_for_pass(w0[i]));
                        assert(w0[i].refcount < pass_incount(self0.references@, w0, w0[i].id));
                        assert(self0.pass_overcounted(gi));
                    }
                    return Err(e);
                },
                Ok(_) => {
                    proof {
                        assert(false);
                    }
                    return Err(GCError::CollectionInProgress);
                },
            }
        }
        proof {
            assert(!self0.pass_overcounted(gi)) by {
                if self0.pass_overcounted(gi) {
                    let j = choose|j: int|
                        0 <= j < w0.len() && (#[trigger] w0[j]).refcount < pass_incount(
                            self0.references@,
                            w0,
                            w0[j].id,
                        );
                    assert(wpre[j] == marked_for_pass(w0[j]));
                    assert(incount_to(pairs@, wpre[j].id) <= wpre[j].refcount);
                }
            }
        }
        let roots = collect_pass_roots(&work);
        let live = reach_from(&pairs, &roots);
        proof {
            assert(roots@.to_set() =~= self0.pass_roots(gi)) by {
                assert forall|x: ObjectId|
                    roots@.contains(x) <==> self0.pass_roots(gi).contains(x) by {
                    if roots@.contains(x) {
                        let j = choose|j: int|
                            0 <= j < work@.len() && (#[trigger] work@[j]).id == x
                                && work@[j].gc_head.gc_refs > 0;
                        assert(same_except_shadow(marked_for_pass(w0[j]), work@[j]));
                        assert(work@[j].gc_head.gc_refs == w0[j].refcount - incount_to(
                            pairs@,
                            w0[j].id,
                        ));
                    }
                    if self0.pass_roots(gi).contains(x) {
                        let j = choose|j: int|
                            0 <= j < w0.len() && (#[trigger] w0[j]).id == x && w0[j].refcount
                                > pass_incount(self0.references@, w0, x);
                        assert(same_except_shadow(marked_for_pass(w0[j]), work@[j]));
                        assert(work@[j].gc_head.gc_refs == w0[j].refcount - incount_to(
                            pairs@,
                            w0[j].id,
                        ));
                        assert(work@[j].id == x && work@[j].gc_head.gc_refs > 0);
                    }
                }
            }
            assert(roots@.to_set() == self0.pass_roots(gi));
            assert forall|x: ObjectId|
                #[trigger] live@.contains(x) <==> self0.pass_live(gi, x) by {
                if live@.contains(x) {
                    crate::traversal::lemma_reaches_equiv(
                        pair_rel(pairs@),
                        pass_rel(w0, self0.references@),
                        roots@.to_set(),
                        x,
                    );
                }
                if self0.pass_live(gi, x) {
                    crate::traversal::lemma_reaches_equiv(
                        pass_rel(w0, self0.references@),
                        pair_rel(pairs@),
                        roots@.to_set(),
                        x,
                    );
                }
            }
        }
        let dead_pairs = restrict_pairs_to_dead(&pairs, &live);
        let froots = finalizer_roots(&work, &live);
        let quar = reach_from(&dead_pairs, &froots);
        proof {
            assert forall|a: ObjectId, b: ObjectId|
                #[trigger] pair_rel(dead_pairs@)(a, b) <==> #[trigger] self0.pass_dead_rel(gi)(
                    a,
                    b,
                ) by {}
            assert(froots@.to_set() =~= self0.pass_finalizer_roots(gi)) by {
                assert forall|x: ObjectId|
                    froots@.contains(x) <==> self0.pass_finalizer_roots(gi).contains(x) by {
                    if froots@.contains(x) {
                        let j = choose|j: int|
                            0 <= j < work@.len() && (#[trigger] work@[j]).id == x
                                && !live@.contains(x) && work@[j].has_finalizer;
                        assert(same_except_shadow(marked_for_pass(w0[j]), work@[j]));
                        assert(w0[j].id == x && w0[j].has_finalizer);
                    }
                    if self0.pass_finalizer_roots(gi).contains(x) {
                        let j = choose|j: int|
                            0 <= j < w0.len() && (#[trigger] w0[j]).id == x && !self0.pass_live(
                                gi,
                                x,
                            ) && w0[j].has_finalizer;
                        assert(same_except_shadow(marked_for_pass(w0[j]), work@[j]));
                        assert(work@[j].id == x && work@[j].has_finalizer);
                    }
                }
            }
            assert(froots@.to_set() == self0.pass_finalizer_roots(gi));
            assert forall|x: ObjectId|
                #[trigger] quar@.contains(x) <==> self0.pass_quarantined(gi, x) by {
                if quar@.contains(x) {
                    crate::traversal::lemma_reaches_equiv(
                        pair_rel(dead_pairs@),
                        self0.pass_dead_rel(gi),
                        froots@.to_set(),
                        x,
                    );
                }
                if self0.pass_quarantined(gi, x) {
                    crate::traversal::lemma_reaches_equiv(
                        self0.pass_dead_rel(gi),
                        pair_rel(dead_pairs@),
                        froots@.to_set(),
                        x,
                    );
                }
            }
        }
        let saveall = (self.debug_flags & DEBUG_SAVEALL) != 0;
        let (survivors, mut quarantined, reclaimed) = partition_work(work, &live, &quar, saveall);
        let ghost subf = self0.pass_subtracted_form(gi);
        let ghost survf = self0.pass_survivor_form(gi);
        proof {
            // The subtracted work is the collection set mapped through the
            // subtraction form.
            assert(wsub =~= w0.map_values(subf)) by {
                assert forall|i: int| 0 <= i < w0.len() implies wsub[i] == subf(w0[i]) by {
                    assert(same_except_shadow(marked_for_pass(w0[i]), wsub[i]));
                    assert(wsub[i].gc_head.gc_refs == w0[i].refcount - incount_to(
                        pairs@,
                        w0[i].id,
                    ));
                }
            }
            // The three partition predicates agree with the pass-level ones.
            assert forall|o: PyObject|
                (#[trigger] keeps_live(live@)(o) <==> self0.live_pred(gi)(o)) && (
                #[trigger] keeps_quarantined(live@, quar@, saveall)(o) <==> self0.quarantine_pred(
                    gi,
                )(o)) && (#[trigger] keeps_reclaimed(live@, quar@, saveall)(o)
                    <==> self0.reclaim_pred(gi)(o)) by {
                assert(live@.contains(o.id) <==> self0.pass_live(gi, o.id));
                assert(quar@.contains(o.id) <==> self0.pass_quarantined(gi, o.id));
            }
            // The predicates only look at the id, which the subtraction
            // form preserves; so filtering commutes with it, and clearing
            // after subtracting is the survivor form.
            assert forall|x: PyObject| #[trigger] keeps_live(live@)(subf(x)) <==> keeps_live(
                live@,
            )(x) by {}
            assert forall|x: PyObject|
                #[trigger] keeps_quarantined(live@, quar@, saveall)(subf(x))
                    <==> keeps_quarantined(live@, quar@, saveall)(x) by {}
            assert forall|x: PyObject|
                #[trigger] keeps_reclaimed(live@, quar@, saveall)(subf(x)) <==> keeps_reclaimed(
                    live@,
                    quar@,
                    saveall,
                )(x) by {}
            assert forall|x: PyObject| #[trigger] survf(x) == clearer()(subf(x)) by {}
            lemma_filter_map_commute(w0, subf, keeps_live(live@));
            lemma_filter_map_commute(w0, subf, keeps_quarantined(live@, quar@, saveall));
            lemma_filter_map_commute(w0, subf, keeps_reclaimed(live@, quar@, saveall));
            lemma_filter_congruence(w0, keeps_live(live@), self0.live_pred(gi));
            lemma_filter_congruence(
                w0,
                keeps_quarantined(live@, quar@, saveall),
                self0.quarantine_pred(gi),
            );
            lemma_filter_congruence(
                w0,
                keeps_reclaimed(live@, quar@, saveall),
                self0.reclaim_pred(gi),
            );
            lemma_map_compose(w0.filter(self0.live_pred(gi)), subf, clearer(), survf);
            lemma_map_compose(w0.filter(self0.quarantine_pred(gi)), subf, clearer(), survf);
            assert(survivors@ == w0.filter(self0.live_pred(gi)).map_values(survf));
            assert(quarantined@ == w0.filter(self0.quarantine_pred(gi)).map_values(survf));
            assert(reclaimed == w0.filter(self0.reclaim_pred(gi)).len()) by {
                assert(wsub.filter(keeps_reclaimed(live@, quar@, saveall)) == w0.filter(
                    self0.reclaim_pred(gi),
                ).map_values(subf));
            }
        }
        let surv_ids = ids_from(&survivors);
        let ghost survseq = survivors@;
        let ghost quarseq = quarantined@;
        proof {
            lemma_filter_ids(w0, self0.live_pred(gi));
            assert(ids_of(survseq) =~= ids_of(w0.filter(self0.live_pred(gi))));
            lemma_filter_elements(w0, self0.live_pred(gi));
            lemma_filter_elements(w0, self0.quarantine_pred(gi));
            assert forall|x: ObjectId| surv_ids@.contains(x) implies sids@.contains(x) by {
                let j = choose|j: int|
                    0 <= j < ids_of(survseq).len() && ids_of(survseq)[j] == x;
                let e = w0.filter(self0.live_pred(gi))[j];
                assert(w0.contains(e));
                let jj = choose|jj: int| 0 <= jj < w0.len() && w0[jj] == e;
                assert(keeps_in(cids)(w0[jj]));
            }
        }
        self.tracked_objects = keep;
        let mut survivors = survivors;
        self.tracked_objects.append(&mut survivors);
        self.generation_manager.finish_collection(generation, &surv_ids);
        let ghost qn = quarantined@.len();
        self.uncollectable.append(&mut quarantined);
        self.saved_by_debug = Ghost(self.saved_by_debug@ + Seq::new(qn, |i: int| saveall));
        self.finalizer_linked = Ghost(
            self.finalizer_linked@ + Seq::new(qn, |i: int| quar@.contains(quarseq[i].id)),
        );
        let mut dead_ids: Vec<ObjectId> = Vec::new();
        let mut di: usize = 0;
        while di < sids.len()
            invariant
                di <= sids@.len(),
                forall|x: ObjectId|
                    dead_ids@.contains(x) <==> (exists|j: int|
                        0 <= j < di && #[trigger] sids@[j] == x && !live@.contains(x)),
            decreases sids@.len() - di,
        {
            let id = sids[di];
            if !contains_id(&live, id) {
                if !contains_id(&dead_ids, id) {
                    dead_ids.push(id);
                }
            }
            proof {
                assert forall|x: ObjectId|
                    dead_ids@.contains(x) <==> (exists|j: int|
                        0 <= j < di + 1 && #[trigger] sids@[j] == x && !live@.contains(x)) by {
                }
            }
            di = di + 1;
        }
        drop_refs_touching_any(&mut self.references, &dead_ids);
        proof {
            assert forall|x: ObjectId|
                dead_ids@.contains(x) <==> cids.contains(x) && !self0.pass_live(gi, x) by {
                if cids.contains(x) {
                    let j = choose|j: int| 0 <= j < cids.len() && cids[j] == x;
                    assert(sids@[j] == x);
                }
            }
            assert forall|rr: Reference|
                #[trigger] keeps_untouched(dead_ids@)(rr) <==> self0.live_ref_pred(gi)(rr) by {}
            lemma_filter_congruence(
                self0.references@,
                keeps_untouched(dead_ids@),
                self0.live_ref_pred(gi),
            );
        }
        if self.collections < usize::MAX {
            self.collections = self.collections + 1;
        }
        if reclaimed <= usize::MAX - self.collected_total {
            self.collected_total = self.collected_total + reclaimed;
        } else {
            self.collected_total = usize::MAX;
        }
        proof {
            let keepseq = self0.tracked_objects@.filter(keeps_out(cids));
            let keepids = ids_of(keepseq);
            let survids = ids_of(survseq);
            assert(self.tracked_objects@ == keepseq + survseq);
            assert(self.tracked_ids() =~= keepids + survids);
            assert forall|x: ObjectId| survids.contains(x) implies cids.contains(x) by {
                assert(surv_ids@ == survids);
            }
            assert forall|x: ObjectId|
                keepids.contains(x) ==> !survids.contains(x) by {
                if keepids.contains(x) && survids.contains(x) {
                    let a = choose|a: int|
                        0 <= a < self0.tracked_objects@.len()
                            && (#[trigger] self0.tracked_objects@[a]).id == x && keeps_out(cids)(
                            self0.tracked_objects@[a],
                        );
                }
            }
            lemma_concat2_no_dup(keepids, survids);
            // The cohort lists carry exactly the tracked ids.
            assert forall|x: ObjectId|
                #[trigger] self.generation_manager.all_ids().contains(x)
                    <==> self.tracked_ids().contains(x) by {
                assert(self0.generation_manager.all_ids().contains(x)
                    <==> self0.tracked_ids().contains(x));
                if self.tracked_ids().contains(x) {
                    if keepids.contains(x) {
                        let a = choose|a: int|
                            0 <= a < self0.tracked_objects@.len()
                                && (#[trigger] self0.tracked_objects@[a]).id == x && keeps_out(
                                cids,
                            )(self0.tracked_objects@[a]);
                        assert(self0.tracked_ids()[a] == x);
                    }
                }
                if self0.tracked_ids().contains(x) && !cids.contains(x) {
                    let a = choose|a: int|
                        0 <= a < self0.tracked_ids().len() && self0.tracked_ids()[a] == x;
                    assert(self0.tracked_objects@[a].id == x);
                    assert(keeps_out(cids)(self0.tracked_objects@[a]));
                    assert(keepids.contains(x));
                }
            }
            // Every record of the final table is in good standing.
            assert forall|i: int|
                0 <= i < self.tracked_objects@.len() implies {
                let o = #[trigger] self.tracked_objects@[i];
                o.wf() && o.gc_tracked && !o.gc_head.collecting && o.gc_head._gc_next != 0
            } by {
                if i < keepseq.len() {
                    assert(self.tracked_objects@[i] == keepseq[i]);
                    assert(self0.tracked_objects@.contains(keepseq[i]));
                    let j = choose|j: int|
                        0 <= j < self0.tracked_objects@.len() && self0.tracked_objects@[j]
                            == keepseq[i];
                } else {
                    let k = i - keepseq.len();
                    let lseq = w0.filter(self0.live_pred(gi));
                    assert(self.tracked_objects@[i] == survseq[k]);
                    assert(survseq[k] == self0.pass_survivor_form(gi)(lseq[k]));
                    assert(w0.contains(lseq[k]));
                    let j = choose|j: int| 0 <= j < w0.len() && w0[j] == lseq[k];
                    assert(self0.tracked_objects@.contains(w0[j]));
                    let jj = choose|jj: int|
                        0 <= jj < self0.tracked_objects@.len() && self0.tracked_objects@[jj]
                            == w0[j];
                }
            }
            // The quarantine records stay justified.
            let qseq = w0.filter(self0.quarantine_pred(gi));
            assert(quarseq == qseq.map_values(self0.pass_survivor_form(gi)));
            assert forall|i: int|
                0 <= i < self.uncollectable@.len() implies (
            #[trigger] self.uncollectable@[i]).has_finalizer || self.saved_by_debug@[i]
                || self.finalizer_linked@[i] by {
                if i < self0.uncollectable@.len() {
                    assert(self.uncollectable@[i] == self0.uncollectable@[i]);
                    assert(self.saved_by_debug@[i] == self0.saved_by_debug@[i]);
                    assert(self.finalizer_linked@[i] == self0.finalizer_linked@[i]);
                } else {
                    let k = i - self0.uncollectable@.len();
                    assert(self.uncollectable@[i] == quarseq[k]);
                    assert(quarseq[k] == self0.pass_survivor_form(gi)(qseq[k]));
                    assert(self0.quarantine_pred(gi)(qseq[k]));
                    assert(self.saved_by_debug@[i] == saveall);
                    assert(self.finalizer_linked@[i] == quar@.contains(quarseq[k].id));
                    if !saveall {
                        assert(self0.pass_quarantined(gi, qseq[k].id));
                        assert(quarseq[k].id == qseq[k].id);
                    }
                }
            }
        }
        proof {
            let w = self0.pass_work(gi);
            let surv = w.filter(self0.live_pred(gi)).map_values(self0.pass_survivor_form(gi));
            let tgtg: int = if generation < 2 {
                gi + 1
            } else {
                2
            };
            assert(reclaimed == w.filter(self0.reclaim_pred(gi)).len());
            assert(self.tracked_objects@ == self0.tracked_objects@.filter(
                keeps_out(self0.collection_ids(gi)),
            ) + surv);
            assert(self.uncollectable@ == self0.uncollectable@ + w.filter(
                self0.quarantine_pred(gi),
            ).map_values(self0.pass_survivor_form(gi)));
            assert(self.references@ == self0.references@.filter(self0.live_ref_pred(gi)));
            assert(self.debug_flags == self0.debug_flags);
            assert(self.generation_manager.collecting_generation is None);
            assert(forall|j: int|
                0 <= j < 3 ==> (#[trigger] self.generation_manager.generations@[j]).threshold
                    == self0.generation_manager.generations@[j].threshold);
            assert(forall|j: int|
                0 <= j <= gi && j != tgtg ==> (#[trigger] self.generation_manager.member_list(j))
                    == Seq::<ObjectId>::empty());
            assert(self.generation_manager.member_list(tgtg) == (if generation < 2 {
                self0.generation_manager.member_list(tgtg)
            } else {
                Seq::<ObjectId>::empty()
            }) + ids_of(surv));
            assert(forall|j: int|
                gi + 1 < j < 4 ==> (#[trigger] self.generation_manager.member_list(j))
                    == self0.generation_manager.member_list(j));
            assert(forall|j: int|
                1 <= j <= gi ==> (
                #[trigger] self.generation_manager.generations@[j]).collections_since == 0);
            assert(generation < 2 ==> self.generation_manager.generations@[gi
                + 1].collections_since == (if self0.generation_manager.generations@[gi
                + 1].collections_since < usize::MAX {
                self0.generation_manager.generations@[gi + 1].collections_since + 1
            } else {
                self0.generation_manager.generations@[gi + 1].collections_since as int
            }));
            assert(self.collections == (if self0.collections < usize::MAX {
                self0.collections + 1
            } else {
                self0.collections as int
            }));
            assert(self.collected_total == (if self0.collected_total + reclaimed <= usize::MAX {
                self0.collected_total + reclaimed
            } else {
                usize::MAX as int
            }));
            // Populations mirror the member lists on both sides.
            assert forall|j: int|
                0 <= j <= gi && j != tgtg implies (
            #[trigger] self.generation_manager.generations@[j]).count == 0 by {
                assert(self.generation_manager.generations@[j].wf());
                assert(self.generation_manager.member_list(j)
                    == self.generation_manager.generations@[j].members@);
            }
            assert forall|j: int|
                gi + 1 < j < 3 implies (
            #[trigger] self.generation_manager.generations@[j]).count
                == self0.generation_manager.generations@[j].count by {
                assert(self.generation_manager.generations@[j].wf());
                assert(self0.generation_manager.generations@[j].wf());
                assert(self.generation_manager.member_list(j)
                    == self0.generation_manager.member_list(j));
            }
            assert(self.generation_manager.generations@[tgtg].count == (if generation < 2 {
                self0.generation_manager.generations@[tgtg].count as int
            } else {
                0int
            }) + w.filter(self0.live_pred(gi)).len()) by {
                assert(self.generation_manager.generations@[tgtg].wf());
                assert(self0.generation_manager.generations@[tgtg].wf());
                assert(self.generation_manager.member_list(tgtg)
                    == self.generation_manager.generations@[tgtg].members@);
                assert(ids_of(surv).len() == w.filter(self0.live_pred(gi)).len());
            }
            assert(self.generation_manager.permanent_generation.count
                == self0.generation_manager.permanent_generation.count) by {
                assert(self.generation_manager.permanent_generation.wf());
                assert(self0.generation_manager.permanent_generation.wf());
                assert(self.generation_manager.member_list(3)
                    == self0.generation_manager.member_list(3));
            }
        }
        Ok(reclaimed)
    }

    /// Runs a collection of the youngest generation.
    pub fn collect(&mut self) -> (r: GCResult<usize>)
        requires
            old(self).wf(),
        ensures
            final(self).wf(),
            old(self).generation_manager.collecting_generation is Some ==> r == Err::<
                usize,
                GCError,
            >(GCError::CollectionInProgress) && *final(self) == *old(self),
            old(self).generation_manager.collecting_generation is None ==> ((r is Ok) <==> !old(self).pass_overcounted(0)),
            old(self).generation_manager.collecting_generation is None ==> (r matches Ok(n)
                ==> {
                let w = old(self).pass_work(0);
                let surv = w.filter(old(self).live_pred(0)).map_values(
                    old(self).pass_survivor_form(0),
                );
                &&& n == w.filter(old(self).reclaim_pred(0)).len()
                &&& final(self).tracked_objects@ == old(self).tracked_objects@.filter(
                    keeps_out(old(self).collection_ids(0)),
                ) + surv
                &&& final(self).uncollectable@ == old(self).uncollectable@ + w.filter(
                    old(self).quarantine_pred(0),
                ).map_values(old(self).pass_survivor_form(0))
                &&& final(self).references@ == old(self).references@.filter(
                    old(self).live_ref_pred(0),
                )
                &&& final(self).debug_flags == old(self).debug_flags
                &&& final(self).generation_manager.collecting_generation is None
                &&& (forall|j: int|
                    0 <= j < 3 ==> (
                    #[trigger] final(self).generation_manager.generations@[j]).threshold == old(self).generation_manager.generations@[j].threshold)
                &&& final(self).generation_manager.member_list(0) == Seq::<ObjectId>::empty()
                &&& final(self).generation_manager.member_list(1) == old(self).generation_manager.member_list(1) + ids_of(surv)
                &&& (forall|j: int|
                    1 < j < 4 ==> (#[trigger] final(self).generation_manager.member_list(j))
                        == old(self).generation_manager.member_list(j))
                &&& final(self).generation_manager.generations@[0].count == 0
                &&& final(self).generation_manager.generations@[1].count == old(self).generation_manager.generations@[1].count + w.filter(
                    old(self).live_pred(0),
                ).len()
                &&& final(self).generation_manager.generations@[2].count == old(self).generation_manager.generations@[2].count
                &&& final(self).generation_manager.generations@[0].collections_since == old(self).generation_manager.generations@[0].collections_since
                &&& final(self).generation_manager.generations@[1].collections_since == (if old(self).generation_manager.generations@[1].collections_since < usize::MAX {
                    old(self).generation_manager.generations@[1].collections_since + 1
                } else {
                    old(self).generation_manager.generations@[1].collections_since as int
                })
                &&& final(self).generation_manager.generations@[2].collections_since == old(self).generation_manager.generations@[2].collections_since
            }),
    {
        self.collect_generation(0)
    }
}

/// Keep predicate for objects whose id is in `ids`.
pub open spec fn keeps_in(ids: Seq<ObjectId>) -> spec_fn(PyObject) -> bool {
    |o: PyObject| ids.contains(o.id)
}

/// Keep predicate for objects whose id is not in `ids`.
pub open spec fn keeps_out(ids: Seq<ObjectId>) -> spec_fn(PyObject) -> bool {
    |o: PyObject| !ids.contains(o.id)
}

/// An object as it leaves a pass: `collecting` cleared, its mirror bit in
/// the backward link word cleared, everything else as the pass left it.
pub open spec fn cleared_after_pass(o: PyObject) -> PyObject {
    PyObject {
        gc_head: PyGCHead {
            collecting: false,
            _gc_prev: o.gc_head._gc_prev & !2,
            ..o.gc_head
        },
        ..o
    }
}

/// The clearing step as a mapping over object sequences.
pub open spec fn clearer() -> spec_fn(PyObject) -> PyObject {
    |o: PyObject| cleared_after_pass(o)
}

/// Keep predicate for the survivors of a pass: ids the pass found live.
pub open spec fn keeps_live(live: Seq<ObjectId>) -> spec_fn(PyObject) -> bool {
    |o: PyObject| live.contains(o.id)
}

/// Keep predicate for the quarantined objects of a pass: dead, and either
/// tied to a finalizer or held by the save-all debug bit.
pub open spec fn keeps_quarantined(live: Seq<ObjectId>, quar: Seq<ObjectId>, saveall: bool) -> spec_fn(
    PyObject,
) -> bool {
    |o: PyObject| !live.contains(o.id) && (quar.contains(o.id) || saveall)
}

/// Keep predicate for the reclaimed objects of a pass: dead, free of
/// finalizers, and not held by the save-all debug bit.
pub open spec fn keeps_reclaimed(live: Seq<ObjectId>, quar: Seq<ObjectId>, saveall: bool) -> spec_fn(
    PyObject,
) -> bool {
    |o: PyObject| !live.contains(o.id) && !quar.contains(o.id) && !saveall
}

/// Every element a filter keeps comes from the sequence and satisfies the
/// predicate.
pub proof fn lemma_filter_elements<A>(s: Seq<A>, p: spec_fn(A) -> bool)
    ensures
        forall|i: int|
            0 <= i < s.filter(p).len() ==> s.contains(#[trigger] s.filter(p)[i]) && p(
                s.filter(p)[i],
            ),
    decreases s.len(),
{
    reveal(Seq::filter);
    if s.len() > 0 {
        let d = s.drop_last();
        lemma_filter_elements(d, p);
        assert forall|i: int|
            0 <= i < s.filter(p).len() implies s.contains(#[trigger] s.filter(p)[i]) && p(
            s.filter(p)[i],
        ) by {
            if i < d.filter(p).len() {
                assert(s.filter(p)[i] == d.filter(p)[i]);
                let x = d.filter(p)[i];
                let j = choose|j: int| 0 <= j < d.len() && d[j] == x;
                assert(s[j] == x);
            } else {
                assert(s.filter(p)[i] == s.last());
                assert(s[s.len() - 1] == s.last());
            }
        }
    }
}

/// A map that leaves a predicate's verdict alone commutes with filtering.
pub proof fn lemma_filter_map_commute<A>(s: Seq<A>, f: spec_fn(A) -> A, p: spec_fn(A) -> bool)
    requires
        forall|x: A| #[trigger] p(f(x)) <==> p(x),
    ensures
        s.map_values(f).filter(p) == s.filter(p).map_values(f),
    decreases s.len(),
{
    reveal(Seq::filter);
    if s.len() == 0 {
        assert(s.map_values(f) =~= Seq::<A>::empty());
        assert(s.map_values(f).filter(p) =~= s.filter(p).map_values(f));
    } else {
        let d = s.drop_last();
        lemma_filter_map_commute(d, f, p);
        assert(s.map_values(f).drop_last() =~= d.map_values(f));
        assert(s.map_values(f).last() == f(s.last()));
        if p(s.last()) {
            assert(s.filter(p) == d.filter(p).push(s.last()));
            assert(s.filter(p).map_values(f) =~= d.filter(p).map_values(f).push(f(s.last())));
            assert(s.map_values(f).filter(p) == d.map_values(f).filter(p).push(f(s.last())));
        } else {
            assert(s.filter(p) == d.filter(p));
            assert(s.filter(p).map_values(f) =~= d.filter(p).map_values(f));
            assert(s.map_values(f).filter(p) == d.map_values(f).filter(p));
        }
    }
}

/// Mapping twice is mapping once with the composed function.
pub proof fn lemma_map_compose<A>(s: Seq<A>, f: spec_fn(A) -> A, g: spec_fn(A) -> A, h: spec_fn(
    A,
) -> A)
    requires
        forall|x: A| #[trigger] h(x) == g(f(x)),
    ensures
        s.map_values(f).map_values(g) == s.map_values(h),
{
    assert(s.map_values(f).map_values(g) =~= s.map_values(h));
}

/// Two pointwise equal predicates filter every sequence alike.
pub proof fn lemma_filter_congruence<A>(s: Seq<A>, p1: spec_fn(A) -> bool, p2: spec_fn(A) -> bool)
    requires
        forall|x: A| #[trigger] p1(x) <==> #[trigger] p2(x),
    ensures
        s.filter(p1) == s.filter(p2),
    decreases s.len(),
{
    reveal(Seq::filter);
    if s.len() > 0 {
        lemma_filter_congruence(s.drop_last(), p1, p2);
    }
}

/// A sequence splits into the part a predicate keeps and the part it
/// drops; together they have its length.
pub proof fn lemma_filter_partition_len<A>(s: Seq<A>, p: spec_fn(A) -> bool, np: spec_fn(A) -> bool)
    requires
        forall|x: A| #[trigger] np(x) <==> !p(x),
    ensures
        s.filter(p).len() + s.filter(np).len() == s.len(),
    decreases s.len(),
{
    reveal(Seq::filter);
    if s.len() > 0 {
        lemma_filter_partition_len(s.drop_last(), p, np);
    }
}

/// Filtering a table with duplicate-free ids keeps the ids duplicate-free,
/// and keeps exactly the members the predicate admits.
pub proof fn lemma_filter_ids(s: Seq<PyObject>, p: spec_fn(PyObject) -> bool)
    requires
        ids_of(s).no_duplicates(),
    ensures
        ids_of(s.filter(p)).no_duplicates(),
        forall|x: ObjectId|
            ids_of(s.filter(p)).contains(x) <==> (exists|j: int|
                0 <= j < s.len() && (#[trigger] s[j]).id == x && p(s[j])),
    decreases s.len(),
{
    reveal(Seq::filter);
    if s.len() == 0 {
        assert(ids_of(s.filter(p)) =~= Seq::<ObjectId>::empty());
        assert forall|x: ObjectId|
            ids_of(s.filter(p)).contains(x) <==> (exists|j: int|
                0 <= j < s.len() && (#[trigger] s[j]).id == x && p(s[j])) by {}
    } else {
        let d = s.drop_last();
        assert(ids_of(d).no_duplicates()) by {
            assert(ids_of(d) =~= ids_of(s).drop_last());
            assert forall|a: int, b: int|
                0 <= a < ids_of(d).len() && 0 <= b < ids_of(d).len() && a != b implies ids_of(
                d,
            )[a] != ids_of(d)[b] by {
                assert(ids_of(s)[a] == ids_of(d)[a]);
                assert(ids_of(s)[b] == ids_of(d)[b]);
            }
        }
        lemma_filter_ids(d, p);
        let f = s.filter(p);
        let fd = d.filter(p);
        if p(s.last()) {
            assert(f == fd.push(s.last()));
            assert(ids_of(f) =~= ids_of(fd).push(s.last().id));
            assert(ids_of(f).no_duplicates()) by {
                if ids_of(fd).contains(s.last().id) {
                    let j = choose|j: int|
                        0 <= j < d.len() && (#[trigger] d[j]).id == s.last().id && p(d[j]);
                    assert(ids_of(s)[j] == s.last().id);
                    assert(ids_of(s)[s.len() - 1] == s.last().id);
                    assert(false);
                }
                assert forall|a: int, b: int|
                    0 <= a < ids_of(f).len() && 0 <= b < ids_of(f).len() && a != b implies ids_of(
                    f,
                )[a] != ids_of(f)[b] by {
                    if a < ids_of(fd).len() && b < ids_of(fd).len() {
                    } else if a == ids_of(fd).len() {
                        assert(ids_of(fd).contains(ids_of(fd)[b]));
                    } else {
                        assert(ids_of(fd).contains(ids_of(fd)[a]));
                    }
                }
            }
            assert forall|x: ObjectId|
                ids_of(f).contains(x) <==> (exists|j: int|
                    0 <= j < s.len() && (#[trigger] s[j]).id == x && p(s[j])) by {
                if ids_of(f).contains(x) {
                    let j = choose|j: int| 0 <= j < ids_of(f).len() && ids_of(f)[j] == x;
                    if j < ids_of(fd).len() {
                        assert(ids_of(fd)[j] == x);
                        let jj = choose|jj: int|
                            0 <= jj < d.len() && (#[trigger] d[jj]).id == x && p(d[jj]);
                        assert(s[jj] == d[jj]);
                    } else {
                        assert(s[s.len() - 1].id == x && p(s[s.len() - 1]));
                    }
                }
                if exists|j: int| 0 <= j < s.len() && (#[trigger] s[j]).id == x && p(s[j]) {
                    let j = choose|j: int|
                        0 <= j < s.len() && (#[trigger] s[j]).id == x && p(s[j]);
                    if j < s.len() - 1 {
                        assert(d[j].id == x && p(d[j]));
                        assert(ids_of(fd).contains(x));
                        let jj = choose|jj: int|
                            0 <= jj < ids_of(fd).len() && ids_of(fd)[jj] == x;
                        assert(ids_of(f)[jj] == x);
                    } else {
                        assert(ids_of(f)[ids_of(f).len() - 1] == x);
                    }
                }
            }
        } else {
            assert(f == fd);
            assert forall|x: ObjectId|
                ids_of(f).contains(x) <==> (exists|j: int|
                    0 <= j < s.len() && (#[trigger] s[j]).id == x && p(s[j])) by {
                if exists|j: int| 0 <= j < s.len() && (#[trigger] s[j]).id == x && p(s[j]) {
                    let j = choose|j: int|
                        0 <= j < s.len() && (#[trigger] s[j]).id == x && p(s[j]);
                    assert(j < s.len() - 1);
                    assert(d[j].id == x && p(d[j]));
                }
                if ids_of(fd).contains(x) {
                    let jj = choose|jj: int|
                        0 <= jj < d.len() && (#[trigger] d[jj]).id == x && p(d[jj]);
                    assert(s[jj] == d[jj]);
                }
            }
        }
    }
}

/// Splits a table of objects into those whose ids are listed and the rest,
/// keeping each side's order.
pub fn split_by_ids(objs: Vec<PyObject>, ids: &Vec<ObjectId>) -> (out: (
    Vec<PyObject>,
    Vec<PyObject>,
))
    ensures
        out.0@ == objs@.filter(keeps_in(ids@)),
        out.1@ == objs@.filter(keeps_out(ids@)),
{
    let ghost orig = objs@;
    let ghost pin = keeps_in(ids@);
    let ghost pout = keeps_out(ids@);
    let mut rest = objs;
    let mut taken: Vec<PyObject> = Vec::new();
    let mut kept: Vec<PyObject> = Vec::new();
    let mut k: usize = 0;
    proof {
        reveal(Seq::filter);
        assert(orig.take(0) =~= Seq::<PyObject>::empty());
        assert(rest@ =~= orig.skip(0));
        vstd::std_specs::vec::axiom_spec_len(&rest);
    }
    while rest.len() > 0
        invariant
            pin == keeps_in(ids@),
            pout == keeps_out(ids@),
            orig.len() <= usize::MAX,
            k <= orig.len(),
            rest@ == orig.skip(k as int),
            taken@ == orig.take(k as int).filter(pin),
            kept@ == orig.take(k as int).filter(pout),
        decreases rest@.len(),
    {
        proof {
            assert(orig.skip(k as int).len() == orig.len() - k);
            assert(k < orig.len());
        }
        let o = rest.remove(0);
        proof {
            assert(orig.skip(k as int)[0] == orig[k as int]);
            assert(rest@ =~= orig.skip(k + 1));
            reveal(Seq::filter);
            let t = orig.take(k + 1);
            assert(t.drop_last() =~= orig.take(k as int));
            assert(t.last() == orig[k as int]);
        }
        if contains_id(ids, o.id) {
            taken.push(o);
        } else {
            kept.push(o);
        }
        k = k + 1;
    }
    proof {
        assert(orig.take(k as int) =~= orig);
    }
    (taken, kept)
}

/// One more pair in the prefix extends the pair relation by exactly it.
proof fn lemma_pair_rel_take_step(pairs: Seq<(ObjectId, ObjectId)>, k: int)
    requires
        0 <= k < pairs.len(),
    ensures
        forall|a: ObjectId, b: ObjectId|
            #[trigger] pair_rel(pairs.take(k + 1))(a, b) <==> pair_rel(pairs.take(k))(a, b) || (a
                == pairs[k].0 && b == pairs[k].1),
{
    let t = pairs.take(k + 1);
    assert(t.drop_last() =~= pairs.take(k));
    assert(t.last() == pairs[k]);
    lemma_pair_rel_push(pairs.take(k), pairs[k]);
    assert(t == pairs.take(k).push(pairs[k]));
}

/// Restricts the pass edges to those whose two ends the pass both found
/// dead; the quarantine closure walks only these.
pub fn restrict_pairs_to_dead(pairs: &Vec<(ObjectId, ObjectId)>, live: &Vec<ObjectId>) -> (out: Vec<
    (ObjectId, ObjectId),
>)
    ensures
        forall|a: ObjectId, b: ObjectId|
            #[trigger] pair_rel(out@)(a, b) <==> pair_rel(pairs@)(a, b) && !live@.contains(a)
                && !live@.contains(b),
{
    let mut out: Vec<(ObjectId, ObjectId)> = Vec::new();
    let mut k: usize = 0;
    proof {
        assert(pairs@.take(0) =~= Seq::<(ObjectId, ObjectId)>::empty());
        assert forall|a: ObjectId, b: ObjectId| !(#[trigger] pair_rel(out@)(a, b)) by {
            if pair_rel(out@)(a, b) {
                let kk = choose|kk: int|
                    0 <= kk < out@.len() && #[trigger] out@[kk].0 == a && out@[kk].1 == b;
            }
        }
    }
    while k < pairs.len()
        invariant
            k <= pairs@.len(),
            forall|a: ObjectId, b: ObjectId|
                #[trigger] pair_rel(out@)(a, b) <==> pair_rel(pairs@.take(k as int))(a, b)
                    && !live@.contains(a) && !live@.contains(b),
        decreases pairs@.len() - k,
    {
        let e = pairs[k];
        let ghost oldout = out@;
        if !contains_id(live, e.0) && !contains_id(live, e.1) {
            out.push(e);
            proof {
                lemma_pair_rel_push(oldout, e);
            }
        }
        proof {
            lemma_pair_rel_take_step(pairs@, k as int);
            assert(pairs@[k as int] == e);
        }
        k = k + 1;
    }
    proof {
        assert(pairs@.take(pairs@.len() as int) =~= pairs@);
    }
    out
}

/// The dead objects of the pass that carry a finalizer: the roots of the
/// quarantine closure.
pub fn finalizer_roots(work: &Vec<PyObject>, live: &Vec<ObjectId>) -> (r: Vec<ObjectId>)
    requires
        ids_of(work@).no_duplicates(),
    ensures
        r@.no_duplicates(),
        forall|x: ObjectId|
            r@.contains(x) <==> (exists|j: int|
                0 <= j < work@.len() && (#[trigger] work@[j]).id == x && !live@.contains(x)
                    && work@[j].has_finalizer),
{
    let mut r: Vec<ObjectId> = Vec::new();
    let mut i: usize = 0;
    while i < work.len()
        invariant
            i <= work@.len(),
            ids_of(work@).no_duplicates(),
            r@.no_duplicates(),
            forall|x: ObjectId|
                r@.contains(x) <==> (exists|j: int|
                    0 <= j < i && (#[trigger] work@[j]).id == x && !live@.contains(x)
                        && work@[j].has_finalizer),
        decreases work@.len() - i,
    {
        let id = work[i].id;
        if work[i].has_finalizer && !contains_id(live, id) {
            proof {
                if r@.contains(id) {
                    let j = choose|j: int|
                        0 <= j < i && (#[trigger] work@[j]).id == id && !live@.contains(id)
                            && work@[j].has_finalizer;
                    assert(ids_of(work@)[j] == id);
                    assert(ids_of(work@)[i as int] == id);
                    assert(false);
                }
            }
            r.push(id);
        }
        i = i + 1;
    }
    r
}

/// Partitions the collection set after the reachability analysis: the live
/// objects survive, the dead ones tied to a finalizer (or held by the
/// save-all debug bit) are quarantined, and the rest are reclaimed. Pass
/// bits are cleared on everything that is kept.
pub fn partition_work(
    work: Vec<PyObject>,
    live: &Vec<ObjectId>,
    quar: &Vec<ObjectId>,
    saveall: bool,
) -> (out: (Vec<PyObject>, Vec<PyObject>, usize))
    ensures
        out.0@ == work@.filter(keeps_live(live@)).map_values(clearer()),
        out.1@ == work@.filter(keeps_quarantined(live@, quar@, saveall)).map_values(clearer()),
        out.2 == work@.filter(keeps_reclaimed(live@, quar@, saveall)).len(),
{
    let ghost orig = work@;
    let ghost pl = keeps_live(live@);
    let ghost pq = keeps_quarantined(live@, quar@, saveall);
    let ghost pr = keeps_reclaimed(live@, quar@, saveall);
    let mut rest = work;
    let mut survivors: Vec<PyObject> = Vec::new();
    let mut quarantined: Vec<PyObject> = Vec::new();
    let mut reclaimed: usize = 0;
    let mut k: usize = 0;
    proof {
        reveal(Seq::filter);
        assert(orig.take(0) =~= Seq::<PyObject>::empty());
        assert(rest@ =~= orig.skip(0));
        assert(survivors@ =~= orig.take(0).filter(pl).map_values(clearer()));
        assert(quarantined@ =~= orig.take(0).filter(pq).map_values(clearer()));
        vstd::std_specs::vec::axiom_spec_len(&rest);
    }
    while rest.len() > 0
        invariant
            pl == keeps_live(live@),
            pq == keeps_quarantined(live@, quar@, saveall),
            pr == keeps_reclaimed(live@, quar@, saveall),
            orig.len() <= usize::MAX,
            k <= orig.len(),
            rest@ == orig.skip(k as int),
            survivors@ == orig.take(k as int).filter(pl).map_values(clearer()),
            quarantined@ == orig.take(k as int).filter(pq).map_values(clearer()),
            reclaimed == orig.take(k as int).filter(pr).len(),
        decreases rest@.len(),
    {
        proof {
            assert(orig.skip(k as int).len() == orig.len() - k);
            assert(k < orig.len());
        }
        let mut o = rest.remove(0);
        proof {
            assert(orig.skip(k as int)[0] == orig[k as int]);
            assert(rest@ =~= orig.skip(k + 1));
            reveal(Seq::filter);
            let t = orig.take(k + 1);
            assert(t.drop_last() =~= orig.take(k as int));
            assert(t.last() == orig[k as int]);
            orig.take(k as int).lemma_filter_len(pr);
            assert(orig.take(k as int).len() == k);
        }
        let is_live = contains_id(live, o.id);
        let is_quar = contains_id(quar, o.id);
        let ghost before = o;
        o.gc_head.collecting = false;
        let prev = o.gc_head._gc_prev;
        o.gc_head._gc_prev = prev & !2;
        proof {
            assert(o == cleared_after_pass(before));
        }
        if is_live {
            survivors.push(o);
            proof {
                assert(survivors@ =~= orig.take(k + 1).filter(pl).map_values(clearer()));
            }
        } else if is_quar || saveall {
            quarantined.push(o);
            proof {
                assert(quarantined@ =~= orig.take(k + 1).filter(pq).map_values(clearer()));
            }
        } else {
            reclaimed = reclaimed + 1;
        }
        k = k + 1;
    }
    proof {
        assert(orig.take(k as int) =~= orig);
    }
    (survivors, quarantined, reclaimed)
}

/// The ids of a table of objects, as a list.
pub fn ids_from(objs: &Vec<PyObject>) -> (r: Vec<ObjectId>)
    ensures
        r@ == ids_of(objs@),
{
    let mut r: Vec<ObjectId> = Vec::new();
    let mut i: usize = 0;
    proof {
        assert(r@ =~= ids_of(objs@.take(0)));
    }
    while i < objs.len()
        invariant
            i <= objs@.len(),
            r@ == ids_of(objs@.take(i as int)),
        decreases objs@.len() - i,
    {
        r.push(objs[i].id);
        proof {
            assert(r@ =~= ids_of(objs@.take(i + 1)));
        }
        i = i + 1;
    }
    proof {
        assert(objs@.take(objs@.len() as int) =~= objs@);
    }
    r
}

/// Drops from `refs` every reference touching any of the listed ids,
/// keeping the order of the rest.
pub fn drop_refs_touching_any(refs: &mut Vec<Reference>, ids: &Vec<ObjectId>)
    ensures
        final(refs)@ == old(refs)@.filter(keeps_untouched(ids@)),
{
    let ghost orig = refs@;
    let ghost pred = keeps_untouched(ids@);
    let mut kept: Vec<Reference> = Vec::new();
    let mut k: usize = 0;
    proof {
        reveal(Seq::filter);
        assert(orig.take(0) =~= Seq::<Reference>::empty());
    }
    while k < refs.len()
        invariant
            orig == refs@,
            pred == keeps_untouched(ids@),
            k <= orig.len(),
            kept@ == orig.take(k as int).filter(pred),
        decreases orig.len() - k,
    {
        let r = refs[k];
        proof {
            reveal(Seq::filter);
            let t = orig.take(k + 1);
            assert(t.drop_last() =~= orig.take(k as int));
            assert(t.last() == orig[k as int]);
        }
        if !contains_id(ids, r.from) && !contains_id(ids, r.to) {
            kept.push(r);
        }
        k = k + 1;
    }
    proof {
        assert(orig.take(orig.len() as int) =~= orig);
    }
    *refs = kept;
}

/// The concatenation of two duplicate-free lists with no id in common is
/// duplicate-free.
proof fn lemma_concat2_no_dup(a: Seq<ObjectId>, b: Seq<ObjectId>)
    requires
        a.no_duplicates(),
        b.no_duplicates(),
        forall|x: ObjectId| !(a.contains(x) && b.contains(x)),
    ensures
        (a + b).no_duplicates(),
{
    let c = a + b;
    assert forall|x: int, y: int|
        0 <= x < c.len() && 0 <= y < c.len() && x != y implies c[x] != c[y] by {
        if x < a.len() && y < a.len() {
        } else if x >= a.len() && y >= a.len() {
            assert(c[x] == b[x - a.len()]);
            assert(c[y] == b[y - a.len()]);
        } else if x < a.len() {
            assert(c[x] == a[x]);
            assert(c[y] == b[y - a.len()]);
            assert(a.contains(a[x]));
            assert(b.contains(b[y - a.len()]));
        } else {
            assert(c[y] == a[y]);
            assert(c[x] == b[x - a.len()]);
            assert(a.contains(a[y]));
            assert(b.contains(b[x - a.len()]));
        }
    }
}

/// A filter whose predicate admits every element changes nothing.
proof fn lemma_filter_all<A>(s: Seq<A>, p: spec_fn(A) -> bool)
    requires
        forall|i: int| 0 <= i < s.len() ==> p(#[trigger] s[i]),
    ensures
        s.filter(p) == s,
    decreases s.len(),
{
    reveal(Seq::filter);
    if s.len() > 0 {
        let d = s.drop_last();
        lemma_filter_all(d, p);
        assert(s[s.len() - 1] == s.last());
        assert(d.filter(p).push(s.last()) =~= s);
    }
}

/// A filter whose predicate admits no element keeps nothing.
proof fn lemma_filter_empty<A>(s: Seq<A>, p: spec_fn(A) -> bool)
    requires
        forall|i: int| 0 <= i < s.len() ==> !p(#[trigger] s[i]),
    ensures
        s.filter(p) == Seq::<A>::empty(),
    decreases s.len(),
{
    reveal(Seq::filter);
    if s.len() > 0 {
        let d = s.drop_last();
        lemma_filter_empty(d, p);
        assert(s[s.len() - 1] == s.last());
    } else {
        assert(s.filter(p) =~= Seq::<A>::empty());
    }
}

/// The pass's in-count never goes negative.
proof fn lemma_pass_incount_nonneg(refs: Seq<Reference>, work: Seq<PyObject>, id: ObjectId)
    ensures
        pass_incount(refs, work, id) >= 0,
    decreases refs.len(),
{
    if refs.len() > 0 {
        lemma_pass_incount_nonneg(refs.drop_last(), work, id);
    }
}

/// Counting over a filtered reference list against a smaller collection
/// set never counts more than over the full list.
proof fn lemma_pass_incount_filter_le(
    refs: Seq<Reference>,
    p: spec_fn(Reference) -> bool,
    wbig: Seq<PyObject>,
    wsmall: Seq<PyObject>,
    id: ObjectId,
)
    requires
        forall|x: ObjectId|
            #[trigger] ids_of(wsmall).contains(x) ==> ids_of(wbig).contains(x),
    ensures
        pass_incount(refs.filter(p), wsmall, id) <= pass_incount(refs, wbig, id),
    decreases refs.len(),
{
    reveal(Seq::filter);
    if refs.len() == 0 {
        assert(refs.filter(p) =~= Seq::<Reference>::empty());
    } else {
        let d = refs.drop_last();
        lemma_pass_incount_filter_le(d, p, wbig, wsmall, id);
        assert(refs[refs.len() - 1] == refs.last());
        if p(refs.last()) {
            assert(refs.filter(p) == d.filter(p).push(refs.last()));
            assert(refs.filter(p).drop_last() =~= d.filter(p));
            assert(refs.filter(p).last() == refs.last());
            if counts_against(refs.last(), wsmall, id) {
                assert(counts_against(refs.last(), wbig, id));
            }
        } else {
            assert(refs.filter(p) == d.filter(p));
            if counts_against(refs.last(), wbig, id) {
            }
        }
    }
}

/// After a successful pass over the oldest generation, running another
/// pass over the unchanged survivors reclaims nothing. Every survivor was
/// kept because some object with references from outside the set reaches
/// it; the second pass sees the same survivors and the same references
/// between them, finds at least the same roots, and follows the same
/// walks, so everything is found alive again. The statement takes the
/// first pass to have covered the whole table (nothing frozen in the
/// permanent cohort), which is what a full collection does. A pass over a
/// single younger cohort between the two is outside its scope: such a
/// pass works on a different collection set and may reclaim on its own
/// account.
pub proof fn lemma_second_full_pass_reclaims_nothing(c0: Collector, c1: Collector)
    requires
        c0.wf(),
        c1.wf(),
        c1.tracked_objects@ == c0.tracked_objects@.filter(keeps_out(c0.collection_ids(2)))
            + c0.pass_work(2).filter(c0.live_pred(2)).map_values(c0.pass_survivor_form(2)),
        c1.references@ == c0.references@.filter(c0.live_ref_pred(2)),
        forall|x: ObjectId|
            #[trigger] c0.collection_ids(2).contains(x) <==> c0.tracked_ids().contains(x),
        forall|x: ObjectId|
            #[trigger] c1.collection_ids(2).contains(x) <==> c1.tracked_ids().contains(x),
    ensures
        c0.pass_work(2).filter(c0.live_pred(2)).map_values(c0.pass_survivor_form(2)).filter(
            c1.reclaim_pred(2),
        ).len() == 0,
        c1.pass_work(2).filter(c1.reclaim_pred(2)).len() == 0,
{
    let refs0 = c0.references@;
    let refs1 = c1.references@;
    let live = c0.live_pred(2);
    let survf = c0.pass_survivor_form(2);

    // The first pass's work set was the whole table.
    assert forall|i: int|
        0 <= i < c0.tracked_objects@.len() implies keeps_in(c0.collection_ids(2))(
        #[trigger] c0.tracked_objects@[i],
    ) by {
        assert(c0.tracked_ids()[i] == c0.tracked_objects@[i].id);
        assert(c0.tracked_ids().contains(c0.tracked_objects@[i].id));
    }
    lemma_filter_all(c0.tracked_objects@, keeps_in(c0.collection_ids(2)));
    let w1 = c0.pass_work(2);
    assert(w1 == c0.tracked_objects@);
    assert(ids_of(w1).no_duplicates());

    // Nothing stood outside it, so the survivors are the whole new table.
    assert forall|i: int|
        0 <= i < c0.tracked_objects@.len() implies !keeps_out(c0.collection_ids(2))(
        #[trigger] c0.tracked_objects@[i],
    ) by {
        assert(c0.tracked_ids()[i] == c0.tracked_objects@[i].id);
        assert(c0.tracked_ids().contains(c0.tracked_objects@[i].id));
    }
    lemma_filter_empty(c0.tracked_objects@, keeps_out(c0.collection_ids(2)));
    let lseq = w1.filter(live);
    let surv = lseq.map_values(survf);
    assert(c1.tracked_objects@ =~= surv);

    // The second pass's work set is the whole new table in turn.
    assert forall|i: int|
        0 <= i < c1.tracked_objects@.len() implies keeps_in(c1.collection_ids(2))(
        #[trigger] c1.tracked_objects@[i],
    ) by {
        assert(c1.tracked_ids()[i] == c1.tracked_objects@[i].id);
        assert(c1.tracked_ids().contains(c1.tracked_objects@[i].id));
    }
    lemma_filter_all(c1.tracked_objects@, keeps_in(c1.collection_ids(2)));
    let w2 = c1.pass_work(2);
    assert(w2 == surv);

    lemma_filter_elements(w1, live);
    lemma_filter_ids(w1, live);
    assert(ids_of(w2) =~= ids_of(lseq)) by {
        assert forall|j: int|
            0 <= j < ids_of(w2).len() implies ids_of(w2)[j] == ids_of(lseq)[j] by {
            assert(w2[j] == survf(lseq[j]));
        }
    }

    // A first-pass-live id names a survivor.
    assert forall|y: ObjectId|
        ids_of(w1).contains(y) && c0.pass_live(2, y) implies #[trigger] ids_of(w2).contains(
        y,
    ) by {
        let j = choose|j: int| 0 <= j < ids_of(w1).len() && ids_of(w1)[j] == y;
        assert(w1[j].id == y);
        assert(live(w1[j]));
        assert(ids_of(lseq).contains(y));
    }

    // Smaller set, fewer counted references.
    assert forall|x: ObjectId|
        #[trigger] ids_of(w2).contains(x) implies ids_of(w1).contains(x) by {
        let j = choose|j: int| 0 <= j < ids_of(lseq).len() && ids_of(lseq)[j] == x;
        assert(lseq[j].id == x);
        assert(w1.contains(lseq[j]));
        let jj = choose|jj: int| 0 <= jj < w1.len() && w1[jj] == lseq[j];
        assert(ids_of(w1)[jj] == x);
    }

    // Every survivor is found alive again by the second pass.
    assert forall|j: int|
        0 <= j < w2.len() implies c1.pass_live(2, (#[trigger] w2[j]).id) by {
        let x = lseq[j];
        assert(w2[j] == survf(x));
        assert(live(x));
        assert(c0.pass_live(2, x.id));
        let rel1 = pass_rel(w1, refs0);
        let roots1 = c0.pass_roots(2);
        let p = choose|p: Seq<ObjectId>| is_path(rel1, roots1, p) && p.last() == x.id;
        crate::traversal::lemma_path_nodes_reachable(rel1, roots1, p);
        // Every node the walk passes is in the first work set and live.
        assert forall|i: int| 0 <= i < p.len() implies ids_of(w1).contains(#[trigger] p[i]) by {
            if i == 0 {
                assert(roots1.contains(p[0]));
                let j0 = choose|j0: int|
                    0 <= j0 < c0.pass_work(2).len() && (#[trigger] c0.pass_work(2)[j0]).id
                        == p[0] && c0.pass_work(2)[j0].refcount > pass_incount(
                        c0.references@,
                        c0.pass_work(2),
                        p[0],
                    );
                assert(w1[j0] == c0.pass_work(2)[j0]);
                assert(ids_of(w1)[j0] == p[0]);
            } else {
                let h = i - 1;
                assert(rel1(p[h], p[h + 1]));
                assert(p[h + 1] == p[i]);
            }
        }
        let rel2 = pass_rel(w2, refs1);
        let roots2 = c1.pass_roots(2);
        // The walk's start is a root of the second pass too.
        assert(roots2.contains(p[0])) by {
            assert(roots1.contains(p[0]));
            let j0 = choose|j0: int|
                0 <= j0 < c0.pass_work(2).len() && (#[trigger] c0.pass_work(2)[j0]).id == p[0]
                    && c0.pass_work(2)[j0].refcount > pass_incount(
                    c0.references@,
                    c0.pass_work(2),
                    p[0],
                );
            assert(w1[j0] == c0.pass_work(2)[j0]);
            assert(w1[j0].refcount > pass_incount(refs0, w1, p[0]));
            assert(reaches(rel1, roots1, p[0]));
            assert(ids_of(w2).contains(p[0]));
            let j2 = choose|j2: int| 0 <= j2 < ids_of(w2).len() && ids_of(w2)[j2] == p[0];
            assert(w2[j2].id == p[0]);
            assert(w2[j2] == survf(lseq[j2]));
            assert(lseq[j2].id == p[0]);
            assert(w1.contains(lseq[j2]));
            let jj = choose|jj: int| 0 <= jj < w1.len() && w1[jj] == lseq[j2];
            assert(ids_of(w1)[jj] == p[0]);
            assert(ids_of(w1)[j0] == p[0]);
            assert(jj == j0);
            assert(w2[j2].refcount == w1[j0].refcount);
            lemma_pass_incount_filter_le(refs0, c0.live_ref_pred(2), w1, w2, p[0]);
            assert(w2[j2].refcount > pass_incount(refs1, w2, p[0]));
        }
        // Each of its steps survives the reference pruning.
        assert forall|i: int|
            0 <= i < p.len() - 1 implies #[trigger] rel2(p[i], p[i + 1]) by {
            assert(rel1(p[i], p[i + 1]));
            let k = choose|k: int|
                0 <= k < refs0.len() && (#[trigger] refs0[k]).reference_type
                    != ReferenceType::Weak && refs0[k].from == p[i] && refs0[k].to == p[i + 1];
            assert(reaches(rel1, roots1, p[i]));
            assert(reaches(rel1, roots1, p[i + 1]));
            assert(c0.live_ref_pred(2)(refs0[k]));
            refs0.lemma_filter_contains(c0.live_ref_pred(2), k);
            assert(refs1.contains(refs0[k]));
            let k2 = choose|k2: int| 0 <= k2 < refs1.len() && refs1[k2] == refs0[k];
            assert((#[trigger] refs1[k2]).reference_type != ReferenceType::Weak && refs1[k2].from
                == p[i] && refs1[k2].to == p[i + 1]);
            assert(ids_of(w2).contains(p[i]));
            assert(ids_of(w2).contains(p[i + 1]));
        }
        assert(is_path(rel2, roots2, p) && p.last() == w2[j].id);
    }

    // Nothing matches the reclaim predicate, so the filter keeps nothing.
    assert forall|j: int|
        0 <= j < w2.len() implies !(c1.reclaim_pred(2)(#[trigger] w2[j])) by {
        assert(c1.pass_live(2, w2[j].id));
    }
    lemma_filter_empty(w2, c1.reclaim_pred(2));
}

/// Between collection passes no tracked object carries the `collecting`
/// pass bit; in particular this holds right after any successful
/// collection, whose contract re-establishes the collector's standing.
pub proof fn lemma_no_pass_bits_between_collections(c: Collector)
    requires
        c.wf(),
    ensures
        forall|i: int|
            0 <= i < c.tracked_objects@.len() ==> !(
            #[trigger] c.tracked_objects@[i]).gc_head.collecting,
{
}

/// Nothing sits in the quarantine without cause: each entry carries a
/// finalizer of its own, was held for inspection by the save-all debug
/// bit, or was unreachable together with a finalizer-bearing object (an
/// object swept into quarantine with its cycle's finalizer need not carry
/// one itself).
pub proof fn lemma_uncollectable_justified(c: Collector)
    requires
        c.wf(),
    ensures
        forall|i: int|
            0 <= i < c.uncollectable@.len() ==> (#[trigger] c.uncollectable@[i]).has_finalizer
                || c.saved_by_debug@[i] || c.finalizer_linked@[i],
{
}

/// Removing a position from a duplicate-free id list keeps it
/// duplicate-free and removes exactly that id's membership.
pub proof fn lemma_remove_id_facts(ids: Seq<ObjectId>, i: int)
    requires
        ids.no_duplicates(),
        0 <= i < ids.len(),
    ensures
        ids.remove(i).no_duplicates(),
        forall|x: ObjectId| ids.remove(i).contains(x) <==> ids.contains(x) && x != ids[i],
{
    let out = ids.remove(i);
    assert(out.no_duplicates()) by {
        assert forall|a: int, b: int|
            0 <= a < out.len() && 0 <= b < out.len() && a != b implies out[a] != out[b] by {
            let a0 = if a < i {
                a
            } else {
                a + 1
            };
            let b0 = if b < i {
                b
            } else {
                b + 1
            };
            assert(out[a] == ids[a0]);
            assert(out[b] == ids[b0]);
        }
    }
    assert forall|x: ObjectId| out.contains(x) <==> ids.contains(x) && x != ids[i] by {
        if out.contains(x) {
            let j = choose|j: int| 0 <= j < out.len() && out[j] == x;
            let j0 = if j < i {
                j
            } else {
                j + 1
            };
            assert(ids[j0] == x);
        }
        if ids.contains(x) && x != ids[i] {
            let j = choose|j: int| 0 <= j < ids.len() && ids[j] == x;
            if j < i {
                assert(out[j] == x);
            } else {
                assert(out[j - 1] == x);
            }
        }
    }
}

} // verus!

