//! The collector facade a host runtime drives: tracking, collection,
//! thresholds, statistics, the reference graph, and the quarantine.

use vstd::prelude::*;

use crate::collector::Collector;
use crate::error::{GCError, GCResult};
use crate::object::{ObjectId, PyGCHead, PyObject};
use crate::traversal::{
    keeps_other_edges, referents_of, referrers_of, Reference, ReferenceType,
};

verus! {

broadcast use {vstd::seq_lib::group_seq_properties, vstd::set::group_set_axioms};

/// The facade around one collector: the host enables and disables it,
/// hands it objects to track, and asks it to collect.
pub struct GarbageCollector {
    /// The collector itself.
    pub collector: Collector,
    /// While false, tracking and collecting are accepted but do nothing.
    pub enabled: bool,
}

impl GarbageCollector {
    /// The facade is in good standing whenever its collector is and no
    /// pass is marked as running.
    pub open spec fn wf(self) -> bool {
        &&& self.collector.wf()
        &&& self.collector.generation_manager.collecting_generation is None
    }

    /// Which generation a collection would run on when none is overdue:
    /// the oldest, so that the whole heap is examined.
    pub open spec fn spec_chosen_generation(self) -> int {
        if self.collector.generation_manager.generations@[2].collections_since
            >= self.collector.generation_manager.generations@[2].threshold {
            2
        } else if self.collector.generation_manager.generations@[1].collections_since
            >= self.collector.generation_manager.generations@[1].threshold {
            1
        } else if self.collector.generation_manager.generations@[0].count
            >= self.collector.generation_manager.generations@[0].threshold {
            0
        } else {
            2
        }
    }

    /// Whether some generation is overdue for a collection.
    pub open spec fn spec_needs_collection(self) -> bool {
        ||| self.collector.generation_manager.generations@[2].collections_since
            >= self.collector.generation_manager.generations@[2].threshold
        ||| self.collector.generation_manager.generations@[1].collections_since
            >= self.collector.generation_manager.generations@[1].threshold
        ||| self.collector.generation_manager.generations@[0].count
            >= self.collector.generation_manager.generations@[0].threshold
    }

    /// Everything a successful collection pass over generation `g` that
    /// reclaimed `n` objects guarantees about the facade's state: the
    /// reclaim count, the quarantine growth, which ids stay tracked, the
    /// pruned reference graph, the emptied and refilled cohorts with their
    /// populations, the advanced collection counters, and the untouched
    /// thresholds and debug flags.
    pub open spec fn pass_outcome(self, post: GarbageCollector, g: int, n: int) -> bool {
        let w = self.collector.pass_work(g);
        let tgt: int = if g < 2 {
            g + 1
        } else {
            2
        };
        &&& n == w.filter(self.collector.reclaim_pred(g)).len()
        &&& post.collector.uncollectable@ == self.collector.uncollectable@ + w.filter(
            self.collector.quarantine_pred(g),
        ).map_values(self.collector.pass_survivor_form(g))
        &&& (forall|x: ObjectId|
            post.collector.tracked_ids().contains(x) <==> self.collector.tracked_ids().contains(
                x,
            ) && (self.collector.collection_ids(g).contains(x) ==> self.collector.pass_live(
                g,
                x,
            )))
        &&& (forall|i: int|
            0 <= i < post.collector.tracked_objects@.len() ==> !(
            #[trigger] post.collector.tracked_objects@[i]).gc_head.collecting)
        &&& post.collector.references@ == self.collector.references@.filter(
            self.collector.live_ref_pred(g),
        )
        &&& post.collector.debug_flags == self.collector.debug_flags
        &&& (forall|j: int|
            0 <= j < 3 ==> (#[trigger] post.collector.generation_manager.generations@[j]).threshold
                == self.collector.generation_manager.generations@[j].threshold)
        &&& (forall|j: int|
            0 <= j <= g && j != tgt ==> (
            #[trigger] post.collector.generation_manager.generations@[j]).count == 0)
        &&& post.collector.generation_manager.generations@[tgt].count == (if g < 2 {
            self.collector.generation_manager.generations@[tgt].count as int
        } else {
            0int
        }) + w.filter(self.collector.live_pred(g)).len()
        &&& (forall|j: int|
            g + 1 < j < 3 ==> (
            #[trigger] post.collector.generation_manager.generations@[j]).count
                == self.collector.generation_manager.generations@[j].count)
        &&& post.collector.generation_manager.generations@[0].collections_since
            == self.collector.generation_manager.generations@[0].collections_since
        &&& (forall|j: int|
            1 <= j <= g ==> (
            #[trigger] post.collector.generation_manager.generations@[j]).collections_since == 0)
        &&& (g < 2 ==> post.collector.generation_manager.generations@[g + 1].collections_since
            == (if self.collector.generation_manager.generations@[g + 1].collections_since
            < usize::MAX {
            self.collector.generation_manager.generations@[g + 1].collections_since + 1
        } else {
            self.collector.generation_manager.generations@[g + 1].collections_since as int
        }))
        &&& (forall|j: int|
            g + 1 < j < 3 ==> (
            #[trigger] post.collector.generation_manager.generations@[j]).collections_since
                == self.collector.generation_manager.generations@[j].collections_since)
    }

    pub fn new() -> (r: GarbageCollector)
        ensures
            r.wf(),
            r.enabled,
            r.collector.tracked_objects@ == Seq::<PyObject>::empty(),
            r.collector.uncollectable@ == Seq::<PyObject>::empty(),
            r.collector.references@ == Seq::<Reference>::empty(),
            r.collector.generation_manager.generations@[0].threshold == 700,
            r.collector.generation_manager.generations@[1].threshold == 10,
            r.collector.generation_manager.generations@[2].threshold == 10,
            r.collector.debug_flags == 0,
            r.collector.collections == 0,
            r.collector.collected_total == 0,
            forall|g: int|
                0 <= g < 3 ==> (#[trigger] r.collector.generation_manager.generations@[g]).count
                    == 0,
            forall|g: int|
                0 <= g < 3 ==> (
                #[trigger] r.collector.generation_manager.generations@[g]).collections_since == 0,
    {
        GarbageCollector { collector: Collector::new(), enabled: true }
    }

    pub fn enable(&mut self)
        ensures
            *final(self) == (GarbageCollector { enabled: true, ..*old(self) }),
    {
        self.enabled = true;
    }

    pub fn disable(&mut self)
        ensures
            *final(self) == (GarbageCollector { enabled: false, ..*old(self) }),
    {
        self.enabled = false;
    }

    pub fn is_enabled(&self) -> (r: bool)
        ensures
            r == self.enabled,
    {
        self.enabled
    }

    /// Starts tracking an object. While the collector is disabled this is
    /// accepted and does nothing; an already-tracked object is rejected
    /// unchanged; otherwise the object joins the youngest cohort and its
    /// payload's child ids join the reference graph.
    pub fn track(&mut self, obj: PyObject) -> (r: GCResult<()>)
        requires
            old(self).wf(),
            obj.wf(),
            !obj.gc_head.collecting,
        ensures
            final(self).wf(),
            !old(self).enabled ==> r == Ok::<(), GCError>(()) && *final(self) == *old(self),
            old(self).enabled && (obj.gc_tracked || old(self).collector.tracked_ids().contains(
                obj.id,
            )) ==> r == Err::<(), GCError>(GCError::AlreadyTracked) && *final(self) == *old(self),
            old(self).enabled && !(obj.gc_tracked || old(self).collector.tracked_ids().contains(
                obj.id,
            )) ==> r == Ok::<(), GCError>(()) && final(self).collector.tracked_objects@ == old(
                self,
            ).collector.tracked_objects@.push(
                (PyObject {
                    gc_tracked: true,
                    gc_head: PyGCHead { _gc_next: obj.id.0, ..obj.gc_head },
                    ..obj
                }),
            ) && final(self).collector.references@ == old(self).collector.references@
                + crate::collector::payload_refs(obj) && (forall|x: ObjectId|
                final(self).collector.tracked_ids().contains(x) <==> old(self).collector.tracked_ids().contains(x) || x == obj.id) && final(self).collector.uncollectable@ == old(self).collector.uncollectable@ && final(self).collector.generation_manager.generations@[0].count == old(self).collector.generation_manager.generations@[0].count + 1 && final(self).collector.generation_manager.generations@[1] == old(self).collector.generation_manager.generations@[1] && final(self).collector.generation_manager.generations@[2] == old(self).collector.generation_manager.generations@[2] && final(self).collector.generation_manager.generations@[0].threshold == old(self).collector.generation_manager.generations@[0].threshold && final(self).collector.generation_manager.generations@[0].collections_since == old(self).collector.generation_manager.generations@[0].collections_since && final(self).collector.generation_manager.permanent_generation == old(self).collector.generation_manager.permanent_generation && final(self).collector.debug_flags == old(self).collector.debug_flags && final(self).collector.collections == old(self).collector.collections && final(self).collector.collected_total == old(self).collector.collected_total,
            final(self).enabled == old(self).enabled,
    {
        if !self.enabled {
            return Ok(());
        }
        let ghost obj0 = obj;
        let r = self.collector.track_object(obj);
        proof {
            if !(obj0.gc_tracked || old(self).collector.tracked_ids().contains(obj0.id)) {
                let oldids = old(self).collector.tracked_ids();
                let newids = self.collector.tracked_ids();
                assert(newids =~= oldids.push(obj0.id));
                assert forall|x: ObjectId|
                    newids.contains(x) <==> oldids.contains(x) || x == obj0.id by {
                    if newids.contains(x) {
                        let i = choose|i: int| 0 <= i < newids.len() && newids[i] == x;
                        if i < oldids.len() {
                            assert(oldids[i] == x);
                        }
                    }
                    if oldids.contains(x) {
                        let i = choose|i: int| 0 <= i < oldids.len() && oldids[i] == x;
                        assert(newids[i] == x);
                    }
                    if x == obj0.id {
                        assert(newids[newids.len() - 1] == x);
                    }
                }
            }
        }
        r
    }

    /// Stops tracking the object with the given identity. Unlike tracking
    /// and collecting, this works even while the collector is disabled. An
    /// unknown identity is rejected unchanged.
    pub fn untrack(&mut self, obj_id: &ObjectId) -> (r: GCResult<()>)
        requires
            old(self).wf(),
        ensures
            final(self).wf(),
            !old(self).collector.tracked_ids().contains(*obj_id) ==> r == Err::<(), GCError>(
                GCError::NotTracked,
            ) && *final(self) == *old(self),
            old(self).collector.tracked_ids().contains(*obj_id) ==> r == Ok::<(), GCError>(())
                && final(self).collector.tracked_objects@.len() == old(self).collector.tracked_objects@.len() - 1 && (forall|x: ObjectId|
                final(self).collector.tracked_ids().contains(x) <==> old(self).collector.tracked_ids().contains(x) && x != *obj_id) && final(self).collector.uncollectable@ == old(self).collector.uncollectable@,
            final(self).enabled == old(self).enabled,
    {
        let r = self.collector.untrack_object(*obj_id);
        proof {
            if old(self).collector.tracked_ids().contains(*obj_id) {
                let oldids = old(self).collector.tracked_ids();
                let i = choose|i: int|
                    0 <= i < old(self).collector.tracked_objects@.len() && old(self).collector.tracked_objects@[i].id == *obj_id && self.collector.tracked_objects@
                        == old(self).collector.tracked_objects@.remove(i);
                assert(self.collector.tracked_ids() =~= oldids.remove(i));
                assert(oldids[i] == *obj_id);
                crate::collector::lemma_remove_id_facts(oldids, i);
            }
        }
        r
    }

    /// Whether an object with this identity is currently tracked.
    pub fn is_tracked(&self, obj_id: &ObjectId) -> (r: bool)
        requires
            self.wf(),
        ensures
            r == self.collector.tracked_ids().contains(*obj_id),
    {
        match crate::traversal::find_object(&self.collector.tracked_objects, *obj_id) {
            Some(i) => {
                proof {
                    assert(self.collector.tracked_ids()[i as int] == *obj_id);
                }
                true
            },
            None => {
                proof {
                    if self.collector.tracked_ids().contains(*obj_id) {
                        let j = choose|j: int|
                            0 <= j < self.collector.tracked_ids().len()
                                && self.collector.tracked_ids()[j] == *obj_id;
                        assert(self.collector.tracked_objects@[j].id == *obj_id);
                    }
                }
                false
            },
        }
    }

    /// Runs a collection pass over one generation. A generation that does
    /// not exist is rejected; while disabled this is accepted and does
    /// nothing.
    pub fn collect_generation(&mut self, generation: usize) -> (r: GCResult<usize>)
        requires
            old(self).wf(),
        ensures
            final(self).wf(),
            final(self).enabled == old(self).enabled,
            generation >= 3 ==> r == Err::<usize, GCError>(GCError::InvalidGeneration(generation))
                && *final(self) == *old(self),
            generation < 3 && !old(self).enabled ==> r == Ok::<usize, GCError>(0) && *final(self)
                == *old(self),
            generation < 3 && old(self).enabled ==> ((r is Ok) <==> !old(self).collector.pass_overcounted(generation as int)),
            generation < 3 && old(self).enabled ==> (r matches Ok(n) ==> old(self).pass_outcome(
                *final(self),
                generation as int,
                n as int,
            )),
    {
        if generation >= 3 {
            return Err(GCError::InvalidGeneration(generation));
        }
        if !self.enabled {
            return Ok(0);
        }
        let ghost self0 = *old(self);
        let ghost gi = generation as int;
        let r = self.collector.collect_generation(generation);
        proof {
            if r is Ok {
                let w = self0.collector.pass_work(gi);
                let keepseq = self0.collector.tracked_objects@.filter(
                    crate::collector::keeps_out(self0.collector.collection_ids(gi)),
                );
                let survseq = w.filter(self0.collector.live_pred(gi)).map_values(
                    self0.collector.pass_survivor_form(gi),
                );
                crate::collector::lemma_filter_ids(
                    self0.collector.tracked_objects@,
                    crate::collector::keeps_out(self0.collector.collection_ids(gi)),
                );
                crate::collector::lemma_filter_ids(
                    self0.collector.tracked_objects@,
                    crate::collector::keeps_in(self0.collector.collection_ids(gi)),
                );
                crate::collector::lemma_filter_ids(w, self0.collector.live_pred(gi));
                crate::collector::lemma_filter_elements(
                    self0.collector.tracked_objects@,
                    crate::collector::keeps_in(self0.collector.collection_ids(gi)),
                );
                crate::collector::lemma_filter_elements(w, self0.collector.live_pred(gi));
                assert(self.collector.tracked_objects@ == keepseq + survseq);
                assert(crate::traversal::ids_of(self.collector.tracked_objects@)
                    =~= crate::traversal::ids_of(keepseq) + crate::traversal::ids_of(survseq));
                assert(crate::traversal::ids_of(survseq) =~= crate::traversal::ids_of(
                    w.filter(self0.collector.live_pred(gi)),
                ));
                assert forall|x: ObjectId|
                    final(self).collector.tracked_ids().contains(x) <==> self0.collector.tracked_ids().contains(
                        x,
                    ) && (self0.collector.collection_ids(gi).contains(x)
                        ==> self0.collector.pass_live(gi, x)) by {
                    let keepids = crate::traversal::ids_of(keepseq);
                    let survids = crate::traversal::ids_of(
                        w.filter(self0.collector.live_pred(gi)),
                    );
                    if self.collector.tracked_ids().contains(x) {
                        if keepids.contains(x) {
                            let a = choose|a: int|
                                0 <= a < self0.collector.tracked_objects@.len() && (
                                #[trigger] self0.collector.tracked_objects@[a]).id == x
                                    && crate::collector::keeps_out(
                                    self0.collector.collection_ids(gi),
                                )(self0.collector.tracked_objects@[a]);
                            assert(self0.collector.tracked_ids()[a] == x);
                        } else {
                            let a = choose|a: int|
                                0 <= a < w.len() && (#[trigger] w[a]).id == x
                                    && self0.collector.live_pred(gi)(w[a]);
                            assert(w.contains(w[a]));
                            let b = choose|b: int|
                                0 <= b < self0.collector.tracked_objects@.len() && (
                                #[trigger] self0.collector.tracked_objects@[b]) == w[a];
                            assert(self0.collector.tracked_ids()[b] == x);
                        }
                    }
                    if self0.collector.tracked_ids().contains(x) {
                        let a = choose|a: int|
                            0 <= a < self0.collector.tracked_ids().len()
                                && self0.collector.tracked_ids()[a] == x;
                        assert(self0.collector.tracked_objects@[a].id == x);
                        if !self0.collector.collection_ids(gi).contains(x) {
                            assert(crate::collector::keeps_out(
                                self0.collector.collection_ids(gi),
                            )(self0.collector.tracked_objects@[a]));
                            assert(keepids.contains(x));
                        } else if self0.collector.pass_live(gi, x) {
                            assert(crate::collector::keeps_in(
                                self0.collector.collection_ids(gi),
                            )(self0.collector.tracked_objects@[a]));
                            assert(crate::traversal::ids_of(w).contains(x));
                            let b = choose|b: int|
                                0 <= b < w.len() && (#[trigger] w[b]).id == x
                                    && crate::collector::keeps_in(
                                    self0.collector.collection_ids(gi),
                                )(w[b]);
                            assert(self0.collector.live_pred(gi)(w[b]));
                            assert(survids.contains(x));
                        }
                    }
                }
            }
        }
        r
    }

    /// Runs a collection of the oldest overdue generation, or of the whole
    /// heap when none is overdue. While disabled this does nothing.
    pub fn collect(&mut self) -> (r: GCResult<usize>)
        requires
            old(self).wf(),
        ensures
            final(self).wf(),
            final(self).enabled == old(self).enabled,
            !old(self).enabled ==> r == Ok::<usize, GCError>(0) && *final(self) == *old(self),
            old(self).enabled ==> ((r is Ok) <==> !old(self).collector.pass_overcounted(
                old(self).spec_chosen_generation(),
            )),
            old(self).enabled ==> (r matches Ok(n) ==> {
                let gi = old(self).spec_chosen_generation();
                let w = old(self).collector.pass_work(gi);
                &&& n == w.filter(old(self).collector.reclaim_pred(gi)).len()
                &&& final(self).collector.uncollectable@ == old(self).collector.uncollectable@
                    + w.filter(old(self).collector.quarantine_pred(gi)).map_values(
                    old(self).collector.pass_survivor_form(gi),
                )
                &&& (forall|x: ObjectId|
                    final(self).collector.tracked_ids().contains(x) <==> old(
                        self,
                    ).collector.tracked_ids().contains(x) && (old(self).collector.collection_ids(
                        gi,
                    ).contains(x) ==> old(self).collector.pass_live(gi, x)))
            }),
    {
        if !self.enabled {
            return Ok(0);
        }
        let g: usize = match self.collector.generation_manager.choose_generation_to_collect() {
            Some(g) => g,
            None => 2,
        };
        let r = self.collect_generation(g);
        r
    }

    /// Whether some generation is overdue for a collection.
    pub fn needs_collection(&self) -> (r: bool)
        requires
            self.wf(),
        ensures
            r == self.spec_needs_collection(),
    {
        self.collector.generation_manager.choose_generation_to_collect().is_some()
    }

    /// Collects only when some generation is overdue; reports how many
    /// objects were reclaimed.
    pub fn collect_if_needed(&mut self) -> (r: GCResult<usize>)
        requires
            old(self).wf(),
        ensures
            final(self).wf(),
            final(self).enabled == old(self).enabled,
            !old(self).enabled ==> r == Ok::<usize, GCError>(0) && *final(self) == *old(self),
            old(self).enabled && !old(self).spec_needs_collection() ==> r == Ok::<usize, GCError>(
                0,
            ) && *final(self) == *old(self),
            old(self).enabled && old(self).spec_needs_collection() ==> ((r is Ok) <==> !old(self).collector.pass_overcounted(old(self).spec_chosen_generation())),
            old(self).enabled && old(self).spec_needs_collection() ==> (r matches Ok(n) ==> old(
                self,
            ).pass_outcome(*final(self), old(self).spec_chosen_generation(), n as int)),
    {
        if !self.enabled {
            return Ok(0);
        }
        match self.collector.generation_manager.choose_generation_to_collect() {
            Some(g) => self.collect_generation(g),
            None => Ok(0),
        }
    }

    pub fn get_stats(&self) -> (r: crate::GCStats)
        requires
            self.wf(),
        ensures
            r.collections == self.collector.collections,
            r.collected == self.collector.collected_total,
            r.uncollectable == self.collector.uncollectable@.len(),
            r.total_tracked == self.collector.tracked_objects@.len(),
            r.generation_counts[0] == self.collector.generation_manager.generations@[0].count,
            r.generation_counts[1] == self.collector.generation_manager.generations@[1].count,
            r.generation_counts[2] == self.collector.generation_manager.generations@[2].count,
    {
        self.collector.get_stats()
    }

    pub fn set_debug(&mut self, flags: u32)
        requires
            old(self).wf(),
        ensures
            final(self).wf(),
            final(self).collector.debug_flags == flags,
            final(self).enabled == old(self).enabled,
            final(self).collector.tracked_objects@ == old(self).collector.tracked_objects@,
            final(self).collector.uncollectable@ == old(self).collector.uncollectable@,
    {
        self.collector.set_debug_flags(flags);
    }

    pub fn get_debug(&self) -> (r: u32)
        ensures
            r == self.collector.debug_flags,
    {
        self.collector.get_debug_flags()
    }

    pub fn get_count(&self) -> (r: usize)
        ensures
            r == self.collector.tracked_objects@.len(),
    {
        self.collector.get_count()
    }

    /// The population of one generation, or nothing for a generation that
    /// does not exist.
    pub fn get_generation_count(&self, generation: usize) -> (r: Option<usize>)
        requires
            self.wf(),
        ensures
            generation >= 3 ==> r is None,
            generation < 3 ==> r == Some(
                self.collector.generation_manager.generations@[generation as int].count,
            ),
    {
        if generation >= 3 {
            return None;
        }
        Some(self.collector.generation_manager.generations[generation].count)
    }

    /// Sets the collection threshold of one generation; a generation that
    /// does not exist is rejected unchanged.
    pub fn set_threshold(&mut self, generation: usize, threshold: usize) -> (r: GCResult<()>)
        requires
            old(self).wf(),
        ensures
            final(self).wf(),
            generation >= 3 ==> r == Err::<(), GCError>(GCError::InvalidGeneration(generation))
                && *final(self) == *old(self),
            generation < 3 ==> r == Ok::<(), GCError>(()) && final(self).collector.generation_manager.generations@[generation as int].threshold == threshold
                && (forall|j: int|
                0 <= j < 3 && j != generation ==> (#[trigger] final(self).collector.generation_manager.generations@[j]).threshold == old(self).collector.generation_manager.generations@[j].threshold) && final(self).collector.tracked_objects@ == old(self).collector.tracked_objects@ && final(self).collector.generation_manager.all_ids() == old(self).collector.generation_manager.all_ids() && (forall|j: int|
                0 <= j < 3 ==> (#[trigger] final(self).collector.generation_manager.generations@[j]).count == old(self).collector.generation_manager.generations@[j].count) && (forall|j: int|
                0 <= j < 3 ==> (#[trigger] final(self).collector.generation_manager.generations@[j]).collections_since == old(self).collector.generation_manager.generations@[j].collections_since),
            final(self).enabled == old(self).enabled,
    {
        if generation >= 3 {
            return Err(GCError::InvalidGeneration(generation));
        }
        let gen = &mut self.collector.generation_manager.generations[generation];
        gen.threshold = threshold;
        proof {
            assert(final(self).collector.generation_manager.all_ids() =~= old(self).collector.generation_manager.all_ids());
        }
        Ok(())
    }

    /// The collection threshold of one generation, or nothing for a
    /// generation that does not exist.
    pub fn get_threshold(&self, generation: usize) -> (r: Option<usize>)
        requires
            self.wf(),
        ensures
            generation >= 3 ==> r is None,
            generation < 3 ==> r == Some(
                self.collector.generation_manager.generations@[generation as int].threshold,
            ),
    {
        if generation >= 3 {
            return None;
        }
        Some(self.collector.generation_manager.generations[generation].threshold)
    }

    /// A view of the quarantined uncollectable objects.
    pub fn get_uncollectable(&self) -> (r: &Vec<PyObject>)
        ensures
            r@ == self.collector.uncollectable@,
    {
        self.collector.get_uncollectable()
    }

    /// A view of the quarantined objects, under the boundary surface's
    /// other name for them.
    pub fn get_garbage(&self) -> (r: &Vec<PyObject>)
        ensures
            r@ == self.collector.uncollectable@,
    {
        self.collector.get_uncollectable()
    }

    /// Replaces the quarantine with a list of objects the host parks for
    /// inspection; an empty list clears it. Entries parked this way are
    /// held at the host's own request rather than for a finalizer.
    pub fn set_garbage(&mut self, objects: Vec<PyObject>)
        requires
            old(self).wf(),
        ensures
            final(self).wf(),
            final(self).collector.uncollectable@ == objects@,
            final(self).collector.tracked_objects@ == old(self).collector.tracked_objects@,
            final(self).collector.references@ == old(self).collector.references@,
            final(self).collector.generation_manager == old(self).collector.generation_manager,
            final(self).collector.debug_flags == old(self).collector.debug_flags,
            final(self).enabled == old(self).enabled,
    {
        let ghost n = objects@.len();
        self.collector.uncollectable = objects;
        self.collector.saved_by_debug = Ghost(Seq::new(n, |i: int| true));
        self.collector.finalizer_linked = Ghost(Seq::new(n, |i: int| false));
    }

    /// Empties the quarantine.
    pub fn clear_uncollectable(&mut self)
        requires
            old(self).wf(),
        ensures
            final(self).wf(),
            final(self).collector.uncollectable@ == Seq::<PyObject>::empty(),
            final(self).collector.tracked_objects@ == old(self).collector.tracked_objects@,
            final(self).collector.references@ == old(self).collector.references@,
            final(self).collector.generation_manager == old(self).collector.generation_manager,
            final(self).enabled == old(self).enabled,
    {
        self.collector.clear_uncollectable();
    }

    /// Records a reference between two tracked objects in the graph the
    /// collection passes walk; both ends must be tracked.
    pub fn add_reference(&mut self, from: ObjectId, to: ObjectId) -> (r: GCResult<()>)
        requires
            old(self).wf(),
        ensures
            final(self).wf(),
            old(self).collector.tracked_ids().contains(from) && old(self).collector.tracked_ids().contains(to) ==> r == Ok::<(), GCError>(()) && final(self).collector.references@ == old(self).collector.references@.push(
                Reference { from, to, reference_type: ReferenceType::Direct },
            ) && final(self).collector.tracked_objects@ == old(self).collector.tracked_objects@,
            !(old(self).collector.tracked_ids().contains(from) && old(self).collector.tracked_ids().contains(to)) ==> (r matches Err(e) && e is Internal)
                && *final(self) == *old(self),
            final(self).enabled == old(self).enabled,
    {
        let from_there = self.is_tracked(&from);
        let to_there = self.is_tracked(&to);
        if !from_there || !to_there {
            return Err(GCError::Internal(String::new()));
        }
        self.collector.references.push(
            Reference { from, to, reference_type: ReferenceType::Direct },
        );
        Ok(())
    }

    /// Records a weak reference between two tracked objects; never
    /// followed by reachability and never counted against a shadow count.
    pub fn add_weak_reference(&mut self, from: ObjectId, to: ObjectId) -> (r: GCResult<()>)
        requires
            old(self).wf(),
        ensures
            final(self).wf(),
            old(self).collector.tracked_ids().contains(from) && old(self).collector.tracked_ids().contains(to) ==> r == Ok::<(), GCError>(()) && final(self).collector.references@ == old(self).collector.references@.push(
                Reference { from, to, reference_type: ReferenceType::Weak },
            ) && final(self).collector.tracked_objects@ == old(self).collector.tracked_objects@,
            !(old(self).collector.tracked_ids().contains(from) && old(self).collector.tracked_ids().contains(to)) ==> (r matches Err(e) && e is Internal)
                && *final(self) == *old(self),
            final(self).enabled == old(self).enabled,
    {
        let from_there = self.is_tracked(&from);
        let to_there = self.is_tracked(&to);
        if !from_there || !to_there {
            return Err(GCError::Internal(String::new()));
        }
        self.collector.references.push(
            Reference { from, to, reference_type: ReferenceType::Weak },
        );
        Ok(())
    }

    /// Removes every recorded reference from one object to another.
    pub fn remove_reference(&mut self, from: ObjectId, to: ObjectId) -> (r: GCResult<()>)
        requires
            old(self).wf(),
        ensures
            final(self).wf(),
            r == Ok::<(), GCError>(()),
            final(self).collector.references@ == old(self).collector.references@.filter(
                keeps_other_edges(from, to),
            ),
            final(self).collector.tracked_objects@ == old(self).collector.tracked_objects@,
            final(self).enabled == old(self).enabled,
    {
        let ghost orig = self.collector.references@;
        let ghost pred = keeps_other_edges(from, to);
        let mut kept: Vec<Reference> = Vec::new();
        let mut k: usize = 0;
        proof {
            reveal(Seq::filter);
            assert(orig.take(0) =~= Seq::<Reference>::empty());
        }
        while k < self.collector.references.len()
            invariant
                orig == self.collector.references@,
                pred == keeps_other_edges(from, to),
                k <= orig.len(),
                kept@ == orig.take(k as int).filter(pred),
            decreases orig.len() - k,
        {
            let r = self.collector.references[k];
            proof {
                reveal(Seq::filter);
                let t = orig.take(k + 1);
                assert(t.drop_last() =~= orig.take(k as int));
                assert(t.last() == orig[k as int]);
            }
            if !(r.from == from && r.to == to) {
                kept.push(r);
            }
            k = k + 1;
        }
        proof {
            assert(orig.take(orig.len() as int) =~= orig);
        }
        self.collector.references = kept;
        Ok(())
    }

    /// The ids of the objects holding a recorded reference to `id`.
    pub fn get_referrers(&self, id: ObjectId) -> (r: Vec<ObjectId>)
        ensures
            r@ == referrers_of(self.collector.references@, id),
    {
        let graph_view = crate::traversal::ObjectGraph {
            objects: Vec::new(),
            references: clone_references(&self.collector.references),
        };
        graph_view.get_referrers(id)
    }

    /// The ids of the objects `id` holds a recorded reference to.
    pub fn get_referents(&self, id: ObjectId) -> (r: Vec<ObjectId>)
        ensures
            r@ == referents_of(self.collector.references@, id),
    {
        let graph_view = crate::traversal::ObjectGraph {
            objects: Vec::new(),
            references: clone_references(&self.collector.references),
        };
        graph_view.get_references(id)
    }

    /// Whether the tracked object with this identity carries a finalizer;
    /// an untracked identity simply has none.
    pub fn has_finalizer(&self, obj_id: &ObjectId) -> (r: bool)
        requires
            self.wf(),
        ensures
            r == (exists|i: int|
                0 <= i < self.collector.tracked_objects@.len() && (
                #[trigger] self.collector.tracked_objects@[i]).id == *obj_id
                    && self.collector.tracked_objects@[i].has_finalizer),
    {
        match crate::traversal::find_object(&self.collector.tracked_objects, *obj_id) {
            Some(i) => {
                let r = self.collector.tracked_objects[i].has_finalizer;
                proof {
                    if !r && exists|j: int|
                        0 <= j < self.collector.tracked_objects@.len() && (
                        #[trigger] self.collector.tracked_objects@[j]).id == *obj_id
                            && self.collector.tracked_objects@[j].has_finalizer {
                        let j = choose|j: int|
                            0 <= j < self.collector.tracked_objects@.len() && (
                            #[trigger] self.collector.tracked_objects@[j]).id == *obj_id
                                && self.collector.tracked_objects@[j].has_finalizer;
                        assert(self.collector.tracked_ids()[j] == *obj_id);
                        assert(self.collector.tracked_ids()[i as int] == *obj_id);
                    }
                }
                r
            },
            None => false,
        }
    }

    /// Marks or unmarks the finalizer of a tracked object; an untracked
    /// identity is rejected.
    pub fn set_finalizer(&mut self, obj_id: &ObjectId, has_finalizer: bool) -> (r: GCResult<()>)
        requires
            old(self).wf(),
        ensures
            final(self).wf(),
            !old(self).collector.tracked_ids().contains(*obj_id) ==> r == Err::<(), GCError>(
                GCError::NotTracked,
            ) && *final(self) == *old(self),
            old(self).collector.tracked_ids().contains(*obj_id) ==> r == Ok::<(), GCError>(())
                && (exists|i: int|
                0 <= i < old(self).collector.tracked_objects@.len() && (#[trigger] old(self).collector.tracked_objects@[i]).id == *obj_id && final(self).collector.tracked_objects@ == old(self).collector.tracked_objects@.update(
                    i,
                    (PyObject { has_finalizer, ..old(self).collector.tracked_objects@[i] }),
                )) && final(self).collector.uncollectable@ == old(self).collector.uncollectable@,
            final(self).enabled == old(self).enabled,
    {
        match crate::traversal::find_object(&self.collector.tracked_objects, *obj_id) {
            Some(i) => {
                proof {
                    assert(self.collector.tracked_ids()[i as int] == *obj_id);
                }
                self.collector.tracked_objects[i].has_finalizer = has_finalizer;
                proof {
                    assert(self.collector.tracked_ids() =~= old(self).collector.tracked_ids());
                    assert forall|x: ObjectId|
                        #[trigger] self.collector.generation_manager.all_ids().contains(x)
                            <==> self.collector.tracked_ids().contains(x) by {}
                }
                Ok(())
            },
            None => {
                proof {
                    if self.collector.tracked_ids().contains(*obj_id) {
                        let j = choose|j: int|
                            0 <= j < self.collector.tracked_ids().len()
                                && self.collector.tracked_ids()[j] == *obj_id;
                        assert(self.collector.tracked_objects@[j].id == *obj_id);
                    }
                }
                Err(GCError::NotTracked)
            },
        }
    }

    /// The host reports that an object's reference count changed; the
    /// stored count follows. An untracked identity is rejected.
    pub fn refcount_changed(&mut self, obj_id: &ObjectId, new_count: usize) -> (r: GCResult<()>)
        requires
            old(self).wf(),
            new_count <= isize::MAX,
        ensures
            final(self).wf(),
            !old(self).collector.tracked_ids().contains(*obj_id) ==> r == Err::<(), GCError>(
                GCError::NotTracked,
            ) && *final(self) == *old(self),
            old(self).collector.tracked_ids().contains(*obj_id) ==> r == Ok::<(), GCError>(())
                && (exists|i: int|
                0 <= i < old(self).collector.tracked_objects@.len() && (#[trigger] old(self).collector.tracked_objects@[i]).id == *obj_id && final(self).collector.tracked_objects@ == old(self).collector.tracked_objects@.update(
                    i,
                    (PyObject {
                        refcount: new_count,
                        ..old(self).collector.tracked_objects@[i]
                    }),
                )),
            final(self).enabled == old(self).enabled,
    {
        match crate::traversal::find_object(&self.collector.tracked_objects, *obj_id) {
            Some(i) => {
                proof {
                    assert(self.collector.tracked_ids()[i as int] == *obj_id);
                }
                self.collector.tracked_objects[i].refcount = new_count;
                proof {
                    assert(self.collector.tracked_ids() =~= old(self).collector.tracked_ids());
                    assert forall|x: ObjectId|
                        #[trigger] self.collector.generation_manager.all_ids().contains(x)
                            <==> self.collector.tracked_ids().contains(x) by {}
                }
                Ok(())
            },
            None => {
                proof {
                    if self.collector.tracked_ids().contains(*obj_id) {
                        let j = choose|j: int|
                            0 <= j < self.collector.tracked_ids().len()
                                && self.collector.tracked_ids()[j] == *obj_id;
                        assert(self.collector.tracked_objects@[j].id == *obj_id);
                    }
                }
                Err(GCError::NotTracked)
            },
        }
    }
}

/// Tracking a fresh object and then untracking it leaves the tracked
/// count where it began: tracking grows the table by one and makes the id
/// a member, so the untracking that follows finds it and shrinks the table
/// by one. (While the collector is disabled both calls leave the state
/// untouched, so the count is trivially unchanged there too.)
pub proof fn lemma_track_untrack_count(
    gc0: GarbageCollector,
    gc1: GarbageCollector,
    gc2: GarbageCollector,
    obj: PyObject,
)
    requires
        gc0.enabled,
        !gc0.collector.tracked_ids().contains(obj.id),
        !obj.gc_tracked,
        gc1.collector.tracked_objects@.len() == gc0.collector.tracked_objects@.len() + 1,
        forall|x: ObjectId|
            gc1.collector.tracked_ids().contains(x) <==> gc0.collector.tracked_ids().contains(x)
                || x == obj.id,
        gc2.collector.tracked_objects@.len() == gc1.collector.tracked_objects@.len() - 1,
    ensures
        gc2.collector.tracked_objects@.len() == gc0.collector.tracked_objects@.len(),
        gc1.collector.tracked_ids().contains(obj.id),
{
    assert(gc1.collector.tracked_ids().contains(obj.id));
}

/// Setting a generation's threshold and reading it back yields exactly
/// what was set: the setter pins the stored threshold and the getter
/// reports the stored threshold.
pub proof fn lemma_threshold_round_trip(gc1: GarbageCollector, g: int, t: usize)
    requires
        0 <= g < 3,
        gc1.collector.generation_manager.generations@[g].threshold == t,
    ensures
        Some(gc1.collector.generation_manager.generations@[g].threshold) == Some(t),
{
}

/// A plain copy of a reference list.
fn clone_references(refs: &Vec<Reference>) -> (r: Vec<Reference>)
    ensures
        r@ == refs@,
{
    let mut r: Vec<Reference> = Vec::new();
    let mut i: usize = 0;
    proof {
        assert(r@ =~= refs@.take(0));
    }
    while i < refs.len()
        invariant
            i <= refs@.len(),
            r@ == refs@.take(i as int),
        decreases refs@.len() - i,
    {
        r.push(refs[i]);
        proof {
            assert(r@ =~= refs@.take(i + 1));
        }
        i = i + 1;
    }
    proof {
        assert(refs@.take(refs@.len() as int) =~= refs@);
    }
    r
}

} // verus!
