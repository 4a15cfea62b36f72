//! Age cohorts of tracked objects and the manager that owns all of them.

use vstd::prelude::*;

use crate::error::{GCError, GCResult};
use crate::object::{contains_id, find_id, ObjectId};

verus! {

/// One age cohort. It records which objects belong to it (by id, in
/// insertion order), how many that is, the collection threshold, and for the
/// older cohorts a secondary counter of how many times the next younger
/// cohort has been collected since this one last was.
#[derive(Debug)]
pub struct Generation {
    /// The collection threshold. For the youngest cohort it bounds the
    /// population; for the older cohorts it bounds the secondary counter.
    pub threshold: usize,
    /// The current population; always equal to the member list's length.
    pub count: usize,
    /// The ids of the member objects, in insertion order.
    pub members: Vec<ObjectId>,
    /// How many collections of the next younger cohort have completed since
    /// this cohort was last collected. Meaningless for the youngest cohort.
    pub collections_since: usize,
}

impl Generation {
    /// The stored population always mirrors the member list.
    pub open spec fn wf(self) -> bool {
        self.count == self.members@.len()
    }

    pub fn new(threshold: usize) -> (r: Generation)
        ensures
            r.wf(),
            r.threshold == threshold,
            r.count == 0,
            r.members@ == Seq::<ObjectId>::empty(),
            r.collections_since == 0,
    {
        Generation { threshold, count: 0, members: Vec::new(), collections_since: 0 }
    }

    /// Whether the population has crossed the threshold.
    pub fn should_collect(&self) -> (r: bool)
        ensures
            r == (self.count >= self.threshold),
    {
        self.count >= self.threshold
    }

    /// Appends an object at the end of this cohort's list; rejected when the
    /// object is already a member.
    pub fn add_object(&mut self, id: ObjectId) -> (r: GCResult<()>)
        requires
            old(self).wf(),
        ensures
            final(self).wf(),
            final(self).threshold == old(self).threshold,
            final(self).collections_since == old(self).collections_since,
            old(self).members@.contains(id) ==> r == Err::<(), GCError>(GCError::AlreadyTracked)
                && *final(self) == *old(self),
            !old(self).members@.contains(id) ==> r == Ok::<(), GCError>(())
                && final(self).members@ == old(self).members@.push(id)
                && final(self).count == old(self).count + 1,
    {
        if contains_id(&self.members, id) {
            return Err(GCError::AlreadyTracked);
        }
        self.members.push(id);
        self.count = self.members.len();
        Ok(())
    }

    /// Unlinks an object from this cohort's list; rejected when the object
    /// is not a member.
    pub fn remove_object(&mut self, id: ObjectId) -> (r: GCResult<()>)
        requires
            old(self).wf(),
        ensures
            final(self).wf(),
            final(self).threshold == old(self).threshold,
            final(self).collections_since == old(self).collections_since,
            !old(self).members@.contains(id) ==> r == Err::<(), GCError>(GCError::NotTracked)
                && *final(self) == *old(self),
            old(self).members@.contains(id) ==> r == Ok::<(), GCError>(()) && (exists|i: int|
                0 <= i < old(self).members@.len() && old(self).members@[i] == id
                    && final(self).members@ == old(self).members@.remove(i))
                && final(self).count == old(self).count - 1,
    {
        match find_id(&self.members, id) {
            Some(i) => {
                self.members.remove(i);
                self.count = self.count - 1;
                assert(old(self).members@.contains(id));
                Ok(())
            },
            None => Err(GCError::NotTracked),
        }
    }

    pub fn is_empty(&self) -> (r: bool)
        ensures
            r == (self.count == 0),
    {
        self.count == 0
    }

    /// Empties the cohort, handing back its members in insertion order.
    pub fn clear(&mut self) -> (r: Vec<ObjectId>)
        requires
            old(self).wf(),
        ensures
            final(self).wf(),
            final(self).threshold == old(self).threshold,
            final(self).collections_since == old(self).collections_since,
            r@ == old(self).members@,
            final(self).members@ == Seq::<ObjectId>::empty(),
            final(self).count == 0,
    {
        let mut out: Vec<ObjectId> = Vec::new();
        std::mem::swap(&mut out, &mut self.members);
        self.count = 0;
        out
    }
}

/// The ordered collection of the three age cohorts, the permanent cohort of
/// frozen objects, and the record of which generation a running pass is
/// collecting.
#[derive(Debug)]
pub struct GenerationManager {
    /// The three cohorts; index 0 is the youngest, index 2 the oldest.
    pub generations: Vec<Generation>,
    /// Objects the host has frozen; never collected.
    pub permanent_generation: Generation,
    /// The generation an active pass is collecting, if one is running.
    pub collecting_generation: Option<usize>,
}

impl GenerationManager {
    /// Every id every cohort holds, in cohort order.
    pub open spec fn all_ids(self) -> Seq<ObjectId> {
        self.generations@[0].members@ + self.generations@[1].members@
            + self.generations@[2].members@ + self.permanent_generation.members@
    }

    /// There are exactly three age cohorts, each is well formed, and no id
    /// appears in more than one place across all of them.
    pub open spec fn wf(self) -> bool {
        &&& self.generations@.len() == 3
        &&& (forall|g: int| 0 <= g < 3 ==> (#[trigger] self.generations@[g]).wf())
        &&& self.permanent_generation.wf()
        &&& self.all_ids().no_duplicates()
    }

    pub fn new() -> (r: GenerationManager)
        ensures
            r.wf(),
            r.generations@[0].threshold == 700,
            r.generations@[1].threshold == 10,
            r.generations@[2].threshold == 10,
            r.all_ids() == Seq::<ObjectId>::empty(),
            forall|g: int| 0 <= g < 3 ==> (#[trigger] r.generations@[g]).count == 0,
            forall|g: int|
                0 <= g < 3 ==> (#[trigger] r.generations@[g]).collections_since == 0,
            r.collecting_generation is None,
    {
        let mut generations: Vec<Generation> = Vec::new();
        generations.push(Generation::new(700));
        generations.push(Generation::new(10));
        generations.push(Generation::new(10));
        let r = GenerationManager {
            generations,
            permanent_generation: Generation::new(0),
            collecting_generation: None,
        };
        proof {
            assert(r.all_ids() =~= Seq::<ObjectId>::empty());
        }
        r
    }

    /// Whether any cohort anywhere holds `id`.
    pub fn contains(&self, id: ObjectId) -> (r: bool)
        requires
            self.wf(),
        ensures
            r == self.all_ids().contains(id),
    {
        let r = contains_id(&self.generations[0].members, id) || contains_id(
            &self.generations[1].members,
            id,
        ) || contains_id(&self.generations[2].members, id) || contains_id(
            &self.permanent_generation.members,
            id,
        );
        proof {
            if r {
                assert(self.all_ids().contains(id)) by {
                    let g0 = self.generations@[0].members@;
                    let g1 = self.generations@[1].members@;
                    let g2 = self.generations@[2].members@;
                    let p = self.permanent_generation.members@;
                    if g0.contains(id) {
                        let i = choose|i: int| 0 <= i < g0.len() && g0[i] == id;
                        assert(self.all_ids()[i] == id);
                    } else if g1.contains(id) {
                        let i = choose|i: int| 0 <= i < g1.len() && g1[i] == id;
                        assert(self.all_ids()[g0.len() + i] == id);
                    } else if g2.contains(id) {
                        let i = choose|i: int| 0 <= i < g2.len() && g2[i] == id;
                        assert(self.all_ids()[g0.len() + g1.len() + i] == id);
                    } else {
                        let i = choose|i: int| 0 <= i < p.len() && p[i] == id;
                        assert(self.all_ids()[g0.len() + g1.len() + g2.len() + i] == id);
                    }
                }
            } else {
                assert(!self.all_ids().contains(id)) by {
                    if self.all_ids().contains(id) {
                        let i = choose|i: int|
                            0 <= i < self.all_ids().len() && self.all_ids()[i] == id;
                        let g0 = self.generations@[0].members@;
                        let g1 = self.generations@[1].members@;
                        let g2 = self.generations@[2].members@;
                        if i < g0.len() {
                            assert(g0[i] == id);
                        } else if i < g0.len() + g1.len() {
                            assert(g1[i - g0.len()] == id);
                        } else if i < g0.len() + g1.len() + g2.len() {
                            assert(g2[i - g0.len() - g1.len()] == id);
                        } else {
                            assert(self.permanent_generation.members@[i - g0.len() - g1.len()
                                - g2.len()] == id);
                        }
                    }
                }
            }
        }
        r
    }

    /// The member list of cohort `g`, counting the permanent cohort as
    /// number three.
    pub open spec fn member_list(self, g: int) -> Seq<ObjectId> {
        if g == 3 {
            self.permanent_generation.members@
        } else {
            self.generations@[g].members@
        }
    }

    /// Pushes a freshly tracked object onto the youngest cohort's list.
    pub fn add_to_generation0(&mut self, id: ObjectId) -> (r: GCResult<()>)
        requires
            old(self).wf(),
            !old(self).all_ids().contains(id),
        ensures
            final(self).wf(),
            r == Ok::<(), GCError>(()),
            final(self).generations@[0].members@ == old(self).generations@[0].members@.push(id),
            final(self).generations@[0].count == old(self).generations@[0].count + 1,
            final(self).generations@[0].threshold == old(self).generations@[0].threshold,
            final(self).generations@[0].collections_since == old(self).generations@[0].collections_since,
            final(self).generations@[1] == old(self).generations@[1],
            final(self).generations@[2] == old(self).generations@[2],
            final(self).permanent_generation == old(self).permanent_generation,
            final(self).collecting_generation == old(self).collecting_generation,
            forall|x: ObjectId|
                final(self).all_ids().contains(x) <==> old(self).all_ids().contains(x) || x == id,
    {
        let g0 = &mut self.generations[0];
        g0.members.push(id);
        g0.count = g0.members.len();
        proof {
            let oldids = old(self).all_ids();
            let newids = self.all_ids();
            let n0 = old(self).generations@[0].members@.len() as int;
            assert(newids =~= oldids.insert(n0, id));
            assert(newids.no_duplicates()) by {
                assert forall|a: int, b: int|
                    0 <= a < newids.len() && 0 <= b < newids.len() && a != b implies newids[a]
                    != newids[b] by {
                    let a0 = if a < n0 {
                        a
                    } else {
                        a - 1
                    };
                    let b0 = if b < n0 {
                        b
                    } else {
                        b - 1
                    };
                    if a == n0 {
                        assert(newids[a] == id);
                        if b != n0 {
                            assert(newids[b] == oldids[b0]);
                            assert(oldids.contains(oldids[b0]));
                        }
                    } else if b == n0 {
                        assert(newids[b] == id);
                        assert(newids[a] == oldids[a0]);
                        assert(oldids.contains(oldids[a0]));
                    } else {
                        assert(newids[a] == oldids[a0]);
                        assert(newids[b] == oldids[b0]);
                    }
                }
            }
            assert forall|x: ObjectId|
                newids.contains(x) <==> oldids.contains(x) || x == id by {
                if newids.contains(x) {
                    let i = choose|i: int| 0 <= i < newids.len() && newids[i] == x;
                    if i != n0 {
                        let i0 = if i < n0 {
                            i
                        } else {
                            i - 1
                        };
                        assert(oldids[i0] == x);
                    }
                }
                if oldids.contains(x) {
                    let i = choose|i: int| 0 <= i < oldids.len() && oldids[i] == x;
                    let i1 = if i < n0 {
                        i
                    } else {
                        i + 1
                    };
                    assert(newids[i1] == x);
                }
                if x == id {
                    assert(newids[n0] == x);
                }
            }
        }
        Ok(())
    }

    /// Unlinks `id` from whichever cohort holds it.
    pub fn remove_id(&mut self, id: ObjectId) -> (r: GCResult<()>)
        requires
            old(self).wf(),
        ensures
            final(self).wf(),
            !old(self).all_ids().contains(id) ==> r == Err::<(), GCError>(GCError::NotTracked)
                && *final(self) == *old(self),
            old(self).all_ids().contains(id) ==> r == Ok::<(), GCError>(()) && (forall|x: ObjectId|
                final(self).all_ids().contains(x) <==> old(self).all_ids().contains(x) && x != id),
            final(self).collecting_generation == old(self).collecting_generation,
            forall|g: int|
                0 <= g < 3 ==> (#[trigger] final(self).generations@[g]).threshold == old(self).generations@[g].threshold,
            forall|g: int|
                0 <= g < 3 ==> (#[trigger] final(self).generations@[g]).collections_since == old(self).generations@[g].collections_since,
    {
        let in0 = contains_id(&self.generations[0].members, id);
        let in1 = contains_id(&self.generations[1].members, id);
        let in2 = contains_id(&self.generations[2].members, id);
        let inp = contains_id(&self.permanent_generation.members, id);
        if !in0 && !in1 && !in2 && !inp {
            proof {
                assert(!self.all_ids().contains(id)) by {
                    if self.all_ids().contains(id) {
                        lemma_concat4_part(
                            self.generations@[0].members@,
                            self.generations@[1].members@,
                            self.generations@[2].members@,
                            self.permanent_generation.members@,
                            id,
                        );
                    }
                }
            }
            return Err(GCError::NotTracked);
        }
        proof {
            lemma_concat4_member(
                self.generations@[0].members@,
                self.generations@[1].members@,
                self.generations@[2].members@,
                self.permanent_generation.members@,
                id,
            );
        }
        let ghost olds = *old(self);
        let ghost gg: int = if in0 {
            0
        } else if in1 {
            1
        } else if in2 {
            2
        } else {
            3
        };
        if in0 {
            let res = self.generations[0].remove_object(id);
        } else if in1 {
            let res = self.generations[1].remove_object(id);
        } else if in2 {
            let res = self.generations[2].remove_object(id);
        } else {
            let res = self.permanent_generation.remove_object(id);
        }
        proof {
            let i = choose|i: int|
                0 <= i < olds.member_list(gg).len() && olds.member_list(gg)[i] == id
                    && #[trigger] olds.member_list(gg).remove(i) == self.member_list(gg);
            lemma_remove_one_from_concat4(olds, *self, id, gg, i);
        }
        Ok(())
    }

    /// Empties the member lists of every cohort up to and including `g`,
    /// handing back all their ids. Used at the start of a collection pass:
    /// collecting generation `g` implicitly collects everything younger.
    pub fn take_collection_set(&mut self, g: usize) -> (r: Vec<ObjectId>)
        requires
            old(self).wf(),
            g < 3,
        ensures
            final(self).wf(),
            r@.no_duplicates(),
            r@ == (if g == 0 {
                old(self).member_list(0)
            } else if g == 1 {
                old(self).member_list(0) + old(self).member_list(1)
            } else {
                old(self).member_list(0) + old(self).member_list(1) + old(self).member_list(2)
            }),
            old(self).all_ids() == r@ + final(self).all_ids(),
            forall|x: ObjectId|
                r@.contains(x) <==> (exists|j: int|
                    0 <= j <= g && (#[trigger] old(self).member_list(j)).contains(x)),
            forall|j: int|
                0 <= j <= g ==> (#[trigger] final(self).member_list(j)) == Seq::<
                    ObjectId,
                >::empty(),
            forall|j: int|
                g < j < 4 ==> (#[trigger] final(self).member_list(j)) == old(self).member_list(j),
            forall|j: int|
                0 <= j < 3 ==> (#[trigger] final(self).generations@[j]).threshold == old(self).generations@[j].threshold,
            forall|j: int|
                0 <= j < 3 ==> (#[trigger] final(self).generations@[j]).collections_since == old(self).generations@[j].collections_since,
            forall|j: int|
                0 <= j <= g ==> (#[trigger] final(self).generations@[j]).count == 0,
            final(self).permanent_generation == old(self).permanent_generation,
            final(self).collecting_generation == old(self).collecting_generation,
            forall|x: ObjectId|
                old(self).all_ids().contains(x) <==> r@.contains(x) || final(self).all_ids().contains(x),
            forall|x: ObjectId| !(r@.contains(x) && final(self).all_ids().contains(x)),
    {
        let mut r = self.generations[0].clear();
        if g >= 1 {
            let mut r1 = self.generations[1].clear();
            r.append(&mut r1);
        }
        if g >= 2 {
            let mut r2 = self.generations[2].clear();
            r.append(&mut r2);
        }
        proof {
            let olds = *old(self);
            let news = *self;
            assert(news.all_ids().no_duplicates() && r@.no_duplicates()) by {
                lemma_take_set_shape(olds, news, r@, g as int);
            }
            lemma_take_set_shape(olds, news, r@, g as int);
        }
        r
    }

    /// Appends newly promoted survivors at the end of cohort `g`'s list.
    pub fn insert_survivors(&mut self, g: usize, ids: &Vec<ObjectId>)
        requires
            old(self).wf(),
            g < 3,
            ids@.no_duplicates(),
            forall|x: ObjectId| ids@.contains(x) ==> !old(self).all_ids().contains(x),
        ensures
            final(self).wf(),
            final(self).member_list(g as int) == old(self).member_list(g as int) + ids@,
            forall|j: int|
                0 <= j < 4 && j != g ==> (#[trigger] final(self).member_list(j)) == old(self).member_list(j),
            forall|j: int|
                0 <= j < 3 ==> (#[trigger] final(self).generations@[j]).threshold == old(self).generations@[j].threshold,
            forall|j: int|
                0 <= j < 3 ==> (#[trigger] final(self).generations@[j]).collections_since == old(self).generations@[j].collections_since,
            final(self).generations@[g as int].count == old(self).generations@[g as int].count
                + ids@.len(),
            forall|j: int|
                0 <= j < 3 && j != g ==> (#[trigger] final(self).generations@[j]).count == old(self).generations@[j].count,
            final(self).collecting_generation == old(self).collecting_generation,
            forall|x: ObjectId|
                final(self).all_ids().contains(x) <==> old(self).all_ids().contains(x)
                    || ids@.contains(x),
    {
        let gen = &mut self.generations[g];
        let mut i: usize = 0;
        let ghost olds = *old(self);
        while i < ids.len()
            invariant
                i <= ids@.len(),
                g < 3,
                self.generations@.len() == 3,
                self.generations@[g as int].members@ == olds.generations@[g as int].members@
                    + ids@.take(i as int),
                self.generations@[g as int].count == olds.generations@[g as int].members@.len()
                    + i,
                self.generations@[g as int].threshold == olds.generations@[g as int].threshold,
                self.generations@[g as int].collections_since == olds.generations@[
                    g as int
                ].collections_since,
                forall|j: int|
                    0 <= j < 3 && j != g ==> (#[trigger] self.generations@[j])
                        == olds.generations@[j],
                self.permanent_generation == olds.permanent_generation,
                self.collecting_generation == olds.collecting_generation,
                olds.wf(),
                ids@.no_duplicates(),
                forall|x: ObjectId| ids@.contains(x) ==> !olds.all_ids().contains(x),
            decreases ids@.len() - i,
        {
            let gen = &mut self.generations[g];
            gen.members.push(ids[i]);
            gen.count = gen.members.len();
            proof {
                assert(self.generations@[g as int].members@ =~= olds.generations@[
                    g as int
                ].members@ + ids@.take(i + 1));
            }
            i = i + 1;
        }
        proof {
            assert(ids@.take(ids@.len() as int) =~= ids@);
            lemma_insert_survivors_shape(olds, *self, ids@, g as int);
        }
    }

    /// Which generation a collection should run on, if any: the oldest
    /// cohort whose counter has crossed its threshold, where the youngest
    /// goes by population and the older two go by how many younger
    /// collections have completed since they were last collected.
    pub fn choose_generation_to_collect(&self) -> (r: Option<usize>)
        requires
            self.wf(),
        ensures
            r == (if self.generations@[2].collections_since >= self.generations@[2].threshold {
                Some(2usize)
            } else if self.generations@[1].collections_since >= self.generations@[1].threshold {
                Some(1usize)
            } else if self.generations@[0].count >= self.generations@[0].threshold {
                Some(0usize)
            } else {
                None::<usize>
            }),
    {
        if self.generations[2].collections_since >= self.generations[2].threshold {
            Some(2)
        } else if self.generations[1].collections_since >= self.generations[1].threshold {
            Some(1)
        } else if self.generations[0].count >= self.generations[0].threshold {
            Some(0)
        } else {
            None
        }
    }

    /// Records that a collection of generation `g` has completed: every
    /// cohort up to `g` counts as freshly collected, and the next older
    /// cohort has seen one more younger collection.
    pub fn note_collection(&mut self, g: usize)
        requires
            old(self).wf(),
            g < 3,
        ensures
            final(self).wf(),
            forall|j: int|
                0 <= j < 4 ==> (#[trigger] final(self).member_list(j)) == old(self).member_list(
                    j,
                ),
            forall|j: int|
                0 <= j < 3 ==> (#[trigger] final(self).generations@[j]).threshold == old(self).generations@[j].threshold,
            forall|j: int|
                0 <= j < 3 ==> (#[trigger] final(self).generations@[j]).count == old(self).generations@[j].count,
            forall|j: int|
                1 <= j <= g ==> (#[trigger] final(self).generations@[j]).collections_since == 0,
            final(self).generations@[0].collections_since == old(self).generations@[0].collections_since,
            g < 2 ==> final(self).generations@[g + 1].collections_since == (if old(self).generations@[g + 1].collections_since < usize::MAX {
                old(self).generations@[g + 1].collections_since + 1
            } else {
                old(self).generations@[g + 1].collections_since as int
            }),
            forall|j: int|
                g + 1 < j < 3 ==> (#[trigger] final(self).generations@[j]).collections_since
                    == old(self).generations@[j].collections_since,
            final(self).permanent_generation == old(self).permanent_generation,
            final(self).collecting_generation == old(self).collecting_generation,
            final(self).all_ids() == old(self).all_ids(),
    {
        let mut j: usize = 1;
        while j <= g
            invariant
                1 <= j <= 3,
                j <= g + 1,
                g < 3,
                self.generations@.len() == 3,
                forall|i: int|
                    0 <= i < 3 ==> (#[trigger] self.generations@[i]).members@ == old(self).generations@[i].members@,
                forall|i: int|
                    0 <= i < 3 ==> (#[trigger] self.generations@[i]).threshold == old(self).generations@[i].threshold,
                forall|i: int|
                    0 <= i < 3 ==> (#[trigger] self.generations@[i]).count == old(self).generations@[i].count,
                forall|i: int|
                    1 <= i < j ==> (#[trigger] self.generations@[i]).collections_since == 0,
                forall|i: int|
                    (i == 0 || j <= i < 3) ==> (#[trigger] self.generations@[i]).collections_since
                        == old(self).generations@[i].collections_since,
                self.permanent_generation == old(self).permanent_generation,
                self.collecting_generation == old(self).collecting_generation,
            decreases g + 1 - j,
        {
            self.generations[j].collections_since = 0;
            j = j + 1;
        }
        if g < 2 {
            let nxt = g + 1;
            let cur = self.generations[nxt].collections_since;
            proof {
                assert(cur == old(self).generations@[g + 1].collections_since);
            }
            if cur < usize::MAX {
                self.generations[nxt].collections_since = cur + 1;
            }
            proof {
                assert(self.generations@[g + 1].collections_since == (if old(self).generations@[g + 1].collections_since < usize::MAX {
                    old(self).generations@[g + 1].collections_since + 1
                } else {
                    old(self).generations@[g + 1].collections_since as int
                }));
            }
        }
        proof {
            assert(final(self).all_ids() =~= old(self).all_ids());
        }
    }

    /// Wraps up a pass over generation `g`: the survivors join the next
    /// older cohort (the oldest keeps its own survivors), the collection
    /// counters advance, and the pass is marked over.
    pub fn finish_collection(&mut self, g: usize, surv_ids: &Vec<ObjectId>)
        requires
            old(self).wf(),
            g < 3,
            surv_ids@.no_duplicates(),
            forall|x: ObjectId| surv_ids@.contains(x) ==> !old(self).all_ids().contains(x),
        ensures
            final(self).wf(),
            final(self).collecting_generation is None,
            forall|j: int|
                0 <= j < 3 ==> (#[trigger] final(self).generations@[j]).threshold == old(self).generations@[j].threshold,
            final(self).member_list((if g < 2 {
                g + 1
            } else {
                2int
            })) == old(self).member_list((if g < 2 {
                g + 1
            } else {
                2int
            })) + surv_ids@,
            forall|j: int|
                0 <= j < 4 && j != (if g < 2 {
                    g + 1
                } else {
                    2int
                }) ==> (#[trigger] final(self).member_list(j)) == old(self).member_list(j),
            forall|j: int|
                1 <= j <= g ==> (#[trigger] final(self).generations@[j]).collections_since == 0,
            final(self).generations@[0].collections_since == old(self).generations@[0].collections_since,
            g < 2 ==> final(self).generations@[g + 1].collections_since == (if old(self).generations@[g + 1].collections_since < usize::MAX {
                old(self).generations@[g + 1].collections_since + 1
            } else {
                old(self).generations@[g + 1].collections_since as int
            }),
            forall|j: int|
                g + 1 < j < 3 ==> (#[trigger] final(self).generations@[j]).collections_since
                    == old(self).generations@[j].collections_since,
            forall|x: ObjectId|
                final(self).all_ids().contains(x) <==> old(self).all_ids().contains(x)
                    || surv_ids@.contains(x),
    {
        let tgt: usize = if g < 2 {
            g + 1
        } else {
            2
        };
        let ghost m0 = *old(self);
        self.insert_survivors(tgt, surv_ids);
        let ghost m1 = *self;
        self.note_collection(g);
        let ghost m2 = *self;
        self.end_collection();
        proof {
            let tgti: int = tgt as int;
            assert(self.generations == m2.generations);
            assert(self.permanent_generation == m2.permanent_generation);
            assert forall|j: int|
                0 <= j < 4 implies #[trigger] self.member_list(j) == m2.member_list(j) by {}
            assert forall|j: int|
                0 <= j < 4 implies #[trigger] m2.member_list(j) == m1.member_list(j) by {}
            assert(m1.member_list(tgti) == m0.member_list(tgti) + surv_ids@);
            assert forall|j: int|
                0 <= j < 4 && j != tgti implies #[trigger] m1.member_list(j) == m0.member_list(
                j,
            ) by {}
            assert(self.member_list(tgti) == m0.member_list(tgti) + surv_ids@);
            assert forall|j: int|
                0 <= j < 4 && j != tgti implies #[trigger] self.member_list(j)
                == m0.member_list(j) by {
                assert(m2.member_list(j) == m1.member_list(j));
                assert(m1.member_list(j) == m0.member_list(j));
            }
            assert(self.all_ids() == m2.all_ids());
            assert(m2.all_ids() == m1.all_ids());
            assert forall|x: ObjectId|
                self.all_ids().contains(x) <==> m0.all_ids().contains(x) || surv_ids@.contains(
                x,
            ) by {
                lemma_insert_survivors_shape(m0, m1, surv_ids@, tgti);
                assert(m1.all_ids().contains(x) <==> m0.all_ids().contains(x)
                    || surv_ids@.contains(x));
                assert(self.all_ids() == m1.all_ids());
                assert(self.all_ids().contains(x) == m1.all_ids().contains(x));
            }
        }
    }

    pub fn start_collection(&mut self, generation_idx: usize) -> (r: GCResult<()>)
        ensures
            old(self).collecting_generation is Some ==> r == Err::<(), GCError>(
                GCError::CollectionInProgress,
            ) && *final(self) == *old(self),
            old(self).collecting_generation is None && generation_idx >= 3 ==> (r is Err && (r
                matches Err(e) && e == GCError::InvalidGeneration(generation_idx)) && *final(self)
                == *old(self)),
            old(self).collecting_generation is None && generation_idx < 3 ==> r == Ok::<
                (),
                GCError,
            >(()) && *final(self) == (GenerationManager {
                collecting_generation: Some(generation_idx),
                ..*old(self)
            }),
    {
        if self.collecting_generation.is_some() {
            return Err(GCError::CollectionInProgress);
        }
        if generation_idx >= 3 {
            return Err(GCError::InvalidGeneration(generation_idx));
        }
        self.collecting_generation = Some(generation_idx);
        Ok(())
    }

    pub fn end_collection(&mut self)
        ensures
            *final(self) == (GenerationManager { collecting_generation: None, ..*old(self) }),
    {
        self.collecting_generation = None;
    }

    /// The total population of the three age cohorts.
    pub fn total_objects(&self) -> (r: usize)
        requires
            self.wf(),
            self.generations@[0].count + self.generations@[1].count + self.generations@[2].count
                <= usize::MAX,
        ensures
            r == self.generations@[0].count + self.generations@[1].count
                + self.generations@[2].count,
    {
        self.generations[0].count + self.generations[1].count + self.generations[2].count
    }
}

/// Every tracked object belongs to exactly one cohort's list: the id is
/// found in one of the four member lists and in no other.
pub proof fn lemma_tracked_in_exactly_one_cohort(m: GenerationManager, id: ObjectId)
    requires
        m.wf(),
        m.all_ids().contains(id),
    ensures
        exists|g: int|
            0 <= g < 4 && (#[trigger] m.member_list(g)).contains(id) && (forall|h: int|
                0 <= h < 4 && h != g ==> !(#[trigger] m.member_list(h)).contains(id)),
{
    let a = m.member_list(0);
    let b = m.member_list(1);
    let c = m.member_list(2);
    let d = m.member_list(3);
    lemma_concat4_part(a, b, c, d, id);
    let g0: int = if a.contains(id) {
        0
    } else if b.contains(id) {
        1
    } else if c.contains(id) {
        2
    } else {
        3
    };
    assert(m.member_list(g0).contains(id));
    assert forall|h: int|
        0 <= h < 4 && h != g0 implies !(#[trigger] m.member_list(h)).contains(id) by {
        if m.member_list(h).contains(id) {
            let off_of = |g: int|
                if g == 0 {
                    0int
                } else if g == 1 {
                    a.len() as int
                } else if g == 2 {
                    (a.len() + b.len()) as int
                } else {
                    (a.len() + b.len() + c.len()) as int
                };
            let i = choose|i: int|
                0 <= i < m.member_list(g0).len() && m.member_list(g0)[i] == id;
            let j = choose|j: int|
                0 <= j < m.member_list(h).len() && m.member_list(h)[j] == id;
            assert(m.all_ids()[off_of(g0) + i] == id);
            assert(m.all_ids()[off_of(h) + j] == id);
            assert(off_of(g0) + i != off_of(h) + j) by {
                if g0 < h {
                    assert(off_of(g0) + i < off_of(h) + j);
                } else {
                    assert(off_of(h) + j < off_of(g0) + i);
                }
            }
        }
    }
}

/// The concatenation of four duplicate-free, pairwise disjoint lists is
/// duplicate-free, and membership distributes; these two helpers move
/// between the concatenation and its parts.
proof fn lemma_concat4_part(
    a: Seq<ObjectId>,
    b: Seq<ObjectId>,
    c: Seq<ObjectId>,
    d: Seq<ObjectId>,
    x: ObjectId,
)
    requires
        (a + b + c + d).contains(x),
    ensures
        a.contains(x) || b.contains(x) || c.contains(x) || d.contains(x),
{
    let all = a + b + c + d;
    let i = choose|i: int| 0 <= i < all.len() && all[i] == x;
    if i < a.len() {
        assert(a[i] == x);
    } else if i < a.len() + b.len() {
        assert(b[i - a.len()] == x);
    } else if i < a.len() + b.len() + c.len() {
        assert(c[i - a.len() - b.len()] == x);
    } else {
        assert(d[i - a.len() - b.len() - c.len()] == x);
    }
}

proof fn lemma_concat4_member(
    a: Seq<ObjectId>,
    b: Seq<ObjectId>,
    c: Seq<ObjectId>,
    d: Seq<ObjectId>,
    x: ObjectId,
)
    requires
        a.contains(x) || b.contains(x) || c.contains(x) || d.contains(x),
    ensures
        (a + b + c + d).contains(x),
{
    let all = a + b + c + d;
    if a.contains(x) {
        let i = choose|i: int| 0 <= i < a.len() && a[i] == x;
        assert(all[i] == x);
    } else if b.contains(x) {
        let i = choose|i: int| 0 <= i < b.len() && b[i] == x;
        assert(all[a.len() + i] == x);
    } else if c.contains(x) {
        let i = choose|i: int| 0 <= i < c.len() && c[i] == x;
        assert(all[a.len() + b.len() + i] == x);
    } else {
        let i = choose|i: int| 0 <= i < d.len() && d[i] == x;
        assert(all[a.len() + b.len() + c.len() + i] == x);
    }
}

/// Removing one element from one part of a duplicate-free concatenation
/// removes exactly that id from the whole.
proof fn lemma_remove_one_from_concat4(
    olds: GenerationManager,
    news: GenerationManager,
    id: ObjectId,
    g: int,
    i: int,
)
    requires
        olds.wf(),
        news.generations@.len() == 3,
        0 <= g < 4,
        0 <= i < olds.member_list(g).len(),
        olds.member_list(g)[i] == id,
        news.member_list(g) == olds.member_list(g).remove(i),
        forall|j: int| 0 <= j < 4 && j != g ==> #[trigger] news.member_list(j) == olds.member_list(j),
    ensures
        news.all_ids().no_duplicates(),
        forall|x: ObjectId|
            news.all_ids().contains(x) <==> olds.all_ids().contains(x) && x != id,
{
    let nm0 = news.member_list(0);
    let nm1 = news.member_list(1);
    let nm2 = news.member_list(2);
    let nm3 = news.member_list(3);
    let om0 = olds.member_list(0);
    let om1 = olds.member_list(1);
    let om2 = olds.member_list(2);
    let om3 = olds.member_list(3);
    let off: int = if g == 0 {
        0int
    } else if g == 1 {
        olds.member_list(0).len() as int
    } else if g == 2 {
        (olds.member_list(0).len() + olds.member_list(1).len()) as int
    } else {
        (olds.member_list(0).len() + olds.member_list(1).len() + olds.member_list(2).len()) as int
    };
    if g == 0 {
        assert(news.all_ids() =~= olds.all_ids().remove(off + i));
    } else if g == 1 {
        assert(news.all_ids() =~= olds.all_ids().remove(off + i));
    } else if g == 2 {
        assert(news.all_ids() =~= olds.all_ids().remove(off + i));
    } else {
        assert(news.all_ids() =~= olds.all_ids().remove(off + i));
    }
    let oldall = olds.all_ids();
    let newall = news.all_ids();
    let p = off + i;
    assert(oldall[p] == id);
    assert(newall.no_duplicates()) by {
        assert forall|x: int, y: int|
            0 <= x < newall.len() && 0 <= y < newall.len() && x != y implies newall[x]
            != newall[y] by {
            let x0 = if x < p {
                x
            } else {
                x + 1
            };
            let y0 = if y < p {
                y
            } else {
                y + 1
            };
            assert(newall[x] == oldall[x0]);
            assert(newall[y] == oldall[y0]);
        }
    }
    assert forall|x: ObjectId|
        newall.contains(x) <==> oldall.contains(x) && x != id by {
        if newall.contains(x) {
            let j = choose|j: int| 0 <= j < newall.len() && newall[j] == x;
            let j0 = if j < p {
                j
            } else {
                j + 1
            };
            assert(oldall[j0] == x);
            assert(oldall[j0] != oldall[p] || j0 == p);
        }
        if oldall.contains(x) && x != id {
            let j = choose|j: int| 0 <= j < oldall.len() && oldall[j] == x;
            if j < p {
                assert(newall[j] == x);
            } else if j > p {
                assert(newall[j - 1] == x);
            }
        }
    }
}

/// Shape facts after draining the cohorts up to `g`.
proof fn lemma_take_set_shape(
    olds: GenerationManager,
    news: GenerationManager,
    r: Seq<ObjectId>,
    g: int,
)
    requires
        olds.wf(),
        news.generations@.len() == 3,
        0 <= g < 3,
        r == (if g == 0 {
            olds.member_list(0)
        } else if g == 1 {
            olds.member_list(0) + olds.member_list(1)
        } else {
            olds.member_list(0) + olds.member_list(1) + olds.member_list(2)
        }),
        forall|j: int| 0 <= j <= g ==> (#[trigger] news.member_list(j)).len() == 0,
        forall|j: int| g < j < 4 ==> (#[trigger] news.member_list(j)) == olds.member_list(j),
    ensures
        news.all_ids().no_duplicates(),
        r.no_duplicates(),
        olds.all_ids() == r + news.all_ids(),
        forall|x: ObjectId|
            r.contains(x) <==> (exists|j: int|
                0 <= j <= g && (#[trigger] olds.member_list(j)).contains(x)),
        forall|x: ObjectId|
            olds.all_ids().contains(x) <==> r.contains(x) || news.all_ids().contains(x),
        forall|x: ObjectId| !(r.contains(x) && news.all_ids().contains(x)),
{
    let nm0 = news.member_list(0);
    let nm1 = news.member_list(1);
    let nm2 = news.member_list(2);
    let nm3 = news.member_list(3);
    let om0 = olds.member_list(0);
    let om1 = olds.member_list(1);
    let om2 = olds.member_list(2);
    let om3 = olds.member_list(3);
    let oldall = olds.all_ids();
    let newall = news.all_ids();
    let rl = r.len() as int;
    assert forall|j: int| 0 <= j <= g implies (#[trigger] news.member_list(j)) =~= Seq::<
        ObjectId,
    >::empty() by {
    }
    if g == 0 {
        assert(oldall =~= r + newall);
    } else if g == 1 {
        assert(oldall =~= r + newall);
    } else {
        assert(oldall =~= r + newall);
    }
    assert(newall.no_duplicates()) by {
        assert forall|x: int, y: int|
            0 <= x < newall.len() && 0 <= y < newall.len() && x != y implies newall[x]
            != newall[y] by {
            assert(oldall[rl + x] == newall[x]);
            assert(oldall[rl + y] == newall[y]);
        }
    }
    assert(r.no_duplicates()) by {
        assert forall|x: int, y: int|
            0 <= x < rl && 0 <= y < rl && x != y implies r[x] != r[y] by {
            assert(oldall[x] == r[x]);
            assert(oldall[y] == r[y]);
        }
    }
    assert forall|x: ObjectId|
        r.contains(x) <==> (exists|j: int|
            0 <= j <= g && (#[trigger] olds.member_list(j)).contains(x)) by {
        if r.contains(x) {
            let i = choose|i: int| 0 <= i < r.len() && r[i] == x;
            let l0 = olds.member_list(0).len() as int;
            let l1 = olds.member_list(1).len() as int;
            if i < l0 {
                assert(olds.member_list(0)[i] == x);
                assert(olds.member_list(0).contains(x));
            } else if i < l0 + l1 {
                assert(olds.member_list(1)[i - l0] == x);
                assert(olds.member_list(1).contains(x));
            } else {
                assert(olds.member_list(2)[i - l0 - l1] == x);
                assert(olds.member_list(2).contains(x));
            }
        }
        if exists|j: int| 0 <= j <= g && (#[trigger] olds.member_list(j)).contains(x) {
            let j = choose|j: int| 0 <= j <= g && (#[trigger] olds.member_list(j)).contains(x);
            let i = choose|i: int|
                0 <= i < olds.member_list(j).len() && olds.member_list(j)[i] == x;
            let l0 = olds.member_list(0).len() as int;
            let l1 = olds.member_list(1).len() as int;
            if j == 0 {
                assert(r[i] == x);
            } else if j == 1 {
                assert(r[l0 + i] == x);
            } else {
                assert(r[l0 + l1 + i] == x);
            }
        }
    }
    assert forall|x: ObjectId|
        oldall.contains(x) <==> r.contains(x) || newall.contains(x) by {
        if oldall.contains(x) {
            let i = choose|i: int| 0 <= i < oldall.len() && oldall[i] == x;
            if i < rl {
                assert(r[i] == x);
            } else {
                assert(newall[i - rl] == x);
            }
        }
        if r.contains(x) {
            let i = choose|i: int| 0 <= i < r.len() && r[i] == x;
            assert(oldall[i] == x);
        }
        if newall.contains(x) {
            let i = choose|i: int| 0 <= i < newall.len() && newall[i] == x;
            assert(oldall[rl + i] == x);
        }
    }
    assert forall|x: ObjectId| !(r.contains(x) && newall.contains(x)) by {
        if r.contains(x) && newall.contains(x) {
            let i = choose|i: int| 0 <= i < r.len() && r[i] == x;
            let j = choose|j: int| 0 <= j < newall.len() && newall[j] == x;
            assert(oldall[i] == x);
            assert(oldall[rl + j] == x);
        }
    }
}

/// Shape facts after appending fresh survivors to cohort `g`.
proof fn lemma_insert_survivors_shape(
    olds: GenerationManager,
    news: GenerationManager,
    ids: Seq<ObjectId>,
    g: int,
)
    requires
        olds.wf(),
        news.generations@.len() == 3,
        0 <= g < 3,
        ids.no_duplicates(),
        forall|x: ObjectId| ids.contains(x) ==> !olds.all_ids().contains(x),
        news.member_list(g) == olds.member_list(g) + ids,
        forall|j: int| 0 <= j < 4 && j != g ==> news.member_list(j) == olds.member_list(j),
    ensures
        news.all_ids().no_duplicates(),
        forall|x: ObjectId|
            #[trigger] news.all_ids().contains(x) <==> olds.all_ids().contains(x)
                || ids.contains(x),
{
    let nm0 = news.member_list(0);
    let nm1 = news.member_list(1);
    let nm2 = news.member_list(2);
    let nm3 = news.member_list(3);
    let om0 = olds.member_list(0);
    let om1 = olds.member_list(1);
    let om2 = olds.member_list(2);
    let om3 = olds.member_list(3);
    let oldall = olds.all_ids();
    let newall = news.all_ids();
    let off: int = if g == 0 {
        olds.member_list(0).len() as int
    } else if g == 1 {
        (olds.member_list(0).len() + olds.member_list(1).len()) as int
    } else {
        (olds.member_list(0).len() + olds.member_list(1).len() + olds.member_list(2).len()) as int
    };
    // The new concatenation is the old one with `ids` spliced in after
    // position `off - 1`.
    if g == 0 {
        assert(newall =~= oldall.subrange(0, off) + ids + oldall.subrange(
            off,
            oldall.len() as int,
        ));
    } else if g == 1 {
        assert(newall =~= oldall.subrange(0, off) + ids + oldall.subrange(
            off,
            oldall.len() as int,
        ));
    } else {
        assert(newall =~= oldall.subrange(0, off) + ids + oldall.subrange(
            off,
            oldall.len() as int,
        ));
    }
    let splice = oldall.subrange(0, off) + ids + oldall.subrange(off, oldall.len() as int);
    assert(newall == splice);
    let n = ids.len() as int;
    assert forall|x: ObjectId|
        newall.contains(x) <==> oldall.contains(x) || ids.contains(x) by {
        if newall.contains(x) {
            let i = choose|i: int| 0 <= i < newall.len() && newall[i] == x;
            if i < off {
                assert(oldall[i] == x);
            } else if i < off + n {
                assert(ids[i - off] == x);
            } else {
                assert(oldall[i - n] == x);
            }
        }
        if oldall.contains(x) {
            let i = choose|i: int| 0 <= i < oldall.len() && oldall[i] == x;
            if i < off {
                assert(newall[i] == x);
            } else {
                assert(newall[i + n] == x);
            }
        }
        if ids.contains(x) {
            let i = choose|i: int| 0 <= i < ids.len() && ids[i] == x;
            assert(newall[off + i] == x);
        }
    }
    assert(newall.no_duplicates()) by {
        assert forall|x: int, y: int|
            0 <= x < newall.len() && 0 <= y < newall.len() && x != y implies newall[x]
            != newall[y] by {
            let vx = newall[x];
            let vy = newall[y];
            let x_in_ids = off <= x < off + n;
            let y_in_ids = off <= y < off + n;
            if x_in_ids && y_in_ids {
                assert(ids[x - off] == vx && ids[y - off] == vy);
            } else if x_in_ids && !y_in_ids {
                let y0 = if y < off {
                    y
                } else {
                    y - n
                };
                assert(oldall[y0] == vy);
                assert(ids[x - off] == vx);
                assert(ids.contains(vx));
                assert(oldall.contains(oldall[y0]));
            } else if !x_in_ids && y_in_ids {
                let x0 = if x < off {
                    x
                } else {
                    x - n
                };
                assert(oldall[x0] == vx);
                assert(ids[y - off] == vy);
                assert(ids.contains(vy));
                assert(oldall.contains(oldall[x0]));
            } else {
                let x0 = if x < off {
                    x
                } else {
                    x - n
                };
                let y0 = if y < off {
                    y
                } else {
                    y - n
                };
                assert(oldall[x0] == vx);
                assert(oldall[y0] == vy);
            }
        }
    }
}

/// The length of the concatenated id list is the sum of the cohort
/// populations plus the permanent cohort's.
proof fn lemma_all_ids_len(m: GenerationManager)
    requires
        m.wf(),
    ensures
        m.all_ids().len() == m.generations@[0].count + m.generations@[1].count
            + m.generations@[2].count + m.permanent_generation.count,
{
}

} // verus!


