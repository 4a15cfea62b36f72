//! The logical object graph: references between objects, payload traversal,
//! and reachability over the non-weak edges.

use vstd::prelude::*;

use crate::object::{child_ids, contains_id, dict_child_ids, ObjectData, ObjectId, PyObject};
use crate::error::{GCError, GCResult};

verus! {

broadcast use {vstd::seq_lib::group_seq_properties, vstd::set::group_set_axioms};

/// How one object refers to another. Weak references are never followed by
/// reachability; finalizer links are followed like direct ones.
#[derive(Debug, Clone, Copy, PartialEq, Eq, Structural)]
pub enum ReferenceType {
    Direct,
    Weak,
    Finalizer,
}

/// One edge of the object graph.
#[derive(Debug, Clone, Copy, PartialEq, Eq, Structural)]
pub struct Reference {
    pub from: ObjectId,
    pub to: ObjectId,
    pub reference_type: ReferenceType,
}

/// A walk through the step relation `rel`: non-empty, starting at a root,
/// each neighbouring pair related.
pub open spec fn is_path<T>(rel: spec_fn(T, T) -> bool, roots: Set<T>, p: Seq<T>) -> bool {
    &&& p.len() >= 1
    &&& roots.contains(p[0])
    &&& forall|i: int| 0 <= i < p.len() - 1 ==> #[trigger] rel(p[i], p[i + 1])
}

/// Whether `x` can be reached from some root by walking `rel`.
pub open spec fn reaches<T>(rel: spec_fn(T, T) -> bool, roots: Set<T>, x: T) -> bool {
    exists|p: Seq<T>| is_path(rel, roots, p) && p.last() == x
}

/// Every root reaches itself.
pub proof fn lemma_reaches_root<T>(rel: spec_fn(T, T) -> bool, roots: Set<T>, x: T)
    requires
        roots.contains(x),
    ensures
        reaches(rel, roots, x),
{
    let p = seq![x];
    assert(is_path(rel, roots, p) && p.last() == x);
}

/// Reachability is closed under one more step of the relation.
pub proof fn lemma_reaches_step<T>(rel: spec_fn(T, T) -> bool, roots: Set<T>, x: T, y: T)
    requires
        reaches(rel, roots, x),
        rel(x, y),
    ensures
        reaches(rel, roots, y),
{
    let p = choose|p: Seq<T>| is_path(rel, roots, p) && p.last() == x;
    let q = p.push(y);
    assert forall|i: int| 0 <= i < q.len() - 1 implies #[trigger] rel(q[i], q[i + 1]) by {
        if i < p.len() - 1 {
            assert(rel(p[i], p[i + 1]));
        } else {
            assert(q[i] == p.last());
        }
    }
    assert(is_path(rel, roots, q) && q.last() == y);
}

/// The last element of any walk lies in every set that holds the roots and
/// is closed under the relation.
proof fn lemma_path_in_closed<T>(rel: spec_fn(T, T) -> bool, roots: Set<T>, m: Set<T>, p: Seq<T>)
    requires
        forall|r: T| roots.contains(r) ==> m.contains(r),
        forall|a: T, b: T| m.contains(a) && #[trigger] rel(a, b) ==> m.contains(b),
        is_path(rel, roots, p),
    ensures
        m.contains(p.last()),
    decreases p.len(),
{
    if p.len() == 1 {
        assert(m.contains(p[0]));
    } else {
        let q = p.drop_last();
        assert forall|i: int| 0 <= i < q.len() - 1 implies #[trigger] rel(q[i], q[i + 1]) by {
            assert(q[i] == p[i]);
            assert(q[i + 1] == p[i + 1]);
            assert(rel(p[i], p[i + 1]));
        }
        assert(is_path(rel, roots, q));
        lemma_path_in_closed(rel, roots, m, q);
        let j = p.len() - 2;
        assert(rel(p[j], p[j + 1]));
        assert(q.last() == p[j]);
        assert(p.last() == p[j + 1]);
    }
}

/// A set that holds the roots and is closed under the relation holds
/// everything reachable.
pub proof fn lemma_reaches_closed<T>(rel: spec_fn(T, T) -> bool, roots: Set<T>, m: Set<T>)
    requires
        forall|r: T| roots.contains(r) ==> m.contains(r),
        forall|a: T, b: T| m.contains(a) && #[trigger] rel(a, b) ==> m.contains(b),
    ensures
        forall|x: T| #[trigger] reaches(rel, roots, x) ==> m.contains(x),
{
    assert forall|x: T| #[trigger] reaches(rel, roots, x) implies m.contains(x) by {
        let p = choose|p: Seq<T>| is_path(rel, roots, p) && p.last() == x;
        lemma_path_in_closed(rel, roots, m, p);
    }
}

/// Every node a walk passes through is itself reachable: the walk's
/// prefixes witness it.
pub proof fn lemma_path_nodes_reachable<T>(rel: spec_fn(T, T) -> bool, roots: Set<T>, p: Seq<T>)
    requires
        is_path(rel, roots, p),
    ensures
        forall|i: int| 0 <= i < p.len() ==> reaches(rel, roots, #[trigger] p[i]),
{
    assert forall|i: int| 0 <= i < p.len() implies reaches(rel, roots, #[trigger] p[i]) by {
        let q = p.take(i + 1);
        assert(q[0] == p[0]);
        assert forall|j: int| 0 <= j < q.len() - 1 implies #[trigger] rel(q[j], q[j + 1]) by {
            assert(q[j] == p[j]);
            assert(q[j + 1] == p[j + 1]);
            assert(rel(p[j], p[j + 1]));
        }
        assert(is_path(rel, roots, q) && q.last() == p[i]);
    }
}

/// Pointwise equal relations have the same reachable sets.
pub proof fn lemma_reaches_equiv<T>(
    rel1: spec_fn(T, T) -> bool,
    rel2: spec_fn(T, T) -> bool,
    roots: Set<T>,
    x: T,
)
    requires
        forall|a: T, b: T| #[trigger] rel1(a, b) <==> #[trigger] rel2(a, b),
        reaches(rel1, roots, x),
    ensures
        reaches(rel2, roots, x),
{
    let p = choose|p: Seq<T>| is_path(rel1, roots, p) && p.last() == x;
    assert forall|i: int| 0 <= i < p.len() - 1 implies #[trigger] rel2(p[i], p[i + 1]) by {
        assert(rel1(p[i], p[i + 1]));
    }
    assert(is_path(rel2, roots, p) && p.last() == x);
}

/// Reaching a waypoint and then a destination from the waypoint reaches
/// the destination: the two walks join end to end.
pub proof fn lemma_reaches_trans<T>(rel: spec_fn(T, T) -> bool, roots: Set<T>, b: T, c: T)
    requires
        reaches(rel, roots, b),
        reaches(rel, Set::new(|z: T| z == b), c),
    ensures
        reaches(rel, roots, c),
{
    let p = choose|p: Seq<T>| is_path(rel, roots, p) && p.last() == b;
    let q = choose|q: Seq<T>| is_path(rel, Set::new(|z: T| z == b), q) && q.last() == c;
    assert(q[0] == b);
    if q.len() == 1 {
        assert(p.last() == c);
    } else {
        let joined = p + q.skip(1);
        assert(joined[0] == p[0]);
        assert forall|i: int|
            0 <= i < joined.len() - 1 implies #[trigger] rel(joined[i], joined[i + 1]) by {
            if i < p.len() - 1 {
                assert(joined[i] == p[i]);
                assert(joined[i + 1] == p[i + 1]);
                assert(rel(p[i], p[i + 1]));
            } else if i == p.len() - 1 {
                assert(joined[i] == p.last());
                assert(joined[i + 1] == q[1]);
                let z: int = 0;
                assert(rel(q[z], q[z + 1]));
            } else {
                let h = i - p.len() + 1;
                assert(joined[i] == q[h]);
                assert(joined[i + 1] == q[h + 1]);
                assert(rel(q[h], q[h + 1]));
            }
        }
        assert(is_path(rel, roots, joined) && joined.last() == c);
    }
}

/// The step relation over every recorded reference, whatever its kind;
/// cycle enumeration follows all edges.
pub open spec fn any_ref_rel(refs: Seq<Reference>) -> spec_fn(ObjectId, ObjectId) -> bool {
    |a: ObjectId, b: ObjectId| ref_step(refs, a, b)
}

/// The ids one reference step away from `x`.
pub open spec fn successor_set(refs: Seq<Reference>, x: ObjectId) -> Set<ObjectId> {
    Set::new(|y: ObjectId| ref_step(refs, x, y))
}

/// Whether `x` lies on a cycle: a walk of at least one reference leads
/// from `x` back to `x` (a self-reference counts).
pub open spec fn on_cycle(refs: Seq<Reference>, x: ObjectId) -> bool {
    reaches(any_ref_rel(refs), successor_set(refs, x), x)
}

/// Whether a walk over the references leads from `a` to `b`; staying put
/// counts.
pub open spec fn reach_to(refs: Seq<Reference>, a: ObjectId, b: ObjectId) -> bool {
    reaches(any_ref_rel(refs), Set::new(|z: ObjectId| z == a), b)
}

/// Anything that sits on a mutual-reachability loop with an id that lies
/// on a cycle lies on a cycle itself.
pub proof fn lemma_mutual_reach_on_cycle(refs: Seq<Reference>, u: ObjectId, p: ObjectId)
    requires
        reach_to(refs, u, p),
        reach_to(refs, p, u),
        on_cycle(refs, p),
    ensures
        on_cycle(refs, u),
{
    let rel = any_ref_rel(refs);
    if u == p {
    } else {
        let q = choose|q: Seq<ObjectId>|
            is_path(rel, Set::new(|z: ObjectId| z == u), q) && q.last() == p;
        assert(q[0] == u);
        assert(q.len() >= 2);
        let q2 = q.skip(1);
        let z: int = 0;
        assert(rel(q[z], q[z + 1]));
        assert(ref_step(refs, u, q[1]));
        assert(successor_set(refs, u).contains(q[1]));
        assert(q2[0] == q[1]);
        assert forall|i: int|
            0 <= i < q2.len() - 1 implies #[trigger] rel(q2[i], q2[i + 1]) by {
            assert(q2[i] == q[i + 1]);
            assert(q2[i + 1] == q[i + 2]);
            assert(rel(q[i + 1], q[i + 1 + 1]));
        }
        assert(is_path(rel, successor_set(refs, u), q2) && q2.last() == p);
        assert(reaches(rel, successor_set(refs, u), p));
        lemma_reaches_trans(rel, successor_set(refs, u), p, u);
    }
}

/// The step relation a list of id pairs stands for.
pub open spec fn pair_rel(pairs: Seq<(ObjectId, ObjectId)>) -> spec_fn(ObjectId, ObjectId) -> bool {
    |a: ObjectId, b: ObjectId|
        exists|k: int| 0 <= k < pairs.len() && #[trigger] pairs[k].0 == a && pairs[k].1 == b
}

/// Computes the set of ids reachable from `roots` over the edges in
/// `pairs`: a fixpoint sweep that keeps adding the target of any edge whose
/// source is already reached, until nothing changes.
pub fn reach_from(pairs: &Vec<(ObjectId, ObjectId)>, roots: &Vec<ObjectId>) -> (r: Vec<ObjectId>)
    ensures
        r@.no_duplicates(),
        forall|x: ObjectId| r@.contains(x) <==> reaches(pair_rel(pairs@), roots@.to_set(), x),
{
    let ghost rel = pair_rel(pairs@);
    let ghost rset = roots@.to_set();
    let mut r: Vec<ObjectId> = Vec::new();
    let mut i: usize = 0;
    while i < roots.len()
        invariant
            rel == pair_rel(pairs@),
            rset == roots@.to_set(),
            i <= roots@.len(),
            r@.no_duplicates(),
            forall|x: ObjectId| r@.contains(x) ==> #[trigger] reaches(rel, rset, x),
            forall|j: int| 0 <= j < i ==> r@.contains(#[trigger] roots@[j]),
            forall|x: ObjectId| r@.contains(x) ==> roots@.contains(x),
        decreases roots@.len() - i,
    {
        let id = roots[i];
        if !contains_id(&r, id) {
            proof {
                assert(roots@[i as int] == id);
                assert(roots@.contains(id));
                assert(rset.contains(id));
                lemma_reaches_root(rel, rset, id);
            }
            r.push(id);
        }
        i = i + 1;
    }
    proof {
        assert(forall|x: ObjectId| roots@.contains(x) ==> r@.contains(x));
    }
    // Upper bound on how large the reached list can grow, for termination.
    let ghost targets = pairs@.map_values(|e: (ObjectId, ObjectId)| e.1).to_set();
    let ghost bound = roots@.len() + pairs@.len();
    proof {
        lemma_reach_list_bound(r@, rset, targets, roots@, pairs@);
    }
    loop
        invariant
            rel == pair_rel(pairs@),
            rset == roots@.to_set(),
            targets == pairs@.map_values(|e: (ObjectId, ObjectId)| e.1).to_set(),
            bound == roots@.len() + pairs@.len(),
            r@.no_duplicates(),
            forall|x: ObjectId| r@.contains(x) ==> #[trigger] reaches(rel, rset, x),
            forall|x: ObjectId| roots@.contains(x) ==> r@.contains(x),
            forall|x: ObjectId| r@.contains(x) ==> rset.contains(x) || targets.contains(x),
            r@.len() <= bound,
        ensures
            r@.no_duplicates(),
            forall|x: ObjectId| r@.contains(x) ==> #[trigger] reaches(rel, rset, x),
            forall|x: ObjectId| roots@.contains(x) ==> r@.contains(x),
            forall|a: ObjectId, b: ObjectId|
                r@.contains(a) && #[trigger] rel(a, b) ==> r@.contains(b),
        decreases bound - r@.len(),
    {
        let mut changed = false;
        let mut k: usize = 0;
        let ghost r_entry = r@;
        while k < pairs.len()
            invariant
                rel == pair_rel(pairs@),
                rset == roots@.to_set(),
                targets == pairs@.map_values(|e: (ObjectId, ObjectId)| e.1).to_set(),
                bound == roots@.len() + pairs@.len(),
                k <= pairs@.len(),
                r@.no_duplicates(),
                forall|x: ObjectId| r@.contains(x) ==> #[trigger] reaches(rel, rset, x),
                forall|x: ObjectId| roots@.contains(x) ==> r@.contains(x),
                forall|x: ObjectId| r@.contains(x) ==> rset.contains(x) || targets.contains(x),
                r@.len() <= bound,
                forall|x: ObjectId| r_entry.contains(x) ==> r@.contains(x),
                changed ==> r@.len() > r_entry.len(),
                !changed ==> r@ == r_entry,
                !changed ==> forall|j: int|
                    0 <= j < k ==> !(r@.contains(#[trigger] pairs@[j].0) && !r@.contains(
                        pairs@[j].1,
                    )),
            decreases pairs@.len() - k,
        {
            let e = pairs[k];
            let a = e.0;
            let b = e.1;
            if contains_id(&r, a) && !contains_id(&r, b) {
                proof {
                    assert(rel(a, b)) by {
                        assert(pairs@[k as int].0 == a && pairs@[k as int].1 == b);
                    }
                    lemma_reaches_step(rel, rset, a, b);
                    let tseq = pairs@.map_values(|e: (ObjectId, ObjectId)| e.1);
                    assert(tseq[k as int] == b);
                    assert(tseq.contains(b));
                    assert(targets.contains(b));
                    lemma_reach_list_bound(r@.push(b), rset, targets, roots@, pairs@);
                }
                r.push(b);
                changed = true;
            }
            k = k + 1;
        }
        if !changed {
            proof {
                assert forall|a: ObjectId, b: ObjectId|
                    r@.contains(a) && #[trigger] rel(a, b) implies r@.contains(b) by {
                    let kk = choose|kk: int|
                        0 <= kk < pairs@.len() && #[trigger] pairs@[kk].0 == a && pairs@[kk].1
                            == b;
                    assert(!(r@.contains(pairs@[kk].0) && !r@.contains(pairs@[kk].1)));
                }
            }
            break;
        }
    }
    proof {
        assert forall|x: ObjectId| r@.contains(x) <==> reaches(rel, rset, x) by {
            lemma_reaches_closed(rel, rset, r@.to_set());
            if reaches(rel, rset, x) {
                assert(r@.to_set().contains(x));
            }
        }
    }
    r
}

/// Walks a payload and collects the child ids it yields.
pub fn children(data: &ObjectData) -> (r: Vec<ObjectId>)
    ensures
        r@ == child_ids(*data),
{
    let mut r: Vec<ObjectId> = Vec::new();
    match data {
        ObjectData::List(v) | ObjectData::Tuple(v) | ObjectData::IdSet(v) => {
            let mut i: usize = 0;
            while i < v.len()
                invariant
                    i <= v@.len(),
                    r@ == v@.take(i as int),
                decreases v@.len() - i,
            {
                r.push(v[i]);
                proof {
                    assert(r@ =~= v@.take(i + 1));
                }
                i = i + 1;
            }
            proof {
                assert(v@.take(v@.len() as int) =~= v@);
            }
        },
        ObjectData::Dict(pairs) => {
            let mut i: usize = 0;
            while i < pairs.len()
                invariant
                    i <= pairs@.len(),
                    r@ == dict_child_ids(pairs@.take(i as int)),
                decreases pairs@.len() - i,
            {
                let (k, v) = pairs[i];
                r.push(k);
                r.push(v);
                proof {
                    let t = pairs@.take(i + 1);
                    assert(t.drop_last() =~= pairs@.take(i as int));
                    assert(t.last() == pairs@[i as int]);
                    assert(r@ =~= dict_child_ids(t));
                }
                i = i + 1;
            }
            proof {
                assert(pairs@.take(pairs@.len() as int) =~= pairs@);
            }
        },
        _ => {
        },
    }
    r
}

/// The position of the object with identity `id` in `objs`, if any.
pub fn find_object(objs: &Vec<PyObject>, id: ObjectId) -> (r: Option<usize>)
    ensures
        match r {
            Some(i) => i < objs@.len() && objs@[i as int].id == id,
            None => forall|j: int| 0 <= j < objs@.len() ==> (#[trigger] objs@[j]).id != id,
        },
{
    let mut i: usize = 0;
    while i < objs.len()
        invariant
            i <= objs@.len(),
            forall|j: int| 0 <= j < i ==> (#[trigger] objs@[j]).id != id,
        decreases objs@.len() - i,
    {
        if objs[i].id == id {
            return Some(i);
        }
        i = i + 1;
    }
    None
}

/// The ids of the objects in `objs`, in order.
pub open spec fn ids_of(objs: Seq<PyObject>) -> Seq<ObjectId> {
    objs.map_values(|o: PyObject| o.id)
}

/// The step relation of a reference list, every edge kind included.
pub open spec fn ref_step(refs: Seq<Reference>, a: ObjectId, b: ObjectId) -> bool {
    exists|k: int| 0 <= k < refs.len() && (#[trigger] refs[k]).from == a && refs[k].to == b
}

/// The non-weak edges of a reference list, as id pairs in order.
pub open spec fn nonweak_pairs(refs: Seq<Reference>) -> Seq<(ObjectId, ObjectId)> {
    refs.filter(|r: Reference| r.reference_type != ReferenceType::Weak).map_values(
        |r: Reference| (r.from, r.to),
    )
}

/// A duplicate-free list whose elements all come from the roots or from the
/// edge targets is no longer than both put together.
proof fn lemma_reach_list_bound(
    r: Seq<ObjectId>,
    rset: Set<ObjectId>,
    targets: Set<ObjectId>,
    roots: Seq<ObjectId>,
    pairs: Seq<(ObjectId, ObjectId)>,
)
    requires
        r.no_duplicates(),
        forall|x: ObjectId| r.contains(x) ==> rset.contains(x) || targets.contains(x),
        rset == roots.to_set(),
        targets == pairs.map_values(|e: (ObjectId, ObjectId)| e.1).to_set(),
    ensures
        r.len() <= roots.len() + pairs.len(),
{
    r.unique_seq_to_set();
    assert(r.to_set().subset_of(rset.union(targets)));
    roots.lemma_cardinality_of_set();
    let tseq = pairs.map_values(|e: (ObjectId, ObjectId)| e.1);
    tseq.lemma_cardinality_of_set();
    vstd::set_lib::lemma_len_union::<ObjectId>(rset, targets);
    vstd::set_lib::lemma_len_subset::<ObjectId>(r.to_set(), rset.union(targets));
}

/// Drops from `refs` every reference that touches `id` at either end,
/// keeping the order of the rest.
pub fn drop_refs_touching(refs: &mut Vec<Reference>, id: ObjectId)
    ensures
        final(refs)@ == old(refs)@.filter(keeps_not_touching(id)),
{
    let ghost orig = refs@;
    let ghost pred = keeps_not_touching(id);
    let mut kept: Vec<Reference> = Vec::new();
    let mut k: usize = 0;
    proof {
        reveal(Seq::filter);
        assert(orig.take(0) =~= Seq::<Reference>::empty());
    }
    while k < refs.len()
        invariant
            orig == refs@,
            pred == keeps_not_touching(id),
            k <= orig.len(),
            kept@ == orig.take(k as int).filter(pred),
        decreases orig.len() - k,
    {
        let r = refs[k];
        proof {
            reveal(Seq::filter);
            let t = orig.take(k + 1);
            assert(t.drop_last() =~= orig.take(k as int));
            assert(t.last() == orig[k as int]);
        }
        if !(r.from == id || r.to == id) {
            kept.push(r);
        }
        k = k + 1;
    }
    proof {
        assert(orig.take(orig.len() as int) =~= orig);
    }
    *refs = kept;
}

/// The targets of every reference out of `v`, one reference step away.
fn successors_of(refs: &Vec<Reference>, v: ObjectId) -> (out: Vec<ObjectId>)
    ensures
        forall|y: ObjectId| #[trigger] out@.contains(y) <==> ref_step(refs@, v, y),
{
    let mut out: Vec<ObjectId> = Vec::new();
    let mut k: usize = 0;
    while k < refs.len()
        invariant
            k <= refs@.len(),
            forall|y: ObjectId|
                #[trigger] out@.contains(y) <==> ref_step(refs@.take(k as int), v, y),
        decreases refs@.len() - k,
    {
        let r = refs[k];
        let ghost oldout = out@;
        if r.from == v {
            out.push(r.to);
        }
        proof {
            let t = refs@.take(k + 1);
            assert forall|y: ObjectId|
                #[trigger] out@.contains(y) <==> ref_step(t, v, y) by {
                if out@.contains(y) {
                    if oldout.contains(y) {
                        let kk = choose|kk: int|
                            0 <= kk < refs@.take(k as int).len() && (#[trigger] refs@.take(
                                k as int,
                            )[kk]).from == v && refs@.take(k as int)[kk].to == y;
                        assert(t[kk] == refs@.take(k as int)[kk]);
                        assert(ref_step(t, v, y));
                    } else {
                        assert(y == r.to && r.from == v);
                        assert(t[k as int] == refs@[k as int]);
                        assert(ref_step(t, v, y));
                    }
                }
                if ref_step(t, v, y) {
                    let kk = choose|kk: int|
                        0 <= kk < t.len() && (#[trigger] t[kk]).from == v && t[kk].to == y;
                    if kk < k {
                        assert(refs@.take(k as int)[kk] == t[kk]);
                        assert(ref_step(refs@.take(k as int), v, y));
                        assert(oldout.contains(y));
                    } else {
                        assert(t[kk] == refs@[k as int]);
                        assert(y == r.to && r.from == v);
                    }
                }
            }
        }
        k = k + 1;
    }
    proof {
        assert(refs@.take(refs@.len() as int) =~= refs@);
    }
    out
}

/// Keep predicate for references that do not touch `id` at either end.
pub open spec fn keeps_not_touching(id: ObjectId) -> spec_fn(Reference) -> bool {
    |r: Reference| r.from != id && r.to != id
}

/// Keep predicate for references other than the edge `from -> to`.
pub open spec fn keeps_other_edges(from: ObjectId, to: ObjectId) -> spec_fn(Reference) -> bool {
    |r: Reference| !(r.from == from && r.to == to)
}

/// Keep predicate for references that point at `id`.
pub open spec fn points_at(id: ObjectId) -> spec_fn(Reference) -> bool {
    |r: Reference| r.to == id
}

/// Keep predicate for references that start at `id`.
pub open spec fn starts_at(id: ObjectId) -> spec_fn(Reference) -> bool {
    |r: Reference| r.from == id
}

/// The sources of all references into `id`, in reference order.
pub open spec fn referrers_of(refs: Seq<Reference>, id: ObjectId) -> Seq<ObjectId> {
    refs.filter(points_at(id)).map_values(|r: Reference| r.from)
}

/// The targets of all references out of `id`, in reference order.
pub open spec fn referents_of(refs: Seq<Reference>, id: ObjectId) -> Seq<ObjectId> {
    refs.filter(starts_at(id)).map_values(|r: Reference| r.to)
}

/// The logical object graph: the known objects and the references between
/// them, exposed as a diagnostic view and used by the collection pass.
#[derive(Debug)]
pub struct ObjectGraph {
    /// The objects of the graph; no two share an identity.
    pub objects: Vec<PyObject>,
    /// All recorded references, in insertion order.
    pub references: Vec<Reference>,
}

impl ObjectGraph {
    /// The identities of the graph's objects, in insertion order.
    pub open spec fn ids(self) -> Seq<ObjectId> {
        ids_of(self.objects@)
    }

    /// No two stored objects share an identity.
    pub open spec fn wf(self) -> bool {
        self.ids().no_duplicates()
    }

    pub fn new() -> (r: ObjectGraph)
        ensures
            r.wf(),
            r.objects@ == Seq::<PyObject>::empty(),
            r.references@ == Seq::<Reference>::empty(),
    {
        let r = ObjectGraph { objects: Vec::new(), references: Vec::new() };
        proof {
            assert(r.ids() =~= Seq::<ObjectId>::empty());
        }
        r
    }

    /// Inserts an object. If an object with the same identity is already
    /// present, the stored record is replaced and the references are kept.
    pub fn add_object(&mut self, obj: PyObject)
        requires
            old(self).wf(),
        ensures
            final(self).wf(),
            final(self).references@ == old(self).references@,
            !old(self).ids().contains(obj.id) ==> final(self).objects@ == old(self).objects@.push(obj),
            old(self).ids().contains(obj.id) ==> (exists|i: int|
                0 <= i < old(self).objects@.len() && old(self).objects@[i].id == obj.id && final(self).objects@ == old(self).objects@.update(i, obj)),
    {
        match find_object(&self.objects, obj.id) {
            Some(i) => {
                let ghost oldids = self.ids();
                self.objects[i] = obj;
                proof {
                    assert(self.ids() =~= oldids);
                    assert(oldids.contains(oldids[i as int]));
                }
            },
            None => {
                let ghost oldids = self.ids();
                let ghost id = obj.id;
                proof {
                    assert(!oldids.contains(id)) by {
                        if oldids.contains(id) {
                            let j = choose|j: int| 0 <= j < oldids.len() && oldids[j] == id;
                            assert(old(self).objects@[j].id == id);
                        }
                    }
                }
                self.objects.push(obj);
                proof {
                    assert(self.ids() =~= oldids.push(id));
                }
            },
        }
    }

    /// Removes the object with identity `id`, handing it back, and drops
    /// every reference that touches it at either end.
    pub fn remove_object(&mut self, id: ObjectId) -> (r: Option<PyObject>)
        requires
            old(self).wf(),
        ensures
            final(self).wf(),
            !old(self).ids().contains(id) ==> r is None && *final(self) == *old(self),
            old(self).ids().contains(id) ==> (exists|i: int|
                0 <= i < old(self).objects@.len() && old(self).objects@[i].id == id && r == Some(
                    old(self).objects@[i],
                ) && final(self).objects@ == old(self).objects@.remove(i)),
            old(self).ids().contains(id) ==> final(self).references@ == old(self).references@.filter(keeps_not_touching(id)),
    {
        match find_object(&self.objects, id) {
            Some(i) => {
                let ghost oldids = self.ids();
                proof {
                    assert(oldids.contains(oldids[i as int]));
                }
                let obj = self.objects.remove(i);
                proof {
                    let newids = self.ids();
                    assert(newids =~= oldids.remove(i as int));
                    assert(newids.no_duplicates()) by {
                        assert forall|a: int, b: int|
                            0 <= a < newids.len() && 0 <= b < newids.len() && a != b implies
                            newids[a] != newids[b] by {
                            let a0 = if a < i { a } else { a + 1 };
                            let b0 = if b < i { b } else { b + 1 };
                            assert(newids[a] == oldids[a0]);
                            assert(newids[b] == oldids[b0]);
                        }
                    }
                }
                self.retain_references_not_touching(id);
                Some(obj)
            },
            None => {
                proof {
                    assert(!self.ids().contains(id)) by {
                        if self.ids().contains(id) {
                            let j = choose|j: int|
                                0 <= j < self.ids().len() && self.ids()[j] == id;
                            assert(self.objects@[j].id == id);
                        }
                    }
                }
                None
            },
        }
    }

    /// Drops every reference that touches `id` at either end.
    fn retain_references_not_touching(&mut self, id: ObjectId)
        ensures
            final(self).objects@ == old(self).objects@,
            final(self).references@ == old(self).references@.filter(keeps_not_touching(id)),
    {
        drop_refs_touching(&mut self.references, id);
    }

    /// Records a reference between two objects of the graph; both ends must
    /// be present.
    pub fn add_reference(&mut self, from: ObjectId, to: ObjectId, ref_type: ReferenceType) -> (r:
        GCResult<()>)
        requires
            old(self).wf(),
        ensures
            final(self).wf(),
            final(self).objects@ == old(self).objects@,
            old(self).ids().contains(from) && old(self).ids().contains(to) ==> r == Ok::<
                (),
                GCError,
            >(()) && final(self).references@ == old(self).references@.push(
                Reference { from, to, reference_type: ref_type },
            ),
            !(old(self).ids().contains(from) && old(self).ids().contains(to)) ==> r is Err && (r
                matches Err(e) && e is Internal) && final(self).references@ == old(self).references@,
    {
        let from_there = find_object(&self.objects, from).is_some();
        let to_there = find_object(&self.objects, to).is_some();
        proof {
            let ids = self.ids();
            if from_there {
                let i = choose|i: int|
                    0 <= i < self.objects@.len() && self.objects@[i].id == from;
                assert(ids[i] == from);
            }
            if to_there {
                let i = choose|i: int| 0 <= i < self.objects@.len() && self.objects@[i].id == to;
                assert(ids[i] == to);
            }
            if ids.contains(from) {
                let i = choose|i: int| 0 <= i < ids.len() && ids[i] == from;
                assert(self.objects@[i].id == from);
            }
            if ids.contains(to) {
                let i = choose|i: int| 0 <= i < ids.len() && ids[i] == to;
                assert(self.objects@[i].id == to);
            }
        }
        if !from_there || !to_there {
            return Err(GCError::Internal(String::new()));
        }
        self.references.push(Reference { from, to, reference_type: ref_type });
        Ok(())
    }

    /// Removes every reference `from -> to`, of any kind. Removing an edge
    /// that is not there is not an error.
    pub fn remove_reference(&mut self, from: ObjectId, to: ObjectId) -> (r: GCResult<()>)
        ensures
            r == Ok::<(), GCError>(()),
            final(self).objects@ == old(self).objects@,
            final(self).references@ == old(self).references@.filter(
                keeps_other_edges(from, to),
            ),
    {
        let ghost orig = self.references@;
        let ghost pred = keeps_other_edges(from, to);
        let mut kept: Vec<Reference> = Vec::new();
        let mut k: usize = 0;
        proof {
            reveal(Seq::filter);
            assert(orig.take(0) =~= Seq::<Reference>::empty());
        }
        while k < self.references.len()
            invariant
                orig == self.references@,
                pred == keeps_other_edges(from, to),
                k <= orig.len(),
                kept@ == orig.take(k as int).filter(pred),
            decreases orig.len() - k,
        {
            let r = self.references[k];
            proof {
                reveal(Seq::filter);
                let t = orig.take(k + 1);
                assert(t.drop_last() =~= orig.take(k as int));
                assert(t.last() == orig[k as int]);
            }
            if !(r.from == from && r.to == to) {
                kept.push(r);
            }
            k = k + 1;
        }
        proof {
            assert(orig.take(orig.len() as int) =~= orig);
        }
        self.references = kept;
        Ok(())
    }

    /// The ids of the objects that hold a reference to `id`, one entry per
    /// reference, in reference order.
    pub fn get_referrers(&self, id: ObjectId) -> (r: Vec<ObjectId>)
        ensures
            r@ == referrers_of(self.references@, id),
    {
        let ghost orig = self.references@;
        let ghost pred = points_at(id);
        let mut out: Vec<ObjectId> = Vec::new();
        let mut k: usize = 0;
        proof {
            reveal(Seq::filter);
            assert(orig.take(0) =~= Seq::<Reference>::empty());
            assert(out@ =~= orig.take(0).filter(pred).map_values(|r: Reference| r.from));
        }
        while k < self.references.len()
            invariant
                orig == self.references@,
                pred == points_at(id),
                k <= orig.len(),
                out@ == orig.take(k as int).filter(pred).map_values(|r: Reference| r.from),
            decreases orig.len() - k,
        {
            let r = self.references[k];
            proof {
                reveal(Seq::filter);
                let t = orig.take(k + 1);
                assert(t.drop_last() =~= orig.take(k as int));
                assert(t.last() == orig[k as int]);
                if pred(orig[k as int]) {
                    assert(t.filter(pred).map_values(|r: Reference| r.from) =~= orig.take(
                        k as int,
                    ).filter(pred).map_values(|r: Reference| r.from).push(orig[k as int].from));
                }
            }
            if r.to == id {
                out.push(r.from);
            }
            k = k + 1;
        }
        proof {
            assert(orig.take(orig.len() as int) =~= orig);
        }
        out
    }

    /// The ids of the objects that `id` holds a reference to, one entry per
    /// reference, in reference order.
    pub fn get_references(&self, id: ObjectId) -> (r: Vec<ObjectId>)
        ensures
            r@ == referents_of(self.references@, id),
    {
        let ghost orig = self.references@;
        let ghost pred = starts_at(id);
        let mut out: Vec<ObjectId> = Vec::new();
        let mut k: usize = 0;
        proof {
            reveal(Seq::filter);
            assert(orig.take(0) =~= Seq::<Reference>::empty());
            assert(out@ =~= orig.take(0).filter(pred).map_values(|r: Reference| r.to));
        }
        while k < self.references.len()
            invariant
                orig == self.references@,
                pred == starts_at(id),
                k <= orig.len(),
                out@ == orig.take(k as int).filter(pred).map_values(|r: Reference| r.to),
            decreases orig.len() - k,
        {
            let r = self.references[k];
            proof {
                reveal(Seq::filter);
                let t = orig.take(k + 1);
                assert(t.drop_last() =~= orig.take(k as int));
                assert(t.last() == orig[k as int]);
                if pred(orig[k as int]) {
                    assert(t.filter(pred).map_values(|r: Reference| r.to) =~= orig.take(
                        k as int,
                    ).filter(pred).map_values(|r: Reference| r.to).push(orig[k as int].to));
                }
            }
            if r.from == id {
                out.push(r.to);
            }
            k = k + 1;
        }
        proof {
            assert(orig.take(orig.len() as int) =~= orig);
        }
        out
    }

    /// The non-weak edges of the graph as id pairs, in reference order.
    fn nonweak_edge_pairs(&self) -> (pairs: Vec<(ObjectId, ObjectId)>)
        ensures
            pairs@ == nonweak_pairs(self.references@),
    {
        let ghost orig = self.references@;
        let ghost pred = (|r: Reference| r.reference_type != ReferenceType::Weak);
        let mut out: Vec<(ObjectId, ObjectId)> = Vec::new();
        let mut k: usize = 0;
        proof {
            reveal(Seq::filter);
            assert(orig.take(0) =~= Seq::<Reference>::empty());
            assert(out@ =~= orig.take(0).filter(pred).map_values(
                |r: Reference| (r.from, r.to),
            ));
        }
        while k < self.references.len()
            invariant
                orig == self.references@,
                pred == (|r: Reference| r.reference_type != ReferenceType::Weak),
                k <= orig.len(),
                out@ == orig.take(k as int).filter(pred).map_values(
                    |r: Reference| (r.from, r.to),
                ),
            decreases orig.len() - k,
        {
            let r = self.references[k];
            proof {
                reveal(Seq::filter);
                let t = orig.take(k + 1);
                assert(t.drop_last() =~= orig.take(k as int));
                assert(t.last() == orig[k as int]);
                if pred(orig[k as int]) {
                    assert(t.filter(pred).map_values(|r: Reference| (r.from, r.to)) =~= orig.take(
                        k as int,
                    ).filter(pred).map_values(|r: Reference| (r.from, r.to)).push(
                        (orig[k as int].from, orig[k as int].to),
                    ));
                }
            }
            if !(matches!(r.reference_type, ReferenceType::Weak)) {
                out.push((r.from, r.to));
            }
            k = k + 1;
        }
        proof {
            assert(orig.take(orig.len() as int) =~= orig);
        }
        out
    }

    /// Everything reachable from `roots` over the graph's direct and
    /// finalizer references; weak references are never followed.
    pub fn find_reachable(&self, roots: &Vec<ObjectId>) -> (r: Vec<ObjectId>)
        ensures
            r@.no_duplicates(),
            forall|x: ObjectId|
                r@.contains(x) <==> reaches(
                    pair_rel(nonweak_pairs(self.references@)),
                    roots@.to_set(),
                    x,
                ),
    {
        let pairs = self.nonweak_edge_pairs();
        reach_from(&pairs, roots)
    }

    /// The graph objects that `roots` cannot reach over non-weak references.
    pub fn find_unreachable(&self, roots: &Vec<ObjectId>) -> (r: Vec<ObjectId>)
        requires
            self.wf(),
        ensures
            forall|x: ObjectId|
                r@.contains(x) <==> self.ids().contains(x) && !reaches(
                    pair_rel(nonweak_pairs(self.references@)),
                    roots@.to_set(),
                    x,
                ),
    {
        let reachable = self.find_reachable(roots);
        let mut out: Vec<ObjectId> = Vec::new();
        let mut i: usize = 0;
        while i < self.objects.len()
            invariant
                i <= self.objects@.len(),
                forall|x: ObjectId|
                    out@.contains(x) <==> (exists|j: int|
                        0 <= j < i && (#[trigger] self.objects@[j]).id == x) && !reaches(
                        pair_rel(nonweak_pairs(self.references@)),
                        roots@.to_set(),
                        x,
                    ),
                reachable@.no_duplicates(),
                forall|x: ObjectId|
                    reachable@.contains(x) <==> reaches(
                        pair_rel(nonweak_pairs(self.references@)),
                        roots@.to_set(),
                        x,
                    ),
            decreases self.objects@.len() - i,
        {
            let id = self.objects[i].id;
            if !contains_id(&reachable, id) {
                if !contains_id(&out, id) {
                    out.push(id);
                }
            }
            i = i + 1;
        }
        proof {
            assert forall|x: ObjectId|
                out@.contains(x) <==> self.ids().contains(x) && !reaches(
                    pair_rel(nonweak_pairs(self.references@)),
                    roots@.to_set(),
                    x,
                ) by {
                if self.ids().contains(x) {
                    let j = choose|j: int| 0 <= j < self.ids().len() && self.ids()[j] == x;
                    assert(self.objects@[j].id == x);
                }
                if exists|j: int| 0 <= j < self.objects@.len() && (#[trigger] self.objects@[j]).id
                    == x {
                    let j = choose|j: int|
                        0 <= j < self.objects@.len() && (#[trigger] self.objects@[j]).id == x;
                    assert(self.ids()[j] == x);
                }
            }
        }
        out
    }

    /// Every reference as an id pair, in order.
    fn all_edge_pairs(&self) -> (pairs: Vec<(ObjectId, ObjectId)>)
        ensures
            forall|a: ObjectId, b: ObjectId|
                #[trigger] pair_rel(pairs@)(a, b) <==> ref_step(self.references@, a, b),
    {
        let refs = &self.references;
        let mut out: Vec<(ObjectId, ObjectId)> = Vec::new();
        let mut k: usize = 0;
        proof {
            assert forall|a: ObjectId, b: ObjectId| !(#[trigger] pair_rel(out@)(a, b)) by {
                if pair_rel(out@)(a, b) {
                    let kk = choose|kk: int|
                        0 <= kk < out@.len() && #[trigger] out@[kk].0 == a && out@[kk].1 == b;
                }
            }
        }
        while k < refs.len()
            invariant
                k <= refs@.len(),
                refs@ == self.references@,
                forall|a: ObjectId, b: ObjectId|
                    #[trigger] pair_rel(out@)(a, b) <==> ref_step(refs@.take(k as int), a, b),
            decreases refs@.len() - k,
        {
            let r = refs[k];
            let ghost oldout = out@;
            out.push((r.from, r.to));
            proof {
                let t = refs@.take(k + 1);
                assert forall|a: ObjectId, b: ObjectId|
                    #[trigger] pair_rel(out@)(a, b) <==> ref_step(t, a, b) by {
                    if pair_rel(out@)(a, b) {
                        let kk = choose|kk: int|
                            0 <= kk < out@.len() && #[trigger] out@[kk].0 == a && out@[kk].1
                                == b;
                        if kk < oldout.len() {
                            assert(oldout[kk].0 == a && oldout[kk].1 == b);
                            assert(pair_rel(oldout)(a, b));
                            let k2 = choose|k2: int|
                                0 <= k2 < refs@.take(k as int).len() && (#[trigger] refs@.take(
                                    k as int,
                                )[k2]).from == a && refs@.take(k as int)[k2].to == b;
                            assert(t[k2] == refs@.take(k as int)[k2]);
                            assert(ref_step(t, a, b));
                        } else {
                            assert(out@[kk] == (r.from, r.to));
                            assert(t[k as int] == refs@[k as int]);
                            assert(ref_step(t, a, b));
                        }
                    }
                    if ref_step(t, a, b) {
                        let kk = choose|kk: int|
                            0 <= kk < t.len() && (#[trigger] t[kk]).from == a && t[kk].to == b;
                        if kk < k {
                            assert(refs@.take(k as int)[kk] == t[kk]);
                            assert(ref_step(refs@.take(k as int), a, b));
                            assert(pair_rel(oldout)(a, b));
                            let k2 = choose|k2: int|
                                0 <= k2 < oldout.len() && #[trigger] oldout[k2].0 == a
                                    && oldout[k2].1 == b;
                            assert(out@[k2].0 == a && out@[k2].1 == b);
                            assert(pair_rel(out@)(a, b));
                        } else {
                            assert(t[kk] == refs@[k as int]);
                            assert(out@[out@.len() - 1].0 == a && out@[out@.len() - 1].1 == b);
                            assert(pair_rel(out@)(a, b));
                        }
                    }
                }
            }
            k = k + 1;
        }
        proof {
            assert(refs@.take(refs@.len() as int) =~= refs@);
        }
        out
    }

    /// Enumerates the cycles of the graph: for each object in turn that is
    /// not yet part of a reported group and that some walk of at least one
    /// reference leads back to, the group of everything mutually reachable
    /// with it is reported. Every kind of reference is followed. Each
    /// reported group is one strongly connected knot of the graph: its
    /// members all lie on cycles and all reach one another; every object
    /// on any cycle appears in exactly one group.
    pub fn detect_cycles(&self) -> (r: Vec<Vec<ObjectId>>)
        ensures
            forall|k: int| 0 <= k < r@.len() ==> (#[trigger] r@[k])@.len() >= 1,
            forall|k: int, i: int|
                0 <= k < r@.len() && 0 <= i < r@[k]@.len() ==> on_cycle(
                    self.references@,
                    #[trigger] r@[k]@[i],
                ),
            forall|k: int, i: int, j: int|
                #![trigger r@[k]@[i], r@[k]@[j]]
                0 <= k < r@.len() && 0 <= i < r@[k]@.len() && 0 <= j < r@[k]@.len() ==> reach_to(
                    self.references@,
                    r@[k]@[i],
                    r@[k]@[j],
                ),
            forall|k: int, i: int, y: ObjectId|
                #![trigger reach_to(self.references@, y, r@[k]@[i])]
                0 <= k < r@.len() && 0 <= i < r@[k]@.len() && reach_to(
                    self.references@,
                    y,
                    r@[k]@[i],
                ) && reach_to(self.references@, r@[k]@[i], y) ==> r@[k]@.contains(y),
            forall|k1: int, i1: int, k2: int, i2: int|
                #![trigger r@[k1]@[i1], r@[k2]@[i2]]
                0 <= k1 < r@.len() && 0 <= i1 < r@[k1]@.len() && 0 <= k2 < r@.len() && 0 <= i2
                    < r@[k2]@.len() && (k1 != k2 || i1 != i2) ==> r@[k1]@[i1] != r@[k2]@[i2],
            forall|x: ObjectId|
                self.ids().contains(x) && #[trigger] on_cycle(self.references@, x) ==> (exists|
                    k: int,
                    i: int,
                |
                    0 <= k < r@.len() && 0 <= i < r@[k]@.len() && (#[trigger] r@[k]@[i]) == x),
    {
        let ghost refs = self.references@;
        let pairs = self.all_edge_pairs();
        let ghost prel = pair_rel(pairs@);
        let mut cycles: Vec<Vec<ObjectId>> = Vec::new();
        let mut covered: Vec<ObjectId> = Vec::new();
        let ghost pivots: Seq<ObjectId> = Seq::empty();
        let mut pivots = Ghost(pivots);
        let mut s: usize = 0;
        while s < self.objects.len()
            invariant
                refs == self.references@,
                prel == pair_rel(pairs@),
                forall|a: ObjectId, b: ObjectId| #[trigger] prel(a, b) <==> ref_step(refs, a, b),
                s <= self.objects@.len(),
                pivots@.len() == cycles@.len(),
                forall|k: int| 0 <= k < cycles@.len() ==> (#[trigger] cycles@[k])@.len() >= 1,
                forall|k: int|
                    0 <= k < cycles@.len() ==> (#[trigger] cycles@[k])@.no_duplicates(),
                forall|k: int|
                    0 <= k < cycles@.len() ==> on_cycle(refs, #[trigger] pivots@[k]),
                forall|k: int, u: ObjectId|
                    0 <= k < cycles@.len() ==> ((#[trigger] cycles@[k]@.contains(u)) <==> reach_to(
                        refs,
                        pivots@[k],
                        u,
                    ) && reach_to(refs, u, pivots@[k])),
                forall|x: ObjectId|
                    #[trigger] covered@.contains(x) <==> (exists|k: int, i: int|
                        0 <= k < cycles@.len() && 0 <= i < cycles@[k]@.len() && (
                        #[trigger] cycles@[k]@[i]) == x),
                forall|k1: int, k2: int|
                    0 <= k1 < k2 < cycles@.len() ==> !(#[trigger] cycles@[k1])@.contains(
                        #[trigger] pivots@[k2],
                    ),
                forall|j: int|
                    0 <= j < s ==> (on_cycle(refs, (#[trigger] self.objects@[j]).id)
                        ==> covered@.contains(self.objects@[j].id)),
            decreases self.objects@.len() - s,
        {
            let v = self.objects[s].id;
            if !contains_id(&covered, v) {
                let succs = successors_of(&self.references, v);
                let rv = reach_from(&pairs, &succs);
                let v_on_cycle = contains_id(&rv, v);
                proof {
                    assert(succs@.to_set() =~= successor_set(refs, v));
                    if rv@.contains(v) {
                        lemma_reaches_equiv(prel, any_ref_rel(refs), succs@.to_set(), v);
                        assert(on_cycle(refs, v));
                    }
                    if on_cycle(refs, v) {
                        lemma_reaches_equiv(any_ref_rel(refs), prel, successor_set(refs, v), v);
                        assert(rv@.contains(v));
                    }
                }
                if v_on_cycle {
                    let mut root_v: Vec<ObjectId> = Vec::new();
                    root_v.push(v);
                    let rv2 = reach_from(&pairs, &root_v);
                    proof {
                        assert(root_v@.to_set() =~= Set::new(|z: ObjectId| z == v));
                        assert forall|u: ObjectId|
                            #[trigger] rv2@.contains(u) <==> reach_to(refs, v, u) by {
                            if rv2@.contains(u) {
                                lemma_reaches_equiv(prel, any_ref_rel(refs), root_v@.to_set(), u);
                            }
                            if reach_to(refs, v, u) {
                                lemma_reaches_equiv(
                                    any_ref_rel(refs),
                                    prel,
                                    Set::new(|z: ObjectId| z == v),
                                    u,
                                );
                            }
                        }
                    }
                    let mut group: Vec<ObjectId> = Vec::new();
                    let mut j: usize = 0;
                    while j < rv2.len()
                        invariant
                            refs == self.references@,
                            prel == pair_rel(pairs@),
                            forall|a: ObjectId, b: ObjectId|
                                #[trigger] prel(a, b) <==> ref_step(refs, a, b),
                            j <= rv2@.len(),
                            rv2@.no_duplicates(),
                            forall|u: ObjectId|
                                #[trigger] rv2@.contains(u) <==> reach_to(refs, v, u),
                            group@.no_duplicates(),
                            forall|u: ObjectId|
                                #[trigger] group@.contains(u) <==> rv2@.take(j as int).contains(
                                    u,
                                ) && reach_to(refs, u, v),
                        decreases rv2@.len() - j,
                    {
                        let u = rv2[j];
                        let mut root_u: Vec<ObjectId> = Vec::new();
                        root_u.push(u);
                        let ru = reach_from(&pairs, &root_u);
                        let back = contains_id(&ru, v);
                        proof {
                            assert(root_u@.to_set() =~= Set::new(|z: ObjectId| z == u));
                            if ru@.contains(v) {
                                lemma_reaches_equiv(prel, any_ref_rel(refs), root_u@.to_set(), v);
                                assert(reach_to(refs, u, v));
                            }
                            if reach_to(refs, u, v) {
                                lemma_reaches_equiv(
                                    any_ref_rel(refs),
                                    prel,
                                    Set::new(|z: ObjectId| z == u),
                                    v,
                                );
                                assert(ru@.contains(v));
                            }
                        }
                        let ghost oldgroup = group@;
                        if back {
                            proof {
                                if group@.contains(u) {
                                    let idx = choose|idx: int|
                                        0 <= idx < rv2@.take(j as int).len() && rv2@.take(
                                            j as int,
                                        )[idx] == u;
                                    assert(rv2@[idx] == u);
                                    assert(rv2@[j as int] == u);
                                    assert(false);
                                }
                            }
                            group.push(u);
                        }
                        proof {
                            assert(rv2@.take(j + 1).drop_last() =~= rv2@.take(j as int));
                            assert forall|u2: ObjectId|
                                #[trigger] group@.contains(u2) <==> rv2@.take(j + 1).contains(
                                    u2,
                                ) && reach_to(refs, u2, v) by {
                                assert(rv2@.take(j + 1)[j as int] == rv2@[j as int]);
                                if group@.contains(u2) {
                                    if oldgroup.contains(u2) {
                                        let idx = choose|idx: int|
                                            0 <= idx < rv2@.take(j as int).len() && (
                                            #[trigger] rv2@.take(j as int)[idx]) == u2;
                                        assert(rv2@.take(j + 1)[idx] == u2);
                                    } else {
                                        assert(u2 == u);
                                    }
                                }
                                if rv2@.take(j + 1).contains(u2) && reach_to(refs, u2, v) {
                                    let idx = choose|idx: int|
                                        0 <= idx < rv2@.take(j + 1).len() && (#[trigger] rv2@.take(
                                            j + 1,
                                        )[idx]) == u2;
                                    if idx < j {
                                        assert(rv2@.take(j as int)[idx] == u2);
                                        assert(oldgroup.contains(u2));
                                    } else {
                                        assert(u2 == u);
                                    }
                                }
                            }
                        }
                        j = j + 1;
                    }
                    proof {
                        assert(rv2@.take(rv2@.len() as int) =~= rv2@);
                        // The pivot belongs to its own group.
                        crate::traversal::lemma_reaches_root(
                            any_ref_rel(refs),
                            Set::new(|z: ObjectId| z == v),
                            v,
                        );
                        assert(reach_to(refs, v, v));
                        assert(rv2@.contains(v));
                        assert(group@.contains(v));
                        assert(group@.len() >= 1) by {
                            let idx = choose|idx: int|
                                0 <= idx < group@.len() && group@[idx] == v;
                        }
                    }
                    let ghost newgroup = group@;
                    let mut ci: usize = 0;
                    let ghost oldcovered = covered@;
                    while ci < group.len()
                        invariant
                            ci <= group@.len(),
                            group@ == newgroup,
                            forall|x: ObjectId|
                                #[trigger] covered@.contains(x) <==> oldcovered.contains(x)
                                    || newgroup.take(ci as int).contains(x),
                        decreases group@.len() - ci,
                    {
                        let ghost oldc = covered@;
                        covered.push(group[ci]);
                        proof {
                            assert(newgroup.take(ci + 1).drop_last() =~= newgroup.take(
                                ci as int,
                            ));
                            assert forall|x: ObjectId|
                                #[trigger] covered@.contains(x) <==> oldcovered.contains(x)
                                    || newgroup.take(ci + 1).contains(x) by {
                                assert(newgroup.take(ci + 1)[ci as int] == newgroup[ci as int]);
                                if covered@.contains(x) && !oldc.contains(x) {
                                    assert(x == newgroup[ci as int]);
                                }
                                if newgroup.take(ci + 1).contains(x) {
                                    let idx = choose|idx: int|
                                        0 <= idx < newgroup.take(ci + 1).len() && (
                                        #[trigger] newgroup.take(ci + 1)[idx]) == x;
                                    if idx < ci {
                                        assert(newgroup.take(ci as int)[idx] == x);
                                    } else {
                                        assert(x == newgroup[ci as int]);
                                    }
                                }
                            }
                        }
                        ci = ci + 1;
                    }
                    proof {
                        assert(newgroup.take(newgroup.len() as int) =~= newgroup);
                    }
                    let ghost oldcycles = cycles@;
                    let ghost oldpivots = pivots@;
                    cycles.push(group);
                    pivots = Ghost(pivots@.push(v));
                    proof {
                        let nk = oldcycles.len() as int;
                        assert(cycles@[nk]@ == newgroup);
                        assert forall|k: int|
                            0 <= k < oldcycles.len() implies (#[trigger] cycles@[k])
                            == oldcycles[k] && pivots@[k] == oldpivots[k] by {}
                        // The new pivot was in no earlier group, else it would
                        // already be covered.
                        assert forall|k1: int, k2: int|
                            0 <= k1 < k2 < cycles@.len() implies !(
                        #[trigger] cycles@[k1])@.contains(#[trigger] pivots@[k2]) by {
                            if k2 < oldcycles.len() {
                                assert(!(oldcycles[k1])@.contains(oldpivots[k2]));
                            } else {
                                assert(pivots@[k2] == v);
                                if cycles@[k1]@.contains(v) {
                                    let idx = choose|idx: int|
                                        0 <= idx < oldcycles[k1]@.len() && oldcycles[k1]@[idx]
                                            == v;
                                    assert(oldcovered.contains(v));
                                    assert(false);
                                }
                            }
                        }
                        assert forall|x: ObjectId|
                            #[trigger] covered@.contains(x) <==> (exists|k: int, i: int|
                                0 <= k < cycles@.len() && 0 <= i < cycles@[k]@.len() && (
                                #[trigger] cycles@[k]@[i]) == x) by {
                            if covered@.contains(x) {
                                if oldcovered.contains(x) {
                                    let (k, i) = choose|k: int, i: int|
                                        0 <= k < oldcycles.len() && 0 <= i < oldcycles[k]@.len()
                                            && (#[trigger] oldcycles[k]@[i]) == x;
                                    assert(cycles@[k]@[i] == x);
                                } else {
                                    assert(newgroup.contains(x));
                                    let i = choose|i: int|
                                        0 <= i < newgroup.len() && newgroup[i] == x;
                                    assert(cycles@[nk]@[i] == x);
                                }
                            }
                            if exists|k: int, i: int|
                                0 <= k < cycles@.len() && 0 <= i < cycles@[k]@.len() && (
                                #[trigger] cycles@[k]@[i]) == x {
                                let (k, i) = choose|k: int, i: int|
                                    0 <= k < cycles@.len() && 0 <= i < cycles@[k]@.len() && (
                                    #[trigger] cycles@[k]@[i]) == x;
                                if k < oldcycles.len() {
                                    assert(oldcycles[k]@[i] == x);
                                    assert(oldcovered.contains(x));
                                } else {
                                    assert(newgroup[i] == x);
                                    assert(newgroup.contains(x));
                                }
                            }
                        }
                    }
                } else {
                }
            }
            s = s + 1;
        }
        proof {
            let r = cycles@;
            assert forall|k: int, i: int|
                0 <= k < r.len() && 0 <= i < r[k]@.len() implies on_cycle(
                refs,
                #[trigger] r[k]@[i],
            ) by {
                assert(r[k]@.contains(r[k]@[i]));
                lemma_mutual_reach_on_cycle(refs, r[k]@[i], pivots@[k]);
            }
            assert forall|k: int, i: int, j: int|
                #![trigger r[k]@[i], r[k]@[j]]
                0 <= k < r.len() && 0 <= i < r[k]@.len() && 0 <= j < r[k]@.len() implies reach_to(
                refs,
                r[k]@[i],
                r[k]@[j],
            ) by {
                assert(r[k]@.contains(r[k]@[i]));
                assert(r[k]@.contains(r[k]@[j]));
                lemma_reaches_trans(
                    any_ref_rel(refs),
                    Set::new(|z: ObjectId| z == r[k]@[i]),
                    pivots@[k],
                    r[k]@[j],
                );
            }
            assert forall|k: int, i: int, y: ObjectId|
                #![trigger reach_to(refs, y, r[k]@[i])]
                0 <= k < r.len() && 0 <= i < r[k]@.len() && reach_to(refs, y, r[k]@[i])
                    && reach_to(refs, r[k]@[i], y) implies r[k]@.contains(y) by {
                assert(r[k]@.contains(r[k]@[i]));
                lemma_reaches_trans(
                    any_ref_rel(refs),
                    Set::new(|z: ObjectId| z == y),
                    r[k]@[i],
                    pivots@[k],
                );
                lemma_reaches_trans(
                    any_ref_rel(refs),
                    Set::new(|z: ObjectId| z == pivots@[k]),
                    r[k]@[i],
                    y,
                );
            }
            assert forall|k1: int, i1: int, k2: int, i2: int|
                #![trigger r[k1]@[i1], r[k2]@[i2]]
                0 <= k1 < r.len() && 0 <= i1 < r[k1]@.len() && 0 <= k2 < r.len() && 0 <= i2
                    < r[k2]@.len() && (k1 != k2 || i1 != i2) implies r[k1]@[i1] != r[k2]@[i2] by {
                if r[k1]@[i1] == r[k2]@[i2] {
                    let x = r[k1]@[i1];
                    if k1 == k2 {
                        assert(r[k1]@.no_duplicates());
                        assert(false);
                    } else {
                        assert(r[k1]@.contains(x));
                        assert(r[k2]@.contains(x));
                        let (ka, kb) = if k1 < k2 {
                            (k1, k2)
                        } else {
                            (k2, k1)
                        };
                        lemma_reaches_trans(
                            any_ref_rel(refs),
                            Set::new(|z: ObjectId| z == pivots@[kb]),
                            x,
                            pivots@[ka],
                        );
                        lemma_reaches_trans(
                            any_ref_rel(refs),
                            Set::new(|z: ObjectId| z == pivots@[ka]),
                            x,
                            pivots@[kb],
                        );
                        assert(r[ka]@.contains(pivots@[kb]));
                        assert(false);
                    }
                }
            }
            assert forall|x: ObjectId|
                self.ids().contains(x) && #[trigger] on_cycle(refs, x) implies (exists|
                k: int,
                i: int,
            |
                0 <= k < r.len() && 0 <= i < r[k]@.len() && (#[trigger] r[k]@[i]) == x) by {
                let j = choose|j: int| 0 <= j < self.ids().len() && self.ids()[j] == x;
                assert(self.objects@[j].id == x);
                assert(covered@.contains(x));
            }
        }
        cycles
    }

    pub fn object_count(&self) -> (r: usize)
        ensures
            r == self.objects@.len(),
    {
        self.objects.len()
    }

    pub fn reference_count(&self) -> (r: usize)
        ensures
            r == self.references@.len(),
    {
        self.references.len()
    }

    pub fn is_empty(&self) -> (r: bool)
        ensures
            r == (self.objects@.len() == 0),
    {
        self.objects.len() == 0
    }

    /// Forgets every object and reference.
    pub fn clear(&mut self)
        ensures
            final(self).wf(),
            final(self).objects@ == Seq::<PyObject>::empty(),
            final(self).references@ == Seq::<Reference>::empty(),
    {
        self.objects.clear();
        self.references.clear();
        proof {
            assert(final(self).ids() =~= Seq::<ObjectId>::empty());
        }
    }

    /// A view of the object with identity `id`, if the graph holds one.
    pub fn get_object(&self, id: ObjectId) -> (r: Option<&PyObject>)
        requires
            self.wf(),
        ensures
            (r is Some) == self.ids().contains(id),
            r matches Some(o) ==> o.id == id && self.objects@.contains(*o),
    {
        match find_object(&self.objects, id) {
            Some(i) => {
                proof {
                    assert(self.ids()[i as int] == id);
                    assert(self.objects@.contains(self.objects@[i as int]));
                }
                Some(&self.objects[i])
            },
            None => {
                proof {
                    if self.ids().contains(id) {
                        let j = choose|j: int| 0 <= j < self.ids().len() && self.ids()[j] == id;
                        assert(self.objects@[j].id == id);
                    }
                }
                None
            },
        }
    }

    /// A view of every object in the graph.
    pub fn get_all_objects(&self) -> (r: &Vec<PyObject>)
        ensures
            r@ == self.objects@,
    {
        &self.objects
    }
}

} // verus!

