//! Object identities and the per-object collector header.

use vstd::prelude::*;

verus! {

/// A process-wide identity for a tracked object: a non-zero integer that is
/// never reused. Equality and hashing are identity.
#[derive(Debug, Clone, Copy, PartialEq, Eq, Hash, Structural)]
pub struct ObjectId(pub usize);

impl ObjectId {
    /// The raw integer value of this identity.
    pub fn as_usize(&self) -> (r: usize)
        ensures
            r == self.0,
    {
        self.0
    }
}

/// Hands out fresh object identities: a monotonically increasing counter
/// starting at 1, so every identity it produces is non-zero and distinct
/// from every identity it produced before.
#[derive(Debug)]
pub struct IdSource {
    /// The next identity to hand out; strictly greater than every identity
    /// handed out so far.
    pub next: usize,
}

impl IdSource {
    /// True of every well-formed source: the counter never sits at zero.
    pub open spec fn wf(self) -> bool {
        self.next >= 1
    }

    pub fn new() -> (r: IdSource)
        ensures
            r.wf(),
            r.next == 1,
    {
        IdSource { next: 1 }
    }

    /// Produces a fresh identity. The identity equals the counter before the
    /// call, and the counter strictly increases, so identities from one
    /// source are pairwise distinct and never zero.
    pub fn fresh(&mut self) -> (r: ObjectId)
        requires
            old(self).wf(),
            old(self).next < usize::MAX,
        ensures
            final(self).wf(),
            r.0 == old(self).next,
            r.0 >= 1,
            final(self).next == old(self).next + 1,
    {
        let id = ObjectId(self.next);
        self.next = self.next + 1;
        id
    }
}

/// Identities produced at different points of one source's history are
/// distinct: whatever was handed out while the counter stood lower can never
/// equal what a later call hands out.
pub proof fn lemma_object_ids_unique(a: ObjectId, b: ObjectId, na: int, nb: int)
    requires
        a.0 == na,
        b.0 == nb,
        na < nb,
    ensures
        a != b,
{
}

/// The position of the first occurrence of `id` in `v`, if any.
pub fn find_id(v: &Vec<ObjectId>, id: ObjectId) -> (r: Option<usize>)
    ensures
        match r {
            Some(i) => i < v@.len() && v@[i as int] == id,
            None => !v@.contains(id),
        },
{
    let mut i: usize = 0;
    while i < v.len()
        invariant
            i <= v@.len(),
            forall|j: int| 0 <= j < i ==> v@[j] != id,
        decreases v@.len() - i,
    {
        if v[i] == id {
            return Some(i);
        }
        i = i + 1;
    }
    None
}

/// Whether `v` holds `id`.
pub fn contains_id(v: &Vec<ObjectId>, id: ObjectId) -> (r: bool)
    ensures
        r == v@.contains(id),
{
    match find_id(v, id) {
        Some(_) => true,
        None => false,
    }
}

/// The per-object collector header: the shadow reference counter used during
/// a collection pass, the intrusive list link words, and the collection-time
/// flag bits. The low bits of the `prev` link word mirror the `collecting`
/// and `finalized` flags; the link words are non-zero exactly while the
/// object is threaded into a generation list.
#[derive(Debug, Clone)]
pub struct PyGCHead {
    /// Forward intrusive list link word; non-zero while tracked.
    pub _gc_next: usize,
    /// Backward intrusive list link word; its low two bits mirror the
    /// `finalized` (bit 0) and `collecting` (bit 1) flags.
    pub _gc_prev: usize,
    /// The shadow reference count, meaningful only during a collection pass.
    pub gc_refs: isize,
    /// Set while the object belongs to the active collection set.
    pub collecting: bool,
    /// Set once the object's finalizer has run; never cleared.
    pub finalized: bool,
}

impl PyGCHead {
    pub fn new() -> (r: PyGCHead)
        ensures
            r._gc_next == 0,
            r._gc_prev == 0,
            r.gc_refs == 0,
            !r.collecting,
            !r.finalized,
    {
        PyGCHead { _gc_next: 0, _gc_prev: 0, gc_refs: 0, collecting: false, finalized: false }
    }

    pub fn get_refs(&self) -> (r: isize)
        ensures
            r == self.gc_refs,
    {
        self.gc_refs
    }

    pub fn set_refs(&mut self, refs: isize)
        ensures
            *final(self) == (PyGCHead { gc_refs: refs, ..*old(self) }),
    {
        self.gc_refs = refs;
    }

    pub fn set_collecting(&mut self)
        ensures
            *final(self) == (PyGCHead {
                collecting: true,
                _gc_prev: old(self)._gc_prev | 2,
                ..*old(self)
            }),
    {
        self.collecting = true;
        self._gc_prev = self._gc_prev | 2;
    }

    pub fn clear_collecting(&mut self)
        ensures
            *final(self) == (PyGCHead {
                collecting: false,
                _gc_prev: old(self)._gc_prev & !2,
                ..*old(self)
            }),
    {
        self.collecting = false;
        self._gc_prev = self._gc_prev & !2;
    }

    pub fn is_collecting(&self) -> (r: bool)
        ensures
            r == self.collecting,
    {
        self.collecting
    }

    pub fn set_finalized(&mut self)
        ensures
            *final(self) == (PyGCHead {
                finalized: true,
                _gc_prev: old(self)._gc_prev | 1,
                ..*old(self)
            }),
    {
        self.finalized = true;
        self._gc_prev = self._gc_prev | 1;
    }

    pub fn is_finalized(&self) -> (r: bool)
        ensures
            r == self.finalized,
    {
        self.finalized
    }

    /// An object is threaded into some generation's list exactly while its
    /// forward link word is non-zero.
    pub fn is_tracked(&self) -> (r: bool)
        ensures
            r == (self._gc_next != 0),
    {
        self._gc_next != 0
    }
}

impl Default for PyGCHead {
    fn default() -> (r: PyGCHead)
        ensures
            r._gc_next == 0,
            r._gc_prev == 0,
            r.gc_refs == 0,
            !r.collecting,
            !r.finalized,
    {
        PyGCHead::new()
    }
}

/// The payload of an object: a tagged value. Only the container variants
/// carry child object ids, which is what the collector traverses.
#[derive(Debug, Clone)]
pub enum ObjectData {
    /// A plain integer; no children.
    Integer(i64),
    /// A text value; no children.
    Text(String),
    /// An ordered sequence of child object ids.
    List(Vec<ObjectId>),
    /// A mapping; each entry contributes its key id and its value id.
    Dict(Vec<(ObjectId, ObjectId)>),
    /// A fixed sequence of child object ids.
    Tuple(Vec<ObjectId>),
    /// An unordered collection of child object ids.
    IdSet(Vec<ObjectId>),
    /// An opaque foreign value, carried as a raw handle; no children.
    Foreign(usize),
    /// No payload at all.
    Absent,
}

/// The child ids a mapping payload yields: for each entry in order, the key
/// id and then the value id.
pub open spec fn dict_child_ids(pairs: Seq<(ObjectId, ObjectId)>) -> Seq<ObjectId>
    decreases pairs.len(),
{
    if pairs.len() == 0 {
        Seq::empty()
    } else {
        dict_child_ids(pairs.drop_last()).push(pairs.last().0).push(pairs.last().1)
    }
}

/// The child ids an object's payload yields under traversal: scalars,
/// foreign values and absent payloads yield nothing; sequences and sets
/// yield their elements in order; mappings yield key then value per entry.
pub open spec fn child_ids(data: ObjectData) -> Seq<ObjectId> {
    match data {
        ObjectData::Integer(_) => Seq::empty(),
        ObjectData::Text(_) => Seq::empty(),
        ObjectData::List(v) => v@,
        ObjectData::Dict(pairs) => dict_child_ids(pairs@),
        ObjectData::Tuple(v) => v@,
        ObjectData::IdSet(v) => v@,
        ObjectData::Foreign(_) => Seq::empty(),
        ObjectData::Absent => Seq::empty(),
    }
}

/// The per-tracked-object record owned by the collector: identity, the
/// host-maintained reference count, the collector header, and the payload.
#[derive(Debug, Clone)]
pub struct PyObject {
    /// The process-wide identity of this object.
    pub id: ObjectId,
    /// Whether the object currently belongs to some generation.
    pub gc_tracked: bool,
    /// Static property of the object's type: it has a finalizer that has to
    /// run before the memory may be reused.
    pub has_finalizer: bool,
    /// The true reference count, maintained by the host.
    pub refcount: usize,
    /// The collector header holding the shadow count and flag bits.
    pub gc_head: PyGCHead,
    /// An opaque name identifying the object's type.
    pub type_tag: String,
    /// The tagged payload.
    pub data: ObjectData,
}

impl PyObject {
    /// Well-formedness: the identity is non-zero, and the reference count
    /// always fits the signed shadow counter, which must be wide enough to
    /// briefly hold it during a pass.
    pub open spec fn wf(self) -> bool {
        self.id.0 >= 1 && self.refcount <= isize::MAX
    }

    /// A freshly created object: identity drawn from `ids`, reference count
    /// one, not tracked, no finalizer, header cleared.
    pub fn new(ids: &mut IdSource, type_tag: String, data: ObjectData) -> (r: PyObject)
        requires
            old(ids).wf(),
            old(ids).next < usize::MAX,
        ensures
            final(ids).wf(),
            final(ids).next == old(ids).next + 1,
            r.id.0 == old(ids).next,
            r.id.0 >= 1,
            r.refcount == 1,
            !r.gc_tracked,
            !r.has_finalizer,
            !r.gc_head.collecting,
            !r.gc_head.finalized,
            r.gc_head._gc_next == 0,
            r.gc_head.gc_refs == 0,
            r.type_tag == type_tag,
            r.data == data,
            r.wf(),
    {
        PyObject {
            id: ids.fresh(),
            gc_tracked: false,
            has_finalizer: false,
            refcount: 1,
            gc_head: PyGCHead::new(),
            type_tag,
            data,
        }
    }

    /// Like `new`, but for a type whose instances carry a finalizer.
    pub fn new_with_finalizer(ids: &mut IdSource, type_tag: String, data: ObjectData) -> (r:
        PyObject)
        requires
            old(ids).wf(),
            old(ids).next < usize::MAX,
        ensures
            final(ids).wf(),
            final(ids).next == old(ids).next + 1,
            r.id.0 == old(ids).next,
            r.id.0 >= 1,
            r.refcount == 1,
            !r.gc_tracked,
            r.has_finalizer,
            !r.gc_head.collecting,
            !r.gc_head.finalized,
            r.gc_head._gc_next == 0,
            r.type_tag == type_tag,
            r.data == data,
            r.wf(),
    {
        PyObject {
            id: ids.fresh(),
            gc_tracked: false,
            has_finalizer: true,
            refcount: 1,
            gc_head: PyGCHead::new(),
            type_tag,
            data,
        }
    }

    pub fn get_refcount(&self) -> (r: usize)
        ensures
            r == self.refcount,
    {
        self.refcount
    }

    /// Records one more host-side reference; returns the new count.
    pub fn incref(&mut self) -> (r: usize)
        requires
            old(self).wf(),
            old(self).refcount < isize::MAX,
        ensures
            final(self).refcount == old(self).refcount + 1,
            r == final(self).refcount,
            *final(self) == (PyObject { refcount: final(self).refcount, ..*old(self) }),
            final(self).wf(),
    {
        self.refcount = self.refcount + 1;
        self.refcount
    }

    /// Records one dropped host-side reference; returns the new count.
    /// A count already at zero would be a fatal invariant violation, so it
    /// is excluded outright.
    pub fn decref(&mut self) -> (r: usize)
        requires
            old(self).refcount >= 1,
        ensures
            final(self).refcount == old(self).refcount - 1,
            r == final(self).refcount,
            *final(self) == (PyObject { refcount: final(self).refcount, ..*old(self) }),
    {
        self.refcount = self.refcount - 1;
        self.refcount
    }

    /// Whether the payload can hold references to other objects, which is
    /// what makes tracking worthwhile.
    pub fn should_track(&self) -> (r: bool)
        ensures
            r == (self.data matches ObjectData::List(_) || self.data matches ObjectData::Dict(_)
                || self.data matches ObjectData::Tuple(_) || self.data matches ObjectData::IdSet(
                _,
            ) || self.data matches ObjectData::Foreign(_)),
    {
        match &self.data {
            ObjectData::List(_) => true,
            ObjectData::Dict(_) => true,
            ObjectData::Tuple(_) => true,
            ObjectData::IdSet(_) => true,
            ObjectData::Foreign(_) => true,
            _ => false,
        }
    }

    /// Marks or unmarks the object as carrying a finalizer. Only allowed
    /// outside an active collection pass.
    pub fn set_finalizer(&mut self, has_finalizer: bool)
        requires
            !old(self).gc_head.collecting,
        ensures
            *final(self) == (PyObject { has_finalizer, ..*old(self) }),
    {
        self.has_finalizer = has_finalizer;
    }

    /// The approximate payload size in bytes, counting eight bytes per id
    /// entry; saturates instead of overflowing.
    pub fn get_size(&self) -> (r: usize)
        ensures
            r == spec_payload_size(self.data),
    {
        match &self.data {
            ObjectData::Integer(_) => 8,
            ObjectData::Text(s) => s.as_str().unicode_len(),
            ObjectData::List(l) => saturating_times_eight(l.len()),
            ObjectData::Dict(d) => saturating_times_sixteen(d.len()),
            ObjectData::Tuple(t) => saturating_times_eight(t.len()),
            ObjectData::IdSet(s) => saturating_times_eight(s.len()),
            ObjectData::Foreign(_) => 8,
            ObjectData::Absent => 0,
        }
    }
}

/// The size `get_size` reports for each payload.
pub open spec fn spec_payload_size(data: ObjectData) -> usize {
    match data {
        ObjectData::Integer(_) => 8usize,
        ObjectData::Text(s) => s@.len() as usize,
        ObjectData::List(l) => spec_saturating_mul(l@.len() as int, 8),
        ObjectData::Dict(d) => spec_saturating_mul(d@.len() as int, 16),
        ObjectData::Tuple(t) => spec_saturating_mul(t@.len() as int, 8),
        ObjectData::IdSet(s) => spec_saturating_mul(s@.len() as int, 8),
        ObjectData::Foreign(_) => 8usize,
        ObjectData::Absent => 0usize,
    }
}

/// A product clipped to the largest machine word.
pub open spec fn spec_saturating_mul(n: int, k: int) -> usize {
    if n * k > usize::MAX {
        usize::MAX
    } else {
        (n * k) as usize
    }
}

fn saturating_times_eight(n: usize) -> (r: usize)
    ensures
        r == spec_saturating_mul(n as int, 8),
{
    if n > usize::MAX / 8 {
        assert(n * 8 > usize::MAX) by (nonlinear_arith)
            requires
                n > usize::MAX / 8,
        ;
        usize::MAX
    } else {
        assert(n * 8 <= usize::MAX) by (nonlinear_arith)
            requires
                n <= usize::MAX / 8,
        ;
        n * 8
    }
}

fn saturating_times_sixteen(n: usize) -> (r: usize)
    ensures
        r == spec_saturating_mul(n as int, 16),
{
    if n > usize::MAX / 16 {
        assert(n * 16 > usize::MAX) by (nonlinear_arith)
            requires
                n > usize::MAX / 16,
        ;
        usize::MAX
    } else {
        assert(n * 16 <= usize::MAX) by (nonlinear_arith)
            requires
                n <= usize::MAX / 16,
        ;
        n * 16
    }
}

} // verus!
