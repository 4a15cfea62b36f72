use pygc::error::GCError;
use pygc::object::{IdSource, ObjectData, PyObject};
use pygc::GarbageCollector;

fn plain(ids: &mut IdSource, name: &str) -> PyObject {
    PyObject::new(ids, name.to_string(), ObjectData::Integer(42))
}

#[test]
fn test_gc_creation() {
    let gc = GarbageCollector::new();
    assert!(gc.is_enabled());
    assert_eq!(gc.get_count(), 0);
}

#[test]
fn test_object_tracking() {
    let mut ids = IdSource::new();
    let mut gc = GarbageCollector::new();

    let obj = PyObject::new(&mut ids, "test".to_string(), ObjectData::Integer(42));
    let obj_id = obj.id;

    assert!(gc.track(obj).is_ok());
    assert_eq!(gc.get_count(), 1);

    assert!(gc.untrack(&obj_id).is_ok());
    assert_eq!(gc.get_count(), 0);
}

#[test]
fn test_generation_thresholds() {
    let mut gc = GarbageCollector::new();

    assert_eq!(gc.get_threshold(0), Some(700));
    assert_eq!(gc.get_threshold(1), Some(10));
    assert_eq!(gc.get_threshold(2), Some(10));

    assert!(gc.set_threshold(0, 1000).is_ok());
    assert_eq!(gc.get_threshold(0), Some(1000));
}

#[test]
fn test_collection() {
    let mut gc = GarbageCollector::new();

    assert!(gc.collect().is_ok());
    assert_eq!(gc.get_count(), 0);
}

#[test]
fn test_gc_enable_disable() {
    let mut gc = GarbageCollector::new();

    gc.disable();
    assert!(!gc.is_enabled());

    gc.enable();
    assert!(gc.is_enabled());
}

#[test]
fn test_gc_collection() {
    let mut gc = GarbageCollector::new();

    let result = gc.collect();
    assert!(result.is_ok());
    assert_eq!(result.unwrap(), 0);
}

#[test]
fn test_finalizer_behavior() {
    let mut ids = IdSource::new();
    let mut gc = GarbageCollector::new();

    let obj1 = PyObject::new(&mut ids, "regular_obj".to_string(), ObjectData::Integer(42));
    let obj1_id = obj1.id;
    assert!(gc.track(obj1).is_ok());

    assert!(!gc.has_finalizer(&obj1_id));
    assert!(gc.set_finalizer(&obj1_id, true).is_ok());
    assert!(gc.has_finalizer(&obj1_id));

    let obj2 = PyObject::new_with_finalizer(
        &mut ids,
        "finalizer_obj".to_string(),
        ObjectData::Text("test".to_string()),
    );
    let obj2_id = obj2.id;
    assert!(gc.track(obj2).is_ok());

    assert!(gc.has_finalizer(&obj2_id));
}

#[test]
fn simple_cycle_reclaimed() {
    let mut ids = IdSource::new();
    let mut gc = GarbageCollector::new();

    let a = plain(&mut ids, "a");
    let b = plain(&mut ids, "b");
    let a_id = a.id;
    let b_id = b.id;
    assert_eq!(a.get_refcount(), 1);
    assert_eq!(b.get_refcount(), 1);

    gc.track(a).unwrap();
    gc.track(b).unwrap();
    gc.add_reference(a_id, b_id).unwrap();
    gc.add_reference(b_id, a_id).unwrap();

    assert_eq!(gc.collect().unwrap(), 2);
    assert_eq!(gc.get_count(), 0);
}

#[test]
fn cycle_kept_alive_by_external_ref() {
    let mut ids = IdSource::new();
    let mut gc = GarbageCollector::new();

    let mut a = plain(&mut ids, "a");
    let b = plain(&mut ids, "b");
    // An untracked host-side root holds `a`, so its count is two: one for
    // the cycle edge, one for the root.
    a.incref();
    assert_eq!(a.get_refcount(), 2);
    let a_id = a.id;
    let b_id = b.id;

    gc.track(a).unwrap();
    gc.track(b).unwrap();
    gc.add_reference(a_id, b_id).unwrap();
    gc.add_reference(b_id, a_id).unwrap();

    assert_eq!(gc.collect().unwrap(), 0);
    assert_eq!(gc.get_count(), 2);
    assert!(gc.is_tracked(&a_id));
    assert!(gc.is_tracked(&b_id));
}

#[test]
fn cycle_containing_finalizer_is_quarantined() {
    let mut ids = IdSource::new();
    let mut gc = GarbageCollector::new();

    let a = PyObject::new_with_finalizer(&mut ids, "a".to_string(), ObjectData::Integer(1));
    let b = plain(&mut ids, "b");
    let a_id = a.id;
    let b_id = b.id;

    gc.track(a).unwrap();
    gc.track(b).unwrap();
    gc.add_reference(a_id, b_id).unwrap();
    gc.add_reference(b_id, a_id).unwrap();

    assert_eq!(gc.collect().unwrap(), 0);
    assert_eq!(gc.get_uncollectable().len(), 2);
    // The quarantine holds the finalizer object itself, its pass bits are
    // cleared, and both entries left the tracked set.
    assert!(gc.get_uncollectable().iter().any(|o| o.has_finalizer));
    assert!(gc.get_uncollectable().iter().all(|o| !o.gc_head.is_collecting()));
    assert_eq!(gc.get_count(), 0);

    gc.clear_uncollectable();
    assert_eq!(gc.get_uncollectable().len(), 0);
    assert_eq!(gc.collect().unwrap(), 0);
}

#[test]
fn generational_promotion() {
    let mut ids = IdSource::new();
    let mut gc = GarbageCollector::new();

    for i in 0..701 {
        let obj = plain(&mut ids, &format!("o{}", i));
        gc.track(obj).unwrap();
    }
    assert_eq!(gc.get_generation_count(0), Some(701));

    assert_eq!(gc.collect().unwrap(), 0);
    assert_eq!(gc.get_generation_count(0), Some(0));
    assert_eq!(gc.get_generation_count(1), Some(701));
    assert_eq!(gc.get_count(), 701);
}

#[test]
fn threshold_tuning() {
    let mut ids = IdSource::new();
    let mut gc = GarbageCollector::new();

    gc.set_threshold(0, 2).unwrap();
    gc.track(plain(&mut ids, "a")).unwrap();
    gc.track(plain(&mut ids, "b")).unwrap();
    assert!(gc.needs_collection());

    gc.collect_if_needed().unwrap();
    assert!(!gc.needs_collection());
}

#[test]
fn idempotent_untrack_sequence() {
    let mut ids = IdSource::new();
    let mut gc = GarbageCollector::new();

    let a = plain(&mut ids, "a");
    let a_id = a.id;
    gc.track(a).unwrap();

    assert!(gc.untrack(&a_id).is_ok());
    assert_eq!(gc.untrack(&a_id), Err(GCError::NotTracked));
    assert_eq!(gc.get_count(), 0);
}

#[test]
fn second_collection_reclaims_nothing() {
    let mut ids = IdSource::new();
    let mut gc = GarbageCollector::new();

    let a = plain(&mut ids, "a");
    let b = plain(&mut ids, "b");
    let mut c = plain(&mut ids, "c");
    c.incref();
    let a_id = a.id;
    let b_id = b.id;
    let c_id = c.id;

    gc.track(a).unwrap();
    gc.track(b).unwrap();
    gc.track(c).unwrap();
    gc.add_reference(a_id, b_id).unwrap();
    gc.add_reference(b_id, a_id).unwrap();

    assert_eq!(gc.collect().unwrap(), 2);
    assert_eq!(gc.collect().unwrap(), 0);
    assert!(gc.is_tracked(&c_id));
}

#[test]
fn invalid_generation_is_rejected() {
    let mut gc = GarbageCollector::new();
    assert_eq!(
        gc.collect_generation(3),
        Err(GCError::InvalidGeneration(3))
    );
    assert_eq!(
        gc.set_threshold(5, 1),
        Err(GCError::InvalidGeneration(5))
    );
    assert_eq!(gc.get_threshold(3), None);
    assert_eq!(gc.get_generation_count(3), None);
}

#[test]
fn untrack_unknown_id_is_rejected() {
    let mut ids = IdSource::new();
    let mut gc = GarbageCollector::new();
    let stray = plain(&mut ids, "stray");
    assert_eq!(gc.untrack(&stray.id), Err(GCError::NotTracked));
}

#[test]
fn tracking_twice_is_rejected() {
    let mut ids = IdSource::new();
    let mut gc = GarbageCollector::new();
    let a = plain(&mut ids, "a");
    let again = a.clone();
    gc.track(a).unwrap();
    assert_eq!(gc.track(again), Err(GCError::AlreadyTracked));
}

#[test]
fn track_while_disabled_is_a_no_op() {
    let mut ids = IdSource::new();
    let mut gc = GarbageCollector::new();
    gc.disable();
    let a = plain(&mut ids, "a");
    assert!(gc.track(a).is_ok());
    assert_eq!(gc.get_count(), 0);
}

#[test]
fn inconsistent_refcounts_abort_the_pass() {
    let mut ids = IdSource::new();
    let mut gc = GarbageCollector::new();

    let a = plain(&mut ids, "a");
    let b = plain(&mut ids, "b");
    let a_id = a.id;
    let b_id = b.id;
    gc.track(a).unwrap();
    gc.track(b).unwrap();
    // Two recorded references into `a` but a reference count of one: the
    // pass must refuse rather than drive the shadow counter negative.
    gc.add_reference(b_id, a_id).unwrap();
    gc.add_reference(b_id, a_id).unwrap();

    let r = gc.collect();
    assert!(matches!(r, Err(GCError::ReferenceCountError(_))));
    assert_eq!(gc.get_count(), 2);
}

#[test]
fn weak_references_are_not_followed() {
    let mut ids = IdSource::new();
    let mut gc = GarbageCollector::new();

    let a = plain(&mut ids, "a");
    let b = plain(&mut ids, "b");
    let a_id = a.id;
    let b_id = b.id;
    gc.track(a).unwrap();
    gc.track(b).unwrap();
    gc.add_reference(a_id, b_id).unwrap();
    gc.add_weak_reference(b_id, a_id).unwrap();

    // The weak edge neither counts against `a` nor keeps the pair
    // mutually alive: `a` looks externally referenced, so both survive
    // through the direct edge.
    assert_eq!(gc.collect().unwrap(), 0);
    assert_eq!(gc.get_count(), 2);

    // Dropping the direct edge and the external count leaves both dead.
    gc.remove_reference(a_id, b_id).unwrap();
    gc.refcount_changed(&a_id, 0).unwrap();
    gc.refcount_changed(&b_id, 0).unwrap();
    assert_eq!(gc.collect().unwrap(), 2);
}

#[test]
fn payload_children_keep_objects_alive() {
    let mut ids = IdSource::new();
    let mut gc = GarbageCollector::new();

    let child = plain(&mut ids, "child");
    let child_id = child.id;
    let parent = PyObject::new(
        &mut ids,
        "parent".to_string(),
        ObjectData::List(vec![child_id]),
    );
    let parent_id = parent.id;

    gc.track(child).unwrap();
    gc.track(parent).unwrap();

    // The child's only reference is the parent's payload entry.
    gc.refcount_changed(&child_id, 1).unwrap();
    assert_eq!(gc.collect().unwrap(), 0);
    assert_eq!(gc.get_count(), 2);

    // Once the parent is gone, nothing holds the child.
    gc.untrack(&parent_id).unwrap();
    gc.refcount_changed(&child_id, 0).unwrap();
    assert_eq!(gc.collect().unwrap(), 1);
    assert_eq!(gc.get_count(), 0);
}

#[test]
fn saveall_quarantines_instead_of_freeing() {
    let mut ids = IdSource::new();
    let mut gc = GarbageCollector::new();
    gc.set_debug(32);
    assert_eq!(gc.get_debug(), 32);

    let a = plain(&mut ids, "a");
    let b = plain(&mut ids, "b");
    let a_id = a.id;
    let b_id = b.id;
    gc.track(a).unwrap();
    gc.track(b).unwrap();
    gc.add_reference(a_id, b_id).unwrap();
    gc.add_reference(b_id, a_id).unwrap();

    assert_eq!(gc.collect().unwrap(), 0);
    assert_eq!(gc.get_uncollectable().len(), 2);
    assert_eq!(gc.get_count(), 0);
}

#[test]
fn stats_report_the_state() {
    let mut ids = IdSource::new();
    let mut gc = GarbageCollector::new();

    let a = plain(&mut ids, "a");
    let b = plain(&mut ids, "b");
    let a_id = a.id;
    let b_id = b.id;
    gc.track(a).unwrap();
    gc.track(b).unwrap();

    let stats = gc.get_stats();
    assert_eq!(stats.total_tracked, 2);
    assert_eq!(stats.generation_counts, [2, 0, 0]);
    assert_eq!(stats.uncollectable, 0);
    assert_eq!(stats.collections, 0);

    gc.add_reference(a_id, b_id).unwrap();
    gc.add_reference(b_id, a_id).unwrap();
    gc.collect().unwrap();
    let stats = gc.get_stats();
    assert_eq!(stats.collections, 1);
    assert_eq!(stats.collected, 2);
    assert_eq!(stats.total_tracked, 0);
}

#[test]
fn referrers_and_referents_are_reported() {
    let mut ids = IdSource::new();
    let mut gc = GarbageCollector::new();

    let a = plain(&mut ids, "a");
    let b = plain(&mut ids, "b");
    let a_id = a.id;
    let b_id = b.id;
    gc.track(a).unwrap();
    gc.track(b).unwrap();
    gc.add_reference(a_id, b_id).unwrap();

    assert_eq!(gc.get_referents(a_id), vec![b_id]);
    assert_eq!(gc.get_referrers(b_id), vec![a_id]);
    assert_eq!(gc.get_referents(b_id), Vec::new());

    assert!(matches!(
        gc.add_reference(a_id, pygc::ObjectId(99999)),
        Err(GCError::Internal(_))
    ));
}

#[test]
fn every_tracked_object_sits_in_one_generation() {
    let mut ids = IdSource::new();
    let mut gc = GarbageCollector::new();

    let mut a = plain(&mut ids, "a");
    let mut b = plain(&mut ids, "b");
    a.incref();
    b.incref();
    gc.track(a).unwrap();
    gc.track(b).unwrap();

    let sum = gc.get_generation_count(0).unwrap() + gc.get_generation_count(1).unwrap()
        + gc.get_generation_count(2).unwrap();
    assert_eq!(sum, gc.get_count());

    gc.collect().unwrap();
    let sum = gc.get_generation_count(0).unwrap() + gc.get_generation_count(1).unwrap()
        + gc.get_generation_count(2).unwrap();
    assert_eq!(sum, gc.get_count());
    assert_eq!(gc.get_count(), 2);
}

#[test]
fn garbage_list_can_be_set_and_cleared() {
    let mut ids = IdSource::new();
    let mut gc = GarbageCollector::new();

    let parked = plain(&mut ids, "parked");
    let parked_id = parked.id;
    gc.set_garbage(vec![parked]);
    assert_eq!(gc.get_garbage().len(), 1);
    assert_eq!(gc.get_garbage()[0].id, parked_id);

    gc.set_garbage(Vec::new());
    assert_eq!(gc.get_garbage().len(), 0);
}
