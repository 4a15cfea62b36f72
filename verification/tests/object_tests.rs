use pygc::error::{GCError, GCReturnCode};
use pygc::object::{IdSource, ObjectData, PyGCHead, PyObject};

#[test]
fn object_ids_are_unique_and_nonzero() {
    let mut ids = IdSource::new();
    let a = PyObject::new(&mut ids, "a".to_string(), ObjectData::Absent);
    let b = PyObject::new(&mut ids, "b".to_string(), ObjectData::Absent);
    let c = PyObject::new(&mut ids, "c".to_string(), ObjectData::Absent);
    assert!(a.id.as_usize() >= 1);
    assert_ne!(a.id, b.id);
    assert_ne!(b.id, c.id);
    assert_ne!(a.id, c.id);
}

#[test]
fn gc_head_flag_bits() {
    let mut head = PyGCHead::new();
    assert_eq!(head.get_refs(), 0);
    assert!(!head.is_collecting());
    assert!(!head.is_finalized());
    assert!(!head.is_tracked());

    head.set_refs(7);
    assert_eq!(head.get_refs(), 7);

    head.set_collecting();
    assert!(head.is_collecting());
    assert_eq!(head._gc_prev & 2, 2);

    head.clear_collecting();
    assert!(!head.is_collecting());
    assert_eq!(head._gc_prev & 2, 0);

    head.set_finalized();
    assert!(head.is_finalized());
    assert_eq!(head._gc_prev & 1, 1);

    head._gc_next = 5;
    assert!(head.is_tracked());
}

#[test]
fn refcounts_move_up_and_down() {
    let mut ids = IdSource::new();
    let mut obj = PyObject::new(&mut ids, "a".to_string(), ObjectData::Absent);
    assert_eq!(obj.get_refcount(), 1);
    assert_eq!(obj.incref(), 2);
    assert_eq!(obj.incref(), 3);
    assert_eq!(obj.decref(), 2);
    assert_eq!(obj.get_refcount(), 2);
}

#[test]
fn container_payloads_are_worth_tracking() {
    let mut ids = IdSource::new();
    let num = PyObject::new(&mut ids, "n".to_string(), ObjectData::Integer(3));
    let list = PyObject::new(&mut ids, "l".to_string(), ObjectData::List(vec![num.id]));
    let text = PyObject::new(&mut ids, "t".to_string(), ObjectData::Text("abc".to_string()));
    assert!(!num.should_track());
    assert!(list.should_track());
    assert!(!text.should_track());
}

#[test]
fn payload_sizes_are_reported() {
    let mut ids = IdSource::new();
    let num = PyObject::new(&mut ids, "n".to_string(), ObjectData::Integer(3));
    assert_eq!(num.get_size(), 8);
    let text = PyObject::new(&mut ids, "t".to_string(), ObjectData::Text("abcd".to_string()));
    assert_eq!(text.get_size(), 4);
    let list = PyObject::new(
        &mut ids,
        "l".to_string(),
        ObjectData::List(vec![num.id, text.id]),
    );
    assert_eq!(list.get_size(), 16);
    let none = PyObject::new(&mut ids, "z".to_string(), ObjectData::Absent);
    assert_eq!(none.get_size(), 0);
}

#[test]
fn return_codes_are_stable() {
    assert_eq!(GCReturnCode::Success.code(), 0);
    assert_eq!(GCReturnCode::ErrorAlreadyTracked.code(), -1);
    assert_eq!(GCReturnCode::ErrorNotTracked.code(), -2);
    assert_eq!(GCReturnCode::ErrorCollectionInProgress.code(), -3);
    assert_eq!(GCReturnCode::ErrorInvalidGeneration.code(), -4);
    assert_eq!(GCReturnCode::ErrorInternal.code(), -5);
}

#[test]
fn errors_map_to_their_codes() {
    assert_eq!(
        GCReturnCode::from_error(&GCError::AlreadyTracked),
        GCReturnCode::ErrorAlreadyTracked
    );
    assert_eq!(
        GCReturnCode::from_error(&GCError::NotTracked),
        GCReturnCode::ErrorNotTracked
    );
    assert_eq!(
        GCReturnCode::from_error(&GCError::CollectionInProgress),
        GCReturnCode::ErrorCollectionInProgress
    );
    assert_eq!(
        GCReturnCode::from_error(&GCError::InvalidGeneration(7)),
        GCReturnCode::ErrorInvalidGeneration
    );
    assert_eq!(
        GCReturnCode::from_error(&GCError::Internal("x".to_string())),
        GCReturnCode::ErrorInternal
    );
    assert_eq!(
        GCReturnCode::from_unit_result(&Ok(())),
        GCReturnCode::Success
    );
    assert_eq!(
        GCReturnCode::from_count_result(&Err(GCError::ReferenceCountError("x".to_string()))),
        GCReturnCode::ErrorInternal
    );
}

#[test]
fn errors_describe_themselves() {
    assert!(!GCError::AlreadyTracked.describe().is_empty());
    assert!(!GCError::Internal("boom".to_string()).describe().is_empty());
}

#[test]
fn dict_payloads_yield_keys_and_values() {
    let mut ids = IdSource::new();
    let k = PyObject::new(&mut ids, "k".to_string(), ObjectData::Absent);
    let v = PyObject::new(&mut ids, "v".to_string(), ObjectData::Absent);
    let dict = PyObject::new(
        &mut ids,
        "d".to_string(),
        ObjectData::Dict(vec![(k.id, v.id)]),
    );
    let kids = pygc::traversal::children(&dict.data);
    assert_eq!(kids, vec![k.id, v.id]);
    assert_eq!(dict.get_size(), 16);
}
