use pygc::object::{IdSource, ObjectData, PyObject};
use pygc::traversal::{ObjectGraph, ReferenceType};

#[test]
fn test_object_graph_creation() {
    let graph = ObjectGraph::new();
    assert!(graph.is_empty());
    assert_eq!(graph.object_count(), 0);
}

#[test]
fn test_add_remove_object() {
    let mut ids = IdSource::new();
    let mut graph = ObjectGraph::new();

    let obj = PyObject::new(&mut ids, "test".to_string(), ObjectData::Integer(42));
    let obj_id = obj.id;

    graph.add_object(obj);
    assert_eq!(graph.object_count(), 1);
    assert!(graph.get_object(obj_id).is_some());

    let removed = graph.remove_object(obj_id);
    assert!(removed.is_some());
    assert!(graph.is_empty());
}

#[test]
fn test_add_reference() {
    let mut ids = IdSource::new();
    let mut graph = ObjectGraph::new();

    let obj1 = PyObject::new(&mut ids, "obj1".to_string(), ObjectData::Integer(1));
    let obj2 = PyObject::new(&mut ids, "obj2".to_string(), ObjectData::Integer(2));

    let id1 = obj1.id;
    let id2 = obj2.id;

    graph.add_object(obj1);
    graph.add_object(obj2);

    assert!(graph.add_reference(id1, id2, ReferenceType::Direct).is_ok());
    assert_eq!(graph.reference_count(), 1);

    let referrers = graph.get_referrers(id2);
    assert_eq!(referrers.len(), 1);
    assert_eq!(referrers[0], id1);
}

#[test]
fn test_find_reachable() {
    let mut ids = IdSource::new();
    let mut graph = ObjectGraph::new();

    let obj1 = PyObject::new(&mut ids, "obj1".to_string(), ObjectData::Integer(1));
    let obj2 = PyObject::new(&mut ids, "obj2".to_string(), ObjectData::Integer(2));
    let obj3 = PyObject::new(&mut ids, "obj3".to_string(), ObjectData::Integer(3));

    let id1 = obj1.id;
    let id2 = obj2.id;
    let id3 = obj3.id;

    graph.add_object(obj1);
    graph.add_object(obj2);
    graph.add_object(obj3);

    graph.add_reference(id1, id2, ReferenceType::Direct).unwrap();
    graph.add_reference(id2, id3, ReferenceType::Direct).unwrap();

    let reachable = graph.find_reachable(&vec![id1]);
    assert_eq!(reachable.len(), 3);
    assert!(reachable.contains(&id1));
    assert!(reachable.contains(&id2));
    assert!(reachable.contains(&id3));
}

#[test]
fn test_cycle_detection() {
    let mut ids = IdSource::new();
    let mut graph = ObjectGraph::new();

    let obj1 = PyObject::new(&mut ids, "obj1".to_string(), ObjectData::Integer(1));
    let obj2 = PyObject::new(&mut ids, "obj2".to_string(), ObjectData::Integer(2));

    let id1 = obj1.id;
    let id2 = obj2.id;

    graph.add_object(obj1);
    graph.add_object(obj2);

    graph.add_reference(id1, id2, ReferenceType::Direct).unwrap();
    graph.add_reference(id2, id1, ReferenceType::Direct).unwrap();

    let cycles = graph.detect_cycles();
    assert_eq!(cycles.len(), 1);
    assert_eq!(cycles[0].len(), 2);
}

#[test]
fn weak_edges_are_ignored_by_reachability() {
    let mut ids = IdSource::new();
    let mut graph = ObjectGraph::new();

    let obj1 = PyObject::new(&mut ids, "obj1".to_string(), ObjectData::Integer(1));
    let obj2 = PyObject::new(&mut ids, "obj2".to_string(), ObjectData::Integer(2));
    let id1 = obj1.id;
    let id2 = obj2.id;
    graph.add_object(obj1);
    graph.add_object(obj2);
    graph.add_reference(id1, id2, ReferenceType::Weak).unwrap();

    let reachable = graph.find_reachable(&vec![id1]);
    assert_eq!(reachable.len(), 1);
    assert!(reachable.contains(&id1));

    let unreachable = graph.find_unreachable(&vec![id1]);
    assert_eq!(unreachable, vec![id2]);
}

#[test]
fn finalizer_edges_are_followed_by_reachability() {
    let mut ids = IdSource::new();
    let mut graph = ObjectGraph::new();

    let obj1 = PyObject::new(&mut ids, "obj1".to_string(), ObjectData::Integer(1));
    let obj2 = PyObject::new(&mut ids, "obj2".to_string(), ObjectData::Integer(2));
    let id1 = obj1.id;
    let id2 = obj2.id;
    graph.add_object(obj1);
    graph.add_object(obj2);
    graph
        .add_reference(id1, id2, ReferenceType::Finalizer)
        .unwrap();

    let reachable = graph.find_reachable(&vec![id1]);
    assert_eq!(reachable.len(), 2);
}

#[test]
fn removing_an_object_drops_its_references() {
    let mut ids = IdSource::new();
    let mut graph = ObjectGraph::new();

    let obj1 = PyObject::new(&mut ids, "obj1".to_string(), ObjectData::Integer(1));
    let obj2 = PyObject::new(&mut ids, "obj2".to_string(), ObjectData::Integer(2));
    let id1 = obj1.id;
    let id2 = obj2.id;
    graph.add_object(obj1);
    graph.add_object(obj2);
    graph.add_reference(id1, id2, ReferenceType::Direct).unwrap();
    graph.add_reference(id2, id1, ReferenceType::Direct).unwrap();

    graph.remove_object(id1);
    assert_eq!(graph.reference_count(), 0);
    assert_eq!(graph.object_count(), 1);
}

#[test]
fn references_to_absent_objects_are_rejected() {
    let mut ids = IdSource::new();
    let mut graph = ObjectGraph::new();

    let obj1 = PyObject::new(&mut ids, "obj1".to_string(), ObjectData::Integer(1));
    let stray = PyObject::new(&mut ids, "stray".to_string(), ObjectData::Integer(2));
    let id1 = obj1.id;
    graph.add_object(obj1);

    assert!(graph.add_reference(id1, stray.id, ReferenceType::Direct).is_err());
    assert_eq!(graph.reference_count(), 0);
}

#[test]
fn self_loop_is_a_cycle_of_one() {
    let mut ids = IdSource::new();
    let mut graph = ObjectGraph::new();

    let obj = PyObject::new(&mut ids, "looper".to_string(), ObjectData::Integer(1));
    let id = obj.id;
    graph.add_object(obj);
    graph.add_reference(id, id, ReferenceType::Direct).unwrap();

    let cycles = graph.detect_cycles();
    assert_eq!(cycles.len(), 1);
    assert_eq!(cycles[0], vec![id]);
}

#[test]
fn acyclic_graphs_report_no_cycles() {
    let mut ids = IdSource::new();
    let mut graph = ObjectGraph::new();

    let obj1 = PyObject::new(&mut ids, "obj1".to_string(), ObjectData::Integer(1));
    let obj2 = PyObject::new(&mut ids, "obj2".to_string(), ObjectData::Integer(2));
    let id1 = obj1.id;
    let id2 = obj2.id;
    graph.add_object(obj1);
    graph.add_object(obj2);
    graph.add_reference(id1, id2, ReferenceType::Direct).unwrap();

    assert_eq!(graph.detect_cycles().len(), 0);
}

#[test]
fn disjoint_cycles_are_reported_separately() {
    let mut ids = IdSource::new();
    let mut graph = ObjectGraph::new();

    let mut made = Vec::new();
    for name in ["a", "b", "c", "d", "off"] {
        let obj = PyObject::new(&mut ids, name.to_string(), ObjectData::Integer(0));
        made.push(obj.id);
        graph.add_object(obj);
    }
    // Two separate two-element cycles, plus a node that only points into
    // one of them and sits on no cycle itself.
    graph.add_reference(made[0], made[1], ReferenceType::Direct).unwrap();
    graph.add_reference(made[1], made[0], ReferenceType::Direct).unwrap();
    graph.add_reference(made[2], made[3], ReferenceType::Direct).unwrap();
    graph.add_reference(made[3], made[2], ReferenceType::Direct).unwrap();
    graph.add_reference(made[4], made[0], ReferenceType::Direct).unwrap();

    let cycles = graph.detect_cycles();
    assert_eq!(cycles.len(), 2);
    assert_eq!(cycles[0].len(), 2);
    assert_eq!(cycles[1].len(), 2);
    assert!(cycles[0].contains(&made[0]) && cycles[0].contains(&made[1]));
    assert!(cycles[1].contains(&made[2]) && cycles[1].contains(&made[3]));
    assert!(!cycles.iter().any(|c| c.contains(&made[4])));
}
