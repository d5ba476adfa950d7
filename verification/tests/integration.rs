use gc_lite::{
    GcError, GcHead, GcHeap, GcNode, GcPartitionId, GcRef, GcTrace, GcTraceCtx, GcTypeInfo,
    GcTypeRegistry,
};

#[derive(Debug, PartialEq, Clone)]
struct TestData {
    value: i32,
    name: String,
}

struct TestNode {
    value: i32,
    children: Vec<GcRef<Payload>>,
}

enum Payload {
    Data(TestData),
    Node(TestNode),
}

impl GcTrace for Payload {
    fn trace(&self, tr: &mut GcTraceCtx) {
        match self {
            Payload::Data(_) => {}
            Payload::Node(n) => {
                for child in &n.children {
                    tr.add(*child);
                }
            }
        }
    }
}

impl GcNode for Payload {
    fn gc_type_id(&self) -> u8 {
        match self {
            Payload::Data(_) => 0,
            Payload::Node(_) => 1,
        }
    }
}

impl Payload {
    fn value(&self) -> i32 {
        match self {
            Payload::Data(d) => d.value,
            Payload::Node(n) => n.value,
        }
    }

    fn name(&self) -> &str {
        match self {
            Payload::Data(d) => &d.name,
            Payload::Node(_) => "",
        }
    }
}

fn new_heap(id: u32) -> GcHeap<Payload> {
    GcHeap::new(
        GcTypeRegistry::new(vec![
            GcTypeInfo::of::<TestData>(true, 0),
            GcTypeInfo::of::<TestNode>(true, 0),
        ]),
        id,
    )
}

fn data(value: i32, name: &str) -> Payload {
    Payload::Data(TestData { value, name: name.to_string() })
}

#[test]
fn test_partition_creation_and_retrieval() {
    let mut heap = new_heap(1);
    let id1 = heap.create_partition();
    let id2 = heap.create_partition();
    heap.set_memory_limit(1024);

    assert_ne!(id1, id2);
    assert_eq!(heap.partition_ids().len(), 2);

    assert_eq!(heap.memory_limit(), 1024);
    assert_eq!(heap.partition(id1).unwrap().memory_used(), 0);
}

#[test]
fn test_partition_gc_threshold() {
    let mut heap = new_heap(1);
    heap.set_memory_limit(1024);

    assert_eq!(heap.gc_threshold(), 0);

    heap.set_gc_threshold(512);
    assert_eq!(heap.gc_threshold(), 512);

    heap.set_gc_threshold(2048);
    assert_eq!(heap.gc_threshold(), 819);
}

#[test]
fn test_allocation_fails_when_limit_exceeded() {
    let mut heap = new_heap(1);
    let id = heap.create_partition();
    heap.set_memory_limit(256);

    let mut allocated_count = 0;
    loop {
        match heap.alloc_raw(id, data(allocated_count, &format!("obj_{}", allocated_count))) {
            Ok(_) => {
                allocated_count += 1;
            }
            Err((GcError::PartitionFull, _)) => {
                break;
            }
            Err((err, _)) => {
                panic!("Unexpected error: {:?}", err);
            }
        }
    }
    assert!(allocated_count > 0);

    let result = heap.alloc_raw(id, data(999, "should_fail"));
    assert!(matches!(result, Err((GcError::PartitionFull, _))));
}

#[test]
fn test_set_memory_limit_above_used_memory() {
    let mut heap = new_heap(1);
    let id = heap.create_partition();
    heap.set_memory_limit(1024);

    let _obj1 = heap.alloc_raw(id, data(1, "obj1")).unwrap_or_else(|_| panic!());
    let _obj2 = heap.alloc_raw(id, data(2, "obj2")).unwrap_or_else(|_| panic!());

    let used_memory = heap.partition(id).unwrap().memory_used();
    assert!(used_memory > 0);

    let new_limit = used_memory + 512;
    heap.set_memory_limit(new_limit);
    assert_eq!(heap.memory_limit(), new_limit);

    assert!(heap.alloc_raw(id, data(3, "obj3")).is_ok());
}

#[test]
fn test_set_memory_limit_below_used_memory() {
    let mut heap = new_heap(1);
    let id = heap.create_partition();
    heap.set_memory_limit(2048);

    assert!(heap.alloc_raw(id, data(1, "obj1")).is_ok());
    assert!(heap.alloc_raw(id, data(2, "obj2")).is_ok());

    let used_memory = heap.partition(id).unwrap().memory_used();
    assert!(used_memory > 0);

    let smaller_limit = used_memory - 1;
    let applied_limit = heap.set_memory_limit(smaller_limit);
    assert_eq!(applied_limit, used_memory);
    assert_eq!(heap.memory_limit(), used_memory);

    let result = heap.alloc_raw(id, data(3, "should_fail"));
    assert!(matches!(result, Err((GcError::PartitionFull, _))));
}

#[test]
fn test_set_unlimited_memory() {
    let mut heap = new_heap(1);
    let id = heap.create_partition();
    heap.set_memory_limit(512);

    heap.set_memory_limit(0);
    assert_eq!(heap.memory_limit(), 0);

    let mut allocated_count = 0;
    loop {
        match heap.alloc_raw(id, data(allocated_count, &format!("obj_{}", allocated_count))) {
            Ok(_) => {
                allocated_count += 1;
                if allocated_count >= 100 {
                    break;
                }
            }
            Err((err, _)) => {
                panic!("Unexpected error with unlimited memory: {:?}", err);
            }
        }
    }
    assert_eq!(allocated_count, 100);
}

#[test]
fn test_object_allocation() {
    let mut heap = new_heap(1);
    let id = heap.create_partition();
    heap.set_memory_limit(2048);

    let initial_memory = heap.partition(id).unwrap().memory_used();
    let obj = heap.alloc_raw(id, data(42, "test")).ok().unwrap();

    let after_memory = heap.partition(id).unwrap().memory_used();
    assert!(after_memory > initial_memory);

    assert_eq!(obj.get(&heap).unwrap().value(), 42);
    assert_eq!(obj.get(&heap).unwrap().name(), "test");
}

#[test]
fn test_memory_usage_increases_with_allocation() {
    let mut heap = new_heap(1);
    let id = heap.create_partition();
    heap.set_memory_limit(8192);

    let mut memory_after_each_alloc: Vec<usize> = Vec::new();
    for i in 0..5 {
        assert!(heap.alloc_raw(id, data(i, &format!("obj_{}", i))).is_ok());
        memory_after_each_alloc.push(heap.partition(id).unwrap().memory_used());
    }

    for i in 1..memory_after_each_alloc.len() {
        assert!(
            memory_after_each_alloc[i] > memory_after_each_alloc[i - 1],
            "Memory should increase after each allocation"
        );
    }

    let final_memory = heap.partition(id).unwrap().memory_used();
    assert!(final_memory > 0);

    let root_obj = heap.alloc_raw(id, data(100, "root")).ok().unwrap();
    heap.set_root(root_obj, true);
    let freed = heap.garbage_collect(id, |_, _| {});
    assert!(freed > 0);

    let after_gc_memory = heap.partition(id).unwrap().memory_used();
    assert!(after_gc_memory < final_memory);
}

#[test]
fn test_multiple_object_allocation() {
    let mut heap = new_heap(1);
    let id = heap.create_partition();
    heap.set_memory_limit(4096);

    let mut objs: Vec<GcRef<Payload>> = Vec::new();
    for i in 0..10 {
        objs.push(heap.alloc_raw(id, data(i, &format!("obj_{}", i))).ok().unwrap());
    }

    for (i, obj) in objs.iter().enumerate() {
        assert_eq!(obj.get(&heap).unwrap().value(), i as i32);
        assert_eq!(obj.get(&heap).unwrap().name(), format!("obj_{}", i));
    }

    assert!(heap.partition(id).unwrap().memory_used() > 0);
}

#[test]
fn test_partition_full_error() {
    let mut heap = new_heap(1);
    let id = heap.create_partition();
    heap.set_memory_limit(512);

    let mut result = heap.alloc_raw(id, data(0, "test"));
    let mut count = 0;
    while let Ok(_obj) = result {
        count += 1;
        result = heap.alloc_raw(id, data(count, &format!("test_{}", count)));
    }

    assert!(matches!(result, Err((GcError::PartitionFull, _))));
    assert!(count > 0);
}

#[test]
fn test_invalid_partition_allocation() {
    let mut heap = new_heap(1);
    let invalid_id = GcPartitionId(9999);

    let result = heap.alloc_raw(invalid_id, data(42, "test"));
    assert!(matches!(result, Err((GcError::PartitionNotFound, _))));
}

#[test]
fn test_root_object_management() {
    let mut heap = new_heap(1);
    let id = heap.create_partition();
    let obj = heap.alloc_raw(id, data(42, "test")).ok().unwrap();

    assert!(!obj.is_root(&heap));

    heap.set_root(obj, true);
    assert!(obj.is_root(&heap));

    heap.set_root(obj, false);
    assert!(!obj.is_root(&heap));
}

#[test]
fn test_root_objects_preserve_during_gc() {
    let mut heap = new_heap(1);
    let id = heap.create_partition();
    let obj = heap.alloc_raw(id, data(42, "test")).ok().unwrap();
    heap.set_root(obj, true);

    let freed = heap.garbage_collect(id, |_, _| {});
    assert_eq!(freed, 0);
    assert_eq!(obj.get(&heap).unwrap().value(), 42);
}

#[test]
fn test_non_root_objects_collected() {
    let mut heap = new_heap(1);
    let id = heap.create_partition();

    let root_obj = heap.alloc_raw(id, data(1, "root")).ok().unwrap();
    let _non_root_obj = heap.alloc_raw(id, data(2, "non_root")).ok().unwrap();
    heap.set_root(root_obj, true);

    let freed = heap.garbage_collect(id, |_, _| {});
    assert!(freed > 0);
    assert_eq!(root_obj.get(&heap).unwrap().value(), 1);
}

#[test]
fn test_manual_garbage_collection() {
    let mut heap = new_heap(1);
    let id = heap.create_partition();

    for i in 0..5 {
        let obj = heap.alloc_raw(id, data(i, &format!("obj_{}", i))).ok().unwrap();
        if i < 2 {
            heap.set_root(obj, true);
        }
    }

    let before = heap.partition(id).unwrap().memory_used();
    let freed = heap.garbage_collect(id, |_, _| {});
    assert!(freed > 0);

    let after = heap.partition(id).unwrap().memory_used();
    assert!(after < before);
}

fn link(heap: &mut GcHeap<Payload>, from: GcRef<Payload>, to: GcRef<Payload>) {
    from.with_mut(heap, |p: &mut Payload| match p {
        Payload::Node(n) => n.children.push(to),
        Payload::Data(_) => unreachable!(),
    });
}

#[test]
fn test_circular_reference_handling() {
    let mut heap = new_heap(1);
    let id = heap.create_partition();

    let new_node = |value: i32| Payload::Node(TestNode { value, children: Vec::new() });
    let node1 = heap.alloc_raw(id, new_node(1)).ok().unwrap();
    let node2 = heap.alloc_raw(id, new_node(2)).ok().unwrap();

    link(&mut heap, node1, node2);
    link(&mut heap, node2, node1);

    heap.set_root(node1, true);
    heap.set_root(node2, true);

    assert_eq!(node1.get(&heap).unwrap().value(), 1);
    assert_eq!(node2.get(&heap).unwrap().value(), 2);

    let freed = heap.garbage_collect(id, |_, _| {});
    assert_eq!(freed, 0);

    heap.set_root(node1, false);
    heap.set_root(node2, false);

    let freed = heap.garbage_collect(id, |_, _| {});
    assert!(freed > 0);
}

#[test]
fn test_weak_reference_creation_and_upgrade() {
    let mut heap = new_heap(1);
    let id = heap.create_partition();
    let obj = heap.alloc_raw(id, data(42, "test")).ok().unwrap();
    heap.set_root(obj, true);

    let weak_ref = heap.downgrade(&obj);
    let upgraded = weak_ref.upgrade(&heap);
    assert!(upgraded.is_some());
    assert_eq!(upgraded.unwrap().get(&heap).unwrap().value(), 42);
}

#[test]
fn test_weak_reference_after_collection() {
    let mut heap = new_heap(1);
    let id = heap.create_partition();
    let obj = heap.alloc_raw(id, data(42, "test")).ok().unwrap();
    let weak_ref = heap.downgrade(&obj);

    heap.set_root(obj, false);
    heap.garbage_collect(id, |_, _| {});

    assert!(weak_ref.upgrade(&heap).is_none());
}

#[test]
fn test_multiple_weak_references() {
    let mut heap = new_heap(1);
    let id = heap.create_partition();
    let obj = heap.alloc_raw(id, data(42, "test")).ok().unwrap();
    heap.set_root(obj, true);

    let weak1 = heap.downgrade(&obj);
    let weak2 = heap.downgrade(&obj);
    let weak3 = heap.downgrade(&obj);

    assert!(weak1.upgrade(&heap).is_some());
    assert!(weak2.upgrade(&heap).is_some());
    assert!(weak3.upgrade(&heap).is_some());
}

#[test]
fn test_weak_reference_after_partition_removal() {
    let mut heap = new_heap(1);
    let _root_id = heap.create_partition();
    let child_id = heap.create_partition();

    let obj = heap.alloc_raw(child_id, data(42, "test")).ok().unwrap();
    let weak_ref = heap.downgrade(&obj);
    assert!(weak_ref.upgrade(&heap).is_some());

    heap.remove_partition(child_id, |_: &GcHeap<Payload>, _: &GcHead| {});

    assert!(weak_ref.upgrade(&heap).is_none());
}

#[test]
fn test_contains_method() {
    let mut heap1 = new_heap(1);
    let mut heap2 = new_heap(2);

    let id1 = heap1.create_partition();
    let id2 = heap2.create_partition();

    let obj1 = heap1.alloc_raw(id1, data(1, "heap1")).ok().unwrap();
    let obj2 = heap2.alloc_raw(id2, data(2, "heap2")).ok().unwrap();

    assert!(heap1.contains(obj1.node_ptr()));
    assert!(!heap1.contains(obj2.node_ptr()));
    assert!(heap2.contains(obj2.node_ptr()));
    assert!(!heap2.contains(obj1.node_ptr()));
}
