use gc_lite::{
    GcHead, GcHeap, GcNode, GcPartitionId, GcPtr, GcRef, GcTrace, GcTraceCtx, GcTypeInfo,
    GcTypeRegistry,
};

#[derive(Debug)]
struct MyI32(i32);

impl GcTrace for MyI32 {
    fn trace(&self, _: &mut GcTraceCtx) {}
}

impl GcNode for MyI32 {
    fn gc_type_id(&self) -> u8 {
        0
    }
}

fn new_heap() -> GcHeap<MyI32> {
    let registry = GcTypeRegistry::new(vec![GcTypeInfo::of::<MyI32>(false, 0)]);
    let mut heap = GcHeap::new(registry, 1);
    heap.set_memory_limit(4096);
    heap
}

fn nodes_of(heap: &GcHeap<MyI32>, pid: GcPartitionId) -> Vec<GcPtr> {
    let mut out = Vec::new();
    let mut iter = heap.nodes(pid);
    while let Some(n) = iter.next() {
        out.push(n);
    }
    out
}

fn ignore(_: &GcHeap<MyI32>, _: &GcHead) {}

fn fill(heap: &mut GcHeap<MyI32>, pid: GcPartitionId, from: i32, to: i32) -> Vec<GcRef<MyI32>> {
    (from..to).map(|i| heap.alloc_raw(pid, MyI32(i)).unwrap()).collect()
}

#[test]
fn test_sweep_with_basic() {
    let mut heap = new_heap();
    let partition_id = heap.create_partition();
    fill(&mut heap, partition_id, 0, 5);
    assert_eq!(nodes_of(&heap, partition_id).len(), 5);

    let removed = heap.sweep_with(
        partition_id,
        |_: &GcHead, t: Option<&MyI32>| t.unwrap().0 % 2 == 0,
        |_: &GcHeap<MyI32>, n: &GcHead| println!("dispose node: {:?}", n.dtype()),
    );
    assert!(removed > 0, "Should have freed some bytes");
    assert_eq!(nodes_of(&heap, partition_id).len(), 2);
    for node in nodes_of(&heap, partition_id) {
        assert_eq!(heap.get(node).unwrap().0 % 2, 1, "Remaining nodes should have odd values");
    }
}

#[test]
fn test_sweep_with_chain_head_removal() {
    let mut heap = new_heap();
    let partition_id = heap.create_partition();
    fill(&mut heap, partition_id, 0, 5);

    let removed =
        heap.sweep_with(partition_id, |_: &GcHead, t: Option<&MyI32>| t.unwrap().0 < 3, ignore);
    assert!(removed > 0, "Should have freed some bytes");
    assert_eq!(nodes_of(&heap, partition_id).len(), 2);

    let head = heap.partition(partition_id).unwrap().nodes().head();
    assert!(head.is_some(), "Chain head should exist");
    assert_eq!(
        heap.get(head.unwrap()).unwrap().0,
        4,
        "Chain head should be value 4 (last allocated, first in chain)"
    );

    let nodes = nodes_of(&heap, partition_id);
    assert_eq!(nodes.len(), 2);
    assert_eq!(heap.get(nodes[0]).unwrap().0, 4);
    assert_eq!(heap.get(nodes[1]).unwrap().0, 3);
}

#[test]
fn test_sweep_with_all_chain_head_removal() {
    let mut heap = new_heap();
    let partition_id = heap.create_partition();
    fill(&mut heap, partition_id, 0, 3);

    let removed = heap.sweep_with(
        partition_id,
        |_: &GcHead, _: Option<&MyI32>| true,
        |_: &GcHeap<MyI32>, n: &GcHead| println!("dispose {:?}", n.dtype()),
    );
    assert!(removed > 0, "Should have freed some bytes");
    assert_eq!(nodes_of(&heap, partition_id).len(), 0);
    assert!(
        heap.partition(partition_id).unwrap().nodes().head().is_none(),
        "Chain head should be None after removing all nodes"
    );
}

#[test]
fn test_sweep_with_middle_node_removal() {
    let mut heap = new_heap();
    let partition_id = heap.create_partition();
    fill(&mut heap, partition_id, 0, 5);

    let removed =
        heap.sweep_with(partition_id, |_: &GcHead, t: Option<&MyI32>| t.unwrap().0 == 2, ignore);
    assert!(removed > 0, "Should have freed some bytes");
    assert_eq!(nodes_of(&heap, partition_id).len(), 4);

    let nodes = nodes_of(&heap, partition_id);
    assert_eq!(nodes.len(), 4);
    let expected_values = vec![4, 3, 1, 0];
    for (i, node) in nodes.iter().enumerate() {
        assert_eq!(
            heap.get(*node).unwrap().0,
            expected_values[i],
            "Node at position {} should have value {}",
            i,
            expected_values[i]
        );
    }
}

#[test]
fn test_sweep_with_root_node_removal() {
    let mut heap = new_heap();
    let partition_id = heap.create_partition();

    let root_obj = heap.alloc_raw(partition_id, MyI32(0)).unwrap();
    fill(&mut heap, partition_id, 1, 3);

    heap.set_root(root_obj, true);
    assert!(root_obj.is_root(&heap));

    let removed =
        heap.sweep_with(partition_id, |_: &GcHead, t: Option<&MyI32>| t.unwrap().0 == 0, ignore);
    assert!(removed > 0, "Should have freed some bytes");
    assert_eq!(nodes_of(&heap, partition_id).len(), 2);
    assert!(!heap.contains(root_obj.node_ptr()));
}

#[test]
fn test_sweep_with_empty_partition() {
    let mut heap = new_heap();
    let partition_id = heap.create_partition();
    let removed = heap.sweep_with(partition_id, |_: &GcHead, _: Option<&MyI32>| true, ignore);
    assert_eq!(removed, 0, "Should return 0 for empty partition");
}

#[test]
fn test_sweep_with_nonexistent_partition() {
    let mut heap = new_heap();
    let non_existent_partition = GcPartitionId(9999);
    let removed =
        heap.sweep_with(non_existent_partition, |_: &GcHead, _: Option<&MyI32>| true, ignore);
    assert_eq!(removed, 0, "Should return 0 for non-existent partition");
}
