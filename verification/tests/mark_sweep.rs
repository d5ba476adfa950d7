use gc_lite::{
    GcHead, GcHeap, GcNode, GcPartitionId, GcPtr, GcRef, GcTrace, GcTraceCtx, GcTypeInfo,
    GcTypeRegistry, ARENA_CAPACITY, MAX_ARENA_ALLOC,
};

#[derive(Debug)]
struct MyI32(i32);

impl GcTrace for MyI32 {
    fn trace(&self, _: &mut GcTraceCtx) {}
}

impl GcNode for MyI32 {
    fn gc_type_id(&self) -> u8 {
        0
    }
}

fn new_heap() -> GcHeap<MyI32> {
    GcHeap::new(GcTypeRegistry::new(vec![GcTypeInfo::of::<MyI32>(false, 0)]), 1)
}

fn create_default_partition(heap: &mut GcHeap<MyI32>) -> GcPartitionId {
    heap.create_partition_with_arena(ARENA_CAPACITY, MAX_ARENA_ALLOC)
}

fn get_all_nodes_in_partition(heap: &GcHeap<MyI32>, pid: GcPartitionId) -> Vec<GcPtr> {
    let mut out = Vec::new();
    let mut iter = heap.nodes(pid);
    while let Some(n) = iter.next() {
        out.push(n);
    }
    out
}

fn count_nodes_in_partition(heap: &GcHeap<MyI32>, pid: GcPartitionId) -> usize {
    get_all_nodes_in_partition(heap, pid).len()
}

fn two_phase_sweep(heap: &mut GcHeap<MyI32>, pid: GcPartitionId) -> usize {
    if let Some(white) = heap.sweep_unlink(pid) {
        let payloads = heap.sweep_drop_payloads(&white);
        drop(payloads);
        heap.sweep_dispose(pid, white)
    } else {
        0
    }
}

#[test]
fn test_sweep_unlink_returns_none_when_not_marking() {
    let mut heap = new_heap();
    let pid = create_default_partition(&mut heap);
    assert!(heap.sweep_unlink(pid).is_none());
}

#[test]
fn test_sweep_unlink_returns_none_for_nonexistent_partition() {
    let mut heap = new_heap();
    assert!(heap.sweep_unlink(GcPartitionId(9999)).is_none());
}

#[test]
fn test_two_phase_sweep_basic() {
    let mut heap = new_heap();
    let pid = create_default_partition(&mut heap);

    let objects: Vec<GcRef<MyI32>> =
        (0..5).map(|i| heap.alloc_raw(pid, MyI32(i)).unwrap()).collect();

    for (i, obj) in objects.iter().enumerate() {
        if i % 2 == 1 {
            heap.set_root(*obj, true);
        }
    }

    assert_eq!(count_nodes_in_partition(&heap, pid), 5);

    while !heap.mark(pid, 64) {}
    let freed = two_phase_sweep(&mut heap, pid);

    assert!(freed > 0);
    assert_eq!(count_nodes_in_partition(&heap, pid), 2, "Only root nodes remain");

    for node in get_all_nodes_in_partition(&heap, pid) {
        let value = heap.get(node).unwrap().0;
        assert_eq!(value % 2, 1, "Remaining nodes should have odd values");
    }
}

#[test]
fn test_two_phase_sweep_chain_head_removal() {
    let mut heap = new_heap();
    let pid = create_default_partition(&mut heap);

    let _objects: Vec<GcRef<MyI32>> =
        (0..5).map(|i| heap.alloc_raw(pid, MyI32(i)).unwrap()).collect();

    let _ = heap.alloc_root_raw(pid, MyI32(3)).unwrap();
    let _ = heap.alloc_root_raw(pid, MyI32(4)).unwrap();

    while !heap.mark(pid, 64) {}
    let freed = two_phase_sweep(&mut heap, pid);

    assert!(freed > 0);
    assert_eq!(count_nodes_in_partition(&heap, pid), 2);

    let head = heap.partition(pid).unwrap().nodes().head();
    assert!(head.is_some());
    assert_eq!(heap.get(head.unwrap()).unwrap().0, 4, "Chain head should be value 4");

    let nodes = get_all_nodes_in_partition(&heap, pid);
    assert_eq!(nodes.len(), 2);
    assert_eq!(heap.get(nodes[0]).unwrap().0, 4);
    assert_eq!(heap.get(nodes[1]).unwrap().0, 3);
}

#[test]
fn test_two_phase_sweep_all_removed() {
    let mut heap = new_heap();
    let pid = create_default_partition(&mut heap);

    let _objects: Vec<GcRef<MyI32>> =
        (0..3).map(|i| heap.alloc_raw(pid, MyI32(i)).unwrap()).collect();

    while !heap.mark(pid, 64) {}
    let freed = two_phase_sweep(&mut heap, pid);

    assert!(freed > 0);
    assert_eq!(count_nodes_in_partition(&heap, pid), 0);
    assert!(heap.partition(pid).unwrap().nodes().head().is_none());
}

#[test]
fn test_two_phase_sweep_middle_node_removal() {
    let mut heap = new_heap();
    let pid = create_default_partition(&mut heap);

    let _objects: Vec<GcRef<MyI32>> = (0..5)
        .map(|i| {
            if i != 2 {
                heap.alloc_root_raw(pid, MyI32(i)).unwrap()
            } else {
                heap.alloc_raw(pid, MyI32(i)).unwrap()
            }
        })
        .collect();

    while !heap.mark(pid, 64) {}
    let freed = two_phase_sweep(&mut heap, pid);

    assert!(freed > 0);
    assert_eq!(count_nodes_in_partition(&heap, pid), 4);

    let nodes = get_all_nodes_in_partition(&heap, pid);
    let expected_values = [4, 3, 1, 0];
    for (i, node) in nodes.iter().enumerate() {
        assert_eq!(heap.get(*node).unwrap().0, expected_values[i]);
    }
}

#[test]
fn test_two_phase_sweep_root_removal() {
    let mut heap = new_heap();
    let pid = create_default_partition(&mut heap);

    let root_obj = heap.alloc_raw(pid, MyI32(0)).unwrap();
    let _objects: Vec<GcRef<MyI32>> =
        (1..3).map(|i| heap.alloc_raw(pid, MyI32(i)).unwrap()).collect();
    let _ = heap.alloc_root_raw(pid, MyI32(1)).unwrap();
    let _ = heap.alloc_root_raw(pid, MyI32(1)).unwrap();

    while !heap.mark(pid, 64) {}
    let freed = two_phase_sweep(&mut heap, pid);

    assert!(freed > 0);
    assert_eq!(count_nodes_in_partition(&heap, pid), 2);

    let remaining = get_all_nodes_in_partition(&heap, pid);
    assert!(!remaining.contains(&root_obj.node_ptr()));
}

#[test]
fn test_two_phase_sweep_empty_partition() {
    let mut heap = new_heap();
    let pid = create_default_partition(&mut heap);

    while !heap.mark(pid, 64) {}
    let freed = two_phase_sweep(&mut heap, pid);
    assert_eq!(freed, 0);
}

#[test]
fn test_two_phase_sweep_nonexistent_partition() {
    let mut heap = new_heap();
    let freed = two_phase_sweep(&mut heap, GcPartitionId(9999));
    assert_eq!(freed, 0);
}

#[test]
fn no_steps_begin_a_cycle_and_mark_nothing() {
    let mut heap = new_heap();
    let pid = create_default_partition(&mut heap);
    heap.alloc_root_raw(pid, MyI32(1)).unwrap();
    assert!(!heap.mark(pid, 0));
    assert!(heap.partition(pid).unwrap().is_marking());
    assert!(!heap.mark_grays(pid, 0));
    assert_eq!(heap.partition(pid).unwrap().gray_len(), 1);
    assert!(heap.sweep_unlink(pid).is_none());
    assert!(heap.mark(pid, 1));
    assert_eq!(heap.partition(pid).unwrap().gray_len(), 0);
}

#[test]
fn a_reset_gives_the_cycle_up() {
    let mut heap = new_heap();
    let pid = create_default_partition(&mut heap);
    let n = heap.alloc_root_raw(pid, MyI32(1)).unwrap();
    heap.mark_prepare(pid);
    heap.mark_reset(pid);
    assert!(!heap.partition(pid).unwrap().is_marking());
    assert_eq!(heap.partition(pid).unwrap().gray_len(), 0);
    assert_eq!(heap.head(n.node_ptr()).color(), gc_lite::GcTriColor::White);
}

#[test]
fn a_sweep_tells_what_it_disposes_of() {
    let mut heap = new_heap();
    let pid = create_default_partition(&mut heap);
    heap.alloc_raw(pid, MyI32(1)).unwrap();
    heap.alloc_root_raw(pid, MyI32(2)).unwrap();
    heap.alloc_raw(pid, MyI32(3)).unwrap();
    while !heap.mark(pid, 64) {}
    let seen = std::cell::Cell::new(0);
    let freed = heap.sweep(pid, |_: &GcHeap<MyI32>, h: &GcHead| {
        assert!(!h.is_root());
        seen.set(seen.get() + 1);
    });
    assert_eq!(seen.get(), 2);
    assert_eq!(freed, 2 * heap.type_registry().info(0).layout_size);
    assert_eq!(heap.sweep(pid, |_: &GcHeap<MyI32>, _: &GcHead| {}), 0);
}
