use gc_lite::{
    GcError, GcHead, GcHeap, GcNode, GcPartitionId, GcRef, GcTrace, GcTraceCtx, GcTypeInfo,
    GcTypeRegistry, ARENA_CAPACITY, MAX_ARENA_ALLOC,
};

#[derive(Debug)]
struct Node {
    next: Option<GcRef<Node>>,
    value: i32,
}

impl GcTrace for Node {
    fn trace(&self, tr: &mut GcTraceCtx) {
        if let Some(next) = self.next {
            tr.add(next);
        }
    }
}

impl GcNode for Node {
    fn gc_type_id(&self) -> u8 {
        0
    }
}

fn new_heap() -> GcHeap<Node> {
    GcHeap::new(GcTypeRegistry::new(vec![GcTypeInfo::of::<Node>(false, 0)]), 1)
}

fn ignore(_: &GcHeap<Node>, _: &GcHead) {}

#[test]
fn test_heap_with_context_alloc_and_cleanup() {
    let mut heap = new_heap();
    let partition_id = heap.create_partition_with_arena(ARENA_CAPACITY, MAX_ARENA_ALLOC);
    let stack_id = heap.acquire_scope_stack(partition_id);

    let ctx = heap.new_scope(stack_id);
    let _node = ctx.alloc_local(&mut heap, Node { next: None, value: 1 }).unwrap();
    ctx.clear(&mut heap);
    heap.close_scope(ctx);

    while !heap.mark(partition_id, 64) {}
    let removed_after = heap.sweep(partition_id, ignore);
    assert!(removed_after > 0);
}

#[test]
fn test_memory_used_symmetry_alloc_dispose() {
    let mut heap = new_heap();
    let id = heap.create_partition_with_arena(ARENA_CAPACITY, MAX_ARENA_ALLOC);

    let mem_before = heap.memory_used();
    let par_mem_before = heap.partition(id).unwrap().memory_used();

    let _node = heap.alloc_raw(id, Node { next: None, value: 42 }).unwrap();
    let gross_size = heap.memory_used() - mem_before;

    assert!(gross_size > 0);
    assert_eq!(heap.partition(id).unwrap().memory_used() - par_mem_before, gross_size);

    let (link, _) = heap.finalize_partition(id).unwrap();
    let freed = heap.dealloc_partition(id, link);
    assert_eq!(freed, gross_size);

    let mem_after = heap.memory_used();
    assert_eq!(
        mem_after, mem_before,
        "global memory should return to original after partition removal"
    );
}

#[test]
fn test_memory_used_symmetry_sweep() {
    let mut heap = new_heap();
    let id = heap.create_partition_with_arena(ARENA_CAPACITY, MAX_ARENA_ALLOC);

    let mem_before = heap.memory_used();
    let par_mem_before = heap.partition(id).unwrap().memory_used();

    for i in 0..3 {
        heap.alloc_raw(id, Node { next: None, value: i }).unwrap();
    }
    let _root = heap.alloc_root_raw(id, Node { next: None, value: 99 }).unwrap();

    let mem_after_alloc = heap.memory_used();
    let par_mem_after_alloc = heap.partition(id).unwrap().memory_used();
    assert!(mem_after_alloc > mem_before);
    assert!(par_mem_after_alloc > par_mem_before);

    let freed = heap.garbage_collect(id, |_, _| {});
    assert!(freed > 0);

    let mem_after_gc = heap.memory_used();
    let par_mem_after_gc = heap.partition(id).unwrap().memory_used();

    let root_size = mem_after_alloc - mem_before - freed;
    assert_eq!(mem_after_gc, mem_before + root_size);
    assert_eq!(par_mem_after_gc, par_mem_before + root_size);

    let (link, _) = heap.finalize_partition(id).unwrap();
    let freed_rem = heap.dealloc_partition(id, link);
    assert_eq!(freed_rem, root_size);
    assert_eq!(heap.memory_used(), mem_before);
}

#[test]
fn test_memory_used_update_mem_use_edge_cases() {
    let mut heap = new_heap();
    let id = heap.create_partition_with_arena(0, 0);

    assert_eq!(heap.update_mem_use(id, 50), 50);
    assert_eq!(heap.partition(id).unwrap().memory_used(), 50);
    assert_eq!(heap.memory_used(), 50);

    assert_eq!(heap.update_mem_use(id, -30), 20);
    assert_eq!(heap.partition(id).unwrap().memory_used(), 20);
    assert_eq!(heap.memory_used(), 20);

    assert_eq!(heap.update_mem_use(id, -20), 0);
    assert_eq!(heap.partition(id).unwrap().memory_used(), 0);
    assert_eq!(heap.memory_used(), 0);
}

#[test]
fn the_size_of_a_node_is_that_of_its_layout() {
    let mut heap = new_heap();
    let id = heap.create_partition();
    let size = heap.type_registry().info(0).layout_size;
    for k in 1..4 {
        heap.alloc_raw(id, Node { next: None, value: k }).unwrap();
        assert_eq!(heap.memory_used(), size * k as usize);
    }
    assert_eq!(heap.garbage_collect(id, |_, _| {}), 3 * size);
    assert_eq!(heap.memory_used(), 0);
}

#[test]
fn an_allocation_over_the_limit_hands_the_payload_back() {
    let mut heap = new_heap();
    let id = heap.create_partition();
    let size = heap.type_registry().info(0).layout_size;
    assert_eq!(heap.set_memory_limit(2 * size), 2 * size);
    heap.alloc_raw(id, Node { next: None, value: 1 }).unwrap();
    heap.alloc_root_raw(id, Node { next: None, value: 2 }).unwrap();
    match heap.alloc_raw(id, Node { next: None, value: 3 }) {
        Err((GcError::PartitionFull, back)) => assert_eq!(back.value, 3),
        _ => panic!("the limit was passed"),
    }
    assert_eq!(heap.memory_used(), 2 * size);
    heap.garbage_collect(id, |_, _| {});
    assert!(heap.alloc_raw(id, Node { next: None, value: 4 }).is_ok());
}

#[test]
fn a_missing_partition_is_told() {
    let mut heap = new_heap();
    assert!(matches!(
        heap.alloc_raw(GcPartitionId(0), Node { next: None, value: 1 }),
        Err((GcError::PartitionNotFound, _))
    ));
    assert_eq!(heap.garbage_collect(GcPartitionId(3), |_, _| {}), 0);
}

#[test]
fn the_threshold_says_when_a_collection_is_due() {
    let mut heap = new_heap();
    let id = heap.create_partition();
    let size = heap.type_registry().info(0).layout_size;
    assert!(!heap.should_gc());
    assert_eq!(heap.set_gc_threshold(2 * size), 2 * size);
    heap.alloc_raw(id, Node { next: None, value: 1 }).unwrap();
    assert!(!heap.should_gc());
    heap.alloc_raw(id, Node { next: None, value: 2 }).unwrap();
    assert!(heap.should_gc());
    heap.garbage_collect(id, |_, _| {});
    assert!(!heap.should_gc());
}

#[test]
fn a_new_limit_lowers_the_threshold_to_three_quarters() {
    let mut heap = new_heap();
    heap.set_gc_threshold(4000);
    assert_eq!(heap.set_memory_limit(2000), 2000);
    assert_eq!(heap.gc_threshold(), 1500);
    assert_eq!(heap.set_memory_limit(1600), 1600);
    assert_eq!(heap.gc_threshold(), 1500);
    assert_eq!(heap.set_memory_limit(1), 1);
    assert_eq!(heap.gc_threshold(), gc_lite::heap::min_gc_threshold());
}

#[test]
fn the_opaque_value_reaches_the_trace_context() {
    let mut heap = new_heap();
    heap.set_opaque(77);
    assert_eq!(heap.opaque(), 77);
    assert_eq!(heap.create_trace_ctx(4).opaque(), 77);
}

#[test]
fn cross_references_are_not_recorded() {
    let mut heap = new_heap();
    let id = heap.create_partition();
    let n = heap.alloc_raw(id, Node { next: None, value: 1 }).unwrap();
    assert!(!heap.set_xref(id, n.node_ptr()));
    assert_eq!(heap.head(n.node_ptr()).xref(), GcPartitionId(0));
}

#[test]
fn payloads_are_read_and_written() {
    let mut heap = new_heap();
    let id = heap.create_partition();
    let n = heap.alloc_raw(id, Node { next: None, value: 1 }).unwrap();
    assert_eq!(n.with_mut(&mut heap, |x: &mut Node| { x.value = 5; x.value * 2 }), Some(10));
    assert_eq!(n.get(&heap).unwrap().value, 5);
    heap.payload_mut(n.node_ptr()).unwrap().value = 6;
    assert_eq!(heap.get(n.node_ptr()).unwrap().value, 6);
    let off = n.node_info(&heap).payload(heap.type_registry());
    assert_eq!(off, heap.type_registry().info(0).payload_offset);
    heap.garbage_collect(id, |_, _| {});
    assert!(n.get(&heap).is_none());
}

#[test]
fn a_collection_announces_the_nodes_it_disposes_of() {
    let mut heap = new_heap();
    let id = heap.create_partition();
    let root = heap.alloc_root_raw(id, Node { next: None, value: 1 }).unwrap();
    heap.alloc_raw(id, Node { next: None, value: 2 }).unwrap();
    heap.alloc_raw(id, Node { next: None, value: 3 }).unwrap();
    let seen = std::cell::RefCell::new(Vec::new());
    let freed = heap.garbage_collect(id, |h, n| {
        seen.borrow_mut().push((n.is_root(), h.memory_used()));
    });
    let size = freed / 2;
    assert_eq!(*seen.borrow(), vec![(false, 3 * size), (false, 2 * size)]);
    assert!(heap.is_live(root.node_ptr()));
    assert_eq!(heap.memory_used(), size);
}
