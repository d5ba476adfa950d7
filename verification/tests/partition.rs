use gc_lite::{
    GcHead, GcHeap, GcNode, GcPartitionId, GcTrace, GcTraceCtx, GcTypeInfo, GcTypeRegistry,
    ARENA_CAPACITY, MAX_ARENA_ALLOC,
};

#[derive(Debug)]
struct DummyType;

impl GcTrace for DummyType {
    fn trace(&self, _: &mut GcTraceCtx) {}
}

impl GcNode for DummyType {
    fn gc_type_id(&self) -> u8 {
        0
    }
}

fn new_heap() -> GcHeap<DummyType> {
    GcHeap::new(GcTypeRegistry::new(vec![GcTypeInfo::of::<DummyType>(false, 0)]), 1)
}

#[test]
fn test_partition_creation() {
    let mut heap = new_heap();
    let id = heap.create_partition();

    let partition = heap.partition(id).unwrap();
    assert_eq!(partition.memory_used(), 0);

    let (link, _) = heap.finalize_partition(id).unwrap();
    heap.dealloc_partition(id, link);
    assert_eq!(heap.partition(id).unwrap().memory_used(), 0);
}

#[test]
fn test_gc_threshold() {
    let mut heap = new_heap();
    heap.set_memory_limit(1024);

    assert_eq!(heap.gc_threshold(), 0);

    heap.set_gc_threshold(512);
    assert_eq!(heap.gc_threshold(), 512);

    heap.set_gc_threshold(2048);
    assert_eq!(heap.gc_threshold(), 819);

    heap.set_gc_threshold(0);
    assert_eq!(heap.gc_threshold(), 0);
}

#[test]
fn test_memory_limit() {
    let mut heap = new_heap();
    let id = heap.create_partition();

    assert_eq!(heap.memory_limit(), 0);

    heap.update_mem_use(id, 100);
    assert_eq!(heap.memory_limit(), 0);

    let applied = heap.set_memory_limit(512);
    assert_eq!(applied, 512);
    assert_eq!(heap.memory_limit(), 512);

    let applied_small = heap.set_memory_limit(80);
    assert_eq!(applied_small, 100);
    assert_eq!(heap.memory_limit(), 100);

    let applied_zero = heap.set_memory_limit(0);
    assert_eq!(applied_zero, 0);
    assert_eq!(heap.memory_limit(), 0);
}

#[test]
fn test_is_ancestor_of() {
    // Partitions have no ancestors.
}

#[test]
fn test_common_parent() {
    // Partitions have no parents.
}

#[test]
fn test_update_mem_use() {
    let mut heap = new_heap();
    let id = heap.create_partition();

    heap.update_mem_use(id, 100);
    assert_eq!(heap.partition(id).unwrap().memory_used(), 100);
    assert_eq!(heap.memory_used(), 100);

    heap.update_mem_use(id, -20);
    assert_eq!(heap.partition(id).unwrap().memory_used(), 80);
    assert_eq!(heap.memory_used(), 80);

    let (link, _) = heap.finalize_partition(id).unwrap();
    heap.dealloc_partition(id, link);
}

#[test]
fn test_partition_id_serial_and_range() {
    let id = GcPartitionId(10);
    assert_eq!(id.0, 10);
}

#[test]
fn test_remove_partition_reclaims_memory_stats() {
    let mut heap = new_heap();
    let id = heap.create_partition();

    let _n1 = heap.alloc_raw(id, DummyType).unwrap();
    let _n2 = heap.alloc_raw(id, DummyType).unwrap();

    let used_before = heap.memory_used();
    assert!(used_before > 0, "memory_used should be > 0 after allocations");

    let p_used = heap.partition(id).unwrap().memory_used();
    assert!(p_used > 0, "partition memory_used should be > 0");

    let (link, _) = heap.finalize_partition(id).unwrap();
    let freed = heap.dealloc_partition(id, link);
    assert!(freed > 0, "should free some bytes");

    assert_eq!(heap.partition(id).unwrap().memory_used(), 0);
    assert_eq!(heap.memory_used(), 0, "all memory should be reclaimed");
}

#[test]
fn partitions_are_numbered_in_order() {
    let mut heap = new_heap();
    assert_eq!(heap.partition_ids(), vec![]);
    assert_eq!(heap.create_partition(), GcPartitionId(0));
    assert_eq!(heap.create_partition_with_arena(0, 0), GcPartitionId(1));
    assert_eq!(heap.partition_ids(), vec![GcPartitionId(0), GcPartitionId(1)]);
    assert_eq!(heap.partition(GcPartitionId(0)).unwrap().arena_capacity(), ARENA_CAPACITY);
    assert_eq!(heap.partition(GcPartitionId(0)).unwrap().arena_max_alloc(), MAX_ARENA_ALLOC);
    assert_eq!(heap.partition(GcPartitionId(1)).unwrap().arena_capacity(), 0);
    assert!(heap.partition(GcPartitionId(2)).is_none());
    assert!(heap.partition_mut(GcPartitionId(2)).is_none());
    assert!(heap.partition_mut(GcPartitionId(1)).is_some());
}

#[test]
fn removing_a_partition_leaves_the_others_alone() {
    let mut heap = new_heap();
    let p0 = heap.create_partition();
    let p1 = heap.create_partition();
    let a = heap.alloc_root_raw(p0, DummyType).unwrap();
    let b = heap.alloc_root_raw(p1, DummyType).unwrap();
    let size = heap.partition(p1).unwrap().memory_used();
    let freed = heap.remove_partition(p0, |_: &GcHeap<DummyType>, _: &GcHead| {});
    assert_eq!(freed, size);
    assert!(!heap.contains(a.node_ptr()));
    assert!(heap.contains(b.node_ptr()));
    assert_eq!(heap.memory_used(), size);
    assert_eq!(heap.remove_partition(GcPartitionId(7), |_: &GcHeap<DummyType>, _: &GcHead| {}), 0);
    heap.dispose_everything();
    assert!(!heap.contains(b.node_ptr()));
    assert_eq!(heap.memory_used(), 0);
}

#[test]
fn a_partition_gives_a_cursor_over_its_nodes() {
    let mut heap = new_heap();
    let id = heap.create_partition();
    let a = heap.alloc_raw(id, DummyType).ok().unwrap();
    let b = heap.alloc_raw(id, DummyType).ok().unwrap();
    assert_eq!(heap.partition(id).unwrap().nodes().to_vec(), vec![b.node_ptr(), a.node_ptr()]);
    heap.partition_mut(id).unwrap().nodes_mut();
    assert_eq!(heap.partition(id).unwrap().nodes().to_vec(), vec![b.node_ptr(), a.node_ptr()]);
}
