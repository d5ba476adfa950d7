use gc_lite::{
    GcHeap, GcNode, GcPartitionId, GcPtr, GcRef, GcTrace, GcTraceCtx, GcTriColor, GcTypeInfo,
    GcTypeRegistry,
};

#[derive(Debug)]
struct TestNode {
    id: u32,
    children: Vec<GcRef<Payload>>,
}

/// A payload that is aligned to 32 bytes.
#[derive(Debug)]
struct Align32Node {
    id: u64,
    data: [u8; 64],
    #[allow(dead_code)]
    align: [std::arch::x86_64::__m256i; 0],
}

#[derive(Debug)]
enum Payload {
    Node(TestNode),
    Wide(Align32Node),
}

impl TestNode {
    fn new(id: u32) -> Self {
        Self { id, children: Vec::new() }
    }

    fn add_child(&mut self, child: GcRef<Payload>) {
        self.children.push(child);
    }
}

impl GcTrace for Payload {
    fn trace(&self, tr: &mut GcTraceCtx) {
        match self {
            Payload::Node(n) => {
                for child in &n.children {
                    tr.add(*child);
                }
            }
            Payload::Wide(_) => {}
        }
    }
}

impl GcNode for Payload {
    fn gc_type_id(&self) -> u8 {
        match self {
            Payload::Node(_) => 0,
            Payload::Wide(_) => 1,
        }
    }
}

fn new_heap() -> GcHeap<Payload> {
    GcHeap::new(
        GcTypeRegistry::new(vec![
            GcTypeInfo::of::<TestNode>(true, 0),
            GcTypeInfo::of::<Align32Node>(false, 0),
        ]),
        1,
    )
}

fn partition(heap: &mut GcHeap<Payload>) -> GcPartitionId {
    heap.create_partition_with_arena(64 * 1024, 16 * 1024)
}

fn add_node(heap: &mut GcHeap<Payload>, pid: GcPartitionId, n: TestNode) -> GcRef<Payload> {
    heap.alloc_raw(pid, Payload::Node(n)).unwrap()
}

fn alloc_root(heap: &mut GcHeap<Payload>, pid: GcPartitionId, n: TestNode) -> GcRef<Payload> {
    heap.alloc_root_raw(pid, Payload::Node(n)).unwrap()
}

fn push(node: &mut Payload, child: GcRef<Payload>) {
    match node {
        Payload::Node(n) => n.add_child(child),
        Payload::Wide(_) => unreachable!(),
    }
}

/// Adds a child behind the write barrier.
fn add(heap: &mut GcHeap<Payload>, node: GcRef<Payload>, child: GcRef<Payload>) {
    assert!(node.with_mut(heap, |n: &mut Payload| push(n, child)).is_some());
}

fn two_phase_sweep(heap: &mut GcHeap<Payload>, pid: GcPartitionId) -> usize {
    if let Some(white) = heap.sweep_unlink(pid) {
        let payloads = heap.sweep_drop_payloads(&white);
        drop(payloads);
        heap.sweep_dispose(pid, white)
    } else {
        0
    }
}

fn nodes_of(heap: &GcHeap<Payload>, pid: GcPartitionId) -> Vec<GcPtr> {
    let mut out = Vec::new();
    let mut iter = heap.nodes(pid);
    while let Some(n) = iter.next() {
        out.push(n);
    }
    out
}

fn count_nodes_in_partition(heap: &GcHeap<Payload>, pid: GcPartitionId) -> usize {
    nodes_of(heap, pid).len()
}

fn count_non_white_nodes(heap: &GcHeap<Payload>, pid: GcPartitionId) -> usize {
    nodes_of(heap, pid).iter().filter(|n| heap.head(**n).color() != GcTriColor::White).count()
}

fn id_of(heap: &GcHeap<Payload>, p: GcPtr) -> u32 {
    match heap.get(p).unwrap() {
        Payload::Node(n) => n.id,
        Payload::Wide(_) => unreachable!(),
    }
}

fn get_all_node_ids(heap: &GcHeap<Payload>, pid: GcPartitionId) -> Vec<u32> {
    nodes_of(heap, pid).iter().map(|n| id_of(heap, *n)).collect()
}

#[test]
fn test_trace_propagate_simple_tree() {
    let mut heap = new_heap();
    let partition_id = partition(&mut heap);

    let child1 = add_node(&mut heap, partition_id, TestNode::new(1));
    let child2 = add_node(&mut heap, partition_id, TestNode::new(2));

    let mut root = TestNode::new(0);
    root.add_child(child1);
    root.add_child(child2);
    let _root_ref = alloc_root(&mut heap, partition_id, root);

    while !heap.mark(partition_id, 16) {}

    assert_eq!(count_non_white_nodes(&heap, partition_id), 3);

    let ids = get_all_node_ids(&heap, partition_id);
    assert!(ids.contains(&0));
    assert!(ids.contains(&1));
    assert!(ids.contains(&2));
}

#[test]
fn test_trace_continue_simple_tree() {
    let mut heap = new_heap();
    let partition_id = partition(&mut heap);

    let child1 = add_node(&mut heap, partition_id, TestNode::new(1));
    let child2 = add_node(&mut heap, partition_id, TestNode::new(2));

    let mut root = TestNode::new(0);
    root.add_child(child1);
    root.add_child(child2);
    let _root_ref = alloc_root(&mut heap, partition_id, root);
    while !heap.mark(partition_id, 1) {}

    assert_eq!(count_non_white_nodes(&heap, partition_id), 3);
}

#[test]
fn test_trace_deep_nested_tree() {
    let mut heap = new_heap();
    let partition_id = partition(&mut heap);

    let level3 = add_node(&mut heap, partition_id, TestNode::new(3));

    let mut level2 = TestNode::new(2);
    level2.add_child(level3);
    let level2_ref = add_node(&mut heap, partition_id, level2);

    let mut level1 = TestNode::new(1);
    level1.add_child(level2_ref);
    let level1_ref = add_node(&mut heap, partition_id, level1);

    let mut level0 = TestNode::new(0);
    level0.add_child(level1_ref);
    let _level0_ref = alloc_root(&mut heap, partition_id, level0);

    while !heap.mark(partition_id, 4) {}
    assert_eq!(count_non_white_nodes(&heap, partition_id), 4);
}

#[test]
fn test_trace_complex_tree() {
    let mut heap = new_heap();
    let partition_id = partition(&mut heap);

    let c = add_node(&mut heap, partition_id, TestNode::new(3));
    let d = add_node(&mut heap, partition_id, TestNode::new(4));
    let e = add_node(&mut heap, partition_id, TestNode::new(5));
    let f = add_node(&mut heap, partition_id, TestNode::new(6));

    let mut a = TestNode::new(1);
    a.add_child(c);
    a.add_child(d);
    let a_ref = add_node(&mut heap, partition_id, a);

    let mut b = TestNode::new(2);
    b.add_child(e);
    b.add_child(f);
    let b_ref = add_node(&mut heap, partition_id, b);

    let mut root = TestNode::new(0);
    root.add_child(a_ref);
    root.add_child(b_ref);
    alloc_root(&mut heap, partition_id, root);

    while !heap.mark(partition_id, 8) {}
    assert_eq!(count_non_white_nodes(&heap, partition_id), 7);
}

#[test]
fn test_trace_algorithms_equivalence() {
    let mut heap = new_heap();
    let partition_id = partition(&mut heap);

    let mut nodes = Vec::new();
    for i in 0..10 {
        nodes.push(add_node(&mut heap, partition_id, TestNode::new(i as u32)));
    }

    // 0 -> 1,2; 1 -> 3,4; 2 -> 5,6; 3 -> 7,8; 4 -> 9
    for (from, to) in [(0, 1), (0, 2), (1, 3), (1, 4), (2, 5), (2, 6), (3, 7), (3, 8), (4, 9)] {
        add(&mut heap, nodes[from], nodes[to]);
    }

    let mut root = TestNode::new(100);
    root.add_child(nodes[0]);
    let _ = alloc_root(&mut heap, partition_id, root);
    while !heap.mark(partition_id, 16) {}
    let marks1 = count_non_white_nodes(&heap, partition_id);

    heap.mark_reset(partition_id);
    while !heap.mark(partition_id, 1) {}
    let marks2 = count_non_white_nodes(&heap, partition_id);

    assert_eq!(marks1, marks2);
    assert_eq!(marks1, 11);
}

#[test]
fn test_trace_circular_reference() {
    let mut heap = new_heap();
    let partition_id = partition(&mut heap);

    let node1 = add_node(&mut heap, partition_id, TestNode::new(1));
    let node2 = add_node(&mut heap, partition_id, TestNode::new(2));
    add(&mut heap, node1, node2);
    add(&mut heap, node2, node1);

    let mut root = TestNode::new(100);
    root.add_child(node1);
    let _ = alloc_root(&mut heap, partition_id, root);
    while !heap.mark(partition_id, 4) {}

    assert_eq!(
        count_non_white_nodes(&heap, partition_id),
        3,
        "Propagate should handle circular reference"
    );

    heap.mark_reset(partition_id);
    while !heap.mark(partition_id, 1) {}
    assert_eq!(count_non_white_nodes(&heap, partition_id), 3);
}

#[test]
fn test_write_barrier_black_node_adds_white_child() {
    let mut heap = new_heap();
    let partition_id = partition(&mut heap);

    let child = add_node(&mut heap, partition_id, TestNode::new(1));
    let root = alloc_root(&mut heap, partition_id, TestNode::new(0));

    while !heap.mark(partition_id, 1) {}
    assert_eq!(count_non_white_nodes(&heap, partition_id), 1);

    add(&mut heap, root, child);

    while !heap.mark(partition_id, 1) {}

    assert_eq!(
        count_non_white_nodes(&heap, partition_id),
        2,
        "Write barrier should have re-grayed root and discovered child"
    );

    let freed = two_phase_sweep(&mut heap, partition_id);
    assert_eq!(freed, 0, "No nodes should be freed after write barrier");

    let ids = get_all_node_ids(&heap, partition_id);
    assert!(ids.contains(&0));
    assert!(ids.contains(&1));
}

#[test]
fn test_write_barrier_incremental_black_adds_white() {
    let mut heap = new_heap();
    let partition_id = partition(&mut heap);

    let c = add_node(&mut heap, partition_id, TestNode::new(3));
    let b = add_node(&mut heap, partition_id, TestNode::new(2));
    add(&mut heap, b, c);
    let a = add_node(&mut heap, partition_id, TestNode::new(1));
    add(&mut heap, a, b);
    let root = alloc_root(&mut heap, partition_id, TestNode::new(0));
    add(&mut heap, root, a);

    while !heap.mark(partition_id, 1) {}

    let new_child = add_node(&mut heap, partition_id, TestNode::new(10));
    add(&mut heap, root, new_child);

    while !heap.mark(partition_id, 1) {}

    assert_eq!(
        count_non_white_nodes(&heap, partition_id),
        5,
        "Write barrier should have preserved the new child added during marking"
    );

    let freed = two_phase_sweep(&mut heap, partition_id);
    assert_eq!(freed, 0);
}

#[test]
fn test_write_barrier_bypass_leaks_white_child() {
    let mut heap = new_heap();
    let partition_id = partition(&mut heap);

    let child = add_node(&mut heap, partition_id, TestNode::new(1));
    let root = alloc_root(&mut heap, partition_id, TestNode::new(0));

    while !heap.mark(partition_id, 1) {}
    assert_eq!(count_non_white_nodes(&heap, partition_id), 1);

    push(heap.payload_mut(root.node_ptr()).unwrap(), child);

    while !heap.mark(partition_id, 1) {}

    assert_eq!(
        count_non_white_nodes(&heap, partition_id),
        1,
        "Without write barrier, the white child should remain unmarked"
    );

    let freed = two_phase_sweep(&mut heap, partition_id);
    assert!(freed > 0, "The white child should be swept without write barrier");

    let ids = get_all_node_ids(&heap, partition_id);
    assert!(ids.contains(&0));
    assert!(!ids.contains(&1), "Child should have been collected");
}

fn wide(heap: &GcHeap<Payload>, r: GcRef<Payload>) -> (u64, u8, u8) {
    match r.get(heap).unwrap() {
        Payload::Wide(n) => (n.id, n.data[0], n.data[63]),
        Payload::Node(_) => unreachable!(),
    }
}

#[test]
fn test_high_alignment_payload_alloc_and_access() {
    let mut heap = new_heap();
    let partition_id = partition(&mut heap);

    let node = heap
        .alloc_root_raw(partition_id, Payload::Wide(Align32Node { id: 42, data: [0xAB; 64], align: [] }))
        .unwrap();

    assert_eq!(wide(&heap, node), (42, 0xAB, 0xAB));

    // A node of the type is aligned to 32 bytes, and so is the payload inside it.
    let info = *heap.type_registry().info(1);
    assert_eq!(info.layout().1 % 32, 0);
    assert_eq!(info.payload_ptr(4096) % 32, 0, "payload must be 32-byte aligned");
    assert_eq!(info.layout().0 % 32, 0);

    while !heap.mark(partition_id, 64) {}
    let freed = two_phase_sweep(&mut heap, partition_id);
    assert_eq!(freed, 0);

    assert_eq!(wide(&heap, node).0, 42);
}

#[test]
fn test_high_alignment_payload_multiple_nodes() {
    let mut heap = new_heap();
    let partition_id = partition(&mut heap);

    let nodes: Vec<GcRef<Payload>> = (0..10)
        .map(|i| {
            heap.alloc_root_raw(
                partition_id,
                Payload::Wide(Align32Node { id: i as u64, data: [i as u8; 64], align: [] }),
            )
            .unwrap()
        })
        .collect();

    let info = *heap.type_registry().info(1);
    for (i, node) in nodes.iter().enumerate() {
        assert_eq!(wide(&heap, *node), (i as u64, i as u8, i as u8));
        assert_eq!(info.payload_ptr(i * info.layout_size) % 32, 0);
    }

    while !heap.mark(partition_id, 64) {}
    let freed = two_phase_sweep(&mut heap, partition_id);
    assert_eq!(freed, 0);

    for (i, node) in nodes.iter().enumerate() {
        assert_eq!(wide(&heap, *node).0, i as u64);
    }
}

#[test]
fn test_cross_partition_basic_ref() {
    let mut heap = new_heap();
    let p0 = partition(&mut heap);
    let p1 = partition(&mut heap);

    let node_b = add_node(&mut heap, p1, TestNode::new(2));

    let mut node_a = TestNode::new(1);
    node_a.add_child(node_b);
    let node_a_ref = add_node(&mut heap, p0, node_a);

    let mut root = TestNode::new(0);
    root.add_child(node_a_ref);
    let _root_ref = alloc_root(&mut heap, p0, root);

    assert_eq!(count_nodes_in_partition(&heap, p0), 2);
    assert_eq!(count_nodes_in_partition(&heap, p1), 1);

    while !heap.mark(p0, 16) {}

    assert_eq!(count_non_white_nodes(&heap, p0), 2, "p0: Root + NodeA should be marked");
    assert_eq!(
        count_non_white_nodes(&heap, p1),
        1,
        "p1: NodeB should be marked via cross-partition push"
    );

    two_phase_sweep(&mut heap, p0);
    assert_eq!(count_nodes_in_partition(&heap, p1), 1);

    while !heap.mark(p1, 16) {}
    let freed = two_phase_sweep(&mut heap, p1);
    assert_eq!(freed, 0, "p1 should have no garbage to collect");

    let ids1 = get_all_node_ids(&heap, p1);
    assert_eq!(ids1, vec![2], "NodeB should survive p1's sweep");
}

#[test]
fn test_cross_partition_chain_with_garbage() {
    let mut heap = new_heap();
    let p0 = partition(&mut heap);
    let p1 = partition(&mut heap);

    let node_c = add_node(&mut heap, p1, TestNode::new(3));

    let mut node_b = TestNode::new(2);
    node_b.add_child(node_c);
    let node_b_ref = add_node(&mut heap, p1, node_b);

    let mut node_a = TestNode::new(1);
    node_a.add_child(node_b_ref);
    let node_a_ref = add_node(&mut heap, p0, node_a);

    let mut root = TestNode::new(0);
    root.add_child(node_a_ref);
    let _root_ref = alloc_root(&mut heap, p0, root);

    let _node_d = add_node(&mut heap, p1, TestNode::new(4));

    assert_eq!(count_nodes_in_partition(&heap, p0), 2);
    assert_eq!(count_nodes_in_partition(&heap, p1), 3);

    while !heap.mark(p0, 16) {}

    assert_eq!(count_non_white_nodes(&heap, p0), 2, "p0: Root + NodeA marked");
    assert_eq!(
        count_non_white_nodes(&heap, p1),
        1,
        "p1: NodeB marked via cross-partition push; C needs p1's own mark"
    );

    two_phase_sweep(&mut heap, p0);

    while !heap.mark(p1, 16) {}
    assert_eq!(
        count_non_white_nodes(&heap, p1),
        2,
        "p1: B + C both marked after p1 processes its gray_list"
    );
    let freed = two_phase_sweep(&mut heap, p1);
    assert!(freed > 0, "p1 should free isolated node D");

    let ids1 = get_all_node_ids(&heap, p1);
    assert!(ids1.contains(&2), "NodeB should survive (cross-partition protected)");
    assert!(ids1.contains(&3), "NodeC should survive (transitive cross-partition protected)");
    assert!(!ids1.contains(&4), "NodeD should be collected (no incoming ref)");
}

#[test]
fn test_cross_partition_three_way_cascade() {
    let mut heap = new_heap();
    let p0 = partition(&mut heap);
    let p1 = partition(&mut heap);
    let p2 = partition(&mut heap);

    let node_c = add_node(&mut heap, p2, TestNode::new(3));

    let mut node_b = TestNode::new(2);
    node_b.add_child(node_c);
    let node_b_ref = add_node(&mut heap, p1, node_b);

    let mut node_a = TestNode::new(1);
    node_a.add_child(node_b_ref);
    let node_a_ref = add_node(&mut heap, p0, node_a);

    let mut root = TestNode::new(0);
    root.add_child(node_a_ref);
    let _root_ref = alloc_root(&mut heap, p0, root);

    while !heap.mark(p0, 16) {}

    assert_eq!(count_non_white_nodes(&heap, p0), 2, "p0: Root + NodeA");
    assert_eq!(count_non_white_nodes(&heap, p1), 1, "p1: NodeB (cross-partition from A)");
    assert_eq!(
        count_non_white_nodes(&heap, p2),
        0,
        "p2: NodeC not yet traced (needs p2's mark_grays)"
    );

    two_phase_sweep(&mut heap, p0);
    while !heap.mark(p1, 16) {}
    two_phase_sweep(&mut heap, p1);
    while !heap.mark(p2, 16) {}
    let freed = two_phase_sweep(&mut heap, p2);
    assert_eq!(freed, 0, "no garbage in cascade");

    assert!(
        get_all_node_ids(&heap, p2).contains(&3),
        "NodeC should survive entire GC cascade"
    );
}

#[test]
fn test_cross_partition_bidirectional_circular() {
    let mut heap = new_heap();
    let p0 = partition(&mut heap);
    let p1 = partition(&mut heap);

    let node_a_ref = add_node(&mut heap, p0, TestNode::new(1));

    let mut node_b = TestNode::new(2);
    node_b.add_child(node_a_ref);
    let node_b_ref = add_node(&mut heap, p1, node_b);

    add(&mut heap, node_a_ref, node_b_ref);

    let mut root = TestNode::new(0);
    root.add_child(node_a_ref);
    let _root_ref = alloc_root(&mut heap, p0, root);

    assert_eq!(count_nodes_in_partition(&heap, p0), 2);
    assert_eq!(count_nodes_in_partition(&heap, p1), 1);

    while !heap.mark(p0, 16) {}

    assert_eq!(count_non_white_nodes(&heap, p0), 2, "Root + NodeA");
    assert_eq!(
        count_non_white_nodes(&heap, p1),
        1,
        "NodeB reachable via cross-partition cycle"
    );

    two_phase_sweep(&mut heap, p0);
    while !heap.mark(p1, 16) {}
    let freed = two_phase_sweep(&mut heap, p1);
    assert_eq!(freed, 0);

    assert!(get_all_node_ids(&heap, p0).contains(&1), "NodeA survives");
    assert!(get_all_node_ids(&heap, p1).contains(&2), "NodeB survives");
}

#[test]
fn bind_saves_a_child_that_was_written_without_the_barrier() {
    let mut heap = new_heap();
    let pid = partition(&mut heap);
    let child = add_node(&mut heap, pid, TestNode::new(1));
    let root = alloc_root(&mut heap, pid, TestNode::new(0));
    while !heap.mark(pid, 1) {}
    push(heap.payload_mut(root.node_ptr()).unwrap(), child);
    heap.bind(root.node_ptr(), child.node_ptr());
    assert_eq!(heap.head(child.node_ptr()).color(), GcTriColor::Gray);
    while !heap.mark(pid, 1) {}
    assert_eq!(two_phase_sweep(&mut heap, pid), 0);
    assert_eq!(get_all_node_ids(&heap, pid), vec![0, 1]);
}

#[test]
fn a_traversal_goes_depth_first_and_visits_once() {
    let mut heap = new_heap();
    let p0 = partition(&mut heap);
    let p1 = partition(&mut heap);
    let d = add_node(&mut heap, p0, TestNode::new(4));
    let mut b = TestNode::new(2);
    b.add_child(d);
    let b = add_node(&mut heap, p1, b);
    let mut c = TestNode::new(3);
    c.add_child(d);
    let c = add_node(&mut heap, p0, c);
    let mut a = TestNode::new(1);
    a.add_child(b);
    a.add_child(c);
    let a = add_node(&mut heap, p0, a);
    add(&mut heap, d, a);

    let visits = heap.traverse(a.node_ptr(), None);
    let ids: Vec<u32> = visits.iter().map(|v| id_of(&heap, v.0)).collect();
    assert_eq!(ids, vec![1, 2, 4, 3]);
    assert_eq!(visits[0].1, None);
    assert_eq!(visits[1].1, Some(a.node_ptr()));
    assert_eq!(visits[2].1, Some(b.node_ptr()));
    assert_eq!(visits[3].1, Some(a.node_ptr()));

    assert_eq!(heap.traverse(a.node_ptr(), None).len(), 0);
    heap.traverse_start(p0);
    heap.traverse_start(p1);
    let visits = heap.traverse(a.node_ptr(), Some(p1));
    assert_eq!(visits.len(), 1);
    assert_eq!(visits[0].0, b.node_ptr());
}

#[test]
fn containers_trace_what_they_hold() {
    let mut heap = new_heap();
    let pid = partition(&mut heap);
    let a = add_node(&mut heap, pid, TestNode::new(1));
    let b = add_node(&mut heap, pid, TestNode::new(2));
    let (pa, pb) = (a.node_ptr(), b.node_ptr());
    assert_eq!(a.gc_children(0), vec![pa]);
    assert_eq!(vec![a, b, a].gc_children(0), vec![pa, pb]);
    assert_eq!(Some(b).gc_children(0), vec![pb]);
    assert_eq!(None::<GcRef<Payload>>.gc_children(0), vec![]);
    assert_eq!((1u8, a, String::new(), b).gc_children(0), vec![pa, pb]);
    assert_eq!([b, a].gc_children(0), vec![pb, pa]);
    assert_eq!(Box::new(a).gc_children(0), vec![pa]);
    assert_eq!(Ok::<GcRef<Payload>, u32>(b).gc_children(0), vec![pb]);
    assert_eq!(std::collections::VecDeque::from(vec![a, b]).gc_children(0), vec![pa, pb]);
    assert_eq!(std::rc::Rc::new(a).gc_children(0), vec![pa]);
    assert_eq!(true.gc_children(0), vec![]);

    let mut gcx = GcTraceCtx::new(8, 5);
    gcx.add(a);
    gcx.add_node(pa);
    gcx.add(b);
    assert_eq!(gcx.opaque(), 5);
    assert_eq!(gcx.take_nodes(), vec![pa, pb]);
    assert_eq!(gcx.take_nodes(), vec![]);
}
