use gc_lite::{
    GcHead, GcHeap, GcNode, GcPartitionId, GcRef, GcScopeStackId, GcTrace, GcTraceCtx, GcTypeInfo,
    GcTypeRegistry,
};

#[derive(Debug)]
struct Node {
    next: Option<GcRef<Node>>,
    value: i32,
}

impl GcTrace for Node {
    fn trace(&self, tr: &mut GcTraceCtx) {
        if let Some(next) = self.next {
            tr.add(next);
        }
    }
}

impl GcNode for Node {
    fn gc_type_id(&self) -> u8 {
        0
    }
}

fn new_heap() -> (GcHeap<Node>, GcPartitionId) {
    let registry = GcTypeRegistry::new(vec![GcTypeInfo::of::<Node>(false, 0)]);
    let mut heap = GcHeap::new(registry, 1);
    let partition_id = heap.create_partition();
    (heap, partition_id)
}

fn node(value: i32) -> Node {
    Node { next: None, value }
}

fn collect(heap: &mut GcHeap<Node>, pid: GcPartitionId) -> usize {
    while !heap.mark(pid, 64) {}
    heap.sweep(pid, |_: &GcHeap<Node>, _: &GcHead| {})
}

#[test]
fn test_gc_context_local_flag_set_and_cleared_on_commit() {
    let (mut heap, partition_id) = new_heap();
    let stack_id = heap.acquire_scope_stack(partition_id);

    let ctx = heap.new_scope(stack_id);
    let head = ctx.alloc_local(&mut heap, node(1)).unwrap().node_ptr();
    assert!(heap.head(head).is_local());

    ctx.clear(&mut heap);
    assert!(!heap.head(head).is_local());

    heap.close_scope(ctx);
    assert!(!heap.head(head).is_local());
}

#[test]
fn test_gc_context_alloc_protects_and_unprotects_on_drop() {
    let (mut heap, partition_id) = new_heap();
    let stack_id = heap.acquire_scope_stack(partition_id);

    let ctx = heap.new_scope(stack_id);
    let head = ctx.alloc_local(&mut heap, node(1)).unwrap().node_ptr();
    assert!(heap.head(head).is_local());

    let removed = collect(&mut heap, partition_id);
    assert_eq!(removed, 0);
    ctx.clear(&mut heap);
    heap.close_scope(ctx);

    assert!(!heap.head(head).is_local());

    let removed_after = collect(&mut heap, partition_id);
    assert!(removed_after > 0);
}

#[test]
fn test_gc_context_add_sets_local_and_clears_on_commit() {
    let (mut heap, partition_id) = new_heap();
    let stack_id = heap.acquire_scope_stack(partition_id);

    let head = heap.alloc_raw(partition_id, node(1)).unwrap().node_ptr();
    assert!(!heap.head(head).is_local());

    let ctx = heap.new_scope(stack_id);
    let added = ctx.add_non_local(&mut heap, head);
    assert!(added);
    assert!(heap.head(head).is_local());

    ctx.clear(&mut heap);
    assert!(!heap.head(head).is_local());
    heap.close_scope(ctx);
    assert!(!heap.head(head).is_local());

    let removed_after = collect(&mut heap, partition_id);
    assert!(removed_after > 0);
}

#[test]
fn test_gc_context_add_on_local_node_returns_false() {
    let (mut heap, partition_id) = new_heap();
    let stack_id = heap.acquire_scope_stack(partition_id);

    let ctx = heap.new_scope(stack_id);
    let head = ctx.alloc_local(&mut heap, node(1)).unwrap().node_ptr();

    assert!(heap.head(head).is_local());
    let added = ctx.add_non_local(&mut heap, head);
    assert!(!added);
    assert!(heap.head(head).is_local());

    ctx.clear(&mut heap);
    assert!(!heap.head(head).is_local());
}

#[test]
fn test_root_node_not_collected_by_sweep() {
    let (mut heap, partition_id) = new_heap();

    let n = heap.alloc_root_raw(partition_id, node(1)).unwrap();
    let head = n.node_ptr();
    assert!(n.is_root(&heap));
    assert!(heap.head(head).is_root());
    assert!(!heap.head(head).is_local());

    let removed_after = collect(&mut heap, partition_id);
    assert_eq!(removed_after, 0);
}

#[test]
fn test_gc_context_alloc_multiple_nodes() {
    let (mut heap, partition_id) = new_heap();
    let stack_id = heap.acquire_scope_stack(partition_id);

    let ctx = heap.new_scope(stack_id);
    let head1 = ctx.alloc_local(&mut heap, node(1)).unwrap().node_ptr();
    let head2 = ctx.alloc_local(&mut heap, node(2)).unwrap().node_ptr();

    assert!(heap.head(head1).is_local());
    assert!(heap.head(head2).is_local());

    let removed = collect(&mut heap, partition_id);
    assert_eq!(removed, 0);
    ctx.clear(&mut heap);
    heap.close_scope(ctx);

    assert!(!heap.head(head1).is_local());
    assert!(!heap.head(head2).is_local());

    let removed_after = collect(&mut heap, partition_id);
    assert!(removed_after >= 2);
}

#[test]
fn test_gc_context_reset_unprotects_and_clears_cache() {
    let (mut heap, partition_id) = new_heap();
    let stack_id = heap.acquire_scope_stack(partition_id);

    let ctx = heap.new_scope(stack_id);
    let head = ctx.alloc_local(&mut heap, node(1)).unwrap().node_ptr();
    assert!(heap.head(head).is_local());

    ctx.clear(&mut heap);
    assert!(!heap.head(head).is_local());

    let removed_before = collect(&mut heap, partition_id);
    assert!(removed_before > 0);
}

#[test]
fn test_gc_context_level_for_heap_scopes() {
    let (mut heap, partition_id) = new_heap();
    let stack_id = heap.acquire_scope_stack(partition_id);

    assert_eq!(heap.scope_max_depth(stack_id), 0);

    let s1 = heap.new_scope(stack_id);
    let s2 = heap.new_scope(stack_id);
    let s3 = heap.new_scope(stack_id);

    assert_eq!(s3.state(&heap).depth(), 3);
    assert_eq!(s2.state(&heap).depth(), 2);
    assert_eq!(s1.state(&heap).depth(), 1);

    assert_eq!(heap.scope(stack_id, 3).unwrap().depth(), 3);
    assert_eq!(heap.scope(stack_id, 2).unwrap().depth(), 2);
    assert_eq!(heap.scope(stack_id, 1).unwrap().depth(), 1);
    assert!(heap.scope(stack_id, 0).is_none());
    assert!(heap.scope(stack_id, 4).is_none());
}

#[test]
fn test_gc_context_parent_mut_returns_parent_and_level() {
    let (mut heap, partition_id) = new_heap();
    let stack_id = heap.acquire_scope_stack(partition_id);

    let scope1 = heap.new_scope(stack_id);
    let scope2 = heap.new_scope(stack_id);
    let scope3 = heap.new_scope(stack_id);

    assert_eq!(scope3.state(&heap).depth(), 3);
    let (parent, parent_level) = scope3.parent(&heap).unwrap();
    assert_eq!(parent_level, 2);
    assert_eq!(parent.state(&heap).depth(), 2);

    heap.close_scope(scope3);

    assert_eq!(scope2.state(&heap).depth(), 2);
    let (parent, parent_level) = scope2.parent(&heap).unwrap();
    assert_eq!(parent_level, 1);
    assert_eq!(parent.state(&heap).depth(), 1);

    heap.close_scope(scope2);

    assert_eq!(scope1.state(&heap).depth(), 1);
    assert!(scope1.parent(&heap).is_none());
}

#[test]
fn test_multi_scope_stacks_are_independent() {
    let (mut heap, partition_id) = new_heap();
    let stack1 = heap.acquire_scope_stack(partition_id);
    let stack2 = heap.acquire_scope_stack(partition_id);

    assert_ne!(stack1, stack2);
    assert_eq!(heap.scope_max_depth(stack1), 0);
    assert_eq!(heap.scope_max_depth(stack2), 0);

    let s1a = heap.new_scope(stack1);
    let s2a = heap.new_scope(stack2);
    let s1b = heap.new_scope(stack1);

    assert_eq!(heap.scope_max_depth(stack1), 2);
    assert_eq!(heap.scope_max_depth(stack2), 1);
    assert_eq!(heap.current_scope(stack1).unwrap().depth(), 2);
    assert_eq!(heap.current_scope(stack2).unwrap().depth(), 1);

    let (parent, parent_level) = s1b.parent(&heap).unwrap();
    assert_eq!(parent_level, 1);
    assert_eq!(parent.state(&heap).depth(), 1);
    assert_eq!(parent.state(&heap).stack_id(), stack1);

    heap.close_scope(s1b);
    heap.close_scope(s2a);
    heap.close_scope(s1a);

    assert_eq!(heap.scope_max_depth(stack1), 0);
    assert_eq!(heap.scope_max_depth(stack2), 0);

    heap.release_scope_stack(stack1);
    heap.release_scope_stack(stack2);

    let reused = heap.acquire_scope_stack(partition_id);
    assert_eq!(reused, stack1);
}

#[test]
fn test_gc_scope_drop_is_lifo_per_stack() {
    let (mut heap, partition_id) = new_heap();
    let stack1 = heap.acquire_scope_stack(partition_id);
    let stack2 = heap.acquire_scope_stack(partition_id);

    let scope1 = heap.new_scope(stack1);
    let scope2 = heap.new_scope(stack2);

    heap.close_scope(scope1);
    heap.close_scope(scope2);

    assert_eq!(heap.scope_max_depth(stack1), 0);
    assert_eq!(heap.scope_max_depth(stack2), 0);
    assert!(!heap.pop_scope(stack1));
}

#[test]
fn scopes_keep_many_nodes_in_order() {
    let (mut heap, pid) = new_heap();
    let stack = heap.acquire_scope_stack(pid);
    assert_eq!(stack, GcScopeStackId(0));
    let scope = heap.new_scope(stack);
    let nodes: Vec<_> =
        (0..20).map(|i| scope.alloc_local(&mut heap, node(i)).unwrap().node_ptr()).collect();
    assert_eq!(scope.count(&heap), 20);
    assert_eq!(scope.state(&heap).partition_id(), pid);
    for n in &nodes {
        assert!(scope.contains(&heap, *n));
    }
    assert!(scope.remove_node(&mut heap, nodes[3]));
    assert!(!scope.remove_node(&mut heap, nodes[3]));
    assert!(!scope.contains(&heap, nodes[3]));
    assert!(!heap.head(nodes[3]).is_local());
    assert_eq!(scope.count(&heap), 19);
    for (i, n) in nodes.iter().enumerate() {
        assert_eq!(scope.contains(&heap, *n), i != 3);
    }
    assert_eq!(collect(&mut heap, pid), heap.type_registry().info(0).layout_size);
    heap.close_scope(scope);
    for (i, n) in nodes.iter().enumerate() {
        if i != 3 {
            assert!(!heap.head(*n).is_local());
        }
    }
}

#[test]
fn a_promoted_node_outlives_its_scope() {
    let (mut heap, pid) = new_heap();
    let stack = heap.acquire_scope_stack(pid);
    let outer = heap.new_scope(stack);
    let inner = heap.new_scope(stack);
    let a = inner.alloc_local(&mut heap, node(1)).unwrap().node_ptr();
    let b = inner.alloc_local(&mut heap, node(2)).unwrap().node_ptr();
    assert!(inner.promote_node_to(&mut heap, a, &outer));
    assert!(!inner.promote_node_to(&mut heap, a, &outer));
    assert!(outer.contains(&heap, a));
    assert!(heap.head(a).is_local());
    heap.close_scope(inner);
    assert!(heap.head(a).is_local());
    assert!(!heap.head(b).is_local());
    collect(&mut heap, pid);
    assert!(heap.contains(a));
    assert!(!heap.contains(b));
}

#[test]
fn protection_needs_a_scope() {
    let (mut heap, pid) = new_heap();
    let stack = heap.acquire_scope_stack(pid);
    let a = heap.alloc_raw(pid, node(1)).unwrap().node_ptr();
    let root = heap.alloc_root_raw(pid, node(2)).unwrap().node_ptr();
    assert!(!heap.protect_node(stack, a));
    assert!(heap.protect_node(stack, root));
    let scope = heap.new_scope(stack);
    assert!(heap.protect_node(stack, a));
    assert!(heap.protect_node(stack, a));
    assert_eq!(scope.count(&heap), 1);
    let b = heap.alloc_raw(pid, node(3)).unwrap().node_ptr();
    let c = heap.alloc_raw(pid, node(4)).unwrap().node_ptr();
    heap.protect_nodes(stack, &vec![b, root, c, b]);
    assert_eq!(scope.count(&heap), 3);
    assert!(scope.contains(&heap, b) && scope.contains(&heap, c));
}

#[test]
fn what_a_scope_takes_in_during_marking_survives() {
    let (mut heap, pid) = new_heap();
    let stack = heap.acquire_scope_stack(pid);
    let scope = heap.new_scope(stack);
    let c = heap.alloc_raw(pid, node(1)).unwrap();
    let p = heap.alloc_raw(pid, Node { next: Some(c), value: 2 }).unwrap();
    assert!(heap.mark(pid, 8));
    assert!(scope.add_non_local(&mut heap, p.node_ptr()));
    assert_eq!(collect(&mut heap, pid), 0);
    assert_eq!(p.get(&heap).unwrap().value, 2);
    assert!(heap.contains(c.node_ptr()));
}

#[test]
fn a_function_runs_inside_of_a_scope() {
    let (mut heap, partition_id) = new_heap();
    let stack_id = heap.acquire_scope_stack(partition_id);
    assert_eq!(heap.scope_stack_count(), 1);
    assert!(heap.is_scope_stack_acquired(stack_id));
    assert!(!heap.is_scope_stack_acquired(GcScopeStackId(9)));
    assert_eq!(heap.with_current_scope_of(stack_id, |_, _| 7), None);

    let (held, inner) = heap.with_new_scope(stack_id, |heap, scope| {
        let held = scope.alloc_local(heap, node(1)).unwrap().node_ptr();
        assert_eq!(collect(heap, partition_id), 0);
        let inner = heap.with_current_scope_of(stack_id, |heap, current| {
            assert_eq!(current, scope);
            current.count(heap)
        });
        (held, inner)
    });
    assert_eq!(inner, Some(1));
    assert_eq!(heap.scope_max_depth(stack_id), 0);
    assert!(!heap.head(held).is_local());
    assert!(collect(&mut heap, partition_id) > 0);
    assert!(!heap.is_live(held));
}
