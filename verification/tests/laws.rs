use gc_lite::{
    GcHead, GcHeap, GcNode, GcPartitionId, GcPtr, GcRef, GcTrace, GcTraceCtx, GcTriColor,
    GcTypeInfo, GcTypeRegistry, GcWeak,
};
use std::cell::RefCell;
use std::rc::Rc;

/// A payload with references, a type of its own choice and a log of its drop.
struct Thing {
    kind: u8,
    refs: Vec<GcRef<Thing>>,
    log: Option<(u32, Rc<RefCell<Vec<u32>>>)>,
}

impl Drop for Thing {
    fn drop(&mut self) {
        if let Some((id, log)) = &self.log {
            log.borrow_mut().push(*id);
        }
    }
}

impl GcTrace for Thing {
    fn trace(&self, gcx: &mut GcTraceCtx) {
        self.refs.trace(gcx);
    }
}

impl GcNode for Thing {
    fn gc_type_id(&self) -> u8 {
        self.kind
    }
}

fn new_heap() -> GcHeap<Thing> {
    GcHeap::new(
        GcTypeRegistry::new(vec![
            GcTypeInfo::of::<Thing>(true, 0),
            GcTypeInfo::of::<Thing>(true, 2),
            GcTypeInfo::of::<Thing>(true, 1),
        ]),
        9,
    )
}

fn thing(refs: Vec<GcRef<Thing>>) -> Thing {
    Thing { kind: 0, refs, log: None }
}

fn put(heap: &mut GcHeap<Thing>, pid: GcPartitionId, refs: Vec<GcRef<Thing>>) -> GcRef<Thing> {
    heap.alloc_raw(pid, thing(refs)).ok().unwrap()
}

fn put_root(heap: &mut GcHeap<Thing>, pid: GcPartitionId, refs: Vec<GcRef<Thing>>) -> GcRef<Thing> {
    heap.alloc_root_raw(pid, thing(refs)).ok().unwrap()
}

fn chain(heap: &GcHeap<Thing>, pid: GcPartitionId) -> Vec<GcPtr> {
    heap.partition(pid).unwrap().nodes().to_vec()
}

#[test]
fn a_collection_keeps_exactly_what_is_reachable() {
    let mut heap = new_heap();
    let pid = heap.create_partition();
    let a = put(&mut heap, pid, vec![]);
    let b = put(&mut heap, pid, vec![a]);
    let _x = put(&mut heap, pid, vec![b]);
    let y = put(&mut heap, pid, vec![]);
    let z = put(&mut heap, pid, vec![y]);
    y.with_mut(&mut heap, |t: &mut Thing| t.refs.push(z));
    let r = put_root(&mut heap, pid, vec![b]);
    let size = heap.type_registry().info(0).layout_size;
    assert_eq!(heap.garbage_collect(pid, |_, _| {}), 3 * size);
    assert_eq!(chain(&heap, pid), vec![r.node_ptr(), b.node_ptr(), a.node_ptr()]);
    assert!(!heap.is_live(y.node_ptr()));
    assert_eq!(heap.garbage_collect(pid, |_, _| {}), 0);
    assert_eq!(chain(&heap, pid), vec![r.node_ptr(), b.node_ptr(), a.node_ptr()]);
    assert_eq!(heap.memory_used(), 3 * size);
}

#[test]
fn a_reference_from_another_partition_keeps_a_node() {
    let mut heap = new_heap();
    let p0 = heap.create_partition();
    let p1 = heap.create_partition();
    let x = put(&mut heap, p0, vec![]);
    let lost = put(&mut heap, p0, vec![x]);
    let root = put_root(&mut heap, p1, vec![x]);
    let size = heap.type_registry().info(0).layout_size;
    assert_eq!(heap.garbage_collect(p0, |_, _| {}), size);
    assert_eq!(heap.garbage_collect(p0, |_, _| {}), 0);
    assert_eq!(chain(&heap, p0), vec![x.node_ptr()]);
    assert!(!heap.is_live(lost.node_ptr()));
    heap.set_root(root, false);
    assert_eq!(heap.garbage_collect(p0, |_, _| {}), size);
    assert_eq!(chain(&heap, p0), vec![]);
    assert!(heap.is_live(root.node_ptr()));
}

#[test]
fn what_is_reached_through_other_partitions_is_kept() {
    let mut heap = new_heap();
    let p: Vec<GcPartitionId> = (0..3).map(|_| heap.create_partition()).collect();
    let a = put(&mut heap, p[0], vec![]);
    let b = put(&mut heap, p[1], vec![a]);
    let c = put(&mut heap, p[0], vec![b]);
    let d = put(&mut heap, p[2], vec![c]);
    let root = put_root(&mut heap, p[1], vec![d]);
    let _lost = put(&mut heap, p[0], vec![root]);
    for pid in [p[2], p[0], p[1]] {
        heap.garbage_collect(pid, |_, _| {});
    }
    assert_eq!(chain(&heap, p[0]), vec![c.node_ptr(), a.node_ptr()]);
    assert_eq!(chain(&heap, p[1]), vec![root.node_ptr(), b.node_ptr()]);
    assert_eq!(chain(&heap, p[2]), vec![d.node_ptr()]);
}

#[test]
fn a_node_stored_below_a_partition_that_was_collected_is_kept() {
    let mut heap = new_heap();
    let p0 = heap.create_partition();
    let p1 = heap.create_partition();
    let root = put_root(&mut heap, p0, vec![]);
    assert_eq!(heap.garbage_collect(p0, |_, _| {}), 0);
    let x = put(&mut heap, p1, vec![]);
    root.with_mut(&mut heap, |t: &mut Thing| t.refs.push(x));
    assert_eq!(heap.garbage_collect(p1, |_, _| {}), 0);
    assert!(heap.is_live(x.node_ptr()));
}

#[test]
fn a_collection_in_the_middle_of_a_cycle_is_exact() {
    let mut heap = new_heap();
    let pid = heap.create_partition();
    let a = put(&mut heap, pid, vec![]);
    let b = put(&mut heap, pid, vec![]);
    let root = put_root(&mut heap, pid, vec![a]);
    assert!(heap.mark(pid, 8));
    root.with_mut(&mut heap, |t: &mut Thing| t.refs = vec![b]);
    let size = heap.type_registry().info(0).layout_size;
    assert_eq!(heap.garbage_collect(pid, |_, _| {}), size);
    assert_eq!(chain(&heap, pid), vec![root.node_ptr(), b.node_ptr()]);
}

#[test]
fn marking_twice_marks_the_same_nodes() {
    let mut heap = new_heap();
    let pid = heap.create_partition();
    let a = put(&mut heap, pid, vec![]);
    let b = put(&mut heap, pid, vec![a]);
    a.with_mut(&mut heap, |t: &mut Thing| t.refs.push(b));
    let lost = put(&mut heap, pid, vec![b]);
    let root = put_root(&mut heap, pid, vec![b]);
    let stack = heap.acquire_scope_stack(pid);
    let scope = heap.new_scope(stack);
    let local = scope.alloc_local(&mut heap, thing(vec![])).ok().unwrap();
    let marked = |h: &GcHeap<Thing>| -> Vec<GcPtr> {
        chain(h, pid).into_iter().filter(|n| h.head(*n).color() != GcTriColor::White).collect()
    };
    while !heap.mark(pid, 1) {}
    let first = marked(&heap);
    heap.mark_reset(pid);
    assert!(marked(&heap).is_empty());
    assert!(!heap.mark(pid, 0));
    while !heap.mark(pid, 7) {}
    assert_eq!(marked(&heap), first);
    let expected = [local, root, b, a].map(|r| r.node_ptr());
    assert_eq!(first, expected);
    assert!(!first.contains(&lost.node_ptr()));
}

#[test]
fn memory_is_accounted_through_every_operation() {
    let mut heap = new_heap();
    let size = heap.type_registry().info(0).layout_size;
    let check = |heap: &GcHeap<Thing>| {
        let mut total = 0;
        for pid in heap.partition_ids() {
            let used = heap.partition(pid).unwrap().memory_used();
            assert_eq!(used, chain(heap, pid).len() * size);
            total += used;
        }
        assert_eq!(heap.memory_used(), total);
    };
    check(&heap);
    let p0 = heap.create_partition();
    let p1 = heap.create_partition();
    check(&heap);
    let a = put(&mut heap, p0, vec![]);
    let root = put_root(&mut heap, p1, vec![a]);
    heap.set_root_node(a.node_ptr());
    heap.set_root(a, false);
    check(&heap);
    let stack = heap.acquire_scope_stack(p0);
    let scope = heap.new_scope(stack);
    scope.alloc_local(&mut heap, thing(vec![])).ok().unwrap();
    heap.protect_node(stack, a.node_ptr());
    heap.downgrade(&root);
    check(&heap);
    heap.pop_scope(stack);
    heap.mark(p0, 1);
    heap.mark_reset(p0);
    heap.traverse(root.node_ptr(), None);
    check(&heap);
    heap.garbage_collect(p0, |_, _| {});
    check(&heap);
    assert_eq!(heap.memory_used(), 2 * size);
    heap.remove_partition(p0, |_, _| {});
    check(&heap);
    assert_eq!(heap.memory_used(), size);
    heap.create_partition();
    check(&heap);
    heap.dispose_everything();
    check(&heap);
    assert_eq!(heap.memory_used(), 0);
}

#[test]
fn weak_references_stay_void_when_their_slots_are_used_again() {
    let mut heap = new_heap();
    let pid = heap.create_partition();
    let kept = put_root(&mut heap, pid, vec![]);
    let gone = put(&mut heap, pid, vec![]);
    let w_kept = heap.downgrade(&kept);
    let w_gone = heap.downgrade(&gone);
    let null = GcWeak::<Thing>::default();
    assert!(w_gone.upgrade(&heap) == Some(gone));
    for _ in 0..20 {
        heap.garbage_collect(pid, |_, _| {});
        let next = put(&mut heap, pid, vec![]);
        let w = heap.downgrade(&next);
        assert_eq!(w.index(), w_gone.index());
        assert!(w.upgrade(&heap) == Some(next));
        assert!(w_gone.upgrade(&heap).is_none());
        assert!(w_kept.upgrade(&heap) == Some(kept));
        assert!(null.upgrade(&heap).is_none());
    }
    heap.remove_partition(pid, |_, _| {});
    assert!(w_kept.upgrade(&heap).is_none());
}

#[test]
fn a_finished_partition_without_nodes_gives_an_empty_list() {
    let mut heap = new_heap();
    let pid = heap.create_partition();
    assert!(heap.sweep_unlink(pid).is_none());
    while !heap.mark(pid, 64) {}
    let link = heap.sweep_unlink(pid).unwrap();
    assert_eq!(link.len(), 0);
    assert!(link.is_empty());
    assert!(heap.sweep_unlink(pid).is_none());
}

#[test]
fn marking_in_steps_comes_to_the_same_as_marking_at_once() {
    let build = || {
        let mut heap = new_heap();
        let pid = heap.create_partition();
        let mut last = put(&mut heap, pid, vec![]);
        for k in 0..10 {
            let other = put(&mut heap, pid, vec![]);
            last = put(&mut heap, pid, if k % 2 == 0 { vec![last, other] } else { vec![last] });
        }
        put_root(&mut heap, pid, vec![last]);
        (heap, pid)
    };
    let (mut h1, p1) = build();
    let (mut h2, p2) = build();
    while !h1.mark(p1, 1) {}
    while !h2.mark(p2, 1000) {}
    let colors = |h: &GcHeap<Thing>, p: GcPartitionId| -> Vec<GcTriColor> {
        chain(h, p).iter().map(|n| h.head(*n).color()).collect()
    };
    assert_eq!(colors(&h1, p1), colors(&h2, p2));
    assert!(colors(&h1, p1).contains(&GcTriColor::White));
}

#[test]
fn roots_made_during_marking_are_traced() {
    let mut heap = new_heap();
    let pid = heap.create_partition();
    let a = put(&mut heap, pid, vec![]);
    let b = put(&mut heap, pid, vec![a]);
    assert!(heap.mark(pid, 8));
    heap.set_root_node(b.node_ptr());
    let c = put(&mut heap, pid, vec![]);
    let _r = put_root(&mut heap, pid, vec![c]);
    assert_eq!(heap.garbage_collect(pid, |_, _| {}), 0);
    assert_eq!(chain(&heap, pid).len(), 4);
}

#[test]
fn lower_drop_passes_go_first() {
    let log: Rc<RefCell<Vec<u32>>> = Rc::new(RefCell::new(Vec::new()));
    let mut heap = new_heap();
    let pid = heap.create_partition();
    for (kind, id) in [(1u8, 10), (0, 20), (2, 30), (0, 21), (1, 11)] {
        let t = Thing { kind, refs: vec![], log: Some((id, log.clone())) };
        heap.alloc_raw(pid, t).ok().unwrap();
    }
    let kinds = RefCell::new(Vec::new());
    while !heap.mark(pid, 64) {}
    heap.sweep(pid, |_: &GcHeap<Thing>, h: &GcHead| kinds.borrow_mut().push(h.dtype()));
    assert_eq!(*kinds.borrow(), vec![0, 0, 2, 1, 1]);
    assert_eq!(*log.borrow(), vec![21, 20, 30, 11, 10]);
}

#[test]
fn a_finalized_partition_gives_its_payloads_back_by_pass() {
    let log: Rc<RefCell<Vec<u32>>> = Rc::new(RefCell::new(Vec::new()));
    let mut heap = new_heap();
    let pid = heap.create_partition();
    for (kind, id) in [(1u8, 1), (0, 2), (2, 3)] {
        let t = Thing { kind, refs: vec![], log: Some((id, log.clone())) };
        heap.alloc_raw(pid, t).ok().unwrap();
    }
    let (link, payloads) = heap.finalize_partition(pid).unwrap();
    assert_eq!(payloads.len(), 3);
    assert!(log.borrow().is_empty());
    drop(payloads);
    assert_eq!(*log.borrow(), vec![2, 3, 1]);
    assert_eq!(link.len(), 3);
    heap.dealloc_partition(pid, link);
    assert_eq!(*log.borrow(), vec![2, 3, 1]);
    assert!(heap.finalize_partition(GcPartitionId(5)).is_none());
}

#[test]
fn arena_nodes_are_told_by_a_flag() {
    let mut heap = new_heap();
    let pid = heap.create_partition_with_arena(256, 128);
    let a = put(&mut heap, pid, vec![]);
    let r = put_root(&mut heap, pid, vec![]);
    assert!(heap.head(a.node_ptr()).contains_flag(gc_lite::GcNodeFlag::ArenaAlloc));
    assert!(!heap.head(r.node_ptr()).contains_flag(gc_lite::GcNodeFlag::ArenaAlloc));
    for _ in 0..8 {
        put(&mut heap, pid, vec![]);
    }
    let outside = chain(&heap, pid)
        .iter()
        .filter(|n| !heap.head(**n).contains_flag(gc_lite::GcNodeFlag::ArenaAlloc))
        .count();
    assert!(outside > 1);
    heap.garbage_collect(pid, |_, _| {});
    let again = put(&mut heap, pid, vec![]);
    assert!(heap.head(again.node_ptr()).contains_flag(gc_lite::GcNodeFlag::ArenaAlloc));
}

#[test]
fn weak_references_follow_the_survivors() {
    let mut heap = new_heap();
    let pid = heap.create_partition();
    let a = put(&mut heap, pid, vec![]);
    let b = put_root(&mut heap, pid, vec![]);
    let wa = heap.downgrade(&a);
    let wb = heap.downgrade(&b);
    heap.garbage_collect(pid, |_, _| {});
    assert!(heap.upgrade(&wa).is_none());
    assert!(heap.upgrade(&wb).unwrap() == b);
    let (link, _) = heap.finalize_partition(pid).unwrap();
    assert!(heap.upgrade(&wb).is_none());
    heap.dealloc_partition(pid, link);
}

#[test]
fn sweeping_in_steps_comes_to_the_same_as_sweeping_at_once() {
    let build = || {
        let mut heap = new_heap();
        let pid = heap.create_partition();
        let kept = put(&mut heap, pid, vec![]);
        put(&mut heap, pid, vec![kept]);
        put(&mut heap, pid, vec![]);
        put_root(&mut heap, pid, vec![kept]);
        while !heap.mark(pid, 64) {}
        (heap, pid)
    };
    let (mut h1, p1) = build();
    let (mut h2, p2) = build();
    let freed = h1.sweep(p1, |_: &GcHeap<Thing>, _: &GcHead| {});
    let white = h2.sweep_unlink(p2).unwrap();
    assert_eq!(h2.sweep_drop_payloads(&white).len(), 2);
    assert_eq!(h2.sweep_dispose(p2, white), freed);
    assert_eq!(chain(&h1, p1), chain(&h2, p2));
    assert_eq!(h1.memory_used(), h2.memory_used());
}

#[test]
fn partitions_are_collected_one_after_the_other() {
    let mut heap = new_heap();
    let p0 = heap.create_partition();
    let p1 = heap.create_partition();
    let mut kept = Vec::new();
    let mut lost = Vec::new();
    for pid in [p0, p1] {
        let a = put(&mut heap, pid, vec![]);
        kept.push(a);
        kept.push(put_root(&mut heap, pid, vec![a]));
        lost.push(put(&mut heap, pid, vec![a]));
    }
    for pid in [p0, p1, p0] {
        heap.garbage_collect(pid, |_, _| {});
        assert!(!heap.partition(pid).unwrap().is_marking());
        assert_eq!(heap.partition(pid).unwrap().gray_len(), 0);
        assert!(kept.iter().all(|k| heap.is_live(k.node_ptr())));
    }
    assert!(lost.iter().all(|k| !heap.is_live(k.node_ptr())));
}

#[test]
fn a_cycle_that_was_given_up_leaves_no_trace() {
    let mut heap = new_heap();
    let pid = heap.create_partition();
    let a = put(&mut heap, pid, vec![]);
    let root = put_root(&mut heap, pid, vec![a]);
    assert!(!heap.mark(pid, 1));
    heap.mark_reset(pid);
    assert!(!heap.partition(pid).unwrap().is_marking());
    assert_eq!(heap.partition(pid).unwrap().gray_len(), 0);
    assert_eq!(heap.head(root.node_ptr()).color(), GcTriColor::White);
    assert_eq!(heap.garbage_collect(pid, |_, _| {}), 0);
    heap.set_root(root, false);
    assert!(heap.garbage_collect(pid, |_, _| {}) > 0);
    assert!(!heap.is_live(a.node_ptr()));
}

#[test]
fn a_traversal_changes_no_colors() {
    let mut heap = new_heap();
    let pid = heap.create_partition();
    let a = put(&mut heap, pid, vec![]);
    let root = put_root(&mut heap, pid, vec![a]);
    while !heap.mark(pid, 64) {}
    heap.traverse_start(pid);
    let visits = heap.traverse(root.node_ptr(), None);
    assert_eq!(
        visits,
        vec![(root.node_ptr(), None), (a.node_ptr(), Some(root.node_ptr()))]
    );
    assert!(heap.head(a.node_ptr()).traverse_visited());
    assert_eq!(heap.head(a.node_ptr()).color(), GcTriColor::Black);
    assert!(heap.partition(pid).unwrap().is_marking());
    assert_eq!(heap.traverse(root.node_ptr(), None), vec![]);
}

#[test]
fn everything_is_given_up_at_the_end() {
    let mut heap = new_heap();
    let p0 = heap.create_partition();
    let p1 = heap.create_partition();
    let log: Rc<RefCell<Vec<u32>>> = Rc::new(RefCell::new(Vec::new()));
    let mut add = |heap: &mut GcHeap<Thing>, pid, kind, id| {
        heap.alloc_root_raw(pid, Thing { kind, refs: vec![], log: Some((id, log.clone())) })
            .ok()
            .unwrap()
    };
    let a = add(&mut heap, p1, 0, 1);
    add(&mut heap, p0, 1, 2);
    add(&mut heap, p0, 0, 3);
    let weak = heap.downgrade(&a);
    let stack = heap.acquire_scope_stack(p0);
    let scope = heap.new_scope(stack);
    let held = scope.alloc_local(&mut heap, thing(vec![])).ok().unwrap();
    heap.dispose_everything();
    assert_eq!(*log.borrow(), vec![3, 2, 1]);
    assert!(!heap.is_live(held.node_ptr()));
    assert!(weak.upgrade(&heap).is_none());
    assert_eq!(heap.memory_used(), 0);
    assert_eq!(heap.scope_max_depth(stack), 0);
}

#[test]
fn the_chain_is_taken_out_while_a_sweep_calls_back() {
    let mut heap = new_heap();
    let pid = heap.create_partition();
    let other = heap.create_partition();
    let a = put(&mut heap, pid, vec![]);
    let root = put_root(&mut heap, pid, vec![]);
    let b = put(&mut heap, pid, vec![]);
    let far = put_root(&mut heap, other, vec![]);
    let seen = RefCell::new(Vec::new());
    let look = |h: &GcHeap<Thing>, _: &GcHead| {
        let live: Vec<bool> = [a, b, root].iter().map(|n| h.is_live(n.node_ptr())).collect();
        seen.borrow_mut().push((chain(h, pid), chain(h, other), live));
    };
    while !heap.mark(pid, 64) {}
    heap.sweep(pid, look);
    assert_eq!(
        *seen.borrow(),
        vec![
            (vec![], vec![far.node_ptr()], vec![true, true, true]),
            (vec![], vec![far.node_ptr()], vec![true, false, true]),
        ]
    );
    assert_eq!(chain(&heap, pid), vec![root.node_ptr()]);
    let c = put(&mut heap, pid, vec![]);
    let counts = RefCell::new(Vec::new());
    heap.sweep_with(
        pid,
        |h: &GcHead, _: Option<&Thing>| !h.is_root(),
        |h: &GcHeap<Thing>, _: &GcHead| counts.borrow_mut().push(chain(h, pid).len()),
    );
    assert_eq!(*counts.borrow(), vec![0]);
    assert!(!heap.is_live(c.node_ptr()));
    assert_eq!(chain(&heap, pid), vec![root.node_ptr()]);
}

#[test]
fn a_black_node_that_is_written_to_is_gray_again() {
    let mut heap = new_heap();
    let pid = heap.create_partition();
    let root = put_root(&mut heap, pid, vec![]);
    assert_eq!(heap.garbage_collect(pid, |_, _| {}), 0);
    assert_eq!(heap.head(root.node_ptr()).color(), GcTriColor::Black);
    assert!(!heap.partition(pid).unwrap().is_marking());
    let x = put(&mut heap, pid, vec![]);
    root.with_mut(&mut heap, |t: &mut Thing| t.refs.push(x));
    assert_eq!(heap.head(root.node_ptr()).color(), GcTriColor::Gray);
    assert!(heap.head(root.node_ptr()).is_gray_listed());
    assert_eq!(heap.partition(pid).unwrap().gray_len(), 1);
    assert!(!heap.partition(pid).unwrap().is_marking());
    while !heap.mark(pid, 1) {}
    assert_eq!(heap.head(x.node_ptr()).color(), GcTriColor::Black);
    assert_eq!(heap.sweep(pid, |_, _| {}), 0);
    assert_eq!(heap.garbage_collect(pid, |_, _| {}), 0);
    assert_eq!(chain(&heap, pid), vec![x.node_ptr(), root.node_ptr()]);
}

#[test]
fn a_child_in_another_partition_goes_on_the_list_of_its_own() {
    let mut heap = new_heap();
    let p0 = heap.create_partition();
    let p1 = heap.create_partition();
    let below = put(&mut heap, p1, vec![]);
    let child = put(&mut heap, p1, vec![below]);
    let root = put_root(&mut heap, p0, vec![child]);
    while !heap.mark(p0, 1) {}
    assert_eq!(heap.head(root.node_ptr()).color(), GcTriColor::Black);
    assert_eq!(heap.head(child.node_ptr()).color(), GcTriColor::Gray);
    assert_eq!(heap.head(below.node_ptr()).color(), GcTriColor::White);
    assert_eq!(heap.partition(p0).unwrap().gray_len(), 0);
    assert_eq!(heap.partition(p1).unwrap().gray_len(), 1);
    assert!(!heap.mark_grays(p1, 1));
    assert_eq!(heap.head(child.node_ptr()).color(), GcTriColor::Black);
    assert_eq!(heap.head(below.node_ptr()).color(), GcTriColor::Gray);
}
