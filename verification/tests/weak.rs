use gc_lite::{
    GcHeap, GcNode, GcTrace, GcTraceCtx, GcTypeInfo, GcTypeRegistry, GcWeak, GcWeakRawId,
};

#[test]
fn test_weak_ref_clone_and_copy() {
    let weak1 = GcWeak::<String>::new(10, 1);

    let weak2 = weak1.clone();
    assert_eq!(weak1.index(), weak2.index());

    let weak3 = weak1;
    let weak4 = weak1;
    assert_eq!(weak3.index(), weak4.index());
}

#[test]
fn test_weak_ref_equality() {
    let weak1 = GcWeak::<i32>::new(5, 1);
    let weak2 = GcWeak::<i32>::new(5, 1);
    let weak3 = GcWeak::<i32>::new(10, 1);

    assert_eq!(weak1, weak2);
    assert_ne!(weak1, weak3);
}

#[test]
fn test_weak_ref_upgrade_interface() {
    let heap: GcHeap<i32> = GcHeap::new(GcTypeRegistry::empty(), 1);
    let weak_ref = GcWeak::<i32>::new(0, 1);
    let result = weak_ref.upgrade(&heap);
    assert!(result.is_none());
}

#[test]
fn test_weak_ref_type_safety() {
    let weak_i32 = GcWeak::<i32>::new(1, 1);
    let weak_string = GcWeak::<String>::new(1, 1);

    assert_eq!(weak_i32.index(), weak_string.index());
    assert_eq!(
        std::any::TypeId::of::<GcWeak<i32>>(),
        std::any::TypeId::of::<GcWeak<i32>>()
    );
    assert_ne!(
        std::any::TypeId::of::<GcWeak<i32>>(),
        std::any::TypeId::of::<GcWeak<String>>()
    );
}

#[test]
fn test_weak_ref_edge_cases() {
    let weak_max = GcWeak::<i32>::new(u16::MAX, 1);
    assert_eq!(weak_max.index(), u16::MAX);

    let weak_min = GcWeak::<i32>::new(0, 1);
    assert_eq!(weak_min.index(), 0);

    let weak_i32 = GcWeak::<i32>::new(5, 1);
    let weak_string = GcWeak::<String>::new(5, 1);
    assert_eq!(weak_i32.index(), weak_string.index());
}

#[test]
fn test_weak_ref_serialization_compatibility() {
    let _weak_ref = GcWeak::<Vec<u8>>::new(42, 1);

    assert_eq!(std::mem::size_of::<GcWeak<Vec<u8>>>(), std::mem::size_of::<u32>());
    assert_eq!(std::mem::align_of::<GcWeak<Vec<u8>>>(), std::mem::align_of::<u32>());
}

#[derive(Debug)]
struct Num(u32);

impl GcTrace for Num {
    fn trace(&self, _: &mut GcTraceCtx) {}
}

impl GcNode for Num {
    fn gc_type_id(&self) -> u8 {
        0
    }
}

fn new_heap() -> GcHeap<Num> {
    GcHeap::new(GcTypeRegistry::new(vec![GcTypeInfo::of::<Num>(false, 0)]), 1)
}

#[test]
fn ids_hold_index_and_version() {
    let id = GcWeakRawId::new(0x1234, 0xABCD);
    assert_eq!(id.index(), 0x1234);
    assert_eq!(id.version(), 0xABCD);
    assert!(!id.is_null());
    assert!(GcWeakRawId::null().is_null());
    assert!(GcWeak::<Num>::default().version() == 0);
    assert_eq!(GcWeak::<Num>::from_id(id).index(), 0x1234);
}

#[test]
fn a_reused_slot_does_not_revive_old_references() {
    let mut heap = new_heap();
    let pid = heap.create_partition();
    let a = heap.alloc_raw(pid, Num(1)).unwrap();
    let wa = heap.downgrade(&a);
    assert_eq!((wa.index(), wa.version()), (0, 1));
    assert!(heap.downgrade(&a) == wa);
    heap.garbage_collect(pid, |_, _| {});
    assert!(heap.upgrade(&wa).is_none());

    let b = heap.alloc_root_raw(pid, Num(2)).unwrap();
    let wb = b.downgrade(&mut heap);
    assert_eq!((wb.index(), wb.version()), (0, 2));
    assert!(wa.upgrade(&heap).is_none());
    assert_eq!(wb.upgrade(&heap).unwrap().get(&heap).unwrap().0, 2);
    assert!(GcWeak::<Num>::default().upgrade(&heap).is_none());
}

#[test]
fn versions_start_over_at_one() {
    let mut heap = new_heap();
    let pid = heap.create_partition();
    let mut last = 0;
    for round in 0..65537u32 {
        let n = heap.alloc_raw(pid, Num(round)).unwrap();
        let w = heap.downgrade(&n);
        assert_eq!(w.index(), 0);
        last = w.version();
        heap.garbage_collect(pid, |_, _| {});
    }
    assert_eq!(last, 2);
}
