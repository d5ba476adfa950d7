use gc_lite::gctype::{
    align_up, layout_align_of, layout_size_of, payload_offset_of, GcTypeInfo, GcTypeRegistry,
};
use gc_lite::type_registry::TypeRegistry;
use gc_lite::{unlikely, GcHead, GcNodeFlag, GcPartitionId, GcTriColor, GcWeakRawId};

#[test]
fn sizes_are_rounded_up_to_the_alignment() {
    assert_eq!(align_up(0, 8), 0);
    assert_eq!(align_up(1, 8), 8);
    assert_eq!(align_up(8, 8), 8);
    assert_eq!(align_up(17, 16), 32);
}

#[test]
fn a_node_holds_a_header_and_its_payload() {
    let head = std::mem::size_of::<GcHead>();
    let align = std::mem::align_of::<GcHead>();
    assert_eq!(payload_offset_of::<u8>(), head);
    assert_eq!(layout_align_of::<u8>(), align);
    assert_eq!(layout_size_of::<u8>(), align_up(head + 1, align));
    assert_eq!(layout_align_of::<u128>(), std::mem::align_of::<u128>().max(align));
    assert_eq!(payload_offset_of::<u128>() % std::mem::align_of::<u128>(), 0);
    let info = GcTypeInfo::of::<[u64; 3]>(false, 2);
    assert_eq!(info.size, 24);
    assert_eq!(info.drop_pass, 2);
    assert_eq!(info.layout(), (layout_size_of::<[u64; 3]>(), layout_align_of::<[u64; 3]>()));
    assert_eq!(info.payload_ptr(1000), 1000 + info.payload_offset);
}

#[test]
fn a_table_lists_its_drop_passes_in_order() {
    let of = |pass: u8| GcTypeInfo::of::<u32>(false, pass);
    let t = GcTypeRegistry::new(vec![of(3), of(0), of(3), of(1)]);
    assert_eq!(t.len(), 4);
    assert_eq!(t.drop_passes(), &vec![0, 1, 3]);
    assert_eq!(t.info(2).drop_pass, 3);
    assert_eq!(GcTypeRegistry::empty().len(), 0);
}

#[test]
fn types_are_registered_once() {
    let mut t = TypeRegistry::new();
    assert_eq!(t.gc_dtype_id(7), None);
    assert_eq!(t.register::<u64>(7, true, 2), 1);
    assert_eq!(t.register::<String>(9, false, 3), 2);
    assert_eq!(t.register::<u64>(7, true, 1), 1);
    assert_eq!(t.type_id_of(9), Some(2));
    assert_eq!(t.node_type(1).drop_pass, 2);
    assert_eq!(t.node_type(1).size, 8);
    assert_eq!(t.node_type(2).drop_pass, 0);
    assert_eq!(t.gc_type_drop_passes(), vec![0, 2]);
}

#[test]
fn a_drop_pass_can_be_changed() {
    let mut t = TypeRegistry::new();
    assert!(t.gc_type_drop_passes().is_empty());
    t.set_gc_type_drop_pass::<u8>(5, true, 3);
    assert_eq!(t.type_id_of(5), Some(1));
    assert_eq!(t.gc_type_drop_passes(), vec![3]);
    t.set_drop_pass::<u8>(5, true, 1);
    assert_eq!(t.node_type(1).drop_pass, 1);
    assert_eq!(t.gc_type_drop_passes(), vec![1]);
}

#[test]
fn a_header_keeps_its_parts_apart() {
    let mut h = GcHead::new(200, GcPartitionId(0xBEEF));
    assert_eq!(h.dtype(), 200);
    assert_eq!(h.partition_id(), GcPartitionId(0xBEEF));
    assert_eq!(h.color(), GcTriColor::White);
    assert!(h.weak_id().is_null());
    h.set_color(GcTriColor::Black);
    h.insert_flag(GcNodeFlag::Root);
    h.insert_flag(GcNodeFlag::Local);
    h.set_gray_listed(true);
    h.set_traverse_visited(true);
    assert_eq!(h.color(), GcTriColor::Black);
    assert!(h.is_root() && h.is_local() && h.is_root_or_local());
    assert!(h.is_gray_listed() && h.traverse_visited());
    assert!(!h.contains_flag(GcNodeFlag::ArenaAlloc));
    h.remove_flag(GcNodeFlag::Root);
    h.set_traverse_visited(false);
    assert!(!h.is_root() && h.is_local() && !h.traverse_visited());
    h.remove_flag(GcNodeFlag::Local);
    assert!(!h.is_root_or_local());
    h.set_color(GcTriColor::Gray);
    assert_eq!(h.color(), GcTriColor::Gray);
    assert_eq!(h.dtype(), 200);
    assert!(h.set_xref(GcPartitionId(3)));
    assert_eq!(h.xref(), GcPartitionId(3));
    assert_eq!(h.partition_id(), GcPartitionId(0xBEEF));
    assert!(!h.set_xref(GcPartitionId(0xBEEF)));
    assert_eq!(h.xref(), GcPartitionId(0));
    h.set_xref(GcPartitionId(4));
    h.unset_xref();
    assert_eq!(h.xref(), GcPartitionId(0));
    h.set_partition_id(GcPartitionId(12));
    assert_eq!(h.partition_id(), GcPartitionId(12));
    h.set_weak_id(GcWeakRawId::new(6, 7));
    assert_eq!(h.weak_id().version(), 7);
    h.debug_set_dbg_string("label".to_string());
    assert_eq!(h.debug_dbg_string(), "label");
}

#[test]
fn colors_have_codes() {
    assert_eq!(GcTriColor::White.code(), 0);
    assert_eq!(GcTriColor::Gray.code(), 1);
    assert_eq!(GcTriColor::Black.code(), 2);
    for c in [GcTriColor::White, GcTriColor::Gray, GcTriColor::Black] {
        assert_eq!(GcTriColor::from_code(c.code()).unwrap(), c);
    }
    assert_eq!(GcTriColor::from_code(3).unwrap_err(), "Invalid value for TriColor");
}

#[test]
fn unlikely_hands_its_argument_back() {
    assert!(unlikely(true));
    assert!(!unlikely(false));
}

#[test]
fn a_table_counts_its_unused_entry() {
    let mut t = TypeRegistry::new();
    assert_eq!(t.len(), 1);
    t.register::<u64>(7, false, 0);
    t.register::<u64>(7, false, 0);
    assert_eq!(t.len(), 2);
}

#[test]
fn ids_go_from_one_to_254() {
    let mut t = TypeRegistry::new();
    for key in 0..300u64 {
        assert_eq!(t.gc_dtype_id(key), None);
    }
    assert!(t.gc_type_drop_passes().is_empty());
    for key in 0..254u64 {
        let id = t.register::<u32>(key * 3, true, (key % 4) as u8);
        assert_eq!(id as u64, key + 1);
    }
    for key in 0..254u64 {
        assert_eq!(t.gc_dtype_id(key * 3), Some((key + 1) as u8));
    }
    assert_eq!(t.gc_dtype_id(1), None);
    assert_eq!(t.len(), 255);
    assert_eq!(t.gc_type_drop_passes(), vec![0, 1, 2, 3]);
    t.set_drop_pass::<u32>(0, true, 2);
    assert_eq!(t.gc_dtype_id(0), Some(1));
    assert_eq!(t.len(), 255);
}
