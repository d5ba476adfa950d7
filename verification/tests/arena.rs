use gc_lite::arena::{GcArena, Hole};

/// Allocates room for a `u64` and returns its offset.
fn alloc_one(arena: &mut GcArena) -> Option<usize> {
    arena.allocate(8, 8)
}

/// Uses up the room above the bump offset, so that further allocations come from free ranges.
fn exhaust_bump(arena: &mut GcArena) {
    let remaining = arena.capacity() - arena.bump();
    for _ in 0..remaining / 16 {
        alloc_one(arena).unwrap();
    }
}

#[test]
fn test_arena_new_and_bump() {
    let mut arena = GcArena::new(1024).unwrap();
    let p1 = alloc_one(&mut arena).unwrap();
    let p2 = alloc_one(&mut arena).unwrap();
    assert_ne!(p1, p2);
    assert!(p1 < 1024);
    assert!(p2 < 1024);
}

#[test]
fn test_arena_exhaustion() {
    let mut arena = GcArena::new(64).unwrap();
    assert!(alloc_one(&mut arena).is_some());
    assert!(alloc_one(&mut arena).is_some());
    assert!(alloc_one(&mut arena).is_some());
    assert!(alloc_one(&mut arena).is_some());
    assert!(alloc_one(&mut arena).is_none());
}

#[test]
fn test_bump_allocs_are_sequential_non_overlapping() {
    let mut arena = GcArena::new(256).unwrap();
    let p1 = alloc_one(&mut arena).unwrap();
    let p2 = alloc_one(&mut arena).unwrap();
    let p3 = alloc_one(&mut arena).unwrap();
    assert!(p1 < p2);
    assert!(p2 < p3);
    assert_eq!((p1, p2, p3), (0, 16, 32));
}

#[test]
fn test_free_list_reuses_hole() {
    let mut arena = GcArena::new(256).unwrap();
    let _p1 = alloc_one(&mut arena).unwrap();
    let p2 = alloc_one(&mut arena).unwrap();
    let _p3 = alloc_one(&mut arena).unwrap();

    let mut holes: Vec<Hole> = Vec::new();
    arena.collect_hole(&mut holes, p2, 8);
    arena.finish_sweep(&mut holes);
    assert!(holes.is_empty());

    exhaust_bump(&mut arena);

    let p_new = alloc_one(&mut arena).unwrap();
    assert_eq!(p_new, p2, "free-list should reuse the hole at p2's address");
}

#[test]
fn test_free_list_two_adjacent_holes_merge() {
    let mut arena = GcArena::new(256).unwrap();
    let _p1 = alloc_one(&mut arena).unwrap();
    let p2 = alloc_one(&mut arena).unwrap();
    let p3 = alloc_one(&mut arena).unwrap();
    let _p4 = alloc_one(&mut arena).unwrap();

    let mut holes: Vec<Hole> = Vec::new();
    arena.collect_hole(&mut holes, p2, 8);
    arena.collect_hole(&mut holes, p3, 8);
    assert_eq!(holes.len(), 2);

    arena.finish_sweep(&mut holes);
    exhaust_bump(&mut arena);

    let big = arena.allocate(16, 8).unwrap();
    assert_eq!(big, p2, "merged hole should cover p2..p3+8");
}

#[test]
fn test_free_list_three_adjacent_holes_merge() {
    let mut arena = GcArena::new(256).unwrap();
    let _p1 = alloc_one(&mut arena).unwrap();
    let p2 = alloc_one(&mut arena).unwrap();
    let p3 = alloc_one(&mut arena).unwrap();
    let p4 = alloc_one(&mut arena).unwrap();
    let _p5 = alloc_one(&mut arena).unwrap();

    let mut holes: Vec<Hole> = Vec::new();
    arena.collect_hole(&mut holes, p2, 8);
    arena.collect_hole(&mut holes, p3, 8);
    arena.collect_hole(&mut holes, p4, 8);
    arena.finish_sweep(&mut holes);
    exhaust_bump(&mut arena);

    let big = arena.allocate(24, 8).unwrap();
    assert_eq!(big, p2, "triple-merged hole should start at p2");
}

#[test]
fn test_frontier_rewind_last_node() {
    let mut arena = GcArena::new(256).unwrap();
    let _p1 = alloc_one(&mut arena).unwrap();
    let _p2 = alloc_one(&mut arena).unwrap();
    let p3 = alloc_one(&mut arena).unwrap();

    let mut holes: Vec<Hole> = Vec::new();
    arena.collect_hole(&mut holes, p3, 8);
    assert!(holes.is_empty(), "frontier rewind should not produce a hole");

    let p_new = alloc_one(&mut arena).unwrap();
    assert_eq!(p_new, p3, "frontier rewind should allow reuse of p3's slot");
}

#[test]
fn test_frontier_rewind_chain() {
    let mut arena = GcArena::new(256).unwrap();
    let _p1 = alloc_one(&mut arena).unwrap();
    let _p2 = alloc_one(&mut arena).unwrap();
    let p3 = alloc_one(&mut arena).unwrap();
    let p4 = alloc_one(&mut arena).unwrap();

    let mut holes: Vec<Hole> = Vec::new();
    arena.collect_hole(&mut holes, p4, 8);
    arena.collect_hole(&mut holes, p3, 8);
    assert!(holes.is_empty(), "both should use frontier rewind");

    let p_new = alloc_one(&mut arena).unwrap();
    assert_eq!(p_new, p3, "frontier rewind chain works");
}

#[test]
fn test_arena_full_reset() {
    let mut arena = GcArena::new(256).unwrap();
    let p1 = alloc_one(&mut arena).unwrap();
    let p2 = alloc_one(&mut arena).unwrap();

    let mut holes: Vec<Hole> = Vec::new();
    arena.collect_hole(&mut holes, p1, 8);
    arena.collect_hole(&mut holes, p2, 8);
    assert_eq!(arena.live_count(), 0);

    arena.finish_sweep(&mut holes);
    assert_eq!(arena.bump(), 0);
    assert!(arena.free_head().is_none());

    let p_new1 = alloc_one(&mut arena).unwrap();
    assert_eq!(p_new1, p1, "full reset reuses from base");
}

#[test]
fn test_mixed_frontier_and_holes() {
    let mut arena = GcArena::new(256).unwrap();
    let p1 = alloc_one(&mut arena).unwrap();
    let _p2 = alloc_one(&mut arena).unwrap();
    let p3 = alloc_one(&mut arena).unwrap();
    let _p4 = alloc_one(&mut arena).unwrap();
    let p5 = alloc_one(&mut arena).unwrap();

    let mut holes: Vec<Hole> = Vec::new();
    arena.collect_hole(&mut holes, p5, 8);
    arena.collect_hole(&mut holes, p3, 8);
    arena.collect_hole(&mut holes, p1, 8);
    assert_eq!(holes.len(), 2);

    arena.finish_sweep(&mut holes);
    assert!(holes.is_empty());

    exhaust_bump(&mut arena);

    let n1 = alloc_one(&mut arena).unwrap();
    assert_eq!(n1, p1, "first free-list alloc should reuse p1");

    let n2 = alloc_one(&mut arena).unwrap();
    assert_eq!(n2, p3, "second free-list alloc should reuse p3");

    assert!(
        alloc_one(&mut arena).is_none(),
        "arena should be full after exhausting bump and free-list"
    );
}

#[test]
fn test_large_allocs_return_none() {
    let mut arena = GcArena::new(1024).unwrap();
    let large = arena.allocate(2048, 16);
    assert!(large.is_none(), "alloc larger than capacity should return None");
}

/// The bytes of an arena, by offset.
struct Bytes(Vec<u8>);

impl Bytes {
    fn write_u64(&mut self, offset: usize, value: u64) {
        self.0[offset..offset + 8].copy_from_slice(&value.to_le_bytes());
    }

    fn read_u64(&self, offset: usize) -> u64 {
        let mut b = [0u8; 8];
        b.copy_from_slice(&self.0[offset..offset + 8]);
        u64::from_le_bytes(b)
    }
}

#[test]
fn test_data_integrity_after_free_list_reuse() {
    let mut arena = GcArena::new(256).unwrap();
    let mut bytes = Bytes(vec![0; 256]);
    let p1 = alloc_one(&mut arena).unwrap();
    bytes.write_u64(p1, 0xDEAD);
    let p2 = alloc_one(&mut arena).unwrap();
    bytes.write_u64(p2, 0xBEEF);

    assert_eq!(bytes.read_u64(p1), 0xDEAD);
    assert_eq!(bytes.read_u64(p2), 0xBEEF);

    let mut holes: Vec<Hole> = Vec::new();
    arena.collect_hole(&mut holes, p1, 8);
    arena.finish_sweep(&mut holes);
    exhaust_bump(&mut arena);

    let p_new = alloc_one(&mut arena).unwrap();
    assert_eq!(p_new, p1);
    bytes.write_u64(p_new, 0xCAFE);

    assert_eq!(bytes.read_u64(p2), 0xBEEF);
    assert_eq!(bytes.read_u64(p_new), 0xCAFE);
}

#[test]
fn alignment_moves_the_bump_offset_up() {
    let mut arena = GcArena::new(256).unwrap();
    assert_eq!(arena.allocate(20, 4), Some(0));
    assert_eq!(arena.allocate(8, 64), Some(64));
    assert_eq!(arena.bump(), 80);
    assert_eq!(arena.live_count(), 2);
}

#[test]
fn an_arena_that_cannot_be_laid_out_is_refused() {
    assert!(GcArena::new(usize::MAX).is_none());
    assert_eq!(GcArena::new(0).unwrap().capacity(), 0);
}

#[test]
fn older_free_ranges_are_forgotten_by_a_sweep() {
    let mut arena = GcArena::new(64).unwrap();
    let p1 = alloc_one(&mut arena).unwrap();
    let _p2 = alloc_one(&mut arena).unwrap();
    let p3 = alloc_one(&mut arena).unwrap();
    let _p4 = alloc_one(&mut arena).unwrap();
    let mut holes: Vec<Hole> = Vec::new();
    arena.collect_hole(&mut holes, p1, 8);
    arena.finish_sweep(&mut holes);
    assert_eq!(arena.free_head(), Some(p1));
    arena.collect_hole(&mut holes, p3, 8);
    arena.finish_sweep(&mut holes);
    assert_eq!(arena.free_head(), Some(p3));
    assert_eq!(alloc_one(&mut arena), Some(p3));
    assert_eq!(alloc_one(&mut arena), None);
}

#[test]
fn a_small_block_at_the_frontier_takes_two_words() {
    let word = std::mem::size_of::<usize>();
    let mut arena = GcArena::new(256).unwrap();
    let first = arena.allocate(1, 1).unwrap();
    let second = arena.allocate(2 * word, 1).unwrap();
    assert_eq!(second - first, 2 * word);
    assert_eq!(arena.bump(), 4 * word);
    let mut holes: Vec<Hole> = Vec::new();
    arena.collect_hole(&mut holes, first, 1);
    assert_eq!(arena.bump(), 4 * word);
    assert_eq!((holes.len(), holes[0].offset, holes[0].size), (1, first, 2 * word));
    arena.collect_hole(&mut holes, second, 2 * word);
    assert_eq!(arena.bump(), second);
    assert_eq!(holes.len(), 1);
    assert_eq!(arena.live_count(), 0);
}

#[test]
fn the_free_list_is_sorted_and_joined() {
    let mut arena = GcArena::new(512).unwrap();
    let at: Vec<usize> = (0..8).map(|_| arena.allocate(16, 8).unwrap()).collect();
    let mut holes: Vec<Hole> = Vec::new();
    for k in [5, 1, 2, 4] {
        arena.collect_hole(&mut holes, at[k], 16);
    }
    arena.finish_sweep(&mut holes);
    assert_eq!(arena.free_head(), Some(at[1]));
    let rest = arena.allocate(512 - arena.bump(), 8).unwrap();
    assert_eq!(rest, at[7] + 16);
    assert_eq!(arena.allocate(32, 8), Some(at[1]));
    assert_eq!(arena.allocate(32, 8), Some(at[4]));
    assert_eq!(arena.allocate(16, 8), None);
}
