//! Allocation and disposal of nodes.

use vstd::prelude::*;

use crate::arena::taken;
use crate::gctype::{layout_is_valid, GcTypeInfo};
use crate::heap::{GcHeap, WeakSlot};
use crate::helpers::{unlikely, GcError};
use crate::lemmas::{
    lemma_allocated_wf, lemma_attached_wf, lemma_bytes_nonneg, lemma_disposed_wf, lemma_keeps_wf,
    lemma_sum_part, lemma_sum_update,
};
use crate::marking::lemma_with_head_keeps;
use crate::model::{bytes_of, held, HeapView};
use crate::node::{GcHead, GcNodeFlag, GcPartitionId, GcPtr, HeadView};
use crate::trace::{GcNode, GcRef};

verus! {

/// The bytes accounted to a partition are not negative and do not exceed the total.
pub proof fn lemma_part_used<T>(v: HeapView<T>, pid: int)
    requires
        v.wf(),
        0 <= pid < v.parts.len(),
    ensures
        0 <= v.parts[pid].used <= v.total,
{
    assert forall|k: int| 0 <= k < v.parts.len() implies (#[trigger] v.parts[k]).used >= 0 by {
        lemma_bytes_nonneg(v.nodes, v.reg.infos, k);
    }
    lemma_sum_part(v.parts, pid);
}

proof fn lemma_charged_wf<T>(v: HeapView<T>, pid: int, bytes: int)
    requires
        v.wf(),
        0 <= pid < v.parts.len(),
        bytes_of(v.nodes, v.reg.infos, pid) <= v.parts[pid].used + bytes,
    ensures
        v.charged(pid, bytes).wf(),
{
    let w = v.charged(pid, bytes);
    let part = w.parts[pid];
    let back = HeapView { parts: w.parts.update(pid, v.parts[pid]), total: v.total, ..w };
    assert(back =~= v);
    lemma_sum_update(v.parts, pid, part);
    assert(w.nodes_ok()) by {
        assert forall|p: GcPtr| #[trigger] w.live(p) implies p.heap == w.id && w.pid(p)
            < w.parts.len() && w.head(p).dtype < w.reg.infos.len() by {
            assert(v.live(p));
        }
    }
    assert(w.chains_ok()) by {
        assert forall|k: int| 0 <= k < w.parts.len() implies (
        #[trigger] w.parts[k]).nodes.no_duplicates() by {
            assert(v.parts[k].nodes.no_duplicates());
        }
        assert forall|k: int, m: int|
            0 <= k < w.parts.len() && 0 <= m < w.parts[k].nodes.len() implies w.live(
            #[trigger] w.parts[k].nodes[m],
        ) && w.pid(w.parts[k].nodes[m]) == k by {
            assert(v.live(v.parts[k].nodes[m]));
        }
    }
    assert(w.weak_ok()) by {
        assert forall|p: GcPtr| #[trigger] w.live(p) && w.head(p).weak.spec_version()
            != 0 implies {
            let id = w.head(p).weak;
            &&& id.spec_index() < w.weak.len()
            &&& w.weak[id.spec_index() as int].version == id.spec_version()
            &&& w.weak[id.spec_index() as int].node == Some(p)
        } by {
            assert(v.live(p));
        }
    }
    assert(w.arenas_ok()) by {
        assert forall|p: GcPtr| #[trigger] w.live(p) implies {
            &&& w.head(p).arena <==> w.nodes[p].offset is Some
            &&& w.nodes[p].offset matches Some(o) ==> {
                &&& w.parts[w.pid(p)].arena matches Some(a)
                &&& o + taken(w.size(p)) <= a.capacity
            }
        } by {
            assert(v.live(p));
        }
    }
    assert(w.memory_ok()) by {
        assert forall|k: int| 0 <= k < w.parts.len() implies bytes_of(w.nodes, w.reg.infos, k)
            <= (#[trigger] w.parts[k]).used by {
            assert(bytes_of(v.nodes, v.reg.infos, k) <= v.parts[k].used);
        }
    }
    assert(w.scopes_ok());
}

impl<T> GcHeap<T> {
    /// Accounts `delta` bytes more to a partition, or less if it is negative, and returns what
    /// is then accounted to it.
    pub fn update_mem_use(&mut self, id: GcPartitionId, delta: i32) -> (r: usize)
        requires
            old(self).wf(),
            old(self)@.has_part(id),
            delta > i32::MIN,
            0 <= old(self)@.parts[id.0 as int].used + delta,
            old(self)@.total + delta <= usize::MAX,
        ensures
            final(self)@ == old(self)@.charged(id.0 as int, delta as int),
            r == final(self)@.parts[id.0 as int].used,
            final(self).inv(),
            bytes_of(old(self)@.nodes, old(self)@.reg.infos, id.0 as int) <= old(
                self,
            )@.parts[id.0 as int].used + delta ==> final(self).wf(),
    {
        proof {
            lemma_part_used(self@, id.0 as int);
        }
        let before: usize = self.partitions[id.0 as usize].memory_used();
        let used: usize = if delta >= 0 {
            let d: usize = delta as usize;
            self.total_memory_used = self.total_memory_used + d;
            before + d
        } else {
            let d: usize = (-delta) as usize;
            self.total_memory_used = self.total_memory_used - d;
            before - d
        };
        self.partitions[id.0 as usize].set_memory_used(used);
        proof {
            assert(self@ =~= old(self)@.charged(id.0 as int, delta as int));
            if bytes_of(old(self)@.nodes, old(self)@.reg.infos, id.0 as int) <= old(
                self,
            )@.parts[id.0 as int].used + delta {
                lemma_charged_wf(old(self)@, id.0 as int, delta as int);
            }
        }
        used
    }

    /// Puts a node before the head of the chain of its partition.
    pub(crate) fn attach_node(&mut self, partition_id: GcPartitionId, node: GcPtr)
        requires
            old(self).wf(),
            old(self)@.live(node),
            old(self)@.pid(node) == partition_id.0,
            !old(self)@.parts[partition_id.0 as int].nodes.contains(node),
        ensures
            final(self).wf(),
            final(self)@ == old(self)@.attached(partition_id.0 as int, node),
    {
        self.partitions[partition_id.0 as usize].attach(node);
        proof {
            assert(self@ =~= old(self)@.attached(partition_id.0 as int, node));
            lemma_attached_wf(old(self)@, partition_id.0 as int, node);
        }
    }

    /// Makes a node a root. In a marking cycle it is put on the gray list of its partition.
    pub fn set_root_node(&mut self, node: GcPtr)
        requires
            old(self).wf(),
            old(self)@.live(node),
        ensures
            final(self).wf(),
            final(self)@ == old(self)@.rooted(node),
    {
        if !self.table.head(node).is_root() {
            let pid: GcPartitionId = self.table.head(node).partition_id();
            self.set_flag(node, GcNodeFlag::Root, true);
            proof {
                lemma_with_head_keeps(
                    old(self)@,
                    node,
                    HeadView { root: true, ..old(self)@.head(node) },
                );
                lemma_keeps_wf(old(self)@, self@);
            }
            if self.partitions[pid.0 as usize].is_marking() {
                self.part_add_gray_node(pid, node);
            }
        }
    }

    /// Makes a node a root, or stops it from being one.
    pub fn set_root(&mut self, gc_ref: GcRef<T>, is_root: bool)
        requires
            old(self).wf(),
            old(self)@.live(gc_ref.ptr()),
        ensures
            final(self).wf(),
            is_root ==> final(self)@ == old(self)@.rooted(gc_ref.ptr()),
            !is_root ==> final(self)@ == old(self)@.with_head(
                gc_ref.ptr(),
                HeadView { root: false, ..old(self)@.head(gc_ref.ptr()) },
            ),
    {
        let node = gc_ref.node_ptr();
        if is_root {
            self.set_root_node(node);
        } else {
            self.set_flag(node, GcNodeFlag::Root, false);
            proof {
                lemma_with_head_keeps(
                    old(self)@,
                    node,
                    HeadView { root: false, ..old(self)@.head(node) },
                );
                lemma_keeps_wf(old(self)@, self@);
            }
        }
    }

    /// Makes the weak slot of a node vacant, if it has one.
    pub(crate) fn clear_weak_slot(&mut self, node: GcPtr)
        requires
            old(self).wf(),
            old(self)@.live(node),
        ensures
            final(self).inv(),
            final(self)@ == (HeapView {
                weak: old(self)@.disposed(old(self)@.pid(node), seq![node]).weak,
                ..old(self)@
            }),
    {
        let ghost v = self@;
        let ghost gone = seq![node];
        assert(gone[0] == node);
        assert(gone.contains(node));
        let id = self.table.head(node).weak_id();
        if !id.is_null() {
            let i: usize = id.index() as usize;
            let version: u16 = self.weak_slots[i].version;
            self.weak_slots[i] = WeakSlot { version, node: None };
        }
        proof {
            let w = v.disposed(v.pid(node), gone);
            assert forall|k: int| 0 <= k < v.weak.len() implies self@.weak[k] == w.weak[k] by {
                if v.weak[k].node is Some {
                    let q = v.weak[k].node.unwrap();
                    assert(v.live(q) && v.head(q).weak.spec_index() == k);
                    if gone.contains(q) {
                        assert(q == node);
                    }
                }
            }
            assert(self@.weak =~= w.weak);
            assert(self@ =~= HeapView { weak: w.weak, ..v });
        }
    }

    /// Disposes of a node: its weak slot becomes vacant, its payload is dropped if it still has
    /// one, and its bytes are not accounted any more. Returns their number.
    pub(crate) fn dispose(&mut self, node: GcPtr) -> (r: usize)
        requires
            old(self).wf(),
            old(self)@.live(node),
            !old(self)@.parts[old(self)@.pid(node)].nodes.contains(node),
            !held(old(self)@.stacks, node),
        ensures
            final(self).wf(),
            final(self)@ == old(self)@.disposed(old(self)@.pid(node), seq![node]),
            r == old(self)@.size(node),
    {
        let ghost v = self@;
        proof {
            lemma_disposed_wf(v, node);
            lemma_part_used(v, v.pid(node));
        }
        let pid: GcPartitionId = self.table.head(node).partition_id();
        let dtype: u8 = self.table.head(node).dtype();
        let size: usize = self.node_dtypes.info(dtype).layout_size;
        self.clear_weak_slot(node);
        let ghost w = self@;
        let payload: Option<T> = self.table.remove(node);
        let used: usize = self.partitions[pid.0 as usize].memory_used();
        self.partitions[pid.0 as usize].set_memory_used(used - size);
        self.total_memory_used = self.total_memory_used - size;
        proof {
            let end = v.disposed(v.pid(node), seq![node]);
            assert(self@.nodes =~= end.nodes);
            assert(self@.parts =~= end.parts);
            assert(self@.weak =~= w.weak);
            assert(self@ =~= end);
        }
        size
    }
}

impl<T: GcNode> GcHeap<T> {
    /// Allocates a node that is in no chain yet, in the arena of its partition if it is small
    /// enough and there is room. With `skip_arena` the arena is not tried. Returns the node and
    /// its size; an error hands the payload back.
    pub(crate) fn alloc_node_mem(
        &mut self,
        partition_id: GcPartitionId,
        payload: T,
        skip_arena: bool,
    ) -> (r: Result<(GcPtr, usize), (GcError, T)>)
        requires
            old(self).wf(),
            old(self)@.alloc_fits(partition_id, payload.spec_type_id()),
        ensures
            final(self).wf(),
            match r {
                Ok((p, size)) => {
                    let dtype = payload.spec_type_id();
                    &&& old(self)@.alloc_error(partition_id, dtype) is None
                    &&& !old(self)@.live(p)
                    &&& p.heap == old(self)@.id
                    &&& size == old(self)@.reg.infos[dtype as int].layout_size
                    &&& final(self)@ == old(self)@.allocated(
                        p,
                        partition_id,
                        dtype,
                        payload,
                        skip_arena,
                    )
                },
                Err((e, back)) => {
                    &&& old(self)@.alloc_error(partition_id, payload.spec_type_id()) == Some(e)
                    &&& back == payload
                    &&& final(self)@ == old(self)@
                },
            },
    {
        let ghost v = self@;
        let ghost i = partition_id.0 as int;
        if (partition_id.0 as usize) >= self.partitions.len() {
            return Err((GcError::PartitionNotFound, payload));
        }
        let dtype: u8 = payload.gc_type_id();
        let info: GcTypeInfo = *self.node_dtypes.info(dtype);
        if !layout_is_valid(info.layout_size, info.layout_align) {
            return Err((GcError::AllocationFailed, payload));
        }
        let gross_size: usize = info.layout_size;
        if unlikely(
            self.memory_limit > 0 && self.total_memory_used + gross_size > self.memory_limit,
        ) {
            return Err((GcError::PartitionFull, payload));
        }
        proof {
            lemma_part_used(v, i);
        }
        let mut offset: Option<usize> = None;
        if !skip_arena && gross_size <= self.partitions[partition_id.0 as usize].arena_max_alloc() {
            offset = self.partitions[partition_id.0 as usize].arena_alloc(
                gross_size,
                info.layout_align,
            );
        }
        let mut head: GcHead = GcHead::new(dtype, partition_id);
        if offset.is_some() {
            head.insert_flag(GcNodeFlag::ArenaAlloc);
        }
        let p = self.table.insert(head, payload, offset);
        let used: usize = self.partitions[partition_id.0 as usize].memory_used();
        self.partitions[partition_id.0 as usize].set_memory_used(used + gross_size);
        self.total_memory_used = self.total_memory_used + gross_size;
        proof {
            let w = v.allocated(p, partition_id, dtype, payload, skip_arena);
            assert(self@.parts =~= w.parts);
            assert(self@.nodes =~= w.nodes);
            assert(self@.weak =~= w.weak);
            assert(self@.stacks =~= w.stacks);
            assert(self@ =~= w);
            lemma_allocated_wf(v, p, partition_id, dtype, payload, skip_arena);
        }
        Ok((p, gross_size))
    }

    /// Allocates a node and puts it in the chain of its partition. It is neither a root nor held
    /// by a scope. An error hands the payload back.
    pub fn alloc_raw(&mut self, partition_id: GcPartitionId, payload: T) -> (r: Result<
        GcRef<T>,
        (GcError, T),
    >)
        requires
            old(self).wf(),
            old(self)@.alloc_fits(partition_id, payload.spec_type_id()),
        ensures
            final(self).wf(),
            match r {
                Ok(g) => {
                    let dtype = payload.spec_type_id();
                    &&& old(self)@.alloc_error(partition_id, dtype) is None
                    &&& !old(self)@.live(g.ptr())
                    &&& g.ptr().heap == old(self)@.id
                    &&& final(self)@ == old(self)@.allocated(
                        g.ptr(),
                        partition_id,
                        dtype,
                        payload,
                        false,
                    ).attached(partition_id.0 as int, g.ptr())
                },
                Err((e, back)) => {
                    &&& old(self)@.alloc_error(partition_id, payload.spec_type_id()) == Some(e)
                    &&& back == payload
                    &&& final(self)@ == old(self)@
                },
            },
    {
        match self.alloc_node_mem(partition_id, payload, false) {
            Ok((p, _)) => {
                proof {
                    lemma_fresh_unchained(old(self)@, partition_id.0 as int, p);
                }
                self.attach_node(partition_id, p);
                Ok(GcRef::from_ptr(p))
            },
            Err(e) => Err(e),
        }
    }

    /// Allocates a root node, outside of the arena, and puts it in the chain of its partition;
    /// in a marking cycle also on the gray list. An error hands the payload back.
    pub fn alloc_root_raw(&mut self, partition_id: GcPartitionId, payload: T) -> (r: Result<
        GcRef<T>,
        (GcError, T),
    >)
        requires
            old(self).wf(),
            old(self)@.alloc_fits(partition_id, payload.spec_type_id()),
        ensures
            final(self).wf(),
            match r {
                Ok(g) => {
                    let dtype = payload.spec_type_id();
                    &&& old(self)@.alloc_error(partition_id, dtype) is None
                    &&& !old(self)@.live(g.ptr())
                    &&& g.ptr().heap == old(self)@.id
                    &&& final(self)@ == old(self)@.root_allocated(
                        g.ptr(),
                        partition_id,
                        dtype,
                        payload,
                    )
                },
                Err((e, back)) => {
                    &&& old(self)@.alloc_error(partition_id, payload.spec_type_id()) == Some(e)
                    &&& back == payload
                    &&& final(self)@ == old(self)@
                },
            },
    {
        match self.alloc_node_mem(partition_id, payload, true) {
            Ok((p, _)) => {
                let ghost a = self@;
                self.set_flag(p, GcNodeFlag::Root, true);
                proof {
                    lemma_with_head_keeps(a, p, HeadView { root: true, ..a.head(p) });
                    lemma_keeps_wf(a, self@);
                    lemma_fresh_unchained(old(self)@, partition_id.0 as int, p);
                }
                self.attach_node(partition_id, p);
                if self.partitions[partition_id.0 as usize].is_marking() {
                    self.part_add_gray_node(partition_id, p);
                }
                Ok(GcRef::from_ptr(p))
            },
            Err(e) => Err(e),
        }
    }
}

proof fn lemma_fresh_unchained<T>(v: HeapView<T>, pid: int, p: GcPtr)
    requires
        v.wf(),
        !v.live(p),
        0 <= pid < v.parts.len(),
    ensures
        !v.parts[pid].nodes.contains(p),
{
    if v.parts[pid].nodes.contains(p) {
        let k = choose|k: int| 0 <= k < v.parts[pid].nodes.len() && v.parts[pid].nodes[k] == p;
        assert(v.live(v.parts[pid].nodes[k]));
    }
}

} // verus!
