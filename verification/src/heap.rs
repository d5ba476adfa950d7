//! The heap.

use vstd::layout::{align_of, layout_for_type_is_valid, size_of};
use vstd::prelude::*;

use crate::gctype::{
    layout_is_valid, lemma_pow2_bound, spec_align_up, GcTypeInfo, GcTypeRegistry,
};
use crate::lemmas::{keeps, lemma_keeps_wf};
use crate::model::{HeapView, PartView, StackView, WeakSlotView};
use crate::node::{GcHead, GcNodeFlag, GcPartitionId, GcPtr, GcTriColor, HeadView};
use crate::node_link::NodeLinkIter;
use crate::partition::GcPartition;
use crate::scope::ScopeStack;
use crate::table::NodeTable;
use crate::trace::GcRef;

pub mod mark;
pub mod mem;
pub mod barrier;
pub mod collect;
pub mod partitions;
pub mod scopes;
pub mod sweep;
pub mod traverse;
pub mod weak;

verus! {

/// A weak slot: the version last handed out and the node it stands for.
pub struct WeakSlot {
    version: u16,
    node: Option<GcPtr>,
}

impl View for WeakSlot {
    type V = WeakSlotView;

    closed spec fn view(&self) -> WeakSlotView {
        WeakSlotView { version: self.version, node: self.node }
    }
}

/// A garbage collected heap with payloads of type `T`.
pub struct GcHeap<T> {
    node_dtypes: GcTypeRegistry,
    table: NodeTable<T>,
    partitions: Vec<GcPartition>,
    memory_limit: usize,
    gc_threshold: usize,
    total_memory_used: usize,
    weak_slots: Vec<WeakSlot>,
    scope_stacks: Vec<ScopeStack>,
    opaque: usize,
}

impl<T> View for GcHeap<T> {
    type V = HeapView<T>;

    closed spec fn view(&self) -> HeapView<T> {
        HeapView {
            id: self.table.id(),
            reg: self.node_dtypes@,
            nodes: self.table@,
            parts: Seq::new(self.partitions@.len(), |i: int| self.partitions@[i]@),
            weak: Seq::new(self.weak_slots@.len(), |i: int| self.weak_slots@[i]@),
            stacks: Seq::new(self.scope_stacks@.len(), |i: int| self.scope_stacks@[i]@),
            limit: self.memory_limit as int,
            threshold: self.gc_threshold as int,
            total: self.total_memory_used as int,
            opaque: self.opaque,
        }
    }
}

/// Least threshold that the heap sets by itself: a header and the smallest payload.
pub open spec fn spec_min_threshold() -> int {
    size_of::<GcHead>() + spec_align_up(1, align_of::<GcHead>() as int)
}

/// Least threshold that the heap sets by itself: a header and the smallest payload.
pub fn min_gc_threshold() -> (r: usize)
    ensures
        r == spec_min_threshold(),
{
    layout_for_type_is_valid::<GcHead>();
    let align: usize = std::mem::align_of::<GcHead>();
    proof {
        lemma_pow2_bound(align);
        vstd::arithmetic::div_mod::lemma_div_basics(align as int);
    }
    std::mem::size_of::<GcHead>() + crate::gctype::align_up(1, align)
}

/// The threshold that is in force after a limit of `applied` bytes was set.
pub open spec fn adjusted_threshold(threshold: int, applied: int) -> int {
    if threshold > 0 && threshold >= applied {
        let reduced = applied - applied / 4;
        if reduced < spec_min_threshold() {
            spec_min_threshold()
        } else {
            reduced
        }
    } else {
        threshold
    }
}

/// The largest threshold that can be set under a limit: eight tenths of it.
pub open spec fn threshold_cap(limit: int) -> int {
    (if limit * 8 > usize::MAX {
        usize::MAX as int
    } else {
        limit * 8
    }) / 10
}

/// The threshold that is in force after `threshold` was set under a limit; zero stands for none.
pub open spec fn capped_threshold(threshold: int, limit: int) -> int {
    if threshold > 0 && limit > 0 && threshold > threshold_cap(limit) {
        threshold_cap(limit)
    } else {
        threshold
    }
}

impl<T> GcHeap<T> {
    /// The parts of the heap are in order, each by itself.
    pub closed spec fn inv(&self) -> bool {
        &&& self.table.wf()
        &&& self.partitions@.len() <= 65536
        &&& forall|i: int| 0 <= i < self.partitions@.len() ==> (#[trigger] self.partitions@[i]).wf()
        &&& self.scope_stacks@.len() <= 65536
        &&& forall|s: int, d: int|
            0 <= s < self.scope_stacks@.len() && 0 <= d < self.scope_stacks@[s].list@.len() ==> (
            #[trigger] self.scope_stacks@[s].list@[d]).spec_stack_id().0 == s
                && self.scope_stacks@[s].list@[d].spec_depth() == d + 1
    }

    /// What holds of a heap between any two operations.
    pub open spec fn wf(&self) -> bool {
        &&& self.inv()
        &&& self@.wf()
    }

    /// A heap without partitions. `id` tells it apart from other heaps: handles made by heaps
    /// with different ids never denote the same node.
    pub fn new(registry: GcTypeRegistry, id: u32) -> (r: Self)
        requires
            registry@.wf(),
        ensures
            r.wf(),
            r@ == (HeapView::<T> {
                id,
                reg: registry@,
                nodes: Map::empty(),
                parts: Seq::empty(),
                weak: Seq::empty(),
                stacks: seq![StackView { partition: None, scopes: Seq::empty() }],
                limit: 0,
                threshold: 0,
                total: 0,
                opaque: 0,
            }),
    {
        let mut scope_stacks: Vec<ScopeStack> = Vec::new();
        scope_stacks.push(ScopeStack::new(None));
        let r = GcHeap {
            node_dtypes: registry,
            table: NodeTable::new(id),
            partitions: Vec::with_capacity(1),
            memory_limit: 0,
            gc_threshold: 0,
            total_memory_used: 0,
            weak_slots: Vec::with_capacity(8),
            scope_stacks,
            opaque: 0,
        };
        proof {
            assert(r@.parts =~= Seq::<PartView>::empty());
            assert(r@.weak =~= Seq::<WeakSlotView>::empty());
            assert(r@.stacks =~= seq![StackView { partition: None, scopes: Seq::empty() }]);
            r.table.lemma_dom();
        }
        r
    }

    /// Number of the heap.
    pub fn id(&self) -> (r: u32)
        ensures
            r == self@.id,
    {
        self.table.number()
    }

    /// The payload types.
    pub fn type_registry(&self) -> (r: &GcTypeRegistry)
        ensures
            r@ == self@.reg,
    {
        &self.node_dtypes
    }

    /// The owner's opaque value.
    #[inline(always)]
    pub fn opaque(&self) -> (r: usize)
        ensures
            r == self@.opaque,
    {
        self.opaque
    }

    /// Replaces the owner's opaque value.
    #[inline(always)]
    pub fn set_opaque(&mut self, opaque: usize)
        requires
            old(self).wf(),
        ensures
            final(self).wf(),
            final(self)@ == (HeapView { opaque, ..old(self)@ }),
    {
        self.opaque = opaque;
        proof {
            assert(self@ =~= HeapView { opaque, ..old(self)@ });
            lemma_keeps_wf(old(self)@, self@);
        }
    }

    /// The memory limit in bytes; zero if there is none.
    #[inline(always)]
    pub fn memory_limit(&self) -> (r: usize)
        ensures
            r == self@.limit,
    {
        self.memory_limit
    }

    /// Sets the memory limit and returns the one that is in force: at least what is in use.
    /// Zero lifts the limit. A collection threshold that is not below the new limit comes down
    /// to three quarters of it.
    pub fn set_memory_limit(&mut self, limit: usize) -> (r: usize)
        requires
            old(self).wf(),
        ensures
            final(self).wf(),
            r == final(self)@.limit,
            limit == 0 ==> final(self)@ == (HeapView { limit: 0, ..old(self)@ }),
            limit > 0 ==> {
                let applied = if old(self)@.total > limit {
                    old(self)@.total
                } else {
                    limit as int
                };
                final(self)@ == (HeapView {
                    limit: applied,
                    threshold: adjusted_threshold(old(self)@.threshold, applied),
                    ..old(self)@
                })
            },
    {
        if limit == 0 {
            self.memory_limit = 0;
        } else {
            let used: usize = self.total_memory_used;
            let applied: usize = if used > limit {
                used
            } else {
                limit
            };
            self.memory_limit = applied;
            if self.gc_threshold > 0 && self.gc_threshold >= applied {
                assert(applied >> 2 == applied / 4) by (bit_vector);
                let reduced: usize = applied - (applied >> 2);
                let least: usize = min_gc_threshold();
                self.gc_threshold = if reduced < least {
                    least
                } else {
                    reduced
                };
            }
        }
        proof {
            assert(self@.parts =~= old(self)@.parts);
            assert(self@.weak =~= old(self)@.weak);
            assert(self@.stacks =~= old(self)@.stacks);
            assert(keeps(old(self)@, self@));
            lemma_keeps_wf(old(self)@, self@);
        }
        self.memory_limit
    }

    /// The number of bytes in use at which a collection is due; zero if that is never.
    #[inline(always)]
    pub fn gc_threshold(&self) -> (r: usize)
        ensures
            r == self@.threshold,
    {
        self.gc_threshold
    }

    /// Sets the collection threshold and returns the one that is in force: under a memory
    /// limit, at most eight tenths of it. Zero switches the threshold off.
    pub fn set_gc_threshold(&mut self, threshold: usize) -> (r: usize)
        requires
            old(self).wf(),
        ensures
            final(self).wf(),
            r == final(self)@.threshold,
            final(self)@ == (HeapView {
                threshold: capped_threshold(threshold as int, old(self)@.limit),
                ..old(self)@
            }),
    {
        if threshold > 0 && self.memory_limit > 0 {
            let scaled: usize = if self.memory_limit > usize::MAX / 8 {
                usize::MAX
            } else {
                self.memory_limit * 8
            };
            let capped: usize = scaled / 10;
            self.gc_threshold = if threshold < capped {
                threshold
            } else {
                capped
            };
        } else {
            self.gc_threshold = threshold;
        }
        proof {
            assert(self@.parts =~= old(self)@.parts);
            assert(self@.weak =~= old(self)@.weak);
            assert(self@.stacks =~= old(self)@.stacks);
            assert(keeps(old(self)@, self@));
            lemma_keeps_wf(old(self)@, self@);
        }
        self.gc_threshold
    }

    /// Tells whether a collection is due: a threshold is set and as many bytes are in use.
    #[inline(always)]
    pub fn should_gc(&self) -> (r: bool)
        ensures
            r == (self@.threshold > 0 && self@.total >= self@.threshold),
    {
        self.gc_threshold > 0 && self.total_memory_used >= self.gc_threshold
    }

    /// Bytes in use.
    #[inline(always)]
    pub fn memory_used(&self) -> (r: usize)
        ensures
            r == self@.total,
    {
        self.total_memory_used
    }

    /// Number of weak slots, vacant ones included.
    pub fn weak_slot_count(&self) -> (r: usize)
        ensures
            r == self@.weak.len(),
    {
        self.weak_slots.len()
    }

    /// Tells whether the numbers that an allocation has to change stay in the range of their
    /// types.
    pub fn can_account(&self, partition_id: GcPartitionId, dtype: u8) -> (r: bool)
        ensures
            r == self@.alloc_fits(partition_id, dtype),
    {
        if (dtype as usize) >= self.node_dtypes.len() {
            return false;
        }
        if (partition_id.0 as usize) >= self.partitions.len() {
            return true;
        }
        let info: GcTypeInfo = *self.node_dtypes.info(dtype);
        if !layout_is_valid(info.layout_size, info.layout_align) {
            return true;
        }
        if info.layout_size > usize::MAX - self.total_memory_used {
            return false;
        }
        if self.memory_limit > 0 && self.total_memory_used + info.layout_size > self.memory_limit {
            return true;
        }
        info.layout_size <= 0x7FFF_FFFF && self.partitions[partition_id.0 as usize].arena_live()
            < usize::MAX
    }

    /// Announces a reference from a partition to a node of another one. Such references are not
    /// recorded yet: nothing changes and the answer is false.
    pub fn set_xref(&mut self, from_scope: GcPartitionId, node: GcPtr) -> (r: bool)
        ensures
            !r,
            *final(self) == *old(self),
    {
        false
    }

    /// Tells whether the node is in the chain of its partition in this heap.
    pub fn contains(&self, node: GcPtr) -> (r: bool)
        requires
            self.wf(),
        ensures
            r == (self@.live(node) && self@.parts[self@.pid(node)].nodes.contains(node)),
    {
        if !self.table.contains(node) {
            return false;
        }
        assert(self@.live(node));
        let pid: GcPartitionId = self.table.head(node).partition_id();
        self.partitions[pid.0 as usize].nodes().contains(node)
    }

    /// The nodes of a partition, the most recent one first; none if there is no such partition.
    pub fn nodes(&self, partition_id: GcPartitionId) -> (r: NodeLinkIter)
        ensures
            r@ == (if self@.has_part(partition_id) {
                self@.parts[partition_id.0 as int].nodes
            } else {
                Seq::empty()
            }),
    {
        if (partition_id.0 as usize) < self.partitions.len() {
            self.partitions[partition_id.0 as usize].nodes().iter()
        } else {
            NodeLinkIter::new(Vec::new())
        }
    }

    /// Tells whether the handle denotes a live node of this heap.
    pub fn is_live(&self, node: GcPtr) -> (r: bool)
        ensures
            r == self@.live(node),
    {
        self.table.contains(node)
    }

    /// The header of a node.
    pub fn head(&self, node: GcPtr) -> (r: &GcHead)
        requires
            self.wf(),
            self@.live(node),
        ensures
            r.wf(),
            r@ == self@.head(node),
    {
        self.table.head(node)
    }

    /// The payload of a node; `None` if the node is gone or its payload was dropped.
    pub fn get(&self, node: GcPtr) -> (r: Option<&T>)
        ensures
            r is Some <==> self@.live(node) && self@.nodes[node].payload is Some,
            r matches Some(t) ==> self@.nodes[node].payload == Some(*t),
    {
        if self.table.contains(node) {
            self.table.payload(node)
        } else {
            None
        }
    }

    /// The payload of a node, to be changed without a write barrier.
    pub fn payload_mut(&mut self, node: GcPtr) -> (r: Option<&mut T>)
        requires
            old(self).wf(),
            old(self)@.live(node),
        ensures
            r is Some <==> old(self)@.nodes[node].payload is Some,
            r matches Some(t) ==> old(self)@.nodes[node].payload == Some(*t) && final(self)@ == old(
                self,
            )@.with_payload(node, Some(*final(t))),
            r is None ==> final(self)@ == old(self)@,
            final(self).wf(),
    {
        proof {
            lemma_payloads_wf(*self);
        }
        self.table.payload_mut(node)
    }
}

/// Single changes of a header or a partition, from which the operations are made.
impl<T> GcHeap<T> {
    pub(crate) fn chain_len(&self, pid: GcPartitionId) -> (r: usize)
        requires
            self@.has_part(pid),
        ensures
            r == self@.parts[pid.0 as int].nodes.len(),
    {
        self.partitions[pid.0 as usize].nodes().len()
    }

    pub(crate) fn chain_at(&self, pid: GcPartitionId, i: usize) -> (r: GcPtr)
        requires
            self@.has_part(pid),
            i < self@.parts[pid.0 as int].nodes.len(),
        ensures
            r == self@.parts[pid.0 as int].nodes[i as int],
    {
        self.partitions[pid.0 as usize].nodes().get(i)
    }

    pub(crate) fn gray_len(&self, pid: GcPartitionId) -> (r: usize)
        requires
            self@.has_part(pid),
        ensures
            r == self@.parts[pid.0 as int].gray.len(),
    {
        self.partitions[pid.0 as usize].gray_len()
    }

    pub(crate) fn set_color(&mut self, p: GcPtr, color: GcTriColor)
        requires
            old(self).inv(),
            old(self)@.live(p),
        ensures
            final(self).inv(),
            final(self)@ == old(self)@.with_head(p, HeadView { color, ..old(self)@.head(p) }),
    {
        self.table.head_mut(p).set_color(color);
        assert(self@ =~= old(self)@.with_head(p, HeadView { color, ..old(self)@.head(p) }));
    }

    pub(crate) fn set_listed(&mut self, p: GcPtr, listed: bool)
        requires
            old(self).inv(),
            old(self)@.live(p),
        ensures
            final(self).inv(),
            final(self)@ == old(self)@.with_head(p, HeadView { listed, ..old(self)@.head(p) }),
    {
        self.table.head_mut(p).set_gray_listed(listed);
        assert(self@ =~= old(self)@.with_head(p, HeadView { listed, ..old(self)@.head(p) }));
    }

    pub(crate) fn set_flag(&mut self, p: GcPtr, flag: GcNodeFlag, value: bool)
        requires
            old(self).inv(),
            old(self)@.live(p),
        ensures
            final(self).inv(),
            final(self)@ == old(self)@.with_head(p, old(self)@.head(p).with_flag(flag, value)),
    {
        if value {
            self.table.head_mut(p).insert_flag(flag);
        } else {
            self.table.head_mut(p).remove_flag(flag);
        }
        assert(self@ =~= old(self)@.with_head(p, old(self)@.head(p).with_flag(flag, value)));
    }

    pub(crate) fn push_gray(&mut self, pid: GcPartitionId, p: GcPtr)
        requires
            old(self).inv(),
            old(self)@.has_part(pid),
        ensures
            final(self).inv(),
            final(self)@ == old(self)@.gray_pushed(pid.0 as int, p),
    {
        self.partitions[pid.0 as usize].gray_push(p);
        assert(self@ =~= old(self)@.gray_pushed(pid.0 as int, p));
    }

    pub(crate) fn pop_gray(&mut self, pid: GcPartitionId) -> (r: Option<GcPtr>)
        requires
            old(self).inv(),
            old(self)@.has_part(pid),
        ensures
            final(self).inv(),
            old(self)@.parts[pid.0 as int].gray.len() == 0 ==> r is None && final(self)@ == old(
                self,
            )@,
            old(self)@.parts[pid.0 as int].gray.len() > 0 ==> {
                let part = old(self)@.parts[pid.0 as int];
                &&& r == Some(part.gray.last())
                &&& final(self)@ == old(self)@.with_part(
                    pid.0 as int,
                    PartView { gray: part.gray.drop_last(), ..part },
                )
            },
    {
        let r = self.partitions[pid.0 as usize].gray_pop();
        proof {
            let part = old(self)@.parts[pid.0 as int];
            if part.gray.len() > 0 {
                assert(self@ =~= old(self)@.with_part(
                    pid.0 as int,
                    PartView { gray: part.gray.drop_last(), ..part },
                ));
            } else {
                assert(self@ =~= old(self)@);
            }
        }
        r
    }

    pub(crate) fn clear_gray(&mut self, pid: GcPartitionId)
        requires
            old(self).inv(),
            old(self)@.has_part(pid),
        ensures
            final(self).inv(),
            final(self)@ == old(self)@.with_part(
                pid.0 as int,
                PartView { gray: Seq::empty(), ..old(self)@.parts[pid.0 as int] },
            ),
    {
        self.partitions[pid.0 as usize].gray_clear();
        assert(self@ =~= old(self)@.with_part(
            pid.0 as int,
            PartView { gray: Seq::empty(), ..old(self)@.parts[pid.0 as int] },
        ));
    }

    pub(crate) fn set_marking(&mut self, pid: GcPartitionId, marking: bool)
        requires
            old(self).inv(),
            old(self)@.has_part(pid),
        ensures
            final(self).inv(),
            final(self)@ == old(self)@.with_part(
                pid.0 as int,
                PartView { marking, ..old(self)@.parts[pid.0 as int] },
            ),
    {
        self.partitions[pid.0 as usize].set_marking(marking);
        assert(self@ =~= old(self)@.with_part(
            pid.0 as int,
            PartView { marking, ..old(self)@.parts[pid.0 as int] },
        ));
    }
}

/// `h` is `g` but for payloads.
spec fn payloads_only<T>(g: GcHeap<T>, h: GcHeap<T>) -> bool {
    &&& h.table.wf()
    &&& h.table.id() == g.table.id()
    &&& h.table@.dom() =~= g.table@.dom()
    &&& forall|p: GcPtr| #[trigger]
        g.table@.dom().contains(p) ==> h.table@[p].head == g.table@[p].head && h.table@[p].offset
            == g.table@[p].offset
    &&& h.node_dtypes == g.node_dtypes
    &&& h.partitions == g.partitions
    &&& h.total_memory_used == g.total_memory_used
    &&& h.weak_slots == g.weak_slots
    &&& h.scope_stacks == g.scope_stacks
}

/// The invariant does not depend on payloads.
proof fn lemma_payloads_wf<T>(g: GcHeap<T>)
    requires
        g.wf(),
    ensures
        forall|h: GcHeap<T>| payloads_only(g, h) ==> #[trigger] h.wf(),
{
    assert forall|h: GcHeap<T>| payloads_only(g, h) implies #[trigger] h.wf() by {
        assert forall|p: GcPtr| #[trigger] g@.live(p) implies crate::lemmas::head_keeps(
            g@.nodes[p],
            h@.nodes[p],
        ) by {
            assert(g.table@.dom().contains(p));
        }
        lemma_keeps_wf(g@, h@);
    }
}

impl<T> GcRef<T> {
    /// The payload of the node; `None` if the node is gone or its payload was dropped.
    pub fn get<'a>(&self, heap: &'a GcHeap<T>) -> (r: Option<&'a T>)
        ensures
            r is Some <==> heap@.live(self.ptr()) && heap@.nodes[self.ptr()].payload is Some,
            r matches Some(t) ==> heap@.nodes[self.ptr()].payload == Some(*t),
    {
        heap.get(self.node_ptr())
    }

    /// The header of the node.
    #[inline(always)]
    pub fn node_info<'a>(&self, heap: &'a GcHeap<T>) -> (r: &'a GcHead)
        requires
            heap.wf(),
            heap@.live(self.ptr()),
        ensures
            r.wf(),
            r@ == heap@.head(self.ptr()),
    {
        heap.head(self.node_ptr())
    }

    /// Tells whether the node is a root.
    #[inline(always)]
    pub fn is_root(&self, heap: &GcHeap<T>) -> (r: bool)
        requires
            heap.wf(),
            heap@.live(self.ptr()),
        ensures
            r == heap@.head(self.ptr()).root,
    {
        heap.head(self.node_ptr()).is_root()
    }
}

} // verus!
