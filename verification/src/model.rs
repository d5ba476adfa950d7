//! Mathematical model of a heap, over which the contracts are stated.

use vstd::layout::valid_layout;
use vstd::prelude::*;

use crate::arena::{taken, ArenaView};
use crate::gctype::{GcTypeInfo, RegistryView};
use crate::helpers::GcError;
use crate::node::{GcPartitionId, GcPtr, GcTriColor, HeadView};
use crate::table::NodeView;

verus! {

/// A partition.
#[verifier::ext_equal]
pub struct PartView {
    /// The nodes of the partition, the most recent one first.
    pub nodes: Seq<GcPtr>,
    /// Nodes to be traced; the last one is next.
    pub gray: Seq<GcPtr>,
    /// A marking cycle is under way.
    pub marking: bool,
    /// Bytes accounted to the partition.
    pub used: int,
    /// The arena, if the partition has one.
    pub arena: Option<ArenaView>,
    /// Largest node that goes to the arena.
    pub arena_max: int,
}

/// A weak slot: the version last handed out and the node it stands for.
pub struct WeakSlotView {
    pub version: u16,
    pub node: Option<GcPtr>,
}

/// A scope: the partition it allocates in and the nodes it holds.
#[verifier::ext_equal]
pub struct ScopeView {
    pub partition: GcPartitionId,
    pub nodes: Seq<GcPtr>,
}

/// A scope stack: the partition it is acquired for, and its scopes from the outermost to the
/// innermost.
#[verifier::ext_equal]
pub struct StackView {
    pub partition: Option<GcPartitionId>,
    pub scopes: Seq<ScopeView>,
}

/// A heap.
#[verifier::ext_equal]
pub struct HeapView<T> {
    /// Number of the heap, carried by all of its handles.
    pub id: u32,
    /// The payload types.
    pub reg: RegistryView,
    /// The live nodes.
    pub nodes: Map<GcPtr, NodeView<T>>,
    pub parts: Seq<PartView>,
    pub weak: Seq<WeakSlotView>,
    pub stacks: Seq<StackView>,
    /// Bytes that may be used in all; zero for no limit.
    pub limit: int,
    /// Bytes in use at which a collection is due; zero for never.
    pub threshold: int,
    /// Bytes in use.
    pub total: int,
    /// A value of the owner's, handed to every trace context.
    pub opaque: usize,
}

/// Bytes accounted to all partitions together.
pub open spec fn sum_used(parts: Seq<PartView>) -> int
    decreases parts.len(),
{
    if parts.len() == 0 {
        0
    } else {
        sum_used(parts.drop_last()) + parts.last().used
    }
}

/// Size of a node.
pub open spec fn node_size<T>(infos: Seq<GcTypeInfo>, node: NodeView<T>) -> int {
    infos[node.head.dtype as int].layout_size as int
}

/// Size of a node if it belongs to partition `pid`, else zero.
pub open spec fn share<T>(infos: Seq<GcTypeInfo>, node: NodeView<T>, pid: int) -> int {
    if node.head.partition.0 == pid {
        node_size(infos, node)
    } else {
        0
    }
}

/// Size of all nodes of partition `pid` together.
pub open spec fn bytes_of<T>(
    nodes: Map<GcPtr, NodeView<T>>,
    infos: Seq<GcTypeInfo>,
    pid: int,
) -> int
    decreases nodes.dom().len(),
    when nodes.dom().finite()
{
    if nodes.dom().len() == 0 {
        0
    } else {
        let p = nodes.dom().choose();
        share(infos, nodes[p], pid) + bytes_of(nodes.remove(p), infos, pid)
    }
}

/// Size of the listed nodes together.
pub open spec fn size_of_all<T>(
    nodes: Map<GcPtr, NodeView<T>>,
    infos: Seq<GcTypeInfo>,
    list: Seq<GcPtr>,
) -> int
    decreases list.len(),
{
    if list.len() == 0 {
        0
    } else {
        size_of_all(nodes, infos, list.drop_last()) + node_size(infos, nodes[list.last()])
    }
}

/// `(s, d, i)` is a place in the scope stacks: stack, scope, position.
pub open spec fn is_place(stacks: Seq<StackView>, s: int, d: int, i: int) -> bool {
    &&& 0 <= s < stacks.len()
    &&& 0 <= d < stacks[s].scopes.len()
    &&& 0 <= i < stacks[s].scopes[d].nodes.len()
}

/// The node at a place in the scope stacks.
pub open spec fn place(stacks: Seq<StackView>, s: int, d: int, i: int) -> GcPtr {
    stacks[s].scopes[d].nodes[i]
}

/// Some scope holds the node.
pub open spec fn held(stacks: Seq<StackView>, p: GcPtr) -> bool {
    exists|s: int, d: int, i: int|
        is_place(stacks, s, d, i) && #[trigger] place(stacks, s, d, i) == p
}

impl<T> HeapView<T> {
    /// The handle denotes a node of the heap.
    pub open spec fn live(self, p: GcPtr) -> bool {
        self.nodes.dom().contains(p)
    }

    pub open spec fn head(self, p: GcPtr) -> HeadView {
        self.nodes[p].head
    }

    pub open spec fn color(self, p: GcPtr) -> GcTriColor {
        self.nodes[p].head.color
    }

    /// Index of the node's partition.
    pub open spec fn pid(self, p: GcPtr) -> int {
        self.nodes[p].head.partition.0 as int
    }

    /// The node is a root or held by a scope.
    pub open spec fn pinned(self, p: GcPtr) -> bool {
        self.nodes[p].head.pinned()
    }

    pub open spec fn size(self, p: GcPtr) -> int {
        node_size(self.reg.infos, self.nodes[p])
    }

    pub open spec fn drop_pass(self, p: GcPtr) -> u8 {
        self.reg.infos[self.head(p).dtype as int].drop_pass
    }

    /// A partition has this id.
    pub open spec fn has_part(self, pid: GcPartitionId) -> bool {
        pid.0 < self.parts.len()
    }

    /// The heap with another header for the node.
    pub open spec fn with_head(self, p: GcPtr, head: HeadView) -> HeapView<T> {
        HeapView {
            nodes: self.nodes.insert(p, NodeView { head, ..self.nodes[p] }),
            ..self
        }
    }

    /// The heap with another payload for the node.
    pub open spec fn with_payload(self, p: GcPtr, payload: Option<T>) -> HeapView<T> {
        HeapView {
            nodes: self.nodes.insert(p, NodeView { payload, ..self.nodes[p] }),
            ..self
        }
    }

    /// The heap with another partition at `pid`.
    pub open spec fn with_part(self, pid: int, part: PartView) -> HeapView<T> {
        HeapView { parts: self.parts.update(pid, part), ..self }
    }

    /// Every node belongs to a partition and has a type of the table.
    pub open spec fn nodes_ok(self) -> bool {
        &&& self.nodes.dom().finite()
        &&& forall|p: GcPtr| #[trigger] self.live(p) ==> p.heap == self.id
        &&& forall|p: GcPtr| #[trigger] self.live(p) ==> self.pid(p) < self.parts.len()
        &&& forall|p: GcPtr| #[trigger] self.live(p) ==> self.head(p).dtype < self.reg.infos.len()
    }

    /// The chain of a partition lists nodes of that partition, each of them once.
    pub open spec fn chains_ok(self) -> bool {
        &&& forall|i: int| 0 <= i < self.parts.len() ==> (#[trigger] self.parts[i]).nodes.no_duplicates()
        &&& forall|i: int, k: int|
            0 <= i < self.parts.len() && 0 <= k < self.parts[i].nodes.len() ==> self.live(
                #[trigger] self.parts[i].nodes[k],
            ) && self.pid(self.parts[i].nodes[k]) == i
    }

    /// The weak ids of the nodes and the weak slots name each other.
    pub open spec fn weak_ok(self) -> bool {
        &&& forall|p: GcPtr| #[trigger]
            self.live(p) && self.head(p).weak.spec_version() != 0 ==> {
                let id = self.head(p).weak;
                &&& id.spec_index() < self.weak.len()
                &&& self.weak[id.spec_index() as int].version == id.spec_version()
                &&& self.weak[id.spec_index() as int].node == Some(p)
            }
        &&& forall|k: int|
            #![trigger self.weak[k]]
            0 <= k < self.weak.len() ==> (self.weak[k].node matches Some(p) ==> {
                &&& self.live(p)
                &&& self.head(p).weak.spec_index() == k
                &&& self.head(p).weak.spec_version() == self.weak[k].version
                &&& self.weak[k].version != 0
            })
        &&& self.weak.len() <= u16::MAX
    }

    /// A node that lies in an arena lies inside the arena of its partition.
    pub open spec fn arenas_ok(self) -> bool {
        forall|p: GcPtr| #[trigger]
            self.live(p) ==> {
                &&& self.head(p).arena <==> self.nodes[p].offset is Some
                &&& self.nodes[p].offset matches Some(o) ==> {
                    &&& self.parts[self.pid(p)].arena matches Some(a)
                    &&& o + taken(self.size(p)) <= a.capacity
                }
            }
    }

    /// The bytes accounted to a partition cover its nodes, and the total is the sum over the
    /// partitions.
    pub open spec fn memory_ok(self) -> bool {
        &&& forall|i: int|
            0 <= i < self.parts.len() ==> bytes_of(self.nodes, self.reg.infos, i) <= (
            #[trigger] self.parts[i]).used
        &&& self.total == sum_used(self.parts)
    }

    /// The nodes held by scopes are live and marked local, and no node is held twice.
    pub open spec fn scopes_ok(self) -> bool {
        &&& forall|s: int, d: int, i: int|
            is_place(self.stacks, s, d, i) ==> self.live(#[trigger] place(self.stacks, s, d, i))
                && self.head(place(self.stacks, s, d, i)).local
        &&& forall|s: int, d: int, i: int, s2: int, d2: int, i2: int|
            is_place(self.stacks, s, d, i) && is_place(self.stacks, s2, d2, i2)
                && #[trigger] place(self.stacks, s, d, i) == #[trigger] place(
                self.stacks,
                s2,
                d2,
                i2,
            ) ==> s == s2 && d == d2 && i == i2
        &&& forall|s: int|
            0 <= s < self.stacks.len() && (#[trigger] self.stacks[s]).partition is None
                ==> self.stacks[s].scopes.len() == 0
    }

    /// What holds of a heap between any two operations.
    pub open spec fn wf(self) -> bool {
        &&& self.reg.wf()
        &&& self.nodes_ok()
        &&& self.chains_ok()
        &&& self.weak_ok()
        &&& self.arenas_ok()
        &&& self.memory_ok()
        &&& self.scopes_ok()
    }
}

impl<T> HeapView<T> {
    /// The heap with `bytes` more accounted to a partition.
    pub open spec fn charged(self, pid: int, bytes: int) -> HeapView<T> {
        HeapView {
            parts: self.parts.update(
                pid,
                PartView { used: self.parts[pid].used + bytes, ..self.parts[pid] },
            ),
            total: self.total + bytes,
            ..self
        }
    }

    /// Why a node of this type cannot be allocated in a partition, if it cannot.
    pub open spec fn alloc_error(self, pid: GcPartitionId, dtype: u8) -> Option<GcError> {
        let info = self.reg.infos[dtype as int];
        if !self.has_part(pid) {
            Some(GcError::PartitionNotFound)
        } else if !valid_layout(info.layout_size, info.layout_align) {
            Some(GcError::AllocationFailed)
        } else if self.limit > 0 && self.total + info.layout_size > self.limit {
            Some(GcError::PartitionFull)
        } else {
            None
        }
    }

    /// The numbers that an allocation has to change stay in the range of their types.
    pub open spec fn alloc_fits(self, pid: GcPartitionId, dtype: u8) -> bool {
        let info = self.reg.infos[dtype as int];
        &&& dtype < self.reg.infos.len()
        &&& self.has_part(pid) && valid_layout(info.layout_size, info.layout_align) ==> self.total
            + info.layout_size <= usize::MAX
        &&& self.alloc_error(pid, dtype) is None ==> {
            &&& info.layout_size <= i32::MAX
            &&& self.parts[pid.0 as int].arena matches Some(a) ==> a.live < usize::MAX
        }
    }

    /// The arena is tried for a node of this type.
    pub open spec fn tries_arena(self, pid: int, dtype: u8, skip_arena: bool) -> bool {
        &&& !skip_arena
        &&& self.reg.infos[dtype as int].layout_size <= self.parts[pid].arena_max
        &&& self.parts[pid].arena is Some
    }

    /// Where in the arena a node of this type goes, if it goes there.
    pub open spec fn arena_place(self, pid: int, dtype: u8, skip_arena: bool) -> Option<int> {
        let info = self.reg.infos[dtype as int];
        if self.tries_arena(pid, dtype, skip_arena) {
            self.parts[pid].arena.unwrap().alloc_offset(
                info.layout_size as int,
                info.layout_align as int,
            )
        } else {
            None
        }
    }

    /// A fresh node.
    pub open spec fn fresh_node(
        self,
        pid: GcPartitionId,
        dtype: u8,
        payload: T,
        skip_arena: bool,
    ) -> NodeView<T> {
        let offset = self.arena_place(pid.0 as int, dtype, skip_arena);
        NodeView {
            head: HeadView { arena: offset is Some, ..HeadView::fresh(dtype, pid) },
            payload: Some(payload),
            offset: match offset {
                Some(o) => Some(o as usize),
                None => None,
            },
        }
    }

    /// The heap after a node was allocated under the handle `p`, in no chain yet.
    pub open spec fn allocated(
        self,
        p: GcPtr,
        pid: GcPartitionId,
        dtype: u8,
        payload: T,
        skip_arena: bool,
    ) -> HeapView<T> {
        let i = pid.0 as int;
        let info = self.reg.infos[dtype as int];
        let arena = if self.tries_arena(i, dtype, skip_arena) {
            Some(
                self.parts[i].arena.unwrap().after_alloc(
                    info.layout_size as int,
                    info.layout_align as int,
                ),
            )
        } else {
            self.parts[i].arena
        };
        HeapView {
            nodes: self.nodes.insert(p, self.fresh_node(pid, dtype, payload, skip_arena)),
            ..self.with_part(i, PartView { arena, ..self.parts[i] })
        }.charged(i, info.layout_size as int)
    }

    /// The heap after a node was made a root.
    pub open spec fn rooted(self, p: GcPtr) -> HeapView<T> {
        let w = self.with_head(p, HeadView { root: true, ..self.head(p) });
        if self.head(p).root {
            self
        } else if self.parts[self.pid(p)].marking {
            w.gray_added(self.pid(p), p)
        } else {
            w
        }
    }

    /// The heap with a node put before the head of the chain of a partition.
    pub open spec fn attached(self, pid: int, p: GcPtr) -> HeapView<T> {
        self.with_part(pid, PartView { nodes: seq![p] + self.parts[pid].nodes, ..self.parts[pid] })
    }

    /// The heap after a root node was allocated under the handle `p`.
    pub open spec fn root_allocated(
        self,
        p: GcPtr,
        pid: GcPartitionId,
        dtype: u8,
        payload: T,
    ) -> HeapView<T> {
        let a = self.allocated(p, pid, dtype, payload, true);
        let w = a.with_head(p, HeadView { root: true, ..a.head(p) }).attached(pid.0 as int, p);
        if self.parts[pid.0 as int].marking {
            w.gray_added(pid.0 as int, p)
        } else {
            w
        }
    }

    /// The heap without the nodes of `gone`, all of partition `pid`: weak slots that stand for
    /// one of them are vacant and their bytes are not accounted any more.
    pub open spec fn disposed(self, pid: int, gone: Seq<GcPtr>) -> HeapView<T> {
        HeapView {
            nodes: self.nodes.remove_keys(gone.to_set()),
            weak: Seq::new(
                self.weak.len(),
                |k: int|
                    match self.weak[k].node {
                        Some(p) => if gone.contains(p) {
                            WeakSlotView { version: self.weak[k].version, node: None }
                        } else {
                            self.weak[k]
                        },
                        None => self.weak[k],
                    },
            ),
            ..self.charged(pid, -size_of_all(self.nodes, self.reg.infos, gone))
        }
    }
}

} // verus!
