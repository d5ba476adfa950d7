//! Partitions: a chain of nodes with its own gray list, accounting and arena.

use vstd::prelude::*;

use crate::arena::{ArenaView, GcArena, Hole};
use crate::model::PartView;
use crate::node::GcPtr;
use crate::node_link::{GcNodeLink, NodeLinkIterMut};

verus! {

/// A partition of a heap.
pub struct GcPartition {
    nodes: GcNodeLink,
    gray_list: Vec<GcPtr>,
    marking: bool,
    memory_used: usize,
    arena: Option<GcArena>,
    arena_max_alloc: usize,
}

impl View for GcPartition {
    type V = PartView;

    closed spec fn view(&self) -> PartView {
        PartView {
            nodes: self.nodes@,
            gray: self.gray_list@,
            marking: self.marking,
            used: self.memory_used as int,
            arena: match self.arena {
                Some(a) => Some(a@),
                None => None,
            },
            arena_max: self.arena_max_alloc as int,
        }
    }
}

/// An empty partition with an arena of `capacity` bytes; without one if that is zero or too
/// much.
pub open spec fn fresh_part(capacity: usize, max: usize) -> PartView {
    PartView {
        nodes: Seq::empty(),
        gray: Seq::empty(),
        marking: false,
        used: 0,
        arena: if capacity != 0 && vstd::layout::valid_layout(capacity, 16) {
            Some(ArenaView { capacity: capacity as int, bump: 0, free: Seq::empty(), live: 0 })
        } else {
            None
        },
        arena_max: max as int,
    }
}

impl GcPartition {
    /// The arena, if there is one, is in order.
    pub closed spec fn wf(&self) -> bool {
        self.arena matches Some(a) ==> a.wf()
    }

    /// The accounted bytes fit in a `usize`.
    pub proof fn lemma_used(&self)
        ensures
            0 <= self@.used <= usize::MAX,
    {
    }

    /// An empty partition.
    pub fn new(arena_capacity: usize, arena_max_alloc: usize) -> (r: Self)
        ensures
            r.wf(),
            r@ == fresh_part(arena_capacity, arena_max_alloc),
    {
        let arena: Option<GcArena> = if arena_capacity == 0 {
            None
        } else {
            GcArena::new(arena_capacity)
        };
        GcPartition {
            nodes: GcNodeLink::default(),
            gray_list: Vec::new(),
            marking: false,
            memory_used: 0,
            arena,
            arena_max_alloc,
        }
    }

    /// Bytes accounted to the partition.
    #[inline(always)]
    pub fn memory_used(&self) -> (r: usize)
        ensures
            r == self@.used,
    {
        self.memory_used
    }

    /// Tells whether a marking cycle is under way.
    #[inline(always)]
    pub fn is_marking(&self) -> (r: bool)
        ensures
            r == self@.marking,
    {
        self.marking
    }

    /// The nodes, the most recent one first.
    pub fn nodes(&self) -> (r: &GcNodeLink)
        ensures
            r@ == self@.nodes,
    {
        &self.nodes
    }

    /// A cursor over the nodes that gives their headers out to be changed.
    pub fn nodes_mut(&mut self) -> (r: NodeLinkIterMut)
        ensures
            r@ == old(self)@.nodes,
            *final(self) == *old(self),
    {
        NodeLinkIterMut::new(self.nodes.to_vec())
    }

    /// Number of entries on the gray list.
    pub fn gray_len(&self) -> (r: usize)
        ensures
            r == self@.gray.len(),
    {
        self.gray_list.len()
    }

    /// The gray list; the last entry is traced next.
    pub fn gray_list(&self) -> (r: &Vec<GcPtr>)
        ensures
            r@ == self@.gray,
    {
        &self.gray_list
    }

    /// Largest node that goes to the arena.
    pub fn arena_max_alloc(&self) -> (r: usize)
        ensures
            r == self@.arena_max,
    {
        self.arena_max_alloc
    }

    /// Capacity of the arena; zero if there is none.
    pub fn arena_capacity(&self) -> (r: usize)
        ensures
            r == (match self@.arena {
                Some(a) => a.capacity,
                None => 0,
            }),
    {
        match &self.arena {
            Some(a) => a.capacity(),
            None => 0,
        }
    }

    /// Number of allocations in the arena that were not given back; zero without an arena.
    pub fn arena_live(&self) -> (r: usize)
        ensures
            r == match self@.arena {
                Some(a) => a.live,
                None => 0,
            },
    {
        match &self.arena {
            Some(a) => a.live_count(),
            None => 0,
        }
    }

    #[inline(always)]
    pub(crate) fn set_marking(&mut self, marking: bool)
        requires
            old(self).wf(),
        ensures
            final(self).wf(),
            final(self)@ == (PartView { marking, ..old(self)@ }),
    {
        self.marking = marking;
    }

    pub(crate) fn gray_push(&mut self, node: GcPtr)
        requires
            old(self).wf(),
        ensures
            final(self).wf(),
            final(self)@ == (PartView { gray: old(self)@.gray.push(node), ..old(self)@ }),
    {
        self.gray_list.push(node);
    }

    pub(crate) fn gray_clear(&mut self)
        requires
            old(self).wf(),
        ensures
            final(self).wf(),
            final(self)@ == (PartView { gray: Seq::empty(), ..old(self)@ }),
    {
        self.gray_list.clear();
        assert(self@.gray =~= Seq::<GcPtr>::empty());
    }

    pub(crate) fn gray_pop(&mut self) -> (r: Option<GcPtr>)
        requires
            old(self).wf(),
        ensures
            final(self).wf(),
            old(self)@.gray.len() == 0 ==> r is None && final(self)@ == old(self)@,
            old(self)@.gray.len() > 0 ==> r == Some(old(self)@.gray.last()) && final(self)@ == (
            PartView { gray: old(self)@.gray.drop_last(), ..old(self)@ }),
    {
        let r = self.gray_list.pop();
        proof {
            if old(self)@.gray.len() > 0 {
                assert(self@.gray =~= old(self)@.gray.drop_last());
            } else {
                assert(self@.gray =~= old(self)@.gray);
            }
        }
        r
    }

    pub(crate) fn attach(&mut self, node: GcPtr)
        requires
            old(self).wf(),
        ensures
            final(self).wf(),
            final(self)@ == (PartView { nodes: seq![node] + old(self)@.nodes, ..old(self)@ }),
    {
        self.nodes.prepend(node);
    }

    pub(crate) fn set_nodes(&mut self, nodes: GcNodeLink)
        requires
            old(self).wf(),
        ensures
            final(self).wf(),
            final(self)@ == (PartView { nodes: nodes@, ..old(self)@ }),
    {
        self.nodes = nodes;
    }

    pub(crate) fn set_memory_used(&mut self, bytes: usize)
        requires
            old(self).wf(),
        ensures
            final(self).wf(),
            final(self)@ == (PartView { used: bytes as int, ..old(self)@ }),
    {
        self.memory_used = bytes;
    }

    /// Allocates in the arena, if there is one.
    pub(crate) fn arena_alloc(&mut self, size: usize, align: usize) -> (r: Option<usize>)
        requires
            old(self).wf(),
            vstd::layout::valid_layout(size, align),
            old(self)@.arena matches Some(a) ==> a.live < usize::MAX,
        ensures
            final(self).wf(),
            old(self)@.arena is None ==> r is None && final(self)@ == old(self)@,
            old(self)@.arena matches Some(a) ==> {
                &&& r is Some <==> a.alloc_offset(size as int, align as int) is Some
                &&& r matches Some(o) ==> a.alloc_offset(size as int, align as int) == Some(
                    o as int,
                ) && o + crate::arena::taken(size as int) <= a.capacity
                &&& final(self)@ == (PartView {
                    arena: Some(a.after_alloc(size as int, align as int)),
                    ..old(self)@
                })
            },
    {
        match &mut self.arena {
            Some(a) => a.allocate(size, align),
            None => None,
        }
    }

    /// Gives the allocation at `offset` back to the arena.
    pub(crate) fn arena_collect(&mut self, holes: &mut Vec<Hole>, offset: usize, size: usize)
        requires
            old(self).wf(),
            old(self)@.arena matches Some(a) && offset + crate::arena::taken(size as int)
                <= a.capacity,
        ensures
            final(self).wf(),
            old(self)@.arena matches Some(a) ==> {
                &&& final(self)@ == (PartView {
                    arena: Some(a.after_collect(offset as int, size as int)),
                    ..old(self)@
                })
                &&& crate::arena::spans(final(holes)@) == a.holes_after(
                    crate::arena::spans(old(holes)@),
                    offset as int,
                    size as int,
                )
            },
    {
        match &mut self.arena {
            Some(a) => a.collect_hole(holes, offset, size),
            None => {},
        }
    }

    /// Ends a sweep of the arena, if there is one.
    pub(crate) fn arena_finish(&mut self, holes: &mut Vec<Hole>)
        requires
            old(self).wf(),
            old(self)@.arena matches Some(a) ==> forall|i: int|
                0 <= i < old(holes)@.len() ==> (#[trigger] old(holes)@[i])@.end() <= a.capacity,
        ensures
            final(self).wf(),
            final(self)@ == (PartView {
                arena: match old(self)@.arena {
                    Some(a) => Some(a.after_sweep(crate::arena::spans(old(holes)@))),
                    None => None,
                },
                ..old(self)@
            }),
    {
        match &mut self.arena {
            Some(a) => a.finish_sweep(holes),
            None => {},
        }
    }
}

} // verus!
