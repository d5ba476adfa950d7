//! Scopes and scope stacks.

use smallvec::SmallVec;
use vstd::prelude::*;

use crate::model::{ScopeView, StackView};
use crate::node::{GcPartitionId, GcPtr};

verus! {

/// The nodes held by a scope. Up to eight of them need no allocation.
#[verifier::external_body]
pub struct NodeCache {
    items: SmallVec<[GcPtr; 8]>,
}

/// The nodes in a cache, in the order of its slots.
pub uninterp spec fn cached(cache: NodeCache) -> Seq<GcPtr>;

impl View for NodeCache {
    type V = Seq<GcPtr>;

    open spec fn view(&self) -> Seq<GcPtr> {
        cached(*self)
    }
}

impl NodeCache {
    /// Calls `SmallVec::new`, which makes a vector without items.
    #[verifier::external_body]
    pub(crate) fn new() -> (r: Self)
        ensures
            cached(r) == Seq::<GcPtr>::empty(),
    {
        NodeCache { items: SmallVec::new() }
    }

    /// Calls `SmallVec::push`, which adds the item behind the others. It panics if the grown
    /// vector would not fit in the address space.
    #[verifier::external_body]
    pub(crate) fn push(&mut self, node: GcPtr)
        requires
            cached(*old(self)).len() < usize::MAX / 64,
        ensures
            cached(*final(self)) == cached(*old(self)).push(node),
    {
        self.items.push(node)
    }

    /// Calls `SmallVec::len`, which gives the number of items.
    #[verifier::external_body]
    pub(crate) fn len(&self) -> (r: usize)
        ensures
            r == cached(*self).len(),
    {
        self.items.len()
    }

    /// Indexes the slice that `SmallVec` dereferences to, which holds the items in order.
    #[verifier::external_body]
    pub(crate) fn get(&self, i: usize) -> (r: GcPtr)
        requires
            i < cached(*self).len(),
        ensures
            r == cached(*self)[i as int],
    {
        self.items[i]
    }

    /// Calls `SmallVec::swap_remove`, which takes an item out and puts the last one in its
    /// place.
    #[verifier::external_body]
    pub(crate) fn swap_remove(&mut self, i: usize) -> (r: GcPtr)
        requires
            i < cached(*old(self)).len(),
        ensures
            r == cached(*old(self))[i as int],
            cached(*final(self)) == cached(*old(self)).update(
                i as int,
                cached(*old(self)).last(),
            ).drop_last(),
    {
        self.items.swap_remove(i)
    }

    /// Calls `std::mem::take` on the `SmallVec`, which leaves its default, a vector without
    /// items, behind and hands the items out.
    #[verifier::external_body]
    pub(crate) fn take(&mut self) -> (r: Self)
        ensures
            cached(r) == cached(*old(self)),
            cached(*final(self)) == Seq::<GcPtr>::empty(),
    {
        NodeCache { items: std::mem::take(&mut self.items) }
    }
}

/// Id of a scope stack: its position in the heap's table of scope stacks.
#[derive(Debug, Clone, Copy, PartialEq, Eq, Structural)]
pub struct GcScopeStackId(pub u16);

/// A scope: it keeps the nodes it holds from being collected.
pub struct GcScopeState {
    partition_id: GcPartitionId,
    stack_id: GcScopeStackId,
    depth: u8,
    cache: NodeCache,
}

impl View for GcScopeState {
    type V = ScopeView;

    closed spec fn view(&self) -> ScopeView {
        ScopeView { partition: self.partition_id, nodes: self.cache@ }
    }
}

impl GcScopeState {
    /// Id of the stack that the scope is on.
    pub closed spec fn spec_stack_id(&self) -> GcScopeStackId {
        self.stack_id
    }

    /// Position of the scope on its stack, counted from one.
    pub closed spec fn spec_depth(&self) -> u8 {
        self.depth
    }

    /// A scope without nodes.
    pub fn new(stack_id: GcScopeStackId, partition_id: GcPartitionId, depth: u8) -> (r: Self)
        ensures
            r@ == (ScopeView { partition: partition_id, nodes: Seq::empty() }),
            r.spec_stack_id() == stack_id,
            r.spec_depth() == depth,
    {
        GcScopeState { partition_id, stack_id, depth, cache: NodeCache::new() }
    }

    /// The partition that the scope allocates in.
    #[inline(always)]
    pub fn partition_id(&self) -> (r: GcPartitionId)
        ensures
            r == self@.partition,
    {
        self.partition_id
    }

    /// The stack that the scope is on.
    #[inline(always)]
    pub fn stack_id(&self) -> (r: GcScopeStackId)
        ensures
            r == self.spec_stack_id(),
    {
        self.stack_id
    }

    /// Position of the scope on its stack, counted from one.
    #[inline(always)]
    pub fn depth(&self) -> (r: u8)
        ensures
            r == self.spec_depth(),
    {
        self.depth
    }

    /// Number of nodes held.
    pub fn count(&self) -> (r: usize)
        ensures
            r == self@.nodes.len(),
    {
        self.cache.len()
    }

    /// The node at a position.
    pub(crate) fn node_at(&self, i: usize) -> (r: GcPtr)
        requires
            i < self@.nodes.len(),
        ensures
            r == self@.nodes[i as int],
    {
        self.cache.get(i)
    }

    /// First position of the node; `None` if the scope does not hold it.
    pub(crate) fn position(&self, node: GcPtr) -> (r: Option<usize>)
        ensures
            r is Some <==> self@.nodes.contains(node),
            r matches Some(i) ==> i < self@.nodes.len() && self@.nodes[i as int] == node && forall|
                k: int,
            |
                0 <= k < i ==> self@.nodes[k] != node,
    {
        let n: usize = self.cache.len();
        let mut i: usize = 0;
        while i < n
            invariant
                i <= n,
                n == self@.nodes.len(),
                forall|k: int| 0 <= k < i ==> self@.nodes[k] != node,
            decreases n - i,
        {
            if self.cache.get(i) == node {
                assert(self@.nodes[i as int] == node);
                return Some(i);
            }
            i = i + 1;
        }
        None
    }

    /// Tells whether the scope holds the node.
    pub fn contains(&self, node: GcPtr) -> (r: bool)
        ensures
            r == self@.nodes.contains(node),
    {
        match self.position(node) {
            Some(_) => true,
            None => false,
        }
    }

    pub(crate) fn push(&mut self, node: GcPtr)
        requires
            old(self)@.nodes.len() < usize::MAX / 64,
        ensures
            final(self)@ == (ScopeView { nodes: old(self)@.nodes.push(node), ..old(self)@ }),
            final(self).spec_stack_id() == old(self).spec_stack_id(),
            final(self).spec_depth() == old(self).spec_depth(),
    {
        self.cache.push(node);
    }

    pub(crate) fn swap_remove(&mut self, i: usize)
        requires
            i < old(self)@.nodes.len(),
        ensures
            final(self)@ == (ScopeView {
                nodes: old(self)@.nodes.update(i as int, old(self)@.nodes.last()).drop_last(),
                ..old(self)@
            }),
            final(self).spec_stack_id() == old(self).spec_stack_id(),
            final(self).spec_depth() == old(self).spec_depth(),
    {
        self.cache.swap_remove(i);
    }

    /// Takes all nodes out of the scope.
    pub(crate) fn take(&mut self) -> (r: NodeCache)
        ensures
            r@ == old(self)@.nodes,
            final(self)@ == (ScopeView { nodes: Seq::empty(), ..old(self)@ }),
            final(self).spec_stack_id() == old(self).spec_stack_id(),
            final(self).spec_depth() == old(self).spec_depth(),
    {
        self.cache.take()
    }
}

/// A stack of scopes.
pub struct ScopeStack {
    pub list: Vec<GcScopeState>,
    /// The partition that the stack is acquired for; `None` while it is idle.
    pub partition: Option<GcPartitionId>,
}

impl View for ScopeStack {
    type V = StackView;

    open spec fn view(&self) -> StackView {
        StackView {
            partition: self.partition,
            scopes: Seq::new(self.list@.len(), |i: int| self.list@[i]@),
        }
    }
}

impl ScopeStack {
    /// A stack without scopes.
    pub fn new(partition: Option<GcPartitionId>) -> (r: Self)
        ensures
            r@ == (StackView { partition, scopes: Seq::empty() }),
            r.list@.len() == 0,
    {
        let r = ScopeStack { list: Vec::with_capacity(8), partition };
        assert(r@.scopes =~= Seq::<ScopeView>::empty());
        r
    }
}

} // verus!
