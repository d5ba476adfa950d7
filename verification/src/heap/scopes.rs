//! Scopes of a heap.

use vstd::prelude::*;

use crate::heap::GcHeap;
use crate::helpers::GcError;
use crate::lemmas::lemma_push_members;
use crate::model::{is_place, place, HeapView, ScopeView, StackView};
use crate::node::{GcNodeFlag, GcPartitionId, GcPtr};
use crate::scope::{GcScopeStackId, GcScopeState, NodeCache, ScopeStack};
use crate::scoping::{
    first_idle, lemma_first_idle, lemma_scope_added_wf, lemma_scope_cleared_wf,
    lemma_scope_moved_wf, lemma_scope_removed_wf, lemma_stacks_wf,
};
use crate::trace::{GcNode, GcRef};

verus! {

/// Names a scope of a heap: the stack it is on and its position there.
#[derive(Debug, Clone, Copy, PartialEq, Eq, Structural)]
pub struct GcScope {
    pub stack_id: GcScopeStackId,
    pub index: u8,
}

impl GcScope {
    /// The stack, as a position.
    pub open spec fn s(self) -> int {
        self.stack_id.0 as int
    }

    /// The position on the stack.
    pub open spec fn d(self) -> int {
        self.index as int
    }

    /// The heap has this scope.
    pub open spec fn of<T>(self, v: HeapView<T>) -> bool {
        v.has_scope(self.s(), self.d())
    }

    /// The scope is the innermost one of its stack.
    pub open spec fn innermost<T>(self, v: HeapView<T>) -> bool {
        self.of(v) && self.d() == v.stacks[self.s()].scopes.len() - 1
    }
}

/// The heap while scope marks are cleared.
proof fn lemma_unguarded_push<T>(v: HeapView<T>, list: Seq<GcPtr>, p: GcPtr)
    requires
        v.live(p),
    ensures
        v.unguarded(list.push(p)) == v.unguarded(list).with_local(p, false),
{
    lemma_push_members(list, p);
    assert(v.unguarded(list.push(p)).nodes =~= v.unguarded(list).with_local(p, false).nodes);
}

impl<T> GcHeap<T> {
    /// Acquires a scope stack for a partition: the first one that is idle, or else a new one.
    pub fn acquire_scope_stack(&mut self, par: GcPartitionId) -> (r: GcScopeStackId)
        requires
            old(self).wf(),
            first_idle(old(self)@.stacks) < 65536,
        ensures
            final(self).wf(),
            r.0 == first_idle(old(self)@.stacks),
            final(self)@ == (HeapView {
                stacks: if r.0 < old(self)@.stacks.len() {
                    old(self)@.stacks.update(
                        r.0 as int,
                        StackView { partition: Some(par), ..old(self)@.stacks[r.0 as int] },
                    )
                } else {
                    old(self)@.stacks.push(
                        StackView { partition: Some(par), scopes: Seq::empty() },
                    )
                },
                ..old(self)@
            }),
    {
        let ghost v = self@;
        let n: usize = self.scope_stacks.len();
        let mut i: usize = 0;
        while i < n && self.scope_stacks[i].partition.is_some()
            invariant
                i <= n,
                n == self.scope_stacks@.len(),
                *self == *old(self),
                v == self@,
                forall|j: int| 0 <= j < i ==> (#[trigger] v.stacks[j]).partition is Some,
            decreases n - i,
        {
            assert(v.stacks[i as int] == self.scope_stacks@[i as int]@);
            i = i + 1;
        }
        proof {
            lemma_first_idle(v.stacks, i as int);
            if i < n {
                assert(v.stacks.skip(i as int)[0] == v.stacks[i as int]);
                assert(v.stacks[i as int] == self.scope_stacks@[i as int]@);
            } else {
                assert(v.stacks.skip(i as int).len() == 0);
            }
            assert(first_idle(v.stacks) == i);
        }
        if i < n {
            self.scope_stacks[i].partition = Some(par);
            proof {
                let stack = StackView { partition: Some(par), ..v.stacks[i as int] };
                assert(self.scope_stacks@[i as int]@ =~= stack);
                assert(self@.stacks =~= v.stacks.update(i as int, stack));
            }
        } else {
            self.scope_stacks.push(ScopeStack::new(Some(par)));
            proof {
                let stack = StackView { partition: Some(par), scopes: Seq::empty() };
                assert(self@.stacks =~= v.stacks.push(stack));
            }
        }
        proof {
            assert forall|a: int| 0 <= a < self@.stacks.len() && (
            #[trigger] self@.stacks[a]).partition is None implies self@.stacks[a].scopes.len()
                == 0 by {
                assert(v.stacks[a].partition is None ==> v.stacks[a].scopes.len() == 0);
            }
            lemma_stacks_wf(v, self@);
        }
        GcScopeStackId(i as u16)
    }

    /// Releases a scope stack without scopes, so that it can be acquired again.
    pub fn release_scope_stack(&mut self, stack_id: GcScopeStackId)
        requires
            old(self).wf(),
            stack_id.0 < old(self)@.stacks.len(),
            old(self)@.stacks[stack_id.0 as int].scopes.len() == 0,
        ensures
            final(self).wf(),
            final(self)@ == (HeapView {
                stacks: old(self)@.stacks.update(
                    stack_id.0 as int,
                    StackView { partition: None, ..old(self)@.stacks[stack_id.0 as int] },
                ),
                ..old(self)@
            }),
    {
        let ghost v = self@;
        self.scope_stacks[stack_id.0 as usize].partition = None;
        proof {
            let i = stack_id.0 as int;
            let stack = StackView { partition: None, ..v.stacks[i] };
            assert(self.scope_stacks@[i]@ =~= stack);
            assert(self@.stacks =~= v.stacks.update(i, stack));
            assert forall|a: int| 0 <= a < self@.stacks.len() && (
            #[trigger] self@.stacks[a]).partition is None implies self@.stacks[a].scopes.len()
                == 0 by {
                assert(v.stacks[a].partition is None ==> v.stacks[a].scopes.len() == 0);
            }
            lemma_stacks_wf(v, self@);
        }
    }

    /// No stack has more than 255 scopes.
    pub proof fn lemma_depth_bound(&self, s: int)
        requires
            self.wf(),
            0 <= s < self@.stacks.len(),
        ensures
            self@.stacks[s].scopes.len() <= 255,
    {
        let list = self.scope_stacks@[s].list@;
        if list.len() > 255 {
            assert(self.scope_stacks@[s].list@[255].spec_depth() == 256);
        }
    }

    /// Number of scope stacks, idle ones included.
    pub fn scope_stack_count(&self) -> (r: usize)
        ensures
            r == self@.stacks.len(),
    {
        self.scope_stacks.len()
    }

    /// Tells whether a stack is there and acquired.
    pub fn is_scope_stack_acquired(&self, stack_id: GcScopeStackId) -> (r: bool)
        ensures
            r == (stack_id.0 < self@.stacks.len() && self@.stacks[stack_id.0 as int].partition
                is Some),
    {
        let i: usize = stack_id.0 as usize;
        i < self.scope_stacks.len() && self.scope_stacks[i].partition.is_some()
    }

    /// Number of scopes on a stack.
    #[inline(always)]
    pub fn scope_max_depth(&self, stack_id: GcScopeStackId) -> (r: u8)
        requires
            self.wf(),
            stack_id.0 < self@.stacks.len(),
        ensures
            r == self@.stacks[stack_id.0 as int].scopes.len(),
    {
        proof {
            self.lemma_depth_bound(stack_id.0 as int);
        }
        self.scope_stacks[stack_id.0 as usize].list.len() as u8
    }

    /// The scope at a depth of a stack, counted from one; `None` for depth zero and beyond the
    /// innermost scope.
    pub fn scope(&self, stack_id: GcScopeStackId, depth: u8) -> (r: Option<&GcScopeState>)
        requires
            self.wf(),
            stack_id.0 < self@.stacks.len(),
        ensures
            r is Some <==> 0 < depth <= self@.stacks[stack_id.0 as int].scopes.len(),
            r matches Some(st) ==> st@ == self@.stacks[stack_id.0 as int].scopes[depth - 1]
                && st.spec_stack_id() == stack_id && st.spec_depth() == depth,
    {
        let list = &self.scope_stacks[stack_id.0 as usize].list;
        if depth > 0 && (depth as usize) <= list.len() {
            assert(self.scope_stacks@[stack_id.0 as int].list@[depth - 1].spec_depth() == depth);
            Some(&list[depth as usize - 1])
        } else {
            None
        }
    }

    /// The innermost scope of a stack.
    #[inline]
    pub fn current_scope(&self, stack_id: GcScopeStackId) -> (r: Option<&GcScopeState>)
        requires
            self.wf(),
            stack_id.0 < self@.stacks.len(),
        ensures
            r is Some <==> self@.stacks[stack_id.0 as int].scopes.len() > 0,
            r matches Some(st) ==> st@ == self@.stacks[stack_id.0 as int].scopes.last()
                && st.spec_stack_id() == stack_id && st.spec_depth()
                == self@.stacks[stack_id.0 as int].scopes.len(),
    {
        let depth: u8 = self.scope_max_depth(stack_id);
        self.scope(stack_id, depth)
    }

    /// Opens a scope on an acquired stack.
    pub fn new_scope(&mut self, stack_id: GcScopeStackId) -> (r: GcScope)
        requires
            old(self).wf(),
            stack_id.0 < old(self)@.stacks.len(),
            old(self)@.stacks[stack_id.0 as int].partition is Some,
            old(self)@.stacks[stack_id.0 as int].scopes.len() < 255,
        ensures
            final(self).wf(),
            r.stack_id == stack_id,
            r.index == old(self)@.stacks[stack_id.0 as int].scopes.len(),
            final(self)@ == old(self)@.scope_opened(stack_id.0 as int),
    {
        let ghost v = self@;
        let ghost s = stack_id.0 as int;
        let i: usize = stack_id.0 as usize;
        let index: u8 = self.scope_stacks[i].list.len() as u8;
        let partition: GcPartitionId = match self.scope_stacks[i].partition {
            Some(p) => p,
            None => GcPartitionId(0),
        };
        let state: GcScopeState = GcScopeState::new(stack_id, partition, index + 1);
        self.scope_stacks[i].list.push(state);
        proof {
            let stack = StackView {
                scopes: v.stacks[s].scopes.push(
                    ScopeView {
                        partition: v.stacks[s].partition.unwrap(),
                        nodes: Seq::empty(),
                    },
                ),
                ..v.stacks[s]
            };
            assert(self.scope_stacks@[s]@ =~= stack);
            assert(self@.stacks =~= v.stacks.update(s, stack));
            assert forall|a: int| 0 <= a < self@.stacks.len() && (
            #[trigger] self@.stacks[a]).partition is None implies self@.stacks[a].scopes.len()
                == 0 by {
                assert(v.stacks[a].partition is None ==> v.stacks[a].scopes.len() == 0);
            }
            lemma_stacks_wf(v, self@);
        }
        GcScope { stack_id, index }
    }

    /// Takes all nodes out of a scope; they are not local any more.
    pub(crate) fn clear_scope(&mut self, scope: GcScope)
        requires
            old(self).wf(),
            scope.of(old(self)@),
        ensures
            final(self).wf(),
            final(self)@ == old(self)@.scope_cleared(scope.s(), scope.d()),
    {
        let ghost v = self@;
        let ghost s = scope.s();
        let ghost d = scope.d();
        let ghost list = v.scope_nodes(s, d);
        let cache: NodeCache = self.scope_stacks[scope.stack_id.0 as usize].list[scope.index as usize].take();
        let ghost w = v.with_scope(s, d, Seq::empty());
        proof {
            assert(self.scope_stacks@[s]@.scopes =~= w.stacks[s].scopes);
            assert(self@.stacks =~= w.stacks);
            assert(self@ =~= w);
            assert(w.unguarded(list.take(0)).nodes =~= w.nodes);
            assert(w.unguarded(list.take(0)) =~= w);
        }
        let n: usize = cache.len();
        let mut i: usize = 0;
        while i < n
            invariant
                n == list.len(),
                i <= n,
                cache@ == list,
                list == v.scope_nodes(s, d),
                v.wf(),
                v.has_scope(s, d),
                w == v.with_scope(s, d, Seq::empty()),
                self.inv(),
                self@ == w.unguarded(list.take(i as int)),
            decreases n - i,
        {
            let p = cache.get(i);
            proof {
                assert(is_place(v.stacks, s, d, i as int));
                assert(place(v.stacks, s, d, i as int) == p);
                assert(v.live(p));
                assert(list.take(i + 1) =~= list.take(i as int).push(p));
                lemma_unguarded_push(w, list.take(i as int), p);
            }
            self.set_flag(p, GcNodeFlag::Local, false);
            assert(self@ =~= w.unguarded(list.take(i + 1)));
            i = i + 1;
        }
        proof {
            assert(list.take(n as int) =~= list);
            assert(self@ =~= v.scope_cleared(s, d));
            lemma_scope_cleared_wf(v, s, d);
        }
    }

    /// Closes the innermost scope of a stack: its nodes are not local any more. Returns false if
    /// there was none.
    pub fn pop_scope(&mut self, stack_id: GcScopeStackId) -> (r: bool)
        requires
            old(self).wf(),
            stack_id.0 < old(self)@.stacks.len(),
        ensures
            final(self).wf(),
            r == (old(self)@.stacks[stack_id.0 as int].scopes.len() > 0),
            r ==> final(self)@ == old(self)@.scope_popped(stack_id.0 as int),
            !r ==> final(self)@ == old(self)@,
    {
        let depth: u8 = self.scope_max_depth(stack_id);
        if depth == 0 {
            return false;
        }
        let ghost v = self@;
        let ghost s = stack_id.0 as int;
        let scope = GcScope { stack_id, index: depth - 1 };
        self.clear_scope(scope);
        let ghost w = self@;
        assert(w.stacks.len() == v.stacks.len());
        self.scope_stacks[stack_id.0 as usize].list.pop();
        proof {
            let end = v.scope_popped(s);
            assert(self.scope_stacks@[s]@ =~= end.stacks[s]);
            assert(self@.stacks =~= end.stacks);
            assert(self@ =~= end);
            assert forall|a: int, b: int, c: int| #[trigger]
                is_place(end.stacks, a, b, c) implies is_place(w.stacks, a, b, c) && place(
                end.stacks,
                a,
                b,
                c,
            ) == place(w.stacks, a, b, c) by {}
            assert forall|a: int| 0 <= a < end.stacks.len() && (
            #[trigger] end.stacks[a]).partition is None implies end.stacks[a].scopes.len()
                == 0 by {
                assert(v.stacks[a].partition is None ==> v.stacks[a].scopes.len() == 0);
            }
            lemma_stacks_wf(w, end);
        }
        true
    }

    /// Closes a scope, which has to be the innermost one of its stack.
    pub fn close_scope(&mut self, scope: GcScope)
        requires
            old(self).wf(),
            scope.innermost(old(self)@),
        ensures
            final(self).wf(),
            final(self)@ == old(self)@.scope_popped(scope.s()),
    {
        self.pop_scope(scope.stack_id);
    }

    /// Adds a node that is neither root nor local to a scope.
    pub(crate) fn scope_add_node(&mut self, scope: GcScope, node: GcPtr)
        requires
            old(self).wf(),
            scope.of(old(self)@),
            old(self)@.live(node),
            !old(self)@.head(node).local,
            old(self)@.scope_nodes(scope.s(), scope.d()).len() < usize::MAX / 64,
        ensures
            final(self).wf(),
            final(self)@ == old(self)@.scope_added(scope.s(), scope.d(), node),
    {
        let ghost v = self@;
        let ghost s = scope.s();
        let ghost d = scope.d();
        let i: usize = scope.stack_id.0 as usize;
        let j: usize = scope.index as usize;
        let pid: GcPartitionId = self.scope_stacks[i].list[j].partition_id();
        let marking: bool = (pid.0 as usize) < self.partitions.len()
            && self.partitions[pid.0 as usize].is_marking();
        self.scope_stacks[i].list[j].push(node);
        let ghost w = v.with_scope(s, d, v.scope_nodes(s, d).push(node));
        proof {
            assert(self.scope_stacks@[s]@.scopes =~= w.stacks[s].scopes);
            assert(self@.stacks =~= w.stacks);
            assert(self@ =~= w);
        }
        self.set_flag(node, GcNodeFlag::Local, true);
        if marking {
            self.gray_submit(pid, node);
        }
        proof {
            assert(self@ =~= v.scope_added(s, d, node));
            lemma_scope_added_wf(v, s, d, node);
        }
    }

    /// Keeps a node from being collected. A root or local node is safe already; any other is
    /// added to the innermost scope of the stack. Returns false if there is no such scope.
    pub fn protect_node(&mut self, scope_stack_id: GcScopeStackId, node: GcPtr) -> (r: bool)
        requires
            old(self).wf(),
            scope_stack_id.0 < old(self)@.stacks.len(),
            old(self)@.live(node),
            old(self)@.stacks[scope_stack_id.0 as int].scopes.len() > 0 ==> old(
                self,
            )@.stacks[scope_stack_id.0 as int].scopes.last().nodes.len() < usize::MAX / 64,
        ensures
            final(self).wf(),
            r == (old(self)@.pinned(node) || old(self)@.stacks[scope_stack_id.0 as int].scopes.len()
                > 0),
            final(self)@ == old(self)@.protected(scope_stack_id.0 as int, node),
    {
        if self.table.head(node).is_root_or_local() {
            return true;
        }
        let depth: u8 = self.scope_max_depth(scope_stack_id);
        if depth == 0 {
            return false;
        }
        self.scope_add_node(GcScope { stack_id: scope_stack_id, index: depth - 1 }, node);
        true
    }

    /// Keeps nodes from being collected, as `protect_node` does with each of them in turn.
    pub fn protect_nodes(&mut self, scope_stack_id: GcScopeStackId, nodes: &Vec<GcPtr>)
        requires
            old(self).wf(),
            scope_stack_id.0 < old(self)@.stacks.len(),
            forall|k: int| 0 <= k < nodes@.len() ==> old(self)@.live(#[trigger] nodes@[k]),
            old(self)@.stacks[scope_stack_id.0 as int].scopes.len() > 0 ==> old(
                self,
            )@.stacks[scope_stack_id.0 as int].scopes.last().nodes.len() + nodes@.len()
                < usize::MAX / 64,
        ensures
            final(self).wf(),
            final(self)@ == old(self)@.protected_all(scope_stack_id.0 as int, nodes@),
    {
        let ghost s = scope_stack_id.0 as int;
        let ghost v = self@;
        let mut i: usize = 0;
        assert(nodes@.take(0) =~= Seq::<GcPtr>::empty());
        while i < nodes.len()
            invariant
                i <= nodes@.len(),
                s == scope_stack_id.0,
                self.wf(),
                0 <= s < v.stacks.len(),
                self@.stacks.len() == v.stacks.len(),
                self@.nodes.dom() == v.nodes.dom(),
                forall|k: int| 0 <= k < nodes@.len() ==> v.live(#[trigger] nodes@[k]),
                self@.stacks[s].scopes.len() == v.stacks[s].scopes.len(),
                v.stacks[s].scopes.len() > 0 ==> v.stacks[s].scopes.last().nodes.len()
                    + nodes@.len() < usize::MAX / 64,
                v.stacks[s].scopes.len() > 0 ==> self@.stacks[s].scopes.last().nodes.len()
                    <= v.stacks[s].scopes.last().nodes.len() + i,
                self@ == v.protected_all(s, nodes@.take(i as int)),
            decreases nodes@.len() - i,
        {
            let ghost before = self@;
            assert(v.live(nodes@[i as int]));
            self.protect_node(scope_stack_id, nodes[i]);
            proof {
                assert(nodes@.take(i + 1).drop_last() =~= nodes@.take(i as int));
                assert(nodes@.take(i + 1).last() == nodes@[i as int]);
                assert(self@.nodes.dom() =~= before.nodes.dom());
            }
            i = i + 1;
        }
        assert(nodes@.take(i as int) =~= nodes@);
    }
}

impl<T> HeapView<T> {
    /// The heap after a node was protected by the innermost scope of stack `s`.
    pub open spec fn protected(self, s: int, p: GcPtr) -> HeapView<T> {
        if self.pinned(p) || self.stacks[s].scopes.len() == 0 {
            self
        } else {
            self.scope_added(s, self.stacks[s].scopes.len() - 1, p)
        }
    }

    /// The heap after nodes were protected, one after the other.
    pub open spec fn protected_all(self, s: int, list: Seq<GcPtr>) -> HeapView<T>
        decreases list.len(),
    {
        if list.len() == 0 {
            self
        } else {
            self.protected_all(s, list.drop_last()).protected(s, list.last())
        }
    }
}

impl GcScope {
    /// The state of the scope.
    pub fn state<'a, T>(&self, heap: &'a GcHeap<T>) -> (r: &'a GcScopeState)
        requires
            heap.wf(),
            self.of(heap@),
        ensures
            r@ == heap@.stacks[self.s()].scopes[self.d()],
            r.spec_stack_id() == self.stack_id,
            r.spec_depth() == self.index + 1,
    {
        assert(heap.scope_stacks@[self.s()].list@[self.d()].spec_depth() == self.index + 1);
        &heap.scope_stacks[self.stack_id.0 as usize].list[self.index as usize]
    }

    /// The enclosing scope and its depth; `None` for the outermost scope of a stack.
    pub fn parent<T>(&self, heap: &GcHeap<T>) -> (r: Option<(GcScope, u8)>)
        requires
            self.of(heap@),
        ensures
            r is Some <==> self.index > 0,
            r matches Some((p, level)) ==> {
                &&& p.stack_id == self.stack_id
                &&& p.index == self.index - 1
                &&& level == self.index
                &&& p.of(heap@)
            },
    {
        if self.index > 0 {
            Some((GcScope { stack_id: self.stack_id, index: self.index - 1 }, self.index))
        } else {
            None
        }
    }

    /// Tells whether the scope holds a node.
    pub fn contains<T>(&self, heap: &GcHeap<T>, node: GcPtr) -> (r: bool)
        requires
            heap.wf(),
            self.of(heap@),
        ensures
            r == heap@.scope_nodes(self.s(), self.d()).contains(node),
    {
        self.state(heap).contains(node)
    }

    /// Number of nodes that the scope holds.
    pub fn count<T>(&self, heap: &GcHeap<T>) -> (r: usize)
        requires
            heap.wf(),
            self.of(heap@),
        ensures
            r == heap@.scope_nodes(self.s(), self.d()).len(),
    {
        self.state(heap).count()
    }

    /// Allocates a node in the partition of the scope, held by the scope. An error hands the
    /// payload back.
    pub fn alloc_local<T: GcNode>(&self, heap: &mut GcHeap<T>, payload: T) -> (r: Result<
        GcRef<T>,
        (GcError, T),
    >)
        requires
            old(heap).wf(),
            self.of(old(heap)@),
            old(heap)@.alloc_fits(
                old(heap)@.stacks[self.s()].scopes[self.d()].partition,
                payload.spec_type_id(),
            ),
            old(heap)@.scope_nodes(self.s(), self.d()).len() < usize::MAX / 64,
        ensures
            final(heap).wf(),
            ({
                let pid = old(heap)@.stacks[self.s()].scopes[self.d()].partition;
                let dtype = payload.spec_type_id();
                match r {
                    Ok(g) => {
                        &&& old(heap)@.alloc_error(pid, dtype) is None
                        &&& !old(heap)@.live(g.ptr())
                        &&& g.ptr().heap == old(heap)@.id
                        &&& final(heap)@ == old(heap)@.allocated(
                            g.ptr(),
                            pid,
                            dtype,
                            payload,
                            false,
                        ).attached(pid.0 as int, g.ptr()).scope_added(
                            self.s(),
                            self.d(),
                            g.ptr(),
                        )
                    },
                    Err((e, back)) => {
                        &&& old(heap)@.alloc_error(pid, dtype) == Some(e)
                        &&& back == payload
                        &&& final(heap)@ == old(heap)@
                    },
                }
            }),
    {
        let pid: GcPartitionId = self.state(heap).partition_id();
        match heap.alloc_raw(pid, payload) {
            Ok(g) => {
                heap.scope_add_node(*self, g.node_ptr());
                Ok(g)
            },
            Err(e) => Err(e),
        }
    }

    /// Adds a node to the scope, unless it is a root or local. Tells whether it was added.
    pub fn add_non_local<T>(&self, heap: &mut GcHeap<T>, node: GcPtr) -> (r: bool)
        requires
            old(heap).wf(),
            self.of(old(heap)@),
            old(heap)@.live(node),
            old(heap)@.scope_nodes(self.s(), self.d()).len() < usize::MAX / 64,
        ensures
            final(heap).wf(),
            r == !old(heap)@.pinned(node),
            r ==> final(heap)@ == old(heap)@.scope_added(self.s(), self.d(), node),
            !r ==> final(heap)@ == old(heap)@,
    {
        if heap.head(node).is_root_or_local() {
            false
        } else {
            heap.scope_add_node(*self, node);
            true
        }
    }

    /// Removes a node from the scope; it is not local any more. Returns false if the scope does
    /// not hold it.
    pub fn remove_node<T>(&self, heap: &mut GcHeap<T>, node: GcPtr) -> (r: bool)
        requires
            old(heap).wf(),
            self.of(old(heap)@),
        ensures
            final(heap).wf(),
            r == old(heap)@.scope_nodes(self.s(), self.d()).contains(node),
            !r ==> final(heap)@ == old(heap)@,
            r ==> exists|i: int|
                {
                    &&& 0 <= i < old(heap)@.scope_nodes(self.s(), self.d()).len()
                    &&& old(heap)@.scope_nodes(self.s(), self.d())[i] == node
                    &&& final(heap)@ == #[trigger] old(heap)@.scope_removed(self.s(), self.d(), i)
                },
    {
        let ghost v = heap@;
        let ghost s = self.s();
        let ghost d = self.d();
        match self.state(heap).position(node) {
            Some(pos) => {
                heap.scope_stacks[self.stack_id.0 as usize].list[self.index as usize].swap_remove(
                    pos,
                );
                proof {
                    let w = v.with_scope(s, d, v.scope_without(s, d, pos as int));
                    assert(heap.scope_stacks@[s]@.scopes =~= w.stacks[s].scopes);
                    assert(heap@.stacks =~= w.stacks);
                    assert(heap@ =~= w);
                    assert(is_place(v.stacks, s, d, pos as int));
                    assert(v.live(place(v.stacks, s, d, pos as int)));
                }
                heap.set_flag(node, GcNodeFlag::Local, false);
                proof {
                    assert(heap@ =~= v.scope_removed(s, d, pos as int));
                    lemma_scope_removed_wf(v, s, d, pos as int);
                }
                true
            },
            None => false,
        }
    }

    /// Hands a node on to another scope; it stays local. Returns false if this scope does not
    /// hold it.
    pub fn promote_node_to<T>(&self, heap: &mut GcHeap<T>, node: GcPtr, target: &GcScope) -> (r:
        bool)
        requires
            old(heap).wf(),
            self.of(old(heap)@),
            target.of(old(heap)@),
            old(heap)@.scope_nodes(target.s(), target.d()).len() < usize::MAX / 64,
        ensures
            final(heap).wf(),
            r == old(heap)@.scope_nodes(self.s(), self.d()).contains(node),
            !r ==> final(heap)@ == old(heap)@,
            r ==> exists|i: int|
                {
                    &&& 0 <= i < old(heap)@.scope_nodes(self.s(), self.d()).len()
                    &&& old(heap)@.scope_nodes(self.s(), self.d())[i] == node
                    &&& final(heap)@ == #[trigger] old(heap)@.scope_moved(
                        self.s(),
                        self.d(),
                        i,
                        target.s(),
                        target.d(),
                    )
                },
    {
        let ghost v = heap@;
        let ghost s = self.s();
        let ghost d = self.d();
        match self.state(heap).position(node) {
            Some(pos) => {
                heap.scope_stacks[self.stack_id.0 as usize].list[self.index as usize].swap_remove(
                    pos,
                );
                let ghost w = v.with_scope(s, d, v.scope_without(s, d, pos as int));
                proof {
                    assert(heap.scope_stacks@[s]@.scopes =~= w.stacks[s].scopes);
                    assert(heap@.stacks =~= w.stacks);
                    assert(heap@ =~= w);
                }
                heap.scope_stacks[target.stack_id.0 as usize].list[target.index as usize].push(
                    node,
                );
                proof {
                    let x = v.scope_moved(s, d, pos as int, target.s(), target.d());
                    assert(heap.scope_stacks@[target.s()]@.scopes
                        =~= x.stacks[target.s()].scopes);
                    assert(heap@.stacks =~= x.stacks);
                    assert(heap@ =~= x);
                    lemma_scope_moved_wf(v, s, d, pos as int, target.s(), target.d());
                }
                true
            },
            None => false,
        }
    }

    /// Takes all nodes out of the scope; they are not local any more.
    pub fn clear<T>(&self, heap: &mut GcHeap<T>)
        requires
            old(heap).wf(),
            self.of(old(heap)@),
        ensures
            final(heap).wf(),
            final(heap)@ == old(heap)@.scope_cleared(self.s(), self.d()),
    {
        heap.clear_scope(*self);
    }
}

/// Runs a function inside of a scope.
fn run_scoped<T, R, F: FnOnce(&mut GcHeap<T>, GcScope) -> R>(
    heap: &mut GcHeap<T>,
    scope: GcScope,
    f: F,
) -> (r: R)
    requires
        old(heap).wf(),
        scope.innermost(old(heap)@),
        forall|h: &mut GcHeap<T>, scope: GcScope|
            h.wf() && scope.innermost(h@) ==> #[trigger] call_requires(f, (h, scope)),
        forall|h: &mut GcHeap<T>, scope: GcScope, x: R|
            h.wf() && scope.innermost(h@) && #[trigger] call_ensures(f, (h, scope), x) ==> {
                &&& final(h).wf()
                &&& scope.innermost(final(h)@)
            },
    ensures
        final(heap).wf(),
        scope.innermost(final(heap)@),
        exists|h: &mut GcHeap<T>|
            *h == *old(heap) && *final(h) == *final(heap) && #[trigger] call_ensures(
                f,
                (h, scope),
                r,
            ),
{
    f(heap, scope)
}

impl<T> GcHeap<T> {
    /// Runs a function inside of the innermost scope of a stack and returns what it returned;
    /// `None`, without running it, if the stack has no scope. The function has to leave the
    /// scope the innermost one.
    pub fn with_current_scope_of<R, F: FnOnce(&mut GcHeap<T>, GcScope) -> R>(
        &mut self,
        stack_id: GcScopeStackId,
        f: F,
    ) -> (r: Option<R>)
        requires
            old(self).wf(),
            stack_id.0 < old(self)@.stacks.len(),
            forall|h: &mut GcHeap<T>, scope: GcScope|
                h.wf() && scope.innermost(h@) ==> #[trigger] call_requires(f, (h, scope)),
            forall|h: &mut GcHeap<T>, scope: GcScope, x: R|
                h.wf() && scope.innermost(h@) && #[trigger] call_ensures(f, (h, scope), x) ==> {
                    &&& final(h).wf()
                    &&& scope.innermost(final(h)@)
                },
        ensures
            final(self).wf(),
            r is Some <==> old(self)@.stacks[stack_id.0 as int].scopes.len() > 0,
            r is None ==> final(self)@ == old(self)@,
            r matches Some(x) ==> exists|h: &mut GcHeap<T>, scope: GcScope|
                {
                    &&& h@ == old(self)@
                    &&& scope.stack_id == stack_id
                    &&& scope.innermost(h@)
                    &&& #[trigger] call_ensures(f, (h, scope), x)
                    &&& final(self)@ == final(h)@
                },
    {
        let depth: u8 = self.scope_max_depth(stack_id);
        if depth == 0 {
            return None;
        }
        let scope = GcScope { stack_id, index: depth - 1 };
        let ghost before = *self;
        let r: Option<R> = Some(run_scoped(self, scope, f));
        proof {
            let h = choose|h: &mut GcHeap<T>|
                *h == before && *final(h) == *self && #[trigger] call_ensures(
                    f,
                    (h, scope),
                    r.unwrap(),
                );
            assert(call_ensures(f, (h, scope), r.unwrap()));
            assert(h@ == old(self)@ && self@ == final(h)@);
        }
        r
    }

    /// Runs a function inside of a new scope, closes the scope and returns what the function
    /// returned. The function has to leave the scope the innermost one.
    pub fn with_new_scope<R, F: FnOnce(&mut GcHeap<T>, GcScope) -> R>(
        &mut self,
        stack_id: GcScopeStackId,
        f: F,
    ) -> (r: R)
        requires
            old(self).wf(),
            stack_id.0 < old(self)@.stacks.len(),
            old(self)@.stacks[stack_id.0 as int].partition is Some,
            old(self)@.stacks[stack_id.0 as int].scopes.len() < 255,
            forall|h: &mut GcHeap<T>, scope: GcScope|
                h.wf() && scope.innermost(h@) ==> #[trigger] call_requires(f, (h, scope)),
            forall|h: &mut GcHeap<T>, scope: GcScope, x: R|
                h.wf() && scope.innermost(h@) && #[trigger] call_ensures(f, (h, scope), x) ==> {
                    &&& final(h).wf()
                    &&& scope.innermost(final(h)@)
                },
        ensures
            final(self).wf(),
            exists|h: &mut GcHeap<T>, scope: GcScope|
                {
                    &&& h@ == old(self)@.scope_opened(stack_id.0 as int)
                    &&& scope.stack_id == stack_id
                    &&& scope.innermost(h@)
                    &&& #[trigger] call_ensures(f, (h, scope), r)
                    &&& final(self)@ == final(h)@.scope_popped(stack_id.0 as int)
                },
    {
        let scope: GcScope = self.new_scope(stack_id);
        let r: R = run_scoped(self, scope, f);
        self.close_scope(scope);
        r
    }
}

} // verus!
