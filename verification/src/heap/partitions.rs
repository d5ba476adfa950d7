//! Partitions of a heap: creation, access and removal.

use vstd::prelude::*;

use crate::arena::{taken, ARENA_CAPACITY, MAX_ARENA_ALLOC};
use crate::heap::mem::lemma_part_used;
use crate::heap::scopes::GcScope;
use crate::heap::sweep::lemma_rechained_wf;
use crate::heap::GcHeap;
use crate::lemmas::{
    lemma_bytes_none, lemma_core_wf, lemma_push_members, lemma_size_push, lemma_sum_update,
};
use crate::model::{
    bytes_of, held, is_place, place, size_of_all, HeapView, PartView, ScopeView, StackView,
    WeakSlotView,
};
use crate::sweeping::{law_drop_order, lemma_disposed_push, lemma_order_same, lemma_size_same};
use crate::node::{GcHead, GcPartitionId, GcPtr, HeadView};
use crate::node_link::GcNodeLink;
use crate::partition::{fresh_part, GcPartition};
use crate::scope::GcScopeStackId;
use crate::table::NodeView;
use crate::weak_id::GcWeakRawId;

verus! {

proof fn lemma_new_part_wf<T>(v: HeapView<T>, part: PartView)
    requires
        v.wf(),
        part.nodes.len() == 0,
        part.used == 0,
    ensures
        (HeapView { parts: v.parts.push(part), ..v }).wf(),
{
    let w = HeapView { parts: v.parts.push(part), ..v };
    assert(w.parts.drop_last() =~= v.parts);
    assert(w.nodes_ok()) by {
        assert forall|p: GcPtr| #[trigger] w.live(p) implies p.heap == w.id && w.pid(p)
            < w.parts.len() && w.head(p).dtype < w.reg.infos.len() by {
            assert(v.live(p));
        }
    }
    assert(w.chains_ok()) by {
        assert forall|i: int| 0 <= i < w.parts.len() implies (
        #[trigger] w.parts[i]).nodes.no_duplicates() by {
            if i < v.parts.len() {
                assert(v.parts[i].nodes.no_duplicates());
            }
        }
        assert forall|i: int, k: int|
            0 <= i < w.parts.len() && 0 <= k < w.parts[i].nodes.len() implies w.live(
            #[trigger] w.parts[i].nodes[k],
        ) && w.pid(w.parts[i].nodes[k]) == i by {
            if i < v.parts.len() {
                assert(v.live(v.parts[i].nodes[k]) && v.pid(v.parts[i].nodes[k]) == i);
            }
        }
    }
    assert(w.weak_ok()) by {
        assert forall|p: GcPtr| #[trigger] w.live(p) && w.head(p).weak.spec_version()
            != 0 implies {
            let id = w.head(p).weak;
            &&& id.spec_index() < w.weak.len()
            &&& w.weak[id.spec_index() as int].version == id.spec_version()
            &&& w.weak[id.spec_index() as int].node == Some(p)
        } by {
            assert(v.live(p));
        }
    }
    assert(w.arenas_ok()) by {
        assert forall|p: GcPtr| #[trigger] w.live(p) implies {
            &&& w.head(p).arena <==> w.nodes[p].offset is Some
            &&& w.nodes[p].offset matches Some(o) ==> {
                &&& w.parts[w.pid(p)].arena matches Some(a)
                &&& o + taken(w.size(p)) <= a.capacity
            }
        } by {
            assert(v.live(p));
        }
    }
    assert(w.memory_ok()) by {
        assert forall|i: int| 0 <= i < w.parts.len() implies bytes_of(w.nodes, w.reg.infos, i)
            <= (#[trigger] w.parts[i]).used by {
            if i < v.parts.len() {
                assert(bytes_of(v.nodes, v.reg.infos, i) <= v.parts[i].used);
            } else {
                assert forall|p: GcPtr| #[trigger]
                    v.nodes.dom().contains(p) implies v.nodes[p].head.partition.0 != i by {
                    assert(v.live(p));
                }
                lemma_bytes_none(v.nodes, v.reg.infos, i);
            }
        }
    }
    assert(w.scopes_ok());
}

impl<T> HeapView<T> {
    /// The stack is acquired for the partition.
    pub open spec fn stack_of(self, s: int, pid: GcPartitionId) -> bool {
        self.stacks[s].partition == Some(pid)
    }

    /// One of the scopes in `which` holds the node.
    pub open spec fn held_in(self, which: spec_fn(int, int) -> bool, p: GcPtr) -> bool {
        exists|s: int, d: int, i: int|
            is_place(self.stacks, s, d, i) && #[trigger] place(self.stacks, s, d, i) == p
                && which(s, d)
    }

    /// A scope stack without the nodes of the scopes in `which`.
    pub open spec fn stack_without(self, which: spec_fn(int, int) -> bool, s: int) -> StackView {
        StackView {
            scopes: Seq::new(
                self.stacks[s].scopes.len(),
                |d: int|
                    if which(s, d) {
                        ScopeView { nodes: Seq::empty(), ..self.stacks[s].scopes[d] }
                    } else {
                        self.stacks[s].scopes[d]
                    },
            ),
            ..self.stacks[s]
        }
    }

    /// The heap after the scopes in `which` were emptied.
    pub open spec fn scopes_emptied(self, which: spec_fn(int, int) -> bool) -> HeapView<T> {
        HeapView {
            nodes: Map::new(
                |p: GcPtr| self.live(p),
                |p: GcPtr|
                    NodeView {
                        head: HeadView {
                            local: self.head(p).local && !self.held_in(which, p),
                            ..self.head(p)
                        },
                        ..self.nodes[p]
                    },
            ),
            stacks: Seq::new(self.stacks.len(), |s: int| self.stack_without(which, s)),
            ..self
        }
    }

    /// The heap after the weak references to the listed nodes became void.
    pub open spec fn weak_voided(self, list: Seq<GcPtr>) -> HeapView<T> {
        HeapView {
            nodes: Map::new(
                |p: GcPtr| self.live(p),
                |p: GcPtr|
                    if list.contains(p) {
                        NodeView {
                            head: HeadView { weak: GcWeakRawId::spec_null(), ..self.head(p) },
                            ..self.nodes[p]
                        }
                    } else {
                        self.nodes[p]
                    },
            ),
            weak: Seq::new(
                self.weak.len(),
                |k: int|
                    match self.weak[k].node {
                        Some(p) => if list.contains(p) {
                            WeakSlotView { version: self.weak[k].version, node: None }
                        } else {
                            self.weak[k]
                        },
                        None => self.weak[k],
                    },
            ),
            ..self
        }
    }

    /// The heap after a partition was finalized: the scopes on its stacks are empty, weak
    /// references to its nodes are void, and their payloads are taken out where dropping them
    /// runs code.
    pub open spec fn finalized(self, pid: GcPartitionId) -> HeapView<T> {
        let chain = self.parts[pid.0 as int].nodes;
        self.scopes_emptied(|s: int, d: int| self.stack_of(s, pid)).weak_voided(chain).emptied(
            chain,
        )
    }

    /// All nodes of the partition are in its chain, and only scopes on its stacks hold them.
    pub open spec fn part_alone(self, pid: GcPartitionId) -> bool {
        &&& forall|p: GcPtr| #[trigger]
            self.live(p) && self.pid(p) == pid.0 ==> self.parts[pid.0 as int].nodes.contains(p)
        &&& forall|s: int, d: int, i: int|
            is_place(self.stacks, s, d, i) && self.pid(#[trigger] place(self.stacks, s, d, i))
                == pid.0 ==> self.stack_of(s, pid)
    }

    /// The list holds all nodes of the partition, each of them once, and no scope holds any.
    pub open spec fn releasable(self, pid: GcPartitionId, list: Seq<GcPtr>) -> bool {
        &&& list.no_duplicates()
        &&& forall|k: int|
            0 <= k < list.len() ==> self.live(#[trigger] list[k]) && self.pid(list[k]) == pid.0
                && !held(self.stacks, list[k])
        &&& forall|p: GcPtr| #[trigger]
            self.live(p) && self.pid(p) == pid.0 ==> list.contains(p)
    }

    /// The heap after a partition with the nodes of `list` was given back.
    pub open spec fn released(self, pid: int, list: Seq<GcPtr>) -> HeapView<T> {
        let part = self.parts[pid];
        HeapView {
            parts: self.parts.update(
                pid,
                fresh_part(
                    match part.arena {
                        Some(a) => a.capacity as usize,
                        None => 0,
                    },
                    part.arena_max as usize,
                ),
            ),
            total: self.total - part.used,
            ..self.disposed(pid, list)
        }
    }
}

impl<T> GcHeap<T> {
    /// Adds a partition with an arena of the default size and returns its id.
    pub fn create_partition(&mut self) -> (r: GcPartitionId)
        requires
            old(self).wf(),
            old(self)@.parts.len() < 65536,
        ensures
            final(self).wf(),
            r.0 == old(self)@.parts.len(),
            final(self)@ == (HeapView {
                parts: old(self)@.parts.push(fresh_part(ARENA_CAPACITY, MAX_ARENA_ALLOC)),
                ..old(self)@
            }),
    {
        self.create_partition_with_arena(ARENA_CAPACITY, MAX_ARENA_ALLOC)
    }

    /// Adds a partition with an arena of `arena_capacity` bytes for nodes of at most
    /// `arena_max_alloc` bytes, and returns its id. With capacity zero it has no arena.
    pub fn create_partition_with_arena(
        &mut self,
        arena_capacity: usize,
        arena_max_alloc: usize,
    ) -> (r: GcPartitionId)
        requires
            old(self).wf(),
            old(self)@.parts.len() < 65536,
        ensures
            final(self).wf(),
            r.0 == old(self)@.parts.len(),
            final(self)@ == (HeapView {
                parts: old(self)@.parts.push(fresh_part(arena_capacity, arena_max_alloc)),
                ..old(self)@
            }),
    {
        let ghost v = self@;
        let id: u16 = self.partitions.len() as u16;
        self.partitions.push(GcPartition::new(arena_capacity, arena_max_alloc));
        proof {
            let part = fresh_part(arena_capacity, arena_max_alloc);
            assert(self@.parts =~= v.parts.push(part));
            assert(self@ =~= HeapView { parts: v.parts.push(part), ..v });
            lemma_new_part_wf(v, part);
        }
        GcPartitionId(id)
    }

    /// The partition with an id.
    #[inline(always)]
    pub fn partition(&self, partition_id: GcPartitionId) -> (r: Option<&GcPartition>)
        ensures
            r is Some <==> self@.has_part(partition_id),
            r matches Some(p) ==> p@ == self@.parts[partition_id.0 as int],
    {
        if (partition_id.0 as usize) < self.partitions.len() {
            Some(&self.partitions[partition_id.0 as usize])
        } else {
            None
        }
    }

    /// The partition with an id, to be changed.
    #[inline(always)]
    pub fn partition_mut(&mut self, partition_id: GcPartitionId) -> (r: Option<&mut GcPartition>)
        requires
            old(self).wf(),
        ensures
            r is Some <==> old(self)@.has_part(partition_id),
            r is None ==> *final(self) == *old(self),
            r matches Some(p) ==> {
                &&& p@ == old(self)@.parts[partition_id.0 as int]
                &&& p.wf()
                &&& final(self)@ == old(self)@.with_part(partition_id.0 as int, final(p)@)
                &&& final(p).wf() ==> final(self).inv()
            },
    {
        if (partition_id.0 as usize) < self.partitions.len() {
            Some(&mut self.partitions[partition_id.0 as usize])
        } else {
            None
        }
    }

    /// The ids of all partitions, in ascending order.
    pub fn partition_ids(&self) -> (r: Vec<GcPartitionId>)
        requires
            self.wf(),
        ensures
            r@.len() == self@.parts.len(),
            forall|i: int| 0 <= i < r@.len() ==> (#[trigger] r@[i]).0 == i,
    {
        let mut out: Vec<GcPartitionId> = Vec::new();
        let n: usize = self.partitions.len();
        let mut i: usize = 0;
        while i < n
            invariant
                i <= n <= 65536,
                n == self@.parts.len(),
                out@.len() == i,
                forall|k: int| 0 <= k < i ==> (#[trigger] out@[k]).0 == k,
            decreases n - i,
        {
            out.push(GcPartitionId(i as u16));
            i = i + 1;
        }
        out
    }

    /// Empties all scopes on a stack, in a heap where the scopes in `f` are empty already.
    fn empty_stack(
        &mut self,
        stack_id: GcScopeStackId,
        Ghost(v): Ghost<HeapView<T>>,
        Ghost(f): Ghost<spec_fn(int, int) -> bool>,
    )
        requires
            old(self).wf(),
            stack_id.0 < v.stacks.len(),
            old(self)@ == v.scopes_emptied(f),
            forall|d: int| !#[trigger] f(stack_id.0 as int, d),
        ensures
            final(self).wf(),
            final(self)@ == v.scopes_emptied(|s: int, d: int| f(s, d) || s == stack_id.0),
    {
        let ghost x = stack_id.0 as int;
        let ghost mut which = f;
        assert(self@.stacks[x] == v.stack_without(f, x));
        let depth: u8 = self.scope_max_depth(stack_id);
        let mut d: u8 = 0;
        while d < depth
            invariant
                x == stack_id.0,
                0 <= x < v.stacks.len(),
                depth == v.stacks[x].scopes.len(),
                d <= depth,
                self.wf(),
                self@ == v.scopes_emptied(which),
                forall|e: int| !#[trigger] f(x, e),
                forall|s: int, e: int| #[trigger]
                    which(s, e) <==> f(s, e) || (s == x && 0 <= e < d),
            decreases depth - d,
        {
            let scope = GcScope { stack_id, index: d };
            assert(scope.of(self@)) by {
                assert(self@.stacks[x] == v.stack_without(which, x));
            }
            self.clear_scope(scope);
            proof {
                let more = |s: int, e: int| which(s, e) || (s == x && e == d);
                lemma_emptied_more(v, which, more, x, d as int);
                which = more;
            }
            d = d + 1;
        }
        proof {
            let all = |s: int, e: int| f(s, e) || s == stack_id.0;
            assert forall|s: int, e: int| v.has_scope(s, e) implies #[trigger] all(s, e) == which(
                s,
                e,
            ) by {}
            lemma_emptied_same(v, which, all);
        }
    }

    /// Empties all scopes on the stacks of a partition.
    fn empty_scopes_of(&mut self, partition_id: GcPartitionId)
        requires
            old(self).wf(),
        ensures
            final(self).wf(),
            final(self)@ == old(self)@.scopes_emptied(
                |s: int, d: int| old(self)@.stack_of(s, partition_id),
            ),
    {
        let ghost v = self@;
        let n: usize = self.scope_stacks.len();
        let mut i: usize = 0;
        let ghost mut which = |s: int, d: int| false;
        proof {
            lemma_none_emptied(v, which);
        }
        while i < n
            invariant
                i <= n <= 65536,
                n == v.stacks.len(),
                self.wf(),
                self@ == v.scopes_emptied(which),
                forall|s: int, d: int| #[trigger]
                    which(s, d) <==> 0 <= s < i && v.stack_of(s, partition_id),
            decreases n - i,
        {
            assert(self@.stacks.len() == v.stacks.len());
            assert(self@.stacks[i as int] == v.stack_without(which, i as int));
            assert(self.scope_stacks@[i as int]@ == self@.stacks[i as int]);
            let mine: bool = match self.scope_stacks[i].partition {
                Some(p) => p == partition_id,
                None => false,
            };
            if mine {
                self.empty_stack(GcScopeStackId(i as u16), Ghost(v), Ghost(which));
                proof {
                    which = |s: int, d: int| which(s, d) || s == i;
                }
            }
            i = i + 1;
        }
        proof {
            let all = |s: int, d: int| v.stack_of(s, partition_id);
            assert forall|s: int, d: int| v.has_scope(s, d) implies #[trigger] all(s, d) == which(
                s,
                d,
            ) by {}
            lemma_emptied_same(v, which, all);
        }
    }
}

/// The invariant survives voiding weak references.
proof fn lemma_weak_voided_wf<T>(v: HeapView<T>, list: Seq<GcPtr>)
    requires
        v.wf(),
    ensures
        v.weak_voided(list).wf(),
{
    GcWeakRawId::lemma_null();
    let w = v.weak_voided(list);
    assert(w.nodes.dom() =~= v.nodes.dom());
    assert(w.chains_ok()) by {
        assert forall|i: int, k: int|
            0 <= i < w.parts.len() && 0 <= k < w.parts[i].nodes.len() implies w.live(
            #[trigger] w.parts[i].nodes[k],
        ) && w.pid(w.parts[i].nodes[k]) == i by {
            assert(v.live(v.parts[i].nodes[k]) && v.pid(v.parts[i].nodes[k]) == i);
        }
    }
    assert(w.weak_ok()) by {
        assert forall|p: GcPtr| #[trigger] w.live(p) && w.head(p).weak.spec_version()
            != 0 implies {
            let id = w.head(p).weak;
            &&& id.spec_index() < w.weak.len()
            &&& w.weak[id.spec_index() as int].version == id.spec_version()
            &&& w.weak[id.spec_index() as int].node == Some(p)
        } by {
            assert(v.live(p));
            assert(!list.contains(p));
        }
        assert forall|k: int| #![trigger w.weak[k]] 0 <= k < w.weak.len() implies (
        w.weak[k].node matches Some(p) ==> {
            &&& w.live(p)
            &&& w.head(p).weak.spec_index() == k
            &&& w.head(p).weak.spec_version() == w.weak[k].version
            &&& w.weak[k].version != 0
        }) by {
            if w.weak[k].node is Some {
                assert(v.weak[k] == w.weak[k]);
                assert(v.live(w.weak[k].node.unwrap()));
            }
        }
    }
    assert(w.scopes_ok()) by {
        assert forall|s: int, d: int, i: int| is_place(w.stacks, s, d, i) implies w.live(
            #[trigger] place(w.stacks, s, d, i),
        ) && w.head(place(w.stacks, s, d, i)).local by {
            assert(v.live(place(v.stacks, s, d, i)));
        }
    }
    lemma_core_wf(v, w);
}

proof fn lemma_none_emptied<T>(v: HeapView<T>, which: spec_fn(int, int) -> bool)
    requires
        forall|s: int, d: int| !#[trigger] which(s, d),
    ensures
        v.scopes_emptied(which) == v,
{
    let w = v.scopes_emptied(which);
    assert forall|p: GcPtr| !v.held_in(which, p) by {}
    assert(w.nodes =~= v.nodes);
    assert forall|s: int| 0 <= s < v.stacks.len() implies w.stacks[s] == v.stacks[s] by {
        assert(w.stacks[s].scopes =~= v.stacks[s].scopes);
    }
    assert(w.stacks =~= v.stacks);
}

proof fn lemma_emptied_same<T>(
    v: HeapView<T>,
    f: spec_fn(int, int) -> bool,
    g: spec_fn(int, int) -> bool,
)
    requires
        forall|s: int, d: int| v.has_scope(s, d) ==> #[trigger] g(s, d) == f(s, d),
    ensures
        v.scopes_emptied(f) == v.scopes_emptied(g),
{
    let a = v.scopes_emptied(f);
    let b = v.scopes_emptied(g);
    assert forall|p: GcPtr| v.held_in(f, p) == v.held_in(g, p) by {
        if v.held_in(f, p) {
            let (s, d, i) = choose|s: int, d: int, i: int|
                is_place(v.stacks, s, d, i) && #[trigger] place(v.stacks, s, d, i) == p && f(s, d);
            assert(v.has_scope(s, d));
            assert(g(s, d));
            assert(place(v.stacks, s, d, i) == p);
        }
        if v.held_in(g, p) {
            let (s, d, i) = choose|s: int, d: int, i: int|
                is_place(v.stacks, s, d, i) && #[trigger] place(v.stacks, s, d, i) == p && g(s, d);
            assert(v.has_scope(s, d));
            assert(place(v.stacks, s, d, i) == p && f(s, d));
        }
    }
    assert(a.nodes =~= b.nodes);
    assert forall|s: int| 0 <= s < v.stacks.len() implies a.stacks[s] == b.stacks[s] by {
        assert forall|d: int| 0 <= d < v.stacks[s].scopes.len() implies a.stacks[s].scopes[d]
            == b.stacks[s].scopes[d] by {
            assert(v.has_scope(s, d));
            assert(g(s, d) == f(s, d));
        }
        assert(a.stacks[s].scopes =~= b.stacks[s].scopes);
    }
    assert(a.stacks =~= b.stacks);
}

proof fn lemma_emptied_more<T>(
    v: HeapView<T>,
    f: spec_fn(int, int) -> bool,
    g: spec_fn(int, int) -> bool,
    s: int,
    d: int,
)
    requires
        v.has_scope(s, d),
        !f(s, d),
        forall|a: int, b: int| #[trigger] g(a, b) <==> f(a, b) || (a == s && b == d),
    ensures
        v.scopes_emptied(f).scope_cleared(s, d) == v.scopes_emptied(g),
{
    let m = v.scopes_emptied(f);
    let w = m.scope_cleared(s, d);
    let b = v.scopes_emptied(g);
    let list = v.scope_nodes(s, d);
    assert(m.stacks[s] == v.stack_without(f, s));
    assert(m.scope_nodes(s, d) == list);
    assert forall|p: GcPtr| v.held_in(g, p) <==> v.held_in(f, p) || list.contains(p) by {
        if v.held_in(g, p) {
            let (x, y, i) = choose|x: int, y: int, i: int|
                is_place(v.stacks, x, y, i) && #[trigger] place(v.stacks, x, y, i) == p && g(x, y);
            if f(x, y) {
                assert(place(v.stacks, x, y, i) == p && f(x, y));
            } else {
                assert(list[i] == p);
            }
        }
        if v.held_in(f, p) {
            let (x, y, i) = choose|x: int, y: int, i: int|
                is_place(v.stacks, x, y, i) && #[trigger] place(v.stacks, x, y, i) == p && f(x, y);
            assert(g(x, y));
            assert(place(v.stacks, x, y, i) == p);
        }
        if list.contains(p) {
            let i = choose|i: int| 0 <= i < list.len() && list[i] == p;
            assert(is_place(v.stacks, s, d, i));
            assert(place(v.stacks, s, d, i) == p && g(s, d));
        }
    }
    assert(w.nodes =~= b.nodes);
    assert forall|x: int| 0 <= x < v.stacks.len() implies w.stacks[x] == b.stacks[x] by {
        assert forall|y: int| 0 <= y < v.stacks[x].scopes.len() implies w.stacks[x].scopes[y]
            == b.stacks[x].scopes[y] by {
            assert(g(x, y) <==> f(x, y) || (x == s && y == d));
        }
        assert(w.stacks[x].scopes =~= b.stacks[x].scopes);
    }
    assert(w.stacks =~= b.stacks);
}

impl<T> GcHeap<T> {
    /// Makes the weak references to a node void.
    fn void_weak(&mut self, node: GcPtr)
        requires
            old(self).wf(),
            old(self)@.live(node),
        ensures
            final(self).wf(),
            final(self)@ == old(self)@.weak_voided(seq![node]),
    {
        let ghost v = self@;
        self.clear_weak_slot(node);
        let null: GcWeakRawId = GcWeakRawId::null();
        self.table.head_mut(node).set_weak_id(null);
        proof {
            let w = v.weak_voided(seq![node]);
            assert(seq![node][0] == node);
            assert(seq![node].contains(node));
            assert(self@.nodes =~= w.nodes);
            assert(self@.weak =~= w.weak);
            assert(self@ =~= w);
            lemma_weak_voided_wf(v, seq![node]);
        }
    }

    /// First step of removing a partition: empties the scopes on its stacks, makes weak
    /// references to its nodes void and takes their payloads out, where dropping them runs code,
    /// by drop pass. Returns the nodes, for `dealloc_partition`, and the payloads, to be dropped
    /// by the caller. `None` if there is no such partition.
    pub fn finalize_partition(&mut self, partition_id: GcPartitionId) -> (r: Option<
        (GcNodeLink, Vec<T>),
    >)
        requires
            old(self).wf(),
        ensures
            final(self).wf(),
            r is Some <==> old(self)@.has_part(partition_id),
            r is None ==> final(self)@ == old(self)@,
            r matches Some((link, payloads)) ==> {
                let chain = old(self)@.parts[partition_id.0 as int].nodes;
                &&& link@ == chain
                &&& payloads@ == old(self)@.payloads(old(self)@.drop_order(chain))
                &&& final(self)@ == old(self)@.finalized(partition_id)
                &&& old(self)@.part_alone(partition_id) ==> final(self)@.releasable(
                    partition_id,
                    link@,
                )
            },
    {
        if (partition_id.0 as usize) >= self.partitions.len() {
            return None;
        }
        let ghost v = self@;
        let ghost chain = v.parts[partition_id.0 as int].nodes;
        self.empty_scopes_of(partition_id);
        let ghost a = self@;
        let n: usize = self.chain_len(partition_id);
        let mut j: usize = 0;
        proof {
            assert(a.parts == v.parts);
            assert(a.nodes.dom() =~= v.nodes.dom());
            assert(a.weak_voided(chain.take(0)).nodes =~= a.nodes);
            assert(a.weak_voided(chain.take(0)).weak =~= a.weak);
            assert(a.weak_voided(chain.take(0)) =~= a);
        }
        while j < n
            invariant
                n == chain.len(),
                j <= n,
                a.wf(),
                a.has_part(partition_id),
                chain == a.parts[partition_id.0 as int].nodes,
                self.wf(),
                self@ == a.weak_voided(chain.take(j as int)),
            decreases n - j,
        {
            let p = self.chain_at(partition_id, j);
            proof {
                assert(a.live(a.parts[partition_id.0 as int].nodes[j as int]));
                assert(self@.live(p));
            }
            self.void_weak(p);
            proof {
                let done = chain.take(j as int);
                assert(chain.take(j + 1) =~= done.push(p));
                lemma_push_members(done, p);
                assert(seq![p][0] == p);
                assert forall|q: GcPtr| seq![p].contains(q) <==> q == p by {
                    if q == p {
                        assert(seq![p][0] == q);
                    }
                }
                let w = a.weak_voided(chain.take(j + 1));
                assert(self@.nodes =~= w.nodes);
                assert(self@.weak =~= w.weak);
                assert(self@ =~= w);
            }
            j = j + 1;
        }
        let ghost b = self@;
        proof {
            assert(chain.take(n as int) =~= chain);
            assert forall|k: int| 0 <= k < chain.len() implies b.live(#[trigger] chain[k])
                && b.nodes[chain[k]].head.dtype == v.nodes[chain[k]].head.dtype by {
                assert(v.live(v.parts[partition_id.0 as int].nodes[k]));
            }
            assert(v.parts[partition_id.0 as int].nodes.no_duplicates());
        }
        let nodes: Vec<GcPtr> = self.partitions[partition_id.0 as usize].nodes().to_vec();
        let order: Vec<GcPtr> = self.drop_order_list(&nodes);
        proof {
            assert forall|k: int| 0 <= k < chain.len() implies b.drop_pass(#[trigger] chain[k])
                == v.drop_pass(chain[k]) by {
                assert(b.nodes[chain[k]].head.dtype == v.nodes[chain[k]].head.dtype);
            }
            lemma_order_same(b, v, chain, v.reg.passes.len() as int);
            assert forall|k: int| 0 <= k < chain.len() implies b.head(#[trigger] chain[k]).dtype
                < b.reg.infos.len() by {
                assert(b.live(chain[k]));
            }
            law_drop_order(b, chain);
            assert forall|k: int| 0 <= k < order@.len() implies b.live(#[trigger] order@[k]) by {
                assert(order@.contains(order@[k]));
                let x = choose|x: int| 0 <= x < chain.len() && chain[x] == order@[k];
                assert(b.live(chain[x]));
            }
        }
        let order_link: GcNodeLink = GcNodeLink::new(order);
        let payloads: Vec<T> = self.sweep_drop_payloads(&order_link);
        proof {
            let w = v.finalized(partition_id);
            assert forall|p: GcPtr| #[trigger] order@.contains(p) <==> chain.contains(p) by {}
            assert(self@.nodes =~= w.nodes);
            assert(self@ =~= w);
            assert forall|k: int| 0 <= k < order@.len() implies v.nodes[#[trigger] order@[k]].payload
                == b.nodes[order@[k]].payload && v.head(order@[k]).dtype == b.head(
                order@[k],
            ).dtype by {
                assert(b.live(order@[k]));
            }
            lemma_payloads_same(v, b, order@);
            if v.part_alone(partition_id) {
                lemma_finalized_releasable(v, partition_id);
            }
        }
        Some((GcNodeLink::new(nodes), payloads))
    }

    /// Second step of removing a partition: disposes of its nodes and makes it as good as new,
    /// with an arena of the same size. Returns the number of bytes of the nodes.
    pub fn dealloc_partition(&mut self, partition_id: GcPartitionId, link: GcNodeLink) -> (r:
        usize)
        requires
            old(self).wf(),
            old(self)@.has_part(partition_id),
            old(self)@.releasable(partition_id, link@),
        ensures
            final(self).wf(),
            r == size_of_all(old(self)@.nodes, old(self)@.reg.infos, link@),
            final(self)@ == old(self)@.released(partition_id.0 as int, link@),
    {
        let ghost v = self@;
        let ghost pid = partition_id.0 as int;
        let capacity: usize = self.partitions[partition_id.0 as usize].arena_capacity();
        let max: usize = self.partitions[partition_id.0 as usize].arena_max_alloc();
        proof {
            self.partitions@[pid].lemma_used();
        }
        self.partitions[partition_id.0 as usize].set_nodes(GcNodeLink::default());
        let ghost part = PartView { nodes: Seq::empty(), ..v.parts[pid] };
        let ghost u = v.with_part(pid, part);
        proof {
            assert(self@ =~= u);
            lemma_rechained_wf(v, pid, part);
            let none = Seq::<GcPtr>::empty();
            assert(link@.take(0) =~= none);
            assert(none.to_set() =~= Set::<GcPtr>::empty());
            assert(u.disposed(pid, none).nodes =~= u.nodes);
            assert(u.disposed(pid, none).weak =~= u.weak);
            assert(u.disposed(pid, none).parts =~= u.parts);
            assert(u.disposed(pid, none) =~= u);
        }
        let n: usize = link.len();
        let mut freed: usize = 0;
        let mut j: usize = 0;
        while j < n
            invariant
                n == link@.len(),
                j <= n,
                pid == partition_id.0,
                u.has_part(partition_id),
                u.parts[pid].nodes.len() == 0,
                0 <= u.parts[pid].used <= usize::MAX,
                link@.no_duplicates(),
                forall|k: int|
                    0 <= k < link@.len() ==> u.live(#[trigger] link@[k]) && u.pid(link@[k]) == pid
                        && !held(u.stacks, link@[k]),
                self.wf(),
                self@ == u.disposed(pid, link@.take(j as int)),
                freed == size_of_all(u.nodes, u.reg.infos, link@.take(j as int)),
            decreases n - j,
        {
            let p = link.get(j);
            let ghost done = link@.take(j as int);
            proof {
                assert(link@[j as int] == p);
                assert(u.live(p));
                assert(!done.contains(p)) by {
                    if done.contains(p) {
                        let k = choose|k: int| 0 <= k < done.len() && done[k] == p;
                        assert(link@[k] == link@[j as int]);
                    }
                }
                assert(self@.live(p));
                assert(self@.nodes[p] == u.nodes[p]);
                assert(!self@.parts[pid].nodes.contains(p));
                crate::lemmas::lemma_disposed_wf(self@, p);
                assert(self@.parts[pid].used == u.parts[pid].used - freed);
                lemma_size_push(u.nodes, u.reg.infos, done, p);
                lemma_disposed_push(u, pid, done, p);
                assert(link@.take(j + 1) =~= done.push(p));
            }
            freed = freed + self.dispose(p);
            j = j + 1;
        }
        let ghost w = self@;
        let rest: usize = self.partitions[partition_id.0 as usize].memory_used();
        proof {
            assert(link@.take(n as int) =~= link@);
            lemma_part_used(w, pid);
        }
        self.total_memory_used = self.total_memory_used - rest;
        self.partitions[partition_id.0 as usize] = GcPartition::new(capacity, max);
        proof {
            let end = v.released(pid, link@);
            lemma_size_same(v, u, link@);
            assert(w.parts.len() == v.parts.len());
            assert(self.partitions@.len() == v.parts.len());
            assert forall|i: int| 0 <= i < v.parts.len() implies self@.parts[i]
                == end.parts[i] by {
                if i == pid {
                    assert(self@.parts[i] == fresh_part(capacity, max));
                } else {
                    assert(w.parts[i] == v.parts[i]);
                    assert(self.partitions@[i]@ == w.parts[i]);
                }
            }
            assert(self@.parts =~= end.parts);
            assert(self@.nodes =~= end.nodes);
            assert(self@.weak =~= end.weak);
            assert(self@ =~= end);
            assert forall|p: GcPtr| #[trigger] w.live(p) implies w.pid(p) != pid by {
                if v.pid(p) == pid {
                    assert(v.live(p));
                    assert(link@.contains(p));
                }
            }
            assert(self@ =~= HeapView {
                parts: w.parts.update(pid, self@.parts[pid]),
                total: w.total - w.parts[pid].used,
                ..w
            });
            lemma_released_wf(w, pid, self@.parts[pid], self@);
        }
        freed
    }
}

impl<T> HeapView<T> {
    /// The heap after all scopes of a stack were closed, the innermost one first.
    pub open spec fn stack_closed(self, s: int) -> HeapView<T>
        decreases self.stacks[s].scopes.len(),
    {
        if 0 <= s < self.stacks.len() && self.stacks[s].scopes.len() > 0 {
            self.scope_popped(s).stack_closed(s)
        } else {
            self
        }
    }

    /// The heap after all scopes of the first `n` stacks were closed.
    pub open spec fn stacks_closed(self, n: int) -> HeapView<T>
        decreases n,
    {
        if n <= 0 {
            self
        } else {
            self.stacks_closed(n - 1).stack_closed(n - 1)
        }
    }

    /// The heap after all nodes in the chain of a partition were disposed of.
    pub open spec fn chain_disposed(self, pid: int) -> HeapView<T> {
        let w = self.with_part(pid, PartView { nodes: Seq::empty(), ..self.parts[pid] });
        w.disposed(pid, w.drop_order(self.parts[pid].nodes))
    }

    /// The heap after all nodes in the chains of the first `n` partitions were disposed of.
    pub open spec fn chains_disposed(self, n: int) -> HeapView<T>
        decreases n,
    {
        if n <= 0 {
            self
        } else {
            self.chains_disposed(n - 1).chain_disposed(n - 1)
        }
    }
}

impl<T> GcHeap<T> {
    /// Removes a partition in one go: finalizes it, drops the payloads and gives it back.
    /// Returns the number of bytes of its nodes; zero if there is no such partition. The callback
    /// is not called.
    pub fn remove_partition<F: Fn(&GcHeap<T>, &GcHead)>(
        &mut self,
        partition_id: GcPartitionId,
        _on_dispose: F,
    ) -> (r: usize)
        requires
            old(self).wf(),
            old(self)@.has_part(partition_id) ==> old(self)@.part_alone(partition_id),
        ensures
            final(self).wf(),
            !old(self)@.has_part(partition_id) ==> r == 0 && final(self)@ == old(self)@,
            old(self)@.has_part(partition_id) ==> {
                let chain = old(self)@.parts[partition_id.0 as int].nodes;
                &&& r == size_of_all(old(self)@.nodes, old(self)@.reg.infos, chain)
                &&& final(self)@ == old(self)@.finalized(partition_id).released(
                    partition_id.0 as int,
                    chain,
                )
            },
    {
        let ghost v = self@;
        match self.finalize_partition(partition_id) {
            Some((link, _)) => {
                proof {
                    let f = self@;
                    assert forall|k: int| 0 <= k < link@.len() implies v.head(
                        #[trigger] link@[k],
                    ).dtype == f.head(link@[k]).dtype by {
                        assert(v.live(v.parts[partition_id.0 as int].nodes[k]));
                    }
                    lemma_size_same(v, f, link@);
                }
                self.dealloc_partition(partition_id, link)
            },
            None => 0,
        }
    }

    /// Gives everything up, as is done before a heap goes away: closes all scopes and disposes
    /// of all nodes in chains, partition by partition and by drop pass.
    pub fn dispose_everything(&mut self)
        requires
            old(self).wf(),
        ensures
            final(self).wf(),
            final(self)@.parts.len() == old(self)@.parts.len(),
            forall|i: int|
                0 <= i < final(self)@.parts.len() ==> (#[trigger] final(self)@.parts[i]).nodes.len()
                    == 0,
            forall|s: int|
                0 <= s < final(self)@.stacks.len() ==> (#[trigger] final(self)@.stacks[s]).scopes.len()
                    == 0,
            forall|p: GcPtr| #[trigger]
                final(self)@.live(p) <==> old(self)@.live(p) && !old(self)@.parts[old(self)@.pid(
                    p,
                )].nodes.contains(p),
            final(self)@ == old(self)@.stacks_closed(
                old(self)@.stacks.len() as int,
            ).chains_disposed(old(self)@.parts.len() as int),
    {
        let ghost v = self@;
        let stack_count: usize = self.scope_stacks.len();
        let mut s: usize = 0;
        while s < stack_count
            invariant
                s <= stack_count <= 65536,
                stack_count == self@.stacks.len(),
                self.wf(),
                self@ == v.stacks_closed(s as int),
                self@.parts == v.parts,
                self@.nodes.dom() == v.nodes.dom(),
                forall|p: GcPtr| #[trigger] v.live(p) ==> self@.pid(p) == v.pid(p),
                forall|k: int|
                    0 <= k < s ==> (#[trigger] self@.stacks[k]).scopes.len() == 0,
            decreases stack_count - s,
        {
            let id = GcScopeStackId(s as u16);
            let mut more: bool = true;
            while more
                invariant
                    id.0 == s,
                    s < stack_count <= 65536,
                    stack_count == self@.stacks.len(),
                    self.wf(),
                    self@.stack_closed(s as int) == v.stacks_closed(s + 1),
                    self@.parts == v.parts,
                    self@.nodes.dom() == v.nodes.dom(),
                    forall|p: GcPtr| #[trigger] v.live(p) ==> self@.pid(p) == v.pid(p),
                    forall|k: int|
                        0 <= k < s ==> (#[trigger] self@.stacks[k]).scopes.len() == 0,
                    !more ==> self@.stacks[s as int].scopes.len() == 0,
                decreases self@.stacks[s as int].scopes.len() + (if more {
                    1int
                } else {
                    0
                }),
            {
                let ghost before = self@;
                more = self.pop_scope(id);
                proof {
                    if more {
                        assert(self@.nodes.dom() =~= before.nodes.dom());
                        assert forall|k: int| 0 <= k < s implies (
                        #[trigger] self@.stacks[k]).scopes.len() == 0 by {
                            assert(before.stacks[k].scopes.len() == 0);
                        }
                    }
                }
            }
            s = s + 1;
        }
        let n: usize = self.partitions.len();
        let mut i: usize = 0;
        proof {
            assert forall|p: GcPtr| #[trigger] self@.live(p) implies self@.pid(p) == v.pid(p) by {
                assert(v.live(p));
            }
        }
        let ghost closed = self@;
        while i < n
            invariant
                i <= n <= 65536,
                n == self@.parts.len(),
                n == v.parts.len(),
                v.wf(),
                self.wf(),
                self@ == closed.chains_disposed(i as int),
                forall|k: int|
                    0 <= k < self@.stacks.len() ==> (#[trigger] self@.stacks[k]).scopes.len() == 0,
                forall|k: int| 0 <= k < i ==> (#[trigger] self@.parts[k]).nodes.len() == 0,
                forall|k: int|
                    i <= k < n ==> (#[trigger] self@.parts[k]).nodes == v.parts[k].nodes,
                forall|p: GcPtr| #[trigger]
                    self@.live(p) <==> v.live(p) && !(v.pid(p) < i && v.parts[v.pid(
                        p,
                    )].nodes.contains(p)),
                forall|p: GcPtr| #[trigger] self@.live(p) ==> self@.pid(p) == v.pid(p),
            decreases n - i,
        {
            let ghost before = self@;
            let pid = GcPartitionId(i as u16);
            let link: GcNodeLink = GcNodeLink::new(
                self.partitions[i].nodes().to_vec(),
            );
            self.partitions[i].set_nodes(GcNodeLink::default());
            proof {
                let part = PartView { nodes: Seq::empty(), ..before.parts[i as int] };
                assert(self@ =~= before.with_part(i as int, part));
                lemma_rechained_wf(before, i as int, part);
                assert(link@ == v.parts[i as int].nodes);
                assert(v.parts[i as int].nodes.no_duplicates());
                assert forall|k: int| 0 <= k < link@.len() implies {
                    &&& self@.live(#[trigger] link@[k])
                    &&& self@.pid(link@[k]) == i
                    &&& !self@.parts[i as int].nodes.contains(link@[k])
                    &&& !held(self@.stacks, link@[k])
                } by {
                    assert(before.live(before.parts[i as int].nodes[k]) && before.pid(
                        before.parts[i as int].nodes[k],
                    ) == i);
                }
                assert forall|k: int| 0 <= k < link@.len() implies self@.head(
                    #[trigger] link@[k],
                ).dtype < self@.reg.infos.len() by {
                    assert(self@.live(link@[k]));
                }
                law_drop_order(self@, link@);
            }
            let ghost mid = self@;
            let ghost gone = mid.drop_order(link@);
            self.dispose_all_nodes(pid, link, |_h: &GcHeap<T>, _n: &GcHead| {  });
            proof {
                assert forall|p: GcPtr| #[trigger] self@.live(p) <==> v.live(p) && !(v.pid(p) < i
                    + 1 && v.parts[v.pid(p)].nodes.contains(p)) by {
                    assert(mid.live(p) == before.live(p));
                    assert(self@.nodes == mid.nodes.remove_keys(gone.to_set()));
                    assert(gone.to_set().contains(p) <==> gone.contains(p));
                    assert(self@.live(p) <==> mid.live(p) && !gone.contains(p));
                    assert(gone.contains(p) <==> link@.contains(p));
                    if link@.contains(p) {
                        let k = choose|k: int| 0 <= k < link@.len() && link@[k] == p;
                        assert(v.live(v.parts[i as int].nodes[k]) && v.pid(
                            v.parts[i as int].nodes[k],
                        ) == i);
                    }
                }
                assert forall|p: GcPtr| #[trigger] self@.live(p) implies self@.pid(p) == v.pid(
                    p,
                ) by {
                    assert(before.live(p));
                }
            }
            i = i + 1;
        }
        proof {
            assert forall|p: GcPtr| #[trigger] self@.live(p) <==> v.live(p) && !v.parts[v.pid(
                p,
            )].nodes.contains(p) by {
                if v.live(p) {
                    assert(v.pid(p) < v.parts.len());
                }
            }
        }
    }
}

/// After a partition was finalized whose nodes only scopes of its own held, no scope holds any.
proof fn lemma_finalized_releasable<T>(v: HeapView<T>, pid: GcPartitionId)
    requires
        v.wf(),
        v.has_part(pid),
        v.part_alone(pid),
    ensures
        v.finalized(pid).releasable(pid, v.parts[pid.0 as int].nodes),
{
    let f = v.finalized(pid);
    let i = pid.0 as int;
    let list = v.parts[i].nodes;
    let which = |s: int, d: int| v.stack_of(s, pid);
    assert forall|k: int| 0 <= k < list.len() implies f.live(#[trigger] list[k]) && f.pid(list[k])
        == i && !held(f.stacks, list[k]) by {
        let p = list[k];
        assert(v.live(v.parts[i].nodes[k]) && v.pid(v.parts[i].nodes[k]) == i);
        if held(f.stacks, p) {
            let (s, d, m) = choose|s: int, d: int, m: int|
                is_place(f.stacks, s, d, m) && #[trigger] place(f.stacks, s, d, m) == p;
            assert(f.stacks[s] == v.stack_without(which, s));
            assert(is_place(v.stacks, s, d, m));
            assert(place(v.stacks, s, d, m) == p);
        }
    }
    assert(v.parts[i].nodes.no_duplicates());
    assert forall|p: GcPtr| #[trigger] f.live(p) && f.pid(p) == i implies list.contains(p) by {
        assert(v.live(p) && v.pid(p) == i);
    }
}

proof fn lemma_payloads_same<T>(v: HeapView<T>, w: HeapView<T>, list: Seq<GcPtr>)
    requires
        v.reg == w.reg,
        forall|k: int|
            0 <= k < list.len() ==> v.nodes[#[trigger] list[k]].payload == w.nodes[list[k]].payload
                && v.head(list[k]).dtype == w.head(list[k]).dtype,
    ensures
        v.payloads(list) == w.payloads(list),
    decreases list.len(),
{
    if list.len() > 0 {
        let d = list.drop_last();
        assert forall|k: int| 0 <= k < d.len() implies v.nodes[#[trigger] d[k]].payload
            == w.nodes[d[k]].payload && v.head(d[k]).dtype == w.head(d[k]).dtype by {
            assert(d[k] == list[k]);
        }
        lemma_payloads_same(v, w, d);
        assert(v.nodes[list[list.len() - 1]].payload == w.nodes[list[list.len() - 1]].payload);
    }
}

/// The invariant survives making a partition without nodes as good as new.
proof fn lemma_released_wf<T>(v: HeapView<T>, pid: int, part: PartView, w: HeapView<T>)
    requires
        v.wf(),
        0 <= pid < v.parts.len(),
        forall|p: GcPtr| #[trigger] v.live(p) ==> v.pid(p) != pid,
        part.nodes.len() == 0,
        part.used == 0,
        w == (HeapView {
            parts: v.parts.update(pid, part),
            total: v.total - v.parts[pid].used,
            ..v
        }),
    ensures
        w.wf(),
{
    assert(w.nodes_ok()) by {
        assert forall|p: GcPtr| #[trigger] w.live(p) implies p.heap == w.id && w.pid(p)
            < w.parts.len() && w.head(p).dtype < w.reg.infos.len() by {
            assert(v.live(p));
        }
    }
    assert(w.chains_ok()) by {
        assert forall|i: int| 0 <= i < w.parts.len() implies (
        #[trigger] w.parts[i]).nodes.no_duplicates() by {
            assert(v.parts[i].nodes.no_duplicates());
        }
        assert forall|i: int, k: int|
            0 <= i < w.parts.len() && 0 <= k < w.parts[i].nodes.len() implies w.live(
            #[trigger] w.parts[i].nodes[k],
        ) && w.pid(w.parts[i].nodes[k]) == i by {
            assert(v.live(v.parts[i].nodes[k]) && v.pid(v.parts[i].nodes[k]) == i);
        }
    }
    assert(w.weak_ok()) by {
        assert forall|p: GcPtr| #[trigger] w.live(p) && w.head(p).weak.spec_version()
            != 0 implies {
            let id = w.head(p).weak;
            &&& id.spec_index() < w.weak.len()
            &&& w.weak[id.spec_index() as int].version == id.spec_version()
            &&& w.weak[id.spec_index() as int].node == Some(p)
        } by {
            assert(v.live(p));
        }
    }
    assert(w.arenas_ok()) by {
        assert forall|p: GcPtr| #[trigger] w.live(p) implies {
            &&& w.head(p).arena <==> w.nodes[p].offset is Some
            &&& w.nodes[p].offset matches Some(o) ==> {
                &&& w.parts[w.pid(p)].arena matches Some(a)
                &&& o + taken(w.size(p)) <= a.capacity
            }
        } by {
            assert(v.live(p));
        }
    }
    assert(w.memory_ok()) by {
        lemma_sum_update(v.parts, pid, part);
        assert forall|i: int| 0 <= i < w.parts.len() implies bytes_of(w.nodes, w.reg.infos, i)
            <= (#[trigger] w.parts[i]).used by {
            if i == pid {
                assert forall|p: GcPtr| #[trigger]
                    v.nodes.dom().contains(p) implies v.nodes[p].head.partition.0 != i by {
                    assert(v.live(p));
                }
                lemma_bytes_none(v.nodes, v.reg.infos, i);
            } else {
                assert(bytes_of(v.nodes, v.reg.infos, i) <= v.parts[i].used);
            }
        }
    }
    assert(w.scopes_ok());
}

} // verus!
