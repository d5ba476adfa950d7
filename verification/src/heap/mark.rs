//! Marking.

use vstd::prelude::*;

use crate::heap::GcHeap;
use crate::lemmas::{
    keeps, lemma_cons_members, lemma_filter_members, lemma_filter_same, lemma_keeps_trans,
    lemma_keeps_wf, lemma_push_members,
};
use crate::marking::{
    expanded, gray_kids, kids_of, lemma_expanded_keeps, lemma_gray_added_keeps,
    lemma_kids_distinct, lemma_mark_dropped_keeps, lemma_mark_run_keeps, lemma_popped_keeps,
    lemma_prepared_keeps, lemma_prepared_upto_keeps, lemma_spread_keeps, lemma_spread_push,
    mark_run,
};
use crate::model::{HeapView, PartView};
use crate::node::{GcPartitionId, GcPtr, GcTriColor, HeadView};
use crate::table::NodeView;
use crate::trace::{GcNode, GcTraceCtx};

verus! {

impl<T> GcHeap<T> {
    /// Submits a node to the gray list of the partition `pid`.
    pub(crate) fn gray_submit(&mut self, pid: GcPartitionId, node: GcPtr)
        requires
            old(self).inv(),
            old(self)@.has_part(pid),
            old(self)@.live(node),
        ensures
            final(self).inv(),
            final(self)@ == old(self)@.gray_added(pid.0 as int, node),
    {
        let color: GcTriColor = self.table.head(node).color();
        if color == GcTriColor::Black {
            return;
        }
        let listed: bool = self.table.head(node).is_gray_listed();
        if color == GcTriColor::White {
            self.set_color(node, GcTriColor::Gray);
        }
        if !listed {
            self.set_listed(node, true);
            self.push_gray(pid, node);
        }
        assert(self@ =~= old(self)@.gray_added(pid.0 as int, node));
    }

    /// Submits a node to the gray list of the partition `pid`.
    pub(crate) fn part_add_gray_node(&mut self, pid: GcPartitionId, node: GcPtr)
        requires
            old(self).wf(),
            old(self)@.has_part(pid),
            old(self)@.live(node),
        ensures
            final(self).wf(),
            final(self)@ == old(self)@.gray_added(pid.0 as int, node),
    {
        proof {
            lemma_gray_added_keeps(self@, pid.0 as int, node);
            lemma_keeps_wf(self@, self@.gray_added(pid.0 as int, node));
        }
        self.gray_submit(pid, node);
    }

    /// Submits a node to the gray list of its partition, unless it is black.
    pub fn add_gray_node(&mut self, node: GcPtr)
        requires
            old(self).wf(),
            old(self)@.live(node),
        ensures
            final(self).wf(),
            final(self)@ == old(self)@.gray_added(old(self)@.pid(node), node),
    {
        if self.table.head(node).color() != GcTriColor::Black {
            let pid: GcPartitionId = self.table.head(node).partition_id();
            self.part_add_gray_node(pid, node);
        }
    }

    /// Tells whether the partition of the node is in a marking cycle.
    #[inline]
    pub fn is_node_partition_marking(&self, node: GcPtr) -> (r: bool)
        requires
            self.wf(),
            self@.live(node),
        ensures
            r == self@.parts[self@.pid(node)].marking,
    {
        let pid: GcPartitionId = self.table.head(node).partition_id();
        self.partitions[pid.0 as usize].is_marking()
    }
}

/// The heap while partition `i` begins a marking cycle and the nodes of `done` were looked at.
spec fn prep_state<T>(v: HeapView<T>, i: int, done: Seq<GcPtr>) -> HeapView<T> {
    HeapView {
        nodes: Map::new(
            |p: GcPtr| v.live(p),
            |p: GcPtr|
                if done.contains(p) {
                    NodeView { head: v.prepared_head(p), ..v.nodes[p] }
                } else {
                    v.nodes[p]
                },
        ),
        parts: v.parts.update(
            i,
            PartView {
                marking: true,
                gray: v.parts[i].gray + done.filter(|p: GcPtr| v.seeds(i, p)),
                ..v.parts[i]
            },
        ),
        ..v
    }
}

impl<T> GcHeap<T> {
    /// Begins a marking cycle in one partition.
    fn prepare_part(&mut self, partition_id: GcPartitionId, Ghost(v0): Ghost<HeapView<T>>)
        requires
            old(self).inv(),
            v0.wf(),
            v0.has_part(partition_id),
            old(self)@ == v0.prepared_upto(partition_id.0 as int),
        ensures
            final(self).inv(),
            final(self)@ == v0.prepared_upto(partition_id.0 + 1),
    {
        let ghost i = partition_id.0 as int;
        let ghost v = self@;
        let ghost chain = v.parts[i].nodes;
        let pending: bool = self.gray_len(partition_id) > 0;
        self.set_marking(partition_id, true);
        proof {
            assert(chain.take(0) =~= Seq::<GcPtr>::empty());
            let none = Seq::<GcPtr>::empty().filter(|p: GcPtr| v.seeds(i, p));
            assert(none =~= Seq::<GcPtr>::empty());
            assert(v.parts[i].gray + none =~= v.parts[i].gray);
            assert(self@ =~= prep_state(v, i, chain.take(0)));
        }
        let n: usize = self.chain_len(partition_id);
        let mut j: usize = 0;
        while j < n
            invariant
                i == partition_id.0,
                n == chain.len(),
                j <= n,
                0 <= i < v.parts.len(),
                chain == v.parts[i].nodes,
                chain.no_duplicates(),
                pending == (v.parts[i].gray.len() > 0),
                forall|k: int| 0 <= k < chain.len() ==> v.live(#[trigger] chain[k]),
                forall|k: int| 0 <= k < chain.len() ==> v.pid(#[trigger] chain[k]) == i,
                self.inv(),
                self@ == prep_state(v, i, chain.take(j as int)),
            decreases n - j,
        {
            let ghost done = chain.take(j as int);
            let p = self.chain_at(partition_id, j);
            proof {
                assert(p == chain[j as int]);
                assert(v.live(p) && v.pid(p) == i);
                assert(chain.contains(p));
                assert(!done.contains(p)) by {
                    if done.contains(p) {
                        let k = choose|k: int| 0 <= k < done.len() && done[k] == p;
                        assert(chain[k] == chain[j as int]);
                    }
                }
                assert(self@.live(p));
                assert(self@.nodes[p] == v.nodes[p]);
            }
            let ghost before = self@;
            if self.table.head(p).is_root_or_local() {
                let listed: bool = self.table.head(p).is_gray_listed();
                self.set_color(p, GcTriColor::Gray);
                if !pending {
                    self.push_gray(partition_id, p);
                } else if !listed {
                    self.set_listed(p, true);
                    self.push_gray(partition_id, p);
                }
            } else if !pending {
                self.set_color(p, GcTriColor::White);
            }
            proof {
                let more = chain.take(j + 1);
                assert(more =~= done.push(p));
                done.lemma_filter_push(p, |q: GcPtr| v.seeds(i, q));
                lemma_push_members(done, p);
                let w = prep_state(v, i, more);
                assert(self@.nodes =~= w.nodes);
                assert(self@.parts[i].gray =~= w.parts[i].gray);
                assert(self@.parts =~= w.parts);
                assert(self@ =~= w);
            }
            j = j + 1;
        }
        proof {
            assert(chain.take(n as int) =~= chain);
            let w = v0.prepared_upto(i + 1);
            lemma_prepared_upto_keeps(v0, i);
            assert forall|p: GcPtr| v0.live(p) implies self@.nodes[p] == w.nodes[p] by {
                assert(v.live(p));
                if v0.pid(p) == i {
                    assert(v.nodes[p] == v0.nodes[p]);
                    assert(v.parts[i] == v0.parts[i]);
                } else {
                    if chain.contains(p) {
                        let k = choose|k: int| 0 <= k < chain.len() && chain[k] == p;
                        assert(v0.pid(v0.parts[i].nodes[k]) == i);
                    }
                }
            }
            assert(self@.nodes =~= w.nodes);
            let f = |p: GcPtr| v.seeds(i, p);
            let g = |p: GcPtr| v0.seeds(i, p);
            assert forall|k: int| 0 <= k < chain.len() implies f(chain[k]) == g(chain[k]) by {
                assert(v0.pid(v0.parts[i].nodes[k]) == i);
                assert(v0.live(v0.parts[i].nodes[k]));
                assert(v.nodes[chain[k]] == v0.nodes[chain[k]]);
            }
            lemma_filter_same(chain, f, g);
            assert(self@.parts =~= w.parts);
            assert(self@ =~= w);
        }
    }

    /// Begins a marking cycle: all partitions go into it together, and their roots and the nodes
    /// held by scopes are put on their gray lists. Does nothing if the partition does not exist
    /// or is in a cycle already.
    pub fn mark_prepare(&mut self, partition_id: GcPartitionId)
        requires
            old(self).wf(),
        ensures
            final(self).wf(),
            final(self)@ == old(self)@.prepared(partition_id),
    {
        let ghost v = self@;
        if (partition_id.0 as usize) >= self.partitions.len() {
            return;
        }
        if self.partitions[partition_id.0 as usize].is_marking() {
            return;
        }
        let n: usize = self.partitions.len();
        proof {
            assert(v.prepared_upto(0).nodes =~= v.nodes);
            assert(v.prepared_upto(0) =~= v);
        }
        let mut i: usize = 0;
        while i < n
            invariant
                i <= n <= 65536,
                n == v.parts.len(),
                v.wf(),
                self.inv(),
                self@ == v.prepared_upto(i as int),
            decreases n - i,
        {
            self.prepare_part(GcPartitionId(i as u16), Ghost(v));
            i = i + 1;
        }
        proof {
            lemma_prepared_keeps(v, partition_id);
            lemma_keeps_wf(v, self@);
        }
    }

    /// Gives the marking cycle of a partition up: its gray list is emptied and its nodes become
    /// white.
    pub fn mark_reset(&mut self, partition_id: GcPartitionId)
        requires
            old(self).wf(),
            old(self)@.has_part(partition_id),
        ensures
            final(self).wf(),
            final(self)@ == old(self)@.mark_dropped(partition_id.0 as int),
    {
        let ghost v = self@;
        let ghost i = partition_id.0 as int;
        let ghost gray = v.parts[i].gray;
        let ghost chain = v.parts[i].nodes;
        self.set_marking(partition_id, false);
        assert(gray.skip(gray.len() as int) =~= Seq::<GcPtr>::empty());
        assert(gray.take(gray.len() as int) =~= gray);
        assert(self@ =~= reset_state(v, i, gray.len() as int, 0));
        while self.gray_len(partition_id) > 0
            invariant
                i == partition_id.0,
                0 <= i < v.parts.len(),
                gray == v.parts[i].gray,
                self.inv(),
                0 <= self@.parts[i].gray.len() <= gray.len(),
                self@.has_part(partition_id),
                self@ == reset_state(v, i, self@.parts[i].gray.len() as int, 0),
            decreases self@.parts[i].gray.len(),
        {
            let ghost k = self@.parts[i].gray.len() as int;
            let node = match self.pop_gray(partition_id) {
                Some(p) => p,
                None => GcPtr { heap: 0, slot: 0 },
            };
            if self.table.contains(node) {
                self.set_listed(node, false);
            }
            proof {
                assert(gray.take(k).drop_last() =~= gray.take(k - 1));
                assert(node == gray[k - 1]);
                let w = reset_state(v, i, k - 1, 0);
                assert(gray.skip(k - 1) =~= seq![node] + gray.skip(k));
                lemma_cons_members(node, gray.skip(k));
                assert(self@.nodes =~= w.nodes);
                assert(self@.parts =~= w.parts);
                assert(self@ =~= w);
            }
        }
        let n: usize = self.chain_len(partition_id);
        let mut j: usize = 0;
        while j < n
            invariant
                i == partition_id.0,
                0 <= i < v.parts.len(),
                v.wf(),
                n == chain.len(),
                chain == v.parts[i].nodes,
                j <= n,
                self.inv(),
                self@ == reset_state(v, i, 0, j as int),
            decreases n - j,
        {
            let p = self.chain_at(partition_id, j);
            assert(p == v.parts[i].nodes[j as int]);
            assert(v.live(p));
            self.set_color(p, GcTriColor::White);
            proof {
                let w = reset_state(v, i, 0, j + 1);
                assert(chain.take(j + 1) =~= chain.take(j as int).push(p));
                lemma_push_members(chain.take(j as int), p);
                assert(self@.nodes =~= w.nodes);
                assert(self@ =~= w);
            }
            j = j + 1;
        }
        proof {
            let w = v.mark_dropped(i);
            assert(chain.take(n as int) =~= chain);
            assert(gray.skip(0) =~= gray);
            assert(gray.take(0) =~= Seq::<GcPtr>::empty());
            assert(self@.nodes =~= w.nodes);
            assert(self@.parts =~= w.parts);
            assert(self@ =~= w);
            lemma_mark_dropped_keeps(v, i);
            lemma_keeps_wf(v, self@);
        }
    }
}

/// The heap while the marking cycle of partition `i` is given up: the gray list is cut to its
/// first `k` entries and the first `j` nodes of the chain are white.
spec fn reset_state<T>(v: HeapView<T>, i: int, k: int, j: int) -> HeapView<T> {
    let part = v.parts[i];
    HeapView {
        nodes: Map::new(
            |p: GcPtr| v.live(p),
            |p: GcPtr|
                NodeView {
                    head: HeadView {
                        color: if part.nodes.take(j).contains(p) {
                            GcTriColor::White
                        } else {
                            v.color(p)
                        },
                        listed: v.head(p).listed && !part.gray.skip(k).contains(p),
                        ..v.head(p)
                    },
                    ..v.nodes[p]
                },
        ),
        parts: v.parts.update(
            i,
            PartView { gray: part.gray.take(k), marking: false, ..part },
        ),
        ..v
    }
}

impl<T: GcNode> GcHeap<T> {
    /// Makes the node gray and puts it on the gray list of its partition.
    fn gray_child(&mut self, node: GcPtr)
        requires
            old(self).inv(),
            old(self)@.live(node),
            old(self)@.pid(node) < old(self)@.parts.len(),
        ensures
            final(self).inv(),
            final(self)@ == old(self)@.with_head(
                node,
                HeadView { color: GcTriColor::Gray, listed: true, ..old(self)@.head(node) },
            ).gray_pushed(old(self)@.pid(node), node),
    {
        let pid: GcPartitionId = self.table.head(node).partition_id();
        self.set_color(node, GcTriColor::Gray);
        self.set_listed(node, true);
        self.push_gray(pid, node);
        assert(self@ =~= old(self)@.with_head(
            node,
            HeadView { color: GcTriColor::Gray, listed: true, ..old(self)@.head(node) },
        ).gray_pushed(old(self)@.pid(node), node));
    }

    /// Traces a gray node: what it refers to becomes gray, unless it is black, and the node
    /// itself black.
    fn expand(&mut self, node: GcPtr)
        requires
            old(self).wf(),
            old(self)@.live(node),
        ensures
            final(self).wf(),
            final(self)@ == expanded(old(self)@, node),
    {
        let ghost v = self@;
        let mut gcx = GcTraceCtx::new(64, self.opaque);
        match self.table.payload(node) {
            Some(t) => t.trace(&mut gcx),
            None => {},
        }
        let kids: Vec<GcPtr> = gcx.take_nodes();
        let ghost back = kids@.reverse();
        let ghost pred = |c: GcPtr| v.markable(c);
        proof {
            assert(kids@ == kids_of(v, node));
            lemma_kids_distinct(v, node);
            assert(back.take(0) =~= Seq::<GcPtr>::empty());
            assert(back.take(0).filter(pred) =~= Seq::<GcPtr>::empty());
            assert(v.spread(Seq::empty()) =~= v) by {
                assert(v.spread(Seq::empty()).nodes =~= v.nodes);
                assert forall|i: int| 0 <= i < v.parts.len() implies v.spread(
                    Seq::empty(),
                ).parts[i] == v.parts[i] by {
                    assert(Seq::<GcPtr>::empty().filter(|c: GcPtr| v.pid(c) == i) =~= Seq::<
                        GcPtr,
                    >::empty());
                    assert(v.spread(Seq::empty()).parts[i].gray =~= v.parts[i].gray);
                }
                assert(v.spread(Seq::empty()).parts =~= v.parts);
            }
        }
        let mut m: usize = 0;
        while m < kids.len()
            invariant
                m <= kids@.len(),
                v.wf(),
                v.live(node),
                back == kids@.reverse(),
                back.no_duplicates(),
                pred == (|c: GcPtr| v.markable(c)),
                self.inv(),
                self@ == v.spread(back.take(m as int).filter(pred)),
            decreases kids@.len() - m,
        {
            let child = kids[kids.len() - 1 - m];
            let ghost done = back.take(m as int).filter(pred);
            proof {
                assert(back[m as int] == child);
                assert(back.take(m + 1) =~= back.take(m as int).push(child));
                back.take(m as int).lemma_filter_push(child, pred);
                lemma_spread_keeps(v, done);
                assert(self@.live(child) == v.live(child));
                assert(!done.contains(child)) by {
                    if done.contains(child) {
                        lemma_filter_members(back.take(m as int), pred);
                        let j = choose|j: int|
                            0 <= j < m && back.take(m as int)[j] == child;
                        assert(back[j] == back[m as int]);
                    }
                }
                if v.live(child) {
                    assert(self@.nodes[child] == v.nodes[child]);
                }
            }
            if self.table.contains(child) && self.table.head(child).color() != GcTriColor::Black {
                proof {
                    lemma_spread_push(v, done, child);
                }
                self.gray_child(child);
            }
            m = m + 1;
        }
        proof {
            assert(back.take(m as int) =~= back);
            lemma_spread_keeps(v, gray_kids(v, node));
            assert(self@.live(node));
        }
        self.set_color(node, GcTriColor::Black);
        proof {
            lemma_expanded_keeps(v, node);
            lemma_keeps_wf(v, self@);
        }
    }

    /// Traces nodes on the gray list of a partition, at most `max_steps` of them. Returns true
    /// if the list is empty afterwards; with `max_steps` zero nothing is done and false
    /// returned.
    pub fn mark_grays(&mut self, partition_id: GcPartitionId, max_steps: usize) -> (r: bool)
        requires
            old(self).wf(),
            max_steps > 0 ==> old(self)@.has_part(partition_id),
        ensures
            final(self).wf(),
            max_steps == 0 ==> !r && final(self)@ == old(self)@,
            max_steps > 0 ==> (final(self)@, r) == mark_run(
                old(self)@,
                partition_id.0 as int,
                max_steps as nat,
            ),
            keeps(old(self)@, final(self)@),
    {
        if max_steps == 0 {
            return false;
        }
        let ghost pid = partition_id.0 as int;
        let mut cnt: usize = 0;
        while self.gray_len(partition_id) > 0
            invariant
                pid == partition_id.0,
                max_steps > 0,
                self.wf(),
                self@.has_part(partition_id),
                keeps(old(self)@, self@),
                cnt <= max_steps,
                mark_run(self@, pid, (max_steps - cnt) as nat) == mark_run(
                    old(self)@,
                    pid,
                    max_steps as nat,
                ),
            decreases max_steps - cnt, self@.parts[pid].gray.len(),
        {
            let ghost v = self@;
            let node = match self.pop_gray(partition_id) {
                Some(p) => p,
                None => {
                    return true;
                },
            };
            let live: bool = self.table.contains(node);
            if live {
                self.set_listed(node, false);
            }
            proof {
                assert(self@ == v.popped(pid));
                lemma_popped_keeps(v, pid);
                lemma_keeps_wf(v, self@);
                lemma_keeps_trans(old(self)@, v, self@);
            }
            if live && self.table.head(node).color() == GcTriColor::Gray {
                let ghost w = self@;
                if cnt >= max_steps {
                    self.push_gray(partition_id, node);
                    proof {
                        lemma_mark_run_keeps(v, pid, 0);
                        lemma_keeps_wf(v, self@);
                        lemma_keeps_trans(old(self)@, v, self@);
                    }
                    return false;
                }
                self.expand(node);
                proof {
                    lemma_expanded_keeps(w, node);
                    lemma_keeps_trans(old(self)@, w, self@);
                }
                cnt = cnt + 1;
            }
        }
        true
    }

    /// Begins a marking cycle, unless one is under way, and traces at most `max_steps` nodes.
    /// Returns true when the partition has nothing left to trace.
    pub fn mark(&mut self, partition_id: GcPartitionId, max_steps: usize) -> (r: bool)
        requires
            old(self).wf(),
            max_steps > 0 ==> old(self)@.has_part(partition_id),
        ensures
            final(self).wf(),
            max_steps == 0 ==> !r && final(self)@ == old(self)@.prepared(partition_id),
            max_steps > 0 ==> (final(self)@, r) == mark_run(
                old(self)@.prepared(partition_id),
                partition_id.0 as int,
                max_steps as nat,
            ),
            keeps(old(self)@, final(self)@),
    {
        self.mark_prepare(partition_id);
        proof {
            lemma_prepared_keeps(old(self)@, partition_id);
        }
        let ghost v = self@;
        if max_steps > 0 {
            let r: bool = self.mark_grays(partition_id, max_steps);
            proof {
                lemma_keeps_trans(old(self)@, v, self@);
            }
            r
        } else {
            false
        }
    }
}

} // verus!
