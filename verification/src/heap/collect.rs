//! Collection.

use vstd::prelude::*;

use crate::collecting::{
    all_marked, lemma_all_marked, lemma_cleared_keeps, lemma_round, round_upto,
};
use crate::heap::sweep::all_notified;
use crate::heap::GcHeap;
use crate::lemmas::{keeps, lemma_keeps_trans, lemma_keeps_wf, lemma_push_members};
use crate::marking::{lemma_mark_run_keeps, lemma_prepared_upto_keeps, mark_run};
use crate::model::{HeapView, PartView};
use crate::node::{GcHead, GcPartitionId, GcPtr, GcTriColor, HeadView};
use crate::progress::{
    lemma_run_is_full, lemma_run_parts, lemma_run_resumed, lemma_run_stopped,
};
use crate::sweeping::fully_marked;
use crate::table::NodeView;
use crate::trace::GcNode;

verus! {

/// The heap while partition `i` gives its marking cycle up and the nodes of `done` were made
/// white.
spec fn clear_state<T>(v: HeapView<T>, i: int, done: Seq<GcPtr>) -> HeapView<T> {
    HeapView {
        nodes: Map::new(
            |p: GcPtr| v.live(p),
            |p: GcPtr|
                if done.contains(p) {
                    NodeView {
                        head: HeadView { color: GcTriColor::White, listed: false, ..v.head(p) },
                        ..v.nodes[p]
                    }
                } else {
                    v.nodes[p]
                },
        ),
        parts: v.parts.update(
            i,
            PartView { marking: false, gray: Seq::empty(), ..v.parts[i] },
        ),
        ..v
    }
}

impl<T> GcHeap<T> {
    /// Gives the marking cycle of one partition up.
    fn clear_part(&mut self, partition_id: GcPartitionId, Ghost(v0): Ghost<HeapView<T>>)
        requires
            old(self).inv(),
            v0.wf(),
            v0.has_part(partition_id),
            old(self)@ == v0.cleared_upto(partition_id.0 as int),
        ensures
            final(self).inv(),
            final(self)@ == v0.cleared_upto(partition_id.0 + 1),
    {
        let ghost i = partition_id.0 as int;
        let ghost v = self@;
        let ghost chain = v.parts[i].nodes;
        self.set_marking(partition_id, false);
        self.clear_gray(partition_id);
        proof {
            assert(chain.take(0) =~= Seq::<GcPtr>::empty());
            assert(self@.nodes =~= v.nodes);
            assert(self@ =~= clear_state(v, i, chain.take(0)));
        }
        let n: usize = self.chain_len(partition_id);
        let mut j: usize = 0;
        while j < n
            invariant
                i == partition_id.0,
                n == chain.len(),
                j <= n,
                0 <= i < v.parts.len(),
                chain == v.parts[i].nodes,
                forall|k: int| 0 <= k < chain.len() ==> v.live(#[trigger] chain[k]),
                self.inv(),
                self@ == clear_state(v, i, chain.take(j as int)),
            decreases n - j,
        {
            let ghost done = chain.take(j as int);
            let p = self.chain_at(partition_id, j);
            proof {
                assert(p == chain[j as int]);
                assert(self@.live(p));
            }
            self.set_color(p, GcTriColor::White);
            self.set_listed(p, false);
            proof {
                let more = chain.take(j + 1);
                assert(more =~= done.push(p));
                lemma_push_members(done, p);
                let w = clear_state(v, i, more);
                assert(self@.nodes =~= w.nodes);
                assert(self@ =~= w);
            }
            j = j + 1;
        }
        proof {
            assert(chain.take(n as int) =~= chain);
            let w = v0.cleared_upto(i + 1);
            lemma_cleared_keeps(v0, i);
            assert forall|p: GcPtr| v0.live(p) implies self@.nodes[p] == w.nodes[p] by {
                assert(v.live(p));
                if v0.pid(p) == i {
                    assert(v.nodes[p] == v0.nodes[p]);
                    assert(v.parts[i] == v0.parts[i]);
                } else {
                    if chain.contains(p) {
                        let k = choose|k: int| 0 <= k < chain.len() && chain[k] == p;
                        assert(v0.pid(v0.parts[i].nodes[k]) == i);
                    }
                }
            }
            assert(self@.nodes =~= w.nodes);
            assert(self@.parts =~= w.parts);
            assert(self@ =~= w);
        }
    }

    /// Gives the marking cycles of all partitions up and begins new ones.
    fn mark_restart(&mut self)
        requires
            old(self).wf(),
        ensures
            final(self).wf(),
            final(self)@ == old(self)@.restarted(),
            keeps(old(self)@, final(self)@),
    {
        let ghost v = self@;
        let n: usize = self.partitions.len();
        proof {
            assert(v.cleared_upto(0).nodes =~= v.nodes);
            assert(v.cleared_upto(0) =~= v);
        }
        let mut i: usize = 0;
        while i < n
            invariant
                i <= n <= 65536,
                n == v.parts.len(),
                v.wf(),
                self.inv(),
                self@ == v.cleared_upto(i as int),
            decreases n - i,
        {
            self.clear_part(GcPartitionId(i as u16), Ghost(v));
            i = i + 1;
        }
        proof {
            lemma_cleared_keeps(v, n as int);
            lemma_keeps_wf(v, self@);
        }
        let ghost u = self@;
        if n > 0 {
            self.mark_prepare(GcPartitionId(0));
            assert(!u.parts[0].marking);
        }
        proof {
            lemma_prepared_upto_keeps(u, n as int);
            lemma_keeps_trans(v, u, u.prepared_upto(n as int));
            if n == 0 {
                assert(u.prepared_upto(0).nodes =~= u.nodes);
                assert(u.prepared_upto(0) =~= u);
            }
        }
    }

    /// Tells whether no gray list has an entry.
    fn gray_lists_empty(&self) -> (r: bool)
        requires
            self.wf(),
        ensures
            r == self@.no_gray(),
    {
        let n: usize = self.partitions.len();
        let mut i: usize = 0;
        while i < n
            invariant
                i <= n <= 65536,
                n == self@.parts.len(),
                self.wf(),
                forall|k: int| 0 <= k < i ==> (#[trigger] self@.parts[k]).gray.len() == 0,
            decreases n - i,
        {
            if self.gray_len(GcPartitionId(i as u16)) > 0 {
                assert(self@.parts[i as int].gray.len() > 0);
                return false;
            }
            i = i + 1;
        }
        true
    }
}

impl<T: GcNode> HeapView<T> {
    /// The heap after a collection of a partition.
    pub open spec fn after_gc(self, pid: GcPartitionId) -> HeapView<T> {
        all_marked(self.restarted()).sweep_done(pid.0 as int)
    }
}

impl<T: GcNode> GcHeap<T> {
    /// Traces nodes on the gray list of a partition until it is empty.
    fn mark_out(&mut self, partition_id: GcPartitionId)
        requires
            old(self).wf(),
            old(self)@.has_part(partition_id),
        ensures
            final(self).wf(),
            final(self)@ == fully_marked(old(self)@, partition_id.0 as int),
            keeps(old(self)@, final(self)@),
    {
        let ghost pid = partition_id.0 as int;
        let ghost v = self@;
        let ghost mut steps: nat = 64;
        let mut done: bool = self.mark_grays(partition_id, 64);
        while !done
            invariant
                pid == partition_id.0,
                v.wf(),
                v.has_part(partition_id),
                self.wf(),
                mark_run(v, pid, steps) == (self@, done),
            decreases (if done { 0 } else { v.nonblack() - steps + 1 }),
        {
            proof {
                lemma_run_stopped(v, pid, steps);
                lemma_run_parts(v, pid, steps);
                assert(self@.has_part(partition_id));
                lemma_run_resumed(v, pid, steps, 64);
            }
            done = self.mark_grays(partition_id, 64);
            proof {
                steps = steps + 64;
                if !done {
                    lemma_run_stopped(v, pid, steps);
                }
            }
        }
        proof {
            lemma_run_is_full(v, pid, steps);
            lemma_mark_run_keeps(v, pid, steps);
        }
    }

    /// Traces nodes in all partitions until no gray list has an entry.
    fn mark_all(&mut self)
        requires
            old(self).wf(),
        ensures
            final(self).wf(),
            final(self)@ == all_marked(old(self)@),
            keeps(old(self)@, final(self)@),
            final(self)@.no_gray(),
    {
        let ghost v0 = self@;
        let n: usize = self.partitions.len();
        assert(keeps(v0, v0));
        while !self.gray_lists_empty()
            invariant
                n == v0.parts.len() <= 65536,
                self.wf(),
                self@.parts.len() == n,
                keeps(v0, self@),
                all_marked(self@) == all_marked(v0),
            decreases self@.nonblack(), (if self@.no_gray() { 0int } else { 1int }),
        {
            let ghost v = self@;
            let mut i: usize = 0;
            while i < n
                invariant
                    i <= n <= 65536,
                    n == v.parts.len(),
                    v.wf(),
                    self.wf(),
                    self@.parts.len() == n,
                    self@ == round_upto(v, i as nat),
                decreases n - i,
            {
                self.mark_out(GcPartitionId(i as u16));
                i = i + 1;
            }
            proof {
                lemma_round(v, n as nat);
                lemma_keeps_trans(v0, v, self@);
                if self@.nonblack() == v.nonblack() {
                    assert(self@.no_gray());
                }
            }
        }
        proof {
            assert(all_marked(self@) == self@);
        }
    }

    /// Collects a partition. A marking cycle under way is given up and a new one begun in all
    /// partitions; marking goes on in all of them until there is nothing left to trace, so that
    /// nodes referred to from other partitions are found, and then the partition is swept. The
    /// other partitions stay in the new cycle, with nothing left to trace. `on_dispose` is called
    /// with each node before it is disposed of. Returns the number of bytes freed; zero if there
    /// is no such partition.
    pub fn garbage_collect<F: Fn(&GcHeap<T>, &GcHead)>(
        &mut self,
        partition_id: GcPartitionId,
        on_dispose: F,
    ) -> (r: usize)
        requires
            old(self).wf(),
            forall|h: &GcHeap<T>, n: &GcHead|
                h.wf() && n.wf() ==> #[trigger] call_requires(on_dispose, (h, n)),
        ensures
            final(self).wf(),
            final(self)@.parts.len() == old(self)@.parts.len(),
            final(self)@.stacks == old(self)@.stacks,
            final(self)@.limit == old(self)@.limit,
            final(self)@.threshold == old(self)@.threshold,
            final(self)@.opaque == old(self)@.opaque,
            !old(self)@.has_part(partition_id) ==> r == 0 && final(self)@ == old(self)@,
            old(self)@.has_part(partition_id) ==> {
                let m = all_marked(old(self)@.restarted());
                let gone = m.drop_order(m.dead_nodes(partition_id.0 as int));
                &&& final(self)@ == m.sweep_done(partition_id.0 as int)
                &&& r == m.dead_bytes(partition_id.0 as int)
                &&& all_notified(
                    on_dispose,
                    m.unlinked(partition_id.0 as int).chainless(partition_id.0 as int),
                    partition_id.0 as int,
                    gone,
                    true,
                )
            },
    {
        if (partition_id.0 as usize) >= self.partitions.len() {
            return 0;
        }
        let ghost v = self@;
        self.mark_restart();
        let ghost u = self@;
        self.mark_all();
        proof {
            lemma_all_marked(u);
            lemma_keeps_trans(v, u, self@);
            let i = partition_id.0 as int;
            assert(u.parts[i].marking);
            assert(self@.parts[i].marking);
            assert(self@.parts[i].gray.len() == 0);
            assert(self@.sweepable(partition_id));
        }
        self.sweep(partition_id, on_dispose)
    }
}

} // verus!
