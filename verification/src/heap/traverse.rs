//! Tracing and traversal.

use vstd::prelude::*;

use crate::heap::GcHeap;
use crate::lemmas::{keeps, lemma_keeps_trans, lemma_keeps_wf, lemma_push_members};
use crate::marking::{kids_of, lemma_with_head_keeps, refs_of};
use crate::model::HeapView;
use crate::node::{GcNodeFlag, GcPartitionId, GcPtr, HeadView};
use crate::trace::{CtxView, GcNode, GcTraceCtx};
use crate::walking::{lemma_visited_less, next_visits, walk, Visit};

verus! {

impl<T> GcHeap<T> {
    /// An empty trace context with room for `cap` nodes.
    pub fn create_trace_ctx(&self, cap: usize) -> (r: GcTraceCtx)
        ensures
            r@ == (CtxView { nodes: Seq::empty(), opaque: self@.opaque }),
    {
        GcTraceCtx::new(cap, self.opaque)
    }

    /// Clears the traversal marks of the nodes of a partition.
    pub fn traverse_start(&mut self, partition_id: GcPartitionId)
        requires
            old(self).wf(),
        ensures
            final(self).wf(),
            final(self)@ == old(self)@.visits_cleared(partition_id),
    {
        if (partition_id.0 as usize) >= self.partitions.len() {
            return;
        }
        let ghost v = self@;
        let ghost chain = v.parts[partition_id.0 as int].nodes;
        let n: usize = self.chain_len(partition_id);
        let mut j: usize = 0;
        while j < n
            invariant
                n == chain.len(),
                j <= n,
                v.wf(),
                v.has_part(partition_id),
                chain == v.parts[partition_id.0 as int].nodes,
                self.inv(),
                self@.parts == v.parts,
                self@ == (HeapView { nodes: self@.nodes, ..v }),
                self@.nodes.dom() == v.nodes.dom(),
                forall|p: GcPtr| #[trigger]
                    v.live(p) ==> self@.nodes[p] == (crate::table::NodeView {
                        head: HeadView {
                            visited: v.head(p).visited && !chain.take(j as int).contains(p),
                            ..v.head(p)
                        },
                        ..v.nodes[p]
                    }),
            decreases n - j,
        {
            let p = self.chain_at(partition_id, j);
            assert(v.live(v.parts[partition_id.0 as int].nodes[j as int]));
            self.set_flag(p, GcNodeFlag::TraverseVisited, false);
            proof {
                assert(chain.take(j + 1) =~= chain.take(j as int).push(p));
                lemma_push_members(chain.take(j as int), p);
                assert(self@.nodes.dom() =~= v.nodes.dom());
            }
            j = j + 1;
        }
        proof {
            assert(chain.take(n as int) =~= chain);
            let w = v.visits_cleared(partition_id);
            assert(self@.nodes =~= w.nodes);
            assert(self@ =~= w);
            lemma_keeps_wf(v, self@);
        }
    }
}

impl<T: GcNode> GcHeap<T> {
    /// Submits the nodes that a node refers to.
    pub fn trace_node(&self, node: GcPtr, gcx: &mut GcTraceCtx)
        requires
            self@.live(node),
        ensures
            final(gcx)@ == old(gcx)@.add_all(refs_of(self@, node)),
    {
        match self.table.payload(node) {
            Some(t) => t.trace(gcx),
            None => {},
        }
    }

    /// Traverses the nodes that can be reached from `node` in depth-first order, marks them as
    /// visited and returns the visits in order, each with the node from which it was reached.
    /// Nodes that are marked already are not visited again. With a filter, only visits of nodes
    /// in that partition are returned.
    pub fn traverse(&mut self, node: GcPtr, filter: Option<GcPartitionId>) -> (r: Vec<Visit>)
        requires
            old(self).wf(),
            old(self)@.live(node),
        ensures
            final(self).wf(),
            (final(self)@, r@) == walk(old(self)@, seq![(node, None::<GcPtr>)], filter),
    {
        let ghost v = self@;
        let mut stack: Vec<Visit> = Vec::new();
        stack.push((node, None));
        let mut out: Vec<Visit> = Vec::new();
        let ghost first = seq![(node, None::<GcPtr>)];
        proof {
            assert(stack@ =~= first);
            assert(out@ + walk(v, first, filter).1 =~= walk(v, first, filter).1);
        }
        while stack.len() > 0
            invariant
                self.wf(),
                v.wf(),
                v.nodes.dom().finite(),
                keeps(v, self@),
                walk(self@, stack@, filter).0 == walk(v, first, filter).0,
                out@ + walk(self@, stack@, filter).1 == walk(v, first, filter).1,
            decreases self@.unvisited_nodes().len(), stack@.len(),
        {
            let ghost before = self@;
            let ghost all = stack@;
            let (current, parent) = match stack.pop() {
                Some(x) => x,
                None => (node, None),
            };
            assert(stack@ =~= all.drop_last());
            assert((current, parent) == all.last());
            if self.table.contains(current) && !self.table.head(current).traverse_visited() {
                proof {
                    lemma_visited_less(before, current);
                    lemma_with_head_keeps(
                        before,
                        current,
                        HeadView { visited: true, ..before.head(current) },
                    );
                    lemma_keeps_wf(before, before.with_visited(current));
                    lemma_keeps_trans(v, before, before.with_visited(current));
                }
                self.set_flag(current, GcNodeFlag::TraverseVisited, true);
                let pid: GcPartitionId = self.table.head(current).partition_id();
                let report: bool = match filter {
                    Some(f) => f == pid,
                    None => true,
                };
                let ghost w = self@;
                let ghost told = out@;
                let ghost end = walk(w, stack@ + next_visits(w, current), filter);
                if report {
                    out.push((current, parent));
                }
                proof {
                    assert(before.reported(filter, current) == report);
                    if report {
                        assert(out@ + end.1 =~= told + (seq![(current, parent)] + end.1));
                    }
                }
                self.push_visits(current, &mut stack);
            }
        }
        proof {
            assert(walk(self@, stack@, filter).1 =~= Seq::<Visit>::empty());
            assert(out@ + walk(self@, stack@, filter).1 =~= out@);
        }
        out
    }

    /// Puts the visits that tracing `current` adds on the stack.
    fn push_visits(&self, current: GcPtr, stack: &mut Vec<Visit>)
        requires
            self.wf(),
            self@.live(current),
        ensures
            final(stack)@ == old(stack)@ + next_visits(self@, current),
    {
        let ghost v = self@;
        let mut gcx = self.create_trace_ctx(64);
        self.trace_node(current, &mut gcx);
        let kids: Vec<GcPtr> = gcx.take_nodes();
        let ghost back = kids@.reverse();
        let ghost pred = |c: GcPtr| v.unvisited(c);
        let ghost start = stack@;
        let n: usize = kids.len();
        let mut m: usize = 0;
        proof {
            assert(kids@ == kids_of(v, current));
            assert(back.take(0).filter(pred) =~= Seq::<GcPtr>::empty());
            assert(stack@ =~= start + visits_to(back.take(0).filter(pred), current));
        }
        while m < n
            invariant
                n == kids@.len(),
                m <= n,
                v == self@,
                self.wf(),
                back == kids@.reverse(),
                pred == (|c: GcPtr| v.unvisited(c)),
                stack@ == start + visits_to(back.take(m as int).filter(pred), current),
            decreases n - m,
        {
            let child = kids[n - 1 - m];
            let ghost done = back.take(m as int).filter(pred);
            proof {
                assert(back[m as int] == child);
                assert(back.take(m + 1) =~= back.take(m as int).push(child));
                back.take(m as int).lemma_filter_push(child, pred);
            }
            if self.table.contains(child) && !self.table.head(child).traverse_visited() {
                stack.push((child, Some(current)));
                assert(stack@ =~= start + visits_to(done.push(child), current));
            }
            m = m + 1;
        }
        proof {
            assert(back.take(n as int) =~= back);
            assert(visits_to(back.filter(pred), current) =~= next_visits(v, current));
        }
    }
}

spec fn visits_to(list: Seq<GcPtr>, parent: GcPtr) -> Seq<Visit> {
    Seq::new(list.len(), |i: int| (list[i], Some(parent)))
}

} // verus!
