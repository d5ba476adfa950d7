//! Depth-first traversal on the heap model.

use vstd::prelude::*;

use crate::marking::kids_of;
use crate::model::HeapView;
use crate::node::{GcPartitionId, GcPtr, HeadView};
use crate::table::NodeView;
use crate::trace::GcTrace;

verus! {

/// A visit: a node and the node from which it was reached.
pub type Visit = (GcPtr, Option<GcPtr>);

impl<T> HeapView<T> {
    /// The node is live and not visited yet.
    pub open spec fn unvisited(self, p: GcPtr) -> bool {
        self.live(p) && !self.head(p).visited
    }

    /// The heap with a node marked as visited.
    pub open spec fn with_visited(self, p: GcPtr) -> HeapView<T> {
        self.with_head(p, HeadView { visited: true, ..self.head(p) })
    }

    /// The nodes that are not visited yet.
    pub open spec fn unvisited_nodes(self) -> Set<GcPtr> {
        self.nodes.dom().filter(|p: GcPtr| self.unvisited(p))
    }

    /// Visits of nodes in this partition are reported.
    pub open spec fn reported(self, filter: Option<GcPartitionId>, p: GcPtr) -> bool {
        filter is None || filter == Some(self.head(p).partition)
    }

    /// The heap after the traversal marks of the nodes of a partition were cleared.
    pub open spec fn visits_cleared(self, pid: GcPartitionId) -> HeapView<T> {
        if self.has_part(pid) {
            HeapView {
                nodes: Map::new(
                    |p: GcPtr| self.live(p),
                    |p: GcPtr|
                        NodeView {
                            head: HeadView {
                                visited: self.head(p).visited
                                    && !self.parts[pid.0 as int].nodes.contains(p),
                                ..self.head(p)
                            },
                            ..self.nodes[p]
                        },
                ),
                ..self
            }
        } else {
            self
        }
    }
}

/// The visits that tracing `p` adds: the nodes it refers to that are not visited, the last one
/// first.
pub open spec fn next_visits<T: GcTrace>(v: HeapView<T>, p: GcPtr) -> Seq<Visit> {
    let kids = kids_of(v, p).reverse().filter(|c: GcPtr| v.unvisited(c));
    Seq::new(kids.len(), |i: int| (kids[i], Some(p)))
}

/// Depth-first traversal: takes the last visit of `stack`, and if its node is not visited,
/// reports it and goes on with the nodes it refers to, before the rest of the stack. Gives the
/// heap at the end and the reported visits.
pub open spec fn walk<T: GcTrace>(
    v: HeapView<T>,
    stack: Seq<Visit>,
    filter: Option<GcPartitionId>,
) -> (HeapView<T>, Seq<Visit>)
    decreases v.unvisited_nodes().len(), stack.len(),
    when v.nodes.dom().finite()
{
    if stack.len() == 0 {
        (v, Seq::empty())
    } else {
        let (p, parent) = stack.last();
        let rest = stack.drop_last();
        if !v.unvisited(p) {
            walk(v, rest, filter)
        } else {
            proof {
                lemma_visited_less(v, p);
            }
            let w = v.with_visited(p);
            let (end, out) = walk(w, rest + next_visits(w, p), filter);
            if v.reported(filter, p) {
                (end, seq![(p, parent)] + out)
            } else {
                (end, out)
            }
        }
    }
}

/// Visiting a node leaves one node less to visit.
pub proof fn lemma_visited_less<T>(v: HeapView<T>, p: GcPtr)
    requires
        v.nodes.dom().finite(),
        v.unvisited(p),
    ensures
        v.with_visited(p).nodes.dom() == v.nodes.dom(),
        v.with_visited(p).unvisited_nodes().len() < v.unvisited_nodes().len(),
{
    let w = v.with_visited(p);
    assert(w.nodes.dom() =~= v.nodes.dom());
    assert(w.unvisited_nodes() =~= v.unvisited_nodes().remove(p));
    assert(v.unvisited_nodes().contains(p));
}

} // verus!
