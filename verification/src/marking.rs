//! The marking algorithm on the heap model.

use vstd::prelude::*;

use crate::lemmas::{head_keeps, keeps, lemma_keeps_trans, part_keeps};
use crate::model::{HeapView, PartView};
use crate::node::{GcPartitionId, GcPtr, GcTriColor, HeadView};
use crate::table::NodeView;
use crate::trace::{lemma_with_nodes_members, with_nodes, GcTrace};

verus! {

/// The nodes that the payload of a node refers to; none once it was dropped.
pub open spec fn refs_of<T: GcTrace>(v: HeapView<T>, p: GcPtr) -> Seq<GcPtr> {
    match v.nodes[p].payload {
        Some(t) => t.refs(),
        None => Seq::empty(),
    }
}

/// The nodes that the payload of a node refers to, each of them once.
pub open spec fn kids_of<T: GcTrace>(v: HeapView<T>, p: GcPtr) -> Seq<GcPtr> {
    with_nodes(Seq::empty(), refs_of(v, p))
}

/// The live nodes among those referred to that are not black, the last one first.
pub open spec fn gray_kids<T: GcTrace>(v: HeapView<T>, p: GcPtr) -> Seq<GcPtr> {
    kids_of(v, p).reverse().filter(|c: GcPtr| v.markable(c))
}

impl<T> HeapView<T> {
    /// A live node that is not black.
    pub open spec fn markable(self, p: GcPtr) -> bool {
        self.live(p) && self.color(p) != GcTriColor::Black
    }

    /// A partition with the nodes of `list` that belong to it put on its gray list.
    pub open spec fn spread_part(self, list: Seq<GcPtr>, i: int) -> PartView {
        PartView {
            gray: self.parts[i].gray + list.filter(|c: GcPtr| self.pid(c) == i),
            ..self.parts[i]
        }
    }

    /// The heap after the nodes of `list` were made gray and put on the gray lists of their
    /// partitions.
    pub open spec fn spread(self, list: Seq<GcPtr>) -> HeapView<T> {
        HeapView {
            nodes: Map::new(
                |q: GcPtr| self.live(q),
                |q: GcPtr|
                    if list.contains(q) {
                        NodeView {
                            head: HeadView {
                                color: GcTriColor::Gray,
                                listed: true,
                                ..self.head(q)
                            },
                            ..self.nodes[q]
                        }
                    } else {
                        self.nodes[q]
                    },
            ),
            parts: Seq::new(self.parts.len(), |i: int| self.spread_part(list, i)),
            ..self
        }
    }

    /// The heap with the list mark of the node cleared, if it is live.
    pub open spec fn unlisted(self, p: GcPtr) -> HeapView<T> {
        if self.live(p) {
            self.with_head(p, HeadView { listed: false, ..self.head(p) })
        } else {
            self
        }
    }

    /// The heap after the last entry was taken off the gray list of a partition.
    pub open spec fn popped(self, pid: int) -> HeapView<T> {
        self.with_part(
            pid,
            PartView { gray: self.parts[pid].gray.drop_last(), ..self.parts[pid] },
        ).unlisted(self.parts[pid].gray.last())
    }

    /// The heap with an entry put on the gray list of a partition.
    pub open spec fn gray_pushed(self, pid: int, p: GcPtr) -> HeapView<T> {
        self.with_part(
            pid,
            PartView { gray: self.parts[pid].gray.push(p), ..self.parts[pid] },
        )
    }

    /// The heap after a node was submitted to the gray list of a partition: a node that is not
    /// black becomes gray, and is listed unless its list mark says that it is.
    pub open spec fn gray_added(self, pid: int, p: GcPtr) -> HeapView<T> {
        if self.color(p) == GcTriColor::Black {
            self
        } else {
            let head = HeadView { color: GcTriColor::Gray, listed: true, ..self.head(p) };
            if self.head(p).listed {
                self.with_head(p, head)
            } else {
                self.with_head(p, head).gray_pushed(pid, p)
            }
        }
    }

    /// Header of a node when a marking cycle begins: roots and nodes held by scopes are gray,
    /// and the others white unless the partition has entries left on its gray list.
    pub open spec fn prepared_head(self, p: GcPtr) -> HeadView {
        let part = self.parts[self.pid(p)];
        let head = self.head(p);
        let pending = part.gray.len() > 0;
        if !part.nodes.contains(p) {
            head
        } else if head.pinned() {
            HeadView { color: GcTriColor::Gray, listed: head.listed || pending, ..head }
        } else if pending {
            head
        } else {
            HeadView { color: GcTriColor::White, ..head }
        }
    }

    /// The node goes on the gray list when a marking cycle begins: it is a root or held by a
    /// scope, and if the list has entries left, it is not marked as one of them.
    pub open spec fn seeds(self, i: int, p: GcPtr) -> bool {
        self.pinned(p) && (self.parts[i].gray.len() > 0 ==> !self.head(p).listed)
    }

    /// Partition when a marking cycle begins: its roots and the nodes held by scopes are on its
    /// gray list.
    pub open spec fn prepared_part(self, i: int) -> PartView {
        let part = self.parts[i];
        PartView {
            marking: true,
            gray: part.gray + part.nodes.filter(|p: GcPtr| self.seeds(i, p)),
            ..part
        }
    }

    /// The heap after the first partitions, up to `n`, began a marking cycle.
    pub open spec fn prepared_upto(self, n: int) -> HeapView<T> {
        HeapView {
            nodes: Map::new(
                |p: GcPtr| self.live(p),
                |p: GcPtr|
                    if self.pid(p) < n {
                        NodeView { head: self.prepared_head(p), ..self.nodes[p] }
                    } else {
                        self.nodes[p]
                    },
            ),
            parts: Seq::new(
                self.parts.len(),
                |i: int|
                    if i < n {
                        self.prepared_part(i)
                    } else {
                        self.parts[i]
                    },
            ),
            ..self
        }
    }

    /// The heap after a marking cycle of a partition was begun. Nothing happens if there is no
    /// such partition or if it is marking already; else all partitions begin a cycle.
    pub open spec fn prepared(self, pid: GcPartitionId) -> HeapView<T> {
        if !self.has_part(pid) || self.parts[pid.0 as int].marking {
            self
        } else {
            self.prepared_upto(self.parts.len() as int)
        }
    }

    /// The heap after the marking cycle of a partition was given up: its gray list is empty and
    /// its nodes are white.
    pub open spec fn mark_dropped(self, pid: int) -> HeapView<T> {
        HeapView {
            nodes: Map::new(
                |p: GcPtr| self.live(p),
                |p: GcPtr|
                    NodeView {
                        head: HeadView {
                            color: if self.parts[pid].nodes.contains(p) {
                                GcTriColor::White
                            } else {
                                self.color(p)
                            },
                            listed: self.head(p).listed && !self.parts[pid].gray.contains(p),
                            ..self.head(p)
                        },
                        ..self.nodes[p]
                    },
            ),
            parts: self.parts.update(
                pid,
                PartView { gray: Seq::empty(), marking: false, ..self.parts[pid] },
            ),
            ..self
        }
    }
}

/// The heap after a gray node was traced: the nodes it refers to are gray, unless they are
/// black, and the node is black.
pub open spec fn expanded<T: GcTrace>(v: HeapView<T>, p: GcPtr) -> HeapView<T> {
    let w = v.spread(gray_kids(v, p));
    w.with_head(p, HeadView { color: GcTriColor::Black, ..w.head(p) })
}

/// Traces entries of the gray list of a partition, the last one first, until the list is empty
/// or `steps` gray nodes were traced and another one is at hand. Tells which of the two it was.
pub open spec fn mark_run<T: GcTrace>(v: HeapView<T>, pid: int, steps: nat) -> (HeapView<T>, bool)
    decreases steps, v.parts[pid].gray.len(),
{
    if !(0 <= pid < v.parts.len()) || v.parts[pid].gray.len() == 0 {
        (v, true)
    } else {
        let p = v.parts[pid].gray.last();
        let w = v.popped(pid);
        if !v.live(p) || v.color(p) != GcTriColor::Gray {
            mark_run(w, pid, steps)
        } else if steps == 0 {
            (w.gray_pushed(pid, p), false)
        } else {
            mark_run(expanded(w, p), pid, (steps - 1) as nat)
        }
    }
}

pub proof fn lemma_with_head_keeps<T>(v: HeapView<T>, p: GcPtr, head: HeadView)
    requires
        v.live(p),
        head_keeps(v.nodes[p], NodeView { head, ..v.nodes[p] }),
    ensures
        keeps(v, v.with_head(p, head)),
{
    assert(v.with_head(p, head).nodes.dom() =~= v.nodes.dom());
}

pub proof fn lemma_with_part_keeps<T>(v: HeapView<T>, pid: int, part: PartView)
    requires
        0 <= pid < v.parts.len(),
        part_keeps(v.parts[pid], part),
    ensures
        keeps(v, v.with_part(pid, part)),
{
}

pub proof fn lemma_popped_keeps<T>(v: HeapView<T>, pid: int)
    requires
        0 <= pid < v.parts.len(),
    ensures
        keeps(v, v.popped(pid)),
        v.popped(pid).parts[pid].gray == v.parts[pid].gray.drop_last(),
        v.popped(pid).parts.len() == v.parts.len(),
{
    let part = PartView { gray: v.parts[pid].gray.drop_last(), ..v.parts[pid] };
    let w = v.with_part(pid, part);
    lemma_with_part_keeps(v, pid, part);
    let p = v.parts[pid].gray.last();
    if v.live(p) {
        assert(w.live(p));
        lemma_with_head_keeps(w, p, HeadView { listed: false, ..w.head(p) });
        lemma_keeps_trans(v, w, v.popped(pid));
    }
}

pub proof fn lemma_spread_keeps<T>(v: HeapView<T>, list: Seq<GcPtr>)
    ensures
        keeps(v, v.spread(list)),
{
    assert(v.spread(list).nodes.dom() =~= v.nodes.dom());
}

pub proof fn lemma_expanded_keeps<T: GcTrace>(v: HeapView<T>, p: GcPtr)
    requires
        v.live(p),
    ensures
        keeps(v, expanded(v, p)),
{
    let w = v.spread(gray_kids(v, p));
    lemma_spread_keeps(v, gray_kids(v, p));
    assert(w.live(p));
    lemma_with_head_keeps(w, p, HeadView { color: GcTriColor::Black, ..w.head(p) });
    lemma_keeps_trans(v, w, expanded(v, p));
}

pub proof fn lemma_prepared_upto_keeps<T>(v: HeapView<T>, n: int)
    ensures
        keeps(v, v.prepared_upto(n)),
{
    assert(v.prepared_upto(n).nodes.dom() =~= v.nodes.dom());
}

pub proof fn lemma_prepared_keeps<T>(v: HeapView<T>, pid: GcPartitionId)
    ensures
        keeps(v, v.prepared(pid)),
{
    lemma_prepared_upto_keeps(v, v.parts.len() as int);
    assert(keeps(v, v));
}

pub proof fn lemma_mark_dropped_keeps<T>(v: HeapView<T>, pid: int)
    requires
        0 <= pid < v.parts.len(),
    ensures
        keeps(v, v.mark_dropped(pid)),
{
    assert(v.mark_dropped(pid).nodes.dom() =~= v.nodes.dom());
}

pub proof fn lemma_gray_added_keeps<T>(v: HeapView<T>, pid: int, p: GcPtr)
    requires
        0 <= pid < v.parts.len(),
        v.live(p),
    ensures
        keeps(v, v.gray_added(pid, p)),
{
    if v.color(p) != GcTriColor::Black {
        let head = HeadView { color: GcTriColor::Gray, listed: true, ..v.head(p) };
        let w = v.with_head(p, head);
        lemma_with_head_keeps(v, p, head);
        let part = PartView { gray: w.parts[pid].gray.push(p), ..w.parts[pid] };
        lemma_with_part_keeps(w, pid, part);
        lemma_keeps_trans(v, w, w.with_part(pid, part));
    }
}

pub proof fn lemma_mark_run_keeps<T: GcTrace>(v: HeapView<T>, pid: int, steps: nat)
    ensures
        keeps(v, mark_run(v, pid, steps).0),
    decreases steps, v.parts[pid].gray.len(),
{
    if 0 <= pid < v.parts.len() && v.parts[pid].gray.len() > 0 {
        let p = v.parts[pid].gray.last();
        let w = v.popped(pid);
        lemma_popped_keeps(v, pid);
        if !v.live(p) || v.color(p) != GcTriColor::Gray {
            lemma_mark_run_keeps(w, pid, steps);
            lemma_keeps_trans(v, w, mark_run(v, pid, steps).0);
        } else if steps == 0 {
            let part = PartView { gray: w.parts[pid].gray.push(p), ..w.parts[pid] };
            lemma_with_part_keeps(w, pid, part);
            lemma_keeps_trans(v, w, w.with_part(pid, part));
        } else {
            assert(w.live(p));
            let e = expanded(w, p);
            lemma_expanded_keeps(w, p);
            lemma_keeps_trans(v, w, e);
            lemma_mark_run_keeps(e, pid, (steps - 1) as nat);
            lemma_keeps_trans(v, e, mark_run(v, pid, steps).0);
        }
    }
}

/// The nodes a payload refers to are listed once each, forwards and backwards.
pub proof fn lemma_kids_distinct<T: GcTrace>(v: HeapView<T>, p: GcPtr)
    ensures
        kids_of(v, p).no_duplicates(),
        kids_of(v, p).reverse().no_duplicates(),
        forall|c: GcPtr| #[trigger] kids_of(v, p).contains(c) <==> refs_of(v, p).contains(c),
{
    lemma_with_nodes_members(Seq::empty(), refs_of(v, p));
}

/// Spreading one node more.
pub proof fn lemma_spread_push<T>(v: HeapView<T>, list: Seq<GcPtr>, c: GcPtr)
    requires
        v.live(c),
        0 <= v.pid(c) < v.parts.len(),
    ensures
        ({
            let w = v.spread(list);
            let head = HeadView { color: GcTriColor::Gray, listed: true, ..w.head(c) };
            v.spread(list.push(c)) == w.with_head(c, head).gray_pushed(v.pid(c), c)
        }),
{
    let w = v.spread(list);
    let head = HeadView { color: GcTriColor::Gray, listed: true, ..w.head(c) };
    let a = v.spread(list.push(c));
    let b = w.with_head(c, head).gray_pushed(v.pid(c), c);
    assert forall|q: GcPtr| list.push(c).contains(q) <==> list.contains(q) || q == c by {
        vstd::seq_lib::lemma_seq_contains_after_push(list, c, q);
        if list.contains(q) {
            let k = choose|k: int| 0 <= k < list.len() && list[k] == q;
            assert(list.push(c)[k] == q);
        }
        assert(list.push(c)[list.len() as int] == c);
    }
    assert(a.nodes =~= b.nodes);
    assert forall|i: int| 0 <= i < a.parts.len() implies a.parts[i] == b.parts[i] by {
        let pred = |x: GcPtr| v.pid(x) == i;
        list.lemma_filter_push(c, pred);
        if i == v.pid(c) {
            assert(a.parts[i].gray =~= v.parts[i].gray + list.filter(pred).push(c));
            assert(b.parts[i].gray =~= a.parts[i].gray);
        } else {
            assert(a.parts[i].gray =~= b.parts[i].gray);
        }
    }
    assert(a.parts =~= b.parts);
}

} // verus!
