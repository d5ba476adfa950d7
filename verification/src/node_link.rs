//! Chains of nodes.

use std::collections::VecDeque;

use vstd::prelude::*;

use crate::node::{GcHead, GcPtr, HeadView};
use crate::table::{NodeTable, NodeView};

verus! {

/// The members of `list` whose mark equals `want`, in order.
pub open spec fn select(list: Seq<GcPtr>, marks: Seq<bool>, want: bool) -> Seq<GcPtr>
    decreases list.len(),
{
    if list.len() == 0 {
        Seq::empty()
    } else {
        let rest = select(list.drop_last(), marks.drop_last(), want);
        if marks.last() == want {
            rest.push(list.last())
        } else {
            rest
        }
    }
}

/// The predicate, called with a header that reads `head`, may answer `verdict`.
pub open spec fn judged<F: Fn(&GcHead) -> bool>(
    predicate: F,
    head: HeadView,
    verdict: bool,
) -> bool {
    exists|h: &GcHead| h@ == head && #[trigger] call_ensures(predicate, (h,), verdict)
}

/// A chain of nodes; its first member is the head.
#[derive(Debug)]
pub struct GcNodeLink {
    link: VecDeque<GcPtr>,
}

impl View for GcNodeLink {
    type V = Seq<GcPtr>;

    closed spec fn view(&self) -> Seq<GcPtr> {
        self.link@
    }
}

impl Default for GcNodeLink {
    fn default() -> (r: Self)
        ensures
            r@ == Seq::<GcPtr>::empty(),
    {
        GcNodeLink { link: VecDeque::new() }
    }
}

impl GcNodeLink {
    /// The chain of the given nodes, head first.
    pub fn new(nodes: Vec<GcPtr>) -> (r: Self)
        ensures
            r@ == nodes@,
    {
        let mut link: VecDeque<GcPtr> = VecDeque::new();
        let mut i: usize = 0;
        while i < nodes.len()
            invariant
                i <= nodes@.len(),
                link@ == nodes@.take(i as int),
            decreases nodes@.len() - i,
        {
            link.push_back(nodes[i]);
            i = i + 1;
            assert(link@ =~= nodes@.take(i as int));
        }
        assert(nodes@.take(i as int) =~= nodes@);
        GcNodeLink { link }
    }

    /// The nodes of the chain, head first.
    pub fn into_inner(self) -> (r: Vec<GcPtr>)
        ensures
            r@ == self@,
    {
        self.to_vec()
    }

    /// The nodes of the chain, head first.
    pub fn to_vec(&self) -> (r: Vec<GcPtr>)
        ensures
            r@ == self@,
    {
        let mut out: Vec<GcPtr> = Vec::new();
        let mut i: usize = 0;
        while i < self.link.len()
            invariant
                i <= self.link@.len(),
                out@ == self.link@.take(i as int),
            decreases self.link@.len() - i,
        {
            out.push(self.link[i]);
            i = i + 1;
            assert(out@ =~= self.link@.take(i as int));
        }
        assert(self.link@.take(i as int) =~= self.link@);
        out
    }

    /// The first node.
    pub fn head(&self) -> (r: Option<GcPtr>)
        ensures
            r == (if self@.len() == 0 {
                None
            } else {
                Some(self@[0])
            }),
    {
        if self.link.len() == 0 {
            None
        } else {
            Some(self.link[0])
        }
    }

    /// The node at a position.
    pub fn get(&self, i: usize) -> (r: GcPtr)
        requires
            i < self@.len(),
        ensures
            r == self@[i as int],
    {
        self.link[i]
    }

    /// Puts a node before the head.
    pub fn prepend(&mut self, node: GcPtr)
        ensures
            final(self)@ == seq![node] + old(self)@,
    {
        self.link.push_front(node);
        assert(self@ =~= seq![node] + old(self)@);
    }

    /// A cursor at the head of the chain.
    #[inline(always)]
    pub fn iter(&self) -> (r: NodeLinkIter)
        ensures
            r@ == self@,
    {
        NodeLinkIter::new(self.to_vec())
    }

    /// Number of nodes.
    pub fn len(&self) -> (r: usize)
        ensures
            r == self@.len(),
    {
        self.link.len()
    }

    /// Tells whether the chain has no nodes.
    #[inline(always)]
    pub fn is_empty(&self) -> (r: bool)
        ensures
            r == (self@.len() == 0),
    {
        self.link.len() == 0
    }

    /// Tells whether the node is in the chain.
    pub fn contains(&self, node: GcPtr) -> (r: bool)
        ensures
            r == self@.contains(node),
    {
        let mut i: usize = 0;
        while i < self.link.len()
            invariant
                i <= self.link@.len(),
                forall|k: int| 0 <= k < i ==> self.link@[k] != node,
            decreases self.link@.len() - i,
        {
            if self.link[i] == node {
                assert(self@[i as int] == node);
                return true;
            }
            i = i + 1;
        }
        false
    }

    /// Removes the nodes whose headers satisfy `predicate` and returns them; both the kept and
    /// the removed nodes stay in order.
    pub fn filter_remove_with<T, F: Fn(&GcHead) -> bool>(
        &mut self,
        table: &NodeTable<T>,
        predicate: F,
    ) -> (r: Vec<GcPtr>)
        requires
            table.wf(),
            forall|k: int| 0 <= k < old(self)@.len() ==> table@.dom().contains(#[trigger] old(self)@[k]),
            forall|h: &GcHead| h.wf() ==> #[trigger] call_requires(predicate, (h,)),
        ensures
            exists|marks: Seq<bool>|
                {
                    &&& marks.len() == old(self)@.len()
                    &&& forall|k: int|
                        0 <= k < marks.len() ==> judged(
                            predicate,
                            table@[old(self)@[k]].head,
                            #[trigger] marks[k],
                        )
                    &&& r@ == #[trigger] select(old(self)@, marks, true)
                    &&& final(self)@ == select(old(self)@, marks, false)
                },
    {
        let mut removed: Vec<GcPtr> = Vec::new();
        let mut kept: VecDeque<GcPtr> = VecDeque::new();
        let ghost mut marks: Seq<bool> = Seq::empty();
        let mut i: usize = 0;
        while i < self.link.len()
            invariant
                i <= self.link@.len(),
                *self == *old(self),
                table.wf(),
                forall|k: int|
                    0 <= k < old(self)@.len() ==> table@.dom().contains(#[trigger] old(self)@[k]),
                forall|h: &GcHead| h.wf() ==> #[trigger] call_requires(predicate, (h,)),
                marks.len() == i,
                forall|k: int|
                    0 <= k < marks.len() ==> judged(
                        predicate,
                        table@[old(self)@[k]].head,
                        #[trigger] marks[k],
                    ),
                removed@ == select(self@.take(i as int), marks, true),
                kept@ == select(self@.take(i as int), marks, false),
            decreases self.link@.len() - i,
        {
            let node = self.link[i];
            assert(old(self)@[i as int] == node);
            let head = table.head(node);
            let hit: bool = predicate(head);
            proof {
                let grown = marks.push(hit);
                assert(grown.drop_last() =~= marks);
                assert(self@.take(i + 1).drop_last() =~= self@.take(i as int));
                assert forall|k: int| 0 <= k < grown.len() implies judged(
                    predicate,
                    table@[old(self)@[k]].head,
                    #[trigger] grown[k],
                ) by {
                    if k < marks.len() {
                        assert(marks[k] == grown[k]);
                    } else {
                        assert(call_ensures(predicate, (head,), hit));
                    }
                }
                marks = grown;
            }
            if hit {
                removed.push(node);
            } else {
                kept.push_back(node);
            }
            i = i + 1;
        }
        assert(self@.take(i as int) =~= self@);
        self.link = kept;
        removed
    }
}

/// A cursor over a chain.
pub struct NodeLinkIter {
    nodes: Vec<GcPtr>,
    at: usize,
}

impl View for NodeLinkIter {
    type V = Seq<GcPtr>;

    /// The nodes that are still to come.
    closed spec fn view(&self) -> Seq<GcPtr> {
        if self.at <= self.nodes@.len() {
            self.nodes@.skip(self.at as int)
        } else {
            Seq::empty()
        }
    }
}

impl NodeLinkIter {
    /// A cursor over the given nodes.
    pub fn new(nodes: Vec<GcPtr>) -> (r: Self)
        ensures
            r@ == nodes@,
    {
        let r = NodeLinkIter { nodes, at: 0 };
        assert(r@ =~= nodes@);
        r
    }

    /// The next node, and the cursor moves on; `None` at the end.
    pub fn next(&mut self) -> (r: Option<GcPtr>)
        ensures
            old(self)@.len() == 0 ==> r is None && final(self)@ == old(self)@,
            old(self)@.len() > 0 ==> r == Some(old(self)@[0]) && final(self)@ == old(
                self,
            )@.drop_first(),
    {
        if self.at < self.nodes.len() {
            let p = self.nodes[self.at];
            self.at = self.at + 1;
            assert(self@ =~= old(self)@.drop_first());
            Some(p)
        } else {
            None
        }
    }
}

/// A cursor over a chain that gives the headers out to be changed.
pub struct NodeLinkIterMut {
    iter: NodeLinkIter,
}

impl View for NodeLinkIterMut {
    type V = Seq<GcPtr>;

    /// The nodes that are still to come.
    closed spec fn view(&self) -> Seq<GcPtr> {
        self.iter@
    }
}

impl NodeLinkIterMut {
    /// A cursor over the given nodes.
    pub fn new(nodes: Vec<GcPtr>) -> (r: Self)
        ensures
            r@ == nodes@,
    {
        NodeLinkIterMut { iter: NodeLinkIter::new(nodes) }
    }

    /// The header of the next node, to be changed, and the cursor moves on; `None` at the end.
    pub fn next<'a, T>(&mut self, table: &'a mut NodeTable<T>) -> (r: Option<&'a mut GcHead>)
        requires
            old(table).wf(),
            forall|k: int|
                0 <= k < old(self)@.len() ==> old(table)@.dom().contains(#[trigger] old(self)@[k]),
        ensures
            old(self)@.len() == 0 ==> r is None && final(self)@ == old(self)@ && *final(table)
                == *old(table),
            old(self)@.len() > 0 ==> r is Some && final(self)@ == old(self)@.drop_first(),
            r matches Some(h) ==> {
                let p = old(self)@[0];
                &&& h.wf()
                &&& h@ == old(table)@[p].head
                &&& final(h).wf() ==> final(table).wf()
                &&& final(table).id() == old(table).id()
                &&& final(table)@ == old(table)@.insert(
                    p,
                    NodeView { head: final(h)@, ..old(table)@[p] },
                )
            },
    {
        match self.iter.next() {
            Some(p) => Some(table.head_mut(p)),
            None => None,
        }
    }
}

} // verus!
