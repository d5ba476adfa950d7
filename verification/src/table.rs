//! The node table: every node of a heap, live or disposed of, occupies one slot of it.

use vstd::prelude::*;

use crate::node::{GcHead, GcPtr, HeadView};

verus! {

/// A node: its header, its payload until that is dropped, and its place in the arena of its
/// partition if it lies there.
#[verifier::ext_equal]
pub struct NodeView<T> {
    pub head: HeadView,
    pub payload: Option<T>,
    pub offset: Option<usize>,
}

struct Slot<T> {
    live: bool,
    head: GcHead,
    payload: Option<T>,
    offset: Option<usize>,
}

/// Owner of the nodes of a heap.
pub struct NodeTable<T> {
    id: u32,
    slots: Vec<Slot<T>>,
    free: Vec<usize>,
}

impl<T> View for NodeTable<T> {
    type V = Map<GcPtr, NodeView<T>>;

    /// The live nodes.
    closed spec fn view(&self) -> Map<GcPtr, NodeView<T>> {
        Map::new(
            |p: GcPtr| p.heap == self.id && p.slot < self.slots@.len() && self.slots@[p.slot as int].live,
            |p: GcPtr|
                NodeView {
                    head: self.slots@[p.slot as int].head@,
                    payload: self.slots@[p.slot as int].payload,
                    offset: self.slots@[p.slot as int].offset,
                },
        )
    }
}

proof fn lemma_slots_finite(id: u32, n: nat)
    ensures
        Set::new(|p: GcPtr| p.heap == id && p.slot < n).finite(),
    decreases n,
{
    let s = Set::new(|p: GcPtr| p.heap == id && p.slot < n);
    if n == 0 {
        assert(s =~= Set::empty());
    } else {
        lemma_slots_finite(id, (n - 1) as nat);
        let t = Set::new(|p: GcPtr| p.heap == id && p.slot < (n - 1) as nat);
        if n - 1 <= usize::MAX {
            assert(s =~= t.insert(GcPtr { heap: id, slot: (n - 1) as usize }));
        } else {
            assert(s =~= t);
        }
    }
}

impl<T> NodeTable<T> {
    /// Number of the heap that the table belongs to.
    pub closed spec fn id(&self) -> u32 {
        self.id
    }

    /// The headers are in order and the free slots are distinct and vacant.
    pub closed spec fn wf(&self) -> bool {
        &&& forall|i: int| 0 <= i < self.slots@.len() ==> (#[trigger] self.slots@[i]).head.wf()
        &&& forall|i: int|
            0 <= i < self.free@.len() ==> (#[trigger] self.free@[i]) < self.slots@.len()
                && !self.slots@[self.free@[i] as int].live
        &&& self.free@.no_duplicates()
    }

    /// The handles of live nodes carry the number of the heap; there are finitely many.
    pub proof fn lemma_dom(&self)
        ensures
            self@.dom().finite(),
            forall|p: GcPtr| #[trigger] self@.dom().contains(p) ==> p.heap == self.id(),
    {
        let all = Set::new(|p: GcPtr| p.heap == self.id && p.slot < self.slots@.len() as nat);
        lemma_slots_finite(self.id, self.slots@.len() as nat);
        vstd::set_lib::lemma_set_subset_finite(all, self@.dom());
    }

    /// An empty table.
    pub fn new(id: u32) -> (r: Self)
        ensures
            r.wf(),
            r.id() == id,
            r@ == Map::<GcPtr, NodeView<T>>::empty(),
    {
        let r = NodeTable { id, slots: Vec::new(), free: Vec::new() };
        assert(r@ =~= Map::<GcPtr, NodeView<T>>::empty());
        r
    }

    /// Number of the heap that the table belongs to.
    pub fn number(&self) -> (r: u32)
        ensures
            r == self.id(),
    {
        self.id
    }

    /// Tells whether the handle denotes a live node.
    pub fn contains(&self, p: GcPtr) -> (r: bool)
        ensures
            r == self@.dom().contains(p),
    {
        p.heap == self.id && p.slot < self.slots.len() && self.slots[p.slot].live
    }

    /// Adds a node, in a vacant slot where there is one.
    pub fn insert(&mut self, head: GcHead, payload: T, offset: Option<usize>) -> (p: GcPtr)
        requires
            old(self).wf(),
            head.wf(),
        ensures
            final(self).wf(),
            final(self).id() == old(self).id(),
            !old(self)@.dom().contains(p),
            p.heap == old(self).id(),
            final(self)@ == old(self)@.insert(
                p,
                NodeView { head: head@, payload: Some(payload), offset },
            ),
    {
        let ghost node = NodeView { head: head@, payload: Some(payload), offset };
        let slot: Slot<T> = Slot { live: true, head, payload: Some(payload), offset };
        let index: usize = match self.free.pop() {
            Some(i) => {
                assert(old(self).free@[old(self).free@.len() - 1] == i);
                self.slots[i] = slot;
                i
            },
            None => {
                let i: usize = self.slots.len();
                self.slots.push(slot);
                i
            },
        };
        let p = GcPtr { heap: self.id, slot: index };
        assert(self@ =~= old(self)@.insert(p, node));
        p
    }

    /// Removes a node and hands its payload out, if it still had one.
    pub fn remove(&mut self, p: GcPtr) -> (r: Option<T>)
        requires
            old(self).wf(),
            old(self)@.dom().contains(p),
        ensures
            final(self).wf(),
            final(self).id() == old(self).id(),
            final(self)@ == old(self)@.remove(p),
            r == old(self)@[p].payload,
    {
        let r: Option<T> = self.slots[p.slot].payload.take();
        self.slots[p.slot].live = false;
        self.free.push(p.slot);
        proof {
            assert(self@ =~= old(self)@.remove(p));
            assert forall|i: int| 0 <= i < self.free@.len() implies (#[trigger] self.free@[i])
                < self.slots@.len() && !self.slots@[self.free@[i] as int].live by {
                if i < old(self).free@.len() {
                    assert(old(self).free@[i] == self.free@[i]);
                }
            }
        }
        r
    }

    /// The header of a live node.
    pub fn head(&self, p: GcPtr) -> (r: &GcHead)
        requires
            self.wf(),
            self@.dom().contains(p),
        ensures
            r.wf(),
            r@ == self@[p].head,
    {
        &self.slots[p.slot].head
    }

    /// The header of a live node, to be changed.
    pub fn head_mut(&mut self, p: GcPtr) -> (r: &mut GcHead)
        requires
            old(self).wf(),
            old(self)@.dom().contains(p),
        ensures
            r.wf(),
            r@ == old(self)@[p].head,
            final(r).wf() ==> final(self).wf(),
            final(self).id() == old(self).id(),
            final(self)@ == old(self)@.insert(
                p,
                NodeView { head: final(r)@, ..old(self)@[p] },
            ),
    {
        &mut self.slots[p.slot].head
    }

    /// The payload of a live node; `None` once it was dropped.
    pub fn payload(&self, p: GcPtr) -> (r: Option<&T>)
        requires
            self@.dom().contains(p),
        ensures
            r is Some <==> self@[p].payload is Some,
            r matches Some(t) ==> self@[p].payload == Some(*t),
    {
        match &self.slots[p.slot].payload {
            Some(t) => Some(t),
            None => None,
        }
    }

    /// The payload of a live node, to be changed.
    pub fn payload_mut(&mut self, p: GcPtr) -> (r: Option<&mut T>)
        requires
            old(self).wf(),
            old(self)@.dom().contains(p),
        ensures
            final(self).wf(),
            final(self).id() == old(self).id(),
            r is Some <==> old(self)@[p].payload is Some,
            r matches Some(t) ==> old(self)@[p].payload == Some(*t) && final(self)@ == old(
                self,
            )@.insert(p, NodeView { payload: Some(*final(t)), ..old(self)@[p] }),
            r is None ==> final(self)@ == old(self)@,
    {
        match &mut self.slots[p.slot].payload {
            Some(t) => Some(t),
            None => None,
        }
    }

    /// Takes the payload out of a live node.
    pub fn take_payload(&mut self, p: GcPtr) -> (r: Option<T>)
        requires
            old(self).wf(),
            old(self)@.dom().contains(p),
        ensures
            final(self).wf(),
            final(self).id() == old(self).id(),
            r == old(self)@[p].payload,
            final(self)@ == old(self)@.insert(p, NodeView { payload: None, ..old(self)@[p] }),
    {
        let r: Option<T> = self.slots[p.slot].payload.take();
        assert(self@ =~= old(self)@.insert(p, NodeView { payload: None, ..old(self)@[p] }));
        r
    }

    /// Where a live node lies in the arena of its partition, if it does.
    pub fn offset(&self, p: GcPtr) -> (r: Option<usize>)
        requires
            self@.dom().contains(p),
        ensures
            r == self@[p].offset,
    {
        self.slots[p.slot].offset
    }
}

} // verus!
