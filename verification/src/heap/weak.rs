//! Weak references.

use vstd::prelude::*;

use crate::heap::{GcHeap, WeakSlot};
use crate::model::{is_place, place, HeapView, WeakSlotView};
use crate::node::{GcPtr, HeadView};
use crate::trace::GcRef;
use crate::weak_id::GcWeakRawId;

verus! {

/// A reference that does not keep its node from being collected.
#[derive(Debug)]
pub struct GcWeak<T> {
    weak_id: GcWeakRawId,
    marker: core::marker::PhantomData<T>,
}

impl<T> GcWeak<T> {
    /// The slot use that the reference names.
    pub closed spec fn id(self) -> GcWeakRawId {
        self.weak_id
    }

    /// The reference to slot `index` at version `version`.
    pub fn new(index: u16, version: u16) -> (r: Self)
        requires
            version > 0,
        ensures
            r.id().spec_index() == index,
            r.id().spec_version() == version,
    {
        GcWeak { weak_id: GcWeakRawId::new(index, version), marker: core::marker::PhantomData }
    }

    /// The reference with the given id.
    pub fn from_id(weak_id: GcWeakRawId) -> (r: Self)
        ensures
            r.id() == weak_id,
    {
        GcWeak { weak_id, marker: core::marker::PhantomData }
    }

    /// Index of the slot.
    #[inline(always)]
    pub fn index(&self) -> (r: u16)
        ensures
            r == self.id().spec_index(),
    {
        self.weak_id.index()
    }

    /// Version of the slot when the reference was made.
    #[inline(always)]
    pub fn version(&self) -> (r: u16)
        ensures
            r == self.id().spec_version(),
    {
        self.weak_id.version()
    }

    /// The node, if it is still there.
    #[inline(always)]
    pub fn upgrade(&self, heap: &GcHeap<T>) -> (r: Option<GcRef<T>>)
        ensures
            heap@.upgraded(self.id()) is Some <==> r is Some,
            r matches Some(g) ==> heap@.upgraded(self.id()) == Some(g.ptr()),
    {
        heap.upgrade(self)
    }
}

impl<T> Clone for GcWeak<T> {
    fn clone(&self) -> (r: Self)
        ensures
            r == *self,
    {
        *self
    }
}

impl<T> Copy for GcWeak<T> {

}

impl<T> Default for GcWeak<T> {
    /// The reference to no node.
    fn default() -> (r: Self)
        ensures
            r.id().spec_index() == 0,
            r.id().spec_version() == 0,
    {
        GcWeak { weak_id: GcWeakRawId::null(), marker: core::marker::PhantomData }
    }
}

impl<T> PartialEq for GcWeak<T> {
    fn eq(&self, other: &Self) -> (r: bool) {
        self.weak_id == other.weak_id
    }
}

impl<T> vstd::std_specs::cmp::PartialEqSpecImpl for GcWeak<T> {
    open spec fn obeys_eq_spec() -> bool {
        true
    }

    open spec fn eq_spec(&self, other: &Self) -> bool {
        self.id() == other.id()
    }
}

/// Position of the first vacant slot; the number of slots if none is vacant.
pub open spec fn first_vacant(weak: Seq<WeakSlotView>) -> int
    decreases weak.len(),
{
    if weak.len() == 0 {
        0
    } else if weak[0].node is None {
        0
    } else {
        1 + first_vacant(weak.drop_first())
    }
}

/// The version that follows `version`; versions start over at one.
pub open spec fn next_version(version: u16) -> u16 {
    if version == u16::MAX {
        1
    } else {
        (version + 1) as u16
    }
}

impl<T> HeapView<T> {
    /// The node that a weak id stands for, if it still stands for one.
    pub open spec fn upgraded(self, id: GcWeakRawId) -> Option<GcPtr> {
        if id.spec_version() != 0 && id.spec_index() < self.weak.len()
            && self.weak[id.spec_index() as int].version == id.spec_version() {
            self.weak[id.spec_index() as int].node
        } else {
            None
        }
    }

    /// The slot that a node without weak references gets.
    pub open spec fn fresh_slot(self, p: GcPtr) -> WeakSlotView {
        let k = first_vacant(self.weak);
        WeakSlotView {
            version: if k < self.weak.len() {
                next_version(self.weak[k].version)
            } else {
                1
            },
            node: Some(p),
        }
    }

    /// The heap after the node was given the weak id `id`.
    pub open spec fn with_weak(self, p: GcPtr, id: GcWeakRawId) -> HeapView<T> {
        let k = first_vacant(self.weak);
        HeapView {
            weak: if k < self.weak.len() {
                self.weak.update(k, self.fresh_slot(p))
            } else {
                self.weak.push(self.fresh_slot(p))
            },
            ..self.with_head(p, HeadView { weak: id, ..self.head(p) })
        }
    }
}

proof fn lemma_first_vacant(weak: Seq<WeakSlotView>, i: int)
    requires
        0 <= i <= weak.len(),
        forall|j: int| 0 <= j < i ==> (#[trigger] weak[j]).node is Some,
    ensures
        first_vacant(weak) == i + first_vacant(weak.skip(i)),
    decreases i,
{
    if i == 0 {
        assert(weak.skip(0) =~= weak);
    } else {
        lemma_first_vacant(weak, i - 1);
        assert(weak[i - 1].node is Some);
        assert(weak.skip(i - 1)[0] == weak[i - 1]);
        assert(weak.skip(i - 1).drop_first() =~= weak.skip(i));
    }
}

proof fn lemma_with_weak_wf<T>(v: HeapView<T>, p: GcPtr, id: GcWeakRawId)
    requires
        v.wf(),
        v.live(p),
        v.head(p).weak.spec_version() == 0,
        0 <= first_vacant(v.weak) <= v.weak.len(),
        first_vacant(v.weak) < v.weak.len() ==> v.weak[first_vacant(v.weak)].node is None,
        v.weak.len() < u16::MAX,
        id.spec_index() == first_vacant(v.weak),
        id.spec_version() == v.fresh_slot(p).version,
    ensures
        v.with_weak(p, id).wf(),
{
    let w = v.with_weak(p, id);
    let k0 = first_vacant(v.weak);
    let bare = HeapView { weak: v.weak, ..w };
    assert(w.nodes.dom() =~= v.nodes.dom());
    assert(w.nodes_ok()) by {
        assert forall|q: GcPtr| #[trigger] w.live(q) implies q.heap == w.id && w.pid(q)
            < w.parts.len() && w.head(q).dtype < w.reg.infos.len() by {
            assert(v.live(q));
        }
    }
    assert(w.chains_ok()) by {
        assert forall|k: int, m: int|
            0 <= k < w.parts.len() && 0 <= m < w.parts[k].nodes.len() implies w.live(
            #[trigger] w.parts[k].nodes[m],
        ) && w.pid(w.parts[k].nodes[m]) == k by {
            assert(v.live(v.parts[k].nodes[m]) && v.pid(v.parts[k].nodes[m]) == k);
        }
    }
    assert(w.weak_ok()) by {
        assert forall|q: GcPtr| #[trigger] w.live(q) && w.head(q).weak.spec_version()
            != 0 implies {
            let i = w.head(q).weak;
            &&& i.spec_index() < w.weak.len()
            &&& w.weak[i.spec_index() as int].version == i.spec_version()
            &&& w.weak[i.spec_index() as int].node == Some(q)
        } by {
            assert(v.live(q));
            if q != p {
                let i = v.head(q).weak;
                assert(v.weak[i.spec_index() as int].node == Some(q));
            }
        }
        assert forall|k: int| #![trigger w.weak[k]] 0 <= k < w.weak.len() implies (
        w.weak[k].node matches Some(q) ==> {
            &&& w.live(q)
            &&& w.head(q).weak.spec_index() == k
            &&& w.head(q).weak.spec_version() == w.weak[k].version
            &&& w.weak[k].version != 0
        }) by {
            if k != k0 {
                assert(v.weak[k] == w.weak[k]);
                if v.weak[k].node is Some {
                    let q = v.weak[k].node.unwrap();
                    assert(v.live(q) && v.head(q).weak.spec_version() == v.weak[k].version);
                    assert(q != p);
                }
            }
        }
    }
    assert(w.arenas_ok()) by {
        assert forall|q: GcPtr| #[trigger] w.live(q) implies {
            &&& w.head(q).arena <==> w.nodes[q].offset is Some
            &&& w.nodes[q].offset matches Some(o) ==> {
                &&& w.parts[w.pid(q)].arena matches Some(a)
                &&& o + crate::arena::taken(w.size(q)) <= a.capacity
            }
        } by {
            assert(v.live(q));
        }
    }
    assert(w.memory_ok()) by {
        assert forall|k: int| 0 <= k < w.parts.len() implies crate::model::bytes_of(
            w.nodes,
            w.reg.infos,
            k,
        ) <= (#[trigger] w.parts[k]).used by {
            crate::lemmas::lemma_bytes_same(v.nodes, w.nodes, v.reg.infos, k);
            assert(crate::model::bytes_of(v.nodes, v.reg.infos, k) <= v.parts[k].used);
        }
    }
    assert(w.scopes_ok()) by {
        assert forall|s: int, d: int, m: int| is_place(w.stacks, s, d, m) implies w.live(
            #[trigger] place(w.stacks, s, d, m),
        ) && w.head(place(w.stacks, s, d, m)).local by {
            assert(v.live(place(v.stacks, s, d, m)));
        }
    }
}

impl<T> GcHeap<T> {
    /// A weak reference to a node: the one that the node has, or else a new one in the first
    /// vacant slot.
    pub fn downgrade(&mut self, gc_ref: &GcRef<T>) -> (r: GcWeak<T>)
        requires
            old(self).wf(),
            old(self)@.live(gc_ref.ptr()),
            old(self)@.head(gc_ref.ptr()).weak.spec_version() == 0 ==> old(self)@.weak.len()
                < u16::MAX,
        ensures
            final(self).wf(),
            final(self)@.upgraded(r.id()) == Some(gc_ref.ptr()),
            old(self)@.head(gc_ref.ptr()).weak.spec_version() != 0 ==> r.id() == old(self)@.head(
                gc_ref.ptr(),
            ).weak && final(self)@ == old(self)@,
            old(self)@.head(gc_ref.ptr()).weak.spec_version() == 0 ==> {
                &&& r.id().spec_index() == first_vacant(old(self)@.weak)
                &&& r.id().spec_version() == old(self)@.fresh_slot(gc_ref.ptr()).version
                &&& final(self)@ == old(self)@.with_weak(gc_ref.ptr(), r.id())
            },
    {
        let ghost v = self@;
        let node = gc_ref.node_ptr();
        let existing: GcWeakRawId = self.table.head(node).weak_id();
        if !existing.is_null() {
            return GcWeak::from_id(existing);
        }
        let mut i: usize = 0;
        while i < self.weak_slots.len() && self.weak_slots[i].node.is_some()
            invariant
                i <= self.weak_slots@.len(),
                *self == *old(self),
                forall|j: int| 0 <= j < i ==> (#[trigger] self@.weak[j]).node is Some,
            decreases self.weak_slots@.len() - i,
        {
            assert(self@.weak[i as int] == self.weak_slots@[i as int]@);
            i = i + 1;
        }
        proof {
            lemma_first_vacant(v.weak, i as int);
            if i < v.weak.len() {
                assert(v.weak.skip(i as int)[0] == v.weak[i as int]);
                assert(v.weak[i as int] == self.weak_slots@[i as int]@);
            } else {
                assert(v.weak.skip(i as int).len() == 0);
            }
            assert(first_vacant(v.weak) == i);
        }
        let version: u16 = if i < self.weak_slots.len() {
            let current: u16 = self.weak_slots[i].version;
            if current == u16::MAX {
                1
            } else {
                current + 1
            }
        } else {
            1
        };
        let weak: GcWeak<T> = GcWeak::new(i as u16, version);
        let slot: WeakSlot = WeakSlot { version, node: Some(node) };
        if i < self.weak_slots.len() {
            self.weak_slots[i] = slot;
        } else {
            self.weak_slots.push(slot);
        }
        self.table.head_mut(node).set_weak_id(weak.weak_id);
        proof {
            let w = v.with_weak(node, weak.id());
            assert(self@.weak =~= w.weak);
            assert(self@ =~= w);
            lemma_with_weak_wf(v, node, weak.id());
        }
        weak
    }

    /// The node of a weak reference, if it is still there.
    pub fn upgrade(&self, weak_ref: &GcWeak<T>) -> (r: Option<GcRef<T>>)
        ensures
            self@.upgraded(weak_ref.id()) is Some <==> r is Some,
            r matches Some(g) ==> self@.upgraded(weak_ref.id()) == Some(g.ptr()),
    {
        if weak_ref.weak_id.is_null() {
            return None;
        }
        let i: usize = weak_ref.index() as usize;
        if i < self.weak_slots.len() {
            assert(self@.weak[i as int] == self.weak_slots@[i as int]@);
            if self.weak_slots[i].version == weak_ref.version() {
                match self.weak_slots[i].node {
                    Some(p) => Some(GcRef::from_ptr(p)),
                    None => None,
                }
            } else {
                None
            }
        } else {
            None
        }
    }
}

impl<T> GcRef<T> {
    /// A weak reference to the node.
    #[inline(always)]
    pub fn downgrade(&self, heap: &mut GcHeap<T>) -> (r: GcWeak<T>)
        requires
            old(heap).wf(),
            old(heap)@.live(self.ptr()),
            old(heap)@.head(self.ptr()).weak.spec_version() == 0 ==> old(heap)@.weak.len()
                < u16::MAX,
        ensures
            final(heap).wf(),
            final(heap)@.upgraded(r.id()) == Some(self.ptr()),
            old(heap)@.head(self.ptr()).weak.spec_version() != 0 ==> r.id() == old(heap)@.head(
                self.ptr(),
            ).weak && final(heap)@ == old(heap)@,
            old(heap)@.head(self.ptr()).weak.spec_version() == 0 ==> {
                &&& r.id().spec_index() == first_vacant(old(heap)@.weak)
                &&& r.id().spec_version() == old(heap)@.fresh_slot(self.ptr()).version
                &&& final(heap)@ == old(heap)@.with_weak(self.ptr(), r.id())
            },
    {
        heap.downgrade(self)
    }
}

} // verus!
