//! Write barriers: what keeps a running marking cycle informed of new references.

use vstd::prelude::*;

use crate::heap::GcHeap;
use crate::lemmas::lemma_keeps_wf;
use crate::marking::lemma_with_head_keeps;
use crate::model::HeapView;
use crate::node::{GcPtr, GcTriColor, HeadView};
use crate::trace::GcRef;

verus! {

impl<T> HeapView<T> {
    /// The heap after a reference from `master` to `slave` was made known: below a black node a
    /// node that is not black becomes gray, and is put on the gray list in a marking cycle.
    pub open spec fn bound(self, master: GcPtr, slave: GcPtr) -> HeapView<T> {
        if self.color(master) == GcTriColor::Black && self.color(slave) != GcTriColor::Black {
            let w = self.with_head(
                slave,
                HeadView { color: GcTriColor::Gray, ..self.head(slave) },
            );
            if self.parts[self.pid(slave)].marking {
                w.gray_added(self.pid(slave), slave)
            } else {
                w
            }
        } else {
            self
        }
    }

    /// The heap after a node was announced to be written to: a black node becomes gray again and
    /// is put back on the gray list of its partition, in a marking cycle or not.
    pub open spec fn reopened(self, p: GcPtr) -> HeapView<T> {
        if self.color(p) == GcTriColor::Black {
            self.with_head(p, HeadView { color: GcTriColor::Gray, ..self.head(p) }).gray_added(
                self.pid(p),
                p,
            )
        } else {
            self
        }
    }
}

impl<T> GcHeap<T> {
    /// Makes a reference from `master` to `slave` known, to be called whenever one is stored.
    pub fn bind(&mut self, master: GcPtr, slave: GcPtr)
        requires
            old(self).wf(),
            old(self)@.live(master),
            old(self)@.live(slave),
        ensures
            final(self).wf(),
            final(self)@ == old(self)@.bound(master, slave),
    {
        let ghost v = self@;
        if self.table.head(master).color() == GcTriColor::Black && self.table.head(slave).color()
            != GcTriColor::Black {
            self.set_color(slave, GcTriColor::Gray);
            proof {
                lemma_with_head_keeps(
                    v,
                    slave,
                    HeadView { color: GcTriColor::Gray, ..v.head(slave) },
                );
                lemma_keeps_wf(v, self@);
            }
            if self.is_node_partition_marking(slave) {
                self.add_gray_node(slave);
            }
        }
    }

    /// Announces that a node is about to be written to.
    pub fn reopen(&mut self, node: GcPtr)
        requires
            old(self).wf(),
            old(self)@.live(node),
        ensures
            final(self).wf(),
            final(self)@ == old(self)@.reopened(node),
    {
        let ghost v = self@;
        if self.table.head(node).color() == GcTriColor::Black {
            self.set_color(node, GcTriColor::Gray);
            proof {
                lemma_with_head_keeps(
                    v,
                    node,
                    HeadView { color: GcTriColor::Gray, ..v.head(node) },
                );
                lemma_keeps_wf(v, self@);
            }
            self.add_gray_node(node);
        }
    }
}

/// Runs `mutator` on a value.
fn run_on<T, R, F: FnOnce(&mut T) -> R>(value: &mut T, mutator: F) -> (r: R)
    requires
        forall|m: &mut T| call_requires(mutator, (m,)),
    ensures
        exists|m: &mut T|
            *m == *old(value) && *final(m) == *final(value) && #[trigger] call_ensures(
                mutator,
                (m,),
                r,
            ),
{
    mutator(value)
}

impl<T> GcRef<T> {
    /// Runs `mutator` on the payload behind a write barrier and returns what it returned; `None`
    /// if the payload was dropped.
    pub fn with_mut<R, F: FnOnce(&mut T) -> R>(&self, heap: &mut GcHeap<T>, mutator: F) -> (r:
        Option<R>)
        requires
            old(heap).wf(),
            old(heap)@.live(self.ptr()),
            forall|m: &mut T| call_requires(mutator, (m,)),
        ensures
            final(heap).wf(),
            r is Some <==> old(heap)@.nodes[self.ptr()].payload is Some,
            r is None ==> final(heap)@ == old(heap)@.reopened(self.ptr()),
            r matches Some(x) ==> exists|m: &mut T|
                {
                    &&& old(heap)@.nodes[self.ptr()].payload == Some(*m)
                    &&& #[trigger] call_ensures(mutator, (m,), x)
                    &&& final(heap)@ == old(heap)@.reopened(self.ptr()).with_payload(
                        self.ptr(),
                        Some(*final(m)),
                    )
                },
    {
        let node = self.node_ptr();
        heap.reopen(node);
        let ghost before = heap@;
        assert(before.nodes[node].payload == old(heap)@.nodes[node].payload);
        let ghost mut written: Option<T> = None;
        let r: Option<R> = match heap.payload_mut(node) {
            Some(t) => {
                let x: R = run_on(t, mutator);
                proof {
                    written = Some(*t);
                    assert(exists|m: &mut T|
                        Some(*m) == before.nodes[node].payload && Some(*final(m)) == written
                            && #[trigger] call_ensures(mutator, (m,), x));
                }
                Some(x)
            },
            None => None,
        };
        proof {
            if r is Some {
                assert(heap@ == before.with_payload(node, written));
                let m = choose|m: &mut T|
                    Some(*m) == before.nodes[node].payload && Some(*final(m)) == written
                        && #[trigger] call_ensures(mutator, (m,), r.unwrap());
                assert(call_ensures(mutator, (m,), r.unwrap()));
                assert(heap@ == old(heap)@.reopened(node).with_payload(node, Some(*final(m))));
            }
        }
        r
    }
}

} // verus!
