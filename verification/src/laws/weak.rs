//! What weak references give back.

use vstd::prelude::*;

use crate::collecting::all_marked;
use crate::heap::weak::{first_vacant, next_version};
use crate::laws::collection::{law_sweep_exact, lemma_after_gc_marked};
use crate::lemmas::lemma_filter_members;
use crate::model::{HeapView, WeakSlotView};
use crate::node::{GcPartitionId, GcPtr};
use crate::sweeping::law_drop_order;
use crate::trace::GcNode;
use crate::weak_id::GcWeakRawId;

verus! {

/// A weak reference gives back live nodes only.
pub proof fn law_weak_live<T>(v: HeapView<T>, id: GcWeakRawId)
    requires
        v.wf(),
        v.upgraded(id) is Some,
    ensures
        v.live(v.upgraded(id).unwrap()),
        v.head(v.upgraded(id).unwrap()).weak.spec_index() == id.spec_index(),
        v.head(v.upgraded(id).unwrap()).weak.spec_version() == id.spec_version(),
{
    assert(v.weak[id.spec_index() as int].node is Some);
}

/// After nodes were disposed of, a weak reference gives back what it gave before, unless that is
/// one of them: then it gives nothing.
pub proof fn law_weak_disposed<T>(v: HeapView<T>, pid: int, gone: Seq<GcPtr>, id: GcWeakRawId)
    ensures
        v.disposed(pid, gone).upgraded(id) == match v.upgraded(id) {
            Some(p) => if gone.contains(p) {
                None
            } else {
                Some(p)
            },
            None => None,
        },
{
}

/// Weak references keep nothing alive and survive what they refer to: after a collection one
/// gives back its node if the node survived, and nothing else.
pub proof fn law_weak_collection<T: GcNode>(v: HeapView<T>, pid: GcPartitionId, id: GcWeakRawId)
    requires
        v.wf(),
        v.has_part(pid),
    ensures
        v.after_gc(pid).upgraded(id) == match v.upgraded(id) {
            Some(p) => if v.after_gc(pid).live(p) {
                Some(p)
            } else {
                None
            },
            None => None,
        },
{
    let i = pid.0 as int;
    let m = all_marked(v.restarted());
    lemma_after_gc_marked(v, pid);
    assert(m.upgraded(id) == v.upgraded(id));
    if v.upgraded(id) is Some {
        law_weak_live(m, id);
    }
    law_sweep_exact(m, i);
    let chain = m.parts[i].nodes;
    lemma_filter_members(chain, |p: GcPtr| m.dead(p));
    assert forall|k: int| 0 <= k < m.dead_nodes(i).len() implies m.head(
        #[trigger] m.dead_nodes(i)[k],
    ).dtype < m.reg.infos.len() by {
        let p = m.dead_nodes(i)[k];
        assert(m.dead_nodes(i).contains(p));
        let j = choose|j: int| 0 <= j < chain.len() && chain[j] == p;
        assert(m.live(m.parts[i].nodes[j]));
    }
    law_drop_order(m, m.dead_nodes(i));
    let gone = m.drop_order(m.dead_nodes(i));
    let u = m.unlinked(i);
    assert(u.upgraded(id) == m.upgraded(id));
    law_weak_disposed(u, i, gone, id);
    let w = v.after_gc(pid);
    assert(w.weak == u.disposed(i, gone).weak);
}

/// The position of the first vacant slot.
pub proof fn lemma_vacant(weak: Seq<WeakSlotView>)
    ensures
        0 <= first_vacant(weak) <= weak.len(),
        first_vacant(weak) < weak.len() ==> weak[first_vacant(weak)].node is None,
    decreases weak.len(),
{
    if weak.len() > 0 && weak[0].node is Some {
        lemma_vacant(weak.drop_first());
    }
}

/// A new weak reference leaves all others as they were. Its slot carries another version than it
/// did before, so a reference to the node that had the slot last does not come back to life.
pub proof fn law_weak_reuse<T>(v: HeapView<T>, p: GcPtr, id: GcWeakRawId, old_id: GcWeakRawId)
    requires
        v.wf(),
        v.live(p),
        id.spec_index() == first_vacant(v.weak),
        id.spec_version() == v.fresh_slot(p).version,
        old_id.spec_index() != id.spec_index() || old_id.spec_version() != id.spec_version(),
    ensures
        v.with_weak(p, id).upgraded(id) == Some(p),
        v.with_weak(p, id).upgraded(old_id) == v.upgraded(old_id),
        id.spec_index() < v.weak.len() ==> id.spec_version()
            != v.weak[id.spec_index() as int].version,
{
    lemma_vacant(v.weak);
    let k = first_vacant(v.weak);
    if k < v.weak.len() {
        assert(next_version(v.weak[k].version) != v.weak[k].version);
        assert(next_version(v.weak[k].version) != 0);
    }
}

} // verus!
