//! What weak references give back over any number of operations.

use vstd::prelude::*;

use crate::heap::weak::next_version;
use crate::laws::steps::{slot_follows, weak_follows};
use crate::model::{HeapView, WeakSlotView};
use crate::node::GcPtr;
use crate::weak_id::GcWeakRawId;

verus! {

/// How often slot `k` was taken into use again in the course of a history.
pub open spec fn reuses<T>(states: Seq<HeapView<T>>, k: int) -> nat
    decreases states.len(),
{
    if states.len() < 2 {
        0
    } else {
        let n = states.len() as int;
        let again = states[n - 2].weak[k].node is None && states[n - 1].weak[k].node is Some;
        reuses(states.drop_last(), k) + if again {
            1nat
        } else {
            0nat
        }
    }
}

/// The version after `n` uses more.
spec fn advanced(version: u16, n: nat) -> u16
    decreases n,
{
    if n == 0 {
        version
    } else {
        next_version(advanced(version, (n - 1) as nat))
    }
}

proof fn lemma_advanced(version: u16, n: nat)
    requires
        version != 0,
        n < 65535,
    ensures
        advanced(version, n) == (if version + n <= 65535 {
            version + n
        } else {
            version + n - 65535
        }),
    decreases n,
{
    if n > 0 {
        lemma_advanced(version, (n - 1) as nat);
    }
}

/// A weak reference, over any number of operations: it gives its node as long as the node was not
/// taken away, and nothing from then on, provided that its slot is not taken into use again as
/// often as there are versions. State `i + 1` of the history comes out of state `i` by an
/// operation that took the nodes of `gone[i]` away.
pub proof fn law_weak_history<T>(
    states: Seq<HeapView<T>>,
    gone: Seq<Seq<GcPtr>>,
    id: GcWeakRawId,
    p: GcPtr,
)
    requires
        states.len() == gone.len() + 1,
        states[0].upgraded(id) == Some(p),
        forall|i: int|
            0 <= i < gone.len() ==> weak_follows(states[i], states[i + 1], #[trigger] gone[i]),
        reuses(states, id.spec_index() as int) < 65535,
    ensures
        states.last().upgraded(id) == (if exists|i: int|
            0 <= i < gone.len() && (#[trigger] gone[i]).contains(p) {
            None
        } else {
            Some(p)
        }),
{
    let k = id.spec_index() as int;
    lemma_history(states, gone, id, p);
    lemma_advanced(id.spec_version(), reuses(states, k));
}

proof fn lemma_history<T>(
    states: Seq<HeapView<T>>,
    gone: Seq<Seq<GcPtr>>,
    id: GcWeakRawId,
    p: GcPtr,
)
    requires
        states.len() == gone.len() + 1,
        states[0].upgraded(id) == Some(p),
        forall|i: int|
            0 <= i < gone.len() ==> weak_follows(states[i], states[i + 1], #[trigger] gone[i]),
    ensures
        ({
            let k = id.spec_index() as int;
            let n = reuses(states, k);
            let slot = states.last().weak[k];
            &&& k < states.last().weak.len()
            &&& if exists|i: int| 0 <= i < gone.len() && (#[trigger] gone[i]).contains(p) {
                slot.version == advanced(id.spec_version(), n) && (n == 0 ==> slot.node is None)
            } else {
                n == 0 && slot == (WeakSlotView { version: id.spec_version(), node: Some(p) })
            }
        }),
    decreases states.len(),
{
    let k = id.spec_index() as int;
    if gone.len() > 0 {
        let n = gone.len() as int;
        let before = states.drop_last();
        let less = gone.drop_last();
        assert forall|i: int| 0 <= i < less.len() implies weak_follows(
            before[i],
            before[i + 1],
            #[trigger] less[i],
        ) by {
            assert(weak_follows(states[i], states[i + 1], gone[i]));
        }
        lemma_history(before, less, id, p);
        assert(weak_follows(states[n - 1], states[n], gone[n - 1]));
        let a = states[n - 1].weak[k];
        let b = states[n].weak[k];
        assert(before.last() == states[n - 1]);
        assert(slot_follows(a, b, gone[n - 1]));
        if exists|i: int| 0 <= i < less.len() && (#[trigger] less[i]).contains(p) {
            let i = choose|i: int| 0 <= i < less.len() && (#[trigger] less[i]).contains(p);
            assert(gone[i].contains(p));
        } else {
            if !gone[n - 1].contains(p) {
                assert forall|i: int| 0 <= i < gone.len() implies !(#[trigger] gone[i]).contains(
                    p,
                ) by {
                    if i < n - 1 {
                        assert(!less[i].contains(p));
                    }
                }
            }
        }
    }
}

} // verus!
