//! What a program may do between two marking cycles without harm to the next one.

use vstd::prelude::*;

use crate::model::{place, HeapView};
use crate::node::{GcPartitionId, GcPtr, GcTriColor, HeadView};
use crate::partition::fresh_part;
use crate::weak_id::GcWeakRawId;

verus! {

/// Being between two marking cycles depends on the chain, the marking state and the list marks of
/// a partition alone.
proof fn lemma_idle_same<T>(v: HeapView<T>, w: HeapView<T>, i: int)
    requires
        v.fresh(i),
        !w.parts[i].marking,
        w.parts[i].gray == v.parts[i].gray,
        w.parts[i].nodes == v.parts[i].nodes,
        w.nodes.dom() == v.nodes.dom(),
        forall|p: GcPtr| #[trigger] v.live(p) ==> w.pid(p) == v.pid(p),
        forall|p: GcPtr| #[trigger]
            v.live(p) && v.pid(p) == i ==> w.head(p).listed == v.head(p).listed,
    ensures
        w.fresh(i),
{
    assert forall|p: GcPtr| #[trigger] w.live(p) && w.pid(p) == i implies w.parts[i].nodes.contains(
        p,
    ) && !w.head(p).listed by {
        assert(v.live(p));
        assert(v.pid(p) == i);
    }
}

/// A new partition is between two marking cycles, and the others are as they were.
pub proof fn law_create_idle<T>(v: HeapView<T>, capacity: usize, max: usize, i: int)
    requires
        v.wf(),
        0 <= i <= v.parts.len(),
        i < v.parts.len() ==> v.fresh(i),
    ensures
        (HeapView { parts: v.parts.push(fresh_part(capacity, max)), ..v }).fresh(i),
{
    let w = HeapView { parts: v.parts.push(fresh_part(capacity, max)), ..v };
    assert forall|p: GcPtr| #[trigger] w.live(p) && w.pid(p) == i implies w.parts[i].nodes.contains(
        p,
    ) && !w.head(p).listed by {
        assert(v.live(p) && v.pid(p) == i);
        assert(i < v.parts.len());
    }
}

/// Allocating a node, in whatever partition, leaves a partition between two marking cycles.
pub proof fn law_alloc_idle<T>(
    v: HeapView<T>,
    p: GcPtr,
    pid: GcPartitionId,
    dtype: u8,
    payload: T,
    i: int,
)
    requires
        v.wf(),
        v.has_part(pid),
        !v.live(p),
        0 <= i < v.parts.len(),
        v.fresh(i),
    ensures
        v.allocated(p, pid, dtype, payload, false).attached(pid.0 as int, p).fresh(i),
        v.root_allocated(p, pid, dtype, payload).fresh(i),
{
    let k = pid.0 as int;
    let w = v.allocated(p, pid, dtype, payload, false).attached(k, p);
    lemma_new_idle(v, w, p, k, i);
    let a = v.allocated(p, pid, dtype, payload, true);
    let x = a.with_head(p, HeadView { root: true, ..a.head(p) }).attached(k, p);
    assert(x.nodes.dom() =~= v.nodes.dom().insert(p));
    lemma_new_idle(v, x, p, k, i);
    let r = v.root_allocated(p, pid, dtype, payload);
    if v.parts[k].marking {
        assert(k != i);
        assert(r.nodes.dom() =~= x.nodes.dom());
        lemma_idle_same(x, r, i);
    }
}

/// A heap with one node more, in the chain of its partition and without a list mark.
proof fn lemma_new_idle<T>(v: HeapView<T>, w: HeapView<T>, p: GcPtr, pid: int, i: int)
    requires
        0 <= i < v.parts.len(),
        0 <= pid < v.parts.len(),
        v.fresh(i),
        w.nodes.dom() == v.nodes.dom().insert(p),
        forall|q: GcPtr| #[trigger] v.live(q) && q != p ==> w.nodes[q] == v.nodes[q],
        w.pid(p) == pid,
        !w.head(p).listed,
        w.parts[i].gray == v.parts[i].gray,
        w.parts[i].marking == v.parts[i].marking,
        w.parts[i].nodes == (if i == pid {
            seq![p] + v.parts[i].nodes
        } else {
            v.parts[i].nodes
        }),
    ensures
        w.fresh(i),
{
    assert forall|q: GcPtr| #[trigger] w.live(q) && w.pid(q) == i implies w.parts[i].nodes.contains(
        q,
    ) && !w.head(q).listed by {
        if q == p {
            assert(w.parts[i].nodes[0] == p);
        } else {
            assert(v.live(q));
            assert(v.parts[i].nodes.contains(q));
            let k = choose|k: int| 0 <= k < v.parts[i].nodes.len() && v.parts[i].nodes[k] == q;
            if i == pid {
                assert(w.parts[i].nodes[k + 1] == q);
            }
        }
    }
}

/// Making a node a root, or stopping it from being one, leaves a partition between two marking
/// cycles.
pub proof fn law_root_idle<T>(v: HeapView<T>, p: GcPtr, i: int)
    requires
        v.wf(),
        v.live(p),
        0 <= i < v.parts.len(),
        v.fresh(i),
    ensures
        v.rooted(p).fresh(i),
        v.with_head(p, HeadView { root: false, ..v.head(p) }).fresh(i),
{
    let w = v.rooted(p);
    assert(w.nodes.dom() =~= v.nodes.dom());
    lemma_idle_same(v, w, i);
    let x = v.with_head(p, HeadView { root: false, ..v.head(p) });
    assert(x.nodes.dom() =~= v.nodes.dom());
    lemma_idle_same(v, x, i);
}

/// Adding a node to a scope leaves a partition between two marking cycles, if the node belongs to
/// the scope's partition or to another one than this.
pub proof fn law_scope_add_idle<T>(v: HeapView<T>, s: int, d: int, p: GcPtr, i: int)
    requires
        v.wf(),
        v.has_scope(s, d),
        v.live(p),
        0 <= i < v.parts.len(),
        v.fresh(i),
        v.pid(p) == i ==> v.stacks[s].scopes[d].partition.0 == i,
    ensures
        v.scope_added(s, d, p).fresh(i),
{
    let w = v.scope_added(s, d, p);
    assert(w.nodes.dom() =~= v.nodes.dom());
    lemma_idle_same(v, w, i);
}

/// Opening a scope leaves a partition between two marking cycles.
pub proof fn law_scope_open_idle<T>(v: HeapView<T>, s: int, i: int)
    requires
        0 <= s < v.stacks.len(),
        0 <= i < v.parts.len(),
        v.fresh(i),
    ensures
        v.scope_opened(s).fresh(i),
{
    lemma_idle_same(v, v.scope_opened(s), i);
}

/// Clearing a scope, and closing the innermost one of its stack, leaves a partition between two
/// marking cycles.
pub proof fn law_scope_close_idle<T>(v: HeapView<T>, s: int, d: int, i: int)
    requires
        v.has_scope(s, d),
        0 <= i < v.parts.len(),
        v.fresh(i),
    ensures
        v.scope_cleared(s, d).fresh(i),
        v.scope_popped(s).fresh(i),
{
    let c = v.scope_cleared(s, d);
    assert(c.nodes.dom() =~= v.nodes.dom());
    lemma_idle_same(v, c, i);
    let o = v.scope_popped(s);
    assert(o.nodes.dom() =~= v.nodes.dom());
    lemma_idle_same(v, o, i);
}

/// Taking a node out of a scope, or handing it on to another one, leaves a partition between two
/// marking cycles.
pub proof fn law_scope_take_idle<T>(
    v: HeapView<T>,
    s: int,
    d: int,
    k: int,
    s2: int,
    d2: int,
    i: int,
)
    requires
        v.wf(),
        v.has_scope(s, d),
        v.has_scope(s2, d2),
        0 <= k < v.scope_nodes(s, d).len(),
        0 <= i < v.parts.len(),
        v.fresh(i),
    ensures
        v.scope_removed(s, d, k).fresh(i),
        v.scope_moved(s, d, k, s2, d2).fresh(i),
{
    lemma_idle_same(v, v.scope_moved(s, d, k, s2, d2), i);
    let r = v.scope_removed(s, d, k);
    assert(v.live(place(v.stacks, s, d, k)));
    assert(r.nodes.dom() =~= v.nodes.dom());
    lemma_idle_same(v, r, i);
}

/// Writing to a node leaves a partition between two marking cycles: behind the write barrier,
/// unless the node is a black one of the partition, which goes on its gray list, or with the
/// reference made known afterwards.
pub proof fn law_write_idle<T>(v: HeapView<T>, p: GcPtr, slave: GcPtr, payload: T, i: int)
    requires
        v.wf(),
        v.live(p),
        v.live(slave),
        0 <= i < v.parts.len(),
        v.fresh(i),
    ensures
        v.pid(p) != i || v.color(p) != GcTriColor::Black ==> v.reopened(p).with_payload(
            p,
            Some(payload),
        ).fresh(i),
        v.with_payload(p, Some(payload)).bound(p, slave).fresh(i),
{
    let w = v.reopened(p).with_payload(p, Some(payload));
    assert(w.nodes.dom() =~= v.nodes.dom());
    if v.pid(p) != i || v.color(p) != GcTriColor::Black {
        lemma_idle_same(v, w, i);
    }
    let b = v.with_payload(p, Some(payload)).bound(p, slave);
    assert(b.nodes.dom() =~= v.nodes.dom());
    lemma_idle_same(v, b, i);
}

/// Making a weak reference leaves a partition between two marking cycles.
pub proof fn law_weak_idle<T>(v: HeapView<T>, p: GcPtr, id: GcWeakRawId, i: int)
    requires
        v.wf(),
        v.live(p),
        0 <= i < v.parts.len(),
        v.fresh(i),
    ensures
        v.with_weak(p, id).fresh(i),
{
    let w = v.with_weak(p, id);
    assert(w.nodes.dom() =~= v.nodes.dom());
    lemma_idle_same(v, w, i);
}

} // verus!
