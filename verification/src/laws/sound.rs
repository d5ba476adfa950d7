//! What every operation keeps: a partition is between two marking cycles or its colors are in
//! order.

use vstd::prelude::*;

use crate::laws::barrier::{
    law_alloc_shaded, law_alloc_tricolor, law_bind_shaded, law_bind_tricolor, law_root_tricolor,
    law_scope_tricolor, law_write_shaded, law_write_tricolor,
};
use crate::laws::idle::{law_alloc_idle, law_create_idle, law_write_idle};
use crate::laws::tricolor::{pins_shaded, shaded};
use crate::marking::refs_of;
use crate::model::{place, HeapView};
use crate::node::{GcPartitionId, GcPtr, GcTriColor, HeadView};
use crate::partition::fresh_part;
use crate::trace::{GcNode, GcTrace};
use crate::weak_id::GcWeakRawId;

verus! {

/// The colors of the partition are in order, and in a marking cycle the tri-color invariant
/// holds.
pub open spec fn steady<T: GcTrace>(v: HeapView<T>, i: int) -> bool {
    &&& v.all_chained(i)
    &&& shaded(v, i)
    &&& v.parts[i].marking ==> pins_shaded(v, i)
}

/// The partition is between two marking cycles, with nothing left over from the last one, or its
/// colors are in order.
pub open spec fn sound<T: GcTrace>(v: HeapView<T>, i: int) -> bool {
    v.fresh(i) || steady(v, i)
}

/// The node is a live node of the partition.
pub open spec fn inside<T>(v: HeapView<T>, i: int, p: GcPtr) -> bool {
    v.live(p) && v.pid(p) == i
}

/// Nothing changed that concerns a partition, except that nodes may have ceased to refer to others
/// and, in a marking cycle, to be roots or held by scopes.
pub open spec fn untouched<T: GcTrace>(v: HeapView<T>, w: HeapView<T>, i: int) -> bool {
    &&& w.parts[i].marking == v.parts[i].marking
    &&& w.parts[i].gray == v.parts[i].gray
    &&& w.parts[i].nodes == v.parts[i].nodes
    &&& forall|p: GcPtr| #[trigger] inside(w, i, p) <==> inside(v, i, p)
    &&& forall|p: GcPtr| #[trigger]
        inside(w, i, p) ==> {
            &&& w.color(p) == v.color(p)
            &&& w.head(p).listed == v.head(p).listed
            &&& v.parts[i].marking && w.pinned(p) ==> v.pinned(p)
            &&& w.nodes[p].payload == v.nodes[p].payload || w.nodes[p].payload is None
        }
}

/// No node to which a black node of the partition refers became white.
pub open spec fn unwhitened<T: GcTrace>(v: HeapView<T>, w: HeapView<T>, i: int) -> bool {
    forall|b: GcPtr| #[trigger]
        w.live(b) && w.color(b) == GcTriColor::White ==> (v.live(b) && v.color(b)
            == GcTriColor::White) || forall|a: GcPtr| #[trigger]
            inside(v, i, a) && v.color(a) == GcTriColor::Black ==> !refs_of(v, a).contains(b)
}

pub proof fn lemma_untouched_fresh<T: GcTrace>(v: HeapView<T>, w: HeapView<T>, i: int)
    requires
        v.fresh(i),
        untouched(v, w, i),
    ensures
        w.fresh(i),
{
    assert forall|p: GcPtr| #[trigger] w.live(p) && w.pid(p) == i implies w.parts[
        i
    ].nodes.contains(p) && !w.head(p).listed by {
        assert(inside(w, i, p));
        assert(inside(v, i, p));
        assert(v.live(p));
    }
}

pub proof fn lemma_untouched_steady<T: GcTrace>(v: HeapView<T>, w: HeapView<T>, i: int)
    requires
        steady(v, i),
        untouched(v, w, i),
        unwhitened(v, w, i),
    ensures
        steady(w, i),
{
    assert forall|p: GcPtr| #[trigger] w.live(p) && w.pid(p) == i implies w.parts[
        i
    ].nodes.contains(p) by {
        assert(inside(w, i, p));
        assert(inside(v, i, p));
        assert(v.live(p));
    }
    assert forall|a: GcPtr| #[trigger]
        w.live(a) && w.pid(a) == i && (w.color(a) == GcTriColor::Gray
            || w.head(a).listed) implies w.parts[i].gray.contains(a) by {
        assert(inside(w, i, a));
        assert(inside(v, i, a));
        assert(v.live(a));
    }
    assert forall|k: int| 0 <= k < w.parts[i].gray.len() implies {
        &&& w.live(#[trigger] w.parts[i].gray[k])
        &&& w.pid(w.parts[i].gray[k]) == i
        &&& w.color(w.parts[i].gray[k]) != GcTriColor::White
    } by {
        assert(v.live(v.parts[i].gray[k]));
        assert(inside(v, i, v.parts[i].gray[k]));
        assert(inside(w, i, w.parts[i].gray[k]));
    }
    if v.parts[i].marking {
        assert forall|a: GcPtr| #[trigger] w.live(a) && w.pid(a) == i && w.pinned(
            a,
        ) implies w.color(a) != GcTriColor::White by {
            assert(inside(w, i, a));
            assert(inside(v, i, a));
            assert(v.live(a));
        }
    }
    assert forall|a: GcPtr, b: GcPtr|
        w.live(a) && w.pid(a) == i && w.color(a) == GcTriColor::Black && w.live(b)
            && #[trigger] refs_of(w, a).contains(b) implies w.color(b) != GcTriColor::White by {
        assert(inside(w, i, a));
        assert(inside(v, i, a));
        assert(refs_of(v, a).contains(b));
        assert(w.live(b));
    }
}

pub proof fn lemma_untouched_sound<T: GcTrace>(v: HeapView<T>, w: HeapView<T>, i: int)
    requires
        sound(v, i),
        untouched(v, w, i),
        unwhitened(v, w, i),
    ensures
        sound(w, i),
        steady(v, i) ==> steady(w, i),
{
    if v.fresh(i) {
        lemma_untouched_fresh(v, w, i);
    }
    if steady(v, i) {
        lemma_untouched_steady(v, w, i);
    }
}

/// Adding a partition keeps the others sound, and the new one is sound and its colors are in
/// order.
pub proof fn law_create_sound<T: GcTrace>(v: HeapView<T>, capacity: usize, max: usize, i: int)
    requires
        v.wf(),
        0 <= i <= v.parts.len(),
        i < v.parts.len() ==> sound(v, i),
    ensures
        ({
            let w = HeapView { parts: v.parts.push(fresh_part(capacity, max)), ..v };
            &&& sound(w, i)
            &&& i == v.parts.len() || steady(v, i) ==> steady(w, i)
        }),
{
    let w = HeapView { parts: v.parts.push(fresh_part(capacity, max)), ..v };
    if i == v.parts.len() {
        law_create_idle(v, capacity, max, i);
        assert forall|p: GcPtr| #[trigger] w.live(p) && w.pid(p) == i implies false by {
            assert(v.live(p));
        }
    } else {
        lemma_untouched_sound(v, w, i);
    }
}

/// Allocating a node keeps every partition sound; where the colors are in order, no black node may
/// refer to the place where the new node was put.
pub proof fn law_alloc_sound<T: GcNode>(
    v: HeapView<T>,
    p: GcPtr,
    pid: GcPartitionId,
    payload: T,
    i: int,
)
    requires
        v.wf(),
        v.has_part(pid),
        !v.live(p),
        0 <= i < v.parts.len(),
        sound(v, i),
        steady(v, i) ==> forall|q: GcPtr| #[trigger]
            inside(v, i, q) && v.color(q) == GcTriColor::Black ==> !refs_of(v, q).contains(p),
    ensures
        ({
            let dtype = payload.spec_type_id();
            let w = v.allocated(p, pid, dtype, payload, false).attached(pid.0 as int, p);
            let r = v.root_allocated(p, pid, dtype, payload);
            &&& sound(w, i)
            &&& sound(r, i)
            &&& steady(v, i) ==> steady(w, i) && steady(r, i)
        }),
{
    let dtype = payload.spec_type_id();
    let k = pid.0 as int;
    let w = v.allocated(p, pid, dtype, payload, false).attached(k, p);
    let r = v.root_allocated(p, pid, dtype, payload);
    if k != i {
        if v.fresh(i) {
            lemma_untouched_fresh(v, w, i);
            lemma_untouched_fresh(v, r, i);
        }
        if steady(v, i) {
            lemma_untouched_steady(v, w, i);
            lemma_untouched_steady(v, r, i);
        }
    } else {
        if v.fresh(i) {
            law_alloc_idle(v, p, pid, dtype, payload, i);
        }
        if steady(v, i) {
            assert forall|q: GcPtr| #[trigger]
                v.live(q) && v.pid(q) == i && v.color(q) == GcTriColor::Black implies !refs_of(
                v,
                q,
            ).contains(p) by {
                assert(inside(v, i, q));
            }
            law_alloc_shaded(v, p, pid, payload);
            if v.parts[i].marking {
                law_alloc_tricolor(v, p, pid, payload);
            }
            lemma_new_chained(v, w, p, i);
            lemma_new_chained(v, r, p, i);
        }
    }
}

proof fn lemma_new_chained<T>(v: HeapView<T>, w: HeapView<T>, p: GcPtr, i: int)
    requires
        v.all_chained(i),
        w.parts[i].nodes == seq![p] + v.parts[i].nodes,
        forall|q: GcPtr| #[trigger] inside(w, i, q) ==> q == p || inside(v, i, q),
    ensures
        w.all_chained(i),
{
    assert forall|q: GcPtr| #[trigger] w.live(q) && w.pid(q) == i implies w.parts[i].nodes.contains(
        q,
    ) by {
        assert(inside(w, i, q));
        if q == p {
            assert(w.parts[i].nodes[0] == p);
        } else {
            assert(v.live(q));
            let k = choose|k: int| 0 <= k < v.parts[i].nodes.len() && v.parts[i].nodes[k] == q;
            assert(w.parts[i].nodes[k + 1] == q);
        }
    }
}

pub proof fn lemma_chained_same<T>(v: HeapView<T>, w: HeapView<T>, i: int)
    requires
        v.all_chained(i),
        w.parts[i].nodes == v.parts[i].nodes,
        forall|q: GcPtr| #[trigger] inside(w, i, q) ==> inside(v, i, q),
    ensures
        w.all_chained(i),
{
    assert forall|q: GcPtr| #[trigger] w.live(q) && w.pid(q) == i implies w.parts[i].nodes.contains(
        q,
    ) by {
        assert(inside(w, i, q));
        assert(v.live(q));
    }
}

/// Making a node a root, or stopping it from being one, keeps every partition sound.
pub proof fn law_root_sound<T: GcTrace>(v: HeapView<T>, p: GcPtr, i: int)
    requires
        v.wf(),
        v.live(p),
        0 <= i < v.parts.len(),
        sound(v, i),
    ensures
        sound(v.rooted(p), i),
        steady(v, i) ==> steady(v.rooted(p), i),
        sound(v.with_head(p, HeadView { root: false, ..v.head(p) }), i),
        steady(v, i) ==> steady(v.with_head(p, HeadView { root: false, ..v.head(p) }), i),
{
    lemma_untouched_sound(v, v.with_head(p, HeadView { root: false, ..v.head(p) }), i);
    let w = v.rooted(p);
    if v.pid(p) != i || !v.parts[i].marking {
        lemma_untouched_sound(v, w, i);
    } else {
        law_root_tricolor(v, p);
        lemma_chained_same(v, w, i);
    }
}

/// Adding a node to a scope keeps every partition sound, if the node belongs to the partition of
/// the scope.
pub proof fn law_scope_add_sound<T: GcTrace>(v: HeapView<T>, s: int, d: int, p: GcPtr, i: int)
    requires
        v.wf(),
        v.has_scope(s, d),
        v.live(p),
        v.stacks[s].scopes[d].partition.0 == v.pid(p),
        0 <= i < v.parts.len(),
        sound(v, i),
    ensures
        sound(v.scope_added(s, d, p), i),
        steady(v, i) ==> steady(v.scope_added(s, d, p), i),
{
    let w = v.scope_added(s, d, p);
    if v.pid(p) != i || !v.parts[i].marking {
        lemma_untouched_sound(v, w, i);
    } else {
        law_scope_tricolor(v, s, d, p);
        lemma_chained_same(v, w, i);
    }
}

/// Opening a scope keeps every partition sound.
pub proof fn law_scope_open_sound<T: GcTrace>(v: HeapView<T>, s: int, i: int)
    requires
        0 <= s < v.stacks.len(),
        0 <= i < v.parts.len(),
        sound(v, i),
    ensures
        sound(v.scope_opened(s), i),
        steady(v, i) ==> steady(v.scope_opened(s), i),
{
    lemma_untouched_sound(v, v.scope_opened(s), i);
}

/// Clearing a scope, and closing the innermost one of its stack, keeps every partition sound.
pub proof fn law_scope_close_sound<T: GcTrace>(v: HeapView<T>, s: int, d: int, i: int)
    requires
        v.has_scope(s, d),
        0 <= i < v.parts.len(),
        sound(v, i),
    ensures
        sound(v.scope_cleared(s, d), i),
        steady(v, i) ==> steady(v.scope_cleared(s, d), i),
        sound(v.scope_popped(s), i),
        steady(v, i) ==> steady(v.scope_popped(s), i),
{
    lemma_untouched_sound(v, v.scope_cleared(s, d), i);
    lemma_untouched_sound(v, v.scope_popped(s), i);
}

/// Taking a node out of a scope, or handing it on to another one, keeps every partition sound.
pub proof fn law_scope_take_sound<T: GcTrace>(
    v: HeapView<T>,
    s: int,
    d: int,
    k: int,
    s2: int,
    d2: int,
    i: int,
)
    requires
        v.wf(),
        v.has_scope(s, d),
        v.has_scope(s2, d2),
        0 <= k < v.scope_nodes(s, d).len(),
        0 <= i < v.parts.len(),
        sound(v, i),
    ensures
        sound(v.scope_removed(s, d, k), i),
        steady(v, i) ==> steady(v.scope_removed(s, d, k), i),
        sound(v.scope_moved(s, d, k, s2, d2), i),
        steady(v, i) ==> steady(v.scope_moved(s, d, k, s2, d2), i),
{
    assert(v.live(place(v.stacks, s, d, k)));
    lemma_untouched_sound(v, v.scope_removed(s, d, k), i);
    lemma_untouched_sound(v, v.scope_moved(s, d, k, s2, d2), i);
}

/// Writing to a node behind the write barrier keeps every partition sound. Where that puts a black
/// node on a gray list between two marking cycles, the colors must be in order: the next cycle
/// goes on from them.
pub proof fn law_write_sound<T: GcTrace>(v: HeapView<T>, p: GcPtr, payload: T, i: int)
    requires
        v.wf(),
        v.live(p),
        0 <= i < v.parts.len(),
        sound(v, i),
        v.pid(p) == i && v.color(p) == GcTriColor::Black ==> steady(v, i),
    ensures
        sound(v.reopened(p).with_payload(p, Some(payload)), i),
        steady(v, i) ==> steady(v.reopened(p).with_payload(p, Some(payload)), i),
{
    let w = v.reopened(p).with_payload(p, Some(payload));
    if v.pid(p) != i {
        lemma_untouched_sound(v, w, i);
    } else {
        if steady(v, i) {
            law_write_shaded(v, p, payload);
            if v.parts[i].marking {
                law_write_tricolor(v, p, payload);
            }
            lemma_chained_same(v, w, i);
        } else {
            law_write_idle(v, p, p, payload, i);
        }
    }
}

/// Storing a reference without the write barrier, and then making it known, keeps every partition
/// sound, whichever partition it leads to. Between two marking cycles a white node that becomes
/// gray is not put on a gray list: its partition must have nothing left over from the last cycle.
pub proof fn law_bind_sound<T: GcTrace>(
    v: HeapView<T>,
    master: GcPtr,
    slave: GcPtr,
    payload: T,
    i: int,
)
    requires
        v.wf(),
        v.live(master),
        v.live(slave),
        forall|q: GcPtr| #[trigger]
            payload.refs().contains(q) ==> refs_of(v, master).contains(q) || q == slave,
        0 <= i < v.parts.len(),
        sound(v, i),
        grays_unlisted(v, master, slave, i) ==> v.fresh(i),
    ensures
        sound(v.with_payload(master, Some(payload)).bound(master, slave), i),
        steady(v, i) && !grays_unlisted(v, master, slave, i) ==> steady(
            v.with_payload(master, Some(payload)).bound(master, slave),
            i,
        ),
{
    let w = v.with_payload(master, Some(payload)).bound(master, slave);
    if v.fresh(i) {
        law_write_idle(v, master, slave, payload, i);
    }
    if steady(v, i) && !grays_unlisted(v, master, slave, i) {
        law_bind_shaded(v, master, slave, payload, i);
        if v.parts[i].marking {
            law_bind_tricolor(v, master, slave, payload, i);
        }
        lemma_chained_same(v, w, i);
    }
}

/// Making the reference known turns a white node of the partition gray, between two cycles.
pub open spec fn grays_unlisted<T>(v: HeapView<T>, master: GcPtr, slave: GcPtr, i: int) -> bool {
    &&& v.pid(slave) == i
    &&& !v.parts[i].marking
    &&& v.color(master) == GcTriColor::Black
    &&& v.color(slave) == GcTriColor::White
}

/// Making a weak reference keeps every partition sound.
pub proof fn law_weak_sound<T: GcTrace>(v: HeapView<T>, p: GcPtr, id: GcWeakRawId, i: int)
    requires
        v.live(p),
        0 <= i < v.parts.len(),
        sound(v, i),
    ensures
        sound(v.with_weak(p, id), i),
        steady(v, i) ==> steady(v.with_weak(p, id), i),
{
    lemma_untouched_sound(v, v.with_weak(p, id), i);
}

/// Removing a partition, whose nodes are all in its chain, keeps the others sound; it is itself
/// between two cycles afterwards, with its colors in order.
pub proof fn law_remove_sound<T: GcTrace>(v: HeapView<T>, pid: GcPartitionId, i: int)
    requires
        v.wf(),
        v.has_part(pid),
        v.part_alone(pid),
        0 <= i < v.parts.len(),
        i != pid.0 ==> sound(v, i),
    ensures
        ({
            let k = pid.0 as int;
            let w = v.finalized(pid).released(k, v.parts[k].nodes);
            &&& sound(w, i)
            &&& i == k || steady(v, i) ==> steady(w, i)
        }),
{
    let k = pid.0 as int;
    let chain = v.parts[k].nodes;
    let f = v.finalized(pid);
    let w = f.released(k, chain);
    assert(f.nodes.dom() =~= v.nodes.dom());
    assert forall|p: GcPtr| #[trigger] w.live(p) <==> v.live(p) && !chain.contains(p) by {
        assert(chain.to_set().contains(p) <==> chain.contains(p));
    }
    if i == k {
        assert forall|p: GcPtr| #[trigger] w.live(p) && w.pid(p) == k implies false by {
            assert(v.live(p) && v.pid(p) == k);
        }
    } else {
        assert forall|p: GcPtr| #[trigger] inside(w, i, p) <==> inside(v, i, p) by {
            if inside(v, i, p) && chain.contains(p) {
                let j = choose|j: int| 0 <= j < chain.len() && chain[j] == p;
                assert(v.pid(v.parts[k].nodes[j]) == k);
            }
            assert(w.live(p) <==> v.live(p) && !chain.contains(p));
        }
        assert forall|p: GcPtr| #[trigger] inside(w, i, p) implies {
            &&& w.color(p) == v.color(p)
            &&& w.head(p).listed == v.head(p).listed
            &&& w.pinned(p) ==> v.pinned(p)
            &&& w.nodes[p].payload == v.nodes[p].payload
        } by {
            assert(inside(v, i, p));
            assert(w.live(p) <==> v.live(p) && !chain.contains(p));
        }
        lemma_untouched_sound(v, w, i);
    }
}

} // verus!
