//! What a program may do during a marking cycle without harm to it.

use vstd::prelude::*;

use crate::laws::tricolor::{pins_shaded, shaded, tricolor};
use crate::lemmas::lemma_push_members;
use crate::marking::{lemma_gray_added_keeps, refs_of};
use crate::model::HeapView;
use crate::node::{GcPartitionId, GcPtr, GcTriColor, HeadView};
use crate::trace::{GcNode, GcTrace};

verus! {

/// Submitting a node to the gray list of its partition keeps the colors in order, there and in
/// every other partition, and the node is then not white. It does not matter whether the node was
/// white, or a root, before.
proof fn lemma_submit_shaded<T: GcTrace>(
    v: HeapView<T>,
    w: HeapView<T>,
    pid: int,
    p: GcPtr,
    other: int,
)
    requires
        0 <= pid < v.parts.len(),
        0 <= other < v.parts.len(),
        shaded(v, other),
        v.live(p),
        v.pid(p) == pid,
        w.parts == v.parts,
        w.nodes.dom() == v.nodes.dom(),
        forall|q: GcPtr| #[trigger] v.live(q) && q != p ==> w.nodes[q] == v.nodes[q],
        w.nodes[p].payload == v.nodes[p].payload,
        w.pid(p) == pid,
        w.head(p).listed == v.head(p).listed,
        w.color(p) == v.color(p) || w.color(p) == GcTriColor::Gray,
    ensures
        shaded(w.gray_added(pid, p), other),
        w.gray_added(pid, p).color(p) != GcTriColor::White,
{
    let e = w.gray_added(pid, p);
    lemma_gray_added_keeps(w, pid, p);
    lemma_push_members(w.parts[pid].gray, p);
    assert forall|a: GcPtr| #[trigger]
        e.live(a) && e.pid(a) == other && (e.color(a) == GcTriColor::Gray
            || e.head(a).listed) implies e.parts[other].gray.contains(a) by {
        assert(v.live(a));
    }
    assert forall|k: int| 0 <= k < e.parts[other].gray.len() implies {
        &&& e.live(#[trigger] e.parts[other].gray[k])
        &&& e.pid(e.parts[other].gray[k]) == other
        &&& e.color(e.parts[other].gray[k]) != GcTriColor::White
    } by {
        if k < v.parts[other].gray.len() {
            assert(v.live(v.parts[other].gray[k]));
        }
    }
    assert forall|a: GcPtr, b: GcPtr|
        e.live(a) && e.pid(a) == other && e.color(a) == GcTriColor::Black && e.live(b)
            && #[trigger] refs_of(e, a).contains(b) implies e.color(b) != GcTriColor::White by {
        assert(v.live(a) && v.live(b));
        assert(refs_of(v, a).contains(b));
    }
}

/// A node outside the partition that becomes gray does no harm to it.
proof fn lemma_grayed_shaded<T: GcTrace>(v: HeapView<T>, p: GcPtr, other: int)
    requires
        0 <= other < v.parts.len(),
        shaded(v, other),
        v.live(p),
        v.pid(p) != other,
    ensures
        shaded(v.with_head(p, HeadView { color: GcTriColor::Gray, ..v.head(p) }), other),
{
    let e = v.with_head(p, HeadView { color: GcTriColor::Gray, ..v.head(p) });
    assert(e.nodes.dom() =~= v.nodes.dom());
    assert forall|a: GcPtr| #[trigger]
        e.live(a) && e.pid(a) == other && (e.color(a) == GcTriColor::Gray
            || e.head(a).listed) implies e.parts[other].gray.contains(a) by {
        assert(v.live(a));
    }
    assert forall|k: int| 0 <= k < e.parts[other].gray.len() implies {
        &&& e.live(#[trigger] e.parts[other].gray[k])
        &&& e.pid(e.parts[other].gray[k]) == other
        &&& e.color(e.parts[other].gray[k]) != GcTriColor::White
    } by {
        assert(v.live(v.parts[other].gray[k]));
    }
    assert forall|a: GcPtr, b: GcPtr|
        e.live(a) && e.pid(a) == other && e.color(a) == GcTriColor::Black && e.live(b)
            && #[trigger] refs_of(e, a).contains(b) implies e.color(b) != GcTriColor::White by {
        assert(v.live(a) && v.live(b));
        assert(refs_of(v, a).contains(b));
    }
}

/// Making a node of a marking partition a root keeps the tri-color invariant.
pub proof fn law_root_tricolor<T: GcTrace>(v: HeapView<T>, p: GcPtr)
    requires
        v.wf(),
        v.live(p),
        v.parts[v.pid(p)].marking,
        tricolor(v, v.pid(p)),
    ensures
        tricolor(v.rooted(p), v.pid(p)),
{
    if !v.head(p).root {
        let w = v.with_head(p, HeadView { root: true, ..v.head(p) });
        assert(w.nodes.dom() =~= v.nodes.dom());
        lemma_submit_shaded(v, w, v.pid(p), p, v.pid(p));
        lemma_pins_kept(v, v.rooted(p), v.pid(p), p);
    }
}

/// What was not white stays so, and one more node that is not white may be pinned.
proof fn lemma_pins_kept<T>(v: HeapView<T>, w: HeapView<T>, pid: int, p: GcPtr)
    requires
        pins_shaded(v, pid),
        w.live(p) && w.pid(p) == pid && w.pinned(p) ==> w.color(p) != GcTriColor::White,
        forall|q: GcPtr| #[trigger]
            w.live(q) && w.pid(q) == pid && q != p && w.pinned(q) ==> v.live(q) && v.pid(q) == pid
                && v.pinned(q) && (w.color(q) == v.color(q) || w.color(q) != GcTriColor::White),
    ensures
        pins_shaded(w, pid),
{
    assert forall|a: GcPtr| #[trigger] w.live(a) && w.pid(a) == pid && w.pinned(a) implies w.color(
        a,
    ) != GcTriColor::White by {
        if a != p {
            assert(v.live(a));
        }
    }
}

/// Adding a node to a scope of its own partition, in a marking cycle, keeps the tri-color
/// invariant.
pub proof fn law_scope_tricolor<T: GcTrace>(v: HeapView<T>, s: int, d: int, p: GcPtr)
    requires
        v.wf(),
        v.has_scope(s, d),
        v.live(p),
        v.stacks[s].scopes[d].partition.0 == v.pid(p),
        v.parts[v.pid(p)].marking,
        tricolor(v, v.pid(p)),
    ensures
        tricolor(v.scope_added(s, d, p), v.pid(p)),
{
    let w = v.with_local(p, true);
    assert(w.nodes.dom() =~= v.nodes.dom());
    lemma_submit_shaded(v, w, v.pid(p), p, v.pid(p));
    let e = w.gray_added(v.pid(p), p);
    let x = v.scope_added(s, d, p);
    assert(x.nodes == e.nodes && x.parts == e.parts);
    lemma_same_shaded(e, x, v.pid(p));
    lemma_pins_kept(v, x, v.pid(p), p);
}

/// The invariant depends on the nodes and the gray list alone.
proof fn lemma_same_shaded<T: GcTrace>(v: HeapView<T>, w: HeapView<T>, pid: int)
    requires
        shaded(v, pid),
        w.nodes == v.nodes,
        w.parts[pid].gray == v.parts[pid].gray,
    ensures
        shaded(w, pid),
{
    assert forall|a: GcPtr| #[trigger]
        w.live(a) && w.pid(a) == pid && (w.color(a) == GcTriColor::Gray
            || w.head(a).listed) implies w.parts[pid].gray.contains(a) by {
        assert(v.live(a));
    }
    assert forall|k: int| 0 <= k < w.parts[pid].gray.len() implies {
        &&& w.live(#[trigger] w.parts[pid].gray[k])
        &&& w.pid(w.parts[pid].gray[k]) == pid
        &&& w.color(w.parts[pid].gray[k]) != GcTriColor::White
    } by {
        assert(v.live(v.parts[pid].gray[k]));
    }
    assert forall|a: GcPtr, b: GcPtr|
        w.live(a) && w.pid(a) == pid && w.color(a) == GcTriColor::Black && w.live(b)
            && #[trigger] refs_of(w, a).contains(b) implies w.color(b) != GcTriColor::White by {
        assert(refs_of(v, a).contains(b));
    }
}

/// Whatever is written to a node behind the write barrier, in a marking cycle or between two, the
/// colors of its partition stay in order.
pub proof fn law_write_shaded<T: GcTrace>(v: HeapView<T>, p: GcPtr, payload: T)
    requires
        v.wf(),
        v.live(p),
        shaded(v, v.pid(p)),
    ensures
        shaded(v.reopened(p).with_payload(p, Some(payload)), v.pid(p)),
{
    let pid = v.pid(p);
    let m = v.reopened(p);
    if v.color(p) == GcTriColor::Black {
        let w = v.with_head(p, HeadView { color: GcTriColor::Gray, ..v.head(p) });
        assert(w.nodes.dom() =~= v.nodes.dom());
        lemma_submit_shaded(v, w, pid, p, pid);
        lemma_gray_added_keeps(w, pid, p);
    }
    assert(m.live(p) && m.color(p) != GcTriColor::Black);
    lemma_reference_shaded(m, m.with_payload(p, Some(payload)), pid, p);
}

/// Whatever is written to a node of a marking partition behind the write barrier, the tri-color
/// invariant is kept.
pub proof fn law_write_tricolor<T: GcTrace>(v: HeapView<T>, p: GcPtr, payload: T)
    requires
        v.wf(),
        v.live(p),
        tricolor(v, v.pid(p)),
    ensures
        tricolor(v.reopened(p).with_payload(p, Some(payload)), v.pid(p)),
{
    law_write_shaded(v, p, payload);
    lemma_pins_kept(v, v.reopened(p).with_payload(p, Some(payload)), v.pid(p), p);
}

/// A reference from `master` to `slave` that is written without the write barrier, and then made
/// known with `bind`, does no harm, whichever partitions the two belong to: the colors of a
/// partition are in order afterwards. (Between two marking cycles `bind` makes a white node gray
/// without putting it on the gray list: that partition is left out.)
pub proof fn law_bind_shaded<T: GcTrace>(
    v: HeapView<T>,
    master: GcPtr,
    slave: GcPtr,
    payload: T,
    other: int,
)
    requires
        v.wf(),
        v.live(master),
        v.live(slave),
        0 <= other < v.parts.len(),
        shaded(v, other),
        v.pid(slave) == other && !v.parts[other].marking && v.color(master) == GcTriColor::Black
            ==> v.color(slave) != GcTriColor::White,
        forall|q: GcPtr| #[trigger]
            payload.refs().contains(q) ==> refs_of(v, master).contains(q) || q == slave,
    ensures
        shaded(v.with_payload(master, Some(payload)).bound(master, slave), other),
{
    let m = v.with_payload(master, Some(payload));
    let e = m.bound(master, slave);
    assert(m.nodes.dom() =~= v.nodes.dom());
    let known = v.bound(master, slave);
    if v.color(master) == GcTriColor::Black && v.color(slave) != GcTriColor::Black {
        let w = v.with_head(slave, HeadView { color: GcTriColor::Gray, ..v.head(slave) });
        assert(w.nodes.dom() =~= v.nodes.dom());
        if v.parts[v.pid(slave)].marking {
            lemma_submit_shaded(v, w, v.pid(slave), slave, other);
            lemma_gray_added_keeps(w, v.pid(slave), slave);
        } else if v.pid(slave) != other {
            lemma_grayed_shaded(v, slave, other);
        } else {
            assert(w.nodes =~= v.nodes);
            assert(w =~= v);
        }
    }
    assert(shaded(known, other));
    assert(known.nodes[master].payload == v.nodes[master].payload);
    assert(e.nodes =~= known.with_payload(master, Some(payload)).nodes);
    assert(e.parts =~= known.parts);
    lemma_reference_shaded(known, e, other, master);
}

/// A reference that is written without the write barrier, and then made known with `bind`, keeps
/// the tri-color invariant of a marking partition, whichever partition it leads to.
pub proof fn law_bind_tricolor<T: GcTrace>(
    v: HeapView<T>,
    master: GcPtr,
    slave: GcPtr,
    payload: T,
    other: int,
)
    requires
        v.wf(),
        v.live(master),
        v.live(slave),
        0 <= other < v.parts.len(),
        v.parts[other].marking,
        tricolor(v, other),
        forall|q: GcPtr| #[trigger]
            payload.refs().contains(q) ==> refs_of(v, master).contains(q) || q == slave,
    ensures
        tricolor(v.with_payload(master, Some(payload)).bound(master, slave), other),
{
    law_bind_shaded(v, master, slave, payload, other);
    let e = v.with_payload(master, Some(payload)).bound(master, slave);
    assert(v.live(slave));
    lemma_pins_kept(v, e, other, slave);
}

/// Other references from a node do no harm if it is not black, or if those that are new do not
/// lead to white nodes.
proof fn lemma_reference_shaded<T: GcTrace>(
    v: HeapView<T>,
    w: HeapView<T>,
    pid: int,
    p: GcPtr,
)
    requires
        shaded(v, pid),
        v.live(p),
        w.parts == v.parts,
        w.nodes == v.with_payload(p, w.nodes[p].payload).nodes,
        v.color(p) == GcTriColor::Black ==> forall|q: GcPtr| #[trigger]
            refs_of(w, p).contains(q) ==> refs_of(v, p).contains(q) || v.color(q)
                != GcTriColor::White,
    ensures
        shaded(w, pid),
{
    assert(w.nodes.dom() =~= v.nodes.dom());
    assert forall|a: GcPtr| #[trigger]
        w.live(a) && w.pid(a) == pid && (w.color(a) == GcTriColor::Gray
            || w.head(a).listed) implies w.parts[pid].gray.contains(a) by {
        assert(v.live(a));
    }
    assert forall|k: int| 0 <= k < w.parts[pid].gray.len() implies {
        &&& w.live(#[trigger] w.parts[pid].gray[k])
        &&& w.pid(w.parts[pid].gray[k]) == pid
        &&& w.color(w.parts[pid].gray[k]) != GcTriColor::White
    } by {
        assert(v.live(v.parts[pid].gray[k]));
    }
    assert forall|a: GcPtr, b: GcPtr|
        w.live(a) && w.pid(a) == pid && w.color(a) == GcTriColor::Black && w.live(b)
            && #[trigger] refs_of(w, a).contains(b) implies w.color(b) != GcTriColor::White by {
        assert(v.live(a) && v.live(b));
        if a != p {
            assert(refs_of(v, a).contains(b));
        }
    }
}

/// A new node, root or not, leaves the colors of its partition in order, if no black node of it
/// refers to the place where the new one was put.
pub proof fn law_alloc_shaded<T: GcNode>(
    v: HeapView<T>,
    p: GcPtr,
    pid: GcPartitionId,
    payload: T,
)
    requires
        v.wf(),
        v.has_part(pid),
        !v.live(p),
        shaded(v, pid.0 as int),
        forall|q: GcPtr| #[trigger]
            v.live(q) && v.pid(q) == pid.0 && v.color(q) == GcTriColor::Black ==> !refs_of(
                v,
                q,
            ).contains(p),
    ensures
        shaded(
            v.allocated(p, pid, payload.spec_type_id(), payload, false).attached(pid.0 as int, p),
            pid.0 as int,
        ),
        shaded(v.root_allocated(p, pid, payload.spec_type_id(), payload), pid.0 as int),
{
    let dtype = payload.spec_type_id();
    let i = pid.0 as int;
    let w = v.allocated(p, pid, dtype, payload, false).attached(i, p);
    lemma_new_shaded(v, w, p, i);
    let a = v.allocated(p, pid, dtype, payload, true);
    let plain = a.attached(i, p);
    lemma_new_shaded(v, plain, p, i);
    let x = a.with_head(p, HeadView { root: true, ..a.head(p) }).attached(i, p);
    assert(x.nodes.dom() =~= plain.nodes.dom());
    let r = v.root_allocated(p, pid, dtype, payload);
    if v.parts[i].marking {
        lemma_submit_shaded(plain, x, i, p, i);
        assert(r == x.gray_added(i, p));
    } else {
        assert(x.nodes =~= v.nodes.insert(p, x.nodes[p]));
        lemma_new_shaded(v, x, p, i);
    }
}

/// A new node does no harm to a marking cycle, if no black node of its partition refers to the
/// place where it was put.
pub proof fn law_alloc_tricolor<T: GcNode>(
    v: HeapView<T>,
    p: GcPtr,
    pid: GcPartitionId,
    payload: T,
)
    requires
        v.wf(),
        v.has_part(pid),
        !v.live(p),
        tricolor(v, pid.0 as int),
        forall|q: GcPtr| #[trigger]
            v.live(q) && v.pid(q) == pid.0 && v.color(q) == GcTriColor::Black ==> !refs_of(
                v,
                q,
            ).contains(p),
    ensures
        tricolor(
            v.allocated(p, pid, payload.spec_type_id(), payload, false).attached(pid.0 as int, p),
            pid.0 as int,
        ),
        v.parts[pid.0 as int].marking ==> tricolor(
            v.root_allocated(p, pid, payload.spec_type_id(), payload),
            pid.0 as int,
        ),
{
    let dtype = payload.spec_type_id();
    let i = pid.0 as int;
    law_alloc_shaded(v, p, pid, payload);
    lemma_pins_kept(v, v.allocated(p, pid, dtype, payload, false).attached(i, p), i, p);
    if v.parts[i].marking {
        lemma_pins_kept(v, v.root_allocated(p, pid, dtype, payload), i, p);
    }
}

/// A heap with one white node more, to which nothing refers.
proof fn lemma_new_shaded<T: GcTrace>(v: HeapView<T>, w: HeapView<T>, p: GcPtr, pid: int)
    requires
        0 <= pid < v.parts.len(),
        !v.live(p),
        shaded(v, pid),
        forall|q: GcPtr| #[trigger]
            v.live(q) && v.pid(q) == pid && v.color(q) == GcTriColor::Black ==> !refs_of(
                v,
                q,
            ).contains(p),
        w.nodes == v.nodes.insert(p, w.nodes[p]),
        w.color(p) == GcTriColor::White,
        !w.head(p).listed,
        w.parts[pid].gray == v.parts[pid].gray,
    ensures
        shaded(w, pid),
{
    assert forall|a: GcPtr| #[trigger]
        w.live(a) && w.pid(a) == pid && (w.color(a) == GcTriColor::Gray
            || w.head(a).listed) implies w.parts[pid].gray.contains(a) by {
        assert(v.live(a));
    }
    assert forall|k: int| 0 <= k < w.parts[pid].gray.len() implies {
        &&& w.live(#[trigger] w.parts[pid].gray[k])
        &&& w.pid(w.parts[pid].gray[k]) == pid
        &&& w.color(w.parts[pid].gray[k]) != GcTriColor::White
    } by {
        assert(v.live(v.parts[pid].gray[k]));
    }
    assert forall|a: GcPtr, b: GcPtr|
        w.live(a) && w.pid(a) == pid && w.color(a) == GcTriColor::Black && w.live(b)
            && #[trigger] refs_of(w, a).contains(b) implies w.color(b) != GcTriColor::White by {
        assert(v.live(a));
        assert(refs_of(v, a).contains(b));
        assert(b != p);
    }
}

} // verus!
