//! What every operation does to the memory accounts and to weak references.

use vstd::prelude::*;

use crate::collecting::all_marked;
use crate::heap::sweep::marked_swept;
use crate::heap::weak::next_version;
use crate::laws::collection::lemma_after_gc_marked;
use crate::laws::memory::{accounted, law_alloc_accounted, law_dispose_accounted};
use crate::laws::traversal::law_traversal_keeps;
use crate::laws::weak::lemma_vacant;
use crate::lemmas::{keeps, lemma_bytes_none, lemma_bytes_same, lemma_filter_members};
use crate::marking::{
    lemma_gray_added_keeps, lemma_mark_dropped_keeps, lemma_mark_run_keeps, lemma_prepared_keeps,
    mark_run,
};
use crate::model::{bytes_of, place, share, HeapView, StackView, WeakSlotView};
use crate::node::{GcPartitionId, GcPtr, HeadView};
use crate::node_link::select;
use crate::partition::fresh_part;
use crate::sweeping::law_drop_order;
use crate::trace::{GcNode, GcTrace};
use crate::walking::{walk, Visit};
use crate::weak_id::GcWeakRawId;

verus! {

/// Two heaps have the same nodes in the same partitions, of the same sizes, and the same memory
/// accounts.
pub open spec fn same_bytes<T>(v: HeapView<T>, w: HeapView<T>) -> bool {
    &&& w.reg == v.reg
    &&& w.total == v.total
    &&& w.nodes.dom() == v.nodes.dom()
    &&& forall|p: GcPtr| #[trigger]
        v.live(p) ==> w.head(p).partition == v.head(p).partition && w.head(p).dtype == v.head(
            p,
        ).dtype
    &&& w.parts.len() == v.parts.len()
    &&& forall|i: int| 0 <= i < v.parts.len() ==> (#[trigger] w.parts[i]).used == v.parts[i].used
}

/// Neither the memory accounts nor the weak references changed, and no node came or went.
pub open spec fn quiet<T>(v: HeapView<T>, w: HeapView<T>) -> bool {
    same_bytes(v, w) && w.weak == v.weak
}

/// What became of a weak slot after an operation that took the nodes of `gone` away: a slot of
/// one of them is vacant, another occupied slot is as it was, and a vacant slot is too unless it
/// was taken into use again, with the next version.
pub open spec fn slot_follows(a: WeakSlotView, b: WeakSlotView, gone: Seq<GcPtr>) -> bool {
    match a.node {
        Some(p) => if gone.contains(p) {
            b == (WeakSlotView { version: a.version, node: None })
        } else {
            b == a
        },
        None => b == a || (b.node is Some && b.version == next_version(a.version)),
    }
}

/// What became of the weak slots after an operation that took the nodes of `gone` away.
pub open spec fn weak_follows<T>(v: HeapView<T>, w: HeapView<T>, gone: Seq<GcPtr>) -> bool {
    &&& w.weak.len() >= v.weak.len()
    &&& forall|k: int|
        0 <= k < v.weak.len() ==> slot_follows(v.weak[k], #[trigger] w.weak[k], gone)
}

pub proof fn lemma_same_accounted<T>(v: HeapView<T>, w: HeapView<T>)
    requires
        v.nodes.dom().finite(),
        accounted(v),
        same_bytes(v, w),
    ensures
        accounted(w),
{
    assert forall|i: int| 0 <= i < w.parts.len() implies (#[trigger] w.parts[i]).used == bytes_of(
        w.nodes,
        w.reg.infos,
        i,
    ) by {
        assert forall|p: GcPtr| #[trigger] v.nodes.dom().contains(p) implies share(
            v.reg.infos,
            v.nodes[p],
            i,
        ) == share(v.reg.infos, w.nodes[p], i) by {
            assert(v.live(p));
        }
        lemma_bytes_same(v.nodes, w.nodes, v.reg.infos, i);
        assert(v.parts[i].used == bytes_of(v.nodes, v.reg.infos, i));
    }
}

/// An operation that is quiet leaves every weak reference with the node it stands for, and the
/// memory accounts right.
pub proof fn law_quiet<T>(v: HeapView<T>, w: HeapView<T>)
    requires
        v.wf(),
        quiet(v, w),
    ensures
        accounted(v) ==> accounted(w),
        weak_follows(v, w, Seq::empty()),
        forall|id: GcWeakRawId| #[trigger] w.upgraded(id) == v.upgraded(id),
{
    if accounted(v) {
        lemma_same_accounted(v, w);
    }
}

pub proof fn lemma_quiet_trans<T>(a: HeapView<T>, b: HeapView<T>, c: HeapView<T>)
    requires
        quiet(a, b),
        quiet(b, c),
    ensures
        quiet(a, c),
{
    assert forall|p: GcPtr| #[trigger] a.live(p) implies c.head(p).partition == a.head(p).partition
        && c.head(p).dtype == a.head(p).dtype by {
        assert(b.live(p));
    }
    assert forall|i: int| 0 <= i < a.parts.len() implies (#[trigger] c.parts[i]).used
        == a.parts[i].used by {
        assert(b.parts[i].used == a.parts[i].used);
    }
}

pub proof fn lemma_keeps_quiet<T>(v: HeapView<T>, w: HeapView<T>)
    requires
        keeps(v, w),
    ensures
        quiet(v, w),
{
}

/// Settings and scope stacks have nothing to do with nodes.
pub proof fn law_settings_quiet<T>(
    v: HeapView<T>,
    limit: int,
    threshold: int,
    opaque: usize,
    stacks: Seq<StackView>,
)
    ensures
        quiet(v, HeapView { limit, threshold, opaque, stacks, ..v }),
{
}

/// Making a node a root, or stopping it from being one, is quiet.
pub proof fn law_root_quiet<T>(v: HeapView<T>, p: GcPtr)
    requires
        v.wf(),
        v.live(p),
    ensures
        quiet(v, v.rooted(p)),
        quiet(v, v.with_head(p, HeadView { root: false, ..v.head(p) })),
{
    assert(v.with_head(p, HeadView { root: false, ..v.head(p) }).nodes.dom() =~= v.nodes.dom());
    assert(v.rooted(p).nodes.dom() =~= v.nodes.dom());
}

/// Opening, clearing and closing a scope is quiet, and so is adding a node to one.
pub proof fn law_scope_quiet<T>(v: HeapView<T>, s: int, d: int, p: GcPtr)
    requires
        v.has_scope(s, d),
        v.live(p),
    ensures
        quiet(v, v.scope_opened(s)),
        quiet(v, v.scope_cleared(s, d)),
        quiet(v, v.scope_popped(s)),
        quiet(v, v.scope_added(s, d, p)),
        quiet(v, v.protected(s, p)),
{
    assert(v.scope_cleared(s, d).nodes.dom() =~= v.nodes.dom());
    assert(v.scope_popped(s).nodes.dom() =~= v.nodes.dom());
    assert(v.scope_added(s, d, p).nodes.dom() =~= v.nodes.dom());
    assert(v.protected(s, p).nodes.dom() =~= v.nodes.dom());
}

/// Protecting nodes one after the other is quiet.
pub proof fn law_protect_quiet<T>(v: HeapView<T>, s: int, list: Seq<GcPtr>)
    requires
        forall|k: int| 0 <= k < list.len() ==> v.live(#[trigger] list[k]),
    ensures
        quiet(v, v.protected_all(s, list)),
    decreases list.len(),
{
    if list.len() > 0 {
        let w = v.protected_all(s, list.drop_last());
        assert forall|k: int| 0 <= k < list.drop_last().len() implies v.live(
            #[trigger] list.drop_last()[k],
        ) by {
            assert(v.live(list[k]));
        }
        law_protect_quiet(v, s, list.drop_last());
        assert(v.live(list[list.len() - 1]));
        assert(w.live(list.last()));
        assert(w.protected(s, list.last()).nodes.dom() =~= w.nodes.dom());
        lemma_quiet_trans(v, w, w.protected(s, list.last()));
    }
}

/// Taking a node out of a scope, or handing it on to another one, is quiet.
pub proof fn law_scope_take_quiet<T>(v: HeapView<T>, s: int, d: int, k: int, s2: int, d2: int)
    requires
        v.wf(),
        v.has_scope(s, d),
        0 <= k < v.scope_nodes(s, d).len(),
    ensures
        quiet(v, v.scope_removed(s, d, k)),
        quiet(v, v.scope_moved(s, d, k, s2, d2)),
{
    assert(v.live(place(v.stacks, s, d, k)));
    assert(v.scope_removed(s, d, k).nodes.dom() =~= v.nodes.dom());
}

/// Writing to a node is quiet, behind the write barrier or with the reference made known
/// afterwards.
pub proof fn law_write_quiet<T>(v: HeapView<T>, p: GcPtr, slave: GcPtr, payload: T)
    requires
        v.wf(),
        v.live(p),
        v.live(slave),
    ensures
        quiet(v, v.reopened(p)),
        quiet(v, v.bound(p, slave)),
        quiet(v, v.with_payload(p, Some(payload))),
        quiet(v, v.reopened(p).with_payload(p, Some(payload))),
{
    assert(v.reopened(p).nodes.dom() =~= v.nodes.dom());
    assert(v.bound(p, slave).nodes.dom() =~= v.nodes.dom());
    assert(v.with_payload(p, Some(payload)).nodes.dom() =~= v.nodes.dom());
    assert(v.reopened(p).with_payload(p, Some(payload)).nodes.dom() =~= v.nodes.dom());
}

/// Marking is quiet: beginning it, every number of steps of it, giving it up and submitting a
/// node to a gray list.
pub proof fn law_mark_quiet<T: GcTrace>(v: HeapView<T>, pid: GcPartitionId, steps: nat, p: GcPtr)
    requires
        v.has_part(pid),
        v.live(p),
    ensures
        quiet(v, v.prepared(pid)),
        quiet(v, mark_run(v, pid.0 as int, steps).0),
        quiet(v, v.mark_dropped(pid.0 as int)),
        quiet(v, v.gray_added(pid.0 as int, p)),
{
    lemma_prepared_keeps(v, pid);
    lemma_mark_run_keeps(v, pid.0 as int, steps);
    lemma_mark_dropped_keeps(v, pid.0 as int);
    lemma_gray_added_keeps(v, pid.0 as int, p);
}

/// The first two steps of a sweep are quiet: the nodes that they take out of the partition, and
/// whose payloads they take, are accounted for until they are disposed of.
pub proof fn law_unlink_quiet<T>(v: HeapView<T>, pid: int, list: Seq<GcPtr>)
    requires
        0 <= pid < v.parts.len(),
    ensures
        quiet(v, v.unlinked(pid)),
        quiet(v, v.emptied(list)),
{
    assert(v.emptied(list).nodes.dom() =~= v.nodes.dom());
}

/// Traversals are quiet.
pub proof fn law_traversal_quiet<T: GcTrace>(
    v: HeapView<T>,
    pid: GcPartitionId,
    stack: Seq<Visit>,
    filter: Option<GcPartitionId>,
)
    requires
        v.wf(),
    ensures
        quiet(v, v.visits_cleared(pid)),
        quiet(v, walk(v, stack, filter).0),
{
    assert(v.visits_cleared(pid).nodes.dom() =~= v.nodes.dom());
    law_traversal_keeps(v, stack, filter);
}

/// Adding a partition accounts nothing to it, and has nothing to do with weak references.
pub proof fn law_create_step<T>(v: HeapView<T>, capacity: usize, max: usize)
    requires
        v.wf(),
    ensures
        ({
            let w = HeapView { parts: v.parts.push(fresh_part(capacity, max)), ..v };
            &&& accounted(v) ==> accounted(w)
            &&& weak_follows(v, w, Seq::empty())
        }),
{
    let w = HeapView { parts: v.parts.push(fresh_part(capacity, max)), ..v };
    if accounted(v) {
        assert forall|i: int| 0 <= i < w.parts.len() implies (#[trigger] w.parts[i]).used
            == bytes_of(w.nodes, w.reg.infos, i) by {
            if i < v.parts.len() {
                assert(v.parts[i].used == bytes_of(v.nodes, v.reg.infos, i));
            } else {
                assert forall|p: GcPtr| #[trigger]
                    v.nodes.dom().contains(p) implies v.nodes[p].head.partition.0 != i by {
                    assert(v.live(p));
                }
                lemma_bytes_none(v.nodes, v.reg.infos, i);
            }
        }
    }
}

/// An allocation accounts the bytes of the new node, and leaves weak references as they are.
pub proof fn law_alloc_step<T: GcNode>(
    v: HeapView<T>,
    p: GcPtr,
    pid: GcPartitionId,
    payload: T,
    s: int,
    d: int,
)
    requires
        v.wf(),
        v.has_part(pid),
        !v.live(p),
    ensures
        ({
            let dtype = payload.spec_type_id();
            let a = v.allocated(p, pid, dtype, payload, false).attached(pid.0 as int, p);
            let r = v.root_allocated(p, pid, dtype, payload);
            let l = a.scope_added(s, d, p);
            &&& accounted(v) ==> accounted(a) && accounted(r) && accounted(l)
            &&& weak_follows(v, a, Seq::empty())
            &&& weak_follows(v, r, Seq::empty())
            &&& weak_follows(v, l, Seq::empty())
        }),
{
    let dtype = payload.spec_type_id();
    let i = pid.0 as int;
    let x = v.allocated(p, pid, dtype, payload, false);
    let a = x.attached(i, p);
    let y = v.allocated(p, pid, dtype, payload, true);
    let r = v.root_allocated(p, pid, dtype, payload);
    let l = a.scope_added(s, d, p);
    assert(y.live(p));
    assert(r.nodes.dom() =~= y.nodes.dom());
    assert(l.nodes.dom() =~= a.nodes.dom());
    assert(quiet(x, a));
    assert(quiet(y, r));
    assert(quiet(a, l));
    if accounted(v) {
        law_alloc_accounted(v, p, pid, dtype, payload, false);
        law_alloc_accounted(v, p, pid, dtype, payload, true);
        lemma_same_accounted(x, a);
        lemma_same_accounted(y, r);
        lemma_same_accounted(a, l);
    }
}

/// Making a weak reference accounts nothing. It takes a vacant slot, with the next version, or a
/// new one.
pub proof fn law_downgrade_step<T>(v: HeapView<T>, p: GcPtr, id: GcWeakRawId)
    requires
        v.wf(),
        v.live(p),
    ensures
        accounted(v) ==> accounted(v.with_weak(p, id)),
        weak_follows(v, v.with_weak(p, id), Seq::empty()),
{
    let w = v.with_weak(p, id);
    lemma_vacant(v.weak);
    assert(w.nodes.dom() =~= v.nodes.dom());
    if accounted(v) {
        lemma_same_accounted(v, w);
    }
}

/// The nodes of `gone`, all of partition `pid`, were taken away, with their bytes, and their weak
/// slots became vacant.
pub open spec fn removal<T>(v: HeapView<T>, w: HeapView<T>, pid: int, gone: Seq<GcPtr>) -> bool {
    &&& w.reg == v.reg
    &&& w.nodes.dom() == v.disposed(pid, gone).nodes.dom()
    &&& forall|p: GcPtr| #[trigger] w.live(p) ==> w.nodes[p] == v.nodes[p]
    &&& w.weak == v.disposed(pid, gone).weak
    &&& w.total == v.disposed(pid, gone).total
    &&& w.parts.len() == v.parts.len()
    &&& forall|i: int|
        0 <= i < v.parts.len() ==> (#[trigger] w.parts[i]).used == v.disposed(pid, gone).parts[i].used
}

/// Taking nodes away makes weak references to them void and leaves the others as they are, and
/// the memory accounts stay right.
pub proof fn law_removal<T>(v: HeapView<T>, w: HeapView<T>, pid: int, gone: Seq<GcPtr>)
    requires
        v.nodes.dom().finite(),
        0 <= pid < v.parts.len(),
        gone.no_duplicates(),
        forall|k: int|
            0 <= k < gone.len() ==> v.live(#[trigger] gone[k]) && v.pid(gone[k]) == pid,
        removal(v, w, pid, gone),
    ensures
        accounted(v) ==> accounted(w),
        weak_follows(v, w, gone),
{
    if accounted(v) {
        law_dispose_accounted(v, pid, gone);
        let x = v.disposed(pid, gone);
        assert(w.nodes =~= x.nodes) by {
            assert forall|p: GcPtr| #[trigger] w.nodes.dom().contains(p) implies w.nodes[p]
                == x.nodes[p] by {
                assert(w.live(p));
            }
        }
        assert forall|i: int| 0 <= i < w.parts.len() implies (#[trigger] w.parts[i]).used
            == bytes_of(w.nodes, w.reg.infos, i) by {
            assert(x.parts[i].used == bytes_of(x.nodes, x.reg.infos, i));
        }
    }
}

/// Disposing of nodes, with or without giving their places back to the arena, takes exactly those
/// nodes away.
pub proof fn law_dispose_removal<T>(v: HeapView<T>, pid: int, gone: Seq<GcPtr>)
    requires
        0 <= pid < v.parts.len(),
    ensures
        removal(v, v.disposed(pid, gone), pid, gone),
        removal(v, v.swept(pid, gone), pid, gone),
{
}

/// A sweep takes the nodes away that are dead, and so does one by a predicate with those that it
/// chose.
pub proof fn law_sweep_removal<T>(v: HeapView<T>, pid: int, marks: Seq<bool>)
    requires
        0 <= pid < v.parts.len(),
    ensures
        removal(v, v.sweep_done(pid), pid, v.drop_order(v.dead_nodes(pid))),
        removal(
            v,
            marked_swept(v, pid, marks),
            pid,
            v.drop_order(select(v.parts[pid].nodes, marks, true)),
        ),
{
}

/// A collection makes the weak references to the nodes void that it takes away, and leaves the
/// others as they are.
pub proof fn law_collection_step<T: GcNode>(v: HeapView<T>, pid: GcPartitionId)
    requires
        v.wf(),
        v.has_part(pid),
    ensures
        ({
            let m = all_marked(v.restarted());
            let gone = m.drop_order(m.dead_nodes(pid.0 as int));
            &&& accounted(v) ==> accounted(v.after_gc(pid))
            &&& weak_follows(v, v.after_gc(pid), gone)
        }),
{
    let i = pid.0 as int;
    let m = all_marked(v.restarted());
    let dead = m.dead_nodes(i);
    let gone = m.drop_order(dead);
    lemma_after_gc_marked(v, pid);
    lemma_keeps_quiet(v, m);
    law_quiet(v, m);
    lemma_dead_order(m, i);
    law_sweep_removal(m, i, Seq::empty());
    law_removal(m, v.after_gc(pid), i, gone);
}

pub proof fn lemma_dead_order<T>(m: HeapView<T>, pid: int)
    requires
        m.wf(),
        0 <= pid < m.parts.len(),
    ensures
        ({
            let gone = m.drop_order(m.dead_nodes(pid));
            &&& gone.no_duplicates()
            &&& forall|k: int|
                0 <= k < gone.len() ==> m.live(#[trigger] gone[k]) && m.pid(gone[k]) == pid
        }),
{
    let chain = m.parts[pid].nodes;
    let dead = m.dead_nodes(pid);
    lemma_filter_members(chain, |p: GcPtr| m.dead(p));
    assert forall|k: int| 0 <= k < dead.len() implies m.live(#[trigger] dead[k]) && m.pid(dead[k])
        == pid && m.head(dead[k]).dtype < m.reg.infos.len() by {
        let p = dead[k];
        assert(dead.contains(p));
        let j = choose|j: int| 0 <= j < chain.len() && chain[j] == p;
        assert(m.live(m.parts[pid].nodes[j]));
    }
    law_drop_order(m, dead);
    let gone = m.drop_order(dead);
    assert forall|k: int| 0 <= k < gone.len() implies m.live(#[trigger] gone[k]) && m.pid(gone[k])
        == pid by {
        assert(gone.contains(gone[k]));
        let j = choose|j: int| 0 <= j < dead.len() && dead[j] == gone[k];
        assert(m.live(dead[j]));
    }
}

/// The first step of removing a partition makes the weak references to its nodes void, and leaves
/// the memory accounts as they are.
pub proof fn law_finalize_step<T>(v: HeapView<T>, pid: GcPartitionId)
    requires
        v.wf(),
        v.has_part(pid),
    ensures
        accounted(v) ==> accounted(v.finalized(pid)),
        weak_follows(v, v.finalized(pid), v.parts[pid.0 as int].nodes),
{
    let w = v.finalized(pid);
    assert(w.nodes.dom() =~= v.nodes.dom());
    assert(same_bytes(v, w));
    if accounted(v) {
        lemma_same_accounted(v, w);
    }
}

/// The second step takes the nodes away, and with them all bytes that were accounted to the
/// partition.
pub proof fn law_release_step<T>(v: HeapView<T>, pid: GcPartitionId, list: Seq<GcPtr>)
    requires
        v.wf(),
        v.has_part(pid),
        v.releasable(pid, list),
    ensures
        accounted(v) ==> accounted(v.released(pid.0 as int, list)),
        weak_follows(v, v.released(pid.0 as int, list), list),
{
    let i = pid.0 as int;
    let w = v.released(i, list);
    let x = v.disposed(i, list);
    if accounted(v) {
        law_dispose_accounted(v, i, list);
        assert forall|k: int| 0 <= k < w.parts.len() implies (#[trigger] w.parts[k]).used
            == bytes_of(w.nodes, w.reg.infos, k) by {
            assert(x.parts[k].used == bytes_of(x.nodes, x.reg.infos, k));
            if k == i {
                assert forall|p: GcPtr| #[trigger]
                    x.nodes.dom().contains(p) implies x.nodes[p].head.partition.0 != i by {
                    assert(v.live(p));
                    assert(list.to_set().contains(p) <==> list.contains(p));
                }
                vstd::set_lib::lemma_len_subset(x.nodes.dom(), v.nodes.dom());
                lemma_bytes_none(x.nodes, x.reg.infos, i);
            }
        }
    }
}

/// A weak reference, over one operation: it gives what it gave before, unless that was taken away.
pub proof fn law_weak_step<T>(
    v: HeapView<T>,
    w: HeapView<T>,
    gone: Seq<GcPtr>,
    id: GcWeakRawId,
    p: GcPtr,
)
    requires
        weak_follows(v, w, gone),
        v.upgraded(id) == Some(p),
    ensures
        w.upgraded(id) == (if gone.contains(p) {
            None
        } else {
            Some(p)
        }),
{
    assert(slot_follows(
        v.weak[id.spec_index() as int],
        w.weak[id.spec_index() as int],
        gone,
    ));
}

/// The reference to no node gives nothing in any heap.
pub proof fn law_weak_null<T>(v: HeapView<T>, id: GcWeakRawId)
    requires
        id.spec_version() == 0,
    ensures
        v.upgraded(id) is None,
{
}

} // verus!
