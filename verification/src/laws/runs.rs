//! What holds of a heap after any number of operations.

use vstd::prelude::*;

use crate::collecting::all_marked;
use crate::heap::sweep::{disposable, lemma_select_members, marked_swept};
use crate::laws::give_up::{chains_upto, law_give_up};
use crate::laws::history::{law_weak_history, reuses};
use crate::laws::memory::{accounted, law_memory_used, law_new_accounted};
use crate::laws::steps::{
    law_alloc_step, law_collection_step, law_create_step, law_dispose_removal, law_downgrade_step,
    law_finalize_step, law_protect_quiet, law_quiet, law_release_step, law_removal, law_root_quiet,
    law_scope_quiet, law_scope_take_quiet, law_settings_quiet, law_sweep_removal,
    law_traversal_quiet, law_unlink_quiet, law_write_quiet, lemma_dead_order, lemma_keeps_quiet,
    lemma_quiet_trans, quiet, weak_follows,
};
use crate::laws::collection::lemma_after_gc_marked;
use crate::marking::{
    lemma_gray_added_keeps, lemma_mark_dropped_keeps, lemma_mark_run_keeps, lemma_prepared_keeps,
    mark_run,
};
use crate::model::{size_of_all, sum_used, HeapView, StackView};
use crate::node::{GcPartitionId, GcPtr, HeadView};
use crate::node_link::select;
use crate::partition::fresh_part;
use crate::sweeping::law_drop_order;
use crate::trace::GcNode;
use crate::walking::walk;
use crate::weak_id::GcWeakRawId;

verus! {

/// An operation on a heap, with its arguments and what it was given by its surroundings: the
/// handle under which a node was put, the payload that a mutator left, the nodes that a predicate
/// chose.
pub enum Op<T> {
    /// An operation that refused to act, or that only reads.
    Nothing,
    /// Setting the limit, the threshold or the owner's value.
    Settings { limit: int, threshold: int, opaque: usize },
    /// Acquiring a scope stack or giving one back.
    Stacks { stacks: Seq<StackView> },
    /// `create_partition`, with an arena or without.
    Create { capacity: usize, max: usize },
    /// `alloc_raw`.
    Alloc { p: GcPtr, pid: GcPartitionId, payload: T },
    /// `alloc_root_raw`.
    AllocRoot { p: GcPtr, pid: GcPartitionId, payload: T },
    /// `alloc_local`.
    AllocLocal { p: GcPtr, payload: T, s: int, d: int },
    /// `set_root_node`.
    Root { p: GcPtr },
    /// `set_root` with false.
    Unroot { p: GcPtr },
    /// `new_scope`.
    Open { s: int },
    /// `pop_scope`, `close_scope`.
    Close { s: int },
    /// `clear` of a scope.
    Clear { s: int, d: int },
    /// `add_non_local`, `protect_node`.
    Add { s: int, d: int, p: GcPtr },
    /// `protect_nodes`.
    Protect { s: int, list: Seq<GcPtr> },
    /// `remove_node` of a scope.
    Remove { s: int, d: int, k: int },
    /// `promote_node_to`.
    Promote { s: int, d: int, k: int, s2: int, d2: int },
    /// `reopen`.
    Reopen { p: GcPtr },
    /// `with_mut`.
    Write { p: GcPtr, payload: T },
    /// Writing through `payload_mut`.
    Poke { p: GcPtr, payload: T },
    /// `bind`.
    Bind { master: GcPtr, slave: GcPtr },
    /// `downgrade` of a node that has no weak references yet.
    Downgrade { p: GcPtr, id: GcWeakRawId },
    /// `add_gray_node`.
    Gray { p: GcPtr },
    /// `mark_prepare`.
    Prepare { pid: GcPartitionId },
    /// `mark_grays`.
    MarkGrays { pid: GcPartitionId, steps: nat },
    /// `mark`.
    Mark { pid: GcPartitionId, steps: nat },
    /// `mark_reset`.
    Reset { pid: GcPartitionId },
    /// `sweep_unlink`.
    Unlink { pid: GcPartitionId },
    /// `sweep_drop_payloads`.
    Empty { list: Seq<GcPtr> },
    /// `sweep_dispose`.
    Dispose { pid: GcPartitionId, list: Seq<GcPtr> },
    /// `sweep`.
    Sweep { pid: GcPartitionId },
    /// `sweep_with`.
    SweepWith { pid: GcPartitionId, marks: Seq<bool> },
    /// `garbage_collect`.
    Collect { pid: GcPartitionId },
    /// `finalize_partition`.
    Finalize { pid: GcPartitionId },
    /// `dealloc_partition`; a `remove_partition` is this after the one before.
    Release { pid: GcPartitionId, list: Seq<GcPtr> },
    /// `traverse_start`.
    Unvisit { pid: GcPartitionId },
    /// `traverse`.
    Traverse { p: GcPtr, filter: Option<GcPartitionId> },
    /// `dispose_everything`.
    GiveUp,
}

impl<T: GcNode> Op<T> {
    /// The operation can be applied to the heap.
    pub open spec fn fits(self, v: HeapView<T>) -> bool {
        match self {
            Op::Nothing | Op::Settings { .. } | Op::Stacks { .. } | Op::Create { .. } | Op::GiveUp
            | Op::Prepare { .. } | Op::Unvisit { .. } | Op::Empty { .. } => true,
            Op::Alloc { p, pid, .. } => v.has_part(pid) && !v.live(p),
            Op::AllocRoot { p, pid, .. } => v.has_part(pid) && !v.live(p),
            Op::AllocLocal { p, s, d, .. } => {
                v.has_scope(s, d) && v.has_part(v.stacks[s].scopes[d].partition) && !v.live(p)
            },
            Op::Root { p } | Op::Unroot { p } | Op::Reopen { p } | Op::Gray { p }
            | Op::Traverse { p, .. } => v.live(p),
            Op::Write { p, .. } | Op::Poke { p, .. } => v.live(p),
            Op::Open { s } => 0 <= s < v.stacks.len(),
            Op::Close { s } => 0 <= s < v.stacks.len() && v.stacks[s].scopes.len() > 0,
            Op::Clear { s, d } => v.has_scope(s, d),
            Op::Add { s, d, p } => v.has_scope(s, d) && v.live(p),
            Op::Protect { list, .. } => forall|k: int|
                0 <= k < list.len() ==> v.live(#[trigger] list[k]),
            Op::Remove { s, d, k } => v.has_scope(s, d) && 0 <= k < v.scope_nodes(s, d).len(),
            Op::Promote { s, d, k, .. } => v.has_scope(s, d) && 0 <= k < v.scope_nodes(
                s,
                d,
            ).len(),
            Op::Bind { master, slave } => v.live(master) && v.live(slave),
            Op::Downgrade { p, .. } => v.live(p),
            Op::MarkGrays { pid, .. } | Op::Mark { pid, .. } => v.has_part(pid),
            Op::Reset { pid } | Op::Unlink { pid } | Op::Sweep { pid } | Op::Collect { pid }
            | Op::Finalize { pid } => v.has_part(pid),
            Op::Dispose { pid, list } => v.has_part(pid) && disposable(v, pid.0 as int, list),
            Op::SweepWith { pid, marks } => v.has_part(pid) && marks.len() == v.parts[
                pid.0 as int
            ].nodes.len(),
            Op::Release { pid, list } => v.has_part(pid) && v.releasable(pid, list),
        }
    }

    /// The heap after the operation.
    pub open spec fn result(self, v: HeapView<T>) -> HeapView<T> {
        match self {
            Op::Nothing => v,
            Op::Settings { limit, threshold, opaque } => HeapView { limit, threshold, opaque, ..v },
            Op::Stacks { stacks } => HeapView { stacks, ..v },
            Op::Create { capacity, max } => HeapView {
                parts: v.parts.push(fresh_part(capacity, max)),
                ..v
            },
            Op::Alloc { p, pid, payload } => v.allocated(
                p,
                pid,
                payload.spec_type_id(),
                payload,
                false,
            ).attached(pid.0 as int, p),
            Op::AllocRoot { p, pid, payload } => v.root_allocated(
                p,
                pid,
                payload.spec_type_id(),
                payload,
            ),
            Op::AllocLocal { p, payload, s, d } => {
                let pid = v.stacks[s].scopes[d].partition;
                v.allocated(p, pid, payload.spec_type_id(), payload, false).attached(
                    pid.0 as int,
                    p,
                ).scope_added(s, d, p)
            },
            Op::Root { p } => v.rooted(p),
            Op::Unroot { p } => v.with_head(p, HeadView { root: false, ..v.head(p) }),
            Op::Open { s } => v.scope_opened(s),
            Op::Close { s } => v.scope_popped(s),
            Op::Clear { s, d } => v.scope_cleared(s, d),
            Op::Add { s, d, p } => v.scope_added(s, d, p),
            Op::Protect { s, list } => v.protected_all(s, list),
            Op::Remove { s, d, k } => v.scope_removed(s, d, k),
            Op::Promote { s, d, k, s2, d2 } => v.scope_moved(s, d, k, s2, d2),
            Op::Reopen { p } => v.reopened(p),
            Op::Write { p, payload } => v.reopened(p).with_payload(p, Some(payload)),
            Op::Poke { p, payload } => v.with_payload(p, Some(payload)),
            Op::Bind { master, slave } => v.bound(master, slave),
            Op::Downgrade { p, id } => v.with_weak(p, id),
            Op::Gray { p } => v.gray_added(v.pid(p), p),
            Op::Prepare { pid } => v.prepared(pid),
            Op::MarkGrays { pid, steps } => if steps == 0 {
                v
            } else {
                mark_run(v, pid.0 as int, steps).0
            },
            Op::Mark { pid, steps } => if steps == 0 {
                v.prepared(pid)
            } else {
                mark_run(v.prepared(pid), pid.0 as int, steps).0
            },
            Op::Reset { pid } => v.mark_dropped(pid.0 as int),
            Op::Unlink { pid } => v.unlinked(pid.0 as int),
            Op::Empty { list } => v.emptied(list),
            Op::Dispose { pid, list } => v.swept(pid.0 as int, v.drop_order(list)),
            Op::Sweep { pid } => v.sweep_done(pid.0 as int),
            Op::SweepWith { pid, marks } => marked_swept(v, pid.0 as int, marks),
            Op::Collect { pid } => v.after_gc(pid),
            Op::Finalize { pid } => v.finalized(pid),
            Op::Release { pid, list } => v.released(pid.0 as int, list),
            Op::Unvisit { pid } => v.visits_cleared(pid),
            Op::Traverse { p, filter } => walk(v, seq![(p, None::<GcPtr>)], filter).0,
            Op::GiveUp => v.stacks_closed(v.stacks.len() as int).chains_disposed(
                v.parts.len() as int,
            ),
        }
    }

    /// The nodes that the operation disposes of, or whose partition it finalizes.
    pub open spec fn gone(self, v: HeapView<T>) -> Seq<GcPtr> {
        match self {
            Op::Dispose { list, .. } => v.drop_order(list),
            Op::Sweep { pid } => v.drop_order(v.dead_nodes(pid.0 as int)),
            Op::SweepWith { pid, marks } => v.drop_order(
                select(v.parts[pid.0 as int].nodes, marks, true),
            ),
            Op::Collect { pid } => {
                let m = all_marked(v.restarted());
                m.drop_order(m.dead_nodes(pid.0 as int))
            },
            Op::Finalize { pid } => v.parts[pid.0 as int].nodes,
            Op::Release { list, .. } => list,
            Op::GiveUp => chains_upto(v, v.parts.len() as int),
            _ => Seq::empty(),
        }
    }

    /// The operation changes neither the memory accounts nor the weak references.
    spec fn is_quiet(self) -> bool {
        !(self is Create || self is Alloc || self is AllocRoot || self is AllocLocal
            || self is Downgrade || self is Dispose || self is Sweep || self is SweepWith
            || self is Collect || self is Finalize || self is Release || self is GiveUp)
    }
}

proof fn lemma_op_quiet<T: GcNode>(v: HeapView<T>, op: Op<T>)
    requires
        v.wf(),
        op.fits(v),
        op.is_quiet(),
    ensures
        quiet(v, op.result(v)),
{
    match op {
        Op::Settings { limit, threshold, opaque } => {
            law_settings_quiet(v, limit, threshold, opaque, v.stacks);
        },
        Op::Stacks { stacks } => {
            law_settings_quiet(v, v.limit, v.threshold, v.opaque, stacks);
        },
        Op::Root { p } => {
            law_root_quiet(v, p);
        },
        Op::Unroot { p } => {
            law_root_quiet(v, p);
        },
        Op::Close { s } => {
            assert(v.scope_popped(s).nodes.dom() =~= v.nodes.dom());
        },
        Op::Clear { s, d } => {
            assert(v.scope_cleared(s, d).nodes.dom() =~= v.nodes.dom());
        },
        Op::Add { s, d, p } => {
            law_scope_quiet(v, s, d, p);
        },
        Op::Protect { s, list } => {
            law_protect_quiet(v, s, list);
        },
        Op::Remove { s, d, k } => {
            law_scope_take_quiet(v, s, d, k, s, d);
        },
        Op::Promote { s, d, k, s2, d2 } => {
            law_scope_take_quiet(v, s, d, k, s2, d2);
        },
        Op::Reopen { p } => {
            assert(v.reopened(p).nodes.dom() =~= v.nodes.dom());
        },
        Op::Write { p, payload } => {
            law_write_quiet(v, p, p, payload);
        },
        Op::Poke { p, payload } => {
            law_write_quiet(v, p, p, payload);
        },
        Op::Bind { master, slave } => {
            assert(v.bound(master, slave).nodes.dom() =~= v.nodes.dom());
        },
        Op::Gray { p } => {
            lemma_gray_added_keeps(v, v.pid(p), p);
            lemma_keeps_quiet(v, op.result(v));
        },
        Op::Prepare { pid } => {
            lemma_prepared_keeps(v, pid);
            lemma_keeps_quiet(v, op.result(v));
        },
        Op::MarkGrays { pid, steps } => {
            lemma_mark_run_keeps(v, pid.0 as int, steps);
            lemma_keeps_quiet(v, mark_run(v, pid.0 as int, steps).0);
        },
        Op::Mark { pid, steps } => {
            let q = v.prepared(pid);
            lemma_prepared_keeps(v, pid);
            lemma_keeps_quiet(v, q);
            lemma_mark_run_keeps(q, pid.0 as int, steps);
            lemma_keeps_quiet(q, mark_run(q, pid.0 as int, steps).0);
            lemma_quiet_trans(v, q, mark_run(q, pid.0 as int, steps).0);
        },
        Op::Reset { pid } => {
            lemma_mark_dropped_keeps(v, pid.0 as int);
            lemma_keeps_quiet(v, op.result(v));
        },
        Op::Unlink { pid } => {
            law_unlink_quiet(v, pid.0 as int, Seq::empty());
        },
        Op::Empty { list } => {
            assert(v.emptied(list).nodes.dom() =~= v.nodes.dom());
        },
        Op::Unvisit { pid } => {
            law_traversal_quiet(v, pid, Seq::empty(), None);
        },
        Op::Traverse { p, filter } => {
            law_traversal_quiet(v, GcPartitionId(0), seq![(p, None::<GcPtr>)], filter);
        },
        _ => {},
    }
}

/// The nodes of `list`, in the order in which they are disposed of, are those of `list`.
proof fn lemma_order_live<T>(v: HeapView<T>, pid: int, list: Seq<GcPtr>)
    requires
        v.wf(),
        list.no_duplicates(),
        forall|k: int|
            0 <= k < list.len() ==> v.live(#[trigger] list[k]) && v.pid(list[k]) == pid,
    ensures
        v.drop_order(list).no_duplicates(),
        forall|k: int|
            0 <= k < v.drop_order(list).len() ==> v.live(#[trigger] v.drop_order(list)[k]) && v.pid(
                v.drop_order(list)[k],
            ) == pid,
{
    assert forall|k: int| 0 <= k < list.len() implies v.head(#[trigger] list[k]).dtype
        < v.reg.infos.len() by {
        assert(v.live(list[k]));
    }
    law_drop_order(v, list);
    let gone = v.drop_order(list);
    assert forall|k: int| 0 <= k < gone.len() implies v.live(#[trigger] gone[k]) && v.pid(gone[k])
        == pid by {
        assert(gone.contains(gone[k]));
        let j = choose|j: int| 0 <= j < list.len() && list[j] == gone[k];
        assert(v.live(list[j]));
    }
}

/// Every operation keeps the memory accounts right, and makes the weak references to the nodes
/// void that it takes away, and no others. Unless it finalizes a partition, whose nodes stay until
/// it is given back, these are exactly the nodes that are not live any more.
pub proof fn law_step<T: GcNode>(v: HeapView<T>, op: Op<T>)
    requires
        v.wf(),
        op.fits(v),
    ensures
        accounted(v) ==> accounted(op.result(v)),
        weak_follows(v, op.result(v), op.gone(v)),
        !(op is Finalize) ==> forall|p: GcPtr| #[trigger]
            v.live(p) ==> (op.result(v).live(p) <==> !op.gone(v).contains(p)),
{
    let w = op.result(v);
    let gone = op.gone(v);
    if op.is_quiet() {
        lemma_op_quiet(v, op);
        law_quiet(v, w);
        assert(gone =~= Seq::<GcPtr>::empty());
    } else {
        match op {
            Op::Create { capacity, max } => {
                law_create_step(v, capacity, max);
            },
            Op::Alloc { p, pid, payload } => {
                law_alloc_step(v, p, pid, payload, 0, 0);
            },
            Op::AllocRoot { p, pid, payload } => {
                law_alloc_step(v, p, pid, payload, 0, 0);
            },
            Op::AllocLocal { p, payload, s, d } => {
                law_alloc_step(v, p, v.stacks[s].scopes[d].partition, payload, s, d);
            },
            Op::Downgrade { p, id } => {
                law_downgrade_step(v, p, id);
            },
            Op::Dispose { pid, list } => {
                lemma_order_live(v, pid.0 as int, list);
                law_dispose_removal(v, pid.0 as int, gone);
                law_removal(v, w, pid.0 as int, gone);
            },
            Op::Sweep { pid } => {
                lemma_dead_order(v, pid.0 as int);
                law_sweep_removal(v, pid.0 as int, Seq::empty());
                law_removal(v, w, pid.0 as int, gone);
            },
            Op::SweepWith { pid, marks } => {
                let chain = v.parts[pid.0 as int].nodes;
                let list = select(chain, marks, true);
                lemma_select_members(chain, marks, true);
                assert(v.parts[pid.0 as int].nodes.no_duplicates());
                assert forall|k: int| 0 <= k < list.len() implies v.live(#[trigger] list[k])
                    && v.pid(list[k]) == pid.0 by {
                    assert(list.contains(list[k]));
                    let j = choose|j: int|
                        0 <= j < chain.len() && chain[j] == list[k] && marks[j] == true;
                    assert(v.live(v.parts[pid.0 as int].nodes[j]));
                }
                lemma_order_live(v, pid.0 as int, list);
                law_sweep_removal(v, pid.0 as int, marks);
                law_removal(v, w, pid.0 as int, gone);
            },
            Op::Collect { pid } => {
                law_collection_step(v, pid);
                lemma_after_gc_marked(v, pid);
                law_sweep_removal(all_marked(v.restarted()), pid.0 as int, Seq::empty());
            },
            Op::Finalize { pid } => {
                law_finalize_step(v, pid);
            },
            Op::Release { pid, list } => {
                law_release_step(v, pid, list);
            },
            Op::GiveUp => {
                law_give_up(v);
            },
            _ => {},
        }
        if !(op is Finalize) {
            assert forall|p: GcPtr| #[trigger] v.live(p) implies (w.live(p) <==> !gone.contains(
                p,
            )) by {
                assert(gone.to_set().contains(p) <==> gone.contains(p));
            }
        }
    }
}

/// A run of operations: each state comes out of the one before by an operation that can be applied
/// to it. That every state is well-formed is what the operations promise.
pub open spec fn is_run<T: GcNode>(states: Seq<HeapView<T>>, ops: Seq<Op<T>>) -> bool {
    &&& states.len() == ops.len() + 1
    &&& forall|i: int| 0 <= i < states.len() ==> (#[trigger] states[i]).wf()
    &&& forall|i: int|
        0 <= i < ops.len() ==> (#[trigger] ops[i]).fits(states[i]) && states[i + 1]
            == ops[i].result(states[i])
}

/// However a heap was reached from a new one, the bytes accounted to a partition are those of its
/// nodes, and the total is the sum over the partitions. If no list of nodes taken out of the
/// partition is waiting to be disposed of, the nodes are those in its chain.
pub proof fn law_run_accounted<T: GcNode>(states: Seq<HeapView<T>>, ops: Seq<Op<T>>, i: int)
    requires
        is_run(states, ops),
        states[0].parts.len() == 0,
        0 <= i < states.last().parts.len(),
    ensures
        accounted(states.last()),
        states.last().total == sum_used(states.last().parts),
        states.last().all_chained(i) ==> states.last().parts[i].used == size_of_all(
            states.last().nodes,
            states.last().reg.infos,
            states.last().parts[i].nodes,
        ),
{
    lemma_run_accounted(states, ops);
    assert(states[states.len() - 1].wf());
    if states.last().all_chained(i) {
        law_memory_used(states.last(), i);
    }
}

proof fn lemma_run_accounted<T: GcNode>(states: Seq<HeapView<T>>, ops: Seq<Op<T>>)
    requires
        is_run(states, ops),
        states[0].parts.len() == 0,
    ensures
        accounted(states.last()),
    decreases ops.len(),
{
    if ops.len() == 0 {
        law_new_accounted(states[0]);
    } else {
        let n = ops.len() as int;
        let s = states.drop_last();
        let o = ops.drop_last();
        assert forall|i: int| 0 <= i < s.len() implies (#[trigger] s[i]).wf() by {
            assert(states[i].wf());
        }
        assert forall|i: int| 0 <= i < o.len() implies (#[trigger] o[i]).fits(s[i]) && s[i + 1]
            == o[i].result(s[i]) by {
            assert(ops[i].fits(states[i]));
        }
        lemma_run_accounted(s, o);
        assert(states[n - 1].wf());
        assert(ops[n - 1].fits(states[n - 1]));
        law_step(states[n - 1], ops[n - 1]);
    }
}

/// A weak reference over any run of operations: it gives its node as long as no operation disposed
/// of the node or finalized its partition, and nothing from then on, provided that its slot is not
/// taken into use again as often as there are versions.
pub proof fn law_run_weak<T: GcNode>(
    states: Seq<HeapView<T>>,
    ops: Seq<Op<T>>,
    id: GcWeakRawId,
    p: GcPtr,
)
    requires
        is_run(states, ops),
        states[0].upgraded(id) == Some(p),
        reuses(states, id.spec_index() as int) < 65535,
    ensures
        states.last().upgraded(id) == (if exists|i: int|
            0 <= i < ops.len() && (#[trigger] ops[i]).gone(states[i]).contains(p) {
            None
        } else {
            Some(p)
        }),
{
    let gone = Seq::new(ops.len(), |i: int| ops[i].gone(states[i]));
    assert forall|i: int| 0 <= i < gone.len() implies weak_follows(
        states[i],
        states[i + 1],
        #[trigger] gone[i],
    ) by {
        assert(states[i].wf());
        assert(ops[i].fits(states[i]));
        law_step(states[i], ops[i]);
    }
    law_weak_history(states, gone, id, p);
    if exists|i: int| 0 <= i < ops.len() && (#[trigger] ops[i]).gone(states[i]).contains(p) {
        let i = choose|i: int|
            0 <= i < ops.len() && (#[trigger] ops[i]).gone(states[i]).contains(p);
        assert(gone[i].contains(p));
    } else {
        assert forall|i: int| 0 <= i < gone.len() implies !(#[trigger] gone[i]).contains(p) by {
            assert(!ops[i].gone(states[i]).contains(p));
        }
    }
}

} // verus!
