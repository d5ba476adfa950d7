//! Memory accounting.

use vstd::prelude::*;

use crate::collecting::all_marked;
use crate::gctype::GcTypeInfo;
use crate::heap::threshold_cap;
use crate::laws::collection::{law_sweep_exact, lemma_after_gc_marked};
use crate::lemmas::{
    lemma_bytes_none, lemma_bytes_remove, lemma_bytes_same, lemma_filter_members, lemma_push_members,
};
use crate::model::{bytes_of, share, size_of_all, sum_used, HeapView, PartView};
use crate::node::{GcPartitionId, GcPtr};
use crate::sweeping::law_drop_order;
use crate::table::NodeView;
use crate::trace::GcNode;

verus! {

/// The bytes accounted to every partition are those of its nodes.
pub open spec fn accounted<T>(v: HeapView<T>) -> bool {
    forall|i: int|
        0 <= i < v.parts.len() ==> (#[trigger] v.parts[i]).used == bytes_of(
            v.nodes,
            v.reg.infos,
            i,
        )
}

/// An allocation accounts the size of the node to its partition and to the total.
pub proof fn law_alloc_accounted<T>(
    v: HeapView<T>,
    p: GcPtr,
    pid: GcPartitionId,
    dtype: u8,
    payload: T,
    skip_arena: bool,
)
    requires
        v.wf(),
        accounted(v),
        !v.live(p),
        v.has_part(pid),
    ensures
        accounted(v.allocated(p, pid, dtype, payload, skip_arena)),
        v.allocated(p, pid, dtype, payload, skip_arena).total == v.total
            + v.reg.infos[dtype as int].layout_size,
{
    let w = v.allocated(p, pid, dtype, payload, skip_arena);
    assert forall|i: int| 0 <= i < w.parts.len() implies (#[trigger] w.parts[i]).used == bytes_of(
        w.nodes,
        w.reg.infos,
        i,
    ) by {
        lemma_bytes_remove(w.nodes, v.reg.infos, i, p);
        assert(w.nodes.remove(p) =~= v.nodes);
        assert(v.parts[i].used == bytes_of(v.nodes, v.reg.infos, i));
    }
}

/// Under a memory limit, an allocation that is not refused stays within it.
pub proof fn law_limit_kept<T>(
    v: HeapView<T>,
    p: GcPtr,
    pid: GcPartitionId,
    dtype: u8,
    payload: T,
    skip_arena: bool,
)
    requires
        v.limit > 0,
        v.alloc_error(pid, dtype) is None,
    ensures
        v.allocated(p, pid, dtype, payload, skip_arena).total <= v.allocated(
            p,
            pid,
            dtype,
            payload,
            skip_arena,
        ).limit,
{
}

proof fn lemma_bytes_gone<T>(
    nodes: Map<GcPtr, NodeView<T>>,
    infos: Seq<GcTypeInfo>,
    pid: int,
    gone: Seq<GcPtr>,
    i: int,
)
    requires
        nodes.dom().finite(),
        gone.no_duplicates(),
        forall|k: int|
            0 <= k < gone.len() ==> nodes.dom().contains(#[trigger] gone[k])
                && nodes[gone[k]].head.partition.0 == pid,
    ensures
        nodes.remove_keys(gone.to_set()).dom().finite(),
        bytes_of(nodes.remove_keys(gone.to_set()), infos, i) == bytes_of(nodes, infos, i) - (if i
            == pid {
            size_of_all(nodes, infos, gone)
        } else {
            0
        }),
    decreases gone.len(),
{
    let left = nodes.remove_keys(gone.to_set());
    assert(left.dom() =~= nodes.dom().difference(gone.to_set()));
    if gone.len() == 0 {
        assert(left =~= nodes);
    } else {
        let rest = gone.drop_last();
        let p = gone.last();
        assert forall|k: int| 0 <= k < rest.len() implies nodes.dom().contains(#[trigger] rest[k])
            && nodes[rest[k]].head.partition.0 == pid by {
            assert(rest[k] == gone[k]);
        }
        lemma_bytes_gone(nodes, infos, pid, rest, i);
        let before = nodes.remove_keys(rest.to_set());
        assert(gone =~= rest.push(p));
        lemma_push_members(rest, p);
        assert(!rest.contains(p)) by {
            if rest.contains(p) {
                let k = choose|k: int| 0 <= k < rest.len() && rest[k] == p;
                assert(gone[k] == gone[gone.len() - 1]);
            }
        }
        assert(nodes.dom().contains(gone[gone.len() - 1]));
        assert(left =~= before.remove(p));
        lemma_bytes_remove(before, infos, i, p);
        assert(before[p] == nodes[p]);
    }
}

/// Disposing of nodes of a partition takes their size off its account, and no more.
pub proof fn law_dispose_accounted<T>(v: HeapView<T>, pid: int, gone: Seq<GcPtr>)
    requires
        v.nodes.dom().finite(),
        accounted(v),
        0 <= pid < v.parts.len(),
        gone.no_duplicates(),
        forall|k: int|
            0 <= k < gone.len() ==> v.live(#[trigger] gone[k]) && v.pid(gone[k]) == pid,
    ensures
        accounted(v.disposed(pid, gone)),
{
    let w = v.disposed(pid, gone);
    assert forall|i: int| 0 <= i < w.parts.len() implies (#[trigger] w.parts[i]).used == bytes_of(
        w.nodes,
        w.reg.infos,
        i,
    ) by {
        assert forall|k: int| 0 <= k < gone.len() implies v.nodes.dom().contains(
            #[trigger] gone[k],
        ) && v.nodes[gone[k]].head.partition.0 == pid by {
            assert(v.live(gone[k]));
        }
        lemma_bytes_gone(v.nodes, v.reg.infos, pid, gone, i);
        assert(v.parts[i].used == bytes_of(v.nodes, v.reg.infos, i));
    }
}

/// A collection leaves the bytes of the survivors on the account.
pub proof fn law_collection_accounted<T: GcNode>(v: HeapView<T>, pid: GcPartitionId)
    requires
        v.wf(),
        v.has_part(pid),
        accounted(v),
    ensures
        accounted(v.after_gc(pid)),
        v.after_gc(pid).total == v.total - all_marked(v.restarted()).dead_bytes(
            pid.0 as int,
        ),
{
    let i = pid.0 as int;
    let m = all_marked(v.restarted());
    let w = v.after_gc(pid);
    lemma_after_gc_marked(v, pid);
    law_sweep_exact(m, i);
    assert(accounted(m)) by {
        assert forall|k: int| 0 <= k < m.parts.len() implies (#[trigger] m.parts[k]).used
            == bytes_of(m.nodes, m.reg.infos, k) by {
            assert forall|p: GcPtr| #[trigger] v.nodes.dom().contains(p) implies share(
                v.reg.infos,
                v.nodes[p],
                k,
            ) == share(v.reg.infos, m.nodes[p], k) by {
                assert(v.live(p));
            }
            lemma_bytes_same(v.nodes, m.nodes, v.reg.infos, k);
            assert(v.parts[k].used == bytes_of(v.nodes, v.reg.infos, k));
        }
    }
    let chain = m.parts[i].nodes;
    let dead = m.dead_nodes(i);
    lemma_filter_members(chain, |p: GcPtr| m.dead(p));
    assert forall|k: int| 0 <= k < dead.len() implies m.live(#[trigger] dead[k]) && m.pid(dead[k])
        == i && m.head(dead[k]).dtype < m.reg.infos.len() by {
        let p = dead[k];
        assert(dead.contains(p));
        let j = choose|j: int| 0 <= j < chain.len() && chain[j] == p;
        assert(m.live(m.parts[i].nodes[j]));
    }
    law_drop_order(m, dead);
    let gone = m.drop_order(dead);
    assert forall|k: int| 0 <= k < gone.len() implies m.live(#[trigger] gone[k]) && m.pid(gone[k])
        == i by {
        assert(gone.contains(gone[k]));
        let j = choose|j: int| 0 <= j < dead.len() && dead[j] == gone[k];
        assert(m.live(dead[j]));
    }
    law_dispose_accounted(m, i, gone);
    let x = m.disposed(i, gone);
    assert(w.nodes =~= x.nodes) by {
        assert forall|p: GcPtr| #[trigger] w.nodes.dom().contains(p) <==> x.nodes.dom().contains(
            p,
        ) by {
            assert(w.live(p) <==> m.live(p) && !(chain.contains(p) && m.dead(p)));
        }
        assert forall|p: GcPtr| #[trigger] w.nodes.dom().contains(p) implies w.nodes[p]
            == x.nodes[p] by {
            assert(w.live(p));
        }
    }
    assert forall|k: int| 0 <= k < w.parts.len() implies (#[trigger] w.parts[k]).used == bytes_of(
        w.nodes,
        w.reg.infos,
        k,
    ) by {
        assert(x.parts[k].used == bytes_of(x.nodes, x.reg.infos, k));
        assert(k != i ==> w.parts[k] == m.parts[k]);
        assert(w.reg == m.reg);
    }
}

/// Where no list of nodes taken out of a partition is waiting to be disposed of, the bytes
/// accounted to the partition are those of the nodes in its chain. The total is the sum over the
/// partitions.
pub proof fn law_memory_used<T>(v: HeapView<T>, i: int)
    requires
        v.wf(),
        accounted(v),
        0 <= i < v.parts.len(),
        v.all_chained(i),
    ensures
        v.parts[i].used == size_of_all(v.nodes, v.reg.infos, v.parts[i].nodes),
        v.total == sum_used(v.parts),
{
    let chain = v.parts[i].nodes;
    assert forall|k: int| 0 <= k < chain.len() implies v.nodes.dom().contains(#[trigger] chain[k])
        && v.nodes[chain[k]].head.partition.0 == i by {
        assert(v.live(v.parts[i].nodes[k]) && v.pid(v.parts[i].nodes[k]) == i);
    }
    lemma_bytes_gone(v.nodes, v.reg.infos, i, chain, i);
    let left = v.nodes.remove_keys(chain.to_set());
    assert forall|p: GcPtr| #[trigger] left.dom().contains(p) implies left[p].head.partition.0
        != i by {
        assert(v.live(p));
        assert(chain.to_set().contains(p) <==> chain.contains(p));
    }
    lemma_bytes_none(left, v.reg.infos, i);
    assert(v.parts[i].used == bytes_of(v.nodes, v.reg.infos, i));
}

/// The accounts of a new heap are right: it has neither partitions nor nodes.
pub proof fn law_new_accounted<T>(v: HeapView<T>)
    requires
        v.parts.len() == 0,
    ensures
        accounted(v),
{
}

/// A heap without nodes uses no memory.
pub proof fn law_empty_accounted<T>(v: HeapView<T>)
    requires
        v.wf(),
        accounted(v),
        forall|p: GcPtr| !(#[trigger] v.live(p)),
    ensures
        v.total == 0,
        forall|i: int| 0 <= i < v.parts.len() ==> (#[trigger] v.parts[i]).used == 0,
{
    assert forall|i: int| 0 <= i < v.parts.len() implies (#[trigger] v.parts[i]).used == 0 by {
        assert forall|p: GcPtr| #[trigger]
            v.nodes.dom().contains(p) implies v.nodes[p].head.partition.0 != i by {
            assert(v.live(p));
        }
        lemma_bytes_none(v.nodes, v.reg.infos, i);
    }
    lemma_sum_zero(v.parts);
}

proof fn lemma_sum_zero(parts: Seq<PartView>)
    requires
        forall|i: int| 0 <= i < parts.len() ==> (#[trigger] parts[i]).used == 0,
    ensures
        sum_used(parts) == 0,
    decreases parts.len(),
{
    if parts.len() > 0 {
        assert forall|i: int| 0 <= i < parts.drop_last().len() implies (
        #[trigger] parts.drop_last()[i]).used == 0 by {
            assert(parts[i].used == 0);
        }
        lemma_sum_zero(parts.drop_last());
        assert(parts[parts.len() - 1].used == 0);
    }
}

/// A threshold that was capped under a limit is below it.
pub proof fn law_threshold_below_limit(limit: int)
    requires
        0 < limit <= usize::MAX,
    ensures
        0 <= threshold_cap(limit) < limit,
{
}

} // verus!
