//! What a collection keeps and what it removes.

use vstd::prelude::*;

use crate::collecting::{
    all_marked, lemma_all_marked, lemma_cleared_keeps, lemma_round, round_upto,
};
use crate::laws::reach::{
    anywhere, lemma_any_live, lemma_any_root, lemma_any_same, lemma_any_step, lemma_reachable_same,
    lemma_reachable_step, lemma_reaches_induct, reachable, reachable_any, reaches, same_graph,
};
use crate::laws::tricolor::{
    law_mark_tricolor, law_marked_safe, law_prepare_tricolor, lemma_expanded_colors,
    lemma_expanded_graph, lemma_expanded_shaded, lemma_popped_graph, lemma_popped_shaded,
    lemma_run_graph, shaded, tricolor,
};
use crate::lemmas::{
    keeps, lemma_filter_members, lemma_filter_same, lemma_keeps_trans, lemma_keeps_wf,
};
use crate::marking::{
    expanded, gray_kids, lemma_expanded_keeps, lemma_mark_run_keeps, lemma_popped_keeps,
    lemma_prepared_upto_keeps, mark_run, refs_of,
};
use crate::model::{held, size_of_all, HeapView};
use crate::node::{GcPartitionId, GcPtr, GcTriColor};
use crate::progress::{lemma_run_ends, lemma_run_is_full, lemma_run_parts, lemma_run_resumed};
use crate::scoping::lemma_held_local;
use crate::sweeping::{fully_marked, law_drop_order, lemma_emptied_swept, lemma_order_same};
use crate::trace::{GcNode, GcTrace};

verus! {

/// Nodes of the partition that are not white are reachable.
pub open spec fn grounded<T: GcTrace>(v: HeapView<T>, pid: int) -> bool {
    forall|p: GcPtr| #[trigger]
        v.live(p) && v.pid(p) == pid && v.color(p) != GcTriColor::White ==> reachable(v, pid, p)
}

proof fn lemma_run_grounded<T: GcTrace>(v: HeapView<T>, pid: int, steps: nat)
    requires
        0 <= pid < v.parts.len(),
        shaded(v, pid),
        grounded(v, pid),
    ensures
        grounded(mark_run(v, pid, steps).0, pid),
    decreases steps, v.parts[pid].gray.len(),
{
    if v.parts[pid].gray.len() > 0 {
        let p = v.parts[pid].gray.last();
        let w = v.popped(pid);
        lemma_popped_keeps(v, pid);
        lemma_popped_graph(v, pid);
        lemma_popped_shaded(v, pid, pid);
        assert(grounded(w, pid)) by {
            assert forall|q: GcPtr| #[trigger] w.live(q) && w.pid(q) == pid && w.color(q)
                != GcTriColor::White implies reachable(w, pid, q) by {
                assert(v.live(q));
                lemma_reachable_same(v, w, pid, q);
            }
        }
        if v.color(p) != GcTriColor::Gray {
            assert(shaded(w, pid));
            lemma_run_grounded(w, pid, steps);
        } else if steps == 0 {
            let e = w.gray_pushed(pid, p);
            assert(same_graph(w, e));
            assert forall|q: GcPtr| #[trigger] e.live(q) && e.pid(q) == pid && e.color(q)
                != GcTriColor::White implies reachable(e, pid, q) by {
                assert(w.live(q));
                lemma_reachable_same(w, e, pid, q);
            }
        } else {
            let e = expanded(w, p);
            let list = gray_kids(w, p);
            lemma_expanded_keeps(w, p);
            lemma_expanded_graph(w, p);
            lemma_expanded_colors(w, p);
            lemma_expanded_shaded(w, p, pid);
            assert(grounded(e, pid)) by {
                assert forall|q: GcPtr| #[trigger] e.live(q) && e.pid(q) == pid && e.color(q)
                    != GcTriColor::White implies reachable(e, pid, q) by {
                    assert(w.live(q));
                    if list.contains(q) {
                        assert(reachable(w, pid, p));
                        lemma_reachable_step(w, pid, p, q);
                    }
                    lemma_reachable_same(w, e, pid, q);
                }
            }
            lemma_run_grounded(e, pid, (steps - 1) as nat);
        }
    }
}

/// What full marking of a partition comes to, from a state in which the tri-color invariant
/// holds.
pub proof fn lemma_marked<T: GcNode>(v: HeapView<T>, pid: int)
    requires
        v.wf(),
        0 <= pid < v.parts.len(),
        tricolor(v, pid),
    ensures
        fully_marked(v, pid).wf(),
        keeps(v, fully_marked(v, pid)),
        same_graph(v, fully_marked(v, pid)),
        tricolor(fully_marked(v, pid), pid),
        fully_marked(v, pid).parts[pid].gray.len() == 0,
        fully_marked(v, pid).parts[pid].marking == v.parts[pid].marking,
        grounded(v, pid) ==> grounded(fully_marked(v, pid), pid),
{
    let n = v.nonblack();
    lemma_mark_run_keeps(v, pid, n);
    lemma_keeps_wf(v, fully_marked(v, pid));
    lemma_run_graph(v, pid, n);
    law_mark_tricolor(v, pid, n, pid);
    lemma_run_ends(v, pid, n);
    lemma_run_parts(v, pid, n);
    if grounded(v, pid) {
        lemma_run_grounded(v, pid, n);
    }
}

/// Nodes that are not white are reachable, through whatever partitions.
pub open spec fn grounded_any<T: GcTrace>(v: HeapView<T>) -> bool {
    forall|p: GcPtr| #[trigger]
        v.live(p) && v.color(p) != GcTriColor::White ==> reachable_any(v, p)
}

proof fn lemma_run_grounded_any<T: GcTrace>(v: HeapView<T>, pid: int, steps: nat)
    requires
        0 <= pid < v.parts.len(),
        grounded_any(v),
    ensures
        grounded_any(mark_run(v, pid, steps).0),
    decreases steps, v.parts[pid].gray.len(),
{
    if v.parts[pid].gray.len() > 0 {
        let p = v.parts[pid].gray.last();
        let w = v.popped(pid);
        lemma_popped_keeps(v, pid);
        lemma_popped_graph(v, pid);
        assert(grounded_any(w)) by {
            assert forall|q: GcPtr| #[trigger] w.live(q) && w.color(q)
                != GcTriColor::White implies reachable_any(w, q) by {
                assert(v.live(q));
                lemma_any_same(v, w, q);
            }
        }
        if !v.live(p) || v.color(p) != GcTriColor::Gray {
            lemma_run_grounded_any(w, pid, steps);
        } else if steps == 0 {
            let e = w.gray_pushed(pid, p);
            assert(same_graph(w, e));
            assert forall|q: GcPtr| #[trigger] e.live(q) && e.color(q)
                != GcTriColor::White implies reachable_any(e, q) by {
                assert(w.live(q));
                lemma_any_same(w, e, q);
            }
        } else {
            let e = expanded(w, p);
            let list = gray_kids(w, p);
            assert(w.live(p) && w.color(p) == GcTriColor::Gray);
            lemma_expanded_keeps(w, p);
            lemma_expanded_graph(w, p);
            lemma_expanded_colors(w, p);
            assert(grounded_any(e)) by {
                assert forall|q: GcPtr| #[trigger] e.live(q) && e.color(q)
                    != GcTriColor::White implies reachable_any(e, q) by {
                    assert(w.live(q));
                    if list.contains(q) {
                        assert(reachable_any(w, p));
                        lemma_any_step(w, p, q);
                    }
                    lemma_any_same(w, e, q);
                }
            }
            lemma_run_grounded_any(e, pid, (steps - 1) as nat);
        }
    }
}

/// The tri-color invariant holds in every partition.
pub open spec fn tricolor_all<T: GcTrace>(v: HeapView<T>) -> bool {
    forall|i: int| 0 <= i < v.parts.len() ==> #[trigger] tricolor(v, i)
}

pub proof fn lemma_graph_trans<T>(a: HeapView<T>, b: HeapView<T>, c: HeapView<T>)
    requires
        same_graph(a, b),
        same_graph(b, c),
    ensures
        same_graph(a, c),
{
    assert forall|p: GcPtr| #[trigger] a.live(p) implies c.nodes[p].payload == a.nodes[p].payload
        && c.pid(p) == a.pid(p) && c.pinned(p) == a.pinned(p) by {
        assert(b.live(p));
    }
}

proof fn lemma_round_marked<T: GcTrace>(v: HeapView<T>, n: nat)
    requires
        v.nodes.dom().finite(),
        n <= v.parts.len(),
        tricolor_all(v),
        grounded_any(v),
    ensures
        same_graph(v, round_upto(v, n)),
        tricolor_all(round_upto(v, n)),
        grounded_any(round_upto(v, n)),
    decreases n,
{
    if n > 0 {
        let u = round_upto(v, (n - 1) as nat);
        let w = round_upto(v, n);
        let i = n - 1;
        lemma_round_marked(v, (n - 1) as nat);
        lemma_round(v, (n - 1) as nat);
        lemma_run_graph(u, i, u.nonblack());
        lemma_run_parts(u, i, u.nonblack());
        lemma_run_grounded_any(u, i, u.nonblack());
        lemma_graph_trans(v, u, w);
        assert forall|k: int| 0 <= k < w.parts.len() implies #[trigger] tricolor(w, k) by {
            assert(tricolor(u, i) && tricolor(u, k));
            law_mark_tricolor(u, i, u.nonblack(), k);
        }
    }
}

/// What marking of all partitions comes to, from a state in which the tri-color invariant holds
/// and only reachable nodes are marked.
proof fn lemma_all_marked_exact<T: GcTrace>(v: HeapView<T>)
    requires
        v.nodes.dom().finite(),
        tricolor_all(v),
        grounded_any(v),
    ensures
        same_graph(v, all_marked(v)),
        tricolor_all(all_marked(v)),
        grounded_any(all_marked(v)),
    decreases v.nonblack(),
{
    if !v.no_gray() {
        let w = round_upto(v, v.parts.len());
        lemma_round(v, v.parts.len());
        lemma_round_marked(v, v.parts.len());
        if w.nonblack() < v.nonblack() {
            lemma_all_marked_exact(w);
            lemma_graph_trans(v, w, all_marked(w));
        }
    }
}

/// Every live node is in the chain of its partition: no list of nodes taken out of a partition
/// for a sweep is waiting to be disposed of.
pub open spec fn settled<T>(v: HeapView<T>) -> bool {
    forall|i: int| 0 <= i < v.parts.len() ==> #[trigger] v.all_chained(i)
}

/// When marking is given up and begun anew, the tri-color invariant holds in every partition, and
/// what is not white is a root or held by a scope.
proof fn lemma_restarted<T: GcTrace>(v: HeapView<T>)
    requires
        v.wf(),
        settled(v),
    ensures
        keeps(v, v.restarted()),
        v.restarted().wf(),
        same_graph(v, v.restarted()),
        tricolor_all(v.restarted()),
        grounded_any(v.restarted()),
        forall|i: int|
            0 <= i < v.parts.len() ==> (#[trigger] v.restarted().parts[i]).marking,
{
    let n = v.parts.len() as int;
    let c = v.cleared();
    let q = v.restarted();
    lemma_cleared_keeps(v, n);
    lemma_keeps_wf(v, c);
    lemma_prepared_upto_keeps(c, n);
    lemma_keeps_wf(c, q);
    lemma_keeps_trans(v, c, q);
    assert(same_graph(v, q)) by {
        assert forall|p: GcPtr| #[trigger] v.live(p) implies q.nodes[p].payload
            == v.nodes[p].payload && q.pid(p) == v.pid(p) && q.pinned(p) == v.pinned(p) by {
            assert(c.live(p));
        }
    }
    assert forall|i: int| 0 <= i < n implies #[trigger] c.fresh(i) by {
        assert(v.all_chained(i));
        assert forall|p: GcPtr| #[trigger] c.live(p) && c.pid(p) == i implies !c.head(p).listed
            && c.parts[i].nodes.contains(p) by {
            assert(v.live(p));
        }
    }
    if n > 0 {
        let first = GcPartitionId(0);
        assert(c.has_part(first));
        assert(c.prepared(first) == q);
        assert forall|i: int| 0 <= i < n implies #[trigger] tricolor(q, i) && q.parts[i].marking by {
            assert(c.fresh(i));
            law_prepare_tricolor(c, first, i);
        }
    }
    assert forall|p: GcPtr| #[trigger] q.live(p) && q.color(p)
        != GcTriColor::White implies reachable_any(q, p) by {
        assert(c.live(p));
        let i = c.pid(p);
        assert(c.fresh(i));
        law_prepare_tricolor(c, GcPartitionId(0), i);
        lemma_any_root(q, p);
    }
}

/// What a sweep leaves of a heap.
pub proof fn law_sweep_exact<T>(m: HeapView<T>, pid: int)
    requires
        m.wf(),
        0 <= pid < m.parts.len(),
    ensures
        ({
            let w = m.sweep_done(pid);
            &&& forall|p: GcPtr| #[trigger]
                w.live(p) <==> m.live(p) && !(m.parts[pid].nodes.contains(p) && m.dead(p))
            &&& forall|p: GcPtr| #[trigger] w.live(p) ==> w.nodes[p] == m.nodes[p]
            &&& w.parts.len() == m.parts.len()
            &&& w.parts[pid].nodes == m.parts[pid].nodes.filter(|p: GcPtr| !m.dead(p))
            &&& w.parts[pid].gray == m.parts[pid].gray
            &&& !w.parts[pid].marking
            &&& forall|i: int|
                0 <= i < m.parts.len() && i != pid ==> #[trigger] w.parts[i] == m.parts[i]
            &&& w.parts[pid].used == m.parts[pid].used - m.dead_bytes(pid)
            &&& w.total == m.total - m.dead_bytes(pid)
            &&& w.stacks == m.stacks
        }),
{
    let chain = m.parts[pid].nodes;
    let pred = |p: GcPtr| m.dead(p);
    let gone = m.drop_order(m.dead_nodes(pid));
    lemma_filter_members(chain, pred);
    lemma_filter_members(chain, |p: GcPtr| !m.dead(p));
    assert forall|k: int| 0 <= k < m.dead_nodes(pid).len() implies m.head(
        #[trigger] m.dead_nodes(pid)[k],
    ).dtype < m.reg.infos.len() by {
        let p = m.dead_nodes(pid)[k];
        assert(m.dead_nodes(pid).contains(p));
        let j = choose|j: int| 0 <= j < chain.len() && chain[j] == p;
        assert(m.live(m.parts[pid].nodes[j]));
    }
    law_drop_order(m, m.dead_nodes(pid));
    let u = m.unlinked(pid);
    let w = m.sweep_done(pid);
    assert(m.dead_bytes(pid) == crate::model::size_of_all(u.nodes, u.reg.infos, gone));
}

/// The state in which a collection sweeps: nothing is left to trace anywhere, and the nodes that
/// are not reachable are the white ones.
proof fn lemma_gc_state<T: GcNode>(v: HeapView<T>)
    requires
        v.wf(),
        settled(v),
    ensures
        ({
            let m = all_marked(v.restarted());
            &&& m.wf()
            &&& keeps(v, m)
            &&& same_graph(v, m)
            &&& m.no_gray()
            &&& tricolor_all(m)
            &&& forall|i: int| 0 <= i < v.parts.len() ==> (#[trigger] m.parts[i]).marking
            &&& forall|p: GcPtr| #[trigger] v.live(p) ==> m.dead(p) == !reachable_any(v, p)
        }),
{
    let q = v.restarted();
    let m = all_marked(q);
    lemma_restarted(v);
    lemma_all_marked(q);
    lemma_keeps_wf(q, m);
    lemma_keeps_trans(v, q, m);
    lemma_all_marked_exact(q);
    lemma_graph_trans(v, q, m);
    assert forall|i: int| 0 <= i < v.parts.len() implies (#[trigger] m.parts[i]).marking by {
        assert(q.parts[i].marking);
    }
    assert(same_graph(m, v)) by {
        assert forall|p: GcPtr| #[trigger] m.live(p) implies m.nodes[p].payload
            == v.nodes[p].payload && m.pid(p) == v.pid(p) && m.pinned(p) == v.pinned(p) by {
            assert(v.live(p));
        }
    }
    assert forall|p: GcPtr| #[trigger] v.live(p) implies m.dead(p) == !reachable_any(v, p) by {
        assert(m.live(p));
        if reachable_any(v, p) {
            lemma_any_same(v, m, p);
            law_marked_safe(m, p);
        }
        if !m.dead(p) {
            if m.pinned(p) {
                lemma_any_root(v, p);
            } else {
                assert(reachable_any(m, p));
                lemma_any_same(m, v, p);
            }
        }
    }
}

/// A collection of a partition removes exactly what is not reachable: a node of the partition
/// survives if and only if a root or a node held by a scope reaches it, through whatever
/// partitions. Nodes of other partitions survive, and survivors keep their payloads. The nodes
/// that are disposed of, and whose bytes are freed, are the others. Afterwards the partition is
/// between two marking cycles. It does not matter whether marking was under way before.
pub proof fn law_collection_exact<T: GcNode>(v: HeapView<T>, pid: GcPartitionId)
    requires
        v.wf(),
        v.has_part(pid),
        settled(v),
    ensures
        forall|p: GcPtr| #[trigger]
            v.after_gc(pid).live(p) <==> v.live(p) && (v.pid(p) == pid.0 ==> reachable_any(v, p)),
        forall|p: GcPtr| #[trigger]
            v.after_gc(pid).live(p) ==> v.after_gc(pid).nodes[p].payload == v.nodes[p].payload
                && v.after_gc(pid).pid(p) == v.pid(p) && v.after_gc(pid).pinned(p) == v.pinned(p),
        v.after_gc(pid).parts.len() == v.parts.len(),
        v.after_gc(pid).parts[pid.0 as int].nodes == v.parts[pid.0 as int].nodes.filter(
            |p: GcPtr| reachable_any(v, p),
        ),
        all_marked(v.restarted()).dead_nodes(pid.0 as int) == v.parts[pid.0 as int].nodes.filter(
            |p: GcPtr| !reachable_any(v, p),
        ),
        v.after_gc(pid).fresh(pid.0 as int),
        forall|i: int|
            0 <= i < v.parts.len() && i != pid.0 ==> (#[trigger] v.after_gc(pid).parts[i]).nodes
                == v.parts[i].nodes && v.after_gc(pid).parts[i].used == v.parts[i].used,
        settled(v.after_gc(pid)),
{
    let i = pid.0 as int;
    let m = all_marked(v.restarted());
    let w = v.after_gc(pid);
    lemma_gc_state(v);
    law_sweep_exact(m, i);
    let chain = v.parts[i].nodes;
    assert(m.parts[i].nodes == chain);
    assert(v.all_chained(i));
    assert forall|p: GcPtr| #[trigger] w.live(p) <==> v.live(p) && (v.pid(p) == i
        ==> reachable_any(v, p)) by {
        if v.live(p) && v.pid(p) != i && chain.contains(p) {
            let k = choose|k: int| 0 <= k < chain.len() && chain[k] == p;
            assert(v.pid(v.parts[i].nodes[k]) == i);
        }
        assert(m.live(p) == v.live(p));
    }
    assert forall|k: int| 0 <= k < chain.len() implies !m.dead(#[trigger] chain[k])
        == reachable_any(v, chain[k]) by {
        assert(v.live(v.parts[i].nodes[k]) && v.pid(v.parts[i].nodes[k]) == i);
    }
    lemma_filter_same(chain, |p: GcPtr| !m.dead(p), |p: GcPtr| reachable_any(v, p));
    lemma_filter_members(chain, |p: GcPtr| reachable_any(v, p));
    lemma_filter_same(chain, |p: GcPtr| m.dead(p), |p: GcPtr| !reachable_any(v, p));
    assert forall|p: GcPtr| #[trigger] w.live(p) implies w.nodes[p].payload == v.nodes[p].payload
        && w.pid(p) == v.pid(p) && w.pinned(p) == v.pinned(p) by {
        assert(v.live(p));
    }
    assert forall|k: int| 0 <= k < v.parts.len() && k != i implies (#[trigger] w.parts[k]).nodes
        == v.parts[k].nodes && w.parts[k].used == v.parts[k].used by {
        assert(w.parts[k] == m.parts[k]);
    }
    assert forall|k: int| 0 <= k < w.parts.len() implies #[trigger] w.all_chained(k) by {
        assert(v.all_chained(k));
        assert forall|p: GcPtr| #[trigger] w.live(p) && w.pid(p) == k implies w.parts[
            k
        ].nodes.contains(p) by {
            assert(v.live(p));
            assert(v.parts[k].nodes.contains(p));
        }
    }
    assert(w.fresh(i)) by {
        assert(w.all_chained(i));
        assert(m.parts[i].gray.len() == 0);
        assert(tricolor(m, i));
        assert forall|p: GcPtr| #[trigger] w.live(p) && w.pid(p) == i implies !w.head(
            p,
        ).listed by {
            assert(m.live(p) && v.live(p));
            if m.head(p).listed {
                assert(m.parts[i].gray.contains(p));
            }
        }
    }
}

/// Where the partition is in no marking cycle and nothing is left to trace anywhere, a collection
/// begins a cycle as `mark` does: there is nothing to be given up.
pub proof fn law_collection_begins<T: GcNode>(v: HeapView<T>, pid: GcPartitionId)
    requires
        v.wf(),
        v.has_part(pid),
        settled(v),
        !v.parts[pid.0 as int].marking,
        v.no_gray(),
        forall|p: GcPtr| #[trigger] v.live(p) ==> !v.head(p).listed,
    ensures
        v.restarted() == v.prepared(pid),
        v.after_gc(pid) == all_marked(v.prepared(pid)).sweep_done(pid.0 as int),
{
    let n = v.parts.len() as int;
    let c = v.cleared();
    let a = v.restarted();
    let b = v.prepared(pid);
    lemma_cleared_keeps(v, n);
    assert forall|p: GcPtr| #[trigger] v.live(p) implies a.nodes[p] == b.nodes[p] by {
        let i = v.pid(p);
        assert(c.live(p));
        assert(v.all_chained(i));
        assert(v.parts[i].nodes.contains(p));
        assert(v.parts[i].gray.len() == 0);
    }
    assert(a.nodes =~= b.nodes);
    assert forall|i: int| 0 <= i < n implies #[trigger] a.parts[i] == b.parts[i] by {
        let chain = v.parts[i].nodes;
        assert(v.parts[i].gray.len() == 0);
        assert(v.parts[i].gray =~= Seq::<GcPtr>::empty());
        assert forall|k: int| 0 <= k < chain.len() implies c.seeds(i, #[trigger] chain[k])
            == v.seeds(i, chain[k]) by {
            assert(v.live(v.parts[i].nodes[k]));
            assert(c.live(chain[k]));
        }
        lemma_filter_same(chain, |p: GcPtr| c.seeds(i, p), |p: GcPtr| v.seeds(i, p));
    }
    assert(a.parts =~= b.parts);
    assert(a =~= b);
}

/// What a collection leaves of the marking cycles: the tri-color invariant holds in every
/// partition and nothing is left to trace. The partition that was collected is not in a cycle any
/// more, the others are.
pub proof fn law_collection_tricolor<T: GcNode>(v: HeapView<T>, pid: GcPartitionId, other: int)
    requires
        v.wf(),
        v.has_part(pid),
        settled(v),
        0 <= other < v.parts.len(),
    ensures
        tricolor(v.after_gc(pid), other),
        v.after_gc(pid).parts[other].marking <==> other != pid.0,
        v.after_gc(pid).parts[other].gray.len() == 0,
{
    let i = pid.0 as int;
    let m = all_marked(v.restarted());
    let w = v.after_gc(pid);
    lemma_gc_state(v);
    law_sweep_exact(m, i);
    assert(tricolor(m, other));
    assert(m.parts[other].gray.len() == 0);
    assert(m.parts[other].marking);
    if other != i {
        assert(w.parts[other] == m.parts[other]);
    }
    assert(w.parts[other].gray == m.parts[other].gray);
    assert forall|a: GcPtr| #[trigger]
        w.live(a) && w.pid(a) == other && (w.color(a) == GcTriColor::Gray
            || w.head(a).listed) implies w.parts[other].gray.contains(a) by {
        assert(m.live(a));
    }
    assert forall|a: GcPtr| #[trigger] w.live(a) && w.pid(a) == other && w.pinned(
        a,
    ) implies w.color(a) != GcTriColor::White by {
        assert(m.live(a));
    }
    assert forall|a: GcPtr, b: GcPtr|
        w.live(a) && w.pid(a) == other && w.color(a) == GcTriColor::Black && w.live(b)
            && #[trigger] refs_of(w, a).contains(b) implies w.color(b) != GcTriColor::White by {
        assert(m.live(a) && m.live(b));
        assert(refs_of(m, a).contains(b));
    }
}

/// Marking in steps comes to the same as marking at once: a run that stopped early is taken up
/// where it stopped, and every run that comes to its end ends in the same state.
pub proof fn law_marking_in_steps<T: GcNode>(v: HeapView<T>, pid: GcPartitionId, a: nat, b: nat)
    requires
        v.wf(),
        !mark_run(v, pid.0 as int, a).1,
    ensures
        mark_run(mark_run(v, pid.0 as int, a).0, pid.0 as int, b) == mark_run(
            v,
            pid.0 as int,
            a + b,
        ),
        mark_run(v, pid.0 as int, a + b).1 ==> mark_run(v, pid.0 as int, a + b).0 == fully_marked(
            v,
            pid.0 as int,
        ),
{
    lemma_run_resumed(v, pid.0 as int, a, b);
    if mark_run(v, pid.0 as int, a + b).1 {
        lemma_run_is_full(v, pid.0 as int, a + b);
    }
}

/// A root, and a node held by a scope, survives every sweep, whatever was marked.
pub proof fn law_pinned_survives<T>(m: HeapView<T>, pid: int, p: GcPtr)
    requires
        m.wf(),
        0 <= pid < m.parts.len(),
        (m.live(p) && m.head(p).root) || held(m.stacks, p),
    ensures
        m.sweep_done(pid).live(p),
        m.sweep_done(pid).nodes[p] == m.nodes[p],
{
    if held(m.stacks, p) {
        lemma_held_local(m, p);
    }
    law_sweep_exact(m, pid);
    assert(m.sweep_done(pid).live(p));
}

/// A second collection right after the first one finds nothing to remove.
pub proof fn law_collection_again<T: GcNode>(v: HeapView<T>, pid: GcPartitionId)
    requires
        v.wf(),
        v.has_part(pid),
        settled(v),
        v.after_gc(pid).wf(),
    ensures
        v.after_gc(pid).after_gc(pid).nodes.dom() == v.after_gc(pid).nodes.dom(),
        v.after_gc(pid).after_gc(pid).parts[pid.0 as int].nodes == v.after_gc(
            pid,
        ).parts[pid.0 as int].nodes,
{
    let i = pid.0 as int;
    let w = v.after_gc(pid);
    let x = w.after_gc(pid);
    law_collection_exact(v, pid);
    law_collection_exact(w, pid);
    assert forall|p: GcPtr| #[trigger] w.live(p) && w.pid(p) == i implies reachable_any(w, p) by {
        assert(reachable_any(v, p));
        lemma_survivor_reachable(v, w, i, p);
    }
    assert(x.nodes.dom() =~= w.nodes.dom()) by {
        assert forall|p: GcPtr| #[trigger] x.nodes.dom().contains(p) <==> w.nodes.dom().contains(
            p,
        ) by {
            assert(x.live(p) <==> w.live(p));
        }
    }
    let chain = w.parts[i].nodes;
    assert forall|k: int| 0 <= k < chain.len() implies reachable_any(w, #[trigger] chain[k]) by {
        assert(w.live(w.parts[i].nodes[k]) && w.pid(w.parts[i].nodes[k]) == i);
    }
    lemma_filter_same(chain, |p: GcPtr| reachable_any(w, p), |p: GcPtr| true);
    lemma_filter_all(chain);
}

proof fn lemma_filter_all<A>(s: Seq<A>)
    ensures
        s.filter(|x: A| true) == s,
    decreases s.len(),
{
    reveal(Seq::filter);
    if s.len() > 0 {
        lemma_filter_all(s.drop_last());
        assert(s.drop_last().push(s.last()) =~= s);
    }
}

/// The state in which a collection sweeps differs from the one before it in marks only.
pub proof fn lemma_after_gc_marked<T: GcNode>(v: HeapView<T>, pid: GcPartitionId)
    requires
        v.wf(),
        v.has_part(pid),
    ensures
        keeps(v, all_marked(v.restarted())),
        all_marked(v.restarted()).wf(),
        v.after_gc(pid).parts.len() == v.parts.len(),
{
    let n = v.parts.len() as int;
    let c = v.cleared();
    let q = v.restarted();
    let m = all_marked(q);
    lemma_cleared_keeps(v, n);
    lemma_prepared_upto_keeps(c, n);
    lemma_keeps_trans(v, c, q);
    lemma_keeps_wf(v, q);
    lemma_all_marked(q);
    lemma_keeps_wf(q, m);
    lemma_keeps_trans(v, q, m);
}

/// What is reachable stays so when nodes that are not reachable are removed.
proof fn lemma_survivor_reachable<T: GcTrace>(v: HeapView<T>, w: HeapView<T>, pid: int, p: GcPtr)
    requires
        reachable_any(v, p),
        forall|q: GcPtr| #[trigger]
            w.live(q) <==> v.live(q) && (v.pid(q) == pid ==> reachable_any(v, q)),
        forall|q: GcPtr| #[trigger]
            w.live(q) ==> w.nodes[q].payload == v.nodes[q].payload && w.pid(q) == v.pid(q)
                && w.pinned(q) == v.pinned(q),
    ensures
        reachable_any(w, p),
{
    let ok = anywhere();
    let root = choose|root: GcPtr|
        v.live(root) && v.pinned(root) && #[trigger] reaches(v, anywhere(), root, p);
    let inv = |q: GcPtr| reachable_any(w, q) && reachable_any(v, q);
    assert(inv(root)) by {
        lemma_any_root(v, root);
        assert(w.live(root));
        lemma_any_root(w, root);
    }
    assert forall|x: GcPtr, y: GcPtr|
        v.live(x) && ok(x) && inv(x) && v.live(y) && ok(y) && #[trigger] refs_of(v, x).contains(
            y,
        ) implies #[trigger] inv(y) by {
        lemma_any_live(w, x);
        lemma_any_step(v, x, y);
        assert(w.live(y));
        lemma_any_step(w, x, y);
    }
    lemma_reaches_induct(v, ok, root, p, inv);
}

/// Sweeping in three steps, with the payloads dropped in the second one, comes to the same as
/// sweeping in one go.
pub proof fn law_sweep_in_steps<T>(v: HeapView<T>, pid: GcPartitionId)
    requires
        v.wf(),
        v.sweepable(pid),
    ensures
        ({
            let i = pid.0 as int;
            let white = v.dead_nodes(i);
            let e = v.unlinked(i).emptied(white);
            &&& e.swept(i, e.drop_order(white)) == v.sweep_done(i)
            &&& size_of_all(e.nodes, e.reg.infos, e.drop_order(white)) == v.dead_bytes(i)
        }),
{
    let i = pid.0 as int;
    let white = v.dead_nodes(i);
    let u = v.unlinked(i);
    let e = u.emptied(white);
    lemma_filter_members(v.parts[i].nodes, |p: GcPtr| v.dead(p));
    assert forall|k: int| 0 <= k < white.len() implies u.live(#[trigger] white[k]) && e.drop_pass(
        white[k],
    ) == v.drop_pass(white[k]) && v.head(white[k]).dtype < v.reg.infos.len() by {
        assert(white.contains(white[k]));
        let x = choose|x: int| 0 <= x < v.parts[i].nodes.len() && v.parts[i].nodes[x] == white[k];
        assert(v.live(v.parts[i].nodes[x]));
    }
    lemma_order_same(e, v, white, v.reg.passes.len() as int);
    let gone = v.drop_order(white);
    law_drop_order(v, white);
    assert forall|k: int| 0 <= k < gone.len() implies u.live(#[trigger] gone[k]) by {
        assert(gone.contains(gone[k]));
        let x = choose|x: int| 0 <= x < white.len() && white[x] == gone[k];
        assert(u.live(white[x]));
    }
    lemma_emptied_swept(u, i, white, gone);
}

} // verus!
