//! What marking a partition comes to.

use vstd::prelude::*;

use crate::laws::collection::{grounded, lemma_graph_trans, lemma_marked};
use crate::laws::cycle::law_reset_sound;
use crate::laws::reach::{
    anywhere, is_path, lemma_reachable_root, lemma_reachable_same, lemma_reachable_step,
    lemma_reaches_induct, reachable, reaches, same_graph, within,
};
use crate::laws::sound::{inside, sound};
use crate::laws::tricolor::{law_marked_safe_inside, law_prepare_tricolor};
use crate::lemmas::{keeps, lemma_keeps_trans, lemma_keeps_wf};
use crate::marking::{lemma_mark_dropped_keeps, lemma_prepared_keeps, mark_run, refs_of};
use crate::model::HeapView;
use crate::node::{GcPartitionId, GcPtr, GcTriColor};
use crate::progress::{
    lemma_run_is_full, lemma_run_parts, lemma_run_resumed, lemma_run_stopped,
};
use crate::sweeping::fully_marked;
use crate::trace::GcNode;

verus! {

/// Marking of a partition that is between two cycles, run to its end, marks exactly the nodes
/// that its roots and the nodes of it that are held by scopes reach inside the partition, these
/// included.
pub proof fn law_mark_exact<T: GcNode>(v: HeapView<T>, pid: GcPartitionId)
    requires
        v.wf(),
        v.has_part(pid),
        v.fresh(pid.0 as int),
    ensures
        ({
            let m = fully_marked(v.prepared(pid), pid.0 as int);
            &&& m.wf()
            &&& keeps(v, m)
            &&& same_graph(v, m)
            &&& m.sweepable(pid)
            &&& sound(m, pid.0 as int)
            &&& forall|p: GcPtr| #[trigger]
                inside(v, pid.0 as int, p) ==> (m.color(p) != GcTriColor::White <==> reachable(
                    v,
                    pid.0 as int,
                    p,
                ))
        }),
{
    let i = pid.0 as int;
    let q = v.prepared(pid);
    let m = fully_marked(q, i);
    law_prepare_tricolor(v, pid, i);
    lemma_prepared_keeps(v, pid);
    lemma_keeps_wf(v, q);
    assert(same_graph(v, q));
    assert(grounded(q, i)) by {
        assert forall|p: GcPtr| #[trigger] q.live(p) && q.pid(p) == i && q.color(p)
            != GcTriColor::White implies reachable(q, i, p) by {
            assert(v.live(p));
            lemma_reachable_root(q, i, p);
        }
    }
    lemma_marked(q, i);
    lemma_keeps_trans(v, q, m);
    lemma_graph_trans(v, q, m);
    assert(same_graph(m, v)) by {
        assert forall|p: GcPtr| #[trigger] m.live(p) implies m.nodes[p].payload
            == v.nodes[p].payload && m.pid(p) == v.pid(p) && m.pinned(p) == v.pinned(p) by {
            assert(v.live(p));
        }
    }
    assert(m.all_chained(i)) by {
        assert forall|p: GcPtr| #[trigger] m.live(p) && m.pid(p) == i implies m.parts[
            i
        ].nodes.contains(p) by {
            assert(v.live(p));
        }
    }
    assert forall|p: GcPtr| #[trigger] inside(v, i, p) implies (m.color(p) != GcTriColor::White
        <==> reachable(v, i, p)) by {
        assert(m.live(p) && m.pid(p) == i);
        if reachable(v, i, p) {
            lemma_reachable_same(v, m, i, p);
            law_marked_safe_inside(m, i, p);
        }
        if m.color(p) != GcTriColor::White {
            assert(reachable(m, i, p));
            lemma_reachable_same(m, v, i, p);
        }
    }
}

/// Two complete runs of marking, with the first one given up in between, mark the same nodes:
/// those that are reachable inside the partition.
pub proof fn law_mark_again<T: GcNode>(v: HeapView<T>, pid: GcPartitionId)
    requires
        v.wf(),
        v.has_part(pid),
        v.fresh(pid.0 as int),
    ensures
        ({
            let i = pid.0 as int;
            let a = fully_marked(v.prepared(pid), i);
            let b = fully_marked(a.mark_dropped(i).prepared(pid), i);
            forall|p: GcPtr| #[trigger]
                inside(v, i, p) ==> {
                    &&& a.color(p) != GcTriColor::White <==> reachable(v, i, p)
                    &&& b.color(p) != GcTriColor::White <==> reachable(v, i, p)
                }
        }),
{
    let i = pid.0 as int;
    let a = fully_marked(v.prepared(pid), i);
    let r = a.mark_dropped(i);
    let b = fully_marked(r.prepared(pid), i);
    law_mark_exact(v, pid);
    law_reset_sound(a, i, i);
    lemma_mark_dropped_keeps(a, i);
    lemma_keeps_wf(a, r);
    assert(same_graph(a, r));
    lemma_graph_trans(v, a, r);
    law_mark_exact(r, pid);
    assert(same_graph(r, v)) by {
        assert forall|p: GcPtr| #[trigger] r.live(p) implies r.nodes[p].payload
            == v.nodes[p].payload && r.pid(p) == v.pid(p) && r.pinned(p) == v.pinned(p) by {
            assert(v.live(p));
        }
    }
    assert forall|p: GcPtr| #[trigger] inside(v, i, p) implies {
        &&& a.color(p) != GcTriColor::White <==> reachable(v, i, p)
        &&& b.color(p) != GcTriColor::White <==> reachable(v, i, p)
    } by {
        assert(v.live(p));
        assert(inside(r, i, p));
        if reachable(v, i, p) {
            lemma_reachable_same(v, r, i, p);
        }
        if reachable(r, i, p) {
            lemma_reachable_same(r, v, i, p);
        }
    }
}

/// The heap after up to `n` calls of `mark` with `k` steps each, until one says that nothing is
/// left to trace, and whether one did.
pub open spec fn mark_calls<T: GcNode>(v: HeapView<T>, pid: GcPartitionId, k: nat, n: nat) -> (
    HeapView<T>,
    bool,
)
    decreases n,
{
    if n == 0 {
        (v, false)
    } else {
        let (w, done) = mark_calls(v, pid, k, (n - 1) as nat);
        if done {
            (w, true)
        } else {
            mark_run(w.prepared(pid), pid.0 as int, k)
        }
    }
}

/// Calling `mark` until it says that nothing is left to trace comes to an end, cycles of
/// references or not, and always in the same state: that of full marking.
pub proof fn law_mark_loop<T: GcNode>(v: HeapView<T>, pid: GcPartitionId, k: nat, n: nat)
    requires
        v.wf(),
        v.has_part(pid),
        k > 0,
        n > v.prepared(pid).nonblack(),
    ensures
        mark_calls(v, pid, k, n).1,
        mark_calls(v, pid, k, n).0 == fully_marked(v.prepared(pid), pid.0 as int),
{
    let q = v.prepared(pid);
    lemma_prepared_keeps(v, pid);
    lemma_mark_calls(v, pid, k, n);
    if !mark_calls(v, pid, k, n).1 {
        lemma_run_stopped(q, pid.0 as int, n * k);
        assert(n * k >= n) by (nonlinear_arith)
            requires
                k > 0,
        ;
    }
}

proof fn lemma_mark_calls<T: GcNode>(v: HeapView<T>, pid: GcPartitionId, k: nat, n: nat)
    requires
        v.wf(),
        v.has_part(pid),
        n > 0,
    ensures
        ({
            let q = v.prepared(pid);
            let i = pid.0 as int;
            let (w, done) = mark_calls(v, pid, k, n);
            &&& done ==> w == fully_marked(q, i)
            &&& !done ==> mark_run(q, i, n * k) == (w, false)
        }),
    decreases n,
{
    let q = v.prepared(pid);
    let i = pid.0 as int;
    lemma_prepared_keeps(v, pid);
    if n == 1 {
        assert(mark_calls(v, pid, k, 0) == (v, false));
        assert(mark_calls(v, pid, k, n) == mark_run(q, i, k));
        if mark_run(q, i, k).1 {
            lemma_run_is_full(q, i, k);
        }
    } else {
        let m = (n - 1) as nat;
        let (w, done) = mark_calls(v, pid, k, m);
        lemma_mark_calls(v, pid, k, m);
        if !done {
            lemma_run_parts(q, i, m * k);
            assert(w.parts[i].marking == q.parts[i].marking);
            assert(w.prepared(pid) == w);
            lemma_run_resumed(q, i, m * k, k);
            assert(m * k + k == n * k) by (nonlinear_arith)
                requires
                    m == n - 1,
            ;
            if mark_run(q, i, n * k).1 {
                lemma_run_is_full(q, i, n * k);
            }
        }
    }
}

/// Marking by calls of `mark` with `k` steps each, giving the cycle up, and marking by calls with
/// `j` steps each: both loops come to an end, and both mark exactly the nodes that are reachable
/// inside the partition.
pub proof fn law_mark_loops<T: GcNode>(
    v: HeapView<T>,
    pid: GcPartitionId,
    k: nat,
    n: nat,
    j: nat,
    m: nat,
)
    requires
        v.wf(),
        v.has_part(pid),
        v.fresh(pid.0 as int),
        k > 0,
        j > 0,
        n > v.prepared(pid).nonblack(),
        m > mark_calls(v, pid, k, n).0.mark_dropped(pid.0 as int).prepared(pid).nonblack(),
    ensures
        ({
            let i = pid.0 as int;
            let (a, a_done) = mark_calls(v, pid, k, n);
            let (b, b_done) = mark_calls(a.mark_dropped(i), pid, j, m);
            &&& a_done && b_done
            &&& forall|p: GcPtr| #[trigger]
                inside(v, i, p) ==> {
                    &&& a.color(p) != GcTriColor::White <==> reachable(v, i, p)
                    &&& b.color(p) != GcTriColor::White <==> reachable(v, i, p)
                }
        }),
{
    let i = pid.0 as int;
    law_mark_loop(v, pid, k, n);
    let a = fully_marked(v.prepared(pid), i);
    let r = a.mark_dropped(i);
    law_mark_exact(v, pid);
    lemma_mark_dropped_keeps(a, i);
    lemma_keeps_wf(a, r);
    law_mark_loop(r, pid, j, m);
    law_mark_again(v, pid);
}

/// References of nodes of the partition lead to nodes of the partition.
pub open spec fn self_contained<T: GcNode>(v: HeapView<T>, pid: int) -> bool {
    forall|a: GcPtr, b: GcPtr|
        inside(v, pid, a) && v.live(b) && #[trigger] refs_of(v, a).contains(b) ==> v.pid(b) == pid
}

/// Where references stay inside the partition, what its roots and the nodes of it that are held by
/// scopes reach inside it is what they reach at all.
pub proof fn law_reach_inside<T: GcNode>(v: HeapView<T>, pid: int, p: GcPtr)
    requires
        self_contained(v, pid),
    ensures
        reachable(v, pid, p) <==> exists|root: GcPtr|
            v.live(root) && v.pid(root) == pid && v.pinned(root) && #[trigger] reaches(
                v,
                anywhere(),
                root,
                p,
            ),
{
    if reachable(v, pid, p) {
        let root = choose|root: GcPtr|
            v.live(root) && v.pid(root) == pid && v.pinned(root) && #[trigger] reaches(
                v,
                within(v, pid),
                root,
                p,
            );
        let path = choose|path: Seq<GcPtr>| #[trigger]
            is_path(v, within(v, pid), path) && path[0] == root && path.last() == p;
        assert(is_path(v, anywhere(), path)) by {
            assert forall|k: int| 0 <= k < path.len() implies v.live(#[trigger] path[k]) by {
                assert(v.live(path[k]) && within(v, pid)(path[k]));
            }
        }
        assert(reaches(v, anywhere(), root, p));
    }
    if exists|root: GcPtr|
        v.live(root) && v.pid(root) == pid && v.pinned(root) && #[trigger] reaches(
            v,
            anywhere(),
            root,
            p,
        ) {
        let root = choose|root: GcPtr|
            v.live(root) && v.pid(root) == pid && v.pinned(root) && #[trigger] reaches(
                v,
                anywhere(),
                root,
                p,
            );
        let inv = |q: GcPtr| inside(v, pid, q) && reachable(v, pid, q);
        lemma_reachable_root(v, pid, root);
        assert forall|x: GcPtr, y: GcPtr|
            v.live(x) && anywhere()(x) && inv(x) && v.live(y) && anywhere()(y)
                && #[trigger] refs_of(v, x).contains(y) implies #[trigger] inv(y) by {
            lemma_reachable_step(v, pid, x, y);
        }
        lemma_reaches_induct(v, anywhere(), root, p, inv);
    }
}

} // verus!
