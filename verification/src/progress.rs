//! Marking comes to an end: how runs of the marking algorithm compose, and how many steps they
//! take.

use vstd::prelude::*;

use crate::marking::{
    expanded, gray_kids, lemma_expanded_keeps, lemma_popped_keeps, mark_run,
};
use crate::model::HeapView;
use crate::node::{GcPtr, GcTriColor};
use crate::sweeping::fully_marked;
use crate::trace::GcTrace;

verus! {

/// The nodes that are not black.
pub open spec fn open_nodes<T>(v: HeapView<T>) -> Set<GcPtr> {
    v.nodes.dom().filter(|p: GcPtr| v.color(p) != GcTriColor::Black)
}

pub proof fn lemma_open_popped<T>(v: HeapView<T>, pid: int)
    requires
        0 <= pid < v.parts.len(),
    ensures
        open_nodes(v.popped(pid)) == open_nodes(v),
{
    lemma_popped_keeps(v, pid);
    assert(open_nodes(v.popped(pid)) =~= open_nodes(v));
}

pub proof fn lemma_open_expanded<T: GcTrace>(v: HeapView<T>, p: GcPtr)
    requires
        v.live(p),
        v.nodes.dom().finite(),
        v.color(p) == GcTriColor::Gray,
    ensures
        expanded(v, p).nonblack() + 1 == v.nonblack(),
{
    lemma_expanded_keeps(v, p);
    let w = expanded(v, p);
    let list = gray_kids(v, p);
    crate::lemmas::lemma_filter_members(
        crate::marking::kids_of(v, p).reverse(),
        |c: GcPtr| v.markable(c),
    );
    assert(open_nodes(w) =~= open_nodes(v).remove(p));
    assert(open_nodes(v).contains(p));
}

/// A run that stops early has blackened as many nodes as it was allowed to trace, and at least
/// one node is left.
pub proof fn lemma_run_stopped<T: GcTrace>(v: HeapView<T>, pid: int, steps: nat)
    requires
        v.nodes.dom().finite(),
        !mark_run(v, pid, steps).1,
    ensures
        mark_run(v, pid, steps).0.nonblack() + steps == v.nonblack(),
        mark_run(v, pid, steps).0.nonblack() > 0,
        0 <= pid < v.parts.len(),
    decreases steps, v.parts[pid].gray.len(),
{
    let p = v.parts[pid].gray.last();
    let w = v.popped(pid);
    lemma_popped_keeps(v, pid);
    lemma_open_popped(v, pid);
    if !v.live(p) || v.color(p) != GcTriColor::Gray {
        lemma_run_stopped(w, pid, steps);
    } else if steps == 0 {
        let e = mark_run(v, pid, steps).0;
        assert(open_nodes(e) =~= open_nodes(v));
        assert(open_nodes(v).contains(p));
        assert(open_nodes(v).len() > 0) by {
            if open_nodes(v).len() == 0 {
                assert(open_nodes(v) =~= Set::<GcPtr>::empty());
            }
        }
    } else {
        assert(w.live(p) && w.color(p) == GcTriColor::Gray);
        lemma_open_expanded(w, p);
        lemma_expanded_keeps(w, p);
        lemma_run_stopped(expanded(w, p), pid, (steps - 1) as nat);
    }
}

/// With as many steps as there are nodes that are not black, a run comes to its end.
pub proof fn lemma_run_ends<T: GcTrace>(v: HeapView<T>, pid: int, steps: nat)
    requires
        v.nodes.dom().finite(),
        steps >= v.nonblack(),
    ensures
        mark_run(v, pid, steps).1,
{
    if !mark_run(v, pid, steps).1 {
        lemma_run_stopped(v, pid, steps);
    }
}

/// A run that stopped early is taken up where it stopped.
pub proof fn lemma_run_resumed<T: GcTrace>(v: HeapView<T>, pid: int, a: nat, b: nat)
    requires
        !mark_run(v, pid, a).1,
    ensures
        mark_run(v, pid, a + b) == mark_run(mark_run(v, pid, a).0, pid, b),
    decreases a, v.parts[pid].gray.len(),
{
    let p = v.parts[pid].gray.last();
    let w = v.popped(pid);
    lemma_popped_keeps(v, pid);
    if !v.live(p) || v.color(p) != GcTriColor::Gray {
        lemma_run_resumed(w, pid, a, b);
    } else if a == 0 {
        let s = mark_run(v, pid, 0).0;
        assert(s.parts[pid].gray.last() == p);
        assert(s.parts[pid].gray.drop_last() =~= w.parts[pid].gray);
        assert(s.popped(pid).parts =~= w.parts);
        assert(s.popped(pid).nodes =~= w.nodes);
        assert(s.popped(pid) =~= w);
        assert(s.live(p) && s.color(p) == GcTriColor::Gray);
        assert(s.parts.len() == v.parts.len());
        assert(w.gray_pushed(pid, p) == s);
    } else {
        lemma_run_resumed(expanded(w, p), pid, (a - 1) as nat, b);
    }
}

/// More steps than needed change nothing.
pub proof fn lemma_run_more<T: GcTrace>(v: HeapView<T>, pid: int, a: nat, b: nat)
    requires
        mark_run(v, pid, a).1,
    ensures
        mark_run(v, pid, a + b) == mark_run(v, pid, a),
    decreases a, v.parts[pid].gray.len(),
{
    if 0 <= pid < v.parts.len() && v.parts[pid].gray.len() > 0 {
        let p = v.parts[pid].gray.last();
        let w = v.popped(pid);
        lemma_popped_keeps(v, pid);
        if !v.live(p) || v.color(p) != GcTriColor::Gray {
            lemma_run_more(w, pid, a, b);
        } else if a > 0 {
            lemma_run_more(expanded(w, p), pid, (a - 1) as nat, b);
        }
    }
}

/// A run that came to its end has marked fully, whatever the number of steps.
pub proof fn lemma_run_is_full<T: GcTrace>(v: HeapView<T>, pid: int, steps: nat)
    requires
        v.nodes.dom().finite(),
        mark_run(v, pid, steps).1,
    ensures
        mark_run(v, pid, steps).0 == fully_marked(v, pid),
{
    let n = v.nonblack();
    lemma_run_ends(v, pid, n);
    if steps >= n {
        lemma_run_more(v, pid, n, (steps - n) as nat);
    } else {
        lemma_run_more(v, pid, steps, (n - steps) as nat);
    }
}

/// Marking leaves the marking state of every partition and the settings of the heap alone, and at
/// the end the gray list is empty.
pub proof fn lemma_run_parts<T: GcTrace>(v: HeapView<T>, pid: int, steps: nat)
    ensures
        mark_run(v, pid, steps).0.parts.len() == v.parts.len(),
        mark_run(v, pid, steps).0.limit == v.limit,
        mark_run(v, pid, steps).0.threshold == v.threshold,
        mark_run(v, pid, steps).0.opaque == v.opaque,
        forall|i: int|
            0 <= i < v.parts.len() ==> (#[trigger] mark_run(v, pid, steps).0.parts[i]).marking
                == v.parts[i].marking,
        mark_run(v, pid, steps).1 && 0 <= pid < v.parts.len() ==> mark_run(
            v,
            pid,
            steps,
        ).0.parts[pid].gray.len() == 0,
    decreases steps, v.parts[pid].gray.len(),
{
    if 0 <= pid < v.parts.len() && v.parts[pid].gray.len() > 0 {
        let p = v.parts[pid].gray.last();
        let w = v.popped(pid);
        lemma_popped_keeps(v, pid);
        assert forall|i: int| 0 <= i < v.parts.len() implies (#[trigger] w.parts[i]).marking
            == v.parts[i].marking by {}
        if !v.live(p) || v.color(p) != GcTriColor::Gray {
            lemma_run_parts(w, pid, steps);
            assert forall|i: int| 0 <= i < v.parts.len() implies (#[trigger] mark_run(
                v,
                pid,
                steps,
            ).0.parts[i]).marking == v.parts[i].marking by {
                assert(mark_run(w, pid, steps).0.parts[i].marking == w.parts[i].marking);
            }
        } else if steps > 0 {
            let e = expanded(w, p);
            assert(e.parts.len() == v.parts.len());
            assert forall|i: int| 0 <= i < v.parts.len() implies (#[trigger] e.parts[i]).marking
                == v.parts[i].marking by {
                assert(w.parts[i].marking == v.parts[i].marking);
            }
            lemma_run_parts(e, pid, (steps - 1) as nat);
            assert forall|i: int| 0 <= i < v.parts.len() implies (#[trigger] mark_run(
                v,
                pid,
                steps,
            ).0.parts[i]).marking == v.parts[i].marking by {
                assert(mark_run(e, pid, (steps - 1) as nat).0.parts[i].marking
                    == e.parts[i].marking);
            }
        }
    }
}

} // verus!
