//! What marking does to references from black nodes, inside a partition and across partitions.

use vstd::prelude::*;

use crate::laws::tricolor::{lemma_expanded_colors, lemma_expanded_gray};
use crate::lemmas::lemma_keeps_wf;
use crate::marking::{
    expanded, gray_kids, lemma_expanded_keeps, lemma_popped_keeps, mark_run, refs_of,
};
use crate::model::HeapView;
use crate::node::{GcPtr, GcTriColor};
use crate::trace::GcTrace;

verus! {

/// No black node refers to a white one, in whatever partitions they are.
pub open spec fn no_black_to_white<T: GcTrace>(v: HeapView<T>) -> bool {
    forall|a: GcPtr, b: GcPtr|
        v.live(a) && v.color(a) == GcTriColor::Black && v.live(b) && #[trigger] refs_of(
            v,
            a,
        ).contains(b) ==> v.color(b) != GcTriColor::White
}

/// The node is black, or gray and on the gray list of its partition.
pub open spec fn known<T>(v: HeapView<T>, c: GcPtr) -> bool {
    v.color(c) == GcTriColor::Black || (v.color(c) == GcTriColor::Gray && v.parts[v.pid(
        c,
    )].gray.contains(c))
}

/// Marking steps, whatever else holds of the heap: if no black node refers to a white one before,
/// none does afterwards; a node of another partition to which a node refers that was blackened is
/// black, or gray and on the gray list of its own partition; and what is new on the gray list of
/// the marked partition are nodes of that partition.
pub proof fn law_mark_edges<T: GcTrace>(v: HeapView<T>, pid: int, steps: nat)
    requires
        v.wf(),
        0 <= pid < v.parts.len(),
    ensures
        ({
            let w = mark_run(v, pid, steps).0;
            &&& no_black_to_white(v) ==> no_black_to_white(w)
            &&& forall|p: GcPtr, c: GcPtr|
                v.live(p) && v.color(p) != GcTriColor::Black && w.color(p) == GcTriColor::Black
                    && v.live(c) && v.pid(c) != pid && #[trigger] refs_of(v, p).contains(c)
                    ==> known(w, c)
            &&& forall|x: GcPtr| #[trigger]
                w.parts[pid].gray.contains(x) ==> v.parts[pid].gray.contains(x) || (v.live(x)
                    && v.pid(x) == pid)
        }),
{
    let w = mark_run(v, pid, steps).0;
    if no_black_to_white(v) {
        lemma_run_edges(v, pid, steps);
    }
    assert forall|p: GcPtr, c: GcPtr|
        v.live(p) && v.color(p) != GcTriColor::Black && w.color(p) == GcTriColor::Black && v.live(c)
            && v.pid(c) != pid && #[trigger] refs_of(v, p).contains(c) implies known(w, c) by {
        lemma_run_blackened(v, pid, steps, p, c);
    }
    assert forall|x: GcPtr| #[trigger] w.parts[pid].gray.contains(x) implies v.parts[
        pid
    ].gray.contains(x) || (v.live(x) && v.pid(x) == pid) by {
        lemma_run_listed(v, pid, steps, x);
    }
}

proof fn lemma_run_edges<T: GcTrace>(v: HeapView<T>, pid: int, steps: nat)
    requires
        0 <= pid < v.parts.len(),
        no_black_to_white(v),
    ensures
        no_black_to_white(mark_run(v, pid, steps).0),
    decreases steps, v.parts[pid].gray.len(),
{
    if v.parts[pid].gray.len() > 0 {
        let x = v.parts[pid].gray.last();
        let w = v.popped(pid);
        lemma_popped_keeps(v, pid);
        assert forall|a: GcPtr, b: GcPtr|
            w.live(a) && w.color(a) == GcTriColor::Black && w.live(b) && #[trigger] refs_of(
                w,
                a,
            ).contains(b) implies w.color(b) != GcTriColor::White by {
            assert(refs_of(v, a).contains(b));
        }
        if !v.live(x) || v.color(x) != GcTriColor::Gray {
            lemma_run_edges(w, pid, steps);
        } else if steps == 0 {
            let e = w.gray_pushed(pid, x);
            assert forall|a: GcPtr, b: GcPtr|
                e.live(a) && e.color(a) == GcTriColor::Black && e.live(b) && #[trigger] refs_of(
                    e,
                    a,
                ).contains(b) implies e.color(b) != GcTriColor::White by {
                assert(refs_of(w, a).contains(b));
            }
        } else {
            let e = expanded(w, x);
            assert(w.live(x));
            lemma_expanded_keeps(w, x);
            lemma_expanded_colors(w, x);
            assert forall|a: GcPtr, b: GcPtr|
                e.live(a) && e.color(a) == GcTriColor::Black && e.live(b) && #[trigger] refs_of(
                    e,
                    a,
                ).contains(b) implies e.color(b) != GcTriColor::White by {
                assert(w.live(a) && w.live(b));
                assert(refs_of(w, a).contains(b));
                if a == x && w.color(b) == GcTriColor::White {
                    assert(gray_kids(w, x).contains(b));
                }
            }
            lemma_run_edges(e, pid, (steps - 1) as nat);
        }
    }
}

proof fn lemma_run_blackened<T: GcTrace>(
    v: HeapView<T>,
    pid: int,
    steps: nat,
    p: GcPtr,
    c: GcPtr,
)
    requires
        v.wf(),
        0 <= pid < v.parts.len(),
        v.live(p),
        v.color(p) != GcTriColor::Black,
        mark_run(v, pid, steps).0.color(p) == GcTriColor::Black,
        v.live(c),
        v.pid(c) != pid,
        refs_of(v, p).contains(c),
    ensures
        known(mark_run(v, pid, steps).0, c),
    decreases steps, v.parts[pid].gray.len(),
{
    if v.parts[pid].gray.len() > 0 {
        let x = v.parts[pid].gray.last();
        let w = v.popped(pid);
        lemma_popped_keeps(v, pid);
        lemma_keeps_wf(v, w);
        assert(w.live(p) && w.live(c) && w.color(p) == v.color(p) && w.pid(c) == v.pid(c));
        assert(refs_of(w, p).contains(c));
        if !v.live(x) || v.color(x) != GcTriColor::Gray {
            lemma_run_blackened(w, pid, steps, p, c);
        } else if steps > 0 {
            let e = expanded(w, x);
            assert(w.live(x));
            lemma_expanded_keeps(w, x);
            lemma_keeps_wf(w, e);
            lemma_expanded_colors(w, x);
            assert(refs_of(e, p).contains(c));
            assert(e.live(c) && e.pid(c) == v.pid(c));
            if p == x {
                lemma_expanded_gray(w, x, w.pid(c));
                if w.color(c) != GcTriColor::Black {
                    assert(gray_kids(w, x).contains(c));
                    assert(e.parts[w.pid(c)].gray.contains(c));
                }
                assert(known(e, c));
                lemma_run_known(e, pid, (steps - 1) as nat, c);
            } else {
                lemma_run_blackened(e, pid, (steps - 1) as nat, p, c);
            }
        }
    }
}

proof fn lemma_run_listed<T: GcTrace>(v: HeapView<T>, pid: int, steps: nat, y: GcPtr)
    requires
        0 <= pid < v.parts.len(),
        mark_run(v, pid, steps).0.parts[pid].gray.contains(y),
    ensures
        v.parts[pid].gray.contains(y) || (v.live(y) && v.pid(y) == pid),
    decreases steps, v.parts[pid].gray.len(),
{
    if v.parts[pid].gray.len() > 0 {
        let gray = v.parts[pid].gray;
        let x = gray.last();
        let w = v.popped(pid);
        lemma_popped_keeps(v, pid);
        if w.parts[pid].gray.contains(y) {
            let k = choose|k: int| 0 <= k < w.parts[pid].gray.len() && w.parts[pid].gray[k] == y;
            assert(gray[k] == y);
        }
        if !v.live(x) || v.color(x) != GcTriColor::Gray {
            lemma_run_listed(w, pid, steps, y);
        } else if steps == 0 {
            assert(w.gray_pushed(pid, x).parts[pid].gray =~= gray);
        } else {
            let e = expanded(w, x);
            assert(w.live(x));
            lemma_expanded_keeps(w, x);
            lemma_expanded_colors(w, x);
            lemma_expanded_gray(w, x, pid);
            lemma_run_listed(e, pid, (steps - 1) as nat, y);
            if gray_kids(w, x).contains(y) {
                assert(w.live(y));
            }
        }
    }
}

/// Marking one partition leaves a node of another one black, or gray and on its list.
proof fn lemma_run_known<T: GcTrace>(v: HeapView<T>, pid: int, steps: nat, c: GcPtr)
    requires
        v.wf(),
        0 <= pid < v.parts.len(),
        v.live(c),
        v.pid(c) != pid,
        known(v, c),
    ensures
        known(mark_run(v, pid, steps).0, c),
    decreases steps, v.parts[pid].gray.len(),
{
    if v.parts[pid].gray.len() > 0 {
        let x = v.parts[pid].gray.last();
        let w = v.popped(pid);
        lemma_popped_keeps(v, pid);
        lemma_keeps_wf(v, w);
        assert(known(w, c));
        if !v.live(x) || v.color(x) != GcTriColor::Gray {
            lemma_run_known(w, pid, steps, c);
        } else if steps > 0 {
            let e = expanded(w, x);
            assert(w.live(x));
            lemma_expanded_keeps(w, x);
            lemma_keeps_wf(w, e);
            lemma_expanded_colors(w, x);
            lemma_expanded_gray(w, x, w.pid(c));
            assert(known(e, c));
            lemma_run_known(e, pid, (steps - 1) as nat, c);
        }
    }
}

} // verus!
