//! The invariant of a marking cycle, and what keeps it.

use vstd::prelude::*;

use crate::laws::reach::{
    anywhere, lemma_reaches_induct, reachable, reachable_any, reaches, same_graph, within,
};
use crate::lemmas::lemma_filter_members;
use crate::marking::{
    expanded, gray_kids, kids_of, lemma_expanded_keeps, lemma_kids_distinct, lemma_popped_keeps,
    mark_run, refs_of,
};
use crate::model::HeapView;
use crate::node::{GcPartitionId, GcPtr, GcTriColor, HeadView};
use crate::table::NodeView;
use crate::trace::GcTrace;

verus! {

impl<T> HeapView<T> {
    /// Every live node of the partition is in its chain.
    pub open spec fn all_chained(self, pid: int) -> bool {
        forall|p: GcPtr| #[trigger]
            self.live(p) && self.pid(p) == pid ==> self.parts[pid].nodes.contains(p)
    }

    /// The partition is between two marking cycles, with nothing left over from the last one.
    pub open spec fn fresh(self, pid: int) -> bool {
        &&& !self.parts[pid].marking
        &&& self.parts[pid].gray.len() == 0
        &&& self.all_chained(pid)
        &&& forall|p: GcPtr| #[trigger]
            self.live(p) && self.pid(p) == pid ==> !self.head(p).listed
    }
}

/// What holds of the colors of a partition: no black node of it refers to a white node, of
/// whatever partition, gray nodes and nodes with a list mark are on the gray list, and what is on
/// the gray list is a node of the partition that is not white.
pub open spec fn shaded<T: GcTrace>(v: HeapView<T>, pid: int) -> bool {
    &&& forall|a: GcPtr, b: GcPtr|
        v.live(a) && v.pid(a) == pid && v.color(a) == GcTriColor::Black && v.live(b)
            && #[trigger] refs_of(v, a).contains(b) ==> v.color(b) != GcTriColor::White
    &&& forall|a: GcPtr| #[trigger]
        v.live(a) && v.pid(a) == pid && (v.color(a) == GcTriColor::Gray || v.head(a).listed)
            ==> v.parts[pid].gray.contains(a)
    &&& forall|i: int|
        0 <= i < v.parts[pid].gray.len() ==> {
            &&& v.live(#[trigger] v.parts[pid].gray[i])
            &&& v.pid(v.parts[pid].gray[i]) == pid
            &&& v.color(v.parts[pid].gray[i]) != GcTriColor::White
        }
}

/// Roots of a partition, and nodes of it that are held by scopes, are not white.
pub open spec fn pins_shaded<T>(v: HeapView<T>, pid: int) -> bool {
    forall|a: GcPtr| #[trigger]
        v.live(a) && v.pid(a) == pid && v.pinned(a) ==> v.color(a) != GcTriColor::White
}

/// The tri-color invariant of a partition in a marking cycle.
pub open spec fn tricolor<T: GcTrace>(v: HeapView<T>, pid: int) -> bool {
    shaded(v, pid) && pins_shaded(v, pid)
}

/// Beginning a marking cycle begins one in every partition. In a fresh one it establishes the
/// tri-color invariant, and the nodes that are not white are the roots and the nodes held by
/// scopes.
pub proof fn law_prepare_tricolor<T: GcTrace>(v: HeapView<T>, pid: GcPartitionId, other: int)
    requires
        v.wf(),
        v.has_part(pid),
        !v.parts[pid.0 as int].marking,
        0 <= other < v.parts.len(),
        v.fresh(other),
    ensures
        tricolor(v.prepared(pid), other),
        v.prepared(pid).parts[other].marking,
        forall|p: GcPtr| #[trigger]
            v.live(p) && v.pid(p) == other ==> v.prepared(pid).color(p) == (if v.pinned(p) {
                GcTriColor::Gray
            } else {
                GcTriColor::White
            }),
{
    assert forall|p: GcPtr| #[trigger] v.live(p) && v.pid(p) == other implies v.prepared(pid).color(
        p,
    ) == (if v.pinned(p) {
        GcTriColor::Gray
    } else {
        GcTriColor::White
    }) by {
        assert(v.parts[other].nodes.contains(p));
    }
    lemma_prepared_tricolor(v, pid, other);
}

/// No node of partition `a` refers to a node of partition `b`.
pub open spec fn apart<T: GcTrace>(v: HeapView<T>, a: int, b: int) -> bool {
    forall|p: GcPtr, q: GcPtr|
        v.live(p) && v.pid(p) == a && v.live(q) && v.pid(q) == b ==> !(#[trigger] refs_of(
            v,
            p,
        ).contains(q))
}

/// A partition that has entries left on its gray list refers to no other one.
pub open spec fn pending_apart<T: GcTrace>(v: HeapView<T>, i: int) -> bool {
    v.parts[i].gray.len() > 0 ==> forall|k: int|
        0 <= k < v.parts.len() && k != i ==> #[trigger] apart(v, i, k)
}

/// Beginning a marking cycle keeps the tri-color invariant where it holds already, and establishes
/// it where the colors are in order, in a partition whose nodes are all in its chain. (If the partition has entries left on its gray list, its
/// black nodes stay black, while the nodes of other partitions may become white: then it must not
/// refer to them.)
pub proof fn law_prepare_again<T: GcTrace>(v: HeapView<T>, pid: GcPartitionId, other: int)
    requires
        v.wf(),
        v.has_part(pid),
        0 <= other < v.parts.len(),
        v.all_chained(other),
        shaded(v, other),
        v.parts[pid.0 as int].marking ==> pins_shaded(v, other),
        v.parts[pid.0 as int].marking || pending_apart(v, other),
    ensures
        tricolor(v.prepared(pid), other),
{
    if !v.parts[pid.0 as int].marking {
        lemma_prepared_tricolor(v, pid, other);
    }
}

proof fn lemma_prepared_tricolor<T: GcTrace>(v: HeapView<T>, pid: GcPartitionId, i: int)
    requires
        v.wf(),
        v.has_part(pid),
        !v.parts[pid.0 as int].marking,
        0 <= i < v.parts.len(),
        v.fresh(i) || (shaded(v, i) && v.all_chained(i) && pending_apart(v, i)),
    ensures
        tricolor(v.prepared(pid), i),
{
    let w = v.prepared(pid);
    let gray = v.parts[i].gray;
    let chain = v.parts[i].nodes;
    let pred = |p: GcPtr| v.seeds(i, p);
    let more = chain.filter(pred);
    let all = w.parts[i].gray;
    lemma_filter_members(chain, pred);
    assert(all =~= gray + more);
    assert forall|p: GcPtr| #[trigger] all.contains(p) <==> gray.contains(p) || more.contains(
        p,
    ) by {
        if all.contains(p) {
            let k = choose|k: int| 0 <= k < all.len() && all[k] == p;
            if k < gray.len() {
                assert(gray[k] == p);
            } else {
                assert(more[k - gray.len()] == p);
            }
        }
        if gray.contains(p) {
            let k = choose|k: int| 0 <= k < gray.len() && gray[k] == p;
            assert(all[k] == p);
        }
        if more.contains(p) {
            let k = choose|k: int| 0 <= k < more.len() && more[k] == p;
            assert(all[gray.len() + k] == p);
        }
    }
    assert forall|a: GcPtr| #[trigger]
        w.live(a) && w.pid(a) == i && (w.color(a) == GcTriColor::Gray
            || w.head(a).listed) implies all.contains(a) by {
        assert(v.live(a) && v.pid(a) == i);
        assert(chain.contains(a));
        if !more.contains(a) && gray.len() == 0 && v.head(a).listed {
            assert(gray.contains(a));
        }
    }
    assert forall|k: int| 0 <= k < all.len() implies {
        &&& w.live(#[trigger] w.parts[i].gray[k])
        &&& w.pid(w.parts[i].gray[k]) == i
        &&& w.color(w.parts[i].gray[k]) != GcTriColor::White
    } by {
        let p = w.parts[i].gray[k];
        assert(all.contains(p));
        if more.contains(p) {
            let m = choose|m: int| 0 <= m < chain.len() && chain[m] == p;
            assert(v.live(v.parts[i].nodes[m]) && v.pid(v.parts[i].nodes[m]) == i);
        } else {
            let m = choose|m: int| 0 <= m < gray.len() && gray[m] == p;
            assert(v.live(v.parts[i].gray[m]));
        }
    }
    assert forall|a: GcPtr| #[trigger] w.live(a) && w.pid(a) == i && w.pinned(a) implies w.color(a)
        != GcTriColor::White by {
        assert(v.live(a) && chain.contains(a));
    }
    assert forall|a: GcPtr, b: GcPtr|
        w.live(a) && w.pid(a) == i && w.color(a) == GcTriColor::Black && w.live(b)
            && #[trigger] refs_of(w, a).contains(b) implies w.color(b) != GcTriColor::White by {
        assert(v.live(a) && v.pid(a) == i);
        assert(chain.contains(a));
        assert(v.live(b));
        assert(refs_of(v, a).contains(b));
        assert(0 <= v.pid(b) < v.parts.len());
        if v.pid(b) != i {
            assert(apart(v, i, v.pid(b)));
        }
    }
}

/// The colors of a partition are in order but for one node, whose color and list mark need not be
/// on record.
pub open spec fn shaded_but<T: GcTrace>(v: HeapView<T>, pid: int, x: GcPtr) -> bool {
    &&& forall|a: GcPtr, b: GcPtr|
        v.live(a) && v.pid(a) == pid && v.color(a) == GcTriColor::Black && v.live(b)
            && #[trigger] refs_of(v, a).contains(b) ==> v.color(b) != GcTriColor::White
    &&& forall|a: GcPtr| #[trigger]
        v.live(a) && v.pid(a) == pid && a != x && (v.color(a) == GcTriColor::Gray
            || v.head(a).listed) ==> v.parts[pid].gray.contains(a)
    &&& forall|i: int|
        0 <= i < v.parts[pid].gray.len() ==> {
            &&& v.live(#[trigger] v.parts[pid].gray[i])
            &&& v.pid(v.parts[pid].gray[i]) == pid
            &&& v.color(v.parts[pid].gray[i]) != GcTriColor::White
        }
}

/// Taking the last entry off the gray list of a partition leaves the invariant in place but for
/// that entry, in this partition and in every other.
pub proof fn lemma_popped_shaded<T: GcTrace>(v: HeapView<T>, pid: int, other: int)
    requires
        0 <= pid < v.parts.len(),
        0 <= other < v.parts.len(),
        shaded(v, pid),
        shaded(v, other),
        v.parts[pid].gray.len() > 0,
    ensures
        shaded_but(v.popped(pid), other, v.parts[pid].gray.last()),
        v.popped(pid).live(v.parts[pid].gray.last()),
        v.popped(pid).pid(v.parts[pid].gray.last()) == pid,
        v.popped(pid).color(v.parts[pid].gray.last()) == v.color(v.parts[pid].gray.last()),
        v.color(v.parts[pid].gray.last()) != GcTriColor::White,
        !v.popped(pid).head(v.parts[pid].gray.last()).listed,
{
    let w = v.popped(pid);
    let gray = v.parts[pid].gray;
    let p = gray.last();
    lemma_popped_keeps(v, pid);
    assert(v.live(gray[gray.len() - 1]));
    assert forall|a: GcPtr| #[trigger]
        w.live(a) && w.pid(a) == other && a != p && (w.color(a) == GcTriColor::Gray
            || w.head(a).listed) implies w.parts[other].gray.contains(a) by {
        assert(v.live(a));
        if other == pid {
            let k = choose|k: int| 0 <= k < gray.len() && gray[k] == a;
            assert(w.parts[pid].gray[k] == a);
        }
    }
    assert forall|k: int| 0 <= k < w.parts[other].gray.len() implies {
        &&& w.live(#[trigger] w.parts[other].gray[k])
        &&& w.pid(w.parts[other].gray[k]) == other
        &&& w.color(w.parts[other].gray[k]) != GcTriColor::White
    } by {
        assert(v.live(v.parts[other].gray[k]));
    }
    assert forall|a: GcPtr, b: GcPtr|
        w.live(a) && w.pid(a) == other && w.color(a) == GcTriColor::Black && w.live(b)
            && #[trigger] refs_of(w, a).contains(b) implies w.color(b) != GcTriColor::White by {
        assert(refs_of(v, a).contains(b));
    }
}

/// Where a node of a partition stands after another one was traced.
pub proof fn lemma_expanded_colors<T: GcTrace>(v: HeapView<T>, p: GcPtr)
    requires
        v.live(p),
    ensures
        ({
            let w = expanded(v, p);
            let list = gray_kids(v, p);
            &&& forall|q: GcPtr| #[trigger]
                list.contains(q) <==> refs_of(v, p).contains(q) && v.markable(q)
            &&& forall|q: GcPtr| #[trigger]
                v.live(q) ==> w.color(q) == (if q == p {
                    GcTriColor::Black
                } else if list.contains(q) {
                    GcTriColor::Gray
                } else {
                    v.color(q)
                }) && w.head(q).listed == (v.head(q).listed || list.contains(q)) && refs_of(w, q)
                    == refs_of(v, q) && w.pinned(q) == v.pinned(q)
        }),
{
    let list = gray_kids(v, p);
    let back = kids_of(v, p).reverse();
    let pred = |c: GcPtr| v.markable(c);
    lemma_kids_distinct(v, p);
    lemma_filter_members(back, pred);
    assert forall|q: GcPtr| #[trigger] list.contains(q) <==> refs_of(v, p).contains(q)
        && v.markable(q) by {
        let kids = kids_of(v, p);
        if back.contains(q) {
            let k = choose|k: int| 0 <= k < back.len() && back[k] == q;
            assert(kids[kids.len() - 1 - k] == q);
        }
        if kids.contains(q) {
            let k = choose|k: int| 0 <= k < kids.len() && kids[k] == q;
            assert(back[kids.len() - 1 - k] == q);
        }
    }
}

pub proof fn lemma_expanded_gray<T: GcTrace>(v: HeapView<T>, p: GcPtr, pid: int)
    requires
        0 <= pid < v.parts.len(),
    ensures
        expanded(v, p).parts.len() == v.parts.len(),
        forall|q: GcPtr| #[trigger]
            expanded(v, p).parts[pid].gray.contains(q) <==> v.parts[pid].gray.contains(q) || (
            gray_kids(v, p).contains(q) && v.pid(q) == pid),
{
    let list = gray_kids(v, p);
    let f = |c: GcPtr| v.pid(c) == pid;
    lemma_filter_members(list, f);
    let old = v.parts[pid].gray;
    let all = expanded(v, p).parts[pid].gray;
    assert(all =~= old + list.filter(f));
    assert forall|q: GcPtr| #[trigger] all.contains(q) <==> old.contains(q) || (list.contains(q)
        && v.pid(q) == pid) by {
        if all.contains(q) {
            let k = choose|k: int| 0 <= k < all.len() && all[k] == q;
            if k < old.len() {
                assert(old[k] == q);
            } else {
                assert(list.filter(f)[k - old.len()] == q);
                assert(list.filter(f).contains(q));
            }
        }
        if old.contains(q) {
            let k = choose|k: int| 0 <= k < old.len() && old[k] == q;
            assert(all[k] == q);
        }
        if list.filter(f).contains(q) {
            let k = choose|k: int| 0 <= k < list.filter(f).len() && list.filter(f)[k] == q;
            assert(all[old.len() + k] == q);
        }
    }
}

/// Tracing a node restores the invariant where it was missing for that node.
pub proof fn lemma_expanded_shaded<T: GcTrace>(m: HeapView<T>, p: GcPtr, pid: int)
    requires
        0 <= pid < m.parts.len(),
        m.live(p),
        !m.head(p).listed,
        m.color(p) != GcTriColor::White,
        shaded_but(m, pid, p),
    ensures
        shaded(expanded(m, p), pid),
{
    let w = expanded(m, p);
    let list = gray_kids(m, p);
    lemma_expanded_keeps(m, p);
    lemma_expanded_colors(m, p);
    lemma_expanded_gray(m, p, pid);
    assert forall|a: GcPtr| #[trigger]
        w.live(a) && w.pid(a) == pid && (w.color(a) == GcTriColor::Gray
            || w.head(a).listed) implies w.parts[pid].gray.contains(a) by {
        assert(m.live(a));
    }
    assert forall|k: int| 0 <= k < w.parts[pid].gray.len() implies {
        &&& w.live(#[trigger] w.parts[pid].gray[k])
        &&& w.pid(w.parts[pid].gray[k]) == pid
        &&& w.color(w.parts[pid].gray[k]) != GcTriColor::White
    } by {
        let q = w.parts[pid].gray[k];
        assert(w.parts[pid].gray.contains(q));
        if m.parts[pid].gray.contains(q) {
            let j = choose|j: int| 0 <= j < m.parts[pid].gray.len() && m.parts[pid].gray[j] == q;
            assert(m.live(m.parts[pid].gray[j]));
        } else {
            assert(m.live(q));
        }
    }
    assert forall|a: GcPtr, b: GcPtr|
        w.live(a) && w.pid(a) == pid && w.color(a) == GcTriColor::Black && w.live(b)
            && #[trigger] refs_of(w, a).contains(b) implies w.color(b) != GcTriColor::White by {
        assert(m.live(a) && m.live(b));
        assert(refs_of(m, a).contains(b));
        if a == p && m.color(b) == GcTriColor::White {
            assert(list.contains(b));
        }
    }
}

/// Marking a partition keeps its colors and those of every other partition in order, however many
/// steps it takes.
pub proof fn law_mark_shaded<T: GcTrace>(v: HeapView<T>, pid: int, steps: nat, other: int)
    requires
        0 <= pid < v.parts.len(),
        0 <= other < v.parts.len(),
        shaded(v, pid),
        shaded(v, other),
    ensures
        shaded(mark_run(v, pid, steps).0, pid),
        shaded(mark_run(v, pid, steps).0, other),
    decreases steps, v.parts[pid].gray.len(),
{
    if v.parts[pid].gray.len() > 0 {
        let gray = v.parts[pid].gray;
        let p = gray.last();
        let w = v.popped(pid);
        lemma_popped_keeps(v, pid);
        lemma_popped_shaded(v, pid, pid);
        lemma_popped_shaded(v, pid, other);
        assert(v.live(gray[gray.len() - 1]));
        if v.color(p) != GcTriColor::Gray {
            assert(shaded(w, pid));
            assert(shaded(w, other));
            law_mark_shaded(w, pid, steps, other);
        } else if steps == 0 {
            lemma_repushed(v, pid);
            lemma_repushed_shaded(v, pid, pid);
            lemma_repushed_shaded(v, pid, other);
        } else {
            lemma_expanded_shaded(w, p, pid);
            lemma_expanded_shaded(w, p, other);
            lemma_expanded_keeps(w, p);
            law_mark_shaded(expanded(w, p), pid, (steps - 1) as nat, other);
        }
    }
}

proof fn lemma_repushed<T>(v: HeapView<T>, pid: int)
    requires
        0 <= pid < v.parts.len(),
        v.parts[pid].gray.len() > 0,
        v.live(v.parts[pid].gray.last()),
    ensures
        ({
            let p = v.parts[pid].gray.last();
            let w = v.popped(pid).gray_pushed(pid, p);
            &&& w.parts =~= v.parts
            &&& w.nodes.dom() =~= v.nodes.dom()
            &&& forall|q: GcPtr| #[trigger]
                v.live(q) ==> w.nodes[q] == (NodeView {
                    head: HeadView { listed: w.head(q).listed, ..v.head(q) },
                    ..v.nodes[q]
                }) && (w.head(q).listed ==> v.head(q).listed)
        }),
{
    let gray = v.parts[pid].gray;
    let w = v.popped(pid).gray_pushed(pid, gray.last());
    assert(w.parts[pid].gray =~= gray);
    assert(w.parts =~= v.parts);
}

proof fn lemma_repushed_shaded<T: GcTrace>(v: HeapView<T>, pid: int, other: int)
    requires
        0 <= pid < v.parts.len(),
        0 <= other < v.parts.len(),
        shaded(v, other),
        v.parts[pid].gray.len() > 0,
        v.live(v.parts[pid].gray.last()),
    ensures
        shaded(v.popped(pid).gray_pushed(pid, v.parts[pid].gray.last()), other),
{
    let w = v.popped(pid).gray_pushed(pid, v.parts[pid].gray.last());
    lemma_repushed(v, pid);
    assert forall|a: GcPtr| #[trigger]
        w.live(a) && w.pid(a) == other && (w.color(a) == GcTriColor::Gray
            || w.head(a).listed) implies w.parts[other].gray.contains(a) by {
        assert(v.live(a));
    }
    assert forall|k: int| 0 <= k < w.parts[other].gray.len() implies {
        &&& w.live(#[trigger] w.parts[other].gray[k])
        &&& w.pid(w.parts[other].gray[k]) == other
        &&& w.color(w.parts[other].gray[k]) != GcTriColor::White
    } by {
        assert(v.live(v.parts[other].gray[k]));
    }
    assert forall|a: GcPtr, b: GcPtr|
        w.live(a) && w.pid(a) == other && w.color(a) == GcTriColor::Black && w.live(b)
            && #[trigger] refs_of(w, a).contains(b) implies w.color(b) != GcTriColor::White by {
        assert(v.live(a) && v.live(b));
        assert(refs_of(v, a).contains(b));
    }
}

pub proof fn lemma_popped_graph<T>(v: HeapView<T>, pid: int)
    requires
        0 <= pid < v.parts.len(),
    ensures
        same_graph(v, v.popped(pid)),
{
    lemma_popped_keeps(v, pid);
}

pub proof fn lemma_expanded_graph<T: GcTrace>(v: HeapView<T>, p: GcPtr)
    requires
        v.live(p),
    ensures
        same_graph(v, expanded(v, p)),
{
    lemma_expanded_keeps(v, p);
}

/// Marking changes nothing that reachability depends on.
pub proof fn lemma_run_graph<T: GcTrace>(v: HeapView<T>, pid: int, steps: nat)
    ensures
        same_graph(v, mark_run(v, pid, steps).0),
    decreases steps, v.parts[pid].gray.len(),
{
    if 0 <= pid < v.parts.len() && v.parts[pid].gray.len() > 0 {
        let p = v.parts[pid].gray.last();
        let w = v.popped(pid);
        lemma_popped_keeps(v, pid);
        lemma_popped_graph(v, pid);
        if !v.live(p) || v.color(p) != GcTriColor::Gray {
            lemma_run_graph(w, pid, steps);
        } else if steps > 0 {
            assert(w.live(p));
            lemma_expanded_graph(w, p);
            lemma_expanded_keeps(w, p);
            lemma_run_graph(expanded(w, p), pid, (steps - 1) as nat);
        }
        let e = mark_run(v, pid, steps).0;
        assert forall|q: GcPtr| #[trigger] v.live(q) implies e.nodes[q].payload
            == v.nodes[q].payload && e.pid(q) == v.pid(q) && e.pinned(q) == v.pinned(q) by {
            assert(w.live(q));
            if v.live(p) && v.color(p) == GcTriColor::Gray && steps > 0 {
                assert(expanded(w, p).live(q));
            }
        }
    }
}

/// Marking takes no color back: what was not white stays so.
pub proof fn lemma_run_nonwhite<T: GcTrace>(v: HeapView<T>, pid: int, steps: nat)
    ensures
        forall|p: GcPtr|
            v.live(p) && #[trigger] v.color(p) != GcTriColor::White ==> mark_run(
                v,
                pid,
                steps,
            ).0.color(p) != GcTriColor::White,
    decreases steps, v.parts[pid].gray.len(),
{
    if 0 <= pid < v.parts.len() && v.parts[pid].gray.len() > 0 {
        let x = v.parts[pid].gray.last();
        let w = v.popped(pid);
        lemma_popped_keeps(v, pid);
        if !v.live(x) || v.color(x) != GcTriColor::Gray {
            lemma_run_nonwhite(w, pid, steps);
            assert forall|p: GcPtr|
                v.live(p) && #[trigger] v.color(p) != GcTriColor::White implies mark_run(
                v,
                pid,
                steps,
            ).0.color(p) != GcTriColor::White by {
                assert(w.live(p) && w.color(p) == v.color(p));
            }
        } else if steps > 0 {
            let e = expanded(w, x);
            assert(w.live(x));
            lemma_expanded_keeps(w, x);
            lemma_expanded_colors(w, x);
            lemma_run_nonwhite(e, pid, (steps - 1) as nat);
            assert forall|p: GcPtr|
                v.live(p) && #[trigger] v.color(p) != GcTriColor::White implies mark_run(
                v,
                pid,
                steps,
            ).0.color(p) != GcTriColor::White by {
                assert(w.live(p) && w.color(p) == v.color(p));
                assert(e.color(p) != GcTriColor::White);
            }
        }
    }
}

/// Marking a partition keeps the tri-color invariant, its own and that of every other partition,
/// however many steps it takes.
pub proof fn law_mark_tricolor<T: GcTrace>(v: HeapView<T>, pid: int, steps: nat, other: int)
    requires
        0 <= pid < v.parts.len(),
        0 <= other < v.parts.len(),
        shaded(v, pid),
        tricolor(v, other),
    ensures
        shaded(mark_run(v, pid, steps).0, pid),
        tricolor(mark_run(v, pid, steps).0, other),
{
    let w = mark_run(v, pid, steps).0;
    law_mark_shaded(v, pid, steps, other);
    lemma_run_nonwhite(v, pid, steps);
    lemma_run_graph(v, pid, steps);
    assert forall|a: GcPtr| #[trigger] w.live(a) && w.pid(a) == other && w.pinned(
        a,
    ) implies w.color(a) != GcTriColor::White by {
        assert(v.live(a));
        assert(v.color(a) != GcTriColor::White);
    }
}

/// Once nothing is left to trace in any partition, everything that is reachable is black, through
/// whatever partitions it is reached: no sweep removes it.
pub proof fn law_marked_safe<T: GcTrace>(v: HeapView<T>, p: GcPtr)
    requires
        v.wf(),
        v.no_gray(),
        forall|i: int| 0 <= i < v.parts.len() ==> #[trigger] tricolor(v, i),
        reachable_any(v, p),
    ensures
        v.live(p),
        v.color(p) == GcTriColor::Black,
        !v.dead(p),
{
    let ok = anywhere();
    let inv = |q: GcPtr| v.live(q) && v.color(q) == GcTriColor::Black;
    let root = choose|root: GcPtr|
        v.live(root) && v.pinned(root) && #[trigger] reaches(v, anywhere(), root, p);
    assert forall|q: GcPtr| v.live(q) && #[trigger] v.color(q) != GcTriColor::White implies inv(
        q,
    ) by {
        assert(v.live(q));
        let i = v.pid(q);
        assert(tricolor(v, i));
        assert(v.parts[i].gray.len() == 0);
        if v.color(q) == GcTriColor::Gray {
            assert(v.parts[i].gray.contains(q));
        }
    }
    assert(inv(root)) by {
        assert(v.live(root));
        assert(tricolor(v, v.pid(root)));
        assert(v.color(root) != GcTriColor::White);
    }
    assert forall|x: GcPtr, y: GcPtr|
        v.live(x) && ok(x) && inv(x) && v.live(y) && ok(y) && #[trigger] refs_of(v, x).contains(
            y,
        ) implies #[trigger] inv(y) by {
        assert(tricolor(v, v.pid(x)));
        assert(v.color(y) != GcTriColor::White);
    }
    lemma_reaches_induct(v, ok, root, p, inv);
}

/// Once nothing is left to trace in a partition, everything that is reachable inside it is black:
/// a sweep does not remove it.
pub proof fn law_marked_safe_inside<T: GcTrace>(v: HeapView<T>, pid: int, p: GcPtr)
    requires
        tricolor(v, pid),
        v.parts[pid].gray.len() == 0,
        reachable(v, pid, p),
    ensures
        v.color(p) == GcTriColor::Black,
        !v.dead(p),
{
    let ok = within(v, pid);
    let inv = |q: GcPtr| v.live(q) && v.color(q) == GcTriColor::Black;
    let root = choose|root: GcPtr|
        v.live(root) && v.pid(root) == pid && v.pinned(root) && #[trigger] reaches(
            v,
            ok,
            root,
            p,
        );
    assert(inv(root)) by {
        assert(v.live(root));
        if v.color(root) == GcTriColor::Gray {
            assert(v.parts[pid].gray.contains(root));
        }
    }
    assert forall|x: GcPtr, y: GcPtr|
        v.live(x) && ok(x) && inv(x) && v.live(y) && ok(y) && #[trigger] refs_of(v, x).contains(
            y,
        ) implies #[trigger] inv(y) by {
        assert(v.color(y) != GcTriColor::White);
        if v.color(y) == GcTriColor::Gray {
            assert(v.parts[pid].gray.contains(y));
        }
    }
    lemma_reaches_induct(v, ok, root, p, inv);
}

} // verus!
