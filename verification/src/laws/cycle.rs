//! Marking cycles keep partitions sound, and so does a collection.

use vstd::prelude::*;

use crate::laws::collection::{
    law_collection_exact, law_collection_tricolor, law_sweep_exact, settled,
};
use crate::laws::reach::same_graph;
use crate::laws::sound::{
    inside, lemma_chained_same, lemma_untouched_fresh, lemma_untouched_sound,
    lemma_untouched_steady, sound, steady, untouched,
};
use crate::laws::tricolor::{
    apart, law_mark_shaded, law_mark_tricolor, law_prepare_again, law_prepare_tricolor,
    lemma_expanded_graph, lemma_expanded_shaded, lemma_popped_graph, lemma_popped_shaded,
    pending_apart, shaded, tricolor,
};
use crate::lemmas::{keeps, lemma_filter_members, lemma_keeps_trans};
use crate::marking::{
    expanded, gray_kids, kids_of, lemma_expanded_keeps, lemma_mark_dropped_keeps,
    lemma_mark_run_keeps, lemma_popped_keeps, lemma_prepared_keeps, mark_run, refs_of,
};
use crate::model::HeapView;
use crate::node::{GcPartitionId, GcPtr, GcTriColor};
use crate::progress::lemma_run_parts;
use crate::trace::{lemma_with_nodes_members, GcNode, GcTrace};

verus! {

proof fn lemma_apart_same<T: GcTrace>(v: HeapView<T>, w: HeapView<T>, a: int, b: int)
    requires
        apart(v, a, b),
        same_graph(v, w),
    ensures
        apart(w, a, b),
{
    assert forall|p: GcPtr, q: GcPtr| inside(w, a, p) && inside(w, b, q) implies !(
    #[trigger] refs_of(w, p).contains(q)) by {
        assert(v.live(p) && v.live(q));
        assert(inside(v, a, p) && inside(v, b, q));
        assert(refs_of(w, p) == refs_of(v, p));
        if refs_of(w, p).contains(q) {
            assert(refs_of(v, p).contains(q));
        }
    }
}

/// Tracing a node of one partition leaves another one alone that it does not refer to.
proof fn lemma_expanded_apart<T: GcTrace>(v: HeapView<T>, p: GcPtr, pid: int, other: int)
    requires
        inside(v, pid, p),
        pid != other,
        0 <= other < v.parts.len(),
        v.fresh(other),
        apart(v, pid, other),
    ensures
        expanded(v, p).fresh(other),
{
    let kids = gray_kids(v, p);
    let w = expanded(v, p);
    lemma_expanded_keeps(v, p);
    lemma_filter_members(kids_of(v, p).reverse(), |c: GcPtr| v.markable(c));
    lemma_with_nodes_members(Seq::empty(), refs_of(v, p));
    assert forall|q: GcPtr| kids.contains(q) implies !inside(v, other, q) by {
        let k = choose|k: int|
            0 <= k < kids_of(v, p).reverse().len() && kids_of(v, p).reverse()[k] == q;
        assert(kids_of(v, p)[kids_of(v, p).len() - 1 - k] == q);
        assert(kids_of(v, p).contains(q));
        assert(refs_of(v, p).contains(q));
    }
    let mine = kids.filter(|c: GcPtr| v.pid(c) == other);
    lemma_filter_members(kids, |c: GcPtr| v.pid(c) == other);
    assert(mine.len() == 0) by {
        if mine.len() > 0 {
            let q = mine[0];
            assert(mine.contains(q));
            assert(kids.contains(q));
            assert(v.markable(q));
            assert(inside(v, other, q));
        }
    }
    assert(w.parts[other].gray =~= v.parts[other].gray);
    assert(w.parts[other].nodes == v.parts[other].nodes);
    assert forall|q: GcPtr| #[trigger] w.live(q) && w.pid(q) == other implies !w.head(
        q,
    ).listed && w.parts[other].nodes.contains(q) by {
        assert(v.live(q));
        assert(inside(v, other, q));
        assert(!kids.contains(q));
    }
}

/// Marking one partition leaves another one alone to which it does not refer.
proof fn lemma_run_apart<T: GcTrace>(v: HeapView<T>, pid: int, steps: nat, other: int)
    requires
        0 <= pid < v.parts.len(),
        0 <= other < v.parts.len(),
        pid != other,
        shaded(v, pid),
        v.fresh(other),
        apart(v, pid, other),
    ensures
        mark_run(v, pid, steps).0.fresh(other),
    decreases steps, v.parts[pid].gray.len(),
{
    if v.parts[pid].gray.len() > 0 {
        let gray = v.parts[pid].gray;
        let p = gray.last();
        let w = v.popped(pid);
        assert(v.live(gray[gray.len() - 1]));
        lemma_popped_keeps(v, pid);
        lemma_popped_graph(v, pid);
        lemma_popped_shaded(v, pid, pid);
        lemma_apart_same(v, w, pid, other);
        assert(w.fresh(other)) by {
            assert forall|q: GcPtr| #[trigger] w.live(q) && w.pid(q) == other implies !w.head(
                q,
            ).listed && w.parts[other].nodes.contains(q) by {
                assert(v.live(q));
            }
        }
        if v.color(p) != GcTriColor::Gray {
            assert(shaded(w, pid));
            lemma_run_apart(w, pid, steps, other);
        } else if steps == 0 {
            let e = w.gray_pushed(pid, p);
            assert forall|q: GcPtr| #[trigger] e.live(q) && e.pid(q) == other implies !e.head(
                q,
            ).listed && e.parts[other].nodes.contains(q) by {
                assert(w.live(q));
            }
        } else {
            lemma_expanded_shaded(w, p, pid);
            lemma_expanded_keeps(w, p);
            lemma_expanded_graph(w, p);
            lemma_apart_same(w, expanded(w, p), pid, other);
            lemma_expanded_apart(w, p, pid, other);
            lemma_run_apart(expanded(w, p), pid, (steps - 1) as nat, other);
        }
    }
}

/// Marking a sound partition, in however many steps, keeps every partition sound. While it is in a
/// cycle, it must not refer to one that is not and whose colors are not in order; and where it
/// begins a new cycle, one that has entries left on its gray list must not refer to others.
pub proof fn law_mark_sound<T: GcTrace>(v: HeapView<T>, pid: GcPartitionId, steps: nat, i: int)
    requires
        v.wf(),
        v.has_part(pid),
        0 <= i < v.parts.len(),
        sound(v, pid.0 as int),
        sound(v, i),
        v.parts[pid.0 as int].marking && !steady(v, i) ==> apart(v, pid.0 as int, i),
        v.parts[pid.0 as int].marking || (pending_apart(v, i) && pending_apart(v, pid.0 as int)),
    ensures
        sound(v.prepared(pid), i),
        sound(mark_run(v.prepared(pid), pid.0 as int, steps).0, i),
        !v.parts[pid.0 as int].marking || steady(v, i) ==> steady(v.prepared(pid), i) && steady(
            mark_run(v.prepared(pid), pid.0 as int, steps).0,
            i,
        ),
{
    let k = pid.0 as int;
    let q = v.prepared(pid);
    let w = mark_run(q, k, steps).0;
    lemma_prepared_keeps(v, pid);
    lemma_mark_run_keeps(q, k, steps);
    lemma_run_parts(q, k, steps);
    lemma_keeps_trans(v, q, w);
    assert(w.parts[i].marking == q.parts[i].marking);
    if v.parts[k].marking {
        assert(steady(v, k));
        if steady(v, i) {
            law_mark_shaded(q, k, steps, i);
            if v.parts[i].marking {
                law_mark_tricolor(q, k, steps, i);
            }
            lemma_kept_chained(v, w, i);
        } else {
            lemma_run_apart(v, k, steps, i);
        }
    } else {
        lemma_begun(v, pid, k);
        lemma_begun(v, pid, i);
        law_mark_tricolor(q, k, steps, i);
        assert(q.parts[i].marking);
        lemma_kept_chained(v, q, i);
        lemma_kept_chained(v, w, i);
    }
}

proof fn lemma_begun<T: GcTrace>(v: HeapView<T>, pid: GcPartitionId, i: int)
    requires
        v.wf(),
        v.has_part(pid),
        !v.parts[pid.0 as int].marking,
        0 <= i < v.parts.len(),
        sound(v, i),
        pending_apart(v, i),
    ensures
        tricolor(v.prepared(pid), i),
        v.all_chained(i),
{
    if v.fresh(i) {
        law_prepare_tricolor(v, pid, i);
    } else {
        law_prepare_again(v, pid, i);
    }
}

proof fn lemma_kept_chained<T>(v: HeapView<T>, w: HeapView<T>, i: int)
    requires
        0 <= i < v.parts.len(),
        v.all_chained(i),
        keeps(v, w),
    ensures
        w.all_chained(i),
{
    assert forall|q: GcPtr| #[trigger] inside(w, i, q) implies inside(v, i, q) by {
        assert(v.live(q));
    }
    lemma_chained_same(v, w, i);
}

/// Giving the marking cycle of a sound partition up keeps every partition sound, and that one is
/// then between two cycles. Another one must not refer to it, unless it is itself between two
/// cycles with nothing left over.
pub proof fn law_reset_sound<T: GcTrace>(v: HeapView<T>, pid: int, i: int)
    requires
        v.wf(),
        0 <= pid < v.parts.len(),
        0 <= i < v.parts.len(),
        sound(v, pid),
        sound(v, i),
        i != pid && !v.fresh(i) ==> apart(v, i, pid),
    ensures
        sound(v.mark_dropped(pid), i),
        steady(v, i) && (i == pid || apart(v, i, pid)) ==> steady(v.mark_dropped(pid), i),
        v.mark_dropped(pid).fresh(pid),
        steady(v.mark_dropped(pid), pid),
{
    let w = v.mark_dropped(pid);
    lemma_mark_dropped_keeps(v, pid);
    lemma_kept_chained(v, w, pid);
    assert forall|p: GcPtr| #[trigger] w.live(p) && w.pid(p) == pid implies !w.head(p).listed
        && w.color(p) == GcTriColor::White by {
        assert(v.live(p));
        assert(v.parts[pid].nodes.contains(p));
    }
    if i != pid {
        let chain = v.parts[pid].nodes;
        let gray = v.parts[pid].gray;
        assert forall|p: GcPtr| #[trigger] inside(w, i, p) <==> inside(v, i, p) by {
            if v.live(p) {
                assert(w.pid(p) == v.pid(p));
            }
        }
        assert forall|p: GcPtr| #[trigger] inside(w, i, p) implies w.color(p) == v.color(p)
            && w.head(p).listed == v.head(p).listed by {
            assert(v.live(p));
            if chain.contains(p) {
                let k = choose|k: int| 0 <= k < chain.len() && chain[k] == p;
                assert(v.pid(v.parts[pid].nodes[k]) == pid);
            }
            if gray.contains(p) {
                let k = choose|k: int| 0 <= k < gray.len() && gray[k] == p;
                assert(v.live(v.parts[pid].gray[k]) && v.pid(v.parts[pid].gray[k]) == pid);
            }
        }
        assert(untouched(v, w, i));
        if v.fresh(i) {
            lemma_untouched_fresh(v, w, i);
        }
        if steady(v, i) && apart(v, i, pid) {
            assert forall|b: GcPtr| #[trigger]
                w.live(b) && w.color(b) == GcTriColor::White implies (v.live(b) && v.color(b)
                == GcTriColor::White) || forall|a: GcPtr| #[trigger]
                inside(v, i, a) && v.color(a) == GcTriColor::Black ==> !refs_of(v, a).contains(
                    b,
                ) by {
                assert(v.live(b));
                if v.color(b) != GcTriColor::White {
                    let k = choose|k: int| 0 <= k < chain.len() && chain[k] == b;
                    assert(v.pid(v.parts[pid].nodes[k]) == pid);
                }
            }
            lemma_untouched_steady(v, w, i);
        }
    }
}

/// Sweeping a sound partition at the end of its marking cycle keeps every partition sound, and
/// that one is then between two cycles, with its colors in order.
pub proof fn law_sweep_sound<T: GcTrace>(m: HeapView<T>, pid: GcPartitionId, i: int)
    requires
        m.wf(),
        m.sweepable(pid),
        0 <= i < m.parts.len(),
        sound(m, pid.0 as int),
        sound(m, i),
    ensures
        sound(m.sweep_done(pid.0 as int), i),
        steady(m, i) ==> steady(m.sweep_done(pid.0 as int), i),
        m.sweep_done(pid.0 as int).fresh(pid.0 as int),
        steady(m.sweep_done(pid.0 as int), pid.0 as int),
{
    let k = pid.0 as int;
    let w = m.sweep_done(k);
    let chain = m.parts[k].nodes;
    law_sweep_exact(m, k);
    lemma_filter_members(chain, |p: GcPtr| !m.dead(p));
    assert forall|p: GcPtr| #[trigger] w.live(p) && w.pid(p) == k implies w.parts[k].nodes.contains(
        p,
    ) && !w.head(p).listed by {
        assert(m.live(p));
        assert(chain.contains(p));
        if m.head(p).listed {
            assert(m.parts[k].gray.contains(p));
        }
    }
    if i != k {
        assert forall|p: GcPtr| #[trigger] inside(w, i, p) <==> inside(m, i, p) by {
            if inside(m, i, p) && chain.contains(p) {
                let j = choose|j: int| 0 <= j < chain.len() && chain[j] == p;
                assert(m.pid(m.parts[k].nodes[j]) == k);
            }
            if w.live(p) {
                assert(m.live(p));
            }
            if inside(m, i, p) {
                assert(w.live(p));
            }
        }
        assert(w.parts[i] == m.parts[i]);
        assert(untouched(m, w, i));
        assert forall|b: GcPtr| #[trigger] w.live(b) && w.color(b)
            == GcTriColor::White implies m.live(b) && m.color(b) == GcTriColor::White by {}
        lemma_untouched_sound(m, w, i);
    }
    assert(steady(w, k)) by {
        assert(steady(m, k));
        assert forall|a: GcPtr| #[trigger]
            w.live(a) && w.pid(a) == k && (w.color(a) == GcTriColor::Gray
                || w.head(a).listed) implies w.parts[k].gray.contains(a) by {
            assert(m.live(a));
        }
        assert forall|a: GcPtr, b: GcPtr|
            w.live(a) && w.pid(a) == k && w.color(a) == GcTriColor::Black && w.live(b)
                && #[trigger] refs_of(w, a).contains(b) implies w.color(b)
            != GcTriColor::White by {
            assert(m.live(a) && m.live(b));
            assert(refs_of(m, a).contains(b));
        }
    }
}

/// A collection leaves the colors of every partition in order, whatever state of marking it found,
/// and the collected one between two cycles.
pub proof fn law_collection_sound<T: GcNode>(v: HeapView<T>, pid: GcPartitionId, i: int)
    requires
        v.wf(),
        v.has_part(pid),
        settled(v),
        0 <= i < v.parts.len(),
    ensures
        steady(v.after_gc(pid), i),
        v.after_gc(pid).fresh(pid.0 as int),
{
    law_collection_exact(v, pid);
    assert(v.after_gc(pid).all_chained(i));
    law_collection_tricolor(v, pid, i);
}

} // verus!
