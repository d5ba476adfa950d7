//! Where nodes lie in the arenas.

use vstd::prelude::*;

use crate::arena::{
    law_allocations_disjoint, law_collect_disjoint, law_sweep_disjoint, taken, ArenaView, Span,
};
use crate::laws::collection::law_sweep_exact;
use crate::lemmas::{lemma_filter_members, lemma_push_members};
use crate::model::HeapView;
use crate::node::{GcPartitionId, GcPtr};
use crate::sweeping::law_drop_order;

verus! {

/// The arena range of a node.
pub open spec fn span_of<T>(v: HeapView<T>, p: GcPtr) -> Span {
    Span { start: v.nodes[p].offset.unwrap() as int, len: taken(v.size(p)) }
}

/// The arena ranges of the listed nodes.
pub open spec fn spans_of<T>(v: HeapView<T>, list: Seq<GcPtr>) -> Seq<Span> {
    Seq::new(list.len(), |k: int| span_of(v, list[k]))
}

/// The node lies in the arena of the partition.
pub open spec fn in_arena<T>(v: HeapView<T>, pid: int, p: GcPtr) -> bool {
    v.live(p) && v.pid(p) == pid && v.nodes[p].offset is Some
}

/// `list` is the nodes in the arena of a partition, and their ranges overlap neither each other
/// nor what the arena will hand out next.
pub open spec fn placed<T>(v: HeapView<T>, pid: int, list: Seq<GcPtr>) -> bool {
    &&& list.no_duplicates()
    &&& forall|p: GcPtr| #[trigger] list.contains(p) <==> in_arena(v, pid, p)
    &&& v.parts[pid].arena matches Some(a) && a.disjoint(spans_of(v, list), Seq::empty())
}

/// The ranges of the nodes in the arena of a partition overlap neither each other nor what the
/// arena will hand out next.
pub open spec fn well_placed<T>(v: HeapView<T>, pid: int) -> bool {
    exists|list: Seq<GcPtr>| placed(v, pid, list)
}

/// No two nodes share a byte of an arena.
pub proof fn law_nodes_apart<T>(v: HeapView<T>, pid: int, p: GcPtr, q: GcPtr)
    requires
        well_placed(v, pid),
        in_arena(v, pid, p),
        in_arena(v, pid, q),
        p != q,
    ensures
        span_of(v, p).apart(span_of(v, q)),
{
    let list = choose|list: Seq<GcPtr>| placed(v, pid, list);
    assert(list.contains(p) && list.contains(q));
    let i = choose|i: int| 0 <= i < list.len() && list[i] == p;
    let j = choose|j: int| 0 <= j < list.len() && list[j] == q;
    assert(spans_of(v, list)[i].apart(spans_of(v, list)[j]));
}

/// A new arena holds no nodes.
pub proof fn law_empty_placed<T>(v: HeapView<T>, pid: int)
    requires
        v.parts[pid].arena matches Some(a) && a == (ArenaView {
            capacity: a.capacity,
            bump: 0,
            free: Seq::empty(),
            live: 0,
        }) && a.capacity >= 0,
        forall|p: GcPtr| #[trigger] v.live(p) ==> v.pid(p) != pid,
    ensures
        well_placed(v, pid),
{
    let list = Seq::<GcPtr>::empty();
    assert(placed(v, pid, list));
}

/// An allocation keeps the nodes of an arena apart.
pub proof fn law_alloc_placed<T>(
    v: HeapView<T>,
    p: GcPtr,
    pid: GcPartitionId,
    dtype: u8,
    payload: T,
    skip_arena: bool,
)
    requires
        v.wf(),
        v.has_part(pid),
        !v.live(p),
        v.reg.infos[dtype as int].layout_align > 0,
        v.arena_place(pid.0 as int, dtype, skip_arena) matches Some(o) ==> 0 <= o <= usize::MAX,
        well_placed(v, pid.0 as int),
    ensures
        well_placed(v.allocated(p, pid, dtype, payload, skip_arena), pid.0 as int),
{
    let i = pid.0 as int;
    let w = v.allocated(p, pid, dtype, payload, skip_arena);
    let list = choose|list: Seq<GcPtr>| placed(v, i, list);
    let size = v.reg.infos[dtype as int].layout_size as int;
    let align = v.reg.infos[dtype as int].layout_align as int;
    assert(!list.contains(p));
    assert forall|k: int| 0 <= k < list.len() implies span_of(w, #[trigger] list[k]) == span_of(
        v,
        list[k],
    ) && list[k] != p by {
        assert(list.contains(list[k]));
    }
    match v.arena_place(i, dtype, skip_arena) {
        Some(o) => {
            let all = list.push(p);
            let a = v.parts[i].arena.unwrap();
            law_allocations_disjoint(a, spans_of(v, list), Seq::empty(), size, align);
            lemma_push_members(list, p);
            assert(spans_of(w, all) =~= spans_of(v, list).push(
                Span { start: o, len: taken(size) },
            ));
            assert forall|q: GcPtr| #[trigger] all.contains(q) <==> in_arena(w, i, q) by {
                assert(list.contains(q) <==> in_arena(v, i, q));
            }
            assert(placed(w, i, all));
        },
        None => {
            assert(spans_of(w, list) =~= spans_of(v, list));
            assert forall|q: GcPtr| #[trigger] list.contains(q) <==> in_arena(w, i, q) by {
                assert(list.contains(q) <==> in_arena(v, i, q));
            }
            if v.tries_arena(i, dtype, skip_arena) {
                let a = v.parts[i].arena.unwrap();
                assert(a.after_alloc(size, align) == a);
            }
            assert(placed(w, i, list));
        },
    }
}

/// What is left of the arena nodes when those of `gone` were given back.
proof fn lemma_collected_placed<T>(
    v: HeapView<T>,
    pid: int,
    list: Seq<GcPtr>,
    gone: Seq<GcPtr>,
) -> (left: Seq<GcPtr>)
    requires
        placed(v, pid, list),
        gone.no_duplicates(),
        forall|k: int|
            0 <= k < gone.len() ==> v.live(#[trigger] gone[k]) && v.pid(gone[k]) == pid,
    ensures
        left.no_duplicates(),
        forall|p: GcPtr| #[trigger]
            left.contains(p) <==> in_arena(v, pid, p) && !gone.contains(p),
        v.collected(v.parts[pid].arena.unwrap(), gone).0.disjoint(
            spans_of(v, left),
            v.collected(v.parts[pid].arena.unwrap(), gone).1,
        ),
    decreases gone.len(),
{
    let arena = v.parts[pid].arena.unwrap();
    if gone.len() == 0 {
        list
    } else {
        let rest = gone.drop_last();
        let p = gone.last();
        assert(v.live(gone[gone.len() - 1]) && v.pid(gone[gone.len() - 1]) == pid);
        assert forall|k: int| 0 <= k < rest.len() implies v.live(#[trigger] rest[k]) && v.pid(
            rest[k],
        ) == pid by {
            assert(rest[k] == gone[k]);
        }
        let before = lemma_collected_placed(v, pid, list, rest);
        assert(gone =~= rest.push(p));
        lemma_push_members(rest, p);
        assert(!rest.contains(p)) by {
            if rest.contains(p) {
                let k = choose|k: int| 0 <= k < rest.len() && rest[k] == p;
                assert(gone[k] == gone[gone.len() - 1]);
            }
        }
        if v.nodes[p].offset is Some {
            assert(before.contains(p));
            let k = choose|k: int| 0 <= k < before.len() && before[k] == p;
            let (a, holes) = v.collected(arena, rest);
            law_collect_disjoint(a, spans_of(v, before), holes, k, v.size(p));
            let left = before.remove(k);
            assert(spans_of(v, left) =~= spans_of(v, before).remove(k));
            assert forall|q: GcPtr| #[trigger] left.contains(q) <==> in_arena(v, pid, q)
                && !gone.contains(q) by {
                if left.contains(q) {
                    let m = choose|m: int| 0 <= m < left.len() && left[m] == q;
                    let m2 = if m < k {
                        m
                    } else {
                        m + 1
                    };
                    assert(before[m2] == q);
                    assert(before.contains(q));
                    assert(q != p);
                }
                if in_arena(v, pid, q) && !gone.contains(q) {
                    assert(before.contains(q));
                    let m = choose|m: int| 0 <= m < before.len() && before[m] == q;
                    let m2 = if m < k {
                        m
                    } else {
                        m - 1
                    };
                    assert(left[m2] == q);
                }
            }
            left
        } else {
            assert forall|q: GcPtr| #[trigger] before.contains(q) <==> in_arena(v, pid, q)
                && !gone.contains(q) by {}
            before
        }
    }
}

/// A sweep keeps the surviving nodes of an arena apart.
pub proof fn law_sweep_placed<T>(m: HeapView<T>, pid: int)
    requires
        m.wf(),
        0 <= pid < m.parts.len(),
        well_placed(m, pid),
    ensures
        well_placed(m.sweep_done(pid), pid),
{
    let list = choose|list: Seq<GcPtr>| placed(m, pid, list);
    let chain = m.parts[pid].nodes;
    let dead = m.dead_nodes(pid);
    lemma_filter_members(chain, |p: GcPtr| m.dead(p));
    assert forall|k: int| 0 <= k < dead.len() implies m.live(#[trigger] dead[k]) && m.pid(dead[k])
        == pid && m.head(dead[k]).dtype < m.reg.infos.len() by {
        let p = dead[k];
        assert(dead.contains(p));
        let j = choose|j: int| 0 <= j < chain.len() && chain[j] == p;
        assert(m.live(m.parts[pid].nodes[j]));
    }
    law_drop_order(m, dead);
    let gone = m.drop_order(dead);
    let u = m.unlinked(pid);
    let w = m.sweep_done(pid);
    law_sweep_exact(m, pid);
    assert forall|k: int| 0 <= k < gone.len() implies u.live(#[trigger] gone[k]) && u.pid(gone[k])
        == pid by {
        assert(gone.contains(gone[k]));
        let j = choose|j: int| 0 <= j < dead.len() && dead[j] == gone[k];
        assert(m.live(dead[j]));
    }
    assert(spans_of(u, list) =~= spans_of(m, list));
    assert(placed(u, pid, list)) by {
        assert forall|p: GcPtr| #[trigger] list.contains(p) <==> in_arena(u, pid, p) by {
            assert(list.contains(p) <==> in_arena(m, pid, p));
        }
    }
    let arena = m.parts[pid].arena.unwrap();
    let left = lemma_collected_placed(u, pid, list, gone);
    let (a, holes) = u.collected(arena, gone);
    law_sweep_disjoint(a, spans_of(u, left), holes);
    assert(w.parts[pid].arena == Some(a.after_sweep(holes)));
    assert forall|p: GcPtr| #[trigger] left.contains(p) <==> in_arena(w, pid, p) by {
        assert(w.live(p) <==> m.live(p) && !(chain.contains(p) && m.dead(p)));
    }
    assert forall|k: int| 0 <= k < left.len() implies span_of(w, #[trigger] left[k]) == span_of(
        u,
        left[k],
    ) by {
        assert(left.contains(left[k]));
        assert(w.live(left[k]));
    }
    assert(spans_of(w, left) =~= spans_of(u, left));
    assert(placed(w, pid, left));
}

} // verus!
