//! Facts about the heap model that the proofs of the operations share.

use vstd::prelude::*;

use crate::arena::taken;
use crate::gctype::GcTypeInfo;
use crate::model::{
    bytes_of, held, is_place, node_size, place, share, size_of_all, sum_used, HeapView, PartView,
};
use crate::node::{GcPartitionId, GcPtr};
use crate::table::NodeView;
use crate::weak_id::GcWeakRawId;

verus! {

/// The nodes of a partition are those with one of them left out, and that one.
pub proof fn lemma_bytes_remove<T>(
    nodes: Map<GcPtr, NodeView<T>>,
    infos: Seq<GcTypeInfo>,
    pid: int,
    q: GcPtr,
)
    requires
        nodes.dom().finite(),
        nodes.dom().contains(q),
    ensures
        bytes_of(nodes, infos, pid) == share(infos, nodes[q], pid) + bytes_of(
            nodes.remove(q),
            infos,
            pid,
        ),
    decreases nodes.dom().len(),
{
    let p = nodes.dom().choose();
    if p != q {
        lemma_bytes_remove(nodes.remove(p), infos, pid, q);
        lemma_bytes_remove(nodes.remove(q), infos, pid, p);
        assert(nodes.remove(p).remove(q) =~= nodes.remove(q).remove(p));
    }
}

/// Changes that leave the share of every node alone leave the sum alone.
pub proof fn lemma_bytes_same<T>(
    a: Map<GcPtr, NodeView<T>>,
    b: Map<GcPtr, NodeView<T>>,
    infos: Seq<GcTypeInfo>,
    pid: int,
)
    requires
        a.dom().finite(),
        a.dom() == b.dom(),
        forall|p: GcPtr| #[trigger]
            a.dom().contains(p) ==> share(infos, a[p], pid) == share(infos, b[p], pid),
    ensures
        bytes_of(a, infos, pid) == bytes_of(b, infos, pid),
    decreases a.dom().len(),
{
    if a.dom().len() > 0 {
        let p = a.dom().choose();
        assert(a.remove(p).dom() =~= b.remove(p).dom());
        assert forall|q: GcPtr| #[trigger] a.remove(p).dom().contains(q) implies share(
            infos,
            a.remove(p)[q],
            pid,
        ) == share(infos, b.remove(p)[q], pid) by {
            assert(a.dom().contains(q));
        }
        lemma_bytes_same(a.remove(p), b.remove(p), infos, pid);
    }
}

/// The size of the nodes of a partition is not negative.
pub proof fn lemma_bytes_nonneg<T>(
    nodes: Map<GcPtr, NodeView<T>>,
    infos: Seq<GcTypeInfo>,
    pid: int,
)
    requires
        nodes.dom().finite(),
    ensures
        bytes_of(nodes, infos, pid) >= 0,
    decreases nodes.dom().len(),
{
    if nodes.dom().len() > 0 {
        lemma_bytes_nonneg(nodes.remove(nodes.dom().choose()), infos, pid);
    }
}

/// Without a node of the partition the size of its nodes is zero.
pub proof fn lemma_bytes_none<T>(
    nodes: Map<GcPtr, NodeView<T>>,
    infos: Seq<GcTypeInfo>,
    pid: int,
)
    requires
        nodes.dom().finite(),
        forall|p: GcPtr| #[trigger] nodes.dom().contains(p) ==> nodes[p].head.partition.0 != pid,
    ensures
        bytes_of(nodes, infos, pid) == 0,
    decreases nodes.dom().len(),
{
    if nodes.dom().len() > 0 {
        let p = nodes.dom().choose();
        assert(nodes.dom().contains(p));
        assert forall|q: GcPtr| #[trigger] nodes.remove(p).dom().contains(q) implies nodes.remove(
            p,
        )[q].head.partition.0 != pid by {
            assert(nodes.dom().contains(q));
        }
        lemma_bytes_none(nodes.remove(p), infos, pid);
    }
}

/// Changing one partition's bytes changes the sum by the difference.
pub proof fn lemma_sum_update(parts: Seq<PartView>, i: int, part: PartView)
    requires
        0 <= i < parts.len(),
    ensures
        sum_used(parts.update(i, part)) == sum_used(parts) - parts[i].used + part.used,
    decreases parts.len(),
{
    let n = parts.len() - 1;
    if i == n {
        assert(parts.update(i, part).drop_last() =~= parts.drop_last());
    } else {
        lemma_sum_update(parts.drop_last(), i, part);
        assert(parts.update(i, part).drop_last() =~= parts.drop_last().update(i, part));
    }
}

/// One partition's bytes do not exceed the sum.
pub proof fn lemma_sum_part(parts: Seq<PartView>, i: int)
    requires
        0 <= i < parts.len(),
        forall|k: int| 0 <= k < parts.len() ==> (#[trigger] parts[k]).used >= 0,
    ensures
        0 <= parts[i].used <= sum_used(parts),
    decreases parts.len(),
{
    let n = parts.len() - 1;
    assert(parts[n].used >= 0);
    assert forall|k: int| 0 <= k < parts.drop_last().len() implies (
    #[trigger] parts.drop_last()[k]).used >= 0 by {
        assert(parts[k].used >= 0);
    }
    if i < n {
        lemma_sum_part(parts.drop_last(), i);
    } else if n > 0 {
        lemma_sum_part(parts.drop_last(), 0);
    } else {
        assert(sum_used(parts.drop_last()) == 0);
    }
}

/// The sum depends on the bytes alone.
pub proof fn lemma_sum_same(a: Seq<PartView>, b: Seq<PartView>)
    requires
        a.len() == b.len(),
        forall|k: int| 0 <= k < a.len() ==> (#[trigger] a[k]).used == b[k].used,
    ensures
        sum_used(a) == sum_used(b),
    decreases a.len(),
{
    if a.len() > 0 {
        assert forall|k: int| 0 <= k < a.drop_last().len() implies (
        #[trigger] a.drop_last()[k]).used == b.drop_last()[k].used by {
            assert(a[k].used == b[k].used);
        }
        lemma_sum_same(a.drop_last(), b.drop_last());
        assert(a[a.len() - 1].used == b[a.len() - 1].used);
    }
}

/// A header differs in nothing but colors, traversal and list marks, the root flag and the text.
pub open spec fn head_keeps<T>(a: NodeView<T>, b: NodeView<T>) -> bool {
    &&& b.head.arena == a.head.arena
    &&& b.head.local == a.head.local
    &&& b.head.dtype == a.head.dtype
    &&& b.head.partition == a.head.partition
    &&& b.head.weak == a.head.weak
    &&& b.offset == a.offset
}

/// A partition differs in nothing but its gray list, its marking state and what its arena has
/// handed out.
pub open spec fn part_keeps(a: PartView, b: PartView) -> bool {
    &&& b.nodes == a.nodes
    &&& b.used == a.used
    &&& b.arena is Some <==> a.arena is Some
    &&& a.arena is Some ==> b.arena.unwrap().capacity == a.arena.unwrap().capacity
}

/// Two heaps differ in nothing that the invariant of a heap depends on.
pub open spec fn keeps<T>(v: HeapView<T>, w: HeapView<T>) -> bool {
    &&& w.id == v.id
    &&& w.reg == v.reg
    &&& w.weak == v.weak
    &&& w.stacks == v.stacks
    &&& w.total == v.total
    &&& w.nodes.dom() == v.nodes.dom()
    &&& forall|p: GcPtr| #[trigger] v.live(p) ==> head_keeps(v.nodes[p], w.nodes[p])
    &&& w.parts.len() == v.parts.len()
    &&& forall|i: int|
        0 <= i < v.parts.len() ==> part_keeps(v.parts[i], #[trigger] w.parts[i])
}

/// A partition differs in nothing but its chain, its gray list, its marking state and what its
/// arena has handed out.
pub open spec fn part_frame(a: PartView, b: PartView) -> bool {
    &&& b.used == a.used
    &&& b.arena is Some <==> a.arena is Some
    &&& a.arena is Some ==> b.arena.unwrap().capacity == a.arena.unwrap().capacity
}

/// Two heaps differ in nothing that the invariant of a heap depends on, but for the chains.
pub open spec fn frame<T>(v: HeapView<T>, w: HeapView<T>) -> bool {
    &&& w.id == v.id
    &&& w.reg == v.reg
    &&& w.weak == v.weak
    &&& w.stacks == v.stacks
    &&& w.total == v.total
    &&& w.nodes.dom() == v.nodes.dom()
    &&& forall|p: GcPtr| #[trigger] v.live(p) ==> head_keeps(v.nodes[p], w.nodes[p])
    &&& w.parts.len() == v.parts.len()
    &&& forall|i: int|
        0 <= i < v.parts.len() ==> part_frame(v.parts[i], #[trigger] w.parts[i])
}

/// A node differs in nothing but its marks, its flags for roots and scopes, its text and its
/// payload.
pub open spec fn node_base<T>(a: NodeView<T>, b: NodeView<T>) -> bool {
    &&& b.head.arena == a.head.arena
    &&& b.head.dtype == a.head.dtype
    &&& b.head.partition == a.head.partition
    &&& b.head.weak == a.head.weak
    &&& b.offset == a.offset
}

/// Two heaps differ in nothing that the invariant of a heap depends on, but for the chains and
/// the scopes.
pub open spec fn base<T>(v: HeapView<T>, w: HeapView<T>) -> bool {
    &&& w.id == v.id
    &&& w.reg == v.reg
    &&& w.weak == v.weak
    &&& w.total == v.total
    &&& w.nodes.dom() == v.nodes.dom()
    &&& forall|p: GcPtr| #[trigger] v.live(p) ==> node_base(v.nodes[p], w.nodes[p])
    &&& w.parts.len() == v.parts.len()
    &&& forall|i: int|
        0 <= i < v.parts.len() ==> part_frame(v.parts[i], #[trigger] w.parts[i])
}

/// A node keeps its place: its type, its partition and its memory.
pub open spec fn node_core<T>(a: NodeView<T>, b: NodeView<T>) -> bool {
    &&& b.head.arena == a.head.arena
    &&& b.head.dtype == a.head.dtype
    &&& b.head.partition == a.head.partition
    &&& b.offset == a.offset
}

/// Two heaps differ in nothing that the invariant of a heap depends on, but for the chains, the
/// scopes and the weak references.
pub open spec fn places<T>(v: HeapView<T>, w: HeapView<T>) -> bool {
    &&& w.id == v.id
    &&& w.reg == v.reg
    &&& w.total == v.total
    &&& w.nodes.dom() == v.nodes.dom()
    &&& forall|p: GcPtr| #[trigger] v.live(p) ==> node_core(v.nodes[p], w.nodes[p])
    &&& w.parts.len() == v.parts.len()
    &&& forall|i: int|
        0 <= i < v.parts.len() ==> part_frame(v.parts[i], #[trigger] w.parts[i])
}

/// The invariant survives every change that `places` allows, if the chains, the scopes and the
/// weak references are in order.
pub proof fn lemma_core_wf<T>(v: HeapView<T>, w: HeapView<T>)
    requires
        v.wf(),
        places(v, w),
        w.chains_ok(),
        w.scopes_ok(),
        w.weak_ok(),
    ensures
        w.wf(),
{
    assert(w.nodes_ok()) by {
        assert forall|p: GcPtr| #[trigger] w.live(p) implies p.heap == w.id && w.pid(p)
            < w.parts.len() && w.head(p).dtype < w.reg.infos.len() by {
            assert(v.live(p));
        }
    }
    assert(w.arenas_ok()) by {
        assert forall|p: GcPtr| #[trigger] w.live(p) implies {
            &&& w.head(p).arena <==> w.nodes[p].offset is Some
            &&& w.nodes[p].offset matches Some(o) ==> {
                &&& w.parts[w.pid(p)].arena matches Some(a)
                &&& o + crate::arena::taken(w.size(p)) <= a.capacity
            }
        } by {
            assert(v.live(p));
            assert(part_frame(v.parts[w.pid(p)], w.parts[w.pid(p)]));
        }
    }
    assert(w.memory_ok()) by {
        lemma_sum_same(v.parts, w.parts);
        assert forall|i: int| 0 <= i < w.parts.len() implies bytes_of(
            w.nodes,
            w.reg.infos,
            i,
        ) <= (#[trigger] w.parts[i]).used by {
            assert forall|p: GcPtr| #[trigger] v.nodes.dom().contains(p) implies share(
                v.reg.infos,
                v.nodes[p],
                i,
            ) == share(v.reg.infos, w.nodes[p], i) by {
                assert(v.live(p));
            }
            lemma_bytes_same(v.nodes, w.nodes, v.reg.infos, i);
            assert(v.parts[i].used == w.parts[i].used);
        }
    }
}

/// The invariant survives every change that `base` allows, if the chains and the scopes are in
/// order.
pub proof fn lemma_base_wf<T>(v: HeapView<T>, w: HeapView<T>)
    requires
        v.wf(),
        base(v, w),
        w.chains_ok(),
        w.scopes_ok(),
    ensures
        w.wf(),
{
    assert(w.weak_ok()) by {
        assert forall|p: GcPtr| #[trigger] w.live(p) && w.head(p).weak.spec_version()
            != 0 implies {
            let id = w.head(p).weak;
            &&& id.spec_index() < w.weak.len()
            &&& w.weak[id.spec_index() as int].version == id.spec_version()
            &&& w.weak[id.spec_index() as int].node == Some(p)
        } by {
            assert(v.live(p));
        }
        assert forall|k: int| #![trigger w.weak[k]] 0 <= k < w.weak.len() implies (
        w.weak[k].node matches Some(p) ==> {
            &&& w.live(p)
            &&& w.head(p).weak.spec_index() == k
            &&& w.head(p).weak.spec_version() == w.weak[k].version
            &&& w.weak[k].version != 0
        }) by {
            assert(v.weak[k] == w.weak[k]);
            if w.weak[k].node is Some {
                assert(v.live(w.weak[k].node.unwrap()));
            }
        }
    }
    assert forall|p: GcPtr| #[trigger] v.live(p) implies node_core(v.nodes[p], w.nodes[p]) by {
        assert(node_base(v.nodes[p], w.nodes[p]));
    }
    lemma_core_wf(v, w);
}

/// The invariant survives every change that `frame` allows, if the chains are in order.
pub proof fn lemma_frame_wf<T>(v: HeapView<T>, w: HeapView<T>)
    requires
        v.wf(),
        frame(v, w),
        w.chains_ok(),
    ensures
        w.wf(),
{
    assert(w.scopes_ok()) by {
        assert forall|s: int, d: int, i: int| is_place(w.stacks, s, d, i) implies w.live(
            #[trigger] place(w.stacks, s, d, i),
        ) && w.head(place(w.stacks, s, d, i)).local by {
            assert(v.live(place(v.stacks, s, d, i)));
        }
    }
    assert forall|p: GcPtr| #[trigger] v.live(p) implies node_base(v.nodes[p], w.nodes[p]) by {
        assert(head_keeps(v.nodes[p], w.nodes[p]));
    }
    lemma_base_wf(v, w);
}

/// The invariant survives every change that `keeps` allows.
pub proof fn lemma_keeps_wf<T>(v: HeapView<T>, w: HeapView<T>)
    requires
        v.wf(),
        keeps(v, w),
    ensures
        w.wf(),
{
    assert(w.chains_ok()) by {
        assert forall|i: int| 0 <= i < w.parts.len() implies (
        #[trigger] w.parts[i]).nodes.no_duplicates() by {
            assert(v.parts[i].nodes.no_duplicates());
        }
        assert forall|i: int, k: int|
            0 <= i < w.parts.len() && 0 <= k < w.parts[i].nodes.len() implies w.live(
            #[trigger] w.parts[i].nodes[k],
        ) && w.pid(w.parts[i].nodes[k]) == i by {
            assert(v.live(v.parts[i].nodes[k]));
        }
    }
    assert forall|i: int| 0 <= i < v.parts.len() implies part_frame(
        v.parts[i],
        #[trigger] w.parts[i],
    ) by {
        assert(part_keeps(v.parts[i], w.parts[i]));
    }
    lemma_frame_wf(v, w);
}

pub proof fn lemma_keeps_trans<T>(a: HeapView<T>, b: HeapView<T>, c: HeapView<T>)
    requires
        keeps(a, b),
        keeps(b, c),
    ensures
        keeps(a, c),
{
    assert forall|p: GcPtr| #[trigger] a.live(p) implies head_keeps(a.nodes[p], c.nodes[p]) by {
        assert(b.live(p));
    }
    assert forall|i: int| 0 <= i < a.parts.len() implies part_keeps(
        a.parts[i],
        #[trigger] c.parts[i],
    ) by {
        assert(part_keeps(a.parts[i], b.parts[i]));
    }
}

/// The size of listed nodes, one after the other.
pub proof fn lemma_size_push<T>(
    nodes: Map<GcPtr, NodeView<T>>,
    infos: Seq<GcTypeInfo>,
    list: Seq<GcPtr>,
    p: GcPtr,
)
    ensures
        size_of_all(nodes, infos, list.push(p)) == size_of_all(nodes, infos, list) + node_size(
            infos,
            nodes[p],
        ),
{
    assert(list.push(p).drop_last() =~= list);
}

/// What a filter keeps: exactly the members that satisfy the predicate, none of them twice if
/// none was there twice.
pub proof fn lemma_filter_members<A>(s: Seq<A>, pred: spec_fn(A) -> bool)
    ensures
        forall|x: A| #[trigger] s.filter(pred).contains(x) <==> s.contains(x) && pred(x),
        s.no_duplicates() ==> s.filter(pred).no_duplicates(),
        s.filter(pred).len() <= s.len(),
    decreases s.len(),
{
    reveal(Seq::filter);
    if s.len() > 0 {
        let d = s.drop_last();
        let f = d.filter(pred);
        let r = s.filter(pred);
        lemma_filter_members(d, pred);
        assert(r == if pred(s.last()) {
            f.push(s.last())
        } else {
            f
        });
        assert forall|x: A| #[trigger] r.contains(x) <==> s.contains(x) && pred(x) by {
            if r.contains(x) {
                let k = choose|k: int| 0 <= k < r.len() && r[k] == x;
                if k < f.len() {
                    assert(f[k] == x);
                    assert(f.contains(x));
                    let j = choose|j: int| 0 <= j < d.len() && d[j] == x;
                    assert(s[j] == x);
                } else {
                    assert(s[s.len() - 1] == x);
                }
            }
            if s.contains(x) && pred(x) {
                let j = choose|j: int| 0 <= j < s.len() && s[j] == x;
                if j < d.len() {
                    assert(d[j] == x);
                    assert(f.contains(x));
                    let k = choose|k: int| 0 <= k < f.len() && f[k] == x;
                    assert(r[k] == x);
                } else {
                    assert(r[r.len() - 1] == x);
                }
            }
        }
        if s.no_duplicates() {
            assert(d.no_duplicates());
            assert forall|a: int, b: int| 0 <= a < b < r.len() implies r[a] != r[b] by {
                if b == f.len() {
                    assert(f.contains(r[a])) by {
                        assert(f[a] == r[a]);
                    }
                    let j = choose|j: int| 0 <= j < d.len() && d[j] == r[a];
                    assert(s[j] != s[s.len() - 1]);
                }
            }
        }
    }
}

/// Predicates that agree on the members filter alike.
pub proof fn lemma_filter_same<A>(s: Seq<A>, f: spec_fn(A) -> bool, g: spec_fn(A) -> bool)
    requires
        forall|k: int| 0 <= k < s.len() ==> f(#[trigger] s[k]) == g(s[k]),
    ensures
        s.filter(f) == s.filter(g),
    decreases s.len(),
{
    reveal(Seq::filter);
    if s.len() > 0 {
        let d = s.drop_last();
        assert forall|k: int| 0 <= k < d.len() implies f(#[trigger] d[k]) == g(d[k]) by {
            assert(d[k] == s[k]);
        }
        lemma_filter_same(d, f, g);
        assert(f(s[s.len() - 1]) == g(s[s.len() - 1]));
    }
}

/// The members of a list with one more at the end.
pub proof fn lemma_push_members<A>(s: Seq<A>, x: A)
    ensures
        forall|y: A| #[trigger] s.push(x).contains(y) <==> s.contains(y) || y == x,
{
    assert forall|y: A| #[trigger] s.push(x).contains(y) <==> s.contains(y) || y == x by {
        if s.contains(y) {
            let k = choose|k: int| 0 <= k < s.len() && s[k] == y;
            assert(s.push(x)[k] == y);
        }
        assert(s.push(x)[s.len() as int] == x);
    }
}

/// The members of a list with one more in front.
pub proof fn lemma_cons_members<A>(x: A, s: Seq<A>)
    ensures
        forall|y: A| #[trigger] (seq![x] + s).contains(y) <==> s.contains(y) || y == x,
{
    let t = seq![x] + s;
    assert forall|y: A| #[trigger] t.contains(y) <==> s.contains(y) || y == x by {
        if s.contains(y) {
            let k = choose|k: int| 0 <= k < s.len() && s[k] == y;
            assert(t[k + 1] == y);
        }
        assert(t[0] == x);
        if t.contains(y) && y != x {
            let k = choose|k: int| 0 <= k < t.len() && t[k] == y;
            assert(s[k - 1] == y);
        }
    }
}

/// The invariant survives an allocation.
pub proof fn lemma_allocated_wf<T>(
    v: HeapView<T>,
    p: GcPtr,
    pid: GcPartitionId,
    dtype: u8,
    payload: T,
    skip_arena: bool,
)
    requires
        v.wf(),
        !v.live(p),
        p.heap == v.id,
        v.has_part(pid),
        dtype < v.reg.infos.len(),
        v.arena_place(pid.0 as int, dtype, skip_arena) matches Some(o) ==> 0 <= o <= usize::MAX
            && o + taken(v.reg.infos[dtype as int].layout_size as int)
            <= v.parts[pid.0 as int].arena.unwrap().capacity,
    ensures
        v.allocated(p, pid, dtype, payload, skip_arena).wf(),
{
    GcWeakRawId::lemma_null();
    let i = pid.0 as int;
    let w = v.allocated(p, pid, dtype, payload, skip_arena);
    let node = v.fresh_node(pid, dtype, payload, skip_arena);
    let size = v.reg.infos[dtype as int].layout_size as int;
    assert(w.nodes == v.nodes.insert(p, node));
    assert(w.nodes.dom() =~= v.nodes.dom().insert(p));
    assert forall|q: GcPtr| #[trigger] w.live(q) implies q == p || v.live(q) by {}
    assert(w.parts.len() == v.parts.len());
    assert(w.nodes_ok()) by {
        assert forall|q: GcPtr| #[trigger] w.live(q) implies q.heap == w.id && w.pid(q)
            < w.parts.len() && w.head(q).dtype < w.reg.infos.len() by {
            if q != p {
                assert(v.live(q));
            }
        }
    }
    assert forall|k: int| 0 <= k < w.parts.len() implies (#[trigger] w.parts[k]).nodes
        == v.parts[k].nodes by {}
    assert(w.chains_ok()) by {
        assert forall|k: int| 0 <= k < w.parts.len() implies (
        #[trigger] w.parts[k]).nodes.no_duplicates() by {
            assert(v.parts[k].nodes.no_duplicates());
        }
        assert forall|k: int, m: int|
            0 <= k < w.parts.len() && 0 <= m < w.parts[k].nodes.len() implies w.live(
            #[trigger] w.parts[k].nodes[m],
        ) && w.pid(w.parts[k].nodes[m]) == k by {
            assert(v.live(v.parts[k].nodes[m]));
        }
    }
    assert(w.weak_ok()) by {
        assert forall|q: GcPtr| #[trigger] w.live(q) && w.head(q).weak.spec_version()
            != 0 implies {
            let id = w.head(q).weak;
            &&& id.spec_index() < w.weak.len()
            &&& w.weak[id.spec_index() as int].version == id.spec_version()
            &&& w.weak[id.spec_index() as int].node == Some(q)
        } by {
            if q != p {
                assert(v.live(q));
            }
        }
        assert forall|k: int| #![trigger w.weak[k]] 0 <= k < w.weak.len() implies (
        w.weak[k].node matches Some(q) ==> {
            &&& w.live(q)
            &&& w.head(q).weak.spec_index() == k
            &&& w.head(q).weak.spec_version() == w.weak[k].version
            &&& w.weak[k].version != 0
        }) by {
            assert(v.weak[k] == w.weak[k]);
            if w.weak[k].node is Some {
                assert(v.live(w.weak[k].node.unwrap()));
            }
        }
    }
    assert(w.arenas_ok()) by {
        assert forall|q: GcPtr| #[trigger] w.live(q) implies {
            &&& w.head(q).arena <==> w.nodes[q].offset is Some
            &&& w.nodes[q].offset matches Some(o) ==> {
                &&& w.parts[w.pid(q)].arena matches Some(a)
                &&& o + taken(w.size(q)) <= a.capacity
            }
        } by {
            if q != p {
                assert(v.live(q));
            }
        }
    }
    assert(w.memory_ok()) by {
        let part = PartView { arena: w.parts[i].arena, used: v.parts[i].used + size, ..v.parts[i] };
        assert(w.parts =~= v.parts.update(i, part));
        lemma_sum_update(v.parts, i, part);
        assert forall|k: int| 0 <= k < w.parts.len() implies bytes_of(w.nodes, w.reg.infos, k)
            <= (#[trigger] w.parts[k]).used by {
            lemma_bytes_remove(w.nodes, w.reg.infos, k, p);
            assert(w.nodes.remove(p) =~= v.nodes);
            assert(bytes_of(v.nodes, v.reg.infos, k) <= v.parts[k].used);
        }
    }
    assert(w.scopes_ok()) by {
        assert forall|s: int, d: int, m: int| is_place(w.stacks, s, d, m) implies w.live(
            #[trigger] place(w.stacks, s, d, m),
        ) && w.head(place(w.stacks, s, d, m)).local by {
            assert(v.live(place(v.stacks, s, d, m)));
        }
    }
}

/// The invariant survives putting an unlisted node of the partition in its chain.
pub proof fn lemma_attached_wf<T>(v: HeapView<T>, pid: int, p: GcPtr)
    requires
        v.wf(),
        0 <= pid < v.parts.len(),
        v.live(p),
        v.pid(p) == pid,
        !v.parts[pid].nodes.contains(p),
    ensures
        v.attached(pid, p).wf(),
{
    let w = v.attached(pid, p);
    let chain = seq![p] + v.parts[pid].nodes;
    assert(w.nodes_ok()) by {
        assert forall|q: GcPtr| #[trigger] w.live(q) implies q.heap == w.id && w.pid(q)
            < w.parts.len() && w.head(q).dtype < w.reg.infos.len() by {
            assert(v.live(q));
        }
    }
    assert(w.chains_ok()) by {
        assert forall|k: int| 0 <= k < w.parts.len() implies (
        #[trigger] w.parts[k]).nodes.no_duplicates() by {
            assert(v.parts[k].nodes.no_duplicates());
            if k == pid {
                assert forall|a: int, b: int| 0 <= a < b < chain.len() implies chain[a]
                    != chain[b] by {
                    if a == 0 {
                        assert(v.parts[pid].nodes[b - 1] == chain[b]);
                    }
                }
            }
        }
        assert forall|k: int, m: int|
            0 <= k < w.parts.len() && 0 <= m < w.parts[k].nodes.len() implies w.live(
            #[trigger] w.parts[k].nodes[m],
        ) && w.pid(w.parts[k].nodes[m]) == k by {
            if k == pid {
                if m > 0 {
                    assert(v.live(v.parts[k].nodes[m - 1]));
                }
            } else {
                assert(v.live(v.parts[k].nodes[m]));
            }
        }
    }
    assert(w.weak_ok()) by {
        assert forall|q: GcPtr| #[trigger] w.live(q) && w.head(q).weak.spec_version()
            != 0 implies {
            let id = w.head(q).weak;
            &&& id.spec_index() < w.weak.len()
            &&& w.weak[id.spec_index() as int].version == id.spec_version()
            &&& w.weak[id.spec_index() as int].node == Some(q)
        } by {
            assert(v.live(q));
        }
        assert forall|k: int| #![trigger w.weak[k]] 0 <= k < w.weak.len() implies (
        w.weak[k].node matches Some(q) ==> {
            &&& w.live(q)
            &&& w.head(q).weak.spec_index() == k
            &&& w.head(q).weak.spec_version() == w.weak[k].version
            &&& w.weak[k].version != 0
        }) by {
            assert(v.weak[k] == w.weak[k]);
            if w.weak[k].node is Some {
                assert(v.live(w.weak[k].node.unwrap()));
            }
        }
    }
    assert(w.arenas_ok()) by {
        assert forall|q: GcPtr| #[trigger] w.live(q) implies {
            &&& w.head(q).arena <==> w.nodes[q].offset is Some
            &&& w.nodes[q].offset matches Some(o) ==> {
                &&& w.parts[w.pid(q)].arena matches Some(a)
                &&& o + taken(w.size(q)) <= a.capacity
            }
        } by {
            assert(v.live(q));
        }
    }
    assert(w.memory_ok()) by {
        lemma_sum_same(v.parts, w.parts);
        assert forall|k: int| 0 <= k < w.parts.len() implies bytes_of(w.nodes, w.reg.infos, k)
            <= (#[trigger] w.parts[k]).used by {
            assert(bytes_of(v.nodes, v.reg.infos, k) <= v.parts[k].used);
        }
    }
    assert(w.scopes_ok()) by {
        assert forall|s: int, d: int, m: int| is_place(w.stacks, s, d, m) implies w.live(
            #[trigger] place(w.stacks, s, d, m),
        ) && w.head(place(w.stacks, s, d, m)).local by {
            assert(v.live(place(v.stacks, s, d, m)));
        }
    }
}

/// The invariant survives the disposal of a node that is in no chain and in no scope.
pub proof fn lemma_disposed_wf<T>(v: HeapView<T>, p: GcPtr)
    requires
        v.wf(),
        v.live(p),
        !v.parts[v.pid(p)].nodes.contains(p),
        !held(v.stacks, p),
    ensures
        v.disposed(v.pid(p), seq![p]).wf(),
        v.parts[v.pid(p)].used >= v.size(p),
        v.disposed(v.pid(p), seq![p]).nodes == v.nodes.remove(p),
        size_of_all(v.nodes, v.reg.infos, seq![p]) == v.size(p),
{
    let i = v.pid(p);
    let one = seq![p];
    let w = v.disposed(i, one);
    assert(one.contains(p)) by {
        assert(one[0] == p);
    }
    assert(one.to_set() =~= set![p]);
    assert(w.nodes =~= v.nodes.remove(p));
    assert(size_of_all(v.nodes, v.reg.infos, one) == v.size(p)) by {
        assert(one.drop_last() =~= Seq::<GcPtr>::empty());
        assert(size_of_all(v.nodes, v.reg.infos, one.drop_last()) == 0);
    }
    lemma_bytes_remove(v.nodes, v.reg.infos, i, p);
    lemma_bytes_nonneg(v.nodes.remove(p), v.reg.infos, i);
    assert(bytes_of(v.nodes, v.reg.infos, i) <= v.parts[i].used);
    assert(w.nodes_ok()) by {
        assert forall|q: GcPtr| #[trigger] w.live(q) implies q.heap == w.id && w.pid(q)
            < w.parts.len() && w.head(q).dtype < w.reg.infos.len() by {
            assert(v.live(q));
        }
    }
    assert forall|k: int| 0 <= k < w.parts.len() implies (#[trigger] w.parts[k]).nodes
        == v.parts[k].nodes by {}
    assert(w.chains_ok()) by {
        assert forall|k: int| 0 <= k < w.parts.len() implies (
        #[trigger] w.parts[k]).nodes.no_duplicates() by {
            assert(v.parts[k].nodes.no_duplicates());
        }
        assert forall|k: int, m: int|
            0 <= k < w.parts.len() && 0 <= m < w.parts[k].nodes.len() implies w.live(
            #[trigger] w.parts[k].nodes[m],
        ) && w.pid(w.parts[k].nodes[m]) == k by {
            assert(v.live(v.parts[k].nodes[m]) && v.pid(v.parts[k].nodes[m]) == k);
            assert(v.parts[k].nodes.contains(v.parts[k].nodes[m]));
        }
    }
    assert(w.weak_ok()) by {
        assert forall|q: GcPtr| #[trigger] w.live(q) && w.head(q).weak.spec_version()
            != 0 implies {
            let id = w.head(q).weak;
            &&& id.spec_index() < w.weak.len()
            &&& w.weak[id.spec_index() as int].version == id.spec_version()
            &&& w.weak[id.spec_index() as int].node == Some(q)
        } by {
            assert(v.live(q));
        }
        assert forall|k: int| #![trigger w.weak[k]] 0 <= k < w.weak.len() implies (
        w.weak[k].node matches Some(q) ==> {
            &&& w.live(q)
            &&& w.head(q).weak.spec_index() == k
            &&& w.head(q).weak.spec_version() == w.weak[k].version
            &&& w.weak[k].version != 0
        }) by {
            if w.weak[k].node is Some {
                assert(v.weak[k] == w.weak[k]);
                assert(v.live(w.weak[k].node.unwrap()));
            }
        }
    }
    assert(w.arenas_ok()) by {
        assert forall|q: GcPtr| #[trigger] w.live(q) implies {
            &&& w.head(q).arena <==> w.nodes[q].offset is Some
            &&& w.nodes[q].offset matches Some(o) ==> {
                &&& w.parts[w.pid(q)].arena matches Some(a)
                &&& o + taken(w.size(q)) <= a.capacity
            }
        } by {
            assert(v.live(q));
        }
    }
    assert(w.memory_ok()) by {
        lemma_sum_update(v.parts, i, w.parts[i]);
        assert(w.parts =~= v.parts.update(i, w.parts[i]));
        assert forall|k: int| 0 <= k < w.parts.len() implies bytes_of(w.nodes, w.reg.infos, k)
            <= (#[trigger] w.parts[k]).used by {
            lemma_bytes_remove(v.nodes, v.reg.infos, k, p);
            assert(bytes_of(v.nodes, v.reg.infos, k) <= v.parts[k].used);
        }
    }
    assert(w.scopes_ok()) by {
        assert forall|s: int, d: int, m: int| is_place(w.stacks, s, d, m) implies w.live(
            #[trigger] place(w.stacks, s, d, m),
        ) && w.head(place(w.stacks, s, d, m)).local by {
            assert(v.live(place(v.stacks, s, d, m)));
        }
    }
}

} // verus!
