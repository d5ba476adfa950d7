//! What scopes, weak references and partitions come to, operation by operation.

use vstd::prelude::*;

use crate::arena::{ArenaView, Span};
use crate::heap::weak::{first_vacant, next_version};
use crate::laws::effects::{marks_only, others_kept, rest_kept, submitted};
use crate::model::{HeapView, StackView, WeakSlotView};
use crate::node::{GcPartitionId, GcPtr, HeadView};
use crate::node_link::select;
use crate::partition::fresh_part;
use crate::scoping::first_idle;
use crate::table::NodeView;
use crate::weak_id::GcWeakRawId;

verus! {

/// Everything but scope stacks, nodes and partitions is as it was.
pub open spec fn apart_from_scopes<T>(v: HeapView<T>, w: HeapView<T>) -> bool {
    rest_kept(v, HeapView { stacks: v.stacks, ..w })
}

/// All scope stacks but `s` are as they were.
pub open spec fn other_stacks<T>(v: HeapView<T>, w: HeapView<T>, s: int) -> bool {
    &&& w.stacks.len() == v.stacks.len()
    &&& forall|k: int| 0 <= k < v.stacks.len() && k != s ==> #[trigger] w.stacks[k] == v.stacks[k]
    &&& w.stacks[s].partition == v.stacks[s].partition
}

/// All scopes of stack `s` but the one at `d` are as they were, and that one belongs to the same
/// partition.
pub open spec fn other_scopes<T>(v: HeapView<T>, w: HeapView<T>, s: int, d: int) -> bool {
    &&& other_stacks(v, w, s)
    &&& w.stacks[s].scopes.len() == v.stacks[s].scopes.len()
    &&& forall|k: int|
        0 <= k < v.stacks[s].scopes.len() && k != d ==> #[trigger] w.stacks[s].scopes[k]
            == v.stacks[s].scopes[k]
    &&& w.stacks[s].scopes[d].partition == v.stacks[s].scopes[d].partition
}

/// The stack that is acquired is the first one that is not in use, or a new one.
pub proof fn law_first_idle(stacks: Seq<StackView>, k: int)
    ensures
        0 <= first_idle(stacks) <= stacks.len(),
        first_idle(stacks) < stacks.len() ==> stacks[first_idle(stacks)].partition is None,
        0 <= k < first_idle(stacks) ==> stacks[k].partition is Some,
    decreases stacks.len(),
{
    if stacks.len() > 0 && stacks[0].partition is Some {
        law_first_idle(stacks.drop_first(), k - 1);
        if 0 < k < first_idle(stacks) {
            assert(stacks.drop_first()[k - 1] == stacks[k]);
        }
    }
}

/// Opening a scope puts an empty one, of the partition of the stack, innermost.
pub proof fn law_open<T>(v: HeapView<T>, s: int)
    requires
        0 <= s < v.stacks.len(),
        v.stacks[s].partition is Some,
    ensures
        ({
            let w = v.scope_opened(s);
            &&& w.stacks[s].scopes.len() == v.stacks[s].scopes.len() + 1
            &&& w.stacks[s].scopes.drop_last() == v.stacks[s].scopes
            &&& w.stacks[s].scopes.last().nodes.len() == 0
            &&& Some(w.stacks[s].scopes.last().partition) == v.stacks[s].partition
            &&& other_stacks(v, w, s)
            &&& w.nodes == v.nodes
            &&& w.parts == v.parts
            &&& apart_from_scopes(v, w)
        }),
{
    assert(v.scope_opened(s).stacks[s].scopes.drop_last() =~= v.stacks[s].scopes);
}

/// Adding a node to a scope: the scope holds it last, and it is marked as held. If the partition of
/// the scope is marking, the node goes to the gray list of that partition; else no color changes.
pub proof fn law_hold<T>(v: HeapView<T>, s: int, d: int, p: GcPtr)
    requires
        0 <= s < v.stacks.len(),
        0 <= d < v.stacks[s].scopes.len(),
        v.nodes.dom().contains(p),
    ensures
        ({
            let w = v.scope_added(s, d, p);
            let i = v.stacks[s].scopes[d].partition.0 as int;
            let marking = i < v.parts.len() && v.parts[i].marking;
            &&& w.stacks[s].scopes[d].nodes == v.stacks[s].scopes[d].nodes.push(p)
            &&& w.nodes[p].head.local
            &&& marks_only(
                NodeView { head: HeadView { local: true, ..v.nodes[p].head }, ..v.nodes[p] },
                w.nodes[p],
            )
            &&& marking ==> submitted(v, w, i, p)
            &&& !marking ==> w.parts == v.parts && w.nodes[p].head.color == v.nodes[p].head.color
                && w.nodes[p].head.listed == v.nodes[p].head.listed
            &&& others_kept(v, w, p)
            &&& other_scopes(v, w, s, d)
            &&& apart_from_scopes(v, w)
        }),
{
    assert(v.scope_added(s, d, p).nodes.dom() =~= v.nodes.dom());
}

/// Protecting a node: a pinned one is left alone, and so is every one where no scope is open; else
/// the innermost scope holds it.
pub proof fn law_protect<T>(v: HeapView<T>, s: int, p: GcPtr)
    requires
        0 <= s < v.stacks.len(),
    ensures
        v.nodes[p].head.root || v.nodes[p].head.local || v.stacks[s].scopes.len() == 0
            ==> v.protected(s, p) == v,
        !v.nodes[p].head.root && !v.nodes[p].head.local && v.stacks[s].scopes.len() > 0
            ==> v.protected(s, p) == v.scope_added(s, v.stacks[s].scopes.len() - 1, p),
{
}

/// Taking the node at position `k` out of a scope: it is not marked as held any more, the last one
/// takes its place, and all others stay.
pub proof fn law_let_go<T>(v: HeapView<T>, s: int, d: int, k: int, j: int)
    requires
        0 <= s < v.stacks.len(),
        0 <= d < v.stacks[s].scopes.len(),
        0 <= k < v.stacks[s].scopes[d].nodes.len(),
        v.nodes.dom().contains(v.stacks[s].scopes[d].nodes[k]),
    ensures
        ({
            let w = v.scope_removed(s, d, k);
            let before = v.stacks[s].scopes[d].nodes;
            let after = w.stacks[s].scopes[d].nodes;
            let p = before[k];
            &&& after.len() == before.len() - 1
            &&& 0 <= j < after.len() && j != k ==> after[j] == before[j]
            &&& k < after.len() ==> after[k] == before.last()
            &&& w.nodes[p] == (NodeView {
                head: HeadView { local: false, ..v.nodes[p].head },
                ..v.nodes[p]
            })
            &&& others_kept(v, w, p)
            &&& other_scopes(v, w, s, d)
            &&& w.parts == v.parts
            &&& apart_from_scopes(v, w)
        }),
{
    assert(v.scope_removed(s, d, k).nodes.dom() =~= v.nodes.dom());
}

/// Handing a node on from one scope to another: the one loses it and the other holds it last. No
/// node changes.
pub proof fn law_hand_on<T>(v: HeapView<T>, s: int, d: int, k: int, s2: int, d2: int)
    requires
        0 <= s < v.stacks.len(),
        0 <= d < v.stacks[s].scopes.len(),
        0 <= k < v.stacks[s].scopes[d].nodes.len(),
        0 <= s2 < v.stacks.len(),
        0 <= d2 < v.stacks[s2].scopes.len(),
        s2 != s || d2 != d,
    ensures
        ({
            let w = v.scope_moved(s, d, k, s2, d2);
            let p = v.stacks[s].scopes[d].nodes[k];
            &&& w.stacks[s].scopes[d].nodes == v.scope_removed(s, d, k).stacks[s].scopes[d].nodes
            &&& w.stacks[s2].scopes[d2].nodes == v.stacks[s2].scopes[d2].nodes.push(p)
            &&& w.nodes == v.nodes
            &&& w.parts == v.parts
            &&& apart_from_scopes(v, w)
        }),
{
}

/// Clearing a scope: it holds nothing, and what it held is not marked as held any more. Closing the
/// innermost scope clears it and takes it off.
pub proof fn law_release<T>(v: HeapView<T>, s: int, d: int, p: GcPtr)
    requires
        0 <= s < v.stacks.len(),
        0 <= d < v.stacks[s].scopes.len(),
        v.nodes.dom().contains(p),
    ensures
        ({
            let w = v.scope_cleared(s, d);
            let was = v.stacks[s].scopes[d].nodes.contains(p);
            &&& w.stacks[s].scopes[d].nodes.len() == 0
            &&& w.nodes.dom() == v.nodes.dom()
            &&& was ==> w.nodes[p] == (NodeView {
                head: HeadView { local: false, ..v.nodes[p].head },
                ..v.nodes[p]
            })
            &&& !was ==> w.nodes[p] == v.nodes[p]
            &&& other_scopes(v, w, s, d)
            &&& w.parts == v.parts
            &&& apart_from_scopes(v, w)
        }),
        d == v.stacks[s].scopes.len() - 1 ==> {
            let w = v.scope_popped(s);
            &&& w.nodes == v.scope_cleared(s, d).nodes
            &&& w.parts == v.parts
            &&& w.stacks[s].scopes == v.stacks[s].scopes.drop_last()
            &&& other_stacks(v, w, s)
            &&& apart_from_scopes(v, w)
        },
{
    let w = v.scope_cleared(s, d);
    assert(w.nodes.dom() =~= v.nodes.dom());
    if d == v.stacks[s].scopes.len() - 1 {
        assert(v.scope_popped(s).stacks[s].scopes =~= v.stacks[s].scopes.drop_last());
    }
}

/// What a weak id stands for: the node of its slot, if the id carries the version that the slot
/// carries now, which is never zero.
pub proof fn law_upgrade<T>(v: HeapView<T>, id: GcWeakRawId, p: GcPtr)
    ensures
        v.upgraded(id) == Some(p) <==> {
            let k = id.spec_index() as int;
            &&& k < v.weak.len()
            &&& id.spec_version() != 0
            &&& v.weak[k].version == id.spec_version()
            &&& v.weak[k].node == Some(p)
        },
{
}

/// Versions go up by one and start over at one: none is zero, and none follows itself.
pub proof fn law_versions(version: u16)
    ensures
        next_version(version) != 0,
        next_version(version) != version,
        version < 65535 ==> next_version(version) == version + 1,
        version == 65535 ==> next_version(version) == 1,
{
}

/// A first weak reference to a node: it takes the first vacant slot, with its next version, or a
/// new slot with version one. The node gets the id, and no other slot or node changes.
pub proof fn law_downgrade<T>(v: HeapView<T>, p: GcPtr, id: GcWeakRawId, j: int)
    requires
        v.nodes.dom().contains(p),
    ensures
        ({
            let w = v.with_weak(p, id);
            let k = first_vacant(v.weak);
            &&& 0 <= k <= v.weak.len()
            &&& k < v.weak.len() ==> v.weak[k].node is None && w.weak.len() == v.weak.len()
                && w.weak[k].version == next_version(v.weak[k].version)
            &&& k == v.weak.len() ==> w.weak.len() == v.weak.len() + 1 && w.weak[k].version == 1
            &&& w.weak[k].node == Some(p)
            &&& 0 <= j < k ==> v.weak[j].node is Some
            &&& 0 <= j < v.weak.len() && j != k ==> w.weak[j] == v.weak[j]
            &&& w.nodes[p] == (NodeView {
                head: HeadView { weak: id, ..v.nodes[p].head },
                ..v.nodes[p]
            })
            &&& others_kept(v, w, p)
            &&& w.parts == v.parts
            &&& rest_kept(v, HeapView { weak: v.weak, ..w })
        }),
{
    lemma_first_vacant(v.weak, j);
    assert(v.with_weak(p, id).nodes.dom() =~= v.nodes.dom());
}

proof fn lemma_first_vacant(weak: Seq<WeakSlotView>, j: int)
    ensures
        0 <= first_vacant(weak) <= weak.len(),
        first_vacant(weak) < weak.len() ==> weak[first_vacant(weak)].node is None,
        0 <= j < first_vacant(weak) ==> weak[j].node is Some,
    decreases weak.len(),
{
    if weak.len() > 0 && weak[0].node is Some {
        lemma_first_vacant(weak.drop_first(), j - 1);
        if 0 < j < first_vacant(weak) {
            assert(weak.drop_first()[j - 1] == weak[j]);
        }
    }
}

/// A new partition is empty, idle and charged with nothing; it has an arena of the wanted size, if
/// that is not zero and can be had.
pub proof fn law_new_partition(capacity: usize, max: usize)
    ensures
        ({
            let part = fresh_part(capacity, max);
            &&& part.nodes.len() == 0
            &&& part.gray.len() == 0
            &&& !part.marking
            &&& part.used == 0
            &&& part.arena_max == max
            &&& capacity == 0 ==> part.arena is None
            &&& capacity != 0 && vstd::layout::valid_layout(capacity, 16) ==> part.arena is Some
            &&& part.arena matches Some(a) ==> a.capacity == capacity && a.bump == 0 && a.live == 0
                && a.free.len() == 0
        }),
{
}

/// Finalizing a partition: the scopes on its stacks are emptied, weak references to the nodes in
/// its chain are void, and their payloads are gone where dropping them runs code. Nodes, chains and
/// accounts stay.
pub proof fn law_finalize<T>(v: HeapView<T>, pid: GcPartitionId, p: GcPtr, s: int, d: int, k: int)
    requires
        v.wf(),
        (pid.0 as int) < v.parts.len(),
        v.nodes.dom().contains(p),
    ensures
        ({
            let w = v.finalized(pid);
            let mine = v.parts[pid.0 as int].nodes.contains(p);
            let code = v.reg.infos[v.nodes[p].head.dtype as int].needs_drop;
            &&& w.nodes.dom() == v.nodes.dom()
            &&& w.parts == v.parts
            &&& w.total == v.total
            &&& mine && code ==> w.nodes[p].payload is None
            &&& !(mine && code) ==> w.nodes[p].payload == v.nodes[p].payload
            &&& mine ==> w.nodes[p].head.weak.spec_version() == 0
            &&& !mine ==> w.nodes[p].head.weak == v.nodes[p].head.weak
            &&& w.nodes[p] == (NodeView {
                head: HeadView {
                    weak: w.nodes[p].head.weak,
                    local: w.nodes[p].head.local,
                    ..v.nodes[p].head
                },
                payload: w.nodes[p].payload,
                ..v.nodes[p]
            })
            &&& w.nodes[p].head.local ==> v.nodes[p].head.local
            &&& (forall|a: int, b: int|
                0 <= a < v.stacks.len() && 0 <= b < v.stacks[a].scopes.len()
                    && v.stacks[a].partition == Some(pid)
                    ==> !(#[trigger] v.stacks[a].scopes[b]).nodes.contains(p))
                ==> w.nodes[p].head.local == v.nodes[p].head.local
            &&& rest_kept(v, HeapView { weak: v.weak, stacks: v.stacks, ..w })
            &&& w.stacks.len() == v.stacks.len()
            &&& 0 <= s < v.stacks.len() && 0 <= d < v.stacks[s].scopes.len() ==> {
                &&& w.stacks[s].partition == v.stacks[s].partition
                &&& w.stacks[s].scopes.len() == v.stacks[s].scopes.len()
                &&& v.stacks[s].partition == Some(pid) ==> w.stacks[s].scopes[d].nodes.len() == 0
                &&& v.stacks[s].partition != Some(pid) ==> w.stacks[s].scopes[d]
                    == v.stacks[s].scopes[d]
                &&& v.stacks[s].partition == Some(pid) && v.stacks[s].scopes[d].nodes.contains(p)
                    ==> !w.nodes[p].head.local
            }
            &&& w.weak.len() == v.weak.len()
            &&& 0 <= k < v.weak.len() && v.weak[k].node == Some(p) && mine ==> w.weak[k].node is None
                && w.weak[k].version == v.weak[k].version
            &&& 0 <= k < v.weak.len() && v.weak[k].node == Some(p) && !mine ==> w.weak[k]
                == v.weak[k]
        }),
{
    let w = v.finalized(pid);
    crate::weak_id::GcWeakRawId::lemma_null();
    assert(w.nodes.dom() =~= v.nodes.dom());
    if 0 <= s < v.stacks.len() && 0 <= d < v.stacks[s].scopes.len() && v.stacks[s].partition
        == Some(pid) && v.stacks[s].scopes[d].nodes.contains(p) {
        let i = choose|i: int|
            0 <= i < v.stacks[s].scopes[d].nodes.len() && v.stacks[s].scopes[d].nodes[i] == p;
        assert(crate::model::is_place(v.stacks, s, d, i));
        assert(crate::model::place(v.stacks, s, d, i) == p);
        assert(v.held_in(|s: int, d: int| v.stack_of(s, pid), p));
    }
    if v.held_in(|s: int, d: int| v.stack_of(s, pid), p) {
        let (a, b, c) = choose|a: int, b: int, c: int|
            crate::model::is_place(v.stacks, a, b, c) && #[trigger] crate::model::place(
                v.stacks,
                a,
                b,
                c,
            ) == p && v.stack_of(a, pid);
        assert(v.stacks[a].scopes[b].nodes[c] == p);
        assert(v.stacks[a].scopes[b].nodes.contains(p));
    }
}

/// Giving a partition back: the listed nodes are gone, the partition is as good as new with an
/// arena of the same size, and all that was accounted to it is taken off the total. The other
/// partitions stay.
pub proof fn law_give_back<T>(v: HeapView<T>, i: int, list: Seq<GcPtr>, p: GcPtr, k: int)
    requires
        0 <= i < v.parts.len(),
        0 <= k < v.parts.len(),
    ensures
        ({
            let w = v.released(i, list);
            &&& w.nodes.dom().contains(p) <==> v.nodes.dom().contains(p) && !list.contains(p)
            &&& w.nodes.dom().contains(p) ==> w.nodes[p] == v.nodes[p]
            &&& w.total == v.total - v.parts[i].used
            &&& w.parts.len() == v.parts.len()
            &&& k != i ==> w.parts[k] == v.parts[k]
            &&& w.parts[i].nodes.len() == 0
            &&& w.parts[i].gray.len() == 0
            &&& !w.parts[i].marking
            &&& w.parts[i].used == 0
            &&& v.parts[i].arena is None ==> w.parts[i].arena is None
            &&& w.parts[i].arena matches Some(a) ==> v.parts[i].arena is Some && a.capacity
                == v.parts[i].arena.unwrap().capacity as usize && a.live == 0 && a.bump == 0
            &&& v.parts[i].arena is Some && v.parts[i].arena.unwrap().capacity as usize != 0
                && vstd::layout::valid_layout(
                v.parts[i].arena.unwrap().capacity as usize,
                16,
            ) ==> w.parts[i].arena is Some
            &&& w.parts[i].arena_max == v.parts[i].arena_max as usize
            &&& rest_kept(v, HeapView { weak: v.weak, total: v.total, ..w })
        }),
{
    assert(list.to_set().contains(p) <==> list.contains(p));
}

/// Nodes of one drop pass are disposed of in the order of the list.
pub proof fn law_drop_stable<T>(v: HeapView<T>, list: Seq<GcPtr>, pass: u8)
    requires
        v.reg.wf(),
        v.reg.passes.contains(pass),
    ensures
        v.drop_order(list).filter(
            |p: GcPtr| v.reg.infos[v.nodes[p].head.dtype as int].drop_pass == pass,
        ) == list.filter(|p: GcPtr| v.reg.infos[v.nodes[p].head.dtype as int].drop_pass == pass),
{
    lemma_stable(v, list, pass, v.reg.passes.len() as int);
    assert(v.reg.passes.take(v.reg.passes.len() as int) =~= v.reg.passes);
}

proof fn lemma_stable<T>(v: HeapView<T>, list: Seq<GcPtr>, pass: u8, n: int)
    requires
        v.reg.wf(),
        0 <= n <= v.reg.passes.len(),
    ensures
        ({
            let f = |p: GcPtr| v.reg.infos[v.nodes[p].head.dtype as int].drop_pass == pass;
            v.order_upto(list, n).filter(f) == if v.reg.passes.take(n).contains(pass) {
                list.filter(f)
            } else {
                Seq::empty()
            }
        }),
    decreases n,
{
    let f = |p: GcPtr| v.reg.infos[v.nodes[p].head.dtype as int].drop_pass == pass;
    let passes = v.reg.passes;
    if n == 0 {
        assert(Seq::<GcPtr>::empty().filter(f) =~= Seq::empty());
        assert(passes.take(0).len() == 0);
    } else {
        lemma_stable(v, list, pass, n - 1);
        let a = v.order_upto(list, n - 1);
        let g = |p: GcPtr| v.drop_pass(p) == passes[n - 1];
        let b = list.filter(g);
        Seq::filter_distributes_over_add(a, b, f);
        assert(v.order_upto(list, n) == a + b);
        let before = passes.take(n - 1);
        let now = passes.take(n);
        assert(now =~= before.push(passes[n - 1]));
        if passes[n - 1] == pass {
            if before.contains(pass) {
                let k = choose|k: int| 0 <= k < before.len() && before[k] == pass;
                assert(passes[k] < passes[n - 1]);
            }
            assert(now[n - 1] == pass);
            crate::lemmas::lemma_filter_same(list, f, g);
            lemma_filter_twice(list, f);
            assert(a.filter(f) + b.filter(f) =~= list.filter(f));
        } else {
            lemma_filter_other(list, g, f);
            assert(a.filter(f) + b.filter(f) =~= a.filter(f));
            if now.contains(pass) {
                let k = choose|k: int| 0 <= k < now.len() && now[k] == pass;
                assert(before[k] == pass);
            }
            if before.contains(pass) {
                let k = choose|k: int| 0 <= k < before.len() && before[k] == pass;
                assert(now[k] == pass);
            }
        }
    }
}

proof fn lemma_filter_twice(list: Seq<GcPtr>, f: spec_fn(GcPtr) -> bool)
    ensures
        list.filter(f).filter(f) == list.filter(f),
    decreases list.len(),
{
    reveal(Seq::filter);
    if list.len() > 0 {
        let d = list.drop_last();
        lemma_filter_twice(d, f);
        if f(list.last()) {
            assert(list.filter(f).drop_last() =~= d.filter(f));
        }
    }
}

proof fn lemma_filter_other(
    list: Seq<GcPtr>,
    g: spec_fn(GcPtr) -> bool,
    f: spec_fn(GcPtr) -> bool,
)
    requires
        forall|p: GcPtr| #[trigger] g(p) ==> !f(p),
    ensures
        list.filter(g).filter(f) == Seq::<GcPtr>::empty(),
    decreases list.len(),
{
    reveal(Seq::filter);
    if list.len() > 0 {
        let d = list.drop_last();
        lemma_filter_other(d, g, f);
        if g(list.last()) {
            assert(list.filter(g).drop_last() =~= d.filter(g));
        }
    } else {
        assert(list.filter(g) =~= Seq::empty());
    }
}

/// The arena gets the places of disposed nodes back one by one: that of a node with a place in it,
/// of the size of its type, and nothing for a node without.
pub proof fn law_places_back<T>(v: HeapView<T>, a: ArenaView, gone: Seq<GcPtr>, next: GcPtr)
    ensures
        v.collected(a, Seq::empty()) == (a, Seq::<Span>::empty()),
        ({
            let (b, holes) = v.collected(a, gone);
            let node = v.nodes[next];
            let size = v.reg.infos[node.head.dtype as int].layout_size as int;
            let (c, more) = v.collected(a, gone.push(next));
            &&& node.offset is None ==> c == b && more == holes
            &&& node.offset is Some ==> {
                let o = node.offset.unwrap() as int;
                c == b.after_collect(o, size) && more == b.holes_after(holes, o, size)
            }
        }),
{
    assert(gone.push(next).drop_last() =~= gone);
}

/// Selecting by marks: with one node more, the selection has it last exactly if its mark is wanted.
pub proof fn law_select(list: Seq<GcPtr>, marks: Seq<bool>, next: GcPtr, mark: bool, want: bool)
    requires
        marks.len() == list.len(),
    ensures
        select(Seq::empty(), Seq::empty(), want).len() == 0,
        mark == want ==> select(list.push(next), marks.push(mark), want) == select(
            list,
            marks,
            want,
        ).push(next),
        mark != want ==> select(list.push(next), marks.push(mark), want) == select(
            list,
            marks,
            want,
        ),
        select(list, marks, true).len() + select(list, marks, false).len() == list.len(),
    decreases list.len(),
{
    assert(list.push(next).drop_last() =~= list);
    assert(marks.push(mark).drop_last() =~= marks);
    if list.len() > 0 {
        law_select(
            list.drop_last(),
            marks.drop_last(),
            list.last(),
            marks.last(),
            want,
        );
    }
}

} // verus!
